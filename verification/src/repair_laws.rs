//! What a repair may touch, what renames move, and what becomes of files that others share.

use vstd::prelude::*;
use crate::catalog::CatalogIndex;
use crate::graph::current_name;
use crate::diagnosis_laws::has_name;
use crate::doctor::{authorized, list_fault, move_of, renames, superseded};
use crate::gitignore::{drop_blank_end, ignore_lines, ignore_text, lemma_outside_plain, with_block};
use crate::install::{is_desired, TransactionJournal};
use crate::lock::{managed_names, managed_sources, normal_source, with_slashes};
use crate::model::{is_name, InstalledSkillView, InstalledState, SkillSelection};
use crate::name_map::{lemma_walk_finite, walk};
use crate::outside::{json_member, json_string_text};
use crate::paths::{joined_path, within};
use crate::plan_laws::agrees;
use crate::resolve::{resolved_views, ResolvedSkill};
use crate::text::{ascending, join, lemma_find_char, lines, views, Text};
use crate::transaction_laws::lemma_desired_name;

verus! {

/// A list of names is accepted exactly where every name is portable and each stands before the next.
pub proof fn law_name_lists_are_ordered(kind: Text, names: Seq<Text>)
    ensures
        list_fault(kind, names) is None <==> ascending(names) && forall|i: int|
            0 <= i < names.len() ==> is_name(#[trigger] names[i]),
{
}

/// The state records exactly what is resolved.
pub open spec fn is_settled(state: InstalledState, resolved: Seq<ResolvedSkill>) -> bool {
    state.skills@.dom().len() == resolved.len() && forall|i: int|
        0 <= i < resolved.len() ==> state.skills@.contains_key((#[trigger] resolved[i]).key@)
            && agrees(state.skills@[resolved[i].key@], resolved[i])
}

/// A recorded name that no resolved skill has.
pub open spec fn is_left_over(state: InstalledState, resolved: Seq<ResolvedSkill>, name: Text) -> bool {
    !has_name(resolved, name) && exists|k: Text|
        state.skills@.contains_key(k) && (#[trigger] state.skills@[k]).installed_name@ == name
}

proof fn lemma_left_over(state: InstalledState, resolved: Seq<ResolvedSkill>, name: Text)
    ensures
        superseded(state@.skills, resolved_views(resolved)).contains(name) == is_left_over(
            state,
            resolved,
            name,
        ),
{
    lemma_desired_name(resolved, name);
    let all = state@.skills;
    if exists|k: Text| all.contains_key(k) && (#[trigger] all[k]).installed_name == name {
        let k = choose|k: Text| all.contains_key(k) && (#[trigger] all[k]).installed_name == name;
        assert(state.skills@[k].installed_name@ == name);
    }
    if exists|k: Text|
        state.skills@.contains_key(k) && (#[trigger] state.skills@[k]).installed_name@ == name {
        let k = choose|k: Text|
            state.skills@.contains_key(k) && (#[trigger] state.skills@[k]).installed_name@ == name;
        assert(all[k].installed_name == name);
    }
}

proof fn lemma_settled(state: InstalledState, resolved: Seq<ResolvedSkill>)
    ensures
        crate::doctor::is_current(state@.skills, resolved_views(resolved)) == is_settled(
            state,
            resolved,
        ),
{
    let rs = resolved_views(resolved);
    let all = state@.skills;
    assert(all.dom() =~= state.skills@.dom());
    assert forall|i: int| 0 <= i < resolved.len() && state.skills@.contains_key(
        resolved[i].key@,
    ) implies crate::plan::differs(all[(#[trigger] rs[i]).key], rs[i]) == !agrees(
        state.skills@[resolved[i].key@],
        resolved[i],
    ) by {
        crate::plan_laws::law_changes_follow_the_records(state, resolved[i]);
    }
    if crate::doctor::is_current(all, rs) {
        assert forall|i: int| 0 <= i < resolved.len() implies state.skills@.contains_key(
            (#[trigger] resolved[i]).key@,
        ) && agrees(state.skills@[resolved[i].key@], resolved[i]) by {
            assert(rs[i] == resolved[i]@);
            assert(all.contains_key(rs[i].key));
        }
    }
    if is_settled(state, resolved) {
        assert forall|i: int| 0 <= i < rs.len() implies all.contains_key((#[trigger] rs[i]).key)
            && !crate::plan::differs(all[rs[i].key], rs[i]) by {
            assert(state.skills@.contains_key(resolved[i].key@));
        }
    }
}

/// An interrupted transaction is accepted exactly where it is of this scope and configuration, its
/// lists are in order, it wants only resolved names, removes no resolved name, and removes just the
/// recorded names that no resolved skill has, or has come to its end and left the state settled. It
/// may then touch the resolved names, and before its end the left over ones.
pub proof fn law_transactions_are_checked(
    journal: TransactionJournal,
    global: bool,
    fingerprint: Text,
    resolved: Seq<ResolvedSkill>,
    state: InstalledState,
    name: Text,
)
    ensures
        ({
            let r = authorized(
                journal,
                global,
                fingerprint,
                resolved_views(resolved),
                state@.skills,
            );
            let desired = views(journal.desired@);
            let removed = views(journal.remove@);
            let ended = journal.phase is C && is_settled(state, resolved);
            &&& r is Ok <==> {
                &&& journal.v == 1
                &&& journal.scope@ == (if global {
                    "g"@
                } else {
                    "p"@
                })
                &&& journal.config@ == fingerprint
                &&& list_fault("desired"@, desired) is None
                &&& list_fault("remove"@, removed) is None
                &&& forall|i: int| 0 <= i < desired.len() ==> has_name(resolved, #[trigger] desired[i])
                &&& forall|i: int|
                    0 <= i < removed.len() ==> !has_name(resolved, #[trigger] removed[i])
                &&& ended || removed == walk(superseded(state@.skills, resolved_views(resolved)))
            }
            &&& r matches Ok(names) ==> (names.contains(name) <==> has_name(resolved, name) || (
            !ended && is_left_over(state, resolved, name)))
            &&& superseded(state@.skills, resolved_views(resolved)).contains(name) <==> is_left_over(
                state,
                resolved,
                name,
            )
        }),
{
    let rs = resolved_views(resolved);
    lemma_left_over(state, resolved, name);
    lemma_settled(state, resolved);
    lemma_desired_name(resolved, name);
    let desired = views(journal.desired@);
    let removed = views(journal.remove@);
    assert forall|i: int| 0 <= i < desired.len() implies is_desired(rs, #[trigger] desired[i])
        == has_name(resolved, desired[i]) by {
        lemma_desired_name(resolved, desired[i]);
    }
    assert forall|i: int| 0 <= i < removed.len() implies is_desired(rs, #[trigger] removed[i])
        == has_name(resolved, removed[i]) by {
        lemma_desired_name(resolved, removed[i]);
    }
}

/// A selection stays where its catalog has the skill. It moves exactly where its catalog does not have
/// it but declares where it went, to a skill of the same scope that is not selected yet.
pub proof fn law_renames_move_selections(
    catalogs: Map<Text, CatalogIndex>,
    skills: Map<Text, SkillSelection>,
    global: bool,
    alias: Text,
    name: Text,
)
    requires
        !alias.contains('/'),
    ensures
        ({
            let key = alias + seq!['/'] + name;
            let catalog = catalogs[alias];
            let at = current_name(renames(catalog), name);
            let target = alias + seq!['/'] + at;
            let r = move_of(catalogs, skills, global, key);
            &&& r == Ok::<Option<Text>, Text>(None) <==> catalogs.contains_key(alias)
                && catalog.skills@.contains_key(name)
            &&& r matches Ok(Some(to)) ==> to == target
            &&& (r matches Ok(Some(_))) <==> {
                &&& catalogs.contains_key(alias)
                &&& !catalog.skills@.contains_key(name)
                &&& renames(catalog).contains_key(name)
                &&& catalog.skills@[at].global == global
                &&& !skills.contains_key(target)
            }
        }),
{
    reveal_strlit("/");
    assert("/"@ =~= seq!['/']);
    let key = alias + seq!['/'] + name;
    let n = alias.len() as int;
    assert forall|j: int| 0 <= j < n implies key[j] != '/' by {
        assert(key[j] == alias[j]);
    }
    assert(key[n] == '/');
    lemma_find_char(key, '/', n);
    assert(key.take(n) =~= alias);
    assert(key.skip(n + 1) =~= name);
}

// The ignore file.

proof fn lemma_entries(skills: Map<Text, InstalledSkillView>, keys: Seq<Text>, n: int, line: Text)
    requires
        0 <= n <= keys.len(),
    ensures
        ignore_lines(skills, keys, n).contains(line) == (exists|i: int|
            0 <= i < n && skills[#[trigger] keys[i]].gitignore && line == "/**/skills/"@
                + skills[keys[i]].installed_name),
    decreases n,
{
    if n > 0 {
        lemma_entries(skills, keys, n - 1, line);
        let front = ignore_lines(skills, keys, n - 1);
        let whole = ignore_lines(skills, keys, n);
        let last = keys[n - 1];
        if front.contains(line) {
            let i = front.index_of(line);
            assert(whole[i] == line);
        }
        if whole.len() > front.len() {
            assert(whole[whole.len() - 1] == "/**/skills/"@ + skills[last].installed_name);
            if whole.contains(line) {
                let i = whole.index_of(line);
                if i < front.len() {
                    assert(front[i] == line);
                }
            }
        }
    }
}

/// The block of an ignore file has an entry for exactly those recorded skills that ask for one.
pub proof fn law_ignored_skills_are_listed(state: InstalledState, line: Text)
    requires
        state.skills@.dom().finite(),
    ensures
        ({
            let keys = walk(state@.skills.dom());
            ignore_lines(state@.skills, keys, keys.len() as int).contains(line)
        }) <==> exists|k: Text| #[trigger]
            state.skills@.contains_key(k) && state.skills@[k].gitignore && line == "/**/skills/"@
                + state.skills@[k].installed_name@,
{
    let all = state@.skills;
    assert(all.dom() =~= state.skills@.dom());
    lemma_walk_finite(all.dom());
    let keys = walk(all.dom());
    lemma_entries(all, keys, keys.len() as int, line);
    assert forall|i: int| 0 <= i < keys.len() implies state.skills@.contains_key(
        #[trigger] keys[i],
    ) && all[keys[i]] == state.skills@[keys[i]]@ by {
        assert(keys.to_set().contains(keys[i]));
    }
    if exists|k: Text| #[trigger]
        state.skills@.contains_key(k) && state.skills@[k].gitignore && line == "/**/skills/"@
            + state.skills@[k].installed_name@ {
        let k = choose|k: Text| #[trigger]
            state.skills@.contains_key(k) && state.skills@[k].gitignore && line == "/**/skills/"@
                + state.skills@[k].installed_name@;
        assert(keys.to_set().contains(k));
        let i = keys.index_of(k);
        assert(keys[i] == k);
    }
}

proof fn lemma_blank_end(ls: Seq<Text>)
    ensures
        drop_blank_end(ls).len() <= ls.len(),
        drop_blank_end(ls) == ls.take(drop_blank_end(ls).len() as int),
        forall|i: int| drop_blank_end(ls).len() <= i < ls.len() ==> (#[trigger] ls[i]).len() == 0,
        drop_blank_end(ls).len() > 0 ==> drop_blank_end(ls).last().len() > 0,
    decreases ls.len(),
{
    if ls.len() > 0 && ls.last().len() == 0 {
        let front = ls.drop_last();
        lemma_blank_end(front);
        let m = drop_blank_end(ls).len() as int;
        assert(front.take(m) =~= ls.take(m));
        assert forall|i: int| m <= i < ls.len() implies (#[trigger] ls[i]).len() == 0 by {
            if i < ls.len() - 1 {
                assert(front[i] == ls[i]);
            }
        }
    } else {
        assert(ls.take(ls.len() as int) =~= ls);
    }
}

/// The lines of an ignore file without a block all stay, but for empty ones at its end. Behind them,
/// and behind one empty line where there are any, comes the block between its marks.
pub proof fn law_other_lines_stay(raw: Text, state: InstalledState)
    requires
        forall|i: int|
            0 <= i < lines(raw).len() ==> #[trigger] lines(raw)[i] != "# skiller:start"@
                && lines(raw)[i] != "# skiller:end"@,
    ensures
        exists|m: int|
            {
                let ls = lines(raw);
                let keys = walk(state@.skills.dom());
                let gap = if m > 0 {
                    seq![Seq::<char>::empty()]
                } else {
                    Seq::empty()
                };
                &&& 0 <= m <= ls.len()
                &&& forall|i: int| m <= i < ls.len() ==> (#[trigger] ls[i]).len() == 0
                &&& ignore_text(raw, state@.skills) == Ok::<Text, Text>(
                    join(
                        (#[trigger] lines(raw).take(m)) + gap + seq!["# skiller:start"@] + ignore_lines(
                            state@.skills,
                            keys,
                            keys.len() as int,
                        ) + seq!["# skiller:end"@],
                        "\n"@,
                    ) + "\n"@,
                )
            },
{
    let ls = lines(raw);
    let keys = walk(state@.skills.dom());
    let entries = ignore_lines(state@.skills, keys, keys.len() as int);
    lemma_outside_plain(ls, ls.len() as int);
    assert(ls.take(ls.len() as int) =~= ls);
    lemma_blank_end(ls);
    let m = drop_blank_end(ls).len() as int;
    let gap = if m > 0 {
        seq![Seq::<char>::empty()]
    } else {
        Seq::empty()
    };
    assert(with_block(ls, entries) =~= ls.take(m) + gap + seq!["# skiller:start"@] + entries
        + seq!["# skiller:end"@]);
}

// The project lock.

/// An entry of the lock is taken out exactly where its name is owned and it is a local one whose
/// source, with forward slashes and without a leading `./`, is one of the managed sources.
pub proof fn law_managed_entries_are_local(
    entries: Map<Text, serde_json::Value>,
    owned: Set<Text>,
    sources: Set<Text>,
    name: Text,
)
    requires
        entries.dom().finite(),
    ensures
        managed_names(entries, owned, sources).contains(name) <==> {
            &&& entries.contains_key(name)
            &&& owned.contains(name)
            &&& json_member(entries[name], "sourceType"@) is Some
            &&& json_string_text(json_member(entries[name], "sourceType"@)->Some_0) == Some(
                "local"@,
            )
            &&& json_member(entries[name], "source"@) is Some
            &&& json_string_text(json_member(entries[name], "source"@)->Some_0) is Some
            &&& sources.contains(
                normal_source(
                    json_string_text(json_member(entries[name], "source"@)->Some_0)->Some_0,
                ),
            )
        },
{
}

/// A source is compared with every `\` as `/`, and without one leading `./`.
pub proof fn law_sources_are_compared_plainly(s: Text)
    ensures
        with_slashes(s).len() == s.len(),
        forall|i: int|
            0 <= i < s.len() ==> #[trigger] with_slashes(s)[i] == (if s[i] == '\\' {
                '/'
            } else {
                s[i]
            }),
        normal_source(seq!['.', '/'] + s) == with_slashes(s),
        !(s.len() >= 2 && s[0] == '.' && (s[1] == '/' || s[1] == '\\')) ==> normal_source(s)
            == with_slashes(s),
{
    reveal_strlit("./");
    let dot = "./"@;
    let t = seq!['.', '/'] + s;
    let w = with_slashes(t);
    assert(w.take(2) =~= dot);
    assert(w.skip(2) =~= with_slashes(s));
    let v = with_slashes(s);
    if s.len() >= 2 && v.take(2) == dot {
        assert(v.take(2)[0] == dot[0] && v.take(2)[1] == dot[1]);
        assert(v[0] == '.' && v[1] == '/');
    }
}

/// The managed sources are the directory in which skills are prepared: by its own path, by its path
/// below the project where it lies there, and by the path it once had.
pub proof fn law_prepared_skills_are_managed(state_root: Text, project_root: Text, source: Text)
    ensures
        ({
            let current = joined_path(state_root, "prepared-current"@);
            let sources = managed_sources(state_root, project_root);
            &&& sources.contains(".skiller/prepared-current"@)
            &&& sources.contains(with_slashes(current))
            &&& !within(current, project_root) && sources.contains(source) ==> source
                == ".skiller/prepared-current"@ || source == with_slashes(current)
        }),
{
}

} // verus!
