//! What a catalog is read as, and when it is accepted.

use vstd::prelude::*;
use crate::catalog::{
    absent_faults, addition_refusal, alias_faults, candidates_of, catalog_skills, chain_faults,
    comma_list, config_refusal, configuration_refusal, count_char, dependency_refusal, entry_skill,
    entry_skills, entry_symlink, filled, installed_name_of, is_shorthand, is_skill_entry,
    registration_refusal, rename_faults, rename_refusal, renames_resolve, scope_faults,
    skill_file_path, skill_of, snapshot_metadata, synced_skills, CatalogEntry, CatalogSkillView,
    CatalogSnapshot,
};
use crate::failure::lemma_first_refusal;
use crate::frontmatter::{field, frontmatter_of};
use crate::graph::{chain, follow, lemma_chain_follow};
use crate::model::{is_name, GlobalConfig, MetadataView};
use crate::name_map::{lemma_walk_finite, walk};
use crate::text::{split_on, trim, Text};

verus! {

/// A skill is installed under its own name, followed by a hyphen and its scope where it has one; the
/// whole must be a portable name.
pub proof fn law_installed_names_carry_the_scope(name: Text, scope: Option<Text>)
    ensures
        scope is None ==> (installed_name_of(name, scope) == Ok::<Text, Text>(name) <==> is_name(
            name,
        )),
        scope matches Some(s) ==> (installed_name_of(name, scope) == Ok::<Text, Text>(
            name + "-"@ + s,
        ) <==> is_name(name + "-"@ + s)),
        installed_name_of(name, scope) matches Ok(value) ==> is_name(value) && value == (match scope {
            Some(s) => name + "-"@ + s,
            None => name,
        }),
{
}

proof fn lemma_filled(parts: Seq<Text>, item: Text)
    ensures
        filled(parts).contains(item) == (item.len() > 0 && exists|i: int|
            0 <= i < parts.len() && trim(#[trigger] parts[i]) == item),
    decreases parts.len(),
{
    if parts.len() > 0 {
        let front = parts.drop_last();
        lemma_filled(front, item);
        let whole = filled(parts);
        let before = filled(front);
        let last = parts.last();
        assert(last == parts[parts.len() - 1]);
        if before.contains(item) {
            let i = before.index_of(item);
            assert(whole[i] == item);
            let k = choose|i: int| 0 <= i < front.len() && trim(#[trigger] front[i]) == item;
            assert(parts[k] == front[k]);
        }
        if whole.len() > before.len() {
            assert(whole[whole.len() - 1] == trim(last));
            if whole.contains(item) {
                let i = whole.index_of(item);
                if i < before.len() {
                    assert(before[i] == item);
                }
            }
        }
        if item.len() > 0 && exists|i: int|
            0 <= i < parts.len() && trim(#[trigger] parts[i]) == item {
            let k = choose|i: int| 0 <= i < parts.len() && trim(#[trigger] parts[i]) == item;
            if k < parts.len() - 1 {
                assert(front[k] == parts[k]);
            }
        }
    }
}

/// The items of a list are what stands between the commas, without the white space around it; blank
/// items are left out.
pub proof fn law_list_items_are_trimmed(value: Text, item: Text)
    ensures
        comma_list(value).contains(item) <==> item.len() > 0 && exists|i: int|
            0 <= i < split_on(value, ',').len() && trim(#[trigger] split_on(value, ',')[i]) == item,
{
    lemma_filled(split_on(value, ','), item);
}

/// A skill file is accepted exactly where it has frontmatter that gives no other name than that of its
/// folder, and the name and the installed name are portable. The skill has what the frontmatter says,
/// and the scope, the reach and the digest that it was read with.
pub proof fn law_skill_files_say_what_they_are(
    raw: Text,
    folder: Text,
    path: Text,
    scope: Option<Text>,
    global: bool,
    digest: Text,
)
    ensures
        ({
            let r = skill_of(raw, folder, path, scope, global, digest);
            let f = frontmatter_of(raw, path)->Ok_0;
            &&& r is Ok <==> {
                &&& frontmatter_of(raw, path) is Ok
                &&& field(f, "name"@, false) is None || field(f, "name"@, false) == Some(folder)
                &&& is_name(folder)
                &&& is_name(
                    match scope {
                        Some(s) => folder + "-"@ + s,
                        None => folder,
                    },
                )
            }
            &&& r matches Ok(skill) ==> {
                &&& skill.name == folder
                &&& skill.installed_name == (match scope {
                    Some(s) => folder + "-"@ + s,
                    None => folder,
                })
                &&& skill.description == (match field(f, "description"@, false) {
                    Some(d) => d,
                    None => "No description"@,
                })
                &&& skill.requires == (match field(f, "skiller.requires"@, true) {
                    Some(list) => comma_list(list),
                    None => Seq::empty(),
                })
                &&& skill.scope == scope
                &&& skill.global == global
                &&& skill.digest == digest
            }
        }),
{
}

/// An entry is a skill: a real directory with a skill file.
pub open spec fn is_skill(e: CatalogEntry) -> bool {
    e.directory && !e.symlink && e.skill_file
}

/// The skill that an entry holds, in the scope and reach that the metadata gives it.
pub open spec fn skill_in(meta: MetadataView, root: Text, e: CatalogEntry) -> Result<CatalogSkillView, Text> {
    skill_of(
        e.raw@,
        e.name@,
        skill_file_path(root, e.name@),
        if meta.skills.contains_key(e.name@) && meta.skills[e.name@].scope is Some {
            Some(meta.skills[e.name@].scope->Some_0@)
        } else {
            None
        },
        meta.skills.contains_key(e.name@) && meta.skills[e.name@].global,
        e.digest@,
    )
}

/// An entry can be taken into a catalog: it is no symlink and holds none, and where it is a skill its
/// file is accepted and its scope is declared.
pub open spec fn is_acceptable(meta: MetadataView, root: Text, e: CatalogEntry) -> bool {
    &&& !e.symlink && e.inner_symlink is None
    &&& is_skill(e) ==> {
        &&& skill_in(meta, root, e) is Ok
        &&& skill_in(meta, root, e)->Ok_0.scope matches Some(named) ==> meta.scopes.contains_key(
            named,
        )
    }
}

proof fn lemma_entry(meta: MetadataView, root: Text, e: CatalogEntry)
    ensures
        entry_symlink(root, e) is None <==> !e.symlink && e.inner_symlink is None,
        is_skill_entry(e) == is_skill(e),
        entry_skill(meta, root, e) is Ok <==> skill_in(meta, root, e) is Ok && (skill_in(
            meta,
            root,
            e,
        )->Ok_0.scope matches Some(named) ==> meta.scopes.contains_key(named)),
        entry_skill(meta, root, e) is Ok ==> entry_skill(meta, root, e) == skill_in(meta, root, e)
            && entry_skill(meta, root, e)->Ok_0.name == e.name@,
{
}

proof fn lemma_entries(meta: MetadataView, root: Text, entries: Seq<CatalogEntry>, n: int)
    requires
        0 <= n <= entries.len(),
    ensures
        entry_skills(meta, root, entries, n) is Ok <==> forall|i: int|
            0 <= i < n ==> is_acceptable(meta, root, #[trigger] entries[i]),
        entry_skills(meta, root, entries, n) matches Ok(skills) ==> {
            &&& forall|name: Text| #[trigger]
                skills.contains_key(name) <==> exists|i: int|
                    0 <= i < n && is_skill(#[trigger] entries[i]) && entries[i].name@ == name
            &&& forall|i: int|
                0 <= i < n && is_skill(#[trigger] entries[i]) && (forall|j: int|
                    i < j < n ==> (#[trigger] entries[j]).name@ != entries[i].name@)
                    ==> skills[entries[i].name@] == skill_in(meta, root, entries[i])->Ok_0
        },
    decreases n,
{
    if n > 0 {
        lemma_entries(meta, root, entries, n - 1);
        let e = entries[n - 1];
        lemma_entry(meta, root, e);
        let before = entry_skills(meta, root, entries, n - 1);
        let now = entry_skills(meta, root, entries, n);
        if now is Ok {
            assert forall|i: int| 0 <= i < n implies is_acceptable(meta, root, #[trigger] entries[i])
                 by {
                if i < n - 1 {
                    assert(is_acceptable(meta, root, entries[i]));
                }
            }
            let old_skills = before->Ok_0;
            let skills = now->Ok_0;
            assert forall|name: Text| #[trigger] skills.contains_key(name) <==> exists|i: int|
                0 <= i < n && is_skill(#[trigger] entries[i]) && entries[i].name@ == name by {
                if old_skills.contains_key(name) {
                    let i = choose|i: int|
                        0 <= i < n - 1 && is_skill(#[trigger] entries[i]) && entries[i].name@ == name;
                    assert(is_skill(entries[i]));
                    assert(skills.contains_key(name));
                }
                if is_skill(e) && e.name@ == name {
                    assert(is_skill(entries[n - 1]));
                }
                if exists|i: int|
                    0 <= i < n && is_skill(#[trigger] entries[i]) && entries[i].name@ == name {
                    let i = choose|i: int|
                        0 <= i < n && is_skill(#[trigger] entries[i]) && entries[i].name@ == name;
                    if i < n - 1 {
                        assert(old_skills.contains_key(name));
                    }
                }
            }
            assert forall|i: int|
                0 <= i < n && is_skill(#[trigger] entries[i]) && (forall|j: int|
                    i < j < n ==> (#[trigger] entries[j]).name@ != entries[i].name@) implies skills[entries[i].name@]
                == skill_in(meta, root, entries[i])->Ok_0 by {
                if i < n - 1 {
                    assert(entries[n - 1].name@ != entries[i].name@);
                    assert(forall|j: int|
                        i < j < n - 1 ==> (#[trigger] entries[j]).name@ != entries[i].name@);
                }
            }
        } else if forall|i: int| 0 <= i < n ==> is_acceptable(meta, root, #[trigger] entries[i]) {
            assert(is_acceptable(meta, root, entries[n - 1]));
            assert(forall|i: int|
                0 <= i < n - 1 ==> is_acceptable(meta, root, #[trigger] entries[i]));
        }
    }
}

/// A catalog is accepted exactly where its schema is known, its scopes have portable names, all its
/// entries are acceptable and one of them is a skill, its metadata names only skills that are there,
/// and its dependencies and renames pass. It then has just the skills that its entries hold.
pub proof fn law_catalogs_hold_their_entries(snapshot: CatalogSnapshot)
    requires
        snapshot_metadata(snapshot).scopes.dom().finite(),
        snapshot_metadata(snapshot).skills.dom().finite(),
    ensures
        ({
            let meta = snapshot_metadata(snapshot);
            let root = snapshot.root@;
            let entries = snapshot.entries@;
            let skills = entry_skills(meta, root, entries, entries.len() as int)->Ok_0;
            &&& catalog_skills(snapshot) is Ok <==> {
                &&& meta.version == 1
                &&& forall|s: Text| #[trigger] meta.scopes.contains_key(s) ==> is_name(s)
                &&& forall|i: int|
                    0 <= i < entries.len() ==> is_acceptable(meta, root, #[trigger] entries[i])
                &&& exists|i: int| 0 <= i < entries.len() && is_skill(#[trigger] entries[i])
                &&& forall|s: Text| #[trigger]
                    meta.skills.contains_key(s) ==> exists|i: int|
                        0 <= i < entries.len() && is_skill(#[trigger] entries[i])
                            && entries[i].name@ == s
                &&& dependency_refusal(skills) is None
                &&& rename_refusal(meta.renames, skills.dom()) is None
            }
            &&& catalog_skills(snapshot) matches Ok(found) ==> {
                &&& found == skills
                &&& forall|name: Text| #[trigger]
                    found.contains_key(name) <==> exists|i: int|
                        0 <= i < entries.len() && is_skill(#[trigger] entries[i])
                            && entries[i].name@ == name
                &&& forall|i: int|
                    0 <= i < entries.len() && is_skill(#[trigger] entries[i]) && (forall|j: int|
                        i < j < entries.len() ==> (#[trigger] entries[j]).name@ != entries[i].name@)
                        ==> found[entries[i].name@] == skill_in(meta, root, entries[i])->Ok_0
            }
        }),
{
    let meta = snapshot_metadata(snapshot);
    let root = snapshot.root@;
    let entries = snapshot.entries@;
    let n = entries.len() as int;
    lemma_entries(meta, root, entries, n);
    lemma_walk_finite(meta.scopes.dom());
    lemma_walk_finite(meta.skills.dom());
    let scopes = walk(meta.scopes.dom());
    let named = walk(meta.skills.dom());
    let f = scope_faults(meta, root);
    lemma_first_refusal(scopes.len() as int, f);
    if forall|s: Text| #[trigger] meta.scopes.contains_key(s) ==> is_name(s) {
        assert forall|i: int| 0 <= i < scopes.len() implies (#[trigger] f(i)) is None by {
            assert(scopes.to_set().contains(scopes[i]));
            assert(meta.scopes.contains_key(scopes[i]));
        }
    }
    if forall|i: int| 0 <= i < scopes.len() ==> (#[trigger] f(i)) is None {
        assert forall|s: Text| #[trigger] meta.scopes.contains_key(s) implies is_name(s) by {
            assert(scopes.to_set().contains(s));
            let i = scopes.index_of(s);
            assert(f(i) is None);
        }
    }
    if let Ok(skills) = entry_skills(meta, root, entries, n) {
        let g = absent_faults(meta, skills);
        lemma_first_refusal(named.len() as int, g);
        if forall|s: Text| #[trigger] meta.skills.contains_key(s) ==> skills.contains_key(s) {
            assert forall|i: int| 0 <= i < named.len() implies (#[trigger] g(i)) is None by {
                assert(named.to_set().contains(named[i]));
                assert(meta.skills.contains_key(named[i]));
            }
        }
        if forall|i: int| 0 <= i < named.len() ==> (#[trigger] g(i)) is None {
            assert forall|s: Text| #[trigger] meta.skills.contains_key(s) implies skills.contains_key(
                s,
            ) by {
                assert(named.to_set().contains(s));
                let i = named.index_of(s);
                assert(g(i) is None);
            }
        }
        if skills.dom() == Set::<Text>::empty() {
            if exists|i: int| 0 <= i < n && is_skill(#[trigger] entries[i]) {
                let i = choose|i: int| 0 <= i < n && is_skill(#[trigger] entries[i]);
                assert(skills.contains_key(entries[i].name@));
            }
        } else {
            if !(exists|i: int| 0 <= i < n && is_skill(#[trigger] entries[i])) {
                assert(skills.dom() =~= Set::<Text>::empty());
            }
        }
    }
}

proof fn lemma_settled_chain(renames: Map<Text, Text>, current: Text, path: Seq<Text>, depth: nat)
    requires
        !renames.contains_key(follow(renames, current, depth)),
        forall|i: int| 0 <= i < path.len() ==> renames.contains_key(#[trigger] path[i]),
        forall|i: int|
            0 <= i < path.len() ==> #[trigger] follow(renames, path[i], (path.len() - i) as nat)
                == current,
        renames.dom().finite(),
    ensures
        chain(renames, current, path, depth) is End,
    decreases depth,
{
    if renames.contains_key(current) {
        if path.contains(current) {
            let i = path.index_of(current);
            let k = (path.len() - i) as nat;
            assert(follow(renames, current, k) == current) by {
                assert(follow(renames, path[i], (path.len() - i) as nat) == current);
            }
            lemma_round(renames, current, k, depth);
        } else if depth > 0 {
            let next = path.push(current);
            let to = renames[current];
            assert forall|i: int| 0 <= i < next.len() implies #[trigger] follow(
                renames,
                next[i],
                (next.len() - i) as nat,
            ) == to by {
                if i < path.len() {
                    assert(next[i] == path[i]);
                    assert(follow(renames, path[i], (path.len() - i) as nat) == current);
                    lemma_one_more(renames, path[i], (path.len() - i) as nat);
                } else {
                    assert(follow(renames, current, 1) == follow(renames, to, 0));
                }
            }
            assert forall|i: int| 0 <= i < next.len() implies renames.contains_key(
                #[trigger] next[i],
            ) by {
                if i < path.len() {
                    assert(next[i] == path[i]);
                }
            }
            lemma_settled_chain(renames, to, next, (depth - 1) as nat);
        }
    }
}

proof fn lemma_one_more(renames: Map<Text, Text>, name: Text, steps: nat)
    requires
        renames.contains_key(follow(renames, name, steps)),
    ensures
        follow(renames, name, steps + 1) == renames[follow(renames, name, steps)],
    decreases steps,
{
    if steps == 0 {
        assert(follow(renames, name, 1) == follow(renames, renames[name], 0));
    } else if renames.contains_key(name) {
        lemma_one_more(renames, renames[name], (steps - 1) as nat);
    }
}

proof fn lemma_add_steps(renames: Map<Text, Text>, name: Text, a: nat, b: nat)
    ensures
        follow(renames, name, a + b) == follow(renames, follow(renames, name, a), b),
    decreases a,
{
    if a > 0 && renames.contains_key(name) {
        lemma_add_steps(renames, renames[name], (a - 1) as nat, b);
    }
}

/// On a way that leads back, every step leads on.
proof fn lemma_round(renames: Map<Text, Text>, name: Text, k: nat, depth: nat)
    requires
        k > 0,
        follow(renames, name, k) == name,
        renames.contains_key(name),
    ensures
        renames.contains_key(follow(renames, name, depth)),
    decreases depth,
{
    if depth >= k {
        lemma_add_steps(renames, name, k, (depth - k) as nat);
        lemma_round(renames, name, k, (depth - k) as nat);
    } else {
        lemma_add_steps(renames, name, depth, (k - depth) as nat);
        let end = follow(renames, name, depth);
        if !renames.contains_key(end) {
            assert(follow(renames, end, (k - depth) as nat) == end);
        }
    }
}

/// Renames are accepted exactly where they use portable names, none of them is still a skill, and
/// every one leads to a current skill.
pub proof fn law_renames_are_exact(renames: Map<Text, Text>, skills: Set<Text>)
    requires
        renames.dom().finite(),
    ensures
        rename_refusal(renames, skills) is None <==> renames_resolve(renames, skills) && forall|
            name: Text,
        | #[trigger]
            renames.contains_key(name) ==> is_name(name) && is_name(renames[name])
                && !skills.contains(name),
{
    let names = walk(renames.dom());
    let n = names.len() as int;
    lemma_walk_finite(renames.dom());
    let f = rename_faults(renames, skills);
    let g = chain_faults(renames, skills);
    lemma_first_refusal(n, f);
    lemma_first_refusal(n, g);
    if rename_refusal(renames, skills) is None {
        crate::catalog::law_renames(renames, skills);
        assert forall|name: Text| #[trigger] renames.contains_key(name) implies is_name(name)
            && is_name(renames[name]) && !skills.contains(name) by {
            assert(names.to_set().contains(name));
            let i = names.index_of(name);
            assert(f(i) is None);
        }
    }
    if renames_resolve(renames, skills) && (forall|name: Text| #[trigger]
        renames.contains_key(name) ==> is_name(name) && is_name(renames[name]) && !skills.contains(
            name,
        )) {
        assert forall|i: int| 0 <= i < n implies (#[trigger] f(i)) is None by {
            assert(names.to_set().contains(names[i]));
            assert(renames.contains_key(names[i]));
        }
        assert forall|i: int| 0 <= i < n implies (#[trigger] g(i)) is None by {
            let name = names[i];
            assert(names.to_set().contains(name));
            assert(renames.contains_key(name));
            let none = Seq::<Text>::empty();
            lemma_settled_chain(renames, name, none, renames.dom().len());
            lemma_chain_follow(renames, name, none, renames.dom().len());
        }
    }
}

proof fn lemma_count(s: Text, c: char)
    ensures
        count_char(s, c) == 0 <==> !s.contains(c),
    decreases s.len(),
{
    if s.len() > 0 {
        lemma_count(s.drop_last(), c);
        if s.contains(c) {
            let i = s.index_of(c);
            if i < s.len() - 1 {
                assert(s.drop_last()[i] == c);
            }
        }
        if s.drop_last().contains(c) {
            let i = s.drop_last().index_of(c);
            assert(s[i] == c);
        }
        assert(s[s.len() - 1] == s.last());
    }
}

proof fn lemma_count_concat(a: Text, b: Text, c: char)
    ensures
        count_char(a + b, c) == count_char(a, c) + count_char(b, c),
    decreases b.len(),
{
    if b.len() > 0 {
        lemma_count_concat(a, b.drop_last(), c);
        assert((a + b).drop_last() =~= a + b.drop_last());
        assert((a + b).last() == b.last());
    } else {
        assert(a + b =~= a);
    }
}

/// A source of two parts around one `/`, without a colon and not beginning with a dot, is looked for on
/// GitHub, over HTTPS first and then over SSH; any other source is taken as it is.
pub proof fn law_short_sources_are_on_github(source: Text)
    ensures
        ({
            let short = exists|owner: Text, repository: Text|
                {
                    &&& source == #[trigger] (owner + seq!['/'] + repository)
                    &&& !owner.contains('/') && !repository.contains('/')
                } && !source.contains(':') && source[0] != '.';
            &&& short ==> candidates_of(source) == seq![
                "https://github.com/"@ + source + ".git"@,
                "git@github.com:"@ + source + ".git"@,
            ]
            &&& !short ==> candidates_of(source) == seq![source]
        }),
{
    if exists|owner: Text, repository: Text|
        {
            &&& source == #[trigger] (owner + seq!['/'] + repository)
            &&& !owner.contains('/') && !repository.contains('/')
        } {
        let (owner, repository) = choose|owner: Text, repository: Text|
            {
                &&& source == #[trigger] (owner + seq!['/'] + repository)
                &&& !owner.contains('/') && !repository.contains('/')
            };
        lemma_count(owner, '/');
        lemma_count(repository, '/');
        lemma_count_concat(owner, seq!['/'], '/');
        lemma_count_concat(owner + seq!['/'], repository, '/');
        let one = seq!['/'];
        assert(one.drop_last() =~= Seq::<char>::empty());
        assert(one.last() == '/');
        assert(count_char(one.drop_last(), '/') == 0);
        assert(count_char(one, '/') == 1);
        assert(source.len() > 0);
    }
    if is_shorthand(source) {
        lemma_count(source, '/');
        let i = source.index_of('/');
        let owner = source.take(i);
        let repository = source.skip(i + 1);
        assert(source =~= owner + seq!['/'] + repository);
        lemma_count(owner, '/');
        lemma_count(repository, '/');
        lemma_count_concat(owner, seq!['/'], '/');
        lemma_count_concat(owner + seq!['/'], repository, '/');
        let one = seq!['/'];
        assert(one.drop_last() =~= Seq::<char>::empty());
        assert(one.last() == '/');
        assert(count_char(one.drop_last(), '/') == 0);
        assert(count_char(one, '/') == 1);
        assert(source == owner + seq!['/'] + repository);
    }
}

/// A catalog is registered exactly under a portable alias that is still free and with a source that is
/// not blank, once its content is accepted; a registration is replaced without regard to the old one.
pub proof fn law_registrations_are_checked(
    config: GlobalConfig,
    alias: Text,
    source: Text,
    snapshot: CatalogSnapshot,
)
    ensures
        registration_refusal(config, alias, source) is None <==> is_name(alias) && trim(source).len()
            > 0 && !config.catalogs@.contains_key(alias),
        addition_refusal(config, alias, source, snapshot) is None <==> is_name(alias) && trim(
            source,
        ).len() > 0 && !config.catalogs@.contains_key(alias) && catalog_skills(snapshot) is Ok,
        configuration_refusal(alias, source, snapshot) is None <==> is_name(alias) && trim(
            source,
        ).len() > 0 && catalog_skills(snapshot) is Ok,
        synced_skills(alias, snapshot) is Ok <==> is_name(alias) && catalog_skills(snapshot) is Ok,
        is_name(alias) ==> synced_skills(alias, snapshot) == catalog_skills(snapshot),
{
}

/// A global configuration is accepted exactly where its schema is known and every alias is a portable
/// name.
pub proof fn law_global_configurations_are_checked(config: GlobalConfig)
    ensures
        config_refusal(config) is None <==> config.version == 1 && forall|i: int|
            0 <= i < config.catalogs.names().len() ==> is_name(
                #[trigger] config.catalogs.names()[i],
            ),
{
    let f = alias_faults(config);
    let n = config.catalogs.names().len() as int;
    lemma_first_refusal(n, f);
    if forall|i: int| 0 <= i < n ==> is_name(#[trigger] config.catalogs.names()[i]) {
        assert forall|i: int| 0 <= i < n implies (#[trigger] f(i)) is None by {
            assert(is_name(config.catalogs.names()[i]));
        }
    }
    if forall|i: int| 0 <= i < n ==> (#[trigger] f(i)) is None {
        assert forall|i: int| 0 <= i < n implies is_name(#[trigger] config.catalogs.names()[i]) by {
            assert(f(i) is None);
        }
    }
}

} // verus!
