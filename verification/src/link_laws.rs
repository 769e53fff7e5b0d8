//! What linking and unlinking act on, and what the status of a target counts.

use vstd::prelude::*;
use crate::agents::HostView;
use crate::config::Target;
use crate::config_ui::{ordered_texts, text_place};
use crate::link::{
    entry_step, folder_action, folder_step, is_unlinked, meant, ConflictChoice, FolderAction,
    FolderStep, LinkSeen,
};
use crate::paths::same_path;
use crate::row_laws::lemma_ordered_members;
use crate::targets::{
    add_refusal, builtin_kinds, builtin_relative, child_holds_skill, folder_status, has_kind,
    holds_skill, linked_count, missing_count, other_kinds, skill_names, EntrySeen, PathSeen,
    SkillTree, SourceEntry,
};
use crate::text::{
    lemma_text_lt_irreflexive, lemma_text_lt_total, lemma_text_lt_transitive, text_lt, Text,
};

verus! {

/// The targets that are meant are those of the kind, or all where no kind is given, each once and in
/// order.
pub proof fn law_targets_are_meant_by_kind(targets: Seq<Target>, kind: Option<Text>, n: int, p: usize)
    requires
        0 <= n <= targets.len() <= usize::MAX,
    ensures
        meant(targets, kind, n).contains(p) <==> p < n && (kind matches Some(k) ==> targets[p as int].kind@
            == k),
        forall|a: int, b: int|
            0 <= a < b < meant(targets, kind, n).len() ==> (#[trigger] meant(targets, kind, n)[a]) < (
            #[trigger] meant(targets, kind, n)[b]),
        forall|a: int|
            0 <= a < meant(targets, kind, n).len() ==> (#[trigger] meant(targets, kind, n)[a]) < n,
    decreases n,
{
    if n > 0 {
        law_targets_are_meant_by_kind(targets, kind, n - 1, p);
        let front = meant(targets, kind, n - 1);
        let whole = meant(targets, kind, n);
        if front.contains(p) {
            let i = front.index_of(p);
            assert(whole[i] == p);
        }
        if whole.len() > front.len() {
            assert(whole[whole.len() - 1] == (n - 1) as usize);
            if whole.contains(p) {
                let i = whole.index_of(p);
                if i < front.len() {
                    assert(front[i] == p);
                }
            }
        }
    }
}

/// A link is made exactly where nothing stands in its place, and kept exactly where it leads to the
/// source already. Nothing else is touched without a question: another symlink, or what is no symlink.
pub proof fn law_nothing_is_replaced_unasked(source: Text, seen: LinkSeen)
    ensures
        ({
            let ours = seen matches LinkSeen::Symlink(dest) && same_path(dest@, source);
            &&& folder_step(source, seen) is Link <==> seen is Missing
            &&& folder_step(source, seen) is Keep <==> ours
            &&& folder_step(source, seen) is AskSymlink <==> seen is Symlink && !ours
            &&& folder_step(source, seen) is AskDirectory <==> seen is Directory || seen is Other
            &&& entry_step(source, seen) is Link <==> seen is Missing
            &&& entry_step(source, seen) is Keep <==> ours
            &&& entry_step(source, seen) is AskSymlink <==> seen is Symlink && !ours
            &&& entry_step(source, seen) is AskEntry <==> seen is Directory || seen is Other
        }),
{
}

/// An entry is unlinked exactly where it is a symlink whose destination could be read and is the skill.
pub proof fn law_only_own_links_go(source: Text, seen: PathSeen)
    ensures
        is_unlinked(source, seen) <==> (seen matches PathSeen::Symlink(dest) && dest is Some
            && same_path(dest->Some_0@, source)),
{
}

/// A choice to skip changes nothing; only a choice to overwrite removes, a symlink or a directory as it
/// stands there; and only the entries of a directory can be moved.
pub proof fn law_choices_do_what_they_say(step: FolderStep, choice: ConflictChoice)
    ensures
        ({
            let r = folder_action(step, choice);
            &&& r == Ok::<FolderAction, Text>(FolderAction::Skip) <==> choice is Skip
            &&& r == Ok::<FolderAction, Text>(FolderAction::Relink) <==> choice is Overwrite
                && step is AskSymlink
            &&& r == Ok::<FolderAction, Text>(FolderAction::Overwrite) <==> choice is Overwrite && !(
            step is AskSymlink)
            &&& r == Ok::<FolderAction, Text>(FolderAction::Migrate) <==> choice is Migrate && !(
            step is AskSymlink)
            &&& r is Err <==> choice is Migrate && step is AskSymlink
        }),
{
}

/// A folder counts as linked exactly where a symlink stands there that can be read and leads to the
/// source, and as not linked exactly where nothing stands there.
pub proof fn law_folder_status_is_true(seen: PathSeen, source: Option<Text>)
    ensures
        ({
            let known = seen matches PathSeen::Symlink(dest) && dest is Some && source is Some;
            let ours = seen matches PathSeen::Symlink(dest) && dest is Some && source is Some
                && same_path(dest->Some_0@, source->Some_0);
            folder_status(seen, source) == (if seen is Missing {
                "not linked"@
            } else if ours {
                "linked"@
            } else if known {
                "conflict (wrong link)"@
            } else if seen is Symlink {
                "linked (unknown source)"@
            } else {
                "conflict (real dir)"@
            })
        }),
{
}

/// An entry links to its skill.
pub open spec fn links(e: EntrySeen) -> bool {
    e.seen matches PathSeen::Symlink(dest) && dest is Some && same_path(dest->Some_0@, e.source@)
}

/// The counts are the numbers of entries that link to their skills, and of those that are missing; no
/// entry is counted twice.
pub proof fn law_entries_are_counted(entries: Seq<EntrySeen>, n: int)
    requires
        0 <= n <= entries.len(),
    ensures
        linked_count(entries, n) == entries.take(n).filter(|e: EntrySeen| links(e)).len(),
        missing_count(entries, n) == entries.take(n).filter(|e: EntrySeen| e.seen is Missing).len(),
        linked_count(entries, n) + missing_count(entries, n) <= n,
    decreases n,
{
    let p = |e: EntrySeen| links(e);
    let q = |e: EntrySeen| e.seen is Missing;
    reveal(Seq::filter);
    if n > 0 {
        law_entries_are_counted(entries, n - 1);
        assert(entries.take(n).drop_last() =~= entries.take(n - 1));
        assert(entries.take(n).last() == entries[n - 1]);
    } else {
        assert(entries.take(0) =~= Seq::<EntrySeen>::empty());
    }
}

/// Removing a kind leaves exactly the targets of other kinds, in their order.
pub proof fn law_other_targets_stay(targets: Seq<Target>, kind: Text)
    ensures
        other_kinds(targets, kind) == targets.filter(|t: Target| t.kind@ != kind),
    decreases targets.len(),
{
    reveal(Seq::filter);
    if targets.len() > 0 {
        law_other_targets_stay(targets.drop_last(), kind);
    }
}

/// A target is added exactly where no target of its kind is there and its directory is known.
pub proof fn law_targets_are_added_once(
    host: HostView,
    targets: Seq<Target>,
    kind: Text,
    resolved: Option<Text>,
)
    ensures
        add_refusal(host, targets, kind, resolved) is None <==> resolved is Some && forall|i: int|
            0 <= i < targets.len() ==> (#[trigger] targets[i]).kind@ != kind,
{
    if has_kind(targets, kind) {
        let i = choose|i: int| 0 <= i < targets.len() && (#[trigger] targets[i]).kind@ == kind;
        assert(targets[i].kind@ == kind);
    }
}

/// Every built-in kind has a directory, and no other kind has one.
pub proof fn law_builtin_kinds_have_directories(host: HostView, kind: Text)
    ensures
        builtin_relative(host, kind) is Some <==> builtin_kinds(host).contains(kind),
        builtin_kinds(host).contains("codex"@) && builtin_relative(host, "codex"@) == Some(
            ".codex/skills"@,
        ),
{
    let all = builtin_kinds(host);
    assert(all[0] == host.kind && all[1] == "codex"@ && all[2] == "opencode"@ && all[3]
        == "openclaw"@ && all[4] == "hermes"@);
    if all.contains(kind) {
        let i = all.index_of(kind);
        assert(i == 0 || i == 1 || i == 2 || i == 3 || i == 4);
    }
}

/// A tree holds a skill exactly where it has a skill file at its root or one of its subdirectories
/// holds a skill.
pub proof fn law_skills_are_found_at_any_depth(tree: SkillTree)
    ensures
        holds_skill(tree) <==> tree.skill_file || exists|i: int|
            0 <= i < tree.children@.len() && holds_skill(#[trigger] tree.children@[i]),
{
    lemma_children(tree, tree.children@.len());
}

proof fn lemma_children(tree: SkillTree, n: nat)
    requires
        n <= tree.children@.len(),
    ensures
        child_holds_skill(tree, n) == (exists|i: int|
            0 <= i < n && holds_skill(#[trigger] tree.children@[i])),
    decreases n,
{
    if n > 0 {
        lemma_children(tree, (n - 1) as nat);
        let last = tree.children@[n - 1];
    }
}

proof fn lemma_skill_names(entries: Seq<SourceEntry>, n: int, name: Text)
    requires
        0 <= n <= entries.len(),
    ensures
        skill_names(entries, n).contains(name) == (exists|i: int|
            0 <= i < n && (#[trigger] entries[i]).name@ == name && entries[i].tree is Some
                && holds_skill(entries[i].tree->Some_0)),
    decreases n,
{
    if n > 0 {
        lemma_skill_names(entries, n - 1, name);
        let front = skill_names(entries, n - 1);
        let whole = skill_names(entries, n);
        let last = entries[n - 1];
        if front.contains(name) {
            let i = front.index_of(name);
            assert(whole[i] == name);
        }
        if whole.len() > front.len() {
            assert(whole[whole.len() - 1] == last.name@);
            if whole.contains(name) {
                let i = whole.index_of(name);
                if i < front.len() {
                    assert(front[i] == name);
                }
            }
        }
    }
}

proof fn lemma_text_place(texts: Seq<Text>, t: Text)
    requires
        forall|i: int, j: int|
            0 <= i < j < texts.len() ==> !text_lt(#[trigger] texts[j], #[trigger] texts[i]),
    ensures
        0 <= text_place(texts, t) <= texts.len(),
        forall|i: int| 0 <= i < text_place(texts, t) ==> !text_lt(t, #[trigger] texts[i]),
        forall|i: int|
            text_place(texts, t) <= i < texts.len() ==> text_lt(t, #[trigger] texts[i]),
    decreases texts.len(),
{
    if texts.len() > 0 {
        let last = texts.last();
        let front = texts.drop_last();
        if text_lt(t, last) {
            assert forall|i: int, j: int| 0 <= i < j < front.len() implies !text_lt(
                #[trigger] front[j],
                #[trigger] front[i],
            ) by {
                assert(front[i] == texts[i] && front[j] == texts[j]);
            }
            lemma_text_place(front, t);
            assert forall|i: int| 0 <= i < text_place(texts, t) implies !text_lt(
                t,
                #[trigger] texts[i],
            ) by {
                assert(front[i] == texts[i]);
            }
            assert forall|i: int| text_place(texts, t) <= i < texts.len() implies text_lt(
                t,
                #[trigger] texts[i],
            ) by {
                if i < front.len() {
                    assert(front[i] == texts[i]);
                }
            }
        } else {
            assert forall|i: int| 0 <= i < texts.len() implies !text_lt(t, #[trigger] texts[i]) by {
                if text_lt(t, texts[i]) {
                    if i < texts.len() - 1 {
                        assert(!text_lt(texts[texts.len() - 1], texts[i]));
                        lemma_text_lt_total(texts[i], last);
                        if text_lt(texts[i], last) {
                            lemma_text_lt_transitive(t, texts[i], last);
                        }
                    }
                }
            }
        }
    }
}

/// Ordered texts are the same texts, and none stands before one that precedes it.
pub proof fn law_texts_are_ordered(texts: Seq<Text>, t: Text)
    ensures
        ordered_texts(texts).len() == texts.len(),
        ordered_texts(texts).contains(t) <==> texts.contains(t),
        forall|i: int, j: int|
            0 <= i < j < texts.len() ==> !text_lt(
                #[trigger] ordered_texts(texts)[j],
                #[trigger] ordered_texts(texts)[i],
            ),
    decreases texts.len(),
{
    lemma_ordered_members(texts, t);
    if texts.len() > 0 {
        law_texts_are_ordered(texts.drop_last(), t);
        let front = ordered_texts(texts.drop_last());
        let last = texts.last();
        lemma_text_place(front, last);
        let place = text_place(front, last);
        let all = front.insert(place, last);
        assert forall|i: int, j: int| 0 <= i < j < all.len() implies !text_lt(
            #[trigger] all[j],
            #[trigger] all[i],
        ) by {
            if i != place && j != place {
                let a = if i < place { i } else { i - 1 };
                let b = if j < place { j } else { j - 1 };
                assert(all[i] == front[a] && all[j] == front[b]);
            } else if j == place {
                assert(all[i] == front[i]);
                assert(!text_lt(last, front[i]));
            } else {
                assert(all[j] == front[j - 1]);
                assert(text_lt(last, front[j - 1]));
                if text_lt(front[j - 1], last) {
                    lemma_text_lt_transitive(last, front[j - 1], last);
                    lemma_text_lt_irreflexive(last);
                }
            }
        }
    }
}

/// The skills of the source are the names of exactly those entries that hold a skill.
pub proof fn law_source_skills_hold_skills(entries: Seq<SourceEntry>, name: Text)
    ensures
        ordered_texts(skill_names(entries, entries.len() as int)).contains(name) <==> exists|i: int|
            0 <= i < entries.len() && (#[trigger] entries[i]).name@ == name && entries[i].tree is Some
                && holds_skill(entries[i].tree->Some_0),
{
    lemma_skill_names(entries, entries.len() as int, name);
    lemma_ordered_members(skill_names(entries, entries.len() as int), name);
}

} // verus!
