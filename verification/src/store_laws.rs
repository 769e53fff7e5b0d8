//! What becomes of older storage, and what can be added to a catalog.

use vstd::prelude::*;
use crate::authoring::{new_dependency_faults, new_skill_refusal, requested_skill, AdditionRequest};
use crate::catalog::{catalog_skills, skill_of, CatalogSkillView, Skills};
use crate::failure::lemma_first_refusal;
use crate::model::is_name;
use crate::outside::{json_same, json_value};
use crate::paths::{joined_path, within};
use crate::project_store::{
    copyable, copyable_part, count_taken, entry_action, has_mark, is_migratable, is_owned_prepared,
    migration_order, place_of, prepared_places, step_at, LegacyItem, StateAction, StateSeen,
    StateTree, StepView,
};
use crate::text::{starts_with, Text};

verus! {

/// A tree can be copied exactly where everything in it is a file, or a directory that can be copied.
pub proof fn law_copyable_trees_hold_files(tree: StateTree)
    ensures
        copyable(tree) <==> forall|i: int|
            0 <= i < tree.entries@.len() ==> (#[trigger] tree.entries@[i]).kind is File || (
            tree.entries@[i].kind is Directory && copyable(tree.entries@[i].tree)),
{
    lemma_copyable(tree, tree.entries@.len());
}

proof fn lemma_copyable(tree: StateTree, n: nat)
    requires
        n <= tree.entries@.len(),
    ensures
        copyable_part(tree, n) <==> forall|i: int|
            0 <= i < n ==> (#[trigger] tree.entries@[i]).kind is File || (
            tree.entries@[i].kind is Directory && copyable(tree.entries@[i].tree)),
    decreases n,
{
    if n > 0 {
        lemma_copyable(tree, (n - 1) as nat);
        let last = tree.entries@[n - 1];
    }
}

/// A prepared directory belongs to the installer exactly where it holds the mark as a file and can be
/// copied.
pub proof fn law_prepared_directories_are_marked(seen: StateSeen)
    ensures
        is_owned_prepared(seen) <==> (seen matches StateSeen::Directory(tree) && copyable(tree)
            && exists|i: int|
            0 <= i < tree.entries@.len() && (#[trigger] tree.entries@[i]).name@
                == ".skiller-owned"@ && tree.entries@[i].kind is File),
{
    if let StateSeen::Directory(tree) = seen {
        if has_mark(tree) {
            let i = choose|i: int|
                0 <= i < tree.entries@.len() && #[trigger] crate::project_store::is_mark(
                    tree.entries@[i],
                );
            assert(tree.entries@[i].name@ == ".skiller-owned"@);
        }
        if exists|i: int|
            0 <= i < tree.entries@.len() && (#[trigger] tree.entries@[i]).name@
                == ".skiller-owned"@ && tree.entries@[i].kind is File {
            let i = choose|i: int|
                0 <= i < tree.entries@.len() && (#[trigger] tree.entries@[i]).name@
                    == ".skiller-owned"@ && tree.entries@[i].kind is File;
            assert(crate::project_store::is_mark(tree.entries@[i]));
        }
    }
}

/// What is done with an entry of older state, exactly: it moves where nothing stands in its place and
/// it is a readable file or a directory; it goes where a file with the same content stands there; it
/// stays where anything else does; and symlinks and files that cannot be read are refused.
pub proof fn law_older_entries_are_settled(source: Text, destination: Text, from: StateSeen, to: StateSeen)
    ensures
        ({
            let r = entry_action(source, destination, from, to);
            let readable = from matches StateSeen::File(a) && json_value(a@) is Some;
            let both = from matches StateSeen::File(a) && to matches StateSeen::File(b);
            let same = from matches StateSeen::File(a) && to matches StateSeen::File(b)
                && json_value(a@) is Some && json_value(b@) is Some && json_same(
                json_value(a@)->Some_0,
                json_value(b@)->Some_0,
            );
            let differ = from matches StateSeen::File(a) && to matches StateSeen::File(b)
                && json_value(a@) is Some && json_value(b@) is Some && !json_same(
                json_value(a@)->Some_0,
                json_value(b@)->Some_0,
            );
            &&& r == Ok::<StateAction, Text>(StateAction::Nothing) <==> from is Missing
            &&& r == Ok::<StateAction, Text>(StateAction::MoveFile) <==> to is Missing && readable
            &&& r == Ok::<StateAction, Text>(StateAction::MoveTree) <==> to is Missing
                && from is Directory
            &&& r == Ok::<StateAction, Text>(StateAction::RemoveSource) <==> same
            &&& r == Ok::<StateAction, Text>(StateAction::Leave) <==> differ || (!(from is Missing
                || from is Symlink || to is Missing || to is Symlink) && !both)
            &&& from is Symlink ==> r is Err
            &&& !(from is Missing) && to is Symlink ==> r is Err
        }),
{
}

/// An entry can be moved without review exactly where it is one of the two state files and can be
/// read, or a prepared directory that belongs to the installer.
pub proof fn law_only_known_state_moves_unreviewed(item: LegacyItem)
    ensures
        ({
            let state_file = item.name@ == "installed.json"@ || item.name@ == "transaction.json"@;
            let readable = item.seen matches StateSeen::File(bytes) && json_value(bytes@) is Some;
            is_migratable(item) <==> (state_file && readable) || (!state_file && starts_with(
                item.name@,
                "prepared-"@,
            ) && is_owned_prepared(item.seen))
        }),
{
}

proof fn lemma_place_of(items: Seq<LegacyItem>, name: Text, n: int, at: int)
    requires
        0 <= n <= items.len(),
    ensures
        place_of(items, name, n).contains(at) == (0 <= at < n && items[at].name@ == name),
    decreases n,
{
    if n > 0 {
        lemma_place_of(items, name, n - 1, at);
        let front = place_of(items, name, n - 1);
        let whole = place_of(items, name, n);
        if front.contains(at) {
            let i = front.index_of(at);
            assert(whole[i] == at);
        }
        if whole.len() > front.len() {
            assert(whole[whole.len() - 1] == n - 1);
            if whole.contains(at) {
                let i = whole.index_of(at);
                if i < front.len() {
                    assert(front[i] == at);
                }
            }
        }
    }
}

proof fn lemma_prepared(items: Seq<LegacyItem>, n: int, at: int)
    requires
        0 <= n <= items.len(),
    ensures
        prepared_places(items, n).contains(at) == (0 <= at < n && starts_with(
            items[at].name@,
            "prepared-"@,
        )),
    decreases n,
{
    if n > 0 {
        lemma_prepared(items, n - 1, at);
        let front = prepared_places(items, n - 1);
        let whole = prepared_places(items, n);
        if front.contains(at) {
            let i = front.index_of(at);
            assert(whole[i] == at);
        }
        if whole.len() > front.len() {
            assert(whole[whole.len() - 1] == n - 1);
            if whole.contains(at) {
                let i = whole.index_of(at);
                if i < front.len() {
                    assert(front[i] == at);
                }
            }
        }
    }
}

/// A migration of older state takes up exactly the installed state, the journal and what was prepared.
pub proof fn law_only_known_state_is_migrated(items: Seq<LegacyItem>, at: int)
    ensures
        migration_order(items).contains(at) <==> 0 <= at < items.len() && (items[at].name@
            == "installed.json"@ || items[at].name@ == "transaction.json"@ || starts_with(
            items[at].name@,
            "prepared-"@,
        )),
{
    let n = items.len() as int;
    lemma_place_of(items, "installed.json"@, n, at);
    lemma_place_of(items, "transaction.json"@, n, at);
    lemma_prepared(items, n, at);
    let a = place_of(items, "installed.json"@, n);
    let b = place_of(items, "transaction.json"@, n);
    let c = prepared_places(items, n);
    let all = migration_order(items);
    if a.contains(at) {
        let i = a.index_of(at);
        assert(all[i] == at);
    }
    if b.contains(at) {
        let i = b.index_of(at);
        assert(all[a.len() + i] == at);
    }
    if c.contains(at) {
        let i = c.index_of(at);
        assert(all[a.len() + b.len() + i] == at);
    }
    if all.contains(at) {
        let i = all.index_of(at);
        if i < a.len() {
            assert(a[i] == at);
        } else if i < a.len() + b.len() {
            assert(b[i - a.len()] == at);
        } else {
            assert(c[i - a.len() - b.len()] == at);
        }
    }
}

/// A prepared directory that does not belong to the installer stays, and this is said; anything else
/// is settled by what stands in the two places.
pub proof fn law_unmarked_directories_stay(items: Seq<LegacyItem>, legacy_root: Text, state_root: Text, at: int)
    ensures
        ({
            let item = items[at];
            let foreign = starts_with(item.name@, "prepared-"@) && !is_owned_prepared(item.seen);
            let r = step_at(items, legacy_root, state_root, at);
            let action = entry_action(
                joined_path(legacy_root, item.name@),
                joined_path(state_root, item.name@),
                item.seen,
                item.current,
            );
            &&& foreign ==> (r matches Ok(step) && step.action is Leave && step.message is Some)
            &&& !foreign ==> {
                &&& r is Ok <==> action is Ok
                &&& r is Ok ==> r->Ok_0.action == action->Ok_0
                &&& r is Ok ==> (r->Ok_0.message is None <==> action->Ok_0 is Nothing)
            }
            &&& r is Ok ==> r->Ok_0.item == at
        }),
{
}

/// What is taken is what moves or goes.
pub proof fn law_taken_steps_are_counted(steps: Seq<StepView>, n: int)
    requires
        0 <= n <= steps.len(),
    ensures
        count_taken(steps, n) == steps.take(n).filter(
            |s: StepView| s.action is RemoveSource || s.action is MoveFile || s.action is MoveTree,
        ).len(),
    decreases n,
{
    reveal(Seq::filter);
    if n > 0 {
        law_taken_steps_are_counted(steps, n - 1);
        assert(steps.take(n).drop_last() =~= steps.take(n - 1));
        assert(steps.take(n).last() == steps[n - 1]);
    } else {
        assert(steps.take(0) =~= Seq::<StepView>::empty());
    }
}

// Adding to a catalog.

/// A new skill fits into a catalog exactly where its name is neither a skill nor declared, everything
/// that it requires is there, and a global skill requires only global ones.
pub proof fn law_new_skills_fit(skill: CatalogSkillView, current: Skills, declared: Set<Text>)
    ensures
        new_skill_refusal(skill, current, declared) is None <==> {
            &&& !current.contains_key(skill.name)
            &&& !declared.contains(skill.name)
            &&& forall|i: int|
                0 <= i < skill.requires.len() ==> current.contains_key(#[trigger] skill.requires[i])
                    && (skill.global ==> current[skill.requires[i]].global)
        },
{
    let f = new_dependency_faults(skill, current);
    let n = skill.requires.len() as int;
    lemma_first_refusal(n, f);
    if forall|i: int| 0 <= i < n ==> (#[trigger] f(i)) is None {
        assert forall|i: int| 0 <= i < n implies current.contains_key(#[trigger] skill.requires[i])
            && (skill.global ==> current[skill.requires[i]].global) by {
            assert(f(i) is None);
        }
    }
    if forall|i: int|
        0 <= i < n ==> current.contains_key(#[trigger] skill.requires[i]) && (skill.global
            ==> current[skill.requires[i]].global) {
        assert forall|i: int| 0 <= i < n implies (#[trigger] f(i)) is None by {
            assert(current.contains_key(skill.requires[i]));
        }
    }
}

/// A skill is added exactly where both directories are real, the source lies outside the catalog, the
/// scope is a portable name that the catalog has, its metadata is a real file of the known schema, the
/// catalog itself is accepted, the skill file is, and the skill fits. It is then read in that scope,
/// and is global exactly where that was asked for.
pub proof fn law_additions_are_exact(q: AdditionRequest)
    ensures
        ({
            let r = requested_skill(q);
            let metadata = q.snapshot.metadata->Some_0@;
            let read = skill_of(
                q.source_raw@,
                q.source_folder@,
                joined_path(q.source_path@, "SKILL.md"@),
                Some(q.scope@),
                q.eligibility is Global,
                q.source_digest@,
            );
            &&& r is Ok <==> {
                &&& q.root_is_directory
                &&& q.source_is_directory
                &&& !within(q.source_path@, q.snapshot.root@)
                &&& is_name(q.scope@)
                &&& q.metadata_is_file
                &&& q.snapshot.metadata is Some
                &&& metadata.version == 1
                &&& metadata.scopes.contains_key(q.scope@)
                &&& catalog_skills(q.snapshot) is Ok
                &&& read is Ok
                &&& new_skill_refusal(
                    read->Ok_0,
                    catalog_skills(q.snapshot)->Ok_0,
                    metadata.skills.dom(),
                ) is None
            }
            &&& r is Ok ==> r == read
        }),
{
}

// Paths.

/// A path lies within a directory exactly where it is the directory, or the directory with a `/` and
/// more behind it.
pub proof fn law_within_is_below(path: Text, root: Text)
    requires
        !(root.len() > 0 && root.last() == '/'),
    ensures
        within(path, root) <==> path == root || exists|rest: Text| path == #[trigger] (root + seq!['/']
            + rest),
{
    reveal_strlit("/");
    assert("/"@ =~= seq!['/']);
    if within(path, root) && path != root {
        let start = root + "/"@;
        let rest = path.skip(start.len() as int);
        assert(path =~= root + seq!['/'] + rest);
    }
    if exists|rest: Text| path == #[trigger] (root + seq!['/'] + rest) {
        let rest = choose|rest: Text| path == #[trigger] (root + seq!['/'] + rest);
        let start = root + "/"@;
        assert(path.take(start.len() as int) =~= start);
    }
}

/// A relative name is put behind its base with one `/` between them; an absolute one stands for itself.
pub proof fn law_joined_paths_keep_both_parts(base: Text, name: Text)
    ensures
        name.len() > 0 && name[0] == '/' ==> joined_path(base, name) == name,
        !(name.len() > 0 && name[0] == '/') && base.len() > 0 && base.last() != '/' ==> joined_path(
            base,
            name,
        ) == base + seq!['/'] + name,
        !(name.len() > 0 && name[0] == '/') && (base.len() == 0 || base.last() == '/')
            ==> joined_path(base, name) == base + name,
{
    reveal_strlit("/");
    assert("/"@ =~= seq!['/']);
}

} // verus!
