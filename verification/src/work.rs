//! Managed directories: what is left over from interrupted work, and where work can be done.

use vstd::prelude::*;
use crate::failure::{
    first_refusal, lemma_first_refusal_none, lemma_first_refusal_some, refusal, Failure,
};
use crate::install::InstallPaths;
use crate::model::{GlobalConfig, ProjectConfig};
use crate::name_map::{lemma_walk, walk, NameMap, NameSet};
use crate::paths::{join_path, joined_path};
use crate::project_store::EntryKind;
use crate::status::{count_keys, owned_count};
use crate::text::{begins, cat2, cat3, same, starts_with, views, Text};

verus! {

/// An entry of the work directory.
#[derive(Debug)]
pub struct WorkEntry {
    pub name: String,
    pub kind: EntryKind,
    /// It holds the ownership mark, as a real file.
    pub marked: bool,
}

/// Whether an entry is work that was staged or prepared.
pub open spec fn is_work(name: Text) -> bool {
    starts_with(name, "staging-"@) || starts_with(name, "prepared-"@)
}

pub open spec fn work_faults(root: Text, entries: Seq<WorkEntry>) -> spec_fn(int) -> Option<Text> {
    |i: int|
        if is_work(entries[i].name@) && (entries[i].kind != EntryKind::Directory
            || !entries[i].marked) {
            Some("refusing unverified work residue: "@ + joined_path(root, entries[i].name@))
        } else {
            None
        }
}

/// Why the work directory is not read.
pub open spec fn work_refusal(
    parent: Text,
    parent_kind: Option<EntryKind>,
    root: Text,
    root_kind: Option<EntryKind>,
    entries: Seq<WorkEntry>,
) -> Option<Text> {
    if parent_kind is Some && parent_kind != Some(EntryKind::Directory) {
        Some("managed work parent must be a real directory: "@ + parent)
    } else if root_kind is None {
        None
    } else if root_kind != Some(EntryKind::Directory) {
        Some("managed work root must be a real directory: "@ + root)
    } else {
        first_refusal(entries.len() as int, work_faults(root, entries))
    }
}

/// The names of work among the entries.
pub open spec fn work_names(entries: Seq<WorkEntry>) -> Set<Text> {
    Set::new(
        |n: Text| exists|i: int| 0 <= i < entries.len() && #[trigger] entries[i].name@ == n && is_work(n),
    )
}

pub open spec fn under(root: Text, names: Seq<Text>) -> Seq<Text> {
    names.map_values(|n: Text| joined_path(root, n))
}

/// The directories that interrupted work left behind, in order. All of them carry the
/// ownership mark; the first that does not is refused.
pub fn stale_work_directories(
    parent: &str,
    parent_kind: Option<EntryKind>,
    root: &str,
    root_kind: Option<EntryKind>,
    entries: &Vec<WorkEntry>,
) -> (r: Result<Vec<String>, Failure>)
    ensures
        ({
            let fault = work_refusal(parent@, parent_kind, root@, root_kind, entries@);
            match r {
                Ok(stale) => fault is None && views(stale@) == (if root_kind is None {
                    Seq::empty()
                } else {
                    under(root@, walk(work_names(entries@)))
                }),
                Err(f) => fault == Some(f@),
            }
        }),
{
    let mut stale: Vec<String> = Vec::new();
    match parent_kind {
        Some(kind) => if kind != EntryKind::Directory {
            return Err(
                Failure::new(cat2("managed work parent must be a real directory: ", parent)),
            );
        },
        None => {},
    }
    match root_kind {
        None => {
            assert(views(stale@) =~= Seq::<Text>::empty());
            return Ok(stale);
        },
        Some(kind) => if kind != EntryKind::Directory {
            return Err(Failure::new(cat2("managed work root must be a real directory: ", root)));
        },
    }
    let ghost faults = work_faults(root@, entries@);
    let ghost count = entries@.len() as int;
    let mut names = NameSet::new();
    let mut i: usize = 0;
    while i < entries.len()
        invariant
            i <= entries@.len(),
            count == entries@.len(),
            faults == work_faults(root@, entries@),
            root_kind is Some,
            work_refusal(parent@, parent_kind, root@, root_kind, entries@) == first_refusal(
                count,
                faults,
            ),
            forall|j: int| 0 <= j < i ==> (#[trigger] faults(j)) is None,
            forall|n: Text| #[trigger] names@.contains(n) ==> work_names(entries@).contains(n),
            forall|j: int|
                0 <= j < i && is_work((#[trigger] entries@[j]).name@) ==> names@.contains(
                    entries@[j].name@,
                ),
        decreases entries@.len() - i,
    {
        let entry = &entries[i];
        let name = entry.name.as_str();
        if begins(name, "staging-") || begins(name, "prepared-") {
            if entry.kind != EntryKind::Directory || !entry.marked {
                proof {
                    assert(faults(i as int) is Some);
                    lemma_first_refusal_some(count, faults, i as int);
                }
                return Err(
                    Failure::new(
                        cat2(
                            "refusing unverified work residue: ",
                            join_path(root, name).as_str(),
                        ),
                    ),
                );
            }
            assert(work_names(entries@).contains(entries@[i as int].name@));
            let _ = names.insert(entry.name.clone());
        }
        assert(faults(i as int) is None);
        i = i + 1;
    }
    let n: usize = names.len();
    proof {
        lemma_first_refusal_none(count, faults);
        assert(names@ =~= work_names(entries@));
        lemma_walk(names.names());
    }
    let ghost order = names.names();
    assert(order == walk(work_names(entries@)));
    let mut k: usize = 0;
    while k < n
        invariant
            k <= n == order.len(),
            order == names.names(),
            views(stale@) == under(root@, order.take(k as int)),
        decreases n - k,
    {
        let ghost before = stale@;
        let path = join_path(root, names.name_at(k).as_str());
        let ghost text = path@;
        stale.push(path);
        assert(views(stale@) =~= views(before).push(text));
        assert(under(root@, order.take(k as int + 1)) =~= under(root@, order.take(k as int)).push(
            joined_path(root@, order[k as int]),
        ));
        k = k + 1;
    }
    assert(order.take(n as int) =~= order);
    Ok(stale)
}

/// Nothing is taken for stale work that does not carry the ownership mark.
pub proof fn law_stale_work_is_marked(
    parent: Text,
    parent_kind: Option<EntryKind>,
    root: Text,
    root_kind: Option<EntryKind>,
    entries: Seq<WorkEntry>,
    i: int,
)
    requires
        work_refusal(parent, parent_kind, root, root_kind, entries) is None,
        root_kind is Some,
        0 <= i < entries.len(),
        work_names(entries).contains(entries[i].name@),
    ensures
        entries[i].marked,
        entries[i].kind == EntryKind::Directory,
{
    let faults = work_faults(root, entries);
    crate::failure::lemma_first_refusal(entries.len() as int, faults);
    assert(faults(i) is None);
}

/// Whether a journal is there to be read.
pub fn check_journal(path: &str, kind: Option<EntryKind>) -> (r: Result<bool, Failure>)
    ensures
        match r {
            Ok(there) => there == kind is Some && (kind is None || kind == Some(EntryKind::File)),
            Err(f) => kind is Some && kind != Some(EntryKind::File) && f@
                == "transaction journal is not a real file: "@ + path@,
        },
{
    match kind {
        None => Ok(false),
        Some(kind) => if kind == EntryKind::File {
            Ok(true)
        } else {
            Err(Failure::new(cat2("transaction journal is not a real file: ", path)))
        },
    }
}

/// The places that an installation writes to, each with what it is.
pub fn preflight_targets(paths: &InstallPaths, state_parent: &str, cache: &str, projection: &str) -> (r: Vec<
    (String, &'static str),
>)
    ensures
        r@.len() == 4,
        r@[0].0@ == state_parent@,
        r@[0].1@ == "state"@,
        r@[1].0@ == paths.work_root@,
        r@[1].1@ == "work"@,
        r@[2].0@ == joined_path(cache@, "npm"@),
        r@[2].1@ == "npm cache"@,
        r@[3].0@ == projection@,
        r@[3].1@ == "canonical projection"@,
{
    let mut out: Vec<(String, &'static str)> = Vec::new();
    out.push((state_parent.to_owned(), "state"));
    out.push((paths.work_root.clone(), "work"));
    out.push((join_path(cache, "npm"), "npm cache"));
    out.push((projection.to_owned(), "canonical projection"));
    out
}

/// Checks the nearest directory above a place that is there.
pub fn check_ancestor(label: &str, ancestor: &str, kind: Option<EntryKind>) -> (r: Result<(), Failure>)
    ensures
        refusal(r) == (match kind {
            None => Some(label@ + " has no existing writable ancestor"@),
            Some(kind) => if kind == EntryKind::Directory {
                None
            } else {
                Some(label@ + " writable ancestor is not a real directory: "@ + ancestor@)
            },
        }),
{
    match kind {
        None => Err(Failure::new(cat2(label, " has no existing writable ancestor"))),
        Some(kind) => if kind == EntryKind::Directory {
            Ok(())
        } else {
            Err(
                Failure::new(
                    cat3(label, " writable ancestor is not a real directory: ", ancestor),
                ),
            )
        },
    }
}

/// Whether a projection is an exact copy. Each side is the digest of a directory, where there
/// is one.
pub fn exact_projection_matches(actual: Option<&str>, intended: Option<&str>) -> (r: bool)
    ensures
        r == (actual is Some && intended is Some && actual->Some_0@ == intended->Some_0@),
{
    match (actual, intended) {
        (Some(a), Some(b)) => same(a, b),
        _ => false,
    }
}

/// How many selections each registered catalog has.
pub fn declared_counts(global: &GlobalConfig, manifest: &ProjectConfig) -> (r: NameMap<usize>)
    ensures
        r@.dom() == global.catalogs@.dom(),
        forall|alias: Text| #[trigger]
            r@.contains_key(alias) ==> r@[alias] == owned_count(manifest.skills@.dom(), alias),
{
    let mut out: NameMap<usize> = NameMap::new();
    let n: usize = global.catalogs.len();
    let ghost names = global.catalogs.names();
    let mut i: usize = 0;
    while i < n
        invariant
            i <= n == names.len(),
            names == global.catalogs.names(),
            global.catalogs.ordered(),
            forall|a: Text| #[trigger]
                out@.contains_key(a) ==> global.catalogs@.contains_key(a) && out@[a] == owned_count(
                    manifest.skills@.dom(),
                    a,
                ),
            forall|j: int| 0 <= j < i ==> out@.contains_key(#[trigger] names[j]),
        decreases n - i,
    {
        let alias = global.catalogs.name_at(i);
        proof {
            assert(names.to_set().contains(names[i as int])) by {
                assert(names.contains(names[i as int]));
            }
        }
        let count = count_keys(&manifest.skills, alias.as_str());
        out.insert(alias.clone(), count);
        i = i + 1;
    }
    proof {
        assert forall|a: Text| global.catalogs@.contains_key(a) implies out@.contains_key(a) by {
            assert(names.to_set().contains(a));
            let j = names.index_of(a);
            assert(out@.contains_key(names[j]));
        }
        assert(out@.dom() =~= global.catalogs@.dom());
    }
    out
}

} // verus!
