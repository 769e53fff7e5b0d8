//! The project Skills lock: entries that belong to this installer are taken out of it, and
//! every other entry stays.

use vstd::prelude::*;
use crate::failure::Failure;
use crate::name_map::NameSet;
use crate::outside::{
    json_items, json_member, json_members, json_string_text, json_value, parse_json, value_items,
    value_member, value_member_mut, value_names, value_remove, value_text,
};
use crate::paths::{ends_in_slash, is_within, join_path, joined_path, within};
use crate::text::{begins, cat2, chars_of, same, starts_with, string_of, views, Text};

verus! {

/// The largest lock that is read, in bytes.
pub const MAX_PROJECT_SKILLS_LOCK_BYTES: u64 = 2_000_000;

pub open spec fn lock_path(project_root: Text) -> Text {
    joined_path(project_root, "skills-lock.json"@)
}

pub fn project_skills_lock_path(project_root: &str) -> (r: String)
    ensures
        r@ == lock_path(project_root@),
{
    join_path(project_root, "skills-lock.json")
}

/// What was observed of the lock file.
#[derive(Debug, Clone, Copy, PartialEq, Eq, Structural)]
pub struct LockFile {
    pub symlink: bool,
    pub file: bool,
    pub bytes: u64,
}

/// Why a lock file is not read.
pub open spec fn lock_file_refusal(path: Text, seen: LockFile) -> Option<Text> {
    if seen.symlink || !seen.file {
        Some("project Skills lock must be a real file: "@ + path)
    } else if seen.bytes > MAX_PROJECT_SKILLS_LOCK_BYTES {
        Some("project Skills lock exceeds 2 MB: "@ + path)
    } else {
        None
    }
}

pub fn check_lock_file(path: &str, seen: LockFile) -> (r: Result<(), Failure>)
    ensures
        crate::failure::refusal(r) == lock_file_refusal(path@, seen),
{
    if seen.symlink || !seen.file {
        return Err(Failure::new(cat2("project Skills lock must be a real file: ", path)));
    }
    if seen.bytes > MAX_PROJECT_SKILLS_LOCK_BYTES {
        return Err(Failure::new(cat2("project Skills lock exceeds 2 MB: ", path)));
    }
    Ok(())
}

/// Reads the bytes of a lock file.
pub fn parse_lock(bytes: &[u8], path: &str) -> (r: Result<serde_json::Value, Failure>)
    ensures
        match r {
            Ok(v) => json_value(bytes@) == Some(v),
            Err(f) => json_value(bytes@) is None && f@ == "parsing "@ + path@,
        },
{
    match parse_json(bytes) {
        Ok(value) => Ok(value),
        Err(_) => Err(Failure::new(cat2("parsing ", path))),
    }
}

pub open spec fn slash(c: char) -> char {
    if c == '\\' {
        '/'
    } else {
        c
    }
}

/// A path with `/` for every `\\`.
pub open spec fn with_slashes(s: Text) -> Text {
    s.map_values(|c: char| slash(c))
}

fn forward_slashes(s: &str) -> (r: String)
    ensures
        r@ == with_slashes(s@),
{
    let v = chars_of(s);
    let mut out = String::new();
    let mut i: usize = 0;
    assert(with_slashes(s@.take(0)) =~= Seq::<char>::empty());
    while i < v.len()
        invariant
            i <= v.len(),
            v@ == s@,
            out@ == with_slashes(s@.take(i as int)),
        decreases v.len() - i,
    {
        if v[i] == '\\' {
            out.push('/');
        } else {
            out.push(v[i]);
        }
        i = i + 1;
        assert(with_slashes(s@.take(i as int)) =~= with_slashes(s@.take(i - 1)).push(
            slash(s@[i - 1]),
        ));
    }
    assert(s@.take(i as int) =~= s@);
    out
}

/// A source as the lock is compared by: forward slashes, no leading `./`.
pub open spec fn normal_source(s: Text) -> Text {
    let t = with_slashes(s);
    if starts_with(t, "./"@) {
        t.skip(2)
    } else {
        t
    }
}

/// What is left of `path` below `root`.
pub open spec fn below(path: Text, root: Text) -> Text {
    if path == root {
        Seq::empty()
    } else if ends_in_slash(root) {
        path.skip(root.len() as int)
    } else {
        path.skip(root.len() as int + 1)
    }
}

/// The sources of entries that belong to this installer.
pub open spec fn managed_sources(state_root: Text, project_root: Text) -> Set<Text> {
    let current = joined_path(state_root, "prepared-current"@);
    let base = Set::<Text>::empty().insert(".skiller/prepared-current"@).insert(with_slashes(current));
    if within(current, project_root) {
        base.insert(with_slashes(below(current, project_root)))
    } else {
        base
    }
}

pub fn managed_lock_sources(state_root: &str, project_root: &str) -> (r: NameSet)
    ensures
        r@ == managed_sources(state_root@, project_root@),
{
    let current = join_path(state_root, "prepared-current");
    let mut out = NameSet::new();
    let _ = out.insert(String::from_str(".skiller/prepared-current"));
    let _ = out.insert(forward_slashes(current.as_str()));
    if is_within(current.as_str(), project_root) {
        let c = chars_of(current.as_str());
        let root = chars_of(project_root);
        let relative = if same(current.as_str(), project_root) {
            String::new()
        } else {
            let slashed = root.len() > 0 && root[root.len() - 1] == '/';
            proof {
                reveal_strlit("/");
                if !slashed {
                    assert((project_root@ + "/"@).len() <= current@.len());
                    assert(root@.len() + 1 <= c@.len());
                }
            }
            let from: usize = if slashed {
                root.len()
            } else {
                root.len() + 1
            };
            assert(c@.subrange(from as int, c@.len() as int) =~= below(current@, project_root@));
            string_of(&c, from, c.len())
        };
        let _ = out.insert(forward_slashes(relative.as_str()));
    }
    out
}

/// Whether a lock entry was written by this installer: a local one from a managed source.
pub open spec fn is_managed_entry(entry: serde_json::Value, sources: Set<Text>) -> bool {
    &&& json_member(entry, "sourceType"@) matches Some(kind) && json_string_text(kind) == Some(
        "local"@,
    )
    &&& json_member(entry, "source"@) matches Some(source) && json_string_text(source) matches Some(
        text,
    ) && sources.contains(normal_source(text))
}

fn is_skiller_lock_entry(entry: &serde_json::Value, sources: &NameSet) -> (r: bool)
    ensures
        r == is_managed_entry(*entry, sources@),
{
    let local = match value_member(entry, "sourceType") {
        Some(kind) => match value_text(kind) {
            Some(text) => same(text.as_str(), "local"),
            None => false,
        },
        None => false,
    };
    if !local {
        return false;
    }
    match value_member(entry, "source") {
        Some(source) => match value_text(source) {
            Some(text) => {
                let normal = forward_slashes(text.as_str());
                if begins(normal.as_str(), "./") {
                    let v = chars_of(normal.as_str());
                    proof {
                        reveal_strlit("./");
                        assert(v@.subrange(2, v@.len() as int) =~= normal@.skip(2));
                    }
                    let rest = string_of(&v, 2, v.len());
                    sources.contains(rest.as_str())
                } else {
                    sources.contains(normal.as_str())
                }
            },
            None => false,
        },
        None => false,
    }
}

/// The entries of a lock.
pub open spec fn lock_entries(lock: serde_json::Value) -> Option<Map<Text, serde_json::Value>> {
    match json_member(lock, "skills"@) {
        Some(skills) => json_members(skills),
        None => None,
    }
}

/// The names of the entries that belong to this installer.
pub open spec fn managed_names(entries: Map<Text, serde_json::Value>, owned: Set<Text>, sources: Set<Text>) -> Set<
    Text,
> {
    entries.dom().filter(|n: Text| owned.contains(n) && is_managed_entry(entries[n], sources))
}

/// The names of the lock's entries that belong to this installer.
pub fn managed_lock_names(lock: &serde_json::Value, owned: &NameSet, sources: &NameSet) -> (r: Result<
    NameSet,
    Failure,
>)
    ensures
        match r {
            Ok(names) => lock_entries(*lock) matches Some(entries) && names@ == managed_names(
                entries,
                owned@,
                sources@,
            ),
            Err(f) => lock_entries(*lock) is None && f@
                == "project Skills lock has no skills object"@,
        },
{
    let skills = match value_member(lock, "skills") {
        Some(skills) => skills,
        None => {
            return Err(
                Failure::new(String::from_str("project Skills lock has no skills object")),
            );
        },
    };
    let names = match value_names(skills) {
        Some(names) => names,
        None => {
            return Err(
                Failure::new(String::from_str("project Skills lock has no skills object")),
            );
        },
    };
    let ghost entries = json_members(*skills)->Some_0;
    let ghost all = views(names@);
    let mut out = NameSet::new();
    let mut i: usize = 0;
    while i < names.len()
        invariant
            i <= names.len(),
            all == views(names@),
            json_members(*skills) == Some(entries),
            all.to_set() == entries.dom(),
            forall|n: Text| #[trigger]
                out@.contains(n) ==> managed_names(entries, owned@, sources@).contains(n),
            forall|j: int|
                0 <= j < i && managed_names(entries, owned@, sources@).contains(all[j])
                    ==> out@.contains(#[trigger] all[j]),
        decreases names.len() - i,
    {
        let name = names[i].as_str();
        assert(all[i as int] == name@);
        assert(all.to_set().contains(name@));
        if owned.contains(name) {
            match value_member(skills, name) {
                None => {
                    assert(false);
                },
                Some(entry) => {
                    if is_skiller_lock_entry(entry, sources) {
                        assert(managed_names(entries, owned@, sources@).contains(name@));
                        let _ = out.insert(names[i].clone());
                    }
                },
            }
        }
        i = i + 1;
    }
    proof {
        assert forall|n: Text| managed_names(entries, owned@, sources@).contains(
            n,
        ) implies out@.contains(n) by {
            assert(all.to_set().contains(n));
            let j = all.index_of(n);
            assert(all[j] == n);
        }
        assert(out@ =~= managed_names(entries, owned@, sources@));
    }
    Ok(out)
}

/// What becomes of the lock file.
#[derive(Debug, Clone, Copy, PartialEq, Eq, Structural)]
pub enum LockChange {
    Keep,
    Write,
    RemoveFile,
}

/// Takes the entries that belong to this installer out of the lock; every other entry, and
/// every other member of the lock, stays. A lock without entries is removed.
pub fn partition_project_skills_lock(lock: &mut serde_json::Value, owned: &NameSet, sources: &NameSet) -> (r: Result<
    LockChange,
    Failure,
>)
    ensures
        match lock_entries(*old(lock)) {
            None => r matches Err(f) && f@ == "project Skills lock has no skills object"@ && *final(lock)
                == *old(lock),
            Some(entries) => {
                let managed = managed_names(entries, owned@, sources@);
                if managed == Set::<Text>::empty() {
                    r == Ok::<LockChange, Failure>(LockChange::Keep) && *final(lock) == *old(lock)
                } else {
                    &&& lock_entries(*final(lock)) == Some(entries.remove_keys(managed))
                    &&& json_members(*final(lock))->Some_0.remove("skills"@) == json_members(
                        *old(lock),
                    )->Some_0.remove("skills"@)
                    &&& r == Ok::<LockChange, Failure>(
                        if entries.remove_keys(managed).dom() == Set::<Text>::empty() {
                            LockChange::RemoveFile
                        } else {
                            LockChange::Write
                        },
                    )
                }
            },
        },
{
    let managed = match managed_lock_names(lock, owned, sources) {
        Ok(managed) => managed,
        Err(f) => return Err(f),
    };
    let ghost start = *lock;
    let ghost entries = lock_entries(start)->Some_0;
    let ghost names = managed.names();
    let n: usize = managed.len();
    if n == 0 {
        proof {
            assert(managed@ =~= Set::<Text>::empty());
        }
        return Ok(LockChange::Keep);
    }
    proof {
        assert(names.to_set().contains(names[0]));
        assert(managed@ != Set::<Text>::empty());
        assert(names.take(0).to_set() =~= Set::<Text>::empty());
        assert(entries.remove_keys(names.take(0).to_set()) =~= entries);
    }
    let mut i: usize = 0;
    while i < n
        invariant
            i <= n == names.len(),
            names == managed.names(),
            managed.ordered(),
            lock_entries(start) == Some(entries),
            lock_entries(*lock) == Some(entries.remove_keys(names.take(i as int).to_set())),
            json_members(*lock)->Some_0.remove("skills"@) == json_members(start)->Some_0.remove(
                "skills"@,
            ),
        decreases n - i,
    {
        let ghost before = *lock;
        let name = managed.name_at(i);
        match value_member_mut(lock, "skills") {
            Some(skills) => value_remove(skills, name.as_str()),
            None => {},
        }
        proof {
            crate::model::lemma_take_set(names, i as int);
            let done = names.take(i as int).to_set();
            assert(entries.remove_keys(done).remove(name@) =~= entries.remove_keys(
                done.insert(name@),
            ));
            assert(json_members(*lock)->Some_0.remove("skills"@) =~= json_members(
                before,
            )->Some_0.remove("skills"@));
        }
        i = i + 1;
    }
    proof {
        crate::model::lemma_take_all(names);
    }
    let left = match value_member(lock, "skills") {
        Some(skills) => value_names(skills),
        None => None,
    };
    let ghost rest = entries.remove_keys(managed@);
    match left {
        Some(names_left) => {
            if names_left.len() == 0 {
                proof {
                    assert(views(names_left@).to_set() =~= Set::<Text>::empty());
                }
                Ok(LockChange::RemoveFile)
            } else {
                proof {
                    assert(views(names_left@).to_set().contains(views(names_left@)[0]));
                }
                Ok(LockChange::Write)
            }
        },
        None => {
            assert(false);
            Ok(LockChange::Keep)
        },
    }
}

/// Every entry that is not owned, or was not written from a managed source, stays.
pub proof fn law_native_entries_stay(
    entries: Map<Text, serde_json::Value>,
    owned: Set<Text>,
    sources: Set<Text>,
    name: Text,
)
    requires
        entries.contains_key(name),
        !owned.contains(name) || !is_managed_entry(entries[name], sources),
    ensures
        entries.remove_keys(managed_names(entries, owned, sources)).contains_key(name),
        entries.remove_keys(managed_names(entries, owned, sources))[name] == entries[name],
{
}

// Lists of agents.

/// The name that a row of a list gives.
pub open spec fn row_name(row: serde_json::Value) -> Option<Text> {
    match json_member(row, "name"@) {
        Some(name) => json_string_text(name),
        None => None,
    }
}

/// The names that the rows give.
pub open spec fn row_names(rows: Seq<serde_json::Value>) -> Set<Text> {
    Set::new(
        |n: Text| exists|i: int| 0 <= i < rows.len() && row_name(#[trigger] rows[i]) == Some(n),
    )
}

/// The names of the rows of a list; none where the value is no list.
pub fn listed_names(list: &serde_json::Value) -> (r: Option<NameSet>)
    ensures
        match r {
            Some(names) => json_items(*list) matches Some(rows) && names@ == row_names(rows),
            None => json_items(*list) is None,
        },
{
    let rows = match value_items(list) {
        Some(rows) => rows,
        None => return None,
    };
    let mut out = NameSet::new();
    let mut i: usize = 0;
    while i < rows.len()
        invariant
            i <= rows.len(),
            forall|n: Text| #[trigger] out@.contains(n) ==> row_names(rows@).contains(n),
            forall|j: int|
                0 <= j < i && row_name(rows@[j]) is Some ==> out@.contains(
                    row_name(#[trigger] rows@[j])->Some_0,
                ),
        decreases rows.len() - i,
    {
        match value_member(&rows[i], "name") {
            Some(name) => match value_text(name) {
                Some(text) => {
                    assert(row_name(rows@[i as int]) == Some(text@));
                    let _ = out.insert(text);
                },
                None => {},
            },
            None => {},
        }
        i = i + 1;
    }
    assert(out@ =~= row_names(rows@));
    Some(out)
}

/// Reads the list of an agent's skills.
pub fn agent_listing(bytes: &[u8], agent: &str) -> (r: Result<NameSet, Failure>)
    ensures
        match r {
            Ok(names) => json_value(bytes@) matches Some(list) && json_items(list) matches Some(
                rows,
            ) && names@ == row_names(rows),
            Err(f) => (json_value(bytes@) is None || json_items(json_value(bytes@)->Some_0) is None)
                && f@ == "parsing Vercel Skills list for agent "@ + agent@,
        },
{
    match parse_json(bytes) {
        Ok(list) => match listed_names(&list) {
            Some(names) => Ok(names),
            None => Err(Failure::new(cat2("parsing Vercel Skills list for agent ", agent))),
        },
        Err(_) => Err(Failure::new(cat2("parsing Vercel Skills list for agent ", agent))),
    }
}

} // verus!
