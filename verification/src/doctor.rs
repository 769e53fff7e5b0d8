//! Diagnosis: what is wrong with an installation, what of it can be repaired, and how.

use vstd::prelude::*;
use crate::catalog::{renames_resolve, resolve_rename, CatalogIndex};
use crate::failure::{
    first_refusal, first_where, lemma_first_refusal, lemma_first_refusal_none,
    lemma_first_refusal_some, lemma_first_where, lemma_first_where_none, lemma_first_where_some,
    refusal, Failure,
};
use crate::graph::current_name;
use crate::install::{
    is_desired, same_selections, scope_code, TransactionJournal, TransactionPhase,
};
use crate::model::{
    is_name, lemma_take_all, lemma_take_set, valid_name, InstalledSkillView, InstalledState,
    ProjectConfig, SkillSelection,
};
use crate::name_map::{lemma_walk, lemma_walk_finite, walk, NameMap, NameSet};
use crate::plan::{differs, is_stale};
use crate::reconcile::owned_names;
use crate::resolve::{bad_key, key_of, resolved_views, ResolvedSkill, ResolvedView};
use crate::transaction::{names_of, resolved_names};
use crate::text::{
    ascending, cat2, cat3, cat4, cat5, cut, lemma_find_char, lemma_find_char_bound, same,
    split_once, views, Text,
};

verus! {

// Declared renames.

/// The renames of a catalog, in contracts.
pub open spec fn renames(catalog: CatalogIndex) -> Map<Text, Text> {
    catalog.metadata@.renames
}

/// Where a selection moves, if it moves, or why it cannot.
pub open spec fn move_of(
    catalogs: Map<Text, CatalogIndex>,
    skills: Map<Text, SkillSelection>,
    global: bool,
    key: Text,
) -> Result<Option<Text>, Text> {
    match cut(key, '/') {
        None => Err(bad_key(key)),
        Some((alias, old_name)) => if !catalogs.contains_key(alias) {
            Err("configuration references unregistered catalog: "@ + alias)
        } else {
            let catalog = catalogs[alias];
            if catalog.skills@.contains_key(old_name) {
                Ok(None)
            } else if !renames(catalog).contains_key(old_name) {
                Err(
                    "catalog "@ + alias + " has no skill named "@ + old_name
                        + " and declares no rename"@,
                )
            } else {
                let name = current_name(renames(catalog), old_name);
                let target = key_of(alias, name);
                if catalog.skills@[name].global != global {
                    Err(
                        "declared rename "@ + key_of(alias, old_name) + " -> "@ + target
                            + " changes configuration eligibility"@,
                    )
                } else if skills.contains_key(target) {
                    Err(
                        "declared rename collides with an existing selection: "@ + key + " -> "@
                            + target,
                    )
                } else {
                    Ok(Some(target))
                }
            }
        },
    }
}

pub open spec fn moves_alike(
    catalogs: Map<Text, CatalogIndex>,
    skills: Map<Text, SkillSelection>,
    global: bool,
    i: int,
) -> spec_fn(int) -> bool {
    |j: int|
        move_of(catalogs, skills, global, walk(skills.dom())[j]) == move_of(
            catalogs,
            skills,
            global,
            walk(skills.dom())[i],
        )
}

pub open spec fn move_faults(catalogs: Map<Text, CatalogIndex>, skills: Map<Text, SkillSelection>, global: bool) -> spec_fn(
    int,
) -> Option<Text> {
    |i: int|
        {
            let keys = walk(skills.dom());
            match move_of(catalogs, skills, global, keys[i]) {
                Err(e) => Some(e),
                Ok(None) => None,
                Ok(Some(target)) => match first_where(i, moves_alike(catalogs, skills, global, i)) {
                    Some(j) => Some(
                        "declared renames converge on one selection: "@ + keys[j] + ", "@ + keys[i]
                            + " -> "@ + target,
                    ),
                    None => None,
                },
            }
        }
}

/// The selections once the first `n` keys have moved.
pub open spec fn moved(
    catalogs: Map<Text, CatalogIndex>,
    skills: Map<Text, SkillSelection>,
    global: bool,
    n: int,
) -> Map<Text, SkillSelection>
    decreases n,
{
    if n <= 0 {
        skills
    } else {
        let front = moved(catalogs, skills, global, n - 1);
        let key = walk(skills.dom())[n - 1];
        match move_of(catalogs, skills, global, key) {
            Ok(Some(target)) => front.remove(key).insert(target, skills[key]),
            _ => front,
        }
    }
}

/// What is said of the first `n` keys.
pub open spec fn move_messages(
    catalogs: Map<Text, CatalogIndex>,
    skills: Map<Text, SkillSelection>,
    global: bool,
    n: int,
) -> Seq<Text>
    decreases n,
{
    if n <= 0 {
        Seq::empty()
    } else {
        let front = move_messages(catalogs, skills, global, n - 1);
        let key = walk(skills.dom())[n - 1];
        match move_of(catalogs, skills, global, key) {
            Ok(Some(target)) => front.push(
                "configuration key "@ + key + " will migrate to "@ + target,
            ),
            _ => front,
        }
    }
}

pub open spec fn move_refusal(catalogs: Map<Text, CatalogIndex>, skills: Map<Text, SkillSelection>, global: bool) -> Option<
    Text,
> {
    first_refusal(walk(skills.dom()).len() as int, move_faults(catalogs, skills, global))
}

/// Every rename of every catalog leads to a current skill.
pub open spec fn all_resolve(catalogs: Map<Text, CatalogIndex>) -> bool {
    forall|a: Text| #[trigger]
        catalogs.contains_key(a) ==> renames_resolve(renames(catalogs[a]), catalogs[a].skills@.dom())
}

fn target_of(
    manifest: &ProjectConfig,
    catalogs: &NameMap<CatalogIndex>,
    global: bool,
    key: &str,
) -> (r: Result<Option<String>, Failure>)
    requires
        all_resolve(catalogs@),
    ensures
        match r {
            Ok(t) => move_of(catalogs@, manifest.skills@, global, key@) == Ok::<Option<Text>, Text>(
                crate::text::opt_view(t),
            ),
            Err(f) => move_of(catalogs@, manifest.skills@, global, key@) == Err::<
                Option<Text>,
                Text,
            >(f@),
        },
{
    let (alias, old_name) = match split_once(key, '/') {
        Some(parts) => parts,
        None => {
            return Err(Failure::new(cat2("invalid catalog skill identifier: ", key)));
        },
    };
    let catalog = match catalogs.get(alias.as_str()) {
        Some(catalog) => catalog,
        None => {
            return Err(
                Failure::new(
                    cat2("configuration references unregistered catalog: ", alias.as_str()),
                ),
            );
        },
    };
    if catalog.skills.contains(old_name.as_str()) {
        return Ok(None);
    }
    let ghost m = renames(*catalog);
    if !catalog.metadata.renames.contains(old_name.as_str()) {
        return Err(
            Failure::new(
                cat5(
                    "catalog ",
                    alias.as_str(),
                    " has no skill named ",
                    old_name.as_str(),
                    " and declares no rename",
                ),
            ),
        );
    }
    proof {
        assert(catalogs@.contains_key(alias@));
        assert(m.contains_key(old_name@));
    }
    let name = match resolve_rename(catalog, old_name.as_str()) {
        Some(name) => name,
        None => return Ok(None),
    };
    let target = cat3(alias.as_str(), "/", name.as_str());
    match catalog.skills.get(name.as_str()) {
        None => Ok(None),
        Some(skill) => {
            if skill.global != global {
                let from = cat3(alias.as_str(), "/", old_name.as_str());
                return Err(
                    Failure::new(
                        cat5(
                            "declared rename ",
                            from.as_str(),
                            " -> ",
                            target.as_str(),
                            " changes configuration eligibility",
                        ),
                    ),
                );
            }
            if manifest.skills.contains(target.as_str()) {
                return Err(
                    Failure::new(
                        cat4(
                            "declared rename collides with an existing selection: ",
                            key,
                            " -> ",
                            target.as_str(),
                        ),
                    ),
                );
            }
            Ok(Some(target))
        },
    }
}

/// Moves the selections of renamed skills to their current names. The result is the new
/// configuration and a message for each move.
pub fn migrate_declared_renames(manifest: &ProjectConfig, catalogs: &NameMap<CatalogIndex>, global: bool) -> (r: Result<
    (ProjectConfig, Vec<String>),
    Failure,
>)
    requires
        all_resolve(catalogs@),
    ensures
        ({
            let skills = manifest.skills@;
            let n = walk(skills.dom()).len() as int;
            match r {
                Ok((next, messages)) => {
                    &&& move_refusal(catalogs@, skills, global) is None
                    &&& next.version == manifest.version
                    &&& next.agents@ == manifest.agents@
                    &&& next.skills@ == moved(catalogs@, skills, global, n)
                    &&& views(messages@) == move_messages(catalogs@, skills, global, n)
                },
                Err(f) => move_refusal(catalogs@, skills, global) == Some(f@),
            }
        }),
{
    let n: usize = manifest.skills.len();
    let ghost keys = manifest.skills.names();
    let ghost skills = manifest.skills@;
    let ghost cats = catalogs@;
    proof {
        lemma_walk(keys);
    }
    let ghost faults = move_faults(cats, skills, global);
    let mut targets: Vec<Option<String>> = Vec::new();
    let mut i: usize = 0;
    while i < n
        invariant
            i <= n == keys.len(),
            keys == manifest.skills.names(),
            keys == walk(skills.dom()),
            skills == manifest.skills@,
            cats == catalogs@,
            all_resolve(cats),
            faults == move_faults(cats, skills, global),
            targets@.len() == i,
            forall|j: int| 0 <= j < i ==> (#[trigger] faults(j)) is None,
            forall|j: int|
                0 <= j < i ==> move_of(cats, skills, global, keys[j]) == Ok::<Option<Text>, Text>(
                    crate::text::opt_view(#[trigger] targets@[j]),
                ),
        decreases n - i,
    {
        let key = manifest.skills.name_at(i);
        let target = match target_of(manifest, catalogs, global, key.as_str()) {
            Ok(target) => target,
            Err(f) => {
                proof {
                    assert(faults(i as int) == Some(f@));
                    lemma_first_refusal_some(n as int, faults, i as int);
                }
                return Err(f);
            },
        };
        let ghost alike = moves_alike(cats, skills, global, i as int);
        match &target {
            None => {},
            Some(place) => {
                let mut j: usize = 0;
                while j < targets.len()
                    invariant
                        j <= targets@.len() == i,
                        i < n == keys.len(),
                        keys == manifest.skills.names(),
                        keys == walk(skills.dom()),
                        skills == manifest.skills@,
                        cats == catalogs@,
                        key@ == keys[i as int],
                        faults == move_faults(cats, skills, global),
                        alike == moves_alike(cats, skills, global, i as int),
                        move_of(cats, skills, global, key@) == Ok::<Option<Text>, Text>(
                            Some(place@),
                        ),
                        forall|k: int| 0 <= k < j ==> !#[trigger] alike(k),
                        forall|k: int| 0 <= k < i ==> (#[trigger] faults(k)) is None,
                        forall|k: int|
                            0 <= k < i ==> move_of(cats, skills, global, keys[k]) == Ok::<
                                Option<Text>,
                                Text,
                            >(crate::text::opt_view(#[trigger] targets@[k])),
                    decreases targets@.len() - j,
                {
                    assert(move_of(cats, skills, global, keys[j as int]) == Ok::<
                        Option<Text>,
                        Text,
                    >(crate::text::opt_view(targets@[j as int])));
                    let taken = match &targets[j] {
                        Some(other) => same(other.as_str(), place.as_str()),
                        None => false,
                    };
                    if taken {
                        let other = manifest.skills.name_at(j);
                        proof {
                            assert(alike(j as int));
                            lemma_first_where_some(i as int, alike, j as int);
                            assert(faults(i as int) is Some);
                            lemma_first_refusal_some(n as int, faults, i as int);
                        }
                        let mut message = cat5(
                            "declared renames converge on one selection: ",
                            other.as_str(),
                            ", ",
                            key.as_str(),
                            " -> ",
                        );
                        message.append(place.as_str());
                        return Err(Failure::new(message));
                    }
                    assert(!alike(j as int));
                    j = j + 1;
                }
                proof {
                    lemma_first_where_none(i as int, alike);
                }
            },
        }
        assert(faults(i as int) is None);
        targets.push(target);
        i = i + 1;
    }
    proof {
        lemma_first_refusal_none(n as int, faults);
    }
    let mut next = manifest.clone();
    let mut messages: Vec<String> = Vec::new();
    let mut k: usize = 0;
    assert(views(messages@) =~= Seq::<Text>::empty());
    while k < n
        invariant
            k <= n == keys.len(),
            keys == manifest.skills.names(),
            keys == walk(skills.dom()),
            skills == manifest.skills@,
            targets@.len() == n,
            forall|j: int|
                0 <= j < n ==> move_of(cats, skills, global, keys[j]) == Ok::<Option<Text>, Text>(
                    crate::text::opt_view(#[trigger] targets@[j]),
                ),
            next.version == manifest.version,
            next.agents@ == manifest.agents@,
            next.skills@ == moved(cats, skills, global, k as int),
            views(messages@) == move_messages(cats, skills, global, k as int),
        decreases n - k,
    {
        assert(move_of(cats, skills, global, keys[k as int]) == Ok::<Option<Text>, Text>(
            crate::text::opt_view(targets@[k as int]),
        ));
        match &targets[k] {
            None => {},
            Some(place) => {
                let key = manifest.skills.name_at(k);
                let selection: SkillSelection = *manifest.skills.value_at(k);
                let ghost before = messages@;
                let _ = next.skills.remove(key.as_str());
                next.skills.insert(place.clone(), selection);
                let message = cat4(
                    "configuration key ",
                    key.as_str(),
                    " will migrate to ",
                    place.as_str(),
                );
                messages.push(message);
                assert(views(messages@) =~= views(before).push(message@));
            },
        }
        k = k + 1;
    }
    Ok((next, messages))
}

proof fn lemma_target_is_fresh(catalogs: Map<Text, CatalogIndex>, skills: Map<Text, SkillSelection>, global: bool, key: Text)
    ensures
        move_of(catalogs, skills, global, key) matches Ok(Some(t)) ==> !skills.contains_key(t),
{
}

/// What the selections hold once the first `n` keys have moved.
proof fn lemma_moved(catalogs: Map<Text, CatalogIndex>, skills: Map<Text, SkillSelection>, global: bool, n: int)
    requires
        skills.dom().finite(),
        move_refusal(catalogs, skills, global) is None,
        0 <= n <= walk(skills.dom()).len(),
    ensures
        moved(catalogs, skills, global, n).dom().finite(),
        forall|j: int|
            0 <= j < walk(skills.dom()).len() ==> {
                let key = #[trigger] walk(skills.dom())[j];
                let m = moved(catalogs, skills, global, n);
                match move_of(catalogs, skills, global, key) {
                    Ok(Some(t)) => if j < n {
                        m.contains_key(t) && m[t] == skills[key] && !m.contains_key(key)
                    } else {
                        m.contains_key(key) && m[key] == skills[key]
                    },
                    _ => m.contains_key(key) && m[key] == skills[key],
                }
            },
        forall|k: Text| #[trigger]
            moved(catalogs, skills, global, n).contains_key(k) ==> skills.contains_key(k) || exists|
                j: int,
            |
                0 <= j < n && move_of(catalogs, skills, global, #[trigger] walk(skills.dom())[j])
                    == Ok::<Option<Text>, Text>(Some(k)),
    decreases n,
{
    let keys = walk(skills.dom());
    lemma_walk_finite(skills.dom());
    if n > 0 {
        lemma_moved(catalogs, skills, global, n - 1);
        let a = moved(catalogs, skills, global, n - 1);
        let b = moved(catalogs, skills, global, n);
        let key = keys[n - 1];
        let faults = move_faults(catalogs, skills, global);
        lemma_first_refusal(keys.len() as int, faults);
        assert forall|j: int| 0 <= j < keys.len() implies {
            let k = #[trigger] keys[j];
            match move_of(catalogs, skills, global, k) {
                Ok(Some(t)) => if j < n {
                    b.contains_key(t) && b[t] == skills[k] && !b.contains_key(k)
                } else {
                    b.contains_key(k) && b[k] == skills[k]
                },
                _ => b.contains_key(k) && b[k] == skills[k],
            }
        } by {
            let k = keys[j];
            assert(keys.to_set().contains(k));
            lemma_target_is_fresh(catalogs, skills, global, k);
            lemma_target_is_fresh(catalogs, skills, global, key);
            if j != n - 1 {
                assert(k != key);
                let (lo, hi) = if j < n - 1 {
                    (j, n - 1)
                } else {
                    (n - 1, j)
                };
                assert(faults(hi) is None);
                lemma_first_where(hi, moves_alike(catalogs, skills, global, hi));
                if move_of(catalogs, skills, global, keys[hi]) matches Ok(Some(_)) {
                    assert(!moves_alike(catalogs, skills, global, hi)(lo));
                }
            }
        }
        assert forall|k: Text| #[trigger] b.contains_key(k) implies skills.contains_key(k)
            || exists|j: int|
            0 <= j < n && move_of(catalogs, skills, global, #[trigger] keys[j]) == Ok::<
                Option<Text>,
                Text,
            >(Some(k)) by {
            if a.contains_key(k) {
                if !skills.contains_key(k) {
                    let j = choose|j: int|
                        0 <= j < n - 1 && move_of(catalogs, skills, global, #[trigger] keys[j])
                            == Ok::<Option<Text>, Text>(Some(k));
                    assert(move_of(catalogs, skills, global, keys[j]) == Ok::<Option<Text>, Text>(
                        Some(k),
                    ));
                }
            } else {
                assert(move_of(catalogs, skills, global, keys[n - 1]) == Ok::<Option<Text>, Text>(
                    Some(k),
                ));
            }
        }
    } else {
        assert forall|j: int| 0 <= j < keys.len() implies skills.contains_key(#[trigger] keys[j]) by {
            assert(keys.to_set().contains(keys[j]));
        }
    }
}

/// A move takes the selection along: nothing else of it changes, and what does not move
/// stays.
pub proof fn law_renames_preserve_selections(
    catalogs: Map<Text, CatalogIndex>,
    skills: Map<Text, SkillSelection>,
    global: bool,
    key: Text,
)
    requires
        skills.dom().finite(),
        move_refusal(catalogs, skills, global) is None,
        skills.contains_key(key),
    ensures
        ({
            let next = moved(catalogs, skills, global, walk(skills.dom()).len() as int);
            let place = match move_of(catalogs, skills, global, key) {
                Ok(Some(t)) => t,
                _ => key,
            };
            &&& next.contains_key(place)
            &&& next[place] == skills[key]
            &&& place != key ==> !next.contains_key(key)
        }),
{
    let keys = walk(skills.dom());
    lemma_walk_finite(skills.dom());
    lemma_moved(catalogs, skills, global, keys.len() as int);
    assert(keys.to_set().contains(key));
    let j = keys.index_of(key);
    assert(keys[j] == key);
}

proof fn lemma_key_cut(alias: Text, name: Text)
    requires
        !alias.contains('/'),
    ensures
        cut(key_of(alias, name), '/') == Some((alias, name)),
{
    reveal_strlit("/");
    assert("/"@ =~= seq!['/']);
    let key = key_of(alias, name);
    let i = alias.len() as int;
    assert forall|j: int| 0 <= j < i implies key[j] != '/' by {
        assert(key[j] == alias[j]);
        assert(alias.contains(alias[j]));
    }
    assert(key[i] == '/');
    lemma_find_char(key, '/', i);
    assert(key.take(i) =~= alias);
    assert(key.skip(i + 1) =~= name);
}

proof fn lemma_cut_alias(key: Text)
    requires
        cut(key, '/') is Some,
    ensures
        !cut(key, '/')->Some_0.0.contains('/'),
{
    lemma_find_char_bound(key, '/');
    let alias = cut(key, '/')->Some_0.0;
    if alias.contains('/') {
        let j = alias.index_of('/');
        assert(key[j] == alias[j]);
    }
}

proof fn lemma_nothing_moves(catalogs: Map<Text, CatalogIndex>, skills: Map<Text, SkillSelection>, global: bool, n: int)
    requires
        forall|i: int|
            0 <= i < n ==> move_of(catalogs, skills, global, #[trigger] walk(skills.dom())[i])
                == Ok::<Option<Text>, Text>(None),
    ensures
        moved(catalogs, skills, global, n) == skills,
        move_messages(catalogs, skills, global, n) == Seq::<Text>::empty(),
    decreases n,
{
    if n > 0 {
        lemma_nothing_moves(catalogs, skills, global, n - 1);
        assert(move_of(catalogs, skills, global, walk(skills.dom())[n - 1]) == Ok::<
            Option<Text>,
            Text,
        >(None));
    }
}

/// Once selections have moved, nothing is left to move.
pub proof fn law_rename_migration_is_idempotent(
    catalogs: Map<Text, CatalogIndex>,
    skills: Map<Text, SkillSelection>,
    global: bool,
)
    requires
        all_resolve(catalogs),
        skills.dom().finite(),
        move_refusal(catalogs, skills, global) is None,
    ensures
        ({
            let next = moved(catalogs, skills, global, walk(skills.dom()).len() as int);
            let n = walk(next.dom()).len() as int;
            &&& move_refusal(catalogs, next, global) is None
            &&& moved(catalogs, next, global, n) == next
            &&& move_messages(catalogs, next, global, n) == Seq::<Text>::empty()
        }),
{
    let keys = walk(skills.dom());
    lemma_walk_finite(skills.dom());
    lemma_moved(catalogs, skills, global, keys.len() as int);
    let next = moved(catalogs, skills, global, keys.len() as int);
    let n = walk(next.dom()).len() as int;
    lemma_walk_finite(next.dom());
    let faults = move_faults(catalogs, skills, global);
    lemma_first_refusal(keys.len() as int, faults);
    assert forall|i: int| 0 <= i < n implies move_of(
        catalogs,
        next,
        global,
        #[trigger] walk(next.dom())[i],
    ) == Ok::<Option<Text>, Text>(None) by {
        let k = walk(next.dom())[i];
        assert(walk(next.dom()).to_set().contains(k));
        assert(next.contains_key(k));
        if skills.contains_key(k) {
            assert(keys.to_set().contains(k));
            let j = keys.index_of(k);
            assert(keys[j] == k);
            assert(faults(j) is None);
            lemma_target_is_fresh(catalogs, skills, global, k);
            assert(move_of(catalogs, skills, global, k) == Ok::<Option<Text>, Text>(None));
        } else {
            let j = choose|j: int|
                0 <= j < keys.len() && move_of(catalogs, skills, global, #[trigger] keys[j])
                    == Ok::<Option<Text>, Text>(Some(k));
            let (alias, old_name) = cut(keys[j], '/')->Some_0;
            let name = current_name(renames(catalogs[alias]), old_name);
            lemma_cut_alias(keys[j]);
            lemma_key_cut(alias, name);
            assert(catalogs.contains_key(alias));
            assert(renames(catalogs[alias]).contains_key(old_name));
            assert(catalogs[alias].skills@.contains_key(name));
        }
    }
    lemma_nothing_moves(catalogs, next, global, n);
    let again = move_faults(catalogs, next, global);
    assert forall|i: int| 0 <= i < n implies (#[trigger] again(i)) is None by {
        assert(move_of(catalogs, next, global, walk(next.dom())[i]) == Ok::<Option<Text>, Text>(
            None,
        ));
    }
    lemma_first_refusal_none(n, again);
}

// Interrupted transactions.

pub open spec fn list_fault(kind: Text, names: Seq<Text>) -> Option<Text> {
    if exists|i: int| 0 <= i < names.len() && !is_name(#[trigger] names[i]) {
        Some("transaction "@ + kind + " list contains an invalid skill name"@)
    } else if !ascending(names) {
        Some("transaction "@ + kind + " list must be sorted and unique"@)
    } else {
        None
    }
}

/// Whether each text comes before the next.
fn is_ascending(names: &Vec<String>) -> (r: bool)
    ensures
        r == ascending(views(names@)),
{
    let ghost all = views(names@);
    let mut i: usize = 1;
    while i < names.len()
        invariant
            1 <= i,
            i <= names.len() || names.len() <= 1,
            all == views(names@),
            forall|a: int, b: int|
                0 <= a < b < i && b < all.len() ==> crate::text::text_lt(
                    #[trigger] all[a],
                    #[trigger] all[b],
                ),
        decreases names.len() - i,
    {
        assert(all[i - 1] == names@[i - 1]@);
        assert(all[i as int] == names@[i as int]@);
        if !crate::text::before(names[i - 1].as_str(), names[i].as_str()) {
            assert(!crate::text::text_lt(all[i - 1], all[i as int]));
            return false;
        }
        proof {
            assert forall|a: int, b: int| 0 <= a < b < i + 1 && b < all.len() implies crate::text::text_lt(
                #[trigger] all[a],
                #[trigger] all[b],
            ) by {
                if b == i && a < i - 1 {
                    assert(crate::text::text_lt(all[a], all[i - 1]));
                    crate::text::lemma_text_lt_transitive(all[a], all[i - 1], all[i as int]);
                }
            }
        }
        i = i + 1;
    }
    true
}

pub fn validate_name_list(kind: &str, names: &Vec<String>) -> (r: Result<(), Failure>)
    ensures
        refusal(r) == list_fault(kind@, views(names@)),
{
    let ghost all = views(names@);
    let mut i: usize = 0;
    while i < names.len()
        invariant
            i <= names.len(),
            all == views(names@),
            forall|j: int| 0 <= j < i ==> is_name(#[trigger] all[j]),
        decreases names.len() - i,
    {
        assert(all[i as int] == names@[i as int]@);
        if !valid_name(names[i].as_str()) {
            assert(!is_name(all[i as int]));
            return Err(
                Failure::new(
                    cat3("transaction ", kind, " list contains an invalid skill name"),
                ),
            );
        }
        i = i + 1;
    }
    if !is_ascending(names) {
        return Err(
            Failure::new(cat3("transaction ", kind, " list must be sorted and unique")),
        );
    }
    Ok(())
}

/// The recorded names that nothing resolved has.
pub open spec fn superseded(state: Map<Text, InstalledSkillView>, resolved: Seq<ResolvedView>) -> Set<Text> {
    Set::new(
        |n: Text|
            !is_desired(resolved, n) && exists|k: Text|
                state.contains_key(k) && (#[trigger] state[k]).installed_name == n,
    )
}

/// Whether the state records exactly what is resolved.
pub open spec fn is_current(state: Map<Text, InstalledSkillView>, resolved: Seq<ResolvedView>) -> bool {
    state.dom().len() == resolved.len() && forall|i: int|
        0 <= i < resolved.len() ==> state.contains_key((#[trigger] resolved[i]).key) && !differs(
            state[resolved[i].key],
            resolved[i],
        )
}

/// The names that an interrupted transaction may replace and remove, or why it is refused.
pub open spec fn authorized(
    journal: TransactionJournal,
    global: bool,
    fingerprint: Text,
    resolved: Seq<ResolvedView>,
    state: Map<Text, InstalledSkillView>,
) -> Result<Set<Text>, Text> {
    let desired = views(journal.desired@);
    let removed = views(journal.remove@);
    if journal.v != 1 || journal.scope@ != scope_code(global) {
        Err("transaction journal has the wrong version or scope"@)
    } else if journal.config@ != fingerprint {
        Err("transaction configuration fingerprint does not match current configuration"@)
    } else if list_fault("desired"@, desired) is Some {
        Err(list_fault("desired"@, desired)->Some_0)
    } else if list_fault("remove"@, removed) is Some {
        Err(list_fault("remove"@, removed)->Some_0)
    } else if exists|i: int| 0 <= i < desired.len() && !is_desired(resolved, #[trigger] desired[i]) {
        Err("transaction desired names are not a safe subset of current resolution"@)
    } else if exists|i: int| 0 <= i < removed.len() && is_desired(resolved, #[trigger] removed[i]) {
        Err("transaction cannot both desire and remove the same name"@)
    } else if journal.phase == TransactionPhase::C && is_current(state, resolved) {
        Ok(resolved_names(resolved))
    } else if removed != walk(superseded(state, resolved)) {
        Err("transaction removal names do not match prior ownership state"@)
    } else {
        Ok(resolved_names(resolved).union(superseded(state, resolved)))
    }
}

/// An interrupted transaction is never allowed to touch a name that is neither resolved nor
/// recorded.
pub proof fn law_transaction_claims_only_owned_names(
    journal: TransactionJournal,
    global: bool,
    fingerprint: Text,
    resolved: Seq<ResolvedView>,
    state: Map<Text, InstalledSkillView>,
    name: Text,
)
    requires
        authorized(journal, global, fingerprint, resolved, state) matches Ok(names) && names.contains(name),
    ensures
        is_desired(resolved, name) || owned_names(state, Set::empty()).contains(name),
{
    if !is_desired(resolved, name) {
        assert(superseded(state, resolved).contains(name));
        let k = choose|k: Text| state.contains_key(k) && (#[trigger] state[k]).installed_name == name;
        assert(state[k].installed_name == name);
    }
}

fn superseded_set(state: &InstalledState, desired: &NameSet, resolved: Ghost<Seq<ResolvedView>>) -> (r: NameSet)
    requires
        desired@ == resolved_names(resolved@),
    ensures
        r@ == superseded(state@.skills, resolved@),
        r.ordered(),
{
    let ghost target = superseded(state@.skills, resolved@);
    let ghost all = state@.skills;
    let mut out = NameSet::new();
    let n: usize = state.skills.len();
    let ghost keys = state.skills.names();
    let mut i: usize = 0;
    while i < n
        invariant
            i <= n == keys.len(),
            keys == state.skills.names(),
            state.skills.ordered(),
            all == state@.skills,
            desired@ == resolved_names(resolved@),
            target == superseded(all, resolved@),
            forall|x: Text| #[trigger] out@.contains(x) ==> target.contains(x),
            forall|j: int|
                0 <= j < i && !is_desired(resolved@, all[keys[j]].installed_name) ==> out@.contains(
                    all[#[trigger] keys[j]].installed_name,
                ),
        decreases n - i,
    {
        let skill = state.skills.value_at(i);
        let _ = state.skills.name_at(i);
        assert(all.contains_key(keys[i as int]));
        assert(all[keys[i as int]] == skill@);
        if !desired.contains(skill.installed_name.as_str()) {
            assert(target.contains(all[keys[i as int]].installed_name));
            let _ = out.insert(skill.installed_name.clone());
        }
        i = i + 1;
    }
    proof {
        assert forall|x: Text| target.contains(x) implies out@.contains(x) by {
            let k = choose|k: Text|
                all.contains_key(k) && (#[trigger] all[k]).installed_name == x;
            assert(keys.to_set().contains(k));
            let j = keys.index_of(k);
            assert(out@.contains(all[keys[j]].installed_name));
        }
        assert(out@ =~= target);
    }
    let _ = out.len();
    out
}

fn state_is_current(state: &InstalledState, resolved: &Vec<ResolvedSkill<'_>>) -> (r: bool)
    ensures
        r == is_current(state@.skills, resolved_views(resolved@)),
{
    let ghost list = resolved_views(resolved@);
    let n: usize = state.skills.len();
    proof {
        state.skills.names().unique_seq_to_set();
        assert(state@.skills.dom() =~= state.skills.names().to_set());
    }
    if n != resolved.len() {
        return false;
    }
    let mut i: usize = 0;
    while i < resolved.len()
        invariant
            i <= resolved.len(),
            list == resolved_views(resolved@),
            state@.skills.dom().len() == list.len(),
            forall|j: int|
                0 <= j < i ==> state@.skills.contains_key((#[trigger] list[j]).key) && !differs(
                    state@.skills[list[j].key],
                    list[j],
                ),
        decreases resolved.len() - i,
    {
        assert(list[i as int] == resolved@[i as int]@);
        match state.skills.get(resolved[i].key.as_str()) {
            None => {
                assert(!state@.skills.contains_key(list[i as int].key));
                return false;
            },
            Some(installed) => {
                if is_stale(installed, &resolved[i]) {
                    assert(differs(state@.skills[list[i as int].key], list[i as int]));
                    return false;
                }
            },
        }
        i = i + 1;
    }
    true
}

fn same_names(names: &Vec<String>, set: &NameSet) -> (r: bool)
    ensures
        r == (views(names@) == set.names()),
{
    let n: usize = set.len();
    if n != names.len() {
        return false;
    }
    let mut i: usize = 0;
    while i < n
        invariant
            i <= n == names@.len(),
            n == set.names().len(),
            forall|j: int| 0 <= j < i ==> views(names@)[j] == set.names()[j],
        decreases n - i,
    {
        if !same(names[i].as_str(), set.name_at(i).as_str()) {
            assert(views(names@)[i as int] != set.names()[i as int]);
            return false;
        }
        i = i + 1;
    }
    assert(views(names@) =~= set.names());
    true
}

/// Checks an interrupted transaction against the resolution and the recorded state.
pub fn validate_transaction(
    journal: &TransactionJournal,
    global: bool,
    fingerprint: &str,
    resolved: &Vec<ResolvedSkill<'_>>,
    state: &InstalledState,
) -> (r: Result<NameSet, Failure>)
    ensures
        ({
            let expected = authorized(
                *journal,
                global,
                fingerprint@,
                resolved_views(resolved@),
                state@.skills,
            );
            match r {
                Ok(names) => expected == Ok::<Set<Text>, Text>(names@),
                Err(f) => expected == Err::<Set<Text>, Text>(f@),
            }
        }),
{
    let code = if global {
        "g"
    } else {
        "p"
    };
    if journal.v != 1 || !same(journal.scope.as_str(), code) {
        return Err(
            Failure::new(String::from_str("transaction journal has the wrong version or scope")),
        );
    }
    if !same(journal.config.as_str(), fingerprint) {
        return Err(
            Failure::new(
                String::from_str(
                    "transaction configuration fingerprint does not match current configuration",
                ),
            ),
        );
    }
    match validate_name_list("desired", &journal.desired) {
        Ok(_) => {},
        Err(f) => return Err(f),
    }
    match validate_name_list("remove", &journal.remove) {
        Ok(_) => {},
        Err(f) => return Err(f),
    }
    let ghost list = resolved_views(resolved@);
    let ghost wants = views(journal.desired@);
    let ghost drops = views(journal.remove@);
    let desired = names_of(resolved);
    let mut i: usize = 0;
    while i < journal.desired.len()
        invariant
            i <= journal.desired@.len(),
            desired@ == resolved_names(list),
            wants == views(journal.desired@),
            forall|j: int| 0 <= j < i ==> is_desired(list, #[trigger] wants[j]),
            journal.v == 1 && journal.scope@ == scope_code(global) && journal.config@
                == fingerprint@,
            list_fault("desired"@, wants) is None,
            list_fault("remove"@, views(journal.remove@)) is None,
            list == resolved_views(resolved@),
        decreases journal.desired@.len() - i,
    {
        assert(wants[i as int] == journal.desired@[i as int]@);
        if !desired.contains(journal.desired[i].as_str()) {
            assert(!is_desired(list, wants[i as int]));
            return Err(
                Failure::new(
                    String::from_str(
                        "transaction desired names are not a safe subset of current resolution",
                    ),
                ),
            );
        }
        i = i + 1;
    }
    let mut k: usize = 0;
    while k < journal.remove.len()
        invariant
            k <= journal.remove@.len(),
            desired@ == resolved_names(list),
            drops == views(journal.remove@),
            wants == views(journal.desired@),
            forall|j: int| 0 <= j < wants.len() ==> is_desired(list, #[trigger] wants[j]),
            forall|j: int| 0 <= j < k ==> !is_desired(list, #[trigger] drops[j]),
            journal.v == 1 && journal.scope@ == scope_code(global) && journal.config@
                == fingerprint@,
            list_fault("desired"@, wants) is None,
            list_fault("remove"@, drops) is None,
            list == resolved_views(resolved@),
        decreases journal.remove@.len() - k,
    {
        assert(drops[k as int] == journal.remove@[k as int]@);
        if desired.contains(journal.remove[k].as_str()) {
            assert(is_desired(list, drops[k as int]));
            return Err(
                Failure::new(
                    String::from_str("transaction cannot both desire and remove the same name"),
                ),
            );
        }
        k = k + 1;
    }
    if journal.phase == TransactionPhase::C && state_is_current(state, resolved) {
        return Ok(desired);
    }
    let expected = superseded_set(state, &desired, Ghost(list));
    proof {
        lemma_walk(expected.names());
    }
    if !same_names(&journal.remove, &expected) {
        return Err(
            Failure::new(
                String::from_str("transaction removal names do not match prior ownership state"),
            ),
        );
    }
    let mut out = desired.clone();
    let n: usize = expected.len();
    let ghost names = expected.names();
    let mut m: usize = 0;
    assert(desired@.union(names.take(0).to_set()) =~= desired@);
    while m < n
        invariant
            m <= n == names.len(),
            names == expected.names(),
            out@ == desired@.union(names.take(m as int).to_set()),
        decreases n - m,
    {
        proof {
            lemma_take_set(names, m as int);
        }
        let _ = out.insert(expected.name_at(m).clone());
        m = m + 1;
        assert(out@ =~= desired@.union(names.take(m as int).to_set()));
    }
    proof {
        lemma_take_all(names);
    }
    Ok(out)
}

pub open spec fn phase_text(phase: TransactionPhase) -> Text {
    match phase {
        TransactionPhase::P => "prepared"@,
        TransactionPhase::I => "installed"@,
        TransactionPhase::V => "verified"@,
        TransactionPhase::C => "cleaned"@,
    }
}

pub fn phase_name(phase: TransactionPhase) -> (r: &'static str)
    ensures
        r@ == phase_text(phase),
{
    match phase {
        TransactionPhase::P => "prepared",
        TransactionPhase::I => "installed",
        TransactionPhase::V => "verified",
        TransactionPhase::C => "cleaned",
    }
}

/// Whether a repair writes the migrated configuration: where it differs and no catalog is
/// unavailable, since the configuration that was read then left nothing out.
pub fn saves_renames(before: &ProjectConfig, migrated: &ProjectConfig, unavailable: &NameSet) -> (r: bool)
    ensures
        r == (before.skills@ != migrated.skills@ && unavailable@ == Set::<Text>::empty()),
{
    !same_selections(&before.skills, &migrated.skills) && unavailable.is_empty()
}

} // verus!
