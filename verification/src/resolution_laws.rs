//! When a configuration resolves: what is found, and what is refused.

use vstd::prelude::*;
use crate::failure::{lemma_first_refusal_none, lemma_first_where_none};
use crate::model::SkillSelection;
use crate::name_map::{lemma_walk_finite, walk};
use crate::resolve::{
    key_of, key_parts, lookup, reach, reach_all_of, reach_roots, resolution, resolve_faults, same_name,
    skill_at, universe, Catalogs, Closure,
};
use crate::text::{find_char, lemma_find_char, lemma_find_char_bound, Text};

verus! {

/// A key is split at its only `/`, where there is one and something stands on both sides of it.
pub proof fn law_keys_are_split(key: Text, alias: Text, name: Text)
    ensures
        key_parts(key) == Some((alias, name)) <==> key == alias + seq!['/'] + name && alias.len() > 0
            && name.len() > 0 && !alias.contains('/') && !name.contains('/'),
        key_parts(key) is None ==> !(key == alias + seq!['/'] + name && alias.len() > 0 && name.len()
            > 0 && !alias.contains('/') && !name.contains('/')),
        key_of(alias, name) == alias + seq!['/'] + name,
{
    reveal_strlit("/");
    assert("/"@ =~= seq!['/']);
    lemma_find_char_bound(key, '/');
    if key_parts(key) == Some((alias, name)) {
        let i = find_char(key, '/');
        assert(key =~= alias + seq!['/'] + name);
        if alias.contains('/') {
            let j = alias.index_of('/');
            assert(key[j] == '/');
        }
    }
    if key == alias + seq!['/'] + name && !alias.contains('/') {
        let n = alias.len() as int;
        assert forall|j: int| 0 <= j < n implies key[j] != '/' by {
            assert(key[j] == alias[j]);
        }
        assert(key[n] == '/');
        lemma_find_char(key, '/', n);
        assert(key.take(n) =~= alias);
        assert(key.skip(n + 1) =~= name);
    }
}

/// A skill is found exactly under a key of two parts that name a registered catalog and a skill of
/// it.
pub proof fn law_skills_are_found(cats: Catalogs, key: Text, alias: Text, name: Text)
    ensures
        lookup(cats, key) == Ok::<(Text, Text), Text>((alias, name)) <==> key_parts(key) == Some(
            (alias, name),
        ) && cats.contains_key(alias) && cats[alias].contains_key(name),
        lookup(cats, key) is Err && key_parts(key) == Some((alias, name)) ==> !cats.contains_key(
            alias,
        ) || !cats[alias].contains_key(name),
{
}

/// The keys all name skills of the scope; whatever these require of the scope is among them, and a
/// global installation requires nothing that is meant for projects.
pub open spec fn is_self_contained(cats: Catalogs, global: bool, keys: Set<Text>) -> bool {
    forall|k: Text| #[trigger]
        keys.contains(k) ==> {
            let (alias, name) = lookup(cats, k)->Ok_0;
            &&& lookup(cats, k) is Ok
            &&& cats[alias][name].global == global
            &&& forall|i: int|
                0 <= i < cats[alias][name].requires.len() ==> {
                    let d = #[trigger] cats[alias][name].requires[i];
                    &&& global ==> cats[alias][d].global
                    &&& cats[alias][d].global == global ==> keys.contains(key_of(alias, d))
                }
        }
}

proof fn lemma_reached(cats: Catalogs, global: bool, keys: Set<Text>, key: Text, at: Closure, depth: nat)
    requires
        is_self_contained(cats, global, keys),
        keys.contains(key),
        at.required.subset_of(keys),
    ensures
        reach(cats, global, key, at, depth) matches Ok(now) && now.required.subset_of(keys),
    decreases depth, 0nat,
{
    if !at.visited.contains(key) {
        let (alias, name) = lookup(cats, key)->Ok_0;
        let next = Closure { visited: at.visited.insert(key), ..at };
        if depth > 0 {
            let deps = cats[alias][name].requires;
            lemma_all_reached(
                cats,
                global,
                keys,
                key,
                deps.len() as int,
                next,
                (depth - 1) as nat,
            );
            assert(deps.take(deps.len() as int) =~= deps);
        }
    }
}

proof fn lemma_all_reached(
    cats: Catalogs,
    global: bool,
    keys: Set<Text>,
    key: Text,
    n: int,
    at: Closure,
    depth: nat,
)
    requires
        is_self_contained(cats, global, keys),
        keys.contains(key),
        at.required.subset_of(keys),
        ({
            let (alias, name) = lookup(cats, key)->Ok_0;
            0 <= n <= cats[alias][name].requires.len()
        }),
    ensures
        ({
            let (alias, name) = lookup(cats, key)->Ok_0;
            reach_all_of(
                cats,
                global,
                key,
                alias,
                cats[alias][name].requires.take(n),
                at,
                depth,
            ) matches Ok(now) && now.required.subset_of(keys)
        }),
    decreases depth, n,
{
    let (alias, name) = lookup(cats, key)->Ok_0;
    let deps = cats[alias][name].requires;
    let part = deps.take(n);
    if n == 0 {
        assert(part =~= Seq::<Text>::empty());
    } else {
        assert(part.drop_last() =~= deps.take(n - 1));
        assert(part.last() == deps[n - 1]);
        lemma_all_reached(cats, global, keys, key, n - 1, at, depth);
        let mid = reach_all_of(cats, global, key, alias, deps.take(n - 1), at, depth)->Ok_0;
        let d = deps[n - 1];
        if cats[alias][d].global == global {
            let open = Closure { required: mid.required.insert(key_of(alias, d)), ..mid };
            lemma_reached(cats, global, keys, key_of(alias, d), open, depth);
        }
    }
}

proof fn lemma_roots_reached(cats: Catalogs, global: bool, keys: Set<Text>, roots: Seq<Text>, depth: nat)
    requires
        is_self_contained(cats, global, keys),
        forall|i: int| 0 <= i < roots.len() ==> keys.contains(#[trigger] roots[i]),
    ensures
        reach_roots(cats, global, roots, depth) matches Ok(c) && c.required.subset_of(keys),
    decreases roots.len(),
{
    if roots.len() > 0 {
        assert forall|i: int| 0 <= i < roots.drop_last().len() implies keys.contains(
            #[trigger] roots.drop_last()[i],
        ) by {
            assert(roots[i] == roots.drop_last()[i]);
        }
        lemma_roots_reached(cats, global, keys, roots.drop_last(), depth);
        let c = reach_roots(cats, global, roots.drop_last(), depth)->Ok_0;
        assert(keys.contains(roots[roots.len() - 1]));
        lemma_reached(cats, global, keys, roots.last(), c, depth);
    }
}

/// A configuration resolves wherever the selected keys belong to a set of keys that is self-contained
/// and whose skills have different installed names, and no global selection asks for a Git ignore
/// entry.
pub proof fn law_sound_configurations_resolve(
    cats: Catalogs,
    skills: Map<Text, SkillSelection>,
    global: bool,
    keys: Set<Text>,
)
    requires
        skills.dom().finite(),
        keys.finite(),
        skills.dom().subset_of(keys),
        is_self_contained(cats, global, keys),
        forall|a: Text, b: Text| #[trigger]
            keys.contains(a) && #[trigger] keys.contains(b) && a != b ==> skill_at(
                cats,
                a,
            ).installed_name != skill_at(cats, b).installed_name,
        global ==> forall|k: Text| #[trigger]
            skills.contains_key(k) ==> !(skills[k] matches SkillSelection::Detailed {
                gitignore,
                ..
            } && gitignore),
    ensures
        resolution(cats, skills, global) is Ok,
{
    let roots = walk(skills.dom());
    lemma_walk_finite(skills.dom());
    assert forall|i: int| 0 <= i < roots.len() implies keys.contains(#[trigger] roots[i]) by {
        assert(roots.to_set().contains(roots[i]));
    }
    let depth = universe(cats).len();
    lemma_roots_reached(cats, global, keys, roots, depth);
    let c = reach_roots(cats, global, roots, depth)->Ok_0;
    let all = skills.dom().union(c.required);
    assert(all.subset_of(keys));
    vstd::set_lib::lemma_len_subset(all, keys);
    lemma_walk_finite(all);
    let list = walk(all);
    let faults = resolve_faults(cats, skills, global, list);
    assert forall|i: int| 0 <= i < list.len() implies keys.contains(#[trigger] list[i]) by {
        assert(list.to_set().contains(list[i]));
    }
    assert forall|i: int| 0 <= i < list.len() implies (#[trigger] faults(i)) is None by {
        let k = list[i];
        assert(keys.contains(k));
        let (alias, name) = lookup(cats, k)->Ok_0;
        assert(skill_at(cats, k) == cats[alias][name]);
        let p = same_name(cats, list, i);
        assert forall|j: int| 0 <= j < i implies !#[trigger] p(j) by {
            assert(list[j] != list[i]);
            assert(keys.contains(list[j]));
        }
        lemma_first_where_none(i, p);
    }
    lemma_first_refusal_none(list.len() as int, faults);
}

} // verus!
