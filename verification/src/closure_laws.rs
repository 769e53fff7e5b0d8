//! What the dependency closure of a configuration is: everything reachable from it.

use vstd::prelude::*;
use vstd::set_lib::lemma_len_subset;
use crate::catalog::{requirements, sound, CatalogIndex};
use crate::doctor::all_resolve;
use crate::failure::{lemma_first_refusal, lemma_first_where};
use crate::graph::{acyclic, closed};
use crate::model::{selected_ignore, selected_mode, EffectiveMode, SelectionMode, SkillSelection};
use crate::name_map::{lemma_walk_finite, walk};
use crate::plan::all_acyclic;
use crate::resolve::{
    all_closed, catalogs_of, digest_of, key_of, key_parts, lemma_key_parts, lookup, reach, reach_all_of,
    reach_roots, resolution, resolve_faults, resolved_at, same_name, skill_at, universe, Catalogs,
    Closure, ResolvedView,
};
use crate::text::{find_char, lemma_find_char, lemma_find_char_bound, Text};

verus! {

/// The skill of `k` requires that of `d`, and both belong to the same installation.
pub open spec fn requires_key(cats: Catalogs, global: bool, k: Text, d: Text) -> bool {
    match lookup(cats, k) {
        Ok((alias, name)) => exists|i: int|
            0 <= i < cats[alias][name].requires.len() && d == key_of(
                alias,
                #[trigger] cats[alias][name].requires[i],
            ) && cats[alias][cats[alias][name].requires[i]].global == global,
        Err(_) => false,
    }
}

/// Each key requires the one after it.
pub open spec fn is_trail(cats: Catalogs, global: bool, p: Seq<Text>) -> bool {
    forall|i: int| 0 <= i < p.len() - 1 ==> requires_key(cats, global, p[i], #[trigger] p[i + 1])
}

pub open spec fn trail(cats: Catalogs, global: bool, from: Text, to: Text, p: Seq<Text>) -> bool {
    p.len() > 0 && p[0] == from && p.last() == to && is_trail(cats, global, p)
}

pub open spec fn leads(cats: Catalogs, global: bool, from: Text, to: Text) -> bool {
    exists|p: Seq<Text>| #[trigger] trail(cats, global, from, to, p)
}

/// Some root leads to `k`.
pub open spec fn reachable(cats: Catalogs, global: bool, roots: Set<Text>, k: Text) -> bool {
    exists|r: Text| roots.contains(r) && #[trigger] leads(cats, global, r, k)
}

/// Everything that `k` requires was visited and is known to be required.
pub open spec fn saturated(cats: Catalogs, global: bool, c: Closure, k: Text) -> bool {
    forall|d: Text| #[trigger]
        requires_key(cats, global, k, d) ==> c.visited.contains(d) && c.required.contains(d)
}

/// What a visit that began at `key` added.
pub open spec fn grown(cats: Catalogs, global: bool, key: Text, at: Closure, now: Closure) -> bool {
    &&& at.visited.subset_of(now.visited)
    &&& at.required.subset_of(now.required)
    &&& forall|k: Text| #[trigger]
        now.visited.contains(k) && !at.visited.contains(k) ==> leads(cats, global, key, k)
}

pub open spec fn filled(cats: Catalogs, global: bool, at: Closure, now: Closure) -> bool {
    forall|k: Text| #[trigger]
        now.visited.contains(k) && !at.visited.contains(k) ==> saturated(cats, global, now, k)
}

/// Whatever became required is required by something that was visited.
pub open spec fn caused(cats: Catalogs, global: bool, at: Closure, now: Closure) -> bool {
    forall|d: Text| #[trigger]
        now.required.contains(d) && !at.required.contains(d) ==> exists|k: Text|
            now.visited.contains(k) && #[trigger] requires_key(cats, global, k, d)
}

proof fn lemma_leads_self(cats: Catalogs, global: bool, k: Text)
    ensures
        leads(cats, global, k, k),
{
    assert(trail(cats, global, k, k, seq![k]));
}

proof fn lemma_leads_step(cats: Catalogs, global: bool, a: Text, b: Text, c: Text)
    requires
        requires_key(cats, global, a, b),
        leads(cats, global, b, c),
    ensures
        leads(cats, global, a, c),
{
    let p = choose|p: Seq<Text>| #[trigger] trail(cats, global, b, c, p);
    let q = seq![a] + p;
    assert forall|i: int| 0 <= i < q.len() - 1 implies requires_key(
        cats,
        global,
        q[i],
        #[trigger] q[i + 1],
    ) by {
        if i > 0 {
            assert(q[i] == p[i - 1]);
            assert(q[i + 1] == p[(i - 1) + 1]);
        }
    }
    assert(q.last() == c);
    assert(trail(cats, global, a, c, q));
}

proof fn lemma_saturated_grows(cats: Catalogs, global: bool, c: Closure, now: Closure, k: Text)
    requires
        saturated(cats, global, c, k),
        c.visited.subset_of(now.visited),
        c.required.subset_of(now.required),
    ensures
        saturated(cats, global, now, k),
{
}

proof fn lemma_less_left(u: Set<Text>, a: Set<Text>, b: Set<Text>)
    requires
        u.finite(),
        a.subset_of(b),
    ensures
        u.difference(b).len() <= u.difference(a).len(),
{
    lemma_len_subset(u.difference(b), u.difference(a));
}

proof fn lemma_reach(cats: Catalogs, global: bool, key: Text, at: Closure, depth: nat)
    requires
        all_closed(cats),
        universe(cats).finite(),
        universe(cats).difference(at.visited).len() <= depth,
    ensures
        reach(cats, global, key, at, depth) matches Ok(now) ==> grown(cats, global, key, at, now)
            && filled(cats, global, at, now) && caused(cats, global, at, now) && now.visited.contains(
            key,
        ),
    decreases depth, 0nat,
{
    if !at.visited.contains(key) && lookup(cats, key) is Ok {
        let (alias, name) = lookup(cats, key)->Ok_0;
        let u = universe(cats);
        lemma_key_parts(key);
        assert(key == key_of(alias, name));
        assert(u.contains(key));
        let left = u.difference(at.visited);
        assert(left.contains(key));
        let next = Closure { visited: at.visited.insert(key), ..at };
        assert(u.difference(next.visited) =~= left.remove(key));
        assert(left.len() > 0);
        assert(depth > 0);
        let deps = cats[alias][name].requires;
        lemma_leads_self(cats, global, key);
        lemma_reach_all(cats, global, key, alias, name, deps.len() as int, next, (depth - 1) as nat);
        assert(deps.take(deps.len() as int) =~= deps);
        match reach_all_of(cats, global, key, alias, deps, next, (depth - 1) as nat) {
            Err(_) => {},
            Ok(now) => {
                assert(saturated(cats, global, now, key)) by {
                    assert forall|d: Text| #[trigger]
                        requires_key(cats, global, key, d) implies now.visited.contains(d)
                        && now.required.contains(d) by {
                        let i = choose|i: int|
                            0 <= i < deps.len() && d == key_of(alias, #[trigger] deps[i])
                                && cats[alias][deps[i]].global == global;
                        assert(now.visited.contains(key_of(alias, deps[i])));
                    }
                }
            },
        }
    } else {
        assert(grown(cats, global, key, at, at));
    }
}

proof fn lemma_reach_all(
    cats: Catalogs,
    global: bool,
    key: Text,
    alias: Text,
    name: Text,
    n: int,
    at: Closure,
    depth: nat,
)
    requires
        all_closed(cats),
        universe(cats).finite(),
        universe(cats).difference(at.visited).len() <= depth,
        lookup(cats, key) == Ok::<(Text, Text), Text>((alias, name)),
        0 <= n <= cats[alias][name].requires.len(),
        at.visited.contains(key),
    ensures
        reach_all_of(
            cats,
            global,
            key,
            alias,
            cats[alias][name].requires.take(n),
            at,
            depth,
        ) matches Ok(now) ==> grown(cats, global, key, at, now) && filled(cats, global, at, now)
            && caused(cats, global, at, now) && forall|i: int|
            0 <= i < n && cats[alias][cats[alias][name].requires[i]].global == global ==> {
                &&& now.visited.contains(key_of(alias, #[trigger] cats[alias][name].requires[i]))
                &&& now.required.contains(key_of(alias, cats[alias][name].requires[i]))
            },
    decreases depth, n,
{
    let deps = cats[alias][name].requires;
    let part = deps.take(n);
    if n == 0 {
        assert(part =~= Seq::<Text>::empty());
    } else {
        assert(part.drop_last() =~= deps.take(n - 1));
        assert(part.last() == deps[n - 1]);
        lemma_reach_all(cats, global, key, alias, name, n - 1, at, depth);
        match reach_all_of(cats, global, key, alias, deps.take(n - 1), at, depth) {
            Err(_) => {},
            Ok(mid) => {
                let d = deps[n - 1];
                let dk = key_of(alias, d);
                if cats[alias][d].global == global {
                    let open = Closure { required: mid.required.insert(dk), ..mid };
                    lemma_less_left(universe(cats), at.visited, open.visited);
                    lemma_reach(cats, global, dk, open, depth);
                    assert(requires_key(cats, global, key, dk));
                    match reach(cats, global, dk, open, depth) {
                        Err(_) => {},
                        Ok(now) => {
                            assert forall|k: Text| #[trigger]
                                now.visited.contains(k) && !at.visited.contains(k) implies leads(
                                cats,
                                global,
                                key,
                                k,
                            ) by {
                                if !mid.visited.contains(k) {
                                    lemma_leads_step(cats, global, key, dk, k);
                                }
                            }
                            assert forall|k: Text| #[trigger]
                                now.visited.contains(k) && !at.visited.contains(k) implies saturated(
                                cats,
                                global,
                                now,
                                k,
                            ) by {
                                if mid.visited.contains(k) {
                                    lemma_saturated_grows(cats, global, mid, now, k);
                                }
                            }
                            assert forall|x: Text| #[trigger]
                                now.required.contains(x) && !at.required.contains(x) implies exists|k: Text|
                                now.visited.contains(k) && #[trigger] requires_key(cats, global, k, x) by {
                                if x == dk {
                                    assert(now.visited.contains(key));
                                    assert(requires_key(cats, global, key, x));
                                } else if mid.required.contains(x) {
                                    let k = choose|k: Text|
                                        mid.visited.contains(k) && #[trigger] requires_key(
                                            cats,
                                            global,
                                            k,
                                            x,
                                        );
                                    assert(now.visited.contains(k));
                                }
                            }
                        },
                    }
                }
            },
        }
    }
}

proof fn lemma_reach_roots(cats: Catalogs, global: bool, roots: Seq<Text>, depth: nat)
    requires
        all_closed(cats),
        universe(cats).finite(),
        universe(cats).len() <= depth,
    ensures
        reach_roots(cats, global, roots, depth) matches Ok(c) ==> {
            &&& forall|k: Text| #[trigger] c.visited.contains(k) ==> saturated(cats, global, c, k)
            &&& forall|k: Text| #[trigger]
                c.visited.contains(k) ==> reachable(cats, global, roots.to_set(), k)
            &&& forall|i: int| 0 <= i < roots.len() ==> c.visited.contains(#[trigger] roots[i])
            &&& caused(
                cats,
                global,
                Closure { required: Set::empty(), visited: Set::empty() },
                c,
            )
        },
    decreases roots.len(),
{
    if roots.len() > 0 {
        let front = roots.drop_last();
        let root = roots.last();
        let none = Closure { required: Set::<Text>::empty(), visited: Set::<Text>::empty() };
        lemma_reach_roots(cats, global, front, depth);
        match reach_roots(cats, global, front, depth) {
            Err(_) => {},
            Ok(mid) => {
                lemma_less_left(universe(cats), Set::empty(), mid.visited);
                assert(universe(cats).difference(Set::empty()) =~= universe(cats));
                lemma_reach(cats, global, root, mid, depth);
                match reach(cats, global, root, mid, depth) {
                    Err(_) => {},
                    Ok(now) => {
                        assert(roots.to_set().contains(root)) by {
                            assert(roots[roots.len() - 1] == root);
                        }
                        assert forall|k: Text| #[trigger] now.visited.contains(k) implies saturated(
                            cats,
                            global,
                            now,
                            k,
                        ) && reachable(cats, global, roots.to_set(), k) by {
                            if mid.visited.contains(k) {
                                lemma_saturated_grows(cats, global, mid, now, k);
                                let r = choose|r: Text|
                                    front.to_set().contains(r) && #[trigger] leads(
                                        cats,
                                        global,
                                        r,
                                        k,
                                    );
                                let i = front.index_of(r);
                                assert(roots[i] == r);
                                assert(roots.to_set().contains(r));
                            } else {
                                assert(leads(cats, global, root, k));
                            }
                        }
                        assert forall|i: int| 0 <= i < roots.len() implies now.visited.contains(
                            #[trigger] roots[i],
                        ) by {
                            if i < front.len() {
                                assert(front[i] == roots[i]);
                            }
                        }
                        assert forall|d: Text| #[trigger]
                            now.required.contains(d) && !none.required.contains(d) implies exists|k: Text|
                            now.visited.contains(k) && #[trigger] requires_key(cats, global, k, d) by {
                            if mid.required.contains(d) {
                                let k = choose|k: Text|
                                    mid.visited.contains(k) && #[trigger] requires_key(
                                        cats,
                                        global,
                                        k,
                                        d,
                                    );
                                assert(now.visited.contains(k));
                            }
                        }
                    },
                }
            },
        }
    }
}

proof fn lemma_trail_visited(cats: Catalogs, global: bool, c: Closure, p: Seq<Text>, n: int)
    requires
        forall|k: Text| #[trigger] c.visited.contains(k) ==> saturated(cats, global, c, k),
        is_trail(cats, global, p),
        0 <= n < p.len(),
        c.visited.contains(p[0]),
    ensures
        c.visited.contains(p[n]),
    decreases n,
{
    if n > 0 {
        lemma_trail_visited(cats, global, c, p, n - 1);
        assert(requires_key(cats, global, p[n - 1], p[(n - 1) + 1]));
    }
}

/// The closure of a configuration visits exactly what its keys lead to, and counts as
/// required exactly what something visited requires.
pub proof fn law_closure_is_reachability(cats: Catalogs, global: bool, roots: Seq<Text>, c: Closure)
    requires
        all_closed(cats),
        universe(cats).finite(),
        reach_roots(cats, global, roots, universe(cats).len()) == Ok::<Closure, Text>(c),
    ensures
        forall|k: Text| #[trigger]
            c.visited.contains(k) <==> reachable(cats, global, roots.to_set(), k),
        forall|d: Text| #[trigger]
            c.required.contains(d) <==> exists|k: Text|
                reachable(cats, global, roots.to_set(), k) && #[trigger] requires_key(
                    cats,
                    global,
                    k,
                    d,
                ),
{
    lemma_reach_roots(cats, global, roots, universe(cats).len());
    assert forall|k: Text| reachable(cats, global, roots.to_set(), k) implies #[trigger] c.visited.contains(
        k,
    ) by {
        let r = choose|r: Text| roots.to_set().contains(r) && #[trigger] leads(cats, global, r, k);
        let p = choose|p: Seq<Text>| #[trigger] trail(cats, global, r, k, p);
        let i = roots.index_of(r);
        assert(c.visited.contains(roots[i]));
        lemma_trail_visited(cats, global, c, p, p.len() - 1);
    }
    assert forall|d: Text| #[trigger] c.required.contains(d) implies exists|k: Text|
        reachable(cats, global, roots.to_set(), k) && #[trigger] requires_key(cats, global, k, d) by {
        let none = Closure { required: Set::<Text>::empty(), visited: Set::<Text>::empty() };
        assert(!none.required.contains(d));
        let k = choose|k: Text| c.visited.contains(k) && #[trigger] requires_key(cats, global, k, d);
        assert(reachable(cats, global, roots.to_set(), k));
    }
    assert forall|d: Text|
        (exists|k: Text|
            reachable(cats, global, roots.to_set(), k) && #[trigger] requires_key(
                cats,
                global,
                k,
                d,
            )) implies #[trigger] c.required.contains(d) by {
        let k = choose|k: Text|
            reachable(cats, global, roots.to_set(), k) && #[trigger] requires_key(
                cats,
                global,
                k,
                d,
            );
        assert(c.visited.contains(k));
        assert(saturated(cats, global, c, k));
    }
}

/// No two skills of a resolution are installed under one name, and its keys ascend.
pub proof fn law_installed_names_are_unique(
    cats: Catalogs,
    skills: Map<Text, SkillSelection>,
    global: bool,
    rs: Seq<ResolvedView>,
    i: int,
    j: int,
)
    requires
        resolution(cats, skills, global) == Ok::<Seq<ResolvedView>, Text>(rs),
        0 <= i < j < rs.len(),
    ensures
        rs[i].installed_name != rs[j].installed_name,
{
    let c = reach_roots(cats, global, walk(skills.dom()), universe(cats).len())->Ok_0;
    let keys = walk(skills.dom().union(c.required));
    let faults = resolve_faults(cats, skills, global, keys);
    lemma_first_refusal(keys.len() as int, faults);
    assert(faults(j) is None);
    lemma_first_where(j, same_name(cats, keys, j));
    assert(!same_name(cats, keys, j)(i));
}

/// The keys of a resolution, and what is required among them.
proof fn lemma_resolution(
    cats: Catalogs,
    skills: Map<Text, SkillSelection>,
    global: bool,
    rs: Seq<ResolvedView>,
    key: Text,
)
    requires
        all_closed(cats),
        universe(cats).finite(),
        skills.dom().finite(),
        resolution(cats, skills, global) == Ok::<Seq<ResolvedView>, Text>(rs),
    ensures
        ({
            let c = reach_roots(cats, global, walk(skills.dom()), universe(cats).len())->Ok_0;
            let all = skills.dom().union(c.required);
            let keys = walk(all);
            &&& keys.to_set() == all
            &&& keys.len() == rs.len()
            &&& forall|i: int|
                0 <= i < rs.len() ==> #[trigger] rs[i] == resolved_at(
                    cats,
                    skills,
                    c.required,
                    keys[i],
                )
            &&& c.required.contains(key) <==> exists|i: int|
                0 <= i < rs.len() && requires_key(cats, global, (#[trigger] rs[i]).key, key)
        }),
{
    let names = walk(skills.dom());
    lemma_walk_finite(skills.dom());
    let c = reach_roots(cats, global, names, universe(cats).len())->Ok_0;
    lemma_reach_roots(cats, global, names, universe(cats).len());
    let none = Closure { required: Set::<Text>::empty(), visited: Set::<Text>::empty() };
    assert forall|d: Text| #[trigger] c.required.contains(d) implies universe(cats).contains(d) by {
        assert(!none.required.contains(d));
        let k = choose|k: Text| c.visited.contains(k) && #[trigger] requires_key(cats, global, k, d);
        let (alias, name) = lookup(cats, k)->Ok_0;
        let deps = cats[alias][name].requires;
        let i = choose|i: int|
            0 <= i < deps.len() && d == key_of(alias, #[trigger] deps[i])
                && cats[alias][deps[i]].global == global;
        let g = requirements(cats[alias]);
        assert(cats.contains_key(alias));
        assert(closed(g));
        assert(g.contains_key(g[name][i]));
        assert(cats[alias].contains_key(deps[i]));
    }
    assert(c.required.subset_of(universe(cats)));
    lemma_len_subset(c.required, universe(cats));
    let all = skills.dom().union(c.required);
    lemma_walk_finite(all);
    let keys = walk(all);
    assert forall|k: Text| #[trigger] all.contains(k) implies c.visited.contains(k) by {
        if skills.contains_key(k) {
            assert(names.to_set().contains(k));
            let at = names.index_of(k);
            assert(c.visited.contains(names[at]));
        } else {
            assert(!none.required.contains(k));
            let p = choose|p: Text|
                c.visited.contains(p) && #[trigger] requires_key(cats, global, p, k);
            assert(saturated(cats, global, c, p));
        }
    }
    assert forall|k: Text| #[trigger] c.visited.contains(k) implies all.contains(k) by {
        assert(reachable(cats, global, names.to_set(), k));
        let r = choose|r: Text| names.to_set().contains(r) && #[trigger] leads(cats, global, r, k);
        let p = choose|p: Seq<Text>| #[trigger] trail(cats, global, r, k, p);
        if p.len() > 1 {
            let n = p.len() - 2;
            let i = names.index_of(r);
            assert(c.visited.contains(names[i]));
            lemma_trail_visited(cats, global, c, p, n);
            assert(requires_key(cats, global, p[n], p[n + 1]));
            assert(saturated(cats, global, c, p[n]));
        } else {
            assert(p[0] == k);
        }
    }
    assert forall|i: int| 0 <= i < rs.len() implies (#[trigger] rs[i]).key == keys[i] by {
        assert(rs[i] == resolved_at(cats, skills, c.required, keys[i]));
    }
    if c.required.contains(key) {
        assert(!none.required.contains(key));
        let p = choose|p: Text|
            c.visited.contains(p) && #[trigger] requires_key(cats, global, p, key);
        assert(all.contains(p));
        assert(keys.to_set().contains(p));
        let i = keys.index_of(p);
        assert(rs[i].key == p);
    }
    if exists|i: int| 0 <= i < rs.len() && requires_key(cats, global, (#[trigger] rs[i]).key, key) {
        let i = choose|i: int|
            0 <= i < rs.len() && requires_key(cats, global, (#[trigger] rs[i]).key, key);
        assert(keys.to_set().contains(keys[i]));
        assert(all.contains(keys[i]));
        assert(saturated(cats, global, c, keys[i]));
    }
}

/// A resolution holds exactly what was selected and what its skills require of the same
/// installation.
pub proof fn law_resolution_is_complete(
    cats: Catalogs,
    skills: Map<Text, SkillSelection>,
    global: bool,
    rs: Seq<ResolvedView>,
    key: Text,
)
    requires
        all_closed(cats),
        universe(cats).finite(),
        skills.dom().finite(),
        resolution(cats, skills, global) == Ok::<Seq<ResolvedView>, Text>(rs),
    ensures
        (exists|j: int| 0 <= j < rs.len() && (#[trigger] rs[j]).key == key) <==> {
            ||| skills.contains_key(key)
            ||| exists|i: int|
                0 <= i < rs.len() && requires_key(cats, global, (#[trigger] rs[i]).key, key)
        },
{
    lemma_resolution(cats, skills, global, rs, key);
    let c = reach_roots(cats, global, walk(skills.dom()), universe(cats).len())->Ok_0;
    let all = skills.dom().union(c.required);
    let keys = walk(all);
    if all.contains(key) {
        assert(keys.to_set().contains(key));
        let j = keys.index_of(key);
        assert(rs[j].key == key);
    }
    if exists|j: int| 0 <= j < rs.len() && (#[trigger] rs[j]).key == key {
        let j = choose|j: int| 0 <= j < rs.len() && (#[trigger] rs[j]).key == key;
        assert(rs[j] == resolved_at(cats, skills, c.required, keys[j]));
        assert(keys.to_set().contains(keys[j]));
    }
}

/// A resolved skill ignores exactly where its selection asks for it; it is for people only
/// exactly where it was selected so and no resolved skill requires it; and it is for agents only
/// exactly where nobody selected it.
pub proof fn law_selections_are_carried_over(
    cats: Catalogs,
    skills: Map<Text, SkillSelection>,
    global: bool,
    rs: Seq<ResolvedView>,
    i: int,
)
    requires
        all_closed(cats),
        universe(cats).finite(),
        skills.dom().finite(),
        resolution(cats, skills, global) == Ok::<Seq<ResolvedView>, Text>(rs),
        0 <= i < rs.len(),
    ensures
        ({
            let chosen = skills.contains_key(rs[i].key);
            let choice = skills[rs[i].key];
            let needed = exists|j: int|
                0 <= j < rs.len() && requires_key(cats, global, (#[trigger] rs[j]).key, rs[i].key);
            let for_people = choice == SkillSelection::Mode(SelectionMode::Manual) || (
            choice matches SkillSelection::Detailed { mode, .. } && mode == SelectionMode::Manual);
            let ignored = choice matches SkillSelection::Detailed { gitignore, .. } && gitignore;
            &&& rs[i].gitignore <==> chosen && ignored
            &&& rs[i].mode == EffectiveMode::Manual <==> chosen && for_people && !needed
            &&& rs[i].mode == EffectiveMode::Dependency <==> !chosen
        }),
{
    lemma_resolution(cats, skills, global, rs, rs[i].key);
    let c = reach_roots(cats, global, walk(skills.dom()), universe(cats).len())->Ok_0;
    let keys = walk(skills.dom().union(c.required));
    assert(rs[i] == resolved_at(cats, skills, c.required, keys[i]));
}

/// A resolved skill is the one that its key names: a registered catalog and a skill of it, under
/// the name that the catalog gives it.
pub proof fn law_keys_name_their_skills(
    cats: Catalogs,
    skills: Map<Text, SkillSelection>,
    global: bool,
    rs: Seq<ResolvedView>,
    i: int,
)
    requires
        resolution(cats, skills, global) == Ok::<Seq<ResolvedView>, Text>(rs),
        0 <= i < rs.len(),
    ensures
        exists|alias: Text|
            {
                let name = rs[i].source_name;
                &&& rs[i].key == alias + seq!['/'] + name
                &&& !alias.contains('/') && !name.contains('/')
                &&& #[trigger] cats.contains_key(alias)
                &&& cats[alias].contains_key(name)
                &&& rs[i].installed_name == cats[alias][name].installed_name
                &&& rs[i].digest == digest_of(cats[alias][name], rs[i].installed_name, rs[i].mode)
            },
{
    let c = reach_roots(cats, global, walk(skills.dom()), universe(cats).len())->Ok_0;
    let keys = walk(skills.dom().union(c.required));
    let faults = resolve_faults(cats, skills, global, keys);
    lemma_first_refusal(keys.len() as int, faults);
    assert(faults(i) is None);
    let key = keys[i];
    assert(rs[i] == resolved_at(cats, skills, c.required, key));
    let (alias, name) = lookup(cats, key)->Ok_0;
    lemma_find_char_bound(key, '/');
    let at = find_char(key, '/');
    assert(key =~= alias + seq!['/'] + name);
    if alias.contains('/') {
        let j = alias.index_of('/');
        assert(key[j] == '/');
    }
    assert(cats.contains_key(alias));
}

/// The modes follow the selections: what nobody selected is there for agents only, what was
/// enabled is open to all, and a manual skill stays for people unless something requires it.
pub proof fn law_modes_follow_selections(
    cats: Catalogs,
    skills: Map<Text, SkillSelection>,
    global: bool,
    rs: Seq<ResolvedView>,
    i: int,
)
    requires
        resolution(cats, skills, global) == Ok::<Seq<ResolvedView>, Text>(rs),
        0 <= i < rs.len(),
    ensures
        rs[i].mode == EffectiveMode::Dependency <==> !skills.contains_key(rs[i].key),
        skills.contains_key(rs[i].key) && selected_mode(skills[rs[i].key]) == SelectionMode::Enable
            ==> rs[i].mode == EffectiveMode::Enable,
        rs[i].mode == EffectiveMode::Manual ==> selected_mode(skills[rs[i].key])
            == SelectionMode::Manual,
        rs[i].gitignore ==> skills.contains_key(rs[i].key) && selected_ignore(skills[rs[i].key])
            && !global,
{
    let c = reach_roots(cats, global, walk(skills.dom()), universe(cats).len())->Ok_0;
    let keys = walk(skills.dom().union(c.required));
    let faults = resolve_faults(cats, skills, global, keys);
    lemma_first_refusal(keys.len() as int, faults);
    assert(faults(i) is None);
    assert(rs[i] == resolved_at(cats, skills, c.required, keys[i]));
}

proof fn lemma_key_of(alias: Text, name: Text, other: Text)
    requires
        key_parts(other) is Some,
        key_parts(other)->Some_0.0 == alias,
        key_parts(key_of(alias, name)) is Some,
    ensures
        key_parts(key_of(alias, name)) == Some((alias, name)),
{
    reveal_strlit("/");
    let key = key_of(alias, name);
    assert("/"@ =~= seq!['/']);
    lemma_find_char_bound(other, '/');
    let n = alias.len() as int;
    assert(alias =~= other.take(find_char(other, '/')));
    assert forall|j: int| 0 <= j < n implies key[j] != '/' by {
        assert(key[j] == alias[j]);
        assert(alias[j] == other[j]);
    }
    assert(key[n] == '/');
    lemma_find_char(key, '/', n);
    assert(key.take(n) =~= alias);
    assert(key.skip(n + 1) =~= name);
}

/// Everything that is resolved belongs to the scope that is installed: global skills are
/// installed globally only, and the others only in projects.
pub proof fn law_scopes_are_exclusive(
    cats: Catalogs,
    skills: Map<Text, SkillSelection>,
    global: bool,
    rs: Seq<ResolvedView>,
    i: int,
)
    requires
        all_closed(cats),
        universe(cats).finite(),
        skills.dom().finite(),
        resolution(cats, skills, global) == Ok::<Seq<ResolvedView>, Text>(rs),
        0 <= i < rs.len(),
    ensures
        skill_at(cats, rs[i].key).global == global,
{
    let c = reach_roots(cats, global, walk(skills.dom()), universe(cats).len())->Ok_0;
    let keys = walk(skills.dom().union(c.required));
    let faults = resolve_faults(cats, skills, global, keys);
    lemma_first_refusal(keys.len() as int, faults);
    assert(faults(i) is None);
    let key = keys[i];
    assert(rs[i] == resolved_at(cats, skills, c.required, key));
    if !skills.contains_key(key) {
        law_resolution_is_complete(cats, skills, global, rs, key);
        assert(rs[i].key == key);
        let j = choose|j: int|
            0 <= j < rs.len() && requires_key(cats, global, (#[trigger] rs[j]).key, key);
        let (alias, name) = lookup(cats, rs[j].key)->Ok_0;
        let deps = cats[alias][name].requires;
        let x = choose|x: int|
            0 <= x < deps.len() && key == key_of(alias, #[trigger] deps[x])
                && cats[alias][deps[x]].global == global;
        assert(lookup(cats, key) is Ok);
        lemma_key_of(alias, deps[x], rs[j].key);
    }
}

/// Catalogs that were scanned can be resolved, planned and renamed: their dependencies exist
/// and form no cycle, and every rename leads to a current skill.
pub proof fn law_scanned_catalogs_are_fit(catalogs: Map<Text, CatalogIndex>)
    requires
        forall|a: Text| #[trigger] catalogs.contains_key(a) ==> sound(catalogs[a]),
    ensures
        all_closed(catalogs_of(catalogs)),
        all_acyclic(catalogs_of(catalogs)),
        all_resolve(catalogs),
{
    assert forall|a: Text| #[trigger] catalogs_of(catalogs).contains_key(a) implies closed(
        requirements(catalogs_of(catalogs)[a]),
    ) && acyclic(requirements(catalogs_of(catalogs)[a])) by {
        assert(catalogs.contains_key(a));
    }
}

} // verus!
