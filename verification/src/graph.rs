//! Dependency cycles and rename chains between named skills.

use vstd::prelude::*;
use vstd::set_lib::lemma_subset_equality;
use crate::text::Text;

verus! {

/// What each name points to.
pub type Edges = Map<Text, Seq<Text>>;

/// Every edge ends at a name of the graph.
pub open spec fn closed(g: Edges) -> bool {
    forall|a: Text, i: int|
        g.contains_key(a) && 0 <= i < g[a].len() ==> g.contains_key(#[trigger] g[a][i])
}

/// Each text points to the one after it.
pub open spec fn is_path(g: Edges, p: Seq<Text>) -> bool {
    forall|i: int| 0 <= i < p.len() - 1 ==> g.contains_key(p[i]) && g[p[i]].contains(#[trigger] p[i + 1])
}

/// A path that ends where it began.
pub open spec fn is_cycle(g: Edges, c: Seq<Text>) -> bool {
    c.len() >= 2 && c[0] == c.last() && is_path(g, c)
}

pub open spec fn acyclic(g: Edges) -> bool {
    forall|c: Seq<Text>| !#[trigger] is_cycle(g, c)
}

/// How a depth-first visit ends: with the names finished so far, in the order in which they
/// were finished, or with the first cycle that it met.
pub enum Visit {
    Done(Seq<Text>),
    Cycle(Seq<Text>),
}

/// Visits `name` while the names of `visiting` are open and those of `visited` are finished.
pub open spec fn visit(g: Edges, name: Text, visiting: Seq<Text>, visited: Seq<Text>, depth: nat) -> Visit
    decreases depth, 0nat,
{
    if visiting.contains(name) {
        Visit::Cycle(visiting.skip(visiting.index_of(name)).push(name))
    } else if visited.contains(name) || depth == 0 {
        Visit::Done(visited)
    } else {
        match visit_all(g, g[name], visiting.push(name), visited, (depth - 1) as nat) {
            Visit::Cycle(c) => Visit::Cycle(c),
            Visit::Done(v) => Visit::Done(v.push(name)),
        }
    }
}

/// Visits the names one after another.
pub open spec fn visit_all(g: Edges, names: Seq<Text>, visiting: Seq<Text>, visited: Seq<Text>, depth: nat) -> Visit
    decreases depth, names.len(),
{
    if names.len() == 0 {
        Visit::Done(visited)
    } else {
        match visit_all(g, names.drop_last(), visiting, visited, depth) {
            Visit::Cycle(c) => Visit::Cycle(c),
            Visit::Done(v) => visit(g, names.last(), visiting, v, depth),
        }
    }
}

/// Each name comes after everything that it points to.
pub open spec fn in_order(g: Edges, v: Seq<Text>) -> bool {
    forall|i: int, d: Text|
        0 <= i < v.len() && #[trigger] g[v[i]].contains(d) ==> v.take(i).contains(d)
}

/// What holds while a visit is under way.
pub open spec fn visit_state(g: Edges, visiting: Seq<Text>, visited: Seq<Text>, depth: nat) -> bool {
    &&& closed(g)
    &&& g.dom().finite()
    &&& is_path(g, visiting)
    &&& visiting.no_duplicates()
    &&& forall|i: int| 0 <= i < visiting.len() ==> g.contains_key(#[trigger] visiting[i])
    &&& forall|i: int| 0 <= i < visited.len() ==> g.contains_key(#[trigger] visited[i])
    &&& in_order(g, visited)
    &&& forall|i: int| 0 <= i < visited.len() ==> !visiting.contains(#[trigger] visited[i])
    &&& depth + visiting.len() >= g.dom().len()
}

proof fn lemma_room(g: Edges, name: Text, visiting: Seq<Text>, depth: nat)
    requires
        g.dom().finite(),
        visiting.no_duplicates(),
        forall|i: int| 0 <= i < visiting.len() ==> g.contains_key(#[trigger] visiting[i]),
        depth + visiting.len() >= g.dom().len(),
        g.contains_key(name),
        !visiting.contains(name),
    ensures
        depth > 0,
{
    visiting.unique_seq_to_set();
    let s = visiting.to_set();
    assert(s.subset_of(g.dom()));
    vstd::set_lib::lemma_len_subset(s, g.dom());
    if depth == 0 {
        lemma_subset_equality(s, g.dom());
        assert(s.contains(name));
    }
}

proof fn lemma_in_order_push(g: Edges, v: Seq<Text>, name: Text)
    requires
        in_order(g, v),
        forall|i: int| 0 <= i < g[name].len() ==> v.contains(#[trigger] g[name][i]),
    ensures
        in_order(g, v.push(name)),
{
    let w = v.push(name);
    assert forall|i: int, d: Text| 0 <= i < w.len() && #[trigger] g[w[i]].contains(d) implies w.take(
        i,
    ).contains(d) by {
        assert(w.take(i) =~= v.take(i));
        if i < v.len() {
            assert(g[v[i]].contains(d));
        } else {
            let k = g[name].index_of(d);
            assert(g[name][k] == d);
            assert(v.take(i) =~= v);
        }
    }
}

proof fn lemma_visit(g: Edges, name: Text, visiting: Seq<Text>, visited: Seq<Text>, depth: nat)
    requires
        visit_state(g, visiting, visited, depth),
        g.contains_key(name),
        visiting.len() > 0 ==> g[visiting.last()].contains(name),
    ensures
        match visit(g, name, visiting, visited, depth) {
            Visit::Cycle(c) => is_cycle(g, c),
            Visit::Done(v) => visit_state(g, visiting, v, depth) && v.contains(name)
                && visited.is_prefix_of(v),
        },
    decreases depth, 0nat,
{
    if visiting.contains(name) {
        let k = visiting.index_of(name);
        let c = visiting.skip(k).push(name);
        assert(c[0] == name);
        assert forall|i: int| 0 <= i < c.len() - 1 implies g.contains_key(c[i]) && g[c[i]].contains(
            #[trigger] c[i + 1],
        ) by {
            assert(c[i] == visiting[k + i]);
            if i + 1 < c.len() - 1 {
                assert(c[i + 1] == visiting[k + i + 1]);
                assert(g[visiting[k + i]].contains(visiting[(k + i) + 1]));
            }
        }
    } else if !visited.contains(name) {
        lemma_room(g, name, visiting, depth);
        let w = visiting.push(name);
        let deps = g[name];
        assert forall|i: int| 0 <= i < w.len() - 1 implies g.contains_key(w[i]) && g[w[i]].contains(
            #[trigger] w[i + 1],
        ) by {
            if i + 1 < visiting.len() {
                assert(g[visiting[i]].contains(visiting[i + 1]));
            }
        }
        assert forall|i: int| 0 <= i < visited.len() implies !w.contains(#[trigger] visited[i]) by {
            if w.contains(visited[i]) {
                let j = w.index_of(visited[i]);
                if j < visiting.len() {
                    assert(visiting[j] == visited[i]);
                }
            }
        }
        assert(w.last() == name);
        lemma_visit_all(g, deps, w, visited, (depth - 1) as nat);
        match visit_all(g, deps, w, visited, (depth - 1) as nat) {
            Visit::Cycle(c) => {},
            Visit::Done(v) => {
                lemma_in_order_push(g, v, name);
                let x = v.push(name);
                assert forall|i: int| 0 <= i < x.len() implies !visiting.contains(
                    #[trigger] x[i],
                ) by {
                    if i < v.len() {
                        assert(!w.contains(v[i]));
                        if visiting.contains(v[i]) {
                            let j = visiting.index_of(v[i]);
                            assert(w[j] == v[i]);
                        }
                    }
                }
                assert(x[x.len() - 1] == name);
                assert(visited.is_prefix_of(x));
            },
        }
    } else {
        assert(visited.is_prefix_of(visited));
    }
}

proof fn lemma_visit_all(g: Edges, names: Seq<Text>, visiting: Seq<Text>, visited: Seq<Text>, depth: nat)
    requires
        visit_state(g, visiting, visited, depth),
        forall|i: int| 0 <= i < names.len() ==> g.contains_key(#[trigger] names[i]),
        visiting.len() > 0 ==> forall|i: int|
            0 <= i < names.len() ==> g[visiting.last()].contains(#[trigger] names[i]),
    ensures
        match visit_all(g, names, visiting, visited, depth) {
            Visit::Cycle(c) => is_cycle(g, c),
            Visit::Done(v) => visit_state(g, visiting, v, depth) && visited.is_prefix_of(v)
                && forall|i: int| 0 <= i < names.len() ==> v.contains(#[trigger] names[i]),
        },
    decreases depth, names.len(),
{
    if names.len() == 0 {
        assert(visited.is_prefix_of(visited));
    } else {
        let front = names.drop_last();
        assert forall|i: int| 0 <= i < front.len() implies g.contains_key(#[trigger] front[i]) && (
        visiting.len() > 0 ==> g[visiting.last()].contains(front[i])) by {
            assert(front[i] == names[i]);
        }
        lemma_visit_all(g, front, visiting, visited, depth);
        match visit_all(g, front, visiting, visited, depth) {
            Visit::Cycle(c) => {},
            Visit::Done(v) => {
                assert(names.last() == names[names.len() - 1]);
                lemma_visit(g, names.last(), visiting, v, depth);
                match visit(g, names.last(), visiting, v, depth) {
                    Visit::Cycle(c) => {},
                    Visit::Done(x) => {
                        assert(visited.is_prefix_of(x));
                        assert forall|i: int| 0 <= i < names.len() implies x.contains(
                            #[trigger] names[i],
                        ) by {
                            if i < front.len() {
                                assert(front[i] == names[i]);
                                let k = v.index_of(names[i]);
                                assert(v[k] == names[i]);
                                assert(x[k] == v[k]);
                            }
                        }
                    },
                }
            },
        }
    }
}

proof fn lemma_descends(g: Edges, v: Seq<Text>, c: Seq<Text>, n: int) -> (k: int)
    requires
        in_order(g, v),
        is_path(g, c),
        0 <= n < c.len(),
        v.contains(c[0]),
        v.no_duplicates(),
    ensures
        0 <= k < v.len(),
        v[k] == c[n],
        k + n <= v.index_of(c[0]),
    decreases n,
{
    if n == 0 {
        v.index_of(c[0])
    } else {
        let k = lemma_descends(g, v, c, n - 1);
        assert(g[c[n - 1]].contains(c[(n - 1) + 1]));
        assert(g[v[k]].contains(c[n]));
        assert(v.take(k).contains(c[n]));
        let j = v.take(k).index_of(c[n]);
        assert(v[j] == c[n]);
        j
    }
}

/// An order in which each name comes after what it points to rules out cycles.
proof fn lemma_ordered_is_acyclic(g: Edges, v: Seq<Text>)
    requires
        in_order(g, v),
        forall|a: Text| g.contains_key(a) ==> v.contains(a),
    ensures
        acyclic(g),
{
    let first = first_only(v);
    lemma_first_only(g, v);
    assert forall|c: Seq<Text>| !#[trigger] is_cycle(g, c) by {
        if is_cycle(g, c) {
            let z: int = 0;
            assert(g[c[z]].contains(c[z + 1]));
            assert(first.contains(c[0]));
            let n = c.len() - 1;
            let k = lemma_descends(g, first, c, n);
            assert(c[n] == c.last());
            assert(first[k] == c[0]);
            assert(first[first.index_of(c[0])] == c[0]);
        }
    }
}

/// The list without later repetitions.
pub open spec fn first_only(v: Seq<Text>) -> Seq<Text>
    decreases v.len(),
{
    if v.len() == 0 {
        v
    } else {
        let f = first_only(v.drop_last());
        if f.contains(v.last()) {
            f
        } else {
            f.push(v.last())
        }
    }
}

proof fn lemma_first_only(g: Edges, v: Seq<Text>)
    requires
        in_order(g, v),
    ensures
        first_only(v).no_duplicates(),
        forall|a: Text| v.contains(a) <==> #[trigger] first_only(v).contains(a),
        in_order(g, first_only(v)),
    decreases v.len(),
{
    if v.len() > 0 {
        let u = v.drop_last();
        let x = v.last();
        assert forall|i: int, d: Text| 0 <= i < u.len() && #[trigger] g[u[i]].contains(
            d,
        ) implies u.take(i).contains(d) by {
            assert(g[v[i]].contains(d));
            assert(u.take(i) =~= v.take(i));
        }
        lemma_first_only(g, u);
        let f = first_only(u);
        assert forall|a: Text| v.contains(a) <==> #[trigger] first_only(v).contains(a) by {
            if v.contains(a) {
                let k = v.index_of(a);
                if k < u.len() {
                    assert(u[k] == a);
                    assert(f.contains(a));
                    let m = f.index_of(a);
                    assert(f.push(x)[m] == a);
                } else {
                    assert(f.push(x)[f.len() as int] == x);
                }
            }
            if first_only(v).contains(a) {
                if a == x {
                    assert(v[v.len() - 1] == x);
                } else {
                    let m = first_only(v).index_of(a);
                    assert(f[m] == a);
                    assert(f.contains(a));
                    assert(u.contains(a));
                    let k = u.index_of(a);
                    assert(v[k] == a);
                }
            }
        }
        if !f.contains(x) {
            assert forall|i: int| 0 <= i < g[x].len() implies f.contains(#[trigger] g[x][i]) by {
                let n = v.len() - 1;
                assert(v[n] == x);
                assert(g[v[n]].contains(g[x][i]));
                assert(v.take(n) =~= u);
            }
            lemma_in_order_push(g, f, x);
        }
    }
}

/// A complete visit of a closed graph ends without a cycle exactly where there is none, and
/// a cycle that it reports is one.
pub proof fn law_visit_finds_cycles(g: Edges, names: Seq<Text>, depth: nat)
    requires
        closed(g),
        g.dom().finite(),
        names.to_set() == g.dom(),
        depth >= g.dom().len(),
    ensures
        match visit_all(g, names, Seq::empty(), Seq::empty(), depth) {
            Visit::Cycle(c) => is_cycle(g, c),
            Visit::Done(_) => acyclic(g),
        },
        (visit_all(g, names, Seq::empty(), Seq::empty(), depth) is Done) == acyclic(g),
{
    let e = Seq::<Text>::empty();
    assert forall|i: int| 0 <= i < names.len() implies g.contains_key(#[trigger] names[i]) by {
        assert(names.to_set().contains(names[i]));
    }
    lemma_visit_all(g, names, e, e, depth);
    match visit_all(g, names, e, e, depth) {
        Visit::Cycle(c) => {},
        Visit::Done(v) => {
            assert forall|a: Text| g.contains_key(a) implies v.contains(a) by {
                assert(names.to_set().contains(a));
                let k = names.index_of(a);
                assert(names[k] == a);
            }
            lemma_ordered_is_acyclic(g, v);
        },
    }
}

// Rename chains.

/// How following renames from a name ends.
pub enum Chain {
    Cycle(Seq<Text>),
    End(Seq<Text>, Text),
}

/// Follows renames from `current` after the names of `path`.
pub open spec fn chain(renames: Map<Text, Text>, current: Text, path: Seq<Text>, depth: nat) -> Chain
    decreases depth,
{
    if !renames.contains_key(current) {
        Chain::End(path, current)
    } else if path.contains(current) {
        Chain::Cycle(path.skip(path.index_of(current)).push(current))
    } else if depth == 0 {
        Chain::End(path, current)
    } else {
        chain(renames, renames[current], path.push(current), (depth - 1) as nat)
    }
}

/// The name after at most `steps` renames.
pub open spec fn follow(renames: Map<Text, Text>, current: Text, steps: nat) -> Text
    decreases steps,
{
    if steps == 0 || !renames.contains_key(current) {
        current
    } else {
        follow(renames, renames[current], (steps - 1) as nat)
    }
}

/// The name that a chain of renames ends at.
pub open spec fn current_name(renames: Map<Text, Text>, name: Text) -> Text {
    follow(renames, name, renames.dom().len())
}

/// The chain of renames from `name` comes to an end.
pub open spec fn settles(renames: Map<Text, Text>, name: Text) -> bool {
    !renames.contains_key(current_name(renames, name))
}

/// A path of distinct renamed names that misses one is shorter than the renames.
pub proof fn lemma_room_left(renames: Map<Text, Text>, current: Text, path: Seq<Text>, depth: nat)
    requires
        renames.dom().finite(),
        path.no_duplicates(),
        forall|i: int| 0 <= i < path.len() ==> renames.contains_key(#[trigger] path[i]),
        depth + path.len() >= renames.dom().len(),
        renames.contains_key(current),
        !path.contains(current),
    ensures
        depth > 0,
{
    let g = renames.map_values(|t: Text| Seq::<Text>::empty());
    assert(g.dom() =~= renames.dom());
    lemma_room(g, current, path, depth);
}

/// A chain that ends without a cycle ends where following the renames ends.
pub proof fn lemma_chain_follow(renames: Map<Text, Text>, current: Text, path: Seq<Text>, depth: nat)
    requires
        renames.dom().finite(),
        path.no_duplicates(),
        forall|i: int| 0 <= i < path.len() ==> renames.contains_key(#[trigger] path[i]),
        depth + path.len() >= renames.dom().len(),
    ensures
        match chain(renames, current, path, depth) {
            Chain::End(p, t) => follow(renames, current, depth) == t && !renames.contains_key(t),
            Chain::Cycle(c) => c.len() >= 2 && c[0] == c.last(),
        },
    decreases depth,
{
    if renames.contains_key(current) && !path.contains(current) {
        lemma_room_left(renames, current, path, depth);
        lemma_chain_follow(renames, renames[current], path.push(current), (depth - 1) as nat);
    }
}

} // verus!
