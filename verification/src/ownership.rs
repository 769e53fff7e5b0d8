//! Ownership conflicts: the skills that stand in the way of an installation, each with all of
//! its places.

use vstd::prelude::*;
use crate::diagnosis::{flag_of, Findings};
use crate::failure::{first_where, lemma_first_where_none, lemma_first_where_some};
use crate::name_map::{lemma_walk, walk, NameMap, NameSet};
use crate::output::{line_views, Line, LineView};
use crate::resolve::{resolved_views, ResolvedSkill, ResolvedView};
use crate::text::{cat2, cat4, cat5, copy_list, same, views, Text};
use crate::transaction::{names_of, resolved_names};

verus! {

/// A selected skill whose name is taken by something that is not managed.
#[derive(Debug, PartialEq, Eq)]
pub struct OwnershipConflict {
    pub key: String,
    pub name: String,
    /// The projections and the agents that have it.
    pub places: Vec<String>,
}

/// A conflict in contracts.
pub struct OwnershipView {
    pub key: Text,
    pub name: Text,
    pub places: Seq<Text>,
}

impl View for OwnershipConflict {
    type V = OwnershipView;

    open spec fn view(&self) -> OwnershipView {
        OwnershipView { key: self.key@, name: self.name@, places: views(self.places@) }
    }
}

pub open spec fn ownership_views(v: Seq<OwnershipConflict>) -> Seq<OwnershipView> {
    Seq::new(v.len(), |i: int| v[i]@)
}

/// Those of the first `n` agents that list a name.
pub open spec fn agent_places(
    agents: Map<Text, Result<NameSet, String>>,
    order: Seq<Text>,
    name: Text,
    n: int,
) -> Seq<Text>
    decreases n,
{
    if n <= 0 {
        Seq::empty()
    } else {
        let front = agent_places(agents, order, name, n - 1);
        match agents[order[n - 1]] {
            Ok(names) if names@.contains(name) => front.push("Vercel agent "@ + order[n - 1]),
            _ => front,
        }
    }
}

/// Where something of the name at position `i` is.
pub open spec fn places_of(f: Findings, name: Text, i: int) -> Seq<Text> {
    let order = walk(f.agents@.dom());
    views(f.projections@[i]@) + agent_places(f.agents@, order, name, order.len() as int)
}

pub open spec fn is_named(rs: Seq<ResolvedView>, name: Text) -> spec_fn(int) -> bool {
    |i: int| rs[i].installed_name == name
}

/// The key of the first skill that is installed under a name.
pub open spec fn key_for(rs: Seq<ResolvedView>, name: Text) -> Text {
    match first_where(rs.len() as int, is_named(rs, name)) {
        Some(i) => rs[i].key,
        None => name,
    }
}

/// The conflicts among the first `n` names.
pub open spec fn conflicts_of(
    f: Findings,
    rs: Seq<ResolvedView>,
    names: Seq<Text>,
    owned: Set<Text>,
    n: int,
) -> Seq<OwnershipView>
    decreases n,
{
    if n <= 0 {
        Seq::empty()
    } else {
        let front = conflicts_of(f, rs, names, owned, n - 1);
        let name = names[n - 1];
        let places = places_of(f, name, n - 1);
        if owned.contains(name) || places.len() == 0 {
            front
        } else {
            front.push(OwnershipView { key: key_for(rs, name), name, places })
        }
    }
}

fn add_agent_places(agents: &NameMap<Result<NameSet, String>>, name: &str, out: &mut Vec<String>)
    ensures
        views(final(out)@) == views(old(out)@) + agent_places(
            agents@,
            walk(agents@.dom()),
            name@,
            walk(agents@.dom()).len() as int,
        ),
{
    let ghost before = views(out@);
    let n: usize = agents.len();
    let ghost order = agents.names();
    proof {
        lemma_walk(order);
        assert(before + agent_places(agents@, order, name@, 0) =~= before);
    }
    let mut i: usize = 0;
    while i < n
        invariant
            i <= n == order.len(),
            order == agents.names(),
            views(out@) == before + agent_places(agents@, order, name@, i as int),
        decreases n - i,
    {
        match agents.value_at(i) {
            Ok(names) => {
                if names.contains(name) {
                    let ghost last = views(out@);
                    let place = cat2("Vercel agent ", agents.name_at(i).as_str());
                    let ghost text = place@;
                    out.push(place);
                    assert(views(out@) =~= last.push(text));
                    assert(views(out@) =~= before + agent_places(agents@, order, name@, i + 1));
                }
            },
            Err(_) => {},
        }
        i = i + 1;
    }
}

fn find_key(resolved: &Vec<ResolvedSkill<'_>>, name: &str) -> (r: String)
    ensures
        r@ == key_for(resolved_views(resolved@), name@),
{
    let ghost rs = resolved_views(resolved@);
    let ghost p = is_named(rs, name@);
    let mut i: usize = 0;
    while i < resolved.len()
        invariant
            i <= resolved@.len() == rs.len(),
            rs == resolved_views(resolved@),
            p == is_named(rs, name@),
            forall|j: int| 0 <= j < i ==> !#[trigger] p(j),
        decreases resolved@.len() - i,
    {
        assert(rs[i as int] == resolved@[i as int]@);
        if same(resolved[i].installed_name.as_str(), name) {
            proof {
                assert(p(i as int));
                lemma_first_where_some(rs.len() as int, p, i as int);
            }
            return resolved[i].key.clone();
        }
        assert(!p(i as int));
        i = i + 1;
    }
    proof {
        lemma_first_where_none(rs.len() as int, p);
    }
    name.to_owned()
}

/// Groups what stands in the way of the resolved skills by skill. `owned` holds the names that
/// may be replaced.
pub fn ownership_conflicts(f: &Findings, resolved: &Vec<ResolvedSkill<'_>>, owned: &NameSet) -> (r: Vec<
    OwnershipConflict,
>)
    requires
        f.projections@.len() == walk(resolved_names(resolved_views(resolved@))).len(),
    ensures
        ({
            let rs = resolved_views(resolved@);
            let names = walk(resolved_names(rs));
            ownership_views(r@) == conflicts_of(*f, rs, names, owned@, names.len() as int)
        }),
{
    let ghost rs = resolved_views(resolved@);
    let names = names_of(resolved);
    let n: usize = names.len();
    let ghost list = names.names();
    proof {
        lemma_walk(list);
    }
    let mut out: Vec<OwnershipConflict> = Vec::new();
    assert(ownership_views(out@) =~= Seq::<OwnershipView>::empty());
    let mut i: usize = 0;
    while i < n
        invariant
            i <= n == list.len(),
            list == names.names(),
            rs == resolved_views(resolved@),
            f.projections@.len() == n,
            ownership_views(out@) == conflicts_of(*f, rs, list, owned@, i as int),
        decreases n - i,
    {
        let name = names.name_at(i);
        if !owned.contains(name.as_str()) {
            let mut places = copy_list(&f.projections[i]);
            add_agent_places(&f.agents, name.as_str(), &mut places);
            assert(views(places@) == places_of(*f, list[i as int], i as int));
            assert(views(places@).len() == places@.len());
            if places.len() > 0 {
                let conflict = OwnershipConflict {
                    key: find_key(resolved, name.as_str()),
                    name: name.clone(),
                    places,
                };
                let ghost before = out@;
                let ghost view = conflict@;
                out.push(conflict);
                assert(ownership_views(out@) =~= ownership_views(before).push(view));
            }
        }
        i = i + 1;
    }
    out
}

/// Every projection of a name that is not owned is a place of that name's conflict.
pub proof fn law_conflicts_are_grouped(
    f: Findings,
    rs: Seq<ResolvedView>,
    names: Seq<Text>,
    owned: Set<Text>,
    n: int,
    i: int,
    k: int,
)
    requires
        0 <= i < n <= names.len(),
        !owned.contains(names[i]),
        0 <= k < f.projections@[i]@.len(),
    ensures
        exists|c: int|
            0 <= c < conflicts_of(f, rs, names, owned, n).len() && (#[trigger] conflicts_of(
                f,
                rs,
                names,
                owned,
                n,
            )[c]).name == names[i] && conflicts_of(f, rs, names, owned, n)[c].places.contains(
                f.projections@[i]@[k]@,
            ),
    decreases n,
{
    let now = conflicts_of(f, rs, names, owned, n);
    let front = conflicts_of(f, rs, names, owned, n - 1);
    if i < n - 1 {
        law_conflicts_are_grouped(f, rs, names, owned, n - 1, i, k);
        let c = choose|c: int|
            0 <= c < front.len() && (#[trigger] front[c]).name == names[i] && front[c].places.contains(
                f.projections@[i]@[k]@,
            );
        assert(now[c] == front[c]);
    } else {
        let places = places_of(f, names[i], i);
        assert(places[k] == f.projections@[i]@[k]@);
        assert(now[front.len() as int].name == names[i]);
    }
}

// Reports.

/// What is shown of a conflict: the skill, its places, and the command that leaves it to its
/// owner.
pub open spec fn conflict_lines(scope: Text, c: OwnershipView) -> Seq<LineView> {
    seq![
        LineView::Error(
            "[unowned-conflict] "@ + c.key + ": a skill named "@ + (c.name
                + " already exists and is not managed by Skiller"@),
        ),
    ] + c.places.map_values(|p: Text| LineView::Item(p)) + seq![
        LineView::Info(
            "Keep the existing owner with `skiller config"@ + flag_of(scope) + " --set "@ + c.key
                + "=off`"@,
        ),
    ]
}

/// What is shown of the first `n` conflicts.
pub open spec fn all_conflict_lines(scope: Text, conflicts: Seq<OwnershipView>, n: int) -> Seq<LineView>
    decreases n,
{
    if n <= 0 {
        Seq::empty()
    } else {
        all_conflict_lines(scope, conflicts, n - 1) + conflict_lines(scope, conflicts[n - 1])
    }
}

fn push_line(lines: &mut Vec<Line>, line: Line)
    ensures
        line_views(final(lines)@) == line_views(old(lines)@).push(line@),
{
    let ghost before = lines@;
    lines.push(line);
    assert(line_views(lines@) =~= line_views(before).push(line@));
}

fn push_conflict(out: &mut Vec<Line>, scope: &str, conflict: &OwnershipConflict)
    ensures
        line_views(final(out)@) == line_views(old(out)@) + conflict_lines(scope@, conflict@),
{
    let ghost before = line_views(out@);
    let ghost c = conflict@;
    let ghost items = c.places.map_values(|p: Text| LineView::Item(p));
    push_line(
        out,
        Line::Error(
            cat4(
                "[unowned-conflict] ",
                conflict.key.as_str(),
                ": a skill named ",
                cat2(
                    conflict.name.as_str(),
                    " already exists and is not managed by Skiller",
                ).as_str(),
            ),
        ),
    );
    let ghost head = line_views(out@);
    assert(head + items.take(0) =~= head);
    let mut i: usize = 0;
    while i < conflict.places.len()
        invariant
            i <= conflict.places@.len() == items.len(),
            c == conflict@,
            items == c.places.map_values(|p: Text| LineView::Item(p)),
            line_views(out@) == head + items.take(i as int),
        decreases conflict.places@.len() - i,
    {
        assert(c.places[i as int] == conflict.places@[i as int]@);
        push_line(out, Line::Item(conflict.places[i].clone()));
        i = i + 1;
        assert(items.take(i as int) =~= items.take(i - 1).push(items[i - 1]));
        assert(line_views(out@) =~= head + items.take(i as int));
    }
    assert(items.take(i as int) =~= items);
    let flag = if same(scope, "global") {
        " -g"
    } else {
        ""
    };
    push_line(
        out,
        Line::Info(
            cat5(
                "Keep the existing owner with `skiller config",
                flag,
                " --set ",
                conflict.key.as_str(),
                "=off`",
            ),
        ),
    );
    assert(line_views(out@) =~= before + conflict_lines(scope@, c));
}

/// Adds what is shown of the conflicts.
pub(crate) fn push_conflicts(out: &mut Vec<Line>, scope: &str, conflicts: &Vec<OwnershipConflict>)
    ensures
        line_views(final(out)@) == line_views(old(out)@) + all_conflict_lines(
            scope@,
            ownership_views(conflicts@),
            conflicts@.len() as int,
        ),
{
    let ghost before = line_views(out@);
    let ghost all = ownership_views(conflicts@);
    assert(before + all_conflict_lines(scope@, all, 0) =~= before);
    let mut i: usize = 0;
    while i < conflicts.len()
        invariant
            i <= conflicts@.len(),
            all == ownership_views(conflicts@),
            line_views(out@) == before + all_conflict_lines(scope@, all, i as int),
        decreases conflicts@.len() - i,
    {
        assert(all[i as int] == conflicts@[i as int]@);
        push_conflict(out, scope, &conflicts[i]);
        assert(line_views(out@) =~= before + all_conflict_lines(scope@, all, i as int + 1));
        i = i + 1;
    }
}

} // verus!
