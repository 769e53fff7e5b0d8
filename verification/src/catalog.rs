//! Catalogs: reading skills, checking dependencies and renames, acquiring and authoring.

use vstd::prelude::*;
use crate::failure::{
    first_refusal, first_where, lemma_first_refusal, lemma_first_refusal_none,
    lemma_first_refusal_some, lemma_first_where, lemma_first_where_none, lemma_first_where_some,
    refusal, Failure,
};
use crate::frontmatter::{field, frontmatter, frontmatter_of, nested_scalar, scalar};
use crate::graph::{
    acyclic, chain, closed, current_name, follow, law_visit_finds_cycles, lemma_chain_follow,
    settles, visit, visit_all, Chain, Edges, Visit,
};
use crate::model::{
    alias_refusal, copy_opt, is_name, lemma_take_all, lemma_take_set, no_metadata, schema_refusal,
    valid_name, validate_alias, validate_schema, CatalogMetadata, CatalogRegistration,
    CatalogSkillMetadata, GlobalConfig, MetadataView,
};
use crate::name_map::{lemma_walk, lemma_walk_finite, walk, NameMap};
use crate::paths::{join_path, joined_path};
use crate::text::{
    cat2, cat3, cat4, cat5, chars_of, copy_list, decimal, decimal_of, empty, has_char, join,
    joined, list_has, opt_view, plural, plural_ending, same, split, split_on, trim, trimmed, views,
    Text,
};

verus! {

#[derive(Debug)]
pub struct CatalogIndex {
    pub alias: String,
    pub source: String,
    pub root: String,
    pub metadata: CatalogMetadata,
    pub skills: NameMap<CatalogSkill>,
}

#[derive(Debug)]
pub struct CatalogSkill {
    pub name: String,
    pub description: String,
    pub scope: Option<String>,
    pub installed_name: String,
    pub global: bool,
    pub requires: Vec<String>,
    /// The identity of the skill's files.
    pub digest: String,
}

#[derive(Debug, Clone, Copy, PartialEq, Eq, Structural)]
pub enum CatalogEligibility {
    Global,
    Project,
}

/// A catalog skill in contracts.
pub struct CatalogSkillView {
    pub name: Text,
    pub description: Text,
    pub scope: Option<Text>,
    pub installed_name: Text,
    pub global: bool,
    pub requires: Seq<Text>,
    pub digest: Text,
}

impl View for CatalogSkill {
    type V = CatalogSkillView;

    open spec fn view(&self) -> CatalogSkillView {
        CatalogSkillView {
            name: self.name@,
            description: self.description@,
            scope: opt_view(self.scope),
            installed_name: self.installed_name@,
            global: self.global,
            requires: views(self.requires@),
            digest: self.digest@,
        }
    }
}

impl Clone for CatalogSkill {
    fn clone(&self) -> (r: CatalogSkill)
        ensures
            r@ == self@,
            r.global == self.global,
            r.requires@ == self.requires@,
    {
        CatalogSkill {
            name: self.name.clone(),
            description: self.description.clone(),
            scope: copy_opt(&self.scope),
            installed_name: self.installed_name.clone(),
            global: self.global,
            requires: copy_list(&self.requires),
            digest: self.digest.clone(),
        }
    }
}

impl Clone for CatalogIndex {
    fn clone(&self) -> (r: CatalogIndex)
        ensures
            r.alias@ == self.alias@,
            r.source@ == self.source@,
            r.root@ == self.root@,
            r.metadata@ == self.metadata@,
            skills_of(r.skills@) == skills_of(self.skills@),
    {
        let skills = self.skills.clone();
        assert(skills_of(skills@) =~= skills_of(self.skills@));
        CatalogIndex {
            alias: self.alias.clone(),
            source: self.source.clone(),
            root: self.root.clone(),
            metadata: self.metadata.clone(),
            skills,
        }
    }
}

/// The skills of a catalog by name, in contracts.
pub type Skills = Map<Text, CatalogSkillView>;

pub open spec fn skills_of(m: Map<Text, CatalogSkill>) -> Skills {
    m.map_values(|s: CatalogSkill| s@)
}

/// What each skill requires.
pub open spec fn requirements(skills: Skills) -> Edges {
    skills.map_values(|s: CatalogSkillView| s.requires)
}

/// The renames of a catalog, in contracts.
pub open spec fn renames_of(m: Map<Text, String>) -> Map<Text, Text> {
    m.map_values(|s: String| s@)
}

// Names.

pub open spec fn postfixed(name: Text, scope: Option<Text>) -> Text {
    match scope {
        Some(s) => name + "-"@ + s,
        None => name,
    }
}

pub open spec fn installed_name_of(name: Text, scope: Option<Text>) -> Result<Text, Text> {
    let value = postfixed(name, scope);
    if is_name(value) {
        Ok(value)
    } else {
        Err("postfixed skill name is not Agent Skills compatible: "@ + value)
    }
}

/// The name under which a skill of a scope is installed.
pub fn installed_name(name: &str, scope: Option<&str>) -> (r: Result<String, Failure>)
    ensures
        ({
            let s = match scope {
                Some(t) => Some(t@),
                None => None,
            };
            match r {
                Ok(value) => installed_name_of(name@, s) == Ok::<Text, Text>(value@),
                Err(e) => installed_name_of(name@, s) == Err::<Text, Text>(e@),
            }
        }),
{
    let value = match scope {
        Some(scope) => cat3(name, "-", scope),
        None => name.to_owned(),
    };
    if !valid_name(value.as_str()) {
        return Err(
            Failure::new(
                cat2("postfixed skill name is not Agent Skills compatible: ", value.as_str()),
            ),
        );
    }
    Ok(value)
}

// Skill files.

/// The trimmed parts that are not blank.
pub open spec fn filled(parts: Seq<Text>) -> Seq<Text>
    decreases parts.len(),
{
    if parts.len() == 0 {
        Seq::empty()
    } else {
        let t = trim(parts.last());
        let front = filled(parts.drop_last());
        if t.len() > 0 {
            front.push(t)
        } else {
            front
        }
    }
}

/// The items of a comma-separated list.
pub open spec fn comma_list(value: Text) -> Seq<Text> {
    filled(split_on(value, ','))
}

/// Reads a comma-separated list; blank items are left out.
pub fn parse_list(value: &str) -> (r: Vec<String>)
    ensures
        views(r@) == comma_list(value@),
{
    let parts = split(value, ',');
    let mut out: Vec<String> = Vec::new();
    let mut i: usize = 0;
    while i < parts.len()
        invariant
            i <= parts.len(),
            views(out@) == filled(views(parts@).take(i as int)),
        decreases parts.len() - i,
    {
        let ghost all = views(parts@);
        let ghost prior = out@;
        let part = trimmed(parts[i].as_str());
        i = i + 1;
        assert(all.take(i as int).drop_last() =~= all.take(i - 1));
        if !empty(part.as_str()) {
            out.push(part);
            assert(views(out@) =~= views(prior).push(part@));
        }
    }
    assert(views(parts@).take(i as int) =~= views(parts@));
    out
}

/// The skill that a skill file describes, or why it is refused.
pub open spec fn skill_of(
    raw: Text,
    folder: Text,
    path: Text,
    scope: Option<Text>,
    global: bool,
    digest: Text,
) -> Result<CatalogSkillView, Text> {
    match frontmatter_of(raw, path) {
        Err(e) => Err(e),
        Ok(f) => {
            let name = match field(f, "name"@, false) {
                Some(n) => n,
                None => folder,
            };
            if name != folder || !is_name(name) {
                Err("Agent Skills requires a valid name matching its folder: "@ + path)
            } else {
                match installed_name_of(name, scope) {
                    Err(e) => Err(e),
                    Ok(installed_name) => Ok(
                        CatalogSkillView {
                            name,
                            description: match field(f, "description"@, false) {
                                Some(d) => d,
                                None => "No description"@,
                            },
                            scope,
                            installed_name,
                            global,
                            requires: match field(f, "skiller.requires"@, true) {
                                Some(v) => comma_list(v),
                                None => Seq::empty(),
                            },
                            digest,
                        },
                    ),
                }
            }
        },
    }
}

/// Reads a skill from the text of its `SKILL.md`.
pub fn read_skill(
    raw: &str,
    folder: &str,
    path: &str,
    metadata: &CatalogSkillMetadata,
    digest: &str,
) -> (r: Result<CatalogSkill, Failure>)
    ensures
        ({
            let expected = skill_of(
                raw@,
                folder@,
                path@,
                opt_view(metadata.scope),
                metadata.global,
                digest@,
            );
            match r {
                Ok(skill) => expected == Ok::<CatalogSkillView, Text>(skill@),
                Err(e) => expected == Err::<CatalogSkillView, Text>(e@),
            }
        }),
{
    let block = match frontmatter(raw, path) {
        Ok(block) => block,
        Err(e) => return Err(e),
    };
    let name = match scalar(block.as_str(), "name") {
        Some(name) => name,
        None => folder.to_owned(),
    };
    if !same(name.as_str(), folder) || !valid_name(name.as_str()) {
        return Err(
            Failure::new(
                cat2("Agent Skills requires a valid name matching its folder: ", path),
            ),
        );
    }
    let description = match scalar(block.as_str(), "description") {
        Some(text) => text,
        None => String::from_str("No description"),
    };
    let requires_list = match nested_scalar(block.as_str(), "skiller.requires") {
        Some(value) => parse_list(value.as_str()),
        None => {
            let none: Vec<String> = Vec::new();
            assert(views(none@) =~= Seq::<Text>::empty());
            none
        },
    };
    let scope = match &metadata.scope {
        Some(s) => Some(s.as_str()),
        None => None,
    };
    let placed = match installed_name(name.as_str(), scope) {
        Ok(placed) => placed,
        Err(e) => return Err(e),
    };
    Ok(
        CatalogSkill {
            name,
            description,
            scope: copy_opt(&metadata.scope),
            installed_name: placed,
            global: metadata.global,
            requires: requires_list,
            digest: digest.to_owned(),
        },
    )
}

// Dependencies.

pub open spec fn misses(skills: Skills, requires_list: Seq<Text>) -> spec_fn(int) -> bool {
    |j: int| !skills.contains_key(requires_list[j])
}

pub open spec fn first_missing(skills: Skills, requires_list: Seq<Text>) -> Option<int> {
    first_where(requires_list.len() as int, misses(skills, requires_list))
}

pub open spec fn incomplete(skills: Skills) -> spec_fn(int) -> bool {
    |i: int| first_missing(skills, skills[walk(skills.dom())[i]].requires) is Some
}

/// Why the dependencies of a catalog are refused: the first one that is missing, else the
/// first cycle that a depth-first visit in name order meets.
pub open spec fn dependency_refusal(skills: Skills) -> Option<Text> {
    let names = walk(skills.dom());
    match first_where(names.len() as int, incomplete(skills)) {
        Some(i) => {
            let s = skills[names[i]];
            Some(
                "skill "@ + s.name + " has invalid dependency "@ + s.requires[first_missing(
                    skills,
                    s.requires,
                )->Some_0],
            )
        },
        None => match visit_all(
            requirements(skills),
            names,
            Seq::empty(),
            Seq::empty(),
            names.len(),
        ) {
            Visit::Cycle(c) => Some("catalog dependency cycle: "@ + join(c, " -> "@)),
            Visit::Done(_) => None,
        },
    }
}

/// Dependencies pass exactly where every one of them exists and none is circular.
pub proof fn law_dependencies(skills: Skills)
    requires
        skills.dom().finite(),
    ensures
        dependency_refusal(skills) is None <==> closed(requirements(skills)) && acyclic(
            requirements(skills),
        ),
{
    let g = requirements(skills);
    let names = walk(skills.dom());
    lemma_walk_finite(skills.dom());
    assert(g.dom() =~= skills.dom());
    lemma_first_where(names.len() as int, incomplete(skills));
    match first_where(names.len() as int, incomplete(skills)) {
        Some(i) => {
            let s = skills[names[i]];
            lemma_first_where(s.requires.len() as int, misses(skills, s.requires));
            let j = first_missing(skills, s.requires)->Some_0;
            assert(names.to_set().contains(names[i]));
            assert(misses(skills, s.requires)(j));
            assert(!g.contains_key(g[names[i]][j]));
        },
        None => {
            assert forall|a: Text, j: int| g.contains_key(a) && 0 <= j < g[a].len() implies g.contains_key(
                #[trigger] g[a][j],
            ) by {
                assert(names.to_set().contains(a));
                let i = names.index_of(a);
                assert(!incomplete(skills)(i));
                let s = skills[a];
                lemma_first_where(s.requires.len() as int, misses(skills, s.requires));
                assert(!misses(skills, s.requires)(j));
            }
            law_visit_finds_cycles(g, names, names.len());
        },
    }
}

fn visit_skill(
    skills: &NameMap<CatalogSkill>,
    name: &str,
    visiting: &mut Vec<String>,
    visited: &mut Vec<String>,
    depth: usize,
) -> (r: Result<(), Vec<String>>)
    requires
        closed(requirements(skills_of(skills@))),
        skills@.contains_key(name@),
        views(old(visiting)@).no_duplicates(),
    ensures
        match visit(
            requirements(skills_of(skills@)),
            name@,
            views(old(visiting)@),
            views(old(visited)@),
            depth as nat,
        ) {
            Visit::Cycle(c) => r matches Err(path) && views(path@) == c,
            Visit::Done(v) => r is Ok && views(final(visited)@) == v && views(final(visiting)@)
                == views(old(visiting)@),
        },
    decreases depth,
{
    let ghost g = requirements(skills_of(skills@));
    let mut i: usize = 0;
    while i < visiting.len()
        invariant
            i <= visiting.len(),
            visiting@ == old(visiting)@,
            visited@ == old(visited)@,
            views(visiting@).no_duplicates(),
            forall|j: int| 0 <= j < i ==> views(visiting@)[j] != name@,
            g == requirements(skills_of(skills@)),
        decreases visiting.len() - i,
    {
        if same(visiting[i].as_str(), name) {
            let ghost open = views(visiting@);
            assert(open[i as int] == name@);
            assert(open.index_of(name@) == i);
            let mut path: Vec<String> = Vec::new();
            let mut k: usize = i;
            while k < visiting.len()
                invariant
                    i <= k <= visiting.len(),
                    open == views(visiting@),
                    views(path@) == open.subrange(i as int, k as int),
                decreases visiting.len() - k,
            {
                let ghost prior = path@;
                path.push(visiting[k].clone());
                k = k + 1;
                proof {
                    assert(views(path@) =~= views(prior).push(open[k - 1]));
                    assert(open.subrange(i as int, k as int) =~= open.subrange(
                        i as int,
                        k - 1,
                    ).push(open[k - 1]));
                }
            }
            let ghost prior = path@;
            path.push(name.to_owned());
            proof {
                assert(views(path@) =~= views(prior).push(name@));
                assert(open.subrange(i as int, open.len() as int) =~= open.skip(i as int));
            }
            return Err(path);
        }
        i = i + 1;
    }
    assert(!views(visiting@).contains(name@));
    if list_has(visited, name) || depth == 0 {
        return Ok(());
    }
    let ghost open = views(visiting@);
    let ghost opened = open.push(name@);
    visiting.push(name.to_owned());
    proof {
        assert(views(visiting@) =~= opened);
        assert(opened.no_duplicates()) by {
            assert(!open.contains(name@));
        }
    }
    match skills.get(name) {
        Some(skill) => {
            let ghost deps = views(skill.requires@);
            assert(g[name@] == deps);
            let ghost start = views(visited@);
            let mut k: usize = 0;
            assert(deps.take(0) =~= Seq::<Text>::empty());
            while k < skill.requires.len()
                invariant
                    k <= skill.requires.len(),
                    deps == views(skill.requires@),
                    g == requirements(skills_of(skills@)),
                    g.contains_key(name@),
                    g[name@] == deps,
                    closed(g),
                    depth > 0,
                    opened.no_duplicates(),
                    views(visiting@) == opened,
                    visit_all(g, deps.take(k as int), opened, start, (depth - 1) as nat)
                        == Visit::Done(views(visited@)),
                    opened == open.push(name@),
                    open == views(old(visiting)@),
                    !open.contains(name@),
                    start == views(old(visited)@),
                    !start.contains(name@),
                decreases skill.requires.len() - k,
            {
                let ghost here = views(visited@);
                assert(g.contains_key(g[name@][k as int]));
                let outcome = visit_skill(
                    skills,
                    skill.requires[k].as_str(),
                    visiting,
                    visited,
                    depth - 1,
                );
                proof {
                    let more = deps.take(k + 1);
                    assert(more.drop_last() =~= deps.take(k as int));
                    assert(more.last() == deps[k as int]);
                    if outcome is Err {
                        lemma_visit_all_stops(
                            g,
                            deps,
                            (k + 1) as int,
                            opened,
                            start,
                            (depth - 1) as nat,
                        );
                    }
                }
                match outcome {
                    Ok(_) => {},
                    Err(path) => return Err(path),
                }
                k = k + 1;
            }
            assert(deps.take(k as int) =~= deps);
        },
        None => {},
    }
    let ghost full = visiting@;
    assert(views(full) == opened);
    let _ = visiting.pop();
    let ghost done = views(visited@);
    visited.push(name.to_owned());
    proof {
        assert(views(full).len() == full.len());
        assert forall|j: int| 0 <= j < open.len() implies views(visiting@)[j] == open[j] by {
            assert(views(full)[j] == opened[j]);
        }
        assert(views(visiting@) =~= open);
        assert(views(visited@) =~= done.push(name@));
    }
    Ok(())
}

/// A cycle met on the way is what the whole visit reports.
proof fn lemma_visit_all_stops(g: Edges, names: Seq<Text>, k: int, visiting: Seq<Text>, visited: Seq<Text>, depth: nat)
    requires
        0 <= k <= names.len(),
        visit_all(g, names.take(k), visiting, visited, depth) is Cycle,
    ensures
        visit_all(g, names, visiting, visited, depth) == visit_all(
            g,
            names.take(k),
            visiting,
            visited,
            depth,
        ),
    decreases names.len() - k,
{
    if k == names.len() {
        assert(names.take(k) =~= names);
    } else {
        assert(names.take(k + 1).drop_last() =~= names.take(k));
        lemma_visit_all_stops(g, names, k + 1, visiting, visited, depth);
    }
}

/// Checks that every dependency exists and that none is circular.
pub fn validate_dependencies(skills: &NameMap<CatalogSkill>) -> (r: Result<(), Failure>)
    ensures
        refusal(r) == dependency_refusal(skills_of(skills@)),
        r is Ok <==> closed(requirements(skills_of(skills@))) && acyclic(
            requirements(skills_of(skills@)),
        ),
{
    let n: usize = skills.len();
    let ghost all = skills_of(skills@);
    let ghost names = skills.names();
    proof {
        assert(all.dom() =~= names.to_set());
        lemma_walk(names);
        vstd::seq_lib::seq_to_set_is_finite(names);
        law_dependencies(all);
    }
    let mut i: usize = 0;
    while i < n
        invariant
            i <= n == names.len(),
            names == skills.names(),
            names == walk(all.dom()),
            all == skills_of(skills@),
            skills.ordered(),
            all.dom() == names.to_set(),
            forall|j: int| 0 <= j < i ==> !#[trigger] incomplete(all)(j),
            dependency_refusal(all) is None <==> closed(requirements(all)) && acyclic(
                requirements(all),
            ),
        decreases n - i,
    {
        let skill = skills.value_at(i);
        assert(names.to_set().contains(names[i as int]));
        assert(all[names[i as int]] == skill@);
        let ghost deps = skill@.requires;
        let mut k: usize = 0;
        while k < skill.requires.len()
            invariant
                i < n == names.len(),
                names == walk(all.dom()),
                all == skills_of(skills@),
                all[names[i as int]] == skill@,
                deps == views(skill.requires@),
                deps == skill@.requires,
                k <= skill.requires.len(),
                forall|j: int| 0 <= j < i ==> !#[trigger] incomplete(all)(j),
                forall|j: int| 0 <= j < k ==> !#[trigger] misses(all, deps)(j),
                dependency_refusal(all) is None <==> closed(requirements(all)) && acyclic(
                    requirements(all),
                ),
            decreases skill.requires.len() - k,
        {
            if !skills.contains(skill.requires[k].as_str()) {
                proof {
                    assert(misses(all, deps)(k as int));
                    lemma_first_where_some(deps.len() as int, misses(all, deps), k as int);
                    assert(incomplete(all)(i as int));
                    lemma_first_where_some(n as int, incomplete(all), i as int);
                }
                return Err(
                    Failure::new(
                        cat4(
                            "skill ",
                            skill.name.as_str(),
                            " has invalid dependency ",
                            skill.requires[k].as_str(),
                        ),
                    ),
                );
            }
            assert(!misses(all, deps)(k as int));
            k = k + 1;
        }
        proof {
            lemma_first_where_none(deps.len() as int, misses(all, deps));
            assert(!incomplete(all)(i as int));
        }
        i = i + 1;
    }
    let ghost g = requirements(all);
    proof {
        lemma_first_where_none(n as int, incomplete(all));
        assert forall|a: Text, j: int| g.contains_key(a) && 0 <= j < g[a].len() implies g.contains_key(
            #[trigger] g[a][j],
        ) by {
            let at = names.index_of(a);
            assert(!incomplete(all)(at));
            lemma_first_where(all[a].requires.len() as int, misses(all, all[a].requires));
            assert(!misses(all, all[a].requires)(j));
        }
    }
    let mut visited: Vec<String> = Vec::new();
    let mut at: usize = 0;
    proof {
        assert(names.take(0) =~= Seq::<Text>::empty());
        assert(views(visited@) =~= Seq::<Text>::empty());
    }
    while at < n
        invariant
            at <= n == names.len(),
            names == skills.names(),
            names == walk(all.dom()),
            all == skills_of(skills@),
            g == requirements(all),
            closed(g),
            first_where(n as int, incomplete(all)) is None,
            visit_all(g, names.take(at as int), Seq::empty(), Seq::empty(), n as nat)
                == Visit::Done(views(visited@)),
            dependency_refusal(all) is None <==> closed(g) && acyclic(g),
        decreases n - at,
    {
        let mut visiting: Vec<String> = Vec::new();
        assert(views(visiting@) =~= Seq::<Text>::empty());
        let name = skills.name_at(at);
        let outcome = visit_skill(skills, name.as_str(), &mut visiting, &mut visited, n);
        proof {
            let more = names.take(at + 1);
            assert(more.drop_last() =~= names.take(at as int));
            assert(more.last() == names[at as int]);
            if outcome is Err {
                lemma_visit_all_stops(
                    g,
                    names,
                    at + 1,
                    Seq::empty(),
                    Seq::empty(),
                    n as nat,
                );
            }
        }
        match outcome {
            Ok(_) => {},
            Err(path) => {
                return Err(
                    Failure::new(
                        cat2("catalog dependency cycle: ", joined(&path, " -> ").as_str()),
                    ),
                );
            },
        }
        at = at + 1;
    }
    assert(names.take(at as int) =~= names);
    Ok(())
}

// Renames.

/// Why one declared rename is refused.
pub open spec fn rename_fault(renames: Map<Text, Text>, skills: Set<Text>, name: Text) -> Option<Text> {
    if !is_name(name) || !is_name(renames[name]) {
        Some("catalog rename must use valid skill names: "@ + name + " -> "@ + renames[name])
    } else if skills.contains(name) {
        Some("catalog rename source still exists as a skill: "@ + name)
    } else {
        None
    }
}

/// Why the chain of renames from a name is refused.
pub open spec fn chain_fault(renames: Map<Text, Text>, skills: Set<Text>, start: Text) -> Option<Text> {
    match chain(renames, start, Seq::empty(), renames.dom().len()) {
        Chain::Cycle(c) => Some("catalog rename cycle: "@ + join(c, " -> "@)),
        Chain::End(path, last) => if skills.contains(last) {
            None
        } else {
            Some("catalog rename has no current target: "@ + join(path.push(last), " -> "@))
        },
    }
}

pub open spec fn rename_faults(renames: Map<Text, Text>, skills: Set<Text>) -> spec_fn(int) -> Option<Text> {
    |i: int| rename_fault(renames, skills, walk(renames.dom())[i])
}

pub open spec fn chain_faults(renames: Map<Text, Text>, skills: Set<Text>) -> spec_fn(int) -> Option<Text> {
    |i: int| chain_fault(renames, skills, walk(renames.dom())[i])
}

/// Why the renames of a catalog are refused.
pub open spec fn rename_refusal(renames: Map<Text, Text>, skills: Set<Text>) -> Option<Text> {
    let n = walk(renames.dom()).len() as int;
    match first_refusal(n, rename_faults(renames, skills)) {
        Some(e) => Some(e),
        None => first_refusal(n, chain_faults(renames, skills)),
    }
}

/// Every declared rename leads to a current skill.
pub open spec fn renames_resolve(renames: Map<Text, Text>, skills: Set<Text>) -> bool {
    forall|name: Text| #[trigger]
        renames.contains_key(name) ==> settles(renames, name) && skills.contains(
            current_name(renames, name),
        )
}

/// Renames that pass all lead to a current skill.
pub proof fn law_renames(renames: Map<Text, Text>, skills: Set<Text>)
    requires
        renames.dom().finite(),
        rename_refusal(renames, skills) is None,
    ensures
        renames_resolve(renames, skills),
{
    let names = walk(renames.dom());
    lemma_walk_finite(renames.dom());
    lemma_first_refusal(names.len() as int, chain_faults(renames, skills));
    assert forall|name: Text| #[trigger] renames.contains_key(name) implies settles(renames, name)
        && skills.contains(current_name(renames, name)) by {
        assert(names.to_set().contains(name));
        let i = names.index_of(name);
        assert(chain_faults(renames, skills)(i) is None);
        lemma_chain_follow(renames, name, Seq::empty(), renames.dom().len());
    }
}

/// Follows the renames from `start`.
fn follow_chain(renames: &NameMap<String>, start: &str) -> (r: (bool, Vec<String>))
    ensures
        match chain(renames_of(renames@), start@, Seq::empty(), renames_of(renames@).dom().len()) {
            Chain::Cycle(c) => r.0 && views(r.1@) == c,
            Chain::End(path, last) => !r.0 && views(r.1@) == path.push(last),
        },
{
    let ghost m = renames_of(renames@);
    let n: usize = renames.len();
    proof {
        assert(m.dom() =~= renames.names().to_set());
        renames.names().unique_seq_to_set();
    }
    let mut path: Vec<String> = Vec::new();
    let mut current = start.to_owned();
    assert(views(path@) =~= Seq::<Text>::empty());
    while renames.contains(current.as_str())
        invariant
            m == renames_of(renames@),
            m.dom().len() == n,
            m.dom().finite(),
            views(path@).no_duplicates(),
            forall|i: int| 0 <= i < path.len() ==> m.contains_key(#[trigger] views(path@)[i]),
            path.len() <= n,
            chain(m, start@, Seq::empty(), n as nat) == chain(
                m,
                current@,
                views(path@),
                (n - path.len()) as nat,
            ),
        decreases n - path.len(),
    {
        let ghost seen = views(path@);
        let mut i: usize = 0;
        while i < path.len()
            invariant
                i <= path.len(),
                seen == views(path@),
                m == renames_of(renames@),
                m.dom().len() == n,
                m.contains_key(current@),
                seen.no_duplicates(),
                forall|j: int| 0 <= j < i ==> seen[j] != current@,
                chain(m, start@, Seq::empty(), n as nat) == chain(
                    m,
                    current@,
                    seen,
                    (n - path.len()) as nat,
                ),
            decreases path.len() - i,
        {
            if same(path[i].as_str(), current.as_str()) {
                assert(seen[i as int] == current@);
                assert(seen.index_of(current@) == i);
                let mut cycle: Vec<String> = Vec::new();
                let mut k: usize = i;
                while k < path.len()
                    invariant
                        i <= k <= path.len(),
                        seen == views(path@),
                        views(cycle@) == seen.subrange(i as int, k as int),
                    decreases path.len() - k,
                {
                    let ghost prior = cycle@;
                    cycle.push(path[k].clone());
                    k = k + 1;
                    proof {
                        assert(views(cycle@) =~= views(prior).push(seen[k - 1]));
                        assert(seen.subrange(i as int, k as int) =~= seen.subrange(
                            i as int,
                            k - 1,
                        ).push(seen[k - 1]));
                    }
                }
                let ghost prior = cycle@;
                cycle.push(current);
                proof {
                    assert(views(cycle@) =~= views(prior).push(current@));
                    assert(seen.subrange(i as int, seen.len() as int) =~= seen.skip(i as int));
                }
                return (true, cycle);
            }
            i = i + 1;
        }
        assert(!seen.contains(current@));
        proof {
            crate::graph::lemma_room_left(m, current@, seen, (n - path.len()) as nat);
        }
        let next = match renames.get(current.as_str()) {
            Some(next) => next.clone(),
            None => String::new(),
        };
        assert(next@ == m[current@]);
        let ghost here = current@;
        path.push(current);
        proof {
            assert(views(path@) =~= seen.push(here));
            assert forall|i: int| 0 <= i < path.len() implies m.contains_key(
                #[trigger] views(path@)[i],
            ) by {
                if i < seen.len() {
                    assert(views(path@)[i] == seen[i]);
                }
            }
        }
        current = next;
    }
    let ghost prior = path@;
    path.push(current);
    assert(views(path@) =~= views(prior).push(current@));
    (false, path)
}

/// Checks that every declared rename leads without a cycle to a current skill.
pub fn validate_renames(metadata: &CatalogMetadata, skills: &NameMap<CatalogSkill>) -> (r: Result<
    (),
    Failure,
>)
    ensures
        refusal(r) == rename_refusal(metadata@.renames, skills@.dom()),
        r is Ok ==> renames_resolve(metadata@.renames, skills@.dom()),
{
    let renames = &metadata.renames;
    let ghost m = renames_of(renames@);
    let ghost known = skills@.dom();
    let n: usize = renames.len();
    let ghost names = renames.names();
    proof {
        assert(m.dom() =~= names.to_set());
        lemma_walk(names);
    }
    let ghost first = rename_faults(m, known);
    let ghost second = chain_faults(m, known);
    let mut i: usize = 0;
    while i < n
        invariant
            i <= n == names.len(),
            names == renames.names(),
            names == walk(m.dom()),
            m == renames_of(renames@),
            renames == metadata.renames,
            known == skills@.dom(),
            renames.ordered(),
            first == rename_faults(m, known),
            forall|j: int| 0 <= j < i ==> (#[trigger] first(j)) is None,
        decreases n - i,
    {
        let old_name = renames.name_at(i);
        let new_name = renames.value_at(i);
        assert(m[names[i as int]] == new_name@);
        if !valid_name(old_name.as_str()) || !valid_name(new_name.as_str()) {
            proof {
                assert(first(i as int) is Some);
                lemma_first_refusal_some(n as int, first, i as int);
            }
            return Err(
                Failure::new(
                    cat4(
                        "catalog rename must use valid skill names: ",
                        old_name.as_str(),
                        " -> ",
                        new_name.as_str(),
                    ),
                ),
            );
        }
        if skills.contains(old_name.as_str()) {
            proof {
                assert(first(i as int) is Some);
                lemma_first_refusal_some(n as int, first, i as int);
            }
            return Err(
                Failure::new(
                    cat2(
                        "catalog rename source still exists as a skill: ",
                        old_name.as_str(),
                    ),
                ),
            );
        }
        assert(first(i as int) is None);
        i = i + 1;
    }
    proof {
        lemma_first_refusal_none(n as int, first);
    }
    let mut k: usize = 0;
    while k < n
        invariant
            k <= n == names.len(),
            names == renames.names(),
            names == walk(m.dom()),
            m == renames_of(renames@),
            renames == metadata.renames,
            known == skills@.dom(),
            first == rename_faults(m, known),
            first_refusal(n as int, first) is None,
            second == chain_faults(m, known),
            forall|j: int| 0 <= j < k ==> (#[trigger] second(j)) is None,
        decreases n - k,
    {
        let (circular, path) = follow_chain(renames, renames.name_at(k).as_str());
        if circular {
            proof {
                assert(second(k as int) is Some);
                lemma_first_refusal_some(n as int, second, k as int);
            }
            return Err(
                Failure::new(cat2("catalog rename cycle: ", joined(&path, " -> ").as_str())),
            );
        }
        let last: usize = path.len() - 1;
        proof {
            let e = chain(m, names[k as int], Seq::empty(), m.dom().len());
            assert(views(path@).last() == path@[last as int]@);
            assert(e->End_0.push(e->End_1).last() == e->End_1);
        }
        if !skills.contains(path[last].as_str()) {
            proof {
                assert(second(k as int) is Some);
                lemma_first_refusal_some(n as int, second, k as int);
            }
            return Err(
                Failure::new(
                    cat2(
                        "catalog rename has no current target: ",
                        joined(&path, " -> ").as_str(),
                    ),
                ),
            );
        }
        assert(second(k as int) is None);
        k = k + 1;
    }
    proof {
        lemma_first_refusal_none(n as int, second);
        vstd::seq_lib::seq_to_set_is_finite(names);
        law_renames(m, known);
    }
    Ok(())
}

/// Whether the checks of a catalog hold of it.
pub open spec fn sound(catalog: CatalogIndex) -> bool {
    &&& closed(requirements(skills_of(catalog.skills@)))
    &&& acyclic(requirements(skills_of(catalog.skills@)))
    &&& renames_resolve(catalog.metadata@.renames, catalog.skills@.dom())
}

/// The current name of a renamed skill.
pub fn resolve_rename(catalog: &CatalogIndex, name: &str) -> (r: Option<String>)
    requires
        settles(catalog.metadata@.renames, name@),
    ensures
        match r {
            Some(current) => catalog.metadata@.renames.contains_key(name@) && current@
                == current_name(catalog.metadata@.renames, name@),
            None => !catalog.metadata@.renames.contains_key(name@),
        },
{
    let renames = &catalog.metadata.renames;
    let ghost m = catalog.metadata@.renames;
    let ghost total = m.dom().len();
    let mut current = name.to_owned();
    let mut changed = false;
    let ghost mut left = total;
    while renames.contains(current.as_str())
        invariant
            m == renames_of(renames@),
            follow(m, current@, left) == current_name(m, name@),
            !m.contains_key(current_name(m, name@)),
            !changed ==> current@ == name@,
            changed ==> m.contains_key(name@),
        decreases left,
    {
        let next = match renames.get(current.as_str()) {
            Some(next) => next.clone(),
            None => String::new(),
        };
        proof {
            assert(left > 0);
            assert(m[current@] == next@);
            left = (left - 1) as nat;
        }
        current = next;
        changed = true;
    }
    if changed {
        Some(current)
    } else {
        None
    }
}

// Scanning.

/// One entry of a catalog's `skills` directory.
#[derive(Debug)]
pub struct CatalogEntry {
    pub name: String,
    pub directory: bool,
    pub symlink: bool,
    /// The path of a symlink below the entry, if it holds one.
    pub inner_symlink: Option<String>,
    /// Whether the entry holds a `SKILL.md` file.
    pub skill_file: bool,
    /// The text of that file.
    pub raw: String,
    pub digest: String,
}

/// What was read of a catalog.
#[derive(Debug)]
pub struct CatalogSnapshot {
    pub root: String,
    pub metadata: Option<CatalogMetadata>,
    pub entries: Vec<CatalogEntry>,
}

/// Whether an entry is a skill of the catalog: a real directory with a skill file.
pub open spec fn is_skill_entry(e: CatalogEntry) -> bool {
    e.directory && !e.symlink && e.skill_file
}

pub fn holds_skill(directory: bool, symlink: bool, skill_file: bool) -> (r: bool)
    ensures
        r == (directory && !symlink && skill_file),
{
    directory && !symlink && skill_file
}

pub open spec fn metadata_path(root: Text) -> Text {
    joined_path(root, "skiller.json"@)
}

pub open spec fn skills_root(root: Text) -> Text {
    joined_path(root, "skills"@)
}

pub open spec fn skill_file_path(root: Text, name: Text) -> Text {
    joined_path(joined_path(skills_root(root), name), "SKILL.md"@)
}

/// The metadata that a snapshot stands for.
pub open spec fn snapshot_metadata(snapshot: CatalogSnapshot) -> MetadataView {
    match snapshot.metadata {
        Some(m) => m@,
        None => no_metadata(),
    }
}

/// The skill of one entry, or why it is refused.
pub open spec fn entry_skill(meta: MetadataView, root: Text, e: CatalogEntry) -> Result<CatalogSkillView, Text> {
    let declared = meta.skills.contains_key(e.name@);
    let scope = if declared {
        opt_view(meta.skills[e.name@].scope)
    } else {
        None
    };
    let global = declared && meta.skills[e.name@].global;
    match skill_of(e.raw@, e.name@, skill_file_path(root, e.name@), scope, global, e.digest@) {
        Err(m) => Err(m),
        Ok(s) => match s.scope {
            Some(named) if !meta.scopes.contains_key(named) => Err(
                "skill "@ + s.name + " references unknown scope "@ + named,
            ),
            _ => Ok(s),
        },
    }
}

/// The symlink that an entry is or holds, if any: a catalog holds real files only.
pub open spec fn entry_symlink(root: Text, e: CatalogEntry) -> Option<Text> {
    if e.symlink {
        Some(joined_path(skills_root(root), e.name@))
    } else {
        opt_view(e.inner_symlink)
    }
}

fn symlink_of(root: &str, e: &CatalogEntry) -> (r: Option<String>)
    ensures
        opt_view(r) == entry_symlink(root@, *e),
{
    if e.symlink {
        Some(join_path(join_path(root, "skills").as_str(), e.name.as_str()))
    } else {
        copy_opt(&e.inner_symlink)
    }
}

/// The skills of the first `n` entries. A symlink among them is refused.
pub open spec fn entry_skills(meta: MetadataView, root: Text, entries: Seq<CatalogEntry>, n: int) -> Result<
    Skills,
    Text,
>
    decreases n,
{
    if n <= 0 {
        Ok(Map::empty())
    } else {
        match entry_skills(meta, root, entries, n - 1) {
            Err(m) => Err(m),
            Ok(skills) => if entry_symlink(root, entries[n - 1]) is Some {
                Err(
                    "catalog contains an unsupported symlink: "@ + entry_symlink(
                        root,
                        entries[n - 1],
                    )->Some_0,
                )
            } else if !is_skill_entry(entries[n - 1]) {
                Ok(skills)
            } else {
                match entry_skill(meta, root, entries[n - 1]) {
                    Err(m) => Err(m),
                    Ok(s) => Ok(skills.insert(s.name, s)),
                }
            },
        }
    }
}

pub open spec fn scope_faults(meta: MetadataView, root: Text) -> spec_fn(int) -> Option<Text> {
    |i: int|
        {
            let scope = walk(meta.scopes.dom())[i];
            if is_name(scope) {
                None
            } else {
                Some("invalid scope name in "@ + metadata_path(root) + ": "@ + scope)
            }
        }
}

pub open spec fn absent_faults(meta: MetadataView, skills: Skills) -> spec_fn(int) -> Option<Text> {
    |i: int|
        {
            let name = walk(meta.skills.dom())[i];
            if skills.contains_key(name) {
                None
            } else {
                Some("catalog metadata references missing skill: "@ + name)
            }
        }
}

/// The skills of a catalog, or why it is refused.
pub open spec fn catalog_skills(snapshot: CatalogSnapshot) -> Result<Skills, Text> {
    let meta = snapshot_metadata(snapshot);
    let root = snapshot.root@;
    match schema_refusal(meta.version, "catalog metadata"@) {
        Some(m) => Err(m),
        None => match first_refusal(
            walk(meta.scopes.dom()).len() as int,
            scope_faults(meta, root),
        ) {
            Some(m) => Err(m),
            None => match entry_skills(
                meta,
                root,
                snapshot.entries@,
                snapshot.entries@.len() as int,
            ) {
                Err(m) => Err(m),
                Ok(skills) => if skills.dom() == Set::<Text>::empty() {
                    Err("catalog contains no flat skills under "@ + skills_root(root))
                } else {
                    match first_refusal(
                        walk(meta.skills.dom()).len() as int,
                        absent_faults(meta, skills),
                    ) {
                        Some(m) => Err(m),
                        None => match dependency_refusal(skills) {
                            Some(m) => Err(m),
                            None => match rename_refusal(meta.renames, skills.dom()) {
                                Some(m) => Err(m),
                                None => Ok(skills),
                            },
                        },
                    }
                },
            },
        },
    }
}

fn entry_of(metadata: &CatalogMetadata, root: &str, e: &CatalogEntry) -> (r: Result<
    CatalogSkill,
    Failure,
>)
    ensures
        match r {
            Ok(s) => entry_skill(metadata@, root@, *e) == Ok::<CatalogSkillView, Text>(s@),
            Err(f) => entry_skill(metadata@, root@, *e) == Err::<CatalogSkillView, Text>(f@),
        },
{
    let path = join_path(
        join_path(join_path(root, "skills").as_str(), e.name.as_str()).as_str(),
        "SKILL.md",
    );
    let declared = match metadata.skills.get(e.name.as_str()) {
        Some(d) => d.clone(),
        None => CatalogSkillMetadata::default(),
    };
    let skill = match read_skill(
        e.raw.as_str(),
        e.name.as_str(),
        path.as_str(),
        &declared,
        e.digest.as_str(),
    ) {
        Ok(skill) => skill,
        Err(f) => return Err(f),
    };
    match &skill.scope {
        Some(scope) => {
            if !metadata.scopes.contains(scope.as_str()) {
                return Err(
                    Failure::new(
                        cat4(
                            "skill ",
                            skill.name.as_str(),
                            " references unknown scope ",
                            scope.as_str(),
                        ),
                    ),
                );
            }
        },
        None => {},
    }
    Ok(skill)
}

proof fn lemma_entries_stop(meta: MetadataView, root: Text, entries: Seq<CatalogEntry>, k: int)
    requires
        0 <= k <= entries.len(),
        entry_skills(meta, root, entries, k) is Err,
    ensures
        entry_skills(meta, root, entries, entries.len() as int) == entry_skills(
            meta,
            root,
            entries,
            k,
        ),
    decreases entries.len() - k,
{
    if k < entries.len() {
        lemma_entries_stop(meta, root, entries, k + 1);
    }
}

/// Builds the index of a catalog from what was read of it.
pub fn scan_catalog(alias: &str, source: &str, snapshot: &CatalogSnapshot) -> (r: Result<
    CatalogIndex,
    Failure,
>)
    ensures
        match r {
            Ok(index) => {
                &&& catalog_skills(*snapshot) == Ok::<Skills, Text>(skills_of(index.skills@))
                &&& index.alias@ == alias@
                &&& index.source@ == source@
                &&& index.root@ == snapshot.root@
                &&& index.metadata@ == snapshot_metadata(*snapshot)
                &&& sound(index)
            },
            Err(f) => catalog_skills(*snapshot) == Err::<Skills, Text>(f@),
        },
{
    let metadata = match &snapshot.metadata {
        Some(m) => m.clone(),
        None => CatalogMetadata::default(),
    };
    let ghost meta = snapshot_metadata(*snapshot);
    assert(metadata@ == meta);
    let root = snapshot.root.as_str();
    match validate_schema(metadata.version, "catalog metadata") {
        Ok(_) => {},
        Err(f) => return Err(f),
    }
    let scopes: usize = metadata.scopes.len();
    proof {
        lemma_walk(metadata.scopes.names());
    }
    let ghost scope_fault = scope_faults(meta, root@);
    let mut i: usize = 0;
    while i < scopes
        invariant
            i <= scopes == metadata.scopes.names().len(),
            metadata@ == meta,
            walk(meta.scopes.dom()) == metadata.scopes.names(),
            scope_fault == scope_faults(meta, root@),
            root@ == snapshot.root@,
            meta == snapshot_metadata(*snapshot),
            schema_refusal(meta.version, "catalog metadata"@) is None,
            forall|j: int| 0 <= j < i ==> (#[trigger] scope_fault(j)) is None,
        decreases scopes - i,
    {
        let scope = metadata.scopes.name_at(i);
        if !valid_name(scope.as_str()) {
            proof {
                assert(scope_fault(i as int) is Some);
                lemma_first_refusal_some(scopes as int, scope_fault, i as int);
            }
            return Err(
                Failure::new(
                    cat4(
                        "invalid scope name in ",
                        join_path(root, "skiller.json").as_str(),
                        ": ",
                        scope.as_str(),
                    ),
                ),
            );
        }
        assert(scope_fault(i as int) is None);
        i = i + 1;
    }
    proof {
        lemma_first_refusal_none(scopes as int, scope_fault);
    }
    let mut skills: NameMap<CatalogSkill> = NameMap::new();
    let ghost entries = snapshot.entries@;
    let mut k: usize = 0;
    assert(skills_of(skills@) =~= Map::<Text, CatalogSkillView>::empty());
    while k < snapshot.entries.len()
        invariant
            k <= snapshot.entries.len(),
            entries == snapshot.entries@,
            metadata@ == meta,
            root@ == snapshot.root@,
            meta == snapshot_metadata(*snapshot),
            schema_refusal(meta.version, "catalog metadata"@) is None,
            first_refusal(walk(meta.scopes.dom()).len() as int, scope_faults(meta, root@)) is None,
            entry_skills(meta, root@, entries, k as int) == Ok::<Skills, Text>(skills_of(skills@)),
            skills.ordered(),
        decreases snapshot.entries.len() - k,
    {
        let e = &snapshot.entries[k];
        match symlink_of(root, e) {
            Some(path) => {
                proof {
                    lemma_entries_stop(meta, root@, entries, k + 1);
                }
                return Err(
                    Failure::new(cat2("catalog contains an unsupported symlink: ", path.as_str())),
                );
            },
            None => {},
        }
        if holds_skill(e.directory, e.symlink, e.skill_file) {
            match entry_of(&metadata, root, e) {
                Ok(skill) => {
                    let ghost prior = skills@;
                    let ghost added = skill@;
                    skills.insert(skill.name.clone(), skill);
                    assert(skills_of(skills@) =~= skills_of(prior).insert(added.name, added));
                },
                Err(f) => {
                    proof {
                        lemma_entries_stop(meta, root@, entries, k + 1);
                    }
                    return Err(f);
                },
            }
        }
        k = k + 1;
    }
    let ghost all = skills_of(skills@);
    proof {
        assert(all.dom() =~= skills@.dom());
    }
    if skills.is_empty() {
        proof {
            assert(all.dom() =~= Set::<Text>::empty());
        }
        return Err(
            Failure::new(
                cat2(
                    "catalog contains no flat skills under ",
                    join_path(root, "skills").as_str(),
                ),
            ),
        );
    }
    proof {
        assert(skills.names().to_set().contains(skills.names()[0]));
        assert(all.dom() != Set::<Text>::empty());
    }
    let declared: usize = metadata.skills.len();
    proof {
        lemma_walk(metadata.skills.names());
    }
    let ghost absent = absent_faults(meta, all);
    let mut m: usize = 0;
    while m < declared
        invariant
            m <= declared == metadata.skills.names().len(),
            metadata@ == meta,
            walk(meta.skills.dom()) == metadata.skills.names(),
            absent == absent_faults(meta, all),
            all == skills_of(skills@),
            all.dom() == skills@.dom(),
            forall|j: int| 0 <= j < m ==> (#[trigger] absent(j)) is None,
            root@ == snapshot.root@,
            meta == snapshot_metadata(*snapshot),
            schema_refusal(meta.version, "catalog metadata"@) is None,
            first_refusal(walk(meta.scopes.dom()).len() as int, scope_faults(meta, root@)) is None,
            entry_skills(meta, root@, snapshot.entries@, snapshot.entries@.len() as int) == Ok::<
                Skills,
                Text,
            >(all),
            all.dom() != Set::<Text>::empty(),
        decreases declared - m,
    {
        let name = metadata.skills.name_at(m);
        if !skills.contains(name.as_str()) {
            proof {
                assert(absent(m as int) is Some);
                lemma_first_refusal_some(declared as int, absent, m as int);
            }
            return Err(
                Failure::new(
                    cat2("catalog metadata references missing skill: ", name.as_str()),
                ),
            );
        }
        assert(absent(m as int) is None);
        m = m + 1;
    }
    proof {
        lemma_first_refusal_none(declared as int, absent);
    }
    match validate_dependencies(&skills) {
        Ok(_) => {},
        Err(f) => return Err(f),
    }
    match validate_renames(&metadata, &skills) {
        Ok(_) => {},
        Err(f) => return Err(f),
    }
    Ok(
        CatalogIndex {
            alias: alias.to_owned(),
            source: source.to_owned(),
            root: snapshot.root.clone(),
            metadata,
            skills,
        },
    )
}

/// A catalog that holds a symlink, as an entry or below one, is not accepted.
pub proof fn law_symlinks_are_refused(snapshot: CatalogSnapshot, i: int)
    requires
        0 <= i < snapshot.entries@.len(),
        entry_symlink(snapshot.root@, snapshot.entries@[i]) is Some,
    ensures
        catalog_skills(snapshot) is Err,
{
    let meta = snapshot_metadata(snapshot);
    let root = snapshot.root@;
    let entries = snapshot.entries@;
    assert(entry_skills(meta, root, entries, i + 1) is Err);
    lemma_entries_stop(meta, root, entries, i + 1);
}

// Acquisition.

pub open spec fn count_char(s: Text, c: char) -> nat
    decreases s.len(),
{
    if s.len() == 0 {
        0
    } else {
        count_char(s.drop_last(), c) + if s.last() == c {
            1nat
        } else {
            0nat
        }
    }
}

/// Whether a source is `owner/repository` on GitHub.
pub open spec fn is_shorthand(source: Text) -> bool {
    count_char(source, '/') == 1 && !source.contains(':') && !(source.len() > 0 && source[0] == '.')
}

/// The Git addresses to try for a source, in order.
pub open spec fn candidates_of(source: Text) -> Seq<Text> {
    if is_shorthand(source) {
        seq![
            "https://github.com/"@ + source + ".git"@,
            "git@github.com:"@ + source + ".git"@,
        ]
    } else {
        seq![source]
    }
}

pub fn clone_candidates(source: &str) -> (r: Vec<String>)
    ensures
        views(r@) == candidates_of(source@),
{
    let v = chars_of(source);
    let mut slashes: usize = 0;
    let mut i: usize = 0;
    while i < v.len()
        invariant
            i <= v.len(),
            v@ == source@,
            slashes <= i,
            slashes == count_char(source@.take(i as int), '/'),
        decreases v.len() - i,
    {
        if v[i] == '/' {
            slashes = slashes + 1;
        }
        i = i + 1;
        assert(source@.take(i as int).drop_last() =~= source@.take(i - 1));
    }
    assert(source@.take(i as int) =~= source@);
    let mut out: Vec<String> = Vec::new();
    if slashes == 1 && !has_char(source, ':') && !(v.len() > 0 && v[0] == '.') {
        out.push(cat3("https://github.com/", source, ".git"));
        out.push(cat3("git@github.com:", source, ".git"));
    } else {
        out.push(source.to_owned());
    }
    assert(views(out@) =~= candidates_of(source@));
    out
}

/// What to do next while a catalog is cloned.
#[derive(Debug)]
pub enum CloneStep {
    /// Clone this address.
    Try(String),
    /// No address is left.
    Fail(Failure),
}

/// The next step after the attempts that ended with `failures`, one for each address tried.
pub fn next_clone(source: &str, failures: &Vec<String>) -> (r: CloneStep)
    ensures
        match r {
            CloneStep::Try(address) => failures@.len() < candidates_of(source@).len() && address@
                == candidates_of(source@)[failures@.len() as int],
            CloneStep::Fail(f) => failures@.len() >= candidates_of(source@).len() && f@
                == "failed to clone catalog "@ + source@ + ": "@ + trim(
                join(views(failures@), " | "@),
            ),
        },
{
    let candidates = clone_candidates(source);
    let ghost all = candidates_of(source@);
    assert(candidates.len() == all.len());
    if failures.len() < candidates.len() {
        assert(views(candidates@)[failures@.len() as int] == all[failures@.len() as int]);
        CloneStep::Try(candidates[failures.len()].clone())
    } else {
        let causes = joined(failures, " | ");
        CloneStep::Fail(
            Failure::new(
                cat4(
                    "failed to clone catalog ",
                    source,
                    ": ",
                    trimmed(causes.as_str()).as_str(),
                ),
            ),
        )
    }
}

pub open spec fn synced_skills(alias: Text, snapshot: CatalogSnapshot) -> Result<Skills, Text> {
    match alias_refusal(alias) {
        Some(m) => Err(m),
        None => catalog_skills(snapshot),
    }
}

/// `index` is the catalog that a registration and a snapshot describe.
pub open spec fn indexes(
    index: CatalogIndex,
    alias: Text,
    registration: CatalogRegistration,
    snapshot: CatalogSnapshot,
) -> bool {
    &&& synced_skills(alias, snapshot) == Ok::<Skills, Text>(skills_of(index.skills@))
    &&& index.alias@ == alias
    &&& index.source@ == registration.source@
    &&& index.root@ == snapshot.root@
    &&& index.metadata@ == snapshot_metadata(snapshot)
    &&& sound(index)
}

/// The index of a registered catalog whose content was read.
pub fn sync_catalog(
    alias: &str,
    registration: &CatalogRegistration,
    snapshot: &CatalogSnapshot,
) -> (r: Result<CatalogIndex, Failure>)
    ensures
        match r {
            Ok(index) => indexes(index, alias@, *registration, *snapshot),
            Err(f) => synced_skills(alias@, *snapshot) == Err::<Skills, Text>(f@),
        },
{
    match validate_alias(alias) {
        Ok(_) => {},
        Err(f) => return Err(f),
    }
    scan_catalog(alias, registration.source.as_str(), snapshot)
}

pub open spec fn sync_faults(config: GlobalConfig, snapshots: Seq<CatalogSnapshot>) -> spec_fn(int) -> Option<
    Text,
> {
    |i: int|
        match synced_skills(config.catalogs.names()[i], snapshots[i]) {
            Ok(_) => None,
            Err(m) => Some(m),
        }
}

/// The indexes of all registered catalogs; `snapshots` holds what was read of each, in alias
/// order. The first catalog that is refused refuses all.
pub fn sync_registered_catalogs(config: &GlobalConfig, snapshots: &Vec<CatalogSnapshot>) -> (r: Result<
    NameMap<CatalogIndex>,
    Failure,
>)
    requires
        snapshots@.len() == config.catalogs.names().len(),
    ensures
        match r {
            Ok(catalogs) => {
                &&& catalogs@.dom() == config.catalogs@.dom()
                &&& forall|i: int|
                    0 <= i < snapshots@.len() ==> indexes(
                        catalogs@[#[trigger] config.catalogs.names()[i]],
                        config.catalogs.names()[i],
                        config.catalogs@[config.catalogs.names()[i]],
                        snapshots@[i],
                    )
                &&& first_refusal(
                    snapshots@.len() as int,
                    sync_faults(*config, snapshots@),
                ) is None
            },
            Err(f) => first_refusal(snapshots@.len() as int, sync_faults(*config, snapshots@))
                == Some(f@),
        },
{
    let n: usize = config.catalogs.len();
    let ghost names = config.catalogs.names();
    let ghost faults = sync_faults(*config, snapshots@);
    let mut out: NameMap<CatalogIndex> = NameMap::new();
    let mut i: usize = 0;
    assert(names.take(0).to_set() =~= Set::<Text>::empty());
    while i < n
        invariant
            i <= n == names.len(),
            names == config.catalogs.names(),
            config.catalogs.ordered(),
            snapshots@.len() == n,
            faults == sync_faults(*config, snapshots@),
            forall|j: int| 0 <= j < i ==> (#[trigger] faults(j)) is None,
            out@.dom() == names.take(i as int).to_set(),
            forall|j: int|
                0 <= j < i ==> indexes(
                    out@[#[trigger] names[j]],
                    names[j],
                    config.catalogs@[names[j]],
                    snapshots@[j],
                ),
        decreases n - i,
    {
        let alias = config.catalogs.name_at(i);
        match sync_catalog(alias.as_str(), config.catalogs.value_at(i), &snapshots[i]) {
            Ok(index) => {
                assert(faults(i as int) is None);
                let ghost prior = out@;
                proof {
                    lemma_take_set(names, i as int);
                }
                out.insert(alias.clone(), index);
                assert forall|j: int| 0 <= j < i + 1 implies indexes(
                    out@[#[trigger] names[j]],
                    names[j],
                    config.catalogs@[names[j]],
                    snapshots@[j],
                ) by {
                    if j < i {
                        assert(names[j] != names[i as int]);
                        assert(out@[names[j]] == prior[names[j]]);
                    }
                }
            },
            Err(f) => {
                proof {
                    assert(faults(i as int) is Some);
                    lemma_first_refusal_some(n as int, faults, i as int);
                }
                return Err(f);
            },
        }
        i = i + 1;
    }
    proof {
        lemma_first_refusal_none(n as int, faults);
        lemma_take_all(names);
    }
    Ok(out)
}

pub open spec fn alias_faults(config: GlobalConfig) -> spec_fn(int) -> Option<Text> {
    |i: int| alias_refusal(config.catalogs.names()[i])
}

/// Why a global configuration is refused.
pub open spec fn config_refusal(config: GlobalConfig) -> Option<Text> {
    match schema_refusal(config.version, "global config"@) {
        Some(m) => Some(m),
        None => first_refusal(config.catalogs.names().len() as int, alias_faults(config)),
    }
}

/// Accepts a global configuration that was read.
pub fn load_global_config(config: GlobalConfig) -> (r: Result<GlobalConfig, Failure>)
    ensures
        match r {
            Ok(c) => config_refusal(config) is None && c == config,
            Err(f) => config_refusal(config) == Some(f@),
        },
{
    match validate_schema(config.version, "global config") {
        Ok(_) => {},
        Err(f) => return Err(f),
    }
    let n: usize = config.catalogs.len();
    let ghost faults = alias_faults(config);
    let mut i: usize = 0;
    while i < n
        invariant
            i <= n == config.catalogs.names().len(),
            faults == alias_faults(config),
            schema_refusal(config.version, "global config"@) is None,
            forall|j: int| 0 <= j < i ==> (#[trigger] faults(j)) is None,
        decreases n - i,
    {
        match validate_alias(config.catalogs.name_at(i).as_str()) {
            Ok(_) => {
                assert(faults(i as int) is None);
            },
            Err(f) => {
                proof {
                    assert(faults(i as int) is Some);
                    lemma_first_refusal_some(n as int, faults, i as int);
                }
                return Err(f);
            },
        }
        i = i + 1;
    }
    proof {
        lemma_first_refusal_none(n as int, faults);
    }
    Ok(config)
}

/// Why a new registration is refused.
pub open spec fn registration_refusal(config: GlobalConfig, alias: Text, source: Text) -> Option<Text> {
    match alias_refusal(alias) {
        Some(m) => Some(m),
        None => if trim(source).len() == 0 {
            Some("catalog source cannot be empty"@)
        } else if config.catalogs@.contains_key(alias) {
            Some("catalog alias already exists: "@ + alias)
        } else {
            None
        },
    }
}

/// Checks a new registration before its content is read.
pub fn check_registration(config: &GlobalConfig, alias: &str, source: &str) -> (r: Result<(), Failure>)
    ensures
        refusal(r) == registration_refusal(*config, alias@, source@),
{
    match validate_alias(alias) {
        Ok(_) => {},
        Err(f) => return Err(f),
    }
    if empty(trimmed(source).as_str()) {
        return Err(Failure::new(String::from_str("catalog source cannot be empty")));
    }
    if config.catalogs.contains(alias) {
        return Err(Failure::new(cat2("catalog alias already exists: ", alias)));
    }
    Ok(())
}

/// Why a catalog is not added.
pub open spec fn addition_refusal(config: GlobalConfig, alias: Text, source: Text, snapshot: CatalogSnapshot) -> Option<
    Text,
> {
    match registration_refusal(config, alias, source) {
        Some(m) => Some(m),
        None => match synced_skills(alias, snapshot) {
            Err(m) => Some(m),
            Ok(_) => None,
        },
    }
}

/// Registers a catalog whose content was read. The result is the new configuration and the
/// sentence that reports it.
pub fn add_catalog(config: &GlobalConfig, alias: &str, source: &str, snapshot: &CatalogSnapshot) -> (r: Result<
    (GlobalConfig, String),
    Failure,
>)
    ensures
        match r {
            Ok((next, report)) => {
                &&& addition_refusal(*config, alias@, source@, *snapshot) is None
                &&& next.version == config.version
                &&& next.skills@ == config.skills@
                &&& next.agents@ == config.agents@
                &&& next.catalogs@ == config.catalogs@.insert(alias@, next.catalogs@[alias@])
                &&& next.catalogs@[alias@].source@ == source@
                &&& next.catalogs@[alias@].reference is None
                &&& next.catalogs@[alias@].authoring_root is None
                &&& report@ == ({
                    let n = synced_skills(alias@, *snapshot)->Ok_0.dom().len();
                    "added catalog "@ + alias@ + ": "@ + decimal(n) + " skill"@ + plural(n)
                        + " from "@ + source@
                })
            },
            Err(f) => addition_refusal(*config, alias@, source@, *snapshot) == Some(f@),
        },
{
    match check_registration(config, alias, source) {
        Ok(_) => {},
        Err(f) => return Err(f),
    }
    let registration = CatalogRegistration {
        source: source.to_owned(),
        reference: None,
        authoring_root: None,
    };
    let index = match sync_catalog(alias, &registration, snapshot) {
        Ok(index) => index,
        Err(f) => return Err(f),
    };
    let n: usize = index.skills.len();
    proof {
        let found = synced_skills(alias@, *snapshot)->Ok_0;
        assert(found.dom() =~= index.skills.names().to_set());
        index.skills.names().unique_seq_to_set();
    }
    let mut next = config.clone();
    next.catalogs.insert(alias.to_owned(), registration);
    assert(next.catalogs@ =~= config.catalogs@.insert(alias@, next.catalogs@[alias@]));
    let mut report = cat5("added catalog ", alias, ": ", decimal_of(n as u64).as_str(), " skill");
    report.append(plural_ending(n));
    report.append(" from ");
    report.append(source);
    Ok((next, report))
}

/// Why a catalog is not configured.
pub open spec fn configuration_refusal(alias: Text, source: Text, snapshot: CatalogSnapshot) -> Option<Text> {
    match alias_refusal(alias) {
        Some(m) => Some(m),
        None => if trim(source).len() == 0 {
            Some("catalog source cannot be empty"@)
        } else {
            match catalog_skills(snapshot) {
                Err(m) => Some(m),
                Ok(_) => None,
            }
        },
    }
}

/// Registers a catalog, or replaces its registration, once the content of the new source was
/// read. The result is the new configuration and the sentence that reports it.
pub fn configure_catalog(
    config: &GlobalConfig,
    alias: &str,
    registration: CatalogRegistration,
    snapshot: &CatalogSnapshot,
) -> (r: Result<(GlobalConfig, String), Failure>)
    ensures
        match r {
            Ok((next, report)) => {
                &&& configuration_refusal(alias@, registration.source@, *snapshot) is None
                &&& next.version == config.version
                &&& next.skills@ == config.skills@
                &&& next.agents@ == config.agents@
                &&& next.catalogs@ == config.catalogs@.insert(alias@, registration)
                &&& report@ == ({
                    let n = catalog_skills(*snapshot)->Ok_0.dom().len();
                    "configured catalog "@ + alias@ + ": "@ + decimal(n) + " skill"@ + plural(n)
                        + " from "@ + registration.source@
                })
            },
            Err(f) => configuration_refusal(alias@, registration.source@, *snapshot) == Some(f@),
        },
{
    match validate_alias(alias) {
        Ok(_) => {},
        Err(f) => return Err(f),
    }
    if empty(trimmed(registration.source.as_str()).as_str()) {
        return Err(Failure::new(String::from_str("catalog source cannot be empty")));
    }
    let index = match scan_catalog(alias, registration.source.as_str(), snapshot) {
        Ok(index) => index,
        Err(f) => return Err(f),
    };
    let n: usize = index.skills.len();
    proof {
        let found = catalog_skills(*snapshot)->Ok_0;
        assert(found.dom() =~= index.skills.names().to_set());
        index.skills.names().unique_seq_to_set();
    }
    let mut report = cat5(
        "configured catalog ",
        alias,
        ": ",
        decimal_of(n as u64).as_str(),
        " skill",
    );
    report.append(plural_ending(n));
    report.append(" from ");
    report.append(registration.source.as_str());
    let mut next = config.clone();
    next.catalogs.insert(alias.to_owned(), registration);
    assert(next.catalogs@ =~= config.catalogs@.insert(alias@, registration));
    Ok((next, report))
}

} // verus!
