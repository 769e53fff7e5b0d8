//! From a configuration to the skills that are to be installed: the selected skills, what
//! they require, their effective modes and their digests.

use vstd::prelude::*;
use crate::catalog::{requirements, skills_of, CatalogIndex, CatalogSkill, CatalogSkillView, Skills};
use crate::digest::{absorb_field, absorb_text, FNV_BASIS};
use crate::failure::{
    first_refusal, first_where, lemma_first_refusal_none, lemma_first_refusal_some,
    lemma_first_where_none, lemma_first_where_some, Failure,
};
use crate::graph::closed;
use crate::model::{
    lemma_take_all, lemma_take_set, selected_ignore, selected_mode, EffectiveMode, ProjectConfig,
    SelectionMode, SkillSelection,
};
use crate::name_map::{lemma_walk, walk, NameMap, NameSet};
use crate::text::{
    cat2, cat3, cat4, cat5, cut, empty, find_char, has_char, hex, hex_of, lemma_find_char_bound,
    same, split_once, views, Text,
};

verus! {

// Keys.

/// The key of a skill in configuration and state.
pub open spec fn key_of(alias: Text, name: Text) -> Text {
    alias + "/"@ + name
}

/// The alias and the skill name of a key.
pub open spec fn key_parts(key: Text) -> Option<(Text, Text)> {
    match cut(key, '/') {
        Some((alias, name)) => if alias.len() > 0 && name.len() > 0 && !name.contains('/') {
            Some((alias, name))
        } else {
            None
        },
        None => None,
    }
}

pub open spec fn bad_key(key: Text) -> Text {
    "invalid catalog skill identifier: "@ + key
}

pub fn split_key(key: &str) -> (r: Result<(String, String), Failure>)
    ensures
        match r {
            Ok((alias, name)) => key_parts(key@) == Some((alias@, name@)),
            Err(f) => key_parts(key@) is None && f@ == bad_key(key@),
        },
{
    match split_once(key, '/') {
        Some((alias, name)) => {
            if !empty(alias.as_str()) && !empty(name.as_str()) && !has_char(name.as_str(), '/') {
                return Ok((alias, name));
            }
        },
        None => {},
    }
    Err(Failure::new(cat2("invalid catalog skill identifier: ", key)))
}

/// What stands before the first `/` of a key.
pub open spec fn alias_of(key: Text) -> Option<Text> {
    match cut(key, '/') {
        Some((alias, _)) => Some(alias),
        None => None,
    }
}

pub fn key_alias(key: &str) -> (r: Option<String>)
    ensures
        crate::text::opt_view(r) == alias_of(key@),
{
    match split_once(key, '/') {
        Some((alias, _)) => Some(alias),
        None => None,
    }
}

/// The parts of a key make it up.
pub proof fn lemma_key_parts(key: Text)
    requires
        key_parts(key) is Some,
    ensures
        key == key_of(key_parts(key)->Some_0.0, key_parts(key)->Some_0.1),
{
    reveal_strlit("/");
    lemma_find_char_bound(key, '/');
    let i = find_char(key, '/');
    let (a, n) = key_parts(key)->Some_0;
    assert("/"@ =~= seq!['/']);
    assert(key =~= a + "/"@ + n);
}

// Catalogs.

/// The skills of every catalog, in contracts.
pub type Catalogs = Map<Text, Skills>;

pub open spec fn catalogs_of(m: Map<Text, CatalogIndex>) -> Catalogs {
    m.map_values(|c: CatalogIndex| skills_of(c.skills@))
}

/// Every dependency of every catalog exists.
pub open spec fn all_closed(cats: Catalogs) -> bool {
    forall|a: Text| #[trigger] cats.contains_key(a) ==> closed(requirements(cats[a]))
}

/// The skill that a key names, or why there is none.
pub open spec fn lookup(cats: Catalogs, key: Text) -> Result<(Text, Text), Text> {
    match key_parts(key) {
        None => Err(bad_key(key)),
        Some((alias, name)) => if !cats.contains_key(alias) {
            Err("configuration references unregistered catalog: "@ + alias)
        } else if !cats[alias].contains_key(name) {
            Err("catalog "@ + alias + " has no skill named "@ + name)
        } else {
            Ok((alias, name))
        },
    }
}

pub fn find_skill<'a>(catalogs: &'a NameMap<CatalogIndex>, key: &str) -> (r: Result<
    (String, String, &'a CatalogIndex, &'a CatalogSkill),
    Failure,
>)
    ensures
        match r {
            Ok((alias, name, catalog, skill)) => {
                &&& lookup(catalogs_of(catalogs@), key@) == Ok::<(Text, Text), Text>((alias@, name@))
                &&& catalogs@.contains_key(alias@)
                &&& *catalog == catalogs@[alias@]
                &&& catalog.skills@.contains_key(name@)
                &&& *skill == catalog.skills@[name@]
                &&& skill@ == catalogs_of(catalogs@)[alias@][name@]
            },
            Err(f) => lookup(catalogs_of(catalogs@), key@) == Err::<(Text, Text), Text>(f@),
        },
{
    let (alias, name) = match split_key(key) {
        Ok(parts) => parts,
        Err(f) => return Err(f),
    };
    let catalog = match catalogs.get(alias.as_str()) {
        Some(catalog) => catalog,
        None => {
            return Err(
                Failure::new(
                    cat2("configuration references unregistered catalog: ", alias.as_str()),
                ),
            );
        },
    };
    match catalog.skills.get(name.as_str()) {
        Some(skill) => Ok((alias, name, catalog, skill)),
        None => Err(
            Failure::new(
                cat4("catalog ", alias.as_str(), " has no skill named ", name.as_str()),
            ),
        ),
    }
}

/// The keys of all catalog skills.
pub open spec fn universe(cats: Catalogs) -> Set<Text> {
    Set::new(
        |k: Text|
            exists|a: Text, n: Text|
                cats.contains_key(a) && cats[a].contains_key(n) && k == #[trigger] key_of(a, n),
    )
}

fn all_keys(catalogs: &NameMap<CatalogIndex>) -> (r: NameSet)
    ensures
        r@ == universe(catalogs_of(catalogs@)),
        r.ordered(),
{
    let ghost cats = catalogs_of(catalogs@);
    let mut out = NameSet::new();
    let n: usize = catalogs.len();
    let ghost aliases = catalogs.names();
    let mut i: usize = 0;
    while i < n
        invariant
            i <= n == aliases.len(),
            aliases == catalogs.names(),
            catalogs.ordered(),
            cats == catalogs_of(catalogs@),
            forall|k: Text| #[trigger] out@.contains(k) ==> universe(cats).contains(k),
            forall|j: int, name: Text|
                0 <= j < i && cats[aliases[j]].contains_key(name) ==> out@.contains(
                    #[trigger] key_of(aliases[j], name),
                ),
        decreases n - i,
    {
        let alias = catalogs.name_at(i);
        let skills = &catalogs.value_at(i).skills;
        let m: usize = skills.len();
        let ghost names = skills.names();
        let mut k: usize = 0;
        assert(cats.contains_key(alias@));
        assert(cats[alias@] == skills_of(skills@));
        while k < m
            invariant
                i < n == aliases.len(),
                k <= m == names.len(),
                names == skills.names(),
                skills.ordered(),
                alias@ == aliases[i as int],
                cats.contains_key(alias@),
                cats[alias@] == skills_of(skills@),
                forall|k: Text| #[trigger] out@.contains(k) ==> universe(cats).contains(k),
                forall|j: int, name: Text|
                    0 <= j < i && cats[aliases[j]].contains_key(name) ==> out@.contains(
                        #[trigger] key_of(aliases[j], name),
                    ),
                forall|j: int|
                    0 <= j < k ==> out@.contains(key_of(alias@, #[trigger] names[j])),
            decreases m - k,
        {
            let name = skills.name_at(k);
            let key = cat3(alias.as_str(), "/", name.as_str());
            assert(cats[alias@].contains_key(name@));
            assert(key@ == key_of(alias@, name@));
            assert(universe(cats).contains(key@));
            let _ = out.insert(key);
            k = k + 1;
        }
        assert forall|j: int, name: Text| 0 <= j < i + 1 && cats[aliases[j]].contains_key(
            name,
        ) implies out@.contains(#[trigger] key_of(aliases[j], name)) by {
            if j == i {
                assert(names.to_set().contains(name));
                let at = names.index_of(name);
                assert(names[at] == name);
            }
        }
        i = i + 1;
    }
    proof {
        assert forall|k: Text| universe(cats).contains(k) implies out@.contains(k) by {
            let (a, name) = choose|a: Text, n: Text|
                cats.contains_key(a) && cats[a].contains_key(n) && k == #[trigger] key_of(a, n);
            assert(aliases.to_set().contains(a));
            let at = aliases.index_of(a);
            assert(aliases[at] == a);
            assert(out@.contains(key_of(aliases[at], name)));
        }
        assert(out@ =~= universe(cats));
    }
    let _ = out.len();
    out
}

// Dependency closure.

/// The keys that something visited requires, and the keys visited.
pub struct Closure {
    pub required: Set<Text>,
    pub visited: Set<Text>,
}

/// Visits a key and everything that it requires. In project scope global dependencies are
/// left to the global installation; in global scope a project-only one is refused.
pub open spec fn reach(cats: Catalogs, global: bool, key: Text, at: Closure, depth: nat) -> Result<Closure, Text>
    decreases depth, 0nat,
{
    if at.visited.contains(key) {
        Ok(at)
    } else {
        match lookup(cats, key) {
            Err(e) => Err(e),
            Ok((alias, name)) => {
                let next = Closure { visited: at.visited.insert(key), ..at };
                if depth == 0 {
                    Ok(next)
                } else {
                    reach_all_of(
                        cats,
                        global,
                        key,
                        alias,
                        cats[alias][name].requires,
                        next,
                        (depth - 1) as nat,
                    )
                }
            },
        }
    }
}

/// Visits the dependencies of `key`.
pub open spec fn reach_all_of(
    cats: Catalogs,
    global: bool,
    key: Text,
    alias: Text,
    dependencies: Seq<Text>,
    at: Closure,
    depth: nat,
) -> Result<Closure, Text>
    decreases depth, dependencies.len(),
{
    if dependencies.len() == 0 {
        Ok(at)
    } else {
        match reach_all_of(cats, global, key, alias, dependencies.drop_last(), at, depth) {
            Err(e) => Err(e),
            Ok(now) => {
                let name = dependencies.last();
                let wide = cats[alias][name].global;
                if global && !wide {
                    Err(
                        "global skill "@ + key + " requires project-only skill "@ + key_of(
                            alias,
                            name,
                        ) + "; mark its dependency closure global"@,
                    )
                } else if !global && wide {
                    Ok(now)
                } else {
                    reach(
                        cats,
                        global,
                        key_of(alias, name),
                        Closure { required: now.required.insert(key_of(alias, name)), ..now },
                        depth,
                    )
                }
            },
        }
    }
}

/// Visits the keys one after another.
pub open spec fn reach_roots(cats: Catalogs, global: bool, roots: Seq<Text>, depth: nat) -> Result<Closure, Text>
    decreases roots.len(),
{
    if roots.len() == 0 {
        Ok(Closure { required: Set::empty(), visited: Set::empty() })
    } else {
        match reach_roots(cats, global, roots.drop_last(), depth) {
            Err(e) => Err(e),
            Ok(now) => reach(cats, global, roots.last(), now, depth),
        }
    }
}

proof fn lemma_reach_all_stops(
    cats: Catalogs,
    global: bool,
    key: Text,
    alias: Text,
    dependencies: Seq<Text>,
    k: int,
    at: Closure,
    depth: nat,
)
    requires
        0 <= k <= dependencies.len(),
        reach_all_of(cats, global, key, alias, dependencies.take(k), at, depth) is Err,
    ensures
        reach_all_of(cats, global, key, alias, dependencies, at, depth) == reach_all_of(
            cats,
            global,
            key,
            alias,
            dependencies.take(k),
            at,
            depth,
        ),
    decreases dependencies.len() - k,
{
    if k == dependencies.len() {
        assert(dependencies.take(k) =~= dependencies);
    } else {
        assert(dependencies.take(k + 1).drop_last() =~= dependencies.take(k));
        lemma_reach_all_stops(cats, global, key, alias, dependencies, k + 1, at, depth);
    }
}

proof fn lemma_reach_roots_stops(cats: Catalogs, global: bool, roots: Seq<Text>, k: int, depth: nat)
    requires
        0 <= k <= roots.len(),
        reach_roots(cats, global, roots.take(k), depth) is Err,
    ensures
        reach_roots(cats, global, roots, depth) == reach_roots(cats, global, roots.take(k), depth),
    decreases roots.len() - k,
{
    if k == roots.len() {
        assert(roots.take(k) =~= roots);
    } else {
        assert(roots.take(k + 1).drop_last() =~= roots.take(k));
        lemma_reach_roots_stops(cats, global, roots, k + 1, depth);
    }
}

fn add_dependency_closure(
    key: &str,
    catalogs: &NameMap<CatalogIndex>,
    global: bool,
    required: &mut NameSet,
    visited: &mut NameSet,
    depth: usize,
) -> (r: Result<(), Failure>)
    requires
        all_closed(catalogs_of(catalogs@)),
    ensures
        match reach(
            catalogs_of(catalogs@),
            global,
            key@,
            (Closure { required: old(required)@, visited: old(visited)@ }),
            depth as nat,
        ) {
            Ok(now) => r is Ok && final(required)@ == now.required && final(visited)@
                == now.visited,
            Err(e) => r matches Err(f) && f@ == e,
        },
    decreases depth,
{
    if visited.contains(key) {
        return Ok(());
    }
    let ghost cats = catalogs_of(catalogs@);
    let ghost start = Closure { required: required@, visited: visited@.insert(key@) };
    let (alias, name, _, skill) = match find_skill(catalogs, key) {
        Ok(found) => found,
        Err(f) => return Err(f),
    };
    let _ = visited.insert(key.to_owned());
    if depth == 0 {
        return Ok(());
    }
    let ghost deps = skill@.requires;
    let mut i: usize = 0;
    assert(deps.take(0) =~= Seq::<Text>::empty());
    while i < skill.requires.len()
        invariant
            i <= skill.requires.len(),
            deps == views(skill.requires@),
            deps == skill@.requires,
            cats == catalogs_of(catalogs@),
            all_closed(cats),
            catalogs@.contains_key(alias@),
            cats[alias@].contains_key(name@),
            cats[alias@][name@] == skill@,
            depth > 0,
            reach(
                cats,
                global,
                key@,
                (Closure { required: old(required)@, visited: old(visited)@ }),
                depth as nat,
            ) == reach_all_of(cats, global, key@, alias@, deps, start, (depth - 1) as nat),
            reach_all_of(
                cats,
                global,
                key@,
                alias@,
                deps.take(i as int),
                start,
                (depth - 1) as nat,
            ) == Ok::<Closure, Text>(Closure { required: required@, visited: visited@ }),
        decreases skill.requires.len() - i,
    {
        let dependency = skill.requires[i].as_str();
        let ghost more = deps.take(i + 1);
        proof {
            assert(more.drop_last() =~= deps.take(i as int));
            assert(more.last() == dependency@);
            let g = requirements(cats[alias@]);
            assert(cats.contains_key(alias@));
            assert(closed(g));
            assert(g.contains_key(name@));
            assert(g[name@] == deps);
            assert(g.contains_key(g[name@][i as int]));
        }
        match catalogs.get(alias.as_str()) {
            None => {},
            Some(catalog) => match catalog.skills.get(dependency) {
                None => {
                    assert(false);
                },
                Some(needed) => {
                    assert(cats[alias@][dependency@] == needed@);
                    let needed_key = cat3(alias.as_str(), "/", dependency);
                    if global && !needed.global {
                        proof {
                            lemma_reach_all_stops(
                                cats,
                                global,
                                key@,
                                alias@,
                                deps,
                                i + 1,
                                start,
                                (depth - 1) as nat,
                            );
                        }
                        return Err(
                            Failure::new(
                                cat5(
                                    "global skill ",
                                    key,
                                    " requires project-only skill ",
                                    needed_key.as_str(),
                                    "; mark its dependency closure global",
                                ),
                            ),
                        );
                    }
                    if global || !needed.global {
                        let _ = required.insert(needed_key.clone());
                        match add_dependency_closure(
                            needed_key.as_str(),
                            catalogs,
                            global,
                            required,
                            visited,
                            depth - 1,
                        ) {
                            Ok(_) => {},
                            Err(f) => {
                                proof {
                                    lemma_reach_all_stops(
                                        cats,
                                        global,
                                        key@,
                                        alias@,
                                        deps,
                                        i + 1,
                                        start,
                                        (depth - 1) as nat,
                                    );
                                }
                                return Err(f);
                            },
                        }
                    }
                },
            },
        }
        i = i + 1;
    }
    assert(deps.take(i as int) =~= deps);
    Ok(())
}

// Resolution.

/// A skill to be installed.
#[derive(Debug)]
pub struct ResolvedSkill<'a> {
    pub key: String,
    pub catalog: &'a CatalogIndex,
    pub source_name: String,
    pub installed_name: String,
    pub mode: EffectiveMode,
    pub gitignore: bool,
    pub digest: String,
}

/// A resolved skill in contracts.
pub struct ResolvedView {
    pub key: Text,
    pub source_name: Text,
    pub installed_name: Text,
    pub mode: EffectiveMode,
    pub gitignore: bool,
    pub digest: Text,
}

impl<'a> View for ResolvedSkill<'a> {
    type V = ResolvedView;

    open spec fn view(&self) -> ResolvedView {
        ResolvedView {
            key: self.key@,
            source_name: self.source_name@,
            installed_name: self.installed_name@,
            mode: self.mode,
            gitignore: self.gitignore,
            digest: self.digest@,
        }
    }
}

pub open spec fn resolved_views(v: Seq<ResolvedSkill>) -> Seq<ResolvedView> {
    Seq::new(v.len(), |i: int| v[i]@)
}

pub open spec fn mode_text(mode: EffectiveMode) -> Text {
    match mode {
        EffectiveMode::Enable => "enable"@,
        EffectiveMode::Manual => "manual"@,
        EffectiveMode::Dependency => "dependency"@,
    }
}

/// The identity of a projection: content, installed name, scope and mode.
pub open spec fn digest_of(skill: CatalogSkillView, installed_name: Text, mode: EffectiveMode) -> Text {
    let scope = match skill.scope {
        Some(s) => s,
        None => ""@,
    };
    hex(
        absorb_field(
            absorb_field(absorb_field(absorb_field(FNV_BASIS, skill.digest), installed_name), scope),
            mode_text(mode),
        ) as nat,
        16,
    )
}

pub fn projected_digest(skill: &CatalogSkill, installed_name: &str, mode: EffectiveMode) -> (r: String)
    ensures
        r@ == digest_of(skill@, installed_name@, mode),
{
    let scope = match &skill.scope {
        Some(s) => s.as_str(),
        None => "",
    };
    let mode_name = match mode {
        EffectiveMode::Enable => "enable",
        EffectiveMode::Manual => "manual",
        EffectiveMode::Dependency => "dependency",
    };
    let mut hash: u64 = FNV_BASIS;
    hash = absorb_text(hash, skill.digest.as_str());
    hash = absorb_text(hash, installed_name);
    hash = absorb_text(hash, scope);
    hash = absorb_text(hash, mode_name);
    hex_of(hash, 16)
}

/// What a skill is installed as: a required one is open to agents whatever was selected, and
/// an unselected one is for agents only.
pub open spec fn effective(selection: Option<SkillSelection>, required: bool) -> EffectiveMode {
    match selection {
        None => EffectiveMode::Dependency,
        Some(s) => if selected_mode(s) == SelectionMode::Enable || required {
            EffectiveMode::Enable
        } else {
            EffectiveMode::Manual
        },
    }
}

pub open spec fn selection_at(skills: Map<Text, SkillSelection>, key: Text) -> Option<SkillSelection> {
    if skills.contains_key(key) {
        Some(skills[key])
    } else {
        None
    }
}

/// The catalog skill of a key that `lookup` finds.
pub open spec fn skill_at(cats: Catalogs, key: Text) -> CatalogSkillView {
    cats[key_parts(key)->Some_0.0][key_parts(key)->Some_0.1]
}

pub open spec fn resolved_at(
    cats: Catalogs,
    skills: Map<Text, SkillSelection>,
    required: Set<Text>,
    key: Text,
) -> ResolvedView {
    let skill = skill_at(cats, key);
    let selection = selection_at(skills, key);
    let mode = effective(selection, required.contains(key));
    ResolvedView {
        key,
        source_name: key_parts(key)->Some_0.1,
        installed_name: skill.installed_name,
        mode,
        gitignore: selection is Some && selected_ignore(selection->Some_0),
        digest: digest_of(skill, skill.installed_name, mode),
    }
}

pub open spec fn scope_word(global: bool) -> Text {
    if global {
        "global"@
    } else {
        "project"@
    }
}

pub open spec fn same_name(cats: Catalogs, keys: Seq<Text>, i: int) -> spec_fn(int) -> bool {
    |j: int| skill_at(cats, keys[j]).installed_name == skill_at(cats, keys[i]).installed_name
}

/// Why the skill of `keys[i]` cannot be installed after those before it.
pub open spec fn resolve_faults(
    cats: Catalogs,
    skills: Map<Text, SkillSelection>,
    global: bool,
    keys: Seq<Text>,
) -> spec_fn(int) -> Option<Text> {
    |i: int|
        {
            let key = keys[i];
            let skill = skill_at(cats, key);
            match lookup(cats, key) {
                Err(e) => Some(e),
                Ok(_) => if skills.contains_key(key) && skill.global != global {
                    Some(
                        scope_word(skill.global) + " skill "@ + key + " cannot be selected in "@
                            + scope_word(global) + " configuration"@,
                    )
                } else if global && skills.contains_key(key) && selected_ignore(skills[key]) {
                    Some("global skill "@ + key + " cannot use project Git ignore state"@)
                } else {
                    match first_where(i, same_name(cats, keys, i)) {
                        Some(j) => Some(
                            "installed skill name collision: "@ + keys[j] + " and "@ + key
                                + " both become "@ + skill.installed_name,
                        ),
                        None => None,
                    }
                },
            }
        }
}

/// What a configuration installs, in key order, or why it is refused.
pub open spec fn resolution(cats: Catalogs, skills: Map<Text, SkillSelection>, global: bool) -> Result<
    Seq<ResolvedView>,
    Text,
> {
    match reach_roots(cats, global, walk(skills.dom()), universe(cats).len()) {
        Err(e) => Err(e),
        Ok(closure) => {
            let keys = walk(skills.dom().union(closure.required));
            match first_refusal(keys.len() as int, resolve_faults(cats, skills, global, keys)) {
                Some(e) => Err(e),
                None => Ok(
                    Seq::new(
                        keys.len(),
                        |i: int| resolved_at(cats, skills, closure.required, keys[i]),
                    ),
                ),
            }
        },
    }
}

/// The keys of a configuration and those that something requires.
fn selected_names(skills: &NameMap<SkillSelection>, required: &NameSet) -> (r: NameSet)
    ensures
        r@ == skills@.dom().union(required@),
        r.ordered(),
{
    let mut out = required.clone();
    let n: usize = skills.len();
    let ghost names = skills.names();
    let mut i: usize = 0;
    assert(required@.union(names.take(0).to_set()) =~= required@);
    while i < n
        invariant
            i <= n == names.len(),
            names == skills.names(),
            out@ == required@.union(names.take(i as int).to_set()),
        decreases n - i,
    {
        proof {
            lemma_take_set(names, i as int);
        }
        let _ = out.insert(skills.name_at(i).clone());
        i = i + 1;
        assert(out@ =~= required@.union(names.take(i as int).to_set()));
    }
    proof {
        lemma_take_all(names);
        assert(out@ =~= skills@.dom().union(required@));
    }
    let _ = out.len();
    out
}

/// Resolves a configuration against the catalogs.
pub fn resolve_manifest<'a>(
    manifest: &ProjectConfig,
    catalogs: &'a NameMap<CatalogIndex>,
    global: bool,
) -> (r: Result<Vec<ResolvedSkill<'a>>, Failure>)
    requires
        all_closed(catalogs_of(catalogs@)),
    ensures
        match r {
            Ok(resolved) => {
                &&& resolution(catalogs_of(catalogs@), manifest.skills@, global) == Ok::<
                    Seq<ResolvedView>,
                    Text,
                >(resolved_views(resolved@))
                &&& forall|i: int|
                    0 <= i < resolved@.len() ==> coherent(#[trigger] resolved@[i], catalogs@)
            },
            Err(f) => resolution(catalogs_of(catalogs@), manifest.skills@, global) == Err::<
                Seq<ResolvedView>,
                Text,
            >(f@),
        },
{
    let ghost cats = catalogs_of(catalogs@);
    let ghost chosen = manifest.skills@;
    let keys_known = all_keys(catalogs);
    let depth: usize = keys_known.len();
    proof {
        keys_known.names().unique_seq_to_set();
        assert(universe(cats).len() == depth);
    }
    let mut required = NameSet::new();
    let mut visited = NameSet::new();
    let n: usize = manifest.skills.len();
    let ghost roots = manifest.skills.names();
    proof {
        lemma_walk(roots);
        assert(roots.take(0) =~= Seq::<Text>::empty());
    }
    let mut i: usize = 0;
    while i < n
        invariant
            i <= n == roots.len(),
            roots == manifest.skills.names(),
            roots == walk(chosen.dom()),
            chosen == manifest.skills@,
            cats == catalogs_of(catalogs@),
            all_closed(cats),
            depth == universe(cats).len(),
            reach_roots(cats, global, roots.take(i as int), depth as nat) == Ok::<Closure, Text>(
                Closure { required: required@, visited: visited@ },
            ),
        decreases n - i,
    {
        let key = manifest.skills.name_at(i);
        proof {
            let more = roots.take(i + 1);
            assert(more.drop_last() =~= roots.take(i as int));
            assert(more.last() == key@);
        }
        match add_dependency_closure(
            key.as_str(),
            catalogs,
            global,
            &mut required,
            &mut visited,
            depth,
        ) {
            Ok(_) => {},
            Err(f) => {
                proof {
                    lemma_reach_roots_stops(cats, global, roots, i + 1, depth as nat);
                }
                return Err(f);
            },
        }
        i = i + 1;
    }
    assert(roots.take(i as int) =~= roots);
    let selected = selected_names(&manifest.skills, &required);
    let total: usize = selected.len();
    let ghost keys = selected.names();
    proof {
        lemma_walk(keys);
    }
    let ghost faults = resolve_faults(cats, chosen, global, keys);
    let ghost needed = required@;
    let mut out: Vec<ResolvedSkill<'a>> = Vec::new();
    let mut k: usize = 0;
    while k < total
        invariant
            k <= total == keys.len(),
            keys == selected.names(),
            selected.ordered(),
            selected@ == chosen.dom().union(needed),
            keys == walk(chosen.dom().union(needed)),
            needed == required@,
            chosen == manifest.skills@,
            cats == catalogs_of(catalogs@),
            faults == resolve_faults(cats, chosen, global, keys),
            reach_roots(cats, global, walk(chosen.dom()), universe(cats).len()) matches Ok(c)
                && c.required == needed,
            forall|j: int| 0 <= j < k ==> (#[trigger] faults(j)) is None,
            out@.len() == k,
            forall|j: int|
                0 <= j < k ==> (#[trigger] out@[j])@ == resolved_at(cats, chosen, needed, keys[j])
                    && coherent(out@[j], catalogs@),
        decreases total - k,
    {
        let key = selected.name_at(k);
        let (alias, name, catalog, skill) = match find_skill(catalogs, key.as_str()) {
            Ok(found) => found,
            Err(f) => {
                proof {
                    assert(faults(k as int) == Some(f@));
                    lemma_first_refusal_some(total as int, faults, k as int);
                }
                return Err(f);
            },
        };
        assert(skill@ == skill_at(cats, key@));
        let selection = manifest.skills.get(key.as_str());
        let gitignore = match selection {
            Some(s) => s.gitignore(),
            None => false,
        };
        if selection.is_some() && skill.global != global {
            proof {
                assert(faults(k as int) is Some);
                lemma_first_refusal_some(total as int, faults, k as int);
            }
            let mut message = cat5(
                if skill.global { "global" } else { "project" },
                " skill ",
                key.as_str(),
                " cannot be selected in ",
                if global { "global" } else { "project" },
            );
            message.append(" configuration");
            return Err(Failure::new(message));
        }
        if global && gitignore {
            proof {
                assert(faults(k as int) is Some);
                lemma_first_refusal_some(total as int, faults, k as int);
            }
            return Err(
                Failure::new(
                    cat3("global skill ", key.as_str(), " cannot use project Git ignore state"),
                ),
            );
        }
        let mode = match selection {
            Some(s) => match s.mode() {
                SelectionMode::Enable => EffectiveMode::Enable,
                SelectionMode::Manual => if required.contains(key.as_str()) {
                    EffectiveMode::Enable
                } else {
                    EffectiveMode::Manual
                },
            },
            None => EffectiveMode::Dependency,
        };
        let ghost twin = same_name(cats, keys, k as int);
        let mut j: usize = 0;
        while j < out.len()
            invariant
                j <= out.len() == k,
                k < total == keys.len(),
                skill@ == skill_at(cats, key@),
                key@ == keys[k as int],
                lookup(cats, key@) is Ok,
                !(chosen.contains_key(key@) && skill.global != global),
                !(global && chosen.contains_key(key@) && selected_ignore(chosen[key@])),
                faults == resolve_faults(cats, chosen, global, keys),
                twin == same_name(cats, keys, k as int),
                forall|m: int| 0 <= m < j ==> !#[trigger] twin(m),
                forall|m: int| 0 <= m < k ==> (#[trigger] faults(m)) is None,
                forall|m: int|
                    0 <= m < k ==> (#[trigger] out@[m])@ == resolved_at(
                        cats,
                        chosen,
                        needed,
                        keys[m],
                    ),
                keys == walk(chosen.dom().union(needed)),
                reach_roots(cats, global, walk(chosen.dom()), universe(cats).len()) matches Ok(c)
                    && c.required == needed,
                chosen == manifest.skills@,
                cats == catalogs_of(catalogs@),
            decreases out.len() - j,
        {
            assert(out@[j as int]@ == resolved_at(cats, chosen, needed, keys[j as int]));
            if same(out[j].installed_name.as_str(), skill.installed_name.as_str()) {
                proof {
                    assert(twin(j as int));
                    lemma_first_where_some(k as int, twin, j as int);
                    assert(faults(k as int) is Some);
                    lemma_first_refusal_some(total as int, faults, k as int);
                }
                let mut message = cat5(
                    "installed skill name collision: ",
                    out[j].key.as_str(),
                    " and ",
                    key.as_str(),
                    " both become ",
                );
                message.append(skill.installed_name.as_str());
                return Err(Failure::new(message));
            }
            assert(!twin(j as int));
            j = j + 1;
        }
        proof {
            lemma_first_where_none(k as int, twin);
            assert(faults(k as int) is None);
        }
        let digest = projected_digest(skill, skill.installed_name.as_str(), mode);
        let item = ResolvedSkill {
            key: key.clone(),
            catalog,
            source_name: name,
            installed_name: skill.installed_name.clone(),
            mode,
            gitignore,
            digest,
        };
        proof {
            assert(selected@.contains(key@));
            assert(item@ == resolved_at(cats, chosen, needed, keys[k as int]));
        }
        out.push(item);
        k = k + 1;
    }
    proof {
        lemma_first_refusal_none(total as int, faults);
        assert(resolved_views(out@) =~= Seq::new(
            keys.len(),
            |i: int| resolved_at(cats, chosen, needed, keys[i]),
        ));
    }
    Ok(out)
}

/// A resolved skill refers to the catalog and the skill that its key names.
pub open spec fn coherent(skill: ResolvedSkill, catalogs: Map<Text, CatalogIndex>) -> bool {
    &&& lookup(catalogs_of(catalogs), skill.key@) matches Ok((alias, name))
        && name == skill.source_name@ && *skill.catalog == catalogs[alias]
    &&& skill.catalog.skills@.contains_key(skill.source_name@)
}

} // verus!
