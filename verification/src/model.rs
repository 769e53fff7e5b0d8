//! Configuration, catalog metadata and installed state.

use vstd::prelude::*;
use crate::agents::{HostAgent, HostView};
use crate::failure::{first_where, lemma_first_where_none, lemma_first_where_some, refusal, Failure};
use crate::name_map::NameMap;
use crate::text::{
    cat2, cat3, cat4, cat5, chars_of, copy_list, decimal, decimal_of, empty, opt_view, same, views,
    Text,
};

verus! {

pub const SCHEMA_VERSION: u32 = 1;

pub const INSTALLED_STATE_VERSION: u32 = 3;

pub const PREVIOUS_INSTALLED_STATE_VERSION: u32 = 2;

/// The number of the stored form that keeps content baselines. What it holds is at the current
/// version.
pub const BASELINE_STATE_VERSION: u32 = 4;

/// The agents of a configuration that names none.
pub open spec fn builtin_agents(host: HostView) -> Seq<Text> {
    seq!["universal"@, host.name, "pi"@]
}

pub fn default_agents(host: &HostAgent) -> (r: Vec<String>)
    ensures
        views(r@) == builtin_agents(host@),
{
    let mut out: Vec<String> = Vec::new();
    out.push(String::from_str("universal"));
    out.push(host.name.clone());
    out.push(String::from_str("pi"));
    assert(views(out@) =~= builtin_agents(host@));
    out
}

#[derive(Debug, PartialEq, Eq)]
pub struct GlobalConfig {
    pub version: u32,
    pub catalogs: NameMap<CatalogRegistration>,
    pub skills: NameMap<SkillSelection>,
    pub agents: Vec<String>,
}

#[derive(Debug, PartialEq, Eq)]
pub struct CatalogRegistration {
    pub source: String,
    pub reference: Option<String>,
    pub authoring_root: Option<String>,
}

#[derive(Debug, PartialEq, Eq)]
pub struct ProjectConfig {
    pub version: u32,
    pub skills: NameMap<SkillSelection>,
    pub agents: Vec<String>,
}

#[derive(Debug, Clone, Copy, PartialEq, Eq, Structural)]
pub enum SkillSelection {
    Mode(SelectionMode),
    Detailed { mode: SelectionMode, gitignore: bool },
}

#[derive(Debug, Clone, Copy, PartialEq, Eq, Structural)]
pub enum SelectionMode {
    Enable,
    Manual,
}

#[derive(Debug, Clone, Copy, PartialEq, Eq, Structural)]
pub enum EffectiveMode {
    Enable,
    Manual,
    Dependency,
}

/// The mode of a selection.
pub open spec fn selected_mode(s: SkillSelection) -> SelectionMode {
    match s {
        SkillSelection::Mode(mode) => mode,
        SkillSelection::Detailed { mode, .. } => mode,
    }
}

/// Whether a selection asks for a Git ignore entry.
pub open spec fn selected_ignore(s: SkillSelection) -> bool {
    match s {
        SkillSelection::Mode(_) => false,
        SkillSelection::Detailed { gitignore, .. } => gitignore,
    }
}

/// The selection with these parts, in its short form where it has one.
pub open spec fn selection_of(mode: SelectionMode, gitignore: bool) -> SkillSelection {
    if gitignore {
        SkillSelection::Detailed { mode, gitignore: true }
    } else {
        SkillSelection::Mode(mode)
    }
}

impl SkillSelection {
    pub fn mode(&self) -> (r: SelectionMode)
        ensures
            r == selected_mode(*self),
    {
        match self {
            SkillSelection::Mode(mode) => *mode,
            SkillSelection::Detailed { mode, .. } => *mode,
        }
    }

    pub fn gitignore(&self) -> (r: bool)
        ensures
            r == selected_ignore(*self),
    {
        match self {
            SkillSelection::Mode(_) => false,
            SkillSelection::Detailed { gitignore, .. } => *gitignore,
        }
    }

    pub fn from_parts(mode: SelectionMode, gitignore: bool) -> (r: SkillSelection)
        ensures
            r == selection_of(mode, gitignore),
            selected_mode(r) == mode,
            selected_ignore(r) == gitignore,
    {
        if gitignore {
            SkillSelection::Detailed { mode, gitignore }
        } else {
            SkillSelection::Mode(mode)
        }
    }
}

#[derive(Debug, PartialEq, Eq)]
pub struct CatalogMetadata {
    pub version: u32,
    pub scopes: NameMap<ScopeMetadata>,
    pub skills: NameMap<CatalogSkillMetadata>,
    pub renames: NameMap<String>,
}

#[derive(Debug, PartialEq, Eq)]
pub struct ScopeMetadata {
    pub label: Option<String>,
    pub order: i32,
}

#[derive(Debug, PartialEq, Eq)]
pub struct CatalogSkillMetadata {
    pub scope: Option<String>,
    pub global: bool,
}

#[derive(Debug, PartialEq, Eq)]
pub struct InstalledState {
    pub version: u32,
    pub skills: NameMap<InstalledSkill>,
}

#[derive(Debug, PartialEq, Eq)]
pub struct InstalledSkill {
    pub installed_name: String,
    pub mode: EffectiveMode,
    pub gitignore: bool,
    pub digest: Option<String>,
    pub content_digest: Option<String>,
    pub legacy_path: Option<String>,
}

/// An installed skill in contracts.
pub struct InstalledSkillView {
    pub installed_name: Text,
    pub mode: EffectiveMode,
    pub gitignore: bool,
    pub digest: Option<Text>,
    pub content_digest: Option<Text>,
    pub legacy_path: Option<Text>,
}

impl View for InstalledSkill {
    type V = InstalledSkillView;

    open spec fn view(&self) -> InstalledSkillView {
        InstalledSkillView {
            installed_name: self.installed_name@,
            mode: self.mode,
            gitignore: self.gitignore,
            digest: opt_view(self.digest),
            content_digest: opt_view(self.content_digest),
            legacy_path: opt_view(self.legacy_path),
        }
    }
}

/// Installed skills by key, in contracts.
pub open spec fn skills_view(m: Map<Text, InstalledSkill>) -> Map<Text, InstalledSkillView> {
    m.map_values(|s: InstalledSkill| s@)
}

/// Installed state in contracts.
pub struct InstalledStateView {
    pub version: u32,
    pub skills: Map<Text, InstalledSkillView>,
}

impl View for InstalledState {
    type V = InstalledStateView;

    open spec fn view(&self) -> InstalledStateView {
        InstalledStateView { version: self.version, skills: skills_view(self.skills@) }
    }
}

pub fn copy_opt(o: &Option<String>) -> (r: Option<String>)
    ensures
        r == *o,
{
    match o {
        Some(s) => Some(s.clone()),
        None => None,
    }
}

impl Clone for InstalledSkill {
    fn clone(&self) -> (r: InstalledSkill)
        ensures
            r == *self,
    {
        InstalledSkill {
            installed_name: self.installed_name.clone(),
            mode: self.mode,
            gitignore: self.gitignore,
            digest: copy_opt(&self.digest),
            content_digest: copy_opt(&self.content_digest),
            legacy_path: copy_opt(&self.legacy_path),
        }
    }
}

impl Clone for CatalogRegistration {
    fn clone(&self) -> (r: CatalogRegistration)
        ensures
            r == *self,
    {
        CatalogRegistration {
            source: self.source.clone(),
            reference: copy_opt(&self.reference),
            authoring_root: copy_opt(&self.authoring_root),
        }
    }
}

impl Clone for CatalogSkillMetadata {
    fn clone(&self) -> (r: CatalogSkillMetadata)
        ensures
            r == *self,
    {
        CatalogSkillMetadata { scope: copy_opt(&self.scope), global: self.global }
    }
}

impl Clone for ScopeMetadata {
    fn clone(&self) -> (r: ScopeMetadata)
        ensures
            r == *self,
    {
        ScopeMetadata { label: copy_opt(&self.label), order: self.order }
    }
}

/// Catalog metadata in contracts.
pub struct MetadataView {
    pub version: u32,
    pub scopes: Map<Text, ScopeMetadata>,
    pub skills: Map<Text, CatalogSkillMetadata>,
    pub renames: Map<Text, Text>,
}

impl View for CatalogMetadata {
    type V = MetadataView;

    open spec fn view(&self) -> MetadataView {
        MetadataView {
            version: self.version,
            scopes: self.scopes@,
            skills: self.skills@,
            renames: self.renames@.map_values(|s: String| s@),
        }
    }
}

impl Clone for CatalogMetadata {
    fn clone(&self) -> (r: CatalogMetadata)
        ensures
            r@ == self@,
            r.renames@ == self.renames@,
    {
        let scopes = self.scopes.clone();
        let skills = self.skills.clone();
        let renames = self.renames.clone();
        assert(scopes@ =~= self.scopes@);
        assert(skills@ =~= self.skills@);
        assert(renames@ =~= self.renames@);
        CatalogMetadata { version: self.version, scopes, skills, renames }
    }
}

/// The metadata of a catalog without a metadata file.
pub open spec fn no_metadata() -> MetadataView {
    MetadataView {
        version: SCHEMA_VERSION,
        scopes: Map::empty(),
        skills: Map::empty(),
        renames: Map::empty(),
    }
}

impl Clone for GlobalConfig {
    fn clone(&self) -> (r: GlobalConfig)
        ensures
            r.version == self.version,
            r.catalogs@ == self.catalogs@,
            r.catalogs.names() == self.catalogs.names(),
            r.skills@ == self.skills@,
            r.skills.names() == self.skills.names(),
            r.agents@ == self.agents@,
    {
        let catalogs = self.catalogs.clone();
        let skills = self.skills.clone();
        assert(catalogs@ =~= self.catalogs@);
        assert(skills@ =~= self.skills@);
        GlobalConfig { version: self.version, catalogs, skills, agents: copy_list(&self.agents) }
    }
}

impl Clone for ProjectConfig {
    fn clone(&self) -> (r: ProjectConfig)
        ensures
            r.version == self.version,
            r.skills@ == self.skills@,
            r.skills.names() == self.skills.names(),
            r.agents@ == self.agents@,
    {
        let skills = self.skills.clone();
        assert(skills@ =~= self.skills@);
        ProjectConfig { version: self.version, skills, agents: copy_list(&self.agents) }
    }
}

impl Clone for InstalledState {
    fn clone(&self) -> (r: InstalledState)
        ensures
            r.version == self.version,
            r.skills@ == self.skills@,
            r.skills.names() == self.skills.names(),
    {
        let skills = self.skills.clone();
        assert(skills@ =~= self.skills@);
        InstalledState { version: self.version, skills }
    }
}

impl GlobalConfig {
    /// The configuration of a user who has none.
    pub fn new(host: &HostAgent) -> (r: GlobalConfig)
        ensures
            r.version == SCHEMA_VERSION,
            r.catalogs@ == Map::<Text, CatalogRegistration>::empty(),
            r.skills@ == Map::<Text, SkillSelection>::empty(),
            views(r.agents@) == builtin_agents(host@),
    {
        GlobalConfig {
            version: SCHEMA_VERSION,
            catalogs: NameMap::new(),
            skills: NameMap::new(),
            agents: default_agents(host),
        }
    }
}

impl ProjectConfig {
    /// The configuration of a project that has none.
    pub fn new(host: &HostAgent) -> (r: ProjectConfig)
        ensures
            r.version == SCHEMA_VERSION,
            r.skills@ == Map::<Text, SkillSelection>::empty(),
            views(r.agents@) == builtin_agents(host@),
    {
        ProjectConfig { version: SCHEMA_VERSION, skills: NameMap::new(), agents: default_agents(host) }
    }
}

impl Default for CatalogMetadata {
    fn default() -> (r: CatalogMetadata)
        ensures
            r.version == SCHEMA_VERSION,
            r.scopes@ == Map::<Text, ScopeMetadata>::empty(),
            r.skills@ == Map::<Text, CatalogSkillMetadata>::empty(),
            r.renames@ == Map::<Text, String>::empty(),
            r@ == no_metadata(),
    {
        let r = CatalogMetadata {
            version: SCHEMA_VERSION,
            scopes: NameMap::new(),
            skills: NameMap::new(),
            renames: NameMap::new(),
        };
        assert(r@.renames =~= Map::<Text, Text>::empty());
        r
    }
}

impl Default for ScopeMetadata {
    fn default() -> (r: ScopeMetadata)
        ensures
            r.label is None,
            r.order == 0,
    {
        ScopeMetadata { label: None, order: 0 }
    }
}

impl Default for CatalogSkillMetadata {
    fn default() -> (r: CatalogSkillMetadata)
        ensures
            r.scope is None,
            !r.global,
    {
        CatalogSkillMetadata { scope: None, global: false }
    }
}

impl Default for InstalledState {
    fn default() -> (r: InstalledState)
        ensures
            r.version == INSTALLED_STATE_VERSION,
            r.skills@ == Map::<Text, InstalledSkill>::empty(),
    {
        InstalledState { version: INSTALLED_STATE_VERSION, skills: NameMap::new() }
    }
}

/// The one-letter modes of the compact installed state.
#[derive(Debug, Clone, Copy, PartialEq, Eq, Structural)]
pub enum CompactMode {
    E,
    M,
    D,
}

pub open spec fn compact_mode(mode: EffectiveMode) -> CompactMode {
    match mode {
        EffectiveMode::Enable => CompactMode::E,
        EffectiveMode::Manual => CompactMode::M,
        EffectiveMode::Dependency => CompactMode::D,
    }
}

pub open spec fn effective_mode(mode: CompactMode) -> EffectiveMode {
    match mode {
        CompactMode::E => EffectiveMode::Enable,
        CompactMode::M => EffectiveMode::Manual,
        CompactMode::D => EffectiveMode::Dependency,
    }
}

impl CompactMode {
    pub fn of(mode: EffectiveMode) -> (r: CompactMode)
        ensures
            r == compact_mode(mode),
    {
        match mode {
            EffectiveMode::Enable => CompactMode::E,
            EffectiveMode::Manual => CompactMode::M,
            EffectiveMode::Dependency => CompactMode::D,
        }
    }

    pub fn effective(self) -> (r: EffectiveMode)
        ensures
            r == effective_mode(self),
    {
        match self {
            CompactMode::E => EffectiveMode::Enable,
            CompactMode::M => EffectiveMode::Manual,
            CompactMode::D => EffectiveMode::Dependency,
        }
    }
}

/// A skill of the current compact form: name, mode, ignore flag, digest.
#[derive(Debug, PartialEq, Eq)]
pub struct CompactSkill {
    pub installed_name: String,
    pub mode: CompactMode,
    pub gitignore: bool,
    pub digest: String,
}

/// A skill of the compact form with a content baseline, the digest of what was placed.
#[derive(Debug, PartialEq, Eq)]
pub struct BaselineSkill {
    pub skill: CompactSkill,
    pub baseline: String,
}

/// A skill of the previous compact form: name, mode, ignore flag.
#[derive(Debug, PartialEq, Eq)]
pub struct PreviousSkill {
    pub installed_name: String,
    pub mode: CompactMode,
    pub gitignore: bool,
}

/// A skill of the first form.
#[derive(Debug, PartialEq, Eq)]
pub struct LegacyInstalledSkill {
    pub catalog: String,
    pub source_skill: String,
    pub installed_name: String,
    pub path: String,
    pub mode: EffectiveMode,
    pub gitignore: bool,
}

/// The stored forms of the installed state.
#[allow(inconsistent_fields)]
#[derive(Debug, PartialEq, Eq)]
pub enum InstalledStateWire {
    CompactCurrent { v: u32, skills: NameMap<CompactSkill> },
    CompactBaseline { v: u32, skills: NameMap<BaselineSkill> },
    CompactPrevious { v: u32, skills: NameMap<PreviousSkill> },
    Legacy { version: u32, skills: NameMap<LegacyInstalledSkill> },
}

/// A stored digest; an empty one stands for none.
pub open spec fn known(digest: Text) -> Option<Text> {
    if digest.len() == 0 {
        None
    } else {
        Some(digest)
    }
}

fn known_digest(digest: &str) -> (r: Option<String>)
    ensures
        opt_view(r) == known(digest@),
{
    if empty(digest) {
        None
    } else {
        Some(digest.to_owned())
    }
}

pub open spec fn from_compact(s: CompactSkill) -> InstalledSkillView {
    InstalledSkillView {
        installed_name: s.installed_name@,
        mode: effective_mode(s.mode),
        gitignore: s.gitignore,
        digest: known(s.digest@),
        content_digest: None,
        legacy_path: None,
    }
}

pub open spec fn from_baseline(s: BaselineSkill) -> InstalledSkillView {
    InstalledSkillView { content_digest: known(s.baseline@), ..from_compact(s.skill) }
}

fn read_compact(s: &CompactSkill) -> (r: InstalledSkill)
    ensures
        r@ == from_compact(*s),
{
    InstalledSkill {
        installed_name: s.installed_name.clone(),
        mode: s.mode.effective(),
        gitignore: s.gitignore,
        digest: known_digest(s.digest.as_str()),
        content_digest: None,
        legacy_path: None,
    }
}

pub open spec fn from_previous(s: PreviousSkill) -> InstalledSkillView {
    InstalledSkillView {
        installed_name: s.installed_name@,
        mode: effective_mode(s.mode),
        gitignore: s.gitignore,
        digest: None,
        content_digest: None,
        legacy_path: None,
    }
}

pub open spec fn from_legacy(s: LegacyInstalledSkill) -> InstalledSkillView {
    InstalledSkillView {
        installed_name: s.installed_name@,
        mode: s.mode,
        gitignore: s.gitignore,
        digest: None,
        content_digest: None,
        legacy_path: Some(s.path@),
    }
}

/// The key under which a skill of the first form must stand.
pub open spec fn legacy_key(s: LegacyInstalledSkill) -> Text {
    s.catalog@ + "/"@ + s.source_skill@
}

pub open spec fn legacy_mismatch(skills: NameMap<LegacyInstalledSkill>) -> spec_fn(int) -> bool {
    |i: int| skills.names()[i] != legacy_key(skills@[skills.names()[i]])
}

/// What a stored form denotes, or why it is refused.
pub open spec fn decoded(wire: InstalledStateWire) -> Result<InstalledStateView, Text> {
    match wire {
        InstalledStateWire::CompactCurrent { v, skills } => if v != INSTALLED_STATE_VERSION {
            Err("unsupported installed state schema version "@ + decimal(v as nat) + "; expected 3"@)
        } else {
            Ok(
                InstalledStateView {
                    version: v,
                    skills: skills@.map_values(|s: CompactSkill| from_compact(s)),
                },
            )
        },
        InstalledStateWire::CompactBaseline { v, skills } => if v != BASELINE_STATE_VERSION {
            Err("unsupported installed state schema version "@ + decimal(v as nat) + "; expected 4"@)
        } else {
            Ok(
                InstalledStateView {
                    version: INSTALLED_STATE_VERSION,
                    skills: skills@.map_values(|s: BaselineSkill| from_baseline(s)),
                },
            )
        },
        InstalledStateWire::CompactPrevious { v, skills } => if v
            != PREVIOUS_INSTALLED_STATE_VERSION {
            Err("unsupported installed state schema version "@ + decimal(v as nat) + "; expected 2"@)
        } else {
            Ok(
                InstalledStateView {
                    version: v,
                    skills: skills@.map_values(|s: PreviousSkill| from_previous(s)),
                },
            )
        },
        InstalledStateWire::Legacy { version, skills } => if version != SCHEMA_VERSION {
            Err(
                "unsupported installed state schema version "@ + decimal(version as nat)
                    + "; expected 1 or 3"@,
            )
        } else {
            match first_where(skills.names().len() as int, legacy_mismatch(skills)) {
                Some(i) => Err(
                    "installed state key "@ + skills.names()[i] + " does not match "@ + legacy_key(
                        skills@[skills.names()[i]],
                    ),
                ),
                None => Ok(
                    InstalledStateView {
                        version,
                        skills: skills@.map_values(|s: LegacyInstalledSkill| from_legacy(s)),
                    },
                ),
            }
        },
    }
}

/// Reads a stored form of the installed state.
pub fn decode_installed_state(wire: &InstalledStateWire) -> (r: Result<InstalledState, Failure>)
    ensures
        match r {
            Ok(state) => decoded(*wire) == Ok::<InstalledStateView, Text>(state@),
            Err(e) => decoded(*wire) == Err::<InstalledStateView, Text>(e@),
        },
{
    let mut out: NameMap<InstalledSkill> = NameMap::new();
    let mut i: usize = 0;
    match wire {
        InstalledStateWire::CompactCurrent { v, skills } => {
            if *v != INSTALLED_STATE_VERSION {
                return Err(
                    Failure::new(
                        cat3(
                            "unsupported installed state schema version ",
                            decimal_of(*v as u64).as_str(),
                            "; expected 3",
                        ),
                    ),
                );
            }
            let n: usize = skills.len();
            while i < n
                invariant
                    i <= n == skills.names().len(),
                    skills.ordered(),
                    out@.dom() == skills.names().take(i as int).to_set(),
                    forall|k: Text|
                        out@.contains_key(k) ==> (#[trigger] out@[k])@ == from_compact(skills@[k]),
                decreases n - i,
            {
                let skill = read_compact(skills.value_at(i));
                proof {
                    lemma_take_set(skills.names(), i as int);
                }
                out.insert(skills.name_at(i).clone(), skill);
                i = i + 1;
            }
            proof {
                lemma_take_all(skills.names());
                assert(skills_view(out@) =~= skills@.map_values(|s: CompactSkill| from_compact(s)));
            }
            Ok(InstalledState { version: *v, skills: out })
        },
        InstalledStateWire::CompactBaseline { v, skills } => {
            if *v != BASELINE_STATE_VERSION {
                return Err(
                    Failure::new(
                        cat3(
                            "unsupported installed state schema version ",
                            decimal_of(*v as u64).as_str(),
                            "; expected 4",
                        ),
                    ),
                );
            }
            let n: usize = skills.len();
            while i < n
                invariant
                    i <= n == skills.names().len(),
                    skills.ordered(),
                    out@.dom() == skills.names().take(i as int).to_set(),
                    forall|k: Text|
                        out@.contains_key(k) ==> (#[trigger] out@[k])@ == from_baseline(skills@[k]),
                decreases n - i,
            {
                let s = skills.value_at(i);
                let mut skill = read_compact(&s.skill);
                skill.content_digest = known_digest(s.baseline.as_str());
                proof {
                    lemma_take_set(skills.names(), i as int);
                }
                out.insert(skills.name_at(i).clone(), skill);
                i = i + 1;
            }
            proof {
                lemma_take_all(skills.names());
                assert(skills_view(out@) =~= skills@.map_values(
                    |s: BaselineSkill| from_baseline(s),
                ));
            }
            Ok(InstalledState { version: INSTALLED_STATE_VERSION, skills: out })
        },
        InstalledStateWire::CompactPrevious { v, skills } => {
            if *v != PREVIOUS_INSTALLED_STATE_VERSION {
                return Err(
                    Failure::new(
                        cat3(
                            "unsupported installed state schema version ",
                            decimal_of(*v as u64).as_str(),
                            "; expected 2",
                        ),
                    ),
                );
            }
            let n: usize = skills.len();
            while i < n
                invariant
                    i <= n == skills.names().len(),
                    skills.ordered(),
                    out@.dom() == skills.names().take(i as int).to_set(),
                    forall|k: Text|
                        out@.contains_key(k) ==> (#[trigger] out@[k])@ == from_previous(skills@[k]),
                decreases n - i,
            {
                let s = skills.value_at(i);
                let skill = InstalledSkill {
                    installed_name: s.installed_name.clone(),
                    mode: s.mode.effective(),
                    gitignore: s.gitignore,
                    digest: None,
                    content_digest: None,
                    legacy_path: None,
                };
                proof {
                    lemma_take_set(skills.names(), i as int);
                }
                out.insert(skills.name_at(i).clone(), skill);
                i = i + 1;
            }
            proof {
                lemma_take_all(skills.names());
                assert(skills_view(out@) =~= skills@.map_values(
                    |s: PreviousSkill| from_previous(s),
                ));
            }
            Ok(InstalledState { version: *v, skills: out })
        },
        InstalledStateWire::Legacy { version, skills } => {
            if *version != SCHEMA_VERSION {
                return Err(
                    Failure::new(
                        cat3(
                            "unsupported installed state schema version ",
                            decimal_of(*version as u64).as_str(),
                            "; expected 1 or 3",
                        ),
                    ),
                );
            }
            let n: usize = skills.len();
            let ghost bad = legacy_mismatch(*skills);
            while i < n
                invariant
                    i <= n == skills.names().len(),
                    skills.ordered(),
                    bad == legacy_mismatch(*skills),
                    *wire == (InstalledStateWire::Legacy { version: *version, skills: *skills }),
                    *version == SCHEMA_VERSION,
                    forall|j: int| 0 <= j < i ==> !#[trigger] bad(j),
                    out@.dom() == skills.names().take(i as int).to_set(),
                    forall|k: Text|
                        out@.contains_key(k) ==> (#[trigger] out@[k])@ == from_legacy(skills@[k]),
                decreases n - i,
            {
                let s = skills.value_at(i);
                let expected = cat3(s.catalog.as_str(), "/", s.source_skill.as_str());
                let key = skills.name_at(i);
                if !same(key.as_str(), expected.as_str()) {
                    proof {
                        assert(bad(i as int));
                        lemma_first_where_some(n as int, bad, i as int);
                    }
                    return Err(
                        Failure::new(
                            cat4(
                                "installed state key ",
                                key.as_str(),
                                " does not match ",
                                expected.as_str(),
                            ),
                        ),
                    );
                }
                let skill = InstalledSkill {
                    installed_name: s.installed_name.clone(),
                    mode: s.mode,
                    gitignore: s.gitignore,
                    digest: None,
                    content_digest: None,
                    legacy_path: Some(s.path.clone()),
                };
                proof {
                    assert(!bad(i as int));
                    lemma_take_set(skills.names(), i as int);
                }
                out.insert(key.clone(), skill);
                i = i + 1;
            }
            proof {
                lemma_take_all(skills.names());
                lemma_first_where_none(n as int, bad);
                assert(skills_view(out@) =~= skills@.map_values(
                    |s: LegacyInstalledSkill| from_legacy(s),
                ));
            }
            Ok(InstalledState { version: *version, skills: out })
        },
    }
}

/// One more name of a walk is one more member.
pub proof fn lemma_take_set(s: Seq<Text>, i: int)
    requires
        0 <= i < s.len(),
    ensures
        s.take(i + 1).to_set() == s.take(i).to_set().insert(s[i]),
{
    let a = s.take(i + 1);
    let b = s.take(i);
    assert forall|x: Text| a.to_set().contains(x) == b.to_set().insert(s[i]).contains(x) by {
        if a.contains(x) {
            let k = a.index_of(x);
            if k < i {
                assert(b[k] == x);
            }
        }
        if b.contains(x) {
            let k = b.index_of(x);
            assert(a[k] == x);
        }
        assert(a[i] == s[i]);
    }
    assert(a.to_set() =~= b.to_set().insert(s[i]));
}

pub proof fn lemma_take_all(s: Seq<Text>)
    ensures
        s.take(s.len() as int) == s,
{
    assert(s.take(s.len() as int) =~= s);
}

/// The text that stands for a digest: an empty one for none.
pub open spec fn digest_or_empty(digest: Option<Text>) -> Text {
    match digest {
        Some(d) => d,
        None => Seq::empty(),
    }
}

/// The compact form of a skill.
pub open spec fn compact_of(s: InstalledSkillView, c: CompactSkill) -> bool {
    &&& c.installed_name@ == s.installed_name
    &&& c.mode == compact_mode(s.mode)
    &&& c.gitignore == s.gitignore
    &&& c.digest@ == digest_or_empty(s.digest)
}

/// The compact form of a skill with its baseline.
pub open spec fn baseline_of(s: InstalledSkillView, c: BaselineSkill) -> bool {
    compact_of(s, c.skill) && c.baseline@ == digest_or_empty(s.content_digest)
}

/// Whether one of the skills has a content baseline.
pub open spec fn has_baseline(skills: Map<Text, InstalledSkillView>) -> bool {
    exists|k: Text| skills.contains_key(k) && digest_or_empty((#[trigger] skills[k]).content_digest).len() > 0
}

/// `wire` is the compact form of these skills: the one with baselines where there is one.
pub open spec fn encodes(skills: Map<Text, InstalledSkillView>, wire: InstalledStateWire) -> bool {
    match wire {
        InstalledStateWire::CompactCurrent { v, skills: stored } => {
            &&& !has_baseline(skills)
            &&& v == INSTALLED_STATE_VERSION
            &&& stored@.dom() == skills.dom()
            &&& forall|k: Text|
                skills.contains_key(k) ==> compact_of(skills[k], #[trigger] stored@[k])
        },
        InstalledStateWire::CompactBaseline { v, skills: stored } => {
            &&& has_baseline(skills)
            &&& v == BASELINE_STATE_VERSION
            &&& stored@.dom() == skills.dom()
            &&& forall|k: Text|
                skills.contains_key(k) ==> baseline_of(skills[k], #[trigger] stored@[k])
        },
        _ => false,
    }
}

fn digest_text(digest: &Option<String>) -> (r: String)
    ensures
        r@ == digest_or_empty(opt_view(*digest)),
{
    match digest {
        Some(d) => d.clone(),
        None => String::new(),
    }
}

fn write_compact(s: &InstalledSkill) -> (r: CompactSkill)
    ensures
        compact_of(s@, r),
{
    CompactSkill {
        installed_name: s.installed_name.clone(),
        mode: CompactMode::of(s.mode),
        gitignore: s.gitignore,
        digest: digest_text(&s.digest),
    }
}

fn keeps_baselines(state: &InstalledState) -> (r: bool)
    ensures
        r == has_baseline(state@.skills),
{
    let n: usize = state.skills.len();
    let ghost keys = state.skills.names();
    let mut i: usize = 0;
    while i < n
        invariant
            i <= n == keys.len(),
            keys == state.skills.names(),
            state.skills.ordered(),
            forall|j: int|
                0 <= j < i ==> digest_or_empty(
                    state@.skills[#[trigger] keys[j]].content_digest,
                ).len() == 0,
        decreases n - i,
    {
        let ghost k = keys[i as int];
        assert(state@.skills.contains_key(k) && state@.skills[k] == state.skills@[k]@);
        let found = digest_text(&state.skills.value_at(i).content_digest);
        if !empty(found.as_str()) {
            return true;
        }
        i = i + 1;
    }
    proof {
        assert forall|k: Text| state@.skills.contains_key(k) implies digest_or_empty(
            (#[trigger] state@.skills[k]).content_digest,
        ).len() == 0 by {
            assert(keys.to_set().contains(k));
            assert(keys[keys.index_of(k)] == k);
        }
    }
    false
}

/// The stored form of an installed state: a compact one, with the content baselines where there
/// are any.
pub fn encode_installed_state(state: &InstalledState) -> (r: InstalledStateWire)
    ensures
        encodes(state@.skills, r),
{
    let n: usize = state.skills.len();
    let mut i: usize = 0;
    if keeps_baselines(state) {
        let mut out: NameMap<BaselineSkill> = NameMap::new();
        while i < n
            invariant
                i <= n == state.skills.names().len(),
                state.skills.ordered(),
                out@.dom() == state.skills.names().take(i as int).to_set(),
                forall|k: Text|
                    out@.contains_key(k) ==> baseline_of(state.skills@[k]@, #[trigger] out@[k]),
            decreases n - i,
        {
            let s = state.skills.value_at(i);
            let skill = BaselineSkill {
                skill: write_compact(s),
                baseline: digest_text(&s.content_digest),
            };
            proof {
                lemma_take_set(state.skills.names(), i as int);
            }
            out.insert(state.skills.name_at(i).clone(), skill);
            i = i + 1;
        }
        proof {
            lemma_take_all(state.skills.names());
            assert(out@.dom() =~= state@.skills.dom());
        }
        return InstalledStateWire::CompactBaseline { v: BASELINE_STATE_VERSION, skills: out };
    }
    let mut out: NameMap<CompactSkill> = NameMap::new();
    while i < n
        invariant
            i <= n == state.skills.names().len(),
            state.skills.ordered(),
            out@.dom() == state.skills.names().take(i as int).to_set(),
            forall|k: Text|
                out@.contains_key(k) ==> compact_of(state.skills@[k]@, #[trigger] out@[k]),
        decreases n - i,
    {
        let skill = write_compact(state.skills.value_at(i));
        proof {
            lemma_take_set(state.skills.names(), i as int);
        }
        out.insert(state.skills.name_at(i).clone(), skill);
        i = i + 1;
    }
    proof {
        lemma_take_all(state.skills.names());
        assert(out@.dom() =~= state@.skills.dom());
    }
    InstalledStateWire::CompactCurrent { v: INSTALLED_STATE_VERSION, skills: out }
}

/// What storing keeps of a skill: no legacy path, no empty digest.
pub open spec fn stored_skill(s: InstalledSkillView) -> InstalledSkillView {
    InstalledSkillView {
        digest: known(digest_or_empty(s.digest)),
        content_digest: known(digest_or_empty(s.content_digest)),
        legacy_path: None,
        ..s
    }
}

/// Two states have the same stored form.
pub open spec fn stored_alike(a: InstalledStateView, b: InstalledStateView) -> bool {
    a.version == b.version && a.skills.map_values(|s: InstalledSkillView| stored_skill(s))
        == b.skills.map_values(|s: InstalledSkillView| stored_skill(s))
}

fn same_digest(a: &Option<String>, b: &Option<String>) -> (r: bool)
    ensures
        r == (known(digest_or_empty(opt_view(*a))) == known(digest_or_empty(opt_view(*b)))),
{
    let x = digest_text(a);
    let y = digest_text(b);
    proof {
        if x@.len() == 0 && y@.len() == 0 {
            assert(x@ =~= y@);
        }
    }
    same(x.as_str(), y.as_str())
}

fn same_record(a: &InstalledSkill, b: &InstalledSkill) -> (r: bool)
    ensures
        r == (stored_skill(a@) == stored_skill(b@)),
{
    same(a.installed_name.as_str(), b.installed_name.as_str()) && a.mode == b.mode && a.gitignore
        == b.gitignore && same_digest(&a.digest, &b.digest) && same_digest(
        &a.content_digest,
        &b.content_digest,
    )
}

/// Whether writing `b` in place of `a` would change what is stored.
pub fn same_stored(a: &InstalledState, b: &InstalledState) -> (r: bool)
    ensures
        r == stored_alike(a@, b@),
{
    let n: usize = a.skills.len();
    let ghost x = a@.skills.map_values(|s: InstalledSkillView| stored_skill(s));
    let ghost y = b@.skills.map_values(|s: InstalledSkillView| stored_skill(s));
    let ghost keys = a.skills.names();
    if a.version != b.version {
        return false;
    }
    if n != b.skills.len() {
        proof {
            if x == y {
                assert(x.dom() =~= a.skills@.dom());
                assert(y.dom() =~= b.skills@.dom());
                crate::name_map::lemma_ascending_unique(a.skills.names(), b.skills.names());
            }
        }
        return false;
    }
    let mut i: usize = 0;
    while i < n
        invariant
            i <= n == keys.len(),
            n == b.skills.names().len(),
            keys == a.skills.names(),
            a.skills.ordered(),
            b.skills.ordered(),
            a.version == b.version,
            x == a@.skills.map_values(|s: InstalledSkillView| stored_skill(s)),
            y == b@.skills.map_values(|s: InstalledSkillView| stored_skill(s)),
            forall|j: int| 0 <= j < i ==> b.skills.names()[j] == #[trigger] keys[j],
            forall|j: int| 0 <= j < i ==> x[#[trigger] keys[j]] == y[keys[j]],
        decreases n - i,
    {
        if !same(a.skills.name_at(i).as_str(), b.skills.name_at(i).as_str()) {
            proof {
                if x == y {
                    assert(x.dom() =~= a.skills@.dom());
                    assert(y.dom() =~= b.skills@.dom());
                    crate::name_map::lemma_ascending_unique(a.skills.names(), b.skills.names());
                }
            }
            return false;
        }
        let ghost k = keys[i as int];
        assert(a.skills@.contains_key(k) && b.skills@.contains_key(k));
        assert(x[k] == stored_skill(a.skills@[k]@));
        assert(y[k] == stored_skill(b.skills@[k]@));
        if !same_record(a.skills.value_at(i), b.skills.value_at(i)) {
            assert(x[k] != y[k]);
            return false;
        }
        i = i + 1;
    }
    proof {
        assert(keys =~= b.skills.names());
        assert(x.dom() =~= keys.to_set());
        assert(y.dom() =~= keys.to_set());
        assert forall|k: Text| x.contains_key(k) implies x[k] == y[k] by {
            assert(keys.to_set().contains(k));
            let j = keys.index_of(k);
            assert(x[keys[j]] == y[keys[j]]);
        }
        assert(x =~= y);
    }
    true
}

/// Reading back what was written gives the same skills at the current version.
pub proof fn law_state_round_trip(skills: Map<Text, InstalledSkillView>, wire: InstalledStateWire)
    requires
        encodes(skills, wire),
    ensures
        decoded(wire) == Ok::<InstalledStateView, Text>(
            InstalledStateView {
                version: INSTALLED_STATE_VERSION,
                skills: skills.map_values(|s: InstalledSkillView| stored_skill(s)),
            },
        ),
{
    let b = skills.map_values(|s: InstalledSkillView| stored_skill(s));
    match wire {
        InstalledStateWire::CompactCurrent { v, skills: stored } => {
            let a = stored@.map_values(|s: CompactSkill| from_compact(s));
            assert forall|k: Text| a.contains_key(k) implies a[k] == b[k] by {
                assert(compact_of(skills[k], stored@[k]));
            }
            assert(a =~= b);
        },
        InstalledStateWire::CompactBaseline { v, skills: stored } => {
            let a = stored@.map_values(|s: BaselineSkill| from_baseline(s));
            assert forall|k: Text| a.contains_key(k) implies a[k] == b[k] by {
                assert(baseline_of(skills[k], stored@[k]));
            }
            assert(a =~= b);
        },
        _ => {},
    }
}

pub open spec fn schema_refusal(version: u32, kind: Text) -> Option<Text> {
    if version == SCHEMA_VERSION {
        None
    } else {
        Some(
            "unsupported "@ + kind + " schema version "@ + decimal(version as nat) + "; expected 1"@,
        )
    }
}

pub fn validate_schema(version: u32, kind: &str) -> (r: Result<(), Failure>)
    ensures
        refusal(r) == schema_refusal(version, kind@),
{
    if version != SCHEMA_VERSION {
        return Err(
            Failure::new(
                cat5(
                    "unsupported ",
                    kind,
                    " schema version ",
                    decimal_of(version as u64).as_str(),
                    "; expected 1",
                ),
            ),
        );
    }
    Ok(())
}

pub open spec fn state_version_refusal(version: u32) -> Option<Text> {
    if version == SCHEMA_VERSION || version == PREVIOUS_INSTALLED_STATE_VERSION || version
        == INSTALLED_STATE_VERSION {
        None
    } else {
        Some(
            "unsupported installed state schema version "@ + decimal(version as nat)
                + "; expected 1, 2, or 3"@,
        )
    }
}

pub fn validate_installed_state(version: u32) -> (r: Result<(), Failure>)
    ensures
        refusal(r) == state_version_refusal(version),
{
    if version != SCHEMA_VERSION && version != PREVIOUS_INSTALLED_STATE_VERSION && version
        != INSTALLED_STATE_VERSION {
        return Err(
            Failure::new(
                cat3(
                    "unsupported installed state schema version ",
                    decimal_of(version as u64).as_str(),
                    "; expected 1, 2, or 3",
                ),
            ),
        );
    }
    Ok(())
}

pub open spec fn is_name_char(c: char) -> bool {
    'a' <= c <= 'z' || '0' <= c <= '9' || c == '-'
}

/// A portable Agent Skill name: 1 to 64 small letters, digits and single inner hyphens.
pub open spec fn is_name(s: Text) -> bool {
    &&& 0 < s.len() <= 64
    &&& s[0] != '-'
    &&& s.last() != '-'
    &&& forall|i: int| 0 <= i < s.len() ==> is_name_char(#[trigger] s[i])
    &&& forall|i: int| 0 <= i < s.len() - 1 ==> !(#[trigger] s[i] == '-' && s[i + 1] == '-')
}

pub fn valid_name(value: &str) -> (r: bool)
    ensures
        r == is_name(value@),
{
    let v = chars_of(value);
    let n: usize = v.len();
    if n == 0 || n > 64 || v[0] == '-' || v[n - 1] == '-' {
        return false;
    }
    let mut i: usize = 0;
    while i < n
        invariant
            i <= n == v.len(),
            v@ == value@,
            forall|j: int| 0 <= j < i ==> is_name_char(#[trigger] v@[j]),
            forall|j: int|
                0 <= j < i && j < n - 1 ==> !(#[trigger] v@[j] == '-' && v@[j + 1] == '-'),
        decreases n - i,
    {
        let c: char = v[i];
        if !(('a' <= c && c <= 'z') || ('0' <= c && c <= '9') || c == '-') {
            assert(!is_name_char(value@[i as int]));
            return false;
        }
        if i + 1 < n && c == '-' && v[i + 1] == '-' {
            assert(value@[i as int] == '-' && value@[i + 1] == '-');
            return false;
        }
        i = i + 1;
    }
    true
}

pub open spec fn alias_refusal(alias: Text) -> Option<Text> {
    if is_name(alias) {
        None
    } else {
        Some(
            "catalog alias must use lowercase letters, numbers, and single hyphens: "@ + alias,
        )
    }
}

pub fn validate_alias(value: &str) -> (r: Result<(), Failure>)
    ensures
        refusal(r) == alias_refusal(value@),
{
    if !valid_name(value) {
        return Err(
            Failure::new(
                cat2(
                    "catalog alias must use lowercase letters, numbers, and single hyphens: ",
                    value,
                ),
            ),
        );
    }
    Ok(())
}

} // verus!
