//! The diagnosis of an installation from what was observed of it.

use vstd::prelude::*;
use crate::doctor::{authorized, phase_name, phase_text, validate_transaction};
use crate::failure::Failure;
use crate::install::{held, is_held, owned_refusal, validate_owned_state, TransactionJournal};
use crate::model::{
    state_version_refusal, validate_installed_state, InstalledSkill, InstalledSkillView,
    InstalledState, INSTALLED_STATE_VERSION,
};
use crate::name_map::{lemma_walk, walk, NameMap, NameSet};
use crate::output::{line_views, Line, LineView};
use crate::ownership::{
    all_conflict_lines, ownership_views, push_conflicts, OwnershipConflict, OwnershipView,
};
use crate::plan::{find_resolved, last_with};
use crate::reconcile::{owned_names, ProjectionStatus};
use crate::resolve::{resolved_views, scope_word, ResolvedSkill, ResolvedView};
use crate::status::{
    count_keys, owned_count, report_catalog, report_of, report_views, CatalogAvailability,
    CatalogReport, CatalogReportView, CatalogStatus,
};
use crate::text::{
    cat2, cat3, cat4, cat5, decimal, decimal_of, lower_text, lowered, same, trim, trimmed, views,
    Text,
};
use crate::transaction::{names_of, resolved_names};

verus! {

/// One thing that is wrong.
#[derive(Debug, PartialEq, Eq)]
pub struct DoctorIssue {
    pub code: &'static str,
    pub message: String,
    pub fixable: bool,
}

/// An issue in contracts.
pub struct IssueView {
    pub code: Text,
    pub message: Text,
    pub fixable: bool,
}

impl View for DoctorIssue {
    type V = IssueView;

    open spec fn view(&self) -> IssueView {
        IssueView { code: self.code@, message: self.message@, fixable: self.fixable }
    }
}

impl Clone for DoctorIssue {
    fn clone(&self) -> (r: DoctorIssue)
        ensures
            r@ == self@,
    {
        DoctorIssue { code: self.code, message: self.message.clone(), fixable: self.fixable }
    }
}

pub open spec fn issue_views(v: Seq<DoctorIssue>) -> Seq<IssueView> {
    Seq::new(v.len(), |i: int| v[i]@)
}

pub open spec fn issue(code: Text, message: Text, fixable: bool) -> IssueView {
    IssueView { code, message, fixable }
}

fn add_issue(issues: &mut Vec<DoctorIssue>, code: &'static str, message: String, fixable: bool)
    ensures
        issue_views(final(issues)@) == issue_views(old(issues)@).push(
            issue(code@, message@, fixable),
        ),
{
    let ghost before = issues@;
    let item = DoctorIssue { code, message, fixable };
    issues.push(item);
    assert(issue_views(issues@) =~= issue_views(before).push(item@));
}

/// What was observed of an installation.
#[derive(Debug)]
pub struct Findings {
    pub state_path: String,
    /// Why the state file is not a place to read from.
    pub state_path_error: Option<String>,
    /// Why the state could not be read.
    pub state_error: Option<String>,
    pub journal_path_error: Option<String>,
    pub journal_error: Option<String>,
    pub residue_error: Option<String>,
    /// Directories that an earlier run left behind.
    pub residue: Vec<String>,
    /// The status of the projection of each recorded skill, in key order.
    pub statuses: Vec<ProjectionStatus>,
    /// The projections that exist under each desired name, in name order.
    pub projections: Vec<Vec<String>>,
    /// What each agent lists, or why it could not be listed.
    pub agents: NameMap<Result<NameSet, String>>,
}

// The parts of a diagnosis.

/// What the declared renames ask for.
pub open spec fn rename_part(renames: Result<Seq<Text>, Text>) -> Seq<IssueView> {
    match renames {
        Ok(messages) => Seq::new(
            messages.len(),
            |i: int| issue("declared-rename"@, messages[i], true),
        ),
        Err(e) => seq![issue("configuration-key"@, e, false)],
    }
}

pub open spec fn state_part(f: Findings, version: u32) -> Seq<IssueView> {
    match f.state_path_error {
        Some(e) => seq![issue("installed-state-path"@, e@, false)],
        None => match f.state_error {
            Some(e) => seq![issue("installed-state"@, e@, false)],
            None => if version != INSTALLED_STATE_VERSION {
                seq![
                    issue(
                        "legacy-state"@,
                        f.state_path@ + " uses installed-state schema "@ + decimal(version as nat)
                            + "; the next repair writes compact schema 3"@,
                        true,
                    ),
                ]
            } else {
                Seq::empty()
            },
        },
    }
}

pub open spec fn journal_part(f: Findings) -> Seq<IssueView> {
    match f.journal_path_error {
        Some(e) => seq![issue("transaction-path"@, e@, false)],
        None => match f.journal_error {
            Some(e) => seq![issue("transaction"@, e@, false)],
            None => Seq::empty(),
        },
    }
}

pub open spec fn residue_part(f: Findings) -> Seq<IssueView> {
    match f.residue_error {
        Some(e) => seq![issue("work-residue"@, e@, false)],
        None => Seq::new(
            f.residue@.len(),
            |i: int|
                issue(
                    "staging-residue"@,
                    "owned installation residue remains at "@ + f.residue@[i]@,
                    true,
                ),
        ),
    }
}

/// What resolving the configuration gave.
pub type Resolution = Result<Seq<ResolvedView>, Text>;

pub open spec fn desired_part(resolved: Resolution) -> Seq<IssueView> {
    match resolved {
        Ok(_) => Seq::empty(),
        Err(e) => seq![issue("desired-state"@, e, false)],
    }
}

pub open spec fn transaction_part(
    journal: Option<TransactionJournal>,
    resolved: Resolution,
    global: bool,
    fingerprint: Text,
    state: Map<Text, InstalledSkillView>,
) -> Seq<IssueView> {
    match journal {
        None => Seq::empty(),
        Some(j) => match resolved {
            Err(_) => seq![
                issue(
                    "invalid-transaction"@,
                    "transaction cannot be validated without a valid desired state"@,
                    false,
                ),
            ],
            Ok(rs) => match authorized(j, global, fingerprint, rs, state) {
                Ok(_) => seq![
                    issue(
                        "interrupted-transaction"@,
                        "unfinished "@ + scope_word(global) + " transaction at phase "@ + phase_text(
                            j.phase,
                        ),
                        true,
                    ),
                ],
                Err(e) => seq![issue("invalid-transaction"@, e, false)],
            },
        },
    }
}

/// The names that an interrupted transaction may touch.
pub open spec fn claimed(
    journal: Option<TransactionJournal>,
    resolved: Resolution,
    global: bool,
    fingerprint: Text,
    state: Map<Text, InstalledSkillView>,
) -> Option<Set<Text>> {
    match journal {
        None => None,
        Some(j) => match resolved {
            Err(_) => None,
            Ok(rs) => match authorized(j, global, fingerprint, rs, state) {
                Ok(names) => Some(names),
                Err(_) => None,
            },
        },
    }
}

pub open spec fn is_local(status: ProjectionStatus) -> bool {
    status == ProjectionStatus::KeepLocal || status == ProjectionStatus::Conflict || status
        == ProjectionStatus::Unknown
}

/// How a record stands to what is desired.
pub open spec fn record_issue(
    key: Text,
    installed: InstalledSkillView,
    desired: Option<ResolvedView>,
    status: ProjectionStatus,
    global: bool,
) -> Seq<IssueView> {
    match desired {
        None => if !global && is_local(status) {
            seq![
                issue(
                    "orphaned-local"@,
                    key + " was removed from the catalog but has project changes; keeping "@
                        + installed.installed_name + " unchanged"@,
                    false,
                ),
            ]
        } else {
            seq![
                issue(
                    "obsolete-owned-skill"@,
                    "owned skill "@ + installed.installed_name + " ("@ + key
                        + ") is no longer desired"@,
                    true,
                ),
            ]
        },
        Some(d) => if d.installed_name != installed.installed_name || d.mode != installed.mode
            || d.gitignore != installed.gitignore {
            seq![
                issue(
                    "ownership-drift"@,
                    "owned state for "@ + key + " differs from desired state"@,
                    true,
                ),
            ]
        } else if installed.digest != Some(d.digest) {
            seq![
                issue(
                    "update-available"@,
                    key + " differs from the current catalog version"@,
                    true,
                ),
            ]
        } else {
            Seq::empty()
        },
    }
}

/// What a project keeps of its own in a desired projection.
pub open spec fn local_issue(key: Text, status: ProjectionStatus) -> Seq<IssueView> {
    if status == ProjectionStatus::KeepLocal {
        seq![
            issue(
                "project-override"@,
                key + " has project changes and is being kept unchanged"@,
                false,
            ),
        ]
    } else if status == ProjectionStatus::Conflict {
        seq![
            issue(
                "project-conflict"@,
                key + " has both project and catalog changes; merge or promote it manually"@,
                false,
            ),
        ]
    } else if status == ProjectionStatus::Unknown {
        seq![
            issue(
                "project-baseline"@,
                key + " needs a schema-4 project content baseline"@,
                true,
            ),
        ]
    } else {
        Seq::empty()
    }
}

pub open spec fn desired_at(rs: Seq<ResolvedView>, key: Text) -> Option<ResolvedView> {
    match last_with(rs, key) {
        Some(i) => Some(rs[i]),
        None => None,
    }
}

/// The issues of the first `n` recorded skills whose catalog is at hand.
pub open spec fn recorded_part(
    state: Map<Text, InstalledSkillView>,
    keys: Seq<Text>,
    rs: Seq<ResolvedView>,
    statuses: Seq<ProjectionStatus>,
    unavailable: Set<Text>,
    global: bool,
    n: int,
) -> Seq<IssueView>
    decreases n,
{
    if n <= 0 {
        Seq::empty()
    } else {
        let front = recorded_part(state, keys, rs, statuses, unavailable, global, n - 1);
        let key = keys[n - 1];
        let desired = desired_at(rs, key);
        if is_held(key, unavailable) {
            front
        } else {
            front + record_issue(key, state[key], desired, statuses[n - 1], global) + (if !global
                && desired is Some {
                local_issue(key, statuses[n - 1])
            } else {
                Seq::empty()
            })
        }
    }
}

/// The first `n` resolved skills that nothing records.
pub open spec fn missing_part(state: Map<Text, InstalledSkillView>, rs: Seq<ResolvedView>, n: int) -> Seq<IssueView>
    decreases n,
{
    if n <= 0 {
        Seq::empty()
    } else {
        let front = missing_part(state, rs, n - 1);
        if state.contains_key(rs[n - 1].key) {
            front
        } else {
            front.push(
                issue(
                    "missing-owned-skill"@,
                    rs[n - 1].key + " is desired but absent from ownership state"@,
                    true,
                ),
            )
        }
    }
}

/// Unowned projections among the first `n` of the paths.
pub open spec fn path_issues(paths: Seq<Text>, is_owned: bool, n: int) -> Seq<IssueView>
    decreases n,
{
    if n <= 0 || is_owned {
        Seq::empty()
    } else {
        path_issues(paths, is_owned, n - 1).push(
            issue(
                "unowned-conflict"@,
                "refusing to replace unowned projection "@ + paths[n - 1],
                false,
            ),
        )
    }
}

/// What an agent's list says of a name.
pub open spec fn agent_issue(
    agent: Text,
    list: Result<NameSet, String>,
    name: Text,
    is_owned: bool,
) -> Seq<IssueView> {
    match list {
        Err(e) => seq![issue("agent-target"@, e@, false)],
        Ok(names) => if names@.contains(name) {
            if is_owned {
                Seq::empty()
            } else {
                seq![
                    issue(
                        "unowned-conflict"@,
                        "refusing to replace unowned "@ + name + " for Vercel agent "@ + agent,
                        false,
                    ),
                ]
            }
        } else {
            seq![
                issue(
                    "projection-drift"@,
                    name + " is missing for Vercel agent "@ + agent,
                    true,
                ),
            ]
        },
    }
}

/// What the first `n` agents say of a name.
pub open spec fn agent_issues(
    agents: Map<Text, Result<NameSet, String>>,
    order: Seq<Text>,
    name: Text,
    is_owned: bool,
    n: int,
) -> Seq<IssueView>
    decreases n,
{
    if n <= 0 {
        Seq::empty()
    } else {
        agent_issues(agents, order, name, is_owned, n - 1) + agent_issue(
            order[n - 1],
            agents[order[n - 1]],
            name,
            is_owned,
        )
    }
}

/// What is found under the first `n` desired names.
pub open spec fn name_part(f: Findings, names: Seq<Text>, owned: Set<Text>, n: int) -> Seq<IssueView>
    decreases n,
{
    if n <= 0 {
        Seq::empty()
    } else {
        let name = names[n - 1];
        let order = walk(f.agents@.dom());
        let paths = views(f.projections@[n - 1]@);
        name_part(f, names, owned, n - 1) + path_issues(
            paths,
            owned.contains(name),
            paths.len() as int,
        ) + agent_issues(f.agents@, order, name, owned.contains(name), order.len() as int)
    }
}

/// What is found against a resolution.
pub open spec fn resolved_part(
    f: Findings,
    state: Map<Text, InstalledSkillView>,
    rs: Seq<ResolvedView>,
    unavailable: Set<Text>,
    global: bool,
    claim: Set<Text>,
) -> Seq<IssueView> {
    let keys = walk(state.dom());
    let names = walk(resolved_names(rs));
    recorded_part(state, keys, rs, f.statuses@, unavailable, global, keys.len() as int)
        + missing_part(state, rs, rs.len() as int) + name_part(
        f,
        names,
        owned_names(state, claim),
        names.len() as int,
    )
}

/// Whether an earlier issue says the same.
pub open spec fn is_repeated(issues: Seq<IssueView>, i: int) -> bool {
    exists|j: int|
        0 <= j < i && (#[trigger] issues[j]).code == issues[i].code && issues[j].message
            == issues[i].message
}

/// The first `n` issues without repetitions.
pub open spec fn deduplicated(issues: Seq<IssueView>, n: int) -> Seq<IssueView>
    decreases n,
{
    if n <= 0 {
        Seq::empty()
    } else {
        let front = deduplicated(issues, n - 1);
        if is_repeated(issues, n - 1) {
            front
        } else {
            front.push(issues[n - 1])
        }
    }
}

/// All that is found, in order.
pub open spec fn all_issues(
    f: Findings,
    renames: Result<Seq<Text>, Text>,
    state: InstalledState,
    resolved: Resolution,
    journal: Option<TransactionJournal>,
    fingerprint: Text,
    unavailable: Set<Text>,
    global: bool,
) -> Seq<IssueView> {
    let skills = state@.skills;
    let claim = match claimed(journal, resolved, global, fingerprint, skills) {
        Some(names) => names,
        None => Set::empty(),
    };
    rename_part(renames) + state_part(f, state.version) + journal_part(f) + residue_part(f)
        + desired_part(resolved) + transaction_part(journal, resolved, global, fingerprint, skills)
        + match resolved {
        Ok(rs) => resolved_part(f, skills, rs, unavailable, global, claim),
        Err(_) => Seq::empty(),
    }
}

/// Why there is no diagnosis: a state that was read but cannot be trusted.
pub open spec fn diagnosis_refusal(f: Findings, state: InstalledState, prefix: Text) -> Option<Text> {
    if f.state_path_error is Some || f.state_error is Some {
        None
    } else {
        match state_version_refusal(state.version) {
            Some(m) => Some(m),
            None => owned_refusal(state@.skills, prefix),
        }
    }
}

// Computing them.

fn add_renames(issues: &mut Vec<DoctorIssue>, renames: &Result<Vec<String>, Failure>)
    ensures
        issue_views(final(issues)@) == issue_views(old(issues)@) + rename_part(
            rename_view(*renames),
        ),
{
    let ghost start = issue_views(issues@);
    match renames {
        Err(e) => {
            add_issue(issues, "configuration-key", e.message(), false);
            assert(issue_views(issues@) =~= start + rename_part(rename_view(*renames)));
        },
        Ok(messages) => {
            let ghost part = rename_part(rename_view(*renames));
            let mut i: usize = 0;
            assert(start + part.take(0) =~= start);
            while i < messages.len()
                invariant
                    i <= messages@.len() == part.len(),
                    part == rename_part(Ok::<Seq<Text>, Text>(views(messages@))),
                    issue_views(issues@) == start + part.take(i as int),
                decreases messages@.len() - i,
            {
                add_issue(issues, "declared-rename", messages[i].clone(), true);
                i = i + 1;
                assert(part.take(i as int) =~= part.take(i - 1).push(part[i - 1]));
                assert(issue_views(issues@) =~= start + part.take(i as int));
            }
            assert(part.take(i as int) =~= part);
        },
    }
}

pub open spec fn rename_view(renames: Result<Vec<String>, Failure>) -> Result<Seq<Text>, Text> {
    match renames {
        Ok(messages) => Ok(views(messages@)),
        Err(e) => Err(e@),
    }
}

fn add_residue(issues: &mut Vec<DoctorIssue>, f: &Findings)
    ensures
        issue_views(final(issues)@) == issue_views(old(issues)@) + residue_part(*f),
{
    let ghost start = issue_views(issues@);
    let ghost part = residue_part(*f);
    match &f.residue_error {
        Some(e) => {
            add_issue(issues, "work-residue", e.clone(), false);
            assert(issue_views(issues@) =~= start + part);
        },
        None => {
            let mut i: usize = 0;
            assert(start + part.take(0) =~= start);
            while i < f.residue.len()
                invariant
                    i <= f.residue@.len() == part.len(),
                    f.residue_error is None,
                    part == residue_part(*f),
                    issue_views(issues@) == start + part.take(i as int),
                decreases f.residue@.len() - i,
            {
                add_issue(
                    issues,
                    "staging-residue",
                    cat2("owned installation residue remains at ", f.residue[i].as_str()),
                    true,
                );
                i = i + 1;
                assert(part.take(i as int) =~= part.take(i - 1).push(part[i - 1]));
                assert(issue_views(issues@) =~= start + part.take(i as int));
            }
            assert(part.take(i as int) =~= part);
        },
    }
}

fn add_record(
    issues: &mut Vec<DoctorIssue>,
    key: &str,
    installed: &InstalledSkill,
    desired: Option<&ResolvedSkill<'_>>,
    status: ProjectionStatus,
    global: bool,
)
    ensures
        ({
            let d = match desired {
                Some(s) => Some(s@),
                None => None,
            };
            issue_views(final(issues)@) == issue_views(old(issues)@) + record_issue(
                key@,
                installed@,
                d,
                status,
                global,
            ) + (if !global && desired is Some {
                local_issue(key@, status)
            } else {
                Seq::empty()
            })
        }),
{
    let ghost start = issue_views(issues@);
    let local = status == ProjectionStatus::KeepLocal || status == ProjectionStatus::Conflict
        || status == ProjectionStatus::Unknown;
    match desired {
        None => {
            if !global && local {
                add_issue(
                    issues,
                    "orphaned-local",
                    cat4(
                        key,
                        " was removed from the catalog but has project changes; keeping ",
                        installed.installed_name.as_str(),
                        " unchanged",
                    ),
                    false,
                );
            } else {
                add_issue(
                    issues,
                    "obsolete-owned-skill",
                    cat5(
                        "owned skill ",
                        installed.installed_name.as_str(),
                        " (",
                        key,
                        ") is no longer desired",
                    ),
                    true,
                );
            }
            assert(issue_views(issues@) =~= start + record_issue(
                key@,
                installed@,
                None,
                status,
                global,
            ) + Seq::<IssueView>::empty());
        },
        Some(d) => {
            let same_digest = match &installed.digest {
                Some(digest) => same(digest.as_str(), d.digest.as_str()),
                None => false,
            };
            if !same(d.installed_name.as_str(), installed.installed_name.as_str()) || d.mode
                != installed.mode || d.gitignore != installed.gitignore {
                add_issue(
                    issues,
                    "ownership-drift",
                    cat3("owned state for ", key, " differs from desired state"),
                    true,
                );
            } else if !same_digest {
                add_issue(
                    issues,
                    "update-available",
                    cat2(key, " differs from the current catalog version"),
                    true,
                );
            }
            let ghost middle = issue_views(issues@);
            assert(middle =~= start + record_issue(key@, installed@, Some(d@), status, global));
            if !global {
                if status == ProjectionStatus::KeepLocal {
                    add_issue(
                        issues,
                        "project-override",
                        cat2(key, " has project changes and is being kept unchanged"),
                        false,
                    );
                } else if status == ProjectionStatus::Conflict {
                    add_issue(
                        issues,
                        "project-conflict",
                        cat2(
                            key,
                            " has both project and catalog changes; merge or promote it manually",
                        ),
                        false,
                    );
                } else if status == ProjectionStatus::Unknown {
                    add_issue(
                        issues,
                        "project-baseline",
                        cat2(key, " needs a schema-4 project content baseline"),
                        true,
                    );
                }
                assert(issue_views(issues@) =~= middle + local_issue(key@, status));
            } else {
                assert(issue_views(issues@) =~= middle + Seq::<IssueView>::empty());
            }
        },
    }
}

fn add_recorded(
    issues: &mut Vec<DoctorIssue>,
    f: &Findings,
    state: &InstalledState,
    resolved: &Vec<ResolvedSkill<'_>>,
    unavailable: &NameSet,
    global: bool,
)
    requires
        f.statuses@.len() == state.skills.names().len(),
    ensures
        issue_views(final(issues)@) == issue_views(old(issues)@) + recorded_part(
            state@.skills,
            walk(state@.skills.dom()),
            resolved_views(resolved@),
            f.statuses@,
            unavailable@,
            global,
            walk(state@.skills.dom()).len() as int,
        ),
{
    let ghost start = issue_views(issues@);
    let ghost skills = state@.skills;
    let ghost rs = resolved_views(resolved@);
    let n: usize = state.skills.len();
    let ghost keys = state.skills.names();
    proof {
        assert(skills.dom() =~= state.skills@.dom());
        lemma_walk(keys);
        assert(start + Seq::<IssueView>::empty() =~= start);
    }
    let mut i: usize = 0;
    while i < n
        invariant
            i <= n == keys.len(),
            keys == state.skills.names(),
            skills == state@.skills,
            rs == resolved_views(resolved@),
            f.statuses@.len() == n,
            issue_views(issues@) == start + recorded_part(
                skills,
                keys,
                rs,
                f.statuses@,
                unavailable@,
                global,
                i as int,
            ),
        decreases n - i,
    {
        let key = state.skills.name_at(i);
        let installed = state.skills.value_at(i);
        assert(skills[keys[i as int]] == installed@);
        if !held(key.as_str(), unavailable) {
            let ghost before = issue_views(issues@);
            let found = find_resolved(resolved, key.as_str());
            let desired = match found {
                Some(at) => Some(&resolved[at]),
                None => None,
            };
            add_record(issues, key.as_str(), installed, desired, f.statuses[i], global);
            proof {
                let front = recorded_part(
                    skills,
                    keys,
                    rs,
                    f.statuses@,
                    unavailable@,
                    global,
                    i as int,
                );
                let whole = recorded_part(
                    skills,
                    keys,
                    rs,
                    f.statuses@,
                    unavailable@,
                    global,
                    i + 1,
                );
                assert(issue_views(issues@) =~= start + whole);
            }
        }
        i = i + 1;
    }
}

fn add_missing(issues: &mut Vec<DoctorIssue>, state: &InstalledState, resolved: &Vec<ResolvedSkill<'_>>)
    ensures
        issue_views(final(issues)@) == issue_views(old(issues)@) + missing_part(
            state@.skills,
            resolved_views(resolved@),
            resolved@.len() as int,
        ),
{
    let ghost start = issue_views(issues@);
    let ghost rs = resolved_views(resolved@);
    let mut i: usize = 0;
    assert(start + Seq::<IssueView>::empty() =~= start);
    while i < resolved.len()
        invariant
            i <= resolved@.len(),
            rs == resolved_views(resolved@),
            issue_views(issues@) == start + missing_part(state@.skills, rs, i as int),
        decreases resolved@.len() - i,
    {
        assert(rs[i as int] == resolved@[i as int]@);
        if !state.skills.contains(resolved[i].key.as_str()) {
            add_issue(
                issues,
                "missing-owned-skill",
                cat2(resolved[i].key.as_str(), " is desired but absent from ownership state"),
                true,
            );
        }
        i = i + 1;
        assert(issue_views(issues@) =~= start + missing_part(state@.skills, rs, i as int));
    }
}

fn add_paths(issues: &mut Vec<DoctorIssue>, paths: &Vec<String>, is_owned: bool)
    ensures
        issue_views(final(issues)@) == issue_views(old(issues)@) + path_issues(
            views(paths@),
            is_owned,
            paths@.len() as int,
        ),
{
    let ghost start = issue_views(issues@);
    assert(start + Seq::<IssueView>::empty() =~= start);
    if is_owned {
        return;
    }
    let mut i: usize = 0;
    while i < paths.len()
        invariant
            i <= paths@.len(),
            !is_owned,
            issue_views(issues@) == start + path_issues(views(paths@), is_owned, i as int),
        decreases paths@.len() - i,
    {
        add_issue(
            issues,
            "unowned-conflict",
            cat2("refusing to replace unowned projection ", paths[i].as_str()),
            false,
        );
        i = i + 1;
        assert(issue_views(issues@) =~= start + path_issues(views(paths@), is_owned, i as int));
    }
}

fn add_agents(issues: &mut Vec<DoctorIssue>, agents: &NameMap<Result<NameSet, String>>, name: &str, is_owned: bool)
    ensures
        issue_views(final(issues)@) == issue_views(old(issues)@) + agent_issues(
            agents@,
            walk(agents@.dom()),
            name@,
            is_owned,
            walk(agents@.dom()).len() as int,
        ),
{
    let ghost start = issue_views(issues@);
    let n: usize = agents.len();
    let ghost order = agents.names();
    proof {
        lemma_walk(order);
        assert(start + Seq::<IssueView>::empty() =~= start);
    }
    let mut i: usize = 0;
    while i < n
        invariant
            i <= n == order.len(),
            order == agents.names(),
            issue_views(issues@) == start + agent_issues(
                agents@,
                order,
                name@,
                is_owned,
                i as int,
            ),
        decreases n - i,
    {
        let agent = agents.name_at(i);
        let ghost before = issue_views(issues@);
        match agents.value_at(i) {
            Err(e) => {
                add_issue(issues, "agent-target", e.clone(), false);
            },
            Ok(names) => {
                if names.contains(name) {
                    if !is_owned {
                        add_issue(
                            issues,
                            "unowned-conflict",
                            cat4(
                                "refusing to replace unowned ",
                                name,
                                " for Vercel agent ",
                                agent.as_str(),
                            ),
                            false,
                        );
                    }
                } else {
                    add_issue(
                        issues,
                        "projection-drift",
                        cat3(name, " is missing for Vercel agent ", agent.as_str()),
                        true,
                    );
                }
            },
        }
        proof {
            let more = agent_issue(order[i as int], agents@[order[i as int]], name@, is_owned);
            assert(issue_views(issues@) =~= before + more);
            assert(issue_views(issues@) =~= start + agent_issues(
                agents@,
                order,
                name@,
                is_owned,
                i + 1,
            ));
        }
        i = i + 1;
    }
}

fn add_names(issues: &mut Vec<DoctorIssue>, f: &Findings, names: &NameSet, owned: &NameSet)
    requires
        f.projections@.len() == names.names().len(),
    ensures
        issue_views(final(issues)@) == issue_views(old(issues)@) + name_part(
            *f,
            names.names(),
            owned@,
            names.names().len() as int,
        ),
{
    let ghost start = issue_views(issues@);
    let n: usize = names.len();
    let ghost list = names.names();
    assert(start + Seq::<IssueView>::empty() =~= start);
    let mut i: usize = 0;
    while i < n
        invariant
            i <= n == list.len(),
            list == names.names(),
            f.projections@.len() == n,
            issue_views(issues@) == start + name_part(*f, list, owned@, i as int),
        decreases n - i,
    {
        let name = names.name_at(i);
        let is_owned = owned.contains(name.as_str());
        let ghost before = issue_views(issues@);
        add_paths(issues, &f.projections[i], is_owned);
        add_agents(issues, &f.agents, name.as_str(), is_owned);
        assert(issue_views(issues@) =~= start + name_part(*f, list, owned@, i + 1));
        i = i + 1;
    }
}

/// The issues without repetitions, in order.
pub fn deduplicate_issues(issues: &Vec<DoctorIssue>) -> (r: Vec<DoctorIssue>)
    ensures
        issue_views(r@) == deduplicated(issue_views(issues@), issues@.len() as int),
{
    let ghost all = issue_views(issues@);
    let mut out: Vec<DoctorIssue> = Vec::new();
    let mut i: usize = 0;
    assert(issue_views(out@) =~= Seq::<IssueView>::empty());
    while i < issues.len()
        invariant
            i <= issues@.len(),
            all == issue_views(issues@),
            issue_views(out@) == deduplicated(all, i as int),
        decreases issues@.len() - i,
    {
        let mut repeated = false;
        let mut j: usize = 0;
        while j < i
            invariant
                j <= i < issues@.len(),
                all == issue_views(issues@),
                repeated == (exists|k: int|
                    0 <= k < j && (#[trigger] all[k]).code == all[i as int].code && all[k].message
                        == all[i as int].message),
            decreases i - j,
        {
            assert(all[j as int] == issues@[j as int]@);
            assert(all[i as int] == issues@[i as int]@);
            if same(issues[j].code, issues[i].code) && same(
                issues[j].message.as_str(),
                issues[i].message.as_str(),
            ) {
                repeated = true;
            }
            j = j + 1;
        }
        if !repeated {
            let ghost before = out@;
            let item = issues[i].clone();
            out.push(item);
            assert(issue_views(out@) =~= issue_views(before).push(item@));
        }
        i = i + 1;
    }
    out
}

/// What a diagnosis found.
#[derive(Debug)]
pub struct Diagnosis {
    pub issues: Vec<DoctorIssue>,
    /// The names that an interrupted transaction may replace and remove.
    pub authorization: Option<NameSet>,
}

pub open spec fn resolution_view(resolved: Result<Vec<ResolvedSkill>, Failure>) -> Resolution {
    match resolved {
        Ok(v) => Ok(resolved_views(v@)),
        Err(f) => Err(f@),
    }
}

pub open spec fn journal_view(journal: Option<&TransactionJournal>) -> Option<TransactionJournal> {
    match journal {
        Some(j) => Some(*j),
        None => None,
    }
}

/// The names that are owned, with those that an interrupted transaction claims.
pub fn owned_with(state: &InstalledState, claim: &Option<NameSet>) -> (r: NameSet)
    ensures
        r@ == owned_names(
            state@.skills,
            match claim {
                Some(names) => names@,
                None => Set::empty(),
            },
        ),
{
    match claim {
        Some(names) => crate::reconcile::owned_set(state, names),
        None => {
            let none = NameSet::new();
            crate::reconcile::owned_set(state, &none)
        },
    }
}

fn add_state(issues: &mut Vec<DoctorIssue>, f: &Findings, state: &InstalledState, prefix: &str) -> (r: Result<
    (),
    Failure,
>)
    ensures
        match r {
            Ok(_) => diagnosis_refusal(*f, *state, prefix@) is None && issue_views(final(issues)@)
                == issue_views(old(issues)@) + state_part(*f, state.version),
            Err(e) => diagnosis_refusal(*f, *state, prefix@) == Some(e@),
        },
{
    let ghost before = issue_views(issues@);
    match &f.state_path_error {
        Some(e) => {
            add_issue(issues, "installed-state-path", e.clone(), false);
        },
        None => match &f.state_error {
            Some(e) => {
                add_issue(issues, "installed-state", e.clone(), false);
            },
            None => {
                match validate_installed_state(state.version) {
                    Ok(_) => {},
                    Err(e) => return Err(e),
                }
                match validate_owned_state(state, prefix) {
                    Ok(_) => {},
                    Err(e) => return Err(e),
                }
                if state.version != INSTALLED_STATE_VERSION {
                    add_issue(
                        issues,
                        "legacy-state",
                        cat4(
                            f.state_path.as_str(),
                            " uses installed-state schema ",
                            decimal_of(state.version as u64).as_str(),
                            "; the next repair writes compact schema 3",
                        ),
                        true,
                    );
                }
            },
        },
    }
    assert(issue_views(issues@) =~= before + state_part(*f, state.version));
    Ok(())
}

fn add_journal(issues: &mut Vec<DoctorIssue>, f: &Findings)
    ensures
        issue_views(final(issues)@) == issue_views(old(issues)@) + journal_part(*f),
{
    let ghost before = issue_views(issues@);
    match &f.journal_path_error {
        Some(e) => {
            add_issue(issues, "transaction-path", e.clone(), false);
        },
        None => match &f.journal_error {
            Some(e) => {
                add_issue(issues, "transaction", e.clone(), false);
            },
            None => {},
        },
    }
    assert(issue_views(issues@) =~= before + journal_part(*f));
}

fn add_transaction(
    issues: &mut Vec<DoctorIssue>,
    journal: Option<&TransactionJournal>,
    resolved: &Result<Vec<ResolvedSkill<'_>>, Failure>,
    global: bool,
    fingerprint: &str,
    state: &InstalledState,
) -> (r: Option<NameSet>)
    ensures
        ({
            let rs = resolution_view(*resolved);
            let j = journal_view(journal);
            let c = claimed(j, rs, global, fingerprint@, state@.skills);
            &&& issue_views(final(issues)@) == issue_views(old(issues)@) + transaction_part(
                j,
                rs,
                global,
                fingerprint@,
                state@.skills,
            )
            &&& match r {
                Some(names) => c == Some(names@),
                None => c is None,
            }
        }),
{
    let ghost before = issue_views(issues@);
    let ghost part = transaction_part(
        journal_view(journal),
        resolution_view(*resolved),
        global,
        fingerprint@,
        state@.skills,
    );
    let mut authorization: Option<NameSet> = None;
    match journal {
        None => {},
        Some(record) => match resolved {
            Err(_) => {
                add_issue(
                    issues,
                    "invalid-transaction",
                    String::from_str(
                        "transaction cannot be validated without a valid desired state",
                    ),
                    false,
                );
            },
            Ok(list) => match validate_transaction(record, global, fingerprint, list, state) {
                Ok(names) => {
                    add_issue(
                        issues,
                        "interrupted-transaction",
                        cat4(
                            "unfinished ",
                            if global { "global" } else { "project" },
                            " transaction at phase ",
                            phase_name(record.phase),
                        ),
                        true,
                    );
                    authorization = Some(names);
                },
                Err(e) => {
                    add_issue(issues, "invalid-transaction", e.message(), false);
                },
            },
        },
    }
    assert(issue_views(issues@) =~= before + part);
    authorization
}

/// Diagnoses an installation.
///
/// `renames` is what migrating declared renames gave, `resolved` what resolving the migrated
/// configuration gave, and `fingerprint` the digest of that configuration.
pub fn diagnose(
    f: &Findings,
    renames: &Result<Vec<String>, Failure>,
    state: &InstalledState,
    prefix: &str,
    resolved: &Result<Vec<ResolvedSkill<'_>>, Failure>,
    journal: Option<&TransactionJournal>,
    fingerprint: &str,
    unavailable: &NameSet,
    global: bool,
) -> (r: Result<Diagnosis, Failure>)
    requires
        f.statuses@.len() == state.skills.names().len(),
        resolved matches Ok(v) ==> f.projections@.len() == walk(
            resolved_names(resolved_views(v@)),
        ).len(),
    ensures
        ({
            let rs = resolution_view(*resolved);
            let j = journal_view(journal);
            match r {
                Ok(d) => {
                    let all = all_issues(
                        *f,
                        rename_view(*renames),
                        *state,
                        rs,
                        j,
                        fingerprint@,
                        unavailable@,
                        global,
                    );
                    &&& diagnosis_refusal(*f, *state, prefix@) is None
                    &&& issue_views(d.issues@) == deduplicated(all, all.len() as int)
                    &&& match d.authorization {
                        Some(names) => claimed(j, rs, global, fingerprint@, state@.skills) == Some(
                            names@,
                        ),
                        None => claimed(j, rs, global, fingerprint@, state@.skills) is None,
                    }
                },
                Err(e) => diagnosis_refusal(*f, *state, prefix@) == Some(e@),
            }
        }),
{
    let ghost rs = resolution_view(*resolved);
    let ghost j = journal_view(journal);
    let ghost skills = state@.skills;
    let mut issues: Vec<DoctorIssue> = Vec::new();
    assert(issue_views(issues@) =~= Seq::<IssueView>::empty());
    add_renames(&mut issues, renames);
    let ghost p1 = rename_part(rename_view(*renames));
    assert(issue_views(issues@) =~= p1);
    let ghost p2 = state_part(*f, state.version);
    match add_state(&mut issues, f, state, prefix) {
        Ok(_) => {},
        Err(e) => return Err(e),
    }
    assert(issue_views(issues@) =~= p1 + p2);
    let ghost p3 = journal_part(*f);
    add_journal(&mut issues, f);
    assert(issue_views(issues@) =~= p1 + p2 + p3);
    add_residue(&mut issues, f);
    let ghost p4 = residue_part(*f);
    let ghost p5 = desired_part(rs);
    match resolved {
        Ok(_) => {},
        Err(e) => {
            add_issue(&mut issues, "desired-state", e.message(), false);
        },
    }
    assert(issue_views(issues@) =~= p1 + p2 + p3 + p4 + p5);
    let ghost p6 = transaction_part(j, rs, global, fingerprint@, skills);
    let ghost c = claimed(j, rs, global, fingerprint@, skills);
    let authorization = add_transaction(&mut issues, journal, resolved, global, fingerprint, state);
    proof {
        assert(issue_views(issues@) =~= p1 + p2 + p3 + p4 + p5 + p6);
        assert(authorization is Some ==> c == Some(authorization->Some_0@));
        assert(authorization is None ==> c is None);
    }
    let ghost claim = match c {
        Some(names) => names,
        None => Set::empty(),
    };
    match resolved {
        Err(_) => {
            assert(issue_views(issues@) + Seq::<IssueView>::empty() =~= issue_views(issues@));
        },
        Ok(list) => {
            let names = names_of(list);
            proof {
                lemma_walk(names.names());
            }
            let owned = owned_with(state, &authorization);
            let ghost start = issue_views(issues@);
            add_recorded(&mut issues, f, state, list, unavailable, global);
            add_missing(&mut issues, state, list);
            add_names(&mut issues, f, &names, &owned);
            proof {
                let part = resolved_part(
                    *f,
                    skills,
                    resolved_views(list@),
                    unavailable@,
                    global,
                    claim,
                );
                assert(issue_views(issues@) =~= start + part);
            }
        },
    }
    let kept = deduplicate_issues(&issues);
    Ok(Diagnosis { issues: kept, authorization })
}

// Catalogs.

pub open spec fn count_at(counts: Map<Text, usize>, alias: Text) -> nat {
    if counts.contains_key(alias) {
        counts[alias] as nat
    } else {
        0
    }
}

/// The reports on the first `n` catalogs that are not at hand.
pub open spec fn doctor_reports(
    statuses: Map<Text, CatalogStatus>,
    order: Seq<Text>,
    declared: Map<Text, usize>,
    recorded: Set<Text>,
    n: int,
) -> Seq<CatalogReportView>
    decreases n,
{
    if n <= 0 {
        Seq::empty()
    } else {
        let front = doctor_reports(statuses, order, declared, recorded, n - 1);
        let status = statuses[order[n - 1]];
        if status.availability == CatalogAvailability::Available {
            front
        } else {
            front.push(
                report_of(
                    status,
                    count_at(declared, status.alias@),
                    owned_count(recorded, status.alias@),
                ),
            )
        }
    }
}

/// Reports on the catalogs that are not at hand.
pub fn doctor_catalog_statuses(
    statuses: &NameMap<CatalogStatus>,
    declared: &NameMap<usize>,
    state: &InstalledState,
) -> (r: Vec<CatalogReport>)
    ensures
        report_views(r@) == doctor_reports(
            statuses@,
            walk(statuses@.dom()),
            declared@,
            state.skills@.dom(),
            walk(statuses@.dom()).len() as int,
        ),
{
    let mut out: Vec<CatalogReport> = Vec::new();
    let n: usize = statuses.len();
    let ghost order = statuses.names();
    proof {
        lemma_walk(order);
        assert(report_views(out@) =~= Seq::<CatalogReportView>::empty());
    }
    let mut i: usize = 0;
    while i < n
        invariant
            i <= n == order.len(),
            order == statuses.names(),
            report_views(out@) == doctor_reports(
                statuses@,
                order,
                declared@,
                state.skills@.dom(),
                i as int,
            ),
        decreases n - i,
    {
        let status = statuses.value_at(i);
        if status.availability != CatalogAvailability::Available {
            let count: usize = match declared.get(status.alias.as_str()) {
                Some(count) => *count,
                None => 0,
            };
            let report = report_catalog(
                status,
                count,
                count_keys(&state.skills, status.alias.as_str()),
            );
            let ghost before = out@;
            out.push(report);
            assert(report_views(out@) =~= report_views(before).push(report@));
        }
        i = i + 1;
    }
    out
}

// Reports.

pub open spec fn is_update_code(code: Text) -> bool {
    code == "update-available"@
}

pub open spec fn is_install_code(code: Text) -> bool {
    code == "missing-owned-skill"@ || code == "ownership-drift"@ || code == "projection-drift"@
}

pub open spec fn any_update(issues: Seq<IssueView>) -> bool {
    exists|i: int| 0 <= i < issues.len() && is_update_code((#[trigger] issues[i]).code)
}

pub open spec fn any_install(issues: Seq<IssueView>) -> bool {
    exists|i: int| 0 <= i < issues.len() && is_install_code((#[trigger] issues[i]).code)
}

/// Whether something can be repaired that neither an update nor an installation mends.
pub open spec fn any_repair(issues: Seq<IssueView>) -> bool {
    exists|i: int|
        0 <= i < issues.len() && (#[trigger] issues[i]).fixable && !is_update_code(issues[i].code)
            && !is_install_code(issues[i].code)
}

pub open spec fn flag_of(scope: Text) -> Text {
    if scope == "global"@ {
        " -g"@
    } else {
        ""@
    }
}

/// The commands that mend what was found.
pub open spec fn recommendations(scope: Text, issues: Seq<IssueView>, reports: bool) -> Seq<Text> {
    let first = if reports || any_update(issues) {
        seq![
            "Run `skiller update"@ + flag_of(scope) + "` to refresh and review catalog updates."@,
        ]
    } else {
        Seq::empty()
    };
    let second = if any_install(issues) {
        first.push(
            "Run `skiller install"@ + flag_of(scope) + "` to reconcile desired projections."@,
        )
    } else {
        first
    };
    if any_repair(issues) {
        second.push(
            "Run `skiller doctor"@ + flag_of(scope)
                + " --repair` to repair Skiller-owned state."@,
        )
    } else {
        second
    }
}

pub fn recommendation_commands(scope: &str, issues: &Vec<DoctorIssue>, reports: &Vec<CatalogReport>) -> (r: Vec<String>)
    ensures
        views(r@) == recommendations(scope@, issue_views(issues@), reports@.len() > 0),
{
    let flag = if same(scope, "global") {
        " -g"
    } else {
        ""
    };
    let ghost all = issue_views(issues@);
    let mut update = false;
    let mut install = false;
    let mut repair = false;
    let mut i: usize = 0;
    while i < issues.len()
        invariant
            i <= issues@.len(),
            all == issue_views(issues@),
            update == (exists|j: int| 0 <= j < i && is_update_code((#[trigger] all[j]).code)),
            install == (exists|j: int| 0 <= j < i && is_install_code((#[trigger] all[j]).code)),
            repair == (exists|j: int|
                0 <= j < i && (#[trigger] all[j]).fixable && !is_update_code(all[j].code)
                    && !is_install_code(all[j].code)),
        decreases issues@.len() - i,
    {
        assert(all[i as int] == issues@[i as int]@);
        let code = issues[i].code;
        let updates = same(code, "update-available");
        let installs = same(code, "missing-owned-skill") || same(code, "ownership-drift") || same(
            code,
            "projection-drift",
        );
        if updates {
            update = true;
        }
        if installs {
            install = true;
        }
        if issues[i].fixable && !updates && !installs {
            repair = true;
        }
        i = i + 1;
    }
    let mut out: Vec<String> = Vec::new();
    if reports.len() > 0 || update {
        out.push(
            cat3("Run `skiller update", flag, "` to refresh and review catalog updates."),
        );
    }
    if install {
        out.push(cat3("Run `skiller install", flag, "` to reconcile desired projections."));
    }
    if repair {
        out.push(
            cat3("Run `skiller doctor", flag, " --repair` to repair Skiller-owned state."),
        );
    }
    assert(views(out@) =~= recommendations(scope@, all, reports@.len() > 0));
    out
}

pub open spec fn issue_line(i: IssueView) -> LineView {
    let text = "["@ + i.code + "] "@ + i.message + if i.fixable {
        " [repairable]"@
    } else {
        ""@
    };
    if i.fixable {
        LineView::Warning(text)
    } else {
        LineView::Error(text)
    }
}

pub open spec fn report_line(r: CatalogReportView) -> LineView {
    LineView::Warning(
        "catalog "@ + r.alias + " is "@ + r.availability + match r.warning {
            Some(w) => ": "@ + w,
            None => ""@,
        },
    )
}

/// Whether an issue is shown with the conflicts of its skill instead of by itself.
pub open spec fn is_grouped(i: IssueView, conflicts: Seq<OwnershipView>) -> bool {
    i.code == "unowned-conflict"@ && conflicts.len() > 0
}

/// The lines of the first `n` issues that are shown by themselves.
pub open spec fn issue_lines(issues: Seq<IssueView>, conflicts: Seq<OwnershipView>, n: int) -> Seq<LineView>
    decreases n,
{
    if n <= 0 {
        Seq::empty()
    } else if is_grouped(issues[n - 1], conflicts) {
        issue_lines(issues, conflicts, n - 1)
    } else {
        issue_lines(issues, conflicts, n - 1).push(issue_line(issues[n - 1]))
    }
}

/// What a diagnosis shows: its issues, with the ownership conflicts grouped by skill, the
/// catalogs that are not at hand, and what to do next.
pub open spec fn report_lines(
    scope: Text,
    issues: Seq<IssueView>,
    conflicts: Seq<OwnershipView>,
    reports: Seq<CatalogReportView>,
) -> Seq<LineView> {
    let next = recommendations(scope, issues, reports.len() > 0);
    (if issues.len() == 0 {
        seq![LineView::Success(scope + " Skiller state is healthy"@)]
    } else {
        seq![
            LineView::Heading(
                scope + " diagnosis · "@ + decimal(issues.len()) + " issue(s)"@,
            ),
        ] + issue_lines(issues, conflicts, issues.len() as int) + all_conflict_lines(
            scope,
            conflicts,
            conflicts.len() as int,
        )
    }) + reports.map_values(|r: CatalogReportView| report_line(r)) + (if next.len() > 0 {
        seq![LineView::Heading("Recommended next steps"@)] + next.map_values(
            |t: Text| LineView::Info(t),
        )
    } else {
        Seq::empty()
    })
}

fn push_line(lines: &mut Vec<Line>, line: Line)
    ensures
        line_views(final(lines)@) == line_views(old(lines)@).push(line@),
{
    let ghost before = lines@;
    lines.push(line);
    assert(line_views(lines@) =~= line_views(before).push(line@));
}

/// The lines of a diagnosis for people.
pub fn human_report(
    scope: &str,
    issues: &Vec<DoctorIssue>,
    conflicts: &Vec<OwnershipConflict>,
    reports: &Vec<CatalogReport>,
) -> (r: Vec<Line>)
    ensures
        line_views(r@) == report_lines(
            scope@,
            issue_views(issues@),
            ownership_views(conflicts@),
            report_views(reports@),
        ),
{
    let mut out: Vec<Line> = Vec::new();
    let ghost all = issue_views(issues@);
    let ghost groups = ownership_views(conflicts@);
    let ghost total = issues@.len() as int;
    assert(line_views(out@) =~= Seq::<LineView>::empty());
    if issues.len() == 0 {
        push_line(&mut out, Line::Success(cat2(scope, " Skiller state is healthy")));
    } else {
        push_line(
            &mut out,
            Line::Heading(
                cat4(
                    scope,
                    " diagnosis · ",
                    decimal_of(issues.len() as u64).as_str(),
                    " issue(s)",
                ),
            ),
        );
        let ghost head = line_views(out@);
        let mut i: usize = 0;
        assert(head + issue_lines(all, groups, 0) =~= head);
        while i < issues.len()
            invariant
                i <= issues@.len(),
                all == issue_views(issues@),
                groups == ownership_views(conflicts@),
                line_views(out@) == head + issue_lines(all, groups, i as int),
            decreases issues@.len() - i,
        {
            let item = &issues[i];
            assert(all[i as int] == item@);
            if !(same(item.code, "unowned-conflict") && conflicts.len() > 0) {
                let mut text = cat4("[", item.code, "] ", item.message.as_str());
                text.append(if item.fixable { " [repairable]" } else { "" });
                push_line(
                    &mut out,
                    if item.fixable {
                        Line::Warning(text)
                    } else {
                        Line::Error(text)
                    },
                );
                assert(line_views(out@) =~= head + issue_lines(all, groups, i as int + 1));
            }
            i = i + 1;
        }
        push_conflicts(&mut out, scope, conflicts);
        assert(line_views(out@) =~= head + issue_lines(all, groups, total) + all_conflict_lines(
            scope@,
            groups,
            groups.len() as int,
        ));
    }
    let ghost first = line_views(out@);
    let ghost listed = report_views(reports@).map_values(|r: CatalogReportView| report_line(r));
    let mut k: usize = 0;
    assert(first + listed.take(0) =~= first);
    while k < reports.len()
        invariant
            k <= reports@.len() == listed.len(),
            listed == report_views(reports@).map_values(|r: CatalogReportView| report_line(r)),
            line_views(out@) == first + listed.take(k as int),
        decreases reports@.len() - k,
    {
        let report = &reports[k];
        assert(report_views(reports@)[k as int] == report@);
        let mut text = cat4("catalog ", report.alias.as_str(), " is ", report.availability);
        match &report.warning {
            Some(w) => {
                text.append(cat2(": ", w.as_str()).as_str());
            },
            None => {
                text.append("");
            },
        }
        push_line(&mut out, Line::Warning(text));
        k = k + 1;
        assert(listed.take(k as int) =~= listed.take(k - 1).push(listed[k - 1]));
        assert(line_views(out@) =~= first + listed.take(k as int));
    }
    assert(listed.take(k as int) =~= listed);
    let next = recommendation_commands(scope, issues, reports);
    let ghost texts = views(next@);
    let ghost infos = texts.map_values(|t: Text| LineView::Info(t));
    let ghost second = first + listed;
    if next.len() > 0 {
        push_line(&mut out, Line::Heading(String::from_str("Recommended next steps")));
        let ghost head = line_views(out@);
        let mut m: usize = 0;
        assert(head + infos.take(0) =~= head);
        while m < next.len()
            invariant
                m <= next@.len() == infos.len(),
                texts == views(next@),
                infos == texts.map_values(|t: Text| LineView::Info(t)),
                line_views(out@) == head + infos.take(m as int),
            decreases next@.len() - m,
        {
            push_line(&mut out, Line::Info(next[m].clone()));
            m = m + 1;
            assert(infos.take(m as int) =~= infos.take(m - 1).push(infos[m - 1]));
            assert(line_views(out@) =~= head + infos.take(m as int));
        }
        assert(infos.take(m as int) =~= infos);
        assert(line_views(out@) =~= second + (seq![
            LineView::Heading("Recommended next steps"@),
        ] + infos));
    } else {
        assert(second + Seq::<LineView>::empty() =~= second);
    }
    assert(line_views(out@) =~= report_lines(scope@, all, groups, report_views(reports@)));
    out
}

// Repair.

/// What follows a diagnosis.
#[derive(Debug, Clone, Copy, PartialEq, Eq, Structural)]
pub enum RepairStep {
    /// Nothing was asked for, or nothing is wrong.
    Stop,
    /// Ask before changing anything.
    Confirm,
    Repair,
}

pub open spec fn all_fixable(issues: Seq<IssueView>) -> bool {
    forall|i: int| 0 <= i < issues.len() ==> (#[trigger] issues[i]).fixable
}

/// Decides what follows a diagnosis. Nothing is repaired unless everything can be.
pub fn decide_repair(issues: &Vec<DoctorIssue>, repair: bool, yes: bool) -> (r: Result<RepairStep, Failure>)
    ensures
        ({
            let all = issue_views(issues@);
            if !repair || all.len() == 0 {
                r == Ok::<RepairStep, Failure>(RepairStep::Stop)
            } else if !all_fixable(all) {
                r matches Err(f) && f@
                    == "Doctor found non-repairable issues; no changes were made"@
            } else {
                r == Ok::<RepairStep, Failure>(
                    if yes {
                        RepairStep::Repair
                    } else {
                        RepairStep::Confirm
                    },
                )
            }
        }),
{
    if !repair || issues.len() == 0 {
        return Ok(RepairStep::Stop);
    }
    let ghost all = issue_views(issues@);
    let mut i: usize = 0;
    while i < issues.len()
        invariant
            i <= issues@.len(),
            repair && issues@.len() > 0,
            all == issue_views(issues@),
            forall|j: int| 0 <= j < i ==> (#[trigger] all[j]).fixable,
        decreases issues@.len() - i,
    {
        assert(all[i as int] == issues@[i as int]@);
        if !issues[i].fixable {
            assert(!all_fixable(all));
            return Err(
                Failure::new(
                    String::from_str(
                        "Doctor found non-repairable issues; no changes were made",
                    ),
                ),
            );
        }
        i = i + 1;
    }
    if yes {
        Ok(RepairStep::Repair)
    } else {
        Ok(RepairStep::Confirm)
    }
}

/// The question before a repair. Without a terminal there is nobody to ask.
pub fn repair_question(terminal: bool, scope: &str, count: usize) -> (r: Result<String, Failure>)
    ensures
        match r {
            Ok(question) => terminal && question@ == "Repair "@ + decimal(count as nat) + " "@
                + scope@ + " issue(s)? [y/N]: "@,
            Err(f) => !terminal && f@ == "noninteractive Doctor repair requires --yes"@,
        },
{
    if !terminal {
        return Err(
            Failure::new(String::from_str("noninteractive Doctor repair requires --yes")),
        );
    }
    Ok(
        cat5(
            "Repair ",
            decimal_of(count as u64).as_str(),
            " ",
            scope,
            " issue(s)? [y/N]: ",
        ),
    )
}

/// Reads the answer to the question before a repair.
pub fn confirms_repair(answer: &str) -> (r: bool)
    ensures
        r == ({
            let a = lower_text(trim(answer@));
            a == "y"@ || a == "yes"@
        }),
{
    let bare = trimmed(answer);
    let a = lowered(bare.as_str());
    same(a.as_str(), "y") || same(a.as_str(), "yes")
}

/// The one issue of a configuration that could not be loaded, and whether asking for a repair
/// fails.
pub fn configuration_issue(error: &str, repair: bool) -> (r: (DoctorIssue, Result<(), Failure>))
    ensures
        r.0@ == issue("configuration"@, error@, false),
        crate::failure::refusal(r.1) == (if repair {
            Some("Doctor cannot repair invalid configuration or catalog data"@)
        } else {
            None
        }),
{
    let item = DoctorIssue { code: "configuration", message: error.to_owned(), fixable: false };
    if repair {
        (
            item,
            Err(
                Failure::new(
                    String::from_str("Doctor cannot repair invalid configuration or catalog data"),
                ),
            ),
        )
    } else {
        (item, Ok(()))
    }
}

/// An unowned projection keeps a diagnosis from being repaired.
pub proof fn law_unowned_projection_blocks_repair(
    f: Findings,
    renames: Result<Seq<Text>, Text>,
    state: InstalledState,
    rs: Seq<ResolvedView>,
    journal: Option<TransactionJournal>,
    fingerprint: Text,
    unavailable: Set<Text>,
    global: bool,
    i: int,
    k: int,
)
    requires
        0 <= i < walk(resolved_names(rs)).len(),
        0 <= k < f.projections@[i]@.len(),
        !owned_names(
            state@.skills,
            match claimed(
                journal,
                Ok::<Seq<ResolvedView>, Text>(rs),
                global,
                fingerprint,
                state@.skills,
            ) {
                Some(names) => names,
                None => Set::empty(),
            },
        ).contains(walk(resolved_names(rs))[i]),
    ensures
        ({
            let all = all_issues(
                f,
                renames,
                state,
                Ok::<Seq<ResolvedView>, Text>(rs),
                journal,
                fingerprint,
                unavailable,
                global,
            );
            !all_fixable(deduplicated(all, all.len() as int))
        }),
{
    let names = walk(resolved_names(rs));
    let claim = match claimed(
        journal,
        Ok::<Seq<ResolvedView>, Text>(rs),
        global,
        fingerprint,
        state@.skills,
    ) {
        Some(found) => found,
        None => Set::empty(),
    };
    let owned = owned_names(state@.skills, claim);
    let paths = views(f.projections@[i]@);
    let want = issue(
        "unowned-conflict"@,
        "refusing to replace unowned projection "@ + paths[k],
        false,
    );
    lemma_path_issue(paths, k, paths.len() as int);
    lemma_name_issue(f, names, owned, i, names.len() as int, want);
    let all = all_issues(
        f,
        renames,
        state,
        Ok::<Seq<ResolvedView>, Text>(rs),
        journal,
        fingerprint,
        unavailable,
        global,
    );
    let part = resolved_part(f, state@.skills, rs, unavailable, global, claim);
    let tail = name_part(f, names, owned, names.len() as int);
    let at = tail.index_of(want);
    let b = part.len() - tail.len() + at;
    assert(part[b] == want);
    let c = all.len() - part.len() + b;
    assert(all[c] == want);
    lemma_deduplicated_keeps(all, all.len() as int, c);
    let kept = deduplicated(all, all.len() as int);
    lemma_all_safe(
        f,
        renames,
        state,
        Ok::<Seq<ResolvedView>, Text>(rs),
        journal,
        fingerprint,
        unavailable,
        global,
    );
    lemma_deduplicated_members(all, all.len() as int);
    let d = choose|d: int|
        0 <= d < kept.len() && (#[trigger] kept[d]).code == all[c].code && kept[d].message
            == all[c].message;
    let e = choose|e: int| 0 <= e < all.len() && #[trigger] all[e] == kept[d];
    assert(all[e].fixable ==> all[e].code != "unowned-conflict"@);
    assert(!kept[d].fixable);
}

proof fn lemma_path_issue(paths: Seq<Text>, k: int, n: int)
    requires
        0 <= k < n <= paths.len(),
    ensures
        path_issues(paths, false, n).contains(
            issue(
                "unowned-conflict"@,
                "refusing to replace unowned projection "@ + paths[k],
                false,
            ),
        ),
    decreases n,
{
    let want = issue(
        "unowned-conflict"@,
        "refusing to replace unowned projection "@ + paths[k],
        false,
    );
    let front = path_issues(paths, false, n - 1);
    let all = path_issues(paths, false, n);
    if k == n - 1 {
        assert(all[front.len() as int] == want);
    } else {
        lemma_path_issue(paths, k, n - 1);
        let at = front.index_of(want);
        assert(all[at] == want);
    }
}

proof fn lemma_name_issue(f: Findings, names: Seq<Text>, owned: Set<Text>, i: int, n: int, want: IssueView)
    requires
        0 <= i < n <= names.len(),
        !owned.contains(names[i]),
        path_issues(
            views(f.projections@[i]@),
            false,
            views(f.projections@[i]@).len() as int,
        ).contains(want),
    ensures
        name_part(f, names, owned, n).contains(want),
    decreases n,
{
    let front = name_part(f, names, owned, n - 1);
    let all = name_part(f, names, owned, n);
    if i == n - 1 {
        let paths = views(f.projections@[i]@);
        let part = path_issues(paths, false, paths.len() as int);
        let at = part.index_of(want);
        assert(all[front.len() + at] == want);
    } else {
        lemma_name_issue(f, names, owned, i, n - 1, want);
        let at = front.index_of(want);
        assert(all[at] == want);
    }
}

proof fn lemma_deduplicated_keeps(all: Seq<IssueView>, n: int, c: int)
    requires
        0 <= c < n <= all.len(),
    ensures
        exists|d: int|
            0 <= d < deduplicated(all, n).len() && (#[trigger] deduplicated(all, n)[d]).code
                == all[c].code && deduplicated(all, n)[d].message == all[c].message,
    decreases n, c,
{
    let front = deduplicated(all, n - 1);
    let kept = deduplicated(all, n);
    if c == n - 1 {
        if is_repeated(all, c) {
            let j = choose|j: int|
                0 <= j < c && (#[trigger] all[j]).code == all[c].code && all[j].message
                    == all[c].message;
            lemma_deduplicated_keeps(all, n, j);
        } else {
            assert(kept[front.len() as int] == all[c]);
        }
    } else {
        lemma_deduplicated_keeps(all, n - 1, c);
        let d = choose|d: int|
            0 <= d < front.len() && (#[trigger] front[d]).code == all[c].code && front[d].message
                == all[c].message;
        assert(kept[d] == front[d]);
    }
}

proof fn lemma_deduplicated_members(all: Seq<IssueView>, n: int)
    requires
        0 <= n <= all.len(),
    ensures
        forall|d: int|
            0 <= d < deduplicated(all, n).len() ==> exists|e: int|
                0 <= e < all.len() && #[trigger] all[e] == #[trigger] deduplicated(all, n)[d],
    decreases n,
{
    if n > 0 {
        lemma_deduplicated_members(all, n - 1);
        let front = deduplicated(all, n - 1);
        let kept = deduplicated(all, n);
        assert forall|d: int| 0 <= d < kept.len() implies exists|e: int|
            0 <= e < all.len() && #[trigger] all[e] == #[trigger] kept[d] by {
            if d < front.len() {
                assert(kept[d] == front[d]);
            } else {
                assert(kept[d] == all[n - 1]);
            }
        }
    }
}

/// Nothing of this code is offered for repair.
spec fn guarded(v: Seq<IssueView>) -> bool {
    forall|i: int|
        0 <= i < v.len() ==> (!(#[trigger] v[i]).fixable || v[i].code != "unowned-conflict"@)
}

proof fn lemma_codes_differ()
    ensures
        "declared-rename"@ != "unowned-conflict"@,
        "legacy-state"@ != "unowned-conflict"@,
        "staging-residue"@ != "unowned-conflict"@,
        "interrupted-transaction"@ != "unowned-conflict"@,
        "obsolete-owned-skill"@ != "unowned-conflict"@,
        "ownership-drift"@ != "unowned-conflict"@,
        "update-available"@ != "unowned-conflict"@,
        "project-baseline"@ != "unowned-conflict"@,
        "missing-owned-skill"@ != "unowned-conflict"@,
        "projection-drift"@ != "unowned-conflict"@,
{
    reveal_strlit("unowned-conflict");
    reveal_strlit("declared-rename");
    reveal_strlit("legacy-state");
    reveal_strlit("staging-residue");
    reveal_strlit("interrupted-transaction");
    reveal_strlit("obsolete-owned-skill");
    reveal_strlit("ownership-drift");
    reveal_strlit("update-available");
    reveal_strlit("project-baseline");
    reveal_strlit("missing-owned-skill");
    reveal_strlit("projection-drift");
    let u = "unowned-conflict"@;
    assert(u[0] == 'u' && u[1] == 'n');
    assert("declared-rename"@[0] == 'd');
    assert("legacy-state"@[0] == 'l');
    assert("staging-residue"@[0] == 's');
    assert("interrupted-transaction"@[0] == 'i');
    assert("obsolete-owned-skill"@[0] == 'o');
    assert("ownership-drift"@[0] == 'o');
    assert("update-available"@[1] == 'p');
    assert("project-baseline"@[0] == 'p');
    assert("missing-owned-skill"@[0] == 'm');
    assert("projection-drift"@[0] == 'p');
}

proof fn lemma_guarded_concat(a: Seq<IssueView>, b: Seq<IssueView>)
    requires
        guarded(a),
        guarded(b),
    ensures
        guarded(a + b),
{
    let c = a + b;
    assert forall|i: int| 0 <= i < c.len() implies (!(#[trigger] c[i]).fixable || c[i].code
        != "unowned-conflict"@) by {
        if i < a.len() {
            assert(c[i] == a[i]);
        } else {
            assert(c[i] == b[i - a.len()]);
        }
    }
}

proof fn lemma_recorded_guarded(
    state: Map<Text, InstalledSkillView>,
    keys: Seq<Text>,
    rs: Seq<ResolvedView>,
    statuses: Seq<ProjectionStatus>,
    unavailable: Set<Text>,
    global: bool,
    n: int,
)
    ensures
        guarded(recorded_part(state, keys, rs, statuses, unavailable, global, n)),
    decreases n,
{
    if n > 0 {
        lemma_codes_differ();
        lemma_recorded_guarded(state, keys, rs, statuses, unavailable, global, n - 1);
        let key = keys[n - 1];
        let desired = desired_at(rs, key);
        if !is_held(key, unavailable) {
            let front = recorded_part(state, keys, rs, statuses, unavailable, global, n - 1);
            let a = record_issue(key, state[key], desired, statuses[n - 1], global);
            let b = if !global && desired is Some {
                local_issue(key, statuses[n - 1])
            } else {
                Seq::empty()
            };
            assert(guarded(a));
            assert(guarded(b));
            lemma_guarded_concat(front, a);
            lemma_guarded_concat(front + a, b);
        }
    }
}

proof fn lemma_missing_guarded(state: Map<Text, InstalledSkillView>, rs: Seq<ResolvedView>, n: int)
    ensures
        guarded(missing_part(state, rs, n)),
    decreases n,
{
    if n > 0 {
        lemma_codes_differ();
        lemma_missing_guarded(state, rs, n - 1);
    }
}

proof fn lemma_paths_guarded(paths: Seq<Text>, is_owned: bool, n: int)
    ensures
        guarded(path_issues(paths, is_owned, n)),
    decreases n,
{
    if n > 0 && !is_owned {
        lemma_paths_guarded(paths, is_owned, n - 1);
    }
}

proof fn lemma_agents_guarded(
    agents: Map<Text, Result<NameSet, String>>,
    order: Seq<Text>,
    name: Text,
    is_owned: bool,
    n: int,
)
    ensures
        guarded(agent_issues(agents, order, name, is_owned, n)),
    decreases n,
{
    if n > 0 {
        lemma_codes_differ();
        lemma_agents_guarded(agents, order, name, is_owned, n - 1);
        let one = agent_issue(order[n - 1], agents[order[n - 1]], name, is_owned);
        assert(guarded(one));
        lemma_guarded_concat(agent_issues(agents, order, name, is_owned, n - 1), one);
    }
}

proof fn lemma_names_guarded(f: Findings, names: Seq<Text>, owned: Set<Text>, n: int)
    ensures
        guarded(name_part(f, names, owned, n)),
    decreases n,
{
    if n > 0 {
        lemma_names_guarded(f, names, owned, n - 1);
        let name = names[n - 1];
        let order = walk(f.agents@.dom());
        let paths = views(f.projections@[n - 1]@);
        let front = name_part(f, names, owned, n - 1);
        let a = path_issues(paths, owned.contains(name), paths.len() as int);
        let b = agent_issues(f.agents@, order, name, owned.contains(name), order.len() as int);
        lemma_paths_guarded(paths, owned.contains(name), paths.len() as int);
        lemma_agents_guarded(f.agents@, order, name, owned.contains(name), order.len() as int);
        lemma_guarded_concat(front, a);
        lemma_guarded_concat(front + a, b);
    }
}

proof fn lemma_all_safe(
    f: Findings,
    renames: Result<Seq<Text>, Text>,
    state: InstalledState,
    resolved: Resolution,
    journal: Option<TransactionJournal>,
    fingerprint: Text,
    unavailable: Set<Text>,
    global: bool,
)
    ensures
        guarded(
            all_issues(f, renames, state, resolved, journal, fingerprint, unavailable, global),
        ),
{
    lemma_codes_differ();
    let skills = state@.skills;
    let claim = match claimed(journal, resolved, global, fingerprint, skills) {
        Some(names) => names,
        None => Set::empty(),
    };
    let p1 = rename_part(renames);
    let p2 = state_part(f, state.version);
    let p3 = journal_part(f);
    let p4 = residue_part(f);
    let p5 = desired_part(resolved);
    let p6 = transaction_part(journal, resolved, global, fingerprint, skills);
    assert(guarded(p1));
    assert(guarded(p2));
    assert(guarded(p3));
    assert(guarded(p4));
    assert(guarded(p5));
    assert(guarded(p6));
    lemma_guarded_concat(p1, p2);
    lemma_guarded_concat(p1 + p2, p3);
    lemma_guarded_concat(p1 + p2 + p3, p4);
    lemma_guarded_concat(p1 + p2 + p3 + p4, p5);
    lemma_guarded_concat(p1 + p2 + p3 + p4 + p5, p6);
    let p7 = match resolved {
        Ok(rs) => resolved_part(f, skills, rs, unavailable, global, claim),
        Err(_) => Seq::empty(),
    };
    match resolved {
        Ok(rs) => {
            let keys = walk(skills.dom());
            let names = walk(resolved_names(rs));
            let a = recorded_part(
                skills,
                keys,
                rs,
                f.statuses@,
                unavailable,
                global,
                keys.len() as int,
            );
            let b = missing_part(skills, rs, rs.len() as int);
            let owned = owned_names(skills, claim);
            lemma_recorded_guarded(
                skills,
                keys,
                rs,
                f.statuses@,
                unavailable,
                global,
                keys.len() as int,
            );
            lemma_missing_guarded(skills, rs, rs.len() as int);
            lemma_names_guarded(f, names, owned, names.len() as int);
            lemma_guarded_concat(a, b);
            lemma_guarded_concat(a + b, name_part(f, names, owned, names.len() as int));
        },
        Err(_) => {},
    }
    lemma_guarded_concat(p1 + p2 + p3 + p4 + p5 + p6, p7);
}

} // verus!
