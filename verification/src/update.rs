//! Updates: how the installed skills compare with what the catalogs hold now.

use vstd::prelude::*;
use crate::catalog::CatalogIndex;
use crate::failure::Failure;
use crate::install::{manifest_without_unavailable, selections_where};
use crate::model::{
    copy_opt, CatalogRegistration, GlobalConfig, InstalledSkill, InstalledSkillView,
    InstalledState, ProjectConfig,
};
use crate::name_map::{lemma_walk, walk, NameMap};
use crate::plan::{change_of, find_resolved, last_with, InstallPlanChange};
use crate::resolve::{
    alias_of, all_closed, catalogs_of, key_alias, resolution, resolve_manifest, resolved_views,
    scope_word, ResolvedSkill, ResolvedView,
};
use crate::status::{
    count_keys, owned_count, report_catalog, report_of, unavailable_aliases, unavailable_set,
    CatalogAvailability, CatalogReport, CatalogReportView, CatalogStatus,
};
use crate::text::{
    cat2, cat3, cat4, decimal, decimal_of, opt_view, plural, plural_ending, same, trim, trimmed,
    views, Text,
};

verus! {

/// A skill that differs from what its catalog holds.
#[derive(Debug, PartialEq, Eq)]
pub struct SkillUpdate {
    pub key: String,
    pub status: &'static str,
    pub installed_digest: Option<String>,
    pub available_digest: String,
}

/// An update in contracts.
pub struct UpdateView {
    pub key: Text,
    pub status: Text,
    pub installed_digest: Option<Text>,
    pub available_digest: Text,
}

impl View for SkillUpdate {
    type V = UpdateView;

    open spec fn view(&self) -> UpdateView {
        UpdateView {
            key: self.key@,
            status: self.status@,
            installed_digest: opt_view(self.installed_digest),
            available_digest: self.available_digest@,
        }
    }
}

pub open spec fn update_views(v: Seq<SkillUpdate>) -> Seq<UpdateView> {
    Seq::new(v.len(), |i: int| v[i]@)
}

/// How an installed skill differs from the resolved one, if it does.
pub open spec fn update_status(skill: ResolvedView, current: Option<InstalledSkillView>) -> Option<Text> {
    match current {
        None => Some("not-installed"@),
        Some(current) => if current.installed_name != skill.installed_name || current.mode
            != skill.mode || current.gitignore != skill.gitignore {
            Some("reconcile"@)
        } else if current.digest is None {
            Some("version-untracked"@)
        } else if current.digest->Some_0 != skill.digest {
            Some("updated"@)
        } else {
            None
        },
    }
}

pub open spec fn update_of(skill: ResolvedView, current: Option<InstalledSkillView>) -> Option<UpdateView> {
    match update_status(skill, current) {
        None => None,
        Some(status) => Some(
            UpdateView {
                key: skill.key,
                status,
                installed_digest: match current {
                    Some(current) => current.digest,
                    None => None,
                },
                available_digest: skill.digest,
            },
        ),
    }
}

pub fn skill_update(skill: &ResolvedSkill<'_>, current: Option<&InstalledSkill>) -> (r: Option<SkillUpdate>)
    ensures
        (match r {
            Some(update) => Some(update@),
            None => None,
        }) == update_of(
            skill@,
            match current {
                Some(current) => Some(current@),
                None => None,
            },
        ),
{
    let (status, installed_digest): (&'static str, Option<String>) = match current {
        None => ("not-installed", None),
        Some(current) => {
            let digest = copy_opt(&current.digest);
            if !same(current.installed_name.as_str(), skill.installed_name.as_str()) || current.mode
                != skill.mode || current.gitignore != skill.gitignore {
                ("reconcile", digest)
            } else {
                match &current.digest {
                    None => ("version-untracked", digest),
                    Some(known) => if same(known.as_str(), skill.digest.as_str()) {
                        return None;
                    } else {
                        ("updated", digest)
                    },
                }
            }
        },
    };
    Some(
        SkillUpdate {
            key: skill.key.clone(),
            status,
            installed_digest,
            available_digest: skill.digest.clone(),
        },
    )
}

/// The record of a key.
pub open spec fn record_at(installed: Map<Text, InstalledSkillView>, key: Text) -> Option<InstalledSkillView> {
    if installed.contains_key(key) {
        Some(installed[key])
    } else {
        None
    }
}

/// The updates among the first `n` resolved skills.
pub open spec fn updates_of(resolved: Seq<ResolvedView>, installed: Map<Text, InstalledSkillView>, n: int) -> Seq<UpdateView>
    decreases n,
{
    if n <= 0 {
        Seq::empty()
    } else {
        let front = updates_of(resolved, installed, n - 1);
        match update_of(resolved[n - 1], record_at(installed, resolved[n - 1].key)) {
            Some(update) => front.push(update),
            None => front,
        }
    }
}

fn find_update(skill: &ResolvedSkill<'_>, installed: &InstalledState) -> (r: Option<SkillUpdate>)
    ensures
        (match r {
            Some(update) => Some(update@),
            None => None,
        }) == update_of(skill@, record_at(installed@.skills, skill@.key)),
{
    skill_update(skill, installed.skills.get(skill.key.as_str()))
}

fn published_updates(resolved: &Vec<ResolvedSkill<'_>>, installed: &InstalledState) -> (r: Vec<SkillUpdate>)
    ensures
        update_views(r@) == updates_of(
            resolved_views(resolved@),
            installed@.skills,
            resolved@.len() as int,
        ),
{
    let mut out: Vec<SkillUpdate> = Vec::new();
    let ghost rs = resolved_views(resolved@);
    assert(update_views(out@) =~= Seq::<UpdateView>::empty());
    let mut i: usize = 0;
    while i < resolved.len()
        invariant
            i <= resolved@.len(),
            rs == resolved_views(resolved@),
            update_views(out@) == updates_of(rs, installed@.skills, i as int),
        decreases resolved@.len() - i,
    {
        assert(rs[i as int] == resolved@[i as int]@);
        match find_update(&resolved[i], installed) {
            Some(update) => {
                let ghost before = out@;
                let ghost view = update@;
                out.push(update);
                assert(update_views(out@) =~= update_views(before).push(view));
            },
            None => {},
        }
        i = i + 1;
    }
    out
}

// Drafts.

/// Whether a catalog has a checkout that it is written in.
pub open spec fn has_checkout(catalogs: Map<Text, CatalogRegistration>, alias: Text) -> bool {
    catalogs.contains_key(alias) && catalogs[alias].authoring_root is Some
}

fn checkout(global: &GlobalConfig, alias: &str) -> (r: bool)
    ensures
        r == has_checkout(global.catalogs@, alias@),
{
    match global.catalogs.get(alias) {
        Some(registration) => registration.authoring_root.is_some(),
        None => false,
    }
}

/// Whether a skill of a checkout differs from the published one.
pub open spec fn is_draft(
    skill: ResolvedView,
    published: Seq<ResolvedView>,
    catalogs: Map<Text, CatalogRegistration>,
) -> bool {
    &&& alias_of(skill.key) is Some
    &&& has_checkout(catalogs, alias_of(skill.key)->Some_0)
    &&& match last_with(published, skill.key) {
        Some(at) => published[at].digest != skill.digest,
        None => true,
    }
}

/// The drafts among the first `n` skills of the checkouts.
pub open spec fn drafts_of(
    authoring: Seq<ResolvedView>,
    published: Seq<ResolvedView>,
    catalogs: Map<Text, CatalogRegistration>,
    installed: Map<Text, InstalledSkillView>,
    n: int,
) -> Seq<UpdateView>
    decreases n,
{
    if n <= 0 {
        Seq::empty()
    } else {
        let front = drafts_of(authoring, published, catalogs, installed, n - 1);
        let skill = authoring[n - 1];
        match update_of(skill, record_at(installed, skill.key)) {
            Some(update) => if is_draft(skill, published, catalogs) {
                front.push(UpdateView { status: "local-draft"@, ..update })
            } else {
                front
            },
            None => front,
        }
    }
}

fn draft(skill: &ResolvedSkill<'_>, published: &Vec<ResolvedSkill<'_>>, global: &GlobalConfig) -> (r: bool)
    ensures
        r == is_draft(skill@, resolved_views(published@), global.catalogs@),
{
    let authored = match key_alias(skill.key.as_str()) {
        Some(alias) => checkout(global, alias.as_str()),
        None => false,
    };
    authored && match find_resolved(published, skill.key.as_str()) {
        Some(at) => {
            assert(resolved_views(published@)[at as int] == published@[at as int]@);
            !same(published[at].digest.as_str(), skill.digest.as_str())
        },
        None => true,
    }
}

fn local_drafts(
    authoring: &Vec<ResolvedSkill<'_>>,
    published: &Vec<ResolvedSkill<'_>>,
    global: &GlobalConfig,
    installed: &InstalledState,
) -> (r: Vec<SkillUpdate>)
    ensures
        update_views(r@) == drafts_of(
            resolved_views(authoring@),
            resolved_views(published@),
            global.catalogs@,
            installed@.skills,
            authoring@.len() as int,
        ),
{
    let mut out: Vec<SkillUpdate> = Vec::new();
    let ghost rs = resolved_views(authoring@);
    let ghost ps = resolved_views(published@);
    assert(update_views(out@) =~= Seq::<UpdateView>::empty());
    let mut i: usize = 0;
    while i < authoring.len()
        invariant
            i <= authoring@.len(),
            rs == resolved_views(authoring@),
            ps == resolved_views(published@),
            update_views(out@) == drafts_of(
                rs,
                ps,
                global.catalogs@,
                installed@.skills,
                i as int,
            ),
        decreases authoring@.len() - i,
    {
        assert(rs[i as int] == authoring@[i as int]@);
        match find_update(&authoring[i], installed) {
            Some(update) => if draft(&authoring[i], published, global) {
                let ghost before = out@;
                let ghost view = update@;
                out.push(
                    SkillUpdate {
                        key: update.key,
                        status: "local-draft",
                        installed_digest: update.installed_digest,
                        available_digest: update.available_digest,
                    },
                );
                assert(update_views(out@) =~= update_views(before).push(
                    UpdateView { status: "local-draft"@, ..view },
                ));
            },
            None => {},
        }
        i = i + 1;
    }
    out
}

// Catalogs.

/// What the report says of a catalog that is not at hand, or whose checkout is not.
#[derive(Debug, PartialEq, Eq)]
pub struct UpdateCatalogStatus {
    pub report: CatalogReport,
    pub draft_availability: Option<&'static str>,
    pub draft_warning: Option<String>,
}

/// Such a report in contracts.
pub struct UpdateCatalogView {
    pub report: CatalogReportView,
    pub draft_availability: Option<Text>,
    pub draft_warning: Option<Text>,
}

impl View for UpdateCatalogStatus {
    type V = UpdateCatalogView;

    open spec fn view(&self) -> UpdateCatalogView {
        UpdateCatalogView {
            report: self.report@,
            draft_availability: match self.draft_availability {
                Some(word) => Some(word@),
                None => None,
            },
            draft_warning: opt_view(self.draft_warning),
        }
    }
}

pub open spec fn catalog_views(v: Seq<UpdateCatalogStatus>) -> Seq<UpdateCatalogView> {
    Seq::new(v.len(), |i: int| v[i]@)
}

pub open spec fn catalog_report(
    status: CatalogStatus,
    catalogs: Map<Text, CatalogRegistration>,
    declared: Set<Text>,
    recorded: Set<Text>,
    drafts: Map<Text, String>,
) -> UpdateCatalogView {
    let alias = status.alias@;
    UpdateCatalogView {
        report: report_of(status, owned_count(declared, alias), owned_count(recorded, alias)),
        draft_availability: if has_checkout(catalogs, alias) {
            Some(
                if drafts.contains_key(alias) {
                    "unavailable"@
                } else {
                    "available"@
                },
            )
        } else {
            None
        },
        draft_warning: if drafts.contains_key(alias) {
            Some(drafts[alias]@)
        } else {
            None
        },
    }
}

/// The reports on the first `n` catalogs.
pub open spec fn catalog_reports(
    statuses: Map<Text, CatalogStatus>,
    order: Seq<Text>,
    catalogs: Map<Text, CatalogRegistration>,
    declared: Set<Text>,
    recorded: Set<Text>,
    drafts: Map<Text, String>,
    n: int,
) -> Seq<UpdateCatalogView>
    decreases n,
{
    if n <= 0 {
        Seq::empty()
    } else {
        let front = catalog_reports(
            statuses,
            order,
            catalogs,
            declared,
            recorded,
            drafts,
            n - 1,
        );
        let status = statuses[order[n - 1]];
        if status.availability == CatalogAvailability::Available && !drafts.contains_key(
            status.alias@,
        ) {
            front
        } else {
            front.push(catalog_report(status, catalogs, declared, recorded, drafts))
        }
    }
}

/// Reports on the catalogs that are not at hand, or whose checkout is not.
pub fn update_catalog_statuses(
    statuses: &NameMap<CatalogStatus>,
    global: &GlobalConfig,
    manifest: &ProjectConfig,
    installed: &InstalledState,
    draft_warnings: &NameMap<String>,
) -> (r: Vec<UpdateCatalogStatus>)
    ensures
        catalog_views(r@) == catalog_reports(
            statuses@,
            walk(statuses@.dom()),
            global.catalogs@,
            manifest.skills@.dom(),
            installed.skills@.dom(),
            draft_warnings@,
            walk(statuses@.dom()).len() as int,
        ),
{
    let mut out: Vec<UpdateCatalogStatus> = Vec::new();
    let n: usize = statuses.len();
    let ghost order = statuses.names();
    proof {
        lemma_walk(order);
        assert(catalog_views(out@) =~= Seq::<UpdateCatalogView>::empty());
    }
    let mut i: usize = 0;
    while i < n
        invariant
            i <= n == order.len(),
            order == statuses.names(),
            catalog_views(out@) == catalog_reports(
                statuses@,
                order,
                global.catalogs@,
                manifest.skills@.dom(),
                installed.skills@.dom(),
                draft_warnings@,
                i as int,
            ),
        decreases n - i,
    {
        let status = statuses.value_at(i);
        let alias = status.alias.as_str();
        let draft_warning = match draft_warnings.get(alias) {
            Some(warning) => Some(warning.clone()),
            None => None,
        };
        if status.availability != CatalogAvailability::Available || draft_warning.is_some() {
            let draft_availability: Option<&'static str> = if checkout(global, alias) {
                if draft_warning.is_some() {
                    Some("unavailable")
                } else {
                    Some("available")
                }
            } else {
                None
            };
            let report = UpdateCatalogStatus {
                report: report_catalog(
                    status,
                    count_keys(&manifest.skills, alias),
                    count_keys(&installed.skills, alias),
                ),
                draft_availability,
                draft_warning,
            };
            let ghost before = out@;
            let ghost view = report@;
            out.push(report);
            assert(catalog_views(out@) =~= catalog_views(before).push(view));
            assert(view == catalog_report(
                statuses@[order[i as int]],
                global.catalogs@,
                manifest.skills@.dom(),
                installed.skills@.dom(),
                draft_warnings@,
            ));
        }
        i = i + 1;
    }
    out
}

// The whole report.

#[derive(Debug, PartialEq, Eq)]
pub struct UpdateReport {
    pub scope: &'static str,
    pub updates: Vec<SkillUpdate>,
    pub drafts: Vec<SkillUpdate>,
    pub warnings: Vec<UpdateCatalogStatus>,
}

/// Compares what is installed with what the catalogs and the checkouts hold. Selections whose
/// catalog is not at hand take no part.
pub fn check_updates(
    global_scope: bool,
    global: &GlobalConfig,
    manifest: &ProjectConfig,
    installed: &InstalledState,
    statuses: &NameMap<CatalogStatus>,
    catalogs: &NameMap<CatalogIndex>,
    authoring: &NameMap<CatalogIndex>,
    draft_warnings: &NameMap<String>,
) -> (r: Result<UpdateReport, Failure>)
    requires
        all_closed(catalogs_of(catalogs@)),
        all_closed(catalogs_of(authoring@)),
    ensures
        ({
            let active = selections_where(manifest.skills@, unavailable_set(statuses@), false);
            let published = resolution(catalogs_of(catalogs@), active, global_scope);
            let written = resolution(catalogs_of(authoring@), active, global_scope);
            match r {
                Err(f) => if published is Err {
                    f@ == published->Err_0
                } else {
                    written is Err && f@ == written->Err_0
                },
                Ok(report) => {
                    &&& published is Ok && written is Ok
                    &&& report.scope@ == scope_word(global_scope)
                    &&& update_views(report.updates@) == updates_of(
                        published->Ok_0,
                        installed@.skills,
                        published->Ok_0.len() as int,
                    )
                    &&& update_views(report.drafts@) == drafts_of(
                        written->Ok_0,
                        published->Ok_0,
                        global.catalogs@,
                        installed@.skills,
                        written->Ok_0.len() as int,
                    )
                    &&& catalog_views(report.warnings@) == catalog_reports(
                        statuses@,
                        walk(statuses@.dom()),
                        global.catalogs@,
                        manifest.skills@.dom(),
                        installed.skills@.dom(),
                        draft_warnings@,
                        walk(statuses@.dom()).len() as int,
                    )
                },
            }
        }),
{
    let unavailable = unavailable_aliases(statuses);
    let active = manifest_without_unavailable(manifest, &unavailable);
    let published = match resolve_manifest(&active, catalogs, global_scope) {
        Ok(resolved) => resolved,
        Err(f) => return Err(f),
    };
    let written = match resolve_manifest(&active, authoring, global_scope) {
        Ok(resolved) => resolved,
        Err(f) => return Err(f),
    };
    Ok(
        UpdateReport {
            scope: if global_scope {
                "global"
            } else {
                "project"
            },
            updates: published_updates(&published, installed),
            drafts: local_drafts(&written, &published, global, installed),
            warnings: update_catalog_statuses(
                statuses,
                global,
                manifest,
                installed,
                draft_warnings,
            ),
        },
    )
}

/// One line for each of the first `n` updates, with its status where that is asked for.
pub open spec fn update_lines(updates: Seq<UpdateView>, with_status: bool, n: int) -> Seq<Text>
    decreases n,
{
    if n <= 0 {
        Seq::empty()
    } else {
        update_lines(updates, with_status, n - 1).push(
            if with_status {
                "- "@ + updates[n - 1].key + " ("@ + updates[n - 1].status + ")"@
            } else {
                "- "@ + updates[n - 1].key
            },
        )
    }
}

pub open spec fn human_lines(scope: Text, updates: Seq<UpdateView>, drafts: Seq<UpdateView>) -> Seq<Text> {
    if updates.len() == 0 && drafts.len() == 0 {
        seq![scope + " skills are current"@]
    } else {
        (if updates.len() == 0 {
            Seq::empty()
        } else {
            seq![
                decimal(updates.len()) + " published skill update"@ + plural(updates.len())
                    + " available:"@,
            ] + update_lines(updates, true, updates.len() as int)
        }) + if drafts.len() == 0 {
            Seq::empty()
        } else {
            seq![
                decimal(drafts.len()) + " unpublished authoring change"@ + plural(drafts.len())
                    + " detected:"@,
            ] + update_lines(drafts, false, drafts.len() as int)
        }
    }
}

fn append_updates(out: &mut Vec<String>, updates: &Vec<SkillUpdate>, with_status: bool)
    ensures
        views(final(out)@) == views(old(out)@) + update_lines(
            update_views(updates@),
            with_status,
            updates@.len() as int,
        ),
{
    let ghost before = out@;
    let ghost us = update_views(updates@);
    assert(views(out@) =~= views(before) + update_lines(us, with_status, 0));
    let mut i: usize = 0;
    while i < updates.len()
        invariant
            i <= updates@.len(),
            us == update_views(updates@),
            views(out@) == views(before) + update_lines(us, with_status, i as int),
        decreases updates@.len() - i,
    {
        assert(us[i as int] == updates@[i as int]@);
        let line = if with_status {
            cat2(
                cat4("- ", updates[i].key.as_str(), " (", updates[i].status).as_str(),
                ")",
            )
        } else {
            cat2("- ", updates[i].key.as_str())
        };
        let ghost last = out@;
        let ghost text = line@;
        out.push(line);
        assert(views(out@) =~= views(last).push(text));
        assert(views(out@) =~= views(before) + update_lines(us, with_status, i as int + 1));
        i = i + 1;
    }
}

impl UpdateReport {
    /// The report for a person.
    pub fn lines(&self) -> (r: Vec<String>)
        ensures
            views(r@) == human_lines(
                self.scope@,
                update_views(self.updates@),
                update_views(self.drafts@),
            ),
    {
        let mut out: Vec<String> = Vec::new();
        let ghost us = update_views(self.updates@);
        let ghost ds = update_views(self.drafts@);
        if self.updates.len() == 0 && self.drafts.len() == 0 {
            out.push(cat2(self.scope, " skills are current"));
            assert(views(out@) =~= human_lines(self.scope@, us, ds));
            return out;
        }
        assert(views(out@) =~= Seq::<Text>::empty());
        let ghost mut first = Seq::<Text>::empty();
        if self.updates.len() > 0 {
            let n: usize = self.updates.len();
            out.push(
                cat4(
                    decimal_of(n as u64).as_str(),
                    " published skill update",
                    plural_ending(n),
                    " available:",
                ),
            );
            proof {
                first = seq![
                    decimal(us.len()) + " published skill update"@ + plural(us.len())
                        + " available:"@,
                ];
            }
            assert(views(out@) =~= first);
            append_updates(&mut out, &self.updates, true);
            proof {
                first = first + update_lines(us, true, us.len() as int);
            }
        }
        assert(views(out@) == first);
        if self.drafts.len() > 0 {
            let n: usize = self.drafts.len();
            let ghost before = out@;
            out.push(
                cat4(
                    decimal_of(n as u64).as_str(),
                    " unpublished authoring change",
                    plural_ending(n),
                    " detected:",
                ),
            );
            let ghost head = seq![
                decimal(ds.len()) + " unpublished authoring change"@ + plural(ds.len())
                    + " detected:"@,
            ];
            assert(views(out@) =~= first + head);
            append_updates(&mut out, &self.drafts, false);
            assert(views(out@) =~= first + (head + update_lines(ds, false, ds.len() as int)));
        } else {
            assert(first =~= first + Seq::<Text>::empty());
        }
        assert(views(out@) =~= human_lines(self.scope@, us, ds));
        out
    }
}

/// What follows the report.
#[derive(Debug, Clone, Copy, PartialEq, Eq, Structural)]
pub enum UpdateStep {
    Done,
    Ask,
    Install,
}

/// Decides what follows a report of `updates` updates.
pub fn next_update_step(machine: bool, yes: bool, updates: usize) -> (r: UpdateStep)
    ensures
        r == (if updates == 0 || (machine && !yes) {
            UpdateStep::Done
        } else if yes {
            UpdateStep::Install
        } else {
            UpdateStep::Ask
        }),
{
    if updates == 0 || (machine && !yes) {
        UpdateStep::Done
    } else if yes {
        UpdateStep::Install
    } else {
        UpdateStep::Ask
    }
}

/// The question before updates are installed. Without a terminal there is nobody to ask.
pub fn update_question(terminal: bool, count: usize) -> (r: Result<String, Failure>)
    ensures
        match r {
            Ok(question) => terminal && question@ == "Install and verify "@ + decimal(count as nat)
                + (" update"@ + plural(count as nat) + "? [y/N] "@),
            Err(f) => !terminal && f@ == "noninteractive update requires --yes"@,
        },
{
    if !terminal {
        return Err(Failure::new(String::from_str("noninteractive update requires --yes")));
    }
    Ok(
        cat3(
            "Install and verify ",
            decimal_of(count as u64).as_str(),
            cat3(" update", plural_ending(count), "? [y/N] ").as_str(),
        ),
    )
}

/// Reads the answer to that question.
pub fn confirms_update(answer: &str) -> (r: bool)
    ensures
        r == ({
            let a = trim(answer@);
            a == "y"@ || a == "Y"@ || a == "yes"@ || a == "YES"@
        }),
{
    let bare = trimmed(answer);
    let a = bare.as_str();
    same(a, "y") || same(a, "Y") || same(a, "yes") || same(a, "YES")
}

/// The warning about a catalog that could not be read, if there is one.
pub fn catalog_warning(status: &CatalogStatus) -> (r: Option<String>)
    ensures
        opt_view(r) == (match status.warning {
            Some(w) => Some(
                "warning: catalog "@ + status.alias@ + " is unavailable: "@ + w@,
            ),
            None => None,
        }),
{
    match &status.warning {
        Some(w) => Some(
            cat4("warning: catalog ", status.alias.as_str(), " is unavailable: ", w.as_str()),
        ),
        None => None,
    }
}

/// An update is reported exactly for the skills that an installation would add or change.
pub proof fn law_updates_match_the_plan(installed: Map<Text, InstalledSkillView>, skill: ResolvedView)
    ensures
        update_of(skill, record_at(installed, skill.key)) is None <==> change_of(installed, skill)
            == InstallPlanChange::Current,
        change_of(installed, skill) == InstallPlanChange::New ==> update_status(
            skill,
            record_at(installed, skill.key),
        ) == Some("not-installed"@),
{
}

} // verus!
