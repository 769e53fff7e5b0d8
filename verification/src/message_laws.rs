//! What is said and listed, and when.

use vstd::prelude::*;
use crate::agents::{host_folder, HostView};
use crate::announce::{conflict_lines, plan_lines};
use crate::authoring::{placement_refusal, SkillAddition};
use crate::config::{config_path_of, LinkMode, Target};
use crate::config_report::{authoring_text, reasons_at, shows_stale};
use crate::config_ui::ConfigRowView;
use crate::diagnosis::{
    count_at, diagnosis_refusal, doctor_reports, is_grouped, issue_line, issue_lines, report_line,
    report_lines, Findings, IssueView,
};
use crate::frontmatter::{field, frontmatter_of};
use crate::install::owned_refusal;
use crate::link::{about, entry_text, folder_lines, LinkSeen};
use crate::lock::{lock_entries, lock_file_refusal, row_names, LockFile};
use crate::migration::{chosen, source_selection};
use crate::model::{builtin_agents, CatalogRegistration, InstalledState};
use crate::name_map::{lemma_walk_finite, walk};
use crate::outside::{json_member, json_members, json_string_text};
use crate::output::LineView;
use crate::ownership::OwnershipView;
use crate::paths::{joined_path, same_path};
use crate::plan::{
    change_label, count_changes, heading_parts, state_label, InstallPlanChange, InstallPlanRow,
    InstallPlanState,
};
use crate::project_store::{migration_steps, step_at, LegacyItem, StepView};
use crate::recommend::{file_reasons, guides, reasons};
use crate::release::searched;
use crate::status::{owned_count, report_of, CatalogReportView, CatalogStatus};
use crate::targets::{
    builtin_path_of, builtin_relative, granular_status, linked_count, missing_count, padded, target_line,
    EntrySeen, PathSeen,
};
use crate::text::{contains_text, decimal, lemma_find_char, lower_text, plural, starts_with, Text};
use crate::catalog::comma_list;
use crate::model::SelectionMode;
use crate::transaction::{failure_class, relative_roots, with_global};
use crate::update::{
    catalog_report, catalog_reports, human_lines, update_lines, UpdateCatalogView, UpdateView,
};

verus! {

// Diagnosis.

/// A state that was read is diagnosed exactly where its version is known and its records are safe; one
/// that could not be read always is.
pub proof fn law_trusted_states_are_diagnosed(f: Findings, state: InstalledState, prefix: Text)
    ensures
        diagnosis_refusal(f, state, prefix) is None <==> f.state_path_error is Some
            || f.state_error is Some || (1 <= state.version <= 3 && owned_refusal(
            state@.skills,
            prefix,
        ) is None),
{
}

/// An issue is a warning exactly where it can be repaired, and says so.
pub proof fn law_issues_are_shown(i: IssueView)
    ensures
        i.fixable ==> issue_line(i) == LineView::Warning(
            "["@ + i.code + "] "@ + i.message + " [repairable]"@,
        ),
        !i.fixable ==> issue_line(i) == LineView::Error("["@ + i.code + "] "@ + i.message + ""@),
{
}

/// Every issue has a line, but for conflicts that are shown with their skills.
pub proof fn law_every_issue_is_shown(
    issues: Seq<IssueView>,
    conflicts: Seq<OwnershipView>,
    n: int,
    line: LineView,
)
    requires
        0 <= n <= issues.len(),
    ensures
        issue_lines(issues, conflicts, n).contains(line) <==> exists|i: int|
            0 <= i < n && !((#[trigger] issues[i]).code == "unowned-conflict"@ && conflicts.len() > 0)
                && line == issue_line(issues[i]),
    decreases n,
{
    if n > 0 {
        law_every_issue_is_shown(issues, conflicts, n - 1, line);
        let front = issue_lines(issues, conflicts, n - 1);
        let whole = issue_lines(issues, conflicts, n);
        let last = issues[n - 1];
        if front.contains(line) {
            let i = front.index_of(line);
            assert(whole[i] == line);
        }
        if !is_grouped(last, conflicts) {
            assert(whole[front.len() as int] == issue_line(last));
            if whole.contains(line) {
                let i = whole.index_of(line);
                if i < front.len() {
                    assert(front[i] == line);
                }
            }
        }
    }
}

/// A state is called healthy exactly where there is no issue.
pub proof fn law_healthy_means_no_issue(
    scope: Text,
    issues: Seq<IssueView>,
    conflicts: Seq<OwnershipView>,
    reports: Seq<CatalogReportView>,
)
    ensures
        report_lines(scope, issues, conflicts, reports).len() > 0,
        report_lines(scope, issues, conflicts, reports)[0] == (if issues.len() == 0 {
            LineView::Success(scope + " Skiller state is healthy"@)
        } else {
            LineView::Heading(scope + " diagnosis · "@ + decimal(issues.len()) + " issue(s)"@)
        }),
{
}

/// A report on a catalog says its alias, what it is, and the warning where there is one.
pub proof fn law_catalog_warnings_are_shown(r: CatalogReportView)
    ensures
        r.warning matches Some(w) ==> report_line(r) == LineView::Warning(
            "catalog "@ + r.alias + " is "@ + r.availability + (": "@ + w),
        ),
        r.warning is None ==> report_line(r) == LineView::Warning(
            "catalog "@ + r.alias + " is "@ + r.availability + ""@,
        ),
{
}

proof fn lemma_doctor_reports(
    statuses: Map<Text, CatalogStatus>,
    order: Seq<Text>,
    declared: Map<Text, usize>,
    recorded: Set<Text>,
    n: int,
    r: CatalogReportView,
)
    requires
        0 <= n <= order.len(),
    ensures
        doctor_reports(statuses, order, declared, recorded, n).contains(r) == (exists|i: int|
            0 <= i < n && !(statuses[#[trigger] order[i]].availability is Available) && r
                == report_of(
                statuses[order[i]],
                count_at(declared, statuses[order[i]].alias@),
                owned_count(recorded, statuses[order[i]].alias@),
            )),
    decreases n,
{
    if n > 0 {
        lemma_doctor_reports(statuses, order, declared, recorded, n - 1, r);
        let front = doctor_reports(statuses, order, declared, recorded, n - 1);
        let whole = doctor_reports(statuses, order, declared, recorded, n);
        let last = order[n - 1];
        if front.contains(r) {
            let i = front.index_of(r);
            assert(whole[i] == r);
        }
        if whole.len() > front.len() {
            assert(whole[front.len() as int] == report_of(
                statuses[last],
                count_at(declared, statuses[last].alias@),
                owned_count(recorded, statuses[last].alias@),
            ));
            if whole.contains(r) {
                let i = whole.index_of(r);
                if i < front.len() {
                    assert(front[i] == r);
                }
            }
        }
    }
}

/// A diagnosis reports on exactly those catalogs that are not at hand, with how much is declared and
/// recorded of each.
pub proof fn law_missing_catalogs_are_reported(
    statuses: Map<Text, CatalogStatus>,
    declared: Map<Text, usize>,
    recorded: Set<Text>,
    r: CatalogReportView,
)
    requires
        statuses.dom().finite(),
    ensures
        ({
            let order = walk(statuses.dom());
            doctor_reports(statuses, order, declared, recorded, order.len() as int).contains(r)
        }) <==> exists|alias: Text| #[trigger]
            statuses.contains_key(alias) && !(statuses[alias].availability is Available) && r
                == report_of(
                statuses[alias],
                if declared.contains_key(statuses[alias].alias@) {
                    declared[statuses[alias].alias@] as nat
                } else {
                    0
                },
                owned_count(recorded, statuses[alias].alias@),
            ),
{
    let order = walk(statuses.dom());
    lemma_walk_finite(statuses.dom());
    lemma_doctor_reports(statuses, order, declared, recorded, order.len() as int, r);
    assert forall|i: int| 0 <= i < order.len() implies statuses.contains_key(#[trigger] order[i]) by {
        assert(order.to_set().contains(order[i]));
    }
    if exists|alias: Text| #[trigger]
        statuses.contains_key(alias) && !(statuses[alias].availability is Available) && r
            == report_of(
            statuses[alias],
            count_at(declared, statuses[alias].alias@),
            owned_count(recorded, statuses[alias].alias@),
        ) {
        let alias = choose|alias: Text| #[trigger]
            statuses.contains_key(alias) && !(statuses[alias].availability is Available) && r
                == report_of(
                statuses[alias],
                count_at(declared, statuses[alias].alias@),
                owned_count(recorded, statuses[alias].alias@),
            );
        assert(order.to_set().contains(alias));
        let i = order.index_of(alias);
        assert(order[i] == alias);
    }
}

// Updates.

proof fn lemma_catalog_reports(
    statuses: Map<Text, CatalogStatus>,
    order: Seq<Text>,
    catalogs: Map<Text, CatalogRegistration>,
    declared: Set<Text>,
    recorded: Set<Text>,
    drafts: Map<Text, String>,
    n: int,
    r: UpdateCatalogView,
)
    requires
        0 <= n <= order.len(),
    ensures
        catalog_reports(statuses, order, catalogs, declared, recorded, drafts, n).contains(r) == (
        exists|i: int|
            0 <= i < n && (!(statuses[#[trigger] order[i]].availability is Available)
                || drafts.contains_key(statuses[order[i]].alias@)) && r == catalog_report(
                statuses[order[i]],
                catalogs,
                declared,
                recorded,
                drafts,
            )),
    decreases n,
{
    if n > 0 {
        lemma_catalog_reports(statuses, order, catalogs, declared, recorded, drafts, n - 1, r);
        let front = catalog_reports(statuses, order, catalogs, declared, recorded, drafts, n - 1);
        let whole = catalog_reports(statuses, order, catalogs, declared, recorded, drafts, n);
        let last = order[n - 1];
        if front.contains(r) {
            let i = front.index_of(r);
            assert(whole[i] == r);
        }
        if whole.len() > front.len() {
            assert(whole[front.len() as int] == catalog_report(
                statuses[last],
                catalogs,
                declared,
                recorded,
                drafts,
            ));
            if whole.contains(r) {
                let i = whole.index_of(r);
                if i < front.len() {
                    assert(front[i] == r);
                }
            }
        }
    }
}

/// An update reports on exactly those catalogs that are not at hand or whose checkout could not be
/// read.
pub proof fn law_update_warns_of_catalogs(
    statuses: Map<Text, CatalogStatus>,
    catalogs: Map<Text, CatalogRegistration>,
    declared: Set<Text>,
    recorded: Set<Text>,
    drafts: Map<Text, String>,
    r: UpdateCatalogView,
)
    requires
        statuses.dom().finite(),
    ensures
        ({
            let order = walk(statuses.dom());
            catalog_reports(
                statuses,
                order,
                catalogs,
                declared,
                recorded,
                drafts,
                order.len() as int,
            ).contains(r)
        }) <==> exists|alias: Text| #[trigger]
            statuses.contains_key(alias) && (!(statuses[alias].availability is Available)
                || drafts.contains_key(statuses[alias].alias@)) && r == catalog_report(
                statuses[alias],
                catalogs,
                declared,
                recorded,
                drafts,
            ),
{
    let order = walk(statuses.dom());
    lemma_walk_finite(statuses.dom());
    lemma_catalog_reports(
        statuses,
        order,
        catalogs,
        declared,
        recorded,
        drafts,
        order.len() as int,
        r,
    );
    assert forall|i: int| 0 <= i < order.len() implies statuses.contains_key(#[trigger] order[i]) by {
        assert(order.to_set().contains(order[i]));
    }
    if exists|alias: Text| #[trigger]
        statuses.contains_key(alias) && (!(statuses[alias].availability is Available)
            || drafts.contains_key(statuses[alias].alias@)) && r == catalog_report(
            statuses[alias],
            catalogs,
            declared,
            recorded,
            drafts,
        ) {
        let alias = choose|alias: Text| #[trigger]
            statuses.contains_key(alias) && (!(statuses[alias].availability is Available)
                || drafts.contains_key(statuses[alias].alias@)) && r == catalog_report(
                statuses[alias],
                catalogs,
                declared,
                recorded,
                drafts,
            );
        assert(order.to_set().contains(alias));
        let i = order.index_of(alias);
        assert(order[i] == alias);
    }
}

/// Such a report says what is declared and recorded of the catalog, whether its checkout, where it has
/// one, can be read, and why not.
pub proof fn law_checkouts_are_reported(
    status: CatalogStatus,
    catalogs: Map<Text, CatalogRegistration>,
    declared: Set<Text>,
    recorded: Set<Text>,
    drafts: Map<Text, String>,
)
    ensures
        ({
            let alias = status.alias@;
            let r = catalog_report(status, catalogs, declared, recorded, drafts);
            let written = catalogs.contains_key(alias) && catalogs[alias].authoring_root is Some;
            &&& r.report == report_of(
                status,
                owned_count(declared, alias),
                owned_count(recorded, alias),
            )
            &&& r.draft_availability == (if !written {
                None
            } else if drafts.contains_key(alias) {
                Some("unavailable"@)
            } else {
                Some("available"@)
            })
            &&& r.draft_warning == (if drafts.contains_key(alias) {
                Some(drafts[alias]@)
            } else {
                None
            })
        }),
{
}

proof fn lemma_update_lines(updates: Seq<UpdateView>, with_status: bool, n: int)
    requires
        0 <= n <= updates.len(),
    ensures
        update_lines(updates, with_status, n).len() == n,
        forall|i: int|
            0 <= i < n ==> #[trigger] update_lines(updates, with_status, n)[i] == (if with_status {
                "- "@ + updates[i].key + " ("@ + updates[i].status + ")"@
            } else {
                "- "@ + updates[i].key
            }),
    decreases n,
{
    if n > 0 {
        lemma_update_lines(updates, with_status, n - 1);
    }
}

/// Skills are called current exactly where there is no update and no draft; otherwise every update is
/// listed with its status, and every draft.
pub proof fn law_updates_are_listed(scope: Text, updates: Seq<UpdateView>, drafts: Seq<UpdateView>)
    ensures
        ({
            let out = human_lines(scope, updates, drafts);
            let u = updates.len() as int;
            let d = drafts.len() as int;
            let head: int = if u > 0 {
                u + 1
            } else {
                0
            };
            &&& u == 0 && d == 0 ==> out == seq![scope + " skills are current"@]
            &&& u > 0 || d > 0 ==> out.len() == head + (if d > 0 {
                d + 1
            } else {
                0
            })
            &&& u > 0 ==> out[0] == decimal(updates.len()) + " published skill update"@ + plural(
                updates.len(),
            ) + " available:"@
            &&& forall|i: int|
                0 <= i < u ==> (#[trigger] out[i + 1]) == "- "@ + updates[i].key + " ("@
                    + updates[i].status + ")"@
            &&& d > 0 ==> out[head] == decimal(drafts.len()) + " unpublished authoring change"@
                + plural(drafts.len()) + " detected:"@
            &&& forall|i: int|
                0 <= i < d ==> (#[trigger] out[head + 1 + i]) == "- "@ + drafts[i].key
        }),
{
    lemma_update_lines(updates, true, updates.len() as int);
    lemma_update_lines(drafts, false, drafts.len() as int);
}

// Installation.

/// A failed call is put down to permissions where its output speaks of them, else to the network where
/// it speaks of that, else to the placement.
pub proof fn law_failures_are_classed(detail: Text)
    ensures
        ({
            let d = lower_text(detail);
            let permission = contains_text(d, "eacces"@) || contains_text(d, "eperm"@)
                || contains_text(d, "permission denied"@) || contains_text(d, "sandbox"@);
            let network = contains_text(d, "enotfound"@) || contains_text(d, "econn"@)
                || contains_text(d, "network"@) || contains_text(d, "fetch failed"@)
                || contains_text(d, "timed out"@);
            failure_class(detail) == (if permission {
                "environment-permission"@
            } else if network {
                "environment-network"@
            } else {
                "placement"@
            })
        }),
{
}

/// Only a global call asks for the global scope, as its last argument.
pub proof fn law_global_calls_say_so(args: Seq<Text>, global: bool)
    ensures
        global ==> with_global(args, global) == args.push("--global"@),
        !global ==> with_global(args, global) == args,
{
}

/// The first directory of every scope is the canonical one; the host agent has one in every scope; and
/// the scopes differ in just the directories that only one of them has.
pub proof fn law_directories_of_a_scope(global: bool, host: HostView)
    ensures
        ({
            let roots = relative_roots(global, host);
            &&& roots.len() == (if global {
                8int
            } else {
                9
            })
            &&& roots[0] == ".agents/skills"@
            &&& roots[1] == host_folder(host)
            &&& roots.contains(".codex/skills"@) && roots.contains(".config/opencode/skills"@)
            &&& roots.contains(".cursor/skills"@) && roots.contains(".gemini/skills"@)
            &&& roots.contains(".hermes/skills"@)
            &&& global ==> roots.contains(".pi/agent/skills"@)
            &&& !global ==> roots.contains(".opencode/skills"@) && roots.contains(".pi/skills"@)
        }),
{
    let roots = relative_roots(global, host);
    assert(roots[2] == ".codex/skills"@);
    assert(roots[3] == ".config/opencode/skills"@);
    assert(roots[4] == ".cursor/skills"@);
    assert(roots[5] == ".gemini/skills"@);
    assert(roots[6] == ".hermes/skills"@);
    if global {
        assert(roots[7] == ".pi/agent/skills"@);
    } else {
        assert(roots[7] == ".opencode/skills"@);
        assert(roots[8] == ".pi/skills"@);
    }
}

/// A configuration that names no agents has three: the universal one, the host and one more.
pub proof fn law_default_agents(host: HostView)
    ensures
        builtin_agents(host).len() == 3,
        builtin_agents(host)[0] == "universal"@,
        builtin_agents(host)[1] == host.name,
        builtin_agents(host)[2] == "pi"@,
{
}

/// A plan counts its rows by what installing them will do.
pub proof fn law_changes_are_counted(rows: Seq<InstallPlanRow>, change: InstallPlanChange)
    ensures
        count_changes(rows, change) == rows.filter(|r: InstallPlanRow| r.change == change).len(),
    decreases rows.len(),
{
    reveal(Seq::filter);
    if rows.len() > 0 {
        law_changes_are_counted(rows.drop_last(), change);
    }
}

/// The heading counts all rows, and the new and the updated ones where there are any.
pub proof fn law_heading_counts(rows: nat, fresh: nat, updates: nat)
    ensures
        heading_parts(rows, fresh, updates) == seq![decimal(rows) + " skill"@ + plural(rows)] + (
        if fresh > 0 {
            seq![decimal(fresh) + " new"@]
        } else {
            Seq::empty()
        }) + (if updates > 0 {
            seq![decimal(updates) + " update"@ + plural(updates)]
        } else {
            Seq::empty()
        }),
{
    let a = seq![decimal(rows) + " skill"@ + plural(rows)];
    let b = if fresh > 0 {
        seq![decimal(fresh) + " new"@]
    } else {
        Seq::empty()
    };
    let c = if updates > 0 {
        seq![decimal(updates) + " update"@ + plural(updates)]
    } else {
        Seq::empty()
    };
    assert(heading_parts(rows, fresh, updates) =~= a + b + c);
}

/// A row says what installing it will do, and for whom the skill is or that it is only needed.
pub proof fn law_rows_are_labelled(change: InstallPlanChange, state: InstallPlanState)
    ensures
        change_label(change) == (match change {
            InstallPlanChange::New => "new"@,
            InstallPlanChange::Update => "update"@,
            InstallPlanChange::Current => "current"@,
        }),
        state_label(state) == (match state {
            InstallPlanState::Configured(SelectionMode::Enable) => "Agent + Human"@,
            InstallPlanState::Configured(SelectionMode::Manual) => "Human only"@,
            InstallPlanState::Dependency => "dependency"@,
        }),
{
}

/// A plan without rows and removals says that nothing is configured; otherwise every row is told, and
/// every removal behind its count.
pub proof fn law_plans_are_told_whole(heading: Text, rows: Seq<Text>, removals: Seq<Text>)
    ensures
        ({
            let out = plan_lines(heading, rows, removals);
            let n = rows.len() as int;
            let m = removals.len() as int;
            let head: int = if n > 0 {
                n + 1
            } else {
                0
            };
            &&& n == 0 && m == 0 ==> out == seq![
                LineView::Info("Install plan"@),
                LineView::Plain("  (no configured skills)"@),
            ]
            &&& n > 0 ==> out[0] == LineView::Info(heading)
            &&& forall|i: int|
                0 <= i < n ==> (#[trigger] out[i + 1]) == LineView::Plain("  "@ + rows[i])
            &&& m > 0 ==> out[head] == LineView::Info(
                "Remove  "@ + decimal(removals.len()) + " skill"@ + plural(removals.len()),
            )
            &&& forall|i: int|
                0 <= i < m ==> (#[trigger] out[head + 1 + i]) == LineView::Plain(
                    "  "@ + removals[i],
                )
            &&& n > 0 || m > 0 ==> out.len() == head + (if m > 0 {
                m + 1
            } else {
                0
            })
        }),
{
}

/// Every conflict is told before the questions, between a count and a warning.
pub proof fn law_conflicts_are_told_first(names: Seq<Text>)
    ensures
        ({
            let out = conflict_lines(names);
            &&& out.len() == names.len() + 2
            &&& out[0] is Heading
            &&& out.last() is Warning
            &&& forall|i: int|
                0 <= i < names.len() ==> (#[trigger] out[i + 1]) == LineView::Plain("  "@ + names[i])
        }),
{
}

// Files and lists.

/// A lock is read exactly where it is a real file of at most two million bytes.
pub proof fn law_locks_are_real_files(path: Text, seen: LockFile)
    ensures
        lock_file_refusal(path, seen) is None <==> seen.file && !seen.symlink && seen.bytes
            <= 2_000_000,
{
}

/// The entries of a lock are the members of its `skills` object.
pub proof fn law_lock_entries_are_members(lock: serde_json::Value)
    ensures
        json_member(lock, "skills"@) matches Some(skills) ==> lock_entries(lock) == json_members(
            skills,
        ),
        json_member(lock, "skills"@) is None ==> lock_entries(lock) is None,
{
}

/// An agent lists exactly the names that the rows of its list give as texts.
pub proof fn law_listed_names_are_given(rows: Seq<serde_json::Value>, name: Text)
    ensures
        row_names(rows).contains(name) <==> exists|i: int|
            {
                &&& 0 <= i < rows.len()
                &&& json_member(#[trigger] rows[i], "name"@) is Some
                &&& json_string_text(json_member(rows[i], "name"@)->Some_0) == Some(name)
            },
{
    if row_names(rows).contains(name) {
        let i = choose|i: int|
            0 <= i < rows.len() && crate::lock::row_name(#[trigger] rows[i]) == Some(name);
        assert(json_member(rows[i], "name"@) is Some);
    }
    if exists|i: int|
        {
            &&& 0 <= i < rows.len()
            &&& json_member(#[trigger] rows[i], "name"@) is Some
            &&& json_string_text(json_member(rows[i], "name"@)->Some_0) == Some(name)
        } {
        let i = choose|i: int|
            {
                &&& 0 <= i < rows.len()
                &&& json_member(#[trigger] rows[i], "name"@) is Some
                &&& json_string_text(json_member(rows[i], "name"@)->Some_0) == Some(name)
            };
        assert(crate::lock::row_name(rows[i]) == Some(name));
    }
}

/// What a skill asks for is read from the two fields of its frontmatter; without frontmatter, or
/// without a wish, it is not recommended.
pub proof fn law_wishes_are_read_from_the_file(raw: Text, path: Text, names: Seq<Text>, texts: Seq<Text>)
    ensures
        ({
            let f = frontmatter_of(raw, path)->Ok_0;
            let files = match field(f, "skiller.recommend.files"@, true) {
                Some(v) => comma_list(v),
                None => Seq::empty(),
            };
            let words = match field(f, "skiller.recommend.keywords"@, true) {
                Some(v) => comma_list(v),
                None => Seq::empty(),
            };
            let why = reasons(files, words, names, texts);
            file_reasons(raw, path, names, texts) == (if frontmatter_of(raw, path) is Ok
                && why is Some {
                why->Some_0
            } else {
                Seq::empty()
            })
        }),
{
}

/// Words are looked for in five files of the root.
pub proof fn law_guides_are_known()
    ensures
        guides().len() == 5,
        guides().contains("package.json"@),
        guides().contains("pyproject.toml"@),
        guides().contains("Cargo.toml"@),
        guides().contains("README.md"@),
        guides().contains("AGENTS.md"@),
{
    let g = guides();
    assert(g[0] == "package.json"@ && g[1] == "pyproject.toml"@ && g[2] == "Cargo.toml"@ && g[3]
        == "README.md"@ && g[4] == "AGENTS.md"@);
}

/// The release that a search names is what stands between the quotes behind the name of the program.
pub proof fn law_searched_release_is_quoted(version: Text, rest: Text)
    requires
        !version.contains('"'),
    ensures
        searched("skiller = \""@ + version + seq!['"'] + rest) == Some(version),
{
    let start = "skiller = \""@;
    let s = start + version + seq!['"'] + rest;
    assert(s.take(start.len() as int) =~= start);
    let t = s.skip(start.len() as int);
    assert(t =~= version + seq!['"'] + rest);
    let n = version.len() as int;
    assert forall|j: int| 0 <= j < n implies t[j] != '"' by {
        assert(t[j] == version[j]);
    }
    assert(t[n] == '"');
    lemma_find_char(t, '"', n);
    assert(t.take(n) =~= version);
}

/// The steps of a migration follow its order, one for each entry, up to the first that is refused.
pub proof fn law_migration_follows_its_order(
    items: Seq<LegacyItem>,
    legacy_root: Text,
    state_root: Text,
    order: Seq<int>,
    n: int,
)
    requires
        0 <= n <= order.len(),
    ensures
        ({
            let (steps, fault) = migration_steps(items, legacy_root, state_root, order, n);
            &&& steps.len() <= n
            &&& forall|i: int|
                0 <= i < steps.len() ==> step_at(items, legacy_root, state_root, order[i]) == Ok::<
                    StepView,
                    Text,
                >(#[trigger] steps[i])
            &&& fault is None <==> steps.len() == n
            &&& fault is Some ==> step_at(
                items,
                legacy_root,
                state_root,
                order[steps.len() as int],
            ) == Err::<StepView, Text>(fault->Some_0)
        }),
    decreases n,
{
    if n > 0 {
        law_migration_follows_its_order(items, legacy_root, state_root, order, n - 1);
    }
}

/// A selection of sources is refused where an item is, and where nothing is left.
pub proof fn law_empty_selections_are_refused(value: Text, candidates: Seq<Text>)
    ensures
        ({
            let items = comma_list(value);
            let r = chosen(items, candidates, items.len() as int);
            &&& source_selection(value, candidates) is Ok <==> r is Ok && r->Ok_0.len() > 0
            &&& source_selection(value, candidates) is Ok ==> source_selection(value, candidates) == r
        }),
{
}

/// A skill is placed in a catalog exactly where both its place and its staging place are free.
pub proof fn law_additions_replace_nothing(addition: SkillAddition, destination: bool, staging: bool)
    ensures
        placement_refusal(addition, destination, staging) is None <==> !destination && !staging,
{
}

// Links.

/// The status of a target that links skill by skill: its counts, where the source can be read and the
/// target is a directory; otherwise what is wrong.
pub proof fn law_granular_status_is_true(
    seen: PathSeen,
    source: Option<Text>,
    entries: Result<Vec<EntrySeen>, String>,
)
    ensures
        ({
            let s = granular_status(seen, source, entries);
            let n = entries->Ok_0@.len() as int;
            let linked = linked_count(entries->Ok_0@, n);
            let missing = missing_count(entries->Ok_0@, n);
            s == (if source is None {
                "source not set"@
            } else if seen is Missing {
                "not linked"@
            } else if seen is Symlink {
                "conflict (target is symlink; expected dir)"@
            } else if seen is Other {
                "conflict (target is not a dir)"@
            } else if entries is Err {
                "error reading source: "@ + entries->Err_0@
            } else if n == 0 {
                "granular 0/0 linked"@
            } else {
                "granular "@ + decimal(linked) + "/"@ + decimal(n as nat) + " linked, "@ + decimal(
                    (n - linked - missing) as nat,
                ) + " conflict, "@ + decimal(missing) + " missing"@
            })
        }),
{
}

/// A target is listed by its kind in twelve columns at least, its mode, its directory and its status.
pub proof fn law_targets_are_listed(target: Target, status: Text)
    ensures
        target.kind@.len() < 12 ==> padded(target.kind@, 12).len() == 12,
        starts_with(padded(target.kind@, 12), target.kind@),
        target_line(target, status) == padded(target.kind@, 12) + " "@ + (match target.mode {
            LinkMode::Folder => "folder"@,
            LinkMode::Granular => "granular"@,
        }) + " "@ + target.path@ + "  ["@ + status + "]"@,
{
    let p = padded(target.kind@, 12);
    assert(p.take(target.kind@.len() as int) =~= target.kind@);
}

/// A built-in target stands below the home directory, where its kind has its place.
pub proof fn law_builtin_targets_are_at_home(host: HostView, home: Text, kind: Text)
    ensures
        builtin_relative(host, kind) matches Some(p) ==> builtin_path_of(host, home, kind) == Some(
            joined_path(home, p),
        ),
        builtin_relative(host, kind) is None ==> builtin_path_of(host, home, kind) is None,
        builtin_relative(host, "opencode"@) == Some(".config/opencode/skills"@),
        builtin_relative(host, "openclaw"@) == Some(".openclaw/skills"@),
        builtin_relative(host, "hermes"@) == Some(".hermes/skills/common"@),
{
    reveal_strlit("codex");
    reveal_strlit("opencode");
    reveal_strlit("openclaw");
    reveal_strlit("hermes");
    assert("codex"@.len() == 5 && "opencode"@.len() == 8 && "openclaw"@.len() == 8
        && "hermes"@.len() == 6);
    assert("opencode"@[5] == 'o' && "openclaw"@[5] == 'l');
}

/// The configuration of links is kept below the home directory, and nowhere without one.
pub proof fn law_link_configuration_is_at_home(home: Option<Text>)
    ensures
        config_path_of(home) is Ok <==> home is Some,
        home matches Some(h) ==> config_path_of(home) == Ok::<Text, Text>(
            joined_path(joined_path(h, ".config/skiller"@), "config.json"@),
        ),
{
}

/// What is said of a link names the target and its mode; of an entry, whether it was linked, was there
/// already, or what stands in its way.
pub proof fn law_links_are_told(label: Text, mode: LinkMode, source: Text, target: Text, name: Text, seen: LinkSeen)
    ensures
        about(label, mode, name) == label + " ["@ + (match mode {
            LinkMode::Folder => "folder"@,
            LinkMode::Granular => "granular"@,
        }) + "]: "@ + name,
        entry_text(source, target, name, seen) == (match seen {
            LinkSeen::Missing => "linked "@ + name,
            LinkSeen::Symlink(dest) => if same_path(dest@, source) {
                "already linked "@ + name
            } else {
                "conflict — "@ + name + " points to "@ + dest@
            },
            LinkSeen::Directory => "conflict — real entry exists at "@ + target,
            LinkSeen::Other => "conflict — real entry exists at "@ + target,
        }),
        seen is Missing ==> folder_lines(source, target, label, seen).len() == 1,
        !(seen is Missing) ==> folder_lines(source, target, label, seen).len() == 2,
{
}

// Rows.

/// A catalog is edited in its declared checkout, else in its source where no reference pins it, else
/// nowhere.
pub proof fn law_catalogs_are_edited_in_place(registration: CatalogRegistration)
    ensures
        registration.authoring_root matches Some(root) ==> authoring_text(registration) == Some(
            root@,
        ),
        registration.authoring_root is None && registration.reference is None ==> authoring_text(
            registration,
        ) == Some(registration.source@),
        registration.authoring_root is None && registration.reference is Some ==> authoring_text(
            registration,
        ) is None,
{
}

/// A row has the reasons that are known for its key, and none otherwise; a catalog is shown by its last
/// content exactly where it is stale and has one.
pub proof fn law_rows_have_their_reasons(
    row: ConfigRowView,
    known: Map<Text, Vec<String>>,
    statuses: Map<Text, CatalogStatus>,
    alias: Text,
)
    ensures
        known.contains_key(row.key) ==> reasons_at(row, known) == crate::text::views(
            known[row.key]@,
        ),
        !known.contains_key(row.key) ==> reasons_at(row, known).len() == 0,
        shows_stale(statuses, alias) <==> statuses.contains_key(alias)
            && statuses[alias].availability is Stale && statuses[alias].catalog is Some,
{
}

} // verus!
