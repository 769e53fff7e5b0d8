//! What a diagnosis tells: each issue where its cause is, and nothing where all is well.

use vstd::prelude::*;
use crate::diagnosis::{
    agent_issue, agent_issues, all_issues, any_install, any_repair, any_update, claimed, deduplicated, desired_at, desired_part, is_repeated,
    journal_part, local_issue, missing_part, name_part, path_issues, record_issue, recorded_part,
    recommendations, rename_part, residue_part, resolved_part, state_part, transaction_part, Findings, IssueView,
    Resolution,
};
use crate::install::{is_held, TransactionJournal};
use crate::model::{InstalledSkillView, InstalledState};
use crate::name_map::{lemma_walk_finite, walk};
use crate::plan::last_with;
use crate::reconcile::{owned_names, ProjectionStatus};
use crate::resolve::{resolved_views, ResolvedSkill, ResolvedView};
use crate::text::{cut, lemma_find_char, lemma_find_char_bound, views, Text};
use crate::transaction::resolved_names;

verus! {

/// An issue of a code and a message is among those that are told.
pub open spec fn told(issues: Seq<IssueView>, code: Text, message: Text) -> bool {
    exists|i: int|
        0 <= i < issues.len() && (#[trigger] issues[i]).code == code && issues[i].message == message
}

/// The issues of a diagnosis.
pub open spec fn diagnosis(
    f: Findings,
    renames: Result<Seq<Text>, Text>,
    state: InstalledState,
    resolved: Resolution,
    journal: Option<TransactionJournal>,
    fingerprint: Text,
    unavailable: Set<Text>,
    global: bool,
) -> Seq<IssueView> {
    let all = all_issues(f, renames, state, resolved, journal, fingerprint, unavailable, global);
    deduplicated(all, all.len() as int)
}

/// The catalog that a key names is among these.
pub open spec fn of_catalog(key: Text, aliases: Set<Text>) -> bool {
    exists|alias: Text, name: Text|
        aliases.contains(alias) && !alias.contains('/') && key == #[trigger] (alias + seq!['/']
            + name)
}

pub proof fn lemma_held(key: Text, aliases: Set<Text>)
    ensures
        is_held(key, aliases) == of_catalog(key, aliases),
{
    if is_held(key, aliases) {
        let (alias, name) = cut(key, '/')->Some_0;
        lemma_find_char_bound(key, '/');
        assert(key =~= alias + seq!['/'] + name);
        if alias.contains('/') {
            let j = alias.index_of('/');
            assert(key[j] == '/');
        }
    }
    if of_catalog(key, aliases) {
        let (alias, name) = choose|alias: Text, name: Text|
            aliases.contains(alias) && !alias.contains('/') && key == #[trigger] (alias + seq!['/']
                + name);
        let n = alias.len() as int;
        assert forall|j: int| 0 <= j < n implies key[j] != '/' by {
            assert(key[j] == alias[j]);
        }
        assert(key[n] == '/');
        lemma_find_char(key, '/', n);
        assert(key.take(n) =~= alias);
    }
}

proof fn lemma_told_concat(a: Seq<IssueView>, b: Seq<IssueView>, code: Text, message: Text)
    ensures
        told(a + b, code, message) == (told(a, code, message) || told(b, code, message)),
{
    let c = a + b;
    if told(c, code, message) {
        let i = choose|i: int|
            0 <= i < c.len() && (#[trigger] c[i]).code == code && c[i].message == message;
        if i < a.len() {
            assert(a[i] == c[i]);
        } else {
            assert(b[i - a.len()] == c[i]);
        }
    }
    if told(a, code, message) {
        let i = choose|i: int|
            0 <= i < a.len() && (#[trigger] a[i]).code == code && a[i].message == message;
        assert(c[i] == a[i]);
    }
    if told(b, code, message) {
        let i = choose|i: int|
            0 <= i < b.len() && (#[trigger] b[i]).code == code && b[i].message == message;
        assert(c[a.len() + i] == b[i]);
    }
}

proof fn lemma_told_once(issues: Seq<IssueView>, n: int, code: Text, message: Text)
    requires
        0 <= n <= issues.len(),
    ensures
        told(deduplicated(issues, n), code, message) == told(issues.take(n), code, message),
    decreases n,
{
    if n > 0 {
        lemma_told_once(issues, n - 1, code, message);
        let last = issues[n - 1];
        let front = deduplicated(issues, n - 1);
        assert(issues.take(n) =~= issues.take(n - 1) + seq![last]);
        lemma_told_concat(issues.take(n - 1), seq![last], code, message);
        assert(seq![last][0] == last);
        if is_repeated(issues, n - 1) {
            let j = choose|j: int|
                0 <= j < n - 1 && (#[trigger] issues[j]).code == last.code && issues[j].message
                    == last.message;
            if last.code == code && last.message == message {
                assert(issues.take(n - 1)[j] == issues[j]);
            }
        } else {
            assert(front.push(last) =~= front + seq![last]);
            lemma_told_concat(front, seq![last], code, message);
        }
    } else {
        assert(issues.take(0) =~= Seq::<IssueView>::empty());
    }
}

/// What is told is told by one of the parts.
proof fn lemma_parts(
    f: Findings,
    renames: Result<Seq<Text>, Text>,
    state: InstalledState,
    resolved: Resolution,
    journal: Option<TransactionJournal>,
    fingerprint: Text,
    unavailable: Set<Text>,
    global: bool,
    code: Text,
    message: Text,
)
    ensures
        told(
            diagnosis(f, renames, state, resolved, journal, fingerprint, unavailable, global),
            code,
            message,
        ) == {
            let skills = state@.skills;
            let claim = match claimed(journal, resolved, global, fingerprint, skills) {
                Some(names) => names,
                None => Set::empty(),
            };
            ||| told(rename_part(renames), code, message)
            ||| told(state_part(f, state.version), code, message)
            ||| told(journal_part(f), code, message)
            ||| told(residue_part(f), code, message)
            ||| told(desired_part(resolved), code, message)
            ||| told(
                transaction_part(journal, resolved, global, fingerprint, skills),
                code,
                message,
            )
            ||| match resolved {
                Ok(rs) => told(
                    recorded_part(
                        skills,
                        walk(skills.dom()),
                        rs,
                        f.statuses@,
                        unavailable,
                        global,
                        walk(skills.dom()).len() as int,
                    ),
                    code,
                    message,
                ) || told(missing_part(skills, rs, rs.len() as int), code, message) || told(
                    name_part(
                        f,
                        walk(resolved_names(rs)),
                        owned_names(skills, claim),
                        walk(resolved_names(rs)).len() as int,
                    ),
                    code,
                    message,
                ),
                Err(_) => false,
            }
        },
{
    let skills = state@.skills;
    let claim = match claimed(journal, resolved, global, fingerprint, skills) {
        Some(names) => names,
        None => Set::empty(),
    };
    let all = all_issues(f, renames, state, resolved, journal, fingerprint, unavailable, global);
    lemma_told_once(all, all.len() as int, code, message);
    assert(all.take(all.len() as int) =~= all);
    let a = rename_part(renames);
    let b = state_part(f, state.version);
    let c = journal_part(f);
    let d = residue_part(f);
    let e = desired_part(resolved);
    let g = transaction_part(journal, resolved, global, fingerprint, skills);
    let h = match resolved {
        Ok(rs) => resolved_part(f, skills, rs, unavailable, global, claim),
        Err(_) => Seq::empty(),
    };
    lemma_told_concat(a, b, code, message);
    lemma_told_concat(a + b, c, code, message);
    lemma_told_concat(a + b + c, d, code, message);
    lemma_told_concat(a + b + c + d, e, code, message);
    lemma_told_concat(a + b + c + d + e, g, code, message);
    lemma_told_concat(a + b + c + d + e + g, h, code, message);
    if let Ok(rs) = resolved {
        let x = recorded_part(
            skills,
            walk(skills.dom()),
            rs,
            f.statuses@,
            unavailable,
            global,
            walk(skills.dom()).len() as int,
        );
        let y = missing_part(skills, rs, rs.len() as int);
        let z = name_part(
            f,
            walk(resolved_names(rs)),
            owned_names(skills, claim),
            walk(resolved_names(rs)).len() as int,
        );
        lemma_told_concat(x, y, code, message);
        lemma_told_concat(x + y, z, code, message);
    }
}

/// What the codes look like.
proof fn lemma_codes()
    ensures
        "declared-rename"@[0] == 'd',
        "configuration-key"@[0] == 'c',
        "installed-state-path"@[0] == 'i',
        "installed-state"@[0] == 'i',
        "legacy-state"@[0] == 'l',
        "transaction-path"@[0] == 't',
        "transaction"@[0] == 't',
        "work-residue"@[0] == 'w',
        "staging-residue"@[0] == 's',
        "desired-state"@[0] == 'd',
        "interrupted-transaction"@[0] == 'i',
        "invalid-transaction"@[0] == 'i',
        "orphaned-local"@[0] == 'o',
        "orphaned-local"@[1] == 'r',
        "obsolete-owned-skill"@[0] == 'o',
        "obsolete-owned-skill"@[1] == 'b',
        "ownership-drift"@[0] == 'o',
        "ownership-drift"@[1] == 'w',
        "update-available"@[0] == 'u',
        "update-available"@[1] == 'p',
        "unowned-conflict"@[0] == 'u',
        "unowned-conflict"@[1] == 'n',
        "project-override"@[0] == 'p',
        "project-override"@[7] == '-',
        "project-override"@.len() == 16,
        "project-conflict"@[7] == '-',
        "project-conflict"@[0] == 'p',
        "project-baseline"@[7] == '-',
        "project-baseline"@[0] == 'p',
        "projection-drift"@[7] == 'i',
        "projection-drift"@[0] == 'p',
        "missing-owned-skill"@[0] == 'm',
        "agent-target"@[0] == 'a',
{
    reveal_strlit("declared-rename");
    reveal_strlit("configuration-key");
    reveal_strlit("installed-state-path");
    reveal_strlit("installed-state");
    reveal_strlit("legacy-state");
    reveal_strlit("transaction-path");
    reveal_strlit("transaction");
    reveal_strlit("work-residue");
    reveal_strlit("staging-residue");
    reveal_strlit("desired-state");
    reveal_strlit("interrupted-transaction");
    reveal_strlit("invalid-transaction");
    reveal_strlit("orphaned-local");
    reveal_strlit("obsolete-owned-skill");
    reveal_strlit("ownership-drift");
    reveal_strlit("update-available");
    reveal_strlit("unowned-conflict");
    reveal_strlit("project-override");
    reveal_strlit("project-conflict");
    reveal_strlit("project-baseline");
    reveal_strlit("projection-drift");
    reveal_strlit("missing-owned-skill");
    reveal_strlit("agent-target");
}

/// The parts before the resolved ones tell nothing of these codes.
proof fn lemma_early_parts(
    f: Findings,
    renames: Result<Seq<Text>, Text>,
    version: u32,
    resolved: Resolution,
    journal: Option<TransactionJournal>,
    fingerprint: Text,
    skills: Map<Text, InstalledSkillView>,
    global: bool,
    code: Text,
    message: Text,
)
    requires
        code[0] == 'u' || code[0] == 'o' || code[0] == 'm' || code[0] == 'p' || code[0] == 'a',
    ensures
        !told(rename_part(renames), code, message),
        !told(state_part(f, version), code, message),
        !told(journal_part(f), code, message),
        !told(residue_part(f), code, message),
        !told(desired_part(resolved), code, message),
        !told(transaction_part(journal, resolved, global, fingerprint, skills), code, message),
{
    lemma_codes();
}

/// What is told of the recorded skills is told of one of them.
proof fn lemma_recorded(
    state: Map<Text, InstalledSkillView>,
    keys: Seq<Text>,
    rs: Seq<ResolvedView>,
    statuses: Seq<ProjectionStatus>,
    unavailable: Set<Text>,
    global: bool,
    n: int,
    code: Text,
    message: Text,
)
    requires
        0 <= n <= keys.len(),
    ensures
        told(recorded_part(state, keys, rs, statuses, unavailable, global, n), code, message) == (
        exists|i: int|
            0 <= i < n && !is_held(#[trigger] keys[i], unavailable) && (told(
                record_issue(keys[i], state[keys[i]], desired_at(rs, keys[i]), statuses[i], global),
                code,
                message,
            ) || (!global && desired_at(rs, keys[i]) is Some && told(
                local_issue(keys[i], statuses[i]),
                code,
                message,
            )))),
    decreases n,
{
    if n > 0 {
        lemma_recorded(state, keys, rs, statuses, unavailable, global, n - 1, code, message);
        let front = recorded_part(state, keys, rs, statuses, unavailable, global, n - 1);
        let key = keys[n - 1];
        let desired = desired_at(rs, key);
        let one = record_issue(key, state[key], desired, statuses[n - 1], global);
        let two: Seq<IssueView> = if !global && desired is Some {
            local_issue(key, statuses[n - 1])
        } else {
            Seq::empty()
        };
        lemma_told_concat(front, one, code, message);
        lemma_told_concat(front + one, two, code, message);
        let whole = recorded_part(state, keys, rs, statuses, unavailable, global, n);
        if told(front, code, message) {
            let i = choose|i: int|
                0 <= i < n - 1 && !is_held(#[trigger] keys[i], unavailable) && (told(
                    record_issue(
                        keys[i],
                        state[keys[i]],
                        desired_at(rs, keys[i]),
                        statuses[i],
                        global,
                    ),
                    code,
                    message,
                ) || (!global && desired_at(rs, keys[i]) is Some && told(
                    local_issue(keys[i], statuses[i]),
                    code,
                    message,
                )));
            assert(!is_held(keys[i], unavailable));
        }
    }
}

proof fn lemma_missing(state: Map<Text, InstalledSkillView>, rs: Seq<ResolvedView>, n: int, code: Text, message: Text)
    requires
        0 <= n <= rs.len(),
    ensures
        told(missing_part(state, rs, n), code, message) == (exists|i: int|
            0 <= i < n && !state.contains_key((#[trigger] rs[i]).key) && code
                == "missing-owned-skill"@ && message == rs[i].key
                + " is desired but absent from ownership state"@),
    decreases n,
{
    if n > 0 {
        lemma_missing(state, rs, n - 1, code, message);
        let front = missing_part(state, rs, n - 1);
        if !state.contains_key(rs[n - 1].key) {
            let last = missing_part(state, rs, n).last();
            assert(missing_part(state, rs, n) =~= front + seq![last]);
            lemma_told_concat(front, seq![last], code, message);
            assert(seq![last][0] == last);
        }
        if told(front, code, message) {
            let i = choose|i: int|
                0 <= i < n - 1 && !state.contains_key((#[trigger] rs[i]).key) && code
                    == "missing-owned-skill"@ && message == rs[i].key
                    + " is desired but absent from ownership state"@;
            assert(!state.contains_key(rs[i].key));
        }
    }
}

proof fn lemma_paths(paths: Seq<Text>, is_owned: bool, n: int, code: Text, message: Text)
    requires
        0 <= n <= paths.len(),
    ensures
        told(path_issues(paths, is_owned, n), code, message) == (!is_owned && exists|i: int|
            0 <= i < n && code == "unowned-conflict"@ && message
                == "refusing to replace unowned projection "@ + #[trigger] paths[i]),
    decreases n,
{
    if n > 0 && !is_owned {
        lemma_paths(paths, is_owned, n - 1, code, message);
        let front = path_issues(paths, is_owned, n - 1);
        let last = path_issues(paths, is_owned, n).last();
        assert(path_issues(paths, is_owned, n) =~= front + seq![last]);
        lemma_told_concat(front, seq![last], code, message);
        assert(seq![last][0] == last);
        if told(front, code, message) {
            let i = choose|i: int|
                0 <= i < n - 1 && code == "unowned-conflict"@ && message
                    == "refusing to replace unowned projection "@ + #[trigger] paths[i];
            assert(message == "refusing to replace unowned projection "@ + paths[i]);
        }
        if last.code == code && last.message == message {
            assert(message == "refusing to replace unowned projection "@ + paths[n - 1]);
        }
    }
}

proof fn lemma_agents(
    f: Findings,
    order: Seq<Text>,
    name: Text,
    is_owned: bool,
    n: int,
    code: Text,
    message: Text,
)
    requires
        0 <= n <= order.len(),
    ensures
        told(agent_issues(f.agents@, order, name, is_owned, n), code, message) == (exists|i: int|
            0 <= i < n && told(
                agent_issue(#[trigger] order[i], f.agents@[order[i]], name, is_owned),
                code,
                message,
            )),
    decreases n,
{
    if n > 0 {
        lemma_agents(f, order, name, is_owned, n - 1, code, message);
        let front = agent_issues(f.agents@, order, name, is_owned, n - 1);
        let one = agent_issue(order[n - 1], f.agents@[order[n - 1]], name, is_owned);
        lemma_told_concat(front, one, code, message);
        if told(front, code, message) {
            let i = choose|i: int|
                0 <= i < n - 1 && told(
                    agent_issue(#[trigger] order[i], f.agents@[order[i]], name, is_owned),
                    code,
                    message,
                );
            assert(order[i] == order[i]);
        }
    }
}

proof fn lemma_names(f: Findings, names: Seq<Text>, owned: Set<Text>, n: int, code: Text, message: Text)
    requires
        0 <= n <= names.len(),
    ensures
        told(name_part(f, names, owned, n), code, message) == (exists|i: int|
            0 <= i < n && (told(
                path_issues(
                    views(f.projections@[i]@),
                    owned.contains(#[trigger] names[i]),
                    f.projections@[i]@.len() as int,
                ),
                code,
                message,
            ) || told(
                agent_issues(
                    f.agents@,
                    walk(f.agents@.dom()),
                    names[i],
                    owned.contains(names[i]),
                    walk(f.agents@.dom()).len() as int,
                ),
                code,
                message,
            ))),
    decreases n,
{
    if n > 0 {
        lemma_names(f, names, owned, n - 1, code, message);
        let front = name_part(f, names, owned, n - 1);
        let order = walk(f.agents@.dom());
        let name = names[n - 1];
        let a = path_issues(
            views(f.projections@[n - 1]@),
            owned.contains(name),
            f.projections@[n - 1]@.len() as int,
        );
        let b = agent_issues(f.agents@, order, name, owned.contains(name), order.len() as int);
        lemma_told_concat(front, a, code, message);
        lemma_told_concat(front + a, b, code, message);
        if told(front, code, message) {
            let i = choose|i: int|
                0 <= i < n - 1 && (told(
                    path_issues(
                        views(f.projections@[i]@),
                        owned.contains(#[trigger] names[i]),
                        f.projections@[i]@.len() as int,
                    ),
                    code,
                    message,
                ) || told(
                    agent_issues(
                        f.agents@,
                        order,
                        names[i],
                        owned.contains(names[i]),
                        order.len() as int,
                    ),
                    code,
                    message,
                ));
            assert(names[i] == names[i]);
        }
    }
}

/// Nothing that is told of names and agents has one of these codes.
proof fn lemma_names_codes(f: Findings, names: Seq<Text>, owned: Set<Text>, n: int, code: Text, message: Text)
    requires
        0 <= n <= names.len(),
        code[0] == 'o' || code[0] == 'm' || (code[0] == 'u' && code[1] == 'p'),
    ensures
        !told(name_part(f, names, owned, n), code, message),
{
    lemma_codes();
    lemma_names(f, names, owned, n, code, message);
    let order = walk(f.agents@.dom());
    assert forall|i: int| 0 <= i < n implies !told(
        path_issues(
            views(f.projections@[i]@),
            owned.contains(#[trigger] names[i]),
            f.projections@[i]@.len() as int,
        ),
        code,
        message,
    ) && !told(
        agent_issues(f.agents@, order, names[i], owned.contains(names[i]), order.len() as int),
        code,
        message,
    ) by {
        lemma_paths(
            views(f.projections@[i]@),
            owned.contains(names[i]),
            f.projections@[i]@.len() as int,
            code,
            message,
        );
        lemma_agents(
            f,
            order,
            names[i],
            owned.contains(names[i]),
            order.len() as int,
            code,
            message,
        );
    }
}

proof fn lemma_last(rs: Seq<ResolvedView>, key: Text)
    ensures
        match last_with(rs, key) {
            Some(i) => 0 <= i < rs.len() && rs[i].key == key,
            None => forall|j: int| 0 <= j < rs.len() ==> (#[trigger] rs[j]).key != key,
        },
    decreases rs.len(),
{
    if rs.len() > 0 && rs.last().key != key {
        lemma_last(rs.drop_last(), key);
        if last_with(rs, key) is None {
            assert forall|j: int| 0 <= j < rs.len() implies (#[trigger] rs[j]).key != key by {
                if j < rs.len() - 1 {
                    assert(rs.drop_last()[j] == rs[j]);
                }
            }
        }
    }
}

/// Two texts that end alike and are equal begin alike.
proof fn lemma_same_start(a: Text, b: Text, end: Text)
    requires
        a + end == b + end,
    ensures
        a == b,
{
    assert((a + end).len() == a.len() + end.len());
    assert((b + end).len() == b.len() + end.len());
    assert(a =~= (a + end).take(a.len() as int));
    assert(b =~= (b + end).take(b.len() as int));
}

/// The words of a message can be read off it.
proof fn lemma_same_middle(start: Text, a: Text, b: Text, end: Text)
    requires
        start + a + end == start + b + end,
    ensures
        a == b,
{
    lemma_same_start(start + a, start + b, end);
    assert(a =~= (start + a).skip(start.len() as int));
    assert(b =~= (start + b).skip(start.len() as int));
}

/// What is told of one record, code by code.
proof fn lemma_record(
    key: Text,
    record: InstalledSkillView,
    desired: Option<ResolvedView>,
    status: ProjectionStatus,
    global: bool,
    message: Text,
)
    ensures
        ({
            let issues = record_issue(key, record, desired, status, global);
            let agrees = desired is Some && desired->Some_0.installed_name == record.installed_name
                && desired->Some_0.mode == record.mode && desired->Some_0.gitignore
                == record.gitignore;
            let kept = !global && (status is KeepLocal || status is Conflict || status is Unknown);
            &&& told(issues, "update-available"@, message) == (agrees && !(record.digest is Some
                && record.digest->Some_0 == desired->Some_0.digest) && message == key
                + " differs from the current catalog version"@)
            &&& told(issues, "ownership-drift"@, message) == (desired is Some && !agrees && message
                == "owned state for "@ + key + " differs from desired state"@)
            &&& told(issues, "obsolete-owned-skill"@, message) == (desired is None && !kept
                && message == "owned skill "@ + record.installed_name + " ("@ + key
                + ") is no longer desired"@)
            &&& told(issues, "orphaned-local"@, message) == (desired is None && kept && message
                == key + " was removed from the catalog but has project changes; keeping "@
                + record.installed_name + " unchanged"@)
        }),
{
    lemma_codes();
    let issues = record_issue(key, record, desired, status, global);
    if let Some(d) = desired {
        if d.installed_name =~= record.installed_name && record.digest is Some
            && record.digest->Some_0 =~= d.digest {
            assert(record.digest == Some(d.digest));
        }
    }
    if issues.len() > 0 {
        assert(issues.len() == 1);
        assert(told(issues, issues[0].code, issues[0].message));
        assert(told(issues, "update-available"@, message) ==> issues[0].code
            == "update-available"@ && issues[0].message == message);
        if issues[0].code == "update-available"@ && issues[0].message == message {
            assert(told(issues, "update-available"@, message));
        }
    }
}

/// What is told of the records, by their places in the order of their keys.
proof fn lemma_records(
    f: Findings,
    renames: Result<Seq<Text>, Text>,
    state: InstalledState,
    rs: Seq<ResolvedView>,
    journal: Option<TransactionJournal>,
    fingerprint: Text,
    unavailable: Set<Text>,
    global: bool,
    code: Text,
    message: Text,
)
    requires
        state.skills@.dom().finite(),
        code[0] == 'o' || (code[0] == 'u' && code[1] == 'p'),
    ensures
        ({
            let keys = walk(state.skills@.dom());
            &&& keys.to_set() == state.skills@.dom()
            &&& keys.no_duplicates()
            &&& told(
                diagnosis(
                    f,
                    renames,
                    state,
                    Ok::<Seq<ResolvedView>, Text>(rs),
                    journal,
                    fingerprint,
                    unavailable,
                    global,
                ),
                code,
                message,
            ) == (exists|place: int|
                0 <= place < keys.len() && !of_catalog(#[trigger] keys[place], unavailable)
                    && told(
                    record_issue(
                        keys[place],
                        state.skills@[keys[place]]@,
                        desired_at(rs, keys[place]),
                        f.statuses@[place],
                        global,
                    ),
                    code,
                    message,
                ))
        }),
{
    lemma_codes();
    let skills = state@.skills;
    assert(skills.dom() =~= state.skills@.dom());
    lemma_walk_finite(skills.dom());
    let keys = walk(skills.dom());
    let n = keys.len() as int;
    let r = Ok::<Seq<ResolvedView>, Text>(rs);
    lemma_parts(f, renames, state, r, journal, fingerprint, unavailable, global, code, message);
    lemma_early_parts(
        f,
        renames,
        state.version,
        r,
        journal,
        fingerprint,
        skills,
        global,
        code,
        message,
    );
    let claim = match claimed(journal, r, global, fingerprint, skills) {
        Some(names) => names,
        None => Set::empty(),
    };
    let names = walk(resolved_names(rs));
    lemma_names_codes(f, names, owned_names(skills, claim), names.len() as int, code, message);
    lemma_missing(skills, rs, rs.len() as int, code, message);
    lemma_recorded(skills, keys, rs, f.statuses@, unavailable, global, n, code, message);
    assert forall|i: int| 0 <= i < n implies is_held(#[trigger] keys[i], unavailable)
        == of_catalog(keys[i], unavailable) && skills[keys[i]] == state.skills@[keys[i]]@ && !told(
        local_issue(keys[i], f.statuses@[i]),
        code,
        message,
    ) by {
        lemma_held(keys[i], unavailable);
        assert(keys.to_set().contains(keys[i]));
    }
}

/// Where a key stands in a list of resolved skills with different keys.
pub proof fn lemma_desired(resolved: Seq<ResolvedSkill>, key: Text)
    requires
        forall|a: int, b: int|
            0 <= a < b < resolved.len() ==> (#[trigger] resolved[a]).key@ != (
            #[trigger] resolved[b]).key@,
    ensures
        match desired_at(resolved_views(resolved), key) {
            Some(d) => exists|i: int|
                0 <= i < resolved.len() && (#[trigger] resolved[i]).key@ == key && d
                    == resolved[i]@,
            None => true,
        },
        desired_at(resolved_views(resolved), key) is None <==> forall|i: int|
            0 <= i < resolved.len() ==> (#[trigger] resolved[i]).key@ != key,
        forall|a: int, b: int|
            0 <= a < resolved.len() && 0 <= b < resolved.len() && (#[trigger] resolved[a]).key@
                == key && (#[trigger] resolved[b]).key@ == key ==> a == b,
{
    let rs = resolved_views(resolved);
    lemma_last(rs, key);
    match last_with(rs, key) {
        Some(i) => {
            assert(rs[i] == resolved[i]@);
            assert(resolved[i].key@ == key);
        },
        None => {
            assert forall|i: int| 0 <= i < resolved.len() implies (#[trigger] resolved[i]).key@
                != key by {
                assert(rs[i].key != key);
            }
        },
    }
}

/// A diagnosis tells of an update of a skill exactly where the skill is recorded, its catalog is at
/// hand, it agrees with what is desired in its name, mode and ignore flag, and its digest is not the
/// desired one. It tells that the state of a skill has drifted exactly where it is recorded, its
/// catalog is at hand, and it is desired under another name, mode or ignore flag.
pub proof fn law_records_are_told(
    f: Findings,
    renames: Result<Seq<Text>, Text>,
    state: InstalledState,
    resolved: Seq<ResolvedSkill>,
    journal: Option<TransactionJournal>,
    fingerprint: Text,
    unavailable: Set<Text>,
    global: bool,
    key: Text,
)
    requires
        state.skills@.dom().finite(),
        forall|a: int, b: int|
            0 <= a < b < resolved.len() ==> (#[trigger] resolved[a]).key@ != (
            #[trigger] resolved[b]).key@,
    ensures
        ({
            let record = state.skills@[key];
            let issues = diagnosis(
                f,
                renames,
                state,
                Ok::<Seq<ResolvedView>, Text>(resolved_views(resolved)),
                journal,
                fingerprint,
                unavailable,
                global,
            );
            &&& told(
                issues,
                "update-available"@,
                key + " differs from the current catalog version"@,
            ) <==> state.skills@.contains_key(key) && !of_catalog(key, unavailable) && exists|
                i: int,
            |
                {
                    &&& 0 <= i < resolved.len()
                    &&& (#[trigger] resolved[i]).key@ == key
                    &&& resolved[i].installed_name@ == record.installed_name@
                    &&& resolved[i].mode == record.mode
                    &&& resolved[i].gitignore == record.gitignore
                    &&& !(record.digest is Some && record.digest->Some_0@ == resolved[i].digest@)
                }
            &&& told(
                issues,
                "ownership-drift"@,
                "owned state for "@ + key + " differs from desired state"@,
            ) <==> state.skills@.contains_key(key) && !of_catalog(key, unavailable) && exists|
                i: int,
            |
                {
                    &&& 0 <= i < resolved.len()
                    &&& (#[trigger] resolved[i]).key@ == key
                    &&& !(resolved[i].installed_name@ == record.installed_name@ && resolved[i].mode
                        == record.mode && resolved[i].gitignore == record.gitignore)
                }
        }),
{
    let rs = resolved_views(resolved);
    let keys = walk(state.skills@.dom());
    lemma_codes();
    lemma_desired(resolved, key);
    let end = " differs from the current catalog version"@;
    let update = key + end;
    let from = "owned state for "@;
    let to = " differs from desired state"@;
    let drift = from + key + to;
    lemma_records(
        f,
        renames,
        state,
        rs,
        journal,
        fingerprint,
        unavailable,
        global,
        "update-available"@,
        update,
    );
    lemma_records(
        f,
        renames,
        state,
        rs,
        journal,
        fingerprint,
        unavailable,
        global,
        "ownership-drift"@,
        drift,
    );
    assert forall|place: int| 0 <= place < keys.len() implies {
        let k = #[trigger] keys[place];
        let issues = record_issue(
            k,
            state.skills@[k]@,
            desired_at(rs, k),
            f.statuses@[place],
            global,
        );
        &&& state.skills@.contains_key(k)
        &&& told(issues, "update-available"@, update) ==> k == key
        &&& told(issues, "ownership-drift"@, drift) ==> k == key
    } by {
        let k = keys[place];
        assert(keys.to_set().contains(k));
        let status = f.statuses@[place];
        lemma_record(k, state.skills@[k]@, desired_at(rs, k), status, global, update);
        lemma_record(k, state.skills@[k]@, desired_at(rs, k), status, global, drift);
        if k + end == update {
            lemma_same_start(k, key, end);
        }
        if from + k + to == drift {
            lemma_same_middle(from, k, key, to);
        }
    }
    if state.skills@.contains_key(key) {
        assert(keys.to_set().contains(key));
        let place = keys.index_of(key);
        assert(keys[place] == key);
        let record = state.skills@[key]@;
        let status = f.statuses@[place];
        lemma_record(key, record, desired_at(rs, key), status, global, update);
        lemma_record(key, record, desired_at(rs, key), status, global, drift);
        match desired_at(rs, key) {
            Some(d) => {
                let i = choose|i: int|
                    0 <= i < resolved.len() && (#[trigger] resolved[i]).key@ == key && d
                        == resolved[i]@;
                assert(resolved[i].key@ == key);
            },
            None => {},
        }
    }
}

/// A diagnosis tells of a recorded skill that nothing desires any more: that it is to be removed, or,
/// in a project, that it is kept for its local changes. It does so exactly where the catalog of the
/// skill is at hand and no resolved skill has its key.
pub proof fn law_undesired_records_are_told(
    f: Findings,
    renames: Result<Seq<Text>, Text>,
    state: InstalledState,
    resolved: Seq<ResolvedSkill>,
    journal: Option<TransactionJournal>,
    fingerprint: Text,
    unavailable: Set<Text>,
    global: bool,
    message: Text,
)
    requires
        state.skills@.dom().finite(),
        forall|a: int, b: int|
            0 <= a < b < resolved.len() ==> (#[trigger] resolved[a]).key@ != (
            #[trigger] resolved[b]).key@,
    ensures
        ({
            let keys = walk(state.skills@.dom());
            let issues = diagnosis(
                f,
                renames,
                state,
                Ok::<Seq<ResolvedView>, Text>(resolved_views(resolved)),
                journal,
                fingerprint,
                unavailable,
                global,
            );
            &&& told(issues, "obsolete-owned-skill"@, message) <==> exists|place: int|
                {
                    let key = #[trigger] keys[place];
                    let status = f.statuses@[place];
                    &&& 0 <= place < keys.len()
                    &&& !of_catalog(key, unavailable)
                    &&& forall|i: int|
                        0 <= i < resolved.len() ==> (#[trigger] resolved[i]).key@ != key
                    &&& global || !(status is KeepLocal || status is Conflict || status is Unknown)
                    &&& message == "owned skill "@ + state.skills@[key].installed_name@ + " ("@
                        + key + ") is no longer desired"@
                }
            &&& told(issues, "orphaned-local"@, message) <==> exists|place: int|
                {
                    let key = #[trigger] keys[place];
                    let status = f.statuses@[place];
                    &&& 0 <= place < keys.len()
                    &&& !of_catalog(key, unavailable)
                    &&& forall|i: int|
                        0 <= i < resolved.len() ==> (#[trigger] resolved[i]).key@ != key
                    &&& !global && (status is KeepLocal || status is Conflict || status is Unknown)
                    &&& message == key
                        + " was removed from the catalog but has project changes; keeping "@
                        + state.skills@[key].installed_name@ + " unchanged"@
                }
        }),
{
    let rs = resolved_views(resolved);
    let keys = walk(state.skills@.dom());
    lemma_codes();
    lemma_records(
        f,
        renames,
        state,
        rs,
        journal,
        fingerprint,
        unavailable,
        global,
        "obsolete-owned-skill"@,
        message,
    );
    lemma_records(
        f,
        renames,
        state,
        rs,
        journal,
        fingerprint,
        unavailable,
        global,
        "orphaned-local"@,
        message,
    );
    assert forall|place: int| 0 <= place < keys.len() implies {
        let key = #[trigger] keys[place];
        let status = f.statuses@[place];
        let issues = record_issue(
            key,
            state.skills@[key]@,
            desired_at(rs, key),
            f.statuses@[place],
            global,
        );
        let kept = !global && (status is KeepLocal || status is Conflict || status is Unknown);
        &&& told(issues, "obsolete-owned-skill"@, message) == (!kept && (forall|i: int|
            0 <= i < resolved.len() ==> (#[trigger] resolved[i]).key@ != key) && message
            == "owned skill "@ + state.skills@[key].installed_name@ + " ("@ + key
            + ") is no longer desired"@)
        &&& told(issues, "orphaned-local"@, message) == (kept && (forall|i: int|
            0 <= i < resolved.len() ==> (#[trigger] resolved[i]).key@ != key) && message == key
            + " was removed from the catalog but has project changes; keeping "@
            + state.skills@[key].installed_name@ + " unchanged"@)
    } by {
        let key = keys[place];
        lemma_desired(resolved, key);
        lemma_record(
            key,
            state.skills@[key]@,
            desired_at(rs, key),
            f.statuses@[place],
            global,
            message,
        );
    }
}

/// A diagnosis tells that a desired skill is missing exactly where a resolved skill has the key and
/// nothing is recorded under it.
pub proof fn law_missing_skills_are_told(
    f: Findings,
    renames: Result<Seq<Text>, Text>,
    state: InstalledState,
    resolved: Seq<ResolvedSkill>,
    journal: Option<TransactionJournal>,
    fingerprint: Text,
    unavailable: Set<Text>,
    global: bool,
    key: Text,
)
    requires
        state.skills@.dom().finite(),
    ensures
        told(
            diagnosis(
                f,
                renames,
                state,
                Ok::<Seq<ResolvedView>, Text>(resolved_views(resolved)),
                journal,
                fingerprint,
                unavailable,
                global,
            ),
            "missing-owned-skill"@,
            key + " is desired but absent from ownership state"@,
        ) <==> !state.skills@.contains_key(key) && exists|i: int|
            0 <= i < resolved.len() && (#[trigger] resolved[i]).key@ == key,
{
    let rs = resolved_views(resolved);
    let r = Ok::<Seq<ResolvedView>, Text>(rs);
    let skills = state@.skills;
    let code = "missing-owned-skill"@;
    let end = " is desired but absent from ownership state"@;
    let message = key + end;
    lemma_codes();
    assert(skills.dom() =~= state.skills@.dom());
    lemma_walk_finite(skills.dom());
    lemma_parts(f, renames, state, r, journal, fingerprint, unavailable, global, code, message);
    lemma_early_parts(
        f,
        renames,
        state.version,
        r,
        journal,
        fingerprint,
        skills,
        global,
        code,
        message,
    );
    let claim = match claimed(journal, r, global, fingerprint, skills) {
        Some(names) => names,
        None => Set::empty(),
    };
    let names = walk(resolved_names(rs));
    lemma_names_codes(f, names, owned_names(skills, claim), names.len() as int, code, message);
    lemma_missing(skills, rs, rs.len() as int, code, message);
    let keys = walk(skills.dom());
    lemma_recorded(
        skills,
        keys,
        rs,
        f.statuses@,
        unavailable,
        global,
        keys.len() as int,
        code,
        message,
    );
    if exists|i: int|
        0 <= i < rs.len() && !skills.contains_key((#[trigger] rs[i]).key) && message == rs[i].key
            + end {
        let i = choose|i: int|
            0 <= i < rs.len() && !skills.contains_key((#[trigger] rs[i]).key) && message
                == rs[i].key + end;
        lemma_same_start(rs[i].key, key, end);
        assert(resolved[i].key@ == key);
    }
    if !state.skills@.contains_key(key) && exists|i: int|
        0 <= i < resolved.len() && (#[trigger] resolved[i]).key@ == key {
        let i = choose|i: int| 0 <= i < resolved.len() && (#[trigger] resolved[i]).key@ == key;
        assert(rs[i].key == key);
    }
}

/// A resolved skill is installed under a name.
pub open spec fn has_name(resolved: Seq<ResolvedSkill>, name: Text) -> bool {
    exists|i: int| 0 <= i < resolved.len() && (#[trigger] resolved[i]).installed_name@ == name
}

/// An agent could be listed and does not list a name.
pub open spec fn lacks(f: Findings, agent: Text, name: Text) -> bool {
    f.agents@.contains_key(agent) && f.agents@[agent] is Ok && !f.agents@[agent]->Ok_0@.contains(
        name,
    )
}

proof fn lemma_resolved_order(resolved: Seq<ResolvedSkill>)
    ensures
        forall|n: Text| #[trigger]
            walk(resolved_names(resolved_views(resolved))).contains(n) == has_name(resolved, n),
{
    let rs = resolved_views(resolved);
    let set = resolved_names(rs);
    let names = walk(set);
    let all = Seq::new(rs.len(), |i: int| rs[i].installed_name);
    assert forall|n: Text| set.contains(n) == has_name(resolved, n) && all.to_set().contains(n)
        == has_name(resolved, n) by {
        if set.contains(n) {
            let i = choose|i: int| 0 <= i < rs.len() && (#[trigger] rs[i]).installed_name == n;
            assert(resolved[i].installed_name@ == n);
        }
        if all.contains(n) {
            let i = all.index_of(n);
            assert(all[i] == n);
            assert(resolved[i].installed_name@ == n);
        }
        if has_name(resolved, n) {
            let i = choose|i: int|
                0 <= i < resolved.len() && (#[trigger] resolved[i]).installed_name@ == n;
            assert(rs[i].installed_name == n);
            assert(all[i] == n);
        }
    }
    assert(set =~= all.to_set());
    vstd::seq_lib::seq_to_set_is_finite(all);
    lemma_walk_finite(set);
    assert forall|n: Text| #[trigger] names.contains(n) == has_name(resolved, n) by {
        assert(names.to_set().contains(n) == set.contains(n));
    }
}

/// Which agents lack a name, as it is told of one name.
proof fn lemma_lacking(f: Findings, name: Text, is_owned: bool, message: Text)
    requires
        f.agents@.dom().finite(),
    ensures
        ({
            let order = walk(f.agents@.dom());
            told(
                agent_issues(f.agents@, order, name, is_owned, order.len() as int),
                "projection-drift"@,
                message,
            ) == (exists|agent: Text| #[trigger]
                lacks(f, agent, name) && message == name + " is missing for Vercel agent "@
                    + agent)
        }),
{
    let code = "projection-drift"@;
    let order = walk(f.agents@.dom());
    lemma_codes();
    lemma_walk_finite(f.agents@.dom());
    lemma_agents(f, order, name, is_owned, order.len() as int, code, message);
    assert forall|a: int| 0 <= a < order.len() implies told(
        agent_issue(#[trigger] order[a], f.agents@[order[a]], name, is_owned),
        code,
        message,
    ) == (lacks(f, order[a], name) && message == name + " is missing for Vercel agent "@
        + order[a]) by {
        assert(order.to_set().contains(order[a]));
        let one = agent_issue(order[a], f.agents@[order[a]], name, is_owned);
        if one.len() > 0 {
            assert(one.len() == 1);
            assert(told(one, one[0].code, one[0].message));
        }
    }
    if exists|agent: Text| #[trigger]
        lacks(f, agent, name) && message == name + " is missing for Vercel agent "@ + agent {
        let agent = choose|agent: Text| #[trigger]
            lacks(f, agent, name) && message == name + " is missing for Vercel agent "@ + agent;
        assert(order.to_set().contains(agent));
        let a = order.index_of(agent);
        assert(order[a] == agent);
    }
}

/// A diagnosis tells that a projection has drifted exactly where an agent could be listed and does not
/// list the name of a resolved skill.
pub proof fn law_missing_projections_are_told(
    f: Findings,
    renames: Result<Seq<Text>, Text>,
    state: InstalledState,
    resolved: Seq<ResolvedSkill>,
    journal: Option<TransactionJournal>,
    fingerprint: Text,
    unavailable: Set<Text>,
    global: bool,
    message: Text,
)
    requires
        state.skills@.dom().finite(),
        f.agents@.dom().finite(),
    ensures
        told(
            diagnosis(
                f,
                renames,
                state,
                Ok::<Seq<ResolvedView>, Text>(resolved_views(resolved)),
                journal,
                fingerprint,
                unavailable,
                global,
            ),
            "projection-drift"@,
            message,
        ) <==> exists|name: Text, agent: Text|
            {
                &&& has_name(resolved, name)
                &&& #[trigger] lacks(f, agent, name)
                &&& message == name + " is missing for Vercel agent "@ + agent
            },
{
    let rs = resolved_views(resolved);
    let r = Ok::<Seq<ResolvedView>, Text>(rs);
    let skills = state@.skills;
    let code = "projection-drift"@;
    lemma_codes();
    assert(skills.dom() =~= state.skills@.dom());
    lemma_walk_finite(skills.dom());
    lemma_parts(f, renames, state, r, journal, fingerprint, unavailable, global, code, message);
    lemma_early_parts(
        f,
        renames,
        state.version,
        r,
        journal,
        fingerprint,
        skills,
        global,
        code,
        message,
    );
    let claim = match claimed(journal, r, global, fingerprint, skills) {
        Some(names) => names,
        None => Set::empty(),
    };
    let owned = owned_names(skills, claim);
    let names = walk(resolved_names(rs));
    lemma_missing(skills, rs, rs.len() as int, code, message);
    let keys = walk(skills.dom());
    lemma_recorded(
        skills,
        keys,
        rs,
        f.statuses@,
        unavailable,
        global,
        keys.len() as int,
        code,
        message,
    );
    lemma_names(f, names, owned, names.len() as int, code, message);
    lemma_resolved_order(resolved);
    let order = walk(f.agents@.dom());
    let told_of = |p: int|
        told(
            agent_issues(f.agents@, order, names[p], owned.contains(names[p]), order.len() as int),
            code,
            message,
        );
    assert forall|p: int| 0 <= p < names.len() implies !told(
        path_issues(
            views(f.projections@[p]@),
            owned.contains(#[trigger] names[p]),
            f.projections@[p]@.len() as int,
        ),
        code,
        message,
    ) by {
        lemma_paths(
            views(f.projections@[p]@),
            owned.contains(names[p]),
            f.projections@[p]@.len() as int,
            code,
            message,
        );
    }
    if exists|p: int| 0 <= p < names.len() && #[trigger] told_of(p) {
        let p = choose|p: int| 0 <= p < names.len() && #[trigger] told_of(p);
        lemma_lacking(f, names[p], owned.contains(names[p]), message);
        assert(names.contains(names[p]));
        let agent = choose|agent: Text| #[trigger]
            lacks(f, agent, names[p]) && message == names[p] + " is missing for Vercel agent "@
                + agent;
        assert(lacks(f, agent, names[p]));
    }
    if exists|name: Text, agent: Text|
        {
            &&& has_name(resolved, name)
            &&& #[trigger] lacks(f, agent, name)
            &&& message == name + " is missing for Vercel agent "@ + agent
        } {
        let (name, agent) = choose|name: Text, agent: Text|
            {
                &&& has_name(resolved, name)
                &&& #[trigger] lacks(f, agent, name)
                &&& message == name + " is missing for Vercel agent "@ + agent
            };
        assert(names.contains(name));
        let p = names.index_of(name);
        lemma_lacking(f, name, owned.contains(name), message);
        assert(lacks(f, agent, name));
        assert(names[p] == name);
        assert(told_of(p));
    }
    if told(name_part(f, names, owned, names.len() as int), code, message) {
        let p = choose|p: int|
            0 <= p < names.len() && (told(
                path_issues(
                    views(f.projections@[p]@),
                    owned.contains(#[trigger] names[p]),
                    f.projections@[p]@.len() as int,
                ),
                code,
                message,
            ) || told(
                agent_issues(
                    f.agents@,
                    order,
                    names[p],
                    owned.contains(names[p]),
                    order.len() as int,
                ),
                code,
                message,
            ));
        assert(told_of(p));
    }
}

/// The lengths of codes that begin alike.
proof fn lemma_code_lengths()
    ensures
        "declared-rename"@.len() == 15,
        "desired-state"@.len() == 13,
        "installed-state-path"@.len() == 20,
        "installed-state"@.len() == 15,
        "interrupted-transaction"@.len() == 23,
        "invalid-transaction"@.len() == 19,
        "transaction-path"@.len() == 16,
        "transaction"@.len() == 11,
{
    reveal_strlit("declared-rename");
    reveal_strlit("desired-state");
    reveal_strlit("installed-state-path");
    reveal_strlit("installed-state");
    reveal_strlit("interrupted-transaction");
    reveal_strlit("invalid-transaction");
    reveal_strlit("transaction-path");
    reveal_strlit("transaction");
}

/// Nothing that is told of records, names and agents has one of these codes.
proof fn lemma_late_parts(
    f: Findings,
    state: InstalledState,
    rs: Seq<ResolvedView>,
    unavailable: Set<Text>,
    global: bool,
    owned: Set<Text>,
    code: Text,
    message: Text,
)
    requires
        code[0] == 'd' || code[0] == 'c' || code[0] == 'i' || code[0] == 'l' || code[0] == 't'
            || code[0] == 'w' || code[0] == 's',
    ensures
        ({
            let skills = state@.skills;
            let keys = walk(skills.dom());
            let names = walk(resolved_names(rs));
            &&& !told(
                recorded_part(
                    skills,
                    keys,
                    rs,
                    f.statuses@,
                    unavailable,
                    global,
                    keys.len() as int,
                ),
                code,
                message,
            )
            &&& !told(missing_part(skills, rs, rs.len() as int), code, message)
            &&& !told(name_part(f, names, owned, names.len() as int), code, message)
        }),
{
    lemma_codes();
    let skills = state@.skills;
    let keys = walk(skills.dom());
    let names = walk(resolved_names(rs));
    let order = walk(f.agents@.dom());
    lemma_recorded(
        skills,
        keys,
        rs,
        f.statuses@,
        unavailable,
        global,
        keys.len() as int,
        code,
        message,
    );
    lemma_missing(skills, rs, rs.len() as int, code, message);
    lemma_names(f, names, owned, names.len() as int, code, message);
    assert forall|i: int| 0 <= i < names.len() implies !told(
        path_issues(
            views(f.projections@[i]@),
            owned.contains(#[trigger] names[i]),
            f.projections@[i]@.len() as int,
        ),
        code,
        message,
    ) && !told(
        agent_issues(f.agents@, order, names[i], owned.contains(names[i]), order.len() as int),
        code,
        message,
    ) by {
        lemma_paths(
            views(f.projections@[i]@),
            owned.contains(names[i]),
            f.projections@[i]@.len() as int,
            code,
            message,
        );
        lemma_agents(
            f,
            order,
            names[i],
            owned.contains(names[i]),
            order.len() as int,
            code,
            message,
        );
    }
}

/// What could not be read is told, each under its code: the state or its place, the journal or its
/// place, the work directory, the configuration. An old state is told as such, and every directory
/// that was left behind and every rename that is due.
pub proof fn law_failures_are_told(
    f: Findings,
    renames: Result<Seq<Text>, Text>,
    state: InstalledState,
    resolved: Resolution,
    journal: Option<TransactionJournal>,
    fingerprint: Text,
    unavailable: Set<Text>,
    global: bool,
    message: Text,
)
    ensures
        ({
            let issues = diagnosis(
                f,
                renames,
                state,
                resolved,
                journal,
                fingerprint,
                unavailable,
                global,
            );
            &&& told(issues, "installed-state-path"@, message) <==> f.state_path_error is Some
                && f.state_path_error->Some_0@ == message
            &&& told(issues, "installed-state"@, message) <==> f.state_path_error is None
                && f.state_error is Some && f.state_error->Some_0@ == message
            &&& (exists|m: Text| #[trigger] told(issues, "legacy-state"@, m)) <==> f.state_path_error
                is None && f.state_error is None && state.version != 3
            &&& told(issues, "transaction-path"@, message) <==> f.journal_path_error is Some
                && f.journal_path_error->Some_0@ == message
            &&& told(issues, "transaction"@, message) <==> f.journal_path_error is None
                && f.journal_error is Some && f.journal_error->Some_0@ == message
            &&& told(issues, "work-residue"@, message) <==> f.residue_error is Some
                && f.residue_error->Some_0@ == message
            &&& told(issues, "staging-residue"@, message) <==> f.residue_error is None && exists|
                i: int,
            |
                0 <= i < f.residue@.len() && message == "owned installation residue remains at "@ + (
                #[trigger] f.residue@[i])@
            &&& told(issues, "desired-state"@, message) <==> resolved == Err::<
                Seq<ResolvedView>,
                Text,
            >(message)
            &&& told(issues, "configuration-key"@, message) <==> renames == Err::<Seq<Text>, Text>(
                message,
            )
            &&& told(issues, "declared-rename"@, message) <==> (renames matches Ok(list)
                && list.contains(message))
        }),
{
    lemma_codes();
    lemma_code_lengths();
    let issues = diagnosis(f, renames, state, resolved, journal, fingerprint, unavailable, global);
    let p1 = rename_part(renames);
    let p2 = state_part(f, state.version);
    let p3 = journal_part(f);
    let p4 = residue_part(f);
    let p5 = desired_part(resolved);
    let p6 = transaction_part(journal, resolved, global, fingerprint, state@.skills);
    assert forall|code: Text, m: Text|
        (code[0] == 'd' || code[0] == 'c' || code[0] == 'i' || code[0] == 'l' || code[0] == 't'
            || code[0] == 'w' || code[0] == 's') implies #[trigger] told(issues, code, m) == (told(
        p1,
        code,
        m,
    ) || told(p2, code, m) || told(p3, code, m) || told(p4, code, m) || told(p5, code, m) || told(
        p6,
        code,
        m,
    )) by {
        lemma_parts(
            f,
            renames,
            state,
            resolved,
            journal,
            fingerprint,
            unavailable,
            global,
            code,
            m,
        );
        if let Ok(rs) = resolved {
            let claim = match claimed(journal, resolved, global, fingerprint, state@.skills) {
                Some(names) => names,
                None => Set::empty(),
            };
            lemma_late_parts(
                f,
                state,
                rs,
                unavailable,
                global,
                owned_names(state@.skills, claim),
                code,
                m,
            );
        }
    }
    assert(p2.len() > 0 ==> told(p2, p2[0].code, p2[0].message));
    assert(p3.len() > 0 ==> told(p3, p3[0].code, p3[0].message));
    assert(p5.len() > 0 ==> told(p5, p5[0].code, p5[0].message));
    if let Ok(list) = renames {
        if list.contains(message) {
            let i = list.index_of(message);
            assert(p1[i].message == message);
        }
        if told(p1, "declared-rename"@, message) {
            let i = choose|i: int|
                0 <= i < p1.len() && (#[trigger] p1[i]).code == "declared-rename"@ && p1[i].message
                    == message;
            assert(list[i] == message);
        }
    } else {
        assert(p1[0].message == renames->Err_0);
    }
    if f.residue_error is None {
        if exists|i: int|
            0 <= i < f.residue@.len() && message == "owned installation residue remains at "@ + (
            #[trigger] f.residue@[i])@ {
            let i = choose|i: int|
                0 <= i < f.residue@.len() && message == "owned installation residue remains at "@ + (
                #[trigger] f.residue@[i])@;
            assert(p4[i].message == message);
        }
        if told(p4, "staging-residue"@, message) {
            let i = choose|i: int|
                0 <= i < p4.len() && (#[trigger] p4[i]).code == "staging-residue"@ && p4[i].message
                    == message;
            assert(message == "owned installation residue remains at "@ + f.residue@[i]@);
        }
    } else {
        assert(p4[0].message == f.residue_error->Some_0@);
    }
    if f.state_path_error is None && f.state_error is None && state.version != 3 {
        assert(told(issues, "legacy-state"@, p2[0].message));
    }
    if exists|m: Text| #[trigger] told(issues, "legacy-state"@, m) {
        let m = choose|m: Text| #[trigger] told(issues, "legacy-state"@, m);
        assert(told(p2, "legacy-state"@, m));
    }
}

/// What an update, an installation and a repair are recommended for: the command is among the
/// recommendations exactly where an issue, or a report on a catalog, calls for it.
pub proof fn law_commands_are_recommended(scope: Text, issues: Seq<IssueView>, reports: bool)
    ensures
        ({
            let flag = if scope == "global"@ {
                " -g"@
            } else {
                ""@
            };
            let update = reports || exists|i: int|
                0 <= i < issues.len() && (#[trigger] issues[i]).code == "update-available"@;
            let install = exists|i: int|
                0 <= i < issues.len() && ((#[trigger] issues[i]).code == "missing-owned-skill"@
                    || issues[i].code == "ownership-drift"@ || issues[i].code
                    == "projection-drift"@);
            let repair = exists|i: int|
                0 <= i < issues.len() && (#[trigger] issues[i]).fixable && issues[i].code
                    != "update-available"@ && issues[i].code != "missing-owned-skill"@
                    && issues[i].code != "ownership-drift"@ && issues[i].code
                    != "projection-drift"@;
            let u = "Run `skiller update"@ + flag + "` to refresh and review catalog updates."@;
            let n = "Run `skiller install"@ + flag + "` to reconcile desired projections."@;
            let d = "Run `skiller doctor"@ + flag + " --repair` to repair Skiller-owned state."@;
            recommendations(scope, issues, reports) == (if update {
                seq![u]
            } else {
                Seq::empty()
            }) + (if install {
                seq![n]
            } else {
                Seq::empty()
            }) + (if repair {
                seq![d]
            } else {
                Seq::empty()
            })
        }),
{
    let flag = if scope == "global"@ {
        " -g"@
    } else {
        ""@
    };
    let none = Seq::<Text>::empty();
    let u = seq!["Run `skiller update"@ + flag + "` to refresh and review catalog updates."@];
    let n = seq!["Run `skiller install"@ + flag + "` to reconcile desired projections."@];
    let d = seq!["Run `skiller doctor"@ + flag + " --repair` to repair Skiller-owned state."@];
    let a = if reports || any_update(issues) {
        u
    } else {
        none
    };
    let b = if any_install(issues) {
        n
    } else {
        none
    };
    let c = if any_repair(issues) {
        d
    } else {
        none
    };
    assert(recommendations(scope, issues, reports) =~= a + b + c);
    assert(any_update(issues) == (exists|i: int|
        0 <= i < issues.len() && (#[trigger] issues[i]).code == "update-available"@));
    assert(any_install(issues) == (exists|i: int|
        0 <= i < issues.len() && ((#[trigger] issues[i]).code == "missing-owned-skill"@
            || issues[i].code == "ownership-drift"@ || issues[i].code == "projection-drift"@)));
    assert(any_repair(issues) == (exists|i: int|
        0 <= i < issues.len() && (#[trigger] issues[i]).fixable && issues[i].code
            != "update-available"@ && issues[i].code != "missing-owned-skill"@ && issues[i].code
            != "ownership-drift"@ && issues[i].code != "projection-drift"@));
}

/// A code whose issues can be repaired.
pub open spec fn is_repairable(code: Text) -> bool {
    ||| code == "declared-rename"@
    ||| code == "legacy-state"@
    ||| code == "staging-residue"@
    ||| code == "interrupted-transaction"@
    ||| code == "obsolete-owned-skill"@
    ||| code == "ownership-drift"@
    ||| code == "update-available"@
    ||| code == "project-baseline"@
    ||| code == "missing-owned-skill"@
    ||| code == "projection-drift"@
}

spec fn marked(issues: Seq<IssueView>) -> bool {
    forall|i: int|
        0 <= i < issues.len() ==> (#[trigger] issues[i]).fixable == is_repairable(issues[i].code)
}

proof fn lemma_marked_concat(a: Seq<IssueView>, b: Seq<IssueView>)
    requires
        marked(a),
        marked(b),
    ensures
        marked(a + b),
{
    let c = a + b;
    assert forall|i: int| 0 <= i < c.len() implies (#[trigger] c[i]).fixable == is_repairable(
        c[i].code,
    ) by {
        if i < a.len() {
            assert(c[i] == a[i]);
        } else {
            assert(c[i] == b[i - a.len()]);
        }
    }
}

proof fn lemma_project_codes()
    ensures
        "project-baseline"@[8] == 'b',
        "project-override"@[8] == 'o',
        "project-conflict"@[8] == 'c',
{
    reveal_strlit("project-baseline");
    reveal_strlit("project-override");
    reveal_strlit("project-conflict");
}

proof fn lemma_marked_records(
    state: Map<Text, InstalledSkillView>,
    keys: Seq<Text>,
    rs: Seq<ResolvedView>,
    statuses: Seq<ProjectionStatus>,
    unavailable: Set<Text>,
    global: bool,
    n: int,
)
    ensures
        marked(recorded_part(state, keys, rs, statuses, unavailable, global, n)),
    decreases n,
{
    if n > 0 {
        lemma_codes();
        lemma_project_codes();
        lemma_code_lengths();
        lemma_marked_records(state, keys, rs, statuses, unavailable, global, n - 1);
        let key = keys[n - 1];
        let desired = desired_at(rs, key);
        let front = recorded_part(state, keys, rs, statuses, unavailable, global, n - 1);
        let a = record_issue(key, state[key], desired, statuses[n - 1], global);
        let b: Seq<IssueView> = if !global && desired is Some {
            local_issue(key, statuses[n - 1])
        } else {
            Seq::empty()
        };
        assert(marked(a));
        assert(marked(b));
        lemma_marked_concat(front, a);
        lemma_marked_concat(front + a, b);
    }
}

proof fn lemma_marked_missing(state: Map<Text, InstalledSkillView>, rs: Seq<ResolvedView>, n: int)
    ensures
        marked(missing_part(state, rs, n)),
    decreases n,
{
    if n > 0 {
        lemma_marked_missing(state, rs, n - 1);
    }
}

proof fn lemma_marked_names(f: Findings, names: Seq<Text>, owned: Set<Text>, n: int)
    ensures
        marked(name_part(f, names, owned, n)),
    decreases n,
{
    if n > 0 {
        lemma_marked_names(f, names, owned, n - 1);
        let name = names[n - 1];
        let order = walk(f.agents@.dom());
        let paths = views(f.projections@[n - 1]@);
        let front = name_part(f, names, owned, n - 1);
        let a = path_issues(paths, owned.contains(name), paths.len() as int);
        let b = agent_issues(f.agents@, order, name, owned.contains(name), order.len() as int);
        lemma_marked_paths(paths, owned.contains(name), paths.len() as int);
        lemma_marked_agents(f, order, name, owned.contains(name), order.len() as int);
        lemma_marked_concat(front, a);
        lemma_marked_concat(front + a, b);
    }
}

proof fn lemma_marked_paths(paths: Seq<Text>, is_owned: bool, n: int)
    ensures
        marked(path_issues(paths, is_owned, n)),
    decreases n,
{
    if n > 0 && !is_owned {
        lemma_codes();
        lemma_marked_paths(paths, is_owned, n - 1);
    }
}

proof fn lemma_marked_agents(f: Findings, order: Seq<Text>, name: Text, is_owned: bool, n: int)
    ensures
        marked(agent_issues(f.agents@, order, name, is_owned, n)),
    decreases n,
{
    if n > 0 {
        lemma_codes();
        lemma_marked_agents(f, order, name, is_owned, n - 1);
        let one = agent_issue(order[n - 1], f.agents@[order[n - 1]], name, is_owned);
        assert(marked(one));
        lemma_marked_concat(agent_issues(f.agents@, order, name, is_owned, n - 1), one);
    }
}

proof fn lemma_marked_once(issues: Seq<IssueView>, n: int)
    requires
        marked(issues),
        0 <= n <= issues.len(),
    ensures
        marked(deduplicated(issues, n)),
    decreases n,
{
    if n > 0 {
        lemma_marked_once(issues, n - 1);
    }
}

/// An issue of a diagnosis can be repaired exactly where its code is one of those that can: a rename
/// that is due, an old state, a directory left behind, an interrupted transaction, a record that is
/// obsolete, missing, drifted or outdated, a missing baseline or projection. No other issue can.
pub proof fn law_only_own_state_is_repairable(
    f: Findings,
    renames: Result<Seq<Text>, Text>,
    state: InstalledState,
    resolved: Resolution,
    journal: Option<TransactionJournal>,
    fingerprint: Text,
    unavailable: Set<Text>,
    global: bool,
    i: int,
)
    requires
        0 <= i < diagnosis(
            f,
            renames,
            state,
            resolved,
            journal,
            fingerprint,
            unavailable,
            global,
        ).len(),
    ensures
        ({
            let issue = diagnosis(
                f,
                renames,
                state,
                resolved,
                journal,
                fingerprint,
                unavailable,
                global,
            )[i];
            issue.fixable <==> is_repairable(issue.code)
        }),
{
    lemma_codes();
    lemma_code_lengths();
    lemma_project_codes();
    let skills = state@.skills;
    let claim = match claimed(journal, resolved, global, fingerprint, skills) {
        Some(names) => names,
        None => Set::empty(),
    };
    let p1 = rename_part(renames);
    let p2 = state_part(f, state.version);
    let p3 = journal_part(f);
    let p4 = residue_part(f);
    let p5 = desired_part(resolved);
    let p6 = transaction_part(journal, resolved, global, fingerprint, skills);
    let p7 = match resolved {
        Ok(rs) => resolved_part(f, skills, rs, unavailable, global, claim),
        Err(_) => Seq::empty(),
    };
    assert(marked(p1));
    assert(marked(p2));
    assert(marked(p3));
    assert(marked(p4));
    assert(marked(p5));
    assert(marked(p6));
    if let Ok(rs) = resolved {
        let keys = walk(skills.dom());
        let names = walk(resolved_names(rs));
        let a = recorded_part(
            skills,
            keys,
            rs,
            f.statuses@,
            unavailable,
            global,
            keys.len() as int,
        );
        let b = missing_part(skills, rs, rs.len() as int);
        let c = name_part(f, names, owned_names(skills, claim), names.len() as int);
        lemma_marked_records(
            skills,
            keys,
            rs,
            f.statuses@,
            unavailable,
            global,
            keys.len() as int,
        );
        lemma_marked_missing(skills, rs, rs.len() as int);
        lemma_marked_names(f, names, owned_names(skills, claim), names.len() as int);
        lemma_marked_concat(a, b);
        lemma_marked_concat(a + b, c);
    }
    assert(marked(p7));
    lemma_marked_concat(p1, p2);
    lemma_marked_concat(p1 + p2, p3);
    lemma_marked_concat(p1 + p2 + p3, p4);
    lemma_marked_concat(p1 + p2 + p3 + p4, p5);
    lemma_marked_concat(p1 + p2 + p3 + p4 + p5, p6);
    lemma_marked_concat(p1 + p2 + p3 + p4 + p5 + p6, p7);
    let all = all_issues(f, renames, state, resolved, journal, fingerprint, unavailable, global);
    lemma_marked_once(all, all.len() as int);
}

} // verus!
