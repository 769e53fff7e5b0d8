//! The text of a projected skill: its identity, who may invoke it, and the Codex sidecar.

use vstd::prelude::*;
use vstd::utf8::encode_utf8;
use crate::columns::{blanks, spaces};
use crate::failure::{first_where, Failure};
use crate::frontmatter::{declares, is_indented};
use crate::model::EffectiveMode;
use crate::outside::{json_string, json_text};
use crate::text::{
    begins, cat2, cat3, cat4, chars_of, contains, contains_text, empty, ends, ends_with, join,
    joined, lines, lines_of, same, space, split_once, starts_with, trim_start, trimmed,
    trimmed_start, views, Text,
};

verus! {

// Positions in a list of lines.

pub open spec fn count_where(n: int, p: spec_fn(int) -> bool) -> nat
    decreases n,
{
    if n <= 0 {
        0
    } else {
        count_where(n - 1, p) + if p(n - 1) {
            1nat
        } else {
            0nat
        }
    }
}

proof fn lemma_count_more(n: int, k: int, p: spec_fn(int) -> bool)
    requires
        k <= n,
    ensures
        count_where(k, p) <= count_where(n, p),
    decreases n,
{
    if n > k && n > 0 {
        lemma_count_more(n - 1, k, p);
    }
}

/// Where a count is one, nothing else satisfies the predicate.
pub proof fn lemma_count_one(n: int, p: spec_fn(int) -> bool, i: int, j: int)
    requires
        count_where(n, p) <= 1,
        0 <= i < j < n,
        p(i),
    ensures
        !p(j),
    decreases n,
{
    if j == n - 1 {
        lemma_count_more(n - 1, i + 1, p);
        assert(count_where(i + 1, p) >= 1);
    } else {
        lemma_count_more(n, n - 1, p);
        lemma_count_one(n - 1, p, i, j);
    }
}

// Frontmatter fields.

/// The first line at or behind `i` that closes the frontmatter.
pub open spec fn closing_line(ls: Seq<Text>, i: int) -> Option<int>
    decreases ls.len() - i,
{
    if i < 0 || i >= ls.len() {
        None
    } else if ls[i] == "---"@ {
        Some(i)
    } else {
        closing_line(ls, i + 1)
    }
}

pub open spec fn declaring(ls: Seq<Text>, key: Text) -> spec_fn(int) -> bool {
    |i: int| declares(ls[i], key, false)
}

/// Where the block of a field ends that goes on at line `i`.
pub open spec fn block_end(ls: Seq<Text>, i: int, closing: int) -> int
    decreases closing - i,
{
    if 0 <= i < closing && (ls[i].len() == 0 || is_indented(ls[i])) {
        block_end(ls, i + 1, closing)
    } else {
        i
    }
}

/// The line of a field, if it has a value.
pub open spec fn field_line(key: Text, value: Option<Text>) -> Seq<Text> {
    match value {
        Some(v) => seq![key + ": "@ + v],
        None => Seq::empty(),
    }
}

/// The lines with a field set or taken out: an existing field is replaced with its whole
/// block, a new one goes before the closing line.
pub open spec fn set_lines(ls: Seq<Text>, closing: int, key: Text, value: Option<Text>) -> Seq<Text> {
    match first_where(closing, declaring(ls, key)) {
        Some(m) => ls.take(m) + field_line(key, value) + ls.skip(block_end(ls, m + 1, closing)),
        None => ls.take(closing) + field_line(key, value) + ls.skip(closing),
    }
}

/// The text with a field set or taken out, or why it is refused.
pub open spec fn set_field(raw: Text, key: Text, value: Option<Text>) -> Result<Text, Text> {
    let ls = lines(raw);
    if ls.len() == 0 || ls[0] != "---"@ {
        Err("SKILL.md is missing YAML frontmatter"@)
    } else {
        match closing_line(ls, 1) {
            None => Err("SKILL.md frontmatter is not closed"@),
            Some(closing) => if count_where(closing, declaring(ls, key)) > 1 {
                Err("SKILL.md contains duplicate "@ + key + " fields"@)
            } else {
                Ok(join(set_lines(ls, closing, key, value), "\n"@) + "\n"@)
            },
        }
    }
}

fn declares_field(line: &str, key: &str) -> (r: bool)
    ensures
        r == declares(line@, key@, false),
{
    match split_once(line, ':') {
        Some((candidate, _)) => {
            let lead = chars_of(candidate.as_str());
            let indented = lead.len() > 0 && space(lead[0]);
            let bare = trimmed(candidate.as_str());
            same(bare.as_str(), key) && !indented
        },
        None => false,
    }
}

fn copy_range(out: &mut Vec<String>, ls: &Vec<String>, from: usize, to: usize)
    requires
        from <= to <= ls@.len(),
    ensures
        views(final(out)@) == views(old(out)@) + views(ls@).subrange(from as int, to as int),
{
    let ghost head = views(out@);
    let ghost all = views(ls@);
    let mut i: usize = from;
    assert(head + all.subrange(from as int, from as int) =~= head);
    while i < to
        invariant
            from <= i <= to <= ls@.len(),
            all == views(ls@),
            views(out@) == head + all.subrange(from as int, i as int),
        decreases to - i,
    {
        let ghost earlier = out@;
        out.push(ls[i].clone());
        i = i + 1;
        proof {
            assert(views(out@) =~= views(earlier).push(all[i - 1]));
            assert(views(out@) =~= head + all.subrange(from as int, i as int));
        }
    }
}

/// Sets a frontmatter field, or takes it out.
pub fn set_frontmatter_field(raw: &str, key: &str, value: Option<&str>) -> (r: Result<String, Failure>)
    ensures
        ({
            let v = match value {
                Some(t) => Some(t@),
                None => None,
            };
            match r {
                Ok(text) => set_field(raw@, key@, v) == Ok::<Text, Text>(text@),
                Err(f) => set_field(raw@, key@, v) == Err::<Text, Text>(f@),
            }
        }),
{
    let ghost v = match value {
        Some(t) => Some(t@),
        None => None,
    };
    let ls = lines_of(raw);
    let ghost all = views(ls@);
    if ls.len() == 0 || !same(ls[0].as_str(), "---") {
        proof {
            if ls@.len() > 0 {
                assert(all[0] == ls@[0]@);
            }
        }
        return Err(Failure::new(String::from_str("SKILL.md is missing YAML frontmatter")));
    }
    assert(all[0] == ls@[0]@);
    let mut closing: usize = 1;
    while closing < ls.len() && !same(ls[closing].as_str(), "---")
        invariant
            1 <= closing <= ls@.len(),
            all == views(ls@),
            closing_line(all, 1) == closing_line(all, closing as int),
        decreases ls@.len() - closing,
    {
        assert(all[closing as int] == ls@[closing as int]@);
        closing = closing + 1;
    }
    if closing >= ls.len() {
        return Err(Failure::new(String::from_str("SKILL.md frontmatter is not closed")));
    }
    assert(all[closing as int] == ls@[closing as int]@);
    assert(closing_line(all, 1) == Some(closing as int));
    let ghost p = declaring(all, key@);
    let mut found: Option<usize> = None;
    let mut count: usize = 0;
    let mut i: usize = 0;
    while i < closing
        invariant
            i <= closing < ls@.len(),
            all == views(ls@),
            p == declaring(all, key@),
            count <= i,
            count == count_where(i as int, p),
            match found {
                Some(m) => first_where(i as int, p) == Some(m as int) && m < i,
                None => first_where(i as int, p) is None,
            },
        decreases closing - i,
    {
        assert(all[i as int] == ls@[i as int]@);
        if declares_field(ls[i].as_str(), key) {
            count = count + 1;
            if found.is_none() {
                found = Some(i);
            }
        }
        i = i + 1;
    }
    if count > 1 {
        return Err(Failure::new(cat3("SKILL.md contains duplicate ", key, " fields")));
    }
    let mut output: Vec<String> = Vec::new();
    assert(views(output@) =~= Seq::<Text>::empty());
    let head: usize = match found {
        Some(m) => m,
        None => closing,
    };
    let mut tail: usize = closing;
    match found {
        Some(m) => {
            tail = m + 1;
            while tail < closing && blank_or_indented(ls[tail].as_str())
                invariant
                    m < tail <= closing < ls@.len(),
                    all == views(ls@),
                    block_end(all, m + 1, closing as int) == block_end(
                        all,
                        tail as int,
                        closing as int,
                    ),
                decreases closing - tail,
            {
                assert(all[tail as int] == ls@[tail as int]@);
                tail = tail + 1;
            }
            proof {
                if tail < closing {
                    assert(all[tail as int] == ls@[tail as int]@);
                }
            }
        },
        None => {},
    }
    copy_range(&mut output, &ls, 0, head);
    assert(views(output@) =~= all.take(head as int));
    match value {
        Some(text) => {
            let ghost earlier = output@;
            let line = cat3(key, ": ", text);
            output.push(line);
            assert(views(output@) =~= views(earlier) + field_line(key@, v));
        },
        None => {
            assert(views(output@) =~= views(output@) + field_line(key@, v));
        },
    }
    let ghost middle = views(output@);
    copy_range(&mut output, &ls, tail, ls.len());
    proof {
        assert(all.subrange(tail as int, all.len() as int) =~= all.skip(tail as int));
        assert(views(output@) =~= set_lines(all, closing as int, key@, v));
    }
    Ok(cat2(joined(&output, "\n").as_str(), "\n"))
}

fn blank_or_indented(line: &str) -> (r: bool)
    ensures
        r == (line@.len() == 0 || is_indented(line@)),
{
    let v = chars_of(line);
    v.len() == 0 || space(v[0])
}

// Invocation modes.

pub open spec fn model_field(mode: EffectiveMode) -> Option<Text> {
    match mode {
        EffectiveMode::Manual => Some("true"@),
        _ => None,
    }
}

pub open spec fn user_field(mode: EffectiveMode) -> Option<Text> {
    match mode {
        EffectiveMode::Dependency => Some("false"@),
        _ => None,
    }
}

/// The text of a skill in a mode: manual skills are hidden from models, dependencies from
/// users.
pub open spec fn mode_text(raw: Text, mode: EffectiveMode) -> Result<Text, Text> {
    match set_field(raw, "disable-model-invocation"@, model_field(mode)) {
        Err(e) => Err(e),
        Ok(text) => set_field(text, "user-invocable"@, user_field(mode)),
    }
}

pub fn apply_invocation_mode(raw: &str, mode: EffectiveMode) -> (r: Result<String, Failure>)
    ensures
        match r {
            Ok(text) => mode_text(raw@, mode) == Ok::<Text, Text>(text@),
            Err(f) => mode_text(raw@, mode) == Err::<Text, Text>(f@),
        },
{
    let disable_model = match mode {
        EffectiveMode::Manual => Some("true"),
        _ => None,
    };
    let user_invocable = match mode {
        EffectiveMode::Dependency => Some("false"),
        _ => None,
    };
    match set_frontmatter_field(raw, "disable-model-invocation", disable_model) {
        Err(f) => Err(f),
        Ok(text) => set_frontmatter_field(text.as_str(), "user-invocable", user_invocable),
    }
}

/// Whether Codex may invoke a skill of a mode by itself.
pub fn allows_implicit_invocation(mode: EffectiveMode) -> (r: bool)
    ensures
        r == (mode != EffectiveMode::Manual),
{
    mode != EffectiveMode::Manual
}

// Identity.

pub open spec fn scoped_description(scope: Option<Text>, description: Text) -> Text {
    match scope {
        Some(s) => "["@ + s + "] "@ + description,
        None => description,
    }
}

pub open spec fn policy_mark() -> Text {
    "<!-- skiller:projection-policy -->"@
}

pub open spec fn policy_text() -> Text {
    "<!-- skiller:projection-policy -->\nTreat this installed skill directory as read-only. Write only to explicit project, state, cache, or catalog authoring paths defined by this skill.\n"@
}

/// The text with the policy at its end, unless it has it.
pub open spec fn with_policy(text: Text) -> Text {
    if contains_text(text, policy_mark()) {
        text
    } else if ends_with(text, "\n\n"@) {
        text + policy_text()
    } else {
        text.push('\n') + policy_text()
    }
}

/// The text of a skill under its installed name, with its scope in the description.
pub open spec fn identity_text(raw: Text, installed_name: Text, scope: Option<Text>, description: Text) -> Result<Text, Text> {
    match set_field(raw, "name"@, Some(installed_name)) {
        Err(e) => Err(e),
        Ok(named) => match set_field(
            named,
            "description"@,
            Some(json_text(scoped_description(scope, description))),
        ) {
            Err(e) => Err(e),
            Ok(text) => Ok(with_policy(text)),
        },
    }
}

pub fn apply_projected_identity(
    raw: &str,
    installed_name: &str,
    scope: Option<&str>,
    description: &str,
) -> (r: Result<String, Failure>)
    ensures
        ({
            let s = match scope {
                Some(t) => Some(t@),
                None => None,
            };
            match r {
                Ok(text) => identity_text(raw@, installed_name@, s, description@) == Ok::<
                    Text,
                    Text,
                >(text@),
                Err(f) => identity_text(raw@, installed_name@, s, description@) == Err::<
                    Text,
                    Text,
                >(f@),
            }
        }),
{
    let full = match scope {
        Some(s) => cat4("[", s, "] ", description),
        None => description.to_owned(),
    };
    let named = match set_frontmatter_field(raw, "name", Some(installed_name)) {
        Ok(named) => named,
        Err(f) => return Err(f),
    };
    let quoted = match json_string(full.as_str()) {
        Ok(quoted) => quoted,
        Err(_) => String::new(),
    };
    let mut updated = match set_frontmatter_field(
        named.as_str(),
        "description",
        Some(quoted.as_str()),
    ) {
        Ok(updated) => updated,
        Err(f) => return Err(f),
    };
    if !contains(updated.as_str(), "<!-- skiller:projection-policy -->") {
        if !ends(updated.as_str(), "\n\n") {
            updated.push('\n');
        }
        updated.append(
            "<!-- skiller:projection-policy -->\nTreat this installed skill directory as read-only. Write only to explicit project, state, cache, or catalog authoring paths defined by this skill.\n",
        );
    }
    Ok(updated)
}

// The Codex sidecar.

pub open spec fn allow_key() -> Text {
    "allow_implicit_invocation:"@
}

pub open spec fn allow_lines(ls: Seq<Text>) -> spec_fn(int) -> bool {
    |i: int| starts_with(trim_start(ls[i]), allow_key())
}

pub open spec fn policy_lines(ls: Seq<Text>) -> spec_fn(int) -> bool {
    |i: int| ls[i] == "policy:"@
}

/// How many bytes of white space a line begins with.
pub open spec fn indent_of(line: Text) -> int {
    encode_utf8(line).len() - encode_utf8(trim_start(line)).len()
}

pub open spec fn allow_line(indent: nat, allow: bool) -> Text {
    blanks(indent) + "allow_implicit_invocation: "@ + if allow {
        "true"@
    } else {
        "false"@
    }
}

pub open spec fn denied() -> Text {
    "  allow_implicit_invocation: false"@
}

/// The lines of a sidecar with the policy set, or why it is refused.
pub open spec fn codex_lines(ls: Seq<Text>, allow: bool) -> Result<Seq<Text>, Text> {
    let n = ls.len() as int;
    if count_where(n, allow_lines(ls)) > 1 {
        Err("Codex sidecar contains duplicate allow_implicit_invocation fields"@)
    } else {
        match first_where(n, allow_lines(ls)) {
            Some(i) => Ok(ls.update(i, allow_line(indent_of(ls[i]) as nat, allow))),
            None => if allow {
                Ok(ls)
            } else if count_where(n, policy_lines(ls)) > 1 {
                Err("Codex sidecar contains duplicate policy mappings"@)
            } else {
                match first_where(n, policy_lines(ls)) {
                    Some(i) => Ok(ls.insert(i + 1, denied())),
                    None => Ok(
                        (if n > 0 && ls.last().len() > 0 {
                            ls.push(Seq::empty())
                        } else {
                            ls
                        }).push("policy:"@).push(denied()),
                    ),
                }
            },
        }
    }
}

/// What is written to the sidecar, if anything, or why it is refused. Without a sidecar only
/// a denial is written.
pub open spec fn codex_text(raw: Option<Text>, allow: bool) -> Result<Option<Text>, Text> {
    match raw {
        None => if allow {
            Ok(None)
        } else {
            Ok(Some("policy:\n  allow_implicit_invocation: false\n"@))
        },
        Some(text) => match codex_lines(lines(text), allow) {
            Err(e) => Err(e),
            Ok(ls) => Ok(Some(join(ls, "\n"@) + "\n"@)),
        },
    }
}

proof fn lemma_trim_start_shorter(s: Text)
    ensures
        encode_utf8(trim_start(s)).len() <= encode_utf8(s).len(),
    decreases s.len(),
{
    if s.len() > 0 && crate::text::is_space(s[0]) {
        lemma_trim_start_shorter(s.skip(1));
        assert(s.drop_first() =~= s.skip(1));
    }
}

fn indent_bytes(line: &str) -> (r: usize)
    ensures
        r == indent_of(line@),
        indent_of(line@) >= 0,
{
    let bare = trimmed_start(line);
    proof {
        lemma_trim_start_shorter(line@);
    }
    line.as_bytes().len() - bare.as_str().as_bytes().len()
}

/// Sets whether Codex may invoke a skill by itself.
pub fn set_codex_policy(raw: Option<&str>, allow: bool) -> (r: Result<Option<String>, Failure>)
    ensures
        ({
            let t = match raw {
                Some(s) => Some(s@),
                None => None,
            };
            match r {
                Ok(text) => codex_text(t, allow) == Ok::<Option<Text>, Text>(
                    crate::text::opt_view(text),
                ),
                Err(f) => codex_text(t, allow) == Err::<Option<Text>, Text>(f@),
            }
        }),
{
    let raw = match raw {
        Some(raw) => raw,
        None => {
            if allow {
                return Ok(None);
            }
            return Ok(
                Some(String::from_str("policy:\n  allow_implicit_invocation: false\n")),
            );
        },
    };
    let mut ls = lines_of(raw);
    let ghost all = views(ls@);
    let ghost p = allow_lines(all);
    let ghost q = policy_lines(all);
    let mut allowed: Option<usize> = None;
    let mut allow_count: usize = 0;
    let mut policy: Option<usize> = None;
    let mut policy_count: usize = 0;
    let mut i: usize = 0;
    while i < ls.len()
        invariant
            i <= ls@.len(),
            all == views(ls@),
            p == allow_lines(all),
            q == policy_lines(all),
            allow_count <= i,
            policy_count <= i,
            allow_count == count_where(i as int, p),
            policy_count == count_where(i as int, q),
            match allowed {
                Some(m) => first_where(i as int, p) == Some(m as int) && m < i,
                None => first_where(i as int, p) is None,
            },
            match policy {
                Some(m) => first_where(i as int, q) == Some(m as int) && m < i,
                None => first_where(i as int, q) is None,
            },
        decreases ls@.len() - i,
    {
        assert(all[i as int] == ls@[i as int]@);
        let bare = trimmed_start(ls[i].as_str());
        if begins(bare.as_str(), "allow_implicit_invocation:") {
            allow_count = allow_count + 1;
            if allowed.is_none() {
                allowed = Some(i);
            }
        }
        if same(ls[i].as_str(), "policy:") {
            policy_count = policy_count + 1;
            if policy.is_none() {
                policy = Some(i);
            }
        }
        i = i + 1;
    }
    let ghost n = all.len() as int;
    assert(all.len() == ls@.len());
    if allow_count > 1 {
        return Err(
            Failure::new(
                String::from_str(
                    "Codex sidecar contains duplicate allow_implicit_invocation fields",
                ),
            ),
        );
    }
    match allowed {
        Some(at) => {
            assert(all[at as int] == ls@[at as int]@);
            let indent: usize = indent_bytes(ls[at].as_str());
            let line = cat3(
                spaces(indent).as_str(),
                "allow_implicit_invocation: ",
                if allow { "true" } else { "false" },
            );
            let ghost earlier = ls@;
            let _ = ls.remove(at);
            ls.insert(at, line);
            assert(views(ls@) =~= all.update(at as int, line@));
        },
        None => {
            if !allow {
                if policy_count > 1 {
                    return Err(
                        Failure::new(
                            String::from_str("Codex sidecar contains duplicate policy mappings"),
                        ),
                    );
                }
                match policy {
                    Some(at) => {
                        ls.insert(at + 1, String::from_str("  allow_implicit_invocation: false"));
                        assert(views(ls@) =~= all.insert(at + 1, denied()));
                    },
                    None => {
                        if ls.len() > 0 && !empty(ls[ls.len() - 1].as_str()) {
                            assert(all.last() == ls@[ls@.len() - 1]@);
                            ls.push(String::new());
                            assert(views(ls@) =~= all.push(Seq::<char>::empty()));
                        } else if ls.len() > 0 {
                            assert(all.last() == ls@[ls@.len() - 1]@);
                        }
                        let ghost base = views(ls@);
                        ls.push(String::from_str("policy:"));
                        ls.push(String::from_str("  allow_implicit_invocation: false"));
                        assert(views(ls@) =~= base.push("policy:"@).push(denied()));
                    },
                }
            }
        },
    }
    Ok(Some(cat2(joined(&ls, "\n").as_str(), "\n")))
}

} // verus!
