//! What a projected skill says of itself, and who may invoke it.

use vstd::prelude::*;
use crate::failure::{first_where, lemma_first_where};
use crate::manual::{
    allow_lines, codex_lines, codex_text, identity_text, indent_of, mode_text, model_field,
    policy_lines, policy_mark, policy_text, set_field, user_field, with_policy,
};
use crate::columns::blanks;
use crate::model::EffectiveMode;
use crate::outside::json_text;
use crate::text::{contains_text, ends_with, starts_with, trim_start, Text};

verus! {

/// A manual skill, and no other, is hidden from models; a dependency, and no other, from users. What a
/// mode does not ask for is taken out.
pub proof fn law_modes_are_written(raw: Text, mode: EffectiveMode)
    ensures
        model_field(mode) is Some <==> mode is Manual,
        mode is Manual ==> model_field(mode) == Some("true"@),
        user_field(mode) is Some <==> mode is Dependency,
        mode is Dependency ==> user_field(mode) == Some("false"@),
        ({
            let first = set_field(
                raw,
                "disable-model-invocation"@,
                if mode is Manual {
                    Some("true"@)
                } else {
                    None
                },
            );
            &&& first is Err ==> mode_text(raw, mode) is Err
            &&& first is Ok ==> mode_text(raw, mode) == set_field(
                first->Ok_0,
                "user-invocable"@,
                if mode is Dependency {
                    Some("false"@)
                } else {
                    None
                },
            )
        }),
{
}

/// A projected skill has its installed name, and its description with the scope in brackets before it.
pub proof fn law_identity_is_written(raw: Text, installed_name: Text, scope: Option<Text>, description: Text)
    ensures
        ({
            let named = set_field(raw, "name"@, Some(installed_name));
            let said = match scope {
                Some(s) => "["@ + s + "] "@ + description,
                None => description,
            };
            let told = set_field(named->Ok_0, "description"@, Some(json_text(said)));
            let r = identity_text(raw, installed_name, scope, description);
            &&& r is Ok <==> named is Ok && told is Ok
            &&& r is Ok ==> r->Ok_0 == with_policy(told->Ok_0)
        }),
{
}

/// The policy is put behind the text, which stays as it is, unless the text has it; after that it has
/// it, and is not given it again.
pub proof fn law_policy_is_added_once(text: Text)
    ensures
        starts_with(with_policy(text), text),
        contains_text(with_policy(text), "<!-- skiller:projection-policy -->"@),
        with_policy(with_policy(text)) == with_policy(text),
        contains_text(text, "<!-- skiller:projection-policy -->"@) ==> with_policy(text) == text,
{
    let mark = policy_mark();
    let policy = policy_text();
    lemma_policy_has_mark();
    let out = with_policy(text);
    assert(text.take(text.len() as int) =~= text);
    if !contains_text(text, mark) {
        let base = if ends_with(text, "\n\n"@) {
            text
        } else {
            text.push('\n')
        };
        assert(out == base + policy);
        assert(out.take(text.len() as int) =~= text);
        let at = base.len() as int;
        assert(out.subrange(at, at + mark.len()) =~= policy.take(mark.len() as int));
        assert(out.subrange(at, at + mark.len()) == mark);
        assert(contains_text(out, mark));
    }
}

proof fn lemma_policy_has_mark()
    ensures
        policy_mark().len() <= policy_text().len(),
        policy_text().take(policy_mark().len() as int) == policy_mark(),
{
    reveal_strlit("<!-- skiller:projection-policy -->");
    reveal_strlit(
        "<!-- skiller:projection-policy -->\nTreat this installed skill directory as read-only. Write only to explicit project, state, cache, or catalog authoring paths defined by this skill.\n",
    );
    assert(policy_text().take(policy_mark().len() as int) =~= policy_mark());
}

/// A line of a sidecar that sets who may invoke the skill.
pub open spec fn sets_invocation(line: Text) -> bool {
    starts_with(trim_start(line), "allow_implicit_invocation:"@)
}

/// A sidecar keeps all its lines, but for the one that sets who may invoke the skill: that one is
/// replaced where it stands, with what is asked for. Without such a line nothing changes where
/// invocation is allowed; where it is denied, the denial is put into the policy, or with a policy at
/// the end.
pub proof fn law_sidecar_says_who_may_invoke(ls: Seq<Text>, allow: bool)
    requires
        codex_lines(ls, allow) is Ok,
    ensures
        ({
            let out = codex_lines(ls, allow)->Ok_0;
            let set = exists|i: int| 0 <= i < ls.len() && sets_invocation(#[trigger] ls[i]);
            &&& set ==> exists|i: int|
                {
                    &&& 0 <= i < ls.len()
                    &&& sets_invocation(#[trigger] ls[i])
                    &&& forall|j: int| 0 <= j < i ==> !sets_invocation(#[trigger] ls[j])
                    &&& out.len() == ls.len()
                    &&& forall|j: int| 0 <= j < ls.len() && j != i ==> #[trigger] out[j] == ls[j]
                    &&& out[i] == blanks(indent_of(ls[i]) as nat) + "allow_implicit_invocation: "@ + (
                    if allow {
                        "true"@
                    } else {
                        "false"@
                    })
                }
            &&& !set && allow ==> out == ls
            &&& !set && !allow ==> {
                let policy = exists|i: int| 0 <= i < ls.len() && #[trigger] ls[i] == "policy:"@;
                &&& policy ==> exists|i: int|
                    {
                        &&& 0 <= i < ls.len()
                        &&& #[trigger] ls[i] == "policy:"@
                        &&& out == ls.take(i + 1) + seq!["  allow_implicit_invocation: false"@]
                            + ls.skip(i + 1)
                    }
                &&& !policy ==> {
                    &&& out.len() >= ls.len() + 2
                    &&& out.take(ls.len() as int) == ls
                    &&& out[out.len() - 2] == "policy:"@
                    &&& out.last() == "  allow_implicit_invocation: false"@
                }
            }
        }),
{
    let n = ls.len() as int;
    let out = codex_lines(ls, allow)->Ok_0;
    let p = allow_lines(ls);
    let q = policy_lines(ls);
    lemma_first_where(n, p);
    lemma_first_where(n, q);
    match first_where(n, p) {
        Some(i) => {
            assert(p(i));
            assert(sets_invocation(ls[i]));
            assert forall|j: int| 0 <= j < i implies !sets_invocation(#[trigger] ls[j]) by {
                assert(!p(j));
            }
        },
        None => {
            assert forall|i: int| 0 <= i < n implies !sets_invocation(#[trigger] ls[i]) by {
                assert(!p(i));
            }
            if !allow {
                match first_where(n, q) {
                    Some(i) => {
                        assert(q(i));
                        assert(ls[i] == "policy:"@);
                        assert(out =~= ls.take(i + 1) + seq!["  allow_implicit_invocation: false"@]
                            + ls.skip(i + 1));
                    },
                    None => {
                        assert forall|i: int| 0 <= i < n implies #[trigger] ls[i] != "policy:"@ by {
                            assert(!q(i));
                        }
                        assert(out.take(n) =~= ls);
                    },
                }
            }
        },
    }
}

/// A skill without a sidecar is given one exactly where invocation is denied.
pub proof fn law_only_denials_need_a_sidecar(allow: bool)
    ensures
        codex_text(None, allow) == Ok::<Option<Text>, Text>(
            if allow {
                None
            } else {
                Some("policy:\n  allow_implicit_invocation: false\n"@)
            },
        ),
{
}

} // verus!
