//! The error of every operation that can fail: one sentence for the user.

use vstd::prelude::*;
use crate::text::Text;

verus! {

/// Why an operation was refused.
#[derive(Debug, PartialEq, Eq)]
pub struct Failure {
    pub message: String,
}

impl View for Failure {
    type V = Text;

    open spec fn view(&self) -> Text {
        self.message@
    }
}

impl Failure {
    pub fn new(message: String) -> (r: Failure)
        ensures
            r@ == message@,
    {
        Failure { message }
    }

    /// The sentence.
    pub fn message(&self) -> (r: String)
        ensures
            r@ == self@,
    {
        self.message.clone()
    }
}

/// A check that passed, or the refusal `e` that it gave.
pub open spec fn refusal(r: Result<(), Failure>) -> Option<Text> {
    match r {
        Ok(_) => None,
        Err(e) => Some(e@),
    }
}

/// The refusal of the first number below `n` that `f` refuses.
pub open spec fn first_refusal(n: int, f: spec_fn(int) -> Option<Text>) -> Option<Text>
    decreases n,
{
    if n <= 0 {
        None
    } else {
        match first_refusal(n - 1, f) {
            Some(e) => Some(e),
            None => f(n - 1),
        }
    }
}

pub proof fn lemma_first_refusal_none(n: int, f: spec_fn(int) -> Option<Text>)
    requires
        forall|i: int| 0 <= i < n ==> (#[trigger] f(i)) is None,
    ensures
        first_refusal(n, f) is None,
    decreases n,
{
    if n > 0 {
        lemma_first_refusal_none(n - 1, f);
    }
}

pub proof fn lemma_first_refusal_some(n: int, f: spec_fn(int) -> Option<Text>, i: int)
    requires
        0 <= i < n,
        f(i) is Some,
        forall|j: int| 0 <= j < i ==> (#[trigger] f(j)) is None,
    ensures
        first_refusal(n, f) == f(i),
    decreases n,
{
    if n - 1 == i {
        lemma_first_refusal_none(n - 1, f);
    } else {
        lemma_first_refusal_some(n - 1, f, i);
    }
}

pub proof fn lemma_first_refusal(n: int, f: spec_fn(int) -> Option<Text>)
    ensures
        first_refusal(n, f) is None <==> forall|i: int| 0 <= i < n ==> (#[trigger] f(i)) is None,
    decreases n,
{
    if n > 0 {
        lemma_first_refusal(n - 1, f);
        if first_refusal(n, f) is None {
            assert forall|i: int| 0 <= i < n implies (#[trigger] f(i)) is None by {
                if i < n - 1 {
                    assert(first_refusal(n - 1, f) is None);
                }
            }
        } else if f(n - 1) is None {
            assert(first_refusal(n - 1, f) is Some);
        }
    }
}

/// The first of the numbers below `n` for which `p` holds.
pub open spec fn first_where(n: int, p: spec_fn(int) -> bool) -> Option<int>
    decreases n,
{
    if n <= 0 {
        None
    } else {
        match first_where(n - 1, p) {
            Some(i) => Some(i),
            None => if p(n - 1) {
                Some(n - 1)
            } else {
                None
            },
        }
    }
}

pub proof fn lemma_first_where_none(n: int, p: spec_fn(int) -> bool)
    requires
        forall|i: int| 0 <= i < n ==> !#[trigger] p(i),
    ensures
        first_where(n, p) is None,
    decreases n,
{
    if n > 0 {
        lemma_first_where_none(n - 1, p);
    }
}

pub proof fn lemma_first_where_some(n: int, p: spec_fn(int) -> bool, i: int)
    requires
        0 <= i < n,
        p(i),
        forall|j: int| 0 <= j < i ==> !#[trigger] p(j),
    ensures
        first_where(n, p) == Some(i),
    decreases n,
{
    if n - 1 == i {
        lemma_first_where_none(n - 1, p);
    } else {
        lemma_first_where_some(n - 1, p, i);
    }
}

pub proof fn lemma_first_where(n: int, p: spec_fn(int) -> bool)
    ensures
        match first_where(n, p) {
            Some(i) => 0 <= i < n && p(i) && forall|j: int| 0 <= j < i ==> !#[trigger] p(j),
            None => forall|j: int| 0 <= j < n ==> !#[trigger] p(j),
        },
    decreases n,
{
    if n > 0 {
        lemma_first_where(n - 1, p);
    }
}

} // verus!
