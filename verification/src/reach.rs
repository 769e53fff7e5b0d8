//! Catalog sources that could not be reached: for a short while they are not tried again.

use vstd::prelude::*;
use crate::failure::Failure;
use crate::name_map::NameMap;
use crate::text::{cat5, decimal, decimal_of, Text};

verus! {

/// For how many seconds a source that could not be reached is left alone.
pub const REST_SECONDS: u64 = 60;

/// Whether a source whose last attempt failed at `failed` is left alone at `now`. A failure
/// that lies ahead of the clock does not count.
pub open spec fn rests(failed: Option<u64>, now: u64) -> bool {
    failed is Some && failed->Some_0 <= now && now - failed->Some_0 < REST_SECONDS
}

/// Whether a source is tried, after its last failure in seconds, if there was one.
pub fn tries_source(failed: Option<u64>, now: u64) -> (r: bool)
    ensures
        r == !rests(failed, now),
{
    match failed {
        Some(at) => !(at <= now && now - at < REST_SECONDS),
        None => true,
    }
}

/// The last failure of a source among those that are known.
pub open spec fn last_failure(failures: Map<Text, u64>, source: Text) -> Option<u64> {
    if failures.contains_key(source) {
        Some(failures[source])
    } else {
        None
    }
}

/// Why a source is not tried, where it is not.
pub open spec fn rest_refusal(failures: Map<Text, u64>, source: Text, now: u64) -> Option<Text> {
    let failed = last_failure(failures, source);
    if rests(failed, now) {
        Some(
            "catalog source "@ + source + " was unreachable; it is tried again in "@ + (decimal(
                (REST_SECONDS - (now - failed->Some_0)) as nat,
            ) + " s"@),
        )
    } else {
        None
    }
}

/// Refuses a source that could not be reached a moment ago.
pub fn check_source(failures: &NameMap<u64>, source: &str, now: u64) -> (r: Result<(), Failure>)
    ensures
        crate::failure::refusal(r) == rest_refusal(failures@, source@, now),
{
    let failed: Option<u64> = match failures.get(source) {
        Some(at) => Some(*at),
        None => None,
    };
    if tries_source(failed, now) {
        return Ok(());
    }
    match failed {
        Some(at) => {
            let left: u64 = REST_SECONDS - (now - at);
            let text = cat5(
                "catalog source ",
                source,
                " was unreachable; it is tried again in ",
                decimal_of(left).as_str(),
                " s",
            );
            assert(text@ =~= rest_refusal(failures@, source@, now)->Some_0);
            Err(Failure::new(text))
        },
        None => Ok(()),
    }
}

/// The failures after an attempt.
pub open spec fn after_attempt(failures: Map<Text, u64>, source: Text, now: u64, reached: bool) -> Map<
    Text,
    u64,
> {
    if reached {
        failures.remove(source)
    } else {
        failures.insert(source, now)
    }
}

/// Notes how an attempt to reach a source ended.
pub fn note_attempt(failures: &mut NameMap<u64>, source: &str, now: u64, reached: bool)
    ensures
        final(failures)@ == after_attempt(old(failures)@, source@, now, reached),
{
    if reached {
        let _ = failures.remove(source);
    } else {
        failures.insert(source.to_owned(), now);
    }
}

/// After a failed attempt a source rests, and only it, and only for a short while; after one
/// that reached it, it is tried at once.
pub proof fn law_unreachable_sources_rest_briefly(
    failures: Map<Text, u64>,
    source: Text,
    other: Text,
    now: u64,
    reached: bool,
    later: u64,
)
    requires
        now <= later,
        other != source,
    ensures
        ({
            let next = after_attempt(failures, source, now, reached);
            &&& (rest_refusal(next, source, later) is Some) == (!reached && later - now
                < REST_SECONDS)
            &&& rest_refusal(next, other, later) == rest_refusal(failures, other, later)
        }),
{
}

} // verus!
