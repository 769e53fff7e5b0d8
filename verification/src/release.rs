//! Releases of the program itself: whether a newer stable one was published.

use vstd::prelude::*;
use crate::text::{
    begins, cat4, chars_of, cut, is_digit, number, opt_view, parse_number, split, split_on,
    split_once, starts_with, string_of, views, Text,
};

verus! {

/// The number that a part of a release is.
pub open spec fn release_part(s: Text) -> Option<usize> {
    if s.len() > 0 && is_digit(s[0]) {
        parse_number(s)
    } else {
        None
    }
}

/// A stable release: three numbers with points between them.
pub open spec fn release_of(s: Text) -> Option<(usize, usize, usize)> {
    let parts = split_on(s, '.');
    if parts.len() == 3 && release_part(parts[0]) is Some && release_part(parts[1]) is Some
        && release_part(parts[2]) is Some {
        Some(
            (
                release_part(parts[0])->Some_0,
                release_part(parts[1])->Some_0,
                release_part(parts[2])->Some_0,
            ),
        )
    } else {
        None
    }
}

/// Whether a release comes after another.
pub open spec fn comes_after(a: (usize, usize, usize), b: (usize, usize, usize)) -> bool {
    a.0 > b.0 || (a.0 == b.0 && (a.1 > b.1 || (a.1 == b.1 && a.2 > b.2)))
}

fn read_part(s: &str) -> (r: Option<usize>)
    ensures
        r == release_part(s@),
{
    let v = chars_of(s);
    if v.len() > 0 && '0' <= v[0] && v[0] <= '9' {
        number(s)
    } else {
        None
    }
}

/// Reads a stable release.
pub fn read_release(s: &str) -> (r: Option<(usize, usize, usize)>)
    ensures
        r == release_of(s@),
{
    let parts = split(s, '.');
    let ghost all = split_on(s@, '.');
    assert(parts@.len() == all.len());
    if parts.len() != 3 {
        return None;
    }
    assert(views(parts@)[0] == all[0] && views(parts@)[1] == all[1] && views(parts@)[2] == all[2]);
    match (read_part(parts[0].as_str()), read_part(parts[1].as_str()), read_part(parts[2].as_str())) {
        (Some(a), Some(b), Some(c)) => Some((a, b, c)),
        _ => None,
    }
}

/// Whether the program should tell of a release that was found.
pub open spec fn is_newer(current: Text, found: Text) -> bool {
    release_of(current) is Some && release_of(found) is Some && comes_after(
        release_of(found)->Some_0,
        release_of(current)->Some_0,
    )
}

/// What is told of the release that was found, or of the failure to find one: only a newer
/// stable release is told, and nothing stops because of it.
pub fn release_line(current: &str, found: &Result<String, String>) -> (r: Option<String>)
    ensures
        match found {
            Ok(version) => opt_view(r) == (if is_newer(current@, version@) {
                Some("Skiller "@ + version@ + " is available; this is "@ + current@)
            } else {
                None
            }),
            Err(_) => r is None,
        },
{
    let version = match found {
        Ok(version) => version.as_str(),
        Err(_) => return None,
    };
    match (read_release(current), read_release(version)) {
        (Some(now), Some(new)) => {
            if new.0 > now.0 || (new.0 == now.0 && (new.1 > now.1 || (new.1 == now.1 && new.2
                > now.2))) {
                Some(cat4("Skiller ", version, " is available; this is ", current))
            } else {
                None
            }
        },
        _ => None,
    }
}

/// The release that the first line of a registry search names, if it is one of this program.
pub open spec fn searched(output: Text) -> Option<Text> {
    let start = "skiller = \""@;
    if starts_with(output, start) {
        match cut(output.skip(start.len() as int), '"') {
            Some((version, _)) => Some(version),
            None => None,
        }
    } else {
        None
    }
}

/// Reads the answer of a registry search.
pub fn searched_release(output: &str) -> (r: Option<String>)
    ensures
        opt_view(r) == searched(output@),
{
    if !begins(output, "skiller = \"") {
        return None;
    }
    proof {
        reveal_strlit("skiller = \"");
    }
    let v = chars_of(output);
    let rest = string_of(&v, 11, v.len());
    assert(rest@ =~= output@.skip(11));
    match split_once(rest.as_str(), '"') {
        Some((version, _)) => Some(version),
        None => None,
    }
}

/// A release is not told to the program that is that release, and of two releases at most one
/// is told to the other.
pub proof fn law_newer_is_one_way(a: Text, b: Text)
    ensures
        release_of(a) == release_of(b) ==> !is_newer(a, b),
        is_newer(a, b) ==> !is_newer(b, a),
{
}

} // verus!
