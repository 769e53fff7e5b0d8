//! What the operations on text do: cutting, splitting and joining, trimming, and writing numbers.

use vstd::prelude::*;
use crate::text::{
    all_digits, cut, decimal, digit, digits_value, drop_while, drop_while_end, find_char, is_digit,
    is_quote, is_space, join, lemma_find_char, lemma_find_char_bound, lower_text, parse_number,
    plural, split_on, trim, trim_quotes, Text,
};

verus! {

/// A text is cut at the first of its separators, and only where it has one.
pub proof fn law_texts_are_cut_once(s: Text, c: char, a: Text, b: Text)
    ensures
        cut(s, c) == Some((a, b)) <==> s == a + seq![c] + b && !a.contains(c),
        cut(s, c) is None <==> !s.contains(c),
{
    lemma_find_char_bound(s, c);
    let i = find_char(s, c);
    if cut(s, c) == Some((a, b)) {
        assert(s =~= a + seq![c] + b);
        if a.contains(c) {
            let j = a.index_of(c);
            assert(s[j] == c);
        }
        assert(s[i] == c);
    }
    if s == a + seq![c] + b && !a.contains(c) {
        let n = a.len() as int;
        assert forall|j: int| 0 <= j < n implies s[j] != c by {
            assert(s[j] == a[j]);
        }
        assert(s[n] == c);
        lemma_find_char(s, c, n);
        assert(s.take(n) =~= a);
        assert(s.skip(n + 1) =~= b);
    }
    if s.contains(c) {
        let j = s.index_of(c);
        assert(s[j] == c);
    }
}

proof fn lemma_join_first(parts: Seq<Text>, sep: Text)
    requires
        parts.len() > 1,
    ensures
        join(parts, sep) == parts[0] + sep + join(parts.skip(1), sep),
    decreases parts.len(),
{
    let rest = parts.skip(1);
    assert(rest.last() == parts.last());
    if parts.len() == 2 {
        assert(join(parts.drop_last(), sep) == parts[0]);
        assert(join(rest, sep) == parts[1]);
    } else {
        lemma_join_first(parts.drop_last(), sep);
        assert(parts.drop_last().skip(1) =~= rest.drop_last());
        assert(parts[0] + sep + join(rest.drop_last(), sep) + sep + parts.last() =~= parts[0] + sep
            + (join(rest.drop_last(), sep) + sep + parts.last()));
    }
}

/// The pieces of a text hold no separator, and joined by it they make up the text.
pub proof fn law_split_texts_join_again(s: Text, c: char)
    ensures
        split_on(s, c).len() > 0,
        join(split_on(s, c), seq![c]) == s,
        forall|i: int| 0 <= i < split_on(s, c).len() ==> !(#[trigger] split_on(s, c)[i]).contains(c),
    decreases s.len(),
{
    lemma_find_char_bound(s, c);
    let i = find_char(s, c);
    let parts = split_on(s, c);
    if i < s.len() {
        let rest = s.skip(i + 1);
        law_split_texts_join_again(rest, c);
        let more = split_on(rest, c);
        assert(parts == seq![s.take(i)] + more);
        assert(parts.skip(1) =~= more);
        lemma_join_first(parts, seq![c]);
        assert(s =~= s.take(i) + seq![c] + rest);
        assert forall|k: int| 0 <= k < parts.len() implies !(#[trigger] parts[k]).contains(c) by {
            if k > 0 {
                assert(parts[k] == more[k - 1]);
            }
        }
    }
}

proof fn lemma_front(s: Text, p: spec_fn(char) -> bool) -> (i: int)
    ensures
        0 <= i <= s.len(),
        drop_while(s, p) == s.skip(i),
        forall|j: int| 0 <= j < i ==> p(#[trigger] s[j]),
        i < s.len() ==> !p(s[i]),
    decreases s.len(),
{
    if s.len() > 0 && p(s[0]) {
        let k = lemma_front(s.skip(1), p);
        assert(s.skip(1).skip(k) =~= s.skip(k + 1));
        assert forall|j: int| 0 <= j < k + 1 implies p(#[trigger] s[j]) by {
            if j > 0 {
                assert(s.skip(1)[j - 1] == s[j]);
            }
        }
        k + 1
    } else {
        assert(s.skip(0) =~= s);
        0
    }
}

proof fn lemma_back(s: Text, p: spec_fn(char) -> bool) -> (i: int)
    ensures
        0 <= i <= s.len(),
        drop_while_end(s, p) == s.take(i),
        forall|j: int| i <= j < s.len() ==> p(#[trigger] s[j]),
        i > 0 ==> !p(s[i - 1]),
    decreases s.len(),
{
    if s.len() > 0 && p(s.last()) {
        let front = s.drop_last();
        let k = lemma_back(front, p);
        assert(front.take(k) =~= s.take(k));
        assert forall|j: int| k <= j < s.len() implies p(#[trigger] s[j]) by {
            if j < s.len() - 1 {
                assert(front[j] == s[j]);
            }
        }
        k
    } else {
        assert(s.take(s.len() as int) =~= s);
        s.len() as int
    }
}

proof fn lemma_trimmed(s: Text, p: spec_fn(char) -> bool) -> (r: (int, int))
    ensures
        0 <= r.0 <= r.1 <= s.len(),
        drop_while_end(drop_while(s, p), p) == s.subrange(r.0, r.1),
        forall|k: int| 0 <= k < r.0 || r.1 <= k < s.len() ==> p(#[trigger] s[k]),
        r.0 < r.1 ==> !p(s[r.0]) && !p(s[r.1 - 1]),
{
    let i = lemma_front(s, p);
    let t = s.skip(i);
    let j = lemma_back(t, p);
    assert(t.take(j) =~= s.subrange(i, i + j));
    assert forall|k: int| 0 <= k < i || i + j <= k < s.len() implies p(#[trigger] s[k]) by {
        if k >= i {
            assert(t[k - i] == s[k]);
        }
    }
    if j > 0 {
        assert(t[0] == s[i]);
        assert(t[j - 1] == s[i + j - 1]);
    }
    (i, i + j)
}

/// Trimming takes away the white space at both ends and nothing else: what is left is a part of the
/// text that begins and ends with something other than white space, or is empty.
pub proof fn law_trimming_takes_only_white_space(s: Text)
    ensures
        exists|i: int, j: int|
            {
                &&& 0 <= i <= j <= s.len()
                &&& trim(s) == #[trigger] s.subrange(i, j)
                &&& forall|k: int| 0 <= k < i || j <= k < s.len() ==> is_space(#[trigger] s[k])
                &&& i < j ==> !is_space(s[i]) && !is_space(s[j - 1])
            },
{
    let (i, j) = lemma_trimmed(s, |c: char| is_space(c));
    assert(trim(s) == s.subrange(i, j));
}

/// Unquoting takes away the quote characters at both ends and nothing else.
pub proof fn law_unquoting_takes_only_quotes(s: Text)
    ensures
        exists|i: int, j: int|
            {
                &&& 0 <= i <= j <= s.len()
                &&& trim_quotes(s) == #[trigger] s.subrange(i, j)
                &&& forall|k: int|
                    0 <= k < i || j <= k < s.len() ==> (#[trigger] s[k] == '\'' || s[k] == '"')
                &&& i < j ==> s[i] != '\'' && s[i] != '"' && s[j - 1] != '\'' && s[j - 1] != '"'
            },
{
    let (i, j) = lemma_trimmed(s, |c: char| is_quote(c));
    assert(trim_quotes(s) == s.subrange(i, j));
}

proof fn lemma_digit(n: nat)
    requires
        n < 10,
    ensures
        is_digit(digit(n)),
        digit(n) as nat == '0' as nat + n,
{
}

/// A number is written in digits that read as the number, without a leading zero.
pub proof fn law_numbers_are_read_back(n: nat)
    ensures
        decimal(n).len() > 0,
        all_digits(decimal(n)),
        digits_value(decimal(n)) == n,
        n > 0 ==> decimal(n)[0] != '0',
    decreases n,
{
    if n < 10 {
        lemma_digit(n);
        let one = seq![digit(n)];
        assert(one.drop_last() =~= Seq::<char>::empty());
        assert(one.last() == digit(n));
        assert(digits_value(one) == 10 * digits_value(Seq::<char>::empty()) + n);
    } else {
        law_numbers_are_read_back(n / 10);
        lemma_digit(n % 10);
        let front = decimal(n / 10);
        let whole = front.push(digit(n % 10));
        assert(whole.drop_last() =~= front);
        assert(digits_value(whole) == 10 * digits_value(front) + n % 10);
    }
}

/// A number is read exactly from a text that holds only digits and fits; a plus sign before it changes
/// nothing.
pub proof fn law_numbers_are_digits(s: Text)
    requires
        s.len() > 0 ==> s[0] != '+',
    ensures
        parse_number(s) is Some <==> s.len() > 0 && digits_value(s) <= usize::MAX && forall|i: int|
            0 <= i < s.len() ==> '0' <= #[trigger] s[i] <= '9',
        parse_number(s) is Some ==> parse_number(s)->Some_0 == digits_value(s),
        parse_number(seq!['+'] + s) == parse_number(s),
{
    assert((seq!['+'] + s).skip(1) =~= s);
    if forall|i: int| 0 <= i < s.len() ==> '0' <= #[trigger] s[i] <= '9' {
        assert(all_digits(s));
    }
    if all_digits(s) {
        assert forall|i: int| 0 <= i < s.len() implies '0' <= #[trigger] s[i] <= '9' by {
            assert(is_digit(s[i]));
        }
    }
}

/// Only one thing has no plural ending.
pub proof fn law_one_has_no_plural(n: nat)
    ensures
        plural(n) == (if n == 1 {
            ""@
        } else {
            "s"@
        }),
{
}

/// Lowering changes exactly the capital letters, each to the small one.
pub proof fn law_only_capitals_are_lowered(s: Text, i: int)
    requires
        0 <= i < s.len(),
    ensures
        lower_text(s).len() == s.len(),
        'A' <= s[i] <= 'Z' ==> lower_text(s)[i] as int == s[i] as int + 32,
        !('A' <= s[i] <= 'Z') ==> lower_text(s)[i] == s[i],
{
}

} // verus!
