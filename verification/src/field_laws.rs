//! What setting a frontmatter field keeps and gives back.

use vstd::prelude::*;
use crate::failure::{first_where, lemma_first_where, lemma_first_where_some};
use crate::frontmatter::{block_lines, declares, field_from, is_indented, opens_block};
use crate::gitignore::{is_whole_line, lemma_lines_of_join, whole_lines};
use crate::manual::{
    block_end, closing_line, count_where, declaring, field_line, lemma_count_one, set_field,
    set_lines,
};
use crate::text::{
    cut, is_space, lemma_find_char, lemma_find_char_bound, lines, trim, trim_quotes, trim_start,
    Text,
};

verus! {

/// A key that can stand before a colon: without colons, line ends or white space at its ends.
pub open spec fn is_field_key(key: Text) -> bool {
    key.len() > 0 && !key.contains(':') && !key.contains('\n') && trim(key) == key && !is_space(
        key[0],
    )
}

/// A value that stays on its line.
pub open spec fn is_field_value(value: Text) -> bool {
    is_whole_line(value)
}

proof fn lemma_line_declares(key: Text, value: Text)
    requires
        is_field_key(key),
    ensures
        cut(key + ": "@ + value, ':') == Some((key, " "@ + value)),
        declares(key + ": "@ + value, key, false),
        key + ": "@ + value != "---"@,
        !is_indented(key + ": "@ + value),
        (key + ": "@ + value).len() > 0,
        is_whole_line(value) ==> is_whole_line(key + ": "@ + value),
{
    reveal_strlit(": ");
    reveal_strlit(" ");
    reveal_strlit("---");
    let line = key + ": "@ + value;
    let n = key.len() as int;
    assert forall|j: int| 0 <= j < n implies line[j] != ':' by {
        assert(line[j] == key[j]);
        assert(key.contains(key[j]));
    }
    assert(line[n] == ':');
    lemma_find_char(line, ':', n);
    assert(line.take(n) =~= key);
    assert(line.skip(n + 1) =~= " "@ + value);
    if line == "---"@ {
        assert("---"@[n] == '-');
    }
    assert(line[0] == key[0]);
    if is_whole_line(value) {
        if line.contains('\n') {
            let k = line.index_of('\n');
            if k < n {
                assert(key[k] == '\n');
            } else if k >= n + 2 {
                assert(value[k - n - 2] == '\n');
            }
        }
        if value.len() == 0 {
            assert(line.last() == ' ');
        } else {
            assert(line.last() == value.last());
        }
    }
}

proof fn lemma_closing_line(ls: Seq<Text>, i: int)
    requires
        0 <= i,
    ensures
        match closing_line(ls, i) {
            Some(c) => i <= c < ls.len() && ls[c] == "---"@ && forall|j: int|
                i <= j < c ==> #[trigger] ls[j] != "---"@,
            None => forall|j: int| i <= j < ls.len() ==> #[trigger] ls[j] != "---"@,
        },
    decreases ls.len() - i,
{
    if i < ls.len() && ls[i] != "---"@ {
        lemma_closing_line(ls, i + 1);
    }
}

proof fn lemma_closing_is(ls: Seq<Text>, i: int, c: int)
    requires
        0 <= i <= c < ls.len(),
        ls[c] == "---"@,
        forall|j: int| i <= j < c ==> #[trigger] ls[j] != "---"@,
    ensures
        closing_line(ls, i) == Some(c),
    decreases c - i,
{
    if i < c {
        assert(ls[i] != "---"@);
        lemma_closing_is(ls, i + 1, c);
    }
}

proof fn lemma_block_end(ls: Seq<Text>, i: int, closing: int)
    requires
        0 <= i <= closing <= ls.len(),
    ensures
        i <= block_end(ls, i, closing) <= closing,
        forall|j: int|
            i <= j < block_end(ls, i, closing) ==> ((#[trigger] ls[j]).len() == 0 || is_indented(
                ls[j],
            )),
        block_end(ls, i, closing) < closing ==> !(ls[block_end(ls, i, closing)].len() == 0
            || is_indented(ls[block_end(ls, i, closing)])),
    decreases closing - i,
{
    if i < closing && (ls[i].len() == 0 || is_indented(ls[i])) {
        lemma_block_end(ls, i + 1, closing);
    }
}

/// Where the lines of a field begin: at the line that declares it, or, where it is new, at the
/// closing line. What stands before them and what stands behind is kept.
pub open spec fn field_start(ls: Seq<Text>, closing: int, key: Text) -> int {
    match first_where(closing, declaring(ls, key)) {
        Some(m) => m,
        None => closing,
    }
}

/// Where the lines of a field end.
pub open spec fn field_end(ls: Seq<Text>, closing: int, key: Text) -> int {
    match first_where(closing, declaring(ls, key)) {
        Some(m) => block_end(ls, m + 1, closing),
        None => closing,
    }
}

/// Lines that begin with a fence and close it at `closing`, with a field at most once.
pub open spec fn is_block(ls: Seq<Text>, closing: int, key: Text) -> bool {
    &&& ls.len() > 0
    &&& ls[0] == "---"@
    &&& closing_line(ls, 1) == Some(closing)
    &&& count_where(closing, declaring(ls, key)) <= 1
}

proof fn lemma_parts(ls: Seq<Text>, closing: int, key: Text)
    requires
        is_block(ls, closing, key),
    ensures
        1 <= field_start(ls, closing, key) <= field_end(ls, closing, key) <= closing < ls.len(),
        ls[closing] == "---"@,
        forall|j: int| 1 <= j < closing ==> #[trigger] ls[j] != "---"@,
        forall|j: int|
            0 <= j < field_start(ls, closing, key) ==> !declares(#[trigger] ls[j], key, false),
        forall|j: int|
            field_end(ls, closing, key) <= j < closing ==> !declares(#[trigger] ls[j], key, false),
        field_end(ls, closing, key) < closing ==> !(ls[field_end(ls, closing, key)].len() == 0
            || is_indented(ls[field_end(ls, closing, key)])),
        forall|v: Option<Text>|
            #![trigger set_lines(ls, closing, key, v)]
            set_lines(ls, closing, key, v) == ls.take(field_start(ls, closing, key)) + field_line(
                key,
                v,
            ) + ls.skip(field_end(ls, closing, key)),
{
    reveal_strlit("---");
    lemma_closing_line(ls, 1);
    let p = declaring(ls, key);
    lemma_first_where(closing, p);
    assert(!declares(ls[0], key, false)) by {
        lemma_find_char_bound("---"@, ':');
        if cut("---"@, ':') is Some {
            let i = crate::text::find_char("---"@, ':');
            assert("---"@[i] == ':');
        }
    }
    match first_where(closing, p) {
        Some(m) => {
            assert(p(m));
            if m == 0 {
                assert(declares(ls[0], key, false));
            }
            lemma_block_end(ls, m + 1, closing);
            assert forall|j: int| 0 <= j < m implies !declares(#[trigger] ls[j], key, false) by {
                assert(!p(j));
            }
            assert forall|j: int|
                field_end(ls, closing, key) <= j < closing implies !declares(
                #[trigger] ls[j],
                key,
                false,
            ) by {
                lemma_count_one(closing, p, m, j);
                assert(!p(j));
            }
        },
        None => {
            assert forall|j: int| 0 <= j < closing implies !declares(#[trigger] ls[j], key, false) by {
                assert(!p(j));
            }
        },
    }
}

/// Setting a field gives lines in which it is set once, where it stood.
proof fn lemma_after_set(ls: Seq<Text>, closing: int, key: Text, value: Text)
    requires
        is_block(ls, closing, key),
        is_field_key(key),
    ensures
        ({
            let out = set_lines(ls, closing, key, Some(value));
            let s = field_start(ls, closing, key);
            let c = s + 1 + (closing - field_end(ls, closing, key));
            &&& is_block(out, c, key)
            &&& field_start(out, c, key) == s
            &&& field_end(out, c, key) == s + 1
            &&& out[s] == key + ": "@ + value
            &&& c < out.len()
        }),
{
    lemma_parts(ls, closing, key);
    lemma_line_declares(key, value);
    let s = field_start(ls, closing, key);
    let e = field_end(ls, closing, key);
    let line = key + ": "@ + value;
    let out = set_lines(ls, closing, key, Some(value));
    let c = s + 1 + (closing - e);
    assert(out == ls.take(s) + seq![line] + ls.skip(e));
    assert(out[0] == ls[0]);
    assert(out[c] == ls[closing]);
    assert forall|j: int| 1 <= j < c implies #[trigger] out[j] != "---"@ by {
        if j < s {
            assert(out[j] == ls[j]);
        } else if j > s {
            assert(out[j] == ls[e + (j - s - 1)]);
        }
    }
    lemma_closing_is(out, 1, c);
    let p = declaring(out, key);
    assert forall|j: int| 0 <= j < s implies !#[trigger] p(j) by {
        assert(out[j] == ls[j]);
    }
    assert(p(s));
    assert forall|j: int| s < j < c implies !#[trigger] p(j) by {
        assert(out[j] == ls[e + (j - s - 1)]);
    }
    lemma_first_where_some(c, p, s);
    lemma_count_single(c, p, s);
    if s + 1 < c {
        assert(out[s + 1] == ls[e]);
    }
}

proof fn lemma_count_single(n: int, p: spec_fn(int) -> bool, i: int)
    requires
        0 <= i < n,
        forall|j: int| 0 <= j < n && j != i ==> !#[trigger] p(j),
    ensures
        count_where(n, p) <= 1,
    decreases n,
{
    if n - 1 == i {
        lemma_count_zero(n - 1, p);
    } else {
        assert(!p(n - 1));
        lemma_count_single(n - 1, p, i);
    }
}

proof fn lemma_count_zero(n: int, p: spec_fn(int) -> bool)
    requires
        forall|j: int| 0 <= j < n ==> !#[trigger] p(j),
    ensures
        count_where(n, p) == 0,
    decreases n,
{
    if n > 0 {
        lemma_count_zero(n - 1, p);
    }
}

/// Setting a field again is setting it the second time only.
proof fn lemma_set_twice(ls: Seq<Text>, closing: int, key: Text, first: Text, second: Option<Text>)
    requires
        is_block(ls, closing, key),
        is_field_key(key),
    ensures
        ({
            let out = set_lines(ls, closing, key, Some(first));
            let c = field_start(ls, closing, key) + 1 + (closing - field_end(ls, closing, key));
            set_lines(out, c, key, second) == set_lines(ls, closing, key, second)
        }),
{
    lemma_after_set(ls, closing, key, first);
    lemma_parts(ls, closing, key);
    let s = field_start(ls, closing, key);
    let e = field_end(ls, closing, key);
    let out = set_lines(ls, closing, key, Some(first));
    let c = s + 1 + (closing - e);
    lemma_parts(out, c, key);
    assert(out == ls.take(s) + seq![key + ": "@ + first] + ls.skip(e));
    assert(out.take(s) =~= ls.take(s));
    assert(out.skip(s + 1) =~= ls.skip(e));
    assert(set_lines(out, c, key, second) == out.take(s) + field_line(key, second) + out.skip(s + 1));
    assert(set_lines(ls, closing, key, second) == ls.take(s) + field_line(key, second) + ls.skip(e));
}

/// The lines that setting a field keeps end without a stray carriage return: one that is kept
/// before a new line end would be read as a part of it.
pub open spec fn keeps_whole_lines(ls: Seq<Text>, closing: int, key: Text) -> bool {
    forall|i: int|
        (0 <= i < field_start(ls, closing, key) || field_end(ls, closing, key) <= i < ls.len())
            ==> is_whole_line(#[trigger] ls[i])
}

/// The same of a text, where it has frontmatter.
pub open spec fn keeps_whole(raw: Text, key: Text) -> bool {
    keeps_whole_lines(lines(raw), closing_line(lines(raw), 1)->Some_0, key)
}

proof fn lemma_set_whole(ls: Seq<Text>, closing: int, key: Text, value: Option<Text>)
    requires
        is_block(ls, closing, key),
        is_field_key(key),
        value is Some ==> is_field_value(value->Some_0),
        keeps_whole_lines(ls, closing, key),
    ensures
        whole_lines(set_lines(ls, closing, key, value)),
        set_lines(ls, closing, key, value).len() > 0,
{
    lemma_parts(ls, closing, key);
    if value is Some {
        lemma_line_declares(key, value->Some_0);
    }
    let s = field_start(ls, closing, key);
    let e = field_end(ls, closing, key);
    let n = field_line(key, value).len() as int;
    let out = set_lines(ls, closing, key, value);
    assert(out == ls.take(s) + field_line(key, value) + ls.skip(e));
    assert forall|i: int| 0 <= i < out.len() implies is_whole_line(#[trigger] out[i]) by {
        if i < s {
            assert(out[i] == ls[i]);
        } else if i >= s + n {
            assert(out[i] == ls[e + (i - s - n)]);
        }
    }
}

/// The last value that is set is the one that counts: setting a field twice is setting it
/// once to the second value, or taking it out.
pub proof fn law_last_value_counts(raw: Text, key: Text, first: Text, second: Option<Text>)
    requires
        is_field_key(key),
        is_field_value(first),
        keeps_whole(raw, key),
        set_field(raw, key, Some(first)) is Ok,
    ensures
        set_field(set_field(raw, key, Some(first))->Ok_0, key, second) == set_field(
            raw,
            key,
            second,
        ),
{
    let ls = lines(raw);
    let closing = closing_line(ls, 1)->Some_0;
    let out = set_lines(ls, closing, key, Some(first));
    lemma_set_whole(ls, closing, key, Some(first));
    lemma_lines_of_join(out);
    lemma_after_set(ls, closing, key, first);
    lemma_set_twice(ls, closing, key, first, second);
}

/// Taking a field out gives lines in which it is not declared.
proof fn lemma_after_removal(ls: Seq<Text>, closing: int, key: Text)
    requires
        is_block(ls, closing, key),
    ensures
        ({
            let out = set_lines(ls, closing, key, None);
            let s = field_start(ls, closing, key);
            let c = s + (closing - field_end(ls, closing, key));
            &&& is_block(out, c, key)
            &&& field_start(out, c, key) == c
            &&& field_end(out, c, key) == c
        }),
{
    lemma_parts(ls, closing, key);
    let s = field_start(ls, closing, key);
    let e = field_end(ls, closing, key);
    let out = set_lines(ls, closing, key, None);
    let c = s + (closing - e);
    assert(out =~= ls.take(s) + ls.skip(e));
    assert(out[0] == ls[0]);
    assert(out[c] == ls[closing]);
    assert forall|j: int| 1 <= j < c implies #[trigger] out[j] != "---"@ by {
        if j < s {
            assert(out[j] == ls[j]);
        } else {
            assert(out[j] == ls[e + (j - s)]);
        }
    }
    lemma_closing_is(out, 1, c);
    let p = declaring(out, key);
    assert forall|j: int| 0 <= j < c implies !#[trigger] p(j) by {
        if j < s {
            assert(out[j] == ls[j]);
        } else {
            assert(out[j] == ls[e + (j - s)]);
        }
    }
    lemma_first_where(c, p);
    lemma_count_zero(c, p);
}

/// Setting a field, or taking it out, is done with one call: a second one changes nothing. Then
/// the frontmatter has the field on one line, or not at all. The lines of the field are the one
/// that declares it and the blank and indented ones behind; all other lines, with all from the
/// closing one on, are kept in order.
pub proof fn law_setting_is_settled(raw: Text, key: Text, value: Option<Text>)
    requires
        is_field_key(key),
        value is Some ==> is_field_value(value->Some_0),
        keeps_whole(raw, key),
        set_field(raw, key, value) is Ok,
    ensures
        ({
            let out = set_field(raw, key, value)->Ok_0;
            let ls = lines(raw);
            let now = lines(out);
            let closing = closing_line(ls, 1)->Some_0;
            let s = field_start(ls, closing, key);
            let e = field_end(ls, closing, key);
            let c = closing + (now.len() - ls.len());
            &&& set_field(out, key, value) == Ok::<Text, Text>(out)
            &&& 1 <= s <= e <= closing
            &&& s < e ==> declares(ls[s], key, false)
            &&& forall|j: int|
                s < j < e ==> ((#[trigger] ls[j]).len() == 0 || is_indented(ls[j]))
            &&& now == ls.take(s) + field_line(key, value) + ls.skip(e)
            &&& closing_line(now, 1) == Some(c)
            &&& now.skip(c) == ls.skip(closing)
            &&& forall|j: int|
                1 <= j < c ==> (declares(#[trigger] now[j], key, false) <==> value is Some && j
                    == s)
        }),
{
    let ls = lines(raw);
    let closing = closing_line(ls, 1)->Some_0;
    let s = field_start(ls, closing, key);
    let e = field_end(ls, closing, key);
    let now = set_lines(ls, closing, key, value);
    lemma_parts(ls, closing, key);
    lemma_set_whole(ls, closing, key, value);
    lemma_lines_of_join(now);
    let p = declaring(ls, key);
    lemma_first_where(closing, p);
    if s < e {
        assert(p(s));
        lemma_block_end(ls, s + 1, closing);
    }
    assert(now == ls.take(s) + field_line(key, value) + ls.skip(e));
    let c = closing + (now.len() - ls.len());
    assert(now.skip(c) =~= ls.skip(closing));
    if value is Some {
        let v = value->Some_0;
        lemma_after_set(ls, closing, key, v);
        lemma_set_twice(ls, closing, key, v, value);
        lemma_parts(now, c, key);
        lemma_line_declares(key, v);
    } else {
        lemma_after_removal(ls, closing, key);
        lemma_parts(now, c, key);
        assert(set_lines(now, c, key, None) =~= now);
    }
}

// Reading back.

proof fn lemma_trim_lead(s: Text)
    ensures
        trim(" "@ + s) == trim(s),
{
    reveal_strlit(" ");
    let t = " "@ + s;
    assert(t[0] == ' ');
    assert(t.skip(1) =~= s);
    assert(is_space(' '));
    assert(trim_start(t) == trim_start(t.skip(1)));
}

/// The lines between the fences.
pub open spec fn inner(ls: Seq<Text>, closing: int) -> Seq<Text> {
    ls.subrange(1, closing)
}

proof fn lemma_skip_undeclared(ls: Seq<Text>, i: int, k: int, key: Text)
    requires
        0 <= i <= k <= ls.len(),
        forall|j: int| i <= j < k ==> !declares(#[trigger] ls[j], key, false),
    ensures
        field_from(ls, i, key, false) == field_from(ls, k, key, false),
    decreases k - i,
{
    if i < k {
        assert(!declares(ls[i], key, false));
        lemma_skip_undeclared(ls, i + 1, k, key);
    }
}

/// A plain value that is set is read back, without quotes around it.
pub proof fn law_set_value_is_read_back(raw: Text, key: Text, value: Text)
    requires
        is_field_key(key),
        is_field_value(value),
        keeps_whole(raw, key),
        set_field(raw, key, Some(value)) is Ok,
        trim(value).len() > 0,
        !opens_block(trim(value)),
    ensures
        ({
            let ls = lines(set_field(raw, key, Some(value))->Ok_0);
            let closing = closing_line(ls, 1);
            closing is Some && field_from(inner(ls, closing->Some_0), 0, key, false) == Some(
                trim_quotes(trim(value)),
            )
        }),
{
    let ls = lines(raw);
    let closing = closing_line(ls, 1)->Some_0;
    let out = set_lines(ls, closing, key, Some(value));
    lemma_set_whole(ls, closing, key, Some(value));
    lemma_lines_of_join(out);
    lemma_after_set(ls, closing, key, value);
    let s = field_start(ls, closing, key);
    let c = s + 1 + (closing - field_end(ls, closing, key));
    lemma_parts(ls, closing, key);
    lemma_parts(out, c, key);
    let b = inner(out, c);
    assert forall|j: int| 0 <= j < s - 1 implies !declares(#[trigger] b[j], key, false) by {
        assert(b[j] == out[j + 1]);
    }
    lemma_skip_undeclared(b, 0, s - 1, key);
    assert(b[s - 1] == key + ": "@ + value);
    lemma_line_declares(key, value);
    lemma_trim_lead(value);
}

// Other fields.

/// A line that ends the block of the field before it.
spec fn stops(line: Text) -> bool {
    !(line.len() == 0 || is_indented(line))
}

proof fn lemma_block_prefix(a: Seq<Text>, b: Seq<Text>, i: int)
    requires
        0 <= i <= a.len(),
        b.len() == 0 || stops(b[0]),
    ensures
        block_lines(a + b, i) == block_lines(a, i),
    decreases a.len() - i,
{
    let all = a + b;
    if i < a.len() {
        assert(all[i] == a[i]);
        lemma_block_prefix(a, b, i + 1);
    } else if b.len() > 0 {
        assert(all[i] == b[0]);
    }
}

proof fn lemma_block_suffix(a: Seq<Text>, b: Seq<Text>, i: int)
    requires
        0 <= i <= b.len(),
    ensures
        block_lines(a + b, a.len() + i) == block_lines(b, i),
    decreases b.len() - i,
{
    let all = a + b;
    if i < b.len() {
        assert(all[a.len() + i] == b[i]);
        lemma_block_suffix(a, b, i + 1);
    }
}

proof fn lemma_field_suffix(a: Seq<Text>, b: Seq<Text>, i: int, key: Text)
    requires
        0 <= i <= b.len(),
    ensures
        field_from(a + b, a.len() + i, key, false) == field_from(b, i, key, false),
    decreases b.len() - i,
{
    let all = a + b;
    if i < b.len() {
        assert(all[a.len() + i] == b[i]);
        lemma_block_suffix(a, b, i + 1);
        lemma_field_suffix(a, b, i + 1, key);
    }
}

/// A field is read from the lines up to one that ends blocks, or else behind them.
proof fn lemma_field_prefix(a: Seq<Text>, b: Seq<Text>, i: int, key: Text)
    requires
        0 <= i <= a.len(),
        b.len() == 0 || stops(b[0]),
    ensures
        field_from(a + b, i, key, false) == match field_from(a, i, key, false) {
            Some(v) => Some(v),
            None => field_from(b, 0, key, false),
        },
    decreases a.len() - i,
{
    let all = a + b;
    if i < a.len() {
        assert(all[i] == a[i]);
        lemma_block_prefix(a, b, i + 1);
        lemma_field_prefix(a, b, i + 1, key);
    } else {
        lemma_field_suffix(a, b, 0, key);
        assert(all.len() == a.len() + b.len());
    }
}

proof fn lemma_blank_declares_nothing(line: Text, key: Text)
    requires
        line.len() == 0 || is_indented(line),
        key.len() > 0,
    ensures
        !declares(line, key, false),
{
    lemma_find_char_bound(line, ':');
    if declares(line, key, false) {
        let candidate = cut(line, ':')->Some_0.0;
        if candidate.len() > 0 {
            assert(candidate[0] == line[0]);
        } else {
            assert(trim_start(candidate) == candidate);
            assert(trim(candidate) == candidate);
        }
    }
}

/// The lines of a field hold no other field.
proof fn lemma_middle_holds_nothing(ls: Seq<Text>, i: int, from: int, to: int, key: Text, other: Text)
    requires
        0 <= from <= to <= ls.len(),
        from <= i <= to,
        other != key,
        other.len() > 0,
        from < to ==> declares(ls[from], key, false),
        forall|j: int| from < j < to ==> ((#[trigger] ls[j]).len() == 0 || is_indented(ls[j])),
    ensures
        field_from(ls, i, other, false) == field_from(ls, to, other, false),
    decreases to - i,
{
    if i < to {
        if i > from {
            lemma_blank_declares_nothing(ls[i], other);
        }
        assert(!declares(ls[i], other, false));
        lemma_middle_holds_nothing(ls, i + 1, from, to, key, other);
    }
}

/// Setting a field, or taking it out, leaves every other top-level field as it was.
pub proof fn law_other_fields_stay(ls: Seq<Text>, closing: int, key: Text, value: Option<Text>, other: Text)
    requires
        is_block(ls, closing, key),
        is_field_key(key),
        other != key,
        other.len() > 0,
    ensures
        ({
            let out = set_lines(ls, closing, key, value);
            let c = closing + (out.len() - ls.len());
            &&& closing_line(out, 1) == Some(c)
            &&& field_from(inner(out, c), 0, other, false) == field_from(
                inner(ls, closing),
                0,
                other,
                false,
            )
        }),
{
    lemma_parts(ls, closing, key);
    let s = field_start(ls, closing, key);
    let e = field_end(ls, closing, key);
    let mid = field_line(key, value);
    let out = set_lines(ls, closing, key, value);
    assert(out == ls.take(s) + mid + ls.skip(e));
    let c = closing + (out.len() - ls.len());
    assert(c == s + mid.len() + (closing - e));
    if value is Some {
        lemma_line_declares(key, value->Some_0);
    }
    assert(out[c] == ls[closing]);
    assert forall|j: int| 1 <= j < c implies #[trigger] out[j] != "---"@ by {
        if j < s {
            assert(out[j] == ls[j]);
        } else if j < s + mid.len() {
            assert(out[j] == mid[j - s]);
        } else {
            assert(out[j] == ls[e + (j - s - mid.len())]);
        }
    }
    lemma_closing_is(out, 1, c);
    let a = ls.subrange(1, s);
    let old_mid = ls.subrange(s, e);
    let tail = ls.subrange(e, closing);
    let before = inner(ls, closing);
    let after = inner(out, c);
    assert(before =~= a + (old_mid + tail));
    assert(after =~= a + (mid + tail));
    // The lines of the field in the old text.
    let p = declaring(ls, key);
    lemma_first_where(closing, p);
    if s < e {
        assert(p(s));
        lemma_block_end(ls, s + 1, closing);
        assert(old_mid[0] == ls[s]);
        assert(stops(ls[s])) by {
            if ls[s].len() == 0 || is_indented(ls[s]) {
                lemma_blank_declares_nothing(ls[s], key);
            }
        }
    }
    assert forall|j: int| 0 < j < old_mid.len() implies ((#[trigger] old_mid[j]).len() == 0
        || is_indented(old_mid[j])) by {
        assert(old_mid[j] == ls[s + j]);
    }
    let x = old_mid + tail;
    let y = mid + tail;
    if x.len() > 0 {
        if s < e {
            assert(x[0] == ls[s]);
        } else {
            assert(x[0] == ls[e]);
        }
    }
    if y.len() > 0 {
        if value is Some {
            assert(y[0] == mid[0]);
        } else {
            assert(y[0] == ls[e]);
        }
    }
    lemma_field_prefix(a, x, 0, other);
    lemma_field_prefix(a, y, 0, other);
    // Neither the old nor the new lines of the field hold the other one.
    assert forall|j: int| 0 < j < old_mid.len() implies ((#[trigger] x[j]).len() == 0 || is_indented(
        x[j],
    )) by {
        assert(x[j] == old_mid[j]);
    }
    if s < e {
        assert(declares(x[0], key, false));
    }
    lemma_middle_holds_nothing(x, 0, 0, old_mid.len() as int, key, other);
    lemma_field_suffix(old_mid, tail, 0, other);
    if value is Some {
        assert(y[0] == key + ": "@ + value->Some_0);
        assert(declares(y[0], key, false));
    }
    lemma_middle_holds_nothing(y, 0, 0, mid.len() as int, key, other);
    lemma_field_suffix(mid, tail, 0, other);
}

} // verus!
