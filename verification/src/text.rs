//! Text as sequences of characters: the operations that the rest of the library
//! reads and writes text with.

use vstd::prelude::*;

verus! {

/// A text value in contracts.
pub type Text = Seq<char>;

/// `String::push` appends one character.
pub assume_specification[ String::push ](s: &mut String, c: char)
    ensures
        final(s)@ == old(s)@.push(c),
;

/// The views of a list of strings.
pub open spec fn views(v: Seq<String>) -> Seq<Text> {
    Seq::new(v.len(), |i: int| v[i]@)
}

/// The view of an optional string.
pub open spec fn opt_view(o: Option<String>) -> Option<Text> {
    match o {
        Some(s) => Some(s@),
        None => None,
    }
}

/// Strict lexicographic order by character.
pub open spec fn text_lt(a: Text, b: Text) -> bool
    decreases a.len(),
{
    if b.len() == 0 {
        false
    } else if a.len() == 0 {
        true
    } else if a[0] != b[0] {
        a[0] < b[0]
    } else {
        text_lt(a.skip(1), b.skip(1))
    }
}

/// Each text comes strictly before the texts after it.
pub open spec fn ascending(s: Seq<Text>) -> bool {
    forall|i: int, j: int| 0 <= i < j < s.len() ==> text_lt(#[trigger] s[i], #[trigger] s[j])
}

/// The index of the first `c` in `s`, or the length of `s` where it holds none.
pub open spec fn find_char(s: Text, c: char) -> int
    decreases s.len(),
{
    if s.len() == 0 || s[0] == c {
        0
    } else {
        1 + find_char(s.skip(1), c)
    }
}

/// What stands before and after the first `c`.
pub open spec fn cut(s: Text, c: char) -> Option<(Text, Text)> {
    let i = find_char(s, c);
    if i < s.len() {
        Some((s.take(i), s.skip(i + 1)))
    } else {
        None
    }
}

/// The pieces of `s` between the characters `c`, empty pieces counted.
pub open spec fn split_on(s: Text, c: char) -> Seq<Text>
    decreases s.len(),
{
    let i = find_char(s, c);
    if 0 <= i < s.len() {
        seq![s.take(i)] + split_on(s.skip(i + 1), c)
    } else {
        seq![s]
    }
}

/// Unicode `White_Space`.
pub open spec fn is_space(c: char) -> bool {
    ||| '\u{9}' <= c <= '\u{d}'
    ||| c == ' '
    ||| c == '\u{85}'
    ||| c == '\u{a0}'
    ||| c == '\u{1680}'
    ||| '\u{2000}' <= c <= '\u{200a}'
    ||| c == '\u{2028}'
    ||| c == '\u{2029}'
    ||| c == '\u{202f}'
    ||| c == '\u{205f}'
    ||| c == '\u{3000}'
}

/// Unicode control characters.
pub open spec fn is_control(c: char) -> bool {
    c <= '\u{1f}' || '\u{7f}' <= c <= '\u{9f}'
}

/// `s` without its leading characters that satisfy `p`.
pub open spec fn drop_while(s: Text, p: spec_fn(char) -> bool) -> Text
    decreases s.len(),
{
    if s.len() > 0 && p(s[0]) {
        drop_while(s.skip(1), p)
    } else {
        s
    }
}

/// `s` without its trailing characters that satisfy `p`.
pub open spec fn drop_while_end(s: Text, p: spec_fn(char) -> bool) -> Text
    decreases s.len(),
{
    if s.len() > 0 && p(s.last()) {
        drop_while_end(s.drop_last(), p)
    } else {
        s
    }
}

pub open spec fn trim_start(s: Text) -> Text {
    drop_while(s, |c: char| is_space(c))
}

pub open spec fn trim_end(s: Text) -> Text {
    drop_while_end(s, |c: char| is_space(c))
}

/// `s` without white space at either end.
pub open spec fn trim(s: Text) -> Text {
    trim_end(trim_start(s))
}

pub open spec fn is_quote(c: char) -> bool {
    c == '\'' || c == '"'
}

/// `s` without quote characters at either end.
pub open spec fn trim_quotes(s: Text) -> Text {
    drop_while_end(drop_while(s, |c: char| is_quote(c)), |c: char| is_quote(c))
}

/// `s` without trailing carriage returns and line feeds.
pub open spec fn trim_eol(s: Text) -> Text {
    drop_while_end(s, |c: char| c == '\r' || c == '\n')
}

pub open spec fn strip_cr(s: Text) -> Text {
    if s.len() > 0 && s.last() == '\r' {
        s.drop_last()
    } else {
        s
    }
}

/// The lines of `s` without their terminators, `\n` or `\r\n`.
pub open spec fn lines(s: Text) -> Seq<Text>
    decreases s.len(),
{
    let i = find_char(s, '\n');
    if s.len() == 0 {
        Seq::empty()
    } else if 0 <= i < s.len() {
        seq![strip_cr(s.take(i))] + lines(s.skip(i + 1))
    } else {
        seq![s]
    }
}

/// The parts with `sep` between neighbours.
pub open spec fn join(parts: Seq<Text>, sep: Text) -> Text
    decreases parts.len(),
{
    if parts.len() == 0 {
        Seq::empty()
    } else if parts.len() == 1 {
        parts[0]
    } else {
        join(parts.drop_last(), sep) + sep + parts.last()
    }
}

/// The parts one after another.
pub open spec fn concat(parts: Seq<Text>) -> Text
    decreases parts.len(),
{
    if parts.len() == 0 {
        Seq::empty()
    } else {
        concat(parts.drop_last()) + parts.last()
    }
}

pub open spec fn starts_with(s: Text, p: Text) -> bool {
    p.len() <= s.len() && s.take(p.len() as int) == p
}

pub open spec fn ends_with(s: Text, p: Text) -> bool {
    p.len() <= s.len() && s.skip(s.len() - p.len()) == p
}

pub open spec fn contains_text(s: Text, p: Text) -> bool {
    exists|i: int| 0 <= i && i + p.len() <= s.len() && #[trigger] s.subrange(i, i + p.len()) == p
}

/// Whether `p` stands in `s` at `i`.
pub open spec fn stands_at(s: Text, p: Text, i: int) -> bool {
    0 <= i && i + p.len() <= s.len() && s.subrange(i, i + p.len()) == p
}

/// The first place at or behind `i` where `p` stands in `s`.
pub open spec fn find_text(s: Text, p: Text, i: int) -> Option<int>
    decreases s.len() + 1 - i,
{
    if i < 0 || i + p.len() > s.len() {
        None
    } else if stands_at(s, p, i) {
        Some(i)
    } else {
        find_text(s, p, i + 1)
    }
}

/// The pieces of `s` from `i` on between the places where `p` stands.
pub open spec fn split_by(s: Text, p: Text, i: int) -> Seq<Text>
    decreases s.len() - i,
{
    match find_text(s, p, i) {
        Some(k) if p.len() > 0 && k >= i && k + p.len() <= s.len() => seq![s.subrange(i, k)]
            + split_by(s, p, k + p.len()),
        _ => seq![s.skip(i)],
    }
}

/// The length of the leading run without white space.
pub open spec fn word_len(s: Text) -> int
    decreases s.len(),
{
    if s.len() == 0 || is_space(s[0]) {
        0
    } else {
        1 + word_len(s.skip(1))
    }
}

/// The maximal runs without white space, in order.
pub open spec fn words(s: Text) -> Seq<Text>
    decreases s.len(),
{
    if s.len() == 0 {
        Seq::empty()
    } else if is_space(s[0]) {
        words(s.skip(1))
    } else {
        let n = word_len(s);
        if 0 < n <= s.len() {
            seq![s.take(n)] + words(s.skip(n))
        } else {
            Seq::empty()
        }
    }
}

pub open spec fn digit(n: nat) -> char {
    if n == 0 { '0' } else if n == 1 { '1' } else if n == 2 { '2' } else if n == 3 { '3' }
    else if n == 4 { '4' } else if n == 5 { '5' } else if n == 6 { '6' } else if n == 7 { '7' }
    else if n == 8 { '8' } else if n == 9 { '9' } else if n == 10 { 'a' } else if n == 11 { 'b' }
    else if n == 12 { 'c' } else if n == 13 { 'd' } else if n == 14 { 'e' } else { 'f' }
}

/// The decimal notation of `n`.
pub open spec fn decimal(n: nat) -> Text
    decreases n,
{
    if n < 10 {
        seq![digit(n)]
    } else {
        decimal(n / 10).push(digit(n % 10))
    }
}

/// The last `places` hexadecimal digits of `n`, lower case.
pub open spec fn hex(n: nat, places: nat) -> Text
    decreases places,
{
    if places == 0 {
        Seq::empty()
    } else {
        hex(n / 16, (places - 1) as nat).push(digit(n % 16))
    }
}

/// The value of a text of decimal digits.
pub open spec fn digits_value(s: Text) -> nat
    decreases s.len(),
{
    if s.len() == 0 {
        0
    } else {
        10 * digits_value(s.drop_last()) + (s.last() as nat - '0' as nat) as nat
    }
}

pub open spec fn is_digit(c: char) -> bool {
    '0' <= c <= '9'
}

/// The digits of a number: what follows an optional `+`.
pub open spec fn unsigned(s: Text) -> Text {
    if s.len() > 0 && s[0] == '+' { s.skip(1) } else { s }
}

pub open spec fn all_digits(s: Text) -> bool {
    forall|i: int| 0 <= i < s.len() ==> is_digit(#[trigger] s[i])
}

/// The unsigned number that `s` denotes: decimal digits after an optional `+`, within
/// `usize`.
pub open spec fn parse_number(s: Text) -> Option<usize> {
    let d = unsigned(s);
    if d.len() > 0 && all_digits(d) && digits_value(d) <= usize::MAX {
        Some(digits_value(d) as usize)
    } else {
        None
    }
}

/// `c` with ASCII capitals made small.
pub open spec fn lower(c: char) -> char {
    if 'A' <= c <= 'Z' {
        ((c as u32 + 32) as u8) as char
    } else {
        c
    }
}

pub open spec fn lower_text(s: Text) -> Text {
    s.map_values(|c: char| lower(c))
}

// Facts about these functions.

pub proof fn lemma_text_lt_irreflexive(a: Text)
    ensures
        !text_lt(a, a),
    decreases a.len(),
{
    if a.len() > 0 {
        lemma_text_lt_irreflexive(a.skip(1));
    }
}

pub proof fn lemma_text_lt_transitive(a: Text, b: Text, c: Text)
    requires
        text_lt(a, b),
        text_lt(b, c),
    ensures
        text_lt(a, c),
    decreases a.len(),
{
    if a.len() > 0 && b.len() > 0 && c.len() > 0 && a[0] == b[0] && b[0] == c[0] {
        lemma_text_lt_transitive(a.skip(1), b.skip(1), c.skip(1));
    }
}

pub proof fn lemma_text_lt_total(a: Text, b: Text)
    ensures
        a == b || text_lt(a, b) || text_lt(b, a),
    decreases a.len(),
{
    if a.len() > 0 && b.len() > 0 && a[0] == b[0] {
        lemma_text_lt_total(a.skip(1), b.skip(1));
        if a.skip(1) == b.skip(1) {
            assert(a =~= seq![a[0]] + a.skip(1));
            assert(b =~= seq![b[0]] + b.skip(1));
        }
    } else if a.len() == 0 && b.len() == 0 {
        assert(a =~= b);
    }
}

pub proof fn lemma_text_lt_skip(a: Text, b: Text, i: int)
    requires
        0 <= i <= a.len(),
        i <= b.len(),
        a.take(i) == b.take(i),
    ensures
        text_lt(a, b) == text_lt(a.skip(i), b.skip(i)),
    decreases i,
{
    if i == 0 {
        assert(a.skip(0) =~= a);
        assert(b.skip(0) =~= b);
    } else {
        assert(a[0] == a.take(i)[0] && b[0] == b.take(i)[0]);
        assert(a.skip(1).take(i - 1) =~= a.take(i).skip(1));
        assert(b.skip(1).take(i - 1) =~= b.take(i).skip(1));
        lemma_text_lt_skip(a.skip(1), b.skip(1), i - 1);
        assert(a.skip(1).skip(i - 1) =~= a.skip(i));
        assert(b.skip(1).skip(i - 1) =~= b.skip(i));
    }
}

/// An ascending list names nothing twice, and is set by its members.
pub proof fn lemma_ascending_distinct(s: Seq<Text>)
    requires
        ascending(s),
    ensures
        s.no_duplicates(),
{
    assert forall|i: int, j: int| 0 <= i < s.len() && 0 <= j < s.len() && i != j implies s[i] != s[j] by {
        lemma_text_lt_irreflexive(s[i]);
        if i < j {
            assert(text_lt(s[i], s[j]));
        } else {
            assert(text_lt(s[j], s[i]));
        }
    }
}

pub proof fn lemma_find_char(s: Text, c: char, i: int)
    requires
        0 <= i <= s.len(),
        forall|j: int| 0 <= j < i ==> s[j] != c,
        i == s.len() || s[i] == c,
    ensures
        find_char(s, c) == i,
    decreases s.len(),
{
    if i > 0 {
        assert(s[0] != c);
        lemma_find_char(s.skip(1), c, i - 1);
    }
}

pub proof fn lemma_find_char_bound(s: Text, c: char)
    ensures
        0 <= find_char(s, c) <= s.len(),
        find_char(s, c) < s.len() ==> s[find_char(s, c)] == c,
        forall|j: int| 0 <= j < find_char(s, c) ==> s[j] != c,
    decreases s.len(),
{
    if s.len() > 0 && s[0] != c {
        lemma_find_char_bound(s.skip(1), c);
        let k = find_char(s.skip(1), c);
        assert forall|j: int| 0 <= j < find_char(s, c) implies s[j] != c by {
            if j > 0 {
                assert(s.skip(1)[j - 1] == s[j]);
            }
        }
    }
}

pub proof fn lemma_drop_while(s: Text, p: spec_fn(char) -> bool, i: int)
    requires
        0 <= i <= s.len(),
        forall|j: int| 0 <= j < i ==> p(s[j]),
        i == s.len() || !p(s[i]),
    ensures
        drop_while(s, p) == s.skip(i),
    decreases s.len(),
{
    if i > 0 {
        assert(p(s[0]));
        lemma_drop_while(s.skip(1), p, i - 1);
        assert(s.skip(1).skip(i - 1) =~= s.skip(i));
    } else {
        assert(s.skip(0) =~= s);
    }
}

pub proof fn lemma_drop_while_end(s: Text, p: spec_fn(char) -> bool, i: int)
    requires
        0 <= i <= s.len(),
        forall|j: int| i <= j < s.len() ==> p(s[j]),
        i == 0 || !p(s[i - 1]),
    ensures
        drop_while_end(s, p) == s.take(i),
    decreases s.len(),
{
    if i < s.len() {
        assert(p(s[s.len() - 1]));
        lemma_drop_while_end(s.drop_last(), p, i);
        assert(s.drop_last().take(i) =~= s.take(i));
    } else {
        assert(s.take(i) =~= s);
    }
}

pub proof fn lemma_word_len(s: Text, i: int)
    requires
        0 <= i <= s.len(),
        forall|j: int| 0 <= j < i ==> !is_space(s[j]),
        i == s.len() || is_space(s[i]),
    ensures
        word_len(s) == i,
    decreases s.len(),
{
    if i > 0 {
        assert(!is_space(s[0]));
        lemma_word_len(s.skip(1), i - 1);
    }
}

// Executable operations.

/// Copies the characters of `s` into a vector.
pub fn chars_of(s: &str) -> (r: Vec<char>)
    ensures
        r@ == s@,
{
    let mut out: Vec<char> = Vec::new();
    for c in it: s.chars()
        invariant
            out@ == it.seq().take(it.index() as int),
            it.seq() == s@,
    {
        out.push(c);
    }
    out
}

/// The characters from index `from` up to `to` as a string.
pub fn string_of(v: &Vec<char>, from: usize, to: usize) -> (r: String)
    requires
        from <= to <= v.len(),
    ensures
        r@ == v@.subrange(from as int, to as int),
{
    let mut out = String::new();
    let mut i: usize = from;
    while i < to
        invariant
            from <= i <= to <= v.len(),
            out@ == v@.subrange(from as int, i as int),
        decreases to - i,
    {
        out.push(v[i]);
        i = i + 1;
        assert(v@.subrange(from as int, i as int) =~= v@.subrange(from as int, i - 1).push(
            v@[i - 1],
        ));
    }
    out
}

/// Whether two texts are equal.
pub fn same(a: &str, b: &str) -> (r: bool)
    ensures
        r == (a@ == b@),
{
    let x = chars_of(a);
    let y = chars_of(b);
    if x.len() != y.len() {
        return false;
    }
    let mut i: usize = 0;
    while i < x.len()
        invariant
            i <= x.len() == y.len(),
            x@ == a@,
            y@ == b@,
            forall|j: int| 0 <= j < i ==> x[j] == y[j],
        decreases x.len() - i,
    {
        if x[i] != y[i] {
            assert(a@[i as int] != b@[i as int]);
            return false;
        }
        i = i + 1;
    }
    assert(x@ =~= y@);
    true
}

pub fn empty(s: &str) -> (r: bool)
    ensures
        r == (s@.len() == 0),
{
    s.is_empty()
}

/// Whether `a` comes strictly before `b`.
pub fn before(a: &str, b: &str) -> (r: bool)
    ensures
        r == text_lt(a@, b@),
{
    let x = chars_of(a);
    let y = chars_of(b);
    let mut i: usize = 0;
    while i < x.len() && i < y.len() && x[i] == y[i]
        invariant
            i <= x.len(),
            i <= y.len(),
            x@ == a@,
            y@ == b@,
            x@.take(i as int) == y@.take(i as int),
        decreases x.len() - i,
    {
        i = i + 1;
        assert(x@.take(i as int) =~= x@.take(i - 1).push(x@[i - 1]));
        assert(y@.take(i as int) =~= y@.take(i - 1).push(y@[i - 1]));
    }
    proof {
        lemma_text_lt_skip(x@, y@, i as int);
    }
    if i >= y.len() {
        false
    } else if i >= x.len() {
        true
    } else {
        x[i] < y[i]
    }
}

/// The index of the first `c`, or the length.
fn position(v: &Vec<char>, from: usize, c: char) -> (r: usize)
    requires
        from <= v.len(),
    ensures
        from <= r <= v.len(),
        r == from + find_char(v@.skip(from as int), c),
{
    let mut i: usize = from;
    while i < v.len() && v[i] != c
        invariant
            from <= i <= v.len(),
            forall|j: int| from <= j < i ==> v[j] != c,
        decreases v.len() - i,
    {
        i = i + 1;
    }
    proof {
        lemma_find_char(v@.skip(from as int), c, i - from);
    }
    i
}

pub fn has_char(s: &str, c: char) -> (r: bool)
    ensures
        r == s@.contains(c),
{
    let v = chars_of(s);
    let mut i: usize = 0;
    while i < v.len()
        invariant
            v@ == s@,
            i <= v.len(),
            forall|j: int| 0 <= j < i ==> v[j] != c,
        decreases v.len() - i,
    {
        if v[i] == c {
            assert(s@[i as int] == c);
            return true;
        }
        i = i + 1;
    }
    false
}

/// What stands before and after the first `c`.
pub fn split_once(s: &str, c: char) -> (r: Option<(String, String)>)
    ensures
        match r {
            Some((a, b)) => cut(s@, c) == Some((a@, b@)),
            None => cut(s@, c) is None,
        },
{
    let v = chars_of(s);
    let i: usize = position(&v, 0, c);
    assert(v@.skip(0) =~= v@);
    if i < v.len() {
        let a = string_of(&v, 0, i);
        let b = string_of(&v, i + 1, v.len());
        assert(a@ =~= s@.take(i as int));
        assert(b@ =~= s@.skip(i + 1));
        Some((a, b))
    } else {
        None
    }
}

/// The pieces between the characters `c`.
pub fn split(s: &str, c: char) -> (r: Vec<String>)
    ensures
        views(r@) == split_on(s@, c),
{
    let v = chars_of(s);
    let mut out: Vec<String> = Vec::new();
    let mut from: usize = 0;
    assert(views(out@) + split_on(v@.skip(0), c) =~= split_on(s@, c)) by {
        assert(v@.skip(0) =~= s@);
    }
    loop
        invariant
            from <= v.len(),
            views(out@) + split_on(v@.skip(from as int), c) == split_on(s@, c),
        decreases v.len() - from,
    {
        let i: usize = position(&v, from, c);
        let ghost rest = v@.skip(from as int);
        let ghost prior = out@;
        let piece = string_of(&v, from, i);
        out.push(piece);
        proof {
            assert(views(out@) =~= views(prior).push(piece@));
            assert(piece@ =~= rest.take(i - from));
        }
        if i >= v.len() {
            assert(piece@ =~= rest);
            assert(views(out@) =~= views(prior) + seq![rest]);
            return out;
        }
        proof {
            assert(rest.skip(i - from + 1) =~= v@.skip(i + 1));
            assert(views(prior) + (seq![piece@] + split_on(v@.skip(i + 1), c)) =~= views(out@)
                + split_on(v@.skip(i + 1), c));
        }
        from = i + 1;
    }
}

pub fn space(c: char) -> (r: bool)
    ensures
        r == is_space(c),
{
    ('\u{9}' <= c && c <= '\u{d}') || c == ' ' || c == '\u{85}' || c == '\u{a0}' || c == '\u{1680}'
        || ('\u{2000}' <= c && c <= '\u{200a}') || c == '\u{2028}' || c == '\u{2029}'
        || c == '\u{202f}' || c == '\u{205f}' || c == '\u{3000}'
}

pub fn control(c: char) -> (r: bool)
    ensures
        r == is_control(c),
{
    c <= '\u{1f}' || ('\u{7f}' <= c && c <= '\u{9f}')
}

/// `s` without white space at either end.
pub fn trimmed(s: &str) -> (r: String)
    ensures
        r@ == trim(s@),
{
    let v = chars_of(s);
    let ghost p = |c: char| is_space(c);
    let mut i: usize = 0;
    while i < v.len() && space(v[i])
        invariant
            i <= v.len(),
            forall|j: int| 0 <= j < i ==> is_space(v[j]),
        decreases v.len() - i,
    {
        i = i + 1;
    }
    proof {
        lemma_drop_while(s@, p, i as int);
    }
    let mut k: usize = v.len();
    while k > i && space(v[k - 1])
        invariant
            i <= k <= v.len(),
            forall|j: int| k <= j < v.len() ==> is_space(v[j]),
        decreases k,
    {
        k = k - 1;
    }
    proof {
        let t = s@.skip(i as int);
        lemma_drop_while_end(t, p, k - i);
        assert(t.take(k - i) =~= v@.subrange(i as int, k as int));
    }
    string_of(&v, i, k)
}

/// `s` without white space at its start.
pub fn trimmed_start(s: &str) -> (r: String)
    ensures
        r@ == trim_start(s@),
{
    let v = chars_of(s);
    let mut i: usize = 0;
    while i < v.len() && space(v[i])
        invariant
            i <= v.len(),
            forall|j: int| 0 <= j < i ==> is_space(v[j]),
        decreases v.len() - i,
    {
        i = i + 1;
    }
    proof {
        lemma_drop_while(s@, |c: char| is_space(c), i as int);
        assert(v@.subrange(i as int, v@.len() as int) =~= s@.skip(i as int));
    }
    string_of(&v, i, v.len())
}

/// `s` without quote characters at either end.
pub fn unquoted(s: &str) -> (r: String)
    ensures
        r@ == trim_quotes(s@),
{
    let v = chars_of(s);
    let ghost p = |c: char| is_quote(c);
    let mut i: usize = 0;
    while i < v.len() && (v[i] == '\'' || v[i] == '"')
        invariant
            i <= v.len(),
            forall|j: int| 0 <= j < i ==> is_quote(v[j]),
        decreases v.len() - i,
    {
        i = i + 1;
    }
    proof {
        lemma_drop_while(s@, p, i as int);
    }
    let mut k: usize = v.len();
    while k > i && (v[k - 1] == '\'' || v[k - 1] == '"')
        invariant
            i <= k <= v.len(),
            forall|j: int| k <= j < v.len() ==> is_quote(v[j]),
        decreases k,
    {
        k = k - 1;
    }
    proof {
        let t = s@.skip(i as int);
        lemma_drop_while_end(t, p, k - i);
        assert(t.take(k - i) =~= v@.subrange(i as int, k as int));
    }
    string_of(&v, i, k)
}

/// `s` without trailing carriage returns and line feeds.
pub fn without_eol(s: &str) -> (r: String)
    ensures
        r@ == trim_eol(s@),
{
    let v = chars_of(s);
    let mut k: usize = v.len();
    while k > 0 && (v[k - 1] == '\r' || v[k - 1] == '\n')
        invariant
            k <= v.len(),
            forall|j: int| k <= j < v.len() ==> (v[j] == '\r' || v[j] == '\n'),
        decreases k,
    {
        k = k - 1;
    }
    proof {
        lemma_drop_while_end(s@, |c: char| c == '\r' || c == '\n', k as int);
        assert(s@.take(k as int) =~= v@.subrange(0, k as int));
    }
    string_of(&v, 0, k)
}

/// The lines of `s`.
pub fn lines_of(s: &str) -> (r: Vec<String>)
    ensures
        views(r@) == lines(s@),
{
    let v = chars_of(s);
    let mut out: Vec<String> = Vec::new();
    let mut from: usize = 0;
    assert(views(out@) + lines(v@.skip(0)) =~= lines(s@)) by {
        assert(v@.skip(0) =~= s@);
    }
    while from < v.len()
        invariant
            from <= v.len(),
            views(out@) + lines(v@.skip(from as int)) == lines(s@),
        decreases v.len() - from,
    {
        let i: usize = position(&v, from, '\n');
        let ghost rest = v@.skip(from as int);
        let ghost prior = out@;
        if i >= v.len() {
            let piece = string_of(&v, from, i);
            out.push(piece);
            proof {
                assert(piece@ =~= rest);
                assert(views(out@) =~= views(prior) + seq![rest]);
                assert(lines(v@.skip(v@.len() as int)) =~= Seq::empty());
                assert(views(out@) + lines(v@.skip(v@.len() as int)) =~= views(out@));
            }
            from = v.len();
        } else {
            let to: usize = if i > from && v[i - 1] == '\r' { i - 1 } else { i };
            let piece = string_of(&v, from, to);
            out.push(piece);
            proof {
                assert(views(out@) =~= views(prior).push(piece@));
                assert(piece@ =~= strip_cr(rest.take(i - from)));
                assert(rest.skip(i - from + 1) =~= v@.skip(i + 1));
                assert(views(prior) + (seq![piece@] + lines(v@.skip(i + 1))) =~= views(out@)
                    + lines(v@.skip(i + 1)));
            }
            from = i + 1;
        }
    }
    proof {
        assert(lines(v@.skip(from as int)) =~= Seq::empty());
        assert(views(out@) + Seq::<Text>::empty() =~= views(out@));
    }
    out
}

/// The parts with `sep` between neighbours.
pub fn joined(parts: &Vec<String>, sep: &str) -> (r: String)
    ensures
        r@ == join(views(parts@), sep@),
{
    let mut out = String::new();
    let mut i: usize = 0;
    while i < parts.len()
        invariant
            i <= parts.len(),
            out@ == join(views(parts@).take(i as int), sep@),
        decreases parts.len() - i,
    {
        let ghost all = views(parts@);
        if i > 0 {
            out.append(sep);
        }
        out.append(parts[i].as_str());
        i = i + 1;
        proof {
            assert(all.take(i as int).drop_last() =~= all.take(i - 1));
            if i == 1 {
                assert(Seq::<char>::empty() + parts[0]@ =~= parts[0]@);
            }
        }
    }
    assert(views(parts@).take(i as int) =~= views(parts@));
    out
}

pub fn begins(s: &str, p: &str) -> (r: bool)
    ensures
        r == starts_with(s@, p@),
{
    let v = chars_of(s);
    let w = chars_of(p);
    if w.len() > v.len() {
        return false;
    }
    let mut i: usize = 0;
    while i < w.len()
        invariant
            v@ == s@,
            w@ == p@,
            i <= w.len() <= v.len(),
            forall|j: int| 0 <= j < i ==> v[j] == w[j],
        decreases w.len() - i,
    {
        if v[i] != w[i] {
            assert(s@.take(p@.len() as int)[i as int] != p@[i as int]);
            return false;
        }
        i = i + 1;
    }
    assert(s@.take(p@.len() as int) =~= p@);
    true
}

pub fn ends(s: &str, p: &str) -> (r: bool)
    ensures
        r == ends_with(s@, p@),
{
    let v = chars_of(s);
    let w = chars_of(p);
    if w.len() > v.len() {
        return false;
    }
    let at: usize = v.len() - w.len();
    let tail = string_of(&v, at, v.len());
    assert(tail@ =~= s@.skip(s@.len() - p@.len()));
    same(tail.as_str(), p)
}

pub fn contains(s: &str, p: &str) -> (r: bool)
    ensures
        r == contains_text(s@, p@),
{
    let v = chars_of(s);
    let w = chars_of(p);
    if w.len() > v.len() {
        return false;
    }
    let mut i: usize = 0;
    while i <= v.len() - w.len()
        invariant
            v@ == s@,
            w@ == p@,
            w.len() <= v.len(),
            i <= v.len() - w.len() + 1,
            forall|j: int| 0 <= j < i ==> #[trigger] s@.subrange(j, j + p@.len()) != p@,
        decreases v.len() - i,
    {
        let mut k: usize = 0;
        while k < w.len() && v[i + k] == w[k]
            invariant
                i <= v.len() - w.len(),
                w.len() <= v.len(),
                k <= w.len(),
                forall|j: int| 0 <= j < k ==> v[i + j] == w[j],
            decreases w.len() - k,
        {
            k = k + 1;
        }
        let ghost piece = s@.subrange(i as int, i + p@.len());
        if k == w.len() {
            assert(piece =~= p@);
            return true;
        }
        assert(piece[k as int] != p@[k as int]);
        if i == v.len() - w.len() {
            return false;
        }
        i = i + 1;
    }
    false
}

/// The pieces of `s` between the places where `p`, which is not empty, stands.
pub fn split_text(s: &str, p: &str) -> (r: Vec<String>)
    requires
        p@.len() > 0,
    ensures
        views(r@) == split_by(s@, p@, 0),
{
    let v = chars_of(s);
    let w = chars_of(p);
    let mut out: Vec<String> = Vec::new();
    let mut from: usize = 0;
    let mut i: usize = 0;
    assert(views(out@) + split_by(s@, p@, 0) =~= split_by(s@, p@, 0));
    while w.len() <= v.len() && i <= v.len() - w.len()
        invariant
            v@ == s@,
            w@ == p@,
            w@.len() > 0,
            from <= i,
            from <= v.len(),
            i <= v.len(),
            find_text(s@, p@, from as int) == find_text(s@, p@, i as int),
            views(out@) + split_by(s@, p@, from as int) == split_by(s@, p@, 0),
        decreases v.len() - i,
    {
        let mut k: usize = 0;
        while k < w.len() && v[i + k] == w[k]
            invariant
                w.len() <= v.len(),
                i <= v.len() - w.len(),
                k <= w.len(),
                forall|j: int| 0 <= j < k ==> v[i + j] == w[j],
            decreases w.len() - k,
        {
            k = k + 1;
        }
        if k == w.len() {
            let ghost prior = out@;
            let piece = string_of(&v, from, i);
            out.push(piece);
            proof {
                assert(s@.subrange(i as int, i + p@.len()) =~= p@);
                assert(stands_at(s@, p@, i as int));
                assert(piece@ =~= s@.subrange(from as int, i as int));
                assert(views(out@) =~= views(prior).push(piece@));
                let rest = split_by(s@, p@, i + p@.len());
                assert(views(prior) + (seq![piece@] + rest) =~= views(out@) + rest);
            }
            i = i + w.len();
            from = i;
        } else {
            proof {
                let part = s@.subrange(i as int, i + p@.len());
                assert(part[k as int] != p@[k as int]);
                assert(!stands_at(s@, p@, i as int));
            }
            i = i + 1;
        }
    }
    let ghost prior = out@;
    let piece = string_of(&v, from, v.len());
    out.push(piece);
    proof {
        assert(find_text(s@, p@, from as int) is None);
        assert(piece@ =~= s@.skip(from as int));
        assert(views(out@) =~= views(prior) + seq![piece@]);
    }
    out
}

/// The maximal runs without white space.
pub fn words_of(s: &str) -> (r: Vec<String>)
    ensures
        views(r@) == words(s@),
{
    let v = chars_of(s);
    let mut out: Vec<String> = Vec::new();
    let mut i: usize = 0;
    assert(views(out@) + words(v@.skip(0)) =~= words(s@)) by {
        assert(v@.skip(0) =~= s@);
    }
    while i < v.len()
        invariant
            i <= v.len(),
            views(out@) + words(v@.skip(i as int)) == words(s@),
        decreases v.len() - i,
    {
        let ghost rest = v@.skip(i as int);
        if space(v[i]) {
            assert(rest.skip(1) =~= v@.skip(i + 1));
            i = i + 1;
        } else {
            let from: usize = i;
            let ghost prior = out@;
            while i < v.len() && !space(v[i])
                invariant
                    from <= i <= v.len(),
                    forall|j: int| from <= j < i ==> !is_space(v[j]),
                decreases v.len() - i,
            {
                i = i + 1;
            }
            let piece = string_of(&v, from, i);
            out.push(piece);
            proof {
                lemma_word_len(rest, i - from);
                assert(views(out@) =~= views(prior).push(piece@));
                assert(piece@ =~= rest.take(i - from));
                assert(rest.skip(i - from) =~= v@.skip(i as int));
                assert(views(prior) + (seq![piece@] + words(v@.skip(i as int))) =~= views(out@)
                    + words(v@.skip(i as int)));
            }
        }
    }
    proof {
        assert(words(v@.skip(i as int)) =~= Seq::empty());
        assert(views(out@) + Seq::<Text>::empty() =~= views(out@));
    }
    out
}

fn digit_char(n: u64) -> (c: char)
    requires
        n < 16,
    ensures
        c == digit(n as nat),
{
    if n == 0 { '0' } else if n == 1 { '1' } else if n == 2 { '2' } else if n == 3 { '3' }
    else if n == 4 { '4' } else if n == 5 { '5' } else if n == 6 { '6' } else if n == 7 { '7' }
    else if n == 8 { '8' } else if n == 9 { '9' } else if n == 10 { 'a' } else if n == 11 { 'b' }
    else if n == 12 { 'c' } else if n == 13 { 'd' } else if n == 14 { 'e' } else { 'f' }
}

/// The decimal notation of `n`.
pub fn decimal_of(n: u64) -> (r: String)
    ensures
        r@ == decimal(n as nat),
    decreases n,
{
    if n < 10 {
        let mut out = String::new();
        out.push(digit_char(n));
        assert(out@ =~= seq![digit(n as nat)]);
        out
    } else {
        let mut out = decimal_of(n / 10);
        out.push(digit_char(n % 10));
        out
    }
}

/// The low `places` hexadecimal digits of `n`.
pub fn hex_of(n: u64, places: usize) -> (r: String)
    ensures
        r@ == hex(n as nat, places as nat),
    decreases places,
{
    if places == 0 {
        String::new()
    } else {
        let mut out = hex_of(n / 16, places - 1);
        out.push(digit_char(n % 16));
        out
    }
}

/// Reads an unsigned decimal number.
pub fn number(s: &str) -> (r: Option<usize>)
    ensures
        r == parse_number(s@),
{
    let v = chars_of(s);
    let from: usize = if v.len() > 0 && v[0] == '+' { 1 } else { 0 };
    let ghost d = unsigned(s@);
    assert(d =~= v@.skip(from as int));
    if from == v.len() {
        return None;
    }
    let mut i: usize = from;
    let mut value: usize = 0;
    let mut big = false;
    while i < v.len()
        invariant
            from <= i <= v.len(),
            d == v@.skip(from as int),
            forall|j: int| 0 <= j < i - from ==> is_digit(#[trigger] d[j]),
            big ==> digits_value(d.take(i - from)) > usize::MAX,
            !big ==> digits_value(d.take(i - from)) == value,
            v@ == s@,
            d == unsigned(s@),
        decreases v.len() - i,
    {
        let c: char = v[i];
        assert(c == d[i - from]);
        if !('0' <= c && c <= '9') {
            assert(!is_digit(d[i - from]));
            return None;
        }
        proof {
            assert(d.take(i - from + 1).drop_last() =~= d.take(i - from));
            assert(digits_value(d.take(i - from + 1)) == 10 * digits_value(d.take(i - from)) + (
            c as nat - '0' as nat) as nat);
        }
        let step: usize = (c as u32 - '0' as u32) as usize;
        if !big {
            match value.checked_mul(10) {
                Some(ten) => match ten.checked_add(step) {
                    Some(sum) => {
                        value = sum;
                    },
                    None => {
                        big = true;
                    },
                },
                None => {
                    big = true;
                },
            }
        }
        i = i + 1;
    }
    assert(d.take(i - from) =~= d);
    if big {
        None
    } else {
        Some(value)
    }
}

/// `s` with ASCII capitals made small.
pub fn lowered(s: &str) -> (r: String)
    ensures
        r@ == lower_text(s@),
{
    let v = chars_of(s);
    let mut out = String::new();
    let mut i: usize = 0;
    while i < v.len()
        invariant
            i <= v.len(),
            v@ == s@,
            out@ == lower_text(s@.take(i as int)),
        decreases v.len() - i,
    {
        let c: char = v[i];
        if 'A' <= c && c <= 'Z' {
            out.push((c as u32 + 32) as u8 as char);
        } else {
            out.push(c);
        }
        i = i + 1;
        assert(lower_text(s@.take(i as int)) =~= lower_text(s@.take(i - 1)).push(lower(s@[i - 1])));
    }
    assert(s@.take(i as int) =~= s@);
    out
}

pub fn cat2(a: &str, b: &str) -> (r: String)
    ensures
        r@ == a@ + b@,
{
    let mut out = String::from_str(a);
    out.append(b);
    out
}

pub fn cat3(a: &str, b: &str, c: &str) -> (r: String)
    ensures
        r@ == a@ + b@ + c@,
{
    let mut out = cat2(a, b);
    out.append(c);
    out
}

pub fn cat4(a: &str, b: &str, c: &str, d: &str) -> (r: String)
    ensures
        r@ == a@ + b@ + c@ + d@,
{
    let mut out = cat3(a, b, c);
    out.append(d);
    out
}

pub fn cat5(a: &str, b: &str, c: &str, d: &str, e: &str) -> (r: String)
    ensures
        r@ == a@ + b@ + c@ + d@ + e@,
{
    let mut out = cat4(a, b, c, d);
    out.append(e);
    out
}

/// Whether the list holds `s`.
pub fn list_has(list: &Vec<String>, s: &str) -> (r: bool)
    ensures
        r == views(list@).contains(s@),
{
    let mut i: usize = 0;
    while i < list.len()
        invariant
            i <= list.len(),
            forall|j: int| 0 <= j < i ==> views(list@)[j] != s@,
        decreases list.len() - i,
    {
        if same(list[i].as_str(), s) {
            assert(views(list@)[i as int] == s@);
            return true;
        }
        i = i + 1;
    }
    false
}

/// A copy of the list.
pub fn copy_list(list: &Vec<String>) -> (r: Vec<String>)
    ensures
        r@ == list@,
{
    let mut out: Vec<String> = Vec::new();
    let mut i: usize = 0;
    while i < list.len()
        invariant
            i <= list.len(),
            out@ == list@.take(i as int),
        decreases list.len() - i,
    {
        out.push(list[i].clone());
        i = i + 1;
        assert(list@.take(i as int) =~= list@.take(i - 1).push(list@[i - 1]));
    }
    assert(list@.take(i as int) =~= list@);
    out
}

/// Whether two lists hold the same texts.
pub fn same_texts(a: &Vec<String>, b: &Vec<String>) -> (r: bool)
    ensures
        r == (views(a@) == views(b@)),
{
    if a.len() != b.len() {
        assert(views(a@).len() != views(b@).len());
        return false;
    }
    let mut i: usize = 0;
    while i < a.len()
        invariant
            i <= a@.len() == b@.len(),
            forall|j: int| 0 <= j < i ==> views(a@)[j] == #[trigger] views(b@)[j],
        decreases a@.len() - i,
    {
        if !same(a[i].as_str(), b[i].as_str()) {
            assert(views(a@)[i as int] != views(b@)[i as int]);
            return false;
        }
        i = i + 1;
    }
    assert(views(a@) =~= views(b@));
    true
}

/// The ending of a noun for `n` things.
pub open spec fn plural(n: nat) -> Text {
    if n == 1 {
        ""@
    } else {
        "s"@
    }
}

pub fn plural_ending(n: usize) -> (r: &'static str)
    ensures
        r@ == plural(n as nat),
{
    if n == 1 {
        ""
    } else {
        "s"
    }
}

} // verus!
