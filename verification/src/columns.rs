//! Text in a fixed number of terminal columns.

use vstd::prelude::*;
use crate::outside::{char_columns, char_columns_of, columns_of, text_columns};
use crate::text::{cat2, cat3, chars_of, join, joined, string_of, views, words, words_of, Text};

verus! {

/// `n` spaces.
pub open spec fn blanks(n: nat) -> Text {
    Seq::new(n, |i: int| ' ')
}

pub fn spaces(n: usize) -> (r: String)
    ensures
        r@ == blanks(n as nat),
{
    let mut out = String::new();
    let mut i: usize = 0;
    assert(out@ =~= blanks(0));
    while i < n
        invariant
            i <= n,
            out@ == blanks(i as nat),
        decreases n - i,
    {
        out.push(' ');
        i = i + 1;
        assert(blanks(i as nat) =~= blanks((i - 1) as nat).push(' '));
    }
    out
}

/// `a - b`, or 0 where that is negative.
pub open spec fn less(a: usize, b: usize) -> nat {
    if a > b {
        (a - b) as nat
    } else {
        0
    }
}

pub open spec fn total(widths: Seq<usize>) -> nat
    decreases widths.len(),
{
    if widths.len() == 0 {
        0
    } else {
        total(widths.drop_last()) + widths.last() as nat
    }
}

/// How many leading characters take no more than `budget` columns.
pub open spec fn room(widths: Seq<usize>, budget: int) -> int
    decreases widths.len(),
{
    if widths.len() == 0 || widths[0] > budget {
        0
    } else {
        1 + room(widths.skip(1), budget - widths[0])
    }
}

/// `s`, or where its characters of these widths take more than `width` columns, as many of
/// them as leave a column for the ellipsis.
pub open spec fn fitted(s: Text, widths: Seq<usize>, width: usize) -> Text {
    if width == 0 {
        Seq::empty()
    } else if total(widths) <= width {
        s
    } else if width == 1 {
        "…"@
    } else {
        s.take(room(widths, width - 1)).push('…')
    }
}

/// The columns of a character; a control character takes none.
pub open spec fn char_width(c: char) -> usize {
    match char_columns(c) {
        Some(n) => n,
        None => 0,
    }
}

pub open spec fn char_widths(s: Text) -> Seq<usize> {
    Seq::new(s.len(), |i: int| char_width(s[i]))
}

/// `s` in at most `width` columns.
pub open spec fn fit_text(s: Text, width: usize) -> Text {
    fitted(s, char_widths(s), width)
}

pub proof fn lemma_total_step(w: Seq<usize>, i: int)
    requires
        0 <= i < w.len(),
    ensures
        total(w.take(i + 1)) == total(w.take(i)) + w[i],
{
    assert(w.take(i + 1).drop_last() =~= w.take(i));
}

pub proof fn lemma_total_grows(w: Seq<usize>, i: int)
    requires
        0 <= i <= w.len(),
    ensures
        total(w.take(i)) <= total(w),
    decreases w.len() - i,
{
    if i == w.len() {
        assert(w.take(i) =~= w);
    } else {
        lemma_total_step(w, i);
        lemma_total_grows(w, i + 1);
    }
}

proof fn lemma_room(w: Seq<usize>, i: int, budget: int)
    requires
        0 <= i <= w.len(),
        total(w.take(i)) <= budget,
        i == w.len() || total(w.take(i)) + w[i] > budget,
    ensures
        room(w, budget) == i,
    decreases i,
{
    if i == 0 {
        assert(total(w.take(0)) == 0);
    } else {
        let rest = w.skip(1);
        assert forall|k: int| 0 <= k <= rest.len() implies total(#[trigger] rest.take(k)) + w[0] == total(
            w.take(k + 1),
        ) by {
            lemma_total_shift(w, k);
        }
        assert(total(rest.take(i - 1)) + w[0] == total(w.take(i)));
        lemma_room(rest, i - 1, budget - w[0]);
    }
}

proof fn lemma_total_shift(w: Seq<usize>, k: int)
    requires
        0 <= k < w.len(),
    ensures
        total(w.skip(1).take(k)) + w[0] == total(w.take(k + 1)),
    decreases k,
{
    lemma_total_step(w, k);
    if k == 0 {
        assert(total(w.take(0)) == 0);
        assert(total(w.skip(1).take(0)) == 0);
    } else {
        lemma_total_shift(w, k - 1);
        lemma_total_step(w.skip(1), k - 1);
    }
}

/// What `room` keeps takes no more than the budget.
pub proof fn lemma_room_fits(w: Seq<usize>, budget: int)
    requires
        budget >= 0,
    ensures
        0 <= room(w, budget) <= w.len(),
        total(w.take(room(w, budget))) <= budget,
    decreases w.len(),
{
    if w.len() == 0 || w[0] > budget {
        assert(total(w.take(0)) == 0);
    } else {
        let rest = w.skip(1);
        lemma_room_fits(rest, budget - w[0]);
        let k = room(rest, budget - w[0]);
        lemma_total_shift(w, k);
    }
}

/// A fitted text takes no more columns than it was given, its ellipsis counted as one.
pub proof fn law_fit(s: Text, width: usize)
    requires
        char_width('…') == 1,
    ensures
        total(char_widths(fit_text(s, width))) <= width,
{
    reveal_strlit("…");
    let w = char_widths(s);
    if width == 0 {
        assert(char_widths(Seq::<char>::empty()) =~= Seq::<usize>::empty());
    } else if total(w) <= width {
    } else if width == 1 {
        assert("…"@ =~= seq!['…']);
        let one = char_widths("…"@);
        assert(one =~= seq![1usize]);
        lemma_total_step(one, 0);
        assert(one.take(1) =~= one);
        assert(total(one.take(0)) == 0);
    } else {
        let k = room(w, width - 1);
        lemma_room_fits(w, width - 1);
        let out = s.take(k).push('…');
        let x = char_widths(out);
        assert(x.take(k) =~= w.take(k));
        lemma_total_step(x, k);
        assert(x.take(k + 1) =~= x);
    }
}

/// Fits `value` by the widths of its characters.
pub fn fit_measured(value: &str, widths: &Vec<usize>, width: usize) -> (r: String)
    requires
        widths@.len() == value@.len(),
    ensures
        r@ == fitted(value@, widths@, width),
{
    if width == 0 {
        return String::new();
    }
    let v = chars_of(value);
    let ghost w = widths@;
    let mut used: usize = 0;
    let mut i: usize = 0;
    let mut kept: usize = 0;
    let mut open = true;
    while i < widths.len() && widths[i] <= width - used
        invariant
            i <= widths.len(),
            width > 0,
            w == widths@,
            used <= width,
            used == total(w.take(i as int)),
            kept <= i,
            open ==> kept == i && used <= width - 1,
            !open ==> total(w.take(kept as int)) <= width - 1 && kept < i && total(
                w.take(kept as int),
            ) + w[kept as int] > width - 1,
        decreases widths.len() - i,
    {
        proof {
            lemma_total_step(w, i as int);
        }
        if open {
            if widths[i] <= width - 1 - used {
                kept = i + 1;
            } else {
                open = false;
            }
        }
        used = used + widths[i];
        i = i + 1;
    }
    if i == widths.len() {
        proof {
            assert(w.take(i as int) =~= w);
        }
        return value.to_owned();
    }
    proof {
        lemma_total_step(w, i as int);
        lemma_total_grows(w, i + 1);
    }
    if width == 1 {
        return String::from_str("…");
    }
    proof {
        if open {
            lemma_room(w, kept as int, width - 1);
        } else {
            lemma_room(w, kept as int, width - 1);
        }
    }
    let mut out = string_of(&v, 0, kept);
    assert(out@ =~= value@.take(kept as int));
    out.push('…');
    out
}

fn measure(value: &str) -> (r: Vec<usize>)
    ensures
        r@ == char_widths(value@),
{
    let v = chars_of(value);
    let mut out: Vec<usize> = Vec::new();
    let mut i: usize = 0;
    while i < v.len()
        invariant
            i <= v.len(),
            v@ == value@,
            out@ == char_widths(value@).take(i as int),
        decreases v.len() - i,
    {
        let n: usize = match char_columns_of(v[i]) {
            Some(n) => n,
            None => 0,
        };
        out.push(n);
        i = i + 1;
        assert(char_widths(value@).take(i as int) =~= char_widths(value@).take(i - 1).push(
            char_widths(value@)[i - 1],
        ));
    }
    assert(char_widths(value@).take(i as int) =~= char_widths(value@));
    out
}

/// `value` in at most `width` columns.
pub fn fit(value: &str, width: usize) -> (r: String)
    ensures
        r@ == fit_text(value@, width),
{
    let widths = measure(value);
    fit_measured(value, &widths, width)
}

/// `value`, which takes `columns` columns, with spaces up to `width`.
pub fn pad_measured(value: &str, columns: usize, width: usize) -> (r: String)
    ensures
        r@ == value@ + blanks(less(width, columns)),
{
    let n: usize = if width > columns {
        width - columns
    } else {
        0
    };
    cat2(value, spaces(n).as_str())
}

/// `value` in `width` columns.
pub open spec fn pad_text(value: Text, width: usize) -> Text {
    let f = fit_text(value, width);
    f + blanks(less(width, text_columns(f)))
}

pub fn pad(value: &str, width: usize) -> (r: String)
    ensures
        r@ == pad_text(value@, width),
{
    let f = fit(value, width);
    let n: usize = columns_of(f.as_str());
    pad_measured(f.as_str(), n, width)
}

/// The line that begins with `current` and takes as many of the words of `rest` as fit.
pub open spec fn fill_line(current: Text, rest: Seq<Text>, width: usize) -> (Text, int)
    decreases rest.len(),
{
    if rest.len() == 0 {
        (current, 0)
    } else {
        let next = current + " "@ + rest[0];
        if text_columns(next) > width {
            (current, 0)
        } else {
            let (line, n) = fill_line(next, rest.skip(1), width);
            (line, n + 1)
        }
    }
}

/// The words in at most `maximum` lines; the last line holds all that is left.
pub open spec fn wrap_words(ws: Seq<Text>, width: usize, maximum: nat) -> Seq<Text>
    decreases maximum,
{
    if maximum == 0 || ws.len() == 0 {
        Seq::empty()
    } else if maximum == 1 {
        seq![fit_text(join(ws, " "@), width)]
    } else {
        let (line, n) = fill_line(ws[0], ws.skip(1), width);
        seq![fit_text(line, width)] + wrap_words(ws.skip(n + 1), width, (maximum - 1) as nat)
    }
}

/// `value` in lines of `width` columns, at least one and at most `maximum`.
pub open spec fn wrap_text(value: Text, width: usize, maximum: nat) -> Seq<Text> {
    let out = wrap_words(words(value), width, maximum);
    if maximum > 0 && out.len() == 0 {
        seq![Seq::empty()]
    } else {
        out
    }
}

pub fn wrap(value: &str, width: usize, maximum: usize) -> (r: Vec<String>)
    ensures
        views(r@) == wrap_text(value@, width, maximum as nat),
{
    let mut out: Vec<String> = Vec::new();
    if maximum == 0 {
        assert(views(out@) =~= Seq::<Text>::empty());
        return out;
    }
    let ws = words_of(value);
    let ghost all = views(ws@);
    let mut index: usize = 0;
    let ghost whole = wrap_words(all, width, maximum as nat);
    proof {
        assert(all.skip(0) =~= all);
        assert(views(out@) + whole =~= whole);
    }
    while index < ws.len() && out.len() < maximum
        invariant
            index <= ws.len(),
            all == views(ws@),
            out.len() <= maximum,
            whole == wrap_words(all, width, maximum as nat),
            views(out@) + wrap_words(
                all.skip(index as int),
                width,
                (maximum - out.len()) as nat,
            ) == whole,
        decreases ws.len() - index,
    {
        let ghost prior = out@;
        let ghost left = all.skip(index as int);
        if out.len() + 1 == maximum {
            let mut tail: Vec<String> = Vec::new();
            let mut k: usize = index;
            while k < ws.len()
                invariant
                    index <= k <= ws.len(),
                    all == views(ws@),
                    views(tail@) == all.subrange(index as int, k as int),
                decreases ws.len() - k,
            {
                let ghost before = tail@;
                tail.push(ws[k].clone());
                k = k + 1;
                proof {
                    assert(views(tail@) =~= views(before).push(all[k - 1]));
                    assert(all.subrange(index as int, k as int) =~= all.subrange(
                        index as int,
                        k - 1,
                    ).push(all[k - 1]));
                }
            }
            let line = fit(joined(&tail, " ").as_str(), width);
            out.push(line);
            proof {
                assert(views(tail@) =~= left);
                assert(views(out@) =~= views(prior).push(line@));
                assert(views(prior) + seq![line@] =~= views(out@));
                assert(whole == views(out@));
            }
            index = ws.len();
            proof {
                assert(all.skip(index as int).len() == 0);
                assert(views(out@) + Seq::<Text>::empty() =~= views(out@));
            }
        } else {
            let mut current = ws[index].clone();
            let start: usize = index;
            index = index + 1;
            let mut open = true;
            let ghost target = fill_line(left[0], left.skip(1), width);
            assert(left.skip(1) =~= all.skip(index as int));
            while open && index < ws.len()
                invariant
                    start < index <= ws.len(),
                    all == views(ws@),
                    open ==> ({
                        let (line, n) = fill_line(current@, all.skip(index as int), width);
                        target == (line, n + (index - start - 1))
                    }),
                    !open ==> target == (current@, index - start - 1),
                decreases ws.len() - index, (if open { 1int } else { 0int }),
            {
                let ghost rest = all.skip(index as int);
                assert(rest[0] == ws@[index as int]@);
                let candidate = cat3(current.as_str(), " ", ws[index].as_str());
                if columns_of(candidate.as_str()) > width {
                    open = false;
                } else {
                    assert(rest.skip(1) =~= all.skip(index + 1));
                    current = candidate;
                    index = index + 1;
                }
            }
            let line = fit(current.as_str(), width);
            out.push(line);
            proof {
                if open {
                    assert(all.skip(index as int).len() == 0);
                }
                assert(target == (current@, index - start - 1));
                assert(left.skip(target.1 + 1) =~= all.skip(index as int));
                assert(views(out@) =~= views(prior).push(line@));
                let more = wrap_words(
                    all.skip(index as int),
                    width,
                    (maximum - out.len()) as nat,
                );
                assert(views(prior) + (seq![line@] + more) =~= views(out@) + more);
            }
        }
    }
    proof {
        assert(views(out@) + Seq::<Text>::empty() =~= views(out@));
        assert(whole == views(out@));
    }
    if out.len() == 0 {
        out.push(String::new());
        assert(views(out@) =~= seq![Seq::<char>::empty()]);
    }
    out
}

} // verus!
