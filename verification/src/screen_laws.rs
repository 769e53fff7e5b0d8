//! The screen stays within its columns.

use vstd::prelude::*;
use crate::columns::{
    blanks, char_width, char_widths, fit_text, law_fit, less, pad_text, total, wrap_text, wrap_words,
};
use crate::config_tui::{
    at_least, at_most, divider, groups_of, normalized, ConfigScreen, ConfigTuiState, ScopeGroup,
    THREE_COLUMN_MIN_WIDTH, WIDE_LAYOUT_MIN_WIDTH,
};
use crate::config_ui::ConfigRowView;
use crate::config_view::{
    aligned_text, assembled, body_height, body_lines, configured_text, detail_text, detail_width,
    empty_lines, first_lines, footer_height, header_height, hint_line, left_width, line_at,
    marked_name, marker_text, one_catalog, range_text, right_width, scope_label, scope_value,
    scope_width, screen_lines, skill_lines, skill_width, stacked_parts, stacked_text, stacked_whole,
    summary_text, tail_start, three_columns, title_text, usable_width, wide_left, wrapped_parts,
};
use crate::model::SkillSelection;
use crate::outside::text_columns;
use crate::text::{words, Text};

verus! {

/// The columns of a text, character by character.
pub open spec fn columns(s: Text) -> nat {
    total(char_widths(s))
}

/// The signs that the screen itself draws take one column each.
pub open spec fn signs_are_narrow() -> bool {
    &&& char_width('…') == 1
    &&& char_width(' ') == 1
    &&& char_width('›') == 1
    &&& char_width('•') == 1
    &&& char_width('│') == 1
}

/// All characters of a text stand in a line.
pub open spec fn drawn_from(s: Text, line: Text) -> bool {
    forall|i: int| 0 <= i < s.len() ==> line.contains(#[trigger] s[i])
}

/// The columns of texts that are made of the characters of a line add up character by
/// character. This holds of plain text; sequences that a terminal draws as one sign are the
/// exception.
pub open spec fn adds_up(line: Text) -> bool {
    forall|s: Text| drawn_from(s, line) ==> #[trigger] text_columns(s) == columns(s)
}

proof fn lemma_total_concat(a: Seq<usize>, b: Seq<usize>)
    ensures
        total(a + b) == total(a) + total(b),
    decreases b.len(),
{
    if b.len() == 0 {
        assert(a + b =~= a);
    } else {
        assert((a + b).drop_last() =~= a + b.drop_last());
        lemma_total_concat(a, b.drop_last());
    }
}

proof fn lemma_columns_concat(a: Text, b: Text)
    ensures
        columns(a + b) == columns(a) + columns(b),
{
    assert(char_widths(a + b) =~= char_widths(a) + char_widths(b));
    lemma_total_concat(char_widths(a), char_widths(b));
}

proof fn lemma_columns_one(c: char)
    ensures
        columns(seq![c]) == char_width(c),
{
    let w = char_widths(seq![c]);
    assert(w.drop_last() =~= Seq::<usize>::empty());
    assert(total(w.drop_last()) == 0);
}

proof fn lemma_blanks(n: nat)
    requires
        char_width(' ') == 1,
    ensures
        columns(blanks(n)) == n,
    decreases n,
{
    if n == 0 {
        assert(char_widths(blanks(n)) =~= Seq::<usize>::empty());
    } else {
        let m = (n - 1) as nat;
        lemma_blanks(m);
        lemma_columns_one(' ');
        lemma_columns_concat(blanks(m), seq![' ']);
        assert(blanks(n) =~= blanks(m) + seq![' ']);
    }
}

proof fn lemma_middle(a: Text, b: Text, c: Text)
    ensures
        drawn_from(b, a + b + c),
{
    let line = a + b + c;
    assert forall|i: int| 0 <= i < b.len() implies line.contains(#[trigger] b[i]) by {
        assert(line[a.len() + i] == b[i]);
    }
}

/// A padded text takes exactly its columns, where it is measured character by character.
proof fn lemma_pad(value: Text, width: usize, line: Text)
    requires
        signs_are_narrow(),
        adds_up(line),
        drawn_from(pad_text(value, width), line),
    ensures
        columns(pad_text(value, width)) == width,
{
    let f = fit_text(value, width);
    law_fit(value, width);
    assert(drawn_from(f, line)) by {
        assert forall|i: int| 0 <= i < f.len() implies line.contains(#[trigger] f[i]) by {
            assert(pad_text(value, width)[i] == f[i]);
        }
    }
    assert(text_columns(f) == columns(f));
    let n = less(width, text_columns(f));
    lemma_blanks(n);
    lemma_columns_concat(f, blanks(n));
}

proof fn lemma_marker(chosen: bool, focused: bool)
    requires
        signs_are_narrow(),
    ensures
        columns(marker_text(chosen, focused)) == 1,
{
    reveal_strlit(" ");
    reveal_strlit("›");
    reveal_strlit("•");
    lemma_columns_one(' ');
    lemma_columns_one('›');
    lemma_columns_one('•');
    assert(" "@ =~= seq![' ']);
    assert("›"@ =~= seq!['›']);
    assert("•"@ =~= seq!['•']);
}

proof fn lemma_divider()
    requires
        signs_are_narrow(),
    ensures
        columns(divider()) == 3,
{
    reveal_strlit(" │ ");
    lemma_columns_one(' ');
    lemma_columns_one('│');
    assert(divider() =~= seq![' '] + seq!['│'] + seq![' ']);
    lemma_columns_concat(seq![' '], seq!['│']);
    lemma_columns_concat(seq![' '] + seq!['│'], seq![' ']);
}

proof fn lemma_aligned(chosen: bool, focused: bool, label: Text, value: Text, width: usize)
    requires
        signs_are_narrow(),
        adds_up(aligned_text(marker_text(chosen, focused), label, value, width)),
    ensures
        columns(aligned_text(marker_text(chosen, focused), label, value, width)) <= width,
{
    let marker = marker_text(chosen, focused);
    let line = aligned_text(marker, label, value, width);
    let n = text_columns(value);
    if 4 + n >= width {
        law_fit(marker + " "@ + label + "  "@ + value, width);
    } else {
        reveal_strlit(" ");
        reveal_strlit("  ");
        let w = (width - 4 - n) as usize;
        let p = pad_text(label, w);
        let none = Seq::<char>::empty();
        assert(line == marker + " "@ + p + "  "@ + value);
        assert(line =~= (marker + " "@) + p + ("  "@ + value));
        lemma_middle(marker + " "@, p, "  "@ + value);
        lemma_pad(label, w, line);
        assert(line =~= (marker + " "@ + p + "  "@) + value + none);
        lemma_middle(marker + " "@ + p + "  "@, value, none);
        assert(text_columns(value) == columns(value));
        lemma_marker(chosen, focused);
        lemma_blanks(1);
        lemma_blanks(2);
        assert(" "@ =~= blanks(1));
        assert("  "@ =~= blanks(2));
        lemma_columns_concat(marker, " "@);
        lemma_columns_concat(marker + " "@, p);
        lemma_columns_concat(marker + " "@ + p, "  "@);
        lemma_columns_concat(marker + " "@ + p + "  "@, value);
    }
}

proof fn lemma_empty_columns()
    ensures
        columns(Seq::<char>::empty()) == 0,
{
    assert(char_widths(Seq::<char>::empty()) =~= Seq::<usize>::empty());
}

proof fn lemma_wrapped(ws: Seq<Text>, width: usize, maximum: nat, i: int)
    requires
        signs_are_narrow(),
        0 <= i < wrap_words(ws, width, maximum).len(),
    ensures
        columns(wrap_words(ws, width, maximum)[i]) <= width,
    decreases maximum,
{
    if maximum == 1 {
        law_fit(crate::text::join(ws, " "@), width);
    } else {
        let (line, n) = crate::columns::fill_line(ws[0], ws.skip(1), width);
        law_fit(line, width);
        if i > 0 {
            lemma_wrapped(ws.skip(n + 1), width, (maximum - 1) as nat, i - 1);
        }
    }
}

proof fn lemma_wrap(value: Text, width: usize, maximum: nat, i: int)
    requires
        signs_are_narrow(),
        0 <= i < wrap_text(value, width, maximum).len(),
    ensures
        columns(wrap_text(value, width, maximum)[i]) <= width,
{
    let out = wrap_words(words(value), width, maximum);
    if maximum > 0 && out.len() == 0 {
        lemma_empty_columns();
    } else {
        lemma_wrapped(words(value), width, maximum, i);
    }
}

/// Three columns of these widths side by side.
proof fn lemma_three(a: Text, b: Text, c: Text, wa: usize, wb: usize, wc: usize)
    requires
        signs_are_narrow(),
        ({
            let line = pad_text(a, wa) + divider() + pad_text(b, wb) + divider() + fit_text(c, wc);
            adds_up(line)
        }),
    ensures
        ({
            let line = pad_text(a, wa) + divider() + pad_text(b, wb) + divider() + fit_text(c, wc);
            columns(line) <= wa + wb + wc + 6 && text_columns(divider()) == 3
        }),
{
    let d = divider();
    let x = pad_text(a, wa);
    let y = pad_text(b, wb);
    let z = fit_text(c, wc);
    let line = x + d + y + d + z;
    let none = Seq::<char>::empty();
    assert(line =~= none + x + (d + y + d + z));
    lemma_middle(none, x, d + y + d + z);
    assert(line =~= (x + d) + y + (d + z));
    lemma_middle(x + d, y, d + z);
    assert(line =~= x + d + (y + d + z));
    lemma_middle(x, d, y + d + z);
    lemma_pad(a, wa, line);
    lemma_pad(b, wb, line);
    law_fit(c, wc);
    lemma_divider();
    lemma_columns_concat(x, d);
    lemma_columns_concat(x + d, y);
    lemma_columns_concat(x + d + y, d);
    lemma_columns_concat(x + d + y + d, z);
}

/// Two columns of these widths side by side.
proof fn lemma_two(a: Text, c: Text, wa: usize, wc: usize)
    requires
        signs_are_narrow(),
        adds_up(pad_text(a, wa) + divider() + fit_text(c, wc)),
    ensures
        columns(pad_text(a, wa) + divider() + fit_text(c, wc)) <= wa + wc + 3,
        text_columns(divider()) == 3,
{
    let d = divider();
    let x = pad_text(a, wa);
    let z = fit_text(c, wc);
    let line = x + d + z;
    let none = Seq::<char>::empty();
    assert(line =~= none + x + (d + z));
    lemma_middle(none, x, d + z);
    lemma_middle(x, d, z);
    lemma_pad(a, wa, line);
    law_fit(c, wc);
    lemma_divider();
    lemma_columns_concat(x, d);
    lemma_columns_concat(x + d, z);
}

proof fn lemma_skill_line(
    rows: Seq<ConfigRowView>,
    g: ScopeGroup,
    skills: Map<Text, SkillSelection>,
    selected: int,
    start: int,
    end: int,
    width: usize,
    i: int,
)
    requires
        signs_are_narrow(),
        ({
            let lines = skill_lines(rows, g, skills, selected, true, start, end, width);
            0 <= i < lines.len() && adds_up(lines[i])
        }),
    ensures
        columns(skill_lines(rows, g, skills, selected, true, start, end, width)[i]) <= width,
{
    let row = rows[g.start + start + i];
    lemma_aligned(
        start + i == selected,
        true,
        marked_name(row),
        configured_text(skills, row.key),
        width,
    );
}

proof fn lemma_stacked(row: ConfigRowView, width: usize, i: int)
    requires
        signs_are_narrow(),
        0 <= i < stacked_text(row, width).len(),
    ensures
        columns(stacked_text(row, width)[i]) <= width,
{
    let parts = stacked_parts(row);
    lemma_stacked_parts(parts, width, parts.len() as int, i);
}

proof fn lemma_stacked_parts(parts: Seq<Text>, width: usize, n: int, i: int)
    requires
        signs_are_narrow(),
        0 <= n <= parts.len(),
        0 <= i < wrapped_parts(parts, width, n).len(),
    ensures
        columns(wrapped_parts(parts, width, n)[i]) <= width,
    decreases n,
{
    let front = wrapped_parts(parts, width, n - 1);
    if i < front.len() {
        lemma_stacked_parts(parts, width, n - 1, i);
    } else {
        lemma_wrap(parts[n - 1], width, 2, i - front.len());
    }
}

proof fn lemma_body(
    rows: Seq<ConfigRowView>,
    groups: Seq<ScopeGroup>,
    skills: Map<Text, SkillSelection>,
    state: ConfigTuiState,
    width: usize,
    height: int,
    i: int,
)
    requires
        signs_are_narrow(),
        ({
            let lines = body_lines(rows, groups, skills, state, width, height);
            0 <= i < lines.len() && adds_up(lines[i])
        }),
    ensures
        columns(body_lines(rows, groups, skills, state, width, height)[i]) <= width,
{
    let lines = body_lines(rows, groups, skills, state, width, height);
    if width >= THREE_COLUMN_MIN_WIDTH && groups.len() > 0 {
        let (a, b, c) = three_columns(rows, groups, skills, state, width, height);
        lemma_three(
            line_at(a, i),
            line_at(b, i),
            line_at(c, i),
            scope_width(width) as usize,
            skill_width(width) as usize,
            detail_width(width) as usize,
        );
        assert(usable_width(width) == width - 6);
    } else if state.screen == ConfigScreen::Scopes {
        if groups.len() == 0 {
            law_fit("No catalog skills are available."@, width);
        } else {
            let capacity = at_least(height, 1);
            let start = tail_start(state.scope as int, capacity);
            lemma_aligned(
                start + i == state.scope,
                true,
                scope_label(
                    rows,
                    groups[start + i],
                    one_catalog(rows, groups),
                ),
                scope_value(rows, skills, groups[start + i]),
                width,
            );
        }
    } else {
        let g = groups[state.scope as int];
        let selected = state.skill as int;
        if width >= WIDE_LAYOUT_MIN_WIDTH {
            let left = wide_left(rows, g, skills, selected, width, height);
            let right = seq!["Details"@] + detail_text(
                rows[g.start + selected],
                right_width(width) as usize,
            );
            lemma_two(
                line_at(left, i),
                line_at(right, i),
                left_width(width) as usize,
                right_width(width) as usize,
            );
        } else {
            lemma_stacked_body(rows, g, skills, selected, width, height, i);
        }
    }
}

proof fn lemma_stacked_body(
    rows: Seq<ConfigRowView>,
    g: ScopeGroup,
    skills: Map<Text, SkillSelection>,
    selected: int,
    width: usize,
    height: int,
    i: int,
)
    requires
        signs_are_narrow(),
        ({
            let lines = stacked_whole(rows, g, skills, selected, width, height);
            0 <= i < lines.len() && adds_up(lines[i])
        }),
    ensures
        columns(stacked_whole(rows, g, skills, selected, width, height)[i]) <= width,
{
    let n = g.end - g.start;
    let budget: int = if height >= 10 {
        7
    } else {
        0
    };
    let capacity = at_least(height - (budget + 1), 1);
    let start = tail_start(selected, capacity);
    let end = at_most(start + capacity, n);
    let names = skill_lines(rows, g, skills, selected, true, start, end, width);
    let whole = stacked_whole(rows, g, skills, selected, width, height);
    let m = names.len() as int;
    if i == 0 {
        law_fit(range_text(start, end, n), width);
    } else if i <= m {
        assert(whole[i] == names[i - 1]);
        lemma_skill_line(rows, g, skills, selected, start, end, width, i - 1);
    } else if i == m + 1 {
        law_fit("Details"@, width);
    } else {
        let row = rows[g.start + selected];
        assert(whole[i] == stacked_text(row, width)[i - m - 2]);
        lemma_stacked(row, width, i - m - 2);
    }
}

/// A line of the screen is one of its parts, or empty.
proof fn lemma_assembled(title: Text, summary: Text, body: Seq<Text>, hint: Text, height: int, i: int)
    requires
        height >= 1,
        0 <= i < assembled(title, summary, body, hint, height).len(),
    ensures
        ({
            let line = assembled(title, summary, body, hint, height)[i];
            let at = i - header_height(height);
            ||| line == title
            ||| line == summary
            ||| line == hint
            ||| line == Seq::<char>::empty()
            ||| 0 <= at < body.len() && at < body_height(height) && line == body[at]
        }),
{
    let lines = assembled(title, summary, body, hint, height);
    if height > 1 {
        let head: Seq<Text> = if header_height(height) == 2 {
            seq![title, summary]
        } else {
            seq![title]
        };
        let shown = first_lines(body, body_height(height));
        let at = i - head.len();
        if i < head.len() {
            assert(lines[i] == head[i]);
        } else if at < shown.len() {
            assert(lines[i] == shown[at]);
            assert(shown[at] == body[at]);
        } else {
            let rest = empty_lines(height - footer_height(height) - head.len() - shown.len());
            let after = at - shown.len();
            if after < rest.len() {
                assert(lines[i] == rest[after]);
            } else {
                assert(lines[i] == hint);
            }
        }
    }
}

/// No line of the screen takes more columns than it has, where the columns of the line add up
/// character by character and the signs that the screen draws take one each.
pub proof fn law_screen_fits(
    rows: Seq<ConfigRowView>,
    skills: Map<Text, SkillSelection>,
    global: bool,
    position: ConfigTuiState,
    width: usize,
    height: int,
    i: int,
)
    requires
        signs_are_narrow(),
        height >= 1,
        0 <= i < screen_lines(rows, skills, global, position, width, height).len(),
        adds_up(screen_lines(rows, skills, global, position, width, height)[i]),
    ensures
        columns(screen_lines(rows, skills, global, position, width, height)[i]) <= width,
        text_columns(screen_lines(rows, skills, global, position, width, height)[i]) <= width,
{
    let groups = groups_of(rows, rows.len() as int);
    let state = normalized(groups, position);
    let title = title_text(rows, groups, global, state);
    let summary = summary_text(rows, groups, skills);
    let hint = hint_line(rows, groups, skills, global, state, width);
    let body = body_lines(rows, groups, skills, state, width, body_height(height));
    let line = screen_lines(rows, skills, global, position, width, height)[i];
    lemma_assembled(
        fit_text(title, width),
        fit_text(summary, width),
        body,
        fit_text(hint, width),
        height,
        i,
    );
    let at = i - header_height(height);
    assert(columns(line) <= width) by {
        if 0 <= at < body.len() && line == body[at] {
            lemma_body(rows, groups, skills, state, width, body_height(height), at);
        } else {
            law_fit(title, width);
            law_fit(summary, width);
            law_fit(hint, width);
            lemma_empty_columns();
        }
    }
    assert(drawn_from(line, line)) by {
        assert forall|j: int| 0 <= j < line.len() implies line.contains(#[trigger] line[j]) by {}
    }
}

} // verus!
