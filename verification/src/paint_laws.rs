//! Colours, marks and frames.

use vstd::prelude::*;
use vstd::utf8::encode_utf8;
use crate::columns::{blanks, less};
use crate::config_frame::{
    begins_span, heading, is_frame, line_spans, piece_span, piece_spans, piece_tone, row_move,
    scope_hash, scope_tone, shows_line, shows_span, SpanView,
};
use crate::config_tui::ConfigTuiState;
use crate::install::{admission_refusal, TransactionJournal};
use crate::lock::{managed_sources, with_slashes};
use crate::model::{InstalledSkill, SelectionMode};
use crate::outside::{bold_form, color_sequence, colored_form, rgb_code};
use crate::output::{is_painted, is_written, tone_color, LineView, Rgb, Tone};
use crate::ownership::{all_conflict_lines, conflict_lines, OwnershipView};
use crate::paths::joined_path;
use crate::plan::{
    change_tone, is_plan_line, largest, state_tone, InstallPlanChange, InstallPlanState, RowView,
};
use crate::project_store::{state_messages, step_messages, step_views, StateMigration, StepView};
use crate::resolve::ResolvedView;
use crate::text::{concat, contains_text, find_text, join, split_by, starts_with, trim, words, Text};


verus! {

// Colours.

/// The tones are these colours; six tell scopes apart.
pub proof fn law_tones_are_colours(n: u8)
    ensures
        tone_color(Tone::Accent) == (Rgb { r: 86, g: 182, b: 194 }),
        tone_color(Tone::Success) == (Rgb { r: 152, g: 195, b: 121 }),
        tone_color(Tone::Warning) == (Rgb { r: 229, g: 192, b: 123 }),
        tone_color(Tone::Error) == (Rgb { r: 224, g: 108, b: 117 }),
        tone_color(Tone::Muted) == (Rgb { r: 128, g: 135, b: 150 }),
        tone_color(Tone::SelectedBackground) == (Rgb { r: 35, g: 78, b: 86 }),
        tone_color(Tone::SelectedText) == (Rgb { r: 238, g: 242, b: 246 }),
        tone_color(Tone::Scope(0)) == (Rgb { r: 97, g: 175, b: 239 }),
        tone_color(Tone::Scope(1)) == (Rgb { r: 198, g: 120, b: 221 }),
        tone_color(Tone::Scope(2)) == (Rgb { r: 86, g: 182, b: 194 }),
        tone_color(Tone::Scope(3)) == (Rgb { r: 209, g: 134, b: 178 }),
        tone_color(Tone::Scope(4)) == (Rgb { r: 125, g: 130, b: 230 }),
        n >= 5 ==> tone_color(Tone::Scope(n)) == (Rgb { r: 70, g: 180, b: 160 }),
{
}

/// A painted message stands in the colour of its tone, and in bold exactly where it is to be.
pub proof fn law_messages_are_painted(out: Text, message: Text, tone: Tone)
    ensures
        is_painted(out, message, tone, true) <==> exists|on: bool|
            out == #[trigger] bold_form(
                message,
                tone_color(tone).r,
                tone_color(tone).g,
                tone_color(tone).b,
                on,
            ),
        is_painted(out, message, tone, false) <==> exists|on: bool, off: bool|
            out == #[trigger] colored_form(
                message,
                tone_color(tone).r,
                tone_color(tone).g,
                tone_color(tone).b,
                on,
                off,
            ),
{
}

/// A styled line is its text behind the icon of its kind, in the tone of its kind.
pub proof fn law_styled_lines_have_icons(out: Text, s: Text)
    ensures
        is_written(out, LineView::Heading(s), true) <==> is_painted(out, s, Tone::Accent, true),
        is_written(out, LineView::Success(s), true) <==> exists|mark: Text|
            #[trigger] is_painted(mark, "✓"@, Tone::Success, true) && out == mark + " "@ + s,
        is_written(out, LineView::Info(s), true) <==> exists|mark: Text|
            #[trigger] is_painted(mark, "→"@, Tone::Accent, true) && out == mark + " "@ + s,
        is_written(out, LineView::Warning(s), true) <==> exists|mark: Text|
            #[trigger] is_painted(mark, "!"@, Tone::Warning, true) && out == mark + " "@ + s,
        is_written(out, LineView::Error(s), true) <==> exists|mark: Text|
            #[trigger] is_painted(mark, "×"@, Tone::Error, true) && out == mark + " "@ + s,
        is_written(out, LineView::Item(s), true) <==> exists|mark: Text|
            #[trigger] is_painted(mark, "•"@, Tone::Accent, true) && out == mark + " "@ + s,
        is_written(out, LineView::Muted(s), true) <==> is_painted(out, s, Tone::Muted, false),
        is_written(out, LineView::Plain(s), true) <==> out == s,
{
}

/// A scope has the same colour wherever it is named: the bytes of its name decide, one after another.
pub proof fn law_scopes_keep_their_colours(front: Text, value: Text, bytes: Seq<u8>, last: u8)
    requires
        !front.contains('$'),
        words(value).len() > 0,
    ensures
        scope_hash(Seq::empty()) == 0,
        scope_hash(bytes.push(last)) == scope_hash(bytes).wrapping_mul(31usize).wrapping_add(
            last as usize,
        ),
        scope_tone(front + seq!['$'] + value) == Tone::Scope(
            (scope_hash(encode_utf8(words(value)[0])) % 6) as u8,
        ),
        scope_tone(front) == Tone::Scope((scope_hash(encode_utf8(front)) % 6) as u8),
{
    assert(bytes.push(last).drop_last() =~= bytes);
    let s = front + seq!['$'] + value;
    let n = front.len() as int;
    assert forall|j: int| 0 <= j < n implies s[j] != '$' by {
        assert(s[j] == front[j]);
    }
    assert(s[n] == '$');
    crate::text::lemma_find_char(s, '$', n);
    assert(s.skip(n + 1) =~= value);
    assert forall|j: int| 0 <= j < n implies front[j] != '$' by {
        assert(front.contains(front[j]));
    }
    crate::text::lemma_find_char_bound(front, '$');
    let k = crate::text::find_char(front, '$');
    assert(k >= n);
}

/// A heading is in the accent where its list is open, and muted in the other list; conflicts are
/// errors; what needs a look is a warning; a scope has its own colour; and a skill that is on, manual or
/// off is green, yellow or grey.
pub proof fn law_pieces_are_coloured_by_meaning(s: Text, state: ConfigTuiState)
    ensures
        ({
            let scopes = starts_with(s, "Scopes"@);
            let skills = !scopes && starts_with(s, "Skills"@);
            let section = s == "Details"@ || s == "Description"@ || s == "Installed"@ || s == "Plan"@
                || s == "Recommended"@;
            let list = scopes || skills;
            let needed = s == "Required"@ || contains_text(s, "Required by"@) || s.contains('↳');
            let broken = contains_text(s, "CONFLICT"@) || contains_text(s, "ORPHANED"@);
            let pending = contains_text(s, "KEEP LOCAL"@) || contains_text(s, "DRIFT"@)
                || contains_text(s, "UPDATE"@) || contains_text(s, "REVIEW"@);
            let t = piece_tone(s, state);
            let plain = !list && !section && !needed && !broken && !pending;
            &&& scopes && state.screen is Scopes ==> t == Some(Tone::Accent)
            &&& scopes && !(state.screen is Scopes) ==> t == Some(Tone::Muted)
            &&& skills && state.screen is Skills ==> t == Some(Tone::Accent)
            &&& skills && !(state.screen is Skills) ==> t == Some(Tone::Muted)
            &&& !list && section ==> t == Some(Tone::Accent)
            &&& !list && !section && needed ==> t == Some(Tone::Warning)
            &&& !list && !section && !needed && broken ==> t == Some(Tone::Error)
            &&& !list && !section && !needed && !broken && pending ==> t == Some(Tone::Warning)
            &&& plain && s.contains('$') ==> t == Some(scope_tone(s))
            &&& plain && !s.contains('$') && s.contains('●') ==> t == Some(Tone::Success)
            &&& plain && !s.contains('$') && !s.contains('●') && s.contains('◎') ==> t == Some(
                Tone::Warning,
            )
            &&& plain && !s.contains('$') && !s.contains('●') && !s.contains('◎') && s.contains('★')
                ==> t == Some(Tone::Accent)
            &&& plain && !s.contains('$') && !s.contains('●') && !s.contains('◎') && !s.contains('★')
                ==> t == (if s.contains('○') || contains_text(s, "Not installed"@) {
                Some(Tone::Muted)
            } else {
                None
            })
            &&& heading(s) <==> list || section || s == "Required"@
        }),
{
}

// Spans.

/// A text that was found stands where it was found.
proof fn lemma_find_text(s: Text, p: Text, i: int)
    requires
        0 <= i,
    ensures
        find_text(s, p, i) matches Some(k) ==> i <= k && k + p.len() <= s.len() && s.subrange(
            k,
            k + p.len(),
        ) == p,
    decreases s.len() + 1 - i,
{
    if i + p.len() <= s.len() && s.subrange(i, i + p.len()) != p {
        lemma_find_text(s, p, i + 1);
    }
}

/// A text without a separator stays whole; otherwise its pieces, joined by the separator, make it up
/// again.
pub proof fn law_pieces_join_again(s: Text, p: Text, i: int)
    requires
        0 <= i <= s.len(),
        p.len() > 0,
    ensures
        split_by(s, p, i).len() > 0,
        join(split_by(s, p, i), p) == s.skip(i),
        !contains_text(s, p) ==> split_by(s, p, i) == seq![s.skip(i)],
    decreases s.len() - i,
{
    lemma_find_text(s, p, i);
    if let Some(k) = find_text(s, p, i) {
        assert(s.subrange(k, k + p.len()) == p);
        assert(contains_text(s, p));
        let next = k + p.len();
        law_pieces_join_again(s, p, next);
        let more = split_by(s, p, next);
        let parts = split_by(s, p, i);
        assert(parts == seq![s.subrange(i, k)] + more);
        lemma_join_front(s.subrange(i, k), more, p);
        assert(s.skip(i) =~= s.subrange(i, k) + p + s.skip(next)) by {
            assert forall|j: int| 0 <= j < s.skip(i).len() implies #[trigger] s.skip(i)[j] == (s.subrange(
                i,
                k,
            ) + p + s.skip(next))[j] by {
                if k - i <= j < next - i {
                    assert(s.subrange(k, next)[j - (k - i)] == s[i + j]);
                }
            }
        }
    } else {
        assert(split_by(s, p, i) == seq![s.skip(i)]);
        assert(join(seq![s.skip(i)], p) == s.skip(i));
    }
}

proof fn lemma_join_front(a: Text, rest: Seq<Text>, p: Text)
    requires
        rest.len() > 0,
    ensures
        join(seq![a] + rest, p) == a + p + join(rest, p),
    decreases rest.len(),
{
    let whole = seq![a] + rest;
    assert(whole.drop_last() =~= seq![a] + rest.drop_last());
    assert(whole.last() == rest.last());
    if rest.len() == 1 {
        assert(whole.drop_last() =~= seq![a]);
        assert(join(seq![a], p) == a);
        assert(join(rest, p) == rest[0]);
    } else {
        lemma_join_front(a, rest.drop_last(), p);
        assert(join(rest, p) == join(rest.drop_last(), p) + p + rest.last());
        assert(a + p + (join(rest.drop_last(), p) + p + rest.last()) =~= a + p + join(
            rest.drop_last(),
            p,
        ) + p + rest.last());
    }
}

proof fn lemma_span_texts(pieces: Seq<Text>, state: ConfigTuiState, n: int)
    requires
        1 <= n <= pieces.len(),
    ensures
        concat(piece_spans(pieces, state, n).map_values(|x: SpanView| x.text)) == join(
            pieces.take(n),
            " │ "@,
        ),
    decreases n,
{
    let spans = piece_spans(pieces, state, n);
    let texts = spans.map_values(|x: SpanView| x.text);
    let last = piece_span(pieces[n - 1], state);
    assert(spans.last() == last);
    assert(texts.last() == pieces[n - 1]);
    assert(pieces.take(n).drop_last() =~= pieces.take(n - 1));
    assert(pieces.take(n).last() == pieces[n - 1]);
    if n == 1 {
        assert(piece_spans(pieces, state, 0).len() == 0);
        assert(texts.drop_last() =~= Seq::<Text>::empty());
        assert(concat(texts.drop_last()).len() == 0);
        assert(pieces.take(1) =~= seq![pieces[0]]);
        assert(concat(texts) =~= pieces[0]);
    } else {
        lemma_span_texts(pieces, state, n - 1);
        let front = piece_spans(pieces, state, n - 1).map_values(|x: SpanView| x.text);
        assert(texts.drop_last() =~= front.push(" │ "@));
        assert(front.push(" │ "@).drop_last() =~= front);
        assert(front.push(" │ "@).last() == " │ "@);
        assert(concat(texts.drop_last()) == concat(front) + " │ "@);
        assert(concat(texts) == concat(front) + " │ "@ + pieces[n - 1]);
        assert(pieces.take(n).len() >= 2);
    }
}

/// The spans of a line show the whole line and nothing else; the first line is the title, the last the
/// hints.
pub proof fn law_spans_show_the_line(line: Text, i: int, total: int, state: ConfigTuiState)
    requires
        0 <= i < total,
    ensures
        ({
            let spans = line_spans(line, i, total, state);
            let one = |tone: Tone, bold: bool|
                seq![SpanView { text: line, tone: Some(tone), bold, selected: false }];
            &&& concat(spans.map_values(|x: SpanView| x.text)) == line
            &&& i == 0 ==> spans == one(Tone::Accent, true)
            &&& i > 0 && (i + 1 == total || (i == 1 && contains_text(line, " scopes · "@))) ==> spans
                == one(Tone::Muted, false)
            &&& 1 < i < total - 1 && !contains_text(line, " │ "@) ==> spans == seq![
                piece_span(line, state),
            ]
        }),
{
    reveal_strlit(" │ ");
    let p = " │ "@;
    law_pieces_join_again(line, p, 0);
    assert(line.skip(0) =~= line);
    let pieces = split_by(line, p, 0);
    lemma_span_texts(pieces, state, pieces.len() as int);
    assert(pieces.take(pieces.len() as int) =~= pieces);
    let spans = line_spans(line, i, total, state);
    let texts = spans.map_values(|x: SpanView| x.text);
    if i == 0 || (i == 1 && contains_text(line, " scopes · "@)) || i + 1 == total {
        assert(texts =~= seq![line]);
        assert(texts.drop_last() =~= Seq::<Text>::empty());
        assert(concat(texts.drop_last()).len() == 0);
        assert(concat(texts) =~= line);
    }
    if 1 < i < total - 1 && !contains_text(line, p) {
        assert(pieces == seq![line]);
        assert(piece_spans(pieces, state, 0).len() == 0);
        assert(piece_spans(pieces, state, 1) =~= seq![piece_span(line, state)]);
    }
}

/// A piece is selected where its first sign is the arrow, and bold there, at a dot, and in a heading.
pub proof fn law_marked_pieces_stand_out(piece: Text, state: ConfigTuiState)
    ensures
        ({
            let bare = trim(piece);
            let span = piece_span(piece, state);
            &&& span.text == piece
            &&& span.tone == piece_tone(bare, state)
            &&& span.selected <==> bare.len() > 0 && bare[0] == '›'
            &&& span.bold <==> (bare.len() > 0 && (bare[0] == '›' || bare[0] == '•')) || heading(bare)
        }),
{
}

/// How a span is shown without colours: the selected one reversed, every other as it is; and in bold
/// where it is to be.
pub proof fn law_spans_without_colours(out: Text, span: SpanView)
    ensures
        shows_span(out, span, false) <==> out == (if span.selected {
            "\u{1b}[7m"@
        } else {
            Seq::empty()
        }) + (if span.bold {
            "\u{1b}[1m"@
        } else {
            Seq::empty()
        }) + span.text + "\u{1b}[0m"@ + "\u{1b}[0m"@,
{
    let start = if span.selected {
        "\u{1b}[7m"@
    } else {
        Seq::empty()
    };
    assert(begins_span(start, span, false));
}

/// How a span begins with colours: the selected one with its two, every other with that of its tone,
/// where it has one.
pub proof fn law_spans_have_their_colours(out: Text, span: SpanView)
    ensures
        !span.selected && span.tone is None ==> (begins_span(out, span, true) <==> out.len() == 0),
        !span.selected && span.tone is Some ==> (begins_span(out, span, true) <==> exists|on: bool|
            out == #[trigger] color_sequence(
                "38;"@,
                rgb_code(
                    tone_color(span.tone->Some_0).r,
                    tone_color(span.tone->Some_0).g,
                    tone_color(span.tone->Some_0).b,
                ),
                on,
            )),
        span.selected && begins_span(out, span, true) ==> exists|a: bool, b: bool|
            out == #[trigger] color_sequence("48;"@, rgb_code(35, 78, 86), a)
                + #[trigger] color_sequence("38;"@, rgb_code(238, 242, 246), b),
{
    if !span.selected && span.tone is None && out.len() == 0 {
        assert(out =~= Seq::<char>::empty());
    }
}

/// A frame is drawn at once: between the marks of an update, every line is drawn in its row, and what is
/// below them is cleared.
pub proof fn law_frames_hold_every_line(out: Text, lines: Seq<Text>, state: ConfigTuiState, color: bool, row: int)
    requires
        row >= 0,
    ensures
        row_move(row) == "\u{1b}["@ + crate::text::decimal((row + 1) as nat) + ";1H"@,
        is_frame(out, lines, state, color) ==> exists|parts: Seq<Text>|
            {
                &&& parts.len() == lines.len()
                &&& forall|i: int|
                    0 <= i < lines.len() ==> shows_line(
                        #[trigger] parts[i],
                        lines[i],
                        i,
                        lines.len() as int,
                        state,
                        color,
                    )
                &&& out == "\u{1b}[?2026h"@ + row_move(0) + #[trigger] concat(parts) + row_move(
                    lines.len() as int,
                ) + "\u{1b}[J"@ + "\u{1b}[?2026l"@
            },
{
}

/// A drawn line moves to its row, clears it and shows its spans.
pub proof fn law_lines_are_drawn_in_their_rows(
    out: Text,
    line: Text,
    i: int,
    total: int,
    state: ConfigTuiState,
    color: bool,
)
    requires
        shows_line(out, line, i, total, state, color),
    ensures
        exists|parts: Seq<Text>|
            {
                &&& parts.len() == line_spans(line, i, total, state).len()
                &&& forall|k: int|
                    0 <= k < parts.len() ==> shows_span(
                        #[trigger] parts[k],
                        line_spans(line, i, total, state)[k],
                        color,
                    )
                &&& out == row_move(i) + "\u{1b}[2K"@ + #[trigger] concat(parts)
            },
{
}

// Plans.

/// What a plan adds is green, what it changes yellow, and what it leaves or brings along grey.
pub proof fn law_plans_are_coloured(change: InstallPlanChange, state: InstallPlanState)
    ensures
        change_tone(change) == (match change {
            InstallPlanChange::New => Tone::Success,
            InstallPlanChange::Update => Tone::Warning,
            InstallPlanChange::Current => Tone::Muted,
        }),
        state_tone(state) == (match state {
            InstallPlanState::Configured(SelectionMode::Enable) => Tone::Success,
            InstallPlanState::Configured(SelectionMode::Manual) => Tone::Warning,
            InstallPlanState::Dependency => Tone::Muted,
        }),
{
}

/// A plain plan line is the branch and the name, then the state, then the change, each in its column.
pub proof fn law_plan_lines_are_aligned(
    line: Text,
    row: RowView,
    label_columns: usize,
    state_columns: usize,
    width: usize,
    state_width: usize,
)
    ensures
        is_plan_line(line, row, label_columns, state_columns, width, state_width, false) <==> line
            == row.branch + row.name + blanks(less(width, label_columns)) + "  "@ + (
        crate::plan::state_label(row.state) + blanks(less(state_width, state_columns))) + "  "@
            + crate::plan::change_label(row.change),
        label_columns <= width ==> less(width, label_columns) + label_columns == width,
{
    let state = crate::plan::state_label(row.state) + blanks(less(state_width, state_columns));
    let change = crate::plan::change_label(row.change);
    assert(crate::plan::toned(state, state, state_tone(row.state), false));
    assert(crate::plan::toned(change, change, change_tone(row.change), false));
}

/// A column is as wide as the widest of its values.
pub proof fn law_columns_are_wide_enough(v: Seq<usize>)
    ensures
        forall|i: int| 0 <= i < v.len() ==> #[trigger] v[i] <= largest(v),
        v.len() > 0 ==> v.contains(largest(v)),
        v.len() == 0 ==> largest(v) == 0,
    decreases v.len(),
{
    if v.len() > 0 {
        let front = v.drop_last();
        law_columns_are_wide_enough(front);
        assert forall|i: int| 0 <= i < v.len() implies #[trigger] v[i] <= largest(v) by {
            if i < v.len() - 1 {
                assert(front[i] == v[i]);
            }
        }
        if v.last() > largest(front) {
            assert(v[v.len() - 1] == largest(v));
        } else if front.len() > 0 {
            let i = front.index_of(largest(front));
            assert(v[i] == largest(v));
        } else {
            assert(v[0] == largest(v));
        }
    }
}

// Messages.

/// A conflict is told with the key, the name, every place where the name is taken, and how to keep the
/// owner that is there.
pub proof fn law_conflicts_are_told_whole(scope: Text, c: OwnershipView)
    ensures
        ({
            let out = conflict_lines(scope, c);
            let n = c.places.len() as int;
            &&& out.len() == n + 2
            &&& out[0] == LineView::Error(
                "[unowned-conflict] "@ + c.key + ": a skill named "@ + (c.name
                    + " already exists and is not managed by Skiller"@),
            )
            &&& forall|i: int|
                0 <= i < n ==> (#[trigger] out[i + 1]) == LineView::Item(c.places[i])
            &&& out[n + 1] == LineView::Info(
                "Keep the existing owner with `skiller config"@ + (if scope == "global"@ {
                    " -g"@
                } else {
                    ""@
                }) + " --set "@ + c.key + "=off`"@,
            )
        }),
{
}

/// Every conflict is told.
pub proof fn law_all_conflicts_are_told(scope: Text, conflicts: Seq<OwnershipView>, n: int, i: int, k: int)
    requires
        0 <= i < n <= conflicts.len(),
        0 <= k < conflict_lines(scope, conflicts[i]).len(),
    ensures
        all_conflict_lines(scope, conflicts, n).contains(conflict_lines(scope, conflicts[i])[k]),
        all_conflict_lines(scope, conflicts, 0).len() == 0,
        all_conflict_lines(scope, conflicts, n).len() == all_conflict_lines(scope, conflicts, n - 1).len()
            + conflict_lines(scope, conflicts[n - 1]).len(),
    decreases n,
{
    let front = all_conflict_lines(scope, conflicts, n - 1);
    let last = conflict_lines(scope, conflicts[n - 1]);
    let whole = all_conflict_lines(scope, conflicts, n);
    let line = conflict_lines(scope, conflicts[i])[k];
    assert(whole == front + last);
    if i == n - 1 {
        assert(whole[front.len() + k] == line);
    } else {
        law_all_conflicts_are_told(scope, conflicts, n - 1, i, k);
        let at = front.index_of(line);
        assert(whole[at] == line);
    }
}

/// A migration says what its steps say, and that the old directory is gone exactly where it is.
pub proof fn law_migrations_say_what_they_did(plan: StateMigration, steps: Seq<StepView>, n: int, m: Text)
    requires
        0 <= n <= steps.len(),
    ensures
        step_messages(steps, n).contains(m) <==> exists|i: int|
            0 <= i < n && (#[trigger] steps[i]).message is Some && steps[i].message->Some_0 == m,
        state_messages(None).len() == 0,
        ({
            let said = step_messages(step_views(plan.steps@), plan.steps@.len() as int);
            state_messages(Some(plan)) == said + (if plan.remove_root {
                seq!["Removed legacy project state directory"@]
            } else {
                Seq::empty()
            })
        }),
    decreases n,
{
    if n > 0 {
        law_migrations_say_what_they_did(plan, steps, n - 1, m);
        let front = step_messages(steps, n - 1);
        let whole = step_messages(steps, n);
        if front.contains(m) {
            let i = front.index_of(m);
            assert(whole[i] == m);
        }
        if steps[n - 1].message is Some {
            assert(whole[front.len() as int] == steps[n - 1].message->Some_0);
            if whole.contains(m) {
                let i = whole.index_of(m);
                if i < front.len() {
                    assert(front[i] == m);
                }
            }
        }
    }
    let said = step_messages(step_views(plan.steps@), plan.steps@.len() as int);
    assert(said + Seq::<Text>::empty() =~= said);
}

/// An unfinished transaction that cannot be resumed sends to the command of its own scope.
pub proof fn law_recovery_is_for_the_scope(
    resolved: Seq<ResolvedView>,
    previous: Map<Text, InstalledSkill>,
    unavailable: Set<Text>,
    pending: TransactionJournal,
    fingerprint: Text,
    global: bool,
)
    requires
        pending.config@ != fingerprint,
    ensures
        admission_refusal(resolved, previous, unavailable, Some(pending), fingerprint, global) == Some(
            "unfinished transaction is not safe for inline recovery; run `skiller doctor"@ + (if global {
                " -g"@
            } else {
                ""@
            }) + "`"@,
        ),
{
}

/// A state directory below the project is also known by its path from the project.
pub proof fn law_sources_below_the_project(project_root: Text, rest: Text)
    requires
        project_root.len() > 0,
        project_root.last() != '/',
    ensures
        ({
            let state_root = project_root + "/"@ + rest;
            let current = joined_path(state_root, "prepared-current"@);
            starts_with(current, project_root + "/"@) ==> managed_sources(
                state_root,
                project_root,
            ).contains(with_slashes(current.skip(project_root.len() as int + 1)))
        }),
{
    reveal_strlit("/");
}

} // verus!
