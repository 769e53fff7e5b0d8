//! The configuration screen as one terminal frame: colours, emphasis and cursor movements.

use vstd::prelude::*;
use vstd::utf8::encode_utf8;
use crate::config_tui::{divider, ConfigScreen, ConfigTuiState};
use crate::output::{tone_color, Tone};
use crate::outside::{
    attributes_off, background, begin_update, bold_on, clear_below, clear_line, color_sequence,
    colors_off, end_update, foreground, move_to_row, reverse_on, rgb_code,
};
use crate::text::{
    begins, chars_of, concat, contains, contains_text, cut, decimal, has_char, same, split_by,
    split_once, split_text, starts_with, trim, trimmed, views, words, words_of, Text,
};

verus! {

// Colours.

/// The hash that gives a scope its colour.
pub open spec fn scope_hash(bytes: Seq<u8>) -> usize
    decreases bytes.len(),
{
    if bytes.len() == 0 {
        0
    } else {
        scope_hash(bytes.drop_last()).wrapping_mul(31usize).wrapping_add(bytes.last() as usize)
    }
}

/// The scope that a text names: the first word behind its first `$`, else the whole text.
pub open spec fn scope_identity(s: Text) -> Text {
    match cut(s, '$') {
        Some((_, value)) => if words(value).len() > 0 {
            words(value)[0]
        } else {
            s
        },
        None => s,
    }
}

pub open spec fn scope_tone(s: Text) -> Tone {
    Tone::Scope((scope_hash(encode_utf8(scope_identity(s))) % 6) as u8)
}

pub fn scope_color(scope: &str) -> (r: Tone)
    ensures
        r == scope_tone(scope@),
{
    let mut identity = scope.to_owned();
    match split_once(scope, '$') {
        Some((_, value)) => {
            let ws = words_of(value.as_str());
            assert(views(ws@).len() == ws@.len());
            if ws.len() > 0 {
                assert(views(ws@)[0] == ws@[0]@);
                identity = ws[0].clone();
            }
        },
        None => {},
    }
    let bytes = identity.as_str().as_bytes();
    let mut hash: usize = 0;
    let mut i: usize = 0;
    assert(bytes@.take(0) =~= Seq::<u8>::empty());
    while i < bytes.len()
        invariant
            i <= bytes@.len(),
            hash == scope_hash(bytes@.take(i as int)),
        decreases bytes@.len() - i,
    {
        hash = hash.wrapping_mul(31usize).wrapping_add(bytes[i] as usize);
        i = i + 1;
        assert(bytes@.take(i as int).drop_last() =~= bytes@.take(i - 1));
    }
    assert(bytes@.take(i as int) =~= bytes@);
    Tone::Scope((hash % 6) as u8)
}

/// The colour of a trimmed piece of a line.
pub open spec fn piece_tone(s: Text, state: ConfigTuiState) -> Option<Tone> {
    if starts_with(s, "Scopes"@) {
        Some(
            if state.screen == ConfigScreen::Scopes {
                Tone::Accent
            } else {
                Tone::Muted
            },
        )
    } else if starts_with(s, "Skills"@) {
        Some(
            if state.screen == ConfigScreen::Skills {
                Tone::Accent
            } else {
                Tone::Muted
            },
        )
    } else if s == "Details"@ || s == "Description"@ || s == "Installed"@ || s == "Plan"@ || s
        == "Recommended"@ {
        Some(Tone::Accent)
    } else if s == "Required"@ || contains_text(s, "Required by"@) || s.contains('↳') {
        Some(Tone::Warning)
    } else if contains_text(s, "CONFLICT"@) || contains_text(s, "ORPHANED"@) {
        Some(Tone::Error)
    } else if contains_text(s, "KEEP LOCAL"@) || contains_text(s, "DRIFT"@) || contains_text(
        s,
        "UPDATE"@,
    ) || contains_text(s, "REVIEW"@) {
        Some(Tone::Warning)
    } else if s.contains('$') {
        Some(scope_tone(s))
    } else if s.contains('●') {
        Some(Tone::Success)
    } else if s.contains('◎') {
        Some(Tone::Warning)
    } else if s.contains('★') {
        Some(Tone::Accent)
    } else if s.contains('○') || contains_text(s, "Not installed"@) {
        Some(Tone::Muted)
    } else {
        None
    }
}

pub fn segment_color(segment: &str, state: ConfigTuiState) -> (r: Option<Tone>)
    ensures
        r == piece_tone(segment@, state),
{
    if begins(segment, "Scopes") {
        return Some(
            if state.screen == ConfigScreen::Scopes {
                Tone::Accent
            } else {
                Tone::Muted
            },
        );
    }
    if begins(segment, "Skills") {
        return Some(
            if state.screen == ConfigScreen::Skills {
                Tone::Accent
            } else {
                Tone::Muted
            },
        );
    }
    if same(segment, "Details") || same(segment, "Description") || same(segment, "Installed")
        || same(segment, "Plan") || same(segment, "Recommended") {
        return Some(Tone::Accent);
    }
    if same(segment, "Required") || contains(segment, "Required by") || has_char(segment, '↳') {
        return Some(Tone::Warning);
    }
    if contains(segment, "CONFLICT") || contains(segment, "ORPHANED") {
        return Some(Tone::Error);
    }
    if contains(segment, "KEEP LOCAL") || contains(segment, "DRIFT") || contains(
        segment,
        "UPDATE",
    ) || contains(segment, "REVIEW") {
        return Some(Tone::Warning);
    }
    if has_char(segment, '$') {
        return Some(scope_color(segment));
    }
    if has_char(segment, '●') {
        return Some(Tone::Success);
    }
    if has_char(segment, '◎') {
        return Some(Tone::Warning);
    }
    if has_char(segment, '★') {
        return Some(Tone::Accent);
    }
    if has_char(segment, '○') || contains(segment, "Not installed") {
        return Some(Tone::Muted);
    }
    None
}

pub open spec fn heading(s: Text) -> bool {
    starts_with(s, "Scopes"@) || starts_with(s, "Skills"@) || s == "Details"@ || s
        == "Description"@ || s == "Required"@ || s == "Installed"@ || s == "Plan"@ || s
        == "Recommended"@
}

pub fn is_heading(segment: &str) -> (r: bool)
    ensures
        r == heading(segment@),
{
    begins(segment, "Scopes") || begins(segment, "Skills") || same(segment, "Details") || same(
        segment,
        "Description",
    ) || same(segment, "Required") || same(segment, "Installed") || same(segment, "Plan")
        || same(segment, "Recommended")
}

// Spans.

/// A piece of a line and how it is shown.
#[derive(Debug, PartialEq, Eq)]
pub struct Span {
    pub text: String,
    pub tone: Option<Tone>,
    pub bold: bool,
    pub selected: bool,
}

/// A span in contracts.
pub struct SpanView {
    pub text: Text,
    pub tone: Option<Tone>,
    pub bold: bool,
    pub selected: bool,
}

impl View for Span {
    type V = SpanView;

    open spec fn view(&self) -> SpanView {
        SpanView {
            text: self.text@,
            tone: self.tone,
            bold: self.bold,
            selected: self.selected,
        }
    }
}

pub open spec fn span_views(v: Seq<Span>) -> Seq<SpanView> {
    Seq::new(v.len(), |i: int| v[i]@)
}

pub open spec fn piece_span(piece: Text, state: ConfigTuiState) -> SpanView {
    let bare = trim(piece);
    let selected = bare.len() > 0 && bare[0] == '›';
    let context = bare.len() > 0 && bare[0] == '•';
    SpanView {
        text: piece,
        tone: piece_tone(bare, state),
        bold: selected || context || heading(bare),
        selected,
    }
}

pub open spec fn divider_span() -> SpanView {
    SpanView { text: divider(), tone: Some(Tone::Muted), bold: false, selected: false }
}

/// The spans of the first `n` pieces, with dividers between them.
pub open spec fn piece_spans(pieces: Seq<Text>, state: ConfigTuiState, n: int) -> Seq<SpanView>
    decreases n,
{
    if n <= 0 {
        Seq::empty()
    } else {
        let front = piece_spans(pieces, state, n - 1);
        let parted = if n > 1 {
            front.push(divider_span())
        } else {
            front
        };
        parted.push(piece_span(pieces[n - 1], state))
    }
}

/// The spans of line `i` of `total`: the title, the summary and the hints are shown as one.
pub open spec fn line_spans(line: Text, i: int, total: int, state: ConfigTuiState) -> Seq<SpanView> {
    if i == 0 {
        seq![SpanView { text: line, tone: Some(Tone::Accent), bold: true, selected: false }]
    } else if (i == 1 && contains_text(line, " scopes · "@)) || i + 1 == total {
        seq![SpanView { text: line, tone: Some(Tone::Muted), bold: false, selected: false }]
    } else {
        let pieces = split_by(line, divider(), 0);
        piece_spans(pieces, state, pieces.len() as int)
    }
}

fn push_span(spans: &mut Vec<Span>, span: Span)
    ensures
        span_views(final(spans)@) == span_views(old(spans)@).push(span@),
{
    let ghost earlier = spans@;
    spans.push(span);
    assert(span_views(spans@) =~= span_views(earlier).push(span@));
}

/// The spans of a line.
pub fn spans_of(line: &str, i: usize, total: usize, state: ConfigTuiState) -> (r: Vec<Span>)
    requires
        i < total,
    ensures
        span_views(r@) == line_spans(line@, i as int, total as int, state),
{
    let mut out: Vec<Span> = Vec::new();
    assert(span_views(out@) =~= Seq::<SpanView>::empty());
    if i == 0 {
        push_span(
            &mut out,
            Span { text: line.to_owned(), tone: Some(Tone::Accent), bold: true, selected: false },
        );
        assert(span_views(out@) =~= line_spans(line@, i as int, total as int, state));
        return out;
    }
    if (i == 1 && contains(line, " scopes · ")) || i + 1 == total {
        push_span(
            &mut out,
            Span { text: line.to_owned(), tone: Some(Tone::Muted), bold: false, selected: false },
        );
        assert(span_views(out@) =~= line_spans(line@, i as int, total as int, state));
        return out;
    }
    proof {
        reveal_strlit(" │ ");
    }
    let pieces = split_text(line, " │ ");
    let ghost all = views(pieces@);
    let mut k: usize = 0;
    while k < pieces.len()
        invariant
            k <= pieces@.len(),
            all == views(pieces@),
            span_views(out@) == piece_spans(all, state, k as int),
        decreases pieces@.len() - k,
    {
        assert(all[k as int] == pieces@[k as int]@);
        if k > 0 {
            push_span(
                &mut out,
                Span {
                    text: String::from_str(" │ "),
                    tone: Some(Tone::Muted),
                    bold: false,
                    selected: false,
                },
            );
        }
        let bare = trimmed(pieces[k].as_str());
        let chars = chars_of(bare.as_str());
        let selected = chars.len() > 0 && chars[0] == '›';
        let context = chars.len() > 0 && chars[0] == '•';
        push_span(
            &mut out,
            Span {
                text: pieces[k].clone(),
                tone: segment_color(bare.as_str(), state),
                bold: selected || context || is_heading(bare.as_str()),
                selected,
            },
        );
        k = k + 1;
    }
    out
}

// Frames.

/// `out` sets a colour on a layer, or nothing where the process has colours off.
pub open spec fn sets_color(out: Text, layer: Text, tone: Tone) -> bool {
    let c = tone_color(tone);
    exists|on: bool| out == #[trigger] color_sequence(layer, rgb_code(c.r, c.g, c.b), on)
}

/// `out` begins a span: its colours, or a reversal where colours are not used.
pub open spec fn begins_span(out: Text, span: SpanView, color: bool) -> bool {
    if span.selected {
        if color {
            exists|back: Text, front: Text|
                #[trigger] sets_color(back, "48;"@, Tone::SelectedBackground)
                    && #[trigger] sets_color(front, "38;"@, Tone::SelectedText) && out == back
                    + front
        } else {
            out == "\u{1b}[7m"@
        }
    } else if color && span.tone is Some {
        sets_color(out, "38;"@, span.tone->Some_0)
    } else {
        out == Seq::<char>::empty()
    }
}

/// `out` shows a span and resets everything behind it.
pub open spec fn shows_span(out: Text, span: SpanView, color: bool) -> bool {
    exists|start: Text| #[trigger]
        begins_span(start, span, color) && out == start + (if span.bold {
            "\u{1b}[1m"@
        } else {
            Seq::<char>::empty()
        }) + span.text + "\u{1b}[0m"@ + "\u{1b}[0m"@
}

fn write_span(span: &Span, color: bool) -> (r: String)
    ensures
        shows_span(r@, span@, color),
{
    let start = if span.selected {
        if color {
            let b = Tone::SelectedBackground.color();
            let t = Tone::SelectedText.color();
            let back = background(b.r, b.g, b.b);
            let front = foreground(t.r, t.g, t.b);
            proof {
                assert(sets_color(back@, "48;"@, Tone::SelectedBackground));
                assert(sets_color(front@, "38;"@, Tone::SelectedText));
            }
            crate::text::cat2(back.as_str(), front.as_str())
        } else {
            reverse_on()
        }
    } else {
        match span.tone {
            Some(tone) => if color {
                let c = tone.color();
                foreground(c.r, c.g, c.b)
            } else {
                String::new()
            },
            None => String::new(),
        }
    };
    assert(begins_span(start@, span@, color)) by {
        if !span.selected && !(color && span.tone is Some) {
            assert(start@ =~= Seq::<char>::empty());
        }
    }
    let strong = if span.bold {
        bold_on()
    } else {
        String::new()
    };
    assert(!span.bold ==> strong@ =~= Seq::<char>::empty());
    let mut out = crate::text::cat3(start.as_str(), strong.as_str(), span.text.as_str());
    out.append(colors_off().as_str());
    out.append(attributes_off().as_str());
    out
}

pub open spec fn row_move(row: int) -> Text {
    "\u{1b}["@ + decimal((row + 1) as nat) + ";1H"@
}

/// `out` shows line `i`: it moves there, clears the line and shows its spans.
pub open spec fn shows_line(out: Text, line: Text, i: int, total: int, state: ConfigTuiState, color: bool) -> bool {
    let spans = line_spans(line, i, total, state);
    exists|parts: Seq<Text>|
        parts.len() == spans.len() && (forall|k: int|
            0 <= k < spans.len() ==> shows_span(#[trigger] parts[k], spans[k], color)) && out
            == row_move(i) + "\u{1b}[2K"@ + #[trigger] concat(parts)
}

fn write_line(line: &str, i: usize, total: usize, state: ConfigTuiState, color: bool) -> (r: String)
    requires
        i < total < u16::MAX,
    ensures
        shows_line(r@, line@, i as int, total as int, state, color),
{
    let spans = spans_of(line, i, total, state);
    let ghost all = span_views(spans@);
    let mut out = move_to_row(i as u16);
    out.append(clear_line().as_str());
    let ghost head = out@;
    let ghost mut parts: Seq<Text> = Seq::empty();
    let mut k: usize = 0;
    assert(head + concat(parts) =~= head);
    while k < spans.len()
        invariant
            k <= spans@.len(),
            all == span_views(spans@),
            parts.len() == k,
            forall|j: int| 0 <= j < k ==> shows_span(#[trigger] parts[j], all[j], color),
            out@ == head + concat(parts),
        decreases spans@.len() - k,
    {
        let piece = write_span(&spans[k], color);
        assert(all[k as int] == spans@[k as int]@);
        out.append(piece.as_str());
        proof {
            let longer = parts.push(piece@);
            assert(longer.drop_last() =~= parts);
            assert(out@ =~= head + concat(longer));
            parts = longer;
        }
        k = k + 1;
    }
    out
}

/// `out` is one synchronized frame: every line in place, and what is below cleared.
pub open spec fn is_frame(out: Text, lines: Seq<Text>, state: ConfigTuiState, color: bool) -> bool {
    exists|parts: Seq<Text>|
        parts.len() == lines.len() && (forall|i: int|
            0 <= i < lines.len() ==> shows_line(
                #[trigger] parts[i],
                lines[i],
                i,
                lines.len() as int,
                state,
                color,
            )) && out == "\u{1b}[?2026h"@ + row_move(0) + #[trigger] concat(parts) + row_move(
            lines.len() as int,
        ) + "\u{1b}[J"@ + "\u{1b}[?2026l"@
}

/// The frame that replaces the screen with the lines.
pub fn write_frame(lines: &Vec<String>, state: ConfigTuiState, color: bool) -> (r: String)
    requires
        lines@.len() < u16::MAX,
    ensures
        is_frame(r@, views(lines@), state, color),
{
    let ghost all = views(lines@);
    let total: usize = lines.len();
    let mut out = begin_update();
    out.append(move_to_row(0).as_str());
    let ghost head = out@;
    let ghost mut parts: Seq<Text> = Seq::empty();
    let mut i: usize = 0;
    assert(head + concat(parts) =~= head);
    while i < total
        invariant
            i <= total == lines@.len(),
            total < u16::MAX,
            all == views(lines@),
            parts.len() == i,
            forall|j: int|
                0 <= j < i ==> shows_line(
                    #[trigger] parts[j],
                    all[j],
                    j,
                    total as int,
                    state,
                    color,
                ),
            out@ == head + concat(parts),
        decreases total - i,
    {
        let piece = write_line(lines[i].as_str(), i, total, state, color);
        assert(all[i as int] == lines@[i as int]@);
        out.append(piece.as_str());
        proof {
            let longer = parts.push(piece@);
            assert(longer.drop_last() =~= parts);
            assert(out@ =~= head + concat(longer));
            parts = longer;
        }
        i = i + 1;
    }
    out.append(move_to_row(total as u16).as_str());
    out.append(clear_below().as_str());
    out.append(end_update().as_str());
    out
}

} // verus!
