//! Calls into other crates. Each function here is trusted: its contract says what is taken
//! from the crate without proof.

use crossterm::cursor::MoveTo;
use crossterm::style::{
    style, Attribute, Color, ResetColor, SetAttribute, SetBackgroundColor, SetForegroundColor,
    Stylize,
};
use crossterm::terminal::{BeginSynchronizedUpdate, Clear, ClearType, EndSynchronizedUpdate};
use crossterm::Command;
use unicode_width::{UnicodeWidthChar, UnicodeWidthStr};
use vstd::prelude::*;
use crate::text::{decimal, digit, Text};

verus! {

// Column widths.

/// The columns that a terminal shows a text in, as the `unicode-width` crate counts them.
pub uninterp spec fn text_columns(s: Seq<char>) -> usize;

/// `unicode_width::UnicodeWidthStr::width`: the displayed width of a text, a function of the
/// text alone.
#[verifier::external_body]
pub(crate) fn columns_of(s: &str) -> (r: usize)
    ensures
        r == text_columns(s@),
{
    UnicodeWidthStr::width(s)
}

/// The columns of one character, or none for a control character.
pub uninterp spec fn char_columns(c: char) -> Option<usize>;

/// `unicode_width::UnicodeWidthChar::width`: the displayed width of one character, a function
/// of the character alone; printable ASCII takes one column.
#[verifier::external_body]
pub(crate) fn char_columns_of(c: char) -> (r: Option<usize>)
    ensures
        r == char_columns(c),
        ' ' <= c <= '~' ==> r == Some(1usize),
{
    UnicodeWidthChar::width(c)
}

// Text styles.

pub open spec fn rgb_code(r: u8, g: u8, b: u8) -> Text {
    "2;"@ + decimal(r as nat) + ";"@ + decimal(g as nat) + ";"@ + decimal(b as nat)
}

/// The sequence that sets a colour; a process for which colours are off leaves it empty.
pub open spec fn color_sequence(layer: Text, code: Text, on: bool) -> Text {
    "\u{1b}["@ + (if on {
        layer + code
    } else {
        ""@
    }) + "m"@
}

/// `text` in bold in a colour.
pub open spec fn bold_form(text: Text, r: u8, g: u8, b: u8, on: bool) -> Text {
    color_sequence("38;"@, rgb_code(r, g, b), on) + "\u{1b}[1m"@ + text + "\u{1b}[0m"@
}

/// `text` in a colour.
pub open spec fn colored_form(text: Text, r: u8, g: u8, b: u8, on: bool, off: bool) -> Text {
    color_sequence("38;"@, rgb_code(r, g, b), on) + text + color_sequence("39"@, ""@, off)
}

/// `crossterm::style::style` with a colour and the bold attribute, as its `Display` prints
/// it. Whether the colour is written depends on `NO_COLOR`; nothing else does.
#[verifier::external_body]
pub(crate) fn bold_colored(text: &str, r: u8, g: u8, b: u8) -> (out: String)
    ensures
        exists|on: bool| out@ == #[trigger] bold_form(text@, r, g, b, on),
{
    format!("{}", style(text).with(Color::Rgb { r, g, b }).attribute(Attribute::Bold))
}

/// `crossterm::style::style` with a colour, as its `Display` prints it. Whether the colour is
/// written depends on `NO_COLOR`; nothing else does.
#[verifier::external_body]
pub(crate) fn colored(text: &str, r: u8, g: u8, b: u8) -> (out: String)
    ensures
        exists|on: bool, off: bool| out@ == #[trigger] colored_form(text@, r, g, b, on, off),
{
    style(text).with(Color::Rgb { r, g, b }).to_string()
}

// Screen commands.

/// `crossterm::cursor::MoveTo` to the first column of a row counted from 0.
#[verifier::external_body]
pub(crate) fn move_to_row(row: u16) -> (out: String)
    requires
        row < u16::MAX,
    ensures
        out@ == "\u{1b}["@ + decimal((row + 1) as nat) + ";1H"@,
{
    MoveTo(0, row).to_string()
}

/// `crossterm::terminal::Clear` of the current line.
#[verifier::external_body]
pub(crate) fn clear_line() -> (out: String)
    ensures
        out@ == "\u{1b}[2K"@,
{
    Clear(ClearType::CurrentLine).to_string()
}

/// `crossterm::terminal::Clear` from the cursor down.
#[verifier::external_body]
pub(crate) fn clear_below() -> (out: String)
    ensures
        out@ == "\u{1b}[J"@,
{
    Clear(ClearType::FromCursorDown).to_string()
}

/// `crossterm::terminal::BeginSynchronizedUpdate`.
#[verifier::external_body]
pub(crate) fn begin_update() -> (out: String)
    ensures
        out@ == "\u{1b}[?2026h"@,
{
    let mut out = String::new();
    let _ = BeginSynchronizedUpdate.write_ansi(&mut out);
    out
}

/// `crossterm::terminal::EndSynchronizedUpdate`.
#[verifier::external_body]
pub(crate) fn end_update() -> (out: String)
    ensures
        out@ == "\u{1b}[?2026l"@,
{
    let mut out = String::new();
    let _ = EndSynchronizedUpdate.write_ansi(&mut out);
    out
}

/// `crossterm::style::SetForegroundColor`. Whether the colour is written depends on
/// `NO_COLOR`; nothing else does.
#[verifier::external_body]
pub(crate) fn foreground(r: u8, g: u8, b: u8) -> (out: String)
    ensures
        exists|on: bool| out@ == #[trigger] color_sequence("38;"@, rgb_code(r, g, b), on),
{
    SetForegroundColor(Color::Rgb { r, g, b }).to_string()
}

/// `crossterm::style::SetBackgroundColor`. Whether the colour is written depends on
/// `NO_COLOR`; nothing else does.
#[verifier::external_body]
pub(crate) fn background(r: u8, g: u8, b: u8) -> (out: String)
    ensures
        exists|on: bool| out@ == #[trigger] color_sequence("48;"@, rgb_code(r, g, b), on),
{
    SetBackgroundColor(Color::Rgb { r, g, b }).to_string()
}

/// `crossterm::style::SetAttribute` with the reverse attribute.
#[verifier::external_body]
pub(crate) fn reverse_on() -> (out: String)
    ensures
        out@ == "\u{1b}[7m"@,
{
    SetAttribute(Attribute::Reverse).to_string()
}

/// `crossterm::style::SetAttribute` with the bold attribute.
#[verifier::external_body]
pub(crate) fn bold_on() -> (out: String)
    ensures
        out@ == "\u{1b}[1m"@,
{
    SetAttribute(Attribute::Bold).to_string()
}

/// `crossterm::style::SetAttribute` with the reset attribute.
#[verifier::external_body]
pub(crate) fn attributes_off() -> (out: String)
    ensures
        out@ == "\u{1b}[0m"@,
{
    SetAttribute(Attribute::Reset).to_string()
}

/// `crossterm::style::ResetColor`.
#[verifier::external_body]
pub(crate) fn colors_off() -> (out: String)
    ensures
        out@ == "\u{1b}[0m"@,
{
    ResetColor.to_string()
}

// JSON strings.

/// The error of `serde_json`.
#[verifier::external_type_specification]
#[verifier::external_body]
pub struct ExJsonError(serde_json::Error);

/// How a character stands in a JSON string.
pub open spec fn json_char(c: char) -> Text {
    if c == '"' {
        "\\\""@
    } else if c == '\\' {
        "\\\\"@
    } else if c == '\u{8}' {
        "\\b"@
    } else if c == '\u{c}' {
        "\\f"@
    } else if c == '\n' {
        "\\n"@
    } else if c == '\r' {
        "\\r"@
    } else if c == '\t' {
        "\\t"@
    } else if c <= '\u{1f}' {
        let n = c as nat;
        "\\u00"@ + seq![digit(n / 16), digit(n % 16)]
    } else {
        seq![c]
    }
}

pub open spec fn json_chars(s: Text) -> Text
    decreases s.len(),
{
    if s.len() == 0 {
        Seq::empty()
    } else {
        json_chars(s.drop_last()) + json_char(s.last())
    }
}

/// A text as a JSON string.
pub open spec fn json_text(s: Text) -> Text {
    "\""@ + json_chars(s) + "\""@
}

/// `serde_json::to_string` of a text: the text as a JSON string. Serializing a text does not
/// fail.
#[verifier::external_body]
pub(crate) fn json_string(s: &str) -> (r: Result<String, serde_json::Error>)
    ensures
        r is Ok,
        r->Ok_0@ == json_text(s@),
{
    serde_json::to_string(s)
}

// Home directories.

/// Whether `shellexpand` puts the home directory in place of the first character.
pub open spec fn starts_at_home(s: Text) -> bool {
    s.len() > 0 && s[0] == '~' && (s.len() == 1 || s[1] == '/')
}

/// `shellexpand::tilde`: a text that is `~` or begins with `~/` gets the home directory for
/// its `~`, where one is known; every other text stays. Which directory that is depends on
/// the environment.
#[verifier::external_body]
pub(crate) fn expand_tilde(s: &str) -> (r: String)
    ensures
        !starts_at_home(s@) ==> r@ == s@,
        starts_at_home(s@) ==> r@ == s@ || crate::text::ends_with(r@, s@.skip(1)),
{
    shellexpand::tilde(s).into_owned()
}

/// `dirs::home_dir`: the home directory of the user, if one is known. Nothing is said of it:
/// it depends on the environment.
#[verifier::external_body]
pub(crate) fn home_directory() -> (r: Option<String>)
{
    dirs::home_dir().map(|path| path.to_string_lossy().into_owned())
}

// Letter case.

/// `s` in capitals.
pub uninterp spec fn upper_text(s: Seq<char>) -> Seq<char>;

/// `str::to_uppercase`: a text in capitals by the Unicode mapping, a function of the text
/// alone.
#[verifier::external_body]
pub(crate) fn uppercase(s: &str) -> (r: String)
    ensures
        r@ == upper_text(s@),
{
    s.to_uppercase()
}

/// A text as Rust writes it for programmers, in quotes and with escapes.
pub uninterp spec fn quoted_text(s: Seq<char>) -> Seq<char>;

/// `Debug` for `str`: a text in quotes and with escapes, a function of the text alone.
#[verifier::external_body]
pub(crate) fn quoted(s: &str) -> (r: String)
    ensures
        r@ == quoted_text(s@),
{
    format!("{s:?}")
}

// JSON values.

/// A value of `serde_json`.
#[verifier::external_type_specification]
#[verifier::external_body]
pub struct ExJsonValue(serde_json::Value);

/// What a JSON object holds, by name; none where the value is no object.
pub uninterp spec fn json_members(v: serde_json::Value) -> Option<Map<Seq<char>, serde_json::Value>>;

/// The text of a JSON string; none where the value is no string.
pub uninterp spec fn json_string_text(v: serde_json::Value) -> Option<Seq<char>>;

/// The items of a JSON array; none where the value is no array.
pub uninterp spec fn json_items(v: serde_json::Value) -> Option<Seq<serde_json::Value>>;

/// The one JSON value that `serde_json` reads from the bytes, if it reads one.
pub uninterp spec fn json_value(bytes: Seq<u8>) -> Option<serde_json::Value>;

/// The member of a value, where it is an object that has it.
pub open spec fn json_member(v: serde_json::Value, name: Text) -> Option<serde_json::Value> {
    match json_members(v) {
        Some(m) => if m.contains_key(name) {
            Some(m[name])
        } else {
            None
        },
        None => None,
    }
}

/// `serde_json::from_slice` to a `Value`: a function of the bytes alone.
#[verifier::external_body]
pub(crate) fn parse_json(bytes: &[u8]) -> (r: Result<serde_json::Value, serde_json::Error>)
    ensures
        match r {
            Ok(v) => json_value(bytes@) == Some(v),
            Err(_) => json_value(bytes@) is None,
        },
{
    serde_json::from_slice(bytes)
}

/// `serde_json::Value::get` with a name: the member of an object.
#[verifier::external_body]
pub(crate) fn value_member<'a>(v: &'a serde_json::Value, name: &str) -> (r: Option<&'a serde_json::Value>)
    ensures
        match r {
            Some(member) => json_member(*v, name@) == Some(*member),
            None => json_member(*v, name@) is None,
        },
{
    v.get(name)
}

/// `serde_json::Value::as_str`: the text of a string.
#[verifier::external_body]
pub(crate) fn value_text(v: &serde_json::Value) -> (r: Option<String>)
    ensures
        crate::text::opt_view(r) == json_string_text(*v),
{
    v.as_str().map(str::to_owned)
}

/// `serde_json::Value::as_object` and the names of its members, in no stated order.
#[verifier::external_body]
pub(crate) fn value_names(v: &serde_json::Value) -> (r: Option<Vec<String>>)
    ensures
        r is Some == json_members(*v) is Some,
        r is Some ==> crate::text::views(r->Some_0@).to_set() == json_members(*v)->Some_0.dom(),
        r is Some ==> crate::text::views(r->Some_0@).no_duplicates(),
{
    v.as_object().map(|members| members.keys().cloned().collect())
}

/// `serde_json::Value::as_array`: a copy of the items of an array.
#[verifier::external_body]
pub(crate) fn value_items(v: &serde_json::Value) -> (r: Option<Vec<serde_json::Value>>)
    ensures
        match r {
            Some(items) => json_items(*v) == Some(items@),
            None => json_items(*v) is None,
        },
{
    v.as_array().cloned()
}

/// `serde_json::Value::get_mut` with a name: the member of an object, to be changed in its
/// place. The other members stay; where there is no such member, nothing changes.
#[verifier::external_body]
pub(crate) fn value_member_mut<'a>(v: &'a mut serde_json::Value, name: &str) -> (r: Option<
    &'a mut serde_json::Value,
>)
    ensures
        match r {
            Some(member) => {
                &&& json_member(*old(v), name@) == Some(*member)
                &&& json_members(*final(v)) == Some(
                    json_members(*old(v))->Some_0.insert(name@, *final(member)),
                )
            },
            None => json_member(*old(v), name@) is None && *final(v) == *old(v),
        },
{
    v.get_mut(name)
}

/// `serde_json::Map::remove` on the object that a value is: takes a member out. A value that is
/// no object stays.
#[verifier::external_body]
pub(crate) fn value_remove(v: &mut serde_json::Value, name: &str)
    ensures
        match json_members(*old(v)) {
            Some(members) => json_members(*final(v)) == Some(members.remove(name@)),
            None => *final(v) == *old(v),
        },
{
    if let Some(members) = v.as_object_mut() {
        members.remove(name);
    }
}

/// Whether two JSON values are equal.
pub uninterp spec fn json_same(a: serde_json::Value, b: serde_json::Value) -> bool;

/// `PartialEq` of `serde_json::Value`: a function of the two values alone. A value equals
/// itself, since no JSON number is undefined.
#[verifier::external_body]
pub(crate) fn same_json(a: &serde_json::Value, b: &serde_json::Value) -> (r: bool)
    ensures
        r == json_same(*a, *b),
        *a == *b ==> r,
{
    a == b
}

} // verus!
