//! Lines for people: semantic icons and colours on a terminal, plain prefixes elsewhere.

use vstd::prelude::*;
use crate::outside::{bold_colored, bold_form, colored, colored_form};
use crate::text::{cat3, Text};

verus! {

/// A colour.
#[derive(Debug, Clone, Copy, PartialEq, Eq, Structural)]
pub struct Rgb {
    pub r: u8,
    pub g: u8,
    pub b: u8,
}

/// What a colour stands for.
#[derive(Debug, Clone, Copy, PartialEq, Eq, Structural)]
pub enum Tone {
    Accent,
    Success,
    Warning,
    Error,
    Muted,
    SelectedBackground,
    SelectedText,
    /// One of the six colours that tell scopes apart.
    Scope(u8),
}

pub open spec fn tone_color(tone: Tone) -> Rgb {
    match tone {
        Tone::Accent => Rgb { r: 86, g: 182, b: 194 },
        Tone::Success => Rgb { r: 152, g: 195, b: 121 },
        Tone::Warning => Rgb { r: 229, g: 192, b: 123 },
        Tone::Error => Rgb { r: 224, g: 108, b: 117 },
        Tone::Muted => Rgb { r: 128, g: 135, b: 150 },
        Tone::SelectedBackground => Rgb { r: 35, g: 78, b: 86 },
        Tone::SelectedText => Rgb { r: 238, g: 242, b: 246 },
        Tone::Scope(n) => if n == 0 {
            Rgb { r: 97, g: 175, b: 239 }
        } else if n == 1 {
            Rgb { r: 198, g: 120, b: 221 }
        } else if n == 2 {
            Rgb { r: 86, g: 182, b: 194 }
        } else if n == 3 {
            Rgb { r: 209, g: 134, b: 178 }
        } else if n == 4 {
            Rgb { r: 125, g: 130, b: 230 }
        } else {
            Rgb { r: 70, g: 180, b: 160 }
        },
    }
}

impl Tone {
    pub fn color(self) -> (r: Rgb)
        ensures
            r == tone_color(self),
    {
        match self {
            Tone::Accent => Rgb { r: 86, g: 182, b: 194 },
            Tone::Success => Rgb { r: 152, g: 195, b: 121 },
            Tone::Warning => Rgb { r: 229, g: 192, b: 123 },
            Tone::Error => Rgb { r: 224, g: 108, b: 117 },
            Tone::Muted => Rgb { r: 128, g: 135, b: 150 },
            Tone::SelectedBackground => Rgb { r: 35, g: 78, b: 86 },
            Tone::SelectedText => Rgb { r: 238, g: 242, b: 246 },
            Tone::Scope(n) => if n == 0 {
                Rgb { r: 97, g: 175, b: 239 }
            } else if n == 1 {
                Rgb { r: 198, g: 120, b: 221 }
            } else if n == 2 {
                Rgb { r: 86, g: 182, b: 194 }
            } else if n == 3 {
                Rgb { r: 209, g: 134, b: 178 }
            } else if n == 4 {
                Rgb { r: 125, g: 130, b: 230 }
            } else {
                Rgb { r: 70, g: 180, b: 160 }
            },
        }
    }
}

/// `out` is `message` in a tone. Colour sequences may be empty where the process has colours
/// off.
pub open spec fn is_painted(out: Text, message: Text, tone: Tone, bold: bool) -> bool {
    let c = tone_color(tone);
    if bold {
        exists|on: bool| out == #[trigger] bold_form(message, c.r, c.g, c.b, on)
    } else {
        exists|on: bool, off: bool| out == #[trigger] colored_form(message, c.r, c.g, c.b, on, off)
    }
}

/// How lines are written.
#[derive(Debug, Clone, Copy, PartialEq, Eq, Structural)]
pub struct HumanOutput {
    pub styled: bool,
}

/// `out` is `message` behind an icon, or behind the plain prefix where styles are off.
pub open spec fn is_line(
    out: Text,
    styled: bool,
    icon: Text,
    message: Text,
    tone: Tone,
    prefix: Option<Text>,
) -> bool {
    if styled {
        exists|mark: Text| #[trigger]
            is_painted(mark, icon, tone, true) && out == mark + " "@ + message
    } else {
        match prefix {
            Some(p) => out == p + " "@ + message,
            None => out == message,
        }
    }
}

impl HumanOutput {
    pub fn plain() -> (r: HumanOutput)
        ensures
            !r.styled,
    {
        HumanOutput { styled: false }
    }

    pub fn styled() -> (r: HumanOutput)
        ensures
            r.styled,
    {
        HumanOutput { styled: true }
    }

    pub fn heading(self, message: &str) -> (out: String)
        ensures
            self.styled ==> is_painted(out@, message@, Tone::Accent, true),
            !self.styled ==> out@ == message@,
    {
        self.paint(message, Tone::Accent, true)
    }

    pub fn success(self, message: &str) -> (out: String)
        ensures
            is_line(out@, self.styled, "✓"@, message@, Tone::Success, None),
    {
        self.line("✓", message, Tone::Success, None)
    }

    pub fn info(self, message: &str) -> (out: String)
        ensures
            is_line(out@, self.styled, "→"@, message@, Tone::Accent, None),
    {
        self.line("→", message, Tone::Accent, None)
    }

    pub fn warning(self, message: &str) -> (out: String)
        ensures
            is_line(out@, self.styled, "!"@, message@, Tone::Warning, Some("warning:"@)),
    {
        self.line("!", message, Tone::Warning, Some("warning:"))
    }

    pub fn error(self, message: &str) -> (out: String)
        ensures
            is_line(out@, self.styled, "×"@, message@, Tone::Error, Some("error:"@)),
    {
        self.line("×", message, Tone::Error, Some("error:"))
    }

    pub fn item(self, message: &str) -> (out: String)
        ensures
            is_line(out@, self.styled, "•"@, message@, Tone::Accent, Some("-"@)),
    {
        self.line("•", message, Tone::Accent, Some("-"))
    }

    /// `message` in a tone, without emphasis.
    pub fn tone(self, message: &str, tone: Tone) -> (out: String)
        ensures
            self.styled ==> is_painted(out@, message@, tone, false),
            !self.styled ==> out@ == message@,
    {
        self.paint(message, tone, false)
    }

    fn line(self, icon: &str, message: &str, tone: Tone, plain_prefix: Option<&str>) -> (out: String)
        ensures
            is_line(
                out@,
                self.styled,
                icon@,
                message@,
                tone,
                match plain_prefix {
                    Some(p) => Some(p@),
                    None => None,
                },
            ),
    {
        if self.styled {
            let mark = self.paint(icon, tone, true);
            assert(is_painted(mark@, icon@, tone, true));
            cat3(mark.as_str(), " ", message)
        } else {
            match plain_prefix {
                Some(prefix) => cat3(prefix, " ", message),
                None => message.to_owned(),
            }
        }
    }

    fn paint(self, message: &str, tone: Tone, bold: bool) -> (out: String)
        ensures
            self.styled ==> is_painted(out@, message@, tone, bold),
            !self.styled ==> out@ == message@,
    {
        if !self.styled {
            return message.to_owned();
        }
        let c = tone.color();
        if bold {
            bold_colored(message, c.r, c.g, c.b)
        } else {
            colored(message, c.r, c.g, c.b)
        }
    }
}

/// Whether styles are used: on a terminal that is not `dumb`, unless `NO_COLOR` is set.
pub fn color_enabled(terminal: bool, no_color: bool, term: Option<&str>) -> (r: bool)
    ensures
        r == (terminal && !no_color && match term {
            Some(t) => t@ != "dumb"@,
            None => true,
        }),
{
    terminal && !no_color && match term {
        Some(t) => !crate::text::same(t, "dumb"),
        None => true,
    }
}

/// A line and what it is.
#[derive(Debug, PartialEq, Eq)]
pub enum Line {
    Heading(String),
    Success(String),
    Info(String),
    Warning(String),
    Error(String),
    Item(String),
    Muted(String),
    Plain(String),
}

/// A line in contracts.
pub enum LineView {
    Heading(Text),
    Success(Text),
    Info(Text),
    Warning(Text),
    Error(Text),
    Item(Text),
    Muted(Text),
    Plain(Text),
}

impl View for Line {
    type V = LineView;

    open spec fn view(&self) -> LineView {
        match self {
            Line::Heading(s) => LineView::Heading(s@),
            Line::Success(s) => LineView::Success(s@),
            Line::Info(s) => LineView::Info(s@),
            Line::Warning(s) => LineView::Warning(s@),
            Line::Error(s) => LineView::Error(s@),
            Line::Item(s) => LineView::Item(s@),
            Line::Muted(s) => LineView::Muted(s@),
            Line::Plain(s) => LineView::Plain(s@),
        }
    }
}

pub open spec fn line_views(v: Seq<Line>) -> Seq<LineView> {
    Seq::new(v.len(), |i: int| v[i]@)
}

/// `out` is how a line is written.
pub open spec fn is_written(out: Text, line: LineView, styled: bool) -> bool {
    match line {
        LineView::Heading(s) => if styled {
            is_painted(out, s, Tone::Accent, true)
        } else {
            out == s
        },
        LineView::Success(s) => is_line(out, styled, "✓"@, s, Tone::Success, None),
        LineView::Info(s) => is_line(out, styled, "→"@, s, Tone::Accent, None),
        LineView::Warning(s) => is_line(
            out,
            styled,
            "!"@,
            s,
            Tone::Warning,
            Some("warning:"@),
        ),
        LineView::Error(s) => is_line(out, styled, "×"@, s, Tone::Error, Some("error:"@)),
        LineView::Item(s) => is_line(out, styled, "•"@, s, Tone::Accent, Some("-"@)),
        LineView::Muted(s) => if styled {
            is_painted(out, s, Tone::Muted, false)
        } else {
            out == s
        },
        LineView::Plain(s) => out == s,
    }
}

impl HumanOutput {
    /// A line as it is written.
    pub fn write(self, line: &Line) -> (out: String)
        ensures
            is_written(out@, line@, self.styled),
    {
        match line {
            Line::Heading(s) => self.heading(s.as_str()),
            Line::Success(s) => self.success(s.as_str()),
            Line::Info(s) => self.info(s.as_str()),
            Line::Warning(s) => self.warning(s.as_str()),
            Line::Error(s) => self.error(s.as_str()),
            Line::Item(s) => self.item(s.as_str()),
            Line::Muted(s) => self.tone(s.as_str(), Tone::Muted),
            Line::Plain(s) => s.clone(),
        }
    }
}

} // verus!
