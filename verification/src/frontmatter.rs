//! The YAML frontmatter of a `SKILL.md` file: where it stands, and its scalar fields.

use vstd::prelude::*;
use crate::failure::Failure;
use crate::text::{
    cat2, chars_of, cut, empty, find_char, has_char, is_space, join, joined, lines, lines_of, same,
    space, split_once, string_of, trim, trim_eol, trim_quotes, trimmed, unquoted, views,
    without_eol, Text,
};

verus! {

/// The length of the first line, its line feed counted.
pub open spec fn line_len(s: Text) -> int {
    let i = find_char(s, '\n');
    if i < s.len() {
        i + 1
    } else {
        s.len() as int
    }
}

/// Whether a line, its terminator aside, is the frontmatter fence.
pub open spec fn is_fence(line: Text) -> bool {
    trim_eol(line) == "---"@
}

/// Where the first line that is a fence begins.
pub open spec fn fence_at(s: Text) -> Option<int>
    decreases s.len(),
{
    let n = line_len(s);
    if s.len() == 0 || !(0 < n <= s.len()) {
        None
    } else if is_fence(s.take(n)) {
        Some(0)
    } else {
        match fence_at(s.skip(n)) {
            Some(k) => Some(n + k),
            None => None,
        }
    }
}

/// What follows the opening fence `first` of `raw`.
pub open spec fn after_fence(raw: Text, first: Text) -> Text {
    let tail = raw.skip(first.len() as int);
    if tail.contains('\n') {
        tail.skip(1)
    } else {
        tail
    }
}

/// The text between the fences, or why there is none.
pub open spec fn frontmatter_of(raw: Text, path: Text) -> Result<Text, Text> {
    let first = trim_eol(raw.take(line_len(raw)));
    if first != "---"@ {
        Err("SKILL.md is missing YAML frontmatter: "@ + path)
    } else {
        let rest = after_fence(raw, first);
        match fence_at(rest) {
            Some(k) => Ok(rest.take(k)),
            None => Err("SKILL.md frontmatter is not closed: "@ + path),
        }
    }
}

/// The length of the line that begins at `from`.
fn line_end(v: &Vec<char>, from: usize) -> (r: usize)
    requires
        from <= v.len(),
    ensures
        from <= r <= v.len(),
        r == from + line_len(v@.skip(from as int)),
        from < v.len() ==> r > from,
{
    let mut i: usize = from;
    while i < v.len() && v[i] != '\n'
        invariant
            from <= i <= v.len(),
            forall|j: int| from <= j < i ==> v[j] != '\n',
        decreases v.len() - i,
    {
        i = i + 1;
    }
    proof {
        crate::text::lemma_find_char(v@.skip(from as int), '\n', i - from);
    }
    if i < v.len() {
        i + 1
    } else {
        i
    }
}

proof fn lemma_trim_eol_prefix(s: Text)
    ensures
        trim_eol(s).len() <= s.len(),
        trim_eol(s) == s.take(trim_eol(s).len() as int),
    decreases s.len(),
{
    let p = |c: char| c == '\r' || c == '\n';
    if s.len() > 0 && p(s.last()) {
        lemma_trim_eol_prefix(s.drop_last());
        let t = trim_eol(s.drop_last());
        assert(s.drop_last().take(t.len() as int) =~= s.take(t.len() as int));
    } else {
        assert(s.take(s.len() as int) =~= s);
    }
}

/// The frontmatter of a skill file.
pub fn frontmatter(raw: &str, path: &str) -> (r: Result<String, Failure>)
    ensures
        match r {
            Ok(text) => frontmatter_of(raw@, path@) == Ok::<Text, Text>(text@),
            Err(e) => frontmatter_of(raw@, path@) == Err::<Text, Text>(e@),
        },
{
    let v = chars_of(raw);
    let first_end: usize = line_end(&v, 0);
    assert(v@.skip(0) =~= v@);
    let first_line = string_of(&v, 0, first_end);
    assert(first_line@ =~= raw@.take(line_len(raw@)));
    let first = without_eol(first_line.as_str());
    if !same(first.as_str(), "---") {
        return Err(Failure::new(cat2("SKILL.md is missing YAML frontmatter: ", path)));
    }
    proof {
        lemma_trim_eol_prefix(first_line@);
    }
    let head: usize = chars_of(first.as_str()).len();
    let tail = string_of(&v, head, v.len());
    assert(tail@ =~= raw@.skip(first@.len() as int));
    let start: usize = if has_char(tail.as_str(), '\n') {
        head + 1
    } else {
        head
    };
    let ghost rest = after_fence(raw@, first@);
    assert(rest =~= v@.skip(start as int));
    let mut at: usize = start;
    proof {
        assert(rest.skip(0) =~= rest);
    }
    while at < v.len()
        invariant
            start <= at <= v.len(),
            v@ == raw@,
            first@ == "---"@,
            first@ == trim_eol(raw@.take(line_len(raw@))),
            rest == after_fence(raw@, first@),
            rest == v@.skip(start as int),
            fence_at(rest) == match fence_at(rest.skip(at - start)) {
                Some(k) => Some(at - start + k),
                None => None,
            },
        decreases v.len() - at,
    {
        let end: usize = line_end(&v, at);
        let line = string_of(&v, at, end);
        let ghost here = rest.skip(at - start);
        proof {
            assert(here =~= v@.skip(at as int));
            assert(line@ =~= here.take(line_len(here)));
            assert(here.skip(line_len(here)) =~= rest.skip(end - start));
        }
        let bare = without_eol(line.as_str());
        if same(bare.as_str(), "---") {
            let text = string_of(&v, start, at);
            assert(text@ =~= rest.take(at - start));
            return Ok(text);
        }
        at = end;
    }
    assert(rest.skip(at - start).len() == 0);
    Err(Failure::new(cat2("SKILL.md frontmatter is not closed: ", path)))
}

pub open spec fn opens_block(value: Text) -> bool {
    value.len() > 0 && (value[0] == '>' || value[0] == '|')
}

pub open spec fn is_indented(line: Text) -> bool {
    line.len() > 0 && is_space(line[0])
}

/// The trimmed lines of the block that begins at line `i`: lines that are empty or
/// indented, the blank ones left out.
pub open spec fn block_lines(ls: Seq<Text>, i: int) -> Seq<Text>
    decreases ls.len() - i,
{
    if 0 <= i < ls.len() && (ls[i].len() == 0 || is_indented(ls[i])) {
        let t = trim(ls[i]);
        (if t.len() > 0 {
            seq![t]
        } else {
            Seq::<Text>::empty()
        }) + block_lines(ls, i + 1)
    } else {
        Seq::empty()
    }
}

/// The value of a field whose line `i` holds `value` behind the colon.
pub open spec fn value_at(ls: Seq<Text>, i: int, value: Text) -> Option<Text> {
    let v = trim(value);
    if opens_block(v) {
        let folded = join(block_lines(ls, i + 1), " "@);
        if folded.len() > 0 {
            Some(folded)
        } else {
            None
        }
    } else if v.len() == 0 {
        None
    } else {
        Some(trim_quotes(v))
    }
}

/// Whether a line declares `key`; at the top level it is not indented.
pub open spec fn declares(line: Text, key: Text, nested: bool) -> bool {
    match cut(line, ':') {
        Some((candidate, _)) => trim(candidate) == key && (nested || !is_indented(candidate)),
        None => false,
    }
}

/// The first value that `key` has from line `i` on.
pub open spec fn field_from(ls: Seq<Text>, i: int, key: Text, nested: bool) -> Option<Text>
    decreases ls.len() - i,
{
    if 0 <= i < ls.len() {
        let here = if declares(ls[i], key, nested) {
            value_at(ls, i, cut(ls[i], ':')->Some_0.1)
        } else {
            None
        };
        match here {
            Some(v) => Some(v),
            None => field_from(ls, i + 1, key, nested),
        }
    } else {
        None
    }
}

pub open spec fn field(frontmatter: Text, key: Text, nested: bool) -> Option<Text> {
    field_from(lines(frontmatter), 0, key, nested)
}

fn scalar_value(ls: &Vec<String>, index: usize, value: &str) -> (r: Option<String>)
    requires
        index < ls.len(),
    ensures
        crate::text::opt_view(r) == value_at(views(ls@), index as int, value@),
{
    let value = trimmed(value);
    let chars = chars_of(value.as_str());
    if chars.len() > 0 && (chars[0] == '>' || chars[0] == '|') {
        let mut parts: Vec<String> = Vec::new();
        let mut i: usize = index + 1;
        let ghost all = views(ls@);
        let ghost whole = block_lines(all, index + 1);
        let mut open = true;
        assert(views(parts@) + whole =~= whole);
        while open && i < ls.len()
            invariant
                i <= ls.len(),
                all == views(ls@),
                open ==> views(parts@) + block_lines(all, i as int) == whole,
                !open ==> views(parts@) == whole,
            decreases ls.len() - i, (if open { 1int } else { 0int }),
        {
            let line = chars_of(ls[i].as_str());
            assert(all[i as int] == line@);
            if line.len() == 0 || space(line[0]) {
                let piece = trimmed(ls[i].as_str());
                let ghost prior = parts@;
                if !empty(piece.as_str()) {
                    parts.push(piece);
                    assert(views(parts@) =~= views(prior) + seq![piece@]);
                } else {
                    assert(views(parts@) =~= views(prior) + Seq::<Text>::empty());
                }
                assert(views(parts@) + block_lines(all, i + 1) =~= views(prior) + block_lines(
                    all,
                    i as int,
                ));
                i = i + 1;
            } else {
                assert(views(parts@) + Seq::<Text>::empty() =~= views(parts@));
                open = false;
            }
        }
        proof {
            if open {
                assert(views(parts@) + Seq::<Text>::empty() =~= views(parts@));
            }
        }
        let folded = joined(&parts, " ");
        if empty(folded.as_str()) {
            None
        } else {
            Some(folded)
        }
    } else if chars.len() == 0 {
        None
    } else {
        Some(unquoted(value.as_str()))
    }
}

fn find_field(frontmatter: &str, key: &str, nested: bool) -> (r: Option<String>)
    ensures
        crate::text::opt_view(r) == field(frontmatter@, key@, nested),
{
    let ls = lines_of(frontmatter);
    let ghost all = views(ls@);
    let mut i: usize = 0;
    while i < ls.len()
        invariant
            i <= ls.len(),
            all == views(ls@),
            field_from(all, 0, key@, nested) == field_from(all, i as int, key@, nested),
            all == lines(frontmatter@),
        decreases ls.len() - i,
    {
        assert(all[i as int] == ls[i as int]@);
        match split_once(ls[i].as_str(), ':') {
            Some((candidate, value)) => {
                let lead = chars_of(candidate.as_str());
                let indented = lead.len() > 0 && space(lead[0]);
                let bare = trimmed(candidate.as_str());
                if same(bare.as_str(), key) && (nested || !indented) {
                    let found = scalar_value(&ls, i, value.as_str());
                    if found.is_some() {
                        return found;
                    }
                }
            },
            None => {},
        }
        i = i + 1;
    }
    None
}

/// A top-level field.
pub fn scalar(frontmatter: &str, key: &str) -> (r: Option<String>)
    ensures
        crate::text::opt_view(r) == field(frontmatter@, key@, false),
{
    find_field(frontmatter, key, false)
}

/// A field at any depth.
pub fn nested_scalar(frontmatter: &str, key: &str) -> (r: Option<String>)
    ensures
        crate::text::opt_view(r) == field(frontmatter@, key@, true),
{
    find_field(frontmatter, key, true)
}

} // verus!
