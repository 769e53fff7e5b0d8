//! The block of a project's `.gitignore` that lists ignored skills.

use vstd::prelude::*;
use crate::failure::Failure;
use crate::model::{InstalledSkillView, InstalledState};
use crate::name_map::{lemma_walk, walk};
use crate::text::{
    cat2, empty, find_char, join, joined, lemma_find_char, lemma_find_char_bound, lines, lines_of,
    same, strip_cr, views, Text,
};

verus! {

pub open spec fn start_mark() -> Text {
    "# skiller:start"@
}

pub open spec fn end_mark() -> Text {
    "# skiller:end"@
}

/// The lines outside the blocks of the first `n` lines, and whether a block is open.
pub open spec fn outside_lines(ls: Seq<Text>, n: int) -> Result<(Seq<Text>, bool), Text>
    decreases n,
{
    if n <= 0 {
        Ok((Seq::empty(), false))
    } else {
        match outside_lines(ls, n - 1) {
            Err(e) => Err(e),
            Ok((kept, inside)) => {
                let line = ls[n - 1];
                if line == start_mark() {
                    if inside {
                        Err(".gitignore contains nested Skiller marker blocks"@)
                    } else {
                        Ok((kept, true))
                    }
                } else if line == end_mark() {
                    if inside {
                        Ok((kept, false))
                    } else {
                        Err(".gitignore contains an unmatched Skiller end marker"@)
                    }
                } else if inside {
                    Ok((kept, true))
                } else {
                    Ok((kept.push(line), false))
                }
            },
        }
    }
}

/// The lines without the empty ones at the end.
pub open spec fn drop_blank_end(ls: Seq<Text>) -> Seq<Text>
    decreases ls.len(),
{
    if ls.len() > 0 && ls.last().len() == 0 {
        drop_blank_end(ls.drop_last())
    } else {
        ls
    }
}

pub open spec fn ignore_line(name: Text) -> Text {
    "/**/skills/"@ + name
}

/// The entries of the first `n` skills that ask for one.
pub open spec fn ignore_lines(skills: Map<Text, InstalledSkillView>, keys: Seq<Text>, n: int) -> Seq<Text>
    decreases n,
{
    if n <= 0 {
        Seq::empty()
    } else {
        let front = ignore_lines(skills, keys, n - 1);
        if skills[keys[n - 1]].gitignore {
            front.push(ignore_line(skills[keys[n - 1]].installed_name))
        } else {
            front
        }
    }
}

/// The lines with the block behind them.
pub open spec fn with_block(kept: Seq<Text>, entries: Seq<Text>) -> Seq<Text> {
    let base = drop_blank_end(kept);
    let spaced = if base.len() > 0 {
        base.push(Seq::empty())
    } else {
        base
    };
    spaced.push(start_mark()) + entries.push(end_mark())
}

/// The new text of `.gitignore`, or why it is not edited.
pub open spec fn ignore_text(raw: Text, skills: Map<Text, InstalledSkillView>) -> Result<Text, Text> {
    let keys = walk(skills.dom());
    match outside_lines(lines(raw), lines(raw).len() as int) {
        Err(e) => Err(e),
        Ok((kept, inside)) => if inside {
            Err(".gitignore contains an unterminated Skiller marker block"@)
        } else {
            Ok(
                join(
                    with_block(kept, ignore_lines(skills, keys, keys.len() as int)),
                    "\n"@,
                ) + "\n"@,
            )
        },
    }
}

proof fn lemma_outside_stops(ls: Seq<Text>, k: int)
    requires
        0 <= k <= ls.len(),
        outside_lines(ls, k) is Err,
    ensures
        outside_lines(ls, ls.len() as int) == outside_lines(ls, k),
    decreases ls.len() - k,
{
    if k < ls.len() {
        lemma_outside_stops(ls, k + 1);
    }
}

/// Rewrites the block of a project's `.gitignore`; the lines outside it stay.
pub fn update_gitignore(symlink: bool, raw: &str, state: &InstalledState) -> (r: Result<String, Failure>)
    ensures
        match r {
            Ok(text) => !symlink && ignore_text(raw@, state@.skills) == Ok::<Text, Text>(text@),
            Err(f) => if symlink {
                f@ == "refusing to edit symlinked .gitignore"@
            } else {
                ignore_text(raw@, state@.skills) == Err::<Text, Text>(f@)
            },
        },
{
    if symlink {
        return Err(Failure::new(String::from_str("refusing to edit symlinked .gitignore")));
    }
    let ls = lines_of(raw);
    let ghost all = views(ls@);
    let mut kept: Vec<String> = Vec::new();
    let mut inside = false;
    let mut i: usize = 0;
    assert(views(kept@) =~= Seq::<Text>::empty());
    while i < ls.len()
        invariant
            i <= ls.len(),
            !symlink,
            all == views(ls@),
            all == lines(raw@),
            outside_lines(all, i as int) == Ok::<(Seq<Text>, bool), Text>((views(kept@), inside)),
        decreases ls.len() - i,
    {
        let line = ls[i].as_str();
        assert(all[i as int] == line@);
        let ghost before = kept@;
        if same(line, "# skiller:start") {
            if inside {
                proof {
                    lemma_outside_stops(all, i + 1);
                }
                return Err(
                    Failure::new(
                        String::from_str(".gitignore contains nested Skiller marker blocks"),
                    ),
                );
            }
            inside = true;
        } else if same(line, "# skiller:end") {
            if !inside {
                proof {
                    lemma_outside_stops(all, i + 1);
                }
                return Err(
                    Failure::new(
                        String::from_str(".gitignore contains an unmatched Skiller end marker"),
                    ),
                );
            }
            inside = false;
        } else if !inside {
            kept.push(ls[i].clone());
            assert(views(kept@) =~= views(before).push(line@));
        }
        i = i + 1;
    }
    if inside {
        return Err(
            Failure::new(
                String::from_str(".gitignore contains an unterminated Skiller marker block"),
            ),
        );
    }
    let ghost found = views(kept@);
    while kept.len() > 0 && empty(kept[kept.len() - 1].as_str())
        invariant
            drop_blank_end(views(kept@)) == drop_blank_end(found),
        decreases kept.len(),
    {
        let ghost before = kept@;
        assert(views(before).last() == before[before.len() - 1]@);
        let _ = kept.pop();
        assert(views(kept@) =~= views(before).drop_last());
    }
    proof {
        if kept@.len() > 0 {
            assert(views(kept@).last() == kept@[kept@.len() - 1]@);
        }
    }
    let ghost base = views(kept@);
    assert(base == drop_blank_end(found));
    let ghost spaced = if base.len() > 0 {
        base.push(Seq::empty())
    } else {
        base
    };
    if kept.len() > 0 {
        kept.push(String::new());
    }
    assert(views(kept@) =~= spaced);
    kept.push(String::from_str("# skiller:start"));
    let ghost head = spaced.push(start_mark());
    assert(views(kept@) =~= head);
    let n: usize = state.skills.len();
    let ghost keys = state.skills.names();
    let ghost skills = state@.skills;
    proof {
        lemma_walk(keys);
        assert(skills.dom() =~= state.skills@.dom());
        assert(head + Seq::<Text>::empty() =~= head);
    }
    let mut k: usize = 0;
    while k < n
        invariant
            k <= n == keys.len(),
            keys == state.skills.names(),
            skills == state@.skills,
            views(kept@) == head + ignore_lines(skills, keys, k as int),
        decreases n - k,
    {
        let skill = state.skills.value_at(k);
        let _ = state.skills.name_at(k);
        assert(skills[keys[k as int]] == skill@);
        let ghost before = kept@;
        if skill.gitignore {
            let line = cat2("/**/skills/", skill.installed_name.as_str());
            kept.push(line);
            assert(views(kept@) =~= views(before).push(line@));
            assert(views(kept@) =~= head + ignore_lines(skills, keys, k + 1));
        }
        k = k + 1;
    }
    let ghost before = kept@;
    kept.push(String::from_str("# skiller:end"));
    proof {
        let entries = ignore_lines(skills, keys, n as int);
        assert(views(kept@) =~= views(before).push(end_mark()));
        assert(views(kept@) =~= head + entries.push(end_mark()));
    }
    Ok(cat2(joined(&kept, "\n").as_str(), "\n"))
}

// Writing twice changes nothing more.

/// A line that reading gives back as it was written.
pub open spec fn is_whole_line(line: Text) -> bool {
    !line.contains('\n') && !(line.len() > 0 && line.last() == '\r')
}

pub open spec fn whole_lines(ls: Seq<Text>) -> bool {
    forall|i: int| 0 <= i < ls.len() ==> is_whole_line(#[trigger] ls[i])
}

proof fn lemma_first_line(line: Text, rest: Text)
    requires
        is_whole_line(line),
    ensures
        lines(line + "\n"@ + rest) == seq![line] + lines(rest),
{
    reveal_strlit("\n");
    assert("\n"@ =~= seq!['\n']);
    let s = line + "\n"@ + rest;
    let n = line.len() as int;
    assert forall|j: int| 0 <= j < n implies s[j] != '\n' by {
        assert(s[j] == line[j]);
        assert(line.contains(line[j]));
    }
    assert(s[n] == '\n');
    lemma_find_char(s, '\n', n);
    assert(s.take(n) =~= line);
    assert(s.skip(n + 1) =~= rest);
}

proof fn lemma_join_front(ls: Seq<Text>, sep: Text)
    requires
        ls.len() >= 2,
    ensures
        join(ls, sep) == ls[0] + sep + join(ls.skip(1), sep),
    decreases ls.len(),
{
    let rest = ls.skip(1);
    if ls.len() == 2 {
        assert(ls.drop_last() =~= seq![ls[0]]);
        assert(rest =~= seq![ls[1]]);
        assert(join(ls.drop_last(), sep) == ls[0]);
    } else {
        let front = ls.drop_last();
        lemma_join_front(front, sep);
        assert(front.skip(1) =~= rest.drop_last());
        assert(rest.last() == ls.last());
        assert(join(ls, sep) =~= ls[0] + sep + join(rest, sep));
    }
}

/// Lines that were joined and ended are read back one by one.
pub proof fn lemma_lines_of_join(ls: Seq<Text>)
    requires
        ls.len() > 0,
        whole_lines(ls),
    ensures
        lines(join(ls, "\n"@) + "\n"@) == ls,
    decreases ls.len(),
{
    let none = Seq::<char>::empty();
    assert(is_whole_line(ls[0]));
    if ls.len() == 1 {
        lemma_first_line(ls[0], none);
        assert(ls[0] + "\n"@ + none =~= join(ls, "\n"@) + "\n"@);
        assert(lines(none) =~= Seq::<Text>::empty());
        assert(seq![ls[0]] + Seq::<Text>::empty() =~= ls);
    } else {
        let rest = ls.skip(1);
        assert forall|i: int| 0 <= i < rest.len() implies is_whole_line(#[trigger] rest[i]) by {
            assert(rest[i] == ls[i + 1]);
        }
        lemma_join_front(ls, "\n"@);
        lemma_lines_of_join(rest);
        let tail = join(rest, "\n"@) + "\n"@;
        assert(join(ls, "\n"@) + "\n"@ =~= ls[0] + "\n"@ + tail);
        lemma_first_line(ls[0], tail);
        assert(seq![ls[0]] + rest =~= ls);
    }
}

pub open spec fn is_mark(line: Text) -> bool {
    line == start_mark() || line == end_mark()
}

/// Lines without marks are all kept.
pub proof fn lemma_outside_plain(ls: Seq<Text>, n: int)
    requires
        0 <= n <= ls.len(),
        forall|i: int| 0 <= i < n ==> !is_mark(#[trigger] ls[i]),
    ensures
        outside_lines(ls, n) == Ok::<(Seq<Text>, bool), Text>((ls.take(n), false)),
    decreases n,
{
    if n > 0 {
        lemma_outside_plain(ls, n - 1);
        assert(ls.take(n) =~= ls.take(n - 1).push(ls[n - 1]));
    } else {
        assert(ls.take(0) =~= Seq::<Text>::empty());
    }
}

/// Inside a block lines are left out.
proof fn lemma_outside_block(ls: Seq<Text>, from: int, n: int, kept: Seq<Text>)
    requires
        0 <= from <= n <= ls.len(),
        outside_lines(ls, from) == Ok::<(Seq<Text>, bool), Text>((kept, true)),
        forall|i: int| from <= i < n ==> !is_mark(#[trigger] ls[i]),
    ensures
        outside_lines(ls, n) == Ok::<(Seq<Text>, bool), Text>((kept, true)),
    decreases n - from,
{
    if n > from {
        lemma_outside_block(ls, from, n - 1, kept);
    }
}

/// Kept lines are lines of the text, and none is a mark.
proof fn lemma_outside_members(ls: Seq<Text>, n: int)
    requires
        0 <= n <= ls.len(),
    ensures
        outside_lines(ls, n) matches Ok((kept, _)) ==> forall|i: int|
            0 <= i < kept.len() ==> !is_mark(#[trigger] kept[i]) && ls.contains(kept[i]),
    decreases n,
{
    if n > 0 {
        lemma_outside_members(ls, n - 1);
        assert(ls.contains(ls[n - 1]));
    }
}

proof fn lemma_drop_blank_end(ls: Seq<Text>)
    ensures
        drop_blank_end(ls).len() <= ls.len(),
        drop_blank_end(ls) == ls.take(drop_blank_end(ls).len() as int),
        drop_blank_end(drop_blank_end(ls)) == drop_blank_end(ls),
        drop_blank_end(ls).len() > 0 ==> drop_blank_end(
            drop_blank_end(ls).push(Seq::empty()),
        ) == drop_blank_end(ls),
    decreases ls.len(),
{
    if ls.len() > 0 && ls.last().len() == 0 {
        lemma_drop_blank_end(ls.drop_last());
        let d = drop_blank_end(ls.drop_last());
        assert(ls.drop_last().take(d.len() as int) =~= ls.take(d.len() as int));
    } else {
        assert(ls.take(ls.len() as int) =~= ls);
        if ls.len() > 0 {
            let p = ls.push(Seq::empty());
            assert(p.drop_last() =~= ls);
            assert(drop_blank_end(p) == drop_blank_end(p.drop_last()));
        }
    }
}

proof fn lemma_ignore_lines(skills: Map<Text, InstalledSkillView>, keys: Seq<Text>, n: int)
    requires
        0 <= n <= keys.len(),
        forall|i: int|
            0 <= i < keys.len() ==> is_whole_line(skills[#[trigger] keys[i]].installed_name),
    ensures
        forall|i: int|
            0 <= i < ignore_lines(skills, keys, n).len() ==> {
                let line = #[trigger] ignore_lines(skills, keys, n)[i];
                is_whole_line(line) && !is_mark(line)
            },
    decreases n,
{
    reveal_strlit("/**/skills/");
    reveal_strlit("# skiller:start");
    reveal_strlit("# skiller:end");
    if n > 0 {
        lemma_ignore_lines(skills, keys, n - 1);
        let name = skills[keys[n - 1]].installed_name;
        let line = ignore_line(name);
        assert(line[0] == '/');
        assert(is_whole_line(name));
        assert(!line.contains('\n')) by {
            if line.contains('\n') {
                let k = line.index_of('\n');
                if k >= 11 {
                    assert(name[k - 11] == '\n');
                }
            }
        }
        if name.len() == 0 {
            assert(line.last() == '/');
        } else {
            assert(line.last() == name.last());
        }
        let front = ignore_lines(skills, keys, n - 1);
        let all = ignore_lines(skills, keys, n);
        assert forall|i: int| 0 <= i < all.len() implies {
            let x = #[trigger] all[i];
            is_whole_line(x) && !is_mark(x)
        } by {
            if i < front.len() {
                assert(all[i] == front[i]);
            }
        }
    }
}

proof fn lemma_lines_have_no_feed(s: Text)
    ensures
        forall|i: int| 0 <= i < lines(s).len() ==> !(#[trigger] lines(s)[i]).contains('\n'),
    decreases s.len(),
{
    lemma_find_char_bound(s, '\n');
    let n = find_char(s, '\n');
    if s.len() > 0 {
        if n < s.len() {
            lemma_lines_have_no_feed(s.skip(n + 1));
            let rest = lines(s.skip(n + 1));
            let first = strip_cr(s.take(n));
            assert(!first.contains('\n')) by {
                if first.contains('\n') {
                    let k = first.index_of('\n');
                    assert(s[k] == first[k]);
                }
            }
            assert forall|i: int| 0 <= i < lines(s).len() implies !(#[trigger] lines(s)[i]).contains(
                '\n',
            ) by {
                if i > 0 {
                    assert(lines(s)[i] == rest[i - 1]);
                } else {
                    assert(lines(s)[0] == first);
                }
            }
        } else {
            assert(!s.contains('\n')) by {
                if s.contains('\n') {
                    let k = s.index_of('\n');
                    assert(s[k] == '\n');
                }
            }
        }
    }
}

/// Updating twice is updating once, where no line ends in a stray carriage return and no
/// name holds a line end.
pub proof fn law_gitignore_update_is_idempotent(raw: Text, skills: Map<Text, InstalledSkillView>)
    requires
        skills.dom().finite(),
        forall|i: int|
            0 <= i < lines(raw).len() ==> !((#[trigger] lines(raw)[i]).len() > 0 && lines(raw)[i].last()
                == '\r'),
        forall|k: Text|
            skills.contains_key(k) ==> is_whole_line((#[trigger] skills[k]).installed_name),
        ignore_text(raw, skills) is Ok,
    ensures
        ignore_text(ignore_text(raw, skills)->Ok_0, skills) == ignore_text(raw, skills),
{
    reveal_strlit("# skiller:start");
    reveal_strlit("# skiller:end");
    crate::name_map::lemma_walk_finite(skills.dom());
    let keys = walk(skills.dom());
    assert forall|i: int| 0 <= i < keys.len() implies is_whole_line(
        skills[#[trigger] keys[i]].installed_name,
    ) by {
        assert(keys.to_set().contains(keys[i]));
    }
    let n = keys.len() as int;
    let entries = ignore_lines(skills, keys, n);
    lemma_ignore_lines(skills, keys, n);
    let ls = lines(raw);
    lemma_lines_have_no_feed(raw);
    lemma_outside_members(ls, ls.len() as int);
    let kept = outside_lines(ls, ls.len() as int)->Ok_0.0;
    lemma_drop_blank_end(kept);
    let base = drop_blank_end(kept);
    let spaced = if base.len() > 0 {
        base.push(Seq::empty())
    } else {
        base
    };
    let out = with_block(kept, entries);
    let m = spaced.len() as int;
    assert(out.len() == m + 1 + entries.len() + 1);
    assert forall|i: int| 0 <= i < m implies !is_mark(#[trigger] out[i]) && is_whole_line(out[i]) by {
        assert(out[i] == spaced[i]);
        if i < base.len() {
            assert(spaced[i] == kept[i]);
            let at = ls.index_of(kept[i]);
            assert(ls[at] == kept[i]);
        }
    }
    assert(out[m] == start_mark());
    assert forall|i: int| m < i < m + 1 + entries.len() implies !is_mark(#[trigger] out[i])
        && is_whole_line(out[i]) by {
        assert(out[i] == entries[i - m - 1]);
    }
    let last = m + 1 + entries.len();
    assert(out[last] == end_mark());
    assert(is_whole_line(start_mark()));
    assert(is_whole_line(end_mark()));
    assert(whole_lines(out)) by {
        assert forall|i: int| 0 <= i < out.len() implies is_whole_line(#[trigger] out[i]) by {
            if i < m {
            } else if i == m {
            } else if i < last {
            }
        }
    }
    lemma_lines_of_join(out);
    lemma_outside_plain(out, m);
    assert(out.take(m) =~= spaced);
    assert(outside_lines(out, m + 1) == Ok::<(Seq<Text>, bool), Text>((spaced, true)));
    lemma_outside_block(out, m + 1, last, spaced);
    assert(start_mark() != end_mark()) by {
        assert(start_mark().len() == 15);
        assert(end_mark().len() == 13);
    }
    assert(outside_lines(out, last + 1) == Ok::<(Seq<Text>, bool), Text>((spaced, false)));
    assert(drop_blank_end(spaced) == base);
}

} // verus!
