//! What an installation says before it changes anything.

use vstd::prelude::*;
use crate::output::{line_views, Line, LineView};
use crate::text::{cat2, cat3, cat4, decimal, decimal_of, plural, plural_ending, views, Text};

verus! {

/// The texts as indented lines.
pub open spec fn indented(texts: Seq<Text>) -> Seq<LineView> {
    texts.map_values(|t: Text| LineView::Plain("  "@ + t))
}

fn push_indented(out: &mut Vec<Line>, texts: &Vec<String>)
    ensures
        line_views(final(out)@) == line_views(old(out)@) + indented(views(texts@)),
{
    let ghost before = out@;
    let ghost all = views(texts@);
    assert(line_views(out@) =~= line_views(before) + indented(all.take(0)));
    let mut i: usize = 0;
    while i < texts.len()
        invariant
            i <= texts@.len(),
            all == views(texts@),
            line_views(out@) == line_views(before) + indented(all.take(i as int)),
        decreases texts@.len() - i,
    {
        let line = Line::Plain(cat2("  ", texts[i].as_str()));
        let ghost last = out@;
        let ghost view = line@;
        out.push(line);
        proof {
            assert(line_views(out@) =~= line_views(last).push(view));
            assert(all.take(i as int + 1) =~= all.take(i as int).push(all[i as int]));
            assert(indented(all.take(i as int + 1)) =~= indented(all.take(i as int)).push(view));
            assert(line_views(out@) =~= line_views(before) + indented(all.take(i as int + 1)));
        }
        i = i + 1;
    }
    assert(all.take(texts@.len() as int) =~= all);
}

/// The plan as it is told: its heading and rows, then what is removed.
pub open spec fn plan_lines(heading: Text, rows: Seq<Text>, removals: Seq<Text>) -> Seq<LineView> {
    if rows.len() == 0 && removals.len() == 0 {
        seq![LineView::Info("Install plan"@), LineView::Plain("  (no configured skills)"@)]
    } else {
        (if rows.len() == 0 {
            Seq::empty()
        } else {
            seq![LineView::Info(heading)] + indented(rows)
        }) + if removals.len() == 0 {
            Seq::empty()
        } else {
            seq![
                LineView::Info(
                    "Remove  "@ + decimal(removals.len()) + " skill"@ + plural(removals.len()),
                ),
            ] + indented(removals)
        }
    }
}

/// Tells a plan. `rows` and `removals` are its rows and removed names as they are shown.
pub fn announce_plan(heading: &str, rows: &Vec<String>, removals: &Vec<String>) -> (r: Vec<Line>)
    ensures
        line_views(r@) == plan_lines(heading@, views(rows@), views(removals@)),
{
    let mut out: Vec<Line> = Vec::new();
    let ghost shown = views(rows@);
    let ghost gone = views(removals@);
    if rows.len() == 0 && removals.len() == 0 {
        out.push(Line::Info(String::from_str("Install plan")));
        out.push(Line::Plain(String::from_str("  (no configured skills)")));
        assert(line_views(out@) =~= plan_lines(heading@, shown, gone));
        return out;
    }
    let ghost mut first = Seq::<LineView>::empty();
    assert(line_views(out@) =~= first);
    if rows.len() > 0 {
        out.push(Line::Info(heading.to_owned()));
        proof {
            first = seq![LineView::Info(heading@)];
        }
        assert(line_views(out@) =~= first);
        push_indented(&mut out, rows);
        proof {
            first = first + indented(shown);
        }
    }
    assert(line_views(out@) == first);
    if removals.len() > 0 {
        let n: usize = removals.len();
        out.push(
            Line::Info(cat4("Remove  ", decimal_of(n as u64).as_str(), " skill", plural_ending(n))),
        );
        let ghost head = seq![
            LineView::Info("Remove  "@ + decimal(gone.len()) + " skill"@ + plural(gone.len())),
        ];
        assert(line_views(out@) =~= first + head);
        push_indented(&mut out, removals);
        assert(line_views(out@) =~= first + (head + indented(gone)));
    } else {
        assert(first + Seq::<LineView>::empty() =~= first);
    }
    assert(line_views(out@) =~= plan_lines(heading@, shown, gone));
    out
}

/// The conflicts as they are told before the questions about them.
pub open spec fn conflict_lines(names: Seq<Text>) -> Seq<LineView> {
    seq![
        LineView::Heading(
            "Conflicts: "@ + decimal(names.len()) + " selected skill"@ + (plural(names.len())
                + " already exist and are not managed by Skiller"@),
        ),
    ] + indented(names) + seq![
        LineView::Warning(
            "Replacing one deletes its current content; keeping one leaves it unchanged"@,
        ),
    ]
}

/// Tells the conflicts. `names` are the names of the skills as they are shown.
pub fn announce_conflicts(names: &Vec<String>) -> (r: Vec<Line>)
    ensures
        line_views(r@) == conflict_lines(views(names@)),
{
    let mut out: Vec<Line> = Vec::new();
    let n: usize = names.len();
    out.push(
        Line::Heading(
            cat4(
                "Conflicts: ",
                decimal_of(n as u64).as_str(),
                " selected skill",
                cat2(plural_ending(n), " already exist and are not managed by Skiller").as_str(),
            ),
        ),
    );
    let ghost head = seq![
        LineView::Heading(
            "Conflicts: "@ + decimal(names@.len()) + " selected skill"@ + (plural(names@.len())
                + " already exist and are not managed by Skiller"@),
        ),
    ];
    assert(line_views(out@) =~= head);
    push_indented(&mut out, names);
    let ghost before = out@;
    let last = Line::Warning(
        String::from_str(
            "Replacing one deletes its current content; keeping one leaves it unchanged",
        ),
    );
    let ghost view = last@;
    out.push(last);
    assert(line_views(out@) =~= line_views(before).push(view));
    assert(line_views(out@) =~= conflict_lines(views(names@)));
    out
}

/// The question about one conflict.
pub fn replacement_question(installed_name: &str) -> (r: String)
    ensures
        r@ == "  Replace "@ + installed_name@
            + " with the catalog version? [y] replace  [Y] replace all  [n] keep: "@,
{
    cat3(
        "  Replace ",
        installed_name,
        " with the catalog version? [y] replace  [Y] replace all  [n] keep: ",
    )
}

} // verus!
