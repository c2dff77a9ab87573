//! Checklists: items with a checked flag, parsed from runs of `- [ ]` /
//! `- [x]` lines.

use vstd::prelude::*;

use crate::classify::checklist_checked;
use crate::classify::checklist_content;
use crate::classify::checklist_parts;
use crate::classify::is_checklist;
use crate::lines::lines_view;
use crate::markdown::BlockView;
use crate::markdown::MarkdownBlock;
use crate::scan::is_blank;
use crate::scan::trim_spec;

verus! {

#[derive(Debug, Clone)]
pub struct Checklist {
    pub items: Vec<(bool, String)>,
}

/// The items of a checklist as the specification sees them: a checked flag
/// and the item's characters.
pub open spec fn cl_view(items: Seq<(bool, String)>) -> Seq<(bool, Seq<char>)> {
    items.map_values(|p: (bool, String)| (p.0, p.1@))
}

impl Checklist {
    pub fn new() -> (r: Self)
        ensures
            r.items@.len() == 0,
    {
        Checklist { items: Vec::new() }
    }
}

/// Whether a checklist run goes on at this raw line: blank lines are
/// tolerated inside the run, checklist lines contribute an item.
pub open spec fn cl_cont(l: Seq<char>) -> bool {
    is_blank(l) || is_checklist(trim_spec(l))
}

/// First line index at or after `i` where a checklist run stops.
pub open spec fn cl_run_end(ls: Seq<Seq<char>>, i: int) -> int
    decreases ls.len() - i,
{
    if 0 <= i && i < ls.len() && cl_cont(ls[i]) {
        cl_run_end(ls, i + 1)
    } else {
        i
    }
}

/// The items collected by a checklist run that starts at line `i`.
pub open spec fn cl_items(ls: Seq<Seq<char>>, i: int) -> Seq<(bool, Seq<char>)>
    decreases ls.len() - i,
{
    if 0 <= i && i < ls.len() && cl_cont(ls[i]) {
        if is_blank(ls[i]) {
            cl_items(ls, i + 1)
        } else {
            seq![
                (
                    checklist_checked(trim_spec(ls[i])),
                    checklist_content(trim_spec(ls[i])),
                ),
            ] + cl_items(ls, i + 1)
        }
    } else {
        Seq::empty()
    }
}

pub proof fn lemma_cl_run_end(ls: Seq<Seq<char>>, i: int)
    requires
        0 <= i <= ls.len(),
    ensures
        i <= cl_run_end(ls, i) <= ls.len(),
        cl_run_end(ls, i) < ls.len() ==> !cl_cont(ls[cl_run_end(ls, i)]),
    decreases ls.len() - i,
{
    if i < ls.len() && cl_cont(ls[i]) {
        lemma_cl_run_end(ls, i + 1);
    }
}

/// Parses a run of checklist lines beginning at `start_index`, skipping
/// blank lines inside the run; returns the block and the count of lines
/// consumed, the skipped blank lines included.
pub fn parse_checklist(lines: &[&str], start_index: usize) -> (r: (MarkdownBlock, usize))
    ensures
        r.0@ == (BlockView::Checklist {
            items: cl_items(lines_view(lines@), start_index as int),
        }),
        start_index + r.1 == cl_run_end(lines_view(lines@), start_index as int),
{
    let ghost ls = lines_view(lines@);
    let mut items: Vec<(bool, String)> = Vec::new();
    let mut i = start_index;
    if start_index >= lines.len() {
        return (MarkdownBlock::Checklist(Checklist { items }), 0);
    }
    proof {
        lemma_cl_run_end(ls, start_index as int);
    }
    let mut stop = false;
    while !stop && i < lines.len()
        invariant
            start_index <= i <= lines.len(),
            ls == lines_view(lines@),
            cl_run_end(ls, start_index as int) == cl_run_end(ls, i as int),
            cl_items(ls, start_index as int) =~= cl_view(items@) + cl_items(ls, i as int),
            stop ==> i < lines.len() && !cl_cont(ls[i as int]),
        decreases lines.len() - i, 1int - (if stop { 1int } else { 0int }),
    {
        let t = crate::scan::trim_of(lines[i]);
        if t.unicode_len() == 0 {
            i += 1;
            continue;
        }
        match checklist_parts(t) {
            Some((checked, content)) => {
                items.push((checked, String::from_str(content)));
                proof {
                    assert(cl_view(items@) =~= cl_view(items@.drop_last()) + seq![
                        (checked, content@),
                    ]);
                }
                i += 1;
            },
            None => {
                stop = true;
            },
        }
    }
    proof {
        assert(cl_items(ls, i as int) =~= Seq::<(bool, Seq<char>)>::empty());
        assert(cl_run_end(ls, i as int) == i as int);
        assert(cl_items(ls, start_index as int) =~= cl_view(items@));
    }
    (MarkdownBlock::Checklist(Checklist { items }), i - start_index)
}

} // verus!
