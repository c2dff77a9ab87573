//! Ordered lists: numbered items parsed from runs of `1.`-style lines. The
//! numbers found in the source are discarded; rendering numbers the items
//! sequentially from one.

use vstd::prelude::*;

use crate::classify::is_ordered;
use crate::classify::ordered_content;
use crate::classify::ordered_parts;
use crate::lines::lines_view;
use crate::markdown::BlockView;
use crate::markdown::MarkdownBlock;
use crate::scan::is_blank;
use crate::scan::trim_spec;

verus! {

#[derive(Debug, Clone)]
pub struct OrderedList {
    pub items: Vec<String>,
}

/// The items of an ordered list as the specification sees them.
pub open spec fn ol_view(items: Seq<String>) -> Seq<Seq<char>> {
    items.map_values(|s: String| s@)
}

/// Whether an ordered-list run goes on at this raw line: blank lines are
/// tolerated inside the run.
pub open spec fn ol_cont(l: Seq<char>) -> bool {
    is_blank(l) || is_ordered(trim_spec(l))
}

/// First line index at or after `i` where an ordered-list run stops.
pub open spec fn ol_run_end(ls: Seq<Seq<char>>, i: int) -> int
    decreases ls.len() - i,
{
    if 0 <= i && i < ls.len() && ol_cont(ls[i]) {
        ol_run_end(ls, i + 1)
    } else {
        i
    }
}

/// The items collected by an ordered-list run that starts at line `i`.
pub open spec fn ol_items(ls: Seq<Seq<char>>, i: int) -> Seq<Seq<char>>
    decreases ls.len() - i,
{
    if 0 <= i && i < ls.len() && ol_cont(ls[i]) {
        if is_blank(ls[i]) {
            ol_items(ls, i + 1)
        } else {
            seq![ordered_content(trim_spec(ls[i]))] + ol_items(ls, i + 1)
        }
    } else {
        Seq::empty()
    }
}

pub proof fn lemma_ol_run_end(ls: Seq<Seq<char>>, i: int)
    requires
        0 <= i <= ls.len(),
    ensures
        i <= ol_run_end(ls, i) <= ls.len(),
        ol_run_end(ls, i) < ls.len() ==> !ol_cont(ls[ol_run_end(ls, i)]),
    decreases ls.len() - i,
{
    if i < ls.len() && ol_cont(ls[i]) {
        lemma_ol_run_end(ls, i + 1);
    }
}

/// Parses a run of numbered lines beginning at `start_index`, skipping blank
/// lines inside the run; returns the block and the count of lines consumed,
/// the skipped blank lines included.
pub fn parse_ordered_list(lines: &[&str], start_index: usize) -> (r: (MarkdownBlock, usize))
    ensures
        r.0@ == (BlockView::OrderedList {
            items: ol_items(lines_view(lines@), start_index as int),
        }),
        start_index + r.1 == ol_run_end(lines_view(lines@), start_index as int),
{
    let ghost ls = lines_view(lines@);
    let mut items: Vec<String> = Vec::new();
    let mut i = start_index;
    if start_index >= lines.len() {
        return (MarkdownBlock::OrderedList(OrderedList { items }), 0);
    }
    proof {
        lemma_ol_run_end(ls, start_index as int);
    }
    let mut stop = false;
    while !stop && i < lines.len()
        invariant
            start_index <= i <= lines.len(),
            ls == lines_view(lines@),
            ol_run_end(ls, start_index as int) == ol_run_end(ls, i as int),
            ol_items(ls, start_index as int) =~= ol_view(items@) + ol_items(ls, i as int),
            stop ==> i < lines.len() && !ol_cont(ls[i as int]),
        decreases lines.len() - i, 1int - (if stop { 1int } else { 0int }),
    {
        let t = crate::scan::trim_of(lines[i]);
        if t.unicode_len() == 0 {
            i += 1;
            continue;
        }
        match ordered_parts(t) {
            Some(content) => {
                items.push(String::from_str(content));
                proof {
                    assert(ol_view(items@) =~= ol_view(items@.drop_last()) + seq![content@]);
                }
                i += 1;
            },
            None => {
                stop = true;
            },
        }
    }
    proof {
        assert(ol_items(ls, i as int) =~= Seq::<Seq<char>>::empty());
        assert(ol_run_end(ls, i as int) == i as int);
        assert(ol_items(ls, start_index as int) =~= ol_view(items@));
    }
    (MarkdownBlock::OrderedList(OrderedList { items }), i - start_index)
}

} // verus!
