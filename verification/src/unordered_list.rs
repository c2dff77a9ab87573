//! Unordered lists: bullet items with an indentation level, parsed from runs
//! of `-` / `*` / `+` lines.

use vstd::prelude::*;

use crate::classify::indent_of;
use crate::classify::indent_of_line;
use crate::classify::is_checklist;
use crate::classify::is_unordered;
use crate::classify::unordered_content;
use crate::classify::unordered_parts;
use crate::lines::lines_view;
use crate::markdown::BlockView;
use crate::markdown::MarkdownBlock;
use crate::scan::is_blank;
use crate::scan::trim_spec;

verus! {

#[derive(Debug, Clone, PartialEq)]
pub struct UnorderedListItem {
    pub content: String,
    pub indentation_level: usize,
}

#[derive(Debug, Clone)]
pub struct UnorderedList {
    pub items: Vec<UnorderedListItem>,
}

/// The items of an unordered list as the specification sees them: the item's
/// characters and its indentation level.
pub open spec fn ul_view(items: Seq<UnorderedListItem>) -> Seq<(Seq<char>, int)> {
    items.map_values(|it: UnorderedListItem| (it.content@, it.indentation_level as int))
}

impl UnorderedList {
    pub fn new() -> (r: Self)
        ensures
            r.items@.len() == 0,
    {
        UnorderedList { items: Vec::new() }
    }
}

/// Whether an unordered-list run goes on at this raw line: blank lines are
/// tolerated inside the run, and a line that begins a checklist item stops
/// the run, since the classifier gives checklists precedence over plain
/// bullets.
pub open spec fn ul_cont(l: Seq<char>) -> bool {
    is_blank(l) || (is_unordered(trim_spec(l)) && !is_checklist(trim_spec(l)))
}

/// First line index at or after `i` where an unordered-list run stops.
pub open spec fn ul_run_end(ls: Seq<Seq<char>>, i: int) -> int
    decreases ls.len() - i,
{
    if 0 <= i && i < ls.len() && ul_cont(ls[i]) {
        ul_run_end(ls, i + 1)
    } else {
        i
    }
}

/// The items collected by an unordered-list run that starts at line `i`;
/// indentation is measured on the raw line, before trimming.
pub open spec fn ul_items(ls: Seq<Seq<char>>, i: int) -> Seq<(Seq<char>, int)>
    decreases ls.len() - i,
{
    if 0 <= i && i < ls.len() && ul_cont(ls[i]) {
        if is_blank(ls[i]) {
            ul_items(ls, i + 1)
        } else {
            seq![(unordered_content(trim_spec(ls[i])), indent_of(ls[i]))] + ul_items(
                ls,
                i + 1,
            )
        }
    } else {
        Seq::empty()
    }
}

pub proof fn lemma_ul_run_end(ls: Seq<Seq<char>>, i: int)
    requires
        0 <= i <= ls.len(),
    ensures
        i <= ul_run_end(ls, i) <= ls.len(),
        ul_run_end(ls, i) < ls.len() ==> !ul_cont(ls[ul_run_end(ls, i)]),
    decreases ls.len() - i,
{
    if i < ls.len() && ul_cont(ls[i]) {
        lemma_ul_run_end(ls, i + 1);
    }
}

/// Parses a run of bullet lines beginning at `start_index`, skipping blank
/// lines inside the run; returns the block and the count of lines consumed,
/// the skipped blank lines included.
pub fn parse_unordered_list(lines: &[&str], start_index: usize) -> (r: (
    MarkdownBlock,
    usize,
))
    ensures
        r.0@ == (BlockView::UnorderedList {
            items: ul_items(lines_view(lines@), start_index as int),
        }),
        start_index + r.1 == ul_run_end(lines_view(lines@), start_index as int),
{
    let ghost ls = lines_view(lines@);
    let mut items: Vec<UnorderedListItem> = Vec::new();
    let mut i = start_index;
    if start_index >= lines.len() {
        return (MarkdownBlock::UnorderedList(UnorderedList { items }), 0);
    }
    proof {
        lemma_ul_run_end(ls, start_index as int);
    }
    let mut stop = false;
    while !stop && i < lines.len()
        invariant
            start_index <= i <= lines.len(),
            ls == lines_view(lines@),
            ul_run_end(ls, start_index as int) == ul_run_end(ls, i as int),
            ul_items(ls, start_index as int) =~= ul_view(items@) + ul_items(ls, i as int),
            stop ==> i < lines.len() && !ul_cont(ls[i as int]),
        decreases lines.len() - i, 1int - (if stop { 1int } else { 0int }),
    {
        let line = lines[i];
        let t = crate::scan::trim_of(line);
        if t.unicode_len() == 0 {
            i += 1;
            continue;
        }
        let is_cl = crate::classify::checklist_parts(t).is_some();
        match unordered_parts(t) {
            Some(content) if !is_cl => {
                let indentation_level = indent_of_line(line);
                items.push(
                    UnorderedListItem { content: String::from_str(content), indentation_level },
                );
                proof {
                    assert(ul_view(items@) =~= ul_view(items@.drop_last()) + seq![
                        (content@, indentation_level as int),
                    ]);
                }
                i += 1;
            },
            _ => {
                stop = true;
            },
        }
    }
    proof {
        assert(ul_items(ls, i as int) =~= Seq::<(Seq<char>, int)>::empty());
        assert(ul_run_end(ls, i as int) == i as int);
        assert(ul_items(ls, start_index as int) =~= ul_view(items@));
    }
    (MarkdownBlock::UnorderedList(UnorderedList { items }), i - start_index)
}

} // verus!
