//! The document parser: drives the line classifier over the whole line
//! sequence, one block run at a time, with paragraph accumulation as the
//! fallback for prose.

use vstd::prelude::*;

use crate::checklist::cl_cont;
use crate::checklist::cl_items;
use crate::checklist::cl_run_end;
use crate::checklist::lemma_cl_run_end;
use crate::checklist::parse_checklist;
use crate::classify::checklist_parts;
use crate::classify::heading_content;
use crate::classify::heading_level;
use crate::classify::heading_parts;
use crate::classify::is_checklist;
use crate::classify::is_heading;
use crate::classify::is_ordered;
use crate::classify::is_unordered;
use crate::classify::ordered_parts;
use crate::classify::unordered_parts;
use crate::heading::parse_heading;
use crate::lines::lines_view;
use crate::lines::spec_lines;
use crate::lines::split_lines;
use crate::markdown::blocks_view;
use crate::markdown::BlockView;
use crate::markdown::MarkdownBlock;
use crate::markdown::MarkdownFile;
use crate::ordered_list::lemma_ol_run_end;
use crate::ordered_list::ol_cont;
use crate::ordered_list::ol_items;
use crate::ordered_list::ol_run_end;
use crate::ordered_list::parse_ordered_list;
use crate::paragraph::Paragraph;
use crate::scan::is_blank;
use crate::scan::is_ws;
use crate::scan::trim_spec;
use crate::unordered_list::lemma_ul_run_end;
use crate::unordered_list::parse_unordered_list;
use crate::unordered_list::ul_cont;
use crate::unordered_list::ul_items;
use crate::unordered_list::ul_run_end;

verus! {

/// Whether a trimmed line begins any of the four structured block kinds.
pub open spec fn starts_block(t: Seq<char>) -> bool {
    is_heading(t) || is_checklist(t) || is_unordered(t) || is_ordered(t)
}

/// Whether line `i` belongs to a paragraph: in range, not blank, and not the
/// start of a structured block.
pub open spec fn para_cont_at(ls: Seq<Seq<char>>, i: int) -> bool {
    0 <= i && i < ls.len() && !is_blank(ls[i]) && !starts_block(trim_spec(ls[i]))
}

/// First line index at or after `i` where a paragraph stops: the next blank
/// line or block-start line.
pub open spec fn para_end(ls: Seq<Seq<char>>, i: int) -> int
    decreases ls.len() - i,
{
    if para_cont_at(ls, i) {
        para_end(ls, i + 1)
    } else {
        i
    }
}

/// The text of a paragraph that starts at line `i`: its trimmed lines joined
/// by single spaces.
pub open spec fn para_content(ls: Seq<Seq<char>>, i: int) -> Seq<char>
    decreases ls.len() - i,
{
    if !para_cont_at(ls, i) {
        Seq::empty()
    } else if !para_cont_at(ls, i + 1) {
        trim_spec(ls[i])
    } else {
        trim_spec(ls[i]) + seq![' '] + para_content(ls, i + 1)
    }
}

pub proof fn lemma_para_end(ls: Seq<Seq<char>>, i: int)
    requires
        0 <= i <= ls.len(),
    ensures
        i <= para_end(ls, i) <= ls.len(),
    decreases ls.len() - i,
{
    if para_cont_at(ls, i) {
        lemma_para_end(ls, i + 1);
    }
}

/// The block sequence parsed from the lines at and after line `i`: blank
/// lines between blocks are skipped; a heading takes one line; checklist,
/// unordered and ordered runs take their lines with interior blanks; any
/// other line opens a paragraph.
pub open spec fn parse_from(ls: Seq<Seq<char>>, i: int) -> Seq<BlockView>
    decreases ls.len() - i,
{
    if i < 0 || i >= ls.len() {
        Seq::empty()
    } else if is_blank(ls[i]) {
        parse_from(ls, i + 1)
    } else {
        let t = trim_spec(ls[i]);
        if is_heading(t) {
            seq![
                BlockView::Heading { level: heading_level(t), content: heading_content(t) },
            ] + parse_from(ls, i + 1)
        } else if is_checklist(t) {
            proof {
                lemma_cl_run_end(ls, i + 1);
            }
            seq![BlockView::Checklist { items: cl_items(ls, i) }] + parse_from(
                ls,
                cl_run_end(ls, i),
            )
        } else if is_unordered(t) {
            proof {
                lemma_ul_run_end(ls, i + 1);
            }
            seq![BlockView::UnorderedList { items: ul_items(ls, i) }] + parse_from(
                ls,
                ul_run_end(ls, i),
            )
        } else if is_ordered(t) {
            proof {
                lemma_ol_run_end(ls, i + 1);
            }
            seq![BlockView::OrderedList { items: ol_items(ls, i) }] + parse_from(
                ls,
                ol_run_end(ls, i),
            )
        } else {
            proof {
                lemma_para_end(ls, i + 1);
            }
            seq![BlockView::Paragraph { content: para_content(ls, i) }] + parse_from(
                ls,
                para_end(ls, i),
            )
        }
    }
}

/// The blocks of a whole text: its lines, parsed from the first.
pub open spec fn parse_text(s: Seq<char>) -> Seq<BlockView> {
    parse_from(spec_lines(s), 0)
}

/// Whether a trimmed line begins any structured block.
fn starts_block_line(t: &str) -> (r: bool)
    ensures
        r == starts_block(t@),
{
    heading_parts(t).is_some() || checklist_parts(t).is_some() || unordered_parts(t).is_some()
        || ordered_parts(t).is_some()
}

/// Collects consecutive prose lines into one paragraph, joining them with
/// single spaces; stops at a blank line or at any block-start line.
fn parse_paragraph(lines: &[&str], start_index: usize) -> (r: (MarkdownBlock, usize))
    ensures
        r.0@ == (BlockView::Paragraph {
            content: para_content(lines_view(lines@), start_index as int),
        }),
        start_index + r.1 == para_end(lines_view(lines@), start_index as int),
{
    let ghost ls = lines_view(lines@);
    let mut content = String::new();
    let mut i = start_index;
    proof {
        reveal_strlit(" ");
    }
    if start_index >= lines.len() {
        return (MarkdownBlock::Paragraph(Paragraph { content }), 0);
    }
    proof {
        lemma_para_end(ls, start_index as int);
    }
    let mut stop = false;
    while !stop && i < lines.len()
        invariant
            start_index <= i <= lines.len(),
            ls == lines_view(lines@),
            para_end(ls, start_index as int) == para_end(ls, i as int),
            i == start_index ==> content@ == Seq::<char>::empty(),
            i > start_index && para_cont_at(ls, i as int) ==> para_content(
                ls,
                start_index as int,
            ) == content@ + seq![' '] + para_content(ls, i as int),
            i > start_index && !para_cont_at(ls, i as int) ==> para_content(
                ls,
                start_index as int,
            ) == content@,
            stop ==> i < lines.len() && !para_cont_at(ls, i as int),
        decreases lines.len() - i, 1int - (if stop { 1int } else { 0int }),
    {
        let t = crate::scan::trim_of(lines[i]);
        if t.unicode_len() == 0 || starts_block_line(t) {
            stop = true;
        } else {
            let ghost old_content = content@;
            if i > start_index {
                content.append(" ");
            }
            content.append(t);
            proof {
                reveal_strlit(" ");
                let t_v = trim_spec(lines@[i as int]@);
                let pc_start = para_content(ls, start_index as int);
                if i > start_index {
                    assert(content@ == old_content + seq![' '] + t_v);
                    if para_cont_at(ls, i + 1) {
                        assert(old_content + seq![' '] + (t_v + seq![' '] + para_content(
                            ls,
                            i + 1,
                        )) =~= content@ + seq![' '] + para_content(ls, i + 1));
                        assert(pc_start == content@ + seq![' '] + para_content(ls, i + 1));
                    } else {
                        assert(old_content + seq![' '] + t_v =~= content@);
                        assert(pc_start == content@);
                    }
                } else {
                    assert(content@ =~= t_v);
                    if para_cont_at(ls, i + 1) {
                        assert(pc_start == t_v + seq![' '] + para_content(ls, i + 1));
                        assert(t_v + seq![' '] + para_content(ls, i + 1) == content@ + seq![
                            ' ',
                        ] + para_content(ls, i + 1));
                    } else {
                        assert(pc_start == t_v);
                    }
                }
            }
            i += 1;
        }
    }
    proof {
        assert(!para_cont_at(ls, i as int));
        assert(para_end(ls, i as int) == i as int);
        assert(para_content(ls, start_index as int) =~= content@);
    }
    (MarkdownBlock::Paragraph(Paragraph { content }), i - start_index)
}

impl MarkdownFile {
    /// Parses text into its block sequence. Parsing cannot fail: lines that
    /// fit no structured pattern gather into paragraphs, and text without a
    /// single non-blank line gives an empty document.
    pub fn from_string(content: &str) -> (r: Self)
        ensures
            r@ == parse_text(content@),
    {
        let lines: Vec<&str> = split_lines(content);
        let ghost ls = lines_view(lines@);
        proof {
            assert(ls =~= spec_lines(content@));
        }
        let slice: &[&str] = lines.as_slice();
        let mut blocks: Vec<MarkdownBlock> = Vec::new();
        let mut i: usize = 0;
        while i < lines.len()
            invariant
                0 <= i <= lines@.len(),
                ls == lines_view(lines@),
                slice@ == lines@,
                parse_from(ls, 0) =~= blocks_view(blocks@) + parse_from(ls, i as int),
            decreases lines@.len() - i,
        {
            let line = lines[i];
            let t = crate::scan::trim_of(line);
            let ghost prev = blocks@;
            if t.unicode_len() == 0 {
                i += 1;
                continue;
            }
            if let Some(heading_block) = parse_heading(line) {
                blocks.push(heading_block);
                proof {
                    assert(blocks_view(blocks@) =~= blocks_view(prev) + seq![
                        blocks@.last()@,
                    ]);
                }
                i += 1;
            } else if checklist_parts(t).is_some() {
                let (checklist_block, consumed) = parse_checklist(slice, i);
                proof {
                    lemma_cl_run_end(ls, i + 1);
                    assert(cl_cont(ls[i as int]));
                }
                blocks.push(checklist_block);
                proof {
                    assert(blocks_view(blocks@) =~= blocks_view(prev) + seq![
                        blocks@.last()@,
                    ]);
                }
                i += consumed;
            } else if unordered_parts(t).is_some() {
                let (list_block, consumed) = parse_unordered_list(slice, i);
                proof {
                    lemma_ul_run_end(ls, i + 1);
                    assert(ul_cont(ls[i as int]));
                }
                blocks.push(list_block);
                proof {
                    assert(blocks_view(blocks@) =~= blocks_view(prev) + seq![
                        blocks@.last()@,
                    ]);
                }
                i += consumed;
            } else if ordered_parts(t).is_some() {
                let (list_block, consumed) = parse_ordered_list(slice, i);
                proof {
                    lemma_ol_run_end(ls, i + 1);
                    assert(ol_cont(ls[i as int]));
                }
                blocks.push(list_block);
                proof {
                    assert(blocks_view(blocks@) =~= blocks_view(prev) + seq![
                        blocks@.last()@,
                    ]);
                }
                i += consumed;
            } else {
                let (paragraph_block, consumed) = parse_paragraph(slice, i);
                proof {
                    lemma_para_end(ls, i + 1);
                    assert(para_cont_at(ls, i as int));
                }
                blocks.push(paragraph_block);
                proof {
                    assert(blocks_view(blocks@) =~= blocks_view(prev) + seq![
                        blocks@.last()@,
                    ]);
                }
                i += consumed;
            }
        }
        proof {
            assert(parse_from(ls, i as int) =~= Seq::<BlockView>::empty());
            assert(parse_from(ls, 0) =~= blocks_view(blocks@));
        }
        MarkdownFile { blocks }
    }
}

/// A whitespace-only text splits into lines that are each all whitespace.
pub proof fn lemma_lines_of_ws(s: Seq<char>)
    requires
        forall|j: int| 0 <= j < s.len() ==> is_ws(s[j]),
    ensures
        forall|i: int| 0 <= i < spec_lines(s).len() ==> is_blank(#[trigger] spec_lines(s)[i]),
    decreases s.len(),
{
    if s.len() > 0 {
        let j = crate::lines::find_nl(s, 0);
        crate::lines::lemma_find_nl(s, 0);
        if j == s.len() {
            assert forall|i: int|
                0 <= i < spec_lines(s).len() implies is_blank(#[trigger] spec_lines(s)[i]) by {
                crate::scan::lemma_blank_iff_all_ws(s);
            }
        } else {
            let chunk = crate::lines::strip_cr(s.take(j));
            assert(forall|k: int| 0 <= k < chunk.len() ==> is_ws(#[trigger] chunk[k]));
            crate::scan::lemma_blank_iff_all_ws(chunk);
            let tail = s.skip(j + 1);
            assert(forall|k: int| 0 <= k < tail.len() ==> is_ws(#[trigger] tail[k]));
            lemma_lines_of_ws(tail);
            assert forall|i: int|
                0 <= i < spec_lines(s).len() implies is_blank(#[trigger] spec_lines(s)[i]) by {
                if i > 0 {
                    assert(spec_lines(s)[i] == spec_lines(tail)[i - 1]);
                }
            }
        }
    }
}

/// Blank lines carry no blocks: parsing lines that are all blank gives an
/// empty document.
pub proof fn lemma_parse_blank_lines(ls: Seq<Seq<char>>, i: int)
    requires
        0 <= i,
        forall|j: int| 0 <= j < ls.len() ==> is_blank(#[trigger] ls[j]),
    ensures
        parse_from(ls, i) == Seq::<BlockView>::empty(),
    decreases ls.len() - i,
{
    if 0 <= i && i < ls.len() {
        lemma_parse_blank_lines(ls, i + 1);
    }
}

/// Empty or whitespace-only input parses to zero blocks.
pub proof fn lemma_ws_only_parses_empty(s: Seq<char>)
    requires
        forall|j: int| 0 <= j < s.len() ==> is_ws(s[j]),
    ensures
        parse_text(s) == Seq::<BlockView>::empty(),
{
    lemma_lines_of_ws(s);
    lemma_parse_blank_lines(spec_lines(s), 0);
}

/// Every line at or after `i` goes on a checklist run, so the run reaches
/// the end of the lines.
pub proof fn lemma_cl_run_all(ls: Seq<Seq<char>>, i: int)
    requires
        0 <= i <= ls.len(),
        forall|j: int| i <= j < ls.len() ==> cl_cont(#[trigger] ls[j]),
    ensures
        cl_run_end(ls, i) == ls.len(),
    decreases ls.len() - i,
{
    if i < ls.len() {
        lemma_cl_run_all(ls, i + 1);
    }
}

/// Every line at or after `i` goes on an unordered run, so the run reaches
/// the end of the lines.
pub proof fn lemma_ul_run_all(ls: Seq<Seq<char>>, i: int)
    requires
        0 <= i <= ls.len(),
        forall|j: int| i <= j < ls.len() ==> ul_cont(#[trigger] ls[j]),
    ensures
        ul_run_end(ls, i) == ls.len(),
    decreases ls.len() - i,
{
    if i < ls.len() {
        lemma_ul_run_all(ls, i + 1);
    }
}

/// Blank lines inside one checklist run do not split it: lines that are
/// each blank or a checklist item, beginning with an item, parse to one
/// single checklist block holding all the items.
pub proof fn lemma_blank_tolerant_checklist(ls: Seq<Seq<char>>)
    requires
        ls.len() >= 1,
        !is_blank(ls[0]),
        forall|j: int| 0 <= j < ls.len() ==> cl_cont(#[trigger] ls[j]),
    ensures
        parse_from(ls, 0) == seq![BlockView::Checklist { items: cl_items(ls, 0) }],
{
    let t = trim_spec(ls[0]);
    assert(cl_cont(ls[0]));
    assert(is_checklist(t));
    crate::classify::lemma_classify_exclusive(t);
    assert(!is_heading(t));
    lemma_cl_run_all(ls, 0);
    assert(parse_from(ls, ls.len() as int) =~= Seq::<BlockView>::empty());
    assert(parse_from(ls, 0) =~= seq![BlockView::Checklist { items: cl_items(ls, 0) }]);
}

/// Blank lines inside one unordered-list run do not split it: lines that
/// are each blank or a plain bullet item, beginning with an item, parse to
/// one single unordered-list block holding all the items.
pub proof fn lemma_blank_tolerant_unordered(ls: Seq<Seq<char>>)
    requires
        ls.len() >= 1,
        !is_blank(ls[0]),
        forall|j: int| 0 <= j < ls.len() ==> ul_cont(#[trigger] ls[j]),
    ensures
        parse_from(ls, 0) == seq![BlockView::UnorderedList { items: ul_items(ls, 0) }],
{
    let t = trim_spec(ls[0]);
    assert(ul_cont(ls[0]));
    assert(is_unordered(t) && !is_checklist(t));
    crate::classify::lemma_classify_exclusive(t);
    assert(!is_heading(t));
    lemma_ul_run_all(ls, 0);
    assert(parse_from(ls, ls.len() as int) =~= Seq::<BlockView>::empty());
    assert(parse_from(ls, 0) =~= seq![
        BlockView::UnorderedList { items: ul_items(ls, 0) },
    ]);
}

} // verus!
