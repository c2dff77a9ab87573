//! The document model: the tagged union of block kinds, the document as an
//! ordered block sequence, and the transforms used by note-taking commands.

use vstd::prelude::*;

use crate::checklist::cl_view;
use crate::checklist::Checklist;
use crate::heading::Heading;
use crate::ordered_list::ol_view;
use crate::ordered_list::OrderedList;
use crate::paragraph::Paragraph;
use crate::unordered_list::ul_view;
use crate::unordered_list::UnorderedList;
use crate::unordered_list::UnorderedListItem;

verus! {

/// What one block is, as the specification sees it: the mathematical content
/// of a `MarkdownBlock` with all text as character sequences.
#[verifier::ext_equal]
pub ghost enum BlockView {
    Heading { level: int, content: Seq<char> },
    Paragraph { content: Seq<char> },
    UnorderedList { items: Seq<(Seq<char>, int)> },
    OrderedList { items: Seq<Seq<char>> },
    Checklist { items: Seq<(bool, Seq<char>)> },
}

/// One structural unit of a parsed document.
#[derive(Debug, Clone)]
pub enum MarkdownBlock {
    Heading(Heading),
    Paragraph(Paragraph),
    UnorderedList(UnorderedList),
    OrderedList(OrderedList),
    Checklist(Checklist),
}

impl View for MarkdownBlock {
    type V = BlockView;

    open spec fn view(&self) -> BlockView {
        match self {
            MarkdownBlock::Heading(h) => BlockView::Heading {
                level: h.level as int,
                content: h.content@,
            },
            MarkdownBlock::Paragraph(p) => BlockView::Paragraph { content: p.content@ },
            MarkdownBlock::UnorderedList(l) => BlockView::UnorderedList {
                items: ul_view(l.items@),
            },
            MarkdownBlock::OrderedList(l) => BlockView::OrderedList {
                items: ol_view(l.items@),
            },
            MarkdownBlock::Checklist(c) => BlockView::Checklist { items: cl_view(c.items@) },
        }
    }
}

/// The views of a block sequence, in order.
pub open spec fn blocks_view(bs: Seq<MarkdownBlock>) -> Seq<BlockView> {
    bs.map_values(|b: MarkdownBlock| b@)
}

/// An ordered sequence of blocks: one markdown file's content.
#[derive(Debug, Clone)]
pub struct MarkdownFile {
    pub blocks: Vec<MarkdownBlock>,
}

impl View for MarkdownFile {
    type V = Seq<BlockView>;

    open spec fn view(&self) -> Seq<BlockView> {
        blocks_view(self.blocks@)
    }
}

/// Copies a string, keeping its characters.
pub fn copy_string(s: &String) -> (r: String)
    ensures
        r@ == s@,
{
    s.clone()
}

/// Copies the items of an unordered list, keeping their view.
pub fn copy_ul_items(src: &Vec<UnorderedListItem>) -> (r: Vec<UnorderedListItem>)
    ensures
        ul_view(r@) == ul_view(src@),
{
    let mut items: Vec<UnorderedListItem> = Vec::new();
    let mut i: usize = 0;
    while i < src.len()
        invariant
            0 <= i <= src@.len(),
            ul_view(items@) =~= ul_view(src@.take(i as int)),
        decreases src@.len() - i,
    {
        let it = &src[i];
        items.push(
            UnorderedListItem {
                content: copy_string(&it.content),
                indentation_level: it.indentation_level,
            },
        );
        proof {
            assert(ul_view(items@) =~= ul_view(items@.drop_last()) + seq![
                (it.content@, it.indentation_level as int),
            ]);
            assert(ul_view(src@.take(i + 1)) =~= ul_view(src@.take(i as int)) + seq![
                (it.content@, it.indentation_level as int),
            ]);
        }
        i += 1;
    }
    proof {
        assert(src@.take(src@.len() as int) =~= src@);
    }
    items
}

/// Copies the items of an ordered list, keeping their view.
pub fn copy_ol_items(src: &Vec<String>) -> (r: Vec<String>)
    ensures
        ol_view(r@) == ol_view(src@),
{
    let mut items: Vec<String> = Vec::new();
    let mut i: usize = 0;
    while i < src.len()
        invariant
            0 <= i <= src@.len(),
            ol_view(items@) =~= ol_view(src@.take(i as int)),
        decreases src@.len() - i,
    {
        items.push(copy_string(&src[i]));
        proof {
            assert(ol_view(items@) =~= ol_view(items@.drop_last()) + seq![src@[i as int]@]);
            assert(ol_view(src@.take(i + 1)) =~= ol_view(src@.take(i as int)) + seq![
                src@[i as int]@,
            ]);
        }
        i += 1;
    }
    proof {
        assert(src@.take(src@.len() as int) =~= src@);
    }
    items
}

/// Copies the items of a checklist, keeping their view.
pub fn copy_cl_items(src: &Vec<(bool, String)>) -> (r: Vec<(bool, String)>)
    ensures
        cl_view(r@) == cl_view(src@),
{
    let mut items: Vec<(bool, String)> = Vec::new();
    let mut i: usize = 0;
    while i < src.len()
        invariant
            0 <= i <= src@.len(),
            cl_view(items@) =~= cl_view(src@.take(i as int)),
        decreases src@.len() - i,
    {
        let it = &src[i];
        items.push((it.0, copy_string(&it.1)));
        proof {
            assert(cl_view(items@) =~= cl_view(items@.drop_last()) + seq![(it.0, it.1@)]);
            assert(cl_view(src@.take(i + 1)) =~= cl_view(src@.take(i as int)) + seq![
                (it.0, it.1@),
            ]);
        }
        i += 1;
    }
    proof {
        assert(src@.take(src@.len() as int) =~= src@);
    }
    items
}

/// Copies one block, keeping its view.
pub fn copy_block(b: &MarkdownBlock) -> (r: MarkdownBlock)
    ensures
        r@ == b@,
{
    match b {
        MarkdownBlock::Heading(h) => MarkdownBlock::Heading(
            Heading { level: h.level, content: copy_string(&h.content) },
        ),
        MarkdownBlock::Paragraph(p) => MarkdownBlock::Paragraph(
            Paragraph { content: copy_string(&p.content) },
        ),
        MarkdownBlock::UnorderedList(l) => MarkdownBlock::UnorderedList(
            UnorderedList { items: copy_ul_items(&l.items) },
        ),
        MarkdownBlock::OrderedList(l) => MarkdownBlock::OrderedList(
            OrderedList { items: copy_ol_items(&l.items) },
        ),
        MarkdownBlock::Checklist(c) => MarkdownBlock::Checklist(
            Checklist { items: copy_cl_items(&c.items) },
        ),
    }
}

/// What `set_title` leaves behind: the first block replaced by a level-one
/// heading when it already is a heading, the heading inserted in front
/// otherwise.
pub open spec fn spec_set_title(d: Seq<BlockView>, title: Seq<char>) -> Seq<BlockView> {
    let h = BlockView::Heading { level: 1, content: title };
    if d.len() > 0 && (d[0] is Heading) {
        d.update(0, h)
    } else {
        seq![h] + d
    }
}

/// The unchecked items of a checklist, in their order.
pub open spec fn unchecked_items(items: Seq<(bool, Seq<char>)>) -> Seq<(bool, Seq<char>)> {
    items.filter(|p: (bool, Seq<char>)| !p.0)
}

/// What `filter_completed_tasks` makes of one block: checklists keep only
/// their unchecked items, in order; every other block is untouched.
pub open spec fn filter_block(b: BlockView) -> BlockView {
    match b {
        BlockView::Checklist { items } => BlockView::Checklist {
            items: unchecked_items(items),
        },
        _ => b,
    }
}

/// The whole document with every checklist reduced to its unchecked items;
/// a checklist whose items are all checked stays as an empty block.
pub open spec fn spec_filter_completed(d: Seq<BlockView>) -> Seq<BlockView> {
    d.map_values(|b: BlockView| filter_block(b))
}

impl MarkdownFile {
    /// Replaces the document's title: a new level-one heading takes the
    /// place of the first block when that block is a heading, and is
    /// inserted at the front otherwise. All other blocks keep their order.
    pub fn set_title(&self, new_title: &str) -> (r: MarkdownFile)
        ensures
            r@ == spec_set_title(self@, new_title@),
    {
        let new_heading = MarkdownBlock::Heading(
            Heading { level: 1, content: String::from_str(new_title) },
        );
        let mut new_blocks: Vec<MarkdownBlock> = Vec::new();
        let replace_first = match self.blocks.get(0) {
            Some(MarkdownBlock::Heading(_)) => true,
            _ => false,
        };
        new_blocks.push(new_heading);
        let mut i: usize = if replace_first {
            1
        } else {
            0
        };
        let ghost start = i as int;
        let ghost h = BlockView::Heading { level: 1, content: new_title@ };
        while i < self.blocks.len()
            invariant
                start <= i <= self.blocks@.len(),
                start == (if replace_first {
                    1int
                } else {
                    0int
                }),
                new_blocks@.len() == 1 + i - start,
                new_blocks@[0]@ == h,
                forall|j: int|
                    start <= j < i ==> new_blocks@[j - start + 1]@ == self.blocks@[j]@,
            decreases self.blocks@.len() - i,
        {
            let b = copy_block(&self.blocks[i]);
            new_blocks.push(b);
            i += 1;
        }
        proof {
            assert(blocks_view(new_blocks@) =~= spec_set_title(self@, new_title@));
        }
        MarkdownFile { blocks: new_blocks }
    }

    /// Removes the completed items from every checklist, keeping unchecked
    /// items in their order; a checklist left with no items is retained, so
    /// that the heading before it keeps its section.
    pub fn filter_completed_tasks(&self) -> (r: MarkdownFile)
        ensures
            r@ == spec_filter_completed(self@),
    {
        let mut new_blocks: Vec<MarkdownBlock> = Vec::new();
        let mut i: usize = 0;
        while i < self.blocks.len()
            invariant
                0 <= i <= self.blocks@.len(),
                new_blocks@.len() == i,
                forall|j: int|
                    0 <= j < i ==> blocks_view(new_blocks@)[j] == filter_block(
                        self.blocks@[j]@,
                    ),
            decreases self.blocks@.len() - i,
        {
            let b = match &self.blocks[i] {
                MarkdownBlock::Checklist(c) => {
                    let mut items: Vec<(bool, String)> = Vec::new();
                    let mut k: usize = 0;
                    while k < c.items.len()
                        invariant
                            0 <= k <= c.items@.len(),
                            cl_view(items@) =~= unchecked_items(
                                cl_view(c.items@.take(k as int)),
                            ),
                        decreases c.items@.len() - k,
                    {
                        let it = &c.items[k];
                        let ghost prefix = cl_view(c.items@.take(k as int));
                        let ghost next = cl_view(c.items@.take(k + 1));
                        proof {
                            assert(next.drop_last() =~= prefix);
                            assert(next.last() == (it.0, it.1@));
                            assert(next.len() > 0);
                            reveal_with_fuel(Seq::<(bool, Seq<char>)>::filter, 2);
                            assert(unchecked_items(next) == (if !it.0 {
                                unchecked_items(prefix).push(next.last())
                            } else {
                                unchecked_items(prefix)
                            }));
                        }
                        if !it.0 {
                            items.push((it.0, copy_string(&it.1)));
                            proof {
                                assert(cl_view(items@) =~= cl_view(items@.drop_last())
                                    + seq![(it.0, it.1@)]);
                                assert(unchecked_items(prefix).push(next.last())
                                    =~= unchecked_items(prefix) + seq![(it.0, it.1@)]);
                            }
                        }
                        k += 1;
                    }
                    proof {
                        assert(c.items@.take(c.items@.len() as int) =~= c.items@);
                    }
                    MarkdownBlock::Checklist(Checklist { items })
                },
                other => copy_block(other),
            };
            proof {
                assert(b@ =~= filter_block(self.blocks@[i as int]@));
            }
            let ghost prev = new_blocks@;
            new_blocks.push(b);
            proof {
                assert forall|j: int|
                    0 <= j < i + 1 implies blocks_view(new_blocks@)[j] == filter_block(
                    self.blocks@[j]@,
                ) by {
                    assert(blocks_view(new_blocks@)[j] == new_blocks@[j]@);
                    if j < i {
                        assert(new_blocks@[j] == prev[j]);
                        assert(blocks_view(prev)[j] == prev[j]@);
                    } else {
                        assert(new_blocks@[j] == b);
                        assert(b@ == filter_block(self.blocks@[j]@));
                    }
                }
            }
            i += 1;
        }
        proof {
            assert(blocks_view(new_blocks@) =~= spec_filter_completed(self@));
        }
        MarkdownFile { blocks: new_blocks }
    }
}

} // verus!
