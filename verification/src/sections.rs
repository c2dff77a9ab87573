//! Section-directed edits: the note and task commands locate a heading by a
//! keyword in its text and add an entry to the list or checklist that
//! follows it.

use vstd::prelude::*;

use crate::checklist::cl_view;
use crate::checklist::Checklist;
use crate::markdown::blocks_view;
use crate::markdown::copy_block;
use crate::markdown::copy_cl_items;
use crate::markdown::copy_ul_items;
use crate::markdown::BlockView;
use crate::markdown::MarkdownBlock;
use crate::markdown::MarkdownFile;
use crate::unordered_list::ul_view;
use crate::unordered_list::UnorderedList;
use crate::unordered_list::UnorderedListItem;

verus! {

/// Whether `n` occurs in `h` as a contiguous piece.
pub open spec fn has_sub(h: Seq<char>, n: Seq<char>) -> bool {
    exists|k: int| 0 <= k <= h.len() - n.len() && #[trigger] h.subrange(k, k + n.len()) == n
}

/// Whether a block is a heading whose text holds the keyword.
pub open spec fn is_kw_heading(b: BlockView, kw: Seq<char>) -> bool {
    match b {
        BlockView::Heading { level: _, content } => has_sub(content, kw),
        _ => false,
    }
}

/// Index of the last heading holding the keyword, if any.
pub open spec fn last_kw_heading(d: Seq<BlockView>, kw: Seq<char>) -> Option<int>
    decreases d.len(),
{
    if d.len() == 0 {
        None
    } else if is_kw_heading(d.last(), kw) {
        Some(d.len() - 1)
    } else {
        last_kw_heading(d.drop_last(), kw)
    }
}

/// Index of the first heading at or after `i` holding the keyword, if any.
pub open spec fn first_kw_heading_from(d: Seq<BlockView>, kw: Seq<char>, i: int) -> Option<
    int,
>
    decreases d.len() - i,
{
    if i < 0 || i >= d.len() {
        None
    } else if is_kw_heading(d[i], kw) {
        Some(i)
    } else {
        first_kw_heading_from(d, kw, i + 1)
    }
}

pub proof fn lemma_last_kw_heading(d: Seq<BlockView>, kw: Seq<char>)
    ensures
        match last_kw_heading(d, kw) {
            None => forall|j: int| 0 <= j < d.len() ==> !is_kw_heading(d[j], kw),
            Some(x) => 0 <= x < d.len() && is_kw_heading(d[x], kw) && (forall|j: int|
                x < j < d.len() ==> !is_kw_heading(d[j], kw)),
        },
    decreases d.len(),
{
    if d.len() > 0 && !is_kw_heading(d.last(), kw) {
        lemma_last_kw_heading(d.drop_last(), kw);
        assert forall|j: int| 0 <= j < d.len() - 1 implies d.drop_last()[j] == d[j] by {}
    }
}

pub proof fn lemma_first_kw_heading_from(d: Seq<BlockView>, kw: Seq<char>, i: int)
    requires
        0 <= i <= d.len(),
    ensures
        match first_kw_heading_from(d, kw, i) {
            None => forall|j: int| i <= j < d.len() ==> !is_kw_heading(d[j], kw),
            Some(x) => i <= x < d.len() && is_kw_heading(d[x], kw) && (forall|j: int|
                i <= j < x ==> !is_kw_heading(d[j], kw)),
        },
    decreases d.len() - i,
{
    if i < d.len() && !is_kw_heading(d[i], kw) {
        lemma_first_kw_heading_from(d, kw, i + 1);
    }
}

/// The items of an unordered-list block; empty for any other block.
pub open spec fn ul_items_of(b: BlockView) -> Seq<(Seq<char>, int)> {
    match b {
        BlockView::UnorderedList { items } => items,
        _ => Seq::empty(),
    }
}

/// The items of a checklist block; empty for any other block.
pub open spec fn cl_items_of(b: BlockView) -> Seq<(bool, Seq<char>)> {
    match b {
        BlockView::Checklist { items } => items,
        _ => Seq::empty(),
    }
}

/// What `add_note` leaves behind: after the last heading holding `Notes`,
/// the note joins the unordered list that follows the heading, or starts a
/// new single-item list there; a document without such a heading is
/// unchanged.
pub open spec fn spec_add_note(d: Seq<BlockView>, note: Seq<char>) -> Seq<BlockView> {
    match last_kw_heading(d, "Notes"@) {
        None => d,
        Some(idx) => {
            let at = idx + 1;
            if at < d.len() && (d[at] is UnorderedList) {
                d.update(
                    at,
                    BlockView::UnorderedList { items: ul_items_of(d[at]) + seq![(note, 0)] },
                )
            } else {
                d.insert(at, BlockView::UnorderedList { items: seq![(note, 0)] })
            }
        },
    }
}

/// What `add_task` leaves behind: after the first heading holding `Intake`,
/// or failing that the first holding `Tasks`, the task joins the checklist
/// that follows the heading as an unchecked item, or starts a new
/// single-item checklist there; a document without either heading is
/// unchanged.
pub open spec fn spec_add_task(d: Seq<BlockView>, task: Seq<char>) -> Seq<BlockView> {
    let target = match first_kw_heading_from(d, "Intake"@, 0) {
        Some(idx) => Some(idx),
        None => first_kw_heading_from(d, "Tasks"@, 0),
    };
    match target {
        None => d,
        Some(idx) => {
            let at = idx + 1;
            if at < d.len() && (d[at] is Checklist) {
                d.update(
                    at,
                    BlockView::Checklist { items: cl_items_of(d[at]) + seq![(false, task)] },
                )
            } else {
                d.insert(at, BlockView::Checklist { items: seq![(false, task)] })
            }
        },
    }
}

/// Whether `h` and `n` agree over `n`'s length starting at `k` in `h`.
pub(crate) fn match_at(h: &str, n: &str, k: usize) -> (r: bool)
    requires
        k + n@.len() <= h@.len(),
    ensures
        r == (h@.subrange(k as int, k + n@.len()) == n@),
{
    let _hl = h.unicode_len();
    let nl = n.unicode_len();
    let mut m: usize = 0;
    let mut ok = true;
    while ok && m < nl
        invariant
            0 <= m <= nl,
            nl == n@.len(),
            k + nl <= h@.len(),
            h@.len() <= usize::MAX,
            ok ==> forall|j: int| 0 <= j < m ==> h@[k + j] == n@[j],
            !ok ==> m < nl && h@[k + m as int] != n@[m as int],
        decreases nl - m, 1int - (if ok { 0int } else { 1int }),
    {
        if h.get_char(k + m) != n.get_char(m) {
            ok = false;
        } else {
            m += 1;
        }
    }
    proof {
        if ok {
            assert(h@.subrange(k as int, k + nl as int) =~= n@);
        } else {
            assert(h@.subrange(k as int, k + nl as int)[m as int] != n@[m as int]);
        }
    }
    ok
}

/// Whether `n` occurs anywhere in `h`.
pub fn str_contains(h: &str, n: &str) -> (r: bool)
    ensures
        r == has_sub(h@, n@),
{
    let hl = h.unicode_len();
    let nl = n.unicode_len();
    if nl > hl {
        proof {
            assert(!has_sub(h@, n@));
        }
        return false;
    }
    if nl == 0 {
        proof {
            assert(h@.subrange(0, 0 + n@.len() as int) =~= n@);
        }
        return true;
    }
    let mut k: usize = 0;
    let mut found = false;
    while !found && k <= hl - nl
        invariant
            0 <= k <= hl - nl + 1,
            hl == h@.len(),
            nl == n@.len(),
            1 <= nl <= hl,
            found ==> has_sub(h@, n@),
            !found ==> forall|j: int|
                0 <= j < k ==> #[trigger] h@.subrange(j, j + n@.len()) != n@,
        decreases hl - nl - k + 1, 1int - (if found { 1int } else { 0int }),
    {
        if match_at(h, n, k) {
            found = true;
        } else {
            k += 1;
        }
    }
    found
}

/// Whether this block is a heading whose text holds `kw`.
fn block_has_kw_heading(b: &MarkdownBlock, kw: &str) -> (r: bool)
    ensures
        r == is_kw_heading(b@, kw@),
{
    match b {
        MarkdownBlock::Heading(h) => str_contains(h.content.as_str(), kw),
        _ => false,
    }
}

impl MarkdownFile {
    /// Copies every block, keeping the document's view.
    pub fn copy_blocks(&self) -> (r: Vec<MarkdownBlock>)
        ensures
            blocks_view(r@) == self@,
    {
        let mut blocks: Vec<MarkdownBlock> = Vec::new();
        let mut i: usize = 0;
        while i < self.blocks.len()
            invariant
                0 <= i <= self.blocks@.len(),
                blocks@.len() == i,
                forall|j: int| 0 <= j < i ==> blocks@[j]@ == self.blocks@[j]@,
            decreases self.blocks@.len() - i,
        {
            blocks.push(copy_block(&self.blocks[i]));
            i += 1;
        }
        proof {
            assert(blocks_view(blocks@) =~= self@);
        }
        blocks
    }

    /// Index of the last heading whose text holds `kw`, if any.
    fn find_last_heading(&self, kw: &str) -> (r: Option<usize>)
        ensures
            (r is None) == (last_kw_heading(self@, kw@) is None),
            (r matches Some(x) ==> last_kw_heading(self@, kw@) == Some(x as int)),
    {
        let ghost d = self@;
        let mut found: Option<usize> = None;
        let mut i: usize = 0;
        proof {
            assert(d.take(0) =~= Seq::<BlockView>::empty());
        }
        while i < self.blocks.len()
            invariant
                0 <= i <= self.blocks@.len(),
                d == blocks_view(self.blocks@),
                (found is None) == (last_kw_heading(d.take(i as int), kw@) is None),
                (found matches Some(x) ==> x < i && last_kw_heading(d.take(i as int), kw@)
                    == Some(x as int)),
            decreases self.blocks@.len() - i,
        {
            proof {
                assert(d.take(i + 1).last() == d[i as int]);
                assert(d.take(i + 1).drop_last() =~= d.take(i as int));
            }
            if block_has_kw_heading(&self.blocks[i], kw) {
                found = Some(i);
            }
            i += 1;
        }
        proof {
            assert(d.take(d.len() as int) =~= d);
        }
        found
    }

    /// Index of the first heading whose text holds `kw`, if any.
    fn find_first_heading(&self, kw: &str) -> (r: Option<usize>)
        ensures
            (r is None) == (first_kw_heading_from(self@, kw@, 0) is None),
            (r matches Some(x) ==> first_kw_heading_from(self@, kw@, 0) == Some(x as int)),
    {
        let ghost d = self@;
        let mut i: usize = 0;
        let mut res: Option<usize> = None;
        while res.is_none() && i < self.blocks.len()
            invariant
                0 <= i <= self.blocks@.len(),
                d == blocks_view(self.blocks@),
                res is None ==> forall|j: int| 0 <= j < i ==> !is_kw_heading(d[j], kw@),
                (res matches Some(x) ==> x < i && is_kw_heading(d[x as int], kw@)
                    && (forall|j: int| 0 <= j < x ==> !is_kw_heading(d[j], kw@))),
            decreases self.blocks@.len() - i, (if res is None { 1int } else { 0int }),
        {
            if block_has_kw_heading(&self.blocks[i], kw) {
                res = Some(i);
            }
            i += 1;
        }
        proof {
            lemma_first_kw_heading_from(d, kw@, 0);
        }
        res
    }

    /// Builds the document whose view is `d.update(at, b@)`, copying every
    /// other block of this document.
    fn with_replaced(&self, at: usize, b: MarkdownBlock) -> (r: MarkdownFile)
        requires
            at < self.blocks@.len(),
        ensures
            r@ == self@.update(at as int, b@),
    {
        let ghost d = self@;
        let ghost bv = b@;
        let total = self.blocks.len();
        let mut blocks: Vec<MarkdownBlock> = Vec::new();
        let mut i: usize = 0;
        while i < at
            invariant
                0 <= i <= at < self.blocks@.len(),
                d == blocks_view(self.blocks@),
                blocks@.len() == i,
                forall|j: int| 0 <= j < i ==> blocks@[j]@ == d[j],
            decreases at - i,
        {
            blocks.push(copy_block(&self.blocks[i]));
            i += 1;
        }
        blocks.push(b);
        i += 1;
        while i < self.blocks.len()
            invariant
                at < i <= self.blocks@.len(),
                d == blocks_view(self.blocks@),
                at < self.blocks@.len(),
                blocks@.len() == i,
                forall|j: int| 0 <= j < i && j != at ==> blocks@[j]@ == d[j],
                blocks@[at as int]@ == bv,
            decreases self.blocks@.len() - i,
        {
            blocks.push(copy_block(&self.blocks[i]));
            i += 1;
        }
        proof {
            assert(blocks_view(blocks@) =~= d.update(at as int, bv));
        }
        MarkdownFile { blocks }
    }

    /// Builds the document whose view is `d.insert(at, b@)`, copying every
    /// block of this document around the insertion.
    fn with_inserted(&self, at: usize, b: MarkdownBlock) -> (r: MarkdownFile)
        requires
            at <= self.blocks@.len(),
        ensures
            r@ == self@.insert(at as int, b@),
    {
        let ghost d = self@;
        let ghost bv = b@;
        let mut blocks: Vec<MarkdownBlock> = Vec::new();
        let mut i: usize = 0;
        while i < at
            invariant
                0 <= i <= at <= self.blocks@.len(),
                d == blocks_view(self.blocks@),
                blocks@.len() == i,
                forall|j: int| 0 <= j < i ==> blocks@[j]@ == d[j],
            decreases at - i,
        {
            blocks.push(copy_block(&self.blocks[i]));
            i += 1;
        }
        blocks.push(b);
        while i < self.blocks.len()
            invariant
                at <= i <= self.blocks@.len(),
                d == blocks_view(self.blocks@),
                at <= self.blocks@.len(),
                blocks@.len() == i + 1,
                forall|j: int| 0 <= j < at ==> blocks@[j]@ == d[j],
                blocks@[at as int]@ == bv,
                forall|j: int| at <= j < i ==> blocks@[j + 1]@ == d[j],
            decreases self.blocks@.len() - i,
        {
            blocks.push(copy_block(&self.blocks[i]));
            i += 1;
        }
        proof {
            assert(blocks_view(blocks@) =~= d.insert(at as int, bv));
        }
        MarkdownFile { blocks }
    }

    /// Adds a note under the last heading holding `Notes`: appended to the
    /// unordered list that follows the heading, or opening a fresh
    /// single-item list when no list follows. Without such a heading the
    /// document comes back unchanged.
    pub fn add_note(&self, note: &str) -> (r: MarkdownFile)
        ensures
            r@ == spec_add_note(self@, note@),
    {
        let ghost d = self@;
        let new_item = UnorderedListItem {
            content: String::from_str(note),
            indentation_level: 0,
        };
        match self.find_last_heading("Notes") {
            None => {
                let blocks = self.copy_blocks();
                proof {
                    assert(blocks_view(blocks@) == spec_add_note(d, note@));
                }
                MarkdownFile { blocks }
            },
            Some(idx) => {
                let n = self.blocks.len();
                proof {
                    lemma_last_kw_heading(d, "Notes"@);
                    assert(idx < n);
                }
                let at = idx + 1;
                if at < n {
                    match &self.blocks[at] {
                        MarkdownBlock::UnorderedList(l) => {
                            let mut items = copy_ul_items(&l.items);
                            items.push(new_item);
                            proof {
                                assert(ul_view(items@) =~= ul_items_of(d[at as int]) + seq![
                                    (note@, 0int),
                                ]);
                            }
                            let merged = MarkdownBlock::UnorderedList(
                                UnorderedList { items },
                            );
                            let out = self.with_replaced(at, merged);
                            proof {
                                assert(out@ == spec_add_note(d, note@));
                            }
                            out
                        },
                        _ => {
                            let mut fresh: Vec<UnorderedListItem> = Vec::new();
                            fresh.push(new_item);
                            proof {
                                assert(!(d[at as int] is UnorderedList));
                                assert(ul_view(fresh@) =~= seq![(note@, 0int)]);
                            }
                            let out = self.with_inserted(
                                at,
                                MarkdownBlock::UnorderedList(UnorderedList { items: fresh }),
                            );
                            proof {
                                assert(out@ == spec_add_note(d, note@));
                            }
                            out
                        },
                    }
                } else {
                    let mut fresh: Vec<UnorderedListItem> = Vec::new();
                    fresh.push(new_item);
                    proof {
                        assert(ul_view(fresh@) =~= seq![(note@, 0int)]);
                    }
                    let out = self.with_inserted(
                        at,
                        MarkdownBlock::UnorderedList(UnorderedList { items: fresh }),
                    );
                    proof {
                        assert(out@ == spec_add_note(d, note@));
                    }
                    out
                }
            },
        }
    }

    /// Adds a task under the first heading holding `Intake`, or failing
    /// that the first holding `Tasks`: appended unchecked to the checklist
    /// that follows the heading, or opening a fresh single-item checklist
    /// when none follows. Without either heading the document comes back
    /// unchanged.
    pub fn add_task(&self, task: &str) -> (r: MarkdownFile)
        ensures
            r@ == spec_add_task(self@, task@),
    {
        let ghost d = self@;
        let target = match self.find_first_heading("Intake") {
            Some(idx) => Some(idx),
            None => self.find_first_heading("Tasks"),
        };
        match target {
            None => {
                let blocks = self.copy_blocks();
                MarkdownFile { blocks }
            },
            Some(idx) => {
                let n = self.blocks.len();
                proof {
                    lemma_first_kw_heading_from(d, "Intake"@, 0);
                    lemma_first_kw_heading_from(d, "Tasks"@, 0);
                    assert(idx < n);
                }
                let at = idx + 1;
                if at < n {
                    match &self.blocks[at] {
                        MarkdownBlock::Checklist(c) => {
                            let mut items = copy_cl_items(&c.items);
                            items.push((false, String::from_str(task)));
                            proof {
                                assert(cl_view(items@) =~= cl_items_of(d[at as int]) + seq![
                                    (false, task@),
                                ]);
                            }
                            let merged = MarkdownBlock::Checklist(Checklist { items });
                            self.with_replaced(at, merged)
                        },
                        _ => {
                            let mut fresh: Vec<(bool, String)> = Vec::new();
                            fresh.push((false, String::from_str(task)));
                            proof {
                                assert(!(d[at as int] is Checklist));
                                assert(cl_view(fresh@) =~= seq![(false, task@)]);
                            }
                            self.with_inserted(
                                at,
                                MarkdownBlock::Checklist(Checklist { items: fresh }),
                            )
                        },
                    }
                } else {
                    let mut fresh: Vec<(bool, String)> = Vec::new();
                    fresh.push((false, String::from_str(task)));
                    proof {
                        assert(cl_view(fresh@) =~= seq![(false, task@)]);
                    }
                    self.with_inserted(
                        at,
                        MarkdownBlock::Checklist(Checklist { items: fresh }),
                    )
                }
            },
        }
    }
}

} // verus!
