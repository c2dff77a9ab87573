//! The renderer: each block serializes itself to text, and a document joins
//! its blocks with one blank line between them.

use vstd::prelude::*;

use crate::checklist::cl_view;
use crate::checklist::Checklist;
use crate::heading::Heading;
use crate::markdown::blocks_view;
use crate::markdown::BlockView;
use crate::markdown::MarkdownBlock;
use crate::markdown::MarkdownFile;
use crate::ordered_list::ol_view;
use crate::ordered_list::OrderedList;
use crate::paragraph::Paragraph;
use crate::unordered_list::ul_view;
use crate::unordered_list::UnorderedList;

verus! {

/// `n` copies of one character.
pub open spec fn repeat_char(c: char, n: int) -> Seq<char> {
    if n <= 0 {
        Seq::empty()
    } else {
        Seq::new(n as nat, |i: int| c)
    }
}

/// One decimal digit as a character.
pub open spec fn digit_char(d: int) -> char {
    if d == 0 {
        '0'
    } else if d == 1 {
        '1'
    } else if d == 2 {
        '2'
    } else if d == 3 {
        '3'
    } else if d == 4 {
        '4'
    } else if d == 5 {
        '5'
    } else if d == 6 {
        '6'
    } else if d == 7 {
        '7'
    } else if d == 8 {
        '8'
    } else {
        '9'
    }
}

/// The decimal digits of `n`, most significant first.
pub open spec fn dec_digits(n: int) -> Seq<char>
    decreases n,
{
    if n < 10 {
        seq![digit_char(n)]
    } else {
        dec_digits(n / 10).push(digit_char(n % 10))
    }
}

/// `parts` joined by `sep`: empty for no parts, and no leading or trailing
/// separator.
pub open spec fn join_sep(parts: Seq<Seq<char>>, sep: Seq<char>) -> Seq<char>
    decreases parts.len(),
{
    if parts.len() == 0 {
        Seq::empty()
    } else if parts.len() == 1 {
        parts[0]
    } else {
        parts[0] + sep + join_sep(parts.drop_first(), sep)
    }
}

/// Joining one more part appends a separator first, unless nothing came
/// before it.
pub proof fn lemma_join_sep_push(parts: Seq<Seq<char>>, sep: Seq<char>, x: Seq<char>)
    ensures
        join_sep(parts.push(x), sep) == (if parts.len() == 0 {
            x
        } else {
            join_sep(parts, sep) + sep + x
        }),
    decreases parts.len(),
{
    let p = parts.push(x);
    if parts.len() == 0 {
        assert(p.len() == 1);
        assert(join_sep(p, sep) == p[0]);
        assert(p[0] == x);
    } else {
        assert(p.len() >= 2);
        assert(p.drop_first() =~= parts.drop_first().push(x));
        lemma_join_sep_push(parts.drop_first(), sep, x);
        if parts.len() == 1 {
            assert(join_sep(p, sep) == p[0] + sep + join_sep(p.drop_first(), sep));
            assert(join_sep(p.drop_first(), sep) == x);
            assert(join_sep(parts, sep) == parts[0]);
        } else {
            assert(join_sep(p, sep) == p[0] + sep + (join_sep(parts.drop_first(), sep) + sep
                + x));
            assert(p[0] + sep + (join_sep(parts.drop_first(), sep) + sep + x) =~= (parts[0]
                + sep + join_sep(parts.drop_first(), sep)) + sep + x);
        }
    }
}

/// One rendered line of an unordered list: two spaces per indentation level,
/// a dash, a space, the content.
pub open spec fn render_ul_item(p: (Seq<char>, int)) -> Seq<char> {
    repeat_char(' ', 2 * p.1) + seq!['-', ' '] + p.0
}

pub open spec fn ul_lines(items: Seq<(Seq<char>, int)>) -> Seq<Seq<char>> {
    items.map_values(|p: (Seq<char>, int)| render_ul_item(p))
}

/// One rendered line of a checklist: a box holding `x` when checked, a
/// space when not, then the content.
pub open spec fn render_cl_item(p: (bool, Seq<char>)) -> Seq<char> {
    seq!['-', ' ', '['] + (if p.0 {
        seq!['x']
    } else {
        seq![' ']
    }) + seq![']', ' '] + p.1
}

pub open spec fn cl_lines(items: Seq<(bool, Seq<char>)>) -> Seq<Seq<char>> {
    items.map_values(|p: (bool, Seq<char>)| render_cl_item(p))
}

/// One rendered line of an ordered list: its one-based position, a dot, a
/// space, the content.
pub open spec fn render_ol_item(k: int, c: Seq<char>) -> Seq<char> {
    dec_digits(k) + seq!['.', ' '] + c
}

pub open spec fn ol_lines(items: Seq<Seq<char>>) -> Seq<Seq<char>> {
    items.map(|i: int, c: Seq<char>| render_ol_item(i + 1, c))
}

/// The text of one block.
pub open spec fn render_block(b: BlockView) -> Seq<char> {
    match b {
        BlockView::Heading { level, content } => repeat_char('#', level) + seq![' ']
            + content,
        BlockView::Paragraph { content } => content,
        BlockView::UnorderedList { items } => join_sep(ul_lines(items), seq!['\n']),
        BlockView::OrderedList { items } => join_sep(ol_lines(items), seq!['\n']),
        BlockView::Checklist { items } => join_sep(cl_lines(items), seq!['\n']),
    }
}

pub open spec fn block_texts(d: Seq<BlockView>) -> Seq<Seq<char>> {
    d.map_values(|b: BlockView| render_block(b))
}

/// The text of a whole document: block texts joined by one blank line, with
/// no leading or trailing blank line.
pub open spec fn render_doc(d: Seq<BlockView>) -> Seq<char> {
    join_sep(block_texts(d), seq!['\n', '\n'])
}

/// Appends `n` `'#'` characters.
pub(crate) fn append_hashes(out: &mut String, n: usize)
    ensures
        final(out)@ == old(out)@ + repeat_char('#', n as int),
{
    let ghost base = out@;
    let mut k: usize = 0;
    proof {
        reveal_strlit("#");
        assert(base + repeat_char('#', 0) =~= base);
    }
    while k < n
        invariant
            0 <= k <= n,
            out@ == base + repeat_char('#', k as int),
        decreases n - k,
    {
        out.append("#");
        proof {
            reveal_strlit("#");
            assert(base + repeat_char('#', k as int) + "#"@ =~= base + repeat_char(
                '#',
                k as int + 1,
            ));
        }
        k += 1;
    }
}

/// Appends two spaces for each indentation level.
fn append_indent(out: &mut String, ind: usize)
    ensures
        final(out)@ == old(out)@ + repeat_char(' ', 2 * ind as int),
{
    let ghost base = out@;
    let mut k: usize = 0;
    proof {
        reveal_strlit("  ");
        assert(base + repeat_char(' ', 0) =~= base);
    }
    while k < ind
        invariant
            0 <= k <= ind,
            out@ == base + repeat_char(' ', 2 * k as int),
        decreases ind - k,
    {
        out.append("  ");
        proof {
            reveal_strlit("  ");
            assert(base + repeat_char(' ', 2 * k as int) + "  "@ =~= base + repeat_char(
                ' ',
                2 * (k as int + 1),
            ));
        }
        k += 1;
    }
}

/// One decimal digit as text.
fn digit_str(d: usize) -> (r: &'static str)
    requires
        d < 10,
    ensures
        r@ == seq![digit_char(d as int)],
{
    proof {
        reveal_strlit("0");
        reveal_strlit("1");
        reveal_strlit("2");
        reveal_strlit("3");
        reveal_strlit("4");
        reveal_strlit("5");
        reveal_strlit("6");
        reveal_strlit("7");
        reveal_strlit("8");
        reveal_strlit("9");
    }
    match d {
        0 => "0",
        1 => "1",
        2 => "2",
        3 => "3",
        4 => "4",
        5 => "5",
        6 => "6",
        7 => "7",
        8 => "8",
        _ => "9",
    }
}

/// Appends `n` in decimal.
fn append_number(out: &mut String, n: usize)
    ensures
        final(out)@ == old(out)@ + dec_digits(n as int),
    decreases n,
{
    if n < 10 {
        out.append(digit_str(n));
    } else {
        append_number(out, n / 10);
        out.append(digit_str(n % 10));
        proof {
            assert(old(out)@ + dec_digits(n as int / 10) + seq![
                digit_char(n as int % 10),
            ] =~= old(out)@ + dec_digits(n as int));
        }
    }
}

impl Heading {
    /// This heading as text: its level in `'#'` characters, a space, its
    /// content.
    pub fn render(&self) -> (r: String)
        ensures
            r@ == render_block(
                BlockView::Heading { level: self.level as int, content: self.content@ },
            ),
    {
        let mut out = String::new();
        append_hashes(&mut out, self.level as usize);
        out.append(" ");
        out.append(self.content.as_str());
        proof {
            reveal_strlit(" ");
            assert(Seq::<char>::empty() + repeat_char('#', self.level as int) + " "@
                + self.content@ =~= repeat_char('#', self.level as int) + seq![' ']
                + self.content@);
        }
        out
    }
}

impl Paragraph {
    /// This paragraph as text: its content, one line.
    pub fn render(&self) -> (r: String)
        ensures
            r@ == render_block(BlockView::Paragraph { content: self.content@ }),
    {
        self.content.clone()
    }
}

impl UnorderedList {
    /// This list as text: one line per item, each indented two spaces per
    /// level with a `"- "` marker, whatever bullet the source used.
    pub fn render(&self) -> (r: String)
        ensures
            r@ == render_block(BlockView::UnorderedList { items: ul_view(self.items@) }),
    {
        let ghost iv = ul_view(self.items@);
        let mut out = String::new();
        let mut i: usize = 0;
        proof {
            assert(ul_lines(iv.take(0)) =~= Seq::<Seq<char>>::empty());
        }
        while i < self.items.len()
            invariant
                0 <= i <= self.items@.len(),
                iv == ul_view(self.items@),
                out@ == join_sep(ul_lines(iv.take(i as int)), seq!['\n']),
            decreases self.items@.len() - i,
        {
            let ghost pre = out@;
            if i > 0 {
                out.append("\n");
            }
            let it = &self.items[i];
            append_indent(&mut out, it.indentation_level);
            out.append("- ");
            out.append(it.content.as_str());
            proof {
                reveal_strlit("\n");
                reveal_strlit("- ");
                let item = (it.content@, it.indentation_level as int);
                assert(iv[i as int] == item);
                assert(ul_lines(iv.take(i + 1)) =~= ul_lines(iv.take(i as int)).push(
                    render_ul_item(item),
                ));
                lemma_join_sep_push(ul_lines(iv.take(i as int)), seq!['\n'], render_ul_item(
                    item,
                ));
                if i > 0 {
                    assert(out@ =~= pre + seq!['\n'] + render_ul_item(item));
                } else {
                    assert(ul_lines(iv.take(0)).len() == 0);
                    assert(out@ =~= render_ul_item(item));
                }
            }
            i += 1;
        }
        proof {
            assert(iv.take(iv.len() as int) =~= iv);
        }
        out
    }
}

impl OrderedList {
    /// This list as text: one line per item, numbered from one upward in
    /// order, whatever numbers the source used.
    pub fn render(&self) -> (r: String)
        ensures
            r@ == render_block(BlockView::OrderedList { items: ol_view(self.items@) }),
    {
        let ghost iv = ol_view(self.items@);
        let mut out = String::new();
        let mut i: usize = 0;
        proof {
            assert(ol_lines(iv.take(0)) =~= Seq::<Seq<char>>::empty());
        }
        while i < self.items.len()
            invariant
                0 <= i <= self.items@.len(),
                iv == ol_view(self.items@),
                out@ == join_sep(ol_lines(iv.take(i as int)), seq!['\n']),
            decreases self.items@.len() - i,
        {
            let ghost pre = out@;
            if i > 0 {
                out.append("\n");
            }
            append_number(&mut out, i + 1);
            out.append(". ");
            out.append(self.items[i].as_str());
            proof {
                reveal_strlit("\n");
                reveal_strlit(". ");
                let line = render_ol_item(i as int + 1, iv[i as int]);
                assert(ol_lines(iv.take(i + 1)) =~= ol_lines(iv.take(i as int)).push(line));
                lemma_join_sep_push(ol_lines(iv.take(i as int)), seq!['\n'], line);
                if i > 0 {
                    assert(out@ =~= pre + seq!['\n'] + line);
                } else {
                    assert(ol_lines(iv.take(0)).len() == 0);
                    assert(out@ =~= line);
                }
            }
            i += 1;
        }
        proof {
            assert(iv.take(iv.len() as int) =~= iv);
        }
        out
    }
}

impl Checklist {
    /// This checklist as text: one `"- [x]"` or `"- [ ]"` line per item.
    pub fn render(&self) -> (r: String)
        ensures
            r@ == render_block(BlockView::Checklist { items: cl_view(self.items@) }),
    {
        let ghost iv = cl_view(self.items@);
        let mut out = String::new();
        let mut i: usize = 0;
        proof {
            assert(cl_lines(iv.take(0)) =~= Seq::<Seq<char>>::empty());
        }
        while i < self.items.len()
            invariant
                0 <= i <= self.items@.len(),
                iv == cl_view(self.items@),
                out@ == join_sep(cl_lines(iv.take(i as int)), seq!['\n']),
            decreases self.items@.len() - i,
        {
            let ghost pre = out@;
            if i > 0 {
                out.append("\n");
            }
            let it = &self.items[i];
            if it.0 {
                out.append("- [x] ");
            } else {
                out.append("- [ ] ");
            }
            out.append(it.1.as_str());
            proof {
                reveal_strlit("\n");
                reveal_strlit("- [x] ");
                reveal_strlit("- [ ] ");
                let item = (it.0, it.1@);
                assert(iv[i as int] == item);
                assert(cl_lines(iv.take(i + 1)) =~= cl_lines(iv.take(i as int)).push(
                    render_cl_item(item),
                ));
                lemma_join_sep_push(cl_lines(iv.take(i as int)), seq!['\n'], render_cl_item(
                    item,
                ));
                if i > 0 {
                    assert(out@ =~= pre + seq!['\n'] + render_cl_item(item));
                } else {
                    assert(cl_lines(iv.take(0)).len() == 0);
                    assert(out@ =~= render_cl_item(item));
                }
            }
            i += 1;
        }
        proof {
            assert(iv.take(iv.len() as int) =~= iv);
        }
        out
    }
}

impl MarkdownBlock {
    /// This block as text.
    pub fn render(&self) -> (r: String)
        ensures
            r@ == render_block(self@),
    {
        match self {
            MarkdownBlock::Heading(h) => h.render(),
            MarkdownBlock::Paragraph(p) => p.render(),
            MarkdownBlock::UnorderedList(l) => l.render(),
            MarkdownBlock::OrderedList(l) => l.render(),
            MarkdownBlock::Checklist(c) => c.render(),
        }
    }
}

impl MarkdownFile {
    /// The whole document as text: each block rendered, with exactly one
    /// blank line between blocks and none before or after the document.
    pub fn to_string(&self) -> (r: String)
        ensures
            r@ == render_doc(self@),
    {
        let ghost d = self@;
        let mut out = String::new();
        let mut i: usize = 0;
        proof {
            assert(block_texts(d.take(0)) =~= Seq::<Seq<char>>::empty());
        }
        while i < self.blocks.len()
            invariant
                0 <= i <= self.blocks@.len(),
                d == blocks_view(self.blocks@),
                out@ == join_sep(block_texts(d.take(i as int)), seq!['\n', '\n']),
            decreases self.blocks@.len() - i,
        {
            let ghost pre = out@;
            if i > 0 {
                out.append("\n\n");
            }
            let text = self.blocks[i].render();
            out.append(text.as_str());
            proof {
                reveal_strlit("\n\n");
                let bt = render_block(d[i as int]);
                assert(block_texts(d.take(i + 1)) =~= block_texts(d.take(i as int)).push(bt));
                lemma_join_sep_push(block_texts(d.take(i as int)), seq!['\n', '\n'], bt);
                if i > 0 {
                    assert(out@ =~= pre + seq!['\n', '\n'] + bt);
                } else {
                    assert(block_texts(d.take(0)).len() == 0);
                    assert(out@ =~= bt);
                }
            }
            i += 1;
        }
        proof {
            assert(d.take(d.len() as int) =~= d);
        }
        out
    }
}

} // verus!
