//! The round-trip law: rendering a well-formed block sequence and parsing
//! the result gives the same sequence back. Parsed documents are of this
//! shape except where a paragraph's joined lines happen to form a
//! block-start line, so rendering is semantically faithful: what the
//! renderer writes, the parser reads back unchanged.

use vstd::prelude::*;

use crate::checklist::cl_cont;
use crate::checklist::cl_items;
use crate::checklist::cl_run_end;
use crate::classify::checklist_checked;
use crate::classify::checklist_content;
use crate::classify::heading_content;
use crate::classify::heading_level;
use crate::classify::indent_of;
use crate::classify::is_checklist;
use crate::classify::is_heading;
use crate::classify::is_ordered;
use crate::classify::is_unordered;
use crate::classify::ordered_content;
use crate::classify::unordered_content;
use crate::classify::ws_weight;
use crate::lines::spec_lines;
use crate::lines::strip_cr;
use crate::markdown::BlockView;
use crate::ordered_list::ol_cont;
use crate::ordered_list::ol_items;
use crate::ordered_list::ol_run_end;
use crate::parse::para_cont_at;
use crate::parse::para_content;
use crate::parse::para_end;
use crate::parse::parse_from;
use crate::parse::parse_text;
use crate::parse::starts_block;
use crate::render::cl_lines;
use crate::render::dec_digits;
use crate::render::join_sep;
use crate::render::ol_lines;
use crate::render::render_block;
use crate::render::render_cl_item;
use crate::render::render_doc;
use crate::render::render_ol_item;
use crate::render::render_ul_item;
use crate::render::repeat_char;
use crate::render::ul_lines;
use crate::scan::digit_run_end;
use crate::scan::is_blank;
use crate::scan::is_bullet;
use crate::scan::is_digit;
use crate::scan::is_ws;
use crate::scan::lemma_blank_iff_all_ws;
use crate::scan::lemma_digit_run_end_is;
use crate::scan::lemma_hash_run_end_is;
use crate::scan::lemma_trim_id;
use crate::scan::lemma_ws_run_end_is;
use crate::scan::trim_spec;
use crate::scan::ws_run_end;
use crate::unordered_list::ul_cont;
use crate::unordered_list::ul_items;
use crate::unordered_list::ul_run_end;

verus! {

/// Text fit for one item or line of content: nonempty, trimmed at both
/// ends, and without a line break.
pub open spec fn wf_text(c: Seq<char>) -> bool {
    &&& c.len() > 0
    &&& !is_ws(c[0])
    &&& !is_ws(c.last())
    &&& forall|j: int| 0 <= j < c.len() ==> c[j] != '\n'
}

/// Item content that, set after a bullet, would read as a checklist box: a
/// bracket with a mark, then whitespace and more text. Such content would
/// change kind on a round trip, so a well-formed unordered item avoids it.
pub open spec fn cl_tail(c: Seq<char>) -> bool {
    &&& c.len() > 2
    &&& c[0] == '['
    &&& (c[1] == ' ' || c[1] == 'x' || c[1] == 'X')
    &&& c[2] == ']'
    &&& ws_run_end(c, 3) > 3
    &&& ws_run_end(c, 3) < c.len()
}

/// A block whose rendering reads back as itself: heading levels in range,
/// all content trimmed, nonempty and single-line, at least one item per
/// list, paragraph text that starts no structured block, and no unordered
/// item that would read as a checklist box.
pub open spec fn wf_block(b: BlockView) -> bool {
    match b {
        BlockView::Heading { level, content } => 1 <= level <= 6 && wf_text(content),
        BlockView::Paragraph { content } => wf_text(content) && !starts_block(content),
        BlockView::UnorderedList { items } => items.len() >= 1 && (forall|j: int|
            0 <= j < items.len() ==> wf_text(#[trigger] items[j].0) && 0 <= items[j].1
                <= usize::MAX && !cl_tail(items[j].0)),
        BlockView::OrderedList { items } => items.len() >= 1 && (forall|j: int|
            0 <= j < items.len() ==> wf_text(#[trigger] items[j])),
        BlockView::Checklist { items } => items.len() >= 1 && (forall|j: int|
            0 <= j < items.len() ==> wf_text(#[trigger] items[j].1)),
    }
}

/// Whether two neighbouring blocks are lists of one same kind; rendering
/// separates blocks only by a blank line, which such a pair's runs would
/// swallow, merging them.
pub open spec fn same_list_kind(a: BlockView, b: BlockView) -> bool {
    ||| (a is UnorderedList && b is UnorderedList)
    ||| (a is OrderedList && b is OrderedList)
    ||| (a is Checklist && b is Checklist)
}

/// A document whose rendering reads back as itself: every block
/// well-formed, and no two neighbouring lists of one kind.
pub open spec fn wf_doc(d: Seq<BlockView>) -> bool {
    &&& forall|i: int| 0 <= i < d.len() ==> wf_block(#[trigger] d[i])
    &&& forall|i: int|
        0 <= i < d.len() - 1 ==> !same_list_kind(#[trigger] d[i], d[i + 1])
}

/// What the line classifier makes of one rendered line: how the line is
/// classified and what it yields, bundled for the run lemmas.
pub proof fn lemma_heading_line(level: int, content: Seq<char>)
    requires
        1 <= level <= 6,
        wf_text(content),
    ensures
        ({
            let t = repeat_char('#', level) + seq![' '] + content;
            &&& forall|j: int| 0 <= j < t.len() ==> t[j] != '\n'
            &&& t.last() != '\r'
            &&& t.len() > 0
            &&& !is_blank(t)
            &&& trim_spec(t) == t
            &&& is_heading(t)
            &&& heading_level(t) == level
            &&& heading_content(t) == content
            &&& !is_checklist(t)
            &&& !is_unordered(t)
            &&& !is_ordered(t)
        }),
{
    let t = repeat_char('#', level) + seq![' '] + content;
    assert(t.len() == level + 1 + content.len());
    assert forall|j: int| 0 <= j < t.len() implies t[j] != '\n' by {
        if j < level {
            assert(t[j] == '#');
        } else if j == level {
            assert(t[j] == ' ');
        } else {
            assert(t[j] == content[j - level - 1]);
        }
    }
    assert(t[0] == '#');
    assert(t.last() == content.last());
    lemma_trim_id(t);
    lemma_blank_iff_all_ws(t);
    assert(!is_blank(t)) by {
        assert(!is_ws(t[0]));
    }
    assert forall|j: int| 0 <= j < level implies t[j] == '#' by {}
    assert(t[level] == ' ');
    lemma_hash_run_end_is(t, 0, level);
    assert(is_ws(t[level]));
    assert(heading_level(t) == level);
    assert(is_heading(t));
    assert(t[level + 1] == content[0]);
    lemma_ws_run_end_is(t, level + 1, level + 1);
    assert(ws_run_end(t, level) == level + 1) by {
        lemma_ws_run_end_is(t, level + 1, level + 1);
        assert(is_ws(t[level]));
    }
    assert(heading_content(t) =~= content);
    assert(!is_bullet(t[0]));
    assert(!is_checklist(t));
    assert(!is_unordered(t));
    assert(!is_digit(t[0]));
    lemma_digit_run_end_is(t, 0, 0);
    assert(!is_ordered(t));
}

/// One rendered paragraph: its single line is prose that no structured
/// pattern claims.
pub proof fn lemma_para_line(content: Seq<char>)
    requires
        wf_text(content),
        !starts_block(content),
    ensures
        content.last() != '\r',
        !is_blank(content),
        trim_spec(content) == content,
{
    lemma_trim_id(content);
    lemma_blank_iff_all_ws(content);
    assert(!is_ws(content[0]));
}

/// One rendered checklist line: it classifies as a checklist item and gives
/// back the checked flag and the content.
pub proof fn lemma_cl_item_line(p: (bool, Seq<char>))
    requires
        wf_text(p.1),
    ensures
        ({
            let t = render_cl_item(p);
            &&& forall|j: int| 0 <= j < t.len() ==> t[j] != '\n'
            &&& t.last() != '\r'
            &&& t.len() > 0
            &&& !is_blank(t)
            &&& trim_spec(t) == t
            &&& is_checklist(t)
            &&& checklist_checked(t) == p.0
            &&& checklist_content(t) == p.1
            &&& !is_heading(t)
            &&& !is_ordered(t)
        }),
{
    let t = render_cl_item(p);
    let c = p.1;
    assert(t.len() == 6 + c.len());
    assert(t[0] == '-');
    assert(t[1] == ' ');
    assert(t[2] == '[');
    assert(t[3] == (if p.0 {
        'x'
    } else {
        ' '
    }));
    assert(t[4] == ']');
    assert(t[5] == ' ');
    assert forall|j: int| 6 <= j < t.len() implies t[j] == c[j - 6] by {}
    assert forall|j: int| 0 <= j < t.len() implies t[j] != '\n' by {
        if j >= 6 {
            assert(t[j] == c[j - 6]);
        }
    }
    assert(t.last() == c.last());
    lemma_trim_id(t);
    lemma_blank_iff_all_ws(t);
    assert(!is_blank(t)) by {
        assert(!is_ws(t[0]));
    }
    assert(t[6] == c[0]);
    lemma_ws_run_end_is(t, 1, 2);
    lemma_ws_run_end_is(t, 5, 6);
    assert(is_checklist(t));
    assert(checklist_checked(t) == p.0);
    assert(checklist_content(t) =~= c);
    lemma_hash_run_end_is(t, 0, 0);
    assert(!is_heading(t));
    lemma_digit_run_end_is(t, 0, 0);
    assert(!is_ordered(t));
}

/// One rendered unordered line: it classifies as a plain bullet item, never
/// a checklist, and gives back the content and the indentation level.
pub proof fn lemma_ul_item_line(p: (Seq<char>, int))
    requires
        wf_text(p.0),
        !cl_tail(p.0),
        0 <= p.1 <= usize::MAX,
    ensures
        ({
            let raw = render_ul_item(p);
            let t = trim_spec(raw);
            &&& forall|j: int| 0 <= j < raw.len() ==> raw[j] != '\n'
            &&& raw.last() != '\r'
            &&& raw.len() > 0
            &&& !is_blank(raw)
            &&& t == seq!['-', ' '] + p.0
            &&& is_unordered(t)
            &&& !is_checklist(t)
            &&& unordered_content(t) == p.0
            &&& indent_of(raw) == p.1
            &&& !is_heading(t)
            &&& !is_ordered(t)
        }),
{
    let raw = render_ul_item(p);
    let c = p.0;
    let ind = p.1;
    let t = seq!['-', ' '] + c;
    assert(raw.len() == 2 * ind + 2 + c.len());
    assert forall|j: int| 0 <= j < raw.len() implies raw[j] != '\n' by {
        if j < 2 * ind {
            assert(raw[j] == ' ');
        } else if j == 2 * ind {
            assert(raw[j] == '-');
        } else if j == 2 * ind + 1 {
            assert(raw[j] == ' ');
        } else {
            assert(raw[j] == c[j - 2 * ind - 2]);
        }
    }
    assert(raw.last() == c.last());
    assert forall|j: int| 0 <= j < 2 * ind implies is_ws(raw[j]) by {
        assert(raw[j] == ' ');
    }
    assert(raw[2 * ind] == '-');
    lemma_ws_run_end_is(raw, 0, 2 * ind);
    // the trimmed line: strip the indentation, keep the rest
    assert(!is_ws(raw[2 * ind]));
    assert(!is_ws(raw.last()));
    crate::scan::lemma_trim_spec(raw);
    assert(trim_spec(raw).len() > 0) by {
        if trim_spec(raw).len() == 0 {
            lemma_blank_iff_all_ws(raw);
            assert(is_ws(raw[2 * ind]));
        }
    }
    // the trim keeps exactly the piece from the bullet to the end
    assert(trim_spec(raw) =~= t) by {
        crate::scan::lemma_trim_end_idx(raw.subrange(2 * ind, raw.len() as int));
        let rest = raw.subrange(2 * ind, raw.len() as int);
        assert(rest.last() == c.last());
        assert(crate::scan::trim_end_idx(rest) == rest.len());
        assert(rest.take(rest.len() as int) =~= rest);
        assert(rest =~= t);
    }
    lemma_blank_iff_all_ws(raw);
    assert(!is_blank(raw)) by {
        assert(is_ws(raw[2 * ind]) == false);
    }
    assert(t[0] == '-');
    assert(t[1] == ' ');
    assert(t[2] == c[0]);
    lemma_ws_run_end_is(t, 1, 2);
    assert(is_unordered(t));
    assert(unordered_content(t) =~= c);
    // a checklist reading would need the content to open as a box
    assert(!is_checklist(t)) by {
        if is_checklist(t) {
            assert(ws_run_end(t, 1) == 2);
            assert(t[2] == '[');
            assert(c[0] == '[');
            assert(c[1] == t[3]);
            assert(c[2] == t[4]);
            let b = ws_run_end(t, 5);
            crate::scan::lemma_ws_run_end(t, 5);
            assert forall|j: int| 3 <= j < b - 2 implies is_ws(c[j]) by {
                assert(c[j] == t[j + 2]);
            }
            assert(b - 2 < c.len() ==> !is_ws(c[b - 2])) by {
                if b - 2 < c.len() {
                    assert(c[b - 2] == t[b]);
                }
            }
            lemma_ws_run_end_is(c, 3, b - 2);
            assert(cl_tail(c));
        }
    }
    // the indentation weight of the leading spaces is one per space
    assert(ws_weight(raw, 0) == 2 * ind) by {
        lemma_ws_weight_spaces(raw, 0, 2 * ind);
    }
    assert(indent_of(raw) == ind);
    lemma_hash_run_end_is(t, 0, 0);
    assert(!is_heading(t));
    lemma_digit_run_end_is(t, 0, 0);
    assert(!is_ordered(t));
}

/// The leading-whitespace weight of a stretch of plain spaces.
pub proof fn lemma_ws_weight_spaces(l: Seq<char>, i: int, m: int)
    requires
        0 <= i <= m <= l.len(),
        forall|j: int| i <= j < m ==> l[j] == ' ',
        m < l.len() ==> !is_ws(l[m]),
    ensures
        ws_weight(l, i) == m - i,
    decreases m - i,
{
    if i < m {
        lemma_ws_weight_spaces(l, i + 1, m);
    }
}

/// The decimal digits of a number: at least one, all digits.
pub proof fn lemma_dec_digits(n: int)
    requires
        n >= 0,
    ensures
        dec_digits(n).len() >= 1,
        forall|j: int| 0 <= j < dec_digits(n).len() ==> is_digit(#[trigger] dec_digits(n)[j]),
    decreases n,
{
    if n >= 10 {
        lemma_dec_digits(n / 10);
    }
}

/// One rendered ordered line: it classifies as an ordered item, whatever
/// its position number, and gives back the content.
pub proof fn lemma_ol_item_line(k: int, c: Seq<char>)
    requires
        k >= 1,
        wf_text(c),
    ensures
        ({
            let t = render_ol_item(k, c);
            &&& forall|j: int| 0 <= j < t.len() ==> t[j] != '\n'
            &&& t.last() != '\r'
            &&& t.len() > 0
            &&& !is_blank(t)
            &&& trim_spec(t) == t
            &&& is_ordered(t)
            &&& ordered_content(t) == c
            &&& !is_heading(t)
            &&& !is_checklist(t)
            &&& !is_unordered(t)
        }),
{
    let t = render_ol_item(k, c);
    let ds = dec_digits(k);
    lemma_dec_digits(k);
    let m = ds.len() as int;
    assert(t.len() == m + 2 + c.len());
    assert forall|j: int| 0 <= j < m implies is_digit(t[j]) by {
        assert(t[j] == ds[j]);
    }
    assert(t[m] == '.');
    assert(t[m + 1] == ' ');
    assert forall|j: int| m + 2 <= j < t.len() implies t[j] == c[j - m - 2] by {}
    assert forall|j: int| 0 <= j < t.len() implies t[j] != '\n' by {
        if j < m {
            assert(is_digit(t[j]));
        } else if j >= m + 2 {
            assert(t[j] == c[j - m - 2]);
        }
    }
    assert(t.last() == c.last());
    assert(is_digit(t[0]));
    assert(!is_ws(t[0]));
    lemma_trim_id(t);
    lemma_blank_iff_all_ws(t);
    assert(!is_blank(t)) by {
        assert(!is_ws(t[0]));
    }
    lemma_digit_run_end_is(t, 0, m);
    assert(t[m + 2] == c[0]);
    lemma_ws_run_end_is(t, m + 1, m + 2);
    assert(is_ordered(t));
    assert(ordered_content(t) =~= c);
    lemma_hash_run_end_is(t, 0, 0);
    assert(!is_heading(t));
    assert(!is_bullet(t[0]));
    assert(!is_checklist(t));
    assert(!is_unordered(t));
}

/// A checklist run over rendered item lines: it collects exactly the items
/// and stops right after the blank separator, or at the end of the text.
#[verifier::rlimit(50)]
pub proof fn lemma_cl_run(L: Seq<Seq<char>>, p: int, items: Seq<(bool, Seq<char>)>)
    requires
        0 <= p,
        p + items.len() <= L.len(),
        forall|j: int| 0 <= j < items.len() ==> L[p + j] == render_cl_item(#[trigger] items[j]),
        forall|j: int| 0 <= j < items.len() ==> wf_text(#[trigger] items[j].1),
        p + items.len() == L.len() || (is_blank(L[p + items.len()]) && p + items.len() + 1
            < L.len() && !is_blank(L[p + items.len() + 1]) && !is_checklist(
            trim_spec(L[p + items.len() + 1]),
        )),
    ensures
        cl_run_end(L, p) == (if p + items.len() == L.len() {
            L.len() as int
        } else {
            p + items.len() + 1
        }),
        cl_items(L, p) == items,
    decreases items.len(),
{
    let m = items.len() as int;
    if m == 0 {
        if p < L.len() {
            assert(cl_cont(L[p]));
            assert(!cl_cont(L[p + 1]));
            assert(cl_run_end(L, p + 1) == p + 1);
            assert(cl_items(L, p + 1) =~= Seq::<(bool, Seq<char>)>::empty());
            assert(cl_run_end(L, p) == p + 1);
        }
        assert(cl_items(L, p) =~= items);
    } else {
        lemma_cl_item_line(items[0]);
        assert(L[p] == render_cl_item(items[0]));
        assert(!is_blank(L[p]));
        assert(is_checklist(trim_spec(L[p])));
        assert(cl_cont(L[p]));
        let rest = items.drop_first();
        assert forall|j: int| 0 <= j < rest.len() implies L[p + 1 + j] == render_cl_item(
            #[trigger] rest[j],
        ) by {
            assert(rest[j] == items[j + 1]);
        }
        assert forall|j: int| 0 <= j < rest.len() implies wf_text(#[trigger] rest[j].1) by {
            assert(rest[j] == items[j + 1]);
        }
        lemma_cl_run(L, p + 1, rest);
        assert((checklist_checked(trim_spec(L[p])), checklist_content(trim_spec(L[p])))
            == items[0]);
        assert(cl_items(L, p) =~= seq![items[0]] + rest);
        assert(seq![items[0]] + rest =~= items);
    }
}

/// An unordered run over rendered item lines: it collects exactly the items
/// and stops right after the blank separator, or at the end of the text.
#[verifier::rlimit(50)]
pub proof fn lemma_ul_run(L: Seq<Seq<char>>, p: int, items: Seq<(Seq<char>, int)>)
    requires
        0 <= p,
        p + items.len() <= L.len(),
        forall|j: int| 0 <= j < items.len() ==> L[p + j] == render_ul_item(#[trigger] items[j]),
        forall|j: int|
            0 <= j < items.len() ==> wf_text(#[trigger] items[j].0) && 0 <= items[j].1
                <= usize::MAX && !cl_tail(items[j].0),
        p + items.len() == L.len() || (is_blank(L[p + items.len()]) && p + items.len() + 1
            < L.len() && !is_blank(L[p + items.len() + 1]) && !(is_unordered(
            trim_spec(L[p + items.len() + 1]),
        ) && !is_checklist(trim_spec(L[p + items.len() + 1])))),
    ensures
        ul_run_end(L, p) == (if p + items.len() == L.len() {
            L.len() as int
        } else {
            p + items.len() + 1
        }),
        ul_items(L, p) == items,
    decreases items.len(),
{
    let m = items.len() as int;
    if m == 0 {
        if p < L.len() {
            assert(ul_cont(L[p]));
            assert(!ul_cont(L[p + 1]));
            assert(ul_run_end(L, p + 1) == p + 1);
            assert(ul_items(L, p + 1) =~= Seq::<(Seq<char>, int)>::empty());
            assert(ul_run_end(L, p) == p + 1);
        }
        assert(ul_items(L, p) =~= items);
    } else {
        lemma_ul_item_line(items[0]);
        assert(L[p] == render_ul_item(items[0]));
        assert(!is_blank(L[p]));
        assert(ul_cont(L[p]));
        let rest = items.drop_first();
        assert forall|j: int| 0 <= j < rest.len() implies L[p + 1 + j] == render_ul_item(
            #[trigger] rest[j],
        ) by {
            assert(rest[j] == items[j + 1]);
        }
        assert forall|j: int|
            0 <= j < rest.len() implies wf_text(#[trigger] rest[j].0) && 0 <= rest[j].1
            <= usize::MAX && !cl_tail(rest[j].0) by {
            assert(rest[j] == items[j + 1]);
        }
        lemma_ul_run(L, p + 1, rest);
        assert((unordered_content(trim_spec(L[p])), indent_of(L[p])) == items[0]);
        assert(ul_items(L, p) =~= seq![items[0]] + rest);
        assert(seq![items[0]] + rest =~= items);
    }
}

/// An ordered run over rendered item lines, numbered from `k0` on: it
/// collects exactly the item texts and stops right after the blank
/// separator, or at the end of the text.
#[verifier::rlimit(50)]
pub proof fn lemma_ol_run(L: Seq<Seq<char>>, p: int, k0: int, items: Seq<Seq<char>>)
    requires
        0 <= p,
        k0 >= 1,
        p + items.len() <= L.len(),
        forall|j: int|
            0 <= j < items.len() ==> L[p + j] == render_ol_item(k0 + j, #[trigger] items[j]),
        forall|j: int| 0 <= j < items.len() ==> wf_text(#[trigger] items[j]),
        p + items.len() == L.len() || (is_blank(L[p + items.len()]) && p + items.len() + 1
            < L.len() && !is_blank(L[p + items.len() + 1]) && !is_ordered(
            trim_spec(L[p + items.len() + 1]),
        )),
    ensures
        ol_run_end(L, p) == (if p + items.len() == L.len() {
            L.len() as int
        } else {
            p + items.len() + 1
        }),
        ol_items(L, p) == items,
    decreases items.len(),
{
    let m = items.len() as int;
    if m == 0 {
        if p < L.len() {
            assert(ol_cont(L[p]));
            assert(!ol_cont(L[p + 1]));
            assert(ol_run_end(L, p + 1) == p + 1);
            assert(ol_items(L, p + 1) =~= Seq::<Seq<char>>::empty());
            assert(ol_run_end(L, p) == p + 1);
        }
        assert(ol_items(L, p) =~= items);
    } else {
        lemma_ol_item_line(k0, items[0]);
        assert(L[p] == render_ol_item(k0, items[0]));
        assert(!is_blank(L[p]));
        assert(ol_cont(L[p]));
        let rest = items.drop_first();
        assert forall|j: int| 0 <= j < rest.len() implies L[p + 1 + j] == render_ol_item(
            k0 + 1 + j,
            #[trigger] rest[j],
        ) by {
            assert(rest[j] == items[j + 1]);
            assert(L[p + 1 + j] == render_ol_item(k0 + (j + 1), items[j + 1]));
        }
        assert forall|j: int| 0 <= j < rest.len() implies wf_text(#[trigger] rest[j]) by {
            assert(rest[j] == items[j + 1]);
        }
        lemma_ol_run(L, p + 1, k0 + 1, rest);
        assert(ordered_content(trim_spec(L[p])) == items[0]);
        assert(ol_items(L, p) =~= seq![items[0]] + rest);
        assert(seq![items[0]] + rest =~= items);
    }
}

/// The lines a block renders to, in order.
pub open spec fn block_lines(b: BlockView) -> Seq<Seq<char>> {
    match b {
        BlockView::Heading { level: _, content: _ } => seq![render_block(b)],
        BlockView::Paragraph { content } => seq![content],
        BlockView::UnorderedList { items } => ul_lines(items),
        BlockView::OrderedList { items } => ol_lines(items),
        BlockView::Checklist { items } => cl_lines(items),
    }
}

/// The lines a whole document renders to: the blocks' lines with one empty
/// line between neighbouring blocks.
pub open spec fn doc_lines(d: Seq<BlockView>) -> Seq<Seq<char>>
    decreases d.len(),
{
    if d.len() == 0 {
        Seq::empty()
    } else if d.len() == 1 {
        block_lines(d[0])
    } else {
        block_lines(d[0]) + seq![Seq::<char>::empty()] + doc_lines(d.drop_first())
    }
}

/// A line as the renderer writes it: nonempty, no line break inside, no
/// carriage return at the end.
pub open spec fn good_line(l: Seq<char>) -> bool {
    &&& l.len() > 0
    &&& forall|j: int| 0 <= j < l.len() ==> l[j] != '\n'
    &&& l.last() != '\r'
}

/// Splitting a newline-joined list of good lines gives the lines back.
pub proof fn lemma_lines_of_join(parts: Seq<Seq<char>>)
    requires
        parts.len() >= 1,
        forall|j: int| 0 <= j < parts.len() ==> good_line(#[trigger] parts[j]),
    ensures
        spec_lines(join_sep(parts, seq!['\n'])) == parts,
        join_sep(parts, seq!['\n']).len() > 0,
    decreases parts.len(),
{
    if parts.len() == 1 {
        crate::lines::lemma_spec_lines_single(parts[0]);
        assert(spec_lines(join_sep(parts, seq!['\n'])) =~= parts);
    } else {
        let rest = parts.drop_first();
        assert forall|j: int| 0 <= j < rest.len() implies good_line(#[trigger] rest[j]) by {
            assert(rest[j] == parts[j + 1]);
        }
        lemma_lines_of_join(rest);
        crate::lines::lemma_spec_lines_append(parts[0], join_sep(rest, seq!['\n']));
        assert(strip_cr(parts[0]) == parts[0]);
        assert(spec_lines(join_sep(parts, seq!['\n'])) =~= seq![parts[0]] + rest);
        assert(seq![parts[0]] + rest =~= parts);
    }
}

/// Splitting a newline-joined list of good lines followed by a newline and
/// further text gives the lines, then the lines of the rest.
pub proof fn lemma_lines_concat(parts: Seq<Seq<char>>, tail: Seq<char>)
    requires
        parts.len() >= 1,
        forall|j: int| 0 <= j < parts.len() ==> good_line(#[trigger] parts[j]),
        tail.len() > 0,
    ensures
        spec_lines(join_sep(parts, seq!['\n']) + seq!['\n'] + tail) == seq![parts[0]]
            + spec_lines(join_sep(parts.drop_first(), seq!['\n']) + seq!['\n'] + tail)
            || parts.len() == 1,
        spec_lines(join_sep(parts, seq!['\n']) + seq!['\n'] + tail) == parts + spec_lines(
            tail,
        ),
    decreases parts.len(),
{
    if parts.len() == 1 {
        crate::lines::lemma_spec_lines_append(parts[0], tail);
        assert(strip_cr(parts[0]) == parts[0]);
        assert(join_sep(parts, seq!['\n']) == parts[0]);
        assert(spec_lines(parts[0] + seq!['\n'] + tail) =~= parts + spec_lines(tail));
    } else {
        let rest = parts.drop_first();
        assert forall|j: int| 0 <= j < rest.len() implies good_line(#[trigger] rest[j]) by {
            assert(rest[j] == parts[j + 1]);
        }
        let inner = join_sep(rest, seq!['\n']) + seq!['\n'] + tail;
        lemma_lines_of_join(rest);
        assert(inner.len() > 0);
        lemma_lines_concat(rest, tail);
        assert(join_sep(parts, seq!['\n']) + seq!['\n'] + tail =~= parts[0] + seq!['\n']
            + inner);
        crate::lines::lemma_spec_lines_append(parts[0], inner);
        assert(strip_cr(parts[0]) == parts[0]);
        assert(spec_lines(join_sep(parts, seq!['\n']) + seq!['\n'] + tail) =~= seq![
            parts[0],
        ] + (rest + spec_lines(tail)));
        assert(seq![parts[0]] + (rest + spec_lines(tail)) =~= parts + spec_lines(tail));
    }
}

/// Every line a well-formed block renders to is a good line, and there is
/// at least one.
pub proof fn lemma_block_lines_good(b: BlockView)
    requires
        wf_block(b),
    ensures
        block_lines(b).len() >= 1,
        forall|j: int| 0 <= j < block_lines(b).len() ==> good_line(#[trigger] block_lines(b)[j]),
        render_block(b) == join_sep(block_lines(b), seq!['\n']),
{
    match b {
        BlockView::Heading { level, content } => {
            lemma_heading_line(level, content);
            assert(join_sep(block_lines(b), seq!['\n']) == block_lines(b)[0]);
        },
        BlockView::Paragraph { content } => {
            assert(good_line(content)) by {
                assert(content.last() != '\r');
            }
            assert(join_sep(block_lines(b), seq!['\n']) == block_lines(b)[0]);
        },
        BlockView::UnorderedList { items } => {
            assert forall|j: int|
                0 <= j < block_lines(b).len() implies good_line(
                #[trigger] block_lines(b)[j],
            ) by {
                lemma_ul_item_line(items[j]);
                assert(block_lines(b)[j] == render_ul_item(items[j]));
            }
        },
        BlockView::OrderedList { items } => {
            assert forall|j: int|
                0 <= j < block_lines(b).len() implies good_line(
                #[trigger] block_lines(b)[j],
            ) by {
                lemma_ol_item_line(j + 1, items[j]);
                assert(block_lines(b)[j] == render_ol_item(j + 1, items[j]));
            }
        },
        BlockView::Checklist { items } => {
            assert forall|j: int|
                0 <= j < block_lines(b).len() implies good_line(
                #[trigger] block_lines(b)[j],
            ) by {
                lemma_cl_item_line(items[j]);
                assert(block_lines(b)[j] == render_cl_item(items[j]));
            }
        },
    }
}

/// The lines of a rendered document are its blocks' lines with one empty
/// line between blocks.
pub proof fn lemma_doc_lines(d: Seq<BlockView>)
    requires
        wf_doc(d),
        d.len() >= 1,
    ensures
        spec_lines(render_doc(d)) == doc_lines(d),
        render_doc(d).len() > 0,
        doc_lines(d).len() >= 1,
    decreases d.len(),
{
    lemma_block_lines_good(d[0]);
    if d.len() == 1 {
        assert(render_doc(d) == render_block(d[0])) by {
            assert(crate::render::block_texts(d).len() == 1);
            assert(crate::render::block_texts(d)[0] == render_block(d[0]));
        }
        lemma_lines_of_join(block_lines(d[0]));
    } else {
        let rest = d.drop_first();
        assert(wf_doc(rest)) by {
            assert forall|i: int| 0 <= i < rest.len() implies wf_block(#[trigger] rest[i]) by {
                assert(rest[i] == d[i + 1]);
            }
            assert forall|i: int|
                0 <= i < rest.len() - 1 implies !same_list_kind(
                #[trigger] rest[i],
                rest[i + 1],
            ) by {
                assert(rest[i] == d[i + 1]);
                assert(rest[i + 1] == d[i + 2]);
            }
        }
        lemma_doc_lines(rest);
        let bt = crate::render::block_texts(d);
        assert(bt.len() == d.len());
        assert(bt[0] == render_block(d[0]));
        assert(bt.drop_first() =~= crate::render::block_texts(rest));
        assert(render_doc(d) == bt[0] + seq!['\n', '\n'] + render_doc(rest));
        let tail = seq!['\n'] + render_doc(rest);
        assert(render_doc(d) =~= join_sep(block_lines(d[0]), seq!['\n']) + seq!['\n']
            + tail);
        lemma_lines_concat(block_lines(d[0]), tail);
        crate::lines::lemma_spec_lines_append(Seq::empty(), render_doc(rest));
        assert(Seq::<char>::empty() + seq!['\n'] + render_doc(rest) =~= tail);
        assert(strip_cr(Seq::<char>::empty()) =~= Seq::<char>::empty());
        assert(spec_lines(tail) == seq![Seq::<char>::empty()] + spec_lines(render_doc(rest)));
        assert(spec_lines(render_doc(d)) == block_lines(d[0]) + (seq![Seq::<char>::empty()]
            + doc_lines(rest)));
        assert(block_lines(d[0]) + (seq![Seq::<char>::empty()] + doc_lines(rest))
            =~= doc_lines(d));
    }
}

/// How the classifier reads the first line of a rendered block: it is
/// never blank, and it continues a checklist, plain-bullet or ordered run
/// exactly when the block is of that kind.
pub proof fn lemma_first_line(b: BlockView)
    requires
        wf_block(b),
    ensures
        ({
            let f = block_lines(b)[0];
            &&& !is_blank(f)
            &&& (is_checklist(trim_spec(f)) <==> b is Checklist)
            &&& ((is_unordered(trim_spec(f)) && !is_checklist(trim_spec(f))) <==> b is UnorderedList)
            &&& (is_ordered(trim_spec(f)) <==> b is OrderedList)
        }),
{
    match b {
        BlockView::Heading { level, content } => {
            lemma_heading_line(level, content);
        },
        BlockView::Paragraph { content } => {
            lemma_para_line(content);
        },
        BlockView::UnorderedList { items } => {
            lemma_ul_item_line(items[0]);
            assert(block_lines(b)[0] == render_ul_item(items[0]));
        },
        BlockView::OrderedList { items } => {
            lemma_ol_item_line(1, items[0]);
            assert(block_lines(b)[0] == render_ol_item(1, items[0]));
        },
        BlockView::Checklist { items } => {
            lemma_cl_item_line(items[0]);
            assert(block_lines(b)[0] == render_cl_item(items[0]));
        },
    }
}

/// Parsing the rendered lines of a well-formed document, from any position
/// whose suffix holds exactly those lines, gives the document back.
#[verifier::rlimit(100)]
pub proof fn lemma_parse_at(L: Seq<Seq<char>>, p: int, d: Seq<BlockView>)
    requires
        wf_doc(d),
        0 <= p <= L.len(),
        L.skip(p) == doc_lines(d),
    ensures
        parse_from(L, p) == d,
    decreases d.len(),
{
    if d.len() == 0 {
        assert(L.len() - p == 0);
        assert(parse_from(L, p) =~= d);
    } else {
        let b0 = d[0];
        assert(wf_block(b0));
        lemma_block_lines_good(b0);
        let bl = block_lines(b0);
        let m = bl.len() as int;
        let rest = d.drop_first();
        assert(wf_doc(rest)) by {
            assert forall|i: int| 0 <= i < rest.len() implies wf_block(#[trigger] rest[i]) by {
                assert(rest[i] == d[i + 1]);
            }
            assert forall|i: int|
                0 <= i < rest.len() - 1 implies !same_list_kind(
                #[trigger] rest[i],
                rest[i + 1],
            ) by {
                assert(rest[i] == d[i + 1]);
                assert(rest[i + 1] == d[i + 2]);
            }
        }
        if d.len() == 1 {
            assert(doc_lines(d) == bl);
        } else {
            assert(doc_lines(d) == bl + seq![Seq::<char>::empty()] + doc_lines(
                d.drop_first(),
            ));
        }
        assert(L.len() - p == doc_lines(d).len());
        assert(doc_lines(d).len() >= m);
        assert forall|j: int| 0 <= j < m implies L[p + j] == bl[j] by {
            assert(L.skip(p)[j] == L[p + j]);
            if d.len() == 1 {
            } else {
                assert(doc_lines(d)[j] == bl[j]);
            }
        }
        let single = d.len() == 1;
        if single {
            assert(L.len() - p == m);
        } else {
            lemma_block_lines_good(rest[0]);
            assert(doc_lines(d) == bl + seq![Seq::<char>::empty()] + doc_lines(rest));
            assert(L.len() - p == doc_lines(d).len());
            assert(L[p + m] == Seq::<char>::empty()) by {
                assert(L.skip(p)[m] == L[p + m]);
                assert(doc_lines(d)[m] == Seq::<char>::empty());
            }
            assert(is_blank(L[p + m])) by {
                lemma_blank_iff_all_ws(Seq::<char>::empty());
            }
            assert(L.skip(p + m + 1) == doc_lines(rest)) by {
                assert(L.skip(p + m + 1) =~= doc_lines(rest)) by {
                    assert forall|j: int|
                        0 <= j < L.len() - (p + m + 1) implies L.skip(p + m + 1)[j]
                        == doc_lines(rest)[j] by {
                        assert(L.skip(p + m + 1)[j] == L[p + m + 1 + j]);
                        assert(L.skip(p)[m + 1 + j] == L[p + m + 1 + j]);
                        assert(doc_lines(d)[m + 1 + j] == doc_lines(rest)[j]);
                    }
                }
            }
            assert(doc_lines(rest).len() >= 1) by {
                if rest.len() == 1 {
                } else {
                    assert(doc_lines(rest) == block_lines(rest[0]) + seq![
                        Seq::<char>::empty(),
                    ] + doc_lines(rest.drop_first()));
                }
            }
            assert(p + m + 1 < L.len());
            assert(L[p + m + 1] == block_lines(rest[0])[0]) by {
                assert(L.skip(p + m + 1)[0] == L[p + m + 1]);
                if rest.len() == 1 {
                } else {
                    assert(doc_lines(rest)[0] == block_lines(rest[0])[0]);
                }
            }
            lemma_first_line(rest[0]);
            assert(!is_blank(L[p + m + 1]));
            assert(!same_list_kind(d[0], d[1]));
            assert(rest[0] == d[1]);
        }
        let nxt: int = if single {
            L.len() as int
        } else {
            p + m + 1
        };
        // the continuation parses to the remaining blocks
        if single {
            assert(parse_from(L, nxt) =~= rest) by {
                assert(rest.len() == 0);
            }
        } else {
            lemma_parse_at(L, nxt, rest);
        }
        match b0 {
            BlockView::Heading { level, content } => {
                lemma_heading_line(level, content);
                assert(m == 1);
                assert(L[p] == render_block(b0));
                let t = trim_spec(L[p]);
                assert(is_heading(t));
                assert((BlockView::Heading {
                    level: crate::classify::heading_level(t),
                    content: crate::classify::heading_content(t),
                }) == b0);
                if single {
                    assert(parse_from(L, p + 1) =~= Seq::<BlockView>::empty());
                    assert(parse_from(L, p) == seq![b0] + parse_from(L, p + 1));
                } else {
                    assert(is_blank(L[p + 1]));
                    assert(parse_from(L, p + 1) == parse_from(L, p + 2));
                    assert(parse_from(L, p) == seq![b0] + parse_from(L, p + 1));
                }
                assert(seq![b0] + rest =~= d);
            },
            BlockView::Paragraph { content } => {
                lemma_para_line(content);
                assert(m == 1);
                assert(L[p] == content);
                let t = trim_spec(L[p]);
                assert(t == content);
                assert(!is_heading(t) && !is_checklist(t) && !is_unordered(t) && !is_ordered(
                    t,
                ));
                assert(para_cont_at(L, p));
                assert(!para_cont_at(L, p + 1)) by {
                    if !single {
                        assert(is_blank(L[p + 1]));
                    }
                }
                assert(para_end(L, p + 1) == p + 1);
                assert(para_end(L, p) == p + 1);
                assert(para_content(L, p) == content);
                if single {
                    assert(parse_from(L, p + 1) =~= Seq::<BlockView>::empty());
                } else {
                    assert(is_blank(L[p + 1]));
                    assert(parse_from(L, p + 1) == parse_from(L, p + 2));
                }
                assert(parse_from(L, p) == seq![b0] + parse_from(L, p + 1));
                assert(seq![b0] + rest =~= d);
            },
            BlockView::Checklist { items } => {
                assert(m == items.len());
                assert forall|j: int|
                    0 <= j < items.len() implies L[p + j] == render_cl_item(
                    #[trigger] items[j],
                ) by {
                    assert(bl[j] == render_cl_item(items[j]));
                }
                lemma_cl_item_line(items[0]);
                assert(L[p] == render_cl_item(items[0]));
                let t = trim_spec(L[p]);
                assert(is_checklist(t) && !is_heading(t));
                assert(!is_blank(L[p]));
                lemma_cl_run(L, p, items);
                assert(cl_items(L, p) == items);
                assert(cl_run_end(L, p) == nxt);
                assert(parse_from(L, p) == seq![b0] + parse_from(L, cl_run_end(L, p)));
                assert(seq![b0] + rest =~= d);
            },
            BlockView::UnorderedList { items } => {
                assert(m == items.len());
                assert forall|j: int|
                    0 <= j < items.len() implies L[p + j] == render_ul_item(
                    #[trigger] items[j],
                ) by {
                    assert(bl[j] == render_ul_item(items[j]));
                }
                lemma_ul_item_line(items[0]);
                assert(L[p] == render_ul_item(items[0]));
                let t = trim_spec(L[p]);
                assert(is_unordered(t) && !is_checklist(t) && !is_heading(t));
                assert(!is_blank(L[p]));
                lemma_ul_run(L, p, items);
                assert(ul_items(L, p) == items);
                assert(ul_run_end(L, p) == nxt);
                assert(parse_from(L, p) == seq![b0] + parse_from(L, ul_run_end(L, p)));
                assert(seq![b0] + rest =~= d);
            },
            BlockView::OrderedList { items } => {
                assert(m == items.len());
                assert forall|j: int|
                    0 <= j < items.len() implies L[p + j] == render_ol_item(
                    1 + j,
                    #[trigger] items[j],
                ) by {
                    assert(bl[j] == render_ol_item(j + 1, items[j]));
                }
                lemma_ol_item_line(1, items[0]);
                assert(L[p] == render_ol_item(1, items[0]));
                let t = trim_spec(L[p]);
                assert(is_ordered(t) && !is_heading(t) && !is_checklist(t) && !is_unordered(
                    t,
                ));
                assert(!is_blank(L[p]));
                lemma_ol_run(L, p, 1, items);
                assert(ol_items(L, p) == items);
                assert(ol_run_end(L, p) == nxt);
                assert(parse_from(L, p) == seq![b0] + parse_from(L, ol_run_end(L, p)));
                assert(seq![b0] + rest =~= d);
            },
        }
    }
}

/// Rendering a well-formed block sequence and parsing the text gives the
/// same sequence back.
pub proof fn lemma_render_then_parse(d: Seq<BlockView>)
    requires
        wf_doc(d),
    ensures
        parse_text(render_doc(d)) == d,
{
    if d.len() == 0 {
        assert(crate::render::block_texts(d).len() == 0);
        assert(render_doc(d) == Seq::<char>::empty());
        assert(spec_lines(render_doc(d)) == Seq::<Seq<char>>::empty());
        assert(parse_text(render_doc(d)) =~= d);
    } else {
        lemma_doc_lines(d);
        let L = doc_lines(d);
        assert(L.skip(0) =~= L);
        lemma_parse_at(L, 0, d);
    }
}

/// Text without a line break.
pub open spec fn nl_free(l: Seq<char>) -> bool {
    forall|j: int| 0 <= j < l.len() ==> l[j] != '\n'
}

/// A document whose paragraphs read as prose: none of their joined texts
/// happens to form a block-start line. Only such a paragraph can change
/// kind on a round trip; every other feature of a parsed document is
/// well-formed by construction.
pub open spec fn paragraphs_clean(d: Seq<BlockView>) -> bool {
    forall|i: int|
        0 <= i < d.len() ==> match #[trigger] d[i] {
            BlockView::Paragraph { content } => !starts_block(content),
            _ => true,
        }
}

/// Every line of a split text is free of line breaks.
pub proof fn lemma_lines_nl_free(s: Seq<char>)
    ensures
        forall|i: int| 0 <= i < spec_lines(s).len() ==> nl_free(#[trigger] spec_lines(s)[i]),
    decreases s.len(),
{
    if s.len() > 0 {
        let j = crate::lines::find_nl(s, 0);
        crate::lines::lemma_find_nl(s, 0);
        if j == s.len() {
            assert(nl_free(s));
        } else {
            let chunk = strip_cr(s.take(j));
            assert(nl_free(chunk));
            let tail = s.skip(j + 1);
            lemma_lines_nl_free(tail);
            assert forall|i: int|
                0 <= i < spec_lines(s).len() implies nl_free(#[trigger] spec_lines(s)[i]) by {
                if i > 0 {
                    assert(spec_lines(s)[i] == spec_lines(tail)[i - 1]);
                }
            }
        }
    }
}

/// The leading-whitespace weight never drops below zero.
pub proof fn lemma_ws_weight_nonneg(l: Seq<char>, i: int)
    ensures
        ws_weight(l, i) >= 0,
    decreases l.len() - i,
{
    if 0 <= i && i < l.len() && is_ws(l[i]) {
        lemma_ws_weight_nonneg(l, i + 1);
    }
}

/// The trimmed line of a break-free line is nonempty at a block start,
/// break-free, and non-whitespace at both ends.
pub proof fn lemma_trim_wf(l: Seq<char>)
    requires
        nl_free(l),
    ensures
        ({
            let t = trim_spec(l);
            &&& nl_free(t)
            &&& (t.len() > 0 ==> !is_ws(t[0]) && !is_ws(t.last()))
        }),
{
    crate::scan::lemma_trim_spec(l);
    let t = trim_spec(l);
    let a0 = crate::scan::ws_run_end(l, 0);
    crate::scan::lemma_ws_run_end(l, 0);
    crate::scan::lemma_trim_end_idx(l.subrange(a0, l.len() as int));
    assert(t.len() <= l.len() - a0);
    assert forall|j: int| 0 <= j < t.len() implies t[j] != '\n' by {
        assert(t[j] == l.subrange(a0, a0 + t.len() as int)[j]);
    }
}

/// The fields a heading line parses to form a well-formed heading block.
pub proof fn lemma_heading_fields_wf(l: Seq<char>)
    requires
        nl_free(l),
        is_heading(trim_spec(l)),
    ensures
        wf_block(
            BlockView::Heading {
                level: heading_level(trim_spec(l)),
                content: heading_content(trim_spec(l)),
            },
        ),
{
    let t = trim_spec(l);
    lemma_trim_wf(l);
    let h = heading_level(t);
    let c = ws_run_end(t, h);
    crate::scan::lemma_ws_run_end(t, h);
    assert(c < t.len()) by {
        if c == t.len() {
            assert(is_ws(t.last()));
        }
    }
    let content = heading_content(t);
    assert(content[0] == t[c]);
    assert(content.last() == t.last());
    assert(wf_text(content));
}

/// The content a checklist line parses to is well-formed item text.
pub proof fn lemma_checklist_content_wf(l: Seq<char>)
    requires
        nl_free(l),
        is_checklist(trim_spec(l)),
    ensures
        wf_text(checklist_content(trim_spec(l))),
{
    let t = trim_spec(l);
    lemma_trim_wf(l);
    let a = ws_run_end(t, 1);
    crate::scan::lemma_ws_run_end(t, 1);
    let b = ws_run_end(t, a + 3);
    crate::scan::lemma_ws_run_end(t, a + 3);
    let content = checklist_content(t);
    assert(content[0] == t[b]);
    assert(content.last() == t.last());
}

/// The content and indentation a plain bullet line parses to are
/// well-formed, and the content opens no checklist box.
pub proof fn lemma_unordered_content_wf(l: Seq<char>)
    requires
        nl_free(l),
        is_unordered(trim_spec(l)),
        !is_checklist(trim_spec(l)),
    ensures
        wf_text(unordered_content(trim_spec(l))),
        !cl_tail(unordered_content(trim_spec(l))),
        0 <= indent_of(l) <= usize::MAX,
{
    let t = trim_spec(l);
    lemma_trim_wf(l);
    let a = ws_run_end(t, 1);
    crate::scan::lemma_ws_run_end(t, 1);
    let content = unordered_content(t);
    assert(content[0] == t[a]);
    assert(content.last() == t.last());
    assert(wf_text(content));
    assert(!cl_tail(content)) by {
        if cl_tail(content) {
            let b = ws_run_end(content, 3);
            crate::scan::lemma_ws_run_end(content, 3);
            assert forall|j: int| a + 3 <= j < a + b implies is_ws(t[j]) by {
                assert(t[j] == content[j - a]);
            }
            assert(a + b < t.len() ==> !is_ws(t[a + b])) by {
                if a + b < t.len() {
                    assert(t[a + b] == content[b]);
                }
            }
            lemma_ws_run_end_is(t, a + 3, a + b);
            assert(t[a] == content[0]);
            assert(t[a + 1] == content[1]);
            assert(t[a + 2] == content[2]);
            assert(is_checklist(t));
        }
    }
    lemma_ws_weight_nonneg(l, 0);
}

/// The content an ordered line parses to is well-formed item text.
pub proof fn lemma_ordered_content_wf(l: Seq<char>)
    requires
        nl_free(l),
        is_ordered(trim_spec(l)),
    ensures
        wf_text(ordered_content(trim_spec(l))),
{
    let t = trim_spec(l);
    lemma_trim_wf(l);
    let d0 = digit_run_end(t, 0);
    let e = ws_run_end(t, d0 + 1);
    crate::scan::lemma_ws_run_end(t, d0 + 1);
    let content = ordered_content(t);
    assert(content[0] == t[e]);
    assert(content.last() == t.last());
}

/// Every item a checklist run collects has well-formed text.
pub proof fn lemma_cl_items_wf(ls: Seq<Seq<char>>, i: int)
    requires
        forall|k: int| 0 <= k < ls.len() ==> nl_free(#[trigger] ls[k]),
    ensures
        forall|j: int|
            0 <= j < cl_items(ls, i).len() ==> wf_text(#[trigger] cl_items(ls, i)[j].1),
    decreases ls.len() - i,
{
    if 0 <= i && i < ls.len() && cl_cont(ls[i]) {
        lemma_cl_items_wf(ls, i + 1);
        if is_blank(ls[i]) {
            assert(cl_items(ls, i) == cl_items(ls, i + 1));
        }
        if !is_blank(ls[i]) {
            lemma_checklist_content_wf(ls[i]);
            assert forall|j: int|
                0 <= j < cl_items(ls, i).len() implies wf_text(
                #[trigger] cl_items(ls, i)[j].1,
            ) by {
                if j > 0 {
                    assert(cl_items(ls, i)[j] == cl_items(ls, i + 1)[j - 1]);
                }
            }
        }
    }
}

/// Every item an unordered run collects has well-formed text, an
/// indentation level in range, and no checklist-box content.
pub proof fn lemma_ul_items_wf(ls: Seq<Seq<char>>, i: int)
    requires
        forall|k: int| 0 <= k < ls.len() ==> nl_free(#[trigger] ls[k]),
    ensures
        forall|j: int|
            0 <= j < ul_items(ls, i).len() ==> wf_text(#[trigger] ul_items(ls, i)[j].0)
                && 0 <= ul_items(ls, i)[j].1 <= usize::MAX && !cl_tail(ul_items(ls, i)[j].0),
    decreases ls.len() - i,
{
    if 0 <= i && i < ls.len() && ul_cont(ls[i]) {
        lemma_ul_items_wf(ls, i + 1);
        if is_blank(ls[i]) {
            assert(ul_items(ls, i) == ul_items(ls, i + 1));
        }
        if !is_blank(ls[i]) {
            lemma_unordered_content_wf(ls[i]);
            assert forall|j: int|
                0 <= j < ul_items(ls, i).len() implies wf_text(
                #[trigger] ul_items(ls, i)[j].0,
            ) && 0 <= ul_items(ls, i)[j].1 <= usize::MAX && !cl_tail(
                ul_items(ls, i)[j].0,
            ) by {
                if j > 0 {
                    assert(ul_items(ls, i)[j] == ul_items(ls, i + 1)[j - 1]);
                }
            }
        }
    }
}

/// Every item an ordered run collects has well-formed text.
pub proof fn lemma_ol_items_wf(ls: Seq<Seq<char>>, i: int)
    requires
        forall|k: int| 0 <= k < ls.len() ==> nl_free(#[trigger] ls[k]),
    ensures
        forall|j: int| 0 <= j < ol_items(ls, i).len() ==> wf_text(#[trigger] ol_items(ls, i)[j]),
    decreases ls.len() - i,
{
    if 0 <= i && i < ls.len() && ol_cont(ls[i]) {
        lemma_ol_items_wf(ls, i + 1);
        if is_blank(ls[i]) {
            assert(ol_items(ls, i) == ol_items(ls, i + 1));
        }
        if !is_blank(ls[i]) {
            lemma_ordered_content_wf(ls[i]);
            assert forall|j: int|
                0 <= j < ol_items(ls, i).len() implies wf_text(
                #[trigger] ol_items(ls, i)[j],
            ) by {
                if j > 0 {
                    assert(ol_items(ls, i)[j] == ol_items(ls, i + 1)[j - 1]);
                }
            }
        }
    }
}

/// The text a paragraph run joins is well-formed item text.
pub proof fn lemma_para_content_wf(ls: Seq<Seq<char>>, i: int)
    requires
        forall|k: int| 0 <= k < ls.len() ==> nl_free(#[trigger] ls[k]),
        para_cont_at(ls, i),
    ensures
        wf_text(para_content(ls, i)),
    decreases ls.len() - i,
{
    lemma_trim_wf(ls[i]);
    let t = trim_spec(ls[i]);
    assert(t.len() > 0) by {
        assert(!is_blank(ls[i]));
    }
    if para_cont_at(ls, i + 1) {
        lemma_para_content_wf(ls, i + 1);
        let pc = para_content(ls, i);
        assert(pc[0] == t[0]);
        assert(pc.last() == para_content(ls, i + 1).last());
        assert forall|j: int| 0 <= j < pc.len() implies pc[j] != '\n' by {
            if j < t.len() {
                assert(pc[j] == t[j]);
            } else if j == t.len() {
                assert(pc[j] == ' ');
            } else {
                assert(pc[j] == para_content(ls, i + 1)[j - t.len() - 1]);
            }
        }
    }
}

/// A block as the parser builds it: well-formed in every respect except
/// that a paragraph's joined text may happen to form a block-start line.
pub open spec fn wf_parsed_block(b: BlockView) -> bool {
    match b {
        BlockView::Paragraph { content } => wf_text(content),
        _ => wf_block(b),
    }
}

/// Index of the first non-blank line at or after `i`, or the length.
pub open spec fn skip_blanks(ls: Seq<Seq<char>>, i: int) -> int
    decreases ls.len() - i,
{
    if 0 <= i && i < ls.len() && is_blank(ls[i]) {
        skip_blanks(ls, i + 1)
    } else {
        i
    }
}

/// What the parser builds is well-formed by construction, paragraphs'
/// prose aside: blocks are well-formed, no two neighbouring lists share a
/// kind, and a document's first block matches the class of the first
/// non-blank line.
#[verifier::rlimit(100)]
pub proof fn lemma_parse_from_wf(ls: Seq<Seq<char>>, i: int)
    requires
        forall|k: int| 0 <= k < ls.len() ==> nl_free(#[trigger] ls[k]),
    ensures
        ({
            let d = parse_from(ls, i);
            &&& forall|x: int| 0 <= x < d.len() ==> wf_parsed_block(#[trigger] d[x])
            &&& forall|x: int| 0 <= x < d.len() - 1 ==> !same_list_kind(#[trigger] d[x], d[x + 1])
            &&& (d.len() > 0 ==> ({
                let f = skip_blanks(ls, i);
                &&& 0 <= f < ls.len()
                &&& !is_blank(ls[f])
                &&& (d[0] is Checklist ==> is_checklist(trim_spec(ls[f])))
                &&& (d[0] is UnorderedList ==> is_unordered(trim_spec(ls[f]))
                    && !is_checklist(trim_spec(ls[f])))
                &&& (d[0] is OrderedList ==> is_ordered(trim_spec(ls[f])))
            }))
        }),
    decreases ls.len() - i,
{
    let d = parse_from(ls, i);
    if i < 0 || i >= ls.len() {
        assert(d.len() == 0);
    } else if is_blank(ls[i]) {
        lemma_parse_from_wf(ls, i + 1);
        assert(d == parse_from(ls, i + 1));
        assert(skip_blanks(ls, i) == skip_blanks(ls, i + 1));
    } else {
        assert(skip_blanks(ls, i) == i);
        let t = trim_spec(ls[i]);
        if is_heading(t) {
            lemma_heading_fields_wf(ls[i]);
            lemma_parse_from_wf(ls, i + 1);
            let rest = parse_from(ls, i + 1);
            assert(d == seq![
                BlockView::Heading { level: heading_level(t), content: heading_content(t) },
            ] + rest);
            assert forall|x: int| 0 <= x < d.len() implies wf_parsed_block(
                #[trigger] d[x],
            ) by {
                if x > 0 {
                    assert(d[x] == rest[x - 1]);
                }
            }
            assert forall|x: int|
                0 <= x < d.len() - 1 implies !same_list_kind(#[trigger] d[x], d[x + 1]) by {
                if x > 0 {
                    assert(d[x] == rest[x - 1]);
                    assert(d[x + 1] == rest[x]);
                }
            }
        } else if is_checklist(t) {
            crate::checklist::lemma_cl_run_end(ls, i);
            let nxt = cl_run_end(ls, i);
            lemma_parse_from_wf(ls, nxt);
            lemma_cl_items_wf(ls, i);
            let rest = parse_from(ls, nxt);
            let b0 = BlockView::Checklist { items: cl_items(ls, i) };
            assert(d == seq![b0] + rest);
            assert(cl_items(ls, i).len() >= 1) by {
                assert(cl_cont(ls[i]));
            }
            assert(wf_block(b0));
            assert forall|x: int| 0 <= x < d.len() implies wf_parsed_block(
                #[trigger] d[x],
            ) by {
                if x > 0 {
                    assert(d[x] == rest[x - 1]);
                }
            }
            if rest.len() > 0 {
                assert(nxt < ls.len());
                assert(!cl_cont(ls[nxt]));
                assert(skip_blanks(ls, nxt) == nxt);
                assert(!(rest[0] is Checklist));
            }
            assert forall|x: int|
                0 <= x < d.len() - 1 implies !same_list_kind(#[trigger] d[x], d[x + 1]) by {
                if x > 0 {
                    assert(d[x] == rest[x - 1]);
                    assert(d[x + 1] == rest[x]);
                } else {
                    assert(d[1] == rest[0]);
                }
            }
        } else if is_unordered(t) {
            crate::unordered_list::lemma_ul_run_end(ls, i);
            let nxt = ul_run_end(ls, i);
            lemma_parse_from_wf(ls, nxt);
            lemma_ul_items_wf(ls, i);
            let rest = parse_from(ls, nxt);
            let b0 = BlockView::UnorderedList { items: ul_items(ls, i) };
            assert(d == seq![b0] + rest);
            assert(ul_items(ls, i).len() >= 1) by {
                assert(ul_cont(ls[i]));
            }
            assert(wf_block(b0));
            assert forall|x: int| 0 <= x < d.len() implies wf_parsed_block(
                #[trigger] d[x],
            ) by {
                if x > 0 {
                    assert(d[x] == rest[x - 1]);
                }
            }
            if rest.len() > 0 {
                assert(nxt < ls.len());
                assert(!ul_cont(ls[nxt]));
                assert(skip_blanks(ls, nxt) == nxt);
                assert(!(rest[0] is UnorderedList));
            }
            assert forall|x: int|
                0 <= x < d.len() - 1 implies !same_list_kind(#[trigger] d[x], d[x + 1]) by {
                if x > 0 {
                    assert(d[x] == rest[x - 1]);
                    assert(d[x + 1] == rest[x]);
                } else {
                    assert(d[1] == rest[0]);
                }
            }
        } else if is_ordered(t) {
            crate::ordered_list::lemma_ol_run_end(ls, i);
            let nxt = ol_run_end(ls, i);
            lemma_parse_from_wf(ls, nxt);
            lemma_ol_items_wf(ls, i);
            let rest = parse_from(ls, nxt);
            let b0 = BlockView::OrderedList { items: ol_items(ls, i) };
            assert(d == seq![b0] + rest);
            assert(ol_items(ls, i).len() >= 1) by {
                assert(ol_cont(ls[i]));
            }
            assert(wf_block(b0));
            assert forall|x: int| 0 <= x < d.len() implies wf_parsed_block(
                #[trigger] d[x],
            ) by {
                if x > 0 {
                    assert(d[x] == rest[x - 1]);
                }
            }
            if rest.len() > 0 {
                assert(nxt < ls.len());
                assert(!ol_cont(ls[nxt]));
                assert(skip_blanks(ls, nxt) == nxt);
                assert(!(rest[0] is OrderedList));
            }
            assert forall|x: int|
                0 <= x < d.len() - 1 implies !same_list_kind(#[trigger] d[x], d[x + 1]) by {
                if x > 0 {
                    assert(d[x] == rest[x - 1]);
                    assert(d[x + 1] == rest[x]);
                } else {
                    assert(d[1] == rest[0]);
                }
            }
        } else {
            crate::parse::lemma_para_end(ls, i);
            let nxt = para_end(ls, i);
            lemma_parse_from_wf(ls, nxt);
            lemma_para_content_wf(ls, i);
            let rest = parse_from(ls, nxt);
            let b0 = BlockView::Paragraph { content: para_content(ls, i) };
            assert(d == seq![b0] + rest);
            assert forall|x: int| 0 <= x < d.len() implies wf_parsed_block(
                #[trigger] d[x],
            ) by {
                if x > 0 {
                    assert(d[x] == rest[x - 1]);
                }
            }
            assert forall|x: int|
                0 <= x < d.len() - 1 implies !same_list_kind(#[trigger] d[x], d[x + 1]) by {
                if x > 0 {
                    assert(d[x] == rest[x - 1]);
                    assert(d[x + 1] == rest[x]);
                }
            }
        }
    }
}

/// A parsed document is well-formed as soon as its paragraphs read as
/// prose: heading levels, item texts, indentation and neighbouring kinds
/// need no further condition.
pub proof fn lemma_parsed_doc_wf(s: Seq<char>)
    requires
        paragraphs_clean(parse_text(s)),
    ensures
        wf_doc(parse_text(s)),
{
    lemma_lines_nl_free(s);
    lemma_parse_from_wf(spec_lines(s), 0);
    let d = parse_text(s);
    assert forall|x: int| 0 <= x < d.len() implies wf_block(#[trigger] d[x]) by {
        assert(wf_parsed_block(d[x]));
    }
}

/// The round trip, stated on parser output alone: when a parse leaves no
/// paragraph whose joined text forms a block-start line, rendering it and
/// parsing again gives the same block sequence.
pub proof fn lemma_round_trip_of_parse(text: Seq<char>)
    requires
        paragraphs_clean(parse_text(text)),
    ensures
        parse_text(render_doc(parse_text(text))) == parse_text(text),
{
    lemma_parsed_doc_wf(text);
    lemma_render_then_parse(parse_text(text));
}

} // verus!
