//! The line classifier: decides whether one trimmed line begins a heading,
//! a checklist item, an unordered-list item or an ordered-list item, and
//! extracts the fields of the match.
//!
//! The classification specs below are stated over the characters of a line
//! that has already been trimmed; blank lines never match any of them.

use vstd::prelude::*;

use crate::scan::digit_run_end;
use crate::scan::hash_run_end;
use crate::scan::is_blank;
use crate::scan::is_bullet;
use crate::scan::is_bullet_char;
use crate::scan::is_digit;
use crate::scan::is_digit_char;
use crate::scan::is_ws;
use crate::scan::is_ws_char;
use crate::scan::lemma_ws_run_end;
use crate::scan::trim_spec;
use crate::scan::ws_run_end;

verus! {

/// Number of leading `'#'` characters of a line.
pub open spec fn heading_level(t: Seq<char>) -> int {
    hash_run_end(t, 0)
}

/// A heading line: one to six `'#'` characters, whitespace, then content.
pub open spec fn is_heading(t: Seq<char>) -> bool {
    &&& 1 <= heading_level(t) <= 6
    &&& heading_level(t) < t.len()
    &&& is_ws(t[heading_level(t)])
}

/// The heading text: what follows the `'#'` run and the whitespace after it.
pub open spec fn heading_content(t: Seq<char>) -> Seq<char> {
    t.subrange(ws_run_end(t, heading_level(t)), t.len() as int)
}

/// A checklist line: a bullet, whitespace, a `[ ]`, `[x]` or `[X]` box,
/// whitespace, then content.
pub open spec fn is_checklist(t: Seq<char>) -> bool {
    &&& t.len() > 0
    &&& is_bullet(t[0])
    &&& ws_run_end(t, 1) > 1
    &&& {
        let a = ws_run_end(t, 1);
        &&& a + 2 < t.len()
        &&& t[a] == '['
        &&& (t[a + 1] == ' ' || t[a + 1] == 'x' || t[a + 1] == 'X')
        &&& t[a + 2] == ']'
        &&& ws_run_end(t, a + 3) > a + 3
        &&& ws_run_end(t, a + 3) < t.len()
    }
}

/// Whether the box of a checklist line holds an `x` or `X`.
pub open spec fn checklist_checked(t: Seq<char>) -> bool {
    let a = ws_run_end(t, 1);
    t[a + 1] == 'x' || t[a + 1] == 'X'
}

/// The item text of a checklist line: what follows the box and the
/// whitespace after it.
pub open spec fn checklist_content(t: Seq<char>) -> Seq<char> {
    let a = ws_run_end(t, 1);
    t.subrange(ws_run_end(t, a + 3), t.len() as int)
}

/// An unordered-list line: a bullet, whitespace, then content. Checklist
/// lines also fit this shape; the classifier gives them precedence.
pub open spec fn is_unordered(t: Seq<char>) -> bool {
    &&& t.len() > 0
    &&& is_bullet(t[0])
    &&& ws_run_end(t, 1) > 1
    &&& ws_run_end(t, 1) < t.len()
}

/// The item text of an unordered-list line.
pub open spec fn unordered_content(t: Seq<char>) -> Seq<char> {
    t.subrange(ws_run_end(t, 1), t.len() as int)
}

/// An ordered-list line: one or more digits, a `'.'`, whitespace, then
/// content. The numeric value is discarded; the renderer renumbers.
pub open spec fn is_ordered(t: Seq<char>) -> bool {
    let d = digit_run_end(t, 0);
    &&& d >= 1
    &&& d < t.len()
    &&& t[d] == '.'
    &&& ws_run_end(t, d + 1) > d + 1
    &&& ws_run_end(t, d + 1) < t.len()
}

/// The item text of an ordered-list line.
pub open spec fn ordered_content(t: Seq<char>) -> Seq<char> {
    let d = digit_run_end(t, 0);
    t.subrange(ws_run_end(t, d + 1), t.len() as int)
}

/// Weight of the leading whitespace of a raw line: a tab counts as four
/// spaces, any other whitespace character as one.
pub open spec fn ws_weight(l: Seq<char>, i: int) -> int
    decreases l.len() - i,
{
    if 0 <= i && i < l.len() && is_ws(l[i]) {
        (if l[i] == '\t' {
            4int
        } else {
            1int
        }) + ws_weight(l, i + 1)
    } else {
        0
    }
}

/// Indentation level of a list line: half the leading-whitespace weight,
/// floored (two spaces per level).
pub open spec fn indent_of(l: Seq<char>) -> int {
    if ws_weight(l, 0) / 2 > usize::MAX as int {
        usize::MAX as int
    } else {
        ws_weight(l, 0) / 2
    }
}

/// What the classifier assigns to one trimmed line.
pub ghost enum LineClass {
    Heading,
    Checklist,
    Unordered,
    Ordered,
    Text,
}

/// The classifier: the four patterns tried in priority order, checklist
/// before unordered; `Text` when none matches.
pub open spec fn classify(t: Seq<char>) -> LineClass {
    if is_heading(t) {
        LineClass::Heading
    } else if is_checklist(t) {
        LineClass::Checklist
    } else if is_unordered(t) {
        LineClass::Unordered
    } else if is_ordered(t) {
        LineClass::Ordered
    } else {
        LineClass::Text
    }
}

/// Every valid block-start line is assigned exactly one class. Heading,
/// ordered and bullet lines are mutually exclusive outright, since they open
/// with a `'#'`, a digit and a bullet respectively; a checklist line also
/// fits the unordered pattern, and the classifier resolves that overlap in
/// favour of the checklist.
pub proof fn lemma_classify_exclusive(t: Seq<char>)
    ensures
        classify(t) == LineClass::Heading <==> is_heading(t),
        classify(t) == LineClass::Checklist <==> is_checklist(t),
        classify(t) == LineClass::Unordered <==> (is_unordered(t) && !is_checklist(t)),
        classify(t) == LineClass::Ordered <==> is_ordered(t),
        is_checklist(t) ==> is_unordered(t),
        is_blank(t) && t == trim_spec(t) ==> classify(t) == LineClass::Text,
{
    if t.len() > 0 {
        assert(hash_run_end(t, 0) >= 1 ==> t[0] == '#');
        assert(digit_run_end(t, 0) >= 1 ==> is_digit(t[0]));
        if is_checklist(t) {
            lemma_ws_run_end(t, 1);
        }
    }
}

/// First index at or after `i` that holds no whitespace.
pub fn ws_run_from(t: &str, i: usize) -> (r: usize)
    requires
        i <= t@.len(),
    ensures
        r as int == ws_run_end(t@, i as int),
        i <= r <= t@.len(),
{
    let n = t.unicode_len();
    let mut j = i;
    while j < n && is_ws_char(t.get_char(j))
        invariant
            i <= j <= n,
            n == t@.len(),
            ws_run_end(t@, i as int) == ws_run_end(t@, j as int),
        decreases n - j,
    {
        j += 1;
    }
    j
}

/// First index at or after `i` that holds no digit.
pub fn digit_run_from(t: &str, i: usize) -> (r: usize)
    requires
        i <= t@.len(),
    ensures
        r as int == digit_run_end(t@, i as int),
        i <= r <= t@.len(),
{
    let n = t.unicode_len();
    let mut j = i;
    while j < n && is_digit_char(t.get_char(j))
        invariant
            i <= j <= n,
            n == t@.len(),
            digit_run_end(t@, i as int) == digit_run_end(t@, j as int),
        decreases n - j,
    {
        j += 1;
    }
    j
}

/// Level and content of a heading line; `None` when `t` is no heading.
pub fn heading_parts<'a>(t: &'a str) -> (r: Option<(u32, &'a str)>)
    ensures
        r is Some <==> is_heading(t@),
        r matches Some(p) ==> p.0 as int == heading_level(t@) && p.1@ == heading_content(t@),
{
    let n = t.unicode_len();
    let mut h: usize = 0;
    while h < n && t.get_char(h) == '#'
        invariant
            0 <= h <= n,
            n == t@.len(),
            hash_run_end(t@, 0) == hash_run_end(t@, h as int),
        decreases n - h,
    {
        h += 1;
    }
    proof {
        assert(hash_run_end(t@, h as int) == h as int);
    }
    if 1 <= h && h <= 6 && h < n && is_ws_char(t.get_char(h)) {
        let c = ws_run_from(t, h);
        Some((h as u32, t.substring_char(c, n)))
    } else {
        None
    }
}

/// Checked flag and content of a checklist line; `None` when `t` is no
/// checklist line.
pub fn checklist_parts<'a>(t: &'a str) -> (r: Option<(bool, &'a str)>)
    ensures
        r is Some <==> is_checklist(t@),
        r matches Some(p) ==> p.0 == checklist_checked(t@) && p.1@ == checklist_content(t@),
{
    let n = t.unicode_len();
    if n == 0 || !is_bullet_char(t.get_char(0)) {
        return None;
    }
    let a = ws_run_from(t, 1);
    if a <= 1 || a >= n || n - a <= 2 {
        return None;
    }
    if t.get_char(a) != '[' {
        return None;
    }
    let m = t.get_char(a + 1);
    if !(m == ' ' || m == 'x' || m == 'X') {
        return None;
    }
    if t.get_char(a + 2) != ']' {
        return None;
    }
    let b = ws_run_from(t, a + 3);
    if b <= a + 3 || b >= n {
        return None;
    }
    Some((m == 'x' || m == 'X', t.substring_char(b, n)))
}

/// Content of an unordered-list line; `None` when `t` is no bullet line.
pub fn unordered_parts<'a>(t: &'a str) -> (r: Option<&'a str>)
    ensures
        r is Some <==> is_unordered(t@),
        r matches Some(p) ==> p@ == unordered_content(t@),
{
    let n = t.unicode_len();
    if n == 0 || !is_bullet_char(t.get_char(0)) {
        return None;
    }
    let a = ws_run_from(t, 1);
    if a <= 1 || a >= n {
        return None;
    }
    Some(t.substring_char(a, n))
}

/// Content of an ordered-list line; `None` when `t` is no ordered-list line.
pub fn ordered_parts<'a>(t: &'a str) -> (r: Option<&'a str>)
    ensures
        r is Some <==> is_ordered(t@),
        r matches Some(p) ==> p@ == ordered_content(t@),
{
    let n = t.unicode_len();
    let d = digit_run_from(t, 0);
    if d < 1 || d >= n {
        return None;
    }
    if t.get_char(d) != '.' {
        return None;
    }
    let e = ws_run_from(t, d + 1);
    if e <= d + 1 || e >= n {
        return None;
    }
    Some(t.substring_char(e, n))
}

/// Indentation level of a raw list line, measured on its leading whitespace.
pub fn indent_of_line(l: &str) -> (r: usize)
    ensures
        r as int == indent_of(l@),
{
    let n = l.unicode_len();
    let mut i: usize = 0;
    let mut w: u128 = 0;
    while i < n && is_ws_char(l.get_char(i))
        invariant
            0 <= i <= n,
            n == l@.len(),
            w <= 4 * (i as u128),
            ws_weight(l@, 0) == w + ws_weight(l@, i as int),
        decreases n - i,
    {
        let c = l.get_char(i);
        w += if c == '\t' {
            4
        } else {
            1
        };
        i += 1;
    }
    proof {
        assert(ws_weight(l@, i as int) == 0);
    }
    let half = w / 2;
    if half > usize::MAX as u128 {
        usize::MAX
    } else {
        half as usize
    }
}

} // verus!
