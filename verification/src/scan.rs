//! Character classes, runs of characters, and whitespace trimming over
//! `Seq<char>`, with the executable counterparts used by the line classifier.

use vstd::prelude::*;

verus! {

/// Whitespace, as Unicode lists it: the characters trimmed from line ends and
/// accepted between the pieces of a block-start line.
pub open spec fn is_ws(c: char) -> bool {
    c == ' ' || c == '\t' || c == '\n' || c == '\r' || c == '\u{b}' || c == '\u{c}'
        || c == '\u{85}' || c == '\u{a0}' || c == '\u{1680}'
        || ('\u{2000}' <= c && c <= '\u{200a}')
        || c == '\u{2028}' || c == '\u{2029}' || c == '\u{202f}' || c == '\u{205f}'
        || c == '\u{3000}'
}

/// A bullet marker that can open an unordered-list or checklist item.
pub open spec fn is_bullet(c: char) -> bool {
    c == '-' || c == '*' || c == '+'
}

/// A decimal digit, as an ordered-list marker is made of.
pub open spec fn is_digit(c: char) -> bool {
    '0' <= c && c <= '9'
}

pub fn is_ws_char(c: char) -> (r: bool)
    ensures
        r == is_ws(c),
{
    let u = c as u32;
    u == 0x20 || u == 0x9 || u == 0xa || u == 0xd || u == 0xb || u == 0xc || u == 0x85
        || u == 0xa0 || u == 0x1680 || (0x2000 <= u && u <= 0x200a) || u == 0x2028
        || u == 0x2029 || u == 0x202f || u == 0x205f || u == 0x3000
}

pub fn is_bullet_char(c: char) -> (r: bool)
    ensures
        r == is_bullet(c),
{
    c == '-' || c == '*' || c == '+'
}

pub fn is_digit_char(c: char) -> (r: bool)
    ensures
        r == is_digit(c),
{
    let u = c as u32;
    0x30 <= u && u <= 0x39
}

/// Index of the first position at or after `i` that does not hold whitespace.
pub open spec fn ws_run_end(t: Seq<char>, i: int) -> int
    decreases t.len() - i,
{
    if 0 <= i && i < t.len() && is_ws(t[i]) {
        ws_run_end(t, i + 1)
    } else {
        i
    }
}

/// Index of the first position at or after `i` that does not hold a digit.
pub open spec fn digit_run_end(t: Seq<char>, i: int) -> int
    decreases t.len() - i,
{
    if 0 <= i && i < t.len() && is_digit(t[i]) {
        digit_run_end(t, i + 1)
    } else {
        i
    }
}

/// Index of the first position at or after `i` that does not hold `'#'`.
pub open spec fn hash_run_end(t: Seq<char>, i: int) -> int
    decreases t.len() - i,
{
    if 0 <= i && i < t.len() && t[i] == '#' {
        hash_run_end(t, i + 1)
    } else {
        i
    }
}

pub proof fn lemma_ws_run_end(t: Seq<char>, i: int)
    requires
        0 <= i <= t.len(),
    ensures
        i <= ws_run_end(t, i) <= t.len(),
        forall|j: int| i <= j < ws_run_end(t, i) ==> is_ws(t[j]),
        ws_run_end(t, i) < t.len() ==> !is_ws(t[ws_run_end(t, i)]),
    decreases t.len() - i,
{
    if i < t.len() && is_ws(t[i]) {
        lemma_ws_run_end(t, i + 1);
    }
}

/// Pins a whitespace run down from the other side: a stretch of whitespace
/// that ends at a non-whitespace character or at the end.
pub proof fn lemma_ws_run_end_is(t: Seq<char>, i: int, m: int)
    requires
        0 <= i <= m <= t.len(),
        forall|j: int| i <= j < m ==> is_ws(t[j]),
        m < t.len() ==> !is_ws(t[m]),
    ensures
        ws_run_end(t, i) == m,
    decreases m - i,
{
    if i < m {
        lemma_ws_run_end_is(t, i + 1, m);
    }
}

/// Pins a digit run down from the other side.
pub proof fn lemma_digit_run_end_is(t: Seq<char>, i: int, m: int)
    requires
        0 <= i <= m <= t.len(),
        forall|j: int| i <= j < m ==> is_digit(t[j]),
        m < t.len() ==> !is_digit(t[m]),
    ensures
        digit_run_end(t, i) == m,
    decreases m - i,
{
    if i < m {
        lemma_digit_run_end_is(t, i + 1, m);
    }
}

/// Pins a `'#'` run down from the other side.
pub proof fn lemma_hash_run_end_is(t: Seq<char>, i: int, m: int)
    requires
        0 <= i <= m <= t.len(),
        forall|j: int| i <= j < m ==> t[j] == '#',
        m < t.len() ==> t[m] != '#',
    ensures
        hash_run_end(t, i) == m,
    decreases m - i,
{
    if i < m {
        lemma_hash_run_end_is(t, i + 1, m);
    }
}

/// A nonempty sequence with no whitespace at either end trims to itself.
pub proof fn lemma_trim_id(t: Seq<char>)
    requires
        t.len() > 0,
        !is_ws(t[0]),
        !is_ws(t.last()),
    ensures
        trim_spec(t) == t,
{
    lemma_ws_run_end_is(t, 0, 0);
    let rest = t.subrange(0, t.len() as int);
    assert(rest =~= t);
    assert(trim_end_idx(t) == t.len());
    assert(t.take(t.len() as int) =~= t);
}

/// Length that remains once trailing whitespace is dropped.
pub open spec fn trim_end_idx(s: Seq<char>) -> int
    decreases s.len(),
{
    if s.len() > 0 && is_ws(s.last()) {
        trim_end_idx(s.drop_last())
    } else {
        s.len() as int
    }
}

/// `s` with leading and trailing whitespace removed, as `str::trim` leaves it.
pub open spec fn trim_spec(s: Seq<char>) -> Seq<char> {
    let rest = s.subrange(ws_run_end(s, 0), s.len() as int);
    rest.take(trim_end_idx(rest))
}

pub proof fn lemma_trim_end_idx(s: Seq<char>)
    ensures
        0 <= trim_end_idx(s) <= s.len(),
        forall|j: int| trim_end_idx(s) <= j < s.len() ==> is_ws(s[j]),
        trim_end_idx(s) > 0 ==> !is_ws(s[trim_end_idx(s) - 1]),
    decreases s.len(),
{
    if s.len() > 0 && is_ws(s.last()) {
        lemma_trim_end_idx(s.drop_last());
        assert forall|j: int| trim_end_idx(s) <= j < s.len() implies is_ws(s[j]) by {
            if j < s.len() - 1 {
                assert(s.drop_last()[j] == s[j]);
            }
        }
    }
}

/// The characters of a trimmed line: empty, or non-whitespace at both ends;
/// always a contiguous piece of the line it came from.
pub proof fn lemma_trim_spec(s: Seq<char>)
    ensures
        trim_spec(s).len() <= s.len(),
        trim_spec(s).len() > 0 ==> !is_ws(trim_spec(s)[0]),
        trim_spec(s).len() > 0 ==> !is_ws(trim_spec(s).last()),
        trim_spec(s) == s.subrange(
            ws_run_end(s, 0),
            ws_run_end(s, 0) + trim_spec(s).len() as int,
        ),
        forall|j: int| 0 <= j < ws_run_end(s, 0) ==> is_ws(s[j]),
        forall|j: int|
            ws_run_end(s, 0) + trim_spec(s).len() <= j < s.len() ==> is_ws(s[j]),
{
    let a = ws_run_end(s, 0);
    lemma_ws_run_end(s, 0);
    let rest = s.subrange(a, s.len() as int);
    lemma_trim_end_idx(rest);
    let b = trim_end_idx(rest);
    assert(rest.take(b) =~= s.subrange(a, a + b));
    if b > 0 {
        assert(!is_ws(rest[0]));
    }
    assert forall|j: int| a + trim_spec(s).len() <= j < s.len() implies is_ws(s[j]) by {
        assert(rest[j - a] == s[j]);
    }
}

/// A line is blank when trimming leaves nothing, that is when every character
/// is whitespace.
pub open spec fn is_blank(l: Seq<char>) -> bool {
    trim_spec(l).len() == 0
}

pub proof fn lemma_blank_iff_all_ws(l: Seq<char>)
    ensures
        is_blank(l) <==> (forall|j: int| 0 <= j < l.len() ==> is_ws(l[j])),
{
    lemma_trim_spec(l);
    let a = ws_run_end(l, 0);
    lemma_ws_run_end(l, 0);
    if trim_spec(l).len() > 0 {
        let rest = l.subrange(a, l.len() as int);
        lemma_trim_end_idx(rest);
        assert(!is_ws(l[a]));
    }
}

/// Trims `s`, handing back the trimmed middle as a borrowed piece.
pub fn trim_of<'a>(s: &'a str) -> (t: &'a str)
    ensures
        t@ == trim_spec(s@),
{
    let n = s.unicode_len();
    let mut a: usize = 0;
    while a < n && is_ws_char(s.get_char(a))
        invariant
            0 <= a <= n,
            n == s@.len(),
            ws_run_end(s@, 0) == ws_run_end(s@, a as int),
        decreases n - a,
    {
        a += 1;
    }
    proof {
        lemma_ws_run_end(s@, 0);
        assert(ws_run_end(s@, a as int) == a as int);
    }
    let ghost rest = s@.subrange(a as int, n as int);
    let mut b: usize = n;
    while b > a && is_ws_char(s.get_char(b - 1))
        invariant
            a <= b <= n,
            n == s@.len(),
            rest == s@.subrange(a as int, n as int),
            trim_end_idx(rest) == trim_end_idx(s@.subrange(a as int, b as int)),
        decreases b,
    {
        proof {
            let cur = s@.subrange(a as int, b as int);
            assert(cur.drop_last() =~= s@.subrange(a as int, b as int - 1));
        }
        b -= 1;
    }
    proof {
        let cur = s@.subrange(a as int, b as int);
        if b > a {
            assert(trim_end_idx(cur) == cur.len());
        } else {
            assert(cur.len() == 0);
            assert(trim_end_idx(cur) == 0);
        }
        assert(trim_spec(s@) =~= rest.take(trim_end_idx(rest)));
        assert(rest.take(b - a as int) =~= s@.subrange(a as int, b as int));
    }
    s.substring_char(a, b)
}

} // verus!
