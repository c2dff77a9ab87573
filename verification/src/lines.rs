//! Splitting text into lines, the way `str::lines` does it: lines end at a
//! `'\n'` or at a `"\r\n"` pair, and a final line ending is optional.

use vstd::prelude::*;

verus! {

/// Index of the first `'\n'` at or after `i`, or the length when none follows.
pub open spec fn find_nl(s: Seq<char>, i: int) -> int
    decreases s.len() - i,
{
    if 0 <= i && i < s.len() {
        if s[i] == '\n' {
            i
        } else {
            find_nl(s, i + 1)
        }
    } else {
        s.len() as int
    }
}

/// A line chunk with one trailing `'\r'` removed, as happens before a `'\n'`.
pub open spec fn strip_cr(l: Seq<char>) -> Seq<char> {
    if l.len() > 0 && l.last() == '\r' {
        l.drop_last()
    } else {
        l
    }
}

pub proof fn lemma_find_nl(s: Seq<char>, i: int)
    requires
        0 <= i <= s.len(),
    ensures
        i <= find_nl(s, i) <= s.len(),
        forall|k: int| i <= k < find_nl(s, i) ==> s[k] != '\n',
        find_nl(s, i) < s.len() ==> s[find_nl(s, i)] == '\n',
    decreases s.len() - i,
{
    if i < s.len() && s[i] != '\n' {
        lemma_find_nl(s, i + 1);
    }
}

/// Pins `find_nl` down from the other side: a stretch free of `'\n'` that
/// ends at a `'\n'` or at the end of the text.
pub proof fn lemma_find_nl_is(s: Seq<char>, i: int, m: int)
    requires
        0 <= i <= m <= s.len(),
        forall|k: int| i <= k < m ==> s[k] != '\n',
        m < s.len() ==> s[m] == '\n',
    ensures
        find_nl(s, i) == m,
    decreases m - i,
{
    if i < m {
        lemma_find_nl_is(s, i + 1, m);
    }
}

/// The lines of `s`: split at each `'\n'`, with a `'\r'` directly before the
/// `'\n'` dropped; a last line without a terminator is kept as it stands, and
/// a terminator on the last line adds no empty line after it.
pub open spec fn spec_lines(s: Seq<char>) -> Seq<Seq<char>>
    decreases s.len(),
{
    if s.len() == 0 {
        Seq::empty()
    } else {
        let j = find_nl(s, 0);
        if j == s.len() {
            seq![s]
        } else {
            proof {
                lemma_find_nl(s, 0);
            }
            seq![strip_cr(s.take(j))] + spec_lines(s.skip(j + 1))
        }
    }
}

/// Joining a newline-free line onto further text with a `'\n'` splits back
/// into that line followed by the lines of the rest.
pub proof fn lemma_spec_lines_append(a: Seq<char>, b: Seq<char>)
    requires
        forall|k: int| 0 <= k < a.len() ==> a[k] != '\n',
        b.len() > 0,
    ensures
        spec_lines(a + seq!['\n'] + b) =~= seq![strip_cr(a)] + spec_lines(b),
{
    let s = a + seq!['\n'] + b;
    assert(s.len() > 0);
    lemma_find_nl_is(s, 0, a.len() as int);
    assert(s.take(a.len() as int) =~= a);
    assert(s.skip(a.len() as int + 1) =~= b);
}

/// A nonempty text without `'\n'` is one single line.
pub proof fn lemma_spec_lines_single(a: Seq<char>)
    requires
        forall|k: int| 0 <= k < a.len() ==> a[k] != '\n',
        a.len() > 0,
    ensures
        spec_lines(a) =~= seq![a],
{
    lemma_find_nl_is(a, 0, a.len() as int);
}

/// The characters of each line of a borrowed line sequence.
pub open spec fn lines_view(ls: Seq<&str>) -> Seq<Seq<char>> {
    ls.map_values(|l: &str| l@)
}

/// Splits `s` into its lines.
pub fn split_lines<'a>(s: &'a str) -> (r: Vec<&'a str>)
    ensures
        r@.len() == spec_lines(s@).len(),
        forall|i: int| 0 <= i < r@.len() ==> r@[i]@ == spec_lines(s@)[i],
{
    let n = s.unicode_len();
    let mut out: Vec<&'a str> = Vec::new();
    let mut pos: usize = 0;
    proof {
        assert(s@.skip(0) =~= s@);
    }
    while pos < n
        invariant
            0 <= pos <= n,
            n == s@.len(),
            spec_lines(s@) =~= out@.map_values(|l: &'a str| l@) + spec_lines(
                s@.skip(pos as int),
            ),
        decreases n - pos,
    {
        let mut j = pos;
        while j < n && s.get_char(j) != '\n'
            invariant
                pos <= j <= n,
                n == s@.len(),
                forall|k: int| pos <= k < j ==> s@[k] != '\n',
            decreases n - j,
        {
            j += 1;
        }
        let ghost suf = s@.skip(pos as int);
        proof {
            lemma_find_nl_is(suf, 0, j - pos as int);
        }
        let chunk: &'a str = if j < n {
            if j > pos && s.get_char(j - 1) == '\r' {
                s.substring_char(pos, j - 1)
            } else {
                s.substring_char(pos, j)
            }
        } else {
            s.substring_char(pos, n)
        };
        proof {
            let raw = suf.take(j - pos as int);
            assert(raw =~= s@.subrange(pos as int, j as int));
            if j < n {
                if raw.len() > 0 && raw.last() == '\r' {
                    assert(raw.drop_last() =~= s@.subrange(pos as int, j as int - 1));
                    assert(chunk@ == strip_cr(raw));
                } else {
                    assert(chunk@ == strip_cr(raw));
                }
                assert(suf.skip(j - pos as int + 1) =~= s@.skip(j as int + 1));
                assert(spec_lines(suf) =~= seq![strip_cr(raw)] + spec_lines(
                    s@.skip(j as int + 1),
                ));
            } else {
                assert(chunk@ == suf);
                assert(spec_lines(suf) =~= seq![suf]);
                assert(spec_lines(s@.skip(n as int)) =~= Seq::<Seq<char>>::empty());
            }
        }
        out.push(chunk);
        proof {
            assert(out@.map_values(|l: &'a str| l@) =~= out@.drop_last().map_values(
                |l: &'a str| l@,
            ) + seq![chunk@]);
        }
        if j < n {
            pos = j + 1;
        } else {
            pos = n;
        }
    }
    proof {
        assert(spec_lines(s@.skip(n as int)) =~= Seq::<Seq<char>>::empty());
    }
    out
}

} // verus!
