//! Inserting one line at the end of a markdown section found by its header:
//! the section runs from the line starting with the given header up to the
//! next line that starts with a one-level-shorter `'#'` prefix, or to the
//! end of the text.

use vstd::prelude::*;

use crate::lines::spec_lines;
use crate::lines::split_lines;
use crate::render::append_hashes;
use crate::render::join_sep;
use crate::render::lemma_join_sep_push;
use crate::render::repeat_char;
use crate::sections::match_at;

verus! {

/// Whether `l` begins with `p`.
pub open spec fn line_starts_with(l: Seq<char>, p: Seq<char>) -> bool {
    l.len() >= p.len() && l.subrange(0, p.len() as int) == p
}

/// How many `'#'` characters `s` holds, wherever they stand.
pub open spec fn hash_count(s: Seq<char>) -> int
    decreases s.len(),
{
    if s.len() == 0 {
        0
    } else {
        hash_count(s.drop_last()) + (if s.last() == '#' {
            1int
        } else {
            0int
        })
    }
}

/// The marker of the heading one level above the target's: one `'#'` fewer,
/// then a space. A line starting with it ends the target's section.
pub open spec fn stop_prefix(header: Seq<char>) -> Seq<char> {
    repeat_char('#', hash_count(header) - 1) + seq![' ']
}

/// The line accumulator while walking the text: the lines written so far,
/// whether the walk stands inside the target section, whether the target
/// header was seen, and whether the new line has been written.
#[verifier::ext_equal]
pub ghost struct InsertState {
    pub out: Seq<Seq<char>>,
    pub in_target: bool,
    pub found: bool,
    pub inserted: bool,
}

/// A sequence without its last element; unchanged when empty.
pub open spec fn pop_last(s: Seq<Seq<char>>) -> Seq<Seq<char>> {
    if s.len() > 0 {
        s.drop_last()
    } else {
        s
    }
}

/// One line's effect on the accumulator. A line starting the target header
/// opens the section; inside the section, a line starting the stop prefix
/// takes the place of the line before it together with the new line and a
/// blank; the text's last line, still inside the section, is kept with the
/// new line and a blank after it; every other line passes through.
pub open spec fn insert_step(
    st: InsertState,
    line: Seq<char>,
    is_last: bool,
    header: Seq<char>,
    stop: Seq<char>,
    nl: Seq<char>,
) -> InsertState {
    if line_starts_with(line, header) {
        InsertState { out: st.out.push(line), in_target: true, found: true, inserted: st.inserted }
    } else if st.in_target && line_starts_with(line, stop) {
        InsertState {
            out: pop_last(st.out).push(nl).push(Seq::empty()).push(line),
            in_target: false,
            found: st.found,
            inserted: true,
        }
    } else if st.in_target && is_last {
        InsertState {
            out: pop_last(st.out).push(line).push(nl).push(Seq::empty()),
            in_target: st.in_target,
            found: st.found,
            inserted: true,
        }
    } else {
        InsertState {
            out: st.out.push(line),
            in_target: st.in_target,
            found: st.found,
            inserted: st.inserted,
        }
    }
}

/// The accumulator after walking the lines from `k` on.
pub open spec fn insert_fold(
    ls: Seq<Seq<char>>,
    k: int,
    st: InsertState,
    header: Seq<char>,
    stop: Seq<char>,
    nl: Seq<char>,
) -> InsertState
    decreases ls.len() - k,
{
    if k < 0 || k >= ls.len() {
        st
    } else {
        insert_fold(
            ls,
            k + 1,
            insert_step(st, ls[k], k == ls.len() - 1, header, stop, nl),
            header,
            stop,
            nl,
        )
    }
}

/// What `insert_line_in_section` returns: the lines of `content` walked with
/// `insert_step`; when the section was found but still open at the end with
/// nothing written, the new line and a blank follow; everything joined by
/// newlines.
pub open spec fn spec_insert_line(
    content: Seq<char>,
    nl: Seq<char>,
    header: Seq<char>,
) -> Seq<char> {
    let ls = spec_lines(content);
    let st0 = InsertState {
        out: Seq::empty(),
        in_target: false,
        found: false,
        inserted: false,
    };
    let st = insert_fold(ls, 0, st0, header, stop_prefix(header), nl);
    let out = if st.found && st.in_target && !st.inserted {
        st.out.push(nl).push(Seq::empty())
    } else {
        st.out
    };
    join_sep(out, seq!['\n'])
}

/// The views of the accumulated lines.
pub open spec fn texts_view(v: Seq<String>) -> Seq<Seq<char>> {
    v.map_values(|s: String| s@)
}

/// Counts the `'#'` characters of `s`.
fn count_hashes(s: &str) -> (r: usize)
    ensures
        r as int == hash_count(s@),
{
    let n = s.unicode_len();
    let mut i: usize = 0;
    let mut cnt: usize = 0;
    proof {
        assert(s@.take(0) =~= Seq::<char>::empty());
    }
    while i < n
        invariant
            0 <= i <= n,
            n == s@.len(),
            cnt <= i,
            cnt as int == hash_count(s@.take(i as int)),
        decreases n - i,
    {
        proof {
            assert(s@.take(i + 1).drop_last() =~= s@.take(i as int));
            assert(s@.take(i + 1).last() == s@[i as int]);
        }
        if s.get_char(i) == '#' {
            cnt += 1;
        }
        i += 1;
    }
    proof {
        assert(s@.take(n as int) =~= s@);
    }
    cnt
}

/// Whether `l` begins with `p`.
fn str_starts_with(l: &str, p: &str) -> (r: bool)
    ensures
        r == line_starts_with(l@, p@),
{
    let ll = l.unicode_len();
    let pl = p.unicode_len();
    if pl > ll {
        return false;
    }
    match_at(l, p, 0)
}

/// Inserts `new_line` at the end of the section opened by the line starting
/// with `target_header`, before the next heading one level up; the header
/// must hold at least one `'#'`. Without the header the text's lines come
/// back joined unchanged.
pub fn insert_line_in_section(content: &str, new_line: &str, target_header: &str) -> (r:
    String)
    requires
        hash_count(target_header@) >= 1,
    ensures
        r@ == spec_insert_line(content@, new_line@, target_header@),
{
    let ghost hv = target_header@;
    let ghost sv = stop_prefix(hv);
    let ghost nv = new_line@;
    let cnt = count_hashes(target_header);
    let mut stop = String::new();
    append_hashes(&mut stop, cnt - 1);
    stop.append(" ");
    proof {
        reveal_strlit(" ");
        assert(stop@ =~= sv);
    }
    let lines = split_lines(content);
    let ghost ls = spec_lines(content@);
    proof {
        assert(lines@.map_values(|l: &str| l@) =~= ls);
    }
    let ghost st0 = (InsertState {
        out: Seq::empty(),
        in_target: false,
        found: false,
        inserted: false,
    });
    let mut out: Vec<String> = Vec::new();
    let mut in_target = false;
    let mut found = false;
    let mut inserted = false;
    let mut k: usize = 0;
    proof {
        assert(texts_view(out@) =~= Seq::<Seq<char>>::empty());
        assert((InsertState {
            out: texts_view(out@),
            in_target: in_target,
            found: found,
            inserted: inserted,
        }) =~= st0);
    }
    while k < lines.len()
        invariant
            0 <= k <= lines@.len(),
            ls == spec_lines(content@),
            lines@.len() == ls.len(),
            forall|j: int| 0 <= j < lines@.len() ==> lines@[j]@ == ls[j],
            stop@ == sv,
            nv == new_line@,
            hv == target_header@,
            insert_fold(ls, 0, st0, hv, sv, nv) == insert_fold(
                ls,
                k as int,
                InsertState {
                    out: texts_view(out@),
                    in_target: in_target,
                    found: found,
                    inserted: inserted,
                },
                hv,
                sv,
                nv,
            ),
        decreases lines@.len() - k,
    {
        let ghost cur = (InsertState {
            out: texts_view(out@),
            in_target: in_target,
            found: found,
            inserted: inserted,
        });
        let line = lines[k];
        let is_last = k == lines.len() - 1;
        let ghost stepped = insert_step(cur, ls[k as int], is_last, hv, sv, nv);
        if str_starts_with(line, target_header) {
            out.push(String::from_str(line));
            in_target = true;
            found = true;
            proof {
                assert(texts_view(out@) =~= cur.out.push(line@));
            }
        } else if in_target && str_starts_with(line, stop.as_str()) {
            let ghost before = out@;
            let _ = out.pop();
            proof {
                assert(texts_view(out@) =~~= pop_last(texts_view(before)));
            }
            out.push(String::from_str(new_line));
            proof {
                assert(texts_view(out@) =~~= pop_last(cur.out).push(nv));
            }
            out.push(String::new());
            proof {
                assert(texts_view(out@) =~~= pop_last(cur.out).push(nv).push(Seq::empty()));
            }
            out.push(String::from_str(line));
            in_target = false;
            inserted = true;
            proof {
                assert(texts_view(out@) =~~= pop_last(cur.out).push(nv).push(
                    Seq::empty(),
                ).push(line@));
            }
        } else if in_target && is_last {
            let ghost before = out@;
            let _ = out.pop();
            proof {
                assert(texts_view(out@) =~~= pop_last(texts_view(before)));
            }
            out.push(String::from_str(line));
            proof {
                assert(texts_view(out@) =~~= pop_last(cur.out).push(line@));
            }
            out.push(String::from_str(new_line));
            proof {
                assert(texts_view(out@) =~~= pop_last(cur.out).push(line@).push(nv));
            }
            out.push(String::new());
            inserted = true;
            proof {
                assert(texts_view(out@) =~~= pop_last(cur.out).push(line@).push(nv).push(
                    Seq::empty(),
                ));
            }
        } else {
            out.push(String::from_str(line));
            proof {
                assert(texts_view(out@) =~= cur.out.push(line@));
            }
        }
        proof {
            assert((InsertState {
                out: texts_view(out@),
                in_target: in_target,
                found: found,
                inserted: inserted,
            }) =~~= stepped);
        }
        k += 1;
    }
    let ghost st = insert_fold(ls, 0, st0, hv, sv, nv);
    proof {
        assert(st =~= (InsertState {
            out: texts_view(out@),
            in_target: in_target,
            found: found,
            inserted: inserted,
        }));
    }
    if found && in_target && !inserted {
        let ghost before = out@;
        out.push(String::from_str(new_line));
        out.push(String::new());
        proof {
            assert(texts_view(out@) =~= texts_view(before).push(nv).push(Seq::empty()));
        }
    }
    let ghost final_lines = texts_view(out@);
    let mut res = String::new();
    let mut i: usize = 0;
    proof {
        reveal_strlit("\n");
        assert(final_lines.take(0) =~= Seq::<Seq<char>>::empty());
    }
    while i < out.len()
        invariant
            0 <= i <= out@.len(),
            final_lines == texts_view(out@),
            res@ == join_sep(final_lines.take(i as int), seq!['\n']),
        decreases out@.len() - i,
    {
        let ghost pre = res@;
        if i > 0 {
            res.append("\n");
        }
        res.append(out[i].as_str());
        proof {
            reveal_strlit("\n");
            assert(final_lines.take(i + 1) =~= final_lines.take(i as int).push(
                final_lines[i as int],
            ));
            lemma_join_sep_push(final_lines.take(i as int), seq!['\n'], final_lines[i as int]);
            if i > 0 {
                assert(res@ =~= pre + seq!['\n'] + final_lines[i as int]);
            } else {
                assert(final_lines.take(0).len() == 0);
                assert(res@ =~= final_lines[i as int]);
            }
        }
        i += 1;
    }
    proof {
        assert(final_lines.take(final_lines.len() as int) =~= final_lines);
    }
    res
}

} // verus!
