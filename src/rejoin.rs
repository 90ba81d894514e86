//! Lists of well-formed tuples: the scanner finds each of them whole, and
//! re-joining the tuples that it found gives back the same tuples.

use vstd::prelude::*;
use crate::prefix::{prefix_end, prefix_shape};
use crate::split::{split_statement, tuple_line};
use crate::scanner::{lemma_scan_wf, lookahead, scan, scan_from, scan_pos_ok, skips_next, ScanState};

verus! {

/// Scanning `s` from `i` in state `st` arrives at `j` just after a tuple's
/// `)`, with nothing to skip, without emitting a span, ending the list, or
/// looking past `j`.
pub open spec fn closes_at(s: Seq<char>, i: int, j: int, st: ScanState, skip: bool) -> bool
    decreases j - i,
{
    if i >= j {
        i == j && st == ScanState::WantCommaSemi && !skip
    } else if i < 0 || j > s.len() {
        false
    } else if skip {
        st != ScanState::WantStart && st != ScanState::WantCommaSemi && closes_at(
            s,
            i + 1,
            j,
            st,
            false,
        )
    } else {
        let c = s[i];
        match st {
            ScanState::WantStart => c == '(' && closes_at(s, i + 1, j, ScanState::WantEnd, false),
            ScanState::WantEnd => if c == ')' {
                closes_at(s, i + 1, j, ScanState::WantCommaSemi, false)
            } else if c == '\'' {
                closes_at(s, i + 1, j, ScanState::InQuote(c), false)
            } else {
                closes_at(s, i + 1, j, st, false)
            },
            ScanState::WantCommaSemi => c != ',' && c != ';' && closes_at(s, i + 1, j, st, false),
            ScanState::InQuote(q) => i + 1 < j && closes_at(
                s,
                i + 1,
                j,
                if c == q {
                    ScanState::WantEnd
                } else {
                    st
                },
                skips_next(c, q, Some(s[i + 1])),
            ),
        }
    }
}

/// A tuple's text without its trailing comma: scanned alone, it is read
/// as one whole tuple.
pub open spec fn is_tuple_body(t: Seq<char>) -> bool {
    closes_at(t, 0, t.len() as int, ScanState::WantStart, false)
}

/// Where a span's tuple ends once its trailing comma, if any, is left out.
pub open spec fn body_end(s: Seq<char>, sp: (int, int)) -> int {
    if s[sp.1 - 1] == ',' {
        sp.1 - 1
    } else {
        sp.1
    }
}

/// The tuples of a remainder, each without its trailing comma.
pub open spec fn tuple_texts(s: Seq<char>) -> Seq<Seq<char>> {
    scan(s).map_values(|sp: (int, int)| s.subrange(sp.0, body_end(s, sp)))
}

/// Tuples joined with `,` and closed with `;`.
pub open spec fn joined(ts: Seq<Seq<char>>) -> Seq<char>
    decreases ts.len(),
{
    if ts.len() == 0 {
        seq![';']
    } else if ts.len() == 1 {
        ts[0] + seq![';']
    } else {
        ts[0] + seq![','] + joined(ts.drop_first())
    }
}

/// Reaching a tuple's end depends only on the characters passed over.
proof fn lemma_closes_local(s: Seq<char>, t: Seq<char>, d: int, i: int, j: int, st: ScanState, skip: bool)
    requires
        closes_at(s, i, j, st, skip),
        0 <= i + d,
        j + d <= t.len(),
        forall|p: int| i <= p < j ==> s[p] == #[trigger] t[p + d],
    ensures
        closes_at(t, i + d, j + d, st, skip),
    decreases j - i,
{
    if i < j {
        assert(s[i] == t[i + d]);
        if i + 1 < j {
            assert(s[i + 1] == t[(i + 1) + d]);
        }
        let c = s[i];
        if skip {
            lemma_closes_local(s, t, d, i + 1, j, st, false);
        } else {
            match st {
                ScanState::WantStart => lemma_closes_local(s, t, d, i + 1, j, ScanState::WantEnd, false),
                ScanState::WantEnd => if c == ')' {
                    lemma_closes_local(s, t, d, i + 1, j, ScanState::WantCommaSemi, false);
                } else if c == '\'' {
                    lemma_closes_local(s, t, d, i + 1, j, ScanState::InQuote(c), false);
                } else {
                    lemma_closes_local(s, t, d, i + 1, j, st, false);
                },
                ScanState::WantCommaSemi => lemma_closes_local(s, t, d, i + 1, j, st, false),
                ScanState::InQuote(q) => lemma_closes_local(
                    s,
                    t,
                    d,
                    i + 1,
                    j,
                    if c == q {
                        ScanState::WantEnd
                    } else {
                        st
                    },
                    skips_next(c, q, Some(s[i + 1])),
                ),
            }
        }
    }
}

/// A tuple body never ends with a comma.
proof fn lemma_closes_last_not_comma(s: Seq<char>, i: int, j: int, st: ScanState, skip: bool)
    requires
        closes_at(s, i, j, st, skip),
        i < j,
    ensures
        s[j - 1] != ',',
    decreases j - i,
{
    reveal_with_fuel(closes_at, 2);
    if i + 1 < j {
        let c = s[i];
        if skip {
            lemma_closes_last_not_comma(s, i + 1, j, st, false);
        } else {
            match st {
                ScanState::WantStart => lemma_closes_last_not_comma(s, i + 1, j, ScanState::WantEnd, false),
                ScanState::WantEnd => if c == ')' {
                    lemma_closes_last_not_comma(s, i + 1, j, ScanState::WantCommaSemi, false);
                } else if c == '\'' {
                    lemma_closes_last_not_comma(s, i + 1, j, ScanState::InQuote(c), false);
                } else {
                    lemma_closes_last_not_comma(s, i + 1, j, st, false);
                },
                ScanState::WantCommaSemi => lemma_closes_last_not_comma(s, i + 1, j, st, false),
                ScanState::InQuote(q) => lemma_closes_last_not_comma(
                    s,
                    i + 1,
                    j,
                    if c == q {
                        ScanState::WantEnd
                    } else {
                        st
                    },
                    skips_next(c, q, Some(s[i + 1])),
                ),
            }
        }
    }
}

/// Passing over a tuple body leaves the scan just after the tuple's `)`,
/// with the tuple's start recorded.
proof fn lemma_closes_run(s: Seq<char>, i: int, j: int, st: ScanState, start: int, skip: bool)
    requires
        closes_at(s, i, j, st, skip),
    ensures
        scan_from(s, i, st, start, skip) == scan_from(
            s,
            j,
            ScanState::WantCommaSemi,
            if st == ScanState::WantStart {
                i
            } else {
                start
            },
            false,
        ),
    decreases j - i,
{
    if i < j {
        let c = s[i];
        if skip {
            lemma_closes_run(s, i + 1, j, st, start, false);
        } else {
            match st {
                ScanState::WantStart => lemma_closes_run(s, i + 1, j, ScanState::WantEnd, i, false),
                ScanState::WantEnd => if c == ')' {
                    lemma_closes_run(s, i + 1, j, ScanState::WantCommaSemi, start, false);
                } else if c == '\'' {
                    lemma_closes_run(s, i + 1, j, ScanState::InQuote(c), start, false);
                } else {
                    lemma_closes_run(s, i + 1, j, st, start, false);
                },
                ScanState::WantCommaSemi => lemma_closes_run(s, i + 1, j, st, start, false),
                ScanState::InQuote(q) => {
                    assert(lookahead(s, i) == Some(s[i + 1]));
                    lemma_closes_run(
                        s,
                        i + 1,
                        j,
                        if c == q {
                            ScanState::WantEnd
                        } else {
                            st
                        },
                        start,
                        skips_next(c, q, Some(s[i + 1])),
                    );
                },
            }
        }
    }
}

/// What the scan has passed since the current tuple's `(`: any way on to a
/// tuple's end from here is a way on from the `(`.
pub open spec fn open_tuple_ok(s: Seq<char>, i: int, st: ScanState, start: int, skip: bool) -> bool {
    st != ScanState::WantStart ==> forall|j: int| #[trigger]
        closes_at(s, i, j, st, skip) ==> closes_at(s, start, j, ScanState::WantStart, false)
}

/// Each span holds a tuple body up to its trailing comma.
pub open spec fn spans_close(s: Seq<char>, sp: Seq<(int, int)>) -> bool {
    forall|k: int|
        0 <= k < sp.len() ==> closes_at(
            s,
            (#[trigger] sp[k]).0,
            body_end(s, sp[k]),
            ScanState::WantStart,
            false,
        )
}

/// Each span that the scan emits holds a tuple body up to its trailing comma.
proof fn lemma_spans_close(s: Seq<char>, i: int, st: ScanState, start: int, skip: bool)
    requires
        scan_pos_ok(s, i, st, start, skip),
        open_tuple_ok(s, i, st, start, skip),
    ensures
        spans_close(s, scan_from(s, i, st, start, skip)),
    decreases s.len() - i,
{
    if i >= s.len() {
    } else if skip {
        assert forall|j: int| #[trigger] closes_at(s, i + 1, j, st, false) implies closes_at(
            s,
            start,
            j,
            ScanState::WantStart,
            false,
        ) by {
            assert(closes_at(s, i, j, st, skip));
        }
        lemma_spans_close(s, i + 1, st, start, false);
        assert(scan_from(s, i, st, start, skip) == scan_from(s, i + 1, st, start, false));
    } else {
        let c = s[i];
        match st {
            ScanState::WantStart => if c == '(' {
                assert forall|j: int| #[trigger]
                    closes_at(s, i + 1, j, ScanState::WantEnd, false) implies closes_at(
                    s,
                    i,
                    j,
                    ScanState::WantStart,
                    false,
                ) by {}
                lemma_spans_close(s, i + 1, ScanState::WantEnd, i, false);
                assert(scan_from(s, i, st, start, skip) == scan_from(s, i + 1, ScanState::WantEnd, i, false));
            } else if c != ';' {
                lemma_spans_close(s, i + 1, st, start, false);
                assert(scan_from(s, i, st, start, skip) == scan_from(s, i + 1, st, start, false));
            },
            ScanState::WantEnd => {
                let st2 = if c == ')' {
                    ScanState::WantCommaSemi
                } else if c == '\'' {
                    ScanState::InQuote(c)
                } else {
                    st
                };
                assert forall|j: int| #[trigger] closes_at(s, i + 1, j, st2, false) implies closes_at(
                    s,
                    start,
                    j,
                    ScanState::WantStart,
                    false,
                ) by {
                    assert(closes_at(s, i, j, st, skip));
                }
                lemma_spans_close(s, i + 1, st2, start, false);
                assert(scan_from(s, i, st, start, skip) == scan_from(s, i + 1, st2, start, false));
            },
            ScanState::WantCommaSemi => {
                assert(closes_at(s, i, i, st, false));
                assert(closes_at(s, start, i, ScanState::WantStart, false));
                if c == ',' {
                    lemma_spans_close(s, i + 1, ScanState::WantStart, start, false);
                    let tail = scan_from(s, i + 1, ScanState::WantStart, start, false);
                    let r = seq![(start, i + 1)] + tail;
                    assert(r == scan_from(s, i, st, start, skip));
                    assert forall|k: int| 0 <= k < r.len() implies closes_at(
                        s,
                        (#[trigger] r[k]).0,
                        body_end(s, r[k]),
                        ScanState::WantStart,
                        false,
                    ) by {
                        assert(spans_close(s, tail));
                        if k > 0 {
                            assert(r[k] == tail[k - 1]);
                        } else {
                            assert(body_end(s, r[0]) == i);
                        }
                    }
                } else if c == ';' {
                    let r = scan_from(s, i, st, start, skip);
                    assert(r == seq![(start, i)]);
                    assert(s[i - 1] != ',');
                    assert(body_end(s, r[0]) == i);
                } else {
                    assert forall|j: int| #[trigger] closes_at(s, i + 1, j, st, false) implies closes_at(
                        s,
                        start,
                        j,
                        ScanState::WantStart,
                        false,
                    ) by {
                        assert(closes_at(s, i, j, st, skip));
                    }
                    lemma_spans_close(s, i + 1, st, start, false);
                    assert(scan_from(s, i, st, start, skip) == scan_from(s, i + 1, st, start, false));
                }
            },
            ScanState::InQuote(q) => {
                let st2 = if c == q {
                    ScanState::WantEnd
                } else {
                    st
                };
                let sk2 = skips_next(c, q, lookahead(s, i));
                assert forall|j: int| #[trigger] closes_at(s, i + 1, j, st2, sk2) implies closes_at(
                    s,
                    start,
                    j,
                    ScanState::WantStart,
                    false,
                ) by {
                    if j > i + 1 {
                        assert(lookahead(s, i) == Some(s[i + 1]));
                        assert(closes_at(s, i, j, st, skip));
                    }
                }
                lemma_spans_close(s, i + 1, st2, start, sk2);
                assert(scan_from(s, i, st, start, skip) == scan_from(s, i + 1, st2, start, sk2));
            },
        }
    }
}

/// Text between a tuple's comma and the next tuple: no `(` and no `;`.
pub open spec fn is_gap(g: Seq<char>) -> bool {
    forall|p: int| 0 <= p < g.len() ==> #[trigger] g[p] != '(' && g[p] != ';'
}

/// Tuples, each but the last followed by `,` and then its gap, closed with `;`.
pub open spec fn listed(ts: Seq<Seq<char>>, gs: Seq<Seq<char>>) -> Seq<char>
    decreases ts.len(),
{
    if ts.len() == 0 {
        seq![';']
    } else if ts.len() == 1 {
        ts[0] + seq![';']
    } else {
        ts[0] + seq![','] + gs[0] + listed(ts.drop_first(), gs.drop_first())
    }
}

/// What follows the `k`-th of `len` tuples in its span: its comma, but for
/// the last tuple, which the `;` closes.
pub open spec fn tuple_tail(len: int, k: int) -> Seq<char> {
    if k + 1 < len {
        seq![',']
    } else {
        seq![]
    }
}

/// Outside a tuple, the scan passes over text with no `(` and no `;`.
proof fn lemma_gap_skip(s: Seq<char>, i: int, k: int, x: int)
    requires
        0 <= i <= k <= s.len(),
        forall|p: int| i <= p < k ==> #[trigger] s[p] != '(' && s[p] != ';',
    ensures
        scan_from(s, i, ScanState::WantStart, x, false) == scan_from(
            s,
            k,
            ScanState::WantStart,
            x,
            false,
        ),
    decreases k - i,
{
    if i < k {
        lemma_gap_skip(s, i + 1, k, x);
    }
}

/// Scanning tuple bodies listed with commas and gaps and closed with `;`
/// finds exactly those tuples, in order, whatever follows the `;`.
proof fn lemma_listed_scan(r: Seq<char>, off: int, ts: Seq<Seq<char>>, gs: Seq<Seq<char>>, x: int)
    requires
        0 <= off,
        off + listed(ts, gs).len() <= r.len(),
        r.subrange(off, off + listed(ts, gs).len()) == listed(ts, gs),
        ts.len() <= gs.len() + 1,
        forall|k: int| 0 <= k < ts.len() ==> is_tuple_body(#[trigger] ts[k]),
        forall|k: int| 0 <= k < gs.len() ==> is_gap(#[trigger] gs[k]),
    ensures
        scan_from(r, off, ScanState::WantStart, x, false).len() == ts.len(),
        forall|k: int|
            0 <= k < ts.len() ==> r.subrange(
                scan_from(r, off, ScanState::WantStart, x, false)[k].0,
                body_end(r, scan_from(r, off, ScanState::WantStart, x, false)[k]),
            ) == #[trigger] ts[k] && r.subrange(
                scan_from(r, off, ScanState::WantStart, x, false)[k].0,
                scan_from(r, off, ScanState::WantStart, x, false)[k].1,
            ) == ts[k] + tuple_tail(ts.len() as int, k),
    decreases ts.len(),
{
    let l = listed(ts, gs);
    let rest = r.subrange(off, off + l.len());
    if ts.len() == 0 {
        assert(rest[0] == r[off]);
    } else {
        let t0 = ts[0];
        let m = t0.len() as int;
        assert(is_tuple_body(t0));
        assert(m >= 1);
        assert(l.len() >= m + 1);
        assert forall|p: int| 0 <= p < m implies t0[p] == #[trigger] r[p + off] by {
            assert(rest[p] == r[p + off]);
            assert(l[p] == t0[p]);
        }
        lemma_closes_local(t0, r, off, 0, m, ScanState::WantStart, false);
        lemma_closes_run(r, off, off + m, ScanState::WantStart, x, false);
        lemma_closes_last_not_comma(t0, 0, m, ScanState::WantStart, false);
        assert(t0[m - 1] == r[(m - 1) + off]);
        assert(rest[m] == r[off + m]);
        if ts.len() == 1 {
            assert(l[m] == ';');
            let sp = scan_from(r, off, ScanState::WantStart, x, false);
            assert(sp == seq![(off, off + m)]);
            assert(body_end(r, sp[0]) == off + m);
            assert(r.subrange(off, off + m) =~= t0);
            assert(t0 + tuple_tail(1, 0) =~= t0);
        } else {
            let g0 = gs[0];
            let tail_ts = ts.drop_first();
            let tail_gs = gs.drop_first();
            let lt = listed(tail_ts, tail_gs);
            assert(l == t0 + seq![','] + g0 + lt);
            assert(l[m] == ',');
            let off2 = off + m + 1 + g0.len();
            assert(is_gap(g0));
            assert forall|p: int| off + m + 1 <= p < off2 implies #[trigger] r[p] != '(' && r[p]
                != ';' by {
                assert(rest[p - off] == r[p]);
                assert(l[p - off] == g0[p - off - m - 1]);
            }
            lemma_gap_skip(r, off + m + 1, off2, off);
            assert(off2 + lt.len() == off + l.len());
            assert(r.subrange(off2, off2 + lt.len()) =~= lt) by {
                assert forall|p: int| 0 <= p < lt.len() implies r.subrange(off2, off2 + lt.len())[p]
                    == lt[p] by {
                    assert(rest[off2 - off + p] == r[off2 + p]);
                    assert(l[off2 - off + p] == lt[p]);
                }
            }
            assert forall|k: int| 0 <= k < tail_ts.len() implies is_tuple_body(
                #[trigger] tail_ts[k],
            ) by {
                assert(tail_ts[k] == ts[k + 1]);
            }
            assert forall|k: int| 0 <= k < tail_gs.len() implies is_gap(#[trigger] tail_gs[k]) by {
                assert(tail_gs[k] == gs[k + 1]);
            }
            lemma_listed_scan(r, off2, tail_ts, tail_gs, off);
            let tail = scan_from(r, off2, ScanState::WantStart, off, false);
            let sp = scan_from(r, off, ScanState::WantStart, x, false);
            assert(sp == seq![(off, off + m + 1)] + tail);
            assert forall|k: int| 0 <= k < ts.len() implies r.subrange(sp[k].0, body_end(r, sp[k]))
                == #[trigger] ts[k] && r.subrange(sp[k].0, sp[k].1) == ts[k] + tuple_tail(
                ts.len() as int,
                k,
            ) by {
                if k == 0 {
                    assert(body_end(r, sp[0]) == off + m);
                    assert(r.subrange(off, off + m) =~= t0);
                    assert(r.subrange(off, off + m + 1) =~= t0 + seq![',']);
                } else {
                    assert(sp[k] == tail[k - 1]);
                    assert(ts[k] == tail_ts[k - 1]);
                    assert(tuple_tail(ts.len() as int, k) == tuple_tail(tail_ts.len() as int, k - 1));
                }
            }
        }
    }
}

/// Joining with `,` is listing with empty gaps.
proof fn lemma_joined_is_listed(ts: Seq<Seq<char>>)
    ensures
        joined(ts) == listed(ts, Seq::new(ts.len(), |k: int| Seq::<char>::empty())),
    decreases ts.len(),
{
    if ts.len() >= 2 {
        let gs = Seq::new(ts.len(), |k: int| Seq::<char>::empty());
        lemma_joined_is_listed(ts.drop_first());
        assert(gs.drop_first() =~= Seq::new(ts.drop_first().len(), |k: int| Seq::<char>::empty()));
        assert(ts[0] + seq![','] + gs[0] =~= ts[0] + seq![',']);
    }
}

/// A statement whose list is well-formed tuples T1..Tk, each but the last
/// followed by `,` and a gap with no `(` and no `;`, then `;`: its output is
/// the prefix line, `  Ti,` for each tuple but the last, `  Tk`, and `;`,
/// and the tuples read back from those lines are T1..Tk.
pub proof fn lemma_listed_statement(line: Seq<char>, n: int, ts: Seq<Seq<char>>, gs: Seq<Seq<char>>)
    requires
        prefix_shape(line, n),
        ts.len() <= gs.len() + 1,
        forall|k: int| 0 <= k < ts.len() ==> is_tuple_body(#[trigger] ts[k]),
        forall|k: int| 0 <= k < gs.len() ==> is_gap(#[trigger] gs[k]),
        remainder(line, n).len() >= listed(ts, gs).len(),
        remainder(line, n).subrange(0, listed(ts, gs).len() as int) == listed(ts, gs),
    ensures
        split_statement(line, n) == seq![line.subrange(0, prefix_end(n))] + Seq::new(
            ts.len(),
            |k: int| seq![' ', ' '] + ts[k] + tuple_tail(ts.len() as int, k),
        ) + seq![seq![';']],
        emitted_tuples(split_statement(line, n)) == ts,
{
    let rem = remainder(line, n);
    lemma_listed_scan(rem, 0, ts, gs, 0);
    let sp = scan(rem);
    let out = split_statement(line, n);
    let want = seq![line.subrange(0, prefix_end(n))] + Seq::new(
        ts.len(),
        |k: int| seq![' ', ' '] + ts[k] + tuple_tail(ts.len() as int, k),
    ) + seq![seq![';']];
    assert forall|k: int| 0 <= k < out.len() implies #[trigger] out[k] == want[k] by {
        if 1 <= k <= ts.len() {
            assert(out[k] == tuple_line(rem, sp[k - 1]));
            assert(out[k] =~= want[k]);
        }
    }
    assert(out =~= want);
    lemma_emitted_are_texts(line, n);
    assert(tuple_texts(rem) =~= ts);
}

/// Re-joining a remainder's tuples, each without its trailing comma, with
/// `,` and closing the list with `;` gives a remainder whose tuples are the
/// same, in the same order.
pub proof fn lemma_rejoin_round_trip(s: Seq<char>)
    ensures
        tuple_texts(joined(tuple_texts(s))) == tuple_texts(s),
{
    let ts = tuple_texts(s);
    let sp = scan(s);
    lemma_scan_wf(s);
    lemma_spans_close(s, 0, ScanState::WantStart, 0, false);
    assert forall|k: int| 0 <= k < ts.len() implies is_tuple_body(#[trigger] ts[k]) by {
        let a = sp[k].0;
        let e = body_end(s, sp[k]);
        assert(0 <= a < sp[k].1 <= s.len());
        assert(closes_at(s, a, e, ScanState::WantStart, false));
        assert(ts[k] == s.subrange(a, e));
        lemma_closes_local(s, ts[k], -a, a, e, ScanState::WantStart, false);
    }
    let r = joined(ts);
    assert(r.subrange(0, r.len() as int) =~= r);
    let gs = Seq::new(ts.len(), |k: int| Seq::<char>::empty());
    lemma_joined_is_listed(ts);
    lemma_listed_scan(r, 0, ts, gs, 0);
    assert(tuple_texts(r) =~= ts);
}

/// A tuple line of the output with its two-space indent and its trailing
/// comma, if any, taken off.
pub open spec fn strip_line(l: Seq<char>) -> Seq<char> {
    let t = l.subrange(2, l.len() as int);
    if t.len() > 0 && t.last() == ',' {
        t.drop_last()
    } else {
        t
    }
}

/// The tuples of a split statement's output, read back from its lines.
pub open spec fn emitted_tuples(out: Seq<Seq<char>>) -> Seq<Seq<char>> {
    out.subrange(1, out.len() - 1).map_values(|l: Seq<char>| strip_line(l))
}

/// The statement rebuilt from a split statement's output: the prefix line,
/// a space, then the tuples joined with `,` and closed with `;`.
pub open spec fn rebuilt(out: Seq<Seq<char>>) -> Seq<char> {
    out[0] + seq![' '] + joined(emitted_tuples(out))
}

/// The remainder of a line whose table name has `n` characters.
pub open spec fn remainder(line: Seq<char>, n: int) -> Seq<char> {
    line.subrange(prefix_end(n) + 1, line.len() as int)
}

proof fn lemma_emitted_are_texts(line: Seq<char>, n: int)
    requires
        prefix_shape(line, n),
    ensures
        emitted_tuples(split_statement(line, n)) == tuple_texts(remainder(line, n)),
{
    let rem = remainder(line, n);
    let sp = scan(rem);
    let out = split_statement(line, n);
    lemma_scan_wf(rem);
    let e = emitted_tuples(out);
    let t = tuple_texts(rem);
    assert(e.len() == t.len());
    assert forall|k: int| 0 <= k < e.len() implies e[k] == t[k] by {
        let a = sp[k].0;
        let b = sp[k].1;
        assert(0 <= a < b <= rem.len());
        assert(out[k + 1] == tuple_line(rem, sp[k]));
        let body = out[k + 1].subrange(2, out[k + 1].len() as int);
        assert(body =~= rem.subrange(a, b));
        assert(body.last() == rem[b - 1]);
        if rem[b - 1] == ',' {
            assert(body.drop_last() =~= rem.subrange(a, b - 1));
        }
    }
    assert(e =~= t);
}

/// Re-joining a split statement's tuple lines, without their indent and
/// trailing commas, with `,`, after the prefix line and a space, and closing
/// with `;`, gives a statement of the same prefix whose tuples are the same,
/// in the same order. The statement must have at least one tuple: with none
/// the rebuilt text has no ` (` after `VALUES`.
pub proof fn lemma_statement_round_trip(line: Seq<char>, n: int)
    requires
        prefix_shape(line, n),
        scan(remainder(line, n)).len() >= 1,
    ensures
        prefix_shape(rebuilt(split_statement(line, n)), n),
        emitted_tuples(split_statement(rebuilt(split_statement(line, n)), n)) == emitted_tuples(
            split_statement(line, n),
        ),
{
    let out = split_statement(line, n);
    let rem = remainder(line, n);
    let ts = emitted_tuples(out);
    lemma_emitted_are_texts(line, n);
    assert(ts == tuple_texts(rem));
    let line2 = rebuilt(out);
    let head = line.subrange(0, prefix_end(n));
    assert(out[0] == head);
    let j = joined(ts);
    assert(line2 == head + seq![' '] + j);
    lemma_scan_wf(rem);
    lemma_spans_close(rem, 0, ScanState::WantStart, 0, false);
    let sp = scan(rem);
    assert(ts[0] == rem.subrange(sp[0].0, body_end(rem, sp[0])));
    assert(closes_at(rem, sp[0].0, body_end(rem, sp[0]), ScanState::WantStart, false));
    assert(ts[0].len() >= 1);
    assert(ts[0][0] == rem[sp[0].0]);
    assert(j[0] == '(') by {
        if ts.len() == 1 {
            assert(j == ts[0] + seq![';']);
        } else {
            assert(j == ts[0] + seq![','] + joined(ts.drop_first()));
        }
    }
    assert(j.len() >= 2);
    assert(line2.subrange(0, 12) =~= line.subrange(0, 12));
    assert(line2.subrange(14 + n, 21 + n) =~= line.subrange(14 + n, 21 + n));
    assert forall|k: int| 13 <= k < 13 + n implies #[trigger] line2[k] == line[k] by {}
    assert(line2[22 + n] == j[0]);
    assert(prefix_shape(line2, n));
    assert(remainder(line2, n) =~= j);
    lemma_emitted_are_texts(line2, n);
    lemma_rejoin_round_trip(rem);
}

/// For a statement listed as well-formed tuples with commas and gaps, the
/// statement rebuilt from its output lines is split into the very same
/// output lines.
pub proof fn lemma_listed_rebuilt_same_output(
    line: Seq<char>,
    n: int,
    ts: Seq<Seq<char>>,
    gs: Seq<Seq<char>>,
)
    requires
        prefix_shape(line, n),
        ts.len() >= 1,
        ts.len() <= gs.len() + 1,
        forall|k: int| 0 <= k < ts.len() ==> is_tuple_body(#[trigger] ts[k]),
        forall|k: int| 0 <= k < gs.len() ==> is_gap(#[trigger] gs[k]),
        remainder(line, n).len() >= listed(ts, gs).len(),
        remainder(line, n).subrange(0, listed(ts, gs).len() as int) == listed(ts, gs),
    ensures
        prefix_shape(rebuilt(split_statement(line, n)), n),
        split_statement(rebuilt(split_statement(line, n)), n) == split_statement(line, n),
{
    let out = split_statement(line, n);
    lemma_listed_statement(line, n, ts, gs);
    assert(out.len() == ts.len() + 2);
    lemma_emitted_are_texts(line, n);
    assert(scan(remainder(line, n)).len() >= 1);
    lemma_statement_round_trip(line, n);
    let line2 = rebuilt(out);
    let empties = Seq::new(ts.len(), |k: int| Seq::<char>::empty());
    lemma_joined_is_listed(ts);
    let j = joined(ts);
    assert(emitted_tuples(out) == ts);
    assert(line2 == out[0] + seq![' '] + j);
    assert(out[0].len() == prefix_end(n));
    assert(remainder(line2, n) =~= j);
    assert(remainder(line2, n).subrange(0, j.len() as int) =~= j);
    assert forall|k: int| 0 <= k < empties.len() implies is_gap(#[trigger] empties[k]) by {}
    assert(line2.subrange(0, prefix_end(n)) =~= line.subrange(0, prefix_end(n)));
    lemma_listed_statement(line2, n, ts, empties);
}

/// Unquoted tuple text: no quote and no `)`.
pub open spec fn is_plain(t: Seq<char>) -> bool {
    forall|p: int| 0 <= p < t.len() ==> #[trigger] t[p] != '\'' && t[p] != ')'
}

/// Quoted text without escapes: no quote and no backslash.
pub open spec fn is_quoted_plain(t: Seq<char>) -> bool {
    forall|p: int| 0 <= p < t.len() ==> #[trigger] t[p] != '\'' && t[p] != '\\'
}

/// The tuple `(a'u\'v'b)`: a quoted value with an escaped quote inside.
pub open spec fn escaped_quote_tuple(a: Seq<char>, u: Seq<char>, v: Seq<char>, b: Seq<char>) -> Seq<
    char,
> {
    seq!['('] + a + seq!['\''] + u + seq!['\\', '\''] + v + seq!['\''] + b + seq![')']
}

proof fn lemma_plain_run(s: Seq<char>, i: int, k: int, j: int)
    requires
        0 <= i <= k <= j <= s.len(),
        forall|p: int| i <= p < k ==> #[trigger] s[p] != '\'' && s[p] != ')',
        closes_at(s, k, j, ScanState::WantEnd, false),
    ensures
        closes_at(s, i, j, ScanState::WantEnd, false),
    decreases k - i,
{
    if i < k {
        lemma_plain_run(s, i + 1, k, j);
    }
}

proof fn lemma_quoted_run(s: Seq<char>, i: int, k: int, j: int)
    requires
        0 <= i <= k < j <= s.len(),
        forall|p: int| i <= p < k ==> #[trigger] s[p] != '\'' && s[p] != '\\',
        closes_at(s, k, j, ScanState::InQuote('\''), false),
    ensures
        closes_at(s, i, j, ScanState::InQuote('\''), false),
    decreases k - i,
{
    if i < k {
        lemma_quoted_run(s, i + 1, k, j);
    }
}

/// A tuple with an escaped quote inside a quoted value is one whole tuple.
proof fn lemma_escaped_quote_tuple_body(a: Seq<char>, u: Seq<char>, v: Seq<char>, b: Seq<char>)
    requires
        is_plain(a),
        is_plain(b),
        is_quoted_plain(u),
        is_quoted_plain(v),
    ensures
        is_tuple_body(escaped_quote_tuple(a, u, v, b)),
{
    let t = escaped_quote_tuple(a, u, v, b);
    let len = t.len() as int;
    let qa: int = 1 + a.len() as int;
    let e1: int = qa + 1 + u.len();
    let c: int = e1 + 2 + v.len();
    assert(len == c + 1 + b.len() + 1);
    assert(t[0] == '(');
    assert(t[qa] == '\'');
    assert(t[e1] == '\\');
    assert(t[e1 + 1] == '\'');
    assert(t[c] == '\'');
    assert(t[len - 1] == ')');
    assert forall|p: int| 1 <= p < qa implies #[trigger] t[p] != '\'' && t[p] != ')' by {
        assert(t[p] == a[p - 1]);
    }
    assert forall|p: int| qa + 1 <= p < e1 implies #[trigger] t[p] != '\'' && t[p] != '\\' by {
        assert(t[p] == u[p - qa - 1]);
    }
    assert forall|p: int| e1 + 2 <= p < c implies #[trigger] t[p] != '\'' && t[p] != '\\' by {
        assert(t[p] == v[p - e1 - 2]);
    }
    assert forall|p: int| c + 1 <= p < len - 1 implies #[trigger] t[p] != '\'' && t[p] != ')' by {
        assert(t[p] == b[p - c - 1]);
    }
    assert(closes_at(t, len, len, ScanState::WantCommaSemi, false));
    assert(closes_at(t, len - 1, len, ScanState::WantEnd, false));
    lemma_plain_run(t, c + 1, len - 1, len);
    assert(t[c + 1] != '\'');
    assert(closes_at(t, c, len, ScanState::InQuote('\''), false));
    lemma_quoted_run(t, e1 + 2, c, len);
    assert(closes_at(t, e1 + 1, len, ScanState::InQuote('\''), true));
    assert(closes_at(t, e1, len, ScanState::InQuote('\''), false));
    lemma_quoted_run(t, qa + 1, e1, len);
    assert(closes_at(t, qa, len, ScanState::WantEnd, false));
    lemma_plain_run(t, 1, qa, len);
    assert(closes_at(t, 0, len, ScanState::WantStart, false));
}

/// A statement whose one tuple holds a quoted value with an escaped quote,
/// `(a'u\'v'b)` followed by `;`, is split into the prefix line, that whole
/// tuple on one line, and `;`: the escaped quote neither closes the value
/// nor ends the tuple, even where the value holds `,`, `)` or `;`.
pub proof fn lemma_escaped_quote_statement(
    line: Seq<char>,
    n: int,
    a: Seq<char>,
    u: Seq<char>,
    v: Seq<char>,
    b: Seq<char>,
)
    requires
        prefix_shape(line, n),
        is_plain(a),
        is_plain(b),
        is_quoted_plain(u),
        is_quoted_plain(v),
        remainder(line, n).len() > escaped_quote_tuple(a, u, v, b).len(),
        remainder(line, n).subrange(0, escaped_quote_tuple(a, u, v, b).len() as int + 1)
            == escaped_quote_tuple(a, u, v, b) + seq![';'],
    ensures
        split_statement(line, n) == seq![
            line.subrange(0, prefix_end(n)),
            seq![' ', ' '] + escaped_quote_tuple(a, u, v, b),
            seq![';'],
        ],
{
    let t = escaped_quote_tuple(a, u, v, b);
    let ts = seq![t];
    let gs = Seq::<Seq<char>>::empty();
    lemma_escaped_quote_tuple_body(a, u, v, b);
    assert(listed(ts, gs) == t + seq![';']);
    lemma_listed_statement(line, n, ts, gs);
    assert(seq![' ', ' '] + t + tuple_tail(1, 0) =~= seq![' ', ' '] + t);
    assert(split_statement(line, n) =~= seq![
        line.subrange(0, prefix_end(n)),
        seq![' ', ' '] + t,
        seq![';'],
    ]);
}

} // verus!
