//! The tuple scanner: a character-level state machine that finds the
//! top-level parenthesised value groups of a `VALUES` list, treating quoted
//! string literals as opaque.

use vstd::prelude::*;

verus! {

/// Where the scanner stands between two characters.
#[derive(PartialEq, Eq, Structural, Clone, Copy, Debug)]
pub enum ScanState {
    /// Outside any tuple, waiting for `(`.
    WantStart,
    /// Inside a tuple, waiting for `)`.
    WantEnd,
    /// After a tuple's `)`, waiting for `,` or `;`.
    WantCommaSemi,
    /// Inside a quoted value opened by the given quote character.
    InQuote(char),
}

/// Whether, inside a value quoted by `q`, the character `c` followed by `next`
/// makes the scanner skip `next`: an escaped quote.
pub open spec fn skips_next(c: char, q: char, next: Option<char>) -> bool {
    (c == '\\' || c == q) && next == Some(q)
}

/// The character after position `i` of `s`, if any.
pub open spec fn lookahead(s: Seq<char>, i: int) -> Option<char> {
    if i + 1 < s.len() {
        Some(s[i + 1])
    } else {
        None
    }
}

/// The spans that the scanner emits from position `i` of `s` on, standing in
/// state `st`, with the current tuple opened at `start`, and with `skip` set
/// when the character at `i` is an escaped quote to be passed over.
pub open spec fn scan_from(s: Seq<char>, i: int, st: ScanState, start: int, skip: bool) -> Seq<(int, int)>
    decreases s.len() - i,
{
    if i < 0 || i >= s.len() {
        seq![]
    } else if skip {
        scan_from(s, i + 1, st, start, false)
    } else {
        let c = s[i];
        match st {
            ScanState::WantStart => if c == '(' {
                scan_from(s, i + 1, ScanState::WantEnd, i, false)
            } else if c == ';' {
                seq![]
            } else {
                scan_from(s, i + 1, st, start, false)
            },
            ScanState::WantEnd => if c == ')' {
                scan_from(s, i + 1, ScanState::WantCommaSemi, start, false)
            } else if c == '\'' {
                scan_from(s, i + 1, ScanState::InQuote(c), start, false)
            } else {
                scan_from(s, i + 1, st, start, false)
            },
            ScanState::WantCommaSemi => if c == ';' {
                seq![(start, i)]
            } else if c == ',' {
                seq![(start, i + 1)] + scan_from(s, i + 1, ScanState::WantStart, start, false)
            } else {
                scan_from(s, i + 1, st, start, false)
            },
            ScanState::InQuote(q) => scan_from(
                s,
                i + 1,
                if c == q { ScanState::WantEnd } else { st },
                start,
                skips_next(c, q, lookahead(s, i)),
            ),
        }
    }
}

/// The tuple spans of a `VALUES` list remainder, as half-open character ranges.
pub open spec fn scan(s: Seq<char>) -> Seq<(int, int)> {
    scan_from(s, 0, ScanState::WantStart, 0, false)
}

/// Spans lie inside the text, open on `(` and come in order. Each ends
/// with its comma, or stands just before the `;` that ended the list and
/// then has no trailing comma; every span but the last ends with its comma.
pub open spec fn spans_wf(s: Seq<char>, sp: Seq<(int, int)>) -> bool {
    &&& forall|k: int|
        0 <= k < sp.len() ==> 0 <= #[trigger] sp[k].0 < sp[k].1 <= s.len() && s[sp[k].0] == '('
    &&& forall|k: int|
        0 <= k < sp.len() ==> (s[#[trigger] sp[k].1 - 1] == ',' || (sp[k].1 < s.len() && s[sp[k].1]
            == ';' && s[sp[k].1 - 1] != ','))
    &&& forall|k: int|
        0 <= k < sp.len() - 1 ==> s[#[trigger] sp[k].1 - 1] == ',' && sp[k].1 <= sp[k + 1].0
}

/// What holds of the scanner's position: an open tuple began on `(` before
/// it, after a tuple's `)` no comma has been passed, and an escaped quote is
/// skipped only inside or just after a quoted value.
pub open spec fn scan_pos_ok(s: Seq<char>, i: int, st: ScanState, start: int, skip: bool) -> bool {
    &&& 0 <= i <= s.len()
    &&& st != ScanState::WantStart ==> 0 <= start < i && s[start] == '('
    &&& st == ScanState::WantCommaSemi ==> s[i - 1] != ','
    &&& skip ==> (st is InQuote || st == ScanState::WantEnd)
}

proof fn lemma_scan_from_wf(s: Seq<char>, i: int, st: ScanState, start: int, skip: bool)
    requires
        scan_pos_ok(s, i, st, start, skip),
    ensures
        spans_wf(s, scan_from(s, i, st, start, skip)),
        scan_from(s, i, st, start, skip).len() > 0 ==> scan_from(s, i, st, start, skip)[0].0 >= (
        if st == ScanState::WantStart {
            i
        } else {
            start
        }),
    decreases s.len() - i,
{
    if i >= s.len() {
    } else if skip {
        lemma_scan_from_wf(s, i + 1, st, start, false);
    } else {
        let c = s[i];
        match st {
            ScanState::WantStart => if c == '(' {
                lemma_scan_from_wf(s, i + 1, ScanState::WantEnd, i, false);
            } else if c != ';' {
                lemma_scan_from_wf(s, i + 1, st, start, false);
            },
            ScanState::WantEnd => if c == ')' {
                lemma_scan_from_wf(s, i + 1, ScanState::WantCommaSemi, start, false);
            } else if c == '\'' {
                lemma_scan_from_wf(s, i + 1, ScanState::InQuote(c), start, false);
            } else {
                lemma_scan_from_wf(s, i + 1, st, start, false);
            },
            ScanState::WantCommaSemi => if c == ',' {
                lemma_scan_from_wf(s, i + 1, ScanState::WantStart, start, false);
                let tail = scan_from(s, i + 1, ScanState::WantStart, start, false);
                let r = seq![(start, i + 1)] + tail;
                assert(r == scan_from(s, i, st, start, skip));
                assert forall|k: int| 0 <= k < r.len() implies 0 <= #[trigger] r[k].0 < r[k].1
                    <= s.len() && s[r[k].0] == '(' by {
                    if k > 0 {
                        assert(r[k] == tail[k - 1]);
                    }
                }
                assert forall|k: int| 0 <= k < r.len() implies (s[#[trigger] r[k].1 - 1] == ','
                    || (r[k].1 < s.len() && s[r[k].1] == ';' && s[r[k].1 - 1] != ',')) by {
                    if k > 0 {
                        assert(r[k] == tail[k - 1]);
                    }
                }
                assert forall|k: int| 0 <= k < r.len() - 1 implies s[#[trigger] r[k].1 - 1] == ','
                    && r[k].1 <= r[k + 1].0 by {
                    if k > 0 {
                        assert(r[k] == tail[k - 1]);
                        assert(r[k + 1] == tail[k]);
                    } else {
                        assert(r[1] == tail[0]);
                    }
                }
            } else if c != ';' {
                lemma_scan_from_wf(s, i + 1, st, start, false);
            },
            ScanState::InQuote(q) => {
                lemma_scan_from_wf(
                    s,
                    i + 1,
                    if c == q {
                        ScanState::WantEnd
                    } else {
                        st
                    },
                    start,
                    skips_next(c, q, lookahead(s, i)),
                );
            },
        }
    }
}

/// The scanner's spans are well formed.
pub proof fn lemma_scan_wf(s: Seq<char>)
    ensures
        spans_wf(s, scan(s)),
{
    lemma_scan_from_wf(s, 0, ScanState::WantStart, 0, false);
}

/// Inside a quoted value, a backslash followed by the quote character is
/// literal content: the value stays open and no tuple boundary falls there,
/// so the scan goes on after the pair exactly as inside the value.
pub proof fn lemma_escaped_quote_stays_quoted(s: Seq<char>, i: int, q: char, start: int)
    requires
        0 <= i,
        i + 1 < s.len(),
        s[i] == '\\',
        s[i + 1] == q,
        q != '\\',
    ensures
        scan_from(s, i, ScanState::InQuote(q), start, false) == scan_from(
            s,
            i + 2,
            ScanState::InQuote(q),
            start,
            false,
        ),
{
    assert(skips_next(s[i], q, lookahead(s, i)));
    assert(scan_from(s, i, ScanState::InQuote(q), start, false) == scan_from(
        s,
        i + 1,
        ScanState::InQuote(q),
        start,
        true,
    ));
}

/// A span of executable offsets seen as a pair of integers.
pub open spec fn span_view(p: (usize, usize)) -> (int, int) {
    (p.0 as int, p.1 as int)
}

/// The spans of a vector, seen as pairs of integers.
pub open spec fn spans_view(v: Seq<(usize, usize)>) -> Seq<(int, int)> {
    v.map_values(|p: (usize, usize)| span_view(p))
}

/// Scans the remainder of a statement (what follows `VALUES `) and returns
/// the span of each top-level tuple, in order.
pub fn scan_tuples(s: &[char]) -> (r: Vec<(usize, usize)>)
    ensures
        spans_view(r@) == scan(s@),
        spans_wf(s@, scan(s@)),
{
    proof {
        lemma_scan_wf(s@);
    }
    let n = s.len();
    let mut out: Vec<(usize, usize)> = Vec::new();
    let mut i: usize = 0;
    let mut st = ScanState::WantStart;
    let mut start: usize = 0;
    let mut skip = false;
    while i < n
        invariant
            n == s@.len(),
            i <= n,
            spans_view(out@) + scan_from(s@, i as int, st, start as int, skip) == scan(s@),
            spans_wf(s@, scan(s@)),
        decreases n - i,
    {
        let ghost old_out = out@;
        if skip {
            skip = false;
        } else {
            let c = s[i];
            match st {
                ScanState::WantStart => {
                    if c == '(' {
                        start = i;
                        st = ScanState::WantEnd;
                    } else if c == ';' {
                        assert(spans_view(out@) + seq![] =~= spans_view(out@));
                        return out;
                    }
                },
                ScanState::WantEnd => {
                    if c == ')' {
                        st = ScanState::WantCommaSemi;
                    } else if c == '\'' {
                        st = ScanState::InQuote(c);
                    }
                },
                ScanState::WantCommaSemi => {
                    if c == ';' {
                        out.push((start, i));
                        assert(spans_view(out@) =~= spans_view(old_out) + seq![(start as int, i as int)]);
                        return out;
                    } else if c == ',' {
                        out.push((start, i + 1));
                        assert(spans_view(out@) =~= spans_view(old_out) + seq![(start as int, i + 1)]);
                        st = ScanState::WantStart;
                    }
                },
                ScanState::InQuote(q) => {
                    let next_is_quote = i + 1 < n && s[i + 1] == q;
                    if (c == '\\' || c == q) && next_is_quote {
                        skip = true;
                    }
                    if c == q {
                        st = ScanState::WantEnd;
                    }
                },
            }
        }
        i = i + 1;
    }
    assert(spans_view(out@) + seq![] =~= spans_view(out@));
    out
}

} // verus!
