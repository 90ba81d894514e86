//! The statement emitter and the line router: one input line becomes the
//! output lines that stand for it.

use vstd::prelude::*;
use crate::prefix::{
    has_insert_keyword, prefix_end, prefix_shape, starts_with_insert, PrefixMatcher,
};
use crate::scanner::{lemma_scan_wf, scan, scan_tuples, spans_view};

verus! {

/// The output for one input line.
pub struct SplitLine {
    /// The lines to write, in order.
    pub lines: Vec<String>,
    /// Set where the line begins with `INSERT INTO ` but has no splittable
    /// prefix: it is passed through and a diagnostic is owed.
    pub anomaly: bool,
}

/// The contents of a list of output lines.
pub open spec fn lines_view(v: Seq<String>) -> Seq<Seq<char>> {
    v.map_values(|l: String| l@)
}

/// Every span lies inside a text of `len` characters.
pub open spec fn spans_within(sp: Seq<(int, int)>, len: int) -> bool {
    forall|k: int| 0 <= k < sp.len() ==> 0 <= #[trigger] sp[k].0 <= sp[k].1 <= len
}

/// The output line of one tuple: two spaces, then the span's text verbatim.
pub open spec fn tuple_line(rem: Seq<char>, sp: (int, int)) -> Seq<char> {
    seq![' ', ' '] + rem.subrange(sp.0, sp.1)
}

/// The output of a statement: the prefix, one line per span, then `;`.
pub open spec fn statement_lines(prefix: Seq<char>, rem: Seq<char>, spans: Seq<(int, int)>) -> Seq<
    Seq<char>,
> {
    seq![prefix] + spans.map_values(|sp: (int, int)| tuple_line(rem, sp)) + seq![seq![';']]
}

/// The output of a line whose prefix shape has a table name of `n`
/// characters: the remainder starts after the space that follows `VALUES`.
pub open spec fn split_statement(line: Seq<char>, n: int) -> Seq<Seq<char>> {
    let rem = line.subrange(prefix_end(n) + 1, line.len() as int);
    statement_lines(line.subrange(0, prefix_end(n)), rem, scan(rem))
}

/// The layout of a split statement with k tuples: k + 2 lines, the prefix
/// first and `;` last; each tuple line is two spaces and then the tuple from
/// its `(`; every tuple line but the last ends with the tuple's comma, and
/// the last one either ends with its comma or stands just before the `;`
/// that closed the list, and then has no trailing comma.
pub proof fn lemma_split_layout(line: Seq<char>, n: int)
    requires
        prefix_shape(line, n),
    ensures
        ({
            let rem = line.subrange(prefix_end(n) + 1, line.len() as int);
            let sp = scan(rem);
            let k = sp.len() as int;
            let out = split_statement(line, n);
            &&& out.len() == k + 2
            &&& out[0] == line.subrange(0, prefix_end(n))
            &&& out[k + 1] == seq![';']
            &&& forall|m: int|
                1 <= m <= k ==> (#[trigger] out[m]) == seq![' ', ' '] + rem.subrange(
                    sp[m - 1].0,
                    sp[m - 1].1,
                ) && out[m].len() >= 3 && out[m][2] == '('
            &&& forall|m: int| 1 <= m < k ==> (#[trigger] out[m]).last() == ','
            &&& k >= 1 ==> (out[k].last() == ',' || (sp[k - 1].1 < rem.len() && rem[sp[k
                - 1].1] == ';' && out[k].last() != ','))
        }),
{
    let rem = line.subrange(prefix_end(n) + 1, line.len() as int);
    let sp = scan(rem);
    let k = sp.len() as int;
    let out = split_statement(line, n);
    lemma_scan_wf(rem);
    assert forall|m: int| 1 <= m <= k implies (#[trigger] out[m]) == seq![' ', ' '] + rem.subrange(
        sp[m - 1].0,
        sp[m - 1].1,
    ) && out[m].len() >= 3 && out[m][2] == '(' by {
        assert(out[m] == tuple_line(rem, sp[m - 1]));
        assert(sp[m - 1].0 < sp[m - 1].1);
    }
    assert forall|m: int| 1 <= m < k implies (#[trigger] out[m]).last() == ',' by {
        assert(out[m] == tuple_line(rem, sp[m - 1]));
        assert(rem[sp[m - 1].1 - 1] == ',');
    }
    if k >= 1 {
        assert(out[k] == tuple_line(rem, sp[k - 1]));
        assert(sp[k - 1].0 < sp[k - 1].1);
    }
}

/// Relies on str::chars, collected: the characters of the string in order.
#[verifier::external_body]
fn chars_of(s: &str) -> (r: Vec<char>)
    ensures
        r@ == s@,
{
    s.chars().collect()
}

/// Relies on collecting chars into a String: the string of those characters.
#[verifier::external_body]
fn string_of(cs: &[char]) -> (r: String)
    ensures
        r@ == cs@,
{
    cs.iter().collect()
}

/// The characters of `cs` in `[from, to)`.
fn copy_range(cs: &[char], from: usize, to: usize) -> (r: Vec<char>)
    requires
        from <= to <= cs@.len(),
    ensures
        r@ == cs@.subrange(from as int, to as int),
{
    let mut r: Vec<char> = Vec::new();
    let mut j: usize = from;
    while j < to
        invariant
            from <= j <= to <= cs@.len(),
            r@ == cs@.subrange(from as int, j as int),
        decreases to - j,
    {
        r.push(cs[j]);
        assert(r@ =~= cs@.subrange(from as int, j + 1));
        j = j + 1;
    }
    r
}

/// The output line of the tuple at `[a, b)` of the remainder.
fn tuple_text(rem: &[char], a: usize, b: usize) -> (r: String)
    requires
        a <= b <= rem@.len(),
    ensures
        r@ == tuple_line(rem@, (a as int, b as int)),
{
    let mut v: Vec<char> = Vec::new();
    v.push(' ');
    v.push(' ');
    let mut j: usize = a;
    while j < b
        invariant
            a <= j <= b <= rem@.len(),
            v@ == seq![' ', ' '] + rem@.subrange(a as int, j as int),
        decreases b - j,
    {
        v.push(rem[j]);
        assert(v@ =~= seq![' ', ' '] + rem@.subrange(a as int, j + 1));
        j = j + 1;
    }
    string_of(&v)
}

/// Writes a statement: the prefix as one line, then each span of the
/// remainder on a line of its own after two spaces, then a line `;`.
pub fn emit_statement(prefix: &[char], rem: &[char], spans: &Vec<(usize, usize)>) -> (r: Vec<String>)
    requires
        spans_within(spans_view(spans@), rem@.len() as int),
    ensures
        lines_view(r@) == statement_lines(prefix@, rem@, spans_view(spans@)),
{
    let mut out: Vec<String> = Vec::new();
    out.push(string_of(prefix));
    let ghost sv = spans_view(spans@);
    let mut k: usize = 0;
    while k < spans.len()
        invariant
            k <= spans@.len(),
            sv == spans_view(spans@),
            spans_within(sv, rem@.len() as int),
            out@.len() == k + 1,
            out@[0]@ == prefix@,
            forall|m: int| 0 <= m < k ==> (#[trigger] out@[m + 1])@ == tuple_line(rem@, sv[m]),
        decreases spans@.len() - k,
    {
        let (a, b) = spans[k];
        assert(sv[k as int] == (a as int, b as int));
        out.push(tuple_text(rem, a, b));
        k = k + 1;
    }
    let mut semi: Vec<char> = Vec::new();
    semi.push(';');
    out.push(string_of(&semi));
    let ghost want = statement_lines(prefix@, rem@, sv);
    assert forall|m: int| 0 <= m < out@.len() implies #[trigger] lines_view(out@)[m] == want[m] by {
        if 0 < m < out@.len() - 1 {
            assert(out@[(m - 1) + 1] == out@[m]);
        }
    }
    assert(lines_view(out@) =~= want);
    out
}

/// Routes one input line: a statement with a splittable prefix is split, one
/// tuple per line; any other line is passed through unchanged, and one that
/// begins with `INSERT INTO ` without such a prefix is marked as an anomaly.
pub fn split_line(matcher: &PrefixMatcher, line: &str) -> (r: SplitLine)
    ensures
        !starts_with_insert(line@) ==> lines_view(r.lines@) == seq![line@] && !r.anomaly,
        starts_with_insert(line@) && (forall|n: int| !#[trigger] prefix_shape(line@, n))
            ==> lines_view(r.lines@) == seq![line@] && r.anomaly,
        forall|n: int| #[trigger]
            prefix_shape(line@, n) ==> lines_view(r.lines@) == split_statement(line@, n)
                && !r.anomaly,
{
    let cs = chars_of(line);
    let mut pass: Vec<String> = Vec::new();
    pass.push(string_of(&cs));
    assert(lines_view(pass@)[0] == pass@[0]@);
    assert(lines_view(pass@) =~= seq![line@]);
    if !has_insert_keyword(&cs) {
        return SplitLine { lines: pass, anomaly: false };
    }
    match matcher.prefix_len(line) {
        None => SplitLine { lines: pass, anomaly: true },
        Some(end) => {
            let ghost n = end - 21;
            assert(prefix_shape(line@, n));
            let head = copy_range(&cs, 0, end);
            let rem = copy_range(&cs, end + 1, cs.len());
            let spans = scan_tuples(&rem);
            proof {
                assert forall|k: int| 0 <= k < scan(rem@).len() implies 0 <= #[trigger] scan(
                    rem@,
                )[k].0 <= scan(rem@)[k].1 <= rem@.len() by {}
                assert forall|m: int| #[trigger] prefix_shape(line@, m) implies m == n by {
                    crate::prefix::lemma_prefix_shape_unique(line@, n, m);
                }
            }
            let lines = emit_statement(&head, &rem, &spans);
            SplitLine { lines, anomaly: false }
        },
    }
}

} // verus!
