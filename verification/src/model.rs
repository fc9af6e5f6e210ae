//! Mathematical model of the transform: byte sequences split on a delimiter,
//! per-line output rules, and per-chunk output as a function of the chunk's
//! bytes alone.

use vstd::prelude::*;

verus! {

/// The line-terminator byte (`\n`).
pub const NL: u8 = 10;

/// The output field separator (`,`).
pub const COMMA: u8 = 44;

/// Index of the first occurrence of `d` in `s`, or `s.len()` if `d` does not
/// occur.
pub open spec fn first_idx(s: Seq<u8>, d: u8) -> int
    decreases s.len(),
{
    if s.len() == 0 {
        0
    } else if s[0] == d {
        0
    } else {
        1 + first_idx(s.drop_first(), d)
    }
}

pub proof fn lemma_first_idx(s: Seq<u8>, d: u8)
    ensures
        0 <= first_idx(s, d) <= s.len(),
        first_idx(s, d) < s.len() ==> s[first_idx(s, d)] == d,
        forall|j: int| 0 <= j < first_idx(s, d) ==> s[j] != d,
    decreases s.len(),
{
    if s.len() == 0 {
    } else if s[0] == d {
    } else {
        lemma_first_idx(s.drop_first(), d);
        assert forall|j: int| 0 <= j < first_idx(s, d) implies s[j] != d by {
            if j > 0 {
                assert(s[j] == s.drop_first()[j - 1]);
            }
        }
    }
}

/// `first_idx` is the unique position satisfying its characteristic facts.
pub proof fn lemma_first_idx_is(s: Seq<u8>, d: u8, i: int)
    requires
        0 <= i <= s.len(),
        i < s.len() ==> s[i] == d,
        forall|j: int| 0 <= j < i ==> s[j] != d,
    ensures
        first_idx(s, d) == i,
    decreases s.len(),
{
    if s.len() == 0 {
    } else if s[0] == d {
        assert(i == 0);
    } else {
        assert(i >= 1);
        let t = s.drop_first();
        assert(i - 1 < t.len() ==> t[i - 1] == d);
        assert forall|j: int| 0 <= j < i - 1 implies t[j] != d by {
            assert(t[j] == s[j + 1]);
        }
        lemma_first_idx_is(t, d, i - 1);
    }
}

/// `s` split on `d`: the maximal `d`-free pieces, in order.  The result always
/// has at least one element; splitting an empty sequence yields one empty
/// piece.
pub open spec fn split_bytes(s: Seq<u8>, d: u8) -> Seq<Seq<u8>>
    decreases s.len(),
    via split_bytes_decreases
{
    let i = first_idx(s, d);
    if i == s.len() {
        seq![s]
    } else {
        seq![s.take(i)] + split_bytes(s.skip(i + 1), d)
    }
}

#[via_fn]
proof fn split_bytes_decreases(s: Seq<u8>, d: u8) {
    lemma_first_idx(s, d);
}

pub proof fn lemma_split_len(s: Seq<u8>, d: u8)
    ensures
        split_bytes(s, d).len() >= 1,
    decreases s.len(),
{
    lemma_first_idx(s, d);
}

/// Concatenation of the per-line outputs `f(line)`, in line order.
pub open spec fn lines_out(lines: Seq<Seq<u8>>, f: spec_fn(Seq<u8>) -> Seq<u8>) -> Seq<u8>
    decreases lines.len(),
{
    if lines.len() == 0 {
        Seq::empty()
    } else {
        f(lines.first()) + lines_out(lines.drop_first(), f)
    }
}

/// Number of lines that contribute output under `f`.
pub open spec fn lines_cnt(lines: Seq<Seq<u8>>, f: spec_fn(Seq<u8>) -> Seq<u8>) -> nat
    decreases lines.len(),
{
    if lines.len() == 0 {
        0
    } else {
        (if f(lines.first()).len() > 0 {
            1nat
        } else {
            0nat
        }) + lines_cnt(lines.drop_first(), f)
    }
}

/// `lines_out` and `lines_cnt` distribute over concatenation of line lists.
pub proof fn lemma_lines_concat(a: Seq<Seq<u8>>, b: Seq<Seq<u8>>, f: spec_fn(Seq<u8>) -> Seq<u8>)
    ensures
        lines_out(a + b, f) == lines_out(a, f) + lines_out(b, f),
        lines_cnt(a + b, f) == lines_cnt(a, f) + lines_cnt(b, f),
    decreases a.len(),
{
    if a.len() == 0 {
        assert(a + b =~= b);
        assert(lines_out(a, f) + lines_out(b, f) =~= lines_out(b, f));
    } else {
        assert((a + b).drop_first() =~= a.drop_first() + b);
        assert((a + b).first() == a.first());
        lemma_lines_concat(a.drop_first(), b, f);
        assert(f(a.first()) + (lines_out(a.drop_first(), f) + lines_out(b, f)) =~= (f(a.first())
            + lines_out(a.drop_first(), f)) + lines_out(b, f));
    }
}

/// Appending one line appends its contribution.
pub proof fn lemma_lines_snoc(a: Seq<Seq<u8>>, l: Seq<u8>, f: spec_fn(Seq<u8>) -> Seq<u8>)
    ensures
        lines_out(a.push(l), f) == lines_out(a, f) + f(l),
        lines_cnt(a.push(l), f) == lines_cnt(a, f) + (if f(l).len() > 0 {
            1nat
        } else {
            0nat
        }),
{
    assert(a.push(l) =~= a + seq![l]);
    lemma_lines_concat(a, seq![l], f);
    assert(seq![l].first() == l);
    assert(seq![l].drop_first() =~= Seq::<Seq<u8>>::empty());
    assert(lines_out(Seq::<Seq<u8>>::empty(), f) == Seq::<u8>::empty());
    assert(lines_cnt(Seq::<Seq<u8>>::empty(), f) == 0);
    assert(lines_out(seq![l], f) == f(l) + lines_out(seq![l].drop_first(), f));
    assert(lines_out(seq![l], f) == f(l) + Seq::<u8>::empty());
    assert(f(l) + Seq::<u8>::empty() =~= f(l));
    assert(lines_out(a, f) + (f(l) + Seq::<u8>::empty()) =~= lines_out(a, f) + f(l));
}

/// Largest column index named by the selector; `0` when the selector is
/// empty.
pub open spec fn max_sel(sel: Seq<usize>) -> usize
    decreases sel.len(),
{
    if sel.len() == 0 {
        0
    } else {
        let m = max_sel(sel.drop_last());
        if sel.last() >= m {
            sel.last()
        } else {
            m
        }
    }
}

/// One selected field's contribution to an output row: a leading comma for
/// every selector position after the first, then the field's bytes; nothing
/// when the field is out of range or empty.
pub open spec fn sel_piece(flds: Seq<Seq<u8>>, idx: usize, lead: bool) -> Seq<u8> {
    if idx < flds.len() && flds[idx as int].len() > 0 {
        (if lead {
            seq![COMMA]
        } else {
            Seq::empty()
        }) + flds[idx as int]
    } else {
        Seq::empty()
    }
}

/// The serialized selected fields of one row, in selector order.
pub open spec fn sel_body(flds: Seq<Seq<u8>>, sel: Seq<usize>) -> Seq<u8>
    decreases sel.len(),
{
    if sel.len() == 0 {
        Seq::empty()
    } else {
        sel_body(flds, sel.drop_last()) + sel_piece(flds, sel.last(), sel.len() > 1)
    }
}

/// A row all of whose fields are empty serializes to nothing.
pub proof fn lemma_sel_body_empty(flds: Seq<Seq<u8>>, sel: Seq<usize>)
    requires
        forall|k: int| 0 <= k < flds.len() ==> #[trigger] flds[k].len() == 0,
    ensures
        sel_body(flds, sel).len() == 0,
    decreases sel.len(),
{
    if sel.len() > 0 {
        lemma_sel_body_empty(flds, sel.drop_last());
    }
}

/// Whether the equality filter drops a row with fields `flds`.
pub open spec fn filter_drops(flds: Seq<Seq<u8>>, filt: Option<(usize, usize)>) -> bool {
    match filt {
        Some((c1, c2)) => c1 < flds.len() && c2 < flds.len() && flds[c1 as int] == flds[c2 as int],
        None => false,
    }
}

/// Output bytes (terminator included) contributed by one candidate line under
/// the selector and filter rules; empty when the row is dropped (empty line,
/// too few columns, filtered out, or nothing selected).
pub open spec fn sel_row_out(
    line: Seq<u8>,
    sel: Seq<usize>,
    filt: Option<(usize, usize)>,
    d: u8,
) -> Seq<u8> {
    let flds = split_bytes(line, d);
    if line.len() == 0 {
        Seq::empty()
    } else if flds.len() <= max_sel(sel) {
        Seq::empty()
    } else if filter_drops(flds, filt) {
        Seq::empty()
    } else {
        let body = sel_body(flds, sel);
        if body.len() == 0 {
            Seq::empty()
        } else {
            body + seq![NL]
        }
    }
}

/// Output bytes contributed by one candidate line under the fixed rule of the
/// plain pipeline: emit fields 1 and 2 of every row that has at least three
/// fields.
pub open spec fn fixed_row_out(line: Seq<u8>, d: u8) -> Seq<u8> {
    let flds = split_bytes(line, d);
    if line.len() == 0 {
        Seq::empty()
    } else if flds.len() < 3 {
        Seq::empty()
    } else {
        flds[1] + seq![COMMA] + flds[2] + seq![NL]
    }
}

/// The per-line rule of the configurable pipeline, as a function of the line.
pub open spec fn sel_line_fn(sel: Seq<usize>, filt: Option<(usize, usize)>, d: u8) -> spec_fn(
    Seq<u8>,
) -> Seq<u8> {
    |line: Seq<u8>| sel_row_out(line, sel, filt, d)
}

/// The per-line rule of the plain pipeline.
pub open spec fn fixed_line_fn(d: u8) -> spec_fn(Seq<u8>) -> Seq<u8> {
    |line: Seq<u8>| fixed_row_out(line, d)
}

/// The candidate lines of a chunk: its pieces split on the line terminator,
/// with the first line (the header) removed for the chunk at offset zero.
pub open spec fn chunk_lines(chunk: Seq<u8>, is_first: bool) -> Seq<Seq<u8>> {
    let lines = split_bytes(chunk, NL);
    if is_first {
        lines.drop_first()
    } else {
        lines
    }
}

/// The output bytes of one chunk.
pub open spec fn chunk_out(chunk: Seq<u8>, is_first: bool, f: spec_fn(Seq<u8>) -> Seq<u8>) -> Seq<
    u8,
> {
    lines_out(chunk_lines(chunk, is_first), f)
}

/// The number of rows one chunk emits.
pub open spec fn chunk_cnt(chunk: Seq<u8>, is_first: bool, f: spec_fn(Seq<u8>) -> Seq<u8>) -> nat {
    lines_cnt(chunk_lines(chunk, is_first), f)
}

/// The whole engine's output on `data` under the selector and filter rules:
/// what a sequential scan of the input as one single first chunk produces.
pub open spec fn selected_output(
    data: Seq<u8>,
    sel: Seq<usize>,
    filt: Option<(usize, usize)>,
    d: u8,
) -> Seq<u8> {
    chunk_out(data, true, sel_line_fn(sel, filt, d))
}

/// The whole engine's row count on `data` under the selector and filter rules.
pub open spec fn selected_count(
    data: Seq<u8>,
    sel: Seq<usize>,
    filt: Option<(usize, usize)>,
    d: u8,
) -> nat {
    chunk_cnt(data, true, sel_line_fn(sel, filt, d))
}

/// The whole engine's output on `data` under the fixed rule.
pub open spec fn fixed_output(data: Seq<u8>, d: u8) -> Seq<u8> {
    chunk_out(data, true, fixed_line_fn(d))
}

/// The whole engine's row count on `data` under the fixed rule.
pub open spec fn fixed_count(data: Seq<u8>, d: u8) -> nat {
    chunk_cnt(data, true, fixed_line_fn(d))
}

/// A well-formed chunk boundary list for `data`: starts at zero, ends at the
/// input length, never decreases, and every internal boundary immediately
/// follows a line-terminator byte.
pub open spec fn valid_bounds(b: Seq<usize>, data: Seq<u8>) -> bool {
    &&& b.len() >= 2
    &&& b[0] == 0
    &&& b.last() == data.len()
    &&& forall|i: int| 0 <= i < b.len() - 1 ==> #[trigger] b[i] <= b[i + 1]
    &&& forall|i: int|
        1 <= i < b.len() - 1 ==> #[trigger] b[i] >= 1 && b[i] < data.len() && data[b[i] - 1] == NL
}

/// Boundaries never decrease, so any earlier one is at most any later one.
pub proof fn lemma_bounds_chain(b: Seq<usize>, data: Seq<u8>, i: int, j: int)
    requires
        valid_bounds(b, data),
        0 <= i <= j < b.len(),
    ensures
        b[i] <= b[j],
        b[j] <= data.len(),
    decreases j - i,
{
    if i < j {
        lemma_bounds_chain(b, data, i + 1, j);
    }
    if j == b.len() - 1 {
        assert(b[j] == b.last());
    } else if 1 <= j {
        assert(b[j] < data.len());
    }
}

/// Where the next chunk after position `pos` ends: one past the next line
/// terminator, or the end of the input if none follows.
pub open spec fn line_boundary(data: Seq<u8>, pos: int) -> int {
    let fi = first_idx(data.skip(pos), NL);
    if pos + fi == data.len() {
        data.len() as int
    } else {
        pos + fi + 1
    }
}

} // verus!
