//! General properties of the engine, stated and proved over the model that
//! the executable functions' contracts speak of.

use vstd::prelude::*;

use crate::model::{
    chunk_lines, filter_drops, first_idx, lemma_first_idx_is, lemma_lines_concat, lemma_lines_snoc,
    lines_cnt, lines_out, max_sel, sel_line_fn, sel_row_out, selected_count, selected_output,
    split_bytes, NL,
};

verus! {

/// No list of candidate lines ever emits more rows than it has lines.
pub proof fn lemma_cnt_at_most_lines(lines: Seq<Seq<u8>>, f: spec_fn(Seq<u8>) -> Seq<u8>)
    ensures
        lines_cnt(lines, f) <= lines.len(),
    decreases lines.len(),
{
    if lines.len() > 0 {
        lemma_cnt_at_most_lines(lines.drop_first(), f);
    }
}

/// The engine's row count never exceeds the input's candidate line count
/// less one for the header; rows dropped by the short-row rule, the filter,
/// or emptiness only lower it further.
pub proof fn lemma_count_at_most_rows(
    data: Seq<u8>,
    sel: Seq<usize>,
    filt: Option<(usize, usize)>,
    d: u8,
)
    ensures
        selected_count(data, sel, filt, d) <= split_bytes(data, NL).len() - 1,
{
    lemma_cnt_at_most_lines(chunk_lines(data, true), sel_line_fn(sel, filt, d));
}

/// The same row-count bound for the fixed-rule pipeline.
pub proof fn lemma_fixed_count_at_most_rows(data: Seq<u8>, d: u8)
    ensures
        crate::model::fixed_count(data, d) <= split_bytes(data, NL).len() - 1,
{
    lemma_cnt_at_most_lines(chunk_lines(data, true), crate::model::fixed_line_fn(d));
}

/// Order preservation: two rows both retained in the output appear there in
/// their input order — the whole output decomposes around their
/// contributions, everything from earlier lines strictly before `f(lines[i])`
/// and everything from later lines strictly after `f(lines[j])`.
pub proof fn lemma_order_preserved(
    lines: Seq<Seq<u8>>,
    f: spec_fn(Seq<u8>) -> Seq<u8>,
    i: int,
    j: int,
)
    requires
        0 <= i < j < lines.len(),
    ensures
        lines_out(lines, f) == lines_out(lines.take(i), f) + f(lines[i]) + lines_out(
            lines.subrange(i + 1, j),
            f,
        ) + f(lines[j]) + lines_out(lines.skip(j + 1), f),
{
    let a = lines.take(i);
    let m = lines.subrange(i + 1, j);
    let e = lines.skip(j + 1);
    let bi = seq![lines[i]];
    let bj = seq![lines[j]];
    assert(lines =~~= a + (bi + (m + (bj + e))));
    lemma_lines_concat(a, bi + (m + (bj + e)), f);
    lemma_lines_concat(bi, m + (bj + e), f);
    lemma_lines_concat(m, bj + e, f);
    lemma_lines_concat(bj, e, f);
    lemma_lines_snoc(Seq::<Seq<u8>>::empty(), lines[i], f);
    lemma_lines_snoc(Seq::<Seq<u8>>::empty(), lines[j], f);
    assert(Seq::<Seq<u8>>::empty().push(lines[i]) =~~= bi);
    assert(Seq::<Seq<u8>>::empty().push(lines[j]) =~~= bj);
    assert(lines_out(bi, f) =~= f(lines[i]));
    assert(lines_out(bj, f) =~= f(lines[j]));
    assert(lines_out(lines, f) =~= lines_out(a, f) + f(lines[i]) + lines_out(m, f) + f(lines[j])
        + lines_out(e, f));
}

/// Filter correctness: a row that reaches the output under an active filter
/// has unequal values in the two filtered columns whenever both exist.
pub proof fn lemma_filter_correct(line: Seq<u8>, sel: Seq<usize>, c1: usize, c2: usize, d: u8)
    requires
        sel_row_out(line, sel, Some((c1, c2)), d).len() > 0,
    ensures
        ({
            let flds = split_bytes(line, d);
            c1 < flds.len() && c2 < flds.len() ==> flds[c1 as int] != flds[c2 as int]
        }),
{
    let flds = split_bytes(line, d);
    if c1 < flds.len() && c2 < flds.len() && flds[c1 as int] == flds[c2 as int] {
        assert(filter_drops(flds, Some((c1, c2))));
    }
}

/// Short-row correctness: a row with no more fields than the largest
/// selector index contributes nothing to the output.
pub proof fn lemma_short_row_dropped(
    line: Seq<u8>,
    sel: Seq<usize>,
    filt: Option<(usize, usize)>,
    d: u8,
)
    requires
        split_bytes(line, d).len() <= max_sel(sel),
    ensures
        sel_row_out(line, sel, filt, d).len() == 0,
{
}

/// Empty input produces empty output and a zero row count.
pub proof fn lemma_empty_input(sel: Seq<usize>, filt: Option<(usize, usize)>, d: u8)
    ensures
        selected_output(Seq::empty(), sel, filt, d) == Seq::<u8>::empty(),
        selected_count(Seq::empty(), sel, filt, d) == 0,
{
    assert(first_idx(Seq::<u8>::empty(), NL) == 0);
    assert(split_bytes(Seq::<u8>::empty(), NL) == seq![Seq::<u8>::empty()]);
    assert(chunk_lines(Seq::empty(), true) =~~= Seq::<Seq<u8>>::empty());
}

/// An input that is nothing but an unterminated header line produces empty
/// output and a zero row count.
pub proof fn lemma_header_only(data: Seq<u8>, sel: Seq<usize>, filt: Option<(usize, usize)>, d: u8)
    requires
        forall|j: int| 0 <= j < data.len() ==> data[j] != NL,
    ensures
        selected_output(data, sel, filt, d) == Seq::<u8>::empty(),
        selected_count(data, sel, filt, d) == 0,
{
    lemma_first_idx_is(data, NL, data.len() as int);
    assert(split_bytes(data, NL) == seq![data]);
    assert(chunk_lines(data, true) =~~= Seq::<Seq<u8>>::empty());
}

/// An input that is one terminated header line produces empty output and a
/// zero row count.
pub proof fn lemma_header_only_terminated(
    data: Seq<u8>,
    sel: Seq<usize>,
    filt: Option<(usize, usize)>,
    d: u8,
)
    requires
        data.len() > 0,
        data.last() == NL,
        forall|j: int| 0 <= j < data.len() - 1 ==> data[j] != NL,
    ensures
        selected_output(data, sel, filt, d) == Seq::<u8>::empty(),
        selected_count(data, sel, filt, d) == 0,
{
    lemma_first_idx_is(data, NL, data.len() - 1);
    let rest = data.skip(data.len() as int);
    assert(rest =~= Seq::<u8>::empty());
    assert(first_idx(rest, NL) == 0);
    assert(split_bytes(rest, NL) == seq![rest]);
    assert(split_bytes(data, NL) == seq![data.take(data.len() - 1)] + seq![rest]);
    assert(chunk_lines(data, true) =~~= seq![Seq::<u8>::empty()]);
    let f = sel_line_fn(sel, filt, d);
    lemma_lines_snoc(Seq::<Seq<u8>>::empty(), Seq::<u8>::empty(), f);
    assert(Seq::<Seq<u8>>::empty().push(Seq::<u8>::empty()) =~~= seq![Seq::<u8>::empty()]);
    assert(f(Seq::<u8>::empty()) == sel_row_out(Seq::<u8>::empty(), sel, filt, d));
    assert(selected_output(data, sel, filt, d) =~= Seq::<u8>::empty());
}

} // verus!
