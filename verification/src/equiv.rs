//! Proof that processing line-aligned chunks independently and concatenating
//! their outputs in order yields exactly the output of one sequential scan of
//! the whole input.

use vstd::prelude::*;

use crate::model::{
    chunk_cnt, chunk_lines, chunk_out, first_idx, lemma_bounds_chain, lemma_first_idx,
    lemma_first_idx_is, lemma_lines_concat, lemma_lines_snoc, lemma_split_len, lines_cnt,
    lines_out, split_bytes, valid_bounds, NL,
};

verus! {

/// A per-line rule that ignores empty candidate lines, as both engine rules
/// do.  The equivalence of chunked and sequential processing holds for any
/// such rule.
pub open spec fn skips_empty(f: spec_fn(Seq<u8>) -> Seq<u8>) -> bool {
    forall|l: Seq<u8>| l.len() == 0 ==> #[trigger] f(l) == Seq::<u8>::empty()
}

/// A sequence ending with the separator splits into pieces whose last one is
/// empty.
pub proof fn lemma_split_ends_with(s: Seq<u8>, d: u8)
    requires
        s.len() > 0,
        s.last() == d,
    ensures
        split_bytes(s, d).len() >= 2,
        split_bytes(s, d).last() == Seq::<u8>::empty(),
    decreases s.len(),
{
    lemma_first_idx(s, d);
    let fi = first_idx(s, d);
    assert(fi < s.len()) by {
        if fi == s.len() {
            assert(s[s.len() - 1] != d);
        }
    }
    let rest = s.skip(fi + 1);
    lemma_split_len(rest, d);
    if rest.len() == 0 {
        assert(rest =~= Seq::<u8>::empty());
        assert(first_idx(rest, d) == 0);
        assert(split_bytes(rest, d) == seq![rest]);
        assert(split_bytes(s, d).last() == rest);
    } else {
        assert(rest.last() == s.last());
        lemma_split_ends_with(rest, d);
        assert(split_bytes(s, d).last() == split_bytes(rest, d).last());
    }
}

/// The first separator of a concatenation lies in the first part if that part
/// contains one at all.
pub proof fn lemma_first_idx_concat(a: Seq<u8>, b: Seq<u8>, d: u8)
    requires
        first_idx(a, d) < a.len(),
    ensures
        first_idx(a + b, d) == first_idx(a, d),
{
    lemma_first_idx(a, d);
    let i = first_idx(a, d);
    assert((a + b)[i] == a[i]);
    assert forall|j: int| 0 <= j < i implies (a + b)[j] != d by {
        assert((a + b)[j] == a[j]);
    }
    lemma_first_idx_is(a + b, d, i);
}

/// Splitting a concatenation whose first part ends with the separator:
/// the pieces are those of the first part (save its trailing empty piece)
/// followed by those of the second part.  This is why a chunk boundary placed
/// right after a line terminator never splits a line.
pub proof fn lemma_split_concat(a: Seq<u8>, b: Seq<u8>, d: u8)
    requires
        a.len() > 0,
        a.last() == d,
    ensures
        split_bytes(a + b, d) == split_bytes(a, d).drop_last() + split_bytes(b, d),
    decreases a.len(),
{
    lemma_first_idx(a, d);
    let fi = first_idx(a, d);
    assert(fi < a.len()) by {
        if fi == a.len() {
            assert(a[a.len() - 1] != d);
        }
    }
    lemma_first_idx_concat(a, b, d);
    assert((a + b).take(fi) =~= a.take(fi));
    let rest = a.skip(fi + 1);
    assert((a + b).skip(fi + 1) =~= rest + b);
    if rest.len() == 0 {
        assert(rest =~= Seq::<u8>::empty());
        assert(first_idx(rest, d) == 0);
        assert(split_bytes(rest, d) == seq![rest]);
        assert(rest + b =~= b);
        assert(split_bytes(a, d).drop_last() =~~= seq![a.take(fi)]);
        assert(split_bytes(a + b, d) =~~= split_bytes(a, d).drop_last() + split_bytes(b, d));
    } else {
        assert(rest.last() == a.last());
        lemma_split_concat(rest, b, d);
        lemma_split_ends_with(rest, d);
        assert(split_bytes(a, d).drop_last() =~~= seq![a.take(fi)] + split_bytes(
            rest,
            d,
        ).drop_last());
        assert(split_bytes(a + b, d) =~~= (seq![a.take(fi)] + split_bytes(rest, d).drop_last())
            + split_bytes(b, d));
        assert((seq![a.take(fi)] + split_bytes(rest, d).drop_last()) + split_bytes(b, d)
            =~~= split_bytes(a, d).drop_last() + split_bytes(b, d));
    }
}

/// Concatenated outputs of the chunks of `data` delimited by `b`, from chunk
/// `k` on; chunk `0` is the one that drops the header line.
pub open spec fn chunks_out_from(
    data: Seq<u8>,
    b: Seq<usize>,
    k: int,
    f: spec_fn(Seq<u8>) -> Seq<u8>,
) -> Seq<u8>
    decreases b.len() - k,
{
    if k < 0 || k >= b.len() - 1 {
        Seq::empty()
    } else {
        chunk_out(data.subrange(b[k] as int, b[k + 1] as int), k == 0, f) + chunks_out_from(
            data,
            b,
            k + 1,
            f,
        )
    }
}

/// Summed row counts of the chunks of `data` delimited by `b`, from chunk `k`
/// on.
pub open spec fn chunks_cnt_from(
    data: Seq<u8>,
    b: Seq<usize>,
    k: int,
    f: spec_fn(Seq<u8>) -> Seq<u8>,
) -> nat
    decreases b.len() - k,
{
    if k < 0 || k >= b.len() - 1 {
        0
    } else {
        chunk_cnt(data.subrange(b[k] as int, b[k + 1] as int), k == 0, f) + chunks_cnt_from(
            data,
            b,
            k + 1,
            f,
        )
    }
}

/// The chunks from index `k >= 1` on produce together exactly what one
/// non-first chunk holding the whole remainder of the input would produce.
proof fn lemma_tail_equiv(data: Seq<u8>, b: Seq<usize>, k: int, f: spec_fn(Seq<u8>) -> Seq<u8>)
    requires
        valid_bounds(b, data),
        skips_empty(f),
        1 <= k <= b.len() - 1,
    ensures
        chunks_out_from(data, b, k, f) == lines_out(
            split_bytes(data.subrange(b[k] as int, data.len() as int), NL),
            f,
        ),
        chunks_cnt_from(data, b, k, f) == lines_cnt(
            split_bytes(data.subrange(b[k] as int, data.len() as int), NL),
            f,
        ),
    decreases b.len() - k,
{
    lemma_bounds_chain(b, data, k, b.len() - 1);
    if k == b.len() - 1 {
        assert(b[k] == b.last());
        let s = data.subrange(b[k] as int, data.len() as int);
        assert(s =~= Seq::<u8>::empty());
        assert(first_idx(s, NL) == 0);
        assert(split_bytes(s, NL) == seq![s]);
        lemma_lines_snoc(Seq::<Seq<u8>>::empty(), s, f);
        assert(Seq::<Seq<u8>>::empty().push(s) =~~= seq![s]);
        assert(lines_out(seq![s], f) =~= Seq::<u8>::empty());
    } else {
        lemma_bounds_chain(b, data, k, k + 1);
        lemma_bounds_chain(b, data, k + 1, b.len() - 1);
        lemma_tail_equiv(data, b, k + 1, f);
        let c = data.subrange(b[k] as int, b[k + 1] as int);
        let s = data.subrange(b[k] as int, data.len() as int);
        let rest = data.subrange(b[k + 1] as int, data.len() as int);
        assert(chunk_lines(c, false) == split_bytes(c, NL));
        if b[k] == b[k + 1] {
            assert(c =~= Seq::<u8>::empty());
            assert(first_idx(c, NL) == 0);
            assert(split_bytes(c, NL) == seq![c]);
            lemma_lines_snoc(Seq::<Seq<u8>>::empty(), c, f);
            assert(Seq::<Seq<u8>>::empty().push(c) =~~= seq![c]);
            assert(chunk_out(c, false, f) =~= Seq::<u8>::empty());
            assert(chunk_cnt(c, false, f) == 0);
            assert(s =~= rest);
            assert(chunks_out_from(data, b, k, f) =~= chunks_out_from(data, b, k + 1, f));
        } else {
            assert(b[k] < b[k + 1]);
            if k + 1 == b.len() - 1 {
                assert(b[k + 1] == b.last());
                assert(s =~= c);
                assert(rest =~= Seq::<u8>::empty());
                assert(first_idx(rest, NL) == 0);
                assert(split_bytes(rest, NL) == seq![rest]);
                lemma_lines_snoc(Seq::<Seq<u8>>::empty(), rest, f);
                assert(Seq::<Seq<u8>>::empty().push(rest) =~~= seq![rest]);
                assert(chunks_out_from(data, b, k + 1, f) =~= Seq::<u8>::empty());
                assert(chunk_out(s, false, f) + Seq::<u8>::empty() =~= chunk_out(s, false, f));
            } else {
                assert(1 <= k + 1 < b.len() - 1);
                assert(b[k + 1] >= 1 && b[k + 1] < data.len() && data[b[k + 1] - 1] == NL);
                assert(c.len() > 0);
                assert(c.last() == data[b[k + 1] - 1]);
                assert(s =~= c + rest);
                lemma_split_concat(c, rest, NL);
                lemma_split_ends_with(c, NL);
                lemma_lines_concat(split_bytes(c, NL).drop_last(), split_bytes(rest, NL), f);
                lemma_lines_snoc(split_bytes(c, NL).drop_last(), Seq::<u8>::empty(), f);
                assert(split_bytes(c, NL).drop_last().push(split_bytes(c, NL).last())
                    =~~= split_bytes(c, NL));
                assert(lines_out(split_bytes(c, NL), f) == lines_out(
                    split_bytes(c, NL).drop_last(),
                    f,
                ));
                assert(lines_cnt(split_bytes(c, NL), f) == lines_cnt(
                    split_bytes(c, NL).drop_last(),
                    f,
                ));
            }
        }
    }
}

/// The central guarantee of the engine: the concatenation of all per-chunk
/// outputs, in chunk order, is byte-for-byte the output of one sequential
/// scan of the whole input, and the summed per-chunk row counts are the
/// sequential row count.  It holds for any per-line rule that ignores empty
/// lines, because valid chunk boundaries never split a line.
pub proof fn lemma_chunked_equals_sequential(
    data: Seq<u8>,
    b: Seq<usize>,
    f: spec_fn(Seq<u8>) -> Seq<u8>,
)
    requires
        valid_bounds(b, data),
        skips_empty(f),
    ensures
        chunks_out_from(data, b, 0, f) == chunk_out(data, true, f),
        chunks_cnt_from(data, b, 0, f) == chunk_cnt(data, true, f),
{
    lemma_tail_equiv(data, b, 1, f);
    let c0 = data.subrange(b[0] as int, b[1] as int);
    let rest = data.subrange(b[1] as int, data.len() as int);
    lemma_split_len(c0, NL);
    lemma_split_len(data, NL);
    if b.len() == 2 {
        assert(b[1] == b.last());
        assert(c0 =~= data);
        assert(rest =~= Seq::<u8>::empty());
        assert(first_idx(rest, NL) == 0);
        assert(split_bytes(rest, NL) == seq![rest]);
        lemma_lines_snoc(Seq::<Seq<u8>>::empty(), rest, f);
        assert(Seq::<Seq<u8>>::empty().push(rest) =~~= seq![rest]);
        assert(chunks_out_from(data, b, 1, f) =~= Seq::<u8>::empty());
        assert(chunk_out(c0, true, f) + Seq::<u8>::empty() =~= chunk_out(c0, true, f));
    } else {
        assert(1 <= 1 < b.len() - 1);
        assert(b[1] >= 1 && b[1] < data.len() && data[b[1] - 1] == NL);
        assert(c0.len() > 0);
        assert(c0.last() == data[b[1] - 1]);
        assert(data =~= c0 + rest);
        lemma_split_concat(c0, rest, NL);
        lemma_split_ends_with(c0, NL);
        let sc = split_bytes(c0, NL);
        let sr = split_bytes(rest, NL);
        // split(data) = sc.drop_last() + sr, and sc.drop_last() is nonempty,
        // so dropping the header line drops it from sc's part.
        assert(split_bytes(data, NL).drop_first() =~~= sc.drop_last().drop_first() + sr);
        assert(sc.drop_last().drop_first() =~~= sc.drop_first().drop_last());
        lemma_lines_concat(sc.drop_first().drop_last(), sr, f);
        // the trailing empty piece of the first chunk contributes nothing
        lemma_lines_snoc(sc.drop_first().drop_last(), Seq::<u8>::empty(), f);
        assert(sc.drop_first().drop_last().push(sc.last()) =~~= sc.drop_first());
        assert(lines_out(sc.drop_first(), f) == lines_out(sc.drop_first().drop_last(), f));
        assert(lines_cnt(sc.drop_first(), f) == lines_cnt(sc.drop_first().drop_last(), f));
        assert(chunk_lines(data, true) == split_bytes(data, NL).drop_first());
        assert(chunk_lines(c0, true) == sc.drop_first());
        assert(chunk_lines(rest, false) == sr);
    }
}

/// Every emitted row comes from a distinct nonempty line, so a chunk can
/// never emit more rows than it has bytes.
pub proof fn lemma_cnt_le_len(c: Seq<u8>, f: spec_fn(Seq<u8>) -> Seq<u8>)
    requires
        skips_empty(f),
    ensures
        lines_cnt(split_bytes(c, NL), f) <= c.len(),
    decreases c.len(),
{
    lemma_first_idx(c, NL);
    let fi = first_idx(c, NL);
    if fi == c.len() {
        lemma_lines_snoc(Seq::<Seq<u8>>::empty(), c, f);
        assert(Seq::<Seq<u8>>::empty().push(c) =~~= seq![c]);
        if c.len() == 0 {
            assert(f(c).len() == 0);
        }
    } else {
        let rest = c.skip(fi + 1);
        lemma_cnt_le_len(rest, f);
        lemma_lines_concat(seq![c.take(fi)], split_bytes(rest, NL), f);
        lemma_lines_snoc(Seq::<Seq<u8>>::empty(), c.take(fi), f);
        assert(Seq::<Seq<u8>>::empty().push(c.take(fi)) =~~= seq![c.take(fi)]);
        if fi == 0 {
            assert(c.take(fi).len() == 0);
            assert(f(c.take(fi)).len() == 0);
        }
    }
}

/// The same bound for a whole chunk, header dropped or not.
pub proof fn lemma_chunk_cnt_le(c: Seq<u8>, is_first: bool, f: spec_fn(Seq<u8>) -> Seq<u8>)
    requires
        skips_empty(f),
    ensures
        chunk_cnt(c, is_first, f) <= c.len(),
{
    lemma_cnt_le_len(c, f);
    let lines = split_bytes(c, NL);
    lemma_split_len(c, NL);
    if is_first {
        lemma_lines_concat(seq![lines.first()], lines.drop_first(), f);
        assert(seq![lines.first()] + lines.drop_first() =~~= lines);
    }
}

} // verus!
