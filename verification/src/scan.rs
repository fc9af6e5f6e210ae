//! Executable byte scanning: finding separators, splitting a slice into its
//! separator-delimited pieces, and small helpers over byte slices.

use vstd::prelude::*;
use vstd::slice::slice_subrange;

use crate::model::{first_idx, lemma_first_idx_is, max_sel, split_bytes};

verus! {

/// First position at or after `from` holding byte `d`, or the slice's length
/// if `d` does not occur there.
pub fn find_byte(data: &[u8], from: usize, d: u8) -> (r: usize)
    requires
        from <= data@.len(),
    ensures
        from <= r <= data@.len(),
        r < data@.len() ==> data@[r as int] == d,
        forall|j: int| from <= j < r ==> data@[j] != d,
        r - from == first_idx(data@.skip(from as int), d),
{
    let mut i: usize = from;
    let mut found: bool = false;
    while !found && i < data.len()
        invariant
            from <= i <= data@.len(),
            forall|j: int| from <= j < i ==> data@[j] != d,
            found ==> i < data@.len() && data@[i as int] == d,
        decreases data@.len() - i + (if found {
            0int
        } else {
            1int
        }),
    {
        if data[i] == d {
            found = true;
        } else {
            i += 1;
        }
    }
    proof {
        let suf = data@.skip(from as int);
        assert forall|j: int| 0 <= j < i - from implies suf[j] != d by {
            assert(suf[j] == data@[from + j]);
        }
        if (i - from) < suf.len() {
            assert(suf[i - from] == data@[i as int]);
        }
        lemma_first_idx_is(suf, d, i - from);
    }
    i
}

/// The pieces of `data` split on `d`, as subslices in order; mirrors
/// `split_bytes` on the slice's bytes.
pub fn split_slice<'a>(data: &'a [u8], d: u8) -> (r: Vec<&'a [u8]>)
    ensures
        r@.len() == split_bytes(data@, d).len(),
        forall|k: int| 0 <= k < r@.len() ==> #[trigger] r@[k]@ == split_bytes(data@, d)[k],
{
    let ghost all = split_bytes(data@, d);
    let mut r: Vec<&[u8]> = Vec::new();
    let ghost mut done: Seq<Seq<u8>> = Seq::empty();
    let mut start: usize = 0;
    let mut finished: bool = false;
    proof {
        assert(data@.skip(0) =~= data@);
        assert(Seq::<Seq<u8>>::empty() + split_bytes(data@, d) =~~= split_bytes(data@, d));
    }
    while !finished
        invariant
            start <= data@.len(),
            r@.len() == done.len(),
            forall|k: int| 0 <= k < done.len() ==> #[trigger] r@[k]@ == done[k],
            !finished ==> done + split_bytes(data@.skip(start as int), d) == all,
            finished ==> done == all,
        decreases data@.len() - start + (if finished {
            0int
        } else {
            1int
        }),
    {
        let j = find_byte(data, start, d);
        let piece = slice_subrange(data, start, j);
        r.push(piece);
        proof {
            let suf = data@.skip(start as int);
            let fi = first_idx(suf, d);
            assert(fi == j - start);
            if j < data@.len() {
                assert(suf.take(fi) =~= piece@);
                assert(suf.skip(fi + 1) =~= data@.skip(j + 1));
                assert(split_bytes(suf, d) == seq![piece@] + split_bytes(data@.skip(j + 1), d));
                assert(done.push(piece@) + split_bytes(data@.skip(j + 1), d) =~~= done + split_bytes(
                    suf,
                    d,
                ));
            } else {
                assert(fi == suf.len());
                assert(suf =~= piece@);
                assert(split_bytes(suf, d) == seq![suf]);
                assert(done.push(piece@) =~~= done + split_bytes(suf, d));
            }
            done = done.push(piece@);
        }
        if j < data.len() {
            start = j + 1;
        } else {
            finished = true;
        }
    }
    r
}

/// Byte-for-byte equality of two slices.
pub fn bytes_eq(a: &[u8], b: &[u8]) -> (r: bool)
    ensures
        r == (a@ == b@),
{
    if a.len() != b.len() {
        return false;
    }
    let mut i: usize = 0;
    while i < a.len()
        invariant
            i <= a@.len(),
            a@.len() == b@.len(),
            forall|j: int| 0 <= j < i ==> a@[j] == b@[j],
        decreases a@.len() - i,
    {
        if a[i] != b[i] {
            return false;
        }
        i += 1;
    }
    proof {
        assert(a@ =~= b@);
    }
    true
}

/// Largest index in the selector, or `0` for an empty selector.
pub fn max_index(sel: &[usize]) -> (m: usize)
    ensures
        m == max_sel(sel@),
{
    let mut m: usize = 0;
    let mut i: usize = 0;
    while i < sel.len()
        invariant
            i <= sel@.len(),
            m == max_sel(sel@.take(i as int)),
        decreases sel@.len() - i,
    {
        proof {
            assert(sel@.take(i + 1).drop_last() =~= sel@.take(i as int));
            assert(sel@.take(i + 1).last() == sel@[i as int]);
        }
        if sel[i] > m {
            m = sel[i];
        }
        i += 1;
    }
    proof {
        assert(sel@.take(sel@.len() as int) =~= sel@);
    }
    m
}

/// Appends the bytes of `piece` to `out`.
pub fn push_bytes(out: &mut Vec<u8>, piece: &[u8])
    ensures
        final(out)@ == old(out)@ + piece@,
{
    let mut i: usize = 0;
    while i < piece.len()
        invariant
            i <= piece@.len(),
            out@ == old(out)@ + piece@.take(i as int),
        decreases piece@.len() - i,
    {
        out.push(piece[i]);
        proof {
            assert(old(out)@ + piece@.take(i + 1) =~= (old(out)@ + piece@.take(i as int)).push(
                piece@[i as int],
            ));
        }
        i += 1;
    }
    proof {
        assert(piece@.take(piece@.len() as int) =~= piece@);
    }
}

} // verus!
