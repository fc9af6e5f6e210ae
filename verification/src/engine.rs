//! The pipeline: plan chunk boundaries, run the per-chunk transform over all
//! chunks in parallel, and reassemble the outputs in chunk order.  The
//! parallel dispatch itself is the only part taken on trust; everything it
//! runs, and the assembly of what it returns, is verified, and the assembled
//! result is proved equal to a sequential scan of the whole input.

use std::sync::atomic::{AtomicUsize, Ordering};

use rayon::prelude::{IndexedParallelIterator, IntoParallelIterator, ParallelIterator};

use vstd::prelude::*;
use vstd::slice::slice_subrange;

use crate::equiv::{
    chunks_cnt_from, chunks_out_from, lemma_chunk_cnt_le, lemma_chunked_equals_sequential,
    skips_empty,
};
use crate::model::{
    chunk_cnt, chunk_out, fixed_count, fixed_line_fn, fixed_output, fixed_row_out,
    lemma_bounds_chain, sel_line_fn, sel_row_out, selected_count, selected_output, valid_bounds,
};
use crate::processor::CsvProcessor;
use crate::scan::push_bytes;

verus! {

/// Transforms chunk `i` of `data` under the selector and filter rules and
/// adds its row count to the shared progress counter (the counter is an
/// advisory side channel; nothing is claimed about it).
fn run_selected_chunk(
    proc: &CsvProcessor,
    data: &[u8],
    bounds: &Vec<usize>,
    i: usize,
    fields_to_extract: &[usize],
    filter_equal: Option<(usize, usize)>,
    progress_counter: &AtomicUsize,
) -> (res: (Vec<u8>, usize))
    requires
        valid_bounds(bounds@, data@),
        i + 1 < bounds@.len(),
    ensures
        res.0@ == chunk_out(
            data@.subrange(bounds@[i as int] as int, bounds@[i as int + 1] as int),
            i == 0,
            sel_line_fn(fields_to_extract@, filter_equal, proc.delimiter),
        ),
        res.1 == chunk_cnt(
            data@.subrange(bounds@[i as int] as int, bounds@[i as int + 1] as int),
            i == 0,
            sel_line_fn(fields_to_extract@, filter_equal, proc.delimiter),
        ),
{
    proof {
        lemma_bounds_chain(bounds@, data@, i as int, i as int + 1);
        lemma_bounds_chain(bounds@, data@, i as int + 1, bounds@.len() - 1);
    }
    let _n = bounds.len();
    let chunk = slice_subrange(data, bounds[i], bounds[i + 1]);
    let res = proc.transform_chunk_selected(chunk, i == 0, fields_to_extract, filter_equal);
    progress_counter.fetch_add(res.1, Ordering::Relaxed);
    res
}

/// Transforms chunk `i` of `data` under the fixed rule.
fn run_fixed_chunk(proc: &CsvProcessor, data: &[u8], bounds: &Vec<usize>, i: usize) -> (res: (
    Vec<u8>,
    usize,
))
    requires
        valid_bounds(bounds@, data@),
        i + 1 < bounds@.len(),
    ensures
        res.0@ == chunk_out(
            data@.subrange(bounds@[i as int] as int, bounds@[i as int + 1] as int),
            i == 0,
            fixed_line_fn(proc.delimiter),
        ),
        res.1 == chunk_cnt(
            data@.subrange(bounds@[i as int] as int, bounds@[i as int + 1] as int),
            i == 0,
            fixed_line_fn(proc.delimiter),
        ),
{
    proof {
        lemma_bounds_chain(bounds@, data@, i as int, i as int + 1);
        lemma_bounds_chain(bounds@, data@, i as int + 1, bounds@.len() - 1);
    }
    let _n = bounds.len();
    let chunk = slice_subrange(data, bounds[i], bounds[i + 1]);
    proc.transform_chunk_fixed(chunk, i == 0)
}

/// Relies on rayon's `current_num_threads`: the size of the current thread
/// pool, used only as a hint for how many chunks to plan.  Callers clamp it
/// to at least one; nothing is assumed about its value.
#[verifier::external_body]
fn current_thread_count() -> usize {
    rayon::current_num_threads()
}

/// Relies on rayon's indexed parallel iterator: `into_par_iter().map(op)
/// .collect()` over the chunk indices runs `op` once per index and collects
/// the results in index order, so slot `i` of the result is `op(i)`, whose
/// contract is `run_selected_chunk`'s.
#[verifier::external_body]
fn par_run_selected(
    proc: &CsvProcessor,
    data: &[u8],
    bounds: &Vec<usize>,
    fields_to_extract: &[usize],
    filter_equal: Option<(usize, usize)>,
    progress_counter: &AtomicUsize,
) -> (r: Vec<(Vec<u8>, usize)>)
    requires
        valid_bounds(bounds@, data@),
    ensures
        r@.len() == bounds@.len() - 1,
        forall|i: int|
            0 <= i < r@.len() ==> #[trigger] r@[i].0@ == chunk_out(
                data@.subrange(bounds@[i] as int, bounds@[i + 1] as int),
                i == 0,
                sel_line_fn(fields_to_extract@, filter_equal, proc.delimiter),
            ) && r@[i].1 == chunk_cnt(
                data@.subrange(bounds@[i] as int, bounds@[i + 1] as int),
                i == 0,
                sel_line_fn(fields_to_extract@, filter_equal, proc.delimiter),
            ),
{
    (0..bounds.len() - 1)
        .into_par_iter()
        .map(
            |i| run_selected_chunk(
                proc,
                data,
                bounds,
                i,
                fields_to_extract,
                filter_equal,
                progress_counter,
            ),
        )
        .collect()
}

/// Relies on rayon's indexed parallel iterator, as `par_run_selected` does:
/// slot `i` of the collected result is the fixed-rule transform of chunk `i`,
/// whose contract is `run_fixed_chunk`'s.
#[verifier::external_body]
fn par_run_fixed(proc: &CsvProcessor, data: &[u8], bounds: &Vec<usize>) -> (r: Vec<(Vec<u8>, usize)>)
    requires
        valid_bounds(bounds@, data@),
    ensures
        r@.len() == bounds@.len() - 1,
        forall|i: int|
            0 <= i < r@.len() ==> #[trigger] r@[i].0@ == chunk_out(
                data@.subrange(bounds@[i] as int, bounds@[i + 1] as int),
                i == 0,
                fixed_line_fn(proc.delimiter),
            ) && r@[i].1 == chunk_cnt(
                data@.subrange(bounds@[i] as int, bounds@[i + 1] as int),
                i == 0,
                fixed_line_fn(proc.delimiter),
            ),
{
    (0..bounds.len() - 1)
        .into_par_iter()
        .map(|i| run_fixed_chunk(proc, data, bounds, i))
        .collect()
}

/// Writes the per-chunk outputs in chunk-index order, skipping empty
/// buffers, and sums the per-chunk row counts.
fn assemble(
    data: &[u8],
    bounds: &Vec<usize>,
    results: &Vec<(Vec<u8>, usize)>,
    Ghost(f): Ghost<spec_fn(Seq<u8>) -> Seq<u8>>,
) -> (res: (Vec<u8>, usize))
    requires
        valid_bounds(bounds@, data@),
        skips_empty(f),
        results@.len() == bounds@.len() - 1,
        forall|i: int|
            0 <= i < results@.len() ==> #[trigger] results@[i].0@ == chunk_out(
                data@.subrange(bounds@[i] as int, bounds@[i + 1] as int),
                i == 0,
                f,
            ) && results@[i].1 == chunk_cnt(
                data@.subrange(bounds@[i] as int, bounds@[i + 1] as int),
                i == 0,
                f,
            ),
    ensures
        res.0@ == chunks_out_from(data@, bounds@, 0, f),
        res.1 == chunks_cnt_from(data@, bounds@, 0, f),
{
    let mut out: Vec<u8> = Vec::new();
    let mut total: usize = 0;
    let mut i: usize = 0;
    proof {
        assert(Seq::<u8>::empty() + chunks_out_from(data@, bounds@, 0, f) =~= chunks_out_from(
            data@,
            bounds@,
            0,
            f,
        ));
    }
    while i < results.len()
        invariant
            i <= results@.len(),
            results@.len() == bounds@.len() - 1,
            valid_bounds(bounds@, data@),
            skips_empty(f),
            forall|k: int|
                0 <= k < results@.len() ==> #[trigger] results@[k].0@ == chunk_out(
                    data@.subrange(bounds@[k] as int, bounds@[k + 1] as int),
                    k == 0,
                    f,
                ) && results@[k].1 == chunk_cnt(
                    data@.subrange(bounds@[k] as int, bounds@[k + 1] as int),
                    k == 0,
                    f,
                ),
            out@ + chunks_out_from(data@, bounds@, i as int, f) == chunks_out_from(
                data@,
                bounds@,
                0,
                f,
            ),
            total + chunks_cnt_from(data@, bounds@, i as int, f) == chunks_cnt_from(
                data@,
                bounds@,
                0,
                f,
            ),
            total <= bounds@[i as int],
        decreases results@.len() - i,
    {
        let ghost c = data@.subrange(bounds@[i as int] as int, bounds@[i as int + 1] as int);
        proof {
            lemma_bounds_chain(bounds@, data@, i as int, i as int + 1);
            lemma_bounds_chain(bounds@, data@, i as int + 1, bounds@.len() - 1);
            lemma_chunk_cnt_le(c, i == 0, f);
            assert(chunks_out_from(data@, bounds@, i as int, f) == chunk_out(c, i == 0, f)
                + chunks_out_from(data@, bounds@, i as int + 1, f));
            assert(out@ + (chunk_out(c, i == 0, f) + chunks_out_from(data@, bounds@, i as int + 1, f))
                =~= (out@ + chunk_out(c, i == 0, f)) + chunks_out_from(
                data@,
                bounds@,
                i as int + 1,
                f,
            ));
        }
        let piece: &Vec<u8> = &results[i].0;
        if piece.len() > 0 {
            push_bytes(&mut out, piece.as_slice());
        } else {
            proof {
                assert(out@ + piece@ =~= out@);
            }
        }
        total = total + results[i].1;
        i += 1;
    }
    proof {
        assert(out@ + Seq::<u8>::empty() =~= out@);
    }
    (out, total)
}

impl CsvProcessor {
    /// Runs the whole engine on `data` under the selector and optional
    /// equality filter: the result is exactly the sequential transform of the
    /// input (header line dropped, each remaining line split on the
    /// delimiter, short and filtered rows dropped, selected fields joined by
    /// commas), together with the emitted row count.  Per-chunk row counts
    /// are also added to `progress_counter` as chunks finish, for display
    /// only.
    pub fn process_data_with_filter(
        &self,
        data: &[u8],
        fields_to_extract: &[usize],
        filter_equal: Option<(usize, usize)>,
        progress_counter: &AtomicUsize,
    ) -> (res: (Vec<u8>, usize))
        ensures
            res.0@ == selected_output(data@, fields_to_extract@, filter_equal, self.delimiter),
            res.1 == selected_count(data@, fields_to_extract@, filter_equal, self.delimiter),
    {
        let ghost f = sel_line_fn(fields_to_extract@, filter_equal, self.delimiter);
        proof {
            assert forall|l: Seq<u8>| l.len() == 0 implies #[trigger] f(l) == Seq::<u8>::empty() by {
                assert(f(l) == sel_row_out(l, fields_to_extract@, filter_equal, self.delimiter));
            }
        }
        let threads = current_thread_count();
        let parallelism = if threads >= 1 {
            threads
        } else {
            1
        };
        let bounds = self.plan_chunks(data, parallelism);
        let results = par_run_selected(
            self,
            data,
            &bounds,
            fields_to_extract,
            filter_equal,
            progress_counter,
        );
        let res = assemble(data, &bounds, &results, Ghost(f));
        proof {
            lemma_chunked_equals_sequential(data@, bounds@, f);
        }
        res
    }

    /// Runs the whole engine on `data` under the fixed rule (fields 1 and 2
    /// of every row with at least three fields): the result is exactly the
    /// sequential transform of the input, together with the emitted row
    /// count.
    pub fn process_data(&self, data: &[u8]) -> (res: (Vec<u8>, usize))
        ensures
            res.0@ == fixed_output(data@, self.delimiter),
            res.1 == fixed_count(data@, self.delimiter),
    {
        let ghost f = fixed_line_fn(self.delimiter);
        proof {
            assert forall|l: Seq<u8>| l.len() == 0 implies #[trigger] f(l) == Seq::<u8>::empty() by {
                assert(f(l) == fixed_row_out(l, self.delimiter));
            }
        }
        let threads = current_thread_count();
        let parallelism = if threads >= 1 {
            threads
        } else {
            1
        };
        let bounds = self.plan_chunks(data, parallelism);
        let results = par_run_fixed(self, data, &bounds);
        let res = assemble(data, &bounds, &results, Ghost(f));
        proof {
            lemma_chunked_equals_sequential(data@, bounds@, f);
        }
        res
    }
}

} // verus!
