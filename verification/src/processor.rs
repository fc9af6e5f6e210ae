//! The column extractor: boundary planning, per-line extraction, and
//! per-chunk transformation, each proved against the model in
//! [`crate::model`].

use vstd::prelude::*;

use crate::model::{
    chunk_cnt, chunk_lines, chunk_out, filter_drops, first_idx, fixed_line_fn, fixed_row_out,
    lemma_lines_snoc, lemma_sel_body_empty, lemma_split_len, line_boundary, lines_cnt, lines_out,
    max_sel, sel_body, sel_line_fn, sel_row_out, split_bytes, valid_bounds, COMMA, NL,
};
use crate::scan::{bytes_eq, find_byte, max_index, push_bytes, split_slice};

verus! {

/// A configured extractor; the delimiter byte separates the input's fields.
pub struct CsvProcessor {
    pub delimiter: u8,
}

impl CsvProcessor {
    /// A processor splitting fields on `delimiter` (truncated to one byte).
    pub fn new(delimiter: char) -> (r: Self)
        ensures
            r.delimiter == delimiter as u8,
    {
        CsvProcessor { delimiter: delimiter as u8 }
    }

    /// One past the next line terminator at or after `pos`, or the input
    /// length if no terminator follows.
    pub fn find_line_boundary(&self, data: &[u8], pos: usize) -> (r: usize)
        requires
            pos <= data@.len(),
        ensures
            pos <= r <= data@.len(),
            r == data@.len() || (r >= 1 && data@[r - 1] == NL),
            pos < data@.len() ==> r > pos,
            r == line_boundary(data@, pos as int),
    {
        let j = find_byte(data, pos, NL);
        if j < data.len() {
            j + 1
        } else {
            j
        }
    }

    /// Plans the chunk boundaries for `data` at the given parallelism:
    /// strictly increasing offsets from `0` to the input length, each internal
    /// one placed right after a line terminator so that no chunk splits a
    /// line.  Empty input still yields the single empty chunk.
    pub fn plan_chunks(&self, data: &[u8], parallelism: usize) -> (b: Vec<usize>)
        requires
            parallelism >= 1,
        ensures
            valid_bounds(b@, data@),
            data@.len() > 0 ==> forall|i: int| 0 <= i < b@.len() - 1 ==> #[trigger] b@[i] < b@[i
                + 1],
            forall|i: int|
                0 <= i < b@.len() - 1 ==> #[trigger] b@[i + 1] == data@.len() || b@[i + 1] > b@[i]
                    + data@.len() as int / parallelism as int,
    {
        let chunk_size = data.len() / parallelism;
        let mut bounds: Vec<usize> = Vec::new();
        bounds.push(0);
        let mut pos: usize = 0;
        while pos < data.len()
            invariant
                bounds@.len() >= 1,
                bounds@[0] == 0,
                bounds@.last() == pos,
                pos <= data@.len(),
                forall|i: int| 0 <= i < bounds@.len() ==> #[trigger] bounds@[i] <= pos,
                forall|i: int|
                    1 <= i < bounds@.len() ==> #[trigger] bounds@[i] >= 1 && (bounds@[i]
                        == data@.len() || data@[bounds@[i] - 1] == NL),
                forall|i: int| 0 <= i < bounds@.len() - 1 ==> #[trigger] bounds@[i] < bounds@[i
                    + 1],
                chunk_size == data@.len() as int / parallelism as int,
                forall|i: int|
                    0 <= i < bounds@.len() - 1 ==> #[trigger] bounds@[i + 1] == data@.len()
                        || bounds@[i + 1] > bounds@[i] + chunk_size,
            decreases data@.len() - pos,
        {
            let end = if chunk_size >= data.len() - pos {
                data.len()
            } else {
                pos + chunk_size
            };
            let boundary = self.find_line_boundary(data, end);
            bounds.push(boundary);
            pos = boundary;
        }
        if data.len() == 0 {
            bounds.push(0);
        }
        proof {
            assert(bounds@.last() == data@.len());
            assert(bounds@.len() >= 2);
            assert forall|i: int|
                1 <= i < bounds@.len() - 1 implies #[trigger] bounds@[i] >= 1 && bounds@[i]
                < data@.len() && data@[bounds@[i] - 1] == NL by {
                if data@.len() > 0 {
                    assert(bounds@[i] < bounds@[i + 1]);
                    assert(bounds@[i + 1] <= data@.len());
                }
            }
        }
        bounds
    }

    /// The two fixed columns of one row: fields 1 and 2, present only when
    /// the row has at least three fields.
    pub fn extract_columns<'a>(&self, line: &'a [u8]) -> (r: Option<(&'a [u8], &'a [u8])>)
        ensures
            ({
                let flds = split_bytes(line@, self.delimiter);
                match r {
                    Some(p) => flds.len() >= 3 && p.0@ == flds[1] && p.1@ == flds[2],
                    None => flds.len() < 3,
                }
            }),
    {
        let fields = split_slice(line, self.delimiter);
        if fields.len() < 3 {
            None
        } else {
            Some((fields[1], fields[2]))
        }
    }

    /// Serializes one row under the selector and optional equality filter:
    /// `None` exactly when the row is dropped (too few columns, filter hit,
    /// or nothing selected), `Some` of the serialized selected fields
    /// otherwise.
    pub fn extract_and_filter(
        &self,
        line: &[u8],
        fields_to_extract: &[usize],
        filter_equal: Option<(usize, usize)>,
    ) -> (r: Option<Vec<u8>>)
        ensures
            ({
                let row = sel_row_out(line@, fields_to_extract@, filter_equal, self.delimiter);
                match r {
                    Some(v) => v@.len() > 0 && row == v@ + seq![NL],
                    None => row == Seq::<u8>::empty(),
                }
            }),
    {
        let ghost flds = split_bytes(line@, self.delimiter);
        let fields = split_slice(line, self.delimiter);
        let maxi = max_index(fields_to_extract);
        if fields.len() <= maxi {
            return None;
        }
        if let Some((c1, c2)) = filter_equal {
            if c1 < fields.len() && c2 < fields.len() {
                if bytes_eq(fields[c1], fields[c2]) {
                    proof {
                        assert(filter_drops(flds, filter_equal));
                    }
                    return None;
                }
            }
        }
        proof {
            assert(!filter_drops(flds, filter_equal));
        }
        let mut result: Vec<u8> = Vec::new();
        let mut i: usize = 0;
        while i < fields_to_extract.len()
            invariant
                i <= fields_to_extract@.len(),
                flds == split_bytes(line@, self.delimiter),
                fields@.len() == flds.len(),
                forall|k: int| 0 <= k < fields@.len() ==> #[trigger] fields@[k]@ == flds[k],
                result@ == sel_body(flds, fields_to_extract@.take(i as int)),
            decreases fields_to_extract@.len() - i,
        {
            proof {
                assert(fields_to_extract@.take(i + 1).drop_last() =~= fields_to_extract@.take(
                    i as int,
                ));
                assert(fields_to_extract@.take(i + 1).last() == fields_to_extract@[i as int]);
            }
            let idx = fields_to_extract[i];
            if idx < fields.len() {
                let fld = fields[idx];
                if fld.len() > 0 {
                    if i > 0 {
                        result.push(COMMA);
                        push_bytes(&mut result, fld);
                        proof {
                            assert(result@ =~= sel_body(flds, fields_to_extract@.take(i as int))
                                + (seq![COMMA] + flds[idx as int]));
                        }
                    } else {
                        push_bytes(&mut result, fld);
                        proof {
                            assert(result@ =~= sel_body(flds, fields_to_extract@.take(i as int))
                                + flds[idx as int]);
                        }
                    }
                } else {
                    proof {
                        assert(result@ =~= sel_body(flds, fields_to_extract@.take(i as int))
                            + Seq::<u8>::empty());
                    }
                }
            } else {
                proof {
                    assert(result@ =~= sel_body(flds, fields_to_extract@.take(i as int))
                        + Seq::<u8>::empty());
                }
            }
            i += 1;
        }
        proof {
            assert(fields_to_extract@.take(fields_to_extract@.len() as int)
                =~= fields_to_extract@);
        }
        if result.len() == 0 {
            None
        } else {
            proof {
                if line@.len() == 0 {
                    assert(first_idx(line@, self.delimiter) == 0);
                    assert(flds == seq![line@]);
                    lemma_sel_body_empty(flds, fields_to_extract@);
                }
                assert(sel_row_out(line@, fields_to_extract@, filter_equal, self.delimiter)
                    == sel_body(flds, fields_to_extract@) + seq![NL]);
            }
            Some(result)
        }
    }

    /// Transforms one chunk under the selector and filter rules, returning
    /// its output bytes and its emitted row count.
    pub fn transform_chunk_selected(
        &self,
        chunk: &[u8],
        is_first: bool,
        fields_to_extract: &[usize],
        filter_equal: Option<(usize, usize)>,
    ) -> (res: (Vec<u8>, usize))
        ensures
            res.0@ == chunk_out(
                chunk@,
                is_first,
                sel_line_fn(fields_to_extract@, filter_equal, self.delimiter),
            ),
            res.1 == chunk_cnt(
                chunk@,
                is_first,
                sel_line_fn(fields_to_extract@, filter_equal, self.delimiter),
            ),
    {
        let ghost f = sel_line_fn(fields_to_extract@, filter_equal, self.delimiter);
        let ghost all = split_bytes(chunk@, NL);
        let ghost target = chunk_lines(chunk@, is_first);
        let lines = split_slice(chunk, NL);
        proof {
            lemma_split_len(chunk@, NL);
        }
        let start: usize = if is_first {
            1
        } else {
            0
        };
        let mut out: Vec<u8> = Vec::new();
        let mut cnt: usize = 0;
        let mut k: usize = start;
        while k < lines.len()
            invariant
                start <= k,
                k <= lines@.len() || k == start,
                start == (if is_first {
                    1int
                } else {
                    0int
                }),
                all == split_bytes(chunk@, NL),
                all.len() >= 1,
                lines@.len() == all.len(),
                forall|t: int| 0 <= t < lines@.len() ==> #[trigger] lines@[t]@ == all[t],
                target == chunk_lines(chunk@, is_first),
                target == (if is_first {
                    all.drop_first()
                } else {
                    all
                }),
                f == sel_line_fn(fields_to_extract@, filter_equal, self.delimiter),
                out@ == lines_out(target.take(k - start), f),
                cnt == lines_cnt(target.take(k - start), f),
                cnt <= k,
            decreases lines@.len() - k,
        {
            let line = lines[k];
            proof {
                assert(target.take(k - start + 1).drop_last() =~~= target.take(k - start));
                assert(target.take(k - start + 1).last() == target[k - start]);
                assert(target[k - start] == all[k as int]);
                assert(lines@[k as int]@ == target[k - start]);
                lemma_lines_snoc(target.take(k - start), target[k - start], f);
                assert(target.take(k - start).push(target[k - start]) =~~= target.take(k - start
                    + 1));
                assert(f(target[k - start]) == sel_row_out(
                    line@,
                    fields_to_extract@,
                    filter_equal,
                    self.delimiter,
                ));
            }
            if line.len() > 0 {
                match self.extract_and_filter(line, fields_to_extract, filter_equal) {
                    Some(v) => {
                        push_bytes(&mut out, v.as_slice());
                        out.push(NL);
                        cnt = cnt + 1;
                        proof {
                            assert(out@ =~= lines_out(target.take(k - start), f) + (v@ + seq![NL]));
                        }
                    },
                    None => {
                        proof {
                            assert(out@ =~= lines_out(target.take(k - start), f)
                                + Seq::<u8>::empty());
                        }
                    },
                }
            } else {
                proof {
                    assert(f(target[k - start]) == Seq::<u8>::empty());
                    assert(out@ =~= lines_out(target.take(k - start), f) + Seq::<u8>::empty());
                }
            }
            k += 1;
        }
        proof {
            assert(target.take(lines@.len() - start) =~~= target);
        }
        (out, cnt)
    }

    /// Transforms one chunk under the fixed rule (fields 1 and 2 of every row
    /// with at least three fields), returning its output bytes and its
    /// emitted row count.
    pub fn transform_chunk_fixed(&self, chunk: &[u8], is_first: bool) -> (res: (Vec<u8>, usize))
        ensures
            res.0@ == chunk_out(chunk@, is_first, fixed_line_fn(self.delimiter)),
            res.1 == chunk_cnt(chunk@, is_first, fixed_line_fn(self.delimiter)),
    {
        let ghost f = fixed_line_fn(self.delimiter);
        let ghost all = split_bytes(chunk@, NL);
        let ghost target = chunk_lines(chunk@, is_first);
        let lines = split_slice(chunk, NL);
        proof {
            lemma_split_len(chunk@, NL);
        }
        let start: usize = if is_first {
            1
        } else {
            0
        };
        let mut out: Vec<u8> = Vec::new();
        let mut cnt: usize = 0;
        let mut k: usize = start;
        while k < lines.len()
            invariant
                start <= k,
                k <= lines@.len() || k == start,
                start == (if is_first {
                    1int
                } else {
                    0int
                }),
                all == split_bytes(chunk@, NL),
                all.len() >= 1,
                lines@.len() == all.len(),
                forall|t: int| 0 <= t < lines@.len() ==> #[trigger] lines@[t]@ == all[t],
                target == chunk_lines(chunk@, is_first),
                target == (if is_first {
                    all.drop_first()
                } else {
                    all
                }),
                f == fixed_line_fn(self.delimiter),
                out@ == lines_out(target.take(k - start), f),
                cnt == lines_cnt(target.take(k - start), f),
                cnt <= k,
            decreases lines@.len() - k,
        {
            let line = lines[k];
            proof {
                assert(target.take(k - start + 1).drop_last() =~~= target.take(k - start));
                assert(target.take(k - start + 1).last() == target[k - start]);
                assert(target[k - start] == all[k as int]);
                assert(lines@[k as int]@ == target[k - start]);
                lemma_lines_snoc(target.take(k - start), target[k - start], f);
                assert(target.take(k - start).push(target[k - start]) =~~= target.take(k - start
                    + 1));
                assert(f(target[k - start]) == fixed_row_out(line@, self.delimiter));
            }
            if line.len() > 0 {
                match self.extract_columns(line) {
                    Some(p) => {
                        push_bytes(&mut out, p.0);
                        out.push(COMMA);
                        push_bytes(&mut out, p.1);
                        out.push(NL);
                        cnt = cnt + 1;
                        proof {
                            let flds = split_bytes(line@, self.delimiter);
                            assert(fixed_row_out(line@, self.delimiter) == flds[1] + seq![COMMA]
                                + flds[2] + seq![NL]);
                            assert(out@ =~= lines_out(target.take(k - start), f) + (flds[1]
                                + seq![COMMA] + flds[2] + seq![NL]));
                        }
                    },
                    None => {
                        proof {
                            assert(out@ =~= lines_out(target.take(k - start), f)
                                + Seq::<u8>::empty());
                        }
                    },
                }
            } else {
                proof {
                    assert(f(target[k - start]) == Seq::<u8>::empty());
                    assert(out@ =~= lines_out(target.take(k - start), f) + Seq::<u8>::empty());
                }
            }
            k += 1;
        }
        proof {
            assert(target.take(lines@.len() - start) =~~= target);
        }
        (out, cnt)
    }

    /// The fixed-rule transform of one chunk, output bytes only.
    pub fn process_chunk(&self, chunk: &[u8], is_first: bool) -> (out: Vec<u8>)
        ensures
            out@ == chunk_out(chunk@, is_first, fixed_line_fn(self.delimiter)),
    {
        self.transform_chunk_fixed(chunk, is_first).0
    }

    /// The selector-and-filter transform of one chunk, output bytes only.
    pub fn process_chunk_with_filter(
        &self,
        chunk: &[u8],
        is_first: bool,
        fields_to_extract: &[usize],
        filter_equal: Option<(usize, usize)>,
    ) -> (out: Vec<u8>)
        ensures
            out@ == chunk_out(
                chunk@,
                is_first,
                sel_line_fn(fields_to_extract@, filter_equal, self.delimiter),
            ),
    {
        self.transform_chunk_selected(chunk, is_first, fields_to_extract, filter_equal).0
    }
}

} // verus!
