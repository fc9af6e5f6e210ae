//! Parallel column extractor for delimiter-separated text.
//!
//! The input is treated as a sequence of lines separated by a line-terminator
//! byte.  The engine partitions the input into line-aligned chunks, transforms
//! every chunk independently (splitting each line into fields, applying an
//! optional equality filter, and re-serializing the selected fields), and
//! concatenates the per-chunk outputs in their original order.  The
//! concatenation is proved byte-for-byte equal to what a single sequential
//! scan of the whole input would produce.

pub mod engine;
pub mod equiv;
pub mod laws;
pub mod model;
pub mod processor;
pub mod scan;
