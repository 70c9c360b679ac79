//! Sum of a sequence split into contiguous chunks, one per worker, with the
//! partial sums combined in ascending chunk order.
//!
//! `chunks` decides how a sequence of a given length is split for a requested
//! worker count; `reduce` sums chunks and combines the partial results.

pub mod chunks;
pub mod reduce;

pub use chunks::{chunk_range, chunk_size, effective_workers, plan_chunks};
pub use reduce::{chunk_sum, combine_partials, sum_integers};
