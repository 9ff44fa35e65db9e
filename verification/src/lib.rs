//! Grouped min/mean/max statistics over a delimited byte stream.
//!
//! The input is a read-only byte region of `<key>;<value>` lines. The region
//! is split into line-aligned chunks, each chunk is parsed and folded into a
//! per-chunk aggregation map, the maps are merged with a commutative,
//! associative combine, and the merged map is rendered as one summary line
//! with keys in ascending byte order.

pub mod aggmap;
pub mod args;
pub mod byteseq;
pub mod chunking;
pub mod decimal;
pub mod format;
pub mod pipeline;
pub mod records;
pub mod stats;

use vstd::prelude::*;

verus! {

/// A failure that aborts the whole run.
///
/// No error is retried or recovered locally: the pipeline is a single-shot
/// batch computation over trusted input, and any inconsistency surfaces as a
/// whole-run failure.
#[derive(Clone, Copy, Debug, PartialEq, Eq, Structural)]
pub enum PipelineError {
    /// A line has no delimiter, an empty key, or a value outside the
    /// fixed-point decimal grammar.
    MalformedRecord,
    /// A chunk-sized candidate range contains no line terminator even though
    /// more data follows it: a single logical line exceeds the chunk target.
    LineTooLong,
}

} // verus!
