use vstd::prelude::*;

use super::{fold_chunked, Processor, CHUNK_PARTS};
use crate::results::Results;
use crate::Error;

verus! {

/// The memory-mapped parallel strategy: the caller maps the corpus file
/// read-only and hands the mapped bytes in as a borrowed view, so the raw
/// content needs no heap copy.  The split/fold/reduce algorithm is the
/// same as for the owned buffer; nothing here assumes the view is valid
/// text, and a malformed or non-UTF-8 region surfaces as a parse error.
pub struct RayonMmapString;

impl Processor for RayonMmapString {
    fn process(&self, data: &[u8]) -> (r: Result<Results, Error>) {
        fold_chunked(data, CHUNK_PARTS)
    }
}

} // verus!
