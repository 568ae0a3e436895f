use vstd::prelude::*;

use super::{fold_chunked, Processor, CHUNK_PARTS};
use crate::results::Results;
use crate::Error;

verus! {

/// The fully-buffered parallel strategy: the caller reads the whole
/// corpus into one owned buffer, the buffer is split into line-aligned
/// chunks, each chunk folds into its own partial map, and the partial
/// maps are reduced with the merge algebra.  The surrounding binary may
/// run the chunk folds on a work-stealing pool; the reduction order does
/// not matter, because the merge is associative and commutative.
pub struct RayonString;

impl Processor for RayonString {
    fn process(&self, data: &[u8]) -> (r: Result<Results, Error>) {
        fold_chunked(data, CHUNK_PARTS)
    }
}

} // verus!
