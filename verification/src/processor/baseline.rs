use vstd::prelude::*;

use super::{fold_range, Processor};
use crate::results::Results;
use crate::Error;

verus! {

/// The sequential scan strategy: one pass, one map, updated in place as
/// each line streams through.  The correctness baseline the parallel
/// strategies are held against.
pub struct Baseline;

impl Processor for Baseline {
    fn process(&self, data: &[u8]) -> (r: Result<Results, Error>) {
        let len = data.len();
        let r = fold_range(data, 0, len);
        proof {
            assert(data@.subrange(0, len as int) =~= data@);
        }
        r
    }
}

} // verus!
