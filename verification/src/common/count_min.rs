//! Estimates of how often a key was used: a `count_min_sketch::CountMinSketch8`.
use count_min_sketch::CountMinSketch8;

use vstd::prelude::*;

verus! {

#[verifier::external_type_specification]
#[verifier::external_body]
#[verifier::reject_recursive_types(K)]
pub struct ExCountMinSketch8<K>(CountMinSketch8<K>);

/// The estimate that a sketch has of every key.
pub uninterp spec fn estimates(s: CountMinSketch8<u64>) -> Map<u64, u8>;

/// What `CountMinSketch8::increment` makes of a sketch.
pub uninterp spec fn sketch_after(s: CountMinSketch8<u64>, key: u64) -> CountMinSketch8<u64>;

/// `CountMinSketch8::estimate` tells the estimate of a key.
#[verifier::external_body]
pub(crate) fn sketch_estimate(s: &CountMinSketch8<u64>, key: u64) -> (r: u8)
    ensures
        r == estimates(*s)[key],
{
    s.estimate(&key)
}

/// `CountMinSketch8::increment` raises the estimate of a key by one, unless it is the
/// highest there is. It lowers no estimate, and raises none by more than one.
#[verifier::external_body]
pub(crate) fn sketch_increment(s: &mut CountMinSketch8<u64>, key: u64)
    ensures
        *final(s) == sketch_after(*old(s), key),
        estimates(*final(s))[key] == if estimates(*old(s))[key] < 255 {
            estimates(*old(s))[key] + 1
        } else {
            255
        },
        forall|k: u64|
            estimates(*old(s))[k] <= #[trigger] estimates(*final(s))[k] <= estimates(*old(s))[k] + 1,
{
    s.increment(&key)
}

} // verus!
