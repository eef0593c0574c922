//! Estimates of how often a hash was seen.
use count_min_sketch::CountMinSketch8;

use vstd::prelude::*;

use crate::common::count_min::{estimates, sketch_after, sketch_estimate, sketch_increment};
use crate::common::frequency_sketch::{FrequencySketch, SketchState};

verus! {

/// What a sketch has counted.
pub trait SketchModel: Sized {
    /// The estimate for a hash.
    spec fn estimate(self, hash: u64) -> int;

    /// The sketch after a hash was seen once more.
    spec fn counted(self, hash: u64) -> Self;
}

/// A sketch that estimates how often a hash was seen.
pub trait Estimator: Sized {
    type Model: SketchModel;

    /// What the sketch has counted.
    spec fn model(&self) -> Self::Model;

    /// The parts of the sketch agree with each other.
    spec fn in_order(&self) -> bool;

    /// The estimate for a hash.
    fn estimate_of(&self, hash: u64) -> (r: u8)
        requires
            self.in_order(),
        ensures
            r == self.model().estimate(hash),
    ;

    /// Counts a hash once more.
    fn count(&mut self, hash: u64)
        requires
            old(self).in_order(),
        ensures
            final(self).in_order(),
            final(self).model() == old(self).model().counted(hash),
    ;
}

impl SketchModel for SketchState {
    open spec fn estimate(self, hash: u64) -> int {
        self.frequency(hash) as int
    }

    open spec fn counted(self, hash: u64) -> Self {
        self.incremented(hash)
    }
}

impl Estimator for FrequencySketch {
    type Model = SketchState;

    open spec fn model(&self) -> SketchState {
        self@
    }

    open spec fn in_order(&self) -> bool {
        self.wf()
    }

    fn estimate_of(&self, hash: u64) -> (r: u8) {
        self.frequency(hash)
    }

    fn count(&mut self, hash: u64) {
        self.increment(hash);
    }
}

impl SketchModel for CountMinSketch8<u64> {
    open spec fn estimate(self, hash: u64) -> int {
        estimates(self)[hash] as int
    }

    open spec fn counted(self, hash: u64) -> Self {
        sketch_after(self, hash)
    }
}

impl Estimator for CountMinSketch8<u64> {
    type Model = CountMinSketch8<u64>;

    open spec fn model(&self) -> CountMinSketch8<u64> {
        *self
    }

    open spec fn in_order(&self) -> bool {
        true
    }

    fn estimate_of(&self, hash: u64) -> (r: u8) {
        sketch_estimate(self, hash)
    }

    fn count(&mut self, hash: u64) {
        sketch_increment(self, hash);
    }
}

} // verus!
