//! Weights of dispatchables: computation time and proof size, with the database weights
//! that a runtime charges per read and per write.
use vstd::prelude::*;

verus! {

/// `a + b`, or `u64::MAX` where the sum does not fit.
pub open spec fn sat_add(a: u64, b: u64) -> u64 {
    if a + b > u64::MAX { u64::MAX } else { (a + b) as u64 }
}

/// `a * b`, or `u64::MAX` where the product does not fit.
pub open spec fn sat_mul(a: u64, b: u64) -> u64 {
    if a * b > u64::MAX { u64::MAX } else { (a * b) as u64 }
}

/// The weight of a computation: its reference time and the size of its proof.
#[derive(Clone, Copy, PartialEq, Eq, Structural, Debug)]
pub struct Weight {
    pub ref_time: u64,
    pub proof_size: u64,
}

impl Weight {
    /// A weight of the given time and proof size.
    pub fn from_parts(ref_time: u64, proof_size: u64) -> (w: Weight)
        ensures
            w.ref_time == ref_time,
            w.proof_size == proof_size,
    {
        Weight { ref_time, proof_size }
    }

    /// The weight of nothing.
    pub fn zero() -> (w: Weight)
        ensures
            w.ref_time == 0,
            w.proof_size == 0,
    {
        Weight { ref_time: 0, proof_size: 0 }
    }

    /// The sum of two weights, each part saturating at `u64::MAX`.
    pub fn saturating_add(self, rhs: Weight) -> (w: Weight)
        ensures
            w.ref_time == sat_add(self.ref_time, rhs.ref_time),
            w.proof_size == sat_add(self.proof_size, rhs.proof_size),
    {
        Weight {
            ref_time: self.ref_time.saturating_add(rhs.ref_time),
            proof_size: self.proof_size.saturating_add(rhs.proof_size),
        }
    }
}

/// The weight of one read and of one write of the runtime's database.
#[derive(Clone, Copy, PartialEq, Eq, Structural, Debug)]
pub struct RuntimeDbWeight {
    pub read: u64,
    pub write: u64,
}

impl RuntimeDbWeight {
    /// The weight of `r` reads.
    pub fn reads(self, r: u64) -> (w: Weight)
        ensures
            w.ref_time == sat_mul(self.read, r),
            w.proof_size == 0,
    {
        let t = match self.read.checked_mul(r) {
            Some(t) => t,
            None => u64::MAX,
        };
        Weight::from_parts(t, 0)
    }

    /// The weight of `w` writes.
    pub fn writes(self, w: u64) -> (res: Weight)
        ensures
            res.ref_time == sat_mul(self.write, w),
            res.proof_size == 0,
    {
        let t = match self.write.checked_mul(w) {
            Some(t) => t,
            None => u64::MAX,
        };
        Weight::from_parts(t, 0)
    }
}

/// The weight of a call that reads once and writes once, measured at `base` time and
/// `proof` bytes.
pub open spec fn one_read_one_write(db: RuntimeDbWeight, base: u64, proof: u64) -> Weight {
    Weight {
        ref_time: sat_add(sat_add(base, db.read), db.write),
        proof_size: proof,
    }
}

/// Weight functions for the asset rate pallet, on a runtime whose database has the
/// weights `db_weight`.
#[derive(Clone, Copy, PartialEq, Eq, Structural, Debug)]
pub struct WeightInfo {
    pub db_weight: RuntimeDbWeight,
}

impl WeightInfo {
    /// Storage: `AssetRate::ConversionRateToNative` (r:1 w:1)
    pub fn create(&self) -> (w: Weight)
        ensures
            w == one_read_one_write(self.db_weight, 10_487_000, 4703),
    {
        Weight::from_parts(10_487_000, 0)
            .saturating_add(Weight::from_parts(0, 4703))
            .saturating_add(self.db_weight.reads(1))
            .saturating_add(self.db_weight.writes(1))
    }

    /// Storage: `AssetRate::ConversionRateToNative` (r:1 w:1)
    pub fn update(&self) -> (w: Weight)
        ensures
            w == one_read_one_write(self.db_weight, 11_249_000, 4703),
    {
        Weight::from_parts(11_249_000, 0)
            .saturating_add(Weight::from_parts(0, 4703))
            .saturating_add(self.db_weight.reads(1))
            .saturating_add(self.db_weight.writes(1))
    }

    /// Storage: `AssetRate::ConversionRateToNative` (r:1 w:1)
    pub fn remove(&self) -> (w: Weight)
        ensures
            w == one_read_one_write(self.db_weight, 11_866_000, 4703),
    {
        Weight::from_parts(11_866_000, 0)
            .saturating_add(Weight::from_parts(0, 4703))
            .saturating_add(self.db_weight.reads(1))
            .saturating_add(self.db_weight.writes(1))
    }
}

} // verus!
