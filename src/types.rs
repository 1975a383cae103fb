//! Identifiers and scalar quantities shared by the sampling engine and the
//! run registry.

use vstd::prelude::*;

verus! {

/// Logical index of an observation within one time series.
#[derive(Debug, Clone, Copy, PartialEq, Eq, Structural, Hash, PartialOrd, Ord)]
pub struct Step(pub i64);

/// Bits of the biased exponent field of an IEEE 754 binary64 value.
pub open spec fn exponent_field(bits: u64) -> u64 {
    (bits >> 52u64) & 0x7ffu64
}

/// Whether a binary64 bit pattern denotes a finite number (not an infinity
/// and not a NaN): its exponent field is not all ones.
pub open spec fn is_finite_bits(bits: u64) -> bool {
    exponent_field(bits) != 0x7ffu64
}

/// Wall-clock time of an observation, in seconds since the epoch.
///
/// Held as the bit pattern of a finite binary64 number, so that it can be
/// carried and compared exactly; the value itself is never computed on here.
#[derive(Debug, Clone, Copy, PartialEq, Eq, Structural, Hash)]
pub struct WallTime {
    bits: u64,
}

impl WallTime {
    /// The bit pattern of this wall time.
    pub closed spec fn spec_bits(&self) -> u64 {
        self.bits
    }

    /// A wall time holds a finite value.
    pub closed spec fn wf(&self) -> bool {
        is_finite_bits(self.bits)
    }

    /// Builds a wall time from the bit pattern of a binary64 number; `None`
    /// when the number is infinite or NaN.
    pub fn from_bits(bits: u64) -> (r: Option<WallTime>)
        ensures
            r.is_some() <==> is_finite_bits(bits),
            r.is_some() ==> r.unwrap().spec_bits() == bits && r.unwrap().wf(),
    {
        if (bits >> 52u64) & 0x7ffu64 != 0x7ffu64 {
            Some(WallTime { bits })
        } else {
            None
        }
    }

    /// The bit pattern of this wall time.
    pub fn to_bits(&self) -> (r: u64)
        ensures
            r == self.spec_bits(),
    {
        self.bits
    }
}

/// Name of a run: a group of time series, such as one training job.
#[derive(Debug, Clone, PartialEq, Eq, Hash)]
pub struct Run(pub String);

/// Name of one time series within a run.
#[derive(Debug, Clone, PartialEq, Eq, Hash)]
pub struct Tag(pub String);

} // verus!
