//! HiCuts packet classification: a decision tree over rules made of one
//! half-open interval per header field, and its lookup.
use vstd::prelude::*;

pub mod interval;
pub mod rule;
pub mod tree;

verus! {

/// The smallest and largest value of a field's numeric domain.
pub trait MinMax: Sized {
    spec fn spec_min() -> Self;

    spec fn spec_max() -> Self;

    fn min() -> (r: Self)
        ensures
            r == Self::spec_min(),
    ;

    fn max() -> (r: Self)
        ensures
            r == Self::spec_max(),
    ;
}

impl MinMax for u8 {
    open spec fn spec_min() -> u8 {
        0
    }

    open spec fn spec_max() -> u8 {
        u8::MAX
    }

    fn min() -> u8 {
        0
    }

    fn max() -> u8 {
        u8::MAX
    }
}

impl MinMax for u16 {
    open spec fn spec_min() -> u16 {
        0
    }

    open spec fn spec_max() -> u16 {
        u16::MAX
    }

    fn min() -> u16 {
        0
    }

    fn max() -> u16 {
        u16::MAX
    }
}

impl MinMax for u32 {
    open spec fn spec_min() -> u32 {
        0
    }

    open spec fn spec_max() -> u32 {
        u32::MAX
    }

    fn min() -> u32 {
        0
    }

    fn max() -> u32 {
        u32::MAX
    }
}

impl MinMax for u64 {
    open spec fn spec_min() -> u64 {
        0
    }

    open spec fn spec_max() -> u64 {
        u64::MAX
    }

    fn min() -> u64 {
        0
    }

    fn max() -> u64 {
        u64::MAX
    }
}

/// Why a value was refused.
#[derive(Debug, Clone, Copy, PartialEq, Eq, Structural)]
pub enum HiCutsError {
    /// An interval whose `begin` lies after its `end`.
    InvalidInterval,
    /// A rule whose number of intervals differs from the tree's number of fields.
    DimensionMismatch,
}

} // verus!
