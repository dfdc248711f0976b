//! The per-stream predictor table.

use vstd::prelude::*;

verus! {

/// Eight predictor pairs of fixed-point linear-prediction coefficients,
/// stored `[c0_1, c0_2, c1_1, c1_2, ..., c7_1, c7_2]`. A stored value `v`
/// stands for the real coefficient `v / 2048`. The pair for the 3-bit
/// predictor index `p` of a frame header is `coefs[2 * p]`, `coefs[2 * p + 1]`.
#[derive(Debug, Clone, Copy, PartialEq, Eq)]
pub struct Coefficients {
    pub coefs: [i16; 16],
}

impl Coefficients {
    /// Wraps a raw 16-entry table.
    pub fn new(coefs: [i16; 16]) -> (r: Self)
        ensures
            r.coefs@ == coefs@,
    {
        Coefficients { coefs }
    }
}

} // verus!
