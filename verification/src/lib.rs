//! GameCube/Wii DSP-ADPCM audio codec.
//!
//! Converts between 16-bit PCM and a 4-bit-per-sample compressed stream and
//! reads/writes the multi-channel interleaved IDSP container that carries the
//! compressed data together with per-channel predictor tables.
#![verifier::loop_isolation(false)]

use vstd::prelude::*;

pub mod coefficients;
pub mod decode;
pub mod encode;
pub mod idsp;
pub mod math;

pub use crate::coefficients::Coefficients;
pub use crate::decode::decode_gc_adpcm;
pub use crate::encode::encode_gc_adpcm;
pub use crate::idsp::{read_idsp_bytes, write_idsp_bytes, IdspContainer};

verus! {

/// Decoded samples per frame, fixed by the wire format.
pub const SAMPLES_PER_FRAME: usize = 14;

/// Nibbles per frame: one header nibble pair plus fourteen data nibbles.
pub const NIBBLES_PER_FRAME: usize = 16;

/// Encoded bytes per frame.
pub const BYTES_PER_FRAME: usize = 8;

} // verus!
