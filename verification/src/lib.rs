//! Deterministic chromatic/spectral core on exact fixed-point arithmetic.
//!
//! Every scalar of the library is a signed Q12.20 fixed-point value: the
//! integer `v` stands for the real number `v / DEFAULT_FIXED_SCALE`. Angles
//! (hues) are stored as fractions of a full turn in the same scale, so the
//! integer range `[0, DEFAULT_FIXED_SCALE)` covers the whole circle. Working
//! in integers keeps every reduction bit-reproducible and lets each operation
//! carry an exact arithmetic contract.

use vstd::prelude::*;

pub mod bridge;
pub mod color;
pub mod dream;
pub mod error;
pub mod half;
pub mod layout;
pub mod quant;
pub mod spectral;
pub mod tensor;
pub mod ums;

verus! {

/// Number of chromatic hue categories supported by the archive.
pub const HUE_CATEGORIES: usize = 12;

/// Unified Modality Space total dimensionality (spectral + chromatic + temporal).
pub const UMS_DIM: usize = 512;

/// Number of slots reserved for spectral information inside the Unified Modality Space.
pub const UMS_SPECTRAL_BANDS: usize = 256;

/// Starting index for chromatic slots within the Unified Modality Space vector.
pub const UMS_CHROMATIC_OFFSET: usize = UMS_SPECTRAL_BANDS;

/// Number of chromatic slots allocated in the Unified Modality Space.
pub const UMS_CHROMATIC_BANDS: usize = 128;

/// Starting index for temporal slots within the Unified Modality Space vector.
pub const UMS_TEMPORAL_OFFSET: usize = UMS_CHROMATIC_OFFSET + UMS_CHROMATIC_BANDS;

/// Number of temporal slots currently reserved within the Unified Modality Space.
pub const UMS_TEMPORAL_BANDS: usize = UMS_DIM - UMS_TEMPORAL_OFFSET;

/// Fixed-point scalar type used across the core.
pub type Qx = i32;

} // verus!
