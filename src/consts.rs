use vstd::prelude::*;

verus! {

/// Length of one analysis window, in samples.
pub const FFT_SIZE: usize = 4096;

/// Advance between two consecutive windows, in samples; also the number of
/// frequency bins kept per window, hence the width of the spectrogram.
pub const OVERLAP: usize = 2048;

/// Side of the square tile in which at most one local maximum is kept.
pub const FOOTPRINT_SIZE: usize = 8;

/// An anchor peak is paired with the peaks that follow it at positions
/// `1 .. FAN_VALUE` after it.
pub const FAN_VALUE: usize = 10;

/// Exclusive lower bound on the time distance of a hashed pair.
pub const MIN_DELTA_TIME: usize = 0;

/// Exclusive upper bound on the time distance of a hashed pair.
pub const MAX_DELTA_TIME: usize = 200;

/// Smallest magnitude (exclusive) that a peak must exceed, as the ordered
/// bit pattern of the single-precision value 0.1.
pub const MIN_AMP: u32 = 1036831949;

} // verus!
