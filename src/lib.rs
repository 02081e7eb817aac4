//! Audio fingerprinting and alignment: peak extraction over a magnitude
//! spectrogram, constellation pair hashing, offset alignment between two
//! fingerprint sets, the windowing schedule of the short-time transform and a
//! bounded store of reference recordings.
use vstd::prelude::*;

pub mod consts;
pub mod error;
pub mod align;
pub mod fingerprint;
pub mod peaks;
pub mod plot;
pub mod stft;
pub mod store;

verus! {

} // verus!
