//! Rolling audio capture window, spectrum band selection and linear resampling.
//!
//! The library is generic over the sample type: every index, length and ordering
//! decision is made here, and the one arithmetic step on sample values, the
//! interpolation between two neighbours, is handed in by the caller.

pub mod resample;
pub mod store;
pub mod spectrum;
