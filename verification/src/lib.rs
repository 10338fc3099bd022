//! Verified core of a pitch-shifting audio tool.
//!
//! The library holds the windowed overlap-add time-stretcher and the
//! bookkeeping of the pitch-shift pipeline, stated over fixed-point
//! (16-bit PCM) sample values. Container I/O, the floating-point window
//! table, and the external sample-rate converter live outside the
//! verified boundary.

pub mod api;
pub mod error;
pub mod time_scaler;
pub mod transpose;
pub mod window;
