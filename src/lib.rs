//! Numeric helpers for byte-oriented protocols: fixed-width integers to and
//! from their big- and little-endian bytes, and hex text for byte buffers.
pub mod endian;
pub mod serialize;
