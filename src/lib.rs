//! Arbitrary-precision unsigned integers stored as little-endian byte chunks,
//! with radix parsing and rendering and chunk-wise addition.

pub mod chunks;
pub mod laws;
pub mod number;
pub mod radix;

pub use number::BigInt;
pub use radix::Base;
