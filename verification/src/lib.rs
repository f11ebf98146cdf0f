//! Fixed-width multi-digit integers and their byte-level endian codec.
//!
//! Values are arrays of 64-bit digits, least significant digit first.
//! [`BUint`] is the plain magnitude; [`BInt`] reinterprets the same bit
//! pattern as a two's-complement signed integer.  The codec converts
//! between these values and big-, little-, and native-endian byte
//! sequences, including the variable-length slice decode with implicit
//! sign extension and overflow detection.

pub mod repr;
pub mod buint;
pub mod bint;
pub mod slice;
pub mod laws;
pub mod helpers;
pub mod bytesholder;
