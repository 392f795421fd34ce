//! Low-level bit and byte serialization engine for a columnar file format.
//!
//! The crate packs typed values into a binary stream at sub-byte
//! granularity and reads them back: bit-packed fields, byte-aligned
//! little-endian fields, and variable-length integer encodings (VLQ and
//! zigzag-VLQ), over growable mutable buffers, shared immutable buffers,
//! and an arena-style memory pool.

pub mod bits;
pub mod errors;
pub mod memory;
pub mod bit_util;
