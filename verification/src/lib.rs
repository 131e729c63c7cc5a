//! A fixed-width bit-packing codec: sequences of small unsigned integers are
//! packed densely into 64-bit words and unpacked back losslessly.
//!
//! The codec has three entry points: `width::select_width` computes the
//! minimum bit width sufficient for a block of values, `codec::pack`
//! serializes a block under a chosen width, and `codec::unpack` reconstructs
//! it exactly. `header::BlockHeader` carries the width and count that the
//! unpack path needs.

pub mod bits;
pub mod codec;
pub mod header;
pub mod width;
