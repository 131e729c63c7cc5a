//! The minimal per-block header: the bit width and the value count, written
//! as five bytes. The packed word count is derived from these on read and
//! never trusted from storage.

use vstd::prelude::*;

verus! {

use crate::codec::CodecError;
use vstd::arithmetic::div_mod::lemma_div_denominator;
use vstd::arithmetic::div_mod::lemma_div_is_ordered;
use vstd::arithmetic::div_mod::lemma_fundamental_div_mod;
use vstd::arithmetic::div_mod::lemma_mod_bound;

/// The metadata a packed block carries: the width every value was packed
/// with, and how many values the block holds.
#[derive(Debug, Clone, Copy, PartialEq, Eq, Structural)]
pub struct BlockHeader {
    /// Bit width, 0 to 64.
    pub bit_width: u8,
    /// Number of values in the block.
    pub count: u32,
}

/// The five header bytes that stand for `h`: byte 0 the width, bytes 1 to 4
/// the count, least significant byte first.
pub open spec fn header_bytes_for(h: BlockHeader, bytes: Seq<u8>) -> bool {
    &&& bytes.len() == 5
    &&& bytes[0] == h.bit_width
    &&& (bytes[1] as int) + 256 * (bytes[2] as int) + 65536 * (bytes[3] as int) + 16777216 * (
    bytes[4] as int) == h.count as int
}

/// Base-256 decomposition of a 32-bit quantity.
proof fn lemma_radix256(c: int)
    requires
        0 <= c < 0x1_0000_0000,
    ensures
        c == c % 256 + 256 * ((c / 256) % 256) + 65536 * ((c / 65536) % 256) + 16777216 * (c
            / 16777216),
        0 <= c / 16777216 < 256,
{
    lemma_fundamental_div_mod(c, 256);
    lemma_fundamental_div_mod(c / 256, 256);
    lemma_fundamental_div_mod(c / 65536, 256);
    lemma_div_denominator(c, 256, 256);
    lemma_div_denominator(c, 65536, 256);
    lemma_mod_bound(c, 256);
    lemma_mod_bound(c / 256, 256);
    lemma_mod_bound(c / 65536, 256);
    lemma_div_is_ordered(0, c, 16777216);
    lemma_div_is_ordered(c, 0xffff_ffff, 16777216);
}

impl BlockHeader {
    /// A header is well formed when its width is at most 64.
    pub open spec fn wf(self) -> bool {
        self.bit_width <= 64
    }

    /// Encodes the header as its five bytes.
    pub fn encode(&self) -> (r: Vec<u8>)
        requires
            self.wf(),
        ensures
            header_bytes_for(*self, r@),
    {
        proof {
            lemma_radix256(self.count as int);
        }
        let c = self.count;
        let mut r: Vec<u8> = Vec::new();
        r.push(self.bit_width);
        r.push((c % 256) as u8);
        r.push(((c / 256) % 256) as u8);
        r.push(((c / 65536) % 256) as u8);
        r.push((c / 16777216) as u8);
        r
    }

    /// Decodes a header from its five bytes, rejecting a byte sequence of
    /// the wrong length and a width above 64.
    pub fn decode(bytes: &Vec<u8>) -> (r: Result<BlockHeader, CodecError>)
        ensures
            match r {
                Ok(h) => h.wf() && header_bytes_for(h, bytes@),
                Err(CodecError::MalformedBuffer) => bytes@.len() != 5,
                Err(CodecError::InvalidWidth) => bytes@.len() == 5 && bytes@[0] > 64,
                Err(CodecError::BitWidthOverflow) => false,
            },
    {
        if bytes.len() != 5 {
            return Err(CodecError::MalformedBuffer);
        }
        let bw = bytes[0];
        if bw > 64 {
            return Err(CodecError::InvalidWidth);
        }
        let count = (bytes[1] as u32) + 256 * (bytes[2] as u32) + 65536 * (bytes[3] as u32)
            + 16777216 * (bytes[4] as u32);
        Ok(BlockHeader { bit_width: bw, count })
    }
}

/// The header bytes determine the header: two well-formed headers with the
/// same byte encoding are equal, so decoding an encoding gives the original
/// header back.
pub proof fn lemma_header_bytes_unique(h1: BlockHeader, h2: BlockHeader, bytes: Seq<u8>)
    requires
        header_bytes_for(h1, bytes),
        header_bytes_for(h2, bytes),
    ensures
        h1 == h2,
{
}

} // verus!
