//! The packing engine: `pack` serializes a block of values, each fitting in a
//! shared bit width, into the minimum number of 64-bit words; `unpack`
//! reconstructs the block exactly.
//!
//! The contracts are stated over a bit-stream model: value `i` occupies
//! stream positions `[i*w, (i+1)*w)`, and word `j` holds stream positions
//! `[64*j, 64*j + 64)`, low bits first.

use vstd::prelude::*;

verus! {

use crate::bits::bit64;
use crate::bits::fits_width;
use crate::bits::lemma_fits_width_64;
use crate::bits::lemma_fits_high_bits_clear;
use crate::bits::lemma_shr_zero_iff_fits;
use crate::bits::lemma_u64_bits_eq;
use crate::bits::lemma_zero_bits;
use vstd::arithmetic::div_mod::lemma_div_is_ordered;
use vstd::arithmetic::div_mod::lemma_div_pos_is_pos;
use vstd::arithmetic::div_mod::lemma_fundamental_div_mod;
use vstd::arithmetic::div_mod::lemma_fundamental_div_mod_converse;
use vstd::arithmetic::div_mod::lemma_mod_bound;
use vstd::arithmetic::div_mod::lemma_multiply_divide_lt;
use vstd::arithmetic::mul::lemma_mul_inequality;
use vstd::arithmetic::mul::lemma_mul_strict_inequality;
use vstd::pervasive::VecAdditionalExecFns;

/// The ways packing or unpacking rejects its input.
#[derive(Debug, Clone, Copy, PartialEq, Eq, Structural)]
pub enum CodecError {
    /// A value to be packed does not fit in the declared bit width.
    BitWidthOverflow,
    /// The packed buffer's length does not match `ceil(count * width / 64)`.
    MalformedBuffer,
    /// A bit width outside `[0, 64]`.
    InvalidWidth,
}

/// Number of 64-bit words needed to hold `n` values of `w` bits each.
pub open spec fn word_count(n: nat, w: nat) -> nat {
    (n * w + 63) / 64
}

/// Bit `p` of the stream laid down in `words`: word `p / 64`, low bits first.
pub open spec fn stream_bit(words: Seq<u64>, p: int) -> bool
    recommends
        0 <= p < words.len() * 64,
{
    bit64(words[p / 64], (p % 64) as u64)
}

/// Bit `p` of the concatenation of the low `w` bits of each value.
pub open spec fn value_bit(values: Seq<u64>, w: u64, p: int) -> bool
    recommends
        0 < w,
        0 <= p < values.len() * w,
{
    bit64(values[p / (w as int)], (p % (w as int)) as u64)
}

/// Every value of the block fits in `w` bits.
pub open spec fn all_fit(values: Seq<u64>, w: u64) -> bool {
    forall|i: int| 0 <= i < values.len() ==> fits_width(values[i], w)
}

/// `words` is exactly the width-`w` packing of `values`: the right length,
/// every stream bit below `len * w` taken from the values, and every bit
/// above cleared.
pub open spec fn is_packing(values: Seq<u64>, w: u64, words: Seq<u64>) -> bool {
    &&& words.len() == word_count(values.len(), w as nat)
    &&& forall|p: int|
        0 <= p < values.len() * w ==> #[trigger] stream_bit(words, p) == value_bit(values, w, p)
    &&& forall|p: int|
        values.len() * w <= p < words.len() * 64 ==> !(#[trigger] stream_bit(words, p))
}

/// `values` is exactly what width-`w` unpacking of `words` yields for `n`
/// values: each value carries its `w` stream bits and nothing else.
pub open spec fn is_unpacking(words: Seq<u64>, w: u64, n: nat, values: Seq<u64>) -> bool {
    &&& values.len() == n
    &&& forall|i: int, k: u64|
        0 <= i < n && k < 64 ==> #[trigger] bit64(values[i], k) == (k < w && stream_bit(
            words,
            i * w + k,
        ))
}

/// The word count never exceeds the value count, and `n * w` bits always fit
/// in `word_count(n, w)` words.
pub proof fn lemma_word_count_bounds(n: nat, w: nat)
    requires
        w <= 64,
    ensures
        word_count(n, w) <= n,
        n * w <= 64 * word_count(n, w),
{
    lemma_mul_inequality(w as int, 64, n as int);
    lemma_div_is_ordered((n * w + 63) as int, (64 * n + 63) as int, 64);
    lemma_fundamental_div_mod_converse(64 * (n as int) + 63, 64, n as int, 63);
    lemma_fundamental_div_mod((n * w + 63) as int, 64);
    lemma_mod_bound((n * w + 63) as int, 64);
}

/// Decomposing a stream position into its word index and offset.
proof fn lemma_split64(j: int, k: int)
    requires
        0 <= k < 64,
    ensures
        (64 * j + k) / 64 == j,
        (64 * j + k) % 64 == k,
{
    lemma_fundamental_div_mod_converse(64 * j + k, 64, j, k);
}

/// Decomposing a stream position into its value index and bit offset.
proof fn lemma_splitw(i: int, w: int, k: int)
    requires
        0 < w,
        0 <= k < w,
    ensures
        (i * w + k) / w == i,
        (i * w + k) % w == k,
{
    lemma_fundamental_div_mod_converse(i * w + k, w, i, k);
}

/// Every position below `64 * m` lies in a word below `m`.
proof fn lemma_pos_range(p: int, m: int)
    requires
        0 <= p < 64 * m,
    ensures
        0 <= p / 64 < m,
        0 <= p % 64 < 64,
        p == 64 * (p / 64) + p % 64,
{
    lemma_div_pos_is_pos(p, 64);
    lemma_multiply_divide_lt(p, 64, m);
    lemma_mod_bound(p, 64);
    lemma_fundamental_div_mod(p, 64);
}

/// Bits of a word after OR-ing in a left-shifted value.
proof fn lemma_or_shl_bit(x: u64, v: u64, off: u64, k: u64)
    by (bit_vector)
    requires
        off < 64,
        k < 64,
    ensures
        bit64(x | (v << off), k) == (bit64(x, k) || (off <= k && bit64(v, (k - off) as u64))),
{
}

/// Bits of a word after OR-ing in a right-shifted value.
proof fn lemma_or_shr_bit(x: u64, v: u64, sh: u64, k: u64)
    by (bit_vector)
    requires
        0 < sh < 64,
        k < 64,
    ensures
        bit64(x | (v >> sh), k) == (bit64(x, k) || (k + sh < 64 && bit64(v, (k + sh) as u64))),
{
}

/// Bits of a value extracted from a single word: shift down, mask to `w` bits.
proof fn lemma_extract_within(x1: u64, off: u64, w: u64, k: u64)
    by (bit_vector)
    requires
        off < 64,
        0 < w < 64,
        off + w <= 64,
        k < 64,
    ensures
        bit64((x1 >> off) & (((1u64 << w) - 1) as u64), k) == (k < w && bit64(
            x1,
            (off + k) as u64,
        )),
{
}

/// Bits of a value extracted across a word boundary: the high part of `x1`
/// and the low part of `x2`, masked to `w` bits.
proof fn lemma_extract_straddle(x1: u64, x2: u64, off: u64, w: u64, k: u64)
    by (bit_vector)
    requires
        0 < off < 64,
        0 < w < 64,
        off + w > 64,
        k < 64,
    ensures
        bit64(((x1 >> off) | (x2 << ((64 - off) as u64))) & (((1u64 << w) - 1) as u64), k) == (k < w
            && if off + k < 64 {
            bit64(x1, (off + k) as u64)
        } else {
            bit64(x2, (off + k - 64) as u64)
        }),
{
}

/// Number of 64-bit words that `pack` produces for `count` values of
/// `width` bits each: `ceil(count * width / 64)`, recomputed rather than
/// trusted from storage.
pub fn word_count_for(count: usize, width: u8) -> (wc: usize)
    requires
        width <= 64,
    ensures
        wc as nat == word_count(count as nat, width as nat),
        wc <= count,
{
    proof {
        lemma_word_count_bounds(count as nat, width as nat);
        lemma_mul_inequality(width as int, 64, count as int);
    }
    let total: u128 = (count as u128) * (width as u128);
    ((total + 63) / 64) as usize
}

/// Packs `values`, each fitting in `width` bits, into
/// `ceil(len * width / 64)` words, preserving order and exact bit patterns.
///
/// Rejects a width above 64 and, before writing any word, a value that does
/// not fit in `width` bits; it never truncates silently.
pub fn pack(values: &Vec<u64>, width: u8) -> (r: Result<Vec<u64>, CodecError>)
    ensures
        match r {
            Ok(words) => width <= 64 && all_fit(values@, width as u64) && is_packing(
                values@,
                width as u64,
                words@,
            ),
            Err(CodecError::InvalidWidth) => width > 64,
            Err(CodecError::BitWidthOverflow) => width <= 64 && !all_fit(values@, width as u64),
            Err(CodecError::MalformedBuffer) => false,
        },
{
    if width > 64 {
        return Err(CodecError::InvalidWidth);
    }
    let w: u64 = width as u64;
    let n = values.len();
    let mut i: usize = 0;
    while i < n
        invariant
            w == width as u64,
            w <= 64,
            n == values@.len(),
            i <= n,
            forall|j: int| 0 <= j < i ==> fits_width(values@[j], w),
        decreases n - i,
    {
        let v = values[i];
        if width < 64 {
            proof {
                lemma_shr_zero_iff_fits(v, w);
            }
            if (v >> w) != 0 {
                return Err(CodecError::BitWidthOverflow);
            }
        } else {
            proof {
                lemma_fits_width_64(v);
            }
        }
        i += 1;
    }
    let wc = word_count_for(n, width);
    let mut words: Vec<u64> = Vec::new();
    while words.len() < wc
        invariant
            words@.len() <= wc,
            forall|j: int| 0 <= j < words@.len() ==> words@[j] == 0u64,
        decreases wc - words@.len(),
    {
        words.push(0u64);
    }
    if width == 0 {
        proof {
            assert(values@.len() * 0 == 0);
            assert(word_count(n as nat, 0) == 0);
        }
        return Ok(words);
    }
    proof {
        assert forall|p: int| 0 <= p < wc as int * 64 implies !(#[trigger] stream_bit(
            words@,
            p,
        )) by {
            lemma_pos_range(p, wc as int);
            lemma_zero_bits((p % 64) as u64);
        }
    }
    let mut i: usize = 0;
    let mut wi: usize = 0;
    let mut off: u64 = 0;
    while i < n
        invariant
            w == width as u64,
            1 <= w <= 64,
            n == values@.len(),
            all_fit(values@, w),
            words@.len() == wc,
            wc as nat == word_count(n as nat, w as nat),
            wc <= n,
            i <= n,
            off < 64,
            64 * (wi as int) + (off as int) == (i as int) * (w as int),
            forall|p: int|
                0 <= p < (i as int) * (w as int) ==> #[trigger] stream_bit(words@, p) == value_bit(
                    values@,
                    w,
                    p,
                ),
            forall|p: int|
                (i as int) * (w as int) <= p < wc as int * 64 ==> !(#[trigger] stream_bit(
                    words@,
                    p,
                )),
        decreases n - i,
    {
        let ghost iw: int = (i as int) * (w as int);
        proof {
            lemma_word_count_bounds(n as nat, w as nat);
            lemma_mul_strict_inequality(i as int, n as int, w as int);
            lemma_mul_inequality(i as int + 1, n as int, w as int);
            assert((i as int + 1) * (w as int) == (i as int) * (w as int) + w) by (nonlinear_arith);
            assert(iw + w <= (n as int) * (w as int));
            assert(64 * (wi as int) < 64 * (wc as int));
        }
        let v = values[i];
        let ghost ws0 = words@;
        let x = words[wi] | (v << off);
        words.set(wi, x);
        if off + w > 64 {
            proof {
                assert(64 * (wi as int + 1) < 64 * (wc as int));
            }
            let sh = 64 - off;
            let y = words[wi + 1] | (v >> sh);
            words.set(wi + 1, y);
        }
        let ghost ws2 = words@;
        proof {
            let wii = wi as int;
            assert forall|p: int| 0 <= p < iw + w implies #[trigger] stream_bit(ws2, p)
                == value_bit(values@, w, p) by {
                lemma_pos_range(p, wc as int);
                let j = p / 64;
                let k = (p % 64) as u64;
                if p < iw {
                    assert(stream_bit(ws0, p) == value_bit(values@, w, p));
                    if j == wii {
                        assert(64 * wii + k == p);
                        assert(k < off);
                        lemma_or_shl_bit(ws0[wii], v, off, k);
                        assert(ws2[j] == ws0[wii] | (v << off));
                    } else {
                        assert(ws2[j] == ws0[j]);
                    }
                } else {
                    let kk = p - iw;
                    assert(0 <= kk < w);
                    lemma_splitw(i as int, w as int, kk);
                    assert(value_bit(values@, w, p) == bit64(values@[i as int], kk as u64));
                    assert(!stream_bit(ws0, p));
                    if off + kk < 64 {
                        lemma_split64(wii, (off + kk) as int);
                        assert(p == 64 * wii + (off + kk));
                        assert(j == wii && k == (off + kk) as u64);
                        lemma_or_shl_bit(ws0[wii], v, off, k);
                        assert(ws2[j] == ws0[wii] | (v << off));
                        assert(bit64(ws2[j], k) == (bit64(ws0[wii], k) || (off <= k && bit64(
                            v,
                            (k - off) as u64,
                        ))));
                        assert((k - off) as u64 == kk as u64);
                    } else {
                        let m = (off + kk - 64) as u64;
                        lemma_split64(wii + 1, m as int);
                        assert(p == 64 * (wii + 1) + m);
                        assert(j == wii + 1 && k == m);
                        let sh = (64 - off) as u64;
                        lemma_or_shr_bit(ws0[wii + 1], v, sh, m);
                        assert(ws2[j] == ws0[wii + 1] | (v >> sh));
                        assert(m + sh == kk);
                        assert(bit64(ws2[j], m) == (bit64(ws0[wii + 1], m) || (m + sh < 64
                            && bit64(v, (m + sh) as u64))));
                        assert(bit64(v, kk as u64) == bit64(v, (m + sh) as u64));
                    }
                }
            }
            assert forall|p: int| iw + w <= p < wc as int * 64 implies !(#[trigger] stream_bit(
                ws2,
                p,
            )) by {
                lemma_pos_range(p, wc as int);
                let j = p / 64;
                let k = (p % 64) as u64;
                assert(!stream_bit(ws0, p));
                if j == wii {
                    lemma_or_shl_bit(ws0[wii], v, off, k);
                    assert(ws2[j] == ws0[wii] | (v << off));
                    assert(64 * wii + k == p);
                    assert(k >= off + w);
                    if off <= k && w <= (k - off) as u64 {
                        lemma_fits_high_bits_clear(v, w, (k - off) as u64);
                    }
                } else if j == wii + 1 && off + w > 64 {
                    let sh = (64 - off) as u64;
                    lemma_or_shr_bit(ws0[wii + 1], v, sh, k);
                    assert(ws2[j] == ws0[wii + 1] | (v >> sh));
                    assert(64 * (wii + 1) + k == p);
                    assert(k + sh == p - iw);
                    if k + sh < 64 {
                        let ksh = (k + sh) as u64;
                        assert(w <= ksh);
                        lemma_fits_high_bits_clear(v, w, ksh);
                    }
                } else {
                    assert(ws2[j] == ws0[j]);
                }
            }
            assert((i as int + 1) * (w as int) == (i as int) * (w as int) + w) by (nonlinear_arith);
        }
        i += 1;
        off = off + w;
        if off >= 64 {
            off = off - 64;
            wi = wi + 1;
        }
    }
    proof {
        lemma_word_count_bounds(n as nat, w as nat);
    }
    Ok(words)
}

/// Reconstructs the `count` original values from a packed buffer and its
/// width. The mirror of `pack`: value `i` is read back from stream positions
/// `[i*width, (i+1)*width)` and nothing else.
///
/// Rejects a width above 64, and a buffer whose length does not match
/// `ceil(count * width / 64)` before reading any word.
pub fn unpack(words: &Vec<u64>, width: u8, count: usize) -> (r: Result<Vec<u64>, CodecError>)
    ensures
        match r {
            Ok(values) => width <= 64 && words@.len() == word_count(count as nat, width as nat)
                && is_unpacking(words@, width as u64, count as nat, values@),
            Err(CodecError::InvalidWidth) => width > 64,
            Err(CodecError::MalformedBuffer) => width <= 64 && words@.len() != word_count(
                count as nat,
                width as nat,
            ),
            Err(CodecError::BitWidthOverflow) => false,
        },
{
    if width > 64 {
        return Err(CodecError::InvalidWidth);
    }
    let w: u64 = width as u64;
    let n = count;
    let wc = word_count_for(n, width);
    if words.len() != wc {
        return Err(CodecError::MalformedBuffer);
    }
    let mut out: Vec<u64> = Vec::new();
    if width == 0 {
        while out.len() < n
            invariant
                out@.len() <= n,
                forall|j: int| 0 <= j < out@.len() ==> out@[j] == 0u64,
            decreases n - out@.len(),
        {
            out.push(0u64);
        }
        proof {
            assert forall|i: int, k: u64| 0 <= i < n && k < 64 implies #[trigger] bit64(out@[i], k)
                == (k < w && stream_bit(words@, i * w + k)) by {
                lemma_zero_bits(k);
            }
        }
        return Ok(out);
    }
    let mut i: usize = 0;
    let mut wi: usize = 0;
    let mut off: u64 = 0;
    while i < n
        invariant
            w == width as u64,
            1 <= w <= 64,
            n == count,
            words@.len() == wc,
            wc as nat == word_count(n as nat, w as nat),
            wc <= n,
            i <= n,
            off < 64,
            64 * (wi as int) + (off as int) == (i as int) * (w as int),
            out@.len() == i,
            forall|i2: int, k: u64|
                0 <= i2 < i && k < 64 ==> #[trigger] bit64(out@[i2], k) == (k < w && stream_bit(
                    words@,
                    i2 * w + k,
                )),
        decreases n - i,
    {
        let ghost iw: int = (i as int) * (w as int);
        proof {
            lemma_word_count_bounds(n as nat, w as nat);
            lemma_mul_strict_inequality(i as int, n as int, w as int);
            lemma_mul_inequality(i as int + 1, n as int, w as int);
            assert((i as int + 1) * (w as int) == (i as int) * (w as int) + w) by (nonlinear_arith);
            assert(64 * (wi as int) < 64 * (wc as int));
        }
        let x: u64;
        if width == 64 {
            proof {
                assert((i as int) * (w as int) == 64 * (i as int)) by (nonlinear_arith)
                    requires
                        w == 64,
                ;
                assert(off == 0 && wi as int == i as int);
            }
            x = words[wi];
            proof {
                assert forall|k: u64| k < 64 implies #[trigger] bit64(x, k) == (k < w && stream_bit(
                    words@,
                    iw + k,
                )) by {
                    lemma_split64(wi as int, k as int);
                }
            }
        } else if off + w <= 64 {
            let lo = words[wi] >> off;
            proof {
                assert(1u64 << w >= 1) by (bit_vector)
                    requires
                        w < 64,
                ;
            }
            x = lo & ((1u64 << w) - 1);
            proof {
                assert forall|k: u64| k < 64 implies #[trigger] bit64(x, k) == (k < w && stream_bit(
                    words@,
                    iw + k,
                )) by {
                    lemma_extract_within(words@[wi as int], off, w, k);
                    if k < w {
                        lemma_split64(wi as int, (off + k) as int);
                    }
                }
            }
        } else {
            proof {
                assert(64 * (wi as int + 1) < 64 * (wc as int));
            }
            let lo = words[wi] >> off;
            let hi = words[wi + 1] << (64 - off);
            proof {
                assert(1u64 << w >= 1) by (bit_vector)
                    requires
                        w < 64,
                ;
            }
            x = (lo | hi) & ((1u64 << w) - 1);
            proof {
                assert forall|k: u64| k < 64 implies #[trigger] bit64(x, k) == (k < w && stream_bit(
                    words@,
                    iw + k,
                )) by {
                    lemma_extract_straddle(words@[wi as int], words@[wi as int + 1], off, w, k);
                    if k < w {
                        if off + k < 64 {
                            lemma_split64(wi as int, (off + k) as int);
                        } else {
                            lemma_split64(wi as int + 1, (off + k - 64) as int);
                        }
                    }
                }
            }
        }
        out.push(x);
        i += 1;
        off = off + w;
        if off >= 64 {
            off = off - 64;
            wi = wi + 1;
        }
    }
    Ok(out)
}

/// Round trip: width-`w` unpacking of a width-`w` packing of a block whose
/// values all fit in `w` bits is the block itself, for every width in
/// `[0, 64]` and every length.
pub proof fn lemma_round_trip(values: Seq<u64>, w: u64, packed: Seq<u64>, unpacked: Seq<u64>)
    requires
        w <= 64,
        all_fit(values, w),
        is_packing(values, w, packed),
        is_unpacking(packed, w, values.len(), unpacked),
    ensures
        unpacked == values,
{
    assert forall|i: int| 0 <= i < values.len() implies unpacked[i] == values[i] by {
        assert forall|k: u64| k < 64 implies bit64(unpacked[i], k) == bit64(values[i], k) by {
            assert(bit64(unpacked[i], k) == (k < w && stream_bit(packed, i * w + k)));
            if k < w {
                lemma_mul_inequality(i + 1, values.len() as int, w as int);
                assert((i + 1) * (w as int) == i * (w as int) + w) by (nonlinear_arith);
                assert(0 <= i * w + k < values.len() * w);
                assert(stream_bit(packed, i * w + k) == value_bit(values, w, i * w + k));
                lemma_splitw(i, w as int, k as int);
            } else {
                lemma_fits_high_bits_clear(values[i], w, k);
            }
        }
        lemma_u64_bits_eq(unpacked[i], values[i]);
    }
    assert(unpacked =~= values);
}

/// Zero-width degeneracy: a width-0 packing holds no words at all, and
/// width-0 unpacking of the empty buffer yields nothing but zeros.
pub proof fn lemma_zero_width(values: Seq<u64>, packed: Seq<u64>, n: nat, unpacked: Seq<u64>)
    requires
        is_packing(values, 0, packed),
        is_unpacking(Seq::<u64>::empty(), 0, n, unpacked),
    ensures
        packed.len() == 0,
        unpacked =~= Seq::new(n, |i: int| 0u64),
{
    assert(values.len() * 0 == 0);
    assert forall|i: int| 0 <= i < n implies unpacked[i] == 0u64 by {
        assert forall|k: u64| k < 64 implies bit64(unpacked[i], k) == bit64(0u64, k) by {
            lemma_zero_bits(k);
            assert(bit64(unpacked[i], k) == (k < 0 && stream_bit(Seq::<u64>::empty(), i * 0 + k)));
        }
        lemma_u64_bits_eq(unpacked[i], 0u64);
    }
}

/// Full width is a faithful copy on the pack side: at width 64 the packed
/// words are bit for bit the values themselves.
pub proof fn lemma_full_width_pack_copy(values: Seq<u64>, packed: Seq<u64>)
    requires
        is_packing(values, 64, packed),
    ensures
        packed =~= values,
{
    lemma_fundamental_div_mod_converse(64 * (values.len() as int) + 63, 64, values.len() as int, 63);
    assert(packed.len() == values.len());
    assert forall|j: int| 0 <= j < values.len() implies packed[j] == values[j] by {
        assert forall|k: u64| k < 64 implies bit64(packed[j], k) == bit64(values[j], k) by {
            lemma_split64(j, k as int);
            lemma_splitw(j, 64, k as int);
            assert(0 <= 64 * j + k < values.len() * 64);
            assert(stream_bit(packed, 64 * j + k) == value_bit(values, 64, 64 * j + k));
            assert(j * 64 + k == 64 * j + k);
        }
        lemma_u64_bits_eq(packed[j], values[j]);
    }
}

/// Full width is a faithful copy on the unpack side: at width 64 the
/// unpacked values are bit for bit the buffer's words themselves.
pub proof fn lemma_full_width_unpack_copy(words: Seq<u64>, unpacked: Seq<u64>)
    requires
        is_unpacking(words, 64, words.len(), unpacked),
    ensures
        unpacked =~= words,
{
    assert forall|i: int| 0 <= i < words.len() implies unpacked[i] == words[i] by {
        assert forall|k: u64| k < 64 implies bit64(unpacked[i], k) == bit64(words[i], k) by {
            assert(bit64(unpacked[i], k) == (k < 64 && stream_bit(words, i * 64 + k)));
            lemma_split64(i, k as int);
            assert(i * 64 + k == 64 * i + k);
        }
        lemma_u64_bits_eq(unpacked[i], words[i]);
    }
}

} // verus!
