//! Bit-level model of a packed word: what a single bit of a `u64` is, what it
//! means for a value to fit in a given width, and the lemmas that connect
//! shifts, masks and powers of two.

use vstd::prelude::*;

verus! {

use vstd::arithmetic::power2::pow2;
use vstd::arithmetic::power2::lemma2_to64;
use vstd::arithmetic::power2::lemma_pow2_pos;
use vstd::arithmetic::div_mod::lemma_basic_div;
use vstd::arithmetic::div_mod::lemma_small_div_converse;
use vstd::bits::lemma_u64_shr_is_div;

/// Bit `i` of the word `x`; meaningful for `i < 64`.
pub open spec fn bit64(x: u64, i: u64) -> bool
    recommends
        i < 64,
{
    (x >> i) & 1u64 == 1u64
}

/// The value `v` is representable in `w` low-order bits.
pub open spec fn fits_width(v: u64, w: u64) -> bool
    recommends
        w <= 64,
{
    (v as nat) < pow2(w as nat)
}

/// Every `u64` fits in 64 bits.
pub proof fn lemma_fits_width_64(v: u64)
    ensures
        fits_width(v, 64),
{
    lemma2_to64();
}

/// For `w < 64`, the shift `v >> w` is zero exactly when `v` fits in `w` bits.
pub proof fn lemma_shr_zero_iff_fits(v: u64, w: u64)
    requires
        w < 64,
    ensures
        (v >> w == 0) <==> fits_width(v, w),
{
    lemma_u64_shr_is_div(v, w);
    lemma_pow2_pos(w as nat);
    if (v as nat) < pow2(w as nat) {
        lemma_basic_div(v as int, pow2(w as nat) as int);
    } else {
        lemma_small_div_converse(v as int, pow2(w as nat) as int);
    }
}

/// A value that fits in `w` bits has no set bit at position `w` or above.
pub proof fn lemma_fits_high_bits_clear(v: u64, w: u64, i: u64)
    requires
        fits_width(v, w),
        w <= i < 64,
    ensures
        !bit64(v, i),
{
    lemma_shr_zero_iff_fits(v, w);
    assert(v >> w == 0 && w <= i < 64 ==> (v >> i) & 1u64 != 1u64) by (bit_vector);
}

/// The zero word has no set bit.
pub proof fn lemma_zero_bits(i: u64)
    requires
        i < 64,
    ensures
        !bit64(0u64, i),
{
    assert(i < 64 ==> (0u64 >> i) & 1u64 != 1u64) by (bit_vector);
}

/// The low `n` bits of `a` and `b` agree.
spec fn equal_low_bits(a: u64, b: u64, n: u64) -> bool
    recommends
        n <= 63,
{
    a & (((1u64 << n) - 1) as u64) == b & (((1u64 << n) - 1) as u64)
}

proof fn lemma_equal_low_bits_step(a: u64, b: u64, n: u64)
    by (bit_vector)
    requires
        n < 63,
        a & (((1u64 << n) - 1) as u64) == b & (((1u64 << n) - 1) as u64),
        ((a >> n) & 1u64 == 1u64) == ((b >> n) & 1u64 == 1u64),
    ensures
        a & (((1u64 << ((n + 1) as u64)) - 1) as u64) == b & (((1u64 << ((n + 1) as u64))
            - 1) as u64),
{
}

proof fn lemma_equal_low_bits(a: u64, b: u64, n: u64)
    requires
        n <= 63,
        forall|i: u64| i < n ==> (bit64(a, i) == bit64(b, i)),
    ensures
        equal_low_bits(a, b, n),
    decreases n,
{
    if n == 0 {
        assert(a & (((1u64 << 0u64) - 1) as u64) == b & (((1u64 << 0u64) - 1) as u64))
            by (bit_vector);
    } else {
        lemma_equal_low_bits(a, b, (n - 1) as u64);
        assert(bit64(a, (n - 1) as u64) == bit64(b, (n - 1) as u64));
        lemma_equal_low_bits_step(a, b, (n - 1) as u64);
    }
}

/// Two words whose 64 bits all agree are equal.
pub proof fn lemma_u64_bits_eq(a: u64, b: u64)
    requires
        forall|i: u64| i < 64 ==> (bit64(a, i) == bit64(b, i)),
    ensures
        a == b,
{
    lemma_equal_low_bits(a, b, 63);
    assert((((1u64 << 63u64) - 1) as u64) == 0x7fff_ffff_ffff_ffffu64) by (bit_vector);
    assert(bit64(a, 63) == bit64(b, 63));
    assert(a == b) by (bit_vector)
        requires
            a & 0x7fff_ffff_ffff_ffffu64 == b & 0x7fff_ffff_ffff_ffffu64,
            ((a >> 63u64) & 1u64 == 1u64) == ((b >> 63u64) & 1u64 == 1u64),
    ;
}

} // verus!
