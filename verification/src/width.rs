//! The width selector: the minimum bit width sufficient to represent every
//! value of a block, computed with native integer arithmetic only.

use vstd::prelude::*;

verus! {

use crate::bits::fits_width;
use crate::bits::lemma_fits_width_64;
use crate::bits::lemma_shr_zero_iff_fits;
use vstd::arithmetic::div_mod::lemma_basic_div;
use vstd::arithmetic::power2::pow2;
use vstd::arithmetic::power2::lemma_pow2_pos;
use vstd::bits::lemma_u64_shr_is_div;

/// The number of significant low-order bits of `v`: 0 for 0, and
/// `floor(log2(v)) + 1` otherwise, found by repeated shifting.
pub fn bit_length(v: u64) -> (w: u8)
    ensures
        w <= 64,
        fits_width(v, w as u64),
        w > 0 ==> (v as nat) >= pow2((w - 1) as nat),
{
    let mut w: u8 = 0;
    while w < 64 && (v >> (w as u64)) != 0
        invariant
            w <= 64,
            w > 0 ==> (v as nat) >= pow2((w - 1) as nat),
        decreases 64 - w,
    {
        proof {
            lemma_u64_shr_is_div(v, w as u64);
            lemma_pow2_pos(w as nat);
            if (v as nat) < pow2(w as nat) {
                lemma_basic_div(v as int, pow2(w as nat) as int);
            }
        }
        w += 1;
    }
    proof {
        if w < 64 {
            lemma_shr_zero_iff_fits(v, w as u64);
        } else {
            lemma_fits_width_64(v);
        }
    }
    w
}

/// The minimum width sufficient for a non-empty block: every value fits in
/// the returned width, and unless the width is zero, some value needs all of
/// it. Callers must reject empty blocks themselves.
pub fn select_width(values: &Vec<u64>) -> (w: u8)
    requires
        values@.len() > 0,
    ensures
        w <= 64,
        forall|i: int| 0 <= i < values@.len() ==> fits_width(values@[i], w as u64),
        w > 0 ==> exists|i: int|
            0 <= i < values@.len() && (values@[i] as nat) >= pow2((w - 1) as nat),
{
    let mut max: u64 = values[0];
    let mut i: usize = 1;
    while i < values.len()
        invariant
            1 <= i <= values@.len(),
            forall|j: int| 0 <= j < i ==> values@[j] <= max,
            exists|j: int| 0 <= j < i && values@[j] == max,
        decreases values@.len() - i,
    {
        if values[i] > max {
            max = values[i];
        }
        i += 1;
    }
    let w = bit_length(max);
    proof {
        assert forall|j: int| 0 <= j < values@.len() implies fits_width(
            values@[j],
            w as u64,
        ) by {
            assert(values@[j] <= max);
        }
        if w > 0 {
            let j0 = choose|j: int| 0 <= j < values@.len() && values@[j] == max;
            assert(0 <= j0 < values@.len() && (values@[j0] as nat) >= pow2((w - 1) as nat));
        }
    }
    w
}

} // verus!
