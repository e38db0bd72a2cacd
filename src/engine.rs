//! The recursive nimber arithmetic on 128-bit words.
//!
//! Every function works in the field of a given level `lvl` (values below
//! `2^(2^lvl)`) and recurses on the halves of its operands down to level 0.
use vstd::prelude::*;
use crate::field::{
    bits, comb, fermat_elem, fits, hi, lemma_bits_values, lemma_comb, lemma_fermat_elem_fits,
    lemma_fermat_step, lemma_karatsuba, lemma_mul_fits, lemma_split, lemma_square_split,
    lemma_xor_fits, lo, low_mask, nim_mul, norm, lemma_norm_fits, lemma_norm_nonzero,
    lemma_inverse_step,
};

verus! {

proof fn lemma_shift_table(lvl: u8)
    by (bit_vector)
    requires
        lvl <= 6,
    ensures
        lvl == 0 ==> 1u32 << lvl == 1,
        lvl == 1 ==> 1u32 << lvl == 2,
        lvl == 2 ==> 1u32 << lvl == 4,
        lvl == 3 ==> 1u32 << lvl == 8,
        lvl == 4 ==> 1u32 << lvl == 16,
        lvl == 5 ==> 1u32 << lvl == 32,
        lvl == 6 ==> 1u32 << lvl == 64,
{
}

/// Number of bits in one half of a value of level `lvl + 1`: `2^lvl`.
fn half_width(lvl: u8) -> (s: u32)
    requires
        lvl <= 6,
    ensures
        s as u128 == bits(lvl as nat),
        1 <= s <= 64,
{
    proof {
        lemma_bits_values();
        lemma_shift_table(lvl);
    }
    1u32 << lvl
}

/// The high half of `a` at level `lvl`.
pub fn high_part(a: u128, lvl: u8) -> (r: u128)
    requires
        lvl <= 6,
    ensures
        r == hi(a, lvl as nat),
{
    a >> half_width(lvl)
}

/// The low half of `a` at level `lvl`.
pub fn low_part(a: u128, lvl: u8) -> (r: u128)
    requires
        lvl <= 6,
    ensures
        r == lo(a, lvl as nat),
{
    let s = half_width(lvl);
    assert(1u128 << s >= 1) by (bit_vector)
        requires
            s <= 64,
    ;
    a & ((1u128 << s) - 1)
}

/// The value whose halves at level `lvl` are `high` and `low`.
pub fn combine(high: u128, low: u128, lvl: u8) -> (r: u128)
    requires
        lvl <= 6,
    ensures
        r == comb(high, low, lvl as nat),
{
    (high << half_width(lvl)) | low
}

proof fn lemma_mask_bv(a: u128, mask: u128, s: u128, t: u128)
    by (bit_vector)
    requires
        1 <= s <= 64,
        t == 2 * s,
        mask == ((1u128 << s) - 1) as u128,
    ensures
        (a & mask == a) == (a >> s == 0),
        s <= 32 ==> mask | (mask << s) == ((1u128 << t) - 1) as u128,
        s == 64 ==> mask | (mask << s) == 0xffff_ffff_ffff_ffff_ffff_ffff_ffff_ffffu128,
{
}

proof fn lemma_full_mask_bv(a: u128)
    by (bit_vector)
    ensures
        a & 0xffff_ffff_ffff_ffff_ffff_ffff_ffff_ffffu128 == a,
        ((1u128 << 1u128) - 1) as u128 == 1,
{
}

/// The level of `a`: the smallest `L` with `a < 2^(2^L)`.
///
/// The mask of the low `2^L` bits is widened until it covers `a`, so that no
/// shift ever reaches the word's width.
pub fn level(a: u128) -> (r: u8)
    ensures
        r <= 7,
        fits(a, r as nat),
        r == 0 || !fits(a, (r - 1) as nat),
{
    let mut lvl: u8 = 0;
    let mut mask: u128 = 1;
    proof {
        lemma_bits_values();
        lemma_full_mask_bv(a);
    }
    while a & mask != a
        invariant
            lvl <= 7,
            lvl < 7 ==> mask == low_mask(lvl as nat),
            lvl == 7 ==> mask == 0xffff_ffff_ffff_ffff_ffff_ffff_ffff_ffffu128,
            lvl == 0 || !fits(a, (lvl - 1) as nat),
        decreases 7 - lvl,
    {
        proof {
            lemma_bits_values();
            if lvl == 7 {
                lemma_full_mask_bv(a);
            }
        }
        let s = half_width(lvl);
        proof {
            lemma_mask_bv(a, mask, s as u128, (2 * s) as u128);
        }
        mask = mask | (mask << s);
        lvl = lvl + 1;
    }
    proof {
        if lvl < 7 {
            lemma_bits_values();
            lemma_mask_bv(a, mask, bits(lvl as nat), (2 * bits(lvl as nat)) as u128);
        }
    }
    lvl
}

/// Multiplies `a` by the Fermat element of level `lvl`, `2^(2^lvl - 1)`.
pub fn nimber_mul_fermat(a: u128, lvl: u8) -> (r: u128)
    requires
        lvl <= 7,
        fits(a, lvl as nat),
    ensures
        r == nim_mul(a, fermat_elem(lvl as nat), lvl as nat),
        fits(r, lvl as nat),
    decreases lvl,
{
    proof {
        lemma_fermat_elem_fits(lvl as nat);
        lemma_mul_fits(a, fermat_elem(lvl as nat), lvl as nat);
    }
    if lvl == 0 {
        proof {
            crate::field::lemma_mul_one(a, 0);
        }
        return a;
    }
    let lvl = lvl - 1;
    let ghost m = lvl as nat;
    proof {
        lemma_split(a, m);
        lemma_fermat_step(a, m);
        lemma_xor_fits(lo(a, m), hi(a, m), m);
    }
    let ah = high_part(a, lvl);
    let al = low_part(a, lvl);
    let asum = al ^ ah;
    let ansh = nimber_mul_fermat(asum, lvl);
    let ansl = nimber_mul_fermat(nimber_mul_fermat(ah, lvl), lvl);
    combine(ansh, ansl, lvl)
}

/// The nimber product of `a` and `b` in the field of level `lvl`, with three
/// products at the level below instead of four.
pub fn nimber_mul_nimber(a: u128, b: u128, lvl: u8) -> (r: u128)
    requires
        lvl <= 7,
        fits(a, lvl as nat),
        fits(b, lvl as nat),
    ensures
        r == nim_mul(a, b, lvl as nat),
        fits(r, lvl as nat),
    decreases lvl,
{
    proof {
        lemma_mul_fits(a, b, lvl as nat);
    }
    if lvl == 0 {
        return a & b;
    }
    let lvl = lvl - 1;
    let ghost m = lvl as nat;
    proof {
        lemma_split(a, m);
        lemma_split(b, m);
        lemma_karatsuba(a, b, m);
        lemma_xor_fits(lo(a, m), hi(a, m), m);
        lemma_xor_fits(lo(b, m), hi(b, m), m);
        lemma_mul_fits(hi(a, m), hi(b, m), m);
    }
    let ah = high_part(a, lvl);
    let al = low_part(a, lvl);
    let bh = high_part(b, lvl);
    let bl = low_part(b, lvl);

    let low_mul = nimber_mul_nimber(al, bl, lvl);

    let asum = al ^ ah;
    let bsum = bl ^ bh;

    let ansh = nimber_mul_nimber(asum, bsum, lvl) ^ low_mul;
    let ansl = nimber_mul_fermat(nimber_mul_nimber(ah, bh, lvl), lvl) ^ low_mul;

    combine(ansh, ansl, lvl)
}

/// The square of `a` in the field of level `lvl`: the halves square
/// separately, since the cross terms cancel.
pub fn nimber_square(a: u128, lvl: u8) -> (r: u128)
    requires
        lvl <= 7,
        fits(a, lvl as nat),
    ensures
        r == nim_mul(a, a, lvl as nat),
        fits(r, lvl as nat),
    decreases lvl,
{
    proof {
        lemma_mul_fits(a, a, lvl as nat);
    }
    if lvl == 0 {
        proof {
            crate::field::lemma_xor_facts(a, a, a, 0);
            assert(a & a == a) by (bit_vector);
        }
        return a;
    }
    let lvl = lvl - 1;
    let ghost m = lvl as nat;
    proof {
        lemma_split(a, m);
        lemma_square_split(a, m);
        lemma_mul_fits(hi(a, m), hi(a, m), m);
        lemma_mul_fits(lo(a, m), lo(a, m), m);
    }
    let ah = nimber_square(high_part(a, lvl), lvl);
    let al = nimber_square(low_part(a, lvl), lvl);
    let f = nimber_mul_fermat(ah, lvl);
    proof {
        crate::field::lemma_xor_facts(al, f, 0, 0);
    }
    combine(ah, al ^ f, lvl)
}

/// The square root of `a` in the field of level `lvl`: the unique `r` with
/// `r * r == a`.
pub fn nimber_sqrt(a: u128, lvl: u8) -> (r: u128)
    requires
        lvl <= 7,
        fits(a, lvl as nat),
    ensures
        nim_mul(r, r, lvl as nat) == a,
        fits(r, lvl as nat),
    decreases lvl,
{
    if lvl == 0 {
        proof {
            assert(a & a == a) by (bit_vector);
        }
        return a;
    }
    let lvl = lvl - 1;
    let ghost m = lvl as nat;
    proof {
        lemma_split(a, m);
    }
    let ah = high_part(a, lvl);
    let al = low_part(a, lvl);
    let f = nimber_mul_fermat(ah, lvl);
    proof {
        lemma_xor_fits(al, f, m);
    }
    let rl = nimber_sqrt(al ^ f, lvl);
    let rh = nimber_sqrt(ah, lvl);
    proof {
        lemma_comb(rh, rl, m);
        lemma_square_split(comb(rh, rl, m), m);
        crate::field::lemma_xor_facts(f, al, f, 0);
        crate::field::lemma_xor_facts(al, f, 0, 0);
        crate::field::lemma_xor_facts(f, f, al, 0);
        crate::field::lemma_xor_facts(0, al, 0, 0);
    }
    combine(rh, rl, lvl)
}

/// The inverse of a nonzero `a` in the field of level `lvl`.
///
/// With `a = ah * F + al`, the norm `(ah + al) * al + ah^2 * h` lies in the
/// level below; its inverse `d` there gives `1 / a = (ah * d) * F + (ah + al) * d`.
pub fn nimber_inverse(a: u128, lvl: u8) -> (r: u128)
    requires
        lvl <= 7,
        fits(a, lvl as nat),
        a != 0,
    ensures
        nim_mul(a, r, lvl as nat) == 1,
        fits(r, lvl as nat),
    decreases lvl,
{
    if lvl == 0 {
        proof {
            assert(a >> 1u128 == 0 && a != 0 ==> a == 1 && a & 1 == 1) by (bit_vector);
            lemma_bits_values();
        }
        return a;
    }
    let lvl = lvl - 1;
    let ghost m = lvl as nat;
    proof {
        lemma_split(a, m);
        lemma_xor_fits(hi(a, m), lo(a, m), m);
        lemma_mul_fits(hi(a, m), hi(a, m), m);
        lemma_norm_fits(a, m);
        lemma_norm_nonzero(a, m);
    }
    let ah = high_part(a, lvl);
    let al = low_part(a, lvl);
    let asum = ah ^ al;

    let det = nimber_mul_nimber(asum, al, lvl) ^ nimber_mul_fermat(nimber_square(ah, lvl), lvl);
    let det = nimber_inverse(det, lvl);
    proof {
        lemma_inverse_step(a, det, m);
    }
    let high = nimber_mul_nimber(ah, det, lvl);
    let low = nimber_mul_nimber(asum, det, lvl);
    proof {
        lemma_comb(high, low, m);
    }
    combine(high, low, lvl)
}

} // verus!
