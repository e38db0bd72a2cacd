//! The nimber field as a mathematical model.
//!
//! A nimber below `2^128` is modelled by its bit pattern, a `u128`. The field
//! of level `k` is the set of values below `2^(2^k)`; a value of level `k + 1`
//! is a pair of level-`k` halves `(high, low)` standing for
//! `high * F + low`, where `F = 2^(2^k)` satisfies `F * F = F + h(k)` and
//! `h(k) = 2^(2^k - 1)` is the Fermat element of level `k`.
use vstd::prelude::*;
use vstd::arithmetic::power2::pow2;

verus! {

/// Number of bits of a value of level `k`: `2^k`.
pub open spec fn bits(k: nat) -> u128
    decreases k,
{
    if k == 0 {
        1
    } else {
        (2 * bits((k - 1) as nat)) as u128
    }
}

/// `a` lies in the field of level `k`, i.e. `a < 2^(2^k)`.
pub open spec fn fits(a: u128, k: nat) -> bool {
    k >= 7 || a >> bits(k) == 0
}

/// The low `2^k` bits set.
pub open spec fn low_mask(k: nat) -> u128 {
    ((1u128 << bits(k)) - 1) as u128
}

/// High half of `a` when split at level `m`.
pub open spec fn hi(a: u128, m: nat) -> u128 {
    a >> bits(m)
}

/// Low half of `a` when split at level `m`.
pub open spec fn lo(a: u128, m: nat) -> u128 {
    a & low_mask(m)
}

/// The value with halves `h` and `l` at level `m`.
pub open spec fn comb(h: u128, l: u128, m: nat) -> u128 {
    (h << bits(m)) | l
}

pub(crate) proof fn lemma_bits_values()
    ensures
        bits(0) == 1,
        bits(1) == 2,
        bits(2) == 4,
        bits(3) == 8,
        bits(4) == 16,
        bits(5) == 32,
        bits(6) == 64,
        bits(7) == 128,
{
    reveal_with_fuel(bits, 8);
}

proof fn lemma_split_bv(a: u128, s: u128)
    by (bit_vector)
    requires
        1 <= s <= 64,
    ensures
        ((a >> s) << s) | (a & ((1u128 << s) - 1) as u128) == a,
        (a & ((1u128 << s) - 1) as u128) >> s == 0,
{
}

proof fn lemma_comb_bv(h: u128, l: u128, s: u128, t: u128)
    by (bit_vector)
    requires
        1 <= s <= 64,
        h >> s == 0,
        l >> s == 0,
        t == 2 * s,
    ensures
        ((h << s) | l) >> s == h,
        ((h << s) | l) & ((1u128 << s) - 1) as u128 == l,
        s <= 32 ==> ((h << s) | l) >> t == 0,
{
}


proof fn lemma_hi_fits_bv(a: u128, s: u128, t: u128)
    by (bit_vector)
    requires
        1 <= s <= 64,
        t == 2 * s,
        s == 64 || a >> t == 0,
    ensures
        (a >> s) >> s == 0,
{
}

/// Shifts by a power of two up to 64 distribute over XOR.
proof fn lemma_shift_xor_bv(a: u128, b: u128, s: u128)
    requires
        s == 1 || s == 2 || s == 4 || s == 8 || s == 16 || s == 32 || s == 64,
    ensures
        (a ^ b) >> s == (a >> s) ^ (b >> s),
        (a << s) ^ (b << s) == (a ^ b) << s,
{
    if s == 1 {
        assert((a ^ b) >> 1u128 == (a >> 1u128) ^ (b >> 1u128) && (a << 1u128) ^ (b << 1u128) == (a ^ b) << 1u128) by (bit_vector);
    } else if s == 2 {
        assert((a ^ b) >> 2u128 == (a >> 2u128) ^ (b >> 2u128) && (a << 2u128) ^ (b << 2u128) == (a ^ b) << 2u128) by (bit_vector);
    } else if s == 4 {
        assert((a ^ b) >> 4u128 == (a >> 4u128) ^ (b >> 4u128) && (a << 4u128) ^ (b << 4u128) == (a ^ b) << 4u128) by (bit_vector);
    } else if s == 8 {
        assert((a ^ b) >> 8u128 == (a >> 8u128) ^ (b >> 8u128) && (a << 8u128) ^ (b << 8u128) == (a ^ b) << 8u128) by (bit_vector);
    } else if s == 16 {
        assert((a ^ b) >> 16u128 == (a >> 16u128) ^ (b >> 16u128) && (a << 16u128) ^ (b << 16u128) == (a ^ b) << 16u128) by (bit_vector);
    } else if s == 32 {
        assert((a ^ b) >> 32u128 == (a >> 32u128) ^ (b >> 32u128) && (a << 32u128) ^ (b << 32u128) == (a ^ b) << 32u128) by (bit_vector);
    } else {
        assert((a ^ b) >> 64u128 == (a >> 64u128) ^ (b >> 64u128) && (a << 64u128) ^ (b << 64u128) == (a ^ b) << 64u128) by (bit_vector);
    }
}

proof fn lemma_xor_mask_bv(a: u128, b: u128, mask: u128)
    by (bit_vector)
    ensures
        (a ^ b) & mask == (a & mask) ^ (b & mask),
{
}

proof fn lemma_or_is_xor_bv(h: u128, l: u128, s: u128)
    by (bit_vector)
    requires
        s == 1 || s == 2 || s == 4 || s == 8 || s == 16 || s == 32 || s == 64,
        l >> s == 0,
    ensures
        (h << s) | l == (h << s) ^ l,
{
}

proof fn lemma_shl_zero_bv(s: u128)
    by (bit_vector)
    requires
        s <= 64,
    ensures
        0u128 << s == 0,
{
}

proof fn lemma_comb_xor_bv(h1: u128, l1: u128, h2: u128, l2: u128, s: u128)
    requires
        s == 1 || s == 2 || s == 4 || s == 8 || s == 16 || s == 32 || s == 64,
        l1 >> s == 0,
        l2 >> s == 0,
    ensures
        ((h1 << s) | l1) ^ ((h2 << s) | l2) == ((h1 ^ h2) << s) | (l1 ^ l2),
        (0u128 << s) | l1 == l1,
{
    lemma_or_is_xor_bv(h1, l1, s);
    lemma_or_is_xor_bv(h2, l2, s);
    lemma_xor_facts(l1, l2, 0, s);
    lemma_or_is_xor_bv(h1 ^ h2, l1 ^ l2, s);
    lemma_or_is_xor_bv(0, l1, s);
    lemma_shift_xor_bv(h1, h2, s);
    lemma_shl_zero_bv(s);
    lemma_xor_shuffle(h1 << s, h2 << s, 0, l1, l2, 0);
    lemma_xor_facts(l1, 0, 0, s);
}

/// Facts of XOR that the laws below rearrange sums with.
pub proof fn lemma_xor_facts(a: u128, b: u128, c: u128, t: u128)
    by (bit_vector)
    ensures
        a ^ a == 0,
        a ^ 0 == a,
        0 ^ a == a,
        a ^ b == b ^ a,
        (a ^ b) ^ c == a ^ (b ^ c),
        a ^ b == 0 ==> a == b,
        a >> t == 0 && b >> t == 0 ==> (a ^ b) >> t == 0,
        0u128 >> t == 0,
{
}

proof fn lemma_xor_shuffle(x1: u128, x2: u128, x3: u128, y1: u128, y2: u128, y3: u128)
    by (bit_vector)
    ensures
        (x1 ^ y1) ^ (x2 ^ y2) == (x1 ^ x2) ^ (y1 ^ y2),
        ((x1 ^ y1) ^ (x2 ^ y2)) ^ (x3 ^ y3) == ((x1 ^ x2) ^ x3) ^ ((y1 ^ y2) ^ y3),
        (x1 ^ x2) ^ x3 == (x1 ^ x3) ^ x2,
{
}

proof fn lemma_bit_facts(a: u128, b: u128, c: u128)
    by (bit_vector)
    ensures
        a & b == b & a,
        a & 0 == 0,
        a & (b ^ c) == (a & b) ^ (a & c),
        a >> 1 == 0 ==> a & 1 == a,
        a >> 1 == 0 && b >> 1 == 0 ==> (a & b) >> 1 == 0,
        a >> 1 == 0 && b >> 1 == 0 && c >> 1 == 0 ==> (a & b) & c == a & (b & c),
{
}

proof fn lemma_bits_step(m: nat)
    requires
        m <= 6,
    ensures
        1 <= bits(m) <= 64,
        bits(m + 1) == 2 * bits(m),
        m <= 5 ==> bits(m) <= 32,
        m == 6 ==> bits(m) == 64,
        bits(m) == 1 || bits(m) == 2 || bits(m) == 4 || bits(m) == 8 || bits(m) == 16
            || bits(m) == 32 || bits(m) == 64,
{
    lemma_bits_values();
}

/// Splitting a value of level `m + 1` gives two values of level `m` that
/// recombine to it.
pub proof fn lemma_split(a: u128, m: nat)
    requires
        m <= 6,
        fits(a, m + 1),
    ensures
        fits(hi(a, m), m),
        fits(lo(a, m), m),
        comb(hi(a, m), lo(a, m), m) == a,
{
    lemma_bits_step(m);
    lemma_split_bv(a, bits(m));
    lemma_hi_fits_bv(a, bits(m), bits(m + 1));
}

/// Combining two values of level `m` gives a value of level `m + 1` whose
/// halves are the two values.
pub proof fn lemma_comb(h: u128, l: u128, m: nat)
    requires
        m <= 6,
        fits(h, m),
        fits(l, m),
    ensures
        fits(comb(h, l, m), m + 1),
        hi(comb(h, l, m), m) == h,
        lo(comb(h, l, m), m) == l,
{
    lemma_bits_step(m);
    lemma_comb_bv(h, l, bits(m), bits(m + 1));
}

/// Halves and combination commute with XOR.
pub proof fn lemma_split_xor(a: u128, b: u128, m: nat)
    requires
        m <= 6,
    ensures
        hi(a ^ b, m) == hi(a, m) ^ hi(b, m),
        lo(a ^ b, m) == lo(a, m) ^ lo(b, m),
        comb(hi(a, m), lo(a, m), m) ^ comb(hi(b, m), lo(b, m), m) == comb(
            hi(a, m) ^ hi(b, m),
            lo(a, m) ^ lo(b, m),
            m,
        ),
{
    lemma_bits_step(m);
    lemma_shift_xor_bv(a, b, bits(m));
    lemma_xor_mask_bv(a, b, low_mask(m));
    lemma_split_bv(a, bits(m));
    lemma_split_bv(b, bits(m));
    lemma_comb_xor_bv(hi(a, m), lo(a, m), hi(b, m), lo(b, m), bits(m));
}

proof fn lemma_comb_xor(h1: u128, l1: u128, h2: u128, l2: u128, m: nat)
    requires
        m <= 6,
        fits(l1, m),
        fits(l2, m),
    ensures
        comb(h1, l1, m) ^ comb(h2, l2, m) == comb(h1 ^ h2, l1 ^ l2, m),
        comb(0, l1, m) == l1,
{
    lemma_bits_step(m);
    lemma_comb_xor_bv(h1, l1, h2, l2, bits(m));
}

/// XOR keeps a level: the field is closed under addition.
pub proof fn lemma_xor_fits(a: u128, b: u128, k: nat)
    requires
        k <= 7,
        fits(a, k),
        fits(b, k),
    ensures
        fits(a ^ b, k),
{
    lemma_xor_facts(a, b, 0, bits(k));
}

/// The Fermat element of level `m`, `2^(2^m - 1)`: the product of all Fermat
/// 2-powers below `2^(2^m)`. The Fermat power `F` of level `m` satisfies
/// `F * F = F + fermat_elem(m)`.
pub open spec fn fermat_elem(m: nat) -> u128
    decreases m,
{
    if m == 0 {
        1
    } else {
        comb(fermat_elem((m - 1) as nat), 0, (m - 1) as nat)
    }
}

/// Nimber product of `a` and `b` in the field of level `k`.
///
/// At level 0 the field is {0, 1} and the product is AND. Above, with
/// `a = ah * F + al` and `b = bh * F + bl`, and `F * F = F + h`:
/// `a * b = (ah*bh + ah*bl + al*bh) * F + (ah*bh*h + al*bl)`.
pub open spec fn nim_mul(a: u128, b: u128, k: nat) -> u128
    decreases k,
{
    if k == 0 {
        a & b
    } else {
        let m = (k - 1) as nat;
        let hh = nim_mul(hi(a, m), hi(b, m), m);
        comb(
            hh ^ nim_mul(hi(a, m), lo(b, m), m) ^ nim_mul(lo(a, m), hi(b, m), m),
            nim_mul(hh, fermat_elem(m), m) ^ nim_mul(lo(a, m), lo(b, m), m),
            m,
        )
    }
}

/// The Fermat element of level `m` lies in the field of level `m`.
pub proof fn lemma_fermat_elem_fits(m: nat)
    requires
        m <= 7,
    ensures
        fits(fermat_elem(m), m),
    decreases m,
{
    if m > 0 {
        let p = (m - 1) as nat;
        lemma_fermat_elem_fits(p);
        lemma_xor_facts(0, 0, 0, bits(p));
        lemma_comb(fermat_elem(p), 0, p);
    } else {
        lemma_bits_values();
        lemma_xor_facts(1, 0, 0, 1);
        assert(1u128 >> 1u128 == 0) by (bit_vector);
    }
}

/// Closure: the product of two values of level `k` is of level `k`.
pub proof fn lemma_mul_fits(a: u128, b: u128, k: nat)
    requires
        k <= 7,
        fits(a, k),
        fits(b, k),
    ensures
        fits(nim_mul(a, b, k), k),
    decreases k,
{
    if k == 0 {
        lemma_bits_values();
        lemma_bit_facts(a, b, 0);
    } else {
        let m = (k - 1) as nat;
        lemma_split(a, m);
        lemma_split(b, m);
        let (ah, al, bh, bl) = (hi(a, m), lo(a, m), hi(b, m), lo(b, m));
        lemma_mul_fits(ah, bh, m);
        lemma_mul_fits(ah, bl, m);
        lemma_mul_fits(al, bh, m);
        lemma_mul_fits(al, bl, m);
        let hh = nim_mul(ah, bh, m);
        lemma_fermat_elem_fits(m);
        lemma_mul_fits(hh, fermat_elem(m), m);
        lemma_xor_fits(hh, nim_mul(ah, bl, m), m);
        lemma_xor_fits(hh ^ nim_mul(ah, bl, m), nim_mul(al, bh, m), m);
        lemma_xor_fits(nim_mul(hh, fermat_elem(m), m), nim_mul(al, bl, m), m);
        lemma_comb(
            hh ^ nim_mul(ah, bl, m) ^ nim_mul(al, bh, m),
            nim_mul(hh, fermat_elem(m), m) ^ nim_mul(al, bl, m),
            m,
        );
    }
}

proof fn lemma_small_bv(a: u128, s: u128, t: u128)
    by (bit_vector)
    requires
        1 <= s <= 64,
        t == 2 * s,
    ensures
        1u128 >> s == 0,
        1u128 & (((1u128 << s) - 1) as u128) == 1,
        0u128 & (((1u128 << s) - 1) as u128) == 0,
        a >> s == 0 ==> a & (((1u128 << s) - 1) as u128) == a,
        a >> s == 0 && s <= 32 ==> a >> t == 0,
        (0u128 << s) | a == a,
{
}

/// A value of level `k` is also of every higher level.
pub proof fn lemma_fits_up(a: u128, k: nat, j: nat)
    requires
        k <= j,
        fits(a, k),
    ensures
        fits(a, j),
    decreases j - k,
{
    if k < j && k < 7 {
        lemma_bits_step(k);
        lemma_small_bv(a, bits(k), bits(k + 1));
        lemma_fits_up(a, k + 1, j);
    }
}

proof fn lemma_small_halves(a: u128, m: nat)
    requires
        m <= 6,
    ensures
        hi(0, m) == 0,
        lo(0, m) == 0,
        hi(1, m) == 0,
        lo(1, m) == 1,
        fits(0, m),
        fits(1, m),
        fits(a, m) ==> hi(a, m) == 0 && lo(a, m) == a,
        comb(0, a, m) == a,
{
    lemma_bits_step(m);
    lemma_small_bv(a, bits(m), bits(m + 1));
    lemma_small_bv(0, bits(m), bits(m + 1));
    lemma_xor_facts(0, 0, 0, bits(m));
}

/// Zero absorbs: `a * 0 == 0 * a == 0`.
pub proof fn lemma_mul_zero(a: u128, k: nat)
    requires
        k <= 7,
        fits(a, k),
    ensures
        nim_mul(a, 0, k) == 0,
        nim_mul(0, a, k) == 0,
    decreases k,
{
    if k == 0 {
        lemma_bit_facts(a, 0, 0);
    } else {
        let m = (k - 1) as nat;
        lemma_split(a, m);
        lemma_small_halves(0, m);
        lemma_fermat_elem_fits(m);
        lemma_mul_zero(hi(a, m), m);
        lemma_mul_zero(lo(a, m), m);
        lemma_mul_zero(0, m);
        lemma_mul_zero(fermat_elem(m), m);
        lemma_xor_facts(0, 0, 0, 0);
    }
}

/// Commutativity: `a * b == b * a`.
pub proof fn lemma_mul_comm(a: u128, b: u128, k: nat)
    requires
        k <= 7,
        fits(a, k),
        fits(b, k),
    ensures
        nim_mul(a, b, k) == nim_mul(b, a, k),
    decreases k,
{
    if k == 0 {
        lemma_bit_facts(a, b, 0);
    } else {
        let m = (k - 1) as nat;
        lemma_split(a, m);
        lemma_split(b, m);
        let (ah, al, bh, bl) = (hi(a, m), lo(a, m), hi(b, m), lo(b, m));
        lemma_mul_comm(ah, bh, m);
        lemma_mul_comm(ah, bl, m);
        lemma_mul_comm(al, bh, m);
        lemma_mul_comm(al, bl, m);
        lemma_xor_shuffle(nim_mul(ah, bh, m), nim_mul(ah, bl, m), nim_mul(al, bh, m), 0, 0, 0);
    }
}

/// Distributivity: `a * (b + c) == a * b + a * c`, with `+` the XOR.
pub proof fn lemma_mul_distrib(a: u128, b: u128, c: u128, k: nat)
    requires
        k <= 7,
        fits(a, k),
        fits(b, k),
        fits(c, k),
    ensures
        nim_mul(a, b ^ c, k) == nim_mul(a, b, k) ^ nim_mul(a, c, k),
    decreases k,
{
    if k == 0 {
        lemma_bit_facts(a, b, c);
    } else {
        let m = (k - 1) as nat;
        lemma_split(a, m);
        lemma_split(b, m);
        lemma_split(c, m);
        lemma_split_xor(b, c, m);
        let (ah, al, bh, bl, ch, cl) = (hi(a, m), lo(a, m), hi(b, m), lo(b, m), hi(c, m), lo(c, m));
        let f = fermat_elem(m);
        lemma_fermat_elem_fits(m);
        lemma_mul_distrib(ah, bh, ch, m);
        lemma_mul_distrib(ah, bl, cl, m);
        lemma_mul_distrib(al, bh, ch, m);
        lemma_mul_distrib(al, bl, cl, m);
        let hb = nim_mul(ah, bh, m);
        let hc = nim_mul(ah, ch, m);
        lemma_mul_fits(ah, bh, m);
        lemma_mul_fits(ah, ch, m);
        lemma_xor_fits(hb, hc, m);
        lemma_mul_comm(hb ^ hc, f, m);
        lemma_mul_distrib(f, hb, hc, m);
        lemma_mul_comm(hb, f, m);
        lemma_mul_comm(hc, f, m);
        lemma_xor_shuffle(hb, nim_mul(ah, bl, m), nim_mul(al, bh, m), hc, nim_mul(ah, cl, m), nim_mul(al, ch, m));
        lemma_xor_shuffle(nim_mul(hb, f, m), nim_mul(al, bl, m), 0, nim_mul(hc, f, m), nim_mul(al, cl, m), 0);
        lemma_mul_fits(hb, f, m);
        lemma_mul_fits(hc, f, m);
        lemma_mul_fits(al, bl, m);
        lemma_mul_fits(al, cl, m);
        lemma_xor_fits(nim_mul(hb, f, m), nim_mul(al, bl, m), m);
        lemma_xor_fits(nim_mul(hc, f, m), nim_mul(al, cl, m), m);
        lemma_comb_xor(
            hb ^ nim_mul(ah, bl, m) ^ nim_mul(al, bh, m),
            nim_mul(hb, f, m) ^ nim_mul(al, bl, m),
            hc ^ nim_mul(ah, cl, m) ^ nim_mul(al, ch, m),
            nim_mul(hc, f, m) ^ nim_mul(al, cl, m),
            m,
        );
    }
}

/// One is the multiplicative identity: `a * 1 == a`.
pub proof fn lemma_mul_one(a: u128, k: nat)
    requires
        k <= 7,
        fits(a, k),
    ensures
        nim_mul(a, 1, k) == a,
    decreases k,
{
    if k == 0 {
        lemma_bits_values();
        lemma_bit_facts(a, 0, 0);
    } else {
        let m = (k - 1) as nat;
        lemma_split(a, m);
        lemma_small_halves(0, m);
        lemma_fermat_elem_fits(m);
        let (ah, al) = (hi(a, m), lo(a, m));
        lemma_mul_zero(ah, m);
        lemma_mul_zero(al, m);
        lemma_mul_zero(fermat_elem(m), m);
        lemma_mul_one(ah, m);
        lemma_mul_one(al, m);
        lemma_xor_facts(ah, 0, 0, 0);
        lemma_xor_facts(al, 0, 0, 0);
    }
}

/// The product of two values of level `k` is the same in the field of level
/// `k` and in that of level `k + 1`.
proof fn lemma_mul_level_step(a: u128, b: u128, k: nat)
    requires
        k < 7,
        fits(a, k),
        fits(b, k),
    ensures
        nim_mul(a, b, k + 1) == nim_mul(a, b, k),
{
    lemma_small_halves(a, k);
    lemma_small_halves(b, k);
    lemma_fermat_elem_fits(k);
    lemma_mul_zero(0, k);
    lemma_mul_zero(a, k);
    lemma_mul_zero(b, k);
    lemma_mul_zero(fermat_elem(k), k);
    lemma_xor_facts(nim_mul(a, b, k), 0, 0, 0);
    lemma_xor_facts(0, 0, 0, 0);
    lemma_small_halves(nim_mul(a, b, k), k);
    assert(nim_mul(hi(a, k), hi(b, k), k) == 0);
    assert(nim_mul(hi(a, k), lo(b, k), k) == 0);
    assert(nim_mul(lo(a, k), hi(b, k), k) == 0);
    assert(nim_mul(0, fermat_elem(k), k) == 0);
    assert(nim_mul(a, b, k + 1) == comb(0u128 ^ 0u128 ^ 0u128, 0u128 ^ nim_mul(a, b, k), k));
}

/// The product of two values of level `k` is the same in every field that
/// contains them: the fields are nested.
pub proof fn lemma_mul_level(a: u128, b: u128, k: nat, j: nat)
    requires
        k <= j <= 7,
        fits(a, k),
        fits(b, k),
    ensures
        nim_mul(a, b, j) == nim_mul(a, b, k),
    decreases j - k,
{
    if k < j {
        lemma_mul_level_step(a, b, k);
        lemma_fits_up(a, k, k + 1);
        lemma_fits_up(b, k, k + 1);
        lemma_mul_level(a, b, k + 1, j);
    }
}

proof fn lemma_xor_cancel_bv(p: u128, q: u128, r: u128, t: u128)
    by (bit_vector)
    ensures
        ((p ^ q) ^ (r ^ t)) ^ p == (t ^ q) ^ r,
        (p ^ 0) ^ q == q ^ p,
        (p ^ q) ^ r == p ^ (q ^ r),
        p ^ (q ^ p) == q,
        (p ^ q) ^ (q ^ t) == p ^ t,
{
}

/// Multiplying by the Fermat element of level `m + 1` in terms of level `m`:
/// `(ah * F + al) * (h * F) = ((ah + al) * h) * F + (ah * h) * h`.
pub proof fn lemma_fermat_step(a: u128, m: nat)
    requires
        m <= 6,
        fits(a, m + 1),
    ensures
        nim_mul(a, fermat_elem(m + 1), m + 1) == comb(
            nim_mul(lo(a, m) ^ hi(a, m), fermat_elem(m), m),
            nim_mul(nim_mul(hi(a, m), fermat_elem(m), m), fermat_elem(m), m),
            m,
        ),
{
    let f = fermat_elem(m);
    let (ah, al) = (hi(a, m), lo(a, m));
    lemma_split(a, m);
    lemma_fermat_elem_fits(m);
    lemma_small_halves(0, m);
    lemma_comb(f, 0, m);
    lemma_mul_zero(ah, m);
    lemma_mul_zero(al, m);
    lemma_xor_fits(al, ah, m);
    lemma_mul_comm(al ^ ah, f, m);
    lemma_mul_distrib(f, al, ah, m);
    lemma_mul_comm(al, f, m);
    lemma_mul_comm(ah, f, m);
    lemma_xor_cancel_bv(nim_mul(ah, f, m), nim_mul(al, f, m), 0, 0);
    lemma_xor_facts(nim_mul(nim_mul(ah, f, m), f, m), 0, 0, 0);
}

/// The three-product form of the cross term:
/// `(al + ah) * (bl + bh) + al * bl = ah * bh + ah * bl + al * bh`.
pub proof fn lemma_karatsuba(a: u128, b: u128, m: nat)
    requires
        m <= 6,
        fits(a, m + 1),
        fits(b, m + 1),
    ensures
        nim_mul(lo(a, m) ^ hi(a, m), lo(b, m) ^ hi(b, m), m) ^ nim_mul(lo(a, m), lo(b, m), m)
            == nim_mul(hi(a, m), hi(b, m), m) ^ nim_mul(hi(a, m), lo(b, m), m) ^ nim_mul(
            lo(a, m),
            hi(b, m),
            m,
        ),
{
    let (ah, al, bh, bl) = (hi(a, m), lo(a, m), hi(b, m), lo(b, m));
    lemma_split(a, m);
    lemma_split(b, m);
    lemma_xor_fits(al, ah, m);
    lemma_xor_fits(bl, bh, m);
    lemma_mul_distrib(al ^ ah, bl, bh, m);
    lemma_mul_comm(al ^ ah, bl, m);
    lemma_mul_comm(al ^ ah, bh, m);
    lemma_mul_distrib(bl, al, ah, m);
    lemma_mul_distrib(bh, al, ah, m);
    lemma_mul_comm(bl, al, m);
    lemma_mul_comm(bl, ah, m);
    lemma_mul_comm(bh, al, m);
    lemma_mul_comm(bh, ah, m);
    lemma_xor_cancel_bv(nim_mul(al, bl, m), nim_mul(ah, bl, m), nim_mul(al, bh, m), nim_mul(ah, bh, m));
}

/// Squaring in halves: `(ah * F + al)^2 = ah^2 * F + (ah^2 * h + al^2)`.
pub proof fn lemma_square_split(a: u128, m: nat)
    requires
        m <= 6,
        fits(a, m + 1),
    ensures
        nim_mul(a, a, m + 1) == comb(
            nim_mul(hi(a, m), hi(a, m), m),
            nim_mul(nim_mul(hi(a, m), hi(a, m), m), fermat_elem(m), m) ^ nim_mul(lo(a, m), lo(a, m), m),
            m,
        ),
{
    let (ah, al) = (hi(a, m), lo(a, m));
    lemma_split(a, m);
    lemma_mul_comm(ah, al, m);
    lemma_xor_facts(nim_mul(ah, ah, m), nim_mul(ah, al, m), nim_mul(ah, al, m), 0);
    lemma_xor_facts(nim_mul(ah, al, m), 0, 0, 0);
}

/// Distributivity from the right: `(x + y) * z == x * z + y * z`.
pub proof fn lemma_mul_distrib_right(x: u128, y: u128, z: u128, k: nat)
    requires
        k <= 7,
        fits(x, k),
        fits(y, k),
        fits(z, k),
    ensures
        nim_mul(x ^ y, z, k) == nim_mul(x, z, k) ^ nim_mul(y, z, k),
{
    lemma_xor_fits(x, y, k);
    lemma_mul_comm(x ^ y, z, k);
    lemma_mul_distrib(z, x, y, k);
    lemma_mul_comm(x, z, k);
    lemma_mul_comm(y, z, k);
}

proof fn lemma_distrib3(x: u128, y1: u128, y2: u128, y3: u128, k: nat)
    requires
        k <= 7,
        fits(x, k),
        fits(y1, k),
        fits(y2, k),
        fits(y3, k),
    ensures
        nim_mul(x, y1 ^ y2 ^ y3, k) == nim_mul(x, y1, k) ^ nim_mul(x, y2, k) ^ nim_mul(x, y3, k),
        nim_mul(y1 ^ y2 ^ y3, x, k) == nim_mul(y1, x, k) ^ nim_mul(y2, x, k) ^ nim_mul(y3, x, k),
{
    lemma_xor_fits(y1, y2, k);
    lemma_mul_distrib(x, y1 ^ y2, y3, k);
    lemma_mul_distrib(x, y1, y2, k);
    lemma_mul_distrib_right(y1 ^ y2, y3, x, k);
    lemma_mul_distrib_right(y1, y2, x, k);
}

proof fn lemma_xor_assoc_shuffle(
    t111: u128,
    t110: u128,
    t101: u128,
    t100: u128,
    t011: u128,
    t010: u128,
    t001: u128,
    g: u128,
)
    by (bit_vector)
    ensures
        ((t111 ^ t101 ^ t011) ^ (t110 ^ t100 ^ t010)) ^ (g ^ t001) == ((t111 ^ t110 ^ t101) ^ (g
            ^ t100)) ^ (t011 ^ t010 ^ t001),
        (t111 ^ t101 ^ t011) ^ (t110 ^ t100) == (t111 ^ t110 ^ t101) ^ (t011 ^ t100),
{
}

/// Associativity: `(a * b) * c == a * (b * c)`.
pub proof fn lemma_mul_assoc(a: u128, b: u128, c: u128, k: nat)
    requires
        k <= 7,
        fits(a, k),
        fits(b, k),
        fits(c, k),
    ensures
        nim_mul(nim_mul(a, b, k), c, k) == nim_mul(a, nim_mul(b, c, k), k),
    decreases k,
{
    if k == 0 {
        lemma_bits_values();
        lemma_bit_facts(a, b, c);
    } else {
        let m = (k - 1) as nat;
        let f = fermat_elem(m);
        lemma_fermat_elem_fits(m);
        lemma_split(a, m);
        lemma_split(b, m);
        lemma_split(c, m);
        let (a1, a0, b1, b0, c1, c0) = (hi(a, m), lo(a, m), hi(b, m), lo(b, m), hi(c, m), lo(c, m));
        // products of two halves
        let ab11 = nim_mul(a1, b1, m);
        let ab10 = nim_mul(a1, b0, m);
        let ab01 = nim_mul(a0, b1, m);
        let ab00 = nim_mul(a0, b0, m);
        let bc11 = nim_mul(b1, c1, m);
        let bc10 = nim_mul(b1, c0, m);
        let bc01 = nim_mul(b0, c1, m);
        let bc00 = nim_mul(b0, c0, m);
        lemma_mul_fits(a1, b1, m);
        lemma_mul_fits(a1, b0, m);
        lemma_mul_fits(a0, b1, m);
        lemma_mul_fits(a0, b0, m);
        lemma_mul_fits(b1, c1, m);
        lemma_mul_fits(b1, c0, m);
        lemma_mul_fits(b0, c1, m);
        lemma_mul_fits(b0, c0, m);
        lemma_mul_fits(ab11, f, m);
        lemma_mul_fits(bc11, f, m);
        // the triple products, right-associated
        let t111 = nim_mul(a1, bc11, m);
        let t110 = nim_mul(a1, bc10, m);
        let t101 = nim_mul(a1, bc01, m);
        let t100 = nim_mul(a1, bc00, m);
        let t011 = nim_mul(a0, bc11, m);
        let t010 = nim_mul(a0, bc10, m);
        let t001 = nim_mul(a0, bc01, m);
        let t000 = nim_mul(a0, bc00, m);
        lemma_mul_assoc(a1, b1, c1, m);
        lemma_mul_assoc(a1, b1, c0, m);
        lemma_mul_assoc(a1, b0, c1, m);
        lemma_mul_assoc(a1, b0, c0, m);
        lemma_mul_assoc(a0, b1, c1, m);
        lemma_mul_assoc(a0, b1, c0, m);
        lemma_mul_assoc(a0, b0, c1, m);
        lemma_mul_assoc(a0, b0, c0, m);
        lemma_mul_fits(a1, bc11, m);
        lemma_mul_fits(a1, bc10, m);
        lemma_mul_fits(a1, bc01, m);
        lemma_mul_fits(a1, bc00, m);
        lemma_mul_fits(a0, bc11, m);
        lemma_mul_fits(a0, bc10, m);
        lemma_mul_fits(a0, bc01, m);
        lemma_mul_fits(a0, bc00, m);
        // (ab11 * f) * c_l == (t11l) * f
        lemma_mul_assoc(ab11, f, c1, m);
        lemma_mul_comm(f, c1, m);
        lemma_mul_assoc(ab11, c1, f, m);
        lemma_mul_assoc(ab11, f, c0, m);
        lemma_mul_comm(f, c0, m);
        lemma_mul_assoc(ab11, c0, f, m);
        // a_i * (bc11 * f) == (t_i11) * f
        lemma_mul_assoc(a1, bc11, f, m);
        lemma_mul_assoc(a0, bc11, f, m);
        // the product ab and its halves
        let p1 = ab11 ^ ab10 ^ ab01;
        let p0 = nim_mul(ab11, f, m) ^ ab00;
        lemma_xor_fits(ab11, ab10, m);
        lemma_xor_fits(ab11 ^ ab10, ab01, m);
        lemma_xor_fits(nim_mul(ab11, f, m), ab00, m);
        lemma_comb(p1, p0, m);
        let q1 = bc11 ^ bc10 ^ bc01;
        let q0 = nim_mul(bc11, f, m) ^ bc00;
        lemma_xor_fits(bc11, bc10, m);
        lemma_xor_fits(bc11 ^ bc10, bc01, m);
        lemma_xor_fits(nim_mul(bc11, f, m), bc00, m);
        lemma_comb(q1, q0, m);
        assert(nim_mul(a, b, k) == comb(p1, p0, m));
        assert(nim_mul(b, c, k) == comb(q1, q0, m));
        // expand the left side
        lemma_distrib3(c1, ab11, ab10, ab01, m);
        lemma_distrib3(c0, ab11, ab10, ab01, m);
        lemma_mul_distrib_right(nim_mul(ab11, f, m), ab00, c1, m);
        lemma_mul_distrib_right(nim_mul(ab11, f, m), ab00, c0, m);
        let l1 = nim_mul(p1, c1, m);
        assert(l1 == t111 ^ t101 ^ t011);
        assert(nim_mul(p1, c0, m) == t110 ^ t100 ^ t010);
        assert(nim_mul(p0, c1, m) == nim_mul(t111, f, m) ^ t001);
        assert(nim_mul(p0, c0, m) == nim_mul(t110, f, m) ^ t000);
        lemma_mul_fits(t111, f, m);
        lemma_mul_fits(t110, f, m);
        lemma_mul_fits(t101, f, m);
        lemma_mul_fits(t011, f, m);
        lemma_xor_fits(t111, t101, m);
        lemma_xor_fits(t111 ^ t101, t011, m);
        lemma_distrib3(f, t111, t101, t011, m);
        // expand the right side
        lemma_distrib3(a1, bc11, bc10, bc01, m);
        lemma_distrib3(a0, bc11, bc10, bc01, m);
        lemma_mul_distrib(a1, nim_mul(bc11, f, m), bc00, m);
        lemma_mul_distrib(a0, nim_mul(bc11, f, m), bc00, m);
        let r1 = nim_mul(a1, q1, m);
        assert(r1 == t111 ^ t110 ^ t101);
        assert(nim_mul(a1, q0, m) == nim_mul(t111, f, m) ^ t100);
        assert(nim_mul(a0, q1, m) == t011 ^ t010 ^ t001);
        assert(nim_mul(a0, q0, m) == nim_mul(t011, f, m) ^ t000);
        lemma_xor_fits(t111, t110, m);
        lemma_xor_fits(t111 ^ t110, t101, m);
        lemma_distrib3(f, t111, t110, t101, m);
        lemma_xor_assoc_shuffle(t111, t110, t101, t100, t011, t010, t001, nim_mul(t111, f, m));
        lemma_xor_assoc_shuffle(
            nim_mul(t111, f, m),
            nim_mul(t110, f, m),
            nim_mul(t101, f, m),
            t000,
            nim_mul(t011, f, m),
            0,
            0,
            0,
        );
        lemma_xor_facts(t000, 0, 0, 0);
        lemma_xor_facts(nim_mul(t011, f, m), t000, 0, 0);
    }
}

proof fn lemma_bit_base_bv(t: u128)
    by (bit_vector)
    requires
        t >> 1 == 0,
    ensures
        (t & t) ^ t != 1,
        t != 0 ==> t == 1 && t & 1 == 1,
{
}

/// `t * t + t` never equals the Fermat element of the level: the polynomial
/// `x^2 + x + h` that defines the next level has no root in this one.
pub proof fn lemma_no_root(t: u128, m: nat)
    requires
        m <= 7,
        fits(t, m),
    ensures
        nim_mul(t, t, m) ^ t != fermat_elem(m),
    decreases m,
{
    if m == 0 {
        lemma_bits_values();
        lemma_bit_base_bv(t);
    } else {
        let p = (m - 1) as nat;
        let f = fermat_elem(p);
        lemma_fermat_elem_fits(p);
        lemma_split(t, p);
        let (t1, t0) = (hi(t, p), lo(t, p));
        lemma_square_split(t, p);
        let s1 = nim_mul(t1, t1, p);
        let s0 = nim_mul(s1, f, p) ^ nim_mul(t0, t0, p);
        lemma_mul_fits(t1, t1, p);
        lemma_mul_fits(t0, t0, p);
        lemma_mul_fits(s1, f, p);
        lemma_xor_fits(nim_mul(s1, f, p), nim_mul(t0, t0, p), p);
        lemma_comb_xor(s1, s0, t1, t0, p);
        lemma_xor_fits(s1, t1, p);
        lemma_xor_fits(s0, t0, p);
        lemma_comb(s1 ^ t1, s0 ^ t0, p);
        lemma_small_halves(0, p);
        lemma_comb(f, 0, p);
        lemma_no_root(t1, p);
    }
}

/// The norm of `a = ah * F + al` over the level below:
/// `(ah + al) * al + ah^2 * h`, zero only for `a == 0`.
pub open spec fn norm(a: u128, m: nat) -> u128 {
    nim_mul(hi(a, m) ^ lo(a, m), lo(a, m), m) ^ nim_mul(
        nim_mul(hi(a, m), hi(a, m), m),
        fermat_elem(m),
        m,
    )
}

/// Given an inverse `d` of the norm of `a`, the inverse of `a` is
/// `(ah * d) * F + (ah + al) * d`.
pub proof fn lemma_inverse_step(a: u128, d: u128, m: nat)
    requires
        m <= 6,
        fits(a, m + 1),
        fits(d, m),
        nim_mul(norm(a, m), d, m) == 1,
    ensures
        nim_mul(
            a,
            comb(nim_mul(hi(a, m), d, m), nim_mul(hi(a, m) ^ lo(a, m), d, m), m),
            m + 1,
        ) == 1,
{
    let f = fermat_elem(m);
    lemma_fermat_elem_fits(m);
    lemma_split(a, m);
    let (ah, al) = (hi(a, m), lo(a, m));
    let asum = ah ^ al;
    lemma_xor_fits(ah, al, m);
    let r1 = nim_mul(ah, d, m);
    let r0 = nim_mul(asum, d, m);
    lemma_mul_fits(ah, d, m);
    lemma_mul_fits(asum, d, m);
    lemma_comb(r1, r0, m);
    let y = nim_mul(al, d, m);
    lemma_mul_fits(al, d, m);
    // r0 == r1 + al * d
    lemma_mul_distrib_right(ah, al, d, m);
    // the high half: ah * r1 + ah * r0 + al * r1 == 0
    let x = nim_mul(ah, r1, m);
    lemma_mul_distrib(ah, r1, y, m);
    lemma_mul_assoc(al, ah, d, m);
    lemma_mul_comm(al, ah, m);
    lemma_mul_assoc(ah, al, d, m);
    lemma_xor_cancel_bv(x, nim_mul(ah, y, m), 0, 0);
    lemma_xor_facts(x, nim_mul(ah, y, m), nim_mul(ah, y, m), 0);
    lemma_xor_facts(nim_mul(ah, y, m), 0, 0, 0);
    lemma_xor_facts(x, 0, 0, 0);
    assert(x ^ nim_mul(ah, r0, m) ^ nim_mul(al, r1, m) == 0);
    // the low half: (ah * r1) * h + al * r0 == norm * d
    let sq = nim_mul(ah, ah, m);
    lemma_mul_fits(ah, ah, m);
    lemma_mul_fits(sq, f, m);
    lemma_mul_fits(sq, d, m);
    lemma_mul_assoc(ah, ah, d, m);
    lemma_mul_assoc(sq, d, f, m);
    lemma_mul_comm(d, f, m);
    lemma_mul_assoc(sq, f, d, m);
    lemma_mul_assoc(al, asum, d, m);
    lemma_mul_comm(al, asum, m);
    lemma_mul_fits(asum, al, m);
    lemma_mul_distrib_right(nim_mul(asum, al, m), nim_mul(sq, f, m), d, m);
    lemma_xor_facts(nim_mul(nim_mul(sq, f, m), d, m), nim_mul(nim_mul(asum, al, m), d, m), 0, 0);
    assert(nim_mul(x, f, m) ^ nim_mul(al, r0, m) == 1);
    lemma_small_halves(1, m);
}

/// Every nonzero value of level `k` has an inverse there.
pub proof fn lemma_inverse_exists(a: u128, k: nat)
    requires
        k <= 7,
        fits(a, k),
        a != 0,
    ensures
        exists|y: u128| fits(y, k) && nim_mul(a, y, k) == 1,
    decreases 2 * k,
{
    if k == 0 {
        lemma_bits_values();
        lemma_bit_base_bv(a);
        assert(fits(1, 0) && nim_mul(a, 1, 0) == 1);
    } else {
        let m = (k - 1) as nat;
        lemma_norm_nonzero(a, m);
        lemma_norm_fits(a, m);
        lemma_inverse_exists(norm(a, m), m);
        let d = choose|y: u128| fits(y, m) && nim_mul(norm(a, m), y, m) == 1;
        lemma_inverse_step(a, d, m);
        lemma_split(a, m);
        lemma_xor_fits(hi(a, m), lo(a, m), m);
        lemma_mul_fits(hi(a, m), d, m);
        lemma_mul_fits(hi(a, m) ^ lo(a, m), d, m);
        lemma_comb(nim_mul(hi(a, m), d, m), nim_mul(hi(a, m) ^ lo(a, m), d, m), m);
        let r = comb(nim_mul(hi(a, m), d, m), nim_mul(hi(a, m) ^ lo(a, m), d, m), m);
        assert(fits(r, k) && nim_mul(a, r, k) == 1);
    }
}

/// The norm of a value of level `m + 1` is of level `m`.
pub proof fn lemma_norm_fits(a: u128, m: nat)
    requires
        m <= 6,
        fits(a, m + 1),
    ensures
        fits(norm(a, m), m),
{
    lemma_fermat_elem_fits(m);
    lemma_split(a, m);
    let (ah, al) = (hi(a, m), lo(a, m));
    lemma_xor_fits(ah, al, m);
    lemma_mul_fits(ah ^ al, al, m);
    lemma_mul_fits(ah, ah, m);
    lemma_mul_fits(nim_mul(ah, ah, m), fermat_elem(m), m);
    lemma_xor_fits(nim_mul(ah ^ al, al, m), nim_mul(nim_mul(ah, ah, m), fermat_elem(m), m), m);
}

/// The norm of a nonzero value is nonzero.
pub proof fn lemma_norm_nonzero(a: u128, m: nat)
    requires
        m <= 6,
        fits(a, m + 1),
        a != 0,
    ensures
        norm(a, m) != 0,
    decreases 2 * m + 1,
{
    let f = fermat_elem(m);
    lemma_fermat_elem_fits(m);
    lemma_split(a, m);
    lemma_small_halves(0, m);
    let (ah, al) = (hi(a, m), lo(a, m));
    lemma_xor_fits(ah, al, m);
    let sq = nim_mul(ah, ah, m);
    lemma_mul_fits(ah, ah, m);
    lemma_mul_fits(sq, f, m);
    lemma_mul_fits(al, al, m);
    lemma_mul_fits(ah, al, m);
    // norm == ah * al + al * al + ah^2 * h
    lemma_mul_distrib_right(ah, al, al, m);
    if ah == 0 {
        lemma_mul_zero(0, m);
        lemma_mul_zero(f, m);
        lemma_mul_zero(al, m);
        lemma_xor_facts(nim_mul(al, al, m), 0, 0, 0);
        assert(norm(a, m) == nim_mul(al, al, m));
        assert(al != 0);
        lemma_inverse_exists(al, m);
        let u = choose|y: u128| fits(y, m) && nim_mul(al, y, m) == 1;
        lemma_mul_assoc(al, al, u, m);
        lemma_mul_one(al, m);
        lemma_mul_zero(u, m);
    } else {
        lemma_inverse_exists(ah, m);
        let u = choose|y: u128| fits(y, m) && nim_mul(ah, y, m) == 1;
        let t = nim_mul(al, u, m);
        lemma_mul_fits(al, u, m);
        lemma_mul_fits(t, t, m);
        lemma_mul_fits(f, ah, m);
        // u * u * (ah * al) == t
        lemma_mul_comm(ah, al, m);
        lemma_mul_assoc(al, ah, u, m);
        lemma_mul_one(al, m);
        let g1 = nim_mul(nim_mul(nim_mul(ah, al, m), u, m), u, m);
        assert(g1 == t);
        // u * u * (al * al) == t * t
        lemma_mul_assoc(al, al, u, m);
        lemma_mul_comm(al, t, m);
        lemma_mul_assoc(t, al, u, m);
        let g2 = nim_mul(nim_mul(nim_mul(al, al, m), u, m), u, m);
        assert(g2 == nim_mul(t, t, m));
        // u * u * (ah^2 * h) == h
        lemma_mul_comm(sq, f, m);
        lemma_mul_assoc(f, sq, u, m);
        lemma_mul_assoc(ah, ah, u, m);
        lemma_mul_one(ah, m);
        lemma_mul_assoc(f, ah, u, m);
        lemma_mul_one(f, m);
        let g3 = nim_mul(nim_mul(nim_mul(sq, f, m), u, m), u, m);
        assert(g3 == f);
        // u * u * norm == t + t * t + h
        let n1 = nim_mul(ah, al, m) ^ nim_mul(al, al, m);
        lemma_xor_fits(nim_mul(ah, al, m), nim_mul(al, al, m), m);
        lemma_mul_distrib_right(n1, nim_mul(sq, f, m), u, m);
        lemma_mul_distrib_right(nim_mul(ah, al, m), nim_mul(al, al, m), u, m);
        lemma_mul_fits(n1, u, m);
        lemma_mul_fits(nim_mul(sq, f, m), u, m);
        lemma_mul_fits(nim_mul(ah, al, m), u, m);
        lemma_mul_fits(nim_mul(al, al, m), u, m);
        lemma_mul_distrib_right(nim_mul(n1, u, m), nim_mul(nim_mul(sq, f, m), u, m), u, m);
        lemma_mul_distrib_right(nim_mul(nim_mul(ah, al, m), u, m), nim_mul(nim_mul(al, al, m), u, m), u, m);
        let g = nim_mul(nim_mul(norm(a, m), u, m), u, m);
        assert(g == (g1 ^ g2) ^ g3);
        lemma_no_root(t, m);
        if norm(a, m) == 0 {
            lemma_mul_zero(u, m);
            lemma_xor_facts(t ^ nim_mul(t, t, m), f, 0, 0);
            lemma_xor_facts(t, nim_mul(t, t, m), 0, 0);
        }
    }
}

/// Squaring is additive: `(a + b)^2 == a^2 + b^2`.
pub proof fn lemma_square_additive(a: u128, b: u128, k: nat)
    requires
        k <= 7,
        fits(a, k),
        fits(b, k),
    ensures
        nim_mul(a ^ b, a ^ b, k) == nim_mul(a, a, k) ^ nim_mul(b, b, k),
{
    lemma_xor_fits(a, b, k);
    lemma_mul_distrib(a ^ b, a, b, k);
    lemma_mul_distrib_right(a, b, a, k);
    lemma_mul_distrib_right(a, b, b, k);
    lemma_mul_comm(b, a, k);
    lemma_xor_cancel_bv(nim_mul(a, a, k), nim_mul(a, b, k), 0, nim_mul(b, b, k));
}

/// Only zero squares to zero.
pub proof fn lemma_square_zero(a: u128, k: nat)
    requires
        k <= 7,
        fits(a, k),
        nim_mul(a, a, k) == 0,
    ensures
        a == 0,
    decreases k,
{
    if k == 0 {
        assert(a & a == a) by (bit_vector);
    } else {
        let m = (k - 1) as nat;
        let f = fermat_elem(m);
        lemma_fermat_elem_fits(m);
        lemma_split(a, m);
        lemma_square_split(a, m);
        let (ah, al) = (hi(a, m), lo(a, m));
        let s1 = nim_mul(ah, ah, m);
        lemma_mul_fits(ah, ah, m);
        lemma_mul_fits(al, al, m);
        lemma_mul_fits(s1, f, m);
        lemma_xor_fits(nim_mul(s1, f, m), nim_mul(al, al, m), m);
        lemma_comb(s1, nim_mul(s1, f, m) ^ nim_mul(al, al, m), m);
        lemma_small_halves(0, m);
        lemma_square_zero(ah, m);
        lemma_mul_zero(f, m);
        lemma_xor_facts(nim_mul(al, al, m), 0, 0, 0);
        lemma_square_zero(al, m);
    }
}

/// Squaring is one-to-one: a value has at most one square root.
pub proof fn lemma_square_injective(a: u128, b: u128, k: nat)
    requires
        k <= 7,
        fits(a, k),
        fits(b, k),
        nim_mul(a, a, k) == nim_mul(b, b, k),
    ensures
        a == b,
{
    lemma_square_additive(a, b, k);
    lemma_xor_facts(nim_mul(a, a, k), 0, 0, 0);
    lemma_xor_fits(a, b, k);
    lemma_square_zero(a ^ b, k);
    lemma_xor_facts(a, b, 0, 0);
}

/// Below the top level, `fits` is a plain bound: `a < 2^(2^k)`.
pub proof fn lemma_fits_below(a: u128, k: nat)
    requires
        k <= 6,
    ensures
        fits(a, k) <==> a < pow2(bits(k) as nat),
{
    lemma_bits_values();
    vstd::arithmetic::power2::lemma2_to64();
    vstd::bits::lemma_u128_shr_is_div(a, bits(k));
    vstd::arithmetic::power2::lemma_pow2_pos(bits(k) as nat);
    if a < pow2(bits(k) as nat) {
        vstd::arithmetic::div_mod::lemma_basic_div(a as int, pow2(bits(k) as nat) as int);
    } else {
        vstd::arithmetic::div_mod::lemma_div_non_zero(a as int, pow2(bits(k) as nat) as int);
    }
}

proof fn lemma_or_bv(a: u128, b: u128, s: u128)
    by (bit_vector)
    ensures
        ((a | b) >> s == 0) == (a >> s == 0 && b >> s == 0),
        a >> s == 0 ==> (a & b) >> s == 0,
{
}

/// `a | b` is of level `k` exactly when both `a` and `b` are; `a & b` is of
/// level `k` when `a` is.
pub proof fn lemma_or_fits(a: u128, b: u128, k: nat)
    ensures
        fits(a | b, k) <==> fits(a, k) && fits(b, k),
        fits(a, k) ==> fits(a & b, k),
{
    lemma_or_bv(a, b, bits(k));
}

} // verus!
