//! The nimber type over the unsigned machine words.
use vstd::prelude::*;
use vstd::arithmetic::power2::lemma2_to64;
use crate::engine::{level, nimber_inverse, nimber_mul_nimber, nimber_sqrt, nimber_square};
use crate::field::{
    bits, fits, lemma_fits_below, lemma_fits_up, lemma_mul_assoc, lemma_mul_comm, lemma_mul_level,
    lemma_mul_one, lemma_or_fits, lemma_xor_facts, lemma_xor_fits, nim_mul,
};

verus! {

/// The smallest level that holds `a` is at most any level that holds it.
proof fn lemma_level_within(a: u128, lvl: u8, k: nat)
    requires
        k <= 7,
        fits(a, k),
        lvl == 0 || !fits(a, (lvl - 1) as nat),
    ensures
        lvl <= k,
{
    if lvl > k {
        lemma_fits_up(a, k, (lvl - 1) as nat);
    }
}

/// An unsigned integer type whose values are exactly the nimbers of one
/// level: `2^(2^level)` values.
pub trait Word: Copy + Sized {
    /// The level of the field that the type's values make up.
    spec fn level() -> nat;

    /// The value as a 128-bit pattern.
    spec fn value(self) -> u128;

    /// The word holding the value `v`, for `v` of the type's level.
    spec fn from_value(v: u128) -> Self;

    /// The value with every bit of the word set.
    spec fn ones() -> u128;

    /// The type's level is at most 7: it is no wider than 128 bits.
    proof fn lemma_level()
        ensures
            Self::level() <= 7,
    ;

    /// Every value of the type lies in the type's field.
    proof fn lemma_value_fits(self)
        ensures
            fits(self.value(), Self::level()),
    ;

    /// The value as a 128-bit word.
    fn widen(self) -> (r: u128)
        ensures
            r == self.value(),
            fits(r, Self::level()),
    ;

    /// The word holding `x`.
    fn narrow(x: u128) -> (r: Self)
        requires
            fits(x, Self::level()),
        ensures
            r.value() == x,
            r == Self::from_value(x),
    ;

    /// Every bit flipped.
    fn complement(self) -> (r: Self)
        ensures
            r.value() == self.value() ^ Self::ones(),
            r == Self::from_value(self.value() ^ Self::ones()),
    ;
}

impl Word for u8 {
    open spec fn from_value(v: u128) -> Self {
        v as u8
    }

    open spec fn level() -> nat {
        3
    }

    open spec fn value(self) -> u128 {
        self as u128
    }

    open spec fn ones() -> u128 {
        0xff
    }

    proof fn lemma_level() {
    }

    proof fn lemma_value_fits(self) {
        lemma2_to64();
        lemma_fits_below(self as u128, 3);
        crate::field::lemma_bits_values();
    }

    fn widen(self) -> (r: u128) {
        proof {
            lemma2_to64();
            lemma_fits_below(self as u128, 3);
            crate::field::lemma_bits_values();
        }
        self as u128
    }

    fn narrow(x: u128) -> (r: Self) {
        proof {
            lemma2_to64();
            lemma_fits_below(x, 3);
            crate::field::lemma_bits_values();
        }
        x as u8
    }

    fn complement(self) -> (r: Self) {
        assert((!self) as u128 == (self as u128) ^ 0xffu128 && !self == ((self as u128) ^ 0xffu128) as u8)
            by (bit_vector);
        !self
    }
}

impl Word for u16 {
    open spec fn from_value(v: u128) -> Self {
        v as u16
    }

    open spec fn level() -> nat {
        4
    }

    open spec fn value(self) -> u128 {
        self as u128
    }

    open spec fn ones() -> u128 {
        0xffff
    }

    proof fn lemma_level() {
    }

    proof fn lemma_value_fits(self) {
        lemma2_to64();
        lemma_fits_below(self as u128, 4);
        crate::field::lemma_bits_values();
    }

    fn widen(self) -> (r: u128) {
        proof {
            lemma2_to64();
            lemma_fits_below(self as u128, 4);
            crate::field::lemma_bits_values();
        }
        self as u128
    }

    fn narrow(x: u128) -> (r: Self) {
        proof {
            lemma2_to64();
            lemma_fits_below(x, 4);
            crate::field::lemma_bits_values();
        }
        x as u16
    }

    fn complement(self) -> (r: Self) {
        assert((!self) as u128 == (self as u128) ^ 0xffffu128 && !self == ((self as u128) ^ 0xffffu128) as u16)
            by (bit_vector);
        !self
    }
}

impl Word for u32 {
    open spec fn from_value(v: u128) -> Self {
        v as u32
    }

    open spec fn level() -> nat {
        5
    }

    open spec fn value(self) -> u128 {
        self as u128
    }

    open spec fn ones() -> u128 {
        0xffff_ffff
    }

    proof fn lemma_level() {
    }

    proof fn lemma_value_fits(self) {
        lemma2_to64();
        lemma_fits_below(self as u128, 5);
        crate::field::lemma_bits_values();
    }

    fn widen(self) -> (r: u128) {
        proof {
            lemma2_to64();
            lemma_fits_below(self as u128, 5);
            crate::field::lemma_bits_values();
        }
        self as u128
    }

    fn narrow(x: u128) -> (r: Self) {
        proof {
            lemma2_to64();
            lemma_fits_below(x, 5);
            crate::field::lemma_bits_values();
        }
        x as u32
    }

    fn complement(self) -> (r: Self) {
        assert((!self) as u128 == (self as u128) ^ 0xffff_ffffu128 && !self == ((self as u128) ^ 0xffff_ffffu128) as u32)
            by (bit_vector);
        !self
    }
}

impl Word for u64 {
    open spec fn from_value(v: u128) -> Self {
        v as u64
    }

    open spec fn level() -> nat {
        6
    }

    open spec fn value(self) -> u128 {
        self as u128
    }

    open spec fn ones() -> u128 {
        0xffff_ffff_ffff_ffff
    }

    proof fn lemma_level() {
    }

    proof fn lemma_value_fits(self) {
        lemma2_to64();
        lemma_fits_below(self as u128, 6);
        crate::field::lemma_bits_values();
    }

    fn widen(self) -> (r: u128) {
        proof {
            lemma2_to64();
            lemma_fits_below(self as u128, 6);
            crate::field::lemma_bits_values();
        }
        self as u128
    }

    fn narrow(x: u128) -> (r: Self) {
        proof {
            lemma2_to64();
            lemma_fits_below(x, 6);
            crate::field::lemma_bits_values();
        }
        x as u64
    }

    fn complement(self) -> (r: Self) {
        assert((!self) as u128 == (self as u128) ^ 0xffff_ffff_ffff_ffffu128 && !self == ((self as u128) ^ 0xffff_ffff_ffff_ffffu128) as u64)
            by (bit_vector);
        !self
    }
}

impl Word for u128 {
    open spec fn from_value(v: u128) -> Self {
        v
    }

    open spec fn level() -> nat {
        7
    }

    open spec fn value(self) -> u128 {
        self
    }

    open spec fn ones() -> u128 {
        0xffff_ffff_ffff_ffff_ffff_ffff_ffff_ffff
    }

    proof fn lemma_level() {
    }

    proof fn lemma_value_fits(self) {
    }

    fn widen(self) -> (r: u128) {
        self
    }

    fn narrow(x: u128) -> (r: Self) {
        x
    }

    fn complement(self) -> (r: Self) {
        assert(!self == self ^ 0xffff_ffff_ffff_ffff_ffff_ffff_ffff_ffffu128) by (bit_vector);
        !self
    }
}

impl Word for usize {
    open spec fn from_value(v: u128) -> Self {
        v as usize
    }

    open spec fn level() -> nat {
        if usize::BITS == 64 {
            6
        } else {
            5
        }
    }

    open spec fn value(self) -> u128 {
        self as u128
    }

    open spec fn ones() -> u128 {
        if usize::BITS == 64 {
            0xffff_ffff_ffff_ffff
        } else {
            0xffff_ffff
        }
    }

    proof fn lemma_level() {
    }

    proof fn lemma_value_fits(self) {
        lemma2_to64();
        lemma_fits_below(self as u128, Self::level());
        crate::field::lemma_bits_values();
    }

    fn widen(self) -> (r: u128) {
        proof {
            lemma2_to64();
            lemma_fits_below(self as u128, Self::level());
            crate::field::lemma_bits_values();
        }
        self as u128
    }

    fn narrow(x: u128) -> (r: Self) {
        proof {
            lemma2_to64();
            lemma_fits_below(x, Self::level());
            crate::field::lemma_bits_values();
        }
        x as usize
    }

    fn complement(self) -> (r: Self) {
        assert((!self) as u128 == (self as u128) ^ (if usize::BITS == 64 {
            0xffff_ffff_ffff_ffffu128
        } else {
            0xffff_ffffu128
        }) && !self == ((self as u128) ^ (if usize::BITS == 64 {
            0xffff_ffff_ffff_ffffu128
        } else {
            0xffff_ffffu128
        })) as usize) by (bit_vector);
        !self
    }
}

/// A nimber held in the word type `T`.
///
/// Addition and subtraction are both XOR; multiplication is nimber
/// multiplication, under which the values of `T` form a field.
#[derive(Clone, Copy, Debug, PartialEq, Eq, PartialOrd, Ord, Hash)]
pub struct Nimber<T> {
    x: T,
}

/// Nimbers of 8 bits: the field of level 3.
pub type Nim8 = Nimber<u8>;

/// Nimbers of 16 bits: the field of level 4.
pub type Nim16 = Nimber<u16>;

/// Nimbers of 32 bits: the field of level 5.
pub type Nim32 = Nimber<u32>;

/// Nimbers of 64 bits: the field of level 6.
pub type Nim64 = Nimber<u64>;

/// Nimbers of 128 bits: the field of level 7.
pub type Nim128 = Nimber<u128>;

impl<T: Word> View for Nimber<T> {
    type V = u128;

    closed spec fn view(&self) -> u128 {
        self.x.value()
    }
}

impl<T: Word> Nimber<T> {
    /// A nimber's value lies in the field of its word type.
    pub proof fn lemma_view_fits(self)
        ensures
            fits(self@, T::level()),
            T::level() <= 7,
    {
        T::lemma_level();
        self.x.lemma_value_fits();
    }

    /// The product of two words of `T`, in the field of `T`.
    fn mul_words(a: u128, b: u128) -> (r: u128)
        requires
            fits(a, T::level()),
            fits(b, T::level()),
        ensures
            r == nim_mul(a, b, T::level()),
            fits(r, T::level()),
    {
        proof {
            T::lemma_level();
        }
        let lvl = level(a | b);
        proof {
            lemma_or_fits(a, b, lvl as nat);
            lemma_or_fits(a, b, T::level());
            lemma_level_within(a | b, lvl, T::level());
        }
        let r = nimber_mul_nimber(a, b, lvl);
        proof {
            lemma_mul_level(a, b, lvl as nat, T::level());
            lemma_fits_up(r, lvl as nat, T::level());
        }
        r
    }

    /// The inverse of a nonzero word of `T`, in the field of `T`.
    fn inverse_word(a: u128) -> (r: u128)
        requires
            fits(a, T::level()),
            a != 0,
        ensures
            nim_mul(a, r, T::level()) == 1,
            fits(r, T::level()),
    {
        proof {
            T::lemma_level();
        }
        let lvl = level(a);
        proof {
            lemma_level_within(a, lvl, T::level());
        }
        let r = nimber_inverse(a, lvl);
        proof {
            lemma_mul_level(a, r, lvl as nat, T::level());
            lemma_fits_up(r, lvl as nat, T::level());
        }
        r
    }

    /// Converts to the inner type.
    pub fn unwrap(self) -> (r: T)
        ensures
            r.value() == self@,
    {
        self.x
    }

    /// Takes the reciprocal (inverse) of a nonzero nimber, `1 / x`.
    pub fn recip(&self) -> (r: Nimber<T>)
        requires
            self@ != 0,
        ensures
            nim_mul(self@, r@, T::level()) == 1,
    {
        let r = Self::inverse_word(self.x.widen());
        Nimber { x: T::narrow(r) }
    }

    /// The reciprocal, or `None` for zero, which has none.
    pub fn checked_recip(&self) -> (r: Option<Nimber<T>>)
        ensures
            r is None <==> self@ == 0,
            r matches Some(q) ==> nim_mul(self@, q@, T::level()) == 1,
    {
        let a = self.x.widen();
        if a == 0 {
            None
        } else {
            Some(self.recip())
        }
    }

    /// Squares a nimber, `x * x`.
    pub fn square(&self) -> (r: Nimber<T>)
        ensures
            r@ == nim_mul(self@, self@, T::level()),
    {
        proof {
            T::lemma_level();
        }
        let a = self.x.widen();
        let lvl = level(a);
        proof {
            lemma_level_within(a, lvl, T::level());
        }
        let r = nimber_square(a, lvl);
        proof {
            lemma_mul_level(a, a, lvl as nat, T::level());
            lemma_fits_up(r, lvl as nat, T::level());
        }
        Nimber { x: T::narrow(r) }
    }

    /// The square root of a nimber: the `r` with `r * r == x`, which always
    /// exists and is unique.
    pub fn sqrt(&self) -> (r: Nimber<T>)
        ensures
            nim_mul(r@, r@, T::level()) == self@,
    {
        proof {
            T::lemma_level();
        }
        let a = self.x.widen();
        let lvl = level(a);
        proof {
            lemma_level_within(a, lvl, T::level());
        }
        let r = nimber_sqrt(a, lvl);
        proof {
            lemma_mul_level(r, r, lvl as nat, T::level());
            lemma_fits_up(r, lvl as nat, T::level());
        }
        Nimber { x: T::narrow(r) }
    }

    /// Division by a nonzero nimber: `self * rhs.recip()`, the `q` with
    /// `q * rhs == self`.
    pub fn div(&self, rhs: &Self) -> (r: Nimber<T>)
        requires
            rhs@ != 0,
        ensures
            nim_mul(r@, rhs@, T::level()) == self@,
    {
        proof {
            T::lemma_level();
        }
        let a = self.x.widen();
        let b = rhs.x.widen();
        let inv = Self::inverse_word(b);
        let r = Self::mul_words(a, inv);
        proof {
            lemma_mul_assoc(a, inv, b, T::level());
            lemma_mul_comm(inv, b, T::level());
            lemma_mul_one(a, T::level());
        }
        Nimber { x: T::narrow(r) }
    }
}

impl<T: Word> Nimber<T> {
    /// Division, or `None` when `rhs` is zero.
    pub fn checked_div(&self, rhs: &Self) -> (r: Option<Nimber<T>>)
        ensures
            r is None <==> rhs@ == 0,
            r matches Some(q) ==> nim_mul(q@, rhs@, T::level()) == self@,
    {
        if rhs.x.widen() == 0 {
            None
        } else {
            Some(self.div(rhs))
        }
    }
}

impl<T: Word> From<T> for Nimber<T> {
    /// Wraps a word unchanged.
    fn from(x: T) -> (r: Nimber<T>)
        ensures
            r@ == x.value(),
    {
        Nimber { x }
    }
}

impl<T: Word> vstd::std_specs::convert::FromSpecImpl<T> for Nimber<T> {
    open spec fn obeys_from_spec() -> bool {
        true
    }

    closed spec fn from_spec(x: T) -> Nimber<T> {
        Nimber { x }
    }
}

impl<T: Word> core::ops::Mul for Nimber<T> {
    type Output = Nimber<T>;

    /// Nimber multiplication.
    fn mul(self, rhs: Nimber<T>) -> (r: Nimber<T>)
        ensures
            r@ == nim_mul(self@, rhs@, T::level()),
    {
        let r = Self::mul_words(self.x.widen(), rhs.x.widen());
        Nimber { x: T::narrow(r) }
    }
}

impl<T: Word> vstd::std_specs::ops::MulSpecImpl for Nimber<T> {
    open spec fn obeys_mul_spec() -> bool {
        true
    }

    open spec fn mul_req(self, rhs: Nimber<T>) -> bool {
        true
    }

    closed spec fn mul_spec(self, rhs: Nimber<T>) -> Nimber<T> {
        Nimber { x: T::from_value(nim_mul(self@, rhs@, T::level())) }
    }
}

impl<T: Word> Nimber<T> {
    /// The nimber sum of two words of `T`: their XOR.
    fn add_words(a: u128, b: u128) -> (r: u128)
        requires
            fits(a, T::level()),
            fits(b, T::level()),
        ensures
            r == a ^ b,
            fits(r, T::level()),
    {
        proof {
            T::lemma_level();
            lemma_xor_fits(a, b, T::level());
        }
        a ^ b
    }
}

impl<T: Word> core::ops::Add for Nimber<T> {
    type Output = Nimber<T>;

    /// Nimber addition: XOR.
    fn add(self, rhs: Nimber<T>) -> (r: Nimber<T>)
        ensures
            r@ == self@ ^ rhs@,
    {
        Nimber { x: T::narrow(Self::add_words(self.x.widen(), rhs.x.widen())) }
    }
}

impl<T: Word> vstd::std_specs::ops::AddSpecImpl for Nimber<T> {
    open spec fn obeys_add_spec() -> bool {
        true
    }

    open spec fn add_req(self, rhs: Nimber<T>) -> bool {
        true
    }

    closed spec fn add_spec(self, rhs: Nimber<T>) -> Nimber<T> {
        Nimber { x: T::from_value(self@ ^ rhs@) }
    }
}

impl<T: Word> core::ops::Sub for Nimber<T> {
    type Output = Nimber<T>;

    /// Nimber subtraction, the same as addition: XOR.
    fn sub(self, rhs: Nimber<T>) -> (r: Nimber<T>)
        ensures
            r@ == self@ ^ rhs@,
    {
        Nimber { x: T::narrow(Self::add_words(self.x.widen(), rhs.x.widen())) }
    }
}

impl<T: Word> vstd::std_specs::ops::SubSpecImpl for Nimber<T> {
    open spec fn obeys_sub_spec() -> bool {
        true
    }

    open spec fn sub_req(self, rhs: Nimber<T>) -> bool {
        true
    }

    closed spec fn sub_spec(self, rhs: Nimber<T>) -> Nimber<T> {
        Nimber { x: T::from_value(self@ ^ rhs@) }
    }
}

impl<T: Word> core::ops::Neg for Nimber<T> {
    type Output = Nimber<T>;

    /// Every nimber is its own negative.
    fn neg(self) -> (r: Nimber<T>)
        ensures
            r@ == self@,
    {
        self
    }
}

impl<T: Word> vstd::std_specs::ops::NegSpecImpl for Nimber<T> {
    open spec fn obeys_neg_spec() -> bool {
        true
    }

    open spec fn neg_req(self) -> bool {
        true
    }

    open spec fn neg_spec(self) -> Nimber<T> {
        self
    }
}

impl<T: Word> core::ops::Not for Nimber<T> {
    type Output = Nimber<T>;

    /// Flips every bit of the word.
    fn not(self) -> (r: Nimber<T>)
        ensures
            r@ == self@ ^ T::ones(),
    {
        Nimber { x: self.x.complement() }
    }
}

impl<T: Word> vstd::std_specs::ops::NotSpecImpl for Nimber<T> {
    open spec fn obeys_not_spec() -> bool {
        true
    }

    open spec fn not_req(self) -> bool {
        true
    }

    closed spec fn not_spec(self) -> Nimber<T> {
        Nimber { x: T::from_value(self@ ^ T::ones()) }
    }
}

impl<T: Word> core::ops::AddAssign for Nimber<T> {
    fn add_assign(&mut self, rhs: Nimber<T>)
        ensures
            final(self)@ == old(self)@ ^ rhs@,
    {
        *self = *self + rhs;
    }
}

impl<T: Word> core::ops::SubAssign for Nimber<T> {
    fn sub_assign(&mut self, rhs: Nimber<T>)
        ensures
            final(self)@ == old(self)@ ^ rhs@,
    {
        *self = *self - rhs;
    }
}

impl<T: Word> core::ops::MulAssign for Nimber<T> {
    fn mul_assign(&mut self, rhs: Nimber<T>)
        ensures
            final(self)@ == nim_mul(old(self)@, rhs@, T::level()),
    {
        *self = *self * rhs;
    }
}

impl<T: Word> Default for Nimber<T> {
    /// Zero.
    fn default() -> (r: Nimber<T>)
        ensures
            r@ == 0,
    {
        proof {
            T::lemma_level();
            lemma_xor_facts(0, 0, 0, bits(T::level()));
        }
        Nimber { x: T::narrow(0) }
    }
}

impl<T: Word> core::ops::BitXor for Nimber<T> {
    type Output = Nimber<T>;

    /// `^` on the words.
    fn bitxor(self, rhs: Nimber<T>) -> (r: Nimber<T>)
        ensures
            r@ == self@ ^ rhs@,
    {
        let a = self.x.widen();
        let b = rhs.x.widen();
        proof {
            T::lemma_level();
            lemma_xor_fits(a, b, T::level());
        }
        Nimber { x: T::narrow(a ^ b) }
    }
}

impl<T: Word> vstd::std_specs::ops::BitXorSpecImpl for Nimber<T> {
    open spec fn obeys_bitxor_spec() -> bool {
        true
    }

    open spec fn bitxor_req(self, rhs: Nimber<T>) -> bool {
        true
    }

    closed spec fn bitxor_spec(self, rhs: Nimber<T>) -> Nimber<T> {
        Nimber { x: T::from_value(self@ ^ rhs@) }
    }
}

impl<T: Word> core::ops::BitAnd for Nimber<T> {
    type Output = Nimber<T>;

    /// `&` on the words.
    fn bitand(self, rhs: Nimber<T>) -> (r: Nimber<T>)
        ensures
            r@ == self@ & rhs@,
    {
        let a = self.x.widen();
        let b = rhs.x.widen();
        proof {
            T::lemma_level();
            lemma_or_fits(a, b, T::level());
        }
        Nimber { x: T::narrow(a & b) }
    }
}

impl<T: Word> vstd::std_specs::ops::BitAndSpecImpl for Nimber<T> {
    open spec fn obeys_bitand_spec() -> bool {
        true
    }

    open spec fn bitand_req(self, rhs: Nimber<T>) -> bool {
        true
    }

    closed spec fn bitand_spec(self, rhs: Nimber<T>) -> Nimber<T> {
        Nimber { x: T::from_value(self@ & rhs@) }
    }
}

impl<T: Word> core::ops::BitOr for Nimber<T> {
    type Output = Nimber<T>;

    /// `|` on the words.
    fn bitor(self, rhs: Nimber<T>) -> (r: Nimber<T>)
        ensures
            r@ == self@ | rhs@,
    {
        let a = self.x.widen();
        let b = rhs.x.widen();
        proof {
            T::lemma_level();
            lemma_or_fits(a, b, T::level());
        }
        Nimber { x: T::narrow(a | b) }
    }
}

impl<T: Word> vstd::std_specs::ops::BitOrSpecImpl for Nimber<T> {
    open spec fn obeys_bitor_spec() -> bool {
        true
    }

    open spec fn bitor_req(self, rhs: Nimber<T>) -> bool {
        true
    }

    closed spec fn bitor_spec(self, rhs: Nimber<T>) -> Nimber<T> {
        Nimber { x: T::from_value(self@ | rhs@) }
    }
}

} // verus!
