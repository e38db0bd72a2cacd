//! The algebraic laws of the nimber field, stated over the views of
//! [`Nimber`] that the operations' contracts use.
use vstd::prelude::*;
use crate::field::{
    fits, lemma_mul_assoc, lemma_mul_comm, lemma_mul_distrib, lemma_mul_fits, lemma_mul_level,
    lemma_mul_one, lemma_square_injective, lemma_xor_facts, nim_mul,
};
use crate::nimber::{Nimber, Word};

verus! {

/// Addition (XOR) makes the nimbers an abelian group in which every element
/// is its own inverse: `a + a == 0`, `a + 0 == a`, `a + b == b + a` and
/// `(a + b) + c == a + (b + c)`.
pub proof fn law_add_group<T: Word>(a: Nimber<T>, b: Nimber<T>, c: Nimber<T>)
    ensures
        a@ ^ a@ == 0,
        a@ ^ 0 == a@,
        a@ ^ b@ == b@ ^ a@,
        (a@ ^ b@) ^ c@ == a@ ^ (b@ ^ c@),
{
    lemma_xor_facts(a@, b@, c@, 0);
}

/// The product of two nimbers of a width is again of that width.
pub proof fn law_mul_closed<T: Word>(a: Nimber<T>, b: Nimber<T>)
    ensures
        fits(nim_mul(a@, b@, T::level()), T::level()),
{
    a.lemma_view_fits();
    b.lemma_view_fits();
    lemma_mul_fits(a@, b@, T::level());
}

/// One is the multiplicative identity: `a * 1 == a`.
pub proof fn law_mul_one<T: Word>(a: Nimber<T>)
    ensures
        nim_mul(a@, 1, T::level()) == a@,
{
    a.lemma_view_fits();
    lemma_mul_one(a@, T::level());
}

/// Multiplication is commutative and associative:
/// `a * b == b * a` and `(a * b) * c == a * (b * c)`.
pub proof fn law_mul_comm_assoc<T: Word>(a: Nimber<T>, b: Nimber<T>, c: Nimber<T>)
    ensures
        nim_mul(a@, b@, T::level()) == nim_mul(b@, a@, T::level()),
        nim_mul(nim_mul(a@, b@, T::level()), c@, T::level()) == nim_mul(
            a@,
            nim_mul(b@, c@, T::level()),
            T::level(),
        ),
{
    a.lemma_view_fits();
    b.lemma_view_fits();
    c.lemma_view_fits();
    lemma_mul_comm(a@, b@, T::level());
    lemma_mul_assoc(a@, b@, c@, T::level());
}

/// Multiplication distributes over addition: `a * (b + c) == a * b + a * c`.
pub proof fn law_mul_distrib<T: Word>(a: Nimber<T>, b: Nimber<T>, c: Nimber<T>)
    ensures
        nim_mul(a@, b@ ^ c@, T::level()) == nim_mul(a@, b@, T::level()) ^ nim_mul(
            a@,
            c@,
            T::level(),
        ),
{
    a.lemma_view_fits();
    b.lemma_view_fits();
    c.lemma_view_fits();
    lemma_mul_distrib(a@, b@, c@, T::level());
}

/// Square roots are unique, so the square root of `a * a` is `a`.
pub proof fn law_sqrt_of_square<T: Word>(a: Nimber<T>, r: Nimber<T>)
    requires
        nim_mul(r@, r@, T::level()) == nim_mul(a@, a@, T::level()),
    ensures
        r@ == a@,
{
    a.lemma_view_fits();
    r.lemma_view_fits();
    lemma_square_injective(r@, a@, T::level());
}

/// Widths agree: two values held in word types `T` and `U` have the same
/// product in both, since the smaller field is a subfield of the larger.
pub proof fn law_cross_width<T: Word, U: Word>(a: Nimber<T>, b: Nimber<T>, c: Nimber<U>, d: Nimber<U>)
    requires
        a@ == c@,
        b@ == d@,
    ensures
        nim_mul(a@, b@, T::level()) == nim_mul(c@, d@, U::level()),
{
    a.lemma_view_fits();
    b.lemma_view_fits();
    c.lemma_view_fits();
    d.lemma_view_fits();
    if T::level() <= U::level() {
        lemma_mul_level(a@, b@, T::level(), U::level());
    } else {
        lemma_mul_level(c@, d@, U::level(), T::level());
    }
}

} // verus!
