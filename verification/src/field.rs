//! Commutative rings the prover computes in, and the algebra that follows from their laws.

use vstd::prelude::*;

verus! {

/// A commutative ring with the operations the prover needs.
///
/// Every result of an operation is `valid`, that is, in canonical form: two valid elements are
/// the same ring element exactly when they are equal as values.
pub trait Field: Copy {
    /// The element is in canonical form.
    spec fn valid(self) -> bool;

    spec fn zero_spec() -> Self;

    spec fn one_spec() -> Self;

    spec fn plus_spec(self, other: Self) -> Self;

    spec fn minus_spec(self, other: Self) -> Self;

    spec fn times_spec(self, other: Self) -> Self;

    fn zero() -> (r: Self)
        ensures
            r == Self::zero_spec(),
    ;

    fn one() -> (r: Self)
        ensures
            r == Self::one_spec(),
    ;

    fn plus(self, other: Self) -> (r: Self)
        ensures
            r == self.plus_spec(other),
    ;

    fn minus(self, other: Self) -> (r: Self)
        ensures
            r == self.minus_spec(other),
    ;

    fn times(self, other: Self) -> (r: Self)
        ensures
            r == self.times_spec(other),
    ;

    proof fn law_closed(a: Self, b: Self)
        ensures
            Self::zero_spec().valid(),
            Self::one_spec().valid(),
            a.plus_spec(b).valid(),
            a.minus_spec(b).valid(),
            a.times_spec(b).valid(),
    ;

    proof fn law_plus_commutes(a: Self, b: Self)
        ensures
            a.plus_spec(b) == b.plus_spec(a),
    ;

    proof fn law_plus_associates(a: Self, b: Self, c: Self)
        ensures
            a.plus_spec(b).plus_spec(c) == a.plus_spec(b.plus_spec(c)),
    ;

    proof fn law_plus_zero(a: Self)
        requires
            a.valid(),
        ensures
            a.plus_spec(Self::zero_spec()) == a,
    ;

    proof fn law_minus(a: Self, b: Self)
        requires
            a.valid(),
        ensures
            a.minus_spec(b).plus_spec(b) == a,
    ;

    proof fn law_times_commutes(a: Self, b: Self)
        ensures
            a.times_spec(b) == b.times_spec(a),
    ;

    proof fn law_times_associates(a: Self, b: Self, c: Self)
        ensures
            a.times_spec(b).times_spec(c) == a.times_spec(b.times_spec(c)),
    ;

    proof fn law_times_distributes(a: Self, b: Self, c: Self)
        ensures
            a.times_spec(b.plus_spec(c)) == a.times_spec(b).plus_spec(a.times_spec(c)),
    ;

    proof fn law_times_one(a: Self)
        requires
            a.valid(),
        ensures
            a.times_spec(Self::one_spec()) == a,
    ;
}

/// Equal sums with a common right summand have equal left summands.
pub proof fn lemma_plus_cancels<E: Field>(a: E, b: E, c: E)
    requires
        a.valid(),
        b.valid(),
        a.plus_spec(c) == b.plus_spec(c),
    ensures
        a == b,
{
    let zero = E::zero_spec();
    let n = zero.minus_spec(c);
    E::law_closed(zero, zero);
    E::law_minus(zero, c);
    E::law_plus_commutes(n, c);
    E::law_plus_associates(a, c, n);
    E::law_plus_associates(b, c, n);
    E::law_plus_zero(a);
    E::law_plus_zero(b);
}

/// A sum minus its right summand is the left summand.
pub proof fn lemma_plus_minus<E: Field>(a: E, b: E)
    requires
        a.valid(),
    ensures
        a.plus_spec(b).minus_spec(b) == a,
{
    E::law_closed(a, b);
    E::law_closed(a.plus_spec(b), b);
    E::law_minus(a.plus_spec(b), b);
    lemma_plus_cancels(a.plus_spec(b).minus_spec(b), a, b);
}

/// Zero absorbs products.
pub proof fn lemma_times_zero<E: Field>(a: E)
    ensures
        a.times_spec(E::zero_spec()) == E::zero_spec(),
        E::zero_spec().times_spec(a) == E::zero_spec(),
{
    let zero = E::zero_spec();
    let x = a.times_spec(zero);
    E::law_closed(a, zero);
    E::law_closed(zero, zero);
    E::law_plus_zero(zero);
    E::law_times_distributes(a, zero, zero);
    E::law_plus_zero(x);
    E::law_plus_commutes(zero, x);
    lemma_plus_cancels(x, zero, x);
    E::law_times_commutes(a, zero);
}

/// Products distribute over sums on the left.
pub proof fn lemma_times_distributes_left<E: Field>(a: E, b: E, c: E)
    ensures
        a.plus_spec(b).times_spec(c) == a.times_spec(c).plus_spec(b.times_spec(c)),
{
    E::law_times_commutes(a.plus_spec(b), c);
    E::law_times_distributes(c, a, b);
    E::law_times_commutes(c, a);
    E::law_times_commutes(c, b);
}

/// The inner summands of two sums can be exchanged.
pub proof fn lemma_plus_exchange<E: Field>(a: E, b: E, c: E, d: E)
    ensures
        a.plus_spec(b).plus_spec(c.plus_spec(d)) == a.plus_spec(c).plus_spec(b.plus_spec(d)),
{
    E::law_plus_associates(a, b, c.plus_spec(d));
    E::law_plus_associates(b, c, d);
    E::law_plus_commutes(b, c);
    E::law_plus_associates(c, b, d);
    E::law_plus_associates(a, c, b.plus_spec(d));
}

} // verus!
