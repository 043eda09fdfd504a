//! The Mersenne prime field `M31`, its cubic extension, and sixteen-lane packs of ring elements.

use vstd::arithmetic::div_mod::*;
use vstd::arithmetic::mul::*;
use vstd::prelude::*;

use crate::field::Field;

verus! {

/// The modulus `2^31 - 1`.
pub const M31_MODULUS: u32 = 2147483647;

/// An integer modulo `2^31 - 1`.
#[derive(Clone, Copy, Debug, PartialEq, Eq)]
pub struct M31 {
    pub v: u32,
}

/// The canonical element congruent to `x`.
pub open spec fn m31_of(x: int) -> M31 {
    M31 { v: (x % (M31_MODULUS as int)) as u32 }
}

impl M31 {
    /// Reduces any word to its canonical element.
    pub fn new(word: u32) -> (r: M31)
        ensures
            r == m31_of(word as int),
    {
        M31 { v: word % M31_MODULUS }
    }
}

proof fn lemma_m31_of(x: int)
    ensures
        m31_of(x).v == x % (M31_MODULUS as int),
        m31_of(x).v < M31_MODULUS,
{
    lemma_mod_bound(x, M31_MODULUS as int);
}

impl Field for M31 {
    open spec fn valid(self) -> bool {
        self.v < M31_MODULUS
    }

    open spec fn zero_spec() -> M31 {
        M31 { v: 0 }
    }

    open spec fn one_spec() -> M31 {
        M31 { v: 1 }
    }

    open spec fn plus_spec(self, other: M31) -> M31 {
        m31_of(self.v + other.v)
    }

    open spec fn minus_spec(self, other: M31) -> M31 {
        m31_of(self.v - other.v)
    }

    open spec fn times_spec(self, other: M31) -> M31 {
        m31_of(self.v * other.v)
    }

    fn zero() -> (r: M31) {
        M31 { v: 0 }
    }

    fn one() -> (r: M31) {
        M31 { v: 1 }
    }

    fn plus(self, other: M31) -> (r: M31) {
        let sum: u64 = (self.v as u64 + other.v as u64) % (M31_MODULUS as u64);
        M31 { v: sum as u32 }
    }

    fn minus(self, other: M31) -> (r: M31) {
        let lifted: u64 = self.v as u64 + 3 * (M31_MODULUS as u64) - other.v as u64;
        proof {
            lemma_mod_multiples_vanish(3, self.v - other.v, M31_MODULUS as int);
        }
        let diff: u64 = lifted % (M31_MODULUS as u64);
        M31 { v: diff as u32 }
    }

    fn times(self, other: M31) -> (r: M31) {
        proof {
            lemma_mul_upper_bound(
                self.v as int,
                u32::MAX as int,
                other.v as int,
                u32::MAX as int,
            );
            lemma_mul_nonnegative(self.v as int, other.v as int);
        }
        let product: u64 = ((self.v as u64) * (other.v as u64)) % (M31_MODULUS as u64);
        M31 { v: product as u32 }
    }

    proof fn law_closed(a: M31, b: M31) {
        lemma_m31_of(a.v + b.v);
        lemma_m31_of(a.v - b.v);
        lemma_m31_of(a.v * b.v);
    }

    proof fn law_plus_commutes(a: M31, b: M31) {
    }

    proof fn law_plus_associates(a: M31, b: M31, c: M31) {
        let p = M31_MODULUS as int;
        lemma_m31_of(a.v + b.v);
        lemma_m31_of(b.v + c.v);
        lemma_add_mod_noop_right(c.v as int, a.v + b.v, p);
        lemma_add_mod_noop_right(a.v as int, b.v + c.v, p);
    }

    proof fn law_plus_zero(a: M31) {
        lemma_small_mod(a.v as nat, M31_MODULUS as nat);
    }

    proof fn law_minus(a: M31, b: M31) {
        let p = M31_MODULUS as int;
        lemma_m31_of(a.v - b.v);
        lemma_add_mod_noop_right(b.v as int, a.v - b.v, p);
        lemma_small_mod(a.v as nat, M31_MODULUS as nat);
    }

    proof fn law_times_commutes(a: M31, b: M31) {
        lemma_mul_is_commutative(a.v as int, b.v as int);
    }

    proof fn law_times_associates(a: M31, b: M31, c: M31) {
        let p = M31_MODULUS as int;
        lemma_m31_of(a.v * b.v);
        lemma_m31_of(b.v * c.v);
        lemma_mul_mod_noop_left(a.v * b.v, c.v as int, p);
        lemma_mul_mod_noop_right(a.v as int, b.v * c.v, p);
        lemma_mul_is_associative(a.v as int, b.v as int, c.v as int);
    }

    proof fn law_times_distributes(a: M31, b: M31, c: M31) {
        let p = M31_MODULUS as int;
        lemma_m31_of(b.v + c.v);
        lemma_m31_of(a.v * b.v);
        lemma_m31_of(a.v * c.v);
        lemma_mul_mod_noop_right(a.v as int, b.v + c.v, p);
        lemma_mul_is_distributive_add(a.v as int, b.v as int, c.v as int);
        lemma_add_mod_noop(a.v * b.v, a.v * c.v, p);
    }

    proof fn law_times_one(a: M31) {
        lemma_small_mod(a.v as nat, M31_MODULUS as nat);
    }
}

/// An element `c0 + c1 X + c2 X^2` of the cubic extension of `M31` in which `X^3 = 5`.
#[derive(Clone, Copy, Debug, PartialEq, Eq)]
pub struct M31Ext3 {
    pub c0: M31,
    pub c1: M31,
    pub c2: M31,
}

/// Coefficients of a product in the extension, before reduction modulo the prime.
pub open spec fn ext3_product(a: (int, int, int), b: (int, int, int)) -> (int, int, int) {
    (
        a.0 * b.0 + 5 * (a.1 * b.2 + a.2 * b.1),
        a.0 * b.1 + a.1 * b.0 + 5 * (a.2 * b.2),
        a.0 * b.2 + a.1 * b.1 + a.2 * b.0,
    )
}

/// The extension element whose coefficients are congruent to `x`.
pub open spec fn ext3_of(x: (int, int, int)) -> M31Ext3 {
    M31Ext3 { c0: m31_of(x.0), c1: m31_of(x.1), c2: m31_of(x.2) }
}

impl M31Ext3 {
    /// The coefficients as integers.
    pub open spec fn coefficients(self) -> (int, int, int) {
        (self.c0.v as int, self.c1.v as int, self.c2.v as int)
    }
}

proof fn lemma_ext3_product_commutes(a: (int, int, int), b: (int, int, int))
    ensures
        ext3_product(a, b) == ext3_product(b, a),
{
    assert(a.0 * b.0 + 5 * (a.1 * b.2 + a.2 * b.1) == b.0 * a.0 + 5 * (b.1 * a.2 + b.2 * a.1))
        by (nonlinear_arith);
    assert(a.0 * b.1 + a.1 * b.0 + 5 * (a.2 * b.2) == b.0 * a.1 + b.1 * a.0 + 5 * (b.2 * a.2))
        by (nonlinear_arith);
    assert(a.0 * b.2 + a.1 * b.1 + a.2 * b.0 == b.0 * a.2 + b.1 * a.1 + b.2 * a.0)
        by (nonlinear_arith);
}

proof fn lemma_triple_rotates(a: int, b: int, c: int)
    ensures
        a * b * c == b * c * a,
{
    assert(a * b * c == b * c * a) by (nonlinear_arith);
}

proof fn lemma_triples_rotate(a: (int, int, int), b: (int, int, int), c: int)
    ensures
        a.0 * b.0 * c == b.0 * c * a.0,
        a.0 * b.1 * c == b.1 * c * a.0,
        a.0 * b.2 * c == b.2 * c * a.0,
        a.1 * b.0 * c == b.0 * c * a.1,
        a.1 * b.1 * c == b.1 * c * a.1,
        a.1 * b.2 * c == b.2 * c * a.1,
        a.2 * b.0 * c == b.0 * c * a.2,
        a.2 * b.1 * c == b.1 * c * a.2,
        a.2 * b.2 * c == b.2 * c * a.2,
{
    lemma_triple_rotates(a.0, b.0, c);
    lemma_triple_rotates(a.0, b.1, c);
    lemma_triple_rotates(a.0, b.2, c);
    lemma_triple_rotates(a.1, b.0, c);
    lemma_triple_rotates(a.1, b.1, c);
    lemma_triple_rotates(a.1, b.2, c);
    lemma_triple_rotates(a.2, b.0, c);
    lemma_triple_rotates(a.2, b.1, c);
    lemma_triple_rotates(a.2, b.2, c);
}

/// Each coefficient of a product, multiplied by one more factor, in terms of monomials.
proof fn lemma_ext3_product_expands(a: (int, int, int), b: (int, int, int), c: int)
    ensures
        ext3_product(a, b).0 * c == a.0 * b.0 * c + 5 * (a.1 * b.2 * c) + 5 * (a.2 * b.1 * c),
        ext3_product(a, b).1 * c == a.0 * b.1 * c + a.1 * b.0 * c + 5 * (a.2 * b.2 * c),
        ext3_product(a, b).2 * c == a.0 * b.2 * c + a.1 * b.1 * c + a.2 * b.0 * c,
{
    let (x, y, z) = (a.0 * b.0, a.1 * b.2, a.2 * b.1);
    assert((x + 5 * (y + z)) * c == x * c + 5 * (y * c) + 5 * (z * c)) by (nonlinear_arith);
    let (x, y, z) = (a.0 * b.1, a.1 * b.0, a.2 * b.2);
    assert((x + y + 5 * z) * c == x * c + y * c + 5 * (z * c)) by (nonlinear_arith);
    let (x, y, z) = (a.0 * b.2, a.1 * b.1, a.2 * b.0);
    assert((x + y + z) * c == x * c + y * c + z * c) by (nonlinear_arith);
}

/// Rotating three factors leaves the unreduced product unchanged.
proof fn lemma_ext3_product_rotates(a: (int, int, int), b: (int, int, int), c: (int, int, int))
    ensures
        ext3_product(ext3_product(a, b), c) == ext3_product(ext3_product(b, c), a),
{
    lemma_ext3_product_expands(a, b, c.0);
    lemma_ext3_product_expands(a, b, c.1);
    lemma_ext3_product_expands(a, b, c.2);
    lemma_ext3_product_expands(b, c, a.0);
    lemma_ext3_product_expands(b, c, a.1);
    lemma_ext3_product_expands(b, c, a.2);
    lemma_triples_rotate(a, b, c.0);
    lemma_triples_rotate(a, b, c.1);
    lemma_triples_rotate(a, b, c.2);
}

proof fn lemma_ext3_product_distributes(a: (int, int, int), b: (int, int, int), c: (int, int, int))
    ensures
        ext3_product((b.0 + c.0, b.1 + c.1, b.2 + c.2), a) == (
            ext3_product(b, a).0 + ext3_product(c, a).0,
            ext3_product(b, a).1 + ext3_product(c, a).1,
            ext3_product(b, a).2 + ext3_product(c, a).2,
        ),
{
    let (a0, a1, a2) = a;
    let (b0, b1, b2) = b;
    let (c0, c1, c2) = c;
    assert((b0 + c0) * a0 + 5 * ((b1 + c1) * a2 + (b2 + c2) * a1) == b0 * a0 + 5 * (b1 * a2 + b2
        * a1) + (c0 * a0 + 5 * (c1 * a2 + c2 * a1))) by (nonlinear_arith);
    assert((b0 + c0) * a1 + (b1 + c1) * a0 + 5 * ((b2 + c2) * a2) == b0 * a1 + b1 * a0 + 5 * (b2
        * a2) + (c0 * a1 + c1 * a0 + 5 * (c2 * a2))) by (nonlinear_arith);
    assert((b0 + c0) * a2 + (b1 + c1) * a1 + (b2 + c2) * a0 == b0 * a2 + b1 * a1 + b2 * a0 + (c0
        * a2 + c1 * a1 + c2 * a0)) by (nonlinear_arith);
}

/// A three-term combination may have its first factors reduced modulo the prime.
proof fn lemma_combination_reduces(x: (int, int, int), u: int, v: int, w: int)
    ensures
        ({
            let p = M31_MODULUS as int;
            ((x.0 % p) * u + (x.1 % p) * v + (x.2 % p) * w) % p == (x.0 * u + x.1 * v + x.2 * w) % p
        }),
{
    let p = M31_MODULUS as int;
    let (q0, q1, q2) = (x.0 / p, x.1 / p, x.2 / p);
    let (r0, r1, r2) = (x.0 % p, x.1 % p, x.2 % p);
    lemma_fundamental_div_mod(x.0, p);
    lemma_fundamental_div_mod(x.1, p);
    lemma_fundamental_div_mod(x.2, p);
    let k = q0 * u + q1 * v + q2 * w;
    assert((p * q0 + r0) * u == p * (q0 * u) + r0 * u) by (nonlinear_arith);
    assert((p * q1 + r1) * v == p * (q1 * v) + r1 * v) by (nonlinear_arith);
    assert((p * q2 + r2) * w == p * (q2 * w) + r2 * w) by (nonlinear_arith);
    lemma_mul_is_distributive_add(p, q0 * u + q1 * v, q2 * w);
    lemma_mul_is_distributive_add(p, q0 * u, q1 * v);
    lemma_mod_multiples_vanish(k, r0 * u + r1 * v + r2 * w, p);
}

/// The left factor of a product may be reduced first.
proof fn lemma_ext3_product_reduces(x: (int, int, int), b: (int, int, int))
    ensures
        ext3_of(ext3_product(ext3_of(x).coefficients(), b)) == ext3_of(ext3_product(x, b)),
{
    let p = M31_MODULUS as int;
    lemma_m31_of(x.0);
    lemma_m31_of(x.1);
    lemma_m31_of(x.2);
    let (r0, r1, r2) = (x.0 % p, x.1 % p, x.2 % p);
    let (x0, x1, x2) = x;
    let (b0, b1, b2) = b;
    lemma_combination_reduces(x, b0, 5 * b2, 5 * b1);
    lemma_combination_reduces(x, b1, b0, 5 * b2);
    lemma_combination_reduces(x, b2, b1, b0);
    assert(r1 * (5 * b2) + r2 * (5 * b1) == 5 * (r1 * b2 + r2 * b1)) by (nonlinear_arith);
    assert(x1 * (5 * b2) + x2 * (5 * b1) == 5 * (x1 * b2 + x2 * b1)) by (nonlinear_arith);
    assert(r2 * (5 * b2) == 5 * (r2 * b2)) by (nonlinear_arith);
    assert(x2 * (5 * b2) == 5 * (x2 * b2)) by (nonlinear_arith);
}

/// Reduction commutes with sums.
proof fn lemma_m31_of_sum(x: int, y: int)
    ensures
        m31_of(x + y) == m31_of(x).plus_spec(m31_of(y)),
{
    lemma_m31_of(x);
    lemma_m31_of(y);
    lemma_add_mod_noop(x, y, M31_MODULUS as int);
}

impl Field for M31Ext3 {
    open spec fn valid(self) -> bool {
        self.c0.valid() && self.c1.valid() && self.c2.valid()
    }

    open spec fn zero_spec() -> M31Ext3 {
        M31Ext3 { c0: M31 { v: 0 }, c1: M31 { v: 0 }, c2: M31 { v: 0 } }
    }

    open spec fn one_spec() -> M31Ext3 {
        M31Ext3 { c0: M31 { v: 1 }, c1: M31 { v: 0 }, c2: M31 { v: 0 } }
    }

    open spec fn plus_spec(self, other: M31Ext3) -> M31Ext3 {
        M31Ext3 {
            c0: self.c0.plus_spec(other.c0),
            c1: self.c1.plus_spec(other.c1),
            c2: self.c2.plus_spec(other.c2),
        }
    }

    open spec fn minus_spec(self, other: M31Ext3) -> M31Ext3 {
        M31Ext3 {
            c0: self.c0.minus_spec(other.c0),
            c1: self.c1.minus_spec(other.c1),
            c2: self.c2.minus_spec(other.c2),
        }
    }

    open spec fn times_spec(self, other: M31Ext3) -> M31Ext3 {
        ext3_of(ext3_product(self.coefficients(), other.coefficients()))
    }

    fn zero() -> (r: M31Ext3) {
        M31Ext3 { c0: M31 { v: 0 }, c1: M31 { v: 0 }, c2: M31 { v: 0 } }
    }

    fn one() -> (r: M31Ext3) {
        M31Ext3 { c0: M31 { v: 1 }, c1: M31 { v: 0 }, c2: M31 { v: 0 } }
    }

    fn plus(self, other: M31Ext3) -> (r: M31Ext3) {
        M31Ext3 {
            c0: self.c0.plus(other.c0),
            c1: self.c1.plus(other.c1),
            c2: self.c2.plus(other.c2),
        }
    }

    fn minus(self, other: M31Ext3) -> (r: M31Ext3) {
        M31Ext3 {
            c0: self.c0.minus(other.c0),
            c1: self.c1.minus(other.c1),
            c2: self.c2.minus(other.c2),
        }
    }

    fn times(self, other: M31Ext3) -> (r: M31Ext3) {
        let p: u128 = M31_MODULUS as u128;
        let c0: u128 = (product(self.c0, other.c0) + 5 * (product(self.c1, other.c2) + product(
            self.c2,
            other.c1,
        ))) % p;
        let c1: u128 = (product(self.c0, other.c1) + product(self.c1, other.c0) + 5 * product(
            self.c2,
            other.c2,
        )) % p;
        let c2: u128 = (product(self.c0, other.c2) + product(self.c1, other.c1) + product(
            self.c2,
            other.c0,
        )) % p;
        M31Ext3 { c0: M31 { v: c0 as u32 }, c1: M31 { v: c1 as u32 }, c2: M31 { v: c2 as u32 } }
    }

    proof fn law_closed(a: M31Ext3, b: M31Ext3) {
        M31::law_closed(a.c0, b.c0);
        M31::law_closed(a.c1, b.c1);
        M31::law_closed(a.c2, b.c2);
        let x = ext3_product(a.coefficients(), b.coefficients());
        lemma_m31_of(x.0);
        lemma_m31_of(x.1);
        lemma_m31_of(x.2);
    }

    proof fn law_plus_commutes(a: M31Ext3, b: M31Ext3) {
    }

    proof fn law_plus_associates(a: M31Ext3, b: M31Ext3, c: M31Ext3) {
        M31::law_plus_associates(a.c0, b.c0, c.c0);
        M31::law_plus_associates(a.c1, b.c1, c.c1);
        M31::law_plus_associates(a.c2, b.c2, c.c2);
    }

    proof fn law_plus_zero(a: M31Ext3) {
        M31::law_plus_zero(a.c0);
        M31::law_plus_zero(a.c1);
        M31::law_plus_zero(a.c2);
    }

    proof fn law_minus(a: M31Ext3, b: M31Ext3) {
        M31::law_minus(a.c0, b.c0);
        M31::law_minus(a.c1, b.c1);
        M31::law_minus(a.c2, b.c2);
    }

    proof fn law_times_commutes(a: M31Ext3, b: M31Ext3) {
        lemma_ext3_product_commutes(a.coefficients(), b.coefficients());
    }

    proof fn law_times_associates(a: M31Ext3, b: M31Ext3, c: M31Ext3) {
        let (x, y, z) = (a.coefficients(), b.coefficients(), c.coefficients());
        lemma_ext3_product_reduces(ext3_product(x, y), z);
        lemma_ext3_product_reduces(ext3_product(y, z), x);
        lemma_ext3_product_rotates(x, y, z);
        M31Ext3::law_times_commutes(a, b.times_spec(c));
    }

    proof fn law_times_distributes(a: M31Ext3, b: M31Ext3, c: M31Ext3) {
        let (x, y, z) = (a.coefficients(), b.coefficients(), c.coefficients());
        M31Ext3::law_times_commutes(a, b.plus_spec(c));
        M31Ext3::law_times_commutes(a, b);
        M31Ext3::law_times_commutes(a, c);
        let s = (y.0 + z.0, y.1 + z.1, y.2 + z.2);
        assert(b.plus_spec(c) == ext3_of(s));
        lemma_ext3_product_reduces(s, x);
        lemma_ext3_product_distributes(x, y, z);
        let (l, r) = (ext3_product(y, x), ext3_product(z, x));
        lemma_m31_of_sum(l.0, r.0);
        lemma_m31_of_sum(l.1, r.1);
        lemma_m31_of_sum(l.2, r.2);
    }

    proof fn law_times_one(a: M31Ext3) {
        lemma_small_mod(a.c0.v as nat, M31_MODULUS as nat);
        lemma_small_mod(a.c1.v as nat, M31_MODULUS as nat);
        lemma_small_mod(a.c2.v as nat, M31_MODULUS as nat);
    }
}

/// The unreduced product of two base elements.
fn product(a: M31, b: M31) -> (r: u128)
    ensures
        r == a.v * b.v,
        r <= 0xffff_ffff * 0xffff_ffff,
{
    proof {
        lemma_mul_upper_bound(a.v as int, u32::MAX as int, b.v as int, u32::MAX as int);
        lemma_mul_nonnegative(a.v as int, b.v as int);
    }
    (a.v as u128) * (b.v as u128)
}

/// Sixteen elements, one per lane.
#[derive(Debug, PartialEq, Eq)]
pub struct Pack<T> {
    pub lanes: [T; 16],
}

impl<T: Copy> Clone for Pack<T> {
    fn clone(&self) -> (r: Pack<T>)
        ensures
            r == *self,
    {
        *self
    }
}

impl<T: Copy> Copy for Pack<T> {

}

/// The pack whose lanes are the values of `f` at the lane numbers.
pub open spec fn pack_of<T>(f: spec_fn(int) -> T) -> Pack<T> {
    Pack {
        lanes: [
            f(0),
            f(1),
            f(2),
            f(3),
            f(4),
            f(5),
            f(6),
            f(7),
            f(8),
            f(9),
            f(10),
            f(11),
            f(12),
            f(13),
            f(14),
            f(15),
        ],
    }
}

/// Packs with equal lanes are equal.
pub proof fn lemma_pack_equal<T>(a: Pack<T>, b: Pack<T>)
    requires
        forall|i: int| 0 <= i < 16 ==> #[trigger] a.lanes[i] == b.lanes[i],
    ensures
        a == b,
{
    assert(a.lanes =~= b.lanes);
}

/// Operations on packs work lane by lane.
impl<T: Field> Field for Pack<T> {
    open spec fn valid(self) -> bool {
        forall|i: int| 0 <= i < 16 ==> (#[trigger] self.lanes[i]).valid()
    }

    open spec fn zero_spec() -> Pack<T> {
        pack_of(|i: int| T::zero_spec())
    }

    open spec fn one_spec() -> Pack<T> {
        pack_of(|i: int| T::one_spec())
    }

    open spec fn plus_spec(self, other: Pack<T>) -> Pack<T> {
        pack_of(|i: int| self.lanes[i].plus_spec(other.lanes[i]))
    }

    open spec fn minus_spec(self, other: Pack<T>) -> Pack<T> {
        pack_of(|i: int| self.lanes[i].minus_spec(other.lanes[i]))
    }

    open spec fn times_spec(self, other: Pack<T>) -> Pack<T> {
        pack_of(|i: int| self.lanes[i].times_spec(other.lanes[i]))
    }

    fn zero() -> (r: Pack<T>) {
        let x = T::zero();
        let r = Pack { lanes: [x, x, x, x, x, x, x, x, x, x, x, x, x, x, x, x] };
        proof {
            lemma_pack_equal(r, Self::zero_spec());
        }
        r
    }

    fn one() -> (r: Pack<T>) {
        let x = T::one();
        let r = Pack { lanes: [x, x, x, x, x, x, x, x, x, x, x, x, x, x, x, x] };
        proof {
            lemma_pack_equal(r, Self::one_spec());
        }
        r
    }

    fn plus(self, other: Pack<T>) -> (r: Pack<T>) {
        let mut r = self;
        for k in 0..16usize
            invariant
                forall|i: int|
                    0 <= i < k ==> #[trigger] r.lanes[i] == self.lanes[i].plus_spec(other.lanes[i]),
                forall|i: int| k <= i < 16 ==> #[trigger] r.lanes[i] == self.lanes[i],
        {
            r.lanes[k] = self.lanes[k].plus(other.lanes[k]);
        }
        proof {
            lemma_pack_equal(r, self.plus_spec(other));
        }
        r
    }

    fn minus(self, other: Pack<T>) -> (r: Pack<T>) {
        let mut r = self;
        for k in 0..16usize
            invariant
                forall|i: int|
                    0 <= i < k ==> #[trigger] r.lanes[i] == self.lanes[i].minus_spec(
                        other.lanes[i],
                    ),
                forall|i: int| k <= i < 16 ==> #[trigger] r.lanes[i] == self.lanes[i],
        {
            r.lanes[k] = self.lanes[k].minus(other.lanes[k]);
        }
        proof {
            lemma_pack_equal(r, self.minus_spec(other));
        }
        r
    }

    fn times(self, other: Pack<T>) -> (r: Pack<T>) {
        let mut r = self;
        for k in 0..16usize
            invariant
                forall|i: int|
                    0 <= i < k ==> #[trigger] r.lanes[i] == self.lanes[i].times_spec(
                        other.lanes[i],
                    ),
                forall|i: int| k <= i < 16 ==> #[trigger] r.lanes[i] == self.lanes[i],
        {
            r.lanes[k] = self.lanes[k].times(other.lanes[k]);
        }
        proof {
            lemma_pack_equal(r, self.times_spec(other));
        }
        r
    }

    proof fn law_closed(a: Pack<T>, b: Pack<T>) {
        assert forall|i: int| 0 <= i < 16 implies (#[trigger] a.plus_spec(b).lanes[i]).valid() by {
            T::law_closed(a.lanes[i], b.lanes[i]);
        }
        assert forall|i: int| 0 <= i < 16 implies (#[trigger] a.minus_spec(b).lanes[i]).valid() by {
            T::law_closed(a.lanes[i], b.lanes[i]);
        }
        assert forall|i: int| 0 <= i < 16 implies (#[trigger] a.times_spec(b).lanes[i]).valid() by {
            T::law_closed(a.lanes[i], b.lanes[i]);
        }
        T::law_closed(a.lanes[0], b.lanes[0]);
    }

    proof fn law_plus_commutes(a: Pack<T>, b: Pack<T>) {
        let (l, r) = (a.plus_spec(b), b.plus_spec(a));
        assert forall|i: int| 0 <= i < 16 implies #[trigger] l.lanes[i] == r.lanes[i] by {
            T::law_plus_commutes(a.lanes[i], b.lanes[i]);
        }
        lemma_pack_equal(l, r);
    }

    proof fn law_plus_associates(a: Pack<T>, b: Pack<T>, c: Pack<T>) {
        let (l, r) = (a.plus_spec(b).plus_spec(c), a.plus_spec(b.plus_spec(c)));
        assert forall|i: int| 0 <= i < 16 implies #[trigger] l.lanes[i] == r.lanes[i] by {
            T::law_plus_associates(a.lanes[i], b.lanes[i], c.lanes[i]);
        }
        lemma_pack_equal(l, r);
    }

    proof fn law_plus_zero(a: Pack<T>) {
        let l = a.plus_spec(Self::zero_spec());
        assert forall|i: int| 0 <= i < 16 implies #[trigger] l.lanes[i] == a.lanes[i] by {
            T::law_plus_zero(a.lanes[i]);
        }
        lemma_pack_equal(l, a);
    }

    proof fn law_minus(a: Pack<T>, b: Pack<T>) {
        let l = a.minus_spec(b).plus_spec(b);
        assert forall|i: int| 0 <= i < 16 implies #[trigger] l.lanes[i] == a.lanes[i] by {
            T::law_minus(a.lanes[i], b.lanes[i]);
        }
        lemma_pack_equal(l, a);
    }

    proof fn law_times_commutes(a: Pack<T>, b: Pack<T>) {
        let (l, r) = (a.times_spec(b), b.times_spec(a));
        assert forall|i: int| 0 <= i < 16 implies #[trigger] l.lanes[i] == r.lanes[i] by {
            T::law_times_commutes(a.lanes[i], b.lanes[i]);
        }
        lemma_pack_equal(l, r);
    }

    proof fn law_times_associates(a: Pack<T>, b: Pack<T>, c: Pack<T>) {
        let (l, r) = (a.times_spec(b).times_spec(c), a.times_spec(b.times_spec(c)));
        assert forall|i: int| 0 <= i < 16 implies #[trigger] l.lanes[i] == r.lanes[i] by {
            T::law_times_associates(a.lanes[i], b.lanes[i], c.lanes[i]);
        }
        lemma_pack_equal(l, r);
    }

    proof fn law_times_distributes(a: Pack<T>, b: Pack<T>, c: Pack<T>) {
        let (l, r) = (a.times_spec(b.plus_spec(c)), a.times_spec(b).plus_spec(a.times_spec(c)));
        assert forall|i: int| 0 <= i < 16 implies #[trigger] l.lanes[i] == r.lanes[i] by {
            T::law_times_distributes(a.lanes[i], b.lanes[i], c.lanes[i]);
        }
        lemma_pack_equal(l, r);
    }

    proof fn law_times_one(a: Pack<T>) {
        let l = a.times_spec(Self::one_spec());
        assert forall|i: int| 0 <= i < 16 implies #[trigger] l.lanes[i] == a.lanes[i] by {
            T::law_times_one(a.lanes[i]);
        }
        lemma_pack_equal(l, a);
    }
}

/// The extension is made of the polynomials in a root of `x^3 = 5`: multiplying by the root moves
/// every coefficient up by one place, the last one to the front, five times; and multiplying by an
/// element of the base field multiplies every coefficient.
pub proof fn lemma_ext3_root(a: M31Ext3, s: M31)
    requires
        a.valid(),
    ensures
        ({
            let (zero, one) = (M31 { v: 0 }, M31 { v: 1 });
            let root = M31Ext3 { c0: zero, c1: one, c2: zero };
            let scalar = M31Ext3 { c0: s, c1: zero, c2: zero };
            let two = a.c2.plus_spec(a.c2);
            &&& root.times_spec(a) == (M31Ext3 {
                c0: two.plus_spec(two).plus_spec(a.c2),
                c1: a.c0,
                c2: a.c1,
            })
            &&& scalar.times_spec(a) == (M31Ext3 {
                c0: s.times_spec(a.c0),
                c1: s.times_spec(a.c1),
                c2: s.times_spec(a.c2),
            })
        }),
{
    let (zero, one) = (M31 { v: 0 }, M31 { v: 1 });
    let root = M31Ext3 { c0: zero, c1: one, c2: zero };
    let scalar = M31Ext3 { c0: s, c1: zero, c2: zero };
    let (x, y, z) = a.coefficients();
    let t = s.v as int;
    assert(ext3_product(root.coefficients(), (x, y, z)) == (5 * z, x, y));
    assert(ext3_product(scalar.coefficients(), (x, y, z)) == (t * x, t * y, t * z)) by {
        assert(0 * x == 0 && 0 * y == 0 && 0 * z == 0);
    }
    let c = a.c2;
    let two = c.plus_spec(c);
    lemma_m31_of_sum(z + z, z + z);
    lemma_m31_of_sum(4 * z, z);
    lemma_m31_of(x);
    lemma_m31_of(y);
    lemma_m31_of(z);
    assert(two.plus_spec(two).plus_spec(c) == m31_of(5 * z));
}

} // verus!
