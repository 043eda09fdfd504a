//! Over the extension of the Mersenne-31 field, a round's values determine its polynomial.

use vstd::arithmetic::div_mod::{
    lemma_add_mod_noop, lemma_add_mod_noop_right, lemma_mod_multiples_basic,
    lemma_mul_mod_noop_right,
};
use vstd::prelude::*;

use crate::algebra::copies;
use crate::chain::{is_through, leads_to, poly_at};
use crate::field::Field;
use crate::m31::{M31Ext3, M31_MODULUS};

verus! {

/// One of the three coefficients of an element.
spec fn part(x: M31Ext3, a: int) -> int {
    if a == 0 {
        x.c0.v as int
    } else if a == 1 {
        x.c1.v as int
    } else {
        x.c2.v as int
    }
}

/// The `k`-th coefficient of a list, and zero past its end.
spec fn entry(c: Seq<M31Ext3>, k: int, a: int) -> int {
    if k < c.len() {
        part(c[k], a)
    } else {
        0
    }
}

/// A polynomial over the integers.
spec fn at_int(c: Seq<M31Ext3>, a: int, k: int) -> int
    decreases c.len(),
{
    if c.len() == 0 {
        0
    } else {
        part(c[0], a) + k * at_int(c.drop_first(), a, k)
    }
}

/// The element of a small integer.
proof fn lemma_small(k: nat)
    requires
        k < M31_MODULUS,
    ensures
        copies(k, M31Ext3::one_spec()).coefficients() == (k as int, 0int, 0int),
    decreases k,
{
    if k > 0 {
        lemma_small((k - 1) as nat);
    }
}

/// At a small integer a polynomial takes, part by part, the value that it has over the integers.
proof fn lemma_poly_parts(c: Seq<M31Ext3>, a: int, k: nat)
    requires
        0 <= a < 3,
        k < M31_MODULUS,
    ensures
        part(poly_at(c, copies(k, M31Ext3::one_spec())), a) == at_int(c, a, k as int)
            % M31_MODULUS as int,
    decreases c.len(),
{
    let p = M31_MODULUS as int;
    let x = copies(k, M31Ext3::one_spec());
    if c.len() > 0 {
        let rest = poly_at(c.drop_first(), x);
        lemma_poly_parts(c.drop_first(), a, k);
        lemma_small(k);
        let (b0, b1, b2) = rest.coefficients();
        let j = k as int;
        assert(j * b0 + 5 * (0 * b2 + 0 * b1) == j * b0 && j * b1 + 0 * b0 + 5 * (0 * b2) == j * b1
            && j * b2 + 0 * b1 + 0 * b0 == j * b2) by (nonlinear_arith);
        assert(part(x.times_spec(rest), a) == (j * part(rest, a)) % p);
        let whole = at_int(c.drop_first(), a, j);
        lemma_mul_mod_noop_right(j, whole, p);
        lemma_add_mod_noop_right(part(c[0], a), j * whole, p);
        assert(part(poly_at(c, x), a) == (part(c[0], a) + (j * whole) % p) % p);
    }
}

/// The polynomial over the integers, written out.
proof fn lemma_at_int(c: Seq<M31Ext3>, a: int, k: int)
    requires
        c.len() <= 4,
        0 <= k < 4,
    ensures
        at_int(c, a, k) == entry(c, 0, a) + k * entry(c, 1, a) + (k * k) * entry(c, 2, a) + (k * k
            * k) * entry(c, 3, a),
{
    reveal_with_fuel(at_int, 5);
    let d = c.drop_first();
    let e = d.drop_first();
    let (x0, x1, x2, x3) = (entry(c, 0, a), entry(c, 1, a), entry(c, 2, a), entry(c, 3, a));
    assert(at_int(c, a, k) == x0 + k * (x1 + k * (x2 + k * (x3 + k * 0)))) by {
        assert(k * 0 == 0);
        if c.len() > 1 {
            assert(d[0] == c[1]);
        }
        if c.len() > 2 {
            assert(e[0] == c[2]);
        }
        if c.len() > 3 {
            assert(e.drop_first()[0] == c[3]);
        }
    }
    assert(x0 + k * (x1 + k * (x2 + k * (x3 + k * 0))) == x0 + k * x1 + (k * k) * x2 + (k * k * k)
        * x3) by (nonlinear_arith);
}

/// Modulo the modulus, the two are the same.
#[verifier::opaque]
spec fn same_residue(x: int, y: int) -> bool {
    x % M31_MODULUS as int == y % M31_MODULUS as int
}

/// Residues of sums and multiples.
proof fn lemma_residue_sum(x: int, y: int, u: int, v: int, k: int)
    requires
        same_residue(x, y),
        same_residue(u, v),
    ensures
        same_residue(x + k * u, y + k * v),
{
    reveal(same_residue);
    let p = M31_MODULUS as int;
    lemma_mul_mod_noop_right(k, u, p);
    lemma_mul_mod_noop_right(k, v, p);
    lemma_add_mod_noop(x, k * u, p);
    lemma_add_mod_noop(y, k * v, p);
}

/// The four entries of a list.
spec fn entries(c: Seq<M31Ext3>, a: int) -> (int, int, int, int) {
    (entry(c, 0, a), entry(c, 1, a), entry(c, 2, a), entry(c, 3, a))
}

/// A factor that has an inverse can be taken away.
proof fn lemma_residue_cancels(x: int, y: int, k: int, inverse: int)
    requires
        same_residue(k * x, k * y),
        k * inverse + 1 == M31_MODULUS as int,
    ensures
        same_residue(x, y),
{
    let p = M31_MODULUS as int;
    assert(same_residue(p * x, p * y)) by {
        reveal(same_residue);
        lemma_mod_multiples_basic(x, p);
        lemma_mod_multiples_basic(y, p);
        assert(p * x == x * p && p * y == y * p) by (nonlinear_arith);
    }
    lemma_residue_sum(p * x, p * y, k * x, k * y, -inverse);
    assert(p * x + (-inverse) * (k * x) == x && p * y + (-inverse) * (k * y) == y)
        by (nonlinear_arith)
        requires
            k * inverse + 1 == p,
    ;
}

/// A polynomial of degree at most three over the integers, at `k`.
spec fn cubic(x: (int, int, int, int), k: int) -> int {
    x.0 + k * x.1 + (k * k) * x.2 + (k * k * k) * x.3
}

proof fn lemma_cubic_small(x: (int, int, int, int))
    ensures
        cubic(x, 0) == x.0,
        cubic(x, 1) == x.0 + x.1 + x.2 + x.3,
        cubic(x, 2) == x.0 + 2 * x.1 + 4 * x.2 + 8 * x.3,
        cubic(x, 3) == x.0 + 3 * x.1 + 9 * x.2 + 27 * x.3,
{
    let (a, b, c) = (x.1, x.2, x.3);
    assert(0 * a + (0 * 0) * b + (0 * 0 * 0) * c == 0) by (nonlinear_arith);
    assert(1 * a + (1 * 1) * b + (1 * 1 * 1) * c == a + b + c) by (nonlinear_arith);
    assert(2 * a + (2 * 2) * b + (2 * 2 * 2) * c == 2 * a + 4 * b + 8 * c) by (nonlinear_arith);
    assert(3 * a + (3 * 3) * b + (3 * 3 * 3) * c == 3 * a + 9 * b + 27 * c) by (nonlinear_arith);
}

/// Entries with the same residues at zero, one and so on have the same residues.
proof fn lemma_differences(x: (int, int, int, int), y: (int, int, int, int), n: nat)
    requires
        n <= 4,
        n <= 3 ==> x.3 == y.3 == 0,
        n <= 2 ==> x.2 == y.2 == 0,
        n <= 1 ==> x.1 == y.1 == 0,
        n <= 0 ==> x.0 == y.0 == 0,
        forall|k: int| 0 <= k < n ==> #[trigger] same_residue(cubic(x, k), cubic(y, k)),
    ensures
        same_residue(x.0, y.0),
        same_residue(x.1, y.1),
        same_residue(x.2, y.2),
        same_residue(x.3, y.3),
{
    let (f0, f1, f2, f3) = (cubic(x, 0), cubic(x, 1), cubic(x, 2), cubic(x, 3));
    let (g0, g1, g2, g3) = (cubic(y, 0), cubic(y, 1), cubic(y, 2), cubic(y, 3));
    lemma_cubic_small(x);
    lemma_cubic_small(y);
    assert(same_residue(0, 0)) by {
        reveal(same_residue);
    }
    if n > 0 {
        assert(same_residue(f0, g0));
    }
    if n > 3 {
        assert(same_residue(f1, g1) && same_residue(f2, g2) && same_residue(f3, g3));
        lemma_residue_sum(f3, g3, f2, g2, -3);
        lemma_residue_sum(f3 + (-3) * f2, g3 + (-3) * g2, f1, g1, 3);
        lemma_residue_sum(
            f3 + (-3) * f2 + 3 * f1,
            g3 + (-3) * g2 + 3 * g1,
            f0,
            g0,
            -1,
        );
        assert(f3 + (-3) * f2 + 3 * f1 + (-1) * f0 == 6 * x.3);
        assert(g3 + (-3) * g2 + 3 * g1 + (-1) * g0 == 6 * y.3);
        lemma_residue_cancels(x.3, y.3, 6, 357913941);
    }
    if n > 2 {
        assert(same_residue(f1, g1) && same_residue(f2, g2));
        lemma_residue_sum(f2, g2, f1, g1, -2);
        lemma_residue_sum(f2 + (-2) * f1, g2 + (-2) * g1, f0, g0, 1);
        lemma_residue_sum(
            f2 + (-2) * f1 + 1 * f0,
            g2 + (-2) * g1 + 1 * g0,
            x.3,
            y.3,
            -6,
        );
        assert(f2 + (-2) * f1 + 1 * f0 + (-6) * x.3 == 2 * x.2);
        assert(g2 + (-2) * g1 + 1 * g0 + (-6) * y.3 == 2 * y.2);
        lemma_residue_cancels(x.2, y.2, 2, 1073741823);
    }
    if n > 1 {
        assert(same_residue(f1, g1));
        lemma_residue_sum(f1, g1, f0, g0, -1);
        lemma_residue_sum(f1 + (-1) * f0, g1 + (-1) * g0, x.2, y.2, -1);
        lemma_residue_sum(
            f1 + (-1) * f0 + (-1) * x.2,
            g1 + (-1) * g0 + (-1) * y.2,
            x.3,
            y.3,
            -1,
        );
    }
}

/// Lists with the same values have the same residues.
proof fn lemma_same_residues(c: Seq<M31Ext3>, d: Seq<M31Ext3>, values: Seq<M31Ext3>, a: int)
    requires
        is_through(c, values),
        is_through(d, values),
        values.len() <= 4,
        0 <= a < 3,
    ensures
        forall|k: int|
            0 <= k < values.len() ==> same_residue(#[trigger] entry(c, k, a), entry(d, k, a)),
{
    let n = values.len();
    let (x, y) = (entries(c, a), entries(d, a));
    assert forall|k: int| 0 <= k < n implies #[trigger] same_residue(cubic(x, k), cubic(y, k)) by {
        assert(values[k] == poly_at(c, copies(k as nat, M31Ext3::one_spec())));
        assert(values[k] == poly_at(d, copies(k as nat, M31Ext3::one_spec())));
        lemma_poly_parts(c, a, k as nat);
        lemma_poly_parts(d, a, k as nat);
        lemma_at_int(c, a, k);
        lemma_at_int(d, a, k);
        reveal(same_residue);
    }
    lemma_differences(x, y, n);
}

/// A sum depends on the residues of its summands alone.
proof fn lemma_plus_residues(x: M31Ext3, y: M31Ext3, z: M31Ext3)
    requires
        forall|a: int| 0 <= a < 3 ==> same_residue(#[trigger] part(x, a), part(y, a)),
    ensures
        x.plus_spec(z) == y.plus_spec(z),
{
    assert(same_residue(part(x, 0), part(y, 0)));
    assert(same_residue(part(x, 1), part(y, 1)));
    assert(same_residue(part(x, 2), part(y, 2)));
    reveal(same_residue);
    let p = M31_MODULUS as int;
    lemma_add_mod_noop(part(x, 0), part(z, 0), p);
    lemma_add_mod_noop(part(y, 0), part(z, 0), p);
    lemma_add_mod_noop(part(x, 1), part(z, 1), p);
    lemma_add_mod_noop(part(y, 1), part(z, 1), p);
    lemma_add_mod_noop(part(x, 2), part(z, 2), p);
    lemma_add_mod_noop(part(y, 2), part(z, 2), p);
}

/// A polynomial's values depend on the residues of its coefficients alone.
proof fn lemma_poly_residues(c: Seq<M31Ext3>, d: Seq<M31Ext3>, r: M31Ext3)
    requires
        c.len() == d.len(),
        forall|k: int, a: int|
            0 <= k < c.len() && 0 <= a < 3 ==> same_residue(
                #[trigger] entry(c, k, a),
                entry(d, k, a),
            ),
    ensures
        poly_at(c, r) == poly_at(d, r),
    decreases c.len(),
{
    if c.len() > 0 {
        let (e, f) = (c.drop_first(), d.drop_first());
        assert forall|k: int, a: int| 0 <= k < e.len() && 0 <= a < 3 implies same_residue(
            #[trigger] entry(e, k, a),
            entry(f, k, a),
        ) by {
            assert(same_residue(entry(c, k + 1, a), entry(d, k + 1, a)));
        }
        lemma_poly_residues(e, f, r);
        assert forall|a: int| 0 <= a < 3 implies same_residue(
            #[trigger] part(c[0], a),
            part(d[0], a),
        ) by {
            assert(same_residue(entry(c, 0, a), entry(d, 0, a)));
        }
        lemma_plus_residues(c[0], d[0], r.times_spec(poly_at(e, r)));
    }
}

/// Up to four values determine the polynomial through them: it takes one value at any point.
pub proof fn lemma_values_determine(values: Seq<M31Ext3>, r: M31Ext3, s: M31Ext3, t: M31Ext3)
    requires
        values.len() <= 4,
        leads_to(values, r, s),
        leads_to(values, r, t),
    ensures
        s == t,
{
    let c = choose|c: Seq<M31Ext3>| #[trigger] is_through(c, values) && poly_at(c, r) == s;
    let d = choose|d: Seq<M31Ext3>| #[trigger] is_through(d, values) && poly_at(d, r) == t;
    assert forall|k: int, a: int| 0 <= k < c.len() && 0 <= a < 3 implies same_residue(
        #[trigger] entry(c, k, a),
        entry(d, k, a),
    ) by {
        lemma_same_residues(c, d, values, a);
    }
    lemma_poly_residues(c, d, r);
}

} // verus!
