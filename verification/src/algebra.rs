//! Sums and products in any commutative ring.

use vstd::prelude::*;

use crate::field::{
    lemma_plus_exchange, lemma_plus_minus, lemma_times_distributes_left, lemma_times_zero, Field,
};
use crate::poly::{dot, double_spec, line_at, triple_spec, value_at_two};

verus! {

// ---------------------------------------------------------------------------
// Weighted sums
// ---------------------------------------------------------------------------

/// A weighted sum is in canonical form.
pub proof fn lemma_dot_valid<E: Field>(a: Seq<E>, b: Seq<E>, n: nat)
    ensures
        dot(a, b, n).valid(),
{
    if n == 0 {
        E::law_closed(E::zero_spec(), E::zero_spec());
    } else {
        E::law_closed(dot(a, b, (n - 1) as nat), a[n - 1].times_spec(b[n - 1]));
    }
}

/// A weighted sum depends on the entries it runs over alone.
pub proof fn lemma_dot_same<E: Field>(a: Seq<E>, b: Seq<E>, c: Seq<E>, d: Seq<E>, n: nat)
    requires
        forall|i: int| 0 <= i < n ==> #[trigger] a[i] == c[i],
        forall|i: int| 0 <= i < n ==> #[trigger] b[i] == d[i],
    ensures
        dot(a, b, n) == dot(c, d, n),
    decreases n,
{
    if n > 0 {
        lemma_dot_same(a, b, c, d, (n - 1) as nat);
    }
}

/// The two sides of a weighted sum can change places.
pub proof fn lemma_dot_commutes<E: Field>(a: Seq<E>, b: Seq<E>, n: nat)
    ensures
        dot(a, b, n) == dot(b, a, n),
    decreases n,
{
    if n > 0 {
        lemma_dot_commutes(a, b, (n - 1) as nat);
        E::law_times_commutes(a[n - 1], b[n - 1]);
    }
}

/// Weighted sums are additive in the weights.
pub proof fn lemma_dot_plus<E: Field>(a: Seq<E>, b: Seq<E>, sum: Seq<E>, v: Seq<E>, n: nat)
    requires
        forall|i: int| 0 <= i < n ==> #[trigger] sum[i] == a[i].plus_spec(b[i]),
    ensures
        dot(sum, v, n) == dot(a, v, n).plus_spec(dot(b, v, n)),
    decreases n,
{
    if n == 0 {
        E::law_closed(E::zero_spec(), E::zero_spec());
        E::law_plus_zero(E::zero_spec());
    } else {
        let m = (n - 1) as nat;
        let i = m as int;
        lemma_dot_plus(a, b, sum, v, m);
        assert(sum[i] == a[i].plus_spec(b[i]));
        lemma_times_distributes_left(a[i], b[i], v[i]);
        lemma_plus_exchange(
            dot(a, v, m),
            dot(b, v, m),
            a[i].times_spec(v[i]),
            b[i].times_spec(v[i]),
        );
    }
}

/// A common factor of the weights is a factor of the sum.
pub proof fn lemma_dot_times<E: Field>(a: Seq<E>, scaled: Seq<E>, c: E, v: Seq<E>, n: nat)
    requires
        forall|i: int| 0 <= i < n ==> #[trigger] scaled[i] == a[i].times_spec(c),
    ensures
        dot(scaled, v, n) == dot(a, v, n).times_spec(c),
    decreases n,
{
    if n == 0 {
        lemma_times_zero(c);
    } else {
        let m = (n - 1) as nat;
        let i = m as int;
        lemma_dot_times(a, scaled, c, v, m);
        assert(scaled[i] == a[i].times_spec(c));
        E::law_times_associates(a[i], c, v[i]);
        E::law_times_commutes(c, v[i]);
        E::law_times_associates(a[i], v[i], c);
        lemma_times_distributes_left(dot(a, v, m), a[i].times_spec(v[i]), c);
    }
}

/// A weighted sum is the sum of its front and its rest.
pub proof fn lemma_dot_split<E: Field>(a: Seq<E>, b: Seq<E>, m: nat, n: nat)
    requires
        m + n <= a.len(),
        m + n <= b.len(),
    ensures
        dot(a, b, m + n) == dot(a, b, m).plus_spec(dot(a.skip(m as int), b.skip(m as int), n)),
    decreases n,
{
    if n == 0 {
        lemma_dot_valid(a, b, m);
        E::law_plus_zero(dot(a, b, m));
    } else {
        let k = (n - 1) as nat;
        let (c, d) = (a.skip(m as int), b.skip(m as int));
        lemma_dot_split(a, b, m, k);
        assert(c[k as int] == a[(m + k) as int]);
        assert(d[k as int] == b[(m + k) as int]);
        E::law_plus_associates(
            dot(a, b, m),
            dot(c, d, k),
            c[k as int].times_spec(d[k as int]),
        );
    }
}

// ---------------------------------------------------------------------------
// Differences and lines
// ---------------------------------------------------------------------------

/// The difference of two sums is the sum of the differences.
pub proof fn lemma_minus_plus<E: Field>(a: E, b: E, c: E, d: E)
    requires
        a.valid(),
        c.valid(),
    ensures
        a.plus_spec(c).minus_spec(b.plus_spec(d)) == a.minus_spec(b).plus_spec(c.minus_spec(d)),
{
    let (x, y) = (a.minus_spec(b), c.minus_spec(d));
    E::law_minus(a, b);
    E::law_minus(c, d);
    lemma_plus_exchange(x, b, y, d);
    E::law_closed(x, y);
    lemma_plus_minus(x.plus_spec(y), b.plus_spec(d));
}

/// A line is the weighted sum of its values at zero and one.
pub proof fn lemma_line_at<E: Field>(a: E, b: E, r: E)
    requires
        a.valid(),
        b.valid(),
    ensures
        line_at(a, b, r) == a.times_spec(E::one_spec().minus_spec(r)).plus_spec(b.times_spec(r)),
{
    let one = E::one_spec();
    let low = one.minus_spec(r);
    let d = b.minus_spec(a);
    E::law_closed(a, b);
    // b r = d r + a r and a = a low + a r
    E::law_minus(b, a);
    lemma_times_distributes_left(d, a, r);
    E::law_minus(one, r);
    E::law_times_distributes(a, low, r);
    E::law_times_one(a);
    let (al, ar, dr) = (a.times_spec(low), a.times_spec(r), d.times_spec(r));
    E::law_plus_associates(al, ar, dr);
    E::law_plus_commutes(ar, dr);
}

/// The ends of a line.
pub proof fn lemma_line_ends<E: Field>(a: E, b: E)
    requires
        a.valid(),
        b.valid(),
    ensures
        line_at(a, b, E::zero_spec()) == a,
        line_at(a, b, E::one_spec()) == b,
{
    let d = b.minus_spec(a);
    lemma_times_zero(d);
    E::law_plus_zero(a);
    E::law_closed(b, a);
    E::law_times_one(d);
    E::law_minus(b, a);
    E::law_plus_commutes(a, d);
}

// ---------------------------------------------------------------------------
// Small multiples
// ---------------------------------------------------------------------------

/// The sum of `k` copies of `x`.
pub open spec fn copies<E: Field>(k: nat, x: E) -> E
    decreases k,
{
    if k == 0 {
        E::zero_spec()
    } else {
        copies((k - 1) as nat, x).plus_spec(x)
    }
}

proof fn lemma_copies_valid<E: Field>(k: nat, x: E)
    ensures
        copies(k, x).valid(),
{
    if k == 0 {
        E::law_closed(x, x);
    } else {
        E::law_closed(copies((k - 1) as nat, x), x);
    }
}

proof fn lemma_copies_plus<E: Field>(j: nat, k: nat, x: E)
    ensures
        copies(j, x).plus_spec(copies(k, x)) == copies(j + k, x),
    decreases k,
{
    lemma_copies_valid(j, x);
    if k == 0 {
        E::law_plus_zero(copies(j, x));
    } else {
        lemma_copies_plus(j, (k - 1) as nat, x);
        E::law_plus_associates(copies(j, x), copies((k - 1) as nat, x), x);
    }
}

/// `k.0 p + k.1 q + k.2 r + k.3 s`.
pub open spec fn combo<E: Field>(k: (nat, nat, nat, nat), p: E, q: E, r: E, s: E) -> E {
    copies(k.0, p).plus_spec(copies(k.1, q)).plus_spec(copies(k.2, r).plus_spec(copies(k.3, s)))
}

/// Such sums add up coefficient by coefficient.
proof fn lemma_combo_plus<E: Field>(
    j: (nat, nat, nat, nat),
    k: (nat, nat, nat, nat),
    p: E,
    q: E,
    r: E,
    s: E,
)
    ensures
        combo(j, p, q, r, s).plus_spec(combo(k, p, q, r, s)) == combo(
            (j.0 + k.0, j.1 + k.1, j.2 + k.2, j.3 + k.3),
            p,
            q,
            r,
            s,
        ),
{
    let (jp, jq, jr, js) = (copies(j.0, p), copies(j.1, q), copies(j.2, r), copies(j.3, s));
    let (kp, kq, kr, ks) = (copies(k.0, p), copies(k.1, q), copies(k.2, r), copies(k.3, s));
    lemma_plus_exchange(
        jp.plus_spec(jq),
        jr.plus_spec(js),
        kp.plus_spec(kq),
        kr.plus_spec(ks),
    );
    lemma_plus_exchange(jp, jq, kp, kq);
    lemma_plus_exchange(jr, js, kr, ks);
    lemma_copies_plus(j.0, k.0, p);
    lemma_copies_plus(j.1, k.1, q);
    lemma_copies_plus(j.2, k.2, r);
    lemma_copies_plus(j.3, k.3, s);
}

/// Each of the four alone.
proof fn lemma_combo_units<E: Field>(p: E, q: E, r: E, s: E)
    requires
        p.valid(),
        q.valid(),
        r.valid(),
        s.valid(),
    ensures
        combo((1, 0, 0, 0), p, q, r, s) == p,
        combo((0, 1, 0, 0), p, q, r, s) == q,
        combo((0, 0, 1, 0), p, q, r, s) == r,
        combo((0, 0, 0, 1), p, q, r, s) == s,
{
    let zero = E::zero_spec();
    reveal_with_fuel(copies, 2);
    E::law_closed(zero, zero);
    E::law_plus_zero(zero);
    E::law_plus_zero(p);
    E::law_plus_zero(q);
    E::law_plus_zero(r);
    E::law_plus_zero(s);
    E::law_plus_commutes(zero, p);
    E::law_plus_commutes(zero, q);
    E::law_plus_commutes(zero, r);
    E::law_plus_commutes(zero, s);
}

/// The product of two lines at two, from the products and the sums of their ends.
pub proof fn lemma_value_at_two<E: Field>(a: E, b: E, c: E, d: E)
    requires
        a.valid(),
        b.valid(),
        c.valid(),
        d.valid(),
    ensures
        ({
            let two = E::one_spec().plus_spec(E::one_spec());
            value_at_two(
                a.times_spec(c),
                b.times_spec(d),
                a.plus_spec(b).times_spec(c.plus_spec(d)),
            ) == line_at(a, b, two).times_spec(line_at(c, d, two))
        }),
{
    let one = E::one_spec();
    let two = one.plus_spec(one);
    let (u, v) = (b.minus_spec(a), d.minus_spec(c));
    let (p, q, r, s) = (a.times_spec(c), a.times_spec(v), u.times_spec(c), u.times_spec(v));
    E::law_closed(a, c);
    E::law_closed(a, v);
    E::law_closed(u, c);
    E::law_closed(u, v);
    E::law_closed(b, a);
    E::law_closed(d, c);
    lemma_combo_units(p, q, r, s);
    // b = a + u and d = c + v
    E::law_minus(b, a);
    E::law_plus_commutes(u, a);
    E::law_minus(d, c);
    E::law_plus_commutes(v, c);
    // a d, b c and b d
    let (ad, bc, bd) = (a.times_spec(d), b.times_spec(c), b.times_spec(d));
    E::law_times_distributes(a, c, v);
    lemma_combo_plus((1, 0, 0, 0), (0, 1, 0, 0), p, q, r, s);
    assert(ad == combo((1, 1, 0, 0), p, q, r, s));
    lemma_times_distributes_left(a, u, c);
    lemma_combo_plus((1, 0, 0, 0), (0, 0, 1, 0), p, q, r, s);
    assert(bc == combo((1, 0, 1, 0), p, q, r, s));
    let (bv, ud) = (b.times_spec(v), u.times_spec(d));
    lemma_times_distributes_left(a, u, v);
    lemma_combo_plus((0, 1, 0, 0), (0, 0, 0, 1), p, q, r, s);
    assert(bv == combo((0, 1, 0, 1), p, q, r, s));
    E::law_times_distributes(u, c, v);
    lemma_combo_plus((0, 0, 1, 0), (0, 0, 0, 1), p, q, r, s);
    assert(ud == combo((0, 0, 1, 1), p, q, r, s));
    E::law_times_distributes(b, c, v);
    lemma_combo_plus((1, 0, 1, 0), (0, 1, 0, 1), p, q, r, s);
    assert(bd == combo((1, 1, 1, 1), p, q, r, s));
    // the lines at two are b + u and d + v
    E::law_times_distributes(u, one, one);
    E::law_times_distributes(v, one, one);
    E::law_times_one(u);
    E::law_times_one(v);
    E::law_plus_associates(a, u, u);
    E::law_plus_associates(c, v, v);
    assert(line_at(a, b, two) == b.plus_spec(u));
    assert(line_at(c, d, two) == d.plus_spec(v));
    let value = b.plus_spec(u).times_spec(d.plus_spec(v));
    lemma_times_distributes_left(b, u, d.plus_spec(v));
    E::law_times_distributes(b, d, v);
    E::law_times_distributes(u, d, v);
    lemma_combo_plus((1, 1, 1, 1), (0, 1, 0, 1), p, q, r, s);
    lemma_combo_plus((0, 0, 1, 1), (0, 0, 0, 1), p, q, r, s);
    lemma_combo_plus((1, 2, 1, 2), (0, 0, 1, 2), p, q, r, s);
    assert(value == combo((1, 2, 2, 4), p, q, r, s));
    // the product of the sums of the ends
    let raw = a.plus_spec(b).times_spec(c.plus_spec(d));
    lemma_times_distributes_left(a, b, c.plus_spec(d));
    E::law_times_distributes(a, c, d);
    E::law_times_distributes(b, c, d);
    lemma_combo_plus((1, 0, 0, 0), (1, 1, 0, 0), p, q, r, s);
    lemma_combo_plus((1, 0, 1, 0), (1, 1, 1, 1), p, q, r, s);
    lemma_combo_plus((2, 1, 0, 0), (2, 1, 2, 1), p, q, r, s);
    assert(raw == combo((4, 2, 2, 1), p, q, r, s));
    lemma_combo_plus((4, 2, 2, 1), (4, 2, 2, 1), p, q, r, s);
    assert(double_spec(raw) == combo((8, 4, 4, 2), p, q, r, s));
    lemma_combo_plus((1, 1, 1, 1), (1, 1, 1, 1), p, q, r, s);
    lemma_combo_plus((2, 2, 2, 2), (1, 1, 1, 1), p, q, r, s);
    lemma_combo_plus((3, 3, 3, 3), (3, 3, 3, 3), p, q, r, s);
    lemma_combo_plus((1, 0, 0, 0), (1, 0, 0, 0), p, q, r, s);
    lemma_combo_plus((2, 0, 0, 0), (1, 0, 0, 0), p, q, r, s);
    lemma_combo_plus((6, 6, 6, 6), (3, 0, 0, 0), p, q, r, s);
    lemma_combo_plus((1, 2, 2, 4), (8, 4, 4, 2), p, q, r, s);
    E::law_closed(b.plus_spec(u), d.plus_spec(v));
    lemma_plus_minus(value, double_spec(raw));
}

/// The value at two is additive in the sums it is made from.
pub proof fn lemma_value_at_two_plus<E: Field>(p: E, q: E, s: E, x: E, y: E, z: E)
    ensures
        value_at_two(p.plus_spec(x), q.plus_spec(y), s.plus_spec(z)) == value_at_two(
            p,
            q,
            s,
        ).plus_spec(value_at_two(x, y, z)),
{
    // triples and doubles are additive
    lemma_triple_plus(q, y);
    lemma_triple_plus(p, x);
    lemma_plus_exchange(s, z, s, z);
    lemma_plus_exchange(triple_spec(q), triple_spec(y), triple_spec(q), triple_spec(y));
    let (a, b) = (double_spec(triple_spec(q)), double_spec(triple_spec(y)));
    lemma_plus_exchange(a, b, triple_spec(p), triple_spec(x));
    E::law_closed(a, triple_spec(p));
    E::law_closed(b, triple_spec(x));
    lemma_minus_plus(
        a.plus_spec(triple_spec(p)),
        double_spec(s),
        b.plus_spec(triple_spec(x)),
        double_spec(z),
    );
}

proof fn lemma_triple_plus<E: Field>(a: E, b: E)
    ensures
        triple_spec(a.plus_spec(b)) == triple_spec(a).plus_spec(triple_spec(b)),
{
    lemma_plus_exchange(a, b, a, b);
    lemma_plus_exchange(a.plus_spec(a), b.plus_spec(b), a, b);
}

/// The value at two of nothing.
pub proof fn lemma_value_at_two_zero<E: Field>()
    ensures
        value_at_two(E::zero_spec(), E::zero_spec(), E::zero_spec()) == E::zero_spec(),
{
    let zero = E::zero_spec();
    E::law_closed(zero, zero);
    E::law_plus_zero(zero);
    lemma_plus_minus(zero, zero);
}

} // verus!
