//! Binding the variables of a table one by one evaluates its multilinear extension.

use vstd::arithmetic::power2::*;
use vstd::prelude::*;

use crate::algebra::{
    lemma_dot_commutes, lemma_dot_same, lemma_dot_split, lemma_dot_times, lemma_dot_valid,
    lemma_line_at,
};
use crate::engine::FieldEngine;
use crate::field::Field;
use crate::gkr_protocol::{eq_table, wires_at};
use crate::poly::{dot, eq_vec_spec, eq_weight, folded};
use crate::rounds::all_valid;

verus! {

/// The table of `n` variables `t` with the first `k` bound to `rs`.
pub open spec fn bound<E: Field>(t: Seq<E>, rs: Seq<E>, n: nat, k: nat) -> Seq<E>
    decreases k,
{
    if k == 0 {
        t
    } else {
        folded(bound(t, rs, n, (k - 1) as nat), pow2((n - k) as nat), rs[k - 1])
    }
}

/// A table with variables bound depends on the challenges it is bound to alone.
pub proof fn lemma_bound_same<E: Field>(t: Seq<E>, rs: Seq<E>, qs: Seq<E>, n: nat, k: nat)
    requires
        forall|i: int| 0 <= i < k ==> #[trigger] rs[i] == qs[i],
    ensures
        bound(t, rs, n, k) == bound(t, qs, n, k),
    decreases k,
{
    if k > 0 {
        lemma_bound_same(t, rs, qs, n, (k - 1) as nat);
        assert(rs[k - 1] == qs[k - 1]);
    }
}

/// Binding variables keeps the length of a table.
pub proof fn lemma_bound_len<E: Field>(t: Seq<E>, rs: Seq<E>, n: nat, k: nat)
    ensures
        bound(t, rs, n, k).len() == t.len(),
    decreases k,
{
    if k > 0 {
        lemma_bound_len(t, rs, n, (k - 1) as nat);
    }
}

/// The front of a table with variables bound depends on the front of the table alone.
pub proof fn lemma_bound_front<E: Field>(t: Seq<E>, u: Seq<E>, rs: Seq<E>, n: nat, k: nat)
    requires
        k <= n,
        pow2(n) <= t.len(),
        pow2(n) <= u.len(),
        forall|j: int| 0 <= j < pow2(n) ==> #[trigger] t[j] == u[j],
    ensures
        forall|j: int|
            0 <= j < pow2((n - k) as nat) ==> #[trigger] bound(t, rs, n, k)[j] == bound(
                u,
                rs,
                n,
                k,
            )[j],
    decreases k,
{
    if k > 0 {
        let m = (k - 1) as nat;
        lemma_bound_front(t, u, rs, n, m);
        lemma_bound_len(t, rs, n, m);
        lemma_bound_len(u, rs, n, m);
        lemma_pow2_unfold((n - m) as nat);
        if m > 0 {
            lemma_pow2_strictly_increases((n - m) as nat, n);
        }
        assert forall|j: int| 0 <= j < pow2((n - k) as nat) implies #[trigger] bound(t, rs, n, k)[j]
            == bound(u, rs, n, k)[j] by {
            assert(bound(t, rs, n, m)[2 * j] == bound(u, rs, n, m)[2 * j]);
            assert(bound(t, rs, n, m)[2 * j + 1] == bound(u, rs, n, m)[2 * j + 1]);
        }
    }
}

/// The block of `2^k` entries of a table that entry `i` comes from once `k` variables are bound.
pub open spec fn block<E>(t: Seq<E>, i: int, k: nat) -> Seq<E> {
    t.subrange(i * pow2(k), i * pow2(k) + pow2(k))
}

proof fn lemma_block<E>(t: Seq<E>, i: int, n: nat, k: nat)
    requires
        k <= n,
        pow2(n) <= t.len(),
        0 <= i < pow2((n - k) as nat),
    ensures
        0 <= i * pow2(k),
        i * pow2(k) + pow2(k) <= pow2(n),
        block(t, i, k).len() == pow2(k),
{
    lemma_pow2_adds((n - k) as nat, k);
    let (a, b) = (pow2((n - k) as nat) as int, pow2(k) as int);
    assert(0 <= i * b && i * b + b <= a * b) by (nonlinear_arith)
        requires
            0 <= i < a,
            0 <= b,
    ;
}

/// Binding a variable weights the two halves of a block.
proof fn lemma_eq_table_grows<E: Field>(r: Seq<E>, s: Seq<E>)
    requires
        r.len() > 0,
        s.len() == pow2(r.len()),
        all_valid(s, s.len()),
    ensures
        ({
            let half = pow2((r.len() - 1) as nat);
            let rest = r.drop_last();
            let low = E::one_spec().minus_spec(r.last());
            &&& pow2(r.len()) == 2 * half
            &&& dot(eq_table(r), s, pow2(r.len())) == dot(
                eq_table(rest),
                s.take(half as int),
                half,
            ).times_spec(low).plus_spec(
                dot(eq_table(rest), s.skip(half as int), half).times_spec(r.last()),
            )
        }),
{
    let half = pow2((r.len() - 1) as nat);
    let rest = r.drop_last();
    let low = E::one_spec().minus_spec(r.last());
    let table = eq_table(r);
    let small = eq_table(rest);
    lemma_pow2_unfold(r.len());
    lemma_dot_split(table, s, half, half);
    assert forall|j: int| 0 <= j < half implies #[trigger] table[j] == small[j].times_spec(low) by {
    }
    lemma_dot_times(small, table, low, s, half);
    lemma_dot_same(small, s, small, s.take(half as int), half);
    let upper = table.skip(half as int);
    assert forall|j: int| 0 <= j < half implies #[trigger] upper[j] == small[j].times_spec(
        r.last(),
    ) by {
        assert(upper[j] == table[j + half]);
    }
    lemma_dot_times(small, upper, r.last(), s.skip(half as int), half);
}

proof fn lemma_eq_vec_same<E: Field>(a: Seq<E>, b: Seq<E>, c: Seq<E>, d: Seq<E>, n: nat)
    requires
        forall|i: int| 0 <= i < n ==> #[trigger] a[i] == c[i],
        forall|i: int| 0 <= i < n ==> #[trigger] b[i] == d[i],
    ensures
        eq_vec_spec(a, b, n) == eq_vec_spec(c, d, n),
    decreases n,
{
    if n > 0 {
        lemma_eq_vec_same(a, b, c, d, (n - 1) as nat);
    }
}

/// The equality table of one point, extended to another, is the equality polynomial at both.
pub proof fn lemma_eq_tables<E: Field>(a: Seq<E>, b: Seq<E>)
    requires
        a.len() == b.len(),
    ensures
        dot(eq_table(b), eq_table(a), pow2(a.len())) == eq_vec_spec(a, b, a.len()),
        all_valid(eq_table(a), pow2(a.len())),
    decreases a.len(),
{
    let one = E::one_spec();
    let n = a.len();
    E::law_closed(one, one);
    assert forall|i: int| 0 <= i < pow2(n) implies (#[trigger] eq_table(a)[i]).valid() by {
        lemma_eq_weight_valid(a, one, i);
    }
    if n == 0 {
        lemma2_to64();
        reveal_with_fuel(dot, 2);
        E::law_times_one(one);
        E::law_plus_commutes(E::zero_spec(), one);
        E::law_plus_zero(one);
    } else {
        let half = pow2((n - 1) as nat);
        let (p, q) = (a.drop_last(), b.drop_last());
        let (x, y) = (a.last(), b.last());
        let (low_x, low_y) = (one.minus_spec(x), one.minus_spec(y));
        let s = eq_table(a);
        let small = eq_table(p);
        lemma_eq_tables(p, q);
        lemma_eq_vec_same(p, q, a, b, (n - 1) as nat);
        lemma_eq_table_grows(b, s);
        let d = eq_vec_spec(a, b, (n - 1) as nat);
        let (front, back) = (s.take(half as int), s.skip(half as int));
        assert forall|j: int| 0 <= j < half implies #[trigger] front[j] == small[j].times_spec(
            low_x,
        ) by {}
        assert forall|j: int| 0 <= j < half implies #[trigger] back[j] == small[j].times_spec(
            x,
        ) by {
            assert(back[j] == s[j + half]);
        }
        lemma_dot_times(small, front, low_x, eq_table(q), half);
        lemma_dot_times(small, back, x, eq_table(q), half);
        lemma_dot_commutes(eq_table(q), front, half);
        lemma_dot_commutes(eq_table(q), back, half);
        lemma_dot_commutes(eq_table(q), small, half);
        // d low_x low_y + d x y == d (x y + low_x low_y)
        E::law_times_associates(d, low_x, low_y);
        E::law_times_associates(d, x, y);
        E::law_times_distributes(d, x.times_spec(y), low_x.times_spec(low_y));
        E::law_plus_commutes(
            d.times_spec(low_x.times_spec(low_y)),
            d.times_spec(x.times_spec(y)),
        );
    }
}

/// Equality weights are in canonical form.
pub proof fn lemma_eq_weight_valid<E: Field>(r: Seq<E>, factor: E, i: int)
    requires
        factor.valid(),
    ensures
        eq_weight(r, factor, i).valid(),
    decreases r.len(),
{
    if r.len() > 0 {
        let half = pow2((r.len() - 1) as nat);
        let one = E::one_spec();
        E::law_closed(
            eq_weight(r.drop_last(), factor, i),
            one.minus_spec(r.last()),
        );
        E::law_closed(eq_weight(r.drop_last(), factor, i - half), r.last());
    }
}

/// Each entry of a table with some variables bound is the weighted sum of its block.
pub proof fn lemma_bound<E: Field>(t: Seq<E>, rs: Seq<E>, n: nat, k: nat, i: int)
    requires
        k <= n,
        k <= rs.len(),
        pow2(n) <= t.len(),
        all_valid(t, pow2(n)),
        0 <= i < pow2((n - k) as nat),
    ensures
        bound(t, rs, n, k).len() == t.len(),
        bound(t, rs, n, k)[i] == dot(eq_table(rs.take(k as int)), block(t, i, k), pow2(k)),
        bound(t, rs, n, k)[i].valid(),
    decreases k,
{
    lemma_block(t, i, n, k);
    lemma_dot_valid(eq_table(rs.take(k as int)), block(t, i, k), pow2(k));
    if k == 0 {
        lemma2_to64();
        let one = E::one_spec();
        let x = t[i];
        let table = eq_table(rs.take(0));
        assert(block(t, i, 0)[0] == x);
        assert(table[0] == one);
        reveal_with_fuel(dot, 2);
        E::law_closed(one, x);
        E::law_times_commutes(one, x);
        E::law_times_one(x);
        E::law_plus_commutes(E::zero_spec(), x);
        E::law_plus_zero(x);
    } else {
        let m = (k - 1) as nat;
        let before = bound(t, rs, n, m);
        let r = rs[m as int];
        let low = E::one_spec().minus_spec(r);
        lemma_pow2_unfold((n - m) as nat);
        lemma_pow2_unfold(k);
        lemma_bound(t, rs, n, m, 2 * i);
        lemma_bound(t, rs, n, m, 2 * i + 1);
        lemma_block(t, 2 * i, n, m);
        lemma_block(t, 2 * i + 1, n, m);
        let s = block(t, i, k);
        let half = pow2(m) as int;
        assert(i * (2 * half) == (2 * i) * half && (2 * i + 1) * half == (2 * i) * half + half)
            by (nonlinear_arith);
        assert(s.take(half) =~= block(t, 2 * i, m));
        assert(s.skip(half) =~= block(t, 2 * i + 1, m));
        assert(rs.take(k as int).drop_last() =~= rs.take(m as int));
        assert(all_valid(s, s.len()));
        lemma_eq_table_grows(rs.take(k as int), s);
        lemma_line_at(before[2 * i], before[2 * i + 1], r);
        lemma_pow2_adds((n - k) as nat, k);
        assert(pow2((n - k) as nat) <= t.len()) by {
            lemma_pow2_pos(k);
            let (a, b) = (pow2((n - k) as nat) as int, pow2(k) as int);
            assert(a <= a * b) by (nonlinear_arith)
                requires
                    a >= 0,
                    b >= 1,
            ;
        }
    }
}

/// With all variables bound, what is left is the value of the multilinear extension.
pub proof fn lemma_all_bound<E: Field>(t: Seq<E>, rs: Seq<E>, n: nat)
    requires
        rs.len() == n,
        pow2(n) <= t.len(),
        all_valid(t, pow2(n)),
    ensures
        bound(t, rs, n, n)[0] == dot(eq_table(rs), t, pow2(n)),
        bound(t, rs, n, n)[0].valid(),
{
    lemma2_to64();
    lemma_bound(t, rs, n, n, 0);
    lemma_block(t, 0, n, n);
    assert(rs.take(n as int) =~= rs);
    lemma_dot_same(eq_table(rs), block(t, 0, n), eq_table(rs), t, pow2(n));
}

// ---------------------------------------------------------------------------
// Packed values
// ---------------------------------------------------------------------------

/// Wire values as elements of the table ring.
pub open spec fn promoted<F: FieldEngine>(vals: Seq<F::SimdCircuitField>) -> Seq<F::Field> {
    Seq::new(vals.len(), |i: int| F::promote_spec(vals[i]))
}

/// Challenges as elements of the table ring.
pub open spec fn broadcasts<F: FieldEngine>(rs: Seq<F::ChallengeField>) -> Seq<F::Field> {
    Seq::new(rs.len(), |i: int| F::broadcast_spec(rs[i]))
}

/// The equality table of scalars, spread over the lanes.
pub proof fn lemma_broadcast_eq_table<F: FieldEngine>(rs: Seq<F::ChallengeField>, i: int)
    requires
        0 <= i < pow2(rs.len()),
    ensures
        eq_table(broadcasts::<F>(rs))[i] == F::broadcast_spec(eq_table(rs)[i]),
{
    lemma_broadcast_eq_weight::<F>(rs, i);
}

proof fn lemma_broadcast_eq_weight<F: FieldEngine>(rs: Seq<F::ChallengeField>, i: int)
    ensures
        eq_weight(broadcasts::<F>(rs), F::Field::one_spec(), i) == F::broadcast_spec(
            eq_weight(rs, F::ChallengeField::one_spec(), i),
        ),
    decreases rs.len(),
{
    let one = F::ChallengeField::one_spec();
    if rs.len() == 0 {
        F::law_broadcast(one, one);
    } else {
        let half = pow2((rs.len() - 1) as nat);
        let rest = rs.drop_last();
        let last = rs.last();
        assert(broadcasts::<F>(rs).drop_last() =~= broadcasts::<F>(rest));
        F::law_broadcast(one, last);
        if i < half {
            lemma_broadcast_eq_weight::<F>(rest, i);
            F::law_broadcast(eq_weight(rest, one, i), one.minus_spec(last));
        } else {
            lemma_broadcast_eq_weight::<F>(rest, i - half);
            F::law_broadcast(eq_weight(rest, one, i - half), last);
        }
    }
}

/// Binding the wire variables to challenges, lane by lane, gives the values of the wires at the
/// challenges.
pub proof fn lemma_wires_bound<F: FieldEngine>(
    vals: Seq<F::SimdCircuitField>,
    rs: Seq<F::ChallengeField>,
)
    requires
        vals.len() == pow2(rs.len()),
        all_valid(promoted::<F>(vals), vals.len()),
    ensures
        bound(promoted::<F>(vals), broadcasts::<F>(rs), rs.len(), rs.len())[0] == wires_at::<F>(
            vals,
            rs,
        ),
        wires_at::<F>(vals, rs).valid(),
{
    let n = rs.len();
    let t = promoted::<F>(vals);
    let b = broadcasts::<F>(rs);
    lemma_all_bound(t, b, n);
    let weights = Seq::new(pow2(n), |i: int| F::broadcast_spec(eq_table(rs)[i]));
    assert forall|i: int| 0 <= i < pow2(n) implies #[trigger] eq_table(b)[i] == weights[i] by {
        lemma_broadcast_eq_table::<F>(rs, i);
    }
    lemma_dot_same(
        eq_table(b),
        t,
        weights,
        Seq::new(pow2(n), |i: int| F::promote_spec(vals[i])),
        pow2(n),
    );
}

} // verus!
