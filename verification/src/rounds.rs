//! What the rounds of a sumcheck promise: the values sent are those of the round polynomial, its
//! values at zero and one add up to the sum at hand, and its value at the challenge is the sum
//! that the next round starts from.

use vstd::prelude::*;

use crate::algebra::{
    copies, lemma_line_ends, lemma_value_at_two, lemma_value_at_two_plus, lemma_value_at_two_zero,
};
use crate::field::{lemma_plus_exchange, lemma_plus_minus, lemma_times_zero, Field};
use crate::poly::{dot, folded, line_at, value_at_two};
use crate::product_gate::{gates_folded, hg_folded, pair_sums, quadratic_values};
use crate::simd_gate::{cubic_values, line_at_int, triple_sum};

verus! {

/// The first `n` entries of a table are in canonical form.
pub open spec fn all_valid<E: Field>(t: Seq<E>, n: nat) -> bool {
    forall|i: int| 0 <= i < n ==> (#[trigger] t[i]).valid()
}

// ---------------------------------------------------------------------------
// Products of two tables
// ---------------------------------------------------------------------------

/// The round polynomial: the sum over `n` pairs of the products of the lines through them.
pub open spec fn round_at<E: Field>(f: Seq<E>, h: Seq<E>, n: nat, x: E) -> E
    decreases n,
{
    if n == 0 {
        E::zero_spec()
    } else {
        let i = n - 1;
        round_at(f, h, i as nat, x).plus_spec(
            line_at(f[2 * i], f[2 * i + 1], x).times_spec(line_at(h[2 * i], h[2 * i + 1], x)),
        )
    }
}

/// Where no flag is set, the table is zero.
pub open spec fn covers<E: Field>(gates: Seq<bool>, h: Seq<E>, n: nat) -> bool {
    forall|i: int| 0 <= i < n && !gates[i] ==> #[trigger] h[i] == E::zero_spec()
}

/// The flags only spare work: with all of them set the sums are the same.
pub proof fn lemma_flags_spare_work<E: Field>(f: Seq<E>, h: Seq<E>, gates: Seq<bool>, n: nat)
    requires
        covers(gates, h, 2 * n),
    ensures
        pair_sums(f, h, gates, n) == pair_sums(f, h, Seq::new(2 * n, |i: int| true), n),
{
    lemma_flags_spare_work_below(f, h, gates, n, 2 * n);
}

proof fn lemma_flags_spare_work_below<E: Field>(
    f: Seq<E>,
    h: Seq<E>,
    gates: Seq<bool>,
    n: nat,
    size: nat,
)
    requires
        covers(gates, h, 2 * n),
        2 * n <= size,
    ensures
        pair_sums(f, h, gates, n) == pair_sums(f, h, Seq::new(size, |i: int| true), n),
        pair_sums(f, h, gates, n).0.valid(),
        pair_sums(f, h, gates, n).1.valid(),
        pair_sums(f, h, gates, n).2.valid(),
    decreases n,
{
    let zero = E::zero_spec();
    E::law_closed(zero, zero);
    if n > 0 {
        let i = n - 1;
        let all = Seq::new(size, |k: int| true);
        lemma_flags_spare_work_below(f, h, gates, i as nat, size);
        let (s0, s1, s2) = pair_sums(f, h, gates, i as nat);
        let (f0, f1) = (f[2 * i], f[2 * i + 1]);
        let (h0, h1) = (h[2 * i], h[2 * i + 1]);
        E::law_closed(s0, f0.times_spec(h0));
        E::law_closed(s1, f1.times_spec(h1));
        E::law_closed(s2, f0.plus_spec(f1).times_spec(h0.plus_spec(h1)));
        assert(all[2 * i]);
        if !(gates[2 * i] || gates[2 * i + 1]) {
            assert(h0 == zero && h1 == zero);
            E::law_plus_zero(zero);
            lemma_times_zero(f0);
            lemma_times_zero(f1);
            lemma_times_zero(f0.plus_spec(f1));
            E::law_plus_zero(s0);
            E::law_plus_zero(s1);
            E::law_plus_zero(s2);
        }
    }
}

/// The values of a quadratic round are those of the round polynomial at zero, one and two.
pub proof fn lemma_quadratic_values<E: Field>(f: Seq<E>, h: Seq<E>, gates: Seq<bool>, n: nat)
    requires
        all_valid(f, 2 * n),
        all_valid(h, 2 * n),
        covers(gates, h, 2 * n),
    ensures
        quadratic_values(pair_sums(f, h, gates, n)) == seq![
            round_at(f, h, n, E::zero_spec()),
            round_at(f, h, n, E::one_spec()),
            round_at(f, h, n, E::one_spec().plus_spec(E::one_spec())),
        ],
{
    lemma_flags_spare_work(f, h, gates, n);
    lemma_quadratic_values_below(f, h, n, 2 * n);
}

proof fn lemma_quadratic_values_below<E: Field>(f: Seq<E>, h: Seq<E>, n: nat, size: nat)
    requires
        all_valid(f, 2 * n),
        all_valid(h, 2 * n),
        2 * n <= size,
    ensures
        ({
            let (s0, s1, s2) = pair_sums(f, h, Seq::new(size, |i: int| true), n);
            let one = E::one_spec();
            &&& s0 == round_at(f, h, n, E::zero_spec())
            &&& s1 == round_at(f, h, n, one)
            &&& value_at_two(s0, s1, s2) == round_at(f, h, n, one.plus_spec(one))
        }),
    decreases n,
{
    if n == 0 {
        lemma_value_at_two_zero::<E>();
    } else {
        let i = n - 1;
        let all = Seq::new(size, |k: int| true);
        lemma_quadratic_values_below(f, h, i as nat, size);
        let (s0, s1, s2) = pair_sums(f, h, all, i as nat);
        let (f0, f1) = (f[2 * i], f[2 * i + 1]);
        let (h0, h1) = (h[2 * i], h[2 * i + 1]);
        assert(all[2 * i]);
        lemma_line_ends(f0, f1);
        lemma_line_ends(h0, h1);
        lemma_value_at_two(f0, f1, h0, h1);
        lemma_value_at_two_plus(
            s0,
            s1,
            s2,
            f0.times_spec(h0),
            f1.times_spec(h1),
            f0.plus_spec(f1).times_spec(h0.plus_spec(h1)),
        );
    }
}

/// The values at zero and one add up to the sum of all products.
pub proof fn lemma_round_total<E: Field>(f: Seq<E>, h: Seq<E>, n: nat)
    requires
        all_valid(f, 2 * n),
        all_valid(h, 2 * n),
    ensures
        round_at(f, h, n, E::zero_spec()).plus_spec(round_at(f, h, n, E::one_spec())) == dot(
            f,
            h,
            2 * n,
        ),
    decreases n,
{
    let zero = E::zero_spec();
    if n == 0 {
        E::law_closed(zero, zero);
        E::law_plus_zero(zero);
    } else {
        let i = n - 1;
        lemma_round_total(f, h, i as nat);
        let (f0, f1) = (f[2 * i], f[2 * i + 1]);
        let (h0, h1) = (h[2 * i], h[2 * i + 1]);
        lemma_line_ends(f0, f1);
        lemma_line_ends(h0, h1);
        lemma_plus_exchange(
            round_at(f, h, i as nat, zero),
            f0.times_spec(h0),
            round_at(f, h, i as nat, E::one_spec()),
            f1.times_spec(h1),
        );
        E::law_plus_associates(
            dot(f, h, (2 * i) as nat),
            f0.times_spec(h0),
            f1.times_spec(h1),
        );
        reveal_with_fuel(dot, 3);
        assert(dot(f, h, 2 * n) == dot(f, h, (2 * i) as nat).plus_spec(
            f0.times_spec(h0),
        ).plus_spec(f1.times_spec(h1)));
    }
}

/// The value at the challenge is the sum of all products of the folded tables.
pub proof fn lemma_round_folds<E: Field>(
    f: Seq<E>,
    h: Seq<E>,
    next_f: Seq<E>,
    next_h: Seq<E>,
    n: nat,
    r: E,
)
    requires
        forall|i: int|
            0 <= i < n ==> #[trigger] next_f[i] == line_at(f[2 * i], f[2 * i + 1], r),
        forall|i: int|
            0 <= i < n ==> #[trigger] next_h[i] == line_at(h[2 * i], h[2 * i + 1], r),
    ensures
        dot(next_f, next_h, n) == round_at(f, h, n, r),
    decreases n,
{
    if n > 0 {
        lemma_round_folds(f, h, next_f, next_h, (n - 1) as nat, r);
    }
}

/// Flags that cover a table cover the folded table, and folding with them is folding.
pub proof fn lemma_fold_covers<E: Field>(h: Seq<E>, gates: Seq<bool>, n: nat, r: E)
    requires
        covers(gates, h, 2 * n),
        2 * n <= h.len(),
        2 * n <= gates.len(),
    ensures
        hg_folded(h, gates, n, r) == folded(h, n, r),
        covers(gates_folded(gates, n), hg_folded(h, gates, n, r), n),
        all_valid(hg_folded(h, gates, n, r), n),
{
    let zero = E::zero_spec();
    E::law_closed(zero, zero);
    assert forall|i: int| 0 <= i < n implies (#[trigger] hg_folded(h, gates, n, r)[i]) == line_at(
        h[2 * i],
        h[2 * i + 1],
        r,
    ) && hg_folded(h, gates, n, r)[i].valid() by {
        E::law_closed(h[2 * i], h[2 * i + 1].minus_spec(h[2 * i]).times_spec(r));
        if !(gates[2 * i] || gates[2 * i + 1]) {
            assert(h[2 * i] == zero && h[2 * i + 1] == zero);
            let d = zero.minus_spec(zero);
            E::law_plus_zero(zero);
            lemma_plus_minus(zero, zero);
            lemma_times_zero(r);
        }
    }
    assert(hg_folded(h, gates, n, r) =~= folded(h, n, r));
}

// ---------------------------------------------------------------------------
// Products of three tables
// ---------------------------------------------------------------------------

/// The round polynomial of three tables.
pub open spec fn cubic_at<E: Field>(eq: Seq<E>, f: Seq<E>, h: Seq<E>, n: nat, x: E) -> E
    decreases n,
{
    if n == 0 {
        E::zero_spec()
    } else {
        let i = n - 1;
        cubic_at(eq, f, h, i as nat, x).plus_spec(
            line_at(eq[2 * i], eq[2 * i + 1], x).times_spec(
                line_at(f[2 * i], f[2 * i + 1], x),
            ).times_spec(line_at(h[2 * i], h[2 * i + 1], x)),
        )
    }
}

/// The sum of the products of three tables' first `n` entries.
pub open spec fn triple_dot<E: Field>(a: Seq<E>, b: Seq<E>, c: Seq<E>, n: nat) -> E
    decreases n,
{
    if n == 0 {
        E::zero_spec()
    } else {
        triple_dot(a, b, c, (n - 1) as nat).plus_spec(
            a[n - 1].times_spec(b[n - 1]).times_spec(c[n - 1]),
        )
    }
}

/// A line at a small integer is the line at the sum of that many ones.
proof fn lemma_line_at_int<E: Field>(a: E, b: E, k: nat)
    requires
        a.valid(),
        b.valid(),
    ensures
        line_at_int(a, b, k) == line_at(a, b, copies(k, E::one_spec())),
    decreases k,
{
    let one = E::one_spec();
    lemma_line_ends(a, b);
    E::law_closed(a, b);
    if k == 1 {
        reveal_with_fuel(copies, 2);
        E::law_plus_commutes(E::zero_spec(), one);
        E::law_plus_zero(one);
    } else if k > 1 {
        let d = b.minus_spec(a);
        let c = copies((k - 1) as nat, one);
        lemma_line_at_int(a, b, (k - 1) as nat);
        E::law_closed(b, a);
        E::law_times_distributes(d, c, one);
        E::law_times_one(d);
        E::law_plus_associates(a, d.times_spec(c), d);
    }
}

proof fn lemma_triple_sum<E: Field>(eq: Seq<E>, f: Seq<E>, h: Seq<E>, n: nat, k: nat)
    requires
        all_valid(eq, 2 * n),
        all_valid(f, 2 * n),
        all_valid(h, 2 * n),
    ensures
        triple_sum(eq, f, h, n, k) == cubic_at(eq, f, h, n, copies(k, E::one_spec())),
    decreases n,
{
    if n > 0 {
        let i = n - 1;
        lemma_triple_sum(eq, f, h, i as nat, k);
        lemma_line_at_int(eq[2 * i], eq[2 * i + 1], k);
        lemma_line_at_int(f[2 * i], f[2 * i + 1], k);
        lemma_line_at_int(h[2 * i], h[2 * i + 1], k);
    }
}

/// The values of a cubic round are those of the round polynomial at zero, one, two and three.
pub proof fn lemma_cubic_values<E: Field>(eq: Seq<E>, f: Seq<E>, h: Seq<E>, n: nat)
    requires
        all_valid(eq, 2 * n),
        all_valid(f, 2 * n),
        all_valid(h, 2 * n),
    ensures
        cubic_values(eq, f, h, n) == Seq::new(
            4,
            |k: int| cubic_at(eq, f, h, n, copies(k as nat, E::one_spec())),
        ),
{
    lemma_triple_sum(eq, f, h, n, 0);
    lemma_triple_sum(eq, f, h, n, 1);
    lemma_triple_sum(eq, f, h, n, 2);
    lemma_triple_sum(eq, f, h, n, 3);
    assert(cubic_values(eq, f, h, n) =~= Seq::new(
        4,
        |k: int| cubic_at(eq, f, h, n, copies(k as nat, E::one_spec())),
    ));
}

/// The values at zero and one add up to the sum of all products.
pub proof fn lemma_cubic_total<E: Field>(eq: Seq<E>, f: Seq<E>, h: Seq<E>, n: nat)
    requires
        all_valid(eq, 2 * n),
        all_valid(f, 2 * n),
        all_valid(h, 2 * n),
    ensures
        cubic_at(eq, f, h, n, E::zero_spec()).plus_spec(cubic_at(eq, f, h, n, E::one_spec()))
            == triple_dot(eq, f, h, 2 * n),
    decreases n,
{
    let zero = E::zero_spec();
    if n == 0 {
        E::law_closed(zero, zero);
        E::law_plus_zero(zero);
    } else {
        let i = n - 1;
        lemma_cubic_total(eq, f, h, i as nat);
        lemma_line_ends(eq[2 * i], eq[2 * i + 1]);
        lemma_line_ends(f[2 * i], f[2 * i + 1]);
        lemma_line_ends(h[2 * i], h[2 * i + 1]);
        let p = eq[2 * i].times_spec(f[2 * i]).times_spec(h[2 * i]);
        let q = eq[2 * i + 1].times_spec(f[2 * i + 1]).times_spec(h[2 * i + 1]);
        lemma_plus_exchange(
            cubic_at(eq, f, h, i as nat, zero),
            p,
            cubic_at(eq, f, h, i as nat, E::one_spec()),
            q,
        );
        E::law_plus_associates(triple_dot(eq, f, h, (2 * i) as nat), p, q);
        reveal_with_fuel(triple_dot, 3);
        assert(triple_dot(eq, f, h, 2 * n) == triple_dot(eq, f, h, (2 * i) as nat).plus_spec(
            p,
        ).plus_spec(q));
    }
}

/// The value at the challenge is the sum of all products of the folded tables.
pub proof fn lemma_cubic_folds<E: Field>(eq: Seq<E>, f: Seq<E>, h: Seq<E>, n: nat, r: E)
    requires
        2 * n <= eq.len(),
        2 * n <= f.len(),
        2 * n <= h.len(),
    ensures
        triple_dot(folded(eq, n, r), folded(f, n, r), folded(h, n, r), n) == cubic_at(
            eq,
            f,
            h,
            n,
            r,
        ),
{
    lemma_cubic_folds_below(eq, f, h, n, n, r);
}

proof fn lemma_cubic_folds_below<E: Field>(
    eq: Seq<E>,
    f: Seq<E>,
    h: Seq<E>,
    n: nat,
    size: nat,
    r: E,
)
    requires
        n <= size,
        2 * size <= eq.len(),
        2 * size <= f.len(),
        2 * size <= h.len(),
    ensures
        triple_dot(folded(eq, size, r), folded(f, size, r), folded(h, size, r), n) == cubic_at(
            eq,
            f,
            h,
            n,
            r,
        ),
    decreases n,
{
    if n > 0 {
        lemma_cubic_folds_below(eq, f, h, (n - 1) as nat, size, r);
    }
}

} // verus!
