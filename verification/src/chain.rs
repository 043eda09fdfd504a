//! The messages of a layer hang together: each round's polynomial takes at its challenge the value
//! that the next round's values at zero and one add up to.
//!
//! Several processes prove one instance; `procs` lists what each of them holds, and what goes into
//! the transcript is the sum of their shares, weighted by `weights`.

use vstd::arithmetic::power2::*;
use vstd::prelude::*;

use crate::algebra::{
    copies, lemma_dot_commutes, lemma_dot_plus, lemma_dot_same, lemma_dot_times, lemma_dot_valid,
};
use crate::claims::{is_bound, lemma_is_bound_fold};
use crate::engine::{log2_spec, FieldEngine};
use crate::extension::{
    broadcasts, lemma_all_bound, lemma_broadcast_eq_table, lemma_eq_tables, lemma_wires_bound,
    promoted,
};
use crate::field::{lemma_plus_exchange, lemma_times_distributes_left, lemma_times_zero, Field};
use crate::gates::{
    add_sum, collected_seq, is_ready, lemma_add_sum_same, lemma_mul_sum_same, lemma_phase_ready,
    lemma_round_chain, lemma_second_coefs, lemma_second_phase_sum, mul_sum, round_sum,
};
use crate::gkr_protocol::{eq_table, wires_at};
use crate::instance::{lanes_combined, InstView};
use crate::poly::{dot, eq_vec_spec, folded, line_at};
use crate::product_gate::round_source;
use crate::rounds::{
    all_valid, cubic_at, lemma_cubic_folds, lemma_cubic_total, lemma_cubic_values,
    lemma_fold_covers, round_at, triple_dot,
};
use crate::scatter::{collected, collected_table};
use crate::simd_gate::cubic_values;

verus! {

// ---------------------------------------------------------------------------
// Polynomials
// ---------------------------------------------------------------------------

/// The polynomial with the coefficients `c`, lowest first, at `x`.
pub open spec fn poly_at<E: Field>(c: Seq<E>, x: E) -> E
    decreases c.len(),
{
    if c.len() == 0 {
        E::zero_spec()
    } else {
        c[0].plus_spec(x.times_spec(poly_at(c.drop_first(), x)))
    }
}

/// The coefficients of a sum.
pub open spec fn poly_plus<E: Field>(c: Seq<E>, d: Seq<E>) -> Seq<E> {
    Seq::new(c.len(), |k: int| c[k].plus_spec(d[k]))
}

/// The coefficients of a multiple.
pub open spec fn poly_scaled<E: Field>(c: Seq<E>, s: E) -> Seq<E> {
    Seq::new(c.len(), |k: int| c[k].times_spec(s))
}

/// The coefficients of the line through `a` at zero and `b` at one.
pub open spec fn line_poly<E: Field>(a: E, b: E) -> Seq<E> {
    seq![a, b.minus_spec(a)]
}

/// The coefficients of the product with the line through `a` at zero and `b` at one.
pub open spec fn poly_times_line<E: Field>(c: Seq<E>, a: E, b: E) -> Seq<E> {
    poly_plus(
        poly_scaled(c, a).push(E::zero_spec()),
        seq![E::zero_spec()] + poly_scaled(c, b.minus_spec(a)),
    )
}

proof fn lemma_poly_plus<E: Field>(c: Seq<E>, d: Seq<E>, x: E)
    requires
        c.len() == d.len(),
    ensures
        poly_at(poly_plus(c, d), x) == poly_at(c, x).plus_spec(poly_at(d, x)),
    decreases c.len(),
{
    if c.len() == 0 {
        E::law_closed(E::zero_spec(), E::zero_spec());
        E::law_plus_zero(E::zero_spec());
    } else {
        let (p, q) = (c.drop_first(), d.drop_first());
        lemma_poly_plus(p, q, x);
        assert(poly_plus(c, d).drop_first() =~= poly_plus(p, q));
        E::law_times_distributes(x, poly_at(p, x), poly_at(q, x));
        lemma_plus_exchange(
            c[0],
            d[0],
            x.times_spec(poly_at(p, x)),
            x.times_spec(poly_at(q, x)),
        );
    }
}

proof fn lemma_poly_scaled<E: Field>(c: Seq<E>, s: E, x: E)
    ensures
        poly_at(poly_scaled(c, s), x) == poly_at(c, x).times_spec(s),
    decreases c.len(),
{
    if c.len() == 0 {
        lemma_times_zero(s);
    } else {
        let p = c.drop_first();
        lemma_poly_scaled(p, s, x);
        assert(poly_scaled(c, s).drop_first() =~= poly_scaled(p, s));
        E::law_times_associates(x, poly_at(p, x), s);
        lemma_times_distributes_left(c[0], x.times_spec(poly_at(p, x)), s);
    }
}

proof fn lemma_poly_pushed<E: Field>(c: Seq<E>, x: E)
    ensures
        poly_at(c.push(E::zero_spec()), x) == poly_at(c, x),
    decreases c.len(),
{
    let longer = c.push(E::zero_spec());
    if c.len() == 0 {
        E::law_closed(E::zero_spec(), E::zero_spec());
        E::law_plus_zero(E::zero_spec());
        lemma_times_zero(x);
        assert(longer.drop_first() =~= Seq::<E>::empty());
        reveal_with_fuel(poly_at, 2);
    } else {
        lemma_poly_pushed(c.drop_first(), x);
        assert(longer.drop_first() =~= c.drop_first().push(E::zero_spec()));
    }
}

proof fn lemma_poly_shifted<E: Field>(c: Seq<E>, x: E)
    ensures
        poly_at(seq![E::zero_spec()] + c, x) == x.times_spec(poly_at(c, x)),
{
    let longer = seq![E::zero_spec()] + c;
    let rest = x.times_spec(poly_at(c, x));
    assert(longer.drop_first() =~= c);
    E::law_closed(x, poly_at(c, x));
    E::law_plus_commutes(E::zero_spec(), rest);
    E::law_plus_zero(rest);
}

proof fn lemma_line_poly<E: Field>(a: E, b: E, x: E)
    ensures
        poly_at(line_poly(a, b), x) == line_at(a, b, x),
{
    let d = b.minus_spec(a);
    let c = line_poly(a, b);
    assert(c.drop_first() =~= seq![d]);
    assert(c.drop_first().drop_first() =~= Seq::<E>::empty());
    E::law_closed(b, a);
    E::law_plus_zero(d);
    lemma_times_zero(x);
    E::law_times_commutes(x, d);
    reveal_with_fuel(poly_at, 3);
}

proof fn lemma_poly_times_line<E: Field>(c: Seq<E>, a: E, b: E, x: E)
    ensures
        poly_at(poly_times_line(c, a, b), x) == poly_at(c, x).times_spec(line_at(a, b, x)),
{
    let d = b.minus_spec(a);
    let p = poly_at(c, x);
    lemma_poly_plus(
        poly_scaled(c, a).push(E::zero_spec()),
        seq![E::zero_spec()] + poly_scaled(c, d),
        x,
    );
    lemma_poly_pushed(poly_scaled(c, a), x);
    lemma_poly_shifted(poly_scaled(c, d), x);
    lemma_poly_scaled(c, a, x);
    lemma_poly_scaled(c, d, x);
    // x (p d) == p (d x)
    E::law_times_commutes(x, p.times_spec(d));
    E::law_times_associates(p, d, x);
    E::law_times_distributes(p, a, d.times_spec(x));
}

/// The coefficients of the round polynomial of two tables.
pub open spec fn round_poly<E: Field>(f: Seq<E>, h: Seq<E>, n: nat) -> Seq<E>
    decreases n,
{
    if n == 0 {
        Seq::new(3, |k: int| E::zero_spec())
    } else {
        let i = n - 1;
        poly_plus(
            round_poly(f, h, i as nat),
            poly_times_line(line_poly(f[2 * i], f[2 * i + 1]), h[2 * i], h[2 * i + 1]),
        )
    }
}

/// The coefficients of the round polynomial of three tables.
pub open spec fn cubic_poly<E: Field>(eq: Seq<E>, f: Seq<E>, h: Seq<E>, n: nat) -> Seq<E>
    decreases n,
{
    if n == 0 {
        Seq::new(4, |k: int| E::zero_spec())
    } else {
        let i = n - 1;
        poly_plus(
            cubic_poly(eq, f, h, i as nat),
            poly_times_line(
                poly_times_line(
                    line_poly(eq[2 * i], eq[2 * i + 1]),
                    f[2 * i],
                    f[2 * i + 1],
                ),
                h[2 * i],
                h[2 * i + 1],
            ),
        )
    }
}

proof fn lemma_zero_poly<E: Field>(n: nat, x: E)
    ensures
        poly_at(Seq::new(n, |k: int| E::zero_spec()), x) == E::zero_spec(),
    decreases n,
{
    if n > 0 {
        let c = Seq::new(n, |k: int| E::zero_spec());
        lemma_zero_poly((n - 1) as nat, x);
        assert(c.drop_first() =~= Seq::new((n - 1) as nat, |k: int| E::zero_spec()));
        lemma_times_zero(x);
        E::law_closed(x, x);
        E::law_plus_zero(E::zero_spec());
    }
}

/// The round polynomial of two tables is a polynomial of degree two.
pub proof fn lemma_round_poly<E: Field>(f: Seq<E>, h: Seq<E>, n: nat, x: E)
    ensures
        round_poly(f, h, n).len() == 3,
        round_at(f, h, n, x) == poly_at(round_poly(f, h, n), x),
    decreases n,
{
    if n == 0 {
        lemma_zero_poly(3, x);
    } else {
        let i = n - 1;
        lemma_round_poly(f, h, i as nat, x);
        let line = line_poly(f[2 * i], f[2 * i + 1]);
        lemma_poly_plus(
            round_poly(f, h, i as nat),
            poly_times_line(line, h[2 * i], h[2 * i + 1]),
            x,
        );
        lemma_poly_times_line(line, h[2 * i], h[2 * i + 1], x);
        lemma_line_poly(f[2 * i], f[2 * i + 1], x);
    }
}

/// The round polynomial of three tables is a polynomial of degree three.
pub proof fn lemma_cubic_poly<E: Field>(eq: Seq<E>, f: Seq<E>, h: Seq<E>, n: nat, x: E)
    ensures
        cubic_poly(eq, f, h, n).len() == 4,
        cubic_at(eq, f, h, n, x) == poly_at(cubic_poly(eq, f, h, n), x),
    decreases n,
{
    if n == 0 {
        lemma_zero_poly(4, x);
    } else {
        let i = n - 1;
        lemma_cubic_poly(eq, f, h, i as nat, x);
        let line = line_poly(eq[2 * i], eq[2 * i + 1]);
        let two = poly_times_line(line, f[2 * i], f[2 * i + 1]);
        lemma_poly_plus(
            cubic_poly(eq, f, h, i as nat),
            poly_times_line(two, h[2 * i], h[2 * i + 1]),
            x,
        );
        lemma_poly_times_line(two, h[2 * i], h[2 * i + 1], x);
        lemma_poly_times_line(line, f[2 * i], f[2 * i + 1], x);
        lemma_line_poly(eq[2 * i], eq[2 * i + 1], x);
    }
}

// ---------------------------------------------------------------------------
// Weighted sums of polynomials
// ---------------------------------------------------------------------------

/// Combining the lanes is linear.
pub proof fn lemma_lanes_linear<F: FieldEngine>(
    p: F::Field,
    q: F::Field,
    c: F::ChallengeField,
    coefs: Seq<F::ChallengeField>,
)
    ensures
        lanes_combined::<F>(p.plus_spec(q), coefs) == lanes_combined::<F>(p, coefs).plus_spec(
            lanes_combined::<F>(q, coefs),
        ),
        lanes_combined::<F>(F::broadcast_spec(c).times_spec(p), coefs) == c.times_spec(
            lanes_combined::<F>(p, coefs),
        ),
        lanes_combined::<F>(F::Field::zero_spec(), coefs) == F::ChallengeField::zero_spec(),
{
    let n = F::pack_size_spec() as nat;
    let (a, b) = (F::unpack_spec(p), F::unpack_spec(q));
    let sum = F::unpack_spec(p.plus_spec(q));
    let multiple = F::unpack_spec(F::broadcast_spec(c).times_spec(p));
    let zeros = F::unpack_spec(F::Field::zero_spec());
    assert forall|l: int| 0 <= l < n implies #[trigger] sum[l] == a[l].plus_spec(b[l]) by {
        F::law_unpack(p, q, c, l);
    }
    lemma_dot_plus(a, b, sum, coefs, n);
    assert forall|l: int| 0 <= l < n implies #[trigger] multiple[l] == a[l].times_spec(c) by {
        F::law_unpack(F::broadcast_spec(c), p, c, l);
        F::ChallengeField::law_times_commutes(c, a[l]);
    }
    lemma_dot_times(a, multiple, c, coefs, n);
    F::ChallengeField::law_times_commutes(dot(a, coefs, n), c);
    let zero = F::ChallengeField::zero_spec();
    assert forall|l: int| 0 <= l < n implies #[trigger] zeros[l] == a[l].times_spec(zero) by {
        F::law_unpack(p, q, c, l);
        lemma_times_zero(a[l]);
    }
    lemma_dot_times(a, zeros, zero, coefs, n);
    lemma_times_zero(dot(a, coefs, n));
}

/// The lanes of a polynomial's coefficients, combined.
pub open spec fn lanes_poly<F: FieldEngine>(
    c: Seq<F::Field>,
    coefs: Seq<F::ChallengeField>,
) -> Seq<F::ChallengeField> {
    Seq::new(c.len(), |k: int| lanes_combined::<F>(c[k], coefs))
}

proof fn lemma_lanes_poly<F: FieldEngine>(
    c: Seq<F::Field>,
    coefs: Seq<F::ChallengeField>,
    x: F::ChallengeField,
)
    ensures
        lanes_combined::<F>(poly_at(c, F::broadcast_spec(x)), coefs) == poly_at(
            lanes_poly::<F>(c, coefs),
            x,
        ),
    decreases c.len(),
{
    if c.len() == 0 {
        lemma_lanes_linear::<F>(F::Field::zero_spec(), F::Field::zero_spec(), x, coefs);
    } else {
        let rest = c.drop_first();
        let p = poly_at(rest, F::broadcast_spec(x));
        lemma_lanes_poly::<F>(rest, coefs, x);
        assert(lanes_poly::<F>(c, coefs).drop_first() =~= lanes_poly::<F>(rest, coefs));
        lemma_lanes_linear::<F>(c[0], F::broadcast_spec(x).times_spec(p), x, coefs);
        lemma_lanes_linear::<F>(p, p, x, coefs);
    }
}

/// One entry of each process's list.
pub open spec fn column<E>(lists: Seq<Seq<E>>, k: int) -> Seq<E> {
    Seq::new(lists.len(), |p: int| lists[p][k])
}

/// The sum of the processes' values, weighted.
pub open spec fn weighted<E: Field>(weights: Seq<E>, values: Seq<E>) -> E {
    dot(values, weights, values.len())
}

/// What goes into the transcript: the sum of the processes' shares, weighted, entry by entry.
pub open spec fn absorbed<E: Field>(weights: Seq<E>, shares: Seq<Seq<E>>, len: nat) -> Seq<E> {
    Seq::new(len, |k: int| weighted(weights, column(shares, k)))
}

/// A weighted sum of polynomials is a polynomial.
proof fn lemma_weighted_poly<E: Field>(weights: Seq<E>, polys: Seq<Seq<E>>, len: nat, x: E)
    requires
        forall|p: int| 0 <= p < polys.len() ==> (#[trigger] polys[p]).len() == len,
    ensures
        weighted(weights, Seq::new(polys.len(), |p: int| poly_at(polys[p], x))) == poly_at(
            absorbed(weights, polys, len),
            x,
        ),
    decreases len,
{
    let n = polys.len();
    let values = Seq::new(n, |p: int| poly_at(polys[p], x));
    let whole = absorbed(weights, polys, len);
    if len == 0 {
        lemma_weighted_zero(weights, values, n);
    } else {
        let rests = Seq::new(n, |p: int| polys[p].drop_first());
        let small = (len - 1) as nat;
        let tails = Seq::new(n, |p: int| poly_at(rests[p], x));
        lemma_weighted_poly(weights, rests, small, x);
        assert(whole.drop_first() =~= absorbed(weights, rests, small)) by {
            assert forall|k: int| 0 <= k < small implies column(polys, k + 1) == #[trigger] column(
                rests,
                k,
            ) by {
                assert(column(polys, k + 1) =~= column(rests, k));
            }
        }
        let firsts = column(polys, 0);
        let scaled = Seq::new(n, |p: int| tails[p].times_spec(x));
        lemma_dot_times(tails, scaled, x, weights, n);
        assert forall|p: int| 0 <= p < n implies #[trigger] values[p] == firsts[p].plus_spec(
            scaled[p],
        ) by {
            assert(polys[p].len() == len);
            E::law_times_commutes(x, tails[p]);
        }
        lemma_dot_plus(firsts, scaled, values, weights, n);
        E::law_times_commutes(dot(tails, weights, n), x);
    }
}

proof fn lemma_weighted_zero<E: Field>(weights: Seq<E>, values: Seq<E>, n: nat)
    requires
        forall|p: int| 0 <= p < n ==> #[trigger] values[p] == E::zero_spec(),
    ensures
        dot(values, weights, n) == E::zero_spec(),
    decreases n,
{
    if n > 0 {
        lemma_weighted_zero(weights, values, (n - 1) as nat);
        assert(values[n - 1] == E::zero_spec());
        lemma_times_zero(weights[n - 1]);
        E::law_closed(E::zero_spec(), E::zero_spec());
        E::law_plus_zero(E::zero_spec());
    }
}

// ---------------------------------------------------------------------------
// Rounds
// ---------------------------------------------------------------------------

/// The values are those of the polynomial with the coefficients `c` at zero, one, two and so on;
/// its degree is below their number.
pub open spec fn is_through<E: Field>(c: Seq<E>, values: Seq<E>) -> bool {
    &&& c.len() == values.len()
    &&& forall|k: int|
        0 <= k < values.len() ==> #[trigger] values[k] == poly_at(
            c,
            copies(k as nat, E::one_spec()),
        )
}

/// The polynomial through the values takes the value `s` at `r`.
pub open spec fn leads_to<E: Field>(values: Seq<E>, r: E, s: E) -> bool {
    exists|c: Seq<E>| #[trigger] is_through(c, values) && poly_at(c, r) == s
}

/// Two neighbouring rounds: the first one's polynomial takes at its challenge the value that the
/// second one's values at zero and one add up to.
pub open spec fn continues<E: Field>(values: Seq<E>, r: E, next: Seq<E>) -> bool {
    leads_to(values, r, next[0].plus_spec(next[1]))
}

/// Small integers.
proof fn lemma_copies_of_one<E: Field>()
    ensures
        copies(0, E::one_spec()) == E::zero_spec(),
        copies(1, E::one_spec()) == E::one_spec(),
        copies(2, E::one_spec()) == E::one_spec().plus_spec(E::one_spec()),
{
    let (zero, one) = (E::zero_spec(), E::one_spec());
    reveal_with_fuel(copies, 3);
    E::law_closed(zero, zero);
    E::law_plus_commutes(zero, one);
    E::law_plus_zero(one);
}

/// The processes' shares of a round over the wire variables.
pub open spec fn wire_shares<F: FieldEngine>(procs: Seq<InstView<F>>, var: nat) -> Seq<
    Seq<F::ChallengeField>,
> {
    Seq::new(procs.len(), |p: int| procs[p].local(procs[p].host_values(var)))
}

/// The sum that round `var` over the wire variables is about, over all lanes and processes.
pub open spec fn wire_sum<F: FieldEngine>(
    procs: Seq<InstView<F>>,
    weights: Seq<F::ChallengeField>,
    var: nat,
) -> F::ChallengeField {
    weighted(
        weights,
        Seq::new(
            procs.len(),
            |p: int| lanes_combined::<F>(round_sum(procs[p], var), procs[p].pad.eq_simd),
        ),
    )
}

/// The processes' states after a fold at `r`.
pub open spec fn wires_folded<F: FieldEngine>(
    procs: Seq<InstView<F>>,
    first: bool,
    var: nat,
    r: F::ChallengeField,
) -> Seq<InstView<F>> {
    Seq::new(procs.len(), |p: int| procs[p].host_folded(var, r).noted(first, r))
}

/// The share of a process in a round over the wire variables, as a polynomial.
pub open spec fn wire_poly<F: FieldEngine>(inst: InstView<F>, var: nat) -> Seq<F::ChallengeField> {
    lanes_poly::<F>(
        round_poly(
            round_source::<F>(var, inst.pad.v_evals, inst.layer.input_vals@),
            inst.pad.hg_evals,
            inst.eval_size(var),
        ),
        inst.pad.eq_simd,
    )
}

proof fn lemma_wire_share<F: FieldEngine>(
    inst: InstView<F>,
    first: bool,
    var: nat,
    r: F::ChallengeField,
)
    requires
        inst.wf(),
        var < inst.input_var_num(),
        is_ready(inst, var),
    ensures
        ({
            let share = inst.local(inst.host_values(var));
            let next = inst.host_folded(var, r).noted(first, r);
            let eq = inst.pad.eq_simd;
            &&& is_through(wire_poly(inst, var), share)
            &&& share.len() == 3
            &&& share[0].plus_spec(share[1]) == lanes_combined::<F>(round_sum(inst, var), eq)
            &&& poly_at(wire_poly(inst, var), r) == lanes_combined::<F>(
                round_sum(next, var + 1),
                next.pad.eq_simd,
            )
            &&& next.wf()
            &&& is_ready(next, var + 1)
        }),
{
    let f = round_source::<F>(var, inst.pad.v_evals, inst.layer.input_vals@);
    let h = inst.pad.hg_evals;
    let n = inst.eval_size(var);
    let eq = inst.pad.eq_simd;
    let c = round_poly(f, h, n);
    let one = F::ChallengeField::one_spec();
    let zero = F::ChallengeField::zero_spec();
    let values = inst.host_values(var);
    lemma_round_chain(inst, var, r);
    let next = inst.host_folded(var, r);
    assert(round_sum(next.noted(first, r), var + 1) == round_sum(next, var + 1));
    F::law_broadcast(one, one);
    lemma_copies_of_one::<F::ChallengeField>();
    lemma_round_poly(f, h, n, F::broadcast_spec(zero));
    lemma_round_poly(f, h, n, F::broadcast_spec(one));
    lemma_round_poly(f, h, n, F::broadcast_spec(one.plus_spec(one)));
    lemma_round_poly(f, h, n, F::broadcast_spec(r));
    lemma_lanes_poly::<F>(c, eq, zero);
    lemma_lanes_poly::<F>(c, eq, one);
    lemma_lanes_poly::<F>(c, eq, one.plus_spec(one));
    lemma_lanes_poly::<F>(c, eq, r);
    lemma_lanes_linear::<F>(values[0], values[1], r, eq);
    let share = inst.local(values);
    assert forall|k: int| 0 <= k < 3 implies #[trigger] share[k] == poly_at(
        wire_poly(inst, var),
        copies(k as nat, one),
    ) by {
        if k == 0 {
        } else if k == 1 {
        } else {
            assert(k == 2);
        }
    }
}

/// Values that add up process by process add up.
proof fn lemma_weighted_plus<E: Field>(weights: Seq<E>, a: Seq<E>, b: Seq<E>, sum: Seq<E>)
    requires
        a.len() == sum.len(),
        b.len() == sum.len(),
        forall|p: int| 0 <= p < sum.len() ==> #[trigger] sum[p] == a[p].plus_spec(b[p]),
    ensures
        weighted(weights, sum) == weighted(weights, a).plus_spec(weighted(weights, b)),
{
    lemma_dot_plus(a, b, sum, weights, sum.len());
}

/// Shares that are polynomials add up to polynomials.
proof fn lemma_absorbed<E: Field>(
    weights: Seq<E>,
    shares: Seq<Seq<E>>,
    polys: Seq<Seq<E>>,
    sums: Seq<E>,
    nexts: Seq<E>,
    len: nat,
    r: E,
)
    requires
        len >= 2,
        polys.len() == shares.len(),
        sums.len() == shares.len(),
        nexts.len() == shares.len(),
        forall|p: int|
            0 <= p < shares.len() ==> (#[trigger] shares[p]).len() == len && is_through(
                polys[p],
                shares[p],
            ) && shares[p][0].plus_spec(shares[p][1]) == sums[p] && poly_at(polys[p], r)
                == nexts[p],
    ensures
        ({
            let values = absorbed(weights, shares, len);
            &&& values[0].plus_spec(values[1]) == weighted(weights, sums)
            &&& leads_to(values, r, weighted(weights, nexts))
        }),
{
    let n = shares.len();
    let values = absorbed(weights, shares, len);
    let c = absorbed(weights, polys, len);
    let one = E::one_spec();
    assert forall|p: int| 0 <= p < n implies (#[trigger] polys[p]).len() == len by {
        assert(shares[p].len() == len);
    }
    assert forall|p: int| 0 <= p < n implies #[trigger] sums[p] == column(shares, 0)[p].plus_spec(
        column(shares, 1)[p],
    ) by {
        assert(shares[p].len() == len);
    }
    lemma_weighted_plus(weights, column(shares, 0), column(shares, 1), sums);
    assert forall|k: int| 0 <= k < len implies #[trigger] values[k] == poly_at(
        c,
        copies(k as nat, one),
    ) by {
        let x = copies(k as nat, one);
        lemma_weighted_poly(weights, polys, len, x);
        let points = Seq::new(n, |p: int| poly_at(polys[p], x));
        assert forall|p: int| 0 <= p < n implies #[trigger] column(shares, k)[p] == points[p] by {
            assert(shares[p].len() == len);
            assert(shares[p][k] == poly_at(polys[p], x));
        }
        assert(column(shares, k) =~= points);
    }
    lemma_weighted_poly(weights, polys, len, r);
    assert(nexts =~= Seq::new(n, |p: int| poly_at(polys[p], r))) by {
        assert forall|p: int| 0 <= p < n implies #[trigger] nexts[p] == poly_at(polys[p], r) by {
            assert(shares[p].len() == len);
        }
    }
    assert(is_through(c, values));
}

/// The processes are ready for round `var` over the wire variables.
pub open spec fn wires_ready<F: FieldEngine>(procs: Seq<InstView<F>>, n: nat, var: nat) -> bool {
    forall|p: int|
        0 <= p < procs.len() ==> {
            let inst = #[trigger] procs[p];
            &&& inst.wf()
            &&& inst.input_var_num() == n
            &&& is_ready(inst, var)
        }
}

/// A round over the wire variables: the values at zero and one add up to the sum in hand, and the
/// polynomial takes at the challenge the sum of the next round.
pub proof fn lemma_wire_round<F: FieldEngine>(
    procs: Seq<InstView<F>>,
    weights: Seq<F::ChallengeField>,
    first: bool,
    n: nat,
    var: nat,
    r: F::ChallengeField,
)
    requires
        var < n,
        wires_ready(procs, n, var),
    ensures
        ({
            let values = absorbed(weights, wire_shares(procs, var), 3);
            let next = wires_folded(procs, first, var, r);
            &&& values[0].plus_spec(values[1]) == wire_sum(procs, weights, var)
            &&& leads_to(values, r, wire_sum(next, weights, var + 1))
            &&& wires_ready(next, n, var + 1)
        }),
{
    let shares = wire_shares(procs, var);
    let next = wires_folded(procs, first, var, r);
    let polys = Seq::new(procs.len(), |p: int| wire_poly(procs[p], var));
    let sums = Seq::new(
        procs.len(),
        |p: int| lanes_combined::<F>(round_sum(procs[p], var), procs[p].pad.eq_simd),
    );
    let nexts = Seq::new(
        next.len(),
        |p: int| lanes_combined::<F>(round_sum(next[p], var + 1), next[p].pad.eq_simd),
    );
    assert forall|p: int| 0 <= p < procs.len() implies {
        &&& (#[trigger] shares[p]).len() == 3
        &&& is_through(polys[p], shares[p])
        &&& shares[p][0].plus_spec(shares[p][1]) == sums[p]
        &&& poly_at(polys[p], r) == nexts[p]
        &&& next[p].wf()
        &&& is_ready(next[p], var + 1)
    } by {
        assert(is_ready(procs[p], var));
        lemma_wire_share(procs[p], first, var, r);
    }
    lemma_absorbed(weights, shares, polys, sums, nexts, 3, r);
    assert forall|p: int| 0 <= p < next.len() implies {
        let inst = #[trigger] next[p];
        &&& inst.wf()
        &&& inst.input_var_num() == n
        &&& is_ready(inst, var + 1)
    } by {
        assert(shares[p].len() == 3);
        assert(procs[p].input_var_num() == n);
    }
}

// -- lanes

/// The processes' shares of a round over the lane variables.
pub open spec fn lane_shares<F: FieldEngine>(procs: Seq<InstView<F>>, var: nat) -> Seq<
    Seq<F::ChallengeField>,
> {
    Seq::new(procs.len(), |p: int| procs[p].simd_values(var))
}

/// The sum that round `var` over the lane variables is about, over all processes.
pub open spec fn lane_sum<F: FieldEngine>(
    procs: Seq<InstView<F>>,
    weights: Seq<F::ChallengeField>,
    var: nat,
) -> F::ChallengeField {
    weighted(
        weights,
        Seq::new(
            procs.len(),
            |p: int|
                triple_dot(
                    procs[p].pad.eq_simd,
                    procs[p].pad.simd_v,
                    procs[p].pad.simd_hg,
                    pow2((procs[p].simd_var_num() - var) as nat),
                ),
        ),
    )
}

/// The processes' states after a challenge over the lane variables.
pub open spec fn lanes_folded<F: FieldEngine>(
    procs: Seq<InstView<F>>,
    var: nat,
    r: F::ChallengeField,
) -> Seq<InstView<F>> {
    Seq::new(procs.len(), |p: int| procs[p].simd_received(var, r))
}

/// The lane tables of an instance are in canonical form.
pub open spec fn lanes_valid<F: FieldEngine>(inst: InstView<F>, var: nat) -> bool {
    let size = pow2((inst.simd_var_num() - var) as nat);
    &&& all_valid(inst.pad.eq_simd, size)
    &&& all_valid(inst.pad.simd_v, size)
    &&& all_valid(inst.pad.simd_hg, size)
}

/// The processes are ready for round `var` over the lane variables.
pub open spec fn lanes_ready<F: FieldEngine>(procs: Seq<InstView<F>>, var: nat) -> bool {
    forall|p: int|
        0 <= p < procs.len() ==> (#[trigger] procs[p]).wf() && lanes_valid(procs[p], var)
}

proof fn lemma_folded_valid<E: Field>(t: Seq<E>, n: nat, r: E)
    requires
        n <= t.len(),
    ensures
        all_valid(folded(t, n, r), n),
{
    assert forall|i: int| 0 <= i < n implies (#[trigger] folded(t, n, r)[i]).valid() by {
        E::law_closed(t[2 * i], t[2 * i + 1].minus_spec(t[2 * i]).times_spec(r));
    }
}

/// A round over three tables, as a polynomial.
proof fn lemma_cubic_round<E: Field>(eq: Seq<E>, f: Seq<E>, h: Seq<E>, n: nat, r: E)
    requires
        2 * n <= eq.len(),
        2 * n <= f.len(),
        2 * n <= h.len(),
        all_valid(eq, 2 * n),
        all_valid(f, 2 * n),
        all_valid(h, 2 * n),
    ensures
        ({
            let values = cubic_values(eq, f, h, n);
            &&& values.len() == 4
            &&& is_through(cubic_poly(eq, f, h, n), values)
            &&& values[0].plus_spec(values[1]) == triple_dot(eq, f, h, 2 * n)
            &&& poly_at(cubic_poly(eq, f, h, n), r) == triple_dot(
                folded(eq, n, r),
                folded(f, n, r),
                folded(h, n, r),
                n,
            )
        }),
{
    let one = E::one_spec();
    let values = cubic_values(eq, f, h, n);
    lemma_cubic_values(eq, f, h, n);
    lemma_cubic_total(eq, f, h, n);
    lemma_cubic_folds(eq, f, h, n, r);
    lemma_copies_of_one::<E>();
    lemma_cubic_poly(eq, f, h, n, r);
    assert forall|k: int| 0 <= k < 4 implies #[trigger] values[k] == poly_at(
        cubic_poly(eq, f, h, n),
        copies(k as nat, one),
    ) by {
        lemma_cubic_poly(eq, f, h, n, copies(k as nat, one));
    }
}

/// A round over the lane variables: the values at zero and one add up to the sum in hand, and the
/// polynomial takes at the challenge the sum of the next round.
pub proof fn lemma_lane_round<F: FieldEngine>(
    procs: Seq<InstView<F>>,
    weights: Seq<F::ChallengeField>,
    var: nat,
    r: F::ChallengeField,
)
    requires
        var < log2_spec(F::pack_size_spec()),
        lanes_ready(procs, var),
    ensures
        ({
            let values = absorbed(weights, lane_shares(procs, var), 4);
            let next = lanes_folded(procs, var, r);
            &&& values[0].plus_spec(values[1]) == lane_sum(procs, weights, var)
            &&& leads_to(values, r, lane_sum(next, weights, var + 1))
            &&& lanes_ready(next, var + 1)
        }),
{
    let lanes = log2_spec(F::pack_size_spec());
    let n = pow2((lanes - var - 1) as nat);
    F::law_pack_size();
    lemma_pow2_unfold((lanes - var) as nat);
    if var > 0 {
        lemma_pow2_strictly_increases((lanes - var) as nat, lanes);
    }
    let shares = lane_shares(procs, var);
    let next = lanes_folded(procs, var, r);
    let polys = Seq::new(
        procs.len(),
        |p: int| cubic_poly(procs[p].pad.eq_simd, procs[p].pad.simd_v, procs[p].pad.simd_hg, n),
    );
    let sums = Seq::new(
        procs.len(),
        |p: int|
            triple_dot(
                procs[p].pad.eq_simd,
                procs[p].pad.simd_v,
                procs[p].pad.simd_hg,
                pow2((procs[p].simd_var_num() - var) as nat),
            ),
    );
    let nexts = Seq::new(
        next.len(),
        |p: int|
            triple_dot(
                next[p].pad.eq_simd,
                next[p].pad.simd_v,
                next[p].pad.simd_hg,
                pow2((next[p].simd_var_num() - (var + 1)) as nat),
            ),
    );
    assert forall|p: int| 0 <= p < procs.len() implies {
        &&& (#[trigger] shares[p]).len() == 4
        &&& is_through(polys[p], shares[p])
        &&& shares[p][0].plus_spec(shares[p][1]) == sums[p]
        &&& poly_at(polys[p], r) == nexts[p]
        &&& next[p].wf()
        &&& lanes_valid(next[p], var + 1)
    } by {
        let pad = procs[p].pad;
        assert(procs[p].wf() && lanes_valid(procs[p], var));
        lemma_cubic_round(pad.eq_simd, pad.simd_v, pad.simd_hg, n, r);
        lemma_folded_valid(pad.eq_simd, n, r);
        lemma_folded_valid(pad.simd_v, n, r);
        lemma_folded_valid(pad.simd_hg, n, r);
    }
    lemma_absorbed(weights, shares, polys, sums, nexts, 4, r);
    assert forall|p: int| 0 <= p < next.len() implies (#[trigger] next[p]).wf() && lanes_valid(
        next[p],
        var + 1,
    ) by {
        assert(shares[p].len() == 4);
    }
}

/// The sum of products of three, from the sum of products of two.
proof fn lemma_triple_dot<E: Field>(xy: Seq<E>, x: Seq<E>, y: Seq<E>, w: Seq<E>, n: nat)
    requires
        forall|l: int| 0 <= l < n ==> #[trigger] xy[l] == x[l].times_spec(y[l]),
    ensures
        dot(xy, w, n) == triple_dot(w, x, y, n),
    decreases n,
{
    if n > 0 {
        let l = n - 1;
        lemma_triple_dot(xy, x, y, w, l as nat);
        assert(xy[l] == x[l].times_spec(y[l]));
        E::law_times_commutes(x[l].times_spec(y[l]), w[l]);
        E::law_times_associates(w[l], x[l], y[l]);
    }
}

/// What the last round over the wire variables leaves is what the rounds over the lane variables
/// start from.
pub proof fn lemma_wires_to_lanes<F: FieldEngine>(
    procs: Seq<InstView<F>>,
    weights: Seq<F::ChallengeField>,
    n: nat,
)
    requires
        n >= 1,
        wires_ready(procs, n, n),
        forall|p: int|
            0 <= p < procs.len() ==> all_valid(
                (#[trigger] procs[p]).pad.eq_simd,
                F::pack_size_spec() as nat,
            ),
    ensures
        ({
            let next = Seq::new(procs.len(), |p: int| procs[p].simd_vars_prepared());
            &&& lane_sum(next, weights, 0) == wire_sum(procs, weights, n)
            &&& lanes_ready(next, 0)
        }),
{
    let next = Seq::new(procs.len(), |p: int| procs[p].simd_vars_prepared());
    let pack = F::pack_size_spec() as nat;
    F::law_pack_size();
    lemma2_to64();
    let before = Seq::new(
        procs.len(),
        |p: int| lanes_combined::<F>(round_sum(procs[p], n), procs[p].pad.eq_simd),
    );
    let behind = Seq::new(
        next.len(),
        |p: int|
            triple_dot(
                next[p].pad.eq_simd,
                next[p].pad.simd_v,
                next[p].pad.simd_hg,
                pow2((next[p].simd_var_num() - 0) as nat),
            ),
    );
    assert forall|p: int| 0 <= p < procs.len() implies {
        &&& #[trigger] before[p] == behind[p]
        &&& next[p].wf()
        &&& lanes_valid(next[p], 0)
    } by {
        let inst = procs[p];
        assert(inst.wf() && inst.input_var_num() == n && is_ready(inst, n));
        let (v, h) = (inst.pad.v_evals[0], inst.pad.hg_evals[0]);
        let c = F::ChallengeField::zero_spec();
        let (x, y) = (F::unpack_spec(v), F::unpack_spec(h));
        let xy = F::unpack_spec(v.times_spec(h));
        let zero = F::Field::zero_spec();
        assert(v.valid() && h.valid());
        F::law_unpack(v, h, c, 0);
        F::law_unpack(h, v, c, 0);
        assert forall|l: int| 0 <= l < pack implies #[trigger] xy[l] == x[l].times_spec(y[l])
            && x[l].valid() && y[l].valid() by {
            F::law_unpack(v, h, c, l);
            F::law_unpack(h, v, c, l);
        }
        lemma_triple_dot(xy, x, y, inst.pad.eq_simd, pack);
        F::Field::law_closed(v, h);
        F::Field::law_plus_commutes(zero, v.times_spec(h));
        F::Field::law_plus_zero(v.times_spec(h));
        reveal_with_fuel(dot, 2);
        assert(round_sum(inst, n) == v.times_spec(h));
        assert forall|l: int| 0 <= l < pack implies (#[trigger] x[l]).valid() by {
            assert(xy[l] == x[l].times_spec(y[l]));
        }
        assert forall|l: int| 0 <= l < pack implies (#[trigger] y[l]).valid() by {
            assert(xy[l] == x[l].times_spec(y[l]));
        }
        assert(all_valid(inst.pad.eq_simd, pack));
    }
    assert(before =~= behind);
    assert forall|p: int| 0 <= p < next.len() implies (#[trigger] next[p]).wf() && lanes_valid(
        next[p],
        0,
    ) by {
        assert(before[p] == behind[p]);
    }
}

// -- processes

/// The sum that round `var` over the process variables is about.
pub open spec fn process_sum<F: FieldEngine>(inst: InstView<F>, var: nat) -> F::ChallengeField {
    triple_dot(
        inst.pad.eq_mpi,
        inst.pad.mpi_v,
        inst.pad.mpi_hg,
        pow2((inst.mpi_var_num - var) as nat),
    )
}

/// The process tables of an instance are in canonical form.
pub open spec fn processes_ready<F: FieldEngine>(inst: InstView<F>, var: nat) -> bool {
    let size = pow2((inst.mpi_var_num - var) as nat);
    &&& inst.wf()
    &&& all_valid(inst.pad.eq_mpi, size)
    &&& all_valid(inst.pad.mpi_v, size)
    &&& all_valid(inst.pad.mpi_hg, size)
}

/// A round over the process variables: the values at zero and one add up to the sum in hand, and
/// the polynomial takes at the challenge the sum of the next round.
pub proof fn lemma_process_round<F: FieldEngine>(
    inst: InstView<F>,
    var: nat,
    r: F::ChallengeField,
)
    requires
        var < inst.mpi_var_num,
        processes_ready(inst, var),
    ensures
        ({
            let values = inst.mpi_values(var);
            let next = inst.mpi_received(var, r);
            &&& values[0].plus_spec(values[1]) == process_sum(inst, var)
            &&& leads_to(values, r, process_sum(next, var + 1))
            &&& processes_ready(next, var + 1)
        }),
{
    let world = inst.mpi_var_num;
    let n = pow2((world - var - 1) as nat);
    let pad = inst.pad;
    lemma_pow2_unfold((world - var) as nat);
    if var > 0 {
        lemma_pow2_strictly_increases((world - var) as nat, world);
    }
    lemma_cubic_round(pad.eq_mpi, pad.mpi_v, pad.mpi_hg, n, r);
    lemma_folded_valid(pad.eq_mpi, n, r);
    lemma_folded_valid(pad.mpi_v, n, r);
    lemma_folded_valid(pad.mpi_hg, n, r);
    assert(is_through(cubic_poly(pad.eq_mpi, pad.mpi_v, pad.mpi_hg, n), inst.mpi_values(var)));
}

/// The shares that the processes send once the lane variables are bound.
pub open spec fn v_shares<F: FieldEngine>(procs: Seq<InstView<F>>) -> Seq<F::ChallengeField> {
    Seq::new(procs.len(), |p: int| procs[p].v_share())
}

pub open spec fn hg_shares<F: FieldEngine>(procs: Seq<InstView<F>>) -> Seq<F::ChallengeField> {
    Seq::new(procs.len(), |p: int| procs[p].hg_share())
}

/// What the last round over the lane variables leaves is what the rounds over the process
/// variables start from, where these gather the processes' shares.
pub proof fn lemma_lanes_to_processes<F: FieldEngine>(
    procs: Seq<InstView<F>>,
    weights: Seq<F::ChallengeField>,
    inst: InstView<F>,
)
    requires
        lanes_ready(procs, log2_spec(F::pack_size_spec())),
        inst.wf(),
        procs.len() == pow2(inst.mpi_var_num),
        weights == inst.process_weights(),
        all_valid(weights, procs.len()),
    ensures
        ({
            let root = inst.gathered(v_shares(procs), hg_shares(procs));
            &&& process_sum(root, 0) == lane_sum(procs, weights, log2_spec(F::pack_size_spec()))
            &&& processes_ready(root, 0)
        }),
{
    let lanes = log2_spec(F::pack_size_spec());
    let root = inst.gathered(v_shares(procs), hg_shares(procs));
    let n = procs.len();
    F::law_pack_size();
    lemma2_to64();
    let sums = Seq::new(
        n,
        |p: int|
            triple_dot(
                procs[p].pad.eq_simd,
                procs[p].pad.simd_v,
                procs[p].pad.simd_hg,
                pow2((procs[p].simd_var_num() - lanes) as nat),
            ),
    );
    let products = Seq::new(n, |p: int| root.pad.mpi_v[p].times_spec(root.pad.mpi_hg[p]));
    assert forall|p: int| 0 <= p < n implies {
        &&& #[trigger] sums[p] == products[p]
        &&& root.pad.mpi_v[p].valid()
        &&& root.pad.mpi_hg[p].valid()
    } by {
        let pad = procs[p].pad;
        assert(procs[p].wf() && lanes_valid(procs[p], lanes));
        let (e, v, h) = (pad.eq_simd[0], pad.simd_v[0], pad.simd_hg[0]);
        let zero = F::ChallengeField::zero_spec();
        let whole = e.times_spec(v).times_spec(h);
        F::ChallengeField::law_closed(e.times_spec(v), h);
        F::ChallengeField::law_closed(h, e);
        F::ChallengeField::law_plus_commutes(zero, whole);
        F::ChallengeField::law_plus_zero(whole);
        reveal_with_fuel(triple_dot, 2);
        assert(sums[p] == whole);
        // (e v) h == v (h e)
        F::ChallengeField::law_times_commutes(e, v);
        F::ChallengeField::law_times_associates(v, e, h);
        F::ChallengeField::law_times_commutes(e, h);
        assert(v.valid());
    }
    assert(sums =~= products);
    lemma_triple_dot(products, root.pad.mpi_v, root.pad.mpi_hg, weights, n);
    lemma_triple_dot(products, root.pad.mpi_v, root.pad.mpi_hg, root.pad.eq_mpi, n);
    assert forall|p: int| 0 <= p < n implies #[trigger] root.pad.eq_mpi[p] == weights[p] by {}
    lemma_dot_same(products, weights, products, root.pad.eq_mpi, n);
    assert forall|p: int| 0 <= p < n implies (#[trigger] root.pad.mpi_v[p]).valid() by {
        assert(sums[p] == products[p]);
    }
    assert forall|p: int| 0 <= p < n implies (#[trigger] root.pad.mpi_hg[p]).valid() by {
        assert(sums[p] == products[p]);
    }
}

// ---------------------------------------------------------------------------
// The first phase
// ---------------------------------------------------------------------------

/// The processes' states after the first `k` challenges over the wire variables.
pub open spec fn wired<F: FieldEngine>(
    procs: Seq<InstView<F>>,
    first: bool,
    rs: Seq<F::ChallengeField>,
    k: nat,
) -> Seq<InstView<F>>
    decreases k,
{
    if k == 0 {
        procs
    } else {
        let m = (k - 1) as nat;
        wires_folded(wired(procs, first, rs, m), first, m, rs[m as int])
    }
}

/// The processes' states after the first `k` challenges over the lane variables.
pub open spec fn laned<F: FieldEngine>(
    procs: Seq<InstView<F>>,
    rs: Seq<F::ChallengeField>,
    k: nat,
) -> Seq<InstView<F>>
    decreases k,
{
    if k == 0 {
        procs
    } else {
        let m = (k - 1) as nat;
        lanes_folded(laned(procs, rs, m), m, rs[m as int])
    }
}

/// The root's state after the first `k` challenges over the process variables.
pub open spec fn processed<F: FieldEngine>(
    inst: InstView<F>,
    rs: Seq<F::ChallengeField>,
    k: nat,
) -> InstView<F>
    decreases k,
{
    if k == 0 {
        inst
    } else {
        let m = (k - 1) as nat;
        processed(inst, rs, m).mpi_received(m, rs[m as int])
    }
}

/// The processes of one instance in its first phase, and the challenges of that phase, by kind of
/// variable.
pub struct FirstPhase<F: FieldEngine> {
    pub procs: Seq<InstView<F>>,
    pub rx: Seq<F::ChallengeField>,
    pub r_simd: Seq<F::ChallengeField>,
    pub r_mpi: Seq<F::ChallengeField>,
}

impl<F: FieldEngine> FirstPhase<F> {
    pub open spec fn wires(self) -> nat {
        self.procs[0].input_var_num()
    }

    pub open spec fn lanes(self) -> nat {
        log2_spec(F::pack_size_spec())
    }

    pub open spec fn world(self) -> nat {
        self.procs[0].mpi_var_num
    }

    /// The number of rounds.
    pub open spec fn rounds(self) -> nat {
        self.wires() + self.lanes() + self.world()
    }

    /// The weights of the processes.
    pub open spec fn weights(self) -> Seq<F::ChallengeField> {
        self.procs[0].process_weights()
    }

    /// There is one state for each process, they are ready for the first round, and there is a
    /// challenge for each round.
    pub open spec fn wf(self) -> bool {
        &&& self.procs.len() == pow2(self.world())
        &&& self.wires() >= 1
        &&& wires_ready(self.procs, self.wires(), 0)
        &&& forall|p: int|
            0 <= p < self.procs.len() ==> all_valid(
                (#[trigger] self.procs[p]).pad.eq_simd,
                F::pack_size_spec() as nat,
            )
        &&& all_valid(self.weights(), self.procs.len())
        &&& self.rx.len() == self.wires()
        &&& self.r_simd.len() == self.lanes()
        &&& self.r_mpi.len() == self.world()
    }

    pub open spec fn at_wire(self, k: nat) -> Seq<InstView<F>> {
        wired(self.procs, true, self.rx, k)
    }

    pub open spec fn at_lane(self, k: nat) -> Seq<InstView<F>> {
        let last = self.at_wire(self.wires());
        laned(Seq::new(last.len(), |p: int| last[p].simd_vars_prepared()), self.r_simd, k)
    }

    pub open spec fn root(self) -> InstView<F> {
        let last = self.at_lane(self.lanes());
        last[0].gathered(v_shares(last), hg_shares(last))
    }

    pub open spec fn at_process(self, k: nat) -> InstView<F> {
        processed(self.root(), self.r_mpi, k)
    }

    /// What goes into the transcript in round `j`.
    pub open spec fn message(self, j: nat) -> Seq<F::ChallengeField> {
        let (n, l) = (self.wires(), self.lanes());
        if j < n {
            absorbed(self.weights(), wire_shares(self.at_wire(j), j), 3)
        } else if j < n + l {
            let k = (j - n) as nat;
            absorbed(self.weights(), lane_shares(self.at_lane(k), k), 4)
        } else {
            let k = (j - n - l) as nat;
            self.at_process(k).mpi_values(k)
        }
    }

    /// The challenge of round `j`.
    pub open spec fn challenge(self, j: nat) -> F::ChallengeField {
        let (n, l) = (self.wires(), self.lanes());
        if j < n {
            self.rx[j as int]
        } else if j < n + l {
            self.r_simd[j - n]
        } else {
            self.r_mpi[j - n - l]
        }
    }

    /// The sum that round `j` is about; after the last round, the sum that it leaves.
    pub open spec fn sum(self, j: nat) -> F::ChallengeField {
        let (n, l) = (self.wires(), self.lanes());
        if j < n {
            wire_sum(self.at_wire(j), self.weights(), j)
        } else if j < n + l {
            let k = (j - n) as nat;
            lane_sum(self.at_lane(k), self.weights(), k)
        } else {
            let k = (j - n - l) as nat;
            process_sum(self.at_process(k), k)
        }
    }
}

/// What the folds over the wire variables leave alone.
proof fn lemma_wired<F: FieldEngine>(
    procs: Seq<InstView<F>>,
    weights: Seq<F::ChallengeField>,
    first: bool,
    rs: Seq<F::ChallengeField>,
    n: nat,
    k: nat,
)
    requires
        wires_ready(procs, n, 0),
        k <= n,
        k <= rs.len(),
    ensures
        wired(procs, first, rs, k).len() == procs.len(),
        wires_ready(wired(procs, first, rs, k), n, k),
        forall|p: int|
            0 <= p < procs.len() ==> {
                let inst = #[trigger] wired(procs, first, rs, k)[p];
                &&& inst.pad.eq_simd == procs[p].pad.eq_simd
                &&& inst.pad.eq_mpi == procs[p].pad.eq_mpi
                &&& inst.pad.eq_rz0 == procs[p].pad.eq_rz0
                &&& inst.layer == procs[p].layer
                &&& inst.challenge == procs[p].challenge
                &&& inst.mpi_var_num == procs[p].mpi_var_num
                &&& inst.r_simd_var == procs[p].r_simd_var
                &&& inst.r_mpi_var == procs[p].r_mpi_var
            },
    decreases k,
{
    if k > 0 {
        let m = (k - 1) as nat;
        lemma_wired(procs, weights, first, rs, n, m);
        lemma_wire_round(wired(procs, first, rs, m), weights, first, n, m, rs[m as int]);
        assert forall|p: int| 0 <= p < procs.len() implies {
            let inst = #[trigger] wired(procs, first, rs, k)[p];
            &&& inst.pad.eq_simd == procs[p].pad.eq_simd
            &&& inst.pad.eq_mpi == procs[p].pad.eq_mpi
            &&& inst.pad.eq_rz0 == procs[p].pad.eq_rz0
            &&& inst.layer == procs[p].layer
            &&& inst.challenge == procs[p].challenge
            &&& inst.mpi_var_num == procs[p].mpi_var_num
            &&& inst.r_simd_var == procs[p].r_simd_var
            &&& inst.r_mpi_var == procs[p].r_mpi_var
        } by {
            let before = wired(procs, first, rs, m)[p];
            assert(before.layer == procs[p].layer);
        }
    }
}

/// What the folds over the lane variables leave alone.
proof fn lemma_laned<F: FieldEngine>(
    procs: Seq<InstView<F>>,
    weights: Seq<F::ChallengeField>,
    rs: Seq<F::ChallengeField>,
    k: nat,
)
    requires
        lanes_ready(procs, 0),
        k <= log2_spec(F::pack_size_spec()),
        k <= rs.len(),
    ensures
        laned(procs, rs, k).len() == procs.len(),
        lanes_ready(laned(procs, rs, k), k),
        forall|p: int|
            0 <= p < procs.len() ==> {
                let inst = #[trigger] laned(procs, rs, k)[p];
                &&& inst.pad.eq_mpi == procs[p].pad.eq_mpi
                &&& inst.pad.eq_rz0 == procs[p].pad.eq_rz0
                &&& inst.pad.eq_rx == procs[p].pad.eq_rx
                &&& inst.layer == procs[p].layer
                &&& inst.challenge == procs[p].challenge
                &&& inst.mpi_var_num == procs[p].mpi_var_num
                &&& inst.rx == procs[p].rx
                &&& inst.r_mpi_var == procs[p].r_mpi_var
            },
    decreases k,
{
    if k > 0 {
        let m = (k - 1) as nat;
        lemma_laned(procs, weights, rs, m);
        lemma_lane_round(laned(procs, rs, m), weights, m, rs[m as int]);
        assert forall|p: int| 0 <= p < procs.len() implies {
            let inst = #[trigger] laned(procs, rs, k)[p];
            &&& inst.pad.eq_mpi == procs[p].pad.eq_mpi
            &&& inst.pad.eq_rz0 == procs[p].pad.eq_rz0
            &&& inst.pad.eq_rx == procs[p].pad.eq_rx
            &&& inst.layer == procs[p].layer
            &&& inst.challenge == procs[p].challenge
            &&& inst.mpi_var_num == procs[p].mpi_var_num
            &&& inst.rx == procs[p].rx
            &&& inst.r_mpi_var == procs[p].r_mpi_var
        } by {
            let before = laned(procs, rs, m)[p];
            assert(before.layer == procs[p].layer);
        }
    }
}

proof fn lemma_processed<F: FieldEngine>(
    inst: InstView<F>,
    rs: Seq<F::ChallengeField>,
    k: nat,
)
    requires
        processes_ready(inst, 0),
        k <= inst.mpi_var_num,
        k <= rs.len(),
    ensures
        processes_ready(processed(inst, rs, k), k),
        processed(inst, rs, k).mpi_var_num == inst.mpi_var_num,
    decreases k,
{
    if k > 0 {
        let m = (k - 1) as nat;
        lemma_processed(inst, rs, m);
        lemma_process_round(processed(inst, rs, m), m, rs[m as int]);
    }
}

/// The stations of the first phase are what they should be.
proof fn lemma_first_phase<F: FieldEngine>(phase: FirstPhase<F>)
    requires
        phase.wf(),
    ensures
        phase.at_wire(phase.wires()).len() == phase.procs.len(),
        lanes_ready(phase.at_lane(0), 0),
        phase.at_lane(0).len() == phase.procs.len(),
        lane_sum(phase.at_lane(0), phase.weights(), 0) == wire_sum(
            phase.at_wire(phase.wires()),
            phase.weights(),
            phase.wires(),
        ),
        processes_ready(phase.root(), 0),
        phase.root().mpi_var_num == phase.world(),
        process_sum(phase.root(), 0) == lane_sum(
            phase.at_lane(phase.lanes()),
            phase.weights(),
            phase.lanes(),
        ),
{
    let (n, l, w) = (phase.wires(), phase.lanes(), phase.weights());
    lemma_pow2_pos(phase.world());
    lemma_wired(phase.procs, w, true, phase.rx, n, n);
    let last = phase.at_wire(n);
    assert forall|p: int| 0 <= p < last.len() implies all_valid(
        (#[trigger] last[p]).pad.eq_simd,
        F::pack_size_spec() as nat,
    ) by {
        assert(all_valid(phase.procs[p].pad.eq_simd, F::pack_size_spec() as nat));
    }
    lemma_wires_to_lanes(last, w, n);
    let start = Seq::new(last.len(), |p: int| last[p].simd_vars_prepared());
    assert(phase.at_lane(0) == start);
    lemma_laned(start, w, phase.r_simd, l);
    let done = phase.at_lane(l);
    assert(done[0].pad.eq_mpi == start[0].pad.eq_mpi);
    assert(last[0].pad.eq_mpi == phase.procs[0].pad.eq_mpi);
    assert(done[0].process_weights() == w);
    assert(done[0].wf());
    lemma_lanes_to_processes(done, w, done[0]);
}

/// Each round of the first phase sends values that add up to the sum in hand, and leads to the sum
/// of the next.
pub proof fn lemma_first_phase_round<F: FieldEngine>(phase: FirstPhase<F>, j: nat)
    requires
        phase.wf(),
        j < phase.rounds(),
    ensures
        phase.message(j)[0].plus_spec(phase.message(j)[1]) == phase.sum(j),
        leads_to(phase.message(j), phase.challenge(j), phase.sum(j + 1)),
{
    let (n, l, w) = (phase.wires(), phase.lanes(), phase.weights());
    lemma_first_phase(phase);
    if j < n {
        lemma_wired(phase.procs, w, true, phase.rx, n, j);
        lemma_wire_round(phase.at_wire(j), w, true, n, j, phase.rx[j as int]);
        assert(phase.at_wire(j + 1) == wires_folded(
            phase.at_wire(j),
            true,
            j,
            phase.rx[j as int],
        ));
    } else if j < n + l {
        let k = (j - n) as nat;
        lemma_laned(phase.at_lane(0), w, phase.r_simd, k);
        lemma_lane_round(phase.at_lane(k), w, k, phase.r_simd[k as int]);
        assert(phase.at_lane(k + 1) == lanes_folded(phase.at_lane(k), k, phase.r_simd[k as int]));
    } else {
        let k = (j - n - l) as nat;
        lemma_processed(phase.root(), phase.r_mpi, k);
        lemma_process_round(phase.at_process(k), k, phase.r_mpi[k as int]);
        assert(phase.at_process(k + 1) == phase.at_process(k).mpi_received(
            k,
            phase.r_mpi[k as int],
        ));
    }
}

/// In the first phase, over the wire, the lane and the process variables in a row, every round's
/// polynomial takes at its challenge the value that the next round's values at zero and one add
/// up to.
pub proof fn lemma_first_phase_chain<F: FieldEngine>(phase: FirstPhase<F>, j: nat)
    requires
        phase.wf(),
        j + 1 < phase.rounds(),
    ensures
        continues(phase.message(j), phase.challenge(j), phase.message(j + 1)),
{
    lemma_first_phase_round(phase, j);
    lemma_first_phase_round(phase, j + 1);
}

// ---------------------------------------------------------------------------
// The second phase
// ---------------------------------------------------------------------------

/// What goes into the transcript in round `j` of the second phase.
pub open spec fn second_message<F: FieldEngine>(
    procs: Seq<InstView<F>>,
    weights: Seq<F::ChallengeField>,
    coef: F::ChallengeField,
    ry: Seq<F::ChallengeField>,
    j: nat,
) -> Seq<F::ChallengeField> {
    poly_scaled(absorbed(weights, wire_shares(wired(procs, false, ry, j), j), 3), coef)
}

/// Scaled values belong to the scaled polynomial.
proof fn lemma_leads_to_scaled<E: Field>(values: Seq<E>, r: E, s: E, coef: E)
    requires
        leads_to(values, r, s),
    ensures
        leads_to(poly_scaled(values, coef), r, s.times_spec(coef)),
{
    let c = choose|c: Seq<E>| #[trigger] is_through(c, values) && poly_at(c, r) == s;
    let d = poly_scaled(c, coef);
    let scaled = poly_scaled(values, coef);
    lemma_poly_scaled(c, coef, r);
    assert forall|k: int| 0 <= k < scaled.len() implies #[trigger] scaled[k] == poly_at(
        d,
        copies(k as nat, E::one_spec()),
    ) by {
        lemma_poly_scaled(c, coef, copies(k as nat, E::one_spec()));
        assert(values[k] == poly_at(c, copies(k as nat, E::one_spec())));
    }
    assert(is_through(d, scaled));
}

/// A round of the second phase sends values that add up to the sum in hand, and leads to the sum
/// of the next.
pub proof fn lemma_second_phase_round<F: FieldEngine>(
    procs: Seq<InstView<F>>,
    weights: Seq<F::ChallengeField>,
    coef: F::ChallengeField,
    ry: Seq<F::ChallengeField>,
    n: nat,
    j: nat,
)
    requires
        wires_ready(procs, n, 0),
        ry.len() == n,
        j < n,
    ensures
        ({
            let values = second_message(procs, weights, coef, ry, j);
            let next = wired(procs, false, ry, j + 1);
            &&& values[0].plus_spec(values[1]) == wire_sum(
                wired(procs, false, ry, j),
                weights,
                j,
            ).times_spec(coef)
            &&& leads_to(values, ry[j as int], wire_sum(next, weights, j + 1).times_spec(coef))
        }),
{
    lemma_wired(procs, weights, false, ry, n, j);
    let state = wired(procs, false, ry, j);
    lemma_wire_round(state, weights, false, n, j, ry[j as int]);
    let raw = absorbed(weights, wire_shares(state, j), 3);
    lemma_times_distributes_left(raw[0], raw[1], coef);
    lemma_leads_to_scaled(
        raw,
        ry[j as int],
        wire_sum(wires_folded(state, false, j, ry[j as int]), weights, j + 1),
        coef,
    );
}

/// In the second phase every round's polynomial takes at its challenge the value that the next
/// round's values at zero and one add up to.
pub proof fn lemma_second_phase_chain<F: FieldEngine>(
    procs: Seq<InstView<F>>,
    weights: Seq<F::ChallengeField>,
    coef: F::ChallengeField,
    ry: Seq<F::ChallengeField>,
    n: nat,
    j: nat,
)
    requires
        wires_ready(procs, n, 0),
        ry.len() == n,
        j + 1 < n,
    ensures
        continues(
            second_message(procs, weights, coef, ry, j),
            ry[j as int],
            second_message(procs, weights, coef, ry, j + 1),
        ),
{
    lemma_second_phase_round(procs, weights, coef, ry, n, j);
    lemma_second_phase_round(procs, weights, coef, ry, n, j + 1);
}

// ---------------------------------------------------------------------------
// From the first phase to the second
// ---------------------------------------------------------------------------

/// The coefficient table of the first phase, and the challenges, after some rounds.
proof fn lemma_wired_coefs<F: FieldEngine>(
    procs: Seq<InstView<F>>,
    weights: Seq<F::ChallengeField>,
    rs: Seq<F::ChallengeField>,
    n: nat,
    k: nat,
    p: int,
)
    requires
        wires_ready(procs, n, 0),
        k <= n,
        k <= rs.len(),
        0 <= p < procs.len(),
    ensures
        is_bound(
            wired(procs, true, rs, k)[p].pad.hg_evals,
            procs[p].pad.hg_evals,
            broadcasts::<F>(rs.take(k as int)),
            n,
        ),
        wired(procs, true, rs, k)[p].rx == procs[p].rx + rs.take(k as int),
    decreases k,
{
    lemma_wired(procs, weights, true, rs, n, k);
    if k == 0 {
        assert(procs[p].rx + rs.take(0) =~= procs[p].rx);
    } else {
        let m = (k - 1) as nat;
        let r = rs[m as int];
        let before = wired(procs, true, rs, m)[p];
        let after = wired(procs, true, rs, k)[p];
        let size = before.eval_size(m);
        let e = F::broadcast_spec(r);
        lemma_wired(procs, weights, true, rs, n, m);
        lemma_wired_coefs(procs, weights, rs, n, m, p);
        assert(procs[p].wf());
        assert(before.wf() && before.input_var_num() == n && is_ready(before, m));
        lemma_pow2_unfold((n - m) as nat);
        if m > 0 {
            lemma_pow2_strictly_increases((n - m) as nat, n);
        }
        lemma_fold_covers(before.pad.hg_evals, before.pad.gate_exists, size, e);
        assert(after == before.host_folded(m, r).noted(true, r));
        lemma_is_bound_fold(
            before.pad.hg_evals,
            after.pad.hg_evals,
            procs[p].pad.hg_evals,
            broadcasts::<F>(rs.take(m as int)),
            n,
            e,
        );
        assert(rs.take(k as int) =~= rs.take(m as int).push(r));
        assert(broadcasts::<F>(rs.take(k as int)) =~= broadcasts::<F>(rs.take(m as int)).push(e));
        assert(procs[p].rx + rs.take(k as int) =~= (procs[p].rx + rs.take(m as int)).push(r));
    }
}

/// The lane tables after some rounds.
proof fn lemma_laned_tables<F: FieldEngine>(
    procs: Seq<InstView<F>>,
    weights: Seq<F::ChallengeField>,
    rs: Seq<F::ChallengeField>,
    k: nat,
    p: int,
)
    requires
        lanes_ready(procs, 0),
        k <= log2_spec(F::pack_size_spec()),
        k <= rs.len(),
        0 <= p < procs.len(),
    ensures
        is_bound(
            laned(procs, rs, k)[p].pad.simd_hg,
            procs[p].pad.simd_hg,
            rs.take(k as int),
            log2_spec(F::pack_size_spec()),
        ),
        is_bound(
            laned(procs, rs, k)[p].pad.eq_simd,
            procs[p].pad.eq_simd,
            rs.take(k as int),
            log2_spec(F::pack_size_spec()),
        ),
        laned(procs, rs, k)[p].r_simd_var == procs[p].r_simd_var + rs.take(k as int),
    decreases k,
{
    let lanes = log2_spec(F::pack_size_spec());
    lemma_laned(procs, weights, rs, k);
    if k == 0 {
        assert(procs[p].r_simd_var + rs.take(0) =~= procs[p].r_simd_var);
    } else {
        let m = (k - 1) as nat;
        let r = rs[m as int];
        let before = laned(procs, rs, m)[p];
        let after = laned(procs, rs, k)[p];
        lemma_laned(procs, weights, rs, m);
        lemma_laned_tables(procs, weights, rs, m, p);
        F::law_pack_size();
        assert(procs[p].wf() && before.wf());
        lemma_pow2_unfold((lanes - m) as nat);
        if m > 0 {
            lemma_pow2_strictly_increases((lanes - m) as nat, lanes);
        }
        assert(after == before.simd_received(m, r));
        lemma_is_bound_fold(
            before.pad.simd_hg,
            after.pad.simd_hg,
            procs[p].pad.simd_hg,
            rs.take(m as int),
            lanes,
            r,
        );
        lemma_is_bound_fold(
            before.pad.eq_simd,
            after.pad.eq_simd,
            procs[p].pad.eq_simd,
            rs.take(m as int),
            lanes,
            r,
        );
        assert(rs.take(k as int) =~= rs.take(m as int).push(r));
        assert(procs[p].r_simd_var + rs.take(k as int) =~= (procs[p].r_simd_var + rs.take(
            m as int,
        )).push(r));
    }
}

/// The process tables after some rounds.
proof fn lemma_processed_tables<F: FieldEngine>(
    inst: InstView<F>,
    rs: Seq<F::ChallengeField>,
    k: nat,
)
    requires
        processes_ready(inst, 0),
        k <= inst.mpi_var_num,
        k <= rs.len(),
    ensures
        is_bound(
            processed(inst, rs, k).pad.eq_mpi,
            inst.pad.eq_mpi,
            rs.take(k as int),
            inst.mpi_var_num,
        ),
        is_bound(
            processed(inst, rs, k).pad.mpi_hg,
            inst.pad.mpi_hg,
            rs.take(k as int),
            inst.mpi_var_num,
        ),
    decreases k,
{
    if k > 0 {
        let m = (k - 1) as nat;
        let r = rs[m as int];
        let world = inst.mpi_var_num;
        let before = processed(inst, rs, m);
        lemma_processed(inst, rs, m);
        lemma_processed_tables(inst, rs, m);
        lemma_pow2_unfold((world - m) as nat);
        if m > 0 {
            lemma_pow2_strictly_increases((world - m) as nat, world);
        }
        let after = processed(inst, rs, k);
        lemma_is_bound_fold(
            before.pad.eq_mpi,
            after.pad.eq_mpi,
            inst.pad.eq_mpi,
            rs.take(m as int),
            world,
            r,
        );
        lemma_is_bound_fold(
            before.pad.mpi_hg,
            after.pad.mpi_hg,
            inst.pad.mpi_hg,
            rs.take(m as int),
            world,
            r,
        );
        assert(rs.take(k as int) =~= rs.take(m as int).push(r));
    }
}

/// The coefficients of the first phase are those of the gates, weighted by the output weights.
pub open spec fn holds_first_terms<F: FieldEngine>(inst: InstView<F>) -> bool {
    let terms = inst.x_terms(inst.pad.eq_rz0);
    forall|i: int|
        0 <= i < pow2(inst.input_var_num()) ==> #[trigger] inst.pad.hg_evals[i] == collected(
            terms,
            terms.len(),
            i,
        )
}

/// They are so once the first phase is prepared.
pub proof fn lemma_first_terms<F: FieldEngine>(inst: InstView<F>)
    requires
        inst.wf(),
    ensures
        holds_first_terms(inst.x_prepared()),
{
    let next = inst.x_prepared();
    assert(next.x_terms(next.pad.eq_rz0) =~= inst.x_terms(inst.output_weights()));
}

impl<F: FieldEngine> FirstPhase<F> {
    /// The processes have prepared the phase from the same point, and their equality tables are
    /// those of that point.
    pub open spec fn is_prepared(self) -> bool {
        let point = self.procs[0].challenge;
        &&& self.weights() == eq_table(point.r_mpi)
        &&& point.r_mpi.len() == self.world()
        &&& forall|p: int|
            0 <= p < self.procs.len() ==> {
                let inst = #[trigger] self.procs[p];
                &&& holds_first_terms(inst)
                &&& inst.challenge == point
                &&& inst.mpi_var_num == self.world()
                &&& inst.rx.len() == 0
                &&& inst.r_simd_var.len() == 0
                &&& forall|l: int|
                    0 <= l < F::pack_size_spec() ==> #[trigger] inst.pad.eq_simd[l]
                        == self.procs[0].pad.eq_simd[l]
            }
    }

    /// The layer has no addition gates.
    pub open spec fn multiplies_only(self) -> bool {
        forall|p: int|
            0 <= p < self.procs.len() ==> (#[trigger] self.procs[p]).layer.add@.len() == 0
    }

    /// The processes at the start of the second phase, with the root's claim.
    pub open spec fn second_procs(self) -> Seq<InstView<F>> {
        let last = self.at_lane(self.lanes());
        let claim = self.at_process(self.world()).vx();
        Seq::new(
            last.len(),
            |p: int| (InstView { r_mpi_var: self.r_mpi, ..last[p] }).y_prepared(claim),
        )
    }

    /// What the addition gates of a process leave at the first challenges.
    pub open spec fn added(self, p: int) -> F::ChallengeField {
        let inst = self.procs[p];
        lanes_combined::<F>(
            add_sum(inst.layer, inst.pad.eq_rz0, eq_table(self.rx), inst.layer.add@.len()),
            eq_table(self.r_simd),
        )
    }

    /// What they leave in all processes.
    pub open spec fn all_added(self) -> F::ChallengeField {
        weighted(eq_table(self.r_mpi), Seq::new(self.procs.len(), |p: int| self.added(p)))
    }

    /// The coefficient of the second phase.
    pub open spec fn second_coef(self) -> F::ChallengeField {
        self.second_procs()[0].pad.phase2_coef
    }
}

/// A process is ready for the second phase.
pub proof fn lemma_second_ready<F: FieldEngine>(phase: FirstPhase<F>, p: int)
    requires
        phase.wf(),
        phase.is_prepared(),
        0 <= p < phase.procs.len(),
    ensures
        ({
            let last = phase.at_lane(phase.lanes())[p];
            let second = phase.second_procs()[p];
            &&& phase.at_lane(phase.lanes()).len() == phase.procs.len()
            &&& last.wf()
            &&& last.rx == phase.rx
            &&& last.r_simd_var == phase.r_simd
            &&& second.wf()
            &&& is_ready(second, 0)
            &&& second.input_var_num() == phase.wires()
            &&& second.process_weights() == eq_table(phase.r_mpi)
        }),
{
    let (n, l, w) = (phase.wires(), phase.lanes(), phase.weights());
    let inst = phase.procs[p];
    lemma_pow2_pos(phase.world());
    F::law_pack_size();
    lemma_first_phase(phase);
    lemma_wired(phase.procs, w, true, phase.rx, n, n);
    lemma_wired_coefs(phase.procs, w, phase.rx, n, n, p);
    lemma_laned(phase.at_lane(0), w, phase.r_simd, l);
    lemma_laned_tables(phase.at_lane(0), w, phase.r_simd, l, p);
    assert(phase.rx.take(n as int) =~= phase.rx);
    assert(phase.r_simd.take(l as int) =~= phase.r_simd);
    let wire = phase.at_wire(n)[p];
    let last = phase.at_lane(l)[p];
    let noted = InstView { r_mpi_var: phase.r_mpi, ..last };
    let second = phase.second_procs()[p];
    assert(inst.wf() && is_ready(inst, 0));
    assert(wire.rx =~= phase.rx);
    assert(last.r_simd_var =~= phase.r_simd);
    let vals = promoted::<F>(inst.layer.input_vals@);
    assert(round_source::<F>(0, inst.pad.v_evals, inst.layer.input_vals@) =~= vals);
    lemma_phase_ready(noted, phase.at_process(phase.world()).vx());
    assert(second.process_weights() =~= eq_table(phase.r_mpi));
}

/// What a process holds at the start of the second phase, compared with the end of the first.
proof fn lemma_second_start<F: FieldEngine>(phase: FirstPhase<F>, p: int)
    requires
        phase.wf(),
        phase.is_prepared(),
        0 <= p < phase.procs.len(),
    ensures
        ({
            let last = phase.at_lane(phase.lanes())[p];
            let second = phase.second_procs()[p];
            let pack = F::pack_size_spec() as nat;
            &&& last.wf()
            &&& second.wf()
            &&& is_ready(second, 0)
            &&& second.input_var_num() == phase.wires()
            &&& second.process_weights() == eq_table(phase.r_mpi)
            &&& last.pad.simd_hg[0] == lanes_combined::<F>(
                round_sum(second, 0),
                second.pad.eq_simd,
            ).plus_spec(phase.added(p))
            &&& last.pad.eq_simd[0] == dot(
                eq_table(phase.r_simd),
                phase.procs[0].pad.eq_simd,
                pack,
            )
            &&& last.challenge == phase.procs[0].challenge
        }),
{
    let (n, l, w) = (phase.wires(), phase.lanes(), phase.weights());
    let pack = F::pack_size_spec() as nat;
    let size = pow2(n);
    let inst = phase.procs[p];
    lemma_pow2_pos(phase.world());
    lemma2_to64();
    F::law_pack_size();
    lemma_first_phase(phase);
    lemma_wired(phase.procs, w, true, phase.rx, n, n);
    lemma_wired_coefs(phase.procs, w, phase.rx, n, n, p);
    lemma_laned(phase.at_lane(0), w, phase.r_simd, l);
    lemma_laned_tables(phase.at_lane(0), w, phase.r_simd, l, p);
    assert(phase.rx.take(n as int) =~= phase.rx);
    assert(phase.r_simd.take(l as int) =~= phase.r_simd);
    let wire = phase.at_wire(n)[p];
    let lane = phase.at_lane(0)[p];
    let last = phase.at_lane(l)[p];
    let noted = InstView { r_mpi_var: phase.r_mpi, ..last };
    let second = phase.second_procs()[p];
    assert(inst.wf() && is_ready(inst, 0));
    assert(wire.wf() && is_ready(wire, n));
    assert(last.wf());
    assert(wire.rx =~= phase.rx);
    assert(last.r_simd_var =~= phase.r_simd);
    // the coefficient that is left of the wire rounds
    let hg = inst.pad.hg_evals;
    lemma_all_bound(hg, broadcasts::<F>(phase.rx), n);
    let left = wire.pad.hg_evals[0];
    let b = eq_table(broadcasts::<F>(phase.rx));
    assert(left == dot(b, hg, size));
    // is the sum of the second phase
    let eq_rx = second.pad.eq_rx;
    let x = inst.x_terms(inst.pad.eq_rz0);
    let y = inst.y_terms(inst.pad.eq_rz0, eq_rx);
    let u = broadcasts::<F>(eq_rx);
    let vals = promoted::<F>(inst.layer.input_vals@);
    assert forall|i: int| 0 <= i < size implies #[trigger] b[i] == u[i] by {
        lemma_broadcast_eq_table::<F>(phase.rx, i);
        assert(eq_rx[i] == eq_table(phase.rx)[i]);
    }
    let cx = collected_seq(x, x.len(), size);
    let cy = collected_seq(y, y.len(), size);
    lemma_dot_same(b, hg, u, cx, size);
    lemma_second_phase_sum(inst, inst.pad.eq_rz0, eq_rx);
    let rest = add_sum(inst.layer, inst.pad.eq_rz0, eq_table(phase.rx), inst.layer.add@.len());
    lemma_add_sum_same(
        inst.layer,
        inst.pad.eq_rz0,
        eq_rx,
        inst.pad.eq_rz0,
        eq_table(phase.rx),
        inst.layer.add@.len(),
    );
    assert(left == dot(vals, cy, size).plus_spec(rest));
    let y_last = noted.y_terms(noted.pad.eq_rz0, eq_rx);
    assert(y_last =~= y);
    let source = round_source::<F>(0, second.pad.v_evals, second.layer.input_vals@);
    assert(source =~= vals);
    assert forall|i: int| 0 <= i < size implies #[trigger] second.pad.hg_evals[i] == cy[i] by {}
    lemma_dot_same(source, second.pad.hg_evals, vals, cy, size);
    let sum = round_sum(second, 0);
    assert(sum.plus_spec(rest) == left);
    // the lanes of that coefficient
    let t = F::unpack_spec(left);
    let c = F::ChallengeField::zero_spec();
    assert(left.valid());
    F::law_unpack(left, left, c, 0);
    assert(lane.pad.simd_hg == t);
    assert forall|k: int| 0 <= k < pack implies (#[trigger] t[k]).valid() by {
        F::law_unpack(left, left, c, k);
    }
    lemma_all_bound(t, phase.r_simd, l);
    lemma_dot_commutes(eq_table(phase.r_simd), t, pack);
    assert forall|k: int| 0 <= k < pack implies #[trigger] second.pad.eq_simd[k] == eq_table(
        phase.r_simd,
    )[k] by {}
    let own = F::unpack_spec(sum);
    lemma_dot_same(own, second.pad.eq_simd, own, eq_table(phase.r_simd), pack);
    lemma_lanes_linear::<F>(sum, rest, c, eq_table(phase.r_simd));
    // the lanes' own equality table
    assert(lane.pad.eq_simd == inst.pad.eq_simd);
    assert(all_valid(inst.pad.eq_simd, pack));
    lemma_all_bound(inst.pad.eq_simd, phase.r_simd, l);
    lemma_dot_same(
        eq_table(phase.r_simd),
        inst.pad.eq_simd,
        eq_table(phase.r_simd),
        phase.procs[0].pad.eq_simd,
        pack,
    );
    assert(second.process_weights() =~= eq_table(phase.r_mpi));
    lemma_phase_ready(noted, phase.at_process(phase.world()).vx());
}

/// The sum that the first phase leaves is the one that the second starts from, plus what the
/// addition gates leave.
pub proof fn lemma_phases_added<F: FieldEngine>(phase: FirstPhase<F>)
    requires
        phase.wf(),
        phase.is_prepared(),
    ensures
        wires_ready(phase.second_procs(), phase.wires(), 0),
        forall|p: int|
            0 <= p < phase.procs.len() ==> {
                let second = #[trigger] phase.second_procs()[p];
                &&& second.pad.phase2_coef == phase.second_coef()
                &&& second.process_weights() == eq_table(phase.r_mpi)
            },
        phase.sum(phase.rounds()) == wire_sum(
            phase.second_procs(),
            eq_table(phase.r_mpi),
            0,
        ).plus_spec(phase.all_added()).times_spec(phase.second_coef()),
        phase.second_coef() == eq_vec_spec(
            phase.procs[0].challenge.r_mpi,
            phase.r_mpi,
            phase.world(),
        ).times_spec(
            dot(
                eq_table(phase.r_simd),
                phase.procs[0].pad.eq_simd,
                F::pack_size_spec() as nat,
            ),
        ).times_spec(phase.at_process(phase.world()).vx()),
{
    let (l, world) = (phase.lanes(), phase.world());
    let n = phase.procs.len();
    let pack = F::pack_size_spec() as nat;
    lemma_pow2_pos(world);
    lemma2_to64();
    lemma_first_phase(phase);
    lemma_laned(phase.at_lane(0), phase.weights(), phase.r_simd, l);
    let last = phase.at_lane(l);
    let seconds = phase.second_procs();
    let point = phase.procs[0].challenge;
    let small = dot(eq_table(phase.r_simd), phase.procs[0].pad.eq_simd, pack);
    let root = phase.root();
    let done = phase.at_process(world);
    lemma_processed(root, phase.r_mpi, world);
    lemma_processed_tables(root, phase.r_mpi, world);
    assert(phase.r_mpi.take(world as int) =~= phase.r_mpi);
    assert forall|p: int| 0 <= p < n implies {
        let second = #[trigger] seconds[p];
        &&& second.wf()
        &&& second.input_var_num() == phase.wires()
        &&& is_ready(second, 0)
        &&& last[p].pad.eq_simd[0] == small
        &&& last[p].challenge == point
        &&& second.process_weights() == eq_table(phase.r_mpi)
        &&& last[p].pad.simd_hg[0] == lanes_combined::<F>(
            round_sum(second, 0),
            second.pad.eq_simd,
        ).plus_spec(phase.added(p))
    } by {
        lemma_second_start(phase, p);
    }
    assert forall|p: int| 0 <= p < n implies (#[trigger] seconds[p]).pad.phase2_coef
        == phase.second_coef() by {
        assert(seconds[0].wf());
        assert(last[0].pad.eq_simd[0] == small);
    }
    // the three factors
    let e = done.pad.eq_mpi[0];
    let v = done.vx();
    let h = done.pad.mpi_hg[0];
    let weights = eq_table(phase.r_mpi);
    lemma_all_bound(root.pad.eq_mpi, phase.r_mpi, world);
    assert(last[0].pad.eq_mpi == phase.at_lane(0)[0].pad.eq_mpi);
    lemma_wired(phase.procs, phase.weights(), true, phase.rx, phase.wires(), phase.wires());
    assert(phase.at_wire(phase.wires())[0].pad.eq_mpi == phase.procs[0].pad.eq_mpi);
    assert forall|k: int| 0 <= k < n implies #[trigger] root.pad.eq_mpi[k] == eq_table(
        point.r_mpi,
    )[k] by {
        assert(root.pad.eq_mpi == phase.procs[0].pad.eq_mpi);
        assert(phase.weights()[k] == phase.procs[0].pad.eq_mpi[k]);
    }
    lemma_dot_same(weights, root.pad.eq_mpi, weights, eq_table(point.r_mpi), n);
    lemma_eq_tables(point.r_mpi, phase.r_mpi);
    let eq = eq_vec_spec(point.r_mpi, phase.r_mpi, point.r_mpi.len());
    assert(e == eq);
    lemma_all_bound(root.pad.mpi_hg, phase.r_mpi, world);
    assert(h == dot(weights, hg_shares(last), n));
    let parts = Seq::new(
        n,
        |p: int| lanes_combined::<F>(round_sum(seconds[p], 0), seconds[p].pad.eq_simd),
    );
    let adds = Seq::new(n, |p: int| phase.added(p));
    let both = Seq::new(n, |p: int| parts[p].plus_spec(adds[p]));
    assert forall|p: int| 0 <= p < n implies #[trigger] hg_shares(last)[p] == both[p].times_spec(
        small,
    ) by {
        assert(seconds[p].wf());
    }
    lemma_dot_commutes(weights, hg_shares(last), n);
    lemma_dot_times(both, hg_shares(last), small, weights, n);
    lemma_dot_plus(parts, adds, both, weights, n);
    let total = wire_sum(seconds, weights, 0).plus_spec(phase.all_added());
    assert(total == dot(both, weights, n));
    assert(h == total.times_spec(small));
    let zero = F::ChallengeField::zero_spec();
    let whole = e.times_spec(v).times_spec(h);
    F::ChallengeField::law_closed(e.times_spec(v), h);
    F::ChallengeField::law_plus_commutes(zero, whole);
    F::ChallengeField::law_plus_zero(whole);
    reveal_with_fuel(triple_dot, 2);
    assert(phase.sum(phase.rounds()) == process_sum(done, world));
    assert(process_sum(done, world) == whole);
    let coef = phase.second_coef();
    assert(coef == eq.times_spec(small).times_spec(v)) by {
        assert(seconds[0].wf());
    }
    // (e v)(t s) == t ((e s) v)
    F::ChallengeField::law_times_commutes(e.times_spec(v), h);
    F::ChallengeField::law_times_associates(total, small, e.times_spec(v));
    F::ChallengeField::law_times_associates(small, e, v);
    F::ChallengeField::law_times_commutes(small, e);
}

/// Where a layer has no addition gates, the sum that the first phase leaves is the one that the
/// second starts from.
pub proof fn lemma_phases_sum<F: FieldEngine>(phase: FirstPhase<F>)
    requires
        phase.wf(),
        phase.is_prepared(),
        phase.multiplies_only(),
    ensures
        wires_ready(phase.second_procs(), phase.wires(), 0),
        forall|p: int|
            0 <= p < phase.procs.len() ==> {
                let second = #[trigger] phase.second_procs()[p];
                &&& second.pad.phase2_coef == phase.second_coef()
                &&& second.process_weights() == eq_table(phase.r_mpi)
            },
        phase.sum(phase.rounds()) == wire_sum(
            phase.second_procs(),
            eq_table(phase.r_mpi),
            0,
        ).times_spec(phase.second_coef()),
{
    let n = phase.procs.len();
    let weights = eq_table(phase.r_mpi);
    lemma_pow2_pos(phase.world());
    lemma_phases_added(phase);
    let adds = Seq::new(n, |p: int| phase.added(p));
    let zero = F::ChallengeField::zero_spec();
    assert forall|p: int| 0 <= p < n implies #[trigger] adds[p] == zero by {
        assert(phase.procs[p].layer.add@.len() == 0);
        lemma_lanes_linear::<F>(
            F::Field::zero_spec(),
            F::Field::zero_spec(),
            zero,
            eq_table(phase.r_simd),
        );
    }
    lemma_weighted_zero(weights, adds, n);
    let sums = Seq::new(
        n,
        |p: int|
            lanes_combined::<F>(
                round_sum(phase.second_procs()[p], 0),
                phase.second_procs()[p].pad.eq_simd,
            ),
    );
    lemma_second_ready(phase, 0);
    assert(phase.second_procs().len() == n);
    lemma_dot_valid(sums, weights, n);
    F::ChallengeField::law_plus_zero(wire_sum(phase.second_procs(), weights, 0));
}

/// Where a layer has no addition gates, the last round of the first phase leads to the first round
/// of the second: its polynomial takes at its challenge the value that the second phase's first
/// values at zero and one add up to.
pub proof fn lemma_phases_chain<F: FieldEngine>(phase: FirstPhase<F>, ry: Seq<F::ChallengeField>)
    requires
        phase.wf(),
        phase.is_prepared(),
        phase.multiplies_only(),
        ry.len() == phase.wires(),
    ensures
        continues(
            phase.message((phase.rounds() - 1) as nat),
            phase.challenge((phase.rounds() - 1) as nat),
            second_message(
                phase.second_procs(),
                eq_table(phase.r_mpi),
                phase.second_coef(),
                ry,
                0,
            ),
        ),
{
    lemma_phases_sum(phase);
    lemma_first_phase_round(phase, (phase.rounds() - 1) as nat);
    lemma_second_phase_round(
        phase.second_procs(),
        eq_table(phase.r_mpi),
        phase.second_coef(),
        ry,
        phase.wires(),
        0,
    );
}

/// The last round of the first phase leads to the first round of the second and what the addition
/// gates leave: its polynomial takes at its challenge the value that the second phase's first
/// values at zero and one add up to, plus the share of the addition gates.
pub proof fn lemma_phases_join<F: FieldEngine>(phase: FirstPhase<F>, ry: Seq<F::ChallengeField>)
    requires
        phase.wf(),
        phase.is_prepared(),
        ry.len() == phase.wires(),
    ensures
        ({
            let next = second_message(
                phase.second_procs(),
                eq_table(phase.r_mpi),
                phase.second_coef(),
                ry,
                0,
            );
            leads_to(
                phase.message((phase.rounds() - 1) as nat),
                phase.challenge((phase.rounds() - 1) as nat),
                next[0].plus_spec(next[1]).plus_spec(
                    phase.all_added().times_spec(phase.second_coef()),
                ),
            )
        }),
{
    let weights = eq_table(phase.r_mpi);
    lemma_phases_added(phase);
    lemma_first_phase_round(phase, (phase.rounds() - 1) as nat);
    lemma_second_phase_round(
        phase.second_procs(),
        weights,
        phase.second_coef(),
        ry,
        phase.wires(),
        0,
    );
    lemma_times_distributes_left(
        wire_sum(phase.second_procs(), weights, 0),
        phase.all_added(),
        phase.second_coef(),
    );
}

/// Without multiplication gates the last round of the first phase leads to what the addition gates
/// leave.
pub proof fn lemma_adds_only<F: FieldEngine>(phase: FirstPhase<F>)
    requires
        phase.wf(),
        phase.is_prepared(),
        forall|p: int|
            0 <= p < phase.procs.len() ==> (#[trigger] phase.procs[p]).layer.mul@.len() == 0,
    ensures
        leads_to(
            phase.message((phase.rounds() - 1) as nat),
            phase.challenge((phase.rounds() - 1) as nat),
            phase.all_added().times_spec(phase.second_coef()),
        ),
{
    let n = phase.procs.len();
    let weights = eq_table(phase.r_mpi);
    let seconds = phase.second_procs();
    let (zero, none) = (F::ChallengeField::zero_spec(), F::Field::zero_spec());
    lemma_pow2_pos(phase.world());
    lemma_phases_added(phase);
    lemma_second_ready(phase, 0);
    lemma_first_phase_round(phase, (phase.rounds() - 1) as nat);
    let sums = Seq::new(
        n,
        |p: int| lanes_combined::<F>(round_sum(seconds[p], 0), seconds[p].pad.eq_simd),
    );
    assert(seconds.len() == n);
    assert forall|p: int| 0 <= p < n implies #[trigger] sums[p] == zero by {
        let second = seconds[p];
        let size = pow2(second.input_var_num());
        lemma_second_ready(phase, p);
        lemma_second_layer(phase, p);
        assert(phase.procs[p].layer.mul@.len() == 0);
        let hg = second.pad.hg_evals;
        let source = round_source::<F>(0, second.pad.v_evals, second.layer.input_vals@);
        assert forall|k: int| 0 <= k < size implies #[trigger] hg[k] == none by {}
        lemma_dot_commutes(source, hg, size);
        lemma_weighted_zero(source, hg, size);
        lemma_lanes_linear::<F>(none, none, zero, second.pad.eq_simd);
    }
    lemma_weighted_zero(weights, sums, n);
    lemma_dot_valid(Seq::new(n, |p: int| phase.added(p)), weights, n);
    F::ChallengeField::law_plus_commutes(zero, phase.all_added());
    F::ChallengeField::law_plus_zero(phase.all_added());
}

/// The layer does not change on the way to the second phase.
proof fn lemma_second_layer<F: FieldEngine>(phase: FirstPhase<F>, p: int)
    requires
        phase.wf(),
        phase.is_prepared(),
        0 <= p < phase.procs.len(),
    ensures
        phase.second_procs()[p].layer == phase.procs[p].layer,
        phase.second_procs()[p].pad.hg_evals == ({
            let last = InstView { r_mpi_var: phase.r_mpi, ..phase.at_lane(phase.lanes())[p] };
            let terms = last.y_terms(
                last.pad.eq_rz0,
                phase.second_procs()[p].pad.eq_rx,
            );
            collected_table(
                last.pad.hg_evals,
                terms,
                terms.len(),
                pow2(phase.wires()),
            )
        }),
{
    let (n, l, w) = (phase.wires(), phase.lanes(), phase.weights());
    lemma_pow2_pos(phase.world());
    lemma_first_phase(phase);
    lemma_second_ready(phase, p);
    lemma_wired(phase.procs, w, true, phase.rx, n, n);
    lemma_wired_coefs(phase.procs, w, phase.rx, n, n, p);
    lemma_laned(phase.at_lane(0), w, phase.r_simd, l);
    lemma_laned_tables(phase.at_lane(0), w, phase.r_simd, l, p);
}

/// Both tables of the second phase after some rounds.
proof fn lemma_wired_tables<F: FieldEngine>(
    procs: Seq<InstView<F>>,
    weights: Seq<F::ChallengeField>,
    rs: Seq<F::ChallengeField>,
    n: nat,
    k: nat,
    p: int,
)
    requires
        wires_ready(procs, n, 0),
        k <= n,
        k <= rs.len(),
        0 <= p < procs.len(),
    ensures
        ({
            let now = wired(procs, false, rs, k)[p];
            let bs = broadcasts::<F>(rs.take(k as int));
            &&& is_bound(now.pad.hg_evals, procs[p].pad.hg_evals, bs, n)
            &&& is_bound(
                round_source::<F>(k, now.pad.v_evals, now.layer.input_vals@),
                promoted::<F>(procs[p].layer.input_vals@),
                bs,
                n,
            )
        }),
    decreases k,
{
    lemma_wired(procs, weights, false, rs, n, k);
    let vals = procs[p].layer.input_vals@;
    if k == 0 {
        let now = wired(procs, false, rs, 0)[p];
        assert(now == procs[p]);
        assert(now.wf());
        assert(round_source::<F>(0, now.pad.v_evals, vals) =~= promoted::<F>(vals));
    } else {
        let m = (k - 1) as nat;
        let r = rs[m as int];
        let before = wired(procs, false, rs, m)[p];
        let after = wired(procs, false, rs, k)[p];
        let size = before.eval_size(m);
        let e = F::broadcast_spec(r);
        lemma_wired(procs, weights, false, rs, n, m);
        lemma_wired_tables(procs, weights, rs, n, m, p);
        assert(procs[p].wf());
        assert(before.wf() && before.input_var_num() == n && is_ready(before, m));
        lemma_pow2_unfold((n - m) as nat);
        if m > 0 {
            lemma_pow2_strictly_increases((n - m) as nat, n);
        }
        lemma_fold_covers(before.pad.hg_evals, before.pad.gate_exists, size, e);
        assert(after == before.host_folded(m, r).noted(false, r));
        let bs = broadcasts::<F>(rs.take(m as int));
        lemma_is_bound_fold(
            before.pad.hg_evals,
            after.pad.hg_evals,
            procs[p].pad.hg_evals,
            bs,
            n,
            e,
        );
        let source = round_source::<F>(m, before.pad.v_evals, before.layer.input_vals@);
        lemma_is_bound_fold(
            source,
            round_source::<F>(k, after.pad.v_evals, after.layer.input_vals@),
            promoted::<F>(vals),
            bs,
            n,
            e,
        );
        assert(broadcasts::<F>(rs.take(k as int)) =~= bs.push(e));
    }
}

impl<F: FieldEngine> FirstPhase<F> {
    /// What the multiplication gates of a process leave at the challenges of both phases.
    pub open spec fn multiplied(self, ry: Seq<F::ChallengeField>, p: int) -> F::ChallengeField {
        let inst = self.procs[p];
        lanes_combined::<F>(
            wires_at::<F>(inst.layer.input_vals@, ry).times_spec(
                mul_sum(
                    inst.layer,
                    inst.pad.eq_rz0,
                    eq_table(self.rx),
                    eq_table(ry),
                    inst.layer.mul@.len(),
                ),
            ),
            eq_table(self.r_simd),
        )
    }
}

/// What is left of the sum of a process after the second phase.
proof fn lemma_second_left<F: FieldEngine>(
    phase: FirstPhase<F>,
    ry: Seq<F::ChallengeField>,
    p: int,
)
    requires
        phase.wf(),
        phase.is_prepared(),
        ry.len() == phase.wires(),
        wires_ready(phase.second_procs(), phase.wires(), 0),
        0 <= p < phase.procs.len(),
    ensures
        ({
            let now = wired(phase.second_procs(), false, ry, phase.wires())[p];
            lanes_combined::<F>(round_sum(now, phase.wires()), now.pad.eq_simd)
                == phase.multiplied(ry, p)
        }),
{
    let n = phase.wires();
    let size = pow2(n);
    let pack = F::pack_size_spec() as nat;
    let seconds = phase.second_procs();
    let weights = eq_table(phase.r_mpi);
    let inst = phase.procs[p];
    let second = seconds[p];
    let now = wired(seconds, false, ry, n)[p];
    let vals = inst.layer.input_vals@;
    let b = broadcasts::<F>(ry);
    lemma_pow2_pos(phase.world());
    lemma2_to64();
    F::law_pack_size();
    lemma_first_phase(phase);
    lemma_second_ready(phase, p);
    lemma_second_layer(phase, p);
    lemma_wired(phase.procs, phase.weights(), true, phase.rx, n, n);
    lemma_laned(phase.at_lane(0), phase.weights(), phase.r_simd, phase.lanes());
    lemma_wired(seconds, weights, false, ry, n, n);
    lemma_wired_tables(seconds, weights, ry, n, n, p);
    assert(ry.take(n as int) =~= ry);
    assert(inst.wf() && is_ready(inst, 0));
    assert(second.wf() && is_ready(second, 0));
    // the wires
    assert(round_source::<F>(0, inst.pad.v_evals, vals) =~= promoted::<F>(vals));
    lemma_wires_bound::<F>(vals, ry);
    let v = round_source::<F>(n, now.pad.v_evals, now.layer.input_vals@)[0];
    assert(v == wires_at::<F>(vals, ry));
    // the coefficients
    let hg = second.pad.hg_evals;
    lemma_all_bound(hg, b, n);
    let last = InstView { r_mpi_var: phase.r_mpi, ..phase.at_lane(phase.lanes())[p] };
    let eq_rx = second.pad.eq_rx;
    let y = last.y_terms(last.pad.eq_rz0, eq_rx);
    assert(last.layer == inst.layer && last.pad.eq_rz0 == inst.pad.eq_rz0);
    let u = broadcasts::<F>(eq_table(ry));
    let cy = collected_seq(y, y.len(), size);
    assert forall|k: int| 0 <= k < size implies #[trigger] eq_table(b)[k] == u[k] by {
        lemma_broadcast_eq_table::<F>(ry, k);
    }
    assert forall|k: int| 0 <= k < size implies #[trigger] hg[k] == cy[k] by {}
    lemma_dot_same(eq_table(b), hg, u, cy, size);
    lemma_second_coefs(last, last.pad.eq_rz0, eq_rx, eq_table(ry), inst.layer.mul@.len());
    assert forall|k: int| 0 <= k < size implies #[trigger] eq_rx[k] == eq_table(phase.rx)[k] by {}
    lemma_mul_sum_same(
        inst.layer,
        inst.pad.eq_rz0,
        eq_rx,
        inst.pad.eq_rz0,
        eq_table(phase.rx),
        eq_table(ry),
        inst.layer.mul@.len(),
    );
    let h = now.pad.hg_evals[0];
    assert(h == mul_sum(
        inst.layer,
        inst.pad.eq_rz0,
        eq_table(phase.rx),
        eq_table(ry),
        inst.layer.mul@.len(),
    ));
    // their product
    let product = v.times_spec(h);
    F::Field::law_closed(v, h);
    F::Field::law_plus_commutes(F::Field::zero_spec(), product);
    F::Field::law_plus_zero(product);
    reveal_with_fuel(dot, 2);
    assert(round_sum(now, n) == product);
    assert forall|k: int| 0 <= k < pack implies #[trigger] now.pad.eq_simd[k] == eq_table(
        phase.r_simd,
    )[k] by {
        assert(now.pad.eq_simd == second.pad.eq_simd);
    }
    let lanes = F::unpack_spec(product);
    lemma_dot_same(lanes, now.pad.eq_simd, lanes, eq_table(phase.r_simd), pack);
}

/// The last round of the second phase leads to what the multiplication gates leave.
pub proof fn lemma_second_end<F: FieldEngine>(phase: FirstPhase<F>, ry: Seq<F::ChallengeField>)
    requires
        phase.wf(),
        phase.is_prepared(),
        ry.len() == phase.wires(),
    ensures
        leads_to(
            second_message(
                phase.second_procs(),
                eq_table(phase.r_mpi),
                phase.second_coef(),
                ry,
                (phase.wires() - 1) as nat,
            ),
            ry[phase.wires() - 1],
            weighted(
                eq_table(phase.r_mpi),
                Seq::new(phase.procs.len(), |p: int| phase.multiplied(ry, p)),
            ).times_spec(phase.second_coef()),
        ),
{
    let n = phase.wires();
    let weights = eq_table(phase.r_mpi);
    let seconds = phase.second_procs();
    lemma_pow2_pos(phase.world());
    lemma_phases_added(phase);
    lemma_second_ready(phase, 0);
    lemma_second_phase_round(seconds, weights, phase.second_coef(), ry, n, (n - 1) as nat);
    lemma_wired(seconds, weights, false, ry, n, n);
    let done = wired(seconds, false, ry, n);
    let sums = Seq::new(
        done.len(),
        |p: int| lanes_combined::<F>(round_sum(done[p], n), done[p].pad.eq_simd),
    );
    let want = Seq::new(phase.procs.len(), |p: int| phase.multiplied(ry, p));
    assert forall|p: int| 0 <= p < want.len() implies #[trigger] sums[p] == want[p] by {
        lemma_second_left(phase, ry, p);
    }
    assert(sums =~= want);
}

} // verus!
