//! The sums that a layer's two phases prove are the values of the layer's gates.

use vstd::arithmetic::power2::*;
use vstd::prelude::*;

use crate::algebra::{lemma_dot_commutes, lemma_dot_plus, lemma_dot_same, lemma_dot_times};
use crate::circuit::CircuitLayer;
use crate::engine::FieldEngine;
use crate::extension::{broadcasts, promoted};
use crate::field::{lemma_times_zero, Field};
use crate::gkr_protocol::{eq_table, wires_at};
use crate::instance::InstView;
use crate::poly::{dot, eq_weight};
use crate::product_gate::round_source;
use crate::rounds::{
    all_valid, covers, lemma_fold_covers, lemma_quadratic_values, lemma_round_folds,
    lemma_round_total, round_at,
};
use crate::scatter::{collected, collected_table, reached, reached_table};

verus! {

// ---------------------------------------------------------------------------
// Collecting terms
// ---------------------------------------------------------------------------

/// The sum of the first `n` terms, each weighted by the entry of `u` that it goes to.
pub open spec fn term_sum<T: Field>(terms: Seq<(int, T)>, u: Seq<T>, n: nat) -> T
    decreases n,
{
    if n == 0 {
        T::zero_spec()
    } else {
        term_sum(terms, u, (n - 1) as nat).plus_spec(terms[n - 1].1.times_spec(u[terms[n - 1].0]))
    }
}

/// What the first `n` terms add up to at each index.
pub open spec fn collected_seq<T: Field>(terms: Seq<(int, T)>, n: nat, size: nat) -> Seq<T> {
    Seq::new(size, |i: int| collected(terms, n, i))
}

/// What terms add up to at an index is in canonical form.
pub proof fn lemma_collected_valid<T: Field>(terms: Seq<(int, T)>, n: nat, i: int)
    ensures
        collected(terms, n, i).valid(),
    decreases n,
{
    if n == 0 {
        T::law_closed(T::zero_spec(), T::zero_spec());
    } else {
        lemma_collected_valid(terms, (n - 1) as nat, i);
        T::law_closed(collected(terms, (n - 1) as nat, i), terms[n - 1].1);
    }
}

/// An index that no term reaches collects nothing.
pub proof fn lemma_not_reached<T: Field>(terms: Seq<(int, T)>, n: nat, i: int)
    requires
        !reached(terms, n, i),
    ensures
        collected(terms, n, i) == T::zero_spec(),
    decreases n,
{
    if n > 0 {
        assert(terms[n - 1].0 != i);
        assert(!reached(terms, (n - 1) as nat, i));
        lemma_not_reached(terms, (n - 1) as nat, i);
    }
}

/// A table that is zero but for one entry.
proof fn lemma_dot_single<T: Field>(t: int, v: T, u: Seq<T>, n: nat)
    requires
        0 <= t,
    ensures
        ({
            let single = Seq::new(
                n,
                |i: int|
                    if i == t {
                        v
                    } else {
                        T::zero_spec()
                    },
            );
            dot(single, u, n) == if t < n {
                v.times_spec(u[t])
            } else {
                T::zero_spec()
            }
        }),
    decreases n,
{
    let zero = T::zero_spec();
    T::law_closed(zero, zero);
    T::law_closed(v, u[t]);
    T::law_plus_zero(zero);
    if n > 0 {
        let m = (n - 1) as nat;
        let i = m as int;
        let single = Seq::new(
            n,
            |k: int|
                if k == t {
                    v
                } else {
                    zero
                },
        );
        let shorter = Seq::new(
            m,
            |k: int|
                if k == t {
                    v
                } else {
                    zero
                },
        );
        lemma_dot_single(t, v, u, m);
        lemma_dot_same(single, u, shorter, u, m);
        lemma_times_zero(u[i]);
        T::law_plus_commutes(zero, v.times_spec(u[t]));
        T::law_plus_zero(v.times_spec(u[t]));
    }
}

/// Weighting what is collected at each index is weighting each term where it goes.
pub proof fn lemma_collected_dot<T: Field>(terms: Seq<(int, T)>, n: nat, u: Seq<T>, size: nat)
    requires
        forall|k: int| 0 <= k < n ==> 0 <= (#[trigger] terms[k]).0 < size,
    ensures
        dot(collected_seq(terms, n, size), u, size) == term_sum(terms, u, n),
    decreases n,
{
    let zero = T::zero_spec();
    T::law_closed(zero, zero);
    if n == 0 {
        lemma_dot_zero(collected_seq(terms, n, size), u, size);
    } else {
        let m = (n - 1) as nat;
        let (t, v) = terms[m as int];
        let before = collected_seq(terms, m, size);
        let after = collected_seq(terms, n, size);
        let single = Seq::new(
            size,
            |i: int|
                if i == t {
                    v
                } else {
                    zero
                },
        );
        lemma_collected_dot(terms, m, u, size);
        assert forall|i: int| 0 <= i < size implies #[trigger] after[i] == before[i].plus_spec(
            single[i],
        ) by {
            lemma_collected_valid(terms, m, i);
            T::law_plus_zero(before[i]);
        }
        lemma_dot_plus(before, single, after, u, size);
        lemma_dot_single(t, v, u, size);
    }
}

proof fn lemma_dot_zero<T: Field>(a: Seq<T>, u: Seq<T>, n: nat)
    requires
        forall|i: int| 0 <= i < n ==> #[trigger] a[i] == T::zero_spec(),
    ensures
        dot(a, u, n) == T::zero_spec(),
    decreases n,
{
    if n > 0 {
        lemma_dot_zero(a, u, (n - 1) as nat);
        lemma_times_zero(u[n - 1]);
        T::law_closed(T::zero_spec(), T::zero_spec());
        T::law_plus_zero(T::zero_spec());
    }
}

// ---------------------------------------------------------------------------
// What the gates compute
// ---------------------------------------------------------------------------

/// What each gate adds to its output wire.
pub open spec fn output_terms<F: FieldEngine>(layer: CircuitLayer<F>) -> Seq<(int, F::Field)> {
    let (mul, add) = (layer.mul@, layer.add@);
    let vals = promoted::<F>(layer.input_vals@);
    Seq::new(
        mul.len() + add.len(),
        |k: int|
            if k < mul.len() {
                let g = mul[k];
                (
                    g.o_id as int,
                    F::broadcast_spec(F::embed_spec(g.coef)).times_spec(
                        vals[g.i_ids@[0] as int],
                    ).times_spec(vals[g.i_ids@[1] as int]),
                )
            } else {
                let g = add[k - mul.len()];
                (
                    g.o_id as int,
                    F::broadcast_spec(F::embed_spec(g.coef)).times_spec(vals[g.i_ids@[0] as int]),
                )
            },
    )
}

/// The values that the gates give the output wires.
pub open spec fn evaluated<F: FieldEngine>(layer: CircuitLayer<F>) -> Seq<F::Field> {
    let terms = output_terms(layer);
    collected_seq(terms, terms.len(), pow2(layer.output_var_num as nat))
}

/// The values are those that the layer's gates give its output wires.
pub open spec fn computes<F: FieldEngine>(
    layer: CircuitLayer<F>,
    outs: Seq<F::SimdCircuitField>,
) -> bool {
    promoted::<F>(outs) == evaluated(layer)
}

/// The output values of the layer are those that its gates compute.
pub open spec fn is_evaluated<F: FieldEngine>(layer: CircuitLayer<F>) -> bool {
    computes(layer, layer.output_vals@)
}

/// The products of four ring elements do not depend on the order.
proof fn lemma_products<T: Field>(w: T, c: T, p: T, q: T)
    ensures
        w.times_spec(c).times_spec(q).times_spec(p) == c.times_spec(p).times_spec(q).times_spec(w),
        w.times_spec(c).times_spec(p) == c.times_spec(p).times_spec(w),
{
    let cp = c.times_spec(p);
    let wc = w.times_spec(c);
    T::law_times_associates(w, c, p);
    T::law_times_commutes(w, cp);
    T::law_times_associates(wc, q, p);
    T::law_times_commutes(q, p);
    T::law_times_associates(wc, p, q);
    T::law_times_associates(w, cp, q);
    T::law_times_commutes(w, cp.times_spec(q));
}

proof fn lemma_x_term_sum<F: FieldEngine>(
    inst: InstView<F>,
    weights: Seq<F::ChallengeField>,
    n: nat,
)
    requires
        inst.layer.wf(),
        pow2(inst.layer.output_var_num as nat) <= weights.len(),
        n <= inst.layer.mul@.len() + inst.layer.add@.len(),
    ensures
        term_sum(inst.x_terms(weights), promoted::<F>(inst.layer.input_vals@), n) == term_sum(
            output_terms(inst.layer),
            broadcasts::<F>(weights),
            n,
        ),
    decreases n,
{
    if n > 0 {
        let k = n - 1;
        lemma_x_term_sum(inst, weights, k as nat);
        let layer = inst.layer;
        let vals = promoted::<F>(layer.input_vals@);
        if k < layer.mul@.len() {
            let g = layer.mul@[k];
            let w = weights[g.o_id as int];
            let c = F::embed_spec(g.coef);
            F::law_broadcast(w, c);
            lemma_products(
                F::broadcast_spec(w),
                F::broadcast_spec(c),
                vals[g.i_ids@[0] as int],
                vals[g.i_ids@[1] as int],
            );
        } else {
            let g = layer.add@[k - layer.mul@.len()];
            let w = weights[g.o_id as int];
            let c = F::embed_spec(g.coef);
            F::law_broadcast(w, c);
            lemma_products(
                F::broadcast_spec(w),
                F::broadcast_spec(c),
                vals[g.i_ids@[0] as int],
                vals[g.i_ids@[0] as int],
            );
        }
    }
}

/// The sum that the first phase proves is the sum of the gates' outputs, weighted as the claims
/// say.
pub proof fn lemma_first_phase_sum<F: FieldEngine>(
    inst: InstView<F>,
    weights: Seq<F::ChallengeField>,
)
    requires
        inst.layer.wf(),
        pow2(inst.layer.output_var_num as nat) <= weights.len(),
    ensures
        ({
            let terms = inst.x_terms(weights);
            let inputs = pow2(inst.input_var_num());
            let outputs = pow2(inst.layer.output_var_num as nat);
            dot(
                promoted::<F>(inst.layer.input_vals@),
                collected_seq(terms, terms.len(), inputs),
                inputs,
            ) == dot(evaluated(inst.layer), broadcasts::<F>(weights), outputs)
        }),
{
    let layer = inst.layer;
    let terms = inst.x_terms(weights);
    let out = output_terms(layer);
    let inputs = pow2(inst.input_var_num());
    let outputs = pow2(layer.output_var_num as nat);
    let vals = promoted::<F>(layer.input_vals@);
    let n = terms.len();
    lemma_dot_commutes(vals, collected_seq(terms, n, inputs), inputs);
    lemma_collected_dot(terms, n, vals, inputs);
    lemma_x_term_sum(inst, weights, n);
    lemma_collected_dot(out, n, broadcasts::<F>(weights), outputs);
}

/// The claimed value of the outputs at a point, from values that the gates compute.
pub proof fn lemma_outputs_at<F: FieldEngine>(
    layer: CircuitLayer<F>,
    outs: Seq<F::SimdCircuitField>,
    rz: Seq<F::ChallengeField>,
    weights: Seq<F::ChallengeField>,
)
    requires
        layer.wf(),
        computes(layer, outs),
        rz.len() == layer.output_var_num,
        pow2(rz.len()) <= weights.len(),
        forall|i: int| 0 <= i < pow2(rz.len()) ==> #[trigger] weights[i] == eq_table(rz)[i],
    ensures
        dot(evaluated(layer), broadcasts::<F>(weights), pow2(layer.output_var_num as nat))
            == wires_at::<F>(outs, rz),
{
    let n = pow2(rz.len());
    let a = Seq::new(n, |i: int| F::broadcast_spec(eq_table(rz)[i]));
    let b = Seq::new(n, |i: int| F::promote_spec(outs[i]));
    lemma_dot_commutes(evaluated(layer), broadcasts::<F>(weights), n);
    assert(evaluated(layer).len() == n);
    assert(promoted::<F>(outs).len() == n);
    assert forall|i: int| 0 <= i < n implies #[trigger] evaluated(layer)[i] == b[i] by {
        assert(promoted::<F>(outs)[i] == evaluated(layer)[i]);
    }
    assert forall|i: int| 0 <= i < n implies #[trigger] broadcasts::<F>(weights)[i] == a[i] by {
        assert(weights[i] == eq_table(rz)[i]);
    }
    lemma_dot_same(broadcasts::<F>(weights), evaluated(layer), a, b, n);
}

/// The first round's values at zero and one add up to the weighted sum of the gates' outputs.
proof fn lemma_first_round_sum<F: FieldEngine>(inst: InstView<F>)
    requires
        inst.wf(),
        inst.input_var_num() >= 1,
        all_valid(promoted::<F>(inst.layer.input_vals@), pow2(inst.input_var_num())),
    ensures
        ({
            let values = inst.x_prepared().host_values(0);
            values[0].plus_spec(values[1]) == dot(
                evaluated(inst.layer),
                broadcasts::<F>(inst.output_weights()),
                pow2(inst.layer.output_var_num as nat),
            )
        }),
{
    let weights = inst.output_weights();
    let terms = inst.x_terms(weights);
    let inputs = pow2(inst.input_var_num());
    let prepared = inst.x_prepared();
    let vals = promoted::<F>(inst.layer.input_vals@);
    let half = inst.eval_size(0);
    lemma_pow2_unfold(inst.input_var_num());
    assert(prepared.eval_size(0) == half);
    lemma_phase_ready(inst, arbitrary());
    assert(round_source::<F>(0, prepared.pad.v_evals, inst.layer.input_vals@) =~= vals);
    let hg = prepared.pad.hg_evals;
    lemma_quadratic_values(vals, hg, prepared.pad.gate_exists, half);
    lemma_round_total(vals, hg, half);
    lemma_dot_same(vals, hg, vals, collected_seq(terms, terms.len(), inputs), inputs);
    lemma_first_phase_sum(inst, weights);
}

/// A layer with one claim starts from it: the first round's values at zero and one add up to the
/// value of the outputs at the claimed point.
pub proof fn lemma_first_round_claim<F: FieldEngine>(
    inst: InstView<F>,
    outs: Seq<F::SimdCircuitField>,
)
    requires
        inst.wf(),
        inst.is_output_layer || inst.challenge.rz_1 is None,
        inst.input_var_num() >= 1,
        computes(inst.layer, outs),
        all_valid(promoted::<F>(inst.layer.input_vals@), pow2(inst.input_var_num())),
    ensures
        ({
            let values = inst.x_prepared().host_values(0);
            values[0].plus_spec(values[1]) == wires_at::<F>(outs, inst.challenge.rz_0)
        }),
{
    lemma_first_round_sum(inst);
    lemma_outputs_at(inst.layer, outs, inst.challenge.rz_0, inst.output_weights());
}

/// A factor of an equality table is a factor of its entries.
pub proof fn lemma_eq_weight_factor<E: Field>(r: Seq<E>, factor: E, i: int)
    requires
        factor.valid(),
    ensures
        eq_weight(r, factor, i) == eq_weight(r, E::one_spec(), i).times_spec(factor),
    decreases r.len(),
{
    let one = E::one_spec();
    if r.len() == 0 {
        E::law_times_commutes(one, factor);
        E::law_times_one(factor);
    } else {
        let half = pow2((r.len() - 1) as nat);
        let (rest, j, side) = if i < half {
            (r.drop_last(), i, one.minus_spec(r.last()))
        } else {
            (r.drop_last(), i - half, r.last())
        };
        lemma_eq_weight_factor(rest, factor, j);
        let w = eq_weight(rest, one, j);
        E::law_times_associates(w, factor, side);
        E::law_times_commutes(factor, side);
        E::law_times_associates(w, side, factor);
    }
}

/// A layer with two claims starts from both: the first round's values at zero and one add up to
/// the value of the outputs at the first point plus `alpha` times that at the second.
pub proof fn lemma_first_round_claims<F: FieldEngine>(
    inst: InstView<F>,
    outs: Seq<F::SimdCircuitField>,
)
    requires
        inst.wf(),
        !inst.is_output_layer,
        inst.challenge.rz_1 is Some,
        inst.alpha->0.valid(),
        inst.input_var_num() >= 1,
        computes(inst.layer, outs),
        all_valid(promoted::<F>(inst.layer.input_vals@), pow2(inst.input_var_num())),
        forall|i: int|
            0 <= i < pow2(inst.layer.output_var_num as nat) ==> #[trigger] inst.pad.eq_rx[i]
                == eq_table(inst.challenge.rz_0)[i],
    ensures
        ({
            let values = inst.x_prepared().host_values(0);
            values[0].plus_spec(values[1]) == wires_at::<F>(
                outs,
                inst.challenge.rz_1->0,
            ).times_spec(F::broadcast_spec(inst.alpha->0)).plus_spec(
                wires_at::<F>(outs, inst.challenge.rz_0),
            )
        }),
{
    let layer = inst.layer;
    let weights = inst.output_weights();
    let (rz_0, rz_1, alpha) = (inst.challenge.rz_0, inst.challenge.rz_1->0, inst.alpha->0);
    let n = pow2(layer.output_var_num as nat);
    lemma_first_round_sum(inst);
    let values = evaluated(layer);
    let b = broadcasts::<F>(weights);
    let b_0 = broadcasts::<F>(eq_table(rz_0));
    let b_1 = broadcasts::<F>(eq_table(rz_1));
    let e = F::broadcast_spec(alpha);
    let scaled = Seq::new(n, |i: int| b_1[i].times_spec(e));
    assert forall|i: int| 0 <= i < n implies #[trigger] b[i] == scaled[i].plus_spec(b_0[i]) by {
        let w = eq_table(rz_1)[i];
        lemma_eq_weight_factor(rz_1, alpha, i);
        assert(inst.pad.eq_rx[i] == eq_table(rz_0)[i]);
        F::law_broadcast(w.times_spec(alpha), eq_table(rz_0)[i]);
        F::law_broadcast(w, alpha);
    }
    lemma_dot_commutes(values, b, n);
    lemma_dot_plus(scaled, b_0, b, values, n);
    lemma_dot_times(b_1, scaled, e, values, n);
    lemma_dot_commutes(b_1, values, n);
    lemma_dot_commutes(b_0, values, n);
    lemma_outputs_at(layer, outs, rz_0, eq_table(rz_0));
    lemma_outputs_at(layer, outs, rz_1, eq_table(rz_1));
}

// ---------------------------------------------------------------------------
// From round to round
// ---------------------------------------------------------------------------

/// The sum that round `var` of a phase is about.
pub open spec fn round_sum<F: FieldEngine>(inst: InstView<F>, var: nat) -> F::Field {
    dot(
        round_source::<F>(var, inst.pad.v_evals, inst.layer.input_vals@),
        inst.pad.hg_evals,
        pow2((inst.input_var_num() - var) as nat),
    )
}

/// The tables of round `var` are in canonical form, and the flags cover the coefficients.
pub open spec fn is_ready<F: FieldEngine>(inst: InstView<F>, var: nat) -> bool {
    let size = pow2((inst.input_var_num() - var) as nat);
    &&& all_valid(round_source::<F>(var, inst.pad.v_evals, inst.layer.input_vals@), size)
    &&& all_valid(inst.pad.hg_evals, size)
    &&& covers(inst.pad.gate_exists, inst.pad.hg_evals, size)
}

proof fn lemma_collected_ready<F: FieldEngine>(
    before: InstView<F>,
    after: InstView<F>,
    terms: Seq<(int, F::Field)>,
)
    requires
        before.wf(),
        all_valid(promoted::<F>(before.layer.input_vals@), pow2(before.input_var_num())),
        after.layer == before.layer,
        after.pad.hg_evals == collected_table(
            before.pad.hg_evals,
            terms,
            terms.len(),
            pow2(before.input_var_num()),
        ),
        after.pad.gate_exists == reached_table(
            before.pad.gate_exists,
            terms,
            terms.len(),
            pow2(before.input_var_num()),
        ),
    ensures
        is_ready(after, 0),
{
    let inputs = pow2(before.input_var_num());
    let vals = promoted::<F>(before.layer.input_vals@);
    assert(round_source::<F>(0, after.pad.v_evals, after.layer.input_vals@) =~= vals);
    assert forall|i: int| 0 <= i < inputs implies (#[trigger] after.pad.hg_evals[i]).valid() by {
        lemma_collected_valid(terms, terms.len(), i);
    }
    assert forall|i: int|
        0 <= i < inputs && !after.pad.gate_exists[i] implies #[trigger] after.pad.hg_evals[i]
        == F::Field::zero_spec() by {
        lemma_not_reached(terms, terms.len(), i);
    }
}

/// A phase starts with tables that are ready.
pub proof fn lemma_phase_ready<F: FieldEngine>(inst: InstView<F>, v: F::ChallengeField)
    requires
        inst.wf(),
        all_valid(promoted::<F>(inst.layer.input_vals@), pow2(inst.input_var_num())),
    ensures
        is_ready(inst.x_prepared(), 0),
        inst.rx.len() == inst.input_var_num() ==> is_ready(inst.y_prepared(v), 0),
{
    let x = inst.x_terms(inst.output_weights());
    lemma_collected_ready(inst, inst.x_prepared(), x);
    if inst.rx.len() == inst.input_var_num() {
        let y = inst.y_terms(inst.pad.eq_rz0, inst.y_prepared(v).pad.eq_rx);
        lemma_collected_ready(inst, inst.y_prepared(v), y);
    }
}

/// A round sends the values of its polynomial, they add up to the round's sum, and at the
/// challenge the polynomial gives the sum of the next round, whose tables are ready again.
pub proof fn lemma_round_chain<F: FieldEngine>(inst: InstView<F>, var: nat, r: F::ChallengeField)
    requires
        inst.wf(),
        var < inst.input_var_num(),
        is_ready(inst, var),
    ensures
        ({
            let f = round_source::<F>(var, inst.pad.v_evals, inst.layer.input_vals@);
            let h = inst.pad.hg_evals;
            let n = inst.eval_size(var);
            let (zero, one) = (F::Field::zero_spec(), F::Field::one_spec());
            let values = inst.host_values(var);
            let next = inst.host_folded(var, r);
            &&& values == seq![
                round_at(f, h, n, zero),
                round_at(f, h, n, one),
                round_at(f, h, n, one.plus_spec(one)),
            ]
            &&& values[0].plus_spec(values[1]) == round_sum(inst, var)
            &&& round_sum(next, var + 1) == round_at(f, h, n, F::broadcast_spec(r))
            &&& is_ready(next, var + 1)
        }),
{
    let f = round_source::<F>(var, inst.pad.v_evals, inst.layer.input_vals@);
    let h = inst.pad.hg_evals;
    let n = inst.eval_size(var);
    let e = F::broadcast_spec(r);
    let next = inst.host_folded(var, r);
    let size = pow2((inst.input_var_num() - var) as nat);
    lemma_pow2_unfold((inst.input_var_num() - var) as nat);
    if var > 0 {
        lemma_pow2_strictly_increases(
            (inst.input_var_num() - var) as nat,
            inst.input_var_num(),
        );
    }
    lemma_quadratic_values(f, h, inst.pad.gate_exists, n);
    lemma_round_total(f, h, n);
    lemma_fold_covers(h, inst.pad.gate_exists, n, e);
    lemma_round_folds(f, h, next.pad.v_evals, next.pad.hg_evals, n, e);
    let source = round_source::<F>(var + 1, next.pad.v_evals, next.layer.input_vals@);
    assert forall|i: int| 0 <= i < n implies (#[trigger] source[i]).valid() by {
        F::Field::law_closed(
            f[2 * i],
            f[2 * i + 1].minus_spec(f[2 * i]).times_spec(e),
        );
    }
}

// ---------------------------------------------------------------------------
// From the first phase to the second
// ---------------------------------------------------------------------------

/// What the addition gates leave of the first phase's coefficients at a point.
pub open spec fn add_sum<F: FieldEngine>(
    layer: CircuitLayer<F>,
    weights: Seq<F::ChallengeField>,
    eq_rx: Seq<F::ChallengeField>,
    n: nat,
) -> F::Field
    decreases n,
{
    if n == 0 {
        F::Field::zero_spec()
    } else {
        let g = layer.add@[n - 1];
        add_sum(layer, weights, eq_rx, (n - 1) as nat).plus_spec(
            F::broadcast_spec(
                weights[g.o_id as int].times_spec(F::embed_spec(g.coef)),
            ).times_spec(F::broadcast_spec(eq_rx[g.i_ids@[0] as int])),
        )
    }
}

/// It depends on the weights of the wires alone.
pub proof fn lemma_add_sum_same<F: FieldEngine>(
    layer: CircuitLayer<F>,
    a: Seq<F::ChallengeField>,
    x: Seq<F::ChallengeField>,
    b: Seq<F::ChallengeField>,
    y: Seq<F::ChallengeField>,
    n: nat,
)
    requires
        layer.wf(),
        n <= layer.add@.len(),
        forall|k: int|
            0 <= k < pow2(layer.output_var_num as nat) ==> #[trigger] a[k] == b[k],
        forall|k: int| 0 <= k < pow2(layer.input_var_num as nat) ==> #[trigger] x[k] == y[k],
    ensures
        add_sum(layer, a, x, n) == add_sum(layer, b, y, n),
    decreases n,
{
    if n > 0 {
        lemma_add_sum_same(layer, a, x, b, y, (n - 1) as nat);
        let g = layer.add@[n - 1];
        assert(a[g.o_id as int] == b[g.o_id as int]);
        assert(x[g.i_ids@[0] as int] == y[g.i_ids@[0] as int]);
    }
}

proof fn lemma_mul_term_sum<F: FieldEngine>(
    inst: InstView<F>,
    weights: Seq<F::ChallengeField>,
    eq_rx: Seq<F::ChallengeField>,
    n: nat,
)
    requires
        inst.layer.wf(),
        pow2(inst.input_var_num()) <= eq_rx.len(),
        n <= inst.layer.mul@.len(),
    ensures
        term_sum(inst.x_terms(weights), broadcasts::<F>(eq_rx), n) == term_sum(
            inst.y_terms(weights, eq_rx),
            promoted::<F>(inst.layer.input_vals@),
            n,
        ),
    decreases n,
{
    if n > 0 {
        let k = n - 1;
        lemma_mul_term_sum(inst, weights, eq_rx, k as nat);
        let g = inst.layer.mul@[k];
        let (w, c, e) = (
            weights[g.o_id as int],
            F::embed_spec(g.coef),
            eq_rx[g.i_ids@[0] as int],
        );
        let p = promoted::<F>(inst.layer.input_vals@)[g.i_ids@[1] as int];
        let (bw, bc, be) = (F::broadcast_spec(w), F::broadcast_spec(c), F::broadcast_spec(e));
        F::law_broadcast(w, c);
        F::law_broadcast(w, e);
        F::law_broadcast(w.times_spec(e), c);
        // (w c) p e == (w e c) p
        F::Field::law_times_associates(bw.times_spec(bc), p, be);
        F::Field::law_times_commutes(p, be);
        F::Field::law_times_associates(bw.times_spec(bc), be, p);
        F::Field::law_times_associates(bw, bc, be);
        F::Field::law_times_commutes(bc, be);
        F::Field::law_times_associates(bw, be, bc);
        assert(broadcasts::<F>(eq_rx)[g.i_ids@[0] as int] == be);
    }
}

proof fn lemma_add_term_sum<F: FieldEngine>(
    inst: InstView<F>,
    weights: Seq<F::ChallengeField>,
    eq_rx: Seq<F::ChallengeField>,
    n: nat,
)
    requires
        inst.layer.wf(),
        pow2(inst.input_var_num()) <= eq_rx.len(),
        n <= inst.layer.add@.len(),
    ensures
        term_sum(inst.x_terms(weights), broadcasts::<F>(eq_rx), inst.layer.mul@.len() + n)
            == term_sum(
            inst.x_terms(weights),
            broadcasts::<F>(eq_rx),
            inst.layer.mul@.len(),
        ).plus_spec(add_sum(inst.layer, weights, eq_rx, n)),
    decreases n,
{
    let muls = inst.layer.mul@.len();
    let terms = inst.x_terms(weights);
    let u = broadcasts::<F>(eq_rx);
    let front = term_sum(terms, u, muls);
    if n == 0 {
        lemma_term_sum_valid(terms, u, muls);
        F::Field::law_plus_zero(front);
    } else {
        let k = n - 1;
        lemma_add_term_sum(inst, weights, eq_rx, k as nat);
        let g = inst.layer.add@[k];
        let term = terms[muls + k];
        assert(term.1.times_spec(u[term.0]) == F::broadcast_spec(
            weights[g.o_id as int].times_spec(F::embed_spec(g.coef)),
        ).times_spec(F::broadcast_spec(eq_rx[g.i_ids@[0] as int])));
        F::Field::law_plus_associates(
            front,
            add_sum(inst.layer, weights, eq_rx, k as nat),
            term.1.times_spec(u[term.0]),
        );
    }
}

proof fn lemma_term_sum_valid<T: Field>(terms: Seq<(int, T)>, u: Seq<T>, n: nat)
    ensures
        term_sum(terms, u, n).valid(),
{
    if n == 0 {
        T::law_closed(T::zero_spec(), T::zero_spec());
    } else {
        T::law_closed(
            term_sum(terms, u, (n - 1) as nat),
            terms[n - 1].1.times_spec(u[terms[n - 1].0]),
        );
    }
}

/// The second phase starts from what the first leaves: the first phase's coefficients at the
/// challenge of the first input wires are the sum that the second phase proves, plus what the
/// addition gates leave.
pub proof fn lemma_second_phase_sum<F: FieldEngine>(
    inst: InstView<F>,
    weights: Seq<F::ChallengeField>,
    eq_rx: Seq<F::ChallengeField>,
)
    requires
        inst.layer.wf(),
        pow2(inst.layer.output_var_num as nat) <= weights.len(),
        pow2(inst.input_var_num()) <= eq_rx.len(),
    ensures
        ({
            let x = inst.x_terms(weights);
            let y = inst.y_terms(weights, eq_rx);
            let inputs = pow2(inst.input_var_num());
            dot(broadcasts::<F>(eq_rx), collected_seq(x, x.len(), inputs), inputs) == dot(
                promoted::<F>(inst.layer.input_vals@),
                collected_seq(y, y.len(), inputs),
                inputs,
            ).plus_spec(add_sum(inst.layer, weights, eq_rx, inst.layer.add@.len()))
        }),
{
    let layer = inst.layer;
    let x = inst.x_terms(weights);
    let y = inst.y_terms(weights, eq_rx);
    let inputs = pow2(inst.input_var_num());
    let u = broadcasts::<F>(eq_rx);
    let vals = promoted::<F>(layer.input_vals@);
    lemma_dot_commutes(u, collected_seq(x, x.len(), inputs), inputs);
    lemma_collected_dot(x, x.len(), u, inputs);
    lemma_dot_commutes(vals, collected_seq(y, y.len(), inputs), inputs);
    lemma_collected_dot(y, y.len(), vals, inputs);
    lemma_add_term_sum(inst, weights, eq_rx, layer.add@.len());
    lemma_mul_term_sum(inst, weights, eq_rx, layer.mul@.len());
}

// ---------------------------------------------------------------------------
// At the end of the second phase
// ---------------------------------------------------------------------------

/// What the multiplication gates leave of the second phase's coefficients at a point.
pub open spec fn mul_sum<F: FieldEngine>(
    layer: CircuitLayer<F>,
    weights: Seq<F::ChallengeField>,
    eq_rx: Seq<F::ChallengeField>,
    eq_ry: Seq<F::ChallengeField>,
    n: nat,
) -> F::Field
    decreases n,
{
    if n == 0 {
        F::Field::zero_spec()
    } else {
        let g = layer.mul@[n - 1];
        mul_sum(layer, weights, eq_rx, eq_ry, (n - 1) as nat).plus_spec(
            F::broadcast_spec(
                weights[g.o_id as int].times_spec(eq_rx[g.i_ids@[0] as int]).times_spec(
                    F::embed_spec(g.coef),
                ),
            ).times_spec(F::broadcast_spec(eq_ry[g.i_ids@[1] as int])),
        )
    }
}

/// It depends on the weights of the wires alone.
pub proof fn lemma_mul_sum_same<F: FieldEngine>(
    layer: CircuitLayer<F>,
    a: Seq<F::ChallengeField>,
    x: Seq<F::ChallengeField>,
    b: Seq<F::ChallengeField>,
    y: Seq<F::ChallengeField>,
    eq_ry: Seq<F::ChallengeField>,
    n: nat,
)
    requires
        layer.wf(),
        n <= layer.mul@.len(),
        forall|k: int|
            0 <= k < pow2(layer.output_var_num as nat) ==> #[trigger] a[k] == b[k],
        forall|k: int| 0 <= k < pow2(layer.input_var_num as nat) ==> #[trigger] x[k] == y[k],
    ensures
        mul_sum(layer, a, x, eq_ry, n) == mul_sum(layer, b, y, eq_ry, n),
    decreases n,
{
    if n > 0 {
        lemma_mul_sum_same(layer, a, x, b, y, eq_ry, (n - 1) as nat);
        let g = layer.mul@[n - 1];
        assert(a[g.o_id as int] == b[g.o_id as int]);
        assert(x[g.i_ids@[0] as int] == y[g.i_ids@[0] as int]);
    }
}

/// The second phase's coefficients, extended to a point.
pub proof fn lemma_second_coefs<F: FieldEngine>(
    inst: InstView<F>,
    weights: Seq<F::ChallengeField>,
    eq_rx: Seq<F::ChallengeField>,
    eq_ry: Seq<F::ChallengeField>,
    n: nat,
)
    requires
        inst.layer.wf(),
        n <= inst.layer.mul@.len(),
        pow2(inst.input_var_num()) <= eq_ry.len(),
    ensures
        ({
            let y = inst.y_terms(weights, eq_rx);
            let size = pow2(inst.input_var_num());
            dot(broadcasts::<F>(eq_ry), collected_seq(y, n, size), size) == mul_sum(
                inst.layer,
                weights,
                eq_rx,
                eq_ry,
                n,
            )
        }),
{
    let y = inst.y_terms(weights, eq_rx);
    let size = pow2(inst.input_var_num());
    let u = broadcasts::<F>(eq_ry);
    lemma_dot_commutes(u, collected_seq(y, n, size), size);
    lemma_collected_dot(y, n, u, size);
    lemma_second_terms(inst, weights, eq_rx, eq_ry, n);
}

proof fn lemma_second_terms<F: FieldEngine>(
    inst: InstView<F>,
    weights: Seq<F::ChallengeField>,
    eq_rx: Seq<F::ChallengeField>,
    eq_ry: Seq<F::ChallengeField>,
    n: nat,
)
    requires
        inst.layer.wf(),
        n <= inst.layer.mul@.len(),
        pow2(inst.input_var_num()) <= eq_ry.len(),
    ensures
        term_sum(inst.y_terms(weights, eq_rx), broadcasts::<F>(eq_ry), n) == mul_sum(
            inst.layer,
            weights,
            eq_rx,
            eq_ry,
            n,
        ),
    decreases n,
{
    if n > 0 {
        lemma_second_terms(inst, weights, eq_rx, eq_ry, (n - 1) as nat);
        let g = inst.layer.mul@[n - 1];
        assert(broadcasts::<F>(eq_ry)[g.i_ids@[1] as int] == F::broadcast_spec(
            eq_ry[g.i_ids@[1] as int],
        ));
    }
}

} // verus!
