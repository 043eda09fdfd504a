//! Rounds of the sumcheck over a product of two tables.

use vstd::arithmetic::power2::*;
use vstd::prelude::*;

use crate::engine::FieldEngine;
use crate::field::Field;
use crate::poly::{
    compute_line_at, compute_value_at_two, fold_table, line_at, pow2_usize, value_at_two,
};

verus! {

/// The sums of `f(0) h(0)`, of `f(1) h(1)` and of `(f(0) + f(1))(h(0) + h(1))` over the first
/// `n` pairs of neighbouring entries; pairs without a gate are left out.
pub open spec fn pair_sums<E: Field>(f: Seq<E>, h: Seq<E>, gates: Seq<bool>, n: nat) -> (E, E, E)
    decreases n,
{
    if n == 0 {
        (E::zero_spec(), E::zero_spec(), E::zero_spec())
    } else {
        let i = n - 1;
        let (s0, s1, s2) = pair_sums(f, h, gates, i as nat);
        if gates[2 * i] || gates[2 * i + 1] {
            let (f0, f1) = (f[2 * i], f[2 * i + 1]);
            let (h0, h1) = (h[2 * i], h[2 * i + 1]);
            (
                s0.plus_spec(f0.times_spec(h0)),
                s1.plus_spec(f1.times_spec(h1)),
                s2.plus_spec(f0.plus_spec(f1).times_spec(h0.plus_spec(h1))),
            )
        } else {
            (s0, s1, s2)
        }
    }
}

/// The values of a quadratic round polynomial at zero, one and two, from its raw sums.
pub open spec fn quadratic_values<E: Field>(sums: (E, E, E)) -> Seq<E> {
    seq![sums.0, sums.1, value_at_two(sums.0, sums.1, sums.2)]
}

/// The table a round reads: the promoted wire values in the first round, the folded table after.
pub open spec fn round_source<F: FieldEngine>(
    var_idx: nat,
    bk_f: Seq<F::Field>,
    init_v: Seq<F::SimdCircuitField>,
) -> Seq<F::Field> {
    if var_idx == 0 {
        Seq::new(init_v.len(), |i: int| F::promote_spec(init_v[i]))
    } else {
        bk_f
    }
}

/// A pair has a gate when either of its entries has one; the flags from `n` on are left alone.
pub open spec fn gates_folded(gates: Seq<bool>, n: nat) -> Seq<bool> {
    Seq::new(
        gates.len(),
        |i: int|
            if i < n {
                gates[2 * i] || gates[2 * i + 1]
            } else {
                gates[i]
            },
    )
}

/// The wire table after a round: the first round folds the promoted wire values into the buffer.
pub open spec fn f_folded<F: FieldEngine>(
    var_idx: nat,
    bk_f: Seq<F::Field>,
    init_v: Seq<F::SimdCircuitField>,
    n: nat,
    r: F::Field,
) -> Seq<F::Field> {
    let source = round_source::<F>(var_idx, bk_f, init_v);
    Seq::new(
        bk_f.len(),
        |i: int|
            if i < n {
                line_at(source[2 * i], source[2 * i + 1], r)
            } else {
                bk_f[i]
            },
    )
}

/// The coefficient table after a round; a pair without gates becomes zero.
pub open spec fn hg_folded<E: Field>(hg: Seq<E>, gates: Seq<bool>, n: nat, r: E) -> Seq<E> {
    Seq::new(
        hg.len(),
        |i: int|
            if i < n {
                if gates[2 * i] || gates[2 * i + 1] {
                    line_at(hg[2 * i], hg[2 * i + 1], r)
                } else {
                    E::zero_spec()
                }
            } else {
                hg[i]
            },
    )
}

/// Compacts the presence flags of neighbouring pairs in place.
pub fn gpu_update_gate_exists(gate_exists: &mut Vec<bool>, eval_size: usize)
    requires
        2 * eval_size <= old(gate_exists)@.len(),
    ensures
        final(gate_exists)@ == gates_folded(old(gate_exists)@, eval_size as nat),
{
    let ghost start = gate_exists@;
    let len: usize = gate_exists.len();
    for k in 0..eval_size
        invariant
            2 * eval_size <= len,
            len == start.len(),
            gate_exists@.len() == start.len(),
            forall|i: int|
                0 <= i < k ==> #[trigger] gate_exists@[i] == (start[2 * i] || start[2 * i + 1]),
            forall|i: int| k <= i < gate_exists@.len() ==> #[trigger] gate_exists@[i] == start[i],
    {
        let either: bool = gate_exists[k * 2] || gate_exists[k * 2 + 1];
        gate_exists[k] = either;
    }
    assert(gate_exists@ =~= gates_folded(start, eval_size as nat));
}

/// Runs the rounds of a sumcheck over `var_num` variables of `f * hg`.
#[derive(Clone, Copy, Debug, PartialEq, Eq)]
pub struct SumcheckProductGateHelper {
    pub var_num: usize,
}

impl SumcheckProductGateHelper {
    pub fn new(var_num: usize) -> (r: Self)
        ensures
            r.var_num == var_num,
    {
        SumcheckProductGateHelper { var_num }
    }

    /// The number of pairs round `var_idx` works on.
    pub open spec fn eval_size_spec(self, var_idx: nat) -> nat {
        pow2((self.var_num - var_idx - 1) as nat)
    }

    pub fn eval_size(&self, var_idx: usize) -> (r: usize)
        requires
            var_idx < self.var_num,
            pow2(self.var_num as nat) <= usize::MAX,
        ensures
            r == self.eval_size_spec(var_idx as nat),
            2 * r <= pow2(self.var_num as nat),
            r >= 1,
    {
        proof {
            let e = (self.var_num - var_idx - 1) as nat;
            lemma_pow2_unfold((e + 1) as nat);
            lemma_pow2_pos(e);
            if var_idx > 0 {
                lemma_pow2_strictly_increases((e + 1) as nat, self.var_num as nat);
            }
        }
        pow2_usize(self.var_num - var_idx - 1)
    }

    /// The round polynomial at zero, one and two.
    pub fn poly_eval_at<F: FieldEngine>(
        &self,
        var_idx: usize,
        degree: usize,
        bk_f: &Vec<F::Field>,
        bk_hg: &Vec<F::Field>,
        init_v: &Vec<F::SimdCircuitField>,
        gate_exists: &Vec<bool>,
    ) -> (r: [F::Field; 3])
        requires
            degree == 2,
            var_idx < self.var_num,
            pow2(self.var_num as nat) <= bk_f@.len(),
            pow2(self.var_num as nat) <= bk_hg@.len(),
            pow2(self.var_num as nat) <= init_v@.len(),
            pow2(self.var_num as nat) <= gate_exists@.len(),
        ensures
            r@ == quadratic_values(
                pair_sums(
                    round_source::<F>(var_idx as nat, bk_f@, init_v@),
                    bk_hg@,
                    gate_exists@,
                    self.eval_size_spec(var_idx as nat),
                ),
            ),
    {
        let limit: usize = bk_f.len();
        let eval_size: usize = self.eval_size(var_idx);
        let ghost source = round_source::<F>(var_idx as nat, bk_f@, init_v@);
        let mut p0 = F::Field::zero();
        let mut p1 = F::Field::zero();
        let mut p2 = F::Field::zero();
        for i in 0..eval_size
            invariant
                source == round_source::<F>(var_idx as nat, bk_f@, init_v@),
                2 * eval_size <= limit,
                2 * eval_size <= bk_f@.len(),
                2 * eval_size <= bk_hg@.len(),
                2 * eval_size <= init_v@.len(),
                2 * eval_size <= gate_exists@.len(),
                (p0, p1, p2) == pair_sums(source, bk_hg@, gate_exists@, i as nat),
        {
            if gate_exists[i * 2] || gate_exists[i * 2 + 1] {
                let (f0, f1) = if var_idx == 0 {
                    (F::promote(init_v[i * 2]), F::promote(init_v[i * 2 + 1]))
                } else {
                    (bk_f[i * 2], bk_f[i * 2 + 1])
                };
                let h0 = bk_hg[i * 2];
                let h1 = bk_hg[i * 2 + 1];
                p0 = p0.plus(f0.times(h0));
                p1 = p1.plus(f1.times(h1));
                p2 = p2.plus(f0.plus(f1).times(h0.plus(h1)));
            }
        }
        let r = [p0, p1, compute_value_at_two(p0, p1, p2)];
        assert(r@ =~= quadratic_values((p0, p1, p2)));
        r
    }

    /// Binds the round's variable to `r` in the wire table, the coefficient table and the presence
    /// flags.
    pub fn receive_challenge<F: FieldEngine>(
        &self,
        var_idx: usize,
        r: F::ChallengeField,
        bk_f: &mut Vec<F::Field>,
        bk_hg: &mut Vec<F::Field>,
        init_v: &Vec<F::SimdCircuitField>,
        gate_exists: &mut Vec<bool>,
    )
        requires
            var_idx < self.var_num,
            pow2(self.var_num as nat) <= old(bk_f)@.len(),
            pow2(self.var_num as nat) <= old(bk_hg)@.len(),
            pow2(self.var_num as nat) <= init_v@.len(),
            pow2(self.var_num as nat) <= old(gate_exists)@.len(),
        ensures
            final(bk_f)@ == f_folded::<F>(
                var_idx as nat,
                old(bk_f)@,
                init_v@,
                self.eval_size_spec(var_idx as nat),
                F::broadcast_spec(r),
            ),
            final(bk_hg)@ == hg_folded(
                old(bk_hg)@,
                old(gate_exists)@,
                self.eval_size_spec(var_idx as nat),
                F::broadcast_spec(r),
            ),
            final(gate_exists)@ == gates_folded(
                old(gate_exists)@,
                self.eval_size_spec(var_idx as nat),
            ),
    {
        let limit: usize = bk_f.len();
        let eval_size: usize = self.eval_size(var_idx);
        let e = F::broadcast(r);
        if var_idx == 0 {
            let ghost start = bk_f@;
            for k in 0..eval_size
                invariant
                    2 * eval_size <= limit,
                    limit == start.len(),
                    2 * eval_size <= init_v@.len(),
                    bk_f@.len() == start.len(),
                    forall|i: int|
                        0 <= i < k ==> #[trigger] bk_f@[i] == line_at(
                            F::promote_spec(init_v@[2 * i]),
                            F::promote_spec(init_v@[2 * i + 1]),
                            e,
                        ),
                    forall|i: int| k <= i < bk_f@.len() ==> #[trigger] bk_f@[i] == start[i],
            {
                let a = F::promote(init_v[2 * k]);
                let b = F::promote(init_v[2 * k + 1]);
                bk_f[k] = compute_line_at(a, b, e);
            }
            assert(bk_f@ =~= f_folded::<F>(0, start, init_v@, eval_size as nat, e));
        } else {
            fold_table(bk_f, eval_size, e);
            assert(bk_f@ =~= f_folded::<F>(
                var_idx as nat,
                old(bk_f)@,
                init_v@,
                eval_size as nat,
                e,
            ));
        }
        let ghost start = bk_hg@;
        let hg_len: usize = bk_hg.len();
        for k in 0..eval_size
            invariant
                2 * eval_size <= hg_len,
                hg_len == start.len(),
                2 * eval_size <= gate_exists@.len(),
                gate_exists@ == old(gate_exists)@,
                bk_hg@.len() == start.len(),
                forall|i: int|
                    0 <= i < k ==> #[trigger] bk_hg@[i] == hg_folded(
                        start,
                        gate_exists@,
                        eval_size as nat,
                        e,
                    )[i],
                forall|i: int| k <= i < bk_hg@.len() ==> #[trigger] bk_hg@[i] == start[i],
        {
            if gate_exists[2 * k] || gate_exists[2 * k + 1] {
                let a = bk_hg[2 * k];
                let b = bk_hg[2 * k + 1];
                bk_hg[k] = compute_line_at(a, b, e);
            } else {
                bk_hg[k] = F::Field::zero();
            }
        }
        assert(bk_hg@ =~= hg_folded(start, gate_exists@, eval_size as nat, e));
        gpu_update_gate_exists(gate_exists, eval_size);
    }
}

} // verus!
