//! Rounds of the sumcheck over a product of three tables.

use vstd::arithmetic::power2::*;
use vstd::prelude::*;

use crate::field::Field;
use crate::poly::{fold_table, folded, pow2_usize};

verus! {

/// The value at the small integer `k` of the line through `a` at zero and `b` at one.
pub open spec fn line_at_int<E: Field>(a: E, b: E, k: nat) -> E
    decreases k,
{
    if k == 0 {
        a
    } else if k == 1 {
        b
    } else {
        line_at_int(a, b, (k - 1) as nat).plus_spec(b.minus_spec(a))
    }
}

/// The sum over the first `n` pairs of the product of the three lines at `k`.
pub open spec fn triple_sum<E: Field>(eq: Seq<E>, f: Seq<E>, hg: Seq<E>, n: nat, k: nat) -> E
    decreases n,
{
    if n == 0 {
        E::zero_spec()
    } else {
        let i = n - 1;
        triple_sum(eq, f, hg, i as nat, k).plus_spec(
            line_at_int(eq[2 * i], eq[2 * i + 1], k).times_spec(
                line_at_int(f[2 * i], f[2 * i + 1], k),
            ).times_spec(line_at_int(hg[2 * i], hg[2 * i + 1], k)),
        )
    }
}

/// The values of a cubic round polynomial at zero, one, two and three.
pub open spec fn cubic_values<E: Field>(eq: Seq<E>, f: Seq<E>, hg: Seq<E>, n: nat) -> Seq<E> {
    seq![
        triple_sum(eq, f, hg, n, 0),
        triple_sum(eq, f, hg, n, 1),
        triple_sum(eq, f, hg, n, 2),
        triple_sum(eq, f, hg, n, 3),
    ]
}

/// Runs the rounds of a sumcheck over `var_num` variables of `eq * f * hg`.
#[derive(Clone, Copy, Debug, PartialEq, Eq)]
pub struct SumcheckSimdProdGateHelper {
    pub var_num: usize,
}

impl SumcheckSimdProdGateHelper {
    pub fn new(var_num: usize) -> (r: Self)
        ensures
            r.var_num == var_num,
    {
        SumcheckSimdProdGateHelper { var_num }
    }

    /// The number of pairs round `var_idx` works on.
    pub open spec fn eval_size_spec(self, var_idx: nat) -> nat {
        pow2((self.var_num - var_idx - 1) as nat)
    }

    fn eval_size(&self, var_idx: usize) -> (r: usize)
        requires
            var_idx < self.var_num,
            pow2(self.var_num as nat) <= usize::MAX,
        ensures
            r == self.eval_size_spec(var_idx as nat),
            2 * r <= pow2(self.var_num as nat),
    {
        proof {
            let e = (self.var_num - var_idx - 1) as nat;
            lemma_pow2_unfold((e + 1) as nat);
            if var_idx > 0 {
                lemma_pow2_strictly_increases((e + 1) as nat, self.var_num as nat);
            }
        }
        pow2_usize(self.var_num - var_idx - 1)
    }

    /// The round polynomial at zero, one, two and three.
    pub fn poly_eval_at<E: Field>(
        &self,
        var_idx: usize,
        degree: usize,
        bk_eq: &Vec<E>,
        bk_f: &Vec<E>,
        bk_hg: &Vec<E>,
    ) -> (r: [E; 4])
        requires
            degree == 3,
            var_idx < self.var_num,
            pow2(self.var_num as nat) <= bk_eq@.len(),
            pow2(self.var_num as nat) <= bk_f@.len(),
            pow2(self.var_num as nat) <= bk_hg@.len(),
        ensures
            r@ == cubic_values(
                bk_eq@,
                bk_f@,
                bk_hg@,
                self.eval_size_spec(var_idx as nat),
            ),
    {
        let limit: usize = bk_eq.len();
        let eval_size: usize = self.eval_size(var_idx);
        let mut p0 = E::zero();
        let mut p1 = E::zero();
        let mut p2 = E::zero();
        let mut p3 = E::zero();
        for i in 0..eval_size
            invariant
                2 * eval_size <= limit,
                2 * eval_size <= bk_eq@.len(),
                2 * eval_size <= bk_f@.len(),
                2 * eval_size <= bk_hg@.len(),
                p0 == triple_sum(bk_eq@, bk_f@, bk_hg@, i as nat, 0),
                p1 == triple_sum(bk_eq@, bk_f@, bk_hg@, i as nat, 1),
                p2 == triple_sum(bk_eq@, bk_f@, bk_hg@, i as nat, 2),
                p3 == triple_sum(bk_eq@, bk_f@, bk_hg@, i as nat, 3),
        {
            let eq0 = bk_eq[i * 2];
            let eq1 = bk_eq[i * 2 + 1];
            let f0 = bk_f[i * 2];
            let f1 = bk_f[i * 2 + 1];
            let hg0 = bk_hg[i * 2];
            let hg1 = bk_hg[i * 2 + 1];
            let eq_step = eq1.minus(eq0);
            let f_step = f1.minus(f0);
            let hg_step = hg1.minus(hg0);
            let eq2 = eq1.plus(eq_step);
            let f2 = f1.plus(f_step);
            let hg2 = hg1.plus(hg_step);
            p0 = p0.plus(eq0.times(f0).times(hg0));
            p1 = p1.plus(eq1.times(f1).times(hg1));
            p2 = p2.plus(eq2.times(f2).times(hg2));
            p3 = p3.plus(eq2.plus(eq_step).times(f2.plus(f_step)).times(hg2.plus(hg_step)));
            proof {
                reveal_with_fuel(line_at_int, 4);
            }
        }
        let r = [p0, p1, p2, p3];
        assert(r@ =~= cubic_values(bk_eq@, bk_f@, bk_hg@, eval_size as nat));
        r
    }

    /// Binds the round's variable to `r` in all three tables.
    pub fn receive_challenge<E: Field>(
        &self,
        var_idx: usize,
        r: E,
        bk_eq: &mut Vec<E>,
        bk_f: &mut Vec<E>,
        bk_hg: &mut Vec<E>,
    )
        requires
            var_idx < self.var_num,
            pow2(self.var_num as nat) <= old(bk_eq)@.len(),
            pow2(self.var_num as nat) <= old(bk_f)@.len(),
            pow2(self.var_num as nat) <= old(bk_hg)@.len(),
        ensures
            final(bk_eq)@ == folded(old(bk_eq)@, self.eval_size_spec(var_idx as nat), r),
            final(bk_f)@ == folded(old(bk_f)@, self.eval_size_spec(var_idx as nat), r),
            final(bk_hg)@ == folded(old(bk_hg)@, self.eval_size_spec(var_idx as nat), r),
    {
        let limit: usize = bk_eq.len();
        let eval_size: usize = self.eval_size(var_idx);
        fold_table(bk_eq, eval_size, r);
        fold_table(bk_f, eval_size, r);
        fold_table(bk_hg, eval_size, r);
    }
}

} // verus!
