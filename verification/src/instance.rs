//! The state of one prover at one layer, and what each step of the protocol does to it.

use vstd::arithmetic::power2::*;
use vstd::prelude::*;

use crate::circuit::{
    is_at_least_pow2, ChallengeView, CircuitLayer, ExpanderDualVarChallenge,
};
use crate::engine::{log2, log2_spec, FieldEngine, FieldType};
use crate::extension::{bound, broadcasts, promoted};
use crate::field::Field;
use crate::poly::{
    add_front, compute_dot, compute_value_at_two, copy_vec, dot, eq_eval_at, eq_vec, eq_vec_spec,
    eq_written, filled, fold_table, folded, front_added, pow2_usize,
};
use crate::product_gate::{
    f_folded, gates_folded, gpu_update_gate_exists, hg_folded, pair_sums, quadratic_values,
    round_source, SumcheckProductGateHelper,
};
use crate::scatter::{add_term, clear_tables, collected_table, reached_table};
use crate::simd_gate::{cubic_values, SumcheckSimdProdGateHelper};

verus! {

// ---------------------------------------------------------------------------
// Scratch pads
// ---------------------------------------------------------------------------

/// The tables a prover works on, kept from layer to layer.
pub struct ProverScratchPad<F: FieldEngine> {
    /// Wire values, folded as the challenges come in.
    pub v_evals: Vec<F::Field>,
    /// Coefficients by which the wire values are weighted.
    pub hg_evals: Vec<F::Field>,
    /// Which coefficients any gate contributes to.
    pub gate_exists: Vec<bool>,
    pub eq_evals_at_rx: Vec<F::ChallengeField>,
    pub eq_evals_at_rz0: Vec<F::ChallengeField>,
    pub eq_evals_at_r_simd0: Vec<F::ChallengeField>,
    pub eq_evals_at_r_mpi0: Vec<F::ChallengeField>,
    pub simd_var_v_evals: Vec<F::ChallengeField>,
    pub simd_var_hg_evals: Vec<F::ChallengeField>,
    pub mpi_var_v_evals: Vec<F::ChallengeField>,
    pub mpi_var_hg_evals: Vec<F::ChallengeField>,
    pub phase2_coef: F::ChallengeField,
}

/// The mathematical form of a scratch pad.
#[verifier::ext_equal]
pub struct PadView<T, E> {
    pub v_evals: Seq<T>,
    pub hg_evals: Seq<T>,
    pub gate_exists: Seq<bool>,
    pub eq_rx: Seq<E>,
    pub eq_rz0: Seq<E>,
    pub eq_simd: Seq<E>,
    pub eq_mpi: Seq<E>,
    pub simd_v: Seq<E>,
    pub simd_hg: Seq<E>,
    pub mpi_v: Seq<E>,
    pub mpi_hg: Seq<E>,
    pub phase2_coef: E,
}

impl<F: FieldEngine> View for ProverScratchPad<F> {
    type V = PadView<F::Field, F::ChallengeField>;

    open spec fn view(&self) -> PadView<F::Field, F::ChallengeField> {
        PadView {
            v_evals: self.v_evals@,
            hg_evals: self.hg_evals@,
            gate_exists: self.gate_exists@,
            eq_rx: self.eq_evals_at_rx@,
            eq_rz0: self.eq_evals_at_rz0@,
            eq_simd: self.eq_evals_at_r_simd0@,
            eq_mpi: self.eq_evals_at_r_mpi0@,
            simd_v: self.simd_var_v_evals@,
            simd_hg: self.simd_var_hg_evals@,
            mpi_v: self.mpi_var_v_evals@,
            mpi_hg: self.mpi_var_hg_evals@,
            phase2_coef: self.phase2_coef,
        }
    }
}

impl<T, E> PadView<T, E> {
    /// The tables have room for layers of these sizes.
    pub open spec fn holds(self, inputs: nat, outputs: nat, lanes: nat, world: nat) -> bool {
        &&& inputs <= self.v_evals.len()
        &&& inputs <= self.hg_evals.len()
        &&& inputs <= self.gate_exists.len()
        &&& inputs <= self.eq_rx.len()
        &&& outputs <= self.eq_rx.len()
        &&& outputs <= self.eq_rz0.len()
        &&& lanes <= self.eq_simd.len()
        &&& lanes <= self.simd_v.len()
        &&& lanes <= self.simd_hg.len()
        &&& world <= self.eq_mpi.len()
        &&& world <= self.mpi_v.len()
        &&& world <= self.mpi_hg.len()
    }
}

impl<F: FieldEngine> ProverScratchPad<F> {
    /// Zeroed tables for layers of up to the given numbers of input and output variables.
    pub fn new(max_num_input_var: usize, max_num_output_var: usize, mpi_world_size: usize) -> (r:
        Self)
        requires
            pow2(max_num_input_var as nat) <= usize::MAX,
            pow2(max_num_output_var as nat) <= usize::MAX,
        ensures
            ({
                let zero = F::Field::zero_spec();
                let e_zero = F::ChallengeField::zero_spec();
                let inputs = pow2(max_num_input_var as nat);
                let outputs = pow2(max_num_output_var as nat);
                let either = if inputs < outputs {
                    outputs
                } else {
                    inputs
                };
                let lanes = F::pack_size_spec() as nat;
                let world = mpi_world_size as nat;
                r@ == PadView {
                    v_evals: Seq::new(inputs, |i: int| zero),
                    hg_evals: Seq::new(inputs, |i: int| zero),
                    gate_exists: Seq::new(inputs, |i: int| false),
                    eq_rx: Seq::new(either, |i: int| e_zero),
                    eq_rz0: Seq::new(outputs, |i: int| e_zero),
                    eq_simd: Seq::new(lanes, |i: int| e_zero),
                    eq_mpi: Seq::new(world, |i: int| e_zero),
                    simd_v: Seq::new(lanes, |i: int| e_zero),
                    simd_hg: Seq::new(lanes, |i: int| e_zero),
                    mpi_v: Seq::new(world, |i: int| e_zero),
                    mpi_hg: Seq::new(world, |i: int| e_zero),
                    phase2_coef: e_zero,
                }
            }),
            r@.holds(
                pow2(max_num_input_var as nat),
                pow2(max_num_output_var as nat),
                F::pack_size_spec() as nat,
                mpi_world_size as nat,
            ),
    {
        let inputs: usize = pow2_usize(max_num_input_var);
        let outputs: usize = pow2_usize(max_num_output_var);
        let either: usize = if inputs < outputs {
            outputs
        } else {
            inputs
        };
        let lanes: usize = F::get_field_pack_size();
        let zero = F::Field::zero();
        let e_zero = F::ChallengeField::zero();
        ProverScratchPad {
            v_evals: filled(zero, inputs),
            hg_evals: filled(zero, inputs),
            gate_exists: filled(false, inputs),
            eq_evals_at_rx: filled(e_zero, either),
            eq_evals_at_rz0: filled(e_zero, outputs),
            eq_evals_at_r_simd0: filled(e_zero, lanes),
            eq_evals_at_r_mpi0: filled(e_zero, mpi_world_size),
            simd_var_v_evals: filled(e_zero, lanes),
            simd_var_hg_evals: filled(e_zero, lanes),
            mpi_var_v_evals: filled(e_zero, mpi_world_size),
            mpi_var_hg_evals: filled(e_zero, mpi_world_size),
            phase2_coef: e_zero,
        }
    }
}

impl<F: FieldEngine> ProverScratchPad<F> {
    /// Checks that the tables have room for layers of these numbers of input and output variables,
    /// `e` being the exponent of the number of processes.
    pub fn has_room(&self, input_var_num: usize, output_var_num: usize, e: usize) -> (r: bool)
        ensures
            r == self@.holds(
                pow2(input_var_num as nat),
                pow2(output_var_num as nat),
                F::pack_size_spec() as nat,
                pow2(e as nat),
            ),
    {
        let lanes: usize = F::get_field_pack_size();
        is_at_least_pow2(self.v_evals.len(), input_var_num) && is_at_least_pow2(
            self.hg_evals.len(),
            input_var_num,
        ) && is_at_least_pow2(self.gate_exists.len(), input_var_num) && is_at_least_pow2(
            self.eq_evals_at_rx.len(),
            input_var_num,
        ) && is_at_least_pow2(self.eq_evals_at_rx.len(), output_var_num) && is_at_least_pow2(
            self.eq_evals_at_rz0.len(),
            output_var_num,
        ) && lanes <= self.eq_evals_at_r_simd0.len() && lanes <= self.simd_var_v_evals.len() && lanes
            <= self.simd_var_hg_evals.len() && is_at_least_pow2(
            self.eq_evals_at_r_mpi0.len(),
            e,
        ) && is_at_least_pow2(self.mpi_var_v_evals.len(), e) && is_at_least_pow2(
            self.mpi_var_hg_evals.len(),
            e,
        )
    }
}

// ---------------------------------------------------------------------------
// Lanes and words
// ---------------------------------------------------------------------------

/// The lanes of a table element, weighted and added up.
pub open spec fn lanes_combined<F: FieldEngine>(
    p: F::Field,
    coefs: Seq<F::ChallengeField>,
) -> F::ChallengeField {
    dot(F::unpack_spec(p), coefs, F::pack_size_spec() as nat)
}

/// Adds up the lanes of a table element, weighted by `coefs`.
pub fn unpack_and_combine<F: FieldEngine>(
    p: F::Field,
    coefs: &Vec<F::ChallengeField>,
) -> (r: F::ChallengeField)
    requires
        F::pack_size_spec() <= coefs@.len(),
    ensures
        r == lanes_combined::<F>(p, coefs@),
{
    let lanes: Vec<F::ChallengeField> = F::unpack(p);
    proof {
        F::law_pack_size();
        F::law_unpack(p, p, coefs@[0], 0);
    }
    compute_dot(&lanes, coefs)
}

/// The words of one component of a GPU evaluation, limb-major.
pub open spec fn component_words(lanes: [[u32; 9]; 16], pack_size: nat, component: int) -> Seq<
    u32,
> {
    Seq::new(
        3 * pack_size,
        |w: int| lanes@[w % (pack_size as int)]@[component * 3 + w / (pack_size as int)],
    )
}

/// The raw sums that the words of a GPU evaluation stand for.
pub open spec fn packed_sums<F: FieldEngine>(lanes: [[u32; 9]; 16]) -> (
    F::Field,
    F::Field,
    F::Field,
) {
    let pack = F::pack_size_spec() as nat;
    (
        F::field_of_words(component_words(lanes, pack, 0)),
        F::field_of_words(component_words(lanes, pack, 1)),
        F::field_of_words(component_words(lanes, pack, 2)),
    )
}

/// Packs the per-lane results of a GPU evaluation into table elements.
pub fn gpu_pack_poly_eval_results<F: FieldEngine>(
    per_lane: &[[u32; 9]; 16],
    pack_size: usize,
) -> (r: [F::Field; 3])
    requires
        F::field_type_spec() == FieldType::M31x16,
        pack_size == F::pack_size_spec(),
    ensures
        (r@[0], r@[1], r@[2]) == packed_sums::<F>(*per_lane),
{
    proof {
        F::law_pack_size();
    }
    let mut result: [F::Field; 3] = [F::Field::zero();3];
    for component in 0..3usize
        invariant
            F::field_type_spec() == FieldType::M31x16,
            pack_size == F::pack_size_spec(),
            pack_size == 16,
            forall|c: int|
                0 <= c < component ==> #[trigger] result@[c] == F::field_of_words(
                    component_words(*per_lane, pack_size as nat, c),
                ),
    {
        let mut words: Vec<u32> = Vec::new();
        let ghost want = component_words(*per_lane, pack_size as nat, component as int);
        for w in 0..48usize
            invariant
                pack_size == 16,
                component < 3,
                want == component_words(*per_lane, pack_size as nat, component as int),
                words@ == want.take(w as int),
        {
            let row: [u32; 9] = per_lane[w % 16];
            words.push(row[component * 3 + w / 16]);
            assert(want.take(w + 1) == want.take(w as int).push(want[w as int]));
        }
        assert(want.take(48) == want);
        assert(want.subrange(0, 48) == want);
        result[component] = F::field_from_words(&words, 0);
    }
    result
}

/// The words of the first `n` elements of a table.
pub open spec fn table_words<F: FieldEngine>(table: Seq<F::Field>, n: nat) -> Seq<u32>
    decreases n,
{
    if n == 0 {
        Seq::empty()
    } else {
        table_words::<F>(table, (n - 1) as nat) + F::field_words(table[n - 1])
    }
}

/// The words of the first `n` wire values.
pub open spec fn wire_words<F: FieldEngine>(vals: Seq<F::SimdCircuitField>, n: nat) -> Seq<u32>
    decreases n,
{
    if n == 0 {
        Seq::empty()
    } else {
        wire_words::<F>(vals, (n - 1) as nat) + F::simd_words(vals[n - 1])
    }
}

/// How many words those are.
pub proof fn lemma_word_counts<F: FieldEngine>(
    table: Seq<F::Field>,
    vals: Seq<F::SimdCircuitField>,
    n: nat,
)
    requires
        F::field_type_spec() == FieldType::M31x16,
    ensures
        table_words::<F>(table, n).len() == 48 * n,
        wire_words::<F>(vals, n).len() == 16 * n,
    decreases n,
{
    if n > 0 {
        lemma_word_counts::<F>(table, vals, (n - 1) as nat);
        F::law_pack_size();
        F::law_words(table[n - 1], vals[n - 1], F::ChallengeField::zero_spec());
    }
}

/// The table `before` once its first `n` elements have been read from words.
pub open spec fn table_of_words<F: FieldEngine>(
    before: Seq<F::Field>,
    words: Seq<u32>,
    n: nat,
) -> Seq<F::Field> {
    let per = 3 * F::pack_size_spec();
    Seq::new(
        before.len(),
        |k: int|
            if k < n {
                F::field_of_words(words.subrange(k * per, k * per + per))
            } else {
                before[k]
            },
    )
}

/// The table `before` with its first entries replaced by those of `front`.
pub open spec fn with_front<E>(before: Seq<E>, front: Seq<E>) -> Seq<E> {
    Seq::new(
        before.len(),
        |k: int|
            if k < front.len() {
                front[k]
            } else {
                before[k]
            },
    )
}

/// Binds the first `k` of the `n` variables of a table in place.
fn bind_table<F: FieldEngine>(
    table: &mut Vec<F::Field>,
    rs: &Vec<F::ChallengeField>,
    n: usize,
    k: usize,
)
    requires
        k <= n,
        k <= rs@.len(),
        pow2(n as nat) <= old(table)@.len(),
    ensures
        final(table)@ == bound(old(table)@, broadcasts::<F>(rs@), n as nat, k as nat),
        final(table)@.len() == old(table)@.len(),
{
    let ghost start = table@;
    let limit: usize = table.len();
    for j in 0..k
        invariant
            k <= n,
            k <= rs@.len(),
            limit == start.len(),
            pow2(n as nat) <= limit,
            table@.len() == start.len(),
            table@ == bound(start, broadcasts::<F>(rs@), n as nat, j as nat),
    {
        proof {
            lemma_pow2_unfold((n - j) as nat);
            if j > 0 {
                lemma_pow2_strictly_increases((n - j) as nat, n as nat);
            }
        }
        fold_table(table, pow2_usize(n - j - 1), F::broadcast(rs[j]));
    }
}

/// Writes promoted wire values to the front of a table.
fn write_promoted<F: FieldEngine>(table: &mut Vec<F::Field>, vals: &Vec<F::SimdCircuitField>)
    requires
        vals@.len() <= old(table)@.len(),
    ensures
        final(table)@ == with_front(old(table)@, promoted::<F>(vals@)),
{
    let ghost start = table@;
    for k in 0..vals.len()
        invariant
            vals@.len() <= start.len(),
            table@.len() == start.len(),
            forall|i: int| 0 <= i < k ==> #[trigger] table@[i] == F::promote_spec(vals@[i]),
            forall|i: int| k <= i < start.len() ==> #[trigger] table@[i] == start[i],
    {
        table[k] = F::promote(vals[k]);
    }
    assert(table@ =~= with_front(start, promoted::<F>(vals@)));
}

/// Reads the first `n` elements of a table from words.
fn read_table<F: FieldEngine>(table: &mut Vec<F::Field>, words: &Vec<u32>, n: usize)
    requires
        F::field_type_spec() == FieldType::M31x16,
        n <= old(table)@.len(),
        words@.len() == n * 3 * F::pack_size_spec(),
    ensures
        final(table)@ == table_of_words::<F>(old(table)@, words@, n as nat),
{
    let ghost start = table@;
    proof {
        F::law_pack_size();
    }
    let len: usize = words.len();
    for k in 0..n
        invariant
            F::field_type_spec() == FieldType::M31x16,
            F::pack_size_spec() == 16,
            n <= start.len(),
            len == words@.len(),
            len == n * 48,
            table@.len() == start.len(),
            forall|i: int|
                0 <= i < k ==> #[trigger] table@[i] == F::field_of_words(
                    words@.subrange(i * 48, i * 48 + 48),
                ),
            forall|i: int| k <= i < start.len() ==> #[trigger] table@[i] == start[i],
    {
        table[k] = F::field_from_words(words, k * 48);
    }
    assert(table@ =~= table_of_words::<F>(start, words@, n as nat));
}

// ---------------------------------------------------------------------------
// Instances
// ---------------------------------------------------------------------------

/// The mathematical form of an instance.
#[verifier::ext_equal]
pub struct InstView<F: FieldEngine> {
    pub layer: CircuitLayer<F>,
    pub challenge: ChallengeView<F::ChallengeField>,
    pub alpha: Option<F::ChallengeField>,
    pub is_output_layer: bool,
    pub mpi_var_num: nat,
    pub pad: PadView<F::Field, F::ChallengeField>,
    pub rx: Seq<F::ChallengeField>,
    pub ry: Seq<F::ChallengeField>,
    pub r_simd_var: Seq<F::ChallengeField>,
    pub r_mpi_var: Seq<F::ChallengeField>,
}

/// What is given at the start of a layer fits together: the claim has the dimensions of the
/// layer's outputs, there is a combination coefficient exactly when there are two claims, and
/// the scratch pad is large enough.
pub open spec fn parts_fit<F: FieldEngine>(
    layer: CircuitLayer<F>,
    challenge: ChallengeView<F::ChallengeField>,
    alpha: Option<F::ChallengeField>,
    pad: PadView<F::Field, F::ChallengeField>,
    mpi_var_num: nat,
) -> bool {
    &&& layer.wf()
    &&& challenge.rz_0.len() == layer.output_var_num
    &&& challenge.rz_1 is Some ==> challenge.rz_1->0.len() == layer.output_var_num
    &&& challenge.r_simd.len() == log2_spec(F::pack_size_spec())
    &&& challenge.r_mpi.len() == mpi_var_num
    &&& challenge.rz_1 is None <==> alpha is None
    &&& pad.holds(
        pow2(layer.input_var_num as nat),
        pow2(layer.output_var_num as nat),
        F::pack_size_spec() as nat,
        pow2(mpi_var_num),
    )
}

/// Checks that what is given at the start of a layer fits together.
pub fn check_parts_fit<F: FieldEngine>(
    layer: &CircuitLayer<F>,
    challenge: &ExpanderDualVarChallenge<F>,
    alpha: &Option<F::ChallengeField>,
    pad: &ProverScratchPad<F>,
    world_size: usize,
) -> (r: bool)
    ensures
        r == parts_fit(*layer, challenge@, *alpha, pad@, log2_spec(world_size)),
{
    let e: usize = log2(world_size);
    let second_fits: bool = match &challenge.rz_1 {
        Some(rz) => rz.len() == layer.output_var_num,
        None => true,
    };
    layer.is_well_formed() && challenge.rz_0.len() == layer.output_var_num && second_fits
        && challenge.r_simd.len() == log2(F::get_field_pack_size()) && challenge.r_mpi.len() == e
        && challenge.rz_1.is_none() == alpha.is_none() && pad.has_room(
        layer.input_var_num,
        layer.output_var_num,
        e,
    )
}

impl<F: FieldEngine> InstView<F> {
    pub open spec fn wf(self) -> bool {
        parts_fit(self.layer, self.challenge, self.alpha, self.pad, self.mpi_var_num)
    }

    pub open spec fn input_var_num(self) -> nat {
        self.layer.input_var_num as nat
    }

    pub open spec fn simd_var_num(self) -> nat {
        log2_spec(F::pack_size_spec())
    }

    /// The number of pairs round `var_idx` over the wire variables works on.
    pub open spec fn eval_size(self, var_idx: nat) -> nat {
        pow2((self.input_var_num() - var_idx - 1) as nat)
    }

    /// An instance at the start of a layer.
    pub open spec fn at_start(
        layer: CircuitLayer<F>,
        challenge: ChallengeView<F::ChallengeField>,
        alpha: Option<F::ChallengeField>,
        pad: PadView<F::Field, F::ChallengeField>,
        mpi_var_num: nat,
        is_output_layer: bool,
    ) -> Self {
        InstView {
            layer,
            challenge,
            alpha,
            is_output_layer,
            mpi_var_num,
            pad,
            rx: Seq::empty(),
            ry: Seq::empty(),
            r_simd_var: Seq::empty(),
            r_mpi_var: Seq::empty(),
        }
    }

    // -- preparing the first phase

    /// With one claim to prove, the tables over the lane and process variables are made anew;
    /// with two they are those that the layer before has left.
    pub open spec fn simd_prepared(self) -> Self {
        if self.is_output_layer || self.alpha is None {
            InstView {
                pad: PadView {
                    eq_simd: eq_written(
                        self.pad.eq_simd,
                        self.challenge.r_simd,
                        F::ChallengeField::one_spec(),
                    ),
                    ..self.pad
                },
                ..self
            }
        } else {
            self
        }
    }

    pub open spec fn mpi_prepared(self) -> Self {
        if self.is_output_layer || self.alpha is None {
            InstView {
                pad: PadView {
                    eq_mpi: eq_written(
                        self.pad.eq_mpi,
                        self.challenge.r_mpi,
                        F::ChallengeField::one_spec(),
                    ),
                    ..self.pad
                },
                ..self
            }
        } else {
            self
        }
    }

    /// The weights of the output wires: the equality table of the one claim, or that of the
    /// second claim times `alpha` plus that of the first, which the layer before has left.
    pub open spec fn output_weights(self) -> Seq<F::ChallengeField> {
        if self.is_output_layer || self.challenge.rz_1 is None {
            eq_written(self.pad.eq_rz0, self.challenge.rz_0, F::ChallengeField::one_spec())
        } else {
            front_added(
                eq_written(self.pad.eq_rz0, self.challenge.rz_1->0, self.alpha->0),
                self.pad.eq_rx,
                pow2(self.challenge.rz_0.len()),
            )
        }
    }

    /// What each gate adds to the coefficient of its first input wire, given output weights.
    pub open spec fn x_terms(self, weights: Seq<F::ChallengeField>) -> Seq<(int, F::Field)> {
        let (mul, add) = (self.layer.mul@, self.layer.add@);
        Seq::new(
            mul.len() + add.len(),
            |k: int|
                if k < mul.len() {
                    let g = mul[k];
                    (
                        g.i_ids@[0] as int,
                        F::broadcast_spec(
                            weights[g.o_id as int].times_spec(F::embed_spec(g.coef)),
                        ).times_spec(F::promote_spec(self.layer.input_vals@[g.i_ids@[1] as int])),
                    )
                } else {
                    let g = add[k - mul.len()];
                    (
                        g.i_ids@[0] as int,
                        F::broadcast_spec(
                            weights[g.o_id as int].times_spec(F::embed_spec(g.coef)),
                        ),
                    )
                },
        )
    }

    /// Ready for the rounds over the first input wires.
    pub open spec fn x_prepared(self) -> Self {
        let weights = self.output_weights();
        let terms = self.x_terms(weights);
        let size = pow2(self.input_var_num());
        InstView {
            pad: PadView {
                eq_rz0: weights,
                hg_evals: collected_table(self.pad.hg_evals, terms, terms.len(), size),
                gate_exists: reached_table(self.pad.gate_exists, terms, terms.len(), size),
                ..self.pad
            },
            ..self
        }
    }

    // -- rounds over wire variables

    /// The round polynomial at zero, one and two, from the host's tables.
    pub open spec fn host_values(self, var_idx: nat) -> Seq<F::Field> {
        quadratic_values(
            pair_sums(
                round_source::<F>(var_idx, self.pad.v_evals, self.layer.input_vals@),
                self.pad.hg_evals,
                self.pad.gate_exists,
                self.eval_size(var_idx),
            ),
        )
    }

    /// The round polynomial at zero, one and two, from a GPU evaluation.
    pub open spec fn gpu_values(lanes: [[u32; 9]; 16]) -> Seq<F::Field> {
        quadratic_values(packed_sums::<F>(lanes))
    }

    /// Values with their lanes combined.
    pub open spec fn local(self, values: Seq<F::Field>) -> Seq<F::ChallengeField> {
        Seq::new(values.len(), |k: int| lanes_combined::<F>(values[k], self.pad.eq_simd))
    }

    /// Values of the second phase, scaled by its coefficient.
    pub open spec fn scaled(self, values: Seq<F::ChallengeField>) -> Seq<F::ChallengeField> {
        Seq::new(values.len(), |k: int| values[k].times_spec(self.pad.phase2_coef))
    }

    /// The host's tables with round `var_idx`'s variable bound to `r`.
    pub open spec fn host_folded(self, var_idx: nat, r: F::ChallengeField) -> Self {
        let size = self.eval_size(var_idx);
        let e = F::broadcast_spec(r);
        InstView {
            pad: PadView {
                v_evals: f_folded::<F>(
                    var_idx,
                    self.pad.v_evals,
                    self.layer.input_vals@,
                    size,
                    e,
                ),
                hg_evals: hg_folded(self.pad.hg_evals, self.pad.gate_exists, size, e),
                gate_exists: gates_folded(self.pad.gate_exists, size),
                ..self.pad
            },
            ..self
        }
    }

    /// The host's flags after the GPU has folded its own tables.
    pub open spec fn flags_folded(self, var_idx: nat) -> Self {
        InstView {
            pad: PadView {
                gate_exists: gates_folded(self.pad.gate_exists, self.eval_size(var_idx)),
                ..self.pad
            },
            ..self
        }
    }

    /// The challenge of a round over the first or the second input wires is noted.
    pub open spec fn noted(self, first_phase: bool, r: F::ChallengeField) -> Self {
        if first_phase {
            InstView { rx: self.rx.push(r), ..self }
        } else {
            InstView { ry: self.ry.push(r), ..self }
        }
    }

    /// The first `n` elements of a table come back from the GPU.
    pub open spec fn downloaded(self, wires: bool, words: Seq<u32>, n: nat) -> Self {
        if wires {
            InstView {
                pad: PadView {
                    v_evals: table_of_words::<F>(self.pad.v_evals, words, n),
                    ..self.pad
                },
                ..self
            }
        } else {
            InstView {
                pad: PadView {
                    hg_evals: table_of_words::<F>(self.pad.hg_evals, words, n),
                    ..self.pad
                },
                ..self
            }
        }
    }

    /// The challenges of a phase so far.
    pub open spec fn phase_challenges(self, first_phase: bool) -> Seq<F::ChallengeField> {
        if first_phase {
            self.rx
        } else {
            self.ry
        }
    }

    /// The host's tables before round `var_idx` of a phase whose rounds so far the GPU has made:
    /// the wire values, and the coefficients that the phase started from, with the phase's
    /// challenges bound.
    pub open spec fn recovered(self, first_phase: bool, var_idx: nat) -> Self {
        let n = self.input_var_num();
        let rs = broadcasts::<F>(self.phase_challenges(first_phase));
        let wires = with_front(self.pad.v_evals, promoted::<F>(self.layer.input_vals@));
        InstView {
            pad: PadView {
                v_evals: bound(wires, rs, n, var_idx),
                hg_evals: bound(self.pad.hg_evals, rs, n, var_idx),
                ..self.pad
            },
            ..self
        }
    }

    /// The tables come back from the GPU. Where a copy fails, the host makes both itself.
    pub open spec fn fetched(
        self,
        first_phase: bool,
        var_idx: nat,
        wires: Option<Seq<u32>>,
        coefs: Option<Seq<u32>>,
    ) -> Self {
        let n = 2 * self.eval_size(var_idx);
        match (wires, coefs) {
            (Some(w), Some(h)) => self.downloaded(true, w, n).downloaded(false, h, n),
            _ => self.recovered(first_phase, var_idx),
        }
    }

    /// The weights of the processes.
    pub open spec fn process_weights(self) -> Seq<F::ChallengeField> {
        self.pad.eq_mpi.take(pow2(self.mpi_var_num) as int)
    }

    // -- rounds over lane variables

    /// The lanes of what is left of the two tables become tables of their own.
    pub open spec fn simd_vars_prepared(self) -> Self {
        InstView {
            pad: PadView {
                simd_v: F::unpack_spec(self.pad.v_evals[0]),
                simd_hg: F::unpack_spec(self.pad.hg_evals[0]),
                ..self.pad
            },
            ..self
        }
    }

    pub open spec fn simd_values(self, var_idx: nat) -> Seq<F::ChallengeField> {
        cubic_values(
            self.pad.eq_simd,
            self.pad.simd_v,
            self.pad.simd_hg,
            pow2((self.simd_var_num() - var_idx - 1) as nat),
        )
    }

    pub open spec fn simd_received(self, var_idx: nat, r: F::ChallengeField) -> Self {
        let size = pow2((self.simd_var_num() - var_idx - 1) as nat);
        InstView {
            pad: PadView {
                eq_simd: folded(self.pad.eq_simd, size, r),
                simd_v: folded(self.pad.simd_v, size, r),
                simd_hg: folded(self.pad.simd_hg, size, r),
                ..self.pad
            },
            r_simd_var: self.r_simd_var.push(r),
            ..self
        }
    }

    // -- rounds over process variables

    /// This process's share of the wire table over the process variables.
    pub open spec fn v_share(self) -> F::ChallengeField {
        self.pad.simd_v[0]
    }

    /// This process's share of the coefficient table over the process variables.
    pub open spec fn hg_share(self) -> F::ChallengeField {
        self.pad.simd_hg[0].times_spec(self.pad.eq_simd[0])
    }

    /// The shares of all processes have come in.
    pub open spec fn gathered(
        self,
        v: Seq<F::ChallengeField>,
        hg: Seq<F::ChallengeField>,
    ) -> Self {
        InstView { pad: PadView { mpi_v: v, mpi_hg: hg, ..self.pad }, ..self }
    }

    pub open spec fn mpi_values(self, var_idx: nat) -> Seq<F::ChallengeField> {
        cubic_values(
            self.pad.eq_mpi,
            self.pad.mpi_v,
            self.pad.mpi_hg,
            pow2((self.mpi_var_num - var_idx - 1) as nat),
        )
    }

    pub open spec fn mpi_received(self, var_idx: nat, r: F::ChallengeField) -> Self {
        let size = pow2((self.mpi_var_num - var_idx - 1) as nat);
        InstView {
            pad: PadView {
                eq_mpi: folded(self.pad.eq_mpi, size, r),
                mpi_v: folded(self.pad.mpi_v, size, r),
                mpi_hg: folded(self.pad.mpi_hg, size, r),
                ..self.pad
            },
            r_mpi_var: self.r_mpi_var.push(r),
            ..self
        }
    }

    /// The claimed value at the first input wires' challenge.
    pub open spec fn vx(self) -> F::ChallengeField {
        self.pad.mpi_v[0]
    }

    // -- preparing the second phase

    /// What each multiplication gate adds to the coefficient of its second input wire.
    pub open spec fn y_terms(
        self,
        weights: Seq<F::ChallengeField>,
        eq_rx: Seq<F::ChallengeField>,
    ) -> Seq<(int, F::Field)> {
        let mul = self.layer.mul@;
        Seq::new(
            mul.len(),
            |k: int|
                {
                    let g = mul[k];
                    (
                        g.i_ids@[1] as int,
                        F::broadcast_spec(
                            weights[g.o_id as int].times_spec(
                                eq_rx[g.i_ids@[0] as int],
                            ).times_spec(F::embed_spec(g.coef)),
                        ),
                    )
                },
        )
    }

    /// Ready for the rounds over the second input wires; `v` is the root's value of the claim at
    /// the first.
    pub open spec fn y_prepared(self, v: F::ChallengeField) -> Self {
        let one = F::ChallengeField::one_spec();
        let eq_rx = eq_written(self.pad.eq_rx, self.rx, one);
        let terms = self.y_terms(self.pad.eq_rz0, eq_rx);
        let size = pow2(self.rx.len());
        InstView {
            pad: PadView {
                phase2_coef: eq_vec_spec(
                    self.challenge.r_mpi,
                    self.r_mpi_var,
                    self.challenge.r_mpi.len(),
                ).times_spec(self.pad.eq_simd[0]).times_spec(v),
                eq_mpi: eq_written(self.pad.eq_mpi, self.r_mpi_var, one),
                eq_rx,
                eq_simd: eq_written(self.pad.eq_simd, self.r_simd_var, one),
                hg_evals: collected_table(self.pad.hg_evals, terms, terms.len(), size),
                gate_exists: reached_table(self.pad.gate_exists, terms, terms.len(), size),
                ..self.pad
            },
            ..self
        }
    }

    /// This process's share of the claimed value at the second input wires' challenge.
    pub open spec fn vy_share(self) -> F::ChallengeField {
        lanes_combined::<F>(self.pad.v_evals[0], self.pad.eq_simd)
    }

    /// The claims that the layer leaves to the one before it.
    pub open spec fn next_challenge(self) -> ChallengeView<F::ChallengeField> {
        ChallengeView {
            rz_0: self.rx,
            rz_1: if self.layer.structure_info.skip_sumcheck_phase_two {
                None
            } else {
                Some(self.ry)
            },
            r_simd: self.r_simd_var,
            r_mpi: self.r_mpi_var,
        }
    }
}

/// One prover at one layer.
pub struct InstanceState<'a, F: FieldEngine> {
    pub rx: Vec<F::ChallengeField>,
    pub ry: Vec<F::ChallengeField>,
    pub r_simd_var: Vec<F::ChallengeField>,
    pub r_mpi_var: Vec<F::ChallengeField>,
    pub layer: &'a CircuitLayer<F>,
    pub sp: ProverScratchPad<F>,
    pub challenge: ExpanderDualVarChallenge<F>,
    pub alpha: Option<F::ChallengeField>,
    pub input_var_num: usize,
    pub simd_var_num: usize,
    pub xy_helper: SumcheckProductGateHelper,
    pub simd_var_helper: SumcheckSimdProdGateHelper,
    pub mpi_var_helper: SumcheckSimdProdGateHelper,
    pub is_output_layer: bool,
}

impl<'a, F: FieldEngine> View for InstanceState<'a, F> {
    type V = InstView<F>;

    open spec fn view(&self) -> InstView<F> {
        InstView {
            layer: *self.layer,
            challenge: self.challenge@,
            alpha: self.alpha,
            is_output_layer: self.is_output_layer,
            mpi_var_num: self.mpi_var_helper.var_num as nat,
            pad: self.sp@,
            rx: self.rx@,
            ry: self.ry@,
            r_simd_var: self.r_simd_var@,
            r_mpi_var: self.r_mpi_var@,
        }
    }
}

impl<'a, F: FieldEngine> InstanceState<'a, F> {
    pub open spec fn wf(self) -> bool {
        &&& self@.wf()
        &&& self.input_var_num == self.layer.input_var_num
        &&& self.xy_helper.var_num == self.layer.input_var_num
        &&& self.simd_var_num == log2_spec(F::pack_size_spec())
        &&& self.simd_var_helper.var_num == self.simd_var_num
    }

    /// Starts a layer. `world_size` is the number of processes.
    pub fn new(
        layer: &'a CircuitLayer<F>,
        challenge: ExpanderDualVarChallenge<F>,
        alpha: Option<F::ChallengeField>,
        sp: ProverScratchPad<F>,
        world_size: usize,
        is_output_layer: bool,
    ) -> (r: Self)
        requires
            parts_fit(*layer, challenge@, alpha, sp@, log2_spec(world_size)),
        ensures
            r.wf(),
            r@ == InstView::at_start(
                *layer,
                challenge@,
                alpha,
                sp@,
                log2_spec(world_size),
                is_output_layer,
            ),
    {
        let simd_var_num: usize = log2(F::get_field_pack_size());
        InstanceState {
            rx: Vec::new(),
            ry: Vec::new(),
            r_simd_var: Vec::new(),
            r_mpi_var: Vec::new(),
            layer,
            sp,
            challenge,
            alpha,
            input_var_num: layer.input_var_num,
            simd_var_num,
            xy_helper: SumcheckProductGateHelper::new(layer.input_var_num),
            simd_var_helper: SumcheckSimdProdGateHelper::new(simd_var_num),
            mpi_var_helper: SumcheckSimdProdGateHelper::new(log2(world_size)),
            is_output_layer,
        }
    }

    pub fn prepare_simd(&mut self)
        requires
            old(self).wf(),
        ensures
            final(self).wf(),
            final(self)@ == old(self)@.simd_prepared(),
    {
        if self.is_output_layer || self.alpha.is_none() {
            proof {
                F::law_pack_size();
            }
            eq_eval_at(
                &self.challenge.r_simd,
                F::ChallengeField::one(),
                &mut self.sp.eq_evals_at_r_simd0,
            );
        }
    }

    pub fn prepare_mpi(&mut self)
        requires
            old(self).wf(),
        ensures
            final(self).wf(),
            final(self)@ == old(self)@.mpi_prepared(),
    {
        if self.is_output_layer || self.alpha.is_none() {
            eq_eval_at(
                &self.challenge.r_mpi,
                F::ChallengeField::one(),
                &mut self.sp.eq_evals_at_r_mpi0,
            );
        }
    }

    fn write_output_weights(&mut self)
        requires
            old(self).wf(),
        ensures
            final(self).wf(),
            final(self)@ == (InstView {
                pad: PadView { eq_rz0: old(self)@.output_weights(), ..old(self)@.pad },
                ..old(self)@
            }),
    {
        let limit: usize = self.sp.eq_evals_at_rz0.len();
        if self.is_output_layer || self.challenge.rz_1.is_none() {
            eq_eval_at(
                &self.challenge.rz_0,
                F::ChallengeField::one(),
                &mut self.sp.eq_evals_at_rz0,
            );
        } else if let (Some(rz_1), Some(alpha)) = (&self.challenge.rz_1, self.alpha) {
            eq_eval_at(rz_1, alpha, &mut self.sp.eq_evals_at_rz0);
            let size: usize = pow2_usize(self.challenge.rz_0.len());
            add_front(&mut self.sp.eq_evals_at_rz0, &self.sp.eq_evals_at_rx, size);
        }
    }

    /// Fills the coefficient table and its flags for the rounds over the first input wires.
    pub fn prepare_x_vals(&mut self)
        requires
            old(self).wf(),
        ensures
            final(self).wf(),
            final(self)@ == old(self)@.x_prepared(),
    {
        self.write_output_weights();
        scatter_x(
            self.layer,
            &self.sp.eq_evals_at_rz0,
            &mut self.sp.hg_evals,
            &mut self.sp.gate_exists,
            Ghost(old(self)@),
        );
    }

    /// Fills the tables for the rounds over the second input wires.
    pub fn prepare_y_vals(&mut self, v_rx_rsimd_rw: F::ChallengeField)
        requires
            old(self).wf(),
            old(self)@.rx.len() == old(self)@.input_var_num(),
            old(self)@.r_simd_var.len() == old(self)@.simd_var_num(),
            old(self)@.r_mpi_var.len() == old(self)@.mpi_var_num,
        ensures
            final(self).wf(),
            final(self)@ == old(self)@.y_prepared(v_rx_rsimd_rw),
    {
        let one = F::ChallengeField::one();
        proof {
            F::law_pack_size();
        }
        self.sp.phase2_coef = eq_vec(&self.challenge.r_mpi, &self.r_mpi_var).times(
            self.sp.eq_evals_at_r_simd0[0],
        ).times(v_rx_rsimd_rw);
        eq_eval_at(&self.r_mpi_var, one, &mut self.sp.eq_evals_at_r_mpi0);
        eq_eval_at(&self.rx, one, &mut self.sp.eq_evals_at_rx);
        eq_eval_at(&self.r_simd_var, one, &mut self.sp.eq_evals_at_r_simd0);
        scatter_y(
            self.layer,
            &self.sp.eq_evals_at_rz0,
            &self.sp.eq_evals_at_rx,
            &mut self.sp.hg_evals,
            &mut self.sp.gate_exists,
            Ghost(old(self)@),
        );
    }
}

/// Collects what the gates add to the coefficients of their first input wires.
fn scatter_x<F: FieldEngine>(
    layer: &CircuitLayer<F>,
    weights: &Vec<F::ChallengeField>,
    hg: &mut Vec<F::Field>,
    flags: &mut Vec<bool>,
    Ghost(inst): Ghost<InstView<F>>,
)
    requires
        inst.layer == *layer,
        layer.wf(),
        pow2(layer.output_var_num as nat) <= weights@.len(),
        pow2(layer.input_var_num as nat) <= old(hg)@.len(),
        pow2(layer.input_var_num as nat) <= old(flags)@.len(),
    ensures
        ({
            let terms = inst.x_terms(weights@);
            let size = pow2(layer.input_var_num as nat);
            &&& final(hg)@ == collected_table(old(hg)@, terms, terms.len(), size)
            &&& final(flags)@ == reached_table(old(flags)@, terms, terms.len(), size)
        }),
{
    let ghost before = (hg@, flags@);
    let ghost terms = inst.x_terms(weights@);
    let ghost size = pow2(layer.input_var_num as nat);
    clear_tables(hg, flags, layer.input_vals.len(), Ghost(terms));
    let muls: usize = layer.mul.len();
    for k in 0..muls
        invariant
            inst.layer == *layer,
            layer.wf(),
            muls == layer.mul@.len(),
            size == pow2(layer.input_var_num as nat),
            pow2(layer.output_var_num as nat) <= weights@.len(),
            size <= before.0.len(),
            size <= before.1.len(),
            terms == inst.x_terms(weights@),
            hg@ == collected_table(before.0, terms, k as nat, size),
            flags@ == reached_table(before.1, terms, k as nat, size),
    {
        let g = &layer.mul[k];
        let r = weights[g.o_id].times(F::embed(g.coef));
        let value = F::broadcast(r).times(F::promote(layer.input_vals[g.i_ids[1]]));
        add_term(
            hg,
            flags,
            g.i_ids[0],
            value,
            Ghost(before),
            Ghost(terms),
            Ghost(k as nat),
            Ghost(size),
        );
    }
    for k in 0..layer.add.len()
        invariant
            inst.layer == *layer,
            layer.wf(),
            muls == layer.mul@.len(),
            size == pow2(layer.input_var_num as nat),
            pow2(layer.output_var_num as nat) <= weights@.len(),
            size <= before.0.len(),
            size <= before.1.len(),
            terms == inst.x_terms(weights@),
            hg@ == collected_table(before.0, terms, (muls + k) as nat, size),
            flags@ == reached_table(before.1, terms, (muls + k) as nat, size),
    {
        let g = &layer.add[k];
        let value = F::broadcast(weights[g.o_id].times(F::embed(g.coef)));
        add_term(
            hg,
            flags,
            g.i_ids[0],
            value,
            Ghost(before),
            Ghost(terms),
            Ghost((muls + k) as nat),
            Ghost(size),
        );
    }
}

/// Collects what the multiplication gates add to the coefficients of their second input wires.
fn scatter_y<F: FieldEngine>(
    layer: &CircuitLayer<F>,
    weights: &Vec<F::ChallengeField>,
    eq_rx: &Vec<F::ChallengeField>,
    hg: &mut Vec<F::Field>,
    flags: &mut Vec<bool>,
    Ghost(inst): Ghost<InstView<F>>,
)
    requires
        inst.layer == *layer,
        layer.wf(),
        pow2(layer.output_var_num as nat) <= weights@.len(),
        pow2(layer.input_var_num as nat) <= eq_rx@.len(),
        pow2(layer.input_var_num as nat) <= old(hg)@.len(),
        pow2(layer.input_var_num as nat) <= old(flags)@.len(),
    ensures
        ({
            let terms = inst.y_terms(weights@, eq_rx@);
            let size = pow2(layer.input_var_num as nat);
            &&& final(hg)@ == collected_table(old(hg)@, terms, terms.len(), size)
            &&& final(flags)@ == reached_table(old(flags)@, terms, terms.len(), size)
        }),
{
    let ghost before = (hg@, flags@);
    let ghost terms = inst.y_terms(weights@, eq_rx@);
    let ghost size = pow2(layer.input_var_num as nat);
    clear_tables(hg, flags, layer.input_vals.len(), Ghost(terms));
    for k in 0..layer.mul.len()
        invariant
            inst.layer == *layer,
            layer.wf(),
            size == pow2(layer.input_var_num as nat),
            pow2(layer.output_var_num as nat) <= weights@.len(),
            size <= eq_rx@.len(),
            size <= before.0.len(),
            size <= before.1.len(),
            terms == inst.y_terms(weights@, eq_rx@),
            hg@ == collected_table(before.0, terms, k as nat, size),
            flags@ == reached_table(before.1, terms, k as nat, size),
    {
        let g = &layer.mul[k];
        let value = F::broadcast(
            weights[g.o_id].times(eq_rx[g.i_ids[0]]).times(F::embed(g.coef)),
        );
        add_term(
            hg,
            flags,
            g.i_ids[1],
            value,
            Ghost(before),
            Ghost(terms),
            Ghost(k as nat),
            Ghost(size),
        );
    }
}

impl<'a, F: FieldEngine> InstanceState<'a, F> {
    fn combine_lanes(&self, values: &[F::Field; 3]) -> (r: Vec<F::ChallengeField>)
        requires
            self.wf(),
        ensures
            r@ == self@.local(values@),
    {
        let mut r: Vec<F::ChallengeField> = Vec::new();
        for k in 0..3usize
            invariant
                self.wf(),
                r@ == self@.local(values@).take(k as int),
        {
            r.push(unpack_and_combine::<F>(values[k], &self.sp.eq_evals_at_r_simd0));
            assert(self@.local(values@).take(k + 1) == self@.local(values@).take(k as int).push(
                self@.local(values@)[k as int],
            ));
        }
        assert(self@.local(values@).take(3) == self@.local(values@));
        r
    }

    /// This process's share of the round polynomial's values, from the host's tables.
    pub fn local_evals(&self, var_idx: usize, degree: usize) -> (r: Vec<F::ChallengeField>)
        requires
            self.wf(),
            degree == 2,
            var_idx < self.input_var_num,
        ensures
            r@ == self@.local(self@.host_values(var_idx as nat)),
            r@.len() == 3,
    {
        let values = self.xy_helper.poly_eval_at::<F>(
            var_idx,
            degree,
            &self.sp.v_evals,
            &self.sp.hg_evals,
            &self.layer.input_vals,
            &self.sp.gate_exists,
        );
        self.combine_lanes(&values)
    }

    /// This process's share of the round polynomial's values in a phase whose rounds so far the
    /// GPU has made, from tables that are made for this round alone.
    pub fn spare_evals(&self, first_phase: bool, var_idx: usize, degree: usize) -> (r: Vec<
        F::ChallengeField,
    >)
        requires
            self.wf(),
            degree == 2,
            var_idx < self.input_var_num,
            var_idx <= self@.phase_challenges(first_phase).len(),
        ensures
            ({
                let host = self@.recovered(first_phase, var_idx as nat);
                r@ == host.local(host.host_values(var_idx as nat))
            }),
            r@.len() == 3,
    {
        let rs = if first_phase {
            &self.rx
        } else {
            &self.ry
        };
        let n: usize = self.input_var_num;
        let mut wires = copy_vec(&self.sp.v_evals);
        let mut coefs = copy_vec(&self.sp.hg_evals);
        write_promoted::<F>(&mut wires, &self.layer.input_vals);
        bind_table::<F>(&mut wires, rs, n, var_idx);
        bind_table::<F>(&mut coefs, rs, n, var_idx);
        let values = self.xy_helper.poly_eval_at::<F>(
            var_idx,
            degree,
            &wires,
            &coefs,
            &self.layer.input_vals,
            &self.sp.gate_exists,
        );
        self.combine_lanes(&values)
    }

    /// This process's share of the round polynomial's values, from a GPU evaluation.
    pub fn local_evals_from_gpu(&self, per_lane: &[[u32; 9]; 16]) -> (r: Vec<F::ChallengeField>)
        requires
            self.wf(),
            F::field_type_spec() == FieldType::M31x16,
        ensures
            r@ == self@.local(InstView::<F>::gpu_values(*per_lane)),
            r@.len() == 3,
    {
        let sums = gpu_pack_poly_eval_results::<F>(per_lane, F::get_field_pack_size());
        let values = [sums[0], sums[1], compute_value_at_two(sums[0], sums[1], sums[2])];
        assert(values@ == InstView::<F>::gpu_values(*per_lane));
        self.combine_lanes(&values)
    }

    /// Scales values of the second phase by its coefficient.
    pub fn scale(&self, values: &Vec<F::ChallengeField>) -> (r: Vec<F::ChallengeField>)
        ensures
            r@ == self@.scaled(values@),
    {
        let mut r: Vec<F::ChallengeField> = Vec::new();
        for k in 0..values.len()
            invariant
                r@ == self@.scaled(values@).take(k as int),
        {
            r.push(values[k].times(self.sp.phase2_coef));
            assert(self@.scaled(values@).take(k + 1) == self@.scaled(values@).take(k as int).push(
                self@.scaled(values@)[k as int],
            ));
        }
        assert(self@.scaled(values@).take(values@.len() as int) == self@.scaled(values@));
        r
    }

    /// Binds a wire variable in the host's tables and notes the challenge.
    pub fn receive_on_host(&mut self, first_phase: bool, var_idx: usize, r: F::ChallengeField)
        requires
            old(self).wf(),
            var_idx < old(self).input_var_num,
        ensures
            final(self).wf(),
            final(self)@ == old(self)@.host_folded(var_idx as nat, r).noted(first_phase, r),
    {
        self.xy_helper.receive_challenge::<F>(
            var_idx,
            r,
            &mut self.sp.v_evals,
            &mut self.sp.hg_evals,
            &self.layer.input_vals,
            &mut self.sp.gate_exists,
        );
        self.note(first_phase, r);
    }

    /// Follows a fold that the GPU has made: the host keeps the flags, and notes the challenge.
    pub fn receive_on_gpu(&mut self, first_phase: bool, var_idx: usize, r: F::ChallengeField)
        requires
            old(self).wf(),
            var_idx < old(self).input_var_num,
        ensures
            final(self).wf(),
            final(self)@ == old(self)@.flags_folded(var_idx as nat).noted(first_phase, r),
    {
        let limit: usize = self.sp.gate_exists.len();
        let eval_size: usize = self.xy_helper.eval_size(var_idx);
        gpu_update_gate_exists(&mut self.sp.gate_exists, eval_size);
        self.note(first_phase, r);
    }

    fn note(&mut self, first_phase: bool, r: F::ChallengeField)
        ensures
            old(self).wf() ==> final(self).wf(),
            final(self)@ == old(self)@.noted(first_phase, r),
    {
        if first_phase {
            self.rx.push(r);
        } else {
            self.ry.push(r);
        }
    }

    /// Makes the host's tables before round `var_idx` of a phase whose rounds so far the GPU has
    /// made.
    pub fn recover(&mut self, first_phase: bool, var_idx: usize)
        requires
            old(self).wf(),
            var_idx <= old(self).input_var_num,
            var_idx <= old(self)@.phase_challenges(first_phase).len(),
        ensures
            final(self).wf(),
            final(self)@ == old(self)@.recovered(first_phase, var_idx as nat),
    {
        let rs = if first_phase {
            &self.rx
        } else {
            &self.ry
        };
        let n: usize = self.input_var_num;
        write_promoted::<F>(&mut self.sp.v_evals, &self.layer.input_vals);
        bind_table::<F>(&mut self.sp.v_evals, rs, n, var_idx);
        bind_table::<F>(&mut self.sp.hg_evals, rs, n, var_idx);
    }

    /// The weights of the processes.
    pub fn mpi_coefs(&self) -> (r: Vec<F::ChallengeField>)
        requires
            self.wf(),
        ensures
            r@ == self@.process_weights(),
    {
        let limit: usize = self.sp.eq_evals_at_r_mpi0.len();
        let world: usize = pow2_usize(self.mpi_var_helper.var_num);
        let mut r: Vec<F::ChallengeField> = Vec::new();
        for k in 0..world
            invariant
                self.wf(),
                world == pow2(self@.mpi_var_num),
                r@ == self@.pad.eq_mpi.take(k as int),
        {
            r.push(self.sp.eq_evals_at_r_mpi0[k]);
            assert(r@ =~= self@.pad.eq_mpi.take(k + 1));
        }
        r
    }

    /// Takes the first `n` elements of a table back from the GPU.
    pub fn take_download(&mut self, wires: bool, words: &Vec<u32>, n: usize)
        requires
            old(self).wf(),
            F::field_type_spec() == FieldType::M31x16,
            n <= pow2(old(self)@.input_var_num()),
            words@.len() == n * 3 * F::pack_size_spec(),
        ensures
            final(self).wf(),
            final(self)@ == old(self)@.downloaded(wires, words@, n as nat),
    {
        if wires {
            read_table::<F>(&mut self.sp.v_evals, words, n);
        } else {
            read_table::<F>(&mut self.sp.hg_evals, words, n);
        }
    }

    /// The words of the coefficient table and of the wire values, for the GPU.
    pub fn words(&self) -> (r: (Vec<u32>, Vec<u32>))
        requires
            self.wf(),
            F::field_type_spec() == FieldType::M31x16,
        ensures
            r.0@ == table_words::<F>(self@.pad.hg_evals, pow2(self@.input_var_num())),
            r.1@ == wire_words::<F>(self@.layer.input_vals@, pow2(self@.input_var_num())),
    {
        let n: usize = self.layer.input_vals.len();
        let mut hg: Vec<u32> = Vec::new();
        let mut wires: Vec<u32> = Vec::new();
        for k in 0..n
            invariant
                self.wf(),
                F::field_type_spec() == FieldType::M31x16,
                n == self.layer.input_vals@.len(),
                n <= self.sp.hg_evals@.len(),
                hg@ == table_words::<F>(self.sp.hg_evals@, k as nat),
                wires@ == wire_words::<F>(self.layer.input_vals@, k as nat),
        {
            F::push_field_words(self.sp.hg_evals[k], &mut hg);
            F::push_simd_words(self.layer.input_vals[k], &mut wires);
        }
        (hg, wires)
    }

    /// Makes tables of the lanes.
    pub fn prepare_simd_var_vals(&mut self)
        requires
            old(self).wf(),
        ensures
            final(self).wf(),
            final(self)@ == old(self)@.simd_vars_prepared(),
    {
        proof {
            F::law_pack_size();
            let x = self.sp.v_evals@[0];
            let y = self.sp.hg_evals@[0];
            let c = F::ChallengeField::zero_spec();
            F::law_unpack(x, y, c, 0);
            F::law_unpack(y, x, c, 0);
            lemma_pow2_pos(self@.input_var_num());
        }
        self.sp.simd_var_v_evals = F::unpack(self.sp.v_evals[0]);
        self.sp.simd_var_hg_evals = F::unpack(self.sp.hg_evals[0]);
    }

    /// This process's share of a round over the lane variables.
    pub fn local_simd_evals(&self, var_idx: usize, degree: usize) -> (r: Vec<F::ChallengeField>)
        requires
            self.wf(),
            degree == 3,
            var_idx < self.simd_var_num,
        ensures
            r@ == self@.simd_values(var_idx as nat),
            r@.len() == 4,
    {
        proof {
            F::law_pack_size();
        }
        let v = self.simd_var_helper.poly_eval_at(
            var_idx,
            degree,
            &self.sp.eq_evals_at_r_simd0,
            &self.sp.simd_var_v_evals,
            &self.sp.simd_var_hg_evals,
        );
        let r: Vec<F::ChallengeField> = vec![v[0], v[1], v[2], v[3]];
        assert(r@ == v@);
        r
    }

    pub fn receive_r_simd_var(&mut self, var_idx: usize, r: F::ChallengeField)
        requires
            old(self).wf(),
            var_idx < old(self).simd_var_num,
        ensures
            final(self).wf(),
            final(self)@ == old(self)@.simd_received(var_idx as nat, r),
    {
        proof {
            F::law_pack_size();
        }
        self.simd_var_helper.receive_challenge(
            var_idx,
            r,
            &mut self.sp.eq_evals_at_r_simd0,
            &mut self.sp.simd_var_v_evals,
            &mut self.sp.simd_var_hg_evals,
        );
        self.r_simd_var.push(r);
    }

    /// This process's shares of the tables over the process variables.
    pub fn mpi_shares(&self) -> (r: (F::ChallengeField, F::ChallengeField))
        requires
            self.wf(),
        ensures
            r == (self@.v_share(), self@.hg_share()),
    {
        proof {
            F::law_pack_size();
        }
        (
            self.sp.simd_var_v_evals[0],
            self.sp.simd_var_hg_evals[0].times(self.sp.eq_evals_at_r_simd0[0]),
        )
    }

    /// Takes in the shares of all processes.
    pub fn prepare_mpi_var_vals(
        &mut self,
        v: Vec<F::ChallengeField>,
        hg: Vec<F::ChallengeField>,
    )
        requires
            old(self).wf(),
            pow2(old(self)@.mpi_var_num) <= v@.len(),
            pow2(old(self)@.mpi_var_num) <= hg@.len(),
        ensures
            final(self).wf(),
            final(self)@ == old(self)@.gathered(v@, hg@),
    {
        self.sp.mpi_var_v_evals = v;
        self.sp.mpi_var_hg_evals = hg;
    }

    pub fn poly_evals_at_r_mpi_var(&self, var_idx: usize, degree: usize) -> (r: Vec<
        F::ChallengeField,
    >)
        requires
            self.wf(),
            degree == 3,
            var_idx < self.mpi_var_helper.var_num,
        ensures
            r@ == self@.mpi_values(var_idx as nat),
    {
        let v = self.mpi_var_helper.poly_eval_at(
            var_idx,
            degree,
            &self.sp.eq_evals_at_r_mpi0,
            &self.sp.mpi_var_v_evals,
            &self.sp.mpi_var_hg_evals,
        );
        let r: Vec<F::ChallengeField> = vec![v[0], v[1], v[2], v[3]];
        assert(r@ == v@);
        r
    }

    pub fn receive_r_mpi_var(&mut self, var_idx: usize, r: F::ChallengeField)
        requires
            old(self).wf(),
            var_idx < old(self).mpi_var_helper.var_num,
        ensures
            final(self).wf(),
            final(self)@ == old(self)@.mpi_received(var_idx as nat, r),
    {
        self.mpi_var_helper.receive_challenge(
            var_idx,
            r,
            &mut self.sp.eq_evals_at_r_mpi0,
            &mut self.sp.mpi_var_v_evals,
            &mut self.sp.mpi_var_hg_evals,
        );
        self.r_mpi_var.push(r);
    }

    /// The claimed value at the first input wires' challenge. It is there once the rounds over
    /// the process variables are done.
    pub fn vx_claim(&self) -> (r: F::ChallengeField)
        requires
            self.wf(),
        ensures
            r == self@.vx(),
    {
        proof {
            lemma_pow2_pos(self@.mpi_var_num);
        }
        self.sp.mpi_var_v_evals[0]
    }

    /// This process's share of the claimed value at the second input wires' challenge.
    pub fn local_vy_claim(&self) -> (r: F::ChallengeField)
        requires
            self.wf(),
        ensures
            r == self@.vy_share(),
    {
        proof {
            lemma_pow2_pos(self@.input_var_num());
        }
        unpack_and_combine::<F>(self.sp.v_evals[0], &self.sp.eq_evals_at_r_simd0)
    }

    /// The claims left to the layer before, and the scratch pad.
    pub fn finish(self) -> (r: (ExpanderDualVarChallenge<F>, ProverScratchPad<F>))
        ensures
            r.0@ == self@.next_challenge(),
            r.1@ == self@.pad,
    {
        let ry = if self.layer.structure_info.skip_sumcheck_phase_two {
            None
        } else {
            Some(self.ry)
        };
        (ExpanderDualVarChallenge::new(self.rx, ry, self.r_simd_var, self.r_mpi_var), self.sp)
    }
}

} // verus!
