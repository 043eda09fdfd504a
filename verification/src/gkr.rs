//! The prover of whole circuits, for any number of instances in lockstep.

use vstd::arithmetic::power2::*;
use vstd::prelude::*;

use crate::batch::lists;
use crate::circuit::{
    ChallengeView, Circuit, CircuitLayer, ExpanderDualVarChallenge, ExpanderSingleVarChallenge,
};
use crate::cuda_dispatch::{check_sizes_fit, GPU_DISPATCH_THRESHOLD};
use crate::device::DeviceReply;
use crate::engine::{log2, log2_spec, FieldEngine, FieldType};
use crate::field::Field;
use crate::gkr_protocol::{
    challenges_fit, circuits_fit, eq_table, gpu_sizes_fit, lemma_begin_layer, lemma_layer_done,
    lemma_layer_stepped, output_share, pads_fit, GkrAsk, GkrEvent, GkrStageView, GkrView,
};
use crate::instance::{unpack_and_combine, ProverScratchPad};
use crate::poly::{dot, eq_eval_at, filled, pow2_usize};
use crate::protocol::{sized, Ask, Event, LayerView};
use crate::sumcheck::{
    challenge_views, check_lists, layer_values, pad_views, sumcheck_prove_gkr_layer_batched,
    BatchedSumcheckGkrVanillaHelper, LayerReply, LayerRequest,
};

verus! {

/// Where a proof stands.
pub enum GkrStage<'a, F: FieldEngine> {
    Sample { pads: Vec<ProverScratchPad<F>> },
    Claim { challenges: Vec<ExpanderDualVarChallenge<F>>, pads: Vec<ProverScratchPad<F>> },
    Layer {
        index: usize,
        claimed: Vec<F::ChallengeField>,
        helper: BatchedSumcheckGkrVanillaHelper<'a, F>,
    },
    Alpha {
        index: usize,
        claimed: Vec<F::ChallengeField>,
        challenges: Vec<ExpanderDualVarChallenge<F>>,
        pads: Vec<ProverScratchPad<F>>,
    },
    Done {
        claimed: Vec<F::ChallengeField>,
        challenges: Vec<ExpanderDualVarChallenge<F>>,
        pads: Vec<ProverScratchPad<F>>,
    },
}

impl<'a, F: FieldEngine> View for GkrStage<'a, F> {
    type V = GkrStageView<F>;

    open spec fn view(&self) -> GkrStageView<F> {
        match *self {
            GkrStage::Sample { pads } => GkrStageView::Sample { pads: pad_views(pads@) },
            GkrStage::Claim { challenges, pads } => GkrStageView::Claim {
                challenges: challenge_views(challenges@),
                pads: pad_views(pads@),
            },
            GkrStage::Layer { index, claimed, helper } => GkrStageView::Layer {
                index: index as nat,
                claimed: claimed@,
                layer: helper@,
            },
            GkrStage::Alpha { index, claimed, challenges, pads } => GkrStageView::Alpha {
                index: index as nat,
                claimed: claimed@,
                challenges: challenge_views(challenges@),
                pads: pad_views(pads@),
            },
            GkrStage::Done { claimed, challenges, pads } => GkrStageView::Done {
                claimed: claimed@,
                challenges: challenge_views(challenges@),
                pads: pad_views(pads@),
            },
        }
    }
}

/// What a proof needs from outside. Lists have one entry for each instance.
pub enum GkrRequest<F: FieldEngine> {
    /// Draw a point for outputs of so many variables, over so many processes.
    Sample { output_var_nums: Vec<usize>, world_size: usize },
    /// Add up the processes' values, weighted by the coefficients.
    Combine { values: Vec<Vec<F::ChallengeField>>, coefs: Vec<Vec<F::ChallengeField>> },
    /// What the layer in hand needs.
    Layer(LayerRequest<F>),
    /// Draw one challenge for each instance, the same on all processes.
    Alpha { count: usize },
    /// Nothing: the proof is done.
    Finished,
}

/// What came of a request.
pub enum GkrReply<F: FieldEngine> {
    Sampled { challenges: Vec<ExpanderSingleVarChallenge<F>> },
    Combined { values: Vec<Vec<F::ChallengeField>> },
    Layer(LayerReply<F>),
    Alphas { alphas: Vec<F::ChallengeField> },
}

/// Points as claims at one point.
pub open spec fn single_views<F: FieldEngine>(v: Seq<ExpanderSingleVarChallenge<F>>) -> Seq<
    ChallengeView<F::ChallengeField>,
> {
    Seq::new(
        v.len(),
        |i: int|
            ChallengeView {
                rz_0: v[i].rz@,
                rz_1: None,
                r_simd: v[i].r_simd@,
                r_mpi: v[i].r_mpi@,
            },
    )
}

impl<F: FieldEngine> GkrReply<F> {
    /// The answer that a reply gives, where it is not the GPU's.
    pub open spec fn event(self) -> GkrEvent<F::ChallengeField> {
        match self {
            GkrReply::Sampled { challenges } => GkrEvent::Sampled {
                challenges: single_views(challenges@),
            },
            GkrReply::Combined { values } => GkrEvent::Combined { values: lists(values@) },
            GkrReply::Layer(reply) => GkrEvent::Layer { event: reply.event() },
            GkrReply::Alphas { alphas } => GkrEvent::Alphas { alphas: alphas@ },
        }
    }
}

/// The values behind references to circuits.
pub open spec fn circuit_values<'a, F: FieldEngine>(v: Seq<&'a Circuit<F>>) -> Seq<Circuit<F>> {
    Seq::new(v.len(), |i: int| *v[i])
}

/// Drives the proofs of several circuits of one shape in lockstep.
pub struct GkrProver<'a, F: FieldEngine> {
    pub circuits: Vec<&'a Circuit<F>>,
    pub world_size: usize,
    pub stage: GkrStage<'a, F>,
}

impl<'a, F: FieldEngine> View for GkrProver<'a, F> {
    type V = GkrView<F>;

    open spec fn view(&self) -> GkrView<F> {
        GkrView {
            circuits: circuit_values(self.circuits@),
            world_size: self.world_size,
            stage: self.stage@,
        }
    }
}

impl<'a, F: FieldEngine> GkrProver<'a, F> {
    pub open spec fn wf(self) -> bool {
        &&& self@.wf()
        &&& match self.stage {
            GkrStage::Layer { helper, .. } => helper.wf(),
            _ => true,
        }
    }

    /// The reply is of the kind and the size that the proof waits for.
    pub open spec fn takes(self, reply: GkrReply<F>) -> bool {
        match (self.stage, reply) {
            (GkrStage::Layer { helper, .. }, GkrReply::Layer(reply)) => helper.takes(reply),
            (_, GkrReply::Layer(_)) => false,
            _ => self@.expects(reply.event()),
        }
    }

    /// A request puts a question.
    pub open spec fn puts(self, request: GkrRequest<F>, ask: GkrAsk<F::ChallengeField>) -> bool {
        match ask {
            GkrAsk::Sample { output_var_nums, world_size } => match request {
                GkrRequest::Sample { output_var_nums: nums, world_size: size } => {
                    &&& output_var_nums == Seq::new(nums@.len(), |i: int| nums@[i] as nat)
                    &&& size == world_size
                },
                _ => false,
            },
            GkrAsk::Combine { values, coefs } => match request {
                GkrRequest::Combine { values: v, coefs: c } => lists(v@) == values && lists(c@)
                    == coefs,
                _ => false,
            },
            GkrAsk::Layer { ask } => match (request, self.stage) {
                (GkrRequest::Layer(request), GkrStage::Layer { helper, .. }) => helper.puts(
                    request,
                    ask,
                ),
                _ => false,
            },
            GkrAsk::Alpha { count } => match request {
                GkrRequest::Alpha { count: n } => n == count,
                _ => false,
            },
            GkrAsk::Finished => request is Finished,
        }
    }

    /// A state and a request are those that a step of the proof leads to.
    pub open spec fn follows(
        self,
        request: GkrRequest<F>,
        want: (GkrView<F>, GkrAsk<F::ChallengeField>),
    ) -> bool {
        &&& self.wf()
        &&& self@ == want.0
        &&& self.puts(request, want.1)
    }

    /// What a reply of the GPU leads to: the layer in hand goes on, and nothing else changes.
    pub open spec fn device_follows(
        self,
        reply: DeviceReply,
        next: Self,
        request: GkrRequest<F>,
    ) -> bool {
        match (self.stage, next.stage, request) {
            (
                GkrStage::Layer { index, claimed, helper },
                GkrStage::Layer { index: next_index, claimed: next_claimed, helper: next_helper },
                GkrRequest::Layer(request),
            ) => {
                &&& next.circuits == self.circuits
                &&& next.world_size == self.world_size
                &&& next_index == index
                &&& next_claimed == claimed
                &&& helper.device_follows(reply, next_helper, request)
            },
            _ => false,
        }
    }

    /// Takes the layer at an index in hand.
    fn begin_layer(
        circuits: Vec<&'a Circuit<F>>,
        world_size: usize,
        index: usize,
        claimed: Vec<F::ChallengeField>,
        challenges: Vec<ExpanderDualVarChallenge<F>>,
        alphas: Vec<Option<F::ChallengeField>>,
        pads: Vec<ProverScratchPad<F>>,
        Ghost(two): Ghost<bool>,
    ) -> (r: (Self, GkrRequest<F>))
        requires
            circuits_fit(circuit_values(circuits@)),
            pads_fit(circuit_values(circuits@), pad_views(pads@), log2_spec(world_size)),
            index < circuits@[0].layers@.len(),
            claimed@.len() == circuits@.len(),
            challenges_fit::<F>(
                challenge_views(challenges@),
                circuits@.len(),
                circuits@[0].layers@[index as int].output_var_num as nat,
                log2_spec(world_size),
                two,
            ),
            alphas@.len() == circuits@.len(),
            forall|i: int| 0 <= i < alphas@.len() ==> (#[trigger] alphas@[i] is Some <==> two),
        ensures
            r.0.follows(
                r.1,
                GkrView {
                    circuits: circuit_values(circuits@),
                    world_size,
                    stage: GkrStageView::Sample { pads: Seq::empty() },
                }.begin_layer(
                    index as nat,
                    claimed@,
                    challenge_views(challenges@),
                    alphas@,
                    pad_views(pads@),
                ),
            ),
    {
        let ghost gkr = GkrView {
            circuits: circuit_values(circuits@),
            world_size,
            stage: GkrStageView::Sample { pads: Seq::empty() },
        };
        proof {
            lemma_begin_layer(
                gkr,
                index as nat,
                claimed@,
                challenge_views(challenges@),
                alphas@,
                pad_views(pads@),
                two,
            );
            assert(gkr.circuits[0].wf());
        }
        let n: usize = circuits.len();
        let first: &'a Circuit<F> = circuits[0];
        let is_output_layer: bool = index == first.layers.len() - 1;
        let mut layers: Vec<&'a CircuitLayer<F>> = Vec::new();
        for k in 0..n
            invariant
                n == circuits@.len(),
                circuits_fit(gkr.circuits),
                gkr.circuits == circuit_values(circuits@),
                index < gkr.layer_num(),
                layers@.len() == k,
                forall|i: int|
                    0 <= i < k ==> *(#[trigger] layers@[i]) == gkr.layers_at(index as nat)[i],
        {
            assert(gkr.circuits[k as int].layers@.len() == gkr.layer_num());
            let circuit: &'a Circuit<F> = circuits[k];
            layers.push(&circuit.layers[index]);
        }
        assert(layer_values(layers@) =~= gkr.layers_at(index as nat));
        assert(pad_views(pads@).len() == pads@.len());
        assert(challenge_views(challenges@).len() == challenges@.len());
        let (helper, request) = sumcheck_prove_gkr_layer_batched(
            &layers,
            challenges,
            &alphas,
            pads,
            world_size,
            is_output_layer,
        );
        (
            GkrProver { circuits, world_size, stage: GkrStage::Layer { index, claimed, helper } },
            GkrRequest::Layer(request),
        )
    }

    /// Goes on after the layer at an index.
    fn next_layer(
        circuits: Vec<&'a Circuit<F>>,
        world_size: usize,
        index: usize,
        claimed: Vec<F::ChallengeField>,
        challenges: Vec<ExpanderDualVarChallenge<F>>,
        alphas: Vec<Option<F::ChallengeField>>,
        pads: Vec<ProverScratchPad<F>>,
        Ghost(two): Ghost<bool>,
    ) -> (r: (Self, GkrRequest<F>))
        requires
            circuits_fit(circuit_values(circuits@)),
            pads_fit(circuit_values(circuits@), pad_views(pads@), log2_spec(world_size)),
            index < circuits@[0].layers@.len(),
            claimed@.len() == circuits@.len(),
            challenges_fit::<F>(
                challenge_views(challenges@),
                circuits@.len(),
                circuits@[0].layers@[index as int].input_var_num as nat,
                log2_spec(world_size),
                two,
            ),
            two
                == !circuits@[0].layers@[index as int].structure_info.skip_sumcheck_phase_two,
            alphas@.len() == circuits@.len(),
            forall|i: int| 0 <= i < alphas@.len() ==> (#[trigger] alphas@[i] is Some <==> two),
        ensures
            r.0.follows(
                r.1,
                GkrView {
                    circuits: circuit_values(circuits@),
                    world_size,
                    stage: GkrStageView::Sample { pads: Seq::empty() },
                }.next_layer(
                    index as nat,
                    claimed@,
                    challenge_views(challenges@),
                    alphas@,
                    pad_views(pads@),
                ),
            ),
    {
        if index == 0 {
            return (
                GkrProver {
                    circuits,
                    world_size,
                    stage: GkrStage::Done { claimed, challenges, pads },
                },
                GkrRequest::Finished,
            );
        }
        assert(circuit_values(circuits@)[0].wf());
        Self::begin_layer(
            circuits,
            world_size,
            index - 1,
            claimed,
            challenges,
            alphas,
            pads,
            Ghost(two),
        )
    }
}

/// The equality table of a point.
fn compute_eq_table<E: Field>(r: &Vec<E>) -> (table: Vec<E>)
    requires
        pow2(r@.len()) <= usize::MAX,
    ensures
        table@ == eq_table(r@),
{
    let mut table: Vec<E> = filled(E::zero(), pow2_usize(r.len()));
    eq_eval_at(r, E::one(), &mut table);
    assert(table@ =~= eq_table(r@));
    table
}

/// This process's share of the value of a circuit's outputs at a point.
pub fn local_output_claim<F: FieldEngine>(
    layer: &CircuitLayer<F>,
    challenge: &ExpanderDualVarChallenge<F>,
) -> (r: F::ChallengeField)
    requires
        layer.has_outputs(),
        challenge@.rz_0.len() == layer.output_var_num,
        challenge@.r_simd.len() == log2_spec(F::pack_size_spec()),
    ensures
        r == output_share::<F>(layer.output_vals@, challenge@),
{
    let n: usize = layer.output_vals.len();
    proof {
        F::law_pack_size();
    }
    let weights = compute_eq_table(&challenge.rz_0);
    let ghost a = Seq::new(n as nat, |i: int| F::broadcast_spec(eq_table(challenge@.rz_0)[i]));
    let ghost b = Seq::new(n as nat, |i: int| F::promote_spec(layer.output_vals@[i]));
    let mut sum = F::Field::zero();
    for k in 0..n
        invariant
            n == layer.output_vals@.len(),
            weights@ == eq_table(challenge@.rz_0),
            weights@.len() == n,
            a == Seq::new(n as nat, |i: int| F::broadcast_spec(eq_table(challenge@.rz_0)[i])),
            b == Seq::new(n as nat, |i: int| F::promote_spec(layer.output_vals@[i])),
            sum == dot(a, b, k as nat),
    {
        sum = sum.plus(F::broadcast(weights[k]).times(F::promote(layer.output_vals[k])));
    }
    let lanes = compute_eq_table(&challenge.r_simd);
    unpack_and_combine::<F>(sum, &lanes)
}

impl<'a, F: FieldEngine> GkrProver<'a, F> {
    /// Asks for the shares of the claimed outputs to be combined.
    fn claim_outputs(
        circuits: Vec<&'a Circuit<F>>,
        world_size: usize,
        points: Vec<ExpanderSingleVarChallenge<F>>,
        pads: Vec<ProverScratchPad<F>>,
    ) -> (r: (Self, GkrRequest<F>))
        requires
            circuits_fit(circuit_values(circuits@)),
            pads_fit(circuit_values(circuits@), pad_views(pads@), log2_spec(world_size)),
            challenges_fit::<F>(
                single_views(points@),
                circuits@.len(),
                circuits@[0].layers@.last().output_var_num as nat,
                log2_spec(world_size),
                false,
            ),
        ensures
            r.0.follows(
                r.1,
                GkrView {
                    circuits: circuit_values(circuits@),
                    world_size,
                    stage: GkrStageView::Sample { pads: pad_views(pads@) },
                }.step(GkrEvent::Sampled { challenges: single_views(points@) }),
            ),
    {
        let ghost gkr = GkrView {
            circuits: circuit_values(circuits@),
            world_size,
            stage: GkrStageView::Sample { pads: pad_views(pads@) },
        };
        let ghost want = single_views(points@);
        let ghost all = points@;
        let ghost last = gkr.layer_num() - 1;
        let n: usize = circuits.len();
        assert(gkr.circuits[0].wf());
        assert(pads@[0]@ == pad_views(pads@)[0]);
        assert(pad_views(pads@)[0].holds(
            pow2(gkr.circuits[0].layers@[0].input_var_num as nat),
            pow2(gkr.circuits[0].layers@[0].output_var_num as nat),
            F::pack_size_spec() as nat,
            pow2(gkr.mpi_var_num()),
        ));
        let limit: usize = pads[0].eq_evals_at_r_mpi0.len();
        let mut points = points;
        let mut challenges: Vec<ExpanderDualVarChallenge<F>> = Vec::new();
        let mut values: Vec<Vec<F::ChallengeField>> = Vec::new();
        let mut coefs: Vec<Vec<F::ChallengeField>> = Vec::new();
        for k in 0..n
            invariant
                n == circuits@.len(),
                gkr.circuits == circuit_values(circuits@),
                circuits_fit(gkr.circuits),
                last == gkr.layer_num() - 1,
                pow2(gkr.mpi_var_num()) <= limit,
                want == single_views(all),
                challenges_fit::<F>(
                    want,
                    n as nat,
                    gkr.circuits[0].layers@.last().output_var_num as nat,
                    gkr.mpi_var_num(),
                    false,
                ),
                points@ == all.subrange(k as int, n as int),
                all.len() == n,
                challenges@.len() == k,
                values@.len() == k,
                coefs@.len() == k,
                forall|i: int| 0 <= i < k ==> (#[trigger] challenges@[i])@ == want[i],
                forall|i: int|
                    0 <= i < k ==> (#[trigger] values@[i])@ == seq![
                        output_share::<F>(gkr.circuits[i].layers@.last().output_vals@, want[i]),
                    ],
                forall|i: int| 0 <= i < k ==> (#[trigger] coefs@[i])@ == eq_table(want[i].r_mpi),
        {
            let point = points.remove(0);
            assert(point == all[k as int]);
            assert(points@ =~= all.subrange(k + 1, n as int));
            let challenge = ExpanderDualVarChallenge::from_single(point);
            assert(challenge@ == want[k as int]);
            let circuit: &'a Circuit<F> = circuits[k];
            assert(gkr.circuits[k as int].wf());
            assert(gkr.circuits[k as int].layers@.len() == gkr.layer_num());
            assert(gkr.circuits[k as int].layers@[last].same_shape(
                gkr.circuits[0].layers@[last],
            ));
            let layer = &circuit.layers[circuit.layers.len() - 1];
            let share: Vec<F::ChallengeField> = vec![local_output_claim(layer, &challenge)];
            assert(share@ =~= seq![output_share::<F>(layer.output_vals@, want[k as int])]);
            values.push(share);
            coefs.push(compute_eq_table(&challenge.r_mpi));
            challenges.push(challenge);
        }
        proof {
            let (state, ask) = gkr.step(GkrEvent::Sampled { challenges: want });
            assert(challenge_views(challenges@) =~= want);
            assert(ask->values =~= lists(values@));
            assert(ask->coefs =~= lists(coefs@));
        }
        (
            GkrProver { circuits, world_size, stage: GkrStage::Claim { challenges, pads } },
            GkrRequest::Combine { values, coefs },
        )
    }

    /// Goes on after a step of the layer in hand.
    fn after_layer_step(
        circuits: Vec<&'a Circuit<F>>,
        world_size: usize,
        index: usize,
        claimed: Vec<F::ChallengeField>,
        helper: BatchedSumcheckGkrVanillaHelper<'a, F>,
        request: LayerRequest<F>,
        Ghost(want): Ghost<(LayerView<F>, Ask<F::ChallengeField>)>,
    ) -> (r: (Self, GkrRequest<F>))
        requires
            circuits_fit(circuit_values(circuits@)),
            index < circuits@[0].layers@.len(),
            claimed@.len() == circuits@.len(),
            helper.follows(request, want),
            (GkrView {
                circuits: circuit_values(circuits@),
                world_size,
                stage: GkrStageView::<F>::Sample { pads: Seq::empty() },
            }).layer_fits(index as nat, want.0),
        ensures
            r.0.follows(
                r.1,
                (GkrView {
                    circuits: circuit_values(circuits@),
                    world_size,
                    stage: GkrStageView::Sample { pads: Seq::empty() },
                }).layer_stepped(index as nat, claimed@, want),
            ),
    {
        let ghost gkr = GkrView {
            circuits: circuit_values(circuits@),
            world_size,
            stage: GkrStageView::<F>::Sample { pads: Seq::empty() },
        };
        if !helper.is_done() {
            return (
                GkrProver {
                    circuits,
                    world_size,
                    stage: GkrStage::Layer { index, claimed, helper },
                },
                GkrRequest::Layer(request),
            );
        }
        proof {
            lemma_layer_done(gkr, index as nat, want.0);
            assert(want.0.insts[0].layer == gkr.circuits[0].layers@[index as int]);
        }
        let n: usize = circuits.len();
        let first: &'a Circuit<F> = circuits[0];
        let skips: bool = first.layers[index].structure_info.skip_sumcheck_phase_two;
        let (claims, challenges, pads) = helper.finish();
        assert(pad_views(pads@) =~= GkrView::<F>::pads_of(want.0));
        assert(challenge_views(challenges@).len() == n);
        if !skips {
            return (
                GkrProver {
                    circuits,
                    world_size,
                    stage: GkrStage::Alpha { index, claimed, challenges, pads },
                },
                GkrRequest::Alpha { count: n },
            );
        }
        let alphas: Vec<Option<F::ChallengeField>> = filled(None, n);
        assert(alphas@ =~= gkr.no_alphas());
        Self::next_layer(
            circuits,
            world_size,
            index,
            claimed,
            challenges,
            alphas,
            pads,
            Ghost(false),
        )
    }

    /// Takes the proof one reply further.
    pub fn advance(self, reply: GkrReply<F>) -> (r: (Self, GkrRequest<F>))
        requires
            self.wf(),
            self.takes(reply),
        ensures
            r.0.wf(),
            match reply {
                GkrReply::Layer(LayerReply::Device(d)) => self.device_follows(d, r.0, r.1),
                _ => r.0.follows(r.1, self@.step(reply.event())),
            },
    {
        let ghost gkr = self@;
        let ghost event = reply.event();
        let GkrProver { circuits, world_size, stage } = self;
        assert(gkr.circuits == circuit_values(circuits@));
        assert(gkr.circuits[0].wf());
        match (stage, reply) {
            (GkrStage::Sample { pads }, GkrReply::Sampled { challenges }) => Self::claim_outputs(
                circuits,
                world_size,
                challenges,
                pads,
            ),
            (GkrStage::Claim { challenges, pads }, GkrReply::Combined { values }) => {
                let n: usize = circuits.len();
                let mut claimed: Vec<F::ChallengeField> = Vec::new();
                for k in 0..n
                    invariant
                        n == circuits@.len(),
                        sized(lists(values@), n as nat, 1),
                        claimed@ == Seq::new(k as nat, |i: int| lists(values@)[i][0]),
                {
                    assert(lists(values@)[k as int].len() == 1);
                    claimed.push(values[k][0]);
                    assert(claimed@ =~= Seq::new((k + 1) as nat, |i: int| lists(values@)[i][0]));
                }
                let alphas: Vec<Option<F::ChallengeField>> = filled(None, n);
                assert(alphas@ =~= gkr.no_alphas());
                let first: &'a Circuit<F> = circuits[0];
                let index: usize = first.layers.len() - 1;
                Self::begin_layer(
                    circuits,
                    world_size,
                    index,
                    claimed,
                    challenges,
                    alphas,
                    pads,
                    Ghost(false),
                )
            },
            (GkrStage::Layer { index, claimed, helper }, GkrReply::Layer(reply)) => {
                let from_device: bool = match &reply {
                    LayerReply::Device(_) => true,
                    _ => false,
                };
                let ghost layer = helper@;
                let ghost layer_event = reply.event();
                let (next, request) = helper.advance(reply);
                if from_device {
                    proof {
                        if next@ != layer {
                            let e = choose|e: Event<F::ChallengeField>|
                                layer.expects(e) && next@ == (#[trigger] layer.step(e)).0;
                            lemma_layer_stepped(gkr, index as nat, layer, e);
                        }
                    }
                    return (
                        GkrProver {
                            circuits,
                            world_size,
                            stage: GkrStage::Layer { index, claimed, helper: next },
                        },
                        GkrRequest::Layer(request),
                    );
                }
                proof {
                    lemma_layer_stepped(gkr, index as nat, layer, layer_event);
                }
                Self::after_layer_step(
                    circuits,
                    world_size,
                    index,
                    claimed,
                    next,
                    request,
                    Ghost(layer.step(layer_event)),
                )
            },
            (GkrStage::Alpha { index, claimed, challenges, pads }, GkrReply::Alphas { alphas }) => {
                let n: usize = circuits.len();
                let mut some: Vec<Option<F::ChallengeField>> = Vec::new();
                for k in 0..n
                    invariant
                        n == circuits@.len(),
                        alphas@.len() == n,
                        some@ == Seq::new(k as nat, |i: int| Some(alphas@[i])),
                {
                    some.push(Some(alphas[k]));
                    assert(some@ =~= Seq::new((k + 1) as nat, |i: int| Some(alphas@[i])));
                }
                Self::next_layer(
                    circuits,
                    world_size,
                    index,
                    claimed,
                    challenges,
                    some,
                    pads,
                    Ghost(true),
                )
            },
            _ => unreached(),
        }
    }
}

// ---------------------------------------------------------------------------
// Starting and finishing
// ---------------------------------------------------------------------------

impl<'a, F: FieldEngine> GkrProver<'a, F> {
    /// Checks that a reply is of the kind and the size that the proof waits for.
    pub fn accepts(&self, reply: &GkrReply<F>) -> (r: bool)
        requires
            self.wf(),
        ensures
            r == self.takes(*reply),
    {
        let ghost gkr = self@;
        let n: usize = self.circuits.len();
        assert(gkr.circuits[0].wf());
        match (&self.stage, reply) {
            (GkrStage::Sample { .. }, GkrReply::Sampled { challenges }) => {
                let first: &'a Circuit<F> = self.circuits[0];
                let var_num: usize = first.layers[first.layers.len() - 1].output_var_num;
                check_points(challenges, n, var_num, log2(self.world_size))
            },
            (GkrStage::Claim { .. }, GkrReply::Combined { values }) => check_lists(
                values,
                n,
                1,
                true,
            ),
            (GkrStage::Layer { helper, .. }, GkrReply::Layer(reply)) => helper.accepts(reply),
            (GkrStage::Alpha { .. }, GkrReply::Alphas { alphas }) => alphas.len() == n,
            _ => false,
        }
    }

    /// The proof is done.
    pub fn is_done(&self) -> (r: bool)
        ensures
            r == (self@.stage is Done),
    {
        match &self.stage {
            GkrStage::Done { .. } => true,
            _ => false,
        }
    }

    /// The claimed outputs and the last challenges of a finished proof, and the scratch pads.
    pub fn finish(self) -> (r: (
        Vec<(F::ChallengeField, ExpanderDualVarChallenge<F>)>,
        Vec<ProverScratchPad<F>>,
    ))
        requires
            self.wf(),
            self@.stage is Done,
        ensures
            Seq::new(r.0@.len(), |i: int| (r.0@[i].0, r.0@[i].1@)) == self@.results(),
            pad_views(r.1@) == self@.stage->Done_pads,
    {
        let ghost gkr = self@;
        let GkrProver { circuits, world_size, stage } = self;
        match stage {
            GkrStage::Done { claimed, challenges, pads } => {
                let n: usize = circuits.len();
                let ghost all = challenges@;
                assert(challenge_views(all).len() == n);
                let mut challenges = challenges;
                let mut out: Vec<(F::ChallengeField, ExpanderDualVarChallenge<F>)> = Vec::new();
                for k in 0..n
                    invariant
                        n == all.len(),
                        n == claimed@.len(),
                        n == gkr.circuits.len(),
                        gkr.stage == (GkrStageView::<F>::Done {
                            claimed: claimed@,
                            challenges: challenge_views(all),
                            pads: pad_views(pads@),
                        }),
                        challenges@ == all.subrange(k as int, n as int),
                        out@.len() == k,
                        forall|i: int|
                            0 <= i < k ==> (#[trigger] out@[i]).0 == gkr.results()[i].0
                                && out@[i].1@ == gkr.results()[i].1,
                {
                    let challenge = challenges.remove(0);
                    assert(challenge == all[k as int]);
                    assert(challenges@ =~= all.subrange(k + 1, n as int));
                    out.push((claimed[k], challenge));
                }
                assert(Seq::new(out@.len(), |i: int| (out@[i].0, out@[i].1@)) =~= gkr.results());
                (out, pads)
            },
            _ => unreached(),
        }
    }
}

/// Checks that there are `n` points of the given numbers of variables.
fn check_points<F: FieldEngine>(
    points: &Vec<ExpanderSingleVarChallenge<F>>,
    n: usize,
    var_num: usize,
    mpi_var_num: usize,
) -> (r: bool)
    ensures
        r == challenges_fit::<F>(
            single_views(points@),
            n as nat,
            var_num as nat,
            mpi_var_num as nat,
            false,
        ),
{
    let simd: usize = log2(F::get_field_pack_size());
    if points.len() != n {
        assert(single_views(points@).len() != n);
        return false;
    }
    for k in 0..n
        invariant
            n == points@.len(),
            simd == log2_spec(F::pack_size_spec()),
            forall|i: int|
                0 <= i < k ==> {
                    let c = #[trigger] single_views(points@)[i];
                    &&& c.rz_0.len() == var_num
                    &&& c.r_simd.len() == simd
                    &&& c.r_mpi.len() == mpi_var_num
                },
    {
        let c = &points[k];
        if c.rz.len() != var_num || c.r_simd.len() != simd || c.r_mpi.len() != mpi_var_num {
            assert(single_views(points@)[k as int].rz_0 == c.rz@);
            return false;
        }
    }
    true
}

/// Checks that circuits of one shape and their scratch pads can be proved in lockstep.
pub fn can_prove<'a, F: FieldEngine>(
    circuits: &Vec<&'a Circuit<F>>,
    pads: &Vec<ProverScratchPad<F>>,
    world_size: usize,
) -> (r: bool)
    ensures
        r == (circuits_fit(circuit_values(circuits@)) && pads_fit(
            circuit_values(circuits@),
            pad_views(pads@),
            log2_spec(world_size),
        )),
{
    let ghost all = circuit_values(circuits@);
    let n: usize = circuits.len();
    if n == 0 || pads.len() != n {
        assert(pad_views(pads@).len() != n || n == 0);
        return false;
    }
    let first: &'a Circuit<F> = circuits[0];
    let layer_num: usize = first.layers.len();
    for k in 0..n
        invariant
            n == all.len(),
            all == circuit_values(circuits@),
            n >= 1,
            all[0] == *first,
            layer_num == first.layers@.len(),
            forall|i: int|
                0 <= i < k ==> (#[trigger] all[i]).wf() && all[i].layers@.len() == layer_num,
            forall|i: int, j: int|
                0 <= i < k && 0 <= j < layer_num ==> #[trigger] all[i].layers@[j].same_shape(
                    all[0].layers@[j],
                ),
    {
        let circuit: &'a Circuit<F> = circuits[k];
        assert(all[k as int] == *circuit);
        if !circuit.is_well_formed() || !is_alike(circuit, first) {
            return false;
        }
    }
    let e: usize = log2(world_size);
    assert(all[0].wf());
    for j in 0..layer_num
        invariant
            n == all.len(),
            all == circuit_values(circuits@),
            n >= 1,
            n == pads@.len(),
            all[0] == *first,
            all[0].wf(),
            layer_num == first.layers@.len(),
            e == log2_spec(world_size),
            forall|m: int|
                0 <= m < j ==> gpu_sizes_fit(n as int, #[trigger] all[0].layers@[m]),
            forall|i: int, m: int|
                0 <= i < n && 0 <= m < j ==> (#[trigger] pad_views(pads@)[i]).holds(
                    pow2((#[trigger] all[0].layers@[m]).input_var_num as nat),
                    pow2(all[0].layers@[m].output_var_num as nat),
                    F::pack_size_spec() as nat,
                    pow2(log2_spec(world_size)),
                ),
    {
        let layer = &first.layers[j];
        assert(*layer == all[0].layers@[j as int]);
        if !check_gpu_sizes(n, layer) || !have_room(pads, layer, e) {
            return false;
        }
    }
    true
}

/// Checks that two circuits have the same number of layers, of the same shapes.
fn is_alike<F: FieldEngine>(circuit: &Circuit<F>, first: &Circuit<F>) -> (r: bool)
    ensures
        r == (circuit.layers@.len() == first.layers@.len() && forall|j: int|
            0 <= j < first.layers@.len() ==> #[trigger] circuit.layers@[j].same_shape(
                first.layers@[j],
            )),
{
    let n: usize = first.layers.len();
    if circuit.layers.len() != n {
        return false;
    }
    for j in 0..n
        invariant
            n == first.layers@.len(),
            n == circuit.layers@.len(),
            forall|m: int|
                0 <= m < j ==> #[trigger] circuit.layers@[m].same_shape(first.layers@[m]),
    {
        let (a, b) = (&circuit.layers[j], &first.layers[j]);
        if a.input_var_num != b.input_var_num || a.output_var_num != b.output_var_num
            || a.structure_info.skip_sumcheck_phase_two
            != b.structure_info.skip_sumcheck_phase_two {
            assert(!circuit.layers@[j as int].same_shape(first.layers@[j as int]));
            return false;
        }
    }
    true
}

/// Checks that scratch pads have room for a layer, `e` being the exponent of the number of
/// processes.
fn have_room<F: FieldEngine>(
    pads: &Vec<ProverScratchPad<F>>,
    layer: &CircuitLayer<F>,
    e: usize,
) -> (r: bool)
    ensures
        r == forall|i: int|
            0 <= i < pads@.len() ==> (#[trigger] pad_views(pads@)[i]).holds(
                pow2(layer.input_var_num as nat),
                pow2(layer.output_var_num as nat),
                F::pack_size_spec() as nat,
                pow2(e as nat),
            ),
{
    for k in 0..pads.len()
        invariant
            forall|i: int|
                0 <= i < k ==> (#[trigger] pad_views(pads@)[i]).holds(
                    pow2(layer.input_var_num as nat),
                    pow2(layer.output_var_num as nat),
                    F::pack_size_spec() as nat,
                    pow2(e as nat),
                ),
    {
        if !pads[k].has_room(layer.input_var_num, layer.output_var_num, e) {
            assert(pad_views(pads@)[k as int] == pads@[k as int]@);
            return false;
        }
    }
    true
}

/// Checks that the GPU buffers of a layer can be represented, where it goes to the GPU.
fn check_gpu_sizes<F: FieldEngine>(n: usize, layer: &CircuitLayer<F>) -> (r: bool)
    requires
        n >= 1,
        layer.wf(),
    ensures
        r == gpu_sizes_fit(n as int, *layer),
{
    let inputs: usize = layer.input_vals.len();
    if F::field_type() != FieldType::M31x16 || layer.input_var_num == 0 {
        return true;
    }
    proof {
        lemma_pow2_unfold(layer.input_var_num as nat);
    }
    if inputs / 2 < GPU_DISPATCH_THRESHOLD {
        return true;
    }
    check_sizes_fit(n, F::get_field_pack_size(), inputs)
}

/// Starts the proofs of several circuits of one shape: the outputs are claimed at points drawn
/// for them, then the layers are proved from the outputs to the inputs.
pub fn gkr_prove_batched<'a, F: FieldEngine>(
    circuit_per_instance: Vec<&'a Circuit<F>>,
    sp_per_instance: Vec<ProverScratchPad<F>>,
    world_size: usize,
) -> (r: (GkrProver<'a, F>, GkrRequest<F>))
    requires
        circuits_fit(circuit_values(circuit_per_instance@)),
        pads_fit(
            circuit_values(circuit_per_instance@),
            pad_views(sp_per_instance@),
            log2_spec(world_size),
        ),
    ensures
        r.0.follows(
            r.1,
            GkrView {
                circuits: circuit_values(circuit_per_instance@),
                world_size,
                stage: GkrStageView::Sample { pads: pad_views(sp_per_instance@) },
            }.begin(pad_views(sp_per_instance@)),
        ),
{
    let ghost all = circuit_values(circuit_per_instance@);
    let n: usize = circuit_per_instance.len();
    let mut output_var_nums: Vec<usize> = Vec::new();
    for k in 0..n
        invariant
            n == circuit_per_instance@.len(),
            all == circuit_values(circuit_per_instance@),
            circuits_fit(all),
            output_var_nums@.len() == k,
            forall|i: int|
                0 <= i < k ==> #[trigger] output_var_nums@[i]
                    == all[i].layers@.last().output_var_num,
    {
        let circuit: &'a Circuit<F> = circuit_per_instance[k];
        assert(all[k as int].wf());
        output_var_nums.push(circuit.layers[circuit.layers.len() - 1].output_var_num);
    }
    proof {
        let gkr = GkrView {
            circuits: all,
            world_size,
            stage: GkrStageView::Sample { pads: pad_views(sp_per_instance@) },
        };
        assert(gkr.begin(pad_views(sp_per_instance@)).1->output_var_nums =~= Seq::new(
            output_var_nums@.len(),
            |i: int| output_var_nums@[i] as nat,
        ));
    }
    (
        GkrProver {
            circuits: circuit_per_instance,
            world_size,
            stage: GkrStage::Sample { pads: sp_per_instance },
        },
        GkrRequest::Sample { output_var_nums, world_size },
    )
}

/// Starts the proof of one circuit: a batch of one.
pub fn gkr_prove<'a, F: FieldEngine>(
    circuit: &'a Circuit<F>,
    sp: ProverScratchPad<F>,
    world_size: usize,
) -> (r: (GkrProver<'a, F>, GkrRequest<F>))
    requires
        circuits_fit(seq![*circuit]),
        pads_fit(seq![*circuit], seq![sp@], log2_spec(world_size)),
    ensures
        r.0.follows(
            r.1,
            GkrView {
                circuits: seq![*circuit],
                world_size,
                stage: GkrStageView::Sample { pads: seq![sp@] },
            }.begin(seq![sp@]),
        ),
{
    let circuits: Vec<&'a Circuit<F>> = vec![circuit];
    let pads: Vec<ProverScratchPad<F>> = vec![sp];
    assert(circuit_values(circuits@) =~= seq![*circuit]);
    assert(pad_views(pads@) =~= seq![sp@]);
    gkr_prove_batched(circuits, pads, world_size)
}

} // verus!
