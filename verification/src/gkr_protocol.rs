//! The proof of a whole circuit, layer by layer, for any number of provers in lockstep.

use vstd::arithmetic::power2::*;
use vstd::prelude::*;

use crate::circuit::{ChallengeView, Circuit, CircuitLayer};
use crate::cuda_dispatch::{sizes_fit, GPU_DISPATCH_THRESHOLD};
use crate::engine::{log2_spec, FieldEngine, FieldType};
use crate::field::Field;
use crate::instance::{lanes_combined, PadView};
use crate::poly::{dot, eq_weight};
use crate::protocol::{
    lemma_start_room, lemma_start_wf, lemma_step_layers, lemma_step_room, lemma_step_wf, sized,
    Ask, Event, LayerView,
};
use crate::sumcheck::layer_at_start;

verus! {

/// The equality table of a point.
pub open spec fn eq_table<E: Field>(r: Seq<E>) -> Seq<E> {
    Seq::new(pow2(r.len()), |i: int| eq_weight(r, E::one_spec(), i))
}

/// The values of wires, extended to a point of the wire variables.
pub open spec fn wires_at<F: FieldEngine>(
    vals: Seq<F::SimdCircuitField>,
    rz: Seq<F::ChallengeField>,
) -> F::Field {
    let n = pow2(rz.len());
    dot(
        Seq::new(n, |i: int| F::broadcast_spec(eq_table(rz)[i])),
        Seq::new(n, |i: int| F::promote_spec(vals[i])),
        n,
    )
}

/// This process's share of the value of a circuit's outputs at a point.
pub open spec fn output_share<F: FieldEngine>(
    vals: Seq<F::SimdCircuitField>,
    challenge: ChallengeView<F::ChallengeField>,
) -> F::ChallengeField {
    lanes_combined::<F>(wires_at::<F>(vals, challenge.rz_0), eq_table(challenge.r_simd))
}

/// Where a proof stands. `index` is the layer in hand.
#[verifier::ext_equal]
pub enum GkrStageView<F: FieldEngine> {
    /// The first challenges are being drawn.
    Sample { pads: Seq<PadView<F::Field, F::ChallengeField>> },
    /// The claimed outputs are being combined.
    Claim {
        challenges: Seq<ChallengeView<F::ChallengeField>>,
        pads: Seq<PadView<F::Field, F::ChallengeField>>,
    },
    /// A layer is in hand.
    Layer { index: nat, claimed: Seq<F::ChallengeField>, layer: LayerView<F> },
    /// Coefficients to combine two claims are being drawn.
    Alpha {
        index: nat,
        claimed: Seq<F::ChallengeField>,
        challenges: Seq<ChallengeView<F::ChallengeField>>,
        pads: Seq<PadView<F::Field, F::ChallengeField>>,
    },
    Done {
        claimed: Seq<F::ChallengeField>,
        challenges: Seq<ChallengeView<F::ChallengeField>>,
        pads: Seq<PadView<F::Field, F::ChallengeField>>,
    },
}

/// The state of a proof.
#[verifier::ext_equal]
pub struct GkrView<F: FieldEngine> {
    pub circuits: Seq<Circuit<F>>,
    pub world_size: usize,
    pub stage: GkrStageView<F>,
}

/// What a proof asks for.
#[verifier::ext_equal]
pub enum GkrAsk<E> {
    /// Challenges for outputs of these numbers of variables, over so many processes.
    Sample { output_var_nums: Seq<nat>, world_size: usize },
    /// The sum over all processes of their values, weighted by the coefficients.
    Combine { values: Seq<Seq<E>>, coefs: Seq<Seq<E>> },
    /// What the layer asks for.
    Layer { ask: Ask<E> },
    /// One challenge for each instance.
    Alpha { count: nat },
    Finished,
}

/// The answers.
#[verifier::ext_equal]
pub enum GkrEvent<E> {
    Sampled { challenges: Seq<ChallengeView<E>> },
    Combined { values: Seq<Seq<E>> },
    Layer { event: Event<E> },
    Alphas { alphas: Seq<E> },
}

/// Where the layer would go to the GPU, the buffers for `n` instances can be represented.
pub open spec fn gpu_sizes_fit<F: FieldEngine>(n: int, layer: CircuitLayer<F>) -> bool {
    (F::field_type_spec() == FieldType::M31x16 && layer.input_var_num >= 1 && pow2(
        (layer.input_var_num - 1) as nat,
    ) >= GPU_DISPATCH_THRESHOLD) ==> sizes_fit(
        n,
        F::pack_size_spec() as int,
        pow2(layer.input_var_num as nat) as int,
    )
}

/// The circuits have one shape.
pub open spec fn circuits_fit<F: FieldEngine>(circuits: Seq<Circuit<F>>) -> bool {
    &&& circuits.len() >= 1
    &&& forall|i: int| 0 <= i < circuits.len() ==> (#[trigger] circuits[i]).wf()
    &&& forall|i: int|
        0 <= i < circuits.len() ==> (#[trigger] circuits[i]).layers@.len()
            == circuits[0].layers@.len()
    &&& forall|i: int, j: int|
        0 <= i < circuits.len() && 0 <= j < circuits[0].layers@.len()
            ==> #[trigger] circuits[i].layers@[j].same_shape(circuits[0].layers@[j])
    &&& forall|j: int|
        0 <= j < circuits[0].layers@.len() ==> gpu_sizes_fit(
            circuits.len() as int,
            #[trigger] circuits[0].layers@[j],
        )
}

/// Every scratch pad has room for every layer.
pub open spec fn pads_fit<F: FieldEngine>(
    circuits: Seq<Circuit<F>>,
    pads: Seq<PadView<F::Field, F::ChallengeField>>,
    mpi_var_num: nat,
) -> bool {
    &&& pads.len() == circuits.len()
    &&& forall|i: int, j: int|
        0 <= i < pads.len() && 0 <= j < circuits[0].layers@.len() ==> (
        #[trigger] pads[i]).holds(
            pow2((#[trigger] circuits[0].layers@[j]).input_var_num as nat),
            pow2(circuits[0].layers@[j].output_var_num as nat),
            F::pack_size_spec() as nat,
            pow2(mpi_var_num),
        )
}

/// Claims at points of these dimensions, all at one point or all at two.
pub open spec fn challenges_fit<F: FieldEngine>(
    challenges: Seq<ChallengeView<F::ChallengeField>>,
    n: nat,
    var_num: nat,
    mpi_var_num: nat,
    two: bool,
) -> bool {
    &&& challenges.len() == n
    &&& forall|i: int|
        0 <= i < n ==> {
            let c = #[trigger] challenges[i];
            &&& c.rz_0.len() == var_num
            &&& c.rz_1 is Some <==> two
            &&& c.rz_1 is Some ==> c.rz_1->0.len() == var_num
            &&& c.r_simd.len() == log2_spec(F::pack_size_spec())
            &&& c.r_mpi.len() == mpi_var_num
        }
}

impl<F: FieldEngine> GkrView<F> {
    pub open spec fn layer_num(self) -> nat {
        self.circuits[0].layers@.len()
    }

    pub open spec fn mpi_var_num(self) -> nat {
        log2_spec(self.world_size)
    }

    /// The instances' layers at an index.
    pub open spec fn layers_at(self, index: nat) -> Seq<CircuitLayer<F>> {
        Seq::new(self.circuits.len(), |i: int| self.circuits[i].layers@[index as int])
    }

    /// The layer in hand belongs to the circuits.
    pub open spec fn layer_fits(self, index: nat, layer: LayerView<F>) -> bool {
        &&& layer.wf()
        &&& layer.insts.len() == self.circuits.len()
        &&& forall|i: int|
            0 <= i < layer.insts.len() ==> (#[trigger] layer.insts[i]).layer
                == self.circuits[i].layers@[index as int] && layer.insts[i].mpi_var_num
                == self.mpi_var_num()
        &&& forall|j: int|
            0 <= j < self.layer_num() ==> layer.has_room(
                pow2((#[trigger] self.circuits[0].layers@[j]).input_var_num as nat),
                pow2(self.circuits[0].layers@[j].output_var_num as nat),
            )
    }

    /// The state is one that a proof comes through.
    pub open spec fn wf(self) -> bool {
        let n = self.circuits.len();
        &&& circuits_fit(self.circuits)
        &&& match self.stage {
            GkrStageView::Sample { pads } => pads_fit(self.circuits, pads, self.mpi_var_num()),
            GkrStageView::Claim { challenges, pads } => pads_fit(
                self.circuits,
                pads,
                self.mpi_var_num(),
            ) && challenges_fit::<F>(
                challenges,
                n,
                self.circuits[0].layers@.last().output_var_num as nat,
                self.mpi_var_num(),
                false,
            ),
            GkrStageView::Layer { index, claimed, layer } => index < self.layer_num()
                && claimed.len() == n && self.layer_fits(index, layer) && !(layer.stage is Done),
            GkrStageView::Alpha { index, claimed, challenges, pads } => index < self.layer_num()
                && !self.circuits[0].layers@[index as int].structure_info.skip_sumcheck_phase_two
                && claimed.len() == n && pads_fit(self.circuits, pads, self.mpi_var_num())
                && challenges_fit::<F>(
                challenges,
                n,
                self.circuits[0].layers@[index as int].input_var_num as nat,
                self.mpi_var_num(),
                true,
            ),
            GkrStageView::Done { claimed, challenges, pads } => claimed.len() == n && pads_fit(
                self.circuits,
                pads,
                self.mpi_var_num(),
            ) && challenges_fit::<F>(
                challenges,
                n,
                self.circuits[0].layers@[0].input_var_num as nat,
                self.mpi_var_num(),
                !self.circuits[0].layers@[0].structure_info.skip_sumcheck_phase_two,
            ),
        }
    }

    /// The answer is of the kind and the size that the state waits for.
    pub open spec fn expects(self, event: GkrEvent<F::ChallengeField>) -> bool {
        let n = self.circuits.len();
        match (self.stage, event) {
            (GkrStageView::Sample { .. }, GkrEvent::Sampled { challenges }) => challenges_fit::<F>(
                challenges,
                n,
                self.circuits[0].layers@.last().output_var_num as nat,
                self.mpi_var_num(),
                false,
            ),
            (GkrStageView::Claim { .. }, GkrEvent::Combined { values }) => sized(
                values,
                n,
                1,
            ),
            (GkrStageView::Layer { layer, .. }, GkrEvent::Layer { event }) => layer.expects(event),
            (GkrStageView::Alpha { .. }, GkrEvent::Alphas { alphas }) => alphas.len() == n,
            _ => false,
        }
    }

    pub open spec fn at(self, stage: GkrStageView<F>) -> Self {
        GkrView { stage, ..self }
    }

    /// The first state and question of a proof.
    pub open spec fn begin(self, pads: Seq<PadView<F::Field, F::ChallengeField>>) -> (
        Self,
        GkrAsk<F::ChallengeField>,
    ) {
        (
            self.at(GkrStageView::Sample { pads }),
            GkrAsk::Sample {
                output_var_nums: Seq::new(
                    self.circuits.len(),
                    |i: int| self.circuits[i].layers@.last().output_var_num as nat,
                ),
                world_size: self.world_size,
            },
        )
    }

    /// The layer at an index is taken in hand.
    pub open spec fn begin_layer(
        self,
        index: nat,
        claimed: Seq<F::ChallengeField>,
        challenges: Seq<ChallengeView<F::ChallengeField>>,
        alphas: Seq<Option<F::ChallengeField>>,
        pads: Seq<PadView<F::Field, F::ChallengeField>>,
    ) -> (Self, GkrAsk<F::ChallengeField>) {
        let (layer, ask) = layer_at_start(
            self.layers_at(index),
            challenges,
            alphas,
            pads,
            self.world_size,
            index == self.layer_num() - 1,
        ).start();
        (self.at(GkrStageView::Layer { index, claimed, layer }), GkrAsk::Layer { ask })
    }

    /// The layer at an index is done.
    pub open spec fn next_layer(
        self,
        index: nat,
        claimed: Seq<F::ChallengeField>,
        challenges: Seq<ChallengeView<F::ChallengeField>>,
        alphas: Seq<Option<F::ChallengeField>>,
        pads: Seq<PadView<F::Field, F::ChallengeField>>,
    ) -> (Self, GkrAsk<F::ChallengeField>) {
        if index == 0 {
            (self.at(GkrStageView::Done { claimed, challenges, pads }), GkrAsk::Finished)
        } else {
            self.begin_layer((index - 1) as nat, claimed, challenges, alphas, pads)
        }
    }

    pub open spec fn no_alphas(self) -> Seq<Option<F::ChallengeField>> {
        Seq::new(self.circuits.len(), |i: int| None)
    }

    pub open spec fn pads_of(layer: LayerView<F>) -> Seq<PadView<F::Field, F::ChallengeField>> {
        Seq::new(layer.insts.len(), |i: int| layer.insts[i].pad)
    }

    /// The layer in hand has come to a state, with a question.
    pub open spec fn layer_stepped(
        self,
        index: nat,
        claimed: Seq<F::ChallengeField>,
        next: (LayerView<F>, Ask<F::ChallengeField>),
    ) -> (Self, GkrAsk<F::ChallengeField>) {
        let (layer, ask) = next;
        if layer.stage is Done {
            let challenges = layer.challenges();
            let pads = Self::pads_of(layer);
            if layer.skips_phase_two() {
                self.next_layer(index, claimed, challenges, self.no_alphas(), pads)
            } else {
                (
                    self.at(GkrStageView::Alpha { index, claimed, challenges, pads }),
                    GkrAsk::Alpha { count: self.circuits.len() },
                )
            }
        } else {
            (self.at(GkrStageView::Layer { index, claimed, layer }), GkrAsk::Layer { ask })
        }
    }

    /// One step of the proof.
    pub open spec fn step(self, event: GkrEvent<F::ChallengeField>) -> (
        Self,
        GkrAsk<F::ChallengeField>,
    ) {
        match (self.stage, event) {
            (GkrStageView::Sample { pads }, GkrEvent::Sampled { challenges }) => (
                self.at(GkrStageView::Claim { challenges, pads }),
                GkrAsk::Combine {
                    values: Seq::new(
                        self.circuits.len(),
                        |i: int|
                            seq![
                                output_share::<F>(
                                    self.circuits[i].layers@.last().output_vals@,
                                    challenges[i],
                                ),
                            ],
                    ),
                    coefs: Seq::new(
                        self.circuits.len(),
                        |i: int| eq_table(challenges[i].r_mpi),
                    ),
                },
            ),
            (GkrStageView::Claim { challenges, pads }, GkrEvent::Combined { values }) =>
                self.begin_layer(
                (self.layer_num() - 1) as nat,
                Seq::new(self.circuits.len(), |i: int| values[i][0]),
                challenges,
                self.no_alphas(),
                pads,
            ),
            (GkrStageView::Layer { index, claimed, layer }, GkrEvent::Layer { event }) =>
                self.layer_stepped(index, claimed, layer.step(event)),
            (
                GkrStageView::Alpha { index, claimed, challenges, pads },
                GkrEvent::Alphas { alphas },
            ) => self.next_layer(
                index,
                claimed,
                challenges,
                Seq::new(self.circuits.len(), |i: int| Some(alphas[i])),
                pads,
            ),
            _ => (self, GkrAsk::Finished),
        }
    }

    /// The results of a finished proof: the claimed outputs and the last challenges.
    pub open spec fn results(self) -> Seq<(F::ChallengeField, ChallengeView<F::ChallengeField>)> {
        match self.stage {
            GkrStageView::Done { claimed, challenges, .. } => Seq::new(
                self.circuits.len(),
                |i: int| (claimed[i], challenges[i]),
            ),
            _ => Seq::empty(),
        }
    }
}

// ---------------------------------------------------------------------------
// Invariants
// ---------------------------------------------------------------------------

/// A layer that is taken in hand fits the circuits.
pub proof fn lemma_begin_layer<F: FieldEngine>(
    gkr: GkrView<F>,
    index: nat,
    claimed: Seq<F::ChallengeField>,
    challenges: Seq<ChallengeView<F::ChallengeField>>,
    alphas: Seq<Option<F::ChallengeField>>,
    pads: Seq<PadView<F::Field, F::ChallengeField>>,
    two: bool,
)
    requires
        circuits_fit(gkr.circuits),
        pads_fit(gkr.circuits, pads, gkr.mpi_var_num()),
        index < gkr.layer_num(),
        claimed.len() == gkr.circuits.len(),
        challenges_fit::<F>(
            challenges,
            gkr.circuits.len(),
            gkr.circuits[0].layers@[index as int].output_var_num as nat,
            gkr.mpi_var_num(),
            two,
        ),
        alphas.len() == gkr.circuits.len(),
        forall|i: int| 0 <= i < alphas.len() ==> (#[trigger] alphas[i] is Some <==> two),
    ensures
        layer_at_start(
            gkr.layers_at(index),
            challenges,
            alphas,
            pads,
            gkr.world_size,
            index == gkr.layer_num() - 1,
        ).uniform(),
        gkr.begin_layer(index, claimed, challenges, alphas, pads).0.wf(),
{
    let layer = layer_at_start(
        gkr.layers_at(index),
        challenges,
        alphas,
        pads,
        gkr.world_size,
        index == gkr.layer_num() - 1,
    );
    let n = gkr.circuits.len();
    let j = index as int;
    let shape = gkr.circuits[0].layers@[j];
    assert forall|i: int| 0 <= i < n implies {
        let inst = #[trigger] layer.insts[i];
        &&& inst.wf()
        &&& inst.input_var_num() == shape.input_var_num
        &&& inst.layer.structure_info == shape.structure_info
    } by {
        assert(gkr.circuits[i].wf());
        assert(gkr.circuits[i].layers@[j].wf());
        assert(gkr.circuits[i].layers@[j].same_shape(shape));
        assert(pads[i].holds(
            pow2(shape.input_var_num as nat),
            pow2(shape.output_var_num as nat),
            F::pack_size_spec() as nat,
            pow2(gkr.mpi_var_num()),
        ));
        assert(challenges[i].rz_0.len() == shape.output_var_num);
        assert(alphas[i] is Some <==> two);
    }
    assert(layer.insts[0].input_var_num() == shape.input_var_num);
    assert(layer.insts[0].layer.structure_info == shape.structure_info);
    assert(gpu_sizes_fit(n as int, shape));
    assert(layer.uniform());
    lemma_start_wf(layer);
    let next = layer.start().0;
    assert forall|k: int| 0 <= k < gkr.layer_num() implies next.has_room(
        pow2((#[trigger] gkr.circuits[0].layers@[k]).input_var_num as nat),
        pow2(gkr.circuits[0].layers@[k].output_var_num as nat),
    ) by {
        let other = gkr.circuits[0].layers@[k];
        assert forall|i: int| 0 <= i < n implies (#[trigger] layer.insts[i]).pad.holds(
            pow2(other.input_var_num as nat),
            pow2(other.output_var_num as nat),
            F::pack_size_spec() as nat,
            pow2(layer.insts[i].mpi_var_num),
        ) by {
            assert(pads[i].holds(
                pow2(other.input_var_num as nat),
                pow2(other.output_var_num as nat),
                F::pack_size_spec() as nat,
                pow2(gkr.mpi_var_num()),
            ));
        }
        lemma_start_room(
            layer,
            pow2(other.input_var_num as nat),
            pow2(other.output_var_num as nat),
        );
    }
}

/// What a finished layer leaves fits the circuits.
pub proof fn lemma_layer_done<F: FieldEngine>(gkr: GkrView<F>, index: nat, layer: LayerView<F>)
    requires
        circuits_fit(gkr.circuits),
        index < gkr.layer_num(),
        gkr.layer_fits(index, layer),
        layer.stage is Done,
    ensures
        pads_fit(gkr.circuits, GkrView::<F>::pads_of(layer), gkr.mpi_var_num()),
        challenges_fit::<F>(
            layer.challenges(),
            gkr.circuits.len(),
            gkr.circuits[0].layers@[index as int].input_var_num as nat,
            gkr.mpi_var_num(),
            !layer.skips_phase_two(),
        ),
        index > 0 ==> gkr.circuits[0].layers@[index as int].input_var_num
            == gkr.circuits[0].layers@[index - 1].output_var_num,
{
    let n = gkr.circuits.len();
    let j = index as int;
    let pads = GkrView::<F>::pads_of(layer);
    assert(gkr.circuits[0].wf());
    assert forall|i: int, k: int|
        0 <= i < pads.len() && 0 <= k < gkr.circuits[0].layers@.len() implies (
    #[trigger] pads[i]).holds(
        pow2((#[trigger] gkr.circuits[0].layers@[k]).input_var_num as nat),
        pow2(gkr.circuits[0].layers@[k].output_var_num as nat),
        F::pack_size_spec() as nat,
        pow2(gkr.mpi_var_num()),
    ) by {
        let other = gkr.circuits[0].layers@[k];
        assert(layer.has_room(
            pow2(other.input_var_num as nat),
            pow2(other.output_var_num as nat),
        ));
        assert(layer.insts[i].pad.holds(
            pow2(other.input_var_num as nat),
            pow2(other.output_var_num as nat),
            F::pack_size_spec() as nat,
            pow2(layer.insts[i].mpi_var_num),
        ));
    }
    assert(layer.insts[0].layer == gkr.circuits[0].layers@[j]);
    assert forall|i: int| 0 <= i < n implies {
        let c = #[trigger] layer.challenges()[i];
        &&& c.rz_0.len() == gkr.circuits[0].layers@[j].input_var_num
        &&& c.rz_1 is Some <==> !layer.skips_phase_two()
        &&& c.rz_1 is Some ==> c.rz_1->0.len() == gkr.circuits[0].layers@[j].input_var_num
        &&& c.r_simd.len() == log2_spec(F::pack_size_spec())
        &&& c.r_mpi.len() == gkr.mpi_var_num()
    } by {
        assert(layer.insts[i].rx.len() == layer.input_var_num());
        assert(layer.insts[i].mpi_var_num == layer.mpi_var_num());
    }
}

/// Every step leads from a state that a proof comes through to another.
pub proof fn lemma_gkr_step_wf<F: FieldEngine>(gkr: GkrView<F>, event: GkrEvent<F::ChallengeField>)
    requires
        gkr.wf(),
        gkr.expects(event),
    ensures
        gkr.step(event).0.wf(),
{
    match (gkr.stage, event) {
        (GkrStageView::Claim { challenges, pads }, GkrEvent::Combined { values }) => {
            let claimed = Seq::new(gkr.circuits.len(), |i: int| values[i][0]);
            lemma_begin_layer(
                gkr,
                (gkr.layer_num() - 1) as nat,
                claimed,
                challenges,
                gkr.no_alphas(),
                pads,
                false,
            );
        },
        (GkrStageView::Layer { index, claimed, layer }, GkrEvent::Layer { event }) => {
            lemma_layer_stepped_wf(gkr, index, claimed, layer, event);
        },
        (
            GkrStageView::Alpha { index, claimed, challenges, pads },
            GkrEvent::Alphas { alphas },
        ) => {
            if index > 0 {
                assert(gkr.circuits[0].wf());
                assert(gkr.circuits[0].layers@[index as int].input_var_num
                    == gkr.circuits[0].layers@[index - 1].output_var_num);
                lemma_begin_layer(
                    gkr,
                    (index - 1) as nat,
                    claimed,
                    challenges,
                    Seq::new(gkr.circuits.len(), |i: int| Some(alphas[i])),
                    pads,
                    true,
                );
            }
        },
        _ => {},
    }
}

/// A step of the layer in hand leaves it fitting the circuits.
pub proof fn lemma_layer_stepped<F: FieldEngine>(
    gkr: GkrView<F>,
    index: nat,
    layer: LayerView<F>,
    event: Event<F::ChallengeField>,
)
    requires
        circuits_fit(gkr.circuits),
        index < gkr.layer_num(),
        gkr.layer_fits(index, layer),
        layer.expects(event),
    ensures
        gkr.layer_fits(index, layer.step(event).0),
{
    let next = layer.step(event).0;
    lemma_step_wf(layer, event);
    lemma_step_layers(layer, event);
    assert forall|i: int| 0 <= i < next.insts.len() implies (#[trigger] next.insts[i]).layer
        == gkr.circuits[i].layers@[index as int] && next.insts[i].mpi_var_num
        == gkr.mpi_var_num() by {
        assert(layer.insts[i].layer == gkr.circuits[i].layers@[index as int]);
    }
    assert forall|j: int| 0 <= j < gkr.layer_num() implies next.has_room(
        pow2((#[trigger] gkr.circuits[0].layers@[j]).input_var_num as nat),
        pow2(gkr.circuits[0].layers@[j].output_var_num as nat),
    ) by {
        let other = gkr.circuits[0].layers@[j];
        lemma_step_room(
            layer,
            event,
            pow2(other.input_var_num as nat),
            pow2(other.output_var_num as nat),
        );
    }
}

proof fn lemma_layer_stepped_wf<F: FieldEngine>(
    gkr: GkrView<F>,
    index: nat,
    claimed: Seq<F::ChallengeField>,
    layer: LayerView<F>,
    event: Event<F::ChallengeField>,
)
    requires
        circuits_fit(gkr.circuits),
        index < gkr.layer_num(),
        claimed.len() == gkr.circuits.len(),
        gkr.layer_fits(index, layer),
        layer.expects(event),
    ensures
        gkr.layer_stepped(index, claimed, layer.step(event)).0.wf(),
{
    let next = layer.step(event).0;
    lemma_layer_stepped(gkr, index, layer, event);
    if next.stage is Done {
        lemma_layer_done(gkr, index, next);
        if next.skips_phase_two() && index > 0 {
            lemma_begin_layer(
                gkr,
                (index - 1) as nat,
                claimed,
                next.challenges(),
                gkr.no_alphas(),
                GkrView::<F>::pads_of(next),
                false,
            );
        }
    }
}

} // verus!
