//! Whole proofs that processes make together, and what a verifier finds in their transcripts.

use vstd::arithmetic::power2::*;
use vstd::prelude::*;

use crate::agreement::has_inputs;
use crate::algebra::lemma_dot_commutes;
use crate::chain::{absorbed, column};
use crate::circuit::{ChallengeView, CircuitLayer};
use crate::claims::{shares_valid, stays_on_host};
use crate::dispatch::{lemma_run_front, questions};
use crate::engine::{log2_spec, FieldEngine};
use crate::extension::promoted;
use crate::field::Field;
use crate::gates::computes;
use crate::gkr_protocol::{
    challenges_fit, circuits_fit, eq_table, lemma_begin_layer,
    lemma_gkr_step_wf, lemma_layer_done, lemma_layer_stepped, pads_fit, GkrAsk, GkrEvent,
    GkrStageView, GkrView,
};
use crate::instance::PadView;
use crate::lockstep::{after, all_expected, gkr_after, gkr_all_expected};
use crate::offload::{
    gkr_all_faithful, gkr_from_gpu, gkr_host_events, gkr_pending, gkr_questions, gkr_without_gpu,
    has_valid_inputs, lemma_gkr_gpu_run,
};
use crate::protocol::{Ask, Event, LayerView};
use crate::record::{
    hears_elements, inputs_of, lemma_appended_push, lemma_process_state, share_at, value_at,
};
use crate::rounds::all_valid;
use crate::sumcheck::layer_at_start;
use crate::transcript::{
    answers_at, asked, asks_at, holds_point, is_joint_answer, is_joint_run, lemma_drawn_push,
    lemma_messages_push, lemma_run_in_step, reached, start_together,
};
use crate::verdict::{
    claim_at, claims_of, claims_together, follows, holds_claims, is_complete, joins, layers_by,
    lemma_layer_follows, lemma_layer_joins, lemma_run_leaves, point_left, record_of, rounds_of,
    LayerRecord,
};

verus! {

// ---------------------------------------------------------------------------
// Proofs of all processes
// ---------------------------------------------------------------------------

/// The question that answer `k` is to.
pub open spec fn gkr_asked<F: FieldEngine>(
    gkr: GkrView<F>,
    pads: Seq<PadView<F::Field, F::ChallengeField>>,
    events: Seq<GkrEvent<F::ChallengeField>>,
    k: nat,
) -> GkrAsk<F::ChallengeField> {
    if k == 0 {
        gkr.begin(pads).1
    } else {
        gkr_after(gkr.begin(pads).0, events, (k - 1) as nat).step(events[k - 1]).1
    }
}

/// The questions of all processes that answer `k` is to.
pub open spec fn gkr_asks_at<F: FieldEngine>(
    gkrs: Seq<GkrView<F>>,
    pads: Seq<Seq<PadView<F::Field, F::ChallengeField>>>,
    events: Seq<Seq<GkrEvent<F::ChallengeField>>>,
    k: nat,
) -> Seq<GkrAsk<F::ChallengeField>> {
    Seq::new(gkrs.len(), |p: int| gkr_asked(gkrs[p], pads[p], events[p], k))
}

/// Answer `k` to each process.
pub open spec fn gkr_answers_at<E>(events: Seq<Seq<GkrEvent<E>>>, k: nat) -> Seq<GkrEvent<E>> {
    Seq::new(events.len(), |p: int| events[p][k as int])
}

/// What the layers ask for.
pub open spec fn layer_asks<E>(asks: Seq<GkrAsk<E>>) -> Seq<Ask<E>> {
    Seq::new(asks.len(), |p: int| asks[p]->ask)
}

/// What the layers are answered.
pub open spec fn layer_answers<E>(answers: Seq<GkrEvent<E>>) -> Seq<Event<E>> {
    Seq::new(answers.len(), |p: int| answers[p]->event)
}

/// What the processes are answered to one question each: all hear the same challenges, the root
/// hears the weighted sums of their shares of the claimed outputs, and the layers are answered
/// together.
pub open spec fn is_joint_gkr_answer<E: Field>(
    asks: Seq<GkrAsk<E>>,
    answers: Seq<GkrEvent<E>>,
) -> bool {
    match asks[0] {
        GkrAsk::Sample { .. } | GkrAsk::Alpha { .. } => forall|p: int|
            0 <= p < answers.len() ==> #[trigger] answers[p] == answers[0],
        GkrAsk::Combine { values, coefs } => answers[0] == (GkrEvent::Combined {
            values: Seq::new(
                values.len(),
                |i: int|
                    absorbed(
                        coefs[i],
                        Seq::new(asks.len(), |p: int| asks[p]->values[i]),
                        values[i].len(),
                    ),
            ),
        }),
        GkrAsk::Layer { .. } => is_joint_answer(layer_asks(asks), layer_answers(answers)),
        GkrAsk::Finished => true,
    }
}

/// No GPU becomes ready.
pub open spec fn gkr_stays_on_host<E>(event: GkrEvent<E>) -> bool {
    match event {
        GkrEvent::Layer { event } => stays_on_host(event),
        _ => true,
    }
}

/// The processes make a proof together on the host.
pub open spec fn is_joint_proof<F: FieldEngine>(
    gkrs: Seq<GkrView<F>>,
    pads: Seq<Seq<PadView<F::Field, F::ChallengeField>>>,
    events: Seq<Seq<GkrEvent<F::ChallengeField>>>,
) -> bool {
    &&& events.len() == gkrs.len()
    &&& forall|p: int|
        0 <= p < gkrs.len() ==> {
            &&& (#[trigger] events[p]).len() == events[0].len()
            &&& gkr_all_expected(gkrs[p].begin(pads[p]).0, events[p])
            &&& forall|k: int|
                0 <= k < events[p].len() ==> gkr_stays_on_host(#[trigger] events[p][k])
        }
    &&& forall|k: nat|
        k < events[0].len() ==> is_joint_gkr_answer(
            #[trigger] gkr_asks_at(gkrs, pads, events, k),
            gkr_answers_at(events, k),
        )
}

/// The shares and the coefficients in an answer are in canonical form.
pub open spec fn is_heard_right<E: Field>(event: GkrEvent<E>, world: nat) -> bool {
    match event {
        GkrEvent::Layer { event } => shares_valid(event, pow2(world)),
        GkrEvent::Alphas { alphas } => all_valid(alphas, alphas.len()),
        _ => true,
    }
}

/// So they are in all answers.
pub open spec fn gkr_hears_elements<F: FieldEngine>(
    gkrs: Seq<GkrView<F>>,
    events: Seq<Seq<GkrEvent<F::ChallengeField>>>,
) -> bool {
    forall|p: int, k: int|
        0 <= p < events.len() && 0 <= k < events[p].len() ==> is_heard_right(
            #[trigger] events[p][k],
            gkrs[0].mpi_var_num(),
        )
}

/// The circuits have the shape of those of the root.
pub open spec fn is_like<F: FieldEngine>(gkr: GkrView<F>, root: GkrView<F>) -> bool {
    &&& gkr.circuits.len() == root.circuits.len()
    &&& gkr.world_size == root.world_size
    &&& gkr.layer_num() == root.layer_num()
    &&& forall|j: int|
        0 <= j < root.layer_num() ==> (#[trigger] gkr.circuits[0].layers@[j]).same_shape(
            root.circuits[0].layers@[j],
        )
}

/// A process can start on a proof.
pub open spec fn can_start<F: FieldEngine>(
    gkr: GkrView<F>,
    pads: Seq<PadView<F::Field, F::ChallengeField>>,
) -> bool {
    &&& circuits_fit(gkr.circuits)
    &&& pads_fit(gkr.circuits, pads, gkr.mpi_var_num())
    &&& has_inputs(gkr)
    &&& has_valid_inputs(gkr)
}

/// The processes are about to prove circuits of one shape.
pub open spec fn prove_together<F: FieldEngine>(
    gkrs: Seq<GkrView<F>>,
    pads: Seq<Seq<PadView<F::Field, F::ChallengeField>>>,
) -> bool {
    &&& gkrs.len() == pow2(gkrs[0].mpi_var_num())
    &&& pads.len() == gkrs.len()
    &&& forall|p: int|
        0 <= p < gkrs.len() ==> can_start(#[trigger] gkrs[p], pads[p]) && is_like(gkrs[p], gkrs[0])
}

/// Layer `m` of instance `i`, counted from the outputs.
pub open spec fn layer_of<F: FieldEngine>(gkr: GkrView<F>, i: int, m: nat) -> CircuitLayer<F> {
    gkr.circuits[i].layers@[gkr.layer_num() - 1 - m]
}

/// Layer `m` of instance `i`, by process.
pub open spec fn layers_on<F: FieldEngine>(gkrs: Seq<GkrView<F>>, i: int, m: nat) -> Seq<
    CircuitLayer<F>,
> {
    Seq::new(gkrs.len(), |p: int| layer_of(gkrs[p], i, m))
}

/// The inputs of layer `m` of instance `i`, by process.
pub open spec fn ins_of<F: FieldEngine>(gkrs: Seq<GkrView<F>>, i: int, m: nat) -> Seq<
    Seq<F::SimdCircuitField>,
> {
    Seq::new(gkrs.len(), |p: int| layer_of(gkrs[p], i, m).input_vals@)
}

/// The outputs of layer `m` of instance `i`, by process: those of the circuit, or the inputs of
/// the layer that comes next in the circuit.
pub open spec fn outs_of<F: FieldEngine>(gkrs: Seq<GkrView<F>>, i: int, m: nat) -> Seq<
    Seq<F::SimdCircuitField>,
> {
    if m == 0 {
        Seq::new(gkrs.len(), |p: int| layer_of(gkrs[p], i, 0).output_vals@)
    } else {
        ins_of(gkrs, i, (m - 1) as nat)
    }
}

/// The wire values of instance `i` are those that the gates compute, layer by layer.
pub open spec fn computes_all<F: FieldEngine>(gkrs: Seq<GkrView<F>>, i: int) -> bool {
    forall|p: int, m: nat|
        0 <= p < gkrs.len() && m < gkrs[0].layer_num() ==> computes(
            #[trigger] layer_of(gkrs[p], i, m),
            outs_of(gkrs, i, m)[p],
        )
}

// ---------------------------------------------------------------------------
// The layer in hand
// ---------------------------------------------------------------------------

/// With two claims about a layer, the scratch pad holds the tables of the first point.
pub open spec fn pad_holds<F: FieldEngine>(
    pad: PadView<F::Field, F::ChallengeField>,
    point: ChallengeView<F::ChallengeField>,
) -> bool {
    point.rz_1 is Some ==> {
        &&& forall|k: int|
            0 <= k < pow2(point.rz_0.len()) ==> #[trigger] pad.eq_rx[k] == eq_table(point.rz_0)[k]
        &&& forall|l: int|
            0 <= l < F::pack_size_spec() ==> #[trigger] pad.eq_simd[l] == eq_table(point.r_simd)[l]
        &&& forall|k: int|
            0 <= k < pow2(point.r_mpi.len()) ==> #[trigger] pad.eq_mpi[k] == eq_table(
                point.r_mpi,
            )[k]
    }
}

/// The layers that the processes take in hand together.
pub open spec fn starts_at<F: FieldEngine>(
    gkrs: Seq<GkrView<F>>,
    index: nat,
    challenges: Seq<ChallengeView<F::ChallengeField>>,
    alphas: Seq<Option<F::ChallengeField>>,
    pads: Seq<Seq<PadView<F::Field, F::ChallengeField>>>,
) -> Seq<LayerView<F>> {
    Seq::new(
        gkrs.len(),
        |p: int|
            layer_at_start(
                gkrs[p].layers_at(index),
                challenges,
                alphas,
                pads[p],
                gkrs[p].world_size,
                index == gkrs[p].layer_num() - 1,
            ),
    )
}

/// The claims that a layer is to be taken in hand with.
pub open spec fn can_take<F: FieldEngine>(
    gkrs: Seq<GkrView<F>>,
    index: nat,
    challenges: Seq<ChallengeView<F::ChallengeField>>,
    alphas: Seq<Option<F::ChallengeField>>,
    pads: Seq<Seq<PadView<F::Field, F::ChallengeField>>>,
    two: bool,
) -> bool {
    let root = gkrs[0];
    &&& index < root.layer_num()
    &&& index == root.layer_num() - 1 ==> !two
    &&& challenges_fit::<F>(
        challenges,
        root.circuits.len(),
        root.circuits[0].layers@[index as int].output_var_num as nat,
        root.mpi_var_num(),
        two,
    )
    &&& alphas.len() == root.circuits.len()
    &&& forall|i: int| 0 <= i < alphas.len() ==> (#[trigger] alphas[i] is Some <==> two)
    &&& forall|i: int| 0 <= i < alphas.len() && two ==> (#[trigger] alphas[i])->0.valid()
    &&& pads.len() == gkrs.len()
    &&& forall|p: int|
        0 <= p < gkrs.len() ==> pads_fit(
            gkrs[p].circuits,
            #[trigger] pads[p],
            root.mpi_var_num(),
        )
    &&& forall|p: int, i: int|
        0 <= p < gkrs.len() && 0 <= i < root.circuits.len() ==> pad_holds::<F>(
            #[trigger] pads[p][i],
            challenges[i],
        )
}

/// No answers yet.
pub open spec fn no_answers<E>(n: nat) -> Seq<Seq<Event<E>>> {
    Seq::new(n, |p: int| Seq::empty())
}

/// Layers that are taken in hand with fitting claims start together.
proof fn lemma_layers_start<F: FieldEngine>(
    gkrs: Seq<GkrView<F>>,
    starting: Seq<Seq<PadView<F::Field, F::ChallengeField>>>,
    index: nat,
    challenges: Seq<ChallengeView<F::ChallengeField>>,
    alphas: Seq<Option<F::ChallengeField>>,
    pads: Seq<Seq<PadView<F::Field, F::ChallengeField>>>,
    two: bool,
)
    requires
        prove_together(gkrs, starting),
        can_take(gkrs, index, challenges, alphas, pads, two),
    ensures
        start_together(starts_at(gkrs, index, challenges, alphas, pads)),
        is_joint_run(
            starts_at(gkrs, index, challenges, alphas, pads),
            no_answers::<F::ChallengeField>(gkrs.len()),
        ),
        forall|p: int, i: int|
            0 <= p < gkrs.len() && 0 <= i < gkrs[0].circuits.len() ==> holds_claims(
                #[trigger] starts_at(gkrs, index, challenges, alphas, pads)[p].insts[i],
            ),
{
    let starts = starts_at(gkrs, index, challenges, alphas, pads);
    let root = gkrs[0];
    let j = index as int;
    let shape = root.circuits[0].layers@[j];
    lemma_pow2_pos(root.mpi_var_num());
    assert(can_start(gkrs[0], starting[0]));
    assert forall|p: int| 0 <= p < gkrs.len() implies {
        let layer = #[trigger] starts[p];
        &&& layer.uniform()
        &&& !layer.gpu
        &&& layer.seen(0, 0, 0, 0)
        &&& layer.insts.len() == root.circuits.len()
        &&& layer.input_var_num() == shape.input_var_num
        &&& layer.mpi_var_num() == root.mpi_var_num()
        &&& layer.skips_phase_two() == shape.structure_info.skip_sumcheck_phase_two
    } by {
        let gkr = gkrs[p];
        assert(can_start(gkr, starting[p]) && is_like(gkr, root));
        assert(gkr.circuits[0].layers@[j].same_shape(shape));
        assert(pads_fit(gkr.circuits, pads[p], root.mpi_var_num()));
        lemma_begin_layer(
            gkr,
            index,
            Seq::new(gkr.circuits.len(), |i: int| F::ChallengeField::zero_spec()),
            challenges,
            alphas,
            pads[p],
            two,
        );
        let layer = starts[p];
        assert(layer.insts[0].layer == gkr.circuits[0].layers@[j]);
    }
    assert(starts[0].insts.len() == root.circuits.len());
    assert forall|p: int, i: int| 0 <= p < gkrs.len() && 0 <= i < root.circuits.len() implies {
        let inst = #[trigger] starts[p].insts[i];
        &&& all_valid(promoted::<F>(inst.layer.input_vals@), pow2(shape.input_var_num as nat))
        &&& inst.challenge == challenges[i]
        &&& holds_point(inst)
        &&& holds_claims(inst)
    } by {
        let gkr = gkrs[p];
        assert(can_start(gkr, starting[p]) && is_like(gkr, root));
        assert(gkr.circuits[0].layers@[j].same_shape(shape));
        assert(gkr.circuits[i].layers@[j].same_shape(gkr.circuits[0].layers@[j]));
        assert(all_valid(
            promoted::<F>(gkr.circuits[i].layers@[j].input_vals@),
            pow2(gkr.circuits[0].layers@[j].input_var_num as nat),
        ));
        assert(pad_holds::<F>(pads[p][i], challenges[i]));
        assert(challenges[i].rz_0.len() == shape.output_var_num);
        assert(alphas[i] is Some <==> two);
        let inst = starts[p].insts[i];
        assert(inst.pad == pads[p][i]);
    }
    assert(root.circuits[0].layers@[j].input_var_num >= 1);
    assert(start_together(starts));
    assert(is_joint_run(starts, no_answers::<F::ChallengeField>(gkrs.len())));
}

/// One answer more to each process.
pub open spec fn answered<E>(events: Seq<Seq<Event<E>>>, answers: Seq<Event<E>>) -> Seq<
    Seq<Event<E>>,
> {
    Seq::new(events.len(), |p: int| events[p].push(answers[p]))
}

/// A joint run goes on with a joint answer.
proof fn lemma_joint_push<F: FieldEngine>(
    starts: Seq<LayerView<F>>,
    events: Seq<Seq<Event<F::ChallengeField>>>,
    answers: Seq<Event<F::ChallengeField>>,
)
    requires
        starts.len() > 0,
        is_joint_run(starts, events),
        answers.len() == starts.len(),
        forall|p: int|
            0 <= p < starts.len() ==> reached(
                starts[p],
                events[p],
                events[0].len(),
            ).expects(#[trigger] answers[p]) && stays_on_host(answers[p]),
        is_joint_answer(asks_at(starts, events, events[0].len()), answers),
    ensures
        is_joint_run(starts, answered(events, answers)),
        forall|p: int|
            0 <= p < starts.len() ==> {
                let then = answered(events, answers);
                let n = events[0].len();
                let step = reached(#[trigger] starts[p], events[p], n).step(answers[p]);
                &&& events[p].len() == n
                &&& then[p].len() == n + 1
                &&& reached(starts[p], then[p], n + 1) == step.0
                &&& asked(starts[p], then[p], n + 1) == step.1
            },
{
    let then = answered(events, answers);
    let n = events[0].len();
    assert(events[0].len() == events[0].len());
    assert forall|p: int, k: nat| 0 <= p < starts.len() && k <= n implies #[trigger] reached(
        starts[p],
        then[p],
        k,
    ) == reached(starts[p], events[p], k) by {
        assert(events[p].len() == n);
        lemma_run_front(starts[p].start().0, events[p], answers[p], k);
    }
    assert forall|p: int, k: nat| 0 <= p < starts.len() && k <= n implies #[trigger] asked(
        starts[p],
        then[p],
        k,
    ) == asked(starts[p], events[p], k) by {
        assert(events[p].len() == n);
        if k > 0 {
            assert(reached(starts[p], then[p], (k - 1) as nat) == reached(
                starts[p],
                events[p],
                (k - 1) as nat,
            ));
            assert(then[p][k - 1] == events[p][k - 1]);
        }
    }
    assert forall|p: int| 0 <= p < starts.len() implies {
        &&& (#[trigger] then[p]).len() == then[0].len()
        &&& all_expected(starts[p].start().0, then[p])
        &&& forall|k: int| 0 <= k < then[p].len() ==> stays_on_host(#[trigger] then[p][k])
    } by {
        assert(events[p].len() == n);
        assert(all_expected(starts[p].start().0, events[p]));
        assert forall|k: int| 0 <= k < then[p].len() implies (#[trigger] after(
            starts[p].start().0,
            then[p],
            k as nat,
        )).expects(then[p][k]) by {
            assert(reached(starts[p], then[p], k as nat) == reached(
                starts[p],
                events[p],
                k as nat,
            ));
            if k < n {
                assert(after(starts[p].start().0, events[p], k as nat).expects(events[p][k]));
            } else {
                assert(reached(starts[p], events[p], n).expects(answers[p]));
            }
        }
        assert forall|k: int| 0 <= k < then[p].len() implies stays_on_host(
            #[trigger] then[p][k],
        ) by {
            if k < n {
                assert(stays_on_host(events[p][k]));
            } else {
                assert(reached(starts[p], events[p], n).expects(answers[p]));
            }
        }
    }
    assert forall|k: nat| k < then[0].len() implies is_joint_answer(
        #[trigger] asks_at(starts, then, k),
        answers_at(then, k),
    ) by {
        assert forall|p: int| 0 <= p < starts.len() implies #[trigger] asks_at(starts, then, k)[p]
            == asks_at(starts, events, k)[p] by {
            assert(asked(starts[p], then[p], k) == asked(starts[p], events[p], k));
        }
        assert(asks_at(starts, then, k) =~= asks_at(starts, events, k));
        if k < n {
            assert forall|p: int| 0 <= p < starts.len() implies #[trigger] answers_at(then, k)[p]
                == answers_at(events, k)[p] by {
                assert(events[p].len() == n);
            }
            assert(answers_at(then, k) =~= answers_at(events, k));
        } else {
            assert forall|p: int| 0 <= p < starts.len() implies #[trigger] answers_at(then, k)[p]
                == answers[p] by {
                assert(events[p].len() == n);
            }
            assert(answers_at(then, k) =~= answers);
        }
    }
    assert forall|p: int| 0 <= p < starts.len() implies {
        let step = reached(#[trigger] starts[p], events[p], n).step(answers[p]);
        &&& events[p].len() == n
        &&& then[p].len() == n + 1
        &&& reached(starts[p], then[p], n + 1) == step.0
        &&& asked(starts[p], then[p], n + 1) == step.1
    } by {
        assert(events[p].len() == n);
        assert(reached(starts[p], then[p], n) == reached(starts[p], events[p], n));
        assert(then[p][n as int] == answers[p]);
    }
}

// ---------------------------------------------------------------------------
// The record of a proof
// ---------------------------------------------------------------------------

/// What the transcript of one instance holds of a proof, each kind in order.
#[verifier::ext_equal]
pub struct ProofRecord<E> {
    /// The points that were drawn for the outputs.
    pub sampled: Seq<ChallengeView<E>>,
    /// The claimed outputs.
    pub claimed: Seq<E>,
    /// The values of each round, over all layers.
    pub sent: Seq<Seq<E>>,
    /// The challenges that were drawn after them.
    pub drawn: Seq<E>,
    /// The claims that the layers leave.
    pub told: Seq<E>,
    /// The coefficients that combine the claims of a layer.
    pub alphas: Seq<E>,
}

/// What a question and an answer add to the record of instance `i`.
pub open spec fn noted<E>(
    record: ProofRecord<E>,
    event: GkrEvent<E>,
    ask: GkrAsk<E>,
    i: int,
) -> ProofRecord<E> {
    ProofRecord {
        sampled: match event {
            GkrEvent::Sampled { challenges } => record.sampled.push(challenges[i]),
            _ => record.sampled,
        },
        claimed: match event {
            GkrEvent::Combined { values } => record.claimed.push(values[i][0]),
            _ => record.claimed,
        },
        sent: match ask {
            GkrAsk::Layer { ask: Ask::Challenge { evals } } => record.sent.push(evals[i]),
            _ => record.sent,
        },
        drawn: match event {
            GkrEvent::Layer { event: Event::Challenged { r } } => record.drawn.push(r[i]),
            _ => record.drawn,
        },
        told: match ask {
            GkrAsk::Layer { ask: Ask::Append { claims } } => record.told.push(claims[i]),
            _ => record.told,
        },
        alphas: match event {
            GkrEvent::Alphas { alphas } => record.alphas.push(alphas[i]),
            _ => record.alphas,
        },
    }
}

/// The record of instance `i` after `n` answers.
pub open spec fn proof_record<F: FieldEngine>(
    gkr: GkrView<F>,
    events: Seq<GkrEvent<F::ChallengeField>>,
    n: nat,
    i: int,
) -> ProofRecord<F::ChallengeField>
    decreases n,
{
    if n == 0 {
        ProofRecord {
            sampled: Seq::empty(),
            claimed: Seq::empty(),
            sent: Seq::empty(),
            drawn: Seq::empty(),
            told: Seq::empty(),
            alphas: Seq::empty(),
        }
    } else {
        let m = (n - 1) as nat;
        noted(
            proof_record(gkr, events, m, i),
            events[m as int],
            gkr_after(gkr, events, m).step(events[m as int]).1,
            i,
        )
    }
}

/// How many rounds come before layer `m`.
pub open spec fn rounds_before<F: FieldEngine>(gkr: GkrView<F>, i: int, m: nat) -> nat
    decreases m,
{
    if m == 0 {
        0
    } else {
        let k = (m - 1) as nat;
        rounds_before(gkr, i, k) + rounds_of(layer_of(gkr, i, k), gkr.mpi_var_num())
    }
}

/// How many claims come before those of layer `m`.
pub open spec fn claims_before<F: FieldEngine>(gkr: GkrView<F>, i: int, m: nat) -> nat
    decreases m,
{
    if m == 0 {
        0
    } else {
        let k = (m - 1) as nat;
        claims_before(gkr, i, k) + claims_of(layer_of(gkr, i, k))
    }
}

/// Layer `m` leaves one claim alone.
pub open spec fn leaves_one<F: FieldEngine>(gkr: GkrView<F>, i: int, m: nat) -> bool {
    layer_of(gkr, i, m).structure_info.skip_sumcheck_phase_two
}

/// How many of the layers before layer `m` leave two claims, which a coefficient combines.
pub open spec fn alphas_before<F: FieldEngine>(gkr: GkrView<F>, i: int, m: nat) -> nat
    decreases m,
{
    if m == 0 {
        0
    } else {
        let k = (m - 1) as nat;
        alphas_before(gkr, i, k) + if leaves_one(gkr, i, k) {
            0nat
        } else {
            1nat
        }
    }
}

/// The entries from `from` on, `n` at most.
pub open spec fn cut<T>(s: Seq<T>, from: nat, n: nat) -> Seq<T> {
    if from >= s.len() {
        Seq::empty()
    } else if from + n >= s.len() {
        s.skip(from as int)
    } else {
        s.subrange(from as int, (from + n) as int)
    }
}

/// The part of a record that is about layer `m`.
pub open spec fn part_on<F: FieldEngine>(
    gkr: GkrView<F>,
    i: int,
    record: ProofRecord<F::ChallengeField>,
    m: nat,
) -> LayerRecord<F::ChallengeField> {
    let layer = layer_of(gkr, i, m);
    let rounds = rounds_of(layer, gkr.mpi_var_num());
    LayerRecord {
        sent: cut(record.sent, rounds_before(gkr, i, m), rounds),
        drawn: cut(record.drawn, rounds_before(gkr, i, m), rounds),
        told: cut(record.told, claims_before(gkr, i, m), claims_of(layer)),
    }
}

/// The points that the claims on layer `m` are about: for the first layer the one that was
/// sampled, else those of the challenges that were drawn in the layer before.
pub open spec fn point_on<F: FieldEngine>(
    gkr: GkrView<F>,
    i: int,
    record: ProofRecord<F::ChallengeField>,
    m: nat,
) -> ChallengeView<F::ChallengeField> {
    if m == 0 {
        record.sampled[0]
    } else {
        let k = (m - 1) as nat;
        point_left(layer_of(gkr, i, k), gkr.mpi_var_num(), part_on(gkr, i, record, k).drawn)
    }
}

/// The coefficient that combines the claims on layer `m`: the one that was drawn for it.
pub open spec fn alpha_on<F: FieldEngine>(
    gkr: GkrView<F>,
    i: int,
    record: ProofRecord<F::ChallengeField>,
    m: nat,
) -> Option<F::ChallengeField> {
    if m == 0 || leaves_one(gkr, i, (m - 1) as nat) {
        None
    } else {
        Some(record.alphas[alphas_before(gkr, i, (m - 1) as nat) as int])
    }
}

/// What is claimed of the outputs of layer `m`: for the first layer the claimed output, else the
/// claim that the layer before has left, or the first one plus the coefficient times the second.
pub open spec fn value_on<F: FieldEngine>(
    gkr: GkrView<F>,
    i: int,
    record: ProofRecord<F::ChallengeField>,
    m: nat,
) -> F::ChallengeField {
    if m == 0 {
        record.claimed[0]
    } else {
        let told = part_on(gkr, i, record, (m - 1) as nat).told;
        match alpha_on(gkr, i, record, m) {
            None => told[0],
            Some(alpha) => told[0].plus_spec(alpha.times_spec(told[1])),
        }
    }
}

/// The part of a record that is about layer `m` is that of a proof of what is claimed of it, and
/// its phases join.
pub open spec fn layer_holds<F: FieldEngine>(
    gkrs: Seq<GkrView<F>>,
    i: int,
    record: ProofRecord<F::ChallengeField>,
    m: nat,
) -> bool {
    let root = gkrs[0];
    &&& follows(
        layer_of(root, i, m),
        root.mpi_var_num(),
        ins_of(gkrs, i, m),
        value_on(root, i, record, m),
        part_on(root, i, record, m),
    )
    &&& joins(
        layers_on(gkrs, i, m),
        root.mpi_var_num(),
        point_on(root, i, record, m),
        alpha_on(root, i, record, m),
        part_on(root, i, record, m),
    )
}

/// It is so, and it is complete.
pub open spec fn layer_stands<F: FieldEngine>(
    gkrs: Seq<GkrView<F>>,
    i: int,
    record: ProofRecord<F::ChallengeField>,
    m: nat,
) -> bool {
    &&& layer_holds(gkrs, i, record, m)
    &&& is_complete(
        layer_of(gkrs[0], i, m),
        gkrs[0].mpi_var_num(),
        part_on(gkrs[0], i, record, m),
    )
}

/// The claimed output is the value of the outputs at the point that was sampled.
pub open spec fn output_holds<F: FieldEngine>(
    gkrs: Seq<GkrView<F>>,
    i: int,
    record: ProofRecord<F::ChallengeField>,
) -> bool {
    let point = record.sampled[0];
    record.sampled.len() == 1 && record.claimed.len() == 1 && record.claimed[0] == value_at::<F>(
        outs_of(gkrs, i, 0),
        point.rz_0,
        point.r_simd,
        point.r_mpi,
    )
}

// ---------------------------------------------------------------------------
// Where a proof stands
// ---------------------------------------------------------------------------

/// The claimed output and the first `m` layers are proved.
spec fn settled<F: FieldEngine>(
    gkrs: Seq<GkrView<F>>,
    i: int,
    record: ProofRecord<F::ChallengeField>,
    m: nat,
) -> bool {
    &&& output_holds(gkrs, i, record)
    &&& record.sampled[0].rz_1 is None
    &&& forall|q: nat| q < m ==> #[trigger] layer_stands(gkrs, i, record, q)
}

/// The record holds the first `m` layers and nothing more of the rounds.
spec fn ends_with<F: FieldEngine>(
    gkr: GkrView<F>,
    i: int,
    record: ProofRecord<F::ChallengeField>,
    m: nat,
) -> bool {
    &&& record.sent.len() == rounds_before(gkr, i, m)
    &&& record.drawn.len() == rounds_before(gkr, i, m)
    &&& record.told.len() == claims_before(gkr, i, m)
}

/// The record holds the first `m` layers, and then that of the layer in hand.
spec fn goes_on<F: FieldEngine>(
    gkr: GkrView<F>,
    i: int,
    record: ProofRecord<F::ChallengeField>,
    m: nat,
    now: LayerRecord<F::ChallengeField>,
) -> bool {
    let rounds = rounds_before(gkr, i, m);
    let claims = claims_before(gkr, i, m);
    &&& rounds <= record.sent.len()
    &&& rounds <= record.drawn.len()
    &&& claims <= record.told.len()
    &&& record.sent.skip(rounds as int) == now.sent
    &&& record.drawn.skip(rounds as int) == now.drawn
    &&& record.told.skip(claims as int) == now.told
}

/// One record goes on from another.
spec fn extends<E>(a: ProofRecord<E>, b: ProofRecord<E>) -> bool {
    &&& b.sampled == a.sampled
    &&& b.claimed == a.claimed
    &&& a.sent.is_prefix_of(b.sent)
    &&& a.drawn.is_prefix_of(b.drawn)
    &&& a.told.is_prefix_of(b.told)
    &&& a.alphas.is_prefix_of(b.alphas)
}

proof fn lemma_before_grows<F: FieldEngine>(gkr: GkrView<F>, i: int, k: nat, m: nat)
    requires
        k < m,
    ensures
        rounds_before(gkr, i, k) + rounds_of(layer_of(gkr, i, k), gkr.mpi_var_num())
            <= rounds_before(gkr, i, m),
        claims_before(gkr, i, k) + claims_of(layer_of(gkr, i, k)) <= claims_before(gkr, i, m),
        alphas_before(gkr, i, k) <= alphas_before(gkr, i, m),
        !leaves_one(gkr, i, k) ==> alphas_before(gkr, i, k) < alphas_before(gkr, i, m),
    decreases m,
{
    if k + 1 < m {
        lemma_before_grows(gkr, i, k, (m - 1) as nat);
    }
}

/// A part that is complete stays as it is.
proof fn lemma_cut_prefix<T>(s: Seq<T>, t: Seq<T>, from: nat, n: nat)
    requires
        s.is_prefix_of(t),
        from + n <= s.len(),
    ensures
        cut(s, from, n) == cut(t, from, n),
{
    assert(cut(s, from, n) =~= cut(t, from, n));
}

proof fn lemma_part_extends<F: FieldEngine>(
    gkr: GkrView<F>,
    i: int,
    a: ProofRecord<F::ChallengeField>,
    b: ProofRecord<F::ChallengeField>,
    m: nat,
    q: nat,
)
    requires
        extends(a, b),
        q < m,
        rounds_before(gkr, i, m) <= a.sent.len(),
        rounds_before(gkr, i, m) <= a.drawn.len(),
        claims_before(gkr, i, m) <= a.told.len(),
    ensures
        part_on(gkr, i, a, q) == part_on(gkr, i, b, q),
{
    let layer = layer_of(gkr, i, q);
    let rounds = rounds_of(layer, gkr.mpi_var_num());
    lemma_before_grows(gkr, i, q, m);
    lemma_cut_prefix(a.sent, b.sent, rounds_before(gkr, i, q), rounds);
    lemma_cut_prefix(a.drawn, b.drawn, rounds_before(gkr, i, q), rounds);
    lemma_cut_prefix(a.told, b.told, claims_before(gkr, i, q), claims_of(layer));
}

/// What is claimed of a layer stays as it is.
proof fn lemma_claim_extends<F: FieldEngine>(
    gkr: GkrView<F>,
    i: int,
    a: ProofRecord<F::ChallengeField>,
    b: ProofRecord<F::ChallengeField>,
    m: nat,
)
    requires
        extends(a, b),
        rounds_before(gkr, i, m) <= a.sent.len(),
        rounds_before(gkr, i, m) <= a.drawn.len(),
        claims_before(gkr, i, m) <= a.told.len(),
        alphas_before(gkr, i, m) <= a.alphas.len(),
    ensures
        point_on(gkr, i, a, m) == point_on(gkr, i, b, m),
        alpha_on(gkr, i, a, m) == alpha_on(gkr, i, b, m),
        value_on(gkr, i, a, m) == value_on(gkr, i, b, m),
{
    if m > 0 {
        lemma_part_extends(gkr, i, a, b, m, (m - 1) as nat);
    }
}

proof fn lemma_settled_extends<F: FieldEngine>(
    gkrs: Seq<GkrView<F>>,
    i: int,
    a: ProofRecord<F::ChallengeField>,
    b: ProofRecord<F::ChallengeField>,
    m: nat,
)
    requires
        extends(a, b),
        settled(gkrs, i, a, m),
        rounds_before(gkrs[0], i, m) <= a.sent.len(),
        rounds_before(gkrs[0], i, m) <= a.drawn.len(),
        claims_before(gkrs[0], i, m) <= a.told.len(),
        m > 0 ==> alphas_before(gkrs[0], i, (m - 1) as nat) <= a.alphas.len(),
    ensures
        settled(gkrs, i, b, m),
{
    let gkr = gkrs[0];
    assert forall|q: nat| q < m implies #[trigger] layer_stands(gkrs, i, b, q) by {
        assert(layer_stands(gkrs, i, a, q));
        lemma_before_grows(gkr, i, q, m);
        if q < m - 1 {
            lemma_before_grows(gkr, i, q, (m - 1) as nat);
        }
        lemma_part_extends(gkr, i, a, b, m, q);
        lemma_claim_extends(gkr, i, a, b, q);
    }
}

/// The part about the layer in hand.
proof fn lemma_part_now<F: FieldEngine>(
    gkr: GkrView<F>,
    i: int,
    record: ProofRecord<F::ChallengeField>,
    m: nat,
    now: LayerRecord<F::ChallengeField>,
)
    requires
        goes_on(gkr, i, record, m, now),
        now.sent.len() <= rounds_of(layer_of(gkr, i, m), gkr.mpi_var_num()),
        now.drawn.len() <= rounds_of(layer_of(gkr, i, m), gkr.mpi_var_num()),
        now.told.len() <= claims_of(layer_of(gkr, i, m)),
    ensures
        part_on(gkr, i, record, m) == now,
{
    let part = part_on(gkr, i, record, m);
    assert(part.sent =~= now.sent);
    assert(part.drawn =~= now.drawn);
    assert(part.told =~= now.told);
}

/// What the layers before have left is what is claimed of a layer.
proof fn lemma_value_on<F: FieldEngine>(
    gkrs: Seq<GkrView<F>>,
    i: int,
    record: ProofRecord<F::ChallengeField>,
    m: nat,
)
    requires
        settled(gkrs, i, record, m),
    ensures
        value_on(gkrs[0], i, record, m) == claim_at::<F>(
            outs_of(gkrs, i, m),
            point_on(gkrs[0], i, record, m),
            alpha_on(gkrs[0], i, record, m),
        ),
{
    if m > 0 {
        assert(layer_stands(gkrs, i, record, (m - 1) as nat));
    }
}

/// Layer `m` is in hand: the processes have started on it together, from the claims that the
/// record holds, and have been answered `seg` since.
spec fn in_hand<F: FieldEngine>(
    gkrs: Seq<GkrView<F>>,
    i: int,
    record: ProofRecord<F::ChallengeField>,
    m: nat,
    starts: Seq<LayerView<F>>,
    seg: Seq<Seq<Event<F::ChallengeField>>>,
) -> bool {
    let root = gkrs[0];
    &&& m < root.layer_num()
    &&& settled(gkrs, i, record, m)
    &&& record.alphas.len() == alphas_before(root, i, m)
    &&& goes_on(root, i, record, m, record_of(starts[0], seg[0], i))
    &&& start_together(starts)
    &&& is_joint_run(starts, seg)
    &&& hears_elements(starts, seg)
    &&& starts.len() == gkrs.len()
    &&& starts[0].insts.len() == root.circuits.len()
    &&& starts[0].mpi_var_num() == root.mpi_var_num()
    &&& starts[0].skips_phase_two() == leaves_one(root, i, m)
    &&& claims_together(starts, outs_of(gkrs, i, m), i)
    &&& starts[0].insts[i].challenge == point_on(root, i, record, m)
    &&& starts[0].insts[i].alpha == alpha_on(root, i, record, m)
    &&& forall|p: int|
        0 <= p < gkrs.len() ==> (#[trigger] starts[p]).insts[i].layer == layer_of(gkrs[p], i, m)
}

/// The part of the record that is about the layer in hand is that of a proof of its claim.
proof fn lemma_in_hand<F: FieldEngine>(
    gkrs: Seq<GkrView<F>>,
    i: int,
    record: ProofRecord<F::ChallengeField>,
    m: nat,
    starts: Seq<LayerView<F>>,
    seg: Seq<Seq<Event<F::ChallengeField>>>,
)
    requires
        gkrs.len() > 0,
        0 <= i < gkrs[0].circuits.len(),
        in_hand(gkrs, i, record, m, starts, seg),
    ensures
        layer_holds(gkrs, i, record, m),
        part_on(gkrs[0], i, record, m) == record_of(starts[0], seg[0], i),
        reached(starts[0], seg[0], seg[0].len()).stage is Done ==> {
            &&& settled(gkrs, i, record, m + 1)
            &&& ends_with(gkrs[0], i, record, m + 1)
            &&& reached(starts[0], seg[0], seg[0].len()).challenges()[i] == point_on(
                gkrs[0],
                i,
                record,
                m + 1,
            )
        },
{
    let now = record_of(starts[0], seg[0], i);
    lemma_layer_follows(starts, seg, outs_of(gkrs, i, m), i);
    lemma_layer_joins(starts, seg, outs_of(gkrs, i, m), i);
    assert(layers_by(starts, i) =~= layers_on(gkrs, i, m)) by {
        assert forall|p: int| 0 <= p < gkrs.len() implies #[trigger] layers_by(starts, i)[p]
            == layers_on(gkrs, i, m)[p] by {
            assert(starts[p].insts[i].layer == layer_of(gkrs[p], i, m));
        }
    }
    assert(starts[0].insts[i].layer == layer_of(gkrs[0], i, m));
    assert(inputs_of(starts, i) =~= ins_of(gkrs, i, m)) by {
        assert forall|p: int| 0 <= p < gkrs.len() implies #[trigger] inputs_of(starts, i)[p]
            == ins_of(gkrs, i, m)[p] by {
            assert(starts[p].insts[i].layer == layer_of(gkrs[p], i, m));
        }
    }
    lemma_part_now(gkrs[0], i, record, m, now);
    lemma_value_on(gkrs, i, record, m);
    if reached(starts[0], seg[0], seg[0].len()).stage is Done {
        assert forall|q: nat| q < m + 1 implies #[trigger] layer_stands(gkrs, i, record, q) by {
            if q < m {
                assert(layer_stands(gkrs, i, record, q));
            }
        }
    }
}

/// A layer that is taken in hand with the claims of the record.
proof fn lemma_take<F: FieldEngine>(
    gkrs: Seq<GkrView<F>>,
    starting: Seq<Seq<PadView<F::Field, F::ChallengeField>>>,
    i: int,
    record: ProofRecord<F::ChallengeField>,
    m: nat,
    challenges: Seq<ChallengeView<F::ChallengeField>>,
    alphas: Seq<Option<F::ChallengeField>>,
    pads: Seq<Seq<PadView<F::Field, F::ChallengeField>>>,
    two: bool,
)
    requires
        prove_together(gkrs, starting),
        computes_all(gkrs, i),
        0 <= i < gkrs[0].circuits.len(),
        m < gkrs[0].layer_num(),
        can_take(
            gkrs,
            (gkrs[0].layer_num() - 1 - m) as nat,
            challenges,
            alphas,
            pads,
            two,
        ),
        settled(gkrs, i, record, m),
        ends_with(gkrs[0], i, record, m),
        record.alphas.len() == alphas_before(gkrs[0], i, m),
        challenges[i] == point_on(gkrs[0], i, record, m),
        alphas[i] == alpha_on(gkrs[0], i, record, m),
    ensures
        in_hand(
            gkrs,
            i,
            record,
            m,
            starts_at(
                gkrs,
                (gkrs[0].layer_num() - 1 - m) as nat,
                challenges,
                alphas,
                pads,
            ),
            no_answers(gkrs.len()),
        ),
{
    let root = gkrs[0];
    let index = (root.layer_num() - 1 - m) as nat;
    let starts = starts_at(gkrs, index, challenges, alphas, pads);
    let seg = no_answers::<F::ChallengeField>(gkrs.len());
    lemma_pow2_pos(root.mpi_var_num());
    lemma_layers_start(gkrs, starting, index, challenges, alphas, pads, two);
    let now = record_of(starts[0], seg[0], i);
    assert(now.sent =~= Seq::empty());
    assert(now.drawn =~= Seq::empty());
    assert(now.told =~= Seq::empty());
    assert(record.sent.skip(record.sent.len() as int) =~= now.sent);
    assert(record.drawn.skip(record.drawn.len() as int) =~= now.drawn);
    assert(record.told.skip(record.told.len() as int) =~= now.told);
    assert(can_start(root, starting[0]));
    assert(root.circuits[i].layers@[index as int].same_shape(
        root.circuits[0].layers@[index as int],
    ));
    assert(starts[0].insts[0].layer == root.circuits[0].layers@[index as int]);
    assert forall|p: int| 0 <= p < gkrs.len() implies {
        let inst = (#[trigger] starts[p]).insts[i];
        &&& inst.layer == layer_of(gkrs[p], i, m)
        &&& computes(inst.layer, outs_of(gkrs, i, m)[p])
        &&& inst.alpha == starts[0].insts[i].alpha
        &&& holds_claims(inst)
    } by {
        assert(can_start(gkrs[p], starting[p]) && is_like(gkrs[p], root));
        assert(computes(layer_of(gkrs[p], i, m), outs_of(gkrs, i, m)[p]));
        assert(holds_claims(starts[p].insts[i]));
    }
}

/// What an answer adds to the record of a layer.
spec fn layer_noted<E>(record: LayerRecord<E>, event: Event<E>, ask: Ask<E>, i: int) -> LayerRecord<
    E,
> {
    LayerRecord {
        sent: match ask {
            Ask::Challenge { evals } => record.sent.push(evals[i]),
            _ => record.sent,
        },
        drawn: match event {
            Event::Challenged { r } => record.drawn.push(r[i]),
            _ => record.drawn,
        },
        told: match ask {
            Ask::Append { claims } => record.told.push(claims[i]),
            _ => record.told,
        },
    }
}

proof fn lemma_record_push<F: FieldEngine>(
    layer: LayerView<F>,
    events: Seq<Event<F::ChallengeField>>,
    event: Event<F::ChallengeField>,
    i: int,
)
    ensures
        record_of(layer, events.push(event), i) == layer_noted(
            record_of(layer, events, i),
            event,
            reached(layer, events, events.len()).step(event).1,
            i,
        ),
{
    let n = events.len();
    let then = events.push(event);
    let start = layer.start().0;
    let ask = reached(layer, events, n).step(event).1;
    lemma_run_front(start, events, event, n);
    lemma_messages_push(questions(start, events, n), ask);
    lemma_appended_push(questions(start, events, n), ask);
    lemma_drawn_push(events, event, n);
    let (a, b) = (
        record_of(layer, then, i),
        layer_noted(record_of(layer, events, i), event, ask, i),
    );
    assert(then[n as int] == event);
    assert(a.sent =~= b.sent);
    assert(a.drawn =~= b.drawn);
    assert(a.told =~= b.told);
}

/// The record of the layer in hand grows with that of the proof.
proof fn lemma_goes_on<F: FieldEngine>(
    gkr: GkrView<F>,
    i: int,
    record: ProofRecord<F::ChallengeField>,
    m: nat,
    now: LayerRecord<F::ChallengeField>,
    event: Event<F::ChallengeField>,
    ask: Ask<F::ChallengeField>,
)
    requires
        goes_on(gkr, i, record, m, now),
    ensures
        ({
            let then = noted(
                record,
                GkrEvent::Layer { event },
                GkrAsk::Layer { ask },
                i,
            );
            &&& goes_on(gkr, i, then, m, layer_noted(now, event, ask, i))
            &&& extends(record, then)
            &&& then.alphas == record.alphas
        }),
{
    let then = noted(record, GkrEvent::Layer { event }, GkrAsk::Layer { ask }, i);
    let next = layer_noted(now, event, ask, i);
    let rounds = rounds_before(gkr, i, m) as int;
    let claims = claims_before(gkr, i, m) as int;
    assert(then.sent.skip(rounds) =~= next.sent);
    assert(then.drawn.skip(rounds) =~= next.drawn);
    assert(then.told.skip(claims) =~= next.told);
}

/// The layer in hand goes on with a joint answer.
proof fn lemma_in_hand_step<F: FieldEngine>(
    gkrs: Seq<GkrView<F>>,
    i: int,
    record: ProofRecord<F::ChallengeField>,
    m: nat,
    starts: Seq<LayerView<F>>,
    seg: Seq<Seq<Event<F::ChallengeField>>>,
    answers: Seq<Event<F::ChallengeField>>,
)
    requires
        gkrs.len() > 0,
        0 <= i < gkrs[0].circuits.len(),
        in_hand(gkrs, i, record, m, starts, seg),
        answers.len() == starts.len(),
        forall|p: int|
            0 <= p < starts.len() ==> reached(starts[p], seg[p], seg[0].len()).expects(
                #[trigger] answers[p],
            ) && stays_on_host(answers[p]) && shares_valid(
                answers[p],
                pow2(gkrs[0].mpi_var_num()),
            ),
        is_joint_answer(asks_at(starts, seg, seg[0].len()), answers),
    ensures
        ({
            let n = seg[0].len();
            let ask = reached(starts[0], seg[0], n).step(answers[0]).1;
            in_hand(
                gkrs,
                i,
                noted(
                    record,
                    GkrEvent::Layer { event: answers[0] },
                    GkrAsk::Layer { ask },
                    i,
                ),
                m,
                starts,
                answered(seg, answers),
            )
        }),
{
    let root = gkrs[0];
    let n = seg[0].len();
    let ask = reached(starts[0], seg[0], n).step(answers[0]).1;
    let then = noted(record, GkrEvent::Layer { event: answers[0] }, GkrAsk::Layer { ask }, i);
    let next = answered(seg, answers);
    lemma_joint_push(starts, seg, answers);
    lemma_record_push(starts[0], seg[0], answers[0], i);
    lemma_goes_on(root, i, record, m, record_of(starts[0], seg[0], i), answers[0], ask);
    if m > 0 {
        lemma_before_grows(root, i, (m - 1) as nat, m);
    }
    lemma_settled_extends(gkrs, i, record, then, m);
    lemma_claim_extends(root, i, record, then, m);
    assert(next[0] == seg[0].push(answers[0]));
    assert forall|p: int, k: int|
        0 <= p < next.len() && 0 <= k < next[p].len() implies shares_valid(
        #[trigger] next[p][k],
        pow2(starts[0].mpi_var_num()),
    ) by {
        assert(starts[p].insts[i].layer == layer_of(gkrs[p], i, m));
        if k < n {
            assert(next[p][k] == seg[p][k]);
        } else {
            assert(next[p][k] == answers[p]);
        }
    }
}

/// The state is one of a proof of the given circuits.
spec fn is_of<F: FieldEngine>(state: GkrView<F>, gkr: GkrView<F>) -> bool {
    &&& state.wf()
    &&& state.circuits == gkr.circuits
    &&& state.world_size == gkr.world_size
}

/// The processes are on layer `m` together.
spec fn on_layer<F: FieldEngine>(
    states: Seq<GkrView<F>>,
    asks: Seq<GkrAsk<F::ChallengeField>>,
    index: nat,
    starts: Seq<LayerView<F>>,
    seg: Seq<Seq<Event<F::ChallengeField>>>,
) -> bool {
    forall|p: int|
        0 <= p < states.len() ==> {
            &&& (#[trigger] states[p]).stage is Layer
            &&& states[p].stage->Layer_index == index
            &&& states[p].stage->layer == reached(starts[p], seg[p], seg[0].len())
            &&& asks[p] == (GkrAsk::Layer { ask: asked(starts[p], seg[p], seg[0].len()) })
        }
}

/// The processes wait together for coefficients.
spec fn on_alpha<F: FieldEngine>(
    states: Seq<GkrView<F>>,
    asks: Seq<GkrAsk<F::ChallengeField>>,
    index: nat,
    challenges: Seq<ChallengeView<F::ChallengeField>>,
) -> bool {
    forall|p: int|
        0 <= p < states.len() ==> {
            &&& (#[trigger] states[p]).stage is Alpha
            &&& states[p].stage->Alpha_index == index
            &&& states[p].stage->Alpha_challenges == challenges
            &&& forall|i: int|
                0 <= i < challenges.len() ==> pad_holds::<F>(
                    #[trigger] states[p].stage->Alpha_pads[i],
                    challenges[i],
                )
            &&& asks[p] is Alpha
        }
}

/// The processes combine the claimed outputs.
spec fn on_claim<F: FieldEngine>(
    gkrs: Seq<GkrView<F>>,
    states: Seq<GkrView<F>>,
    asks: Seq<GkrAsk<F::ChallengeField>>,
    challenges: Seq<ChallengeView<F::ChallengeField>>,
) -> bool {
    forall|p: int|
        0 <= p < states.len() ==> {
            &&& (#[trigger] states[p]).stage is Claim
            &&& states[p].stage->Claim_challenges == challenges
            &&& asks[p] is Combine
            &&& asks[p]->Combine_coefs == Seq::new(
                gkrs[p].circuits.len(),
                |i: int| eq_table(challenges[i].r_mpi),
            )
            &&& asks[p]->Combine_values == Seq::new(
                gkrs[p].circuits.len(),
                |i: int|
                    seq![
                        share_at::<F>(
                            layer_of(gkrs[p], i, 0).output_vals@,
                            challenges[i].rz_0,
                            challenges[i].r_simd,
                        ),
                    ],
            )
        }
}

/// Where the processes stand, and what the record of instance `i` holds.
spec fn stands<F: FieldEngine>(
    gkrs: Seq<GkrView<F>>,
    states: Seq<GkrView<F>>,
    asks: Seq<GkrAsk<F::ChallengeField>>,
    i: int,
    record: ProofRecord<F::ChallengeField>,
    starts: Seq<LayerView<F>>,
    seg: Seq<Seq<Event<F::ChallengeField>>>,
) -> bool {
    let root = gkrs[0];
    let layers = root.layer_num();
    &&& states.len() == gkrs.len()
    &&& asks.len() == gkrs.len()
    &&& forall|p: int| 0 <= p < gkrs.len() ==> is_of(#[trigger] states[p], gkrs[p])
    &&& match states[0].stage {
        GkrStageView::Sample { .. } => {
            &&& forall|p: int|
                0 <= p < gkrs.len() ==> (#[trigger] states[p]).stage is Sample && asks[p] is Sample
            &&& record.sampled.len() == 0
            &&& record.claimed.len() == 0
            &&& record.alphas.len() == 0
            &&& ends_with(root, i, record, 0)
        },
        GkrStageView::Claim { challenges, .. } => {
            &&& on_claim(gkrs, states, asks, challenges)
            &&& record.sampled == seq![challenges[i]]
            &&& record.claimed.len() == 0
            &&& record.alphas.len() == 0
            &&& ends_with(root, i, record, 0)
        },
        GkrStageView::Layer { index, claimed, .. } => {
            &&& index < layers
            &&& claimed[i] == record.claimed[0]
            &&& on_layer(states, asks, index, starts, seg)
            &&& in_hand(gkrs, i, record, (layers - 1 - index) as nat, starts, seg)
        },
        GkrStageView::Alpha { index, claimed, challenges, .. } => {
            let m = (layers - index) as nat;
            &&& index < layers
            &&& claimed[i] == record.claimed[0]
            &&& on_alpha(states, asks, index, challenges)
            &&& settled(gkrs, i, record, m)
            &&& ends_with(root, i, record, m)
            &&& !leaves_one(root, i, (m - 1) as nat)
            &&& record.alphas.len() == alphas_before(root, i, (m - 1) as nat)
            &&& challenges[i] == point_on(root, i, record, m)
        },
        GkrStageView::Done { claimed, challenges, .. } => {
            &&& claimed[i] == record.claimed[0]
            &&& settled(gkrs, i, record, layers)
            &&& ends_with(root, i, record, layers)
            &&& record.alphas.len() == alphas_before(root, i, layers)
            &&& challenges[i] == point_on(root, i, record, layers)
        },
    }
}

/// Processes that put their questions and are answered together.
spec fn answer_together<F: FieldEngine>(
    gkrs: Seq<GkrView<F>>,
    starting: Seq<Seq<PadView<F::Field, F::ChallengeField>>>,
    states: Seq<GkrView<F>>,
    asks: Seq<GkrAsk<F::ChallengeField>>,
    answers: Seq<GkrEvent<F::ChallengeField>>,
    i: int,
) -> bool {
    &&& prove_together(gkrs, starting)
    &&& computes_all(gkrs, i)
    &&& 0 <= i < gkrs[0].circuits.len()
    &&& answers.len() == gkrs.len()
    &&& forall|p: int|
        0 <= p < gkrs.len() ==> {
            &&& states[p].expects(#[trigger] answers[p])
            &&& gkr_stays_on_host(answers[p])
            &&& is_heard_right(answers[p], gkrs[0].mpi_var_num())
        }
    &&& is_joint_gkr_answer(asks, answers)
}

/// The states that the answers lead to, and the questions.
spec fn gkr_stepped<F: FieldEngine>(
    states: Seq<GkrView<F>>,
    answers: Seq<GkrEvent<F::ChallengeField>>,
) -> Seq<GkrView<F>> {
    Seq::new(states.len(), |p: int| states[p].step(answers[p]).0)
}

spec fn gkr_asks_then<F: FieldEngine>(
    states: Seq<GkrView<F>>,
    answers: Seq<GkrEvent<F::ChallengeField>>,
) -> Seq<GkrAsk<F::ChallengeField>> {
    Seq::new(states.len(), |p: int| states[p].step(answers[p]).1)
}

/// A step is one of the same proof.
proof fn lemma_step_is_of<F: FieldEngine>(
    gkr: GkrView<F>,
    state: GkrView<F>,
    event: GkrEvent<F::ChallengeField>,
)
    requires
        is_of(state, gkr),
        state.expects(event),
    ensures
        is_of(state.step(event).0, gkr),
{
    lemma_gkr_step_wf(state, event);
}

/// The points for the outputs come in.
proof fn lemma_sampled<F: FieldEngine>(
    gkrs: Seq<GkrView<F>>,
    starting: Seq<Seq<PadView<F::Field, F::ChallengeField>>>,
    states: Seq<GkrView<F>>,
    asks: Seq<GkrAsk<F::ChallengeField>>,
    answers: Seq<GkrEvent<F::ChallengeField>>,
    i: int,
    record: ProofRecord<F::ChallengeField>,
    starts: Seq<LayerView<F>>,
    seg: Seq<Seq<Event<F::ChallengeField>>>,
)
    requires
        answer_together(gkrs, starting, states, asks, answers, i),
        stands(gkrs, states, asks, i, record, starts, seg),
        states[0].stage is Sample,
    ensures
        stands(
            gkrs,
            gkr_stepped(states, answers),
            gkr_asks_then(states, answers),
            i,
            noted(record, answers[0], states[0].step(answers[0]).1, i),
            starts,
            seg,
        ),
{
    let nexts = gkr_stepped(states, answers);
    let then = noted(record, answers[0], states[0].step(answers[0]).1, i);
    lemma_pow2_pos(gkrs[0].mpi_var_num());
    assert(states[0].stage is Sample && asks[0] is Sample);
    assert(states[0].expects(answers[0]));
    let challenges = answers[0]->Sampled_challenges;
    assert forall|p: int| 0 <= p < gkrs.len() implies is_of(#[trigger] nexts[p], gkrs[p])
        && answers[p] == answers[0] && states[p].stage is Sample by {
        assert(is_of(states[p], gkrs[p]));
        assert(states[p].expects(answers[p]));
        lemma_step_is_of(gkrs[p], states[p], answers[p]);
    }
    let then_asks = gkr_asks_then(states, answers);
    assert forall|p: int| 0 <= p < nexts.len() implies {
        &&& (#[trigger] nexts[p]).stage is Claim
        &&& nexts[p].stage->Claim_challenges == challenges
        &&& then_asks[p] is Combine
        &&& then_asks[p]->Combine_coefs == Seq::new(
            gkrs[p].circuits.len(),
            |j: int| eq_table(challenges[j].r_mpi),
        )
        &&& then_asks[p]->Combine_values == Seq::new(
            gkrs[p].circuits.len(),
            |j: int|
                seq![
                    share_at::<F>(
                        layer_of(gkrs[p], j, 0).output_vals@,
                        challenges[j].rz_0,
                        challenges[j].r_simd,
                    ),
                ],
        )
    } by {
        assert(is_of(nexts[p], gkrs[p]));
        assert(is_of(states[p], gkrs[p]));
        let values = Seq::new(
            gkrs[p].circuits.len(),
            |j: int|
                seq![
                    share_at::<F>(
                        layer_of(gkrs[p], j, 0).output_vals@,
                        challenges[j].rz_0,
                        challenges[j].r_simd,
                    ),
                ],
        );
        assert(can_start(gkrs[p], starting[p]));
        assert forall|j: int| 0 <= j < values.len() implies #[trigger] values[j]
            == then_asks[p]->Combine_values[j] by {
            assert(gkrs[p].circuits[j].layers@.len() == gkrs[p].circuits[0].layers@.len());
        }
        assert(then_asks[p]->Combine_values =~= values);
    }
    assert(then.sampled =~= seq![challenges[i]]);
}

/// The claimed outputs come in.
proof fn lemma_claimed<F: FieldEngine>(
    gkrs: Seq<GkrView<F>>,
    starting: Seq<Seq<PadView<F::Field, F::ChallengeField>>>,
    states: Seq<GkrView<F>>,
    asks: Seq<GkrAsk<F::ChallengeField>>,
    answers: Seq<GkrEvent<F::ChallengeField>>,
    i: int,
    record: ProofRecord<F::ChallengeField>,
    starts: Seq<LayerView<F>>,
    seg: Seq<Seq<Event<F::ChallengeField>>>,
)
    requires
        answer_together(gkrs, starting, states, asks, answers, i),
        stands(gkrs, states, asks, i, record, starts, seg),
        states[0].stage is Claim,
    ensures
        exists|next: Seq<LayerView<F>>, none: Seq<Seq<Event<F::ChallengeField>>>| #[trigger]
            stands(
                gkrs,
                gkr_stepped(states, answers),
                gkr_asks_then(states, answers),
                i,
                noted(record, answers[0], states[0].step(answers[0]).1, i),
                next,
                none,
            ),
{
    let nexts = gkr_stepped(states, answers);
    let then_asks = gkr_asks_then(states, answers);
    let then = noted(record, answers[0], states[0].step(answers[0]).1, i);
    let root = gkrs[0];
    let challenges = states[0].stage->Claim_challenges;
    let pads = Seq::new(gkrs.len(), |p: int| states[p].stage->Claim_pads);
    let alphas = root.no_alphas();
    let index = (root.layer_num() - 1) as nat;
    lemma_pow2_pos(root.mpi_var_num());
    assert(can_start(root, starting[0]));
    assert(root.circuits[0].wf());
    assert(is_of(states[0], root));
    assert(states[0].stage is Claim && asks[0] is Combine);
    assert(states[0].expects(answers[0]));
    lemma_output_value(gkrs, starting, states, asks, answers, i, challenges);
    assert(then.claimed =~= seq![answers[0]->Combined_values[i][0]]);
    assert(ends_with(root, i, then, 0));
    assert(challenges[i].rz_1 is None);
    assert(settled(gkrs, i, then, 0));
    assert forall|p: int| 0 <= p < gkrs.len() implies pads_fit(
        gkrs[p].circuits,
        #[trigger] pads[p],
        root.mpi_var_num(),
    ) && is_of(nexts[p], gkrs[p]) by {
        assert(is_of(states[p], gkrs[p]));
        assert(states[p].stage is Claim);
        assert(is_like(gkrs[p], root));
        assert(states[p].expects(answers[p]));
        lemma_step_is_of(gkrs[p], states[p], answers[p]);
    }
    assert forall|p: int, j: int|
        0 <= p < gkrs.len() && 0 <= j < root.circuits.len() implies pad_holds::<F>(
        #[trigger] pads[p][j],
        challenges[j],
    ) by {
        assert(challenges[j].rz_1 is None);
    }
    assert(can_take(gkrs, index, challenges, alphas, pads, false));
    lemma_take(gkrs, starting, i, then, 0, challenges, alphas, pads, false);
    let next = starts_at(gkrs, index, challenges, alphas, pads);
    let none = no_answers::<F::ChallengeField>(gkrs.len());
    assert forall|p: int| 0 <= p < nexts.len() implies {
        &&& (#[trigger] nexts[p]).stage is Layer
        &&& nexts[p].stage->Layer_index == index
        &&& nexts[p].stage->layer == reached(next[p], none[p], 0)
        &&& then_asks[p] == (GkrAsk::Layer { ask: asked(next[p], none[p], 0) })
    } by {
        assert(is_of(states[p], gkrs[p]));
        assert(is_like(gkrs[p], root));
        assert(states[p].stage is Claim);
        assert(states[p].stage->Claim_challenges == challenges);
        assert(states[p].expects(answers[p]));
        assert(states[p].no_alphas() =~= alphas);
        assert(states[p].layers_at(index) =~= gkrs[p].layers_at(index));
    }
    assert forall|p: int| 0 <= p < gkrs.len() implies is_of(#[trigger] nexts[p], gkrs[p]) by {
        assert(pads_fit(gkrs[p].circuits, pads[p], root.mpi_var_num()));
    }
    assert(nexts[0].stage is Layer);
    assert(stands(gkrs, nexts, then_asks, i, then, next, none));
}

/// The combined output is the value of the outputs at the point.
proof fn lemma_output_value<F: FieldEngine>(
    gkrs: Seq<GkrView<F>>,
    starting: Seq<Seq<PadView<F::Field, F::ChallengeField>>>,
    states: Seq<GkrView<F>>,
    asks: Seq<GkrAsk<F::ChallengeField>>,
    answers: Seq<GkrEvent<F::ChallengeField>>,
    i: int,
    challenges: Seq<ChallengeView<F::ChallengeField>>,
)
    requires
        answer_together(gkrs, starting, states, asks, answers, i),
        states.len() == gkrs.len(),
        asks.len() == gkrs.len(),
        on_claim(gkrs, states, asks, challenges),
    ensures
        answers[0] is Combined,
        answers[0]->Combined_values[i][0] == value_at::<F>(
            outs_of(gkrs, i, 0),
            challenges[i].rz_0,
            challenges[i].r_simd,
            challenges[i].r_mpi,
        ),
{
    let world = gkrs.len();
    let outs = outs_of(gkrs, i, 0);
    let c = challenges[i];
    let weights = eq_table(c.r_mpi);
    lemma_pow2_pos(gkrs[0].mpi_var_num());
    assert(states[0].stage is Claim);
    let parts = Seq::new(asks.len(), |p: int| asks[p]->Combine_values[i]);
    let want = Seq::new(world, |p: int| share_at::<F>(outs[p], c.rz_0, c.r_simd));
    assert forall|p: int| 0 <= p < world implies #[trigger] column(parts, 0)[p] == want[p] by {
        assert(states[p].stage is Claim);
        assert(is_like(gkrs[p], gkrs[0]));
        assert(parts[p] == seq![want[p]]);
    }
    assert(column(parts, 0) =~= want);
    assert(asks[0]->Combine_values[i].len() == 1);
    assert(answers[0]->Combined_values[i] == absorbed(weights, parts, 1));
    lemma_dot_commutes(want, weights, world);
    assert(Seq::new(outs.len(), |p: int| share_at::<F>(outs[p], c.rz_0, c.r_simd)) =~= want);
}

/// The next layer is taken in hand, or the proof is done.
proof fn lemma_taken<F: FieldEngine>(
    gkrs: Seq<GkrView<F>>,
    starting: Seq<Seq<PadView<F::Field, F::ChallengeField>>>,
    nexts: Seq<GkrView<F>>,
    asks: Seq<GkrAsk<F::ChallengeField>>,
    index: nat,
    claimed: Seq<Seq<F::ChallengeField>>,
    challenges: Seq<ChallengeView<F::ChallengeField>>,
    alphas: Seq<Option<F::ChallengeField>>,
    pads: Seq<Seq<PadView<F::Field, F::ChallengeField>>>,
    two: bool,
    i: int,
    record: ProofRecord<F::ChallengeField>,
)
    requires
        prove_together(gkrs, starting),
        computes_all(gkrs, i),
        0 <= i < gkrs[0].circuits.len(),
        index < gkrs[0].layer_num(),
        index > 0 ==> can_take(gkrs, (index - 1) as nat, challenges, alphas, pads, two),
        nexts.len() == gkrs.len(),
        asks.len() == gkrs.len(),
        forall|p: int| 0 <= p < gkrs.len() ==> is_of(#[trigger] nexts[p], gkrs[p]),
        forall|p: int|
            0 <= p < gkrs.len() ==> ((#[trigger] nexts[p]), asks[p]) == nexts[p].next_layer(
                index,
                claimed[p],
                challenges,
                alphas,
                pads[p],
            ),
        settled(gkrs, i, record, (gkrs[0].layer_num() - index) as nat),
        ends_with(gkrs[0], i, record, (gkrs[0].layer_num() - index) as nat),
        record.alphas.len() == alphas_before(gkrs[0], i, (gkrs[0].layer_num() - index) as nat),
        challenges[i] == point_on(gkrs[0], i, record, (gkrs[0].layer_num() - index) as nat),
        alphas[i] == alpha_on(gkrs[0], i, record, (gkrs[0].layer_num() - index) as nat),
        claimed[0][i] == record.claimed[0],
    ensures
        exists|next: Seq<LayerView<F>>, none: Seq<Seq<Event<F::ChallengeField>>>| #[trigger]
            stands(gkrs, nexts, asks, i, record, next, none),
{
    let root = gkrs[0];
    let none = no_answers::<F::ChallengeField>(gkrs.len());
    lemma_pow2_pos(root.mpi_var_num());
    assert(is_of(nexts[0], root));
    if index == 0 {
        assert(stands(gkrs, nexts, asks, i, record, Seq::empty(), none));
    } else {
        let k = (index - 1) as nat;
        let m = (root.layer_num() - index) as nat;
        let next = starts_at(gkrs, k, challenges, alphas, pads);
        lemma_take(gkrs, starting, i, record, m, challenges, alphas, pads, two);
        assert forall|p: int| 0 <= p < nexts.len() implies {
            &&& (#[trigger] nexts[p]).stage is Layer
            &&& nexts[p].stage->Layer_index == k
            &&& nexts[p].stage->layer == reached(next[p], none[p], 0)
            &&& asks[p] == (GkrAsk::Layer { ask: asked(next[p], none[p], 0) })
        } by {
            assert(is_of(nexts[p], gkrs[p]));
            assert(is_like(gkrs[p], root));
            assert(nexts[p].layers_at(k) =~= gkrs[p].layers_at(k));
        }
        assert(nexts[0].stage is Layer);
        assert(stands(gkrs, nexts, asks, i, record, next, none));
    }
}

/// Coefficients come in.
proof fn lemma_alphas<F: FieldEngine>(
    gkrs: Seq<GkrView<F>>,
    starting: Seq<Seq<PadView<F::Field, F::ChallengeField>>>,
    states: Seq<GkrView<F>>,
    asks: Seq<GkrAsk<F::ChallengeField>>,
    answers: Seq<GkrEvent<F::ChallengeField>>,
    i: int,
    record: ProofRecord<F::ChallengeField>,
    starts: Seq<LayerView<F>>,
    seg: Seq<Seq<Event<F::ChallengeField>>>,
)
    requires
        answer_together(gkrs, starting, states, asks, answers, i),
        stands(gkrs, states, asks, i, record, starts, seg),
        states[0].stage is Alpha,
    ensures
        exists|next: Seq<LayerView<F>>, none: Seq<Seq<Event<F::ChallengeField>>>| #[trigger]
            stands(
                gkrs,
                gkr_stepped(states, answers),
                gkr_asks_then(states, answers),
                i,
                noted(record, answers[0], states[0].step(answers[0]).1, i),
                next,
                none,
            ),
{
    let root = gkrs[0];
    let nexts = gkr_stepped(states, answers);
    let then_asks = gkr_asks_then(states, answers);
    let ask = states[0].step(answers[0]).1;
    let then = noted(record, answers[0], ask, i);
    let index = states[0].stage->Alpha_index;
    let challenges = states[0].stage->Alpha_challenges;
    let m = (root.layer_num() - index) as nat;
    let drawn = answers[0]->alphas;
    let alphas = Seq::new(root.circuits.len(), |j: int| Some(drawn[j]));
    let claimed = Seq::new(gkrs.len(), |p: int| states[p].stage->Alpha_claimed);
    let pads = Seq::new(gkrs.len(), |p: int| states[p].stage->Alpha_pads);
    lemma_pow2_pos(root.mpi_var_num());
    assert(can_start(root, starting[0]));
    assert(root.circuits[0].wf());
    assert(is_of(states[0], root));
    assert(states[0].stage is Alpha && asks[0] is Alpha);
    assert(states[0].expects(answers[0]));
    assert(is_heard_right(answers[0], root.mpi_var_num()));
    assert forall|p: int| 0 <= p < gkrs.len() implies {
        &&& is_of(#[trigger] nexts[p], gkrs[p])
        &&& pads_fit(gkrs[p].circuits, pads[p], root.mpi_var_num())
        &&& (nexts[p], then_asks[p]) == nexts[p].next_layer(
            index,
            claimed[p],
            challenges,
            alphas,
            pads[p],
        )
    } by {
        assert(is_of(states[p], gkrs[p]));
        assert(is_like(gkrs[p], root));
        assert(states[p].stage is Alpha);
        assert(answers[p] == answers[0]);
        assert(states[p].expects(answers[p]));
        lemma_step_is_of(gkrs[p], states[p], answers[p]);
        assert(Seq::new(states[p].circuits.len(), |j: int| Some(drawn[j])) =~= alphas);
        assert(states[p].step(answers[p]) == states[p].next_layer(
            index,
            claimed[p],
            challenges,
            alphas,
            pads[p],
        ));
        lemma_next_layer_from(
            states[p],
            nexts[p],
            index,
            claimed[p],
            challenges,
            alphas,
            pads[p],
        );
    }
    assert(is_of(nexts[0], root));
    assert(ask is Layer ==> !(ask->ask is Challenge) && !(ask->ask is Append)) by {
        if index > 0 {
            lemma_first_ask(nexts[0], index, claimed[0], challenges, alphas, pads[0]);
        }
    }
    lemma_settled_extends(gkrs, i, record, then, m);
    lemma_part_extends(root, i, record, then, m, (m - 1) as nat);
    assert(then.alphas[alphas_before(root, i, (m - 1) as nat) as int] == drawn[i]);
    if index > 0 {
        let k = (index - 1) as nat;
        assert(root.circuits[0].layers@[index as int].input_var_num
            == root.circuits[0].layers@[index - 1].output_var_num);
        assert forall|p: int| 0 <= p < gkrs.len() implies pads_fit(
            gkrs[p].circuits,
            #[trigger] pads[p],
            root.mpi_var_num(),
        ) by {
            assert(is_of(nexts[p], gkrs[p]));
        }
        assert forall|p: int, j: int|
            0 <= p < gkrs.len() && 0 <= j < root.circuits.len() implies pad_holds::<F>(
            #[trigger] pads[p][j],
            challenges[j],
        ) by {
            assert(states[p].stage is Alpha);
            assert(pad_holds::<F>(states[p].stage->Alpha_pads[j], challenges[j]));
        }
        assert(can_take(gkrs, k, challenges, alphas, pads, true));
    }
    lemma_taken(
        gkrs,
        starting,
        nexts,
        then_asks,
        index,
        claimed,
        challenges,
        alphas,
        pads,
        true,
        i,
        then,
    );
}

/// The layer that is taken in hand does not depend on the stage before.
proof fn lemma_next_layer_from<F: FieldEngine>(
    state: GkrView<F>,
    next: GkrView<F>,
    index: nat,
    claimed: Seq<F::ChallengeField>,
    challenges: Seq<ChallengeView<F::ChallengeField>>,
    alphas: Seq<Option<F::ChallengeField>>,
    pads: Seq<PadView<F::Field, F::ChallengeField>>,
)
    requires
        next == state.next_layer(index, claimed, challenges, alphas, pads).0,
    ensures
        next.next_layer(index, claimed, challenges, alphas, pads) == state.next_layer(
            index,
            claimed,
            challenges,
            alphas,
            pads,
        ),
{
    if index > 0 {
        let k = (index - 1) as nat;
        assert(next.circuits == state.circuits && next.world_size == state.world_size);
        assert(next.layers_at(k) =~= state.layers_at(k));
    }
}

/// The first question of a layer is none that adds to the record.
proof fn lemma_first_ask<F: FieldEngine>(
    gkr: GkrView<F>,
    index: nat,
    claimed: Seq<F::ChallengeField>,
    challenges: Seq<ChallengeView<F::ChallengeField>>,
    alphas: Seq<Option<F::ChallengeField>>,
    pads: Seq<PadView<F::Field, F::ChallengeField>>,
)
    requires
        gkr.wf(),
        has_inputs(gkr),
        0 < index < gkr.layer_num(),
    ensures
        ({
            let ask = gkr.next_layer(index, claimed, challenges, alphas, pads).1;
            ask is Layer && !(ask->ask is Challenge) && !(ask->ask is Append)
        }),
{
    let k = (index - 1) as nat;
    let layer = layer_at_start(
        gkr.layers_at(k),
        challenges,
        alphas,
        pads,
        gkr.world_size,
        k == gkr.layer_num() - 1,
    );
    assert(gkr.circuits[0].layers@[k as int].input_var_num >= 1);
    assert(layer.prepared().insts[0].layer == gkr.circuits[0].layers@[k as int]);
}

/// What the processes leave of a layer that they are done with.
proof fn lemma_done_alike<F: FieldEngine>(
    gkrs: Seq<GkrView<F>>,
    i: int,
    record: ProofRecord<F::ChallengeField>,
    m: nat,
    starts: Seq<LayerView<F>>,
    seg: Seq<Seq<Event<F::ChallengeField>>>,
    p: int,
)
    requires
        gkrs.len() > 0,
        0 <= i < gkrs[0].circuits.len(),
        0 <= p < gkrs.len(),
        in_hand(gkrs, i, record, m, starts, seg),
        reached(starts[0], seg[0], seg[0].len()).stage is Done,
    ensures
        ({
            let n = seg[0].len();
            let (root, done) = (reached(starts[0], seg[0], n), reached(starts[p], seg[p], n));
            &&& done.stage is Done
            &&& done.challenges() == root.challenges()
            &&& done.skips_phase_two() == root.skips_phase_two()
            &&& root.skips_phase_two() == leaves_one(gkrs[0], i, m)
            &&& forall|j: int|
                0 <= j < root.insts.len() ==> pad_holds::<F>(
                    #[trigger] done.insts[j].pad,
                    root.challenges()[j],
                )
        }),
{
    let n = seg[0].len();
    let (root, done) = (reached(starts[0], seg[0], n), reached(starts[p], seg[p], n));
    lemma_pow2_pos(starts[0].mpi_var_num());
    lemma_run_in_step(starts, seg, n, p);
    lemma_run_in_step(starts, seg, n, 0);
    assert forall|j: int| 0 <= j < root.insts.len() implies #[trigger] done.challenges()[j]
        == root.challenges()[j] && pad_holds::<F>(done.insts[j].pad, root.challenges()[j]) by {
        lemma_process_state(starts, seg, j, n, p);
        let (a, b) = (done.insts[j], root.insts[j]);
        assert(a.layer.structure_info.skip_sumcheck_phase_two == done.skips_phase_two());
        assert(b.layer.structure_info.skip_sumcheck_phase_two == root.skips_phase_two());
        if !root.skips_phase_two() {
            lemma_run_leaves(starts, seg, n, p, j);
            assert(a.rx.len() == done.input_var_num());
            assert(a.input_var_num() == done.input_var_num());
            assert(a.r_mpi_var.len() == done.mpi_var_num());
            assert(a.mpi_var_num == done.mpi_var_num());
        }
    }
    assert(done.challenges() =~= root.challenges());
    assert forall|j: int| 0 <= j < root.insts.len() implies pad_holds::<F>(
        #[trigger] done.insts[j].pad,
        root.challenges()[j],
    ) by {
        assert(done.challenges()[j] == root.challenges()[j]);
    }
}

/// The layer in hand is answered.
proof fn lemma_layer_answered<F: FieldEngine>(
    gkrs: Seq<GkrView<F>>,
    starting: Seq<Seq<PadView<F::Field, F::ChallengeField>>>,
    states: Seq<GkrView<F>>,
    asks: Seq<GkrAsk<F::ChallengeField>>,
    answers: Seq<GkrEvent<F::ChallengeField>>,
    i: int,
    record: ProofRecord<F::ChallengeField>,
    starts: Seq<LayerView<F>>,
    seg: Seq<Seq<Event<F::ChallengeField>>>,
)
    requires
        answer_together(gkrs, starting, states, asks, answers, i),
        stands(gkrs, states, asks, i, record, starts, seg),
        states[0].stage is Layer,
    ensures
        ({
            let then = answered(seg, layer_answers(answers));
            let ask = reached(starts[0], seg[0], seg[0].len()).step(answers[0]->event).1;
            let m = (gkrs[0].layer_num() - 1 - states[0].stage->Layer_index) as nat;
            &&& in_hand(
                gkrs,
                i,
                noted(record, answers[0], GkrAsk::Layer { ask }, i),
                m,
                starts,
                then,
            )
            &&& forall|p: int|
                0 <= p < gkrs.len() ==> {
                    let (layer, e) = (states[p].stage->layer, (#[trigger] answers[p])->event);
                    &&& answers[p] is Layer
                    &&& layer.expects(e)
                    &&& reached(starts[p], then[p], then[0].len()) == layer.step(e).0
                    &&& asked(starts[p], then[p], then[0].len()) == layer.step(e).1
                }
        }),
{
    let index = states[0].stage->Layer_index;
    let m = (gkrs[0].layer_num() - 1 - index) as nat;
    let n = seg[0].len();
    let events = layer_answers(answers);
    lemma_pow2_pos(gkrs[0].mpi_var_num());
    assert(states[0].stage is Layer);
    assert forall|p: int| 0 <= p < starts.len() implies {
        &&& answers[p] is Layer
        &&& reached(starts[p], seg[p], n).expects(#[trigger] events[p])
        &&& stays_on_host(events[p])
        &&& shares_valid(events[p], pow2(gkrs[0].mpi_var_num()))
    } by {
        assert(states[p].stage is Layer);
        assert(states[p].expects(answers[p]));
    }
    assert forall|p: int| 0 <= p < starts.len() implies #[trigger] layer_asks(asks)[p] == asks_at(
        starts,
        seg,
        n,
    )[p] by {
        assert(states[p].stage is Layer);
    }
    assert(layer_asks(asks) =~= asks_at(starts, seg, n));
    assert(asks[0] is Layer);
    lemma_in_hand_step(gkrs, i, record, m, starts, seg, events);
    lemma_joint_push(starts, seg, events);
    assert(events[0] == answers[0]->event);
    assert(answers[0] == (GkrEvent::Layer { event: events[0] }));
    assert forall|p: int| 0 <= p < gkrs.len() implies {
        let then = answered(seg, events);
        let (layer, e) = (states[p].stage->layer, (#[trigger] answers[p])->event);
        &&& answers[p] is Layer
        &&& layer.expects(e)
        &&& reached(starts[p], then[p], then[0].len()) == layer.step(e).0
        &&& asked(starts[p], then[p], then[0].len()) == layer.step(e).1
    } by {
        assert(states[p].stage is Layer);
        assert(events[p] == answers[p]->event);
        assert(starts[p] == starts[p]);
        assert(starts[0] == starts[0]);
        assert(reached(starts[p], seg[p], n).expects(events[p]));
    }
}

/// An answer to the layer in hand.
proof fn lemma_layer_went<F: FieldEngine>(
    gkrs: Seq<GkrView<F>>,
    starting: Seq<Seq<PadView<F::Field, F::ChallengeField>>>,
    states: Seq<GkrView<F>>,
    asks: Seq<GkrAsk<F::ChallengeField>>,
    answers: Seq<GkrEvent<F::ChallengeField>>,
    i: int,
    record: ProofRecord<F::ChallengeField>,
    starts: Seq<LayerView<F>>,
    seg: Seq<Seq<Event<F::ChallengeField>>>,
)
    requires
        answer_together(gkrs, starting, states, asks, answers, i),
        stands(gkrs, states, asks, i, record, starts, seg),
        states[0].stage is Layer,
    ensures
        exists|next: Seq<LayerView<F>>, none: Seq<Seq<Event<F::ChallengeField>>>| #[trigger]
            stands(
                gkrs,
                gkr_stepped(states, answers),
                gkr_asks_then(states, answers),
                i,
                noted(record, answers[0], states[0].step(answers[0]).1, i),
                next,
                none,
            ),
{
    let root = gkrs[0];
    let nexts = gkr_stepped(states, answers);
    let then_asks = gkr_asks_then(states, answers);
    let ask = states[0].step(answers[0]).1;
    let then = noted(record, answers[0], ask, i);
    let index = states[0].stage->Layer_index;
    let m = (root.layer_num() - 1 - index) as nat;
    let more = answered(seg, layer_answers(answers));
    let (done, own) = states[0].stage->layer.step(answers[0]->event);
    lemma_pow2_pos(root.mpi_var_num());
    lemma_layer_answered(gkrs, starting, states, asks, answers, i, record, starts, seg);
    assert(is_of(states[0], root));
    assert(states[0].stage is Layer);
    assert(answers[0] is Layer);
    assert forall|p: int| 0 <= p < gkrs.len() implies is_of(#[trigger] nexts[p], gkrs[p]) by {
        assert(is_of(states[p], gkrs[p]));
        assert(states[p].expects(answers[p]));
        lemma_step_is_of(gkrs[p], states[p], answers[p]);
    }
    assert(done == reached(starts[0], more[0], more[0].len()));
    if !(done.stage is Done) {
        assert forall|p: int| 0 <= p < nexts.len() implies {
            &&& (#[trigger] nexts[p]).stage is Layer
            &&& nexts[p].stage->Layer_index == index
            &&& nexts[p].stage->layer == reached(starts[p], more[p], more[0].len())
            &&& then_asks[p] == (GkrAsk::Layer { ask: asked(starts[p], more[p], more[0].len()) })
        } by {
            assert(states[p].stage is Layer);
            assert(answers[p] is Layer);
            lemma_run_in_step(starts, more, more[0].len(), p);
        }
        assert(nexts[0].stage is Layer);
        assert(stands(gkrs, nexts, then_asks, i, then, starts, more));
    } else {
        lemma_layer_left(gkrs, starting, states, asks, answers, i, record, starts, seg);
    }
}

/// What one process goes on to when it is done with the layer in hand.
spec fn left_by<F: FieldEngine>(
    state: GkrView<F>,
    index: nat,
    skips: bool,
    claimed: Seq<F::ChallengeField>,
    challenges: Seq<ChallengeView<F::ChallengeField>>,
    alphas: Seq<Option<F::ChallengeField>>,
    pads: Seq<PadView<F::Field, F::ChallengeField>>,
) -> (GkrView<F>, GkrAsk<F::ChallengeField>) {
    if skips {
        state.next_layer(index, claimed, challenges, alphas, pads)
    } else {
        (
            state.at(GkrStageView::Alpha { index, claimed, challenges, pads }),
            GkrAsk::Alpha { count: state.circuits.len() },
        )
    }
}

/// One process is done with the layer in hand.
proof fn lemma_process_left<F: FieldEngine>(
    gkr: GkrView<F>,
    root: GkrView<F>,
    state: GkrView<F>,
    event: GkrEvent<F::ChallengeField>,
    index: nat,
    done: LayerView<F>,
)
    requires
        is_of(state, gkr),
        is_like(gkr, root),
        state.stage is Layer,
        state.stage->Layer_index == index,
        index < root.layer_num(),
        event is Layer,
        state.expects(event),
        done == state.stage->layer.step(event->event).0,
        done.stage is Done,
    ensures
        is_of(state.step(event).0, gkr),
        pads_fit(gkr.circuits, GkrView::<F>::pads_of(done), root.mpi_var_num()),
        done.insts.len() == root.circuits.len(),
        challenges_fit::<F>(
            done.challenges(),
            root.circuits.len(),
            root.circuits[0].layers@[index as int].input_var_num as nat,
            root.mpi_var_num(),
            !done.skips_phase_two(),
        ),
        state.step(event) == left_by(
            state,
            index,
            done.skips_phase_two(),
            state.stage->Layer_claimed,
            done.challenges(),
            root.no_alphas(),
            GkrView::<F>::pads_of(done),
        ),
{
    lemma_step_is_of(gkr, state, event);
    lemma_layer_stepped(state, index, state.stage->layer, event->event);
    lemma_layer_done(state, index, done);
    assert(gkr.circuits[0].layers@[index as int].same_shape(
        root.circuits[0].layers@[index as int],
    ));
    assert(state.no_alphas() =~= root.no_alphas());
}

/// The last answer in a layer adds nothing to the record.
proof fn lemma_last_answer<F: FieldEngine>(
    layer: LayerView<F>,
    event: Event<F::ChallengeField>,
    record: ProofRecord<F::ChallengeField>,
    i: int,
)
    requires
        layer.wf(),
        layer.expects(event),
        !(layer.stage is Done),
        layer.step(event).0.stage is Done,
    ensures
        noted(record, GkrEvent::Layer { event }, GkrAsk::Layer { ask: layer.step(event).1 }, i)
            == record,
{
}

/// The processes are done with the layer in hand.
#[verifier::spinoff_prover]
#[verifier::rlimit(60)]
proof fn lemma_layer_left<F: FieldEngine>(
    gkrs: Seq<GkrView<F>>,
    starting: Seq<Seq<PadView<F::Field, F::ChallengeField>>>,
    states: Seq<GkrView<F>>,
    asks: Seq<GkrAsk<F::ChallengeField>>,
    answers: Seq<GkrEvent<F::ChallengeField>>,
    i: int,
    record: ProofRecord<F::ChallengeField>,
    starts: Seq<LayerView<F>>,
    seg: Seq<Seq<Event<F::ChallengeField>>>,
)
    requires
        answer_together(gkrs, starting, states, asks, answers, i),
        stands(gkrs, states, asks, i, record, starts, seg),
        states[0].stage is Layer,
        answers[0] is Layer,
        states[0].stage->layer.step(answers[0]->event).0.stage is Done,
    ensures
        exists|next: Seq<LayerView<F>>, none: Seq<Seq<Event<F::ChallengeField>>>| #[trigger]
            stands(
                gkrs,
                gkr_stepped(states, answers),
                gkr_asks_then(states, answers),
                i,
                noted(record, answers[0], states[0].step(answers[0]).1, i),
                next,
                none,
            ),
{
    let root = gkrs[0];
    let nexts = gkr_stepped(states, answers);
    let then_asks = gkr_asks_then(states, answers);
    let index = states[0].stage->Layer_index;
    let m = (root.layer_num() - 1 - index) as nat;
    let more = answered(seg, layer_answers(answers));
    let done = states[0].stage->layer.step(answers[0]->event).0;
    let skips = done.skips_phase_two();
    let challenges = done.challenges();
    let alphas = root.no_alphas();
    let dones = Seq::new(gkrs.len(), |p: int| states[p].stage->layer.step(answers[p]->event).0);
    let claimed = Seq::new(gkrs.len(), |p: int| states[p].stage->Layer_claimed);
    let pads = Seq::new(gkrs.len(), |p: int| GkrView::<F>::pads_of(dones[p]));
    lemma_pow2_pos(root.mpi_var_num());
    lemma_layer_answered(gkrs, starting, states, asks, answers, i, record, starts, seg);
    assert(is_of(states[0], root));
    assert(states[0].stage->layer.expects(answers[0]->event));
    lemma_last_answer(states[0].stage->layer, answers[0]->event, record, i);
    lemma_in_hand(gkrs, i, record, m, starts, more);
    assert forall|p: int| 0 <= p < gkrs.len() implies {
        &&& is_of(#[trigger] nexts[p], gkrs[p])
        &&& pads_fit(gkrs[p].circuits, pads[p], root.mpi_var_num())
        &&& (nexts[p], then_asks[p]) == left_by(
            states[p],
            index,
            skips,
            claimed[p],
            challenges,
            alphas,
            pads[p],
        )
        &&& states[p].circuits.len() == root.circuits.len()
        &&& forall|j: int|
            0 <= j < root.circuits.len() ==> pad_holds::<F>(
                #[trigger] pads[p][j],
                challenges[j],
            )
    } by {
        assert(is_of(states[p], gkrs[p]));
        assert(is_like(gkrs[p], root));
        assert(states[p].stage is Layer);
        assert(answers[p] is Layer);
        assert(states[p].expects(answers[p]));
        lemma_done_alike(gkrs, i, record, m, starts, more, p);
        lemma_process_left(gkrs[p], root, states[p], answers[p], index, dones[p]);
        lemma_run_in_step(starts, more, more[0].len(), 0);
        assert forall|j: int| 0 <= j < root.circuits.len() implies pad_holds::<F>(
            #[trigger] pads[p][j],
            challenges[j],
        ) by {
            assert(pads[p][j] == dones[p].insts[j].pad);
        }
    }
    assert(is_like(root, root));
    lemma_done_alike(gkrs, i, record, m, starts, more, 0);
    lemma_process_left(root, root, states[0], answers[0], index, done);
    assert(claimed[0][i] == record.claimed[0]);
    lemma_left_together(
        gkrs,
        starting,
        states,
        nexts,
        then_asks,
        index,
        skips,
        claimed,
        challenges,
        pads,
        i,
        record,
    );
    assert(noted(record, answers[0], then_asks[0], i) == record) by {
        assert(is_of(nexts[0], root));
        assert(can_start(root, starting[0]));
        if skips && index > 0 {
            lemma_next_layer_from(
                states[0],
                nexts[0],
                index,
                claimed[0],
                challenges,
                alphas,
                pads[0],
            );
            lemma_first_ask(nexts[0], index, claimed[0], challenges, alphas, pads[0]);
        }
    }
}

/// The processes go on from a layer together.
proof fn lemma_left_together<F: FieldEngine>(
    gkrs: Seq<GkrView<F>>,
    starting: Seq<Seq<PadView<F::Field, F::ChallengeField>>>,
    states: Seq<GkrView<F>>,
    nexts: Seq<GkrView<F>>,
    asks: Seq<GkrAsk<F::ChallengeField>>,
    index: nat,
    skips: bool,
    claimed: Seq<Seq<F::ChallengeField>>,
    challenges: Seq<ChallengeView<F::ChallengeField>>,
    pads: Seq<Seq<PadView<F::Field, F::ChallengeField>>>,
    i: int,
    record: ProofRecord<F::ChallengeField>,
)
    requires
        prove_together(gkrs, starting),
        computes_all(gkrs, i),
        0 <= i < gkrs[0].circuits.len(),
        index < gkrs[0].layer_num(),
        nexts.len() == gkrs.len(),
        asks.len() == gkrs.len(),
        pads.len() == gkrs.len(),
        challenges_fit::<F>(
            challenges,
            gkrs[0].circuits.len(),
            gkrs[0].circuits[0].layers@[index as int].input_var_num as nat,
            gkrs[0].mpi_var_num(),
            !skips,
        ),
        forall|p: int|
            0 <= p < gkrs.len() ==> {
                &&& is_of(#[trigger] nexts[p], gkrs[p])
                &&& pads_fit(gkrs[p].circuits, pads[p], gkrs[0].mpi_var_num())
                &&& (nexts[p], asks[p]) == left_by(
                    states[p],
                    index,
                    skips,
                    claimed[p],
                    challenges,
                    gkrs[0].no_alphas(),
                    pads[p],
                )
                &&& forall|j: int|
                    0 <= j < gkrs[0].circuits.len() ==> pad_holds::<F>(
                        #[trigger] pads[p][j],
                        challenges[j],
                    )
            },
        settled(gkrs, i, record, (gkrs[0].layer_num() - index) as nat),
        ends_with(gkrs[0], i, record, (gkrs[0].layer_num() - index) as nat),
        leaves_one(gkrs[0], i, (gkrs[0].layer_num() - 1 - index) as nat) == skips,
        record.alphas.len() == alphas_before(
            gkrs[0],
            i,
            (gkrs[0].layer_num() - 1 - index) as nat,
        ),
        challenges[i] == point_on(gkrs[0], i, record, (gkrs[0].layer_num() - index) as nat),
        claimed[0][i] == record.claimed[0],
    ensures
        exists|next: Seq<LayerView<F>>, none: Seq<Seq<Event<F::ChallengeField>>>| #[trigger]
            stands(gkrs, nexts, asks, i, record, next, none),
{
    lemma_pow2_pos(gkrs[0].mpi_var_num());
    if skips {
        lemma_skipped(
            gkrs,
            starting,
            states,
            nexts,
            asks,
            index,
            claimed,
            challenges,
            pads,
            i,
            record,
        );
    } else {
        assert forall|p: int| 0 <= p < nexts.len() implies {
            &&& (#[trigger] nexts[p]).stage is Alpha
            &&& nexts[p].stage->Alpha_index == index
            &&& nexts[p].stage->Alpha_challenges == challenges
            &&& forall|j: int|
                0 <= j < challenges.len() ==> pad_holds::<F>(
                    #[trigger] nexts[p].stage->Alpha_pads[j],
                    challenges[j],
                )
            &&& asks[p] is Alpha
        } by {
            assert(is_of(nexts[p], gkrs[p]));
            assert forall|j: int| 0 <= j < challenges.len() implies pad_holds::<F>(
                #[trigger] nexts[p].stage->Alpha_pads[j],
                challenges[j],
            ) by {
                assert(pad_holds::<F>(pads[p][j], challenges[j]));
            }
        }
        assert(nexts[0].stage is Alpha);
        assert(is_of(nexts[0], gkrs[0]));
        assert(stands(gkrs, nexts, asks, i, record, Seq::empty(), Seq::empty()));
    }
}

/// A layer that leaves one claim is followed by the next at once.
proof fn lemma_skipped<F: FieldEngine>(
    gkrs: Seq<GkrView<F>>,
    starting: Seq<Seq<PadView<F::Field, F::ChallengeField>>>,
    states: Seq<GkrView<F>>,
    nexts: Seq<GkrView<F>>,
    asks: Seq<GkrAsk<F::ChallengeField>>,
    index: nat,
    claimed: Seq<Seq<F::ChallengeField>>,
    challenges: Seq<ChallengeView<F::ChallengeField>>,
    pads: Seq<Seq<PadView<F::Field, F::ChallengeField>>>,
    i: int,
    record: ProofRecord<F::ChallengeField>,
)
    requires
        prove_together(gkrs, starting),
        computes_all(gkrs, i),
        0 <= i < gkrs[0].circuits.len(),
        index < gkrs[0].layer_num(),
        nexts.len() == gkrs.len(),
        asks.len() == gkrs.len(),
        pads.len() == gkrs.len(),
        challenges_fit::<F>(
            challenges,
            gkrs[0].circuits.len(),
            gkrs[0].circuits[0].layers@[index as int].input_var_num as nat,
            gkrs[0].mpi_var_num(),
            false,
        ),
        forall|p: int|
            0 <= p < gkrs.len() ==> {
                &&& is_of(#[trigger] nexts[p], gkrs[p])
                &&& pads_fit(gkrs[p].circuits, pads[p], gkrs[0].mpi_var_num())
                &&& (nexts[p], asks[p]) == states[p].next_layer(
                    index,
                    claimed[p],
                    challenges,
                    gkrs[0].no_alphas(),
                    pads[p],
                )
            },
        settled(gkrs, i, record, (gkrs[0].layer_num() - index) as nat),
        ends_with(gkrs[0], i, record, (gkrs[0].layer_num() - index) as nat),
        leaves_one(gkrs[0], i, (gkrs[0].layer_num() - 1 - index) as nat),
        record.alphas.len() == alphas_before(
            gkrs[0],
            i,
            (gkrs[0].layer_num() - 1 - index) as nat,
        ),
        challenges[i] == point_on(gkrs[0], i, record, (gkrs[0].layer_num() - index) as nat),
        claimed[0][i] == record.claimed[0],
    ensures
        exists|next: Seq<LayerView<F>>, none: Seq<Seq<Event<F::ChallengeField>>>| #[trigger]
            stands(gkrs, nexts, asks, i, record, next, none),
{
    let root = gkrs[0];
    let alphas = root.no_alphas();
    assert forall|p: int| 0 <= p < gkrs.len() implies ((#[trigger] nexts[p]), asks[p])
        == nexts[p].next_layer(index, claimed[p], challenges, alphas, pads[p]) by {
        lemma_next_layer_from(
            states[p],
            nexts[p],
            index,
            claimed[p],
            challenges,
            alphas,
            pads[p],
        );
    }
    lemma_pow2_pos(root.mpi_var_num());
    assert(can_start(root, starting[0]));
    assert(root.circuits[0].wf());
    if index > 0 {
        assert(root.circuits[0].layers@[index as int].input_var_num
            == root.circuits[0].layers@[index - 1].output_var_num);
        assert forall|p: int| 0 <= p < gkrs.len() implies pads_fit(
            gkrs[p].circuits,
            #[trigger] pads[p],
            root.mpi_var_num(),
        ) by {
            assert(is_of(nexts[p], gkrs[p]));
        }
        assert forall|p: int, j: int|
            0 <= p < gkrs.len() && 0 <= j < root.circuits.len() implies pad_holds::<F>(
            #[trigger] pads[p][j],
            challenges[j],
        ) by {
            assert(challenges[j].rz_1 is None);
        }
        assert(can_take(gkrs, (index - 1) as nat, challenges, alphas, pads, false));
    }
    lemma_taken(
        gkrs,
        starting,
        nexts,
        asks,
        index,
        claimed,
        challenges,
        alphas,
        pads,
        false,
        i,
        record,
    );
}

// ---------------------------------------------------------------------------
// Whole proofs
// ---------------------------------------------------------------------------

/// The states that answer `k` comes to, in all processes.
spec fn gkr_states_at<F: FieldEngine>(
    gkrs: Seq<GkrView<F>>,
    pads: Seq<Seq<PadView<F::Field, F::ChallengeField>>>,
    events: Seq<Seq<GkrEvent<F::ChallengeField>>>,
    k: nat,
) -> Seq<GkrView<F>> {
    Seq::new(gkrs.len(), |p: int| gkr_after(gkrs[p].begin(pads[p]).0, events[p], k))
}

proof fn lemma_proof_stands<F: FieldEngine>(
    gkrs: Seq<GkrView<F>>,
    pads: Seq<Seq<PadView<F::Field, F::ChallengeField>>>,
    events: Seq<Seq<GkrEvent<F::ChallengeField>>>,
    i: int,
    k: nat,
)
    requires
        prove_together(gkrs, pads),
        is_joint_proof(gkrs, pads, events),
        gkr_hears_elements(gkrs, events),
        computes_all(gkrs, i),
        0 <= i < gkrs[0].circuits.len(),
        k <= events[0].len(),
    ensures
        exists|starts: Seq<LayerView<F>>, seg: Seq<Seq<Event<F::ChallengeField>>>| #[trigger]
            stands(
                gkrs,
                gkr_states_at(gkrs, pads, events, k),
                gkr_asks_at(gkrs, pads, events, k),
                i,
                proof_record(gkrs[0].begin(pads[0]).0, events[0], k, i),
                starts,
                seg,
            ),
    decreases k,
{
    let start = gkrs[0].begin(pads[0]).0;
    lemma_pow2_pos(gkrs[0].mpi_var_num());
    if k == 0 {
        let states = gkr_states_at(gkrs, pads, events, 0);
        let asks = gkr_asks_at(gkrs, pads, events, 0);
        assert forall|p: int| 0 <= p < gkrs.len() implies is_of(#[trigger] states[p], gkrs[p])
            && states[p].stage is Sample && asks[p] is Sample by {
            assert(can_start(gkrs[p], pads[p]));
        }
        assert(is_of(states[0], gkrs[0]));
        assert(stands(
            gkrs,
            states,
            asks,
            i,
            proof_record(start, events[0], 0, i),
            Seq::empty(),
            Seq::empty(),
        ));
    } else {
        let m = (k - 1) as nat;
        lemma_proof_stands(gkrs, pads, events, i, m);
        let states = gkr_states_at(gkrs, pads, events, m);
        let asks = gkr_asks_at(gkrs, pads, events, m);
        let answers = gkr_answers_at(events, m);
        let record = proof_record(start, events[0], m, i);
        let (starts, seg) = choose|
            starts: Seq<LayerView<F>>,
            seg: Seq<Seq<Event<F::ChallengeField>>>,
        | #[trigger]
            stands(gkrs, states, asks, i, record, starts, seg);
        assert(is_joint_gkr_answer(asks, answers));
        assert forall|p: int| 0 <= p < gkrs.len() implies {
            &&& states[p].expects(#[trigger] answers[p])
            &&& gkr_stays_on_host(answers[p])
            &&& is_heard_right(answers[p], gkrs[0].mpi_var_num())
        } by {
            assert(events[p].len() == events[0].len());
            assert(gkr_after(gkrs[p].begin(pads[p]).0, events[p], m).expects(
                events[p][m as int],
            ));
            assert(gkr_stays_on_host(events[p][m as int]));
            assert(is_heard_right(events[p][m as int], gkrs[0].mpi_var_num()));
        }
        assert(answer_together(gkrs, pads, states, asks, answers, i));
        assert(gkr_states_at(gkrs, pads, events, k) =~= gkr_stepped(states, answers));
        assert(gkr_asks_at(gkrs, pads, events, k) =~= gkr_asks_then(states, answers));
        assert(states[0].expects(answers[0]));
        assert(proof_record(start, events[0], k, i) == noted(
            record,
            answers[0],
            states[0].step(answers[0]).1,
            i,
        ));
        match states[0].stage {
            GkrStageView::Sample { .. } => {
                lemma_sampled(gkrs, pads, states, asks, answers, i, record, starts, seg);
            },
            GkrStageView::Claim { .. } => {
                lemma_claimed(gkrs, pads, states, asks, answers, i, record, starts, seg);
            },
            GkrStageView::Layer { .. } => {
                lemma_layer_went(gkrs, pads, states, asks, answers, i, record, starts, seg);
            },
            GkrStageView::Alpha { .. } => {
                lemma_alphas(gkrs, pads, states, asks, answers, i, record, starts, seg);
            },
            GkrStageView::Done { .. } => {},
        }
    }
}

/// The record has come to layer `m`.
pub open spec fn has_begun<F: FieldEngine>(
    gkr: GkrView<F>,
    i: int,
    record: ProofRecord<F::ChallengeField>,
    m: nat,
) -> bool {
    m < gkr.layer_num() && record.sent.len() > rounds_before(gkr, i, m)
}

/// What a verifier finds in the record of instance `i`: the claimed output is the value of the
/// outputs at the point that was sampled; and as far as the record goes, the part about each layer
/// is that of a proof of what is claimed of it, after complete parts about the layers before it.
pub open spec fn proof_holds<F: FieldEngine>(
    gkrs: Seq<GkrView<F>>,
    i: int,
    record: ProofRecord<F::ChallengeField>,
) -> bool {
    let root = gkrs[0];
    &&& record.claimed.len() <= record.sampled.len() <= 1
    &&& record.claimed.len() == 1 ==> output_holds(gkrs, i, record)
    &&& record.sent.len() > 0 ==> record.claimed.len() == 1
    &&& record.sent.len() <= rounds_before(root, i, root.layer_num())
    &&& forall|m: nat| #[trigger]
        has_begun(root, i, record, m) ==> {
            &&& layer_holds(gkrs, i, record, m)
            &&& m > 0 ==> {
                &&& layer_stands(gkrs, i, record, (m - 1) as nat)
                &&& leaves_one(root, i, (m - 1) as nat) || alphas_before(root, i, (m - 1) as nat)
                    < record.alphas.len()
            }
        }
}

/// The first layers' parts reach no further than the record.
proof fn lemma_settled_holds<F: FieldEngine>(
    gkrs: Seq<GkrView<F>>,
    i: int,
    record: ProofRecord<F::ChallengeField>,
    m: nat,
)
    requires
        settled(gkrs, i, record, m),
        m <= gkrs[0].layer_num(),
        m > 0 ==> alphas_before(gkrs[0], i, (m - 1) as nat) <= record.alphas.len(),
        record.sent.len() <= rounds_before(gkrs[0], i, m) || {
            &&& m < gkrs[0].layer_num()
            &&& layer_holds(gkrs, i, record, m)
            &&& record.sent.len() <= rounds_before(gkrs[0], i, m + 1)
            &&& alphas_before(gkrs[0], i, m) == record.alphas.len()
        },
    ensures
        proof_holds(gkrs, i, record),
{
    let root = gkrs[0];
    let layers = root.layer_num();
    assert forall|q: nat| #[trigger] has_begun(root, i, record, q) implies {
        &&& layer_holds(gkrs, i, record, q)
        &&& q > 0 ==> {
            &&& layer_stands(gkrs, i, record, (q - 1) as nat)
            &&& leaves_one(root, i, (q - 1) as nat) || alphas_before(root, i, (q - 1) as nat)
                < record.alphas.len()
        }
    } by {
        if q > m {
            if m + 1 < q {
                lemma_before_grows(root, i, (m + 1) as nat, q);
            }
            lemma_before_grows(root, i, m, q);
        } else {
            if q < m {
                assert(layer_stands(gkrs, i, record, q));
            }
            if q > 0 {
                assert(layer_stands(gkrs, i, record, (q - 1) as nat));
                lemma_before_grows(root, i, (q - 1) as nat, m);
                if q < m {
                    lemma_before_grows(root, i, (q - 1) as nat, (m - 1) as nat);
                }
            }
        }
    }
    if m < layers {
        lemma_before_grows(root, i, m, layers);
        if m + 1 < layers {
            lemma_before_grows(root, i, m + 1, layers);
        }
    }
}

/// What the root puts into the transcripts, in a proof that processes make together, is what a
/// verifier accepts: at every point of the proof its record holds as far as it goes. Once the proof
/// is done the record is complete, and the results are the claimed output and the points of the
/// last layer's challenges.
pub proof fn lemma_proof_holds<F: FieldEngine>(
    gkrs: Seq<GkrView<F>>,
    pads: Seq<Seq<PadView<F::Field, F::ChallengeField>>>,
    events: Seq<Seq<GkrEvent<F::ChallengeField>>>,
    i: int,
)
    requires
        prove_together(gkrs, pads),
        is_joint_proof(gkrs, pads, events),
        gkr_hears_elements(gkrs, events),
        computes_all(gkrs, i),
        0 <= i < gkrs[0].circuits.len(),
    ensures
        ({
            let start = gkrs[0].begin(pads[0]).0;
            let n = events[0].len();
            let record = proof_record(start, events[0], n, i);
            let state = gkr_after(start, events[0], n);
            let layers = gkrs[0].layer_num();
            &&& proof_holds(gkrs, i, record)
            &&& state.stage is Done ==> {
                &&& record.sent.len() == rounds_before(gkrs[0], i, layers)
                &&& record.drawn.len() == rounds_before(gkrs[0], i, layers)
                &&& record.told.len() == claims_before(gkrs[0], i, layers)
                &&& layer_stands(gkrs, i, record, (layers - 1) as nat)
                &&& state.results().len() == gkrs[0].circuits.len()
                &&& state.results()[i] == (
                    record.claimed[0],
                    point_on(gkrs[0], i, record, layers),
                )
            }
        }),
{
    let root = gkrs[0];
    let start = root.begin(pads[0]).0;
    let n = events[0].len();
    let record = proof_record(start, events[0], n, i);
    let states = gkr_states_at(gkrs, pads, events, n);
    let asks = gkr_asks_at(gkrs, pads, events, n);
    lemma_pow2_pos(root.mpi_var_num());
    lemma_proof_stands(gkrs, pads, events, i, n);
    let (starts, seg) = choose|
        starts: Seq<LayerView<F>>,
        seg: Seq<Seq<Event<F::ChallengeField>>>,
    | #[trigger]
        stands(gkrs, states, asks, i, record, starts, seg);
    assert(is_of(states[0], root));
    assert(can_start(root, pads[0]));
    let layers = root.layer_num();
    match states[0].stage {
        GkrStageView::Layer { index, .. } => {
            let m = (layers - 1 - index) as nat;
            lemma_in_hand(gkrs, i, record, m, starts, seg);
            if m > 0 {
                lemma_before_grows(root, i, (m - 1) as nat, m);
            }
            lemma_settled_holds(gkrs, i, record, m);
        },
        GkrStageView::Alpha { index, .. } => {
            lemma_settled_holds(gkrs, i, record, (layers - index) as nat);
        },
        GkrStageView::Done { .. } => {
            lemma_before_grows(root, i, (layers - 1) as nat, layers);
            lemma_settled_holds(gkrs, i, record, layers);
            assert(layer_stands(gkrs, i, record, (layers - 1) as nat));
        },
        _ => {},
    }
}

/// The entries of a part are those of the whole.
proof fn lemma_cut_at<T>(s: Seq<T>, from: nat, n: nat, k: int)
    requires
        0 <= k < cut(s, from, n).len(),
    ensures
        from + k < s.len(),
        cut(s, from, n)[k] == s[from + k],
{
}

proof fn lemma_cut_parts<T>(s: Seq<T>, from: nat, n: nat, a: int, b: int)
    requires
        n > 0,
        cut(s, from, n).len() == n,
        0 <= a <= b <= n,
    ensures
        from + n <= s.len(),
        cut(s, from, n).subrange(a, b) == s.subrange(from + a, from + b),
{
    assert(cut(s, from, n).subrange(a, b) =~= s.subrange(from + a, from + b));
}

/// The points that the claims of a complete layer are about, in the challenges of the proof.
proof fn lemma_point_drawn<F: FieldEngine>(
    gkr: GkrView<F>,
    i: int,
    record: ProofRecord<F::ChallengeField>,
    m: nat,
)
    requires
        layer_of(gkr, i, m).input_var_num >= 1,
        part_on(gkr, i, record, m).drawn.len() == rounds_of(
            layer_of(gkr, i, m),
            gkr.mpi_var_num(),
        ),
    ensures
        ({
            let n = layer_of(gkr, i, m).input_var_num as int;
            let l = log2_spec(F::pack_size_spec()) as int;
            let w = gkr.mpi_var_num() as int;
            let from = rounds_before(gkr, i, m) as int;
            let point = point_on(gkr, i, record, m + 1);
            &&& point.rz_0 == record.drawn.subrange(from, from + n)
            &&& point.r_simd == record.drawn.subrange(from + n, from + n + l)
            &&& point.r_mpi == record.drawn.subrange(from + n + l, from + n + l + w)
            &&& point.rz_1 == if leaves_one(gkr, i, m) {
                None
            } else {
                Some(record.drawn.subrange(from + n + l + w, from + n + l + w + n))
            }
        }),
{
    let n = layer_of(gkr, i, m).input_var_num as int;
    let l = log2_spec(F::pack_size_spec()) as int;
    let w = gkr.mpi_var_num() as int;
    let from = rounds_before(gkr, i, m);
    let rounds = rounds_of(layer_of(gkr, i, m), gkr.mpi_var_num());
    lemma_cut_parts(record.drawn, from, rounds, 0, n);
    lemma_cut_parts(record.drawn, from, rounds, n, n + l);
    lemma_cut_parts(record.drawn, from, rounds, n + l, n + l + w);
    if !leaves_one(gkr, i, m) {
        lemma_cut_parts(record.drawn, from, rounds, n + l + w, n + l + w + n);
    }
}

/// The claimed output of an instance is the value of the outputs, extended over wires, lanes and
/// processes, at the point that was sampled, and the first values of the proof at zero and one add
/// up to it.
pub proof fn lemma_output_claim<F: FieldEngine>(
    gkrs: Seq<GkrView<F>>,
    i: int,
    record: ProofRecord<F::ChallengeField>,
)
    requires
        proof_holds(gkrs, i, record),
        gkrs[0].layer_num() > 0,
        layer_of(gkrs[0], i, 0).input_var_num >= 1,
        record.sent.len() > 0,
    ensures
        ({
            let point = record.sampled[0];
            let value = value_at::<F>(
                outs_of(gkrs, i, 0),
                point.rz_0,
                point.r_simd,
                point.r_mpi,
            );
            &&& record.claimed[0] == value
            &&& record.sent[0][0].plus_spec(record.sent[0][1]) == value
        }),
{
    assert(has_begun(gkrs[0], i, record, 0));
    let rounds = rounds_of(layer_of(gkrs[0], i, 0), gkrs[0].mpi_var_num());
    assert(rounds > 0);
    lemma_cut_at(record.sent, 0, rounds, 0);
}

/// A layer starts from the claims that the layer before it has left: its first values at zero and
/// one add up to the claim, or to the first claim plus the coefficient that was drawn times the
/// second.
pub proof fn lemma_claims_combined<F: FieldEngine>(
    gkrs: Seq<GkrView<F>>,
    i: int,
    record: ProofRecord<F::ChallengeField>,
    m: nat,
)
    requires
        proof_holds(gkrs, i, record),
        m + 1 < gkrs[0].layer_num(),
        layer_of(gkrs[0], i, m + 1).input_var_num >= 1,
        record.sent.len() > rounds_before(gkrs[0], i, m + 1),
    ensures
        ({
            let root = gkrs[0];
            let values = record.sent[rounds_before(root, i, m + 1) as int];
            let k = claims_before(root, i, m) as int;
            values[0].plus_spec(values[1]) == if leaves_one(root, i, m) {
                record.told[k]
            } else {
                let alpha = record.alphas[alphas_before(root, i, m) as int];
                record.told[k].plus_spec(alpha.times_spec(record.told[k + 1]))
            }
        }),
{
    let root = gkrs[0];
    let next = layer_of(root, i, m + 1);
    let part = part_on(root, i, record, m);
    assert(has_begun(root, i, record, m + 1));
    lemma_cut_at(
        record.sent,
        rounds_before(root, i, m + 1),
        rounds_of(next, root.mpi_var_num()),
        0,
    );
    let claims = claims_of(layer_of(root, i, m));
    lemma_cut_at(record.told, claims_before(root, i, m), claims, 0);
    if !leaves_one(root, i, m) {
        lemma_cut_at(record.told, claims_before(root, i, m), claims, 1);
    }
}

/// The claims that a layer leaves are the values of its inputs, extended over wires, lanes and
/// processes, at the challenges that were drawn in its rounds.
pub proof fn lemma_claims_told<F: FieldEngine>(
    gkrs: Seq<GkrView<F>>,
    i: int,
    record: ProofRecord<F::ChallengeField>,
    m: nat,
)
    requires
        layer_stands(gkrs, i, record, m),
        layer_of(gkrs[0], i, m).input_var_num >= 1,
    ensures
        ({
            let root = gkrs[0];
            let n = layer_of(root, i, m).input_var_num as int;
            let l = log2_spec(F::pack_size_spec()) as int;
            let w = root.mpi_var_num() as int;
            let k = claims_before(root, i, m) as int;
            let from = rounds_before(root, i, m) as int;
            let r_simd = record.drawn.subrange(from + n, from + n + l);
            let r_mpi = record.drawn.subrange(from + n + l, from + n + l + w);
            let ins = ins_of(gkrs, i, m);
            &&& record.told[k] == value_at::<F>(
                ins,
                record.drawn.subrange(from, from + n),
                r_simd,
                r_mpi,
            )
            &&& !leaves_one(root, i, m) ==> record.told[k + 1] == value_at::<F>(
                ins,
                record.drawn.subrange(from + n + l + w, from + n + l + w + n),
                r_simd,
                r_mpi,
            )
        }),
{
    let root = gkrs[0];
    let claims = claims_of(layer_of(root, i, m));
    lemma_point_drawn(root, i, record, m);
    lemma_cut_at(record.told, claims_before(root, i, m), claims, 0);
    if !leaves_one(root, i, m) {
        lemma_cut_at(record.told, claims_before(root, i, m), claims, 1);
    }
}

/// The result of an instance in a finished proof: the claimed output, and the challenges that were
/// drawn in the rounds of the last layer, over the first input wires, over the second unless that
/// phase is skipped, over the lanes and over the processes.
pub proof fn lemma_results_drawn<F: FieldEngine>(
    gkrs: Seq<GkrView<F>>,
    pads: Seq<Seq<PadView<F::Field, F::ChallengeField>>>,
    events: Seq<Seq<GkrEvent<F::ChallengeField>>>,
    i: int,
)
    requires
        prove_together(gkrs, pads),
        is_joint_proof(gkrs, pads, events),
        gkr_hears_elements(gkrs, events),
        computes_all(gkrs, i),
        0 <= i < gkrs[0].circuits.len(),
        gkr_after(gkrs[0].begin(pads[0]).0, events[0], events[0].len()).stage is Done,
    ensures
        ({
            let root = gkrs[0];
            let start = root.begin(pads[0]).0;
            let record = proof_record(start, events[0], events[0].len(), i);
            let results = gkr_after(start, events[0], events[0].len()).results();
            let layer = root.circuits[i].layers@[0];
            let n = layer.input_var_num as int;
            let l = log2_spec(F::pack_size_spec()) as int;
            let w = root.mpi_var_num() as int;
            let from = rounds_before(root, i, (root.layer_num() - 1) as nat) as int;
            &&& results[i].0 == record.claimed[0]
            &&& results[i].1.rz_0 == record.drawn.subrange(from, from + n)
            &&& results[i].1.r_simd == record.drawn.subrange(from + n, from + n + l)
            &&& results[i].1.r_mpi == record.drawn.subrange(from + n + l, from + n + l + w)
            &&& results[i].1.rz_1 == if layer.structure_info.skip_sumcheck_phase_two {
                None
            } else {
                Some(record.drawn.subrange(from + n + l + w, from + n + l + w + n))
            }
            &&& record.drawn.len() == from + n + l + w
                + if layer.structure_info.skip_sumcheck_phase_two {
                0
            } else {
                n
            }
        }),
{
    let root = gkrs[0];
    let start = root.begin(pads[0]).0;
    let record = proof_record(start, events[0], events[0].len(), i);
    let k = (root.layer_num() - 1) as nat;
    lemma_proof_holds(gkrs, pads, events, i);
    lemma_pow2_pos(root.mpi_var_num());
    assert(can_start(root, pads[0]));
    assert(root.circuits[i].layers@[0].same_shape(root.circuits[0].layers@[0]));
    assert(root.circuits[0].layers@[0].input_var_num >= 1);
    assert(layer_of(root, i, k) == root.circuits[i].layers@[0]);
    lemma_point_drawn(root, i, record, k);
}

// ---------------------------------------------------------------------------
// With a GPU
// ---------------------------------------------------------------------------

/// The values and claims of instance `i` in questions.
spec fn said<E>(asks: Seq<GkrAsk<E>>, i: int) -> (Seq<Seq<E>>, Seq<E>)
    decreases asks.len(),
{
    if asks.len() == 0 {
        (Seq::empty(), Seq::empty())
    } else {
        let (sent, told) = said(asks.drop_last(), i);
        match asks.last() {
            GkrAsk::Layer { ask: Ask::Challenge { evals } } => (sent.push(evals[i]), told),
            GkrAsk::Layer { ask: Ask::Append { claims } } => (sent, told.push(claims[i])),
            _ => (sent, told),
        }
    }
}

/// They are those of the record.
proof fn lemma_said<F: FieldEngine>(
    gkr: GkrView<F>,
    events: Seq<GkrEvent<F::ChallengeField>>,
    n: nat,
    i: int,
)
    ensures
        ({
            let record = proof_record(gkr, events, n, i);
            said(gkr_questions(gkr, events, n), i) == (record.sent, record.told)
        }),
    decreases n,
{
    if n > 0 {
        let m = (n - 1) as nat;
        lemma_said(gkr, events, m, i);
        let ask = gkr_after(gkr, events, m).step(events[m as int]).1;
        let before = gkr_questions(gkr, events, m);
        assert(before.push(ask).drop_last() =~= before);
    }
}

/// What is heard is the same without the answers of a GPU.
proof fn lemma_heard<F: FieldEngine>(
    gkr: GkrView<F>,
    events: Seq<GkrEvent<F::ChallengeField>>,
    n: nat,
    i: int,
)
    requires
        n <= events.len(),
    ensures
        ({
            let hosts = gkr_host_events(events, n);
            let (a, b) = (
                proof_record(gkr, events, n, i),
                proof_record(gkr, hosts, hosts.len(), i),
            );
            &&& a.sampled == b.sampled
            &&& a.claimed == b.claimed
            &&& a.drawn == b.drawn
            &&& a.alphas == b.alphas
        }),
    decreases n,
{
    if n > 0 {
        let m = (n - 1) as nat;
        lemma_heard(gkr, events, m, i);
        let before = gkr_host_events(events, m);
        let event = events[m as int];
        if !gkr_from_gpu(event) {
            lemma_record_front(gkr, before, gkr_without_gpu(event), before.len(), i);
        }
    }
}

/// The record of the first answers depends on them alone.
proof fn lemma_record_front<F: FieldEngine>(
    gkr: GkrView<F>,
    events: Seq<GkrEvent<F::ChallengeField>>,
    event: GkrEvent<F::ChallengeField>,
    n: nat,
    i: int,
)
    requires
        n <= events.len(),
    ensures
        proof_record(gkr, events.push(event), n, i) == proof_record(gkr, events, n, i),
        gkr_after(gkr, events.push(event), n) == gkr_after(gkr, events, n),
    decreases n,
{
    if n > 0 {
        lemma_record_front(gkr, events, event, (n - 1) as nat, i);
        assert(events.push(event)[n - 1] == events[n - 1]);
    }
}

/// The same holds of a root that uses a GPU, as long as the GPU does its work or says that it has
/// not: its record is that of a proof on the host, and so are its results.
pub proof fn lemma_gpu_proof_holds<F: FieldEngine>(
    gkrs: Seq<GkrView<F>>,
    pads: Seq<Seq<PadView<F::Field, F::ChallengeField>>>,
    events: Seq<Seq<GkrEvent<F::ChallengeField>>>,
    i: int,
)
    requires
        prove_together(gkrs, pads),
        events.len() == gkrs.len(),
        gkr_all_expected(gkrs[0].begin(pads[0]).0, events[0]),
        gkr_all_faithful(gkrs[0].begin(pads[0]).0, events[0]),
        is_joint_proof(
            gkrs,
            pads,
            Seq::new(gkrs.len(), |p: int| gkr_host_events(events[p], events[p].len())),
        ),
        gkr_hears_elements(
            gkrs,
            Seq::new(gkrs.len(), |p: int| gkr_host_events(events[p], events[p].len())),
        ),
        computes_all(gkrs, i),
        0 <= i < gkrs[0].circuits.len(),
    ensures
        ({
            let start = gkrs[0].begin(pads[0]).0;
            let n = events[0].len();
            let hosts = gkr_host_events(events[0], n);
            let record = proof_record(start, events[0], n, i);
            let state = gkr_after(start, events[0], n);
            let layers = gkrs[0].layer_num();
            &&& record == proof_record(start, hosts, hosts.len(), i)
            &&& state.results() == gkr_after(start, hosts, hosts.len()).results()
            &&& proof_holds(gkrs, i, record)
            &&& state.stage is Done ==> {
                &&& layer_stands(gkrs, i, record, (layers - 1) as nat)
                &&& state.results()[i] == (
                    record.claimed[0],
                    point_on(gkrs[0], i, record, layers),
                )
            }
        }),
{
    let root = gkrs[0];
    let start = root.begin(pads[0]).0;
    let n = events[0].len();
    let all = Seq::new(gkrs.len(), |p: int| gkr_host_events(events[p], events[p].len()));
    let hosts = gkr_host_events(events[0], n);
    lemma_pow2_pos(root.mpi_var_num());
    assert(can_start(root, pads[0]));
    assert(all[0] == hosts);
    lemma_gkr_gpu_run(root, pads[0], pads[0], events[0]);
    lemma_said(start, events[0], n, i);
    lemma_said(start, hosts, hosts.len(), i);
    lemma_heard(start, events[0], n, i);
    let asked = gkr_questions(start, events[0], n);
    let h = gkr_after(start, hosts, hosts.len());
    assert(asked.push(gkr_pending(h)).drop_last() =~= asked);
    lemma_proof_holds(gkrs, pads, all, i);
}

} // verus!
