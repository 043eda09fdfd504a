//! What the transcripts of a run hold. The processes of a proof run the layer together: the root's
//! answers are the weighted sums and the shares of all of them, and the challenges go to all. The
//! values that the root then sends, round by round, are those of one chain.

use vstd::arithmetic::power2::*;
use vstd::prelude::*;

use crate::chain::{
    absorbed, continues, hg_shares, holds_first_terms, lane_shares, lanes_folded,
    lemma_first_phase_chain, lemma_first_terms, lemma_phases_chain, lemma_second_phase_chain,
    lemma_second_ready, poly_scaled, second_message, v_shares, wire_shares, wired, wires_folded,
    FirstPhase,
};
use crate::claims::stays_on_host;
use crate::dispatch::{
    all_faithful, from_gpu, host_events, lemma_gpu_run, pending, questions, without_gpu,
};
use crate::engine::{log2_spec, FieldEngine};
use crate::extension::{lemma_eq_weight_valid, promoted};
use crate::field::Field;
use crate::gates::{is_ready, lemma_phase_ready};
use crate::gkr_protocol::eq_table;
use crate::instance::{InstView, PadView};
use crate::lockstep::{after, all_expected};
use crate::protocol::{
    lemma_folded, lemma_shape_kept, lemma_start_wf, lemma_step_layers, lemma_step_wf, Ask, Event,
    LayerView, StageView,
};
use crate::rounds::all_valid;

verus! {

// ---------------------------------------------------------------------------
// Runs of all processes
// ---------------------------------------------------------------------------

/// The values that challenges were asked for after, in order.
pub open spec fn messages_of<E>(asks: Seq<Ask<E>>) -> Seq<Seq<Seq<E>>>
    decreases asks.len(),
{
    if asks.len() == 0 {
        Seq::empty()
    } else {
        let before = messages_of(asks.drop_last());
        match asks.last() {
            Ask::Challenge { evals } => before.push(evals),
            _ => before,
        }
    }
}

/// The challenges among the first `n` answers, in order.
pub open spec fn drawn<E>(events: Seq<Event<E>>, n: nat) -> Seq<Seq<E>>
    decreases n,
{
    if n == 0 {
        Seq::empty()
    } else {
        let before = drawn(events, (n - 1) as nat);
        match events[n - 1] {
            Event::Challenged { r } => before.push(r),
            _ => before,
        }
    }
}

/// The question that answer `k` is to.
pub open spec fn asked<F: FieldEngine>(
    layer: LayerView<F>,
    events: Seq<Event<F::ChallengeField>>,
    k: nat,
) -> Ask<F::ChallengeField> {
    if k == 0 {
        layer.start().1
    } else {
        after(layer.start().0, events, (k - 1) as nat).step(events[k - 1]).1
    }
}

/// The state that answer `k` comes to.
pub open spec fn reached<F: FieldEngine>(
    layer: LayerView<F>,
    events: Seq<Event<F::ChallengeField>>,
    k: nat,
) -> LayerView<F> {
    after(layer.start().0, events, k)
}

/// What the processes are answered to one question each: the root hears the weighted sum of their
/// values or the shares of all of them; all hear the same challenges, and the root's claims.
pub open spec fn is_joint_answer<E: Field>(asks: Seq<Ask<E>>, answers: Seq<Event<E>>) -> bool {
    match asks[0] {
        Ask::Combine { values, coefs } => answers[0] == (Event::Combined {
            values: Seq::new(
                values.len(),
                |i: int|
                    absorbed(
                        coefs[i],
                        Seq::new(asks.len(), |p: int| asks[p]->values[i]),
                        values[i].len(),
                    ),
            ),
        }),
        Ask::Gather { v, hg } => answers[0] == (Event::Gathered {
            v: Seq::new(v.len(), |i: int| Seq::new(asks.len(), |p: int| asks[p]->v[i])),
            hg: Seq::new(hg.len(), |i: int| Seq::new(asks.len(), |p: int| asks[p]->hg[i])),
        }),
        Ask::Challenge { .. } => forall|p: int|
            0 <= p < answers.len() ==> #[trigger] answers[p] == answers[0],
        Ask::Broadcast { roots } => forall|p: int|
            0 <= p < answers.len() ==> #[trigger] answers[p] == (Event::Broadcasted { roots }),
        _ => true,
    }
}

/// The questions of all processes that answer `k` is to.
pub open spec fn asks_at<F: FieldEngine>(
    starts: Seq<LayerView<F>>,
    events: Seq<Seq<Event<F::ChallengeField>>>,
    k: nat,
) -> Seq<Ask<F::ChallengeField>> {
    Seq::new(starts.len(), |p: int| asked(starts[p], events[p], k))
}

/// Answer `k` to each process.
pub open spec fn answers_at<E>(events: Seq<Seq<Event<E>>>, k: nat) -> Seq<Event<E>> {
    Seq::new(events.len(), |p: int| events[p][k as int])
}

/// The processes run a layer together on the host.
pub open spec fn is_joint_run<F: FieldEngine>(
    starts: Seq<LayerView<F>>,
    events: Seq<Seq<Event<F::ChallengeField>>>,
) -> bool {
    &&& events.len() == starts.len()
    &&& forall|p: int|
        0 <= p < starts.len() ==> {
            &&& (#[trigger] events[p]).len() == events[0].len()
            &&& all_expected(starts[p].start().0, events[p])
            &&& forall|k: int| 0 <= k < events[p].len() ==> stays_on_host(#[trigger] events[p][k])
        }
    &&& forall|k: nat|
        k < events[0].len() ==> is_joint_answer(
            #[trigger] asks_at(starts, events, k),
            answers_at(events, k),
        )
}

/// With two claims to prove, the scratch pad still holds the equality tables over the lane and the
/// process variables of the point that they are about.
pub open spec fn holds_point<F: FieldEngine>(inst: InstView<F>) -> bool {
    inst.is_output_layer || inst.alpha is None || {
        &&& forall|l: int|
            0 <= l < F::pack_size_spec() ==> #[trigger] inst.pad.eq_simd[l] == eq_table(
                inst.challenge.r_simd,
            )[l]
        &&& forall|k: int|
            0 <= k < pow2(inst.mpi_var_num) ==> #[trigger] inst.pad.eq_mpi[k] == eq_table(
                inst.challenge.r_mpi,
            )[k]
    }
}

/// One layer of each of a number of processes, about to prove claims at the same points.
pub open spec fn start_together<F: FieldEngine>(starts: Seq<LayerView<F>>) -> bool {
    let root = starts[0];
    &&& starts.len() == pow2(root.mpi_var_num())
    &&& root.input_var_num() >= 1
    &&& forall|p: int|
        0 <= p < starts.len() ==> {
            let layer = #[trigger] starts[p];
            &&& layer.uniform()
            &&& !layer.gpu
            &&& layer.seen(0, 0, 0, 0)
            &&& layer.insts.len() == root.insts.len()
            &&& layer.input_var_num() == root.input_var_num()
            &&& layer.mpi_var_num() == root.mpi_var_num()
            &&& layer.skips_phase_two() == root.skips_phase_two()
        }
    &&& forall|p: int, i: int|
        0 <= p < starts.len() && 0 <= i < root.insts.len() ==> {
            let inst = #[trigger] starts[p].insts[i];
            &&& all_valid(promoted::<F>(inst.layer.input_vals@), pow2(root.input_var_num()))
            &&& inst.challenge == root.insts[i].challenge
            &&& holds_point(inst)
        }
}

/// The challenge of round `j` to instance `i`, and zero where none has been drawn.
pub open spec fn challenge_at<E: Field>(d: Seq<Seq<E>>, i: int, j: int) -> E {
    if j < d.len() {
        d[j][i]
    } else {
        E::zero_spec()
    }
}

/// The first phase of instance `i`, with the challenges of a run.
pub open spec fn first_phase<F: FieldEngine>(
    starts: Seq<LayerView<F>>,
    d: Seq<Seq<F::ChallengeField>>,
    i: int,
) -> FirstPhase<F> {
    let n = starts[0].input_var_num();
    let l = log2_spec(F::pack_size_spec());
    FirstPhase {
        procs: Seq::new(starts.len(), |p: int| starts[p].prepared().insts[i]),
        rx: Seq::new(n, |k: int| challenge_at(d, i, k)),
        r_simd: Seq::new(l, |k: int| challenge_at(d, i, n + k)),
        r_mpi: Seq::new(starts[0].mpi_var_num(), |k: int| challenge_at(d, i, n + l + k)),
    }
}

/// The challenges of its second phase.
pub open spec fn second_challenges<F: FieldEngine>(
    starts: Seq<LayerView<F>>,
    d: Seq<Seq<F::ChallengeField>>,
    i: int,
) -> Seq<F::ChallengeField> {
    let rounds = first_phase(starts, d, i).rounds() as int;
    Seq::new(starts[0].input_var_num(), |k: int| challenge_at(d, i, rounds + k))
}

/// The values of round `j` of instance `i`, over both phases.
pub open spec fn message_at<F: FieldEngine>(
    starts: Seq<LayerView<F>>,
    d: Seq<Seq<F::ChallengeField>>,
    i: int,
    j: nat,
) -> Seq<F::ChallengeField> {
    let phase = first_phase(starts, d, i);
    if j < phase.rounds() {
        phase.message(j)
    } else {
        second_message(
            phase.second_procs(),
            eq_table(phase.r_mpi),
            phase.second_coef(),
            second_challenges(starts, d, i),
            (j - phase.rounds()) as nat,
        )
    }
}

// ---------------------------------------------------------------------------
// Starting
// ---------------------------------------------------------------------------

proof fn lemma_eq_table_valid<E: Field>(r: Seq<E>, i: int)
    requires
        0 <= i < pow2(r.len()),
    ensures
        eq_table(r)[i].valid(),
{
    E::law_closed(E::one_spec(), E::one_spec());
    lemma_eq_weight_valid(r, E::one_spec(), i);
}

/// What a process holds of an instance at the start of the first phase.
proof fn lemma_prepared<F: FieldEngine>(inst: InstView<F>)
    requires
        inst.wf(),
        holds_point(inst),
        all_valid(promoted::<F>(inst.layer.input_vals@), pow2(inst.input_var_num())),
    ensures
        ({
            let next = inst.simd_prepared().mpi_prepared().x_prepared();
            &&& next.wf()
            &&& next.layer == inst.layer
            &&& next.challenge == inst.challenge
            &&& next.mpi_var_num == inst.mpi_var_num
            &&& next.rx == inst.rx
            &&& next.ry == inst.ry
            &&& next.r_simd_var == inst.r_simd_var
            &&& next.r_mpi_var == inst.r_mpi_var
            &&& is_ready(next, 0)
            &&& holds_first_terms(next)
            &&& forall|l: int|
                0 <= l < F::pack_size_spec() ==> #[trigger] next.pad.eq_simd[l] == eq_table(
                    inst.challenge.r_simd,
                )[l]
            &&& next.process_weights() == eq_table(inst.challenge.r_mpi)
            &&& inst.challenge.r_mpi.len() == inst.mpi_var_num
            &&& pow2(inst.challenge.r_simd.len()) == F::pack_size_spec()
        }),
{
    let point = inst.simd_prepared().mpi_prepared();
    let next = point.x_prepared();
    F::law_pack_size();
    assert(point.wf());
    lemma_phase_ready(point, F::ChallengeField::zero_spec());
    lemma_first_terms(point);
    assert(next.process_weights() =~= eq_table(inst.challenge.r_mpi));
}

/// The phase that processes start on together can be gone through.
pub proof fn lemma_first_phase_starts<F: FieldEngine>(
    starts: Seq<LayerView<F>>,
    d: Seq<Seq<F::ChallengeField>>,
    i: int,
)
    requires
        start_together(starts),
        0 <= i < starts[0].insts.len(),
    ensures
        first_phase(starts, d, i).wf(),
        first_phase(starts, d, i).is_prepared(),
        first_phase(starts, d, i).wires() == starts[0].input_var_num(),
        first_phase(starts, d, i).world() == starts[0].mpi_var_num(),
        forall|p: int|
            0 <= p < starts.len() ==> (#[trigger] first_phase(starts, d, i).procs[p]).layer
                == starts[p].insts[i].layer,
{
    let phase = first_phase(starts, d, i);
    let point = starts[0].insts[i].challenge;
    lemma_pow2_pos(starts[0].mpi_var_num());
    assert forall|p: int| 0 <= p < starts.len() implies {
        let inst = #[trigger] phase.procs[p];
        &&& inst.wf()
        &&& inst.layer == starts[p].insts[i].layer
        &&& inst.input_var_num() == starts[0].input_var_num()
        &&& inst.mpi_var_num == starts[0].mpi_var_num()
        &&& inst.challenge == point
        &&& inst.rx.len() == 0
        &&& inst.r_simd_var.len() == 0
        &&& is_ready(inst, 0)
        &&& holds_first_terms(inst)
        &&& forall|l: int|
            0 <= l < F::pack_size_spec() ==> #[trigger] inst.pad.eq_simd[l] == eq_table(
                point.r_simd,
            )[l]
        &&& inst.process_weights() == eq_table(point.r_mpi)
        &&& point.r_mpi.len() == inst.mpi_var_num
        &&& pow2(point.r_simd.len()) == F::pack_size_spec()
    } by {
        assert(starts[p].uniform());
        let inst = starts[p].insts[i];
        assert(inst.wf());
        assert(holds_point(inst));
        lemma_prepared(inst);
    }
    assert(phase.procs[0].wf());
    assert forall|p: int| 0 <= p < phase.procs.len() implies all_valid(
        (#[trigger] phase.procs[p]).pad.eq_simd,
        F::pack_size_spec() as nat,
    ) by {
        let inst = phase.procs[p];
        assert forall|l: int| 0 <= l < F::pack_size_spec() implies (
        #[trigger] inst.pad.eq_simd[l]).valid() by {
            lemma_eq_table_valid(point.r_simd, l);
        }
    }
    assert forall|k: int| 0 <= k < phase.procs.len() implies (
    #[trigger] phase.weights()[k]).valid() by {
        lemma_eq_table_valid(point.r_mpi, k);
    }
}

// ---------------------------------------------------------------------------
// Where the processes stand
// ---------------------------------------------------------------------------

/// Instance `i` in all processes.
spec fn procs_at<F: FieldEngine>(states: Seq<LayerView<F>>, i: int) -> Seq<InstView<F>> {
    Seq::new(states.len(), |p: int| states[p].insts[i])
}

/// An instance that differs from another in what it holds over the process variables.
spec fn gathered_from<F: FieldEngine>(
    a: InstView<F>,
    b: InstView<F>,
    r_mpi: Seq<F::ChallengeField>,
) -> bool {
    a == (InstView {
        pad: PadView {
            eq_mpi: a.pad.eq_mpi,
            mpi_v: a.pad.mpi_v,
            mpi_hg: a.pad.mpi_hg,
            ..b.pad
        },
        r_mpi_var: r_mpi,
        ..b
    })
}

/// The processes have come through the first phase's lane rounds and `k` of its process rounds.
spec fn at_processes<F: FieldEngine>(phase: FirstPhase<F>, now: Seq<InstView<F>>, k: nat) -> bool {
    &&& now[0] == phase.at_process(k)
    &&& forall|p: int|
        0 <= p < now.len() ==> gathered_from(
            #[trigger] now[p],
            phase.at_lane(phase.lanes())[p],
            phase.r_mpi.take(k as int),
        )
}

/// The processes have come through `k` rounds of the second phase.
spec fn at_second<F: FieldEngine>(
    phase: FirstPhase<F>,
    ry: Seq<F::ChallengeField>,
    now: Seq<InstView<F>>,
    k: nat,
) -> bool {
    &&& now[0].process_weights() == eq_table(phase.r_mpi)
    &&& now[0].pad.phase2_coef == phase.second_coef()
    &&& forall|p: int|
        0 <= p < now.len() ==> gathered_from(
            #[trigger] now[p],
            wired(phase.second_procs(), false, ry, k)[p],
            phase.r_mpi,
        )
}

/// Where the processes stand in their phases after `j` challenges.
spec fn stands<F: FieldEngine>(
    phase: FirstPhase<F>,
    ry: Seq<F::ChallengeField>,
    stage: StageView<F::ChallengeField>,
    now: Seq<InstView<F>>,
    j: nat,
) -> bool {
    let (n, l) = (phase.wires(), phase.lanes());
    match stage {
        StageView::GpuSetup { first } => if first {
            now == phase.procs && j == 0
        } else {
            at_second(phase, ry, now, 0) && j == phase.rounds()
        },
        StageView::Combine { first, var } | StageView::Challenge { first, var } => if first {
            now == phase.at_wire(var) && j == var
        } else {
            at_second(phase, ry, now, var) && j == phase.rounds() + var
        },
        StageView::SimdCombine { var } | StageView::SimdChallenge { var } => now == phase.at_lane(
            var,
        ) && j == n + var,
        StageView::Gather => now == phase.at_lane(l) && j == n + l,
        StageView::MpiChallenge { var } => at_processes(phase, now, var) && j == n + l + var,
        StageView::VxAppend | StageView::Broadcast => at_processes(phase, now, phase.world()) && j
            == phase.rounds(),
        StageView::VyCombine | StageView::VyAppend { .. } => j == phase.rounds() + n,
        StageView::Done { claim } => j == if claim is Some {
            phase.rounds() + n
        } else {
            phase.rounds()
        },
        _ => false,
    }
}

/// The values of round `j`, over both phases.
spec fn round_message<F: FieldEngine>(
    phase: FirstPhase<F>,
    ry: Seq<F::ChallengeField>,
    j: nat,
) -> Seq<F::ChallengeField> {
    if j < phase.rounds() {
        phase.message(j)
    } else {
        second_message(
            phase.second_procs(),
            eq_table(phase.r_mpi),
            phase.second_coef(),
            ry,
            (j - phase.rounds()) as nat,
        )
    }
}

/// The challenge of round `j`, over both phases.
spec fn round_challenge<F: FieldEngine>(
    phase: FirstPhase<F>,
    ry: Seq<F::ChallengeField>,
    j: nat,
) -> F::ChallengeField {
    if j < phase.rounds() {
        phase.challenge(j)
    } else {
        ry[j - phase.rounds()]
    }
}

/// The question that a layer on the host has out, where it can be told from its state.
pub open spec fn fits_ask<F: FieldEngine>(
    layer: LayerView<F>,
    ask: Ask<F::ChallengeField>,
) -> bool {
    match layer.stage {
        StageView::Combine { first, var } => ask == layer.host_round(first, var).1,
        StageView::SimdCombine { var } => ask == layer.start_simd_round(var).1,
        StageView::Gather => ask == layer.start_simd_round(layer.simd_var_num()).1,
        StageView::Challenge { .. } => ask is Challenge,
        StageView::SimdChallenge { .. } => ask is Challenge,
        StageView::MpiChallenge { .. } => ask is Challenge,
        StageView::Broadcast => ask == (Ask::Broadcast { roots: layer.vx_claims() }),
        StageView::VyCombine => ask == layer.end_phase(false).1,
        _ => !(ask is Challenge),
    }
}

/// A round's values await their challenge.
pub open spec fn awaits_challenge<E>(stage: StageView<E>) -> bool {
    stage is Challenge || stage is SimdChallenge || stage is MpiChallenge
}

/// Stages that are the same but for the claims in them.
pub open spec fn same_stage<E>(a: StageView<E>, b: StageView<E>) -> bool {
    match a {
        StageView::VyAppend { .. } => b is VyAppend,
        StageView::Done { .. } => b is Done,
        _ => a == b,
    }
}

/// A layer on the host of a given shape.
pub open spec fn on_host<F: FieldEngine>(layer: LayerView<F>, root: LayerView<F>) -> bool {
    &&& layer.wf()
    &&& !layer.gpu
    &&& layer.insts.len() == root.insts.len()
    &&& layer.input_var_num() == root.input_var_num()
    &&& layer.mpi_var_num() == root.mpi_var_num()
    &&& layer.skips_phase_two() == root.skips_phase_two()
    &&& same_stage(layer.stage, root.stage)
}

/// A step on the host keeps the shape, and its question fits.
proof fn lemma_host_step<F: FieldEngine>(layer: LayerView<F>, event: Event<F::ChallengeField>)
    requires
        layer.wf(),
        !layer.gpu,
        layer.input_var_num() >= 1,
        layer.expects(event),
        stays_on_host(event),
    ensures
        ({
            let (next, ask) = layer.step(event);
            &&& next.wf()
            &&& !next.gpu
            &&& next.insts.len() == layer.insts.len()
            &&& next.input_var_num() == layer.input_var_num()
            &&& next.mpi_var_num() == layer.mpi_var_num()
            &&& next.skips_phase_two() == layer.skips_phase_two()
            &&& fits_ask(next, ask)
            &&& ask is Challenge <==> awaits_challenge(next.stage)
        }),
{
    lemma_step_wf(layer, event);
    lemma_step_layers(layer, event);
    assert(layer.step(event).0.insts[0].layer == layer.insts[0].layer);
}

/// Layers of one shape step to the same stage.
proof fn lemma_same_stage<F: FieldEngine>(
    a: LayerView<F>,
    b: LayerView<F>,
    x: Event<F::ChallengeField>,
    y: Event<F::ChallengeField>,
)
    requires
        on_host(b, b),
        on_host(a, b),
        b.input_var_num() >= 1,
        a.expects(x),
        b.expects(y),
        stays_on_host(x),
        stays_on_host(y),
    ensures
        same_stage(a.step(x).0.stage, b.step(y).0.stage),
{
    lemma_host_step(a, x);
    lemma_host_step(b, y);
}

/// The processes put their questions and are answered together.
spec fn together<F: FieldEngine>(
    phase: FirstPhase<F>,
    states: Seq<LayerView<F>>,
    asks: Seq<Ask<F::ChallengeField>>,
    answers: Seq<Event<F::ChallengeField>>,
    i: int,
) -> bool {
    &&& phase.wf()
    &&& phase.is_prepared()
    &&& states.len() == phase.procs.len()
    &&& asks.len() == states.len()
    &&& answers.len() == states.len()
    &&& 0 <= i < states[0].insts.len()
    &&& states[0].input_var_num() == phase.wires()
    &&& states[0].mpi_var_num() == phase.world()
    &&& forall|p: int|
        0 <= p < states.len() ==> {
            &&& on_host(#[trigger] states[p], states[0])
            &&& states[p].expects(answers[p])
            &&& stays_on_host(answers[p])
            &&& fits_ask(states[p], asks[p])
        }
    &&& is_joint_answer(asks, answers)
}

/// The states that the answers lead to.
spec fn stepped<F: FieldEngine>(
    states: Seq<LayerView<F>>,
    answers: Seq<Event<F::ChallengeField>>,
) -> Seq<LayerView<F>> {
    Seq::new(states.len(), |p: int| states[p].step(answers[p]).0)
}

/// A round over the wire variables is combined.
proof fn lemma_wires_combined<F: FieldEngine>(
    phase: FirstPhase<F>,
    ry: Seq<F::ChallengeField>,
    states: Seq<LayerView<F>>,
    asks: Seq<Ask<F::ChallengeField>>,
    answers: Seq<Event<F::ChallengeField>>,
    i: int,
    j: nat,
    first: bool,
    var: nat,
)
    requires
        together(phase, states, asks, answers, i),
        states[0].stage == (StageView::<F::ChallengeField>::Combine { first, var }),
        stands(phase, ry, states[0].stage, procs_at(states, i), j),
    ensures
        stands(
            phase,
            ry,
            states[0].step(answers[0]).0.stage,
            procs_at(stepped(states, answers), i),
            j,
        ),
        states[0].step(answers[0]).1 is Challenge,
        states[0].step(answers[0]).1->evals[i] == round_message(phase, ry, j),
{
    let now = procs_at(states, i);
    let nexts = stepped(states, answers);
    lemma_pow2_pos(phase.world());
    assert(on_host(states[0], states[0]));
    assert forall|p: int| 0 <= p < states.len() implies (#[trigger] nexts[p]).insts
        == states[p].insts by {
        assert(on_host(states[p], states[0]));
    }
    assert(procs_at(nexts, i) =~= now);
    let root = states[0];
    let values = asks[0]->values;
    let coefs = asks[0]->coefs;
    let heard = answers[0]->Combined_values;
    let shares = Seq::new(asks.len(), |p: int| asks[p]->values[i]);
    assert(values[i] == now[0].local(now[0].host_values(var)));
    assert(values[i].len() == 3);
    assert(heard[i] == absorbed(coefs[i], shares, 3));
    if first {
        let at = phase.at_wire(var);
        assert forall|p: int| 0 <= p < shares.len() implies #[trigger] shares[p] == wire_shares(
            at,
            var,
        )[p] by {
            assert(on_host(states[p], states[0]));
            assert(fits_ask(states[p], asks[p]));
            assert(now[p] == at[p]);
        }
        assert(shares =~= wire_shares(at, var));
        lemma_wire_weights(phase, var);
        assert(coefs[i] == now[0].process_weights());
    } else {
        let at = wired(phase.second_procs(), false, ry, var);
        assert(at_second(phase, ry, now, var));
        lemma_second_len(phase, ry, var);
        assert forall|p: int| 0 <= p < shares.len() implies #[trigger] shares[p] == wire_shares(
            at,
            var,
        )[p] by {
            assert(on_host(states[p], states[0]));
            assert(fits_ask(states[p], asks[p]));
            assert(gathered_from(now[p], at[p], phase.r_mpi));
            assert(now[p].local(now[p].host_values(var)) =~= at[p].local(at[p].host_values(var)));
        }
        assert(shares =~= wire_shares(at, var));
        assert(coefs[i] == now[0].process_weights());
        let sent = root.step(answers[0]).1->evals[i];
        assert(sent =~= poly_scaled(heard[i], phase.second_coef()));
    }
}

/// The weights of the processes last through the rounds over the wire variables.
proof fn lemma_wire_weights<F: FieldEngine>(phase: FirstPhase<F>, k: nat)
    ensures
        phase.procs.len() > 0 ==> phase.at_wire(k)[0].process_weights() == phase.weights(),
        phase.at_wire(k).len() == phase.procs.len(),
    decreases k,
{
    if k > 0 {
        lemma_wire_weights(phase, (k - 1) as nat);
    }
}

/// There is one state for each process throughout.
proof fn lemma_second_len<F: FieldEngine>(
    phase: FirstPhase<F>,
    ry: Seq<F::ChallengeField>,
    k: nat,
)
    requires
        phase.wf(),
        phase.is_prepared(),
    ensures
        wired(phase.second_procs(), false, ry, k).len() == phase.procs.len(),
    decreases k,
{
    lemma_pow2_pos(phase.world());
    lemma_second_ready(phase, 0);
    if k > 0 {
        lemma_second_len(phase, ry, (k - 1) as nat);
    }
}

/// A challenge of a round over the wire variables comes in.
proof fn lemma_wires_challenged<F: FieldEngine>(
    phase: FirstPhase<F>,
    ry: Seq<F::ChallengeField>,
    states: Seq<LayerView<F>>,
    asks: Seq<Ask<F::ChallengeField>>,
    answers: Seq<Event<F::ChallengeField>>,
    i: int,
    j: nat,
    first: bool,
    var: nat,
)
    requires
        together(phase, states, asks, answers, i),
        ry.len() == phase.wires(),
        states[0].stage == (StageView::<F::ChallengeField>::Challenge { first, var }),
        stands(phase, ry, states[0].stage, procs_at(states, i), j),
        answers[0]->Challenged_r[i] == round_challenge(phase, ry, j),
    ensures
        stands(
            phase,
            ry,
            states[0].step(answers[0]).0.stage,
            procs_at(stepped(states, answers), i),
            j + 1,
        ),
{
    let now = procs_at(states, i);
    let nexts = stepped(states, answers);
    let n = phase.wires();
    let r = answers[0]->Challenged_r[i];
    lemma_pow2_pos(phase.world());
    assert(on_host(states[0], states[0]));
    assert forall|p: int| 0 <= p < states.len() implies {
        let inst = now[p].host_folded(var, r).noted(first, r);
        (#[trigger] nexts[p]).insts[i] == if first && var + 1 >= n {
            inst.simd_vars_prepared()
        } else {
            inst
        }
    } by {
        assert(on_host(states[p], states[0]));
        assert(answers[p] == answers[0]);
        let layer = states[p];
        let inst = layer.folded_on_host(first, var, answers[p]->Challenged_r);
        assert(inst.insts[i] == now[p].host_folded(var, r).noted(first, r));
        lemma_folded(layer, first, var, answers[p]->Challenged_r);
        lemma_shape_kept(layer, inst);
        assert(inst.input_var_num() == n);
    }
    assert(states[0].folded_on_host(first, var, answers[0]->Challenged_r).insts[0].layer
        == states[0].insts[0].layer);
    if first {
        lemma_wire_weights(phase, var);
        let at = phase.at_wire(var + 1);
        assert(at == wires_folded(phase.at_wire(var), true, var, r));
        if var + 1 < n {
            assert(procs_at(nexts, i) =~= at);
        } else {
            assert(procs_at(nexts, i) =~= phase.at_lane(0)) by {
                assert(phase.at_lane(0) =~= Seq::new(
                    at.len(),
                    |p: int| at[p].simd_vars_prepared(),
                ));
            }
        }
    } else if var + 1 < n {
        lemma_second_len(phase, ry, var);
        let at = wired(phase.second_procs(), false, ry, var);
        let then = wired(phase.second_procs(), false, ry, var + 1);
        assert(then == wires_folded(at, false, var, r));
        let next = procs_at(nexts, i);
        assert forall|p: int| 0 <= p < next.len() implies gathered_from(
            #[trigger] next[p],
            then[p],
            phase.r_mpi,
        ) by {
            assert(gathered_from(now[p], at[p], phase.r_mpi));
            assert(next[p] == nexts[p].insts[i]);
            assert(next[p] == now[p].host_folded(var, r).noted(false, r));
        }
        assert(next[0] == nexts[0].insts[i]);
    }
}

/// The weights of the processes last through the rounds over the lane variables.
proof fn lemma_lane_weights<F: FieldEngine>(phase: FirstPhase<F>, k: nat)
    ensures
        phase.at_lane(k).len() == phase.procs.len(),
        phase.procs.len() > 0 ==> phase.at_lane(k)[0].process_weights() == phase.weights(),
        forall|p: int|
            0 <= p < phase.procs.len() ==> (#[trigger] phase.at_lane(k)[p]).mpi_var_num
                == phase.at_lane(0)[p].mpi_var_num && phase.at_lane(k)[p].r_mpi_var
                == phase.at_lane(0)[p].r_mpi_var,
    decreases k,
{
    lemma_wire_weights(phase, phase.wires());
    if k > 0 {
        lemma_lane_weights(phase, (k - 1) as nat);
    }
}

/// A round over the lane variables is combined.
proof fn lemma_lanes_combined<F: FieldEngine>(
    phase: FirstPhase<F>,
    ry: Seq<F::ChallengeField>,
    states: Seq<LayerView<F>>,
    asks: Seq<Ask<F::ChallengeField>>,
    answers: Seq<Event<F::ChallengeField>>,
    i: int,
    j: nat,
    var: nat,
)
    requires
        together(phase, states, asks, answers, i),
        states[0].stage == (StageView::<F::ChallengeField>::SimdCombine { var }),
        stands(phase, ry, states[0].stage, procs_at(states, i), j),
    ensures
        stands(
            phase,
            ry,
            states[0].step(answers[0]).0.stage,
            procs_at(stepped(states, answers), i),
            j,
        ),
        states[0].step(answers[0]).1 is Challenge,
        states[0].step(answers[0]).1->evals[i] == round_message(phase, ry, j),
{
    let now = procs_at(states, i);
    let nexts = stepped(states, answers);
    lemma_pow2_pos(phase.world());
    assert(on_host(states[0], states[0]));
    assert forall|p: int| 0 <= p < states.len() implies (#[trigger] nexts[p]).insts
        == states[p].insts by {
        assert(on_host(states[p], states[0]));
    }
    assert(procs_at(nexts, i) =~= now);
    let heard = answers[0]->Combined_values;
    let shares = Seq::new(asks.len(), |p: int| asks[p]->values[i]);
    let at = phase.at_lane(var);
    lemma_lane_weights(phase, var);
    assert(asks[0]->values[i] == now[0].simd_values(var));
    assert(heard[i] == absorbed(asks[0]->coefs[i], shares, 4));
    assert forall|p: int| 0 <= p < shares.len() implies #[trigger] shares[p] == lane_shares(
        at,
        var,
    )[p] by {
        assert(on_host(states[p], states[0]));
        assert(fits_ask(states[p], asks[p]));
        assert(now[p] == at[p]);
    }
    assert(shares =~= lane_shares(at, var));
    assert(asks[0]->coefs[i] == now[0].process_weights());
}

/// A challenge of a round over the lane variables comes in.
proof fn lemma_lanes_challenged<F: FieldEngine>(
    phase: FirstPhase<F>,
    ry: Seq<F::ChallengeField>,
    states: Seq<LayerView<F>>,
    asks: Seq<Ask<F::ChallengeField>>,
    answers: Seq<Event<F::ChallengeField>>,
    i: int,
    j: nat,
    var: nat,
)
    requires
        together(phase, states, asks, answers, i),
        states[0].stage == (StageView::<F::ChallengeField>::SimdChallenge { var }),
        stands(phase, ry, states[0].stage, procs_at(states, i), j),
        answers[0]->Challenged_r[i] == round_challenge(phase, ry, j),
    ensures
        stands(
            phase,
            ry,
            states[0].step(answers[0]).0.stage,
            procs_at(stepped(states, answers), i),
            j + 1,
        ),
{
    let now = procs_at(states, i);
    let nexts = stepped(states, answers);
    let r = answers[0]->Challenged_r[i];
    lemma_pow2_pos(phase.world());
    lemma_lane_weights(phase, var);
    assert(on_host(states[0], states[0]));
    assert forall|p: int| 0 <= p < states.len() implies (#[trigger] nexts[p]).insts[i]
        == now[p].simd_received(var, r) by {
        assert(on_host(states[p], states[0]));
        assert(answers[p] == answers[0]);
    }
    assert(phase.at_lane(var + 1) == lanes_folded(phase.at_lane(var), var, r));
    assert(procs_at(nexts, i) =~= phase.at_lane(var + 1));
}

/// The shares of all processes come in.
proof fn lemma_shares_gathered<F: FieldEngine>(
    phase: FirstPhase<F>,
    ry: Seq<F::ChallengeField>,
    states: Seq<LayerView<F>>,
    asks: Seq<Ask<F::ChallengeField>>,
    answers: Seq<Event<F::ChallengeField>>,
    i: int,
    j: nat,
)
    requires
        together(phase, states, asks, answers, i),
        states[0].stage == StageView::<F::ChallengeField>::Gather,
        stands(phase, ry, states[0].stage, procs_at(states, i), j),
        forall|p: int| 0 <= p < states.len() ==> (#[trigger] states[p]).seen(
            phase.wires(),
            0,
            phase.lanes(),
            0,
        ),
    ensures
        stands(
            phase,
            ry,
            states[0].step(answers[0]).0.stage,
            procs_at(stepped(states, answers), i),
            j,
        ),
        states[0].step(answers[0]).1 is Challenge ==> states[0].step(answers[0]).1->evals[i]
            == round_message(phase, ry, j),
{
    let now = procs_at(states, i);
    let nexts = stepped(states, answers);
    let last = phase.at_lane(phase.lanes());
    lemma_pow2_pos(phase.world());
    lemma_lane_weights(phase, phase.lanes());
    assert(on_host(states[0], states[0]));
    let v = Seq::new(asks.len(), |p: int| asks[p]->v[i]);
    let hg = Seq::new(asks.len(), |p: int| asks[p]->hg[i]);
    assert forall|p: int| 0 <= p < states.len() implies #[trigger] v[p] == v_shares(last)[p]
        && hg[p] == hg_shares(last)[p] by {
        assert(on_host(states[p], states[0]));
        assert(fits_ask(states[p], asks[p]));
        assert(now[p] == last[p]);
    }
    assert(v =~= v_shares(last));
    assert forall|p: int| 0 <= p < states.len() implies #[trigger] hg[p] == hg_shares(last)[p] by {
        assert(v[p] == v_shares(last)[p]);
    }
    assert(hg =~= hg_shares(last));
    let next = procs_at(nexts, i);
    assert forall|p: int| 0 <= p < next.len() implies gathered_from(
        #[trigger] next[p],
        last[p],
        phase.r_mpi.take(0),
    ) by {
        assert(on_host(states[p], states[0]));
        assert(now[p] == last[p]);
        let (a, b) = (answers[p]->Gathered_v, answers[p]->Gathered_hg);
        assert(next[p] == now[p].gathered(a[i], b[i]));
        assert(states[p].insts[i].r_mpi_var.len() == 0);
        assert(phase.r_mpi.take(0) =~= now[p].r_mpi_var);
    }
    assert(next[0] == phase.root());
    assert(phase.root() == phase.at_process(0));
}

/// A challenge of a round over the process variables comes in.
proof fn lemma_processes_challenged<F: FieldEngine>(
    phase: FirstPhase<F>,
    ry: Seq<F::ChallengeField>,
    states: Seq<LayerView<F>>,
    asks: Seq<Ask<F::ChallengeField>>,
    answers: Seq<Event<F::ChallengeField>>,
    i: int,
    j: nat,
    var: nat,
)
    requires
        together(phase, states, asks, answers, i),
        states[0].stage == (StageView::<F::ChallengeField>::MpiChallenge { var }),
        stands(phase, ry, states[0].stage, procs_at(states, i), j),
        answers[0]->Challenged_r[i] == round_challenge(phase, ry, j),
    ensures
        stands(
            phase,
            ry,
            states[0].step(answers[0]).0.stage,
            procs_at(stepped(states, answers), i),
            j + 1,
        ),
        states[0].step(answers[0]).1 is Challenge ==> states[0].step(answers[0]).1->evals[i]
            == round_message(phase, ry, j + 1),
{
    let now = procs_at(states, i);
    let nexts = stepped(states, answers);
    let r = answers[0]->Challenged_r[i];
    let last = phase.at_lane(phase.lanes());
    lemma_pow2_pos(phase.world());
    assert(on_host(states[0], states[0]));
    assert forall|p: int| 0 <= p < states.len() implies (#[trigger] nexts[p]).insts[i]
        == now[p].mpi_received(var, r) by {
        assert(on_host(states[p], states[0]));
        assert(answers[p] == answers[0]);
    }
    let next = procs_at(nexts, i);
    assert(next[0] == nexts[0].insts[i]);
    assert(r == phase.r_mpi[var as int]);
    assert(phase.at_process(var + 1) == phase.at_process(var).mpi_received(var, r));
    assert forall|p: int| 0 <= p < next.len() implies gathered_from(
        #[trigger] next[p],
        last[p],
        phase.r_mpi.take(var as int + 1),
    ) by {
        assert(gathered_from(now[p], last[p], phase.r_mpi.take(var as int)));
        assert(next[p] == nexts[p].insts[i]);
        assert(phase.r_mpi.take(var as int + 1) =~= phase.r_mpi.take(var as int).push(r));
    }
    if var + 1 >= phase.world() {
        assert(var + 1 == phase.world());
    }
}

/// The root's claims come in.
proof fn lemma_claims_broadcast<F: FieldEngine>(
    phase: FirstPhase<F>,
    ry: Seq<F::ChallengeField>,
    states: Seq<LayerView<F>>,
    asks: Seq<Ask<F::ChallengeField>>,
    answers: Seq<Event<F::ChallengeField>>,
    i: int,
    j: nat,
)
    requires
        together(phase, states, asks, answers, i),
        states[0].stage == StageView::<F::ChallengeField>::Broadcast,
        stands(phase, ry, states[0].stage, procs_at(states, i), j),
    ensures
        stands(
            phase,
            ry,
            states[0].step(answers[0]).0.stage,
            procs_at(stepped(states, answers), i),
            j,
        ),
        !(states[0].step(answers[0]).1 is Challenge),
{
    let now = procs_at(states, i);
    let nexts = stepped(states, answers);
    let last = phase.at_lane(phase.lanes());
    let seconds = phase.second_procs();
    let claim = phase.at_process(phase.world()).vx();
    lemma_pow2_pos(phase.world());
    lemma_second_ready(phase, 0);
    assert(on_host(states[0], states[0]));
    assert(asks[0]->roots[i] == claim) by {
        assert(fits_ask(states[0], asks[0]));
        assert(now[0] == phase.at_process(phase.world()));
    }
    assert(phase.r_mpi.take(phase.world() as int) =~= phase.r_mpi);
    let next = procs_at(nexts, i);
    assert forall|p: int| 0 <= p < next.len() implies gathered_from(
        #[trigger] next[p],
        seconds[p],
        phase.r_mpi,
    ) && next[p] == now[p].y_prepared(claim) by {
        assert(on_host(states[p], states[0]));
        assert(answers[p] == Event::Broadcasted { roots: asks[0]->roots });
        assert(next[p] == now[p].y_prepared(claim));
        assert(gathered_from(now[p], last[p], phase.r_mpi));
        let noted = InstView { r_mpi_var: phase.r_mpi, ..last[p] };
        assert(seconds[p] == noted.y_prepared(claim));
        lemma_y_prepared(now[p], noted, claim);
    }
    assert(next[0] == now[0].y_prepared(claim));
    assert(now[0].wf());
    assert(next[0].process_weights() =~= eq_table(phase.r_mpi));
    assert(gathered_from(next[0], seconds[0], phase.r_mpi));
    assert(wired(seconds, false, ry, 0) == seconds);
}

/// What an instance holds over the process variables has no part in preparing the second phase.
proof fn lemma_y_prepared<F: FieldEngine>(a: InstView<F>, b: InstView<F>, v: F::ChallengeField)
    requires
        gathered_from(a, b, b.r_mpi_var),
    ensures
        gathered_from(a.y_prepared(v), b.y_prepared(v), b.r_mpi_var),
{
    let eq_rx = a.y_prepared(v).pad.eq_rx;
    assert(a.y_terms(a.pad.eq_rz0, eq_rx) =~= b.y_terms(b.pad.eq_rz0, eq_rx));
}

/// The processes go on together.
proof fn lemma_stands_step<F: FieldEngine>(
    phase: FirstPhase<F>,
    ry: Seq<F::ChallengeField>,
    states: Seq<LayerView<F>>,
    asks: Seq<Ask<F::ChallengeField>>,
    answers: Seq<Event<F::ChallengeField>>,
    i: int,
    j: nat,
)
    requires
        together(phase, states, asks, answers, i),
        ry.len() == phase.wires(),
        stands(phase, ry, states[0].stage, procs_at(states, i), j),
        answers[0] is Challenged ==> answers[0]->Challenged_r[i] == round_challenge(phase, ry, j),
    ensures
        ({
            let (next, ask) = states[0].step(answers[0]);
            let k = if answers[0] is Challenged {
                j + 1
            } else {
                j
            };
            &&& stands(phase, ry, next.stage, procs_at(stepped(states, answers), i), k)
            &&& ask is Challenge ==> ask->evals[i] == round_message(phase, ry, k)
        }),
{
    let nexts = stepped(states, answers);
    lemma_pow2_pos(phase.world());
    assert(on_host(states[0], states[0]));
    lemma_host_step(states[0], answers[0]);
    match states[0].stage {
        StageView::GpuSetup { first } => {
            assert forall|p: int| 0 <= p < states.len() implies (#[trigger] nexts[p]).insts
                == states[p].insts by {
                assert(on_host(states[p], states[0]));
            }
            assert(procs_at(nexts, i) =~= procs_at(states, i));
        },
        StageView::Combine { first, var } => {
            lemma_wires_combined(phase, ry, states, asks, answers, i, j, first, var);
        },
        StageView::Challenge { first, var } => {
            lemma_wires_challenged(phase, ry, states, asks, answers, i, j, first, var);
        },
        StageView::SimdCombine { var } => {
            lemma_lanes_combined(phase, ry, states, asks, answers, i, j, var);
        },
        StageView::SimdChallenge { var } => {
            lemma_lanes_challenged(phase, ry, states, asks, answers, i, j, var);
        },
        StageView::Gather => {
            assert forall|p: int| 0 <= p < states.len() implies (#[trigger] states[p]).seen(
                phase.wires(),
                0,
                phase.lanes(),
                0,
            ) by {
                assert(on_host(states[p], states[0]));
            }
            lemma_shares_gathered(phase, ry, states, asks, answers, i, j);
        },
        StageView::MpiChallenge { var } => {
            lemma_processes_challenged(phase, ry, states, asks, answers, i, j, var);
        },
        StageView::Broadcast => {
            lemma_claims_broadcast(phase, ry, states, asks, answers, i, j);
        },
        StageView::VxAppend => {
            assert forall|p: int| 0 <= p < states.len() implies (#[trigger] nexts[p]).insts
                == states[p].insts by {
                assert(on_host(states[p], states[0]));
            }
            assert(procs_at(nexts, i) =~= procs_at(states, i));
        },
        _ => {},
    }
}

// ---------------------------------------------------------------------------
// Whole runs
// ---------------------------------------------------------------------------

/// The states that answer `k` comes to, in all processes.
spec fn states_at<F: FieldEngine>(
    starts: Seq<LayerView<F>>,
    events: Seq<Seq<Event<F::ChallengeField>>>,
    k: nat,
) -> Seq<LayerView<F>> {
    Seq::new(starts.len(), |p: int| reached(starts[p], events[p], k))
}

/// Challenges that have been drawn stay drawn.
proof fn lemma_drawn_front<E>(events: Seq<Event<E>>, k: nat, n: nat)
    requires
        k <= n,
    ensures
        drawn(events, k).len() <= drawn(events, n).len(),
        drawn(events, k) == drawn(events, n).take(drawn(events, k).len() as int),
    decreases n,
{
    if k < n {
        lemma_drawn_front(events, k, (n - 1) as nat);
    }
    assert(drawn(events, k) =~= drawn(events, n).take(drawn(events, k).len() as int));
}

/// Messages of one question more.
pub proof fn lemma_messages_push<E>(asks: Seq<Ask<E>>, ask: Ask<E>)
    ensures
        messages_of(asks.push(ask)) == match ask {
            Ask::Challenge { evals } => messages_of(asks).push(evals),
            _ => messages_of(asks),
        },
{
    assert(asks.push(ask).drop_last() =~= asks);
}

/// Where the processes stand before answer `k`, and what the root has sent.
spec fn run_stands<F: FieldEngine>(
    starts: Seq<LayerView<F>>,
    events: Seq<Seq<Event<F::ChallengeField>>>,
    d: Seq<Seq<F::ChallengeField>>,
    i: int,
    k: nat,
) -> bool {
    let phase = first_phase(starts, d, i);
    let ry = second_challenges(starts, d, i);
    let states = states_at(starts, events, k);
    let j = drawn(events[0], k).len();
    let sent = messages_of(questions(starts[0].start().0, events[0], k));
    &&& forall|p: int|
        0 <= p < states.len() ==> on_host(#[trigger] states[p], states[0]) && fits_ask(
            states[p],
            asked(starts[p], events[p], k),
        )
    &&& states[0].insts.len() == starts[0].insts.len()
    &&& states[0].input_var_num() == starts[0].input_var_num()
    &&& states[0].mpi_var_num() == starts[0].mpi_var_num()
    &&& states[0].skips_phase_two() == starts[0].skips_phase_two()
    &&& stands(phase, ry, states[0].stage, procs_at(states, i), j)
    &&& sent.len() == if awaits_challenge(states[0].stage) {
        j + 1
    } else {
        j
    }
    &&& forall|q: int|
        0 <= q < sent.len() ==> (#[trigger] sent[q])[i] == round_message(phase, ry, q as nat)
}

proof fn lemma_run_starts<F: FieldEngine>(
    starts: Seq<LayerView<F>>,
    events: Seq<Seq<Event<F::ChallengeField>>>,
    d: Seq<Seq<F::ChallengeField>>,
    i: int,
)
    requires
        start_together(starts),
        is_joint_run(starts, events),
        0 <= i < starts[0].insts.len(),
    ensures
        run_stands(starts, events, d, i, 0),
{
    let phase = first_phase(starts, d, i);
    let states = states_at(starts, events, 0);
    lemma_pow2_pos(starts[0].mpi_var_num());
    assert(starts[0].uniform());
    lemma_first_phase_starts(starts, d, i);
    assert forall|p: int| 0 <= p < states.len() implies {
        let state = #[trigger] states[p];
        &&& state.wf()
        &&& !state.gpu
        &&& state.insts == starts[p].prepared().insts
        &&& state.insts.len() == starts[0].insts.len()
        &&& state.input_var_num() == starts[0].input_var_num()
        &&& state.mpi_var_num() == starts[0].mpi_var_num()
        &&& state.skips_phase_two() == starts[0].skips_phase_two()
        &&& state.stage == if starts[0].wants_gpu() {
            StageView::<F::ChallengeField>::GpuSetup { first: true }
        } else {
            StageView::Combine { first: true, var: 0 }
        }
        &&& fits_ask(state, asked(starts[p], events[p], 0))
    } by {
        let layer = starts[p];
        assert(layer.uniform() && layer.seen(0, 0, 0, 0));
        lemma_start_wf(layer);
        assert(forall|q: int| 0 <= q < layer.insts.len() ==> (#[trigger] layer.insts[q]).wf());
        lemma_shape_kept(layer, layer.prepared());
        assert(layer.prepared().insts[0].layer == layer.insts[0].layer);
    }
    assert(states[0].wf());
    assert forall|p: int| 0 <= p < states.len() implies on_host(
        #[trigger] states[p],
        states[0],
    ) by {
        assert(states[p].wf());
    }
    assert(procs_at(states, i) =~= phase.procs) by {
        assert forall|p: int| 0 <= p < states.len() implies #[trigger] procs_at(states, i)[p]
            == phase.procs[p] by {
            assert(states[p].wf());
        }
    }
}

proof fn lemma_run_stands<F: FieldEngine>(
    starts: Seq<LayerView<F>>,
    events: Seq<Seq<Event<F::ChallengeField>>>,
    d: Seq<Seq<F::ChallengeField>>,
    i: int,
    k: nat,
)
    requires
        start_together(starts),
        is_joint_run(starts, events),
        0 <= i < starts[0].insts.len(),
        k <= events[0].len(),
        d == drawn(events[0], events[0].len()),
    ensures
        run_stands(starts, events, d, i, k),
    decreases k,
{
    lemma_pow2_pos(starts[0].mpi_var_num());
    if k == 0 {
        lemma_run_starts(starts, events, d, i);
    } else {
        let m = (k - 1) as nat;
        lemma_run_stands(starts, events, d, i, m);
        lemma_first_phase_starts(starts, d, i);
        let phase = first_phase(starts, d, i);
        let ry = second_challenges(starts, d, i);
        let states = states_at(starts, events, m);
        let asks = asks_at(starts, events, m);
        let answers = answers_at(events, m);
        let nexts = stepped(states, answers);
        let j = drawn(events[0], m).len();
        assert forall|p: int| 0 <= p < states.len() implies {
            &&& on_host(#[trigger] states[p], states[0])
            &&& states[p].expects(answers[p])
            &&& stays_on_host(answers[p])
            &&& fits_ask(states[p], asks[p])
        } by {
            assert(events[p].len() == events[0].len());
            assert(after(starts[p].start().0, events[p], m).expects(events[p][m as int]));
            assert(stays_on_host(events[p][m as int]));
        }
        assert(is_joint_answer(asks, answers));
        assert(states[0].expects(answers[0]));
        lemma_drawn_front(events[0], k, events[0].len());
        if answers[0] is Challenged {
            let r = answers[0]->Challenged_r;
            assert(drawn(events[0], k) == drawn(events[0], m).push(r));
            assert(d.take(drawn(events[0], k).len() as int)[j as int] == r);
            assert(d[j as int] == r);
            assert(round_challenge(phase, ry, j) == challenge_at(d, i, j as int));
        }
        lemma_stands_step(phase, ry, states, asks, answers, i, j);
        assert(states_at(starts, events, k) =~= nexts);
        assert forall|p: int| 0 <= p < nexts.len() implies {
            &&& on_host(#[trigger] nexts[p], nexts[0])
            &&& fits_ask(nexts[p], asked(starts[p], events[p], k))
        } by {
            assert(on_host(states[p], states[0]));
            assert(on_host(states[0], states[0]));
            lemma_host_step(states[p], answers[p]);
            lemma_host_step(states[0], answers[0]);
            lemma_same_stage(states[p], states[0], answers[p], answers[0]);
        }
        assert(on_host(states[0], states[0]));
        lemma_host_step(states[0], answers[0]);
        let ask = states[0].step(answers[0]).1;
        lemma_messages_push(questions(starts[0].start().0, events[0], m), ask);
    }
}

/// The processes of a joint run are in step: they stand at the same stage, each with the question
/// of that stage out.
pub proof fn lemma_run_in_step<F: FieldEngine>(
    starts: Seq<LayerView<F>>,
    events: Seq<Seq<Event<F::ChallengeField>>>,
    k: nat,
    p: int,
)
    requires
        start_together(starts),
        is_joint_run(starts, events),
        k <= events[0].len(),
        0 <= p < starts.len(),
    ensures
        ({
            let (state, root) = (
                reached(starts[p], events[p], k),
                reached(starts[0], events[0], k),
            );
            &&& on_host(state, root)
            &&& fits_ask(state, asked(starts[p], events[p], k))
            &&& root.insts.len() == starts[0].insts.len()
            &&& root.input_var_num() == starts[0].input_var_num()
            &&& root.mpi_var_num() == starts[0].mpi_var_num()
            &&& root.skips_phase_two() == starts[0].skips_phase_two()
        }),
{
    lemma_pow2_pos(starts[0].mpi_var_num());
    assert(starts[0].uniform());
    lemma_run_stands(starts, events, drawn(events[0], events[0].len()), 0, k);
    let states = states_at(starts, events, k);
    assert(on_host(states[p], states[0]));
    assert(on_host(states[0], states[0]));
}

/// The processes of a joint run have drawn the same challenges.
pub proof fn lemma_drawn_alike<F: FieldEngine>(
    starts: Seq<LayerView<F>>,
    events: Seq<Seq<Event<F::ChallengeField>>>,
    k: nat,
    p: int,
)
    requires
        start_together(starts),
        is_joint_run(starts, events),
        k <= events[0].len(),
        0 <= p < starts.len(),
    ensures
        drawn(events[p], k) == drawn(events[0], k),
    decreases k,
{
    if k > 0 {
        let m = (k - 1) as nat;
        lemma_drawn_alike(starts, events, m, p);
        lemma_run_in_step(starts, events, m, p);
        lemma_run_in_step(starts, events, m, 0);
        assert(events[p].len() == events[0].len());
        assert(events[0].len() == events[0].len());
        assert(reached(starts[p], events[p], m).expects(events[p][m as int]));
        assert(reached(starts[0], events[0], m).expects(events[0][m as int]));
        let asks = asks_at(starts, events, m);
        let answers = answers_at(events, m);
        assert(is_joint_answer(asks, answers));
        assert(answers[p] == events[p][m as int] && answers[0] == events[0][m as int]);
        if awaits_challenge(reached(starts[0], events[0], m).stage) {
            assert(asks[0] is Challenge);
            assert(answers[p] == answers[0]);
        }
    }
}

/// How many rounds' values the root has sent by a stage: those of the challenges that it has drawn,
/// and the round's that awaits its challenge.
pub proof fn lemma_sent_by_stage<F: FieldEngine>(
    starts: Seq<LayerView<F>>,
    events: Seq<Seq<Event<F::ChallengeField>>>,
    i: int,
)
    requires
        start_together(starts),
        is_joint_run(starts, events),
        0 <= i < starts[0].insts.len(),
    ensures
        ({
            let k = events[0].len();
            let sent = messages_of(questions(starts[0].start().0, events[0], k));
            let (n, first) = (starts[0].input_var_num(), first_rounds(starts[0]));
            let stage = reached(starts[0], events[0], k).stage;
            &&& sent.len() == drawn(events[0], k).len() + if awaits_challenge(stage) {
                1nat
            } else {
                0nat
            }
            &&& sent.len() > first ==> match stage {
                StageView::GpuSetup { first } => !first,
                StageView::Combine { first, .. } | StageView::Challenge { first, .. } => !first,
                StageView::VyCombine | StageView::VyAppend { .. } => true,
                StageView::Done { claim } => claim is Some,
                _ => false,
            }
        }),
{
    let k = events[0].len();
    let d = drawn(events[0], k);
    lemma_pow2_pos(starts[0].mpi_var_num());
    lemma_first_phase_starts(starts, d, i);
    lemma_run_stands(starts, events, d, i, k);
    let states = states_at(starts, events, k);
    assert(on_host(states[0], states[0]));
}

/// When the first phase is over the root holds what is left of it.
pub proof fn lemma_first_done<F: FieldEngine>(
    starts: Seq<LayerView<F>>,
    events: Seq<Seq<Event<F::ChallengeField>>>,
    i: int,
    k: nat,
)
    requires
        start_together(starts),
        is_joint_run(starts, events),
        0 <= i < starts[0].insts.len(),
        k <= events[0].len(),
        reached(starts[0], events[0], k).stage is VxAppend,
    ensures
        reached(starts[0], events[0], k).insts[i] == first_phase(
            starts,
            drawn(events[0], events[0].len()),
            i,
        ).at_process(starts[0].mpi_var_num()),
{
    let d = drawn(events[0], events[0].len());
    lemma_pow2_pos(starts[0].mpi_var_num());
    lemma_first_phase_starts(starts, d, i);
    lemma_run_stands(starts, events, d, i, k);
    let states = states_at(starts, events, k);
    assert(procs_at(states, i)[0] == states[0].insts[i]);
}

/// Instance `i` has no addition gates in any process.
pub open spec fn multiplies_only<F: FieldEngine>(starts: Seq<LayerView<F>>, i: int) -> bool {
    forall|p: int|
        0 <= p < starts.len() ==> (#[trigger] starts[p]).insts[i].layer.add@.len() == 0
}

/// How many rounds the first phase of a layer has.
pub open spec fn first_rounds<F: FieldEngine>(layer: LayerView<F>) -> nat {
    layer.input_var_num() + layer.simd_var_num() + layer.mpi_var_num()
}

/// The values that went into the transcript of instance `i` hang together: every round's polynomial
/// takes at its challenge the value that the next round's values at zero and one add up to. From
/// the first phase to the second that is so where there are no addition gates.
pub open spec fn hangs_together<F: FieldEngine>(
    starts: Seq<LayerView<F>>,
    sent: Seq<Seq<Seq<F::ChallengeField>>>,
    d: Seq<Seq<F::ChallengeField>>,
    i: int,
) -> bool {
    forall|q: int|
        0 <= q < sent.len() - 1 && (q + 1 == first_rounds(starts[0]) ==> multiplies_only(starts, i))
            ==> continues((#[trigger] sent[q])[i], d[q][i], sent[q + 1][i])
}

/// The messages of the two phases of an instance form one chain.
proof fn lemma_message_chain<F: FieldEngine>(
    starts: Seq<LayerView<F>>,
    d: Seq<Seq<F::ChallengeField>>,
    i: int,
    q: nat,
)
    requires
        start_together(starts),
        0 <= i < starts[0].insts.len(),
        q + 1 < first_rounds(starts[0]) + starts[0].input_var_num(),
        q + 1 == first_rounds(starts[0]) ==> multiplies_only(starts, i),
    ensures
        continues(
            message_at(starts, d, i, q),
            challenge_at(d, i, q as int),
            message_at(starts, d, i, q + 1),
        ),
{
    let phase = first_phase(starts, d, i);
    let ry = second_challenges(starts, d, i);
    lemma_first_phase_starts(starts, d, i);
    if q + 1 < phase.rounds() {
        lemma_first_phase_chain(phase, q);
    } else if q + 1 == phase.rounds() {
        assert forall|p: int| 0 <= p < phase.procs.len() implies (
        #[trigger] phase.procs[p]).layer.add@.len() == 0 by {
            assert(starts[p].insts[i].layer.add@.len() == 0);
        }
        lemma_phases_chain(phase, ry);
    } else {
        let seconds = phase.second_procs();
        lemma_second_len(phase, ry, 0);
        assert forall|p: int| 0 <= p < seconds.len() implies {
            let inst = #[trigger] seconds[p];
            &&& inst.wf()
            &&& inst.input_var_num() == phase.wires()
            &&& is_ready(inst, 0)
        } by {
            lemma_second_ready(phase, p);
        }
        lemma_second_phase_chain(
            seconds,
            eq_table(phase.r_mpi),
            phase.second_coef(),
            ry,
            phase.wires(),
            (q - phase.rounds()) as nat,
        );
    }
}

/// What the root sends in a run that the processes of a layer make together: round by round the
/// values of the phases' messages, at most as many as there are rounds, and they hang together.
pub proof fn lemma_run_messages<F: FieldEngine>(
    starts: Seq<LayerView<F>>,
    events: Seq<Seq<Event<F::ChallengeField>>>,
    i: int,
)
    requires
        start_together(starts),
        is_joint_run(starts, events),
        0 <= i < starts[0].insts.len(),
    ensures
        ({
            let d = drawn(events[0], events[0].len());
            let sent = messages_of(questions(starts[0].start().0, events[0], events[0].len()));
            &&& d.len() <= sent.len() <= d.len() + 1
            &&& sent.len() <= first_rounds(starts[0]) + starts[0].input_var_num()
            &&& reached(starts[0], events[0], events[0].len()).stage is Done ==> sent.len()
                == first_rounds(starts[0]) + if starts[0].skips_phase_two() {
                0
            } else {
                starts[0].input_var_num()
            }
            &&& forall|q: int|
                0 <= q < sent.len() ==> (#[trigger] sent[q])[i] == message_at(
                    starts,
                    d,
                    i,
                    q as nat,
                )
            &&& hangs_together(starts, sent, d, i)
        }),
{
    let n = events[0].len();
    let d = drawn(events[0], n);
    let sent = messages_of(questions(starts[0].start().0, events[0], n));
    let states = states_at(starts, events, n);
    lemma_pow2_pos(starts[0].mpi_var_num());
    lemma_first_phase_starts(starts, d, i);
    lemma_run_stands(starts, events, d, i, n);
    assert(on_host(states[0], states[0]));
    assert forall|q: int| 0 <= q < sent.len() implies (#[trigger] sent[q])[i] == message_at(
        starts,
        d,
        i,
        q as nat,
    ) by {}
    assert(sent.len() <= first_rounds(starts[0]) + starts[0].input_var_num());
    assert forall|q: int|
        0 <= q < sent.len() - 1 && (q + 1 == first_rounds(starts[0]) ==> multiplies_only(
            starts,
            i,
        )) implies continues((#[trigger] sent[q])[i], d[q][i], sent[q + 1][i]) by {
        lemma_message_chain(starts, d, i, q as nat);
        assert(sent[q + 1][i] == message_at(starts, d, i, (q + 1) as nat));
    }
}

/// The challenges are the same without the answers of a GPU.
pub proof fn lemma_drawn_on_host<E>(events: Seq<Event<E>>, n: nat)
    requires
        n <= events.len(),
    ensures
        drawn(host_events(events, n), host_events(events, n).len()) == drawn(events, n),
    decreases n,
{
    if n > 0 {
        let m = (n - 1) as nat;
        lemma_drawn_on_host(events, m);
        let before = host_events(events, m);
        let event = events[m as int];
        if !from_gpu(event) {
            lemma_drawn_push(before, without_gpu(event), before.len());
        }
    }
}

/// What has been drawn by an answer does not depend on the next one.
pub proof fn lemma_drawn_push<E>(events: Seq<Event<E>>, event: Event<E>, n: nat)
    requires
        n <= events.len(),
    ensures
        drawn(events.push(event), n) == drawn(events, n),
    decreases n,
{
    if n > 0 {
        lemma_drawn_push(events, event, (n - 1) as nat);
        assert(events.push(event)[n - 1] == events[n - 1]);
    }
}

/// The same holds of a root that uses a GPU, as long as the GPU does its work or says that it has
/// not.
pub proof fn lemma_gpu_run_messages<F: FieldEngine>(
    starts: Seq<LayerView<F>>,
    events: Seq<Seq<Event<F::ChallengeField>>>,
    i: int,
)
    requires
        start_together(starts),
        events.len() == starts.len(),
        all_expected(starts[0].start().0, events[0]),
        all_faithful(starts[0].start().0, events[0]),
        is_joint_run(
            starts,
            Seq::new(starts.len(), |p: int| host_events(events[p], events[p].len())),
        ),
        0 <= i < starts[0].insts.len(),
    ensures
        ({
            let d = drawn(events[0], events[0].len());
            let sent = messages_of(questions(starts[0].start().0, events[0], events[0].len()));
            &&& d.len() <= sent.len() <= d.len() + 1
            &&& sent.len() <= first_rounds(starts[0]) + starts[0].input_var_num()
            &&& reached(starts[0], events[0], events[0].len()).stage is Done ==> sent.len()
                == first_rounds(starts[0]) + if starts[0].skips_phase_two() {
                0
            } else {
                starts[0].input_var_num()
            }
            &&& forall|q: int|
                0 <= q < sent.len() ==> (#[trigger] sent[q])[i] == message_at(
                    starts,
                    d,
                    i,
                    q as nat,
                )
            &&& hangs_together(starts, sent, d, i)
        }),
{
    let n = events[0].len();
    let hosts = Seq::new(starts.len(), |p: int| host_events(events[p], events[p].len()));
    let root = starts[0];
    lemma_pow2_pos(root.mpi_var_num());
    assert(root.uniform());
    assert forall|k: int| 0 <= k < root.insts.len() implies all_valid(
        promoted::<F>((#[trigger] root.insts[k]).layer.input_vals@),
        pow2(root.input_var_num()),
    ) by {
        assert(holds_point(starts[0].insts[k]));
    }
    lemma_gpu_run(root, events[0]);
    lemma_drawn_on_host(events[0], n);
    lemma_run_messages(starts, hosts, i);
    let h = after(root.start().0, hosts[0], hosts[0].len());
    let asked = questions(root.start().0, events[0], n);
    lemma_messages_push(asked, pending(h));
}

} // verus!
