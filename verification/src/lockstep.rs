//! Provers in lockstep do not influence one another: each goes through exactly the states it
//! would go through alone.

use vstd::arithmetic::power2::*;
use vstd::prelude::*;

use crate::circuit::{ChallengeView, Circuit};
use crate::cuda_dispatch::sizes_fit;
use crate::engine::FieldEngine;
use crate::gkr_protocol::{
    circuits_fit, gpu_sizes_fit, lemma_begin_layer, lemma_gkr_step_wf, lemma_layer_done,
    lemma_layer_stepped, pads_fit, GkrAsk, GkrEvent, GkrStageView, GkrView,
};
use crate::instance::PadView;
use crate::protocol::{lemma_step_wf, Ask, Event, LayerView, StageView};
use crate::sumcheck::layer_at_start;

verus! {

/// The part of a list that is about instance `i`.
pub open spec fn only<T>(list: Seq<T>, i: int) -> Seq<T> {
    seq![list[i]]
}

/// The stage as instance `i` sees it.
pub open spec fn stage_alone<E>(stage: StageView<E>, i: int) -> StageView<E> {
    match stage {
        StageView::GpuReceive { first, var, r } => StageView::GpuReceive {
            first,
            var,
            r: only(r, i),
        },
        StageView::VyAppend { vy } => StageView::VyAppend { vy: only(vy, i) },
        StageView::Done { claim: Some(vy) } => StageView::Done { claim: Some(only(vy, i)) },
        _ => stage,
    }
}

/// What is asked on behalf of instance `i`.
pub open spec fn ask_alone<E>(ask: Ask<E>, i: int) -> Ask<E> {
    match ask {
        Ask::SetUp { hg_words, wire_words } => Ask::SetUp {
            hg_words: only(hg_words, i),
            wire_words: only(wire_words, i),
        },
        Ask::Receive { eval_size, var, r } => Ask::Receive { eval_size, var, r: only(r, i) },
        Ask::Combine { values, coefs } => Ask::Combine {
            values: only(values, i),
            coefs: only(coefs, i),
        },
        Ask::Challenge { evals } => Ask::Challenge { evals: only(evals, i) },
        Ask::Gather { v, hg } => Ask::Gather { v: only(v, i), hg: only(hg, i) },
        Ask::Append { claims } => Ask::Append { claims: only(claims, i) },
        Ask::Broadcast { roots } => Ask::Broadcast { roots: only(roots, i) },
        _ => ask,
    }
}

/// What is answered to instance `i`.
pub open spec fn event_alone<E>(event: Event<E>, i: int) -> Event<E> {
    match event {
        Event::Evaluated { results: Some(results) } => Event::Evaluated {
            results: Some(only(results, i)),
        },
        Event::Downloaded { tables } => Event::Downloaded {
            tables: seq![tables[2 * i], tables[2 * i + 1]],
        },
        Event::Combined { values } => Event::Combined { values: only(values, i) },
        Event::Challenged { r } => Event::Challenged { r: only(r, i) },
        Event::Gathered { v, hg } => Event::Gathered { v: only(v, i), hg: only(hg, i) },
        Event::Broadcasted { roots } => Event::Broadcasted { roots: only(roots, i) },
        _ => event,
    }
}

/// The layer as instance `i` goes through it.
pub open spec fn alone<F: FieldEngine>(layer: LayerView<F>, i: int) -> LayerView<F> {
    LayerView {
        insts: only(layer.insts, i),
        gpu: layer.gpu,
        stage: stage_alone(layer.stage, i),
    }
}

/// A state and a question, as instance `i` sees them.
pub open spec fn both_alone<F: FieldEngine>(
    both: (LayerView<F>, Ask<F::ChallengeField>),
    i: int,
) -> (LayerView<F>, Ask<F::ChallengeField>) {
    (alone(both.0, i), ask_alone(both.1, i))
}

/// Buffers that can be represented for a batch can be for one instance.
proof fn lemma_sizes_alone(n: int, pack: int, size: int)
    requires
        sizes_fit(n, pack, size),
        n >= 1,
        pack >= 0,
        size >= 0,
    ensures
        sizes_fit(1, pack, size),
{
    let words = pack * size * 3;
    assert(0 <= words) by (nonlinear_arith)
        requires
            pack >= 0,
            size >= 0,
            words == pack * size * 3,
    ;
    assert(1 * words * 4 <= n * words * 4 && 1 * pack * 9 * 4 <= n * pack * 9 * 4)
        by (nonlinear_arith)
        requires
            n >= 1,
            words >= 0,
            pack >= 0,
    ;
}

proof fn lemma_uniform_alone<F: FieldEngine>(layer: LayerView<F>, i: int)
    requires
        layer.uniform(),
        0 <= i < layer.insts.len(),
    ensures
        alone(layer, i).uniform(),
        alone(layer, i).input_var_num() == layer.input_var_num(),
        alone(layer, i).mpi_var_num() == layer.mpi_var_num(),
        alone(layer, i).skips_phase_two() == layer.skips_phase_two(),
        alone(layer, i).wants_gpu() == layer.wants_gpu(),
        forall|var: nat| #[trigger]
            alone(layer, i).eval_size(var) == layer.eval_size(var) && alone(layer, i).is_large(
                var,
            ) == layer.is_large(var),
{
    let one = alone(layer, i);
    assert(one.insts[0] == layer.insts[i]);
    assert(layer.insts[i].wf());
    if layer.wants_gpu() {
        lemma_sizes_alone(
            layer.insts.len() as int,
            F::pack_size_spec() as int,
            pow2(layer.input_var_num()) as int,
        );
    }
}

/// Instance `i` has the shape that decides how the layer goes on.
pub open spec fn is_typical<F: FieldEngine>(layer: LayerView<F>, i: int) -> bool {
    &&& 0 <= i < layer.insts.len()
    &&& layer.insts[i].input_var_num() == layer.input_var_num()
    &&& layer.insts[i].mpi_var_num == layer.mpi_var_num()
    &&& layer.insts[i].layer.structure_info.skip_sumcheck_phase_two == layer.skips_phase_two()
}

proof fn lemma_start_round_alone<F: FieldEngine>(
    layer: LayerView<F>,
    first: bool,
    var: nat,
    i: int,
)
    requires
        is_typical(layer, i),
    ensures
        both_alone(layer.start_round(first, var), i) == alone(layer, i).start_round(first, var),
        both_alone(layer.host_round(first, var), i) == alone(layer, i).host_round(first, var),
{
    let one = alone(layer, i);
    assert(both_alone(layer.host_round(first, var), i) =~~= one.host_round(first, var));
    if var >= layer.input_var_num() {
        if first {
            let prepared = LayerView {
                insts: Seq::new(layer.insts.len(), |k: int| layer.insts[k].simd_vars_prepared()),
                ..layer
            };
            let one_prepared = LayerView {
                insts: Seq::new(one.insts.len(), |k: int| one.insts[k].simd_vars_prepared()),
                ..one
            };
            assert(alone(prepared, i).insts =~= one_prepared.insts);
            lemma_start_simd_round_alone(prepared, 0, i);
            assert(layer.start_round(first, var) == prepared.start_simd_round(0));
            assert(one.start_round(first, var) == one_prepared.start_simd_round(0));
            assert(one_prepared.start_simd_round(0) == alone(prepared, i).start_simd_round(0));
        } else {
            assert(both_alone(layer.end_phase(first), i) =~~= one.end_phase(first));
        }
    } else {
        assert(both_alone(layer.start_round(first, var), i) =~~= one.start_round(first, var));
    }
}

proof fn lemma_start_simd_round_alone<F: FieldEngine>(layer: LayerView<F>, var: nat, i: int)
    requires
        0 <= i < layer.insts.len(),
    ensures
        both_alone(layer.start_simd_round(var), i) == alone(layer, i).start_simd_round(var),
{
    assert(both_alone(layer.start_simd_round(var), i) =~~= alone(layer, i).start_simd_round(var));
}

proof fn lemma_start_mpi_round_alone<F: FieldEngine>(layer: LayerView<F>, var: nat, i: int)
    requires
        is_typical(layer, i),
    ensures
        both_alone(layer.start_mpi_round(var), i) == alone(layer, i).start_mpi_round(var),
{
    assert(both_alone(layer.start_mpi_round(var), i) =~~= alone(layer, i).start_mpi_round(var));
}

proof fn lemma_start_phase_alone<F: FieldEngine>(layer: LayerView<F>, first: bool, i: int)
    requires
        is_typical(layer, i),
    ensures
        both_alone(layer.start_phase(first), i) == alone(layer, i).start_phase(first),
{
    if layer.wants_gpu() {
        assert(both_alone(layer.start_phase(first), i) =~~= alone(layer, i).start_phase(first));
    } else {
        lemma_start_round_alone(layer, first, 0, i);
    }
}

/// A state that a batch comes through is, for each instance, one that it comes through alone.
pub proof fn lemma_wf_alone<F: FieldEngine>(layer: LayerView<F>, i: int)
    requires
        layer.wf(),
        0 <= i < layer.insts.len(),
    ensures
        alone(layer, i).wf(),
{
    lemma_uniform_alone(layer, i);
    assert(alone(layer, i).insts[0] == layer.insts[i]);
}

/// A step of the batch is, for each instance, the step it would make alone: from the same state
/// with its own answer to the same state with its own question.
pub proof fn lemma_step_alone<F: FieldEngine>(
    layer: LayerView<F>,
    event: Event<F::ChallengeField>,
    i: int,
)
    requires
        layer.wf(),
        layer.expects(event),
        0 <= i < layer.insts.len(),
    ensures
        alone(layer, i).expects(event_alone(event, i)),
        both_alone(layer.step(event), i) == alone(layer, i).step(event_alone(event, i)),
{
    let one = alone(layer, i);
    let e = event_alone(event, i);
    lemma_uniform_alone(layer, i);
    assert(one.insts[0] == layer.insts[i]);
    assert(is_typical(layer, i));
    match (layer.stage, event) {
        (StageView::GpuSetup { first }, Event::SetUp { ready }) => {
            let next = layer.on_gpu(ready);
            assert(alone(next, i) =~= one.on_gpu(ready));
            lemma_start_round_alone(next, first, 0, i);
            assert(one.on_gpu(ready).start_round(first, 0) == alone(next, i).start_round(
                first,
                0,
            ));
        },
        (StageView::GpuEval { first, var }, Event::Evaluated { results }) => {
            match results {
                Some(results) => {
                    assert(both_alone(layer.gpu_round(first, var, results), i) =~~= one.gpu_round(
                        first,
                        var,
                        only(results, i),
                    ));
                },
                None => {
                    assert(both_alone(layer.spare_round(first, var), i) =~~= one.spare_round(
                        first,
                        var,
                    ));
                },
            }
        },
        (StageView::GpuDownload { first, var }, Event::Downloaded { tables }) => {
            assert(both_alone(layer.step(event), i) =~~= one.step(e));
        },
        (StageView::GpuRelease { first, var }, Event::Released) => {
            let next = layer.on_gpu(false);
            assert(alone(next, i) =~= one.on_gpu(false));
            lemma_start_round_alone(next, first, var, i);
            assert(one.on_gpu(false).host_round(first, var) == alone(next, i).host_round(
                first,
                var,
            ));
        },
        (StageView::Challenge { first, var }, Event::Challenged { r }) => {
            if layer.gpu {
                assert(both_alone(layer.step(event), i) =~~= one.step(e));
            } else {
                let next = layer.folded_on_host(first, var, r);
                assert(is_typical(next, i));
                assert(alone(next, i).insts =~= one.folded_on_host(first, var, only(r, i)).insts);
                lemma_start_round_alone(next, first, var + 1, i);
                assert(one.step(e) == alone(next, i).start_round(first, var + 1));
            }
        },
        (StageView::GpuReceive { first, var, r }, Event::Received { folded }) => {
            if folded {
                let next = layer.folded_on_gpu(first, var, r);
                assert(is_typical(next, i));
                assert(alone(next, i).insts =~= one.folded_on_gpu(first, var, only(r, i)).insts);
                lemma_start_round_alone(next, first, var + 1, i);
                assert(one.step(e) == alone(next, i).start_round(first, var + 1));
            } else {
                let next = layer.folded_on_gpu(first, var, r).recovered(first, var + 1);
                assert(alone(next, i).insts =~= one.folded_on_gpu(
                    first,
                    var,
                    only(r, i),
                ).recovered(first, var + 1).insts);
            }
        },
        (StageView::SimdChallenge { var }, Event::Challenged { r }) => {
            let next = layer.simd_received(var, r);
            assert(is_typical(next, i));
            assert(alone(next, i).insts =~= one.simd_received(var, only(r, i)).insts);
            lemma_start_simd_round_alone(next, var + 1, i);
            assert(one.step(e) == alone(next, i).start_simd_round(var + 1));
        },
        (StageView::Gather, Event::Gathered { v, hg }) => {
            let next = layer.gathered(v, hg);
            assert(is_typical(next, i));
            assert(alone(next, i).insts =~= one.gathered(only(v, i), only(hg, i)).insts);
            lemma_start_mpi_round_alone(next, 0, i);
            assert(one.step(e) == alone(next, i).start_mpi_round(0));
        },
        (StageView::MpiChallenge { var }, Event::Challenged { r }) => {
            let next = layer.mpi_received(var, r);
            assert(is_typical(next, i));
            assert(alone(next, i).insts =~= one.mpi_received(var, only(r, i)).insts);
            lemma_start_mpi_round_alone(next, var + 1, i);
            assert(one.step(e) == alone(next, i).start_mpi_round(var + 1));
        },
        (StageView::Broadcast, Event::Broadcasted { roots }) => {
            let next = layer.y_prepared(roots);
            assert(is_typical(next, i));
            assert(alone(next, i).insts =~= one.y_prepared(only(roots, i)).insts);
            lemma_start_phase_alone(next, false, i);
            assert(one.step(e) == alone(next, i).start_phase(false));
        },
        _ => {
            assert(both_alone(layer.step(event), i) =~~= one.step(e));
        },
    }
}

/// So is the first step.
pub proof fn lemma_start_alone<F: FieldEngine>(layer: LayerView<F>, i: int)
    requires
        layer.uniform(),
        0 <= i < layer.insts.len(),
    ensures
        both_alone(layer.start(), i) == alone(layer, i).start(),
{
    let next = layer.prepared();
    assert(layer.insts[i].wf());
    assert(is_typical(next, i));
    assert(alone(next, i).insts =~= alone(layer, i).prepared().insts);
    lemma_start_phase_alone(next, true, i);
    assert(alone(layer, i).start() == alone(next, i).start_phase(true));
}

// ---------------------------------------------------------------------------
// Whole runs
// ---------------------------------------------------------------------------

/// The state after the first `n` answers.
pub open spec fn after<F: FieldEngine>(
    layer: LayerView<F>,
    events: Seq<Event<F::ChallengeField>>,
    n: nat,
) -> LayerView<F>
    decreases n,
{
    if n == 0 {
        layer
    } else {
        after(layer, events, (n - 1) as nat).step(events[n - 1]).0
    }
}

/// Every answer is one that the state it comes to waits for.
pub open spec fn all_expected<F: FieldEngine>(
    layer: LayerView<F>,
    events: Seq<Event<F::ChallengeField>>,
) -> bool {
    forall|k: int|
        0 <= k < events.len() ==> (#[trigger] after(layer, events, k as nat)).expects(events[k])
}

/// The answers to instance `i`.
pub open spec fn events_alone<E>(events: Seq<Event<E>>, i: int) -> Seq<Event<E>> {
    Seq::new(events.len(), |k: int| event_alone(events[k], i))
}

proof fn lemma_after_alone<F: FieldEngine>(
    layer: LayerView<F>,
    events: Seq<Event<F::ChallengeField>>,
    n: nat,
    i: int,
)
    requires
        layer.wf(),
        all_expected(layer, events),
        n <= events.len(),
        0 <= i < layer.insts.len(),
    ensures
        after(layer, events, n).wf(),
        after(layer, events, n).insts.len() == layer.insts.len(),
        alone(after(layer, events, n), i) == after(alone(layer, i), events_alone(events, i), n),
        n < events.len() ==> after(alone(layer, i), events_alone(events, i), n).expects(
            events_alone(events, i)[n as int],
        ),
    decreases n,
{
    if n > 0 {
        let m = (n - 1) as nat;
        lemma_after_alone(layer, events, m, i);
        let state = after(layer, events, m);
        assert(state.expects(events[m as int]));
        lemma_step_alone(state, events[m as int], i);
        lemma_step_wf(state, events[m as int]);
    }
    if n < events.len() {
        let k = n as int;
        let state = after(layer, events, k as nat);
        assert(state.expects(events[k]));
        lemma_step_alone(state, events[k], i);
    }
}

/// A batch of provers that is given some answers leaves every instance in the state, with the
/// claims and the challenge, that it has after its own answers alone.
pub proof fn lemma_run_alone<F: FieldEngine>(
    layer: LayerView<F>,
    events: Seq<Event<F::ChallengeField>>,
    i: int,
)
    requires
        layer.wf(),
        all_expected(layer, events),
        0 <= i < layer.insts.len(),
    ensures
        all_expected(alone(layer, i), events_alone(events, i)),
        ({
            let batch = after(layer, events, events.len());
            let one = after(alone(layer, i), events_alone(events, i), events.len());
            &&& one == alone(batch, i)
            &&& one.claims()[0] == batch.claims()[i]
            &&& one.challenges()[0] == batch.challenges()[i]
            &&& one.insts[0].pad == batch.insts[i].pad
        }),
{
    assert forall|k: int| 0 <= k < events.len() implies (#[trigger] after(
        alone(layer, i),
        events_alone(events, i),
        k as nat,
    )).expects(events_alone(events, i)[k]) by {
        lemma_after_alone(layer, events, k as nat, i);
    }
    lemma_after_alone(layer, events, events.len(), i);
    let batch = after(layer, events, events.len());
    let one = after(alone(layer, i), events_alone(events, i), events.len());
    assert(one == alone(batch, i));
    assert(one.insts[0] == batch.insts[i]);
}

// ---------------------------------------------------------------------------
// Whole circuits
// ---------------------------------------------------------------------------

/// The stage of a proof as instance `i` sees it.
pub open spec fn gkr_stage_alone<F: FieldEngine>(stage: GkrStageView<F>, i: int) -> GkrStageView<
    F,
> {
    match stage {
        GkrStageView::Sample { pads } => GkrStageView::Sample { pads: only(pads, i) },
        GkrStageView::Claim { challenges, pads } => GkrStageView::Claim {
            challenges: only(challenges, i),
            pads: only(pads, i),
        },
        GkrStageView::Layer { index, claimed, layer } => GkrStageView::Layer {
            index,
            claimed: only(claimed, i),
            layer: alone(layer, i),
        },
        GkrStageView::Alpha { index, claimed, challenges, pads } => GkrStageView::Alpha {
            index,
            claimed: only(claimed, i),
            challenges: only(challenges, i),
            pads: only(pads, i),
        },
        GkrStageView::Done { claimed, challenges, pads } => GkrStageView::Done {
            claimed: only(claimed, i),
            challenges: only(challenges, i),
            pads: only(pads, i),
        },
    }
}

/// The proof as instance `i` goes through it.
pub open spec fn gkr_alone<F: FieldEngine>(gkr: GkrView<F>, i: int) -> GkrView<F> {
    GkrView {
        circuits: only(gkr.circuits, i),
        world_size: gkr.world_size,
        stage: gkr_stage_alone(gkr.stage, i),
    }
}

/// What a proof asks on behalf of instance `i`.
pub open spec fn gkr_ask_alone<E>(ask: GkrAsk<E>, i: int) -> GkrAsk<E> {
    match ask {
        GkrAsk::Sample { output_var_nums, world_size } => GkrAsk::Sample {
            output_var_nums: only(output_var_nums, i),
            world_size,
        },
        GkrAsk::Combine { values, coefs } => GkrAsk::Combine {
            values: only(values, i),
            coefs: only(coefs, i),
        },
        GkrAsk::Layer { ask } => GkrAsk::Layer { ask: ask_alone(ask, i) },
        GkrAsk::Alpha { count } => GkrAsk::Alpha { count: 1 },
        GkrAsk::Finished => GkrAsk::Finished,
    }
}

/// What a proof is answered, as far as it is about instance `i`.
pub open spec fn gkr_event_alone<E>(event: GkrEvent<E>, i: int) -> GkrEvent<E> {
    match event {
        GkrEvent::Sampled { challenges } => GkrEvent::Sampled { challenges: only(challenges, i) },
        GkrEvent::Combined { values } => GkrEvent::Combined { values: only(values, i) },
        GkrEvent::Layer { event } => GkrEvent::Layer { event: event_alone(event, i) },
        GkrEvent::Alphas { alphas } => GkrEvent::Alphas { alphas: only(alphas, i) },
    }
}

/// A state and a question of a proof, as instance `i` sees them.
pub open spec fn gkr_both_alone<F: FieldEngine>(
    both: (GkrView<F>, GkrAsk<F::ChallengeField>),
    i: int,
) -> (GkrView<F>, GkrAsk<F::ChallengeField>) {
    (gkr_alone(both.0, i), gkr_ask_alone(both.1, i))
}

proof fn lemma_circuits_alone<F: FieldEngine>(circuits: Seq<Circuit<F>>, i: int)
    requires
        circuits_fit(circuits),
        0 <= i < circuits.len(),
    ensures
        circuits_fit(only(circuits, i)),
        only(circuits, i)[0].layers@.len() == circuits[0].layers@.len(),
        forall|j: int|
            0 <= j < circuits[0].layers@.len() ==> (#[trigger] circuits[i].layers@[j]).same_shape(
                circuits[0].layers@[j],
            ),
{
    let one = only(circuits, i);
    assert(one[0] == circuits[i]);
    assert(circuits[i].wf());
    assert forall|j: int| 0 <= j < circuits[0].layers@.len() implies (
    #[trigger] circuits[i].layers@[j]).same_shape(circuits[0].layers@[j]) by {}
    assert forall|j: int| 0 <= j < one[0].layers@.len() implies gpu_sizes_fit(
        1,
        #[trigger] one[0].layers@[j],
    ) by {
        let layer = circuits[0].layers@[j];
        assert(circuits[i].layers@[j].same_shape(layer));
        assert(gpu_sizes_fit(circuits.len() as int, layer));
        if sizes_fit(
            circuits.len() as int,
            F::pack_size_spec() as int,
            pow2(layer.input_var_num as nat) as int,
        ) {
            lemma_sizes_alone(
                circuits.len() as int,
                F::pack_size_spec() as int,
                pow2(layer.input_var_num as nat) as int,
            );
        }
    }
}

proof fn lemma_pads_alone<F: FieldEngine>(
    circuits: Seq<Circuit<F>>,
    pads: Seq<PadView<F::Field, F::ChallengeField>>,
    mpi_var_num: nat,
    i: int,
)
    requires
        circuits_fit(circuits),
        pads_fit(circuits, pads, mpi_var_num),
        0 <= i < circuits.len(),
    ensures
        pads_fit(only(circuits, i), only(pads, i), mpi_var_num),
{
    lemma_circuits_alone(circuits, i);
    let one = only(circuits, i);
    assert forall|k: int, j: int|
        0 <= k < only(pads, i).len() && 0 <= j < one[0].layers@.len() implies (
    #[trigger] only(pads, i)[k]).holds(
        pow2((#[trigger] one[0].layers@[j]).input_var_num as nat),
        pow2(one[0].layers@[j].output_var_num as nat),
        F::pack_size_spec() as nat,
        pow2(mpi_var_num),
    ) by {
        let layer = circuits[0].layers@[j];
        assert(circuits[i].layers@[j].same_shape(layer));
        assert(pads[i].holds(
            pow2(layer.input_var_num as nat),
            pow2(layer.output_var_num as nat),
            F::pack_size_spec() as nat,
            pow2(mpi_var_num),
        ));
    }
}

proof fn lemma_begin_layer_alone<F: FieldEngine>(
    gkr: GkrView<F>,
    index: nat,
    claimed: Seq<F::ChallengeField>,
    challenges: Seq<ChallengeView<F::ChallengeField>>,
    alphas: Seq<Option<F::ChallengeField>>,
    pads: Seq<PadView<F::Field, F::ChallengeField>>,
    i: int,
)
    requires
        circuits_fit(gkr.circuits),
        0 <= i < gkr.circuits.len(),
        layer_at_start(
            gkr.layers_at(index),
            challenges,
            alphas,
            pads,
            gkr.world_size,
            index == gkr.layer_num() - 1,
        ).uniform(),
    ensures
        gkr_both_alone(gkr.begin_layer(index, claimed, challenges, alphas, pads), i) == gkr_alone(
            gkr,
            i,
        ).begin_layer(
            index,
            only(claimed, i),
            only(challenges, i),
            only(alphas, i),
            only(pads, i),
        ),
{
    let layer = layer_at_start(
        gkr.layers_at(index),
        challenges,
        alphas,
        pads,
        gkr.world_size,
        index == gkr.layer_num() - 1,
    );
    let one = gkr_alone(gkr, i);
    lemma_circuits_alone(gkr.circuits, i);
    let one_layer = layer_at_start(
        one.layers_at(index),
        only(challenges, i),
        only(alphas, i),
        only(pads, i),
        one.world_size,
        index == one.layer_num() - 1,
    );
    assert(one_layer.insts =~= alone(layer, i).insts);
    lemma_start_alone(layer, i);
    assert(one_layer.start() == alone(layer, i).start());
}

/// A state that a batch comes through is, for each instance, one that it comes through alone.
pub proof fn lemma_gkr_wf_alone<F: FieldEngine>(gkr: GkrView<F>, i: int)
    requires
        gkr.wf(),
        0 <= i < gkr.circuits.len(),
    ensures
        gkr_alone(gkr, i).wf(),
{
    let one = gkr_alone(gkr, i);
    let last = gkr.layer_num() - 1;
    lemma_circuits_alone(gkr.circuits, i);
    assert(gkr.circuits[0].wf());
    assert(gkr.circuits[i].layers@[last].same_shape(gkr.circuits[0].layers@[last]));
    match gkr.stage {
        GkrStageView::Sample { pads } => {
            lemma_pads_alone(gkr.circuits, pads, gkr.mpi_var_num(), i);
        },
        GkrStageView::Claim { challenges, pads } => {
            lemma_pads_alone(gkr.circuits, pads, gkr.mpi_var_num(), i);
        },
        GkrStageView::Layer { index, claimed, layer } => {
            let one_layer = alone(layer, i);
            lemma_wf_alone(layer, i);
            assert(one_layer.insts[0] == layer.insts[i]);
            assert forall|j: int| 0 <= j < one.layer_num() implies one_layer.has_room(
                pow2((#[trigger] one.circuits[0].layers@[j]).input_var_num as nat),
                pow2(one.circuits[0].layers@[j].output_var_num as nat),
            ) by {
                let shape = gkr.circuits[0].layers@[j];
                assert(gkr.circuits[i].layers@[j].same_shape(shape));
                assert(layer.has_room(
                    pow2(shape.input_var_num as nat),
                    pow2(shape.output_var_num as nat),
                ));
            }
        },
        GkrStageView::Alpha { index, claimed, challenges, pads } => {
            lemma_pads_alone(gkr.circuits, pads, gkr.mpi_var_num(), i);
            assert(gkr.circuits[i].layers@[index as int].same_shape(
                gkr.circuits[0].layers@[index as int],
            ));
        },
        GkrStageView::Done { claimed, challenges, pads } => {},
    }
}

/// A step of the batch is, for each instance, the step it would make alone.
pub proof fn lemma_gkr_step_alone<F: FieldEngine>(
    gkr: GkrView<F>,
    event: GkrEvent<F::ChallengeField>,
    i: int,
)
    requires
        gkr.wf(),
        gkr.expects(event),
        0 <= i < gkr.circuits.len(),
    ensures
        gkr_alone(gkr, i).expects(gkr_event_alone(event, i)),
        gkr_both_alone(gkr.step(event), i) == gkr_alone(gkr, i).step(gkr_event_alone(event, i)),
{
    let one = gkr_alone(gkr, i);
    let e = gkr_event_alone(event, i);
    let n = gkr.circuits.len();
    let last = gkr.layer_num() - 1;
    lemma_circuits_alone(gkr.circuits, i);
    assert(gkr.circuits[0].wf());
    assert(gkr.circuits[i].layers@[last].same_shape(gkr.circuits[0].layers@[last]));
    match (gkr.stage, event) {
        (GkrStageView::Sample { pads }, GkrEvent::Sampled { challenges }) => {
            assert(gkr_both_alone(gkr.step(event), i) =~~= one.step(e));
        },
        (GkrStageView::Claim { challenges, pads }, GkrEvent::Combined { values }) => {
            let claimed = Seq::new(n, |k: int| values[k][0]);
            lemma_begin_layer(
                gkr,
                last as nat,
                claimed,
                challenges,
                gkr.no_alphas(),
                pads,
                false,
            );
            lemma_begin_layer_alone(
                gkr,
                last as nat,
                claimed,
                challenges,
                gkr.no_alphas(),
                pads,
                i,
            );
            assert(only(claimed, i) =~= Seq::new(1, |k: int| only(values, i)[k][0]));
            assert(only(gkr.no_alphas(), i) =~= one.no_alphas());
        },
        (GkrStageView::Layer { index, claimed, layer }, GkrEvent::Layer { event }) => {
            lemma_step_alone(layer, event, i);
            lemma_layer_stepped_alone(gkr, index, claimed, layer, event, i);
        },
        (
            GkrStageView::Alpha { index, claimed, challenges, pads },
            GkrEvent::Alphas { alphas },
        ) => {
            let some = Seq::new(n, |k: int| Some(alphas[k]));
            assert(only(some, i) =~= Seq::new(1, |k: int| Some(only(alphas, i)[k])));
            if index > 0 {
                assert(gkr.circuits[0].layers@[index as int].input_var_num
                    == gkr.circuits[0].layers@[index - 1].output_var_num);
                lemma_begin_layer(gkr, (index - 1) as nat, claimed, challenges, some, pads, true);
                lemma_begin_layer_alone(
                    gkr,
                    (index - 1) as nat,
                    claimed,
                    challenges,
                    some,
                    pads,
                    i,
                );
            }
        },
        _ => {},
    }
}

proof fn lemma_layer_stepped_alone<F: FieldEngine>(
    gkr: GkrView<F>,
    index: nat,
    claimed: Seq<F::ChallengeField>,
    layer: LayerView<F>,
    event: Event<F::ChallengeField>,
    i: int,
)
    requires
        circuits_fit(gkr.circuits),
        index < gkr.layer_num(),
        claimed.len() == gkr.circuits.len(),
        gkr.layer_fits(index, layer),
        layer.expects(event),
        0 <= i < gkr.circuits.len(),
        both_alone(layer.step(event), i) == alone(layer, i).step(event_alone(event, i)),
    ensures
        gkr_both_alone(gkr.layer_stepped(index, claimed, layer.step(event)), i) == gkr_alone(
            gkr,
            i,
        ).layer_stepped(index, only(claimed, i), alone(layer, i).step(event_alone(event, i))),
{
    let one = gkr_alone(gkr, i);
    let (next, ask) = layer.step(event);
    lemma_layer_stepped(gkr, index, layer, event);
    lemma_circuits_alone(gkr.circuits, i);
    let one_next = alone(next, i);
    assert(one_next.insts[0] == next.insts[i]);
    assert(is_typical(next, i));
    if next.stage is Done {
        assert(only(next.challenges(), i) =~= one_next.challenges());
        assert(only(GkrView::<F>::pads_of(next), i) =~= GkrView::<F>::pads_of(one_next));
        assert(only(gkr.no_alphas(), i) =~= one.no_alphas());
        lemma_layer_done(gkr, index, next);
        if next.skips_phase_two() && index > 0 {
            lemma_begin_layer(
                gkr,
                (index - 1) as nat,
                claimed,
                next.challenges(),
                gkr.no_alphas(),
                GkrView::<F>::pads_of(next),
                false,
            );
            lemma_begin_layer_alone(
                gkr,
                (index - 1) as nat,
                claimed,
                next.challenges(),
                gkr.no_alphas(),
                GkrView::<F>::pads_of(next),
                i,
            );
        }
    }
}

/// The state of a proof after the first `n` answers.
pub open spec fn gkr_after<F: FieldEngine>(
    gkr: GkrView<F>,
    events: Seq<GkrEvent<F::ChallengeField>>,
    n: nat,
) -> GkrView<F>
    decreases n,
{
    if n == 0 {
        gkr
    } else {
        gkr_after(gkr, events, (n - 1) as nat).step(events[n - 1]).0
    }
}

/// Every answer is one that the state it comes to waits for.
pub open spec fn gkr_all_expected<F: FieldEngine>(
    gkr: GkrView<F>,
    events: Seq<GkrEvent<F::ChallengeField>>,
) -> bool {
    forall|k: int|
        0 <= k < events.len() ==> (#[trigger] gkr_after(gkr, events, k as nat)).expects(events[k])
}

/// The answers to instance `i`.
pub open spec fn gkr_events_alone<E>(events: Seq<GkrEvent<E>>, i: int) -> Seq<GkrEvent<E>> {
    Seq::new(events.len(), |k: int| gkr_event_alone(events[k], i))
}

proof fn lemma_gkr_after_alone<F: FieldEngine>(
    gkr: GkrView<F>,
    events: Seq<GkrEvent<F::ChallengeField>>,
    n: nat,
    i: int,
)
    requires
        gkr.wf(),
        gkr_all_expected(gkr, events),
        n <= events.len(),
        0 <= i < gkr.circuits.len(),
    ensures
        gkr_after(gkr, events, n).wf(),
        gkr_after(gkr, events, n).circuits == gkr.circuits,
        gkr_alone(gkr_after(gkr, events, n), i) == gkr_after(
            gkr_alone(gkr, i),
            gkr_events_alone(events, i),
            n,
        ),
        n < events.len() ==> gkr_after(
            gkr_alone(gkr, i),
            gkr_events_alone(events, i),
            n,
        ).expects(gkr_events_alone(events, i)[n as int]),
    decreases n,
{
    if n > 0 {
        let m = (n - 1) as nat;
        lemma_gkr_after_alone(gkr, events, m, i);
        let state = gkr_after(gkr, events, m);
        assert(state.expects(events[m as int]));
        lemma_gkr_step_alone(state, events[m as int], i);
        lemma_gkr_step_wf(state, events[m as int]);
    }
    if n < events.len() {
        let k = n as int;
        let state = gkr_after(gkr, events, k as nat);
        assert(state.expects(events[k]));
        lemma_gkr_step_alone(state, events[k], i);
    }
}

/// Proving several circuits in lockstep gives for every instance the claimed output, the last
/// challenge and the scratch pad that proving it alone gives, with the same answers.
pub proof fn lemma_gkr_run_alone<F: FieldEngine>(
    gkr: GkrView<F>,
    events: Seq<GkrEvent<F::ChallengeField>>,
    i: int,
)
    requires
        gkr.wf(),
        gkr_all_expected(gkr, events),
        0 <= i < gkr.circuits.len(),
    ensures
        gkr_all_expected(gkr_alone(gkr, i), gkr_events_alone(events, i)),
        ({
            let batch = gkr_after(gkr, events, events.len());
            let one = gkr_after(gkr_alone(gkr, i), gkr_events_alone(events, i), events.len());
            &&& one == gkr_alone(batch, i)
            &&& batch.stage is Done ==> one.stage is Done && one.results() == seq![
                batch.results()[i],
            ]
        }),
{
    assert forall|k: int| 0 <= k < events.len() implies (#[trigger] gkr_after(
        gkr_alone(gkr, i),
        gkr_events_alone(events, i),
        k as nat,
    )).expects(gkr_events_alone(events, i)[k]) by {
        lemma_gkr_after_alone(gkr, events, k as nat, i);
    }
    lemma_gkr_after_alone(gkr, events, events.len(), i);
    let batch = gkr_after(gkr, events, events.len());
    let one = gkr_after(gkr_alone(gkr, i), gkr_events_alone(events, i), events.len());
    if batch.stage is Done {
        assert(one.results() =~= seq![batch.results()[i]]);
    }
}

/// The first question of a proof is, for each instance, the one it would put alone.
pub proof fn lemma_gkr_begin_alone<F: FieldEngine>(
    gkr: GkrView<F>,
    pads: Seq<PadView<F::Field, F::ChallengeField>>,
    i: int,
)
    requires
        0 <= i < gkr.circuits.len(),
    ensures
        gkr_both_alone(gkr.begin(pads), i) == gkr_alone(gkr, i).begin(only(pads, i)),
{
    assert(gkr_both_alone(gkr.begin(pads), i) =~~= gkr_alone(gkr, i).begin(only(pads, i)));
}

} // verus!
