//! The record of a layer's run: the challenges that came in are those that the layer leaves, and
//! what went into the transcripts as claims are the values of its inputs there.

use vstd::arithmetic::power2::*;
use vstd::prelude::*;

use crate::algebra::lemma_dot_commutes;
use crate::chain::{absorbed, column, weighted};
use crate::circuit::ChallengeView;
use crate::claims::{inst_on_track, lemma_start_on_track, on_track, shares_valid};
use crate::dispatch::{
    all_faithful, host_events, lemma_gpu_run, lemma_host_on_track, pending, questions, shares_sent,
};
use crate::engine::FieldEngine;
use crate::extension::promoted;
use crate::field::Field;
use crate::gkr_protocol::{eq_table, wires_at};
use crate::instance::lanes_combined;
use crate::lockstep::{after, all_expected};
use crate::poly::dot;
use crate::protocol::{
    lemma_start_wf, lemma_step_layers, lemma_step_wf, Ask, Event, LayerView, StageView,
};
use crate::rounds::all_valid;
use crate::transcript::{
    answers_at, asks_at, drawn, first_phase, holds_point, is_joint_answer, is_joint_run,
    lemma_drawn_alike, lemma_drawn_on_host, lemma_first_done, lemma_run_in_step, on_host, reached,
    same_stage, start_together,
};

verus! {

// ---------------------------------------------------------------------------
// Challenges
// ---------------------------------------------------------------------------

/// The `n` challenges of instance `i` from challenge `from` on.
pub open spec fn part_of<E>(d: Seq<Seq<E>>, i: int, from: int, n: nat) -> Seq<E> {
    Seq::new(n, |k: int| d[from + k][i])
}

/// How many challenges a layer has drawn.
spec fn drawn_by<F: FieldEngine>(layer: LayerView<F>) -> nat {
    let inst = layer.insts[0];
    inst.rx.len() + inst.r_simd_var.len() + inst.r_mpi_var.len() + inst.ry.len()
        + if layer.stage is GpuReceive {
        1nat
    } else {
        0nat
    }
}

/// Every instance has noted the challenges that came in, each kind in its place.
spec fn has_heard<F: FieldEngine>(layer: LayerView<F>, d: Seq<Seq<F::ChallengeField>>) -> bool {
    let n = layer.input_var_num() as int;
    let l = layer.simd_var_num() as int;
    let w = layer.mpi_var_num() as int;
    &&& d.len() == drawn_by(layer)
    &&& layer.stage matches StageView::GpuReceive { r, .. } ==> r == d.last()
    &&& forall|i: int|
        0 <= i < layer.insts.len() ==> {
            let inst = #[trigger] layer.insts[i];
            &&& inst.rx == part_of(d, i, 0, inst.rx.len())
            &&& inst.r_simd_var == part_of(d, i, n, inst.r_simd_var.len())
            &&& inst.r_mpi_var == part_of(d, i, n + l, inst.r_mpi_var.len())
            &&& inst.ry == part_of(d, i, n + l + w, inst.ry.len())
        }
}

/// The challenges after an answer.
spec fn drawn_then<E>(d: Seq<Seq<E>>, event: Event<E>) -> Seq<Seq<E>> {
    match event {
        Event::Challenged { r } => d.push(r),
        _ => d,
    }
}

/// What an answer adds to the challenges that an instance has noted: over the first input wires,
/// the lanes, the processes and the second input wires.
spec fn notes<F: FieldEngine>(
    layer: LayerView<F>,
    event: Event<F::ChallengeField>,
    i: int,
) -> (
    Seq<F::ChallengeField>,
    Seq<F::ChallengeField>,
    Seq<F::ChallengeField>,
    Seq<F::ChallengeField>,
) {
    let none = Seq::empty();
    match (layer.stage, event) {
        (StageView::Challenge { first, .. }, Event::Challenged { r }) => if layer.gpu {
            (none, none, none, none)
        } else if first {
            (seq![r[i]], none, none, none)
        } else {
            (none, none, none, seq![r[i]])
        },
        (StageView::GpuReceive { first, r, .. }, Event::Received { .. }) => if first {
            (seq![r[i]], none, none, none)
        } else {
            (none, none, none, seq![r[i]])
        },
        (StageView::SimdChallenge { .. }, Event::Challenged { r }) => (
            none,
            seq![r[i]],
            none,
            none,
        ),
        (StageView::MpiChallenge { .. }, Event::Challenged { r }) => (
            none,
            none,
            seq![r[i]],
            none,
        ),
        _ => (none, none, none, none),
    }
}

proof fn lemma_step_notes<F: FieldEngine>(
    layer: LayerView<F>,
    event: Event<F::ChallengeField>,
    i: int,
)
    requires
        layer.expects(event),
        0 <= i < layer.insts.len(),
    ensures
        ({
            let next = layer.step(event).0.insts[i];
            let inst = layer.insts[i];
            let (x, s, m, y) = notes(layer, event, i);
            &&& next.rx == inst.rx + x
            &&& next.r_simd_var == inst.r_simd_var + s
            &&& next.r_mpi_var == inst.r_mpi_var + m
            &&& next.ry == inst.ry + y
        }),
{
    let next = layer.step(event).0.insts[i];
    let inst = layer.insts[i];
    let (x, s, m, y) = notes(layer, event, i);
    assert(next.rx =~= inst.rx + x);
    assert(next.r_simd_var =~= inst.r_simd_var + s);
    assert(next.r_mpi_var =~= inst.r_mpi_var + m);
    assert(next.ry =~= inst.ry + y);
}

/// The stage that a challenge leads to on the GPU.
proof fn lemma_step_receives<F: FieldEngine>(layer: LayerView<F>, event: Event<F::ChallengeField>)
    requires
        layer.expects(event),
    ensures
        ({
            let next = layer.step(event).0;
            &&& next.stage is GpuReceive <==> layer.stage is Challenge && layer.gpu
            &&& next.stage is GpuReceive ==> next.stage->GpuReceive_r == event->Challenged_r
        }),
{
}

/// How many challenges of each kind an instance has noted at a stage.
proof fn lemma_counts<F: FieldEngine>(layer: LayerView<F>, i: int)
    requires
        layer.wf(),
        layer.input_var_num() >= 1,
        0 <= i < layer.insts.len(),
    ensures
        ({
            let (n, l, w) = (layer.input_var_num(), layer.simd_var_num(), layer.mpi_var_num());
            let (inst, root) = (layer.insts[i], layer.insts[0]);
            &&& inst.rx.len() == root.rx.len() <= n
            &&& inst.r_simd_var.len() == root.r_simd_var.len() <= l
            &&& inst.r_mpi_var.len() == root.r_mpi_var.len() <= w
            &&& inst.ry.len() == root.ry.len() <= n
            &&& root.r_simd_var.len() > 0 ==> root.rx.len() == n
            &&& root.r_mpi_var.len() > 0 ==> root.rx.len() == n && root.r_simd_var.len() == l
            &&& root.ry.len() > 0 ==> root.rx.len() == n && root.r_simd_var.len() == l
                && root.r_mpi_var.len() == w
            &&& match layer.stage {
                StageView::Challenge { first, .. } | StageView::GpuReceive { first, .. } => if first
                {
                    root.rx.len() < n && root.r_simd_var.len() == 0 && root.r_mpi_var.len() == 0
                        && root.ry.len() == 0
                } else {
                    root.rx.len() == n && root.r_simd_var.len() == l && root.r_mpi_var.len() == w
                        && root.ry.len() < n
                },
                StageView::SimdChallenge { .. } => root.rx.len() == n && root.r_simd_var.len() < l
                    && root.r_mpi_var.len() == 0 && root.ry.len() == 0,
                StageView::MpiChallenge { .. } => root.rx.len() == n && root.r_simd_var.len() == l
                    && root.r_mpi_var.len() < w && root.ry.len() == 0,
                _ => true,
            }
        }),
{
    assert(layer.insts[0].rx.len() == layer.insts[i].rx.len());
}

proof fn lemma_inst_heard<F: FieldEngine>(
    layer: LayerView<F>,
    event: Event<F::ChallengeField>,
    d: Seq<Seq<F::ChallengeField>>,
    i: int,
)
    requires
        layer.wf(),
        layer.input_var_num() >= 1,
        layer.expects(event),
        has_heard(layer, d),
        0 <= i < layer.insts.len(),
    ensures
        ({
            let inst = layer.step(event).0.insts[i];
            let then = drawn_then(d, event);
            let n = layer.input_var_num() as int;
            let l = layer.simd_var_num() as int;
            let w = layer.mpi_var_num() as int;
            &&& inst.rx == part_of(then, i, 0, inst.rx.len())
            &&& inst.r_simd_var == part_of(then, i, n, inst.r_simd_var.len())
            &&& inst.r_mpi_var == part_of(then, i, n + l, inst.r_mpi_var.len())
            &&& inst.ry == part_of(then, i, n + l + w, inst.ry.len())
        }),
{
    let inst = layer.step(event).0.insts[i];
    let a = layer.insts[i];
    let then = drawn_then(d, event);
    let n = layer.input_var_num() as int;
    let l = layer.simd_var_num() as int;
    let w = layer.mpi_var_num() as int;
    lemma_step_notes(layer, event, i);
    lemma_counts(layer, i);
    assert(a.rx == part_of(d, i, 0, a.rx.len()));
    assert(inst.rx =~= part_of(then, i, 0, inst.rx.len()));
    assert(inst.r_simd_var =~= part_of(then, i, n, inst.r_simd_var.len()));
    assert(inst.r_mpi_var =~= part_of(then, i, n + l, inst.r_mpi_var.len()));
    assert(inst.ry =~= part_of(then, i, n + l + w, inst.ry.len()));
}

proof fn lemma_step_heard<F: FieldEngine>(
    layer: LayerView<F>,
    event: Event<F::ChallengeField>,
    d: Seq<Seq<F::ChallengeField>>,
)
    requires
        layer.wf(),
        layer.input_var_num() >= 1,
        layer.expects(event),
        has_heard(layer, d),
    ensures
        has_heard(layer.step(event).0, drawn_then(d, event)),
{
    let next = layer.step(event).0;
    let then = drawn_then(d, event);
    lemma_step_layers(layer, event);
    assert(next.insts[0].layer == layer.insts[0].layer);
    assert forall|i: int| 0 <= i < next.insts.len() implies {
        let inst = #[trigger] next.insts[i];
        &&& inst.rx == part_of(then, i, 0, inst.rx.len())
        &&& inst.r_simd_var == part_of(
            then,
            i,
            layer.input_var_num() as int,
            inst.r_simd_var.len(),
        )
        &&& inst.r_mpi_var == part_of(
            then,
            i,
            layer.input_var_num() + layer.simd_var_num() as int,
            inst.r_mpi_var.len(),
        )
        &&& inst.ry == part_of(
            then,
            i,
            layer.input_var_num() + layer.simd_var_num() + layer.mpi_var_num() as int,
            inst.ry.len(),
        )
    } by {
        lemma_inst_heard(layer, event, d, i);
    }
    lemma_step_notes(layer, event, 0);
    lemma_step_receives(layer, event);
    lemma_counts(layer, 0);
}

proof fn lemma_after_heard<F: FieldEngine>(
    layer: LayerView<F>,
    events: Seq<Event<F::ChallengeField>>,
    k: nat,
)
    requires
        layer.uniform(),
        !layer.gpu,
        layer.seen(0, 0, 0, 0),
        layer.input_var_num() >= 1,
        all_expected(layer.start().0, events),
        k <= events.len(),
    ensures
        after(layer.start().0, events, k).wf(),
        after(layer.start().0, events, k).insts.len() == layer.insts.len(),
        after(layer.start().0, events, k).insts[0].layer == layer.insts[0].layer,
        after(layer.start().0, events, k).mpi_var_num() == layer.mpi_var_num(),
        has_heard(after(layer.start().0, events, k), drawn(events, k)),
    decreases k,
{
    if k == 0 {
        let start = layer.start().0;
        lemma_start_wf(layer);
        assert forall|i: int| 0 <= i < start.insts.len() implies {
            let inst = #[trigger] start.insts[i];
            inst.rx.len() == 0 && inst.ry.len() == 0 && inst.r_simd_var.len() == 0
                && inst.r_mpi_var.len() == 0
        } by {
            assert(layer.insts[i].rx.len() == 0);
        }
        let d = drawn(events, 0);
        let n = start.input_var_num() as int;
        let l = start.simd_var_num() as int;
        let w = start.mpi_var_num() as int;
        assert forall|i: int| 0 <= i < start.insts.len() implies {
            let inst = #[trigger] start.insts[i];
            &&& inst.rx == part_of(d, i, 0, inst.rx.len())
            &&& inst.r_simd_var == part_of(d, i, n, inst.r_simd_var.len())
            &&& inst.r_mpi_var == part_of(d, i, n + l, inst.r_mpi_var.len())
            &&& inst.ry == part_of(d, i, n + l + w, inst.ry.len())
        } by {
            let inst = start.insts[i];
            assert(inst.rx =~= part_of(d, i, 0, 0));
            assert(inst.r_simd_var =~= part_of(d, i, n, 0));
            assert(inst.r_mpi_var =~= part_of(d, i, n + l, 0));
            assert(inst.ry =~= part_of(d, i, n + l + w, 0));
        }
        assert(start.insts[0].rx.len() == 0);
    } else {
        let m = (k - 1) as nat;
        lemma_after_heard(layer, events, m);
        let state = after(layer.start().0, events, m);
        assert(state.expects(events[m as int]));
        lemma_step_heard(state, events[m as int], drawn(events, m));
        lemma_step_wf(state, events[m as int]);
        lemma_step_layers(state, events[m as int]);
        assert(state.step(events[m as int]).0.insts[0].layer == state.insts[0].layer);
    }
}

/// The challenges that a layer leaves are those that were drawn in its run, in the order of its
/// rounds: over the first input wires, the lanes and the processes, and then, unless the second
/// phase is skipped, over the second input wires. With or without a GPU.
pub proof fn lemma_challenges_drawn<F: FieldEngine>(
    layer: LayerView<F>,
    events: Seq<Event<F::ChallengeField>>,
    i: int,
)
    requires
        layer.uniform(),
        !layer.gpu,
        layer.seen(0, 0, 0, 0),
        layer.input_var_num() >= 1,
        all_expected(layer.start().0, events),
        0 <= i < layer.insts.len(),
        after(layer.start().0, events, events.len()).stage is Done,
    ensures
        ({
            let d = drawn(events, events.len());
            let (n, l, w) = (layer.input_var_num(), layer.simd_var_num(), layer.mpi_var_num());
            let first = (n + l + w) as int;
            &&& d.len() == first + if layer.skips_phase_two() {
                0
            } else {
                n
            }
            &&& after(layer.start().0, events, events.len()).challenges()[i] == (ChallengeView {
                rz_0: part_of(d, i, 0, n),
                rz_1: if layer.skips_phase_two() {
                    None
                } else {
                    Some(part_of(d, i, first, n))
                },
                r_simd: part_of(d, i, n as int, l),
                r_mpi: part_of(d, i, (n + l) as int, w),
            })
        }),
{
    let done = after(layer.start().0, events, events.len());
    lemma_after_heard(layer, events, events.len());
    lemma_counts(done, i);
    assert(done.insts[i].rx.len() == done.insts[0].rx.len());
}

// ---------------------------------------------------------------------------
// Claims
// ---------------------------------------------------------------------------

/// The share of one process in the value of wires at a point: the wires extended to a point of the
/// wire variables, and their lanes to one of the lane variables.
pub open spec fn share_at<F: FieldEngine>(
    vals: Seq<F::SimdCircuitField>,
    rz: Seq<F::ChallengeField>,
    r_simd: Seq<F::ChallengeField>,
) -> F::ChallengeField {
    lanes_combined::<F>(wires_at::<F>(vals, rz), eq_table(r_simd))
}

/// The value of wires, listed by process, at a point of the wire, lane and process variables.
pub open spec fn value_at<F: FieldEngine>(
    vals: Seq<Seq<F::SimdCircuitField>>,
    rz: Seq<F::ChallengeField>,
    r_simd: Seq<F::ChallengeField>,
    r_mpi: Seq<F::ChallengeField>,
) -> F::ChallengeField {
    dot(
        eq_table(r_mpi),
        Seq::new(vals.len(), |p: int| share_at::<F>(vals[p], rz, r_simd)),
        vals.len(),
    )
}

/// The inputs of instance `i`, by process.
pub open spec fn inputs_of<F: FieldEngine>(starts: Seq<LayerView<F>>, i: int) -> Seq<
    Seq<F::SimdCircuitField>,
> {
    Seq::new(starts.len(), |p: int| starts[p].insts[i].layer.input_vals@)
}

/// The claims that went into the transcripts, in order.
pub open spec fn appended_of<E>(asks: Seq<Ask<E>>) -> Seq<Seq<E>>
    decreases asks.len(),
{
    if asks.len() == 0 {
        Seq::empty()
    } else {
        let before = appended_of(asks.drop_last());
        match asks.last() {
            Ask::Append { claims } => before.push(claims),
            _ => before,
        }
    }
}

/// The shares that the processes hear of are in canonical form.
pub open spec fn hears_elements<F: FieldEngine>(
    starts: Seq<LayerView<F>>,
    events: Seq<Seq<Event<F::ChallengeField>>>,
) -> bool {
    forall|p: int, k: int|
        0 <= p < events.len() && 0 <= k < events[p].len() ==> shares_valid(
            #[trigger] events[p][k],
            pow2(starts[0].mpi_var_num()),
        )
}

/// How many claims a layer has put into the transcripts by a stage.
pub open spec fn claims_by<E>(stage: StageView<E>) -> nat {
    match stage {
        StageView::GpuSetup { first } => if first {
            0
        } else {
            1
        },
        StageView::Combine { first, .. } | StageView::Challenge { first, .. } => if first {
            0
        } else {
            1
        },
        StageView::VxAppend | StageView::Broadcast | StageView::VyCombine => 1,
        StageView::VyAppend { .. } => 2,
        StageView::Done { claim } => if claim is Some {
            2
        } else {
            1
        },
        _ => 0,
    }
}

/// The shares of all processes have come in by a stage.
spec fn has_shares<E>(stage: StageView<E>) -> bool {
    stage is MpiChallenge || claims_by(stage) > 0
}

/// Claims of one question more.
pub proof fn lemma_appended_push<E>(asks: Seq<Ask<E>>, ask: Ask<E>)
    ensures
        appended_of(asks.push(ask)) == match ask {
            Ask::Append { claims } => appended_of(asks).push(claims),
            _ => appended_of(asks),
        },
{
    assert(asks.push(ask).drop_last() =~= asks);
}

/// What the root has put into the transcript of instance `i` before answer `k`.
spec fn run_claims<F: FieldEngine>(
    starts: Seq<LayerView<F>>,
    events: Seq<Seq<Event<F::ChallengeField>>>,
    i: int,
    k: nat,
) -> bool {
    let root = reached(starts[0], events[0], k);
    let inst = root.insts[i];
    let vals = inputs_of(starts, i);
    let told = appended_of(questions(starts[0].start().0, events[0], k));
    &&& has_shares(root.stage) ==> shares_sent(events[0], k)[i] == Seq::new(
        starts.len(),
        |p: int| share_at::<F>(vals[p], inst.rx, inst.r_simd_var),
    )
    &&& told.len() == claims_by(root.stage)
    &&& told.len() >= 1 ==> told[0][i] == inst.vx() && told[0][i] == value_at::<F>(
        vals,
        inst.rx,
        inst.r_simd_var,
        inst.r_mpi_var,
    )
    &&& told.len() == 2 ==> told[1][i] == value_at::<F>(
        vals,
        inst.ry,
        inst.r_simd_var,
        inst.r_mpi_var,
    )
    &&& root.stage matches StageView::VyAppend { vy } ==> told[1] == vy
    &&& root.stage matches StageView::Done { claim: Some(vy) } ==> told[1] == vy
}

/// What is known of each process of a joint run.
pub proof fn lemma_process_state<F: FieldEngine>(
    starts: Seq<LayerView<F>>,
    events: Seq<Seq<Event<F::ChallengeField>>>,
    i: int,
    k: nat,
    p: int,
)
    requires
        start_together(starts),
        is_joint_run(starts, events),
        hears_elements(starts, events),
        0 <= i < starts[0].insts.len(),
        k <= events[0].len(),
        0 <= p < starts.len(),
    ensures
        ({
            let (state, root) = (
                reached(starts[p], events[p], k),
                reached(starts[0], events[0], k),
            );
            let (inst, other) = (state.insts[i], root.insts[i]);
            &&& on_track(state, shares_sent(events[p], k))
            &&& inst_on_track(inst, state.stage, shares_sent(events[p], k)[i])
            &&& inst.wf()
            &&& inst.mpi_var_num == starts[0].mpi_var_num()
            &&& inst.layer == starts[p].insts[i].layer
            &&& inst.rx == other.rx
            &&& inst.ry == other.ry
            &&& inst.r_simd_var == other.r_simd_var
            &&& inst.r_mpi_var == other.r_mpi_var
        }),
{
    let layer = starts[p];
    let state = reached(starts[p], events[p], k);
    let root = reached(starts[0], events[0], k);
    lemma_pow2_pos(starts[0].mpi_var_num());
    assert(layer.uniform());
    assert(starts[0].uniform());
    assert(events[p].len() == events[0].len());
    assert(events[0].len() == events[0].len());
    lemma_start_wf(layer);
    assert forall|q: int| 0 <= q < layer.insts.len() implies all_valid(
        promoted::<F>((#[trigger] layer.insts[q]).layer.input_vals@),
        pow2(layer.input_var_num()),
    ) by {
        assert(holds_point(starts[p].insts[q]));
    }
    lemma_start_on_track(layer, Seq::empty());
    assert(layer.start().0.insts[0].mpi_var_num == layer.insts[0].mpi_var_num);
    assert forall|q: int| 0 <= q < events[p].len() implies shares_valid(
        #[trigger] events[p][q],
        pow2(layer.start().0.mpi_var_num()),
    ) by {}
    lemma_host_on_track(layer.start().0, events[p], k);
    lemma_run_in_step(starts, events, k, p);
    lemma_run_in_step(starts, events, k, 0);
    lemma_layers_kept(layer, events[p], k, i);
    lemma_drawn_alike(starts, events, k, p);
    lemma_after_heard(layer, events[p], k);
    lemma_after_heard(starts[0], events[0], k);
    lemma_counts(state, i);
    lemma_counts(root, i);
    assert(same_stage(state.stage, root.stage));
    lemma_same_counts(state, root);
    assert(state.insts[i].rx.len() == state.insts[0].rx.len());
    assert(root.insts[i].rx.len() == root.insts[0].rx.len());
    let d = drawn(events[0], k);
    assert(has_heard(state, d) && has_heard(root, d));
    let (a, b) = (state.insts[i], root.insts[i]);
    assert(a.rx == part_of(d, i, 0, a.rx.len()));
    assert(b.rx == part_of(d, i, 0, b.rx.len()));
    assert(a.wf());
}

proof fn lemma_same_counts<F: FieldEngine>(a: LayerView<F>, b: LayerView<F>)
    requires
        on_host(a, b),
        b.wf(),
        b.input_var_num() >= 1,
    ensures
        a.insts[0].rx.len() == b.insts[0].rx.len(),
        a.insts[0].ry.len() == b.insts[0].ry.len(),
        a.insts[0].r_simd_var.len() == b.insts[0].r_simd_var.len(),
        a.insts[0].r_mpi_var.len() == b.insts[0].r_mpi_var.len(),
{
}

/// The layers do not change in a run.
proof fn lemma_layers_kept<F: FieldEngine>(
    layer: LayerView<F>,
    events: Seq<Event<F::ChallengeField>>,
    k: nat,
    i: int,
)
    requires
        0 <= i < layer.insts.len(),
        layer.input_var_num() >= 1,
        !layer.gpu,
    ensures
        reached(layer, events, k).insts.len() == layer.insts.len(),
        reached(layer, events, k).insts[i].layer == layer.insts[i].layer,
        reached(layer, events, k).insts[i].mpi_var_num == layer.insts[i].mpi_var_num,
    decreases k,
{
    if k == 0 {
        let state = layer.prepared();
        assert(state.insts[i].layer == layer.insts[i].layer);
        assert(state.insts[0].layer == layer.insts[0].layer);
    } else {
        let m = (k - 1) as nat;
        lemma_layers_kept(layer, events, m, i);
        lemma_step_layers(reached(layer, events, m), events[m as int]);
        let (now, before) = (reached(layer, events, k), reached(layer, events, m));
        assert(now.insts[i].layer == before.insts[i].layer);
    }
}

/// The root's claims at a step of a joint run.
proof fn lemma_claims_step<F: FieldEngine>(
    starts: Seq<LayerView<F>>,
    events: Seq<Seq<Event<F::ChallengeField>>>,
    i: int,
    m: nat,
)
    requires
        start_together(starts),
        is_joint_run(starts, events),
        hears_elements(starts, events),
        0 <= i < starts[0].insts.len(),
        m < events[0].len(),
        run_claims(starts, events, i, m),
    ensures
        run_claims(starts, events, i, m + 1),
{
    let k = m + 1;
    let root = reached(starts[0], events[0], m);
    let event = events[0][m as int];
    let (next, ask) = root.step(event);
    let vals = inputs_of(starts, i);
    let world = starts[0].mpi_var_num();
    let (shares, then) = (shares_sent(events[0], m), shares_sent(events[0], k));
    let start = starts[0].start().0;
    lemma_pow2_pos(world);
    assert(events[0].len() == events[0].len());
    assert(root.expects(event));
    assert(next == reached(starts[0], events[0], k));
    lemma_process_state(starts, events, i, m, 0);
    lemma_process_state(starts, events, i, k, 0);
    lemma_run_in_step(starts, events, m, 0);
    lemma_run_in_step(starts, events, k, 0);
    lemma_appended_push(questions(start, events[0], m), ask);
    lemma_step_notes(root, event, i);
    let asks = asks_at(starts, events, m);
    let answers = answers_at(events, m);
    assert(is_joint_answer(asks, answers));
    let inst = root.insts[i];
    let after = next.insts[i];
    match root.stage {
        StageView::Gather => {
            let v = then[i];
            let want = Seq::new(
                starts.len(),
                |p: int| share_at::<F>(vals[p], after.rx, after.r_simd_var),
            );
            assert forall|p: int| 0 <= p < starts.len() implies #[trigger] v[p] == want[p] by {
                lemma_process_state(starts, events, i, m, p);
                lemma_run_in_step(starts, events, m, p);
                let state = reached(starts[p], events[p], m);
                assert(asks[p]->v[i] == state.insts[i].v_share());
            }
            assert(v =~= want);
            if next.stage is VxAppend {
                assert(after.vx() == dot(eq_table(after.r_mpi_var), v, pow2(world)));
            }
        },
        StageView::MpiChallenge { .. } => {
            assert(then == shares);
            if next.stage is VxAppend {
                assert(after.vx() == dot(eq_table(after.r_mpi_var), shares[i], pow2(world)));
            }
        },
        StageView::VyCombine => {
            let parts = Seq::new(asks.len(), |p: int| asks[p]->values[i]);
            let weights = eq_table(inst.r_mpi_var);
            let want = Seq::new(
                starts.len(),
                |p: int| share_at::<F>(vals[p], inst.ry, inst.r_simd_var),
            );
            assert forall|p: int| 0 <= p < starts.len() implies #[trigger] column(parts, 0)[p]
                == want[p] by {
                lemma_process_state(starts, events, i, m, p);
                lemma_run_in_step(starts, events, m, p);
                let state = reached(starts[p], events[p], m);
                assert(asks[p]->values[i] == seq![state.insts[i].vy_share()]);
                assert(parts[p][0] == state.insts[i].vy_share());
            }
            assert(column(parts, 0) =~= want);
            assert(asks[0]->coefs[i] == weights);
            assert(asks[0]->values[i].len() == 1);
            assert(event->Combined_values[i] == absorbed(weights, parts, 1));
            assert(event->Combined_values[i][0] == weighted(weights, want));
            lemma_dot_commutes(want, weights, starts.len());
        },
        _ => {},
    }
}

proof fn lemma_claims_run<F: FieldEngine>(
    starts: Seq<LayerView<F>>,
    events: Seq<Seq<Event<F::ChallengeField>>>,
    i: int,
    k: nat,
)
    requires
        start_together(starts),
        is_joint_run(starts, events),
        hears_elements(starts, events),
        0 <= i < starts[0].insts.len(),
        k <= events[0].len(),
    ensures
        run_claims(starts, events, i, k),
    decreases k,
{
    if k > 0 {
        lemma_claims_run(starts, events, i, (k - 1) as nat);
        lemma_claims_step(starts, events, i, (k - 1) as nat);
    } else {
        lemma_pow2_pos(starts[0].mpi_var_num());
        let layer = starts[0];
        assert(layer.uniform());
        assert(layer.prepared().insts[0].layer == layer.insts[0].layer);
    }
}

/// The first claim is the value that the first phase leaves of the wires.
pub proof fn lemma_told_first<F: FieldEngine>(
    starts: Seq<LayerView<F>>,
    events: Seq<Seq<Event<F::ChallengeField>>>,
    i: int,
    k: nat,
)
    requires
        start_together(starts),
        is_joint_run(starts, events),
        hears_elements(starts, events),
        0 <= i < starts[0].insts.len(),
        k <= events[0].len(),
    ensures
        ({
            let told = appended_of(questions(starts[0].start().0, events[0], k));
            let phase = first_phase(starts, drawn(events[0], events[0].len()), i);
            told.len() >= 1 ==> told[0][i] == phase.at_process(starts[0].mpi_var_num()).vx()
        }),
    decreases k,
{
    if k > 0 {
        let m = (k - 1) as nat;
        let start = starts[0].start().0;
        let root = reached(starts[0], events[0], m);
        let event = events[0][m as int];
        let (next, ask) = root.step(event);
        lemma_pow2_pos(starts[0].mpi_var_num());
        lemma_told_first(starts, events, i, m);
        lemma_claims_run(starts, events, i, m);
        lemma_claims_run(starts, events, i, k);
        lemma_run_in_step(starts, events, m, 0);
        assert(events[0].len() == events[0].len());
        assert(root.expects(event));
        assert(next == reached(starts[0], events[0], k));
        lemma_appended_push(questions(start, events[0], m), ask);
        if next.stage is VxAppend {
            lemma_first_done(starts, events, i, k);
        }
    }
}

/// What went into the transcript of instance `i` as claims, when `d` has been drawn: once the
/// rounds of the first phase are over the value of the layer's inputs at the challenges of its
/// wire, lane and process rounds, and once those of the second phase are over the value at theirs.
pub open spec fn tells_inputs<F: FieldEngine>(
    starts: Seq<LayerView<F>>,
    d: Seq<Seq<F::ChallengeField>>,
    told: Seq<Seq<F::ChallengeField>>,
    i: int,
) -> bool {
    let n = starts[0].input_var_num();
    let l = starts[0].simd_var_num();
    let w = starts[0].mpi_var_num();
    let vals = inputs_of(starts, i);
    let r_simd = part_of(d, i, n as int, l);
    let r_mpi = part_of(d, i, (n + l) as int, w);
    &&& told.len() >= 1 ==> d.len() >= n + l + w && told[0][i] == value_at::<F>(
        vals,
        part_of(d, i, 0, n),
        r_simd,
        r_mpi,
    )
    &&& told.len() >= 2 ==> d.len() == n + l + w + n && told[1][i] == value_at::<F>(
        vals,
        part_of(d, i, (n + l + w) as int, n),
        r_simd,
        r_mpi,
    )
    &&& d.len() > n + l + w ==> told.len() >= 1
    &&& told.len() <= if starts[0].skips_phase_two() {
        1nat
    } else {
        2nat
    }
}

/// A layer that is done has told its claims, and they are those that it returns.
pub open spec fn returns_told<F: FieldEngine>(
    layer: LayerView<F>,
    told: Seq<Seq<F::ChallengeField>>,
    i: int,
) -> bool {
    layer.stage is Done ==> if layer.skips_phase_two() {
        told.len() == 1 && layer.claims()[i] == (told[0][i], None::<F::ChallengeField>)
    } else {
        told.len() == 2 && layer.claims()[i] == (told[0][i], Some(told[1][i]))
    }
}

/// The claims that the root puts into the transcripts, in a run that the processes of a layer make
/// together, are the values of the layer's inputs at the challenges that were drawn; they are the
/// claims that the layer returns.
pub proof fn lemma_run_tells<F: FieldEngine>(
    starts: Seq<LayerView<F>>,
    events: Seq<Seq<Event<F::ChallengeField>>>,
    i: int,
)
    requires
        start_together(starts),
        is_joint_run(starts, events),
        hears_elements(starts, events),
        0 <= i < starts[0].insts.len(),
    ensures
        ({
            let n = events[0].len();
            let told = appended_of(questions(starts[0].start().0, events[0], n));
            &&& tells_inputs(starts, drawn(events[0], n), told, i)
            &&& told.len() == claims_by(reached(starts[0], events[0], n).stage)
            &&& returns_told(reached(starts[0], events[0], n), told, i)
        }),
{
    let k = events[0].len();
    let root = reached(starts[0], events[0], k);
    let d = drawn(events[0], k);
    lemma_pow2_pos(starts[0].mpi_var_num());
    assert(starts[0].uniform());
    assert(events[0].len() == events[0].len());
    lemma_claims_run(starts, events, i, k);
    lemma_run_in_step(starts, events, k, 0);
    lemma_after_heard(starts[0], events[0], k);
    lemma_counts(root, i);
    let inst = root.insts[i];
    assert(inst.rx == part_of(d, i, 0, inst.rx.len()));
    assert(root.insts[0].rx.len() == root.insts[0].rx.len());
}

/// The same holds of a root that uses a GPU, as long as the GPU does its work or says that it has
/// not.
pub proof fn lemma_gpu_run_tells<F: FieldEngine>(
    starts: Seq<LayerView<F>>,
    events: Seq<Seq<Event<F::ChallengeField>>>,
    i: int,
)
    requires
        start_together(starts),
        events.len() == starts.len(),
        all_expected(starts[0].start().0, events[0]),
        all_faithful(starts[0].start().0, events[0]),
        is_joint_run(
            starts,
            Seq::new(starts.len(), |p: int| host_events(events[p], events[p].len())),
        ),
        hears_elements(
            starts,
            Seq::new(starts.len(), |p: int| host_events(events[p], events[p].len())),
        ),
        0 <= i < starts[0].insts.len(),
    ensures
        ({
            let n = events[0].len();
            let told = appended_of(questions(starts[0].start().0, events[0], n));
            &&& tells_inputs(starts, drawn(events[0], n), told, i)
            &&& returns_told(reached(starts[0], events[0], n), told, i)
        }),
{
    let n = events[0].len();
    let hosts = Seq::new(starts.len(), |p: int| host_events(events[p], events[p].len()));
    let root = starts[0];
    lemma_pow2_pos(root.mpi_var_num());
    assert(root.uniform());
    assert forall|k: int| 0 <= k < root.insts.len() implies all_valid(
        promoted::<F>((#[trigger] root.insts[k]).layer.input_vals@),
        pow2(root.input_var_num()),
    ) by {
        assert(holds_point(starts[0].insts[k]));
    }
    lemma_gpu_run(root, events[0]);
    lemma_drawn_on_host(events[0], n);
    lemma_run_tells(starts, hosts, i);
    let h = after(root.start().0, hosts[0], hosts[0].len());
    let g = after(root.start().0, events[0], n);
    lemma_appended_push(questions(root.start().0, events[0], n), pending(h));
    if g.stage is Done {
        lemma_after_heard(root, events[0], n);
        lemma_after_heard(root, hosts[0], hosts[0].len());
    }
}

} // verus!
