//! The GPU is not noticed: whether it works or fails, what is asked and what is claimed are the
//! same as on the host.

use vstd::arithmetic::power2::*;
use vstd::prelude::*;

use crate::agreement::{
    agree, alike, in_use, lemma_agree_results, lemma_local_same, lemma_pair_sums_same,
    lemma_start_round_agree, lemma_step_agree, lemma_weights_same, phase_use,
};
use crate::claims::{
    inst_on_track, lemma_start_on_track, lemma_step_on_track, on_track, shares_after,
    shares_valid, stays_on_host,
};
use crate::engine::{FieldEngine, FieldType};
use crate::extension::{bound, broadcasts, lemma_bound_len, lemma_bound_same, promoted};
use crate::field::Field;
use crate::gates::{is_ready, lemma_phase_ready, lemma_round_chain};
use crate::instance::{component_words, table_words, with_front, InstView};
use crate::lockstep::{after, all_expected};
use crate::product_gate::{pair_sums, round_source};
use crate::protocol::{
    lemma_folded, lemma_large_round, lemma_recovered, lemma_shape_kept, lemma_start_wf,
    lemma_step_layers, lemma_step_wf, Ask, Event, LayerView, StageView,
};
use crate::rounds::{all_valid, lemma_flags_spare_work, lemma_fold_covers};
use crate::transfer::{lemma_gpu_values, lemma_table_round_trip};

verus! {

// ---------------------------------------------------------------------------
// What the GPU owes
// ---------------------------------------------------------------------------

/// The results are the words of the sums over all pairs of the tables of round `var`.
pub open spec fn results_faithful<F: FieldEngine>(
    inst: InstView<F>,
    var: nat,
    lanes: [[u32; 9]; 16],
) -> bool {
    let n = inst.eval_size(var);
    let sums = pair_sums(
        round_source::<F>(var, inst.pad.v_evals, inst.layer.input_vals@),
        inst.pad.hg_evals,
        Seq::new(2 * n, |i: int| true),
        n,
    );
    &&& component_words(lanes, 16, 0) == F::field_words(sums.0)
    &&& component_words(lanes, 16, 1) == F::field_words(sums.1)
    &&& component_words(lanes, 16, 2) == F::field_words(sums.2)
}

/// The GPU has done its work, or says that it has not: an evaluation is that of the tables with
/// the phase's challenges bound, and tables that come back are these tables.
pub open spec fn is_faithful<F: FieldEngine>(
    layer: LayerView<F>,
    event: Event<F::ChallengeField>,
) -> bool {
    match (layer.stage, event) {
        (
            StageView::GpuEval { first, var },
            Event::Evaluated { results: Some(results) },
        ) => forall|i: int|
            0 <= i < layer.insts.len() ==> results_faithful(
                (#[trigger] layer.insts[i]).recovered(first, var),
                var,
                results[i],
            ),
        (StageView::GpuDownload { first, var }, Event::Downloaded { tables }) => forall|i: int|
            0 <= i < layer.insts.len() ==> {
                let own = (#[trigger] layer.insts[i]).recovered(first, var).pad;
                let size = pow2((layer.input_var_num() - var) as nat);
                &&& tables[2 * i] is Some ==> tables[2 * i]->0 == table_words::<F>(
                    own.v_evals,
                    size,
                )
                &&& tables[2 * i + 1] is Some ==> tables[2 * i + 1]->0 == table_words::<F>(
                    own.hg_evals,
                    size,
                )
            },
        _ => true,
    }
}

/// The GPU gives the answer.
pub open spec fn from_gpu<E>(event: Event<E>) -> bool {
    match event {
        Event::Evaluated { .. } => true,
        Event::Downloaded { .. } => true,
        Event::Released => true,
        Event::Received { .. } => true,
        _ => false,
    }
}

/// The answer where there is no GPU.
pub open spec fn without_gpu<E>(event: Event<E>) -> Event<E> {
    match event {
        Event::SetUp { .. } => Event::SetUp { ready: false },
        _ => event,
    }
}

/// The question goes to the GPU.
pub open spec fn to_gpu<E>(ask: Ask<E>) -> bool {
    match ask {
        Ask::SetUp { .. } => true,
        Ask::Evaluate { .. } => true,
        Ask::Download { .. } => true,
        Ask::Release => true,
        Ask::Receive { .. } => true,
        _ => false,
    }
}

/// The layer waits for a GPU context that is ready.
pub open spec fn waits_for_gpu<F: FieldEngine>(layer: LayerView<F>) -> bool {
    layer.stage is GpuEval || layer.stage is GpuDownload || layer.stage is GpuRelease
        || layer.stage is GpuReceive
}

// ---------------------------------------------------------------------------
// A run with a GPU and one without
// ---------------------------------------------------------------------------

/// Before round `var` of a phase, an instance whose tables are on the GPU would have the tables of
/// an instance on the host, and all else that is in use is the same.
pub open spec fn shadows<F: FieldEngine>(
    a: InstView<F>,
    b: InstView<F>,
    first: bool,
    var: nat,
) -> bool {
    alike(a.recovered(first, var), b, phase_use(b, false, first, var))
}

/// All instances of a layer on the GPU shadow those of a layer on the host, which has its
/// question of round `var` out.
pub open spec fn all_shadow<F: FieldEngine>(
    g: LayerView<F>,
    h: LayerView<F>,
    first: bool,
    var: nat,
) -> bool {
    forall|i: int| 0 <= i < h.insts.len() ==> shadows(#[trigger] g.insts[i], h.insts[i], first, var)
}

/// A layer that may use a GPU and one that does not stand at the same point.
pub open spec fn mirrors<F: FieldEngine>(g: LayerView<F>, h: LayerView<F>) -> bool {
    &&& !h.gpu
    &&& g.insts.len() == h.insts.len()
    &&& match g.stage {
        StageView::GpuEval { first, var } | StageView::GpuDownload { first, var } => {
            &&& h.stage == (StageView::<F::ChallengeField>::Combine { first, var })
            &&& all_shadow(g, h, first, var)
        },
        StageView::GpuRelease { first, var } => {
            &&& h.stage == (StageView::<F::ChallengeField>::Combine { first, var })
            &&& forall|i: int|
                0 <= i < h.insts.len() ==> alike(
                    #[trigger] g.insts[i],
                    h.insts[i],
                    phase_use(h.insts[i], false, first, var),
                )
        },
        StageView::GpuReceive { first, var, r } => {
            &&& h.stage == (StageView::<F::ChallengeField>::Combine { first, var: var + 1 })
            &&& all_shadow(g.folded_on_gpu(first, var, r), h, first, var + 1)
        },
        StageView::Combine { first, var } | StageView::Challenge { first, var } => if g.gpu {
            &&& h.stage == g.stage
            &&& all_shadow(g, h, first, var)
        } else {
            agree(g, h)
        },
        _ => agree(g, h),
    }
}

/// The question that a layer on the host has out while it is combining shares.
pub open spec fn pending<F: FieldEngine>(h: LayerView<F>) -> Ask<F::ChallengeField> {
    match h.stage {
        StageView::Combine { first, var } => h.host_round(first, var).1,
        _ => Ask::Finished,
    }
}

/// The tables of a layer on the host are ready for the round in hand.
pub open spec fn tables_ready<F: FieldEngine>(h: LayerView<F>) -> bool {
    forall|i: int|
        0 <= i < h.insts.len() ==> {
            let inst = #[trigger] h.insts[i];
            &&& all_valid(promoted::<F>(inst.layer.input_vals@), pow2(inst.input_var_num()))
            &&& match h.stage {
                StageView::GpuSetup { .. } => is_ready(inst, 0),
                StageView::Combine { var, .. } => is_ready(inst, var),
                StageView::Challenge { var, .. } => is_ready(inst, var),
                _ => true,
            }
        }
}

/// A round starts with tables that are ready.
proof fn lemma_start_round_ready<F: FieldEngine>(h: LayerView<F>, first: bool, var: nat)
    requires
        !h.gpu,
        forall|i: int|
            0 <= i < h.insts.len() ==> {
                let inst = #[trigger] h.insts[i];
                &&& all_valid(promoted::<F>(inst.layer.input_vals@), pow2(inst.input_var_num()))
                &&& is_ready(inst, var)
            },
    ensures
        tables_ready(h.start_round(first, var).0),
        !h.start_round(first, var).0.gpu,
{
    let next = h.start_round(first, var).0;
    assert forall|i: int| 0 <= i < next.insts.len() implies (#[trigger] next.insts[i]).layer
        == h.insts[i].layer by {}
    if var < h.input_var_num() {
        assert(next.insts == h.insts);
    } else if !first {
        assert(next.insts == h.insts);
    }
}

/// A step on the host keeps the tables ready.
pub proof fn lemma_step_ready<F: FieldEngine>(h: LayerView<F>, event: Event<F::ChallengeField>)
    requires
        h.wf(),
        !h.gpu,
        tables_ready(h),
        h.expects(event),
        stays_on_host(event),
    ensures
        tables_ready(h.step(event).0),
        !h.step(event).0.gpu,
{
    let next = h.step(event).0;
    assert(forall|i: int|
        0 <= i < h.insts.len() ==> (#[trigger] h.insts[i]).wf() && h.insts[i].input_var_num()
            == h.input_var_num());
    lemma_step_layers(h, event);
    match (h.stage, event) {
        (StageView::GpuSetup { first }, Event::SetUp { ready }) => {
            lemma_start_round_ready(h.on_gpu(false), first, 0);
        },
        (StageView::Challenge { first, var }, Event::Challenged { r }) => {
            let state = h.folded_on_host(first, var, r);
            assert forall|i: int| 0 <= i < state.insts.len() implies {
                let inst = #[trigger] state.insts[i];
                &&& all_valid(promoted::<F>(inst.layer.input_vals@), pow2(inst.input_var_num()))
                &&& is_ready(inst, var + 1)
            } by {
                lemma_round_chain(h.insts[i], var, r[i]);
            }
            lemma_start_round_ready(state, first, var + 1);
        },
        (StageView::Broadcast, Event::Broadcasted { roots }) => {
            let state = h.y_prepared(roots);
            assert forall|i: int| 0 <= i < state.insts.len() implies {
                let inst = #[trigger] state.insts[i];
                &&& all_valid(promoted::<F>(inst.layer.input_vals@), pow2(inst.input_var_num()))
                &&& is_ready(inst, 0)
            } by {
                lemma_phase_ready(h.insts[i], roots[i]);
            }
            if !state.wants_gpu() {
                lemma_start_round_ready(state, false, 0);
            } else {
                assert(next.insts == state.insts);
            }
        },
        _ => {
            assert forall|i: int| 0 <= i < next.insts.len() implies (#[trigger] next.insts[i]).layer
                == h.insts[i].layer by {}
        },
    }
}

/// A layer starts with tables that are ready.
pub proof fn lemma_start_ready<F: FieldEngine>(layer: LayerView<F>)
    requires
        layer.uniform(),
        !layer.gpu,
        forall|i: int|
            0 <= i < layer.insts.len() ==> all_valid(
                promoted::<F>((#[trigger] layer.insts[i]).layer.input_vals@),
                pow2(layer.input_var_num()),
            ),
    ensures
        tables_ready(layer.start().0),
        !layer.start().0.gpu,
{
    let state = layer.prepared();
    assert forall|i: int| 0 <= i < state.insts.len() implies {
        let inst = #[trigger] state.insts[i];
        &&& all_valid(promoted::<F>(inst.layer.input_vals@), pow2(inst.input_var_num()))
        &&& is_ready(inst, 0)
    } by {
        let inst = layer.insts[i];
        assert(inst.wf());
        assert(inst.input_var_num() == layer.input_var_num());
        F::law_pack_size();
        let prepared = inst.simd_prepared().mpi_prepared();
        assert(prepared.wf());
        lemma_phase_ready(prepared, F::ChallengeField::zero_spec());
    }
    if !state.wants_gpu() {
        lemma_start_round_ready(state, true, 0);
    } else {
        assert(layer.start().0.insts == state.insts);
    }
}

/// A fold on the GPU follows one on the host.
proof fn lemma_shadow_folds<F: FieldEngine>(
    a: InstView<F>,
    b: InstView<F>,
    first: bool,
    var: nat,
    r: F::ChallengeField,
)
    requires
        a.wf(),
        b.wf(),
        var < b.input_var_num(),
        a.phase_challenges(first).len() == var,
        shadows(a, b, first, var),
        is_ready(b, var),
    ensures
        shadows(
            a.flags_folded(var).noted(first, r),
            b.host_folded(var, r).noted(first, r),
            first,
            var + 1,
        ),
{
    let n = b.input_var_num();
    let size = b.eval_size(var);
    lemma_pow2_unfold((n - var) as nat);
    if var > 0 {
        lemma_pow2_strictly_increases((n - var) as nat, n);
    }
    let rs = broadcasts::<F>(a.phase_challenges(first));
    let qs = broadcasts::<F>(a.phase_challenges(first).push(r));
    let e = F::broadcast_spec(r);
    assert forall|k: int| 0 <= k < var implies #[trigger] rs[k] == qs[k] by {}
    assert(qs[var as int] == e);
    let wires = with_front(a.pad.v_evals, promoted::<F>(a.layer.input_vals@));
    lemma_bound_same(wires, rs, qs, n, var);
    lemma_bound_same(a.pad.hg_evals, rs, qs, n, var);
    lemma_bound_len(wires, rs, n, var);
    lemma_bound_len(a.pad.hg_evals, rs, n, var);
    let x = a.flags_folded(var).noted(first, r).recovered(first, var + 1);
    let y = b.host_folded(var, r).noted(first, r);
    let (old_x, old_y) = (a.recovered(first, var), b);
    lemma_fold_covers(b.pad.hg_evals, b.pad.gate_exists, size, e);
    assert(x.pad.v_evals == bound(wires, qs, n, var + 1));
    assert(x.pad.hg_evals == bound(a.pad.hg_evals, qs, n, var + 1));
    assert forall|j: int| 0 <= j < size implies #[trigger] x.pad.v_evals[j]
        == y.pad.v_evals[j] by {
        if var > 0 {
            assert(old_x.pad.v_evals[2 * j] == old_y.pad.v_evals[2 * j]);
            assert(old_x.pad.v_evals[2 * j + 1] == old_y.pad.v_evals[2 * j + 1]);
        }
    }
    assert forall|j: int| 0 <= j < size implies #[trigger] x.pad.hg_evals[j]
        == y.pad.hg_evals[j] by {
        assert(old_x.pad.hg_evals[2 * j] == old_y.pad.hg_evals[2 * j]);
        assert(old_x.pad.hg_evals[2 * j + 1] == old_y.pad.hg_evals[2 * j + 1]);
    }
    assert forall|j: int| 0 <= j < size implies #[trigger] x.pad.gate_exists[j]
        == y.pad.gate_exists[j] by {
        assert(old_x.pad.gate_exists[2 * j] == old_y.pad.gate_exists[2 * j]);
        assert(old_x.pad.gate_exists[2 * j + 1] == old_y.pad.gate_exists[2 * j + 1]);
    }
}

proof fn lemma_pair_sums_valid<E: Field>(f: Seq<E>, h: Seq<E>, gates: Seq<bool>, n: nat)
    ensures
        pair_sums(f, h, gates, n).0.valid(),
        pair_sums(f, h, gates, n).1.valid(),
        pair_sums(f, h, gates, n).2.valid(),
    decreases n,
{
    let zero = E::zero_spec();
    E::law_closed(zero, zero);
    if n > 0 {
        let i = n - 1;
        lemma_pair_sums_valid(f, h, gates, i as nat);
        let (s0, s1, s2) = pair_sums(f, h, gates, i as nat);
        let (f0, f1) = (f[2 * i], f[2 * i + 1]);
        let (h0, h1) = (h[2 * i], h[2 * i + 1]);
        E::law_closed(s0, f0.times_spec(h0));
        E::law_closed(s1, f1.times_spec(h1));
        E::law_closed(s2, f0.plus_spec(f1).times_spec(h0.plus_spec(h1)));
    }
}

/// An evaluation on the GPU gives what one on the host gives.
proof fn lemma_shadow_values<F: FieldEngine>(
    a: InstView<F>,
    b: InstView<F>,
    first: bool,
    var: nat,
    lanes: [[u32; 9]; 16],
)
    requires
        F::field_type_spec() == FieldType::M31x16,
        a.wf(),
        b.wf(),
        var < b.input_var_num(),
        shadows(a, b, first, var),
        is_ready(b, var),
        results_faithful(a.recovered(first, var), var, lanes),
    ensures
        a.local(InstView::<F>::gpu_values(lanes)) == b.local(b.host_values(var)),
        a.process_weights() == b.process_weights(),
{
    let n = b.eval_size(var);
    let own = a.recovered(first, var);
    lemma_pow2_unfold((b.input_var_num() - var) as nat);
    F::law_pack_size();
    let all = Seq::new(2 * n, |i: int| true);
    let f = round_source::<F>(var, b.pad.v_evals, b.layer.input_vals@);
    let own_f = round_source::<F>(var, own.pad.v_evals, own.layer.input_vals@);
    lemma_pair_sums_same(own_f, own.pad.hg_evals, all, f, b.pad.hg_evals, all, n);
    lemma_flags_spare_work(f, b.pad.hg_evals, b.pad.gate_exists, n);
    let sums = pair_sums(f, b.pad.hg_evals, b.pad.gate_exists, n);
    lemma_pair_sums_valid(f, b.pad.hg_evals, b.pad.gate_exists, n);
    lemma_gpu_values::<F>(lanes, sums);
    lemma_local_same(a, b, b.host_values(var));
    lemma_weights_same(a, b);
}

/// Tables that come back from the GPU, or are made by the host, are those of the host.
proof fn lemma_shadow_fetched<F: FieldEngine>(
    a: InstView<F>,
    b: InstView<F>,
    first: bool,
    var: nat,
    wires: Option<Seq<u32>>,
    coefs: Option<Seq<u32>>,
)
    requires
        F::field_type_spec() == FieldType::M31x16,
        a.wf(),
        b.wf(),
        var < b.input_var_num(),
        shadows(a, b, first, var),
        is_ready(b, var),
        wires is Some ==> wires->0 == table_words::<F>(
            a.recovered(first, var).pad.v_evals,
            pow2((b.input_var_num() - var) as nat),
        ),
        coefs is Some ==> coefs->0 == table_words::<F>(
            a.recovered(first, var).pad.hg_evals,
            pow2((b.input_var_num() - var) as nat),
        ),
    ensures
        alike(
            a.fetched(first, var, wires, coefs),
            b,
            phase_use(b, false, first, var),
        ),
{
    let n = b.input_var_num();
    let size = pow2((n - var) as nat);
    let own = a.recovered(first, var).pad;
    lemma_pow2_unfold((n - var) as nat);
    if var > 0 {
        lemma_pow2_strictly_increases((n - var) as nat, n);
    }
    if wires is Some && coefs is Some {
        let back = a.fetched(first, var, wires, coefs).pad;
        if var > 0 {
            assert forall|j: int| 0 <= j < size implies (#[trigger] own.v_evals[j]).valid() by {
                assert(own.v_evals[j] == b.pad.v_evals[j]);
            }
            lemma_table_round_trip::<F>(a.pad.v_evals, own.v_evals, size);
            assert forall|j: int| 0 <= j < size implies #[trigger] back.v_evals[j]
                == b.pad.v_evals[j] by {
                assert(own.v_evals[j] == b.pad.v_evals[j]);
            }
        }
        assert forall|j: int| 0 <= j < size implies (#[trigger] own.hg_evals[j]).valid() by {
            assert(own.hg_evals[j] == b.pad.hg_evals[j]);
        }
        lemma_table_round_trip::<F>(a.pad.hg_evals, own.hg_evals, size);
        assert forall|j: int| 0 <= j < size implies #[trigger] back.hg_evals[j]
            == b.pad.hg_evals[j] by {
            assert(own.hg_evals[j] == b.pad.hg_evals[j]);
        }
    }
}

/// An answer of the GPU leaves a layer where the layer on the host stands. What it asks then is
/// what the other has asked, or goes to the GPU again.
pub proof fn lemma_gpu_step_mirrors<F: FieldEngine>(
    g: LayerView<F>,
    h: LayerView<F>,
    event: Event<F::ChallengeField>,
)
    requires
        g.wf(),
        h.wf(),
        h.input_var_num() >= 1,
        mirrors(g, h),
        tables_ready(h),
        g.expects(event),
        is_faithful(g, event),
        from_gpu(event),
    ensures
        waits_for_gpu(g),
        h.stage is Combine,
        mirrors(g.step(event).0, h),
        if waits_for_gpu(g.step(event).0) {
            to_gpu(g.step(event).1)
        } else {
            g.step(event).1 == pending(h) && !to_gpu(pending(h))
        },
{
    let (gs, ga) = g.step(event);
    let n = h.input_var_num();
    F::law_pack_size();
    assert(forall|i: int|
        0 <= i < h.insts.len() ==> (#[trigger] h.insts[i]).wf() && h.insts[i].input_var_num() == n);
    assert(forall|i: int|
        0 <= i < g.insts.len() ==> (#[trigger] g.insts[i]).wf() && g.insts[i].input_var_num()
            == g.input_var_num());
    match (g.stage, event) {
        (StageView::GpuEval { first, var }, Event::Evaluated { results }) => {
            assert(shadows(g.insts[0], h.insts[0], first, var));
            if results is Some {
                let ha = h.host_round(first, var).1;
                let results = results->0;
                assert forall|i: int| 0 <= i < g.insts.len() implies {
                    &&& (#[trigger] g.insts[i]).local(InstView::<F>::gpu_values(results[i]))
                        == h.insts[i].local(h.insts[i].host_values(var))
                    &&& g.insts[i].process_weights() == h.insts[i].process_weights()
                } by {
                    assert(is_ready(h.insts[i], var));
                    lemma_shadow_values(g.insts[i], h.insts[i], first, var, results[i]);
                }
                assert(ga->values =~= ha->values);
                assert(ga->coefs =~= ha->coefs);
            } else {
                let gn = g.recovered(first, var).on_gpu(false);
                lemma_recovered(g, first, var, Seq::empty());
                lemma_shape_kept(g, gn);
                assert forall|i: int| 0 <= i < gn.insts.len() implies alike(
                    #[trigger] gn.insts[i],
                    h.insts[i],
                    phase_use(h.insts[i], false, first, var),
                ) by {
                    assert(shadows(g.insts[i], h.insts[i], first, var));
                }
                lemma_start_round_agree(gn, h, first, var);
                assert(gn.host_round(first, var).1 == ga);
            }
        },
        (StageView::GpuDownload { first, var }, Event::Downloaded { tables }) => {
            assert(shadows(g.insts[0], h.insts[0], first, var));
            assert forall|i: int| 0 <= i < h.insts.len() implies alike(
                #[trigger] gs.insts[i],
                h.insts[i],
                phase_use(h.insts[i], false, first, var),
            ) by {
                assert(shadows(g.insts[i], h.insts[i], first, var));
                assert(is_ready(h.insts[i], var));
                lemma_shadow_fetched(
                    g.insts[i],
                    h.insts[i],
                    first,
                    var,
                    tables[2 * i],
                    tables[2 * i + 1],
                );
            }
        },
        (StageView::GpuRelease { first, var }, Event::Released) => {
            let gn = g.on_gpu(false);
            lemma_shape_kept(g, gn);
            assert forall|i: int| 0 <= i < gn.insts.len() implies alike(
                #[trigger] gn.insts[i],
                h.insts[i],
                phase_use(h.insts[i], false, first, var),
            ) by {}
            lemma_start_round_agree(gn, h, first, var);
            assert(alike(gn.insts[0], h.insts[0], phase_use(h.insts[0], false, first, var)));
            assert(h.start_round(first, var).0 == h);
        },
        (StageView::GpuReceive { first, var, r }, Event::Received { folded }) => {
            let gn = g.folded_on_gpu(first, var, r);
            lemma_large_round(g, var);
            lemma_folded(g, first, var, r);
            lemma_shape_kept(g, gn);
            if !folded {
                assert forall|i: int| 0 <= i < h.insts.len() implies alike(
                    #[trigger] gs.insts[i],
                    h.insts[i],
                    phase_use(h.insts[i], false, first, var + 1),
                ) by {
                    assert(shadows(gn.insts[i], h.insts[i], first, var + 1));
                }
            } else {
                assert(gs.insts == gn.insts);
                assert forall|i: int| 0 <= i < h.insts.len() implies shadows(
                    #[trigger] gs.insts[i],
                    h.insts[i],
                    first,
                    var + 1,
                ) by {
                    assert(shadows(gn.insts[i], h.insts[i], first, var + 1));
                }
            }
        },
        _ => {},
    }
}

/// Any other answer takes both layers on alike. What is asked then is the same, or goes to the
/// GPU while the layer on the host asks what the other will ask after.
pub proof fn lemma_step_mirrors<F: FieldEngine>(
    g: LayerView<F>,
    h: LayerView<F>,
    event: Event<F::ChallengeField>,
)
    requires
        g.wf(),
        h.wf(),
        h.input_var_num() >= 1,
        mirrors(g, h),
        tables_ready(h),
        g.expects(event),
        !from_gpu(event),
    ensures
        !waits_for_gpu(g),
        h.expects(without_gpu(event)),
        ({
            let (gs, ga) = g.step(event);
            let (hs, ha) = h.step(without_gpu(event));
            &&& mirrors(gs, hs)
            &&& if waits_for_gpu(gs) {
                to_gpu(ga) && ha == pending(hs) && !to_gpu(ha)
            } else {
                ga == ha
            }
        }),
{
    let (gs, ga) = g.step(event);
    let e = without_gpu(event);
    let (hs, ha) = h.step(e);
    let n = h.input_var_num();
    assert(forall|i: int|
        0 <= i < h.insts.len() ==> (#[trigger] h.insts[i]).wf() && h.insts[i].input_var_num() == n);
    assert(forall|i: int|
        0 <= i < g.insts.len() ==> (#[trigger] g.insts[i]).wf() && g.insts[i].input_var_num()
            == g.input_var_num());
    match (g.stage, event) {
        (StageView::GpuSetup { first }, Event::SetUp { ready }) => {
            if ready {
                assert(alike(g.insts[0], h.insts[0], in_use(h.insts[0], h.gpu, h.stage)));
                assert forall|i: int| 0 <= i < hs.insts.len() implies shadows(
                    #[trigger] gs.insts[i],
                    hs.insts[i],
                    first,
                    0,
                ) by {
                    assert(alike(g.insts[i], h.insts[i], in_use(h.insts[i], h.gpu, h.stage)));
                }
                assert(ha == h.on_gpu(false).host_round(first, 0).1);
                assert(ha == hs.host_round(first, 0).1);
            } else {
                lemma_step_agree(g, h, event);
                lemma_step_ready(h, e);
            }
        },
        (StageView::Combine { first, var }, Event::Combined { values }) => {
            if g.gpu {
                assert forall|i: int| 0 <= i < g.insts.len() implies (#[trigger] g.insts[i]).scaled(
                    values[i],
                ) == h.insts[i].scaled(values[i]) || first by {
                    assert(shadows(g.insts[i], h.insts[i], first, var));
                }
                assert(ga->evals =~= ha->evals);
            } else {
                lemma_step_agree(g, h, event);
            }
        },
        (StageView::Challenge { first, var }, Event::Challenged { r }) => {
            if g.gpu {
                assert(shadows(g.insts[0], h.insts[0], first, var));
                lemma_large_round(g, var);
                let hn = h.folded_on_host(first, var, r);
                lemma_folded(h, first, var, r);
                lemma_shape_kept(h, hn);
                let gn = gs.folded_on_gpu(first, var, r);
                assert(hs.insts == hn.insts);
                assert forall|i: int| 0 <= i < hs.insts.len() implies shadows(
                    #[trigger] gn.insts[i],
                    hs.insts[i],
                    first,
                    var + 1,
                ) by {
                    assert(shadows(g.insts[i], h.insts[i], first, var));
                    assert(is_ready(h.insts[i], var));
                    lemma_shadow_folds(g.insts[i], h.insts[i], first, var, r[i]);
                }
                assert(ha == hn.host_round(first, var + 1).1);
                assert(ha == hs.host_round(first, var + 1).1);
            } else {
                lemma_step_agree(g, h, event);
                lemma_step_ready(h, e);
            }
        },
        _ => {
            lemma_step_agree(g, h, event);
            lemma_step_ready(h, e);
        },
    }
}

// ---------------------------------------------------------------------------
// Whole runs
// ---------------------------------------------------------------------------

/// The first `n` answers, without those of a GPU.
pub open spec fn host_events<E>(events: Seq<Event<E>>, n: nat) -> Seq<Event<E>>
    decreases n,
{
    if n == 0 {
        Seq::empty()
    } else {
        let before = host_events(events, (n - 1) as nat);
        if from_gpu(events[n - 1]) {
            before
        } else {
            before.push(without_gpu(events[n - 1]))
        }
    }
}

/// The questions that the first `n` answers lead to, without those to a GPU.
pub open spec fn questions<F: FieldEngine>(
    layer: LayerView<F>,
    events: Seq<Event<F::ChallengeField>>,
    n: nat,
) -> Seq<Ask<F::ChallengeField>>
    decreases n,
{
    if n == 0 {
        Seq::empty()
    } else {
        let before = questions(layer, events, (n - 1) as nat);
        let ask = after(layer, events, (n - 1) as nat).step(events[n - 1]).1;
        if to_gpu(ask) {
            before
        } else {
            before.push(ask)
        }
    }
}

/// Every answer of the GPU is faithful.
pub open spec fn all_faithful<F: FieldEngine>(
    layer: LayerView<F>,
    events: Seq<Event<F::ChallengeField>>,
) -> bool {
    forall|k: int|
        0 <= k < events.len() ==> is_faithful(
            #[trigger] after(layer, events, k as nat),
            events[k],
        )
}

/// What comes of the first answers depends on them alone.
pub proof fn lemma_run_front<F: FieldEngine>(
    layer: LayerView<F>,
    events: Seq<Event<F::ChallengeField>>,
    event: Event<F::ChallengeField>,
    n: nat,
)
    requires
        n <= events.len(),
    ensures
        after(layer, events.push(event), n) == after(layer, events, n),
        questions(layer, events.push(event), n) == questions(layer, events, n),
    decreases n,
{
    if n > 0 {
        lemma_run_front(layer, events, event, (n - 1) as nat);
        assert(events.push(event)[n - 1] == events[n - 1]);
    }
}

/// The questions that a layer has put, with the one that it will put once the GPU has answered.
pub open spec fn questions_due<F: FieldEngine>(
    g: LayerView<F>,
    h: LayerView<F>,
    asked: Seq<Ask<F::ChallengeField>>,
) -> Seq<Ask<F::ChallengeField>> {
    if waits_for_gpu(g) {
        asked.push(pending(h))
    } else {
        asked
    }
}

proof fn lemma_after_mirrors<F: FieldEngine>(
    layer: LayerView<F>,
    events: Seq<Event<F::ChallengeField>>,
    n: nat,
)
    requires
        layer.wf(),
        layer.input_var_num() >= 1,
        !layer.gpu,
        mirrors(layer, layer),
        tables_ready(layer),
        all_expected(layer, events),
        all_faithful(layer, events),
        n <= events.len(),
    ensures
        ({
            let hosts = host_events(events, n);
            let g = after(layer, events, n);
            let h = after(layer, hosts, hosts.len());
            &&& all_expected(layer, hosts)
            &&& g.wf()
            &&& h.wf()
            &&& h.input_var_num() >= 1
            &&& mirrors(g, h)
            &&& tables_ready(h)
            &&& questions(layer, hosts, hosts.len()) == questions_due(
                g,
                h,
                questions(layer, events, n),
            )
        }),
    decreases n,
{
    if n == 0 {
        assert(!waits_for_gpu(layer));
    } else {
        let m = (n - 1) as nat;
        lemma_after_mirrors(layer, events, m);
        let hosts = host_events(events, m);
        let (g, h) = (after(layer, events, m), after(layer, hosts, hosts.len()));
        let event = events[m as int];
        assert(g.expects(event));
        assert(is_faithful(g, event));
        lemma_step_wf(g, event);
        if from_gpu(event) {
            lemma_gpu_step_mirrors(g, h, event);
        } else {
            let e = without_gpu(event);
            let longer = hosts.push(e);
            lemma_step_mirrors(g, h, event);
            lemma_step_wf(h, e);
            lemma_step_layers(h, e);
            lemma_step_ready(h, e);
            assert(h.step(e).0.insts[0].layer == h.insts[0].layer);
            lemma_run_front(layer, hosts, e, hosts.len());
            assert(longer[hosts.len() as int] == e);
            assert forall|k: int| 0 <= k < longer.len() implies (#[trigger] after(
                layer,
                longer,
                k as nat,
            )).expects(longer[k]) by {
                lemma_run_front(layer, hosts, e, k as nat);
                if k < hosts.len() {
                    assert(after(layer, hosts, k as nat).expects(hosts[k]));
                }
            }
        }
    }
}

/// A layer that starts stands where it stands without a GPU.
proof fn lemma_start_mirrors<F: FieldEngine>(layer: LayerView<F>)
    requires
        layer.wf(),
        !layer.gpu,
    ensures
        mirrors(layer, layer),
{
}

/// A GPU is not noticed. Whatever it does, as long as it does its work or says that it has not,
/// a layer puts the questions that it puts without one, and comes to the same claims and
/// challenges.
pub proof fn lemma_gpu_run<F: FieldEngine>(
    layer: LayerView<F>,
    events: Seq<Event<F::ChallengeField>>,
)
    requires
        layer.uniform(),
        !layer.gpu,
        layer.seen(0, 0, 0, 0),
        layer.input_var_num() >= 1,
        forall|i: int|
            0 <= i < layer.insts.len() ==> all_valid(
                promoted::<F>((#[trigger] layer.insts[i]).layer.input_vals@),
                pow2(layer.input_var_num()),
            ),
        all_expected(layer.start().0, events),
        all_faithful(layer.start().0, events),
    ensures
        ({
            let start = layer.start().0;
            let hosts = host_events(events, events.len());
            let g = after(start, events, events.len());
            let h = after(start, hosts, hosts.len());
            &&& all_expected(start, hosts)
            &&& mirrors(g, h)
            &&& questions(start, hosts, hosts.len()) == questions_due(
                g,
                h,
                questions(start, events, events.len()),
            )
            &&& g.stage is Done ==> h.stage is Done && g.claims() == h.claims() && g.challenges()
                == h.challenges()
        }),
{
    let start = layer.start().0;
    lemma_start_wf(layer);
    lemma_start_ready(layer);
    assert(start.insts[0].layer == layer.insts[0].layer);
    lemma_start_mirrors(start);
    lemma_after_mirrors(start, events, events.len());
    let hosts = host_events(events, events.len());
    let g = after(start, events, events.len());
    let h = after(start, hosts, hosts.len());
    if g.stage is Done {
        lemma_agree_results(g, h);
    }
}

// ---------------------------------------------------------------------------
// Claims
// ---------------------------------------------------------------------------

/// The shares of the wire tables that the first `n` answers bring.
pub open spec fn shares_sent<E>(events: Seq<Event<E>>, n: nat) -> Seq<Seq<E>>
    decreases n,
{
    if n == 0 {
        Seq::empty()
    } else {
        shares_after(events[n - 1], shares_sent(events, (n - 1) as nat))
    }
}

/// Where a layer stands on the host, what is known of the layer without a GPU is known of it.
proof fn lemma_mirror_on_track<F: FieldEngine>(
    g: LayerView<F>,
    h: LayerView<F>,
    shares: Seq<Seq<F::ChallengeField>>,
)
    requires
        g.wf(),
        h.wf(),
        mirrors(g, h),
        on_track(h, shares),
        !g.gpu,
    ensures
        on_track(g, shares),
{
    let n = h.input_var_num();
    F::law_pack_size();
    lemma2_to64();
    assert(agree(g, h));
    assert(alike(g.insts[0], h.insts[0], in_use(h.insts[0], h.gpu, h.stage)));
    assert forall|i: int| 0 <= i < g.insts.len() implies inst_on_track(
        #[trigger] g.insts[i],
        g.stage,
        shares[i],
    ) && g.insts[i].layer == h.insts[i].layer by {
        let (a, b) = (g.insts[i], h.insts[i]);
        assert(alike(a, b, in_use(b, h.gpu, h.stage)));
        assert(inst_on_track(b, h.stage, shares[i]));
        assert(a.wf() && b.wf());
        assert(b.input_var_num() == n && b.mpi_var_num == h.mpi_var_num());
        let phase_two = match h.stage {
            StageView::GpuSetup { first } => !first,
            StageView::Combine { first, .. } => !first,
            StageView::Challenge { first, .. } => !first,
            StageView::VyCombine => true,
            _ => false,
        };
        if phase_two {
            lemma_weights_same(a, b);
        }
        if h.stage is VyCombine {
            assert(a.pad.v_evals[0] == b.pad.v_evals[0]);
            assert(seq![a.pad.v_evals[0]][0] == b.pad.v_evals[0]);
            lemma_local_same(a, b, seq![b.pad.v_evals[0]]);
            assert(a.local(seq![b.pad.v_evals[0]])[0] == b.local(seq![b.pad.v_evals[0]])[0]);
            assert(a.vy_share() == b.vy_share());
        }
    }
}

/// What is known of a layer on the host at each step of a run.
pub proof fn lemma_host_on_track<F: FieldEngine>(
    layer: LayerView<F>,
    hosts: Seq<Event<F::ChallengeField>>,
    n: nat,
)
    requires
        layer.wf(),
        on_track(layer, Seq::empty()),
        all_expected(layer, hosts),
        forall|k: int| 0 <= k < hosts.len() ==> stays_on_host(#[trigger] hosts[k]),
        forall|k: int|
            0 <= k < hosts.len() ==> shares_valid(#[trigger] hosts[k], pow2(layer.mpi_var_num())),
        n <= hosts.len(),
    ensures
        after(layer, hosts, n).wf(),
        after(layer, hosts, n).mpi_var_num() == layer.mpi_var_num(),
        on_track(after(layer, hosts, n), shares_sent(hosts, n)),
    decreases n,
{
    if n > 0 {
        let m = (n - 1) as nat;
        lemma_host_on_track(layer, hosts, m);
        let state = after(layer, hosts, m);
        assert(state.expects(hosts[m as int]));
        lemma_step_on_track(state, hosts[m as int], shares_sent(hosts, m));
        lemma_step_wf(state, hosts[m as int]);
        lemma_step_layers(state, hosts[m as int]);
        assert(state.step(hosts[m as int]).0.insts[0].mpi_var_num == state.insts[0].mpi_var_num);
    }
}

proof fn lemma_host_events<E: Field>(events: Seq<Event<E>>, n: nat, len: nat)
    requires
        n <= events.len(),
        forall|k: int| 0 <= k < events.len() ==> shares_valid(#[trigger] events[k], len),
    ensures
        forall|k: int|
            0 <= k < host_events(events, n).len() ==> stays_on_host(
                #[trigger] host_events(events, n)[k],
            ) && shares_valid(host_events(events, n)[k], len),
        shares_sent(host_events(events, n), host_events(events, n).len()) == shares_sent(
            events,
            n,
        ),
    decreases n,
{
    if n > 0 {
        let m = (n - 1) as nat;
        lemma_host_events(events, m, len);
        let before = host_events(events, m);
        let event = events[m as int];
        assert(shares_valid(event, len));
        if !from_gpu(event) {
            let longer = before.push(without_gpu(event));
            lemma_shares_front(before, without_gpu(event), before.len());
            assert forall|k: int| 0 <= k < longer.len() implies stays_on_host(#[trigger] longer[k])
                && shares_valid(longer[k], len) by {
                if k < before.len() {
                    assert(longer[k] == before[k]);
                }
            }
        }
    }
}

proof fn lemma_shares_front<E>(events: Seq<Event<E>>, event: Event<E>, n: nat)
    requires
        n <= events.len(),
    ensures
        shares_sent(events.push(event), n) == shares_sent(events, n),
    decreases n,
{
    if n > 0 {
        lemma_shares_front(events, event, (n - 1) as nat);
        assert(events.push(event)[n - 1] == events[n - 1]);
    }
}

/// With a GPU that does its work or says that it has not, the claims of a layer are values of its
/// inputs at the challenges that it leaves: whenever the tables are on the host, all is known of
/// the layer that is known of one proved without a GPU.
pub proof fn lemma_gpu_run_on_track<F: FieldEngine>(
    layer: LayerView<F>,
    events: Seq<Event<F::ChallengeField>>,
)
    requires
        layer.uniform(),
        !layer.gpu,
        layer.seen(0, 0, 0, 0),
        layer.input_var_num() >= 1,
        forall|i: int|
            0 <= i < layer.insts.len() ==> all_valid(
                promoted::<F>((#[trigger] layer.insts[i]).layer.input_vals@),
                pow2(layer.input_var_num()),
            ),
        all_expected(layer.start().0, events),
        all_faithful(layer.start().0, events),
        forall|k: int|
            0 <= k < events.len() ==> shares_valid(#[trigger] events[k], pow2(layer.mpi_var_num())),
        !after(layer.start().0, events, events.len()).gpu,
    ensures
        on_track(
            after(layer.start().0, events, events.len()),
            shares_sent(events, events.len()),
        ),
{
    let start = layer.start().0;
    lemma_start_wf(layer);
    lemma_start_ready(layer);
    assert(start.insts[0].layer == layer.insts[0].layer);
    assert(start.insts[0].mpi_var_num == layer.insts[0].mpi_var_num);
    lemma_start_mirrors(start);
    lemma_after_mirrors(start, events, events.len());
    lemma_start_on_track(layer, Seq::empty());
    let hosts = host_events(events, events.len());
    lemma_host_events(events, events.len(), pow2(layer.mpi_var_num()));
    lemma_host_on_track(start, hosts, hosts.len());
    lemma_mirror_on_track(
        after(start, events, events.len()),
        after(start, hosts, hosts.len()),
        shares_sent(events, events.len()),
    );
}

} // verus!
