//! A whole circuit is proved with a GPU as it is proved without one.

use vstd::arithmetic::power2::*;
use vstd::prelude::*;

use crate::agreement::{
    alike, gkr_agree, has_inputs, in_use, left_use, lemma_agree_results, lemma_begin_layer_agree,
    lemma_gkr_step_agree, pads_agree,
};
use crate::circuit::ChallengeView;
use crate::dispatch::{
    from_gpu, is_faithful, lemma_gpu_step_mirrors, lemma_start_ready, lemma_step_mirrors,
    lemma_step_ready, mirrors, pending, tables_ready, to_gpu, waits_for_gpu, without_gpu,
};
use crate::engine::FieldEngine;
use crate::extension::promoted;
use crate::gkr_protocol::{
    challenges_fit, circuits_fit, lemma_begin_layer, lemma_gkr_step_wf, lemma_layer_done,
    lemma_layer_stepped, pads_fit, GkrAsk, GkrEvent, GkrStageView, GkrView,
};
use crate::instance::PadView;
use crate::lockstep::{gkr_after, gkr_all_expected};
use crate::rounds::all_valid;
use crate::sumcheck::layer_at_start;

verus! {

// ---------------------------------------------------------------------------
// A proof with a GPU and one without
// ---------------------------------------------------------------------------

/// The wire values of every layer are field elements.
pub open spec fn has_valid_inputs<F: FieldEngine>(gkr: GkrView<F>) -> bool {
    forall|i: int, j: int|
        0 <= i < gkr.circuits.len() && 0 <= j < gkr.layer_num() ==> all_valid(
            promoted::<F>((#[trigger] gkr.circuits[i].layers@[j]).input_vals@),
            pow2(gkr.circuits[0].layers@[j].input_var_num as nat),
        )
}

/// A proof that may use a GPU and one that does not stand at the same point.
pub open spec fn gkr_mirrors<F: FieldEngine>(g: GkrView<F>, h: GkrView<F>) -> bool {
    &&& g.circuits == h.circuits
    &&& g.world_size == h.world_size
    &&& match (g.stage, h.stage) {
        (
            GkrStageView::Layer { index: i, claimed: a, layer: x },
            GkrStageView::Layer { index: j, claimed: b, layer: y },
        ) => i == j && a == b && mirrors(x, y) && tables_ready(y),
        _ => gkr_agree(g, h),
    }
}

/// The GPU gives the answer.
pub open spec fn gkr_from_gpu<E>(event: GkrEvent<E>) -> bool {
    match event {
        GkrEvent::Layer { event } => from_gpu(event),
        _ => false,
    }
}

/// The answer where there is no GPU.
pub open spec fn gkr_without_gpu<E>(event: GkrEvent<E>) -> GkrEvent<E> {
    match event {
        GkrEvent::Layer { event } => GkrEvent::Layer { event: without_gpu(event) },
        _ => event,
    }
}

/// The question goes to the GPU.
pub open spec fn gkr_to_gpu<E>(ask: GkrAsk<E>) -> bool {
    match ask {
        GkrAsk::Layer { ask } => to_gpu(ask),
        _ => false,
    }
}

/// The GPU has done its work, or says that it has not.
pub open spec fn gkr_is_faithful<F: FieldEngine>(
    gkr: GkrView<F>,
    event: GkrEvent<F::ChallengeField>,
) -> bool {
    match (gkr.stage, event) {
        (GkrStageView::Layer { layer, .. }, GkrEvent::Layer { event }) => is_faithful(layer, event),
        _ => true,
    }
}

/// The proof waits for a GPU context that is ready.
pub open spec fn gkr_waits_for_gpu<F: FieldEngine>(gkr: GkrView<F>) -> bool {
    match gkr.stage {
        GkrStageView::Layer { layer, .. } => waits_for_gpu(layer),
        _ => false,
    }
}

/// The question that a proof on the host has out while a layer is combining shares.
pub open spec fn gkr_pending<F: FieldEngine>(gkr: GkrView<F>) -> GkrAsk<F::ChallengeField> {
    match gkr.stage {
        GkrStageView::Layer { layer, .. } => GkrAsk::Layer { ask: pending(layer) },
        _ => GkrAsk::Finished,
    }
}

/// Where the scratch pads agree in what the layer before has left, a layer is taken in hand alike.
proof fn lemma_begin_layer_mirrors<F: FieldEngine>(
    g: GkrView<F>,
    h: GkrView<F>,
    index: nat,
    claimed: Seq<F::ChallengeField>,
    challenges: Seq<ChallengeView<F::ChallengeField>>,
    alphas: Seq<Option<F::ChallengeField>>,
    p: Seq<PadView<F::Field, F::ChallengeField>>,
    q: Seq<PadView<F::Field, F::ChallengeField>>,
    two: bool,
)
    requires
        g.circuits == h.circuits,
        g.world_size == h.world_size,
        has_inputs(h),
        has_valid_inputs(h),
        circuits_fit(h.circuits),
        pads_fit(h.circuits, p, h.mpi_var_num()),
        pads_fit(h.circuits, q, h.mpi_var_num()),
        index < h.layer_num(),
        claimed.len() == h.circuits.len(),
        challenges_fit::<F>(
            challenges,
            h.circuits.len(),
            h.circuits[0].layers@[index as int].output_var_num as nat,
            h.mpi_var_num(),
            two,
        ),
        alphas.len() == h.circuits.len(),
        forall|i: int| 0 <= i < alphas.len() ==> (#[trigger] alphas[i] is Some <==> two),
        two ==> index + 1 < h.layer_num() && forall|k: int|
            0 <= k < h.circuits.len() ==> pads_agree(
                #[trigger] p[k],
                q[k],
                left_use(h, index + 1),
            ),
    ensures
        ({
            let (gs, ga) = g.begin_layer(index, claimed, challenges, alphas, p);
            let (hs, ha) = h.begin_layer(index, claimed, challenges, alphas, q);
            gkr_mirrors(gs, hs) && !gkr_waits_for_gpu(gs) && ga == ha
        }),
{
    lemma_begin_layer_agree(g, h, index, claimed, challenges, alphas, p, q, two);
    lemma_begin_layer(h, index, claimed, challenges, alphas, q, two);
    let last = index == h.layer_num() - 1;
    let layer = layer_at_start(h.layers_at(index), challenges, alphas, q, h.world_size, last);
    let shape = h.circuits[0].layers@[index as int];
    assert(layer.insts[0].layer == shape);
    assert forall|i: int| 0 <= i < layer.insts.len() implies all_valid(
        promoted::<F>((#[trigger] layer.insts[i]).layer.input_vals@),
        pow2(layer.input_var_num()),
    ) by {
        assert(layer.insts[i].layer == h.circuits[i].layers@[index as int]);
    }
    lemma_start_ready(layer);
}

/// Any answer but one of a GPU that is ready takes both proofs on alike. What is asked then is the
/// same, or goes to the GPU while the proof on the host asks what the other will ask after.
pub proof fn lemma_gkr_step_mirrors<F: FieldEngine>(
    g: GkrView<F>,
    h: GkrView<F>,
    event: GkrEvent<F::ChallengeField>,
)
    requires
        g.wf(),
        h.wf(),
        has_inputs(h),
        has_valid_inputs(h),
        gkr_mirrors(g, h),
        g.expects(event),
        !gkr_from_gpu(event),
    ensures
        !gkr_waits_for_gpu(g),
        h.expects(gkr_without_gpu(event)),
        ({
            let (gs, ga) = g.step(event);
            let (hs, ha) = h.step(gkr_without_gpu(event));
            &&& gkr_mirrors(gs, hs)
            &&& if gkr_waits_for_gpu(gs) {
                gkr_to_gpu(ga) && ha == gkr_pending(hs) && !gkr_to_gpu(ha)
            } else {
                ga == ha
            }
        }),
{
    match (g.stage, h.stage, event) {
        (
            GkrStageView::Claim { challenges, pads: p },
            GkrStageView::Claim { pads: q, .. },
            GkrEvent::Combined { values },
        ) => {
            let claimed = Seq::new(h.circuits.len(), |i: int| values[i][0]);
            let index = (h.layer_num() - 1) as nat;
            assert(h.circuits[0].wf());
            assert(g.no_alphas() =~= h.no_alphas());
            lemma_begin_layer_mirrors(
                g,
                h,
                index,
                claimed,
                challenges,
                h.no_alphas(),
                p,
                q,
                false,
            );
        },
        (
            GkrStageView::Layer { index, claimed, layer: x },
            GkrStageView::Layer { layer: y, .. },
            GkrEvent::Layer { event },
        ) => {
            let e = without_gpu(event);
            assert(y.insts[0].layer == h.circuits[0].layers@[index as int]);
            lemma_step_mirrors(x, y, event);
            lemma_step_ready(y, e);
            lemma_layer_stepped(h, index, x, event);
            lemma_layer_stepped(h, index, y, e);
            let (u, v) = (x.step(event).0, y.step(e).0);
            if v.stage is Done {
                lemma_agree_results(u, v);
                lemma_layer_done(h, index, u);
                lemma_layer_done(h, index, v);
                let (p, q) = (GkrView::<F>::pads_of(u), GkrView::<F>::pads_of(v));
                assert(v.insts[0].layer == h.circuits[0].layers@[index as int]);
                assert(u.insts[0].layer == h.circuits[0].layers@[index as int]);
                if v.skips_phase_two() {
                    assert(g.no_alphas() =~= h.no_alphas());
                    if index > 0 {
                        lemma_begin_layer_mirrors(
                            g,
                            h,
                            (index - 1) as nat,
                            claimed,
                            v.challenges(),
                            h.no_alphas(),
                            p,
                            q,
                            false,
                        );
                    }
                } else {
                    assert forall|k: int| 0 <= k < h.circuits.len() implies pads_agree(
                        #[trigger] p[k],
                        q[k],
                        left_use(h, index),
                    ) by {
                        assert(alike(
                            u.insts[k],
                            v.insts[k],
                            in_use(v.insts[k], v.gpu, v.stage),
                        ));
                        assert(v.insts[k].input_var_num() == v.input_var_num());
                    }
                }
            }
        },
        (
            GkrStageView::Alpha { index, claimed, challenges, pads: p },
            GkrStageView::Alpha { pads: q, .. },
            GkrEvent::Alphas { alphas },
        ) => {
            if index > 0 {
                assert(h.circuits[0].wf());
                assert(h.circuits[0].layers@[index as int].input_var_num
                    == h.circuits[0].layers@[index - 1].output_var_num);
                lemma_begin_layer_mirrors(
                    g,
                    h,
                    (index - 1) as nat,
                    claimed,
                    challenges,
                    Seq::new(h.circuits.len(), |i: int| Some(alphas[i])),
                    p,
                    q,
                    true,
                );
            }
        },
        _ => {
            lemma_gkr_step_agree(g, h, event);
        },
    }
}

/// An answer of the GPU leaves a proof where the proof on the host stands. What it asks then is
/// what the other has asked, or goes to the GPU again.
pub proof fn lemma_gkr_gpu_step_mirrors<F: FieldEngine>(
    g: GkrView<F>,
    h: GkrView<F>,
    event: GkrEvent<F::ChallengeField>,
)
    requires
        g.wf(),
        h.wf(),
        has_inputs(h),
        gkr_mirrors(g, h),
        g.expects(event),
        gkr_is_faithful(g, event),
        gkr_from_gpu(event),
    ensures
        gkr_waits_for_gpu(g),
        gkr_mirrors(g.step(event).0, h),
        if gkr_waits_for_gpu(g.step(event).0) {
            gkr_to_gpu(g.step(event).1)
        } else {
            g.step(event).1 == gkr_pending(h) && !gkr_to_gpu(gkr_pending(h))
        },
{
    match (g.stage, h.stage, event) {
        (
            GkrStageView::Layer { index, layer: x, .. },
            GkrStageView::Layer { layer: y, .. },
            GkrEvent::Layer { event },
        ) => {
            assert(y.insts[0].layer == h.circuits[0].layers@[index as int]);
            lemma_gpu_step_mirrors(x, y, event);
        },
        _ => {},
    }
}

// ---------------------------------------------------------------------------
// Whole proofs
// ---------------------------------------------------------------------------

/// The first `n` answers, without those of a GPU.
pub open spec fn gkr_host_events<E>(events: Seq<GkrEvent<E>>, n: nat) -> Seq<GkrEvent<E>>
    decreases n,
{
    if n == 0 {
        Seq::empty()
    } else {
        let before = gkr_host_events(events, (n - 1) as nat);
        if gkr_from_gpu(events[n - 1]) {
            before
        } else {
            before.push(gkr_without_gpu(events[n - 1]))
        }
    }
}

/// The questions that the first `n` answers lead to, without those to a GPU.
pub open spec fn gkr_questions<F: FieldEngine>(
    gkr: GkrView<F>,
    events: Seq<GkrEvent<F::ChallengeField>>,
    n: nat,
) -> Seq<GkrAsk<F::ChallengeField>>
    decreases n,
{
    if n == 0 {
        Seq::empty()
    } else {
        let before = gkr_questions(gkr, events, (n - 1) as nat);
        let ask = gkr_after(gkr, events, (n - 1) as nat).step(events[n - 1]).1;
        if gkr_to_gpu(ask) {
            before
        } else {
            before.push(ask)
        }
    }
}

/// The questions that a proof has put, with the one that it will put once the GPU has answered.
pub open spec fn gkr_questions_due<F: FieldEngine>(
    g: GkrView<F>,
    h: GkrView<F>,
    asked: Seq<GkrAsk<F::ChallengeField>>,
) -> Seq<GkrAsk<F::ChallengeField>> {
    if gkr_waits_for_gpu(g) {
        asked.push(gkr_pending(h))
    } else {
        asked
    }
}

/// Every answer of the GPU is faithful.
pub open spec fn gkr_all_faithful<F: FieldEngine>(
    gkr: GkrView<F>,
    events: Seq<GkrEvent<F::ChallengeField>>,
) -> bool {
    forall|k: int|
        0 <= k < events.len() ==> gkr_is_faithful(
            #[trigger] gkr_after(gkr, events, k as nat),
            events[k],
        )
}

/// What comes of the first answers depends on them alone.
proof fn lemma_gkr_run_front<F: FieldEngine>(
    gkr: GkrView<F>,
    events: Seq<GkrEvent<F::ChallengeField>>,
    event: GkrEvent<F::ChallengeField>,
    n: nat,
)
    requires
        n <= events.len(),
    ensures
        gkr_after(gkr, events.push(event), n) == gkr_after(gkr, events, n),
        gkr_questions(gkr, events.push(event), n) == gkr_questions(gkr, events, n),
    decreases n,
{
    if n > 0 {
        lemma_gkr_run_front(gkr, events, event, (n - 1) as nat);
        assert(events.push(event)[n - 1] == events[n - 1]);
    }
}

proof fn lemma_gkr_after_mirrors<F: FieldEngine>(
    x: GkrView<F>,
    y: GkrView<F>,
    events: Seq<GkrEvent<F::ChallengeField>>,
    n: nat,
)
    requires
        x.wf(),
        y.wf(),
        has_inputs(y),
        has_valid_inputs(y),
        gkr_mirrors(x, y),
        !gkr_waits_for_gpu(x),
        gkr_all_expected(x, events),
        gkr_all_faithful(x, events),
        n <= events.len(),
    ensures
        ({
            let hosts = gkr_host_events(events, n);
            let g = gkr_after(x, events, n);
            let h = gkr_after(y, hosts, hosts.len());
            &&& gkr_all_expected(y, hosts)
            &&& g.wf()
            &&& h.wf()
            &&& h.circuits == y.circuits
            &&& gkr_mirrors(g, h)
            &&& gkr_questions(y, hosts, hosts.len()) == gkr_questions_due(
                g,
                h,
                gkr_questions(x, events, n),
            )
        }),
    decreases n,
{
    if n > 0 {
        let m = (n - 1) as nat;
        lemma_gkr_after_mirrors(x, y, events, m);
        let hosts = gkr_host_events(events, m);
        let (g, h) = (gkr_after(x, events, m), gkr_after(y, hosts, hosts.len()));
        let event = events[m as int];
        assert(g.expects(event));
        assert(gkr_is_faithful(g, event));
        lemma_gkr_step_wf(g, event);
        if gkr_from_gpu(event) {
            lemma_gkr_gpu_step_mirrors(g, h, event);
        } else {
            let e = gkr_without_gpu(event);
            let longer = hosts.push(e);
            lemma_gkr_step_mirrors(g, h, event);
            lemma_gkr_step_wf(h, e);
            lemma_gkr_run_front(y, hosts, e, hosts.len());
            assert(longer[hosts.len() as int] == e);
            assert forall|k: int| 0 <= k < longer.len() implies (#[trigger] gkr_after(
                y,
                longer,
                k as nat,
            )).expects(longer[k]) by {
                lemma_gkr_run_front(y, hosts, e, k as nat);
                if k < hosts.len() {
                    assert(gkr_after(y, hosts, k as nat).expects(hosts[k]));
                }
            }
        }
    }
}

/// A GPU is not noticed in a whole proof. Whatever it does at any layer, as long as it does its
/// work or says that it has not, the proof puts the questions that it puts without one, and comes
/// to the same claimed outputs and challenges. What the scratch pads held does not matter either.
pub proof fn lemma_gkr_gpu_run<F: FieldEngine>(
    gkr: GkrView<F>,
    p: Seq<PadView<F::Field, F::ChallengeField>>,
    q: Seq<PadView<F::Field, F::ChallengeField>>,
    events: Seq<GkrEvent<F::ChallengeField>>,
)
    requires
        has_inputs(gkr),
        has_valid_inputs(gkr),
        circuits_fit(gkr.circuits),
        pads_fit(gkr.circuits, p, gkr.mpi_var_num()),
        pads_fit(gkr.circuits, q, gkr.mpi_var_num()),
        gkr_all_expected(gkr.begin(p).0, events),
        gkr_all_faithful(gkr.begin(p).0, events),
    ensures
        ({
            let (x, y) = (gkr.begin(p).0, gkr.begin(q).0);
            let hosts = gkr_host_events(events, events.len());
            let g = gkr_after(x, events, events.len());
            let h = gkr_after(y, hosts, hosts.len());
            &&& gkr.begin(p).1 == gkr.begin(q).1
            &&& gkr_all_expected(y, hosts)
            &&& gkr_questions(y, hosts, hosts.len()) == gkr_questions_due(
                g,
                h,
                gkr_questions(x, events, events.len()),
            )
            &&& g.stage is Done <==> h.stage is Done
            &&& g.results() == h.results()
        }),
{
    let (x, y) = (gkr.begin(p).0, gkr.begin(q).0);
    lemma_gkr_after_mirrors(x, y, events, events.len());
}

} // verus!
