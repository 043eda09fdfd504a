//! What the procedures on a GPU come to where the machine does what its replies say. Whatever
//! succeeds and whatever fails, the answers that a layer gets are faithful, and the context holds
//! the tables of the round that is next.

use vstd::arithmetic::power2::*;
use vstd::prelude::*;

use crate::batch::optional_lists;
use crate::cuda_dispatch::{
    at, buffer_bytes, lane_eval_steps, lane_fold_steps, lemma_setup_progress, setup_context,
    setup_op, setup_progress, setup_reply_good, BatchedGpuSumcheckContext, ContextImage,
    GpuPolyEvalResult, GpuSumcheckContext,
};
use crate::device::{DeviceOpView, DevicePtr, DeviceReply, DeviceStep};
use crate::dispatch::{is_faithful, results_faithful};
use crate::engine::{FieldEngine, M31x16Config};
use crate::extension::{broadcasts, lemma_bound_same, promoted};
use crate::instance::{table_words, with_front, InstView};
use crate::m31::M31Ext3;
use crate::machine::{
    base_elements, base_lane, effect, effects, element, elements, eval_op, f_lane, has_buffers,
    hg_lane, lane_folded, lane_sums, lemma_lane_bounds, lemma_set_up_lanes, overwritten, set_up,
};
use crate::protocol::{
    lemma_folded, lemma_large_round, lemma_shape_kept, Event, LayerView, StageView,
};
use crate::residency::{
    holds_round, holds_tables, lane_of, lemma_download_faithful, lemma_eval_faithful,
    lemma_fold_tables, lemma_set_up_tables,
};
use crate::sumcheck::{BatchedSumcheckGkrVanillaHelper, GpuOutcome, GpuStep, Stage};

verus! {

// ---------------------------------------------------------------------------
// Machines
// ---------------------------------------------------------------------------

/// At most the words of one allocation change.
pub open spec fn only_changes(
    memory: Map<u64, Seq<u32>>,
    next: Map<u64, Seq<u32>>,
    addr: u64,
) -> bool {
    next == memory.insert(addr, next[addr]) && next[addr].len() == memory[addr].len()
}

/// A machine does what its reply says: an operation that it reports as a success has had its
/// effect, words that it hands out are those of its memory, and a new allocation is apart from all
/// others. An evaluation that fails spoils at most the room for its result.
pub open spec fn is_honest(
    memory: Map<u64, Seq<u32>>,
    op: DeviceOpView,
    reply: DeviceReply,
    next: Map<u64, Seq<u32>>,
) -> bool {
    match op {
        DeviceOpView::Malloc { bytes } => match reply.address() {
            Some(addr) => !memory.contains_key(addr) && next == memory.insert(addr, next[addr])
                && 4 * next[addr].len() == bytes,
            None => next == memory,
        },
        DeviceOpView::Download { src, count } => next == memory && (reply.download(
            count as nat,
        ) is Some ==> reply.download(count as nat)->0 == memory[src.addr].subrange(
            src.offset as int,
            src.offset + count,
        )),
        DeviceOpView::PolyEvalBatched { result, .. } => if reply.succeeded() {
            next == effect(memory, op)
        } else {
            only_changes(memory, next, result.addr)
        },
        _ => reply.succeeded() ==> next == effect(memory, op),
    }
}

/// A layer goes through a procedure on such a machine, to its end.
pub open spec fn is_device_run<'a>(
    helper: BatchedSumcheckGkrVanillaHelper<'a, M31x16Config>,
    replies: Seq<DeviceReply>,
    steps: Seq<GpuStep>,
    memories: Seq<Map<u64, Seq<u32>>>,
) -> bool {
    &&& steps.len() == replies.len() + 1
    &&& memories.len() == steps.len()
    &&& forall|k: int|
        0 <= k < steps.len() ==> helper.gpu_steps(replies.take(k), #[trigger] steps[k])
    &&& forall|k: int|
        0 <= k < replies.len() ==> {
            &&& #[trigger] steps[k] is Run
            &&& is_honest(memories[k], steps[k]->Run_0@, replies[k], memories[k + 1])
        }
    &&& steps.last() is Done
}

/// What the context of a layer holds before a round.
pub open spec fn holds_layer(
    memory: Map<u64, Seq<u32>>,
    ctx: BatchedGpuSumcheckContext,
    layer: LayerView<M31x16Config>,
    first: bool,
    var: nat,
) -> bool {
    forall|i: int|
        0 <= i < layer.insts.len() ==> holds_round(
            memory,
            ctx,
            #[trigger] layer.insts[i],
            first,
            var,
            i,
        )
}

// ---------------------------------------------------------------------------
// Evaluating
// ---------------------------------------------------------------------------

/// The room for the result has no part in the tables.
proof fn lemma_round_kept(
    memory: Map<u64, Seq<u32>>,
    next: Map<u64, Seq<u32>>,
    ctx: BatchedGpuSumcheckContext,
    inst: InstView<M31x16Config>,
    first: bool,
    var: nat,
    i: int,
)
    requires
        holds_round(memory, ctx, inst, first, var, i),
        only_changes(memory, next, ctx.d_result),
    ensures
        holds_round(next, ctx, inst, first, var, i),
{
    let b = ctx.buffers();
    assert(b[0] != b[6] && b[1] != b[6] && b[2] != b[6] && b[3] != b[6] && b[4] != b[6] && b[5]
        != b[6]);
    assert(next[ctx.d_bk_f] == memory[ctx.d_bk_f]);
    assert(next[ctx.d_bk_hg] == memory[ctx.d_bk_hg]);
    assert(next[ctx.d_bk_f_alt] == memory[ctx.d_bk_f_alt]);
    assert(next[ctx.d_bk_hg_alt] == memory[ctx.d_bk_hg_alt]);
    assert(next[ctx.d_init_v] == memory[ctx.d_init_v]);
    assert(next[ctx.d_challenge] == memory[ctx.d_challenge]);
    assert forall|lane: int| #[trigger] f_lane(next, ctx, lane) == f_lane(memory, ctx, lane) by {}
    assert forall|lane: int| #[trigger] hg_lane(next, ctx, lane) == hg_lane(memory, ctx, lane) by {}
    assert forall|lane: int| #[trigger] base_lane(next, ctx, lane) == base_lane(
        memory,
        ctx,
        lane,
    ) by {}
}

/// Whatever comes of an evaluation on the GPU, the answer that the layer gets is faithful, and the
/// context still holds the tables of the round.
pub proof fn lemma_eval_run<'a>(
    helper: BatchedSumcheckGkrVanillaHelper<'a, M31x16Config>,
    replies: Seq<DeviceReply>,
    steps: Seq<GpuStep>,
    memories: Seq<Map<u64, Seq<u32>>>,
    first: bool,
    var: usize,
)
    requires
        helper.wf(),
        helper.stage == (Stage::<M31x16Config>::GpuEval { first, var }),
        helper.batched_gpu_ctx is Some,
        is_device_run(helper, replies, steps, memories),
        holds_layer(memories[0], helper.batched_gpu_ctx->0, helper@, first, var as nat),
    ensures
        ({
            let outcome = steps.last()->Done_0;
            &&& outcome is Evaluated
            &&& is_faithful(helper@, helper.outcome_event(outcome))
            &&& helper.next_ctx(outcome) == helper.batched_gpu_ctx
            &&& holds_layer(
                memories.last(),
                helper.batched_gpu_ctx->0,
                helper@,
                first,
                var as nat,
            )
            &&& (replies.len() >= 2 && replies[0].succeeded() && replies[1].download(
                (helper.batched_gpu_ctx->0.total_batch_spec() * 9) as usize as nat,
            ) is Some) ==> outcome->Evaluated_0 is Some
        }),
{
    let ctx = helper.batched_gpu_ctx->0;
    let layer = helper@;
    let n = replies.len() as int;
    let size = layer.eval_size(var as nat) as usize;
    let outcome = steps.last()->Done_0;
    assert(steps.last() == steps[n]);
    assert(replies.take(n) =~= replies);
    assert(helper.gpu_steps(replies.take(n), steps[n]));
    assert(helper.gpu_steps(replies.take(0), steps[0]));
    assert(n > 0);
    assert(steps[0] is Run);
    assert(holds_round(memories[0], ctx, layer.insts[0], first, var as nat, 0));
    lemma_large_fits(helper, var as nat);
    assert(steps[0]->Run_0@ == eval_op(ctx, size));
    lemma_eval_changes(memories[0], ctx, size);
    assert(only_changes(memories[0], memories[1], ctx.d_result));
    if n >= 2 {
        assert(replies.take(1)[0] == replies[0]);
        assert(helper.gpu_steps(replies.take(1), steps[1]));
        assert(steps[1] is Run);
        assert(memories[2] == memories[1]);
    }
    if n >= 3 {
        assert(replies.take(2)[0] == replies[0] && replies.take(2)[1] == replies[1]);
        assert(helper.gpu_steps(replies.take(2), steps[2]));
        assert(steps[2] is Run);
        assert(false);
    }
    assert forall|i: int| 0 <= i < layer.insts.len() implies holds_round(
        memories.last(),
        ctx,
        #[trigger] layer.insts[i],
        first,
        var as nat,
        i,
    ) by {
        assert(holds_round(memories[0], ctx, layer.insts[i], first, var as nat, i));
        lemma_round_kept(
            memories[0],
            memories[1],
            ctx,
            layer.insts[i],
            first,
            var as nat,
            i,
        );
    }
    if outcome->Evaluated_0 is Some {
        let results = outcome->Evaluated_0->0@;
        let count = (ctx.total_batch_spec() * 9) as usize;
        let words = replies[1].download(count as nat)->0;
        assert(words =~= memories[1][ctx.d_result].take(count as int));
        assert forall|i: int| 0 <= i < layer.insts.len() implies results_faithful(
            (#[trigger] layer.insts[i]).recovered(first, var as nat),
            var as nat,
            results[i],
        ) by {
            let inst = layer.insts[i];
            assert(holds_round(memories[0], ctx, inst, first, var as nat, i));
            assert(inst.wf());
            assert(inst.input_var_num() == layer.input_var_num());
            lemma_pow2_unfold((inst.input_var_num() - var) as nat);
            lemma_eval_faithful(
                memories[0],
                ctx,
                inst,
                first,
                var as nat,
                size,
                words,
                results,
                i,
            );
        }
    }
}

/// An evaluation writes to the room for its result alone.
proof fn lemma_eval_changes(
    memory: Map<u64, Seq<u32>>,
    ctx: BatchedGpuSumcheckContext,
    eval_size: usize,
)
    ensures
        only_changes(memory, effect(memory, eval_op(ctx, eval_size)), ctx.d_result),
{
}

/// The sizes of a context that fits a layer can be represented.
proof fn lemma_large_fits<'a>(
    helper: BatchedSumcheckGkrVanillaHelper<'a, M31x16Config>,
    var: nat,
)
    requires
        helper.wf(),
        helper.batched_gpu_ctx is Some,
        helper.batched_gpu_ctx->0.lane_stride_ext3 <= u32::MAX,
        var < helper@.input_var_num(),
    ensures
        helper.batched_gpu_ctx->0.pack_size == 16,
        helper.batched_gpu_ctx->0.n_instances == helper@.insts.len(),
        helper@.eval_size(var) == helper@.eval_size(var) as usize,
        helper@.eval_size(var) <= u32::MAX,
        2 * helper@.eval_size(var) <= helper.batched_gpu_ctx->0.lane_stride_base,
        helper.batched_gpu_ctx->0.total_batch_spec() * 9 == (
        helper.batched_gpu_ctx->0.total_batch_spec() * 9) as usize,
{
    let ctx = helper.batched_gpu_ctx->0;
    let n = helper@.input_var_num();
    M31x16Config::law_pack_size();
    lemma_pow2_unfold((n - var) as nat);
    if var > 0 {
        lemma_pow2_strictly_increases((n - var) as nat, n);
    }
}

// ---------------------------------------------------------------------------
// Folding
// ---------------------------------------------------------------------------

/// The tables before a round depend on the challenges before it alone.
proof fn lemma_round_same(
    memory: Map<u64, Seq<u32>>,
    ctx: BatchedGpuSumcheckContext,
    inst: InstView<M31x16Config>,
    other: InstView<M31x16Config>,
    first: bool,
    var: nat,
    i: int,
)
    requires
        holds_round(memory, ctx, inst, first, var, i),
        other.layer == inst.layer,
        other.pad.v_evals == inst.pad.v_evals,
        other.pad.hg_evals == inst.pad.hg_evals,
        var <= inst.phase_challenges(first).len(),
        var <= other.phase_challenges(first).len(),
        forall|k: int|
            0 <= k < var ==> #[trigger] other.phase_challenges(first)[k]
                == inst.phase_challenges(first)[k],
    ensures
        holds_round(memory, ctx, other, first, var, i),
{
    let n = inst.input_var_num();
    let (rs, qs) = (
        broadcasts::<M31x16Config>(inst.phase_challenges(first)),
        broadcasts::<M31x16Config>(other.phase_challenges(first)),
    );
    assert forall|k: int| 0 <= k < var implies #[trigger] rs[k] == qs[k] by {
        assert(other.phase_challenges(first)[k] == inst.phase_challenges(first)[k]);
    }
    let wires = with_front(inst.pad.v_evals, promoted::<M31x16Config>(inst.layer.input_vals@));
    lemma_bound_same(wires, rs, qs, n, var);
    lemma_bound_same(inst.pad.hg_evals, rs, qs, n, var);
}

/// A fold that has come through `k` operations has had the effect of the first `k`.
proof fn lemma_fold_reached<'a>(
    helper: BatchedSumcheckGkrVanillaHelper<'a, M31x16Config>,
    replies: Seq<DeviceReply>,
    steps: Seq<GpuStep>,
    memories: Seq<Map<u64, Seq<u32>>>,
    ops: Seq<DeviceOpView>,
    k: nat,
)
    requires
        is_device_run(helper, replies, steps, memories),
        k <= replies.len(),
        k <= ops.len(),
        forall|j: int| 0 <= j < ops.len() ==> ops[j] is Upload || ops[j] is ReceiveChallenge
            || (#[trigger] ops[j]) is ReceiveChallengeBatched,
        forall|j: int| 0 <= j < k ==> (#[trigger] replies[j]).succeeded(),
        forall|j: int| 0 <= j < k ==> (#[trigger] steps[j])->Run_0@ == ops[j],
    ensures
        memories[k as int] == effects(memories[0], ops, k),
    decreases k,
{
    if k > 0 {
        let j = k - 1;
        lemma_fold_reached(helper, replies, steps, memories, ops, j as nat);
        assert(steps[j] is Run);
        assert(replies[j].succeeded());
        assert(ops[j] is Upload || ops[j] is ReceiveChallenge || ops[j] is ReceiveChallengeBatched);
    }
}

/// The operations of a fold.
proof fn lemma_fold_kinds(
    ctx: BatchedGpuSumcheckContext,
    eval_size: usize,
    var: usize,
    r: Seq<Seq<u32>>,
)
    ensures
        ({
            let ops = ctx.fold_ops(eval_size, var, r);
            forall|j: int| 0 <= j < ops.len() ==> ops[j] is Upload || ops[j] is ReceiveChallenge
                || (#[trigger] ops[j]) is ReceiveChallengeBatched
        }),
{
}

/// A fold on the GPU that says that it is done has gone through all its operations.
proof fn lemma_fold_all<'a>(
    helper: BatchedSumcheckGkrVanillaHelper<'a, M31x16Config>,
    replies: Seq<DeviceReply>,
    steps: Seq<GpuStep>,
    memories: Seq<Map<u64, Seq<u32>>>,
    first: bool,
    var: usize,
    r: Vec<M31Ext3>,
)
    requires
        helper.wf(),
        helper.stage == (Stage::<M31x16Config>::GpuReceive { first, var, r }),
        helper.batched_gpu_ctx is Some,
        is_device_run(helper, replies, steps, memories),
        steps.last()->Done_0 == GpuOutcome::Received(true),
    ensures
        ({
            let ops = helper.batched_gpu_ctx->0.fold_ops(
                helper@.eval_size(var as nat) as usize,
                var,
                LayerView::<M31x16Config>::limbs(r@),
            );
            memories.last() == effects(memories[0], ops, ops.len())
        }),
{
    let ctx = helper.batched_gpu_ctx->0;
    let size = helper@.eval_size(var as nat) as usize;
    let limbs = LayerView::<M31x16Config>::limbs(r@);
    let ops = ctx.fold_ops(size, var, limbs);
    let n = replies.len() as int;
    assert(steps.last() == steps[n]);
    assert(replies.take(n) =~= replies);
    assert(helper.gpu_steps(replies.take(n), steps[n]));
    assert(limbs.len() == ctx.n_instances);
    if n > ops.len() {
        let k = ops.len() as int;
        assert(steps[k] is Run);
        assert(helper.gpu_steps(replies.take(k), steps[k]));
        assert forall|j: int| 0 <= j < k implies (#[trigger] replies.take(k)[j]).succeeded() by {
            assert(replies[j].succeeded());
        }
        assert(false);
    }
    assert(n == ops.len());
    assert forall|j: int| 0 <= j < n implies (#[trigger] replies[j]).succeeded() by {}
    assert forall|j: int| 0 <= j < n implies (#[trigger] steps[j])->Run_0@ == ops[j] by {
        assert(helper.gpu_steps(replies.take(j), steps[j]));
        assert forall|q: int| 0 <= q < j implies (#[trigger] replies.take(j)[q]).succeeded() by {
            assert(replies[q].succeeded());
        }
    }
    lemma_fold_kinds(ctx, size, var, limbs);
    lemma_fold_reached(helper, replies, steps, memories, ops, ops.len());
}

/// A fold on the GPU that says that it is done leaves, in the buffers of the context that the layer
/// goes on with, the tables of the next round.
pub proof fn lemma_fold_run<'a>(
    helper: BatchedSumcheckGkrVanillaHelper<'a, M31x16Config>,
    replies: Seq<DeviceReply>,
    steps: Seq<GpuStep>,
    memories: Seq<Map<u64, Seq<u32>>>,
    first: bool,
    var: usize,
    r: Vec<M31Ext3>,
)
    requires
        helper.wf(),
        helper.stage == (Stage::<M31x16Config>::GpuReceive { first, var, r }),
        helper.batched_gpu_ctx is Some,
        is_device_run(helper, replies, steps, memories),
        holds_layer(memories[0], helper.batched_gpu_ctx->0, helper@, first, var as nat),
        steps.last()->Done_0 == GpuOutcome::Received(true),
    ensures
        ({
            let outcome = steps.last()->Done_0;
            let next = helper@.step(helper.outcome_event(outcome)).0;
            &&& helper.next_ctx(outcome) is Some
            &&& holds_layer(
                memories.last(),
                helper.next_ctx(outcome)->0,
                next,
                first,
                (var + 1) as nat,
            )
        }),
{
    let ctx = helper.batched_gpu_ctx->0;
    let layer = helper@;
    let outcome = steps.last()->Done_0;
    let next = layer.step(helper.outcome_event(outcome)).0;
    let size = layer.eval_size(var as nat) as usize;
    let limbs = LayerView::<M31x16Config>::limbs(r@);
    lemma_fold_all(helper, replies, steps, memories, first, var, r);
    assert(layer.wf());
    lemma_large_round(layer, var as nat);
    lemma_folded(layer, first, var as nat, r@);
    lemma_shape_kept(layer, layer.folded_on_gpu(first, var as nat, r@));
    assert(next.insts == layer.folded_on_gpu(first, var as nat, r@).insts);
    assert(holds_round(memories[0], ctx, layer.insts[0], first, var as nat, 0));
    lemma_large_fits(helper, var as nat);
    assert forall|k: int| 0 <= k < limbs.len() implies (#[trigger] limbs[k]).len() == 3 by {}
    assert forall|i: int| 0 <= i < next.insts.len() implies holds_round(
        memories.last(),
        ctx.after_fold(var, true),
        #[trigger] next.insts[i],
        first,
        (var + 1) as nat,
        i,
    ) by {
        let (inst, then) = (layer.insts[i], next.insts[i]);
        assert(inst.wf());
        assert(inst.input_var_num() == layer.input_var_num());
        assert(holds_round(memories[0], ctx, inst, first, var as nat, i));
        assert(then == inst.flags_folded(var as nat).noted(first, r@[i]));
        assert(inst.phase_challenges(first).len() == var);
        lemma_round_same(memories[0], ctx, inst, then, first, var as nat, i);
        assert(then.wf());
        lemma_fold_tables(memories[0], ctx, then, first, var, size, limbs, i);
    }
}

// ---------------------------------------------------------------------------
// Back to the host
// ---------------------------------------------------------------------------

/// The words of the `k`-th table that comes back from the GPU: for each instance those of the
/// wires, then those of the coefficients, as they stand before round `var` of a phase.
pub open spec fn table_due(
    layer: LayerView<M31x16Config>,
    first: bool,
    var: nat,
    k: int,
) -> Seq<u32> {
    let own = layer.insts[k / 2].recovered(first, var).pad;
    table_words::<M31x16Config>(
        if k % 2 == 0 {
            own.v_evals
        } else {
            own.hg_evals
        },
        pow2((layer.input_var_num() - var) as nat),
    )
}

/// Tables that have come back are those due.
pub open spec fn tables_due(
    layer: LayerView<M31x16Config>,
    first: bool,
    var: nat,
    tables: Seq<Option<Vec<u32>>>,
) -> bool {
    forall|k: int|
        0 <= k < tables.len() && (#[trigger] tables[k]) is Some ==> tables[k]->0@ == table_due(
            layer,
            first,
            var,
            k,
        )
}

/// The steps of a download, one lane after the other.
proof fn lemma_download_lanes<'a>(
    helper: BatchedSumcheckGkrVanillaHelper<'a, M31x16Config>,
    replies: Seq<DeviceReply>,
    steps: Seq<GpuStep>,
    memories: Seq<Map<u64, Seq<u32>>>,
    first: bool,
    var: usize,
    tables: Vec<Option<Vec<u32>>>,
    k: int,
)
    requires
        helper.wf(),
        helper.stage == (Stage::<M31x16Config>::GpuDownload { first, var, tables }),
        helper.batched_gpu_ctx is Some,
        is_device_run(helper, replies, steps, memories),
        helper.batched_gpu_ctx->0.pack_size == 16,
        tables@.len() / 2 < helper.batched_gpu_ctx->0.n_instances,
        0 <= k <= replies.len(),
    ensures
        memories[k] == memories[0],
        k < replies.len() ==> {
            let ctx = helper.batched_gpu_ctx->0;
            let addr = if tables@.len() % 2 == 0 {
                ctx.d_bk_f
            } else {
                ctx.d_bk_hg
            };
            let num = (2 * helper@.eval_size(var as nat)) as usize;
            &&& k < 16
            &&& steps[k]->Run_0@ == (DeviceOpView::Download {
                src: at(
                    addr,
                    ((tables@.len() / 2) as usize * 16 + k) * ctx.lane_stride_ext3,
                ),
                count: (num * 3) as usize,
            })
        },
    decreases k,
{
    let count = ((2 * helper@.eval_size(var as nat)) as usize * 3) as usize;
    if k > 0 {
        lemma_download_lanes(helper, replies, steps, memories, first, var, tables, k - 1);
        assert(steps[k - 1] is Run);
    }
    if k < replies.len() {
        assert(steps[k] is Run);
        assert(helper.gpu_steps(replies.take(k), steps[k]));
    }
}

/// The words of a lane, as a download names them.
proof fn lemma_lane_read(
    memory: Map<u64, Seq<u32>>,
    ctx: BatchedGpuSumcheckContext,
    i: int,
    l: int,
    n: nat,
    of_wires: bool,
)
    requires
        has_buffers(memory, ctx),
        ctx.pack_size == 16,
        0 <= i < ctx.n_instances,
        0 <= l < 16,
        3 * n <= ctx.lane_stride_ext3,
    ensures
        ({
            let src = at(
                if of_wires {
                    ctx.d_bk_f
                } else {
                    ctx.d_bk_hg
                },
                (i * 16 + l) * ctx.lane_stride_ext3,
            );
            memory[src.addr].subrange(src.offset as int, src.offset + 3 * n) == if of_wires {
                f_lane(memory, ctx, i * 16 + l)
            } else {
                hg_lane(memory, ctx, i * 16 + l)
            }.take(3 * n as int)
        }),
{
    let lane = i * 16 + l;
    let stride = ctx.lane_stride_ext3 as int;
    assert(0 <= lane < ctx.total_batch_spec()) by (nonlinear_arith)
        requires
            0 <= i < ctx.n_instances,
            0 <= l < 16,
            lane == i * 16 + l,
            ctx.total_batch_spec() == ctx.n_instances * 16,
    ;
    lemma_lane_bounds(lane, ctx.total_batch_spec(), stride);
    lemma_stride_fits(ctx, lane, stride);
    let f = memory[ctx.d_bk_f];
    let h = memory[ctx.d_bk_hg];
    assert(f.subrange(lane * stride, lane * stride + 3 * n) =~= f_lane(memory, ctx, lane).take(
        3 * n as int,
    ));
    assert(h.subrange(lane * stride, lane * stride + 3 * n) =~= hg_lane(memory, ctx, lane).take(
        3 * n as int,
    ));
}

/// A table that comes back is the one due.
proof fn lemma_download_table<'a>(
    helper: BatchedSumcheckGkrVanillaHelper<'a, M31x16Config>,
    replies: Seq<DeviceReply>,
    steps: Seq<GpuStep>,
    memories: Seq<Map<u64, Seq<u32>>>,
    first: bool,
    var: usize,
    tables: Vec<Option<Vec<u32>>>,
)
    requires
        helper.wf(),
        helper.stage == (Stage::<M31x16Config>::GpuDownload { first, var, tables }),
        helper.batched_gpu_ctx is Some,
        is_device_run(helper, replies, steps, memories),
        holds_layer(memories[0], helper.batched_gpu_ctx->0, helper@, first, var as nat),
        steps.last()->Done_0 is Downloaded,
        steps.last()->Done_0->Downloaded_0 is Some,
    ensures
        steps.last()->Done_0->Downloaded_0->0@ == table_due(
            helper@,
            first,
            var as nat,
            tables@.len() as int,
        ),
{
    let ctx = helper.batched_gpu_ctx->0;
    let layer = helper@;
    let n = replies.len() as int;
    let t = tables@.len() as int;
    let i = t / 2;
    let size = pow2((layer.input_var_num() - var) as nat);
    assert(layer.wf());
    assert(holds_round(memories[0], ctx, layer.insts[0], first, var as nat, 0));
    lemma_large_fits(helper, var as nat);
    lemma_pow2_unfold((layer.input_var_num() - var) as nat);
    assert(steps.last() == steps[n]);
    assert(replies.take(n) =~= replies);
    assert(helper.gpu_steps(replies.take(n), steps[n]));
    let inst = layer.insts[i];
    let own = inst.recovered(first, var as nat).pad;
    assert(holds_round(memories[0], ctx, inst, first, var as nat, i));
    assert(inst.input_var_num() == layer.input_var_num());
    let count = ((2 * layer.eval_size(var as nat)) as usize * 3) as usize;
    assert(count == 3 * size);
    assert(n >= 16);
    assert forall|l: int| 0 <= l < 16 implies (#[trigger] replies[l]).download(3 * size) == Some(
        if t % 2 == 0 {
            f_lane(memories[0], ctx, i * 16 + l)
        } else {
            hg_lane(memories[0], ctx, i * 16 + l)
        }.take(3 * size as int),
    ) by {
        assert(replies[l].download(3 * size) is Some);
        lemma_download_lanes(helper, replies, steps, memories, first, var, tables, l);
        assert(steps[l] is Run);
        lemma_lane_read(memories[0], ctx, i, l, size, t % 2 == 0);
    }
    lemma_download_faithful(
        memories[0],
        ctx,
        i,
        own.v_evals,
        own.hg_evals,
        size,
        replies,
        t % 2 == 0,
    );
}

/// Tables that are due make a faithful answer.
proof fn lemma_tables_faithful(
    layer: LayerView<M31x16Config>,
    first: bool,
    var: nat,
    tables: Seq<Option<Vec<u32>>>,
)
    requires
        layer.stage == (StageView::<M31Ext3>::GpuDownload { first, var }),
        tables.len() == 2 * layer.insts.len(),
        tables_due(layer, first, var, tables),
    ensures
        is_faithful(layer, Event::Downloaded { tables: optional_lists(tables) }),
{
    let lists = optional_lists(tables);
    let size = pow2((layer.input_var_num() - var) as nat);
    assert forall|j: int| 0 <= j < layer.insts.len() implies {
        let own = (#[trigger] layer.insts[j]).recovered(first, var).pad;
        &&& lists[2 * j] is Some ==> lists[2 * j]->0 == table_words::<M31x16Config>(
            own.v_evals,
            size,
        )
        &&& lists[2 * j + 1] is Some ==> lists[2 * j + 1]->0 == table_words::<M31x16Config>(
            own.hg_evals,
            size,
        )
    } by {
        assert(tables[2 * j] is Some ==> tables[2 * j]->0@ == table_due(layer, first, var, 2 * j));
        assert(tables[2 * j + 1] is Some ==> tables[2 * j + 1]->0@ == table_due(
            layer,
            first,
            var,
            2 * j + 1,
        ));
        assert((2 * j) / 2 == j && (2 * j) % 2 == 0);
        assert((2 * j + 1) / 2 == j && (2 * j + 1) % 2 == 1);
    }
}

/// A table that comes back from the GPU is the one due, and the context still holds its tables.
pub proof fn lemma_download_run<'a>(
    helper: BatchedSumcheckGkrVanillaHelper<'a, M31x16Config>,
    replies: Seq<DeviceReply>,
    steps: Seq<GpuStep>,
    memories: Seq<Map<u64, Seq<u32>>>,
    first: bool,
    var: usize,
    tables: Vec<Option<Vec<u32>>>,
)
    requires
        helper.wf(),
        helper.stage == (Stage::<M31x16Config>::GpuDownload { first, var, tables }),
        helper.batched_gpu_ctx is Some,
        is_device_run(helper, replies, steps, memories),
        holds_layer(memories[0], helper.batched_gpu_ctx->0, helper@, first, var as nat),
        tables_due(helper@, first, var as nat, tables@),
    ensures
        ({
            let outcome = steps.last()->Done_0;
            &&& outcome is Downloaded
            &&& memories.last() == memories[0]
            &&& helper.next_ctx(outcome) == helper.batched_gpu_ctx
            &&& tables_due(helper@, first, var as nat, tables@.push(outcome->Downloaded_0))
            &&& !helper.more_tables(outcome) ==> is_faithful(
                helper@,
                helper.outcome_event(outcome),
            )
        }),
{
    let layer = helper@;
    let outcome = steps.last()->Done_0;
    let n = replies.len() as int;
    let t = tables@.len() as int;
    assert(layer.wf());
    assert(holds_round(
        memories[0],
        helper.batched_gpu_ctx->0,
        layer.insts[0],
        first,
        var as nat,
        0,
    ));
    lemma_large_fits(helper, var as nat);
    assert(steps.last() == steps[n]);
    assert(helper.gpu_steps(replies.take(n), steps[n]));
    lemma_download_lanes(helper, replies, steps, memories, first, var, tables, n);
    if outcome->Downloaded_0 is Some {
        lemma_download_table(helper, replies, steps, memories, first, var, tables);
    }
    let all = tables@.push(outcome->Downloaded_0);
    assert forall|k: int| 0 <= k < all.len() && (#[trigger] all[k]) is Some implies all[k]->0@
        == table_due(layer, first, var as nat, k) by {
        if k < t {
            assert(all[k] == tables@[k]);
        }
    }
    if !helper.more_tables(outcome) {
        lemma_tables_faithful(layer, first, var as nat, all);
    }
}

/// The offset of a lane can be represented.
proof fn lemma_stride_fits(ctx: BatchedGpuSumcheckContext, lane: int, stride: int)
    requires
        ctx.wf(),
        0 <= lane < ctx.total_batch_spec(),
        stride == ctx.lane_stride_ext3,
    ensures
        0 <= lane * stride <= usize::MAX,
        at(ctx.d_bk_f, lane * stride).offset == lane * stride,
        at(ctx.d_bk_hg, lane * stride).offset == lane * stride,
{
    let (n, pack, num) = (
        ctx.n_instances as int,
        ctx.pack_size as int,
        ctx.lane_stride_base as int,
    );
    assert(0 <= lane * stride <= n * (pack * num * 3) * 4) by (nonlinear_arith)
        requires
            0 <= lane < n * pack,
            stride == num * 3,
            num >= 0,
            n >= 1,
            pack >= 0,
    ;
}

// ---------------------------------------------------------------------------
// Setting up
// ---------------------------------------------------------------------------

/// Where all replies are good, nothing has failed.
proof fn lemma_all_good(replies: Seq<DeviceReply>, all: Seq<DeviceReply>, k: nat)
    requires
        k <= replies.len(),
        k <= all.len(),
        forall|j: int| 0 <= j < k ==> #[trigger] replies[j] == all[j],
        forall|j: int| 0 <= j < k ==> setup_reply_good(#[trigger] all[j], j),
    ensures
        setup_progress(replies, k) == k,
    decreases k,
{
    if k > 0 {
        lemma_all_good(replies, all, (k - 1) as nat);
        assert(replies[k - 1] == all[k - 1]);
    }
}

/// A setup that has come to a context has gone through ten operations, and all went well.
proof fn lemma_setup_steps<'a>(
    helper: BatchedSumcheckGkrVanillaHelper<'a, M31x16Config>,
    replies: Seq<DeviceReply>,
    steps: Seq<GpuStep>,
    memories: Seq<Map<u64, Seq<u32>>>,
    first: bool,
    image: ContextImage,
)
    requires
        helper.stage == (Stage::<M31x16Config>::GpuSetup { first, image }),
        is_device_run(helper, replies, steps, memories),
        steps.last()->Done_0 is SetUp,
        steps.last()->Done_0->SetUp_0 is Some,
    ensures
        replies.len() == 10,
        steps.last()->Done_0->SetUp_0->0 == setup_context(image, replies),
        forall|k: int| 0 <= k < 10 ==> setup_reply_good(#[trigger] replies[k], k),
        forall|k: int|
            0 <= k < 10 ==> (#[trigger] steps[k])->Run_0@ == setup_op(image, replies.take(k), k),
{
    let n = replies.len() as int;
    assert(steps.last() == steps[n]);
    assert(replies.take(n) =~= replies);
    assert(helper.gpu_steps(replies.take(n), steps[n]));
    let seen = if n < 10 {
        n as nat
    } else {
        10
    };
    lemma_setup_progress(replies, seen);
    assert(setup_progress(replies, seen) == 10);
    if n > 10 {
        let front = replies.take(10);
        assert(steps[10] is Run);
        assert(helper.gpu_steps(front, steps[10]));
        lemma_all_good(front, replies, 10);
        assert(false);
    }
    assert forall|k: int| 0 <= k < 10 implies (#[trigger] steps[k])->Run_0@ == setup_op(
        image,
        replies.take(k),
        k,
    ) by {
        let front = replies.take(k);
        assert(steps[k] is Run);
        assert(helper.gpu_steps(front, steps[k]));
        lemma_all_good(front, replies, k as nat);
    }
}

/// The allocations of a setup, once `k` of them are made.
spec fn allocated(
    memory: Map<u64, Seq<u32>>,
    image: ContextImage,
    replies: Seq<DeviceReply>,
    k: int,
) -> bool {
    &&& forall|j: int|
        0 <= j < k ==> {
            let addr = (#[trigger] replies[j]).address()->0;
            &&& memory.contains_key(addr)
            &&& 4 * memory[addr].len() == buffer_bytes(
                image.n_instances as int,
                image.pack_size as int,
                image.input_size as int,
                j,
            ) as usize
        }
    &&& forall|a: int, b: int|
        0 <= a < b < k ==> (#[trigger] replies[a]).address()->0 != (
        #[trigger] replies[b]).address()->0
}

proof fn lemma_allocated(
    image: ContextImage,
    replies: Seq<DeviceReply>,
    memories: Seq<Map<u64, Seq<u32>>>,
    ops: Seq<DeviceOpView>,
    k: int,
)
    requires
        0 <= k <= 7,
        replies.len() == 10,
        memories.len() == 11,
        ops.len() == 10,
        forall|j: int| 0 <= j < 10 ==> setup_reply_good(#[trigger] replies[j], j),
        forall|j: int| 0 <= j < 10 ==> #[trigger] ops[j] == setup_op(image, replies.take(j), j),
        forall|j: int|
            0 <= j < 10 ==> is_honest(memories[j], #[trigger] ops[j], replies[j], memories[j + 1]),
    ensures
        allocated(memories[k], image, replies, k),
    decreases k,
{
    if k > 0 {
        let j = k - 1;
        lemma_allocated(image, replies, memories, ops, j);
        assert(setup_reply_good(replies[j], j));
        assert(ops[j] == setup_op(image, replies.take(j), j));
        let addr = replies[j].address()->0;
        assert(!memories[j].contains_key(addr));
        assert forall|a: int| 0 <= a < j implies (#[trigger] replies[a]).address()->0 != addr
            && memories[k].contains_key(replies[a].address()->0)
            && memories[k][replies[a].address()->0] == memories[j][replies[a].address()->0] by {
            assert(memories[j].contains_key(replies[a].address()->0));
        }
    }
}

/// A context that a setup comes to holds the tables that the phase starts from.
pub proof fn lemma_setup_run<'a>(
    helper: BatchedSumcheckGkrVanillaHelper<'a, M31x16Config>,
    replies: Seq<DeviceReply>,
    steps: Seq<GpuStep>,
    memories: Seq<Map<u64, Seq<u32>>>,
    first: bool,
    image: ContextImage,
)
    requires
        helper.wf(),
        helper.stage == (Stage::<M31x16Config>::GpuSetup { first, image }),
        is_device_run(helper, replies, steps, memories),
        image.input_size * 3 <= u32::MAX,
        image.n_instances * image.pack_size <= u32::MAX,
        steps.last()->Done_0 is SetUp,
        steps.last()->Done_0->SetUp_0 is Some,
    ensures
        ({
            let outcome = steps.last()->Done_0;
            let next = helper@.step(helper.outcome_event(outcome)).0;
            &&& helper.next_ctx(outcome) is Some
            &&& next.gpu
            &&& holds_layer(memories.last(), helper.next_ctx(outcome)->0, next, first, 0)
        }),
{
    let layer = helper@;
    let outcome = steps.last()->Done_0;
    let ctx = setup_context(image, replies);
    let next = layer.step(helper.outcome_event(outcome)).0;
    lemma_setup_steps(helper, replies, steps, memories, first, image);
    let ops = Seq::new(10, |k: int| steps[k]->Run_0@);
    assert forall|j: int| 0 <= j < 10 implies #[trigger] ops[j] == setup_op(
        image,
        replies.take(j),
        j,
    ) && is_honest(memories[j], ops[j], replies[j], memories[j + 1]) by {
        assert(steps[j] is Run);
    }
    lemma_allocated(image, replies, memories, ops, 7);
    lemma_pow2_pos(layer.input_var_num());
    lemma_context_buffers(memories[7], image, replies);
    lemma_uploaded(image, replies, memories, ops);
    assert(layer.wf());
    M31x16Config::law_pack_size();
    assert(next.insts == layer.insts);
    assert(next.gpu);
    assert(memories.last() == memories[10]);
    lemma_set_up_lanes(memories[7], image, replies);
    assert forall|i: int| 0 <= i < next.insts.len() implies holds_round(
        memories.last(),
        ctx,
        #[trigger] next.insts[i],
        first,
        0,
        i,
    ) by {
        let inst = layer.insts[i];
        let num = image.input_size as nat;
        let vals = inst.layer.input_vals@;
        assert(inst.wf());
        assert(inst.input_var_num() == layer.input_var_num());
        lemma_set_up_tables(memories[7], image, replies, i, inst.pad.hg_evals, vals);
        let tables = inst.recovered(first, 0).pad;
        assert forall|l: int| 0 <= l < 16 implies #[trigger] lane_of(tables.v_evals, l, num)
            == lane_of(promoted::<M31x16Config>(vals), l, num) by {
            assert(lane_of(tables.v_evals, l, num) =~= lane_of(
                promoted::<M31x16Config>(vals),
                l,
                num,
            ));
        }
        let after = memories.last();
        assert(tables.hg_evals == inst.pad.hg_evals);
        assert(holds_tables(
            after,
            ctx,
            i,
            promoted::<M31x16Config>(vals),
            inst.pad.hg_evals,
            num,
        ));
        assert forall|l: int| 0 <= l < 16 implies {
            &&& #[trigger] elements(f_lane(after, ctx, i * 16 + l), num) == lane_of(
                tables.v_evals,
                l,
                num,
            )
            &&& elements(hg_lane(after, ctx, i * 16 + l), num) == lane_of(
                tables.hg_evals,
                l,
                num,
            )
        } by {
            let own = promoted::<M31x16Config>(vals);
            assert(elements(f_lane(after, ctx, i * 16 + l), num) == lane_of(own, l, num));
            assert(elements(hg_lane(after, ctx, i * 16 + l), num) == lane_of(
                inst.pad.hg_evals,
                l,
                num,
            ));
            assert(lane_of(tables.v_evals, l, num) == lane_of(
                promoted::<M31x16Config>(vals),
                l,
                num,
            ));
        }
    }
}

/// The seven allocations are buffers for a context.
proof fn lemma_context_buffers(
    memory: Map<u64, Seq<u32>>,
    image: ContextImage,
    replies: Seq<DeviceReply>,
)
    requires
        image.wf(),
        image.input_size >= 1,
        image.input_size * 3 <= u32::MAX,
        image.n_instances * image.pack_size <= u32::MAX,
        replies.len() == 10,
        allocated(memory, image, replies, 7),
    ensures
        has_buffers(memory, setup_context(image, replies)),
{
    let ctx = setup_context(image, replies);
    let (n, pack, num) = (
        image.n_instances as int,
        image.pack_size as int,
        image.input_size as int,
    );
    assert(n * (pack * num * 3) == n * pack * (num * 3)) by (nonlinear_arith);
    assert(n * (pack * num) == n * pack * num) by (nonlinear_arith);
    assert(0 <= n * (pack * num) * 4 <= n * (pack * num * 3) * 4) by (nonlinear_arith)
        requires
            n >= 0,
            pack >= 0,
            num >= 0,
    ;
    assert(0 <= n * pack * 3 * 4 <= n * pack * 9 * 4) by (nonlinear_arith)
        requires
            n >= 0,
            pack >= 0,
    ;
    let b = ctx.buffers();
    assert forall|j: int| 0 <= j < 7 implies #[trigger] b[j] == replies[j].address()->0 by {}
    assert forall|j: int| 0 <= j < 7 implies 4 * memory[#[trigger] b[j]].len() == buffer_bytes(
        n,
        pack,
        num,
        j,
    ) by {
        assert(b[j] == replies[j].address()->0);
    }
    assert(4 * memory[b[0]].len() == buffer_bytes(n, pack, num, 0));
    assert(4 * memory[b[1]].len() == buffer_bytes(n, pack, num, 1));
    assert(4 * memory[b[2]].len() == buffer_bytes(n, pack, num, 2));
    assert(4 * memory[b[3]].len() == buffer_bytes(n, pack, num, 3));
    assert(4 * memory[b[4]].len() == buffer_bytes(n, pack, num, 4));
    assert(4 * memory[b[5]].len() == buffer_bytes(n, pack, num, 5));
    assert(4 * memory[b[6]].len() == buffer_bytes(n, pack, num, 6));
    assert forall|x: int, y: int| 0 <= x < 7 && 0 <= y < 7 && x != y implies b[x] != b[y] by {
        if x < y {
            assert(replies[x].address()->0 != replies[y].address()->0);
        } else {
            assert(replies[y].address()->0 != replies[x].address()->0);
        }
    }
}

/// The three uploads have their effect.
proof fn lemma_uploaded(
    image: ContextImage,
    replies: Seq<DeviceReply>,
    memories: Seq<Map<u64, Seq<u32>>>,
    ops: Seq<DeviceOpView>,
)
    requires
        replies.len() == 10,
        memories.len() == 11,
        ops.len() == 10,
        forall|j: int| 0 <= j < 10 ==> setup_reply_good(#[trigger] replies[j], j),
        forall|j: int| 0 <= j < 10 ==> #[trigger] ops[j] == setup_op(image, replies.take(j), j),
        forall|j: int|
            0 <= j < 10 ==> is_honest(memories[j], #[trigger] ops[j], replies[j], memories[j + 1]),
    ensures
        memories[10] == set_up(memories[7], image, replies),
{
    let uploads = seq![
        setup_op(image, replies, 7),
        setup_op(image, replies, 8),
        setup_op(image, replies, 9),
    ];
    assert forall|j: int| 7 <= j < 10 implies #[trigger] ops[j] == uploads[j - 7] && memories[j + 1]
        == effect(memories[j], ops[j]) by {
        assert(setup_reply_good(replies[j], j));
    }
    assert(ops[7] == uploads[0] && ops[8] == uploads[1] && ops[9] == uploads[2]);
    assert(effects(memories[7], uploads, 0) == memories[7]);
    assert(effects(memories[7], uploads, 1) == memories[8]);
    assert(effects(memories[7], uploads, 2) == memories[9]);
    assert(effects(memories[7], uploads, 3) == memories[10]);
}

// ---------------------------------------------------------------------------
// Single lanes
// ---------------------------------------------------------------------------

/// A procedure that goes through these steps on such a machine, to its end.
pub open spec fn is_honest_run<T>(
    replies: Seq<DeviceReply>,
    steps: Seq<DeviceStep<T>>,
    memories: Seq<Map<u64, Seq<u32>>>,
) -> bool {
    &&& steps.len() == replies.len() + 1
    &&& memories.len() == steps.len()
    &&& forall|k: int|
        0 <= k < replies.len() ==> {
            &&& #[trigger] steps[k] is Run
            &&& is_honest(memories[k], steps[k]->Run_0@, replies[k], memories[k + 1])
        }
    &&& steps.last() is Finished
}

/// A result of the evaluation of one lane is made of the three sums over its pairs, in order; and
/// whatever it comes to, the last operation gives the room for the result back.
pub proof fn lemma_lane_eval_run(
    d_bk_f: DevicePtr,
    d_bk_hg: DevicePtr,
    eval_size: usize,
    replies: Seq<DeviceReply>,
    steps: Seq<DeviceStep<Option<GpuPolyEvalResult>>>,
    memories: Seq<Map<u64, Seq<u32>>>,
)
    requires
        is_honest_run(replies, steps, memories),
        forall|k: int|
            0 <= k < steps.len() ==> lane_eval_steps(
                d_bk_f,
                d_bk_hg,
                eval_size,
                replies.take(k),
                #[trigger] steps[k],
            ),
        memories[0].contains_key(d_bk_f.addr),
        memories[0].contains_key(d_bk_hg.addr),
        eval_size <= u32::MAX,
    ensures
        steps.last()->Finished_0 matches Some(sums) ==> {
            let f = memories[0][d_bk_f.addr].skip(d_bk_f.offset as int);
            let h = memories[0][d_bk_hg.addr].skip(d_bk_hg.offset as int);
            sums.p0_limbs@ + sums.p1_limbs@ + sums.p2_limbs@ == lane_sums(f, h, eval_size as nat)
        },
        replies.len() > 0 && replies[0].address() is Some ==> steps[replies.len() - 1]->Run_0@ == (
        DeviceOpView::Free { addr: replies[0].address()->0 }),
{
    let n = replies.len() as int;
    assert(steps.last() == steps[n]);
    assert(replies.take(n) =~= replies);
    assert(lane_eval_steps(d_bk_f, d_bk_hg, eval_size, replies.take(n), steps[n]));
    if n > 0 {
        assert(steps[0] is Run);
        assert(lane_eval_steps(d_bk_f, d_bk_hg, eval_size, replies.take(0), steps[0]));
    }
    if n > 1 {
        assert(replies.take(1)[0] == replies[0]);
        assert(steps[1] is Run);
        assert(lane_eval_steps(d_bk_f, d_bk_hg, eval_size, replies.take(1), steps[1]));
    }
    if n > 2 {
        let front = replies.take(2);
        assert(front[0] == replies[0] && front[1] == replies[1]);
        assert(steps[2] is Run);
        assert(lane_eval_steps(d_bk_f, d_bk_hg, eval_size, front, steps[2]));
    }
    if n > 3 {
        let front = replies.take(3);
        assert(front[0] == replies[0] && front[1] == replies[1] && front[2] == replies[2]);
        assert(steps[3] is Run);
        assert(lane_eval_steps(d_bk_f, d_bk_hg, eval_size, front, steps[3]));
    }
    if n > 4 {
        let front = replies.take(4);
        assert(front[0] == replies[0] && front[1] == replies[1] && front[2] == replies[2]);
        assert(steps[4] is Run);
        assert(lane_eval_steps(d_bk_f, d_bk_hg, eval_size, front, steps[4]));
        assert(false);
    }
    if steps[n]->Finished_0 is Some {
        let sums = steps[n]->Finished_0->0;
        let addr = replies[0].address()->0;
        let words = replies[2].download(9)->0;
        assert(n == 4);
        assert(memories[1] == memories[0].insert(addr, memories[1][addr]));
        let f = memories[0][d_bk_f.addr].skip(d_bk_f.offset as int);
        let h = memories[0][d_bk_hg.addr].skip(d_bk_hg.offset as int);
        let want = lane_sums(f, h, eval_size as nat);
        assert(memories[2] == effect(memories[1], steps[1]->Run_0@));
        assert(memories[2][addr] == overwritten(memories[1][addr], 0, want));
        assert(want.len() == 9);
        assert(words =~= want);
        assert(sums.p0_limbs@ + sums.p1_limbs@ + sums.p2_limbs@ =~= words);
    }
}

/// A fold of one lane that says that it is done leaves both tables folded at the challenge, the
/// wire table from the wire values in the first round.
pub proof fn lemma_lane_fold_run(
    d_bk_f: DevicePtr,
    d_bk_hg: DevicePtr,
    d_challenge_r: DevicePtr,
    eval_size: usize,
    first_round: bool,
    d_init_v: DevicePtr,
    replies: Seq<DeviceReply>,
    steps: Seq<DeviceStep<bool>>,
    memories: Seq<Map<u64, Seq<u32>>>,
)
    requires
        is_honest_run(replies, steps, memories),
        forall|k: int|
            0 <= k < steps.len() ==> lane_fold_steps(
                d_bk_f,
                d_bk_hg,
                d_challenge_r,
                eval_size,
                first_round,
                d_init_v,
                replies.take(k),
                #[trigger] steps[k],
            ),
        d_bk_f.addr != d_bk_hg.addr,
        eval_size <= u32::MAX,
        steps.last()->Finished_0,
    ensures
        ({
            let (before, after) = (memories[0], memories.last());
            let n = eval_size as nat;
            let r = element(before[d_challenge_r.addr], d_challenge_r.offset as int);
            let f = before[d_bk_f.addr].skip(d_bk_f.offset as int);
            let h = before[d_bk_hg.addr].skip(d_bk_hg.offset as int);
            let v = before[d_init_v.addr].skip(d_init_v.offset as int);
            let source = if first_round {
                base_elements(v, 2 * n)
            } else {
                elements(f, 2 * n)
            };
            &&& after[d_bk_f.addr] == overwritten(
                before[d_bk_f.addr],
                d_bk_f.offset as int,
                lane_folded(source, r, n, f),
            )
            &&& after[d_bk_hg.addr] == overwritten(
                before[d_bk_hg.addr],
                d_bk_hg.offset as int,
                lane_folded(elements(h, 2 * n), r, n, h),
            )
        }),
{
    let n = replies.len() as int;
    assert(steps.last() == steps[n]);
    assert(replies.take(n) =~= replies);
    assert(lane_fold_steps(
        d_bk_f,
        d_bk_hg,
        d_challenge_r,
        eval_size,
        first_round,
        d_init_v,
        replies.take(n),
        steps[n],
    ));
    assert(n > 0);
    assert(steps[0] is Run);
    assert(lane_fold_steps(
        d_bk_f,
        d_bk_hg,
        d_challenge_r,
        eval_size,
        first_round,
        d_init_v,
        replies.take(0),
        steps[0],
    ));
    if n > 1 {
        assert(steps[1] is Run);
        assert(lane_fold_steps(
            d_bk_f,
            d_bk_hg,
            d_challenge_r,
            eval_size,
            first_round,
            d_init_v,
            replies.take(1),
            steps[1],
        ));
        assert(false);
    }
    assert(memories[1] == effect(memories[0], steps[0]->Run_0@));
}

// ---------------------------------------------------------------------------
// Contexts of one instance
// ---------------------------------------------------------------------------

/// The results of an evaluation of one instance are the words of the round's sums.
pub proof fn lemma_single_eval_run(
    one: GpuSumcheckContext,
    inst: InstView<M31x16Config>,
    first: bool,
    var: nat,
    eval_size: usize,
    replies: Seq<DeviceReply>,
    steps: Seq<DeviceStep<Option<[[u32; 9]; 16]>>>,
    memories: Seq<Map<u64, Seq<u32>>>,
)
    requires
        one.wf(),
        one.batch.pack_size == 16,
        inst.wf(),
        var < inst.input_var_num(),
        eval_size == inst.eval_size(var),
        eval_size <= u32::MAX,
        holds_round(memories[0], one.batch, inst, first, var, 0),
        is_honest_run(replies, steps, memories),
        forall|k: int|
            0 <= k < steps.len() ==> one.eval_steps(
                eval_size,
                replies.take(k),
                #[trigger] steps[k],
            ),
    ensures
        steps.last()->Finished_0 matches Some(lanes) ==> results_faithful(
            inst.recovered(first, var),
            var,
            lanes,
        ),
        holds_round(memories.last(), one.batch, inst, first, var, 0),
{
    let ctx = one.batch;
    let n = replies.len() as int;
    assert(steps.last() == steps[n]);
    assert(replies.take(n) =~= replies);
    assert(one.eval_steps(eval_size, replies.take(n), steps[n]));
    assert(one.eval_steps(eval_size, replies.take(0), steps[0]));
    assert(n > 0);
    assert(steps[0] is Run);
    assert(ctx.total_batch_spec() == 16);
    assert(steps[0]->Run_0@ == eval_op(ctx, eval_size));
    lemma_eval_changes(memories[0], ctx, eval_size);
    assert(only_changes(memories[0], memories[1], ctx.d_result));
    lemma_round_kept(memories[0], memories[1], ctx, inst, first, var, 0);
    if n >= 2 {
        assert(replies.take(1)[0] == replies[0]);
        assert(one.eval_steps(eval_size, replies.take(1), steps[1]));
        assert(steps[1] is Run);
        assert(memories[2] == memories[1]);
    }
    if n >= 3 {
        assert(replies.take(2)[0] == replies[0] && replies.take(2)[1] == replies[1]);
        assert(one.eval_steps(eval_size, replies.take(2), steps[2]));
        assert(steps[2] is Run);
        assert(false);
    }
    if steps[n]->Finished_0 is Some {
        let lanes = steps[n]->Finished_0->0;
        let words = replies[1].download(144)->0;
        assert(words =~= memories[1][ctx.d_result].take(144));
        lemma_pow2_unfold((inst.input_var_num() - var) as nat);
        lemma_eval_faithful(
            memories[0],
            ctx,
            inst,
            first,
            var,
            eval_size,
            words,
            seq![lanes],
            0,
        );
    }
}

/// A fold of one instance that says that it is done leaves, in the buffers of the context that it
/// leaves, the tables of the next round.
pub proof fn lemma_single_fold_run(
    one: GpuSumcheckContext,
    inst: InstView<M31x16Config>,
    first: bool,
    var: usize,
    eval_size: usize,
    r: Seq<u32>,
    replies: Seq<DeviceReply>,
    steps: Seq<DeviceStep<bool>>,
    memories: Seq<Map<u64, Seq<u32>>>,
)
    requires
        one.wf(),
        one.batch.pack_size == 16,
        one.batch.lane_stride_base == pow2(inst.input_var_num()),
        inst.wf(),
        var < inst.input_var_num(),
        var < inst.phase_challenges(first).len(),
        eval_size == inst.eval_size(var as nat),
        eval_size <= u32::MAX,
        r.len() == 3,
        r == M31x16Config::challenge_limbs_spec(inst.phase_challenges(first)[var as int]),
        holds_round(memories[0], one.batch, inst, first, var as nat, 0),
        is_honest_run(replies, steps, memories),
        forall|k: int|
            0 <= k < steps.len() ==> one.fold_steps(
                eval_size,
                var,
                r,
                replies.take(k),
                #[trigger] steps[k],
            ),
        steps.last()->Finished_0,
    ensures
        holds_round(
            memories.last(),
            one.after_fold(var, true).batch,
            inst,
            first,
            (var + 1) as nat,
            0,
        ),
{
    let ctx = one.batch;
    let rs = seq![r];
    let ops = ctx.fold_ops(eval_size, var, rs);
    let n = replies.len() as int;
    assert(steps.last() == steps[n]);
    assert(replies.take(n) =~= replies);
    assert(one.fold_steps(eval_size, var, r, replies.take(n), steps[n]));
    if n > ops.len() {
        let k = ops.len() as int;
        assert(steps[k] is Run);
        assert(one.fold_steps(eval_size, var, r, replies.take(k), steps[k]));
        assert forall|j: int| 0 <= j < k implies (#[trigger] replies.take(k)[j]).succeeded() by {
            assert(replies[j].succeeded());
        }
        assert(false);
    }
    assert(n == ops.len());
    assert forall|j: int| 0 <= j < n implies (#[trigger] steps[j])->Run_0@ == ops[j] by {
        assert(one.fold_steps(eval_size, var, r, replies.take(j), steps[j]));
        assert forall|q: int| 0 <= q < j implies (#[trigger] replies.take(j)[q]).succeeded() by {
            assert(replies[q].succeeded());
        }
    }
    lemma_fold_kinds(ctx, eval_size, var, rs);
    lemma_single_fold_reached(replies, steps, memories, ops, ops.len());
    lemma_fold_tables(memories[0], ctx, inst, first, var, eval_size, rs, 0);
}

proof fn lemma_single_fold_reached(
    replies: Seq<DeviceReply>,
    steps: Seq<DeviceStep<bool>>,
    memories: Seq<Map<u64, Seq<u32>>>,
    ops: Seq<DeviceOpView>,
    k: nat,
)
    requires
        is_honest_run(replies, steps, memories),
        k <= replies.len(),
        k <= ops.len(),
        forall|j: int| 0 <= j < ops.len() ==> ops[j] is Upload || ops[j] is ReceiveChallenge
            || (#[trigger] ops[j]) is ReceiveChallengeBatched,
        forall|j: int| 0 <= j < k ==> (#[trigger] replies[j]).succeeded(),
        forall|j: int| 0 <= j < k ==> (#[trigger] steps[j])->Run_0@ == ops[j],
    ensures
        memories[k as int] == effects(memories[0], ops, k),
    decreases k,
{
    if k > 0 {
        let j = k - 1;
        lemma_single_fold_reached(replies, steps, memories, ops, j as nat);
        assert(steps[j] is Run);
        assert(replies[j].succeeded());
        assert(ops[j] is Upload || ops[j] is ReceiveChallenge || ops[j] is ReceiveChallengeBatched);
    }
}

/// The steps of a download of one instance, one lane after the other.
proof fn lemma_single_lanes(
    one: GpuSumcheckContext,
    of_wires: bool,
    num: usize,
    replies: Seq<DeviceReply>,
    steps: Seq<DeviceStep<Option<Vec<u32>>>>,
    memories: Seq<Map<u64, Seq<u32>>>,
    k: int,
)
    requires
        one.wf(),
        one.batch.pack_size == 16,
        is_honest_run(replies, steps, memories),
        forall|j: int|
            0 <= j < steps.len() ==> one.download_steps(
                of_wires,
                num,
                replies.take(j),
                #[trigger] steps[j],
            ),
        0 <= k <= replies.len(),
    ensures
        memories[k] == memories[0],
        k < replies.len() ==> {
            let ctx = one.batch;
            let addr = if of_wires {
                ctx.d_bk_f
            } else {
                ctx.d_bk_hg
            };
            &&& k < 16
            &&& steps[k]->Run_0@ == (DeviceOpView::Download {
                src: at(addr, (0 * 16 + k) * ctx.lane_stride_ext3),
                count: (num * 3) as usize,
            })
        },
    decreases k,
{
    if k > 0 {
        lemma_single_lanes(one, of_wires, num, replies, steps, memories, k - 1);
        assert(steps[k - 1] is Run);
    }
    if k < replies.len() {
        assert(steps[k] is Run);
        assert(one.download_steps(of_wires, num, replies.take(k), steps[k]));
    }
}

/// A table of one instance that comes back is the one that the context holds.
pub proof fn lemma_single_download_run(
    one: GpuSumcheckContext,
    inst: InstView<M31x16Config>,
    first: bool,
    var: nat,
    of_wires: bool,
    num: usize,
    replies: Seq<DeviceReply>,
    steps: Seq<DeviceStep<Option<Vec<u32>>>>,
    memories: Seq<Map<u64, Seq<u32>>>,
)
    requires
        one.wf(),
        one.batch.pack_size == 16,
        num == pow2((inst.input_var_num() - var) as nat),
        num <= one.batch.lane_stride_base,
        holds_round(memories[0], one.batch, inst, first, var, 0),
        is_honest_run(replies, steps, memories),
        forall|k: int|
            0 <= k < steps.len() ==> one.download_steps(
                of_wires,
                num,
                replies.take(k),
                #[trigger] steps[k],
            ),
    ensures
        memories.last() == memories[0],
        steps.last()->Finished_0 matches Some(words) ==> words@ == table_words::<M31x16Config>(
            if of_wires {
                inst.recovered(first, var).pad.v_evals
            } else {
                inst.recovered(first, var).pad.hg_evals
            },
            num as nat,
        ),
{
    let ctx = one.batch;
    let n = replies.len() as int;
    let size = num as nat;
    let own = inst.recovered(first, var).pad;
    assert(steps.last() == steps[n]);
    assert(replies.take(n) =~= replies);
    assert(one.download_steps(of_wires, num, replies.take(n), steps[n]));
    lemma_single_lanes(one, of_wires, num, replies, steps, memories, n);
    if steps[n]->Finished_0 is Some {
        assert((num * 3) as usize == 3 * size);
        assert(n >= 16);
        assert forall|l: int| 0 <= l < 16 implies (#[trigger] replies[l]).download(3 * size)
            == Some(
            if of_wires {
                f_lane(memories[0], ctx, 0 * 16 + l)
            } else {
                hg_lane(memories[0], ctx, 0 * 16 + l)
            }.take(3 * size as int),
        ) by {
            assert(replies[l].download(3 * size) is Some);
            lemma_single_lanes(one, of_wires, num, replies, steps, memories, l);
            assert(steps[l] is Run);
            lemma_lane_read(memories[0], ctx, 0, l, size, of_wires);
        }
        lemma_download_faithful(
            memories[0],
            ctx,
            0,
            own.v_evals,
            own.hg_evals,
            size,
            replies,
            of_wires,
        );
    }
}

} // verus!
