//! What a GPU does that runs its kernels as they are described, and what follows for the contexts
//! that keep tables there: an instance's lanes fare in a batch as they fare alone, and the first
//! fold, which reads base-field values, is the fold of the promoted values. A context for one
//! instance is a batch of one.

use vstd::arithmetic::div_mod::lemma_fundamental_div_mod_converse;
use vstd::prelude::*;

use crate::cuda_dispatch::{
    at, base_words, ext3_words, setup_context, setup_op, start_of, BatchedGpuSumcheckContext,
    ContextImage,
};
use crate::device::{DeviceOpView, DevicePtr, DeviceReply};
use crate::layout;
use crate::lockstep::only;
use crate::m31::{M31Ext3, M31};
use crate::poly::line_at;
use crate::product_gate::pair_sums;

verus! {

// ---------------------------------------------------------------------------
// Kernels
// ---------------------------------------------------------------------------

/// The element of three limbs at a word.
pub open spec fn element(words: Seq<u32>, at: int) -> M31Ext3 {
    M31Ext3 { c0: M31 { v: words[at] }, c1: M31 { v: words[at + 1] }, c2: M31 { v: words[at + 2] } }
}

/// The limbs of an element.
pub open spec fn limbs(x: M31Ext3) -> Seq<u32> {
    seq![x.c0.v, x.c1.v, x.c2.v]
}

/// The first `n` elements of a lane.
pub open spec fn elements(lane: Seq<u32>, n: nat) -> Seq<M31Ext3> {
    Seq::new(n, |k: int| element(lane, 3 * k))
}

/// The first `n` base-field values of a lane, promoted.
pub open spec fn base_elements(lane: Seq<u32>, n: nat) -> Seq<M31Ext3> {
    Seq::new(
        n,
        |k: int| M31Ext3 { c0: M31 { v: lane[k] }, c1: M31 { v: 0 }, c2: M31 { v: 0 } },
    )
}

/// The limbs of the three sums over the pairs of a lane.
pub open spec fn lane_sums(f: Seq<u32>, h: Seq<u32>, n: nat) -> Seq<u32> {
    let sums = pair_sums(
        elements(f, 2 * n),
        elements(h, 2 * n),
        Seq::new(2 * n, |k: int| true),
        n,
    );
    limbs(sums.0) + limbs(sums.1) + limbs(sums.2)
}

/// The lane `before` once its first `n` elements are those of the table `t` folded at `r`.
pub open spec fn lane_folded(t: Seq<M31Ext3>, r: M31Ext3, n: nat, before: Seq<u32>) -> Seq<u32> {
    Seq::new(
        before.len(),
        |w: int|
            if w < 3 * n {
                limbs(line_at(t[2 * (w / 3)], t[2 * (w / 3) + 1], r))[w % 3]
            } else {
                before[w]
            },
    )
}

/// The words of a lane, the lanes being `stride` words apart from `offset` on.
pub open spec fn window(words: Seq<u32>, offset: int, lane: int, stride: int) -> Seq<u32> {
    words.subrange(offset + lane * stride, offset + lane * stride + stride)
}

/// The words `before` once each of `lanes` lanes has become what `result` gives for it.
pub open spec fn over_lanes(
    before: Seq<u32>,
    offset: int,
    lanes: int,
    stride: int,
    result: spec_fn(int) -> Seq<u32>,
) -> Seq<u32> {
    Seq::new(
        before.len(),
        |w: int|
            if offset <= w < offset + lanes * stride {
                result((w - offset) / stride)[(w - offset) % stride]
            } else {
                before[w]
            },
    )
}

/// The words `before` with others written over them from a word on.
pub open spec fn overwritten(before: Seq<u32>, at: int, words: Seq<u32>) -> Seq<u32> {
    Seq::new(
        before.len(),
        |w: int|
            if at <= w < at + words.len() {
                words[w - at]
            } else {
                before[w]
            },
    )
}

/// What an operation that succeeds does to the device's memory, by allocation. A new allocation is
/// known by the address in its reply and is not entered here.
pub open spec fn effect(memory: Map<u64, Seq<u32>>, op: DeviceOpView) -> Map<u64, Seq<u32>> {
    match op {
        DeviceOpView::Upload { dst, words } => memory.insert(
            dst.addr,
            overwritten(memory[dst.addr], dst.offset as int, words),
        ),
        DeviceOpView::PolyEvalBatched { bk_f, bk_hg, result, eval_size, batch_size, stride } =>
            memory.insert(
            result.addr,
            over_lanes(
                memory[result.addr],
                result.offset as int,
                batch_size as int,
                9,
                |lane: int|
                    lane_sums(
                        window(memory[bk_f.addr], bk_f.offset as int, lane, stride as int),
                        window(memory[bk_hg.addr], bk_hg.offset as int, lane, stride as int),
                        eval_size as nat,
                    ),
            ),
        ),
        DeviceOpView::ReceiveChallenge {
            bk_f,
            bk_hg,
            challenge,
            eval_size,
            first_round,
            init_v,
        } => {
            let n = eval_size as nat;
            let r = element(memory[challenge.addr], challenge.offset as int);
            let f = memory[bk_f.addr].skip(bk_f.offset as int);
            let h = memory[bk_hg.addr].skip(bk_hg.offset as int);
            let v = memory[init_v.addr].skip(init_v.offset as int);
            let source = if first_round {
                base_elements(v, 2 * n)
            } else {
                elements(f, 2 * n)
            };
            memory.insert(
                bk_f.addr,
                overwritten(
                    memory[bk_f.addr],
                    bk_f.offset as int,
                    lane_folded(source, r, n, f),
                ),
            ).insert(
                bk_hg.addr,
                overwritten(
                    memory[bk_hg.addr],
                    bk_hg.offset as int,
                    lane_folded(elements(h, 2 * n), r, n, h),
                ),
            )
        },
        DeviceOpView::ReceiveChallengeBatched {
            bk_f,
            bk_hg,
            bk_f_out,
            bk_hg_out,
            challenge,
            eval_size,
            batch_size,
            stride,
        } => memory.insert(
            bk_f_out.addr,
            fold_lanes(memory, bk_f, bk_f_out, challenge, eval_size, batch_size, stride),
        ).insert(
            bk_hg_out.addr,
            fold_lanes(memory, bk_hg, bk_hg_out, challenge, eval_size, batch_size, stride),
        ),
        DeviceOpView::PolyEval { bk_f, bk_hg, result, eval_size } => memory.insert(
            result.addr,
            overwritten(
                memory[result.addr],
                result.offset as int,
                lane_sums(
                    memory[bk_f.addr].skip(bk_f.offset as int),
                    memory[bk_hg.addr].skip(bk_hg.offset as int),
                    eval_size as nat,
                ),
            ),
        ),
        DeviceOpView::Free { addr } => memory.remove(addr),
        DeviceOpView::Malloc { .. } => memory,
        DeviceOpView::Download { .. } => memory,
    }
}

/// The output buffer of a fold over all lanes, each at its own challenge.
pub open spec fn fold_lanes(
    memory: Map<u64, Seq<u32>>,
    from: DevicePtr,
    to: DevicePtr,
    challenge: DevicePtr,
    eval_size: u32,
    batch_size: u32,
    stride: u32,
) -> Seq<u32> {
    over_lanes(
        memory[to.addr],
        to.offset as int,
        batch_size as int,
        stride as int,
        |lane: int|
            lane_folded(
                elements(
                    window(memory[from.addr], from.offset as int, lane, stride as int),
                    2 * eval_size as nat,
                ),
                element(memory[challenge.addr], challenge.offset + 3 * lane),
                eval_size as nat,
                window(memory[to.addr], to.offset as int, lane, stride as int),
            ),
    )
}

/// What operations that succeed, one after the other, do to the memory.
pub open spec fn effects(memory: Map<u64, Seq<u32>>, ops: Seq<DeviceOpView>, n: nat) -> Map<
    u64,
    Seq<u32>,
>
    decreases n,
{
    if n == 0 {
        memory
    } else {
        effect(effects(memory, ops, (n - 1) as nat), ops[n - 1])
    }
}

// ---------------------------------------------------------------------------
// Contexts
// ---------------------------------------------------------------------------

/// The buffers of a context are there, apart from one another, and large enough.
pub open spec fn has_buffers(memory: Map<u64, Seq<u32>>, ctx: BatchedGpuSumcheckContext) -> bool {
    let total = ctx.total_batch_spec();
    let stride = ctx.lane_stride_ext3 as int;
    &&& ctx.wf()
    &&& 0 < stride <= u32::MAX
    &&& total <= u32::MAX
    &&& total * stride <= memory[ctx.d_bk_f].len()
    &&& total * stride <= memory[ctx.d_bk_hg].len()
    &&& total * stride <= memory[ctx.d_bk_f_alt].len()
    &&& total * stride <= memory[ctx.d_bk_hg_alt].len()
    &&& total * ctx.lane_stride_base <= memory[ctx.d_init_v].len()
    &&& total * 3 <= memory[ctx.d_challenge].len()
    &&& total * 9 <= memory[ctx.d_result].len()
    &&& ctx.buffers().no_duplicates()
}

/// The wire table's lane of a context.
pub open spec fn f_lane(
    memory: Map<u64, Seq<u32>>,
    ctx: BatchedGpuSumcheckContext,
    lane: int,
) -> Seq<u32> {
    window(memory[ctx.d_bk_f], 0, lane, ctx.lane_stride_ext3 as int)
}

/// The coefficient table's lane of a context.
pub open spec fn hg_lane(
    memory: Map<u64, Seq<u32>>,
    ctx: BatchedGpuSumcheckContext,
    lane: int,
) -> Seq<u32> {
    window(memory[ctx.d_bk_hg], 0, lane, ctx.lane_stride_ext3 as int)
}

/// The base-field wire values' lane of a context.
pub open spec fn base_lane(
    memory: Map<u64, Seq<u32>>,
    ctx: BatchedGpuSumcheckContext,
    lane: int,
) -> Seq<u32> {
    window(memory[ctx.d_init_v], 0, lane, ctx.lane_stride_base as int)
}

/// A context of one instance has the lanes that a batch has for instance `i`, `e` elements of
/// them.
pub open spec fn same_lanes(
    memory: Map<u64, Seq<u32>>,
    ctx: BatchedGpuSumcheckContext,
    i: int,
    own: Map<u64, Seq<u32>>,
    one: BatchedGpuSumcheckContext,
    e: nat,
) -> bool {
    &&& one.n_instances == 1
    &&& one.pack_size == ctx.pack_size
    &&& one.lane_stride_ext3 == ctx.lane_stride_ext3
    &&& one.lane_stride_base == ctx.lane_stride_base
    &&& forall|l: int|
        0 <= l < ctx.pack_size ==> {
            &&& #[trigger] elements(f_lane(own, one, l), e) == elements(
                f_lane(memory, ctx, i * ctx.pack_size + l),
                e,
            )
            &&& elements(hg_lane(own, one, l), e) == elements(
                hg_lane(memory, ctx, i * ctx.pack_size + l),
                e,
            )
        }
}

/// A table folded at a challenge.
pub open spec fn folded(t: Seq<M31Ext3>, r: M31Ext3, n: nat) -> Seq<M31Ext3> {
    Seq::new(n, |k: int| line_at(t[2 * k], t[2 * k + 1], r))
}

/// A context of one instance has the base-field wire values that a batch has for instance `i`.
pub open spec fn same_base_lanes(
    memory: Map<u64, Seq<u32>>,
    ctx: BatchedGpuSumcheckContext,
    i: int,
    own: Map<u64, Seq<u32>>,
    one: BatchedGpuSumcheckContext,
    e: nat,
) -> bool {
    forall|l: int|
        0 <= l < ctx.pack_size ==> #[trigger] base_elements(base_lane(own, one, l), e)
            == base_elements(base_lane(memory, ctx, i * ctx.pack_size + l), e)
}

/// The wire table of a context is that of its base-field wire values.
pub open spec fn holds_promoted(
    memory: Map<u64, Seq<u32>>,
    ctx: BatchedGpuSumcheckContext,
    e: nat,
) -> bool {
    forall|lane: int|
        0 <= lane < ctx.total_batch_spec() ==> #[trigger] elements(f_lane(memory, ctx, lane), e)
            == base_elements(base_lane(memory, ctx, lane), e)
}

proof fn lemma_apart(ctx: BatchedGpuSumcheckContext)
    requires
        ctx.buffers().no_duplicates(),
    ensures
        ctx.d_bk_f != ctx.d_bk_hg,
        ctx.d_bk_f != ctx.d_bk_f_alt,
        ctx.d_bk_f != ctx.d_bk_hg_alt,
        ctx.d_bk_f != ctx.d_init_v,
        ctx.d_bk_f != ctx.d_challenge,
        ctx.d_bk_f != ctx.d_result,
        ctx.d_bk_hg != ctx.d_bk_f_alt,
        ctx.d_bk_hg != ctx.d_bk_hg_alt,
        ctx.d_bk_hg != ctx.d_init_v,
        ctx.d_bk_hg != ctx.d_challenge,
        ctx.d_bk_hg != ctx.d_result,
        ctx.d_bk_f_alt != ctx.d_bk_hg_alt,
        ctx.d_bk_f_alt != ctx.d_init_v,
        ctx.d_bk_f_alt != ctx.d_challenge,
        ctx.d_bk_f_alt != ctx.d_result,
        ctx.d_bk_hg_alt != ctx.d_init_v,
        ctx.d_bk_hg_alt != ctx.d_challenge,
        ctx.d_bk_hg_alt != ctx.d_result,
        ctx.d_init_v != ctx.d_challenge,
        ctx.d_init_v != ctx.d_result,
        ctx.d_challenge != ctx.d_result,
{
    let b = ctx.buffers();
    assert(b[0] == ctx.d_bk_f && b[1] == ctx.d_bk_hg && b[2] == ctx.d_bk_f_alt && b[3]
        == ctx.d_bk_hg_alt && b[4] == ctx.d_init_v && b[5] == ctx.d_challenge && b[6]
        == ctx.d_result);
}

/// A lane lies within its buffer.
pub proof fn lemma_lane_bounds(lane: int, lanes: int, stride: int)
    requires
        0 <= lane < lanes,
        0 <= stride,
    ensures
        0 <= lane * stride,
        lane * stride + stride <= lanes * stride,
{
    assert(0 <= lane * stride && lane * stride + stride <= lanes * stride) by (nonlinear_arith)
        requires
            0 <= lane < lanes,
            0 <= stride,
    ;
}

/// A lane of a result is what the result was made of.
proof fn lemma_over_lanes(
    before: Seq<u32>,
    lanes: int,
    stride: int,
    result: spec_fn(int) -> Seq<u32>,
    lane: int,
)
    requires
        0 < stride,
        0 <= lane < lanes,
        lanes * stride <= before.len(),
        result(lane).len() == stride,
    ensures
        window(over_lanes(before, 0, lanes, stride, result), 0, lane, stride) == result(lane),
{
    lemma_lane_bounds(lane, lanes, stride);
    let after = over_lanes(before, 0, lanes, stride, result);
    let own = window(after, 0, lane, stride);
    assert forall|k: int| 0 <= k < stride implies #[trigger] own[k] == result(lane)[k] by {
        let w = lane * stride + k;
        lemma_fundamental_div_mod_converse(w, stride, lane, k);
        assert(own[k] == after[w]);
    }
    assert(own =~= result(lane));
}

/// A lane of an instance is a lane of the batch.
pub proof fn lemma_instance_lane(i: int, l: int, n: int, pack: int)
    requires
        0 <= i < n,
        0 <= l < pack,
    ensures
        0 <= i * pack + l < n * pack,
        0 <= i * pack,
{
    lemma_lane_bounds(i, n, pack);
}

/// The operation that evaluates all lanes of a context.
pub open spec fn eval_op(ctx: BatchedGpuSumcheckContext, eval_size: usize) -> DeviceOpView {
    DeviceOpView::PolyEvalBatched {
        bk_f: start_of(ctx.d_bk_f),
        bk_hg: start_of(ctx.d_bk_hg),
        result: start_of(ctx.d_result),
        eval_size: eval_size as u32,
        batch_size: ctx.total_batch_spec() as usize as u32,
        stride: ctx.lane_stride_ext3 as u32,
    }
}

/// The nine words of a lane's result.
pub open spec fn lane_result(
    memory: Map<u64, Seq<u32>>,
    ctx: BatchedGpuSumcheckContext,
    lane: int,
) -> Seq<u32> {
    window(memory[ctx.d_result], 0, lane, 9)
}

/// An evaluation leaves for each lane the sums over its own pairs.
pub proof fn lemma_eval_lanes(
    memory: Map<u64, Seq<u32>>,
    ctx: BatchedGpuSumcheckContext,
    eval_size: usize,
    lane: int,
)
    requires
        has_buffers(memory, ctx),
        0 <= lane < ctx.total_batch_spec(),
        eval_size <= u32::MAX,
    ensures
        lane_result(effect(memory, eval_op(ctx, eval_size)), ctx, lane) == lane_sums(
            f_lane(memory, ctx, lane),
            hg_lane(memory, ctx, lane),
            eval_size as nat,
        ),
{
    let stride = ctx.lane_stride_ext3 as u32 as int;
    let result = |l: int|
        lane_sums(
            window(memory[ctx.d_bk_f], 0, l, stride),
            window(memory[ctx.d_bk_hg], 0, l, stride),
            eval_size as nat,
        );
    assert(ctx.total_batch_spec() >= 0) by (nonlinear_arith)
        requires
            ctx.total_batch_spec() == ctx.n_instances * ctx.pack_size,
    ;
    lemma_over_lanes(memory[ctx.d_result], ctx.total_batch_spec(), 9, result, lane);
    let after = effect(memory, eval_op(ctx, eval_size));
    assert(after[ctx.d_result] =~= over_lanes(
        memory[ctx.d_result],
        0,
        ctx.total_batch_spec(),
        9,
        result,
    ));
}

/// Sums depend on the elements that they are over alone.
proof fn lemma_lane_sums(f: Seq<u32>, h: Seq<u32>, g: Seq<u32>, k: Seq<u32>, n: nat)
    requires
        elements(f, 2 * n) == elements(g, 2 * n),
        elements(h, 2 * n) == elements(k, 2 * n),
    ensures
        lane_sums(f, h, n) == lane_sums(g, k, n),
{
}

/// An instance's results are those that it would have alone.
pub proof fn lemma_eval_alone(
    memory: Map<u64, Seq<u32>>,
    ctx: BatchedGpuSumcheckContext,
    i: int,
    own: Map<u64, Seq<u32>>,
    one: BatchedGpuSumcheckContext,
    eval_size: usize,
    words: Seq<u32>,
    own_words: Seq<u32>,
    results: Seq<[[u32; 9]; 16]>,
    own_results: Seq<[[u32; 9]; 16]>,
)
    requires
        has_buffers(memory, ctx),
        has_buffers(own, one),
        0 <= i < ctx.n_instances,
        eval_size <= u32::MAX,
        same_lanes(memory, ctx, i, own, one, 2 * eval_size as nat),
        words == effect(memory, eval_op(ctx, eval_size))[ctx.d_result].take(
            ctx.total_batch_spec() * 9,
        ),
        own_words == effect(own, eval_op(one, eval_size))[one.d_result].take(
            one.total_batch_spec() * 9,
        ),
        BatchedGpuSumcheckContext::decodes(
            ctx.n_instances as int,
            ctx.pack_size as int,
            words,
            results,
        ),
        BatchedGpuSumcheckContext::decodes(1, one.pack_size as int, own_words, own_results),
    ensures
        results[i] == own_results[0],
{
    let pack = ctx.pack_size as int;
    let n = ctx.n_instances as int;
    let after = effect(memory, eval_op(ctx, eval_size));
    let own_after = effect(own, eval_op(one, eval_size));
    assert(one.total_batch_spec() == pack) by (nonlinear_arith)
        requires
            one.total_batch_spec() == one.n_instances * one.pack_size,
            one.n_instances == 1,
            one.pack_size == pack,
    ;
    assert forall|l: int, c: int| 0 <= l < 16 && 0 <= c < 9 implies results[i]@[l]@[c]
        == own_results[0]@[l]@[c] by {
        assert(results[i]@[l]@[c] == if l < pack {
            words[(i * pack + l) * 9 + c]
        } else {
            0
        });
        assert(own_results[0]@[l]@[c] == if l < pack {
            own_words[(0 * pack + l) * 9 + c]
        } else {
            0
        });
        if l < pack {
            let lane = i * pack + l;
            lemma_instance_lane(i, l, n, pack);
            lemma_eval_lanes(memory, ctx, eval_size, lane);
            lemma_eval_lanes(own, one, eval_size, l);
            assert(elements(f_lane(own, one, l), 2 * eval_size as nat) == elements(
                f_lane(memory, ctx, lane),
                2 * eval_size as nat,
            ));
            lemma_lane_sums(
                f_lane(memory, ctx, lane),
                hg_lane(memory, ctx, lane),
                f_lane(own, one, l),
                hg_lane(own, one, l),
                eval_size as nat,
            );
            lemma_lane_bounds(lane, ctx.total_batch_spec(), 9);
            lemma_lane_bounds(l, pack, 9);
            assert(lane_result(after, ctx, lane)[c] == words[lane * 9 + c]);
            assert(lane_result(own_after, one, l)[c] == own_words[l * 9 + c]);
        }
    }
    assert forall|l: int| 0 <= l < 16 implies #[trigger] results[i]@[l] == own_results[0]@[l] by {
        assert(results[i]@[l] =~= own_results[0]@[l]);
    }
    assert(results[i] =~= own_results[0]);
}

// ---------------------------------------------------------------------------
// Folds
// ---------------------------------------------------------------------------

/// The challenge of an instance as an element.
pub open spec fn challenge_of(r: Seq<u32>) -> M31Ext3 {
    element(r, 0)
}

/// A lane of a context holds these tables folded at a challenge.
pub open spec fn lane_is_folded(
    f: Seq<M31Ext3>,
    hg: Seq<M31Ext3>,
    c: M31Ext3,
    after: Map<u64, Seq<u32>>,
    ctx: BatchedGpuSumcheckContext,
    lane: int,
    e: nat,
) -> bool {
    &&& elements(f_lane(after, ctx, lane), e) == folded(f, c, e)
    &&& elements(hg_lane(after, ctx, lane), e) == folded(hg, c, e)
}

proof fn lemma_lane_folded(t: Seq<M31Ext3>, r: M31Ext3, n: nat, before: Seq<u32>)
    requires
        3 * n <= before.len(),
    ensures
        elements(lane_folded(t, r, n, before), n) == folded(t, r, n),
{
    let after = lane_folded(t, r, n, before);
    assert forall|k: int| 0 <= k < n implies #[trigger] elements(after, n)[k] == folded(
        t,
        r,
        n,
    )[k] by {
        let x = line_at(t[2 * k], t[2 * k + 1], r);
        assert((3 * k) / 3 == k && (3 * k + 1) / 3 == k && (3 * k + 2) / 3 == k);
        assert((3 * k) % 3 == 0 && (3 * k + 1) % 3 == 1 && (3 * k + 2) % 3 == 2);
        assert(after[3 * k] == x.c0.v && after[3 * k + 1] == x.c1.v && after[3 * k + 2] == x.c2.v);
    }
    assert(elements(after, n) =~= folded(t, r, n));
}

/// A later fold leaves in the other pair of buffers each lane's tables folded at its challenge.
pub proof fn lemma_later_fold_lanes(
    memory: Map<u64, Seq<u32>>,
    ctx: BatchedGpuSumcheckContext,
    eval_size: usize,
    r: Seq<Seq<u32>>,
)
    requires
        has_buffers(memory, ctx),
        r.len() == ctx.n_instances,
        forall|i: int| 0 <= i < r.len() ==> (#[trigger] r[i]).len() == 3,
        eval_size <= u32::MAX,
        3 * eval_size <= ctx.lane_stride_ext3,
    ensures
        ({
            let after = effects(memory, ctx.later_fold_ops(eval_size, r), 2);
            let next = ctx.after_fold(1, true);
            &&& has_buffers(after, next)
            &&& forall|lane: int|
                0 <= lane < ctx.total_batch_spec() ==> #[trigger] lane_is_folded(
                    elements(f_lane(memory, ctx, lane), 2 * eval_size as nat),
                    elements(hg_lane(memory, ctx, lane), 2 * eval_size as nat),
                    challenge_of(r[lane / ctx.pack_size as int]),
                    after,
                    next,
                    lane,
                    eval_size as nat,
                )
        }),
{
    lemma_apart(ctx);
    let ops = ctx.later_fold_ops(eval_size, r);
    let total = ctx.total_batch_spec();
    let stride = ctx.lane_stride_ext3 as int;
    let e = eval_size as nat;
    let next = ctx.after_fold(1, true);
    assert(total >= 0) by (nonlinear_arith)
        requires
            total == ctx.n_instances * ctx.pack_size,
    ;
    let words = ctx.replicated(r);
    let sent = effect(memory, ops[0]);
    assert(effects(memory, ops, 1) == sent) by {
        assert(effects(memory, ops, 0) == memory);
    }
    let after = effects(memory, ops, 2);
    assert(after == effect(sent, ops[1]));
    assert(sent[ctx.d_challenge] == overwritten(memory[ctx.d_challenge], 0, words));
    assert(sent[ctx.d_bk_f] == memory[ctx.d_bk_f] && sent[ctx.d_bk_hg] == memory[ctx.d_bk_hg]);
    let f_out = fold_lanes(
        sent,
        start_of(ctx.d_bk_f),
        start_of(ctx.d_bk_f_alt),
        start_of(ctx.d_challenge),
        eval_size as u32,
        total as usize as u32,
        stride as usize as u32,
    );
    let hg_out = fold_lanes(
        sent,
        start_of(ctx.d_bk_hg),
        start_of(ctx.d_bk_hg_alt),
        start_of(ctx.d_challenge),
        eval_size as u32,
        total as usize as u32,
        stride as usize as u32,
    );
    assert(after == sent.insert(ctx.d_bk_f_alt, f_out).insert(ctx.d_bk_hg_alt, hg_out));
    assert(after[next.d_bk_f] == f_out && after[next.d_bk_hg] == hg_out);
    assert(next.buffers().no_duplicates()) by {
        let b = next.buffers();
        assert(b[0] == ctx.d_bk_f_alt && b[1] == ctx.d_bk_hg_alt && b[2] == ctx.d_bk_f && b[3]
            == ctx.d_bk_hg && b[4] == ctx.d_init_v && b[5] == ctx.d_challenge && b[6]
            == ctx.d_result);
    }
    assert(has_buffers(after, next));
    assert forall|lane: int| 0 <= lane < total implies #[trigger] lane_is_folded(
        elements(f_lane(memory, ctx, lane), 2 * e),
        elements(hg_lane(memory, ctx, lane), 2 * e),
        challenge_of(r[lane / ctx.pack_size as int]),
        after,
        next,
        lane,
        e,
    ) by {
        let c = challenge_of(r[lane / ctx.pack_size as int]);
        assert(element(sent[ctx.d_challenge], 3 * lane) == c) by {
            let w = 3 * lane;
            assert(w / 3 == lane && (w + 1) / 3 == lane && (w + 2) / 3 == lane);
            assert(w % 3 == 0 && (w + 1) % 3 == 1 && (w + 2) % 3 == 2);
            assert(w + 2 < words.len());
        }
        lemma_lane_bounds(lane, total, stride);
        let f_before = window(memory[ctx.d_bk_f_alt], 0, lane, stride);
        let hg_before = window(memory[ctx.d_bk_hg_alt], 0, lane, stride);
        let f_table = elements(f_lane(memory, ctx, lane), 2 * e);
        let hg_table = elements(hg_lane(memory, ctx, lane), 2 * e);
        lemma_over_lanes(
            memory[ctx.d_bk_f_alt],
            total,
            stride,
            |l: int|
                lane_folded(
                    elements(window(sent[ctx.d_bk_f], 0, l, stride), 2 * eval_size as u32 as nat),
                    element(sent[ctx.d_challenge], 0 + 3 * l),
                    eval_size as u32 as nat,
                    window(sent[ctx.d_bk_f_alt], 0, l, stride),
                ),
            lane,
        );
        lemma_over_lanes(
            memory[ctx.d_bk_hg_alt],
            total,
            stride,
            |l: int|
                lane_folded(
                    elements(window(sent[ctx.d_bk_hg], 0, l, stride), 2 * eval_size as u32 as nat),
                    element(sent[ctx.d_challenge], 0 + 3 * l),
                    eval_size as u32 as nat,
                    window(sent[ctx.d_bk_hg_alt], 0, l, stride),
                ),
            lane,
        );
        assert(f_lane(after, next, lane) =~= lane_folded(f_table, c, e, f_before));
        assert(hg_lane(after, next, lane) =~= lane_folded(hg_table, c, e, hg_before));
        lemma_lane_folded(f_table, c, e, f_before);
        lemma_lane_folded(hg_table, c, e, hg_before);
    }
}

/// A lane's tables are as they were.
pub open spec fn lane_kept(
    memory: Map<u64, Seq<u32>>,
    now: Map<u64, Seq<u32>>,
    ctx: BatchedGpuSumcheckContext,
    lane: int,
) -> bool {
    &&& f_lane(now, ctx, lane) == f_lane(memory, ctx, lane)
    &&& hg_lane(now, ctx, lane) == hg_lane(memory, ctx, lane)
}

/// A lane's tables have gone through the first fold.
pub open spec fn lane_is_first_folded(
    memory: Map<u64, Seq<u32>>,
    now: Map<u64, Seq<u32>>,
    ctx: BatchedGpuSumcheckContext,
    r: Seq<Seq<u32>>,
    lane: int,
    e: nat,
) -> bool {
    lane_is_folded(
        base_elements(base_lane(memory, ctx, lane), 2 * e),
        elements(hg_lane(memory, ctx, lane), 2 * e),
        challenge_of(r[lane / ctx.pack_size as int]),
        now,
        ctx,
        lane,
        e,
    )
}

/// How many lanes the first `k` operations of a first fold have folded.
spec fn lanes_done(ctx: BatchedGpuSumcheckContext, k: int) -> int {
    let (i, j) = (k / (1 + ctx.pack_size), k % (1 + ctx.pack_size));
    i * ctx.pack_size + if j == 0 {
        0
    } else {
        j - 1
    }
}

/// The memory after the first `k` operations of a first fold.
spec fn first_fold_reaches(
    memory: Map<u64, Seq<u32>>,
    now: Map<u64, Seq<u32>>,
    ctx: BatchedGpuSumcheckContext,
    r: Seq<Seq<u32>>,
    k: int,
    e: nat,
) -> bool {
    let (i, j) = (k / (1 + ctx.pack_size), k % (1 + ctx.pack_size));
    &&& now[ctx.d_bk_f].len() == memory[ctx.d_bk_f].len()
    &&& now[ctx.d_bk_hg].len() == memory[ctx.d_bk_hg].len()
    &&& now[ctx.d_challenge].len() == memory[ctx.d_challenge].len()
    &&& now[ctx.d_bk_f_alt] == memory[ctx.d_bk_f_alt]
    &&& now[ctx.d_bk_hg_alt] == memory[ctx.d_bk_hg_alt]
    &&& now[ctx.d_init_v] == memory[ctx.d_init_v]
    &&& now[ctx.d_result] == memory[ctx.d_result]
    &&& j > 0 ==> element(now[ctx.d_challenge], 0) == challenge_of(r[i])
    &&& forall|lane: int|
        0 <= lane < lanes_done(ctx, k) ==> #[trigger] lane_is_first_folded(
            memory,
            now,
            ctx,
            r,
            lane,
            e,
        )
    &&& forall|lane: int|
        lanes_done(ctx, k) <= lane < ctx.total_batch_spec() ==> #[trigger] lane_kept(
            memory,
            now,
            ctx,
            lane,
        )
}

/// Folding one lane in place changes no other.
proof fn lemma_fold_in_place(
    before: Seq<u32>,
    lanes: int,
    stride: int,
    lane: int,
    t: Seq<M31Ext3>,
    r: M31Ext3,
    n: nat,
)
    requires
        0 <= lane < lanes,
        0 < stride,
        lanes * stride <= before.len(),
        3 * n <= stride,
    ensures
        ({
            let own = before.skip(lane * stride);
            let after = overwritten(before, lane * stride, lane_folded(t, r, n, own));
            &&& after.len() == before.len()
            &&& elements(window(after, 0, lane, stride), n) == folded(t, r, n)
            &&& forall|l: int|
                0 <= l < lanes && l != lane ==> #[trigger] window(after, 0, l, stride) == window(
                    before,
                    0,
                    l,
                    stride,
                )
        }),
{
    lemma_lane_bounds(lane, lanes, stride);
    let own = before.skip(lane * stride);
    let result = lane_folded(t, r, n, own);
    let after = overwritten(before, lane * stride, result);
    lemma_lane_folded(t, r, n, own);
    assert(elements(window(after, 0, lane, stride), n) =~= elements(result, n)) by {
        let mine = window(after, 0, lane, stride);
        assert forall|w: int| 0 <= w < 3 * n implies #[trigger] mine[w] == result[w] by {
            assert(mine[w] == after[lane * stride + w]);
        }
    }
    assert forall|l: int| 0 <= l < lanes && l != lane implies #[trigger] window(after, 0, l, stride)
        == window(before, 0, l, stride) by {
        lemma_lane_bounds(l, lanes, stride);
        if l < lane {
            lemma_lane_bounds(l, lane, stride);
        } else {
            lemma_lane_bounds(lane, l, stride);
        }
        let (a, b) = (window(after, 0, l, stride), window(before, 0, l, stride));
        assert forall|w: int| 0 <= w < stride implies #[trigger] a[w] == b[w] by {
            assert(a[w] == after[l * stride + w] && b[w] == before[l * stride + w]);
        }
        assert(a =~= b);
    }
}

proof fn lemma_first_fold_step(
    memory: Map<u64, Seq<u32>>,
    now: Map<u64, Seq<u32>>,
    ctx: BatchedGpuSumcheckContext,
    eval_size: usize,
    r: Seq<Seq<u32>>,
    k: int,
)
    requires
        has_buffers(memory, ctx),
        r.len() == ctx.n_instances,
        forall|i: int| 0 <= i < r.len() ==> (#[trigger] r[i]).len() == 3,
        eval_size <= u32::MAX,
        2 * eval_size <= ctx.lane_stride_base,
        0 <= k < ctx.n_instances * (1 + ctx.pack_size),
        first_fold_reaches(memory, now, ctx, r, k, eval_size as nat),
    ensures
        first_fold_reaches(
            memory,
            effect(now, ctx.first_fold_ops(eval_size, r)[k]),
            ctx,
            r,
            k + 1,
            eval_size as nat,
        ),
{
    lemma_apart(ctx);
    let e = eval_size as nat;
    let pack = ctx.pack_size as int;
    let n = ctx.n_instances as int;
    let width = 1 + pack;
    let (i, j) = (k / width, k % width);
    vstd::arithmetic::div_mod::lemma_fundamental_div_mod(k, width);
    assert(0 <= j < width && 0 <= i < n) by {
        vstd::arithmetic::div_mod::lemma_mod_bound(k, width);
        assert(0 <= i < n) by (nonlinear_arith)
            requires
                k == width * i + j,
                0 <= j < width,
                0 <= k < n * width,
        ;
    }
    let total = ctx.total_batch_spec();
    let stride = ctx.lane_stride_ext3 as int;
    let op = ctx.first_fold_ops(eval_size, r)[k];
    let after = effect(now, op);
    lemma_lane_bounds(i, n, pack);
    if j + 1 < width {
        assert((k + 1) / width == i && (k + 1) % width == j + 1) by {
            assert(k + 1 == i * width + (j + 1)) by (nonlinear_arith)
                requires
                    k == width * i + j,
            ;
            lemma_fundamental_div_mod_converse(k + 1, width, i, j + 1);
        }
    } else {
        assert((k + 1) / width == i + 1 && (k + 1) % width == 0) by {
            assert(k + 1 == (i + 1) * width + 0) by (nonlinear_arith)
                requires
                    k == width * i + j,
                    j + 1 == width,
            ;
            lemma_fundamental_div_mod_converse(k + 1, width, i + 1, 0);
        }
        assert((i + 1) * pack == i * pack + pack) by (nonlinear_arith);
    }
    if j == 0 {
        assert(op == DeviceOpView::Upload { dst: start_of(ctx.d_challenge), words: r[i] });
        assert(lanes_done(ctx, k + 1) == lanes_done(ctx, k));
        if pack > 0 {
            assert(r[i].len() == 3);
            assert(total >= 1) by (nonlinear_arith)
                requires
                    total == n * pack,
                    n >= 1,
                    pack >= 1,
            ;
            assert(element(after[ctx.d_challenge], 0) == challenge_of(r[i]));
        }
        assert forall|lane: int|
            0 <= lane < lanes_done(ctx, k + 1) implies #[trigger] lane_is_first_folded(
            memory,
            after,
            ctx,
            r,
            lane,
            e,
        ) by {
            assert(lane_is_first_folded(memory, now, ctx, r, lane, e));
        }
        assert forall|lane: int|
            lanes_done(ctx, k + 1) <= lane < total implies #[trigger] lane_kept(
            memory,
            after,
            ctx,
            lane,
        ) by {
            assert(lane_kept(memory, now, ctx, lane));
        }
    } else {
        let mine = i * pack + (j - 1);
        assert(lanes_done(ctx, k) == mine && lanes_done(ctx, k + 1) == mine + 1);
        lemma_lane_bounds(mine, total, stride);
        lemma_lane_bounds(mine, total, ctx.lane_stride_base as int);
        assert(total * stride <= usize::MAX && total * ctx.lane_stride_base <= total * stride) by {
            let base = ctx.lane_stride_base as int;
            assert(n * ext3_words(pack, base) == total * stride) by (nonlinear_arith)
                requires
                    ext3_words(pack, base) == pack * base * 3,
                    total == n * pack,
                    stride == base * 3,
            ;
            assert(total * ctx.lane_stride_base <= total * stride) by (nonlinear_arith)
                requires
                    stride == ctx.lane_stride_base * 3,
                    total >= 0,
            ;
        }
        let f_at = at(ctx.d_bk_f, mine * stride);
        let hg_at = at(ctx.d_bk_hg, mine * stride);
        let v_at = at(ctx.d_init_v, mine * ctx.lane_stride_base);
        assert(op == DeviceOpView::ReceiveChallenge {
            bk_f: f_at,
            bk_hg: hg_at,
            challenge: start_of(ctx.d_challenge),
            eval_size: eval_size as u32,
            first_round: true,
            init_v: v_at,
        });
        let c = challenge_of(r[i]);
        assert(mine / pack == i) by {
            lemma_fundamental_div_mod_converse(mine, pack, i, j - 1);
        }
        let f = now[ctx.d_bk_f];
        let hg = now[ctx.d_bk_hg];
        let f_table = base_elements(base_lane(memory, ctx, mine), 2 * e);
        let hg_table = elements(hg_lane(memory, ctx, mine), 2 * e);
        assert(base_elements(now[ctx.d_init_v].skip(mine * ctx.lane_stride_base), 2 * e)
            =~= f_table);
        assert(elements(hg.skip(mine * stride), 2 * e) =~= hg_table) by {
            assert(lane_kept(memory, now, ctx, mine));
            assert(elements(hg.skip(mine * stride), 2 * e) =~= elements(
                hg_lane(now, ctx, mine),
                2 * e,
            ));
        }
        let f_after = overwritten(
            f,
            mine * stride,
            lane_folded(f_table, c, e, f.skip(mine * stride)),
        );
        let hg_after = overwritten(
            hg,
            mine * stride,
            lane_folded(hg_table, c, e, hg.skip(mine * stride)),
        );
        assert(after == now.insert(ctx.d_bk_f, f_after).insert(ctx.d_bk_hg, hg_after));
        lemma_fold_in_place(f, total, stride, mine, f_table, c, e);
        lemma_fold_in_place(hg, total, stride, mine, hg_table, c, e);
        assert forall|lane: int|
            0 <= lane < lanes_done(ctx, k + 1) implies #[trigger] lane_is_first_folded(
            memory,
            after,
            ctx,
            r,
            lane,
            e,
        ) by {
            if lane != mine {
                assert(lane_is_first_folded(memory, now, ctx, r, lane, e));
                assert(window(f_after, 0, lane, stride) == window(f, 0, lane, stride));
                assert(window(hg_after, 0, lane, stride) == window(hg, 0, lane, stride));
            }
        }
        assert forall|lane: int|
            lanes_done(ctx, k + 1) <= lane < total implies #[trigger] lane_kept(
            memory,
            after,
            ctx,
            lane,
        ) by {
            assert(lane_kept(memory, now, ctx, lane));
            assert(window(f_after, 0, lane, stride) == window(f, 0, lane, stride));
            assert(window(hg_after, 0, lane, stride) == window(hg, 0, lane, stride));
        }
    }
}

proof fn lemma_first_fold_run(
    memory: Map<u64, Seq<u32>>,
    ctx: BatchedGpuSumcheckContext,
    eval_size: usize,
    r: Seq<Seq<u32>>,
    k: nat,
)
    requires
        has_buffers(memory, ctx),
        r.len() == ctx.n_instances,
        forall|i: int| 0 <= i < r.len() ==> (#[trigger] r[i]).len() == 3,
        eval_size <= u32::MAX,
        2 * eval_size <= ctx.lane_stride_base,
        k <= ctx.n_instances * (1 + ctx.pack_size),
    ensures
        first_fold_reaches(
            memory,
            effects(memory, ctx.first_fold_ops(eval_size, r), k),
            ctx,
            r,
            k as int,
            eval_size as nat,
        ),
    decreases k,
{
    if k == 0 {
        let width = 1 + ctx.pack_size;
        assert(0int / width == 0 && 0int % width == 0) by {
            lemma_fundamental_div_mod_converse(0, width, 0, 0);
        }
        assert(lanes_done(ctx, 0) == 0) by (nonlinear_arith)
            requires
                lanes_done(ctx, 0) == 0 * ctx.pack_size + 0,
        ;
    } else {
        let before = effects(memory, ctx.first_fold_ops(eval_size, r), (k - 1) as nat);
        lemma_first_fold_run(memory, ctx, eval_size, r, (k - 1) as nat);
        lemma_first_fold_step(memory, before, ctx, eval_size, r, k - 1);
    }
}

/// The first fold leaves each lane's wire table as its base-field values, promoted and folded at
/// the lane's challenge, and its coefficient table folded there too.
pub proof fn lemma_first_fold_lanes(
    memory: Map<u64, Seq<u32>>,
    ctx: BatchedGpuSumcheckContext,
    eval_size: usize,
    r: Seq<Seq<u32>>,
)
    requires
        has_buffers(memory, ctx),
        r.len() == ctx.n_instances,
        forall|i: int| 0 <= i < r.len() ==> (#[trigger] r[i]).len() == 3,
        eval_size <= u32::MAX,
        2 * eval_size <= ctx.lane_stride_base,
    ensures
        ({
            let ops = ctx.first_fold_ops(eval_size, r);
            let after = effects(memory, ops, ops.len());
            &&& has_buffers(after, ctx)
            &&& forall|lane: int|
                0 <= lane < ctx.total_batch_spec() ==> #[trigger] lane_is_first_folded(
                    memory,
                    after,
                    ctx,
                    r,
                    lane,
                    eval_size as nat,
                )
        }),
{
    let ops = ctx.first_fold_ops(eval_size, r);
    let (n, width) = (ctx.n_instances as int, 1 + ctx.pack_size);
    assert(0 <= n * width) by (nonlinear_arith)
        requires
            n >= 0,
            width >= 0,
    ;
    lemma_first_fold_run(memory, ctx, eval_size, r, ops.len());
    assert((n * width) / width == n && (n * width) % width == 0) by {
        lemma_fundamental_div_mod_converse(n * width, width, n, 0);
    }
    assert(lanes_done(ctx, n * width) == ctx.total_batch_spec());
}

/// A lane of an instance has the same challenge in a batch as alone.
proof fn lemma_same_challenge(
    ctx: BatchedGpuSumcheckContext,
    i: int,
    one: BatchedGpuSumcheckContext,
    r: Seq<Seq<u32>>,
    l: int,
)
    requires
        0 <= i < ctx.n_instances,
        r.len() == ctx.n_instances,
        0 <= l < ctx.pack_size,
        one.n_instances == 1,
        one.pack_size == ctx.pack_size,
    ensures
        0 <= i * ctx.pack_size + l < ctx.total_batch_spec(),
        0 <= l < one.total_batch_spec(),
        r[(i * ctx.pack_size + l) / ctx.pack_size as int] == only(r, i)[l / one.pack_size as int],
{
    let pack = ctx.pack_size as int;
    lemma_instance_lane(i, l, ctx.n_instances as int, pack);
    lemma_fundamental_div_mod_converse(i * pack + l, pack, i, l);
    lemma_fundamental_div_mod_converse(l, pack, 0, l);
    assert(one.total_batch_spec() == pack) by (nonlinear_arith)
        requires
            one.total_batch_spec() == one.n_instances * one.pack_size,
            one.n_instances == 1,
            one.pack_size == pack,
    ;
}

/// After a later fold an instance's lanes are again those that it would have alone.
pub proof fn lemma_later_fold_alone(
    memory: Map<u64, Seq<u32>>,
    ctx: BatchedGpuSumcheckContext,
    i: int,
    own: Map<u64, Seq<u32>>,
    one: BatchedGpuSumcheckContext,
    eval_size: usize,
    r: Seq<Seq<u32>>,
)
    requires
        has_buffers(memory, ctx),
        has_buffers(own, one),
        0 <= i < ctx.n_instances,
        r.len() == ctx.n_instances,
        forall|k: int| 0 <= k < r.len() ==> (#[trigger] r[k]).len() == 3,
        eval_size <= u32::MAX,
        3 * eval_size <= ctx.lane_stride_ext3,
        same_lanes(memory, ctx, i, own, one, 2 * eval_size as nat),
    ensures
        same_lanes(
            effects(memory, ctx.later_fold_ops(eval_size, r), 2),
            ctx.after_fold(1, true),
            i,
            effects(own, one.later_fold_ops(eval_size, only(r, i)), 2),
            one.after_fold(1, true),
            eval_size as nat,
        ),
{
    let e = eval_size as nat;
    let pack = ctx.pack_size as int;
    let after = effects(memory, ctx.later_fold_ops(eval_size, r), 2);
    let own_after = effects(own, one.later_fold_ops(eval_size, only(r, i)), 2);
    let (next, one_next) = (ctx.after_fold(1, true), one.after_fold(1, true));
    lemma_later_fold_lanes(memory, ctx, eval_size, r);
    lemma_later_fold_lanes(own, one, eval_size, only(r, i));
    assert forall|l: int| 0 <= l < next.pack_size implies {
        &&& #[trigger] elements(f_lane(own_after, one_next, l), e) == elements(
            f_lane(after, next, i * next.pack_size + l),
            e,
        )
        &&& elements(hg_lane(own_after, one_next, l), e) == elements(
            hg_lane(after, next, i * next.pack_size + l),
            e,
        )
    } by {
        let lane = i * pack + l;
        lemma_same_challenge(ctx, i, one, r, l);
        let c = challenge_of(r[lane / pack]);
        assert(elements(f_lane(own, one, l), 2 * e) == elements(f_lane(memory, ctx, lane), 2 * e));
        assert(lane_is_folded(
            elements(f_lane(memory, ctx, lane), 2 * e),
            elements(hg_lane(memory, ctx, lane), 2 * e),
            c,
            after,
            next,
            lane,
            e,
        ));
        assert(lane_is_folded(
            elements(f_lane(own, one, l), 2 * e),
            elements(hg_lane(own, one, l), 2 * e),
            challenge_of(only(r, i)[l / one.pack_size as int]),
            own_after,
            one_next,
            l,
            e,
        ));
    }
}

/// After the first fold an instance's lanes are again those that it would have alone.
pub proof fn lemma_first_fold_alone(
    memory: Map<u64, Seq<u32>>,
    ctx: BatchedGpuSumcheckContext,
    i: int,
    own: Map<u64, Seq<u32>>,
    one: BatchedGpuSumcheckContext,
    eval_size: usize,
    r: Seq<Seq<u32>>,
)
    requires
        has_buffers(memory, ctx),
        has_buffers(own, one),
        0 <= i < ctx.n_instances,
        r.len() == ctx.n_instances,
        forall|k: int| 0 <= k < r.len() ==> (#[trigger] r[k]).len() == 3,
        eval_size <= u32::MAX,
        2 * eval_size <= ctx.lane_stride_base,
        same_lanes(memory, ctx, i, own, one, 2 * eval_size as nat),
        same_base_lanes(memory, ctx, i, own, one, 2 * eval_size as nat),
    ensures
        ({
            let ops = ctx.first_fold_ops(eval_size, r);
            let own_ops = one.first_fold_ops(eval_size, only(r, i));
            same_lanes(
                effects(memory, ops, ops.len()),
                ctx,
                i,
                effects(own, own_ops, own_ops.len()),
                one,
                eval_size as nat,
            )
        }),
{
    let e = eval_size as nat;
    let pack = ctx.pack_size as int;
    let ops = ctx.first_fold_ops(eval_size, r);
    let own_ops = one.first_fold_ops(eval_size, only(r, i));
    let after = effects(memory, ops, ops.len());
    let own_after = effects(own, own_ops, own_ops.len());
    lemma_first_fold_lanes(memory, ctx, eval_size, r);
    lemma_first_fold_lanes(own, one, eval_size, only(r, i));
    assert forall|l: int| 0 <= l < ctx.pack_size implies {
        &&& #[trigger] elements(f_lane(own_after, one, l), e) == elements(
            f_lane(after, ctx, i * ctx.pack_size + l),
            e,
        )
        &&& elements(hg_lane(own_after, one, l), e) == elements(
            hg_lane(after, ctx, i * ctx.pack_size + l),
            e,
        )
    } by {
        let lane = i * pack + l;
        lemma_same_challenge(ctx, i, one, r, l);
        assert(elements(f_lane(own, one, l), 2 * e) == elements(f_lane(memory, ctx, lane), 2 * e));
        assert(base_elements(base_lane(own, one, l), 2 * e) == base_elements(
            base_lane(memory, ctx, lane),
            2 * e,
        ));
        assert(lane_is_first_folded(memory, after, ctx, r, lane, e));
        assert(lane_is_first_folded(own, own_after, one, only(r, i), l, e));
    }
}

/// On a wire table that holds the base-field values, the first fold, which reads these values,
/// leaves the tables that a later fold leaves.
pub proof fn lemma_first_fold_as_later(
    memory: Map<u64, Seq<u32>>,
    ctx: BatchedGpuSumcheckContext,
    eval_size: usize,
    r: Seq<Seq<u32>>,
    lane: int,
)
    requires
        has_buffers(memory, ctx),
        r.len() == ctx.n_instances,
        forall|i: int| 0 <= i < r.len() ==> (#[trigger] r[i]).len() == 3,
        eval_size <= u32::MAX,
        2 * eval_size <= ctx.lane_stride_base,
        holds_promoted(memory, ctx, 2 * eval_size as nat),
        0 <= lane < ctx.total_batch_spec(),
    ensures
        ({
            let e = eval_size as nat;
            let ops = ctx.first_fold_ops(eval_size, r);
            let first = effects(memory, ops, ops.len());
            let later = effects(memory, ctx.later_fold_ops(eval_size, r), 2);
            let next = ctx.after_fold(1, true);
            &&& elements(f_lane(first, ctx, lane), e) == elements(f_lane(later, next, lane), e)
            &&& elements(hg_lane(first, ctx, lane), e) == elements(hg_lane(later, next, lane), e)
        }),
{
    let e = eval_size as nat;
    let ops = ctx.first_fold_ops(eval_size, r);
    let first = effects(memory, ops, ops.len());
    let later = effects(memory, ctx.later_fold_ops(eval_size, r), 2);
    lemma_first_fold_lanes(memory, ctx, eval_size, r);
    lemma_later_fold_lanes(memory, ctx, eval_size, r);
    assert(lane_is_first_folded(memory, first, ctx, r, lane, e));
    assert(lane_is_folded(
        elements(f_lane(memory, ctx, lane), 2 * e),
        elements(hg_lane(memory, ctx, lane), 2 * e),
        challenge_of(r[lane / ctx.pack_size as int]),
        later,
        ctx.after_fold(1, true),
        lane,
        e,
    ));
}

// ---------------------------------------------------------------------------
// Setting up
// ---------------------------------------------------------------------------

/// The memory once a context's three uploads are done.
pub open spec fn set_up(
    memory: Map<u64, Seq<u32>>,
    image: ContextImage,
    replies: Seq<DeviceReply>,
) -> Map<u64, Seq<u32>> {
    effects(
        memory,
        seq![
            setup_op(image, replies, 7),
            setup_op(image, replies, 8),
            setup_op(image, replies, 9),
        ],
        3,
    )
}

/// A context that was set up holds the lanes of its image.
pub proof fn lemma_set_up_lanes(
    memory: Map<u64, Seq<u32>>,
    image: ContextImage,
    replies: Seq<DeviceReply>,
)
    requires
        image.wf(),
        has_buffers(memory, setup_context(image, replies)),
    ensures
        ({
            let ctx = setup_context(image, replies);
            let after = set_up(memory, image, replies);
            &&& has_buffers(after, ctx)
            &&& forall|lane: int|
                0 <= lane < ctx.total_batch_spec() ==> {
                    &&& #[trigger] f_lane(after, ctx, lane) == window(
                        image.bk_f@,
                        0,
                        lane,
                        ctx.lane_stride_ext3 as int,
                    )
                    &&& hg_lane(after, ctx, lane) == window(
                        image.hg@,
                        0,
                        lane,
                        ctx.lane_stride_ext3 as int,
                    )
                    &&& base_lane(after, ctx, lane) == window(
                        image.init_v@,
                        0,
                        lane,
                        ctx.lane_stride_base as int,
                    )
                }
        }),
{
    let ctx = setup_context(image, replies);
    lemma_apart(ctx);
    let ops = seq![
        setup_op(image, replies, 7),
        setup_op(image, replies, 8),
        setup_op(image, replies, 9),
    ];
    let after = set_up(memory, image, replies);
    reveal_with_fuel(effects, 4);
    assert(after == effect(effect(effect(memory, ops[0]), ops[1]), ops[2]));
    let total = ctx.total_batch_spec();
    let num = image.input_size as int;
    let (n, pack) = (image.n_instances as int, image.pack_size as int);
    let stride = ctx.lane_stride_ext3 as int;
    assert(stride == num * 3);
    assert(n * ext3_words(pack, num) == total * stride && n * base_words(pack, num) == total * num)
        by (nonlinear_arith)
        requires
            ext3_words(pack, num) == pack * num * 3,
            base_words(pack, num) == pack * num,
            total == n * pack,
            stride == num * 3,
    ;
    assert(after[ctx.d_bk_f] == overwritten(memory[ctx.d_bk_f], 0, image.bk_f@));
    assert(after[ctx.d_bk_hg] == overwritten(memory[ctx.d_bk_hg], 0, image.hg@));
    assert(after[ctx.d_init_v] == overwritten(memory[ctx.d_init_v], 0, image.init_v@));
    assert forall|lane: int| 0 <= lane < total implies {
        &&& #[trigger] f_lane(after, ctx, lane) == window(image.bk_f@, 0, lane, stride)
        &&& hg_lane(after, ctx, lane) == window(image.hg@, 0, lane, stride)
        &&& base_lane(after, ctx, lane) == window(image.init_v@, 0, lane, num)
    } by {
        lemma_lane_bounds(lane, total, stride);
        lemma_lane_bounds(lane, total, num);
        assert(f_lane(after, ctx, lane) =~= window(image.bk_f@, 0, lane, stride));
        assert(hg_lane(after, ctx, lane) =~= window(image.hg@, 0, lane, stride));
        assert(base_lane(after, ctx, lane) =~= window(image.init_v@, 0, lane, num));
    }
}

/// An instance's lane is a lane of its part.
pub proof fn lemma_part_window(words: Seq<u32>, i: int, n: int, l: int, pack: int, stride: int)
    requires
        0 <= i < n,
        0 <= l < pack,
        0 <= stride,
        n * (pack * stride) <= words.len(),
    ensures
        window(words, 0, i * pack + l, stride) == window(
            ContextImage::part(words, i, pack * stride),
            0,
            l,
            stride,
        ),
{
    lemma_lane_bounds(l, pack, stride);
    lemma_lane_bounds(i, n, pack * stride);
    assert((i * pack + l) * stride == i * (pack * stride) + l * stride) by (nonlinear_arith);
    assert(window(words, 0, i * pack + l, stride) =~= window(
        ContextImage::part(words, i, pack * stride),
        0,
        l,
        stride,
    ));
}

/// A batch that was set up starts with the lanes that each of its instances would have alone.
pub proof fn lemma_set_up_alone(
    memory: Map<u64, Seq<u32>>,
    image: ContextImage,
    replies: Seq<DeviceReply>,
    own: Map<u64, Seq<u32>>,
    one: ContextImage,
    own_replies: Seq<DeviceReply>,
    hg_evals: Seq<u32>,
    init_v: Seq<u32>,
    i: int,
    e: nat,
)
    requires
        image.wf(),
        one.wf(),
        one.n_instances == 1,
        one.pack_size == image.pack_size,
        one.input_size == image.input_size,
        0 <= i < image.n_instances,
        image.holds(i, hg_evals, init_v),
        one.holds(0, hg_evals, init_v),
        has_buffers(memory, setup_context(image, replies)),
        has_buffers(own, setup_context(one, own_replies)),
    ensures
        same_lanes(
            set_up(memory, image, replies),
            setup_context(image, replies),
            i,
            set_up(own, one, own_replies),
            setup_context(one, own_replies),
            e,
        ),
        same_base_lanes(
            set_up(memory, image, replies),
            setup_context(image, replies),
            i,
            set_up(own, one, own_replies),
            setup_context(one, own_replies),
            e,
        ),
{
    let ctx = setup_context(image, replies);
    let ctx_one = setup_context(one, own_replies);
    let after = set_up(memory, image, replies);
    let own_after = set_up(own, one, own_replies);
    lemma_set_up_lanes(memory, image, replies);
    lemma_set_up_lanes(own, one, own_replies);
    let (n, pack) = (image.n_instances as int, image.pack_size as int);
    let num = image.input_size as int;
    let stride = num * 3;
    assert(pack * stride == ext3_words(pack, num)) by (nonlinear_arith)
        requires
            stride == num * 3,
            ext3_words(pack, num) == pack * num * 3,
    ;
    assert forall|l: int| 0 <= l < pack implies f_lane(own_after, ctx_one, l) == f_lane(
        after,
        ctx,
        i * pack + l,
    ) && hg_lane(own_after, ctx_one, l) == hg_lane(after, ctx, i * pack + l) && base_lane(
        own_after,
        ctx_one,
        l,
    ) == base_lane(after, ctx, i * pack + l) by {
        lemma_instance_lane(i, l, n, pack);
        lemma_instance_lane(0, l, 1, pack);
        lemma_part_window(image.bk_f@, i, n, l, pack, stride);
        lemma_part_window(image.hg@, i, n, l, pack, stride);
        lemma_part_window(image.init_v@, i, n, l, pack, num);
        lemma_part_window(one.bk_f@, 0, 1, l, pack, stride);
        lemma_part_window(one.hg@, 0, 1, l, pack, stride);
        lemma_part_window(one.init_v@, 0, 1, l, pack, num);
        assert(f_lane(after, ctx, i * pack + l) == window(image.bk_f@, 0, i * pack + l, stride));
        assert(f_lane(own_after, ctx_one, l) == window(one.bk_f@, 0, l, stride));
    }
}

/// The wire table of a context that was set up holds the base-field values.
pub proof fn lemma_set_up_promoted(
    memory: Map<u64, Seq<u32>>,
    image: ContextImage,
    replies: Seq<DeviceReply>,
    hg_evals: Seq<Vec<u32>>,
    init_v: Seq<Vec<u32>>,
    e: nat,
)
    requires
        e <= image.input_size,
        image.lays_out(hg_evals, init_v, image.pack_size, image.input_size),
        has_buffers(memory, setup_context(image, replies)),
    ensures
        holds_promoted(
            set_up(memory, image, replies),
            setup_context(image, replies),
            e,
        ),
{
    let ctx = setup_context(image, replies);
    let after = set_up(memory, image, replies);
    lemma_set_up_lanes(memory, image, replies);
    let (n, pack) = (image.n_instances as int, image.pack_size as int);
    let num = image.input_size as int;
    let stride = num * 3;
    assert(pack * stride == ext3_words(pack, num)) by (nonlinear_arith)
        requires
            stride == num * 3,
            ext3_words(pack, num) == pack * num * 3,
    ;
    assert forall|lane: int| 0 <= lane < ctx.total_batch_spec() implies #[trigger] elements(
        f_lane(after, ctx, lane),
        e,
    ) == base_elements(base_lane(after, ctx, lane), e) by {
        assert(pack > 0) by (nonlinear_arith)
            requires
                0 <= lane < n * pack,
                n >= 0,
        ;
        let (i, l) = (lane / pack, lane % pack);
        vstd::arithmetic::div_mod::lemma_fundamental_div_mod(lane, pack);
        vstd::arithmetic::div_mod::lemma_mod_bound(lane, pack);
        assert(lane == i * pack + l && 0 <= i < n) by (nonlinear_arith)
            requires
                lane == pack * i + l,
                0 <= l < pack,
                0 <= lane < n * pack,
        ;
        assert(image.holds(i, hg_evals[i]@, init_v[i]@));
        let src = init_v[i]@;
        let f = layout::base_as_promoted_lanes(src, num, pack);
        let v = layout::base_as_lanes(src, num, pack);
        lemma_part_window(image.bk_f@, i, n, l, pack, stride);
        lemma_part_window(image.init_v@, i, n, l, pack, num);
        assert(f_lane(after, ctx, lane) == window(f, 0, l, stride));
        assert(base_lane(after, ctx, lane) == window(v, 0, l, num));
        lemma_lane_bounds(l, pack, stride);
        lemma_lane_bounds(l, pack, num);
        assert forall|k: int| 0 <= k < e implies element(window(f, 0, l, stride), 3 * k)
            == #[trigger] base_elements(window(v, 0, l, num), e)[k] by {
            let w = l * stride + 3 * k;
            assert(w == 3 * (l * num + k)) by (nonlinear_arith)
                requires
                    w == l * stride + 3 * k,
                    stride == num * 3,
            ;
            assert(w / 3 == l * num + k && (w + 1) / 3 == l * num + k && (w + 2) / 3 == l * num
                + k);
            assert(w % 3 == 0 && (w + 1) % 3 == 1 && (w + 2) % 3 == 2);
            lemma_fundamental_div_mod_converse(l * num + k, num, l, k);
            assert(window(f, 0, l, stride)[3 * k] == f[w]);
            assert(window(f, 0, l, stride)[3 * k + 1] == f[w + 1]);
            assert(window(f, 0, l, stride)[3 * k + 2] == f[w + 2]);
            assert(window(v, 0, l, num)[k] == v[l * num + k]);
        }
        assert(elements(f_lane(after, ctx, lane), e) =~= base_elements(
            base_lane(after, ctx, lane),
            e,
        ));
    }
}

} // verus!
