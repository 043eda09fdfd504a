//! A GPU that runs its kernels as they are described is faithful: the contexts on it hold the
//! tables that a phase has come to, and what comes back are their sums and their words.

use vstd::arithmetic::div_mod::lemma_fundamental_div_mod_converse;
use vstd::arithmetic::power2::*;
use vstd::prelude::*;

use crate::agreement::lemma_pair_sums_same;
use crate::cuda_dispatch::{ext3_words, setup_context, BatchedGpuSumcheckContext, ContextImage};
use crate::device::{joined_downloads, DeviceReply};
use crate::dispatch::results_faithful;
use crate::engine::{ext3_limb, FieldEngine, M31x16Config};
use crate::extension::{broadcasts, lemma_bound_len, promoted};
use crate::instance::{
    component_words, lemma_word_counts, table_words, wire_words, with_front, InstView,
};
use crate::layout::{self, lemma_ext3_round_trip};
use crate::m31::{M31Ext3, Pack, M31};
use crate::machine::{
    self, base_elements, base_lane, challenge_of, effect, effects, element, elements, eval_op,
    f_lane, has_buffers, hg_lane, lane_is_first_folded, lane_is_folded, lane_result,
    lemma_eval_lanes, lemma_first_fold_lanes, lemma_instance_lane, lemma_lane_bounds,
    lemma_later_fold_lanes, lemma_part_window, lemma_set_up_lanes, limbs, set_up, window,
};
use crate::poly::folded;
use crate::product_gate::{pair_sums, round_source};
use crate::transfer::{lemma_promoted_upload, lemma_table_words_at, lemma_wire_words_at};

verus! {

/// The entries of a lane of a table.
pub open spec fn lane_of(table: Seq<Pack<M31Ext3>>, lane: int, n: nat) -> Seq<M31Ext3> {
    Seq::new(n, |k: int| table[k].lanes[lane])
}

/// A context holds the first `n` entries of these tables for instance `i`.
pub open spec fn holds_tables(
    memory: Map<u64, Seq<u32>>,
    ctx: BatchedGpuSumcheckContext,
    i: int,
    wires: Seq<Pack<M31Ext3>>,
    coefs: Seq<Pack<M31Ext3>>,
    n: nat,
) -> bool {
    forall|l: int|
        0 <= l < 16 ==> {
            &&& #[trigger] elements(f_lane(memory, ctx, i * 16 + l), n) == lane_of(wires, l, n)
            &&& elements(hg_lane(memory, ctx, i * 16 + l), n) == lane_of(coefs, l, n)
        }
}

/// A context holds the first `n` of these wire values for instance `i`.
pub open spec fn holds_wires(
    memory: Map<u64, Seq<u32>>,
    ctx: BatchedGpuSumcheckContext,
    i: int,
    vals: Seq<Pack<M31>>,
    n: nat,
) -> bool {
    forall|l: int|
        0 <= l < 16 ==> #[trigger] base_elements(base_lane(memory, ctx, i * 16 + l), n) == lane_of(
            promoted::<M31x16Config>(vals),
            l,
            n,
        )
}

// ---------------------------------------------------------------------------
// Setting up
// ---------------------------------------------------------------------------

/// A lane of a table that was laid out by lanes.
proof fn lemma_lane_words(table: Seq<Pack<M31Ext3>>, num: nat, l: int, k: int)
    requires
        0 <= l < 16,
        0 <= k < num,
    ensures
        ({
            let words = layout::ext3_as_lanes(
                table_words::<M31x16Config>(table, num),
                num as int,
                16,
            );
            element(window(words, 0, l, num as int * 3), 3 * k) == table[k].lanes[l]
        }),
{
    let source = table_words::<M31x16Config>(table, num);
    let words = layout::ext3_as_lanes(source, num as int, 16);
    let n = num as int;
    lemma_word_counts::<M31x16Config>(table, Seq::empty(), num);
    lemma_table_words_at::<M31x16Config>(table, num, k);
    lemma_lane_bounds(l, 16, n * 3);
    assert(16 * n * 3 == 16 * (n * 3));
    let own = M31x16Config::field_words(table[k]);
    assert forall|c: int| 0 <= c < 3 implies #[trigger] window(words, 0, l, n * 3)[3 * k + c]
        == ext3_limb(table[k].lanes[l], c) by {
        let w = l * (n * 3) + 3 * k + c;
        assert(w == 3 * (l * n + k) + c) by (nonlinear_arith)
            requires
                w == l * (n * 3) + 3 * k + c,
        ;
        assert(w / 3 == l * n + k && w % 3 == c);
        lemma_fundamental_div_mod_converse(l * n + k, n, l, k);
        assert(window(words, 0, l, n * 3)[3 * k + c] == words[w]);
        let at = layout::position(k, c, l, 3, 16);
        assert(words[w] == source[at]);
        assert(at == k * 48 + (c * 16 + l));
        assert(source.subrange(k * 48, k * 48 + 48)[c * 16 + l] == source[at]);
        assert((c * 16 + l) % 16 == l && (c * 16 + l) / 16 == c);
    }
    let own_lane = window(words, 0, l, n * 3);
    assert(own_lane[3 * k + 0] == table[k].lanes[l].c0.v);
    assert(own_lane[3 * k + 1] == table[k].lanes[l].c1.v);
    assert(own_lane[3 * k + 2] == table[k].lanes[l].c2.v);
}

/// A context that was set up from the words of tables holds these tables.
pub proof fn lemma_set_up_tables(
    memory: Map<u64, Seq<u32>>,
    image: ContextImage,
    replies: Seq<DeviceReply>,
    i: int,
    coefs: Seq<Pack<M31Ext3>>,
    vals: Seq<Pack<M31>>,
)
    requires
        image.wf(),
        image.pack_size == 16,
        0 <= i < image.n_instances,
        image.input_size <= vals.len(),
        image.holds(
            i,
            table_words::<M31x16Config>(coefs, image.input_size as nat),
            wire_words::<M31x16Config>(vals, image.input_size as nat),
        ),
        has_buffers(memory, setup_context(image, replies)),
    ensures
        ({
            let after = set_up(memory, image, replies);
            let ctx = setup_context(image, replies);
            let num = image.input_size as nat;
            &&& holds_tables(after, ctx, i, promoted::<M31x16Config>(vals), coefs, num)
            &&& holds_wires(after, ctx, i, vals, num)
        }),
{
    let after = set_up(memory, image, replies);
    let ctx = setup_context(image, replies);
    let num = image.input_size as nat;
    let n = image.n_instances as int;
    let wires = promoted::<M31x16Config>(vals);
    lemma_set_up_lanes(memory, image, replies);
    lemma_promoted_upload::<M31x16Config>(vals, num);
    lemma_word_counts::<M31x16Config>(wires, vals, num);
    let stride = num as int * 3;
    assert(16 * stride == ext3_words(16, num as int));
    let f = layout::ext3_as_lanes(table_words::<M31x16Config>(wires, num), num as int, 16);
    let hg = layout::ext3_as_lanes(table_words::<M31x16Config>(coefs, num), num as int, 16);
    let words = wire_words::<M31x16Config>(vals, num);
    let v = layout::base_as_lanes(words, num as int, 16);
    assert forall|l: int| 0 <= l < 16 implies {
        &&& #[trigger] elements(f_lane(after, ctx, i * 16 + l), num) == lane_of(wires, l, num)
        &&& elements(hg_lane(after, ctx, i * 16 + l), num) == lane_of(coefs, l, num)
        &&& base_elements(base_lane(after, ctx, i * 16 + l), num) == lane_of(wires, l, num)
    } by {
        lemma_instance_lane(i, l, n, 16);
        lemma_part_window(image.bk_f@, i, n, l, 16, stride);
        lemma_part_window(image.hg@, i, n, l, 16, stride);
        lemma_part_window(image.init_v@, i, n, l, 16, num as int);
        assert(f_lane(after, ctx, i * 16 + l) == window(f, 0, l, stride));
        assert(hg_lane(after, ctx, i * 16 + l) == window(hg, 0, l, stride));
        assert(base_lane(after, ctx, i * 16 + l) == window(v, 0, l, num as int));
        assert forall|k: int| 0 <= k < num implies #[trigger] lane_of(wires, l, num)[k] == element(
            window(f, 0, l, stride),
            3 * k,
        ) by {
            lemma_lane_words(wires, num, l, k);
        }
        assert forall|k: int| 0 <= k < num implies #[trigger] lane_of(coefs, l, num)[k] == element(
            window(hg, 0, l, stride),
            3 * k,
        ) by {
            lemma_lane_words(coefs, num, l, k);
        }
        lemma_lane_bounds(l, 16, num as int);
        assert forall|k: int| 0 <= k < num implies #[trigger] lane_of(wires, l, num)[k]
            == base_elements(window(v, 0, l, num as int), num)[k] by {
            let w = l * num + k;
            lemma_fundamental_div_mod_converse(w, num as int, l, k);
            lemma_wire_words_at::<M31x16Config>(vals, num, k);
            assert(window(v, 0, l, num as int)[k] == v[w]);
            assert(v[w] == words[k * 16 + l]);
            assert(words.subrange(k * 16, k * 16 + 16)[l] == words[k * 16 + l]);
        }
        assert(elements(f_lane(after, ctx, i * 16 + l), num) =~= lane_of(wires, l, num));
        assert(elements(hg_lane(after, ctx, i * 16 + l), num) =~= lane_of(coefs, l, num));
        assert(base_elements(base_lane(after, ctx, i * 16 + l), num) =~= lane_of(wires, l, num));
    }
    assert forall|l: int| 0 <= l < 16 implies #[trigger] base_elements(
        base_lane(after, ctx, i * 16 + l),
        num,
    ) == lane_of(wires, l, num) by {
        assert(elements(f_lane(after, ctx, i * 16 + l), num) == lane_of(wires, l, num));
    }
}

// ---------------------------------------------------------------------------
// Folds
// ---------------------------------------------------------------------------

/// A fold of packs folds each lane.
proof fn lemma_fold_lane(table: Seq<Pack<M31Ext3>>, c: M31Ext3, l: int, n: nat)
    requires
        0 <= l < 16,
        n <= table.len(),
    ensures
        machine::folded(lane_of(table, l, 2 * n), c, n) == lane_of(
            folded(table, n, M31x16Config::broadcast_spec(c)),
            l,
            n,
        ),
{
    let r = M31x16Config::broadcast_spec(c);
    let a = machine::folded(lane_of(table, l, 2 * n), c, n);
    let b = lane_of(folded(table, n, r), l, n);
    assert forall|k: int| 0 <= k < n implies #[trigger] a[k] == b[k] by {
        assert(r.lanes[l] == c);
    }
    assert(a =~= b);
}

/// The lanes of an instance, sixteen each.
proof fn lemma_instance_of(i: int, l: int, n: int)
    requires
        0 <= i < n,
        0 <= l < 16,
    ensures
        0 <= i * 16 + l < n * 16,
        (i * 16 + l) / 16 == i,
{
}

/// The first fold of a context leaves its tables folded.
proof fn lemma_first_fold_of(
    memory: Map<u64, Seq<u32>>,
    ctx: BatchedGpuSumcheckContext,
    wires: Seq<Pack<M31Ext3>>,
    coefs: Seq<Pack<M31Ext3>>,
    c: M31Ext3,
    eval_size: usize,
    r: Seq<Seq<u32>>,
    i: int,
)
    requires
        has_buffers(memory, ctx),
        ctx.pack_size == 16,
        0 <= i < ctx.n_instances,
        eval_size <= u32::MAX,
        2 * eval_size <= ctx.lane_stride_base,
        eval_size <= wires.len(),
        eval_size <= coefs.len(),
        r.len() == ctx.n_instances,
        forall|k: int| 0 <= k < r.len() ==> (#[trigger] r[k]).len() == 3,
        challenge_of(r[i]) == c,
        holds_tables(memory, ctx, i, wires, coefs, 2 * eval_size as nat),
        forall|l: int|
            0 <= l < 16 ==> #[trigger] base_elements(
                base_lane(memory, ctx, i * 16 + l),
                2 * eval_size as nat,
            ) == lane_of(wires, l, 2 * eval_size as nat),
    ensures
        ({
            let ops = ctx.first_fold_ops(eval_size, r);
            let after = effects(memory, ops, ops.len());
            let spread = M31x16Config::broadcast_spec(c);
            let e = eval_size as nat;
            &&& has_buffers(after, ctx)
            &&& holds_tables(after, ctx, i, folded(wires, e, spread), folded(coefs, e, spread), e)
        }),
{
    let e = eval_size as nat;
    let spread = M31x16Config::broadcast_spec(c);
    let ops = ctx.first_fold_ops(eval_size, r);
    let after = effects(memory, ops, ops.len());
    lemma_first_fold_lanes(memory, ctx, eval_size, r);
    assert forall|l: int| 0 <= l < 16 implies {
        &&& #[trigger] elements(f_lane(after, ctx, i * 16 + l), e) == lane_of(
            folded(wires, e, spread),
            l,
            e,
        )
        &&& elements(hg_lane(after, ctx, i * 16 + l), e) == lane_of(folded(coefs, e, spread), l, e)
    } by {
        let lane = i * 16 + l;
        lemma_instance_of(i, l, ctx.n_instances as int);
        assert(elements(f_lane(memory, ctx, lane), 2 * e) == lane_of(wires, l, 2 * e));
        assert(base_elements(base_lane(memory, ctx, lane), 2 * e) == lane_of(wires, l, 2 * e));
        lemma_fold_lane(wires, c, l, e);
        lemma_fold_lane(coefs, c, l, e);
        assert(lane_is_first_folded(memory, after, ctx, r, lane, e));
    }
}

/// A later fold of a context leaves its tables folded, in the other pair of buffers.
proof fn lemma_later_fold_of(
    memory: Map<u64, Seq<u32>>,
    ctx: BatchedGpuSumcheckContext,
    wires: Seq<Pack<M31Ext3>>,
    coefs: Seq<Pack<M31Ext3>>,
    c: M31Ext3,
    eval_size: usize,
    r: Seq<Seq<u32>>,
    i: int,
)
    requires
        has_buffers(memory, ctx),
        ctx.pack_size == 16,
        0 <= i < ctx.n_instances,
        eval_size <= u32::MAX,
        2 * eval_size <= ctx.lane_stride_base,
        eval_size <= wires.len(),
        eval_size <= coefs.len(),
        r.len() == ctx.n_instances,
        forall|k: int| 0 <= k < r.len() ==> (#[trigger] r[k]).len() == 3,
        challenge_of(r[i]) == c,
        holds_tables(memory, ctx, i, wires, coefs, 2 * eval_size as nat),
    ensures
        ({
            let after = effects(memory, ctx.later_fold_ops(eval_size, r), 2);
            let next = ctx.after_fold(1, true);
            let spread = M31x16Config::broadcast_spec(c);
            let e = eval_size as nat;
            &&& has_buffers(after, next)
            &&& holds_tables(after, next, i, folded(wires, e, spread), folded(coefs, e, spread), e)
        }),
{
    let e = eval_size as nat;
    let spread = M31x16Config::broadcast_spec(c);
    let after = effects(memory, ctx.later_fold_ops(eval_size, r), 2);
    let next = ctx.after_fold(1, true);
    lemma_later_fold_lanes(memory, ctx, eval_size, r);
    assert forall|l: int| 0 <= l < 16 implies {
        &&& #[trigger] elements(f_lane(after, next, i * 16 + l), e) == lane_of(
            folded(wires, e, spread),
            l,
            e,
        )
        &&& elements(hg_lane(after, next, i * 16 + l), e) == lane_of(folded(coefs, e, spread), l, e)
    } by {
        let lane = i * 16 + l;
        lemma_instance_of(i, l, ctx.n_instances as int);
        assert(elements(f_lane(memory, ctx, lane), 2 * e) == lane_of(wires, l, 2 * e));
        lemma_fold_lane(wires, c, l, e);
        lemma_fold_lane(coefs, c, l, e);
        assert(lane_is_folded(
            elements(f_lane(memory, ctx, lane), 2 * e),
            elements(hg_lane(memory, ctx, lane), 2 * e),
            challenge_of(r[lane / ctx.pack_size as int]),
            after,
            next,
            lane,
            e,
        ));
    }
}

/// The tables after the next challenge are the tables folded.
proof fn lemma_recovered_next(inst: InstView<M31x16Config>, first_phase: bool, var: nat)
    requires
        var < inst.input_var_num(),
        var < inst.phase_challenges(first_phase).len(),
    ensures
        ({
            let c = inst.phase_challenges(first_phase)[var as int];
            let spread = M31x16Config::broadcast_spec(c);
            let now = inst.recovered(first_phase, var).pad;
            let then = inst.recovered(first_phase, var + 1).pad;
            &&& then.v_evals == folded(now.v_evals, inst.eval_size(var), spread)
            &&& then.hg_evals == folded(now.hg_evals, inst.eval_size(var), spread)
        }),
{
}

/// Before the first challenge the tables start with the promoted wire values.
proof fn lemma_recovered_first(inst: InstView<M31x16Config>, first_phase: bool, n: nat, k: int)
    requires
        n <= inst.layer.input_vals@.len(),
        n <= inst.pad.v_evals.len(),
        0 <= k < n,
    ensures
        inst.recovered(first_phase, 0).pad.v_evals[k] == promoted::<M31x16Config>(
            inst.layer.input_vals@,
        )[k],
{
}

/// A challenge is read back from its limbs.
proof fn lemma_challenge_words(c: M31Ext3)
    ensures
        challenge_of(M31x16Config::challenge_limbs_spec(c)) == c,
{
}

/// The first fold on the GPU takes the tables that a phase starts from on to those after the first
/// challenge.
pub proof fn lemma_first_fold_tables(
    memory: Map<u64, Seq<u32>>,
    ctx: BatchedGpuSumcheckContext,
    inst: InstView<M31x16Config>,
    first_phase: bool,
    eval_size: usize,
    r: Seq<Seq<u32>>,
    i: int,
)
    requires
        has_buffers(memory, ctx),
        ctx.pack_size == 16,
        0 <= i < ctx.n_instances,
        0 < inst.input_var_num(),
        0 < inst.phase_challenges(first_phase).len(),
        eval_size == inst.eval_size(0),
        eval_size <= u32::MAX,
        2 * eval_size <= ctx.lane_stride_base,
        2 * eval_size <= inst.layer.input_vals@.len(),
        2 * eval_size <= inst.pad.v_evals.len(),
        2 * eval_size <= inst.pad.hg_evals.len(),
        r.len() == ctx.n_instances,
        forall|k: int| 0 <= k < r.len() ==> (#[trigger] r[k]).len() == 3,
        r[i] == M31x16Config::challenge_limbs_spec(inst.phase_challenges(first_phase)[0]),
        holds_wires(memory, ctx, i, inst.layer.input_vals@, 2 * eval_size as nat),
        holds_tables(
            memory,
            ctx,
            i,
            inst.recovered(first_phase, 0).pad.v_evals,
            inst.recovered(first_phase, 0).pad.hg_evals,
            2 * eval_size as nat,
        ),
    ensures
        ({
            let ops = ctx.first_fold_ops(eval_size, r);
            let after = effects(memory, ops, ops.len());
            let then = inst.recovered(first_phase, 1).pad;
            &&& has_buffers(after, ctx)
            &&& holds_tables(after, ctx, i, then.v_evals, then.hg_evals, eval_size as nat)
        }),
{
    let e = eval_size as nat;
    let c = inst.phase_challenges(first_phase)[0];
    let now = inst.recovered(first_phase, 0).pad;
    let (wires, coefs) = (now.v_evals, now.hg_evals);
    let vals = promoted::<M31x16Config>(inst.layer.input_vals@);
    assert forall|l: int| 0 <= l < 16 implies #[trigger] base_elements(
        base_lane(memory, ctx, i * 16 + l),
        2 * e,
    ) == lane_of(wires, l, 2 * e) by {
        assert forall|k: int| 0 <= k < 2 * e implies #[trigger] lane_of(vals, l, 2 * e)[k]
            == lane_of(wires, l, 2 * e)[k] by {
            lemma_recovered_first(inst, first_phase, 2 * e, k);
        }
        assert(lane_of(vals, l, 2 * e) =~= lane_of(wires, l, 2 * e));
    }
    lemma_challenge_words(c);
    lemma_first_fold_of(memory, ctx, wires, coefs, c, eval_size, r, i);
    lemma_recovered_next(inst, first_phase, 0);
}

/// A later fold on the GPU takes the tables that a phase has come to on to those after the next
/// challenge.
pub proof fn lemma_later_fold_tables(
    memory: Map<u64, Seq<u32>>,
    ctx: BatchedGpuSumcheckContext,
    inst: InstView<M31x16Config>,
    first_phase: bool,
    var: nat,
    eval_size: usize,
    r: Seq<Seq<u32>>,
    i: int,
)
    requires
        has_buffers(memory, ctx),
        ctx.pack_size == 16,
        0 <= i < ctx.n_instances,
        var < inst.input_var_num(),
        var < inst.phase_challenges(first_phase).len(),
        eval_size == inst.eval_size(var),
        eval_size <= u32::MAX,
        2 * eval_size <= ctx.lane_stride_base,
        eval_size <= inst.recovered(first_phase, var).pad.v_evals.len(),
        eval_size <= inst.recovered(first_phase, var).pad.hg_evals.len(),
        r.len() == ctx.n_instances,
        forall|k: int| 0 <= k < r.len() ==> (#[trigger] r[k]).len() == 3,
        r[i] == M31x16Config::challenge_limbs_spec(inst.phase_challenges(first_phase)[var as int]),
        holds_tables(
            memory,
            ctx,
            i,
            inst.recovered(first_phase, var).pad.v_evals,
            inst.recovered(first_phase, var).pad.hg_evals,
            2 * eval_size as nat,
        ),
    ensures
        ({
            let after = effects(memory, ctx.later_fold_ops(eval_size, r), 2);
            let next = ctx.after_fold(1, true);
            let then = inst.recovered(first_phase, var + 1).pad;
            &&& has_buffers(after, next)
            &&& holds_tables(after, next, i, then.v_evals, then.hg_evals, eval_size as nat)
        }),
{
    let c = inst.phase_challenges(first_phase)[var as int];
    let now = inst.recovered(first_phase, var).pad;
    lemma_challenge_words(c);
    lemma_later_fold_of(memory, ctx, now.v_evals, now.hg_evals, c, eval_size, r, i);
    lemma_recovered_next(inst, first_phase, var);
}

/// The first of a context's folds goes by the name of round zero, all others by that of their own
/// round: the next context is the one that the fold of any later round leaves.
proof fn lemma_later_fold_any(ctx: BatchedGpuSumcheckContext, eval_size: usize, var: usize, r: Seq<
    Seq<u32>,
>)
    requires
        var > 0,
    ensures
        ctx.fold_ops(eval_size, var, r) == ctx.later_fold_ops(eval_size, r),
        ctx.fold_ops(eval_size, var, r).len() == 2,
        ctx.after_fold(var, true) == ctx.after_fold(1, true),
{
}

/// What a context on a GPU holds of instance `i` before a round of a phase: the tables that the
/// phase has come to, and before the first round the wire values too.
pub open spec fn holds_round(
    memory: Map<u64, Seq<u32>>,
    ctx: BatchedGpuSumcheckContext,
    inst: InstView<M31x16Config>,
    first_phase: bool,
    var: nat,
    i: int,
) -> bool {
    let size = pow2((inst.input_var_num() - var) as nat);
    let tables = inst.recovered(first_phase, var).pad;
    &&& has_buffers(memory, ctx)
    &&& holds_tables(memory, ctx, i, tables.v_evals, tables.hg_evals, size)
    &&& var == 0 ==> holds_wires(memory, ctx, i, inst.layer.input_vals@, size)
}

/// Whatever the round: where the buffers of a context hold the tables before it, and all operations
/// of its fold succeed, the buffers of the context that the fold leaves hold the tables before the
/// next round.
pub proof fn lemma_fold_tables(
    memory: Map<u64, Seq<u32>>,
    ctx: BatchedGpuSumcheckContext,
    inst: InstView<M31x16Config>,
    first_phase: bool,
    var: usize,
    eval_size: usize,
    r: Seq<Seq<u32>>,
    i: int,
)
    requires
        inst.wf(),
        ctx.pack_size == 16,
        ctx.lane_stride_base == pow2(inst.input_var_num()),
        0 <= i < ctx.n_instances,
        var < inst.input_var_num(),
        var < inst.phase_challenges(first_phase).len(),
        eval_size == inst.eval_size(var as nat),
        eval_size <= u32::MAX,
        r.len() == ctx.n_instances,
        forall|k: int| 0 <= k < r.len() ==> (#[trigger] r[k]).len() == 3,
        r[i] == M31x16Config::challenge_limbs_spec(inst.phase_challenges(first_phase)[var as int]),
        holds_round(memory, ctx, inst, first_phase, var as nat, i),
    ensures
        ({
            let ops = ctx.fold_ops(eval_size, var, r);
            holds_round(
                effects(memory, ops, ops.len()),
                ctx.after_fold(var, true),
                inst,
                first_phase,
                (var + 1) as nat,
                i,
            )
        }),
{
    let n = inst.input_var_num();
    lemma_pow2_unfold((n - var) as nat);
    if var > 0 {
        lemma_pow2_strictly_increases((n - var) as nat, n);
    }
    assert(pow2((n - var) as nat) == 2 * eval_size);
    let rs = broadcasts::<M31x16Config>(inst.phase_challenges(first_phase));
    lemma_bound_len(
        with_front(inst.pad.v_evals, promoted::<M31x16Config>(inst.layer.input_vals@)),
        rs,
        n,
        var as nat,
    );
    lemma_bound_len(inst.pad.hg_evals, rs, n, var as nat);
    if var == 0 {
        lemma_first_fold_tables(memory, ctx, inst, first_phase, eval_size, r, i);
    } else {
        lemma_later_fold_any(ctx, eval_size, var, r);
        lemma_later_fold_tables(
            memory,
            ctx,
            inst,
            first_phase,
            var as nat,
            eval_size,
            r,
            i,
        );
    }
}

// ---------------------------------------------------------------------------
// What comes back
// ---------------------------------------------------------------------------

/// Sums over packs are sums over each lane.
proof fn lemma_sums_lane(
    f: Seq<Pack<M31Ext3>>,
    h: Seq<Pack<M31Ext3>>,
    x: Seq<M31Ext3>,
    y: Seq<M31Ext3>,
    gates: Seq<bool>,
    l: int,
    n: nat,
)
    requires
        0 <= l < 16,
        forall|k: int| 0 <= k < 2 * n ==> #[trigger] x[k] == f[k].lanes[l],
        forall|k: int| 0 <= k < 2 * n ==> #[trigger] y[k] == h[k].lanes[l],
    ensures
        pair_sums(x, y, gates, n).0 == pair_sums(f, h, gates, n).0.lanes[l],
        pair_sums(x, y, gates, n).1 == pair_sums(f, h, gates, n).1.lanes[l],
        pair_sums(x, y, gates, n).2 == pair_sums(f, h, gates, n).2.lanes[l],
    decreases n,
{
    if n > 0 {
        lemma_sums_lane(f, h, x, y, gates, l, (n - 1) as nat);
    }
}

/// One of three sums.
spec fn nth<T>(sums: (T, T, T), c: int) -> T {
    if c == 0 {
        sums.0
    } else if c == 1 {
        sums.1
    } else {
        sums.2
    }
}

/// Limbs by lane and by component are the components' words.
proof fn lemma_component(
    lanes: [[u32; 9]; 16],
    sums: (Pack<M31Ext3>, Pack<M31Ext3>, Pack<M31Ext3>),
    c: int,
)
    requires
        0 <= c < 3,
        forall|l: int|
            0 <= l < 16 ==> #[trigger] lanes@[l]@ == limbs(sums.0.lanes[l]) + limbs(sums.1.lanes[l])
                + limbs(sums.2.lanes[l]),
    ensures
        component_words(lanes, 16, c) == M31x16Config::field_words(nth(sums, c)),
{
    let a = component_words(lanes, 16, c);
    let b = M31x16Config::field_words(nth(sums, c));
    assert forall|w: int| 0 <= w < 48 implies #[trigger] a[w] == b[w] by {
        let l = w % 16;
        assert(lanes@[l]@ == limbs(sums.0.lanes[l]) + limbs(sums.1.lanes[l]) + limbs(
            sums.2.lanes[l],
        ));
        assert(0 <= w / 16 < 3);
    }
    assert(a =~= b);
}

/// The results of an evaluation on the GPU are the words of the sums over the tables.
proof fn lemma_eval_of(
    memory: Map<u64, Seq<u32>>,
    ctx: BatchedGpuSumcheckContext,
    wires: Seq<Pack<M31Ext3>>,
    coefs: Seq<Pack<M31Ext3>>,
    eval_size: usize,
    words: Seq<u32>,
    results: Seq<[[u32; 9]; 16]>,
    i: int,
)
    requires
        has_buffers(memory, ctx),
        ctx.pack_size == 16,
        0 <= i < ctx.n_instances,
        eval_size <= u32::MAX,
        holds_tables(memory, ctx, i, wires, coefs, 2 * eval_size as nat),
        words == effect(memory, eval_op(ctx, eval_size))[ctx.d_result].take(
            ctx.total_batch_spec() * 9,
        ),
        BatchedGpuSumcheckContext::decodes(ctx.n_instances as int, 16, words, results),
    ensures
        ({
            let e = eval_size as nat;
            let sums = pair_sums(wires, coefs, Seq::new(2 * e, |k: int| true), e);
            &&& component_words(results[i], 16, 0) == M31x16Config::field_words(sums.0)
            &&& component_words(results[i], 16, 1) == M31x16Config::field_words(sums.1)
            &&& component_words(results[i], 16, 2) == M31x16Config::field_words(sums.2)
        }),
{
    let e = eval_size as nat;
    let total = ctx.total_batch_spec();
    let gates = Seq::new(2 * e, |k: int| true);
    let sums = pair_sums(wires, coefs, gates, e);
    let after = effect(memory, eval_op(ctx, eval_size));
    assert forall|l: int| 0 <= l < 16 implies #[trigger] results[i]@[l]@ == limbs(sums.0.lanes[l])
        + limbs(sums.1.lanes[l]) + limbs(sums.2.lanes[l]) by {
        let lane = i * 16 + l;
        lemma_instance_of(i, l, ctx.n_instances as int);
        lemma_eval_lanes(memory, ctx, eval_size, lane);
        let x = elements(f_lane(memory, ctx, lane), 2 * e);
        let y = elements(hg_lane(memory, ctx, lane), 2 * e);
        assert(x == lane_of(wires, l, 2 * e));
        assert(y == lane_of(coefs, l, 2 * e));
        lemma_sums_lane(wires, coefs, x, y, gates, l, e);
        let own = lane_result(after, ctx, lane);
        assert(own == limbs(sums.0.lanes[l]) + limbs(sums.1.lanes[l]) + limbs(sums.2.lanes[l]));
        lemma_lane_bounds(lane, total, 9);
        assert forall|c: int| 0 <= c < 9 implies #[trigger] results[i]@[l]@[c] == own[c] by {
            assert(own[c] == words[lane * 9 + c]);
        }
        assert(results[i]@[l]@ =~= own);
    }
    lemma_component(results[i], sums, 0);
    lemma_component(results[i], sums, 1);
    lemma_component(results[i], sums, 2);
}

/// The results of an evaluation on the GPU are the words of the round's sums.
pub proof fn lemma_eval_faithful(
    memory: Map<u64, Seq<u32>>,
    ctx: BatchedGpuSumcheckContext,
    inst: InstView<M31x16Config>,
    first_phase: bool,
    var: nat,
    eval_size: usize,
    words: Seq<u32>,
    results: Seq<[[u32; 9]; 16]>,
    i: int,
)
    requires
        has_buffers(memory, ctx),
        ctx.pack_size == 16,
        0 <= i < ctx.n_instances,
        eval_size == inst.eval_size(var),
        eval_size <= u32::MAX,
        holds_tables(
            memory,
            ctx,
            i,
            inst.recovered(first_phase, var).pad.v_evals,
            inst.recovered(first_phase, var).pad.hg_evals,
            2 * eval_size as nat,
        ),
        var == 0 ==> 2 * eval_size <= inst.layer.input_vals@.len() && 2 * eval_size
            <= inst.pad.v_evals.len(),
        words == effect(memory, eval_op(ctx, eval_size))[ctx.d_result].take(
            ctx.total_batch_spec() * 9,
        ),
        BatchedGpuSumcheckContext::decodes(ctx.n_instances as int, 16, words, results),
    ensures
        results_faithful(inst.recovered(first_phase, var), var, results[i]),
{
    let e = eval_size as nat;
    let now = inst.recovered(first_phase, var);
    let source = round_source::<M31x16Config>(var, now.pad.v_evals, now.layer.input_vals@);
    lemma_eval_of(
        memory,
        ctx,
        now.pad.v_evals,
        now.pad.hg_evals,
        eval_size,
        words,
        results,
        i,
    );
    if var == 0 {
        assert forall|k: int| 0 <= k < 2 * e implies #[trigger] source[k] == now.pad.v_evals[k] by {
            lemma_recovered_first(inst, first_phase, 2 * e, k);
        }
    }
    let gates = Seq::new(2 * e, |k: int| true);
    lemma_pair_sums_same(
        source,
        now.pad.hg_evals,
        gates,
        now.pad.v_evals,
        now.pad.hg_evals,
        gates,
        e,
    );
}

/// Where the lanes of replies are the lanes of a table, they join to the table laid out by lanes.
proof fn lemma_joined(replies: Seq<DeviceReply>, table: Seq<Pack<M31Ext3>>, n: nat, m: nat)
    requires
        m <= 16,
        forall|l: int|
            0 <= l < 16 ==> (#[trigger] replies[l]).download(3 * n) is Some && elements(
                replies[l].download(3 * n)->0,
                n,
            ) == lane_of(table, l, n),
    ensures
        joined_downloads(replies, m, 3 * n) == layout::ext3_as_lanes(
            table_words::<M31x16Config>(table, n),
            n as int,
            16,
        ).take(m * (3 * n as int)),
    decreases m,
{
    let words = layout::ext3_as_lanes(table_words::<M31x16Config>(table, n), n as int, 16);
    let count = 3 * n as int;
    lemma_lane_bounds(0, 16, count);
    if m == 0 {
        assert(words.take(0) =~= Seq::<u32>::empty());
    } else {
        let l = m - 1;
        lemma_joined(replies, table, n, (m - 1) as nat);
        lemma_lane_bounds(l, 16, count);
        assert(m * count == l * count + count) by (nonlinear_arith)
            requires
                l == m - 1,
        ;
        let own = replies[l].download(3 * n)->0;
        assert(own.len() == count);
        let lane = window(words, 0, l, count);
        assert forall|w: int| 0 <= w < count implies #[trigger] own[w] == lane[w] by {
            let k = w / 3;
            lemma_lane_words(table, n, l, k);
            assert(elements(own, n)[k] == lane_of(table, l, n)[k]);
            assert(element(own, 3 * k) == element(lane, 3 * k));
            assert(w == 3 * k || w == 3 * k + 1 || w == 3 * k + 2);
        }
        assert(own =~= lane);
        assert(words.take(m * count) =~= words.take(l * count) + lane);
    }
}

/// The words that come back from the GPU, lane by lane, are those of the table.
pub proof fn lemma_download_faithful(
    memory: Map<u64, Seq<u32>>,
    ctx: BatchedGpuSumcheckContext,
    i: int,
    wires: Seq<Pack<M31Ext3>>,
    coefs: Seq<Pack<M31Ext3>>,
    n: nat,
    replies: Seq<DeviceReply>,
    of_wires: bool,
)
    requires
        has_buffers(memory, ctx),
        ctx.pack_size == 16,
        0 <= i < ctx.n_instances,
        3 * n <= ctx.lane_stride_ext3,
        holds_tables(memory, ctx, i, wires, coefs, n),
        forall|l: int|
            0 <= l < 16 ==> (#[trigger] replies[l]).download(3 * n) == Some(
                if of_wires {
                    f_lane(memory, ctx, i * 16 + l)
                } else {
                    hg_lane(memory, ctx, i * 16 + l)
                }.take(3 * n as int),
            ),
    ensures
        layout::lanes_as_ext3(joined_downloads(replies, 16, 3 * n), n as int, 16)
            == table_words::<M31x16Config>(
            if of_wires {
                wires
            } else {
                coefs
            },
            n,
        ),
{
    let table = if of_wires {
        wires
    } else {
        coefs
    };
    let stride = ctx.lane_stride_ext3 as int;
    assert forall|l: int| 0 <= l < 16 implies (#[trigger] replies[l]).download(3 * n) is Some
        && elements(replies[l].download(3 * n)->0, n) == lane_of(table, l, n) by {
        let lane = i * 16 + l;
        lemma_instance_of(i, l, ctx.n_instances as int);
        lemma_lane_bounds(lane, ctx.total_batch_spec(), stride);
        assert(elements(f_lane(memory, ctx, lane), n) == lane_of(wires, l, n));
        let whole = if of_wires {
            f_lane(memory, ctx, lane)
        } else {
            hg_lane(memory, ctx, lane)
        };
        assert(whole.len() == stride);
        let own = whole.take(3 * n as int);
        assert(replies[l].download(3 * n) == Some(own));
        assert forall|k: int| 0 <= k < n implies #[trigger] elements(own, n)[k] == elements(
            whole,
            n,
        )[k] by {
            assert(own[3 * k] == whole[3 * k] && own[3 * k + 1] == whole[3 * k + 1] && own[3 * k
                + 2] == whole[3 * k + 2]);
        }
        assert(elements(own, n) =~= elements(whole, n));
    }
    lemma_joined(replies, table, n, 16);
    let source = table_words::<M31x16Config>(table, n);
    let words = layout::ext3_as_lanes(source, n as int, 16);
    assert(words.take(16 * (3 * n as int)) =~= words);
    lemma_word_counts::<M31x16Config>(table, Seq::empty(), n);
    lemma_ext3_round_trip(source, n as int, 16);
}

} // verus!
