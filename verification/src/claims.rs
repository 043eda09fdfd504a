//! The claims that a layer leaves are values of its inputs at the challenges that it leaves.

use vstd::arithmetic::power2::*;
use vstd::prelude::*;

use crate::algebra::{lemma_dot_commutes, lemma_dot_same};
use crate::engine::FieldEngine;
use crate::extension::{
    bound, broadcasts, lemma_all_bound, lemma_bound_len, lemma_bound_same, lemma_wires_bound,
    promoted,
};
use crate::field::Field;
use crate::gkr_protocol::{eq_table, output_share, wires_at};
use crate::instance::{lanes_combined, InstView};
use crate::poly::{dot, line_at};
use crate::product_gate::round_source;
use crate::protocol::{lemma_folded, lemma_shape_kept, Event, LayerView, StageView};
use crate::rounds::all_valid;

verus! {

/// The front of `table` is `t` with the variables of `rs` bound, out of `n`.
pub open spec fn is_bound<E: Field>(table: Seq<E>, t: Seq<E>, rs: Seq<E>, n: nat) -> bool {
    forall|j: int|
        0 <= j < pow2((n - rs.len()) as nat) ==> #[trigger] table[j] == bound(
            t,
            rs,
            n,
            rs.len(),
        )[j]
}

/// Folding binds one variable more.
pub proof fn lemma_is_bound_fold<E: Field>(
    table: Seq<E>,
    next: Seq<E>,
    t: Seq<E>,
    rs: Seq<E>,
    n: nat,
    r: E,
)
    requires
        rs.len() < n,
        pow2(n) <= t.len(),
        is_bound(table, t, rs, n),
        forall|j: int|
            0 <= j < pow2((n - rs.len() - 1) as nat) ==> #[trigger] next[j] == line_at(
                table[2 * j],
                table[2 * j + 1],
                r,
            ),
    ensures
        is_bound(next, t, rs.push(r), n),
{
    let k = rs.len();
    let qs = rs.push(r);
    let size = pow2((n - k - 1) as nat);
    lemma_pow2_unfold((n - k) as nat);
    lemma_bound_same(t, rs, qs, n, k);
    lemma_bound_len(t, qs, n, k);
    assert(size <= t.len()) by {
        if k + 1 > 0 {
            lemma_pow2_strictly_increases((n - k - 1) as nat, n);
        }
    }
    assert forall|j: int| 0 <= j < size implies #[trigger] next[j] == bound(t, qs, n, k + 1)[j] by {
        assert(table[2 * j] == bound(t, rs, n, k)[2 * j]);
        assert(table[2 * j + 1] == bound(t, rs, n, k)[2 * j + 1]);
        assert(qs[k as int] == r);
    }
}

/// What is known of an instance at a stage, on the host. `shares` are the shares of the wire
/// table that the processes have sent.
pub open spec fn inst_on_track<F: FieldEngine>(
    inst: InstView<F>,
    stage: StageView<F::ChallengeField>,
    shares: Seq<F::ChallengeField>,
) -> bool {
    let n = inst.input_var_num();
    let vals = inst.layer.input_vals@;
    let lanes = inst.simd_var_num();
    let world = inst.mpi_var_num;
    let at_rx = wires_at::<F>(vals, inst.rx);
    let lanes_ready = forall|l: int|
        0 <= l < F::pack_size_spec() ==> #[trigger] inst.pad.eq_simd[l] == eq_table(
            inst.r_simd_var,
        )[l];
    let claimed = inst.vx() == dot(eq_table(inst.r_mpi_var), shares, pow2(world));
    let second = {
        &&& lanes_ready
        &&& claimed
        &&& inst.process_weights() == eq_table(inst.r_mpi_var)
    };
    match stage {
        StageView::GpuSetup { first } => !first ==> second,
        StageView::Combine { first, var } | StageView::Challenge { first, var } => {
            let rs = if first {
                inst.rx
            } else {
                inst.ry
            };
            &&& var > 0 ==> is_bound(
                inst.pad.v_evals,
                promoted::<F>(vals),
                broadcasts::<F>(rs),
                n,
            )
            &&& !first ==> second
        },
        StageView::SimdCombine { var } | StageView::SimdChallenge { var } => {
            &&& at_rx.valid()
            &&& is_bound(inst.pad.simd_v, F::unpack_spec(at_rx), inst.r_simd_var, lanes)
        },
        StageView::Gather => inst.v_share() == output_share::<F>(vals, inst.next_challenge()),
        StageView::MpiChallenge { var } => is_bound(
            inst.pad.mpi_v,
            shares,
            inst.r_mpi_var,
            world,
        ),
        StageView::VxAppend | StageView::Broadcast => claimed,
        StageView::VyCombine => {
            &&& inst.vy_share() == lanes_combined::<F>(
                wires_at::<F>(vals, inst.ry),
                eq_table(inst.r_simd_var),
            )
            &&& second
        },
        StageView::VyAppend { .. } | StageView::Done { .. } => claimed,
        _ => true,
    }
}

/// What is known of a layer that is proved on the host, for want of a GPU or by choice.
pub open spec fn on_track<F: FieldEngine>(
    layer: LayerView<F>,
    shares: Seq<Seq<F::ChallengeField>>,
) -> bool {
    &&& !layer.gpu
    &&& layer.input_var_num() >= 1
    &&& forall|i: int|
        0 <= i < layer.insts.len() ==> all_valid(
            promoted::<F>((#[trigger] layer.insts[i]).layer.input_vals@),
            pow2(layer.input_var_num()),
        )
    &&& layer.stage is MpiChallenge || layer.stage is VxAppend || layer.stage is Broadcast ==> (
    forall|i: int|
        0 <= i < layer.insts.len() ==> (#[trigger] shares[i]).len() >= pow2(layer.mpi_var_num())
            && all_valid(shares[i], pow2(layer.mpi_var_num())))
    &&& forall|i: int|
        0 <= i < layer.insts.len() ==> inst_on_track(
            #[trigger] layer.insts[i],
            layer.stage,
            shares[i],
        )
}

/// The shares once an answer has come in.
pub open spec fn shares_after<E>(event: Event<E>, shares: Seq<Seq<E>>) -> Seq<Seq<E>> {
    match event {
        Event::Gathered { v, .. } => v,
        _ => shares,
    }
}

/// No GPU becomes ready.
pub open spec fn stays_on_host<E>(event: Event<E>) -> bool {
    match event {
        Event::SetUp { ready } => !ready,
        _ => true,
    }
}

/// The shares that come in are in canonical form.
pub open spec fn shares_valid<E: Field>(event: Event<E>, len: nat) -> bool {
    match event {
        Event::Gathered { v, .. } => forall|i: int|
            0 <= i < v.len() ==> all_valid(#[trigger] v[i], len),
        _ => true,
    }
}

/// After the last round over the wire variables the wire table holds the wires' values at the
/// challenge.
proof fn lemma_phase_done<F: FieldEngine>(inst: InstView<F>, rs: Seq<F::ChallengeField>)
    requires
        inst.wf(),
        inst.input_var_num() >= 1,
        rs.len() == inst.input_var_num(),
        all_valid(promoted::<F>(inst.layer.input_vals@), pow2(inst.input_var_num())),
        is_bound(
            inst.pad.v_evals,
            promoted::<F>(inst.layer.input_vals@),
            broadcasts::<F>(rs),
            inst.input_var_num(),
        ),
    ensures
        inst.pad.v_evals[0] == wires_at::<F>(inst.layer.input_vals@, rs),
        wires_at::<F>(inst.layer.input_vals@, rs).valid(),
{
    lemma2_to64();
    lemma_wires_bound::<F>(inst.layer.input_vals@, rs);
    assert(broadcasts::<F>(rs).len() == rs.len());
}

/// The start of the rounds over the lane variables.
proof fn lemma_lanes_start<F: FieldEngine>(inst: InstView<F>)
    requires
        inst.wf(),
        inst.pad.v_evals[0].valid(),
        inst.r_simd_var.len() == 0,
    ensures
        is_bound(
            inst.simd_vars_prepared().pad.simd_v,
            F::unpack_spec(inst.pad.v_evals[0]),
            inst.r_simd_var,
            inst.simd_var_num(),
        ),
{
}

/// After the rounds over the lane variables, this process's share is the wires' value at both
/// challenges.
proof fn lemma_lanes_done<F: FieldEngine>(inst: InstView<F>)
    requires
        inst.wf(),
        inst.r_simd_var.len() == inst.simd_var_num(),
        wires_at::<F>(inst.layer.input_vals@, inst.rx).valid(),
        is_bound(
            inst.pad.simd_v,
            F::unpack_spec(wires_at::<F>(inst.layer.input_vals@, inst.rx)),
            inst.r_simd_var,
            inst.simd_var_num(),
        ),
    ensures
        inst.v_share() == output_share::<F>(inst.layer.input_vals@, inst.next_challenge()),
{
    let v = wires_at::<F>(inst.layer.input_vals@, inst.rx);
    let t = F::unpack_spec(v);
    let c = F::ChallengeField::zero_spec();
    F::law_pack_size();
    F::law_unpack(v, v, c, 0);
    assert forall|l: int| 0 <= l < pow2(inst.simd_var_num()) implies (#[trigger] t[l]).valid() by {
        F::law_unpack(v, v, c, l);
    }
    lemma2_to64();
    lemma_all_bound(t, inst.r_simd_var, inst.simd_var_num());
    lemma_dot_commutes(
        eq_table(inst.r_simd_var),
        t,
        pow2(inst.simd_var_num()),
    );
}

/// Starting a round keeps what is known.
proof fn lemma_round_on_track<F: FieldEngine>(
    layer: LayerView<F>,
    first: bool,
    var: nat,
    shares: Seq<Seq<F::ChallengeField>>,
)
    requires
        layer.uniform(),
        !layer.gpu,
        layer.input_var_num() >= 1,
        var <= layer.input_var_num(),
        layer.seen_before_round(first, var),
        forall|i: int|
            0 <= i < layer.insts.len() ==> all_valid(
                promoted::<F>((#[trigger] layer.insts[i]).layer.input_vals@),
                pow2(layer.input_var_num()),
            ),
        forall|i: int|
            0 <= i < layer.insts.len() ==> inst_on_track(
                #[trigger] layer.insts[i],
                StageView::Combine { first, var },
                shares[i],
            ),
    ensures
        on_track(layer.start_round(first, var).0, shares),
{
    let next = layer.start_round(first, var).0;
    let n = layer.input_var_num();
    if var < n {
        assert(next.insts == layer.insts);
    } else if first {
        assert forall|i: int| 0 <= i < next.insts.len() implies {
            let inst = #[trigger] next.insts[i];
            &&& inst.layer == layer.insts[i].layer
            &&& inst_on_track(inst, next.stage, shares[i])
        } by {
            let inst = layer.insts[i];
            assert(inst.wf());
            assert(inst.rx.len() == n);
            lemma_phase_done(inst, inst.rx);
            lemma_lanes_start(inst);
            let c = F::ChallengeField::zero_spec();
            F::law_pack_size();
            F::law_unpack(inst.pad.v_evals[0], inst.pad.hg_evals[0], c, 0);
            F::law_unpack(inst.pad.hg_evals[0], inst.pad.v_evals[0], c, 0);
            if inst.simd_var_num() == 0 {
                lemma_lanes_done(next.insts[i]);
            }
        }
        assert(next.insts[0].layer == layer.insts[0].layer);
    } else {
        assert(next.insts == layer.insts);
        assert forall|i: int| 0 <= i < next.insts.len() implies inst_on_track(
            #[trigger] next.insts[i],
            next.stage,
            shares[i],
        ) by {
            let inst = layer.insts[i];
            assert(inst.wf());
            assert(inst.ry.len() == n);
            lemma_phase_done(inst, inst.ry);
            F::law_pack_size();
            assert(inst.r_simd_var.len() == layer.simd_var_num());
            lemma_dot_same(
                F::unpack_spec(inst.pad.v_evals[0]),
                inst.pad.eq_simd,
                F::unpack_spec(inst.pad.v_evals[0]),
                eq_table(inst.r_simd_var),
                F::pack_size_spec() as nat,
            );
        }
    }
}

/// Starting a phase keeps what is known.
proof fn lemma_phase_on_track<F: FieldEngine>(
    layer: LayerView<F>,
    first: bool,
    shares: Seq<Seq<F::ChallengeField>>,
)
    requires
        layer.uniform(),
        !layer.gpu,
        layer.input_var_num() >= 1,
        layer.seen_before_round(first, 0),
        forall|i: int|
            0 <= i < layer.insts.len() ==> all_valid(
                promoted::<F>((#[trigger] layer.insts[i]).layer.input_vals@),
                pow2(layer.input_var_num()),
            ),
        forall|i: int|
            0 <= i < layer.insts.len() ==> inst_on_track(
                #[trigger] layer.insts[i],
                StageView::Combine { first, var: 0 },
                shares[i],
            ),
    ensures
        on_track(layer.start_phase(first).0, shares),
{
    if layer.wants_gpu() {
        let next = layer.start_phase(first).0;
        assert(next.insts == layer.insts);
        assert forall|i: int| 0 <= i < next.insts.len() implies inst_on_track(
            #[trigger] next.insts[i],
            next.stage,
            shares[i],
        ) by {
            assert(inst_on_track(
                layer.insts[i],
                StageView::Combine { first, var: 0 },
                shares[i],
            ));
        }
    } else {
        lemma_round_on_track(layer, first, 0, shares);
    }
}

/// A fold at the challenges keeps what is known of the wire tables.
proof fn lemma_fold_on_track<F: FieldEngine>(
    inst: InstView<F>,
    first: bool,
    var: nat,
    r: F::ChallengeField,
    shares: Seq<F::ChallengeField>,
)
    requires
        inst.wf(),
        var < inst.input_var_num(),
        if first {
            inst.rx.len() == var
        } else {
            inst.ry.len() == var
        },
        inst_on_track(inst, StageView::Challenge { first, var }, shares),
    ensures
        inst_on_track(
            inst.host_folded(var, r).noted(first, r),
            StageView::Combine { first, var: var + 1 },
            shares,
        ),
{
    let n = inst.input_var_num();
    let t = promoted::<F>(inst.layer.input_vals@);
    let rs = if first {
        inst.rx
    } else {
        inst.ry
    };
    let table = round_source::<F>(
        var,
        inst.pad.v_evals,
        inst.layer.input_vals@,
    );
    let next = inst.host_folded(var, r).noted(first, r);
    lemma_pow2_unfold((n - var) as nat);
    if var > 0 {
        lemma_pow2_strictly_increases((n - var) as nat, n);
    } else {
        assert(table =~= t);
        assert(broadcasts::<F>(rs) =~= Seq::<F::Field>::empty());
    }
    lemma_is_bound_fold(
        table,
        next.pad.v_evals,
        t,
        broadcasts::<F>(rs),
        n,
        F::broadcast_spec(r),
    );
    assert(broadcasts::<F>(rs.push(r)) =~= broadcasts::<F>(rs).push(F::broadcast_spec(r)));
}

/// A step of a layer that is proved on the host keeps what is known of it. So the shares that go
/// to the gathering at its end, and those of the second claim, are this process's shares of the
/// values of the layer's inputs at the new challenges; the first claim is the value over all
/// processes of the shares gathered; and the second is asked for with the weights that make it
/// the value over all processes of theirs.
pub proof fn lemma_step_on_track<F: FieldEngine>(
    layer: LayerView<F>,
    event: Event<F::ChallengeField>,
    shares: Seq<Seq<F::ChallengeField>>,
)
    requires
        layer.wf(),
        layer.expects(event),
        on_track(layer, shares),
        stays_on_host(event),
        shares_valid(event, pow2(layer.mpi_var_num())),
    ensures
        on_track(layer.step(event).0, shares_after(event, shares)),
{
    let next = layer.step(event).0;
    let after = shares_after(event, shares);
    assert(forall|i: int| 0 <= i < layer.insts.len() ==> (#[trigger] layer.insts[i]).wf());
    match (layer.stage, event) {
        (StageView::GpuSetup { first }, Event::SetUp { ready }) => {
            let state = layer.on_gpu(false);
            lemma_shape_kept(layer, state);
            assert forall|i: int| 0 <= i < state.insts.len() implies inst_on_track(
                #[trigger] state.insts[i],
                StageView::Combine { first, var: 0 },
                shares[i],
            ) by {
                assert(inst_on_track(layer.insts[i], layer.stage, shares[i]));
            }
            lemma_round_on_track(state, first, 0, shares);
        },
        (StageView::Combine { first, var }, Event::Combined { values }) => {
            assert(next.insts == layer.insts);
        },
        (StageView::Challenge { first, var }, Event::Challenged { r }) => {
            let state = layer.folded_on_host(first, var, r);
            assert forall|i: int| 0 <= i < state.insts.len() implies inst_on_track(
                #[trigger] state.insts[i],
                StageView::Combine { first, var: var + 1 },
                shares[i],
            ) by {
                let inst = layer.insts[i];
                assert(inst_on_track(inst, layer.stage, shares[i]));
                assert(inst.input_var_num() == layer.input_var_num());
                lemma_fold_on_track(inst, first, var, r[i], shares[i]);
            }
            lemma_folded(layer, first, var, r);
            lemma_shape_kept(layer, state);
            assert forall|i: int| 0 <= i < state.insts.len() implies all_valid(
                promoted::<F>((#[trigger] state.insts[i]).layer.input_vals@),
                pow2(state.input_var_num()),
            ) by {
                assert(state.insts[i].layer == layer.insts[i].layer);
            }
            lemma_round_on_track(state, first, var + 1, shares);
        },
        (StageView::SimdCombine { var }, Event::Combined { values }) => {
            assert(next.insts == layer.insts);
        },
        (StageView::SimdChallenge { var }, Event::Challenged { r }) => {
            assert(next.insts[0].layer == layer.insts[0].layer);
            assert forall|i: int| 0 <= i < next.insts.len() implies {
                let inst = #[trigger] next.insts[i];
                &&& inst.layer == layer.insts[i].layer
                &&& inst_on_track(inst, next.stage, after[i])
            } by {
                let inst = layer.insts[i];
                let received = inst.simd_received(var, r[i]);
                let v = wires_at::<F>(inst.layer.input_vals@, inst.rx);
                F::law_pack_size();
                F::law_unpack(v, v, r[i], 0);
                assert(inst_on_track(inst, layer.stage, shares[i]));
                lemma_pow2_unfold((inst.simd_var_num() - var) as nat);
                if var > 0 {
                    lemma_pow2_strictly_increases(
                        (inst.simd_var_num() - var) as nat,
                        inst.simd_var_num(),
                    );
                }
                lemma_is_bound_fold(
                    inst.pad.simd_v,
                    received.pad.simd_v,
                    F::unpack_spec(v),
                    inst.r_simd_var,
                    inst.simd_var_num(),
                    r[i],
                );
                if var + 1 >= inst.simd_var_num() {
                    lemma_lanes_done(received);
                }
            }
        },
        (StageView::Gather, Event::Gathered { v, hg }) => {
            assert(next.insts[0].layer == layer.insts[0].layer);
            assert forall|i: int| 0 <= i < next.insts.len() implies {
                let inst = #[trigger] next.insts[i];
                &&& inst.layer == layer.insts[i].layer
                &&& inst_on_track(inst, next.stage, after[i])
            } by {
                let inst = layer.insts[i];
                assert(inst.mpi_var_num == layer.mpi_var_num());
                assert(v[i].len() >= pow2(layer.mpi_var_num()));
                if layer.mpi_var_num() == 0 {
                    lemma2_to64();
                    lemma_all_bound(v[i], inst.r_mpi_var, 0);
                }
            }
        },
        (StageView::MpiChallenge { var }, Event::Challenged { r }) => {
            assert(next.insts[0].layer == layer.insts[0].layer);
            assert forall|i: int| 0 <= i < next.insts.len() implies {
                let inst = #[trigger] next.insts[i];
                &&& inst.layer == layer.insts[i].layer
                &&& inst_on_track(inst, next.stage, after[i])
            } by {
                let inst = layer.insts[i];
                let m = inst.mpi_var_num;
                assert(m == layer.mpi_var_num());
                let received = inst.mpi_received(var, r[i]);
                assert(inst_on_track(inst, layer.stage, shares[i]));
                assert(shares[i].len() >= pow2(m));
                lemma_pow2_unfold((m - var) as nat);
                if var > 0 {
                    lemma_pow2_strictly_increases((m - var) as nat, m);
                }
                lemma_is_bound_fold(
                    inst.pad.mpi_v,
                    received.pad.mpi_v,
                    shares[i],
                    inst.r_mpi_var,
                    m,
                    r[i],
                );
                if var + 1 >= m {
                    lemma2_to64();
                    lemma_all_bound(shares[i], received.r_mpi_var, m);
                }
            }
        },
        (StageView::Broadcast, Event::Broadcasted { roots }) => {
            let state = layer.y_prepared(roots);
            assert forall|i: int| 0 <= i < state.insts.len() implies {
                let inst = #[trigger] state.insts[i];
                &&& inst.wf()
                &&& inst.layer == layer.insts[i].layer
                &&& inst.mpi_var_num == layer.insts[i].mpi_var_num
            } by {}
            lemma_shape_kept(layer, state);
            assert forall|i: int| 0 <= i < state.insts.len() implies inst_on_track(
                #[trigger] state.insts[i],
                StageView::Combine { first: false, var: 0 },
                shares[i],
            ) by {
                let inst = layer.insts[i];
                F::law_pack_size();
                assert(inst.r_simd_var.len() == layer.simd_var_num());
                assert(inst_on_track(inst, layer.stage, shares[i]));
                assert(inst.mpi_var_num == layer.mpi_var_num());
                assert(state.insts[i].process_weights() =~= eq_table(inst.r_mpi_var));
            }
            assert forall|i: int| 0 <= i < state.insts.len() implies all_valid(
                promoted::<F>((#[trigger] state.insts[i]).layer.input_vals@),
                pow2(state.input_var_num()),
            ) by {
                assert(state.insts[i].layer == layer.insts[i].layer);
            }
            lemma_phase_on_track(state, false, shares);
        },
        _ => {
            assert(next.insts == layer.insts);
        },
    }
}

/// A layer that is proved on the host starts on track.
pub proof fn lemma_start_on_track<F: FieldEngine>(
    layer: LayerView<F>,
    shares: Seq<Seq<F::ChallengeField>>,
)
    requires
        layer.uniform(),
        !layer.gpu,
        layer.seen(0, 0, 0, 0),
        layer.input_var_num() >= 1,
        forall|i: int|
            0 <= i < layer.insts.len() ==> all_valid(
                promoted::<F>((#[trigger] layer.insts[i]).layer.input_vals@),
                pow2(layer.input_var_num()),
            ),
    ensures
        on_track(layer.start().0, shares),
{
    let state = layer.prepared();
    assert(forall|i: int| 0 <= i < layer.insts.len() ==> (#[trigger] layer.insts[i]).wf());
    lemma_shape_kept(layer, state);
    assert forall|i: int| 0 <= i < state.insts.len() implies all_valid(
        promoted::<F>((#[trigger] state.insts[i]).layer.input_vals@),
        pow2(state.input_var_num()),
    ) by {
        assert(state.insts[i].layer == layer.insts[i].layer);
    }
    lemma_phase_on_track(state, true, shares);
}

} // verus!
