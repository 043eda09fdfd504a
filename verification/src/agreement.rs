//! What scratch pads held before a proof does not matter: only the fronts of their tables are
//! read, and only after they have been written.

use vstd::arithmetic::power2::*;
use vstd::prelude::*;

use crate::algebra::lemma_dot_same;
use crate::circuit::ChallengeView;
use crate::engine::{log2_spec, FieldEngine};
use crate::extension::{broadcasts, lemma_bound_front, promoted};
use crate::field::Field;
use crate::gkr_protocol::{
    challenges_fit, circuits_fit, lemma_begin_layer, lemma_gkr_step_wf, lemma_layer_done,
    lemma_layer_stepped, pads_fit, GkrEvent, GkrStageView, GkrView,
};
use crate::instance::{lanes_combined, table_words, with_front, InstView, PadView};
use crate::lockstep::{after, all_expected, gkr_after, gkr_all_expected};
use crate::product_gate::{pair_sums, round_source};
use crate::protocol::{
    lemma_folded, lemma_large_round, lemma_recovered, lemma_shape_kept, lemma_start_wf,
    lemma_step_layers, lemma_step_wf, Event, LayerView, StageView,
};
use crate::simd_gate::triple_sum;
use crate::sumcheck::layer_at_start;

verus! {

/// How many entries at the front of each table of a scratch pad are still read.
pub struct InUse {
    pub wires: nat,
    pub coefs: nat,
    pub flags: nat,
    pub eq_rx: nat,
    pub eq_rz0: nat,
    pub eq_simd: nat,
    pub eq_mpi: nat,
    pub lanes: nat,
    pub shares: nat,
    pub phase2: bool,
}

/// Two tables have the same first `n` entries.
pub open spec fn same_front<T>(a: Seq<T>, b: Seq<T>, n: nat) -> bool {
    forall|j: int| 0 <= j < n ==> #[trigger] a[j] == b[j]
}

/// Two scratch pads have the same entries in use.
pub open spec fn pads_agree<T, E>(a: PadView<T, E>, b: PadView<T, E>, used: InUse) -> bool {
    &&& same_front(a.v_evals, b.v_evals, used.wires)
    &&& same_front(a.hg_evals, b.hg_evals, used.coefs)
    &&& same_front(a.gate_exists, b.gate_exists, used.flags)
    &&& same_front(a.eq_rx, b.eq_rx, used.eq_rx)
    &&& same_front(a.eq_rz0, b.eq_rz0, used.eq_rz0)
    &&& same_front(a.eq_simd, b.eq_simd, used.eq_simd)
    &&& same_front(a.eq_mpi, b.eq_mpi, used.eq_mpi)
    &&& same_front(a.simd_v, b.simd_v, used.lanes)
    &&& same_front(a.simd_hg, b.simd_hg, used.lanes)
    &&& same_front(a.mpi_v, b.mpi_v, used.shares)
    &&& same_front(a.mpi_hg, b.mpi_hg, used.shares)
    &&& used.phase2 ==> a.phase2_coef == b.phase2_coef
}

/// Two instances that differ at most in scratch entries that are not in use.
pub open spec fn alike<F: FieldEngine>(a: InstView<F>, b: InstView<F>, used: InUse) -> bool {
    &&& a == (InstView { pad: a.pad, ..b })
    &&& pads_agree(a.pad, b.pad, used)
}

/// What round `var` of a phase reads of the scratch pad of an instance, or would read on the
/// host where the GPU works for it.
pub open spec fn phase_use<F: FieldEngine>(
    inst: InstView<F>,
    gpu: bool,
    first: bool,
    var: nat,
) -> InUse {
    let n = inst.input_var_num();
    let front = pow2((n - var) as nat);
    InUse {
        wires: if gpu || var == 0 {
            0
        } else {
            front
        },
        coefs: if gpu {
            pow2(n)
        } else {
            front
        },
        flags: front,
        eq_rx: if first {
            0
        } else {
            pow2(n)
        },
        eq_rz0: if first {
            pow2(inst.layer.output_var_num as nat)
        } else {
            0
        },
        eq_simd: pow2(inst.simd_var_num()),
        eq_mpi: pow2(inst.mpi_var_num),
        lanes: 0,
        shares: if first {
            0
        } else {
            1
        },
        phase2: !first,
    }
}

/// Nothing is read.
pub open spec fn unused() -> InUse {
    InUse {
        wires: 0,
        coefs: 0,
        flags: 0,
        eq_rx: 0,
        eq_rz0: 0,
        eq_simd: 0,
        eq_mpi: 0,
        lanes: 0,
        shares: 0,
        phase2: false,
    }
}

/// What is left for the layer before to read once the second phase is over.
pub open spec fn second_use<F: FieldEngine>(inst: InstView<F>) -> InUse {
    InUse {
        eq_rx: pow2(inst.input_var_num()),
        eq_simd: pow2(inst.simd_var_num()),
        eq_mpi: pow2(inst.mpi_var_num),
        shares: 1,
        ..unused()
    }
}

/// What is still read of the scratch pad of an instance from a stage on.
pub open spec fn in_use<F: FieldEngine>(
    inst: InstView<F>,
    gpu: bool,
    stage: StageView<F::ChallengeField>,
) -> InUse {
    let lanes = inst.simd_var_num();
    let world = inst.mpi_var_num;
    let rest = InUse {
        eq_rz0: pow2(inst.layer.output_var_num as nat),
        eq_simd: 1,
        ..unused()
    };
    match stage {
        StageView::GpuSetup { first } => phase_use(inst, false, first, 0),
        StageView::GpuRelease { first, var } => phase_use(inst, false, first, var),
        StageView::GpuEval { first, var } => phase_use(inst, gpu, first, var),
        StageView::GpuDownload { first, var } => phase_use(inst, gpu, first, var),
        StageView::GpuReceive { first, var, .. } => phase_use(inst, gpu, first, var),
        StageView::Combine { first, var } => phase_use(inst, gpu, first, var),
        StageView::Challenge { first, var } => phase_use(inst, gpu, first, var),
        StageView::SimdCombine { var } | StageView::SimdChallenge { var } => InUse {
            eq_simd: pow2((lanes - var) as nat),
            eq_mpi: pow2(world),
            lanes: pow2((lanes - var) as nat),
            ..rest
        },
        StageView::Gather => InUse { eq_mpi: pow2(world), lanes: 1, ..rest },
        StageView::MpiChallenge { var } => InUse {
            eq_mpi: pow2((world - var) as nat),
            shares: pow2((world - var) as nat),
            ..rest
        },
        StageView::VxAppend | StageView::Broadcast => InUse { shares: 1, ..rest },
        StageView::VyCombine => InUse { wires: 1, ..second_use(inst) },
        StageView::VyAppend { .. } => second_use(inst),
        StageView::Done { claim } => if claim is Some {
            second_use(inst)
        } else {
            InUse { shares: 1, ..unused() }
        },
    }
}

/// Two layers that differ at most in scratch entries that are not in use.
pub open spec fn agree<F: FieldEngine>(g: LayerView<F>, h: LayerView<F>) -> bool {
    &&& g.gpu == h.gpu
    &&& g.stage == h.stage
    &&& g.insts.len() == h.insts.len()
    &&& forall|i: int|
        0 <= i < g.insts.len() ==> alike(
            #[trigger] g.insts[i],
            h.insts[i],
            in_use(h.insts[i], h.gpu, h.stage),
        )
}

/// The instances of two layers differ at most in what round `var` of a phase does not read.
pub open spec fn round_alike<F: FieldEngine>(
    g: LayerView<F>,
    h: LayerView<F>,
    first: bool,
    var: nat,
) -> bool {
    &&& g.gpu == h.gpu
    &&& g.insts.len() == h.insts.len()
    &&& forall|i: int|
        0 <= i < g.insts.len() ==> alike(
            #[trigger] g.insts[i],
            h.insts[i],
            phase_use(h.insts[i], h.gpu, first, var),
        )
}

// ---------------------------------------------------------------------------
// What is read
// ---------------------------------------------------------------------------

/// The sums over pairs depend on the entries of the pairs alone.
pub proof fn lemma_pair_sums_same<E: Field>(
    f: Seq<E>,
    h: Seq<E>,
    gates: Seq<bool>,
    f2: Seq<E>,
    h2: Seq<E>,
    gates2: Seq<bool>,
    n: nat,
)
    requires
        same_front(f, f2, 2 * n),
        same_front(h, h2, 2 * n),
        same_front(gates, gates2, 2 * n),
    ensures
        pair_sums(f, h, gates, n) == pair_sums(f2, h2, gates2, n),
    decreases n,
{
    if n > 0 {
        lemma_pair_sums_same(f, h, gates, f2, h2, gates2, (n - 1) as nat);
    }
}

proof fn lemma_triple_sum_same<E: Field>(
    a: Seq<E>,
    b: Seq<E>,
    c: Seq<E>,
    a2: Seq<E>,
    b2: Seq<E>,
    c2: Seq<E>,
    n: nat,
    k: nat,
)
    requires
        same_front(a, a2, 2 * n),
        same_front(b, b2, 2 * n),
        same_front(c, c2, 2 * n),
    ensures
        triple_sum(a, b, c, n, k) == triple_sum(a2, b2, c2, n, k),
    decreases n,
{
    if n > 0 {
        lemma_triple_sum_same(a, b, c, a2, b2, c2, (n - 1) as nat, k);
    }
}

proof fn lemma_table_words_same<F: FieldEngine>(t: Seq<F::Field>, u: Seq<F::Field>, n: nat)
    requires
        same_front(t, u, n),
    ensures
        table_words::<F>(t, n) == table_words::<F>(u, n),
    decreases n,
{
    if n > 0 {
        lemma_table_words_same::<F>(t, u, (n - 1) as nat);
    }
}

proof fn lemma_combined_same<F: FieldEngine>(
    p: F::Field,
    coefs: Seq<F::ChallengeField>,
    other: Seq<F::ChallengeField>,
)
    requires
        same_front(coefs, other, F::pack_size_spec() as nat),
    ensures
        lanes_combined::<F>(p, coefs) == lanes_combined::<F>(p, other),
{
    lemma_dot_same(
        F::unpack_spec(p),
        coefs,
        F::unpack_spec(p),
        other,
        F::pack_size_spec() as nat,
    );
}

/// Values with their lanes combined depend on the lanes' weights alone.
pub proof fn lemma_local_same<F: FieldEngine>(
    a: InstView<F>,
    b: InstView<F>,
    values: Seq<F::Field>,
)
    requires
        same_front(a.pad.eq_simd, b.pad.eq_simd, F::pack_size_spec() as nat),
    ensures
        a.local(values) == b.local(values),
{
    assert forall|k: int| 0 <= k < values.len() implies #[trigger] a.local(values)[k] == b.local(
        values,
    )[k] by {
        lemma_combined_same::<F>(values[k], a.pad.eq_simd, b.pad.eq_simd);
    }
    assert(a.local(values) =~= b.local(values));
}

/// The weights of the processes depend on what is in use alone.
pub proof fn lemma_weights_same<F: FieldEngine>(a: InstView<F>, b: InstView<F>)
    requires
        a.mpi_var_num == b.mpi_var_num,
        pow2(a.mpi_var_num) <= a.pad.eq_mpi.len(),
        pow2(a.mpi_var_num) <= b.pad.eq_mpi.len(),
        same_front(a.pad.eq_mpi, b.pad.eq_mpi, pow2(a.mpi_var_num)),
    ensures
        a.process_weights() == b.process_weights(),
{
    assert(a.process_weights() =~= b.process_weights());
}

proof fn lemma_host_values_same<F: FieldEngine>(
    a: InstView<F>,
    b: InstView<F>,
    first: bool,
    var: nat,
)
    requires
        a.wf(),
        b.wf(),
        var < b.input_var_num(),
        alike(a, b, phase_use(b, false, first, var)),
    ensures
        a.local(a.host_values(var)) == b.local(b.host_values(var)),
{
    F::law_pack_size();
    lemma_pow2_unfold((b.input_var_num() - var) as nat);
    lemma_pair_sums_same(
        round_source::<F>(var, a.pad.v_evals, a.layer.input_vals@),
        a.pad.hg_evals,
        a.pad.gate_exists,
        round_source::<F>(var, b.pad.v_evals, b.layer.input_vals@),
        b.pad.hg_evals,
        b.pad.gate_exists,
        b.eval_size(var),
    );
    lemma_local_same(a, b, a.host_values(var));
}

proof fn lemma_host_folded_same<F: FieldEngine>(
    a: InstView<F>,
    b: InstView<F>,
    first: bool,
    var: nat,
    r: F::ChallengeField,
)
    requires
        a.wf(),
        b.wf(),
        var < b.input_var_num(),
        alike(a, b, phase_use(b, false, first, var)),
    ensures
        ({
            let (x, y) = (
                a.host_folded(var, r).noted(first, r),
                b.host_folded(var, r).noted(first, r),
            );
            alike(x, y, phase_use(y, false, first, var + 1))
        }),
{
    let n = b.input_var_num();
    lemma_pow2_unfold((n - var) as nat);
    if var > 0 {
        lemma_pow2_strictly_increases((n - var) as nat, n);
    }
    let size = b.eval_size(var);
    let (x, y) = (a.host_folded(var, r).noted(first, r), b.host_folded(var, r).noted(first, r));
    assert forall|j: int| 0 <= j < size implies #[trigger] x.pad.v_evals[j]
        == y.pad.v_evals[j] by {
        if var > 0 {
            assert(a.pad.v_evals[2 * j] == b.pad.v_evals[2 * j]);
            assert(a.pad.v_evals[2 * j + 1] == b.pad.v_evals[2 * j + 1]);
        }
    }
    assert forall|j: int| 0 <= j < size implies #[trigger] x.pad.hg_evals[j]
        == y.pad.hg_evals[j] by {
        assert(a.pad.hg_evals[2 * j] == b.pad.hg_evals[2 * j]);
        assert(a.pad.hg_evals[2 * j + 1] == b.pad.hg_evals[2 * j + 1]);
        assert(a.pad.gate_exists[2 * j] == b.pad.gate_exists[2 * j]);
        assert(a.pad.gate_exists[2 * j + 1] == b.pad.gate_exists[2 * j + 1]);
    }
    assert forall|j: int| 0 <= j < size implies #[trigger] x.pad.gate_exists[j]
        == y.pad.gate_exists[j] by {
        assert(a.pad.gate_exists[2 * j] == b.pad.gate_exists[2 * j]);
        assert(a.pad.gate_exists[2 * j + 1] == b.pad.gate_exists[2 * j + 1]);
    }
}

proof fn lemma_flags_folded_same<F: FieldEngine>(
    a: InstView<F>,
    b: InstView<F>,
    first: bool,
    var: nat,
    r: F::ChallengeField,
)
    requires
        a.wf(),
        b.wf(),
        var < b.input_var_num(),
        alike(a, b, phase_use(b, true, first, var)),
    ensures
        ({
            let (x, y) = (
                a.flags_folded(var).noted(first, r),
                b.flags_folded(var).noted(first, r),
            );
            alike(x, y, phase_use(y, true, first, var + 1))
        }),
{
    let n = b.input_var_num();
    lemma_pow2_unfold((n - var) as nat);
    if var > 0 {
        lemma_pow2_strictly_increases((n - var) as nat, n);
    }
    let (x, y) = (a.flags_folded(var).noted(first, r), b.flags_folded(var).noted(first, r));
    assert forall|j: int| 0 <= j < b.eval_size(var) implies #[trigger] x.pad.gate_exists[j]
        == y.pad.gate_exists[j] by {
        assert(a.pad.gate_exists[2 * j] == b.pad.gate_exists[2 * j]);
        assert(a.pad.gate_exists[2 * j + 1] == b.pad.gate_exists[2 * j + 1]);
    }
}

proof fn lemma_recovered_same<F: FieldEngine>(
    a: InstView<F>,
    b: InstView<F>,
    first: bool,
    var: nat,
)
    requires
        a.wf(),
        b.wf(),
        var <= b.input_var_num(),
        alike(a, b, phase_use(b, true, first, var)),
    ensures
        alike(
            a.recovered(first, var),
            b.recovered(first, var),
            phase_use(b.recovered(first, var), false, first, var),
        ),
{
    let n = b.input_var_num();
    let rs = broadcasts::<F>(b.phase_challenges(first));
    let vals = promoted::<F>(b.layer.input_vals@);
    lemma_bound_front(
        with_front(a.pad.v_evals, vals),
        with_front(b.pad.v_evals, vals),
        rs,
        n,
        var,
    );
    lemma_bound_front(a.pad.hg_evals, b.pad.hg_evals, rs, n, var);
}

proof fn lemma_fetched_same<F: FieldEngine>(
    a: InstView<F>,
    b: InstView<F>,
    first: bool,
    var: nat,
    wires: Option<Seq<u32>>,
    coefs: Option<Seq<u32>>,
)
    requires
        a.wf(),
        b.wf(),
        var < b.input_var_num(),
        alike(a, b, phase_use(b, true, first, var)),
    ensures
        alike(
            a.fetched(first, var, wires, coefs),
            b.fetched(first, var, wires, coefs),
            phase_use(b.fetched(first, var, wires, coefs), false, first, var),
        ),
{
    let n = b.input_var_num();
    lemma_recovered_same(a, b, first, var);
    lemma_pow2_unfold((n - var) as nat);
    if var > 0 {
        lemma_pow2_strictly_increases((n - var) as nat, n);
    }
}

// ---------------------------------------------------------------------------
// Rounds and phases
// ---------------------------------------------------------------------------

/// A round starts alike where what it reads is alike.
pub proof fn lemma_start_round_agree<F: FieldEngine>(
    g: LayerView<F>,
    h: LayerView<F>,
    first: bool,
    var: nat,
)
    requires
        g.uniform(),
        h.uniform(),
        var <= h.input_var_num(),
        h.gpu ==> var < h.input_var_num(),
        h.input_var_num() >= 1,
        round_alike(g, h, first, var),
    ensures
        agree(g.start_round(first, var).0, h.start_round(first, var).0),
        g.start_round(first, var).1 == h.start_round(first, var).1,
{
    let n = h.input_var_num();
    let (gs, ga) = g.start_round(first, var);
    let (hs, ha) = h.start_round(first, var);
    assert(alike(g.insts[0], h.insts[0], phase_use(h.insts[0], h.gpu, first, var)));
    assert(g.input_var_num() == n);
    F::law_pack_size();
    assert forall|i: int| 0 <= i < g.insts.len() implies (
    #[trigger] g.insts[i]).process_weights() == h.insts[i].process_weights() by {
        assert(g.insts[i].wf() && h.insts[i].wf());
        lemma_weights_same(g.insts[i], h.insts[i]);
    }
    if var < n && !h.gpu {
        assert forall|i: int| 0 <= i < g.insts.len() implies (#[trigger] g.insts[i]).local(
            g.insts[i].host_values(var),
        ) == h.insts[i].local(h.insts[i].host_values(var)) by {
            assert(g.insts[i].wf() && h.insts[i].wf());
            assert(h.insts[i].input_var_num() == n);
            lemma_host_values_same(g.insts[i], h.insts[i], first, var);
        }
        assert(ga->values =~= ha->values);
        assert(ga->coefs =~= ha->coefs);
    } else if var >= n {
        lemma2_to64();
        assert forall|i: int| 0 <= i < g.insts.len() implies (#[trigger] g.insts[i]).pad.v_evals[0]
            == h.insts[i].pad.v_evals[0] && g.insts[i].pad.hg_evals[0]
            == h.insts[i].pad.hg_evals[0] by {
            assert(h.insts[i].input_var_num() == n);
        }
        if first {
            let gp = LayerView {
                insts: Seq::new(g.insts.len(), |i: int| g.insts[i].simd_vars_prepared()),
                ..g
            };
            let hp = LayerView {
                insts: Seq::new(h.insts.len(), |i: int| h.insts[i].simd_vars_prepared()),
                ..h
            };
            assert forall|i: int| 0 <= i < gp.insts.len() implies alike(
                #[trigger] gp.insts[i],
                hp.insts[i],
                in_use(hp.insts[i], false, StageView::SimdCombine { var: 0 }),
            ) by {
                assert(g.insts[i].pad.v_evals[0] == h.insts[i].pad.v_evals[0]);
            }
            assert forall|i: int| 0 <= i < gp.insts.len() implies {
                &&& pow2(hp.insts[i].mpi_var_num) <= (#[trigger] gp.insts[i]).pad.eq_mpi.len()
                &&& pow2(hp.insts[i].mpi_var_num) <= hp.insts[i].pad.eq_mpi.len()
            } by {
                assert(g.insts[i].wf() && h.insts[i].wf());
            }
            lemma_start_simd_agree(gp, hp, 0);
        } else {
            assert forall|i: int| 0 <= i < g.insts.len() implies (#[trigger] g.insts[i]).vy_share()
                == h.insts[i].vy_share() by {
                assert(g.insts[i].pad.v_evals[0] == h.insts[i].pad.v_evals[0]);
                lemma_combined_same::<F>(
                    h.insts[i].pad.v_evals[0],
                    g.insts[i].pad.eq_simd,
                    h.insts[i].pad.eq_simd,
                );
            }
            assert(ga->values =~= ha->values);
            assert(ga->coefs =~= ha->coefs);
        }
    }
}

proof fn lemma_start_simd_agree<F: FieldEngine>(g: LayerView<F>, h: LayerView<F>, var: nat)
    requires
        !g.gpu,
        !h.gpu,
        g.insts.len() == h.insts.len(),
        g.insts.len() >= 1,
        var <= h.simd_var_num(),
        forall|i: int|
            0 <= i < g.insts.len() ==> alike(
                #[trigger] g.insts[i],
                h.insts[i],
                in_use(h.insts[i], false, StageView::SimdCombine { var }),
            ),
        forall|i: int|
            0 <= i < g.insts.len() ==> {
                &&& pow2(h.insts[i].mpi_var_num) <= (#[trigger] g.insts[i]).pad.eq_mpi.len()
                &&& pow2(h.insts[i].mpi_var_num) <= h.insts[i].pad.eq_mpi.len()
            },
    ensures
        agree(g.start_simd_round(var).0, h.start_simd_round(var).0),
        g.start_simd_round(var).1 == h.start_simd_round(var).1,
{
    let lanes = h.simd_var_num();
    let (ga, ha) = (g.start_simd_round(var).1, h.start_simd_round(var).1);
    assert forall|i: int| 0 <= i < g.insts.len() implies (
    #[trigger] g.insts[i]).process_weights() == h.insts[i].process_weights() by {
        lemma_weights_same(g.insts[i], h.insts[i]);
    }
    if var >= lanes {
        lemma2_to64();
        assert forall|i: int| 0 <= i < g.insts.len() implies (#[trigger] g.insts[i]).v_share()
            == h.insts[i].v_share() && g.insts[i].hg_share() == h.insts[i].hg_share() by {
            let used = in_use(h.insts[i], false, StageView::SimdCombine { var });
            assert(used.lanes == 1 && used.eq_simd == 1);
            assert(alike(g.insts[i], h.insts[i], used));
        }
        assert(ga->v =~= ha->v);
        assert(ga->hg =~= ha->hg);
    } else {
        lemma_pow2_unfold((lanes - var) as nat);
        assert forall|i: int| 0 <= i < g.insts.len() implies (#[trigger] g.insts[i]).simd_values(
            var,
        ) == h.insts[i].simd_values(var) by {
            let (a, b) = (g.insts[i].pad, h.insts[i].pad);
            let n = pow2((lanes - var - 1) as nat);
            lemma_triple_sum_same(
                a.eq_simd, a.simd_v, a.simd_hg, b.eq_simd, b.simd_v, b.simd_hg, n, 0,
            );
            lemma_triple_sum_same(
                a.eq_simd, a.simd_v, a.simd_hg, b.eq_simd, b.simd_v, b.simd_hg, n, 1,
            );
            lemma_triple_sum_same(
                a.eq_simd, a.simd_v, a.simd_hg, b.eq_simd, b.simd_v, b.simd_hg, n, 2,
            );
            lemma_triple_sum_same(
                a.eq_simd, a.simd_v, a.simd_hg, b.eq_simd, b.simd_v, b.simd_hg, n, 3,
            );
        }
        assert(ga->values =~= ha->values);
        assert(ga->coefs =~= ha->coefs);
    }
}

proof fn lemma_start_mpi_agree<F: FieldEngine>(g: LayerView<F>, h: LayerView<F>, var: nat)
    requires
        !g.gpu,
        !h.gpu,
        g.insts.len() == h.insts.len(),
        g.insts.len() >= 1,
        var <= h.mpi_var_num(),
        forall|i: int|
            0 <= i < h.insts.len() ==> (#[trigger] h.insts[i]).mpi_var_num == h.mpi_var_num(),
        forall|i: int|
            0 <= i < g.insts.len() ==> alike(
                #[trigger] g.insts[i],
                h.insts[i],
                in_use(h.insts[i], false, StageView::MpiChallenge { var }),
            ),
    ensures
        agree(g.start_mpi_round(var).0, h.start_mpi_round(var).0),
        g.start_mpi_round(var).1 == h.start_mpi_round(var).1,
{
    let world = h.mpi_var_num();
    let (ga, ha) = (g.start_mpi_round(var).1, h.start_mpi_round(var).1);
    assert(alike(
        g.insts[0],
        h.insts[0],
        in_use(h.insts[0], false, StageView::MpiChallenge { var }),
    ));
    if var >= world {
        lemma2_to64();
        assert forall|i: int| 0 <= i < g.insts.len() implies (#[trigger] g.insts[i]).vx()
            == h.insts[i].vx() by {
            assert(h.insts[i].mpi_var_num == world);
        }
        assert(ga->claims =~= ha->claims);
    } else {
        lemma_pow2_unfold((world - var) as nat);
        assert forall|i: int| 0 <= i < g.insts.len() implies (#[trigger] g.insts[i]).mpi_values(var)
            == h.insts[i].mpi_values(var) by {
            let (a, b) = (g.insts[i].pad, h.insts[i].pad);
            assert(h.insts[i].mpi_var_num == world);
            let n = pow2((world - var - 1) as nat);
            lemma_triple_sum_same(a.eq_mpi, a.mpi_v, a.mpi_hg, b.eq_mpi, b.mpi_v, b.mpi_hg, n, 0);
            lemma_triple_sum_same(a.eq_mpi, a.mpi_v, a.mpi_hg, b.eq_mpi, b.mpi_v, b.mpi_hg, n, 1);
            lemma_triple_sum_same(a.eq_mpi, a.mpi_v, a.mpi_hg, b.eq_mpi, b.mpi_v, b.mpi_hg, n, 2);
            lemma_triple_sum_same(a.eq_mpi, a.mpi_v, a.mpi_hg, b.eq_mpi, b.mpi_v, b.mpi_hg, n, 3);
        }
        assert(ga->evals =~= ha->evals);
    }
}

proof fn lemma_start_phase_agree<F: FieldEngine>(g: LayerView<F>, h: LayerView<F>, first: bool)
    requires
        g.uniform(),
        h.uniform(),
        !h.gpu,
        h.input_var_num() >= 1,
        round_alike(g, h, first, 0),
    ensures
        agree(g.start_phase(first).0, h.start_phase(first).0),
        g.start_phase(first).1 == h.start_phase(first).1,
{
    assert(alike(g.insts[0], h.insts[0], phase_use(h.insts[0], false, first, 0)));
    if h.wants_gpu() {
        let size = pow2(h.input_var_num());
        let (ga, ha) = (g.start_phase(first).1, h.start_phase(first).1);
        assert forall|i: int| 0 <= i < g.insts.len() implies table_words::<F>(
            (#[trigger] g.insts[i]).pad.hg_evals,
            size,
        ) == table_words::<F>(h.insts[i].pad.hg_evals, size) by {
            assert(h.insts[i].input_var_num() == h.input_var_num());
            lemma_table_words_same::<F>(g.insts[i].pad.hg_evals, h.insts[i].pad.hg_evals, size);
        }
        assert(ga->hg_words =~= ha->hg_words);
        assert(ga->wire_words =~= ha->wire_words);
    } else {
        lemma_start_round_agree(g, h, first, 0);
    }
}

// ---------------------------------------------------------------------------
// Steps and runs
// ---------------------------------------------------------------------------

proof fn lemma_simd_received_same<F: FieldEngine>(
    a: InstView<F>,
    b: InstView<F>,
    var: nat,
    r: F::ChallengeField,
)
    requires
        a.wf(),
        b.wf(),
        var < b.simd_var_num(),
        alike(a, b, in_use(b, false, StageView::SimdChallenge { var })),
    ensures
        ({
            let (x, y) = (a.simd_received(var, r), b.simd_received(var, r));
            alike(x, y, in_use(y, false, StageView::SimdCombine { var: var + 1 }))
        }),
{
    let lanes = b.simd_var_num();
    F::law_pack_size();
    lemma_pow2_unfold((lanes - var) as nat);
    if var > 0 {
        lemma_pow2_strictly_increases((lanes - var) as nat, lanes);
    }
    let (p, q) = (a.pad, b.pad);
    assert forall|j: int| 0 <= j < pow2((lanes - var - 1) as nat) implies {
        &&& #[trigger] p.eq_simd[2 * j] == q.eq_simd[2 * j]
        &&& p.eq_simd[2 * j + 1] == q.eq_simd[2 * j + 1]
        &&& p.simd_v[2 * j] == q.simd_v[2 * j]
        &&& p.simd_v[2 * j + 1] == q.simd_v[2 * j + 1]
        &&& p.simd_hg[2 * j] == q.simd_hg[2 * j]
        &&& p.simd_hg[2 * j + 1] == q.simd_hg[2 * j + 1]
    } by {}
    let (x, y) = (a.simd_received(var, r).pad, b.simd_received(var, r).pad);
    let size = pow2((lanes - var - 1) as nat);
    assert forall|j: int| 0 <= j < size implies #[trigger] x.eq_simd[j] == y.eq_simd[j] by {
        assert(p.eq_simd[2 * j] == q.eq_simd[2 * j]);
    }
    assert forall|j: int| 0 <= j < size implies #[trigger] x.simd_v[j] == y.simd_v[j] by {
        assert(p.eq_simd[2 * j] == q.eq_simd[2 * j]);
    }
    assert forall|j: int| 0 <= j < size implies #[trigger] x.simd_hg[j] == y.simd_hg[j] by {
        assert(p.eq_simd[2 * j] == q.eq_simd[2 * j]);
    }
}

proof fn lemma_mpi_received_same<F: FieldEngine>(
    a: InstView<F>,
    b: InstView<F>,
    var: nat,
    r: F::ChallengeField,
)
    requires
        a.wf(),
        b.wf(),
        var < b.mpi_var_num,
        alike(a, b, in_use(b, false, StageView::MpiChallenge { var })),
    ensures
        ({
            let (x, y) = (a.mpi_received(var, r), b.mpi_received(var, r));
            alike(x, y, in_use(y, false, StageView::MpiChallenge { var: var + 1 }))
        }),
{
    let world = b.mpi_var_num;
    lemma_pow2_unfold((world - var) as nat);
    if var > 0 {
        lemma_pow2_strictly_increases((world - var) as nat, world);
    }
    let (p, q) = (a.pad, b.pad);
    assert forall|j: int| 0 <= j < pow2((world - var - 1) as nat) implies {
        &&& #[trigger] p.eq_mpi[2 * j] == q.eq_mpi[2 * j]
        &&& p.eq_mpi[2 * j + 1] == q.eq_mpi[2 * j + 1]
        &&& p.mpi_v[2 * j] == q.mpi_v[2 * j]
        &&& p.mpi_v[2 * j + 1] == q.mpi_v[2 * j + 1]
        &&& p.mpi_hg[2 * j] == q.mpi_hg[2 * j]
        &&& p.mpi_hg[2 * j + 1] == q.mpi_hg[2 * j + 1]
    } by {}
    let (x, y) = (a.mpi_received(var, r).pad, b.mpi_received(var, r).pad);
    let size = pow2((world - var - 1) as nat);
    assert forall|j: int| 0 <= j < size implies #[trigger] x.eq_mpi[j] == y.eq_mpi[j] by {
        assert(p.eq_mpi[2 * j] == q.eq_mpi[2 * j]);
    }
    assert forall|j: int| 0 <= j < size implies #[trigger] x.mpi_v[j] == y.mpi_v[j] by {
        assert(p.eq_mpi[2 * j] == q.eq_mpi[2 * j]);
    }
    assert forall|j: int| 0 <= j < size implies #[trigger] x.mpi_hg[j] == y.mpi_hg[j] by {
        assert(p.eq_mpi[2 * j] == q.eq_mpi[2 * j]);
    }
}

proof fn lemma_y_prepared_same<F: FieldEngine>(
    a: InstView<F>,
    b: InstView<F>,
    v: F::ChallengeField,
)
    requires
        a.wf(),
        b.wf(),
        b.rx.len() == b.input_var_num(),
        b.r_simd_var.len() == b.simd_var_num(),
        b.r_mpi_var.len() == b.mpi_var_num,
        alike(a, b, in_use(b, false, StageView::Broadcast)),
    ensures
        alike(a.y_prepared(v), b.y_prepared(v), phase_use(b.y_prepared(v), false, false, 0)),
{
    let (x, y) = (a.y_prepared(v), b.y_prepared(v));
    let terms = a.y_terms(a.pad.eq_rz0, x.pad.eq_rx);
    let other = b.y_terms(b.pad.eq_rz0, y.pad.eq_rx);
    F::law_pack_size();
    assert(a.pad.eq_simd[0] == b.pad.eq_simd[0]);
    assert forall|k: int| 0 <= k < terms.len() implies #[trigger] terms[k] == other[k] by {
        let g = b.layer.mul@[k];
        assert(a.pad.eq_rz0[g.o_id as int] == b.pad.eq_rz0[g.o_id as int]);
        assert(x.pad.eq_rx[g.i_ids@[0] as int] == y.pad.eq_rx[g.i_ids@[0] as int]);
    }
    assert(terms =~= other);
}

/// Layers that differ at most in scratch entries that are not in use go on alike: the same answer
/// leads to the same question, and they differ no more than before.
pub proof fn lemma_step_agree<F: FieldEngine>(
    g: LayerView<F>,
    h: LayerView<F>,
    event: Event<F::ChallengeField>,
)
    requires
        g.wf(),
        h.wf(),
        h.input_var_num() >= 1,
        agree(g, h),
        h.expects(event),
    ensures
        g.expects(event),
        agree(g.step(event).0, h.step(event).0),
        g.step(event).1 == h.step(event).1,
{
    let (gs, ga) = g.step(event);
    let (hs, ha) = h.step(event);
    let n = h.input_var_num();
    assert(alike(g.insts[0], h.insts[0], in_use(h.insts[0], h.gpu, h.stage)));
    assert(g.expects(event));
    assert(forall|i: int|
        0 <= i < h.insts.len() ==> (#[trigger] h.insts[i]).wf() && h.insts[i].input_var_num() == n
            && h.insts[i].mpi_var_num == h.mpi_var_num());
    assert(forall|i: int| 0 <= i < g.insts.len() ==> (#[trigger] g.insts[i]).wf());
    F::law_pack_size();
    match (h.stage, event) {
        (StageView::GpuSetup { first }, Event::SetUp { ready }) => {
            let (gn, hn) = (g.on_gpu(ready), h.on_gpu(ready));
            lemma_shape_kept(g, gn);
            lemma_shape_kept(h, hn);
            assert forall|i: int| 0 <= i < gn.insts.len() implies alike(
                #[trigger] gn.insts[i],
                hn.insts[i],
                phase_use(hn.insts[i], ready, first, 0),
            ) by {
                assert(alike(g.insts[i], h.insts[i], in_use(h.insts[i], h.gpu, h.stage)));
            }
            lemma_start_round_agree(gn, hn, first, 0);
        },
        (StageView::GpuEval { first, var }, Event::Evaluated { results }) => {
            if results is Some {
                let results = results->0;
                assert forall|i: int| 0 <= i < g.insts.len() implies {
                    &&& (#[trigger] g.insts[i]).local(InstView::<F>::gpu_values(results[i]))
                        == h.insts[i].local(InstView::<F>::gpu_values(results[i]))
                    &&& g.insts[i].process_weights() == h.insts[i].process_weights()
                } by {
                    lemma_local_same(
                        g.insts[i],
                        h.insts[i],
                        InstView::<F>::gpu_values(results[i]),
                    );
                    lemma_weights_same(g.insts[i], h.insts[i]);
                }
                assert(ga->values =~= ha->values);
                assert(ga->coefs =~= ha->coefs);
            } else {
                let gn = g.recovered(first, var).on_gpu(false);
                let hn = h.recovered(first, var).on_gpu(false);
                lemma_recovered(g, first, var, Seq::empty());
                lemma_recovered(h, first, var, Seq::empty());
                lemma_shape_kept(g, gn);
                lemma_shape_kept(h, hn);
                assert forall|i: int| 0 <= i < gn.insts.len() implies alike(
                    #[trigger] gn.insts[i],
                    hn.insts[i],
                    phase_use(hn.insts[i], false, first, var),
                ) by {
                    assert(alike(g.insts[i], h.insts[i], in_use(h.insts[i], h.gpu, h.stage)));
                    lemma_recovered_same(g.insts[i], h.insts[i], first, var);
                }
                lemma_start_round_agree(gn, hn, first, var);
                assert(gn.host_round(first, var).1 == ga);
                assert(hn.host_round(first, var).1 == ha);
            }
        },
        (StageView::GpuDownload { first, var }, Event::Downloaded { tables }) => {
            assert forall|i: int| 0 <= i < gs.insts.len() implies alike(
                #[trigger] gs.insts[i],
                hs.insts[i],
                in_use(hs.insts[i], hs.gpu, hs.stage),
            ) by {
                assert(alike(g.insts[i], h.insts[i], in_use(h.insts[i], h.gpu, h.stage)));
                lemma_fetched_same(
                    g.insts[i],
                    h.insts[i],
                    first,
                    var,
                    tables[2 * i],
                    tables[2 * i + 1],
                );
            }
        },
        (StageView::GpuRelease { first, var }, Event::Released) => {
            let (gn, hn) = (g.on_gpu(false), h.on_gpu(false));
            lemma_shape_kept(g, gn);
            lemma_shape_kept(h, hn);
            lemma_start_round_agree(gn, hn, first, var);
        },
        (StageView::Combine { first, var }, Event::Combined { values }) => {
            assert(ga->evals =~~= ha->evals);
        },
        (StageView::Challenge { first, var }, Event::Challenged { r }) => {
            if !h.gpu {
                let gn = g.folded_on_host(first, var, r);
                let hn = h.folded_on_host(first, var, r);
                assert forall|i: int| 0 <= i < gn.insts.len() implies alike(
                    #[trigger] gn.insts[i],
                    hn.insts[i],
                    phase_use(hn.insts[i], false, first, var + 1),
                ) by {
                    assert(alike(g.insts[i], h.insts[i], in_use(h.insts[i], h.gpu, h.stage)));
                    lemma_host_folded_same(g.insts[i], h.insts[i], first, var, r[i]);
                }
                lemma_folded(g, first, var, r);
                lemma_folded(h, first, var, r);
                lemma_shape_kept(g, gn);
                lemma_shape_kept(h, hn);
                lemma_start_round_agree(gn, hn, first, var + 1);
            }
        },
        (StageView::GpuReceive { first, var, r }, Event::Received { folded }) => {
            let gn = g.folded_on_gpu(first, var, r);
            let hn = h.folded_on_gpu(first, var, r);
            assert forall|i: int| 0 <= i < gn.insts.len() implies alike(
                #[trigger] gn.insts[i],
                hn.insts[i],
                phase_use(hn.insts[i], true, first, var + 1),
            ) by {
                assert(alike(g.insts[i], h.insts[i], in_use(h.insts[i], h.gpu, h.stage)));
                lemma_flags_folded_same(g.insts[i], h.insts[i], first, var, r[i]);
            }
            lemma_folded(g, first, var, r);
            lemma_folded(h, first, var, r);
            lemma_shape_kept(g, gn);
            lemma_shape_kept(h, hn);
            lemma_large_round(h, var);
            if folded {
                lemma_start_round_agree(gn, hn, first, var + 1);
            } else {
                assert forall|i: int| 0 <= i < gs.insts.len() implies alike(
                    #[trigger] gs.insts[i],
                    hs.insts[i],
                    in_use(hs.insts[i], hs.gpu, hs.stage),
                ) by {
                    assert(gn.insts[i].wf() && hn.insts[i].wf());
                    lemma_recovered_same(gn.insts[i], hn.insts[i], first, var + 1);
                }
            }
        },
        (StageView::SimdChallenge { var }, Event::Challenged { r }) => {
            let (gn, hn) = (g.simd_received(var, r), h.simd_received(var, r));
            assert forall|i: int| 0 <= i < gn.insts.len() implies alike(
                #[trigger] gn.insts[i],
                hn.insts[i],
                in_use(hn.insts[i], false, StageView::SimdCombine { var: var + 1 }),
            ) by {
                lemma_simd_received_same(g.insts[i], h.insts[i], var, r[i]);
            }
            lemma_start_simd_agree(gn, hn, var + 1);
        },
        (StageView::Gather, Event::Gathered { v, hg }) => {
            let (gn, hn) = (g.gathered(v, hg), h.gathered(v, hg));
            lemma_start_mpi_agree(gn, hn, 0);
        },
        (StageView::MpiChallenge { var }, Event::Challenged { r }) => {
            let (gn, hn) = (g.mpi_received(var, r), h.mpi_received(var, r));
            assert forall|i: int| 0 <= i < gn.insts.len() implies alike(
                #[trigger] gn.insts[i],
                hn.insts[i],
                in_use(hn.insts[i], false, StageView::MpiChallenge { var: var + 1 }),
            ) by {
                lemma_mpi_received_same(g.insts[i], h.insts[i], var, r[i]);
            }
            lemma_start_mpi_agree(gn, hn, var + 1);
        },
        (StageView::VxAppend, Event::Appended) => {
            assert(g.vx_claims() =~= h.vx_claims());
        },
        (StageView::Broadcast, Event::Broadcasted { roots }) => {
            let (gn, hn) = (g.y_prepared(roots), h.y_prepared(roots));
            assert forall|i: int| 0 <= i < gn.insts.len() implies alike(
                #[trigger] gn.insts[i],
                hn.insts[i],
                phase_use(hn.insts[i], false, false, 0),
            ) by {
                assert(alike(g.insts[i], h.insts[i], in_use(h.insts[i], h.gpu, h.stage)));
                lemma_y_prepared_same(g.insts[i], h.insts[i], roots[i]);
            }
            lemma_shape_kept(g, gn);
            lemma_shape_kept(h, hn);
            lemma_start_phase_agree(gn, hn, false);
        },
        _ => {},
    }
}

/// Layers that agree leave the same claims and the same challenges.
pub proof fn lemma_agree_results<F: FieldEngine>(g: LayerView<F>, h: LayerView<F>)
    requires
        agree(g, h),
        h.stage is Done,
    ensures
        g.claims() == h.claims(),
        g.challenges() == h.challenges(),
{
    assert forall|i: int| 0 <= i < g.insts.len() implies (#[trigger] g.insts[i]).vx()
        == h.insts[i].vx() && g.insts[i].next_challenge() == h.insts[i].next_challenge() by {
        assert(alike(g.insts[i], h.insts[i], in_use(h.insts[i], h.gpu, h.stage)));
    }
    assert(g.claims() =~= h.claims());
    assert(g.challenges() =~= h.challenges());
}

/// What the start of a layer reads of a scratch pad: with two claims to prove, the tables that
/// the layer next to the outputs has left, and nothing otherwise.
pub open spec fn start_use<F: FieldEngine>(inst: InstView<F>) -> InUse {
    if inst.is_output_layer || inst.alpha is None {
        unused()
    } else {
        InUse {
            eq_rx: pow2(inst.layer.output_var_num as nat),
            eq_simd: pow2(inst.simd_var_num()),
            eq_mpi: pow2(inst.mpi_var_num),
            ..unused()
        }
    }
}

/// Layers start alike where what they take over is alike.
pub proof fn lemma_start_agree<F: FieldEngine>(g: LayerView<F>, h: LayerView<F>)
    requires
        g.uniform(),
        h.uniform(),
        !g.gpu,
        !h.gpu,
        h.input_var_num() >= 1,
        g.insts.len() == h.insts.len(),
        forall|i: int|
            0 <= i < g.insts.len() ==> alike(
                #[trigger] g.insts[i],
                h.insts[i],
                start_use(h.insts[i]),
            ),
    ensures
        agree(g.start().0, h.start().0),
        g.start().1 == h.start().1,
{
    let (gn, hn) = (g.prepared(), h.prepared());
    F::law_pack_size();
    assert(forall|i: int| 0 <= i < h.insts.len() ==> (#[trigger] h.insts[i]).wf());
    assert(forall|i: int| 0 <= i < g.insts.len() ==> (#[trigger] g.insts[i]).wf());
    lemma_shape_kept(g, gn);
    lemma_shape_kept(h, hn);
    assert forall|i: int| 0 <= i < gn.insts.len() implies alike(
        #[trigger] gn.insts[i],
        hn.insts[i],
        phase_use(hn.insts[i], false, true, 0),
    ) by {
        lemma_x_prepared_same(g.insts[i], h.insts[i]);
    }
    lemma_start_phase_agree(gn, hn, true);
}

proof fn lemma_x_prepared_same<F: FieldEngine>(a: InstView<F>, b: InstView<F>)
    requires
        a.wf(),
        b.wf(),
        alike(a, b, start_use(b)),
    ensures
        ({
            let (x, y) = (
                a.simd_prepared().mpi_prepared().x_prepared(),
                b.simd_prepared().mpi_prepared().x_prepared(),
            );
            alike(x, y, phase_use(y, false, true, 0))
        }),
{
    let (p, q) = (a.simd_prepared().mpi_prepared(), b.simd_prepared().mpi_prepared());
    let (x, y) = (p.x_prepared(), q.x_prepared());
    F::law_pack_size();
    let outputs = pow2(b.layer.output_var_num as nat);
    assert forall|j: int| 0 <= j < outputs implies #[trigger] p.output_weights()[j]
        == q.output_weights()[j] by {
        if !(b.is_output_layer || b.challenge.rz_1 is None) {
            assert(a.pad.eq_rx[j] == b.pad.eq_rx[j]);
        }
    }
    let terms = p.x_terms(p.output_weights());
    let other = q.x_terms(q.output_weights());
    let muls = b.layer.mul@.len();
    assert forall|k: int| 0 <= k < terms.len() implies #[trigger] terms[k] == other[k] by {
        if k < muls {
            let g = b.layer.mul@[k];
            assert(p.output_weights()[g.o_id as int] == q.output_weights()[g.o_id as int]);
        } else {
            let g = b.layer.add@[k - muls];
            assert(p.output_weights()[g.o_id as int] == q.output_weights()[g.o_id as int]);
        }
    }
    assert(terms =~= other);
}

proof fn lemma_after_agree<F: FieldEngine>(
    g: LayerView<F>,
    h: LayerView<F>,
    events: Seq<Event<F::ChallengeField>>,
    n: nat,
)
    requires
        g.wf(),
        h.wf(),
        h.input_var_num() >= 1,
        agree(g, h),
        all_expected(h, events),
        n <= events.len(),
    ensures
        after(g, events, n).wf(),
        after(h, events, n).wf(),
        after(h, events, n).input_var_num() == h.input_var_num(),
        agree(after(g, events, n), after(h, events, n)),
        n < events.len() ==> after(g, events, n).expects(events[n as int]) && after(
            g,
            events,
            n,
        ).step(events[n as int]).1 == after(h, events, n).step(events[n as int]).1,
    decreases n,
{
    if n > 0 {
        let m = (n - 1) as nat;
        lemma_after_agree(g, h, events, m);
        let (x, y) = (after(g, events, m), after(h, events, m));
        let event = events[m as int];
        assert(y.expects(event));
        lemma_step_agree(x, y, event);
        lemma_step_wf(x, event);
        lemma_step_wf(y, event);
        lemma_step_layers(y, event);
        assert(y.step(event).0.insts[0].layer == y.insts[0].layer);
    }
    if n < events.len() {
        let k = n as int;
        let (x, y) = (after(g, events, k as nat), after(h, events, k as nat));
        assert(y.expects(events[k]));
        lemma_step_agree(x, y, events[k]);
    }
}

/// What the scratch pads held does not matter: layers that start with scratch pads of any
/// contents, but for what the layer next to the outputs has left there, put the same questions
/// to the same answers, and come to the same claims and challenges.
pub proof fn lemma_run_agree<F: FieldEngine>(
    g: LayerView<F>,
    h: LayerView<F>,
    events: Seq<Event<F::ChallengeField>>,
)
    requires
        g.uniform(),
        h.uniform(),
        !g.gpu,
        !h.gpu,
        g.seen(0, 0, 0, 0),
        h.seen(0, 0, 0, 0),
        h.input_var_num() >= 1,
        g.insts.len() == h.insts.len(),
        forall|i: int|
            0 <= i < g.insts.len() ==> alike(
                #[trigger] g.insts[i],
                h.insts[i],
                start_use(h.insts[i]),
            ),
        all_expected(h.start().0, events),
    ensures
        g.start().1 == h.start().1,
        all_expected(g.start().0, events),
        forall|k: int|
            0 <= k < events.len() ==> (#[trigger] after(g.start().0, events, k as nat)).step(
                events[k],
            ).1 == after(h.start().0, events, k as nat).step(events[k]).1,
        ({
            let (x, y) = (
                after(g.start().0, events, events.len()),
                after(h.start().0, events, events.len()),
            );
            &&& x.stage == y.stage
            &&& y.stage is Done ==> x.claims() == y.claims() && x.challenges() == y.challenges()
        }),
{
    lemma_start_wf(g);
    lemma_start_wf(h);
    lemma_start_agree(g, h);
    let (x, y) = (g.start().0, h.start().0);
    assert(y.insts[0].layer == h.insts[0].layer);
    assert forall|k: int| 0 <= k < events.len() implies (#[trigger] after(
        x,
        events,
        k as nat,
    )).expects(events[k]) && after(x, events, k as nat).step(events[k]).1 == after(
        y,
        events,
        k as nat,
    ).step(events[k]).1 by {
        lemma_after_agree(x, y, events, k as nat);
    }
    lemma_after_agree(x, y, events, events.len());
    let (u, v) = (after(x, events, events.len()), after(y, events, events.len()));
    if v.stage is Done {
        lemma_agree_results(u, v);
    }
}

// ---------------------------------------------------------------------------
// Whole circuits
// ---------------------------------------------------------------------------

/// What a layer with two claims takes over from the layer at `index` next to it.
pub open spec fn left_use<F: FieldEngine>(gkr: GkrView<F>, index: nat) -> InUse {
    InUse {
        eq_rx: pow2(gkr.circuits[0].layers@[index as int].input_var_num as nat),
        eq_simd: pow2(log2_spec(F::pack_size_spec())),
        eq_mpi: pow2(gkr.mpi_var_num()),
        ..unused()
    }
}

/// Two proofs that differ at most in scratch entries that are not in use.
pub open spec fn gkr_agree<F: FieldEngine>(g: GkrView<F>, h: GkrView<F>) -> bool {
    &&& g.circuits == h.circuits
    &&& g.world_size == h.world_size
    &&& match (g.stage, h.stage) {
        (GkrStageView::Sample { .. }, GkrStageView::Sample { .. }) => true,
        (
            GkrStageView::Claim { challenges: a, .. },
            GkrStageView::Claim { challenges: b, .. },
        ) => a == b,
        (
            GkrStageView::Layer { index: i, claimed: a, layer: x },
            GkrStageView::Layer { index: j, claimed: b, layer: y },
        ) => i == j && a == b && agree(x, y),
        (
            GkrStageView::Alpha { index: i, claimed: a, challenges: c, pads: p },
            GkrStageView::Alpha { index: j, claimed: b, challenges: d, pads: q },
        ) => {
            &&& i == j && a == b && c == d
            &&& forall|k: int|
                0 <= k < g.circuits.len() ==> pads_agree(#[trigger] p[k], q[k], left_use(h, j))
        },
        (
            GkrStageView::Done { claimed: a, challenges: c, .. },
            GkrStageView::Done { claimed: b, challenges: d, .. },
        ) => a == b && c == d,
        _ => false,
    }
}

/// Every layer has an input variable.
pub open spec fn has_inputs<F: FieldEngine>(gkr: GkrView<F>) -> bool {
    forall|j: int|
        0 <= j < gkr.layer_num() ==> (#[trigger] gkr.circuits[0].layers@[j]).input_var_num >= 1
}

/// A layer is taken in hand alike where the scratch pads agree in what the layer before has left.
pub proof fn lemma_begin_layer_agree<F: FieldEngine>(
    gkr: GkrView<F>,
    other: GkrView<F>,
    index: nat,
    claimed: Seq<F::ChallengeField>,
    challenges: Seq<ChallengeView<F::ChallengeField>>,
    alphas: Seq<Option<F::ChallengeField>>,
    p: Seq<PadView<F::Field, F::ChallengeField>>,
    q: Seq<PadView<F::Field, F::ChallengeField>>,
    two: bool,
)
    requires
        gkr.circuits == other.circuits,
        gkr.world_size == other.world_size,
        has_inputs(other),
        circuits_fit(other.circuits),
        pads_fit(other.circuits, p, other.mpi_var_num()),
        pads_fit(other.circuits, q, other.mpi_var_num()),
        index < other.layer_num(),
        claimed.len() == other.circuits.len(),
        challenges_fit::<F>(
            challenges,
            other.circuits.len(),
            other.circuits[0].layers@[index as int].output_var_num as nat,
            other.mpi_var_num(),
            two,
        ),
        alphas.len() == other.circuits.len(),
        forall|i: int| 0 <= i < alphas.len() ==> (#[trigger] alphas[i] is Some <==> two),
        two ==> index + 1 < other.layer_num() && forall|k: int|
            0 <= k < other.circuits.len() ==> pads_agree(
                #[trigger] p[k],
                q[k],
                left_use(other, index + 1),
            ),
    ensures
        gkr_agree(
            gkr.begin_layer(index, claimed, challenges, alphas, p).0,
            other.begin_layer(index, claimed, challenges, alphas, q).0,
        ),
        gkr.begin_layer(index, claimed, challenges, alphas, p).1 == other.begin_layer(
            index,
            claimed,
            challenges,
            alphas,
            q,
        ).1,
{
    let last = index == other.layer_num() - 1;
    let layers = other.layers_at(index);
    assert(gkr.layers_at(index) =~= layers);
    let x = layer_at_start(layers, challenges, alphas, p, other.world_size, last);
    let y = layer_at_start(layers, challenges, alphas, q, other.world_size, last);
    lemma_begin_layer(other, index, claimed, challenges, alphas, p, two);
    lemma_begin_layer(other, index, claimed, challenges, alphas, q, two);
    let shape = other.circuits[0].layers@[index as int];
    assert(other.circuits[0].wf());
    assert(y.insts[0].layer == shape);
    assert forall|i: int| 0 <= i < x.insts.len() implies alike(
        #[trigger] x.insts[i],
        y.insts[i],
        start_use(y.insts[i]),
    ) by {
        assert(other.circuits[i].layers@[index as int].same_shape(shape));
        if two {
            assert(pads_agree(p[i], q[i], left_use(other, index + 1)));
            assert(other.circuits[0].layers@[(index + 1) as int].input_var_num
                == shape.output_var_num);
        }
    }
    lemma_start_agree(x, y);
}

/// Proofs that differ at most in scratch entries that are not in use go on alike.
pub proof fn lemma_gkr_step_agree<F: FieldEngine>(
    g: GkrView<F>,
    h: GkrView<F>,
    event: GkrEvent<F::ChallengeField>,
)
    requires
        g.wf(),
        h.wf(),
        has_inputs(h),
        gkr_agree(g, h),
        h.expects(event),
    ensures
        g.expects(event),
        gkr_agree(g.step(event).0, h.step(event).0),
        g.step(event).1 == h.step(event).1,
{
    match (g.stage, h.stage, event) {
        (
            GkrStageView::Claim { challenges, pads: p },
            GkrStageView::Claim { pads: q, .. },
            GkrEvent::Combined { values },
        ) => {
            let claimed = Seq::new(h.circuits.len(), |i: int| values[i][0]);
            let index = (h.layer_num() - 1) as nat;
            assert(h.circuits[0].wf());
            assert(g.no_alphas() =~= h.no_alphas());
            lemma_begin_layer_agree(
                g,
                h,
                index,
                claimed,
                challenges,
                h.no_alphas(),
                p,
                q,
                false,
            );
        },
        (
            GkrStageView::Layer { index, claimed, layer: x },
            GkrStageView::Layer { layer: y, .. },
            GkrEvent::Layer { event },
        ) => {
            assert(y.insts[0].layer == h.circuits[0].layers@[index as int]);
            lemma_step_agree(x, y, event);
            lemma_layer_stepped(h, index, x, event);
            lemma_layer_stepped(h, index, y, event);
            let (u, v) = (x.step(event).0, y.step(event).0);
            if v.stage is Done {
                lemma_agree_results(u, v);
                lemma_layer_done(h, index, u);
                lemma_layer_done(h, index, v);
                let (p, q) = (GkrView::<F>::pads_of(u), GkrView::<F>::pads_of(v));
                assert(v.insts[0].layer == h.circuits[0].layers@[index as int]);
                assert(u.insts[0].layer == h.circuits[0].layers@[index as int]);
                if v.skips_phase_two() {
                    assert(g.no_alphas() =~= h.no_alphas());
                    if index > 0 {
                        lemma_begin_layer_agree(
                            g,
                            h,
                            (index - 1) as nat,
                            claimed,
                            v.challenges(),
                            h.no_alphas(),
                            p,
                            q,
                            false,
                        );
                    }
                } else {
                    assert forall|k: int| 0 <= k < h.circuits.len() implies pads_agree(
                        #[trigger] p[k],
                        q[k],
                        left_use(h, index),
                    ) by {
                        assert(alike(
                            u.insts[k],
                            v.insts[k],
                            in_use(v.insts[k], v.gpu, v.stage),
                        ));
                        assert(v.insts[k].input_var_num() == v.input_var_num());
                    }
                }
            }
        },
        (
            GkrStageView::Alpha { index, claimed, challenges, pads: p },
            GkrStageView::Alpha { pads: q, .. },
            GkrEvent::Alphas { alphas },
        ) => {
            if index > 0 {
                assert(h.circuits[0].wf());
                assert(h.circuits[0].layers@[index as int].input_var_num
                    == h.circuits[0].layers@[index - 1].output_var_num);
                lemma_begin_layer_agree(
                    g,
                    h,
                    (index - 1) as nat,
                    claimed,
                    challenges,
                    Seq::new(h.circuits.len(), |i: int| Some(alphas[i])),
                    p,
                    q,
                    true,
                );
            }
        },
        _ => {},
    }
}

proof fn lemma_gkr_after_agree<F: FieldEngine>(
    g: GkrView<F>,
    h: GkrView<F>,
    events: Seq<GkrEvent<F::ChallengeField>>,
    n: nat,
)
    requires
        g.wf(),
        h.wf(),
        has_inputs(h),
        gkr_agree(g, h),
        gkr_all_expected(h, events),
        n <= events.len(),
    ensures
        gkr_after(g, events, n).wf(),
        gkr_after(h, events, n).wf(),
        gkr_after(h, events, n).circuits == h.circuits,
        gkr_agree(gkr_after(g, events, n), gkr_after(h, events, n)),
        n < events.len() ==> gkr_after(g, events, n).expects(events[n as int]) && gkr_after(
            g,
            events,
            n,
        ).step(events[n as int]).1 == gkr_after(h, events, n).step(events[n as int]).1,
    decreases n,
{
    if n > 0 {
        let m = (n - 1) as nat;
        lemma_gkr_after_agree(g, h, events, m);
        let (x, y) = (gkr_after(g, events, m), gkr_after(h, events, m));
        let event = events[m as int];
        assert(y.expects(event));
        lemma_gkr_step_agree(x, y, event);
        lemma_gkr_step_wf(x, event);
        lemma_gkr_step_wf(y, event);
    }
    if n < events.len() {
        let k = n as int;
        let (x, y) = (gkr_after(g, events, k as nat), gkr_after(h, events, k as nat));
        assert(y.expects(events[k]));
        lemma_gkr_step_agree(x, y, events[k]);
    }
}

/// What the scratch pads held does not matter: two proofs of the same circuits that begin with
/// scratch pads of any contents put the same questions to the same answers, and come to the same
/// claimed outputs and challenges.
pub proof fn lemma_gkr_run_agree<F: FieldEngine>(
    gkr: GkrView<F>,
    p: Seq<PadView<F::Field, F::ChallengeField>>,
    q: Seq<PadView<F::Field, F::ChallengeField>>,
    events: Seq<GkrEvent<F::ChallengeField>>,
)
    requires
        has_inputs(gkr),
        circuits_fit(gkr.circuits),
        pads_fit(gkr.circuits, p, gkr.mpi_var_num()),
        pads_fit(gkr.circuits, q, gkr.mpi_var_num()),
        gkr_all_expected(gkr.begin(q).0, events),
    ensures
        gkr.begin(p).1 == gkr.begin(q).1,
        gkr_all_expected(gkr.begin(p).0, events),
        forall|k: int|
            0 <= k < events.len() ==> (#[trigger] gkr_after(gkr.begin(p).0, events, k as nat)).step(
                events[k],
            ).1 == gkr_after(gkr.begin(q).0, events, k as nat).step(events[k]).1,
        gkr_after(gkr.begin(p).0, events, events.len()).results() == gkr_after(
            gkr.begin(q).0,
            events,
            events.len(),
        ).results(),
{
    let (x, y) = (gkr.begin(p).0, gkr.begin(q).0);
    assert forall|k: int| 0 <= k < events.len() implies (#[trigger] gkr_after(
        x,
        events,
        k as nat,
    )).expects(events[k]) && gkr_after(x, events, k as nat).step(events[k]).1 == gkr_after(
        y,
        events,
        k as nat,
    ).step(events[k]).1 by {
        lemma_gkr_after_agree(x, y, events, k as nat);
    }
    lemma_gkr_after_agree(x, y, events, events.len());
}

} // verus!
