//! The parts of the prover on small inputs.

use gkr_sumcheck::circuit::{
    is_at_least_pow2, is_pow2, CircuitLayer, ExpanderDualVarChallenge, ExpanderSingleVarChallenge,
    GateAdd, GateMul, StructureInfo,
};
use gkr_sumcheck::cuda_dispatch::{
    check_sizes_fit, try_gpu_poly_eval, try_gpu_receive_challenge, BatchedGpuSumcheckContext,
    GpuPolyEvalResult, GpuSumcheckContext,
};
use gkr_sumcheck::device::{DeviceOp, DevicePtr, DeviceReply, DeviceStep};
use gkr_sumcheck::engine::{log2, FieldEngine, FieldType, M31x16Config};
use gkr_sumcheck::field::Field;
use gkr_sumcheck::gkr::local_output_claim;
use gkr_sumcheck::instance::{
    gpu_pack_poly_eval_results, unpack_and_combine, InstanceState, ProverScratchPad,
};
use gkr_sumcheck::layout::{
    convert_aos_to_simd_ext3, convert_simd_base_to_aos, convert_simd_base_to_promoted_ext3_aos,
    convert_simd_ext3_to_aos,
};
use gkr_sumcheck::m31::{M31Ext3, Pack, M31, M31_MODULUS};
use gkr_sumcheck::poly::{
    add_front, compute_dot, compute_line_at, compute_value_at_two, eq_eval_at, eq_vec, fold_table,
    pow2_usize,
};
use gkr_sumcheck::product_gate::{gpu_update_gate_exists, SumcheckProductGateHelper};
use gkr_sumcheck::simd_gate::SumcheckSimdProdGateHelper;
use gkr_sumcheck::sumcheck::{SUMCHECK_GKR_DEGREE, SUMCHECK_GKR_SIMD_MPI_DEGREE};

type F = M31x16Config;
type E = M31Ext3;

fn b(v: u32) -> M31 {
    M31::new(v)
}

fn e(c0: u32, c1: u32, c2: u32) -> E {
    M31Ext3 { c0: b(c0), c1: b(c1), c2: b(c2) }
}

fn s(v: u32) -> E {
    e(v, 0, 0)
}

fn pack(v: u32) -> Pack<M31> {
    let mut lanes = [b(0); 16];
    for (l, x) in lanes.iter_mut().enumerate() {
        *x = b(v + l as u32);
    }
    Pack { lanes }
}

fn wide(v: u32) -> Pack<E> {
    F::broadcast(s(v))
}

// -- rings

#[test]
fn m31_reduces() {
    assert_eq!(M31_MODULUS, 0x7FFF_FFFF);
    assert_eq!(b(M31_MODULUS).v, 0);
    assert_eq!(b(u32::MAX).v, 1);
    assert_eq!(b(M31_MODULUS - 1).plus(b(1)).v, 0);
    assert_eq!(b(0).minus(b(1)).v, M31_MODULUS - 1);
    assert_eq!(b(1 << 30).times(b(4)).v, 2);
    assert_eq!(M31::one().v, 1);
    assert_eq!(M31::zero().v, 0);
}

#[test]
fn the_cube_of_the_extension_generator_is_five() {
    let x = e(0, 1, 0);
    assert_eq!(x.times(x), e(0, 0, 1));
    assert_eq!(x.times(x).times(x), s(5));
    assert_eq!(e(1, 2, 3).times(e(4, 5, 6)), e(4 + 5 * 27, 13 + 5 * 18, 28));
    assert_eq!(e(1, 2, 3).plus(e(4, 5, 6)), e(5, 7, 9));
    assert_eq!(e(4, 5, 6).minus(e(1, 2, 3)), e(3, 3, 3));
}

#[test]
fn packs_work_lane_by_lane() {
    let p = F::promote(pack(10));
    let q = F::broadcast(e(0, 1, 0));
    let sum = F::unpack(p.plus(q));
    let product = F::unpack(p.times(q));
    let difference = F::unpack(p.minus(q));
    for l in 0..16u32 {
        assert_eq!(sum[l as usize], e(10 + l, 1, 0));
        assert_eq!(product[l as usize], e(0, 10 + l, 0));
        assert_eq!(difference[l as usize], e(10 + l, M31_MODULUS - 1, 0));
    }
    assert_eq!(F::get_field_pack_size(), 16);
    assert_eq!(F::field_type(), FieldType::M31x16);
    assert_eq!(F::embed(b(7)), s(7));
}

#[test]
fn words_of_elements_are_limb_major() {
    let p = F::promote(pack(10)).plus(F::broadcast(e(0, 3, 4)));
    let mut words = vec![];
    F::push_field_words(p, &mut words);
    assert_eq!(words.len(), 48);
    assert_eq!(words[2], 12);
    assert_eq!(words[16 + 2], 3);
    assert_eq!(words[32 + 15], 4);
    assert_eq!(F::field_from_words(&words, 0), p);
    let mut base = vec![];
    F::push_simd_words(pack(10), &mut base);
    assert_eq!(base, (10..26).collect::<Vec<u32>>());
    assert_eq!(F::challenge_limbs(e(1, 2, 3)), [1, 2, 3]);
}

#[test]
fn logarithms_of_powers_of_two() {
    assert_eq!(log2(1), 0);
    assert_eq!(log2(16), 4);
    assert_eq!(log2(12), 2);
    assert_eq!(pow2_usize(0), 1);
    assert_eq!(pow2_usize(10), 1024);
    assert!(is_pow2(8, 3));
    assert!(!is_pow2(8, 4));
    assert!(!is_pow2(0, 64));
    assert!(is_at_least_pow2(9, 3));
    assert!(!is_at_least_pow2(7, 3));
    assert!(!is_at_least_pow2(7, 200));
}

// -- tables

#[test]
fn equality_tables() {
    let mut evals = vec![s(9); 5];
    eq_eval_at(&vec![s(2), s(3)], s(10), &mut evals);
    // (1 - 2)(1 - 3) = 2, 2 (1 - 3) = -4, (1 - 2) 3 = -3, 2 * 3 = 6
    assert_eq!(evals[0], s(20));
    assert_eq!(evals[1], s(0).minus(s(40)));
    assert_eq!(evals[2], s(0).minus(s(30)));
    assert_eq!(evals[3], s(60));
    assert_eq!(evals[4], s(9));
    let mut empty = vec![s(9)];
    eq_eval_at(&vec![], s(7), &mut empty);
    assert_eq!(empty, vec![s(7)]);
}

#[test]
fn equality_of_two_points() {
    assert_eq!(eq_vec::<E>(&vec![], &vec![]), s(1));
    assert_eq!(eq_vec(&vec![s(1), s(0)], &vec![s(1), s(0)]), s(1));
    assert_eq!(eq_vec(&vec![s(1), s(0)], &vec![s(0), s(0)]), s(0));
    // 2 * 3 + (1 - 2)(1 - 3) = 8
    assert_eq!(eq_vec(&vec![s(2)], &vec![s(3)]), s(8));
}

#[test]
fn folding_evaluates() {
    let mut t = vec![s(1), s(2), s(5), s(9)];
    fold_table(&mut t, 2, s(10));
    assert_eq!(t[0], s(11));
    assert_eq!(t[1], s(45));
    assert_eq!(t[2], s(5));
    fold_table(&mut t, 1, s(3));
    // 11 + (45 - 11) * 3
    assert_eq!(t[0], s(113));
    let mut evals = vec![s(0); 4];
    eq_eval_at(&vec![s(10), s(3)], s(1), &mut evals);
    assert_eq!(compute_dot(&vec![s(1), s(2), s(5), s(9)], &evals), s(113));
    assert_eq!(compute_line_at(s(4), s(6), s(5)), s(14));
    let mut a = vec![s(1), s(2), s(3)];
    add_front(&mut a, &vec![s(10), s(20)], 2);
    assert_eq!(a, vec![s(11), s(22), s(3)]);
}

#[test]
fn the_value_at_two_comes_from_the_raw_sums() {
    // f = 3, 5 and h = 7, 4: at two f = 7 and h = 1
    let raw = s(3 + 5).times(s(7 + 4));
    assert_eq!(compute_value_at_two(s(21), s(20), raw), s(7));
}

// -- rounds

#[test]
fn quadratic_rounds() {
    let helper = SumcheckProductGateHelper::new(2);
    let zero = wide(0);
    let vals = vec![pack(1), pack(2), pack(3), pack(4)];
    let mut f = vec![zero; 4];
    let mut hg = vec![wide(5), wide(6), zero, zero];
    let mut gates = vec![true, false, false, false];
    let p = helper.poly_eval_at::<F>(0, SUMCHECK_GKR_DEGREE, &f, &hg, &vals, &gates);
    let (p0, p1, p2) = (F::unpack(p[0]), F::unpack(p[1]), F::unpack(p[2]));
    for l in 0..16u32 {
        assert_eq!(p0[l as usize], s((1 + l) * 5));
        assert_eq!(p1[l as usize], s((2 + l) * 6));
        // the lines at two: 3 + l and 7
        assert_eq!(p2[l as usize], s((3 + l) * 7));
    }
    helper.receive_challenge::<F>(0, s(10), &mut f, &mut hg, &vals, &mut gates);
    assert_eq!(F::unpack(f[0])[0], s(11));
    assert_eq!(F::unpack(f[1])[3], s(16));
    assert_eq!(hg[0], wide(15));
    assert_eq!(hg[1], zero);
    assert_eq!(gates, vec![true, false, false, false]);
    // the values at zero and one add up to the sum at hand
    let q = helper.poly_eval_at::<F>(1, SUMCHECK_GKR_DEGREE, &f, &hg, &vals, &gates);
    assert_eq!(q[0].plus(q[1]), f[0].times(hg[0]).plus(f[1].times(hg[1])));
    helper.receive_challenge::<F>(1, s(2), &mut f, &mut hg, &vals, &mut gates);
    assert_eq!(F::unpack(f[0])[0], s(15));
}

#[test]
fn flags_are_ored_in_pairs() {
    let mut flags = vec![false, true, false, false, true, true, true, false];
    gpu_update_gate_exists(&mut flags, 4);
    assert_eq!(flags, vec![true, false, true, true, true, true, true, false]);
    gpu_update_gate_exists(&mut flags, 0);
    assert_eq!(flags, vec![true, false, true, true, true, true, true, false]);
}

#[test]
fn cubic_rounds() {
    let helper = SumcheckSimdProdGateHelper::new(1);
    let (mut eq, mut f, mut hg) = (vec![s(1), s(2)], vec![s(3), s(5)], vec![s(7), s(4)]);
    let p = helper.poly_eval_at(0, SUMCHECK_GKR_SIMD_MPI_DEGREE, &eq, &f, &hg);
    // at two: 3, 7, 1; at three: 4, 9, -2
    assert_eq!(p, [s(21), s(40), s(21), s(0).minus(s(72))]);
    helper.receive_challenge(0, s(2), &mut eq, &mut f, &mut hg);
    assert_eq!((eq[0], f[0], hg[0]), (s(3), s(7), s(1)));
    assert_eq!(eq[0].times(f[0]).times(hg[0]), p[2]);
}

// -- layers

fn small_layer() -> CircuitLayer<F> {
    CircuitLayer {
        input_var_num: 1,
        output_var_num: 1,
        input_vals: vec![pack(2), pack(3)],
        output_vals: vec![pack(0), pack(0)],
        mul: vec![GateMul { o_id: 0, i_ids: [0, 1], coef: b(5) }],
        add: vec![GateAdd { o_id: 1, i_ids: [1], coef: b(7) }],
        structure_info: StructureInfo { skip_sumcheck_phase_two: false },
    }
}

#[test]
fn coefficients_are_collected_from_the_gates() {
    let layer = small_layer();
    assert!(layer.is_well_formed());
    let challenge =
        ExpanderDualVarChallenge::<F>::new(vec![s(10)], None, vec![s(1); 4], vec![]);
    let pad = ProverScratchPad::<F>::new(1, 1, 1);
    let mut inst = InstanceState::new(&layer, challenge, None, pad, 1, true);
    inst.prepare_simd();
    inst.prepare_mpi();
    inst.prepare_x_vals();
    // weights of the outputs: 1 - 10 and 10
    let nine = s(0).minus(s(9));
    for l in 0..16u32 {
        let hg0 = F::unpack(inst.sp.hg_evals[0])[l as usize];
        assert_eq!(hg0, nine.times(s(5)).times(s(3 + l)));
        assert_eq!(F::unpack(inst.sp.hg_evals[1])[l as usize], s(70));
    }
    assert_eq!(inst.sp.gate_exists, vec![true, true]);
    assert_eq!(inst.sp.eq_evals_at_r_simd0[15], s(1));
    assert_eq!(inst.sp.eq_evals_at_r_simd0[0], s(0));
    assert_eq!(inst.sp.eq_evals_at_r_mpi0, vec![s(1)]);

    inst.receive_on_host(true, 0, s(4));
    assert_eq!(inst.rx, vec![s(4)]);
    assert_eq!(F::unpack(inst.sp.v_evals[0])[0], s(6));
    inst.prepare_simd_var_vals();
    for var in 0..4 {
        assert_eq!(inst.local_simd_evals(var, SUMCHECK_GKR_SIMD_MPI_DEGREE).len(), 4);
        inst.receive_r_simd_var(var, s(1));
    }
    let (v, hg) = inst.mpi_shares();
    assert_eq!(v, s(6 + 15));
    inst.prepare_mpi_var_vals(vec![v], vec![hg]);
    assert_eq!(inst.vx_claim(), s(21));
    inst.prepare_y_vals(s(21));
    // the one product gate goes to its second input
    assert_eq!(inst.sp.gate_exists, vec![false, true]);
    assert_eq!(inst.sp.hg_evals[1], F::broadcast(nine.times(s(0).minus(s(3))).times(s(5))));
    assert_eq!(inst.sp.phase2_coef, s(21));
    assert_eq!(inst.scale(&vec![s(2)]), vec![s(42)]);
    inst.receive_on_host(false, 0, s(6));
    assert_eq!(inst.local_vy_claim(), s(2 + 6 + 15));
    let (next, _) = inst.finish();
    assert_eq!(next.rz_0, vec![s(4)]);
    assert_eq!(next.rz_1, Some(vec![s(6)]));
    assert_eq!(next.r_simd, vec![s(1); 4]);
}

#[test]
fn two_claims_are_weighted_by_alpha() {
    let layer = small_layer();
    let challenge = ExpanderDualVarChallenge::<F>::new(
        vec![s(0)],
        Some(vec![s(1)]),
        vec![s(1); 4],
        vec![],
    );
    let mut pad = ProverScratchPad::<F>::new(1, 1, 1);
    pad.eq_evals_at_rx = vec![s(1), s(0)];
    let mut inst = InstanceState::new(&layer, challenge, Some(s(100)), pad, 1, false);
    inst.prepare_simd();
    inst.prepare_mpi();
    inst.prepare_x_vals();
    assert_eq!(inst.sp.eq_evals_at_rz0, vec![s(1), s(100)]);
    // the tables of the layer before are kept
    assert_eq!(inst.sp.eq_evals_at_r_simd0, vec![s(0); 16]);
    assert_eq!(F::unpack(inst.sp.hg_evals[1])[0], s(700));
}

#[test]
fn gates_outside_the_layer_are_refused() {
    let mut layer = small_layer();
    layer.mul[0].i_ids = [0, 2];
    assert!(!layer.is_well_formed());
    let mut layer = small_layer();
    layer.add[0].i_ids = [2];
    assert!(!layer.is_well_formed());
    let mut layer = small_layer();
    layer.input_vals.pop();
    assert!(!layer.is_well_formed());
}

#[test]
fn output_claims_are_weighted_over_wires_and_lanes() {
    let mut layer = small_layer();
    layer.output_vals = vec![pack(2), pack(3)];
    let point = ExpanderSingleVarChallenge::<F> {
        rz: vec![s(10)],
        r_simd: vec![s(1), s(0), s(0), s(0)],
        r_mpi: vec![],
    };
    let challenge = ExpanderDualVarChallenge::from_single(point);
    assert_eq!(challenge.rz_1, None);
    // lane one holds 3 and 4: 3 + 10
    assert_eq!(local_output_claim(&layer, &challenge), s(13));
    let back = challenge.challenge_x();
    assert_eq!(back.rz, vec![s(10)]);
    let coefs: Vec<E> = (0..16).map(|l| s(l)).collect();
    assert_eq!(unpack_and_combine::<F>(F::promote(pack(0)), &coefs), s(1240));
}

#[test]
fn gpu_results_are_packed_limb_by_limb() {
    let mut lanes = [[0u32; 9]; 16];
    for (l, lane) in lanes.iter_mut().enumerate() {
        for (c, w) in lane.iter_mut().enumerate() {
            *w = (100 * l + c) as u32;
        }
    }
    let p = gpu_pack_poly_eval_results::<F>(&lanes, 16);
    assert_eq!(F::unpack(p[0])[2], e(200, 201, 202));
    assert_eq!(F::unpack(p[1])[2], e(203, 204, 205));
    assert_eq!(F::unpack(p[2])[15], e(1506, 1507, 1508));
}

// -- layouts

#[test]
fn lanes_are_split_and_merged() {
    // two elements, two lanes: word (k * 3 + limb) * 2 + lane
    let table: Vec<u32> = (0..12).collect();
    let mut lanes = vec![99; 14];
    convert_simd_ext3_to_aos(&table, &mut lanes, 1, 2, 2);
    assert_eq!(lanes, vec![99, 0, 2, 4, 6, 8, 10, 1, 3, 5, 7, 9, 11, 99]);
    let mut back = vec![99; 12];
    convert_aos_to_simd_ext3(&lanes[1..13].to_vec(), &mut back, 0, 2, 2);
    assert_eq!(back, table);

    let base: Vec<u32> = vec![10, 20, 11, 21, 12, 22];
    let mut split = vec![0; 6];
    convert_simd_base_to_aos(&base, &mut split, 0, 3, 2);
    assert_eq!(split, vec![10, 11, 12, 20, 21, 22]);
    let mut promoted = vec![99; 18];
    convert_simd_base_to_promoted_ext3_aos(&base, &mut promoted, 0, 3, 2);
    assert_eq!(promoted, vec![10, 0, 0, 11, 0, 0, 12, 0, 0, 20, 0, 0, 21, 0, 0, 22, 0, 0]);
}

#[test]
fn buffer_sizes_are_checked() {
    assert!(check_sizes_fit(3, 16, 4096));
    assert!(!check_sizes_fit(1, 16, usize::MAX / 2));
    assert!(!check_sizes_fit(usize::MAX / 16, 16, 1));
    assert!(!check_sizes_fit(1, usize::MAX / 3, 3));
}

// -- device procedures

fn at(addr: u64, offset: usize) -> DevicePtr {
    DevicePtr { addr, offset }
}

#[test]
fn a_single_lane_is_evaluated_through_its_own_buffer() {
    let step = |eval_size, replies: Vec<DeviceReply>| {
        try_gpu_poly_eval(at(1, 0), at(2, 0), eval_size, &replies)
    };
    let ok = || DeviceReply::Status { err: 0 };
    let room = || DeviceReply::Allocated { err: 0, addr: 7 };
    assert_eq!(step(1023, vec![]), DeviceStep::Finished(None));
    assert_eq!(step(1024, vec![]), DeviceStep::Run(DeviceOp::Malloc { bytes: 36 }));
    assert_eq!(
        step(1024, vec![DeviceReply::Allocated { err: 2, addr: 7 }]),
        DeviceStep::Finished(None)
    );
    assert_eq!(
        step(1024, vec![DeviceReply::Allocated { err: 0, addr: 0 }]),
        DeviceStep::Finished(None)
    );
    assert_eq!(
        step(1024, vec![room()]),
        DeviceStep::Run(DeviceOp::PolyEval {
            bk_f: at(1, 0),
            bk_hg: at(2, 0),
            result: at(7, 0),
            eval_size: 1024
        })
    );
    let bad = || DeviceReply::Status { err: 3 };
    assert_eq!(step(1024, vec![room(), bad()]), DeviceStep::Run(DeviceOp::Free { addr: 7 }));
    assert_eq!(step(1024, vec![room(), bad(), ok()]), DeviceStep::Finished(None));
    assert_eq!(
        step(1024, vec![room(), ok()]),
        DeviceStep::Run(DeviceOp::Download { src: at(7, 0), count: 9 })
    );
    let words = |err| DeviceReply::Words { err, words: (1..10).collect() };
    assert_eq!(
        step(1024, vec![room(), ok(), words(0)]),
        DeviceStep::Run(DeviceOp::Free { addr: 7 })
    );
    assert_eq!(
        step(1024, vec![room(), ok(), words(0), ok()]),
        DeviceStep::Finished(Some(GpuPolyEvalResult {
            p0_limbs: [1, 2, 3],
            p1_limbs: [4, 5, 6],
            p2_limbs: [7, 8, 9]
        }))
    );
    assert_eq!(step(1024, vec![room(), ok(), words(1), ok()]), DeviceStep::Finished(None));
}

#[test]
fn a_single_lane_is_folded_by_one_kernel() {
    let step = |eval_size, replies: Vec<DeviceReply>| {
        try_gpu_receive_challenge(at(1, 0), at(2, 0), at(3, 0), eval_size, true, at(4, 0), &replies)
    };
    assert_eq!(step(512, vec![]), DeviceStep::Finished(false));
    assert_eq!(
        step(2048, vec![]),
        DeviceStep::Run(DeviceOp::ReceiveChallenge {
            bk_f: at(1, 0),
            bk_hg: at(2, 0),
            challenge: at(3, 0),
            eval_size: 2048,
            first_round: true,
            init_v: at(4, 0)
        })
    );
    assert_eq!(step(2048, vec![DeviceReply::Status { err: 0 }]), DeviceStep::Finished(true));
    assert_eq!(step(2048, vec![DeviceReply::Status { err: 1 }]), DeviceStep::Finished(false));
}

#[test]
fn a_setup_allocates_uploads_and_cleans_up() {
    let image = GpuSumcheckContext::image(vec![1; 6], vec![2; 2], 2, 1);
    let step = |replies: Vec<DeviceReply>| GpuSumcheckContext::new(&image, &replies);
    let room = |addr| DeviceReply::Allocated { err: 0, addr };
    let ok = || DeviceReply::Status { err: 0 };
    let sizes = [24, 24, 24, 24, 8, 24, 72];
    for (k, bytes) in sizes.iter().enumerate() {
        let replies = (0..k).map(|a| room(a as u64 + 1)).collect();
        assert_eq!(step(replies), DeviceStep::Run(DeviceOp::Malloc { bytes: *bytes }));
    }
    let seven = || (1..8).map(room).collect::<Vec<_>>();
    assert_eq!(
        step(seven()),
        DeviceStep::Run(DeviceOp::Upload { dst: at(1, 0), words: vec![2, 0, 0, 2, 0, 0] })
    );
    let mut replies = seven();
    replies.push(ok());
    assert_eq!(
        step(replies),
        DeviceStep::Run(DeviceOp::Upload { dst: at(2, 0), words: vec![1; 6] })
    );
    let mut replies = seven();
    replies.extend([ok(), ok()]);
    assert_eq!(
        step(replies),
        DeviceStep::Run(DeviceOp::Upload { dst: at(5, 0), words: vec![2; 2] })
    );
    let mut replies = seven();
    replies.extend([ok(), ok(), ok()]);
    match step(replies) {
        DeviceStep::Finished(Some(ctx)) => {
            assert_eq!(ctx.batch.d_bk_f, 1);
            assert_eq!(ctx.batch.d_bk_hg, 2);
            assert_eq!(ctx.batch.d_bk_f_alt, 3);
            assert_eq!(ctx.batch.d_bk_hg_alt, 4);
            assert_eq!(ctx.batch.d_init_v, 5);
            assert_eq!(ctx.batch.d_challenge, 6);
            assert_eq!(ctx.batch.d_result, 7);
            assert_eq!(ctx.batch.lane_stride_ext3, 3);
            // the buffers are freed in order
            let freed: Vec<_> = (0..7)
                .map(|k| ctx.release(&(0..k).map(|_| DeviceReply::Status { err: 9 }).collect()))
                .collect();
            for (k, step) in freed.iter().enumerate() {
                assert_eq!(*step, DeviceStep::Run(DeviceOp::Free { addr: k as u64 + 1 }));
            }
        }
        _ => panic!("no context"),
    }
    // the third allocation fails: the two before it are freed, newest first
    let failed = || vec![room(1), room(2), DeviceReply::Allocated { err: 2, addr: 0 }];
    assert_eq!(step(failed()), DeviceStep::Run(DeviceOp::Free { addr: 2 }));
    let mut replies = failed();
    replies.push(ok());
    assert_eq!(step(replies), DeviceStep::Run(DeviceOp::Free { addr: 1 }));
    let mut replies = failed();
    replies.extend([ok(), ok()]);
    assert_eq!(step(replies), DeviceStep::Finished(None));
}

#[test]
fn challenges_are_replicated_over_the_lanes() {
    let mut ctx = BatchedGpuSumcheckContext {
        d_bk_f: 1,
        d_bk_hg: 2,
        d_bk_f_alt: 3,
        d_bk_hg_alt: 4,
        d_init_v: 5,
        d_challenge: 6,
        d_result: 7,
        n_instances: 2,
        pack_size: 2,
        lane_stride_ext3: 12,
        lane_stride_base: 4,
    };
    let r = vec![[1, 2, 3], [4, 5, 6]];
    let ok = || DeviceReply::Status { err: 0 };
    assert_eq!(
        ctx.receive_challenge(1, 1, &r, &vec![]),
        DeviceStep::Run(DeviceOp::Upload {
            dst: at(6, 0),
            words: vec![1, 2, 3, 1, 2, 3, 4, 5, 6, 4, 5, 6]
        })
    );
    assert_eq!(
        ctx.receive_challenge(1, 1, &r, &vec![ok()]),
        DeviceStep::Run(DeviceOp::ReceiveChallengeBatched {
            bk_f: at(1, 0),
            bk_hg: at(2, 0),
            bk_f_out: at(3, 0),
            bk_hg_out: at(4, 0),
            challenge: at(6, 0),
            eval_size: 1,
            batch_size: 4,
            stride: 12
        })
    );
    // the first fold goes lane by lane
    assert_eq!(
        ctx.receive_challenge(2, 0, &r, &vec![ok(), ok(), ok()]),
        DeviceStep::Run(DeviceOp::Upload { dst: at(6, 0), words: vec![4, 5, 6] })
    );
    assert_eq!(
        ctx.receive_challenge(2, 0, &r, &vec![ok(), ok(), ok(), ok(), ok()]),
        DeviceStep::Run(DeviceOp::ReceiveChallenge {
            bk_f: at(1, 36),
            bk_hg: at(2, 36),
            challenge: at(6, 0),
            eval_size: 2,
            first_round: true,
            init_v: at(5, 12)
        })
    );
    assert_eq!(
        ctx.download_instance_bk_hg(1, 2, &vec![DeviceReply::Words { err: 0, words: vec![0; 6] }]),
        DeviceStep::Run(DeviceOp::Download { src: at(2, 36), count: 6 })
    );
    assert_eq!(
        ctx.poly_eval_at(1, &vec![ok()]),
        DeviceStep::Run(DeviceOp::Download { src: at(7, 0), count: 36 })
    );
}
