//! Whole proofs, alone and in lockstep, on the host and on an emulated GPU.

use std::collections::HashMap;

use gkr_sumcheck::circuit::{
    Circuit, CircuitLayer, ExpanderDualVarChallenge, ExpanderSingleVarChallenge, GateAdd, GateMul,
    StructureInfo,
};
use gkr_sumcheck::cuda_dispatch::{
    BatchedGpuSumcheckContext, ContextImage, GpuSumcheckContext, GPU_DISPATCH_THRESHOLD,
};
use gkr_sumcheck::device::{DeviceOp, DevicePtr, DeviceReply, DeviceStep};
use gkr_sumcheck::engine::{FieldEngine, M31x16Config};
use gkr_sumcheck::field::Field;
use gkr_sumcheck::gkr::{can_prove, gkr_prove, gkr_prove_batched, GkrProver, GkrReply, GkrRequest};
use gkr_sumcheck::instance::ProverScratchPad;
use gkr_sumcheck::m31::{M31Ext3, Pack, M31};
use gkr_sumcheck::sumcheck::{
    sumcheck_prove_gkr_layer, sumcheck_prove_gkr_layer_batched, LayerReply, LayerRequest,
};

type F = M31x16Config;
type E = M31Ext3;

// -- an emulated GPU

struct Emulator {
    memory: HashMap<u64, Vec<u32>>,
    next: u64,
    /// Operations before every later one fails.
    budget: Option<usize>,
    /// The one operation that fails.
    fault: Option<usize>,
    /// Operations so far, and how many of them failed.
    operations: usize,
    failures: usize,
    kernels: usize,
}

fn read3(words: &[u32], at: usize) -> E {
    M31Ext3 {
        c0: M31::new(words[at]),
        c1: M31::new(words[at + 1]),
        c2: M31::new(words[at + 2]),
    }
}

fn write3(words: &mut [u32], at: usize, x: E) {
    words[at] = x.c0.v;
    words[at + 1] = x.c1.v;
    words[at + 2] = x.c2.v;
}

fn line(a: E, b: E, r: E) -> E {
    a.plus(b.minus(a).times(r))
}

impl Emulator {
    fn new() -> Self {
        Emulator {
            memory: HashMap::new(),
            next: 1000,
            budget: None,
            fault: None,
            operations: 0,
            failures: 0,
            kernels: 0,
        }
    }

    fn failing_once_at(n: usize) -> Self {
        Emulator { fault: Some(n), ..Emulator::new() }
    }

    fn failing_after(n: usize) -> Self {
        Emulator { budget: Some(n), ..Emulator::new() }
    }

    fn eval_lane(&self, f: DevicePtr, h: DevicePtr, base: usize, n: usize) -> [E; 3] {
        let (fm, hm) = (&self.memory[&f.addr], &self.memory[&h.addr]);
        let mut p = [E::zero(), E::zero(), E::zero()];
        for i in 0..n {
            let f0 = read3(fm, f.offset + base + 6 * i);
            let f1 = read3(fm, f.offset + base + 6 * i + 3);
            let h0 = read3(hm, h.offset + base + 6 * i);
            let h1 = read3(hm, h.offset + base + 6 * i + 3);
            p[0] = p[0].plus(f0.times(h0));
            p[1] = p[1].plus(f1.times(h1));
            p[2] = p[2].plus(f0.plus(f1).times(h0.plus(h1)));
        }
        p
    }

    fn run(&mut self, op: &DeviceOp) -> DeviceReply {
        let spent = match self.budget {
            Some(0) => true,
            Some(n) => {
                self.budget = Some(n - 1);
                false
            }
            None => self.fault == Some(self.operations),
        };
        self.operations += 1;
        if spent && !matches!(op, DeviceOp::Free { .. }) {
            self.failures += 1;
        }
        match op {
            DeviceOp::Malloc { bytes } => {
                if spent {
                    return DeviceReply::Allocated { err: 2, addr: 0 };
                }
                self.next += 1;
                self.memory.insert(self.next, vec![0; bytes / 4]);
                DeviceReply::Allocated { err: 0, addr: self.next }
            }
            DeviceOp::Free { addr } => {
                assert!(self.memory.remove(addr).is_some());
                DeviceReply::Status { err: 0 }
            }
            DeviceOp::Upload { dst, words } => {
                if spent {
                    return DeviceReply::Status { err: 1 };
                }
                let m = self.memory.get_mut(&dst.addr).unwrap();
                m[dst.offset..dst.offset + words.len()].copy_from_slice(words);
                DeviceReply::Status { err: 0 }
            }
            DeviceOp::Download { src, count } => {
                if spent {
                    return DeviceReply::Words { err: 1, words: vec![] };
                }
                let m = &self.memory[&src.addr];
                DeviceReply::Words { err: 0, words: m[src.offset..src.offset + count].to_vec() }
            }
            DeviceOp::PolyEval { bk_f, bk_hg, result, eval_size } => {
                if spent {
                    return DeviceReply::Status { err: 1 };
                }
                self.kernels += 1;
                let p = self.eval_lane(*bk_f, *bk_hg, 0, *eval_size as usize);
                let m = self.memory.get_mut(&result.addr).unwrap();
                for (c, x) in p.iter().enumerate() {
                    write3(m, result.offset + 3 * c, *x);
                }
                DeviceReply::Status { err: 0 }
            }
            DeviceOp::PolyEvalBatched { bk_f, bk_hg, result, eval_size, batch_size, stride } => {
                if spent {
                    return DeviceReply::Status { err: 1 };
                }
                self.kernels += 1;
                for lane in 0..*batch_size as usize {
                    let p = self.eval_lane(
                        *bk_f,
                        *bk_hg,
                        lane * *stride as usize,
                        *eval_size as usize,
                    );
                    let m = self.memory.get_mut(&result.addr).unwrap();
                    for (c, x) in p.iter().enumerate() {
                        write3(m, result.offset + 9 * lane + 3 * c, *x);
                    }
                }
                DeviceReply::Status { err: 0 }
            }
            DeviceOp::ReceiveChallenge {
                bk_f,
                bk_hg,
                challenge,
                eval_size,
                first_round,
                init_v,
            } => {
                if spent {
                    return DeviceReply::Status { err: 1 };
                }
                self.kernels += 1;
                let r = read3(&self.memory[&challenge.addr], challenge.offset);
                for i in 0..*eval_size as usize {
                    let (a, b) = if *first_round {
                        let v = &self.memory[&init_v.addr];
                        let zero = M31 { v: 0 };
                        (
                            E { c0: M31::new(v[init_v.offset + 2 * i]), c1: zero, c2: zero },
                            E { c0: M31::new(v[init_v.offset + 2 * i + 1]), c1: zero, c2: zero },
                        )
                    } else {
                        let m = &self.memory[&bk_f.addr];
                        (read3(m, bk_f.offset + 6 * i), read3(m, bk_f.offset + 6 * i + 3))
                    };
                    let m = self.memory.get_mut(&bk_f.addr).unwrap();
                    write3(m, bk_f.offset + 3 * i, line(a, b, r));
                    let m = self.memory.get_mut(&bk_hg.addr).unwrap();
                    let (a, b) =
                        (read3(m, bk_hg.offset + 6 * i), read3(m, bk_hg.offset + 6 * i + 3));
                    write3(m, bk_hg.offset + 3 * i, line(a, b, r));
                }
                DeviceReply::Status { err: 0 }
            }
            DeviceOp::ReceiveChallengeBatched {
                bk_f,
                bk_hg,
                bk_f_out,
                bk_hg_out,
                challenge,
                eval_size,
                batch_size,
                stride,
            } => {
                if spent {
                    return DeviceReply::Status { err: 1 };
                }
                self.kernels += 1;
                for lane in 0..*batch_size as usize {
                    let base = lane * *stride as usize;
                    let r = read3(&self.memory[&challenge.addr], challenge.offset + 3 * lane);
                    for (from, to) in [(bk_f, bk_f_out), (bk_hg, bk_hg_out)] {
                        for i in 0..*eval_size as usize {
                            let m = &self.memory[&from.addr];
                            let a = read3(m, from.offset + base + 6 * i);
                            let b = read3(m, from.offset + base + 6 * i + 3);
                            let m = self.memory.get_mut(&to.addr).unwrap();
                            write3(m, to.offset + base + 3 * i, line(a, b, r));
                        }
                    }
                }
                DeviceReply::Status { err: 0 }
            }
        }
    }
}

/// Runs a device procedure to its end.
fn drive<T>(gpu: &mut Emulator, mut next: impl FnMut(&Vec<DeviceReply>) -> DeviceStep<T>) -> T {
    let mut replies = vec![];
    loop {
        match next(&replies) {
            DeviceStep::Run(op) => replies.push(gpu.run(&op)),
            DeviceStep::Finished(result) => return result,
        }
    }
}

// -- a toy transcript

#[derive(Clone)]
struct Toy {
    state: u64,
}

impl Toy {
    fn new(seed: u8) -> Self {
        Toy { state: 0x9E37_79B9_7F4A_7C15 ^ (seed as u64) }
    }

    fn word(&mut self) -> u32 {
        self.state = self.state.wrapping_mul(6364136223846793005).wrapping_add(1442695040888963407);
        (self.state >> 33) as u32
    }

    fn append(&mut self, x: &E) {
        for w in [x.c0.v, x.c1.v, x.c2.v] {
            self.state ^= w as u64;
            self.word();
        }
    }

    fn sample(&mut self) -> E {
        M31Ext3 { c0: M31::new(self.word()), c1: M31::new(self.word()), c2: M31::new(self.word()) }
    }

    fn samples(&mut self, n: usize) -> Vec<E> {
        (0..n).map(|_| self.sample()).collect()
    }
}

// -- circuits

struct Lcg(u64);

impl Lcg {
    fn next(&mut self) -> u32 {
        self.0 = self.0.wrapping_mul(6364136223846793005).wrapping_add(1442695040888963407);
        (self.0 >> 33) as u32
    }

    fn pack(&mut self) -> Pack<M31> {
        let mut lanes = [M31 { v: 0 }; 16];
        for lane in lanes.iter_mut() {
            *lane = M31::new(self.next());
        }
        Pack { lanes }
    }
}

/// Layers with these numbers of variables, inputs first; `linear` layers have addition gates
/// alone. Gates depend on the circuit seed, values on the witness seed.
fn make_circuit(vars: &[usize], linear: &[bool], seed: u64, witness: u64) -> Circuit<F> {
    let mut gates = Lcg(seed);
    let mut wires = Lcg(witness);
    let mut values: Vec<Pack<M31>> = (0..1usize << vars[0]).map(|_| wires.pack()).collect();
    let mut layers = vec![];
    for j in 0..linear.len() {
        let (inputs, outputs) = (1usize << vars[j], 1usize << vars[j + 1]);
        let mut mul = vec![];
        let mut add = vec![];
        let mut out = vec![Pack { lanes: [M31 { v: 0 }; 16] }; outputs];
        for o in 0..outputs {
            for _ in 0..2 {
                let i0 = gates.next() as usize % inputs;
                let i1 = gates.next() as usize % inputs;
                let coef = M31::new(gates.next());
                if linear[j] || o % 2 == 1 {
                    add.push(GateAdd { o_id: o, i_ids: [i0], coef });
                    for l in 0..16 {
                        out[o].lanes[l] =
                            out[o].lanes[l].plus(coef.times(values[i0].lanes[l]));
                    }
                } else {
                    mul.push(GateMul { o_id: o, i_ids: [i0, i1], coef });
                    for l in 0..16 {
                        out[o].lanes[l] = out[o].lanes[l]
                            .plus(coef.times(values[i0].lanes[l]).times(values[i1].lanes[l]));
                    }
                }
            }
        }
        layers.push(CircuitLayer {
            input_var_num: vars[j],
            output_var_num: vars[j + 1],
            input_vals: values,
            output_vals: out.clone(),
            mul,
            add,
            structure_info: StructureInfo { skip_sumcheck_phase_two: linear[j] },
        });
        values = out;
    }
    Circuit { layers }
}

fn make_pad(circuit: &Circuit<F>, world_size: usize) -> ProverScratchPad<F> {
    let max_in = circuit.layers.iter().map(|l| l.input_var_num).max().unwrap();
    let max_out = circuit.layers.iter().map(|l| l.output_var_num).max().unwrap();
    ProverScratchPad::new(max_in, max_out, world_size)
}

// -- drivers

/// What a verifier follows: the running claim of an instance.
struct Watch {
    claim: Option<E>,
    rounds: usize,
    /// The layers have multiplication gates alone.
    pure: bool,
}

/// A small integer as a field element.
fn small(n: i64) -> E {
    let p: i64 = (1 << 31) - 1;
    E { c0: M31 { v: n.rem_euclid(p) as u32 }, c1: M31 { v: 0 }, c2: M31 { v: 0 } }
}

fn inverse(n: i64) -> E {
    let mut result = E::one();
    let mut base = small(n);
    let mut e: u64 = (1 << 31) - 3;
    while e > 0 {
        if e & 1 == 1 {
            result = result.times(base);
        }
        base = base.times(base);
        e >>= 1;
    }
    result
}

/// The polynomial through values at zero, one, two and so on, at `r`.
fn polynomial_at(v: &[E], r: E) -> E {
    let mut sum = E::zero();
    for i in 0..v.len() as i64 {
        let mut term = v[i as usize];
        for k in 0..v.len() as i64 {
            if k != i {
                term = term.times(r.minus(small(k))).times(inverse(i - k));
            }
        }
        sum = sum.plus(term);
    }
    sum
}

fn serve(
    request: &LayerRequest<F>,
    transcripts: &mut [Toy],
    gpu: &mut Option<Emulator>,
    mut watch: Option<&mut Watch>,
) -> LayerReply<F> {
    match request {
        LayerRequest::Device(op) => LayerReply::Device(match gpu {
            Some(gpu) => gpu.run(op),
            None => DeviceReply::Allocated { err: 100, addr: 0 },
        }),
        LayerRequest::Combine { values, coefs } => LayerReply::Combined {
            values: values
                .iter()
                .zip(coefs)
                .map(|(v, c)| v.iter().map(|x| x.times(c[0])).collect())
                .collect(),
        },
        LayerRequest::Challenge { evals } => {
            let mut r = vec![];
            for (evals, transcript) in evals.iter().zip(transcripts.iter_mut()) {
                for x in evals {
                    transcript.append(x);
                }
                r.push(transcript.sample());
            }
            if let Some(watch) = watch.as_mut() {
                if let Some(claim) = watch.claim {
                    assert_eq!(evals[0][0].plus(evals[0][1]), claim);
                }
                watch.claim = Some(polynomial_at(&evals[0], r[0]));
                watch.rounds += 1;
            }
            LayerReply::Challenged { r }
        }
        LayerRequest::Gather { v, hg } => LayerReply::Gathered {
            v: v.iter().map(|x| vec![*x]).collect(),
            hg: hg.iter().map(|x| vec![*x]).collect(),
        },
        LayerRequest::Append { claims } => {
            for (claim, transcript) in claims.iter().zip(transcripts.iter_mut()) {
                transcript.append(claim);
            }
            if let Some(watch) = watch.as_mut() {
                if !watch.pure {
                    watch.claim = None;
                }
            }
            LayerReply::Appended
        }
        LayerRequest::Broadcast { roots } => LayerReply::Broadcasted { roots: roots.clone() },
        LayerRequest::Finished => unreachable!(),
    }
}

fn run<'a>(
    start: (GkrProver<'a, F>, GkrRequest<F>),
    transcripts: &mut [Toy],
    gpu: &mut Option<Emulator>,
    mut watch: Option<&mut Watch>,
) -> Vec<(E, ExpanderDualVarChallenge<F>)> {
    let (mut prover, mut request) = start;
    while !prover.is_done() {
        let reply = match &request {
            GkrRequest::Sample { output_var_nums, world_size } => {
                assert_eq!(*world_size, 1);
                GkrReply::Sampled {
                    challenges: output_var_nums
                        .iter()
                        .zip(transcripts.iter_mut())
                        .map(|(n, t)| ExpanderSingleVarChallenge {
                            rz: t.samples(*n),
                            r_simd: t.samples(4),
                            r_mpi: vec![],
                        })
                        .collect(),
                }
            }
            GkrRequest::Combine { values, coefs } => {
                let values: Vec<Vec<E>> = values
                    .iter()
                    .zip(coefs)
                    .map(|(v, c)| v.iter().map(|x| x.times(c[0])).collect())
                    .collect();
                if let Some(watch) = watch.as_mut() {
                    watch.claim = if watch.pure { None } else { Some(values[0][0]) };
                }
                GkrReply::Combined { values }
            }
            GkrRequest::Layer(request) => {
                GkrReply::Layer(serve(request, transcripts, gpu, watch.as_deref_mut()))
            }
            GkrRequest::Alpha { count } => {
                if let Some(watch) = watch.as_mut() {
                    watch.claim = None;
                }
                assert_eq!(*count, transcripts.len());
                GkrReply::Alphas { alphas: transcripts.iter_mut().map(|t| t.sample()).collect() }
            }
            GkrRequest::Finished => unreachable!(),
        };
        assert!(prover.accepts(&reply));
        let (next, asked) = prover.advance(reply);
        prover = next;
        request = asked;
    }
    assert!(matches!(request, GkrRequest::Finished));
    prover.finish().0
}

fn prove_alone(circuit: &Circuit<F>, t: &mut Toy, gpu: &mut Option<Emulator>) -> (
    E,
    ExpanderDualVarChallenge<F>,
) {
    let pads = vec![make_pad(circuit, 1)];
    assert!(can_prove(&vec![circuit], &pads, 1));
    let mut transcripts = vec![t.clone()];
    let pad = pads.into_iter().next().unwrap();
    let mut results = run(gkr_prove(circuit, pad, 1), &mut transcripts, gpu, None);
    *t = transcripts.remove(0);
    results.remove(0)
}

fn prove_batched(
    circuits: &[Circuit<F>],
    transcripts: &mut [Toy],
    gpu: &mut Option<Emulator>,
) -> Vec<(E, ExpanderDualVarChallenge<F>)> {
    let refs: Vec<&Circuit<F>> = circuits.iter().collect();
    let pads: Vec<_> = circuits.iter().map(|c| make_pad(c, 1)).collect();
    assert!(can_prove(&refs, &pads, 1));
    run(gkr_prove_batched(refs, pads, 1), transcripts, gpu, None)
}

fn assert_same(
    i: usize,
    a: &(E, ExpanderDualVarChallenge<F>),
    b: &(E, ExpanderDualVarChallenge<F>),
) {
    assert_eq!(a.0, b.0, "instance {i}: claimed_v mismatch");
    assert_eq!(a.1.rz_0, b.1.rz_0, "instance {i}: rz_0 (rx) mismatch");
    assert_eq!(a.1.rz_1, b.1.rz_1, "instance {i}: rz_1 (ry) mismatch");
    assert_eq!(a.1.r_simd, b.1.r_simd, "instance {i}: r_simd mismatch");
    assert_eq!(a.1.r_mpi, b.1.r_mpi, "instance {i}: r_mpi mismatch");
}

// -- lockstep

#[test]
fn test_gkr_prove_batched_matches_single() {
    const N: usize = 2;
    let circuits: Vec<Circuit<F>> =
        (0..N).map(|i| make_circuit(&[4, 3, 2], &[false, false], 7, 100 + i as u64)).collect();

    let mut ref_transcripts: Vec<Toy> = (0..N).map(|i| Toy::new(i as u8)).collect();
    let ref_results: Vec<_> =
        (0..N).map(|i| prove_alone(&circuits[i], &mut ref_transcripts[i], &mut None)).collect();

    let mut batched_transcripts: Vec<Toy> = (0..N).map(|i| Toy::new(i as u8)).collect();
    let batched_results = prove_batched(&circuits, &mut batched_transcripts, &mut None);

    assert_eq!(batched_results.len(), N);
    for i in 0..N {
        assert_same(i, &ref_results[i], &batched_results[i]);
        assert_eq!(
            ref_transcripts[i].sample(),
            batched_transcripts[i].sample(),
            "instance {i}: transcript-state hash mismatch"
        );
    }
    assert_ne!(batched_results[0].0, batched_results[1].0);
}

#[test]
fn batched_on_gpu_matches_single_on_gpu_and_on_host() {
    const N: usize = 2;
    let circuits: Vec<Circuit<F>> =
        (0..N).map(|i| make_circuit(&[12, 3, 2], &[false, true], 9, 200 + i as u64)).collect();

    let mut batched_transcripts: Vec<Toy> = (0..N).map(|i| Toy::new(i as u8)).collect();
    let mut gpu = Some(Emulator::new());
    let batched = prove_batched(&circuits, &mut batched_transcripts, &mut gpu);
    let gpu = gpu.unwrap();
    assert!(gpu.kernels > 0);
    assert!(gpu.memory.is_empty());

    for i in 0..N {
        let mut on_gpu = Toy::new(i as u8);
        let mut gpu = Some(Emulator::new());
        let single = prove_alone(&circuits[i], &mut on_gpu, &mut gpu);
        assert_same(i, &single, &batched[i]);
        assert_eq!(on_gpu.state, batched_transcripts[i].state);

        let mut on_host = Toy::new(i as u8);
        let single = prove_alone(&circuits[i], &mut on_host, &mut None);
        assert_same(i, &single, &batched[i]);
        assert_eq!(on_host.state, batched_transcripts[i].state);
    }
}

#[test]
fn gpu_setup_failures_fall_back_to_the_host() {
    let circuit = make_circuit(&[11, 2], &[false], 5, 6);
    let mut plain = Toy::new(3);
    let want = prove_alone(&circuit, &mut plain, &mut None);
    // the seven allocations and the three uploads, each failing in turn
    for n in 0..10 {
        let mut transcript = Toy::new(3);
        let mut gpu = Some(Emulator::failing_after(n));
        let got = prove_alone(&circuit, &mut transcript, &mut gpu);
        assert_same(0, &got, &want);
        assert_eq!(transcript.state, plain.state);
        assert!(gpu.unwrap().memory.is_empty());
    }
}

/// How many operations a proof runs on a GPU that does not fail.
fn operations_of(circuit: &Circuit<F>) -> usize {
    let mut gpu = Some(Emulator::new());
    prove_alone(circuit, &mut Toy::new(3), &mut gpu);
    gpu.unwrap().operations
}

#[test]
fn a_gpu_that_fails_for_good_is_not_noticed() {
    // two rounds of each phase on the GPU
    let circuit = make_circuit(&[12, 2], &[false], 5, 6);
    let mut plain = Toy::new(3);
    let want = prove_alone(&circuit, &mut plain, &mut None);
    let all = operations_of(&circuit);
    assert!(all > 50);
    for n in 0..=all {
        let mut transcript = Toy::new(3);
        let mut gpu = Some(Emulator::failing_after(n));
        let got = prove_alone(&circuit, &mut transcript, &mut gpu);
        assert_same(0, &got, &want);
        assert_eq!(transcript.state, plain.state, "after {n} operations");
        assert!(gpu.unwrap().memory.is_empty());
    }
}

#[test]
fn a_gpu_that_fails_once_is_not_noticed() {
    let circuit = make_circuit(&[12, 2], &[false], 5, 6);
    let mut plain = Toy::new(3);
    let want = prove_alone(&circuit, &mut plain, &mut None);
    let all = operations_of(&circuit);
    let mut failures = 0;
    for n in 0..all {
        let mut transcript = Toy::new(3);
        let mut gpu = Some(Emulator::failing_once_at(n));
        let got = prove_alone(&circuit, &mut transcript, &mut gpu);
        assert_same(0, &got, &want);
        assert_eq!(transcript.state, plain.state, "operation {n}");
        let gpu = gpu.unwrap();
        assert!(gpu.memory.is_empty());
        failures += gpu.failures;
    }
    assert!(failures > all / 2);
}

#[test]
fn a_failed_evaluation_leaves_the_gpu_in_use() {
    let circuit = make_circuit(&[12, 2], &[false], 5, 6);
    let all = operations_of(&circuit);
    let operations = |n: usize| {
        let mut gpu = Some(Emulator::failing_once_at(n));
        prove_alone(&circuit, &mut Toy::new(3), &mut gpu);
        gpu.unwrap().operations
    };
    // after the seven allocations and the three uploads: the kernel, which leaves nothing to copy
    // back, and the copy of its results
    assert_eq!(operations(10), all - 1);
    assert_eq!(operations(11), all);
    // after the first fold, an upload and a kernel for each lane, the second round's evaluation
    assert_eq!(operations(29), all - 1);
    assert_eq!(operations(30), all);
    // a fold that fails leaves tables that lack its challenge
    assert!(operations(12) < all - 1);
    assert!(operations(31) < all - 1);
}

#[test]
fn a_batch_on_a_failing_gpu_matches_each_alone() {
    const N: usize = 2;
    let circuits: Vec<Circuit<F>> =
        (0..N).map(|i| make_circuit(&[12, 2], &[false], 9, 200 + i as u64)).collect();
    let mut plain: Vec<Toy> = (0..N).map(|i| Toy::new(i as u8)).collect();
    let want: Vec<_> =
        (0..N).map(|i| prove_alone(&circuits[i], &mut plain[i], &mut None)).collect();
    let mut gpu = Some(Emulator::new());
    let mut transcripts: Vec<Toy> = (0..N).map(|i| Toy::new(i as u8)).collect();
    prove_batched(&circuits, &mut transcripts, &mut gpu);
    let all = gpu.unwrap().operations;
    for n in (0..all).step_by(7) {
        let mut transcripts: Vec<Toy> = (0..N).map(|i| Toy::new(i as u8)).collect();
        let mut gpu = Some(Emulator::failing_once_at(n));
        let got = prove_batched(&circuits, &mut transcripts, &mut gpu);
        for i in 0..N {
            assert_same(i, &got[i], &want[i]);
            assert_eq!(transcripts[i].state, plain[i].state);
        }
        assert!(gpu.unwrap().memory.is_empty());
    }
}

#[test]
fn layers_without_output_values_are_proved() {
    let mut circuit = make_circuit(&[4, 3, 2], &[false, true], 7, 8);
    let mut full = Toy::new(1);
    let want = prove_alone(&circuit, &mut full, &mut None);
    circuit.layers[0].output_vals = vec![];
    let mut transcript = Toy::new(1);
    let got = prove_alone(&circuit, &mut transcript, &mut None);
    assert_same(0, &got, &want);
    assert_eq!(transcript.state, full.state);

    circuit.layers[1].output_vals = vec![];
    let pads = vec![make_pad(&circuit, 1)];
    assert!(!can_prove(&vec![&circuit], &pads, 1));
}

#[test]
fn old_scratch_contents_do_not_matter() {
    let circuit = make_circuit(&[4, 3, 2], &[false, false], 7, 8);
    let mut plain = Toy::new(1);
    let want = prove_alone(&circuit, &mut plain, &mut None);
    // larger tables, full of what another proof left
    let other = make_circuit(&[5, 4, 3], &[false, false], 17, 18);
    let pad = make_pad(&other, 4);
    let mut transcripts = vec![Toy::new(9)];
    let (mut prover, mut request) = gkr_prove(&other, pad, 1);
    while !prover.is_done() {
        let reply = match &request {
            GkrRequest::Sample { output_var_nums, .. } => GkrReply::Sampled {
                challenges: vec![ExpanderSingleVarChallenge {
                    rz: transcripts[0].samples(output_var_nums[0]),
                    r_simd: transcripts[0].samples(4),
                    r_mpi: vec![],
                }],
            },
            GkrRequest::Combine { values, .. } => GkrReply::Combined { values: values.clone() },
            GkrRequest::Layer(request) => {
                GkrReply::Layer(serve(request, &mut transcripts, &mut None, None))
            }
            GkrRequest::Alpha { .. } => GkrReply::Alphas { alphas: transcripts[0].samples(1) },
            GkrRequest::Finished => unreachable!(),
        };
        let (next, asked) = prover.advance(reply);
        prover = next;
        request = asked;
    }
    let used = prover.finish().1.remove(0);
    assert!(can_prove(&vec![&circuit], &vec![make_pad(&circuit, 1)], 1));
    let mut transcripts = vec![Toy::new(1)];
    let got = run(gkr_prove(&circuit, used, 1), &mut transcripts, &mut None, None);
    assert_same(0, &got[0], &want);
    assert_eq!(transcripts[0].state, plain.state);
}

#[test]
fn rounds_follow_from_the_claims() {
    for (vars, linear) in [
        (vec![4, 3], vec![true]),
        (vec![3, 3, 2], vec![true, true]),
        (vec![4, 2], vec![false]),
    ] {
        let circuit = make_circuit(&vars, &linear, 21, 22);
        let mut watch = Watch { claim: None, rounds: 0, pure: false };
        let mut transcripts = vec![Toy::new(1)];
        let pad = make_pad(&circuit, 1);
        let results =
            run(gkr_prove(&circuit, pad, 1), &mut transcripts, &mut None, Some(&mut watch));
        assert_eq!(results.len(), 1);
        assert!(watch.rounds >= vars[0]);
    }
}

#[test]
fn messages_hang_together_over_both_phases() {
    let mut circuit = make_circuit(&[4, 3], &[false], 21, 22);
    circuit.layers[0].add = vec![];
    let mut watch = Watch { claim: None, rounds: 0, pure: true };
    let mut transcripts = vec![Toy::new(1)];
    let pad = make_pad(&circuit, 1);
    run(gkr_prove(&circuit, pad, 1), &mut transcripts, &mut None, Some(&mut watch));
    assert_eq!(watch.rounds, 4 + 4 + 4);
}

/// The value of packed wires at a point, by the definition.
fn value_at(vals: &[Pack<M31>], rz: &[E], r_simd: &[E]) -> E {
    let weight = |r: &[E], i: usize| {
        let mut w = E::one();
        for (j, x) in r.iter().enumerate() {
            let side = if (i >> j) & 1 == 1 { *x } else { E::one().minus(*x) };
            w = w.times(side);
        }
        w
    };
    let mut sum = E::zero();
    for (i, v) in vals.iter().enumerate() {
        for l in 0..16 {
            let x = <F as FieldEngine>::embed(v.lanes[l]);
            sum = sum.plus(weight(rz, i).times(weight(r_simd, l)).times(x));
        }
    }
    sum
}

#[test]
fn claims_are_values_of_outputs_and_inputs() {
    let circuit = make_circuit(&[3, 2], &[false], 31, 32);
    let layer = &circuit.layers[0];
    let mut t = Toy::new(9);
    let point = ExpanderSingleVarChallenge::<F> {
        rz: t.samples(2),
        r_simd: t.samples(4),
        r_mpi: vec![],
    };
    let claimed = value_at(&layer.output_vals, &point.rz, &point.r_simd);

    let mut transcript = Toy::new(9);
    let (got, _) = prove_alone(&circuit, &mut transcript, &mut None);
    assert_eq!(got, claimed);

    let mut transcripts = vec![t];
    let mut gpu = None;
    let (mut helper, mut request) = sumcheck_prove_gkr_layer(
        layer,
        ExpanderDualVarChallenge::from_single(point),
        None,
        make_pad(&circuit, 1),
        1,
        true,
    );
    while !helper.is_done() {
        let reply = serve(&request, &mut transcripts, &mut gpu, None);
        assert!(helper.accepts(&reply));
        let next = helper.advance(reply);
        helper = next.0;
        request = next.1;
    }
    let (claims, challenges, pads) = helper.finish();
    assert_eq!(claims.len(), 1);
    assert_eq!(pads.len(), 1);
    let next = &challenges[0];
    assert_eq!(claims[0].0, value_at(&layer.input_vals, &next.rz_0, &next.r_simd));
    let ry = next.rz_1.as_ref().unwrap();
    assert_eq!(claims[0].1, Some(value_at(&layer.input_vals, ry, &next.r_simd)));
}

#[test]
fn layers_without_products_skip_the_second_phase() {
    let circuit = make_circuit(&[3, 2], &[true], 41, 42);
    let mut t = Toy::new(2);
    let challenge = ExpanderDualVarChallenge::<F>::new(t.samples(2), None, t.samples(4), vec![]);
    let mut transcripts = vec![t.clone(), t];
    let layer = &circuit.layers[0];
    let (mut helper, mut request) = sumcheck_prove_gkr_layer_batched(
        &vec![layer, layer],
        vec![challenge.duplicate(), challenge],
        &vec![None, None],
        vec![make_pad(&circuit, 1), make_pad(&circuit, 1)],
        1,
        true,
    );
    while !helper.is_done() {
        let reply = serve(&request, &mut transcripts, &mut None, None);
        let next = helper.advance(reply);
        helper = next.0;
        request = next.1;
    }
    let (claims, challenges, _) = helper.finish();
    assert_eq!(claims[0], claims[1]);
    assert_eq!(claims[0].1, None);
    assert_eq!(challenges[0].rz_1, None);
    assert_eq!(challenges[0].rz_0, challenges[1].rz_0);
}

#[test]
fn two_claims_are_combined() {
    // the second layer leaves two claims to the first
    let circuit = make_circuit(&[3, 3, 2], &[true, false], 51, 52);
    let mut transcript = Toy::new(4);
    let (_, last) = prove_alone(&circuit, &mut transcript, &mut None);
    assert_eq!(last.rz_0.len(), 3);
    assert_eq!(last.rz_1, None);
}

#[test]
fn replies_of_the_wrong_kind_or_size_are_not_accepted() {
    let circuit = make_circuit(&[2, 1], &[true], 61, 62);
    let (prover, request) = gkr_prove(&circuit, make_pad(&circuit, 1), 1);
    assert!(matches!(request, GkrRequest::Sample { .. }));
    assert!(!prover.accepts(&GkrReply::Alphas { alphas: vec![E::one()] }));
    assert!(!prover.accepts(&GkrReply::Layer(LayerReply::Appended)));
    let mut t = Toy::new(1);
    let short = ExpanderSingleVarChallenge { rz: vec![], r_simd: t.samples(4), r_mpi: vec![] };
    assert!(!prover.accepts(&GkrReply::Sampled { challenges: vec![short] }));
    let point = ExpanderSingleVarChallenge {
        rz: t.samples(1),
        r_simd: t.samples(4),
        r_mpi: vec![],
    };
    let reply = GkrReply::Sampled { challenges: vec![point] };
    assert!(prover.accepts(&reply));
    let (prover, _) = prover.advance(reply);
    assert!(!prover.accepts(&GkrReply::Combined { values: vec![vec![]] }));
    let (prover, _) = prover.advance(GkrReply::Combined { values: vec![vec![E::one()]] });
    let device = LayerReply::Device(DeviceReply::Status { err: 0 });
    assert!(!prover.accepts(&GkrReply::Layer(device)));
    let pair = LayerReply::Combined { values: vec![vec![E::one(), E::one()]] };
    assert!(!prover.accepts(&GkrReply::Layer(pair)));
}

#[test]
fn unfit_circuits_and_pads_are_refused() {
    let good = make_circuit(&[3, 2], &[true], 71, 72);
    let other = make_circuit(&[4, 2], &[true], 71, 72);
    let pad = || make_pad(&good, 1);
    assert!(can_prove(&vec![&good], &vec![pad()], 1));
    assert!(!can_prove::<F>(&vec![], &vec![], 1));
    assert!(!can_prove(&vec![&good], &vec![], 1));
    assert!(!can_prove(&vec![&good, &other], &vec![pad(), make_pad(&other, 1)], 1));
    assert!(!can_prove(&vec![&other], &vec![pad()], 1));
    assert!(!can_prove(&vec![&good], &vec![pad()], 2));
    let mut broken = make_circuit(&[3, 2], &[true], 71, 72);
    broken.layers[0].add[0].o_id = 4;
    assert!(!broken.is_well_formed());
    assert!(!can_prove(&vec![&broken], &vec![pad()], 1));
}

// -- several processes

#[test]
fn two_processes_prove_one_circuit() {
    // each process has its own witness; the root combines
    let circuits =
        [make_circuit(&[3, 2], &[false], 81, 82), make_circuit(&[3, 2], &[false], 81, 83)];
    let mut t = Toy::new(6);
    let mut states: Vec<_> =
        circuits.iter().map(|c| gkr_prove(c, make_pad(c, 2), 2)).collect();
    let mut mpi_rounds = 0;
    let mut claimed = None;
    let mut sent: Vec<(Vec<E>, E)> = vec![];
    loop {
        if states[0].0.is_done() {
            break;
        }
        let combine = |a: &Vec<Vec<E>>, b: &Vec<Vec<E>>, c: &Vec<Vec<E>>| -> Vec<Vec<E>> {
            vec![(0..a[0].len())
                .map(|k| a[0][k].times(c[0][0]).plus(b[0][k].times(c[0][1])))
                .collect()]
        };
        let mut replies: Vec<GkrReply<F>> = vec![];
        match (&states[0].1, &states[1].1) {
            (GkrRequest::Sample { output_var_nums, world_size }, _) => {
                assert_eq!(*world_size, 2);
                let (rz, r_simd, r_mpi) =
                    (t.samples(output_var_nums[0]), t.samples(4), t.samples(1));
                for _ in 0..2 {
                    replies.push(GkrReply::Sampled {
                        challenges: vec![ExpanderSingleVarChallenge {
                            rz: rz.clone(),
                            r_simd: r_simd.clone(),
                            r_mpi: r_mpi.clone(),
                        }],
                    });
                }
            }
            (
                GkrRequest::Combine { values: a, coefs },
                GkrRequest::Combine { values: b, .. },
            ) => {
                let values = combine(a, b, coefs);
                claimed = Some(values[0][0]);
                for _ in 0..2 {
                    replies.push(GkrReply::Combined { values: values.clone() });
                }
            }
            (GkrRequest::Layer(a), GkrRequest::Layer(b)) => match (a, b) {
                (
                    LayerRequest::Combine { values: a, coefs },
                    LayerRequest::Combine { values: b, .. },
                ) => {
                    let values = combine(a, b, coefs);
                    for _ in 0..2 {
                        replies
                            .push(GkrReply::Layer(LayerReply::Combined { values: values.clone() }));
                    }
                }
                (LayerRequest::Challenge { evals }, LayerRequest::Challenge { evals: other }) => {
                    if evals == other && evals[0].len() == 4 {
                        mpi_rounds += 1;
                    }
                    for x in &evals[0] {
                        t.append(x);
                    }
                    let r = t.sample();
                    sent.push((evals[0].clone(), r));
                    for _ in 0..2 {
                        replies.push(GkrReply::Layer(LayerReply::Challenged { r: vec![r] }));
                    }
                }
                (LayerRequest::Gather { v: a, hg: c }, LayerRequest::Gather { v: b, hg: d }) => {
                    for _ in 0..2 {
                        replies.push(GkrReply::Layer(LayerReply::Gathered {
                            v: vec![vec![a[0], b[0]]],
                            hg: vec![vec![c[0], d[0]]],
                        }));
                    }
                }
                (LayerRequest::Append { claims }, _) => {
                    t.append(&claims[0]);
                    for _ in 0..2 {
                        replies.push(GkrReply::Layer(LayerReply::Appended));
                    }
                }
                (LayerRequest::Broadcast { roots }, _) => {
                    for _ in 0..2 {
                        replies.push(GkrReply::Layer(LayerReply::Broadcasted {
                            roots: roots.clone(),
                        }));
                    }
                }
                _ => unreachable!(),
            },
            (GkrRequest::Alpha { .. }, _) => {
                let alpha = t.sample();
                for _ in 0..2 {
                    replies.push(GkrReply::Alphas { alphas: vec![alpha] });
                }
            }
            _ => unreachable!(),
        }
        states = states
            .into_iter()
            .zip(replies)
            .map(|((prover, _), reply)| {
                assert!(prover.accepts(&reply));
                prover.advance(reply)
            })
            .collect();
    }
    assert!(mpi_rounds >= 1);
    // three wire, four lane and one process variable, then three wire variables again
    assert_eq!(sent.len(), 8 + 3);
    for (j, pair) in sent.windows(2).enumerate() {
        if j + 1 != 8 {
            let ((values, r), (next, _)) = (&pair[0], &pair[1]);
            assert_eq!(polynomial_at(values, *r), next[0].plus(next[1]), "round {j}");
        }
    }
    let results: Vec<_> = states.into_iter().map(|(prover, _)| prover.finish().0).collect();
    assert_same(0, &results[0][0], &results[1][0]);
    assert_eq!(Some(results[0][0].0), claimed);
    assert_eq!(results[0][0].1.r_mpi.len(), 1);
}

// -- GPU contexts

/// Tables of one instance in the prover's layout, the same for the same seed.
fn make_instance_inputs(input_size: usize, pack_size: usize, seed: u64) -> (Vec<u32>, Vec<u32>) {
    let mut hg = vec![0u32; input_size * pack_size * 3];
    let mut init_v = vec![0u32; input_size * pack_size];
    let mut state = seed.wrapping_mul(0x9E37_79B9_7F4A_7C15);
    let mut next = || {
        state = state.wrapping_mul(6364136223846793005).wrapping_add(1442695040888963407);
        ((state >> 33) as u32) & 0x7FFF_FFFF
    };
    for v in hg.iter_mut() {
        *v = next();
    }
    for v in init_v.iter_mut() {
        *v = next();
    }
    (hg, init_v)
}

fn new_single(gpu: &mut Emulator, hg: &[u32], init_v: &[u32], pack: usize, n: usize) -> Option<
    GpuSumcheckContext,
> {
    let image = GpuSumcheckContext::image(hg.to_vec(), init_v.to_vec(), pack, n);
    drive(gpu, |replies| GpuSumcheckContext::new(&image, replies))
}

fn new_batched(gpu: &mut Emulator, inputs: &[(Vec<u32>, Vec<u32>)], pack: usize, n: usize) -> Option<
    BatchedGpuSumcheckContext,
> {
    let hg: Vec<Vec<u32>> = inputs.iter().map(|(h, _)| h.clone()).collect();
    let init_v: Vec<Vec<u32>> = inputs.iter().map(|(_, v)| v.clone()).collect();
    let image: ContextImage = BatchedGpuSumcheckContext::image(&hg, &init_v, pack, n)?;
    drive(gpu, |replies| BatchedGpuSumcheckContext::new(&image, replies))
}

#[test]
fn batched_poly_eval_matches_per_instance() {
    const N_INSTANCES: usize = 3;
    const PACK_SIZE: usize = 16;
    const INPUT_SIZE: usize = 4096;
    const EVAL_SIZE: usize = 2048;
    let mut gpu = Emulator::new();

    let mut instance_inputs = Vec::with_capacity(N_INSTANCES);
    for i in 0..N_INSTANCES {
        instance_inputs.push(make_instance_inputs(INPUT_SIZE, PACK_SIZE, 0xC0DE + i as u64));
    }

    let mut single_results = Vec::with_capacity(N_INSTANCES);
    for (hg, init_v) in &instance_inputs {
        let ctx = new_single(&mut gpu, hg, init_v, PACK_SIZE, INPUT_SIZE)
            .expect("GpuSumcheckContext::new");
        assert!(ctx.should_use_gpu(EVAL_SIZE));
        let res = drive(&mut gpu, |replies| ctx.poly_eval_at(EVAL_SIZE, replies))
            .expect("single poly_eval_at");
        single_results.push(res);
        drive(&mut gpu, |replies| ctx.release(replies));
    }
    assert!(gpu.memory.is_empty());

    let batched = new_batched(&mut gpu, &instance_inputs, PACK_SIZE, INPUT_SIZE)
        .expect("BatchedGpuSumcheckContext::new");
    assert_eq!(batched.n_instances(), N_INSTANCES);
    assert_eq!(batched.total_batch(), N_INSTANCES * PACK_SIZE);
    let batched_results = drive(&mut gpu, |replies| batched.poly_eval_at(EVAL_SIZE, replies))
        .expect("batched poly_eval_at");

    assert_eq!(batched_results.len(), N_INSTANCES);
    for i in 0..N_INSTANCES {
        for lane in 0..PACK_SIZE {
            assert_eq!(
                batched_results[i][lane], single_results[i][lane],
                "instance {i} lane {lane} mismatch: batched={:?} vs single={:?}",
                batched_results[i][lane], single_results[i][lane]
            );
        }
    }
}

#[test]
fn batched_receive_challenge_matches_per_instance() {
    const N_INSTANCES: usize = 3;
    const PACK_SIZE: usize = 16;
    const INPUT_SIZE: usize = 4096;
    const EVAL_SIZE: usize = 2048;
    let mut gpu = Emulator::new();

    let mut instance_inputs = Vec::with_capacity(N_INSTANCES);
    for i in 0..N_INSTANCES {
        instance_inputs.push(make_instance_inputs(INPUT_SIZE, PACK_SIZE, 0xBEEF + i as u64));
    }
    let r_per_instance: Vec<[u32; 3]> = (0..N_INSTANCES)
        .map(|i| [0x1111_1111 + i as u32, 0x2222_2222 - i as u32, 0x3333_3333])
        .collect();

    let mut single_post_results = Vec::with_capacity(N_INSTANCES);
    for (i, (hg, init_v)) in instance_inputs.iter().enumerate() {
        let mut ctx = new_single(&mut gpu, hg, init_v, PACK_SIZE, INPUT_SIZE)
            .expect("GpuSumcheckContext::new");
        let before = ctx;
        let ok = drive(&mut gpu, |replies| {
            ctx.receive_challenge(EVAL_SIZE / 2, 1, r_per_instance[i], replies)
        });
        assert!(ok, "single receive_challenge instance {i}");
        assert_eq!(ctx.batch.d_bk_f, before.batch.d_bk_f_alt);
        assert_eq!(ctx.batch.d_bk_hg_alt, before.batch.d_bk_hg);
        let res = drive(&mut gpu, |replies| ctx.poly_eval_at(EVAL_SIZE / 4, replies))
            .expect("single poly_eval_at post-rc");
        single_post_results.push(res);
    }

    let mut batched = new_batched(&mut gpu, &instance_inputs, PACK_SIZE, INPUT_SIZE)
        .expect("BatchedGpuSumcheckContext::new");
    let ok = drive(&mut gpu, |replies| {
        batched.receive_challenge(EVAL_SIZE / 2, 1, &r_per_instance, replies)
    });
    assert!(ok, "batched receive_challenge");
    let batched_post = drive(&mut gpu, |replies| batched.poly_eval_at(EVAL_SIZE / 4, replies))
        .expect("batched poly_eval_at post-rc");

    assert_eq!(batched_post.len(), N_INSTANCES);
    for i in 0..N_INSTANCES {
        for lane in 0..PACK_SIZE {
            assert_eq!(
                batched_post[i][lane], single_post_results[i][lane],
                "post-receive_challenge mismatch at instance {i} lane {lane}"
            );
        }
    }
}

#[test]
fn downloads_bring_each_instance_back() {
    let mut gpu = Emulator::new();
    let inputs: Vec<_> = (0..2).map(|i| make_instance_inputs(8, 16, 5 + i)).collect();
    let ctx = new_batched(&mut gpu, &inputs, 16, 8).unwrap();
    for i in 0..2 {
        let hg = drive(&mut gpu, |replies| ctx.download_instance_bk_hg(i, 8, replies)).unwrap();
        assert_eq!(hg, inputs[i].0);
        // fewer elements than a lane holds: the rest of each lane is skipped
        let hg = drive(&mut gpu, |replies| ctx.download_instance_bk_hg(i, 4, replies)).unwrap();
        assert_eq!(hg[..], inputs[i].0[..4 * 48]);
        let f = drive(&mut gpu, |replies| ctx.download_instance_bk_f(i, 8, replies)).unwrap();
        for k in 0..8 {
            assert_eq!(f[k * 48..k * 48 + 16], inputs[i].1[k * 16..k * 16 + 16]);
            assert!(f[k * 48 + 16..k * 48 + 48].iter().all(|w| *w == 0));
        }
    }
    assert_eq!(drive(&mut gpu, |replies| ctx.download_instance_bk_f(2, 8, replies)), None);
    assert_eq!(drive(&mut gpu, |replies| ctx.download_instance_bk_hg(2, 8, replies)), None);

    let single = new_single(&mut gpu, &inputs[0].0, &inputs[0].1, 16, 8).unwrap();
    let hg = drive(&mut gpu, |replies| single.download_bk_hg(8, replies)).unwrap();
    assert_eq!(hg, inputs[0].0);
    let f = drive(&mut gpu, |replies| single.download_bk_f(8, replies)).unwrap();
    assert_eq!(f[..16], inputs[0].1[..16]);
}

#[test]
fn the_first_fold_reads_the_base_values() {
    let mut gpu = Emulator::new();
    let (hg, init_v) = make_instance_inputs(4, 16, 77);
    let mut ctx = new_single(&mut gpu, &hg, &init_v, 16, 4).unwrap();
    let before = ctx;
    let ok = drive(&mut gpu, |replies| ctx.receive_challenge(2, 0, [3, 0, 0], replies));
    assert!(ok);
    assert_eq!(ctx, before);
    let f = drive(&mut gpu, |replies| ctx.download_bk_f(2, replies)).unwrap();
    for k in 0..2 {
        for lane in 0..16 {
            let a = M31::new(init_v[2 * k * 16 + lane]);
            let b = M31::new(init_v[(2 * k + 1) * 16 + lane]);
            let three = M31::new(3);
            assert_eq!(f[k * 48 + lane], a.plus(b.minus(a).times(three)).v);
            assert_eq!(f[k * 48 + 16 + lane], 0);
        }
    }
}

#[test]
fn the_first_fold_is_the_fold_of_the_promoted_values() {
    let mut gpu = Emulator::new();
    let (hg, init_v) = make_instance_inputs(8, 16, 78);
    let r = [0x1234_5678, 0x0BAD_CAFE, 0x7000_0001];
    let mut first = new_single(&mut gpu, &hg, &init_v, 16, 8).unwrap();
    let mut later = new_single(&mut gpu, &hg, &init_v, 16, 8).unwrap();
    assert!(drive(&mut gpu, |replies| first.receive_challenge(4, 0, r, replies)));
    assert!(drive(&mut gpu, |replies| later.receive_challenge(4, 1, r, replies)));
    let f = drive(&mut gpu, |replies| first.download_bk_f(4, replies)).unwrap();
    assert_eq!(drive(&mut gpu, |replies| later.download_bk_f(4, replies)).unwrap(), f);
    assert!(f.iter().any(|w| *w != 0));
    let h = drive(&mut gpu, |replies| first.download_bk_hg(4, replies)).unwrap();
    assert_eq!(drive(&mut gpu, |replies| later.download_bk_hg(4, replies)).unwrap(), h);
    assert_ne!(h[..], hg[..h.len()]);
}

#[test]
fn failing_folds_leave_the_buffers_in_place() {
    let mut gpu = Emulator::new();
    let inputs: Vec<_> = (0..2).map(|i| make_instance_inputs(8, 16, 50 + i)).collect();
    let mut ctx = new_batched(&mut gpu, &inputs, 16, 8).unwrap();
    let before = ctx;
    // one challenge too few
    let ok = drive(&mut gpu, |replies| ctx.receive_challenge(4, 1, &vec![[1, 2, 3]], replies));
    assert!(!ok);
    assert_eq!(ctx, before);
    gpu.budget = Some(1);
    let r = vec![[1, 2, 3], [4, 5, 6]];
    let ok = drive(&mut gpu, |replies| ctx.receive_challenge(4, 1, &r, replies));
    assert!(!ok);
    assert_eq!(ctx, before);
    gpu.budget = Some(5);
    let ok = drive(&mut gpu, |replies| ctx.receive_challenge(4, 0, &r, replies));
    assert!(!ok);
    gpu.budget = Some(0);
    assert_eq!(drive(&mut gpu, |replies| ctx.poly_eval_at(4, replies)), None);
    gpu.budget = Some(1);
    assert_eq!(drive(&mut gpu, |replies| ctx.poly_eval_at(4, replies)), None);
    gpu.budget = Some(3);
    assert_eq!(drive(&mut gpu, |replies| ctx.download_instance_bk_f(0, 4, replies)), None);
}

#[test]
fn batches_need_as_many_tables_of_each_kind() {
    let (hg, init_v) = make_instance_inputs(4, 16, 1);
    assert!(BatchedGpuSumcheckContext::image(&vec![], &vec![], 16, 4).is_none());
    assert!(BatchedGpuSumcheckContext::image(&vec![hg.clone()], &vec![], 16, 4).is_none());
    let image = BatchedGpuSumcheckContext::image(&vec![hg], &vec![init_v], 16, 4).unwrap();
    assert_eq!(image.n_instances, 1);
    assert_eq!(image.hg.len(), 4 * 48);
}

#[test]
fn small_rounds_stay_on_the_host() {
    let mut gpu = Emulator::new();
    let (hg, init_v) = make_instance_inputs(4, 16, 1);
    let ctx = new_single(&mut gpu, &hg, &init_v, 16, 4).unwrap();
    assert!(!ctx.should_use_gpu(GPU_DISPATCH_THRESHOLD - 1));
    assert!(ctx.should_use_gpu(GPU_DISPATCH_THRESHOLD));
    assert!(!ctx.batch.should_use_gpu(1023));
    assert!(ctx.batch.should_use_gpu(1024));
}
