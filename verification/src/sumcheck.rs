//! The prover of one layer, for any number of instances in lockstep.

use vstd::arithmetic::power2::*;
use vstd::prelude::*;

use crate::batch::{
    all_wf, fold_on_gpu, fold_on_host, gpu_values, hg_shares, host_values, lists, mpi_coefs,
    mpi_values, optional_lists, prepare_all, prepare_mpi_vars, prepare_second, prepare_simd_vars,
    receive_mpi, receive_simd, recover_all, scale_all, simd_values, spare_values, take_tables,
    v_shares, views, vx_claim_per_instance, vy_shares,
};
use crate::circuit::{ChallengeView, CircuitLayer, ExpanderDualVarChallenge};
use crate::cuda_dispatch::{
    check_sizes_fit, limb_lists, setup_steps, BatchedGpuSumcheckContext, ContextImage,
    GPU_DISPATCH_THRESHOLD,
};
use crate::device::{DeviceOp, DeviceReply, DeviceStep};
use crate::engine::{log2_spec, FieldEngine, FieldType};
use crate::instance::{
    check_parts_fit, lemma_word_counts, table_words, wire_words, InstView, InstanceState,
    PadView, ProverScratchPad,
};
use crate::poly::pow2_usize;
use crate::protocol::{
    at_least, lemma_folded, lemma_large_round, lemma_shape_kept, lemma_start_phase_wf,
    lemma_start_round_wf, lemma_start_wf, lemma_step_wf, sized, Ask, Event, LayerView, StageView,
};

verus! {

/// The degree of the round polynomials over the wire variables.
pub const SUMCHECK_GKR_DEGREE: usize = 2;

/// The degree of the round polynomials over the lane and process variables.
pub const SUMCHECK_GKR_SIMD_MPI_DEGREE: usize = 3;

/// Where a layer stands.
pub enum Stage<F: FieldEngine> {
    GpuSetup { first: bool, image: ContextImage },
    GpuEval { first: bool, var: usize },
    GpuDownload { first: bool, var: usize, tables: Vec<Option<Vec<u32>>> },
    GpuRelease { first: bool, var: usize },
    Combine { first: bool, var: usize },
    Challenge { first: bool, var: usize },
    GpuReceive { first: bool, var: usize, r: Vec<F::ChallengeField> },
    SimdCombine { var: usize },
    SimdChallenge { var: usize },
    Gather,
    MpiChallenge { var: usize },
    VxAppend,
    Broadcast,
    VyCombine,
    VyAppend { vy: Vec<F::ChallengeField> },
    Done { claim: Option<Vec<F::ChallengeField>> },
}

impl<F: FieldEngine> View for Stage<F> {
    type V = StageView<F::ChallengeField>;

    open spec fn view(&self) -> StageView<F::ChallengeField> {
        match *self {
            Stage::GpuSetup { first, image } => StageView::GpuSetup { first },
            Stage::GpuEval { first, var } => StageView::GpuEval { first, var: var as nat },
            Stage::GpuDownload { first, var, tables } => StageView::GpuDownload {
                first,
                var: var as nat,
            },
            Stage::GpuRelease { first, var } => StageView::GpuRelease { first, var: var as nat },
            Stage::Combine { first, var } => StageView::Combine { first, var: var as nat },
            Stage::Challenge { first, var } => StageView::Challenge { first, var: var as nat },
            Stage::GpuReceive { first, var, r } => StageView::GpuReceive {
                first,
                var: var as nat,
                r: r@,
            },
            Stage::SimdCombine { var } => StageView::SimdCombine { var: var as nat },
            Stage::SimdChallenge { var } => StageView::SimdChallenge { var: var as nat },
            Stage::Gather => StageView::Gather,
            Stage::MpiChallenge { var } => StageView::MpiChallenge { var: var as nat },
            Stage::VxAppend => StageView::VxAppend,
            Stage::Broadcast => StageView::Broadcast,
            Stage::VyCombine => StageView::VyCombine,
            Stage::VyAppend { vy } => StageView::VyAppend { vy: vy@ },
            Stage::Done { claim } => StageView::Done {
                claim: match claim {
                    Some(vy) => Some(vy@),
                    None => None,
                },
            },
        }
    }
}

/// What a layer needs from outside. Lists have one entry for each instance.
pub enum LayerRequest<F: FieldEngine> {
    /// Run an operation on the GPU.
    Device(DeviceOp),
    /// Add up the processes' values, weighted by the coefficients.
    Combine { values: Vec<Vec<F::ChallengeField>>, coefs: Vec<Vec<F::ChallengeField>> },
    /// Put the values into the transcript and draw a challenge, the same on all processes.
    Challenge { evals: Vec<Vec<F::ChallengeField>> },
    /// Gather the processes' shares of both tables.
    Gather { v: Vec<F::ChallengeField>, hg: Vec<F::ChallengeField> },
    /// Put a claim into the transcript.
    Append { claims: Vec<F::ChallengeField> },
    /// Replace the values by the root's.
    Broadcast { roots: Vec<F::ChallengeField> },
    /// Nothing: the layer is done.
    Finished,
}

/// What came of a request.
pub enum LayerReply<F: FieldEngine> {
    Device(DeviceReply),
    Combined { values: Vec<Vec<F::ChallengeField>> },
    Challenged { r: Vec<F::ChallengeField> },
    Gathered { v: Vec<Vec<F::ChallengeField>>, hg: Vec<Vec<F::ChallengeField>> },
    Appended,
    Broadcasted { roots: Vec<F::ChallengeField> },
}

impl<F: FieldEngine> LayerReply<F> {
    /// The answer that a reply gives, where it is not the GPU's.
    pub open spec fn event(self) -> Event<F::ChallengeField> {
        match self {
            LayerReply::Combined { values } => Event::Combined { values: lists(values@) },
            LayerReply::Challenged { r } => Event::Challenged { r: r@ },
            LayerReply::Gathered { v, hg } => Event::Gathered { v: lists(v@), hg: lists(hg@) },
            LayerReply::Broadcasted { roots } => Event::Broadcasted { roots: roots@ },
            _ => Event::Appended,
        }
    }
}

/// Drives the proofs of several instances through one layer in lockstep.
pub struct BatchedSumcheckGkrVanillaHelper<'a, F: FieldEngine> {
    pub instances: Vec<InstanceState<'a, F>>,
    /// The GPU context that the instances share; without one the tables live on the host.
    pub batched_gpu_ctx: Option<BatchedGpuSumcheckContext>,
    pub stage: Stage<F>,
    /// What the GPU has answered since the procedure that runs on it was begun.
    pub replies: Vec<DeviceReply>,
}

impl<'a, F: FieldEngine> View for BatchedSumcheckGkrVanillaHelper<'a, F> {
    type V = LayerView<F>;

    open spec fn view(&self) -> LayerView<F> {
        LayerView {
            insts: views(self.instances@),
            gpu: self.batched_gpu_ctx is Some,
            stage: self.stage@,
        }
    }
}

/// A GPU context that fits a layer.
pub open spec fn context_fits<F: FieldEngine>(
    ctx: BatchedGpuSumcheckContext,
    layer: LayerView<F>,
) -> bool {
    &&& ctx.wf()
    &&& ctx.n_instances == layer.insts.len()
    &&& ctx.pack_size == F::pack_size_spec()
    &&& ctx.lane_stride_base == pow2(layer.input_var_num())
}

/// An image of the tables of a layer.
pub open spec fn image_fits<F: FieldEngine>(image: ContextImage, layer: LayerView<F>) -> bool {
    let size = pow2(layer.input_var_num());
    &&& image.wf()
    &&& image.n_instances == layer.insts.len()
    &&& image.pack_size == F::pack_size_spec()
    &&& image.input_size == size
    &&& forall|i: int|
        0 <= i < layer.insts.len() ==> image.holds(
            i,
            table_words::<F>((#[trigger] layer.insts[i]).pad.hg_evals, size),
            wire_words::<F>(layer.insts[i].layer.input_vals@, size),
        )
}

/// What a procedure on the GPU comes to.
pub enum GpuOutcome {
    SetUp(Option<BatchedGpuSumcheckContext>),
    Evaluated(Option<Vec<[[u32; 9]; 16]>>),
    Downloaded(Option<Vec<u32>>),
    Released,
    Received(bool),
}

/// The next operation of a procedure on the GPU, or what it came to.
pub enum GpuStep {
    Run(DeviceOp),
    Done(GpuOutcome),
}

impl<'a, F: FieldEngine> BatchedSumcheckGkrVanillaHelper<'a, F> {
    pub open spec fn wf(self) -> bool {
        &&& self@.wf()
        &&& all_wf(self.instances@)
        &&& self.batched_gpu_ctx is Some ==> context_fits(self.batched_gpu_ctx->0, self@)
        &&& match self.stage {
            Stage::GpuSetup { image, .. } => image_fits(image, self@),
            Stage::GpuDownload { var, tables, .. } => {
                &&& tables@.len() < 2 * self.instances@.len()
                &&& forall|k: int|
                    0 <= k < tables@.len() && (#[trigger] tables@[k]) is Some
                        ==> tables@[k]->0@.len() == 2 * self@.eval_size(var as nat) * 3
                        * F::pack_size_spec()
            },
            _ => true,
        }
    }

    /// The step of the procedure that runs on the GPU, after these replies.
    pub open spec fn gpu_steps(self, replies: Seq<DeviceReply>, step: GpuStep) -> bool {
        let ctx = self.batched_gpu_ctx->0;
        match self.stage {
            Stage::GpuSetup { image, .. } => match step {
                GpuStep::Run(op) => setup_steps(image, replies, DeviceStep::Run(op)),
                GpuStep::Done(GpuOutcome::SetUp(ready)) => setup_steps(
                    image,
                    replies,
                    DeviceStep::Finished(ready),
                ),
                _ => false,
            },
            Stage::GpuEval { var, .. } => {
                let size = self@.eval_size(var as nat) as usize;
                match step {
                    GpuStep::Run(op) => ctx.poly_eval_steps(size, replies, DeviceStep::Run(op)),
                    GpuStep::Done(GpuOutcome::Evaluated(results)) => ctx.poly_eval_steps(
                        size,
                        replies,
                        DeviceStep::Finished(results),
                    ),
                    _ => false,
                }
            },
            Stage::GpuDownload { var, tables, .. } => {
                let num = (2 * self@.eval_size(var as nat)) as usize;
                let addr = if tables@.len() % 2 == 0 {
                    ctx.d_bk_f
                } else {
                    ctx.d_bk_hg
                };
                let instance = (tables@.len() / 2) as usize;
                match step {
                    GpuStep::Run(op) => ctx.download_steps(
                        addr,
                        instance,
                        num,
                        replies,
                        DeviceStep::Run(op),
                    ),
                    GpuStep::Done(GpuOutcome::Downloaded(words)) => ctx.download_steps(
                        addr,
                        instance,
                        num,
                        replies,
                        DeviceStep::Finished(words),
                    ),
                    _ => false,
                }
            },
            Stage::GpuRelease { .. } => match step {
                GpuStep::Run(op) => ctx.release_steps(replies, DeviceStep::Run(op)),
                GpuStep::Done(GpuOutcome::Released) => ctx.release_steps(
                    replies,
                    DeviceStep::Finished(()),
                ),
                _ => false,
            },
            Stage::GpuReceive { var, r, .. } => {
                let size = self@.eval_size(var as nat) as usize;
                let limbs = LayerView::<F>::limbs(r@);
                match step {
                    GpuStep::Run(op) => ctx.fold_steps(
                        size,
                        var,
                        limbs,
                        replies,
                        DeviceStep::Run(op),
                    ),
                    GpuStep::Done(GpuOutcome::Received(folded)) => ctx.fold_steps(
                        size,
                        var,
                        limbs,
                        replies,
                        DeviceStep::Finished(folded),
                    ),
                    _ => false,
                }
            },
            _ => false,
        }
    }

    /// A request puts a question, the GPU's procedures being begun with their first operation.
    pub open spec fn puts(self, request: LayerRequest<F>, ask: Ask<F::ChallengeField>) -> bool {
        match ask {
            Ask::Combine { values, coefs } => match request {
                LayerRequest::Combine { values: v, coefs: c } => lists(v@) == values && lists(c@)
                    == coefs,
                _ => false,
            },
            Ask::Challenge { evals } => match request {
                LayerRequest::Challenge { evals: e } => lists(e@) == evals,
                _ => false,
            },
            Ask::Gather { v, hg } => match request {
                LayerRequest::Gather { v: a, hg: b } => a@ == v && b@ == hg,
                _ => false,
            },
            Ask::Append { claims } => match request {
                LayerRequest::Append { claims: c } => c@ == claims,
                _ => false,
            },
            Ask::Broadcast { roots } => match request {
                LayerRequest::Broadcast { roots: v } => v@ == roots,
                _ => false,
            },
            Ask::Finished => request is Finished,
            _ => match request {
                LayerRequest::Device(op) => {
                    &&& self.replies@.len() == 0
                    &&& self.gpu_steps(self.replies@, GpuStep::Run(op))
                    &&& self.stage matches Stage::GpuDownload { tables, .. } ==> tables@.len() == 0
                },
                _ => false,
            },
        }
    }

    /// A state and a request are those that a step of the protocol leads to.
    pub open spec fn follows(
        self,
        request: LayerRequest<F>,
        want: (LayerView<F>, Ask<F::ChallengeField>),
    ) -> bool {
        &&& self.wf()
        &&& self@ == want.0
        &&& self.puts(request, want.1)
    }
}

// ---------------------------------------------------------------------------
// Transitions
// ---------------------------------------------------------------------------

/// The layer that instances and a GPU context make up, at no stage in particular.
spec fn at_no_stage<'a, F: FieldEngine>(
    instances: Seq<InstanceState<'a, F>>,
    gpu: bool,
) -> LayerView<F> {
    LayerView { insts: views(instances), gpu, stage: StageView::Gather }
}

impl<'a, F: FieldEngine> BatchedSumcheckGkrVanillaHelper<'a, F> {
    fn input_var_num(&self) -> (r: usize)
        requires
            self.wf(),
        ensures
            r == self@.input_var_num(),
            pow2(r as nat) <= usize::MAX,
    {
        let limit: usize = self.instances[0].sp.v_evals.len();
        assert(self.instances@[0].wf());
        self.instances[0].input_var_num
    }

    fn eval_size(&self, var: usize) -> (r: usize)
        requires
            self.wf(),
            var < self@.input_var_num(),
        ensures
            r == self@.eval_size(var as nat),
            2 * r <= pow2(self@.input_var_num()),
            pow2(self@.input_var_num()) <= usize::MAX,
    {
        let limit: usize = self.instances[0].sp.v_evals.len();
        assert(self.instances@[0].wf());
        self.instances[0].xy_helper.eval_size(var)
    }

    /// The next operation of the procedure on the GPU, or what it came to.
    fn gpu_step(&mut self) -> (step: GpuStep)
        requires
            old(self).wf(),
            old(self)@.stage is GpuSetup || old(self)@.stage is GpuEval
                || old(self)@.stage is GpuDownload || old(self)@.stage is GpuRelease
                || old(self)@.stage is GpuReceive,
        ensures
            old(self).gpu_steps(old(self).replies@, step),
            final(self).instances == old(self).instances,
            final(self).stage == old(self).stage,
            final(self).replies == old(self).replies,
            match step {
                GpuStep::Run(op) => final(self).batched_gpu_ctx == old(self).batched_gpu_ctx,
                GpuStep::Done(outcome) => {
                    &&& old(self).replies@.len() > 0
                    &&& final(self).batched_gpu_ctx == old(self).ctx_after(outcome)
                    &&& old(self).outcome_fits(outcome)
                },
            },
    {
        proof {
            F::law_pack_size();
        }
        match &self.stage {
            Stage::GpuSetup { image, .. } => {
                match BatchedGpuSumcheckContext::new(image, &self.replies) {
                    DeviceStep::Run(op) => GpuStep::Run(op),
                    DeviceStep::Finished(ready) => GpuStep::Done(GpuOutcome::SetUp(ready)),
                }
            },
            Stage::GpuEval { var, .. } => {
                let size: usize = self.eval_size(*var);
                let ctx = self.batched_gpu_ctx.unwrap();
                match ctx.poly_eval_at(size, &self.replies) {
                    DeviceStep::Run(op) => GpuStep::Run(op),
                    DeviceStep::Finished(results) => GpuStep::Done(GpuOutcome::Evaluated(results)),
                }
            },
            Stage::GpuDownload { var, tables, .. } => {
                let num: usize = 2 * self.eval_size(*var);
                let k: usize = tables.len();
                let ctx = self.batched_gpu_ctx.unwrap();
                let step = if k % 2 == 0 {
                    ctx.download_instance_bk_f(k / 2, num, &self.replies)
                } else {
                    ctx.download_instance_bk_hg(k / 2, num, &self.replies)
                };
                match step {
                    DeviceStep::Run(op) => GpuStep::Run(op),
                    DeviceStep::Finished(words) => GpuStep::Done(GpuOutcome::Downloaded(words)),
                }
            },
            Stage::GpuRelease { .. } => {
                let ctx = self.batched_gpu_ctx.unwrap();
                match ctx.release(&self.replies) {
                    DeviceStep::Run(op) => GpuStep::Run(op),
                    DeviceStep::Finished(()) => GpuStep::Done(GpuOutcome::Released),
                }
            },
            Stage::GpuReceive { var, r, .. } => {
                let size: usize = self.eval_size(*var);
                let limbs: Vec<[u32; 3]> = challenge_limbs::<F>(r);
                let mut ctx = self.batched_gpu_ctx.unwrap();
                assert(ctx.n_instances * (1 + ctx.pack_size) >= 1) by (nonlinear_arith)
                    requires
                        ctx.n_instances >= 1,
                        ctx.pack_size >= 0,
                ;
                match ctx.receive_challenge(size, *var, &limbs, &self.replies) {
                    DeviceStep::Run(op) => GpuStep::Run(op),
                    DeviceStep::Finished(folded) => {
                        self.batched_gpu_ctx = Some(ctx);
                        GpuStep::Done(GpuOutcome::Received(folded))
                    },
                }
            },
            _ => unreached(),
        }
    }

    /// The GPU context once the procedure has come to an outcome.
    pub open spec fn ctx_after(self, outcome: GpuOutcome) -> Option<BatchedGpuSumcheckContext> {
        match (self.stage, outcome) {
            (Stage::GpuReceive { var, .. }, GpuOutcome::Received(folded)) => Some(
                self.batched_gpu_ctx->0.after_fold(var, folded),
            ),
            _ => self.batched_gpu_ctx,
        }
    }

    /// The outcome has the size that the instances need.
    spec fn outcome_fits(self, outcome: GpuOutcome) -> bool {
        match (self.stage, outcome) {
            (Stage::GpuSetup { .. }, GpuOutcome::SetUp(ready)) => ready is Some ==> context_fits(
                ready->0,
                self@,
            ),
            (Stage::GpuEval { .. }, GpuOutcome::Evaluated(results)) => results is Some
                ==> results->0@.len() == self.instances@.len(),
            (Stage::GpuDownload { var, .. }, GpuOutcome::Downloaded(words)) => words is Some
                ==> words->0@.len() == 2 * self@.eval_size(var as nat) * 3 * F::pack_size_spec(),
            (Stage::GpuRelease { .. }, GpuOutcome::Released) => true,
            (Stage::GpuReceive { .. }, GpuOutcome::Received(folded)) => true,
            _ => false,
        }
    }
}

/// The limbs of challenges.
fn challenge_limbs<F: FieldEngine>(r: &Vec<F::ChallengeField>) -> (out: Vec<[u32; 3]>)
    requires
        F::field_type_spec() == FieldType::M31x16,
    ensures
        limb_lists(out@) == LayerView::<F>::limbs(r@),
        out@.len() == r@.len(),
{
    let mut out: Vec<[u32; 3]> = Vec::new();
    for k in 0..r.len()
        invariant
            F::field_type_spec() == FieldType::M31x16,
            out@.len() == k,
            forall|j: int|
                0 <= j < k ==> (#[trigger] out@[j])@ == F::challenge_limbs_spec(r@[j]),
    {
        out.push(F::challenge_limbs(r[k]));
    }
    assert(limb_lists(out@) =~= LayerView::<F>::limbs(r@));
    out
}

impl<'a, F: FieldEngine> BatchedSumcheckGkrVanillaHelper<'a, F> {
    /// What is fixed of the layer while its instances are well formed.
    spec fn ready(
        instances: Seq<InstanceState<'a, F>>,
        ctx: Option<BatchedGpuSumcheckContext>,
    ) -> bool {
        &&& all_wf(instances)
        &&& at_no_stage(instances, ctx is Some).uniform()
        &&& ctx is Some ==> at_no_stage(instances, true).wants_gpu() && context_fits(
            ctx->0,
            at_no_stage(instances, true),
        )
    }

    /// Begins a procedure on the GPU.
    fn begin_on_gpu(
        instances: Vec<InstanceState<'a, F>>,
        ctx: Option<BatchedGpuSumcheckContext>,
        stage: Stage<F>,
    ) -> (r: (Self, LayerRequest<F>))
        requires
            (BatchedSumcheckGkrVanillaHelper {
                instances,
                batched_gpu_ctx: ctx,
                stage,
                replies: arbitrary(),
            }).wf(),
            stage@ is GpuSetup || stage@ is GpuEval || stage@ is GpuDownload || stage@ is GpuRelease
                || stage@ is GpuReceive,
        ensures
            r.0.wf(),
            r.0.instances == instances,
            r.0.batched_gpu_ctx == ctx,
            r.0.stage == stage,
            r.0.replies@.len() == 0,
            r.1 is Device,
            r.0.gpu_steps(r.0.replies@, GpuStep::Run(r.1->Device_0)),
    {
        let mut helper = BatchedSumcheckGkrVanillaHelper {
            instances,
            batched_gpu_ctx: ctx,
            stage,
            replies: Vec::new(),
        };
        match helper.gpu_step() {
            GpuStep::Run(op) => (helper, LayerRequest::Device(op)),
            GpuStep::Done(outcome) => unreached(),
        }
    }

    /// Starts a phase: on the GPU where that is worth it.
    fn start_phase(instances: Vec<InstanceState<'a, F>>, first: bool) -> (r: (
        Self,
        LayerRequest<F>,
    ))
        requires
            Self::ready(instances@, None),
            at_no_stage(instances@, false).seen_before_round(first, 0),
        ensures
            r.0.follows(r.1, at_no_stage(instances@, false).start_phase(first)),
            r.0.batched_gpu_ctx is None,
    {
        let ghost layer = at_no_stage(instances@, false);
        let limit: usize = instances[0].sp.v_evals.len();
        assert(instances@[0].wf());
        proof {
            lemma_start_phase_wf(layer, first);
            F::law_pack_size();
        }
        let n: usize = instances[0].input_var_num;
        if F::field_type() == FieldType::M31x16 && n >= 1 && instances[0].xy_helper.eval_size(0)
            >= GPU_DISPATCH_THRESHOLD {
            let input_size: usize = pow2_usize(n);
            let image = Self::image(&instances, input_size);
            let stage = Stage::GpuSetup { first, image };
            return Self::begin_on_gpu(instances, None, stage);
        }
        Self::start_round(instances, None, first, 0)
    }

    /// Lays out the tables of all instances for the GPU.
    fn image(instances: &Vec<InstanceState<'a, F>>, input_size: usize) -> (image: ContextImage)
        requires
            Self::ready(instances@, None),
            at_no_stage(instances@, false).wants_gpu(),
            input_size == pow2(at_no_stage(instances@, false).input_var_num()),
        ensures
            image_fits(image, at_no_stage(instances@, false)),
    {
        let ghost layer = at_no_stage(instances@, false);
        let ghost size = pow2(layer.input_var_num());
        let n: usize = instances.len();
        let mut hg: Vec<Vec<u32>> = Vec::new();
        let mut wires: Vec<Vec<u32>> = Vec::new();
        proof {
            F::law_pack_size();
        }
        for k in 0..n
            invariant
                n == instances@.len(),
                Self::ready(instances@, None),
                F::field_type_spec() == FieldType::M31x16,
                layer == at_no_stage(instances@, false),
                size == pow2(layer.input_var_num()),
                hg@.len() == k,
                wires@.len() == k,
                forall|j: int|
                    0 <= j < k ==> (#[trigger] hg@[j])@ == table_words::<F>(
                        layer.insts[j].pad.hg_evals,
                        size,
                    ) && hg@[j]@.len() == 48 * size,
                forall|j: int|
                    0 <= j < k ==> (#[trigger] wires@[j])@ == wire_words::<F>(
                        layer.insts[j].layer.input_vals@,
                        size,
                    ) && wires@[j]@.len() == 16 * size,
        {
            assert(instances@[k as int].wf());
            assert(layer.insts[k as int].input_var_num() == layer.input_var_num());
            proof {
                lemma_word_counts::<F>(
                    layer.insts[k as int].pad.hg_evals,
                    layer.insts[k as int].layer.input_vals@,
                    size,
                );
            }
            let (a, b) = instances[k].words();
            hg.push(a);
            wires.push(b);
        }
        match BatchedGpuSumcheckContext::image(
            &hg,
            &wires,
            F::get_field_pack_size(),
            input_size,
        ) {
            Some(image) => {
                assert forall|i: int| 0 <= i < layer.insts.len() implies image.holds(
                    i,
                    table_words::<F>((#[trigger] layer.insts[i]).pad.hg_evals, size),
                    wire_words::<F>(layer.insts[i].layer.input_vals@, size),
                ) by {
                    assert(image.holds(i, hg@[i]@, wires@[i]@));
                }
                image
            },
            None => unreached(),
        }
    }

    /// Starts a round. Rounds too small for the GPU bring the tables back first.
    fn start_round(
        instances: Vec<InstanceState<'a, F>>,
        ctx: Option<BatchedGpuSumcheckContext>,
        first: bool,
        var: usize,
    ) -> (r: (Self, LayerRequest<F>))
        requires
            Self::ready(instances@, ctx),
            var <= at_no_stage(instances@, ctx is Some).input_var_num(),
            ctx is Some ==> var < at_no_stage(instances@, true).input_var_num(),
            at_no_stage(instances@, ctx is Some).seen_before_round(first, var as nat),
        ensures
            r.0.follows(
                r.1,
                at_no_stage(instances@, ctx is Some).start_round(first, var as nat),
            ),
            r.0.batched_gpu_ctx == ctx,
    {
        let ghost layer = at_no_stage(instances@, ctx is Some);
        let limit: usize = instances[0].sp.v_evals.len();
        assert(instances@[0].wf());
        proof {
            lemma_start_round_wf(layer, first, var as nat);
        }
        if var >= instances[0].input_var_num {
            return Self::end_phase(instances, first);
        }
        if ctx.is_none() {
            return Self::host_round(instances, ctx, first, var);
        }
        let size: usize = instances[0].xy_helper.eval_size(var);
        if size >= GPU_DISPATCH_THRESHOLD {
            Self::begin_on_gpu(instances, ctx, Stage::GpuEval { first, var })
        } else {
            Self::begin_on_gpu(
                instances,
                ctx,
                Stage::GpuDownload { first, var, tables: Vec::new() },
            )
        }
    }

    /// Evaluates a round on the host.
    fn host_round(
        instances: Vec<InstanceState<'a, F>>,
        ctx: Option<BatchedGpuSumcheckContext>,
        first: bool,
        var: usize,
    ) -> (r: (Self, LayerRequest<F>))
        requires
            Self::ready(instances@, ctx),
            at_no_stage(instances@, ctx is Some).host_round(first, var as nat).0.wf(),
        ensures
            r.0.follows(
                r.1,
                at_no_stage(instances@, ctx is Some).host_round(first, var as nat),
            ),
            r.0.batched_gpu_ctx == ctx,
    {
        let ghost layer = at_no_stage(instances@, ctx is Some);
        assert(forall|i: int|
            0 <= i < instances@.len() ==> (#[trigger] layer.insts[i]).input_var_num()
                == layer.input_var_num());
        assert forall|i: int| 0 <= i < instances@.len() implies var < (
        #[trigger] instances@[i]).input_var_num by {
            assert(layer.insts[i].input_var_num() == layer.input_var_num());
        }
        let values = host_values(&instances, var);
        let coefs = mpi_coefs(&instances);
        proof {
            let want = layer.host_round(first, var as nat).1;
            assert(want->values =~= lists(values@));
            assert(want->coefs =~= lists(coefs@));
        }
        (
            BatchedSumcheckGkrVanillaHelper {
                instances,
                batched_gpu_ctx: ctx,
                stage: Stage::Combine { first, var },
                replies: Vec::new(),
            },
            LayerRequest::Combine { values, coefs },
        )
    }

    /// Ends a phase.
    fn end_phase(instances: Vec<InstanceState<'a, F>>, first: bool) -> (r: (Self, LayerRequest<F>))
        requires
            Self::ready(instances@, None),
            at_no_stage(instances@, false).end_phase(first).0.wf(),
            at_no_stage(instances@, false).seen_before_round(
                first,
                at_no_stage(instances@, false).input_var_num(),
            ),
        ensures
            r.0.follows(r.1, at_no_stage(instances@, false).end_phase(first)),
            r.0.batched_gpu_ctx is None,
    {
        let ghost layer = at_no_stage(instances@, false);
        let mut instances = instances;
        if first {
            prepare_simd_vars(&mut instances);
            proof {
                let prepared = LayerView {
                    insts: Seq::new(
                        layer.insts.len(),
                        |i: int| layer.insts[i].simd_vars_prepared(),
                    ),
                    ..layer
                };
                assert(prepared.insts =~= views(instances@));
                assert(at_no_stage(instances@, false) =~= prepared);
                assert forall|i: int| 0 <= i < layer.insts.len() implies {
                    let inst = #[trigger] prepared.insts[i];
                    &&& inst.wf()
                    &&& inst.layer == layer.insts[i].layer
                    &&& inst.mpi_var_num == layer.insts[i].mpi_var_num
                } by {
                    assert(instances@[i].wf());
                }
                lemma_shape_kept(layer, prepared);
            }
            return Self::start_simd_round(instances, 0);
        }
        let values = vy_shares(&instances);
        let coefs = mpi_coefs(&instances);
        proof {
            let want = layer.end_phase(first).1;
            assert(want->values =~= lists(values@));
            assert(want->coefs =~= lists(coefs@));
        }
        (
            BatchedSumcheckGkrVanillaHelper {
                instances,
                batched_gpu_ctx: None,
                stage: Stage::VyCombine,
                replies: Vec::new(),
            },
            LayerRequest::Combine { values, coefs },
        )
    }

    /// Starts a round over the lane variables.
    fn start_simd_round(instances: Vec<InstanceState<'a, F>>, var: usize) -> (r: (
        Self,
        LayerRequest<F>,
    ))
        requires
            Self::ready(instances@, None),
            at_no_stage(instances@, false).start_simd_round(var as nat).0.wf(),
        ensures
            r.0.follows(r.1, at_no_stage(instances@, false).start_simd_round(var as nat)),
            r.0.batched_gpu_ctx is None,
    {
        let ghost layer = at_no_stage(instances@, false);
        assert(instances@[0].wf());
        if var >= instances[0].simd_var_num {
            let v = v_shares(&instances);
            let hg = hg_shares(&instances);
            proof {
                let want = layer.start_simd_round(var as nat).1;
                assert(want->v =~= v@);
                assert(want->hg =~= hg@);
            }
            return (
                BatchedSumcheckGkrVanillaHelper {
                    instances,
                    batched_gpu_ctx: None,
                    stage: Stage::Gather,
                    replies: Vec::new(),
                },
                LayerRequest::Gather { v, hg },
            );
        }
        let values = simd_values(&instances, var);
        let coefs = mpi_coefs(&instances);
        proof {
            let want = layer.start_simd_round(var as nat).1;
            assert(want->values =~= lists(values@));
            assert(want->coefs =~= lists(coefs@));
        }
        (
            BatchedSumcheckGkrVanillaHelper {
                instances,
                batched_gpu_ctx: None,
                stage: Stage::SimdCombine { var },
                replies: Vec::new(),
            },
            LayerRequest::Combine { values, coefs },
        )
    }

    /// Starts a round over the process variables.
    fn start_mpi_round(instances: Vec<InstanceState<'a, F>>, var: usize) -> (r: (
        Self,
        LayerRequest<F>,
    ))
        requires
            Self::ready(instances@, None),
            at_no_stage(instances@, false).start_mpi_round(var as nat).0.wf(),
        ensures
            r.0.follows(r.1, at_no_stage(instances@, false).start_mpi_round(var as nat)),
            r.0.batched_gpu_ctx is None,
    {
        let ghost layer = at_no_stage(instances@, false);
        assert(instances@[0].wf());
        if var >= instances[0].mpi_var_helper.var_num {
            let claims = vx_claim_per_instance(&instances);
            proof {
                let want = layer.start_mpi_round(var as nat).1;
                assert(want->claims =~= claims@);
            }
            return (
                BatchedSumcheckGkrVanillaHelper {
                    instances,
                    batched_gpu_ctx: None,
                    stage: Stage::VxAppend,
                    replies: Vec::new(),
                },
                LayerRequest::Append { claims },
            );
        }
        assert forall|i: int| 0 <= i < instances@.len() implies var < (
        #[trigger] instances@[i]).mpi_var_helper.var_num by {
            assert(layer.insts[i].mpi_var_num == layer.mpi_var_num());
        }
        let evals = mpi_values(&instances, var);
        proof {
            let want = layer.start_mpi_round(var as nat).1;
            assert(want->evals =~= lists(evals@));
        }
        (
            BatchedSumcheckGkrVanillaHelper {
                instances,
                batched_gpu_ctx: None,
                stage: Stage::MpiChallenge { var },
                replies: Vec::new(),
            },
            LayerRequest::Challenge { evals },
        )
    }
}

// ---------------------------------------------------------------------------
// Answers
// ---------------------------------------------------------------------------

impl<'a, F: FieldEngine> BatchedSumcheckGkrVanillaHelper<'a, F> {
    /// A procedure runs on the GPU.
    pub open spec fn on_device(self) -> bool {
        self@.stage is GpuSetup || self@.stage is GpuEval || self@.stage is GpuDownload
            || self@.stage is GpuRelease || self@.stage is GpuReceive
    }

    /// The reply is of the kind and the size that the layer waits for.
    pub open spec fn takes(self, reply: LayerReply<F>) -> bool {
        match reply {
            LayerReply::Device(_) => self.on_device(),
            _ => self@.expects(reply.event()),
        }
    }

    /// The answer that an outcome on the GPU gives.
    pub open spec fn outcome_event(self, outcome: GpuOutcome) -> Event<F::ChallengeField> {
        match outcome {
            GpuOutcome::SetUp(ready) => Event::SetUp { ready: ready is Some },
            GpuOutcome::Evaluated(results) => Event::Evaluated {
                results: match results {
                    Some(results) => Some(results@),
                    None => None,
                },
            },
            GpuOutcome::Downloaded(words) => match self.stage {
                Stage::GpuDownload { tables, .. } => Event::Downloaded {
                    tables: optional_lists(tables@.push(words)),
                },
                _ => Event::Released,
            },
            GpuOutcome::Released => Event::Released,
            GpuOutcome::Received(folded) => Event::Received { folded },
        }
    }

    /// More tables are to come back from the GPU after this one.
    pub open spec fn more_tables(self, outcome: GpuOutcome) -> bool {
        match (self.stage, outcome) {
            (Stage::GpuDownload { tables, .. }, GpuOutcome::Downloaded(_)) => tables@.len() + 1 < 2
                * self.instances@.len(),
            _ => false,
        }
    }

    /// The context that a step of the protocol is made with once a procedure has come to an
    /// outcome.
    pub open spec fn next_ctx(self, outcome: GpuOutcome) -> Option<BatchedGpuSumcheckContext> {
        match outcome {
            GpuOutcome::SetUp(ready) => ready,
            GpuOutcome::Released => None,
            _ => self.ctx_after(outcome),
        }
    }

    /// What a reply of the GPU leads to: the procedure's next operation; or, once it has come to
    /// an outcome, the next table's download or a step of the protocol.
    pub open spec fn device_follows(
        self,
        reply: DeviceReply,
        next: Self,
        request: LayerRequest<F>,
    ) -> bool {
        let replies = self.replies@.push(reply);
        exists|step: GpuStep| #[trigger]
            self.gpu_steps(replies, step) && match step {
                GpuStep::Run(op) => {
                    &&& next == (BatchedSumcheckGkrVanillaHelper {
                        replies: next.replies,
                        ..self
                    })
                    &&& next.replies@ == replies
                    &&& request == LayerRequest::<F>::Device(op)
                },
                GpuStep::Done(outcome) => if self.more_tables(outcome) {
                    &&& next@ == self@
                    &&& next.batched_gpu_ctx == self.batched_gpu_ctx
                    &&& next.replies@.len() == 0
                    &&& match (self.stage, next.stage, outcome) {
                        (
                            Stage::GpuDownload { tables, .. },
                            Stage::GpuDownload { tables: more, .. },
                            GpuOutcome::Downloaded(words),
                        ) => more@ == tables@.push(words),
                        _ => false,
                    }
                    &&& match request {
                        LayerRequest::Device(op) => next.gpu_steps(
                            next.replies@,
                            GpuStep::Run(op),
                        ),
                        _ => false,
                    }
                } else {
                    &&& next.follows(request, self@.step(self.outcome_event(outcome)))
                    &&& next.batched_gpu_ctx == self.next_ctx(outcome)
                },
            }
    }

    /// A state is reached by one step of the protocol.
    pub open spec fn stepped(self, next: LayerView<F>) -> bool {
        exists|event: Event<F::ChallengeField>|
            self@.expects(event) && next == (#[trigger] self@.step(event)).0
    }

    /// Makes the step of the protocol that an outcome on the GPU leads to.
    fn after_outcome(self, outcome: GpuOutcome) -> (r: (Self, LayerRequest<F>))
        requires
            all_wf(self.instances@),
            self@.wf(),
            self.on_device(),
            self.outcome_fits(outcome),
            self.batched_gpu_ctx is Some ==> context_fits(self.batched_gpu_ctx->0, self@),
            !self.more_tables(outcome),
            match self.stage {
                Stage::GpuDownload { var, tables, .. } => {
                    &&& tables@.len() < 2 * self.instances@.len()
                    &&& forall|k: int|
                        0 <= k < tables@.len() && (#[trigger] tables@[k]) is Some
                            ==> tables@[k]->0@.len() == 2 * self@.eval_size(var as nat) * 3
                            * F::pack_size_spec()
                },
                _ => true,
            },
        ensures
            self@.expects(self.outcome_event(outcome)),
            r.0.follows(r.1, self@.step(self.outcome_event(outcome))),
            r.0.batched_gpu_ctx == match outcome {
                GpuOutcome::SetUp(ready) => ready,
                GpuOutcome::Released => None,
                _ => self.batched_gpu_ctx,
            },
    {
        let ghost layer = self@;
        let ghost event = self.outcome_event(outcome);
        proof {
            F::law_pack_size();
            assert(layer.expects(event));
            lemma_step_wf(layer, event);
        }
        let BatchedSumcheckGkrVanillaHelper { instances, batched_gpu_ctx, stage, replies } = self;
        let mut instances = instances;
        match (stage, outcome) {
            (Stage::GpuSetup { first, .. }, GpuOutcome::SetUp(ready)) => {
                proof {
                    let next = at_no_stage(instances@, ready is Some);
                    lemma_shape_kept(layer, next);
                    assert(next.start_round(first, 0) == layer.on_gpu(ready is Some).start_round(
                        first,
                        0,
                    ));
                }
                Self::start_round(instances, ready, first, 0)
            },
            (Stage::GpuEval { first, var }, GpuOutcome::Evaluated(results)) => match results {
                None => {
                    assert forall|i: int| 0 <= i < instances@.len() implies {
                        let inst = #[trigger] instances@[i];
                        &&& var < inst.input_var_num
                        &&& var <= inst@.phase_challenges(first).len()
                    } by {
                        assert(instances@[i].wf());
                        assert(layer.insts[i].input_var_num() == layer.input_var_num());
                    }
                    let values = spare_values(&instances, first, var);
                    let coefs = mpi_coefs(&instances);
                    proof {
                        let want = layer.spare_round(first, var as nat).1;
                        assert(want->values =~= lists(values@));
                        assert(want->coefs =~= lists(coefs@));
                    }
                    (
                        BatchedSumcheckGkrVanillaHelper {
                            instances,
                            batched_gpu_ctx,
                            stage: Stage::Combine { first, var },
                            replies: Vec::new(),
                        },
                        LayerRequest::Combine { values, coefs },
                    )
                },
                Some(results) => {
                    let values = gpu_values(&instances, &results);
                    let coefs = mpi_coefs(&instances);
                    proof {
                        let want = layer.gpu_round(first, var as nat, results@).1;
                        assert(want->values =~= lists(values@));
                        assert(want->coefs =~= lists(coefs@));
                    }
                    (
                        BatchedSumcheckGkrVanillaHelper {
                            instances,
                            batched_gpu_ctx,
                            stage: Stage::Combine { first, var },
                            replies: Vec::new(),
                        },
                        LayerRequest::Combine { values, coefs },
                    )
                },
            },
            (Stage::GpuDownload { first, var, tables }, GpuOutcome::Downloaded(words)) => {
                let mut tables = tables;
                tables.push(words);
                assert forall|i: int| 0 <= i < instances@.len() implies {
                    let inst = #[trigger] instances@[i];
                    &&& var < inst.input_var_num
                    &&& var <= inst@.phase_challenges(first).len()
                    &&& inst@.eval_size(var as nat) == layer.eval_size(var as nat)
                } by {
                    assert(instances@[i].wf());
                    assert(layer.insts[i].input_var_num() == layer.input_var_num());
                }
                take_tables(&mut instances, first, var, &tables);
                proof {
                    assert(views(instances@) =~= layer.tables_fetched(
                        first,
                        var as nat,
                        optional_lists(tables@),
                    ).insts);
                }
                Self::begin_on_gpu(instances, batched_gpu_ctx, Stage::GpuRelease { first, var })
            },
            (Stage::GpuRelease { first, var }, GpuOutcome::Released) => {
                proof {
                    let next = at_no_stage(instances@, false);
                    lemma_shape_kept(layer, next);
                    assert(next.host_round(first, var as nat) == layer.on_gpu(false).host_round(
                        first,
                        var as nat,
                    ));
                }
                Self::host_round(instances, None, first, var)
            },
            (Stage::GpuReceive { first, var, r }, GpuOutcome::Received(folded)) => {
                assert forall|i: int| 0 <= i < instances@.len() implies var < (
                #[trigger] instances@[i]).input_var_num by {
                    assert(instances@[i].wf());
                    assert(layer.insts[i].input_var_num() == layer.input_var_num());
                }
                proof {
                    lemma_folded(layer, first, var as nat, r@);
                    lemma_large_round(layer, var as nat);
                }
                let ghost next = layer.folded_on_gpu(first, var as nat, r@);
                fold_on_gpu(&mut instances, first, var, &r);
                proof {
                    assert(views(instances@) =~= next.insts);
                    lemma_shape_kept(layer, next);
                }
                if folded {
                    assert(at_no_stage(instances@, true).start_round(first, (var + 1) as nat)
                        == next.start_round(first, (var + 1) as nat));
                    return Self::start_round(instances, batched_gpu_ctx, first, var + 1);
                }
                assert forall|i: int| 0 <= i < instances@.len() implies {
                    let inst = #[trigger] instances@[i];
                    &&& var + 1 <= inst.input_var_num
                    &&& var + 1 <= inst@.phase_challenges(first).len()
                } by {
                    assert(instances@[i].wf());
                    assert(next.insts[i].input_var_num() == next.input_var_num());
                }
                recover_all(&mut instances, first, var + 1);
                assert(views(instances@) =~= next.recovered(first, (var + 1) as nat).insts);
                Self::begin_on_gpu(
                    instances,
                    batched_gpu_ctx,
                    Stage::GpuRelease { first, var: var + 1 },
                )
            },
            _ => unreached(),
        }
    }
}

impl<'a, F: FieldEngine> BatchedSumcheckGkrVanillaHelper<'a, F> {
    /// Makes the step of the protocol that a reply of the transcripts or processes leads to.
    fn answer(self, reply: LayerReply<F>) -> (r: (Self, LayerRequest<F>))
        requires
            self.wf(),
            !(reply is Device),
            self.takes(reply),
        ensures
            r.0.follows(r.1, self@.step(reply.event())),
            r.0.batched_gpu_ctx == self.batched_gpu_ctx,
    {
        let ghost layer = self@;
        let ghost event = reply.event();
        proof {
            lemma_step_wf(layer, event);
        }
        let BatchedSumcheckGkrVanillaHelper { instances, batched_gpu_ctx, stage, replies } = self;
        let mut instances = instances;
        match (stage, reply) {
            (Stage::Combine { first, var }, LayerReply::Combined { values }) => {
                let evals = if first {
                    values
                } else {
                    scale_all(&instances, &values)
                };
                proof {
                    let want = layer.step(event).1;
                    assert(want->evals =~= lists(evals@));
                }
                (
                    BatchedSumcheckGkrVanillaHelper {
                        instances,
                        batched_gpu_ctx,
                        stage: Stage::Challenge { first, var },
                        replies: Vec::new(),
                    },
                    LayerRequest::Challenge { evals },
                )
            },
            (Stage::Challenge { first, var }, LayerReply::Challenged { r }) => {
                if batched_gpu_ctx.is_some() {
                    return Self::begin_on_gpu(
                        instances,
                        batched_gpu_ctx,
                        Stage::GpuReceive { first, var, r },
                    );
                }
                assert forall|i: int| 0 <= i < instances@.len() implies var < (
                #[trigger] instances@[i]).input_var_num by {
                    assert(instances@[i].wf());
                    assert(layer.insts[i].input_var_num() == layer.input_var_num());
                }
                let ghost next = layer.folded_on_host(first, var as nat, r@);
                proof {
                    lemma_folded(layer, first, var as nat, r@);
                }
                fold_on_host(&mut instances, first, var, &r);
                proof {
                    assert(views(instances@) =~= next.insts);
                    lemma_shape_kept(layer, next);
                    assert(at_no_stage(instances@, false).start_round(first, (var + 1) as nat)
                        == next.start_round(first, (var + 1) as nat));
                }
                Self::start_round(instances, batched_gpu_ctx, first, var + 1)
            },
            (Stage::SimdCombine { var }, LayerReply::Combined { values }) => (
                BatchedSumcheckGkrVanillaHelper {
                    instances,
                    batched_gpu_ctx,
                    stage: Stage::SimdChallenge { var },
                    replies: Vec::new(),
                },
                LayerRequest::Challenge { evals: values },
            ),
            (Stage::SimdChallenge { var }, LayerReply::Challenged { r }) => {
                let ghost next = layer.simd_received(var as nat, r@);
                receive_simd(&mut instances, var, &r);
                proof {
                    assert(views(instances@) =~= next.insts);
                    lemma_views_kept(layer, next, instances@);
                    assert(at_no_stage(instances@, false).start_simd_round((var + 1) as nat)
                        == next.start_simd_round((var + 1) as nat));
                }
                Self::start_simd_round(instances, var + 1)
            },
            (Stage::Gather, LayerReply::Gathered { v, hg }) => {
                let ghost next = layer.gathered(lists(v@), lists(hg@));
                assert forall|i: int| 0 <= i < instances@.len() implies pow2(
                    (#[trigger] instances@[i])@.mpi_var_num,
                ) <= v@[i]@.len() && pow2(instances@[i]@.mpi_var_num) <= hg@[i]@.len() by {
                    assert(layer.insts[i].mpi_var_num == layer.mpi_var_num());
                    assert(lists(v@)[i].len() >= pow2(layer.mpi_var_num()));
                    assert(lists(hg@)[i].len() >= pow2(layer.mpi_var_num()));
                }
                prepare_mpi_vars(&mut instances, &v, &hg);
                proof {
                    assert(views(instances@) =~= next.insts);
                    lemma_views_kept(layer, next, instances@);
                    assert(at_no_stage(instances@, false).start_mpi_round(0)
                        == next.start_mpi_round(0));
                }
                Self::start_mpi_round(instances, 0)
            },
            (Stage::MpiChallenge { var }, LayerReply::Challenged { r }) => {
                let ghost next = layer.mpi_received(var as nat, r@);
                assert forall|i: int| 0 <= i < instances@.len() implies var < (
                #[trigger] instances@[i]).mpi_var_helper.var_num by {
                    assert(layer.insts[i].mpi_var_num == layer.mpi_var_num());
                }
                receive_mpi(&mut instances, var, &r);
                proof {
                    assert(views(instances@) =~= next.insts);
                    lemma_views_kept(layer, next, instances@);
                    assert(at_no_stage(instances@, false).start_mpi_round((var + 1) as nat)
                        == next.start_mpi_round((var + 1) as nat));
                }
                Self::start_mpi_round(instances, var + 1)
            },
            (Stage::VxAppend, LayerReply::Appended) => {
                if instances[0].layer.structure_info.skip_sumcheck_phase_two {
                    return (
                        BatchedSumcheckGkrVanillaHelper {
                            instances,
                            batched_gpu_ctx,
                            stage: Stage::Done { claim: None },
                            replies: Vec::new(),
                        },
                        LayerRequest::Finished,
                    );
                }
                let roots = vx_claim_per_instance(&instances);
                assert(layer.vx_claims() =~= roots@);
                (
                    BatchedSumcheckGkrVanillaHelper {
                        instances,
                        batched_gpu_ctx,
                        stage: Stage::Broadcast,
                        replies: Vec::new(),
                    },
                    LayerRequest::Broadcast { roots },
                )
            },
            (Stage::Broadcast, LayerReply::Broadcasted { roots }) => {
                let ghost next = layer.y_prepared(roots@);
                assert forall|i: int| 0 <= i < instances@.len() implies {
                    let inst = (#[trigger] instances@[i])@;
                    &&& inst.rx.len() == inst.input_var_num()
                    &&& inst.r_simd_var.len() == inst.simd_var_num()
                    &&& inst.r_mpi_var.len() == inst.mpi_var_num
                } by {
                    assert(layer.insts[i].rx.len() == layer.input_var_num());
                    assert(layer.insts[i].mpi_var_num == layer.mpi_var_num());
                }
                prepare_second(&mut instances, &roots);
                proof {
                    assert(views(instances@) =~= next.insts);
                    lemma_views_kept(layer, next, instances@);
                    assert(at_no_stage(instances@, false).start_phase(false)
                        == next.start_phase(false));
                }
                Self::start_phase(instances, false)
            },
            (Stage::VyCombine, LayerReply::Combined { values }) => {
                let n: usize = values.len();
                let mut vy: Vec<F::ChallengeField> = Vec::new();
                let mut claims: Vec<F::ChallengeField> = Vec::new();
                for k in 0..n
                    invariant
                        n == values@.len(),
                        forall|i: int| 0 <= i < n ==> (#[trigger] lists(values@)[i]).len() == 1,
                        vy@ == Seq::new(k as nat, |i: int| lists(values@)[i][0]),
                        claims@ == vy@,
                {
                    assert(lists(values@)[k as int].len() == 1);
                    vy.push(values[k][0]);
                    claims.push(values[k][0]);
                    assert(vy@ =~= Seq::new((k + 1) as nat, |i: int| lists(values@)[i][0]));
                }
                (
                    BatchedSumcheckGkrVanillaHelper {
                        instances,
                        batched_gpu_ctx,
                        stage: Stage::VyAppend { vy },
                        replies: Vec::new(),
                    },
                    LayerRequest::Append { claims },
                )
            },
            (Stage::VyAppend { vy }, LayerReply::Appended) => (
                BatchedSumcheckGkrVanillaHelper {
                    instances,
                    batched_gpu_ctx,
                    stage: Stage::Done { claim: Some(vy) },
                    replies: Vec::new(),
                },
                LayerRequest::Finished,
            ),
            _ => unreached(),
        }
    }

    /// Takes the layer one reply further.
    pub fn advance(self, reply: LayerReply<F>) -> (r: (Self, LayerRequest<F>))
        requires
            self.wf(),
            self.takes(reply),
        ensures
            r.0.wf(),
            match reply {
                LayerReply::Device(d) => {
                    &&& self.device_follows(d, r.0, r.1)
                    &&& r.0@ == self@ || self.stepped(r.0@)
                },
                _ => {
                    &&& r.0.follows(r.1, self@.step(reply.event()))
                    &&& r.0.batched_gpu_ctx == self.batched_gpu_ctx
                },
            },
    {
        match reply {
            LayerReply::Device(d) => {
                let mut helper = self;
                let ghost start = helper;
                helper.replies.push(d);
                let ghost asked = helper;
                let step = helper.gpu_step();
                assert(start.gpu_steps(asked.replies@, step));
                match step {
                    GpuStep::Run(op) => (helper, LayerRequest::Device(op)),
                    GpuStep::Done(outcome) => helper.after_procedure(
                        outcome,
                        Ghost(start),
                    ),
                }
            },
            _ => self.answer(reply),
        }
    }

    /// Goes on once a procedure on the GPU has come to an outcome.
    fn after_procedure(self, outcome: GpuOutcome, Ghost(start): Ghost<Self>) -> (r: (
        Self,
        LayerRequest<F>,
    ))
        requires
            start.wf(),
            start.on_device(),
            start.outcome_fits(outcome),
            self.instances == start.instances,
            self.stage == start.stage,
            self.batched_gpu_ctx == start.ctx_after(outcome),
        ensures
            r.0.wf(),
            if start.more_tables(outcome) {
                &&& r.0@ == start@
                &&& r.0.batched_gpu_ctx == start.batched_gpu_ctx
                &&& r.0.replies@.len() == 0
                &&& match (start.stage, r.0.stage, outcome) {
                    (
                        Stage::GpuDownload { tables, .. },
                        Stage::GpuDownload { tables: more, .. },
                        GpuOutcome::Downloaded(words),
                    ) => more@ == tables@.push(words),
                    _ => false,
                }
                &&& match r.1 {
                    LayerRequest::Device(op) => r.0.gpu_steps(r.0.replies@, GpuStep::Run(op)),
                    _ => false,
                }
            } else {
                &&& start@.expects(start.outcome_event(outcome))
                &&& r.0.follows(r.1, start@.step(start.outcome_event(outcome)))
                &&& r.0.batched_gpu_ctx == start.next_ctx(outcome)
            },
    {
        assert(self@ == start@);
        let n: usize = self.instances.len();
        let more: bool = match &self.stage {
            Stage::GpuDownload { tables, .. } => tables.len() % 2 == 0 || tables.len() / 2 < n - 1,
            _ => false,
        };
        assert(more == start.more_tables(outcome));
        if !more {
            return self.after_outcome(outcome);
        }
        let BatchedSumcheckGkrVanillaHelper { instances, batched_gpu_ctx, stage, replies } = self;
        match (stage, outcome) {
            (Stage::GpuDownload { first, var, tables }, GpuOutcome::Downloaded(words)) => {
                let mut tables = tables;
                tables.push(words);
                Self::begin_on_gpu(
                    instances,
                    batched_gpu_ctx,
                    Stage::GpuDownload { first, var, tables },
                )
            },
            _ => unreached(),
        }
    }
}

/// Instances whose views a step leaves in shape are ready to go on.
proof fn lemma_views_kept<'a, F: FieldEngine>(
    layer: LayerView<F>,
    next: LayerView<F>,
    instances: Seq<InstanceState<'a, F>>,
)
    requires
        layer.wf(),
        !layer.gpu,
        views(instances) == next.insts,
        all_wf(instances),
        next.insts.len() == layer.insts.len(),
        !next.gpu,
        forall|i: int|
            0 <= i < next.insts.len() ==> (#[trigger] next.insts[i]).layer == layer.insts[i].layer
                && next.insts[i].mpi_var_num == layer.insts[i].mpi_var_num,
    ensures
        BatchedSumcheckGkrVanillaHelper::<'a, F>::ready(instances, None),
        next.uniform(),
        next.input_var_num() == layer.input_var_num(),
        next.mpi_var_num() == layer.mpi_var_num(),
        next.skips_phase_two() == layer.skips_phase_two(),
{
    assert forall|i: int| 0 <= i < next.insts.len() implies (#[trigger] next.insts[i]).wf() by {
        assert(instances[i].wf());
    }
    lemma_shape_kept(layer, next);
}

/// Checks that there are `n` lists of at least or exactly `len` entries.
pub(crate) fn check_lists<E>(values: &Vec<Vec<E>>, n: usize, len: usize, exact: bool) -> (r: bool)
    ensures
        exact ==> r == sized(lists(values@), n as nat, len as nat),
        !exact ==> r == at_least(lists(values@), n as nat, len as nat),
{
    if values.len() != n {
        return false;
    }
    for k in 0..n
        invariant
            n == values@.len(),
            forall|i: int|
                0 <= i < k ==> if exact {
                    (#[trigger] values@[i])@.len() == len
                } else {
                    values@[i]@.len() >= len
                },
    {
        if values[k].len() < len || (exact && values[k].len() != len) {
            assert(lists(values@)[k as int].len() == values@[k as int]@.len());
            return false;
        }
    }
    true
}

impl<'a, F: FieldEngine> BatchedSumcheckGkrVanillaHelper<'a, F> {
    /// Checks that a reply is of the kind and the size that the layer waits for.
    pub fn accepts(&self, reply: &LayerReply<F>) -> (r: bool)
        requires
            self.wf(),
        ensures
            r == self.takes(*reply),
    {
        let n: usize = self.instances.len();
        let limit: usize = self.instances[0].sp.eq_evals_at_r_mpi0.len();
        assert(self.instances@[0].wf());
        match (&self.stage, reply) {
            (Stage::GpuSetup { .. }, LayerReply::Device(_)) => true,
            (Stage::GpuEval { .. }, LayerReply::Device(_)) => true,
            (Stage::GpuDownload { .. }, LayerReply::Device(_)) => true,
            (Stage::GpuRelease { .. }, LayerReply::Device(_)) => true,
            (Stage::GpuReceive { .. }, LayerReply::Device(_)) => true,
            (Stage::Combine { .. }, LayerReply::Combined { values }) => check_lists(
                values,
                n,
                3,
                true,
            ),
            (Stage::Challenge { .. }, LayerReply::Challenged { r }) => r.len() == n,
            (Stage::SimdCombine { .. }, LayerReply::Combined { values }) => check_lists(
                values,
                n,
                4,
                true,
            ),
            (Stage::SimdChallenge { .. }, LayerReply::Challenged { r }) => r.len() == n,
            (Stage::Gather, LayerReply::Gathered { v, hg }) => {
                let world: usize = pow2_usize(self.instances[0].mpi_var_helper.var_num);
                check_lists(v, n, world, false) && check_lists(hg, n, world, false)
            },
            (Stage::MpiChallenge { .. }, LayerReply::Challenged { r }) => r.len() == n,
            (Stage::VxAppend, LayerReply::Appended) => true,
            (Stage::Broadcast, LayerReply::Broadcasted { roots }) => roots.len() == n,
            (Stage::VyCombine, LayerReply::Combined { values }) => check_lists(
                values,
                n,
                1,
                true,
            ),
            (Stage::VyAppend { .. }, LayerReply::Appended) => true,
            _ => false,
        }
    }

    /// The layer is done.
    pub fn is_done(&self) -> (r: bool)
        ensures
            r == (self@.stage is Done),
    {
        match &self.stage {
            Stage::Done { .. } => true,
            _ => false,
        }
    }

    /// The claims of a finished layer, the challenges that it leaves and the scratch pads.
    pub fn finish(self) -> (r: (
        Vec<(F::ChallengeField, Option<F::ChallengeField>)>,
        Vec<ExpanderDualVarChallenge<F>>,
        Vec<ProverScratchPad<F>>,
    ))
        requires
            self.wf(),
            self@.stage is Done,
        ensures
            r.0@ == self@.claims(),
            challenge_views(r.1@) == self@.challenges(),
            r.2@.len() == self@.insts.len(),
            forall|i: int| 0 <= i < r.2@.len() ==> (#[trigger] r.2@[i])@ == self@.insts[i].pad,
    {
        let ghost layer = self@;
        let BatchedSumcheckGkrVanillaHelper { instances, batched_gpu_ctx, stage, replies } = self;
        let ghost start = instances@;
        let n: usize = instances.len();
        let mut instances = instances;
        let mut claims: Vec<(F::ChallengeField, Option<F::ChallengeField>)> = Vec::new();
        let mut challenges: Vec<ExpanderDualVarChallenge<F>> = Vec::new();
        let mut pads: Vec<ProverScratchPad<F>> = Vec::new();
        for k in 0..n
            invariant
                n == start.len(),
                layer.wf(),
                layer.insts == views(start),
                layer.stage == stage@,
                stage is Done,
                all_wf(start),
                instances@ == start.subrange(k as int, n as int),
                claims@.len() == k,
                challenges@.len() == k,
                pads@.len() == k,
                forall|i: int| 0 <= i < k ==> #[trigger] claims@[i] == layer.claims()[i],
                forall|i: int| 0 <= i < k ==> (#[trigger] challenges@[i])@ == layer.challenges()[i],
                forall|i: int| 0 <= i < k ==> (#[trigger] pads@[i])@ == layer.insts[i].pad,
        {
            let inst = instances.remove(0);
            assert(inst == start[k as int]);
            assert(instances@ =~= start.subrange(k + 1, n as int));
            let vy = match &stage {
                Stage::Done { claim: Some(vy) } => Some(vy[k]),
                _ => None,
            };
            claims.push((inst.vx_claim(), vy));
            let (challenge, pad) = inst.finish();
            challenges.push(challenge);
            pads.push(pad);
        }
        assert(claims@ =~= layer.claims());
        assert(challenge_views(challenges@) =~= layer.challenges());
        (claims, challenges, pads)
    }
}

/// The views of challenges.
pub open spec fn challenge_views<F: FieldEngine>(v: Seq<ExpanderDualVarChallenge<F>>) -> Seq<
    ChallengeView<F::ChallengeField>,
> {
    Seq::new(v.len(), |i: int| v[i]@)
}

/// The views of scratch pads.
pub open spec fn pad_views<F: FieldEngine>(v: Seq<ProverScratchPad<F>>) -> Seq<
    PadView<F::Field, F::ChallengeField>,
> {
    Seq::new(v.len(), |i: int| v[i]@)
}

/// The values behind references to layers.
pub open spec fn layer_values<'a, F: FieldEngine>(v: Seq<&'a CircuitLayer<F>>) -> Seq<
    CircuitLayer<F>,
> {
    Seq::new(v.len(), |i: int| *v[i])
}

// ---------------------------------------------------------------------------
// Starting a layer
// ---------------------------------------------------------------------------

/// The layer that instances start at.
pub open spec fn layer_at_start<F: FieldEngine>(
    layers: Seq<CircuitLayer<F>>,
    challenges: Seq<ChallengeView<F::ChallengeField>>,
    alphas: Seq<Option<F::ChallengeField>>,
    pads: Seq<PadView<F::Field, F::ChallengeField>>,
    world_size: usize,
    is_output_layer: bool,
) -> LayerView<F> {
    LayerView {
        insts: Seq::new(
            layers.len(),
            |i: int|
                InstView::at_start(
                    layers[i],
                    challenges[i],
                    alphas[i],
                    pads[i],
                    log2_spec(world_size),
                    is_output_layer,
                ),
        ),
        gpu: false,
        stage: StageView::Gather,
    }
}

/// Checks that instances can be proved at one layer in lockstep.
pub fn can_prove_layer<'a, F: FieldEngine>(
    layer_per_instance: &Vec<&'a CircuitLayer<F>>,
    challenge_per_instance: &Vec<ExpanderDualVarChallenge<F>>,
    alpha_per_instance: &Vec<Option<F::ChallengeField>>,
    sp_per_instance: &Vec<ProverScratchPad<F>>,
    world_size: usize,
    is_output_layer: bool,
) -> (r: bool)
    ensures
        r == ({
            &&& challenge_per_instance@.len() == layer_per_instance@.len()
            &&& alpha_per_instance@.len() == layer_per_instance@.len()
            &&& sp_per_instance@.len() == layer_per_instance@.len()
            &&& layer_at_start(
                layer_values(layer_per_instance@),
                challenge_views(challenge_per_instance@),
                alpha_per_instance@,
                pad_views(sp_per_instance@),
                world_size,
                is_output_layer,
            ).uniform()
        }),
{
    let ghost start = layer_at_start(
        layer_values(layer_per_instance@),
        challenge_views(challenge_per_instance@),
        alpha_per_instance@,
        pad_views(sp_per_instance@),
        world_size,
        is_output_layer,
    );
    let n: usize = layer_per_instance.len();
    if n == 0 || challenge_per_instance.len() != n || alpha_per_instance.len() != n
        || sp_per_instance.len() != n {
        return false;
    }
    let first: &'a CircuitLayer<F> = layer_per_instance[0];
    assert(start.insts[0].layer == *first);
    for k in 0..n
        invariant
            n == layer_per_instance@.len(),
            n == challenge_per_instance@.len(),
            n == alpha_per_instance@.len(),
            n == sp_per_instance@.len(),
            n >= 1,
            start == layer_at_start(
                layer_values(layer_per_instance@),
                challenge_views(challenge_per_instance@),
                alpha_per_instance@,
                pad_views(sp_per_instance@),
                world_size,
                is_output_layer,
            ),
            start.insts[0].layer == *first,
            forall|i: int|
                0 <= i < k ==> {
                    let inst = #[trigger] start.insts[i];
                    &&& inst.wf()
                    &&& inst.input_var_num() == start.input_var_num()
                    &&& inst.layer.structure_info.skip_sumcheck_phase_two
                        == start.skips_phase_two()
                },
    {
        let layer: &'a CircuitLayer<F> = layer_per_instance[k];
        let ghost inst = start.insts[k as int];
        assert(inst.layer == *layer);
        let fits: bool = check_parts_fit(
            layer,
            &challenge_per_instance[k],
            &alpha_per_instance[k],
            &sp_per_instance[k],
            world_size,
        );
        assert(fits == inst.wf());
        if !fits || layer.input_var_num != first.input_var_num
            || layer.structure_info.skip_sumcheck_phase_two
            != first.structure_info.skip_sumcheck_phase_two {
            return false;
        }
    }
    assert(start.insts[0].wf());
    if F::field_type() != FieldType::M31x16 || first.input_var_num == 0 {
        return true;
    }
    let inputs: usize = first.input_vals.len();
    proof {
        lemma_pow2_unfold(first.input_var_num as nat);
    }
    if inputs / 2 < GPU_DISPATCH_THRESHOLD {
        return true;
    }
    check_sizes_fit(n, F::get_field_pack_size(), inputs)
}

/// Starts the proofs of several instances at one layer. The instances' layers have one shape;
/// each has its own claim, combination coefficient and scratch pad.
pub fn sumcheck_prove_gkr_layer_batched<'a, F: FieldEngine>(
    layer_per_instance: &Vec<&'a CircuitLayer<F>>,
    challenge_per_instance: Vec<ExpanderDualVarChallenge<F>>,
    alpha_per_instance: &Vec<Option<F::ChallengeField>>,
    sp_per_instance: Vec<ProverScratchPad<F>>,
    world_size: usize,
    is_output_layer: bool,
) -> (r: (BatchedSumcheckGkrVanillaHelper<'a, F>, LayerRequest<F>))
    requires
        challenge_per_instance@.len() == layer_per_instance@.len(),
        alpha_per_instance@.len() == layer_per_instance@.len(),
        sp_per_instance@.len() == layer_per_instance@.len(),
        layer_at_start(
            layer_values(layer_per_instance@),
            challenge_views(challenge_per_instance@),
            alpha_per_instance@,
            pad_views(sp_per_instance@),
            world_size,
            is_output_layer,
        ).uniform(),
    ensures
        r.0.follows(
            r.1,
            layer_at_start(
                layer_values(layer_per_instance@),
                challenge_views(challenge_per_instance@),
                alpha_per_instance@,
                pad_views(sp_per_instance@),
                world_size,
                is_output_layer,
            ).start(),
        ),
        r.0.batched_gpu_ctx is None,
{
    let ghost layers = layer_values(layer_per_instance@);
    let ghost challenges = challenge_views(challenge_per_instance@);
    let ghost pads = pad_views(sp_per_instance@);
    let ghost layer = layer_at_start(
        layers,
        challenges,
        alpha_per_instance@,
        pads,
        world_size,
        is_output_layer,
    );
    let n: usize = layer_per_instance.len();
    let mut rest_challenges = challenge_per_instance;
    let mut rest_pads = sp_per_instance;
    let mut instances: Vec<InstanceState<'a, F>> = Vec::new();
    for k in 0..n
        invariant
            n == layers.len(),
            layers == layer_values(layer_per_instance@),
            alpha_per_instance@.len() == n,
            challenges == challenge_views(challenge_per_instance@),
            pads == pad_views(sp_per_instance@),
            challenges.len() == n,
            pads.len() == n,
            layer == layer_at_start(
                layers,
                challenges,
                alpha_per_instance@,
                pads,
                world_size,
                is_output_layer,
            ),
            layer.uniform(),
            rest_challenges@ == challenge_per_instance@.subrange(k as int, n as int),
            rest_pads@ == sp_per_instance@.subrange(k as int, n as int),
            instances@.len() == k,
            forall|i: int|
                0 <= i < k ==> (#[trigger] instances@[i]).wf() && instances@[i]@ == layer.insts[i],
    {
        let challenge = rest_challenges.remove(0);
        let pad = rest_pads.remove(0);
        assert(challenge@ == challenges[k as int]);
        assert(pad@ == pads[k as int]);
        assert(layer.insts[k as int].wf());
        assert(rest_challenges@ =~= challenge_per_instance@.subrange(k + 1, n as int));
        assert(rest_pads@ =~= sp_per_instance@.subrange(k + 1, n as int));
        instances.push(
            InstanceState::new(
                layer_per_instance[k],
                challenge,
                alpha_per_instance[k],
                pad,
                world_size,
                is_output_layer,
            ),
        );
    }
    proof {
        assert(views(instances@) =~= layer.insts);
        lemma_start_wf(layer);
    }
    let ghost next = layer.prepared();
    prepare_all(&mut instances);
    proof {
        assert(views(instances@) =~= next.insts);
        assert forall|i: int| 0 <= i < next.insts.len() implies {
            let inst = #[trigger] next.insts[i];
            &&& inst.wf()
            &&& inst.layer == layer.insts[i].layer
            &&& inst.mpi_var_num == layer.insts[i].mpi_var_num
        } by {
            assert(instances@[i].wf());
        }
        lemma_shape_kept(layer, next);
        assert(at_no_stage(instances@, false).start_phase(true) == next.start_phase(true));
    }
    BatchedSumcheckGkrVanillaHelper::start_phase(instances, true)
}

/// Starts the proof of one instance at one layer: a batch of one.
pub fn sumcheck_prove_gkr_layer<'a, F: FieldEngine>(
    layer: &'a CircuitLayer<F>,
    challenge: ExpanderDualVarChallenge<F>,
    alpha: Option<F::ChallengeField>,
    sp: ProverScratchPad<F>,
    world_size: usize,
    is_output_layer: bool,
) -> (r: (BatchedSumcheckGkrVanillaHelper<'a, F>, LayerRequest<F>))
    requires
        layer_at_start(
            seq![*layer],
            seq![challenge@],
            seq![alpha],
            seq![sp@],
            world_size,
            is_output_layer,
        ).uniform(),
    ensures
        r.0.follows(
            r.1,
            layer_at_start(
                seq![*layer],
                seq![challenge@],
                seq![alpha],
                seq![sp@],
                world_size,
                is_output_layer,
            ).start(),
        ),
        r.0.batched_gpu_ctx is None,
{
    let layers: Vec<&'a CircuitLayer<F>> = vec![layer];
    let challenges: Vec<ExpanderDualVarChallenge<F>> = vec![challenge];
    let alphas: Vec<Option<F::ChallengeField>> = vec![alpha];
    let pads: Vec<ProverScratchPad<F>> = vec![sp];
    assert(layer_values(layers@) =~= seq![*layer]);
    assert(challenge_views(challenges@) =~= seq![challenge@]);
    assert(alphas@ =~= seq![alpha]);
    assert(pad_views(pads@) =~= seq![sp@]);
    sumcheck_prove_gkr_layer_batched(
        &layers,
        challenges,
        &alphas,
        pads,
        world_size,
        is_output_layer,
    )
}

} // verus!
