//! The sumcheck protocol of one layer, for any number of provers in lockstep.
//!
//! Transcripts, message passing and the GPU are asked for and answered: a step of the protocol
//! takes an answer to the next state and the next question. Here the steps are mathematical
//! functions; the prover that carries them out is held to them.

use vstd::arithmetic::power2::*;
use vstd::prelude::*;

use crate::circuit::ChallengeView;
use crate::cuda_dispatch::{sizes_fit, GPU_DISPATCH_THRESHOLD};
use crate::engine::{FieldEngine, FieldType};
use crate::extension::{broadcasts, lemma_bound_len, promoted};
use crate::field::Field;
use crate::instance::{table_words, wire_words, with_front, InstView};

verus! {

/// Where a layer stands. `first` tells the phase over the first input wires from the one over
/// the second; `var` is the variable of the round.
#[verifier::ext_equal]
pub enum StageView<E> {
    /// A GPU context is being set up.
    GpuSetup { first: bool },
    /// The GPU evaluates a round.
    GpuEval { first: bool, var: nat },
    /// The tables come back from the GPU.
    GpuDownload { first: bool, var: nat },
    /// The GPU context is being released.
    GpuRelease { first: bool, var: nat },
    /// The processes' shares of a round are being combined.
    Combine { first: bool, var: nat },
    /// The round's values await their challenge.
    Challenge { first: bool, var: nat },
    /// The GPU folds at the challenges.
    GpuReceive { first: bool, var: nat, r: Seq<E> },
    SimdCombine { var: nat },
    SimdChallenge { var: nat },
    Gather,
    MpiChallenge { var: nat },
    VxAppend,
    Broadcast,
    VyCombine,
    VyAppend { vy: Seq<E> },
    Done { claim: Option<Seq<E>> },
}

/// The state of a layer.
#[verifier::ext_equal]
pub struct LayerView<F: FieldEngine> {
    pub insts: Seq<InstView<F>>,
    /// The tables live on the GPU.
    pub gpu: bool,
    pub stage: StageView<F::ChallengeField>,
}

/// What a layer asks for. What goes to the instances one by one is listed by instance.
#[verifier::ext_equal]
pub enum Ask<E> {
    /// A GPU context for these tables: words of the coefficients, words of the wires.
    SetUp { hg_words: Seq<Seq<u32>>, wire_words: Seq<Seq<u32>> },
    Evaluate { eval_size: nat },
    /// The first `num` elements of both tables.
    Download { num: nat },
    Release,
    Receive { eval_size: nat, var: nat, r: Seq<Seq<u32>> },
    /// The sum over all processes of their values, weighted by the coefficients.
    Combine { values: Seq<Seq<E>>, coefs: Seq<Seq<E>> },
    /// A challenge after these values.
    Challenge { evals: Seq<Seq<E>> },
    /// The shares of all processes.
    Gather { v: Seq<E>, hg: Seq<E> },
    /// That these claims go into the transcript.
    Append { claims: Seq<E> },
    /// The root's values.
    Broadcast { roots: Seq<E> },
    Finished,
}

/// The answers.
#[verifier::ext_equal]
pub enum Event<E> {
    SetUp { ready: bool },
    Evaluated { results: Option<Seq<[[u32; 9]; 16]>> },
    /// For each instance the words of the wires, then those of the coefficients.
    Downloaded { tables: Seq<Option<Seq<u32>>> },
    Released,
    Received { folded: bool },
    Combined { values: Seq<Seq<E>> },
    Challenged { r: Seq<E> },
    Gathered { v: Seq<Seq<E>>, hg: Seq<Seq<E>> },
    Appended,
    Broadcasted { roots: Seq<E> },
}

impl<F: FieldEngine> LayerView<F> {
    // -- shape

    pub open spec fn input_var_num(self) -> nat {
        self.insts[0].input_var_num()
    }

    pub open spec fn simd_var_num(self) -> nat {
        self.insts[0].simd_var_num()
    }

    pub open spec fn mpi_var_num(self) -> nat {
        self.insts[0].mpi_var_num
    }

    pub open spec fn skips_phase_two(self) -> bool {
        self.insts[0].layer.structure_info.skip_sumcheck_phase_two
    }

    pub open spec fn eval_size(self, var: nat) -> nat {
        self.insts[0].eval_size(var)
    }

    /// Whether a round is large enough for the GPU.
    pub open spec fn is_large(self, var: nat) -> bool {
        self.eval_size(var) >= GPU_DISPATCH_THRESHOLD
    }

    /// Whether a phase starts on the GPU.
    pub open spec fn wants_gpu(self) -> bool {
        &&& F::field_type_spec() == FieldType::M31x16
        &&& self.input_var_num() >= 1
        &&& self.is_large(0)
    }

    /// The instances have one shape.
    pub open spec fn uniform(self) -> bool {
        &&& self.insts.len() >= 1
        &&& forall|i: int| 0 <= i < self.insts.len() ==> (#[trigger] self.insts[i]).wf()
        &&& forall|i: int|
            0 <= i < self.insts.len() ==> {
                let inst = #[trigger] self.insts[i];
                &&& inst.input_var_num() == self.input_var_num()
                &&& inst.mpi_var_num == self.mpi_var_num()
                &&& inst.layer.structure_info.skip_sumcheck_phase_two == self.skips_phase_two()
            }
        &&& self.wants_gpu() ==> sizes_fit(
            self.insts.len() as int,
            F::pack_size_spec() as int,
            pow2(self.input_var_num()) as int,
        )
    }

    /// How many challenges of each kind every instance has seen.
    pub open spec fn seen(self, rx: nat, ry: nat, simd: nat, mpi: nat) -> bool {
        forall|i: int|
            0 <= i < self.insts.len() ==> {
                let inst = #[trigger] self.insts[i];
                &&& inst.rx.len() == rx
                &&& inst.ry.len() == ry
                &&& inst.r_simd_var.len() == simd
                &&& inst.r_mpi_var.len() == mpi
            }
    }

    /// The challenges seen before round `var` of a phase.
    pub open spec fn seen_before_round(self, first: bool, var: nat) -> bool {
        if first {
            self.seen(var, 0, 0, 0)
        } else {
            &&& !self.skips_phase_two()
            &&& self.seen(self.input_var_num(), var, self.simd_var_num(), self.mpi_var_num())
        }
    }

    /// The state is one that a layer comes through.
    pub open spec fn wf(self) -> bool {
        let n = self.input_var_num();
        let lanes = self.simd_var_num();
        let world = self.mpi_var_num();
        &&& self.uniform()
        &&& self.gpu ==> self.wants_gpu()
        &&& match self.stage {
            StageView::GpuSetup { first } => !self.gpu && self.wants_gpu()
                && self.seen_before_round(first, 0),
            StageView::GpuEval { first, var } => self.gpu && var < n && self.is_large(var)
                && self.seen_before_round(first, var),
            StageView::GpuDownload { first, var } => self.gpu && var < n && !self.is_large(var)
                && self.seen_before_round(first, var),
            StageView::GpuRelease { first, var } => self.gpu && var < n && self.seen_before_round(
                first,
                var,
            ),
            StageView::Combine { first, var } => var < n && (self.gpu ==> self.is_large(var))
                && self.seen_before_round(first, var),
            StageView::Challenge { first, var } => var < n && (self.gpu ==> self.is_large(var))
                && self.seen_before_round(first, var),
            StageView::GpuReceive { first, var, r } => self.gpu && var < n && self.is_large(var)
                && self.seen_before_round(first, var) && r.len() == self.insts.len(),
            StageView::SimdCombine { var } => !self.gpu && var < lanes && self.seen(n, 0, var, 0),
            StageView::SimdChallenge { var } => !self.gpu && var < lanes && self.seen(
                n,
                0,
                var,
                0,
            ),
            StageView::Gather => !self.gpu && self.seen(n, 0, lanes, 0),
            StageView::MpiChallenge { var } => !self.gpu && var < world && self.seen(
                n,
                0,
                lanes,
                var,
            ),
            StageView::VxAppend => !self.gpu && self.seen(n, 0, lanes, world),
            StageView::Broadcast => !self.gpu && !self.skips_phase_two() && self.seen(
                n,
                0,
                lanes,
                world,
            ),
            StageView::VyCombine => !self.gpu && !self.skips_phase_two() && self.seen(
                n,
                n,
                lanes,
                world,
            ),
            StageView::VyAppend { vy } => !self.gpu && !self.skips_phase_two() && self.seen(
                n,
                n,
                lanes,
                world,
            ) && vy.len() == self.insts.len(),
            StageView::Done { claim } => !self.gpu && (claim is None <==> self.skips_phase_two())
                && (claim is Some ==> claim->0.len() == self.insts.len()) && self.seen(
                n,
                if claim is Some {
                    n
                } else {
                    0
                },
                lanes,
                world,
            ),
        }
    }

    /// The answer is of the kind and the size that the state waits for.
    pub open spec fn expects(self, event: Event<F::ChallengeField>) -> bool {
        let n = self.insts.len();
        match (self.stage, event) {
            (StageView::GpuSetup { .. }, Event::SetUp { .. }) => true,
            (StageView::GpuEval { .. }, Event::Evaluated { results }) => results is Some
                ==> results->0.len() == n,
            (StageView::GpuDownload { var, .. }, Event::Downloaded { tables }) => {
                &&& tables.len() == 2 * n
                &&& forall|k: int|
                    0 <= k < tables.len() && (#[trigger] tables[k]) is Some ==> tables[k]->0.len()
                        == 2 * self.eval_size(var) * 3 * F::pack_size_spec()
            },
            (StageView::GpuRelease { .. }, Event::Released) => true,
            (StageView::GpuReceive { .. }, Event::Received { .. }) => true,
            (StageView::Combine { .. }, Event::Combined { values }) => sized(values, n, 3),
            (StageView::Challenge { .. }, Event::Challenged { r }) => r.len() == n,
            (StageView::SimdCombine { .. }, Event::Combined { values }) => sized(values, n, 4),
            (StageView::SimdChallenge { .. }, Event::Challenged { r }) => r.len() == n,
            (StageView::Gather, Event::Gathered { v, hg }) => at_least(
                v,
                n,
                pow2(self.mpi_var_num()),
            ) && at_least(hg, n, pow2(self.mpi_var_num())),
            (StageView::MpiChallenge { .. }, Event::Challenged { r }) => r.len() == n,
            (StageView::VxAppend, Event::Appended) => true,
            (StageView::Broadcast, Event::Broadcasted { roots }) => roots.len() == n,
            (StageView::VyCombine, Event::Combined { values }) => sized(values, n, 1),
            (StageView::VyAppend { .. }, Event::Appended) => true,
            _ => false,
        }
    }

    // -- transitions

    pub open spec fn at(self, stage: StageView<F::ChallengeField>) -> Self {
        LayerView { stage, ..self }
    }

    pub open spec fn on_gpu(self, gpu: bool) -> Self {
        LayerView { gpu, ..self }
    }

    /// The first state of a layer.
    pub open spec fn prepared(self) -> Self {
        LayerView {
            insts: Seq::new(
                self.insts.len(),
                |i: int| self.insts[i].simd_prepared().mpi_prepared().x_prepared(),
            ),
            ..self
        }
    }

    pub open spec fn start(self) -> (Self, Ask<F::ChallengeField>) {
        self.prepared().start_phase(true)
    }

    /// A phase starts: on the GPU where that is worth it.
    pub open spec fn start_phase(self, first: bool) -> (Self, Ask<F::ChallengeField>) {
        if self.wants_gpu() {
            let size = pow2(self.input_var_num());
            (
                self.at(StageView::GpuSetup { first }),
                Ask::SetUp {
                    hg_words: Seq::new(
                        self.insts.len(),
                        |i: int| table_words::<F>(self.insts[i].pad.hg_evals, size),
                    ),
                    wire_words: Seq::new(
                        self.insts.len(),
                        |i: int| wire_words::<F>(self.insts[i].layer.input_vals@, size),
                    ),
                },
            )
        } else {
            self.start_round(first, 0)
        }
    }

    /// A round starts. Rounds that are too small for the GPU bring the tables back first.
    pub open spec fn start_round(self, first: bool, var: nat) -> (Self, Ask<F::ChallengeField>) {
        if var >= self.input_var_num() {
            self.end_phase(first)
        } else if !self.gpu {
            self.host_round(first, var)
        } else if self.is_large(var) {
            (
                self.at(StageView::GpuEval { first, var }),
                Ask::Evaluate { eval_size: self.eval_size(var) },
            )
        } else {
            (
                self.at(StageView::GpuDownload { first, var }),
                Ask::Download { num: 2 * self.eval_size(var) },
            )
        }
    }

    pub open spec fn mpi_coefs(self) -> Seq<Seq<F::ChallengeField>> {
        Seq::new(self.insts.len(), |i: int| self.insts[i].process_weights())
    }

    /// A round is evaluated on the host.
    pub open spec fn host_round(self, first: bool, var: nat) -> (Self, Ask<F::ChallengeField>) {
        (
            self.at(StageView::Combine { first, var }),
            Ask::Combine {
                values: Seq::new(
                    self.insts.len(),
                    |i: int| self.insts[i].local(self.insts[i].host_values(var)),
                ),
                coefs: self.mpi_coefs(),
            },
        )
    }

    /// A round has been evaluated on the GPU.
    pub open spec fn gpu_round(
        self,
        first: bool,
        var: nat,
        results: Seq<[[u32; 9]; 16]>,
    ) -> (Self, Ask<F::ChallengeField>) {
        (
            self.at(StageView::Combine { first, var }),
            Ask::Combine {
                values: Seq::new(
                    self.insts.len(),
                    |i: int| self.insts[i].local(InstView::<F>::gpu_values(results[i])),
                ),
                coefs: self.mpi_coefs(),
            },
        )
    }

    /// The GPU has failed to evaluate a round: the host evaluates it on tables that it makes for
    /// this round alone. The GPU's own tables are as good as before, and it folds them next.
    pub open spec fn spare_round(self, first: bool, var: nat) -> (Self, Ask<F::ChallengeField>) {
        (
            self.at(StageView::Combine { first, var }),
            self.recovered(first, var).host_round(first, var).1,
        )
    }

    /// The values of a round that go into the transcript.
    pub open spec fn round_values(
        self,
        first: bool,
        values: Seq<Seq<F::ChallengeField>>,
    ) -> Seq<Seq<F::ChallengeField>> {
        if first {
            values
        } else {
            Seq::new(self.insts.len(), |i: int| self.insts[i].scaled(values[i]))
        }
    }

    /// The challenges' limbs.
    pub open spec fn limbs(r: Seq<F::ChallengeField>) -> Seq<Seq<u32>> {
        Seq::new(r.len(), |i: int| F::challenge_limbs_spec(r[i]))
    }

    pub open spec fn folded_on_host(
        self,
        first: bool,
        var: nat,
        r: Seq<F::ChallengeField>,
    ) -> Self {
        LayerView {
            insts: Seq::new(
                self.insts.len(),
                |i: int| self.insts[i].host_folded(var, r[i]).noted(first, r[i]),
            ),
            ..self
        }
    }

    pub open spec fn folded_on_gpu(
        self,
        first: bool,
        var: nat,
        r: Seq<F::ChallengeField>,
    ) -> Self {
        LayerView {
            insts: Seq::new(
                self.insts.len(),
                |i: int| self.insts[i].flags_folded(var).noted(first, r[i]),
            ),
            ..self
        }
    }

    /// The tables come back from the GPU, or are made by the host where a copy failed.
    pub open spec fn tables_fetched(
        self,
        first: bool,
        var: nat,
        tables: Seq<Option<Seq<u32>>>,
    ) -> Self {
        LayerView {
            insts: Seq::new(
                self.insts.len(),
                |i: int|
                    self.insts[i].fetched(first, var, tables[2 * i], tables[2 * i + 1]),
            ),
            ..self
        }
    }

    /// The host makes the tables that the GPU has failed to work on.
    pub open spec fn recovered(self, first: bool, var: nat) -> Self {
        LayerView {
            insts: Seq::new(self.insts.len(), |i: int| self.insts[i].recovered(first, var)),
            ..self
        }
    }

    /// The GPU context is given up: the tables are the host's, and round `var` is next. That is so
    /// once the rounds are too small for the GPU, and once a fold on it has failed: its tables
    /// then lack a challenge, or hold it in some lanes only, and no later round can be read off
    /// them.
    pub open spec fn released(self, first: bool, var: nat) -> (Self, Ask<F::ChallengeField>) {
        (self.at(StageView::GpuRelease { first, var }), Ask::Release)
    }

    /// The rounds of a phase are over.
    pub open spec fn end_phase(self, first: bool) -> (Self, Ask<F::ChallengeField>) {
        if first {
            LayerView {
                insts: Seq::new(self.insts.len(), |i: int| self.insts[i].simd_vars_prepared()),
                ..self
            }.start_simd_round(0)
        } else {
            (
                self.at(StageView::VyCombine),
                Ask::Combine {
                    values: Seq::new(
                        self.insts.len(),
                        |i: int| seq![self.insts[i].vy_share()],
                    ),
                    coefs: self.mpi_coefs(),
                },
            )
        }
    }

    pub open spec fn start_simd_round(self, var: nat) -> (Self, Ask<F::ChallengeField>) {
        if var >= self.simd_var_num() {
            (
                self.at(StageView::Gather),
                Ask::Gather {
                    v: Seq::new(self.insts.len(), |i: int| self.insts[i].v_share()),
                    hg: Seq::new(self.insts.len(), |i: int| self.insts[i].hg_share()),
                },
            )
        } else {
            (
                self.at(StageView::SimdCombine { var }),
                Ask::Combine {
                    values: Seq::new(self.insts.len(), |i: int| self.insts[i].simd_values(var)),
                    coefs: self.mpi_coefs(),
                },
            )
        }
    }

    pub open spec fn simd_received(self, var: nat, r: Seq<F::ChallengeField>) -> Self {
        LayerView {
            insts: Seq::new(self.insts.len(), |i: int| self.insts[i].simd_received(var, r[i])),
            ..self
        }
    }

    pub open spec fn gathered(
        self,
        v: Seq<Seq<F::ChallengeField>>,
        hg: Seq<Seq<F::ChallengeField>>,
    ) -> Self {
        LayerView {
            insts: Seq::new(self.insts.len(), |i: int| self.insts[i].gathered(v[i], hg[i])),
            ..self
        }
    }

    pub open spec fn vx_claims(self) -> Seq<F::ChallengeField> {
        Seq::new(self.insts.len(), |i: int| self.insts[i].vx())
    }

    pub open spec fn start_mpi_round(self, var: nat) -> (Self, Ask<F::ChallengeField>) {
        if var >= self.mpi_var_num() {
            (self.at(StageView::VxAppend), Ask::Append { claims: self.vx_claims() })
        } else {
            (
                self.at(StageView::MpiChallenge { var }),
                Ask::Challenge {
                    evals: Seq::new(self.insts.len(), |i: int| self.insts[i].mpi_values(var)),
                },
            )
        }
    }

    pub open spec fn mpi_received(self, var: nat, r: Seq<F::ChallengeField>) -> Self {
        LayerView {
            insts: Seq::new(self.insts.len(), |i: int| self.insts[i].mpi_received(var, r[i])),
            ..self
        }
    }

    pub open spec fn y_prepared(self, v: Seq<F::ChallengeField>) -> Self {
        LayerView {
            insts: Seq::new(self.insts.len(), |i: int| self.insts[i].y_prepared(v[i])),
            ..self
        }
    }

    /// One step of the protocol.
    pub open spec fn step(self, event: Event<F::ChallengeField>) -> (Self, Ask<F::ChallengeField>) {
        match (self.stage, event) {
            (StageView::GpuSetup { first }, Event::SetUp { ready }) => self.on_gpu(
                ready,
            ).start_round(first, 0),
            (StageView::GpuEval { first, var }, Event::Evaluated { results }) => match results {
                Some(results) => self.gpu_round(first, var, results),
                None => self.spare_round(first, var),
            },
            (StageView::GpuDownload { first, var }, Event::Downloaded { tables }) =>
                self.tables_fetched(first, var, tables).released(first, var),
            (StageView::GpuRelease { first, var }, Event::Released) => self.on_gpu(
                false,
            ).host_round(first, var),
            (StageView::Combine { first, var }, Event::Combined { values }) => (
                self.at(StageView::Challenge { first, var }),
                Ask::Challenge { evals: self.round_values(first, values) },
            ),
            (StageView::Challenge { first, var }, Event::Challenged { r }) => if self.gpu {
                (
                    self.at(StageView::GpuReceive { first, var, r }),
                    Ask::Receive {
                        eval_size: self.eval_size(var),
                        var,
                        r: Self::limbs(r),
                    },
                )
            } else {
                self.folded_on_host(first, var, r).start_round(first, var + 1)
            },
            (StageView::GpuReceive { first, var, r }, Event::Received { folded }) => if folded {
                self.folded_on_gpu(first, var, r).start_round(first, var + 1)
            } else {
                self.folded_on_gpu(first, var, r).recovered(first, var + 1).released(
                    first,
                    var + 1,
                )
            },
            (StageView::SimdCombine { var }, Event::Combined { values }) => (
                self.at(StageView::SimdChallenge { var }),
                Ask::Challenge { evals: values },
            ),
            (StageView::SimdChallenge { var }, Event::Challenged { r }) => self.simd_received(
                var,
                r,
            ).start_simd_round(var + 1),
            (StageView::Gather, Event::Gathered { v, hg }) => self.gathered(
                v,
                hg,
            ).start_mpi_round(0),
            (StageView::MpiChallenge { var }, Event::Challenged { r }) => self.mpi_received(
                var,
                r,
            ).start_mpi_round(var + 1),
            (StageView::VxAppend, Event::Appended) => if self.skips_phase_two() {
                (self.at(StageView::Done { claim: None }), Ask::Finished)
            } else {
                (self.at(StageView::Broadcast), Ask::Broadcast { roots: self.vx_claims() })
            },
            (StageView::Broadcast, Event::Broadcasted { roots }) => self.y_prepared(
                roots,
            ).start_phase(false),
            (StageView::VyCombine, Event::Combined { values }) => {
                let vy = Seq::new(self.insts.len(), |i: int| values[i][0]);
                (self.at(StageView::VyAppend { vy }), Ask::Append { claims: vy })
            },
            (StageView::VyAppend { vy }, Event::Appended) => (
                self.at(StageView::Done { claim: Some(vy) }),
                Ask::Finished,
            ),
            _ => (self, Ask::Finished),
        }
    }

    // -- results

    /// The claims of a finished layer: at the first input wires' challenge, and at the second's
    /// where there are any.
    pub open spec fn claims(self) -> Seq<(F::ChallengeField, Option<F::ChallengeField>)> {
        Seq::new(
            self.insts.len(),
            |i: int|
                (
                    self.insts[i].vx(),
                    match self.stage {
                        StageView::Done { claim: Some(vy) } => Some(vy[i]),
                        _ => None,
                    },
                ),
        )
    }

    /// The challenges that a finished layer leaves.
    pub open spec fn challenges(self) -> Seq<ChallengeView<F::ChallengeField>> {
        Seq::new(self.insts.len(), |i: int| self.insts[i].next_challenge())
    }
}

/// As many lists as instances, each of the given length.
pub open spec fn sized<E>(values: Seq<Seq<E>>, n: nat, len: nat) -> bool {
    &&& values.len() == n
    &&& forall|i: int| 0 <= i < n ==> (#[trigger] values[i]).len() == len
}

/// As many lists as instances, each of the given length at least.
pub open spec fn at_least<E>(values: Seq<Seq<E>>, n: nat, len: nat) -> bool {
    &&& values.len() == n
    &&& forall|i: int| 0 <= i < n ==> (#[trigger] values[i]).len() >= len
}

// ---------------------------------------------------------------------------
// Invariants
// ---------------------------------------------------------------------------

/// Instances that a step leaves well formed and of the same shape.
pub open spec fn shape_kept<F: FieldEngine>(before: LayerView<F>, after: LayerView<F>) -> bool {
    &&& after.insts.len() == before.insts.len()
    &&& forall|i: int|
        0 <= i < before.insts.len() ==> {
            let inst = #[trigger] after.insts[i];
            &&& inst.wf()
            &&& inst.layer == before.insts[i].layer
            &&& inst.mpi_var_num == before.insts[i].mpi_var_num
        }
}

/// Shape is what decides how a layer goes on.
pub proof fn lemma_shape_kept<F: FieldEngine>(before: LayerView<F>, after: LayerView<F>)
    requires
        before.uniform(),
        shape_kept(before, after),
    ensures
        after.uniform(),
        after.input_var_num() == before.input_var_num(),
        after.mpi_var_num() == before.mpi_var_num(),
        after.skips_phase_two() == before.skips_phase_two(),
        after.wants_gpu() == before.wants_gpu(),
        forall|var: nat| #[trigger] after.is_large(var) == before.is_large(var),
{
    assert(after.insts[0].layer == before.insts[0].layer);
    assert forall|i: int| 0 <= i < after.insts.len() implies {
        let inst = #[trigger] after.insts[i];
        &&& inst.input_var_num() == after.input_var_num()
        &&& inst.mpi_var_num == after.mpi_var_num()
        &&& inst.layer.structure_info.skip_sumcheck_phase_two == after.skips_phase_two()
    } by {
        assert(before.insts[i].input_var_num() == before.input_var_num());
    }
}

/// A phase that starts, starts in a state that a layer comes through.
pub proof fn lemma_start_phase_wf<F: FieldEngine>(layer: LayerView<F>, first: bool)
    requires
        layer.uniform(),
        !layer.gpu,
        layer.seen_before_round(first, 0),
    ensures
        layer.start_phase(first).0.wf(),
{
    if !layer.wants_gpu() {
        lemma_start_round_wf(layer, first, 0);
    } else {
        let next = layer.start_phase(first).0;
        assert(next.insts == layer.insts);
    }
}

/// A round that starts, starts in a state that a layer comes through.
pub proof fn lemma_start_round_wf<F: FieldEngine>(layer: LayerView<F>, first: bool, var: nat)
    requires
        layer.uniform(),
        var <= layer.input_var_num(),
        layer.gpu ==> layer.wants_gpu() && var < layer.input_var_num(),
        layer.seen_before_round(first, var),
    ensures
        layer.start_round(first, var).0.wf(),
{
    let next = layer.start_round(first, var).0;
    if var < layer.input_var_num() {
        assert(next.insts == layer.insts);
    } else if first {
        let prepared = LayerView {
            insts: Seq::new(layer.insts.len(), |i: int| layer.insts[i].simd_vars_prepared()),
            ..layer
        };
        assert forall|i: int| 0 <= i < layer.insts.len() implies {
            let inst = #[trigger] prepared.insts[i];
            &&& inst.wf()
            &&& inst.layer == layer.insts[i].layer
            &&& inst.mpi_var_num == layer.insts[i].mpi_var_num
        } by {
            let inst = layer.insts[i];
            let c = F::ChallengeField::zero_spec();
            assert(inst.wf());
            F::law_pack_size();
            F::law_unpack(inst.pad.v_evals[0], inst.pad.hg_evals[0], c, 0);
            F::law_unpack(inst.pad.hg_evals[0], inst.pad.v_evals[0], c, 0);
        }
        lemma_shape_kept(layer, prepared);
        assert(prepared.seen(var, 0, 0, 0));
        lemma_start_simd_round_wf(prepared, 0);
    } else {
        assert(next.insts == layer.insts);
    }
}

proof fn lemma_start_simd_round_wf<F: FieldEngine>(layer: LayerView<F>, var: nat)
    requires
        layer.uniform(),
        !layer.gpu,
        var <= layer.simd_var_num(),
        layer.seen(layer.input_var_num(), 0, var, 0),
    ensures
        layer.start_simd_round(var).0.wf(),
{
    assert(layer.start_simd_round(var).0.insts == layer.insts);
}

proof fn lemma_start_mpi_round_wf<F: FieldEngine>(layer: LayerView<F>, var: nat)
    requires
        layer.uniform(),
        !layer.gpu,
        var <= layer.mpi_var_num(),
        layer.seen(layer.input_var_num(), 0, layer.simd_var_num(), var),
    ensures
        layer.start_mpi_round(var).0.wf(),
{
    assert(layer.start_mpi_round(var).0.insts == layer.insts);
}

/// A round large enough for the GPU is not the last one.
pub proof fn lemma_large_round<F: FieldEngine>(layer: LayerView<F>, var: nat)
    requires
        var < layer.input_var_num(),
        layer.is_large(var),
    ensures
        var + 1 < layer.input_var_num(),
{
    lemma2_to64();
}

/// The fold at the challenges of a round leaves the instances in shape, with one challenge more.
pub proof fn lemma_folded<F: FieldEngine>(
    layer: LayerView<F>,
    first: bool,
    var: nat,
    r: Seq<F::ChallengeField>,
)
    requires
        layer.uniform(),
        layer.seen_before_round(first, var),
    ensures
        shape_kept(layer, layer.folded_on_host(first, var, r)),
        shape_kept(layer, layer.folded_on_gpu(first, var, r)),
        layer.folded_on_host(first, var, r).seen_before_round(first, var + 1),
        layer.folded_on_gpu(first, var, r).seen_before_round(first, var + 1),
{
    let host = layer.folded_on_host(first, var, r);
    let gpu = layer.folded_on_gpu(first, var, r);
    assert(forall|i: int| 0 <= i < layer.insts.len() ==> (#[trigger] layer.insts[i]).wf());
    assert(shape_kept(layer, host));
    assert(shape_kept(layer, gpu));
    lemma_shape_kept(layer, host);
    lemma_shape_kept(layer, gpu);
}

/// Tables that come back or are made leave the instances in shape.
pub proof fn lemma_recovered<F: FieldEngine>(
    layer: LayerView<F>,
    first: bool,
    var: nat,
    tables: Seq<Option<Seq<u32>>>,
)
    requires
        layer.uniform(),
        layer.seen_before_round(first, var),
    ensures
        shape_kept(layer, layer.recovered(first, var)),
        shape_kept(layer, layer.tables_fetched(first, var, tables)),
        layer.recovered(first, var).seen_before_round(first, var),
        layer.tables_fetched(first, var, tables).seen_before_round(first, var),
{
    let host = layer.recovered(first, var);
    let back = layer.tables_fetched(first, var, tables);
    assert forall|i: int| 0 <= i < layer.insts.len() implies (#[trigger] host.insts[i]).wf()
        && back.insts[i].wf() by {
        let inst = layer.insts[i];
        assert(inst.wf());
        let rs = broadcasts::<F>(inst.phase_challenges(first));
        lemma_bound_len(
            with_front(inst.pad.v_evals, promoted::<F>(inst.layer.input_vals@)),
            rs,
            inst.input_var_num(),
            var,
        );
        lemma_bound_len(inst.pad.hg_evals, rs, inst.input_var_num(), var);
    }
    lemma_shape_kept(layer, host);
    assert forall|i: int| 0 <= i < layer.insts.len() implies {
        let inst = #[trigger] back.insts[i];
        &&& inst.wf()
        &&& inst.layer == layer.insts[i].layer
        &&& inst.mpi_var_num == layer.insts[i].mpi_var_num
    } by {
        assert(host.insts[i].wf());
    }
    lemma_shape_kept(layer, back);
}

/// Every step leads from a state that a layer comes through to another.
pub proof fn lemma_step_wf<F: FieldEngine>(layer: LayerView<F>, event: Event<F::ChallengeField>)
    requires
        layer.wf(),
        layer.expects(event),
    ensures
        layer.step(event).0.wf(),
{
    assert(forall|i: int| 0 <= i < layer.insts.len() ==> (#[trigger] layer.insts[i]).wf());
    match (layer.stage, event) {
        (StageView::GpuSetup { first }, Event::SetUp { ready }) => {
            let next = layer.on_gpu(ready);
            lemma_shape_kept(layer, next);
            assert(next.seen_before_round(first, 0));
            lemma_start_round_wf(next, first, 0);
        },
        (StageView::GpuEval { first, var }, Event::Evaluated { results }) => {
            lemma_shape_kept(layer, layer.step(event).0);
        },
        (StageView::GpuDownload { first, var }, Event::Downloaded { tables }) => {
            let next = layer.tables_fetched(first, var, tables);
            lemma_recovered(layer, first, var, tables);
            lemma_shape_kept(layer, next);
        },
        (StageView::Challenge { first, var }, Event::Challenged { r }) => {
            if !layer.gpu {
                let next = layer.folded_on_host(first, var, r);
                lemma_folded(layer, first, var, r);
                lemma_shape_kept(layer, next);
                lemma_start_round_wf(next, first, var + 1);
            }
        },
        (StageView::GpuReceive { first, var, r }, Event::Received { folded }) => {
            let next = layer.folded_on_gpu(first, var, r);
            lemma_large_round(layer, var);
            lemma_folded(layer, first, var, r);
            lemma_shape_kept(layer, next);
            if folded {
                lemma_start_round_wf(next, first, var + 1);
            } else {
                lemma_recovered(next, first, var + 1, Seq::empty());
                lemma_shape_kept(next, next.recovered(first, var + 1));
            }
        },
        (StageView::SimdChallenge { var }, Event::Challenged { r }) => {
            let next = layer.simd_received(var, r);
            lemma_shape_kept(layer, next);
            lemma_start_simd_round_wf(next, var + 1);
        },
        (StageView::Gather, Event::Gathered { v, hg }) => {
            let next = layer.gathered(v, hg);
            lemma_shape_kept(layer, next);
            lemma_start_mpi_round_wf(next, 0);
        },
        (StageView::MpiChallenge { var }, Event::Challenged { r }) => {
            let next = layer.mpi_received(var, r);
            lemma_shape_kept(layer, next);
            lemma_start_mpi_round_wf(next, var + 1);
        },
        (StageView::Broadcast, Event::Broadcasted { roots }) => {
            let next = layer.y_prepared(roots);
            lemma_shape_kept(layer, next);
            lemma_start_phase_wf(next, false);
        },
        _ => {},
    }
}

/// The first state of a layer is one that it comes through.
pub proof fn lemma_start_wf<F: FieldEngine>(layer: LayerView<F>)
    requires
        layer.uniform(),
        !layer.gpu,
        layer.seen(0, 0, 0, 0),
    ensures
        layer.start().0.wf(),
{
    let next = layer.prepared();
    assert(forall|i: int| 0 <= i < layer.insts.len() ==> (#[trigger] layer.insts[i]).wf());
    lemma_shape_kept(layer, next);
    lemma_start_phase_wf(next, true);
}

// ---------------------------------------------------------------------------
// Room
// ---------------------------------------------------------------------------

impl<F: FieldEngine> LayerView<F> {
    /// The scratch pads have room for layers of these sizes too.
    pub open spec fn has_room(self, inputs: nat, outputs: nat) -> bool {
        forall|i: int|
            0 <= i < self.insts.len() ==> (#[trigger] self.insts[i]).pad.holds(
                inputs,
                outputs,
                F::pack_size_spec() as nat,
                pow2(self.insts[i].mpi_var_num),
            )
    }
}

proof fn lemma_start_round_room<F: FieldEngine>(
    layer: LayerView<F>,
    first: bool,
    var: nat,
    inputs: nat,
    outputs: nat,
)
    requires
        layer.has_room(inputs, outputs),
    ensures
        layer.start_round(first, var).0.has_room(inputs, outputs),
{
    if var >= layer.input_var_num() && first {
        let prepared = LayerView {
            insts: Seq::new(layer.insts.len(), |i: int| layer.insts[i].simd_vars_prepared()),
            ..layer
        };
        assert forall|i: int| 0 <= i < prepared.insts.len() implies (
        #[trigger] prepared.insts[i]).pad.holds(
            inputs,
            outputs,
            F::pack_size_spec() as nat,
            pow2(prepared.insts[i].mpi_var_num),
        ) by {
            let inst = layer.insts[i];
            let c = F::ChallengeField::zero_spec();
            F::law_pack_size();
            F::law_unpack(inst.pad.v_evals[0], inst.pad.hg_evals[0], c, 0);
            F::law_unpack(inst.pad.hg_evals[0], inst.pad.v_evals[0], c, 0);
        }
        let next = prepared.start_simd_round(0).0;
        assert(next.insts == prepared.insts);
    } else {
        let next = layer.start_round(first, var).0;
        assert(next.insts == layer.insts);
    }
}

proof fn lemma_recovered_room<F: FieldEngine>(
    layer: LayerView<F>,
    first: bool,
    var: nat,
    tables: Seq<Option<Seq<u32>>>,
    inputs: nat,
    outputs: nat,
)
    requires
        layer.has_room(inputs, outputs),
    ensures
        layer.recovered(first, var).has_room(inputs, outputs),
        layer.tables_fetched(first, var, tables).has_room(inputs, outputs),
{
    let host = layer.recovered(first, var);
    let back = layer.tables_fetched(first, var, tables);
    let lanes = F::pack_size_spec() as nat;
    assert forall|i: int| 0 <= i < layer.insts.len() implies {
        let world = pow2(layer.insts[i].mpi_var_num);
        &&& (#[trigger] host.insts[i]).pad.holds(inputs, outputs, lanes, world)
        &&& back.insts[i].pad.holds(inputs, outputs, lanes, world)
    } by {
        let inst = layer.insts[i];
        assert(inst.pad.holds(inputs, outputs, lanes, pow2(inst.mpi_var_num)));
        let rs = broadcasts::<F>(inst.phase_challenges(first));
        lemma_bound_len(
            with_front(inst.pad.v_evals, promoted::<F>(inst.layer.input_vals@)),
            rs,
            inst.input_var_num(),
            var,
        );
        lemma_bound_len(inst.pad.hg_evals, rs, inst.input_var_num(), var);
    }
    assert forall|i: int| 0 <= i < layer.insts.len() implies (#[trigger] back.insts[i]).pad.holds(
        inputs,
        outputs,
        lanes,
        pow2(back.insts[i].mpi_var_num),
    ) by {
        assert(host.insts[i].pad.holds(inputs, outputs, lanes, pow2(layer.insts[i].mpi_var_num)));
    }
}

/// A step leaves the scratch pads the room they have.
pub proof fn lemma_step_room<F: FieldEngine>(
    layer: LayerView<F>,
    event: Event<F::ChallengeField>,
    inputs: nat,
    outputs: nat,
)
    requires
        layer.wf(),
        layer.expects(event),
        layer.has_room(inputs, outputs),
    ensures
        layer.step(event).0.has_room(inputs, outputs),
{
    let next = layer.step(event).0;
    match (layer.stage, event) {
        (StageView::GpuSetup { first }, Event::SetUp { ready }) => {
            let state = layer.on_gpu(ready);
            assert(state.insts == layer.insts);
            lemma_start_round_room(state, first, 0, inputs, outputs);
        },
        (StageView::GpuDownload { first, var }, Event::Downloaded { tables }) => {
            let state = layer.tables_fetched(first, var, tables);
            lemma_recovered_room(layer, first, var, tables, inputs, outputs);
            assert(next.insts == state.insts);
        },
        (StageView::GpuEval { .. }, Event::Evaluated { .. }) => {
            assert(next.insts == layer.insts);
        },
        (StageView::Challenge { first, var }, Event::Challenged { r }) => {
            if !layer.gpu {
                let state = layer.folded_on_host(first, var, r);
                assert(state.has_room(inputs, outputs));
                lemma_start_round_room(state, first, var + 1, inputs, outputs);
            }
        },
        (StageView::GpuReceive { first, var, r }, Event::Received { folded }) => {
            let state = layer.folded_on_gpu(first, var, r);
            assert(state.has_room(inputs, outputs));
            if folded {
                lemma_start_round_room(state, first, var + 1, inputs, outputs);
            } else {
                lemma_recovered_room(state, first, var + 1, Seq::empty(), inputs, outputs);
                assert(next.insts == state.recovered(first, var + 1).insts);
            }
        },
        (StageView::SimdChallenge { var }, Event::Challenged { r }) => {
            let state = layer.simd_received(var, r);
            assert(state.has_room(inputs, outputs));
            assert(next.insts == state.insts);
        },
        (StageView::Gather, Event::Gathered { v, hg }) => {
            let state = layer.gathered(v, hg);
            assert forall|i: int| 0 <= i < state.insts.len() implies (
            #[trigger] state.insts[i]).pad.holds(
                inputs,
                outputs,
                F::pack_size_spec() as nat,
                pow2(state.insts[i].mpi_var_num),
            ) by {
                let inst = layer.insts[i];
                assert(inst.mpi_var_num == layer.mpi_var_num());
                assert(v[i].len() >= pow2(layer.mpi_var_num()));
                assert(hg[i].len() >= pow2(layer.mpi_var_num()));
            }
            assert(next.insts == state.insts);
        },
        (StageView::MpiChallenge { var }, Event::Challenged { r }) => {
            let state = layer.mpi_received(var, r);
            assert(state.has_room(inputs, outputs));
            assert(next.insts == state.insts);
        },
        (StageView::Broadcast, Event::Broadcasted { roots }) => {
            let state = layer.y_prepared(roots);
            assert(state.has_room(inputs, outputs));
            if !state.wants_gpu() {
                lemma_start_round_room(state, false, 0, inputs, outputs);
            } else {
                assert(next.insts == state.insts);
            }
        },
        _ => {
            assert(next.insts == layer.insts);
        },
    }
}

/// So does the first step.
pub proof fn lemma_start_room<F: FieldEngine>(layer: LayerView<F>, inputs: nat, outputs: nat)
    requires
        layer.has_room(inputs, outputs),
    ensures
        layer.start().0.has_room(inputs, outputs),
{
    let state = layer.prepared();
    assert(state.has_room(inputs, outputs));
    if !state.wants_gpu() {
        lemma_start_round_room(state, true, 0, inputs, outputs);
    } else {
        assert(layer.start().0.insts == state.insts);
    }
}

/// The layers themselves do not change.
pub proof fn lemma_step_layers<F: FieldEngine>(
    layer: LayerView<F>,
    event: Event<F::ChallengeField>,
)
    ensures
        layer.step(event).0.insts.len() == layer.insts.len(),
        forall|i: int|
            0 <= i < layer.insts.len() ==> (#[trigger] layer.step(event).0.insts[i]).layer
                == layer.insts[i].layer && layer.step(event).0.insts[i].mpi_var_num
                == layer.insts[i].mpi_var_num,
{
}

} // verus!
