//! GPU dispatch of sumcheck rounds: which rounds are worth it, what the device holds, which
//! operations a round takes and how its results are read.

use vstd::prelude::*;

use crate::device::{
    check_all_succeeded, join_downloads, DeviceOp, DevicePtr, DeviceReply, DeviceStep,
};
use crate::layout::{
    convert_aos_to_simd_ext3, convert_simd_base_to_aos, convert_simd_base_to_promoted_ext3_aos,
    convert_simd_ext3_to_aos,
};
use crate::poly::{copy_vec, filled};
use crate::{device, layout};

verus! {

/// Minimum number of pairs for which a round goes to the GPU. Below it, launch overhead and
/// transfer costs make the CPU faster.
pub const GPU_DISPATCH_THRESHOLD: usize = 1024;

/// One lane's raw round sums, as three extension-field elements of three limbs each.
#[derive(Clone, Copy, Debug, PartialEq, Eq)]
pub struct GpuPolyEvalResult {
    pub p0_limbs: [u32; 3],
    pub p1_limbs: [u32; 3],
    pub p2_limbs: [u32; 3],
}

/// The start of an allocation.
pub open spec fn start_of(addr: u64) -> DevicePtr {
    DevicePtr { addr, offset: 0 }
}

/// The word `offset` words into an allocation.
pub open spec fn at(addr: u64, offset: int) -> DevicePtr {
    DevicePtr { addr, offset: offset as usize }
}

/// The step of an evaluation of one lane, with room of its own for the result.
pub open spec fn lane_eval_steps(
    d_bk_f: DevicePtr,
    d_bk_hg: DevicePtr,
    eval_size: usize,
    replies: Seq<DeviceReply>,
    step: DeviceStep<Option<GpuPolyEvalResult>>,
) -> bool {
    &&& eval_size < GPU_DISPATCH_THRESHOLD ==> step.finishes(None)
    &&& eval_size >= GPU_DISPATCH_THRESHOLD ==> {
        let n = replies.len();
        if n == 0 {
            step.runs(device::DeviceOpView::Malloc { bytes: 36 })
        } else {
            match replies[0].address() {
                None => step.finishes(None),
                Some(addr) => if n == 1 {
                    step.runs(
                        device::DeviceOpView::PolyEval {
                            bk_f: d_bk_f,
                            bk_hg: d_bk_hg,
                            result: start_of(addr),
                            eval_size: eval_size as u32,
                        },
                    )
                } else if !replies[1].succeeded() {
                    if n == 2 {
                        step.runs(device::DeviceOpView::Free { addr })
                    } else {
                        step.finishes(None)
                    }
                } else if n == 2 {
                    step.runs(device::DeviceOpView::Download { src: start_of(addr), count: 9 })
                } else if n == 3 {
                    step.runs(device::DeviceOpView::Free { addr })
                } else {
                    match replies[2].download(9) {
                        None => step.finishes(None),
                        Some(words) => {
                            &&& step is Finished
                            &&& step->Finished_0 is Some
                            &&& step->Finished_0->0.p0_limbs@ == words.subrange(0, 3)
                            &&& step->Finished_0->0.p1_limbs@ == words.subrange(3, 6)
                            &&& step->Finished_0->0.p2_limbs@ == words.subrange(6, 9)
                        },
                    }
                },
            }
        }
    }
}

/// Sums the products of one lane's pairs on the GPU: allocates room for the result, launches the
/// kernel, reads nine words back and frees the room again. There is no result when there are too
/// few pairs or when the allocation, the kernel or the copy fails.
pub fn try_gpu_poly_eval(
    d_bk_f: DevicePtr,
    d_bk_hg: DevicePtr,
    eval_size: usize,
    replies: &Vec<DeviceReply>,
) -> (step: DeviceStep<Option<GpuPolyEvalResult>>)
    ensures
        lane_eval_steps(d_bk_f, d_bk_hg, eval_size, replies@, step),
{
    if eval_size < GPU_DISPATCH_THRESHOLD {
        return DeviceStep::Finished(None);
    }
    let n: usize = replies.len();
    if n == 0 {
        return DeviceStep::Run(DeviceOp::Malloc { bytes: 36 });
    }
    let addr: u64 = match replies[0].get_address() {
        Some(addr) => addr,
        None => {
            return DeviceStep::Finished(None);
        },
    };
    let result = DevicePtr { addr, offset: 0 };
    if n == 1 {
        return DeviceStep::Run(
            DeviceOp::PolyEval {
                bk_f: d_bk_f,
                bk_hg: d_bk_hg,
                result,
                eval_size: #[verifier::truncate]
                (eval_size as u32),
            },
        );
    }
    if !replies[1].is_success() {
        return if n == 2 {
            DeviceStep::Run(DeviceOp::Free { addr })
        } else {
            DeviceStep::Finished(None)
        };
    }
    if n == 2 {
        return DeviceStep::Run(DeviceOp::Download { src: result, count: 9 });
    }
    if n == 3 {
        return DeviceStep::Run(DeviceOp::Free { addr });
    }
    match replies[2].get_download(9) {
        None => DeviceStep::Finished(None),
        Some(w) => {
            let limbs = GpuPolyEvalResult {
                p0_limbs: [w[0], w[1], w[2]],
                p1_limbs: [w[3], w[4], w[5]],
                p2_limbs: [w[6], w[7], w[8]],
            };
            assert(limbs.p0_limbs@ =~= w@.subrange(0, 3));
            assert(limbs.p1_limbs@ =~= w@.subrange(3, 6));
            assert(limbs.p2_limbs@ =~= w@.subrange(6, 9));
            DeviceStep::Finished(Some(limbs))
        },
    }
}

/// The step of a fold of one lane.
pub open spec fn lane_fold_steps(
    d_bk_f: DevicePtr,
    d_bk_hg: DevicePtr,
    d_challenge_r: DevicePtr,
    eval_size: usize,
    first_round: bool,
    d_init_v: DevicePtr,
    replies: Seq<DeviceReply>,
    step: DeviceStep<bool>,
) -> bool {
    if eval_size < GPU_DISPATCH_THRESHOLD {
        step.finishes(false)
    } else if replies.len() == 0 {
        step.runs(
            device::DeviceOpView::ReceiveChallenge {
                bk_f: d_bk_f,
                bk_hg: d_bk_hg,
                challenge: d_challenge_r,
                eval_size: eval_size as u32,
                first_round,
                init_v: d_init_v,
            },
        )
    } else {
        step.finishes(replies[0].succeeded())
    }
}

/// Folds one lane on the GPU. Fails when there are too few pairs or when the kernel does.
pub fn try_gpu_receive_challenge(
    d_bk_f: DevicePtr,
    d_bk_hg: DevicePtr,
    d_challenge_r: DevicePtr,
    eval_size: usize,
    first_round: bool,
    d_init_v: DevicePtr,
    replies: &Vec<DeviceReply>,
) -> (step: DeviceStep<bool>)
    ensures
        lane_fold_steps(
            d_bk_f,
            d_bk_hg,
            d_challenge_r,
            eval_size,
            first_round,
            d_init_v,
            replies@,
            step,
        ),
{
    if eval_size < GPU_DISPATCH_THRESHOLD {
        return DeviceStep::Finished(false);
    }
    if replies.len() == 0 {
        return DeviceStep::Run(
            DeviceOp::ReceiveChallenge {
                bk_f: d_bk_f,
                bk_hg: d_bk_hg,
                challenge: d_challenge_r,
                eval_size: #[verifier::truncate]
                (eval_size as u32),
                first_round,
                init_v: d_init_v,
            },
        );
    }
    DeviceStep::Finished(replies[0].is_success())
}

// ---------------------------------------------------------------------------
// What the device holds
// ---------------------------------------------------------------------------

/// The words uploaded when a context is set up: lane segments of the coefficient tables, of the
/// promoted wire values and of the plain wire values, instance after instance.
#[derive(Debug, PartialEq, Eq)]
pub struct ContextImage {
    pub n_instances: usize,
    pub pack_size: usize,
    pub input_size: usize,
    pub hg: Vec<u32>,
    pub bk_f: Vec<u32>,
    pub init_v: Vec<u32>,
}

/// Words one instance takes per extension-field buffer.
pub open spec fn ext3_words(pack_size: int, input_size: int) -> int {
    pack_size * input_size * 3
}

/// Words one instance takes per base-field buffer.
pub open spec fn base_words(pack_size: int, input_size: int) -> int {
    pack_size * input_size
}

/// The byte counts of a context's buffers can be represented.
pub open spec fn sizes_fit(n_instances: int, pack_size: int, input_size: int) -> bool {
    &&& input_size * 3 <= usize::MAX
    &&& n_instances * ext3_words(pack_size, input_size) * 4 <= usize::MAX
    &&& n_instances * pack_size * 9 * 4 <= usize::MAX
}

/// Checks that the byte counts of a context's buffers can be represented.
pub fn check_sizes_fit(n_instances: usize, pack_size: usize, input_size: usize) -> (r: bool)
    requires
        n_instances >= 1,
    ensures
        r == sizes_fit(n_instances as int, pack_size as int, input_size as int),
{
    let ghost (n, pack, num) = (n_instances as int, pack_size as int, input_size as int);
    proof {
        let base = pack * num;
        assert(0 <= base && base <= base * 3 && base * 3 <= n * (base * 3) && n * (base * 3) <= n
            * (base * 3) * 4) by (nonlinear_arith)
            requires
                base == pack * num,
                pack >= 0,
                num >= 0,
                n >= 1,
        ;
        assert(0 <= n * pack && n * pack <= n * pack * 9 && n * pack * 9 <= n * pack * 9 * 4)
            by (nonlinear_arith)
            requires
                pack >= 0,
                n >= 1,
        ;
    }
    if input_size.checked_mul(3).is_none() {
        return false;
    }
    let ext3_fits: bool = match pack_size.checked_mul(input_size) {
        None => false,
        Some(base) => match base.checked_mul(3) {
            None => false,
            Some(words) => match n_instances.checked_mul(words) {
                None => false,
                Some(total) => total.checked_mul(4).is_some(),
            },
        },
    };
    let results_fit: bool = match n_instances.checked_mul(pack_size) {
        None => false,
        Some(lanes) => match lanes.checked_mul(9) {
            None => false,
            Some(words) => words.checked_mul(4).is_some(),
        },
    };
    ext3_fits && results_fit
}

impl ContextImage {
    pub open spec fn wf(self) -> bool {
        &&& self.n_instances >= 1
        &&& sizes_fit(self.n_instances as int, self.pack_size as int, self.input_size as int)
        &&& self.hg@.len() == self.n_instances * ext3_words(
            self.pack_size as int,
            self.input_size as int,
        )
        &&& self.bk_f@.len() == self.hg@.len()
        &&& self.init_v@.len() == self.n_instances * base_words(
            self.pack_size as int,
            self.input_size as int,
        )
    }

    /// The part of `words` that belongs to an instance, each having `per_instance` words.
    pub open spec fn part(words: Seq<u32>, instance: int, per_instance: int) -> Seq<u32> {
        words.subrange(instance * per_instance, instance * per_instance + per_instance)
    }

    /// The image holds the lane segments of these tables for this instance.
    pub open spec fn holds(self, instance: int, hg_evals: Seq<u32>, init_v: Seq<u32>) -> bool {
        let (num, pack) = (self.input_size as int, self.pack_size as int);
        &&& Self::part(self.hg@, instance, ext3_words(pack, num)) == layout::ext3_as_lanes(
            hg_evals,
            num,
            pack,
        )
        &&& Self::part(self.bk_f@, instance, ext3_words(pack, num))
            == layout::base_as_promoted_lanes(init_v, num, pack)
        &&& Self::part(self.init_v@, instance, base_words(pack, num)) == layout::base_as_lanes(
            init_v,
            num,
            pack,
        )
    }

    /// The image of these tables, one of each kind for each instance.
    pub open spec fn lays_out(
        self,
        hg_evals: Seq<Vec<u32>>,
        init_v: Seq<Vec<u32>>,
        pack_size: usize,
        input_size: usize,
    ) -> bool {
        &&& self.wf()
        &&& self.n_instances == hg_evals.len()
        &&& self.pack_size == pack_size
        &&& self.input_size == input_size
        &&& forall|i: int|
            0 <= i < hg_evals.len() ==> self.holds(i, (#[trigger] hg_evals[i])@, init_v[i]@)
    }
}

proof fn lemma_part_bounds(i: int, n: int, per: int)
    requires
        0 <= i < n,
        0 <= per,
    ensures
        0 <= i * per,
        i * per + per <= n * per,
{
    assert(0 <= i * per && i * per + per <= n * per) by (nonlinear_arith)
        requires
            0 <= i < n,
            0 <= per,
    ;
}

/// Writing one instance's part leaves the parts before it alone.
proof fn lemma_splice_part(buffer: Seq<u32>, i: int, n: int, per: int, words: Seq<u32>)
    requires
        0 <= i < n,
        0 <= per,
        words.len() == per,
        buffer.len() == n * per,
    ensures
        ContextImage::part(layout::spliced(buffer, i * per, words), i, per) == words,
        forall|j: int|
            0 <= j < i ==> #[trigger] ContextImage::part(
                layout::spliced(buffer, i * per, words),
                j,
                per,
            ) == ContextImage::part(buffer, j, per),
{
    let after = layout::spliced(buffer, i * per, words);
    lemma_part_bounds(i, n, per);
    assert(ContextImage::part(after, i, per) =~= words);
    assert forall|j: int| 0 <= j < i implies #[trigger] ContextImage::part(after, j, per)
        == ContextImage::part(buffer, j, per) by {
        lemma_part_bounds(j, i, per);
        assert(ContextImage::part(after, j, per) =~= ContextImage::part(buffer, j, per));
    }
}

/// Persistent device buffers of several provers that run in lockstep.
///
/// Every buffer stacks the instances one after the other, each with one segment per lane.
#[derive(Clone, Copy, Debug, PartialEq, Eq)]
pub struct BatchedGpuSumcheckContext {
    /// Wire tables.
    pub d_bk_f: u64,
    /// Coefficient tables.
    pub d_bk_hg: u64,
    /// Where the next fold of the wire tables is written.
    pub d_bk_f_alt: u64,
    /// Where the next fold of the coefficient tables is written.
    pub d_bk_hg_alt: u64,
    /// Base-field wire values, read by the first fold.
    pub d_init_v: u64,
    /// One challenge per lane.
    pub d_challenge: u64,
    /// One result of nine words per lane.
    pub d_result: u64,
    pub n_instances: usize,
    pub pack_size: usize,
    /// Words between consecutive lane segments of extension-field buffers.
    pub lane_stride_ext3: usize,
    /// Words between consecutive lane segments of base-field buffers.
    pub lane_stride_base: usize,
}

impl BatchedGpuSumcheckContext {
    /// Lays out the tables of all instances for the device. There is nothing to lay out without
    /// instances, or when the two lists differ in length.
    pub fn image(
        hg_evals: &Vec<Vec<u32>>,
        init_v: &Vec<Vec<u32>>,
        pack_size: usize,
        input_size: usize,
    ) -> (r: Option<ContextImage>)
        requires
            sizes_fit(hg_evals@.len() as int, pack_size as int, input_size as int),
            forall|i: int|
                0 <= i < hg_evals@.len() ==> input_size * 3 * pack_size <= (
                #[trigger] hg_evals@[i])@.len(),
            forall|i: int|
                0 <= i < init_v@.len() ==> input_size * pack_size <= (#[trigger] init_v@[i])@.len(),
        ensures
            r is Some <==> hg_evals@.len() != 0 && init_v@.len() == hg_evals@.len(),
            r is Some ==> r->0.lays_out(hg_evals@, init_v@, pack_size, input_size),
    {
        if hg_evals.len() == 0 || init_v.len() != hg_evals.len() {
            return None;
        }
        Some(Self::lay_out(hg_evals, init_v, pack_size, input_size))
    }

    fn lay_out(
        hg_evals: &Vec<Vec<u32>>,
        init_v: &Vec<Vec<u32>>,
        pack_size: usize,
        input_size: usize,
    ) -> (image: ContextImage)
        requires
            hg_evals@.len() >= 1,
            init_v@.len() == hg_evals@.len(),
            sizes_fit(hg_evals@.len() as int, pack_size as int, input_size as int),
            forall|i: int|
                0 <= i < hg_evals@.len() ==> input_size * 3 * pack_size <= (
                #[trigger] hg_evals@[i])@.len(),
            forall|i: int|
                0 <= i < init_v@.len() ==> input_size * pack_size <= (#[trigger] init_v@[i])@.len(),
        ensures
            image.lays_out(hg_evals@, init_v@, pack_size, input_size),
    {
        let n: usize = hg_evals.len();
        let ghost (num, pack) = (input_size as int, pack_size as int);
        let ghost (per_ext3, per_base) = (ext3_words(pack, num), base_words(pack, num));
        proof {
            assert(0 <= pack * num && pack * num <= pack * num * 3 && pack * num * 3 == num * 3
                * pack) by (nonlinear_arith)
                requires
                    0 <= pack,
                    0 <= num,
            ;
            assert(pack * num == num * pack) by (nonlinear_arith);
            assert(per_ext3 <= n * per_ext3) by (nonlinear_arith)
                requires
                    n >= 1,
                    per_ext3 >= 0,
            ;
            assert(0 <= n * per_base <= n * per_ext3) by (nonlinear_arith)
                requires
                    0 <= per_base <= per_ext3,
                    n >= 0,
            ;
        }
        let per_instance_base: usize = pack_size * input_size;
        let per_instance_ext3: usize = per_instance_base * 3;
        let total_ext3: usize = n * per_instance_ext3;
        let total_base: usize = n * per_instance_base;
        let mut hg: Vec<u32> = filled(0, total_ext3);
        let mut bk_f: Vec<u32> = filled(0, total_ext3);
        let mut init: Vec<u32> = filled(0, total_base);
        for i in 0..n
            invariant
                n == hg_evals@.len(),
                n == init_v@.len(),
                num == input_size,
                pack == pack_size,
                per_ext3 == ext3_words(pack, num),
                per_base == base_words(pack, num),
                per_instance_ext3 == per_ext3,
                per_instance_base == per_base,
                0 <= per_base,
                0 <= per_ext3,
                pack * num * 3 == num * 3 * pack,
                pack * num == num * pack,
                total_ext3 == n * per_ext3,
                total_base == n * per_base,
                hg@.len() == total_ext3,
                bk_f@.len() == total_ext3,
                init@.len() == total_base,
                forall|j: int|
                    0 <= j < hg_evals@.len() ==> input_size * 3 * pack_size <= (
                    #[trigger] hg_evals@[j])@.len(),
                forall|j: int|
                    0 <= j < init_v@.len() ==> input_size * pack_size <= (
                    #[trigger] init_v@[j])@.len(),
                forall|j: int|
                    0 <= j < i ==> ContextImage::part(hg@, j, per_ext3) == layout::ext3_as_lanes(
                        (#[trigger] hg_evals@[j])@,
                        num,
                        pack,
                    ),
                forall|j: int|
                    0 <= j < i ==> ContextImage::part(bk_f@, j, per_ext3)
                        == layout::base_as_promoted_lanes((#[trigger] init_v@[j])@, num, pack),
                forall|j: int|
                    0 <= j < i ==> ContextImage::part(init@, j, per_base) == layout::base_as_lanes(
                        (#[trigger] init_v@[j])@,
                        num,
                        pack,
                    ),
        {
            proof {
                lemma_part_bounds(i as int, n as int, per_ext3);
                lemma_part_bounds(i as int, n as int, per_base);
                lemma_splice_part(
                    hg@,
                    i as int,
                    n as int,
                    per_ext3,
                    layout::ext3_as_lanes(hg_evals@[i as int]@, num, pack),
                );
                lemma_splice_part(
                    bk_f@,
                    i as int,
                    n as int,
                    per_ext3,
                    layout::base_as_promoted_lanes(init_v@[i as int]@, num, pack),
                );
                lemma_splice_part(
                    init@,
                    i as int,
                    n as int,
                    per_base,
                    layout::base_as_lanes(init_v@[i as int]@, num, pack),
                );
            }
            let off_ext3: usize = i * per_instance_ext3;
            let off_base: usize = i * per_instance_base;
            convert_simd_ext3_to_aos(&hg_evals[i], &mut hg, off_ext3, input_size, pack_size);
            convert_simd_base_to_promoted_ext3_aos(
                &init_v[i],
                &mut bk_f,
                off_ext3,
                input_size,
                pack_size,
            );
            convert_simd_base_to_aos(&init_v[i], &mut init, off_base, input_size, pack_size);
        }
        let image = ContextImage { n_instances: n, pack_size, input_size, hg, bk_f, init_v: init };
        proof {
            assert forall|i: int| 0 <= i < hg_evals@.len() implies image.holds(
                i,
                (#[trigger] hg_evals@[i])@,
                init_v@[i]@,
            ) by {
                assert(init_v@[i]@.len() >= 0);
            }
        }
        image
    }
}

// ---------------------------------------------------------------------------
// Setting a context up
// ---------------------------------------------------------------------------

/// Bytes of the `k`-th buffer that a context allocates.
pub open spec fn buffer_bytes(n_instances: int, pack_size: int, input_size: int, k: int) -> int {
    if k < 4 {
        n_instances * ext3_words(pack_size, input_size) * 4
    } else if k == 4 {
        n_instances * base_words(pack_size, input_size) * 4
    } else if k == 5 {
        n_instances * pack_size * 3 * 4
    } else {
        n_instances * pack_size * 9 * 4
    }
}

/// The `k`-th operation of a setup succeeded: seven allocations come first, then three uploads.
pub open spec fn setup_reply_good(reply: DeviceReply, k: int) -> bool {
    if k < 7 {
        reply.address() is Some
    } else {
        reply.succeeded()
    }
}

/// How many of the first `n` setup operations succeeded before one failed.
pub open spec fn setup_progress(replies: Seq<DeviceReply>, n: nat) -> nat
    decreases n,
{
    if n == 0 {
        0
    } else {
        let before = setup_progress(replies, (n - 1) as nat);
        if before == n - 1 && setup_reply_good(replies[n - 1], n - 1) {
            n
        } else {
            before
        }
    }
}

/// The `k`-th operation of a setup, where all before it succeeded.
pub open spec fn setup_op(
    image: ContextImage,
    replies: Seq<DeviceReply>,
    k: int,
) -> device::DeviceOpView {
    if k < 7 {
        device::DeviceOpView::Malloc {
            bytes: buffer_bytes(
                image.n_instances as int,
                image.pack_size as int,
                image.input_size as int,
                k,
            ) as usize,
        }
    } else if k == 7 {
        device::DeviceOpView::Upload {
            dst: start_of(replies[0].address()->0),
            words: image.bk_f@,
        }
    } else if k == 8 {
        device::DeviceOpView::Upload { dst: start_of(replies[1].address()->0), words: image.hg@ }
    } else {
        device::DeviceOpView::Upload {
            dst: start_of(replies[4].address()->0),
            words: image.init_v@,
        }
    }
}

/// The context that a complete setup gives.
pub open spec fn setup_context(
    image: ContextImage,
    replies: Seq<DeviceReply>,
) -> BatchedGpuSumcheckContext {
    BatchedGpuSumcheckContext {
        d_bk_f: replies[0].address()->0,
        d_bk_hg: replies[1].address()->0,
        d_bk_f_alt: replies[2].address()->0,
        d_bk_hg_alt: replies[3].address()->0,
        d_init_v: replies[4].address()->0,
        d_challenge: replies[5].address()->0,
        d_result: replies[6].address()->0,
        n_instances: image.n_instances,
        pack_size: image.pack_size,
        lane_stride_ext3: (image.input_size * 3) as usize,
        lane_stride_base: image.input_size,
    }
}

/// The step of a setup: the next operation while all goes well, then the context. After a
/// failure, what was allocated is freed, newest first, and there is no context.
pub open spec fn setup_steps(
    image: ContextImage,
    replies: Seq<DeviceReply>,
    step: DeviceStep<Option<BatchedGpuSumcheckContext>>,
) -> bool {
    let seen = if replies.len() < 10 {
        replies.len()
    } else {
        10
    };
    let good = setup_progress(replies, seen);
    if good == 10 {
        step.finishes(Some(setup_context(image, replies)))
    } else if good == seen {
        step.runs(setup_op(image, replies, seen as int))
    } else {
        let allocated = if good < 7 {
            good as int
        } else {
            7
        };
        let freed = replies.len() - (good + 1);
        if freed < allocated {
            step.runs(
                device::DeviceOpView::Free { addr: replies[allocated - 1 - freed].address()->0 },
            )
        } else {
            step.finishes(None)
        }
    }
}

/// The operations before the first failure succeeded, and the one after them did not.
pub proof fn lemma_setup_progress(replies: Seq<DeviceReply>, n: nat)
    ensures
        setup_progress(replies, n) <= n,
        forall|k: int|
            0 <= k < setup_progress(replies, n) ==> setup_reply_good(#[trigger] replies[k], k),
        setup_progress(replies, n) < n ==> !setup_reply_good(
            replies[setup_progress(replies, n) as int],
            setup_progress(replies, n) as int,
        ),
    decreases n,
{
    if n > 0 {
        lemma_setup_progress(replies, (n - 1) as nat);
    }
}

/// Counts how many of the first `n` setup operations succeeded before one failed.
fn count_setup_progress(replies: &Vec<DeviceReply>, n: usize) -> (r: usize)
    requires
        n <= replies@.len(),
        n <= 10,
    ensures
        r == setup_progress(replies@, n as nat),
{
    let mut good: usize = 0;
    for k in 0..n
        invariant
            n <= replies@.len(),
            good == setup_progress(replies@, k as nat),
            good <= k,
    {
        if good == k {
            let ok = if k < 7 {
                replies[k].get_address().is_some()
            } else {
                replies[k].is_success()
            };
            if ok {
                good = good + 1;
            }
        }
    }
    good
}

proof fn lemma_sizes(n: int, pack: int, num: int)
    requires
        sizes_fit(n, pack, num),
        n >= 1,
        pack >= 0,
        num >= 0,
    ensures
        0 <= pack * num,
        pack * num * 3 * 4 <= usize::MAX,
        0 <= n * (pack * num),
        n * (pack * num) * 4 <= n * (pack * num * 3) * 4,
        0 <= n * pack,
        n * pack <= n * pack * 3 * 4 <= n * pack * 9 * 4 <= usize::MAX,
        n * (pack * num * 3) == n * pack * (num * 3),
        n * (pack * num) == n * pack * num,
{
    assert(0 <= pack * num) by (nonlinear_arith)
        requires
            pack >= 0,
            num >= 0,
    ;
    let base = pack * num;
    assert(base * 3 * 4 <= n * (base * 3) * 4 && 0 <= n * base && n * base * 4 <= n * (base * 3)
        * 4) by (nonlinear_arith)
        requires
            n >= 1,
            base >= 0,
    ;
    assert(0 <= n * pack) by (nonlinear_arith)
        requires
            n >= 1,
            pack >= 0,
    ;
    assert(n * (pack * num * 3) == n * pack * (num * 3)) by (nonlinear_arith);
    assert(n * (pack * num) == n * pack * num) by (nonlinear_arith);
}

impl BatchedGpuSumcheckContext {
    /// The strides belong together and the buffers' sizes can be represented.
    pub open spec fn wf(self) -> bool {
        &&& self.n_instances >= 1
        &&& self.lane_stride_ext3 == self.lane_stride_base * 3
        &&& sizes_fit(self.n_instances as int, self.pack_size as int, self.lane_stride_base as int)
    }

    /// Allocates device memory for the instances of an image and uploads it.
    pub fn new(image: &ContextImage, replies: &Vec<DeviceReply>) -> (step: DeviceStep<Option<Self>>)
        requires
            image.wf(),
        ensures
            setup_steps(*image, replies@, step),
            step is Finished && step->Finished_0 is Some ==> step->Finished_0->0.wf(),
    {
        let (n, pack, num) = (image.n_instances, image.pack_size, image.input_size);
        proof {
            lemma_sizes(n as int, pack as int, num as int);
        }
        let len: usize = replies.len();
        let seen: usize = if len < 10 {
            len
        } else {
            10
        };
        let good: usize = count_setup_progress(replies, seen);
        proof {
            lemma_setup_progress(replies@, seen as nat);
        }
        if good < seen {
            let allocated: usize = if good < 7 {
                good
            } else {
                7
            };
            let freed: usize = len - (good + 1);
            if freed < allocated {
                let k: usize = allocated - 1 - freed;
                assert(setup_reply_good(replies@[k as int], k as int));
                return match replies[k].get_address() {
                    Some(addr) => DeviceStep::Run(DeviceOp::Free { addr }),
                    None => DeviceStep::Finished(None),
                };
            }
            return DeviceStep::Finished(None);
        }
        if good < 7 {
            let bytes: usize = if good < 4 {
                n * (pack * num * 3) * 4
            } else if good == 4 {
                n * (pack * num) * 4
            } else if good == 5 {
                n * pack * 3 * 4
            } else {
                n * pack * 9 * 4
            };
            return DeviceStep::Run(DeviceOp::Malloc { bytes });
        }
        let mut addrs: [u64; 7] = [0;7];
        for k in 0..7
            invariant
                seen <= replies@.len(),
                good == seen,
                7 <= seen,
                forall|j: int|
                    0 <= j < good ==> setup_reply_good(#[trigger] replies@[j], j),
                forall|j: int|
                    0 <= j < k ==> #[trigger] addrs@[j] == replies@[j].address()->0,
        {
            assert(setup_reply_good(replies@[k as int], k as int));
            if let Some(addr) = replies[k].get_address() {
                addrs[k] = addr;
            }
        }
        if good == 7 {
            return DeviceStep::Run(
                DeviceOp::Upload {
                    dst: DevicePtr { addr: addrs[0], offset: 0 },
                    words: copy_vec(&image.bk_f),
                },
            );
        }
        if good == 8 {
            return DeviceStep::Run(
                DeviceOp::Upload {
                    dst: DevicePtr { addr: addrs[1], offset: 0 },
                    words: copy_vec(&image.hg),
                },
            );
        }
        if good == 9 {
            return DeviceStep::Run(
                DeviceOp::Upload {
                    dst: DevicePtr { addr: addrs[4], offset: 0 },
                    words: copy_vec(&image.init_v),
                },
            );
        }
        DeviceStep::Finished(
            Some(
                BatchedGpuSumcheckContext {
                    d_bk_f: addrs[0],
                    d_bk_hg: addrs[1],
                    d_bk_f_alt: addrs[2],
                    d_bk_hg_alt: addrs[3],
                    d_init_v: addrs[4],
                    d_challenge: addrs[5],
                    d_result: addrs[6],
                    n_instances: n,
                    pack_size: pack,
                    lane_stride_ext3: num * 3,
                    lane_stride_base: num,
                },
            ),
        )
    }
}

impl BatchedGpuSumcheckContext {
    /// The kernels' batch dimension.
    pub open spec fn total_batch_spec(self) -> int {
        self.n_instances * self.pack_size
    }

    /// Total kernel batch dimension: one for each lane of each instance.
    pub fn total_batch(&self) -> (r: usize)
        requires
            self.wf(),
        ensures
            r == self.total_batch_spec(),
    {
        proof {
            lemma_sizes(
                self.n_instances as int,
                self.pack_size as int,
                self.lane_stride_base as int,
            );
        }
        self.n_instances * self.pack_size
    }

    pub fn n_instances(&self) -> (r: usize)
        ensures
            r == self.n_instances,
    {
        self.n_instances
    }

    /// Whether `eval_size` is large enough to benefit from GPU dispatch.
    pub fn should_use_gpu(&self, eval_size: usize) -> (r: bool)
        ensures
            r <==> eval_size >= GPU_DISPATCH_THRESHOLD,
    {
        eval_size >= GPU_DISPATCH_THRESHOLD
    }

    /// The decoded results hold each lane's nine words, and zeros past the last lane.
    pub open spec fn decodes(
        n_instances: int,
        pack_size: int,
        words: Seq<u32>,
        results: Seq<[[u32; 9]; 16]>,
    ) -> bool {
        &&& results.len() == n_instances
        &&& forall|i: int, lane: int, c: int|
            0 <= i < n_instances && 0 <= lane < 16 && 0 <= c < 9
                ==> #[trigger] results[i]@[lane]@[c] == if lane < pack_size {
                words[(i * pack_size + lane) * 9 + c]
            } else {
                0
            }
    }

    /// The step of an evaluation: one kernel over all lanes, one copy of their results.
    pub open spec fn poly_eval_steps(
        self,
        eval_size: usize,
        replies: Seq<DeviceReply>,
        step: DeviceStep<Option<Vec<[[u32; 9]; 16]>>>,
    ) -> bool {
        let count = (self.total_batch_spec() * 9) as usize;
        if replies.len() == 0 {
            step.runs(
                device::DeviceOpView::PolyEvalBatched {
                    bk_f: start_of(self.d_bk_f),
                    bk_hg: start_of(self.d_bk_hg),
                    result: start_of(self.d_result),
                    eval_size: eval_size as u32,
                    batch_size: self.total_batch_spec() as usize as u32,
                    stride: self.lane_stride_ext3 as u32,
                },
            )
        } else if !replies[0].succeeded() {
            step.finishes(None)
        } else if replies.len() == 1 {
            step.runs(device::DeviceOpView::Download { src: start_of(self.d_result), count })
        } else {
            match replies[1].download(count as nat) {
                None => step.finishes(None),
                Some(words) => {
                    &&& step is Finished
                    &&& step->Finished_0 is Some
                    &&& Self::decodes(
                        self.n_instances as int,
                        self.pack_size as int,
                        words,
                        step->Finished_0->0@,
                    )
                },
            }
        }
    }

    /// Sums the products of all lanes' pairs in one dispatch. The result of instance `i`'s lane
    /// holds three limbs for each of the three sums.
    pub fn poly_eval_at(&self, eval_size: usize, replies: &Vec<DeviceReply>) -> (step: DeviceStep<
        Option<Vec<[[u32; 9]; 16]>>,
    >)
        requires
            self.wf(),
            self.pack_size <= 16,
        ensures
            self.poly_eval_steps(eval_size, replies@, step),
    {
        let (n, pack) = (self.n_instances, self.pack_size);
        let total: usize = self.total_batch();
        proof {
            lemma_sizes(n as int, pack as int, self.lane_stride_base as int);
        }
        if replies.len() == 0 {
            return DeviceStep::Run(
                DeviceOp::PolyEvalBatched {
                    bk_f: DevicePtr { addr: self.d_bk_f, offset: 0 },
                    bk_hg: DevicePtr { addr: self.d_bk_hg, offset: 0 },
                    result: DevicePtr { addr: self.d_result, offset: 0 },
                    eval_size: #[verifier::truncate]
                    (eval_size as u32),
                    batch_size: #[verifier::truncate]
                    (total as u32),
                    stride: #[verifier::truncate]
                    (self.lane_stride_ext3 as u32),
                },
            );
        }
        if !replies[0].is_success() {
            return DeviceStep::Finished(None);
        }
        let count: usize = total * 9;
        if replies.len() == 1 {
            return DeviceStep::Run(
                DeviceOp::Download { src: DevicePtr { addr: self.d_result, offset: 0 }, count },
            );
        }
        match replies[1].get_download(count) {
            None => DeviceStep::Finished(None),
            Some(words) => DeviceStep::Finished(Some(decode_results(words, n, pack))),
        }
    }
}

/// Splits a block of results into instances and lanes.
fn decode_results(words: &Vec<u32>, n: usize, pack: usize) -> (out: Vec<[[u32; 9]; 16]>)
    requires
        words@.len() == n * pack * 9,
        pack <= 16,
    ensures
        BatchedGpuSumcheckContext::decodes(n as int, pack as int, words@, out@),
{
    let ghost len = words@.len();
    let mut out: Vec<[[u32; 9]; 16]> = Vec::new();
    let total: usize = words.len() / 9;
    assert(total == n * pack);
    for i in 0..n
        invariant
            words@.len() == n * pack * 9,
            total == n * pack,
            total * 9 == words@.len(),
            words@.len() <= usize::MAX,
            pack <= 16,
            BatchedGpuSumcheckContext::decodes(i as int, pack as int, words@, out@),
    {
        proof {
            lemma_part_bounds(i as int, n as int, pack as int);
        }
        let mut lanes: [[u32; 9]; 16] = [[0;9];16];
        for lane in 0..pack
            invariant
                words@.len() == n * pack * 9,
                total == n * pack,
                total * 9 == words@.len(),
                words@.len() <= usize::MAX,
                pack <= 16,
                0 <= i * pack,
                i * pack + pack <= n * pack,
                forall|l: int, c: int|
                    0 <= l < 16 && 0 <= c < 9 ==> #[trigger] lanes@[l]@[c] == if l < lane {
                        words@[(i * pack + l) * 9 + c]
                    } else {
                        0
                    },
        {
            let at: usize = (i * pack + lane) * 9;
            let row: [u32; 9] = [
                words[at],
                words[at + 1],
                words[at + 2],
                words[at + 3],
                words[at + 4],
                words[at + 5],
                words[at + 6],
                words[at + 7],
                words[at + 8],
            ];
            lanes[lane] = row;
        }
        out.push(lanes);
    }
    out
}

// ---------------------------------------------------------------------------
// Folding
// ---------------------------------------------------------------------------

/// Challenges as lists of limbs.
pub open spec fn limb_lists(r: Seq<[u32; 3]>) -> Seq<Seq<u32>> {
    Seq::new(r.len(), |i: int| r[i]@)
}

/// The step of a procedure that runs `ops` one after the other and stops at the first failure.
pub open spec fn in_order(
    step: DeviceStep<bool>,
    ops: Seq<device::DeviceOpView>,
    replies: Seq<DeviceReply>,
) -> bool {
    let seen = if replies.len() < ops.len() {
        replies.len()
    } else {
        ops.len()
    };
    if !device::all_succeeded(replies, seen as int) {
        step.finishes(false)
    } else if seen < ops.len() {
        step.runs(ops[seen as int])
    } else {
        step.finishes(true)
    }
}

impl BatchedGpuSumcheckContext {
    /// The first fold reads base-field values, which only the kernel for single lanes does: each
    /// instance's challenge is uploaded, then its lanes are folded one by one.
    pub open spec fn first_fold_ops(self, eval_size: usize, r: Seq<Seq<u32>>) -> Seq<
        device::DeviceOpView,
    > {
        Seq::new(
            (self.n_instances * (1 + self.pack_size)) as nat,
            |k: int|
                {
                    let (i, j) = (k / (1 + self.pack_size), k % (1 + self.pack_size));
                    if j == 0 {
                        device::DeviceOpView::Upload {
                            dst: start_of(self.d_challenge),
                            words: r[i],
                        }
                    } else {
                        let lane = i * self.pack_size + (j - 1);
                        device::DeviceOpView::ReceiveChallenge {
                            bk_f: at(self.d_bk_f, lane * self.lane_stride_ext3),
                            bk_hg: at(self.d_bk_hg, lane * self.lane_stride_ext3),
                            challenge: start_of(self.d_challenge),
                            eval_size: eval_size as u32,
                            first_round: true,
                            init_v: at(self.d_init_v, lane * self.lane_stride_base),
                        }
                    }
                },
        )
    }

    /// Each instance's challenge, once for each of its lanes.
    pub open spec fn replicated(self, r: Seq<Seq<u32>>) -> Seq<u32> {
        Seq::new(
            (self.total_batch_spec() * 3) as nat,
            |w: int| r[w / 3 / (self.pack_size as int)][w % 3],
        )
    }

    /// Later folds take one dispatch over all lanes, from one pair of buffers into the other.
    pub open spec fn later_fold_ops(self, eval_size: usize, r: Seq<Seq<u32>>) -> Seq<
        device::DeviceOpView,
    > {
        seq![
            device::DeviceOpView::Upload {
                dst: start_of(self.d_challenge),
                words: self.replicated(r),
            },
            device::DeviceOpView::ReceiveChallengeBatched {
                bk_f: start_of(self.d_bk_f),
                bk_hg: start_of(self.d_bk_hg),
                bk_f_out: start_of(self.d_bk_f_alt),
                bk_hg_out: start_of(self.d_bk_hg_alt),
                challenge: start_of(self.d_challenge),
                eval_size: eval_size as u32,
                batch_size: self.total_batch_spec() as usize as u32,
                stride: self.lane_stride_ext3 as u32,
            },
        ]
    }

    /// The operations of a fold.
    pub open spec fn fold_ops(self, eval_size: usize, var_idx: usize, r: Seq<Seq<u32>>) -> Seq<
        device::DeviceOpView,
    > {
        if var_idx == 0 {
            self.first_fold_ops(eval_size, r)
        } else {
            self.later_fold_ops(eval_size, r)
        }
    }

    /// The step of a fold.
    pub open spec fn fold_steps(
        self,
        eval_size: usize,
        var_idx: usize,
        r: Seq<Seq<u32>>,
        replies: Seq<DeviceReply>,
        step: DeviceStep<bool>,
    ) -> bool {
        if r.len() != self.n_instances {
            step.finishes(false)
        } else {
            in_order(step, self.fold_ops(eval_size, var_idx, r), replies)
        }
    }

    /// The context once a fold has come to `done`: a later fold leaves its output in the other
    /// pair of buffers, and the pairs change places.
    pub open spec fn after_fold(self, var_idx: usize, done: bool) -> Self {
        if done && var_idx != 0 {
            BatchedGpuSumcheckContext {
                d_bk_f: self.d_bk_f_alt,
                d_bk_hg: self.d_bk_hg_alt,
                d_bk_f_alt: self.d_bk_f,
                d_bk_hg_alt: self.d_bk_hg,
                ..self
            }
        } else {
            self
        }
    }

    fn first_fold_op(&self, eval_size: usize, r: &Vec<[u32; 3]>, k: usize) -> (op: DeviceOp)
        requires
            self.wf(),
            r@.len() == self.n_instances,
            k < self.n_instances * (1 + self.pack_size),
            self.pack_size < usize::MAX,
        ensures
            op@ == self.first_fold_ops(eval_size, limb_lists(r@))[k as int],
    {
        let (n, pack) = (self.n_instances, self.pack_size);
        let width: usize = 1 + pack;
        let i: usize = k / width;
        let j: usize = k % width;
        proof {
            lemma_sizes(n as int, pack as int, self.lane_stride_base as int);
            assert(k < width * n) by (nonlinear_arith)
                requires
                    k < n * width,
            ;
            vstd::arithmetic::div_mod::lemma_multiply_divide_lt(k as int, width as int, n as int);
        }
        let challenge = DevicePtr { addr: self.d_challenge, offset: 0 };
        if j == 0 {
            let limbs: [u32; 3] = r[i];
            let words: Vec<u32> = vec![limbs[0], limbs[1], limbs[2]];
            assert(words@ == r@[i as int]@);
            return DeviceOp::Upload { dst: challenge, words };
        }
        proof {
            lemma_part_bounds(i as int, n as int, pack as int);
            let lane = i * pack + (j - 1);
            let total = n * pack;
            assert(0 <= lane < total);
            let (s3, s1) = (self.lane_stride_ext3 as int, self.lane_stride_base as int);
            assert(0 <= lane * s3 <= total * s3 && 0 <= lane * s1 <= total * s1)
                by (nonlinear_arith)
                requires
                    0 <= lane < total,
                    s3 >= 0,
                    s1 >= 0,
            ;
        }
        let lane: usize = i * pack + (j - 1);
        DeviceOp::ReceiveChallenge {
            bk_f: DevicePtr { addr: self.d_bk_f, offset: lane * self.lane_stride_ext3 },
            bk_hg: DevicePtr { addr: self.d_bk_hg, offset: lane * self.lane_stride_ext3 },
            challenge,
            eval_size: #[verifier::truncate]
            (eval_size as u32),
            first_round: true,
            init_v: DevicePtr { addr: self.d_init_v, offset: lane * self.lane_stride_base },
        }
    }

    fn replicate(&self, r: &Vec<[u32; 3]>) -> (words: Vec<u32>)
        requires
            self.wf(),
            r@.len() == self.n_instances,
        ensures
            words@ == self.replicated(limb_lists(r@)),
    {
        let pack: usize = self.pack_size;
        let total: usize = self.total_batch();
        proof {
            lemma_sizes(
                self.n_instances as int,
                pack as int,
                self.lane_stride_base as int,
            );
        }
        let mut words: Vec<u32> = Vec::new();
        for w in 0..total * 3
            invariant
                total == self.total_batch_spec(),
                total == self.n_instances * self.pack_size,
                pack == self.pack_size,
                r@.len() == self.n_instances,
                total * 3 <= usize::MAX,
                words@ == self.replicated(limb_lists(r@)).take(w as int),
        {
            proof {
                assert(pack > 0) by (nonlinear_arith)
                    requires
                        w < total * 3,
                        total == self.n_instances * pack,
                        pack >= 0,
                ;
                assert(w / 3 < pack * self.n_instances) by (nonlinear_arith)
                    requires
                        w < total * 3,
                        total == self.n_instances * pack,
                ;
                vstd::arithmetic::div_mod::lemma_multiply_divide_lt(
                    (w / 3) as int,
                    pack as int,
                    self.n_instances as int,
                );
            }
            let limbs: [u32; 3] = r[w / 3 / pack];
            words.push(limbs[w % 3]);
            assert(self.replicated(limb_lists(r@)).take(w + 1) == self.replicated(limb_lists(r@)).take(w as int).push(
                self.replicated(limb_lists(r@))[w as int],
            ));
        }
        assert(self.replicated(limb_lists(r@)).take(total * 3) == self.replicated(limb_lists(r@)));
        words
    }

    /// Folds all lanes of all instances at their challenges, one for each instance.
    pub fn receive_challenge(
        &mut self,
        eval_size: usize,
        var_idx: usize,
        r_limbs_per_instance: &Vec<[u32; 3]>,
        replies: &Vec<DeviceReply>,
    ) -> (step: DeviceStep<bool>)
        requires
            old(self).wf(),
            old(self).pack_size < usize::MAX,
        ensures
            old(self).fold_steps(
                eval_size,
                var_idx,
                limb_lists(r_limbs_per_instance@),
                replies@,
                step,
            ),
            *final(self) == old(self).after_fold(var_idx, step.finishes(true)),
            final(self).wf(),
    {
        let r: &Vec<[u32; 3]> = r_limbs_per_instance;
        let (n, pack) = (self.n_instances, self.pack_size);
        if r.len() != n {
            return DeviceStep::Finished(false);
        }
        let total: usize = self.total_batch();
        let len: usize = replies.len();
        if var_idx == 0 {
            proof {
                lemma_sizes(n as int, pack as int, self.lane_stride_base as int);
                assert(n * (1 + pack) == n + n * pack && (n <= n * pack || pack == 0))
                    by (nonlinear_arith)
                    requires
                        n >= 0,
                        pack >= 0,
                ;
                assert(pack == 0 ==> n * pack == 0) by (nonlinear_arith);
            }
            let count: usize = n * (1 + pack);
            let seen: usize = if len < count {
                len
            } else {
                count
            };
            if !check_all_succeeded(replies, seen) {
                return DeviceStep::Finished(false);
            }
            if seen < count {
                return DeviceStep::Run(self.first_fold_op(eval_size, r, seen));
            }
            return DeviceStep::Finished(true);
        }
        let seen: usize = if len < 2 {
            len
        } else {
            2
        };
        if !check_all_succeeded(replies, seen) {
            return DeviceStep::Finished(false);
        }
        let challenge = DevicePtr { addr: self.d_challenge, offset: 0 };
        if seen == 0 {
            return DeviceStep::Run(DeviceOp::Upload { dst: challenge, words: self.replicate(r) });
        }
        if seen == 1 {
            return DeviceStep::Run(
                DeviceOp::ReceiveChallengeBatched {
                    bk_f: DevicePtr { addr: self.d_bk_f, offset: 0 },
                    bk_hg: DevicePtr { addr: self.d_bk_hg, offset: 0 },
                    bk_f_out: DevicePtr { addr: self.d_bk_f_alt, offset: 0 },
                    bk_hg_out: DevicePtr { addr: self.d_bk_hg_alt, offset: 0 },
                    challenge,
                    eval_size: #[verifier::truncate]
                    (eval_size as u32),
                    batch_size: #[verifier::truncate]
                    (total as u32),
                    stride: #[verifier::truncate]
                    (self.lane_stride_ext3 as u32),
                },
            );
        }
        let (f, hg) = (self.d_bk_f, self.d_bk_hg);
        self.d_bk_f = self.d_bk_f_alt;
        self.d_bk_hg = self.d_bk_hg_alt;
        self.d_bk_f_alt = f;
        self.d_bk_hg_alt = hg;
        DeviceStep::Finished(true)
    }
}

// ---------------------------------------------------------------------------
// Back to the host
// ---------------------------------------------------------------------------

impl BatchedGpuSumcheckContext {
    /// The step of a download of the first `num_elems` elements of each lane of an instance: the
    /// lane segments are copied one by one, then put back into the prover's layout.
    pub open spec fn download_steps(
        self,
        addr: u64,
        instance: usize,
        num_elems: usize,
        replies: Seq<DeviceReply>,
        step: DeviceStep<Option<Vec<u32>>>,
    ) -> bool {
        let pack = self.pack_size as nat;
        let count = (num_elems * 3) as usize;
        let seen = if replies.len() < pack {
            replies.len()
        } else {
            pack
        };
        if instance >= self.n_instances {
            step.finishes(None)
        } else if !device::all_downloaded(replies, seen as int, count as nat) {
            step.finishes(None)
        } else if seen < pack {
            step.runs(
                device::DeviceOpView::Download {
                    src: at(addr, (instance * self.pack_size + seen) * self.lane_stride_ext3),
                    count,
                },
            )
        } else {
            &&& step is Finished
            &&& step->Finished_0 is Some
            &&& step->Finished_0->0@ == layout::lanes_as_ext3(
                device::joined_downloads(replies, pack, count as nat),
                num_elems as int,
                self.pack_size as int,
            )
        }
    }

    fn download_instance_ext3(
        &self,
        addr: u64,
        instance: usize,
        num_elems: usize,
        replies: &Vec<DeviceReply>,
    ) -> (step: DeviceStep<Option<Vec<u32>>>)
        requires
            self.wf(),
            instance < self.n_instances ==> num_elems <= self.lane_stride_base,
        ensures
            self.download_steps(addr, instance, num_elems, replies@, step),
    {
        let (n, pack) = (self.n_instances, self.pack_size);
        if instance >= n {
            return DeviceStep::Finished(None);
        }
        let count: usize = num_elems * 3;
        let len: usize = replies.len();
        let seen: usize = if len < pack {
            len
        } else {
            pack
        };
        proof {
            let (s1, s3) = (self.lane_stride_base as int, self.lane_stride_ext3 as int);
            lemma_sizes(n as int, pack as int, s1);
            lemma_part_bounds(instance as int, n as int, pack as int);
            assert(pack * (num_elems * 3) <= pack * s1 * 3) by (nonlinear_arith)
                requires
                    0 <= num_elems <= s1,
                    0 <= pack,
            ;
            let lane = instance * pack + seen;
            let total = n * pack;
            assert(0 <= lane * s3 <= total * s3) by (nonlinear_arith)
                requires
                    0 <= lane <= total,
                    s3 >= 0,
            ;
        }
        match join_downloads(replies, seen, count) {
            None => DeviceStep::Finished(None),
            Some(joined) => {
                if seen < pack {
                    let lane: usize = instance * pack + seen;
                    return DeviceStep::Run(
                        DeviceOp::Download {
                            src: DevicePtr { addr, offset: lane * self.lane_stride_ext3 },
                            count,
                        },
                    );
                }
                proof {
                    device::lemma_joined_downloads(replies@, pack as nat, count as nat);
                    assert(pack * (num_elems * 3) == num_elems * 3 * pack && pack * num_elems * 3
                        == pack * (num_elems * 3)) by (nonlinear_arith);
                }
                let mut out: Vec<u32> = filled(0, pack * count);
                convert_aos_to_simd_ext3(&joined, &mut out, 0, num_elems, pack);
                assert(out@ == layout::lanes_as_ext3(joined@, num_elems as int, pack as int));
                DeviceStep::Finished(Some(out))
            },
        }
    }

    /// Downloads the wire table of an instance.
    pub fn download_instance_bk_f(
        &self,
        instance: usize,
        num_elems: usize,
        replies: &Vec<DeviceReply>,
    ) -> (step: DeviceStep<Option<Vec<u32>>>)
        requires
            self.wf(),
            instance < self.n_instances ==> num_elems <= self.lane_stride_base,
        ensures
            self.download_steps(self.d_bk_f, instance, num_elems, replies@, step),
    {
        self.download_instance_ext3(self.d_bk_f, instance, num_elems, replies)
    }

    /// Downloads the coefficient table of an instance.
    pub fn download_instance_bk_hg(
        &self,
        instance: usize,
        num_elems: usize,
        replies: &Vec<DeviceReply>,
    ) -> (step: DeviceStep<Option<Vec<u32>>>)
        requires
            self.wf(),
            instance < self.n_instances ==> num_elems <= self.lane_stride_base,
        ensures
            self.download_steps(self.d_bk_hg, instance, num_elems, replies@, step),
    {
        self.download_instance_ext3(self.d_bk_hg, instance, num_elems, replies)
    }

    /// The buffers in the order in which they are freed.
    pub open spec fn buffers(self) -> Seq<u64> {
        seq![
            self.d_bk_f,
            self.d_bk_hg,
            self.d_bk_f_alt,
            self.d_bk_hg_alt,
            self.d_init_v,
            self.d_challenge,
            self.d_result,
        ]
    }

    /// The step of a release: the seven buffers are freed, whatever comes of it.
    pub open spec fn release_steps(self, replies: Seq<DeviceReply>, step: DeviceStep<()>) -> bool {
        if replies.len() < 7 {
            step.runs(device::DeviceOpView::Free { addr: self.buffers()[replies.len() as int] })
        } else {
            step.finishes(())
        }
    }

    /// Frees the device memory.
    pub fn release(&self, replies: &Vec<DeviceReply>) -> (step: DeviceStep<()>)
        ensures
            self.release_steps(replies@, step),
    {
        let k: usize = replies.len();
        if k >= 7 {
            return DeviceStep::Finished(());
        }
        let buffers: [u64; 7] = [
            self.d_bk_f,
            self.d_bk_hg,
            self.d_bk_f_alt,
            self.d_bk_hg_alt,
            self.d_init_v,
            self.d_challenge,
            self.d_result,
        ];
        assert(buffers@ == self.buffers());
        DeviceStep::Run(DeviceOp::Free { addr: buffers[k] })
    }
}

// ---------------------------------------------------------------------------
// One prover alone
// ---------------------------------------------------------------------------

/// Persistent device buffers of one prover: those of a batch of one.
#[derive(Clone, Copy, Debug, PartialEq, Eq)]
pub struct GpuSumcheckContext {
    pub batch: BatchedGpuSumcheckContext,
}

impl GpuSumcheckContext {
    pub open spec fn wf(self) -> bool {
        self.batch.wf() && self.batch.n_instances == 1
    }

    /// The step of an evaluation.
    pub open spec fn eval_steps(
        self,
        eval_size: usize,
        replies: Seq<DeviceReply>,
        step: DeviceStep<Option<[[u32; 9]; 16]>>,
    ) -> bool {
        match step {
            DeviceStep::Run(op) => self.batch.poly_eval_steps(
                eval_size,
                replies,
                DeviceStep::Run(op),
            ),
            DeviceStep::Finished(None) => self.batch.poly_eval_steps(
                eval_size,
                replies,
                DeviceStep::Finished(None),
            ),
            DeviceStep::Finished(Some(lanes)) => {
                let words = replies[1].download((self.batch.pack_size * 9) as nat);
                &&& replies.len() >= 2
                &&& replies[0].succeeded()
                &&& words is Some
                &&& BatchedGpuSumcheckContext::decodes(
                    1,
                    self.batch.pack_size as int,
                    words->0,
                    seq![lanes],
                )
            },
        }
    }

    /// The step of a fold.
    pub open spec fn fold_steps(
        self,
        eval_size: usize,
        var_idx: usize,
        r: Seq<u32>,
        replies: Seq<DeviceReply>,
        step: DeviceStep<bool>,
    ) -> bool {
        self.batch.fold_steps(eval_size, var_idx, seq![r], replies, step)
    }

    /// The context once a fold has come to `done`.
    pub open spec fn after_fold(self, var_idx: usize, done: bool) -> Self {
        GpuSumcheckContext { batch: self.batch.after_fold(var_idx, done) }
    }

    /// The step of a download of the wire table, or of the coefficients.
    pub open spec fn download_steps(
        self,
        of_wires: bool,
        num_elems: usize,
        replies: Seq<DeviceReply>,
        step: DeviceStep<Option<Vec<u32>>>,
    ) -> bool {
        self.batch.download_steps(
            if of_wires {
                self.batch.d_bk_f
            } else {
                self.batch.d_bk_hg
            },
            0,
            num_elems,
            replies,
            step,
        )
    }

    /// Lays out the tables of a prover for the device.
    pub fn image(
        hg_evals: Vec<u32>,
        init_v: Vec<u32>,
        pack_size: usize,
        input_size: usize,
    ) -> (r: ContextImage)
        requires
            sizes_fit(1, pack_size as int, input_size as int),
            input_size * 3 * pack_size <= hg_evals@.len(),
            input_size * pack_size <= init_v@.len(),
        ensures
            r.wf(),
            r.n_instances == 1,
            r.pack_size == pack_size,
            r.input_size == input_size,
            r.hg@ == layout::ext3_as_lanes(hg_evals@, input_size as int, pack_size as int),
            r.bk_f@ == layout::base_as_promoted_lanes(
                init_v@,
                input_size as int,
                pack_size as int,
            ),
            r.init_v@ == layout::base_as_lanes(init_v@, input_size as int, pack_size as int),
    {
        let hgs: Vec<Vec<u32>> = vec![hg_evals];
        let vs: Vec<Vec<u32>> = vec![init_v];
        let image = BatchedGpuSumcheckContext::lay_out(&hgs, &vs, pack_size, input_size);
        proof {
            assert(image.holds(0, hgs@[0]@, vs@[0]@));
            assert(ContextImage::part(image.hg@, 0, image.hg@.len() as int) == image.hg@);
            assert(ContextImage::part(image.bk_f@, 0, image.bk_f@.len() as int) == image.bk_f@);
            assert(ContextImage::part(image.init_v@, 0, image.init_v@.len() as int)
                == image.init_v@);
        }
        image
    }

    /// Allocates device memory and uploads the image.
    pub fn new(image: &ContextImage, replies: &Vec<DeviceReply>) -> (step: DeviceStep<Option<Self>>)
        requires
            image.wf(),
            image.n_instances == 1,
        ensures
            match step {
                DeviceStep::Run(op) => setup_steps(*image, replies@, DeviceStep::Run(op)),
                DeviceStep::Finished(None) => setup_steps(
                    *image,
                    replies@,
                    DeviceStep::Finished(None),
                ),
                DeviceStep::Finished(Some(context)) => context.wf() && setup_steps(
                    *image,
                    replies@,
                    DeviceStep::Finished(Some(context.batch)),
                ),
            },
    {
        match BatchedGpuSumcheckContext::new(image, replies) {
            DeviceStep::Run(op) => DeviceStep::Run(op),
            DeviceStep::Finished(None) => DeviceStep::Finished(None),
            DeviceStep::Finished(Some(batch)) => DeviceStep::Finished(
                Some(GpuSumcheckContext { batch }),
            ),
        }
    }

    /// Whether `eval_size` is large enough to benefit from GPU dispatch.
    pub fn should_use_gpu(&self, eval_size: usize) -> (r: bool)
        ensures
            r <==> eval_size >= GPU_DISPATCH_THRESHOLD,
    {
        eval_size >= GPU_DISPATCH_THRESHOLD
    }

    /// Sums the products of all lanes' pairs: three limbs for each of the three sums, per lane.
    pub fn poly_eval_at(&self, eval_size: usize, replies: &Vec<DeviceReply>) -> (step: DeviceStep<
        Option<[[u32; 9]; 16]>,
    >)
        requires
            self.wf(),
            self.batch.pack_size <= 16,
        ensures
            self.eval_steps(eval_size, replies@, step),
    {
        match self.batch.poly_eval_at(eval_size, replies) {
            DeviceStep::Run(op) => DeviceStep::Run(op),
            DeviceStep::Finished(None) => DeviceStep::Finished(None),
            DeviceStep::Finished(Some(lanes)) => {
                assert(lanes@ == seq![lanes@[0]]);
                proof {
                    lemma_sizes(
                        1,
                        self.batch.pack_size as int,
                        self.batch.lane_stride_base as int,
                    );
                }
                DeviceStep::Finished(Some(lanes[0]))
            },
        }
    }

    /// Folds all lanes at a challenge.
    pub fn receive_challenge(
        &mut self,
        eval_size: usize,
        var_idx: usize,
        r_limbs: [u32; 3],
        replies: &Vec<DeviceReply>,
    ) -> (step: DeviceStep<bool>)
        requires
            old(self).wf(),
            old(self).batch.pack_size < usize::MAX,
        ensures
            old(self).fold_steps(eval_size, var_idx, r_limbs@, replies@, step),
            *final(self) == old(self).after_fold(var_idx, step.finishes(true)),
            final(self).wf(),
    {
        let r: Vec<[u32; 3]> = vec![r_limbs];
        assert(limb_lists(r@) == seq![r_limbs@]);
        self.batch.receive_challenge(eval_size, var_idx, &r, replies)
    }

    /// Downloads the first `num_elems` elements of the wire table.
    pub fn download_bk_f(&self, num_elems: usize, replies: &Vec<DeviceReply>) -> (step: DeviceStep<
        Option<Vec<u32>>,
    >)
        requires
            self.wf(),
            num_elems <= self.batch.lane_stride_base,
        ensures
            self.download_steps(true, num_elems, replies@, step),
    {
        self.batch.download_instance_bk_f(0, num_elems, replies)
    }

    /// Downloads the first `num_elems` elements of the coefficient table.
    pub fn download_bk_hg(&self, num_elems: usize, replies: &Vec<DeviceReply>) -> (step: DeviceStep<
        Option<Vec<u32>>,
    >)
        requires
            self.wf(),
            num_elems <= self.batch.lane_stride_base,
        ensures
            self.download_steps(false, num_elems, replies@, step),
    {
        self.batch.download_instance_bk_hg(0, num_elems, replies)
    }

    /// Frees the device memory.
    pub fn release(&self, replies: &Vec<DeviceReply>) -> (step: DeviceStep<()>)
        ensures
            self.batch.release_steps(replies@, step),
    {
        self.batch.release(replies)
    }
}

} // verus!
