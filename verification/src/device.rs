//! The vocabulary in which GPU work is asked for and answered.
//!
//! Nothing here talks to a device. A procedure that needs one is a function of the replies seen
//! so far: it names the next operation to run, or gives its result.

use vstd::prelude::*;

verus! {

/// A position in device memory: an allocation and an offset into it, counted in words.
#[derive(Clone, Copy, Debug, PartialEq, Eq)]
pub struct DevicePtr {
    pub addr: u64,
    pub offset: usize,
}

/// One operation on the device.
#[derive(Debug, PartialEq, Eq)]
pub enum DeviceOp {
    /// Allocate device memory.
    Malloc { bytes: usize },
    /// Free an allocation.
    Free { addr: u64 },
    /// Copy words to the device.
    Upload { dst: DevicePtr, words: Vec<u32> },
    /// Copy `count` words from the device.
    Download { src: DevicePtr, count: usize },
    /// Sum the products of one lane's pairs.
    PolyEval { bk_f: DevicePtr, bk_hg: DevicePtr, result: DevicePtr, eval_size: u32 },
    /// Sum the products of `batch_size` lanes' pairs, the lanes being `stride` words apart.
    PolyEvalBatched {
        bk_f: DevicePtr,
        bk_hg: DevicePtr,
        result: DevicePtr,
        eval_size: u32,
        batch_size: u32,
        stride: u32,
    },
    /// Fold one lane in place; the first round reads the wire values from `init_v`.
    ReceiveChallenge {
        bk_f: DevicePtr,
        bk_hg: DevicePtr,
        challenge: DevicePtr,
        eval_size: u32,
        first_round: bool,
        init_v: DevicePtr,
    },
    /// Fold `batch_size` lanes from one pair of buffers into another.
    ReceiveChallengeBatched {
        bk_f: DevicePtr,
        bk_hg: DevicePtr,
        bk_f_out: DevicePtr,
        bk_hg_out: DevicePtr,
        challenge: DevicePtr,
        eval_size: u32,
        batch_size: u32,
        stride: u32,
    },
}

/// The mathematical form of an operation.
#[verifier::ext_equal]
pub enum DeviceOpView {
    Malloc { bytes: usize },
    Free { addr: u64 },
    Upload { dst: DevicePtr, words: Seq<u32> },
    Download { src: DevicePtr, count: usize },
    PolyEval { bk_f: DevicePtr, bk_hg: DevicePtr, result: DevicePtr, eval_size: u32 },
    PolyEvalBatched {
        bk_f: DevicePtr,
        bk_hg: DevicePtr,
        result: DevicePtr,
        eval_size: u32,
        batch_size: u32,
        stride: u32,
    },
    ReceiveChallenge {
        bk_f: DevicePtr,
        bk_hg: DevicePtr,
        challenge: DevicePtr,
        eval_size: u32,
        first_round: bool,
        init_v: DevicePtr,
    },
    ReceiveChallengeBatched {
        bk_f: DevicePtr,
        bk_hg: DevicePtr,
        bk_f_out: DevicePtr,
        bk_hg_out: DevicePtr,
        challenge: DevicePtr,
        eval_size: u32,
        batch_size: u32,
        stride: u32,
    },
}

impl View for DeviceOp {
    type V = DeviceOpView;

    open spec fn view(&self) -> DeviceOpView {
        match *self {
            DeviceOp::Malloc { bytes } => DeviceOpView::Malloc { bytes },
            DeviceOp::Free { addr } => DeviceOpView::Free { addr },
            DeviceOp::Upload { dst, words } => DeviceOpView::Upload { dst, words: words@ },
            DeviceOp::Download { src, count } => DeviceOpView::Download { src, count },
            DeviceOp::PolyEval { bk_f, bk_hg, result, eval_size } => DeviceOpView::PolyEval {
                bk_f,
                bk_hg,
                result,
                eval_size,
            },
            DeviceOp::PolyEvalBatched { bk_f, bk_hg, result, eval_size, batch_size, stride } =>
                DeviceOpView::PolyEvalBatched { bk_f, bk_hg, result, eval_size, batch_size, stride },
            DeviceOp::ReceiveChallenge {
                bk_f,
                bk_hg,
                challenge,
                eval_size,
                first_round,
                init_v,
            } => DeviceOpView::ReceiveChallenge {
                bk_f,
                bk_hg,
                challenge,
                eval_size,
                first_round,
                init_v,
            },
            DeviceOp::ReceiveChallengeBatched {
                bk_f,
                bk_hg,
                bk_f_out,
                bk_hg_out,
                challenge,
                eval_size,
                batch_size,
                stride,
            } => DeviceOpView::ReceiveChallengeBatched {
                bk_f,
                bk_hg,
                bk_f_out,
                bk_hg_out,
                challenge,
                eval_size,
                batch_size,
                stride,
            },
        }
    }
}

/// What came of an operation. Error code zero means success.
#[derive(Debug, PartialEq, Eq)]
pub enum DeviceReply {
    /// An allocation was attempted; a null address is a failure too.
    Allocated { err: i32, addr: u64 },
    /// A kernel, an upload or a release was attempted.
    Status { err: i32 },
    /// A download was attempted.
    Words { err: i32, words: Vec<u32> },
}

impl DeviceReply {
    /// The allocation, where there is one.
    pub open spec fn address(self) -> Option<u64> {
        match self {
            DeviceReply::Allocated { err, addr } => if err == 0 && addr != 0 {
                Some(addr)
            } else {
                None
            },
            _ => None,
        }
    }

    /// The operation reported success.
    pub open spec fn succeeded(self) -> bool {
        match self {
            DeviceReply::Status { err } => err == 0,
            _ => false,
        }
    }

    /// The words that came back, if as many as asked for did.
    pub open spec fn download(self, count: nat) -> Option<Seq<u32>> {
        match self {
            DeviceReply::Words { err, words } => if err == 0 && words@.len() == count {
                Some(words@)
            } else {
                None
            },
            _ => None,
        }
    }

    pub fn get_address(&self) -> (r: Option<u64>)
        ensures
            r == self.address(),
    {
        match self {
            DeviceReply::Allocated { err, addr } => if *err == 0 && *addr != 0 {
                Some(*addr)
            } else {
                None
            },
            _ => None,
        }
    }

    pub fn is_success(&self) -> (r: bool)
        ensures
            r == self.succeeded(),
    {
        match self {
            DeviceReply::Status { err } => *err == 0,
            _ => false,
        }
    }

    pub fn get_download(&self, count: usize) -> (r: Option<&Vec<u32>>)
        ensures
            r is Some <==> self.download(count as nat) is Some,
            r is Some ==> r->0@ == self.download(count as nat)->0,
    {
        match self {
            DeviceReply::Words { err, words } => if *err == 0 && words.len() == count {
                Some(words)
            } else {
                None
            },
            _ => None,
        }
    }
}

/// The next thing a device procedure needs, or what it came to.
#[derive(Debug, PartialEq, Eq)]
pub enum DeviceStep<T> {
    Run(DeviceOp),
    Finished(T),
}

impl<T> DeviceStep<T> {
    /// The procedure asks for this operation.
    pub open spec fn runs(self, op: DeviceOpView) -> bool {
        self is Run && self->Run_0@ == op
    }

    /// The procedure has come to this result.
    pub open spec fn finishes(self, result: T) -> bool {
        self is Finished && self->Finished_0 == result
    }
}

/// All of the first `n` replies report success.
pub open spec fn all_succeeded(replies: Seq<DeviceReply>, n: int) -> bool {
    forall|k: int| 0 <= k < n ==> (#[trigger] replies[k]).succeeded()
}

/// Checks that all of the first `n` replies report success.
pub fn check_all_succeeded(replies: &Vec<DeviceReply>, n: usize) -> (r: bool)
    requires
        n <= replies@.len(),
    ensures
        r == all_succeeded(replies@, n as int),
{
    for k in 0..n
        invariant
            n <= replies@.len(),
            all_succeeded(replies@, k as int),
    {
        if !replies[k].is_success() {
            return false;
        }
    }
    true
}

/// Each of the first `n` replies brings `count` words.
pub open spec fn all_downloaded(replies: Seq<DeviceReply>, n: int, count: nat) -> bool {
    forall|k: int| 0 <= k < n ==> (#[trigger] replies[k]).download(count) is Some
}

/// The words of the first `n` replies, one after the other.
pub open spec fn joined_downloads(replies: Seq<DeviceReply>, n: nat, count: nat) -> Seq<u32>
    decreases n,
{
    if n == 0 {
        Seq::empty()
    } else {
        joined_downloads(replies, (n - 1) as nat, count) + replies[n - 1].download(count)->0
    }
}

/// Joins the words of the first `n` replies, if each brings `count` words.
pub fn join_downloads(replies: &Vec<DeviceReply>, n: usize, count: usize) -> (r: Option<Vec<u32>>)
    requires
        n <= replies@.len(),
    ensures
        r is Some <==> all_downloaded(replies@, n as int, count as nat),
        r is Some ==> r->0@ == joined_downloads(replies@, n as nat, count as nat),
{
    let mut joined: Vec<u32> = Vec::new();
    for k in 0..n
        invariant
            n <= replies@.len(),
            all_downloaded(replies@, k as int, count as nat),
            joined@ == joined_downloads(replies@, k as nat, count as nat),
    {
        match replies[k].get_download(count) {
            Some(words) => {
                let ghost before = joined@;
                for j in 0..words.len()
                    invariant
                        joined@ == before + words@.take(j as int),
                {
                    joined.push(words[j]);
                    assert(words@.take(j + 1) == words@.take(j as int).push(words@[j as int]));
                }
                assert(words@.take(words@.len() as int) == words@);
            },
            None => {
                return None;
            },
        }
    }
    Some(joined)
}

/// Joined downloads have the expected length, and each reply's words sit at its place.
pub proof fn lemma_joined_downloads(replies: Seq<DeviceReply>, n: nat, count: nat)
    requires
        n <= replies.len(),
        all_downloaded(replies, n as int, count),
    ensures
        joined_downloads(replies, n, count).len() == n * count,
        forall|k: int, j: int|
            0 <= k < n && 0 <= j < count ==> #[trigger] joined_downloads(replies, n, count)[k
                * count + j] == (#[trigger] replies[k].download(count)->0[j]),
    decreases n,
{
    if n > 0 {
        let m = (n - 1) as nat;
        lemma_joined_downloads(replies, m, count);
        assert(replies[m as int].download(count) is Some);
        assert(n * count == m * count + count) by (nonlinear_arith)
            requires
                n == m + 1,
        ;
        let whole = joined_downloads(replies, n, count);
        assert forall|k: int, j: int| 0 <= k < n && 0 <= j < count implies #[trigger] whole[k
            * count + j] == (#[trigger] replies[k].download(count)->0[j]) by {
            if k < m {
                assert(0 <= k * count && k * count + count <= m * count) by (nonlinear_arith)
                    requires
                        0 <= k < m,
                ;
                assert(whole[k * count + j] == joined_downloads(replies, m, count)[k * count + j]);
            }
        }
    } else {
        assert(0 * count == 0) by (nonlinear_arith);
    }
}

} // verus!
