//! Device memory has an owner: what a setup allocates is in the context or has been freed, and what
//! is in a context is freed by its release, each buffer once.

use vstd::multiset::Multiset;
use vstd::prelude::*;
use vstd::seq_lib::{to_multiset_build, to_multiset_remove};

use crate::cuda_dispatch::{
    setup_context, setup_op, setup_progress, setup_reply_good, setup_steps,
    BatchedGpuSumcheckContext, ContextImage,
};
use crate::device::{DeviceOpView, DeviceReply, DeviceStep};

verus! {

/// The addresses that are allocated after the first `n` operations and replies.
pub open spec fn held(
    start: Multiset<u64>,
    ops: Seq<DeviceOpView>,
    replies: Seq<DeviceReply>,
    n: nat,
) -> Multiset<u64>
    decreases n,
{
    if n == 0 {
        start
    } else {
        let before = held(start, ops, replies, (n - 1) as nat);
        match ops[n - 1] {
            DeviceOpView::Malloc { .. } => match replies[n - 1].address() {
                Some(addr) => before.insert(addr),
                None => before,
            },
            DeviceOpView::Free { addr } => before.remove(addr),
            _ => before,
        }
    }
}

/// The operations of a procedure that went through these steps.
pub open spec fn operations<T>(steps: Seq<DeviceStep<T>>, n: nat) -> Seq<DeviceOpView> {
    Seq::new(n, |k: int| steps[k]->Run_0@)
}

/// A setup goes through these steps.
pub open spec fn is_setup_run(
    image: ContextImage,
    replies: Seq<DeviceReply>,
    steps: Seq<DeviceStep<Option<BatchedGpuSumcheckContext>>>,
) -> bool {
    &&& steps.len() == replies.len() + 1
    &&& forall|k: int|
        0 <= k < steps.len() ==> setup_steps(image, replies.take(k), #[trigger] steps[k])
    &&& forall|k: int| 0 <= k < replies.len() ==> #[trigger] steps[k] is Run
}

/// A release goes through these steps.
pub open spec fn is_release_run(
    ctx: BatchedGpuSumcheckContext,
    replies: Seq<DeviceReply>,
    steps: Seq<DeviceStep<()>>,
) -> bool {
    &&& steps.len() == replies.len() + 1
    &&& forall|k: int|
        0 <= k < steps.len() ==> ctx.release_steps(replies.take(k), #[trigger] steps[k])
    &&& forall|k: int| 0 <= k < replies.len() ==> #[trigger] steps[k] is Run
}

/// The addresses of the first `n` replies.
spec fn addresses(replies: Seq<DeviceReply>, n: nat) -> Seq<u64> {
    Seq::new(n, |k: int| replies[k].address()->0)
}

/// Progress depends on the replies that it is about alone.
proof fn lemma_progress_front(replies: Seq<DeviceReply>, k: int, n: nat)
    requires
        n <= k <= replies.len(),
    ensures
        setup_progress(replies.take(k), n) == setup_progress(replies, n),
        setup_progress(replies, n) <= n,
    decreases n,
{
    if n > 0 {
        lemma_progress_front(replies, k, (n - 1) as nat);
    }
}

/// How many of the first `n` replies, ten at most, came before a failure.
spec fn good_at(replies: Seq<DeviceReply>, n: nat) -> nat {
    setup_progress(
        replies,
        if n < 10 {
            n
        } else {
            10
        },
    )
}

/// How many allocations a setup holds after `n` replies.
spec fn held_at(replies: Seq<DeviceReply>, n: nat) -> int {
    let good = good_at(replies, n);
    let allocated = if good < 7 {
        good as int
    } else {
        7
    };
    if good == n {
        allocated
    } else {
        allocated - (n - (good + 1))
    }
}

proof fn lemma_setup_held(
    image: ContextImage,
    replies: Seq<DeviceReply>,
    steps: Seq<DeviceStep<Option<BatchedGpuSumcheckContext>>>,
    n: nat,
)
    requires
        is_setup_run(image, replies, steps),
        n <= replies.len(),
    ensures
        good_at(replies, n) <= n,
        held_at(replies, n) >= 0,
        n > 10 ==> good_at(replies, n) < 10,
        held(Multiset::empty(), operations(steps, replies.len()), replies, n) == addresses(
            replies,
            held_at(replies, n) as nat,
        ).to_multiset(),
    decreases n,
{
    let ops = operations(steps, replies.len());
    if n == 0 {
        assert(addresses(replies, 0).to_multiset() =~= Multiset::empty()) by {
            assert(addresses(replies, 0) =~= Seq::<u64>::empty());
            addresses(replies, 0).to_multiset_ensures();
        }
    } else {
        let m = (n - 1) as nat;
        lemma_setup_held(image, replies, steps, m);
        let seen = if m < 10 {
            m
        } else {
            10
        };
        let good = good_at(replies, m);
        lemma_progress_front(replies, m as int, seen);
        assert(replies.take(m as int).len() == m);
        assert(setup_steps(image, replies.take(m as int), steps[m as int]));
        assert(steps[m as int] is Run);
        assert(good < 10);
        let was = held_at(replies, m) as nat;
        if good == m {
            assert(good_at(replies, n) == if setup_reply_good(replies[m as int], m as int) {
                n
            } else {
                m
            });
            assert(ops[m as int] == setup_op(image, replies.take(m as int), m as int));
            if m < 7 && replies[m as int].address() is Some {
                to_multiset_build(addresses(replies, m), replies[m as int].address()->0);
                assert(addresses(replies, n) =~= addresses(replies, m).push(
                    replies[m as int].address()->0,
                ));
            }
        } else {
            assert(good_at(replies, n) == good) by {
                if m < 10 {
                    lemma_progress_front(replies, m as int, m);
                    assert(setup_progress(replies, n) == setup_progress(replies, m));
                }
            }
            assert(was > 0);
            let last = was - 1;
            assert(replies.take(m as int)[last] == replies[last]);
            assert(ops[m as int] == DeviceOpView::Free { addr: replies[last].address()->0 });
            to_multiset_remove(addresses(replies, was), last);
            assert(addresses(replies, was).remove(last) =~= addresses(replies, last as nat));
        }
    }
}

/// A setup that has finished holds the buffers of its context, or nothing where there is none.
pub proof fn lemma_setup_owns(
    image: ContextImage,
    replies: Seq<DeviceReply>,
    steps: Seq<DeviceStep<Option<BatchedGpuSumcheckContext>>>,
)
    requires
        is_setup_run(image, replies, steps),
        steps.last() is Finished,
    ensures
        held(
            Multiset::empty(),
            operations(steps, replies.len()),
            replies,
            replies.len(),
        ) == match steps.last()->Finished_0 {
            Some(ctx) => ctx.buffers().to_multiset(),
            None => Multiset::empty(),
        },
{
    let n = replies.len();
    lemma_setup_held(image, replies, steps, n);
    let seen = if n < 10 {
        n
    } else {
        10
    };
    lemma_progress_front(replies, n as int, seen);
    assert(replies.take(n as int) =~= replies);
    assert(setup_steps(image, replies.take(n as int), steps[n as int]));
    if good_at(replies, n) == 10 {
        let ctx = setup_context(image, replies);
        assert(steps.last()->Finished_0 == Some(ctx));
        assert(addresses(replies, 7) =~= ctx.buffers());
    } else {
        assert(held_at(replies, n) == 0);
        assert(addresses(replies, 0) =~= Seq::<u64>::empty());
        addresses(replies, 0).to_multiset_ensures();
        assert(addresses(replies, 0).to_multiset() =~= Multiset::empty());
    }
}

proof fn lemma_release_held(
    ctx: BatchedGpuSumcheckContext,
    replies: Seq<DeviceReply>,
    steps: Seq<DeviceStep<()>>,
    n: nat,
)
    requires
        is_release_run(ctx, replies, steps),
        n <= replies.len(),
    ensures
        n <= 7,
        held(ctx.buffers().to_multiset(), operations(steps, replies.len()), replies, n)
            == ctx.buffers().skip(n as int).to_multiset(),
    decreases n,
{
    let b = ctx.buffers();
    if n == 0 {
        assert(b.skip(0) =~= b);
    } else {
        let m = (n - 1) as nat;
        lemma_release_held(ctx, replies, steps, m);
        assert(replies.take(m as int).len() == m);
        assert(ctx.release_steps(replies.take(m as int), steps[m as int]));
        assert(steps[m as int] is Run);
        to_multiset_remove(b.skip(m as int), 0);
        assert(b.skip(m as int).remove(0) =~= b.skip(n as int));
    }
}

/// A release that has finished has freed every buffer of its context, each once.
pub proof fn lemma_release_frees(
    ctx: BatchedGpuSumcheckContext,
    replies: Seq<DeviceReply>,
    steps: Seq<DeviceStep<()>>,
)
    requires
        is_release_run(ctx, replies, steps),
        steps.last() is Finished,
    ensures
        replies.len() == 7,
        operations(steps, 7) == Seq::new(
            7,
            |k: int| DeviceOpView::Free { addr: ctx.buffers()[k] },
        ),
        held(
            ctx.buffers().to_multiset(),
            operations(steps, replies.len()),
            replies,
            replies.len(),
        ) == Multiset::<u64>::empty(),
{
    let n = replies.len();
    lemma_release_held(ctx, replies, steps, n);
    assert(ctx.release_steps(replies.take(n as int), steps[n as int]));
    let ops = operations(steps, 7);
    assert forall|k: int| 0 <= k < 7 implies #[trigger] ops[k] == (DeviceOpView::Free {
        addr: ctx.buffers()[k],
    }) by {
        assert(ctx.release_steps(replies.take(k), steps[k]));
        assert(replies.take(k).len() == k);
    }
    assert(ops =~= Seq::new(7, |k: int| DeviceOpView::Free { addr: ctx.buffers()[k] }));
    let rest = ctx.buffers().skip(7);
    assert(rest =~= Seq::<u64>::empty());
    rest.to_multiset_ensures();
    assert(rest.to_multiset() =~= Multiset::empty());
}

} // verus!
