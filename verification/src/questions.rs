//! Every question can be answered: what answers a question, in kind and size, is what the state
//! that puts it waits for.

use vstd::arithmetic::power2::*;
use vstd::prelude::*;

use crate::agreement::has_inputs;
use crate::circuit::ChallengeView;
use crate::engine::{log2_spec, FieldEngine};
use crate::gkr_protocol::{
    circuits_fit, lemma_gkr_step_wf, pads_fit, GkrAsk, GkrEvent, GkrView,
};
use crate::instance::PadView;
use crate::protocol::{at_least, lemma_step_layers, lemma_step_wf, Ask, Event, LayerView};

verus! {

/// As many lists, each of the same length.
pub open spec fn same_sizes<E>(a: Seq<Seq<E>>, b: Seq<Seq<E>>) -> bool {
    &&& a.len() == b.len()
    &&& forall|i: int| 0 <= i < a.len() ==> (#[trigger] a[i]).len() == b[i].len()
}

/// The answer is one to the question, in kind and size: values for values, a challenge for each
/// instance, a share of each process. There are `n` instances and `world` processes, and an
/// element of a table takes `words` words.
pub open spec fn answers<E>(
    ask: Ask<E>,
    event: Event<E>,
    n: nat,
    world: nat,
    words: nat,
) -> bool {
    match (ask, event) {
        (Ask::SetUp { .. }, Event::SetUp { .. }) => true,
        (Ask::Evaluate { .. }, Event::Evaluated { results }) => results is Some
            ==> results->0.len() == n,
        (Ask::Download { num }, Event::Downloaded { tables }) => {
            &&& tables.len() == 2 * n
            &&& forall|k: int|
                0 <= k < tables.len() && (#[trigger] tables[k]) is Some ==> tables[k]->0.len()
                    == num * words
        },
        (Ask::Release, Event::Released) => true,
        (Ask::Receive { .. }, Event::Received { .. }) => true,
        (Ask::Combine { values, .. }, Event::Combined { values: sums }) => same_sizes(
            sums,
            values,
        ),
        (Ask::Challenge { evals }, Event::Challenged { r }) => r.len() == evals.len(),
        (Ask::Gather { v, hg }, Event::Gathered { v: a, hg: b }) => at_least(a, v.len(), world)
            && at_least(b, hg.len(), world),
        (Ask::Append { .. }, Event::Appended) => true,
        (Ask::Broadcast { roots }, Event::Broadcasted { roots: r }) => r.len() == roots.len(),
        _ => false,
    }
}

/// Any answer to the question that a layer puts is one that it waits for, and it puts questions
/// until it is done.
pub proof fn lemma_layer_answerable<F: FieldEngine>(
    layer: LayerView<F>,
    event: Event<F::ChallengeField>,
    answer: Event<F::ChallengeField>,
)
    requires
        layer.wf(),
        layer.input_var_num() >= 1,
        layer.expects(event),
    ensures
        ({
            let (next, ask) = layer.step(event);
            let world = pow2(layer.mpi_var_num());
            let words = 3 * F::pack_size_spec() as nat;
            &&& answers(ask, answer, layer.insts.len(), world, words) ==> next.expects(answer)
            &&& ask is Finished <==> next.stage is Done
        }),
{
    let (next, ask) = layer.step(event);
    let pack = F::pack_size_spec() as nat;
    lemma_step_wf(layer, event);
    lemma_step_layers(layer, event);
    assert(next.insts[0].layer == layer.insts[0].layer);
    lemma_answer_sizes(layer, event);
    if ask is Download {
        let num = ask->num;
        assert(num * (3 * pack) == num * 3 * pack) by (nonlinear_arith);
        assert(next.stage is GpuDownload);
        assert(num == 2 * next.eval_size(next.stage->GpuDownload_var));
    }
    if ask is Combine && answer is Combined {
        let (values, sums) = (ask->Combine_values, answer->Combined_values);
        if same_sizes(sums, values) {
            assert forall|i: int| 0 <= i < sums.len() implies (#[trigger] sums[i]).len()
                == values[i].len() by {}
        }
    }
}

/// The sizes of the values that a layer has combined.
proof fn lemma_answer_sizes<F: FieldEngine>(
    layer: LayerView<F>,
    event: Event<F::ChallengeField>,
)
    requires
        layer.wf(),
        layer.input_var_num() >= 1,
        layer.expects(event),
    ensures
        ({
            let (next, ask) = layer.step(event);
            ask matches Ask::Combine { values, .. } ==> {
                let len: nat = if next.stage is VyCombine {
                    1
                } else if next.stage is SimdCombine {
                    4
                } else {
                    3
                };
                &&& values.len() == layer.insts.len()
                &&& forall|i: int| 0 <= i < values.len() ==> (#[trigger] values[i]).len() == len
            }
        }),
{
}

/// Points of the dimensions that were asked for.
pub open spec fn points_fit<F: FieldEngine>(
    challenges: Seq<ChallengeView<F::ChallengeField>>,
    output_var_nums: Seq<nat>,
    world_size: usize,
) -> bool {
    &&& challenges.len() == output_var_nums.len()
    &&& forall|i: int|
        0 <= i < challenges.len() ==> {
            let c = #[trigger] challenges[i];
            &&& c.rz_0.len() == output_var_nums[i]
            &&& c.rz_1 is None
            &&& c.r_simd.len() == log2_spec(F::pack_size_spec())
            &&& c.r_mpi.len() == log2_spec(world_size)
        }
}

/// The first question of a proof asks for points of the outputs: any that have the dimensions
/// asked for will do.
pub proof fn lemma_sample_answerable<F: FieldEngine>(
    gkr: GkrView<F>,
    pads: Seq<PadView<F::Field, F::ChallengeField>>,
    challenges: Seq<ChallengeView<F::ChallengeField>>,
)
    requires
        circuits_fit(gkr.circuits),
        pads_fit(gkr.circuits, pads, gkr.mpi_var_num()),
    ensures
        ({
            let (state, ask) = gkr.begin(pads);
            &&& ask is Sample
            &&& points_fit::<F>(challenges, ask->output_var_nums, ask->world_size)
                ==> state.expects(GkrEvent::Sampled { challenges })
        }),
{
    let (state, ask) = gkr.begin(pads);
    let nums = ask->output_var_nums;
    let k = gkr.layer_num() - 1;
    assert forall|i: int| 0 <= i < gkr.circuits.len() implies #[trigger] nums[i]
        == gkr.circuits[0].layers@.last().output_var_num by {
        assert(gkr.circuits[i].layers@.len() == gkr.circuits[0].layers@.len());
        assert(gkr.circuits[i].wf());
        assert(gkr.circuits[i].layers@[k].same_shape(gkr.circuits[0].layers@[k]));
    }
    if points_fit::<F>(challenges, nums, ask->world_size) {
        assert forall|i: int| 0 <= i < gkr.circuits.len() implies {
            let c = #[trigger] challenges[i];
            &&& c.rz_0.len() == gkr.circuits[0].layers@.last().output_var_num
            &&& c.rz_1 is None
        } by {
            assert(nums[i] == gkr.circuits[0].layers@.last().output_var_num);
        }
    }
}

/// Sums of the claimed outputs, as many as were asked for, and coefficients, one for each
/// instance, are what a proof waits for; and it puts questions until it is done.
pub proof fn lemma_gkr_answerable<F: FieldEngine>(
    gkr: GkrView<F>,
    event: GkrEvent<F::ChallengeField>,
    sums: Seq<Seq<F::ChallengeField>>,
    alphas: Seq<F::ChallengeField>,
)
    requires
        gkr.wf(),
        has_inputs(gkr),
        gkr.expects(event),
    ensures
        ({
            let (next, ask) = gkr.step(event);
            &&& (ask is Combine && same_sizes(sums, ask->Combine_values)) ==> next.expects(
                GkrEvent::Combined { values: sums },
            )
            &&& (ask is Alpha && alphas.len() == ask->count) ==> next.expects(
                GkrEvent::Alphas { alphas },
            )
            &&& ask is Layer <==> next.stage is Layer
            &&& ask is Finished <==> next.stage is Done
        }),
{
    let (next, ask) = gkr.step(event);
    lemma_gkr_step_wf(gkr, event);
    if ask is Combine && same_sizes(sums, ask->Combine_values) {
        assert forall|i: int| 0 <= i < sums.len() implies (#[trigger] sums[i]).len() == 1 by {
            assert(sums[i].len() == ask->Combine_values[i].len());
        }
    }
}

} // verus!
