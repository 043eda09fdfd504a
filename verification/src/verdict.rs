//! What a verifier finds in the record of a layer: the first round starts from the claim that the
//! layer is about, every round continues the one before it, the phases join, and the claims that
//! the layer leaves are the values of its inputs.

use vstd::arithmetic::power2::*;
use vstd::prelude::*;

use crate::algebra::{lemma_dot_commutes, lemma_dot_plus, lemma_dot_same, lemma_dot_times};
use crate::chain::{
    column, continues, leads_to, lemma_adds_only, lemma_first_phase_round, lemma_lanes_linear,
    lemma_phases_added, lemma_phases_join, lemma_second_end, weighted,
};
use crate::circuit::{ChallengeView, CircuitLayer};
use crate::claims::stays_on_host;
use crate::dispatch::questions;
use crate::engine::{log2_spec, FieldEngine};
use crate::extension::{lemma_eq_tables, promoted};
use crate::field::Field;
use crate::gates::{
    add_sum, computes, is_ready, lemma_add_sum_same, lemma_eq_weight_factor,
    lemma_first_round_claim, lemma_first_round_claims, lemma_mul_sum_same, lemma_round_chain,
    mul_sum, round_sum,
};
use crate::gkr_protocol::{eq_table, wires_at};
use crate::instance::{lanes_combined, InstView};
use crate::lockstep::all_expected;
use crate::poly::{dot, eq_vec_spec};
use crate::protocol::{Event, LayerView, StageView};
use crate::record::{
    appended_of, hears_elements, inputs_of, lemma_challenges_drawn, lemma_run_tells,
    lemma_told_first, part_of, share_at, value_at,
};
use crate::rounds::all_valid;
use crate::transcript::{
    drawn, first_phase, first_rounds, holds_point, is_joint_run, lemma_first_phase_starts,
    lemma_run_in_step, lemma_run_messages, lemma_sent_by_stage, message_at, messages_of, reached,
    second_challenges, start_together,
};

verus! {

// ---------------------------------------------------------------------------
// Claims
// ---------------------------------------------------------------------------

/// What is claimed of wires, listed by process: their value at a point, or with two points the
/// value at the first plus `alpha` times that at the second.
pub open spec fn claim_at<F: FieldEngine>(
    vals: Seq<Seq<F::SimdCircuitField>>,
    point: ChallengeView<F::ChallengeField>,
    alpha: Option<F::ChallengeField>,
) -> F::ChallengeField {
    let first = value_at::<F>(vals, point.rz_0, point.r_simd, point.r_mpi);
    match (point.rz_1, alpha) {
        (Some(rz_1), Some(alpha)) => first.plus_spec(
            alpha.times_spec(value_at::<F>(vals, rz_1, point.r_simd, point.r_mpi)),
        ),
        _ => first,
    }
}

/// With two claims to prove, the scratch pad still holds the equality table of the first point.
pub open spec fn holds_claims<F: FieldEngine>(inst: InstView<F>) -> bool {
    inst.challenge.rz_1 is Some ==> {
        &&& !inst.is_output_layer
        &&& inst.alpha->0.valid()
        &&& forall|k: int|
            0 <= k < pow2(inst.layer.output_var_num as nat) ==> #[trigger] inst.pad.eq_rx[k]
                == eq_table(inst.challenge.rz_0)[k]
    }
}

/// The values are what the gates of instance `i` compute, process by process, and every process
/// holds what it takes to combine the claims about them.
pub open spec fn claims_together<F: FieldEngine>(
    starts: Seq<LayerView<F>>,
    outs: Seq<Seq<F::SimdCircuitField>>,
    i: int,
) -> bool {
    &&& outs.len() == starts.len()
    &&& forall|p: int|
        0 <= p < starts.len() ==> {
            let inst = (#[trigger] starts[p]).insts[i];
            &&& computes(inst.layer, outs[p])
            &&& inst.alpha == starts[0].insts[i].alpha
            &&& holds_claims(inst)
        }
}

/// The share of one process in what the first round is about.
proof fn lemma_first_share<F: FieldEngine>(inst: InstView<F>, outs: Seq<F::SimdCircuitField>)
    requires
        inst.wf(),
        inst.input_var_num() >= 1,
        all_valid(promoted::<F>(inst.layer.input_vals@), pow2(inst.input_var_num())),
        holds_point(inst),
        holds_claims(inst),
        computes(inst.layer, outs),
        is_ready(inst.simd_prepared().mpi_prepared().x_prepared(), 0),
        forall|l: int|
            0 <= l < F::pack_size_spec()
                ==> #[trigger] inst.simd_prepared().mpi_prepared().x_prepared().pad.eq_simd[l]
                == eq_table(inst.challenge.r_simd)[l],
    ensures
        ({
            let next = inst.simd_prepared().mpi_prepared().x_prepared();
            let r_simd = inst.challenge.r_simd;
            let first = share_at::<F>(outs, inst.challenge.rz_0, r_simd);
            lanes_combined::<F>(round_sum(next, 0), next.pad.eq_simd)
                == match inst.challenge.rz_1 {
                None => first,
                Some(rz_1) => inst.alpha->0.times_spec(share_at::<F>(outs, rz_1, r_simd)).plus_spec(
                    first,
                ),
            }
        }),
{
    let point = inst.simd_prepared().mpi_prepared();
    let next = point.x_prepared();
    let coefs = eq_table(inst.challenge.r_simd);
    let sum = round_sum(next, 0);
    assert(point.wf());
    assert(next.wf());
    lemma_round_chain(next, 0, F::ChallengeField::zero_spec());
    let lanes = F::unpack_spec(sum);
    lemma_dot_same(lanes, next.pad.eq_simd, lanes, coefs, F::pack_size_spec() as nat);
    let a = wires_at::<F>(outs, inst.challenge.rz_0);
    if inst.challenge.rz_1 is None {
        lemma_first_round_claim(point, outs);
    } else {
        assert forall|k: int| 0 <= k < pow2(inst.layer.output_var_num as nat) implies #[trigger]
            point.pad.eq_rx[k] == eq_table(inst.challenge.rz_0)[k] by {
            assert(inst.pad.eq_rx[k] == eq_table(inst.challenge.rz_0)[k]);
        }
        lemma_first_round_claims(point, outs);
        let b = wires_at::<F>(outs, inst.challenge.rz_1->0);
        let e = F::broadcast_spec(inst.alpha->0);
        F::Field::law_times_commutes(b, e);
        lemma_lanes_linear::<F>(e.times_spec(b), a, inst.alpha->0, coefs);
        lemma_lanes_linear::<F>(b, a, inst.alpha->0, coefs);
    }
}

/// The first round of a layer starts from the claim: its values at zero and one add up to what is
/// claimed of the values that the gates compute.
pub proof fn lemma_first_sum<F: FieldEngine>(
    starts: Seq<LayerView<F>>,
    outs: Seq<Seq<F::SimdCircuitField>>,
    d: Seq<Seq<F::ChallengeField>>,
    i: int,
)
    requires
        start_together(starts),
        0 <= i < starts[0].insts.len(),
        claims_together(starts, outs, i),
    ensures
        ({
            let values = message_at(starts, d, i, 0);
            let inst = starts[0].insts[i];
            values[0].plus_spec(values[1]) == claim_at::<F>(outs, inst.challenge, inst.alpha)
        }),
{
    let phase = first_phase(starts, d, i);
    let world = starts.len();
    let root = starts[0].insts[i];
    let c = root.challenge;
    let weights = eq_table(c.r_mpi);
    lemma_pow2_pos(starts[0].mpi_var_num());
    lemma_first_phase_starts(starts, d, i);
    lemma_first_phase_round(phase, 0);
    assert(starts[0].uniform());
    assert(root.wf());
    assert(phase.procs[0].challenge == c);
    let shares = Seq::new(
        world,
        |p: int| lanes_combined::<F>(round_sum(phase.procs[p], 0), phase.procs[p].pad.eq_simd),
    );
    assert(phase.at_wire(0) == phase.procs);
    assert(phase.sum(0) == dot(shares, weights, world));
    let firsts = Seq::new(world, |p: int| share_at::<F>(outs[p], c.rz_0, c.r_simd));
    let rz_1 = c.rz_1->0;
    let alpha = root.alpha->0;
    let seconds = Seq::new(world, |p: int| share_at::<F>(outs[p], rz_1, c.r_simd));
    let scaled = Seq::new(world, |p: int| seconds[p].times_spec(alpha));
    assert forall|p: int| 0 <= p < world implies #[trigger] shares[p] == if c.rz_1 is None {
        firsts[p]
    } else {
        scaled[p].plus_spec(firsts[p])
    } by {
        let inst = starts[p].insts[i];
        assert(starts[p].uniform());
        assert(inst.wf());
        assert(holds_point(inst));
        assert(holds_claims(inst));
        let next = inst.simd_prepared().mpi_prepared().x_prepared();
        assert(phase.procs[p] == next);
        assert forall|l: int| 0 <= l < F::pack_size_spec() implies #[trigger] next.pad.eq_simd[l]
            == eq_table(c.r_simd)[l] by {
            F::law_pack_size();
        }
        lemma_first_share(inst, outs[p]);
        F::ChallengeField::law_times_commutes(alpha, seconds[p]);
    }
    lemma_dot_commutes(firsts, weights, world);
    if c.rz_1 is None {
        assert(shares =~= firsts);
    } else {
        lemma_dot_plus(scaled, firsts, shares, weights, world);
        lemma_dot_times(seconds, scaled, alpha, weights, world);
        lemma_dot_commutes(seconds, weights, world);
        let (x, y) = (dot(weights, firsts, world), dot(weights, seconds, world));
        F::ChallengeField::law_times_commutes(y, alpha);
        F::ChallengeField::law_plus_commutes(alpha.times_spec(y), x);
    }
}

// ---------------------------------------------------------------------------
// The record of a layer
// ---------------------------------------------------------------------------

/// What the transcript of one instance holds of a layer: the values of each round, the challenges
/// that were drawn after them, and the claims.
#[verifier::ext_equal]
pub struct LayerRecord<E> {
    pub sent: Seq<Seq<E>>,
    pub drawn: Seq<E>,
    pub told: Seq<E>,
}

/// The record of instance `i` in a run of a layer.
pub open spec fn record_of<F: FieldEngine>(
    layer: LayerView<F>,
    events: Seq<Event<F::ChallengeField>>,
    i: int,
) -> LayerRecord<F::ChallengeField> {
    let asks = questions(layer.start().0, events, events.len());
    LayerRecord {
        sent: column(messages_of(asks), i),
        drawn: column(drawn(events, events.len()), i),
        told: column(appended_of(asks), i),
    }
}

/// How many rounds the first phase of a layer has, over `world` process variables.
pub open spec fn first_phase_rounds<F: FieldEngine>(layer: CircuitLayer<F>, world: nat) -> nat {
    layer.input_var_num as nat + log2_spec(F::pack_size_spec()) + world
}

/// How many rounds a layer has.
pub open spec fn rounds_of<F: FieldEngine>(layer: CircuitLayer<F>, world: nat) -> nat {
    first_phase_rounds(layer, world) + if layer.structure_info.skip_sumcheck_phase_two {
        0nat
    } else {
        layer.input_var_num as nat
    }
}

/// How many claims a layer leaves.
pub open spec fn claims_of<F: FieldEngine>(layer: CircuitLayer<F>) -> nat {
    if layer.structure_info.skip_sumcheck_phase_two {
        1
    } else {
        2
    }
}

/// The points that the claims of a layer are about, out of its challenges in the order of the
/// rounds: first input wires, lanes, processes, second input wires.
pub open spec fn point_left<F: FieldEngine>(
    layer: CircuitLayer<F>,
    world: nat,
    d: Seq<F::ChallengeField>,
) -> ChallengeView<F::ChallengeField> {
    let n = layer.input_var_num as int;
    let l = log2_spec(F::pack_size_spec()) as int;
    let w = world as int;
    ChallengeView {
        rz_0: d.subrange(0, n),
        rz_1: if layer.structure_info.skip_sumcheck_phase_two {
            None
        } else {
            Some(d.subrange(n + l + w, n + l + w + n))
        },
        r_simd: d.subrange(n, n + l),
        r_mpi: d.subrange(n + l, n + l + w),
    }
}

/// The record has all that a layer puts into it.
pub open spec fn is_complete<F: FieldEngine>(
    layer: CircuitLayer<F>,
    world: nat,
    record: LayerRecord<F::ChallengeField>,
) -> bool {
    &&& record.sent.len() == rounds_of(layer, world)
    &&& record.drawn.len() == rounds_of(layer, world)
    &&& record.told.len() == claims_of(layer)
}

/// The parts of a record are in order: values and challenges take turns, the first claim stands
/// between the phases and the second at the end.
pub open spec fn is_ordered<F: FieldEngine>(
    layer: CircuitLayer<F>,
    world: nat,
    record: LayerRecord<F::ChallengeField>,
) -> bool {
    let first = first_phase_rounds(layer, world);
    &&& record.drawn.len() <= record.sent.len() <= record.drawn.len() + 1
    &&& record.sent.len() <= rounds_of(layer, world)
    &&& record.told.len() <= claims_of(layer)
    &&& record.told.len() >= 1 ==> record.drawn.len() >= first
    &&& record.sent.len() > first ==> record.told.len() >= 1
    &&& record.told.len() >= 2 ==> record.drawn.len() == rounds_of(layer, world)
}

/// The record is that of a proof of `claim`: it is in order, the first round's values at zero and
/// one add up to the claim, within a phase every round continues the one before it, and the claims
/// it leaves are the values of the inputs, listed by process, at the challenges.
pub open spec fn follows<F: FieldEngine>(
    layer: CircuitLayer<F>,
    world: nat,
    inputs: Seq<Seq<F::SimdCircuitField>>,
    claim: F::ChallengeField,
    record: LayerRecord<F::ChallengeField>,
) -> bool {
    let LayerRecord { sent, drawn, told } = record;
    let first = first_phase_rounds(layer, world);
    let point = point_left(layer, world, drawn);
    &&& is_ordered(layer, world, record)
    &&& sent.len() > 0 ==> sent[0][0].plus_spec(sent[0][1]) == claim
    &&& forall|q: int|
        0 <= q < sent.len() - 1 && q + 1 != first ==> continues(
            #[trigger] sent[q],
            drawn[q],
            sent[q + 1],
        )
    &&& told.len() >= 1 ==> told[0] == value_at::<F>(
        inputs,
        point.rz_0,
        point.r_simd,
        point.r_mpi,
    )
    &&& told.len() >= 2 ==> told[1] == value_at::<F>(
        inputs,
        point.rz_1->0,
        point.r_simd,
        point.r_mpi,
    )
}

/// The challenges of a record, part by part.
proof fn lemma_parts<E>(d: Seq<Seq<E>>, i: int, from: int, n: nat)
    requires
        0 <= from,
        from + n <= d.len(),
    ensures
        column(d, i).subrange(from, from + n) == part_of(d, i, from, n),
{
    assert(column(d, i).subrange(from, from + n) =~= part_of(d, i, from, n));
}

/// The parts of the record are in order.
proof fn lemma_layer_ordered<F: FieldEngine>(
    starts: Seq<LayerView<F>>,
    events: Seq<Seq<Event<F::ChallengeField>>>,
    i: int,
)
    requires
        start_together(starts),
        is_joint_run(starts, events),
        hears_elements(starts, events),
        0 <= i < starts[0].insts.len(),
    ensures
        is_ordered(
            starts[0].insts[i].layer,
            starts[0].mpi_var_num(),
            record_of(starts[0], events[0], i),
        ),
{
    let inst = starts[0].insts[i];
    lemma_pow2_pos(starts[0].mpi_var_num());
    assert(starts[0].uniform());
    assert(inst.input_var_num() == starts[0].input_var_num());
    lemma_run_messages(starts, events, i);
    lemma_run_tells(starts, events, i);
    lemma_sends_in_turn(starts, events, i);
}

/// The rounds of the record start from the claim and continue one another.
proof fn lemma_layer_continues<F: FieldEngine>(
    starts: Seq<LayerView<F>>,
    events: Seq<Seq<Event<F::ChallengeField>>>,
    outs: Seq<Seq<F::SimdCircuitField>>,
    i: int,
)
    requires
        start_together(starts),
        is_joint_run(starts, events),
        0 <= i < starts[0].insts.len(),
        claims_together(starts, outs, i),
    ensures
        ({
            let inst = starts[0].insts[i];
            let LayerRecord { sent, drawn, told } = record_of(starts[0], events[0], i);
            let first = first_phase_rounds(inst.layer, starts[0].mpi_var_num());
            &&& sent.len() > 0 ==> sent[0][0].plus_spec(sent[0][1]) == claim_at::<F>(
                outs,
                inst.challenge,
                inst.alpha,
            )
            &&& forall|q: int|
                0 <= q < sent.len() - 1 && q + 1 != first ==> continues(
                    #[trigger] sent[q],
                    drawn[q],
                    sent[q + 1],
                )
        }),
{
    let inst = starts[0].insts[i];
    let world = starts[0].mpi_var_num();
    let k = events[0].len();
    let record = record_of(starts[0], events[0], i);
    let sent = messages_of(questions(starts[0].start().0, events[0], k));
    let d = drawn(events[0], k);
    lemma_pow2_pos(world);
    assert(starts[0].uniform());
    assert(inst.input_var_num() == starts[0].input_var_num());
    lemma_run_messages(starts, events, i);
    lemma_first_sum(starts, outs, d, i);
    if record.sent.len() > 0 {
        assert(sent[0][i] == message_at(starts, d, i, 0));
    }
    assert forall|q: int|
        0 <= q < record.sent.len() - 1 && q + 1 != first_phase_rounds(
            inst.layer,
            world,
        ) implies continues(
        #[trigger] record.sent[q],
        record.drawn[q],
        record.sent[q + 1],
    ) by {
        assert(continues(sent[q][i], d[q][i], sent[q + 1][i]));
    }
}

/// The claims of the record are the values of the inputs.
proof fn lemma_layer_tells<F: FieldEngine>(
    starts: Seq<LayerView<F>>,
    events: Seq<Seq<Event<F::ChallengeField>>>,
    i: int,
)
    requires
        start_together(starts),
        is_joint_run(starts, events),
        hears_elements(starts, events),
        0 <= i < starts[0].insts.len(),
    ensures
        ({
            let layer = starts[0].insts[i].layer;
            let LayerRecord { sent, drawn, told } = record_of(starts[0], events[0], i);
            let point = point_left(layer, starts[0].mpi_var_num(), drawn);
            let inputs = inputs_of(starts, i);
            &&& told.len() >= 1 ==> told[0] == value_at::<F>(
                inputs,
                point.rz_0,
                point.r_simd,
                point.r_mpi,
            )
            &&& told.len() >= 2 ==> told[1] == value_at::<F>(
                inputs,
                point.rz_1->0,
                point.r_simd,
                point.r_mpi,
            )
        }),
{
    let inst = starts[0].insts[i];
    let world = starts[0].mpi_var_num();
    let n = starts[0].input_var_num();
    let l = starts[0].simd_var_num();
    let k = events[0].len();
    let told = appended_of(questions(starts[0].start().0, events[0], k));
    let d = drawn(events[0], k);
    lemma_pow2_pos(world);
    assert(starts[0].uniform());
    assert(inst.input_var_num() == n);
    assert(inst.layer.structure_info.skip_sumcheck_phase_two == starts[0].skips_phase_two());
    lemma_run_tells(starts, events, i);
    if told.len() >= 1 {
        lemma_parts(d, i, 0, n);
        lemma_parts(d, i, n as int, l);
        lemma_parts(d, i, (n + l) as int, world);
    }
    if told.len() >= 2 {
        lemma_parts(d, i, (n + l + world) as int, n);
    }
}

/// A layer that is done has left a complete record, and returns what is in it.
proof fn lemma_layer_complete<F: FieldEngine>(
    starts: Seq<LayerView<F>>,
    events: Seq<Seq<Event<F::ChallengeField>>>,
    i: int,
)
    requires
        start_together(starts),
        is_joint_run(starts, events),
        hears_elements(starts, events),
        0 <= i < starts[0].insts.len(),
        reached(starts[0], events[0], events[0].len()).stage is Done,
    ensures
        ({
            let layer = starts[0].insts[i].layer;
            let world = starts[0].mpi_var_num();
            let record = record_of(starts[0], events[0], i);
            let done = reached(starts[0], events[0], events[0].len());
            &&& is_complete(layer, world, record)
            &&& done.challenges()[i] == point_left(layer, world, record.drawn)
            &&& done.claims()[i].0 == record.told[0]
            &&& done.claims()[i].1 is Some ==> done.claims()[i].1->0 == record.told[1]
        }),
{
    let inst = starts[0].insts[i];
    let world = starts[0].mpi_var_num();
    let n = starts[0].input_var_num();
    let l = starts[0].simd_var_num();
    let k = events[0].len();
    let d = drawn(events[0], k);
    lemma_pow2_pos(world);
    assert(starts[0].uniform());
    assert(inst.input_var_num() == n);
    assert(inst.layer.structure_info.skip_sumcheck_phase_two == starts[0].skips_phase_two());
    lemma_run_in_step(starts, events, k, 0);
    lemma_run_messages(starts, events, i);
    lemma_run_tells(starts, events, i);
    lemma_is_joint_run_root(starts, events);
    lemma_challenges_drawn(starts[0], events[0], i);
    lemma_parts(d, i, 0, n);
    lemma_parts(d, i, n as int, l);
    lemma_parts(d, i, (n + l) as int, world);
    if !starts[0].skips_phase_two() {
        lemma_parts(d, i, (n + l + world) as int, n);
    }
}

proof fn lemma_is_joint_run_root<F: FieldEngine>(
    starts: Seq<LayerView<F>>,
    events: Seq<Seq<Event<F::ChallengeField>>>,
)
    requires
        start_together(starts),
        is_joint_run(starts, events),
    ensures
        all_expected(starts[0].start().0, events[0]),
        starts[0].uniform(),
        !starts[0].gpu,
        starts[0].seen(0, 0, 0, 0),
{
    lemma_pow2_pos(starts[0].mpi_var_num());
    assert(starts[0].uniform());
    assert(events[0].len() == events[0].len());
}

/// The record of a run that processes make together is that of a proof of the claim that they
/// start from. A layer that is done has left a complete record, and the challenges and claims that
/// it returns are those in the record.
pub proof fn lemma_layer_follows<F: FieldEngine>(
    starts: Seq<LayerView<F>>,
    events: Seq<Seq<Event<F::ChallengeField>>>,
    outs: Seq<Seq<F::SimdCircuitField>>,
    i: int,
)
    requires
        start_together(starts),
        is_joint_run(starts, events),
        hears_elements(starts, events),
        0 <= i < starts[0].insts.len(),
        claims_together(starts, outs, i),
    ensures
        ({
            let inst = starts[0].insts[i];
            let world = starts[0].mpi_var_num();
            let record = record_of(starts[0], events[0], i);
            let done = reached(starts[0], events[0], events[0].len());
            &&& follows(
                inst.layer,
                world,
                inputs_of(starts, i),
                claim_at::<F>(outs, inst.challenge, inst.alpha),
                record,
            )
            &&& done.stage is Done ==> {
                &&& is_complete(inst.layer, world, record)
                &&& done.challenges()[i] == point_left(inst.layer, world, record.drawn)
                &&& done.claims()[i].0 == record.told[0]
                &&& done.claims()[i].1 is Some ==> done.claims()[i].1->0 == record.told[1]
            }
        }),
{
    lemma_layer_ordered(starts, events, i);
    lemma_layer_continues(starts, events, outs, i);
    lemma_layer_tells(starts, events, i);
    if reached(starts[0], events[0], events[0].len()).stage is Done {
        lemma_layer_complete(starts, events, i);
    }
}

/// The root sends the first values of the second phase after its first claims.
proof fn lemma_sends_in_turn<F: FieldEngine>(
    starts: Seq<LayerView<F>>,
    events: Seq<Seq<Event<F::ChallengeField>>>,
    i: int,
)
    requires
        start_together(starts),
        is_joint_run(starts, events),
        hears_elements(starts, events),
        0 <= i < starts[0].insts.len(),
    ensures
        ({
            let k = events[0].len();
            let asks = questions(starts[0].start().0, events[0], k);
            &&& messages_of(asks).len() > first_rounds(starts[0]) ==> appended_of(asks).len() >= 1
            &&& starts[0].skips_phase_two() ==> messages_of(asks).len() <= first_rounds(starts[0])
        }),
{
    let k = events[0].len();
    let root = reached(starts[0], events[0], k);
    lemma_pow2_pos(starts[0].mpi_var_num());
    assert(starts[0].uniform());
    lemma_run_messages(starts, events, i);
    lemma_run_tells(starts, events, i);
    lemma_run_in_step(starts, events, k, 0);
    lemma_sent_by_stage(starts, events, i);
}

// ---------------------------------------------------------------------------
// From the first phase to the second
// ---------------------------------------------------------------------------

/// The weight of each output wire in a claim: that of the first point, and with two points `alpha`
/// times that of the second too.
pub open spec fn claim_weights<E: Field>(
    point: ChallengeView<E>,
    alpha: Option<E>,
    n: nat,
) -> Seq<E> {
    Seq::new(
        n,
        |o: int|
            match (point.rz_1, alpha) {
                (Some(rz_1), Some(alpha)) => eq_table(point.rz_0)[o].plus_spec(
                    alpha.times_spec(eq_table(rz_1)[o]),
                ),
                _ => eq_table(point.rz_0)[o],
            },
    )
}

/// What the addition gates of a process's layer have to do with its inputs at the points that the
/// layer leaves.
pub open spec fn added_at<F: FieldEngine>(
    layer: CircuitLayer<F>,
    point: ChallengeView<F::ChallengeField>,
    alpha: Option<F::ChallengeField>,
    left: ChallengeView<F::ChallengeField>,
) -> F::ChallengeField {
    lanes_combined::<F>(
        add_sum(
            layer,
            claim_weights(point, alpha, pow2(layer.output_var_num as nat)),
            eq_table(left.rz_0),
            layer.add@.len(),
        ),
        eq_table(left.r_simd),
    )
}

/// What the multiplication gates of a process's layer have to do with its inputs at the points that
/// the layer leaves.
pub open spec fn multiplied_at<F: FieldEngine>(
    layer: CircuitLayer<F>,
    point: ChallengeView<F::ChallengeField>,
    alpha: Option<F::ChallengeField>,
    left: ChallengeView<F::ChallengeField>,
) -> F::ChallengeField {
    lanes_combined::<F>(
        wires_at::<F>(layer.input_vals@, left.rz_1->0).times_spec(
            mul_sum(
                layer,
                claim_weights(point, alpha, pow2(layer.output_var_num as nat)),
                eq_table(left.rz_0),
                eq_table(left.rz_1->0),
                layer.mul@.len(),
            ),
        ),
        eq_table(left.r_simd),
    )
}

/// The common factor of what the gates leave: how far the points agree in the lane and the process
/// variables, times the value `vx` of the inputs.
pub open spec fn common_factor<E: Field>(
    point: ChallengeView<E>,
    left: ChallengeView<E>,
    vx: E,
) -> E {
    eq_vec_spec(point.r_mpi, left.r_mpi, left.r_mpi.len()).times_spec(
        eq_vec_spec(point.r_simd, left.r_simd, left.r_simd.len()),
    ).times_spec(vx)
}

/// The share of the multiplication gates of all processes in what the second phase comes to.
pub open spec fn multiplied_share<F: FieldEngine>(
    layers: Seq<CircuitLayer<F>>,
    point: ChallengeView<F::ChallengeField>,
    alpha: Option<F::ChallengeField>,
    left: ChallengeView<F::ChallengeField>,
    vx: F::ChallengeField,
) -> F::ChallengeField {
    weighted(
        eq_table(left.r_mpi),
        Seq::new(layers.len(), |p: int| multiplied_at(layers[p], point, alpha, left)),
    ).times_spec(common_factor(point, left, vx))
}

/// The share of the addition gates of all processes in what the first phase comes to, when the
/// value of the inputs is `vx`.
pub open spec fn added_share<F: FieldEngine>(
    layers: Seq<CircuitLayer<F>>,
    point: ChallengeView<F::ChallengeField>,
    alpha: Option<F::ChallengeField>,
    left: ChallengeView<F::ChallengeField>,
    vx: F::ChallengeField,
) -> F::ChallengeField {
    weighted(
        eq_table(left.r_mpi),
        Seq::new(layers.len(), |p: int| added_at(layers[p], point, alpha, left)),
    ).times_spec(common_factor(point, left, vx))
}

/// No process has multiplication gates.
pub open spec fn adds_only<F: FieldEngine>(layers: Seq<CircuitLayer<F>>) -> bool {
    forall|p: int| 0 <= p < layers.len() ==> (#[trigger] layers[p]).mul@.len() == 0
}

/// The phases of a record join: at the last challenge of the first phase its polynomial takes the
/// value that the first values of the second phase at zero and one add up to, plus the share of the
/// addition gates; and without multiplication gates it takes the share of the addition gates. At
/// the last challenge of the second phase its polynomial takes the share of the multiplication
/// gates.
pub open spec fn joins<F: FieldEngine>(
    layers: Seq<CircuitLayer<F>>,
    world: nat,
    point: ChallengeView<F::ChallengeField>,
    alpha: Option<F::ChallengeField>,
    record: LayerRecord<F::ChallengeField>,
) -> bool {
    let LayerRecord { sent, drawn, told } = record;
    let first = first_phase_rounds(layers[0], world) as int;
    let left = point_left(layers[0], world, drawn);
    let rest = added_share(layers, point, alpha, left, told[0]);
    let last = rounds_of(layers[0], world) - 1;
    &&& sent.len() > first ==> leads_to(
        sent[first - 1],
        drawn[first - 1],
        sent[first][0].plus_spec(sent[first][1]).plus_spec(rest),
    )
    &&& told.len() >= 1 && adds_only(layers) ==> leads_to(sent[first - 1], drawn[first - 1], rest)
    &&& told.len() >= 2 ==> leads_to(
        sent[last],
        drawn[last],
        multiplied_share(layers, point, alpha, left, told[0]),
    )
}

/// The layers of instance `i`, by process.
pub open spec fn layers_by<F: FieldEngine>(starts: Seq<LayerView<F>>, i: int) -> Seq<
    CircuitLayer<F>,
> {
    Seq::new(starts.len(), |p: int| starts[p].insts[i].layer)
}

/// The first phase is prepared with the weights of the claim.
proof fn lemma_claim_weights<F: FieldEngine>(inst: InstView<F>, o: int)
    requires
        inst.wf(),
        holds_claims(inst),
        0 <= o < pow2(inst.layer.output_var_num as nat),
    ensures
        inst.simd_prepared().mpi_prepared().x_prepared().pad.eq_rz0[o] == claim_weights(
            inst.challenge,
            inst.alpha,
            pow2(inst.layer.output_var_num as nat),
        )[o],
{
    if inst.challenge.rz_1 is Some {
        let (rz_0, rz_1, alpha) = (
            inst.challenge.rz_0,
            inst.challenge.rz_1->0,
            inst.alpha->0,
        );
        assert(inst.pad.eq_rx[o] == eq_table(rz_0)[o]);
        lemma_eq_weight_factor(rz_1, alpha, o);
        F::ChallengeField::law_times_commutes(eq_table(rz_1)[o], alpha);
        F::ChallengeField::law_plus_commutes(
            alpha.times_spec(eq_table(rz_1)[o]),
            eq_table(rz_0)[o],
        );
    }
}

/// The coefficient of the second phase is the common factor.
proof fn lemma_common_factor<F: FieldEngine>(
    starts: Seq<LayerView<F>>,
    d: Seq<Seq<F::ChallengeField>>,
    i: int,
    left: ChallengeView<F::ChallengeField>,
)
    requires
        start_together(starts),
        0 <= i < starts[0].insts.len(),
        left.r_simd == first_phase(starts, d, i).r_simd,
        left.r_mpi == first_phase(starts, d, i).r_mpi,
    ensures
        first_phase(starts, d, i).second_coef() == common_factor(
            starts[0].insts[i].challenge,
            left,
            first_phase(starts, d, i).at_process(starts[0].mpi_var_num()).vx(),
        ),
{
    let phase = first_phase(starts, d, i);
    let root = starts[0].insts[i];
    let pack = F::pack_size_spec() as nat;
    lemma_pow2_pos(starts[0].mpi_var_num());
    lemma_first_phase_starts(starts, d, i);
    lemma_phases_added(phase);
    F::law_pack_size();
    let own = phase.procs[0];
    assert(starts[0].uniform());
    assert(root.wf());
    assert(holds_point(root));
    assert(own == root.simd_prepared().mpi_prepared().x_prepared());
    assert forall|l: int| 0 <= l < pack implies #[trigger] own.pad.eq_simd[l] == eq_table(
        root.challenge.r_simd,
    )[l] by {}
    lemma_dot_same(
        eq_table(left.r_simd),
        own.pad.eq_simd,
        eq_table(left.r_simd),
        eq_table(root.challenge.r_simd),
        pack,
    );
    lemma_eq_tables(root.challenge.r_simd, left.r_simd);
}

/// What the phases leave of the gates of a process, out of the claim and the challenges.
proof fn lemma_gates_left<F: FieldEngine>(
    starts: Seq<LayerView<F>>,
    outs: Seq<Seq<F::SimdCircuitField>>,
    d: Seq<Seq<F::ChallengeField>>,
    i: int,
    left: ChallengeView<F::ChallengeField>,
    p: int,
)
    requires
        start_together(starts),
        0 <= i < starts[0].insts.len(),
        claims_together(starts, outs, i),
        left.rz_0 == first_phase(starts, d, i).rx,
        left.r_simd == first_phase(starts, d, i).r_simd,
        0 <= p < starts.len(),
    ensures
        ({
            let phase = first_phase(starts, d, i);
            let inst = starts[0].insts[i];
            let layer = starts[p].insts[i].layer;
            &&& phase.added(p) == added_at(layer, inst.challenge, inst.alpha, left)
            &&& phase.multiplied(left.rz_1->0, p) == multiplied_at(
                layer,
                inst.challenge,
                inst.alpha,
                left,
            )
        }),
{
    let phase = first_phase(starts, d, i);
    let root = starts[0].insts[i];
    let inst = starts[p].insts[i];
    let layer = inst.layer;
    let outputs = pow2(layer.output_var_num as nat);
    lemma_first_phase_starts(starts, d, i);
    assert(starts[p].uniform());
    assert(inst.wf());
    assert(holds_point(inst));
    assert(holds_claims(inst));
    assert(phase.procs[p] == inst.simd_prepared().mpi_prepared().x_prepared());
    let weights = claim_weights(root.challenge, root.alpha, outputs);
    assert forall|o: int| 0 <= o < outputs implies #[trigger] phase.procs[p].pad.eq_rz0[o]
        == weights[o] by {
        lemma_claim_weights(inst, o);
    }
    lemma_add_sum_same(
        layer,
        phase.procs[p].pad.eq_rz0,
        eq_table(phase.rx),
        weights,
        eq_table(left.rz_0),
        layer.add@.len(),
    );
    lemma_mul_sum_same(
        layer,
        phase.procs[p].pad.eq_rz0,
        eq_table(phase.rx),
        weights,
        eq_table(left.rz_0),
        eq_table(left.rz_1->0),
        layer.mul@.len(),
    );
}

/// What the phases leave of the gates, out of the claim and the challenges.
proof fn lemma_shares_left<F: FieldEngine>(
    starts: Seq<LayerView<F>>,
    outs: Seq<Seq<F::SimdCircuitField>>,
    d: Seq<Seq<F::ChallengeField>>,
    i: int,
    left: ChallengeView<F::ChallengeField>,
)
    requires
        start_together(starts),
        0 <= i < starts[0].insts.len(),
        claims_together(starts, outs, i),
        left.rz_0 == first_phase(starts, d, i).rx,
        left.r_simd == first_phase(starts, d, i).r_simd,
        left.r_mpi == first_phase(starts, d, i).r_mpi,
    ensures
        ({
            let phase = first_phase(starts, d, i);
            let inst = starts[0].insts[i];
            let vx = phase.at_process(starts[0].mpi_var_num()).vx();
            let layers = layers_by(starts, i);
            &&& phase.all_added().times_spec(phase.second_coef()) == added_share(
                layers,
                inst.challenge,
                inst.alpha,
                left,
                vx,
            )
            &&& weighted(
                eq_table(phase.r_mpi),
                Seq::new(phase.procs.len(), |p: int| phase.multiplied(left.rz_1->0, p)),
            ).times_spec(phase.second_coef()) == multiplied_share(
                layers,
                inst.challenge,
                inst.alpha,
                left,
                vx,
            )
        }),
{
    let phase = first_phase(starts, d, i);
    let root = starts[0].insts[i];
    let layers = layers_by(starts, i);
    let n = layers.len();
    lemma_common_factor(starts, d, i, left);
    let adds = Seq::new(n, |p: int| phase.added(p));
    let muls = Seq::new(n, |p: int| phase.multiplied(left.rz_1->0, p));
    let a = Seq::new(n, |p: int| added_at(layers[p], root.challenge, root.alpha, left));
    let b = Seq::new(n, |p: int| multiplied_at(layers[p], root.challenge, root.alpha, left));
    assert forall|p: int| 0 <= p < n implies #[trigger] adds[p] == a[p] by {
        lemma_gates_left(starts, outs, d, i, left, p);
    }
    assert forall|p: int| 0 <= p < n implies #[trigger] muls[p] == b[p] by {
        lemma_gates_left(starts, outs, d, i, left, p);
    }
    assert(adds =~= a);
    assert(muls =~= b);
}

/// The phases of the record of a run that processes make together join.
pub proof fn lemma_layer_joins<F: FieldEngine>(
    starts: Seq<LayerView<F>>,
    events: Seq<Seq<Event<F::ChallengeField>>>,
    outs: Seq<Seq<F::SimdCircuitField>>,
    i: int,
)
    requires
        start_together(starts),
        is_joint_run(starts, events),
        hears_elements(starts, events),
        0 <= i < starts[0].insts.len(),
        claims_together(starts, outs, i),
    ensures
        joins(
            layers_by(starts, i),
            starts[0].mpi_var_num(),
            starts[0].insts[i].challenge,
            starts[0].insts[i].alpha,
            record_of(starts[0], events[0], i),
        ),
{
    let root = starts[0].insts[i];
    let layers = layers_by(starts, i);
    let world = starts[0].mpi_var_num();
    let n = starts[0].input_var_num();
    let l = starts[0].simd_var_num();
    let k = events[0].len();
    let record = record_of(starts[0], events[0], i);
    let sent = messages_of(questions(starts[0].start().0, events[0], k));
    let d = drawn(events[0], k);
    let phase = first_phase(starts, d, i);
    let left = point_left(layers[0], world, record.drawn);
    let first = first_phase_rounds(layers[0], world);
    lemma_pow2_pos(world);
    assert(starts[0].uniform());
    assert(root.input_var_num() == n);
    assert(layers[0] == root.layer);
    lemma_layer_ordered(starts, events, i);
    lemma_run_messages(starts, events, i);
    lemma_told_first(starts, events, i, k);
    lemma_first_phase_starts(starts, d, i);
    if record.told.len() >= 1 {
        lemma_parts(d, i, 0, n);
        lemma_parts(d, i, n as int, l);
        lemma_parts(d, i, (n + l) as int, world);
        assert(part_of(d, i, 0, n) =~= phase.rx);
        assert(part_of(d, i, n as int, l) =~= phase.r_simd);
        assert(part_of(d, i, (n + l) as int, world) =~= phase.r_mpi);
        lemma_shares_left(starts, outs, d, i, left);
        assert(sent[first - 1][i] == message_at(starts, d, i, (first - 1) as nat));
        assert(phase.challenge((first - 1) as nat) == d[first - 1][i]);
        if adds_only(layers) {
            assert forall|p: int| 0 <= p < phase.procs.len() implies (
            #[trigger] phase.procs[p]).layer.mul@.len() == 0 by {
                assert(layers[p].mul@.len() == 0);
            }
            lemma_adds_only(phase);
        }
    }
    if record.sent.len() > first {
        assert(sent[first as int][i] == message_at(starts, d, i, first));
        lemma_phases_join(phase, second_challenges(starts, d, i));
    }
    if record.told.len() >= 2 {
        let ry = second_challenges(starts, d, i);
        let last = rounds_of(layers[0], world) - 1;
        lemma_parts(d, i, (n + l + world) as int, n);
        assert(part_of(d, i, (n + l + world) as int, n) =~= ry);
        assert(left.rz_1 == Some(ry));
        assert(sent[last][i] == message_at(starts, d, i, last as nat));
        assert(ry[n - 1] == d[last][i]);
        lemma_second_end(phase, ry);
    }
}

// ---------------------------------------------------------------------------
// What a layer leaves on the scratch pads
// ---------------------------------------------------------------------------

/// The scratch pad holds the equality tables of the challenges of the first phase.
pub open spec fn leaves_tables<F: FieldEngine>(inst: InstView<F>) -> bool {
    &&& forall|k: int|
        0 <= k < pow2(inst.input_var_num()) ==> #[trigger] inst.pad.eq_rx[k] == eq_table(
            inst.rx,
        )[k]
    &&& forall|l: int|
        0 <= l < F::pack_size_spec() ==> #[trigger] inst.pad.eq_simd[l] == eq_table(
            inst.r_simd_var,
        )[l]
    &&& forall|k: int|
        0 <= k < pow2(inst.mpi_var_num) ==> #[trigger] inst.pad.eq_mpi[k] == eq_table(
            inst.r_mpi_var,
        )[k]
}

/// The second phase has started.
pub open spec fn is_second<E>(stage: StageView<E>) -> bool {
    match stage {
        StageView::GpuSetup { first } => !first,
        StageView::Combine { first, .. } | StageView::Challenge { first, .. } => !first,
        StageView::VyCombine | StageView::VyAppend { .. } => true,
        StageView::Done { claim } => claim is Some,
        _ => false,
    }
}

/// Once the second phase has started, every instance holds the tables.
spec fn holds_tables_left<F: FieldEngine>(layer: LayerView<F>) -> bool {
    is_second(layer.stage) ==> forall|i: int|
        0 <= i < layer.insts.len() ==> leaves_tables(#[trigger] layer.insts[i])
}

proof fn lemma_step_leaves<F: FieldEngine>(layer: LayerView<F>, event: Event<F::ChallengeField>)
    requires
        layer.wf(),
        !layer.gpu,
        layer.input_var_num() >= 1,
        layer.expects(event),
        stays_on_host(event),
        holds_tables_left(layer),
    ensures
        holds_tables_left(layer.step(event).0),
{
    let next = layer.step(event).0;
    F::law_pack_size();
    if is_second(next.stage) {
        assert forall|i: int| 0 <= i < next.insts.len() implies leaves_tables(
            #[trigger] next.insts[i],
        ) by {
            let inst = layer.insts[i];
            assert(inst.wf());
            if layer.stage is Broadcast {
                assert(inst.rx.len() == layer.input_var_num());
                assert(inst.mpi_var_num == layer.mpi_var_num());
                assert(inst.input_var_num() == layer.input_var_num());
                assert(next.insts[i] == inst.y_prepared(event->Broadcasted_roots[i]));
            } else {
                assert(leaves_tables(inst));
            }
        }
    }
}

/// On the host a layer leaves the equality tables of its first challenges on the scratch pads,
/// unless it skips the second phase.
pub proof fn lemma_run_leaves<F: FieldEngine>(
    starts: Seq<LayerView<F>>,
    events: Seq<Seq<Event<F::ChallengeField>>>,
    k: nat,
    p: int,
    i: int,
)
    requires
        start_together(starts),
        is_joint_run(starts, events),
        k <= events[0].len(),
        0 <= p < starts.len(),
        0 <= i < starts[0].insts.len(),
        is_second(reached(starts[p], events[p], k).stage),
    ensures
        leaves_tables(reached(starts[p], events[p], k).insts[i]),
{
    lemma_run_in_step(starts, events, k, p);
    lemma_run_holds(starts, events, k, p);
}

proof fn lemma_run_holds<F: FieldEngine>(
    starts: Seq<LayerView<F>>,
    events: Seq<Seq<Event<F::ChallengeField>>>,
    k: nat,
    p: int,
)
    requires
        start_together(starts),
        is_joint_run(starts, events),
        k <= events[0].len(),
        0 <= p < starts.len(),
    ensures
        holds_tables_left(reached(starts[p], events[p], k)),
    decreases k,
{
    if k > 0 {
        let m = (k - 1) as nat;
        lemma_run_holds(starts, events, m, p);
        lemma_run_in_step(starts, events, m, p);
        assert(events[p].len() == events[0].len());
        let state = reached(starts[p], events[p], m);
        assert(state.expects(events[p][m as int]));
        assert(stays_on_host(events[p][m as int]));
        lemma_step_leaves(state, events[p][m as int]);
    } else {
        assert(starts[p].uniform());
        assert(starts[p].prepared().insts[0].layer == starts[p].insts[0].layer);
    }
}

} // verus!
