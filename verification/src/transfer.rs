//! What goes to the GPU comes back, and a batch's share of the GPU is what each instance would
//! have alone.

use vstd::arithmetic::power2::*;
use vstd::prelude::*;

use crate::cuda_dispatch::{BatchedGpuSumcheckContext, ContextImage};
use crate::engine::{FieldEngine, FieldType};
use crate::extension::promoted;
use crate::field::Field;
use crate::instance::{
    component_words, lemma_word_counts, table_of_words, table_words, wire_words, InstView,
};
use crate::layout::{
    base_as_promoted_lanes, ext3_as_lanes, lanes_as_ext3, lemma_digits, lemma_ext3_round_trip,
    lemma_position,
};
use crate::lockstep::only;
use crate::product_gate::quadratic_values;
use crate::rounds::all_valid;

verus! {

// ---------------------------------------------------------------------------
// Tables
// ---------------------------------------------------------------------------

/// The words of a table, element by element.
pub proof fn lemma_table_words_at<F: FieldEngine>(table: Seq<F::Field>, n: nat, k: int)
    requires
        F::field_type_spec() == FieldType::M31x16,
        0 <= k < n,
    ensures
        table_words::<F>(table, n).subrange(k * 48, k * 48 + 48) == F::field_words(table[k]),
    decreases n,
{
    let m = (n - 1) as nat;
    F::law_pack_size();
    let v: F::SimdCircuitField = arbitrary();
    F::law_words(table[k], v, F::ChallengeField::zero_spec());
    lemma_word_counts::<F>(table, Seq::empty(), m);
    F::law_words(table[m as int], v, F::ChallengeField::zero_spec());
    let whole = table_words::<F>(table, n);
    if k < m {
        lemma_table_words_at::<F>(table, m, k);
        assert(whole.subrange(k * 48, k * 48 + 48) =~= table_words::<F>(table, m).subrange(
            k * 48,
            k * 48 + 48,
        ));
    } else {
        assert(whole.subrange(k * 48, k * 48 + 48) =~= F::field_words(table[k]));
    }
}

/// Reading a table from its own words restores it.
pub proof fn lemma_table_round_trip<F: FieldEngine>(
    before: Seq<F::Field>,
    table: Seq<F::Field>,
    n: nat,
)
    requires
        F::field_type_spec() == FieldType::M31x16,
        n <= before.len(),
        all_valid(table, n),
    ensures
        forall|k: int|
            0 <= k < n ==> #[trigger] table_of_words::<F>(
                before,
                table_words::<F>(table, n),
                n,
            )[k] == table[k],
{
    F::law_pack_size();
    assert forall|k: int| 0 <= k < n implies #[trigger] table_of_words::<F>(
        before,
        table_words::<F>(table, n),
        n,
    )[k] == table[k] by {
        let v: F::SimdCircuitField = arbitrary();
        lemma_table_words_at::<F>(table, n, k);
        F::law_words(table[k], v, F::ChallengeField::zero_spec());
    }
}

/// A table that was laid out for the GPU and comes back unchanged is the table.
pub proof fn lemma_upload_download<F: FieldEngine>(
    inst: InstView<F>,
    table: Seq<F::Field>,
    wires: bool,
    n: nat,
)
    requires
        F::field_type_spec() == FieldType::M31x16,
        inst.wf(),
        n <= pow2(inst.input_var_num()),
        all_valid(table, n),
    ensures
        ({
            let sent = ext3_as_lanes(table_words::<F>(table, n), n as int, 16);
            let back = inst.downloaded(wires, lanes_as_ext3(sent, n as int, 16), n);
            let restored = if wires {
                back.pad.v_evals
            } else {
                back.pad.hg_evals
            };
            forall|k: int| 0 <= k < n ==> #[trigger] restored[k] == table[k]
        }),
{
    lemma_word_counts::<F>(table, Seq::empty(), n);
    lemma_ext3_round_trip(table_words::<F>(table, n), n as int, 16);
    if wires {
        lemma_table_round_trip::<F>(inst.pad.v_evals, table, n);
    } else {
        lemma_table_round_trip::<F>(inst.pad.hg_evals, table, n);
    }
}

/// The wire table that the GPU starts from holds the promoted wire values.
pub proof fn lemma_promoted_upload<F: FieldEngine>(vals: Seq<F::SimdCircuitField>, n: nat)
    requires
        F::field_type_spec() == FieldType::M31x16,
        n <= vals.len(),
    ensures
        base_as_promoted_lanes(wire_words::<F>(vals, n), n as int, 16) == ext3_as_lanes(
            table_words::<F>(promoted::<F>(vals), n),
            n as int,
            16,
        ),
{
    let words = wire_words::<F>(vals, n);
    let table = table_words::<F>(promoted::<F>(vals), n);
    let num = n as int;
    lemma_word_counts::<F>(promoted::<F>(vals), vals, n);
    let a = base_as_promoted_lanes(words, num, 16);
    let b = ext3_as_lanes(table, num, 16);
    assert forall|i: int| 0 <= i < 16 * num * 3 implies #[trigger] a[i] == b[i] by {
        lemma_digits(i, 16, num, 3);
        let (lane, k, limb) = (i / 3 / num, (i / 3) % num, i % 3);
        lemma_position(k, limb, lane, num, 3, 16);
        lemma_table_words_at::<F>(promoted::<F>(vals), n, k);
        lemma_wire_words_at::<F>(vals, n, k);
        F::law_pack_size();
        F::law_words(
            F::promote_spec(vals[k]),
            vals[k],
            F::ChallengeField::zero_spec(),
        );
        let own = F::field_words(F::promote_spec(vals[k]));
        assert(table.subrange(k * 48, k * 48 + 48)[limb * 16 + lane] == own[limb * 16 + lane]);
        assert(words.subrange(k * 16, k * 16 + 16)[lane] == F::simd_words(vals[k])[lane]);
    }
    assert(a =~= b);
}

/// The words of wire values, value by value.
pub proof fn lemma_wire_words_at<F: FieldEngine>(vals: Seq<F::SimdCircuitField>, n: nat, k: int)
    requires
        F::field_type_spec() == FieldType::M31x16,
        0 <= k < n,
    ensures
        wire_words::<F>(vals, n).subrange(k * 16, k * 16 + 16) == F::simd_words(vals[k]),
    decreases n,
{
    let m = (n - 1) as nat;
    F::law_pack_size();
    let x = F::Field::zero_spec();
    F::law_words(x, vals[k], F::ChallengeField::zero_spec());
    F::law_words(x, vals[m as int], F::ChallengeField::zero_spec());
    lemma_word_counts::<F>(Seq::empty(), vals, m);
    let whole = wire_words::<F>(vals, n);
    if k < m {
        lemma_wire_words_at::<F>(vals, m, k);
        assert(whole.subrange(k * 16, k * 16 + 16) =~= wire_words::<F>(vals, m).subrange(
            k * 16,
            k * 16 + 16,
        ));
    } else {
        assert(whole.subrange(k * 16, k * 16 + 16) =~= F::simd_words(vals[k]));
    }
}

/// Where the GPU's results are the words of the round's sums, the round's values are those of the
/// sums.
pub proof fn lemma_gpu_values<F: FieldEngine>(
    lanes: [[u32; 9]; 16],
    sums: (F::Field, F::Field, F::Field),
)
    requires
        F::field_type_spec() == FieldType::M31x16,
        sums.0.valid(),
        sums.1.valid(),
        sums.2.valid(),
        component_words(lanes, 16, 0) == F::field_words(sums.0),
        component_words(lanes, 16, 1) == F::field_words(sums.1),
        component_words(lanes, 16, 2) == F::field_words(sums.2),
    ensures
        InstView::<F>::gpu_values(lanes) == quadratic_values(sums),
{
    F::law_pack_size();
    let v: F::SimdCircuitField = arbitrary();
    let c = F::ChallengeField::zero_spec();
    F::law_words(sums.0, v, c);
    F::law_words(sums.1, v, c);
    F::law_words(sums.2, v, c);
}

// ---------------------------------------------------------------------------
// Instances of a batch
// ---------------------------------------------------------------------------

/// The results of an instance are those that its own words decode to.
pub proof fn lemma_decode_alone(
    n: int,
    pack: int,
    words: Seq<u32>,
    results: Seq<[[u32; 9]; 16]>,
    i: int,
)
    requires
        0 <= pack,
        0 <= i < n,
        words.len() == n * pack * 9,
        BatchedGpuSumcheckContext::decodes(n, pack, words, results),
    ensures
        BatchedGpuSumcheckContext::decodes(
            1,
            pack,
            words.subrange(i * pack * 9, (i + 1) * pack * 9),
            only(results, i),
        ),
{
    assert((i + 1) * pack * 9 == i * pack * 9 + pack * 9) by (nonlinear_arith);
    assert(0 <= i * pack && i * pack + pack <= n * pack) by (nonlinear_arith)
        requires
            0 <= i < n,
            0 <= pack,
    ;
    let own = words.subrange(i * pack * 9, (i + 1) * pack * 9);
    assert forall|k: int, lane: int, c: int|
        0 <= k < 1 && 0 <= lane < 16 && 0 <= c < 9 implies #[trigger] only(
        results,
        i,
    )[k]@[lane]@[c] == if lane < pack {
        own[(k * pack + lane) * 9 + c]
    } else {
        0
    } by {
        assert(results[i]@[lane]@[c] == if lane < pack {
            words[(i * pack + lane) * 9 + c]
        } else {
            0
        });
        if lane < pack {
            assert((i * pack + lane) * 9 + c == i * pack * 9 + (lane * 9 + c)) by (nonlinear_arith);
            assert(k * pack == 0) by (nonlinear_arith)
                requires
                    k == 0,
            ;
        }
    }
}

/// The challenges that a batch sends for an instance are those it would send alone.
pub proof fn lemma_replicated_alone(ctx: BatchedGpuSumcheckContext, r: Seq<Seq<u32>>, i: int)
    requires
        0 <= i < ctx.n_instances,
        r.len() == ctx.n_instances,
    ensures
        ({
            let one = BatchedGpuSumcheckContext { n_instances: 1, ..ctx };
            ctx.replicated(r).subrange(
                i * ctx.pack_size * 3,
                (i + 1) * ctx.pack_size * 3,
            ) == one.replicated(only(r, i))
        }),
{
    let one = BatchedGpuSumcheckContext { n_instances: 1, ..ctx };
    let pack = ctx.pack_size as int;
    let n = ctx.n_instances as int;
    assert((i + 1) * pack * 3 == i * pack * 3 + pack * 3) by (nonlinear_arith);
    assert(0 <= i * pack && i * pack + pack <= n * pack) by (nonlinear_arith)
        requires
            0 <= i < n,
            0 <= pack,
    ;
    let own = ctx.replicated(r).subrange(i * pack * 3, (i + 1) * pack * 3);
    let alone = one.replicated(only(r, i));
    assert forall|w: int| 0 <= w < pack * 3 implies #[trigger] own[w] == alone[w] by {
        let at = i * pack * 3 + w;
        assert(at / 3 == i * pack + w / 3 && at % 3 == w % 3);
        let lane = w / 3;
        assert((i * pack + lane) / pack == i) by {
            vstd::arithmetic::div_mod::lemma_fundamental_div_mod_converse(
                i * pack + lane,
                pack,
                i,
                lane,
            );
        }
        assert(lane / pack == 0) by {
            vstd::arithmetic::div_mod::lemma_fundamental_div_mod_converse(lane, pack, 0, lane);
        }
    }
    assert(own =~= alone);
}

/// The part of a batch's image that is about an instance is the image it would have alone.
pub proof fn lemma_image_alone(
    batch: ContextImage,
    one: ContextImage,
    hg_evals: Seq<u32>,
    init_v: Seq<u32>,
    i: int,
)
    requires
        one.wf(),
        one.n_instances == 1,
        one.pack_size == batch.pack_size,
        one.input_size == batch.input_size,
        batch.holds(i, hg_evals, init_v),
        one.holds(0, hg_evals, init_v),
    ensures
        ({
            let ext3 = batch.pack_size * batch.input_size * 3;
            let base = (batch.pack_size * batch.input_size) as int;
            &&& ContextImage::part(batch.hg@, i, ext3) == one.hg@
            &&& ContextImage::part(batch.bk_f@, i, ext3) == one.bk_f@
            &&& ContextImage::part(batch.init_v@, i, base) == one.init_v@
        }),
{
    let ext3 = batch.pack_size * batch.input_size * 3;
    let base = (batch.pack_size * batch.input_size) as int;
    assert(ContextImage::part(one.hg@, 0, ext3) =~= one.hg@);
    assert(ContextImage::part(one.bk_f@, 0, ext3) =~= one.bk_f@);
    assert(ContextImage::part(one.init_v@, 0, base) =~= one.init_v@);
}

} // verus!
