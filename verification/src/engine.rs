//! Field configurations: the rings a prover run uses and the maps between them.

use vstd::prelude::*;
use vstd::std_specs::bits::u64_trailing_zeros;

use crate::field::Field;
use crate::m31::{ext3_product, lemma_pack_equal, m31_of, pack_of, M31, M31Ext3, Pack};

verus! {

/// The kind of a field configuration. Only `M31x16` has GPU kernels.
#[derive(Clone, Copy, Debug, PartialEq, Eq, Structural)]
pub enum FieldType {
    M31x16,
    Other,
}

/// The number of trailing zero bits, which is the base-two logarithm of a power of two.
pub open spec fn log2_spec(n: usize) -> nat {
    u64_trailing_zeros(n as u64) as nat
}

/// Counts the trailing zero bits of `n`.
pub fn log2(n: usize) -> (r: usize)
    ensures
        r == log2_spec(n),
        r <= 64,
{
    broadcast use vstd::std_specs::bits::axiom_u64_trailing_zeros;
    let m: u64 = n as u64;
    m.trailing_zeros() as usize
}

/// A choice of rings: gate coefficients live in `CircuitField`, wire values in
/// `SimdCircuitField` (one circuit element per lane), verifier challenges in `ChallengeField`,
/// and the prover's tables in `Field` (one challenge-field element per lane).
pub trait FieldEngine: Sized {
    type CircuitField: Copy;

    type SimdCircuitField: Copy;

    type ChallengeField: Field;

    type Field: Field;

    spec fn field_type_spec() -> FieldType;

    /// The number of lanes of `Field` and `SimdCircuitField`.
    spec fn pack_size_spec() -> usize;

    /// A circuit element as an element of the challenge field.
    spec fn embed_spec(x: Self::CircuitField) -> Self::ChallengeField;

    /// The same challenge-field element in every lane.
    spec fn broadcast_spec(x: Self::ChallengeField) -> Self::Field;

    /// A wire value as an element of the table ring.
    spec fn promote_spec(x: Self::SimdCircuitField) -> Self::Field;

    /// The lanes of a table element.
    spec fn unpack_spec(x: Self::Field) -> Seq<Self::ChallengeField>;

    /// The machine words of a table element, limb-major: limb `j` of lane `l` is word
    /// `j * pack_size + l`.
    spec fn field_words(x: Self::Field) -> Seq<u32>;

    /// The table element held by limb-major machine words.
    spec fn field_of_words(words: Seq<u32>) -> Self::Field;

    /// The machine words of a wire value, one per lane.
    spec fn simd_words(x: Self::SimdCircuitField) -> Seq<u32>;

    /// The three machine words of a challenge.
    spec fn challenge_limbs_spec(x: Self::ChallengeField) -> Seq<u32>;

    fn field_type() -> (r: FieldType)
        ensures
            r == Self::field_type_spec(),
    ;

    fn get_field_pack_size() -> (r: usize)
        ensures
            r == Self::pack_size_spec(),
    ;

    fn embed(x: Self::CircuitField) -> (r: Self::ChallengeField)
        ensures
            r == Self::embed_spec(x),
    ;

    fn broadcast(x: Self::ChallengeField) -> (r: Self::Field)
        ensures
            r == Self::broadcast_spec(x),
    ;

    fn promote(x: Self::SimdCircuitField) -> (r: Self::Field)
        ensures
            r == Self::promote_spec(x),
    ;

    fn unpack(x: Self::Field) -> (r: Vec<Self::ChallengeField>)
        ensures
            r@ == Self::unpack_spec(x),
    ;

    /// Appends the words of a table element.
    fn push_field_words(x: Self::Field, out: &mut Vec<u32>)
        requires
            Self::field_type_spec() == FieldType::M31x16,
        ensures
            final(out)@ == old(out)@ + Self::field_words(x),
    ;

    /// Reads the table element whose words start at `start`.
    fn field_from_words(words: &Vec<u32>, start: usize) -> (r: Self::Field)
        requires
            Self::field_type_spec() == FieldType::M31x16,
            start + 3 * Self::pack_size_spec() <= words@.len(),
        ensures
            r == Self::field_of_words(
                words@.subrange(start as int, start + 3 * Self::pack_size_spec()),
            ),
    ;

    /// Appends the words of a wire value.
    fn push_simd_words(x: Self::SimdCircuitField, out: &mut Vec<u32>)
        requires
            Self::field_type_spec() == FieldType::M31x16,
        ensures
            final(out)@ == old(out)@ + Self::simd_words(x),
    ;

    fn challenge_limbs(x: Self::ChallengeField) -> (r: [u32; 3])
        requires
            Self::field_type_spec() == FieldType::M31x16,
        ensures
            r@ == Self::challenge_limbs_spec(x),
    ;

    /// The number of lanes is a power of two; the GPU configuration has sixteen.
    proof fn law_pack_size()
        ensures
            Self::pack_size_spec() >= 1,
            Self::pack_size_spec() == vstd::arithmetic::power2::pow2(
                log2_spec(Self::pack_size_spec()),
            ),
            Self::field_type_spec() == FieldType::M31x16 ==> Self::pack_size_spec() == 16,
    ;

    /// Spreading a scalar over the lanes respects the ring operations.
    proof fn law_broadcast(a: Self::ChallengeField, b: Self::ChallengeField)
        ensures
            Self::broadcast_spec(Self::ChallengeField::zero_spec()) == Self::Field::zero_spec(),
            Self::broadcast_spec(Self::ChallengeField::one_spec()) == Self::Field::one_spec(),
            Self::broadcast_spec(a.plus_spec(b)) == Self::broadcast_spec(a).plus_spec(
                Self::broadcast_spec(b),
            ),
            Self::broadcast_spec(a.minus_spec(b)) == Self::broadcast_spec(a).minus_spec(
                Self::broadcast_spec(b),
            ),
            Self::broadcast_spec(a.times_spec(b)) == Self::broadcast_spec(a).times_spec(
                Self::broadcast_spec(b),
            ),
            a.valid() ==> Self::broadcast_spec(a).valid(),
    ;

    /// The table ring works lane by lane.
    proof fn law_unpack(x: Self::Field, y: Self::Field, c: Self::ChallengeField, lane: int)
        requires
            0 <= lane < Self::pack_size_spec(),
        ensures
            Self::unpack_spec(x).len() == Self::pack_size_spec(),
            Self::unpack_spec(x.plus_spec(y))[lane] == Self::unpack_spec(x)[lane].plus_spec(
                Self::unpack_spec(y)[lane],
            ),
            Self::unpack_spec(x.minus_spec(y))[lane] == Self::unpack_spec(x)[lane].minus_spec(
                Self::unpack_spec(y)[lane],
            ),
            Self::unpack_spec(x.times_spec(y))[lane] == Self::unpack_spec(x)[lane].times_spec(
                Self::unpack_spec(y)[lane],
            ),
            Self::unpack_spec(Self::Field::zero_spec())[lane] == Self::ChallengeField::zero_spec(),
            Self::unpack_spec(Self::broadcast_spec(c))[lane] == c,
            x.valid() ==> Self::unpack_spec(x)[lane].valid(),
    ;

    /// Word counts of the GPU configuration; that reading back what was written out restores the
    /// element; and that a promoted wire value has its own words in limb zero.
    proof fn law_words(
        x: Self::Field,
        v: Self::SimdCircuitField,
        c: Self::ChallengeField,
    )
        requires
            Self::field_type_spec() == FieldType::M31x16,
        ensures
            Self::field_words(x).len() == 3 * Self::pack_size_spec(),
            Self::simd_words(v).len() == Self::pack_size_spec(),
            Self::challenge_limbs_spec(c).len() == 3,
            x.valid() ==> Self::field_of_words(Self::field_words(x)) == x,
            Self::field_words(Self::promote_spec(v)) == Self::simd_words(v) + Seq::new(
                (2 * Self::pack_size_spec()) as nat,
                |i: int| 0u32,
            ),
    ;
}

/// Sixteen-lane Mersenne field with challenges in the cubic extension.
#[derive(Clone, Copy, Debug, PartialEq, Eq)]
pub struct M31x16Config {}

/// Word `limb` of an extension element.
pub open spec fn ext3_limb(x: M31Ext3, limb: int) -> u32 {
    if limb == 0 {
        x.c0.v
    } else if limb == 1 {
        x.c1.v
    } else {
        x.c2.v
    }
}

fn get_ext3_limb(x: M31Ext3, limb: usize) -> (r: u32)
    ensures
        r == ext3_limb(x, limb as int),
{
    if limb == 0 {
        x.c0.v
    } else if limb == 1 {
        x.c1.v
    } else {
        x.c2.v
    }
}

impl FieldEngine for M31x16Config {
    type CircuitField = M31;

    type SimdCircuitField = Pack<M31>;

    type ChallengeField = M31Ext3;

    type Field = Pack<M31Ext3>;

    open spec fn field_type_spec() -> FieldType {
        FieldType::M31x16
    }

    open spec fn pack_size_spec() -> usize {
        16
    }

    open spec fn embed_spec(x: M31) -> M31Ext3 {
        M31Ext3 { c0: x, c1: M31 { v: 0 }, c2: M31 { v: 0 } }
    }

    open spec fn broadcast_spec(x: M31Ext3) -> Pack<M31Ext3> {
        pack_of(|i: int| x)
    }

    open spec fn promote_spec(x: Pack<M31>) -> Pack<M31Ext3> {
        pack_of(|i: int| M31Ext3 { c0: x.lanes[i], c1: M31 { v: 0 }, c2: M31 { v: 0 } })
    }

    open spec fn unpack_spec(x: Pack<M31Ext3>) -> Seq<M31Ext3> {
        x.lanes@
    }

    open spec fn field_words(x: Pack<M31Ext3>) -> Seq<u32> {
        Seq::new(48, |k: int| ext3_limb(x.lanes[k % 16], k / 16))
    }

    open spec fn field_of_words(words: Seq<u32>) -> Pack<M31Ext3> {
        pack_of(
            |i: int|
                M31Ext3 {
                    c0: m31_of(words[i] as int),
                    c1: m31_of(words[16 + i] as int),
                    c2: m31_of(words[32 + i] as int),
                },
        )
    }

    open spec fn simd_words(x: Pack<M31>) -> Seq<u32> {
        Seq::new(16, |k: int| x.lanes[k].v)
    }

    open spec fn challenge_limbs_spec(x: M31Ext3) -> Seq<u32> {
        seq![x.c0.v, x.c1.v, x.c2.v]
    }

    fn field_type() -> (r: FieldType) {
        FieldType::M31x16
    }

    fn get_field_pack_size() -> (r: usize) {
        16
    }

    fn embed(x: M31) -> (r: M31Ext3) {
        M31Ext3 { c0: x, c1: M31 { v: 0 }, c2: M31 { v: 0 } }
    }

    fn broadcast(x: M31Ext3) -> (r: Pack<M31Ext3>) {
        let r = Pack { lanes: [x, x, x, x, x, x, x, x, x, x, x, x, x, x, x, x] };
        proof {
            lemma_pack_equal(r, Self::broadcast_spec(x));
        }
        r
    }

    fn promote(x: Pack<M31>) -> (r: Pack<M31Ext3>) {
        let mut r = Self::broadcast(M31Ext3::zero());
        for k in 0..16usize
            invariant
                forall|i: int|
                    0 <= i < k ==> #[trigger] r.lanes[i] == (M31Ext3 {
                        c0: x.lanes[i],
                        c1: M31 { v: 0 },
                        c2: M31 { v: 0 },
                    }),
        {
            r.lanes[k] = Self::embed(x.lanes[k]);
        }
        proof {
            lemma_pack_equal(r, Self::promote_spec(x));
        }
        r
    }

    fn unpack(x: Pack<M31Ext3>) -> (r: Vec<M31Ext3>) {
        let mut r: Vec<M31Ext3> = Vec::new();
        for k in 0..16usize
            invariant
                r@ == x.lanes@.take(k as int),
        {
            r.push(x.lanes[k]);
        }
        r
    }

    fn push_field_words(x: Pack<M31Ext3>, out: &mut Vec<u32>) {
        for k in 0..48usize
            invariant
                out@ == old(out)@ + Self::field_words(x).take(k as int),
        {
            out.push(get_ext3_limb(x.lanes[k % 16], k / 16));
            assert(Self::field_words(x).take(k + 1) == Self::field_words(x).take(k as int).push(
                Self::field_words(x)[k as int],
            ));
        }
        assert(Self::field_words(x).take(48) == Self::field_words(x));
    }

    fn field_from_words(words: &Vec<u32>, start: usize) -> (r: Pack<M31Ext3>) {
        let mut r = Self::broadcast(M31Ext3::zero());
        let ghost part = words@.subrange(start as int, start + 48);
        let n: usize = words.len();
        for k in 0..16usize
            invariant
                start + 48 <= n,
                n == words@.len(),
                part == words@.subrange(start as int, start + 48),
                forall|i: int|
                    0 <= i < k ==> #[trigger] r.lanes[i] == (M31Ext3 {
                        c0: m31_of(part[i] as int),
                        c1: m31_of(part[16 + i] as int),
                        c2: m31_of(part[32 + i] as int),
                    }),
        {
            r.lanes[k] =
            M31Ext3 {
                c0: M31::new(words[start + k]),
                c1: M31::new(words[start + 16 + k]),
                c2: M31::new(words[start + 32 + k]),
            };
        }
        proof {
            lemma_pack_equal(r, Self::field_of_words(part));
        }
        r
    }

    fn push_simd_words(x: Pack<M31>, out: &mut Vec<u32>) {
        for k in 0..16usize
            invariant
                out@ == old(out)@ + Self::simd_words(x).take(k as int),
        {
            out.push(x.lanes[k].v);
            assert(Self::simd_words(x).take(k + 1) == Self::simd_words(x).take(k as int).push(
                Self::simd_words(x)[k as int],
            ));
        }
        assert(Self::simd_words(x).take(16) == Self::simd_words(x));
    }

    fn challenge_limbs(x: M31Ext3) -> (r: [u32; 3]) {
        let r = [x.c0.v, x.c1.v, x.c2.v];
        assert(r@ =~= Self::challenge_limbs_spec(x));
        r
    }

    proof fn law_pack_size() {
        broadcast use vstd::std_specs::bits::axiom_u64_trailing_zeros;

        let t = u64_trailing_zeros(16u64);
        assert(t == 4) by {
            assert(16u64 >> 4u64 == 1u64) by (bit_vector);
            assert(1u64 & 1u64 == 1u64) by (bit_vector);
            if t > 4 {
                assert((16u64 >> 4u64) & 1u64 == 0u64);
            }
            if t < 4 {
                let s = t as u64;
                assert((16u64 >> s) & 1u64 == 0u64) by (bit_vector)
                    requires
                        s < 4u64,
                ;
            }
        }
        vstd::arithmetic::power2::lemma2_to64();
    }

    proof fn law_broadcast(a: M31Ext3, b: M31Ext3) {
        lemma_pack_equal(
            Self::broadcast_spec(M31Ext3::zero_spec()),
            <Pack<M31Ext3> as Field>::zero_spec(),
        );
        lemma_pack_equal(
            Self::broadcast_spec(M31Ext3::one_spec()),
            <Pack<M31Ext3> as Field>::one_spec(),
        );
        let (x, y) = (Self::broadcast_spec(a), Self::broadcast_spec(b));
        lemma_pack_equal(Self::broadcast_spec(a.plus_spec(b)), x.plus_spec(y));
        lemma_pack_equal(Self::broadcast_spec(a.minus_spec(b)), x.minus_spec(y));
        lemma_pack_equal(Self::broadcast_spec(a.times_spec(b)), x.times_spec(y));
    }

    proof fn law_unpack(x: Pack<M31Ext3>, y: Pack<M31Ext3>, c: M31Ext3, lane: int) {
    }

    proof fn law_words(x: Pack<M31Ext3>, v: Pack<M31>, c: M31Ext3) {
        if x.valid() {
            let w = Self::field_words(x);
            let r = Self::field_of_words(w);
            assert forall|i: int| 0 <= i < 16 implies #[trigger] r.lanes[i] == x.lanes[i] by {
                assert(x.lanes[i].valid());
                assert(w[i] == x.lanes[i].c0.v);
                assert(w[16 + i] == x.lanes[i].c1.v);
                assert(w[32 + i] == x.lanes[i].c2.v);
            }
            lemma_pack_equal(r, x);
        }
        let p = Self::field_words(Self::promote_spec(v));
        assert(p =~= Self::simd_words(v) + Seq::new(32, |i: int| 0u32));
    }
}

/// The base field lies in the extension: its sums and products are those of the extension, and so
/// are its zero and one.
pub proof fn lemma_embed(a: M31, b: M31)
    ensures
        M31x16Config::embed_spec(M31::zero_spec()) == M31Ext3::zero_spec(),
        M31x16Config::embed_spec(M31::one_spec()) == M31Ext3::one_spec(),
        M31x16Config::embed_spec(a.plus_spec(b)) == M31x16Config::embed_spec(a).plus_spec(
            M31x16Config::embed_spec(b),
        ),
        M31x16Config::embed_spec(a.times_spec(b)) == M31x16Config::embed_spec(a).times_spec(
            M31x16Config::embed_spec(b),
        ),
{
    let (x, y) = (a.v as int, b.v as int);
    assert(ext3_product((x, 0, 0), (y, 0, 0)) == (x * y, 0int, 0int)) by {
        assert(x * 0 == 0 && 0 * y == 0);
    }
}

/// Wire values are promoted lane by lane, each as an element of the base field.
pub proof fn lemma_promote_lanes(v: Pack<M31>, lane: int)
    requires
        0 <= lane < 16,
    ensures
        M31x16Config::unpack_spec(M31x16Config::promote_spec(v))[lane] == M31x16Config::embed_spec(
            v.lanes[lane],
        ),
{
}

} // verus!
