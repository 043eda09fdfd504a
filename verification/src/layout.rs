//! Conversions between the two memory layouts of packed tables.
//!
//! The prover keeps a table element by element, limb-major within an element: limb `j` of lane
//! `l` of element `k` is word `(k * limbs + j) * pack_size + l`. The GPU kernels want one
//! segment per lane, holding that lane's elements one after the other: the same word is
//! `(l * num_elems + k) * limbs + j`.

use vstd::arithmetic::div_mod::*;
use vstd::arithmetic::mul::*;
use vstd::prelude::*;

verus! {

// ---------------------------------------------------------------------------
// Positions
// ---------------------------------------------------------------------------

/// The position of digits `a`, `b`, `c` in a mixed radix whose lower digits run below `nb`
/// and `nc`.
pub open spec fn position(a: int, b: int, c: int, nb: int, nc: int) -> int {
    (a * nb + b) * nc + c
}

/// Digits give a position in range, and division recovers them.
pub proof fn lemma_position(a: int, b: int, c: int, na: int, nb: int, nc: int)
    requires
        0 <= a < na,
        0 <= b < nb,
        0 <= c < nc,
    ensures
        0 <= a * nb,
        0 <= a * nb + b < na * nb,
        0 <= (a * nb + b) * nc,
        0 <= position(a, b, c, nb, nc) < na * nb * nc,
        position(a, b, c, nb, nc) / nc == a * nb + b,
        position(a, b, c, nb, nc) % nc == c,
        (a * nb + b) / nb == a,
        (a * nb + b) % nb == b,
{
    let m = a * nb + b;
    assert(0 <= a * nb && a * nb + nb <= na * nb) by (nonlinear_arith)
        requires
            0 <= a < na,
            0 < nb,
    ;
    assert(0 <= m * nc && m * nc + nc <= (na * nb) * nc) by (nonlinear_arith)
        requires
            0 <= m < na * nb,
            0 < nc,
    ;
    lemma_fundamental_div_mod_converse(m * nc + c, nc, m, c);
    lemma_fundamental_div_mod_converse(m, nb, a, b);
}

/// A position in range splits into digits that give it back.
pub proof fn lemma_digits(i: int, na: int, nb: int, nc: int)
    requires
        0 <= i < na * nb * nc,
        0 <= na,
        0 < nb,
        0 < nc,
    ensures
        0 <= i / nc / nb < na,
        0 <= (i / nc) % nb < nb,
        0 <= i % nc < nc,
        position(i / nc / nb, (i / nc) % nb, i % nc, nb, nc) == i,
{
    let m = i / nc;
    lemma_fundamental_div_mod(i, nc);
    lemma_mod_bound(i, nc);
    lemma_fundamental_div_mod(m, nb);
    lemma_mod_bound(m, nb);
    lemma_mul_is_commutative(nc, m);
    lemma_mul_is_commutative(nb, m / nb);
    lemma_div_pos_is_pos(i, nc);
    lemma_div_pos_is_pos(m, nb);
    assert(m < na * nb) by (nonlinear_arith)
        requires
            m * nc <= i,
            i < (na * nb) * nc,
            0 < nc,
    ;
    assert(m / nb < na) by (nonlinear_arith)
        requires
            (m / nb) * nb <= m,
            m < na * nb,
            0 < nb,
    ;
}

/// The buffer after the words from `offset` on have been replaced by `part`.
pub open spec fn spliced(buffer: Seq<u32>, offset: int, part: Seq<u32>) -> Seq<u32> {
    Seq::new(
        buffer.len(),
        |i: int|
            if offset <= i < offset + part.len() {
                part[i - offset]
            } else {
                buffer[i]
            },
    )
}

// ---------------------------------------------------------------------------
// The converted tables
// ---------------------------------------------------------------------------

/// Lane segments of an extension-field table.
pub open spec fn ext3_as_lanes(src: Seq<u32>, num_elems: int, pack_size: int) -> Seq<u32> {
    Seq::new(
        (pack_size * num_elems * 3) as nat,
        |i: int| src[position((i / 3) % num_elems, i % 3, i / 3 / num_elems, 3, pack_size)],
    )
}

/// The extension-field table held by lane segments.
pub open spec fn lanes_as_ext3(src: Seq<u32>, num_elems: int, pack_size: int) -> Seq<u32> {
    Seq::new(
        (num_elems * 3 * pack_size) as nat,
        |i: int|
            src[position(i % pack_size, i / pack_size / 3, (i / pack_size) % 3, num_elems, 3)],
    )
}

/// Lane segments of a base-field table.
pub open spec fn base_as_lanes(src: Seq<u32>, num_elems: int, pack_size: int) -> Seq<u32> {
    Seq::new(
        (pack_size * num_elems) as nat,
        |i: int| src[(i % num_elems) * pack_size + i / num_elems],
    )
}

/// Lane segments of a base-field table whose elements are read as extension elements: the base
/// value is limb zero and the other two limbs are zero.
pub open spec fn base_as_promoted_lanes(src: Seq<u32>, num_elems: int, pack_size: int) -> Seq<u32> {
    Seq::new(
        (pack_size * num_elems * 3) as nat,
        |i: int|
            if i % 3 == 0 {
                src[((i / 3) % num_elems) * pack_size + i / 3 / num_elems]
            } else {
                0
            },
    )
}

// ---------------------------------------------------------------------------
// Conversions
// ---------------------------------------------------------------------------

/// Splits an extension-field table into lane segments, written from `dst_offset` on.
pub fn convert_simd_ext3_to_aos(
    src: &Vec<u32>,
    dst: &mut Vec<u32>,
    dst_offset: usize,
    num_elems: usize,
    pack_size: usize,
)
    requires
        num_elems * 3 * pack_size <= src@.len(),
        dst_offset + pack_size * num_elems * 3 <= old(dst)@.len(),
    ensures
        final(dst)@ == spliced(
            old(dst)@,
            dst_offset as int,
            ext3_as_lanes(src@, num_elems as int, pack_size as int),
        ),
{
    let ghost part = ext3_as_lanes(src@, num_elems as int, pack_size as int);
    let ghost start = dst@;
    let src_len: usize = src.len();
    let dst_len: usize = dst.len();
    proof {
        assert(pack_size * num_elems * 3 >= 0) by (nonlinear_arith)
            requires
                pack_size >= 0,
                num_elems >= 0,
        ;
    }
    let mut at: usize = dst_offset;
    for lane in 0..pack_size
        invariant
            part == ext3_as_lanes(src@, num_elems as int, pack_size as int),
            num_elems * 3 * pack_size <= src_len,
            src_len == src@.len(),
            part.len() == pack_size * num_elems * 3,
            dst_offset + part.len() <= dst_len,
            dst_len == start.len(),
            dst@.len() == start.len(),
            at == dst_offset + lane * num_elems * 3,
            forall|i: int|
                dst_offset <= i < at ==> #[trigger] dst@[i] == part[i - dst_offset],
            forall|i: int|
                0 <= i < dst@.len() && !(dst_offset <= i < at) ==> #[trigger] dst@[i] == start[i],
    {
        for k in 0..num_elems
            invariant
                part == ext3_as_lanes(src@, num_elems as int, pack_size as int),
                num_elems * 3 * pack_size <= src_len,
                src_len == src@.len(),
                part.len() == pack_size * num_elems * 3,
                dst_offset + part.len() <= dst_len,
                dst_len == start.len(),
                dst@.len() == start.len(),
                lane < pack_size,
                at == dst_offset + (lane * num_elems + k) * 3,
                forall|i: int|
                    dst_offset <= i < at ==> #[trigger] dst@[i] == part[i - dst_offset],
                forall|i: int|
                    0 <= i < dst@.len() && !(dst_offset <= i < at) ==> #[trigger] dst@[i]
                        == start[i],
        {
            for limb in 0..3usize
                invariant
                    part == ext3_as_lanes(src@, num_elems as int, pack_size as int),
                    num_elems * 3 * pack_size <= src_len,
                    src_len == src@.len(),
                    part.len() == pack_size * num_elems * 3,
                    dst_offset + part.len() <= dst_len,
                    dst_len == start.len(),
                    dst@.len() == start.len(),
                    lane < pack_size,
                    k < num_elems,
                    at == dst_offset + (lane * num_elems + k) * 3 + limb,
                    forall|i: int|
                        dst_offset <= i < at ==> #[trigger] dst@[i] == part[i - dst_offset],
                    forall|i: int|
                        0 <= i < dst@.len() && !(dst_offset <= i < at) ==> #[trigger] dst@[i]
                            == start[i],
            {
                proof {
                    lemma_position(
                        lane as int,
                        k as int,
                        limb as int,
                        pack_size as int,
                        num_elems as int,
                        3,
                    );
                    lemma_position(
                        k as int,
                        limb as int,
                        lane as int,
                        num_elems as int,
                        3,
                        pack_size as int,
                    );
                }
                dst[at] = src[(k * 3 + limb) * pack_size + lane];
                at = at + 1;
            }
        }
        proof {
            assert((lane + 1) * num_elems * 3 == (lane * num_elems + num_elems) * 3)
                by (nonlinear_arith);
        }
    }
    assert(dst@ =~= spliced(start, dst_offset as int, part));
}

/// Merges lane segments into an extension-field table, written from `dst_offset` on.
pub fn convert_aos_to_simd_ext3(
    src: &Vec<u32>,
    dst: &mut Vec<u32>,
    dst_offset: usize,
    num_elems: usize,
    pack_size: usize,
)
    requires
        pack_size * num_elems * 3 <= src@.len(),
        dst_offset + num_elems * 3 * pack_size <= old(dst)@.len(),
    ensures
        final(dst)@ == spliced(
            old(dst)@,
            dst_offset as int,
            lanes_as_ext3(src@, num_elems as int, pack_size as int),
        ),
{
    let ghost part = lanes_as_ext3(src@, num_elems as int, pack_size as int);
    let ghost start = dst@;
    let src_len: usize = src.len();
    let dst_len: usize = dst.len();
    proof {
        assert(num_elems * 3 * pack_size >= 0) by (nonlinear_arith)
            requires
                pack_size >= 0,
                num_elems >= 0,
        ;
        lemma_mul_basics(pack_size as int);
    }
    let mut at: usize = dst_offset;
    for k in 0..num_elems
        invariant
            part == lanes_as_ext3(src@, num_elems as int, pack_size as int),
            pack_size * num_elems * 3 <= src_len,
            src_len == src@.len(),
            part.len() == num_elems * 3 * pack_size,
            dst_offset + part.len() <= dst_len,
            dst_len == start.len(),
            dst@.len() == start.len(),
            at == dst_offset + k * 3 * pack_size,
            forall|i: int|
                dst_offset <= i < at ==> #[trigger] dst@[i] == part[i - dst_offset],
            forall|i: int|
                0 <= i < dst@.len() && !(dst_offset <= i < at) ==> #[trigger] dst@[i] == start[i],
    {
        for limb in 0..3usize
            invariant
                part == lanes_as_ext3(src@, num_elems as int, pack_size as int),
                pack_size * num_elems * 3 <= src_len,
                src_len == src@.len(),
                part.len() == num_elems * 3 * pack_size,
                dst_offset + part.len() <= dst_len,
                dst_len == start.len(),
                dst@.len() == start.len(),
                k < num_elems,
                at == dst_offset + (k * 3 + limb) * pack_size,
                forall|i: int|
                    dst_offset <= i < at ==> #[trigger] dst@[i] == part[i - dst_offset],
                forall|i: int|
                    0 <= i < dst@.len() && !(dst_offset <= i < at) ==> #[trigger] dst@[i]
                        == start[i],
        {
            for lane in 0..pack_size
                invariant
                    part == lanes_as_ext3(src@, num_elems as int, pack_size as int),
                    pack_size * num_elems * 3 <= src_len,
                    src_len == src@.len(),
                    part.len() == num_elems * 3 * pack_size,
                    dst_offset + part.len() <= dst_len,
                    dst_len == start.len(),
                    dst@.len() == start.len(),
                    k < num_elems,
                    limb < 3,
                    at == dst_offset + (k * 3 + limb) * pack_size + lane,
                    forall|i: int|
                        dst_offset <= i < at ==> #[trigger] dst@[i] == part[i - dst_offset],
                    forall|i: int|
                        0 <= i < dst@.len() && !(dst_offset <= i < at) ==> #[trigger] dst@[i]
                            == start[i],
            {
                proof {
                    lemma_position(
                        lane as int,
                        k as int,
                        limb as int,
                        pack_size as int,
                        num_elems as int,
                        3,
                    );
                    lemma_position(
                        k as int,
                        limb as int,
                        lane as int,
                        num_elems as int,
                        3,
                        pack_size as int,
                    );
                }
                dst[at] = src[(lane * num_elems + k) * 3 + limb];
                at = at + 1;
            }
            proof {
                assert((k * 3 + (limb + 1)) * pack_size == (k * 3 + limb) * pack_size + pack_size)
                    by (nonlinear_arith);
            }
        }
        proof {
            assert((k + 1) * 3 * pack_size == (k * 3 + 3) * pack_size) by (nonlinear_arith);
        }
    }
    assert(dst@ =~= spliced(start, dst_offset as int, part));
}

/// Splits a base-field table into lane segments, written from `dst_offset` on.
pub fn convert_simd_base_to_aos(
    src: &Vec<u32>,
    dst: &mut Vec<u32>,
    dst_offset: usize,
    num_elems: usize,
    pack_size: usize,
)
    requires
        num_elems * pack_size <= src@.len(),
        dst_offset + pack_size * num_elems <= old(dst)@.len(),
    ensures
        final(dst)@ == spliced(
            old(dst)@,
            dst_offset as int,
            base_as_lanes(src@, num_elems as int, pack_size as int),
        ),
{
    let ghost part = base_as_lanes(src@, num_elems as int, pack_size as int);
    let ghost start = dst@;
    let src_len: usize = src.len();
    let dst_len: usize = dst.len();
    proof {
        lemma_mul_nonnegative(pack_size as int, num_elems as int);
        lemma_mul_basics(num_elems as int);
    }
    let mut at: usize = dst_offset;
    for lane in 0..pack_size
        invariant
            part == base_as_lanes(src@, num_elems as int, pack_size as int),
            num_elems * pack_size <= src_len,
            src_len == src@.len(),
            part.len() == pack_size * num_elems,
            dst_offset + part.len() <= dst_len,
            dst_len == start.len(),
            dst@.len() == start.len(),
            at == dst_offset + lane * num_elems,
            forall|i: int|
                dst_offset <= i < at ==> #[trigger] dst@[i] == part[i - dst_offset],
            forall|i: int|
                0 <= i < dst@.len() && !(dst_offset <= i < at) ==> #[trigger] dst@[i] == start[i],
    {
        for k in 0..num_elems
            invariant
                part == base_as_lanes(src@, num_elems as int, pack_size as int),
                num_elems * pack_size <= src_len,
                src_len == src@.len(),
                part.len() == pack_size * num_elems,
                dst_offset + part.len() <= dst_len,
                dst_len == start.len(),
                dst@.len() == start.len(),
                lane < pack_size,
                at == dst_offset + lane * num_elems + k,
                forall|i: int|
                    dst_offset <= i < at ==> #[trigger] dst@[i] == part[i - dst_offset],
                forall|i: int|
                    0 <= i < dst@.len() && !(dst_offset <= i < at) ==> #[trigger] dst@[i]
                        == start[i],
        {
            proof {
                lemma_position(
                    lane as int,
                    k as int,
                    0,
                    pack_size as int,
                    num_elems as int,
                    1,
                );
                lemma_position(
                    k as int,
                    lane as int,
                    0,
                    num_elems as int,
                    pack_size as int,
                    1,
                );
            }
            dst[at] = src[k * pack_size + lane];
            at = at + 1;
        }
        proof {
            assert((lane + 1) * num_elems == lane * num_elems + num_elems) by (nonlinear_arith);
        }
    }
    assert(dst@ =~= spliced(start, dst_offset as int, part));
}

/// Splits a base-field table into lane segments of extension elements `[v, 0, 0]`, written from
/// `dst_offset` on.
pub fn convert_simd_base_to_promoted_ext3_aos(
    src: &Vec<u32>,
    dst: &mut Vec<u32>,
    dst_offset: usize,
    num_elems: usize,
    pack_size: usize,
)
    requires
        num_elems * pack_size <= src@.len(),
        dst_offset + pack_size * num_elems * 3 <= old(dst)@.len(),
    ensures
        final(dst)@ == spliced(
            old(dst)@,
            dst_offset as int,
            base_as_promoted_lanes(src@, num_elems as int, pack_size as int),
        ),
{
    let ghost part = base_as_promoted_lanes(src@, num_elems as int, pack_size as int);
    let ghost start = dst@;
    let src_len: usize = src.len();
    let dst_len: usize = dst.len();
    proof {
        assert(pack_size * num_elems * 3 >= 0) by (nonlinear_arith)
            requires
                pack_size >= 0,
                num_elems >= 0,
        ;
    }
    let mut at: usize = dst_offset;
    for lane in 0..pack_size
        invariant
            part == base_as_promoted_lanes(src@, num_elems as int, pack_size as int),
            num_elems * pack_size <= src_len,
            src_len == src@.len(),
            part.len() == pack_size * num_elems * 3,
            dst_offset + part.len() <= dst_len,
            dst_len == start.len(),
            dst@.len() == start.len(),
            at == dst_offset + lane * num_elems * 3,
            forall|i: int|
                dst_offset <= i < at ==> #[trigger] dst@[i] == part[i - dst_offset],
            forall|i: int|
                0 <= i < dst@.len() && !(dst_offset <= i < at) ==> #[trigger] dst@[i] == start[i],
    {
        for k in 0..num_elems
            invariant
                part == base_as_promoted_lanes(src@, num_elems as int, pack_size as int),
                num_elems * pack_size <= src_len,
                src_len == src@.len(),
                part.len() == pack_size * num_elems * 3,
                dst_offset + part.len() <= dst_len,
                dst_len == start.len(),
                dst@.len() == start.len(),
                lane < pack_size,
                at == dst_offset + (lane * num_elems + k) * 3,
                forall|i: int|
                    dst_offset <= i < at ==> #[trigger] dst@[i] == part[i - dst_offset],
                forall|i: int|
                    0 <= i < dst@.len() && !(dst_offset <= i < at) ==> #[trigger] dst@[i]
                        == start[i],
        {
            proof {
                lemma_position(
                    lane as int,
                    k as int,
                    0,
                    pack_size as int,
                    num_elems as int,
                    3,
                );
                lemma_position(
                    lane as int,
                    k as int,
                    1,
                    pack_size as int,
                    num_elems as int,
                    3,
                );
                lemma_position(
                    lane as int,
                    k as int,
                    2,
                    pack_size as int,
                    num_elems as int,
                    3,
                );
                lemma_position(
                    k as int,
                    lane as int,
                    0,
                    num_elems as int,
                    pack_size as int,
                    1,
                );
            }
            dst[at] = src[k * pack_size + lane];
            dst[at + 1] = 0;
            dst[at + 2] = 0;
            at = at + 3;
        }
        proof {
            assert((lane + 1) * num_elems * 3 == (lane * num_elems + num_elems) * 3)
                by (nonlinear_arith);
        }
    }
    assert(dst@ =~= spliced(start, dst_offset as int, part));
}

// ---------------------------------------------------------------------------
// Laws
// ---------------------------------------------------------------------------

/// Merging the lane segments of a table gives the table back.
pub proof fn lemma_ext3_round_trip(src: Seq<u32>, num_elems: int, pack_size: int)
    requires
        0 <= num_elems,
        0 <= pack_size,
        src.len() == num_elems * 3 * pack_size,
    ensures
        lanes_as_ext3(ext3_as_lanes(src, num_elems, pack_size), num_elems, pack_size) == src,
{
    let lanes = ext3_as_lanes(src, num_elems, pack_size);
    let back = lanes_as_ext3(lanes, num_elems, pack_size);
    assert forall|i: int| 0 <= i < src.len() implies #[trigger] back[i] == src[i] by {
        assert(num_elems > 0 && pack_size > 0) by (nonlinear_arith)
            requires
                0 <= i < num_elems * 3 * pack_size,
                0 <= num_elems,
                0 <= pack_size,
        ;
        lemma_digits(i, num_elems, 3, pack_size);
        let (k, limb, lane) = (i / pack_size / 3, (i / pack_size) % 3, i % pack_size);
        lemma_position(lane, k, limb, pack_size, num_elems, 3);
    }
    assert(back =~= src);
}

/// Splitting a merged table gives the lane segments back.
pub proof fn lemma_lanes_round_trip(src: Seq<u32>, num_elems: int, pack_size: int)
    requires
        0 <= num_elems,
        0 <= pack_size,
        src.len() == pack_size * num_elems * 3,
    ensures
        ext3_as_lanes(lanes_as_ext3(src, num_elems, pack_size), num_elems, pack_size) == src,
{
    let table = lanes_as_ext3(src, num_elems, pack_size);
    let back = ext3_as_lanes(table, num_elems, pack_size);
    assert forall|i: int| 0 <= i < src.len() implies #[trigger] back[i] == src[i] by {
        assert(num_elems > 0 && pack_size > 0) by (nonlinear_arith)
            requires
                0 <= i < pack_size * num_elems * 3,
                0 <= num_elems,
                0 <= pack_size,
        ;
        lemma_digits(i, pack_size, num_elems, 3);
        let (lane, k, limb) = (i / 3 / num_elems, (i / 3) % num_elems, i % 3);
        lemma_position(k, limb, lane, num_elems, 3, pack_size);
    }
    assert(back =~= src);
}

/// Every lane of every element ends up as one contiguous run of three limbs in its segment.
pub proof fn lemma_ext3_as_lanes_at(
    src: Seq<u32>,
    num_elems: int,
    pack_size: int,
    k: int,
    lane: int,
    limb: int,
)
    requires
        0 <= k < num_elems,
        0 <= lane < pack_size,
        0 <= limb < 3,
        src.len() >= num_elems * 3 * pack_size,
    ensures
        ext3_as_lanes(src, num_elems, pack_size)[position(lane, k, limb, num_elems, 3)]
            == src[position(k, limb, lane, 3, pack_size)],
{
    lemma_position(lane, k, limb, pack_size, num_elems, 3);
}

/// Promoting keeps the base value in limb zero and clears the other limbs.
pub proof fn lemma_promoted_limbs(
    src: Seq<u32>,
    num_elems: int,
    pack_size: int,
    k: int,
    lane: int,
    limb: int,
)
    requires
        0 <= k < num_elems,
        0 <= lane < pack_size,
        0 <= limb < 3,
        src.len() >= num_elems * pack_size,
    ensures
        base_as_promoted_lanes(src, num_elems, pack_size)[position(lane, k, limb, num_elems, 3)]
            == if limb == 0 {
            base_as_lanes(src, num_elems, pack_size)[lane * num_elems + k]
        } else {
            0u32
        },
{
    lemma_position(lane, k, limb, pack_size, num_elems, 3);
    lemma_position(lane, k, 0, pack_size, num_elems, 1);
}

} // verus!
