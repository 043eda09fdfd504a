//! Tables of multilinear polynomials: equality tables, folding, and round polynomials.
//!
//! A table of `2^n` ring elements stands for the multilinear polynomial in `n` variables whose
//! value at a point of the hypercube is the entry at the index with those bits, variable `j`
//! being bit `j`.

use vstd::arithmetic::power2::*;
use vstd::prelude::*;

use crate::field::Field;

verus! {

/// Computes a power of two.
pub fn pow2_usize(e: usize) -> (r: usize)
    requires
        pow2(e as nat) <= usize::MAX,
    ensures
        r == pow2(e as nat),
{
    let mut r: usize = 1;
    proof {
        lemma2_to64();
    }
    for k in 0..e
        invariant
            r == pow2(k as nat),
            pow2(e as nat) <= usize::MAX,
    {
        proof {
            lemma_pow2_unfold((k + 1) as nat);
            if k + 1 < e {
                lemma_pow2_strictly_increases((k + 1) as nat, e as nat);
            }
        }
        r = 2 * r;
    }
    r
}

/// Copies a sequence of plain values.
pub fn copy_vec<T: Copy>(v: &Vec<T>) -> (r: Vec<T>)
    ensures
        r@ == v@,
{
    let mut r: Vec<T> = Vec::new();
    for k in 0..v.len()
        invariant
            r@ == v@.take(k as int),
    {
        r.push(v[k]);
        assert(v@.take(k + 1) == v@.take(k as int).push(v@[k as int]));
    }
    assert(v@.take(v@.len() as int) == v@);
    r
}

/// A table of `n` equal entries.
pub fn filled<T: Copy>(x: T, n: usize) -> (r: Vec<T>)
    ensures
        r@ == Seq::new(n as nat, |i: int| x),
{
    let mut r: Vec<T> = Vec::new();
    for k in 0..n
        invariant
            r@ == Seq::new(k as nat, |i: int| x),
    {
        r.push(x);
        assert(r@ == Seq::new((k + 1) as nat, |i: int| x));
    }
    r
}

// ---------------------------------------------------------------------------
// Equality tables
// ---------------------------------------------------------------------------

/// `factor` times the product over all variables `j` of `r[j]` where bit `j` of `index` is set
/// and of `1 - r[j]` where it is not.
pub open spec fn eq_weight<E: Field>(r: Seq<E>, factor: E, index: int) -> E
    decreases r.len(),
{
    if r.len() == 0 {
        factor
    } else {
        let half = pow2((r.len() - 1) as nat);
        if index < half {
            eq_weight(r.drop_last(), factor, index).times_spec(
                E::one_spec().minus_spec(r.last()),
            )
        } else {
            eq_weight(r.drop_last(), factor, index - half).times_spec(r.last())
        }
    }
}

/// The table `buffer` after its first `2^n` entries have become the equality table of `r`.
pub open spec fn eq_written<E: Field>(buffer: Seq<E>, r: Seq<E>, factor: E) -> Seq<E> {
    Seq::new(
        buffer.len(),
        |i: int|
            if i < pow2(r.len()) {
                eq_weight(r, factor, i)
            } else {
                buffer[i]
            },
    )
}

/// Writes the equality table of `r`, scaled by `factor`, over the front of `evals`.
pub fn eq_eval_at<E: Field>(r: &Vec<E>, factor: E, evals: &mut Vec<E>)
    requires
        pow2(r@.len()) <= old(evals)@.len(),
    ensures
        final(evals)@ == eq_written(old(evals)@, r@, factor),
{
    proof {
        lemma2_to64();
        assert(r@.take(0) =~= Seq::<E>::empty());
        if r@.len() > 0 {
            lemma_pow2_strictly_increases(0, r@.len());
        }
    }
    evals[0] = factor;
    let mut size: usize = 1;
    let one = E::one();
    let ghost start = old(evals)@;
    let n: usize = r.len();
    let len: usize = evals.len();
    for k in 0..n
        invariant
            n == r@.len(),
            one == E::one_spec(),
            size == pow2(k as nat),
            pow2(n as nat) <= len,
            len == start.len(),
            evals@ == eq_written(start, r@.take(k as int), factor),
    {
        let ghost before = r@.take(k as int);
        let ghost after = r@.take(k + 1);
        proof {
            assert(after.drop_last() =~= before);
            lemma_pow2_unfold((k + 1) as nat);
            if k + 1 < n {
                lemma_pow2_strictly_increases((k + 1) as nat, n as nat);
            }
        }
        let high = r[k];
        let low = one.minus(high);
        for i in 0..size
            invariant
                size == pow2(k as nat),
                before.len() == k,
                after.len() == k + 1,
                after.drop_last() == before,
                after.last() == high,
                low == E::one_spec().minus_spec(high),
                2 * size <= len,
                len == start.len(),
                evals@.len() == start.len(),
                forall|j: int| 0 <= j < i ==> #[trigger] evals@[j] == eq_weight(after, factor, j),
                forall|j: int|
                    size <= j < size + i ==> #[trigger] evals@[j] == eq_weight(after, factor, j),
                forall|j: int| i <= j < size ==> #[trigger] evals@[j] == eq_weight(before, factor, j),
                forall|j: int| size + i <= j < evals@.len() ==> #[trigger] evals@[j] == start[j],
        {
            let w = evals[i];
            evals[size + i] = w.times(high);
            evals[i] = w.times(low);
        }
        size = 2 * size;
        proof {
            assert(evals@ =~= eq_written(start, after, factor));
        }
    }
    proof {
        assert(r@.take(n as int) =~= r@);
    }
}

/// The equality polynomial at two points: the product of `a[j] b[j] + (1 - a[j])(1 - b[j])`.
pub open spec fn eq_vec_spec<E: Field>(a: Seq<E>, b: Seq<E>, n: nat) -> E
    decreases n,
{
    if n == 0 {
        E::one_spec()
    } else {
        let (x, y) = (a[n - 1], b[n - 1]);
        let one = E::one_spec();
        eq_vec_spec(a, b, (n - 1) as nat).times_spec(
            x.times_spec(y).plus_spec(one.minus_spec(x).times_spec(one.minus_spec(y))),
        )
    }
}

/// Evaluates the equality polynomial at two points of the same dimension.
pub fn eq_vec<E: Field>(a: &Vec<E>, b: &Vec<E>) -> (r: E)
    requires
        a@.len() == b@.len(),
    ensures
        r == eq_vec_spec(a@, b@, a@.len()),
{
    let one = E::one();
    let mut r = one;
    for k in 0..a.len()
        invariant
            one == E::one_spec(),
            a@.len() == b@.len(),
            r == eq_vec_spec(a@, b@, k as nat),
    {
        let x = a[k];
        let y = b[k];
        r = r.times(x.times(y).plus(one.minus(x).times(one.minus(y))));
    }
    r
}

// ---------------------------------------------------------------------------
// Weighted sums
// ---------------------------------------------------------------------------

/// The sum of `a[i] * b[i]` over the first `n` indices.
pub open spec fn dot<E: Field>(a: Seq<E>, b: Seq<E>, n: nat) -> E
    decreases n,
{
    if n == 0 {
        E::zero_spec()
    } else {
        dot(a, b, (n - 1) as nat).plus_spec(a[n - 1].times_spec(b[n - 1]))
    }
}

/// Computes the weighted sum of the entries of `a`.
pub fn compute_dot<E: Field>(a: &Vec<E>, b: &Vec<E>) -> (r: E)
    requires
        a@.len() <= b@.len(),
    ensures
        r == dot(a@, b@, a@.len()),
{
    let mut r = E::zero();
    for k in 0..a.len()
        invariant
            a@.len() <= b@.len(),
            r == dot(a@, b@, k as nat),
    {
        r = r.plus(a[k].times(b[k]));
    }
    r
}

/// The table `a` with the first `n` entries of `b` added to its own.
pub open spec fn front_added<E: Field>(a: Seq<E>, b: Seq<E>, n: nat) -> Seq<E> {
    Seq::new(
        a.len(),
        |i: int|
            if i < n {
                a[i].plus_spec(b[i])
            } else {
                a[i]
            },
    )
}

/// Adds the first `n` entries of `b` to those of `a`.
pub fn add_front<E: Field>(a: &mut Vec<E>, b: &Vec<E>, n: usize)
    requires
        n <= old(a)@.len(),
        n <= b@.len(),
    ensures
        final(a)@ == front_added(old(a)@, b@, n as nat),
{
    let ghost start = a@;
    for k in 0..n
        invariant
            n <= start.len(),
            n <= b@.len(),
            a@.len() == start.len(),
            forall|i: int| 0 <= i < k ==> #[trigger] a@[i] == start[i].plus_spec(b@[i]),
            forall|i: int| k <= i < start.len() ==> #[trigger] a@[i] == start[i],
    {
        let sum = a[k].plus(b[k]);
        a[k] = sum;
    }
    assert(a@ =~= front_added(start, b@, n as nat));
}

// ---------------------------------------------------------------------------
// Folding
// ---------------------------------------------------------------------------

/// The value at `r` of the line through `a` at zero and `b` at one.
pub open spec fn line_at<E: Field>(a: E, b: E, r: E) -> E {
    a.plus_spec(b.minus_spec(a).times_spec(r))
}

pub fn compute_line_at<E: Field>(a: E, b: E, r: E) -> (v: E)
    ensures
        v == line_at(a, b, r),
{
    a.plus(b.minus(a).times(r))
}

/// The table after its lowest variable has been bound to `r`: entry `i < n` comes from entries
/// `2i` and `2i + 1`, and the entries from `n` on are left as they were.
pub open spec fn folded<E: Field>(t: Seq<E>, n: nat, r: E) -> Seq<E> {
    Seq::new(
        t.len(),
        |i: int|
            if i < n {
                line_at(t[2 * i], t[2 * i + 1], r)
            } else {
                t[i]
            },
    )
}

/// Binds the lowest variable of a table in place.
pub fn fold_table<E: Field>(t: &mut Vec<E>, n: usize, r: E)
    requires
        2 * n <= old(t)@.len(),
    ensures
        final(t)@ == folded(old(t)@, n as nat, r),
{
    let ghost start = t@;
    let len: usize = t.len();
    for k in 0..n
        invariant
            2 * n <= len,
            len == start.len(),
            t@.len() == start.len(),
            forall|i: int|
                0 <= i < k ==> #[trigger] t@[i] == line_at(start[2 * i], start[2 * i + 1], r),
            forall|i: int| k <= i < t@.len() ==> #[trigger] t@[i] == start[i],
    {
        let a = t[2 * k];
        let b = t[2 * k + 1];
        t[k] = compute_line_at(a, b, r);
    }
    assert(t@ =~= folded(start, n as nat, r));
}

// ---------------------------------------------------------------------------
// Small multiples
// ---------------------------------------------------------------------------

pub open spec fn double_spec<E: Field>(x: E) -> E {
    x.plus_spec(x)
}

pub open spec fn triple_spec<E: Field>(x: E) -> E {
    x.plus_spec(x).plus_spec(x)
}

/// Turns the raw third component of a quadratic round into the value at two: with `p0` the sum
/// of `f(0) h(0)`, `p1` the sum of `f(1) h(1)` and `raw` the sum of
/// `(f(0) + f(1))(h(0) + h(1))`, this is `6 p1 + 3 p0 - 2 raw`.
pub open spec fn value_at_two<E: Field>(p0: E, p1: E, raw: E) -> E {
    double_spec(triple_spec(p1)).plus_spec(triple_spec(p0)).minus_spec(double_spec(raw))
}

pub fn compute_value_at_two<E: Field>(p0: E, p1: E, raw: E) -> (r: E)
    ensures
        r == value_at_two(p0, p1, raw),
{
    let three_p1 = p1.plus(p1).plus(p1);
    let six_p1 = three_p1.plus(three_p1);
    let three_p0 = p0.plus(p0).plus(p0);
    six_p1.plus(three_p0).minus(raw.plus(raw))
}

} // verus!
