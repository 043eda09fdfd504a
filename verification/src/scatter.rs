//! Tables that collect the contributions of gates.

use vstd::prelude::*;

use crate::field::Field;

verus! {

/// The sum of the values of the first `n` terms that go to index `i`.
pub open spec fn collected<T: Field>(terms: Seq<(int, T)>, n: nat, i: int) -> T
    decreases n,
{
    if n == 0 {
        T::zero_spec()
    } else {
        let before = collected(terms, (n - 1) as nat, i);
        if terms[n - 1].0 == i {
            before.plus_spec(terms[n - 1].1)
        } else {
            before
        }
    }
}

/// One of the first `n` terms goes to index `i`.
pub open spec fn reached<T: Field>(terms: Seq<(int, T)>, n: nat, i: int) -> bool {
    exists|k: int| 0 <= k < n && (#[trigger] terms[k]).0 == i
}

/// The table `before` once its first `size` entries hold what the first `n` terms add up to.
pub open spec fn collected_table<T: Field>(
    before: Seq<T>,
    terms: Seq<(int, T)>,
    n: nat,
    size: nat,
) -> Seq<T> {
    Seq::new(
        before.len(),
        |i: int|
            if i < size {
                collected(terms, n, i)
            } else {
                before[i]
            },
    )
}

/// The flags `before` once the first `size` tell which indices the first `n` terms reach.
pub open spec fn reached_table<T: Field>(
    before: Seq<bool>,
    terms: Seq<(int, T)>,
    n: nat,
    size: nat,
) -> Seq<bool> {
    Seq::new(
        before.len(),
        |i: int|
            if i < size {
                reached(terms, n, i)
            } else {
                before[i]
            },
    )
}

/// Empties the front of a table and of its flags.
pub(crate) fn clear_tables<T: Field>(
    table: &mut Vec<T>,
    flags: &mut Vec<bool>,
    size: usize,
    Ghost(terms): Ghost<Seq<(int, T)>>,
)
    requires
        size <= old(table)@.len(),
        size <= old(flags)@.len(),
    ensures
        final(table)@ == collected_table(old(table)@, terms, 0, size as nat),
        final(flags)@ == reached_table(old(flags)@, terms, 0, size as nat),
{
    let ghost (t, f) = (table@, flags@);
    let zero = T::zero();
    for k in 0..size
        invariant
            zero == T::zero_spec(),
            size <= t.len(),
            size <= f.len(),
            table@.len() == t.len(),
            flags@.len() == f.len(),
            forall|i: int| 0 <= i < k ==> #[trigger] table@[i] == zero,
            forall|i: int| k <= i < t.len() ==> #[trigger] table@[i] == t[i],
            forall|i: int| 0 <= i < k ==> !(#[trigger] flags@[i]),
            forall|i: int| k <= i < f.len() ==> #[trigger] flags@[i] == f[i],
    {
        table[k] = zero;
        flags[k] = false;
    }
    assert(table@ =~= collected_table(t, terms, 0, size as nat));
    assert(flags@ =~= reached_table(f, terms, 0, size as nat));
}

/// Adds the `n`-th term.
pub(crate) fn add_term<T: Field>(
    table: &mut Vec<T>,
    flags: &mut Vec<bool>,
    index: usize,
    value: T,
    Ghost(before): Ghost<(Seq<T>, Seq<bool>)>,
    Ghost(terms): Ghost<Seq<(int, T)>>,
    Ghost(n): Ghost<nat>,
    Ghost(size): Ghost<nat>,
)
    requires
        index < size,
        size <= before.0.len(),
        size <= before.1.len(),
        n < terms.len(),
        terms[n as int] == (index as int, value),
        old(table)@ == collected_table(before.0, terms, n, size),
        old(flags)@ == reached_table(before.1, terms, n, size),
    ensures
        final(table)@ == collected_table(before.0, terms, n + 1, size),
        final(flags)@ == reached_table(before.1, terms, n + 1, size),
{
    let sum = table[index].plus(value);
    table[index] = sum;
    flags[index] = true;
    proof {
        assert(table@ =~= collected_table(before.0, terms, n + 1, size));
        assert forall|i: int| 0 <= i < size implies reached(terms, n + 1, i) == (i == index
            || reached(terms, n, i)) by {
            if i == index {
                assert(terms[n as int].0 == i);
            } else if reached(terms, n, i) {
                let k = choose|k: int| 0 <= k < n && (#[trigger] terms[k]).0 == i;
                assert(terms[k].0 == i);
            } else if reached(terms, n + 1, i) {
                let k = choose|k: int| 0 <= k < n + 1 && (#[trigger] terms[k]).0 == i;
                assert(k < n);
            }
        }
        assert(flags@ =~= reached_table(before.1, terms, n + 1, size));
    }
}

} // verus!
