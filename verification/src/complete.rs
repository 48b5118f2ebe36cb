//! Stepping through the `k`-permutations of `n` positions once `n` is known.
//!
//! The state holds the positions in their current arrangement and one
//! counter for each of the first `k` positions. Counter `i` counts down from
//! `n - 1 - i`; read as a mixed-radix number the counters tell how many
//! permutations are still to come.

use vstd::prelude::*;
use crate::counting::{
    checked_falling, digits_in_range, falling, fits, lemma_mixed_radix_bound,
    lemma_mixed_radix_complement, lemma_mixed_radix_full, lemma_mixed_radix_prefix,
    lemma_mixed_radix_successor, lemma_mixed_radix_zero, mixed_radix,
};
use crate::order::{
    arrange, head_and_one, identity, lemma_arrange_clear, lemma_arrange_ignores_zeros,
    lemma_arrange_raise, lemma_arrange_unarrange, lemma_digits_of_value,
    lemma_first_permutations, lemma_unarrange_arrange, lemma_unarrange_len, nth_permutation,
    rotated, swapped, unarrange,
};

verus! {

/// The counters as numbers.
pub open spec fn counters(cycles: Seq<usize>) -> Seq<nat> {
    Seq::new(cycles.len(), |i: int| cycles[i] as nat)
}

/// The digits that the counters stand for: counter `i` has counted down from
/// `n - 1 - i` by the digit at `i`.
pub open spec fn digits_from(n: nat, cycles: Seq<usize>) -> Seq<nat> {
    Seq::new(cycles.len(), |i: int| (n - 1 - i - cycles[i]) as nat)
}

/// The positions that the array holds.
pub open spec fn positions(indices: Seq<usize>) -> Seq<int> {
    Seq::new(indices.len(), |i: int| indices[i] as int)
}

/// Each counter is within its range: counter `i` is at most `n - 1 - i`.
pub open spec fn counters_in_range(n: nat, cycles: Seq<usize>) -> bool {
    forall|i: int| 0 <= i < cycles.len() ==> #[trigger] cycles[i] + i < n
}

/// The pool that the arrays step through: the sequence that the digits of
/// the counters rearrange into the positions held. Stepping leaves it as it
/// is.
pub open spec fn pool_of(indices: Seq<usize>, cycles: Seq<usize>) -> Seq<int> {
    unarrange(positions(indices), digits_from(indices.len(), cycles))
}

/// How many permutations come after the current one.
pub open spec fn left_after(n: nat, cycles: Seq<usize>) -> nat {
    mixed_radix(n, counters(cycles))
}

/// The place of the current permutation in the order, counting from zero.
pub open spec fn rank_of(n: nat, cycles: Seq<usize>) -> nat {
    (falling(n, cycles.len()) - 1 - left_after(n, cycles)) as nat
}

/// Counters within their range are valid digits, and so are the digits they
/// stand for.
pub proof fn lemma_counters_in_range(n: nat, cycles: Seq<usize>)
    requires
        counters_in_range(n, cycles),
    ensures
        digits_in_range(n, counters(cycles)),
        digits_in_range(n, digits_from(n, cycles)),
        cycles.len() <= n,
{
    if cycles.len() > 0 {
        assert(cycles[cycles.len() - 1] + (cycles.len() - 1) < n);
    }
}

/// Exchanges two items of a slice.
fn exchange(items: &mut [usize], a: usize, b: usize)
    requires
        a < old(items)@.len(),
        b < old(items)@.len(),
    ensures
        final(items)@ == swapped(old(items)@, a as int, b as int),
{
    let first = items[a];
    let second = items[b];
    items[a] = second;
    items[b] = first;
}

/// Moves the item at `at` behind all the others, which move up by one.
fn rotate_to_end(items: &mut [usize], at: usize)
    requires
        at < old(items)@.len(),
    ensures
        final(items)@ == rotated(old(items)@, at as int),
{
    let n = items.len();
    let first = items[at];
    let mut j = at;
    while j + 1 < n
        invariant
            at <= j < n,
            n == items@.len() == old(items)@.len(),
            forall|m: int| 0 <= m < at ==> items@[m] == old(items)@[m],
            forall|m: int| at <= m < j ==> items@[m] == old(items)@[m + 1],
            forall|m: int| j <= m < n ==> items@[m] == old(items)@[m],
        decreases n - j,
    {
        let next = items[j + 1];
        items[j] = next;
        j += 1;
    }
    items[j] = first;
}

/// The positions held are the pool of the arrays, rearranged as the digits
/// of the counters say.
pub proof fn lemma_pool_arranged(indices: Seq<usize>, cycles: Seq<usize>)
    requires
        counters_in_range(indices.len(), cycles),
    ensures
        pool_of(indices, cycles).len() == indices.len(),
        positions(indices) == arrange(
            pool_of(indices, cycles),
            digits_from(indices.len(), cycles),
        ),
{
    let digits = digits_from(indices.len(), cycles);
    lemma_unarrange_len(positions(indices), digits);
    lemma_arrange_unarrange(positions(indices), digits);
}

/// Steps the two arrays to the next permutation of their pool. Returns
/// `true` where the current one was the last: the arrays are then back at
/// the first.
pub fn advance(indices: &mut [usize], cycles: &mut [usize]) -> (wrapped: bool)
    requires
        counters_in_range(old(indices)@.len(), old(cycles)@),
    ensures
        final(indices)@.len() == old(indices)@.len(),
        final(cycles)@.len() == old(cycles)@.len(),
        counters_in_range(final(indices)@.len(), final(cycles)@),
        pool_of(final(indices)@, final(cycles)@) == pool_of(old(indices)@, old(cycles)@),
        wrapped <==> rank_of(old(indices)@.len(), old(cycles)@) + 1 == falling(
            old(indices)@.len(),
            old(cycles)@.len(),
        ),
        rank_of(final(indices)@.len(), final(cycles)@) == (if wrapped {
            0
        } else {
            rank_of(old(indices)@.len(), old(cycles)@) + 1
        }),
{
    let n = indices.len();
    let k = cycles.len();
    let ghost pool = pool_of(indices@, cycles@);
    proof {
        lemma_mixed_radix_bound(n as nat, counters(cycles@));
        lemma_pool_arranged(indices@, cycles@);
    }
    // NOTE: if `cycles` are only zeros, then we reached the last permutation.
    let mut i = k;
    while i > 0
        invariant
            i <= k <= n,
            n == indices@.len() == old(indices)@.len() == pool.len(),
            k == cycles@.len() == old(cycles)@.len(),
            counters_in_range(n as nat, cycles@),
            pool == pool_of(old(indices)@, old(cycles)@),
            positions(indices@) == arrange(pool, digits_from(n as nat, cycles@)),
            left_after(n as nat, old(cycles)@) < falling(n as nat, k as nat),
            forall|j: int| 0 <= j < i ==> cycles@[j] == old(cycles)@[j],
            forall|j: int|
                #![trigger cycles@[j]]
                #![trigger old(cycles)@[j]]
                i <= j < k ==> old(cycles)@[j] == 0 && cycles@[j] + j + 1 == n,
        decreases i,
    {
        i -= 1;
        let ghost digits = digits_from(n as nat, cycles@);
        if cycles[i] == 0 {
            cycles[i] = n - i - 1;
            rotate_to_end(indices, i);
            proof {
                lemma_arrange_clear(pool, digits, i as int);
                assert(digits_from(n as nat, cycles@) =~= digits.update(i as int, 0));
            }
        } else {
            let swap_index = n - cycles[i];
            exchange(indices, i, swap_index);
            cycles[i] -= 1;
            proof {
                lemma_arrange_raise(pool, digits, i as int);
                assert(digits_from(n as nat, cycles@) =~= digits.update(
                    i as int,
                    digits[i as int] + 1,
                ));
                lemma_mixed_radix_successor(
                    n as nat,
                    counters(cycles@),
                    counters(old(cycles)@),
                    i as int,
                );
                assert(positions(indices@) == arrange(pool, digits_from(n as nat, cycles@)));
                lemma_unarrange_arrange(pool, digits_from(n as nat, cycles@));
            }
            return false;
        }
    }
    proof {
        lemma_mixed_radix_zero(n as nat, counters(old(cycles)@));
        lemma_mixed_radix_full(n as nat, counters(cycles@));
        lemma_unarrange_arrange(pool, digits_from(n as nat, cycles@));
    }
    true
}

/// Where the stepping stands for a known number of positions.
#[derive(Debug)]
pub enum CompleteState {
    /// Before the first permutation of `k` out of `n` positions, and again
    /// after the last one.
    Start { n: usize, k: usize },
    /// At a permutation: `indices` holds all `n` positions, the first `k` of
    /// them being the permutation, and `cycles` holds the `k` counters.
    Ongoing { indices: Vec<usize>, cycles: Vec<usize> },
}

impl Clone for CompleteState {
    fn clone(&self) -> (copy: Self)
        ensures
            copy.same_as(self),
    {
        match self {
            CompleteState::Start { n, k } => CompleteState::Start { n: *n, k: *k },
            CompleteState::Ongoing { indices, cycles } => {
                let indices_copy = indices.clone();
                let cycles_copy = cycles.clone();
                CompleteState::Ongoing { indices: indices_copy, cycles: cycles_copy }
            },
        }
    }
}

impl CompleteState {
    /// The number of positions.
    pub open spec fn n(&self) -> nat {
        match self {
            CompleteState::Start { n, .. } => *n as nat,
            CompleteState::Ongoing { indices, .. } => indices@.len(),
        }
    }

    /// The length of the permutations.
    pub open spec fn k(&self) -> nat {
        match self {
            CompleteState::Start { k, .. } => *k as nat,
            CompleteState::Ongoing { cycles, .. } => cycles@.len(),
        }
    }

    /// Each counter of a state in progress is within its range.
    pub open spec fn wf(&self) -> bool {
        match self {
            CompleteState::Start { .. } => true,
            CompleteState::Ongoing { indices, cycles } => counters_in_range(
                indices@.len(),
                cycles@,
            ),
        }
    }

    /// The pool whose permutations the state steps through. From the start
    /// it is the positions `0..n` in their own order.
    pub open spec fn pool(&self) -> Seq<int> {
        match self {
            CompleteState::Start { n, .. } => identity(*n as nat),
            CompleteState::Ongoing { indices, cycles } => pool_of(indices@, cycles@),
        }
    }

    /// The place of the current permutation in the order, counting from
    /// zero. It is meant for a state in progress.
    pub open spec fn rank(&self) -> nat {
        match self {
            CompleteState::Start { .. } => 0,
            CompleteState::Ongoing { indices, cycles } => rank_of(indices@.len(), cycles@),
        }
    }

    /// The positions of the current permutation. It is meant for a state in
    /// progress.
    pub open spec fn current(&self) -> Seq<int> {
        match self {
            CompleteState::Start { .. } => Seq::empty(),
            CompleteState::Ongoing { indices, cycles } => positions(indices@).take(
                cycles@.len() as int,
            ),
        }
    }

    /// The number of permutations still to come: all of them at the start,
    /// those after the current one in progress.
    pub open spec fn to_come(&self) -> nat {
        match self {
            CompleteState::Start { n, k } => falling(*n as nat, *k as nat),
            CompleteState::Ongoing { indices, cycles } => left_after(indices@.len(), cycles@),
        }
    }

    /// Both states stand at the same place and hold the same arrays.
    pub open spec fn same_as(&self, other: &Self) -> bool {
        match (self, other) {
            (CompleteState::Start { n, k }, CompleteState::Start { n: other_n, k: other_k }) => {
                n == other_n && k == other_k
            },
            (
                CompleteState::Ongoing { indices, cycles },
                CompleteState::Ongoing { indices: other_indices, cycles: other_cycles },
            ) => indices@ == other_indices@ && cycles@ == other_cycles@,
            _ => false,
        }
    }

    /// A state in progress stands at the permutation of its pool that has
    /// its rank, and its rank and what is still to come make up all the
    /// permutations.
    pub proof fn lemma_current(&self)
        requires
            self.wf(),
            self is Ongoing,
        ensures
            self.k() <= self.n(),
            self.rank() + 1 + self.to_come() == falling(self.n(), self.k()),
            self.pool().len() == self.n(),
            self.current() == nth_permutation(self.pool(), self.k(), self.rank()),
    {
        let n = self.n();
        let cycles = self->cycles@;
        let digits = digits_from(n, cycles);
        lemma_mixed_radix_complement(n, digits, counters(cycles));
        lemma_digits_of_value(n, digits);
        lemma_pool_arranged(self->indices@, cycles);
    }

    /// The first `n - k + 1` steps keep the first `k - 1` positions in place
    /// and put each of the others in turn behind them: what the stepping
    /// gives there is what discovery gives as the items come in.
    pub proof fn lemma_first_steps(&self)
        requires
            self.wf(),
            self is Ongoing,
            self.pool() == identity(self.n()),
            self.k() >= 1,
            self.rank() + self.k() <= self.n(),
        ensures
            self.current() == head_and_one(self.k(), self.k() - 1 + self.rank()),
    {
        self.lemma_current();
        lemma_first_permutations(identity(self.n()), self.k(), self.rank());
    }

    /// Whether the stepping stands at the start.
    pub fn is_start(&self) -> (at_start: bool)
        ensures
            at_start == (self is Start),
    {
        match self {
            CompleteState::Start { .. } => true,
            CompleteState::Ongoing { .. } => false,
        }
    }

    /// Steps to the next permutation: from the start to the first one, from
    /// the last one back to the start.
    pub fn advance(&mut self)
        requires
            old(self).wf(),
            *old(self) is Start ==> old(self).k() <= old(self).n(),
        ensures
            final(self).wf(),
            final(self).n() == old(self).n(),
            final(self).k() == old(self).k(),
            *old(self) is Start ==> *final(self) is Ongoing && final(self).rank() == 0,
            *old(self) is Start ==> positions(final(self)->indices@) == identity(old(self).n()),
            *old(self) is Start ==> forall|i: int|
                0 <= i < final(self).k() ==> #[trigger] final(self)->cycles@[i] + i + 1
                    == final(self).n(),
            *old(self) is Ongoing && old(self).to_come() > 0 ==> *final(self) is Ongoing
                && final(self).rank() == old(self).rank() + 1,
            *old(self) is Ongoing && old(self).to_come() == 0 ==> *final(self) is Start,
            *final(self) is Ongoing ==> final(self).pool() == old(self).pool(),
    {
        match self {
            CompleteState::Start { n, k } => {
                let n = *n;
                let k = *k;
                let mut indices: Vec<usize> = Vec::new();
                let mut i: usize = 0;
                while i < n
                    invariant
                        i <= n,
                        indices@.len() == i,
                        forall|j: int| 0 <= j < i ==> indices@[j] == j,
                    decreases n - i,
                {
                    indices.push(i);
                    i += 1;
                }
                let mut cycles: Vec<usize> = Vec::new();
                let mut i: usize = 0;
                while i < k
                    invariant
                        i <= k <= n,
                        cycles@.len() == i,
                        forall|j: int| 0 <= j < i ==> cycles@[j] + j + 1 == n,
                    decreases k - i,
                {
                    cycles.push(n - 1 - i);
                    i += 1;
                }
                proof {
                    lemma_mixed_radix_full(n as nat, counters(cycles@));
                    let digits = digits_from(n as nat, cycles@);
                    lemma_arrange_ignores_zeros(identity(n as nat), digits, 0);
                    assert(positions(indices@) =~= identity(n as nat));
                    lemma_unarrange_arrange(identity(n as nat), digits);
                }
                *self = CompleteState::Ongoing { cycles, indices };
            },
            CompleteState::Ongoing { indices, cycles } => {
                let n = indices.len();
                let k = cycles.len();
                proof {
                    lemma_counters_in_range(n as nat, cycles@);
                    lemma_mixed_radix_bound(n as nat, counters(cycles@));
                }
                if advance(indices.as_mut_slice(), cycles.as_mut_slice()) {
                    *self = CompleteState::Start { n, k };
                }
            },
        }
    }

    /// Returns the count of remaining permutations, or None if it would overflow.
    pub fn remaining(&self) -> (count: Option<usize>)
        requires
            *self is Ongoing ==> self.k() <= self.n(),
        ensures
            count == fits(self.to_come()),
    {
        match self {
            CompleteState::Start { n, k } => checked_falling(*n, *k),
            CompleteState::Ongoing { indices, cycles } => {
                let n = indices.len();
                let k = cycles.len();
                let ghost digits = counters(cycles@);
                let mut acc: usize = 0;
                let mut i: usize = 0;
                while i < k
                    invariant
                        i <= k <= n,
                        n == indices@.len(),
                        k == cycles@.len(),
                        digits == counters(cycles@),
                        self.to_come() == mixed_radix(n as nat, digits),
                        acc == mixed_radix(n as nat, digits.take(i as int)),
                    decreases k - i,
                {
                    proof {
                        assert(digits.take(i + 1).drop_last() =~= digits.take(i as int));
                        lemma_mixed_radix_prefix(n as nat, digits, i + 1);
                    }
                    let scaled = match acc.checked_mul(n - i) {
                        Some(scaled) => scaled,
                        None => {
                            return None;
                        },
                    };
                    acc = match scaled.checked_add(cycles[i]) {
                        Some(count) => count,
                        None => {
                            return None;
                        },
                    };
                    i += 1;
                }
                proof {
                    assert(digits.take(k as int) =~= digits);
                }
                Some(acc)
            },
        }
    }
}

} // verus!
