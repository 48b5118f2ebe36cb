//! The `k`-permutations of the items of a source, one at a time.
//!
//! While the source may still hold more items, each new item gives one more
//! permutation: the first `k - 1` items and the new one. Once the source has
//! reported its end the permutations that are left come from stepping
//! through the order, starting where the discovery stopped.

use vstd::prelude::*;
use vstd::std_specs::iter::IteratorSpec;
use crate::complete::{positions, CompleteState};
use crate::counting::{falling, fits, lemma_falling_at_least, lemma_falling_covers};
use crate::lazy_buffer::LazyBuffer;
use crate::size_hint::{add_scalar_spec, sub_scalar, sub_scalar_spec, SizeHint};
use crate::order::{
    identity, lemma_first_permutations, lemma_first_permutations_of_prefix, lemma_permutation_of_items,
    lemma_permutation_selects, nth_permutation,
};

verus! {

/// `copy` holds a clone of each of `items`, in the same order.
pub open spec fn is_clone_of<T: Clone>(copy: Seq<T>, items: Seq<T>) -> bool {
    &&& copy.len() == items.len()
    &&& forall|i: int| 0 <= i < copy.len() ==> cloned(#[trigger] items[i], copy[i])
}

/// `item` is what is handed out when `rank` of the `k`-permutations of
/// `items` were handed out before: a clone of the permutation at place
/// `rank`, or nothing when that was all of them.
pub open spec fn handed_out<T: Clone>(item: Option<Vec<T>>, items: Seq<T>, k: nat, rank: nat)
    -> bool {
    match item {
        Some(permutation) => {
            &&& rank < falling(items.len(), k)
            &&& is_clone_of(permutation@, nth_permutation(items, k, rank))
        },
        None => rank == falling(items.len(), k),
    }
}

/// The count of what is left, as [`Permutations::count`] reports it, where
/// `total` permutations exist and `produced` of them have been handed out.
/// While the length of the source is unknown the total itself has to fit.
pub open spec fn count_left(total: nat, produced: nat, length_known: bool) -> Option<usize> {
    if length_known {
        fits((total - produced) as nat)
    } else {
        match fits(total) {
            Some(all) => Some((all - produced) as usize),
            None => None,
        }
    }
}

/// The bounds on the number of permutations when the source holds between
/// `source.0` and `source.1` items: a lower bound that does not fit becomes
/// `usize::MAX`, an upper bound that does not fit or is not known becomes
/// `None`.
pub open spec fn at_start_spec(source: SizeHint, k: usize) -> SizeHint {
    (
        match fits(falling(source.0 as nat, k as nat)) {
            Some(low) => low,
            None => usize::MAX,
        },
        match source.1 {
            Some(upper) => fits(falling(upper as nat, k as nat)),
            None => None,
        },
    )
}

/// The bounds on what is left while the length of the source is unknown:
/// `reported` is what the source says of itself, `held` the number of items
/// pulled so far, `produced` the number of permutations handed out.
pub open spec fn discovery_hint(reported: SizeHint, held: usize, k: usize, produced: usize)
    -> SizeHint {
    sub_scalar_spec(at_start_spec(add_scalar_spec(reported, held), k), produced)
}

/// The bounds on what is left once the length of the source is known: both
/// are the count, or, where the count does not fit, `usize::MAX` and nothing.
pub open spec fn exact_hint(count: Option<usize>) -> SizeHint {
    match count {
        Some(count) => (count, Some(count)),
        None => (usize::MAX, None),
    }
}

#[derive(Debug)]
enum PermutationState {
    /// No permutation generated yet.
    Start { k: usize },
    /// Values from the iterator are not fully loaded yet so `n` is still unknown.
    Buffered { k: usize, min_n: usize },
    /// All values from the iterator are known so `n` is known.
    Loaded(CompleteState),
    /// No permutation left to generate.
    End,
}

/// All the `k`-permutations of the elements from an iterator, handed out one
/// at a time by [`Permutations::next`].
///
/// The elements are told apart by their position, not by their value: an
/// iterator that yields equal elements has permutations that are equal.
#[must_use]
pub struct Permutations<I: Iterator> {
    vals: LazyBuffer<I>,
    state: PermutationState,
    k: Ghost<nat>,
    produced: Ghost<nat>,
}

impl<I: Iterator> Permutations<I> {
    /// The length of the permutations.
    pub closed spec fn k(&self) -> nat {
        self.k@
    }

    /// How many permutations have been handed out so far.
    pub closed spec fn produced(&self) -> nat {
        self.produced@
    }

    /// The items pulled from the source so far.
    pub closed spec fn cached(&self) -> Seq<I::Item> {
        self.vals@
    }

    /// The source, as long as it has not reported its end.
    pub closed spec fn source(&self) -> Option<I> {
        self.vals.source()
    }

    /// The source, if there still is one, keeps to the laws of iterators.
    pub open spec fn lawful(&self) -> bool {
        self.source() matches Some(it) ==> it.obeys_prophetic_iter_laws()
    }

    /// The source, if there still is one, comes with a measure that bounds
    /// how often it can be asked.
    pub open spec fn measured(&self) -> bool {
        self.source() matches Some(it) ==> it.decrease() is Some
    }

    /// The number of items of the source is known: it has reported its end,
    /// or no item is needed at all.
    pub closed spec fn length_known(&self) -> bool {
        self.state is Loaded || self.state is End
    }

    /// The state fits the buffer and the count of what was handed out.
    pub closed spec fn wf(&self) -> bool {
        let k = self.k@;
        let held = self.vals@.len();
        match self.state {
            PermutationState::Start { k: state_k } => {
                &&& state_k == k
                &&& k >= 1
                &&& held == k
                &&& self.produced@ == 0
            },
            PermutationState::Buffered { k: state_k, min_n } => {
                &&& state_k == k
                &&& k >= 1
                &&& held == min_n
                &&& min_n >= k
                &&& self.produced@ == min_n - k + 1
            },
            PermutationState::Loaded(complete) => {
                &&& complete.wf()
                &&& complete.pool() == identity(complete.n())
                &&& complete.k() == k
                &&& complete.k() <= complete.n()
                &&& if k == 0 {
                    complete.n() == 0
                } else {
                    complete is Ongoing && complete.n() == held && self.vals.source() is None
                }
                &&& self.produced@ == (if complete is Ongoing {
                    complete.rank() + 1
                } else {
                    0
                })
            },
            PermutationState::End => {
                &&& k > 0 ==> self.vals.source() is None
                &&& self.produced@ == falling(held, k)
            },
        }
    }
}

/// The `k`-permutations of the items of `iter`.
///
/// For `k == 0` the source is left alone. Otherwise `k` items are pulled
/// from it at once; a source that holds fewer has no permutations.
pub fn permutations<I: Iterator>(iter: I, k: usize) -> (perms: Permutations<I>)
    ensures
        perms.wf(),
        perms.k() == k,
        perms.produced() == 0,
        k == 0 ==> perms.cached().len() == 0 && perms.source() == Some(iter),
        perms.length_known() <==> perms.cached().len() < k || k == 0,
        perms.cached().len() <= k,
        perms.cached().len() < k ==> perms.source() is None,
        iter.obeys_prophetic_iter_laws() ==> perms.lawful(),
        iter.obeys_prophetic_iter_laws() ==> perms.cached() + (match perms.source() {
            Some(it) => it.remaining(),
            None => Seq::empty(),
        }) == iter.remaining(),
        iter.obeys_prophetic_iter_laws() && iter.decrease() is Some ==> perms.measured(),
{
    let mut vals = LazyBuffer::new(iter);

    if k == 0 {
        // Special case, yields single empty vec; `n` is irrelevant
        let state = PermutationState::Loaded(CompleteState::Start { n: 0, k: 0 });

        return Permutations { vals, state, k: Ghost(0), produced: Ghost(0) };
    }
    vals.prefill(k);
    let enough_vals = vals.len() == k;

    let state = if enough_vals {
        PermutationState::Start { k }
    } else {
        PermutationState::End
    };

    Permutations { vals, state, k: Ghost(k as nat), produced: Ghost(0) }
}

impl<I: Iterator> Permutations<I> where I::Item: Clone {
    /// The next permutation, or `None` when all have been handed out.
    ///
    /// The permutation is the one whose place in the order is the number of
    /// permutations handed out before. While the length of the source is
    /// unknown one more item is pulled from it at most.
    pub fn next(&mut self) -> (item: Option<Vec<I::Item>>)
        requires
            old(self).wf(),
        ensures
            final(self).wf(),
            final(self).k() == old(self).k(),
            final(self).produced() == old(self).produced() + (if item is Some {
                1nat
            } else {
                0nat
            }),
            old(self).cached().is_prefix_of(final(self).cached()),
            final(self).cached().len() <= old(self).cached().len() + 1,
            old(self).length_known() ==> final(self).length_known() && final(self).cached()
                == old(self).cached(),
            !old(self).length_known() ==> (final(self).length_known() <==> old(self).produced() > 0
                && final(self).cached() == old(self).cached()),
            handed_out(item, final(self).cached(), old(self).k(), old(self).produced()),
            item is None ==> final(self).length_known(),
            old(self).lawful() ==> final(self).lawful(),
            old(self).measured() && old(self).lawful() ==> final(self).measured(),
            old(self).lawful() ==> final(self).cached() + (match final(self).source() {
                Some(it) => it.remaining(),
                None => Seq::empty(),
            }) == old(self).cached() + (match old(self).source() {
                Some(it) => it.remaining(),
                None => Seq::empty(),
            }),
            old(self).lawful() ==> handed_out(
                item,
                old(self).cached() + (match old(self).source() {
                    Some(it) => it.remaining(),
                    None => Seq::empty(),
                }),
                old(self).k(),
                old(self).produced(),
            ),
    {
        match &mut self.state {
            PermutationState::Start { k } => {
                let k = *k;
                self.state = PermutationState::Buffered { k, min_n: k };
            },
            PermutationState::Buffered { k, min_n } => {
                if self.vals.get_next() {
                    *min_n += 1;
                } else {
                    let complete_state = resume(*min_n, *k);
                    self.state = if complete_state.is_start() {
                        PermutationState::End
                    } else {
                        PermutationState::Loaded(complete_state)
                    };
                }
            },
            PermutationState::Loaded(state) => {
                proof {
                    if *state is Ongoing {
                        state.lemma_current();
                    }
                }
                state.advance();
                if state.is_start() {
                    self.state = PermutationState::End;
                }
            },
            PermutationState::End => {},
        };
        let item = match &self.state {
            PermutationState::Start { .. } => unreached(),
            PermutationState::Buffered { k, min_n } => {
                let latest_idx = *min_n - 1;
                proof {
                    lemma_first_permutations(self.vals@, *k as nat, (*min_n - *k) as nat);
                }
                Some(clone_head_and_one(&self.vals, *k - 1, latest_idx))
            },
            PermutationState::Loaded(CompleteState::Ongoing { indices, cycles }) => {
                let k = cycles.len();
                proof {
                    lemma_selection(self.vals@, self.state->Loaded_0);
                }
                Some(clone_selected(&self.vals, indices, k))
            },
            PermutationState::Loaded(CompleteState::Start { .. }) | PermutationState::End => None,
        };
        proof {
            if item is Some {
                self.produced@ = self.produced@ + 1;
            }
        }
        proof {
            lemma_independent_of_rest(
                self.cached(),
                match self.source() {
                    Some(it) => it.remaining(),
                    None => Seq::empty(),
                },
                old(self).k(),
                old(self).produced(),
            );
        }
        item
    }
}

impl<I: Iterator> Permutations<I> {
    /// The number of permutations that are still to come, or `None` where
    /// it exceeds `usize::MAX`. What the source still holds is pulled.
    pub fn count(self) -> (count: Option<usize>)
        requires
            self.wf(),
            self.lawful(),
            self.measured(),
        ensures
            count == count_left(
                falling(
                    self.cached().len() + (match self.source() {
                        Some(it) => it.remaining(),
                        None => Seq::empty(),
                    }).len(),
                    self.k(),
                ),
                self.produced(),
                self.length_known(),
            ),
    {
        match self.state {
            PermutationState::Start { k } => {
                match self.vals.count() {
                    Some(n) => (CompleteState::Start { n, k }).remaining(),
                    None => {
                        proof {
                            lemma_count_overflows(
                                self.cached().len(),
                                (match self.source() {
                                    Some(it) => it.remaining(),
                                    None => Seq::empty(),
                                }).len(),
                                k as nat,
                            );
                        }
                        None
                    },
                }
            },
            PermutationState::Buffered { k, min_n } => {
                let prev_iteration_count = min_n - k + 1;
                match self.vals.count() {
                    Some(n) => {
                        proof {
                            lemma_falling_at_least(n as nat, k as nat);
                        }
                        match (CompleteState::Start { n, k }).remaining() {
                            Some(total) => Some(total - prev_iteration_count),
                            None => None,
                        }
                    },
                    None => {
                        proof {
                            lemma_count_overflows(
                                self.cached().len(),
                                (match self.source() {
                                    Some(it) => it.remaining(),
                                    None => Seq::empty(),
                                }).len(),
                                k as nat,
                            );
                        }
                        None
                    },
                }
            },
            PermutationState::Loaded(state) => {
                proof {
                    if state is Ongoing {
                        state.lemma_current();
                    }
                }
                state.remaining()
            },
            PermutationState::End => Some(0),
        }
    }

    /// Bounds on the number of permutations that are still to come. Nothing
    /// is pulled from the source: while its length is unknown the bounds
    /// rest on what the source reports of itself.
    pub fn size_hint(&self) -> (hint: SizeHint)
        requires
            self.wf(),
        ensures
            self.length_known() ==> hint == exact_hint(
                fits((falling(self.cached().len(), self.k()) - self.produced()) as nat),
            ),
            !self.length_known() ==> exists|reported: SizeHint|
                hint == #[trigger] discovery_hint(
                    reported,
                    self.cached().len() as usize,
                    self.k() as usize,
                    self.produced() as usize,
                ),
            !self.length_known() && self.source() is None ==> hint == discovery_hint(
                (0, Some(0)),
                self.cached().len() as usize,
                self.k() as usize,
                self.produced() as usize,
            ),
    {
        match &self.state {
            PermutationState::Start { k } => {
                let held = self.vals.size_hint();
                let hint = at_start(held, *k);
                proof {
                    let reported = choose|reported: SizeHint|
                        held == #[trigger] add_scalar_spec(reported, self.vals@.len() as usize);
                    assert(hint == discovery_hint(
                        reported,
                        self.cached().len() as usize,
                        self.k() as usize,
                        self.produced() as usize,
                    ));
                }
                hint
            },
            PermutationState::Buffered { k, min_n } => {
                // Same as `Start` minus the previously generated items.
                let held = self.vals.size_hint();
                let hint = sub_scalar(at_start(held, *k), *min_n - *k + 1);
                proof {
                    let reported = choose|reported: SizeHint|
                        held == #[trigger] add_scalar_spec(reported, self.vals@.len() as usize);
                    assert(hint == discovery_hint(
                        reported,
                        self.cached().len() as usize,
                        self.k() as usize,
                        self.produced() as usize,
                    ));
                }
                hint
            },
            PermutationState::Loaded(state) => {
                proof {
                    if *state is Ongoing {
                        state.lemma_current();
                    }
                }
                match state.remaining() {
                    Some(count) => (count, Some(count)),
                    None => (usize::MAX, None),
                }
            },
            PermutationState::End => (0, Some(0)),
        }
    }
}

/// At the beginning, there are `n!/(n-k)!` items to come but `n` might be
/// unknown: the bounds on `n` give bounds on the count.
pub fn at_start(source: SizeHint, k: usize) -> (hint: SizeHint)
    ensures
        hint == at_start_spec(source, k),
{
    let (low, upp) = source;
    let low = match (CompleteState::Start { n: low, k }).remaining() {
        Some(count) => count,
        None => usize::MAX,
    };
    let upp = match upp {
        Some(n) => (CompleteState::Start { n, k }).remaining(),
        None => None,
    };
    (low, upp)
}

impl<I> Clone for Permutations<I> where I: Clone + Iterator, I::Item: Clone {
    fn clone(&self) -> (copy: Self)
        ensures
            self.wf() ==> copy.wf(),
            copy.k() == self.k(),
            copy.produced() == self.produced(),
            copy.length_known() == self.length_known(),
            is_clone_of(copy.cached(), self.cached()),
            copy.source() is None <==> self.source() is None,
            self.source() matches Some(it) ==> cloned(it, copy.source()->0),
    {
        Permutations {
            vals: self.vals.clone(),
            state: self.state.duplicate(),
            k: self.k,
            produced: self.produced,
        }
    }
}

impl PermutationState {
    /// A copy that stands at the same place.
    fn duplicate(&self) -> (copy: Self)
        ensures
            match (*self, copy) {
                (PermutationState::Start { k }, PermutationState::Start { k: copy_k }) => k
                    == copy_k,
                (
                    PermutationState::Buffered { k, min_n },
                    PermutationState::Buffered { k: copy_k, min_n: copy_min_n },
                ) => k == copy_k && min_n == copy_min_n,
                (
                    PermutationState::Loaded(complete),
                    PermutationState::Loaded(copy_complete),
                ) => copy_complete.same_as(&complete),
                (PermutationState::End, PermutationState::End) => true,
                _ => false,
            },
    {
        match self {
            PermutationState::Start { k } => PermutationState::Start { k: *k },
            PermutationState::Buffered { k, min_n } => PermutationState::Buffered {
                k: *k,
                min_n: *min_n,
            },
            PermutationState::Loaded(complete) => PermutationState::Loaded(complete.clone()),
            PermutationState::End => PermutationState::End,
        }
    }
}

/// Where the items held and those still in the source are more than
/// `usize::MAX`, so are their permutations of any length but zero.
proof fn lemma_count_overflows(held: nat, rest: nat, k: nat)
    requires
        1 <= k <= held,
        held <= usize::MAX,
        held + rest > usize::MAX,
    ensures
        falling(held + rest, k) > usize::MAX,
{
    lemma_falling_covers(held + rest, k);
}

/// What is handed out at place `rank` does not depend on the items that the
/// source still holds, as long as none of them is needed yet: `k` is zero, or
/// there are none, or the permutation is one of those that end in an item
/// already held.
proof fn lemma_independent_of_rest<T>(held: Seq<T>, rest: Seq<T>, k: nat, rank: nat)
    requires
        rest.len() == 0 || k == 0 || (k >= 1 && rank + k <= held.len()),
    ensures
        nth_permutation(held + rest, k, rank) == nth_permutation(held, k, rank),
        rest.len() == 0 ==> held + rest == held,
        rest.len() > 0 && k >= 1 ==> rank < falling((held + rest).len(), k),
        k == 0 ==> falling((held + rest).len(), k) == falling(held.len(), k),
{
    let all = held + rest;
    if rest.len() == 0 {
    } else if k == 0 {
    } else {
        lemma_first_permutations_of_prefix(held, all, k, rank);
        lemma_first_permutations(all, k, rank);
    }
}

/// The stepping for `n` positions, brought to where discovery stopped: behind
/// the `n - k + 1` permutations that were handed out while the items came
/// in. It is back at the start where those were all.
fn resume(n: usize, k: usize) -> (complete_state: CompleteState)
    requires
        1 <= k <= n,
    ensures
        complete_state.wf(),
        complete_state.pool() == identity(n as nat),
        complete_state.n() == n,
        complete_state.k() == k,
        n - k + 1 <= falling(n as nat, k as nat),
        complete_state is Start <==> n - k + 1 == falling(n as nat, k as nat),
        complete_state is Ongoing ==> complete_state.rank() == n - k + 1,
{
    let prev_iteration_count = n - k + 1;
    let mut complete_state = CompleteState::Start { n, k };
    proof {
        lemma_falling_at_least(n as nat, k as nat);
    }

    // Advance the complete-state iterator to the correct point
    complete_state.advance();
    let mut advanced: usize = 0;
    while advanced < prev_iteration_count
        invariant
            1 <= k <= n,
            prev_iteration_count == n - k + 1 <= falling(n as nat, k as nat),
            advanced <= prev_iteration_count,
            complete_state.wf(),
            complete_state.pool() == identity(n as nat),
            complete_state.n() == n,
            complete_state.k() == k,
            complete_state is Ongoing ==> complete_state.rank() == advanced,
            complete_state is Start ==> advanced == prev_iteration_count == falling(
                n as nat,
                k as nat,
            ),
        decreases prev_iteration_count - advanced,
    {
        complete_state.advance();
        advanced += 1;
    }
    proof {
        if complete_state is Ongoing {
            complete_state.lemma_current();
        }
    }
    complete_state
}

/// The items at the positions of the current permutation are the
/// permutation of the items that has the same rank.
proof fn lemma_selection<T>(items: Seq<T>, complete: CompleteState)
    requires
        complete.wf(),
        complete is Ongoing,
        complete.pool() == identity(complete.n()),
        complete.k() == 0 || complete.n() == items.len(),
    ensures
        complete.rank() < falling(complete.n(), complete.k()),
        forall|j: int|
            0 <= j < complete.k() ==> 0 <= #[trigger] complete->indices@[j] < items.len(),
        Seq::new(complete.k(), |j: int| items[complete->indices@[j] as int]) == nth_permutation(
            items,
            complete.k(),
            complete.rank(),
        ),
{
    let k = complete.k();
    let rank = complete.rank();
    let indices = complete->indices@;
    complete.lemma_current();
    lemma_permutation_selects(complete.n(), k, rank);
    assert forall|j: int| 0 <= j < k implies 0 <= #[trigger] indices[j] < items.len() by {
        assert(complete.current()[j] == positions(indices)[j]);
    }
    if k > 0 {
        lemma_permutation_of_items(items, k, rank);
    }
}

/// Clones of the first `head` items of the buffer, then of the item at
/// `last`.
fn clone_head_and_one<I: Iterator>(vals: &LazyBuffer<I>, head: usize, last: usize) -> (out: Vec<
    I::Item,
>) where I::Item: Clone
    requires
        head <= vals@.len(),
        last < vals@.len(),
    ensures
        is_clone_of(out@, vals@.take(head as int).push(vals@[last as int])),
{
    let mut out: Vec<I::Item> = Vec::new();
    let mut i: usize = 0;
    while i < head
        invariant
            i <= head <= vals@.len(),
            is_clone_of(out@, vals@.take(i as int)),
        decreases head - i,
    {
        let item = vals.get(i).clone();
        out.push(item);
        i += 1;
    }
    let item = vals.get(last).clone();
    out.push(item);
    out
}

/// Clones of the items that stand at the first `k` of the given positions.
fn clone_selected<I: Iterator>(vals: &LazyBuffer<I>, positions: &Vec<usize>, k: usize) -> (out: Vec<
    I::Item,
>) where I::Item: Clone
    requires
        k <= positions@.len(),
        forall|j: int| 0 <= j < k ==> #[trigger] positions@[j] < vals@.len(),
    ensures
        is_clone_of(out@, Seq::new(k as nat, |j: int| vals@[positions@[j] as int])),
{
    let mut out: Vec<I::Item> = Vec::new();
    let mut i: usize = 0;
    while i < k
        invariant
            i <= k <= positions@.len(),
            forall|j: int| 0 <= j < k ==> #[trigger] positions@[j] < vals@.len(),
            out@.len() == i,
            forall|j: int| 0 <= j < i ==> cloned(vals@[positions@[j] as int], #[trigger] out@[j]),
        decreases k - i,
    {
        let item = vals.get(positions[i]).clone();
        out.push(item);
        i += 1;
    }
    out
}

} // verus!
