//! The order in which the `k`-permutations of a sequence come out.
//!
//! A permutation is named by its digits: digit `i` says how many of the
//! items still unused after positions `0..i` are skipped to find the item for
//! position `i`. Counting through the digit sequences as through the numbers
//! of a mixed-radix system, least significant digit last, gives the
//! permutations in the lexicographic order of their position tuples.

use vstd::arithmetic::div_mod::{
    lemma_div_pos_is_pos, lemma_fundamental_div_mod, lemma_fundamental_div_mod_converse,
    lemma_mod_pos_bound,
};
use vstd::prelude::*;
use crate::counting::{digits_in_range, falling, lemma_falling_at_least, mixed_radix};

verus! {

/// The positions `0, 1, ..., n - 1` in their own order.
pub open spec fn identity(n: nat) -> Seq<int> {
    Seq::new(n, |i: int| i)
}

/// `s` with the item at index `from` moved down to index `to`; the items in
/// between move up by one.
pub open spec fn move_to<T>(s: Seq<T>, to: int, from: int) -> Seq<T> {
    s.remove(from).insert(to, s[from])
}

/// The pool rearranged as the digits say: for each position `i` in turn, the
/// item that stands `digits[i]` places after position `i` is moved to
/// position `i`. The first `digits.len()` items are the selection; behind
/// them stand the unused items, in the order they had in the pool.
pub open spec fn arrange<T>(pool: Seq<T>, digits: Seq<nat>) -> Seq<T>
    decreases digits.len(),
{
    if digits.len() == 0 {
        pool
    } else {
        let i = digits.len() - 1;
        move_to(arrange(pool, digits.drop_last()), i, i + digits.last())
    }
}

/// `s` with the item at index `to` moved up to index `from`; the items in
/// between move down by one. It undoes [`move_to`].
pub open spec fn move_back<T>(s: Seq<T>, to: int, from: int) -> Seq<T> {
    s.remove(to).insert(from, s[to])
}

/// The pool that the digits rearrange into `arranged`: each move of
/// [`arrange`] is undone, the last one first.
pub open spec fn unarrange<T>(arranged: Seq<T>, digits: Seq<nat>) -> Seq<T>
    decreases digits.len(),
{
    if digits.len() == 0 {
        arranged
    } else {
        let i = digits.len() - 1;
        unarrange(move_back(arranged, i, i + digits.last()), digits.drop_last())
    }
}

/// The `k` digits of `rank` in the mixed-radix system whose digit `i` has
/// radix `n - i`.
pub open spec fn digits_of(n: nat, k: nat, rank: nat) -> Seq<nat>
    decreases k,
{
    if k == 0 {
        Seq::empty()
    } else {
        let radix = (n - k + 1) as nat;
        digits_of(n, (k - 1) as nat, rank / radix).push(rank % radix)
    }
}

/// The `k`-permutation of `items` that comes at place `rank`, counting from
/// zero, where `rank < falling(items.len(), k)`.
pub open spec fn nth_permutation<T>(items: Seq<T>, k: nat, rank: nat) -> Seq<T> {
    arrange(items, digits_of(items.len(), k, rank)).take(k as int)
}

/// What a permutation is during discovery: the first `k - 1` positions,
/// followed by position `last`.
pub open spec fn head_and_one(k: nat, last: int) -> Seq<int> {
    Seq::new(k, |i: int| if i < k - 1 { i } else { last })
}

/// `s` with the items at `a` and `b` exchanged.
pub open spec fn swapped<T>(s: Seq<T>, a: int, b: int) -> Seq<T> {
    s.update(a, s[b]).update(b, s[a])
}

/// `s` with the item at `at` taken out and put at the end.
pub open spec fn rotated<T>(s: Seq<T>, at: int) -> Seq<T> {
    s.remove(at).push(s[at])
}

/// `first` comes before `second` in the lexicographic order: up to some
/// place they agree, and there `first` holds the smaller position.
pub open spec fn comes_before(first: Seq<int>, second: Seq<int>) -> bool {
    exists|i: int|
        0 <= i < first.len() && i < second.len() && #[trigger] first.take(i) == second.take(i)
            && first[i] < second[i]
}

/// Rearranging keeps the length.
pub proof fn lemma_arrange_len<T>(pool: Seq<T>, digits: Seq<nat>)
    requires
        digits_in_range(pool.len(), digits),
    ensures
        arrange(pool, digits).len() == pool.len(),
    decreases digits.len(),
{
    if digits.len() > 0 {
        lemma_arrange_len(pool, digits.drop_last());
    }
}

/// Undoing the rearrangement keeps the length.
pub proof fn lemma_unarrange_len<T>(arranged: Seq<T>, digits: Seq<nat>)
    requires
        digits_in_range(arranged.len(), digits),
    ensures
        unarrange(arranged, digits).len() == arranged.len(),
    decreases digits.len(),
{
    if digits.len() > 0 {
        let i = digits.len() - 1;
        lemma_unarrange_len(move_back(arranged, i, i + digits.last()), digits.drop_last());
    }
}

/// Every sequence is the arrangement of a pool: the one that undoing the
/// moves gives.
pub proof fn lemma_arrange_unarrange<T>(arranged: Seq<T>, digits: Seq<nat>)
    requires
        digits_in_range(arranged.len(), digits),
    ensures
        arrange(unarrange(arranged, digits), digits) == arranged,
    decreases digits.len(),
{
    if digits.len() > 0 {
        let i = digits.len() - 1;
        let front = digits.drop_last();
        let undone = move_back(arranged, i, i + digits.last());
        lemma_arrange_unarrange(undone, front);
    }
}

/// Undoing the moves of an arrangement gives back the pool.
pub proof fn lemma_unarrange_arrange<T>(pool: Seq<T>, digits: Seq<nat>)
    requires
        digits_in_range(pool.len(), digits),
    ensures
        unarrange(arrange(pool, digits), digits) == pool,
    decreases digits.len(),
{
    if digits.len() > 0 {
        let i = digits.len() - 1;
        let front = digits.drop_last();
        lemma_arrange_len(pool, front);
        let before = arrange(pool, front);
        lemma_unarrange_arrange(pool, front);
        assert(move_back(move_to(before, i, i + digits.last()), i, i + digits.last())
            =~= before);
    }
}

/// Digits that are zero from position `len` on move nothing: only the first
/// `len` digits matter.
pub proof fn lemma_arrange_ignores_zeros<T>(pool: Seq<T>, digits: Seq<nat>, len: int)
    requires
        0 <= len <= digits.len(),
        digits_in_range(pool.len(), digits),
        forall|i: int| len <= i < digits.len() ==> digits[i] == 0,
    ensures
        arrange(pool, digits) == arrange(pool, digits.take(len)),
    decreases digits.len() - len,
{
    if len < digits.len() {
        let front = digits.drop_last();
        lemma_arrange_len(pool, front);
        lemma_arrange_ignores_zeros(pool, front, len);
        assert(front.take(len) =~= digits.take(len));
    } else {
        assert(digits.take(len) =~= digits);
    }
}

/// The first `len` items of an arrangement depend on the first `len` digits
/// only.
pub proof fn lemma_arrange_prefix<T>(pool: Seq<T>, digits: Seq<nat>, len: int)
    requires
        0 <= len <= digits.len(),
        digits_in_range(pool.len(), digits),
    ensures
        arrange(pool, digits).take(len) == arrange(pool, digits.take(len)).take(len),
    decreases digits.len() - len,
{
    if len < digits.len() {
        let front = digits.drop_last();
        lemma_arrange_len(pool, front);
        lemma_arrange_prefix(pool, front, len);
        assert(front.take(len) =~= digits.take(len));
    } else {
        assert(digits.take(len) =~= digits);
    }
}

/// The digits of a rank are valid digits, and the rank is their value.
pub proof fn lemma_digits_of_rank(n: nat, k: nat, rank: nat)
    requires
        k <= n,
        rank < falling(n, k),
    ensures
        digits_of(n, k, rank).len() == k,
        digits_in_range(n, digits_of(n, k, rank)),
        mixed_radix(n, digits_of(n, k, rank)) == rank,
    decreases k,
{
    if k > 0 {
        let radix = (n - k + 1) as nat;
        let high = rank / radix;
        let low = rank % radix;
        let total = falling(n, (k - 1) as nat);
        lemma_fundamental_div_mod(rank as int, radix as int);
        assert(high < total) by (nonlinear_arith)
            requires
                rank == radix * high + low,
                rank < total * radix,
                radix >= 1,
        ;
        lemma_digits_of_rank(n, (k - 1) as nat, high);
        let front = digits_of(n, (k - 1) as nat, high);
        let digits = digits_of(n, k, rank);
        assert(digits.drop_last() =~= front);
        assert(high * radix == radix * high) by (nonlinear_arith);
    }
}

/// Valid digits are the digits of their own value.
pub proof fn lemma_digits_of_value(n: nat, digits: Seq<nat>)
    requires
        digits_in_range(n, digits),
    ensures
        digits_of(n, digits.len(), mixed_radix(n, digits)) == digits,
    decreases digits.len(),
{
    let k = digits.len();
    if k > 0 {
        let radix = (n - (k - 1)) as nat;
        let front = digits.drop_last();
        let high = mixed_radix(n, front);
        lemma_digits_of_value(n, front);
        lemma_fundamental_div_mod_converse(
            mixed_radix(n, digits) as int,
            radix as int,
            high as int,
            digits.last() as int,
        );
    }
}

/// Raising a digit that has only zeros behind it exchanges the item at its
/// position with the next unused one.
pub proof fn lemma_arrange_raise<T>(pool: Seq<T>, digits: Seq<nat>, at: int)
    requires
        0 <= at < digits.len(),
        digits_in_range(pool.len(), digits),
        digits[at] + at + 1 < pool.len(),
        forall|i: int| at < i < digits.len() ==> digits[i] == 0,
    ensures
        arrange(pool, digits.update(at, digits[at] + 1)) == swapped(
            arrange(pool, digits),
            at,
            at + 1 + digits[at],
        ),
{
    let raised = digits.update(at, digits[at] + 1);
    let front = digits.take(at);
    lemma_arrange_len(pool, front);
    lemma_arrange_ignores_zeros(pool, digits, at + 1);
    lemma_arrange_ignores_zeros(pool, raised, at + 1);
    assert(digits.take(at + 1).drop_last() =~= front);
    assert(raised.take(at + 1).drop_last() =~= front);
}

/// Clearing a digit that is at its maximum and has only zeros behind it
/// puts the item at its position behind all the others.
pub proof fn lemma_arrange_clear<T>(pool: Seq<T>, digits: Seq<nat>, at: int)
    requires
        0 <= at < digits.len(),
        digits_in_range(pool.len(), digits),
        digits[at] + at + 1 == pool.len(),
        forall|i: int| at < i < digits.len() ==> digits[i] == 0,
    ensures
        arrange(pool, digits.update(at, 0)) == rotated(arrange(pool, digits), at),
{
    let cleared = digits.update(at, 0);
    let front = digits.take(at);
    lemma_arrange_len(pool, front);
    lemma_arrange_ignores_zeros(pool, digits, at + 1);
    lemma_arrange_ignores_zeros(pool, cleared, at);
    assert(cleared.take(at) =~= front);
    assert(digits.take(at + 1).drop_last() =~= front);
}

/// An arrangement of the positions `0..n` holds each position once.
pub proof fn lemma_arrange_positions(n: nat, digits: Seq<nat>)
    requires
        digits_in_range(n, digits),
    ensures
        arrange(identity(n), digits).len() == n,
        forall|j: int| 0 <= j < n ==> 0 <= #[trigger] arrange(identity(n), digits)[j] < n,
        arrange(identity(n), digits).no_duplicates(),
    decreases digits.len(),
{
    if digits.len() > 0 {
        let front = digits.drop_last();
        lemma_arrange_positions(n, front);
    }
}

/// Arranging items is arranging their positions: the item at place `j` of
/// an arrangement is the one whose position stands at place `j` when the
/// positions are arranged by the same digits.
pub proof fn lemma_arrange_natural<T>(items: Seq<T>, digits: Seq<nat>)
    requires
        digits_in_range(items.len(), digits),
    ensures
        arrange(items, digits).len() == items.len(),
        forall|j: int|
            0 <= j < items.len() ==> #[trigger] arrange(items, digits)[j] == items[arrange(
                identity(items.len()),
                digits,
            )[j]],
    decreases digits.len(),
{
    let n = items.len();
    if digits.len() > 0 {
        let front = digits.drop_last();
        lemma_arrange_natural(items, front);
        lemma_arrange_positions(n, front);
    }
}

/// Different digits select different positions.
pub proof fn lemma_arrange_injective(n: nat, first: Seq<nat>, second: Seq<nat>)
    requires
        first.len() == second.len(),
        digits_in_range(n, first),
        digits_in_range(n, second),
        arrange(identity(n), first).take(first.len() as int) == arrange(identity(n), second).take(
            first.len() as int,
        ),
    ensures
        first == second,
    decreases first.len(),
{
    let k = first.len();
    if k > 0 {
        let i = k - 1;
        let pool = identity(n);
        lemma_arrange_prefix(pool, first, i);
        lemma_arrange_prefix(pool, second, i);
        lemma_arrange_len(pool, first);
        lemma_arrange_len(pool, second);
        assert(arrange(pool, first).take(i) =~= arrange(pool, first).take(k as int).take(i));
        assert(arrange(pool, second).take(i) =~= arrange(pool, second).take(k as int).take(i));
        lemma_arrange_injective(n, first.drop_last(), second.drop_last());
        let before = arrange(pool, first.drop_last());
        lemma_arrange_positions(n, first.drop_last());
        assert(arrange(pool, second).take(k as int)[i] == before[i + second.last()]);
        assert(second =~= second.drop_last().push(second.last()));
    }
}

/// A permutation of positions has length `k`, holds positions below `n`,
/// and holds none of them twice.
pub proof fn lemma_permutation_selects(n: nat, k: nat, rank: nat)
    requires
        k <= n,
        rank < falling(n, k),
    ensures
        nth_permutation(identity(n), k, rank).len() == k,
        forall|j: int|
            0 <= j < k ==> 0 <= #[trigger] nth_permutation(identity(n), k, rank)[j] < n,
        nth_permutation(identity(n), k, rank).no_duplicates(),
{
    let digits = digits_of(n, k, rank);
    lemma_digits_of_rank(n, k, rank);
    lemma_arrange_positions(n, digits);
}

/// Permutations at different places of the order differ.
pub proof fn lemma_permutations_differ(n: nat, k: nat, first: nat, second: nat)
    requires
        k <= n,
        first < falling(n, k),
        second < falling(n, k),
        first != second,
    ensures
        nth_permutation(identity(n), k, first) != nth_permutation(identity(n), k, second),
{
    lemma_digits_of_rank(n, k, first);
    lemma_digits_of_rank(n, k, second);
    if nth_permutation(identity(n), k, first) == nth_permutation(identity(n), k, second) {
        lemma_arrange_injective(n, digits_of(n, k, first), digits_of(n, k, second));
    }
}

/// The permutation of any items is the permutation of their positions,
/// each position replaced by the item that stands there.
pub proof fn lemma_permutation_of_items<T>(items: Seq<T>, k: nat, rank: nat)
    requires
        k <= items.len(),
        rank < falling(items.len(), k),
    ensures
        nth_permutation(items, k, rank).len() == k,
        forall|j: int|
            0 <= j < k ==> #[trigger] nth_permutation(items, k, rank)[j]
                == items[nth_permutation(identity(items.len()), k, rank)[j]],
{
    let n = items.len();
    let digits = digits_of(n, k, rank);
    lemma_digits_of_rank(n, k, rank);
    lemma_arrange_natural(items, digits);
    lemma_arrange_positions(n, digits);
}

/// The one permutation of length zero is empty, whatever the items.
pub proof fn lemma_empty_permutation<T>(items: Seq<T>, rank: nat)
    ensures
        nth_permutation(items, 0, rank) == Seq::<T>::empty(),
{
}

/// The digits of the first ranks: zeros, and the rank in the last place.
proof fn lemma_digits_of_small(n: nat, k: nat, rank: nat)
    requires
        1 <= k <= n,
        rank + k <= n,
    ensures
        digits_of(n, k, rank).len() == k,
        digits_of(n, k, rank)[k - 1] == rank,
        forall|i: int| 0 <= i < k - 1 ==> digits_of(n, k, rank)[i] == 0,
    decreases k,
{
    let radix = (n - k + 1) as nat;
    lemma_fundamental_div_mod_converse(rank as int, radix as int, 0, rank as int);
    assert(digits_of(n, k, rank) == digits_of(n, (k - 1) as nat, 0).push(rank));
    if k > 1 {
        lemma_digits_of_small(n, (k - 1) as nat, 0);
    }
}

/// The first `n - k + 1` permutations keep the first `k - 1` items in
/// place and put each of the others in turn behind them.
pub proof fn lemma_first_permutations<T>(items: Seq<T>, k: nat, rank: nat)
    requires
        1 <= k,
        rank + k <= items.len(),
    ensures
        rank < falling(items.len(), k),
        nth_permutation(items, k, rank) == items.take(k - 1).push(items[k - 1 + rank]),
{
    let n = items.len();
    let digits = digits_of(n, k, rank);
    lemma_falling_at_least(n, k);
    lemma_digits_of_small(n, k, rank);
    let front = digits.drop_last();
    assert(arrange(items, front) == items) by {
        assert(digits_in_range(n, front));
        lemma_arrange_ignores_zeros(items, front, 0);
    }
}

/// What the first permutations are does not depend on the items that
/// follow: they are the same for a sequence and for any longer one that
/// starts with it.
pub proof fn lemma_first_permutations_of_prefix<T>(items: Seq<T>, all: Seq<T>, k: nat, rank: nat)
    requires
        items.is_prefix_of(all),
        1 <= k,
        rank + k <= items.len(),
    ensures
        nth_permutation(items, k, rank) == nth_permutation(all, k, rank),
{
    lemma_first_permutations(items, k, rank);
    lemma_first_permutations(all, k, rank);
}

/// Behind the selection the unused positions stand in ascending order.
proof fn lemma_arrange_rest_ascends(n: nat, digits: Seq<nat>)
    requires
        digits_in_range(n, digits),
    ensures
        forall|i: int, j: int|
            #![trigger arrange(identity(n), digits)[i], arrange(identity(n), digits)[j]]
            digits.len() <= i < j < n ==> arrange(identity(n), digits)[i] < arrange(
                identity(n),
                digits,
            )[j],
    decreases digits.len(),
{
    if digits.len() > 0 {
        let front = digits.drop_last();
        lemma_arrange_rest_ascends(n, front);
        lemma_arrange_len(identity(n), front);
    }
}

/// Of two digit sequences the one with the smaller value has the smaller
/// digit at the first place where they differ. Returns that place.
proof fn lemma_first_difference(n: nat, lower: Seq<nat>, higher: Seq<nat>) -> (at: int)
    requires
        lower.len() == higher.len(),
        digits_in_range(n, lower),
        digits_in_range(n, higher),
        mixed_radix(n, lower) < mixed_radix(n, higher),
    ensures
        0 <= at < lower.len(),
        lower.take(at) == higher.take(at),
        lower[at] < higher[at],
    decreases lower.len(),
{
    let k = lower.len();
    let last = k - 1;
    let radix = (n - last) as nat;
    let lower_front = lower.drop_last();
    let higher_front = higher.drop_last();
    let a = mixed_radix(n, lower_front);
    let b = mixed_radix(n, higher_front);
    if a < b {
        let at = lemma_first_difference(n, lower_front, higher_front);
        assert(higher.take(at) =~= higher_front.take(at));
        at
    } else if a == b {
        lemma_digits_of_value(n, lower_front);
        lemma_digits_of_value(n, higher_front);
        last
    } else {
        assert(a * radix + lower.last() >= b * radix + radix) by (nonlinear_arith)
            requires
                a >= b + 1,
        ;
        last
    }
}

/// The permutations come in the lexicographic order of their positions.
pub proof fn lemma_permutations_ascend(n: nat, k: nat, first: nat, second: nat)
    requires
        k <= n,
        first < second < falling(n, k),
    ensures
        comes_before(
            nth_permutation(identity(n), k, first),
            nth_permutation(identity(n), k, second),
        ),
{
    let pool = identity(n);
    let lower = digits_of(n, k, first);
    let higher = digits_of(n, k, second);
    lemma_digits_of_rank(n, k, first);
    lemma_digits_of_rank(n, k, second);
    let at = lemma_first_difference(n, lower, higher);
    let shared = lower.take(at);
    lemma_arrange_len(pool, shared);
    lemma_arrange_len(pool, lower);
    lemma_arrange_len(pool, higher);
    lemma_arrange_rest_ascends(n, shared);
    lemma_arrange_prefix(pool, lower, at + 1);
    lemma_arrange_prefix(pool, higher, at + 1);
    assert(lower.take(at + 1).drop_last() =~= shared);
    assert(higher.take(at + 1).drop_last() =~= shared);
    let p = nth_permutation(pool, k, first);
    let q = nth_permutation(pool, k, second);
    assert(p.take(at) =~= q.take(at));
}

} // verus!
