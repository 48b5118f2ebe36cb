//! Counting `k`-permutations: the falling factorial and the mixed-radix
//! reading of a counter array, both with overflow detection.

use vstd::prelude::*;

verus! {

/// The falling factorial `n * (n - 1) * ... * (n - k + 1)`: the number of
/// ordered selections of `k` out of `n` positions. It is `1` for `k == 0`
/// and `0` for `k > n`.
pub open spec fn falling(n: nat, k: nat) -> nat
    decreases k,
{
    if k == 0 {
        1
    } else if k > n {
        0
    } else {
        falling(n, (k - 1) as nat) * ((n - k + 1) as nat)
    }
}

/// A count as a machine integer, or `None` where it does not fit.
pub open spec fn fits(count: nat) -> Option<usize> {
    if count <= usize::MAX {
        Some(count as usize)
    } else {
        None
    }
}

/// The value of `digits` read most significant digit first, where the digit
/// at position `i` has radix `n - i`.
pub open spec fn mixed_radix(n: nat, digits: Seq<nat>) -> nat
    decreases digits.len(),
{
    if digits.len() == 0 {
        0
    } else {
        mixed_radix(n, digits.drop_last()) * ((n - (digits.len() - 1)) as nat) + digits.last()
    }
}

/// Every digit is below its radix: `digits[i] < n - i`.
pub open spec fn digits_in_range(n: nat, digits: Seq<nat>) -> bool {
    forall|i: int| 0 <= i < digits.len() ==> #[trigger] digits[i] + i < n
}

/// Of no positions at all there is one selection, the empty one, however
/// many positions there are.
pub proof fn lemma_falling_of_none(n: nat)
    ensures
        falling(n, 0) == 1,
{
}

/// There is no selection of more positions than there are.
pub proof fn lemma_falling_of_too_many(n: nat, k: nat)
    requires
        k > n,
    ensures
        falling(n, k) == 0,
{
}

/// A falling factorial with `k <= n` is positive.
pub proof fn lemma_falling_positive(n: nat, k: nat)
    requires
        k <= n,
    ensures
        falling(n, k) >= 1,
    decreases k,
{
    if k > 0 {
        lemma_falling_positive(n, (k - 1) as nat);
        assert(falling(n, (k - 1) as nat) * ((n - k + 1) as nat) >= 1) by (nonlinear_arith)
            requires
                falling(n, (k - 1) as nat) >= 1,
                (n - k + 1) as nat >= 1,
        ;
    }
}

/// The first factor can be split off: `(n + 1)` positions leave `n` for the
/// remaining `k` choices.
pub proof fn lemma_falling_first_factor(n: nat, k: nat)
    requires
        k <= n,
    ensures
        falling(n + 1, k + 1) == (n + 1) * falling(n, k),
    decreases k,
{
    if k == 0 {
        assert(falling(n + 1, 0) == 1);
        assert(1 * ((n + 1) as nat) == (n + 1) * 1) by (nonlinear_arith);
    } else {
        lemma_falling_first_factor(n, (k - 1) as nat);
        let a = falling(n, (k - 1) as nat);
        let f = (n - k + 1) as nat;
        assert(((n + 1) * a) * f == (n + 1) * (a * f)) by (nonlinear_arith);
    }
}

/// With more positions to choose from, and as many more choices, there are
/// at least as many selections.
pub proof fn lemma_falling_grows(n: nat, k: nat, j: nat)
    requires
        j <= k <= n,
    ensures
        falling((n - k + j) as nat, j) <= falling(n, k),
    decreases k - j,
{
    if j < k {
        lemma_falling_grows(n, k, j + 1);
        lemma_falling_first_factor((n - k + j) as nat, j);
        let m = (n - k + j) as nat;
        assert(falling(m, j) <= (m + 1) * falling(m, j)) by (nonlinear_arith);
    }
}

/// There are at least `n - k + 1` selections of `k >= 1` out of `n`
/// positions: those that differ in the last position only.
pub proof fn lemma_falling_at_least(n: nat, k: nat)
    requires
        1 <= k <= n,
    ensures
        falling(n, k) >= n - k + 1,
{
    lemma_falling_positive(n, (k - 1) as nat);
    let rest = falling(n, (k - 1) as nat);
    let last = (n - k + 1) as nat;
    assert(rest * last >= last) by (nonlinear_arith)
        requires
            rest >= 1,
    ;
}

/// There are at least as many selections of `k >= 1` out of `n` positions
/// as there are positions.
pub proof fn lemma_falling_covers(n: nat, k: nat)
    requires
        1 <= k <= n,
    ensures
        falling(n, k) >= n,
    decreases k,
{
    if k == 1 {
        assert(falling(n, 1) == falling(n, 0) * ((n - 1 + 1) as nat));
        assert(1 * n == n) by (nonlinear_arith);
    } else {
        lemma_falling_covers(n, (k - 1) as nat);
        let rest = falling(n, (k - 1) as nat);
        let last = (n - k + 1) as nat;
        assert(rest * last >= n) by (nonlinear_arith)
            requires
                rest >= n,
                last >= 1,
        ;
    }
}

/// A valid digit sequence has a value below the number of such sequences.
pub proof fn lemma_mixed_radix_bound(n: nat, digits: Seq<nat>)
    requires
        digits.len() <= n,
        digits_in_range(n, digits),
    ensures
        mixed_radix(n, digits) < falling(n, digits.len()),
    decreases digits.len(),
{
    let k = digits.len();
    if k > 0 {
        let front = digits.drop_last();
        lemma_mixed_radix_bound(n, front);
        let radix = (n - (k - 1)) as nat;
        let high = mixed_radix(n, front);
        let total = falling(n, (k - 1) as nat);
        assert(high * radix + digits.last() < total * radix) by (nonlinear_arith)
            requires
                high < total,
                digits.last() < radix,
        ;
    }
}

/// The value of the first `len` digits does not exceed the value of all of
/// them.
pub proof fn lemma_mixed_radix_prefix(n: nat, digits: Seq<nat>, len: int)
    requires
        0 <= len <= digits.len() <= n,
    ensures
        mixed_radix(n, digits.take(len)) <= mixed_radix(n, digits),
    decreases digits.len() - len,
{
    if len < digits.len() {
        let k = digits.len();
        lemma_mixed_radix_prefix(n, digits.drop_last(), len);
        assert(digits.drop_last().take(len) =~= digits.take(len));
        let radix = (n - (k - 1)) as nat;
        let high = mixed_radix(n, digits.drop_last());
        assert(high <= high * radix + digits.last()) by (nonlinear_arith)
            requires
                radix >= 1,
        ;
    } else {
        assert(digits.take(len) =~= digits);
    }
}

/// Digits that are all zero have the value zero.
pub proof fn lemma_mixed_radix_zero(n: nat, digits: Seq<nat>)
    requires
        forall|i: int| 0 <= i < digits.len() ==> digits[i] == 0,
    ensures
        mixed_radix(n, digits) == 0,
    decreases digits.len(),
{
    if digits.len() > 0 {
        lemma_mixed_radix_zero(n, digits.drop_last());
        let radix = (n - (digits.len() - 1)) as nat;
        assert(0 * radix == 0) by (nonlinear_arith);
    }
}

/// Digits that are all at their maximum have the largest value.
pub proof fn lemma_mixed_radix_full(n: nat, digits: Seq<nat>)
    requires
        digits.len() <= n,
        forall|i: int| 0 <= i < digits.len() ==> digits[i] + i + 1 == n,
    ensures
        mixed_radix(n, digits) + 1 == falling(n, digits.len()),
    decreases digits.len(),
{
    let k = digits.len();
    if k > 0 {
        lemma_mixed_radix_full(n, digits.drop_last());
        let radix = (n - (k - 1)) as nat;
        let high = mixed_radix(n, digits.drop_last());
        let total = falling(n, (k - 1) as nat);
        assert(high * radix + digits.last() + 1 == total * radix) by (nonlinear_arith)
            requires
                high + 1 == total,
                digits.last() + 1 == radix,
        ;
    }
}

/// Counting down from the top and counting up from zero meet: where each
/// digit of `down` is the maximum less the digit of `up`, the two values add
/// up to the largest value.
pub proof fn lemma_mixed_radix_complement(n: nat, up: Seq<nat>, down: Seq<nat>)
    requires
        up.len() == down.len() <= n,
        forall|i: int|
            #![trigger up[i]]
            #![trigger down[i]]
            0 <= i < up.len() ==> up[i] + down[i] + i + 1 == n,
    ensures
        mixed_radix(n, up) + mixed_radix(n, down) + 1 == falling(n, up.len()),
    decreases up.len(),
{
    let k = up.len();
    if k > 0 {
        lemma_mixed_radix_complement(n, up.drop_last(), down.drop_last());
        let radix = (n - (k - 1)) as nat;
        let a = mixed_radix(n, up.drop_last());
        let b = mixed_radix(n, down.drop_last());
        let total = falling(n, (k - 1) as nat);
        assert((a * radix + up.last()) + (b * radix + down.last()) + 1 == total * radix)
            by (nonlinear_arith)
            requires
                a + b + 1 == total,
                up.last() + down.last() + 1 == radix,
        ;
    }
}

/// Adding one: where `next` agrees with `digits` before position `at`, is
/// one more at `at`, and is zero behind it where `digits` is at its maximum,
/// its value is one more.
pub proof fn lemma_mixed_radix_successor(n: nat, digits: Seq<nat>, next: Seq<nat>, at: int)
    requires
        0 <= at < digits.len() == next.len() <= n,
        forall|i: int| 0 <= i < at ==> #[trigger] next[i] == digits[i],
        next[at] == digits[at] + 1,
        forall|i: int|
            #![trigger digits[i]]
            #![trigger next[i]]
            at < i < digits.len() ==> digits[i] + i + 1 == n && next[i] == 0,
    ensures
        mixed_radix(n, next) == mixed_radix(n, digits) + 1,
    decreases digits.len(),
{
    let k = digits.len();
    let radix = (n - (k - 1)) as nat;
    if at == k - 1 {
        assert(next.drop_last() =~= digits.drop_last());
    } else {
        lemma_mixed_radix_successor(n, digits.drop_last(), next.drop_last(), at);
        let a = mixed_radix(n, digits.drop_last());
        assert((a + 1) * radix + 0 == a * radix + digits.last() + 1) by (nonlinear_arith)
            requires
                digits.last() + 1 == radix,
        ;
    }
}

/// The number of `k`-permutations of `n` positions, `None` where it exceeds
/// `usize::MAX`.
pub fn checked_falling(n: usize, k: usize) -> (count: Option<usize>)
    ensures
        count == fits(falling(n as nat, k as nat)),
{
    if n < k {
        return Some(0);
    }
    let mut acc: usize = 1;
    let mut j: usize = 0;
    while j < k
        invariant
            j <= k <= n,
            acc == falling((n - k + j) as nat, j as nat),
        decreases k - j,
    {
        let factor: usize = n - k + j + 1;
        proof {
            lemma_falling_first_factor((n - k + j) as nat, j as nat);
            assert(acc * factor == factor * acc) by (nonlinear_arith);
        }
        match acc.checked_mul(factor) {
            Some(product) => {
                acc = product;
            },
            None => {
                proof {
                    lemma_falling_grows(n as nat, k as nat, (j + 1) as nat);
                }
                return None;
            },
        }
        j += 1;
    }
    Some(acc)
}

} // verus!
