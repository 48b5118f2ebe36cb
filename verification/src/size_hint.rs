//! Arithmetic on size hints: a lower bound and, where one is known, an upper
//! bound on how many items are still to come.

use vstd::prelude::*;

verus! {

/// A lower bound and, where one is known, an upper bound.
pub type SizeHint = (usize, Option<usize>);

/// The bounds raised by `x`: the lower one stops at `usize::MAX`, the upper
/// one is given up where it would pass it.
pub open spec fn add_scalar_spec(sh: SizeHint, x: usize) -> SizeHint {
    (
        if sh.0 + x <= usize::MAX {
            (sh.0 + x) as usize
        } else {
            usize::MAX
        },
        match sh.1 {
            Some(upper) => if upper + x <= usize::MAX {
                Some((upper + x) as usize)
            } else {
                None
            },
            None => None,
        },
    )
}

/// The bounds lowered by `x`, neither going below zero.
pub open spec fn sub_scalar_spec(sh: SizeHint, x: usize) -> SizeHint {
    (
        if sh.0 >= x {
            (sh.0 - x) as usize
        } else {
            0
        },
        match sh.1 {
            Some(upper) => Some(
                if upper >= x {
                    (upper - x) as usize
                } else {
                    0
                },
            ),
            None => None,
        },
    )
}

/// Add `x` correctly to a `SizeHint`.
pub fn add_scalar(sh: SizeHint, x: usize) -> (sum: SizeHint)
    ensures
        sum == add_scalar_spec(sh, x),
{
    let (low, upper) = sh;
    let low = low.saturating_add(x);
    let upper = match upper {
        Some(upper) => upper.checked_add(x),
        None => None,
    };
    (low, upper)
}

/// Subtract `x` correctly from a `SizeHint`.
pub fn sub_scalar(sh: SizeHint, x: usize) -> (difference: SizeHint)
    ensures
        difference == sub_scalar_spec(sh, x),
{
    let (low, upper) = sh;
    let low = low.saturating_sub(x);
    let upper = match upper {
        Some(upper) => Some(upper.saturating_sub(x)),
        None => None,
    };
    (low, upper)
}

} // verus!
