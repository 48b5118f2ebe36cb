use lazy_permutations::complete::CompleteState;
use lazy_permutations::counting::checked_falling;
use lazy_permutations::permutations::at_start;
use lazy_permutations::size_hint::{add_scalar, sub_scalar};

#[test]
fn falling_factorial_values() {
    assert_eq!(checked_falling(5, 3), Some(60));
    assert_eq!(checked_falling(4, 2), Some(12));
    assert_eq!(checked_falling(5, 5), Some(120));
    assert_eq!(checked_falling(10, 1), Some(10));
    assert_eq!(checked_falling(10, 4), Some(5040));
    assert_eq!(checked_falling(12, 12), Some(479001600));
}

#[test]
fn falling_factorial_of_no_positions_is_one() {
    assert_eq!(checked_falling(0, 0), Some(1));
    assert_eq!(checked_falling(3, 0), Some(1));
    assert_eq!(checked_falling(usize::MAX, 0), Some(1));
}

#[test]
fn falling_factorial_of_too_many_positions_is_zero() {
    assert_eq!(checked_falling(0, 1), Some(0));
    assert_eq!(checked_falling(3, 4), Some(0));
    assert_eq!(checked_falling(3, usize::MAX), Some(0));
    assert_eq!(checked_falling(usize::MAX - 1, usize::MAX), Some(0));
}

#[test]
fn falling_factorial_at_the_edge_of_the_range() {
    assert_eq!(checked_falling(usize::MAX, 1), Some(usize::MAX));
    assert_eq!(checked_falling(usize::MAX, 2), None);
    assert_eq!(checked_falling(usize::MAX, usize::MAX), None);
    // the largest root whose square-like product still fits
    let root = 1usize << (usize::BITS / 2);
    assert_eq!(checked_falling(root, 2), Some(root * (root - 1)));
    assert_eq!(checked_falling(root + 1, 2), None);
}

#[test]
fn overflow_is_not_a_wrapped_value() {
    for k in 1..200usize {
        let n = 200usize;
        let mut exact: u128 = 1;
        let mut fits = true;
        for factor in (n - k + 1)..=n {
            match exact.checked_mul(factor as u128) {
                Some(product) if product <= usize::MAX as u128 => exact = product,
                _ => {
                    fits = false;
                    break;
                }
            }
        }
        let expected = if fits { Some(exact as usize) } else { None };
        assert_eq!(checked_falling(n, k), expected, "k = {}", k);
    }
}

#[test]
fn remaining_at_the_start_is_the_falling_factorial() {
    assert_eq!(CompleteState::Start { n: 4, k: 2 }.remaining(), Some(12));
    assert_eq!(CompleteState::Start { n: 2, k: 4 }.remaining(), Some(0));
    assert_eq!(CompleteState::Start { n: 7, k: 0 }.remaining(), Some(1));
    assert_eq!(CompleteState::Start { n: 100, k: 50 }.remaining(), None);
}

#[test]
fn remaining_in_progress_reads_the_counters() {
    // (0 * 4 + 2) * 3 + 2
    let state = CompleteState::Ongoing { indices: vec![1, 0, 2, 3], cycles: vec![2, 2] };
    assert_eq!(state.remaining(), Some(8));
    let state = CompleteState::Ongoing { indices: vec![3, 2, 0, 1], cycles: vec![0, 0] };
    assert_eq!(state.remaining(), Some(0));
    let state = CompleteState::Ongoing { indices: vec![0, 1, 2, 3], cycles: vec![3, 2] };
    assert_eq!(state.remaining(), Some(11));
}

#[test]
fn remaining_in_progress_reports_overflow() {
    let n = 30usize;
    let mut state = CompleteState::Start { n, k: n };
    state.advance();
    assert_eq!(state.remaining(), None);
    state.advance();
    assert_eq!(state.remaining(), None);
}

#[test]
fn bounds_at_the_start() {
    assert_eq!(at_start((4, Some(4)), 2), (12, Some(12)));
    assert_eq!(at_start((2, Some(5)), 2), (2, Some(20)));
    assert_eq!(at_start((0, None), 2), (0, None));
    assert_eq!(at_start((3, None), 0), (1, None));
    assert_eq!(at_start((1, Some(1)), 2), (0, Some(0)));
}

#[test]
fn bounds_at_the_start_that_do_not_fit() {
    assert_eq!(at_start((usize::MAX, Some(usize::MAX)), 2), (usize::MAX, None));
    assert_eq!(at_start((3, Some(usize::MAX)), 2), (6, None));
    assert_eq!(at_start((usize::MAX, None), 3), (usize::MAX, None));
}

#[test]
fn adding_to_bounds() {
    assert_eq!(add_scalar((1, Some(2)), 3), (4, Some(5)));
    assert_eq!(add_scalar((0, None), 7), (7, None));
    assert_eq!(add_scalar((usize::MAX, Some(usize::MAX)), 1), (usize::MAX, None));
    assert_eq!(add_scalar((usize::MAX - 1, Some(usize::MAX - 1)), 1), (usize::MAX, Some(usize::MAX)));
    assert_eq!(add_scalar((5, Some(6)), 0), (5, Some(6)));
}

#[test]
fn subtracting_from_bounds() {
    assert_eq!(sub_scalar((4, Some(5)), 3), (1, Some(2)));
    assert_eq!(sub_scalar((2, Some(5)), 3), (0, Some(2)));
    assert_eq!(sub_scalar((2, Some(2)), 3), (0, Some(0)));
    assert_eq!(sub_scalar((9, None), 4), (5, None));
    assert_eq!(sub_scalar((5, Some(6)), 0), (5, Some(6)));
}
