use lazy_permutations::permutations;

fn collect_all<I: Iterator>(source: I, k: usize) -> Vec<Vec<I::Item>>
where
    I::Item: Clone,
{
    let mut perms = permutations(source, k);
    let mut out = Vec::new();
    while let Some(p) = perms.next() {
        out.push(p);
    }
    out
}

fn factorial_ratio(n: usize, k: usize) -> usize {
    if k > n {
        return 0;
    }
    let mut total = 1;
    for i in (n - k + 1)..=n {
        total *= i;
    }
    total
}

#[test]
fn four_items_taken_two_at_a_time() {
    let got = collect_all(vec!['A', 'B', 'C', 'D'].into_iter(), 2);
    let expected = vec![
        vec!['A', 'B'],
        vec!['A', 'C'],
        vec!['A', 'D'],
        vec!['B', 'A'],
        vec!['B', 'C'],
        vec!['B', 'D'],
        vec!['C', 'A'],
        vec!['C', 'B'],
        vec!['C', 'D'],
        vec!['D', 'A'],
        vec!['D', 'B'],
        vec!['D', 'C'],
    ];
    assert_eq!(got, expected);
}

#[test]
fn exhaustion_comes_exactly_after_the_twelfth_call() {
    let mut perms = permutations(vec!['A', 'B', 'C', 'D'].into_iter(), 2);
    for call in 0..12 {
        assert!(perms.next().is_some(), "call {} gave nothing", call);
    }
    assert_eq!(perms.next(), None);
}

#[test]
fn exhaustion_is_final() {
    let mut perms = permutations(vec![1, 2, 3].into_iter(), 2);
    while perms.next().is_some() {}
    for _ in 0..10 {
        assert_eq!(perms.next(), None);
        assert_eq!(perms.size_hint(), (0, Some(0)));
    }
    assert_eq!(perms.count(), Some(0));
}

#[test]
fn length_zero_gives_one_empty_permutation() {
    let mut perms = permutations(vec![7, 8, 9].into_iter(), 0);
    assert_eq!(perms.next(), Some(vec![]));
    assert_eq!(perms.next(), None);
    assert_eq!(perms.next(), None);
}

#[test]
fn length_zero_of_an_empty_source() {
    let got = collect_all(Vec::<u8>::new().into_iter(), 0);
    assert_eq!(got, vec![Vec::<u8>::new()]);
}

#[test]
fn length_zero_never_asks_an_endless_source() {
    let mut perms = permutations(std::iter::repeat(1u32), 0);
    assert_eq!(perms.size_hint(), (1, Some(1)));
    assert_eq!(perms.next(), Some(vec![]));
    assert_eq!(perms.size_hint(), (0, Some(0)));
    assert_eq!(perms.next(), None);
}

#[test]
fn five_items_taken_all_at_once() {
    let got = collect_all(0..5u32, 5);
    assert_eq!(got.len(), 120);
    assert_eq!(got[0], vec![0, 1, 2, 3, 4]);
    assert_eq!(got[1], vec![0, 1, 2, 4, 3]);
    assert_eq!(got[119], vec![4, 3, 2, 1, 0]);
    for a in 0..got.len() {
        for b in (a + 1)..got.len() {
            assert_ne!(got[a], got[b]);
        }
    }
}

#[test]
fn more_positions_than_items_gives_nothing() {
    for n in 0..5usize {
        for k in (n + 1)..(n + 4) {
            let mut perms = permutations(0..n, k);
            assert_eq!(perms.size_hint(), (0, Some(0)));
            assert_eq!(perms.next(), None);
            assert_eq!(perms.next(), None);
            assert_eq!(perms.count(), Some(0));
        }
    }
}

#[test]
fn single_positions_come_in_source_order() {
    let got = collect_all(vec!["x", "y", "z"].into_iter(), 1);
    assert_eq!(got, vec![vec!["x"], vec!["y"], vec!["z"]]);
}

#[test]
fn three_items_taken_all_at_once() {
    let got = collect_all(vec![10, 20, 30].into_iter(), 3);
    assert_eq!(
        got,
        vec![
            vec![10, 20, 30],
            vec![10, 30, 20],
            vec![20, 10, 30],
            vec![20, 30, 10],
            vec![30, 10, 20],
            vec![30, 20, 10],
        ]
    );
}

#[test]
fn equal_items_are_told_apart_by_position() {
    let got = collect_all(vec![1, 1].into_iter(), 2);
    assert_eq!(got, vec![vec![1, 1], vec![1, 1]]);
}

#[test]
fn every_permutation_is_a_distinct_selection() {
    for n in 0..7usize {
        for k in 0..=n {
            let got = collect_all(0..n, k);
            assert_eq!(got.len(), factorial_ratio(n, k), "n = {}, k = {}", n, k);
            for p in &got {
                assert_eq!(p.len(), k);
                for a in 0..k {
                    assert!(p[a] < n);
                    for b in (a + 1)..k {
                        assert_ne!(p[a], p[b]);
                    }
                }
            }
            for a in 0..got.len() {
                for b in (a + 1)..got.len() {
                    assert_ne!(got[a], got[b]);
                }
            }
        }
    }
}

#[test]
fn permutations_come_in_lexicographic_order_of_positions() {
    for n in 0..7usize {
        for k in 0..=n {
            let got = collect_all(0..n, k);
            for pair in got.windows(2) {
                assert!(pair[0] < pair[1], "{:?} before {:?}", pair[0], pair[1]);
            }
        }
    }
}

#[test]
fn count_is_what_is_still_to_come() {
    for n in 0..6usize {
        for k in 0..(n + 2) {
            let total = factorial_ratio(n, k);
            let mut perms = permutations(0..n, k);
            let mut produced = 0;
            loop {
                assert_eq!(perms.clone().count(), Some(total - produced));
                let mut rest = perms.clone();
                let mut to_come = 0;
                while rest.next().is_some() {
                    to_come += 1;
                }
                assert_eq!(to_come, total - produced);
                if perms.next().is_none() {
                    break;
                }
                produced += 1;
            }
            assert_eq!(produced, total);
            assert_eq!(perms.count(), Some(0));
        }
    }
}

#[test]
fn size_hint_is_exact_for_a_source_that_knows_its_length() {
    for n in 0..6usize {
        for k in 0..(n + 2) {
            let total = factorial_ratio(n, k);
            let mut perms = permutations(0..n, k);
            let mut produced = 0;
            loop {
                assert_eq!(perms.size_hint(), (total - produced, Some(total - produced)));
                if perms.next().is_none() {
                    break;
                }
                produced += 1;
            }
        }
    }
}

#[test]
fn size_hint_follows_what_the_source_reports() {
    // A filter reports no lower bound of its own.
    let mut perms = permutations((0..4).filter(|_| true), 2);
    // Two items are held; the source reports between 0 and 2 more.
    assert_eq!(perms.size_hint(), (2, Some(12)));
    assert_eq!(perms.next(), Some(vec![0, 1]));
    assert_eq!(perms.size_hint(), (1, Some(11)));
    assert_eq!(perms.next(), Some(vec![0, 2]));
    // Three items are held; the source reports between 0 and 1 more.
    assert_eq!(perms.size_hint(), (4, Some(10)));
    assert_eq!(perms.next(), Some(vec![0, 3]));
    assert_eq!(perms.size_hint(), (9, Some(9)));
    // The next call finds the end of the source.
    assert_eq!(perms.next(), Some(vec![1, 0]));
    assert_eq!(perms.size_hint(), (8, Some(8)));
}

#[test]
fn size_hint_of_a_source_without_upper_bound() {
    let mut perms = permutations((0u64..).filter(|x| *x < 3), 2);
    assert_eq!(perms.size_hint(), (2, None));
    assert_eq!(perms.next(), Some(vec![0, 1]));
    assert_eq!(perms.size_hint(), (1, None));
}

#[test]
fn count_during_discovery_pulls_the_rest() {
    let mut perms = permutations(vec![1, 2, 3, 4, 5].into_iter(), 3);
    assert_eq!(perms.clone().count(), Some(60));
    assert_eq!(perms.next(), Some(vec![1, 2, 3]));
    assert_eq!(perms.clone().count(), Some(59));
    assert_eq!(perms.next(), Some(vec![1, 2, 4]));
    assert_eq!(perms.count(), Some(58));
}

#[test]
fn count_that_does_not_fit_is_reported_as_such() {
    // 25!/(25 - 25)! is more than 2^64.
    let mut perms = permutations(0..25u8, 25);
    assert_eq!(perms.clone().count(), None);
    assert_eq!(perms.size_hint(), (usize::MAX, None));
    let first: Vec<u8> = (0..25).collect();
    assert_eq!(perms.next(), Some(first));
    assert_eq!(perms.clone().count(), None);
    // The saturated lower bound less the one permutation handed out.
    assert_eq!(perms.size_hint(), (usize::MAX - 1, None));
    // The source is found to be at its end; the length is known from here on.
    let mut second: Vec<u8> = (0..25).collect();
    second.swap(23, 24);
    assert_eq!(perms.next(), Some(second));
    assert_eq!(perms.size_hint(), (usize::MAX, None));
    assert_eq!(perms.count(), None);
}

#[test]
fn a_clone_goes_on_from_the_same_place() {
    let mut perms = permutations(vec!['a', 'b', 'c'].into_iter(), 2);
    assert_eq!(perms.next(), Some(vec!['a', 'b']));
    let mut copy = perms.clone();
    let mut rest_of_original = Vec::new();
    while let Some(p) = perms.next() {
        rest_of_original.push(p);
    }
    let mut rest_of_copy = Vec::new();
    while let Some(p) = copy.next() {
        rest_of_copy.push(p);
    }
    assert_eq!(rest_of_original.len(), 5);
    assert_eq!(rest_of_original, rest_of_copy);
}

#[test]
fn items_are_pulled_only_as_they_are_needed() {
    let pulled = std::cell::Cell::new(0usize);
    let source = (0..10).map(|x| {
        pulled.set(pulled.get() + 1);
        x
    });
    let mut perms = permutations(source, 3);
    assert_eq!(pulled.get(), 3);
    assert_eq!(perms.next(), Some(vec![0, 1, 2]));
    assert_eq!(pulled.get(), 3);
    assert_eq!(perms.next(), Some(vec![0, 1, 3]));
    assert_eq!(pulled.get(), 4);
    assert_eq!(perms.next(), Some(vec![0, 1, 4]));
    assert_eq!(pulled.get(), 5);
}
