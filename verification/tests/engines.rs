//! Every engine, run to completion: the result is sorted and a
//! permutation of the input, the counters never decrease, and ticking
//! past done changes nothing.

use visual_sort::base::SortBase;
use visual_sort::sort::{Sort, Sorter};

fn sorted_copy(v: &[usize]) -> Vec<usize> {
    let mut c = v.to_vec();
    c.sort();
    c
}

fn run_to_done(e: &mut Sorter, cap: usize) -> usize {
    let mut ticks = 0;
    while !e.done() && ticks < cap {
        let before = (
            e.base().accesses(),
            e.base().writes(),
            e.base().comparisons(),
        );
        e.update();
        ticks += 1;
        let after = (
            e.base().accesses(),
            e.base().writes(),
            e.base().comparisons(),
        );
        assert!(after.0 >= before.0, "access counter decreased");
        assert!(after.1 >= before.1, "write counter decreased");
        assert!(after.2 >= before.2, "comparison counter decreased");
    }
    assert!(e.done(), "engine did not finish within {cap} ticks");
    ticks
}

fn check_algorithm(sort: Sort, input: &[usize]) {
    let base = SortBase::from_data(input.to_vec());
    let mut e = sort.init(base);
    run_to_done(&mut e, 1_000_000);
    let expected = sorted_copy(input);
    assert_eq!(e.base().values(), &expected, "end state must be sorted");

    // ticking after done is a no-op on data and counters
    let data = e.base().values().clone();
    let counters = (
        e.base().accesses(),
        e.base().writes(),
        e.base().comparisons(),
    );
    for _ in 0..10 {
        e.update();
    }
    assert_eq!(e.base().values(), &data);
    assert_eq!(
        (
            e.base().accesses(),
            e.base().writes(),
            e.base().comparisons(),
        ),
        counters
    );
}

const ALGORITHMS: [Sort; 8] = [
    Sort::Bubble,
    Sort::Counting,
    Sort::Heap,
    Sort::Insertion,
    Sort::Merge,
    Sort::Radix,
    Sort::Quick,
    Sort::Selection,
];

#[test]
fn all_algorithms_sort_a_permutation() {
    let input = [7, 3, 1, 6, 4, 8, 2, 5];
    for sort in ALGORITHMS {
        check_algorithm(sort, &input);
    }
}

#[test]
fn all_algorithms_sort_duplicates() {
    let input = [5, 2, 9, 1, 5, 6, 3, 5, 2];
    for sort in ALGORITHMS {
        check_algorithm(sort, &input);
    }
}

#[test]
fn all_algorithms_sort_reversed() {
    let input = [9, 8, 7, 6, 5, 4, 3, 2, 1];
    for sort in ALGORITHMS {
        check_algorithm(sort, &input);
    }
}

#[test]
fn all_algorithms_sort_already_sorted() {
    let input = [1, 2, 3, 4, 5];
    for sort in ALGORITHMS {
        check_algorithm(sort, &input);
    }
}

#[test]
fn all_algorithms_handle_one_bar() {
    let input = [1];
    for sort in ALGORITHMS {
        check_algorithm(sort, &input);
    }
}

#[test]
fn all_algorithms_handle_two_bars() {
    let input = [2, 1];
    for sort in ALGORITHMS {
        check_algorithm(sort, &input);
    }
}

#[test]
fn bubble_counts_one_access_per_comparison_tick() {
    let base = SortBase::from_data(vec![2, 1, 3]);
    let mut e = visual_sort::bubble::Bubble::new(base);
    e.update();
    // first tick: one comparison of (2, 1), which swaps
    assert_eq!(e.base().accesses(), 1);
    assert_eq!(e.base().writes(), 1);
    assert_eq!(e.base().values(), &vec![1, 2, 3]);
    // the swap retunes the tone to the value now at the right slot
    assert_eq!(e.base().current_value(), 2);
}
