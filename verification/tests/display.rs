//! The pieces the host reads: names, routes, highlights, counters and
//! the freshly shuffled data.

use visual_sort::base::{Highlight, SortBase};
use visual_sort::bubble::Bubble;
use visual_sort::routes::Routes;
use visual_sort::selection::Selection;
use visual_sort::sort::Sort;

#[test]
fn new_base_holds_a_permutation_of_one_to_n() {
    for n in [1usize, 2, 5, 50, 257] {
        let base = SortBase::new(n);
        assert_eq!(base.len(), n);
        let mut data = base.values().clone();
        data.sort();
        let expected: Vec<usize> = (1..=n).collect();
        assert_eq!(data, expected, "shuffle must keep exactly 1..={n}");
        assert!(!base.is_done());
        assert_eq!(base.accesses(), 0);
        assert_eq!(base.writes(), 0);
        assert_eq!(base.comparisons(), 0);
        assert_eq!(base.current_value(), 0);
    }
}

#[test]
fn from_data_keeps_the_given_order() {
    let base = SortBase::from_data(vec![4, 1, 3]);
    assert_eq!(base.values(), &vec![4, 1, 3]);
    assert!(!base.is_done());
}

#[test]
fn route_strings() {
    assert_eq!(Routes::Bubble.as_str(), "/bubblesort");
    assert_eq!(Routes::Quick.as_str(), "/quicksort");
}

#[test]
fn sort_names_and_routes() {
    assert_eq!(Sort::Bubble.name_as_str(), "Bubble Sort");
    assert_eq!(Sort::Counting.name_as_str(), "Counting Sort");
    assert_eq!(Sort::Heap.name_as_str(), "Heapsort");
    assert_eq!(Sort::Insertion.name_as_str(), "Insertion Sort");
    assert_eq!(Sort::Merge.name_as_str(), "Merge Sort");
    assert_eq!(Sort::Radix.name_as_str(), "Radix Sort");
    assert_eq!(Sort::Quick.name_as_str(), "Quicksort");
    assert_eq!(Sort::Selection.name_as_str(), "Selection Sort");
    assert_eq!(Sort::Bubble.route_as_str(), "/bubble");
    assert_eq!(Sort::Counting.route_as_str(), "/counting");
    assert_eq!(Sort::Heap.route_as_str(), "/heap");
    assert_eq!(Sort::Insertion.route_as_str(), "/insertion");
    assert_eq!(Sort::Merge.route_as_str(), "/merge");
    assert_eq!(Sort::Radix.route_as_str(), "/radix");
    assert_eq!(Sort::Quick.route_as_str(), "/quick");
    assert_eq!(Sort::Selection.route_as_str(), "/selection");
}

#[test]
fn bubble_highlights_the_compared_bar() {
    let base = SortBase::from_data(vec![2, 1, 3]);
    let e = Bubble::new(base);
    assert_eq!(e.highlight(0), Highlight::Normal);
    assert_eq!(e.highlight(1), Highlight::Active);
    assert_eq!(e.highlight(2), Highlight::Normal);
}

#[test]
fn selection_highlights_scan_and_bounds() {
    let base = SortBase::from_data(vec![3, 1, 2]);
    let mut e = Selection::new(base);
    // x == s == y == 0: the scan cursor wins the first bar
    assert_eq!(e.highlight(0), Highlight::Active);
    assert_eq!(e.highlight(1), Highlight::Normal);
    e.update();
    // y advanced to 1; x == s == 0 stay marked as bounds
    assert_eq!(e.highlight(0), Highlight::Boundary);
    assert_eq!(e.highlight(1), Highlight::Active);
}

#[test]
fn highlights_go_normal_once_done() {
    let base = SortBase::from_data(vec![2, 1]);
    let mut e = Bubble::new(base);
    for _ in 0..10 {
        e.update();
    }
    assert!(e.done());
    for i in 0..2 {
        assert_eq!(e.highlight(i), Highlight::Normal);
    }
}

#[test]
fn dispatcher_runs_every_algorithm_to_done() {
    for sort in [
        Sort::Bubble,
        Sort::Counting,
        Sort::Heap,
        Sort::Insertion,
        Sort::Merge,
        Sort::Radix,
        Sort::Quick,
        Sort::Selection,
    ] {
        let mut e = sort.init(SortBase::new(40));
        let mut guard = 0;
        while !e.done() && guard < 100_000 {
            e.run(7);
            guard += 1;
        }
        assert!(e.done(), "{} did not finish", sort.name_as_str());
        let data = e.base().values();
        let expected: Vec<usize> = (1..=40).collect();
        assert_eq!(data, &expected);
        let _ = e.highlight(0);
    }
}

#[test]
fn merge_highlight_follows_the_top_frame_only() {
    // the boundary bars always come from the top frame's range, even when
    // a parent is mid-merge deeper in the stack — the simple policy the
    // renderer expects
    let base = SortBase::from_data(vec![4, 2, 1, 3]);
    let mut e = visual_sort::merge::Merge::new(base);
    e.update();
    // after the split the top frame is the left half [0, 2)
    assert_eq!(e.stack.len(), 3);
    assert_eq!(e.highlight(0), Highlight::Active);
    assert_eq!(e.highlight(1), Highlight::Boundary);
    assert_eq!(e.highlight(2), Highlight::Normal);
    assert_eq!(e.highlight(3), Highlight::Normal);
    // once only the root frame is left, its whole range is bounded and
    // the bar just written is active
    while e.stack.len() > 1 {
        e.update();
    }
    e.update();
    e.update();
    assert_eq!(e.highlight(1), Highlight::Active);
    assert_eq!(e.highlight(0), Highlight::Boundary);
    assert_eq!(e.highlight(3), Highlight::Boundary);
}

#[test]
fn selection_counts_each_comparison_and_swap() {
    let base = SortBase::from_data(vec![2, 1]);
    let mut e = Selection::new(base);
    e.update();
    assert_eq!(e.base().accesses(), 1);
    e.update();
    assert_eq!(e.base().accesses(), 2);
    assert_eq!(e.base().writes(), 0);
    e.update();
    assert_eq!(e.base().writes(), 1);
    assert_eq!(e.base().values(), &vec![1, 2]);
    assert!(!e.done());
    e.update();
    assert!(e.done());
}

#[test]
fn bubble_worst_case_comparison_count() {
    // on a reversed run of n bars: n (n - 1) / 2 comparisons plus one
    // re-check per swap, and n (n - 1) / 2 swaps
    let base = SortBase::from_data(vec![3, 2, 1]);
    let mut e = visual_sort::bubble::Bubble::new(base);
    let mut guard = 0;
    while !e.done() && guard < 100 {
        e.update();
        guard += 1;
    }
    assert!(e.done());
    assert_eq!(e.base().writes(), 3);
    assert_eq!(e.base().accesses(), 6);
}
