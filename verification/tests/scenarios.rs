//! Concrete runs of single algorithms, checked step by step.

use visual_sort::base::SortBase;
use visual_sort::counting::Counting;
use visual_sort::heap::Heap;
use visual_sort::merge::Merge;
use visual_sort::quick::Quick;
use visual_sort::radix::Radix;
use visual_sort::selection::Selection;

#[test]
fn quicksort_three_one_two() {
    let base = SortBase::from_data(vec![3, 1, 2]);
    let mut e = Quick::new(base);
    // the pivot of the opening frame is the last value, 2
    assert_eq!(e.base().values()[2], 2);
    let mut ticks = 0;
    while !e.done() && ticks < 1000 {
        e.update();
        ticks += 1;
    }
    assert!(e.done());
    assert_eq!(e.base().values(), &vec![1, 2, 3]);
}

#[test]
fn heapsort_build_tops_out_at_eight() {
    let base = SortBase::from_data(vec![5, 3, 8, 1]);
    let mut e = Heap::new(base);
    // run the build phase: every element pushed and no walk pending
    let mut ticks = 0;
    while (e.x < 4 || e.heapifying_up) && ticks < 1000 {
        e.update();
        ticks += 1;
    }
    assert_eq!(e.base().values()[0], 8, "heap root after the build");
    while !e.done() && ticks < 1000 {
        e.update();
        ticks += 1;
    }
    assert!(e.done());
    assert_eq!(e.base().values(), &vec![1, 3, 5, 8]);
}

#[test]
fn merge_sort_four_two_one_three() {
    let base = SortBase::from_data(vec![4, 2, 1, 3]);
    let mut e = Merge::new(base);
    // the first tick only splits: the data is untouched
    e.update();
    assert_eq!(e.base().values(), &vec![4, 2, 1, 3]);
    assert_eq!(e.stack.len(), 3);
    assert_eq!((e.stack[1].start, e.stack[1].len), (2, 2));
    assert_eq!((e.stack[2].start, e.stack[2].len), (0, 2));
    // the left half is split and its two leaves discarded, then merged
    // in two ticks
    for _ in 0..3 {
        e.update();
    }
    assert_eq!(e.base().values(), &vec![4, 2, 1, 3]);
    e.update();
    e.update();
    assert_eq!(e.base().values(), &vec![2, 4, 1, 3]);
    let mut ticks = 0;
    while !e.done() && ticks < 1000 {
        e.update();
        ticks += 1;
    }
    assert!(e.done());
    assert_eq!(e.base().values(), &vec![1, 2, 3, 4]);
}

#[test]
fn radix_sort_scatters_by_units_digit_first() {
    let input = vec![170, 45, 75, 90, 802, 24, 2, 66];
    let base = SortBase::from_data(input);
    let mut e = Radix::new(base);
    // run the first digit pass to its end
    let mut ticks = 0;
    while e.radix == 0 && !e.done() && ticks < 1000 {
        e.update();
        ticks += 1;
    }
    assert_eq!(e.radix, 1);
    // each bucket was filled from the back, so within one units digit
    // the earlier element lands further right
    assert_eq!(e.base().values(), &vec![170, 90, 802, 2, 24, 45, 75, 66]);
    while !e.done() && ticks < 10000 {
        e.update();
        ticks += 1;
    }
    assert!(e.done());
    assert_eq!(e.base().values(), &vec![2, 24, 45, 66, 75, 90, 170, 802]);
}

#[test]
fn radix_sort_stops_after_the_highest_digit() {
    let base = SortBase::from_data(vec![802, 2]);
    let mut e = Radix::new(base);
    let mut ticks = 0;
    while !e.done() && ticks < 1000 {
        e.update();
        ticks += 1;
    }
    // passes for units, tens and hundreds; no fourth digit in 802
    assert_eq!(e.radix, 2);
    assert_eq!(e.base().values(), &vec![2, 802]);
}

#[test]
fn selection_sort_single_bar_is_done_at_once() {
    let base = SortBase::from_data(vec![1]);
    let e = Selection::new(base);
    assert!(e.done(), "a one-bar run needs zero ticks");
    assert_eq!(e.base().accesses(), 0);
    assert_eq!(e.base().writes(), 0);
    assert_eq!(e.base().comparisons(), 0);
}

#[test]
fn counting_sort_rebuilds_from_the_buckets() {
    let base = SortBase::from_data(vec![4, 1, 3, 1]);
    let mut e = Counting::new(base);
    let mut ticks = 0;
    while !e.done() && ticks < 1000 {
        e.update();
        ticks += 1;
    }
    assert!(e.done());
    assert_eq!(e.base().values(), &vec![1, 1, 3, 4]);
    // buckets are sized by the maximum value
    assert_eq!(e.count.len(), 5);
    assert_eq!(e.max, 4);
}
