//! Batch-size independence: running ticks in any split of batches lands
//! in exactly the same state as one big batch, for every algorithm.

use visual_sort::base::SortBase;
use visual_sort::sort::{Sort, Sorter};

const ALGORITHMS: [Sort; 8] = [
    Sort::Bubble,
    Sort::Counting,
    Sort::Heap,
    Sort::Insertion,
    Sort::Merge,
    Sort::Radix,
    Sort::Quick,
    Sort::Selection,
];

fn snapshot(e: &Sorter) -> (Vec<usize>, bool, u64, u64, u64, usize) {
    (
        e.base().values().clone(),
        e.base().is_done(),
        e.base().accesses(),
        e.base().writes(),
        e.base().comparisons(),
        e.base().current_value(),
    )
}

#[test]
fn split_batches_match_one_batch() {
    let input = vec![6, 1, 8, 3, 7, 2, 5, 4];
    for sort in ALGORITHMS {
        for split in [0usize, 1, 2, 5, 11, 29] {
            let mut one = sort.init(SortBase::from_data(input.clone()));
            let mut two = sort.init(SortBase::from_data(input.clone()));
            one.run(40);
            two.run(split);
            two.run(40 - split);
            assert_eq!(
                snapshot(&one),
                snapshot(&two),
                "split {split} diverged from one batch"
            );
        }
    }
}

#[test]
fn single_ticks_match_one_batch() {
    let input = vec![3, 1, 4, 1, 5, 9, 2, 6];
    for sort in ALGORITHMS {
        let mut one = sort.init(SortBase::from_data(input.clone()));
        let mut many = sort.init(SortBase::from_data(input.clone()));
        one.run(25);
        for _ in 0..25 {
            many.update();
        }
        assert_eq!(snapshot(&one), snapshot(&many));
    }
}

#[test]
fn running_past_done_matches_running_to_done() {
    let input = vec![2, 3, 1];
    for sort in ALGORITHMS {
        let mut exact = sort.init(SortBase::from_data(input.clone()));
        let mut over = sort.init(SortBase::from_data(input.clone()));
        exact.run(5000);
        over.run(5000);
        over.run(137);
        assert!(exact.done());
        assert_eq!(snapshot(&exact), snapshot(&over));
    }
}
