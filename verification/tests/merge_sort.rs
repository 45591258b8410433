use wpinq::merge_sort::{consolidate, merge_by, MergeSorter, VecQueue};

#[test]
fn queue_hands_out_in_order() {
    let mut queue = VecQueue::from(vec![3, 1, 2]);
    assert_eq!(queue.len(), 3);
    assert!(!queue.is_empty());
    assert_eq!(*queue.peek(), 3);
    assert_eq!(queue.pop(), 3);
    assert_eq!(queue.pop(), 1);
    assert_eq!(*queue.peek(), 2);
    assert_eq!(queue.pop(), 2);
    assert!(queue.is_empty());
    assert_eq!(queue.len(), 0);
    assert!(queue.done().is_empty());
    let empty: VecQueue<u8> = VecQueue::new();
    assert!(empty.is_empty());
}

#[test]
fn consolidate_sorts_and_sums() {
    let mut list = vec![(5u64, 1i64), (2, 3), (5, -1), (2, 4), (9, 0), (1, -2)];
    consolidate(&mut list);
    assert_eq!(list, vec![(1, -2), (2, 7)]);
    let mut none: Vec<(u64, i64)> = Vec::new();
    consolidate(&mut none);
    assert!(none.is_empty());
    let mut pairs = vec![((2u64, 1u64), 1i64), ((1, 9), 2), ((2, 0), 3), ((1, 9), -2)];
    consolidate(&mut pairs);
    assert_eq!(pairs, vec![((2, 0), 3), ((2, 1), 1)]);
}

#[test]
fn merge_adds_equal_records() {
    let merged = merge_by(vec![(1u64, 2i64), (3, 1), (5, -4)], vec![(2u64, 7i64), (3, -1), (5, 1), (8, 2)]);
    assert_eq!(merged, vec![(1, 2), (2, 7), (5, -3), (8, 2)]);
    assert_eq!(merge_by(Vec::<(u64, i64)>::new(), vec![(1, 1)]), vec![(1, 1)]);
    assert_eq!(merge_by(vec![(1u64, 1i64)], Vec::new()), vec![(1, 1)]);
}

#[test]
fn sorter_merges_all_runs() {
    let mut sorter = MergeSorter::new();
    let mut batches = vec![
        vec![(4u64, 1i64), (1, 1)],
        vec![(4, 2), (2, 5), (2, -5)],
        vec![],
        vec![(3, 1)],
        vec![(1, -1), (7, 7)],
    ];
    for batch in batches.iter_mut() {
        sorter.push(batch);
        assert!(batch.is_empty());
    }
    let mut target = vec![vec![(100, 100)]];
    sorter.finish_into(&mut target);
    assert_eq!(target, vec![vec![(3, 1), (4, 3), (7, 7)]]);
    let mut again = vec![vec![(100, 100)]];
    sorter.finish_into(&mut again);
    assert_eq!(again, vec![vec![(100, 100)]]);
}

#[test]
fn sorter_hands_out_a_flat_run() {
    let mut sorter = MergeSorter::new();
    sorter.push(&mut vec![(2u64, 1i64), (1, 1)]);
    sorter.push(&mut vec![(2u64, -1i64)]);
    let mut run = vec![(7, 7)];
    sorter.finish_run(&mut run);
    assert_eq!(run, vec![(1, 1)]);
    sorter.finish_run(&mut run);
    assert_eq!(run, vec![(1, 1)]);
}

#[test]
fn sorter_cuts_long_runs_into_chunks() {
    let mut sorter = MergeSorter::new();
    let mut batch: Vec<(u64, i64)> = (0..2500u64).rev().map(|d| (d, 1)).collect();
    sorter.push(&mut batch);
    let mut more: Vec<(u64, i64)> = (0..2500u64).filter(|d| d % 2 == 0).map(|d| (d, -1)).collect();
    sorter.push(&mut more);
    let mut target = Vec::new();
    sorter.finish_into(&mut target);
    assert_eq!(target.len(), 2);
    assert_eq!(target[0].len(), 1024);
    assert_eq!(target[1].len(), 226);
    let flat: Vec<(u64, i64)> = target.into_iter().flatten().collect();
    let expected: Vec<(u64, i64)> = (0..2500u64).filter(|d| d % 2 == 1).map(|d| (d, 1)).collect();
    assert_eq!(flat, expected);
}

#[test]
fn sorter_sorts_a_list_of_batches() {
    let mut sorter = MergeSorter::new();
    let mut list = vec![vec![(3u64, 1i64), (1, 2)], vec![], vec![(2, 5), (3, -1)]];
    sorter._sort(&mut list);
    assert_eq!(list, vec![vec![(1, 2), (2, 5)]]);
    let mut none: Vec<Vec<(u64, i64)>> = vec![vec![], vec![]];
    sorter._sort(&mut none);
    assert!(none.is_empty());
}

#[test]
fn sorter_takes_a_finished_run() {
    let mut sorter = MergeSorter::new();
    sorter.push(&mut vec![(5u64, 1i64)]);
    sorter.push(&mut vec![(6u64, 1i64), (7, 1), (8, 1), (9, 1)]);
    sorter._push_list(vec![vec![(1u64, 1i64), (5, -1)], vec![(6, 2)]]);
    let mut target = Vec::new();
    sorter.finish_into(&mut target);
    assert_eq!(target, vec![vec![(1, 1), (6, 3), (7, 1), (8, 1), (9, 1)]]);
}

#[test]
fn consolidated_form_does_not_depend_on_order() {
    let mut one = vec![(3u64, 1i64), (1, 2), (3, 4), (2, -2), (1, -2)];
    let mut two = vec![(2u64, -2i64), (3, 5), (1, 0)];
    consolidate(&mut one);
    consolidate(&mut two);
    assert_eq!(one, two);
    assert_eq!(one, vec![(2, -2), (3, 5)]);
}
