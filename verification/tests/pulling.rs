use collating_iterator::CollatingIterator;
use std::cmp::Ordering;

/// An element that is ordered by its key alone and remembers where it came from.
#[derive(Debug, Clone, Copy)]
struct Tagged {
    key: i32,
    source: usize,
    place: usize,
}

impl PartialEq for Tagged {
    fn eq(&self, other: &Self) -> bool {
        self.key == other.key
    }
}

impl Eq for Tagged {}

impl PartialOrd for Tagged {
    fn partial_cmp(&self, other: &Self) -> Option<Ordering> {
        Some(self.cmp(other))
    }
}

impl Ord for Tagged {
    fn cmp(&self, other: &Self) -> Ordering {
        self.key.cmp(&other.key)
    }
}

fn tagged(sources: &[Vec<i32>]) -> Vec<std::vec::IntoIter<Tagged>> {
    let mut iterators = Vec::new();
    for (source, keys) in sources.iter().enumerate() {
        let mut items = Vec::new();
        for (place, key) in keys.iter().enumerate() {
            items.push(Tagged { key: *key, source, place });
        }
        iterators.push(items.into_iter());
    }
    iterators
}

fn origins(output: &[Tagged]) -> Vec<(i32, usize, usize)> {
    output.iter().map(|t| (t.key, t.source, t.place)).collect()
}

#[test]
fn next_gives_the_least_head_each_time() {
    let iterators = vec![vec![1, 4].into_iter(), vec![2, 3].into_iter()];
    let mut collating = CollatingIterator::new(iterators);
    assert_eq!(collating.next(), Some(1));
    assert_eq!(collating.next(), Some(2));
    assert_eq!(collating.next(), Some(3));
    assert_eq!(collating.next(), Some(4));
    assert_eq!(collating.next(), None);
}

#[test]
fn next_stays_at_the_end_once_it_is_reached() {
    let iterators = vec![vec![7].into_iter()];
    let mut collating = CollatingIterator::new(iterators);
    assert_eq!(collating.next(), Some(7));
    assert_eq!(collating.next(), None);
    assert_eq!(collating.next(), None);
    let rest: Vec<i32> = collating.collect();
    assert!(rest.is_empty());
}

#[test]
fn next_on_no_sources_is_none() {
    let iterators: Vec<std::vec::IntoIter<u8>> = Vec::new();
    let mut collating = CollatingIterator::new(iterators);
    assert_eq!(collating.next(), None);
}

#[test]
fn collect_gives_what_is_left_after_some_pulls() {
    let iterators = vec![vec![1, 3, 5].into_iter(), vec![2, 4, 6].into_iter()];
    let mut collating = CollatingIterator::new(iterators);
    assert_eq!(collating.next(), Some(1));
    assert_eq!(collating.next(), Some(2));
    let rest: Vec<i32> = collating.collect();
    assert_eq!(rest, vec![3, 4, 5, 6]);
}

#[test]
fn output_holds_every_element_of_every_source() {
    let sources = vec![vec![5, 5, 9], vec![], vec![1, 5, 7, 7], vec![0], vec![5]];
    let mut expected: Vec<i32> = sources.iter().flatten().copied().collect();
    expected.sort();
    let total: usize = sources.iter().map(|s| s.len()).sum();

    let iterators: Vec<_> = sources.into_iter().map(|s| s.into_iter()).collect();
    let result: Vec<i32> = CollatingIterator::new(iterators).collect();

    assert_eq!(result.len(), total);
    assert_eq!(result.len(), 9);
    assert_eq!(result, expected);
    assert_eq!(result, vec![0, 1, 5, 5, 5, 5, 7, 7, 9]);
}

#[test]
fn output_of_sorted_sources_is_sorted() {
    let sources = vec![vec![-3, 0, 0, 8], vec![-7, -3, 12], vec![1], vec![0, 2, 4, 6, 8]];
    let iterators: Vec<_> = sources.into_iter().map(|s| s.into_iter()).collect();
    let result: Vec<i32> = CollatingIterator::new(iterators).collect();
    assert!(result.windows(2).all(|w| w[0] <= w[1]));
    assert_eq!(result, vec![-7, -3, -3, 0, 0, 0, 1, 2, 4, 6, 8, 8, 12]);
}

#[test]
fn equal_elements_come_out_in_the_order_of_their_sources() {
    let result: Vec<Tagged> =
        CollatingIterator::new(tagged(&[vec![1, 3, 5, 5], vec![2, 3, 5, 6]])).collect();
    assert_eq!(
        origins(&result),
        vec![
            (1, 0, 0),
            (2, 1, 0),
            (3, 0, 1),
            (3, 1, 1),
            (5, 0, 2),
            (5, 0, 3),
            (5, 1, 2),
            (6, 1, 3),
        ]
    );
}

#[test]
fn a_tie_goes_to_the_earlier_source_whatever_the_order_of_arrival() {
    let result: Vec<Tagged> =
        CollatingIterator::new(tagged(&[vec![4], vec![1, 4], vec![4, 4], vec![0, 4]])).collect();
    assert_eq!(
        origins(&result),
        vec![(0, 3, 0), (1, 1, 0), (4, 0, 0), (4, 1, 1), (4, 2, 0), (4, 2, 1), (4, 3, 1)]
    );
}

#[test]
fn all_equal_heads_are_taken_source_by_source() {
    let result: Vec<Tagged> =
        CollatingIterator::new(tagged(&[vec![2, 2], vec![2], vec![2, 2, 2]])).collect();
    assert_eq!(
        origins(&result),
        vec![(2, 0, 0), (2, 0, 1), (2, 1, 0), (2, 2, 0), (2, 2, 1), (2, 2, 2)]
    );
}

#[test]
fn sources_that_never_end_are_merged_as_far_as_they_are_pulled() {
    let evens = (0u32..).step_by(2);
    let odds = (1u32..).step_by(2);
    let mut collating = CollatingIterator::new(vec![evens, odds]);
    let mut first = Vec::new();
    for _ in 0..7 {
        first.push(collating.next());
    }
    assert_eq!(
        first,
        vec![Some(0), Some(1), Some(2), Some(3), Some(4), Some(5), Some(6)]
    );
}

#[test]
fn an_unsorted_source_still_gives_the_least_head_each_time() {
    let iterators = vec![vec![3, 1].into_iter(), vec![2].into_iter()];
    let result: Vec<i32> = CollatingIterator::new(iterators).collect();
    assert_eq!(result, vec![2, 3, 1]);
}

#[test]
fn many_sources_keep_the_heap_in_order() {
    let mut sources = Vec::new();
    for i in 0..37u64 {
        let mut source = Vec::new();
        let mut value = (i * 7919) % 101;
        for _ in 0..(i % 6) {
            source.push(value);
            value += (i * 31) % 17;
        }
        sources.push(source);
    }
    let mut expected: Vec<u64> = sources.iter().flatten().copied().collect();
    expected.sort();
    let iterators: Vec<_> = sources.into_iter().map(|s| s.into_iter()).collect();
    let result: Vec<u64> = CollatingIterator::new(iterators).collect();
    assert_eq!(result, expected);
}

#[test]
fn sources_in_falling_order_of_their_heads_come_out_rising() {
    let sources: Vec<Vec<i32>> = (0..20).rev().map(|i| vec![i, i + 100]).collect();
    let iterators: Vec<_> = sources.into_iter().map(|s| s.into_iter()).collect();
    let result: Vec<i32> = CollatingIterator::new(iterators).collect();
    let mut expected: Vec<i32> = (0..20).collect();
    expected.extend(100..120);
    assert_eq!(result, expected);
}
