use price_batch::batch::{batch_range, count_batches, split_batches, DEFAULT_BATCH_SIZE};
use price_batch::price::Price;
use price_batch::record::PriceRecord;

fn records(n: usize) -> Vec<PriceRecord> {
    (0..n)
        .map(|i| PriceRecord::new(format!("K{}", i + 1), Price::zero(), "a".to_string()))
        .collect()
}

#[test]
fn default_batch_size() {
    assert_eq!(DEFAULT_BATCH_SIZE, 500);
}

#[test]
fn batch_count_is_the_quotient_rounded_up() {
    assert_eq!(count_batches(0, 500), 0);
    assert_eq!(count_batches(1, 500), 1);
    assert_eq!(count_batches(499, 500), 1);
    assert_eq!(count_batches(500, 500), 1);
    assert_eq!(count_batches(501, 500), 2);
    assert_eq!(count_batches(1000, 500), 2);
    assert_eq!(count_batches(5, 2), 3);
    assert_eq!(count_batches(5, 1), 5);
    assert_eq!(count_batches(5, 7), 1);
    assert_eq!(count_batches(usize::MAX, 1), usize::MAX);
    assert_eq!(count_batches(usize::MAX, usize::MAX), 1);
    assert_eq!(count_batches(usize::MAX, 2), usize::MAX / 2 + 1);
}

#[test]
fn batch_ranges_follow_each_other() {
    assert_eq!(batch_range(5, 2, 0), (0, 2));
    assert_eq!(batch_range(5, 2, 1), (2, 4));
    assert_eq!(batch_range(5, 2, 2), (4, 5));
    assert_eq!(batch_range(4, 2, 1), (2, 4));
    assert_eq!(batch_range(3, 10, 0), (0, 3));
    assert_eq!(batch_range(usize::MAX, usize::MAX - 1, 1), (usize::MAX - 1, usize::MAX));
}

#[test]
fn five_records_in_batches_of_two() {
    let all = records(5);
    let split = split_batches(&all, 2);
    let sizes: Vec<usize> = split.iter().map(|b| b.len()).collect();
    assert_eq!(sizes, vec![2, 2, 1]);
    let joined: Vec<PriceRecord> = split.into_iter().flatten().collect();
    assert_eq!(joined, all);
}

#[test]
fn batches_partition_the_list() {
    for n in 0..20usize {
        for size in 1..8usize {
            let all = records(n);
            let split = split_batches(&all, size);
            assert_eq!(split.len(), (n + size - 1) / size);
            assert_eq!(split.len(), count_batches(n, size));
            assert!(split.iter().all(|b| !b.is_empty() && b.len() <= size));
            for (index, batch) in split.iter().enumerate() {
                let (start, end) = batch_range(n, size, index);
                assert_eq!(batch.as_slice(), &all[start..end]);
            }
            let joined: Vec<PriceRecord> = split.into_iter().flatten().collect();
            assert_eq!(joined, all);
        }
    }
}

#[test]
fn batches_are_the_chunks_of_the_list() {
    let all = records(11);
    for size in [1usize, 3, 4, 11, 12, 500] {
        let split = split_batches(&all, size);
        let chunks: Vec<Vec<PriceRecord>> = all.chunks(size).map(|c| c.to_vec()).collect();
        assert_eq!(split, chunks);
    }
}
