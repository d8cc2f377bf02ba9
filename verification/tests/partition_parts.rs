use digit_pairings::partition_parts::PartitionsParts;

fn collect(mut iter: PartitionsParts) -> Vec<Vec<u8>> {
    let mut all = Vec::new();
    while let Some(parts) = iter.next() {
        all.push(parts);
    }
    all
}


#[test]
fn test_partitions_1_part() {
    let iter_0 = PartitionsParts::new(1, 0);
    assert!(collect(iter_0).is_empty());
    let iter_1 = PartitionsParts::new(1, 1);
    assert_eq!(collect(iter_1), [[1u8]]);
    let iter_2 = PartitionsParts::new(1, 2);
    assert_eq!(collect(iter_2), [[2u8]]);
    let iter_9 = PartitionsParts::new(1, 9);
    assert_eq!(collect(iter_9), [[9u8]]);
    let iter_10 = PartitionsParts::new(1, 10);
    assert!(collect(iter_10).is_empty());
}

#[test]
fn test_partitions_2_parts() {
    let iter_0 = PartitionsParts::new(2, 0);
    assert!(collect(iter_0).is_empty());
    let iter_1 = PartitionsParts::new(2, 1);
    assert!(collect(iter_1).is_empty());
    let iter_2 = PartitionsParts::new(2, 2);
    assert_eq!(collect(iter_2), [[1, 1]]);
    let iter_3 = PartitionsParts::new(2, 3);
    assert_eq!(collect(iter_3), [[1, 2]]);
    let iter_4 = PartitionsParts::new(2, 4);
    assert_eq!(collect(iter_4), [[1, 3], [2, 2]]);
    let iter_5 = PartitionsParts::new(2, 5);
    assert_eq!(collect(iter_5), [[1, 4], [2, 3]]);
    let iter_9 = PartitionsParts::new(2, 9);
    assert_eq!(
        collect(iter_9),
        [[1, 8], [2, 7], [3, 6], [4, 5]]
    );
    let iter_10 = PartitionsParts::new(2, 10);
    assert_eq!(
        collect(iter_10),
        [[1, 9], [2, 8], [3, 7], [4, 6], [5, 5]]
    );
    let iter_11 = PartitionsParts::new(2, 11);
    assert_eq!(
        collect(iter_11),
        [[2, 9], [3, 8], [4, 7], [5, 6]]
    );
    let iter_16 = PartitionsParts::new(2, 16);
    assert_eq!(collect(iter_16), [[7, 9], [8, 8]]);
    let iter_17 = PartitionsParts::new(2, 17);
    assert_eq!(collect(iter_17), [[8, 9]]);
    let iter_18 = PartitionsParts::new(2, 18);
    assert_eq!(collect(iter_18), [[9, 9]]);
    let iter_19 = PartitionsParts::new(2, 19);
    assert!(collect(iter_19).is_empty());
}

#[test]
fn test_partitions_3_parts() {
    let iter_0 = PartitionsParts::new(3, 0);
    assert!(collect(iter_0).is_empty());
    let iter_1 = PartitionsParts::new(3, 1);
    assert!(collect(iter_1).is_empty());
    let iter_2 = PartitionsParts::new(3, 2);
    assert!(collect(iter_2).is_empty());
    let iter_3 = PartitionsParts::new(3, 3);
    assert_eq!(collect(iter_3), [[1, 1, 1]]);
    let iter_5 = PartitionsParts::new(3, 5);
    assert_eq!(collect(iter_5), [[1, 1, 3], [1, 2, 2]]);
    let iter_7 = PartitionsParts::new(3, 7);
    assert_eq!(
        collect(iter_7),
        [[1, 1, 5], [1, 2, 4], [1, 3, 3], [2, 2, 3]]
    );
    let iter_25 = PartitionsParts::new(3, 25);
    assert_eq!(collect(iter_25), [[7, 9, 9], [8, 8, 9]]);
    let iter_26 = PartitionsParts::new(3, 26);
    assert_eq!(collect(iter_26), [[8, 9, 9]]);
    let iter_27 = PartitionsParts::new(3, 27);
    assert_eq!(collect(iter_27), [[9, 9, 9]]);
    let iter_28 = PartitionsParts::new(3, 28);
    assert!(collect(iter_28).is_empty());
}

#[test]
fn test_partitions_4_parts() {
    for n in 0..4 {
        let iter = PartitionsParts::new(4, n);
        assert!(collect(iter).is_empty());
    }
    let iter_4 = PartitionsParts::new(4, 4);
    assert_eq!(collect(iter_4), [[1, 1, 1, 1]]);
    let iter_8 = PartitionsParts::new(4, 8);
    assert_eq!(
        collect(iter_8),
        [
            [1, 1, 1, 5],
            [1, 1, 2, 4],
            [1, 1, 3, 3],
            [1, 2, 2, 3],
            [2, 2, 2, 2]
        ]
    );
    let iter_10 = PartitionsParts::new(4, 10);
    assert_eq!(
        collect(iter_10),
        [
            [1, 1, 1, 7],
            [1, 1, 2, 6],
            [1, 1, 3, 5],
            [1, 1, 4, 4],
            [1, 2, 2, 5],
            [1, 2, 3, 4],
            [1, 3, 3, 3],
            [2, 2, 2, 4],
            [2, 2, 3, 3],
        ]
    );
    let iter_12 = PartitionsParts::new(4, 12);
    assert_eq!(
        collect(iter_12),
        [
            [1, 1, 1, 9],
            [1, 1, 2, 8],
            [1, 1, 3, 7],
            [1, 1, 4, 6],
            [1, 1, 5, 5],
            [1, 2, 2, 7],
            [1, 2, 3, 6],
            [1, 2, 4, 5],
            [1, 3, 3, 5],
            [1, 3, 4, 4],
            [2, 2, 2, 6],
            [2, 2, 3, 5],
            [2, 2, 4, 4],
            [2, 3, 3, 4],
            [3, 3, 3, 3]
        ]
    );
    let iter_16 = PartitionsParts::new(4, 16);
    assert_eq!(
        collect(iter_16),
        [
            [1, 1, 5, 9],
            [1, 1, 6, 8],
            [1, 1, 7, 7],
            [1, 2, 4, 9],
            [1, 2, 5, 8],
            [1, 2, 6, 7],
            [1, 3, 3, 9],
            [1, 3, 4, 8],
            [1, 3, 5, 7],
            [1, 3, 6, 6],
            [1, 4, 4, 7],
            [1, 4, 5, 6],
            [1, 5, 5, 5],
            [2, 2, 3, 9],
            [2, 2, 4, 8],
            [2, 2, 5, 7],
            [2, 2, 6, 6],
            [2, 3, 3, 8],
            [2, 3, 4, 7],
            [2, 3, 5, 6],
            [2, 4, 4, 6],
            [2, 4, 5, 5],
            [3, 3, 3, 7],
            [3, 3, 4, 6],
            [3, 3, 5, 5],
            [3, 4, 4, 5],
            [4, 4, 4, 4]
        ]
    );
    let iter_20 = PartitionsParts::new(4, 20);
    assert_eq!(
        collect(iter_20),
        [
            [1, 1, 9, 9],
            [1, 2, 8, 9],
            [1, 3, 7, 9],
            [1, 3, 8, 8],
            [1, 4, 6, 9],
            [1, 4, 7, 8],
            [1, 5, 5, 9],
            [1, 5, 6, 8],
            [1, 5, 7, 7],
            [1, 6, 6, 7],
            [2, 2, 7, 9],
            [2, 2, 8, 8],
            [2, 3, 6, 9],
            [2, 3, 7, 8],
            [2, 4, 5, 9],
            [2, 4, 6, 8],
            [2, 4, 7, 7],
            [2, 5, 5, 8],
            [2, 5, 6, 7],
            [2, 6, 6, 6],
            [3, 3, 5, 9],
            [3, 3, 6, 8],
            [3, 3, 7, 7],
            [3, 4, 4, 9],
            [3, 4, 5, 8],
            [3, 4, 6, 7],
            [3, 5, 5, 7],
            [3, 5, 6, 6],
            [4, 4, 4, 8],
            [4, 4, 5, 7],
            [4, 4, 6, 6],
            [4, 5, 5, 6],
            [5, 5, 5, 5],
        ]
    );
    let iter_32 = PartitionsParts::new(4, 32);
    assert_eq!(
        collect(iter_32),
        [
            [5, 9, 9, 9],
            [6, 8, 9, 9],
            [7, 7, 9, 9],
            [7, 8, 8, 9],
            [8, 8, 8, 8]
        ]
    );
    let iter_36 = PartitionsParts::new(4, 36);
    assert_eq!(collect(iter_36), [[9, 9, 9, 9]]);
    let iter_37 = PartitionsParts::new(4, 37);
    assert!(collect(iter_37).is_empty());
}

#[test]
fn test_partitions_no_parts() {
    assert_eq!(collect(PartitionsParts::new(0, 0)), [Vec::<u8>::new()]);
    assert!(collect(PartitionsParts::new(0, 1)).is_empty());
}

#[test]
fn test_partitions_are_sorted_digits_with_the_sum() {
    for k in 1..=5usize {
        for n in 0..=50usize {
            let all = collect(PartitionsParts::new(k, n));
            assert_eq!(all.is_empty(), n < k || n > 9 * k);
            for parts in &all {
                assert_eq!(parts.len(), k);
                assert!(parts.iter().all(|d| (1..=9).contains(d)));
                assert!(parts.windows(2).all(|w| w[0] <= w[1]));
                assert_eq!(parts.iter().map(|d| *d as usize).sum::<usize>(), n);
            }
            assert!(all.windows(2).all(|w| w[0] < w[1]));
        }
    }
}

#[test]
fn test_partitions_first_is_packed_to_the_right() {
    assert_eq!(collect(PartitionsParts::new(4, 20))[0], [1, 1, 9, 9]);
    assert_eq!(collect(PartitionsParts::new(3, 12))[0], [1, 2, 9]);
}

#[test]
fn test_partitions_stay_exhausted() {
    let mut iter = PartitionsParts::new(2, 4);
    assert_eq!(iter.next(), Some(vec![1, 3]));
    assert_eq!(iter.next(), Some(vec![2, 2]));
    assert_eq!(iter.next(), None);
    assert_eq!(iter.next(), None);
}

fn all_sorted_digit_sequences(k: usize, n: usize) -> Vec<Vec<u8>> {
    let mut all: Vec<Vec<u8>> = vec![Vec::new()];
    for _ in 0..k {
        let mut longer = Vec::new();
        for parts in &all {
            let least = parts.last().copied().unwrap_or(1);
            for d in least..=9 {
                let mut next = parts.clone();
                next.push(d);
                longer.push(next);
            }
        }
        all = longer;
    }
    all.retain(|parts| parts.iter().map(|d| *d as usize).sum::<usize>() == n);
    all.sort();
    all
}

#[test]
fn test_partitions_leave_none_out() {
    for k in 1..=4usize {
        for n in 0..=37usize {
            assert_eq!(collect(PartitionsParts::new(k, n)), all_sorted_digit_sequences(k, n));
        }
    }
}
