use digit_pairings::ordered_pairings::OrderedPairings;

fn collect(mut iter: OrderedPairings) -> Vec<Vec<(u8, u8)>> {
    let mut all = Vec::new();
    while let Some(pairing) = iter.next() {
        all.push(pairing);
    }
    all
}

#[test]
fn test_ordered_pairings() {
    let iter = OrderedPairings::new(&[1, 1, 2], &[3, 3, 4]);
    let mut res = Vec::new();
    res.extend(collect(iter));
    assert_eq!(res, [[(1, 3), (1, 3), (2, 4)], [(1, 3), (1, 4), (2, 3)]]);
    let iter = OrderedPairings::new(&[1, 2, 2, 3], &[4, 5, 5, 6]);
    res.clear();
    res.extend(collect(iter));
    assert_eq!(
        res,
        [
            [(1, 4), (2, 5), (2, 5), (3, 6)],
            [(1, 4), (2, 5), (2, 6), (3, 5)],
            [(1, 5), (2, 4), (2, 5), (3, 6)],
            [(1, 5), (2, 4), (2, 6), (3, 5)],
            [(1, 5), (2, 5), (2, 6), (3, 4)],
            [(1, 6), (2, 4), (2, 5), (3, 5)],
            [(1, 6), (2, 5), (2, 5), (3, 4)],
        ]
    );
}

#[test]
fn test_ordered_pairings_of_nothing() {
    assert!(collect(OrderedPairings::new(&[], &[])).is_empty());
}

#[test]
fn test_ordered_pairings_single() {
    assert_eq!(collect(OrderedPairings::new(&[7], &[9])), [[(7, 9)]]);
}

#[test]
fn test_ordered_pairings_distinct_xs_take_every_order() {
    assert_eq!(
        collect(OrderedPairings::new(&[1, 2, 3], &[4, 5, 6])),
        [
            [(1, 4), (2, 5), (3, 6)],
            [(1, 4), (2, 6), (3, 5)],
            [(1, 5), (2, 4), (3, 6)],
            [(1, 5), (2, 6), (3, 4)],
            [(1, 6), (2, 4), (3, 5)],
            [(1, 6), (2, 5), (3, 4)],
        ]
    );
}

#[test]
fn test_ordered_pairings_equal_xs_take_one_order() {
    assert_eq!(collect(OrderedPairings::new(&[1, 1], &[1, 3])), [[(1, 1), (1, 3)]]);
    assert_eq!(collect(OrderedPairings::new(&[2, 2, 2], &[1, 2, 3])), [[(2, 1), (2, 2), (2, 3)]]);
}

#[test]
fn test_ordered_pairings_are_bijections_in_order() {
    let xs = [1u8, 1, 2, 3, 3, 3, 4, 5, 5, 9];
    let ys = [1u8, 2, 2, 3, 4, 4, 4, 7, 8, 9];
    let all = collect(OrderedPairings::new(&xs, &ys));
    assert!(!all.is_empty());
    for pairing in &all {
        assert_eq!(pairing.iter().map(|e| e.0).collect::<Vec<_>>(), xs);
        let mut got: Vec<u8> = pairing.iter().map(|e| e.1).collect();
        got.sort();
        assert_eq!(got, ys);
    }
    let seconds: Vec<Vec<u8>> =
        all.iter().map(|p| p.iter().map(|e| e.1).collect()).collect();
    assert!(seconds.windows(2).all(|w| w[0] < w[1]));
    let mut as_sets: Vec<Vec<(u8, u8)>> = all.clone();
    for p in as_sets.iter_mut() {
        p.sort();
    }
    as_sets.sort();
    assert!(as_sets.windows(2).all(|w| w[0] != w[1]));
}

fn all_orders(ys: &[u8]) -> Vec<Vec<u8>> {
    if ys.is_empty() {
        return vec![Vec::new()];
    }
    let mut all = Vec::new();
    for i in 0..ys.len() {
        let mut rest = ys.to_vec();
        let y = rest.remove(i);
        for mut tail in all_orders(&rest) {
            tail.insert(0, y);
            all.push(tail);
        }
    }
    all
}

#[test]
fn test_ordered_pairings_leave_none_out() {
    let cases: [(&[u8], &[u8]); 4] = [
        (&[1, 1, 2], &[3, 3, 4]),
        (&[1, 2, 2, 3], &[4, 5, 5, 6]),
        (&[1, 1, 1, 2, 2], &[1, 2, 3, 4, 5]),
        (&[2, 2, 3, 3, 3], &[1, 1, 2, 2, 9]),
    ];
    for (xs, ys) in cases {
        let mut expected: Vec<Vec<u8>> = all_orders(ys)
            .into_iter()
            .filter(|a| (1..a.len()).all(|i| xs[i - 1] != xs[i] || a[i - 1] <= a[i]))
            .collect();
        expected.sort();
        expected.dedup();
        let got: Vec<Vec<u8>> = collect(OrderedPairings::new(xs, ys))
            .iter()
            .map(|p| p.iter().map(|e| e.1).collect())
            .collect();
        assert_eq!(got, expected);
    }
}
