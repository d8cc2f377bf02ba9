use digit_pairings::checks::{
    check_free_vars, check_free_vars_rep_descriptor, check_reps_lte_descriptor,
};
use digit_pairings::counts::check_reps_descriptor_counts;
use digit_pairings::ordered_pairings::OrderedPairings;
use digit_pairings::partition_parts::PartitionsParts;
use digit_pairings::solution::{Described, Solution};
use digit_pairings::solver::{solve, solve_group};

#[test]
fn test_solution_of_one_pair() {
    let solution = Solution::new(&[(1, 2)]);
    assert_eq!(solution.best_solution(), &vec![(1, 2, Described::Digit(2))]);
    assert!(solution.var_sets().is_empty());
    assert_eq!(solution.render(), "reps:        1\ndescriptors: 2\ndigits:      2\n");
}

#[test]
fn test_solution_with_variables() {
    let solution = Solution::new(&[(1, 1), (1, 2), (1, 2), (1, 3)]);
    assert_eq!(
        solution.best_solution(),
        &vec![
            (1, 3, Described::Digit(2)),
            (1, 2, Described::Var(1)),
            (1, 2, Described::Var(1)),
            (1, 1, Described::Var(0)),
        ]
    );
    assert_eq!(
        solution.var_sets(),
        &vec![(0u8, vec![0u8, 4, 5, 6, 7, 8]), (1u8, vec![1u8, 3])]
    );
    assert_eq!(
        solution.render(),
        "reps:        1111\ndescriptors: 3221\ndigits:      2abc\nwhere\n  {a, b} \u{e2}\u{160}\u{2020} {1, 3}\n  {c} \u{e2}\u{160}\u{2020} {0, 4, 5, 6, 7, 8}\n"
    );
}

#[test]
fn test_solution_rows_are_the_pairs() {
    let pairing = [(1u8, 1u8), (1, 2), (1, 2), (1, 3)];
    let solution = Solution::new(&pairing);
    let mut rows: Vec<(u8, u8)> =
        solution.best_solution().iter().map(|e| (e.0, e.1)).collect();
    rows.sort();
    assert_eq!(rows, pairing);
}

#[test]
fn test_solution_orders_a_descriptor_by_digit_taken() {
    // the descriptor 3 has the pairs (1, 3) and (2, 3): slots 2 and 1
    let solution = Solution::new(&[(1, 1), (2, 2), (1, 3), (2, 3)]);
    assert_eq!(
        solution.best_solution(),
        &vec![
            (1, 3, Described::Digit(2)),
            (2, 3, Described::Digit(1)),
            (2, 2, Described::Var(0)),
            (1, 1, Described::Var(0)),
        ]
    );
    assert_eq!(solution.var_sets(), &vec![(0u8, vec![0u8, 4, 5, 6, 7, 8])]);
    assert_eq!(
        solution.render(),
        "reps:        1221\ndescriptors: 3321\ndigits:      21ab\nwhere\n  {a, b} \u{e2}\u{160}\u{2020} {0, 4, 5, 6, 7, 8}\n"
    );
}

#[test]
fn test_solve_one_pair() {
    let groups = solve(1);
    assert_eq!(groups.len(), 1);
    assert_eq!(groups[0].len(), 1);
    assert_eq!(groups[0][0].best_solution(), &vec![(1, 2, Described::Digit(2))]);
}

#[test]
fn test_solve_two_pairs() {
    let groups = solve(2);
    assert_eq!(groups.len(), 2);
    assert_eq!(groups[0].len(), 1);
    assert_eq!(groups[0][0].render(), "reps:        2\ndescriptors: 4\ndigits:      4\n");
    assert!(groups[1].is_empty());
}

#[test]
fn test_solve_no_pairs() {
    assert!(solve(0).is_empty());
}

#[test]
fn test_solve_has_a_group_for_each_number_of_unique_digits() {
    assert_eq!(solve(3).len(), 3);
    assert_eq!(solve(12).len(), 10);
}

#[test]
fn test_solve_four_pairs_finds_the_known_solution() {
    let sols = solve_group(4, 4);
    let texts: Vec<String> = sols.iter().map(|s| s.render()).collect();
    assert!(texts.iter().any(|t| t.starts_with(
        "reps:        1111\ndescriptors: 3221\ndigits:      2abc\nwhere\n"
    )));
}

#[test]
fn test_solve_twice_gives_the_same() {
    for n in 0..=6usize {
        let first: Vec<Vec<String>> =
            solve(n).iter().map(|g| g.iter().map(|s| s.render()).collect()).collect();
        let second: Vec<Vec<String>> =
            solve(n).iter().map(|g| g.iter().map(|s| s.render()).collect()).collect();
        assert_eq!(first, second);
    }
}

#[test]
fn test_solve_solutions_keep_their_pairs() {
    for n in 1..=6usize {
        for (g, sols) in solve(n).iter().enumerate() {
            for sol in sols {
                let entries = sol.best_solution();
                assert_eq!(entries.len(), g + 1);
                assert_eq!(entries.iter().map(|e| e.0 as usize).sum::<usize>(), n);
                assert_eq!(entries.iter().map(|e| e.1 as usize).sum::<usize>(), 2 * n);
                assert!(entries.iter().all(|e| e.0 <= e.1));
                assert!(entries.windows(2).all(|w| w[0].1 >= w[1].1));
            }
        }
    }
}

#[test]
fn test_solve_finds_what_passes_every_test() {
    for n in 1..=5usize {
        for k in 1..=n {
            let mut expected = Vec::new();
            let mut reps_iter = PartitionsParts::new(k, n);
            while let Some(reps) = reps_iter.next() {
                let mut descriptors_iter = PartitionsParts::new(k, 2 * n);
                while let Some(descriptors) = descriptors_iter.next() {
                    if !check_free_vars(&reps, &descriptors) {
                        continue;
                    }
                    if !reps.iter().zip(&descriptors).all(|(r, d)| r <= d) {
                        continue;
                    }
                    let mut pairings = OrderedPairings::new(&reps, &descriptors);
                    while let Some(pairing) = pairings.next() {
                        if check_reps_lte_descriptor(&pairing)
                            && check_free_vars_rep_descriptor(&pairing)
                        {
                            if let Some(solution) = check_reps_descriptor_counts(&pairing) {
                                expected.push(solution.render());
                            }
                        }
                    }
                }
            }
            let got: Vec<String> = solve_group(k, n).iter().map(|s| s.render()).collect();
            assert_eq!(got, expected);
        }
    }
}

fn counts_are_met(pairing: &[(u8, u8)]) -> bool {
    let mut required = [0usize; 10];
    let mut slots = [0usize; 10];
    for (rep, descriptor) in pairing {
        required[*descriptor as usize] += *rep as usize;
        slots[(*descriptor - *rep) as usize] += 1;
    }
    (1..=9usize).filter(|d| required[*d] != 0).all(|d| {
        let needed = (1..=9usize).filter(|e| required[*e] == required[d]).count();
        required[d] <= 9 && slots[required[d]] >= needed
    })
}

#[test]
fn test_ten_pairs_without_candidates_have_no_solution() {
    // six pairs draw on slot 0, and only 0, 4, 5, 6 and 8 are free
    let pairing =
        [(1, 1), (1, 1), (1, 1), (1, 1), (1, 1), (1, 1), (1, 2), (1, 2), (1, 3), (1, 7)];
    assert!(check_reps_lte_descriptor(&pairing));
    assert!(check_free_vars_rep_descriptor(&pairing));
    assert!(counts_are_met(&pairing));
    assert!(check_reps_descriptor_counts(&pairing).is_none());
}

#[test]
fn test_up_to_nine_pairs_have_candidates() {
    for n in 1..=9usize {
        for k in 1..=n.min(10) {
            let mut reps_iter = PartitionsParts::new(k, n);
            while let Some(reps) = reps_iter.next() {
                let mut descriptors_iter = PartitionsParts::new(k, 2 * n);
                while let Some(descriptors) = descriptors_iter.next() {
                    if !check_free_vars(&reps, &descriptors) {
                        continue;
                    }
                    if !reps.iter().zip(&descriptors).all(|(r, d)| r <= d) {
                        continue;
                    }
                    let mut pairings = OrderedPairings::new(&reps, &descriptors);
                    while let Some(pairing) = pairings.next() {
                        if check_reps_lte_descriptor(&pairing)
                            && check_free_vars_rep_descriptor(&pairing)
                        {
                            assert_eq!(
                                check_reps_descriptor_counts(&pairing).is_some(),
                                counts_are_met(&pairing),
                                "{:?}",
                                pairing
                            );
                        }
                    }
                }
            }
        }
    }
}
