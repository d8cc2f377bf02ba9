use digit_pairings::checks::{
    check_free_vars, check_free_vars_rep_descriptor, check_reps_lte_descriptor, count_distinct,
    occurs,
};
use digit_pairings::counts::check_reps_descriptor_counts;
use digit_pairings::solver::reps_fit;

#[test]
fn test_count_distinct() {
    assert_eq!(count_distinct(&[]), 0);
    assert_eq!(count_distinct(&[1, 2, 2, 3]), 3);
    assert_eq!(count_distinct(&[5, 5, 5]), 1);
    assert_eq!(count_distinct(&[0, 255, 0, 255, 7]), 3);
}

#[test]
fn test_occurs() {
    assert!(occurs(&[1, 2, 3], 2));
    assert!(!occurs(&[1, 2, 3], 4));
    assert!(!occurs(&[], 0));
}

#[test]
fn test_check_free_vars() {
    assert!(check_free_vars(&[1], &[2]));
    assert!(check_free_vars(&[1, 1], &[1, 3]));
    assert!(check_free_vars(&[1, 1, 2], &[1, 1, 2]));
    assert!(check_free_vars(&[1, 1, 1, 1], &[1, 2, 2, 3]));
    assert!(!check_free_vars(&[1, 1], &[2, 2]));
    assert!(!check_free_vars(&[1, 3], &[2, 2, 2]));
    assert!(check_free_vars(&[2, 2], &[2, 2, 2]));
    assert!(check_free_vars(&[], &[]));
}

#[test]
fn test_check_reps_lte_descriptor() {
    assert!(check_reps_lte_descriptor(&[]));
    assert!(check_reps_lte_descriptor(&[(1, 1), (2, 3)]));
    assert!(!check_reps_lte_descriptor(&[(1, 1), (4, 3)]));
    assert!(check_reps_lte_descriptor(&[(7, 9)]));
}

#[test]
fn test_check_free_vars_rep_descriptor() {
    assert!(check_free_vars_rep_descriptor(&[(1, 2)]));
    assert!(!check_free_vars_rep_descriptor(&[(1, 3), (1, 3), (2, 4)]));
    assert!(check_free_vars_rep_descriptor(&[(2, 2), (1, 2)]));
    assert!(!check_free_vars_rep_descriptor(&[(1, 1), (1, 3)]));
    assert!(check_free_vars_rep_descriptor(&[(1, 1), (1, 2), (1, 2), (1, 3)]));
}

#[test]
fn test_check_reps_descriptor_counts() {
    assert!(check_reps_descriptor_counts(&[(1, 2)]).is_some());
    assert!(check_reps_descriptor_counts(&[(2, 4)]).is_some());
    assert!(check_reps_descriptor_counts(&[(1, 1), (1, 2), (1, 2), (1, 3)]).is_some());
    // the descriptor 3 needs a digit that occurs once, and no pair has slot 1
    assert!(check_reps_descriptor_counts(&[(1, 3)]).is_none());
    // two descriptors need slot 1, one pair has it
    assert!(check_reps_descriptor_counts(&[(1, 2), (1, 4)]).is_none());
}

#[test]
fn test_reps_fit() {
    assert!(reps_fit(&[1, 2], &[1, 3]));
    assert!(!reps_fit(&[1, 4], &[2, 3]));
    assert!(reps_fit(&[], &[]));
}
