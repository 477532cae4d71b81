use student_performance::metrics::Ratio;
use student_performance::voting::{
    class_counts, majority_vote, n_classes_of, tally_votes, vote_shares,
};

#[test]
fn classes_span_the_largest_target() {
    assert_eq!(n_classes_of(&[0, 3, 1]), 4);
    assert_eq!(n_classes_of(&[]), 1);
    assert_eq!(class_counts(&[0, 3, 1, 3]), vec![1, 1, 0, 2]);
    assert_eq!(class_counts(&[]), vec![0]);
}

#[test]
fn tally_counts_tree_predictions() {
    let preds = vec![vec![0, 1, 1], vec![0, 0, 1], vec![1, 0, 1]];
    let votes = tally_votes(&preds, 3, 2);
    assert_eq!(votes, vec![vec![2, 1], vec![2, 1], vec![0, 3]]);
    for row in &votes {
        assert_eq!(row.iter().sum::<usize>(), preds.len());
    }
}

#[test]
fn majority_vote_prefers_the_last_of_equal_counts() {
    assert_eq!(majority_vote(&[2, 1]), 0);
    assert_eq!(majority_vote(&[1, 3, 3, 0]), 2);
    assert_eq!(majority_vote(&[0, 0, 0]), 2);
    assert_eq!(majority_vote(&[5]), 0);
    // The same choice as `Iterator::max_by_key`.
    let row = [4, 1, 4, 2];
    let std_choice = row.iter().enumerate().max_by_key(|(_, &v)| v).unwrap().0;
    assert_eq!(majority_vote(&row), std_choice);
}

#[test]
fn vote_shares_sum_to_one() {
    let preds = vec![vec![0, 1], vec![1, 1], vec![1, 0], vec![2, 1], vec![1, 1]];
    let votes = tally_votes(&preds, 2, 3);
    let shares = vote_shares(&votes, preds.len());
    assert_eq!(shares[0][1], Ratio { num: 3, den: 5 });
    for row in &shares {
        let sum: f64 = row.iter().map(|r| r.num as f64 / r.den as f64).sum();
        assert!((sum - 1.0).abs() < 1e-9);
    }
    let empty = vote_shares(&vec![vec![0, 0]], 0);
    assert_eq!(empty[0][0], Ratio { num: 0, den: 1 });
}
