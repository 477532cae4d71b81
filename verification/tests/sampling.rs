use rand::SeedableRng;
use student_performance::data::from_csv_line;
use student_performance::sampling::{
    bootstrap_rows, feature_subset, shuffled_indices, split_train_test,
};

#[test]
fn shuffled_indices_is_a_permutation() {
    let mut rng = rand::rngs::StdRng::seed_from_u64(7);
    let mut v = shuffled_indices(&mut rng, 50);
    // A shuffle of 50 items that leaves them in order is vanishingly unlikely.
    assert_ne!(v, (0..50).collect::<Vec<_>>());
    v.sort();
    assert_eq!(v, (0..50).collect::<Vec<_>>());
}

#[test]
fn split_puts_every_row_in_one_part() {
    let records: Vec<u32> = (100..120).collect();
    let split = split_train_test(&records, 4, 42);
    assert_eq!(split.test.len(), 4);
    assert_eq!(split.train.len(), 16);
    let mut all: Vec<u32> = split.test.iter().chain(split.train.iter()).cloned().collect();
    all.sort();
    assert_eq!(all, records);
    // The same seed gives the same split.
    let again = split_train_test(&records, 4, 42);
    assert_eq!(again.test, split.test);
}

#[test]
fn split_of_records() {
    let records: Vec<_> = (0..5)
        .map(|i| from_csv_line(&format!("{i},Male,1,1,1,PhD,Yes,Yes,No,1,1,A")).unwrap())
        .collect();
    let split = split_train_test(&records, 0, 1);
    assert!(split.test.is_empty());
    let mut ids: Vec<i64> = split.train.iter().map(|r| r.student_id).collect();
    ids.sort();
    assert_eq!(ids, vec![0, 1, 2, 3, 4]);
}

#[test]
fn feature_subset_is_distinct_and_in_range() {
    let mut rng = rand::rngs::StdRng::seed_from_u64(3);
    let chosen = feature_subset(&mut rng, 12, 5);
    assert_eq!(chosen.len(), 5);
    let mut sorted = chosen.clone();
    sorted.sort();
    sorted.dedup();
    assert_eq!(sorted.len(), 5);
    assert!(chosen.iter().all(|&c| c < 12));
}

#[test]
fn bootstrap_rows_are_in_range() {
    let mut rng = rand::rngs::StdRng::seed_from_u64(9);
    let rows = bootstrap_rows(&mut rng, 30);
    assert_eq!(rows.len(), 30);
    assert!(rows.iter().all(|&r| r < 30));
    assert!(bootstrap_rows(&mut rng, 0).is_empty());
}
