use student_performance::metrics::{
    accuracy, confusion_matrix, majority_baseline, per_class_metrics, Ratio,
};

fn rate(r: Ratio) -> f64 {
    if r.den == 0 {
        0.0
    } else {
        r.num as f64 / r.den as f64
    }
}

#[test]
fn confusion_matrix_counts_correctly() {
    let actual = [0, 0, 1, 1, 2];
    let predicted = [0, 1, 1, 1, 2];
    let cm = confusion_matrix(&actual, &predicted, 3);
    assert_eq!(cm.get(0, 0), 1);
    assert_eq!(cm.get(0, 1), 1);
    assert_eq!(cm.get(1, 1), 2);
    assert_eq!(cm.get(2, 2), 1);
}

#[test]
fn confusion_matrix_shape_and_zip() {
    let actual = [4, 3, 2];
    let predicted = [4, 4];
    let cm = confusion_matrix(&actual, &predicted, 5);
    assert_eq!(cm.nrows(), 5);
    assert_eq!(cm.ncols(), 5);
    let mut total = 0;
    for i in 0..5 {
        for j in 0..5 {
            total += cm.get(i, j);
        }
    }
    // Only the two rows that zip visits are counted.
    assert_eq!(total, 2);
    assert_eq!(cm.get(4, 4), 1);
    assert_eq!(cm.get(3, 4), 1);
}

#[test]
fn per_class_metrics_are_correct() {
    // Class 0: tp=1 fp=0 fn=1  -> p=1.0 r=0.5 f1=2/3
    // Class 1: tp=2 fp=1 fn=0  -> p=2/3 r=1.0 f1=0.8
    let actual = [0, 0, 1, 1, 2];
    let predicted = [0, 1, 1, 1, 2];
    let cm = confusion_matrix(&actual, &predicted, 3);
    let metrics = per_class_metrics(&cm, &[0, 1, 2]);
    assert!((rate(metrics[0].1.precision) - 1.0).abs() < 1e-9);
    assert!((rate(metrics[0].1.recall) - 0.5).abs() < 1e-9);
    assert!((rate(metrics[1].1.precision) - 2.0 / 3.0).abs() < 1e-9);
    assert!((rate(metrics[1].1.recall) - 1.0).abs() < 1e-9);
    assert_eq!(metrics[2].1.support, 1);
}

#[test]
fn f1_is_the_harmonic_mean() {
    let actual = [0, 0, 1, 1, 2];
    let predicted = [0, 1, 1, 1, 2];
    let cm = confusion_matrix(&actual, &predicted, 3);
    let metrics = per_class_metrics(&cm, &[10, 11, 12]);
    assert_eq!(metrics[0].0, 10);
    assert_eq!(metrics[2].0, 12);
    assert!((rate(metrics[0].1.f1) - 2.0 / 3.0).abs() < 1e-9);
    assert!((rate(metrics[1].1.f1) - 0.8).abs() < 1e-9);
    assert!((rate(metrics[2].1.f1) - 1.0).abs() < 1e-9);
    for (_, m) in &metrics {
        let p = rate(m.precision);
        let r = rate(m.recall);
        let expected = if p + r == 0.0 { 0.0 } else { 2.0 * p * r / (p + r) };
        assert!((rate(m.f1) - expected).abs() < 1e-9);
    }
}

#[test]
fn metrics_of_an_absent_class_are_zero() {
    let actual = [0, 0];
    let predicted = [0, 0];
    let cm = confusion_matrix(&actual, &predicted, 2);
    let metrics = per_class_metrics(&cm, &[0, 1]);
    let m = metrics[1].1;
    assert_eq!(m.support, 0);
    assert_eq!(rate(m.precision), 0.0);
    assert_eq!(rate(m.recall), 0.0);
    assert_eq!(rate(m.f1), 0.0);
}

#[test]
fn accuracy_is_fraction_correct() {
    let actual = [0, 1, 2, 0];
    let predicted = [0, 1, 0, 0];
    assert!((rate(accuracy(&actual, &predicted)) - 0.75).abs() < 1e-9);
}

#[test]
fn accuracy_of_nothing_is_zero() {
    assert_eq!(rate(accuracy(&[], &[])), 0.0);
    assert_eq!(accuracy(&[], &[]), Ratio { num: 0, den: 0 });
}

#[test]
fn accuracy_matches_the_diagonal() {
    let actual = [0, 1, 2, 0, 3, 3, 4];
    let predicted = [0, 2, 2, 1, 3, 3, 0];
    let cm = confusion_matrix(&actual, &predicted, 5);
    let trace: usize = (0..5).map(|i| cm.get(i, i)).sum();
    assert_eq!(accuracy(&actual, &predicted), Ratio { num: trace as u128, den: 7 });
}

#[test]
fn majority_baseline_is_the_largest_class_share() {
    let actual = [1, 1, 0, 2, 1, 4];
    assert_eq!(majority_baseline(&actual), Ratio { num: 3, den: 6 });
    let tied = [0, 3, 3, 0];
    assert_eq!(majority_baseline(&tied), Ratio { num: 2, den: 4 });
}
