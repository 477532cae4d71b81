//! Classification metrics over ordinal labels: the confusion matrix,
//! accuracy, per-class precision / recall / F1, and the majority baseline.
//! Rates are exact ratios of counts; a caller turns them into numbers.
use vstd::prelude::*;

use crate::matrix::CountMatrix;

verus! {

/// The number of grade classes.
pub const N_CLASSES: usize = 5;

/// A ratio of two counts, `num / den`. Where `den` is 0 the rate it stands
/// for is 0 (nothing was there to count).
#[derive(Clone, Copy, Debug, PartialEq, Eq, Structural)]
pub struct Ratio {
    pub num: u128,
    pub den: u128,
}

/// Per-class classification metrics for a multiclass problem.
#[derive(Clone, Copy, Debug, PartialEq, Eq, Structural)]
pub struct ClassMetrics {
    /// Of the rows predicted as this class, the share that truly are.
    pub precision: Ratio,
    /// Of the rows truly in this class, the share predicted as it.
    pub recall: Ratio,
    /// The harmonic mean of precision and recall.
    pub f1: Ratio,
    /// The number of rows truly in this class.
    pub support: usize,
}

/// How many rows a `zip` of the two label lists visits.
pub open spec fn zip_len(actual: Seq<i32>, predicted: Seq<i32>) -> int {
    if actual.len() <= predicted.len() {
        actual.len() as int
    } else {
        predicted.len() as int
    }
}

/// Among the first `n` rows, how many have true label `a` and predicted
/// label `p`.
pub open spec fn pair_count(actual: Seq<i32>, predicted: Seq<i32>, n: int, a: int, p: int) -> nat
    decreases n,
{
    if n <= 0 {
        0
    } else {
        pair_count(actual, predicted, n - 1, a, p) + if actual[n - 1] == a && predicted[n - 1]
            == p {
            1nat
        } else {
            0nat
        }
    }
}

/// Among the first `n` rows, how many are predicted correctly.
pub open spec fn agree_count(actual: Seq<i32>, predicted: Seq<i32>, n: int) -> nat
    decreases n,
{
    if n <= 0 {
        0
    } else {
        agree_count(actual, predicted, n - 1) + if actual[n - 1] == predicted[n - 1] {
            1nat
        } else {
            0nat
        }
    }
}

/// Among the first `n` labels, how many equal `a`.
pub open spec fn label_count(labels: Seq<i32>, n: int, a: int) -> nat
    decreases n,
{
    if n <= 0 {
        0
    } else {
        label_count(labels, n - 1, a) + if labels[n - 1] == a {
            1nat
        } else {
            0nat
        }
    }
}

/// Every label among the first `n` lies in `0..n_classes`.
pub open spec fn labels_in_range(labels: Seq<i32>, n: int, n_classes: int) -> bool {
    forall|k: int| 0 <= k < n ==> 0 <= #[trigger] labels[k] < n_classes
}

/// The sum of column `c` over the first `n` rows.
pub open spec fn col_sum(cm: CountMatrix, c: int, n: int) -> int
    decreases n,
{
    if n <= 0 {
        0
    } else {
        col_sum(cm, c, n - 1) + cm.cell(n - 1, c)
    }
}

/// The sum of row `r` over the first `n` columns.
pub open spec fn row_sum(cm: CountMatrix, r: int, n: int) -> int
    decreases n,
{
    if n <= 0 {
        0
    } else {
        row_sum(cm, r, n - 1) + cm.cell(r, n - 1)
    }
}

/// The sum of the diagonal over the first `n` classes.
pub open spec fn trace(cm: CountMatrix, n: int) -> int
    decreases n,
{
    if n <= 0 {
        0
    } else {
        trace(cm, n - 1) + cm.cell(n - 1, n - 1)
    }
}

/// The metrics of class `i` of an `n`-class confusion matrix: with true
/// positives `tp`, predicted positives `col = tp + fp` and actual positives
/// `row = tp + fn`, precision is `tp / col`, recall `tp / row`, and F1
/// `2 tp / (col + row)`.
pub open spec fn class_metrics(cm: CountMatrix, i: int, n: int) -> ClassMetrics {
    let tp = cm.cell(i, i);
    let col = col_sum(cm, i, n);
    let row = row_sum(cm, i, n);
    ClassMetrics {
        precision: Ratio { num: tp as u128, den: col as u128 },
        recall: Ratio { num: tp as u128, den: row as u128 },
        f1: Ratio { num: (2 * tp) as u128, den: (col + row) as u128 },
        support: row as usize,
    }
}

proof fn lemma_pair_count_bounded(actual: Seq<i32>, predicted: Seq<i32>, n: int, a: int, p: int)
    requires
        n >= 0,
    ensures
        pair_count(actual, predicted, n, a, p) <= n,
    decreases n,
{
    if n > 0 {
        lemma_pair_count_bounded(actual, predicted, n - 1, a, p);
    }
}

proof fn lemma_agree_count_bounded(actual: Seq<i32>, predicted: Seq<i32>, n: int)
    requires
        n >= 0,
    ensures
        agree_count(actual, predicted, n) <= n,
    decreases n,
{
    if n > 0 {
        lemma_agree_count_bounded(actual, predicted, n - 1);
    }
}

proof fn lemma_label_count_bounded(labels: Seq<i32>, n: int, a: int)
    requires
        n >= 0,
    ensures
        label_count(labels, n, a) <= n,
    decreases n,
{
    if n > 0 {
        lemma_label_count_bounded(labels, n - 1, a);
    }
}

proof fn lemma_col_sum_monotone(cm: CountMatrix, c: int, m: int, n: int)
    requires
        0 <= m <= n,
    ensures
        col_sum(cm, c, m) <= col_sum(cm, c, n),
        m < n ==> col_sum(cm, c, m) + cm.cell(m, c) <= col_sum(cm, c, n),
    decreases n - m,
{
    if m < n {
        lemma_col_sum_monotone(cm, c, m + 1, n);
    }
}

proof fn lemma_row_sum_monotone(cm: CountMatrix, r: int, m: int, n: int)
    requires
        0 <= m <= n,
    ensures
        row_sum(cm, r, m) <= row_sum(cm, r, n),
        m < n ==> row_sum(cm, r, m) + cm.cell(r, m) <= row_sum(cm, r, n),
    decreases n - m,
{
    if m < n {
        lemma_row_sum_monotone(cm, r, m + 1, n);
    }
}

/// Build a `n_classes x n_classes` confusion matrix from ordinal targets.
/// The cell at `(actual, predicted)` counts how many rows with the true
/// label `actual` were predicted as `predicted`; rows are paired up as
/// `zip` pairs them, so a longer list's tail is not read.
pub fn confusion_matrix(actual: &[i32], predicted: &[i32], n_classes: usize) -> (cm: CountMatrix)
    requires
        n_classes * n_classes * 8 <= isize::MAX,
        labels_in_range(actual@, zip_len(actual@, predicted@), n_classes as int),
        labels_in_range(predicted@, zip_len(actual@, predicted@), n_classes as int),
    ensures
        cm.wf(),
        is_confusion_matrix(cm, actual@, predicted@, n_classes as int),
{
    let mut cm = CountMatrix::zeros(n_classes);
    let m: usize = if actual.len() <= predicted.len() {
        actual.len()
    } else {
        predicted.len()
    };
    let mut k: usize = 0;
    while k < m
        invariant
            m as int == zip_len(actual@, predicted@),
            m <= actual.len(),
            m <= predicted.len(),
            k <= m,
            labels_in_range(actual@, m as int, n_classes as int),
            labels_in_range(predicted@, m as int, n_classes as int),
            cm.wf(),
            cm.n_rows() == n_classes,
            cm.n_cols() == n_classes,
            forall|i: int, j: int|
                0 <= i < n_classes && 0 <= j < n_classes ==> #[trigger] cm.cell(i, j)
                    == pair_count(actual@, predicted@, k as int, i, j),
        decreases m - k,
    {
        let a = actual[k];
        let p = predicted[k];
        assert(0 <= actual@[k as int] < n_classes);
        assert(0 <= predicted@[k as int] < n_classes);
        proof {
            lemma_pair_count_bounded(actual@, predicted@, k as int, a as int, p as int);
        }
        cm.increment(a as usize, p as usize);
        k = k + 1;
    }
    cm
}

/// The share of rows predicted correctly: correct rows over the number of
/// true labels (0 where there are none).
pub fn accuracy(actual: &[i32], predicted: &[i32]) -> (r: Ratio)
    ensures
        r.num == agree_count(actual@, predicted@, zip_len(actual@, predicted@)),
        r.den == actual.len(),
{
    let m: usize = if actual.len() <= predicted.len() {
        actual.len()
    } else {
        predicted.len()
    };
    let mut correct: usize = 0;
    let mut k: usize = 0;
    while k < m
        invariant
            m as int == zip_len(actual@, predicted@),
            m <= actual.len(),
            m <= predicted.len(),
            k <= m,
            correct == agree_count(actual@, predicted@, k as int),
        decreases m - k,
    {
        proof {
            lemma_agree_count_bounded(actual@, predicted@, k as int);
        }
        if actual[k] == predicted[k] {
            correct = correct + 1;
        }
        k = k + 1;
    }
    Ratio { num: correct as u128, den: actual.len() as u128 }
}

/// Sum of column `c` of the first `n` rows.
fn column_total(cm: &CountMatrix, c: usize, n: usize) -> (s: usize)
    requires
        n <= cm.n_rows(),
        c < cm.n_cols(),
        col_sum(*cm, c as int, n as int) <= usize::MAX,
    ensures
        s == col_sum(*cm, c as int, n as int),
{
    let mut s: usize = 0;
    let mut r: usize = 0;
    while r < n
        invariant
            n <= cm.n_rows(),
            c < cm.n_cols(),
            r <= n,
            col_sum(*cm, c as int, n as int) <= usize::MAX,
            s == col_sum(*cm, c as int, r as int),
        decreases n - r,
    {
        proof {
            lemma_col_sum_monotone(*cm, c as int, r as int, n as int);
        }
        s = s + cm.get(r, c);
        r = r + 1;
    }
    s
}

/// Sum of row `r` over the first `n` columns.
fn row_total(cm: &CountMatrix, r: usize, n: usize) -> (s: usize)
    requires
        r < cm.n_rows(),
        n <= cm.n_cols(),
        row_sum(*cm, r as int, n as int) <= usize::MAX,
    ensures
        s == row_sum(*cm, r as int, n as int),
{
    let mut s: usize = 0;
    let mut c: usize = 0;
    while c < n
        invariant
            r < cm.n_rows(),
            n <= cm.n_cols(),
            c <= n,
            row_sum(*cm, r as int, n as int) <= usize::MAX,
            s == row_sum(*cm, r as int, c as int),
        decreases n - c,
    {
        proof {
            lemma_row_sum_monotone(*cm, r as int, c as int, n as int);
        }
        s = s + cm.get(r, c);
        c = c + 1;
    }
    s
}

/// Per-class precision, recall and F1 computed from a confusion matrix,
/// each class paired with its label.
pub fn per_class_metrics(cm: &CountMatrix, labels: &[i32]) -> (out: Vec<(i32, ClassMetrics)>)
    requires
        cm.n_rows() <= cm.n_cols(),
        labels.len() >= cm.n_rows(),
        forall|i: int|
            0 <= i < cm.n_rows() ==> #[trigger] col_sum(*cm, i, cm.n_rows() as int) <= usize::MAX
                && row_sum(*cm, i, cm.n_rows() as int) <= usize::MAX,
    ensures
        out.len() == cm.n_rows(),
        forall|i: int|
            0 <= i < cm.n_rows() ==> (#[trigger] out@[i]).0 == labels@[i] && out@[i].1
                == class_metrics(*cm, i, cm.n_rows() as int),
        forall|i: int|
            0 <= i < cm.n_rows() ==> {
                let m = (#[trigger] out@[i]).1;
                let n = cm.n_rows() as int;
                &&& m.support == row_sum(*cm, i, n)
                &&& m.recall.num == cm.cell(i, i) && m.recall.den == row_sum(*cm, i, n)
                &&& m.precision.num == cm.cell(i, i) && m.precision.den == col_sum(*cm, i, n)
                &&& m.f1.num == 2 * cm.cell(i, i) && m.f1.den == col_sum(*cm, i, n) + row_sum(
                    *cm,
                    i,
                    n,
                )
            },
{
    let n = cm.nrows();
    proof {
        assert forall|i: int| 0 <= i < n implies col_sum(*cm, i, n as int) >= 0 && row_sum(
            *cm,
            i,
            n as int,
        ) >= 0 && cm.cell(i, i) >= 0 by {
            lemma_col_sum_nonneg(*cm, i, n as int);
            lemma_row_sum_nonneg(*cm, i, n as int);
        }
    }
    let mut out: Vec<(i32, ClassMetrics)> = Vec::new();
    let mut i: usize = 0;
    while i < n
        invariant
            n == cm.n_rows(),
            n <= cm.n_cols(),
            labels.len() >= n,
            i <= n,
            out.len() == i,
            forall|c: int|
                0 <= c < n ==> #[trigger] col_sum(*cm, c, n as int) <= usize::MAX && row_sum(
                    *cm,
                    c,
                    n as int,
                ) <= usize::MAX,
            forall|c: int|
                0 <= c < i ==> (#[trigger] out@[c]).0 == labels@[c] && out@[c].1
                    == class_metrics(*cm, c, n as int),
        decreases n - i,
    {
        assert(col_sum(*cm, i as int, n as int) <= usize::MAX);
        let tp = cm.get(i, i);
        let col = column_total(cm, i, n);
        let row = row_total(cm, i, n);
        let m = ClassMetrics {
            precision: Ratio { num: tp as u128, den: col as u128 },
            recall: Ratio { num: tp as u128, den: row as u128 },
            f1: Ratio { num: 2 * (tp as u128), den: (col as u128) + (row as u128) },
            support: row,
        };
        out.push((labels[i], m));
        i = i + 1;
    }
    out
}

/// The accuracy of always predicting the most frequent true label: the
/// largest per-class count over the number of labels.
pub fn majority_baseline(actual: &[i32]) -> (r: Ratio)
    requires
        labels_in_range(actual@, actual.len() as int, N_CLASSES as int),
    ensures
        r.den == actual.len(),
        exists|c: int| 0 <= c < N_CLASSES && r.num == #[trigger] label_count(actual@, actual.len() as int, c),
        forall|c: int| 0 <= c < N_CLASSES ==> #[trigger] label_count(actual@, actual.len() as int, c) <= r.num,
{
    let mut counts: Vec<usize> = vec![0, 0, 0, 0, 0];
    let mut k: usize = 0;
    while k < actual.len()
        invariant
            k <= actual.len(),
            labels_in_range(actual@, actual.len() as int, N_CLASSES as int),
            counts.len() == N_CLASSES,
            forall|c: int| 0 <= c < N_CLASSES ==> #[trigger] counts@[c] == label_count(actual@, k as int, c),
        decreases actual.len() - k,
    {
        let a = actual[k];
        assert(0 <= actual@[k as int] < N_CLASSES);
        proof {
            lemma_label_count_bounded(actual@, k as int, a as int);
        }
        let idx = a as usize;
        counts.set(idx, counts[idx] + 1);
        k = k + 1;
    }
    let mut best: usize = 0;
    let mut c: usize = 1;
    while c < N_CLASSES
        invariant
            counts.len() == N_CLASSES,
            1 <= c <= N_CLASSES,
            best < c,
            forall|d: int| 0 <= d < N_CLASSES ==> #[trigger] counts@[d] == label_count(actual@, actual.len() as int, d),
            forall|d: int| 0 <= d < c ==> counts@[d] <= counts@[best as int],
        decreases N_CLASSES - c,
    {
        if counts[c] >= counts[best] {
            best = c;
        }
        c = c + 1;
    }
    assert(counts@[best as int] == label_count(actual@, actual.len() as int, best as int));
    assert forall|d: int| 0 <= d < N_CLASSES implies #[trigger] label_count(
        actual@,
        actual.len() as int,
        d,
    ) <= counts@[best as int] by {
        assert(counts@[d] <= counts@[best as int]);
    }
    Ratio { num: counts[best] as u128, den: actual.len() as u128 }
}


/// Sum over the first `n` classes `i` of how many of the first `m` rows
/// have true and predicted label both `i`.
pub open spec fn diagonal_pairs(actual: Seq<i32>, predicted: Seq<i32>, m: int, n: int) -> int
    decreases n,
{
    if n <= 0 {
        0
    } else {
        diagonal_pairs(actual, predicted, m, n - 1) + pair_count(actual, predicted, m, n - 1, n - 1)
    }
}

/// Sum over the first `n` predicted classes `j` of how many of the first `m`
/// rows have true label `a` and predicted label `j`.
pub open spec fn row_pairs(actual: Seq<i32>, predicted: Seq<i32>, m: int, a: int, n: int) -> int
    decreases n,
{
    if n <= 0 {
        0
    } else {
        row_pairs(actual, predicted, m, a, n - 1) + pair_count(actual, predicted, m, a, n - 1)
    }
}

/// Sum over the first `n` classes of how many of the first `m` labels
/// belong to each.
pub open spec fn labels_total(labels: Seq<i32>, m: int, n: int) -> int
    decreases n,
{
    if n <= 0 {
        0
    } else {
        labels_total(labels, m, n - 1) + label_count(labels, m, n - 1)
    }
}

proof fn lemma_diagonal_step(actual: Seq<i32>, predicted: Seq<i32>, m: int, n: int)
    requires
        m > 0,
        n >= 0,
    ensures
        diagonal_pairs(actual, predicted, m, n) == diagonal_pairs(actual, predicted, m - 1, n) + (
        if actual[m - 1] == predicted[m - 1] && 0 <= actual[m - 1] < n {
            1int
        } else {
            0int
        }),
    decreases n,
{
    if n > 0 {
        lemma_diagonal_step(actual, predicted, m, n - 1);
    }
}

proof fn lemma_diagonal_is_agreement(actual: Seq<i32>, predicted: Seq<i32>, m: int, n: int)
    requires
        0 <= m,
        labels_in_range(actual, m, n),
    ensures
        diagonal_pairs(actual, predicted, m, n) == agree_count(actual, predicted, m),
    decreases m,
{
    if m > 0 {
        lemma_diagonal_is_agreement(actual, predicted, m - 1, n);
        assert(0 <= actual[m - 1] < n);
        lemma_diagonal_step(actual, predicted, m, n);
    } else {
        lemma_diagonal_zero(actual, predicted, n);
    }
}

proof fn lemma_diagonal_zero(actual: Seq<i32>, predicted: Seq<i32>, n: int)
    ensures
        diagonal_pairs(actual, predicted, 0, n) == 0,
    decreases n,
{
    if n > 0 {
        lemma_diagonal_zero(actual, predicted, n - 1);
    }
}

proof fn lemma_row_pairs_step(actual: Seq<i32>, predicted: Seq<i32>, m: int, a: int, n: int)
    requires
        m > 0,
        n >= 0,
    ensures
        row_pairs(actual, predicted, m, a, n) == row_pairs(actual, predicted, m - 1, a, n) + (
        if actual[m - 1] == a && 0 <= predicted[m - 1] < n {
            1int
        } else {
            0int
        }),
    decreases n,
{
    if n > 0 {
        lemma_row_pairs_step(actual, predicted, m, a, n - 1);
    }
}

proof fn lemma_row_pairs_zero(actual: Seq<i32>, predicted: Seq<i32>, a: int, n: int)
    ensures
        row_pairs(actual, predicted, 0, a, n) == 0,
    decreases n,
{
    if n > 0 {
        lemma_row_pairs_zero(actual, predicted, a, n - 1);
    }
}

proof fn lemma_row_pairs_is_label_count(actual: Seq<i32>, predicted: Seq<i32>, m: int, a: int, n: int)
    requires
        0 <= m,
        labels_in_range(predicted, m, n),
    ensures
        row_pairs(actual, predicted, m, a, n) == label_count(actual, m, a),
    decreases m,
{
    if m > 0 {
        lemma_row_pairs_is_label_count(actual, predicted, m - 1, a, n);
        assert(0 <= predicted[m - 1] < n);
        lemma_row_pairs_step(actual, predicted, m, a, n);
    } else {
        lemma_row_pairs_zero(actual, predicted, a, n);
    }
}

proof fn lemma_labels_total_step(labels: Seq<i32>, m: int, n: int)
    requires
        m > 0,
        n >= 0,
    ensures
        labels_total(labels, m, n) == labels_total(labels, m - 1, n) + (if 0 <= labels[m - 1] < n {
            1int
        } else {
            0int
        }),
    decreases n,
{
    if n > 0 {
        lemma_labels_total_step(labels, m, n - 1);
    }
}

proof fn lemma_labels_total_zero(labels: Seq<i32>, n: int)
    ensures
        labels_total(labels, 0, n) == 0,
    decreases n,
{
    if n > 0 {
        lemma_labels_total_zero(labels, n - 1);
    }
}

/// `cm` is the `n` by `n` confusion matrix of `actual` against `predicted`:
/// cell `(i, j)` counts the rows, among those that `zip` visits, whose true
/// label is `i` and predicted label `j`.
pub open spec fn is_confusion_matrix(
    cm: CountMatrix,
    actual: Seq<i32>,
    predicted: Seq<i32>,
    n: int,
) -> bool {
    &&& cm.n_rows() == n
    &&& cm.n_cols() == n
    &&& forall|i: int, j: int|
        0 <= i < n && 0 <= j < n ==> #[trigger] cm.cell(i, j) == pair_count(
            actual,
            predicted,
            zip_len(actual, predicted),
            i,
            j,
        )
}

proof fn lemma_trace_is_diagonal(cm: CountMatrix, actual: Seq<i32>, predicted: Seq<i32>, n: int, k: int)
    requires
        is_confusion_matrix(cm, actual, predicted, n),
        0 <= k <= n,
    ensures
        trace(cm, k) == diagonal_pairs(actual, predicted, zip_len(actual, predicted), k),
    decreases k,
{
    if k > 0 {
        lemma_trace_is_diagonal(cm, actual, predicted, n, k - 1);
        assert(cm.cell(k - 1, k - 1) == pair_count(
            actual,
            predicted,
            zip_len(actual, predicted),
            k - 1,
            k - 1,
        ));
    }
}

proof fn lemma_row_sum_is_row_pairs(
    cm: CountMatrix,
    actual: Seq<i32>,
    predicted: Seq<i32>,
    n: int,
    a: int,
    k: int,
)
    requires
        is_confusion_matrix(cm, actual, predicted, n),
        0 <= a < n,
        0 <= k <= n,
    ensures
        row_sum(cm, a, k) == row_pairs(actual, predicted, zip_len(actual, predicted), a, k),
    decreases k,
{
    if k > 0 {
        lemma_row_sum_is_row_pairs(cm, actual, predicted, n, a, k - 1);
        assert(cm.cell(a, k - 1) == pair_count(
            actual,
            predicted,
            zip_len(actual, predicted),
            a,
            k - 1,
        ));
    }
}

/// The correct predictions are the diagonal of the confusion matrix: the
/// numerator of `accuracy` equals the trace of `confusion_matrix` over the
/// same labels.
pub proof fn lemma_accuracy_is_trace(cm: CountMatrix, actual: Seq<i32>, predicted: Seq<i32>, n: int)
    requires
        is_confusion_matrix(cm, actual, predicted, n),
        labels_in_range(actual, zip_len(actual, predicted), n),
        labels_in_range(predicted, zip_len(actual, predicted), n),
    ensures
        trace(cm, n) == agree_count(actual, predicted, zip_len(actual, predicted)),
{
    lemma_trace_is_diagonal(cm, actual, predicted, n, n);
    lemma_diagonal_is_agreement(actual, predicted, zip_len(actual, predicted), n);
}

/// The support of a class, the sum of its row in the confusion matrix, is
/// the number of rows whose true label is that class.
pub proof fn lemma_support_counts_true_labels(
    cm: CountMatrix,
    actual: Seq<i32>,
    predicted: Seq<i32>,
    n: int,
    a: int,
)
    requires
        is_confusion_matrix(cm, actual, predicted, n),
        labels_in_range(predicted, zip_len(actual, predicted), n),
        0 <= a < n,
    ensures
        row_sum(cm, a, n) == label_count(actual, zip_len(actual, predicted), a),
{
    lemma_row_sum_is_row_pairs(cm, actual, predicted, n, a, n);
    lemma_row_pairs_is_label_count(actual, predicted, zip_len(actual, predicted), a, n);
}

/// Every row has exactly one true class: over classes in range, the
/// per-class label counts add up to the number of rows.
pub proof fn lemma_supports_cover_rows(labels: Seq<i32>, m: int, n: int)
    requires
        0 <= m,
        labels_in_range(labels, m, n),
    ensures
        labels_total(labels, m, n) == m,
    decreases m,
{
    if m > 0 {
        lemma_supports_cover_rows(labels, m - 1, n);
        assert(0 <= labels[m - 1] < n);
        lemma_labels_total_step(labels, m, n);
    } else {
        lemma_labels_total_zero(labels, n);
    }
}

/// Precision and recall never exceed 1: true positives are part of both
/// the predicted and the actual positives.
pub proof fn lemma_rates_at_most_one(cm: CountMatrix, i: int, n: int)
    requires
        0 <= i < n,
        col_sum(cm, i, n) <= usize::MAX,
        row_sum(cm, i, n) <= usize::MAX,
    ensures
        class_metrics(cm, i, n).precision.num <= class_metrics(cm, i, n).precision.den,
        class_metrics(cm, i, n).recall.num <= class_metrics(cm, i, n).recall.den,
        class_metrics(cm, i, n).f1.num <= class_metrics(cm, i, n).f1.den,
{
    lemma_col_sum_monotone(cm, i, i, n);
    lemma_row_sum_monotone(cm, i, i, n);
    lemma_col_sum_nonneg(cm, i, i);
    lemma_row_sum_nonneg(cm, i, i);
}

proof fn lemma_col_sum_nonneg(cm: CountMatrix, c: int, n: int)
    ensures
        col_sum(cm, c, n) >= 0,
    decreases n,
{
    if n > 0 {
        lemma_col_sum_nonneg(cm, c, n - 1);
    }
}

proof fn lemma_row_sum_nonneg(cm: CountMatrix, r: int, n: int)
    ensures
        row_sum(cm, r, n) >= 0,
    decreases n,
{
    if n > 0 {
        lemma_row_sum_nonneg(cm, r, n - 1);
    }
}

proof fn lemma_harmonic_identity(tp: int, col: int, row: int)
    by (nonlinear_arith)
    ensures
        (2 * tp) * (tp * row + tp * col) == (col + row) * 2 * tp * tp,
{
}

/// F1 is the harmonic mean of precision and recall: with `p = a / b` and
/// `r = c / d`, `f1 = 2 p r / (p + r) = 2 a c / (a d + c b)`, written here
/// with the denominators multiplied out.
pub proof fn lemma_f1_is_harmonic_mean(cm: CountMatrix, i: int, n: int)
    requires
        0 <= i < n,
        col_sum(cm, i, n) <= usize::MAX,
        row_sum(cm, i, n) <= usize::MAX,
    ensures
        ({
            let m = class_metrics(cm, i, n);
            m.f1.num * (m.precision.num * m.recall.den + m.recall.num * m.precision.den) == m.f1.den
                * 2 * m.precision.num * m.recall.num
        }),
{
    lemma_col_sum_nonneg(cm, i, n);
    lemma_row_sum_nonneg(cm, i, n);
    let tp = cm.cell(i, i);
    let col = col_sum(cm, i, n);
    let row = row_sum(cm, i, n);
    lemma_harmonic_identity(tp, col, row);
}


/// Sum over the first `n` true classes `a` of how many of the first `m`
/// rows have true label `a` and predicted label `p`.
pub open spec fn column_pairs(actual: Seq<i32>, predicted: Seq<i32>, m: int, p: int, n: int) -> int
    decreases n,
{
    if n <= 0 {
        0
    } else {
        column_pairs(actual, predicted, m, p, n - 1) + pair_count(actual, predicted, m, n - 1, p)
    }
}

proof fn lemma_column_pairs_step(actual: Seq<i32>, predicted: Seq<i32>, m: int, p: int, n: int)
    requires
        m > 0,
        n >= 0,
    ensures
        column_pairs(actual, predicted, m, p, n) == column_pairs(actual, predicted, m - 1, p, n) + (
        if predicted[m - 1] == p && 0 <= actual[m - 1] < n {
            1int
        } else {
            0int
        }),
    decreases n,
{
    if n > 0 {
        lemma_column_pairs_step(actual, predicted, m, p, n - 1);
    }
}

proof fn lemma_column_pairs_zero(actual: Seq<i32>, predicted: Seq<i32>, p: int, n: int)
    ensures
        column_pairs(actual, predicted, 0, p, n) == 0,
    decreases n,
{
    if n > 0 {
        lemma_column_pairs_zero(actual, predicted, p, n - 1);
    }
}

proof fn lemma_column_pairs_is_label_count(
    actual: Seq<i32>,
    predicted: Seq<i32>,
    m: int,
    p: int,
    n: int,
)
    requires
        0 <= m,
        labels_in_range(actual, m, n),
    ensures
        column_pairs(actual, predicted, m, p, n) == label_count(predicted, m, p),
    decreases m,
{
    if m > 0 {
        lemma_column_pairs_is_label_count(actual, predicted, m - 1, p, n);
        assert(0 <= actual[m - 1] < n);
        lemma_column_pairs_step(actual, predicted, m, p, n);
    } else {
        lemma_column_pairs_zero(actual, predicted, p, n);
    }
}

proof fn lemma_col_sum_is_column_pairs(
    cm: CountMatrix,
    actual: Seq<i32>,
    predicted: Seq<i32>,
    n: int,
    p: int,
    k: int,
)
    requires
        is_confusion_matrix(cm, actual, predicted, n),
        0 <= p < n,
        0 <= k <= n,
    ensures
        col_sum(cm, p, k) == column_pairs(actual, predicted, zip_len(actual, predicted), p, k),
    decreases k,
{
    if k > 0 {
        lemma_col_sum_is_column_pairs(cm, actual, predicted, n, p, k - 1);
        assert(cm.cell(k - 1, p) == pair_count(
            actual,
            predicted,
            zip_len(actual, predicted),
            k - 1,
            p,
        ));
    }
}

/// The metrics of a class count rows of the labels they were built from:
/// support and the recall denominator are the rows whose true label is the
/// class, the precision denominator the rows predicted as the class, and
/// both numerators the rows that are the class and were predicted as it.
pub proof fn lemma_class_metrics_count_rows(
    cm: CountMatrix,
    actual: Seq<i32>,
    predicted: Seq<i32>,
    n: int,
    i: int,
)
    requires
        is_confusion_matrix(cm, actual, predicted, n),
        labels_in_range(actual, zip_len(actual, predicted), n),
        labels_in_range(predicted, zip_len(actual, predicted), n),
        actual.len() <= usize::MAX,
        0 <= i < n,
    ensures
        ({
            let m = class_metrics(cm, i, n);
            let rows = zip_len(actual, predicted);
            &&& m.support as int == label_count(actual, rows, i)
            &&& m.recall.den as int == label_count(actual, rows, i)
            &&& m.precision.den as int == label_count(predicted, rows, i)
            &&& m.recall.num as int == pair_count(actual, predicted, rows, i, i)
            &&& m.precision.num as int == pair_count(actual, predicted, rows, i, i)
            &&& m.f1.den as int == label_count(actual, rows, i) + label_count(predicted, rows, i)
        }),
{
    let rows = zip_len(actual, predicted);
    lemma_support_counts_true_labels(cm, actual, predicted, n, i);
    lemma_col_sum_is_column_pairs(cm, actual, predicted, n, i, n);
    lemma_column_pairs_is_label_count(actual, predicted, rows, i, n);
    lemma_label_count_bounded(actual, rows, i);
    lemma_label_count_bounded(predicted, rows, i);
    lemma_pair_count_bounded(actual, predicted, rows, i, i);
    assert(cm.cell(i, i) == pair_count(actual, predicted, rows, i, i));
}

}
