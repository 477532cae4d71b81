//! The decisions of a random forest that need no floating point: how many
//! classes the targets span, how often each class occurs, the vote tally
//! of the trees, the majority vote of a row, and each class's share of the
//! votes.
use vstd::prelude::*;

use crate::metrics::Ratio;

verus! {

/// Among the first `n` targets, how many equal `c`.
pub open spec fn target_count(y: Seq<usize>, n: int, c: int) -> nat
    decreases n,
{
    if n <= 0 {
        0
    } else {
        target_count(y, n - 1, c) + if y[n - 1] == c {
            1nat
        } else {
            0nat
        }
    }
}

/// Among the first `t` trees, how many predict class `c` for row `i`.
pub open spec fn votes_for(preds: Seq<Vec<usize>>, t: int, i: int, c: int) -> nat
    decreases t,
{
    if t <= 0 {
        0
    } else {
        votes_for(preds, t - 1, i, c) + if 0 <= i < preds[t - 1]@.len() && preds[t - 1]@[i]
            == c {
            1nat
        } else {
            0nat
        }
    }
}

/// Every tree predicts at most `n_rows` rows, each as a class below
/// `n_classes`.
pub open spec fn predictions_fit(preds: Seq<Vec<usize>>, n_rows: int, n_classes: int) -> bool {
    forall|t: int|
        0 <= t < preds.len() ==> #[trigger] preds[t]@.len() <= n_rows && forall|i: int|
            0 <= i < preds[t]@.len() ==> #[trigger] preds[t]@[i] < n_classes
}

/// The sum of the first `n` entries of a row.
pub open spec fn row_total(row: Seq<usize>, n: int) -> int
    decreases n,
{
    if n <= 0 {
        0
    } else {
        row_total(row, n - 1) + row[n - 1]
    }
}

proof fn lemma_target_count_bounded(y: Seq<usize>, n: int, c: int)
    requires
        n >= 0,
    ensures
        target_count(y, n, c) <= n,
    decreases n,
{
    if n > 0 {
        lemma_target_count_bounded(y, n - 1, c);
    }
}

proof fn lemma_votes_bounded(preds: Seq<Vec<usize>>, t: int, i: int, c: int)
    requires
        t >= 0,
    ensures
        votes_for(preds, t, i, c) <= t,
    decreases t,
{
    if t > 0 {
        lemma_votes_bounded(preds, t - 1, i, c);
    }
}

/// The number of classes the targets span: one more than the largest
/// target (1 where there are none).
pub fn n_classes_of(y: &[usize]) -> (n: usize)
    requires
        forall|k: int| 0 <= k < y.len() ==> #[trigger] y@[k] < usize::MAX,
    ensures
        forall|k: int| 0 <= k < y.len() ==> #[trigger] y@[k] < n,
        y.len() == 0 ==> n == 1,
        y.len() > 0 ==> exists|k: int| 0 <= k < y.len() && #[trigger] y@[k] + 1 == n,
{
    let mut max: usize = 0;
    let mut k: usize = 0;
    while k < y.len()
        invariant
            k <= y.len(),
            forall|j: int| 0 <= j < y.len() ==> #[trigger] y@[j] < usize::MAX,
            forall|j: int| 0 <= j < k ==> #[trigger] y@[j] <= max,
            k == 0 ==> max == 0,
            k > 0 ==> exists|j: int| 0 <= j < k && #[trigger] y@[j] == max,
        decreases y.len() - k,
    {
        if y[k] > max || k == 0 {
            max = y[k];
        }
        k = k + 1;
    }
    max + 1
}

/// How often each class occurs among the targets, for classes
/// `0..n_classes_of(y)`.
pub fn class_counts(y: &[usize]) -> (counts: Vec<usize>)
    requires
        forall|k: int| 0 <= k < y.len() ==> #[trigger] y@[k] < usize::MAX,
    ensures
        forall|k: int| 0 <= k < y.len() ==> #[trigger] y@[k] < counts.len(),
        y.len() == 0 ==> counts.len() == 1,
        y.len() > 0 ==> exists|k: int| 0 <= k < y.len() && #[trigger] y@[k] + 1 == counts.len(),
        forall|c: int| 0 <= c < counts.len() ==> #[trigger] counts@[c] == target_count(y@, y.len() as int, c),
{
    let n = n_classes_of(y);
    let mut counts: Vec<usize> = Vec::new();
    let mut c: usize = 0;
    while c < n
        invariant
            c <= n,
            counts.len() == c,
            forall|j: int| 0 <= j < c ==> #[trigger] counts@[j] == 0,
        decreases n - c,
    {
        counts.push(0);
        c = c + 1;
    }
    let mut k: usize = 0;
    while k < y.len()
        invariant
            k <= y.len(),
            counts.len() == n,
            forall|j: int| 0 <= j < y.len() ==> #[trigger] y@[j] < n,
            forall|j: int| 0 <= j < n ==> #[trigger] counts@[j] == target_count(y@, k as int, j),
        decreases y.len() - k,
    {
        let v = y[k];
        proof {
            lemma_target_count_bounded(y@, k as int, v as int);
        }
        counts.set(v, counts[v] + 1);
        k = k + 1;
    }
    counts
}

/// The votes of the trees: entry `[i][c]` counts the trees that predict
/// class `c` for row `i`.
pub fn tally_votes(preds: &Vec<Vec<usize>>, n_rows: usize, n_classes: usize) -> (votes: Vec<Vec<usize>>)
    requires
        predictions_fit(preds@, n_rows as int, n_classes as int),
    ensures
        votes.len() == n_rows,
        forall|i: int| 0 <= i < n_rows ==> (#[trigger] votes@[i]).len() == n_classes,
        forall|i: int, c: int|
            0 <= i < n_rows && 0 <= c < n_classes ==> #[trigger] votes@[i]@[c] == votes_for(
                preds@,
                preds.len() as int,
                i,
                c,
            ),
{
    let n_trees = preds.len();
    let mut votes: Vec<Vec<usize>> = Vec::new();
    let mut i: usize = 0;
    while i < n_rows
        invariant
            n_trees == preds.len(),
            predictions_fit(preds@, n_rows as int, n_classes as int),
            i <= n_rows,
            votes.len() == i,
            forall|r: int| 0 <= r < i ==> (#[trigger] votes@[r]).len() == n_classes,
            forall|r: int, c: int|
                0 <= r < i && 0 <= c < n_classes ==> #[trigger] votes@[r]@[c] == votes_for(
                    preds@,
                    n_trees as int,
                    r,
                    c,
                ),
        decreases n_rows - i,
    {
        let mut row: Vec<usize> = Vec::new();
        let mut c: usize = 0;
        while c < n_classes
            invariant
                c <= n_classes,
                row.len() == c,
                forall|j: int| 0 <= j < c ==> #[trigger] row@[j] == 0,
            decreases n_classes - c,
        {
            row.push(0);
            c = c + 1;
        }
        let mut t: usize = 0;
        while t < n_trees
            invariant
                n_trees == preds.len(),
                predictions_fit(preds@, n_rows as int, n_classes as int),
                i < n_rows,
                t <= n_trees,
                row.len() == n_classes,
                forall|j: int| 0 <= j < n_classes ==> #[trigger] row@[j] == votes_for(preds@, t as int, i as int, j),
            decreases n_trees - t,
        {
            if i < preds[t].len() {
                let p = preds[t][i];
                assert(preds@[t as int]@.len() <= n_rows);
                proof {
                    lemma_votes_bounded(preds@, t as int, i as int, p as int);
                }
                row.set(p, row[p] + 1);
            }
            t = t + 1;
        }
        votes.push(row);
        i = i + 1;
    }
    votes
}

/// The class with the most votes; among equally voted classes, the last.
pub fn majority_vote(row: &[usize]) -> (best: usize)
    requires
        row.len() > 0,
    ensures
        best < row.len(),
        forall|j: int| 0 <= j < row.len() ==> #[trigger] row@[j] <= row@[best as int],
        forall|j: int| best < j < row.len() ==> #[trigger] row@[j] < row@[best as int],
{
    let mut best: usize = 0;
    let mut j: usize = 1;
    while j < row.len()
        invariant
            1 <= j <= row.len(),
            best < j,
            forall|k: int| 0 <= k < j ==> #[trigger] row@[k] <= row@[best as int],
            forall|k: int| best < k < j ==> #[trigger] row@[k] < row@[best as int],
        decreases row.len() - j,
    {
        if row[j] >= row[best] {
            best = j;
        }
        j = j + 1;
    }
    best
}

/// Each class's share of a row's votes: its votes over the number of trees
/// (over 1 where there are no trees).
pub fn vote_shares(votes: &Vec<Vec<usize>>, n_trees: usize) -> (shares: Vec<Vec<Ratio>>)
    ensures
        shares.len() == votes.len(),
        forall|i: int| 0 <= i < votes.len() ==> (#[trigger] shares@[i]).len() == votes@[i].len(),
        forall|i: int, c: int|
            0 <= i < votes.len() && 0 <= c < votes@[i].len() ==> #[trigger] shares@[i]@[c]
                == (Ratio {
                    num: votes@[i]@[c] as u128,
                    den: if n_trees == 0 { 1 } else { n_trees as u128 },
                }),
{
    let total: u128 = if n_trees == 0 {
        1
    } else {
        n_trees as u128
    };
    let mut shares: Vec<Vec<Ratio>> = Vec::new();
    let mut i: usize = 0;
    while i < votes.len()
        invariant
            i <= votes.len(),
            total == (if n_trees == 0 { 1 } else { n_trees as u128 }),
            shares.len() == i,
            forall|r: int| 0 <= r < i ==> (#[trigger] shares@[r]).len() == votes@[r].len(),
            forall|r: int, c: int|
                0 <= r < i && 0 <= c < votes@[r].len() ==> #[trigger] shares@[r]@[c] == (Ratio {
                    num: votes@[r]@[c] as u128,
                    den: total,
                }),
        decreases votes.len() - i,
    {
        let mut row: Vec<Ratio> = Vec::new();
        let mut c: usize = 0;
        while c < votes[i].len()
            invariant
                i < votes.len(),
                c <= votes@[i as int].len(),
                row.len() == c,
                forall|j: int| 0 <= j < c ==> #[trigger] row@[j] == (Ratio {
                    num: votes@[i as int]@[j] as u128,
                    den: total,
                }),
            decreases votes@[i as int].len() - c,
        {
            row.push(Ratio { num: votes[i][c] as u128, den: total });
            c = c + 1;
        }
        shares.push(row);
        i = i + 1;
    }
    shares
}

/// The votes a row gets over classes below `n`.
pub open spec fn row_votes(preds: Seq<Vec<usize>>, t: int, i: int, n: int) -> int
    decreases n,
{
    if n <= 0 {
        0
    } else {
        row_votes(preds, t, i, n - 1) + votes_for(preds, t, i, n - 1)
    }
}

proof fn lemma_row_votes_step(preds: Seq<Vec<usize>>, t: int, i: int, n: int)
    requires
        t > 0,
        n >= 0,
    ensures
        row_votes(preds, t, i, n) == row_votes(preds, t - 1, i, n) + (if 0 <= i
            < preds[t - 1]@.len() && preds[t - 1]@[i] < n {
            1int
        } else {
            0int
        }),
    decreases n,
{
    if n > 0 {
        lemma_row_votes_step(preds, t, i, n - 1);
    }
}

proof fn lemma_row_votes_zero(preds: Seq<Vec<usize>>, i: int, n: int)
    ensures
        row_votes(preds, 0, i, n) == 0,
    decreases n,
{
    if n > 0 {
        lemma_row_votes_zero(preds, i, n - 1);
    }
}

/// Where every tree predicts every row, each row gets one vote per tree:
/// the votes over all classes add up to the number of trees, so the vote
/// shares of a row add up to one.
pub proof fn lemma_votes_sum_to_trees(preds: Seq<Vec<usize>>, n_rows: int, n_classes: int, i: int, t: int)
    requires
        predictions_fit(preds, n_rows, n_classes),
        forall|k: int| 0 <= k < preds.len() ==> (#[trigger] preds[k])@.len() == n_rows,
        0 <= i < n_rows,
        0 <= t <= preds.len(),
    ensures
        row_votes(preds, t, i, n_classes) == t,
    decreases t,
{
    if t > 0 {
        lemma_votes_sum_to_trees(preds, n_rows, n_classes, i, t - 1);
        assert(preds[t - 1]@.len() == n_rows);
        assert(preds[t - 1]@[i] < n_classes);
        lemma_row_votes_step(preds, t, i, n_classes);
    } else {
        lemma_row_votes_zero(preds, i, n_classes);
    }
}

}
