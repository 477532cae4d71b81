//! Seeded random permutations and samples of row and column indices, and
//! the train / test split built on them. The randomness comes from `rand`;
//! what is proved holds for whatever it draws.
use vstd::prelude::*;
use vstd::seq_lib::*;
use rand::rngs::StdRng;

verus! {

#[verifier::external_type_specification]
#[verifier::external_body]
pub struct ExStdRng(rand::rngs::StdRng);

/// `perm` lists each of `0..n` exactly once.
pub open spec fn is_permutation(perm: Seq<usize>, n: nat) -> bool {
    &&& perm.len() == n
    &&& forall|i: int| 0 <= i < n ==> #[trigger] perm[i] < n
    &&& forall|k: usize| k < n ==> #[trigger] perm.contains(k)
    &&& perm.no_duplicates()
}

/// `rand::SeedableRng::seed_from_u64` for `StdRng`. Nothing is claimed of
/// the generator's state: `rand` does not promise that a seed gives the same
/// stream across versions or platforms.
#[verifier::external_body]
pub(crate) fn seeded_rng(seed: u64) -> StdRng {
    <StdRng as rand::SeedableRng>::seed_from_u64(seed)
}

/// `rand::seq::SliceRandom::shuffle`: claims only that the slice ends up a
/// rearrangement of what it held (the swaps of a Fisher-Yates shuffle);
/// which rearrangement depends on the generator.
#[verifier::external_body]
fn shuffle_in_place(v: &mut Vec<usize>, rng: &mut StdRng)
    ensures
        final(v)@.to_multiset() == old(v)@.to_multiset(),
{
    rand::seq::SliceRandom::shuffle(v.as_mut_slice(), rng);
}

/// `rand::Rng::gen_range(0..n)`: claims a value below `n`. It panics on an
/// empty range, which `requires` rules out.
#[verifier::external_body]
fn index_below(rng: &mut StdRng, n: usize) -> (i: usize)
    requires
        n > 0,
    ensures
        i < n,
{
    rand::Rng::gen_range(rng, 0..n)
}

/// `0, 1, ..., n - 1`.
fn index_range(n: usize) -> (v: Vec<usize>)
    ensures
        v.len() == n,
        forall|i: int| 0 <= i < n ==> #[trigger] v@[i] == i,
{
    let mut v: Vec<usize> = Vec::new();
    let mut i: usize = 0;
    while i < n
        invariant
            i <= n,
            v.len() == i,
            forall|k: int| 0 <= k < i ==> #[trigger] v@[k] == k,
        decreases n - i,
    {
        v.push(i);
        i = i + 1;
    }
    v
}

/// A rearrangement of `0..n` holds each of them once.
proof fn lemma_shuffled_range_is_permutation(orig: Seq<usize>, perm: Seq<usize>, n: nat)
    requires
        orig.len() == n,
        forall|i: int| 0 <= i < n ==> #[trigger] orig[i] == i,
        perm.to_multiset() == orig.to_multiset(),
    ensures
        is_permutation(perm, n),
{
    broadcast use group_to_multiset_ensures;

    assert(orig.no_duplicates());
    orig.lemma_multiset_has_no_duplicates();
    perm.lemma_multiset_has_no_duplicates_conv();
    perm.to_multiset_ensures();
    orig.to_multiset_ensures();
    assert forall|i: int| 0 <= i < n implies #[trigger] perm[i] < n by {
        assert(perm.contains(perm[i]));
        assert(orig.to_multiset().count(perm[i]) > 0);
        assert(orig.contains(perm[i]));
        let j = choose|j: int| 0 <= j < orig.len() && orig[j] == perm[i];
        assert(orig[j] == j);
    }
    assert forall|k: usize| k < n implies #[trigger] perm.contains(k) by {
        assert(orig[k as int] == k);
        assert(orig.contains(k));
        assert(perm.to_multiset().count(k) > 0);
    }
}

/// `0..n` in an order drawn from `rng`.
pub fn shuffled_indices(rng: &mut StdRng, n: usize) -> (perm: Vec<usize>)
    ensures
        is_permutation(perm@, n as nat),
{
    let mut v = index_range(n);
    let ghost orig = v@;
    shuffle_in_place(&mut v, rng);
    proof {
        lemma_shuffled_range_is_permutation(orig, v@, n as nat);
    }
    v
}

/// The rows of a train / test split.
pub struct Split<T> {
    pub train: Vec<T>,
    pub test: Vec<T>,
}

/// `test` and `train` are copies of `records` taken in the order `order`:
/// the first `test.len()` positions of `order` give `test`, the rest `train`.
pub open spec fn split_follows<T: Clone>(
    records: Seq<T>,
    order: Seq<usize>,
    test: Seq<T>,
    train: Seq<T>,
) -> bool {
    &&& order.len() == test.len() + train.len()
    &&& forall|k: int| 0 <= k < test.len() ==> cloned::<T>(records[#[trigger] order[k] as int], test[k])
    &&& forall|k: int|
        0 <= k < train.len() ==> cloned::<T>(records[order[test.len() + k] as int], #[trigger] train[k])
}

/// Shuffle the rows with a generator seeded by `seed`, then put the first
/// `n_test` of them in the test split and the rest in the train split.
/// Every row lands in exactly one of the two.
pub fn split_train_test<T: Clone>(records: &[T], n_test: usize, seed: u64) -> (split: Split<T>)
    requires
        n_test <= records.len(),
    ensures
        split.test.len() == n_test,
        split.train.len() == records.len() - n_test,
        exists|order: Seq<usize>|
            is_permutation(order, records.len() as nat) && split_follows(
                records@,
                order,
                split.test@,
                split.train@,
            ),
{
    let mut rng = seeded_rng(seed);
    let indices = shuffled_indices(&mut rng, records.len());
    let n = records.len();
    let mut test: Vec<T> = Vec::new();
    let mut k: usize = 0;
    while k < n_test
        invariant
            n == records.len(),
            n_test <= n,
            is_permutation(indices@, n as nat),
            k <= n_test,
            test.len() == k,
            forall|j: int| 0 <= j < k ==> cloned::<T>(records@[#[trigger] indices@[j] as int], test@[j]),
        decreases n_test - k,
    {
        let i = indices[k];
        test.push(records[i].clone());
        k = k + 1;
    }
    let mut train: Vec<T> = Vec::new();
    let mut k: usize = n_test;
    while k < n
        invariant
            n == records.len(),
            n_test <= k <= n,
            is_permutation(indices@, n as nat),
            train.len() == k - n_test,
            forall|j: int|
                0 <= j < k - n_test ==> cloned::<T>(
                    records@[indices@[n_test + j] as int],
                    #[trigger] train@[j],
                ),
        decreases n - k,
    {
        let i = indices[k];
        train.push(records[i].clone());
        k = k + 1;
    }
    assert(split_follows(records@, indices@, test@, train@));
    Split { train, test }
}

/// Every row lands in exactly one place of a split: exactly one position of
/// `test` followed by `train` was taken from row `k`, and it holds a copy of
/// that row.
pub proof fn lemma_each_row_lands_once<T: Clone>(
    records: Seq<T>,
    order: Seq<usize>,
    test: Seq<T>,
    train: Seq<T>,
    k: usize,
)
    requires
        is_permutation(order, records.len()),
        split_follows(records, order, test, train),
        k < records.len(),
    ensures
        exists|p: int|
            0 <= p < test.len() + train.len() && order[p] == k && cloned::<T>(
                records[k as int],
                #[trigger] (test + train)[p],
            ),
        forall|p: int, q: int|
            0 <= p < order.len() && 0 <= q < order.len() && #[trigger] order[p] == k && #[trigger] order[q]
                == k ==> p == q,
{
    assert(order.contains(k));
    let p = choose|p: int| 0 <= p < order.len() && order[p] == k;
    if p < test.len() {
        assert((test + train)[p] == test[p]);
        assert(cloned::<T>(records[order[p] as int], test[p]));
    } else {
        let q = p - test.len();
        assert((test + train)[p] == train[q]);
        assert(cloned::<T>(records[order[test.len() + q] as int], train[q]));
    }
}

/// The column subset of one tree: `k` distinct columns out of `n_total`,
/// the first `k` of a shuffled `0..n_total`.
pub fn feature_subset(rng: &mut StdRng, n_total: usize, k: usize) -> (chosen: Vec<usize>)
    requires
        k <= n_total,
    ensures
        chosen.len() == k,
        chosen@.no_duplicates(),
        forall|i: int| 0 <= i < k ==> #[trigger] chosen@[i] < n_total,
{
    let feats = shuffled_indices(rng, n_total);
    let mut chosen: Vec<usize> = Vec::new();
    let mut i: usize = 0;
    while i < k
        invariant
            k <= n_total,
            is_permutation(feats@, n_total as nat),
            i <= k,
            chosen@ == feats@.take(i as int),
        decreases k - i,
    {
        chosen.push(feats[i]);
        i = i + 1;
        assert(chosen@ =~= feats@.take(i as int));
    }
    chosen
}

/// The bootstrap rows of one tree: `n` row indices drawn uniformly with
/// replacement from `0..n`.
pub fn bootstrap_rows(rng: &mut StdRng, n: usize) -> (rows: Vec<usize>)
    ensures
        rows.len() == n,
        forall|i: int| 0 <= i < n ==> #[trigger] rows@[i] < n,
{
    let mut rows: Vec<usize> = Vec::new();
    let mut i: usize = 0;
    while i < n
        invariant
            i <= n,
            rows.len() == i,
            forall|j: int| 0 <= j < i ==> #[trigger] rows@[j] < n,
        decreases n - i,
    {
        rows.push(index_below(rng, n));
        i = i + 1;
    }
    rows
}

}
