//! k-nn classification spread over a Rayon thread pool: the distances to the
//! training samples, and the test samples, are computed in parallel.
use vstd::prelude::*;
use ::rayon::iter::{IntoParallelIterator, ParallelIterator};
use rayon_core::{ThreadPool, ThreadPoolBuilder};
use crate::bench::{
    clock_elapsed, clock_now, duration_nanos, max_duration_ns, process_memory_kb, DistanceMetric, Results,
};
use crate::knn::{
    bench_ok, classify_ok, is_knn_vote, lemma_matches_all_agree, lemma_matches_counts_positions, classify_spec, correct_count, count_matches, distance_entry, distance_table,
    is_nearest_split, predictions, selection_by_distance, vote_nearest, Neighbour,
};
use crate::pre_processing::{lemma_row_bounds, MnistDataset};

verus! {

#[verifier::external_type_specification]
#[verifier::external_body]
pub struct ExThreadPool(ThreadPool);

/// `(0..n).into_par_iter().map(f).collect::<Vec<_>>()`: calls `f` on every
/// index below `n`, in parallel, and collects the results in index order
/// (Rayon's collection of an indexed parallel iterator keeps its order).
#[verifier::external_body]
fn par_map_indices<T: Send, F: Fn(usize) -> T + Sync + Send>(n: usize, f: F) -> (r: Vec<T>)
    requires
        forall|i: usize| i < n ==> f.requires((i,)),
    ensures
        r@.len() == n,
        forall|i: int| 0 <= i < n ==> f.ensures((i as usize,), #[trigger] r@[i]),
{
    (0..n).into_par_iter().map(f).collect()
}

/// `ThreadPoolBuilder::new().num_threads(n).build()`: a new pool of `n`
/// threads (0 lets Rayon choose). Where the machine cannot start the
/// threads, `build` returns an error and the program stops with the message
/// "failed to build rayon thread pool". Whether threads can be started
/// depends on the machine, so nothing is stated of the pool. The three
/// builder calls stand in one wrapper because the builder's type names a
/// private type of rayon-core that cannot be declared.
#[verifier::external_body]
fn build_pool(num_threads: usize) -> ThreadPool {
    ThreadPoolBuilder::new().num_threads(num_threads).build().expect("failed to build rayon thread pool")
}

/// `ThreadPool::install`: runs `op` inside the pool and returns its result.
#[verifier::external_body]
fn run_in_pool<R: Send, F: FnOnce() -> R + Send>(pool: &ThreadPool, op: F) -> (r: R)
    requires
        op.requires(()),
    ensures
        op.ensures((), r),
{
    pool.install(op)
}

/// `rayon::current_num_threads`: the number of threads of the current pool.
/// It depends on the machine, so nothing is stated.
#[verifier::external_body]
fn current_num_threads() -> usize {
    rayon_core::current_num_threads()
}

/// Classifies `image` by majority vote over its `k` nearest training
/// samples; the distances are computed in parallel.
pub fn classify_one(train: &MnistDataset, image: &[u8], k: usize, metric: DistanceMetric) -> (label: u8)
    requires
        classify_ok(train, image@, k),
    ensures
        label == classify_spec(train, image@, k, metric),
        is_nearest_split(
            distance_table(train, image@, metric),
            selection_by_distance(distance_table(train, image@, metric), (k - 1) as usize),
            k as nat,
        ),
        is_knn_vote(distance_table(train, image@, metric), k as nat, label),
{
    let n = train.len();
    let entry = |i: usize| -> (e: Neighbour)
        requires
            classify_ok(train, image@, k),
            i < train.labels@.len(),
        ensures
            e == distance_table(train, image@, metric)[i as int],
        { distance_entry(train, image, i, metric) };
    let distances = par_map_indices(n, entry);
    assert(distances@ =~= distance_table(train, image@, metric));
    vote_nearest(distances, k)
}

/// Predictions for every test sample, computed in parallel.
fn classify_all(train: &MnistDataset, test: &MnistDataset, k: usize, metric: DistanceMetric) -> (p: Vec<u8>)
    requires
        bench_ok(train, test, k),
    ensures
        p@ == predictions(train, test, k, metric),
{
    let n = test.len();
    let one = |i: usize| -> (label: u8)
        requires
            bench_ok(train, test, k),
            i < test.labels@.len(),
        ensures
            label == classify_spec(train, test.image_at(i as int), k, metric),
        {
            proof {
                lemma_row_bounds(i as int, test.image_size as int, test.labels@.len() as int);
            }
            classify_one(train, test.image(i), k, metric)
        };
    let p = par_map_indices(n, one);
    assert(p@ =~= predictions(train, test, k, metric));
    p
}

/// Runs the Rayon parallel k-nn with the current pool's thread count.
pub fn bench(train: &MnistDataset, test: &MnistDataset, k: usize, metric: DistanceMetric) -> (r: Results)
    requires
        bench_ok(train, test, k),
    ensures
        r.correct == correct_count(train, test, k, metric),
        r.total == test.labels@.len(),
        r.correct <= r.total,
        r.distance_metric == metric,
        r.elapsed_ns <= max_duration_ns(),
        -(u64::MAX / 1024) <= r.memory_delta_kb <= u64::MAX / 1024,
        r.correct == Set::new(
            |i: int| 0 <= i < test.labels@.len() && predictions(train, test, k, metric)[i] == test.labels@[i],
        ).len(),
        (r.correct == r.total) <==> (forall|i: int|
            0 <= i < test.labels@.len() ==> #[trigger] predictions(train, test, k, metric)[i] == test.labels@[i]),
{
    proof {
        lemma_matches_all_agree(predictions(train, test, k, metric), test.labels@);
        lemma_matches_counts_positions(predictions(train, test, k, metric), test.labels@);
        assert(Set::new(
            |i: int| 0 <= i < test.labels@.len() && predictions(train, test, k, metric)[i] == test.labels@[i],
        ) =~= Set::new(
            |i: int| 0 <= i < predictions(train, test, k, metric).len() && i < test.labels@.len()
                && predictions(train, test, k, metric)[i] == test.labels@[i],
        ));
    }
    bench_with_threads(train, test, k, current_num_threads(), metric)
}

/// Runs the Rayon parallel k-nn on a pool of its own with `num_threads`
/// threads (0 lets Rayon choose), so that the global pool is not affected.
/// Where the machine cannot start the pool's threads, the program stops.
/// The predictions do not depend on the number of threads.
pub fn bench_with_threads(
    train: &MnistDataset,
    test: &MnistDataset,
    k: usize,
    num_threads: usize,
    metric: DistanceMetric,
) -> (r: Results)
    requires
        bench_ok(train, test, k),
    ensures
        r.correct == correct_count(train, test, k, metric),
        r.total == test.labels@.len(),
        r.correct <= r.total,
        r.distance_metric == metric,
        r.elapsed_ns <= max_duration_ns(),
        -(u64::MAX / 1024) <= r.memory_delta_kb <= u64::MAX / 1024,
        r.correct == Set::new(
            |i: int| 0 <= i < test.labels@.len() && predictions(train, test, k, metric)[i] == test.labels@[i],
        ).len(),
        (r.correct == r.total) <==> (forall|i: int|
            0 <= i < test.labels@.len() ==> #[trigger] predictions(train, test, k, metric)[i] == test.labels@[i]),
{
    proof {
        lemma_matches_all_agree(predictions(train, test, k, metric), test.labels@);
        lemma_matches_counts_positions(predictions(train, test, k, metric), test.labels@);
        assert(Set::new(
            |i: int| 0 <= i < test.labels@.len() && predictions(train, test, k, metric)[i] == test.labels@[i],
        ) =~= Set::new(
            |i: int| 0 <= i < predictions(train, test, k, metric).len() && i < test.labels@.len()
                && predictions(train, test, k, metric)[i] == test.labels@[i],
        ));
    }
    let pool = build_pool(num_threads);
    let mem_before = process_memory_kb();
    let start = clock_now();
    let run = || -> (p: Vec<u8>)
        requires
            bench_ok(train, test, k),
        ensures
            p@ == predictions(train, test, k, metric),
        { classify_all(train, test, k, metric) };
    let predicted = run_in_pool(&pool, run);
    let elapsed = clock_elapsed(&start);
    let elapsed_ns = duration_nanos(&elapsed);
    let mem_after = process_memory_kb();
    let correct = count_matches(predicted.as_slice(), test.labels.as_slice());
    Results::from_run(elapsed_ns, correct, test.len(), mem_before, mem_after, metric)
}

} // verus!
