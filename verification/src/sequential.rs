//! k-nn classification on the calling thread.
use vstd::prelude::*;
use crate::bench::{
    clock_elapsed, clock_now, duration_nanos, max_duration_ns, process_memory_kb, DistanceMetric, Results,
};
use crate::knn::{
    bench_ok, classify_ok, is_knn_vote, lemma_matches_all_agree, lemma_matches_counts_positions, classify_spec, correct_count, distance_entry, distance_table, is_nearest_split,
    matches_prefix, predictions, selection_by_distance, vote_nearest,
};
use crate::pre_processing::{lemma_row_bounds, MnistDataset};

verus! {

/// Classifies `image` by majority vote over its `k` nearest training samples.
pub fn classify_one(train: &MnistDataset, image: &[u8], k: usize, metric: DistanceMetric) -> (label: u8)
    requires
        classify_ok(train, image@, k),
    ensures
        label == classify_spec(train, image@, k, metric),
        is_nearest_split(
            distance_table(train, image@, metric),
            selection_by_distance(distance_table(train, image@, metric), (k - 1) as usize),
            k as nat,
        ),
        is_knn_vote(distance_table(train, image@, metric), k as nat, label),
{
    let n = train.len();
    let mut distances: Vec<(u32, u8)> = Vec::new();
    let mut i: usize = 0;
    while i < n
        invariant
            n == train.labels@.len(),
            classify_ok(train, image@, k),
            i <= n,
            distances@ == distance_table(train, image@, metric).take(i as int),
        decreases n - i,
    {
        let e = distance_entry(train, image, i, metric);
        distances.push(e);
        proof {
            assert(distances@ =~= distance_table(train, image@, metric).take(i + 1));
        }
        i = i + 1;
    }
    assert(distances@ =~= distance_table(train, image@, metric));
    vote_nearest(distances, k)
}

/// Runs sequential k-nn over every test sample and returns the metrics of the run.
pub fn bench(train: &MnistDataset, test: &MnistDataset, k: usize, metric: DistanceMetric) -> (r: Results)
    requires
        bench_ok(train, test, k),
    ensures
        r.correct == correct_count(train, test, k, metric),
        r.total == test.labels@.len(),
        r.correct <= r.total,
        r.distance_metric == metric,
        r.elapsed_ns <= max_duration_ns(),
        -(u64::MAX / 1024) <= r.memory_delta_kb <= u64::MAX / 1024,
        r.correct == Set::new(
            |i: int| 0 <= i < test.labels@.len() && predictions(train, test, k, metric)[i] == test.labels@[i],
        ).len(),
        (r.correct == r.total) <==> (forall|i: int|
            0 <= i < test.labels@.len() ==> #[trigger] predictions(train, test, k, metric)[i] == test.labels@[i]),
{
    proof {
        lemma_matches_all_agree(predictions(train, test, k, metric), test.labels@);
        lemma_matches_counts_positions(predictions(train, test, k, metric), test.labels@);
        assert(Set::new(
            |i: int| 0 <= i < test.labels@.len() && predictions(train, test, k, metric)[i] == test.labels@[i],
        ) =~= Set::new(
            |i: int| 0 <= i < predictions(train, test, k, metric).len() && i < test.labels@.len()
                && predictions(train, test, k, metric)[i] == test.labels@[i],
        ));
    }
    let mem_before = process_memory_kb();
    let start = clock_now();
    let n = test.len();
    let mut correct: usize = 0;
    let mut i: usize = 0;
    while i < n
        invariant
            n == test.labels@.len(),
            bench_ok(train, test, k),
            i <= n,
            correct == matches_prefix(predictions(train, test, k, metric), test.labels@, i as nat),
            correct <= i,
        decreases n - i,
    {
        proof {
            lemma_row_bounds(i as int, test.image_size as int, test.labels@.len() as int);
        }
        let image = test.image(i);
        let predicted = classify_one(train, image, k, metric);
        if predicted == test.labels[i] {
            correct = correct + 1;
        }
        i = i + 1;
    }
    let elapsed = clock_elapsed(&start);
    let elapsed_ns = duration_nanos(&elapsed);
    let mem_after = process_memory_kb();
    Results::from_run(elapsed_ns, correct, n, mem_before, mem_after, metric)
}

} // verus!
