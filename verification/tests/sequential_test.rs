use rust_final::bench::{DistanceMetric, Results};
use rust_final::pre_processing::MnistDataset;
use rust_final::sequential;

/// Builds a tiny synthetic dataset.
/// Class 0: all-zero images (0x00). Class 1: all-one images (0xFF).
/// Image size is 1 byte (8 bit-packed pixels) to keep arithmetic trivial.
fn make_dataset() -> (MnistDataset, MnistDataset) {
    let train = MnistDataset {
        images: vec![
            0x00, // label 0
            0x00, // label 0
            0x00, // label 0
            0xFF, // label 1
            0xFF, // label 1
            0xFF, // label 1
        ],
        labels: vec![0, 0, 0, 1, 1, 1],
        image_size: 1,
    };
    // 0x01 (1 bit set)  -> nearest to class 0
    // 0xFE (7 bits set) -> nearest to class 1
    let test = MnistDataset {
        images: vec![0x01, 0xFE],
        labels: vec![0, 1],
        image_size: 1,
    };
    (train, test)
}

/// Percentage of correctly classified samples.
fn accuracy(r: &Results) -> f64 {
    100.0 * r.correct as f64 / r.total as f64
}

/// Samples classified per second.
fn throughput(r: &Results) -> f64 {
    r.total as f64 / (r.elapsed_ns as f64 / 1e9)
}

#[test]
fn sequential_test_correct_classification_k3() {
    let (train, test) = make_dataset();
    let results = sequential::bench(&train, &test, 3, DistanceMetric::Hamming);
    assert_eq!(results.correct, 2);
    assert_eq!(accuracy(&results), 100.0);
}

#[test]
fn sequential_test_correct_classification_k1() {
    let (train, test) = make_dataset();
    let results = sequential::bench(&train, &test, 1, DistanceMetric::Hamming);
    assert_eq!(results.correct, 2);
    assert_eq!(accuracy(&results), 100.0);
}

#[test]
fn sequential_test_total_matches_test_set_size() {
    let (train, test) = make_dataset();
    let results = sequential::bench(&train, &test, 3, DistanceMetric::Hamming);
    assert_eq!(results.total, test.len());
}

#[test]
fn sequential_test_throughput_is_positive() {
    let (train, test) = make_dataset();
    let results = sequential::bench(&train, &test, 3, DistanceMetric::Hamming);
    assert!(throughput(&results) > 0.0);
}
