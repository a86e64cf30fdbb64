use rust_final::bench::{process_memory_kb, DistanceMetric, Results};
use rust_final::distance::{euclidean_distance, hamming_distance, hamming_fits_u32};
use rust_final::knn::{count_matches, distance, majority_vote, vote_nearest};
use rust_final::pre_processing::{
    decode_preprocessed, find_load_fault, lacks_preprocessed_magic, load, read_u32_be, LoadError, LoadFault, MnistDataset,
};
use rust_final::std_thread::{chunk_bounds, chunk_size, classify_chunk, classify_range, join_chunks};
use rust_final::{rayon, sequential};

fn make_dataset() -> (MnistDataset, MnistDataset) {
    let train = MnistDataset {
        images: vec![0x00, 0x00, 0x00, 0xFF, 0xFF, 0xFF],
        labels: vec![0, 0, 0, 1, 1, 1],
        image_size: 1,
    };
    let test = MnistDataset { images: vec![0x01, 0xFE], labels: vec![0, 1], image_size: 1 };
    (train, test)
}

fn result_with_elapsed(elapsed_ns: u128) -> Results {
    Results {
        elapsed_ns,
        correct: 0,
        total: 0,
        memory_delta_kb: 0,
        distance_metric: DistanceMetric::Hamming,
    }
}

fn idx_images(count: u32, rows: u32, cols: u32, data: &[u8]) -> Vec<u8> {
    let mut v = vec![0x00, 0x00, 0x08, 0x03];
    v.extend_from_slice(&count.to_be_bytes());
    v.extend_from_slice(&rows.to_be_bytes());
    v.extend_from_slice(&cols.to_be_bytes());
    v.extend_from_slice(data);
    v
}

fn idx_labels(count: u32, data: &[u8]) -> Vec<u8> {
    let mut v = vec![0x00, 0x00, 0x08, 0x01];
    v.extend_from_slice(&count.to_be_bytes());
    v.extend_from_slice(data);
    v
}

#[test]
fn hamming_counts_differing_bits() {
    assert_eq!(hamming_distance(&[0x0F, 0xFF], &[0xF0, 0xFF]), 8);
    assert_eq!(hamming_distance(&[0x01], &[0x00]), 1);
    assert_eq!(hamming_distance(&[], &[0xFF]), 0);
}

#[test]
fn hamming_cuts_to_shorter_input() {
    assert_eq!(hamming_distance(&[0xFF, 0x01], &[0x00]), 8);
    assert_eq!(hamming_distance(&[0x00], &[0x0F, 0xFF]), 4);
}

#[test]
fn euclidean_equals_hamming_on_packed_bits() {
    assert_eq!(euclidean_distance(&[0b1010_1010], &[0b0101_0101]), 8);
    assert_eq!(euclidean_distance(&[0x81, 0x00, 0x3C], &[0x01, 0xFF, 0x3C]), 9);
    assert_eq!(
        euclidean_distance(&[0x81, 0x00, 0x3C], &[0x01, 0xFF, 0x3C]),
        hamming_distance(&[0x81, 0x00, 0x3C], &[0x01, 0xFF, 0x3C])
    );
    assert_eq!(distance(DistanceMetric::Euclidean, &[0x0F], &[0x00]), 4);
    assert_eq!(distance(DistanceMetric::Hamming, &[0x0F], &[0x00]), 4);
}

#[test]
fn binarize_packs_msb_first_with_zero_padding() {
    let mut d = MnistDataset {
        images: vec![200, 0, 128, 127, 255, 0, 0, 0, 130, 10, 0, 255, 0, 0, 0, 0, 0, 0, 0, 255],
        labels: vec![7, 3],
        image_size: 10,
    };
    d.binarize(128);
    assert_eq!(d.image_size, 2);
    assert_eq!(d.images, vec![0xA8, 0x80, 0x40, 0x40]);
    assert_eq!(d.labels, vec![7, 3]);
}

#[test]
fn binarize_multiple_of_eight_and_empty() {
    let mut d = MnistDataset { images: vec![1, 2, 3, 4, 5, 6, 7, 8], labels: vec![0], image_size: 8 };
    d.binarize(5);
    assert_eq!(d.image_size, 1);
    assert_eq!(d.images, vec![0x0F]);
    let mut e = MnistDataset { images: vec![], labels: vec![], image_size: 784 };
    e.binarize(128);
    assert_eq!(e.image_size, 98);
    assert!(e.images.is_empty());
}

#[test]
fn binarized_hamming_counts_differing_pixels() {
    let mut d = MnistDataset {
        images: vec![200, 0, 128, 127, 255, 0, 0, 0, 130, 10, 0, 255, 0, 0, 0, 0, 0, 0, 0, 255],
        labels: vec![7, 3],
        image_size: 10,
    };
    d.binarize(128);
    // Pixels on: image 0 at 0, 2, 4, 8; image 1 at 1, 9: they differ at six pixels.
    assert_eq!(hamming_distance(d.image(0), d.image(1)), 6);
}

#[test]
fn image_and_subset() {
    let d = MnistDataset { images: vec![1, 2, 3, 4, 5, 6], labels: vec![0, 1, 2], image_size: 2 };
    assert_eq!(d.len(), 3);
    assert_eq!(d.image(1), &[3, 4]);
    let s = d.subset(2);
    assert_eq!(s.images, vec![1, 2, 3, 4]);
    assert_eq!(s.labels, vec![0, 1]);
    assert_eq!(s.image_size, 2);
    let all = d.subset(10);
    assert_eq!(all.len(), 3);
    assert_eq!(all.images, d.images);
    assert_eq!(d.subset(0).len(), 0);
}

#[test]
fn read_u32_be_reads_four_bytes() {
    assert_eq!(read_u32_be(&[0, 0, 8, 3, 9], 0), Some(2051));
    assert_eq!(read_u32_be(&[0, 0, 8, 3, 9], 1), Some(0x0008_0309));
    assert_eq!(read_u32_be(&[0, 0, 8, 3, 9], 2), None);
    assert_eq!(read_u32_be(&[1, 2], 5), None);
}

#[test]
fn load_reads_idx_files() {
    let images = idx_images(2, 1, 2, &[10, 20, 30, 40, 99]);
    let labels = idx_labels(2, &[4, 9]);
    let d = load(&images, &labels).unwrap();
    assert_eq!(d.images, vec![10, 20, 30, 40]);
    assert_eq!(d.labels, vec![4, 9]);
    assert_eq!(d.image_size, 2);
}

#[test]
fn load_faults_on_bad_magic_numbers() {
    let mut images = idx_images(1, 1, 1, &[0]);
    images[3] = 0x04;
    assert_eq!(find_load_fault(&images, &idx_labels(1, &[0])), Some(LoadFault::ImagesMagic(2052)));
    let mut labels = idx_labels(1, &[0]);
    labels[3] = 0x03;
    assert_eq!(find_load_fault(&idx_images(1, 1, 1, &[0]), &labels), Some(LoadFault::LabelsMagic(2051)));
    // A truncated images file is read (and fails) before the labels file.
    assert_eq!(find_load_fault(&idx_images(2, 1, 1, &[0]), &labels), None);
}

#[test]
fn load_rejects_truncated_files() {
    assert_eq!(find_load_fault(&[0, 0, 8], &idx_labels(0, &[])), None);
    assert_eq!(load(&[0, 0, 8], &idx_labels(0, &[])).unwrap_err(), LoadError::UnexpectedEof);
    assert_eq!(load(&idx_images(2, 1, 2, &[1, 2, 3]), &idx_labels(2, &[0, 1])).unwrap_err(), LoadError::UnexpectedEof);
    assert_eq!(find_load_fault(&idx_images(1, 1, 1, &[1]), &idx_labels(2, &[0])), None);
    assert_eq!(load(&idx_images(1, 1, 1, &[1]), &idx_labels(2, &[0])).unwrap_err(), LoadError::UnexpectedEof);
    assert_eq!(load(&idx_images(1, 1, 1, &[1])[..10], &idx_labels(1, &[0])).unwrap_err(), LoadError::UnexpectedEof);
}

#[test]
fn load_faults_on_count_mismatch_and_zero_size() {
    assert_eq!(
        find_load_fault(&idx_images(2, 1, 1, &[1, 2]), &idx_labels(3, &[0, 1, 2])),
        Some(LoadFault::CountMismatch { labels: 3, images: 2 })
    );
    assert_eq!(find_load_fault(&idx_images(2, 0, 5, &[]), &idx_labels(2, &[0, 1])), Some(LoadFault::ZeroImageSize));
    assert_eq!(find_load_fault(&idx_images(2, 1, 2, &[1, 2, 3, 4]), &idx_labels(2, &[0, 1])), None);
}

#[test]
fn preprocessed_encoding_is_exact() {
    let d = MnistDataset { images: vec![1, 2, 3, 4], labels: vec![5, 6], image_size: 2 };
    assert_eq!(
        d.encode_preprocessed(),
        vec![b'M', b'N', b'I', b'B', 2, 0, 0, 0, 2, 0, 0, 0, 1, 2, 3, 4, 5, 6]
    );
}

#[test]
fn preprocessed_roundtrip() {
    let d = MnistDataset { images: vec![9, 8, 7, 6, 5, 4], labels: vec![1, 2, 3], image_size: 2 };
    let back = decode_preprocessed(&d.encode_preprocessed()).unwrap();
    assert_eq!(back.images, d.images);
    assert_eq!(back.labels, d.labels);
    assert_eq!(back.image_size, d.image_size);
}

#[test]
fn decode_preprocessed_errors() {
    assert!(!lacks_preprocessed_magic(b"MNI"));
    assert_eq!(decode_preprocessed(b"MNI").unwrap_err(), LoadError::UnexpectedEof);
    assert!(lacks_preprocessed_magic(b"MNIX\x00\x00\x00\x00\x00\x00\x00\x00"));
    assert!(!lacks_preprocessed_magic(b"MNIB\x01\x00\x00"));
    assert_eq!(decode_preprocessed(b"MNIB\x01\x00\x00").unwrap_err(), LoadError::UnexpectedEof);
    assert_eq!(
        decode_preprocessed(b"MNIB\x01\x00\x00\x00\x02\x00\x00\x00\x01\x02").unwrap_err(),
        LoadError::UnexpectedEof
    );
    let ok = decode_preprocessed(b"MNIB\x01\x00\x00\x00\x02\x00\x00\x00\x01\x02\x07\xFF").unwrap();
    assert_eq!(ok.images, vec![1, 2]);
    assert_eq!(ok.labels, vec![7]);
}

#[test]
fn parallel_overhead_saturates() {
    let r = result_with_elapsed(100);
    assert_eq!(r.parallel_overhead(&result_with_elapsed(250), 4), 150);
    assert_eq!(r.parallel_overhead(&result_with_elapsed(500), 4), 0);
    assert_eq!(r.parallel_overhead(&result_with_elapsed(0), 1), 100);
}

#[test]
fn majority_vote_prefers_largest_label_on_tie() {
    let nb = vec![(1, 3), (2, 5), (3, 3), (4, 5)];
    assert_eq!(majority_vote(&nb, 4), 5);
    assert_eq!(majority_vote(&nb, 3), 3);
    assert_eq!(majority_vote(&nb, 1), 3);
    assert_eq!(majority_vote(&nb, 0), 9);
}

#[test]
fn vote_nearest_selects_smallest_distances() {
    let table = vec![(9, 1), (8, 1), (1, 2), (2, 2), (3, 2)];
    assert_eq!(vote_nearest(table, 2), 2);
    let table = vec![(5, 4), (1, 6), (2, 4), (3, 6), (4, 4)];
    assert_eq!(vote_nearest(table, 1), 6);
    let table = vec![(5, 4), (1, 6), (2, 4), (3, 6), (4, 4)];
    assert_eq!(vote_nearest(table, 5), 4);
}

#[test]
fn classify_one_sequential_and_rayon() {
    let (train, _) = make_dataset();
    assert_eq!(sequential::classify_one(&train, &[0x01], 3, DistanceMetric::Hamming), 0);
    assert_eq!(sequential::classify_one(&train, &[0xFE], 3, DistanceMetric::Euclidean), 1);
    assert_eq!(rayon::classify_one(&train, &[0x03], 5, DistanceMetric::Hamming), 0);
    assert_eq!(rayon::classify_one(&train, &[0xF7], 1, DistanceMetric::Euclidean), 1);
}

#[test]
fn euclidean_bench_matches_hamming_bench() {
    let (train, test) = make_dataset();
    let h = sequential::bench(&train, &test, 3, DistanceMetric::Hamming);
    let e = sequential::bench(&train, &test, 3, DistanceMetric::Euclidean);
    assert_eq!(h.correct, e.correct);
    assert_eq!(e.distance_metric, DistanceMetric::Euclidean);
    let r = rayon::bench_with_threads(&train, &test, 1, 3, DistanceMetric::Euclidean);
    assert_eq!(r.correct, 2);
    assert_eq!(r.total, 2);
}

#[test]
fn bench_counts_wrong_predictions() {
    let (train, mut test) = make_dataset();
    test.labels = vec![1, 1];
    let s = sequential::bench(&train, &test, 3, DistanceMetric::Hamming);
    assert_eq!(s.correct, 1);
    let r = rayon::bench(&train, &test, 3, DistanceMetric::Hamming);
    assert_eq!(r.correct, 1);
}

#[test]
fn bench_on_empty_test_set() {
    let (train, _) = make_dataset();
    let empty = MnistDataset { images: vec![], labels: vec![], image_size: 1 };
    let s = sequential::bench(&train, &empty, 3, DistanceMetric::Hamming);
    assert_eq!((s.correct, s.total), (0, 0));
}

#[test]
fn count_matches_over_shared_length() {
    assert_eq!(count_matches(&[1, 2, 3], &[1, 0, 3, 4]), 2);
    assert_eq!(count_matches(&[], &[1]), 0);
}

#[test]
fn chunks_cover_test_set() {
    assert_eq!(chunk_size(10, 4), 3);
    assert_eq!(chunk_size(8, 4), 2);
    assert_eq!(chunk_size(0, 3), 0);
    assert_eq!(chunk_bounds(10, 4, 0), (0, 3));
    assert_eq!(chunk_bounds(10, 4, 3), (9, 10));
    assert_eq!(chunk_bounds(10, 8, 6), (12, 10));
}

#[test]
fn classify_range_per_thread() {
    let (train, test) = make_dataset();
    assert_eq!(classify_range(&train, &test, 0, 2, 3), vec![0, 1]);
    assert_eq!(classify_range(&train, &test, 1, 2, 3), vec![1]);
    assert!(classify_range(&train, &test, 1, 1, 3).is_empty());
    assert!(classify_range(&train, &test, 5, 3, 3).is_empty());
}

#[test]
fn memory_reading_is_not_negative() {
    assert!(process_memory_kb() >= 0);
}

#[test]
fn memory_kb_rounds_down_bytes() {
    assert_eq!(rust_final::bench::memory_kb(Some(1023)), 0);
    assert_eq!(rust_final::bench::memory_kb(Some(2048)), 2);
    assert_eq!(rust_final::bench::memory_kb(Some(u64::MAX)), (u64::MAX / 1024) as i64);
    assert_eq!(rust_final::bench::memory_kb(None), 0);
}

#[test]
fn thread_chunks_join_to_all_predictions() {
    let (train, test) = make_dataset();
    for threads in [1usize, 2, 3, 8] {
        let parts: Vec<Vec<u8>> = (0..threads).map(|t| classify_chunk(&train, &test, 3, threads, t)).collect();
        assert_eq!(parts.len(), threads);
        assert_eq!(join_chunks(parts), vec![0, 1]);
    }
}

#[test]
fn join_chunks_keeps_order() {
    assert_eq!(join_chunks(vec![vec![1, 2], vec![], vec![3], vec![4, 5]]), vec![1, 2, 3, 4, 5]);
    assert!(join_chunks(vec![]).is_empty());
}

#[test]
fn hamming_is_a_metric_on_examples() {
    let a = [0x0Fu8, 0x33];
    let b = [0xF0u8, 0x33];
    let c = [0xFFu8, 0x00];
    assert_eq!(hamming_distance(&a, &a), 0);
    assert_eq!(hamming_distance(&a, &b), hamming_distance(&b, &a));
    assert!(hamming_distance(&a, &c) <= hamming_distance(&a, &b) + hamming_distance(&b, &c));
    assert_eq!(hamming_distance(&a, &c), 8);
    assert_ne!(hamming_distance(&a, &b), 0);
}

#[test]
fn bench_reports_bounded_readings() {
    let (train, test) = make_dataset();
    let r = sequential::bench(&train, &test, 3, DistanceMetric::Hamming);
    let bound = (u64::MAX / 1024) as i64;
    assert!(-bound <= r.memory_delta_kb && r.memory_delta_kb <= bound);
}

#[test]
fn results_from_run_takes_memory_difference() {
    let r = Results::from_run(5, 2, 3, 100, 40, DistanceMetric::Euclidean);
    assert_eq!((r.elapsed_ns, r.correct, r.total, r.memory_delta_kb), (5, 2, 3, -60));
    assert_eq!(r.distance_metric, DistanceMetric::Euclidean);
}

#[test]
fn hamming_fits_u32_on_small_images() {
    assert!(hamming_fits_u32(&[0xFF; 16], &[0x00; 16]));
    assert!(hamming_fits_u32(&[], &[]));
}

#[test]
fn binarize_is_monotone_in_threshold() {
    let raw = vec![200, 0, 128, 127, 255, 0, 0, 0, 130, 10, 0, 255, 0, 0, 0, 0, 0, 0, 0, 255];
    let mut low = MnistDataset { images: raw.clone(), labels: vec![7, 3], image_size: 10 };
    let mut high = MnistDataset { images: raw.clone(), labels: vec![7, 3], image_size: 10 };
    low.binarize(100);
    high.binarize(200);
    assert_eq!(low.image_size, high.image_size);
    assert_eq!(low.labels, high.labels);
    for (h, l) in high.images.iter().zip(low.images.iter()) {
        assert_eq!(h & !l, 0);
    }
    let mut zero = MnistDataset { images: raw, labels: vec![7, 3], image_size: 10 };
    zero.binarize(0);
    assert_eq!(zero.images, vec![0xFF, 0xC0, 0xFF, 0xC0]);
}
