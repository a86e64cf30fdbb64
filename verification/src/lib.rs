//! k-nearest-neighbour classification of bit-packed MNIST digits.
pub mod bench;
pub mod distance;
pub mod knn;
pub mod pre_processing;
pub mod rayon;
pub mod sequential;
pub mod std_thread;
