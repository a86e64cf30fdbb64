# rust_final

k-nearest-neighbour classification of MNIST handwritten digits on
binarized, bit-packed images, with a sequential run, a Rayon run and a
scoped-thread run, and the metrics of each run.

- `src/` is the library, verified with Verus:
  - `pre_processing`: the dataset, IDX and preprocessed file formats (as
    bytes), `binarize`, `subset`;
  - `distance`: Hamming and squared Euclidean distance on packed images;
  - `knn`: distance table, choice of the k nearest, majority vote;
  - `sequential`, `rayon`: classification and benchmark runs;
  - `std_thread`: how the test set is cut into one chunk per thread;
  - `bench`: run metrics, the clock and the process's memory.
- `app/` is the interactive program: file I/O, threads, menus, reports and
  the floating-point metrics.
- `tests/` runs the library on small datasets.
