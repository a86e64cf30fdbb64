//! The plan of the scoped-thread k-nn: the test samples are cut into one
//! contiguous chunk per thread, each thread classifies its chunk, and the
//! chunks are joined back in thread order. Spawning and joining the threads
//! is left to the caller.
use vstd::prelude::*;
use crate::bench::DistanceMetric;
use crate::knn::{bench_ok, predictions};
use crate::pre_processing::{lemma_row_bounds, MnistDataset};
use crate::sequential::classify_one;

verus! {

/// Samples per chunk: `len / threads`, rounded up.
pub open spec fn chunk_len(len: nat, threads: nat) -> nat
    recommends
        threads > 0,
{
    if len % threads == 0 {
        len / threads
    } else {
        len / threads + 1
    }
}

/// End of the chunk that starts at `start`: one chunk on, or `len`.
pub open spec fn chunk_end(start: nat, c: nat, len: nat) -> nat {
    if start + c <= len {
        start + c
    } else {
        len
    }
}

/// The predictions that thread `t` produces when chunks hold `c` samples.
pub open spec fn chunk_of(p: Seq<u8>, c: nat, t: nat) -> Seq<u8> {
    let start = t * c;
    let end = chunk_end(start, c, p.len());
    if start < end {
        p.subrange(start as int, end as int)
    } else {
        seq![]
    }
}

/// The chunks of threads `0..n`, joined in thread order.
pub open spec fn joined_chunks(p: Seq<u8>, c: nat, n: nat) -> Seq<u8>
    decreases n,
{
    if n == 0 {
        seq![]
    } else {
        joined_chunks(p, c, (n - 1) as nat) + chunk_of(p, c, (n - 1) as nat)
    }
}

proof fn lemma_joined_chunks_prefix(p: Seq<u8>, c: nat, n: nat)
    ensures
        joined_chunks(p, c, n) == p.take(if n * c <= p.len() { (n * c) as int } else { p.len() as int }),
    decreases n,
{
    if n == 0 {
        assert(p.take(0) =~= seq![]);
    } else {
        lemma_joined_chunks_prefix(p, c, (n - 1) as nat);
        let s = ((n - 1) * c) as nat;
        assert(n * c == s + c) by (nonlinear_arith)
            requires
                s == (n - 1) * c,
                n >= 1,
        ;
        let prev_end: int = if s <= p.len() { s as int } else { p.len() as int };
        let new_end: int = if n * c <= p.len() { (n * c) as int } else { p.len() as int };
        if s < chunk_end(s, c, p.len()) {
            assert(p.take(prev_end) + p.subrange(s as int, new_end) =~= p.take(new_end));
        } else {
            assert(prev_end == new_end);
        }
    }
}

/// Joining the chunks of all threads gives back every prediction, in order:
/// the threads together classify each test sample exactly once.
pub proof fn lemma_chunks_rebuild_predictions(p: Seq<u8>, threads: nat)
    requires
        threads > 0,
    ensures
        joined_chunks(p, chunk_len(p.len(), threads), threads) == p,
{
    let c = chunk_len(p.len(), threads);
    let len = p.len();
    vstd::arithmetic::div_mod::lemma_fundamental_div_mod(len as int, threads as int);
    assert(threads * c >= len) by (nonlinear_arith)
        requires
            len == threads * (len / threads) + len % threads,
            len % threads < threads,
            c == (if len % threads == 0 { len / threads } else { len / threads + 1 }),
            threads > 0,
    ;
    lemma_joined_chunks_prefix(p, c, threads);
    assert(p.take(len as int) =~= p);
}

/// Samples per thread: `test_len / num_threads`, rounded up.
pub fn chunk_size(test_len: usize, num_threads: usize) -> (c: usize)
    requires
        num_threads > 0,
    ensures
        c == chunk_len(test_len as nat, num_threads as nat),
{
    proof {
        if num_threads >= 2 {
            vstd::arithmetic::div_mod::lemma_div_is_ordered_by_denominator(test_len as int, 2, num_threads as int);
        }
    }
    test_len / num_threads + if test_len % num_threads == 0 { 0 } else { 1 }
}

/// The range of test samples that thread `t` classifies: from `t` chunks
/// in, one chunk long, cut at the end of the test set. A range whose start
/// is at or past its end is empty.
pub fn chunk_bounds(test_len: usize, num_threads: usize, t: usize) -> (range: (usize, usize))
    requires
        num_threads > 0,
        (t + 1) * chunk_len(test_len as nat, num_threads as nat) <= usize::MAX,
    ensures
        range.0 == t * chunk_len(test_len as nat, num_threads as nat),
        range.1 == chunk_end(range.0 as nat, chunk_len(test_len as nat, num_threads as nat), test_len as nat),
{
    let c = chunk_size(test_len, num_threads);
    assert((t + 1) * c == t * c + c) by (nonlinear_arith);
    let start = t * c;
    let end = if start + c <= test_len { start + c } else { test_len };
    (start, end)
}

/// What one thread computes: the Hamming k-nn predictions of test samples
/// `start..end`, in order (none where `start >= end`).
pub fn classify_range(train: &MnistDataset, test: &MnistDataset, start: usize, end: usize, k: usize) -> (p: Vec<u8>)
    requires
        bench_ok(train, test, k),
        start < end ==> end <= test.labels@.len(),
    ensures
        p@ == (if start < end {
            predictions(train, test, k, DistanceMetric::Hamming).subrange(start as int, end as int)
        } else {
            seq![]
        }),
{
    let mut p: Vec<u8> = Vec::new();
    let mut i: usize = start;
    while i < end
        invariant
            bench_ok(train, test, k),
            start < end ==> end <= test.labels@.len(),
            start <= i,
            start < end ==> i <= end,
            start < end ==> p@ == predictions(train, test, k, DistanceMetric::Hamming).subrange(start as int, i as int),
            start >= end ==> p@.len() == 0,
        decreases end - i,
    {
        proof {
            lemma_row_bounds(i as int, test.image_size as int, test.labels@.len() as int);
        }
        let label = classify_one(train, test.image(i), k, DistanceMetric::Hamming);
        p.push(label);
        proof {
            assert(p@ =~= predictions(train, test, k, DistanceMetric::Hamming).subrange(start as int, i + 1));
        }
        i = i + 1;
    }
    if start >= end {
        assert(p@ =~= seq![]);
    }
    p
}

/// The parts joined in order.
pub open spec fn concat(parts: Seq<Seq<u8>>) -> Seq<u8>
    decreases parts.len(),
{
    if parts.len() == 0 {
        seq![]
    } else {
        concat(parts.drop_last()) + parts.last()
    }
}

proof fn lemma_concat_of_chunks(p: Seq<u8>, c: nat, parts: Seq<Seq<u8>>, n: nat)
    requires
        n <= parts.len(),
        forall|t: int| 0 <= t < parts.len() ==> #[trigger] parts[t] == chunk_of(p, c, t as nat),
    ensures
        concat(parts.take(n as int)) == joined_chunks(p, c, n),
    decreases n,
{
    if n > 0 {
        lemma_concat_of_chunks(p, c, parts, (n - 1) as nat);
        assert(parts.take(n as int).drop_last() =~= parts.take(n - 1));
        assert(parts.take(n as int).last() == parts[n - 1]);
    }
}

/// Whatever the number of threads, joining in thread order the parts that
/// the threads computed for their chunks gives every prediction once, in
/// test order.
pub proof fn lemma_thread_parts_join_to_predictions(p: Seq<u8>, threads: nat, parts: Seq<Seq<u8>>)
    requires
        threads > 0,
        parts.len() == threads,
        forall|t: int| 0 <= t < threads ==> #[trigger] parts[t] == chunk_of(p, chunk_len(p.len(), threads), t as nat),
    ensures
        concat(parts) == p,
{
    lemma_concat_of_chunks(p, chunk_len(p.len(), threads), parts, threads);
    assert(parts.take(threads as int) =~= parts);
    lemma_chunks_rebuild_predictions(p, threads);
}

/// Joins the threads' parts in thread order.
pub fn join_chunks(parts: Vec<Vec<u8>>) -> (joined: Vec<u8>)
    ensures
        joined@ == concat(parts@.map_values(|v: Vec<u8>| v@)),
{
    let ghost views = parts@.map_values(|v: Vec<u8>| v@);
    let mut joined: Vec<u8> = Vec::new();
    let mut i: usize = 0;
    while i < parts.len()
        invariant
            views == parts@.map_values(|v: Vec<u8>| v@),
            i <= parts@.len(),
            joined@ == concat(views.take(i as int)),
        decreases parts@.len() - i,
    {
        let mut part = vstd::slice::slice_to_vec(parts[i].as_slice());
        joined.append(&mut part);
        proof {
            assert(views.take(i + 1).drop_last() =~= views.take(i as int));
            assert(views.take(i + 1).last() == parts@[i as int]@);
        }
        i = i + 1;
    }
    assert(views.take(parts@.len() as int) =~= views);
    joined
}

/// What thread `t` of `num_threads` computes: the Hamming k-nn predictions
/// of its chunk of test samples.
pub fn classify_chunk(train: &MnistDataset, test: &MnistDataset, k: usize, num_threads: usize, t: usize) -> (p: Vec<u8>)
    requires
        bench_ok(train, test, k),
        num_threads > 0,
        (t + 1) * chunk_len(test.labels@.len(), num_threads as nat) <= usize::MAX,
    ensures
        p@ == chunk_of(
            predictions(train, test, k, DistanceMetric::Hamming),
            chunk_len(test.labels@.len(), num_threads as nat),
            t as nat,
        ),
{
    let (start, end) = chunk_bounds(test.len(), num_threads, t);
    classify_range(train, test, start, end, k)
}

} // verus!
