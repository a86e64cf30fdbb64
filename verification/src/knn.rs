//! The k-nearest-neighbour rule shared by every way of running it: the table
//! of distances to the training samples, the choice of the k nearest, and
//! the majority vote among their labels.
use vstd::prelude::*;
use crate::bench::DistanceMetric;
use crate::distance::{
    euclidean_distance, hamming, hamming_distance, lemma_squared_euclidean_equals_hamming, squared_euclidean,
};
use crate::pre_processing::{lemma_row_bounds, MnistDataset};

verus! {

/// A training sample as the vote sees it: its distance and its label.
pub type Neighbour = (u32, u8);

/// The distance between two bit-packed images under `metric`.
pub open spec fn metric_distance(metric: DistanceMetric, a: Seq<u8>, b: Seq<u8>) -> nat {
    match metric {
        DistanceMetric::Hamming => hamming(a, b),
        DistanceMetric::Euclidean => squared_euclidean(a, b),
    }
}

/// Distance and label of every training sample, in training order.
pub open spec fn distance_table(train: &MnistDataset, image: Seq<u8>, metric: DistanceMetric) -> Seq<Neighbour> {
    Seq::new(
        train.labels@.len(),
        |i: int| (metric_distance(metric, image, train.image_at(i)) as u32, train.labels@[i]),
    )
}

/// What `<[T]>::select_nth_unstable_by_key` makes of `entries` when it
/// places the entry of rank `index` by distance.
pub uninterp spec fn selection_by_distance(entries: Seq<Neighbour>, index: usize) -> Seq<Neighbour>;

/// `s` holds the entries of `table`, and its first `k` entries are no
/// farther than any of the others: they are `k` nearest neighbours.
pub open spec fn is_nearest_split(table: Seq<Neighbour>, s: Seq<Neighbour>, k: nat) -> bool {
    &&& s.len() == table.len()
    &&& s.to_multiset() == table.to_multiset()
    &&& forall|i: int, j: int| 0 <= i < k <= j < s.len() ==> s[i].0 <= s[j].0
}

/// How many entries of `nb` carry label `l`.
pub open spec fn label_count(nb: Seq<Neighbour>, l: u8) -> nat
    decreases nb.len(),
{
    if nb.len() == 0 {
        0
    } else {
        label_count(nb.drop_last(), l) + (if nb.last().1 == l { 1nat } else { 0nat })
    }
}

/// The label chosen among labels `0..n`: the last one with the largest count.
pub open spec fn vote_below(nb: Seq<Neighbour>, n: nat) -> u8
    decreases n,
{
    if n == 0 {
        0
    } else {
        let best = vote_below(nb, (n - 1) as nat);
        if label_count(nb, (n - 1) as u8) >= label_count(nb, best) {
            (n - 1) as u8
        } else {
            best
        }
    }
}

/// The majority label of a set of neighbours: among the digits 0–9, the
/// largest one that has the highest count.
pub open spec fn majority_label(nb: Seq<Neighbour>) -> u8 {
    vote_below(nb, 10)
}

/// `label` is the largest digit that has the highest count among `nb`.
pub open spec fn is_largest_mode(nb: Seq<Neighbour>, label: u8) -> bool {
    &&& label < 10
    &&& forall|l: u8| l < 10 ==> #[trigger] label_count(nb, l) <= label_count(nb, label)
    &&& forall|l: u8| label < l < 10 ==> #[trigger] label_count(nb, l) < label_count(nb, label)
}

/// `label` is a k-nearest-neighbour vote over `table`: for some choice of
/// `k` entries of the table that are no farther than any other entry,
/// `label` is the largest digit with the most votes among them.
pub open spec fn is_knn_vote(table: Seq<Neighbour>, k: nat, label: u8) -> bool {
    exists|s: Seq<Neighbour>| #[trigger] is_nearest_split(table, s, k) && is_largest_mode(s.take(k as int), label)
}

/// The label that k-nn gives `image`: the majority among the first `k`
/// entries of the distance table once the entry of rank `k - 1` is placed.
pub open spec fn classify_spec(train: &MnistDataset, image: Seq<u8>, k: usize, metric: DistanceMetric) -> u8 {
    majority_label(selection_by_distance(distance_table(train, image, metric), (k - 1) as usize).take(k as int))
}

/// Once the selection has placed `k` nearest entries first (which
/// `select_by_distance` guarantees), the k-nn label is a vote over `k`
/// nearest neighbours of the image: the largest digit with the most votes
/// among them.
pub proof fn lemma_classify_spec_is_knn_vote(train: &MnistDataset, image: Seq<u8>, k: usize, metric: DistanceMetric)
    requires
        1 <= k <= train.labels@.len(),
        is_nearest_split(
            distance_table(train, image, metric),
            selection_by_distance(distance_table(train, image, metric), (k - 1) as usize),
            k as nat,
        ),
    ensures
        is_knn_vote(distance_table(train, image, metric), k as nat, classify_spec(train, image, k, metric)),
{
    let s = selection_by_distance(distance_table(train, image, metric), (k - 1) as usize);
    lemma_majority_label_is_largest_mode(s.take(k as int));
    assert(is_nearest_split(distance_table(train, image, metric), s, k as nat) && is_largest_mode(
        s.take(k as int),
        classify_spec(train, image, k, metric),
    ));
}

/// What classifying one image against `train` with `k` neighbours needs.
pub open spec fn classify_ok(train: &MnistDataset, image: Seq<u8>, k: usize) -> bool {
    &&& train.holds_all_images()
    &&& train.labels_are_digits()
    &&& 1 <= k <= train.labels@.len()
    &&& k <= u32::MAX
    &&& forall|i: int| 0 <= i < train.labels@.len() ==> #[trigger] hamming(image, train.image_at(i)) <= u32::MAX
}

/// `<[T]>::select_nth_unstable_by_key` on the distances: reorders `entries`
/// so that the entry at `index` is the one a sort by distance would put
/// there, the entries before it are no farther and the ones after it no
/// nearer. The reordering depends on the entries and the index alone and is
/// named `selection_by_distance`; which of several equally distant entries
/// lands where is left unsaid, as the documentation leaves it.
#[verifier::external_body]
fn select_by_distance(entries: &mut Vec<Neighbour>, index: usize)
    requires
        index < old(entries)@.len(),
    ensures
        final(entries)@ == selection_by_distance(old(entries)@, index),
        final(entries)@.len() == old(entries)@.len(),
        final(entries)@.to_multiset() == old(entries)@.to_multiset(),
        forall|i: int| 0 <= i < index ==> final(entries)@[i].0 <= final(entries)@[index as int].0,
        forall|j: int| index < j < final(entries)@.len() ==> final(entries)@[j].0 >= final(entries)@[index as int].0,
{
    entries.select_nth_unstable_by_key(index, |e: &Neighbour| e.0);
}

/// A label count never exceeds the number of neighbours.
proof fn lemma_label_count_bound(nb: Seq<Neighbour>, l: u8)
    ensures
        label_count(nb, l) <= nb.len(),
    decreases nb.len(),
{
    if nb.len() > 0 {
        lemma_label_count_bound(nb.drop_last(), l);
    }
}

proof fn lemma_vote_below_props(nb: Seq<Neighbour>, n: nat)
    requires
        1 <= n <= 10,
    ensures
        vote_below(nb, n) < n,
        forall|l: u8| l < n ==> #[trigger] label_count(nb, l) <= label_count(nb, vote_below(nb, n)),
        forall|l: u8| vote_below(nb, n) < l < n ==> #[trigger] label_count(nb, l) < label_count(nb, vote_below(nb, n)),
    decreases n,
{
    reveal_with_fuel(vote_below, 2);
    if n > 1 {
        lemma_vote_below_props(nb, (n - 1) as nat);
    }
}

/// The majority label is a digit whose count no other digit exceeds, and
/// every larger digit has a strictly smaller count.
pub proof fn lemma_majority_label_is_largest_mode(nb: Seq<Neighbour>)
    ensures
        majority_label(nb) < 10,
        forall|l: u8| l < 10 ==> #[trigger] label_count(nb, l) <= label_count(nb, majority_label(nb)),
        forall|l: u8| majority_label(nb) < l < 10 ==> #[trigger] label_count(nb, l) < label_count(nb, majority_label(nb)),
{
    lemma_vote_below_props(nb, 10);
}

/// A digit that is the largest one with the most votes is unique.
pub proof fn lemma_largest_mode_unique(nb: Seq<Neighbour>, a: u8, b: u8)
    requires
        is_largest_mode(nb, a),
        is_largest_mode(nb, b),
    ensures
        a == b,
{
    if a < b {
        assert(label_count(nb, b) < label_count(nb, a));
        assert(label_count(nb, a) <= label_count(nb, b));
    } else if b < a {
        assert(label_count(nb, a) < label_count(nb, b));
        assert(label_count(nb, b) <= label_count(nb, a));
    }
}

proof fn lemma_label_count_all_same(nb: Seq<Neighbour>, l: u8, m: u8)
    requires
        forall|i: int| 0 <= i < nb.len() ==> #[trigger] nb[i].1 == l,
    ensures
        label_count(nb, m) == (if m == l { nb.len() } else { 0 }),
    decreases nb.len(),
{
    if nb.len() > 0 {
        assert forall|i: int| 0 <= i < nb.drop_last().len() implies #[trigger] nb.drop_last()[i].1 == l by {
            assert(nb.drop_last()[i] == nb[i]);
        }
        lemma_label_count_all_same(nb.drop_last(), l, m);
    }
}

/// Where every training sample carries the same label, a vote over `k >= 1`
/// nearest neighbours gives that label.
pub proof fn lemma_unanimous_vote(table: Seq<Neighbour>, k: nat, label: u8, l: u8)
    requires
        1 <= k <= table.len(),
        l < 10,
        forall|i: int| 0 <= i < table.len() ==> #[trigger] table[i].1 == l,
        is_knn_vote(table, k, label),
    ensures
        label == l,
{
    let s = choose|s: Seq<Neighbour>| #[trigger] is_nearest_split(table, s, k) && is_largest_mode(s.take(k as int), label);
    let nb = s.take(k as int);
    assert forall|i: int| 0 <= i < nb.len() implies #[trigger] nb[i].1 == l by {
        s.to_multiset_ensures();
        table.to_multiset_ensures();
        assert(nb[i] == s[i]);
        assert(s.contains(s[i]));
        assert(s.to_multiset().count(s[i]) > 0);
        assert(table.to_multiset().count(s[i]) > 0);
        let j = choose|j: int| 0 <= j < table.len() && table[j] == s[i];
        assert(table[j].1 == l);
    }
    lemma_label_count_all_same(nb, l, l);
    lemma_label_count_all_same(nb, l, label);
    if label != l {
        assert(label_count(nb, l) <= label_count(nb, label));
    }
}

/// How many entries of `nb` satisfy `p`.
pub open spec fn count_where(nb: Seq<Neighbour>, p: spec_fn(Neighbour) -> bool) -> nat
    decreases nb.len(),
{
    if nb.len() == 0 {
        0
    } else {
        count_where(nb.drop_last(), p) + (if p(nb.last()) { 1nat } else { 0nat })
    }
}

/// An entry lies within distance `d`.
pub open spec fn within(d: u32) -> spec_fn(Neighbour) -> bool {
    |e: Neighbour| e.0 <= d
}

/// An entry lies within distance `d` and carries label `l`.
pub open spec fn vote_within(d: u32, l: u8) -> spec_fn(Neighbour) -> bool {
    |e: Neighbour| e.0 <= d && e.1 == l
}

/// An entry carries label `l`.
pub open spec fn carries(l: u8) -> spec_fn(Neighbour) -> bool {
    |e: Neighbour| e.1 == l
}

/// How many entries of `table` lie within distance `d`.
pub open spec fn count_within(table: Seq<Neighbour>, d: u32) -> nat {
    count_where(table, within(d))
}

/// How many entries of `table` lie within distance `d` and carry label `l`.
pub open spec fn votes_within(table: Seq<Neighbour>, d: u32, l: u8) -> nat {
    count_where(table, vote_within(d, l))
}

proof fn lemma_count_where_concat(a: Seq<Neighbour>, b: Seq<Neighbour>, p: spec_fn(Neighbour) -> bool)
    ensures
        count_where(a + b, p) == count_where(a, p) + count_where(b, p),
    decreases b.len(),
{
    if b.len() == 0 {
        assert(a + b =~= a);
    } else {
        lemma_count_where_concat(a, b.drop_last(), p);
        assert((a + b).drop_last() =~= a + b.drop_last());
        assert((a + b).last() == b.last());
    }
}

proof fn lemma_count_where_extremes(nb: Seq<Neighbour>, p: spec_fn(Neighbour) -> bool)
    ensures
        count_where(nb, p) <= nb.len(),
        (count_where(nb, p) == nb.len()) <==> (forall|i: int| 0 <= i < nb.len() ==> #[trigger] p(nb[i])),
        (count_where(nb, p) == 0) <==> (forall|i: int| 0 <= i < nb.len() ==> !#[trigger] p(nb[i])),
    decreases nb.len(),
{
    if nb.len() > 0 {
        let init = nb.drop_last();
        lemma_count_where_extremes(init, p);
        assert forall|i: int| 0 <= i < init.len() implies #[trigger] init[i] == nb[i] by {}
        if count_where(nb, p) == nb.len() {
            assert forall|i: int| 0 <= i < nb.len() implies #[trigger] p(nb[i]) by {
                if i < nb.len() - 1 {
                    assert(p(init[i]));
                }
            }
        }
        if forall|i: int| 0 <= i < nb.len() ==> #[trigger] p(nb[i]) {
            assert forall|i: int| 0 <= i < init.len() implies #[trigger] p(init[i]) by {
                assert(p(nb[i]));
            }
            assert(p(nb[nb.len() - 1]));
        }
        if count_where(nb, p) == 0 {
            assert forall|i: int| 0 <= i < nb.len() implies !#[trigger] p(nb[i]) by {
                if i < nb.len() - 1 {
                    assert(!p(init[i]));
                }
            }
        }
        if forall|i: int| 0 <= i < nb.len() ==> !#[trigger] p(nb[i]) {
            assert forall|i: int| 0 <= i < init.len() implies !#[trigger] p(init[i]) by {
                assert(!p(nb[i]));
            }
            assert(!p(nb[nb.len() - 1]));
        }
    }
}

proof fn lemma_count_where_congruent(nb: Seq<Neighbour>, p: spec_fn(Neighbour) -> bool, q: spec_fn(Neighbour) -> bool)
    requires
        forall|i: int| 0 <= i < nb.len() ==> #[trigger] p(nb[i]) == q(nb[i]),
    ensures
        count_where(nb, p) == count_where(nb, q),
    decreases nb.len(),
{
    if nb.len() > 0 {
        let init = nb.drop_last();
        assert forall|i: int| 0 <= i < init.len() implies #[trigger] p(init[i]) == q(init[i]) by {
            assert(init[i] == nb[i]);
            assert(p(nb[i]) == q(nb[i]));
        }
        lemma_count_where_congruent(init, p, q);
        assert(p(nb[nb.len() - 1]) == q(nb[nb.len() - 1]));
    }
}

proof fn lemma_count_where_permutation(a: Seq<Neighbour>, b: Seq<Neighbour>, p: spec_fn(Neighbour) -> bool)
    requires
        a.to_multiset() == b.to_multiset(),
    ensures
        count_where(a, p) == count_where(b, p),
    decreases a.len(),
{
    broadcast use vstd::multiset::group_multiset_axioms;
    vstd::seq_lib::to_multiset_len(a);
    vstd::seq_lib::to_multiset_len(b);
    if a.len() == 0 {
        assert(b.len() == 0);
    } else {
        let x = a.last();
        let init = a.drop_last();
        assert(init.push(x) =~= a);
        vstd::seq_lib::to_multiset_build(init, x);
        vstd::seq_lib::to_multiset_contains(a, x);
        vstd::seq_lib::to_multiset_contains(b, x);
        assert(a.contains(x)) by {
            assert(a[a.len() - 1] == x);
        }
        let j = choose|j: int| 0 <= j < b.len() && b[j] == x;
        let rest = b.remove(j);
        vstd::seq_lib::to_multiset_remove(b, j);
        assert(init.to_multiset() =~= rest.to_multiset());
        lemma_count_where_permutation(init, rest, p);
        let left = b.subrange(0, j);
        let right = b.subrange(j + 1, b.len() as int);
        assert(b =~= left + seq![x] + right);
        assert(rest =~= left + right);
        lemma_count_where_concat(left + seq![x], right, p);
        lemma_count_where_concat(left, seq![x], p);
        lemma_count_where_concat(left, right, p);
        let one = seq![x];
        assert(one.drop_last() =~= Seq::<Neighbour>::empty());
        assert(count_where(one.drop_last(), p) == 0);
        assert(one.last() == x);
        assert(count_where(seq![x], p) == (if p(x) { 1nat } else { 0nat }));
        assert(count_where(b, p) == count_where(rest, p) + (if p(x) { 1nat } else { 0nat }));
        assert(count_where(a, p) == count_where(init, p) + (if p(x) { 1nat } else { 0nat }));
    }
}

proof fn lemma_label_count_is_count_where(nb: Seq<Neighbour>, l: u8)
    ensures
        label_count(nb, l) == count_where(nb, carries(l)),
    decreases nb.len(),
{
    if nb.len() > 0 {
        lemma_label_count_is_count_where(nb.drop_last(), l);
    }
}

/// Where exactly `k` entries of the table lie within distance `d`, a vote
/// over `k` nearest neighbours is a vote over those entries: the label is
/// the largest digit with the most entries within `d`.
pub proof fn lemma_knn_vote_within(table: Seq<Neighbour>, k: nat, label: u8, d: u32)
    requires
        is_knn_vote(table, k, label),
        count_within(table, d) == k,
    ensures
        label < 10,
        forall|l: u8| l < 10 ==> #[trigger] votes_within(table, d, l) <= votes_within(table, d, label),
        forall|l: u8| label < l < 10 ==> #[trigger] votes_within(table, d, l) < votes_within(table, d, label),
{
    let s = choose|s: Seq<Neighbour>| #[trigger] is_nearest_split(table, s, k) && is_largest_mode(s.take(k as int), label);
    let near = within(d);
    lemma_count_where_extremes(table, near);
    let m = s.take(k as int);
    let r = s.skip(k as int);
    assert(s =~= m + r);
    lemma_count_where_permutation(table, s, near);
    lemma_count_where_concat(m, r, near);
    lemma_count_where_extremes(m, near);
    lemma_count_where_extremes(r, near);
    if count_where(r, near) > 0 {
        let j = choose|j: int| 0 <= j < r.len() && near(r[j]);
        assert(r[j] == s[k + j]);
        assert forall|i: int| 0 <= i < m.len() implies #[trigger] near(m[i]) by {
            assert(m[i] == s[i]);
            assert(s[i].0 <= s[k + j].0);
        }
        assert(false);
    }
    assert forall|l: u8| l < 10 implies #[trigger] votes_within(table, d, l) == label_count(m, l) by {
        let v = vote_within(d, l);
        let c = carries(l);
        lemma_count_where_permutation(table, s, v);
        lemma_count_where_concat(m, r, v);
        assert forall|i: int| 0 <= i < r.len() implies !#[trigger] v(r[i]) by {
            assert(!near(r[i]));
        }
        lemma_count_where_extremes(r, v);
        assert forall|i: int| 0 <= i < m.len() implies #[trigger] v(m[i]) == c(m[i]) by {
            assert(near(m[i]));
        }
        lemma_count_where_congruent(m, v, c);
        lemma_label_count_is_count_where(m, l);
    }
    assert forall|l: u8| l < 10 implies #[trigger] votes_within(table, d, l) <= votes_within(table, d, label) by {
        assert(label_count(m, l) <= label_count(m, label));
    }
    assert forall|l: u8| label < l < 10 implies #[trigger] votes_within(table, d, l) < votes_within(table, d, label) by {
        assert(label_count(m, l) < label_count(m, label));
    }
}

/// The distance between two bit-packed images under `metric`.
pub fn distance(metric: DistanceMetric, a: &[u8], b: &[u8]) -> (d: u32)
    requires
        metric_distance(metric, a@, b@) <= u32::MAX,
    ensures
        d == metric_distance(metric, a@, b@),
{
    match metric {
        DistanceMetric::Hamming => hamming_distance(a, b),
        DistanceMetric::Euclidean => euclidean_distance(a, b),
    }
}

/// Entry `i` of the distance table: distance of `image` to training sample
/// `i`, and that sample's label.
pub fn distance_entry(train: &MnistDataset, image: &[u8], i: usize, metric: DistanceMetric) -> (e: Neighbour)
    requires
        train.holds_all_images(),
        i < train.labels@.len(),
        hamming(image@, train.image_at(i as int)) <= u32::MAX,
    ensures
        e == distance_table(train, image@, metric)[i as int],
{
    proof {
        lemma_squared_euclidean_equals_hamming(image@, train.image_at(i as int));
    }
    proof {
        lemma_row_bounds(i as int, train.image_size as int, train.labels@.len() as int);
    }
    let img = train.image(i);
    assert(img@.len() == train.image_size);
    let d = distance(metric, image, img);
    (d, train.labels[i])
}

/// Majority vote over the first `k` neighbours: the digit with the most
/// votes, the largest such digit on a tie.
pub fn majority_vote(neighbours: &Vec<Neighbour>, k: usize) -> (label: u8)
    requires
        k <= neighbours@.len(),
        k <= u32::MAX,
        forall|i: int| 0 <= i < k ==> neighbours@[i].1 < 10,
    ensures
        label == majority_label(neighbours@.take(k as int)),
{
    let ghost nb = neighbours@.take(k as int);
    let mut counts: Vec<u32> = vec![0u32; 10];
    let mut i: usize = 0;
    while i < k
        invariant
            k <= neighbours@.len(),
            k <= u32::MAX,
            nb == neighbours@.take(k as int),
            forall|j: int| 0 <= j < k ==> neighbours@[j].1 < 10,
            i <= k,
            counts@.len() == 10,
            forall|l: int| 0 <= l < 10 ==> #[trigger] counts@[l] == label_count(nb.take(i as int), l as u8),
        decreases k - i,
    {
        let label = neighbours[i].1;
        proof {
            assert(nb.take(i + 1).drop_last() =~= nb.take(i as int));
            lemma_label_count_bound(nb.take(i as int), label);
        }
        let c = counts[label as usize];
        counts.set(label as usize, c + 1);
        i = i + 1;
    }
    assert(nb.take(k as int) =~= nb);
    assert(vote_below(nb, 1) == 0) by {
        reveal_with_fuel(vote_below, 2);
    }
    let mut best: u8 = 0;
    let mut best_count: u32 = counts[0];
    let mut l: u8 = 1;
    while l < 10
        invariant
            1 <= l <= 10,
            counts@.len() == 10,
            forall|m: int| 0 <= m < 10 ==> #[trigger] counts@[m] == label_count(nb, m as u8),
            best == vote_below(nb, l as nat),
            best < 10,
            best_count == counts@[best as int],
        decreases 10 - l,
    {
        if counts[l as usize] >= best_count {
            best = l;
            best_count = counts[l as usize];
        }
        l = l + 1;
    }
    best
}

/// Chooses the `k` nearest entries of a distance table and returns the
/// majority label among them.
pub fn vote_nearest(distances: Vec<Neighbour>, k: usize) -> (label: u8)
    requires
        1 <= k <= distances@.len(),
        k <= u32::MAX,
        forall|i: int| 0 <= i < distances@.len() ==> distances@[i].1 < 10,
    ensures
        is_nearest_split(distances@, selection_by_distance(distances@, (k - 1) as usize), k as nat),
        label == majority_label(selection_by_distance(distances@, (k - 1) as usize).take(k as int)),
        is_knn_vote(distances@, k as nat, label),
{
    let mut distances = distances;
    let ghost table = distances@;
    select_by_distance(&mut distances, k - 1);
    proof {
        let s = distances@;
        assert forall|i: int| 0 <= i < s.len() implies s[i].1 < 10 by {
            s.to_multiset_ensures();
            table.to_multiset_ensures();
            assert(s.contains(s[i]));
            assert(s.to_multiset().count(s[i]) > 0);
            assert(table.to_multiset().count(s[i]) > 0);
            assert(table.contains(s[i]));
            let j = choose|j: int| 0 <= j < table.len() && table[j] == s[i];
            assert(table[j].1 < 10);
        }
        assert forall|i: int, j: int| 0 <= i < k <= j < s.len() implies s[i].0 <= s[j].0 by {
            if i < k - 1 {
                assert(s[i].0 <= s[k - 1].0);
            }
        }
    }
    let label = majority_vote(&distances, k);
    proof {
        lemma_majority_label_is_largest_mode(distances@.take(k as int));
        assert(is_nearest_split(table, distances@, k as nat));
    }
    label
}

/// The label that k-nn gives every test sample, in test order.
pub open spec fn predictions(train: &MnistDataset, test: &MnistDataset, k: usize, metric: DistanceMetric) -> Seq<u8> {
    Seq::new(test.labels@.len(), |i: int| classify_spec(train, test.image_at(i), k, metric))
}

/// Positions among the first `n` where a prediction equals the label.
pub open spec fn matches_prefix(predicted: Seq<u8>, truth: Seq<u8>, n: nat) -> nat
    decreases n,
{
    if n == 0 {
        0
    } else {
        matches_prefix(predicted, truth, (n - 1) as nat) + (if predicted[n - 1] == truth[n - 1] {
            1nat
        } else {
            0nat
        })
    }
}

/// Positions, over the length the two sequences share, where a prediction
/// equals the true label.
pub open spec fn matches(predicted: Seq<u8>, truth: Seq<u8>) -> nat {
    matches_prefix(
        predicted,
        truth,
        if predicted.len() <= truth.len() { predicted.len() } else { truth.len() },
    )
}

/// How many test samples k-nn classifies correctly.
pub open spec fn correct_count(train: &MnistDataset, test: &MnistDataset, k: usize, metric: DistanceMetric) -> nat {
    matches(predictions(train, test, k, metric), test.labels@)
}

/// What a benchmark run needs: every test image is in its buffer and, where
/// there is a sample to classify, the classification's own needs.
pub open spec fn bench_ok(train: &MnistDataset, test: &MnistDataset, k: usize) -> bool {
    &&& test.holds_all_images()
    &&& forall|i: int| 0 <= i < test.labels@.len() ==> classify_ok(train, #[trigger] test.image_at(i), k)
}

/// At most `n` of the first `n` positions match.
pub proof fn lemma_matches_prefix_bound(predicted: Seq<u8>, truth: Seq<u8>, n: nat)
    ensures
        matches_prefix(predicted, truth, n) <= n,
    decreases n,
{
    if n > 0 {
        lemma_matches_prefix_bound(predicted, truth, (n - 1) as nat);
    }
}

proof fn lemma_matches_prefix_full(predicted: Seq<u8>, truth: Seq<u8>, n: nat)
    ensures
        (matches_prefix(predicted, truth, n) == n) <==> (forall|i: int| 0 <= i < n ==> #[trigger] predicted[i] == truth[i]),
    decreases n,
{
    if n > 0 {
        lemma_matches_prefix_full(predicted, truth, (n - 1) as nat);
        lemma_matches_prefix_bound(predicted, truth, (n - 1) as nat);
        if matches_prefix(predicted, truth, n) == n {
            assert forall|i: int| 0 <= i < n implies #[trigger] predicted[i] == truth[i] by {
                if i < n - 1 {
                    assert(matches_prefix(predicted, truth, (n - 1) as nat) == n - 1);
                }
            }
        }
    }
}

/// The count of matching positions is the shared length exactly when the
/// predictions agree with the labels at every shared position; in
/// particular two equal sequences match at every position.
pub proof fn lemma_matches_all_agree(predicted: Seq<u8>, truth: Seq<u8>)
    ensures
        matches(predicted, truth) <= (if predicted.len() <= truth.len() { predicted.len() } else { truth.len() }),
        (matches(predicted, truth) == (if predicted.len() <= truth.len() { predicted.len() } else { truth.len() }))
            <==> (forall|i: int|
            0 <= i < predicted.len() && i < truth.len() ==> #[trigger] predicted[i] == truth[i]),
        matches(predicted, predicted) == predicted.len(),
{
    let n = if predicted.len() <= truth.len() { predicted.len() } else { truth.len() };
    lemma_matches_prefix_bound(predicted, truth, n);
    lemma_matches_prefix_full(predicted, truth, n);
    lemma_matches_prefix_full(predicted, predicted, predicted.len());
}

proof fn lemma_matches_prefix_of_longer(predicted: Seq<u8>, truth: Seq<u8>, x: u8, y: u8, n: nat)
    requires
        n <= predicted.len(),
        n <= truth.len(),
    ensures
        matches_prefix(predicted.push(x), truth.push(y), n) == matches_prefix(predicted, truth, n),
    decreases n,
{
    if n > 0 {
        lemma_matches_prefix_of_longer(predicted, truth, x, y, (n - 1) as nat);
    }
}

/// One more position adds exactly one to the count where its prediction is
/// right, and nothing where it is wrong.
pub proof fn lemma_matches_push(predicted: Seq<u8>, truth: Seq<u8>, x: u8, y: u8)
    requires
        predicted.len() == truth.len(),
    ensures
        matches(predicted.push(x), truth.push(y)) == matches(predicted, truth) + (if x == y { 1nat } else { 0nat }),
{
    lemma_matches_prefix_of_longer(predicted, truth, x, y, predicted.len());
}

/// The positions below `n` at which a prediction equals the true label.
pub open spec fn agreeing_positions(predicted: Seq<u8>, truth: Seq<u8>, n: nat) -> Set<int> {
    Set::new(|i: int| 0 <= i < n && predicted[i] == truth[i])
}

proof fn lemma_matches_prefix_counts_positions(predicted: Seq<u8>, truth: Seq<u8>, n: nat)
    ensures
        agreeing_positions(predicted, truth, n).finite(),
        agreeing_positions(predicted, truth, n).len() == matches_prefix(predicted, truth, n),
    decreases n,
{
    if n == 0 {
        assert(agreeing_positions(predicted, truth, 0) =~= Set::<int>::empty());
    } else {
        let m = (n - 1) as nat;
        lemma_matches_prefix_counts_positions(predicted, truth, m);
        let prev = agreeing_positions(predicted, truth, m);
        if predicted[n - 1] == truth[n - 1] {
            assert(agreeing_positions(predicted, truth, n) =~= prev.insert(n - 1));
            assert(!prev.contains(n - 1));
        } else {
            assert(agreeing_positions(predicted, truth, n) =~= prev);
        }
    }
}

/// The count of matches is the number of positions below the shared length
/// at which the prediction equals the true label.
pub proof fn lemma_matches_counts_positions(predicted: Seq<u8>, truth: Seq<u8>)
    ensures
        matches(predicted, truth) == Set::new(
            |i: int| 0 <= i < predicted.len() && i < truth.len() && predicted[i] == truth[i],
        ).len(),
{
    let n = if predicted.len() <= truth.len() { predicted.len() } else { truth.len() };
    lemma_matches_prefix_counts_positions(predicted, truth, n);
    assert(agreeing_positions(predicted, truth, n) =~= Set::new(
        |i: int| 0 <= i < predicted.len() && i < truth.len() && predicted[i] == truth[i],
    ));
}

/// Counts the positions where a prediction equals the true label.
pub fn count_matches(predicted: &[u8], truth: &[u8]) -> (n: usize)
    ensures
        n == matches(predicted@, truth@),
        n <= predicted@.len(),
        n <= truth@.len(),
        n == Set::new(|i: int| 0 <= i < predicted@.len() && i < truth@.len() && predicted@[i] == truth@[i]).len(),
        (n == (if predicted@.len() <= truth@.len() { predicted@.len() } else { truth@.len() })) <==> (forall|i: int|
            0 <= i < predicted@.len() && i < truth@.len() ==> #[trigger] predicted@[i] == truth@[i]),
{
    proof {
        lemma_matches_all_agree(predicted@, truth@);
        lemma_matches_counts_positions(predicted@, truth@);
    }
    let len = if predicted.len() <= truth.len() { predicted.len() } else { truth.len() };
    let mut n: usize = 0;
    let mut i: usize = 0;
    while i < len
        invariant
            len <= predicted@.len(),
            len <= truth@.len(),
            len == (if predicted@.len() <= truth@.len() { predicted@.len() } else { truth@.len() }),
            i <= len,
            n == matches_prefix(predicted@, truth@, i as nat),
        decreases len - i,
    {
        proof {
            lemma_matches_prefix_bound(predicted@, truth@, i as nat);
        }
        if predicted[i] == truth[i] {
            n = n + 1;
        }
        i = i + 1;
    }
    proof {
        lemma_matches_prefix_bound(predicted@, truth@, len as nat);
    }
    n
}

/// Both metrics give every training sample the same distance, so k-nn
/// classifies every image alike under either.
pub proof fn lemma_metrics_classify_alike(train: &MnistDataset, image: Seq<u8>, k: usize)
    ensures
        distance_table(train, image, DistanceMetric::Euclidean) == distance_table(train, image, DistanceMetric::Hamming),
        classify_spec(train, image, k, DistanceMetric::Euclidean) == classify_spec(train, image, k, DistanceMetric::Hamming),
{
    assert forall|i: int| 0 <= i < train.labels@.len() implies #[trigger] distance_table(train, image, DistanceMetric::Euclidean)[i]
        == distance_table(train, image, DistanceMetric::Hamming)[i] by {
        crate::distance::lemma_squared_euclidean_equals_hamming(image, train.image_at(i));
    }
    assert(distance_table(train, image, DistanceMetric::Euclidean) =~= distance_table(train, image, DistanceMetric::Hamming));
}

/// A benchmark run counts the same correct predictions under either metric.
pub proof fn lemma_metrics_count_alike(train: &MnistDataset, test: &MnistDataset, k: usize)
    ensures
        correct_count(train, test, k, DistanceMetric::Euclidean) == correct_count(train, test, k, DistanceMetric::Hamming),
{
    assert forall|i: int| 0 <= i < test.labels@.len() implies #[trigger] predictions(train, test, k, DistanceMetric::Euclidean)[i]
        == predictions(train, test, k, DistanceMetric::Hamming)[i] by {
        lemma_metrics_classify_alike(train, test.image_at(i), k);
    }
    assert(predictions(train, test, k, DistanceMetric::Euclidean) =~= predictions(train, test, k, DistanceMetric::Hamming));
}

} // verus!
