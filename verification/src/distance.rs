//! Distances between bit-packed images: Hamming distance (differing bits) and
//! squared Euclidean distance over the unpacked binary pixels.
use vstd::prelude::*;

verus! {

/// Bit `i` of `x` (bit 0 is the least significant one), as 0 or 1.
pub open spec fn bit_of(x: u8, i: nat) -> u8 {
    (x >> (i as u8)) & 1u8
}

/// Number of set bits among the lowest `n` bits of `x`.
pub open spec fn ones_below(x: u8, n: nat) -> nat
    decreases n,
{
    if n == 0 {
        0
    } else {
        (ones_below(x, (n - 1) as nat) + bit_of(x, (n - 1) as nat)) as nat
    }
}

/// Number of set bits of a byte.
pub open spec fn popcount(x: u8) -> nat {
    ones_below(x, 8)
}

/// Number of positions that two byte sequences have in common.
pub open spec fn paired_len(a: Seq<u8>, b: Seq<u8>) -> nat {
    if a.len() <= b.len() {
        a.len()
    } else {
        b.len()
    }
}

/// Differing bits over the first `n` paired bytes.
pub open spec fn hamming_prefix(a: Seq<u8>, b: Seq<u8>, n: nat) -> nat
    decreases n,
{
    if n == 0 {
        0
    } else {
        hamming_prefix(a, b, (n - 1) as nat) + popcount(a[n - 1] ^ b[n - 1])
    }
}

/// Hamming distance of two bit-packed images: the number of differing bits
/// over the bytes they have in common (a longer input is cut to the shorter).
pub open spec fn hamming(a: Seq<u8>, b: Seq<u8>) -> nat {
    hamming_prefix(a, b, paired_len(a, b))
}

/// Squared difference of bit `i` of two bytes, each read as a pixel of 0 or 1.
pub open spec fn bit_sq_diff(x: u8, y: u8, i: nat) -> nat {
    let d = bit_of(x, i) as int - bit_of(y, i) as int;
    (d * d) as nat
}

/// Sum of squared pixel differences over the lowest `n` bits of two bytes.
pub open spec fn byte_sq_dist_below(x: u8, y: u8, n: nat) -> nat
    decreases n,
{
    if n == 0 {
        0
    } else {
        byte_sq_dist_below(x, y, (n - 1) as nat) + bit_sq_diff(x, y, (n - 1) as nat)
    }
}

/// Squared Euclidean distance over the first `n` paired bytes, unpacked to pixels.
pub open spec fn sq_euclid_prefix(a: Seq<u8>, b: Seq<u8>, n: nat) -> nat
    decreases n,
{
    if n == 0 {
        0
    } else {
        sq_euclid_prefix(a, b, (n - 1) as nat) + byte_sq_dist_below(a[n - 1], b[n - 1], 8)
    }
}

/// Squared Euclidean (L2) distance of two bit-packed images over their
/// unpacked binary pixels, on the bytes they have in common.
pub open spec fn squared_euclidean(a: Seq<u8>, b: Seq<u8>) -> nat {
    sq_euclid_prefix(a, b, paired_len(a, b))
}

/// `u8::count_ones` gives the number of ones in the binary representation.
pub assume_specification[ u8::count_ones ](x: u8) -> (r: u32)
    ensures
        r == popcount(x),
;

proof fn lemma_bit_is_binary(x: u8, i: nat)
    requires
        i < 8,
    ensures
        bit_of(x, i) == 0 || bit_of(x, i) == 1,
{
    let s = i as u8;
    assert(((x >> s) & 1u8) == 0u8 || ((x >> s) & 1u8) == 1u8) by (bit_vector);
}

proof fn lemma_ones_below_bound(x: u8, n: nat)
    requires
        n <= 8,
    ensures
        ones_below(x, n) <= n,
    decreases n,
{
    if n > 0 {
        lemma_ones_below_bound(x, (n - 1) as nat);
        lemma_bit_is_binary(x, (n - 1) as nat);
    }
}

/// A byte has at most eight set bits.
pub proof fn lemma_popcount_at_most_8(x: u8)
    ensures
        popcount(x) <= 8,
{
    lemma_ones_below_bound(x, 8);
}

/// Bit `i` of `x ^ y` is set exactly when bits `i` of `x` and `y` differ.
pub proof fn lemma_xor_bit(x: u8, y: u8, i: nat)
    requires
        i < 8,
    ensures
        bit_of(x ^ y, i) == (if bit_of(x, i) == bit_of(y, i) { 0u8 } else { 1u8 }),
{
    let s = i as u8;
    assert(((x ^ y) >> s) & 1u8 == (if (x >> s) & 1u8 == (y >> s) & 1u8 { 0u8 } else { 1u8 }))
        by (bit_vector)
        requires
            s < 8u8,
    ;
}

proof fn lemma_bit_sq_diff_is_xor_bit(x: u8, y: u8, i: nat)
    requires
        i < 8,
    ensures
        bit_sq_diff(x, y, i) == bit_of(x ^ y, i),
{
    lemma_bit_is_binary(x, i);
    lemma_bit_is_binary(y, i);
    lemma_xor_bit(x, y, i);
    let d = bit_of(x, i) as int - bit_of(y, i) as int;
    if bit_of(x, i) == bit_of(y, i) {
        assert(d == 0);
        assert(d * d == 0);
    } else if d == 1 {
        assert(d * d == 1);
    } else {
        assert(d == -1);
        assert(d * d == 1);
    }
}

proof fn lemma_byte_sq_dist_is_ones(x: u8, y: u8, n: nat)
    requires
        n <= 8,
    ensures
        byte_sq_dist_below(x, y, n) == ones_below(x ^ y, n),
    decreases n,
{
    if n > 0 {
        lemma_byte_sq_dist_is_ones(x, y, (n - 1) as nat);
        lemma_bit_sq_diff_is_xor_bit(x, y, (n - 1) as nat);
    }
}

proof fn lemma_sq_euclid_prefix_is_hamming_prefix(a: Seq<u8>, b: Seq<u8>, n: nat)
    ensures
        sq_euclid_prefix(a, b, n) == hamming_prefix(a, b, n),
    decreases n,
{
    if n > 0 {
        lemma_sq_euclid_prefix_is_hamming_prefix(a, b, (n - 1) as nat);
        lemma_byte_sq_dist_is_ones(a[n - 1], b[n - 1], 8);
    }
}

/// On bit-packed binary images the squared Euclidean distance over the
/// unpacked pixels equals the Hamming distance.
pub proof fn lemma_squared_euclidean_equals_hamming(a: Seq<u8>, b: Seq<u8>)
    ensures
        squared_euclidean(a, b) == hamming(a, b),
{
    lemma_sq_euclid_prefix_is_hamming_prefix(a, b, paired_len(a, b));
}

proof fn lemma_ones_below_zero(n: nat)
    requires
        n <= 8,
    ensures
        ones_below(0u8, n) == 0,
    decreases n,
{
    if n > 0 {
        lemma_ones_below_zero((n - 1) as nat);
        let s = (n - 1) as u8;
        assert((0u8 >> s) & 1u8 == 0u8) by (bit_vector);
    }
}

proof fn lemma_ones_below_triangle(x: u8, y: u8, z: u8, n: nat)
    requires
        n <= 8,
    ensures
        ones_below(x ^ z, n) <= ones_below(x ^ y, n) + ones_below(y ^ z, n),
    decreases n,
{
    if n > 0 {
        let i = (n - 1) as nat;
        lemma_ones_below_triangle(x, y, z, i);
        lemma_xor_bit(x, z, i);
        lemma_xor_bit(x, y, i);
        lemma_xor_bit(y, z, i);
        lemma_bit_is_binary(x, i);
        lemma_bit_is_binary(y, i);
        lemma_bit_is_binary(z, i);
    }
}

proof fn lemma_ones_below_zero_bits(x: u8, n: nat)
    requires
        n <= 8,
        ones_below(x, n) == 0,
    ensures
        forall|i: nat| i < n ==> #[trigger] bit_of(x, i) == 0,
    decreases n,
{
    if n > 0 {
        lemma_ones_below_zero_bits(x, (n - 1) as nat);
    }
}

/// A byte with no set bit is 0.
proof fn lemma_popcount_zero_only_for_zero(x: u8)
    requires
        popcount(x) == 0,
    ensures
        x == 0,
{
    lemma_ones_below_zero_bits(x, 8);
    assert(bit_of(x, 0) == 0 && bit_of(x, 1) == 0 && bit_of(x, 2) == 0 && bit_of(x, 3) == 0);
    assert(bit_of(x, 4) == 0 && bit_of(x, 5) == 0 && bit_of(x, 6) == 0 && bit_of(x, 7) == 0);
    assert(x == 0u8) by (bit_vector)
        requires
            (x >> 0u8) & 1u8 == 0u8,
            (x >> 1u8) & 1u8 == 0u8,
            (x >> 2u8) & 1u8 == 0u8,
            (x >> 3u8) & 1u8 == 0u8,
            (x >> 4u8) & 1u8 == 0u8,
            (x >> 5u8) & 1u8 == 0u8,
            (x >> 6u8) & 1u8 == 0u8,
            (x >> 7u8) & 1u8 == 0u8,
    ;
}

proof fn lemma_hamming_prefix_laws(a: Seq<u8>, b: Seq<u8>, c: Seq<u8>, n: nat)
    requires
        n <= a.len(),
        n <= b.len(),
        n <= c.len(),
    ensures
        hamming_prefix(a, a, n) == 0,
        hamming_prefix(a, b, n) == hamming_prefix(b, a, n),
        hamming_prefix(a, c, n) <= hamming_prefix(a, b, n) + hamming_prefix(b, c, n),
        hamming_prefix(a, b, n) == 0 ==> forall|i: int| 0 <= i < n ==> #[trigger] a[i] == b[i],
    decreases n,
{
    if n > 0 {
        lemma_hamming_prefix_laws(a, b, c, (n - 1) as nat);
        let x = a[n - 1];
        let y = b[n - 1];
        let z = c[n - 1];
        assert(x ^ x == 0u8) by (bit_vector);
        lemma_ones_below_zero(8);
        assert(x ^ y == y ^ x) by (bit_vector);
        lemma_ones_below_triangle(x, y, z, 8);
        if hamming_prefix(a, b, n) == 0 {
            lemma_popcount_zero_only_for_zero(x ^ y);
            assert(x == y) by (bit_vector)
                requires
                    x ^ y == 0u8,
            ;
        }
    }
}

/// The Hamming distance of any two images is 0 from an image to itself and
/// the same in both directions.
pub proof fn lemma_hamming_identity_and_symmetry(a: Seq<u8>, b: Seq<u8>)
    ensures
        hamming(a, a) == 0,
        hamming(a, b) == hamming(b, a),
{
    lemma_hamming_prefix_laws(a, a, a, a.len());
    lemma_hamming_prefix_laws(a, b, b, paired_len(a, b));
}

/// On images of one length the Hamming distance is a metric: it is 0
/// exactly between equal images, symmetric, and obeys the triangle inequality.
pub proof fn lemma_hamming_is_metric(a: Seq<u8>, b: Seq<u8>, c: Seq<u8>)
    requires
        a.len() == b.len(),
        b.len() == c.len(),
    ensures
        hamming(a, a) == 0,
        hamming(a, b) == hamming(b, a),
        hamming(a, c) <= hamming(a, b) + hamming(b, c),
        hamming(a, b) == 0 <==> a == b,
{
    lemma_hamming_prefix_laws(a, b, c, a.len());
    lemma_hamming_prefix_laws(a, a, a, a.len());
    if hamming(a, b) == 0 {
        assert(a =~= b);
    }
}

proof fn lemma_ones_below_mono(x: u8, m: nat, n: nat)
    requires
        m <= n <= 8,
    ensures
        ones_below(x, m) <= ones_below(x, n),
    decreases n,
{
    if m < n {
        lemma_ones_below_mono(x, m, (n - 1) as nat);
    }
}

proof fn lemma_hamming_prefix_mono(a: Seq<u8>, b: Seq<u8>, m: nat, n: nat)
    requires
        m <= n,
    ensures
        hamming_prefix(a, b, m) <= hamming_prefix(a, b, n),
    decreases n,
{
    if m < n {
        lemma_hamming_prefix_mono(a, b, m, (n - 1) as nat);
    }
}

/// Hamming distance: XOR each byte pair and count the differing bits.
/// Works directly on bit-packed data; the distance must fit the `u32` sum.
pub fn hamming_distance(a: &[u8], b: &[u8]) -> (d: u32)
    requires
        hamming(a@, b@) <= u32::MAX,
    ensures
        d == hamming(a@, b@),
{
    let n: usize = if a.len() <= b.len() { a.len() } else { b.len() };
    let mut sum: u32 = 0;
    let mut i: usize = 0;
    while i < n
        invariant
            n == paired_len(a@, b@),
            hamming_prefix(a@, b@, n as nat) <= u32::MAX,
            i <= n,
            sum == hamming_prefix(a@, b@, i as nat),
        decreases n - i,
    {
        proof {
            lemma_hamming_prefix_mono(a@, b@, (i + 1) as nat, n as nat);
        }
        let ones = (a[i] ^ b[i]).count_ones();
        sum = sum + ones;
        i = i + 1;
    }
    sum
}

/// Whether the Hamming distance of `a` and `b` fits in a `u32`.
pub fn hamming_fits_u32(a: &[u8], b: &[u8]) -> (fits: bool)
    ensures
        fits == (hamming(a@, b@) <= u32::MAX),
{
    let n: usize = if a.len() <= b.len() { a.len() } else { b.len() };
    let mut sum: u64 = 0;
    let mut i: usize = 0;
    while i < n
        invariant
            n == paired_len(a@, b@),
            i <= n,
            sum == hamming_prefix(a@, b@, i as nat),
            sum <= u32::MAX,
        decreases n - i,
    {
        proof {
            lemma_popcount_at_most_8(a[i as int] ^ b[i as int]);
        }
        let ones = (a[i] ^ b[i]).count_ones();
        sum = sum + ones as u64;
        i = i + 1;
        if sum > u32::MAX as u64 {
            proof {
                lemma_hamming_prefix_mono(a@, b@, i as nat, n as nat);
            }
            return false;
        }
    }
    true
}

/// Squared Euclidean distance: unpacks each bit-packed byte into eight binary
/// pixels (0 or 1) and sums the squared differences; the distance must fit
/// the `u32` sum.
pub fn euclidean_distance(a: &[u8], b: &[u8]) -> (d: u32)
    requires
        squared_euclidean(a@, b@) <= u32::MAX,
    ensures
        d == squared_euclidean(a@, b@),
        d == hamming(a@, b@),
{
    let n: usize = if a.len() <= b.len() { a.len() } else { b.len() };
    let mut sum: u32 = 0;
    let mut i: usize = 0;
    while i < n
        invariant
            n == paired_len(a@, b@),
            sq_euclid_prefix(a@, b@, n as nat) <= u32::MAX,
            i <= n,
            sum == sq_euclid_prefix(a@, b@, i as nat),
        decreases n - i,
    {
        let ax = a[i];
        let bx = b[i];
        proof {
            lemma_sq_euclid_prefix_is_hamming_prefix(a@, b@, (i + 1) as nat);
            lemma_sq_euclid_prefix_is_hamming_prefix(a@, b@, n as nat);
            lemma_hamming_prefix_mono(a@, b@, (i + 1) as nat, n as nat);
            lemma_byte_sq_dist_is_ones(ax, bx, 8);
        }
        let mut bit: u8 = 0;
        while bit < 8
            invariant
                i < n,
                bit <= 8,
                sum == sq_euclid_prefix(a@, b@, i as nat) + byte_sq_dist_below(ax, bx, bit as nat),
                sq_euclid_prefix(a@, b@, i as nat) + byte_sq_dist_below(ax, bx, 8) <= u32::MAX,
                byte_sq_dist_below(ax, bx, 8) == ones_below(ax ^ bx, 8),
            decreases 8 - bit,
        {
            let a_bit = (ax >> bit) & 1;
            let b_bit = (bx >> bit) & 1;
            proof {
                lemma_byte_sq_dist_is_ones(ax, bx, (bit + 1) as nat);
                lemma_ones_below_mono(ax ^ bx, (bit + 1) as nat, 8);
            }
            let diff: i32 = a_bit as i32 - b_bit as i32;
            proof {
                lemma_bit_is_binary(ax, bit as nat);
                lemma_bit_is_binary(bx, bit as nat);
                lemma_bit_sq_diff_is_xor_bit(ax, bx, bit as nat);
                assert(a_bit == bit_of(ax, bit as nat));
                assert(b_bit == bit_of(bx, bit as nat));
                assert(diff == bit_of(ax, bit as nat) as int - bit_of(bx, bit as nat) as int);
                assert(diff * diff >= 0) by (nonlinear_arith);
                assert(diff * diff == bit_sq_diff(ax, bx, bit as nat));
            }
            sum = sum + (diff * diff) as u32;
            bit = bit + 1;
        }
        i = i + 1;
    }
    proof {
        lemma_squared_euclidean_equals_hamming(a@, b@);
    }
    sum
}

} // verus!
