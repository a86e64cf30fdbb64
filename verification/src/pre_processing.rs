//! The MNIST dataset in memory: raw IDX files and the compact preprocessed
//! format are decoded from bytes, images are binarized and bit-packed.
use vstd::prelude::*;
use crate::distance::{bit_of, hamming, hamming_prefix, ones_below, popcount};

verus! {

/// Magic number of an IDX file of images.
pub const IMAGES_MAGIC: u32 = 2051;

/// Magic number of an IDX file of labels.
pub const LABELS_MAGIC: u32 = 2049;

/// A set of samples: `image_size` bytes of pixels per sample, stored one
/// after the other in `images`, and one label (a digit 0–9) per sample.
#[derive(Debug)]
pub struct MnistDataset {
    pub images: Vec<u8>,
    pub labels: Vec<u8>,
    pub image_size: usize,
}

/// Why a byte buffer could not be read as a dataset.
#[derive(Debug, Clone, Copy, PartialEq, Eq, Structural)]
pub enum LoadError {
    /// The buffer ends before the data that its header announces.
    UnexpectedEof,
}

/// A condition on which reading a pair of IDX files stops the program.
#[derive(Debug, Clone, Copy, PartialEq, Eq, Structural)]
pub enum LoadFault {
    /// An IDX images buffer whose magic number is not 2051.
    ImagesMagic(u32),
    /// An IDX labels buffer whose magic number is not 2049.
    LabelsMagic(u32),
    /// The image size announced by an IDX header does not fit in a `usize`.
    SizeOverflow,
    /// The images have size zero, so they cannot be counted.
    ZeroImageSize,
    /// The files hold different numbers of images and labels.
    CountMismatch { labels: usize, images: usize },
}

/// The `u32` stored big-endian in `b[pos..pos + 4]`.
pub open spec fn u32_be_at(b: Seq<u8>, pos: int) -> u32 {
    ((b[pos] as u32) << 24u32) | ((b[pos + 1] as u32) << 16u32) | ((b[pos + 2] as u32) << 8u32)
        | (b[pos + 3] as u32)
}

/// The `u32` stored little-endian in `b[pos..pos + 4]`.
pub open spec fn u32_le_at(b: Seq<u8>, pos: int) -> u32 {
    (b[pos] as u32) | ((b[pos + 1] as u32) << 8u32) | ((b[pos + 2] as u32) << 16u32)
        | ((b[pos + 3] as u32) << 24u32)
}

/// The four little-endian bytes of `x`.
pub open spec fn u32_le_bytes(x: u32) -> Seq<u8> {
    seq![(x & 0xffu32) as u8, ((x >> 8u32) & 0xffu32) as u8, ((x >> 16u32) & 0xffu32) as u8, ((x >> 24u32) & 0xffu32) as u8]
}

/// Little-endian bytes read back give the number they were made from.
pub proof fn lemma_u32_le_roundtrip(x: u32)
    ensures
        u32_le_at(u32_le_bytes(x), 0) == x,
{
    let b = u32_le_bytes(x);
    let b0 = (x & 0xffu32) as u8;
    let b1 = ((x >> 8u32) & 0xffu32) as u8;
    let b2 = ((x >> 16u32) & 0xffu32) as u8;
    let b3 = ((x >> 24u32) & 0xffu32) as u8;
    assert(b[0] == b0 && b[1] == b1 && b[2] == b2 && b[3] == b3);
    assert((b0 as u32) | ((b1 as u32) << 8u32) | ((b2 as u32) << 16u32) | ((b3 as u32) << 24u32)
        == x) by (bit_vector)
        requires
            b0 == (x & 0xffu32) as u8,
            b1 == ((x >> 8u32) & 0xffu32) as u8,
            b2 == ((x >> 16u32) & 0xffu32) as u8,
            b3 == ((x >> 24u32) & 0xffu32) as u8,
    ;
}

/// Number of bytes that holds `raw` pixels at one bit per pixel.
pub open spec fn packed_len(raw: nat) -> nat {
    if raw % 8 == 0 {
        raw / 8
    } else {
        raw / 8 + 1
    }
}

/// Whether pixel `p` of a raw image is on after thresholding: pixels beyond
/// the image are off.
pub open spec fn pixel_on(src: Seq<u8>, threshold: u8, p: nat) -> bool {
    p < src.len() && src[p as int] >= threshold
}

/// Byte `j` of a packed image with only its first `m` pixels (most
/// significant bit first) written.
pub open spec fn packed_byte(src: Seq<u8>, threshold: u8, j: nat, m: nat) -> u8
    decreases m,
{
    if m == 0 {
        0u8
    } else {
        let prev = packed_byte(src, threshold, j, (m - 1) as nat);
        if pixel_on(src, threshold, 8 * j + (m - 1) as nat) {
            prev | (1u8 << ((7 - (m - 1)) as u8))
        } else {
            prev
        }
    }
}


/// How many pixels of byte `j` are written once the first `done` pixels of
/// an image have been packed.
pub open spec fn pixels_written(done: int, j: nat) -> nat {
    let d = done - 8 * j;
    if d <= 0 {
        0
    } else if d >= 8 {
        8
    } else {
        d as nat
    }
}

/// Byte `j` of packed image `i` of a raw buffer, with `m` of its pixels written.
pub open spec fn packed_image_byte(images: Seq<u8>, raw: nat, threshold: u8, i: nat, j: nat, m: nat) -> u8 {
    packed_byte(images.subrange((i * raw) as int, ((i + 1) * raw) as int), threshold, j, m)
}

/// Byte `j` of image `i` in a buffer of images of `size` bytes each.
pub open spec fn byte_of_image(images: Seq<u8>, size: nat, i: int, j: int) -> u8 {
    images[i * size + j]
}

/// Pixel `p` (0 or 1) of image `i` in a buffer of bit-packed images of
/// `packed` bytes each: eight pixels per byte, most significant bit first.
pub open spec fn packed_pixel(images: Seq<u8>, packed: nat, i: int, p: int) -> u8 {
    bit_of(images[i * packed + p / 8], (7 - p % 8) as nat)
}

/// Whether pixel `p` of raw image `i` (images of `raw` bytes each) reaches the threshold.
pub open spec fn raw_pixel_on(images: Seq<u8>, raw: nat, threshold: u8, i: int, p: int) -> bool {
    p < raw && images[i * raw + p] >= threshold
}

proof fn lemma_or_single_bit(x: u8, s: u8, t: u8)
    requires
        s < 8,
        t < 8,
    ensures
        ((x | (1u8 << s)) >> t) & 1u8 == (if t == s { 1u8 } else { (x >> t) & 1u8 }),
{
    assert(((x | (1u8 << s)) >> t) & 1u8 == (if t == s { 1u8 } else { (x >> t) & 1u8 }))
        by (bit_vector)
        requires
            s < 8u8,
            t < 8u8,
    ;
}

/// Bit `7 - q` of a packed byte is pixel `q` of that byte, once written.
pub proof fn lemma_packed_byte_bits(src: Seq<u8>, threshold: u8, j: nat, m: nat, q: nat)
    requires
        m <= 8,
        q < 8,
    ensures
        bit_of(packed_byte(src, threshold, j, m), (7 - q) as nat) == (if q < m && pixel_on(
            src,
            threshold,
            8 * j + q,
        ) {
            1u8
        } else {
            0u8
        }),
    decreases m,
{
    let t = (7 - q) as u8;
    if m == 0 {
        assert((0u8 >> t) & 1u8 == 0u8) by (bit_vector);
    } else {
        lemma_packed_byte_bits(src, threshold, j, (m - 1) as nat, q);
        let prev = packed_byte(src, threshold, j, (m - 1) as nat);
        if pixel_on(src, threshold, 8 * j + (m - 1) as nat) {
            lemma_or_single_bit(prev, (7 - (m - 1)) as u8, t);
        }
    }
}

proof fn lemma_flat_index_distinct(i1: int, j1: int, i2: int, j2: int, n: int)
    requires
        0 <= j1 < n,
        0 <= j2 < n,
        i1 != i2,
    ensures
        i1 * n + j1 != i2 * n + j2,
{
    if i1 < i2 {
        assert(i1 * n + n <= i2 * n) by (nonlinear_arith)
            requires
                i1 < i2,
                n > 0,
        ;
    } else {
        assert(i2 * n + n <= i1 * n) by (nonlinear_arith)
            requires
                i2 < i1,
                n > 0,
        ;
    }
}

/// Row `i` of a buffer of rows of `n` items starts at `i * n` and ends at
/// `(i + 1) * n`, within the first `count` rows.
pub proof fn lemma_row_bounds(i: int, n: int, count: int)
    requires
        0 <= i < count,
        0 <= n,
    ensures
        0 <= i * n,
        (i + 1) * n == i * n + n,
        i * n + n <= count * n,
{
    assert(0 <= i * n) by (nonlinear_arith)
        requires
            0 <= i,
            0 <= n,
    ;
    assert((i + 1) * n == i * n + n) by (nonlinear_arith);
    assert((i + 1) * n <= count * n) by (nonlinear_arith)
        requires
            i + 1 <= count,
            0 <= n,
    ;
}

/// The bytes "MNIB" that open a preprocessed file.
pub open spec fn preprocessed_magic() -> Seq<u8> {
    seq![77u8, 78u8, 73u8, 66u8]
}

/// The number of bytes of one image that an IDX images header announces.
pub open spec fn idx_image_size(b: Seq<u8>) -> nat {
    (u32_be_at(b, 8) * u32_be_at(b, 12)) as nat
}

/// The number of image bytes that an IDX images header announces.
pub open spec fn idx_image_bytes(b: Seq<u8>) -> nat {
    u32_be_at(b, 4) as nat * idx_image_size(b)
}

/// Reading of an IDX images file whose header is sound: the pixel buffer and
/// the size of one image, or the end of the buffer coming too early.
pub open spec fn idx_images_spec(b: Seq<u8>) -> Result<(Seq<u8>, nat), LoadError> {
    if b.len() < 16 || b.len() < 16 + idx_image_bytes(b) {
        Err(LoadError::UnexpectedEof)
    } else {
        Ok((b.subrange(16, (16 + idx_image_bytes(b)) as int), idx_image_size(b)))
    }
}

/// Reading of an IDX labels file whose header is sound.
pub open spec fn idx_labels_spec(b: Seq<u8>) -> Result<Seq<u8>, LoadError> {
    if b.len() < 8 || b.len() < 8 + u32_be_at(b, 4) {
        Err(LoadError::UnexpectedEof)
    } else {
        Ok(b.subrange(8, (8 + u32_be_at(b, 4)) as int))
    }
}

/// The condition on which reading a pair of IDX files stops the program,
/// checked in the order the files are read; `None` where the reading ends
/// in a dataset or in an early end of a buffer.
pub open spec fn load_fault(image_file: Seq<u8>, label_file: Seq<u8>) -> Option<LoadFault> {
    if image_file.len() < 4 {
        None
    } else if u32_be_at(image_file, 0) != IMAGES_MAGIC {
        Some(LoadFault::ImagesMagic(u32_be_at(image_file, 0)))
    } else if image_file.len() < 16 {
        None
    } else if idx_image_size(image_file) > usize::MAX {
        Some(LoadFault::SizeOverflow)
    } else if image_file.len() < 16 + idx_image_bytes(image_file) {
        None
    } else if label_file.len() < 4 {
        None
    } else if u32_be_at(label_file, 0) != LABELS_MAGIC {
        Some(LoadFault::LabelsMagic(u32_be_at(label_file, 0)))
    } else if label_file.len() < 8 || label_file.len() < 8 + u32_be_at(label_file, 4) {
        None
    } else if idx_image_size(image_file) == 0 {
        Some(LoadFault::ZeroImageSize)
    } else if u32_be_at(label_file, 4) != u32_be_at(image_file, 4) {
        Some(LoadFault::CountMismatch {
            labels: u32_be_at(label_file, 4) as usize,
            images: u32_be_at(image_file, 4) as usize,
        })
    } else {
        None
    }
}

/// Reading of a pair of IDX files with no fault: images, labels and image size.
pub open spec fn load_spec(image_file: Seq<u8>, label_file: Seq<u8>) -> Result<(Seq<u8>, Seq<u8>, nat), LoadError> {
    match idx_images_spec(image_file) {
        Err(e) => Err(e),
        Ok((images, size)) => match idx_labels_spec(label_file) {
            Err(e) => Err(e),
            Ok(labels) => Ok((images, labels, size)),
        },
    }
}

/// A buffer that is long enough to hold a magic number but does not start
/// with "MNIB": reading it as a preprocessed file stops the program.
pub open spec fn preprocessed_fault(b: Seq<u8>) -> bool {
    b.len() >= 4 && b.take(4) != preprocessed_magic()
}

/// Reading of a preprocessed file with no fault: images, labels and image size.
pub open spec fn preprocessed_spec(b: Seq<u8>) -> Result<(Seq<u8>, Seq<u8>, nat), LoadError> {
    if b.len() < 12 {
        Err(LoadError::UnexpectedEof)
    } else {
        let count = u32_le_at(b, 4) as nat;
        let size = u32_le_at(b, 8) as nat;
        if b.len() < 12 + count * size + count {
            Err(LoadError::UnexpectedEof)
        } else {
            Ok((
                b.subrange(12, (12 + count * size) as int),
                b.subrange((12 + count * size) as int, (12 + count * size + count) as int),
                size,
            ))
        }
    }
}

/// The preprocessed encoding of a dataset: "MNIB", the sample count and the
/// image size (each as a little-endian `u32`, cut to 32 bits), the images,
/// then the labels.
pub open spec fn preprocessed_bytes(d: &MnistDataset) -> Seq<u8> {
    preprocessed_magic() + u32_le_bytes(d.labels@.len() as u32) + u32_le_bytes(d.image_size as u32)
        + d.images@ + d.labels@
}

/// `r` is the dataset that a reading `s` describes, or the same error.
pub open spec fn decoded_as(r: Result<MnistDataset, LoadError>, s: Result<(Seq<u8>, Seq<u8>, nat), LoadError>) -> bool {
    match s {
        Ok((images, labels, size)) => match r {
            Ok(d) => d.images@ == images && d.labels@ == labels && d.image_size == size,
            Err(_) => false,
        },
        Err(e) => match r {
            Ok(_) => false,
            Err(f) => f == e,
        },
    }
}

/// Reading back the preprocessed encoding of a dataset gives the dataset:
/// its images, its labels and its image size, where the sample count and
/// the image size fit in 32 bits.
pub proof fn lemma_preprocessed_roundtrip(d: &MnistDataset)
    requires
        d.is_exact(),
        d.labels@.len() <= u32::MAX,
        d.image_size <= u32::MAX,
    ensures
        !preprocessed_fault(preprocessed_bytes(d)),
        preprocessed_spec(preprocessed_bytes(d)) == Ok::<(Seq<u8>, Seq<u8>, nat), LoadError>(
            (d.images@, d.labels@, d.image_size as nat),
        ),
{
    let b = preprocessed_bytes(d);
    let n = d.labels@.len();
    let size = d.image_size as nat;
    let nb = u32_le_bytes(n as u32);
    let sb = u32_le_bytes(d.image_size as u32);
    assert(b.take(4) =~= preprocessed_magic());
    assert(b.subrange(4, 8) =~= nb);
    assert(b.subrange(8, 12) =~= sb);
    lemma_u32_le_roundtrip(n as u32);
    lemma_u32_le_roundtrip(d.image_size as u32);
    assert(u32_le_at(b, 4) == u32_le_at(nb, 0));
    assert(u32_le_at(b, 8) == u32_le_at(sb, 0));
    assert(n * size == d.images@.len());
    assert(b.subrange(12, (12 + n * size) as int) =~= d.images@);
    assert(b.subrange((12 + n * size) as int, (12 + n * size + n) as int) =~= d.labels@);
}

/// An IDX images buffer is read exactly when it holds its 16-byte header and
/// the count × rows × columns pixel bytes it announces (more bytes may
/// follow and are ignored); the images are those pixel bytes, each
/// rows × columns long.
pub proof fn lemma_idx_images_read_when_complete(b: Seq<u8>)
    ensures
        (idx_images_spec(b) is Ok) <==> (b.len() >= 16 && b.len() >= 16 + (u32_be_at(b, 4) as int) * (
        u32_be_at(b, 8) as int) * (u32_be_at(b, 12) as int)),
        b.len() >= 16 && b.len() >= 16 + (u32_be_at(b, 4) as int) * (u32_be_at(b, 8) as int) * (u32_be_at(
            b,
            12,
        ) as int) ==> idx_images_spec(b) == Ok::<(Seq<u8>, nat), LoadError>(
            (
                b.subrange(
                    16,
                    16 + (u32_be_at(b, 4) as int) * (u32_be_at(b, 8) as int) * (u32_be_at(b, 12) as int),
                ),
                ((u32_be_at(b, 8) as int) * (u32_be_at(b, 12) as int)) as nat,
            ),
        ),
{
    vstd::arithmetic::mul::lemma_mul_is_associative(
        u32_be_at(b, 4) as int,
        u32_be_at(b, 8) as int,
        u32_be_at(b, 12) as int,
    );
}

/// An IDX labels buffer is read exactly when it holds its 8-byte header and
/// the count of label bytes it announces; the labels are those bytes.
pub proof fn lemma_idx_labels_read_when_complete(b: Seq<u8>)
    ensures
        (idx_labels_spec(b) is Ok) <==> (b.len() >= 8 && b.len() >= 8 + u32_be_at(b, 4) as int),
        b.len() >= 8 && b.len() >= 8 + u32_be_at(b, 4) as int ==> idx_labels_spec(b) == Ok::<Seq<u8>, LoadError>(
            b.subrange(8, 8 + u32_be_at(b, 4) as int),
        ),
{
}

/// A preprocessed buffer is read exactly when it holds its 12-byte header,
/// the count × size image bytes and the count label bytes it announces
/// (more bytes may follow and are ignored).
pub proof fn lemma_preprocessed_read_when_complete(b: Seq<u8>)
    ensures
        (preprocessed_spec(b) is Ok) <==> (b.len() >= 12 && b.len() >= 12 + (u32_le_at(b, 4) as int) * (
        u32_le_at(b, 8) as int) + u32_le_at(b, 4) as int),
{
}

/// Reads the big-endian `u32` at `pos`, or `None` where fewer than four
/// bytes are left.
pub fn read_u32_be(bytes: &[u8], pos: usize) -> (r: Option<u32>)
    ensures
        r == (if pos + 4 <= bytes@.len() { Some(u32_be_at(bytes@, pos as int)) } else { None::<u32> }),
{
    if pos > bytes.len() || bytes.len() - pos < 4 {
        None
    } else {
        Some(((bytes[pos] as u32) << 24u32) | ((bytes[pos + 1] as u32) << 16u32) | ((bytes[pos + 2] as u32) << 8u32)
            | (bytes[pos + 3] as u32))
    }
}

/// Reads the little-endian `u32` at `pos`, which must be in the buffer.
fn read_u32_le(bytes: &[u8], pos: usize) -> (x: u32)
    requires
        pos + 4 <= bytes@.len(),
    ensures
        x == u32_le_at(bytes@, pos as int),
{
    (bytes[pos] as u32) | ((bytes[pos + 1] as u32) << 8u32) | ((bytes[pos + 2] as u32) << 16u32)
        | ((bytes[pos + 3] as u32) << 24u32)
}

/// The image size and the number of image bytes of a sound IDX images
/// header, where the buffer holds at least the header.
fn idx_image_extent(bytes: &[u8]) -> (r: (u64, u128))
    requires
        bytes@.len() >= 16,
    ensures
        r.0 == idx_image_size(bytes@),
        r.1 == idx_image_bytes(bytes@),
{
    let count = read_u32_be(bytes, 4).unwrap();
    let rows = read_u32_be(bytes, 8).unwrap();
    let cols = read_u32_be(bytes, 12).unwrap();
    assert((rows as u64) * (cols as u64) <= u64::MAX) by (nonlinear_arith)
        requires
            rows <= u32::MAX,
            cols <= u32::MAX,
    ;
    let size: u64 = (rows as u64) * (cols as u64);
    assert((count as u128) * (size as u128) <= u128::MAX) by (nonlinear_arith)
        requires
            count <= u32::MAX,
            size <= u64::MAX,
    ;
    (size, (count as u128) * (size as u128))
}

/// Tells whether reading these IDX files stops the program, and on which
/// condition: a wrong magic number, an image size beyond `usize`, images of
/// size zero, or files that hold different numbers of samples.
pub fn find_load_fault(image_file: &[u8], label_file: &[u8]) -> (f: Option<LoadFault>)
    ensures
        f == load_fault(image_file@, label_file@),
{
    let magic = match read_u32_be(image_file, 0) {
        Some(m) => m,
        None => return None,
    };
    if magic != IMAGES_MAGIC {
        return Some(LoadFault::ImagesMagic(magic));
    }
    if image_file.len() < 16 {
        return None;
    }
    let (size, total) = idx_image_extent(image_file);
    if size > usize::MAX as u64 {
        return Some(LoadFault::SizeOverflow);
    }
    if ((image_file.len() - 16) as u128) < total {
        return None;
    }
    let label_magic = match read_u32_be(label_file, 0) {
        Some(m) => m,
        None => return None,
    };
    if label_magic != LABELS_MAGIC {
        return Some(LoadFault::LabelsMagic(label_magic));
    }
    let label_count = match read_u32_be(label_file, 4) {
        Some(c) => c,
        None => return None,
    };
    if ((label_file.len() - 8) as u64) < label_count as u64 {
        return None;
    }
    if size == 0 {
        return Some(LoadFault::ZeroImageSize);
    }
    let image_count = read_u32_be(image_file, 4).unwrap();
    if label_count != image_count {
        return Some(LoadFault::CountMismatch { labels: label_count as usize, images: image_count as usize });
    }
    None
}

/// Reads an IDX images file with a sound header: its pixel buffer and the
/// size of one image.
pub fn load_images(bytes: &[u8]) -> (r: Result<(Vec<u8>, usize), LoadError>)
    requires
        bytes@.len() >= 4 ==> u32_be_at(bytes@, 0) == IMAGES_MAGIC,
        bytes@.len() >= 16 ==> idx_image_size(bytes@) <= usize::MAX,
    ensures
        match idx_images_spec(bytes@) {
            Ok((images, size)) => r matches Ok((v, s)) && v@ == images && s == size,
            Err(e) => r == Err::<(Vec<u8>, usize), LoadError>(e),
        },
        (r is Ok) <==> (bytes@.len() >= 16 && bytes@.len() >= 16 + (u32_be_at(bytes@, 4) as int) * (u32_be_at(
            bytes@,
            8,
        ) as int) * (u32_be_at(bytes@, 12) as int)),
        r matches Ok((v, s)) ==> v@ == bytes@.subrange(
            16,
            16 + (u32_be_at(bytes@, 4) as int) * (u32_be_at(bytes@, 8) as int) * (u32_be_at(bytes@, 12) as int),
        ) && s == (u32_be_at(bytes@, 8) as int) * (u32_be_at(bytes@, 12) as int),
{
    proof {
        lemma_idx_images_read_when_complete(bytes@);
    }
    if bytes.len() < 16 {
        return Err(LoadError::UnexpectedEof);
    }
    let (size, total) = idx_image_extent(bytes);
    if ((bytes.len() - 16) as u128) < total {
        return Err(LoadError::UnexpectedEof);
    }
    let end = 16 + total as usize;
    let images = vstd::slice::slice_to_vec(&bytes[16..end]);
    Ok((images, size as usize))
}

/// Reads an IDX labels file with a sound header.
fn load_labels(bytes: &[u8]) -> (r: Result<Vec<u8>, LoadError>)
    ensures
        match idx_labels_spec(bytes@) {
            Ok(labels) => r matches Ok(v) && v@ == labels,
            Err(e) => r == Err::<Vec<u8>, LoadError>(e),
        },
{
    let count = match read_u32_be(bytes, 4) {
        Some(c) => c,
        None => return Err(LoadError::UnexpectedEof),
    };
    if ((bytes.len() - 8) as u64) < count as u64 {
        return Err(LoadError::UnexpectedEof);
    }
    let end = 8 + count as usize;
    Ok(vstd::slice::slice_to_vec(&bytes[8..end]))
}

/// Reads a dataset from the contents of a raw MNIST images file and labels
/// file. The files are read in that order and a buffer that ends too early
/// gives `UnexpectedEof`. The conditions under which reading stops the
/// program (see `find_load_fault`) are left out by `requires`.
pub fn load(image_file: &[u8], label_file: &[u8]) -> (r: Result<MnistDataset, LoadError>)
    requires
        load_fault(image_file@, label_file@) is None,
    ensures
        decoded_as(r, load_spec(image_file@, label_file@)),
        r matches Ok(d) ==> d.is_exact(),
        (r is Ok) <==> (image_file@.len() >= 16 && image_file@.len() >= 16 + (u32_be_at(image_file@, 4) as int)
            * (u32_be_at(image_file@, 8) as int) * (u32_be_at(image_file@, 12) as int) && label_file@.len() >= 8
            && label_file@.len() >= 8 + u32_be_at(label_file@, 4) as int),
        r matches Ok(d) ==> d.images@ == image_file@.subrange(
            16,
            16 + (u32_be_at(image_file@, 4) as int) * (u32_be_at(image_file@, 8) as int) * (u32_be_at(
                image_file@,
                12,
            ) as int),
        ) && d.labels@ == label_file@.subrange(8, 8 + u32_be_at(label_file@, 4) as int) && d.image_size == (u32_be_at(
            image_file@,
            8,
        ) as int) * (u32_be_at(image_file@, 12) as int),
{
    proof {
        lemma_idx_images_read_when_complete(image_file@);
        lemma_idx_labels_read_when_complete(label_file@);
    }
    let (images, image_size) = match load_images(image_file) {
        Ok(v) => v,
        Err(e) => return Err(e),
    };
    let labels = match load_labels(label_file) {
        Ok(v) => v,
        Err(e) => return Err(e),
    };
    proof {
        let count = u32_be_at(image_file@, 4) as nat;
        assert(labels@.len() == count);
        assert(images@.len() == count * image_size);
        assert(labels@.len() * image_size == images@.len()) by (nonlinear_arith)
            requires
                labels@.len() == count,
                images@.len() == count * image_size,
        ;
    }
    Ok(MnistDataset { images, labels, image_size })
}

/// Tells whether reading `bytes` as a preprocessed file stops the program:
/// the buffer holds four bytes and they are not "MNIB".
pub fn lacks_preprocessed_magic(bytes: &[u8]) -> (bad: bool)
    ensures
        bad == preprocessed_fault(bytes@),
{
    if bytes.len() < 4 {
        return false;
    }
    let good = bytes[0] == 77u8 && bytes[1] == 78u8 && bytes[2] == 73u8 && bytes[3] == 66u8;
    proof {
        if good {
            assert(bytes@.take(4) =~= preprocessed_magic());
        } else if bytes@.take(4) == preprocessed_magic() {
            assert(bytes@.take(4)[0] == 77u8);
        }
    }
    !good
}

/// Reads a dataset from the contents of a preprocessed file; a buffer that
/// ends too early gives `UnexpectedEof`. A buffer that does not start with
/// "MNIB" stops the program and is left out by `requires`.
pub fn decode_preprocessed(bytes: &[u8]) -> (r: Result<MnistDataset, LoadError>)
    requires
        !preprocessed_fault(bytes@),
    ensures
        decoded_as(r, preprocessed_spec(bytes@)),
        (r is Ok) <==> (bytes@.len() >= 12 && bytes@.len() >= 12 + (u32_le_at(bytes@, 4) as int) * (u32_le_at(
            bytes@,
            8,
        ) as int) + u32_le_at(bytes@, 4) as int),
{
    if bytes.len() < 12 {
        return Err(LoadError::UnexpectedEof);
    }
    let count = read_u32_le(bytes, 4);
    let size = read_u32_le(bytes, 8);
    assert((count as u64) * (size as u64) <= u64::MAX) by (nonlinear_arith)
        requires
            count <= u32::MAX,
            size <= u32::MAX,
    ;
    let image_bytes: u64 = (count as u64) * (size as u64);
    let available: u64 = (bytes.len() - 12) as u64;
    if available < image_bytes || available - image_bytes < count as u64 {
        return Err(LoadError::UnexpectedEof);
    }
    let images_end = 12 + image_bytes as usize;
    let labels_end = images_end + count as usize;
    let images = vstd::slice::slice_to_vec(&bytes[12..images_end]);
    let labels = vstd::slice::slice_to_vec(&bytes[images_end..labels_end]);
    Ok(MnistDataset { images, labels, image_size: size as usize })
}

/// Pixels among the first `n` at which images `i` and `j` of a raw buffer
/// differ once thresholded.
pub open spec fn differing_pixels(images: Seq<u8>, raw: nat, threshold: u8, i: int, j: int, n: nat) -> nat
    decreases n,
{
    if n == 0 {
        0
    } else {
        differing_pixels(images, raw, threshold, i, j, (n - 1) as nat) + (if raw_pixel_on(
            images,
            raw,
            threshold,
            i,
            n - 1,
        ) != raw_pixel_on(images, raw, threshold, j, n - 1) {
            1nat
        } else {
            0nat
        })
    }
}

/// Bit positions among the first `n` (eight per byte, most significant bit
/// first) at which two packed images differ.
pub open spec fn differing_bits(a: Seq<u8>, b: Seq<u8>, n: nat) -> nat
    decreases n,
{
    if n == 0 {
        0
    } else {
        let p = n - 1;
        differing_bits(a, b, (n - 1) as nat) + (if bit_of(a[p / 8], (7 - p % 8) as nat) != bit_of(
            b[p / 8],
            (7 - p % 8) as nat,
        ) {
            1nat
        } else {
            0nat
        })
    }
}

/// Set bits of `z` among its `m` most significant bits.
pub open spec fn ones_from_top(z: u8, m: nat) -> nat
    decreases m,
{
    if m == 0 {
        0
    } else {
        (ones_from_top(z, (m - 1) as nat) + bit_of(z, (7 - (m - 1)) as nat)) as nat
    }
}

proof fn lemma_popcount_from_top(z: u8)
    ensures
        popcount(z) == ones_from_top(z, 8),
{
    reveal_with_fuel(ones_below, 9);
    reveal_with_fuel(ones_from_top, 9);
}

proof fn lemma_differing_bits_in_byte(a: Seq<u8>, b: Seq<u8>, byte: nat, m: nat)
    requires
        m <= 8,
        byte < a.len(),
        byte < b.len(),
    ensures
        differing_bits(a, b, 8 * byte + m) == differing_bits(a, b, 8 * byte) + ones_from_top(a[byte as int] ^ b[byte as int], m),
    decreases m,
{
    if m > 0 {
        lemma_differing_bits_in_byte(a, b, byte, (m - 1) as nat);
        let p = 8 * byte + m - 1;
        assert(p / 8 == byte);
        assert(p % 8 == m - 1);
        crate::distance::lemma_xor_bit(a[byte as int], b[byte as int], (7 - (m - 1)) as nat);
    }
}

proof fn lemma_hamming_counts_bits(a: Seq<u8>, b: Seq<u8>, n: nat)
    requires
        n <= a.len(),
        n <= b.len(),
    ensures
        hamming_prefix(a, b, n) == differing_bits(a, b, 8 * n),
    decreases n,
{
    if n > 0 {
        lemma_hamming_counts_bits(a, b, (n - 1) as nat);
        lemma_differing_bits_in_byte(a, b, (n - 1) as nat, 8);
        lemma_popcount_from_top(a[n - 1] ^ b[n - 1]);
    }
}

/// The Hamming distance of two packed images of equal length counts the bit
/// positions at which they differ.
pub proof fn lemma_hamming_counts_differing_bits(a: Seq<u8>, b: Seq<u8>)
    requires
        a.len() == b.len(),
    ensures
        hamming(a, b) == differing_bits(a, b, 8 * a.len()),
{
    lemma_hamming_counts_bits(a, b, a.len());
}

proof fn lemma_differing_bits_are_pixels(
    packed: Seq<u8>,
    psize: nat,
    images: Seq<u8>,
    raw: nat,
    threshold: u8,
    i: int,
    j: int,
    n: nat,
)
    requires
        n <= 8 * psize,
        0 <= i,
        0 <= j,
        (i + 1) * psize <= packed.len(),
        (j + 1) * psize <= packed.len(),
        forall|p: int| 0 <= p < 8 * psize ==> #[trigger] packed_pixel(packed, psize, i, p) == (if raw_pixel_on(images, raw, threshold, i, p) { 1u8 } else { 0u8 }),
        forall|p: int| 0 <= p < 8 * psize ==> #[trigger] packed_pixel(packed, psize, j, p) == (if raw_pixel_on(images, raw, threshold, j, p) { 1u8 } else { 0u8 }),
    ensures
        differing_bits(
            packed.subrange(i * psize, (i + 1) * psize),
            packed.subrange(j * psize, (j + 1) * psize),
            n,
        ) == differing_pixels(images, raw, threshold, i, j, n),
    decreases n,
{
    if n > 0 {
        lemma_differing_bits_are_pixels(packed, psize, images, raw, threshold, i, j, (n - 1) as nat);
        let p = n - 1;
        let a = packed.subrange(i * psize, (i + 1) * psize);
        let b = packed.subrange(j * psize, (j + 1) * psize);
        assert(p / 8 < psize);
        lemma_row_bounds(i, psize as int, i + 1);
        lemma_row_bounds(j, psize as int, j + 1);
        assert(a[p / 8] == packed[i * psize + p / 8]);
        assert(b[p / 8] == packed[j * psize + p / 8]);
        assert(packed_pixel(packed, psize, i, p) == bit_of(a[p / 8], (7 - p % 8) as nat));
        assert(packed_pixel(packed, psize, j, p) == bit_of(b[p / 8], (7 - p % 8) as nat));
    }
}

proof fn lemma_padding_pixels_agree(images: Seq<u8>, raw: nat, threshold: u8, i: int, j: int, n: nat)
    requires
        raw <= n,
    ensures
        differing_pixels(images, raw, threshold, i, j, n) == differing_pixels(images, raw, threshold, i, j, raw),
    decreases n,
{
    if n > raw {
        lemma_padding_pixels_agree(images, raw, threshold, i, j, (n - 1) as nat);
    }
}

/// After `binarize`, the Hamming distance between two packed images is the
/// number of pixels at which the two raw images differ once thresholded.
/// The requirements on `i` and `j` are what `binarize` ensures of every sample.
pub proof fn lemma_hamming_of_binarized_images(
    packed: Seq<u8>,
    psize: nat,
    images: Seq<u8>,
    raw: nat,
    threshold: u8,
    i: int,
    j: int,
)
    requires
        psize == packed_len(raw),
        0 <= i,
        0 <= j,
        (i + 1) * psize <= packed.len(),
        (j + 1) * psize <= packed.len(),
        forall|p: int| 0 <= p < 8 * psize ==> #[trigger] packed_pixel(packed, psize, i, p) == (if raw_pixel_on(images, raw, threshold, i, p) { 1u8 } else { 0u8 }),
        forall|p: int| 0 <= p < 8 * psize ==> #[trigger] packed_pixel(packed, psize, j, p) == (if raw_pixel_on(images, raw, threshold, j, p) { 1u8 } else { 0u8 }),
    ensures
        hamming(packed.subrange(i * psize, (i + 1) * psize), packed.subrange(j * psize, (j + 1) * psize))
            == differing_pixels(images, raw, threshold, i, j, raw),
{
    let a = packed.subrange(i * psize, (i + 1) * psize);
    let b = packed.subrange(j * psize, (j + 1) * psize);
    lemma_row_bounds(i, psize as int, i + 1);
    lemma_row_bounds(j, psize as int, j + 1);
    assert(a.len() == psize && b.len() == psize);
    lemma_hamming_counts_differing_bits(a, b);
    lemma_differing_bits_are_pixels(packed, psize, images, raw, threshold, i, j, 8 * psize);
    lemma_padding_pixels_agree(images, raw, threshold, i, j, 8 * psize);
}

proof fn lemma_bits_imply_mask(x: u8, y: u8)
    requires
        forall|s: nat| s < 8 ==> (#[trigger] bit_of(y, s) == 1 ==> bit_of(x, s) == 1),
    ensures
        y & !x == 0,
{
    assert(bit_of(y, 0) == 1 ==> bit_of(x, 0) == 1);
    assert(bit_of(y, 1) == 1 ==> bit_of(x, 1) == 1);
    assert(bit_of(y, 2) == 1 ==> bit_of(x, 2) == 1);
    assert(bit_of(y, 3) == 1 ==> bit_of(x, 3) == 1);
    assert(bit_of(y, 4) == 1 ==> bit_of(x, 4) == 1);
    assert(bit_of(y, 5) == 1 ==> bit_of(x, 5) == 1);
    assert(bit_of(y, 6) == 1 ==> bit_of(x, 6) == 1);
    assert(bit_of(y, 7) == 1 ==> bit_of(x, 7) == 1);
    assert(y & !x == 0u8) by (bit_vector)
        requires
            (y >> 0u8) & 1u8 == 1u8 ==> (x >> 0u8) & 1u8 == 1u8,
            (y >> 1u8) & 1u8 == 1u8 ==> (x >> 1u8) & 1u8 == 1u8,
            (y >> 2u8) & 1u8 == 1u8 ==> (x >> 2u8) & 1u8 == 1u8,
            (y >> 3u8) & 1u8 == 1u8 ==> (x >> 3u8) & 1u8 == 1u8,
            (y >> 4u8) & 1u8 == 1u8 ==> (x >> 4u8) & 1u8 == 1u8,
            (y >> 5u8) & 1u8 == 1u8 ==> (x >> 5u8) & 1u8 == 1u8,
            (y >> 6u8) & 1u8 == 1u8 ==> (x >> 6u8) & 1u8 == 1u8,
            (y >> 7u8) & 1u8 == 1u8 ==> (x >> 7u8) & 1u8 == 1u8,
    ;
}

/// Binarizing is monotone in the threshold. Take the packed buffers that
/// `binarize` makes of the same raw images at thresholds `low_t <= high_t`
/// (the requirements are what its `ensures` states): every bit set at the
/// higher threshold is set at the lower one, and at threshold 0 every pixel
/// of every image is on.
pub proof fn lemma_binarize_monotone(
    images: Seq<u8>,
    raw: nat,
    count: nat,
    low_t: u8,
    high_t: u8,
    low: Seq<u8>,
    high: Seq<u8>,
)
    requires
        low_t <= high_t,
        low.len() == count * packed_len(raw),
        high.len() == count * packed_len(raw),
        forall|i: int, p: int|
            0 <= i < count && 0 <= p < 8 * packed_len(raw) ==> #[trigger] packed_pixel(low, packed_len(raw), i, p)
                == (if raw_pixel_on(images, raw, low_t, i, p) { 1u8 } else { 0u8 }),
        forall|i: int, p: int|
            0 <= i < count && 0 <= p < 8 * packed_len(raw) ==> #[trigger] packed_pixel(high, packed_len(raw), i, p)
                == (if raw_pixel_on(images, raw, high_t, i, p) { 1u8 } else { 0u8 }),
    ensures
        forall|k: int| 0 <= k < high.len() ==> #[trigger] high[k] & !low[k] == 0,
        low_t == 0 ==> forall|i: int, p: int|
            0 <= i < count && 0 <= p < raw ==> #[trigger] packed_pixel(low, packed_len(raw), i, p) == 1,
{
    let ps = packed_len(raw);
    assert forall|k: int| 0 <= k < high.len() implies #[trigger] high[k] & !low[k] == 0 by {
        assert(ps > 0) by (nonlinear_arith)
            requires
                0 <= k < count * ps,
        ;
        let i = k / (ps as int);
        let j = k % (ps as int);
        vstd::arithmetic::div_mod::lemma_fundamental_div_mod(k, ps as int);
        assert(0 <= i < count) by (nonlinear_arith)
            requires
                k == ps * i + j,
                0 <= j < ps,
                0 <= k < count * ps,
        ;
        assert(i * ps + j == k) by (nonlinear_arith)
            requires
                k == ps * i + j,
        ;
        assert forall|s: nat| s < 8 implies (#[trigger] bit_of(high[k], s) == 1 ==> bit_of(low[k], s) == 1) by {
            let p = 8 * j + (7 - s);
            assert(p / 8 == j && p % 8 == 7 - s);
            assert(packed_pixel(high, ps, i, p) == bit_of(high[k], s));
            assert(packed_pixel(low, ps, i, p) == bit_of(low[k], s));
        }
        lemma_bits_imply_mask(low[k], high[k]);
    }
    if low_t == 0 {
        assert forall|i: int, p: int| 0 <= i < count && 0 <= p < raw implies #[trigger] packed_pixel(low, ps, i, p) == 1 by {
            assert(p < 8 * ps);
        }
    }
}

impl MnistDataset {
    /// The number of samples.
    pub open spec fn count(&self) -> nat {
        self.labels@.len()
    }

    /// Every sample has its full image in the buffer.
    pub open spec fn holds_all_images(&self) -> bool {
        self.labels@.len() * self.image_size <= self.images@.len()
    }

    /// The buffer holds exactly one image per sample.
    pub open spec fn is_exact(&self) -> bool {
        self.labels@.len() * self.image_size == self.images@.len()
    }

    /// The pixels of sample `i`.
    pub open spec fn image_at(&self, i: int) -> Seq<u8> {
        self.images@.subrange(i * self.image_size, (i + 1) * self.image_size)
    }

    /// Every label is a digit.
    pub open spec fn labels_are_digits(&self) -> bool {
        forall|i: int| 0 <= i < self.labels@.len() ==> self.labels@[i] < 10
    }

    /// The number of samples.
    pub fn len(&self) -> (n: usize)
        ensures
            n == self.labels@.len(),
    {
        self.labels.len()
    }

    /// Returns the pixel slice of sample `i`.
    pub fn image(&self, i: usize) -> (img: &[u8])
        requires
            (i + 1) * self.image_size <= self.images@.len(),
        ensures
            img@ == self.image_at(i as int),
    {
        proof {
            lemma_row_bounds(i as int, self.image_size as int, i + 1);
        }
        assert(self.images@.len() == self.images.len());
        let start = i * self.image_size;
        let end = start + self.image_size;
        &self.images.as_slice()[start..end]
    }

    /// Returns a new dataset containing only the first `n` samples (all of
    /// them where there are fewer).
    pub fn subset(&self, n: usize) -> (sub: MnistDataset)
        requires
            (if n <= self.labels@.len() { n as nat } else { self.labels@.len() }) * self.image_size
                <= self.images@.len(),
        ensures
            sub.labels@ == self.labels@.take(
                if n <= self.labels@.len() { n as int } else { self.labels@.len() as int },
            ),
            sub.images@ == self.images@.take(sub.labels@.len() * self.image_size),
            sub.image_size == self.image_size,
            sub.is_exact(),
    {
        let len = self.len();
        let n = if n < len { n } else { len };
        assert(self.images@.len() == self.images.len());
        let bytes = n * self.image_size;
        let images = vstd::slice::slice_to_vec(&self.images.as_slice()[0..bytes]);
        let labels = vstd::slice::slice_to_vec(&self.labels.as_slice()[0..n]);
        MnistDataset { images, labels, image_size: self.image_size }
    }

    /// The preprocessed encoding of the dataset: "MNIB", the sample count and
    /// the image size as little-endian `u32` (cut to 32 bits), all image
    /// bytes, then all labels.
    pub fn encode_preprocessed(&self) -> (bytes: Vec<u8>)
        requires
            12 + self.images@.len() + self.labels@.len() <= usize::MAX,
        ensures
            bytes@ == preprocessed_bytes(self),
    {
        let mut out: Vec<u8> = Vec::new();
        out.push(77u8);
        out.push(78u8);
        out.push(73u8);
        out.push(66u8);
        let count = #[verifier::truncate] (self.len() as u32);
        let size = #[verifier::truncate] (self.image_size as u32);
        out.push((count & 0xffu32) as u8);
        out.push(((count >> 8u32) & 0xffu32) as u8);
        out.push(((count >> 16u32) & 0xffu32) as u8);
        out.push(((count >> 24u32) & 0xffu32) as u8);
        out.push((size & 0xffu32) as u8);
        out.push(((size >> 8u32) & 0xffu32) as u8);
        out.push(((size >> 16u32) & 0xffu32) as u8);
        out.push(((size >> 24u32) & 0xffu32) as u8);
        let mut images = vstd::slice::slice_to_vec(self.images.as_slice());
        let mut labels = vstd::slice::slice_to_vec(self.labels.as_slice());
        out.append(&mut images);
        out.append(&mut labels);
        assert(out@ =~= preprocessed_bytes(self));
        out
    }

    /// Binarizes and bit-packs every image in place: a pixel at or above
    /// `threshold` becomes bit 1, one below it bit 0. Each image of `raw`
    /// bytes shrinks to `raw / 8` bytes, rounded up (8 pixels per byte, most
    /// significant bit first); unused bits of the last byte are 0.
    pub fn binarize(&mut self, threshold: u8)
        requires
            old(self).holds_all_images(),
        ensures
            final(self).labels@ == old(self).labels@,
            final(self).image_size == packed_len(old(self).image_size as nat),
            final(self).is_exact(),
            forall|i: int, p: int|
                0 <= i < old(self).labels@.len() && 0 <= p < 8 * final(self).image_size ==>
                    #[trigger] packed_pixel(final(self).images@, final(self).image_size as nat, i, p)
                    == (if raw_pixel_on(old(self).images@, old(self).image_size as nat, threshold, i, p) {
                    1u8
                } else {
                    0u8
                }),
    {
        let raw_size = self.image_size;
        let packed_size = raw_size / 8 + if raw_size % 8 == 0 { 0 } else { 1 };
        let count = self.len();
        let ghost old_images = self.images@;
        let ghost raw = raw_size as nat;
        let ghost psz = packed_size as nat;
        assert(packed_size <= raw_size);
        assert(count * packed_size <= count * raw_size) by (nonlinear_arith)
            requires
                packed_size <= raw_size,
        ;
        assert(self.images@.len() == self.images.len());
        let mut packed: Vec<u8> = vec![0u8; count * packed_size];
        proof {
            assert forall|i2: int, j: int|
                0 <= i2 < count && 0 <= j < packed_size implies #[trigger] byte_of_image(packed@, psz, i2, j) == 0u8 by {
                lemma_row_bounds(i2, packed_size as int, count as int);
            }
        }
        let mut i: usize = 0;
        while i < count
            invariant
                count == old(self).labels@.len(),
                count * raw_size <= old_images.len(),
                old_images.len() <= usize::MAX,
                count * packed_size <= usize::MAX,
                old_images == self.images@,
                raw == raw_size,
                psz == packed_size,
                packed_size == packed_len(raw),
                packed_size <= raw_size,
                packed@.len() == count * packed_size,
                i <= count,
                forall|i2: int, j: int|
                    0 <= i2 < i && 0 <= j < packed_size ==> #[trigger] byte_of_image(packed@, psz, i2, j)
                        == packed_image_byte(old_images, raw, threshold, i2 as nat, j as nat, pixels_written(raw as int, j as nat)),
                forall|i2: int, j: int|
                    i <= i2 < count && 0 <= j < packed_size ==> #[trigger] byte_of_image(packed@, psz, i2, j) == 0u8,
            decreases count - i,
        {
            proof {
                lemma_row_bounds(i as int, raw_size as int, count as int);
                lemma_row_bounds(i as int, packed_size as int, count as int);
            }
            let base_src = i * raw_size;
            let base_dst = i * packed_size;
            let mut bit_idx: usize = 0;
            while bit_idx < raw_size
                invariant
                    count == old(self).labels@.len(),
                    count * raw_size <= old_images.len(),
                    old_images.len() <= usize::MAX,
                    count * packed_size <= usize::MAX,
                    old_images == self.images@,
                    raw == raw_size,
                    psz == packed_size,
                    packed_size == packed_len(raw),
                    packed@.len() == count * packed_size,
                    i < count,
                    base_src == i * raw_size,
                    base_dst == i * packed_size,
                    base_src + raw_size <= old_images.len(),
                    (i + 1) * raw_size == base_src + raw_size,
                    base_dst + packed_size <= count * packed_size,
                    bit_idx <= raw_size,
                    forall|i2: int, j: int|
                        0 <= i2 < i && 0 <= j < packed_size ==> #[trigger] byte_of_image(packed@, psz, i2, j)
                            == packed_image_byte(old_images, raw, threshold, i2 as nat, j as nat, pixels_written(raw as int, j as nat)),
                    forall|i2: int, j: int|
                        i < i2 < count && 0 <= j < packed_size ==> #[trigger] byte_of_image(packed@, psz, i2, j) == 0u8,
                    forall|j: int|
                        0 <= j < packed_size ==> #[trigger] byte_of_image(packed@, psz, i as int, j)
                            == packed_image_byte(old_images, raw, threshold, i as nat, j as nat, pixels_written(bit_idx as int, j as nat)),
                decreases raw_size - bit_idx,
            {
                let pixel = self.images[base_src + bit_idx];
                let j = bit_idx / 8;
                let q = bit_idx % 8;
                let ghost src = old_images.subrange((i * raw) as int, ((i + 1) * raw) as int);
                let ghost prev = packed@;
                assert(src[bit_idx as int] == pixel);
                if pixel >= threshold {
                    let cur = packed[base_dst + j];
                    packed.set(base_dst + j, cur | (1u8 << (7 - q as u8)));
                }
                proof {
                    assert forall|i2: int, j2: int|
                        0 <= i2 < count && 0 <= j2 < packed_size && (i2 != i || j2 != j) implies
                        #[trigger] byte_of_image(packed@, psz, i2, j2) == byte_of_image(prev, psz, i2, j2) by {
                        if i2 != i {
                            lemma_flat_index_distinct(i2, j2, i as int, j as int, packed_size as int);
                        }
                        lemma_row_bounds(i2, packed_size as int, count as int);
                    }
                    assert forall|j2: int| 0 <= j2 < packed_size implies
                        #[trigger] byte_of_image(packed@, psz, i as int, j2)
                            == packed_image_byte(old_images, raw, threshold, i as nat, j2 as nat, pixels_written(bit_idx + 1, j2 as nat)) by {
                        if j2 != j {
                            assert(byte_of_image(packed@, psz, i as int, j2) == byte_of_image(prev, psz, i as int, j2));
                            assert(pixels_written(bit_idx + 1, j2 as nat) == pixels_written(bit_idx as int, j2 as nat));
                        } else {
                            assert(pixels_written(bit_idx as int, j as nat) == q);
                            assert(pixels_written(bit_idx + 1, j as nat) == q + 1);
                            assert(pixel_on(src, threshold, 8 * (j as nat) + q as nat) == (pixel >= threshold));
                            let before = byte_of_image(prev, psz, i as int, j as int);
                            assert(before == packed_byte(src, threshold, j as nat, q as nat));
                            if pixel >= threshold {
                                assert(packed@[base_dst + j] == before | (1u8 << (7 - q as u8)));
                            }
                            assert(packed_byte(src, threshold, j as nat, (q + 1) as nat) == byte_of_image(packed@, psz, i as int, j as int));
                        }
                    }
                }
                bit_idx = bit_idx + 1;
            }
            i = i + 1;
        }
        proof {
            assert forall|i2: int, p: int|
                0 <= i2 < count && 0 <= p < 8 * packed_size implies
                #[trigger] packed_pixel(packed@, psz, i2, p)
                    == (if raw_pixel_on(old_images, raw, threshold, i2, p) { 1u8 } else { 0u8 }) by {
                let j = p / 8;
                let q = p % 8;
                assert(byte_of_image(packed@, psz, i2, j) == packed@[i2 * psz + p / 8]);
                let m = pixels_written(raw as int, j as nat);
                lemma_packed_byte_bits(old_images.subrange(i2 * raw, (i2 + 1) * raw), threshold, j as nat, m, q as nat);
                lemma_row_bounds(i2, raw as int, count as int);
                if p < raw {
                    assert(old_images.subrange(i2 * raw, (i2 + 1) * raw)[p] == old_images[i2 * raw + p]);
                }
            }
        }
        self.images = packed;
        self.image_size = packed_size;
    }
}

} // verus!
