//! The IDX file format of the MNIST data set.
//!
//! An image file starts with a 16-byte header: a magic number, then the
//! number of images, the number of pixel rows and the number of pixel
//! columns, each a big-endian 32-bit integer. The pixels follow, one byte
//! each, image after image. A label file starts with an 8-byte header (a
//! magic number and the number of labels); one byte per label follows.
//! The magic numbers are not checked.
use vstd::prelude::*;
use vstd::slice::slice_to_vec;

verus! {

/// The big-endian value of the four bytes of `s` starting at `off`.
pub open spec fn be_u32(s: Seq<u8>, off: int) -> nat {
    (s[off] as nat) * 0x1000000 + (s[off + 1] as nat) * 0x10000 + (s[off + 2] as nat) * 0x100 + (s[off
        + 3] as nat)
}

/// Reads the big-endian 32-bit integer at `off`.
pub fn read_be_u32(buf: &[u8], off: usize) -> (v: u32)
    requires
        off + 4 <= buf@.len(),
    ensures
        v == be_u32(buf@, off as int),
        v == buf@[off as int] as int * 0x1000000 + buf@[off + 1] as int * 0x10000 + buf@[off + 2] as int
            * 0x100 + buf@[off + 3] as int,
{
    let b0 = buf[off] as u32;
    let b1 = buf[off + 1] as u32;
    let b2 = buf[off + 2] as u32;
    let b3 = buf[off + 3] as u32;
    b0 * 0x1000000 + b1 * 0x10000 + b2 * 0x100 + b3
}

/// Number of images announced by an image file's header.
pub open spec fn picture_count(buf: Seq<u8>) -> nat {
    be_u32(buf, 4)
}

/// Number of pixels per image announced by an image file's header
/// (rows times columns).
pub open spec fn picture_size(buf: Seq<u8>) -> nat {
    be_u32(buf, 8) * be_u32(buf, 12)
}

/// The header can be read, the image size fits in a `usize`, and every
/// announced image lies inside the buffer.
pub open spec fn pictures_fit(buf: Seq<u8>) -> bool {
    &&& buf.len() >= 16
    &&& picture_size(buf) <= usize::MAX
    &&& 16 + picture_count(buf) * picture_size(buf) <= buf.len()
}

/// The pixel bytes of image `i`.
pub open spec fn picture(buf: Seq<u8>, i: int) -> Seq<u8> {
    buf.subrange(16 + i * picture_size(buf), 16 + (i + 1) * picture_size(buf))
}

/// Number of labels announced by a label file's header.
pub open spec fn label_count(buf: Seq<u8>) -> nat {
    be_u32(buf, 4)
}

/// The header can be read and every announced label lies inside the buffer.
pub open spec fn labels_fit(buf: Seq<u8>) -> bool {
    &&& buf.len() >= 8
    &&& 8 + label_count(buf) <= buf.len()
}

/// Whether `decode_pictures` can decode `buf`.
pub fn pictures_header_valid(buf: &[u8]) -> (ok: bool)
    ensures
        ok == pictures_fit(buf@),
        ok <==> buf@.len() >= 16 && (buf@[8] as int * 0x1000000 + buf@[9] as int * 0x10000 + buf@[10] as int * 0x100 + buf@[11] as int) * (buf@[12] as int * 0x1000000 + buf@[13] as int * 0x10000 + buf@[14] as int * 0x100 + buf@[15] as int) <= usize::MAX && 16 + (buf@[4] as int * 0x1000000 + buf@[5] as int * 0x10000 + buf@[6] as int * 0x100 + buf@[7] as int) * ((buf@[8] as int * 0x1000000 + buf@[9] as int * 0x10000 + buf@[10] as int * 0x100 + buf@[11] as int) * (buf@[12] as int * 0x1000000 + buf@[13] as int * 0x10000 + buf@[14] as int * 0x100 + buf@[15] as int))
            <= buf@.len(),
{
    if buf.len() < 16 {
        return false;
    }
    let count = read_be_u32(buf, 4) as u128;
    let rows = read_be_u32(buf, 8) as u128;
    let cols = read_be_u32(buf, 12) as u128;
    assert(rows * cols <= 0xffff_ffff * 0xffff_ffff) by (nonlinear_arith)
        requires
            rows <= 0xffff_ffff,
            cols <= 0xffff_ffff,
    ;
    let size = rows * cols;
    assert(count * size <= 0xffff_ffff * (0xffff_ffff * 0xffff_ffff)) by (nonlinear_arith)
        requires
            count <= 0xffff_ffff,
            size <= 0xffff_ffff * 0xffff_ffff,
    ;
    size <= usize::MAX as u128 && 16 + count * size <= buf.len() as u128
}

/// Whether `decode_labels` can decode `buf`.
pub fn labels_header_valid(buf: &[u8]) -> (ok: bool)
    ensures
        ok == labels_fit(buf@),
        ok <==> buf@.len() >= 8 && 8 + (buf@[4] as int * 0x1000000 + buf@[5] as int * 0x10000 + buf@[6] as int * 0x100 + buf@[7] as int) <= buf@.len(),
{
    if buf.len() < 8 {
        return false;
    }
    let count = read_be_u32(buf, 4) as usize;
    count <= buf.len() - 8
}

/// The pixel bytes of every image of an IDX image file, in file order.
pub fn decode_pictures(buf: &[u8]) -> (images: Vec<Vec<u8>>)
    requires
        pictures_fit(buf@),
    ensures
        images@.len() == picture_count(buf@),
        images@.len() == (buf@[4] as int * 0x1000000 + buf@[5] as int * 0x10000 + buf@[6] as int * 0x100 + buf@[7] as int),
        forall|i: int| 0 <= i < images@.len() ==> #[trigger] images@[i]@ == picture(buf@, i),
        forall|i: int|
            0 <= i < images@.len() ==> #[trigger] images@[i]@ == buf@.subrange(
                16 + i * ((buf@[8] as int * 0x1000000 + buf@[9] as int * 0x10000 + buf@[10] as int * 0x100 + buf@[11] as int) * (buf@[12] as int * 0x1000000 + buf@[13] as int * 0x10000 + buf@[14] as int * 0x100 + buf@[15] as int)),
                16 + (i + 1) * ((buf@[8] as int * 0x1000000 + buf@[9] as int * 0x10000 + buf@[10] as int * 0x100 + buf@[11] as int) * (buf@[12] as int * 0x1000000 + buf@[13] as int * 0x10000 + buf@[14] as int * 0x100 + buf@[15] as int)),
            ),
{
    let count = read_be_u32(buf, 4) as usize;
    let rows = read_be_u32(buf, 8) as usize;
    let cols = read_be_u32(buf, 12) as usize;
    let size = rows * cols;
    let n = buf.len();
    let mut images: Vec<Vec<u8>> = Vec::new();
    let mut i: usize = 0;
    while i < count
        invariant
            pictures_fit(buf@),
            count == picture_count(buf@),
            size == picture_size(buf@),
            n == buf@.len(),
            i <= count,
            images@.len() == i,
            forall|k: int| 0 <= k < i ==> #[trigger] images@[k]@ == picture(buf@, k),
        decreases count - i,
    {
        assert(16 + (i + 1) * size <= buf@.len()) by (nonlinear_arith)
            requires
                i < count,
                16 + count * size <= buf@.len(),
        ;
        assert(i * size + size == (i + 1) * size) by (nonlinear_arith);
        let start = 16 + i * size;
        let image = slice_to_vec(&buf[start..start + size]);
        images.push(image);
        i += 1;
    }
    images
}

/// The label bytes of an IDX label file, in file order.
pub fn decode_labels(buf: &[u8]) -> (labels: Vec<u8>)
    requires
        labels_fit(buf@),
    ensures
        labels@ == buf@.subrange(8, 8 + label_count(buf@) as int),
        labels@ == buf@.subrange(8, 8 + (buf@[4] as int * 0x1000000 + buf@[5] as int * 0x10000 + buf@[6] as int * 0x100 + buf@[7] as int)),
{
    let count = read_be_u32(buf, 4) as usize;
    let n = buf.len();
    assert(8 + count <= n);
    slice_to_vec(&buf[8..8 + count])
}

/// The header fields are big-endian: the image or label count is made of
/// bytes 4 to 7, the rows of bytes 8 to 11 and the columns of bytes 12 to
/// 15, most significant byte first; an image has rows times columns
/// pixels.
pub proof fn lemma_header_is_big_endian(buf: Seq<u8>)
    ensures
        picture_count(buf) == (buf[4] as int * 0x1000000 + buf[5] as int * 0x10000 + buf[6] as int * 0x100 + buf[7] as int),
        label_count(buf) == (buf[4] as int * 0x1000000 + buf[5] as int * 0x10000 + buf[6] as int * 0x100 + buf[7] as int),
        picture_size(buf) == (buf[8] as int * 0x1000000 + buf[9] as int * 0x10000 + buf[10] as int * 0x100 + buf[11] as int) * (buf[12] as int * 0x1000000 + buf[13] as int * 0x10000 + buf[14] as int * 0x100 + buf[15] as int),
        forall|off: int|
            #[trigger] be_u32(buf, off) == buf[off] as int * 0x1000000 + buf[off + 1] as int * 0x10000
                + buf[off + 2] as int * 0x100 + buf[off + 3] as int,
{
}

/// An image file can be decoded exactly when its header can be read, an
/// image's pixel count fits in a `usize`, and all announced images lie
/// inside the file.
pub proof fn lemma_pictures_fit_exactly(buf: Seq<u8>)
    ensures
        pictures_fit(buf) <==> buf.len() >= 16 && (buf[8] as int * 0x1000000 + buf[9] as int * 0x10000 + buf[10] as int * 0x100 + buf[11] as int) * (buf[12] as int * 0x1000000 + buf[13] as int * 0x10000 + buf[14] as int * 0x100 + buf[15] as int) <= usize::MAX && 16 + (buf[4] as int * 0x1000000 + buf[5] as int * 0x10000 + buf[6] as int * 0x100 + buf[7] as int) * ((buf[8] as int * 0x1000000 + buf[9] as int * 0x10000 + buf[10] as int * 0x100 + buf[11] as int)
            * (buf[12] as int * 0x1000000 + buf[13] as int * 0x10000 + buf[14] as int * 0x100 + buf[15] as int)) <= buf.len(),
{
}

/// A label file can be decoded exactly when its header can be read and all
/// announced labels lie inside the file.
pub proof fn lemma_labels_fit_exactly(buf: Seq<u8>)
    ensures
        labels_fit(buf) <==> buf.len() >= 8 && 8 + (buf[4] as int * 0x1000000 + buf[5] as int * 0x10000 + buf[6] as int * 0x100 + buf[7] as int) <= buf.len(),
{
}

} // verus!
