//! Selecting the images of the digits 0 and 1, and laying images out as
//! the columns of a row-major matrix.
use crate::matrix::{entry_of, lemma_row_major, Matrix2D};
use vstd::prelude::*;

verus! {

/// A label that the binary classifier learns: the digit 0 or the digit 1.
pub open spec fn is_zero_or_one(label: u8) -> bool {
    label == 0 || label == 1
}

/// The positions of the labels 0 and 1 in `labels`, in increasing order.
pub open spec fn zero_one_positions(labels: Seq<u8>) -> Seq<int>
    decreases labels.len(),
{
    if labels.len() == 0 {
        seq![]
    } else {
        let earlier = zero_one_positions(labels.drop_last());
        if is_zero_or_one(labels.last()) {
            earlier.push(labels.len() - 1)
        } else {
            earlier
        }
    }
}

/// The items whose label is 0 or 1, in the order they came in.
pub open spec fn selected<T>(items: Seq<T>, labels: Seq<u8>) -> Seq<T> {
    zero_one_positions(labels).map_values(|k: int| items[k])
}

/// Keeps the images whose label is 0 or 1, together with those labels,
/// in the order they came in. Images and labels come in pairs.
pub fn select_zeros_and_ones<T>(images: Vec<T>, labels: Vec<u8>) -> (res: (Vec<T>, Vec<u8>))
    requires
        images@.len() == labels@.len(),
    ensures
        res.0@ == selected(images@, labels@),
        res.1@ == selected(labels@, labels@),
        res.1@ == labels@.filter(|l: u8| l == 0 || l == 1),
        forall|i: int| 0 <= i < res.1@.len() ==> #[trigger] res.1@[i] == 0 || res.1@[i] == 1,
        res.0@.len() == res.1@.len(),
        forall|i: int|
            0 <= i < res.0@.len() ==> #[trigger] res.0@[i] == images@[zero_one_positions(labels@)[i]]
                && res.1@[i] == labels@[zero_one_positions(labels@)[i]],
{
    let ghost all_images = images@;
    let mut kept_images: Vec<T> = Vec::new();
    let mut kept_labels: Vec<u8> = Vec::new();
    let n = labels.len();
    let mut idx: usize = 0;
    for image in it: images.into_iter()
        invariant
            idx == it.index(),
            it.seq() == all_images,
            all_images.len() == labels@.len(),
            n == labels@.len(),
            kept_images@ == selected(all_images, labels@.take(idx as int)),
            kept_labels@ == selected(labels@, labels@.take(idx as int)),
    {
        let label = labels[idx];
        proof {
            assert(labels@.take(idx + 1).drop_last() =~= labels@.take(idx as int));
        }
        if label == 0 || label == 1 {
            kept_images.push(image);
            kept_labels.push(label);
        }
        idx += 1;
    }
    proof {
        assert(labels@.take(idx as int) =~= labels@);
        lemma_selected_labels_are_filter(labels@);
        lemma_selected_labels_are_zero_or_one(labels@);
    }
    (kept_images, kept_labels)
}

/// The number of pixels per image that a list of images is laid out with:
/// that of the first image, or 0 for an empty list.
pub open spec fn pixels_per_image<T>(images: Seq<Vec<T>>) -> nat {
    if images.len() == 0 {
        0
    } else {
        images[0]@.len()
    }
}

/// `flat` holds the images as the columns of a row-major matrix with one
/// row per pixel and one column per image.
pub open spec fn lays_out_columns<T>(flat: Seq<T>, images: Seq<Vec<T>>) -> bool {
    &&& flat.len() == pixels_per_image(images) * images.len()
    &&& forall|p: int, i: int|
        0 <= p < pixels_per_image(images) && 0 <= i < images.len() ==> #[trigger] entry_of(
            flat,
            images.len() as int,
            p,
            i,
        ) == images[i]@[p]
}

/// Lays the images out as the columns of a row-major matrix with one row
/// per pixel: pixel `p` of image `i` lands at position `p * n + i`, where
/// `n` is the number of images. The pixel count is that of the first
/// image, and no image may be shorter.
pub fn flatten_and_transpose<T: Copy>(image: &Vec<Vec<T>>) -> (res: Vec<T>)
    requires
        forall|i: int|
            0 <= i < image@.len() ==> pixels_per_image(image@) <= #[trigger] image@[i]@.len(),
        pixels_per_image(image@) * image@.len() <= usize::MAX,
    ensures
        lays_out_columns(res@, image@),
        res@.len() == (if image@.len() == 0 {
            0
        } else {
            image@[0]@.len()
        }) * image@.len(),
        forall|p: int, i: int|
            0 <= p < (if image@.len() == 0 {
                0
            } else {
                image@[0]@.len()
            }) && 0 <= i < image@.len() ==> res@[p * image@.len() + i] == #[trigger] image@[i]@[p],
{
    let num_images = image.len();
    if num_images == 0 {
        return Vec::new();
    }
    let pixels = image[0].len();
    let mut result: Vec<T> = Vec::with_capacity(pixels * num_images);
    let mut p: usize = 0;
    while p < pixels
        invariant
            num_images == image@.len(),
            num_images > 0,
            pixels == pixels_per_image(image@),
            forall|i: int| 0 <= i < image@.len() ==> pixels <= #[trigger] image@[i]@.len(),
            p <= pixels,
            result@.len() == p * num_images,
            forall|a: int, b: int|
                0 <= a < p && 0 <= b < num_images ==> #[trigger] entry_of(
                    result@,
                    num_images as int,
                    a,
                    b,
                ) == image@[b]@[a],
        decreases pixels - p,
    {
        let mut i: usize = 0;
        while i < num_images
            invariant
                num_images == image@.len(),
                num_images > 0,
                pixels == pixels_per_image(image@),
                forall|k: int| 0 <= k < image@.len() ==> pixels <= #[trigger] image@[k]@.len(),
                p < pixels,
                i <= num_images,
                result@.len() == p * num_images + i,
                forall|a: int, b: int|
                    0 <= a < p && 0 <= b < num_images ==> #[trigger] entry_of(
                        result@,
                        num_images as int,
                        a,
                        b,
                    ) == image@[b]@[a],
                forall|b: int|
                    0 <= b < i ==> #[trigger] entry_of(result@, num_images as int, p as int, b)
                        == image@[b]@[p as int],
            decreases num_images - i,
        {
            let x = image[i][p];
            let ghost before = result@;
            result.push(x);
            proof {
                assert forall|a: int, b: int|
                    0 <= a < p && 0 <= b < num_images implies #[trigger] entry_of(
                    result@,
                    num_images as int,
                    a,
                    b,
                ) == image@[b]@[a] by {
                    lemma_row_major(a, b, p as int, num_images as int);
                    assert(entry_of(before, num_images as int, a, b) == image@[b]@[a]);
                }
                assert forall|b: int| 0 <= b < i + 1 implies #[trigger] entry_of(
                    result@,
                    num_images as int,
                    p as int,
                    b,
                ) == image@[b]@[p as int] by {
                    if b < i {
                        assert(entry_of(before, num_images as int, p as int, b)
                            == image@[b]@[p as int]);
                    }
                }
            }
            i += 1;
        }
        proof {
            assert forall|a: int, b: int|
                0 <= a < p + 1 && 0 <= b < num_images implies #[trigger] entry_of(
                result@,
                num_images as int,
                a,
                b,
            ) == image@[b]@[a] by {
                if a == p {
                    assert(entry_of(result@, num_images as int, p as int, b) == image@[b]@[a]);
                }
            }
            assert(result@.len() == (p + 1) * num_images) by (nonlinear_arith)
                requires
                    result@.len() == p * num_images + num_images,
            ;
        }
        p += 1;
    }
    proof {
        assert forall|a: int, b: int| 0 <= a < pixels && 0 <= b < num_images implies result@[a
            * num_images + b] == #[trigger] image@[b]@[a] by {
            lemma_row_major(a, b, pixels as int, num_images as int);
            assert(entry_of(result@, num_images as int, a, b) == image@[b]@[a]);
        }
    }
    result
}

/// Images become samples: in the matrix made of the flattened images, with
/// one row per pixel and one column per image, the column slice of column
/// `i` holds the pixels of image `i`.
pub proof fn lemma_image_is_column<T>(
    images: Seq<Vec<T>>,
    x: Matrix2D<T>,
    column: Matrix2D<T>,
    i: int,
)
    requires
        forall|j: int|
            0 <= j < images.len() ==> pixels_per_image(images) <= #[trigger] images[j]@.len(),
        x.wf(),
        x.rows == pixels_per_image(images),
        x.cols == images.len(),
        lays_out_columns(x.data@, images),
        0 <= i < images.len(),
        column.wf(),
        column.is_column_block_of(&x, i, i + 1),
    ensures
        column.data@ == images[i]@.take(pixels_per_image(images) as int),
{
    let pixels = pixels_per_image(images);
    assert(images[0]@.len() == pixels);
    assert(images[i]@.len() >= pixels);
    assert(column.cols == 1);
    assert(column.data@.len() == pixels) by (nonlinear_arith)
        requires
            column.data@.len() == column.rows * column.cols,
            column.cols == 1,
            column.rows == pixels,
    ;
    assert forall|k: int| 0 <= k < pixels implies column.data@[k] == images[i]@[k] by {
        assert(column.entry(k, 0) == x.entry(k, i));
        assert(entry_of(x.data@, images.len() as int, k, i) == images[i]@[k]);
    }
    assert(column.data@ =~= images[i]@.take(pixels as int));
}

/// The two layouts of the samples agree: transposing the matrix of images
/// as columns (one row per pixel) gives the images as rows, one after the
/// other, in row-major order.
pub proof fn lemma_transpose_gives_images_as_rows<T>(
    images: Seq<Vec<T>>,
    x: Matrix2D<T>,
    t: Matrix2D<T>,
)
    requires
        x.wf(),
        x.rows == pixels_per_image(images),
        x.cols == images.len(),
        lays_out_columns(x.data@, images),
        t.wf(),
        t.is_transpose_of(&x),
    ensures
        t.rows == images.len(),
        t.cols == pixels_per_image(images),
        forall|i: int, p: int|
            0 <= i < images.len() && 0 <= p < pixels_per_image(images) ==> #[trigger] t.entry(i, p)
                == images[i]@[p],
{
    assert forall|i: int, p: int|
        0 <= i < images.len() && 0 <= p < pixels_per_image(images) implies #[trigger] t.entry(i, p)
        == images[i]@[p] by {
        assert(t.entry(i, p) == x.entry(p, i));
        assert(entry_of(x.data@, images.len() as int, p, i) == images[i]@[p]);
    }
}

/// Every position found is a position of `labels` that holds 0 or 1.
pub proof fn lemma_positions_hold_zero_or_one(labels: Seq<u8>)
    ensures
        forall|i: int|
            0 <= i < zero_one_positions(labels).len() ==> 0 <= #[trigger] zero_one_positions(
                labels,
            )[i] < labels.len() && is_zero_or_one(labels[zero_one_positions(labels)[i]]),
    decreases labels.len(),
{
    if labels.len() > 0 {
        let earlier = labels.drop_last();
        lemma_positions_hold_zero_or_one(earlier);
        let ps = zero_one_positions(labels);
        assert forall|i: int| 0 <= i < ps.len() implies 0 <= #[trigger] ps[i] < labels.len()
            && is_zero_or_one(labels[ps[i]]) by {
            if i < zero_one_positions(earlier).len() {
                let p = zero_one_positions(earlier)[i];
                assert(ps[i] == p);
                assert(labels[p] == earlier[p]);
            }
        }
    }
}

/// Where every label is 0 or 1, every position is kept.
pub proof fn lemma_positions_of_zero_one_labels(labels: Seq<u8>)
    requires
        forall|i: int| 0 <= i < labels.len() ==> is_zero_or_one(#[trigger] labels[i]),
    ensures
        zero_one_positions(labels) == Seq::new(labels.len(), |i: int| i),
    decreases labels.len(),
{
    if labels.len() > 0 {
        let earlier = labels.drop_last();
        assert forall|i: int| 0 <= i < earlier.len() implies is_zero_or_one(#[trigger] earlier[i]) by {
            assert(earlier[i] == labels[i]);
        }
        lemma_positions_of_zero_one_labels(earlier);
        assert(is_zero_or_one(labels[labels.len() - 1]));
        assert(zero_one_positions(labels) =~= Seq::new(labels.len(), |i: int| i));
    } else {
        assert(zero_one_positions(labels) =~= Seq::new(labels.len(), |i: int| i));
    }
}

/// Every label that the selection keeps is 0 or 1.
pub proof fn lemma_selected_labels_are_zero_or_one(labels: Seq<u8>)
    ensures
        forall|i: int|
            0 <= i < selected(labels, labels).len() ==> #[trigger] selected(labels, labels)[i] == 0
                || selected(labels, labels)[i] == 1,
{
    lemma_positions_hold_zero_or_one(labels);
    assert forall|i: int| 0 <= i < selected(labels, labels).len() implies #[trigger] selected(
        labels,
        labels,
    )[i] == 0 || selected(labels, labels)[i] == 1 by {
        assert(selected(labels, labels)[i] == labels[zero_one_positions(labels)[i]]);
    }
}

/// The labels kept are exactly the labels 0 and 1 of the input, in order.
pub proof fn lemma_selected_labels_are_filter(labels: Seq<u8>)
    ensures
        selected(labels, labels) == labels.filter(|l: u8| l == 0 || l == 1),
    decreases labels.len(),
{
    reveal_with_fuel(Seq::filter, 1);
    if labels.len() > 0 {
        let earlier = labels.drop_last();
        lemma_selected_labels_are_filter(earlier);
        lemma_positions_hold_zero_or_one(earlier);
        assert(selected(earlier, earlier) =~= zero_one_positions(earlier).map_values(
            |k: int| labels[k],
        ));
        assert(selected(labels, labels) =~= labels.filter(|l: u8| l == 0 || l == 1));
    } else {
        assert(selected(labels, labels) =~= labels.filter(|l: u8| l == 0 || l == 1));
    }
}

/// The positions found increase strictly and each holds the label 0 or 1,
/// so each kept image sits at a position labelled 0 or 1, and the kept
/// images come in the order of the input.
pub proof fn lemma_positions_increase(labels: Seq<u8>)
    ensures
        forall|i: int, j: int|
            0 <= i < j < zero_one_positions(labels).len() ==> #[trigger] zero_one_positions(
                labels,
            )[i] < #[trigger] zero_one_positions(labels)[j],
        forall|i: int|
            0 <= i < zero_one_positions(labels).len() ==> 0 <= #[trigger] zero_one_positions(
                labels,
            )[i] < labels.len() && (labels[zero_one_positions(labels)[i]] == 0
                || labels[zero_one_positions(labels)[i]] == 1),
    decreases labels.len(),
{
    lemma_positions_hold_zero_or_one(labels);
    if labels.len() > 0 {
        let earlier = labels.drop_last();
        lemma_positions_increase(earlier);
        lemma_positions_hold_zero_or_one(earlier);
        let ps = zero_one_positions(labels);
        let es = zero_one_positions(earlier);
        assert forall|i: int, j: int| 0 <= i < j < ps.len() implies #[trigger] ps[i]
            < #[trigger] ps[j] by {
            assert(ps[i] == es[i]);
            if j < es.len() {
                assert(ps[j] == es[j]);
            } else {
                assert(ps[j] == labels.len() - 1);
            }
        }
    }
}

/// Selecting a second time changes nothing: the images and labels kept
/// come back unchanged.
pub proof fn lemma_select_twice<T>(items: Seq<T>, labels: Seq<u8>)
    ensures
        selected(selected(items, labels), selected(labels, labels)) == selected(items, labels),
        selected(selected(labels, labels), selected(labels, labels)) == selected(labels, labels),
{
    let kept = selected(labels, labels);
    lemma_selected_labels_are_zero_or_one(labels);
    lemma_positions_of_zero_one_labels(kept);
    assert(selected(selected(items, labels), kept) =~= selected(items, labels));
    assert(selected(kept, kept) =~= kept);
}

} // verus!
