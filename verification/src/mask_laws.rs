//! Laws on masks: which pixels are visible, which are kept, and which are on the
//! border.

use crate::grid;
use crate::mask;
use vstd::prelude::*;

verus! {

/// A pixel is in the mask of an image if and only if its alpha, the last of its
/// four bytes, is above the threshold.
pub proof fn law_pixel_is_visible_by_alpha(pixels: Seq<u8>, n: int, threshold: u8, i: int)
    requires
        0 <= i < n,
        4 * n <= pixels.len(),
    ensures
        mask::visible(pixels, n, threshold).len() == n,
        mask::visible(pixels, n, threshold)[i] <==> pixels[4 * i + 3] > threshold,
{
}

/// Two cells share a side if and only if they are one column apart in the same row,
/// or one row apart in the same column.
pub proof fn law_adjacent_cells_share_a_side(w: int, h: int, a: (int, int), b: (int, int))
    requires
        0 <= a.0 < w,
        0 <= b.0 < w,
        0 <= a.1 < h,
        0 <= b.1 < h,
    ensures
        grid::adjacent(w, a.1 * w + a.0, b.1 * w + b.0) <==> {
            ||| a.1 == b.1 && (a.0 == b.0 + 1 || b.0 == a.0 + 1)
            ||| a.0 == b.0 && (a.1 == b.1 + 1 || b.1 == a.1 + 1)
        },
{
    let i = a.1 * w + a.0;
    let j = b.1 * w + b.0;
    grid::lemma_cell_at(w, h, a.0, a.1);
    grid::lemma_cell_at(w, h, b.0, b.1);
    grid::lemma_neighbours(w, h, i);
    grid::lemma_neighbours(w, h, j);
    let d = b.1 - a.1;
    assert(b.1 * w == a.1 * w + d * w) by (nonlinear_arith)
        requires
            b.1 == a.1 + d,
    ;
    assert(d >= 1 ==> d * w >= w) by (nonlinear_arith)
        requires
            w > 0,
    ;
    assert(d <= -1 ==> d * w <= -w) by (nonlinear_arith)
        requires
            w > 0,
    ;
    assert(d >= 2 ==> d * w >= 2 * w) by (nonlinear_arith)
        requires
            w > 0,
    ;
    assert(d <= -2 ==> d * w <= -2 * w) by (nonlinear_arith)
        requires
            w > 0,
    ;
    assert(0 * w == 0 && 1 * w == w && (-1) * w == -w) by (nonlinear_arith);
}

/// What is connected with a kept cell is kept.
pub proof fn law_component_is_kept_whole(mask: Seq<bool>, w: int, n: int, i: int, j: int)
    requires
        0 <= n <= mask.len(),
        0 <= i < mask.len(),
        mask::largest_component(mask, w, n)[i],
        grid::connected(mask, w, n, i, j),
    ensures
        0 <= j < n,
        mask::largest_component(mask, w, n)[j],
{
    let s = mask::largest_start(mask, w, n, n)->0;
    grid::lemma_connected_through(mask, w, n, s, i, j);
    grid::lemma_connected_open(mask, w, n, i, j);
}

/// Where anything is solid, something is kept, and whatever is kept is in a
/// component that no other one exceeds. Of several equally large ones, the kept one
/// has the first cell.
pub proof fn law_largest_is_kept(mask: Seq<bool>, w: int, n: int, i: int) -> (s: int)
    requires
        0 <= i < n <= mask.len(),
        mask[i],
    ensures
        0 <= s < n,
        mask::largest_component(mask, w, n).len() == mask.len(),
        mask::largest_component(mask, w, n)[s],
        forall|k: int|
            0 <= k < n && #[trigger] mask::largest_component(mask, w, n)[k] ==> grid::component(
                mask,
                w,
                n,
                i,
            ).len() <= grid::component(mask, w, n, k).len(),
        grid::component(mask, w, n, i).len() == grid::component(mask, w, n, s).len() ==> s <= i,
{
    mask::law_largest_component_is_largest(mask, w, n, i);
    let s = mask::largest_start(mask, w, n, n)->0;
    grid::lemma_connected_self(mask, w, n, s);
    assert forall|k: int|
        0 <= k < n && #[trigger] mask::largest_component(mask, w, n)[k] implies grid::component(
        mask,
        w,
        n,
        i,
    ).len() <= grid::component(mask, w, n, k).len() by {
        grid::lemma_same_component(mask, w, n, s, k);
    }
    if i < s {
        mask::law_largest_component_is_first(mask, w, n, i);
    }
    s
}

/// A pixel is on the border if and only if it is solid, and at the edge of the
/// image or beside a pixel that is not solid.
pub proof fn law_border_pixel_has_an_open_side(mask: Seq<bool>, w: int, h: int, x: i32, y: i32)
    requires
        0 < w <= i32::MAX,
        0 < h <= i32::MAX,
        mask.len() == w * h,
    ensures
        mask::border(mask, w, h, w * h).contains((x, y)) <==> {
            &&& 0 <= x < w
            &&& 0 <= y < h
            &&& mask[y * w + x]
            &&& {
                ||| x == 0
                ||| x == w - 1
                ||| y == 0
                ||| y == h - 1
                ||| !mask[y * w + x - 1]
                ||| !mask[y * w + x + 1]
                ||| !mask[(y - 1) * w + x]
                ||| !mask[(y + 1) * w + x]
            }
        },
{
    mask::law_border_is_complete(mask, w, h, x, y);
}

/// The border is listed row by row, and in each row from left to right; no pixel
/// occurs twice.
pub proof fn law_border_is_in_order(mask: Seq<bool>, w: int, h: int, i: int, j: int)
    requires
        0 < w <= i32::MAX,
        0 < h <= i32::MAX,
        0 <= i < j < mask::border(mask, w, h, w * h).len(),
    ensures
        ({
            let a = mask::border(mask, w, h, w * h)[i];
            let b = mask::border(mask, w, h, w * h)[j];
            a.1 < b.1 || (a.1 == b.1 && a.0 < b.0)
        }),
{
    assert(w * h >= 0) by (nonlinear_arith)
        requires
            w > 0,
            h > 0,
    ;
    lemma_border_order(mask, w, h, w * h, j);
    lemma_border_order(mask, w, h, w * h, i);
    lemma_border_increases(mask, w, h, w * h, i, j);
    let a = mask::border(mask, w, h, w * h)[i];
    let b = mask::border(mask, w, h, w * h)[j];
    if a.1 > b.1 {
        let d = a.1 - b.1;
        assert(a.1 * w >= b.1 * w + w) by (nonlinear_arith)
            requires
                a.1 >= b.1 + 1,
                w > 0,
        ;
    }
}

proof fn lemma_border_order(mask: Seq<bool>, w: int, h: int, k: int, j: int)
    requires
        0 < w <= i32::MAX,
        0 < h <= i32::MAX,
        0 <= k <= w * h,
        0 <= j < mask::border(mask, w, h, k).len(),
    ensures
        ({
            let b = mask::border(mask, w, h, k)[j];
            0 <= b.0 < w && 0 <= b.1 < h && 0 <= b.1 * w + b.0 < k
        }),
    decreases k,
{
    if k > 0 {
        let rest = mask::border(mask, w, h, k - 1);
        if j < rest.len() {
            lemma_border_order(mask, w, h, k - 1, j);
        } else {
            grid::lemma_cell(w, h, k - 1);
        }
    }
}

proof fn lemma_border_increases(mask: Seq<bool>, w: int, h: int, k: int, i: int, j: int)
    requires
        0 < w <= i32::MAX,
        0 < h <= i32::MAX,
        0 <= k <= w * h,
        0 <= i < j < mask::border(mask, w, h, k).len(),
    ensures
        ({
            let a = mask::border(mask, w, h, k)[i];
            let b = mask::border(mask, w, h, k)[j];
            a.1 * w + a.0 < b.1 * w + b.0
        }),
    decreases k,
{
    if k > 0 {
        let rest = mask::border(mask, w, h, k - 1);
        if j < rest.len() {
            lemma_border_increases(mask, w, h, k - 1, i, j);
        } else {
            grid::lemma_cell(w, h, k - 1);
            lemma_border_order(mask, w, h, k - 1, i);
        }
    }
}

} // verus!
