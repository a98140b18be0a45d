//! Laws on the removal of a background: which pixels can go and which must.

use crate::background;
use crate::float;
use crate::float::F32;
use crate::grid;
use crate::nearest_laws;
use vstd::arithmetic::power2::*;
use vstd::prelude::*;

verus! {

/// One byte of the pixel in a column and a row: red, green, blue or alpha.
pub open spec fn byte_at(pixels: Seq<u8>, w: int, x: int, y: int, c: int) -> int {
    pixels[(y * w + x) * 4 + c] as int
}

/// How far a pixel is from the mean of the four corners in one channel.
pub open spec fn off_corners(pixels: Seq<u8>, w: int, h: int, i: int, c: int) -> int {
    pixels[i * 4 + c] - (byte_at(pixels, w, 0, 0, c) + byte_at(pixels, w, w - 1, 0, c) + byte_at(
        pixels,
        w,
        0,
        h - 1,
        c,
    ) + byte_at(pixels, w, w - 1, h - 1, c)) / 4
}

/// The square of the distance of a pixel's colour from the mean of the corners.
pub open spec fn distance_sq(pixels: Seq<u8>, w: int, h: int, i: int) -> int {
    let red = off_corners(pixels, w, h, i, 0);
    let green = off_corners(pixels, w, h, i, 1);
    let blue = off_corners(pixels, w, h, i, 2);
    red * red + green * green + blue * blue
}

/// An image with its pixels and its mask.
pub open spec fn fits(pixels: Seq<u8>, w: int, h: int, mask: Seq<bool>) -> bool {
    w > 0 && h > 0 && mask.len() == w * h && pixels.len() == 4 * (w * h)
}

/// A pixel of the mask that is not in what is left of it.
pub open spec fn removed(mask: Seq<bool>, left: Seq<bool>, i: int) -> bool {
    0 <= i < mask.len() && mask[i] && !left[i]
}

proof fn lemma_channel(pixels: Seq<u8>, w: int, h: int, i: int, c: int)
    requires
        w > 0,
        h > 0,
    ensures
        off_corners(pixels, w, h, i, c) == background::channel(pixels, i, c)
            - background::corner_mean(pixels, w, h, c),
{
    assert(0 * w + 0 == 0 && 0 * w + (w - 1) == w - 1) by (nonlinear_arith);
}

proof fn lemma_candidate(pixels: Seq<u8>, w: int, h: int, mask: Seq<bool>, t: u8, i: int)
    requires
        fits(pixels, w, h, mask),
        0 <= i < w * h,
    ensures
        background::candidates(pixels, w, h, mask, t)[i] <==> mask[i] && pixels[i * 4 + 3] > t
            && distance_sq(pixels, w, h, i) <= 5200,
{
    lemma_channel(pixels, w, h, i, 0);
    lemma_channel(pixels, w, h, i, 1);
    lemma_channel(pixels, w, h, i, 2);
}

/// Only pixels whose colour is close to that of the corners go: whoever is far
/// from the mean of the corners, over all three channels, stays. So does whoever
/// is not above the threshold.
pub proof fn law_far_colour_stays(
    pixels: Seq<u8>,
    w: int,
    h: int,
    mask: Seq<bool>,
    t: u8,
    i: int,
)
    requires
        fits(pixels, w, h, mask),
        0 <= i < w * h,
        mask[i],
        distance_sq(pixels, w, h, i) > 5200 || pixels[i * 4 + 3] <= t,
    ensures
        background::without_background(pixels, w, h, mask, t)[i],
{
    let open = background::candidates(pixels, w, h, mask, t);
    lemma_candidate(pixels, w, h, mask, t, i);
    if background::is_background(open, w, h, i) {
        let e = choose|e: int|
            background::on_edge(w, h, e) && #[trigger] grid::connected(open, w, w * h, e, i);
        grid::lemma_connected_open(open, w, w * h, e, i);
    }
}

/// A pixel that differs from the mean of the corners by more than 72 in any one
/// of red, green and blue stays.
pub proof fn law_one_far_channel_suffices(
    pixels: Seq<u8>,
    w: int,
    h: int,
    mask: Seq<bool>,
    t: u8,
    i: int,
    c: int,
)
    requires
        fits(pixels, w, h, mask),
        0 <= i < w * h,
        mask[i],
        0 <= c < 3,
        off_corners(pixels, w, h, i, c) > 72 || off_corners(pixels, w, h, i, c) < -72,
    ensures
        background::without_background(pixels, w, h, mask, t)[i],
{
    let red = off_corners(pixels, w, h, i, 0);
    let green = off_corners(pixels, w, h, i, 1);
    let blue = off_corners(pixels, w, h, i, 2);
    assert(red * red >= 0) by (nonlinear_arith);
    assert(green * green >= 0) by (nonlinear_arith);
    assert(blue * blue >= 0) by (nonlinear_arith);
    let d = off_corners(pixels, w, h, i, c);
    assert(d * d > 5200) by (nonlinear_arith)
        requires
            d > 72 || d < -72,
    ;
    law_far_colour_stays(pixels, w, h, mask, t, i);
}

/// The same picture with its colour channels in another order.
pub open spec fn recoloured(a: Seq<u8>, b: Seq<u8>, p: int, q: int, r: int) -> bool {
    &&& a.len() == b.len()
    &&& forall|i: int|
        #![trigger b[i * 4]]
        0 <= i && i * 4 + 3 < a.len() ==> b[i * 4] == a[i * 4 + p] && b[i * 4 + 1] == a[i * 4 + q]
            && b[i * 4 + 2] == a[i * 4 + r] && b[i * 4 + 3] == a[i * 4 + 3]
}

/// The three colour channels count alike: red, green and blue in any other order,
/// the same one in all pixels, leave the same pixels.
pub proof fn law_colour_channels_count_alike(
    a: Seq<u8>,
    b: Seq<u8>,
    w: int,
    h: int,
    mask: Seq<bool>,
    t: u8,
    p: int,
    q: int,
    r: int,
)
    requires
        fits(a, w, h, mask),
        0 <= p < 3,
        0 <= q < 3,
        0 <= r < 3,
        p != q,
        q != r,
        p != r,
        recoloured(a, b, p, q, r),
    ensures
        background::without_background(b, w, h, mask, t) == background::without_background(
            a,
            w,
            h,
            mask,
            t,
        ),
{
    let x = background::candidates(a, w, h, mask, t);
    let y = background::candidates(b, w, h, mask, t);
    grid::lemma_cell_at(w, h, 0, 0);
    grid::lemma_cell_at(w, h, w - 1, 0);
    grid::lemma_cell_at(w, h, 0, h - 1);
    grid::lemma_cell_at(w, h, w - 1, h - 1);
    assert forall|i: int| 0 <= i < w * h implies x[i] == y[i] by {
        lemma_candidate(a, w, h, mask, t, i);
        lemma_candidate(b, w, h, mask, t, i);
        assert(b[i * 4] == a[i * 4 + p]);
        assert(b[(0 * w + 0) * 4] == a[(0 * w + 0) * 4 + p]);
        assert(b[(0 * w + (w - 1)) * 4] == a[(0 * w + (w - 1)) * 4 + p]);
        assert(b[((h - 1) * w + 0) * 4] == a[((h - 1) * w + 0) * 4 + p]);
        assert(b[((h - 1) * w + (w - 1)) * 4] == a[((h - 1) * w + (w - 1)) * 4 + p]);
        assert(off_corners(b, w, h, i, 0) == off_corners(a, w, h, i, p));
        assert(off_corners(b, w, h, i, 1) == off_corners(a, w, h, i, q));
        assert(off_corners(b, w, h, i, 2) == off_corners(a, w, h, i, r));
    }
    assert(x =~= y);
}

/// A background begins at the edge of the image: from every pixel that goes,
/// pixels that go too lead to one in the first or last column or row.
pub proof fn law_background_begins_at_the_edge(
    pixels: Seq<u8>,
    w: int,
    h: int,
    mask: Seq<bool>,
    t: u8,
    i: int,
) -> (e: int)
    requires
        fits(pixels, w, h, mask),
        removed(mask, background::without_background(pixels, w, h, mask, t), i),
    ensures
        0 <= e < w * h,
        e % w == 0 || e % w == w - 1 || e / w == 0 || e / w == h - 1,
        grid::connected(
            Seq::new(
                (w * h) as nat,
                |j: int|
                    removed(mask, background::without_background(pixels, w, h, mask, t), j),
            ),
            w,
            w * h,
            e,
            i,
        ),
{
    let open = background::candidates(pixels, w, h, mask, t);
    let left = background::without_background(pixels, w, h, mask, t);
    let gone = Seq::new((w * h) as nat, |j: int| removed(mask, left, j));
    let e = choose|e: int|
        background::on_edge(w, h, e) && #[trigger] grid::connected(open, w, w * h, e, i);
    let n = w * h;
    let path = choose|path: Seq<int>| grid::is_path(open, w, n, path, e, i);
    assert forall|k: int| 0 <= k < path.len() implies 0 <= #[trigger] path[k] < w * h
        && gone[path[k]] by {
        let part = path.take(k + 1);
        assert(grid::is_path(open, w, w * h, part, e, path[k]));
        assert(grid::connected(open, w, w * h, e, path[k]));
        assert(open[path[k]]);
    }
    assert(grid::is_path(gone, w, w * h, path, e, i));
    e
}

/// Where anything goes, all of the background goes: a pixel of the mask above the
/// threshold whose colour is close to that of the corners goes if it stands at the
/// edge of the image or beside a pixel that goes.
pub proof fn law_background_goes_whole(
    pixels: Seq<u8>,
    w: int,
    h: int,
    mask: Seq<bool>,
    t: u8,
    i: int,
    j: int,
)
    requires
        fits(pixels, w, h, mask),
        background::without_background(pixels, w, h, mask, t) != mask,
        0 <= i < w * h,
        mask[i],
        pixels[i * 4 + 3] > t,
        distance_sq(pixels, w, h, i) <= 5200,
        i % w == 0 || i % w == w - 1 || i / w == 0 || i / w == h - 1 || (grid::adjacent(w, j, i)
            && removed(mask, background::without_background(pixels, w, h, mask, t), j)),
    ensures
        removed(mask, background::without_background(pixels, w, h, mask, t), i),
{
    let open = background::candidates(pixels, w, h, mask, t);
    lemma_candidate(pixels, w, h, mask, t, i);
    if i % w == 0 || i % w == w - 1 || i / w == 0 || i / w == h - 1 {
        grid::lemma_connected_self(open, w, w * h, i);
        assert(background::on_edge(w, h, i));
    } else {
        let e = choose|e: int|
            background::on_edge(w, h, e) && #[trigger] grid::connected(open, w, w * h, e, j);
        grid::lemma_connected_step(open, w, w * h, e, j, i);
    }
}

/// What is computed as the mask without its background keeps every pixel that
/// differs from the mean of the corners by more than 72 in any one of red, green
/// and blue, and does not tell the three channels apart.
pub proof fn law_computed_mask_respects_colours(
    a: &[u8],
    b: &[u8],
    width: u32,
    height: u32,
    mask: &[bool],
    t: u8,
    x: Vec<bool>,
    y: Vec<bool>,
    p: int,
    q: int,
    r: int,
    i: int,
    c: int,
)
    requires
        call_ensures(
            background::maybe_remove_edge_background_by_color,
            (a, width, height, mask, t),
            x,
        ),
        call_ensures(
            background::maybe_remove_edge_background_by_color,
            (b, width, height, mask, t),
            y,
        ),
        fits(a@, width as int, height as int, mask@),
        0 <= p < 3,
        0 <= q < 3,
        0 <= r < 3,
        p != q,
        q != r,
        p != r,
        recoloured(a@, b@, p, q, r),
        0 <= i < mask@.len(),
        0 <= c < 3,
    ensures
        x@ == y@,
        mask@[i] && (off_corners(a@, width as int, height as int, i, c) > 72 || off_corners(
            a@,
            width as int,
            height as int,
            i,
            c,
        ) < -72) ==> x@[i],
{
    let w = width as int;
    let h = height as int;
    law_colour_channels_count_alike(a@, b@, w, h, mask@, t, p, q, r);
    if mask@[i] && (off_corners(a@, w, h, i, c) > 72 || off_corners(a@, w, h, i, c) < -72) {
        law_one_far_channel_suffices(a@, w, h, mask@, t, i, c);
    }
}

// ---- when a background goes ----

/// 0.8995: a number between 0.899 and 0.9.
const BELOW_FILL: u32 = 0x3f66_45a2;

/// 0.01495: a number between 0.0149 and 0.015.
const BELOW_KEPT: u32 = 0x3c74_f0d8;

/// 0.9705: a number between 0.97 and 0.971.
const ABOVE_KEPT: u32 = 0x3f78_72b0;

/// Every solid pixel counts.
pub proof fn law_every_solid_pixel_counts(mask: Seq<bool>, solid: bool)
    ensures
        background::count_solid(Seq::empty()) == 0,
        background::count_solid(mask.push(solid)) == background::count_solid(mask) + (if solid {
            1nat
        } else {
            0nat
        }),
        background::count_solid(mask) <= mask.len(),
    decreases mask.len(),
{
    assert(mask.push(solid).drop_last() =~= mask);
    if mask.len() > 0 {
        law_every_solid_pixel_counts(mask.drop_last(), solid);
    }
}

proof fn lemma_below_fill(count: nat, area: int)
    requires
        count <= area,
        0 < area <= 0x100_0000,
    ensures
        1000 * count <= 899 * area ==> background::ratio(count, area).spec_lt(
            F32 { bits: background::LEAST_FILL },
        ),
        10 * count >= 9 * area ==> !background::ratio(count, area).spec_lt(
            F32 { bits: background::LEAST_FILL },
        ),
{
    reveal(F32::spec_lt);
    reveal(F32::spec_le);
    lemma2_to64();
    let c = F32 { bits: background::LEAST_FILL };
    let d = F32 { bits: BELOW_FILL };
    nearest_laws::law_quotient_keeps_side(count as int, area, c, 0xe6_6666, 24, 0x100_0000);
    nearest_laws::law_quotient_keeps_side(count as int, area, d, 0xe6_45a2, 24, 0x100_0000);
    float::lemma_magnitude_monotone(d.mag(), c.mag());
}

proof fn lemma_kept_enough(kept: nat, area: int)
    requires
        kept <= area,
        0 < area <= 0x100_0000,
    ensures
        10000 * kept <= 149 * area ==> !(F32 { bits: background::LEAST_KEPT }).spec_le(
            background::ratio(kept, area),
        ),
        1000 * kept >= 15 * area ==> (F32 { bits: background::LEAST_KEPT }).spec_le(
            background::ratio(kept, area),
        ),
{
    reveal(F32::spec_le);
    lemma2_to64();
    let c = F32 { bits: background::LEAST_KEPT };
    let d = F32 { bits: BELOW_KEPT };
    nearest_laws::law_quotient_keeps_side(kept as int, area, c, 0xf5_c28f, 30, 0x4000_0000);
    nearest_laws::law_quotient_keeps_side(kept as int, area, d, 0xf4_f0d8, 30, 0x4000_0000);
    float::lemma_magnitude_monotone(d.mag(), c.mag());
}

proof fn lemma_kept_not_all(kept: nat, area: int)
    requires
        kept <= area,
        0 < area <= 0x100_0000,
    ensures
        1000 * kept >= 971 * area ==> !background::ratio(kept, area).spec_le(
            F32 { bits: background::MOST_KEPT },
        ),
        100 * kept <= 97 * area ==> background::ratio(kept, area).spec_le(
            F32 { bits: background::MOST_KEPT },
        ),
{
    reveal(F32::spec_le);
    lemma2_to64();
    let c = F32 { bits: background::MOST_KEPT };
    let d = F32 { bits: ABOVE_KEPT };
    nearest_laws::law_quotient_keeps_side(kept as int, area, c, 0xf8_51ec, 24, 0x100_0000);
    nearest_laws::law_quotient_keeps_side(kept as int, area, d, 0xf8_72b0, 24, 0x100_0000);
    float::lemma_magnitude_monotone(c.mag(), d.mag());
}

/// A background goes only where nine tenths of the image are solid, and only if
/// what is left of it are at least three pixels, not less than 1.5% of the image
/// and not more than 97% of it. These parts are rounded: within 0.1 percentage
/// points below, or above, they may be taken for reached.
pub proof fn law_background_goes_only_where_plausible(
    pixels: Seq<u8>,
    w: int,
    h: int,
    mask: Seq<bool>,
    t: u8,
)
    requires
        fits(pixels, w, h, mask),
        w * h <= 0x100_0000,
        background::without_background(pixels, w, h, mask, t) != mask,
    ensures
        ({
            let area = w * h;
            let left = background::count_solid(
                background::without_background(pixels, w, h, mask, t),
            );
            &&& 1000 * background::count_solid(mask) > 899 * area
            &&& left >= 3
            &&& 10000 * left > 149 * area
            &&& 1000 * left < 971 * area
        }),
{
    lemma_area(w, h);
    let left = background::without_background(pixels, w, h, mask, t);
    law_every_solid_pixel_counts(mask, true);
    law_every_solid_pixel_counts(left, true);
    lemma_below_fill(background::count_solid(mask), w * h);
    lemma_kept_enough(background::count_solid(left), w * h);
    lemma_kept_not_all(background::count_solid(left), w * h);
}

/// A background goes where nine tenths of the image are solid and what is left
/// without it are at least three pixels, not less than 1.5% of the image and not
/// more than 97% of it.
pub proof fn law_plausible_background_goes(
    pixels: Seq<u8>,
    w: int,
    h: int,
    mask: Seq<bool>,
    t: u8,
    front: Seq<bool>,
)
    requires
        fits(pixels, w, h, mask),
        w * h <= 0x100_0000,
        front.len() == w * h,
        forall|i: int|
            0 <= i < w * h ==> (#[trigger] front[i] <==> mask[i] && !background::is_background(
                background::candidates(pixels, w, h, mask, t),
                w,
                h,
                i,
            )),
        10 * background::count_solid(mask) >= 9 * (w * h),
        background::count_solid(front) >= 3,
        1000 * background::count_solid(front) >= 15 * (w * h),
        100 * background::count_solid(front) <= 97 * (w * h),
    ensures
        background::without_background(pixels, w, h, mask, t) == front,
{
    lemma_area(w, h);
    assert(front =~= background::foreground(pixels, w, h, mask, t));
    law_every_solid_pixel_counts(mask, true);
    law_every_solid_pixel_counts(front, true);
    lemma_below_fill(background::count_solid(mask), w * h);
    lemma_kept_enough(background::count_solid(front), w * h);
    lemma_kept_not_all(background::count_solid(front), w * h);
}

proof fn lemma_area(w: int, h: int)
    requires
        w > 0,
        h > 0,
    ensures
        w * h > 0,
{
    assert(w * h > 0) by (nonlinear_arith)
        requires
            w > 0,
            h > 0,
    ;
}

} // verus!
