//! Laws on outlines: how the outline of a sprite comes about.

use crate::background;
use crate::constant_laws;
use crate::contour;
use crate::float;
use crate::float::F32;
use crate::float_laws;
use crate::hull;
use crate::mask;
use crate::outline;
use crate::polygon;
use crate::simplify;
use vstd::arithmetic::power2::*;
use vstd::prelude::*;

verus! {

/// 2.25: the square of the distance up to which vertices are merged.
pub const GAP_SQ: u32 = 0x4010_0000;

/// An outline remembers what it was made for.
pub proof fn law_outline_remembers_its_sprite(
    pixels: Seq<u8>,
    w: u32,
    h: u32,
    size: (F32, F32),
    threshold: u8,
    epsilon: F32,
)
    requires
        outline::outline_of(pixels, w, h, size, threshold, epsilon) is Some,
    ensures
        ({
            let o = outline::outline_of(pixels, w, h, size, threshold, epsilon)->0;
            &&& o.object_size == size
            &&& o.sprite_width == w
            &&& o.sprite_height == h
            &&& o.threshold == threshold
            &&& o.rdp_epsilon == epsilon
        }),
{
}

/// The border of a sprite is that of the largest connected part of its visible
/// pixels, after its background is removed: a pixel is on it if and only if it is
/// kept and has a side towards a pixel that is not, or towards the outside.
pub proof fn law_border_is_that_of_largest_part(
    pixels: Seq<u8>,
    w: u32,
    h: u32,
    threshold: u8,
    shown: Seq<bool>,
    kept: Seq<bool>,
    i: int,
    x: i32,
    y: i32,
)
    requires
        0 < w <= i32::MAX,
        0 < h <= i32::MAX,
        shown.len() == w * h,
        forall|j: int|
            0 <= j < w * h ==> (#[trigger] shown[j] <==> pixels[4 * j + 3] > threshold),
        0 <= i < w * h,
        shown[i],
        kept == mask::largest_component(
            background::without_background(pixels, w as int, h as int, shown, threshold),
            w as int,
            w * h,
        ),
        kept.len() == w * h,
    ensures
        outline::sprite_border(pixels, w, h, threshold).contains((x, y)) <==> {
            &&& 0 <= x < w
            &&& 0 <= y < h
            &&& kept[y * w + x]
            &&& {
                ||| x == 0
                ||| x == w - 1
                ||| y == 0
                ||| y == h - 1
                ||| !kept[y * w + x - 1]
                ||| !kept[y * w + x + 1]
                ||| !kept[(y - 1) * w + x]
                ||| !kept[(y + 1) * w + x]
            }
        },
{
    assert(shown =~= mask::visible(pixels, w * h, threshold));
    assert(outline::any_solid(shown));
    mask::law_border_is_complete(kept, w as int, h as int, x, y);
}

/// A sprite of which no pixel is visible has no border.
pub proof fn law_invisible_sprite_has_no_border(pixels: Seq<u8>, w: u32, h: u32, threshold: u8)
    requires
        forall|j: int| 0 <= j < w * h ==> #[trigger] pixels[4 * j + 3] <= threshold,
    ensures
        outline::sprite_border(pixels, w, h, threshold).len() == 0,
{
    let shown = mask::visible(pixels, w * h, threshold);
    assert forall|j: int| 0 <= j < shown.len() implies !shown[j] by {
        assert(pixels[4 * j + 3] <= threshold);
    }
}

/// All that matters of the pixels is their border: sprites with the same border
/// have the same polygons, or none.
pub proof fn law_outline_depends_on_border(
    a: Seq<u8>,
    b: Seq<u8>,
    w: u32,
    h: u32,
    size: (F32, F32),
    s: u8,
    t: u8,
    epsilon: F32,
)
    requires
        outline::sprite_border(a, w, h, s) == outline::sprite_border(b, w, h, t),
    ensures
        match (
            outline::outline_of(a, w, h, size, s, epsilon),
            outline::outline_of(b, w, h, size, t, epsilon),
        ) {
            (Some(x), Some(y)) => x.hulls == y.hulls,
            (None, None) => true,
            _ => false,
        },
{
}

/// The square of 1.5 is 2.25.
proof fn lemma_gap()
    ensures
        (F32 { bits: outline::VERTEX_GAP }).spec_mul(F32 { bits: outline::VERTEX_GAP }) == (F32 {
            bits: GAP_SQ,
        }),
{
    let a = F32 { bits: outline::VERTEX_GAP };
    let y = F32 { bits: GAP_SQ };
    let t = pow2(126);
    lemma2_to64();
    lemma_pow2_pos(126);
    lemma_pow2_adds(23, 126);
    lemma_pow2_unfold(127);
    let m = float::magnitude(a.mag());
    let n = float::magnitude(y.mag());
    assert(m == 0xc0_0000 * t);
    assert(n == 0x90_0000 * (2 * t));
    assert(m * m == n * (0x80_0000 * t)) by (nonlinear_arith)
        requires
            m == 0xc0_0000 * t,
            n == 0x90_0000 * (2 * t),
    ;
    float_laws::lemma_round_exact(y.mag(), pow2(149));
    reveal(F32::spec_mul);
}

/// The polygon around a border is its contour, simplified, without close vertices.
/// Where the contour is too short, or jumps, the convex hull of the border is
/// simplified in its place; and where fewer than four points are left after that,
/// it is the whole hull.
pub proof fn law_polygon_is_simplified_contour(border: Seq<(i32, i32)>, epsilon: F32)
    ensures
        ({
            let walk = contour::trace(border);
            let round = hull::hull(border);
            let simple = simplify::simplify(walk, epsilon);
            let closed = simplify::simplify_closed(round, epsilon);
            let gap_sq = F32 { bits: GAP_SQ };
            let r = outline::sprite_polygon(border, epsilon);
            if walk.len() >= 3 && !simplify::has_jump(walk) {
                &&& simple.len() >= 4 ==> r == simplify::spread(simple, gap_sq)
                &&& simple.len() < 4 ==> r == simplify::spread(round, gap_sq)
            } else {
                &&& closed.len() >= 4 ==> r == simplify::spread(closed, gap_sq)
                &&& closed.len() < 4 ==> r == simplify::spread(round, gap_sq)
            }
        }),
        constant_laws::stands_for(F32 { bits: GAP_SQ }, 9, 4),
{
    lemma_gap();
    lemma2_to64();
    constant_laws::lemma_stands_for(F32 { bits: GAP_SQ }, 9, 4, 22, 0x40_0000);
}

/// The polygon around a border is converted to local space; where the hull took the
/// place of the contour, it is the hull of what that leads to.
pub proof fn law_polygon_is_in_local_space(
    border: Seq<(i32, i32)>,
    w: u32,
    h: u32,
    size: (F32, F32),
    epsilon: F32,
)
    ensures
        ({
            let walk = contour::trace(border);
            let local = simplify::all_to_local(
                outline::sprite_polygon(border, epsilon),
                w,
                h,
                size,
            );
            let r = outline::local_polygon(border, w, h, size, epsilon);
            if walk.len() >= 3 && !simplify::has_jump(walk) {
                r == local
            } else {
                r == polygon::hull(local)
            }
        }),
{
}

/// A sprite has an outline if and only if its border has at least three pixels, the
/// hull has three corners wherever it is needed, and three corners are left in the
/// end.
pub proof fn law_who_has_an_outline(
    pixels: Seq<u8>,
    w: u32,
    h: u32,
    size: (F32, F32),
    threshold: u8,
    epsilon: F32,
)
    ensures
        outline::outline_of(pixels, w, h, size, threshold, epsilon) is Some <==> ({
            let border = outline::sprite_border(pixels, w, h, threshold);
            let walk = contour::trace(border);
            let round = hull::hull(border);
            &&& border.len() >= 3
            &&& outline::sprite_polygon(border, epsilon).len() >= 3
            &&& outline::local_polygon(border, w, h, size, epsilon).len() >= 3
            &&& if walk.len() >= 3 && !simplify::has_jump(walk) {
                simplify::simplify(walk, epsilon).len() < 4 ==> round.len() >= 3
            } else {
                round.len() >= 3
            }
        }),
{
}

/// The polygons of an outline are the hull of the polygon in local space, if that
/// fills 0.94 of the hull, and else its convex pieces. A hull with fewer than three
/// corners, or with an area of no more than 1e-3, is not compared with.
pub proof fn law_outline_is_hull_or_pieces(
    pixels: Seq<u8>,
    w: u32,
    h: u32,
    size: (F32, F32),
    threshold: u8,
    epsilon: F32,
)
    requires
        outline::outline_of(pixels, w, h, size, threshold, epsilon) is Some,
    ensures
        ({
            let o = outline::outline_of(pixels, w, h, size, threshold, epsilon)->0;
            let border = outline::sprite_border(pixels, w, h, threshold);
            let local = outline::local_polygon(border, w, h, size, epsilon);
            let outer = polygon::hull(local);
            let fills = polygon::area(local).spec_div(polygon::area(outer));
            if outer.len() >= 3 && (F32 { bits: outline::LEAST_AREA }).spec_lt(polygon::area(outer))
                && (F32 { bits: outline::NEARLY_CONVEX }).spec_le(fills) {
                o.hulls == seq![outer]
            } else {
                o.hulls == polygon::pieces(local)
            }
        }),
{
}

} // verus!
