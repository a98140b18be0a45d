//! Collision outlines of sprites.

use crate::background;
use crate::contour;
use crate::float::F32;
use crate::hull;
use crate::hull_laws;
use crate::mask;
use crate::polygon;
use crate::polygon_laws;
use crate::simplify;
use crate::vec2::Vec2;
use std::sync::Arc;
use vstd::prelude::*;

verus! {

/// 1.5: vertices closer to each other are merged.
pub const VERTEX_GAP: u32 = 0x3fc0_0000;

/// 1e-3: a hull needs a larger area to be compared with.
pub const LEAST_AREA: u32 = 0x3a83_126f;

/// 0.94: a polygon that fills as much of its hull is taken for convex.
pub const NEARLY_CONVEX: u32 = 0x3f70_a3d7;

/// 1e-6: a smaller rotation is none.
pub const NO_ROTATION: u32 = 0x3586_37bd;

/// An angle with its sine and cosine.
#[derive(Clone, Copy, Debug)]
pub struct Rotation {
    pub angle: F32,
    pub sin: F32,
    pub cos: F32,
}

/// What an outline is made of.
pub struct OutlineView {
    pub hulls: Seq<Seq<Vec2>>,
    pub object_size: (F32, F32),
    pub sprite_width: u32,
    pub sprite_height: u32,
    pub threshold: u8,
    pub rdp_epsilon: F32,
}

/// The parts of an outline.
#[derive(Debug)]
pub struct CollisionOutlineData {
    hulls: Vec<Vec<Vec2>>,
    object_size: (F32, F32),
    sprite_width: u32,
    sprite_height: u32,
    threshold: u8,
    rdp_epsilon: F32,
}

impl View for CollisionOutlineData {
    type V = OutlineView;

    closed spec fn view(&self) -> OutlineView {
        OutlineView {
            hulls: polygon::corners(self.hulls@),
            object_size: self.object_size,
            sprite_width: self.sprite_width,
            sprite_height: self.sprite_height,
            threshold: self.threshold,
            rdp_epsilon: self.rdp_epsilon,
        }
    }
}

/// The outline of a sprite: polygons relative to the centre of the object, cut
/// into convex ones where a cut is possible. Clones share the polygons.
#[derive(Debug)]
pub struct CollisionOutline {
    /// The shared parts.
    pub data: Arc<CollisionOutlineData>,
}

impl View for CollisionOutline {
    type V = OutlineView;

    open spec fn view(&self) -> OutlineView {
        self.data@
    }
}

impl Clone for CollisionOutline {
    fn clone(&self) -> (r: Self)
        ensures
            r == *self,
    {
        CollisionOutline { data: Arc::clone(&self.data) }
    }
}

// ---- in the world ----

/// A corner, rotated unless the rotation is none, and moved to the centre.
pub open spec fn placed(v: Vec2, center: Vec2, rotation: Rotation) -> Vec2 {
    if (F32 { bits: NO_ROTATION }).spec_lt(rotation.angle.spec_abs()) {
        v.spec_rotate(rotation.sin, rotation.cos).spec_add(center)
    } else {
        v.spec_add(center)
    }
}

pub open spec fn placed_hull(hull: Seq<Vec2>, center: Vec2, rotation: Rotation) -> Seq<Vec2> {
    Seq::new(hull.len(), |i: int| placed(hull[i], center, rotation))
}

/// The centre of an object from its position, which is that of its corner.
pub open spec fn center_of(position: Vec2, size: (F32, F32)) -> Vec2 {
    let half = F32 { bits: simplify::HALF };
    position.spec_add(Vec2 { x: size.0.spec_mul(half), y: size.1.spec_mul(half) })
}

impl OutlineView {
    /// The polygons of an object at a position, with a rotation.
    pub open spec fn placed_hulls(self, position: Vec2, rotation: Rotation) -> Seq<Seq<Vec2>> {
        let center = center_of(position, self.object_size);
        Seq::new(self.hulls.len(), |i: int| placed_hull(self.hulls[i], center, rotation))
    }
}

fn place_hull(hull: &Vec<Vec2>, center: Vec2, rotation: Rotation) -> (r: Vec<Vec2>)
    ensures
        r@ == placed_hull(hull@, center, rotation),
{
    let limit = F32 { bits: NO_ROTATION };
    let rotated = limit.lt(rotation.angle.abs());
    let ghost all = placed_hull(hull@, center, rotation);
    let mut r: Vec<Vec2> = Vec::with_capacity(hull.len());
    for i in 0..hull.len()
        invariant
            all == placed_hull(hull@, center, rotation),
            rotated == (F32 { bits: NO_ROTATION }).spec_lt(rotation.angle.spec_abs()),
            r@ == all.take(i as int),
    {
        let v = hull[i];
        if rotated {
            r.push(v.rotate(rotation.sin, rotation.cos).add(center));
        } else {
            r.push(v.add(center));
        }
        assert(r@ =~= all.take(i + 1));
    }
    assert(all.take(hull@.len() as int) =~= all);
    r
}

impl CollisionOutline {
    /// The polygons of an object at a position, with a rotation.
    pub fn world_hulls(&self, position: Vec2, rotation: Rotation) -> (r: Vec<Vec<Vec2>>)
        ensures
            polygon::corners(r@) == self@.placed_hulls(position, rotation),
    {
        let half = F32 { bits: simplify::HALF };
        let size = self.data.object_size;
        let center = position.add(Vec2 { x: size.0.mul(half), y: size.1.mul(half) });
        let ghost all = self@.placed_hulls(position, rotation);
        let mut r: Vec<Vec<Vec2>> = Vec::with_capacity(self.data.hulls.len());
        for i in 0..self.data.hulls.len()
            invariant
                all == self@.placed_hulls(position, rotation),
                center == center_of(position, self@.object_size),
                polygon::corners(r@) == all.take(i as int),
        {
            let ghost before = r@;
            r.push(place_hull(&self.data.hulls[i], center, rotation));
            assert(self@.hulls[i as int] == self.data.hulls@[i as int]@);
            assert(polygon::corners(r@) =~= polygon::corners(before).push(r@[i as int]@));
            assert(polygon::corners(r@) =~= all.take(i + 1));
        }
        assert(all.take(all.len() as int) =~= all);
        r
    }
}

// ---- building ----

pub open spec fn any_solid(m: Seq<bool>) -> bool {
    exists|i: int| 0 <= i < m.len() && m[i]
}

/// The border of the solid part of a sprite: of the largest component of its
/// visible pixels without the background.
pub open spec fn sprite_border(pixels: Seq<u8>, w: u32, h: u32, threshold: u8) -> Seq<(i32, i32)> {
    let shown = mask::visible(pixels, w * h, threshold);
    if any_solid(shown) && mask::countable(w, h) {
        let front = background::without_background(pixels, w as int, h as int, shown, threshold);
        let kept = mask::largest_component(front, w as int, w * h);
        mask::border(kept, w as int, h as int, w * h)
    } else {
        Seq::empty()
    }
}

/// The traced contour is no usable polygon, and the convex hull of the border
/// takes its place.
pub open spec fn needs_hull(border: Seq<(i32, i32)>) -> bool {
    contour::trace(border).len() < 3 || simplify::has_jump(contour::trace(border))
}

/// The polygon around the border, before the conversion to local space.
pub open spec fn sprite_polygon(border: Seq<(i32, i32)>, epsilon: F32) -> Seq<(i32, i32)> {
    let round = hull::hull(border);
    let simple = if needs_hull(border) {
        simplify::simplify_closed(round, epsilon)
    } else {
        simplify::simplify(contour::trace(border), epsilon)
    };
    let gap = F32 { bits: VERTEX_GAP };
    simplify::spread(
        if simple.len() < 4 {
            round
        } else {
            simple
        },
        gap.spec_mul(gap),
    )
}

/// There is a polygon around the border at all.
pub open spec fn has_polygon(border: Seq<(i32, i32)>, epsilon: F32) -> bool {
    &&& border.len() >= 3
    &&& needs_hull(border) ==> hull::hull(border).len() >= 3
    &&& ({
        let simple = if needs_hull(border) {
            simplify::simplify_closed(hull::hull(border), epsilon)
        } else {
            simplify::simplify(contour::trace(border), epsilon)
        };
        simple.len() < 4 ==> hull::hull(border).len() >= 3
    })
    &&& sprite_polygon(border, epsilon).len() >= 3
}

/// A polygon that fills nearly all of its hull.
pub open spec fn nearly_convex(local: Seq<Vec2>) -> bool {
    let outer = polygon::area(polygon::hull(local));
    (F32 { bits: LEAST_AREA }).spec_lt(outer) && (F32 { bits: NEARLY_CONVEX }).spec_le(
        polygon::area(local).spec_div(outer),
    )
}

/// The convex pieces of a polygon: its hull if it is nearly convex.
pub open spec fn sprite_hulls(local: Seq<Vec2>) -> Seq<Seq<Vec2>> {
    if polygon::hull(local).len() >= 3 && nearly_convex(local) {
        seq![polygon::hull(local)]
    } else {
        polygon::pieces(local)
    }
}

/// The polygon around the border in local space.
pub open spec fn local_polygon(
    border: Seq<(i32, i32)>,
    w: u32,
    h: u32,
    size: (F32, F32),
    epsilon: F32,
) -> Seq<Vec2> {
    let local = simplify::all_to_local(sprite_polygon(border, epsilon), w, h, size);
    if needs_hull(border) {
        polygon::hull(local)
    } else {
        local
    }
}

/// The outline of a sprite, if it has one.
pub open spec fn outline_of(
    pixels: Seq<u8>,
    w: u32,
    h: u32,
    size: (F32, F32),
    threshold: u8,
    epsilon: F32,
) -> Option<OutlineView> {
    let border = sprite_border(pixels, w, h, threshold);
    let local = local_polygon(border, w, h, size, epsilon);
    if has_polygon(border, epsilon) && local.len() >= 3 {
        Some(
            OutlineView {
                hulls: sprite_hulls(local),
                object_size: size,
                sprite_width: w,
                sprite_height: h,
                threshold,
                rdp_epsilon: epsilon,
            },
        )
    } else {
        None
    }
}

/// The outline of a sprite can be computed: all of its pixels are given, signed
/// 32-bit numbers can count the pixels of one that is not invisible, and the
/// simplification of its contour comes to an end, which only a negative `epsilon`
/// can prevent.
pub open spec fn computable(
    pixels: Seq<u8>,
    w: u32,
    h: u32,
    threshold: u8,
    epsilon: F32,
) -> bool {
    &&& w * h * 4 <= pixels.len()
    &&& any_solid(mask::visible(pixels, w * h, threshold)) && mask::countable(w, h) ==> w * h
        <= i32::MAX
    &&& epsilon.spec_lt(F32 { bits: 0 }) ==> {
        let border = sprite_border(pixels, w, h, threshold);
        border.len() >= 3 ==> if needs_hull(border) {
            simplify::divisible_closed(hull::hull(border), epsilon)
        } else {
            simplify::divisible(contour::trace(border), epsilon)
        }
    }
}

fn has_solid(m: &[bool]) -> (r: bool)
    ensures
        r == any_solid(m@),
{
    for i in 0..m.len()
        invariant
            forall|k: int| 0 <= k < i ==> !#[trigger] m@[k],
    {
        if m[i] {
            return true;
        }
    }
    false
}

/// A pixel of an image with sides in the range of `i32`.
spec fn inside(p: (i32, i32)) -> bool {
    0 <= p.0 < i32::MAX && 0 <= p.1 < i32::MAX
}

spec fn all_inside(points: Seq<(i32, i32)>) -> bool {
    forall|i: int| 0 <= i < points.len() ==> inside(#[trigger] points[i])
}

proof fn lemma_turn_fits(o: (i32, i32), a: (i32, i32), b: (i32, i32))
    requires
        inside(o),
        inside(a),
        inside(b),
    ensures
        hull::turn_fits(o, a, b),
        simplify::difference_fits(o, a),
        simplify::gap_sq(o, a) <= i64::MAX,
{
    lemma_product(a.0 - o.0, b.1 - o.1);
    lemma_product(a.1 - o.1, b.0 - o.0);
    lemma_product(a.0 - o.0, a.0 - o.0);
    lemma_product(a.1 - o.1, a.1 - o.1);
}

proof fn lemma_product(x: int, y: int)
    requires
        -0x7fff_ffff < x < 0x7fff_ffff,
        -0x7fff_ffff < y < 0x7fff_ffff,
    ensures
        -0x3fff_ffff_0000_0001 <= x * y <= 0x3fff_ffff_0000_0001,
{
    assert(-0x3fff_ffff_0000_0001 <= x * y <= 0x3fff_ffff_0000_0001) by (nonlinear_arith)
        requires
            -0x7fff_ffff <= x <= 0x7fff_ffff,
            -0x7fff_ffff <= y <= 0x7fff_ffff,
    ;
}

proof fn lemma_border_inside(m: Seq<bool>, w: u32, h: u32)
    requires
        mask::countable(w, h),
    ensures
        all_inside(mask::border(m, w as int, h as int, w * h)),
{
    let b = mask::border(m, w as int, h as int, w * h);
    assert(w * h >= 0) by (nonlinear_arith)
        requires
            w >= 0,
            h >= 0,
    ;
    assert forall|i: int| 0 <= i < b.len() implies inside(#[trigger] b[i]) by {
        mask::lemma_border_is(m, w as int, h as int, w * h, i);
    }
}

/// What is selected from points inside is inside.
proof fn lemma_selected_inside(points: Seq<(i32, i32)>, s: Seq<(i32, i32)>)
    requires
        all_inside(points),
        forall|i: int| 0 <= i < s.len() ==> points.contains(#[trigger] s[i]),
    ensures
        all_inside(s),
{
    assert forall|i: int| 0 <= i < s.len() implies inside(#[trigger] s[i]) by {
        let j = choose|j: int| 0 <= j < points.len() && points[j] == s[i];
        assert(inside(points[j]));
    }
}

/// Everything computed from points inside can be computed.
proof fn lemma_all_fits(s: Seq<(i32, i32)>)
    requires
        all_inside(s),
    ensures
        hull::turns_fit(s),
        simplify::gaps_fit(s),
        forall|i: int| 0 <= i < s.len() ==> contour::interior(#[trigger] s[i]),
        forall|i: int, j: int|
            0 <= i && j == i + 1 && j < s.len() ==> simplify::difference_fits(
                #[trigger] s[i],
                #[trigger] s[j],
            ),
{
    assert forall|i: int, j: int, k: int|
        0 <= i < s.len() && 0 <= j < s.len() && 0 <= k < s.len() implies hull::turn_fits(
        #[trigger] s[i],
        #[trigger] s[j],
        #[trigger] s[k],
    ) by {
        lemma_turn_fits(s[i], s[j], s[k]);
    }
    assert forall|i: int| 0 <= i < s.len() implies simplify::difference_fits(
        s[0],
        #[trigger] s[i],
    ) && simplify::gap_sq(s[0], s[i]) <= i64::MAX by {
        lemma_turn_fits(s[0], s[i], s[i]);
    }
    assert forall|i: int| 0 <= i < s.len() implies contour::interior(#[trigger] s[i]) by {
        assert(inside(s[i]));
    }
    assert forall|i: int, j: int|
        0 <= i && j == i + 1 && j < s.len() implies simplify::difference_fits(
        #[trigger] s[i],
        #[trigger] s[j],
    ) by {
        lemma_turn_fits(s[i], s[j], s[j]);
    }
}

/// Everything computed from a border with points inside can be computed.
proof fn lemma_fits(b: Seq<(i32, i32)>)
    requires
        all_inside(b),
    ensures
        all_inside(contour::trace(b)),
        all_inside(hull::hull(b)),
        hull::turns_fit(b),
        forall|i: int| 0 <= i < b.len() ==> contour::interior(#[trigger] b[i]),
        simplify::gaps_fit(hull::hull(b)),
        forall|i: int, j: int|
            0 <= i && j == i + 1 && j < contour::trace(b).len() ==> simplify::difference_fits(
                #[trigger] contour::trace(b)[i],
                #[trigger] contour::trace(b)[j],
            ),
{
    lemma_all_fits(b);
    let contour = contour::trace(b);
    assert forall|i: int| 0 <= i < contour.len() implies b.contains(#[trigger] contour[i]) by {
        contour::law_trace_stays_on_border(b, i);
    }
    lemma_selected_inside(b, contour);
    lemma_all_fits(contour);
    let round = hull::hull(b);
    assert forall|i: int| 0 <= i < round.len() implies b.contains(#[trigger] round[i]) by {
        hull_laws::law_hull_corners_are_points(b, i);
    }
    lemma_selected_inside(b, round);
    lemma_all_fits(round);
}

proof fn lemma_spread_fits(s: Seq<(i32, i32)>, min_sq: F32)
    requires
        all_inside(s),
    ensures
        simplify::spread_fits(s, min_sq),
{
    assert forall|i: int| 0 < i < s.len() implies simplify::difference_fits(
        simplify::spread(s.take(i), min_sq).last(),
        #[trigger] s[i],
    ) by {
        let t = s.take(i);
        let kept = simplify::spread(t, min_sq);
        lemma_spread_nonempty(t, min_sq);
        simplify::lemma_spread_selects(t, min_sq, kept.len() - 1);
        let j = choose|j: int| 0 <= j < t.len() && t[j] == kept.last();
        assert(inside(s[j]));
        lemma_turn_fits(s[j], s[i], s[i]);
    }
}

proof fn lemma_spread_nonempty(s: Seq<(i32, i32)>, min_sq: F32)
    requires
        s.len() > 0,
    ensures
        simplify::spread(s, min_sq).len() > 0,
    decreases s.len(),
{
    if s.len() > 1 {
        lemma_spread_nonempty(s.drop_last(), min_sq);
    }
}

/// The border of the solid part of a sprite; `None` if no pixel is visible.
fn find_border(pixels: &[u8], w: u32, h: u32, threshold: u8) -> (r: Option<Vec<(i32, i32)>>)
    requires
        w * h * 4 <= pixels@.len(),
        any_solid(mask::visible(pixels@, w * h, threshold)) && mask::countable(w, h) ==> w * h
            <= i32::MAX,
    ensures
        match r {
            Some(b) => b@ == sprite_border(pixels@, w, h, threshold),
            None => sprite_border(pixels@, w, h, threshold).len() == 0,
        },
        r matches Some(b) ==> all_inside(b@),
{
    let _available: usize = pixels.len();
    assert(w * h >= 0) by (nonlinear_arith)
        requires
            w >= 0,
            h >= 0,
    ;
    let shown = mask::build_binary_mask(pixels, w, h, threshold);
    if !has_solid(shown.as_slice()) {
        return None;
    }
    let front = background::maybe_remove_edge_background_by_color(
        pixels,
        w,
        h,
        shown.as_slice(),
        threshold,
    );
    if !has_solid(front.as_slice()) {
        proof {
            background::lemma_solid_count(front@);
            background::lemma_solid_count(shown@);
            background::law_background_removal_leaves_something(
                pixels@,
                w as int,
                h as int,
                shown@,
                threshold,
            );
        }
        return None;
    }
    let kept = mask::keep_largest_mask_component(front.as_slice(), w, h);
    let border = mask::extract_border_pixels(kept.as_slice(), w, h);
    proof {
        if mask::countable(w, h) {
            lemma_border_inside(kept@, w, h);
        }
    }
    Some(border)
}

/// The polygon around the border, and whether the hull took the place of the
/// traced contour.
fn find_polygon(border: &[(i32, i32)], epsilon: F32) -> (r: Option<(Vec<(i32, i32)>, bool)>)
    requires
        all_inside(border@),
        border@.len() >= 3 ==> if needs_hull(border@) {
            simplify::divisible_closed(hull::hull(border@), epsilon)
        } else {
            simplify::divisible(contour::trace(border@), epsilon)
        },
    ensures
        match r {
            Some((p, used_hull)) => has_polygon(border@, epsilon) && p@ == sprite_polygon(
                border@,
                epsilon,
            ) && used_hull == needs_hull(border@),
            None => !has_polygon(border@, epsilon),
        },
{
    if border.len() < 3 {
        return None;
    }
    let ghost b = border@;
    proof {
        lemma_fits(b);
    }
    let mut contour = contour::trace_contour(border);
    let used_hull = contour.len() < 3 || simplify::contour_has_large_jumps(contour.as_slice());
    if used_hull {
        contour = hull::convex_hull_points(border);
    }
    if contour.len() < 3 {
        return None;
    }
    let mut simple = if used_hull {
        simplify::rdp_simplify_closed(contour.as_slice(), epsilon)
    } else {
        simplify::rdp_simplify(contour.as_slice(), epsilon)
    };
    proof {
        lemma_simple_inside(contour@, epsilon);
    }
    if simple.len() < 4 {
        let round = hull::convex_hull_points(border);
        if round.len() < 3 {
            return None;
        }
        simple = round;
    }
    let gap = F32 { bits: VERTEX_GAP };
    proof {
        lemma_spread_fits(simple@, gap.spec_mul(gap));
    }
    let merged = simplify::dedup_close_vertices(simple.as_slice(), gap);
    if merged.len() < 3 {
        return None;
    }
    Some((merged, used_hull))
}

proof fn lemma_simple_inside(s: Seq<(i32, i32)>, epsilon: F32)
    requires
        all_inside(s),
    ensures
        all_inside(simplify::simplify_closed(s, epsilon)),
        all_inside(simplify::simplify(s, epsilon)),
{
    let r = simplify::simplify(s, epsilon);
    assert forall|i: int| 0 <= i < r.len() implies s.contains(#[trigger] r[i]) by {
        simplify::law_simplification_selects(s, epsilon, i);
    }
    lemma_selected_inside(s, r);
    let t = simplify::simplify_closed(s, epsilon);
    assert forall|i: int| 0 <= i < t.len() implies s.contains(#[trigger] t[i]) by {
        simplify::law_closed_simplification_selects(s, epsilon, i);
    }
    lemma_selected_inside(s, t);
}

/// Whether the outline of a sprite can be computed.
pub fn can_build(
    rgba_pixels: &[u8],
    sprite_width: u32,
    sprite_height: u32,
    threshold: u8,
    rdp_epsilon: F32,
) -> (r: bool)
    ensures
        r == computable(rgba_pixels@, sprite_width, sprite_height, threshold, rdp_epsilon),
{
    assert(0 <= sprite_width * sprite_height <= u64::MAX) by (nonlinear_arith)
        requires
            0 <= sprite_width <= 0xffff_ffff,
            0 <= sprite_height <= 0xffff_ffff,
    ;
    let area: u64 = sprite_width as u64 * sprite_height as u64;
    if area > (rgba_pixels.len() / 4) as u64 {
        return false;
    }
    let shown = mask::build_binary_mask(rgba_pixels, sprite_width, sprite_height, threshold);
    if !has_solid(shown.as_slice()) {
        proof {
            assert(sprite_border(rgba_pixels@, sprite_width, sprite_height, threshold).len() == 0);
        }
        return true;
    }
    if sprite_width > 0x7fff_ffff || sprite_height > 0x7fff_ffff {
        return true;
    }
    if area > 0x7fff_ffff {
        assert(sprite_width > 0 && sprite_height > 0) by (nonlinear_arith)
            requires
                sprite_width * sprite_height > 0,
                sprite_width >= 0,
                sprite_height >= 0,
        ;
        return false;
    }
    if !rdp_epsilon.lt(F32::zero()) {
        return true;
    }
    let border = match find_border(rgba_pixels, sprite_width, sprite_height, threshold) {
        Some(b) => b,
        None => {
            return true;
        },
    };
    if border.len() < 3 {
        return true;
    }
    let ghost b = border@;
    proof {
        lemma_fits(b);
    }
    let contour = contour::trace_contour(border.as_slice());
    if contour.len() < 3 || simplify::contour_has_large_jumps(contour.as_slice()) {
        let round = hull::convex_hull_points(border.as_slice());
        simplify::is_divisible_closed(round.as_slice(), rdp_epsilon)
    } else {
        simplify::is_divisible(contour.as_slice(), rdp_epsilon)
    }
}

/// Builds the outline of a sprite from its RGBA pixels. There is none if nothing
/// of the sprite is visible, or if it is too small for a polygon.
pub fn build_collision_outline(
    rgba_pixels: &[u8],
    sprite_width: u32,
    sprite_height: u32,
    object_size: (F32, F32),
    threshold: u8,
    rdp_epsilon: F32,
) -> (r: Option<CollisionOutline>)
    requires
        computable(rgba_pixels@, sprite_width, sprite_height, threshold, rdp_epsilon),
    ensures
        match r {
            Some(o) => outline_of(
                rgba_pixels@,
                sprite_width,
                sprite_height,
                object_size,
                threshold,
                rdp_epsilon,
            ) == Some(o@),
            None => outline_of(
                rgba_pixels@,
                sprite_width,
                sprite_height,
                object_size,
                threshold,
                rdp_epsilon,
            ) is None,
        },
{
    let border = match find_border(rgba_pixels, sprite_width, sprite_height, threshold) {
        Some(b) => b,
        None => {
            return None;
        },
    };
    proof {
        let b = border@;
        if !rdp_epsilon.spec_lt(F32 { bits: 0 }) {
            simplify::law_simplification_ends(contour::trace(b), rdp_epsilon);
            simplify::law_simplification_ends(
                simplify::first_half(hull::hull(b)),
                rdp_epsilon,
            );
            simplify::law_simplification_ends(
                simplify::second_half(hull::hull(b)),
                rdp_epsilon,
            );
        }
    }
    let (simple, used_hull) = match find_polygon(border.as_slice(), rdp_epsilon) {
        Some(found) => found,
        None => {
            return None;
        },
    };
    let mut local = simplify::pixels_to_local_space(
        simple.as_slice(),
        sprite_width,
        sprite_height,
        object_size,
    );
    if used_hull {
        local = polygon::convex_hull_float(local.as_slice());
        if local.len() < 3 {
            return None;
        }
    }
    let outer = polygon::convex_hull_float(local.as_slice());
    let mut near_convex = false;
    if outer.len() >= 3 {
        let local_area = polygon::polygon_area_abs(local.as_slice());
        let outer_area = polygon::polygon_area_abs(outer.as_slice());
        let least = F32 { bits: LEAST_AREA };
        let share = F32 { bits: NEARLY_CONVEX };
        near_convex = least.lt(outer_area) && share.le(local_area.div(outer_area));
    }
    let mut hulls: Vec<Vec<Vec2>> = Vec::new();
    if near_convex {
        hulls.push(outer);
        assert(polygon::corners(hulls@) =~= sprite_hulls(local@));
    } else {
        hulls = polygon::convex_decompose(local.as_slice());
    }
    proof {
        if !near_convex {
            polygon::law_pieces_are_polygons(local@, 0);
        }
        assert(polygon::corners(hulls@).len() == hulls@.len());
    }
    if hulls.len() == 0 {
        return None;
    }
    Some(
        CollisionOutline {
            data: Arc::new(
                CollisionOutlineData {
                    hulls,
                    object_size,
                    sprite_width,
                    sprite_height,
                    threshold,
                    rdp_epsilon,
                },
            ),
        },
    )
}

// ---- laws ----

/// A sprite without a visible pixel has no outline.
pub proof fn law_invisible_sprite_has_no_outline(
    pixels: Seq<u8>,
    w: u32,
    h: u32,
    size: (F32, F32),
    threshold: u8,
    epsilon: F32,
)
    requires
        forall|i: int| 0 <= i < w * h ==> #[trigger] pixels[i * 4 + 3] <= threshold,
    ensures
        outline_of(pixels, w, h, size, threshold, epsilon) is None,
{
    let shown = mask::visible(pixels, w * h, threshold);
    assert(w * h >= 0) by (nonlinear_arith)
        requires
            w >= 0,
            h >= 0,
    ;
    assert(!any_solid(shown)) by {
        if any_solid(shown) {
            let i = choose|i: int| 0 <= i < shown.len() && shown[i];
            assert(pixels[i * 4 + 3] <= threshold);
        }
    }
}

/// An outline has at least one polygon, each with at least three corners.
pub proof fn law_outline_consists_of_polygons(
    pixels: Seq<u8>,
    w: u32,
    h: u32,
    size: (F32, F32),
    threshold: u8,
    epsilon: F32,
    i: int,
)
    requires
        outline_of(pixels, w, h, size, threshold, epsilon) is Some,
    ensures
        ({
            let hulls = outline_of(pixels, w, h, size, threshold, epsilon)->0.hulls;
            hulls.len() >= 1 && (0 <= i < hulls.len() ==> hulls[i].len() >= 3)
        }),
{
    let border = sprite_border(pixels, w, h, threshold);
    let local = local_polygon(border, w, h, size, epsilon);
    polygon::law_pieces_are_polygons(local, i);
}

/// The polygon around a border has its corners on the border.
proof fn lemma_polygon_on_border(border: Seq<(i32, i32)>, epsilon: F32, i: int)
    requires
        0 <= i < sprite_polygon(border, epsilon).len(),
    ensures
        border.contains(sprite_polygon(border, epsilon)[i]),
{
    let p = sprite_polygon(border, epsilon)[i];
    let gap = F32 { bits: VERTEX_GAP };
    let round = hull::hull(border);
    let traced = contour::trace(border);
    let simple = if needs_hull(border) {
        simplify::simplify_closed(round, epsilon)
    } else {
        simplify::simplify(traced, epsilon)
    };
    let used = if simple.len() < 4 {
        round
    } else {
        simple
    };
    simplify::lemma_spread_selects(used, gap.spec_mul(gap), i);
    let j = choose|j: int| 0 <= j < used.len() && used[j] == p;
    if simple.len() < 4 {
        hull_laws::law_hull_corners_are_points(border, j);
    } else if needs_hull(border) {
        simplify::law_closed_simplification_selects(round, epsilon, j);
        let k = choose|k: int| 0 <= k < round.len() && round[k] == p;
        hull_laws::law_hull_corners_are_points(border, k);
    } else {
        simplify::law_simplification_selects(traced, epsilon, j);
        let k = choose|k: int| 0 <= k < traced.len() && traced[k] == p;
        contour::law_trace_stays_on_border(border, k);
    }
}

/// The local polygon has its corners on the border.
proof fn lemma_local_on_border(
    border: Seq<(i32, i32)>,
    w: u32,
    h: u32,
    size: (F32, F32),
    epsilon: F32,
    v: Vec2,
) -> (p: (i32, i32))
    requires
        local_polygon(border, w, h, size, epsilon).contains(v),
    ensures
        border.contains(p),
        simplify::to_local(p, w, h, size) == v,
{
    let poly = sprite_polygon(border, epsilon);
    let local = simplify::all_to_local(poly, w, h, size);
    let used = local_polygon(border, w, h, size, epsilon);
    let k = choose|k: int| 0 <= k < used.len() && used[k] == v;
    if needs_hull(border) {
        polygon_laws::law_hull_corners_are_points(local, k);
    }
    let m = choose|m: int| 0 <= m < local.len() && local[m] == v;
    lemma_polygon_on_border(border, epsilon, m);
    poly[m]
}

/// A pixel of the border is a visible pixel of the sprite.
proof fn lemma_border_is_visible(
    pixels: Seq<u8>,
    w: u32,
    h: u32,
    threshold: u8,
    p: (i32, i32),
)
    requires
        sprite_border(pixels, w, h, threshold).contains(p),
    ensures
        0 <= p.0 < w,
        0 <= p.1 < h,
        pixels[(p.1 * w + p.0) * 4 + 3] > threshold,
{
    let shown = mask::visible(pixels, w * h, threshold);
    let front = background::without_background(pixels, w as int, h as int, shown, threshold);
    let kept = mask::largest_component(front, w as int, w * h);
    let border = sprite_border(pixels, w, h, threshold);
    let i = choose|i: int| 0 <= i < border.len() && border[i] == p;
    assert(w * h >= 0) by (nonlinear_arith)
        requires
            w >= 0,
            h >= 0,
    ;
    mask::lemma_border_is(kept, w as int, h as int, w * h, i);
    let c = p.1 * w + p.0;
    assert(0 <= c < w * h) by (nonlinear_arith)
        requires
            c == p.1 * w + p.0,
            0 <= p.0 < w,
            0 <= p.1 < h,
    ;
    mask::law_kept_cells_are_solid_and_connected(front, w as int, w * h, c, c);
    background::law_background_removal_only_removes(
        pixels,
        w as int,
        h as int,
        shown,
        threshold,
        c,
    );
}

/// Every corner of an outline lies in the middle of a visible pixel of the
/// sprite.
pub proof fn law_outline_corners_are_visible_pixels(
    pixels: Seq<u8>,
    w: u32,
    h: u32,
    size: (F32, F32),
    threshold: u8,
    epsilon: F32,
    i: int,
    c: int,
) -> (p: (i32, i32))
    requires
        outline_of(pixels, w, h, size, threshold, epsilon) matches Some(o) && 0 <= i
            < o.hulls.len() && 0 <= c < o.hulls[i].len(),
    ensures
        0 <= p.0 < w,
        0 <= p.1 < h,
        pixels[(p.1 * w + p.0) * 4 + 3] > threshold,
        outline_of(pixels, w, h, size, threshold, epsilon)->0.hulls[i][c] == simplify::to_local(
            p,
            w,
            h,
            size,
        ),
{
    let border = sprite_border(pixels, w, h, threshold);
    let local = local_polygon(border, w, h, size, epsilon);
    let v = sprite_hulls(local)[i][c];
    if polygon::hull(local).len() >= 3 && nearly_convex(local) {
        polygon_laws::law_hull_corners_are_points(local, c);
    } else {
        polygon::law_pieces_have_corners_of_polygon(local, i, c);
    }
    let p = lemma_local_on_border(border, w, h, size, epsilon, v);
    lemma_border_is_visible(pixels, w, h, threshold, p);
    p
}

/// An outline does not depend on the colours of a sprite that fills too little
/// of its image for a background: only on which pixels are visible.
pub proof fn law_outline_of_sparse_sprite_depends_on_alpha(
    a: Seq<u8>,
    b: Seq<u8>,
    w: u32,
    h: u32,
    size: (F32, F32),
    threshold: u8,
    epsilon: F32,
)
    requires
        mask::visible(a, w * h, threshold) == mask::visible(b, w * h, threshold),
        !background::may_have_background(
            w as int,
            h as int,
            mask::visible(a, w * h, threshold),
        ),
    ensures
        outline_of(a, w, h, size, threshold, epsilon) == outline_of(
            b,
            w,
            h,
            size,
            threshold,
            epsilon,
        ),
{
}

} // verus!
