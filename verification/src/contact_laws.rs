//! Laws on where things stand in the world, which of them are in contact, and how
//! far a contact pushes.

use crate::float::F32;
use crate::float_laws;
use crate::model;
use crate::outline::OutlineView;
use crate::outline::Rotation;
use crate::outline::NO_ROTATION;
use crate::polygon::LARGEST;
use crate::sat;
use crate::sat::Direction;
use crate::sat::SatResult;
use crate::sat::CLEARANCE;
use crate::sat::SMALLEST;
use crate::scene::GameObject;
use crate::simplify::HALF;
use crate::simplify::ONE;
use crate::vec2::Vec2;
use crate::vec2::MINUS_ONE;
use crate::vec2::NO_DIRECTION;
use vstd::prelude::*;

verus! {

// ---- places ----

/// `at` is where a corner of an object with a size stands, if the object is at a
/// position, with a rotation: the corner is relative to the middle of the object,
/// and turned if the angle is more than 1e-6 to either side.
pub open spec fn stands_at(
    at: Vec2,
    corner: Vec2,
    size: (F32, F32),
    position: Vec2,
    rotation: Rotation,
) -> bool {
    let half = F32 { bits: HALF };
    let middle_x = position.x.spec_add(size.0.spec_mul(half));
    let middle_y = position.y.spec_add(size.1.spec_mul(half));
    if (F32 { bits: NO_ROTATION }).spec_lt(rotation.angle.spec_abs()) {
        &&& at.x == corner.x.spec_mul(rotation.cos).spec_sub(
            corner.y.spec_mul(rotation.sin),
        ).spec_add(middle_x)
        &&& at.y == corner.x.spec_mul(rotation.sin).spec_add(
            corner.y.spec_mul(rotation.cos),
        ).spec_add(middle_y)
    } else {
        at.x == corner.x.spec_add(middle_x) && at.y == corner.y.spec_add(middle_y)
    }
}

/// `hulls` are the polygons of an outline at a position, with a rotation: each of
/// their corners stands where that places it.
pub open spec fn stand_at(
    hulls: Seq<Seq<Vec2>>,
    outline: OutlineView,
    position: Vec2,
    rotation: Rotation,
) -> bool {
    &&& hulls.len() == outline.hulls.len()
    &&& forall|i: int|
        0 <= i < hulls.len() ==> (#[trigger] hulls[i]).len() == outline.hulls[i].len()
    &&& forall|i: int, j: int|
        0 <= i < hulls.len() && 0 <= j < hulls[i].len() ==> stands_at(
            #[trigger] hulls[i][j],
            outline.hulls[i][j],
            outline.object_size,
            position,
            rotation,
        )
}

/// The polygons of an outline go where its object is, and turn as it does.
pub proof fn law_outline_goes_with_object(
    outline: OutlineView,
    position: Vec2,
    rotation: Rotation,
    hulls: Seq<Seq<Vec2>>,
)
    ensures
        stand_at(outline.placed_hulls(position, rotation), outline, position, rotation),
        stand_at(hulls, outline, position, rotation) ==> hulls == outline.placed_hulls(
            position,
            rotation,
        ),
{
    let all = outline.placed_hulls(position, rotation);
    if stand_at(hulls, outline, position, rotation) {
        assert forall|i: int| 0 <= i < hulls.len() implies hulls[i] == all[i] by {
            assert forall|j: int| 0 <= j < hulls[i].len() implies hulls[i][j] == all[i][j] by {
                assert(stands_at(
                    hulls[i][j],
                    outline.hulls[i][j],
                    outline.object_size,
                    position,
                    rotation,
                ));
            }
            assert(hulls[i] =~= all[i]);
        }
        assert(hulls =~= all);
    }
}

/// `ring` is the polygon around a centre that has a corner in each of the
/// directions, at the distance of the radius.
pub open spec fn rings(
    ring: Seq<Vec2>,
    center: Vec2,
    radius: F32,
    directions: Seq<Direction>,
) -> bool {
    &&& ring.len() == directions.len()
    &&& forall|i: int|
        0 <= i < ring.len() ==> (#[trigger] ring[i]).x == center.x.spec_add(
            directions[i].cos.spec_mul(radius),
        ) && ring[i].y == center.y.spec_add(directions[i].sin.spec_mul(radius))
}

/// The polygon that stands for a circle has its corners around the centre.
pub proof fn law_circle_is_around_its_center(
    center: Vec2,
    radius: F32,
    directions: Seq<Direction>,
    ring: Seq<Vec2>,
)
    ensures
        rings(sat::circle(center, radius, directions), center, radius, directions),
        rings(ring, center, radius, directions) ==> ring == sat::circle(
            center,
            radius,
            directions,
        ),
{
    if rings(ring, center, radius, directions) {
        assert(ring =~= sat::circle(center, radius, directions));
    }
}

/// A circle overlaps an outline if and only if its radius is positive and its
/// polygon is in contact with a polygon of the outline, where the outline stands at
/// its position and with its rotation.
pub proof fn law_circle_overlaps_what_it_touches(
    center: Vec2,
    radius: F32,
    directions: Seq<Direction>,
    outline: OutlineView,
    position: Vec2,
    rotation: Rotation,
    ring: Seq<Vec2>,
    hulls: Seq<Seq<Vec2>>,
)
    requires
        rings(ring, center, radius, directions),
        stand_at(hulls, outline, position, rotation),
    ensures
        sat::circle_overlaps(center, radius, directions, outline, position, rotation)
            <==> !radius.spec_le(F32 { bits: 0 }) && exists|k: int|
            0 <= k < hulls.len() && sat::contact(ring, #[trigger] hulls[k]) is Some,
{
    law_circle_is_around_its_center(center, radius, directions, ring);
    law_outline_goes_with_object(outline, position, rotation, hulls);
}

/// A circle with a positive radius overlaps an outline if and only if the outline
/// would push its polygon away.
pub proof fn law_circle_overlaps_what_pushes_it(
    center: Vec2,
    radius: F32,
    directions: Seq<Direction>,
    outline: OutlineView,
    position: Vec2,
    rotation: Rotation,
)
    requires
        (F32 { bits: 0 }).spec_lt(radius),
    ensures
        sat::circle_overlaps(center, radius, directions, outline, position, rotation)
            <==> sat::total_push(
            seq![sat::circle(center, radius, directions)],
            outline.placed_hulls(position, rotation),
        ) is Some,
{
    let ring = sat::circle(center, radius, directions);
    let hulls = outline.placed_hulls(position, rotation);
    let polys = seq![ring];
    reveal(F32::spec_lt);
    reveal(F32::spec_le);
    sat::law_no_push_without_overlap(polys, hulls);
    if sat::apart(polys, hulls) {
        assert forall|k: int| 0 <= k < hulls.len() implies sat::contact(
            ring,
            #[trigger] hulls[k],
        ) is None by {
            assert(sat::contact(polys[0], hulls[k]) is None);
        }
    }
}

// ---- ranges ----

/// The coordinate of a point along an axis.
pub open spec fn along(p: Vec2, axis: Vec2) -> F32 {
    p.x.spec_mul(axis.x).spec_add(p.y.spec_mul(axis.y))
}

/// All corners have finite coordinates along an axis.
pub open spec fn measured(poly: Seq<Vec2>, axis: Vec2) -> bool {
    forall|i: int| 0 <= i < poly.len() ==> along(#[trigger] poly[i], axis).finite()
}

/// No corner of a polygon is outside of its range along an axis.
pub proof fn law_range_holds_corners(poly: Seq<Vec2>, axis: Vec2, i: int)
    requires
        0 <= i < poly.len(),
    ensures
        !along(poly[i], axis).spec_lt(sat::range_along(poly, axis).0),
        !sat::range_along(poly, axis).1.spec_lt(along(poly[i], axis)),
{
    lemma_range_holds(poly, axis, poly.len() as int, i);
}

proof fn lemma_range_holds(poly: Seq<Vec2>, axis: Vec2, k: int, i: int)
    requires
        0 <= i < k <= poly.len(),
    ensures
        !along(poly[i], axis).spec_lt(sat::projection(poly, axis, k).0),
        !sat::projection(poly, axis, k).1.spec_lt(along(poly[i], axis)),
    decreases k,
{
    reveal(F32::spec_lt);
    if i < k - 1 {
        lemma_range_holds(poly, axis, k - 1, i);
    }
}

/// The ends of the range of a polygon are the coordinates of corners.
pub proof fn law_range_is_reached(poly: Seq<Vec2>, axis: Vec2) -> (r: (int, int))
    requires
        poly.len() > 0,
        measured(poly, axis),
    ensures
        0 <= r.0 < poly.len(),
        0 <= r.1 < poly.len(),
        sat::range_along(poly, axis).0.value() == along(poly[r.0], axis).value(),
        sat::range_along(poly, axis).1.value() == along(poly[r.1], axis).value(),
        sat::range_along(poly, axis).0.finite(),
        sat::range_along(poly, axis).1.finite(),
{
    lemma_range_reached(poly, axis, poly.len() as int)
}

proof fn lemma_range_reached(poly: Seq<Vec2>, axis: Vec2, k: int) -> (r: (int, int))
    requires
        0 < k <= poly.len(),
        measured(poly, axis),
    ensures
        0 <= r.0 < k,
        0 <= r.1 < k,
        sat::projection(poly, axis, k).0.value() == along(poly[r.0], axis).value(),
        sat::projection(poly, axis, k).1.value() == along(poly[r.1], axis).value(),
        sat::projection(poly, axis, k).0.finite(),
        sat::projection(poly, axis, k).1.finite(),
    decreases k,
{
    reveal(F32::spec_lt);
    assert(along(poly[k - 1], axis).finite());
    if k == 1 {
        reveal_with_fuel(sat::projection, 2);
        lemma_within_largest(along(poly[0], axis));
        (0, 0)
    } else {
        let (i, j) = lemma_range_reached(poly, axis, k - 1);
        let before = sat::projection(poly, axis, k - 1);
        let p = along(poly[k - 1], axis);
        (
            if p.spec_lt(before.0) {
                k - 1
            } else {
                i
            },
            if before.1.spec_lt(p) {
                k - 1
            } else {
                j
            },
        )
    }
}

/// No finite number is beyond the largest and the smallest.
proof fn lemma_within_largest(x: F32)
    requires
        x.finite(),
    ensures
        (F32 { bits: SMALLEST }).value() <= x.value() <= (F32 { bits: LARGEST }).value(),
{
    let largest = F32 { bits: LARGEST };
    let smallest = F32 { bits: SMALLEST };
    float_laws::lemma_parts(x);
    float_laws::lemma_parts(largest);
    float_laws::lemma_parts(smallest);
    assert(largest.mag() == 0x7f7f_ffff && !largest.negative());
    assert(smallest.mag() == 0x7f7f_ffff && smallest.negative());
    if x.mag() < 0x7f7f_ffff {
        crate::float::lemma_magnitude_monotone(x.mag(), 0x7f7f_ffff);
    }
    float_laws::law_largest_is_positive();
}

// ---- contacts ----

/// `axis` is the normal of the edge `i` of a polygon: the way from that corner to
/// the next one, the first after the last, turned left by a right angle and divided
/// by its length; straight up if the edge is shorter than 1e-8.
pub open spec fn is_normal(axis: Vec2, poly: Seq<Vec2>, i: int) -> bool {
    let next = if i == poly.len() - 1 {
        poly[0]
    } else {
        poly[i + 1]
    };
    let x = next.x.spec_sub(poly[i].x);
    let y = next.y.spec_sub(poly[i].y);
    let length = y.spec_neg().spec_mul(y.spec_neg()).spec_add(x.spec_mul(x)).spec_sqrt();
    &&& 0 <= i < poly.len()
    &&& if length.spec_lt(F32 { bits: NO_DIRECTION }) {
        axis.x.bits == 0 && axis.y.bits == MINUS_ONE
    } else {
        axis.x == y.spec_neg().spec_div(length) && axis.y == x.spec_div(length)
    }
}

/// `axis` is the normal of an edge of one of two polygons.
pub open spec fn is_axis(axis: Vec2, a: Seq<Vec2>, b: Seq<Vec2>) -> bool {
    ||| exists|i: int| #[trigger] is_normal(axis, a, i)
    ||| exists|i: int| #[trigger] is_normal(axis, b, i)
}

/// Along an axis, no corner of `a` is beyond one of `b`.
pub open spec fn not_beyond(a: Seq<Vec2>, b: Seq<Vec2>, axis: Vec2) -> bool {
    forall|i: int, j: int|
        0 <= i < a.len() && 0 <= j < b.len() ==> along(#[trigger] a[i], axis).spec_le(
            along(#[trigger] b[j], axis),
        )
}

proof fn lemma_normal(poly: Seq<Vec2>, i: int)
    requires
        0 <= i < poly.len(),
    ensures
        is_normal(sat::edge_normal(poly, i), poly, i),
        forall|axis: Vec2| is_normal(axis, poly, i) ==> axis == sat::edge_normal(poly, i),
{
    let n = poly.len() as int;
    if i == n - 1 {
        vstd::arithmetic::div_mod::lemma_mod_self_0(n);
    } else {
        vstd::arithmetic::div_mod::lemma_small_mod((i + 1) as nat, n as nat);
    }
}

proof fn lemma_axes(a: Seq<Vec2>, b: Seq<Vec2>, axis: Vec2)
    ensures
        is_axis(axis, a, b) <==> sat::axes(a, b).contains(axis),
{
    let all = sat::axes(a, b);
    if exists|i: int| #[trigger] is_normal(axis, a, i) {
        let i = choose|i: int| #[trigger] is_normal(axis, a, i);
        lemma_normal(a, i);
        assert(all[i] == axis);
    }
    if exists|i: int| #[trigger] is_normal(axis, b, i) {
        let i = choose|i: int| #[trigger] is_normal(axis, b, i);
        lemma_normal(b, i);
        assert(all[a.len() + i] == axis);
    }
    if all.contains(axis) {
        let k = choose|k: int| 0 <= k < all.len() && all[k] == axis;
        if k < a.len() {
            lemma_normal(a, k);
            assert(is_normal(axis, a, k));
        } else {
            lemma_normal(b, k - a.len());
            assert(is_normal(axis, b, k - a.len()));
        }
    }
}

proof fn lemma_not_beyond(a: Seq<Vec2>, b: Seq<Vec2>, axis: Vec2)
    requires
        a.len() > 0,
        b.len() > 0,
        measured(a, axis),
        measured(b, axis),
    ensures
        sat::range_along(a, axis).1.spec_le(sat::range_along(b, axis).0) <==> not_beyond(
            a,
            b,
            axis,
        ),
{
    reveal(F32::spec_lt);
    reveal(F32::spec_le);
    let (_k, most) = law_range_is_reached(a, axis);
    let (least, _j) = law_range_is_reached(b, axis);
    assert(along(a[most], axis).finite() && along(b[least], axis).finite());
    if sat::range_along(a, axis).1.spec_le(sat::range_along(b, axis).0) {
        assert forall|i: int, j: int| 0 <= i < a.len() && 0 <= j < b.len() implies along(
            #[trigger] a[i],
            axis,
        ).spec_le(along(#[trigger] b[j], axis)) by {
            law_range_holds_corners(a, axis, i);
            law_range_holds_corners(b, axis, j);
            assert(along(a[i], axis).finite() && along(b[j], axis).finite());
        }
    }
    if not_beyond(a, b, axis) {
        assert(along(a[most], axis).spec_le(along(b[least], axis)));
    }
}

/// Two polygons are in contact unless the normal of one of their edges separates
/// them: along it no corner of one is beyond a corner of the other.
pub proof fn law_contact_unless_separated(a: Seq<Vec2>, b: Seq<Vec2>)
    requires
        a.len() > 0,
        b.len() > 0,
        forall|axis: Vec2| #[trigger]
            is_axis(axis, a, b) ==> measured(a, axis) && measured(b, axis),
    ensures
        sat::contact(a, b) is None <==> exists|axis: Vec2| #[trigger]
            is_axis(axis, a, b) && (not_beyond(a, b, axis) || not_beyond(b, a, axis)),
{
    let all = sat::axes(a, b);
    if sat::separable(a, b) {
        let k = choose|k: int| 0 <= k < all.len() && sat::separates(a, b, #[trigger] all[k]);
        lemma_axes(a, b, all[k]);
        assert(all.contains(all[k]));
        assert(is_axis(all[k], a, b));
        lemma_not_beyond(a, b, all[k]);
        lemma_not_beyond(b, a, all[k]);
    }
    if exists|axis: Vec2| #[trigger]
        is_axis(axis, a, b) && (not_beyond(a, b, axis) || not_beyond(b, a, axis)) {
        let axis = choose|axis: Vec2| #[trigger]
            is_axis(axis, a, b) && (not_beyond(a, b, axis) || not_beyond(b, a, axis));
        lemma_axes(a, b, axis);
        lemma_not_beyond(a, b, axis);
        lemma_not_beyond(b, a, axis);
        let k = choose|k: int| 0 <= k < all.len() && all[k] == axis;
        assert(sat::separates(a, b, all[k]));
    }
}

/// Nothing is in contact with a polygon without corners.
pub proof fn law_nothing_touches_empty_polygon(a: Seq<Vec2>, b: Seq<Vec2>)
    requires
        a.len() == 0,
        b.len() > 0,
        measured(b, sat::edge_normal(b, 0)),
    ensures
        sat::contact(a, b) is None,
        sat::contact(b, a) is None,
{
    let axis = sat::edge_normal(b, 0);
    let (i, j) = law_range_is_reached(b, axis);
    assert(along(b[i], axis).finite());
    lemma_within_largest(along(b[i], axis));
    reveal(F32::spec_le);
    assert(sat::axes(a, b)[0] == axis);
    assert(sat::separates(a, b, sat::axes(a, b)[0]));
    sat::law_overlap_is_mutual(a, b);
}

/// A contact is along the normal of an edge, to either side, and as deep as the
/// polygons have to be moved along it in one of its two ways, for their ranges to
/// have no more in common. Along no normal of an edge, in neither way, is it less
/// far.
pub proof fn law_contact_is_shortest_way_out(a: Seq<Vec2>, b: Seq<Vec2>, other: Vec2)
    requires
        sat::contact(a, b) is Some,
        is_axis(other, a, b),
    ensures
        ({
            let c = sat::contact(a, b)->0;
            let (a_min, a_max) = sat::range_along(a, other);
            let (b_min, b_max) = sat::range_along(b, other);
            &&& !a_max.spec_sub(b_min).spec_lt(c.depth)
            &&& !b_max.spec_sub(a_min).spec_lt(c.depth)
        }),
        sat::contact(a, b)->0.depth.bits != LARGEST ==> exists|axis: Vec2| #[trigger]
            is_axis(axis, a, b) && {
                let c = sat::contact(a, b)->0;
                let (a_min, a_max) = sat::range_along(a, axis);
                let (b_min, b_max) = sat::range_along(b, axis);
                &&& c.depth == a_max.spec_sub(b_min) || c.depth == b_max.spec_sub(a_min)
                &&& c.normal == axis || (c.normal.x == axis.x.spec_mul(F32 { bits: MINUS_ONE })
                    && c.normal.y == axis.y.spec_mul(F32 { bits: MINUS_ONE }))
            },
{
    let all = sat::axes(a, b);
    lemma_axes(a, b, other);
    let k = choose|k: int| 0 <= k < all.len() && all[k] == other;
    sat::law_contact_depth_is_least(a, b, k);
    assert(sat::contact(a, b)->0.depth == sat::shallowest(a, b, all).depth);
    lemma_least_of_both(a, b, other, sat::contact(a, b)->0.depth);
    lemma_shallowest_axis(a, b, all);
    if sat::contact(a, b)->0.depth.bits != LARGEST {
        let i = choose|i: int|
            0 <= i < all.len() && sat::shallowest(a, b, all).normal == all[i] && sat::shallowest(
                a,
                b,
                all,
            ).depth == sat::overlap(a, b, all[i]);
        lemma_axes(a, b, all[i]);
        assert(all.contains(all[i]));
        assert(is_axis(all[i], a, b));
    }
}

proof fn lemma_least_of_both(a: Seq<Vec2>, b: Seq<Vec2>, axis: Vec2, depth: F32)
    requires
        !sat::overlap(a, b, axis).spec_lt(depth),
    ensures
        ({
            let (a_min, a_max) = sat::range_along(a, axis);
            let (b_min, b_max) = sat::range_along(b, axis);
            &&& !a_max.spec_sub(b_min).spec_lt(depth)
            &&& !b_max.spec_sub(a_min).spec_lt(depth)
        }),
{
    reveal(F32::spec_lt);
}

proof fn lemma_shallowest_axis(a: Seq<Vec2>, b: Seq<Vec2>, axes: Seq<Vec2>)
    ensures
        sat::shallowest(a, b, axes).depth.bits != LARGEST ==> exists|i: int|
            0 <= i < axes.len() && sat::shallowest(a, b, axes).normal == axes[i]
                && sat::shallowest(a, b, axes).depth == sat::overlap(a, b, axes[i]),
    decreases axes.len(),
{
    if axes.len() > 0 {
        let rest = axes.drop_last();
        lemma_shallowest_axis(a, b, rest);
        let before = sat::shallowest(a, b, rest);
        if sat::overlap(a, b, axes.last()).spec_lt(before.depth) {
            assert(axes[axes.len() - 1] == axes.last());
        } else if before.depth.bits != LARGEST {
            let i = choose|i: int|
                0 <= i < rest.len() && before.normal == rest[i] && before.depth == sat::overlap(
                    a,
                    b,
                    rest[i],
                );
            assert(axes[i] == rest[i]);
        }
    }
}

/// The axis with a number: the normals of the edges of the first polygon come
/// first, then those of the second one.
pub open spec fn is_axis_number(axis: Vec2, a: Seq<Vec2>, b: Seq<Vec2>, k: int) -> bool {
    if k < a.len() {
        is_normal(axis, a, k)
    } else {
        is_normal(axis, b, k - a.len())
    }
}

/// Along an axis, both ways out are longer than `depth`.
pub open spec fn farther_out(a: Seq<Vec2>, b: Seq<Vec2>, axis: Vec2, depth: F32) -> bool {
    let (a_min, a_max) = sat::range_along(a, axis);
    let (b_min, b_max) = sat::range_along(b, axis);
    !a_max.spec_sub(b_min).spec_le(depth) && !b_max.spec_sub(a_min).spec_le(depth)
}

/// Along an axis, one of the ways out is `depth`, and `normal` is the axis, or
/// turned around where it would lead from the mean of the corners of the first
/// polygon to that of the second.
pub open spec fn way_out(
    a: Seq<Vec2>,
    b: Seq<Vec2>,
    axis: Vec2,
    normal: Vec2,
    depth: F32,
) -> bool {
    let (a_min, a_max) = sat::range_along(a, axis);
    let (b_min, b_max) = sat::range_along(b, axis);
    let x = sat::mean(a).x.spec_sub(sat::mean(b).x);
    let y = sat::mean(a).y.spec_sub(sat::mean(b).y);
    &&& depth == a_max.spec_sub(b_min) || depth == b_max.spec_sub(a_min)
    &&& if x.spec_mul(axis.x).spec_add(y.spec_mul(axis.y)).spec_lt(F32 { bits: 0 }) {
        &&& normal.x == axis.x.spec_mul(F32 { bits: MINUS_ONE })
        &&& normal.y == axis.y.spec_mul(F32 { bits: MINUS_ONE })
    } else {
        normal == axis
    }
}

/// Of several equally short ways out, a contact is along the first axis; and it
/// points from the mean of the corners of the second polygon to that of the first,
/// or at least not back.
pub proof fn law_contact_is_along_first_axis(a: Seq<Vec2>, b: Seq<Vec2>) -> (r: (int, Vec2))
    requires
        sat::contact(a, b) is Some,
        sat::contact(a, b)->0.depth.bits != LARGEST,
    ensures
        0 <= r.0 < a.len() + b.len(),
        is_axis_number(r.1, a, b, r.0),
        way_out(a, b, r.1, sat::contact(a, b)->0.normal, sat::contact(a, b)->0.depth),
        forall|other: Vec2, j: int|
            0 <= j < r.0 && #[trigger] is_axis_number(other, a, b, j) ==> farther_out(
                a,
                b,
                other,
                sat::contact(a, b)->0.depth,
            ),
{
    let all = sat::axes(a, b);
    let k = lemma_first_shallowest(a, b, all);
    let c = sat::contact(a, b)->0;
    lemma_way_out(a, b, all[k], c);
    if k < a.len() {
        lemma_normal(a, k);
        assert(all[k] == sat::edge_normal(a, k));
    } else {
        lemma_normal(b, k - a.len());
        assert(all[k] == sat::edge_normal(b, k - a.len()));
    }
    assert forall|other: Vec2, j: int|
        0 <= j < k && #[trigger] is_axis_number(other, a, b, j) implies farther_out(
        a,
        b,
        other,
        c.depth,
    ) by {
        if j < a.len() {
            lemma_normal(a, j);
            assert(all[j] == other);
        } else {
            lemma_normal(b, j - a.len());
            assert(all[j] == other);
        }
        assert(!sat::overlap(a, b, all[j]).spec_le(c.depth));
        lemma_more_than_both(a, b, other, c.depth);
    }
    (k, all[k])
}

proof fn lemma_way_out(a: Seq<Vec2>, b: Seq<Vec2>, axis: Vec2, c: SatResult)
    requires
        c.depth == sat::overlap(a, b, axis),
        c.normal == sat::away(a, b, axis),
    ensures
        way_out(a, b, axis, c.normal, c.depth),
{
}

proof fn lemma_more_than_both(a: Seq<Vec2>, b: Seq<Vec2>, axis: Vec2, depth: F32)
    requires
        !sat::overlap(a, b, axis).spec_le(depth),
        !depth.nan(),
    ensures
        farther_out(a, b, axis, depth),
{
    reveal(F32::spec_lt);
    reveal(F32::spec_le);
}

proof fn lemma_first_shallowest(a: Seq<Vec2>, b: Seq<Vec2>, axes: Seq<Vec2>) -> (k: int)
    ensures
        !sat::shallowest(a, b, axes).depth.nan(),
        sat::shallowest(a, b, axes).depth.bits != LARGEST ==> 0 <= k < axes.len()
            && sat::shallowest(a, b, axes).normal == axes[k] && sat::shallowest(a, b, axes).depth
            == sat::overlap(a, b, axes[k]) && forall|j: int|
            0 <= j < k ==> (!(#[trigger] sat::overlap(a, b, axes[j])).spec_le(
                sat::shallowest(a, b, axes).depth,
            )),
        forall|j: int|
            0 <= j < axes.len() ==> !(#[trigger] sat::overlap(a, b, axes[j])).spec_lt(
                sat::shallowest(a, b, axes).depth,
            ),
    decreases axes.len(),
{
    reveal(F32::spec_lt);
    reveal(F32::spec_le);
    if axes.len() == 0 {
        0
    } else {
        let rest = axes.drop_last();
        let k = lemma_first_shallowest(a, b, rest);
        let before = sat::shallowest(a, b, rest);
        assert forall|j: int| 0 <= j < rest.len() implies rest[j] == axes[j] by {}
        assert forall|j: int| 0 <= j < rest.len() implies !(#[trigger] sat::overlap(
            a,
            b,
            axes[j],
        )).spec_lt(before.depth) by {
            assert(rest[j] == axes[j]);
            assert(!sat::overlap(a, b, rest[j]).spec_lt(before.depth));
        }
        if sat::overlap(a, b, axes.last()).spec_lt(before.depth) {
            axes.len() - 1
        } else {
            if before.depth.bits != LARGEST {
                assert forall|j: int| 0 <= j < k implies (!(#[trigger] sat::overlap(
                    a,
                    b,
                    axes[j],
                )).spec_le(before.depth)) by {
                    assert(rest[j] == axes[j]);
                    assert(!sat::overlap(a, b, rest[j]).spec_le(before.depth));
                }
            }
            k
        }
    }
}

/// Every corner counts in the mean of the corners of a polygon: their sum is that
/// of the others and the last one, and the mean is the sum times one by their
/// number.
pub proof fn law_every_corner_counts_in_mean(verts: Seq<Vec2>, v: Vec2)
    ensures
        sat::sum(Seq::empty()).x.bits == 0 && sat::sum(Seq::empty()).y.bits == 0,
        sat::sum(verts.push(v)).x == sat::sum(verts).x.spec_add(v.x),
        sat::sum(verts.push(v)).y == sat::sum(verts).y.spec_add(v.y),
        ({
            let part = (F32 { bits: ONE }).spec_div(F32::spec_from_int(verts.len() as int));
            &&& sat::mean(verts).x == sat::sum(verts).x.spec_mul(part)
            &&& sat::mean(verts).y == sat::sum(verts).y.spec_mul(part)
        }),
{
    assert(verts.push(v).drop_last() =~= verts);
}

// ---- pushes ----

/// `v` is the push of a contact: along its normal, by its depth and 0.01 more.
pub open spec fn pushes(v: Vec2, c: SatResult) -> bool {
    let way = c.depth.spec_add(F32 { bits: CLEARANCE });
    v.x == c.normal.x.spec_mul(way) && v.y == c.normal.y.spec_mul(way)
}

/// A contact pushes along its normal, by its depth and the clearance.
pub proof fn law_contact_pushes_along_normal(c: SatResult)
    ensures
        pushes(c.spec_push(), c),
{
}

/// `corners` are those of the box of an object.
pub open spec fn boxes(corners: Seq<Vec2>, object: GameObject) -> bool {
    let right = object.position.x.spec_add(object.size.0);
    let bottom = object.position.y.spec_add(object.size.1);
    &&& corners.len() == 4
    &&& corners[0].x == object.position.x && corners[0].y == object.position.y
    &&& corners[1].x == right && corners[1].y == object.position.y
    &&& corners[2].x == right && corners[2].y == bottom
    &&& corners[3].x == object.position.x && corners[3].y == bottom
}

/// An object without an outline is pushed as its box is: not at all if the box is
/// in contact with no polygon of the obstacle, where that stands, and else by the
/// least deep of the contacts, the first of several.
pub proof fn law_box_leaves_by_least_contact(
    object: GameObject,
    obstacle: GameObject,
    outline: OutlineView,
    corners: Seq<Vec2>,
    hulls: Seq<Seq<Vec2>>,
)
    requires
        boxes(corners, object),
        stand_at(hulls, outline, obstacle.position, obstacle.rotation),
    ensures
        match model::push_from(object, None, obstacle, outline) {
            None => forall|k: int|
                0 <= k < hulls.len() ==> sat::contact(corners, #[trigger] hulls[k]) is None,
            Some(v) => exists|k: int|
                0 <= k < hulls.len() && is_least_contact(corners, hulls, k) && pushes(
                    v,
                    sat::contact(corners, #[trigger] hulls[k])->0,
                ),
        },
{
    assert(corners =~= sat::box_corners(object.position, object.size));
    law_outline_goes_with_object(outline, obstacle.position, obstacle.rotation, hulls);
    let k = lemma_least_contact(corners, hulls);
    if let Some(v) = model::push_from(object, None, obstacle, outline) {
        assert(pushes(v, sat::contact(corners, hulls[k])->0));
    }
}

/// The polygon `k` is in contact; no other contact is less deep, and the earlier
/// ones are deeper.
pub open spec fn is_least_contact(poly: Seq<Vec2>, hulls: Seq<Seq<Vec2>>, k: int) -> bool {
    &&& sat::contact(poly, hulls[k]) is Some
    &&& forall|j: int|
        0 <= j < hulls.len() ==> (sat::contact(poly, #[trigger] hulls[j]) matches Some(c)
            ==> !c.depth.spec_lt(sat::contact(poly, hulls[k])->0.depth))
    &&& forall|j: int|
        0 <= j < k ==> (sat::contact(poly, #[trigger] hulls[j]) matches Some(c) ==> sat::contact(
            poly,
            hulls[k],
        )->0.depth.spec_lt(c.depth))
}

proof fn lemma_least_contact(poly: Seq<Vec2>, hulls: Seq<Seq<Vec2>>) -> (k: int)
    ensures
        match sat::least_contact(poly, hulls) {
            None => forall|k: int|
                0 <= k < hulls.len() ==> sat::contact(poly, #[trigger] hulls[k]) is None,
            Some(c) => 0 <= k < hulls.len() && is_least_contact(poly, hulls, k) && sat::contact(
                poly,
                hulls[k],
            ) == Some(c),
        },
    decreases hulls.len(),
{
    if hulls.len() == 0 {
        0
    } else {
        let rest = hulls.drop_last();
        let last = hulls.len() - 1;
        let k = lemma_least_contact(poly, rest);
        match (sat::least_contact(poly, rest), sat::contact(poly, hulls.last())) {
            (None, _) => {
                lemma_only_contact(poly, hulls);
                last
            },
            (Some(b), None) => {
                assert(hulls[k] == rest[k]);
                lemma_least_extends(poly, hulls, k);
                k
            },
            (Some(b), Some(c)) => {
                assert(hulls[k] == rest[k]);
                if c.depth.spec_lt(b.depth) {
                    lemma_last_is_least(poly, hulls, k);
                    last
                } else {
                    lemma_least_extends(poly, hulls, k);
                    k
                }
            },
        }
    }
}

/// Where no other polygon is in contact, the last one has the least contact, if any.
proof fn lemma_only_contact(poly: Seq<Vec2>, hulls: Seq<Seq<Vec2>>)
    requires
        hulls.len() > 0,
        forall|j: int|
            0 <= j < hulls.len() - 1 ==> sat::contact(
                poly,
                #[trigger] hulls.drop_last()[j],
            ) is None,
    ensures
        sat::contact(poly, hulls.last()) is Some ==> is_least_contact(
            poly,
            hulls,
            hulls.len() - 1,
        ),
        sat::contact(poly, hulls.last()) is None ==> forall|j: int|
            0 <= j < hulls.len() ==> sat::contact(poly, #[trigger] hulls[j]) is None,
{
    let last = hulls.len() - 1;
    assert forall|j: int| 0 <= j < last implies sat::contact(poly, #[trigger] hulls[j]) is None by {
        assert(hulls.drop_last()[j] == hulls[j]);
    }
    if let Some(c) = sat::contact(poly, hulls.last()) {
        assert(!c.depth.spec_lt(c.depth)) by {
            reveal(F32::spec_lt);
        }
    }
}

/// A contact that is less deep than the least one before it is the least one.
proof fn lemma_last_is_least(poly: Seq<Vec2>, hulls: Seq<Seq<Vec2>>, k: int)
    requires
        hulls.len() > 0,
        0 <= k < hulls.len() - 1,
        is_least_contact(poly, hulls.drop_last(), k),
        sat::contact(poly, hulls.last()) matches Some(c) && c.depth.spec_lt(
            sat::contact(poly, hulls[k])->0.depth,
        ),
    ensures
        is_least_contact(poly, hulls, hulls.len() - 1),
{
    let rest = hulls.drop_last();
    let last = hulls.len() - 1;
    let c = sat::contact(poly, hulls.last())->0;
    let b = sat::contact(poly, hulls[k])->0;
    assert(rest[k] == hulls[k]);
    assert forall|j: int| 0 <= j < last implies (sat::contact(poly, #[trigger] hulls[j]) matches Some(
        d,
    ) ==> c.depth.spec_lt(d.depth) && !d.depth.spec_lt(c.depth)) by {
        assert(rest[j] == hulls[j]);
        if let Some(d) = sat::contact(poly, hulls[j]) {
            sat::lemma_contact_depth_is_number(poly, hulls[j]);
            assert(!d.depth.spec_lt(b.depth));
            lemma_less_than_least(c.depth, b.depth, d.depth);
        }
    }
    assert(!c.depth.spec_lt(c.depth)) by {
        reveal(F32::spec_lt);
    }
}

proof fn lemma_less_than_least(c: F32, b: F32, d: F32)
    requires
        c.spec_lt(b),
        !d.spec_lt(b),
        !d.nan(),
    ensures
        c.spec_lt(d),
        !d.spec_lt(c),
{
    reveal(F32::spec_lt);
}

proof fn lemma_least_extends(poly: Seq<Vec2>, hulls: Seq<Seq<Vec2>>, k: int)
    requires
        hulls.len() > 0,
        0 <= k < hulls.len() - 1,
        is_least_contact(poly, hulls.drop_last(), k),
        sat::contact(poly, hulls.last()) matches Some(c) ==> !c.depth.spec_lt(
            sat::contact(poly, hulls[k])->0.depth,
        ),
    ensures
        is_least_contact(poly, hulls, k),
{
    let rest = hulls.drop_last();
    assert(hulls[k] == rest[k]);
    assert forall|j: int| 0 <= j < hulls.len() implies (sat::contact(
        poly,
        #[trigger] hulls[j],
    ) matches Some(c) ==> !c.depth.spec_lt(sat::contact(poly, hulls[k])->0.depth)) by {
        if j < rest.len() {
            assert(rest[j] == hulls[j]);
        }
    }
    assert forall|j: int| 0 <= j < k implies (sat::contact(poly, #[trigger] hulls[j]) matches Some(c)
        ==> sat::contact(poly, hulls[k])->0.depth.spec_lt(c.depth)) by {
        assert(rest[j] == hulls[j]);
    }
}

/// An object with an outline is pushed as its polygons are, where they stand: by
/// the sum of the pushes of all contacts with the polygons of the obstacle.
pub proof fn law_outline_leaves_by_all_contacts(
    object: GameObject,
    own: OutlineView,
    obstacle: GameObject,
    outline: OutlineView,
    polys: Seq<Seq<Vec2>>,
    hulls: Seq<Seq<Vec2>>,
)
    requires
        stand_at(polys, own, object.position, object.rotation),
        stand_at(hulls, outline, obstacle.position, obstacle.rotation),
    ensures
        model::push_from(object, Some(own), obstacle, outline) == sat::total_push(polys, hulls),
        model::push_from(object, Some(own), obstacle, outline) is None <==> forall|i: int, j: int|
            0 <= i < polys.len() && 0 <= j < hulls.len() ==> sat::contact(
                #[trigger] polys[i],
                #[trigger] hulls[j],
            ) is None,
{
    law_outline_goes_with_object(own, object.position, object.rotation, polys);
    law_outline_goes_with_object(outline, obstacle.position, obstacle.rotation, hulls);
    sat::law_no_push_without_overlap(polys, hulls);
}

/// A push and one more contact: the sum of both where there are both.
pub open spec fn adds(after: Option<Vec2>, before: Option<Vec2>, c: Option<SatResult>) -> bool {
    match (after, before, c) {
        (after, before, None) => after == before,
        (Some(v), None, Some(c)) => pushes(v, c),
        (Some(v), Some(u), Some(c)) => exists|p: Vec2| #[trigger]
            pushes(p, c) && v.x == u.x.spec_add(p.x) && v.y == u.y.spec_add(p.y),
        (None, _, Some(c)) => false,
    }
}

/// Every contact counts: one more polygon of an obstacle adds its push on a polygon
/// to those of the others, and each polygon of an object adds its own.
pub proof fn law_contact_pushes_add_up(
    polys: Seq<Seq<Vec2>>,
    poly: Seq<Vec2>,
    hulls: Seq<Seq<Vec2>>,
    hull: Seq<Vec2>,
    before: Option<Vec2>,
)
    ensures
        sat::total_push(Seq::empty(), hulls) is None,
        sat::total_push(polys.push(poly), hulls) == sat::row_push(
            sat::total_push(polys, hulls),
            poly,
            hulls,
        ),
        sat::row_push(before, poly, Seq::empty()) == before,
        adds(
            sat::row_push(before, poly, hulls.push(hull)),
            sat::row_push(before, poly, hulls),
            sat::contact(poly, hull),
        ),
{
    assert(polys.push(poly).drop_last() =~= polys);
    assert(hulls.push(hull).drop_last() =~= hulls);
    if let Some(c) = sat::contact(poly, hull) {
        assert(pushes(c.spec_push(), c));
    }
}

} // verus!
