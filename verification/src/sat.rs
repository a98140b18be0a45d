//! Tests for overlap by separating axes.

use crate::float::F32;
use crate::float_laws;
use crate::outline::CollisionOutline;
use crate::outline::OutlineView;
use crate::outline::Rotation;
use crate::polygon;
use crate::polygon::LARGEST;
use crate::simplify;
use crate::vec2::Vec2;
use crate::vec2::MINUS_ONE;
use vstd::prelude::*;

verus! {

/// The smallest finite number.
pub const SMALLEST: u32 = 0xff7f_ffff;

/// 0.01: what a push adds to the depth of an overlap.
pub const CLEARANCE: u32 = 0x3c23_d70a;

/// The circumference of the unit circle.
pub const TAU: u32 = 0x40c9_0fdb;

/// A circle is tested as a polygon with as many corners.
pub const CIRCLE_SEGMENTS: usize = 20;

/// No circle becomes a polygon with fewer corners.
pub const FEWEST_SEGMENTS: usize = 8;

/// How two overlapping polygons come apart: the first is moved along `normal`
/// by `depth`.
#[derive(Clone, Copy, Debug)]
pub struct SatResult {
    pub normal: Vec2,
    pub depth: F32,
}

impl SatResult {
    /// The way that separates the polygons, with some clearance.
    pub open spec fn spec_push(self) -> Vec2 {
        self.normal.spec_scale(self.depth.spec_add(F32 { bits: CLEARANCE }))
    }

    pub fn push(self) -> (r: Vec2)
        ensures
            r == self.spec_push(),
    {
        let clearance = F32 { bits: CLEARANCE };
        self.normal.scale(self.depth.add(clearance))
    }
}

// ---- one axis ----

/// The least and the largest coordinate of the first `k` corners along an axis.
pub open spec fn projection(poly: Seq<Vec2>, axis: Vec2, k: int) -> (F32, F32)
    decreases k,
{
    if k <= 0 {
        (F32 { bits: LARGEST }, F32 { bits: SMALLEST })
    } else {
        let (least, most) = projection(poly, axis, k - 1);
        let p = poly[k - 1].spec_dot(axis);
        (
            if p.spec_lt(least) {
                p
            } else {
                least
            },
            if most.spec_lt(p) {
                p
            } else {
                most
            },
        )
    }
}

/// The range of a polygon along an axis.
pub open spec fn range_along(poly: Seq<Vec2>, axis: Vec2) -> (F32, F32) {
    projection(poly, axis, poly.len() as int)
}

/// The ranges of two polygons along an axis have no inner point in common.
pub open spec fn separates(a: Seq<Vec2>, b: Seq<Vec2>, axis: Vec2) -> bool {
    let (a_min, a_max) = range_along(a, axis);
    let (b_min, b_max) = range_along(b, axis);
    a_max.spec_le(b_min) || b_max.spec_le(a_min)
}

/// How far the ranges of two polygons overlap along an axis.
pub open spec fn overlap(a: Seq<Vec2>, b: Seq<Vec2>, axis: Vec2) -> F32 {
    let (a_min, a_max) = range_along(a, axis);
    let (b_min, b_max) = range_along(b, axis);
    a_max.spec_sub(b_min).spec_min(b_max.spec_sub(a_min))
}

/// The range of a polygon along an axis.
pub fn project_polygon(poly: &[Vec2], axis: Vec2) -> (r: (F32, F32))
    ensures
        r == range_along(poly@, axis),
{
    let mut least = F32 { bits: LARGEST };
    let mut most = F32 { bits: SMALLEST };
    for i in 0..poly.len()
        invariant
            (least, most) == projection(poly@, axis, i as int),
    {
        let p = poly[i].dot(axis);
        if p.lt(least) {
            least = p;
        }
        if most.lt(p) {
            most = p;
        }
    }
    (least, most)
}

// ---- two polygons ----

/// The normal of an edge.
pub open spec fn edge_normal(poly: Seq<Vec2>, i: int) -> Vec2 {
    poly[(i + 1) % (poly.len() as int)].spec_sub(poly[i]).spec_perp().spec_normalize()
}

pub open spec fn edge_normals(poly: Seq<Vec2>) -> Seq<Vec2> {
    Seq::new(poly.len(), |i: int| edge_normal(poly, i))
}

/// The axes that can separate two convex polygons: the normals of their edges.
pub open spec fn axes(a: Seq<Vec2>, b: Seq<Vec2>) -> Seq<Vec2> {
    edge_normals(a) + edge_normals(b)
}

pub open spec fn separable(a: Seq<Vec2>, b: Seq<Vec2>) -> bool {
    exists|i: int| 0 <= i < axes(a, b).len() && separates(a, b, #[trigger] axes(a, b)[i])
}

/// The first of `axes` along which the overlap is least, and that overlap.
pub open spec fn shallowest(a: Seq<Vec2>, b: Seq<Vec2>, axes: Seq<Vec2>) -> SatResult
    decreases axes.len(),
{
    if axes.len() == 0 {
        SatResult { normal: Vec2::spec_zero(), depth: F32 { bits: LARGEST } }
    } else {
        let before = shallowest(a, b, axes.drop_last());
        let depth = overlap(a, b, axes.last());
        if depth.spec_lt(before.depth) {
            SatResult { normal: axes.last(), depth }
        } else {
            before
        }
    }
}

pub open spec fn sum(verts: Seq<Vec2>) -> Vec2
    decreases verts.len(),
{
    if verts.len() == 0 {
        Vec2::spec_zero()
    } else {
        sum(verts.drop_last()).spec_add(verts.last())
    }
}

/// The mean of the corners.
pub open spec fn mean(verts: Seq<Vec2>) -> Vec2 {
    let one = F32 { bits: simplify::ONE };
    sum(verts).spec_scale(one.spec_div(F32::spec_from_int(verts.len() as int)))
}

/// The normal that points from `b` to `a`.
pub open spec fn away(a: Seq<Vec2>, b: Seq<Vec2>, normal: Vec2) -> Vec2 {
    let d = mean(a).spec_sub(mean(b)).spec_dot(normal);
    if d.spec_lt(F32 { bits: 0 }) {
        normal.spec_scale(F32 { bits: MINUS_ONE })
    } else {
        normal
    }
}

/// How to take the convex polygon `a` away from `b`, if they overlap.
pub open spec fn contact(a: Seq<Vec2>, b: Seq<Vec2>) -> Option<SatResult> {
    if separable(a, b) {
        None
    } else {
        let least = shallowest(a, b, axes(a, b));
        Some(SatResult { normal: away(a, b, least.normal), depth: least.depth })
    }
}

/// The mean of the corners.
pub fn centroid(verts: &[Vec2]) -> (r: Vec2)
    ensures
        r == mean(verts@),
{
    let mut total = Vec2::zero();
    for i in 0..verts.len()
        invariant
            total == sum(verts@.take(i as int)),
    {
        total = total.add(verts[i]);
        assert(verts@.take(i + 1).drop_last() =~= verts@.take(i as int));
    }
    assert(verts@.take(verts@.len() as int) =~= verts@);
    let one = F32 { bits: simplify::ONE };
    total.scale(one.div(F32::from_u64(verts.len() as u64)))
}

/// Goes on with the edges of one of the polygons, after some axes were tried;
/// `None` if an axis separates the polygons.
fn try_edges(
    a: &[Vec2],
    b: &[Vec2],
    poly: &[Vec2],
    start: SatResult,
    Ghost(tried): Ghost<Seq<Vec2>>,
) -> (r: Option<SatResult>)
    requires
        start == shallowest(a@, b@, tried),
    ensures
        match r {
            Some(s) => s == shallowest(a@, b@, tried + edge_normals(poly@)) && forall|i: int|
                0 <= i < poly@.len() ==> !separates(a@, b@, #[trigger] edge_normals(poly@)[i]),
            None => exists|i: int|
                0 <= i < poly@.len() && separates(a@, b@, #[trigger] edge_normals(poly@)[i]),
        },
{
    let ghost normals = edge_normals(poly@);
    let mut least = start;
    let n: usize = poly.len();
    assert(tried + normals.take(0) =~= tried);
    for i in 0..n
        invariant
            n == poly@.len(),
            normals == edge_normals(poly@),
            least == shallowest(a@, b@, tried + normals.take(i as int)),
            forall|j: int| 0 <= j < i ==> !separates(a@, b@, #[trigger] normals[j]),
    {
        let next: usize = polygon::corner_after(n, i);
        let axis = poly[next].sub(poly[i]).perp().normalize();
        assert(axis == normals[i as int]);
        let (a_min, a_max) = project_polygon(a, axis);
        let (b_min, b_max) = project_polygon(b, axis);
        if a_max.le(b_min) || b_max.le(a_min) {
            assert(separates(a@, b@, normals[i as int]));
            return None;
        }
        let depth = a_max.sub(b_min).min(b_max.sub(a_min));
        let ghost all = tried + normals.take(i + 1);
        assert(all.drop_last() =~= tried + normals.take(i as int));
        if depth.lt(least.depth) {
            least = SatResult { normal: axis, depth };
        }
    }
    assert(normals.take(n as int) =~= normals);
    Some(least)
}

/// How to take the convex polygon `a` away from `b`, if they overlap.
pub fn sat_convex_vs_convex(a: &[Vec2], b: &[Vec2]) -> (r: Option<SatResult>)
    ensures
        r == contact(a@, b@),
{
    let largest = F32 { bits: LARGEST };
    let start = SatResult { normal: Vec2::zero(), depth: largest };
    let ghost all = axes(a@, b@);
    assert(Seq::<Vec2>::empty() + edge_normals(a@) =~= edge_normals(a@));
    let first = match try_edges(a, b, a, start, Ghost(Seq::empty())) {
        Some(s) => s,
        None => {
            proof {
                let i = choose|i: int|
                    0 <= i < a@.len() && separates(a@, b@, #[trigger] edge_normals(a@)[i]);
                assert(all[i] == edge_normals(a@)[i]);
            }
            return None;
        },
    };
    let least = match try_edges(a, b, b, first, Ghost(edge_normals(a@))) {
        Some(s) => s,
        None => {
            proof {
                let i = choose|i: int|
                    0 <= i < b@.len() && separates(a@, b@, #[trigger] edge_normals(b@)[i]);
                assert(all[a@.len() + i] == edge_normals(b@)[i]);
            }
            return None;
        },
    };
    assert(!separable(a@, b@)) by {
        assert forall|i: int| 0 <= i < all.len() implies !separates(a@, b@, #[trigger] all[i]) by {
            if i < a@.len() {
                assert(all[i] == edge_normals(a@)[i]);
            } else {
                assert(all[i] == edge_normals(b@)[i - a@.len()]);
            }
        }
    }
    let ca = centroid(a);
    let cb = centroid(b);
    let mut normal = least.normal;
    if ca.sub(cb).dot(normal).lt(F32::zero()) {
        normal = normal.scale(F32 { bits: MINUS_ONE });
    }
    Some(SatResult { normal, depth: least.depth })
}

/// No axis separates less deeply than a contact says.
pub proof fn law_contact_depth_is_least(a: Seq<Vec2>, b: Seq<Vec2>, i: int)
    requires
        contact(a, b) is Some,
        0 <= i < axes(a, b).len(),
    ensures
        !overlap(a, b, axes(a, b)[i]).spec_lt(contact(a, b)->0.depth),
{
    lemma_shallowest(a, b, axes(a, b), i);
}

proof fn lemma_shallowest(a: Seq<Vec2>, b: Seq<Vec2>, axes: Seq<Vec2>, i: int)
    requires
        0 <= i < axes.len(),
    ensures
        !overlap(a, b, axes[i]).spec_lt(shallowest(a, b, axes).depth),
    decreases axes.len(),
{
    let before = shallowest(a, b, axes.drop_last());
    let depth = overlap(a, b, axes.last());
    if i < axes.len() - 1 {
        lemma_shallowest(a, b, axes.drop_last(), i);
        let d = overlap(a, b, axes[i]);
        if depth.spec_lt(before.depth) && d.spec_lt(depth) {
            float_laws::law_order_is_transitive(d, depth, before.depth);
        }
    } else if depth.spec_lt(before.depth) {
        reveal(F32::spec_lt);
    }
}

/// The normal of a contact never points from the first polygon to the second.
pub proof fn law_contact_normal_points_away(a: Seq<Vec2>, b: Seq<Vec2>)
    requires
        contact(a, b) is Some,
    ensures
        !mean(a).spec_sub(mean(b)).spec_dot(contact(a, b)->0.normal).spec_lt(F32 { bits: 0 }),
{
    let way = mean(a).spec_sub(mean(b));
    let n = shallowest(a, b, axes(a, b)).normal;
    let d = way.spec_dot(n);
    let zero = F32 { bits: 0 };
    if d.spec_lt(zero) {
        reveal(F32::spec_lt);
        float_laws::law_zero_is_zero(zero);
        let p = way.x.spec_mul(n.x);
        let q = way.y.spec_mul(n.y);
        float_laws::law_sum_of_numbers(p, q);
        float_laws::law_product_of_numbers(way.x, n.x);
        float_laws::law_product_of_numbers(way.y, n.y);
        float_laws::law_times_minus_one(n.x);
        float_laws::law_times_minus_one(n.y);
        float_laws::law_negated_product(way.x, n.x);
        float_laws::law_negated_product(way.y, n.y);
        float_laws::law_negated_sum(p, q);
        float_laws::law_negation_turns_sign(d);
    }
}

/// Two polygons overlap each other or neither does.
pub proof fn law_overlap_is_mutual(a: Seq<Vec2>, b: Seq<Vec2>)
    ensures
        contact(a, b) is Some <==> contact(b, a) is Some,
{
    if separable(a, b) {
        lemma_separable(a, b);
    }
    if separable(b, a) {
        lemma_separable(b, a);
    }
}

/// The range of a polygon has numbers for its ends.
proof fn lemma_range_is_numeric(poly: Seq<Vec2>, axis: Vec2, k: int)
    ensures
        !projection(poly, axis, k).0.nan(),
        !projection(poly, axis, k).1.nan(),
    decreases k,
{
    reveal(F32::spec_lt);
    if k > 0 {
        lemma_range_is_numeric(poly, axis, k - 1);
    }
}

/// Along an axis that does not separate two polygons they overlap by more than
/// zero, and by the same in either order.
proof fn lemma_overlap(a: Seq<Vec2>, b: Seq<Vec2>, axis: Vec2)
    requires
        !separates(a, b, axis),
    ensures
        (F32 { bits: 0 }).spec_lt(overlap(a, b, axis)),
        overlap(a, b, axis).value() == overlap(b, a, axis).value(),
{
    let (a_min, a_max) = range_along(a, axis);
    let (b_min, b_max) = range_along(b, axis);
    lemma_range_is_numeric(a, axis, a.len() as int);
    lemma_range_is_numeric(b, axis, b.len() as int);
    float_laws::law_order_is_total(b_min, a_max);
    float_laws::law_order_is_total(a_min, b_max);
    float_laws::law_difference_is_positive(a_max, b_min);
    float_laws::law_difference_is_positive(b_max, a_min);
    reveal(F32::spec_lt);
}

/// The least overlap is the same number whatever the order of the axes.
proof fn lemma_shallowest_is_reached(a: Seq<Vec2>, b: Seq<Vec2>, axes: Seq<Vec2>) -> (k: int)
    ensures
        0 <= k < axes.len() ==> shallowest(a, b, axes).depth == overlap(a, b, axes[k]),
        !(0 <= k < axes.len()) ==> shallowest(a, b, axes).depth == (F32 { bits: LARGEST }),
        !(F32 { bits: LARGEST }).spec_lt(shallowest(a, b, axes).depth),
    decreases axes.len(),
{
    reveal(F32::spec_lt);
    if axes.len() == 0 {
        -1
    } else {
        let rest = axes.drop_last();
        let k = lemma_shallowest_is_reached(a, b, rest);
        let before = shallowest(a, b, rest);
        if overlap(a, b, axes.last()).spec_lt(before.depth) {
            axes.len() - 1
        } else if 0 <= k < rest.len() {
            k
        } else {
            -1
        }
    }
}

proof fn lemma_depth_is_number(a: Seq<Vec2>, b: Seq<Vec2>, axes: Seq<Vec2>)
    ensures
        !shallowest(a, b, axes).depth.nan(),
    decreases axes.len(),
{
    reveal(F32::spec_lt);
    if axes.len() > 0 {
        lemma_depth_is_number(a, b, axes.drop_last());
    }
}

/// The depth of a contact is a number.
pub proof fn lemma_contact_depth_is_number(a: Seq<Vec2>, b: Seq<Vec2>)
    requires
        contact(a, b) is Some,
    ensures
        !contact(a, b)->0.depth.nan(),
{
    lemma_depth_is_number(a, b, axes(a, b));
}

/// No depth of the contact of `b` with `a` is less than that of `a` with `b`.
proof fn lemma_depth_not_less(a: Seq<Vec2>, b: Seq<Vec2>)
    requires
        !separable(a, b),
    ensures
        (F32 { bits: 0 }).spec_lt(shallowest(a, b, axes(a, b)).depth),
        shallowest(a, b, axes(a, b)).depth.spec_le(shallowest(b, a, axes(b, a)).depth),
{
    let ab = axes(a, b);
    let ba = axes(b, a);
    let x = shallowest(a, b, ab).depth;
    let y = shallowest(b, a, ba).depth;
    lemma_depth_is_number(a, b, ab);
    lemma_depth_is_number(b, a, ba);
    let i = lemma_shallowest_is_reached(a, b, ab);
    let k = lemma_shallowest_is_reached(b, a, ba);
    float_laws::law_zero_is_zero(F32 { bits: 0 });
    float_laws::law_largest_is_positive();
    reveal(F32::spec_lt);
    reveal(F32::spec_le);
    if 0 <= i < ab.len() {
        lemma_overlap(a, b, ab[i]);
    }
    if 0 <= k < ba.len() {
        let j = if k < b.len() {
            a.len() + k
        } else {
            k - b.len()
        };
        assert(ab[j] == ba[k]);
        lemma_overlap(a, b, ab[j]);
        lemma_shallowest(a, b, ab, j);
    }
}

/// The depth of a contact is more than zero, and is the same whichever of the
/// polygons is taken away from the other.
pub proof fn law_contact_depth_is_mutual(a: Seq<Vec2>, b: Seq<Vec2>)
    requires
        contact(a, b) is Some,
    ensures
        contact(b, a) is Some,
        (F32 { bits: 0 }).spec_lt(contact(a, b)->0.depth),
        contact(a, b)->0.depth.spec_le(contact(b, a)->0.depth),
        contact(b, a)->0.depth.spec_le(contact(a, b)->0.depth),
        !contact(a, b)->0.depth.spec_lt(contact(b, a)->0.depth),
        !contact(b, a)->0.depth.spec_lt(contact(a, b)->0.depth),
{
    law_overlap_is_mutual(a, b);
    lemma_depth_not_less(a, b);
    lemma_depth_not_less(b, a);
    reveal(F32::spec_lt);
    reveal(F32::spec_le);
}

proof fn lemma_separable(a: Seq<Vec2>, b: Seq<Vec2>)
    requires
        separable(a, b),
    ensures
        separable(b, a),
{
    let i = choose|i: int|
        0 <= i < axes(a, b).len() && separates(a, b, #[trigger] axes(a, b)[i]);
    let j = if i < a.len() {
        b.len() + i
    } else {
        i - a.len()
    };
    assert(axes(b, a)[j] == axes(a, b)[i]);
}

// ---- boxes and outlines ----

/// The corners of a box.
pub open spec fn box_corners(pos: Vec2, size: (F32, F32)) -> Seq<Vec2> {
    let right = pos.x.spec_add(size.0);
    let bottom = pos.y.spec_add(size.1);
    seq![pos, Vec2 { x: right, y: pos.y }, Vec2 { x: right, y: bottom }, Vec2 { x: pos.x, y: bottom }]
}

/// The corners of a box.
pub fn aabb_vertices(pos: Vec2, size: (F32, F32)) -> (r: Vec<Vec2>)
    ensures
        r@ == box_corners(pos, size),
{
    let right = pos.x.add(size.0);
    let bottom = pos.y.add(size.1);
    let r = vec![
        pos,
        Vec2 { x: right, y: pos.y },
        Vec2 { x: right, y: bottom },
        Vec2 { x: pos.x, y: bottom },
    ];
    assert(r@ =~= box_corners(pos, size));
    r
}

/// The least deep of the contacts of a polygon with the others; the first of
/// several.
pub open spec fn least_contact(poly: Seq<Vec2>, hulls: Seq<Seq<Vec2>>) -> Option<SatResult>
    decreases hulls.len(),
{
    if hulls.len() == 0 {
        None
    } else {
        match (least_contact(poly, hulls.drop_last()), contact(poly, hulls.last())) {
            (None, c) => c,
            (b, None) => b,
            (Some(b), Some(c)) => if c.depth.spec_lt(b.depth) {
                Some(c)
            } else {
                Some(b)
            },
        }
    }
}

/// How to take a box away from an outline, if they overlap.
pub open spec fn box_contact(
    pos: Vec2,
    size: (F32, F32),
    outline: OutlineView,
    outline_pos: Vec2,
    outline_rot: Rotation,
) -> Option<SatResult> {
    least_contact(box_corners(pos, size), outline.placed_hulls(outline_pos, outline_rot))
}

/// The least deep of the contacts of a polygon with the others; the first of
/// several.
pub fn find_least_contact(poly: &[Vec2], hulls: &Vec<Vec<Vec2>>) -> (r: Option<SatResult>)
    ensures
        r == least_contact(poly@, polygon::corners(hulls@)),
{
    let ghost all = polygon::corners(hulls@);
    let mut best: Option<SatResult> = None;
    for i in 0..hulls.len()
        invariant
            all == polygon::corners(hulls@),
            best == least_contact(poly@, all.take(i as int)),
    {
        assert(all.take(i + 1).drop_last() =~= all.take(i as int));
        assert(all.take(i + 1).last() == hulls@[i as int]@);
        if let Some(c) = sat_convex_vs_convex(poly, hulls[i].as_slice()) {
            best = match best {
                None => Some(c),
                Some(b) => if c.depth.lt(b.depth) {
                    Some(c)
                } else {
                    Some(b)
                },
            };
        }
    }
    assert(all.take(hulls@.len() as int) =~= all);
    best
}

/// How to take a box away from an outline, if they overlap.
pub fn sat_aabb_vs_outline(
    dyn_pos: Vec2,
    dyn_size: (F32, F32),
    terrain_pos: Vec2,
    outline: &CollisionOutline,
    terrain_rot: Rotation,
) -> (r: Option<SatResult>)
    ensures
        r == box_contact(dyn_pos, dyn_size, outline@, terrain_pos, terrain_rot),
{
    let dyn_verts = aabb_vertices(dyn_pos, dyn_size);
    let world_hulls = outline.world_hulls(terrain_pos, terrain_rot);
    find_least_contact(dyn_verts.as_slice(), &world_hulls)
}

/// What was pushed before, and one more push, if there is one.
pub open spec fn pushed(before: Option<Vec2>, c: Option<SatResult>) -> Option<Vec2> {
    match (before, c) {
        (b, None) => b,
        (None, Some(c)) => Some(c.spec_push()),
        (Some(b), Some(c)) => Some(b.spec_add(c.spec_push())),
    }
}

/// The sum of the pushes that take `poly` away from each of the others, added to
/// what was pushed before.
pub open spec fn row_push(before: Option<Vec2>, poly: Seq<Vec2>, hulls: Seq<Seq<Vec2>>) -> Option<
    Vec2,
>
    decreases hulls.len(),
{
    if hulls.len() == 0 {
        before
    } else {
        pushed(row_push(before, poly, hulls.drop_last()), contact(poly, hulls.last()))
    }
}

/// The sum of the pushes that take each of `polys` away from each of `hulls`.
pub open spec fn total_push(polys: Seq<Seq<Vec2>>, hulls: Seq<Seq<Vec2>>) -> Option<Vec2>
    decreases polys.len(),
{
    if polys.len() == 0 {
        None
    } else {
        row_push(total_push(polys.drop_last(), hulls), polys.last(), hulls)
    }
}

/// The push that takes the outline `a` away from `b`, if they overlap.
pub open spec fn outline_push(
    a: OutlineView,
    a_pos: Vec2,
    a_rot: Rotation,
    b: OutlineView,
    b_pos: Vec2,
    b_rot: Rotation,
) -> Option<Vec2> {
    total_push(a.placed_hulls(a_pos, a_rot), b.placed_hulls(b_pos, b_rot))
}

/// The sum of the pushes that take `poly` away from each of the others, added to
/// what was pushed before.
pub fn push_row(before: Option<Vec2>, poly: &[Vec2], hulls: &Vec<Vec<Vec2>>) -> (r: Option<Vec2>)
    ensures
        r == row_push(before, poly@, polygon::corners(hulls@)),
{
    let ghost all = polygon::corners(hulls@);
    let mut total = before;
    assert(all.take(0) =~= Seq::<Seq<Vec2>>::empty());
    for i in 0..hulls.len()
        invariant
            all == polygon::corners(hulls@),
            total == row_push(before, poly@, all.take(i as int)),
    {
        assert(all.take(i + 1).drop_last() =~= all.take(i as int));
        assert(all.take(i + 1).last() == hulls@[i as int]@);
        if let Some(c) = sat_convex_vs_convex(poly, hulls[i].as_slice()) {
            total = match total {
                None => Some(c.push()),
                Some(p) => Some(p.add(c.push())),
            };
        }
    }
    assert(all.take(hulls@.len() as int) =~= all);
    total
}

/// The push that takes the outline `a` away from `b`, if they overlap.
pub fn sat_outline_vs_outline(
    a: &CollisionOutline,
    a_pos: Vec2,
    a_rot: Rotation,
    b: &CollisionOutline,
    b_pos: Vec2,
    b_rot: Rotation,
) -> (r: Option<Vec2>)
    ensures
        r == outline_push(a@, a_pos, a_rot, b@, b_pos, b_rot),
{
    let a_hulls = a.world_hulls(a_pos, a_rot);
    let b_hulls = b.world_hulls(b_pos, b_rot);
    let ghost polys = polygon::corners(a_hulls@);
    let ghost hulls = polygon::corners(b_hulls@);
    let mut total: Option<Vec2> = None;
    assert(polys.take(0) =~= Seq::<Seq<Vec2>>::empty());
    for i in 0..a_hulls.len()
        invariant
            polys == polygon::corners(a_hulls@),
            hulls == polygon::corners(b_hulls@),
            total == total_push(polys.take(i as int), hulls),
    {
        assert(polys.take(i + 1).drop_last() =~= polys.take(i as int));
        assert(polys.take(i + 1).last() == a_hulls@[i as int]@);
        total = push_row(total, a_hulls[i].as_slice(), &b_hulls);
    }
    assert(polys.take(a_hulls@.len() as int) =~= polys);
    total
}

// ---- several polygons at once ----

/// No polygon of one list overlaps one of the other.
pub open spec fn apart(polys: Seq<Seq<Vec2>>, hulls: Seq<Seq<Vec2>>) -> bool {
    forall|i: int, j: int|
        0 <= i < polys.len() && 0 <= j < hulls.len() ==> contact(
            #[trigger] polys[i],
            #[trigger] hulls[j],
        ) is None
}

/// There is no push if and only if nothing was pushed before and no polygon
/// overlaps `poly`.
pub proof fn lemma_row_apart(before: Option<Vec2>, poly: Seq<Vec2>, hulls: Seq<Seq<Vec2>>)
    ensures
        row_push(before, poly, hulls) is None <==> before is None && forall|j: int|
            0 <= j < hulls.len() ==> contact(poly, #[trigger] hulls[j]) is None,
    decreases hulls.len(),
{
    if hulls.len() > 0 {
        let rest = hulls.drop_last();
        lemma_row_apart(before, poly, rest);
        assert(hulls.last() == hulls[hulls.len() - 1]);
        if row_push(before, poly, hulls) is None {
            assert forall|j: int| 0 <= j < hulls.len() implies contact(
                poly,
                #[trigger] hulls[j],
            ) is None by {
                if j < rest.len() {
                    assert(rest[j] == hulls[j]);
                }
            }
        }
        if before is None && forall|j: int|
            0 <= j < hulls.len() ==> contact(poly, #[trigger] hulls[j]) is None {
            assert forall|j: int| 0 <= j < rest.len() implies contact(
                poly,
                #[trigger] rest[j],
            ) is None by {
                assert(rest[j] == hulls[j]);
            }
        }
    }
}

/// There is no push if and only if no two polygons overlap.
pub proof fn law_no_push_without_overlap(polys: Seq<Seq<Vec2>>, hulls: Seq<Seq<Vec2>>)
    ensures
        total_push(polys, hulls) is None <==> apart(polys, hulls),
    decreases polys.len(),
{
    if polys.len() > 0 {
        let rest = polys.drop_last();
        law_no_push_without_overlap(rest, hulls);
        lemma_row_apart(total_push(rest, hulls), polys.last(), hulls);
        assert(polys.last() == polys[polys.len() - 1]);
        if total_push(polys, hulls) is None {
            assert forall|i: int, j: int|
                0 <= i < polys.len() && 0 <= j < hulls.len() implies contact(
                #[trigger] polys[i],
                #[trigger] hulls[j],
            ) is None by {
                if i < rest.len() {
                    assert(rest[i] == polys[i]);
                }
            }
        }
        if apart(polys, hulls) {
            assert forall|i: int, j: int|
                0 <= i < rest.len() && 0 <= j < hulls.len() implies contact(
                #[trigger] rest[i],
                #[trigger] hulls[j],
            ) is None by {
                assert(rest[i] == polys[i]);
            }
        }
    }
}

// ---- circles ----

/// The cosine and the sine of an angle.
#[derive(Clone, Copy, Debug)]
pub struct Direction {
    pub cos: F32,
    pub sin: F32,
}

/// The angle of a corner of a polygon that stands for a circle.
pub open spec fn corner_angle(i: int, segments: int) -> F32 {
    F32::spec_from_int(i).spec_div(F32::spec_from_int(segments)).spec_mul(F32 { bits: TAU })
}

/// How many corners a polygon gets that stands for a circle.
pub open spec fn segment_count(segments: usize) -> usize {
    if segments < FEWEST_SEGMENTS {
        FEWEST_SEGMENTS
    } else {
        segments
    }
}

/// The angles of the corners of a polygon that stands for a circle.
pub fn circle_angles(segments: usize) -> (r: Vec<F32>)
    ensures
        r@ == Seq::new(
            segment_count(segments) as nat,
            |i: int| corner_angle(i, segment_count(segments) as int),
        ),
{
    let count: usize = if segments < FEWEST_SEGMENTS {
        FEWEST_SEGMENTS
    } else {
        segments
    };
    let tau = F32 { bits: TAU };
    let ghost all = Seq::new(count as nat, |i: int| corner_angle(i, count as int));
    let mut r: Vec<F32> = Vec::new();
    for i in 0..count
        invariant
            tau == (F32 { bits: TAU }),
            all == Seq::new(count as nat, |i: int| corner_angle(i, count as int)),
            r@ == all.take(i as int),
    {
        r.push(F32::from_u64(i as u64).div(F32::from_u64(count as u64)).mul(tau));
        assert(r@ =~= all.take(i + 1));
    }
    assert(all.take(count as int) =~= all);
    r
}

/// The polygon with a corner in each of the directions.
pub open spec fn circle(center: Vec2, radius: F32, directions: Seq<Direction>) -> Seq<Vec2> {
    Seq::new(
        directions.len(),
        |i: int|
            Vec2 {
                x: center.x.spec_add(directions[i].cos.spec_mul(radius)),
                y: center.y.spec_add(directions[i].sin.spec_mul(radius)),
            },
    )
}

/// The polygon that stands for a circle, with a corner in each of the
/// directions.
pub fn circle_polygon(center: Vec2, radius: F32, directions: &[Direction]) -> (r: Vec<Vec2>)
    ensures
        r@ == circle(center, radius, directions@),
{
    let ghost all = circle(center, radius, directions@);
    let mut r: Vec<Vec2> = Vec::with_capacity(directions.len());
    for i in 0..directions.len()
        invariant
            all == circle(center, radius, directions@),
            r@ == all.take(i as int),
    {
        let d = directions[i];
        r.push(Vec2 { x: center.x.add(d.cos.mul(radius)), y: center.y.add(d.sin.mul(radius)) });
        assert(r@ =~= all.take(i + 1));
    }
    assert(all.take(directions@.len() as int) =~= all);
    r
}

/// A circle overlaps an outline: it has a positive radius, and its polygon
/// overlaps one of those of the outline.
pub open spec fn circle_overlaps(
    center: Vec2,
    radius: F32,
    directions: Seq<Direction>,
    outline: OutlineView,
    outline_pos: Vec2,
    outline_rot: Rotation,
) -> bool {
    let hulls = outline.placed_hulls(outline_pos, outline_rot);
    !radius.spec_le(F32 { bits: 0 }) && exists|i: int|
        0 <= i < hulls.len() && contact(
            circle(center, radius, directions),
            #[trigger] hulls[i],
        ) is Some
}

/// Whether a circle, as a polygon with a corner in each of the directions,
/// overlaps an outline.
pub fn circle_overlaps_outline(
    circle_center: Vec2,
    circle_radius: F32,
    directions: &[Direction],
    outline: &CollisionOutline,
    outline_pos: Vec2,
    outline_rot: Rotation,
) -> (r: bool)
    ensures
        r == circle_overlaps(
            circle_center,
            circle_radius,
            directions@,
            outline@,
            outline_pos,
            outline_rot,
        ),
{
    if circle_radius.le(F32::zero()) {
        return false;
    }
    let circle = circle_polygon(circle_center, circle_radius, directions);
    let world_hulls = outline.world_hulls(outline_pos, outline_rot);
    let ghost hulls = polygon::corners(world_hulls@);
    for i in 0..world_hulls.len()
        invariant
            hulls == polygon::corners(world_hulls@),
            hulls == outline@.placed_hulls(outline_pos, outline_rot),
            circle@ == self::circle(circle_center, circle_radius, directions@),
            !circle_radius.spec_le(F32 { bits: 0 }),
            forall|j: int| 0 <= j < i ==> contact(circle@, #[trigger] hulls[j]) is None,
    {
        assert(hulls[i as int] == world_hulls@[i as int]@);
        if sat_convex_vs_convex(circle.as_slice(), world_hulls[i].as_slice()).is_some() {
            return true;
        }
    }
    false
}

} // verus!
