//! Which way polygons are pushed.

use crate::float;
use crate::float::F32;
use crate::float_bounds;
use crate::float_laws;
use crate::polygon::LARGEST;
use crate::sat;
use crate::simplify;
use crate::vec2::Vec2;
use crate::vec2::MINUS_ONE;
use crate::vec2::NO_DIRECTION;
use vstd::arithmetic::power2::*;
use vstd::prelude::*;

verus! {

/// `2^35`: no coordinate of an ordinary polygon is larger.
pub const FARTHEST: u32 = 0x5100_0000;

/// A number of a magnitude of at most [`FARTHEST`].
pub open spec fn ordinary(x: F32) -> bool {
    x.spec_abs().spec_le(F32 { bits: FARTHEST })
}

/// A polygon with ordinary coordinates.
pub open spec fn ordinary_polygon(poly: Seq<Vec2>) -> bool {
    poly.len() > 0 && forall|i: int|
        0 <= i < poly.len() ==> ordinary((#[trigger] poly[i]).x) && ordinary(poly[i].y)
}

/// Both coordinates are within a bound.
spec fn both_within(v: Vec2, k: nat) -> bool {
    float_bounds::within(v.x, k) && float_bounds::within(v.y, k)
}

proof fn lemma_ordinary(x: F32)
    requires
        ordinary(x),
    ensures
        float_bounds::within(x, 184),
{
    reveal(F32::spec_le);
    float_laws::lemma_parts(x);
    float_laws::lemma_assemble(false, x.mag());
    float_bounds::lemma_power_magnitude(F32 { bits: FARTHEST }, 184);
}

proof fn lemma_zero_within(k: nat)
    ensures
        both_within(Vec2::spec_zero(), k),
{
    lemma_pow2_pos(k);
    float_laws::law_zero_is_zero(F32 { bits: 0 });
}

proof fn lemma_sum_within(verts: Seq<Vec2>)
    requires
        forall|i: int| 0 <= i < verts.len() ==> ordinary((#[trigger] verts[i]).x) && ordinary(
            verts[i].y,
        ),
    ensures
        both_within(sat::sum(verts), 209),
    decreases verts.len(),
{
    if verts.len() == 0 {
        lemma_zero_within(209);
    } else {
        let rest = verts.drop_last();
        assert forall|i: int| 0 <= i < rest.len() implies ordinary((#[trigger] rest[i]).x)
            && ordinary(rest[i].y) by {
            assert(rest[i] == verts[i]);
        }
        lemma_sum_within(rest);
        let last = verts[verts.len() - 1];
        lemma_ordinary(last.x);
        lemma_ordinary(last.y);
        float_bounds::law_small_addend_is_absorbed(sat::sum(rest).x, last.x, 184);
        float_bounds::law_small_addend_is_absorbed(sat::sum(rest).y, last.y, 184);
    }
}

proof fn lemma_mean_within(verts: Seq<Vec2>)
    requires
        ordinary_polygon(verts),
    ensures
        both_within(sat::mean(verts), 209),
{
    let one = F32 { bits: simplify::ONE };
    let n = F32::spec_from_int(verts.len() as int);
    let total = sat::sum(verts);
    lemma_sum_within(verts);
    float_bounds::lemma_power_magnitude(one, 149);
    float_bounds::law_integer_is_at_least_one(verts.len() as int);
    float_bounds::law_quotient_within(one, n, 149, 149, 149);
    float_bounds::law_product_within(total.x, one.spec_div(n), 209, 149, 209);
    float_bounds::law_product_within(total.y, one.spec_div(n), 209, 149, 209);
}

/// Along an axis that is not made of numbers every polygon has the range of none.
proof fn lemma_projection_of_no_axis(poly: Seq<Vec2>, axis: Vec2, k: int)
    requires
        axis.x.nan() || axis.y.nan(),
    ensures
        sat::projection(poly, axis, k) == (F32 { bits: LARGEST }, F32 { bits: sat::SMALLEST }),
    decreases k,
{
    reveal(F32::spec_lt);
    if k > 0 {
        lemma_projection_of_no_axis(poly, axis, k - 1);
        let v = poly[k - 1];
        let d = v.spec_dot(axis);
        if !d.nan() {
            float_laws::law_sum_of_numbers(v.x.spec_mul(axis.x), v.y.spec_mul(axis.y));
            float_laws::law_product_of_numbers(v.x, axis.x);
            float_laws::law_product_of_numbers(v.y, axis.y);
        }
    }
}

/// An axis that does not separate polygons is made of numbers.
proof fn lemma_axis_is_numeric(a: Seq<Vec2>, b: Seq<Vec2>, axis: Vec2)
    requires
        !sat::separates(a, b, axis),
    ensures
        !axis.x.nan(),
        !axis.y.nan(),
{
    if axis.x.nan() || axis.y.nan() {
        lemma_projection_of_no_axis(a, axis, a.len() as int);
        lemma_projection_of_no_axis(b, axis, b.len() as int);
        let least = F32 { bits: sat::SMALLEST };
        let most = F32 { bits: LARGEST };
        reveal(F32::spec_le);
        assert(least.negative() && !most.negative());
        float_laws::law_not_negative(most);
    }
}

/// The normal of an edge is not longer than the edge allows.
proof fn lemma_normal_within(poly: Seq<Vec2>, i: int)
    requires
        ordinary_polygon(poly),
        0 <= i < poly.len(),
        !sat::edge_normal(poly, i).x.nan(),
        !sat::edge_normal(poly, i).y.nan(),
    ensures
        both_within(sat::edge_normal(poly, i), 212),
{
    let n = poly.len() as int;
    vstd::arithmetic::div_mod::lemma_mod_bound(i + 1, n);
    let p = poly[(i + 1) % n];
    let q = poly[i];
    lemma_ordinary(p.x);
    lemma_ordinary(p.y);
    lemma_ordinary(q.x);
    lemma_ordinary(q.y);
    lemma_difference_within(p, q, 184);
    let way = p.spec_sub(q);
    let side = way.spec_perp();
    float_bounds::lemma_within_negated(way.y, 185);
    let len = side.spec_length();
    let least = F32 { bits: NO_DIRECTION };
    if len.spec_lt(least) {
        lemma_zero_within(212);
        float_bounds::lemma_power_magnitude(F32 { bits: simplify::ONE }, 149);
        let minus = F32 { bits: MINUS_ONE };
        assert(minus.mag() == (F32 { bits: simplify::ONE }).mag());
        float_bounds::lemma_within_widens(minus, 149, 212);
    } else {
        lemma_long_enough(side, len);
        float_bounds::law_quotient_within(side.x, len, 185, 122, 212);
        float_bounds::law_quotient_within(side.y, len, 185, 122, 212);
    }
}

/// A length that gives a direction is not tiny.
proof fn lemma_long_enough(v: Vec2, len: F32)
    requires
        !len.spec_lt(F32 { bits: NO_DIRECTION }),
        !v.x.spec_div(len).nan(),
    ensures
        !len.nan(),
        float::magnitude(len.mag()) >= pow2(122),
{
    reveal(F32::spec_lt);
    reveal(F32::spec_div);
    let least = F32 { bits: NO_DIRECTION };
    let edge = F32 { bits: 0x3200_0000 };
    float_bounds::lemma_power_magnitude(edge, 122);
    assert(!least.nan() && !least.negative());
    float::lemma_magnitude_monotone(edge.mag(), least.mag());
}

proof fn lemma_difference_within(p: Vec2, q: Vec2, k: nat)
    requires
        both_within(p, k),
        both_within(q, k),
        k < 275,
    ensures
        both_within(p.spec_sub(q), k + 1),
{
    float_bounds::lemma_within_negated(q.x, k);
    float_bounds::lemma_within_negated(q.y, k);
    float_bounds::law_sum_within(p.x, q.x.spec_neg(), k);
    float_bounds::law_sum_within(p.y, q.y.spec_neg(), k);
}

/// The shallowest axis is one of the axes, or none.
proof fn lemma_shallowest_normal(a: Seq<Vec2>, b: Seq<Vec2>, axes: Seq<Vec2>)
    ensures
        sat::shallowest(a, b, axes).normal == Vec2::spec_zero() || axes.contains(
            sat::shallowest(a, b, axes).normal,
        ),
    decreases axes.len(),
{
    if axes.len() > 0 {
        let rest = axes.drop_last();
        lemma_shallowest_normal(a, b, rest);
        let n = sat::shallowest(a, b, axes).normal;
        assert(axes[axes.len() - 1] == axes.last());
        if rest.contains(n) {
            let i = choose|i: int| 0 <= i < rest.len() && rest[i] == n;
            assert(axes[i] == n);
        }
    }
}

/// The shallowest axis is within a bound.
proof fn lemma_shallowest_within(a: Seq<Vec2>, b: Seq<Vec2>)
    requires
        ordinary_polygon(a),
        ordinary_polygon(b),
        !sat::separable(a, b),
    ensures
        both_within(sat::shallowest(a, b, sat::axes(a, b)).normal, 212),
{
    let axes = sat::axes(a, b);
    let n = sat::shallowest(a, b, axes).normal;
    lemma_shallowest_normal(a, b, axes);
    if n == Vec2::spec_zero() {
        lemma_zero_within(212);
    } else {
        let i = choose|i: int| 0 <= i < axes.len() && axes[i] == n;
        assert(!sat::separates(a, b, axes[i]));
        lemma_axis_is_numeric(a, b, n);
        if i < a.len() {
            lemma_normal_within(a, i);
        } else {
            lemma_normal_within(b, i - a.len());
        }
    }
}

/// Turning a vector around does not change its bound.
proof fn lemma_turned_within(n: Vec2)
    requires
        both_within(n, 212),
    ensures
        both_within(n.spec_scale(F32 { bits: MINUS_ONE }), 212),
{
    let minus = F32 { bits: MINUS_ONE };
    let one = F32 { bits: simplify::ONE };
    float_bounds::lemma_power_magnitude(one, 149);
    assert(minus.mag() == one.mag());
    float_bounds::law_product_within(n.x, minus, 212, 149, 212);
    float_bounds::law_product_within(n.y, minus, 212, 149, 212);
}

proof fn lemma_dot_is_number(way: Vec2, normal: Vec2)
    requires
        both_within(way, 210),
        both_within(normal, 212),
    ensures
        !way.spec_dot(normal).nan(),
{
    float_bounds::law_product_within(way.x, normal.x, 210, 212, 273);
    float_bounds::law_product_within(way.y, normal.y, 210, 212, 273);
    float_bounds::law_sum_within(way.x.spec_mul(normal.x), way.y.spec_mul(normal.y), 273);
}

/// The normal of a contact of polygons with ordinary coordinates points from the
/// second polygon to the first, or across.
pub proof fn law_contact_normal_leads_away(a: Seq<Vec2>, b: Seq<Vec2>)
    requires
        ordinary_polygon(a),
        ordinary_polygon(b),
        sat::contact(a, b) is Some,
    ensures
        (F32 { bits: 0 }).spec_le(
            sat::mean(a).spec_sub(sat::mean(b)).spec_dot(sat::contact(a, b)->0.normal),
        ),
{
    let normal = sat::contact(a, b)->0.normal;
    let way = sat::mean(a).spec_sub(sat::mean(b));
    assert(both_within(normal, 212)) by {
        lemma_shallowest_within(a, b);
        lemma_turned_within(sat::shallowest(a, b, sat::axes(a, b)).normal);
    }
    assert(both_within(way, 210)) by {
        lemma_mean_within(a);
        lemma_mean_within(b);
        lemma_difference_within(sat::mean(a), sat::mean(b), 209);
    }
    lemma_dot_is_number(way, normal);
    sat::law_contact_normal_points_away(a, b);
    float_laws::law_order_is_total(F32 { bits: 0 }, way.spec_dot(normal));
}

} // verus!
