//! Polygons with floating point corners: hull, area, and decomposition into
//! convex pieces.

use crate::float::F32;
use crate::simplify::HALF;
use crate::vec2::Vec2;
use crate::vec2::NO_DIRECTION;
use vstd::prelude::*;
use vstd::slice::slice_to_vec;

verus! {

/// 1e-4: points whose coordinates differ by less are taken for one.
pub const SAME_POINT: u32 = 0x38d1_b717;

/// -1e-8: a turn below is a turn to the right.
pub const RIGHT_TURN: u32 = 0xb22b_cc77;

/// The largest finite number.
pub const LARGEST: u32 = 0x7f7f_ffff;

// ---- hull ----

/// The order of points: by `x`, then by `y`. Coordinates that cannot be compared
/// count as equal.
pub open spec fn precedes(a: Vec2, b: Vec2) -> bool {
    a.x.spec_lt(b.x) || (!b.x.spec_lt(a.x) && a.y.spec_lt(b.y))
}

/// Puts `p` into an ordered sequence, behind all points that it does not precede.
pub open spec fn inserted(s: Seq<Vec2>, p: Vec2) -> Seq<Vec2>
    decreases s.len(),
{
    if s.len() == 0 || !precedes(p, s.last()) {
        s.push(p)
    } else {
        inserted(s.drop_last(), p).push(s.last())
    }
}

/// The points in order; equal ones in the order in which they are given.
pub open spec fn sorted(points: Seq<Vec2>) -> Seq<Vec2>
    decreases points.len(),
{
    if points.len() == 0 {
        Seq::empty()
    } else {
        inserted(sorted(points.drop_last()), points.last())
    }
}

/// Both coordinates differ by less than [`SAME_POINT`].
pub open spec fn same_point(a: Vec2, b: Vec2) -> bool {
    let limit = F32 { bits: SAME_POINT };
    a.x.spec_sub(b.x).spec_abs().spec_lt(limit) && a.y.spec_sub(b.y).spec_abs().spec_lt(limit)
}

/// The points without those that are the same as the last one kept before them.
pub open spec fn distinct(points: Seq<Vec2>) -> Seq<Vec2>
    decreases points.len(),
{
    if points.len() == 0 {
        Seq::empty()
    } else {
        let kept = distinct(points.drop_last());
        if kept.len() > 0 && same_point(points.last(), kept.last()) {
            kept
        } else {
            kept.push(points.last())
        }
    }
}

/// The turn at `a` on the way from `o` to `b`: positive to the left.
pub open spec fn turn(o: Vec2, a: Vec2, b: Vec2) -> F32 {
    a.x.spec_sub(o.x).spec_mul(b.y.spec_sub(o.y)).spec_sub(
        a.y.spec_sub(o.y).spec_mul(b.x.spec_sub(o.x)),
    )
}

/// Appends `p` to a chain after dropping the points at which the chain would no
/// longer turn left.
pub open spec fn extend_chain(chain: Seq<Vec2>, p: Vec2) -> Seq<Vec2>
    decreases chain.len(),
{
    if chain.len() >= 2 && turn(chain[chain.len() - 2], chain[chain.len() - 1], p).spec_le(
        F32 { bits: 0 },
    ) {
        extend_chain(chain.drop_last(), p)
    } else {
        chain.push(p)
    }
}

/// The chain through the points of `s`, taken one after the other.
pub open spec fn chain_of(s: Seq<Vec2>) -> Seq<Vec2>
    decreases s.len(),
{
    if s.len() == 0 {
        Seq::empty()
    } else {
        extend_chain(chain_of(s.drop_last()), s.last())
    }
}

/// The hull: the lower chain of the distinct points in order, then the upper
/// chain back. Fewer than three points are their own hull.
pub open spec fn hull(points: Seq<Vec2>) -> Seq<Vec2> {
    let s = distinct(sorted(points));
    if points.len() < 3 {
        points
    } else if s.len() < 3 {
        s
    } else {
        chain_of(s).drop_last() + chain_of(s.reverse()).drop_last()
    }
}

fn is_before(a: Vec2, b: Vec2) -> (r: bool)
    ensures
        r == precedes(a, b),
{
    a.x.lt(b.x) || (!b.x.lt(a.x) && a.y.lt(b.y))
}

fn is_same(a: Vec2, b: Vec2) -> (r: bool)
    ensures
        r == same_point(a, b),
{
    let limit = F32 { bits: SAME_POINT };
    a.x.sub(b.x).abs().lt(limit) && a.y.sub(b.y).abs().lt(limit)
}

fn turn_at(o: Vec2, a: Vec2, b: Vec2) -> (r: F32)
    ensures
        r == turn(o, a, b),
{
    a.x.sub(o.x).mul(b.y.sub(o.y)).sub(a.y.sub(o.y).mul(b.x.sub(o.x)))
}

fn sort_points(points: &[Vec2]) -> (r: Vec<Vec2>)
    ensures
        r@ == sorted(points@),
{
    let mut r: Vec<Vec2> = Vec::new();
    for i in 0..points.len()
        invariant
            r@ == sorted(points@.take(i as int)),
    {
        let p = points[i];
        let ghost s = r@;
        let mut j: usize = r.len();
        assert(s.take(j as int) =~= s);
        assert(inserted(s, p) =~= inserted(s.take(j as int), p) + s.skip(j as int));
        while j > 0 && is_before(p, r[j - 1])
            invariant
                j <= r@.len(),
                s == r@,
                inserted(s, p) == inserted(s.take(j as int), p) + s.skip(j as int),
            decreases j,
        {
            proof {
                let t = s.take(j as int);
                assert(t.drop_last() =~= s.take(j - 1));
                assert(t.last() == s[j - 1]);
                assert(inserted(t, p) + s.skip(j as int) =~= inserted(s.take(j - 1), p) + s.skip(
                    j - 1,
                ));
            }
            j = j - 1;
        }
        r.insert(j, p);
        proof {
            assert(inserted(s.take(j as int), p) =~= s.take(j as int).push(p));
            assert(r@ =~= inserted(s, p));
            assert(points@.take(i + 1).drop_last() =~= points@.take(i as int));
        }
    }
    assert(points@.take(points@.len() as int) =~= points@);
    r
}

fn distinct_points(points: &[Vec2]) -> (r: Vec<Vec2>)
    ensures
        r@ == distinct(points@),
{
    let mut r: Vec<Vec2> = Vec::new();
    for i in 0..points.len()
        invariant
            r@ == distinct(points@.take(i as int)),
    {
        let p = points[i];
        assert(points@.take(i + 1).drop_last() =~= points@.take(i as int));
        let n = r.len();
        if n == 0 || !is_same(p, r[n - 1]) {
            r.push(p);
        }
    }
    assert(points@.take(points@.len() as int) =~= points@);
    r
}

fn push_point(chain: &mut Vec<Vec2>, p: Vec2)
    ensures
        final(chain)@ == extend_chain(old(chain)@, p),
        final(chain)@.len() >= 1,
{
    let ghost start = chain@;
    while chain.len() >= 2 && turn_at(chain[chain.len() - 2], chain[chain.len() - 1], p).le(
        F32::zero(),
    )
        invariant
            extend_chain(chain@, p) == extend_chain(start, p),
        decreases chain@.len(),
    {
        let ghost longer = chain@;
        let _ = chain.pop();
        assert(chain@ =~= longer.drop_last());
    }
    chain.push(p);
}

/// The convex hull, counter-clockwise from its first point.
pub fn convex_hull_float(points: &[Vec2]) -> (r: Vec<Vec2>)
    ensures
        r@ == hull(points@),
{
    if points.len() < 3 {
        return slice_to_vec(points);
    }
    let ordered = sort_points(points);
    let pts = distinct_points(ordered.as_slice());
    let n = pts.len();
    if n < 3 {
        return pts;
    }
    let mut lower: Vec<Vec2> = Vec::new();
    let mut upper: Vec<Vec2> = Vec::new();
    for i in 0..n
        invariant
            n == pts@.len(),
            lower@ == chain_of(pts@.take(i as int)),
            upper@ == chain_of(pts@.reverse().take(i as int)),
            i > 0 ==> lower@.len() > 0 && upper@.len() > 0,
    {
        let p = pts[i];
        let q = pts[n - 1 - i];
        push_point(&mut lower, p);
        push_point(&mut upper, q);
        assert(pts@.reverse()[i as int] == q);
        assert(pts@.take(i + 1).drop_last() =~= pts@.take(i as int));
        assert(pts@.reverse().take(i + 1).drop_last() =~= pts@.reverse().take(i as int));
    }
    assert(pts@.take(n as int) =~= pts@);
    assert(pts@.reverse().take(n as int) =~= pts@.reverse());
    let ghost below = lower@;
    let ghost above = upper@;
    let _ = lower.pop();
    let _ = upper.pop();
    lower.append(&mut upper);
    assert(lower@ =~= below.drop_last() + above.drop_last());
    lower
}

// ---- area ----

/// The sum of the first `k` terms of twice the signed area.
pub open spec fn twice_area(points: Seq<Vec2>, k: int) -> F32
    decreases k,
{
    if k <= 0 {
        F32 { bits: 0 }
    } else {
        let a = points[k - 1];
        let b = points[k % points.len() as int];
        twice_area(points, k - 1).spec_add(a.x.spec_mul(b.y).spec_sub(a.y.spec_mul(b.x)))
    }
}

/// The area of a polygon.
pub open spec fn area(points: Seq<Vec2>) -> F32 {
    if points.len() < 3 {
        F32 { bits: 0 }
    } else {
        twice_area(points, points.len() as int).spec_abs().spec_mul(F32 { bits: HALF })
    }
}

/// The area of a polygon.
pub fn polygon_area_abs(points: &[Vec2]) -> (r: F32)
    ensures
        r == area(points@),
{
    let n = points.len();
    if n < 3 {
        return F32::zero();
    }
    let mut sum = F32::zero();
    for i in 0..n
        invariant
            n == points@.len(),
            n >= 3,
            sum == twice_area(points@, i as int),
    {
        let a = points[i];
        let b = points[(i + 1) % n];
        sum = sum.add(a.x.mul(b.y).sub(a.y.mul(b.x)));
    }
    let half = F32 { bits: HALF };
    sum.abs().mul(half)
}

// ---- corners ----

/// The cross product of two vectors.
pub open spec fn cross(a: Vec2, b: Vec2) -> F32 {
    a.x.spec_mul(b.y).spec_sub(a.y.spec_mul(b.x))
}

/// The cross product of two vectors.
pub fn cross2d(a: Vec2, b: Vec2) -> (r: F32)
    ensures
        r == cross(a, b),
{
    a.x.mul(b.y).sub(a.y.mul(b.x))
}

/// How a polygon turns at the corner after the corner `i`.
pub open spec fn corner_turn(polygon: Seq<Vec2>, i: int) -> F32 {
    let n = polygon.len() as int;
    cross(
        polygon[(i + 1) % n].spec_sub(polygon[i]),
        polygon[(i + 2) % n].spec_sub(polygon[(i + 1) % n]),
    )
}

pub open spec fn turns_left(polygon: Seq<Vec2>, i: int) -> bool {
    (F32 { bits: NO_DIRECTION }).spec_lt(corner_turn(polygon, i))
}

pub open spec fn turns_right(polygon: Seq<Vec2>, i: int) -> bool {
    corner_turn(polygon, i).spec_lt(F32 { bits: RIGHT_TURN })
}

/// The polygon does not turn left at one corner and right at another.
pub open spec fn convex(polygon: Seq<Vec2>) -> bool {
    polygon.len() < 3 || !((exists|i: int|
        0 <= i < polygon.len() && #[trigger] turns_left(polygon, i)) && (exists|i: int|
        0 <= i < polygon.len() && #[trigger] turns_right(polygon, i)))
}

proof fn lemma_not_both(polygon: Seq<Vec2>, i: int)
    ensures
        !(turns_left(polygon, i) && turns_right(polygon, i)),
{
    reveal(F32::spec_lt);
    let lo = F32 { bits: RIGHT_TURN };
    let hi = F32 { bits: NO_DIRECTION };
    vstd::arithmetic::power2::lemma_pow2_pos(crate::float::exponent(lo.mag()));
    vstd::arithmetic::power2::lemma_pow2_pos(crate::float::exponent(hi.mag()));
    assert(lo.negative());
    assert(!hi.negative());
    assert(lo.value() <= 0) by (nonlinear_arith)
        requires
            lo.value() == -(crate::float::magnitude(lo.mag()) as int),
    ;
}

/// Whether a polygon does not turn left at one corner and right at another.
pub fn is_convex(polygon: &[Vec2]) -> (r: bool)
    ensures
        r == convex(polygon@),
{
    let n = polygon.len();
    if n < 3 {
        return true;
    }
    let mut left = false;
    let mut right = false;
    let left_limit = F32 { bits: NO_DIRECTION };
    let right_limit = F32 { bits: RIGHT_TURN };
    for i in 0..n
        invariant
            n == polygon@.len(),
            n >= 3,
            left_limit == (F32 { bits: NO_DIRECTION }),
            right_limit == (F32 { bits: RIGHT_TURN }),
            left <==> exists|k: int| 0 <= k < i && #[trigger] turns_left(polygon@, k),
            right <==> exists|k: int| 0 <= k < i && #[trigger] turns_right(polygon@, k),
            !(left && right),
    {
        let a = polygon[i];
        let b = polygon[if i + 1 < n {
            i + 1
        } else {
            0
        }];
        let c = polygon[if n - i > 2 {
            i + 2
        } else {
            i - (n - 2)
        }];
        proof {
            lemma_not_both(polygon@, i as int);
            vstd::arithmetic::div_mod::lemma_mod_add_multiples_vanish(i + 1 - n, n as int);
            vstd::arithmetic::div_mod::lemma_mod_add_multiples_vanish(i + 2 - n, n as int);
            if i + 1 < n {
                vstd::arithmetic::div_mod::lemma_small_mod((i + 1) as nat, n as nat);
            } else {
                vstd::arithmetic::div_mod::lemma_small_mod(0, n as nat);
            }
            if n - i > 2 {
                vstd::arithmetic::div_mod::lemma_small_mod((i + 2) as nat, n as nat);
            } else {
                vstd::arithmetic::div_mod::lemma_small_mod((i + 2 - n) as nat, n as nat);
            }
        }
        let t = cross2d(b.sub(a), c.sub(b));
        assert(t == corner_turn(polygon@, i as int));
        if left_limit.lt(t) {
            assert(turns_left(polygon@, i as int));
            if right {
                return false;
            }
            left = true;
        } else if t.lt(right_limit) {
            assert(turns_right(polygon@, i as int));
            if left {
                return false;
            }
            right = true;
        }
    }
    true
}

/// The polygon turns right at the corner `i`.
pub open spec fn reflex(polygon: Seq<Vec2>, i: int) -> bool {
    let n = polygon.len() as int;
    cross(
        polygon[i].spec_sub(polygon[(i + n - 1) % n]),
        polygon[(i + 1) % n].spec_sub(polygon[i]),
    ).spec_lt(F32 { bits: RIGHT_TURN })
}

/// The number of the corner before the corner `i`.
fn corner_before(n: usize, i: usize) -> (r: usize)
    requires
        i < n,
    ensures
        r < n,
        r == (i + n - 1) % (n as int),
{
    proof {
        vstd::arithmetic::div_mod::lemma_mod_add_multiples_vanish(i - 1, n as int);
        if i > 0 {
            vstd::arithmetic::div_mod::lemma_small_mod((i - 1) as nat, n as nat);
        } else {
            vstd::arithmetic::div_mod::lemma_small_mod((n - 1) as nat, n as nat);
        }
    }
    if i > 0 {
        i - 1
    } else {
        n - 1
    }
}

/// The number of the corner after the corner `i`.
pub(crate) fn corner_after(n: usize, i: usize) -> (r: usize)
    requires
        i < n,
    ensures
        r < n,
        r == (i + 1) % (n as int),
{
    proof {
        if i + 1 < n {
            vstd::arithmetic::div_mod::lemma_small_mod((i + 1) as nat, n as nat);
        } else {
            vstd::arithmetic::div_mod::lemma_mod_self_0(n as int);
        }
    }
    if i + 1 < n {
        i + 1
    } else {
        0
    }
}

/// Whether a polygon turns right at the corner `i`.
pub fn is_reflex(polygon: &[Vec2], i: usize) -> (r: bool)
    requires
        i < polygon@.len(),
    ensures
        r == reflex(polygon@, i as int),
{
    let n = polygon.len();
    let p = polygon[i];
    let before = polygon[corner_before(n, i)];
    let after = polygon[corner_after(n, i)];
    let limit = F32 { bits: RIGHT_TURN };
    cross2d(p.sub(before), after.sub(p)).lt(limit)
}

/// The ray from `p` to the right meets the edge from `b` to `a`.
pub open spec fn meets(p: Vec2, a: Vec2, b: Vec2) -> bool {
    p.y.spec_lt(a.y) != p.y.spec_lt(b.y) && p.x.spec_lt(
        b.x.spec_sub(a.x).spec_mul(p.y.spec_sub(a.y)).spec_div(b.y.spec_sub(a.y)).spec_add(a.x),
    )
}

/// Whether the ray from `p` to the right meets an odd number of the edges that
/// end at the first `k` corners.
pub open spec fn odd(p: Vec2, poly: Seq<Vec2>, k: int) -> bool
    decreases k,
{
    if k <= 0 {
        false
    } else {
        let before = if k >= 2 {
            poly[k - 2]
        } else {
            poly.last()
        };
        odd(p, poly, k - 1) != meets(p, poly[k - 1], before)
    }
}

/// Whether a point is inside of a polygon.
pub fn point_in_polygon(p: &Vec2, poly: &[Vec2]) -> (r: bool)
    requires
        poly@.len() > 0,
    ensures
        r == odd(*p, poly@, poly@.len() as int),
{
    let n = poly.len();
    let mut inside = false;
    let mut before = poly[n - 1];
    for i in 0..n
        invariant
            n == poly@.len(),
            n > 0,
            inside == odd(*p, poly@, i as int),
            before == if i > 0 {
                poly@[i - 1]
            } else {
                poly@.last()
            },
    {
        let a = poly[i];
        if p.y.lt(a.y) != p.y.lt(before.y) && p.x.lt(
            before.x.sub(a.x).mul(p.y.sub(a.y)).div(before.y.sub(a.y)).add(a.x),
        ) {
            inside = !inside;
        }
        before = a;
    }
    inside
}

/// The middle of the corners `i` and `j` is inside of the polygon.
pub open spec fn diagonal(polygon: Seq<Vec2>, i: int, j: int) -> bool {
    odd(
        polygon[i].spec_add(polygon[j]).spec_scale(F32 { bits: HALF }),
        polygon,
        polygon.len() as int,
    )
}

/// Whether the middle of two corners is inside of the polygon.
pub fn is_diagonal_valid(polygon: &[Vec2], i: usize, j: usize) -> (r: bool)
    requires
        i < polygon@.len(),
        j < polygon@.len(),
    ensures
        r == diagonal(polygon@, i as int, j as int),
{
    let half = F32 { bits: HALF };
    let middle = polygon[i].add(polygon[j]).scale(half);
    point_in_polygon(&middle, polygon)
}

// ---- decomposition ----

/// The two parts into which the line between the corners `i` and `j` cuts a
/// polygon. Both corners belong to both parts.
pub open spec fn split(polygon: Seq<Vec2>, i: int, j: int) -> (Seq<Vec2>, Seq<Vec2>) {
    let (start, end) = if i < j {
        (i, j)
    } else {
        (j, i)
    };
    (polygon.subrange(start, end + 1), polygon.skip(end) + polygon.take(start + 1))
}

/// Cuts a polygon along the line between two corners.
pub fn split_polygon(polygon: &[Vec2], i: usize, j: usize) -> (r: (Vec<Vec2>, Vec<Vec2>))
    requires
        i < polygon@.len(),
        j < polygon@.len(),
    ensures
        (r.0@, r.1@) == split(polygon@, i as int, j as int),
{
    let n = polygon.len();
    let (start, end) = if i < j {
        (i, j)
    } else {
        (j, i)
    };
    let a = slice_to_vec(vstd::slice::slice_subrange(polygon, start, end + 1));
    let mut b = slice_to_vec(vstd::slice::slice_subrange(polygon, end, n));
    let mut rest = slice_to_vec(vstd::slice::slice_subrange(polygon, 0, start + 1));
    b.append(&mut rest);
    assert(b@ =~= split(polygon@, i as int, j as int).1);
    (a, b)
}

/// A corner to which a cut from the corner `i` can lead.
pub open spec fn cuttable(polygon: Seq<Vec2>, i: int, j: int) -> bool {
    let n = polygon.len() as int;
    j != i && j != (i + n - 1) % n && j != (i + 1) % n && diagonal(polygon, i, j)
}

/// Of the first `k` corners to which a cut from the corner `i` can lead, the
/// nearest one and its squared distance.
pub open spec fn nearest_cut(polygon: Seq<Vec2>, i: int, k: int) -> (Option<int>, F32)
    decreases k,
{
    if k <= 0 {
        (None, F32 { bits: LARGEST })
    } else {
        let best = nearest_cut(polygon, i, k - 1);
        let d = polygon[i].spec_sub(polygon[k - 1]).spec_length_sq();
        if cuttable(polygon, i, k - 1) && d.spec_lt(best.1) {
            (Some(k - 1), d)
        } else {
            best
        }
    }
}

/// The cut from the first corner, from the corner `i` on, that the polygon turns
/// right at and from which a cut can be made.
pub open spec fn first_cut(polygon: Seq<Vec2>, i: int) -> Option<(int, int)>
    decreases polygon.len() - i,
{
    if i >= polygon.len() {
        None
    } else {
        match nearest_cut(polygon, i, polygon.len() as int).0 {
            Some(j) if reflex(polygon, i) => Some((i, j)),
            _ => first_cut(polygon, i + 1),
        }
    }
}

/// The pieces of a polygon: itself if it is convex or cannot be cut, else the
/// pieces of the two parts into which the first cut divides it.
pub open spec fn pieces(polygon: Seq<Vec2>) -> Seq<Seq<Vec2>>
    decreases polygon.len(),
{
    if polygon.len() < 3 {
        Seq::empty()
    } else if convex(polygon) {
        seq![polygon]
    } else {
        match first_cut(polygon, 0) {
            None => seq![polygon],
            Some((i, j)) => {
                proof {
                    lemma_first_cut(polygon, 0);
                    lemma_split_shrinks(polygon, i, j);
                }
                pieces(split(polygon, i, j).0) + pieces(split(polygon, i, j).1)
            },
        }
    }
}

proof fn lemma_nearest_cut(polygon: Seq<Vec2>, i: int, k: int)
    ensures
        nearest_cut(polygon, i, k).0 matches Some(j) ==> 0 <= j < k && cuttable(polygon, i, j),
    decreases k,
{
    if k > 0 {
        lemma_nearest_cut(polygon, i, k - 1);
    }
}

/// A first cut leads between corners.
pub proof fn lemma_first_cut(polygon: Seq<Vec2>, i: int)
    requires
        0 <= i,
    ensures
        first_cut(polygon, i) matches Some((a, b)) ==> i <= a < polygon.len() && 0 <= b
            < polygon.len() && cuttable(polygon, a, b) && reflex(polygon, a),
    decreases polygon.len() - i,
{
    if i < polygon.len() {
        lemma_nearest_cut(polygon, i, polygon.len() as int);
        lemma_first_cut(polygon, i + 1);
    }
}

/// A cut between corners that are not next to each other leaves parts with fewer
/// corners.
pub proof fn lemma_split_shrinks(polygon: Seq<Vec2>, i: int, j: int)
    requires
        0 <= i < polygon.len(),
        0 <= j < polygon.len(),
        cuttable(polygon, i, j),
    ensures
        3 <= split(polygon, i, j).0.len() < polygon.len(),
        3 <= split(polygon, i, j).1.len() < polygon.len(),
{
    let n = polygon.len() as int;
    vstd::arithmetic::div_mod::lemma_mod_add_multiples_vanish(i - 1, n);
    if i > 0 {
        vstd::arithmetic::div_mod::lemma_small_mod((i - 1) as nat, n as nat);
    } else {
        vstd::arithmetic::div_mod::lemma_small_mod((n - 1) as nat, n as nat);
    }
    if i + 1 < n {
        vstd::arithmetic::div_mod::lemma_small_mod((i + 1) as nat, n as nat);
    } else {
        vstd::arithmetic::div_mod::lemma_mod_self_0(n);
    }
}

/// The corners of the given polygons.
pub open spec fn corners(polygons: Seq<Vec<Vec2>>) -> Seq<Seq<Vec2>> {
    polygons.map_values(|p: Vec<Vec2>| p@)
}

/// The corner nearest to the corner `i` to which a cut can lead.
fn find_nearest_cut(polygon: &[Vec2], i: usize) -> (r: Option<usize>)
    requires
        i < polygon@.len(),
    ensures
        match r {
            Some(j) => nearest_cut(polygon@, i as int, polygon@.len() as int).0 == Some(j as int)
                && j < polygon@.len(),
            None => nearest_cut(polygon@, i as int, polygon@.len() as int).0 is None,
        },
{
    let n = polygon.len();
    let before = corner_before(n, i);
    let after = corner_after(n, i);
    let mut best: Option<usize> = None;
    let mut best_dist = F32 { bits: LARGEST };
    for j in 0..n
        invariant
            n == polygon@.len(),
            i < n,
            before == (i + n - 1) % (n as int),
            after == (i + 1) % (n as int),
            best_dist == nearest_cut(polygon@, i as int, j as int).1,
            match best {
                Some(b) => nearest_cut(polygon@, i as int, j as int).0 == Some(b as int) && b < n,
                None => nearest_cut(polygon@, i as int, j as int).0 is None,
            },
    {
        if j != i && j != before && j != after && is_diagonal_valid(polygon, i, j) {
            let d = polygon[i].sub(polygon[j]).length_sq();
            if d.lt(best_dist) {
                best_dist = d;
                best = Some(j);
            }
        }
    }
    best
}

/// Cuts a polygon into convex pieces, as far as cuts between its corners can be
/// found.
pub fn convex_decompose(polygon: &[Vec2]) -> (r: Vec<Vec<Vec2>>)
    ensures
        corners(r@) == pieces(polygon@),
    decreases polygon@.len(),
{
    let n = polygon.len();
    let mut r: Vec<Vec<Vec2>> = Vec::new();
    if n < 3 {
        assert(corners(r@) =~= pieces(polygon@));
        return r;
    }
    if is_convex(polygon) {
        r.push(slice_to_vec(polygon));
        assert(corners(r@) =~= pieces(polygon@));
        return r;
    }
    for i in 0..n
        invariant
            n == polygon@.len(),
            n >= 3,
            !convex(polygon@),
            first_cut(polygon@, 0) == first_cut(polygon@, i as int),
            r@.len() == 0,
    {
        if is_reflex(polygon, i) {
            match find_nearest_cut(polygon, i) {
                Some(j) => {
                    proof {
                        lemma_first_cut(polygon@, 0);
                        lemma_split_shrinks(polygon@, i as int, j as int);
                    }
                    let (a, b) = split_polygon(polygon, i, j);
                    let mut left = convex_decompose(a.as_slice());
                    let mut right = convex_decompose(b.as_slice());
                    let ghost first = left@;
                    let ghost second = right@;
                    left.append(&mut right);
                    assert(corners(left@) =~= corners(first) + corners(second));
                    return left;
                },
                None => {},
            }
        }
    }
    r.push(slice_to_vec(polygon));
    assert(corners(r@) =~= pieces(polygon@));
    r
}

/// A polygon has at least one piece, and no piece has fewer than three corners.
pub proof fn law_pieces_are_polygons(polygon: Seq<Vec2>, k: int)
    requires
        polygon.len() >= 3,
    ensures
        pieces(polygon).len() >= 1,
        0 <= k < pieces(polygon).len() ==> 3 <= pieces(polygon)[k].len() <= polygon.len(),
    decreases polygon.len(),
{
    if !convex(polygon) {
        if let Some((i, j)) = first_cut(polygon, 0) {
            lemma_first_cut(polygon, 0);
            lemma_split_shrinks(polygon, i, j);
            let (a, b) = split(polygon, i, j);
            law_pieces_are_polygons(a, k);
            law_pieces_are_polygons(b, k - pieces(a).len());
        }
    }
}

/// The corners of the parts of a polygon are corners of the polygon.
proof fn lemma_split_corners(polygon: Seq<Vec2>, i: int, j: int, p: Vec2)
    requires
        0 <= i < polygon.len(),
        0 <= j < polygon.len(),
        split(polygon, i, j).0.contains(p) || split(polygon, i, j).1.contains(p),
    ensures
        polygon.contains(p),
{
    let (start, end) = if i < j {
        (i, j)
    } else {
        (j, i)
    };
    let (a, b) = split(polygon, i, j);
    if a.contains(p) {
        let m = choose|m: int| 0 <= m < a.len() && a[m] == p;
        assert(polygon[start + m] == p);
    } else {
        let m = choose|m: int| 0 <= m < b.len() && b[m] == p;
        if m < polygon.len() - end {
            assert(polygon[end + m] == p);
        } else {
            assert(polygon[m - (polygon.len() - end)] == p);
        }
    }
}

/// The corners of the pieces are corners of the polygon.
pub proof fn law_pieces_have_corners_of_polygon(polygon: Seq<Vec2>, k: int, c: int)
    requires
        0 <= k < pieces(polygon).len(),
        0 <= c < pieces(polygon)[k].len(),
    ensures
        polygon.contains(pieces(polygon)[k][c]),
    decreases polygon.len(),
{
    let p = pieces(polygon)[k][c];
    if polygon.len() >= 3 && !convex(polygon) && first_cut(polygon, 0) is Some {
        let (i, j) = first_cut(polygon, 0)->0;
        lemma_first_cut(polygon, 0);
        lemma_split_shrinks(polygon, i, j);
        let a = split(polygon, i, j).0;
        let b = split(polygon, i, j).1;
        let first = pieces(a).len();
        assert(pieces(polygon) == pieces(a) + pieces(b));
        if k < first {
            assert(pieces(polygon)[k] == pieces(a)[k]);
            law_pieces_have_corners_of_polygon(a, k, c);
        } else {
            assert(pieces(polygon)[k] == pieces(b)[k - first]);
            law_pieces_have_corners_of_polygon(b, k - first, c);
        }
        lemma_split_corners(polygon, i, j, p);
    } else {
        assert(pieces(polygon)[k] == polygon);
        assert(polygon[c] == p);
    }
}

/// Every piece is convex, or is a polygon that no cut divides.
pub proof fn law_pieces_are_convex_or_uncut(polygon: Seq<Vec2>, k: int)
    requires
        0 <= k < pieces(polygon).len(),
    ensures
        convex(pieces(polygon)[k]) || first_cut(pieces(polygon)[k], 0) is None,
    decreases polygon.len(),
{
    if polygon.len() >= 3 && !convex(polygon) && first_cut(polygon, 0) is Some {
        let (i, j) = first_cut(polygon, 0)->0;
        lemma_first_cut(polygon, 0);
        lemma_split_shrinks(polygon, i, j);
        let (a, b) = split(polygon, i, j);
        if k < pieces(a).len() {
            law_pieces_are_convex_or_uncut(a, k);
        } else {
            law_pieces_are_convex_or_uncut(b, k - pieces(a).len());
        }
    }
}

} // verus!
