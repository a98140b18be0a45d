//! Simplification of contours.

use crate::float::F32;
use crate::vec2::Vec2;
use vstd::prelude::*;
use vstd::slice::slice_subrange;
use vstd::slice::slice_to_vec;

verus! {

/// 1e-12: a segment whose squared length is less is taken for a point.
pub const NO_LENGTH: u32 = 0x2b8c_bccc;

/// 1.0
pub const ONE: u32 = 0x3f80_0000;

/// 0.5
pub const HALF: u32 = 0x3f00_0000;

/// 6.0: no shorter step is a jump.
pub const LONG_STEP: u32 = 0x40c0_0000;

/// 4.5: no step that is fewer times as long as the average is a jump.
pub const JUMP_FACTOR: u32 = 0x4090_0000;

/// A pixel as a point of the plane.
pub open spec fn to_point(p: (i32, i32)) -> Vec2 {
    Vec2 { x: F32::spec_from_int(p.0 as int), y: F32::spec_from_int(p.1 as int) }
}

fn point_of(p: (i32, i32)) -> (r: Vec2)
    ensures
        r == to_point(p),
{
    Vec2 { x: F32::from_i64(p.0 as i64), y: F32::from_i64(p.1 as i64) }
}

/// The coordinates of `b` relative to `a` are in the range of `i32`.
pub open spec fn difference_fits(a: (i32, i32), b: (i32, i32)) -> bool {
    i32::MIN <= b.0 - a.0 <= i32::MAX && i32::MIN <= b.1 - a.1 <= i32::MAX
}

/// The way from `a` to `b`.
pub open spec fn way(a: (i32, i32), b: (i32, i32)) -> Vec2 {
    Vec2 { x: F32::spec_from_int(b.0 - a.0), y: F32::spec_from_int(b.1 - a.1) }
}

fn way_between(a: (i32, i32), b: (i32, i32)) -> (r: Vec2)
    requires
        difference_fits(a, b),
    ensures
        r == way(a, b),
{
    Vec2 { x: F32::from_i64((b.0 - a.0) as i64), y: F32::from_i64((b.1 - a.1) as i64) }
}

// ---- jumps ----

/// The longest of the first `k` steps of a contour.
pub open spec fn longest_step(contour: Seq<(i32, i32)>, k: int) -> F32
    decreases k,
{
    if k <= 0 {
        F32 { bits: 0 }
    } else {
        let longest = longest_step(contour, k - 1);
        let step = way(contour[k - 1], contour[k]).spec_length();
        if longest.spec_lt(step) {
            step
        } else {
            longest
        }
    }
}

/// The sum of the first `k` steps of a contour, one added after the other.
pub open spec fn step_sum(contour: Seq<(i32, i32)>, k: int) -> F32
    decreases k,
{
    if k <= 0 {
        F32 { bits: 0 }
    } else {
        step_sum(contour, k - 1).spec_add(way(contour[k - 1], contour[k]).spec_length())
    }
}

/// A step of the contour is long, and much longer than the average.
pub open spec fn has_jump(contour: Seq<(i32, i32)>) -> bool {
    let k = contour.len() - 1;
    let longest = longest_step(contour, k);
    let average = step_sum(contour, k).spec_div(F32::spec_from_int(k));
    contour.len() >= 4 && (F32 { bits: LONG_STEP }).spec_lt(longest) && average.spec_mul(
        F32 { bits: JUMP_FACTOR },
    ).spec_lt(longest)
}

/// Whether a contour of at least four points has a step that is long, and much
/// longer than the average.
pub fn contour_has_large_jumps(contour: &[(i32, i32)]) -> (r: bool)
    requires
        contour@.len() >= 4 ==> forall|i: int, j: int|
            0 <= i && j == i + 1 && j < contour@.len() ==> difference_fits(
                #[trigger] contour@[i],
                #[trigger] contour@[j],
            ),
    ensures
        r == has_jump(contour@),
{
    let n = contour.len();
    if n < 4 {
        return false;
    }
    let mut longest = F32::zero();
    let mut sum = F32::zero();
    for k in 1..n
        invariant
            n == contour@.len(),
            forall|i: int, j: int|
                0 <= i && j == i + 1 && j < contour@.len() ==> difference_fits(
                    #[trigger] contour@[i],
                    #[trigger] contour@[j],
                ),
            longest == longest_step(contour@, k - 1),
            sum == step_sum(contour@, k - 1),
    {
        let step = way_between(contour[k - 1], contour[k]).length();
        if longest.lt(step) {
            longest = step;
        }
        sum = sum.add(step);
    }
    let average = sum.div(F32::from_u64((n - 1) as u64));
    let long = F32 { bits: LONG_STEP };
    let factor = F32 { bits: JUMP_FACTOR };
    long.lt(longest) && average.mul(factor).lt(longest)
}

// ---- Ramer-Douglas-Peucker ----

/// A number limited to the range from 0 to 1.
pub open spec fn limited(t: F32) -> F32 {
    if t.spec_lt(F32 { bits: 0 }) {
        F32 { bits: 0 }
    } else if (F32 { bits: ONE }).spec_lt(t) {
        F32 { bits: ONE }
    } else {
        t
    }
}

/// The distance of `p` from the segment from `start` to `end`.
pub open spec fn distance(start: Vec2, end: Vec2, p: Vec2) -> F32 {
    let line = end.spec_sub(start);
    let length_sq = line.spec_length_sq();
    if length_sq.spec_lt(F32 { bits: NO_LENGTH }) {
        p.spec_sub(start).spec_length()
    } else {
        let t = p.spec_sub(start).spec_dot(line).spec_div(length_sq);
        p.spec_sub(start.spec_add(line.spec_scale(limited(t)))).spec_length()
    }
}

/// The largest distance of the points 1 to `k - 1` from the segment from the
/// first to the last point, and the first point that has it; (0, 0) if no
/// distance is positive.
pub open spec fn farthest(points: Seq<(i32, i32)>, k: int) -> (F32, int)
    decreases k,
{
    if k <= 1 {
        (F32 { bits: 0 }, 0)
    } else {
        let best = farthest(points, k - 1);
        let d = distance(
            to_point(points[0]),
            to_point(points.last()),
            to_point(points[k - 1]),
        );
        if best.0.spec_lt(d) {
            (d, k - 1)
        } else {
            best
        }
    }
}

/// The contour with the points left out that are near the segments between the
/// others.
pub open spec fn simplify(points: Seq<(i32, i32)>, epsilon: F32) -> Seq<(i32, i32)>
    decreases points.len(),
{
    if points.len() <= 2 {
        points
    } else {
        let (d, i) = farthest(points, points.len() - 1);
        if epsilon.spec_lt(d) && 0 < i < points.len() - 1 {
            simplify(points.take(i + 1), epsilon).drop_last() + simplify(points.skip(i), epsilon)
        } else {
            seq![points[0], points.last()]
        }
    }
}

/// Every division of the contour divides it into two shorter ones. A negative
/// `epsilon` may ask for a division at the first point, which would go on for
/// ever.
pub open spec fn divisible(points: Seq<(i32, i32)>, epsilon: F32) -> bool
    decreases points.len(),
{
    if points.len() <= 2 {
        true
    } else {
        let (d, i) = farthest(points, points.len() - 1);
        epsilon.spec_lt(d) ==> 0 < i < points.len() - 1 && divisible(points.take(i + 1), epsilon)
            && divisible(points.skip(i), epsilon)
    }
}

/// The point that is found is one of those that are looked at.
pub proof fn lemma_farthest(points: Seq<(i32, i32)>, k: int)
    ensures
        0 <= farthest(points, k).1,
        farthest(points, k).1 < k || farthest(points, k).1 == 0,
        farthest(points, k).1 == 0 ==> farthest(points, k).0 == (F32 { bits: 0 }),
    decreases k,
{
    if k > 1 {
        lemma_farthest(points, k - 1);
    }
}

/// Simplification always ends unless `epsilon` is negative.
pub proof fn law_simplification_ends(points: Seq<(i32, i32)>, epsilon: F32)
    requires
        !epsilon.spec_lt(F32 { bits: 0 }),
    ensures
        divisible(points, epsilon),
    decreases points.len(),
{
    if points.len() > 2 {
        let (d, i) = farthest(points, points.len() - 1);
        lemma_farthest(points, points.len() - 1);
        if epsilon.spec_lt(d) {
            law_simplification_ends(points.take(i + 1), epsilon);
            law_simplification_ends(points.skip(i), epsilon);
        }
    }
}

/// Simplification keeps the first and the last point.
pub proof fn law_simplification_keeps_ends(points: Seq<(i32, i32)>, epsilon: F32)
    requires
        points.len() >= 1,
    ensures
        simplify(points, epsilon).len() >= 1,
        points.len() >= 2 ==> simplify(points, epsilon).len() >= 2,
        simplify(points, epsilon)[0] == points[0],
        simplify(points, epsilon).last() == points.last(),
    decreases points.len(),
{
    if points.len() > 2 {
        let (d, i) = farthest(points, points.len() - 1);
        if epsilon.spec_lt(d) && 0 < i < points.len() - 1 {
            law_simplification_keeps_ends(points.take(i + 1), epsilon);
            law_simplification_keeps_ends(points.skip(i), epsilon);
        }
    }
}

/// Simplification only leaves points out.
pub proof fn law_simplification_selects(points: Seq<(i32, i32)>, epsilon: F32, k: int)
    requires
        0 <= k < simplify(points, epsilon).len(),
    ensures
        points.contains(simplify(points, epsilon)[k]),
        simplify(points, epsilon).len() <= points.len(),
    decreases points.len(),
{
    let r = simplify(points, epsilon);
    if points.len() > 2 {
        let (d, i) = farthest(points, points.len() - 1);
        if epsilon.spec_lt(d) && 0 < i < points.len() - 1 {
            let a = points.take(i + 1);
            let b = points.skip(i);
            law_simplification_keeps_ends(a, epsilon);
            law_simplification_keeps_ends(b, epsilon);
            law_simplification_selects(a, epsilon, 0);
            law_simplification_selects(b, epsilon, 0);
            let m = simplify(a, epsilon).len() - 1;
            if k < m {
                law_simplification_selects(a, epsilon, k);
                let j = choose|j: int| 0 <= j < a.len() && a[j] == r[k];
                assert(points[j] == r[k]);
            } else {
                law_simplification_selects(b, epsilon, k - m);
                let j = choose|j: int| 0 <= j < b.len() && b[j] == r[k];
                assert(points[j + i] == r[k]);
            }
        } else {
            assert(points[points.len() - 1] == points.last());
        }
    }
}

fn distance_from(start: Vec2, end: Vec2, p: Vec2) -> (r: F32)
    ensures
        r == distance(start, end, p),
{
    let line = end.sub(start);
    let length_sq = line.length_sq();
    let least = F32 { bits: NO_LENGTH };
    if length_sq.lt(least) {
        return p.sub(start).length();
    }
    let mut t = p.sub(start).dot(line).div(length_sq);
    let one = F32 { bits: ONE };
    if t.lt(F32::zero()) {
        t = F32::zero();
    } else if one.lt(t) {
        t = one;
    }
    p.sub(start.add(line.scale(t))).length()
}

/// The point farthest from the segment from the first to the last point.
fn find_farthest(points: &[(i32, i32)]) -> (r: (F32, usize))
    requires
        points@.len() > 2,
    ensures
        (r.0, r.1 as int) == farthest(points@, points@.len() - 1),
        r.1 < points@.len(),
{
    let n: usize = points.len();
    let start = point_of(points[0]);
    let end = point_of(points[n - 1]);
    let mut max_dist = F32::zero();
    let mut max_idx: usize = 0;
    for i in 1..n - 1
        invariant
            n == points@.len(),
            n > 2,
            start == to_point(points@[0]),
            end == to_point(points@.last()),
            (max_dist, max_idx as int) == farthest(points@, i as int),
            max_idx < n,
    {
        let d = distance_from(start, end, point_of(points[i]));
        if max_dist.lt(d) {
            max_dist = d;
            max_idx = i;
        }
    }
    (max_dist, max_idx)
}

/// Whether the simplification of a contour comes to an end.
pub fn is_divisible(points: &[(i32, i32)], epsilon: F32) -> (r: bool)
    ensures
        r == divisible(points@, epsilon),
    decreases points@.len(),
{
    let n: usize = points.len();
    if n <= 2 {
        return true;
    }
    let (max_dist, max_idx) = find_farthest(points);
    if !epsilon.lt(max_dist) {
        return true;
    }
    proof {
        lemma_farthest(points@, n - 1);
    }
    if max_idx == 0 {
        return false;
    }
    let a = slice_subrange(points, 0, max_idx + 1);
    let b = slice_subrange(points, max_idx, n);
    assert(a@ =~= points@.take(max_idx + 1));
    assert(b@ =~= points@.skip(max_idx as int));
    is_divisible(a, epsilon) && is_divisible(b, epsilon)
}

/// Leaves out the points of a contour that are no more than `epsilon` from the
/// segments between the others.
pub fn rdp_simplify(points: &[(i32, i32)], epsilon: F32) -> (r: Vec<(i32, i32)>)
    requires
        divisible(points@, epsilon),
    ensures
        r@ == simplify(points@, epsilon),
    decreases points@.len(),
{
    let n: usize = points.len();
    if n <= 2 {
        return slice_to_vec(points);
    }
    let (max_dist, max_idx) = find_farthest(points);
    if epsilon.lt(max_dist) {
        let a = slice_subrange(points, 0, max_idx + 1);
        let b = slice_subrange(points, max_idx, n);
        assert(a@ =~= points@.take(max_idx + 1));
        assert(b@ =~= points@.skip(max_idx as int));
        let mut left = rdp_simplify(a, epsilon);
        let mut right = rdp_simplify(b, epsilon);
        proof {
            law_simplification_keeps_ends(a@, epsilon);
        }
        let _ = left.pop();
        left.append(&mut right);
        assert(left@ =~= simplify(points@, epsilon));
        left
    } else {
        let mut r: Vec<(i32, i32)> = Vec::new();
        r.push(points[0]);
        r.push(points[n - 1]);
        assert(r@ =~= simplify(points@, epsilon));
        r
    }
}

// ---- closed contours ----

/// The squared distance of two points.
pub open spec fn gap_sq(a: (i32, i32), b: (i32, i32)) -> int {
    (b.0 - a.0) * (b.0 - a.0) + (b.1 - a.1) * (b.1 - a.1)
}

/// The largest squared distance of the points 1 to `k - 1` from the first one,
/// and the first point that has it; the middle one if all distances are 0.
pub open spec fn opposite(points: Seq<(i32, i32)>, k: int) -> (int, int)
    decreases k,
{
    if k <= 1 {
        (0, points.len() as int / 2)
    } else {
        let best = opposite(points, k - 1);
        let d = gap_sq(points[0], points[k - 1]);
        if d > best.0 {
            (d, k - 1)
        } else {
            best
        }
    }
}

/// The first half of a closed contour, up to the point opposite to the first.
pub open spec fn first_half(points: Seq<(i32, i32)>) -> Seq<(i32, i32)> {
    points.take(opposite(points, points.len() as int).1 + 1)
}

/// The second half of a closed contour, back to the first point.
pub open spec fn second_half(points: Seq<(i32, i32)>) -> Seq<(i32, i32)> {
    points.skip(opposite(points, points.len() as int).1).push(points[0])
}

/// A closed contour, each of its halves simplified.
pub open spec fn simplify_closed(points: Seq<(i32, i32)>, epsilon: F32) -> Seq<(i32, i32)> {
    if points.len() <= 3 {
        points
    } else if opposite(points, points.len() as int).0 == 0 {
        points.take(1)
    } else {
        simplify(first_half(points), epsilon).drop_last() + simplify(
            second_half(points),
            epsilon,
        ).drop_last()
    }
}

/// [`divisible`], for the halves of a closed contour.
pub open spec fn divisible_closed(points: Seq<(i32, i32)>, epsilon: F32) -> bool {
    points.len() > 3 && opposite(points, points.len() as int).0 != 0 ==> divisible(
        first_half(points),
        epsilon,
    ) && divisible(second_half(points), epsilon)
}

/// The distances from the first point can be computed.
pub open spec fn gaps_fit(points: Seq<(i32, i32)>) -> bool {
    forall|i: int|
        0 <= i < points.len() ==> difference_fits(points[0], #[trigger] points[i]) && gap_sq(
            points[0],
            points[i],
        ) <= i64::MAX
}

pub proof fn lemma_opposite(points: Seq<(i32, i32)>, k: int)
    requires
        points.len() >= 1,
        k <= points.len(),
    ensures
        0 <= opposite(points, k).1 < points.len(),
        opposite(points, k).0 >= 0,
    decreases k,
{
    if k > 1 {
        lemma_opposite(points, k - 1);
    }
}

/// The point farthest from the first one.
fn find_opposite(points: &[(i32, i32)]) -> (r: (i64, usize))
    requires
        points@.len() > 0,
        gaps_fit(points@),
    ensures
        (r.0 as int, r.1 as int) == opposite(points@, points@.len() as int),
        r.1 < points@.len(),
        r.0 >= 0,
{
    let n: usize = points.len();
    let p0 = points[0];
    let mut max_dist_sq: i64 = 0;
    let mut far_idx: usize = n / 2;
    for i in 1..n
        invariant
            n == points@.len(),
            n > 0,
            p0 == points@[0],
            gaps_fit(points@),
            (max_dist_sq as int, far_idx as int) == opposite(points@, i as int),
    {
        let p = points[i];
        assert(difference_fits(points@[0], points@[i as int]));
        let dx: i64 = (p.0 - p0.0) as i64;
        let dy: i64 = (p.1 - p0.1) as i64;
        assert(0 <= dx * dx <= 0x4000_0000_0000_0000) by (nonlinear_arith)
            requires
                -0x8000_0000 <= dx <= 0x8000_0000,
        ;
        assert(0 <= dy * dy <= 0x4000_0000_0000_0000) by (nonlinear_arith)
            requires
                -0x8000_0000 <= dy <= 0x8000_0000,
        ;
        let d2: i64 = dx * dx + dy * dy;
        if d2 > max_dist_sq {
            max_dist_sq = d2;
            far_idx = i;
        }
    }
    proof {
        lemma_opposite(points@, n as int);
    }
    (max_dist_sq, far_idx)
}

/// Whether the simplification of a closed contour comes to an end.
pub fn is_divisible_closed(points: &[(i32, i32)], epsilon: F32) -> (r: bool)
    requires
        points@.len() > 3 ==> gaps_fit(points@),
    ensures
        r == divisible_closed(points@, epsilon),
{
    let n: usize = points.len();
    if n <= 3 {
        return true;
    }
    let (max_dist_sq, far_idx) = find_opposite(points);
    if max_dist_sq == 0 {
        return true;
    }
    let a = slice_subrange(points, 0, far_idx + 1);
    assert(a@ =~= first_half(points@));
    let mut half_b = slice_to_vec(slice_subrange(points, far_idx, n));
    half_b.push(points[0]);
    assert(half_b@ =~= second_half(points@));
    is_divisible(a, epsilon) && is_divisible(half_b.as_slice(), epsilon)
}

/// Simplifies a closed contour: the way from its first point to the one farthest
/// from it, and the way back.
pub fn rdp_simplify_closed(points: &[(i32, i32)], epsilon: F32) -> (r: Vec<(i32, i32)>)
    requires
        points@.len() > 3 ==> gaps_fit(points@),
        divisible_closed(points@, epsilon),
    ensures
        r@ == simplify_closed(points@, epsilon),
{
    let n: usize = points.len();
    if n <= 3 {
        return slice_to_vec(points);
    }
    let (max_dist_sq, far_idx) = find_opposite(points);
    if max_dist_sq == 0 {
        let r = slice_to_vec(slice_subrange(points, 0, 1));
        assert(r@ =~= points@.take(1));
        return r;
    }
    let a = slice_subrange(points, 0, far_idx + 1);
    assert(a@ =~= first_half(points@));
    let mut half_b = slice_to_vec(slice_subrange(points, far_idx, n));
    half_b.push(points[0]);
    assert(half_b@ =~= second_half(points@));
    let mut result = rdp_simplify(a, epsilon);
    let mut rest = rdp_simplify(half_b.as_slice(), epsilon);
    proof {
        law_simplification_keeps_ends(first_half(points@), epsilon);
        law_simplification_keeps_ends(second_half(points@), epsilon);
    }
    let _ = result.pop();
    let _ = rest.pop();
    result.append(&mut rest);
    assert(result@ =~= simplify_closed(points@, epsilon));
    result
}

/// Simplification of a closed contour keeps only points of the contour.
pub proof fn law_closed_simplification_selects(
    points: Seq<(i32, i32)>,
    epsilon: F32,
    k: int,
)
    requires
        0 <= k < simplify_closed(points, epsilon).len(),
    ensures
        points.contains(simplify_closed(points, epsilon)[k]),
{
    let r = simplify_closed(points, epsilon);
    let n = points.len() as int;
    if points.len() <= 3 {
        assert(points[k] == r[k]);
    } else {
        lemma_opposite(points, n);
        let f = opposite(points, n).1;
        if opposite(points, n).0 == 0 {
            assert(points[k] == r[k]);
        } else {
            let a = first_half(points);
            let b = second_half(points);
            law_simplification_keeps_ends(a, epsilon);
            law_simplification_keeps_ends(b, epsilon);
            let m = simplify(a, epsilon).len() - 1;
            if k < m {
                law_simplification_selects(a, epsilon, k);
                let j = choose|j: int| 0 <= j < a.len() && a[j] == r[k];
                assert(points[j] == r[k]);
            } else {
                law_simplification_selects(b, epsilon, k - m);
                let j = choose|j: int| 0 <= j < b.len() && b[j] == r[k];
                if j < n - f {
                    assert(points[j + f] == r[k]);
                } else {
                    assert(points[0] == r[k]);
                }
            }
        }
    }
}

// ---- close vertices ----

/// `b` is less than the square root of `min_sq` away from `a`.
pub open spec fn close(a: (i32, i32), b: (i32, i32), min_sq: F32) -> bool {
    way(a, b).spec_length_sq().spec_lt(min_sq)
}

/// The points without those that are close to the last one kept before them.
pub open spec fn spread(points: Seq<(i32, i32)>, min_sq: F32) -> Seq<(i32, i32)>
    decreases points.len(),
{
    if points.len() == 0 {
        Seq::empty()
    } else {
        let kept = spread(points.drop_last(), min_sq);
        if kept.len() > 0 && close(kept.last(), points.last(), min_sq) {
            kept
        } else {
            kept.push(points.last())
        }
    }
}

/// Each point can be compared with the last one kept before it.
pub open spec fn spread_fits(points: Seq<(i32, i32)>, min_sq: F32) -> bool {
    forall|i: int|
        0 < i < points.len() ==> difference_fits(
            spread(points.take(i), min_sq).last(),
            #[trigger] points[i],
        )
}

/// Leaves out the points that are less than `min_dist` from the last one kept
/// before them.
pub fn dedup_close_vertices(points: &[(i32, i32)], min_dist: F32) -> (r: Vec<(i32, i32)>)
    requires
        spread_fits(points@, min_dist.spec_mul(min_dist)),
    ensures
        r@ == spread(points@, min_dist.spec_mul(min_dist)),
{
    let min_sq = min_dist.mul(min_dist);
    let mut r: Vec<(i32, i32)> = Vec::with_capacity(points.len());
    for i in 0..points.len()
        invariant
            spread_fits(points@, min_sq),
            r@ == spread(points@.take(i as int), min_sq),
            i > 0 ==> r@.len() > 0,
    {
        let p = points[i];
        assert(points@.take(i + 1).drop_last() =~= points@.take(i as int));
        assert(i > 0 ==> difference_fits(r@.last(), points@[i as int]));
        let n = r.len();
        if n == 0 || !way_between(r[n - 1], p).length_sq().lt(min_sq) {
            r.push(p);
        }
    }
    assert(points@.take(points@.len() as int) =~= points@);
    r
}

/// No kept point is close to the one kept before it.
pub proof fn law_kept_vertices_are_apart(points: Seq<(i32, i32)>, min_sq: F32, i: int)
    requires
        0 <= i < spread(points, min_sq).len() - 1,
    ensures
        !close(spread(points, min_sq)[i], spread(points, min_sq)[i + 1], min_sq),
    decreases points.len(),
{
    let kept = spread(points.drop_last(), min_sq);
    if i < kept.len() - 1 {
        law_kept_vertices_are_apart(points.drop_last(), min_sq, i);
    }
}

/// Only given points are kept.
pub proof fn lemma_spread_selects(points: Seq<(i32, i32)>, min_sq: F32, i: int)
    requires
        0 <= i < spread(points, min_sq).len(),
    ensures
        points.contains(spread(points, min_sq)[i]),
    decreases points.len(),
{
    let kept = spread(points.drop_last(), min_sq);
    if i < kept.len() {
        lemma_spread_selects(points.drop_last(), min_sq, i);
        let j = choose|j: int|
            0 <= j < points.drop_last().len() && points.drop_last()[j] == kept[i];
        assert(points[j] == kept[i]);
    } else {
        assert(points[points.len() - 1] == points.last());
    }
}

// ---- local space ----

/// The centre of a pixel of an image of `sw` by `sh` pixels, relative to the
/// centre of an object of the given size that the image covers.
pub open spec fn to_local(p: (i32, i32), sw: u32, sh: u32, size: (F32, F32)) -> Vec2 {
    let half = F32 { bits: HALF };
    let sx = size.0.spec_div(
        F32::spec_from_int(
            if sw < 1 {
                1
            } else {
                sw as int
            },
        ),
    );
    let sy = size.1.spec_div(
        F32::spec_from_int(
            if sh < 1 {
                1
            } else {
                sh as int
            },
        ),
    );
    Vec2 {
        x: F32::spec_from_int(p.0 as int).spec_add(half).spec_mul(sx).spec_sub(
            size.0.spec_mul(half),
        ),
        y: F32::spec_from_int(p.1 as int).spec_add(half).spec_mul(sy).spec_sub(
            size.1.spec_mul(half),
        ),
    }
}

/// All points in local space.
pub open spec fn all_to_local(
    points: Seq<(i32, i32)>,
    sw: u32,
    sh: u32,
    size: (F32, F32),
) -> Seq<Vec2> {
    Seq::new(points.len(), |i: int| to_local(points[i], sw, sh, size))
}

/// Converts pixels to points relative to the centre of the object.
pub fn pixels_to_local_space(poly: &[(i32, i32)], sw: u32, sh: u32, size: (F32, F32)) -> (r: Vec<
    Vec2,
>)
    ensures
        r@ == all_to_local(poly@, sw, sh, size),
{
    let half = F32 { bits: HALF };
    let columns: u64 = if sw < 1 {
        1
    } else {
        sw as u64
    };
    let rows: u64 = if sh < 1 {
        1
    } else {
        sh as u64
    };
    let sx = size.0.div(F32::from_u64(columns));
    let sy = size.1.div(F32::from_u64(rows));
    let cx = size.0.mul(half);
    let cy = size.1.mul(half);
    let ghost all = all_to_local(poly@, sw, sh, size);
    let mut r: Vec<Vec2> = Vec::with_capacity(poly.len());
    for i in 0..poly.len()
        invariant
            half == (F32 { bits: HALF }),
            sx == size.0.spec_div(
                F32::spec_from_int(
                    if sw < 1 {
                        1
                    } else {
                        sw as int
                    },
                ),
            ),
            sy == size.1.spec_div(
                F32::spec_from_int(
                    if sh < 1 {
                        1
                    } else {
                        sh as int
                    },
                ),
            ),
            cx == size.0.spec_mul(half),
            cy == size.1.spec_mul(half),
            all == all_to_local(poly@, sw, sh, size),
            r@ == all.take(i as int),
    {
        let p = point_of(poly[i]);
        r.push(Vec2 { x: p.x.add(half).mul(sx).sub(cx), y: p.y.add(half).mul(sy).sub(cy) });
        assert(r@ =~= all.take(i + 1));
    }
    assert(all.take(poly@.len() as int) =~= all);
    r
}

} // verus!
