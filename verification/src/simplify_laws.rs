//! Laws on simplified contours: what is left out is near to what is kept.

use crate::float::F32;
use crate::float_laws;
use crate::simplify;
use crate::simplify::HALF;
use crate::simplify::JUMP_FACTOR;
use crate::simplify::LONG_STEP;
use crate::simplify::NO_LENGTH;
use crate::simplify::ONE;
use crate::vec2::Vec2;
use vstd::prelude::*;

verus! {

// ---- what is left out ----

/// `kept` are the places of the points of `part` in `all`, in order, from the first
/// to the last point of `all`.
pub open spec fn keeps(all: Seq<(i32, i32)>, part: Seq<(i32, i32)>, kept: Seq<int>) -> bool {
    &&& kept.len() == part.len()
    &&& kept.len() >= 1
    &&& kept[0] == 0
    &&& kept.last() == all.len() - 1
    &&& forall|k: int| 0 <= k < kept.len() ==> 0 <= #[trigger] kept[k] < all.len()
    &&& forall|k: int| 0 <= k < kept.len() ==> part[k] == all[#[trigger] kept[k]]
    &&& forall|k: int, m: int|
        0 <= k && m == k + 1 && m < kept.len() ==> #[trigger] kept[k] < #[trigger] kept[m]
}

/// The distance of the point `i` from the segment between the points `a` and `b`.
pub open spec fn apart_from(points: Seq<(i32, i32)>, a: int, b: int, i: int) -> F32 {
    simplify::distance(
        simplify::to_point(points[a]),
        simplify::to_point(points[b]),
        simplify::to_point(points[i]),
    )
}

/// No point between two neighbours among the kept ones is farther than `epsilon`
/// from the segment between those.
pub open spec fn near(points: Seq<(i32, i32)>, kept: Seq<int>, epsilon: F32) -> bool {
    forall|k: int, m: int, i: int|
        #![trigger kept[k], kept[m], points[i]]
        0 <= k && m == k + 1 && m < kept.len() && kept[k] < i < kept[m] ==> !epsilon.spec_lt(
            apart_from(points, kept[k], kept[m], i),
        )
}

proof fn lemma_farthest_is_most(points: Seq<(i32, i32)>, k: int, i: int)
    requires
        1 <= i < k <= points.len(),
    ensures
        !simplify::farthest(points, k).0.nan(),
        !simplify::farthest(points, k).0.spec_lt(apart_from(points, 0, points.len() - 1, i)),
    decreases k,
{
    reveal(F32::spec_lt);
    lemma_farthest_is_number(points, k - 1);
    if i < k - 1 {
        lemma_farthest_is_most(points, k - 1, i);
    }
}

proof fn lemma_farthest_is_number(points: Seq<(i32, i32)>, k: int)
    ensures
        !simplify::farthest(points, k).0.nan(),
    decreases k,
{
    reveal(F32::spec_lt);
    if k > 1 {
        lemma_farthest_is_number(points, k - 1);
    }
}

/// Simplification leaves out only points that are near to what is kept: each is no
/// farther than `epsilon` from the segment between the two kept points around it.
/// Returned are the places of the kept points, in order.
pub proof fn law_left_out_points_are_near(points: Seq<(i32, i32)>, epsilon: F32) -> (kept: Seq<
    int,
>)
    requires
        points.len() >= 1,
        !epsilon.nan(),
        !epsilon.spec_lt(F32 { bits: 0 }),
    ensures
        keeps(points, simplify::simplify(points, epsilon), kept),
        near(points, kept, epsilon),
    decreases points.len(),
{
    let n = points.len() as int;
    if n <= 2 {
        let kept = Seq::new(points.len(), |k: int| k);
        assert(keeps(points, simplify::simplify(points, epsilon), kept));
        kept
    } else {
        let (d, f) = simplify::farthest(points, n - 1);
        simplify::lemma_farthest(points, n - 1);
        if epsilon.spec_lt(d) && 0 < f < n - 1 {
            let a = points.take(f + 1);
            let b = points.skip(f);
            let p = law_left_out_points_are_near(a, epsilon);
            let q = law_left_out_points_are_near(b, epsilon);
            lemma_join(points, epsilon, f, p, q)
        } else {
            assert(!epsilon.spec_lt(d)) by {
                reveal(F32::spec_lt);
            }
            let kept = seq![0int, n - 1];
            assert forall|k: int, m: int, i: int|
                #![trigger kept[k], kept[m], points[i]]
                0 <= k && m == k + 1 && m < kept.len() && kept[k] < i < kept[m]
                    implies !epsilon.spec_lt(apart_from(points, kept[k], kept[m], i)) by {
                lemma_farthest_is_most(points, n - 1, i);
                reveal(F32::spec_lt);
            }
            kept
        }
    }
}

proof fn lemma_join(
    points: Seq<(i32, i32)>,
    epsilon: F32,
    f: int,
    p: Seq<int>,
    q: Seq<int>,
) -> (kept: Seq<int>)
    requires
        points.len() > 2,
        0 < f < points.len() - 1,
        epsilon.spec_lt(simplify::farthest(points, points.len() - 1).0),
        f == simplify::farthest(points, points.len() - 1).1,
        keeps(points.take(f + 1), simplify::simplify(points.take(f + 1), epsilon), p),
        keeps(points.skip(f), simplify::simplify(points.skip(f), epsilon), q),
        near(points.take(f + 1), p, epsilon),
        near(points.skip(f), q, epsilon),
    ensures
        keeps(points, simplify::simplify(points, epsilon), kept),
        near(points, kept, epsilon),
{
    let a = points.take(f + 1);
    let b = points.skip(f);
    let s = p.len() - 1;
    let shifted = Seq::new(q.len(), |k: int| q[k] + f);
    let kept = p.drop_last() + shifted;
    let r = simplify::simplify(points, epsilon);
    assert(p[s] == f);
    assert(kept[s] == f);
    assert forall|k: int| 0 <= k < kept.len() implies 0 <= #[trigger] kept[k] < points.len()
        && r[k] == points[kept[k]] by {
        if k < s {
            assert(p[k] == kept[k]);
        } else {
            assert(q[k - s] + f == kept[k]);
        }
    }
    assert forall|k: int, m: int| 0 <= k && m == k + 1 && m < kept.len() implies #[trigger] kept[k]
        < #[trigger] kept[m] by {
        if m <= s {
            assert(p[k] < p[m]);
        } else {
            assert(q[k - s] < q[m - s]);
        }
    }
    assert forall|k: int, m: int, i: int|
        #![trigger kept[k], kept[m], points[i]]
        0 <= k && m == k + 1 && m < kept.len() && kept[k] < i < kept[m] implies !epsilon.spec_lt(
        apart_from(points, kept[k], kept[m], i),
    ) by {
        if m <= s {
            assert(p[k] == kept[k] && p[m] == kept[m]);
            assert(a[p[k]] == points[kept[k]] && a[p[m]] == points[kept[m]] && a[i] == points[i]);
            assert(!epsilon.spec_lt(apart_from(a, p[k], p[m], i)));
        } else {
            let (x, y) = (q[k - s], q[m - s]);
            assert(x + f == kept[k] && y + f == kept[m]);
            assert(b[x] == points[kept[k]] && b[y] == points[kept[m]] && b[i - f] == points[i]);
            assert(!epsilon.spec_lt(apart_from(b, x, y, i - f)));
        }
    }
    assert(kept.last() == points.len() - 1) by {
        assert(q.last() == q[q.len() - 1]);
        assert(kept.last() == shifted[q.len() - 1]);
    }
    assert(kept[0] == 0) by {
        if s == 0 {
            assert(p[0] == f);
        } else {
            assert(p[0] == kept[0]);
        }
    }
    kept
}

/// The point `f` is the farthest from the segment between the first and the last
/// point: no other is farther, and the earlier ones are nearer.
pub open spec fn is_farthest(points: Seq<(i32, i32)>, f: int) -> bool {
    let last = points.len() - 1;
    &&& 0 < f < last
    &&& (F32 { bits: 0 }).spec_lt(apart_from(points, 0, last, f))
    &&& forall|i: int|
        0 < i < last ==> !apart_from(points, 0, last, f).spec_lt(
            #[trigger] apart_from(points, 0, last, i),
        )
    &&& forall|i: int|
        0 < i < f ==> !apart_from(points, 0, last, f).spec_le(
            #[trigger] apart_from(points, 0, last, i),
        )
}

/// Only what has to be kept is kept. Where no point is farther than `epsilon` from
/// the segment between the ends, only the ends are; otherwise the farthest point is
/// kept, and what comes before it and after it is simplified for itself.
pub proof fn law_far_points_are_kept(points: Seq<(i32, i32)>, epsilon: F32, f: int)
    requires
        points.len() > 2,
        !epsilon.nan(),
        !epsilon.spec_lt(F32 { bits: 0 }),
    ensures
        (forall|i: int|
            0 < i < points.len() - 1 ==> !epsilon.spec_lt(
                #[trigger] apart_from(points, 0, points.len() - 1, i),
            )) ==> simplify::simplify(points, epsilon) == seq![points[0], points.last()],
        is_farthest(points, f) && epsilon.spec_lt(apart_from(points, 0, points.len() - 1, f))
            ==> simplify::simplify(points, epsilon) == simplify::simplify(
            points.take(f + 1),
            epsilon,
        ).drop_last() + simplify::simplify(points.skip(f), epsilon),
{
    let n = points.len() as int;
    let (d, i) = simplify::farthest(points, n - 1);
    simplify::lemma_farthest(points, n - 1);
    lemma_farthest_is_number(points, n - 1);
    lemma_farthest_is_first(points, n - 1);
    float_laws::law_zero_is_zero(F32 { bits: 0 });
    if i > 0 {
        assert(d == apart_from(points, 0, n - 1, i));
    }
    if is_farthest(points, f) && epsilon.spec_lt(apart_from(points, 0, n - 1, f)) {
        lemma_farthest_is_most(points, n - 1, f);
        reveal(F32::spec_lt);
        reveal(F32::spec_le);
        assert(epsilon.spec_lt(d));
        assert(i > 0);
        if i < f {
            assert(!apart_from(points, 0, n - 1, f).spec_le(apart_from(points, 0, n - 1, i)));
        } else if f < i {
            assert(!apart_from(points, 0, n - 1, f).spec_lt(apart_from(points, 0, n - 1, i)));
        }
        assert(i == f);
    }
}

proof fn lemma_farthest_is_first(points: Seq<(i32, i32)>, k: int)
    requires
        k <= points.len(),
    ensures
        ({
            let (d, f) = simplify::farthest(points, k);
            &&& f > 0 ==> f < k && d == apart_from(points, 0, points.len() - 1, f)
            &&& forall|i: int|
                0 < i < f ==> (#[trigger] apart_from(points, 0, points.len() - 1, i)).spec_lt(d)
                    || apart_from(points, 0, points.len() - 1, i).nan()
        }),
    decreases k,
{
    if k > 1 {
        lemma_farthest_is_first(points, k - 1);
        let best = simplify::farthest(points, k - 1);
        let d = apart_from(points, 0, points.len() - 1, k - 1);
        if best.0.spec_lt(d) {
            assert forall|i: int| 0 < i < k - 1 implies (#[trigger] apart_from(
                points,
                0,
                points.len() - 1,
                i,
            )).spec_lt(d) || apart_from(points, 0, points.len() - 1, i).nan() by {
                lemma_farthest_is_most(points, k - 1, i);
                reveal(F32::spec_lt);
            }
        }
    }
}

/// The distance from a segment is that from its nearest point: from a corner where
/// the foot of the perpendicular would be beyond it, and from that foot otherwise.
/// The distance from a segment shorter than 1e-6 is that from its start.
pub proof fn law_distance_is_to_nearest_point(start: Vec2, end: Vec2, p: Vec2, t: F32, foot: Vec2)
    requires
        ({
            let dx = end.x.spec_sub(start.x);
            let dy = end.y.spec_sub(start.y);
            let length_sq = dx.spec_mul(dx).spec_add(dy.spec_mul(dy));
            let along = p.x.spec_sub(start.x).spec_mul(dx).spec_add(
                p.y.spec_sub(start.y).spec_mul(dy),
            ).spec_div(length_sq);
            if length_sq.spec_lt(F32 { bits: NO_LENGTH }) {
                foot == start
            } else {
                &&& along.spec_lt(F32 { bits: 0 }) ==> t.bits == 0
                &&& (F32 { bits: ONE }).spec_lt(along) ==> t.bits == ONE
                &&& !along.spec_lt(F32 { bits: 0 }) && !(F32 { bits: ONE }).spec_lt(along) ==> t
                    == along
                &&& foot.x == start.x.spec_add(dx.spec_mul(t))
                &&& foot.y == start.y.spec_add(dy.spec_mul(t))
            }
        }),
    ensures
        ({
            let x = p.x.spec_sub(foot.x);
            let y = p.y.spec_sub(foot.y);
            simplify::distance(start, end, p) == x.spec_mul(x).spec_add(y.spec_mul(y)).spec_sqrt()
        }),
{
    let dx = end.x.spec_sub(start.x);
    let dy = end.y.spec_sub(start.y);
    let length_sq = dx.spec_mul(dx).spec_add(dy.spec_mul(dy));
    let along = p.x.spec_sub(start.x).spec_mul(dx).spec_add(
        p.y.spec_sub(start.y).spec_mul(dy),
    ).spec_div(length_sq);
    if !length_sq.spec_lt(F32 { bits: NO_LENGTH }) {
        assert(t == simplify::limited(along)) by {
            reveal(F32::spec_lt);
        }
    }
}

// ---- closed contours ----

/// The square of the distance of the point `i` from the first one.
pub open spec fn away_sq(points: Seq<(i32, i32)>, i: int) -> int {
    (points[i].0 - points[0].0) * (points[i].0 - points[0].0) + (points[i].1 - points[0].1) * (
    points[i].1 - points[0].1)
}

/// A closed contour is divided at the first of the points that are farthest from
/// its first point, and its halves are simplified, the second one back to the first
/// point. One of at most three points stays as it is, and of one whose points are
/// all the same only the first is left.
pub proof fn law_closed_contour_is_halved(points: Seq<(i32, i32)>, epsilon: F32, f: int)
    ensures
        points.len() <= 3 ==> simplify::simplify_closed(points, epsilon) == points,
        points.len() > 3 && (forall|i: int|
            0 <= i < points.len() ==> #[trigger] points[i] == points[0])
            ==> simplify::simplify_closed(points, epsilon) == seq![points[0]],
        points.len() > 3 && 0 < f < points.len() && away_sq(points, f) > 0 && (forall|i: int|
            0 <= i < points.len() ==> #[trigger] away_sq(points, i) <= away_sq(points, f)) && (
        forall|i: int| 0 <= i < f ==> #[trigger] away_sq(points, i) < away_sq(points, f))
            ==> simplify::simplify_closed(points, epsilon) == simplify::simplify(
            points.take(f + 1),
            epsilon,
        ).drop_last() + simplify::simplify(
            points.skip(f).push(points[0]),
            epsilon,
        ).drop_last(),
{
    let n = points.len() as int;
    if n > 3 {
        let (d, g) = simplify::opposite(points, n);
        lemma_opposite_is_first(points, n);
        if forall|i: int| 0 <= i < points.len() ==> #[trigger] points[i] == points[0] {
            if d > 0 {
                assert(points[g] == points[0]);
            }
            assert(points.take(1) =~= seq![points[0]]);
        }
        if 0 < f < n && away_sq(points, f) > 0 && (forall|i: int|
            0 <= i < points.len() ==> #[trigger] away_sq(points, i) <= away_sq(points, f)) && (
        forall|i: int| 0 <= i < f ==> #[trigger] away_sq(points, i) < away_sq(points, f)) {
            assert(away_sq(points, f) <= d);
            assert(away_sq(points, g) == d);
            assert(f == g);
        }
    }
}

proof fn lemma_opposite_is_first(points: Seq<(i32, i32)>, k: int)
    requires
        points.len() >= 1,
        k <= points.len(),
    ensures
        ({
            let (d, f) = simplify::opposite(points, k);
            &&& d >= 0
            &&& d > 0 ==> 0 < f < k && d == away_sq(points, f)
            &&& forall|i: int| 0 < i < k ==> #[trigger] away_sq(points, i) <= d
            &&& d > 0 ==> forall|i: int| 0 < i < f ==> #[trigger] away_sq(points, i) < d
        }),
    decreases k,
{
    if k > 1 {
        lemma_opposite_is_first(points, k - 1);
        assert(simplify::gap_sq(points[0], points[k - 1]) == away_sq(points, k - 1));
    }
}

// ---- close vertices ----

/// The square of the distance of the points `a` and `b` is less than `min_sq`.
pub open spec fn close_by(points: Seq<(i32, i32)>, a: int, b: int, min_sq: F32) -> bool {
    let dx = F32::spec_from_int(points[b].0 - points[a].0);
    let dy = F32::spec_from_int(points[b].1 - points[a].1);
    dx.spec_mul(dx).spec_add(dy.spec_mul(dy)).spec_lt(min_sq)
}

/// `kept` are places of points in order, the first one at the beginning, and each
/// point that is not kept is close to the last one kept before it.
pub open spec fn thins(points: Seq<(i32, i32)>, kept: Seq<int>, min_sq: F32) -> bool {
    &&& kept.len() >= 1
    &&& kept[0] == 0
    &&& forall|k: int| 0 <= k < kept.len() ==> 0 <= #[trigger] kept[k] < points.len()
    &&& forall|k: int, m: int|
        0 <= k && m == k + 1 && m < kept.len() ==> #[trigger] kept[k] < #[trigger] kept[m]
    &&& forall|k: int, m: int, i: int|
        #![trigger kept[k], kept[m], points[i]]
        0 <= k && m == k + 1 && m < kept.len() && kept[k] < i < kept[m] ==> close_by(
            points,
            kept[k],
            i,
            min_sq,
        )
    &&& forall|i: int|
        #![trigger points[i]]
        kept.last() < i < points.len() ==> close_by(points, kept.last(), i, min_sq)
}

/// Leaving out close vertices leaves out only those that are close to the last one
/// kept before them, and keeps the first one. Returned are the places of the kept
/// ones, in order.
pub proof fn law_left_out_vertices_are_close(points: Seq<(i32, i32)>, min_sq: F32) -> (kept: Seq<
    int,
>)
    requires
        points.len() >= 1,
    ensures
        thins(points, kept, min_sq),
        kept.len() == simplify::spread(points, min_sq).len(),
        forall|k: int|
            0 <= k < kept.len() ==> simplify::spread(points, min_sq)[k]
                == points[#[trigger] kept[k]],
    decreases points.len(),
{
    let n = points.len() as int;
    if n == 1 {
        reveal_with_fuel(simplify::spread, 2);
        assert(points.drop_last().len() == 0);
        seq![0int]
    } else {
        let rest = points.drop_last();
        let before = law_left_out_vertices_are_close(rest, min_sq);
        let spread = simplify::spread(rest, min_sq);
        let last = before.len() - 1;
        assert(spread.last() == rest[before[last]]);
        assert(rest[before[last]] == points[before[last]]);
        if simplify::close(spread.last(), points.last(), min_sq) {
            lemma_one_left_out(points, before, min_sq);
            before
        } else {
            lemma_one_kept(points, before, min_sq);
            before.push(n - 1)
        }
    }
}

proof fn lemma_one_left_out(points: Seq<(i32, i32)>, kept: Seq<int>, min_sq: F32)
    requires
        points.len() > 1,
        thins(points.drop_last(), kept, min_sq),
        close_by(points, kept.last(), points.len() - 1, min_sq),
    ensures
        thins(points, kept, min_sq),
{
    let rest = points.drop_last();
    assert(kept.last() == kept[kept.len() - 1]);
    assert forall|k: int, m: int, i: int|
        #![trigger kept[k], kept[m], points[i]]
        0 <= k && m == k + 1 && m < kept.len() && kept[k] < i < kept[m] implies close_by(
        points,
        kept[k],
        i,
        min_sq,
    ) by {
        assert(rest[i] == points[i] && rest[kept[k]] == points[kept[k]]);
        assert(close_by(rest, kept[k], i, min_sq));
    }
    assert forall|i: int|
        #![trigger points[i]]
        kept.last() < i < points.len() implies close_by(points, kept.last(), i, min_sq) by {
        if i < rest.len() {
            assert(rest[i] == points[i]);
            assert(rest[kept.last()] == points[kept.last()]);
            assert(close_by(rest, kept.last(), i, min_sq));
        }
    }
}

proof fn lemma_one_kept(points: Seq<(i32, i32)>, before: Seq<int>, min_sq: F32)
    requires
        points.len() > 1,
        thins(points.drop_last(), before, min_sq),
    ensures
        thins(points, before.push(points.len() - 1), min_sq),
{
    let rest = points.drop_last();
    let kept = before.push(points.len() - 1);
    assert(before.last() == before[before.len() - 1]);
    assert(kept.last() == points.len() - 1);
    assert forall|k: int| 0 <= k < kept.len() implies 0 <= #[trigger] kept[k] < points.len() by {
        if k < before.len() {
            assert(kept[k] == before[k]);
        }
    }
    assert forall|k: int, m: int| 0 <= k && m == k + 1 && m < kept.len() implies #[trigger] kept[k]
        < #[trigger] kept[m] by {
        assert(kept[k] == before[k]);
        if m < before.len() {
            assert(before[k] < before[m]);
        }
    }
    assert forall|k: int, m: int, i: int|
        #![trigger kept[k], kept[m], points[i]]
        0 <= k && m == k + 1 && m < kept.len() && kept[k] < i < kept[m] implies close_by(
        points,
        kept[k],
        i,
        min_sq,
    ) by {
        assert(kept[k] == before[k]);
        assert(rest[kept[k]] == points[kept[k]]);
        if m < before.len() {
            assert(kept[m] == before[m] && before[m] < rest.len());
        }
        assert(rest[i] == points[i]);
        assert(close_by(rest, kept[k], i, min_sq));
    }
}

/// Of the vertices that are kept, none is close to the one kept before it.
pub proof fn law_kept_vertices_are_not_close(points: Seq<(i32, i32)>, min_sq: F32, i: int)
    requires
        0 <= i < simplify::spread(points, min_sq).len() - 1,
    ensures
        !close_by(simplify::spread(points, min_sq), i, i + 1, min_sq),
{
    simplify::law_kept_vertices_are_apart(points, min_sq, i);
}

// ---- local space ----

/// A pixel is the point with its coordinates.
pub proof fn law_pixel_is_a_point(p: (i32, i32))
    ensures
        simplify::to_point(p).x == F32::spec_from_int(p.0 as int),
        simplify::to_point(p).y == F32::spec_from_int(p.1 as int),
{
}


/// A pixel stands for its middle: it is half a pixel further than its number,
/// scaled from the pixels of the image to the size of the object, and relative to
/// the middle of the object. An image without columns or rows counts as one with
/// one of them.
pub proof fn law_pixel_stands_for_its_middle(
    points: Seq<(i32, i32)>,
    i: int,
    sw: u32,
    sh: u32,
    size: (F32, F32),
)
    requires
        0 <= i < points.len(),
    ensures
        simplify::all_to_local(points, sw, sh, size).len() == points.len(),
        ({
            let at = simplify::all_to_local(points, sw, sh, size)[i];
            let half = F32 { bits: HALF };
            let columns = F32::spec_from_int(
                if sw == 0 {
                    1
                } else {
                    sw as int
                },
            );
            let rows = F32::spec_from_int(
                if sh == 0 {
                    1
                } else {
                    sh as int
                },
            );
            &&& at.x == F32::spec_from_int(points[i].0 as int).spec_add(half).spec_mul(
                size.0.spec_div(columns),
            ).spec_sub(size.0.spec_mul(half))
            &&& at.y == F32::spec_from_int(points[i].1 as int).spec_add(half).spec_mul(
                size.1.spec_div(rows),
            ).spec_sub(size.1.spec_mul(half))
        }),
{
}

// ---- jumps ----

/// The length of the step from the point `i` to the next one.
pub open spec fn step_length(contour: Seq<(i32, i32)>, i: int) -> F32 {
    let dx = F32::spec_from_int(contour[i + 1].0 - contour[i].0);
    let dy = F32::spec_from_int(contour[i + 1].1 - contour[i].1);
    dx.spec_mul(dx).spec_add(dy.spec_mul(dy)).spec_sqrt()
}

/// The sum of the steps of a contour is that of the steps before the last one, and
/// the last one.
pub proof fn law_step_lengths_add_up(contour: Seq<(i32, i32)>, k: int)
    requires
        0 <= k,
    ensures
        simplify::step_sum(contour, 0).bits == 0,
        simplify::step_sum(contour, k + 1) == simplify::step_sum(contour, k).spec_add(
            step_length(contour, k),
        ),
{
}

/// A contour has a jump if and only if it has at least four points, and a step that
/// is longer than 6 and longer than 4.5 times the average step.
pub proof fn law_jump_is_a_long_step(contour: Seq<(i32, i32)>)
    ensures
        simplify::has_jump(contour) <==> contour.len() >= 4 && exists|i: int|
            0 <= i < contour.len() - 1 && (F32 { bits: LONG_STEP }).spec_lt(
                #[trigger] step_length(contour, i),
            ) && simplify::step_sum(contour, contour.len() - 1).spec_div(
                F32::spec_from_int(contour.len() - 1),
            ).spec_mul(F32 { bits: JUMP_FACTOR }).spec_lt(step_length(contour, i)),
{
    let k = contour.len() - 1;
    if contour.len() >= 4 {
        let longest = simplify::longest_step(contour, k);
        let average = simplify::step_sum(contour, k).spec_div(F32::spec_from_int(k));
        let limit = average.spec_mul(F32 { bits: JUMP_FACTOR });
        let m = lemma_longest_step(contour, k);
        float_laws::law_zero_is_zero(F32 { bits: 0 });
        assert((F32 { bits: LONG_STEP }).value() >= 0) by {
            float_laws::law_not_negative(F32 { bits: LONG_STEP });
        }
        reveal(F32::spec_lt);
        if simplify::has_jump(contour) {
            assert(longest == step_length(contour, m));
        }
        assert forall|i: int|
            0 <= i < k && (F32 { bits: LONG_STEP }).spec_lt(#[trigger] step_length(contour, i))
                && limit.spec_lt(step_length(contour, i)) implies simplify::has_jump(contour) by {
            lemma_longest_is_most(contour, k, i);
        }
    }
}

proof fn lemma_longest_step(contour: Seq<(i32, i32)>, k: int) -> (m: int)
    requires
        0 <= k < contour.len(),
    ensures
        !simplify::longest_step(contour, k).nan(),
        simplify::longest_step(contour, k).bits != 0 ==> 0 <= m < k && simplify::longest_step(
            contour,
            k,
        ) == step_length(contour, m),
    decreases k,
{
    reveal(F32::spec_lt);
    if k <= 0 {
        0
    } else {
        let m = lemma_longest_step(contour, k - 1);
        if simplify::longest_step(contour, k - 1).spec_lt(step_length(contour, k - 1)) {
            k - 1
        } else {
            m
        }
    }
}

proof fn lemma_longest_is_most(contour: Seq<(i32, i32)>, k: int, i: int)
    requires
        0 <= i < k < contour.len(),
    ensures
        !simplify::longest_step(contour, k).nan(),
        !simplify::longest_step(contour, k).spec_lt(step_length(contour, i)),
    decreases k,
{
    reveal(F32::spec_lt);
    let m = lemma_longest_step(contour, k - 1);
    if i < k - 1 {
        lemma_longest_is_most(contour, k - 1, i);
    }
}

} // verus!
