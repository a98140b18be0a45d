//! Laws on polygons with floating point corners: their hulls, their area, and the
//! pieces they are cut into.

use crate::float::F32;
use crate::polygon;
use crate::polygon::LARGEST;
use crate::polygon::RIGHT_TURN;
use crate::polygon::SAME_POINT;
use crate::polygon_laws;
use crate::simplify::HALF;
use crate::vec2::Vec2;
use crate::vec2::NO_DIRECTION;
use vstd::prelude::*;

verus! {

// ---- hulls ----

/// How the way from `o` over `a` to `b` turns at `a`: positive to the left.
pub open spec fn turn(o: Vec2, a: Vec2, b: Vec2) -> F32 {
    a.x.spec_sub(o.x).spec_mul(b.y.spec_sub(o.y)).spec_sub(
        a.y.spec_sub(o.y).spec_mul(b.x.spec_sub(o.x)),
    )
}

/// `kept` are places in `s`, in order.
pub open spec fn in_order(s: Seq<Vec2>, kept: Seq<int>) -> bool {
    &&& forall|k: int| 0 <= k < kept.len() ==> 0 <= #[trigger] kept[k] < s.len()
    &&& forall|k: int, m: int|
        0 <= k < m < kept.len() ==> #[trigger] kept[k] < #[trigger] kept[m]
}

/// The way through the kept points turns left everywhere.
pub open spec fn bends_left(s: Seq<Vec2>, kept: Seq<int>) -> bool {
    forall|k: int|
        #![trigger kept[k]]
        0 <= k && k + 2 < kept.len() ==> !turn(
            s[kept[k]],
            s[kept[k + 1]],
            s[kept[k + 2]],
        ).spec_le(F32 { bits: 0 })
}

/// There are points before and after the point `i` between which it does not turn
/// left.
pub open spec fn dispensable(s: Seq<Vec2>, i: int) -> bool {
    exists|a: int, b: int|
        #![trigger s[a], s[b]]
        0 <= a < i < b < s.len() && turn(s[a], s[i], s[b]).spec_le(F32 { bits: 0 })
}

/// A chain goes through points in their order, from the first to the last. It turns
/// left at each of its points, and each point that it leaves out is one at which
/// the way from a point before to a point after does not turn left. Returned are
/// the places of the points of the chain.
pub proof fn law_chain_turns_left(s: Seq<Vec2>) -> (kept: Seq<int>)
    requires
        s.len() >= 1,
    ensures
        kept.len() == polygon::chain_of(s).len(),
        kept.len() >= 1,
        in_order(s, kept),
        kept[0] == 0,
        kept.last() == s.len() - 1,
        forall|k: int| 0 <= k < kept.len() ==> polygon::chain_of(s)[k] == s[#[trigger] kept[k]],
        bends_left(s, kept),
        forall|i: int| 0 <= i < s.len() && !kept.contains(i) ==> #[trigger] dispensable(s, i),
    decreases s.len(),
{
    let rest = s.drop_last();
    let n = s.len() as int;
    if n == 1 {
        reveal_with_fuel(polygon::chain_of, 2);
        reveal_with_fuel(polygon::extend_chain, 2);
        assert(rest.len() == 0);
        let kept = seq![0int];
        assert(polygon::chain_of(s) =~= seq![s.last()]);
        assert forall|i: int| 0 <= i < s.len() && !kept.contains(i) implies #[trigger] dispensable(
            s,
            i,
        ) by {
            assert(kept[0] == i);
        }
        kept
    } else {
        let before = law_chain_turns_left(rest);
        assert(in_order(s, before));
        assert forall|k: int| 0 <= k < before.len() implies polygon::chain_of(rest)[k]
            == s[#[trigger] before[k]] by {
            assert(rest[before[k]] == s[before[k]]);
        }
        assert(bends_left(s, before)) by {
            assert forall|k: int|
                #![trigger before[k]]
                0 <= k && k + 2 < before.len() implies !turn(
                s[before[k]],
                s[before[k + 1]],
                s[before[k + 2]],
            ).spec_le(F32 { bits: 0 }) by {
                assert(rest[before[k]] == s[before[k]]);
                assert(rest[before[k + 1]] == s[before[k + 1]]);
                assert(rest[before[k + 2]] == s[before[k + 2]]);
            }
        }
        assert forall|i: int| 0 <= i < n - 1 && !before.contains(i) implies #[trigger] dispensable(
            s,
            i,
        ) by {
            assert(dispensable(rest, i));
            let (a, b) = choose|a: int, b: int|
                #![trigger rest[a], rest[b]]
                0 <= a < i < b < rest.len() && turn(rest[a], rest[i], rest[b]).spec_le(
                    F32 { bits: 0 },
                );
            assert(turn(s[a], s[i], s[b]).spec_le(F32 { bits: 0 }));
        }
        lemma_extend(s, polygon::chain_of(rest), before)
    }
}

proof fn lemma_extend(s: Seq<Vec2>, chain: Seq<Vec2>, before: Seq<int>) -> (kept: Seq<int>)
    requires
        s.len() >= 2,
        before.len() == chain.len(),
        before.len() >= 1,
        in_order(s, before),
        before[0] == 0,
        before.last() < s.len() - 1,
        forall|k: int| 0 <= k < before.len() ==> chain[k] == s[#[trigger] before[k]],
        bends_left(s, before),
        forall|i: int|
            0 <= i < s.len() - 1 && !before.contains(i) ==> #[trigger] dispensable(s, i),
    ensures
        kept.len() == polygon::extend_chain(chain, s.last()).len(),
        kept.len() >= 1,
        in_order(s, kept),
        kept[0] == 0,
        kept.last() == s.len() - 1,
        forall|k: int|
            0 <= k < kept.len() ==> polygon::extend_chain(chain, s.last())[k]
                == s[#[trigger] kept[k]],
        bends_left(s, kept),
        forall|i: int| 0 <= i < s.len() && !kept.contains(i) ==> #[trigger] dispensable(s, i),
    decreases chain.len(),
{
    let p = s.last();
    let n = s.len() as int;
    let m = chain.len() as int;
    assert(before.last() == before[m - 1]);
    if m >= 2 && polygon::turn(chain[m - 2], chain[m - 1], p).spec_le(F32 { bits: 0 }) {
        let fewer = before.drop_last();
        assert(in_order(s, fewer));
        assert forall|k: int| 0 <= k < fewer.len() implies chain.drop_last()[k]
            == s[#[trigger] fewer[k]] by {
            assert(before[k] == fewer[k]);
        }
        assert(bends_left(s, fewer)) by {
            assert forall|k: int|
                #![trigger fewer[k]]
                0 <= k && k + 2 < fewer.len() implies !turn(
                s[fewer[k]],
                s[fewer[k + 1]],
                s[fewer[k + 2]],
            ).spec_le(F32 { bits: 0 }) by {
                assert(before[k] == fewer[k]);
            }
        }
        assert forall|i: int| 0 <= i < n - 1 && !fewer.contains(i) implies #[trigger] dispensable(
            s,
            i,
        ) by {
            if before.contains(i) {
                let k = choose|k: int| 0 <= k < before.len() && before[k] == i;
                if k < m - 1 {
                    assert(fewer[k] == i);
                }
                assert(k == m - 1);
                let (a, b) = (before[m - 2], n - 1);
                assert(a < i);
                assert(turn(s[a], s[i], s[b]).spec_le(F32 { bits: 0 }));
            }
        }
        assert(fewer.last() == before[m - 2]);
        lemma_extend(s, chain.drop_last(), fewer)
    } else {
        let kept = before.push(n - 1);
        assert forall|k: int| 0 <= k < kept.len() implies 0 <= #[trigger] kept[k] < s.len()
            && polygon::extend_chain(chain, p)[k] == s[kept[k]] by {
            if k < m {
                assert(before[k] == kept[k]);
            }
        }
        assert forall|k: int, j: int| 0 <= k < j < kept.len() implies #[trigger] kept[k]
            < #[trigger] kept[j] by {
            assert(before[k] == kept[k]);
            if j < m {
                assert(before[j] == kept[j]);
            } else if k < m - 1 {
                assert(before[k] < before[m - 1]);
            }
        }
        assert forall|k: int|
            #![trigger kept[k]]
            0 <= k && k + 2 < kept.len() implies !turn(
            s[kept[k]],
            s[kept[k + 1]],
            s[kept[k + 2]],
        ).spec_le(F32 { bits: 0 }) by {
            assert(before[k] == kept[k]);
            assert(before[k + 1] == kept[k + 1]);
            if k + 2 < m {
                assert(before[k + 2] == kept[k + 2]);
            }
        }
        assert forall|i: int| 0 <= i < n && !kept.contains(i) implies #[trigger] dispensable(
            s,
            i,
        ) by {
            if i == n - 1 {
                assert(kept[m] == i);
            }
            if before.contains(i) {
                let k = choose|k: int| 0 <= k < before.len() && before[k] == i;
                assert(kept[k] == i);
            }
        }
        kept
    }
}

/// The hull of at least three different points is the chain through them in order,
/// from the leftmost one, and the chain back. Fewer points are their own hull.
pub proof fn law_hull_is_two_chains(points: Seq<Vec2>)
    ensures
        points.len() < 3 ==> polygon::hull(points) == points,
        points.len() >= 3 ==> {
            let s = polygon::distinct(polygon::sorted(points));
            if s.len() < 3 {
                polygon::hull(points) == s
            } else {
                polygon::hull(points) == polygon::chain_of(s).drop_last() + polygon::chain_of(
                    s.reverse(),
                ).drop_last()
            }
        },
{
}

/// Sorted points are ordered from left to right, and those with the same `x` by
/// `y`.
pub proof fn law_sorted_from_left_to_right(points: Seq<Vec2>, i: int, j: int)
    requires
        forall|k: int|
            0 <= k < points.len() ==> !(#[trigger] points[k]).x.nan() && !points[k].y.nan(),
        0 <= i < j < polygon::sorted(points).len(),
    ensures
        ({
            let a = polygon::sorted(points)[i];
            let b = polygon::sorted(points)[j];
            a.x.value() < b.x.value() || (a.x.value() == b.x.value() && a.y.value() <= b.y.value())
        }),
{
    assert forall|k: int| 0 <= k < points.len() implies polygon_laws::numeric(
        #[trigger] points[k],
    ) by {}
    polygon_laws::law_sorting_orders(points);
    polygon_laws::lemma_sorted_selects(points, i);
    polygon_laws::lemma_sorted_selects(points, j);
    let s = polygon::sorted(points);
    assert(!polygon::precedes(s[j], s[i]));
    let k = choose|k: int| 0 <= k < points.len() && points[k] == s[i];
    let m = choose|m: int| 0 <= m < points.len() && points[m] == s[j];
    assert(!points[k].x.nan() && !points[m].x.nan());
    reveal(F32::spec_lt);
}

/// Of points that are the same, to less than 1e-4 in both coordinates, as the last
/// one kept before them, only that one is kept.
pub proof fn law_same_points_are_kept_once(points: Seq<Vec2>, p: Vec2)
    ensures
        polygon::distinct(Seq::empty()).len() == 0,
        ({
            let kept = polygon::distinct(points);
            let limit = F32 { bits: SAME_POINT };
            if kept.len() > 0 && p.x.spec_sub(kept.last().x).spec_abs().spec_lt(limit)
                && p.y.spec_sub(kept.last().y).spec_abs().spec_lt(limit) {
                polygon::distinct(points.push(p)) == kept
            } else {
                polygon::distinct(points.push(p)) == kept.push(p)
            }
        }),
{
    assert(points.push(p).drop_last() =~= points);
}

// ---- area ----

/// Every edge counts in the area: each adds the cross product of its ends, and the
/// last edge leads back to the first corner. The area is half of the sum, without
/// its sign.
pub proof fn law_every_edge_counts_in_area(points: Seq<Vec2>, k: int)
    requires
        0 <= k < points.len(),
    ensures
        points.len() < 3 ==> polygon::area(points).bits == 0,
        points.len() >= 3 ==> polygon::area(points) == polygon::twice_area(
            points,
            points.len() as int,
        ).spec_abs().spec_mul(F32 { bits: HALF }),
        polygon::twice_area(points, 0).bits == 0,
        ({
            let a = points[k];
            let b = if k + 1 < points.len() {
                points[k + 1]
            } else {
                points[0]
            };
            polygon::twice_area(points, k + 1) == polygon::twice_area(points, k).spec_add(
                a.x.spec_mul(b.y).spec_sub(a.y.spec_mul(b.x)),
            )
        }),
{
    let n = points.len() as int;
    if k + 1 < n {
        vstd::arithmetic::div_mod::lemma_small_mod((k + 1) as nat, n as nat);
    } else {
        vstd::arithmetic::div_mod::lemma_mod_self_0(n);
    }
}

// ---- corners ----

/// The corner after the corner `i`, the first one after the last.
pub open spec fn after(n: int, i: int) -> int {
    if i == n - 1 {
        0
    } else {
        i + 1
    }
}

/// The corner before the corner `i`, the last one before the first.
pub open spec fn before(n: int, i: int) -> int {
    if i == 0 {
        n - 1
    } else {
        i - 1
    }
}

/// How a polygon turns at the corner `i`: positive to the left.
pub open spec fn bend(polygon: Seq<Vec2>, i: int) -> F32 {
    let n = polygon.len() as int;
    let p = polygon[before(n, i)];
    let q = polygon[i];
    let r = polygon[after(n, i)];
    q.x.spec_sub(p.x).spec_mul(r.y.spec_sub(q.y)).spec_sub(
        q.y.spec_sub(p.y).spec_mul(r.x.spec_sub(q.x)),
    )
}

proof fn lemma_around(n: int, i: int)
    requires
        0 <= i < n,
    ensures
        (i + 1) % n == after(n, i),
        (i + n - 1) % n == before(n, i),
        (i + 2) % n == after(n, after(n, i)),
{
    vstd::arithmetic::div_mod::lemma_mod_add_multiples_vanish(i + 1 - n, n);
    vstd::arithmetic::div_mod::lemma_mod_add_multiples_vanish(i + 2 - n, n);
    vstd::arithmetic::div_mod::lemma_mod_add_multiples_vanish(i - 1, n);
    if i + 1 < n {
        vstd::arithmetic::div_mod::lemma_small_mod((i + 1) as nat, n as nat);
    } else {
        vstd::arithmetic::div_mod::lemma_small_mod(0, n as nat);
    }
    if i + 2 < n {
        vstd::arithmetic::div_mod::lemma_small_mod((i + 2) as nat, n as nat);
    } else if n == 1 {
        vstd::arithmetic::div_mod::lemma_mod_multiples_basic(2, 1);
    } else {
        vstd::arithmetic::div_mod::lemma_small_mod((i + 2 - n) as nat, n as nat);
    }
    if i > 0 {
        vstd::arithmetic::div_mod::lemma_small_mod((i - 1) as nat, n as nat);
    } else {
        vstd::arithmetic::div_mod::lemma_small_mod((n - 1) as nat, n as nat);
    }
}

proof fn lemma_bend(polygon: Seq<Vec2>, i: int)
    requires
        polygon.len() >= 3,
        0 <= i < polygon.len(),
    ensures
        polygon::corner_turn(polygon, i) == bend(polygon, after(polygon.len() as int, i)),
{
    let n = polygon.len() as int;
    lemma_around(n, i);
    lemma_around(n, after(n, i));
    assert(before(n, after(n, i)) == i);
}

/// A polygon is convex unless it turns left at one of its corners and right at
/// another, by more than 1e-8.
pub proof fn law_convex_turns_to_one_side(polygon: Seq<Vec2>)
    requires
        polygon.len() >= 3,
    ensures
        polygon::convex(polygon) <==> !((exists|i: int|
            0 <= i < polygon.len() && (F32 { bits: NO_DIRECTION }).spec_lt(
                #[trigger] bend(polygon, i),
            )) && (exists|i: int|
            0 <= i < polygon.len() && (#[trigger] bend(polygon, i)).spec_lt(
                F32 { bits: RIGHT_TURN },
            ))),
{
    let n = polygon.len() as int;
    assert forall|i: int| 0 <= i < n implies #[trigger] bend(polygon, i) == polygon::corner_turn(
        polygon,
        before(n, i),
    ) by {
        lemma_bend(polygon, before(n, i));
        assert(after(n, before(n, i)) == i);
    }
    assert forall|i: int| 0 <= i < n implies #[trigger] polygon::turns_left(polygon, i) == (F32 {
        bits: NO_DIRECTION,
    }).spec_lt(bend(polygon, after(n, i))) by {
        lemma_bend(polygon, i);
    }
    assert forall|i: int| 0 <= i < n implies #[trigger] polygon::turns_right(polygon, i) == bend(
        polygon,
        after(n, i),
    ).spec_lt(F32 { bits: RIGHT_TURN }) by {
        lemma_bend(polygon, i);
    }
    if exists|i: int|
        0 <= i < n && (F32 { bits: NO_DIRECTION }).spec_lt(#[trigger] bend(polygon, i)) {
        let i = choose|i: int|
            0 <= i < n && (F32 { bits: NO_DIRECTION }).spec_lt(#[trigger] bend(polygon, i));
        assert(polygon::turns_left(polygon, before(n, i)));
    }
    if exists|i: int|
        0 <= i < n && (#[trigger] bend(polygon, i)).spec_lt(F32 { bits: RIGHT_TURN }) {
        let i = choose|i: int|
            0 <= i < n && (#[trigger] bend(polygon, i)).spec_lt(F32 { bits: RIGHT_TURN });
        assert(polygon::turns_right(polygon, before(n, i)));
    }
}

/// A corner is reflex if and only if the polygon turns right at it, by more than
/// 1e-8.
pub proof fn law_reflex_corner_turns_right(polygon: Seq<Vec2>, i: int)
    requires
        0 <= i < polygon.len(),
    ensures
        polygon::reflex(polygon, i) <==> bend(polygon, i).spec_lt(F32 { bits: RIGHT_TURN }),
{
    lemma_around(polygon.len() as int, i);
}

// ---- inside ----

/// The edge between `a` and `b` is met to the right of `p`: one of them is below
/// `p` and the other one is not, and at the height of `p` the edge is to the right
/// of it.
pub open spec fn met(p: Vec2, a: Vec2, b: Vec2) -> bool {
    let x = b.x.spec_sub(a.x).spec_mul(p.y.spec_sub(a.y)).spec_div(b.y.spec_sub(a.y)).spec_add(a.x);
    (p.y.spec_lt(a.y) <==> !p.y.spec_lt(b.y)) && p.x.spec_lt(x)
}

/// A point changes sides with every edge that is met to the right of it: it is
/// inside of a polygon if these are odd in number.
pub proof fn law_point_is_inside_by_crossings(p: Vec2, poly: Seq<Vec2>, k: int)
    requires
        0 <= k < poly.len(),
    ensures
        !polygon::odd(p, poly, 0),
        polygon::odd(p, poly, k + 1) <==> (polygon::odd(p, poly, k) <==> !met(
            p,
            poly[k],
            poly[before(poly.len() as int, k)],
        )),
{
}

/// Two corners are joined by a diagonal if and only if the point in the middle
/// between them is inside.
pub proof fn law_diagonal_has_its_middle_inside(polygon: Seq<Vec2>, i: int, j: int, middle: Vec2)
    requires
        middle.x == polygon[i].x.spec_add(polygon[j].x).spec_mul(F32 { bits: HALF }),
        middle.y == polygon[i].y.spec_add(polygon[j].y).spec_mul(F32 { bits: HALF }),
    ensures
        polygon::diagonal(polygon, i, j) <==> polygon::odd(middle, polygon, polygon.len() as int),
{
}

// ---- cuts ----

/// A cut gives both parts the corners that it joins: one part goes from the first
/// to the second of them, the other from the second one on around to the first.
pub proof fn law_cut_parts_go_around(polygon: Seq<Vec2>, i: int, j: int, k: int)
    requires
        0 <= i < j < polygon.len(),
    ensures
        ({
            let n = polygon.len() as int;
            let (a, b) = polygon::split(polygon, i, j);
            &&& a.len() == j - i + 1
            &&& b.len() == n - (j - i) + 1
            &&& 0 <= k < a.len() ==> a[k] == polygon[i + k]
            &&& 0 <= k < n - j ==> b[k] == polygon[j + k]
            &&& n - j <= k < b.len() ==> b[k] == polygon[k - (n - j)]
        }),
        polygon::split(polygon, j, i) == polygon::split(polygon, i, j),
{
}

/// The number of all corners of polygons.
pub open spec fn corner_count(polygons: Seq<Seq<Vec2>>) -> int
    decreases polygons.len(),
{
    if polygons.len() == 0 {
        0
    } else {
        corner_count(polygons.drop_last()) + polygons.last().len()
    }
}

proof fn lemma_corner_count(a: Seq<Seq<Vec2>>, b: Seq<Seq<Vec2>>)
    ensures
        corner_count(a + b) == corner_count(a) + corner_count(b),
    decreases b.len(),
{
    if b.len() == 0 {
        assert(a + b =~= a);
    } else {
        assert((a + b).drop_last() =~= a + b.drop_last());
        lemma_corner_count(a, b.drop_last());
    }
}

/// No corner gets lost, and none is added but by cuts, each of which adds two: the
/// pieces have as many corners together as the polygon, and two more for each piece
/// after the first.
pub proof fn law_cuts_lose_no_corner(polygon: Seq<Vec2>)
    requires
        polygon.len() >= 3,
    ensures
        corner_count(polygon::pieces(polygon)) == polygon.len() + 2 * (polygon::pieces(
            polygon,
        ).len() - 1),
    decreases polygon.len(),
{
    reveal_with_fuel(corner_count, 2);
    if !polygon::convex(polygon) {
        if let Some((i, j)) = polygon::first_cut(polygon, 0) {
            polygon::lemma_first_cut(polygon, 0);
            polygon::lemma_split_shrinks(polygon, i, j);
            let (a, b) = polygon::split(polygon, i, j);
            law_cuts_lose_no_corner(a);
            law_cuts_lose_no_corner(b);
            lemma_corner_count(polygon::pieces(a), polygon::pieces(b));
        }
    }
}

/// A cut can be made between two corners that are not next to each other and are
/// joined by a diagonal.
pub open spec fn can_cut(polygon: Seq<Vec2>, i: int, j: int) -> bool {
    let n = polygon.len() as int;
    j != i && j != before(n, i) && j != after(n, i) && polygon::diagonal(polygon, i, j)
}

/// The square of the distance of two corners.
pub open spec fn gap_sq(polygon: Seq<Vec2>, i: int, j: int) -> F32 {
    let x = polygon[i].x.spec_sub(polygon[j].x);
    let y = polygon[i].y.spec_sub(polygon[j].y);
    x.spec_mul(x).spec_add(y.spec_mul(y))
}

/// The corner `j` is the nearest one to which a cut from the corner `i` can be
/// made; the first of several.
pub open spec fn is_nearest(polygon: Seq<Vec2>, i: int, j: int) -> bool {
    &&& 0 <= j < polygon.len()
    &&& can_cut(polygon, i, j)
    &&& gap_sq(polygon, i, j).spec_lt(F32 { bits: LARGEST })
    &&& forall|k: int|
        0 <= k < polygon.len() && #[trigger] can_cut(polygon, i, k) ==> !gap_sq(
            polygon,
            i,
            k,
        ).spec_lt(gap_sq(polygon, i, j))
    &&& forall|k: int|
        0 <= k < j && #[trigger] can_cut(polygon, i, k) ==> !gap_sq(polygon, i, k).spec_le(
            gap_sq(polygon, i, j),
        )
}

/// A polygon that is not convex is cut at the first of its reflex corners from
/// which a cut can be made, to the nearest corner, and both parts are cut on. One
/// that is convex stays whole, and so does one that cannot be cut. What has fewer
/// than three corners has no piece.
pub proof fn law_cut_is_first_and_nearest(polygon: Seq<Vec2>, i: int, j: int)
    ensures
        polygon.len() < 3 ==> polygon::pieces(polygon).len() == 0,
        polygon.len() >= 3 && polygon::convex(polygon) ==> polygon::pieces(polygon)
            == seq![polygon],
        polygon.len() >= 3 && (forall|k: int, m: int|
            0 <= k < polygon.len() && 0 <= m < polygon.len() && polygon::reflex(polygon, k)
                ==> !#[trigger] can_cut(polygon, k, m)) ==> polygon::pieces(polygon)
            == seq![polygon],
        polygon.len() >= 3 && !polygon::convex(polygon) && 0 <= i < polygon.len()
            && polygon::reflex(polygon, i)
            && is_nearest(polygon, i, j) && (forall|k: int, m: int|
            0 <= k < i && 0 <= m < polygon.len() && polygon::reflex(polygon, k)
                ==> !#[trigger] can_cut(polygon, k, m)) ==> polygon::pieces(polygon)
            == polygon::pieces(polygon::split(polygon, i, j).0) + polygon::pieces(
            polygon::split(polygon, i, j).1,
        ),
{
    let n = polygon.len() as int;
    if forall|k: int, m: int|
        0 <= k < polygon.len() && 0 <= m < polygon.len() && polygon::reflex(polygon, k)
            ==> !#[trigger] can_cut(polygon, k, m) {
        lemma_no_cut(polygon, 0, n);
    }
    if 0 <= i < n && polygon::reflex(polygon, i) && is_nearest(polygon, i, j) && (forall|
        k: int,
        m: int,
    |
        0 <= k < i && 0 <= m < polygon.len() && polygon::reflex(polygon, k) ==> !#[trigger] can_cut(
            polygon,
            k,
            m,
        )) {
        lemma_no_cut(polygon, 0, i);
        lemma_nearest_up_to(polygon, i, j, n);
    }
}

proof fn lemma_can_cut(polygon: Seq<Vec2>, i: int, j: int)
    requires
        0 <= i < polygon.len(),
    ensures
        polygon::cuttable(polygon, i, j) == can_cut(polygon, i, j),
{
    lemma_around(polygon.len() as int, i);
}

proof fn lemma_no_nearest(polygon: Seq<Vec2>, i: int, k: int)
    requires
        0 <= i < polygon.len(),
        k <= polygon.len(),
        forall|m: int| 0 <= m < k ==> !#[trigger] can_cut(polygon, i, m),
    ensures
        polygon::nearest_cut(polygon, i, k).0 is None,
        polygon::nearest_cut(polygon, i, k).1 == (F32 { bits: LARGEST }),
    decreases k,
{
    if k > 0 {
        lemma_no_nearest(polygon, i, k - 1);
        lemma_can_cut(polygon, i, k - 1);
        assert(!can_cut(polygon, i, k - 1));
    }
}

/// Where no cut can be made from the corners `a` to `b - 1`, the first cut is
/// looked for from the corner `b` on.
proof fn lemma_no_cut(polygon: Seq<Vec2>, a: int, b: int)
    requires
        0 <= a <= b <= polygon.len(),
        forall|k: int, m: int|
            a <= k < b && 0 <= m < polygon.len() && polygon::reflex(polygon, k)
                ==> !#[trigger] can_cut(polygon, k, m),
    ensures
        polygon::first_cut(polygon, a) == polygon::first_cut(polygon, b),
    decreases b - a,
{
    if a < b {
        if polygon::reflex(polygon, a) {
            assert forall|m: int| 0 <= m < polygon.len() implies !#[trigger] can_cut(
                polygon,
                a,
                m,
            ) by {}
            lemma_no_nearest(polygon, a, polygon.len() as int);
        }
        lemma_no_cut(polygon, a + 1, b);
    }
}

proof fn lemma_nearest_up_to(polygon: Seq<Vec2>, i: int, j: int, k: int)
    requires
        0 <= i < polygon.len(),
        0 <= k <= polygon.len(),
        is_nearest(polygon, i, j),
    ensures
        k > j ==> polygon::nearest_cut(polygon, i, k) == (Some(j), gap_sq(polygon, i, j)),
        k <= j ==> gap_sq(polygon, i, j).spec_lt(polygon::nearest_cut(polygon, i, k).1),
    decreases k,
{
    reveal(F32::spec_lt);
    reveal(F32::spec_le);
    if k > 0 {
        lemma_nearest_up_to(polygon, i, j, k - 1);
        lemma_can_cut(polygon, i, k - 1);
        if k - 1 < j && can_cut(polygon, i, k - 1) {
            assert(!gap_sq(polygon, i, k - 1).spec_le(gap_sq(polygon, i, j)));
        }
        if k - 1 > j && can_cut(polygon, i, k - 1) {
            assert(!gap_sq(polygon, i, k - 1).spec_lt(gap_sq(polygon, i, j)));
        }
    }
}

} // verus!
