//! What the hull of integer points is: a convex polygon of some of the points
//! that has all of them inside.

use crate::hull;
use vstd::prelude::*;

verus! {

/// A vector that points to the right, or straight up.
spec fn forward(x: int, y: int) -> bool {
    x > 0 || (x == 0 && y > 0)
}

/// `b` comes after `a` in the order of pairs (`sign` 1) or in its reverse
/// (`sign` -1).
spec fn ahead(sign: int, a: (i32, i32), b: (i32, i32)) -> bool {
    forward(sign * (b.0 - a.0), sign * (b.1 - a.1))
}

/// Forward vectors are ordered by angle.
proof fn lemma_angles(ux: int, uy: int, vx: int, vy: int, tx: int, ty: int)
    requires
        forward(ux, uy),
        forward(vx, vy),
        forward(tx, ty),
        ux * vy - uy * vx >= 0,
        vx * ty - vy * tx >= 0,
    ensures
        ux * ty - uy * tx >= 0,
{
    let uv = ux * vy - uy * vx;
    let vt = vx * ty - vy * tx;
    let ut = ux * ty - uy * tx;
    if vx > 0 {
        assert(ut * vx == uv * tx + vt * ux) by (nonlinear_arith)
            requires
                uv == ux * vy - uy * vx,
                vt == vx * ty - vy * tx,
                ut == ux * ty - uy * tx,
        ;
        assert(uv * tx >= 0) by (nonlinear_arith)
            requires
                uv >= 0,
                tx >= 0,
        ;
        assert(vt * ux >= 0) by (nonlinear_arith)
            requires
                vt >= 0,
                ux >= 0,
        ;
        assert(ut >= 0) by (nonlinear_arith)
            requires
                ut * vx >= 0,
                vx > 0,
        ;
    } else {
        assert(tx == 0) by (nonlinear_arith)
            requires
                0 * ty - vy * tx >= 0,
                vy > 0,
                tx >= 0,
        ;
        assert(ut >= 0) by (nonlinear_arith)
            requires
                ut == ux * ty - uy * 0,
                ux >= 0,
                ty > 0,
        ;
    }
}

/// With `a` left of the way from the origin to `p`, what is left of the way
/// from `a` to `p` and between them is left of it too.
proof fn lemma_detour(ax: int, ay: int, px: int, py: int, qx: int, qy: int)
    requires
        forward(ax, ay),
        forward(px - ax, py - ay),
        (qx == ax && qy == ay) || forward(qx - ax, qy - ay),
        forward(px - qx, py - qy),
        (px - ax) * (qy - ay) - (py - ay) * (qx - ax) >= 0,
        px * ay - py * ax >= 0,
    ensures
        px * qy - py * qx >= 0,
{
    let g = (px - ax) * (qy - ay) - (py - ay) * (qx - ax);
    let fa = px * ay - py * ax;
    let fq = px * qy - py * qx;
    if px > ax {
        let (k1, k2, k3) = (px * qy, px * ay, ax * qy);
        let (k4, k5, k6) = (py * qx, py * ax, ay * qx);
        assert(g == k1 - k2 - k3 - k4 + k5 + k6) by (nonlinear_arith)
            requires
                g == (px - ax) * (qy - ay) - (py - ay) * (qx - ax),
                k1 == px * qy,
                k2 == px * ay,
                k3 == ax * qy,
                k4 == py * qx,
                k5 == py * ax,
                k6 == ay * qx,
        ;
        assert(px * k3 == k1 * ax) by (nonlinear_arith)
            requires
                k1 == px * qy,
                k3 == ax * qy,
        ;
        assert(px * k6 == k2 * qx) by (nonlinear_arith)
            requires
                k2 == px * ay,
                k6 == ay * qx,
        ;
        assert(k5 * qx == k4 * ax) by (nonlinear_arith)
            requires
                k4 == py * qx,
                k5 == py * ax,
        ;
        assert(fq * (px - ax) == px * k1 - k1 * ax - px * k4 + k4 * ax) by (nonlinear_arith)
            requires
                fq == k1 - k4,
        ;
        assert(px * g == px * k1 - px * k2 - px * k3 - px * k4 + px * k5 + px * k6)
            by (nonlinear_arith)
            requires
                g == k1 - k2 - k3 - k4 + k5 + k6,
        ;
        assert(fa * (px - qx) == px * k2 - k2 * qx - px * k5 + k5 * qx) by (nonlinear_arith)
            requires
                fa == k2 - k5,
        ;
        assert(fq * (px - ax) == px * g + fa * (px - qx));
        assert(px * g >= 0) by (nonlinear_arith)
            requires
                px >= 0,
                g >= 0,
        ;
        assert(fa * (px - qx) >= 0) by (nonlinear_arith)
            requires
                fa >= 0,
                px - qx >= 0,
        ;
        assert(fq >= 0) by (nonlinear_arith)
            requires
                fq * (px - ax) >= 0,
                px - ax > 0,
        ;
    } else {
        assert(px == 0) by (nonlinear_arith)
            requires
                px * ay - py * px >= 0,
                py > ay,
                px >= 0,
        ;
        assert(fq == 0) by (nonlinear_arith)
            requires
                fq == px * qy - py * qx,
                px == 0,
                qx == 0,
        ;
    }
}

/// [`lemma_angles`] for points: `q` left of the turn at `b` on the way from `a`
/// to `c`, all in order.
proof fn lemma_angles_at(
    sign: int,
    a: (i32, i32),
    b: (i32, i32),
    c: (i32, i32),
    d: (i32, i32),
    e: (i32, i32),
    f: (i32, i32),
)
    requires
        sign == 1 || sign == -1,
        ahead(sign, a, b),
        ahead(sign, c, d),
        ahead(sign, e, f),
        (b.0 - a.0) * (d.1 - c.1) - (b.1 - a.1) * (d.0 - c.0) >= 0,
        (d.0 - c.0) * (f.1 - e.1) - (d.1 - c.1) * (f.0 - e.0) >= 0,
    ensures
        (b.0 - a.0) * (f.1 - e.1) - (b.1 - a.1) * (f.0 - e.0) >= 0,
{
    let (ux, uy) = (b.0 - a.0, b.1 - a.1);
    let (vx, vy) = (d.0 - c.0, d.1 - c.1);
    let (tx, ty) = (f.0 - e.0, f.1 - e.1);
    lemma_negated(ux, uy, vx, vy);
    lemma_negated(vx, vy, tx, ty);
    lemma_negated(ux, uy, tx, ty);
    if sign == 1 {
        lemma_angles(ux, uy, vx, vy, tx, ty);
    } else {
        lemma_angles(-ux, -uy, -vx, -vy, -tx, -ty);
    }
}

proof fn lemma_negated(ux: int, uy: int, vx: int, vy: int)
    ensures
        (-ux) * (-vy) - (-uy) * (-vx) == ux * vy - uy * vx,
        (-1) * ux == -ux,
        (-1) * uy == -uy,
        (-1) * vx == -vx,
        (-1) * vy == -vy,
{
    assert((-ux) * (-vy) - (-uy) * (-vx) == ux * vy - uy * vx) by (nonlinear_arith);
}

/// Moving the corner of a turn along its first side.
proof fn lemma_turn_shift(o: (i32, i32), a: (i32, i32), q: (i32, i32))
    ensures
        hull::cross(o, a, q) == (a.0 - o.0) * (q.1 - a.1) - (a.1 - o.1) * (q.0 - a.0),
        hull::cross(o, a, q) == (a.0 - q.0) * (a.1 - o.1) - (a.1 - q.1) * (a.0 - o.0),
        hull::cross(o, q, a) == -hull::cross(o, a, q),
        hull::cross(o, a, a) == 0,
        hull::cross(o, a, o) == 0,
{
    let (ux, uy) = (a.0 - o.0, a.1 - o.1);
    let (zx, zy) = (q.0 - a.0, q.1 - a.1);
    assert(ux * (uy + zy) - uy * (ux + zx) == ux * zy - uy * zx) by (nonlinear_arith);
    assert((-zx) * uy - (-zy) * ux == ux * zy - uy * zx) by (nonlinear_arith);
    assert((ux + zx) * uy - (uy + zy) * ux == -(ux * zy - uy * zx)) by (nonlinear_arith);
    assert(ux * uy - uy * ux == 0) by (nonlinear_arith);
    assert(ux * 0 - uy * 0 == 0) by (nonlinear_arith);
    assert(uy + zy == q.1 - o.1);
    assert(ux + zx == q.0 - o.0);
}

/// Points listed in the order of `sign`.
spec fn directed(sign: int, s: Seq<(i32, i32)>) -> bool {
    forall|i: int, j: int| 0 <= i < j < s.len() ==> ahead(sign, #[trigger] s[i], #[trigger] s[j])
}

/// The turn of the chain `c` at its point `i + 1`.
spec fn turn_at(c: Seq<(i32, i32)>, i: int) -> int {
    hull::cross(c[i], c[i + 1], c[i + 2])
}

/// On which side of the edge `i` of the chain `c` the point `q` is.
spec fn side(c: Seq<(i32, i32)>, i: int, q: (i32, i32)) -> int {
    hull::cross(c[i], c[i + 1], q)
}

spec fn turns_left(c: Seq<(i32, i32)>) -> bool {
    forall|i: int| 0 <= i < c.len() - 2 ==> #[trigger] turn_at(c, i) > 0
}

/// `q` is not right of any edge of the chain `c`.
spec fn left_of_edges(c: Seq<(i32, i32)>, q: (i32, i32)) -> bool {
    forall|i: int| 0 <= i < c.len() - 1 ==> #[trigger] side(c, i, q) >= 0
}

/// `c` is a chain below all of `seen` that starts with the first of them.
spec fn under(sign: int, c: Seq<(i32, i32)>, seen: Seq<(i32, i32)>) -> bool {
    &&& c.len() >= 1
    &&& seen.len() >= 1
    &&& directed(sign, c)
    &&& directed(sign, seen)
    &&& turns_left(c)
    &&& forall|i: int| 0 <= i < c.len() ==> seen.contains(#[trigger] c[i])
    &&& forall|j: int| 0 <= j < seen.len() ==> left_of_edges(c, #[trigger] seen[j])
    &&& c[0] == seen[0]
}

/// What comes from the last point of `c` on is not right of the way to `p`.
spec fn tail_left(sign: int, c: Seq<(i32, i32)>, seen: Seq<(i32, i32)>, p: (i32, i32)) -> bool {
    forall|j: int|
        #![trigger seen[j]]
        0 <= j < seen.len() && (seen[j] == c.last() || ahead(sign, c.last(), seen[j]))
            ==> hull::cross(c.last(), p, seen[j]) >= 0
}

proof fn lemma_ahead_total(sign: int, a: (i32, i32), b: (i32, i32))
    requires
        sign == 1 || sign == -1,
    ensures
        a == b || ahead(sign, a, b) || ahead(sign, b, a),
        !(ahead(sign, a, b) && ahead(sign, b, a)),
        !ahead(sign, a, a),
{
}

/// Dropping the last point of the chain when it is left of the way to `p`.
proof fn lemma_drop(sign: int, c: Seq<(i32, i32)>, seen: Seq<(i32, i32)>, p: (i32, i32))
    requires
        sign == 1 || sign == -1,
        under(sign, c, seen),
        directed(sign, seen.push(p)),
        tail_left(sign, c, seen, p),
        c.len() >= 2,
        hull::cross(c[c.len() - 2], c[c.len() - 1], p) <= 0,
    ensures
        under(sign, c.drop_last(), seen),
        tail_left(sign, c.drop_last(), seen, p),
{
    let n = c.len();
    let o = c[n - 2];
    let a = c[n - 1];
    let c1 = c.drop_last();
    assert(c1.last() == o);
    assert forall|j: int| 0 <= j < seen.len() implies left_of_edges(c1, #[trigger] seen[j]) by {
        let q = seen[j];
        assert(left_of_edges(c, q));
        assert forall|i: int| 0 <= i < c1.len() - 1 implies #[trigger] side(c1, i, q) >= 0 by {
            assert(c1[i] == c[i]);
            assert(side(c, i, q) == hull::cross(c[i], c[i + 1], q));
        }
    }
    assert forall|i: int| 0 <= i < c1.len() - 2 implies #[trigger] turn_at(c1, i) > 0 by {
        assert(c1[i] == c[i]);
        assert(turn_at(c, i) == hull::cross(c[i], c[i + 1], c[i + 2]));
    }
    assert(ahead(sign, c[n - 2], c[n - 1]));
    assert forall|j: int|
        #![trigger seen[j]]
        0 <= j < seen.len() && (seen[j] == o || ahead(sign, o, seen[j])) implies hull::cross(
        o,
        p,
        seen[j],
    ) >= 0 by {
        let q = seen[j];
        let m = seen.len();
        assert(seen.push(p)[j] == q && seen.push(p)[m as int] == p);
        assert(ahead(sign, q, p));
        assert(seen.contains(c[n - 1]));
        let ja = choose|ja: int| 0 <= ja < seen.len() && seen[ja] == a;
        assert(seen.push(p)[ja] == a);
        assert(ahead(sign, a, p));
        assert(ahead(sign, o, p)) by {
            assert(seen.contains(c[n - 2]));
            let jo = choose|jo: int| 0 <= jo < seen.len() && seen[jo] == o;
            assert(seen.push(p)[jo] == o);
        }
        lemma_turn_shift(o, a, p);
        lemma_turn_shift(o, p, q);
        lemma_ahead_total(sign, a, q);
        if q == o {
        } else if q == a || ahead(sign, a, q) {
            assert(hull::cross(a, p, q) >= 0);
            let (ax, ay) = (a.0 - o.0, a.1 - o.1);
            let (px, py) = (p.0 - o.0, p.1 - o.1);
            let (qx, qy) = (q.0 - o.0, q.1 - o.1);
            assert(px - ax == p.0 - a.0 && py - ay == p.1 - a.1);
            assert(qx - ax == q.0 - a.0 && qy - ay == q.1 - a.1);
            assert(px - qx == p.0 - q.0 && py - qy == p.1 - q.1);
            lemma_negated(px - ax, py - ay, qx - ax, qy - ay);
            lemma_negated(px, py, ax, ay);
            lemma_negated(px, py, qx, qy);
            lemma_negated(px - qx, py - qy, 0, 0);
            if sign == 1 {
                lemma_detour(ax, ay, px, py, qx, qy);
            } else {
                assert((-px - -ax) * (-qy - -ay) - (-py - -ay) * (-qx - -ax) == (px - ax) * (qy
                    - ay) - (py - ay) * (qx - ax)) by (nonlinear_arith);
                lemma_detour(-ax, -ay, -px, -py, -qx, -qy);
            }
        } else {
            // between o and a
            assert(left_of_edges(c, q));
            assert(side(c, n - 2, q) >= 0);
            lemma_angles_at(sign, o, p, o, a, o, q);
        }
    }
}

/// `p`, ahead of the whole chain and left of its last edge, is left of all of
/// its edges.
proof fn lemma_left_of_all(sign: int, c: Seq<(i32, i32)>, p: (i32, i32), i: int)
    requires
        sign == 1 || sign == -1,
        directed(sign, c),
        turns_left(c),
        forall|j: int| 0 <= j < c.len() ==> ahead(sign, #[trigger] c[j], p),
        c.len() >= 2,
        hull::cross(c[c.len() - 2], c[c.len() - 1], p) > 0,
        0 <= i < c.len() - 1,
    ensures
        hull::cross(c[i], c[i + 1], p) >= 0,
    decreases c.len() - i,
{
    if i < c.len() - 2 {
        lemma_left_of_all(sign, c, p, i + 1);
        assert(turn_at(c, i) > 0);
        lemma_turn_shift(c[i], c[i + 1], c[i + 2]);
        lemma_turn_shift(c[i], c[i + 1], p);
        assert(ahead(sign, c[i], c[i + 1]));
        assert(ahead(sign, c[i + 1], c[i + 2]));
        lemma_angles_at(sign, c[i], c[i + 1], c[i + 1], c[i + 2], c[i + 1], p);
    }
}

/// Appending `p` when the chain turns left to it.
proof fn lemma_append(sign: int, c: Seq<(i32, i32)>, seen: Seq<(i32, i32)>, p: (i32, i32))
    requires
        sign == 1 || sign == -1,
        under(sign, c, seen),
        directed(sign, seen.push(p)),
        tail_left(sign, c, seen, p),
        c.len() < 2 || hull::cross(c[c.len() - 2], c[c.len() - 1], p) > 0,
    ensures
        under(sign, c.push(p), seen.push(p)),
{
    let n = c.len();
    let a = c.last();
    let c1 = c.push(p);
    let all = seen.push(p);
    let m = seen.len();
    assert forall|j: int| 0 <= j < c.len() implies ahead(sign, #[trigger] c[j], p) by {
        assert(seen.contains(c[j]));
        let k = choose|k: int| 0 <= k < seen.len() && seen[k] == c[j];
        assert(all[k] == c[j] && all[m as int] == p);
    }
    assert(directed(sign, c1));
    assert forall|i: int| 0 <= i < c1.len() - 2 implies #[trigger] turn_at(c1, i) > 0 by {
        assert(c1[i] == c[i]);
        assert(turn_at(c, i) == hull::cross(c[i], c[i + 1], c[i + 2]));
    }
    assert forall|i: int| 0 <= i < c1.len() implies all.contains(#[trigger] c1[i]) by {
        if i < n {
            assert(seen.contains(c[i]));
            let k = choose|k: int| 0 <= k < seen.len() && seen[k] == c[i];
            assert(all[k] == c1[i]);
        } else {
            assert(all[m as int] == c1[i]);
        }
    }
    assert forall|j: int| 0 <= j < all.len() implies left_of_edges(c1, #[trigger] all[j]) by {
        let q = all[j];
        if j < m {
            assert(q == seen[j]);
            assert(left_of_edges(c, seen[j]));
        }
        assert forall|i: int| 0 <= i < c1.len() - 1 implies #[trigger] side(c1, i, q) >= 0 by {
            assert(c1[i] == c[i]);
            assert(side(c, i, q) == hull::cross(c[i], c[i + 1], q));
            lemma_turn_shift(a, p, q);
            if i < n - 1 {
                if j == m {
                    lemma_left_of_all(sign, c, p, i);
                }
            } else if j < m {
                lemma_ahead_total(sign, a, q);
                if ahead(sign, q, a) {
                    if n == 1 {
                        assert(a == seen[0]);
                        if j > 0 {
                            assert(ahead(sign, seen[0], seen[j]));
                        }
                    } else {
                        let o = c[n - 2];
                        assert(side(c, n - 2, q) >= 0);
                        lemma_turn_shift(o, a, q);
                        lemma_turn_shift(o, a, p);
                        assert(ahead(sign, c[n - 2], c[n - 1]));
                        lemma_angles_at(sign, q, a, o, a, a, p);
                        let (zx, zy) = (a.0 - q.0, a.1 - q.1);
                        let (wx, wy) = (p.0 - a.0, p.1 - a.1);
                        assert(wx * (-zy) - wy * (-zx) == zx * wy - zy * wx) by (nonlinear_arith);
                        assert(-zx == q.0 - a.0 && -zy == q.1 - a.1);
                    }
                }
            }
        }
    }
}

proof fn lemma_extend(sign: int, c: Seq<(i32, i32)>, seen: Seq<(i32, i32)>, p: (i32, i32))
    requires
        sign == 1 || sign == -1,
        under(sign, c, seen),
        directed(sign, seen.push(p)),
        tail_left(sign, c, seen, p),
    ensures
        under(sign, hull::extend_chain(c, p), seen.push(p)),
        hull::extend_chain(c, p).last() == p,
        hull::extend_chain(c, p).len() >= 2,
    decreases c.len(),
{
    if c.len() >= 2 && hull::cross(c[c.len() - 2], c[c.len() - 1], p) <= 0 {
        lemma_drop(sign, c, seen, p);
        lemma_extend(sign, c.drop_last(), seen, p);
    } else {
        lemma_append(sign, c, seen, p);
    }
}

/// The chain through points in order runs below all of them.
proof fn lemma_chain(sign: int, s: Seq<(i32, i32)>)
    requires
        sign == 1 || sign == -1,
        directed(sign, s),
        s.len() >= 1,
    ensures
        under(sign, hull::chain_of(s), s),
        hull::chain_of(s).last() == s.last(),
        s.len() >= 2 ==> hull::chain_of(s).len() >= 2,
    decreases s.len(),
{
    reveal_with_fuel(hull::chain_of, 2);
    reveal_with_fuel(hull::extend_chain, 2);
    if s.len() == 1 {
        assert(s.drop_last().len() == 0);
        assert(hull::chain_of(s) =~= seq![s[0]]);
        assert(s.contains(s[0]));
    } else {
        let seen = s.drop_last();
        let p = s.last();
        assert(seen.push(p) =~= s);
        assert forall|i: int, j: int| 0 <= i < j < seen.len() implies ahead(
            sign,
            #[trigger] seen[i],
            #[trigger] seen[j],
        ) by {
            assert(s[i] == seen[i] && s[j] == seen[j]);
        }
        lemma_chain(sign, seen);
        let c = hull::chain_of(seen);
        assert forall|j: int|
            #![trigger seen[j]]
            0 <= j < seen.len() && (seen[j] == c.last() || ahead(
                sign,
                c.last(),
                seen[j],
            )) implies hull::cross(c.last(), p, seen[j]) >= 0 by {
            lemma_ahead_total(sign, c.last(), seen[j]);
            if j < seen.len() - 1 {
                assert(ahead(sign, seen[j], seen[seen.len() - 1]));
            }
            lemma_turn_shift(c.last(), p, seen[j]);
        }
        lemma_extend(sign, c, seen, p);
    }
}

/// The chain of points listed in order, and the chain back.
proof fn lemma_both_chains(s: Seq<(i32, i32)>)
    requires
        hull::increasing(s),
        s.len() >= 2,
    ensures
        under(1, hull::chain_of(s), s),
        under(-1, hull::chain_of(s.reverse()), s.reverse()),
        hull::chain_of(s).last() == s.last(),
        hull::chain_of(s.reverse()).last() == s[0],
        hull::chain_of(s).len() >= 2,
        hull::chain_of(s.reverse()).len() >= 2,
{
    let t = s.reverse();
    assert forall|i: int, j: int| 0 <= i < j < s.len() implies ahead(
        1,
        #[trigger] s[i],
        #[trigger] s[j],
    ) by {
        assert(hull::before(s[i], s[j]));
    }
    assert forall|i: int, j: int| 0 <= i < j < t.len() implies ahead(
        -1,
        #[trigger] t[i],
        #[trigger] t[j],
    ) by {
        assert(hull::before(s[t.len() - 1 - j], s[t.len() - 1 - i]));
    }
    lemma_chain(1, s);
    lemma_chain(-1, t);
}

/// How the way from `o` over `a` to `b` turns at `a` is twice the area of the triangle,
/// positive where the way turns left.
pub proof fn law_turn_is_twice_the_area(o: (i32, i32), a: (i32, i32), b: (i32, i32))
    ensures
        hull::cross(o, a, b) == (a.0 - o.0) * (b.1 - o.1) - (a.1 - o.1) * (b.0 - o.0),
{
}

/// Every corner of the hull is one of the points.
pub proof fn law_hull_corners_are_points(points: Seq<(i32, i32)>, i: int)
    requires
        0 <= i < hull::hull(points).len(),
    ensures
        points.contains(hull::hull(points)[i]),
{
    let s = hull::in_order(points);
    hull::lemma_in_order_lists(points);
    let h = hull::hull(points);
    if s.len() >= 3 {
        lemma_both_chains(s);
        let lower = hull::chain_of(s);
        let upper = hull::chain_of(s.reverse());
        if i < lower.len() - 1 {
            assert(h[i] == lower[i]);
        } else {
            let k = i - (lower.len() - 1);
            assert(h[i] == upper[k]);
            assert(s.reverse().contains(upper[k]));
            let j = choose|j: int| 0 <= j < s.len() && s.reverse()[j] == upper[k];
            assert(s[s.len() - 1 - j] == upper[k]);
        }
    }
    assert(s.contains(h[i]));
}

/// No point is outside of the hull: none is to the right of any of its edges,
/// the edge from the last corner back to the first one among them. In
/// particular the hull is convex, its corners being points.
pub proof fn law_hull_contains_points(points: Seq<(i32, i32)>, i: int, p: (i32, i32))
    requires
        points.contains(p),
        0 <= i < hull::hull(points).len(),
    ensures
        ({
            let h = hull::hull(points);
            let next = if i + 1 < h.len() {
                h[i + 1]
            } else {
                h[0]
            };
            hull::cross(h[i], next, p) >= 0
        }),
{
    let s = hull::in_order(points);
    hull::lemma_in_order_lists(points);
    let h = hull::hull(points);
    assert(s.contains(p));
    let j = choose|j: int| 0 <= j < s.len() && s[j] == p;
    if s.len() >= 3 {
        lemma_both_chains(s);
        let lower = hull::chain_of(s);
        let upper = hull::chain_of(s.reverse());
        let n = lower.len() - 1;
        assert(left_of_edges(lower, s[j]));
        let r = s.reverse();
        assert(r[s.len() - 1 - j] == p);
        assert(left_of_edges(upper, r[s.len() - 1 - j]));
        if i < n {
            assert(side(lower, i, p) >= 0);
            assert(h[i] == lower[i]);
            if i + 1 < n {
                assert(h[i + 1] == lower[i + 1]);
            } else {
                assert(h[i + 1] == upper[0]);
            }
        } else {
            let k = i - n;
            assert(side(upper, k, p) >= 0);
            assert(h[i] == upper[k]);
            if k + 1 < upper.len() - 1 {
                assert(h[i + 1] == upper[k + 1]);
            } else {
                assert(h[0] == lower[0]);
            }
        }
    } else {
        lemma_turn_shift(h[i], p, p);
        if s.len() == 2 {
            lemma_turn_shift(s[0], s[1], p);
            lemma_turn_shift(s[1], s[0], p);
        } else {
            lemma_turn_shift(s[0], s[0], p);
        }
    }
}

/// The points are not all on one line.
pub open spec fn spans(points: Seq<(i32, i32)>) -> bool {
    exists|i: int, j: int, k: int|
        0 <= i < points.len() && 0 <= j < points.len() && 0 <= k < points.len() && hull::cross(
            #[trigger] points[i],
            #[trigger] points[j],
            #[trigger] points[k],
        ) != 0
}

/// The corner `i` of a polygon, counted on over the last corner.
pub open spec fn corner(h: Seq<(i32, i32)>, i: int) -> (i32, i32) {
    if i < h.len() {
        h[i]
    } else {
        h[i - h.len()]
    }
}

/// What is left of a way and left of the way straight back is on the way.
proof fn lemma_pinch(dx: int, dy: int, ex: int, ey: int, qx: int, qy: int)
    requires
        forward(dx, dy),
        forward(-ex, -ey),
        dx * ey - dy * ex <= 0,
        dx * ey - dy * ex >= 0,
        dx * qy - dy * qx >= 0,
        ex * qy - ey * qx >= 0,
    ensures
        dx * qy - dy * qx == 0,
{
    let c = dx * qy - dy * qx;
    if dx > 0 {
        assert(ex != 0) by {
            if ex == 0 {
                assert(dx * ey < 0) by (nonlinear_arith)
                    requires
                        dx > 0,
                        ey < 0,
                ;
                assert(dy * 0 == 0);
            }
        }
        assert((ex * qy - ey * qx) * dx == ex * c) by (nonlinear_arith)
            requires
                c == dx * qy - dy * qx,
                dx * ey == dy * ex,
        ;
        assert((ex * qy - ey * qx) * dx >= 0) by (nonlinear_arith)
            requires
                ex * qy - ey * qx >= 0,
                dx > 0,
        ;
        assert(c <= 0) by (nonlinear_arith)
            requires
                ex * c >= 0,
                ex < 0,
        ;
    } else {
        assert(ex == 0) by (nonlinear_arith)
            requires
                0 * ey - dy * ex == 0,
                dy > 0,
        ;
        assert(qx >= 0) by (nonlinear_arith)
            requires
                0 * qy - ey * qx >= 0,
                ey < 0,
        ;
        assert(c <= 0) by (nonlinear_arith)
            requires
                c == 0 * qy - dy * qx,
                dy > 0,
                qx >= 0,
        ;
    }
}

/// Points on one line make no turn.
proof fn lemma_on_line(
    o: (i32, i32),
    z: (i32, i32),
    a: (i32, i32),
    b: (i32, i32),
    c: (i32, i32),
)
    requires
        o != z,
        hull::cross(o, z, a) == 0,
        hull::cross(o, z, b) == 0,
        hull::cross(o, z, c) == 0,
    ensures
        hull::cross(a, b, c) == 0,
{
    let (dx, dy) = (z.0 - o.0, z.1 - o.1);
    let (ax, ay) = (a.0 - o.0, a.1 - o.1);
    let (ux, uy) = (b.0 - a.0, b.1 - a.1);
    let (vx, vy) = (c.0 - a.0, c.1 - a.1);
    assert(dx * uy == dy * ux) by (nonlinear_arith)
        requires
            dx * ay - dy * ax == 0,
            dx * (ay + uy) - dy * (ax + ux) == 0,
    ;
    assert(dx * vy == dy * vx) by (nonlinear_arith)
        requires
            dx * ay - dy * ax == 0,
            dx * (ay + vy) - dy * (ax + vx) == 0,
    ;
    let t = ux * vy - uy * vx;
    assert(dx * t == 0) by (nonlinear_arith)
        requires
            t == ux * vy - uy * vx,
            dx * uy == dy * ux,
            dx * vy == dy * vx,
    ;
    assert(dy * t == 0) by (nonlinear_arith)
        requires
            t == ux * vy - uy * vx,
            dx * uy == dy * ux,
            dx * vy == dy * vx,
    ;
    assert(t == 0) by (nonlinear_arith)
        requires
            dx * t == 0,
            dy * t == 0,
            dx != 0 || dy != 0,
    ;
}

/// Where the last edge of one chain, from `o` to `z`, meets the first edge of the
/// other, from `z` to `u`, the way turns left.
proof fn lemma_join(
    sign: int,
    points: Seq<(i32, i32)>,
    o: (i32, i32),
    z: (i32, i32),
    u: (i32, i32),
)
    requires
        sign == 1 || sign == -1,
        spans(points),
        ahead(sign, o, z),
        ahead(sign, u, z),
        points.contains(u),
        forall|j: int|
            #![trigger points[j]]
            0 <= j < points.len() ==> hull::cross(o, z, points[j]) >= 0 && hull::cross(
                z,
                u,
                points[j],
            ) >= 0,
    ensures
        hull::cross(o, z, u) > 0,
{
    let ju = choose|j: int| 0 <= j < points.len() && points[j] == u;
    assert(hull::cross(o, z, points[ju]) >= 0);
    if hull::cross(o, z, u) == 0 {
        let (dx, dy) = (z.0 - o.0, z.1 - o.1);
        let (ex, ey) = (u.0 - z.0, u.1 - z.1);
        lemma_turn_shift(o, z, u);
        lemma_negated(dx, dy, ex, ey);
        lemma_negated(-ex, -ey, 0, 0);
        assert(z.0 - u.0 == -ex && z.1 - u.1 == -ey);
        assert forall|j: int| #![trigger points[j]] 0 <= j < points.len() implies hull::cross(
            o,
            z,
            points[j],
        ) == 0 by {
            let q = points[j];
            let (qx, qy) = (q.0 - z.0, q.1 - z.1);
            lemma_turn_shift(o, z, q);
            lemma_negated(dx, dy, qx, qy);
            lemma_negated(ex, ey, qx, qy);
            if sign == 1 {
                lemma_pinch(dx, dy, ex, ey, qx, qy);
            } else {
                lemma_pinch(-dx, -dy, -ex, -ey, -qx, -qy);
            }
        }
        let (i, j, k) = choose|i: int, j: int, k: int|
            0 <= i < points.len() && 0 <= j < points.len() && 0 <= k < points.len()
                && hull::cross(
                #[trigger] points[i],
                #[trigger] points[j],
                #[trigger] points[k],
            ) != 0;
        lemma_on_line(o, z, points[i], points[j], points[k]);
    }
}

/// No point is an inner corner of both chains.
proof fn lemma_chains_meet_at_ends(
    lower: Seq<(i32, i32)>,
    upper: Seq<(i32, i32)>,
    i: int,
    k: int,
)
    requires
        directed(1, lower),
        directed(-1, upper),
        turns_left(lower),
        turns_left(upper),
        0 < i < lower.len() - 1,
        0 < k < upper.len() - 1,
        left_of_edges(lower, upper[k - 1]),
        left_of_edges(lower, upper[k + 1]),
        left_of_edges(upper, lower[i - 1]),
        left_of_edges(upper, lower[i + 1]),
    ensures
        lower[i] != upper[k],
{
    if lower[i] == upper[k] {
        let p = lower[i];
        let a = lower[i - 1];
        let b = lower[i + 1];
        let c = upper[k - 1];
        let d = upper[k + 1];
        assert(ahead(1, lower[i - 1], lower[i]));
        assert(ahead(1, lower[i], lower[i + 1]));
        assert(ahead(-1, upper[k - 1], upper[k]));
        assert(ahead(-1, upper[k], upper[k + 1]));
        let (ax, ay) = (p.0 - a.0, p.1 - a.1);
        let (bx, by) = (b.0 - p.0, b.1 - p.1);
        let (cx, cy) = (c.0 - p.0, c.1 - p.1);
        let (dx, dy) = (p.0 - d.0, p.1 - d.1);
        // the turn of the lower chain
        assert(turn_at(lower, i - 1) > 0);
        lemma_turn_shift(a, p, b);
        assert(ax * by - ay * bx > 0);
        // the next corner of the lower chain is not beyond the upper chain
        assert(side(lower, i, c) >= 0);
        assert(bx * cy - by * cx >= 0);
        assert(side(upper, k, a) >= 0);
        let (ex, ey) = (d.0 - p.0, d.1 - p.1);
        assert(ex * (a.1 - p.1) - ey * (a.0 - p.0) >= 0);
        assert(dx * ay - dy * ax >= 0) by (nonlinear_arith)
            requires
                ex * (a.1 - p.1) - ey * (a.0 - p.0) >= 0,
                ex == -dx,
                ey == -dy,
                a.1 - p.1 == -ay,
                a.0 - p.0 == -ax,
        ;
        // the turn of the upper chain
        assert(turn_at(upper, k - 1) > 0);
        lemma_turn_shift(c, p, d);
        assert((p.0 - c.0) * (d.1 - p.1) - (p.1 - c.1) * (d.0 - p.0) > 0);
        assert(cx * dy - cy * dx > 0) by (nonlinear_arith)
            requires
                (p.0 - c.0) * (d.1 - p.1) - (p.1 - c.1) * (d.0 - p.0) > 0,
                p.0 - c.0 == -cx,
                p.1 - c.1 == -cy,
                d.0 - p.0 == -dx,
                d.1 - p.1 == -dy,
        ;
        lemma_angles(bx, by, cx, cy, dx, dy);
        lemma_angles(bx, by, dx, dy, ax, ay);
        assert(ax * by - ay * bx == -(bx * ay - by * ax)) by (nonlinear_arith);
    }
}

/// The chains of points that are not all on one line: below and above all of
/// them, and with a turn to the left where they meet.
proof fn lemma_chains_of_spanning(points: Seq<(i32, i32)>, s: Seq<(i32, i32)>)
    requires
        hull::lists_in_order(points, s),
        spans(points),
    ensures
        s.len() >= 3,
        ({
            let lower = hull::chain_of(s);
            let upper = hull::chain_of(s.reverse());
            &&& under(1, lower, s)
            &&& under(-1, upper, s.reverse())
            &&& lower.len() >= 2
            &&& upper.len() >= 2
            &&& lower.len() + upper.len() >= 5
            &&& lower[0] == s[0]
            &&& upper.last() == s[0]
            &&& lower.last() == upper[0]
            &&& hull::cross(lower[lower.len() - 2], lower.last(), upper[1]) > 0
            &&& hull::cross(upper[upper.len() - 2], upper.last(), lower[1]) > 0
        }),
{
    let (i, j, k) = choose|i: int, j: int, k: int|
        0 <= i < points.len() && 0 <= j < points.len() && 0 <= k < points.len() && hull::cross(
            #[trigger] points[i],
            #[trigger] points[j],
            #[trigger] points[k],
        ) != 0;
    assert(s.contains(points[i]) && s.contains(points[j]) && s.contains(points[k]));
    let a = choose|a: int| 0 <= a < s.len() && s[a] == points[i];
    let b = choose|b: int| 0 <= b < s.len() && s[b] == points[j];
    let c = choose|c: int| 0 <= c < s.len() && s[c] == points[k];
    lemma_turn_shift(points[i], points[j], points[k]);
    lemma_turn_shift(points[i], points[k], points[j]);
    lemma_turn_shift(points[i], points[i], points[k]);
    assert(a != b && b != c && a != c) by {
        lemma_turn_shift(points[i], points[j], points[j]);
        lemma_turn_shift(points[i], points[j], points[i]);
        lemma_zero_way(points[i], points[k]);
    }
    lemma_both_chains(s);
    let r = s.reverse();
    let lower = hull::chain_of(s);
    let upper = hull::chain_of(r);
    let m = lower.len();
    let n = upper.len();
    assert(hull::cross(s[a], s[b], s[c]) != 0);
    assert(spans(s));
    assert forall|q: int| #![trigger s[q]] 0 <= q < s.len() implies left_of_edges(lower, s[q])
        && left_of_edges(upper, s[q]) by {
        assert(r[s.len() - 1 - q] == s[q]);
    }
    assert(ahead(1, lower[m - 2], lower[m - 1]));
    assert(ahead(-1, upper[0], upper[1]));
    assert(ahead(-1, upper[n - 2], upper[n - 1]));
    assert(ahead(1, lower[0], lower[1]));
    assert forall|q: int| #![trigger s[q]] 0 <= q < s.len() implies hull::cross(
        lower[m - 2],
        lower.last(),
        s[q],
    ) >= 0 && hull::cross(lower.last(), upper[1], s[q]) >= 0 by {
        assert(left_of_edges(lower, s[q]));
        assert(side(lower, m - 2, s[q]) >= 0);
        assert(side(upper, 0, s[q]) >= 0);
    }
    assert(s.contains(upper[1])) by {
        assert(r.contains(upper[1]));
        let q = choose|q: int| 0 <= q < r.len() && r[q] == upper[1];
        assert(s[s.len() - 1 - q] == upper[1]);
    }
    lemma_join(1, s, lower[m - 2], lower.last(), upper[1]);
    assert forall|q: int| #![trigger s[q]] 0 <= q < s.len() implies hull::cross(
        upper[n - 2],
        upper.last(),
        s[q],
    ) >= 0 && hull::cross(upper.last(), lower[1], s[q]) >= 0 by {
        assert(left_of_edges(lower, s[q]));
        assert(side(upper, n - 2, s[q]) >= 0);
        assert(side(lower, 0, s[q]) >= 0);
    }
    assert(s.contains(lower[1]));
    lemma_join(-1, s, upper[n - 2], upper.last(), lower[1]);
    if m == 2 && n == 2 {
        lemma_turn_shift(lower[0], lower[1], lower[0]);
    }
}

proof fn lemma_zero_way(a: (i32, i32), b: (i32, i32))
    ensures
        hull::cross(a, a, b) == 0,
{
    let (vx, vy) = (b.0 - a.0, b.1 - a.1);
    assert(0 * vy - 0 * vx == 0) by (nonlinear_arith);
}

/// The hull of points that are not all on one line is a proper polygon: it has at
/// least three corners, turns left at every one of them, names none twice, and
/// begins with the smallest of the points.
pub proof fn law_hull_is_strictly_convex(points: Seq<(i32, i32)>)
    requires
        spans(points),
    ensures
        hull::hull(points).len() >= 3,
        forall|i: int|
            #![trigger hull::hull(points)[i]]
            0 <= i < hull::hull(points).len() ==> hull::cross(
                hull::hull(points)[i],
                corner(hull::hull(points), i + 1),
                corner(hull::hull(points), i + 2),
            ) > 0,
        hull::hull(points).no_duplicates(),
        points.contains(hull::hull(points)[0]),
        forall|p: (i32, i32)|
            #[trigger] points.contains(p) ==> !hull::before(p, hull::hull(points)[0]),
{
    let s = hull::in_order(points);
    hull::lemma_in_order_lists(points);
    lemma_chains_of_spanning(points, s);
    let h = hull::hull(points);
    let r = s.reverse();
    let lower = hull::chain_of(s);
    let upper = hull::chain_of(r);
    let m = lower.len() - 1;
    let n = upper.len() - 1;
    assert(h.len() == m + n);
    assert forall|i: int| #![trigger h[i]] 0 <= i < h.len() implies hull::cross(
        h[i],
        corner(h, i + 1),
        corner(h, i + 2),
    ) > 0 by {
        lemma_hull_turn(h, lower, upper, i);
    }
    assert forall|i: int, j: int| 0 <= i < j < h.len() implies h[i] != h[j] by {
        lemma_hull_distinct(s, lower, upper, i, j);
    }
    assert(h.no_duplicates());
    assert(s.contains(s[0]));
    assert forall|p: (i32, i32)| #[trigger] points.contains(p) implies !hull::before(p, h[0]) by {
        assert(s.contains(p));
        let q = choose|q: int| 0 <= q < s.len() && s[q] == p;
        if q > 0 {
            assert(hull::before(s[0], s[q]));
        }
    }
}

proof fn lemma_hull_turn(
    h: Seq<(i32, i32)>,
    lower: Seq<(i32, i32)>,
    upper: Seq<(i32, i32)>,
    i: int,
)
    requires
        lower.len() >= 2,
        upper.len() >= 2,
        lower.len() + upper.len() >= 5,
        h == lower.drop_last() + upper.drop_last(),
        turns_left(lower),
        turns_left(upper),
        lower.last() == upper[0],
        upper.last() == lower[0],
        hull::cross(lower[lower.len() - 2], lower.last(), upper[1]) > 0,
        hull::cross(upper[upper.len() - 2], upper.last(), lower[1]) > 0,
        0 <= i < h.len(),
    ensures
        hull::cross(h[i], corner(h, i + 1), corner(h, i + 2)) > 0,
{
    let m = lower.len() - 1;
    let n = upper.len() - 1;
    if i + 2 <= m {
        assert(turn_at(lower, i) > 0);
        assert(corner(h, i + 1) == lower[i + 1]);
        assert(corner(h, i + 2) == lower[i + 2]);
    } else if i + 1 == m {
        assert(corner(h, i + 1) == upper[0]);
        assert(corner(h, i + 2) == upper[1]);
    } else {
        let k = i - m;
        assert(h[i] == upper[k]);
        assert(corner(h, i + 1) == upper[k + 1]);
        if k + 2 <= n {
            assert(turn_at(upper, k) > 0);
            assert(corner(h, i + 2) == upper[k + 2]);
        } else {
            assert(corner(h, i + 2) == lower[1]);
        }
    }
}

/// A chain has the points that it runs below on its left.
proof fn lemma_left_of_chain(
    sign: int,
    c: Seq<(i32, i32)>,
    seen: Seq<(i32, i32)>,
    q: (i32, i32),
)
    requires
        under(sign, c, seen),
        seen.contains(q),
    ensures
        left_of_edges(c, q),
{
    let j = choose|j: int| 0 <= j < seen.len() && seen[j] == q;
    assert(left_of_edges(c, seen[j]));
}

/// The corner of a chain is one of the points, in whichever order they are listed.
proof fn lemma_chain_corner(sign: int, c: Seq<(i32, i32)>, seen: Seq<(i32, i32)>, i: int)
    requires
        under(sign, c, seen),
        0 <= i < c.len(),
    ensures
        seen.contains(c[i]),
        seen.reverse().contains(c[i]),
{
    assert(seen.contains(c[i]));
    let j = choose|j: int| 0 <= j < seen.len() && seen[j] == c[i];
    assert(seen.reverse()[seen.len() - 1 - j] == c[i]);
}

proof fn lemma_inner_corners_distinct(
    s: Seq<(i32, i32)>,
    lower: Seq<(i32, i32)>,
    upper: Seq<(i32, i32)>,
    i: int,
    k: int,
)
    requires
        under(1, lower, s),
        under(-1, upper, s.reverse()),
        0 < i < lower.len() - 1,
        0 < k < upper.len() - 1,
    ensures
        lower[i] != upper[k],
{
    let r = s.reverse();
    assert(r.reverse() =~= s);
    lemma_chain_corner(1, lower, s, i - 1);
    lemma_chain_corner(1, lower, s, i + 1);
    lemma_chain_corner(-1, upper, r, k - 1);
    lemma_chain_corner(-1, upper, r, k + 1);
    lemma_left_of_chain(1, lower, s, upper[k - 1]);
    lemma_left_of_chain(1, lower, s, upper[k + 1]);
    lemma_left_of_chain(-1, upper, r, lower[i - 1]);
    lemma_left_of_chain(-1, upper, r, lower[i + 1]);
    lemma_chains_meet_at_ends(lower, upper, i, k);
}

proof fn lemma_directed_distinct(sign: int, c: Seq<(i32, i32)>, i: int, j: int)
    requires
        sign == 1 || sign == -1,
        directed(sign, c),
        0 <= i < j < c.len(),
    ensures
        c[i] != c[j],
{
    assert(ahead(sign, c[i], c[j]));
    lemma_ahead_total(sign, c[i], c[j]);
}

proof fn lemma_hull_distinct(
    s: Seq<(i32, i32)>,
    lower: Seq<(i32, i32)>,
    upper: Seq<(i32, i32)>,
    i: int,
    j: int,
)
    requires
        under(1, lower, s),
        under(-1, upper, s.reverse()),
        lower.len() >= 2,
        upper.len() >= 2,
        lower.last() == upper[0],
        upper.last() == lower[0],
        0 <= i < j < lower.len() + upper.len() - 2,
    ensures
        (lower.drop_last() + upper.drop_last())[i] != (lower.drop_last() + upper.drop_last())[j],
{
    let m = lower.len() - 1;
    let n = upper.len() - 1;
    if j < m {
        lemma_directed_distinct(1, lower, i, j);
    } else if i >= m {
        lemma_directed_distinct(-1, upper, i - m, j - m);
    } else if i == 0 {
        lemma_directed_distinct(-1, upper, j - m, n);
    } else if j == m {
        lemma_directed_distinct(1, lower, i, m);
    } else {
        lemma_inner_corners_distinct(s, lower, upper, i, j - m);
    }
}

} // verus!
