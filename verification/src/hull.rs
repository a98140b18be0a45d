//! Convex hull of integer points, by Andrew's monotone chain.

use vstd::prelude::*;

verus! {

/// Twice the signed area of the triangle `o`, `a`, `b`: positive if the turn at
/// `a` is to the left.
pub open spec fn cross(o: (i32, i32), a: (i32, i32), b: (i32, i32)) -> int {
    (a.0 - o.0) * (b.1 - o.1) - (a.1 - o.1) * (b.0 - o.0)
}

/// The order of pairs: by the first coordinate, then by the second.
pub open spec fn before(a: (i32, i32), b: (i32, i32)) -> bool {
    a.0 < b.0 || (a.0 == b.0 && a.1 < b.1)
}

/// Every element comes before all later ones.
pub open spec fn increasing(s: Seq<(i32, i32)>) -> bool {
    forall|i: int, j: int| 0 <= i < j < s.len() ==> before(#[trigger] s[i], #[trigger] s[j])
}

/// `s` lists the points of `points`, each once, in increasing order.
pub open spec fn lists_in_order(points: Seq<(i32, i32)>, s: Seq<(i32, i32)>) -> bool {
    &&& increasing(s)
    &&& forall|p: (i32, i32)| #[trigger] s.contains(p) <==> points.contains(p)
}

/// The points of `points`, each once, in increasing order.
pub open spec fn in_order(points: Seq<(i32, i32)>) -> Seq<(i32, i32)> {
    choose|s: Seq<(i32, i32)>| lists_in_order(points, s)
}

/// Appends `p` to a chain after dropping the points at which the chain would no
/// longer turn left.
pub open spec fn extend_chain(chain: Seq<(i32, i32)>, p: (i32, i32)) -> Seq<(i32, i32)>
    decreases chain.len(),
{
    if chain.len() >= 2 && cross(chain[chain.len() - 2], chain[chain.len() - 1], p) <= 0 {
        extend_chain(chain.drop_last(), p)
    } else {
        chain.push(p)
    }
}

/// The chain through the points of `s`, taken one after the other.
pub open spec fn chain_of(s: Seq<(i32, i32)>) -> Seq<(i32, i32)>
    decreases s.len(),
{
    if s.len() == 0 {
        Seq::empty()
    } else {
        extend_chain(chain_of(s.drop_last()), s.last())
    }
}

/// The hull of points that are listed in order: the lower chain from the first
/// to the last, then the upper chain back. Fewer than three points are their
/// own hull.
pub open spec fn hull_of_ordered(s: Seq<(i32, i32)>) -> Seq<(i32, i32)> {
    if s.len() < 3 {
        s
    } else {
        chain_of(s).drop_last() + chain_of(s.reverse()).drop_last()
    }
}

/// The convex hull of `points`.
pub open spec fn hull(points: Seq<(i32, i32)>) -> Seq<(i32, i32)> {
    hull_of_ordered(in_order(points))
}

/// The turn at any three of the points can be computed with 64 bits.
pub open spec fn turns_fit(points: Seq<(i32, i32)>) -> bool {
    forall|i: int, j: int, k: int|
        0 <= i < points.len() && 0 <= j < points.len() && 0 <= k < points.len()
            ==> turn_fits(#[trigger] points[i], #[trigger] points[j], #[trigger] points[k])
}

pub open spec fn turn_fits(o: (i32, i32), a: (i32, i32), b: (i32, i32)) -> bool {
    &&& i64::MIN <= (a.0 - o.0) * (b.1 - o.1) <= i64::MAX
    &&& i64::MIN <= (a.1 - o.1) * (b.0 - o.0) <= i64::MAX
    &&& i64::MIN <= cross(o, a, b) <= i64::MAX
}

proof fn lemma_same_first(s: Seq<(i32, i32)>, t: Seq<(i32, i32)>)
    requires
        increasing(s),
        increasing(t),
        forall|p: (i32, i32)| #[trigger] s.contains(p) <==> t.contains(p),
        s.len() > 0,
    ensures
        t.len() > 0,
        s[0] == t[0],
{
    assert(s.contains(s[0]));
    assert(t.contains(s[0]));
    let i = choose|i: int| 0 <= i < t.len() && t[i] == s[0];
    assert(t.contains(t[0]));
    assert(s.contains(t[0]));
    let j = choose|j: int| 0 <= j < s.len() && s[j] == t[0];
}

/// Only one sequence lists given points in order.
proof fn lemma_order_unique(s: Seq<(i32, i32)>, t: Seq<(i32, i32)>)
    requires
        increasing(s),
        increasing(t),
        forall|p: (i32, i32)| #[trigger] s.contains(p) <==> t.contains(p),
    ensures
        s == t,
    decreases s.len(),
{
    if s.len() == 0 {
        if t.len() > 0 {
            assert(t.contains(t[0]));
            assert(s.contains(t[0]));
        }
        assert(s =~= t);
    } else {
        lemma_same_first(s, t);
        let s1 = s.drop_first();
        let t1 = t.drop_first();
        assert forall|p: (i32, i32)| #[trigger] s1.contains(p) implies t1.contains(p) by {
            let i = choose|i: int| 0 <= i < s1.len() && s1[i] == p;
            assert(s[i + 1] == p);
            assert(s.contains(p));
            assert(t.contains(p));
            let j = choose|j: int| 0 <= j < t.len() && t[j] == p;
            assert(before(s[0], s[i + 1]));
            assert(t1[j - 1] == p);
        }
        assert forall|p: (i32, i32)| #[trigger] t1.contains(p) implies s1.contains(p) by {
            let i = choose|i: int| 0 <= i < t1.len() && t1[i] == p;
            assert(t[i + 1] == p);
            assert(t.contains(p));
            assert(s.contains(p));
            let j = choose|j: int| 0 <= j < s.len() && s[j] == p;
            assert(before(t[0], t[i + 1]));
            assert(s1[j - 1] == p);
        }
        lemma_order_unique(s1, t1);
        assert(s =~= seq![s[0]] + s1);
        assert(t =~= seq![t[0]] + t1);
    }
}

proof fn lemma_in_order(points: Seq<(i32, i32)>, s: Seq<(i32, i32)>)
    requires
        lists_in_order(points, s),
    ensures
        in_order(points) == s,
{
    let t = in_order(points);
    assert(lists_in_order(points, t));
    lemma_order_unique(s, t);
}

/// Points put in their place one by one, skipping those already there.
spec fn placed(points: Seq<(i32, i32)>) -> Seq<(i32, i32)>
    decreases points.len(),
{
    if points.len() == 0 {
        Seq::empty()
    } else {
        place(placed(points.drop_last()), points.last())
    }
}

spec fn place(s: Seq<(i32, i32)>, p: (i32, i32)) -> Seq<(i32, i32)>
    decreases s.len(),
{
    if s.len() == 0 || before(s.last(), p) {
        s.push(p)
    } else if s.last() == p {
        s
    } else {
        place(s.drop_last(), p).push(s.last())
    }
}

proof fn lemma_place(s: Seq<(i32, i32)>, p: (i32, i32))
    requires
        increasing(s),
    ensures
        increasing(place(s, p)),
        forall|q: (i32, i32)| #[trigger] place(s, p).contains(q) <==> s.contains(q) || q == p,
    decreases s.len(),
{
    let r = place(s, p);
    if s.len() == 0 || before(s.last(), p) {
        assert forall|q: (i32, i32)| s.contains(q) || q == p implies #[trigger] r.contains(q) by {
            if s.contains(q) {
                let i = choose|i: int| 0 <= i < s.len() && s[i] == q;
                assert(r[i] == q);
            } else {
                assert(r[s.len() as int] == q);
            }
        }
        assert forall|i: int, j: int| 0 <= i < j < r.len() implies before(
            #[trigger] r[i],
            #[trigger] r[j],
        ) by {
            if j == s.len() && i < s.len() - 1 {
                assert(before(s[i], s[s.len() - 1]));
            }
        }
    } else if s.last() == p {
        assert(s[s.len() - 1] == p);
    } else {
        let t = s.drop_last();
        lemma_place(t, p);
        let u = place(t, p);
        assert forall|i: int, j: int| 0 <= i < j < r.len() implies before(
            #[trigger] r[i],
            #[trigger] r[j],
        ) by {
            if j == u.len() {
                assert(u.contains(u[i]));
                if u[i] != p {
                    let k = choose|k: int| 0 <= k < t.len() && t[k] == u[i];
                    assert(before(s[k], s[s.len() - 1]));
                }
            }
        }
        assert forall|q: (i32, i32)| #[trigger] r.contains(q) <==> s.contains(q) || q == p by {
            if r.contains(q) {
                let i = choose|i: int| 0 <= i < r.len() && r[i] == q;
                if i < u.len() {
                    assert(u.contains(u[i]));
                    if q != p {
                        let k = choose|k: int| 0 <= k < t.len() && t[k] == q;
                        assert(s[k] == q);
                    }
                } else {
                    assert(s[s.len() - 1] == q);
                }
            }
            if s.contains(q) || q == p {
                if s.contains(q) {
                    let k = choose|k: int| 0 <= k < s.len() && s[k] == q;
                    if k < t.len() {
                        assert(t[k] == q);
                        assert(t.contains(q));
                    } else {
                        assert(r[u.len() as int] == q);
                    }
                }
                if q == p || t.contains(q) {
                    assert(u.contains(q));
                    let i = choose|i: int| 0 <= i < u.len() && u[i] == q;
                    assert(r[i] == q);
                }
            }
        }
    }
}

proof fn lemma_placed(points: Seq<(i32, i32)>)
    ensures
        lists_in_order(points, placed(points)),
    decreases points.len(),
{
    if points.len() > 0 {
        let t = points.drop_last();
        lemma_placed(t);
        lemma_place(placed(t), points.last());
        assert forall|q: (i32, i32)| #[trigger] placed(points).contains(q) <==> points.contains(
            q,
        ) by {
            if points.contains(q) && q != points.last() {
                let i = choose|i: int| 0 <= i < points.len() && points[i] == q;
                assert(t[i] == q);
                assert(t.contains(q));
            }
            if t.contains(q) {
                let i = choose|i: int| 0 <= i < t.len() && t[i] == q;
                assert(points[i] == q);
            }
            assert(points[points.len() - 1] == points.last());
        }
    }
}

/// [`in_order`] does list the points in order.
pub proof fn lemma_in_order_lists(points: Seq<(i32, i32)>)
    ensures
        lists_in_order(points, in_order(points)),
{
    lemma_placed(points);
}

/// `<[T]>::sort_unstable` of the standard library, on pairs of integers. It
/// rearranges the pairs so that none comes after a greater one.
#[verifier::external_body]
fn sort_pairs(points: &mut Vec<(i32, i32)>)
    ensures
        final(points)@.to_multiset() == old(points)@.to_multiset(),
        forall|i: int, j: int|
            0 <= i < j < final(points)@.len() ==> !before(
                #[trigger] final(points)@[j],
                #[trigger] final(points)@[i],
            ),
{
    points.sort_unstable();
}

/// The points of `points`, each once, in increasing order.
fn sorted_distinct(points: &[(i32, i32)]) -> (r: Vec<(i32, i32)>)
    ensures
        lists_in_order(points@, r@),
        r@ == in_order(points@),
        r@.len() <= points@.len(),
{
    let mut all: Vec<(i32, i32)> = vstd::slice::slice_to_vec(points);
    let ghost unsorted = all@;
    sort_pairs(&mut all);
    proof {
        broadcast use vstd::seq_lib::group_to_multiset_ensures;
        assert(unsorted == points@);
        assert forall|p: (i32, i32)| #[trigger] all@.contains(p) <==> points@.contains(p) by {
            assert(all@.to_multiset().count(p) == points@.to_multiset().count(p));
        }
        assert(all@.len() == points@.len()) by {
            assert(all@.to_multiset().len() == points@.to_multiset().len());
        }
    }
    let mut r: Vec<(i32, i32)> = Vec::new();
    for i in 0..all.len()
        invariant
            r@.len() <= i,
            increasing(r@),
            r@.len() == 0 <==> i == 0,
            r@.len() > 0 ==> r@.last() == all@[i - 1],
            forall|p: (i32, i32)| #[trigger] r@.contains(p) <==> all@.take(i as int).contains(p),
            forall|a: int, b: int|
                0 <= a < b < all@.len() ==> !before(#[trigger] all@[b], #[trigger] all@[a]),
    {
        let p = all[i];
        let ghost old_r = r@;
        let fresh = r.len() == 0 || r[r.len() - 1].0 != p.0 || r[r.len() - 1].1 != p.1;
        if fresh {
            r.push(p);
        }
        proof {
            let now = all@.take(i + 1);
            assert(now =~= all@.take(i as int).push(p));
            assert(now[i as int] == p);
            assert(now.contains(p));
            assert(r@.last() == p);
            assert(r@.contains(p));
            if fresh {
                assert forall|a: int, b: int| 0 <= a < b < r@.len() implies before(
                    #[trigger] r@[a],
                    #[trigger] r@[b],
                ) by {
                    if b == old_r.len() {
                        assert(old_r.contains(old_r[a]));
                        let c = choose|c: int| 0 <= c < i && all@.take(i as int)[c] == old_r[a];
                        assert(all@[c] == old_r[a]);
                        assert(!before(all@[i as int], all@[c]));
                        if old_r[a] == p {
                            if a < old_r.len() - 1 {
                                assert(before(old_r[a], old_r.last()));
                                assert(!before(all@[i as int], all@[i - 1]));
                            }
                        }
                    }
                }
            }
            assert forall|q: (i32, i32)| #[trigger] r@.contains(q) <==> now.contains(q) by {
                if r@.contains(q) {
                    let c = choose|c: int| 0 <= c < r@.len() && r@[c] == q;
                    if c < old_r.len() {
                        assert(old_r[c] == q);
                        assert(old_r.contains(q));
                        let d = choose|d: int| 0 <= d < i && all@.take(i as int)[d] == q;
                        assert(now[d] == q);
                    }
                }
                if now.contains(q) {
                    let c = choose|c: int| 0 <= c < now.len() && now[c] == q;
                    if c < i {
                        assert(all@.take(i as int)[c] == q);
                        assert(old_r.contains(q));
                        let d = choose|d: int| 0 <= d < old_r.len() && old_r[d] == q;
                        assert(r@[d] == q);
                    }
                }
            }
        }
    }
    proof {
        assert(all@.take(all@.len() as int) =~= all@);
        lemma_in_order(points@, r@);
    }
    r
}

/// The turn at `a` on the way from `o` to `b`.
fn turn(o: (i32, i32), a: (i32, i32), b: (i32, i32)) -> (r: i64)
    requires
        turn_fits(o, a, b),
    ensures
        r == cross(o, a, b),
{
    (a.0 as i64 - o.0 as i64) * (b.1 as i64 - o.1 as i64) - (a.1 as i64 - o.1 as i64) * (b.0 as i64
        - o.0 as i64)
}

/// Appends `p` to a chain after dropping the points at which the chain would no
/// longer turn left.
fn push_point(chain: &mut Vec<(i32, i32)>, p: (i32, i32), Ghost(points): Ghost<Seq<(i32, i32)>>)
    requires
        turns_fit(points),
        points.contains(p),
        forall|i: int| 0 <= i < old(chain)@.len() ==> points.contains(#[trigger] old(chain)@[i]),
    ensures
        final(chain)@ == extend_chain(old(chain)@, p),
        forall|i: int| 0 <= i < final(chain)@.len() ==> points.contains(#[trigger] final(chain)@[i]),
        1 <= final(chain)@.len() <= old(chain)@.len() + 1,
{
    let ghost start = chain@;
    loop
        invariant_except_break
            turns_fit(points),
            points.contains(p),
            forall|i: int| 0 <= i < chain@.len() ==> points.contains(#[trigger] chain@[i]),
            extend_chain(chain@, p) == extend_chain(start, p),
            chain@.len() <= start.len(),
        ensures
            forall|i: int| 0 <= i < chain@.len() ==> points.contains(#[trigger] chain@[i]),
            extend_chain(start, p) == chain@.push(p),
            chain@.len() <= start.len(),
        decreases chain@.len(),
    {
        let n = chain.len();
        if n < 2 {
            break;
        }
        let o = chain[n - 2];
        let a = chain[n - 1];
        proof {
            assert(points.contains(chain@[n - 2]));
            assert(points.contains(chain@[n - 1]));
            let i = choose|i: int| 0 <= i < points.len() && points[i] == o;
            let j = choose|j: int| 0 <= j < points.len() && points[j] == a;
            let k = choose|k: int| 0 <= k < points.len() && points[k] == p;
            assert(turn_fits(points[i], points[j], points[k]));
        }
        if turn(o, a, p) > 0 {
            break;
        }
        let ghost longer = chain@;
        let _ = chain.pop();
        assert(chain@ =~= longer.drop_last());
    }
    chain.push(p);
}

/// The convex hull of `points`, counter-clockwise from its first point.
pub fn convex_hull_points(points: &[(i32, i32)]) -> (r: Vec<(i32, i32)>)
    requires
        turns_fit(points@),
    ensures
        r@ == hull(points@),
{
    let pts = sorted_distinct(points);
    if pts.len() < 3 {
        return pts;
    }
    let mut lower: Vec<(i32, i32)> = Vec::new();
    for i in 0..pts.len()
        invariant
            turns_fit(points@),
            lists_in_order(points@, pts@),
            lower@ == chain_of(pts@.take(i as int)),
            forall|j: int| 0 <= j < lower@.len() ==> points@.contains(#[trigger] lower@[j]),
            i > 0 ==> lower@.len() > 0,
    {
        assert(pts@.contains(pts@[i as int]));
        push_point(&mut lower, pts[i], Ghost(points@));
        assert(pts@.take(i + 1).drop_last() =~= pts@.take(i as int));
    }
    assert(pts@.take(pts@.len() as int) =~= pts@);
    let mut upper: Vec<(i32, i32)> = Vec::new();
    let n = pts.len();
    for i in 0..n
        invariant
            n == pts@.len(),
            turns_fit(points@),
            lists_in_order(points@, pts@),
            upper@ == chain_of(pts@.reverse().take(i as int)),
            forall|j: int| 0 <= j < upper@.len() ==> points@.contains(#[trigger] upper@[j]),
            i > 0 ==> upper@.len() > 0,
    {
        let p = pts[n - 1 - i];
        assert(pts@.contains(p));
        assert(pts@.reverse()[i as int] == p);
        push_point(&mut upper, p, Ghost(points@));
        assert(pts@.reverse().take(i + 1).drop_last() =~= pts@.reverse().take(i as int));
    }
    assert(pts@.reverse().take(pts@.len() as int) =~= pts@.reverse());
    let ghost lower_chain = lower@;
    let ghost upper_chain = upper@;
    let _ = lower.pop();
    let _ = upper.pop();
    lower.append(&mut upper);
    assert(lower@ =~= lower_chain.drop_last() + upper_chain.drop_last());
    lower
}

} // verus!
