//! Laws of hulls with floating point corners.

use crate::float::F32;
use crate::polygon;
use crate::vec2::Vec2;
use vstd::prelude::*;

verus! {

/// Both coordinates are numbers.
pub open spec fn numeric(p: Vec2) -> bool {
    !p.x.nan() && !p.y.nan()
}

/// No point precedes an earlier one.
pub open spec fn ordered(s: Seq<Vec2>) -> bool {
    forall|i: int, j: int|
        0 <= i < j < s.len() ==> !polygon::precedes(#[trigger] s[j], #[trigger] s[i])
}

proof fn lemma_inserted(s: Seq<Vec2>, p: Vec2)
    ensures
        polygon::inserted(s, p).to_multiset() == s.to_multiset().insert(p),
        polygon::inserted(s, p).len() == s.len() + 1,
        forall|i: int|
            0 <= i < s.len() + 1 ==> s.contains(#[trigger] polygon::inserted(s, p)[i])
                || polygon::inserted(s, p)[i] == p,
    decreases s.len(),
{
    broadcast use vstd::seq_lib::group_to_multiset_ensures;

    let r = polygon::inserted(s, p);
    if s.len() == 0 || !polygon::precedes(p, s.last()) {
        assert forall|i: int| 0 <= i < s.len() + 1 implies s.contains(#[trigger] r[i]) || r[i]
            == p by {
            if i < s.len() {
                assert(s[i] == r[i]);
            }
        }
    } else {
        let rest = s.drop_last();
        lemma_inserted(rest, p);
        let t = polygon::inserted(rest, p);
        assert(s =~= rest.push(s.last()));
        assert(r.to_multiset() =~= s.to_multiset().insert(p));
        assert forall|i: int| 0 <= i < s.len() + 1 implies s.contains(#[trigger] r[i]) || r[i]
            == p by {
            if i < s.len() {
                assert(r[i] == t[i]);
                if rest.contains(t[i]) {
                    let k = choose|k: int| 0 <= k < rest.len() && rest[k] == t[i];
                    assert(s[k] == r[i]);
                }
            } else {
                assert(s[s.len() - 1] == r[i]);
            }
        }
    }
}

/// Sorting keeps the points.
pub proof fn law_sorting_permutes(points: Seq<Vec2>)
    ensures
        polygon::sorted(points).to_multiset() == points.to_multiset(),
        polygon::sorted(points).len() == points.len(),
    decreases points.len(),
{
    broadcast use vstd::seq_lib::group_to_multiset_ensures;

    if points.len() > 0 {
        law_sorting_permutes(points.drop_last());
        lemma_inserted(polygon::sorted(points.drop_last()), points.last());
        assert(points =~= points.drop_last().push(points.last()));
    } else {
        assert(polygon::sorted(points) =~= points);
    }
}

proof fn lemma_inserted_ordered(s: Seq<Vec2>, p: Vec2)
    requires
        ordered(s),
        numeric(p),
        forall|i: int| 0 <= i < s.len() ==> numeric(#[trigger] s[i]),
    ensures
        ordered(polygon::inserted(s, p)),
    decreases s.len(),
{
    reveal(F32::spec_lt);
    let r = polygon::inserted(s, p);
    if s.len() == 0 || !polygon::precedes(p, s.last()) {
        assert forall|i: int, j: int| 0 <= i < j < r.len() implies !polygon::precedes(
            #[trigger] r[j],
            #[trigger] r[i],
        ) by {
            if j < s.len() {
                assert(!polygon::precedes(s[j], s[i]));
            } else {
                let last = s[s.len() - 1];
                assert(numeric(s[i]) && numeric(last));
                if i < s.len() - 1 {
                    assert(!polygon::precedes(last, s[i]));
                }
            }
        }
    } else {
        let rest = s.drop_last();
        assert forall|i: int, j: int| 0 <= i < j < rest.len() implies !polygon::precedes(
            #[trigger] rest[j],
            #[trigger] rest[i],
        ) by {
            assert(!polygon::precedes(s[j], s[i]));
        }
        assert forall|i: int| 0 <= i < rest.len() implies numeric(#[trigger] rest[i]) by {
            assert(numeric(s[i]));
        }
        lemma_inserted_ordered(rest, p);
        lemma_inserted(rest, p);
        let t = polygon::inserted(rest, p);
        let last = s[s.len() - 1];
        assert(numeric(last));
        assert forall|i: int, j: int| 0 <= i < j < r.len() implies !polygon::precedes(
            #[trigger] r[j],
            #[trigger] r[i],
        ) by {
            assert(r[i] == t[i]);
            if j < t.len() {
                assert(!polygon::precedes(t[j], t[i]));
            } else if rest.contains(t[i]) {
                let k = choose|k: int| 0 <= k < rest.len() && rest[k] == t[i];
                assert(!polygon::precedes(s[s.len() - 1], s[k]));
            }
        }
    }
}

/// Sorted points are in order, if all coordinates are numbers.
pub proof fn law_sorting_orders(points: Seq<Vec2>)
    requires
        forall|i: int| 0 <= i < points.len() ==> numeric(#[trigger] points[i]),
    ensures
        ordered(polygon::sorted(points)),
    decreases points.len(),
{
    if points.len() > 0 {
        let rest = points.drop_last();
        assert forall|i: int| 0 <= i < rest.len() implies numeric(#[trigger] rest[i]) by {
            assert(numeric(points[i]));
        }
        law_sorting_orders(rest);
        let s = polygon::sorted(rest);
        assert forall|i: int| 0 <= i < s.len() implies numeric(#[trigger] s[i]) by {
            lemma_sorted_selects(rest, i);
        }
        assert(numeric(points[points.len() - 1]));
        lemma_inserted_ordered(s, points.last());
    }
}

/// Sorting adds no points.
pub proof fn lemma_sorted_selects(points: Seq<Vec2>, i: int)
    requires
        0 <= i < polygon::sorted(points).len(),
    ensures
        points.contains(polygon::sorted(points)[i]),
    decreases points.len(),
{
    let rest = points.drop_last();
    let s = polygon::sorted(rest);
    let p = polygon::sorted(points)[i];
    lemma_inserted(s, points.last());
    if s.contains(p) {
        let k = choose|k: int| 0 <= k < s.len() && s[k] == p;
        lemma_sorted_selects(rest, k);
        let m = choose|m: int| 0 <= m < rest.len() && rest[m] == p;
        assert(points[m] == p);
    } else {
        assert(points[points.len() - 1] == p);
    }
}

proof fn lemma_distinct_selects(points: Seq<Vec2>, i: int)
    requires
        0 <= i < polygon::distinct(points).len(),
    ensures
        points.contains(polygon::distinct(points)[i]),
    decreases points.len(),
{
    let rest = points.drop_last();
    let p = polygon::distinct(points)[i];
    if i < polygon::distinct(rest).len() {
        lemma_distinct_selects(rest, i);
        let m = choose|m: int| 0 <= m < rest.len() && rest[m] == p;
        assert(points[m] == p);
    } else {
        assert(points[points.len() - 1] == p);
    }
}

proof fn lemma_extended(chain: Seq<Vec2>, p: Vec2, i: int)
    requires
        0 <= i < polygon::extend_chain(chain, p).len(),
    ensures
        chain.contains(polygon::extend_chain(chain, p)[i]) || polygon::extend_chain(chain, p)[i]
            == p,
    decreases chain.len(),
{
    let r = polygon::extend_chain(chain, p);
    if chain.len() >= 2 && polygon::turn(
        chain[chain.len() - 2],
        chain[chain.len() - 1],
        p,
    ).spec_le(F32 { bits: 0 }) {
        lemma_extended(chain.drop_last(), p, i);
        if r[i] != p {
            let rest = chain.drop_last();
            let m = choose|m: int| 0 <= m < rest.len() && rest[m] == r[i];
            assert(chain[m] == r[i]);
        }
    } else if i < chain.len() {
        assert(chain[i] == r[i]);
    }
}

proof fn lemma_chain_selects(s: Seq<Vec2>, i: int)
    requires
        0 <= i < polygon::chain_of(s).len(),
    ensures
        s.contains(polygon::chain_of(s)[i]),
    decreases s.len(),
{
    let rest = s.drop_last();
    let p = polygon::chain_of(s)[i];
    lemma_extended(polygon::chain_of(rest), s.last(), i);
    if polygon::chain_of(rest).contains(p) {
        let k = choose|k: int|
            0 <= k < polygon::chain_of(rest).len() && polygon::chain_of(rest)[k] == p;
        lemma_chain_selects(rest, k);
        let m = choose|m: int| 0 <= m < rest.len() && rest[m] == p;
        assert(s[m] == p);
    } else {
        assert(s[s.len() - 1] == p);
    }
}

/// Every corner of a hull is one of the points.
pub proof fn law_hull_corners_are_points(points: Seq<Vec2>, i: int)
    requires
        0 <= i < polygon::hull(points).len(),
    ensures
        points.contains(polygon::hull(points)[i]),
{
    let t = polygon::sorted(points);
    let s = polygon::distinct(t);
    let p = polygon::hull(points)[i];
    if points.len() >= 3 {
        if s.len() >= 3 {
            let lower = polygon::chain_of(s);
            let upper = polygon::chain_of(s.reverse());
            lemma_chain_nonempty(s);
            lemma_chain_nonempty(s.reverse());
            if i < lower.len() - 1 {
                lemma_chain_selects(s, i);
            } else {
                let k = i - (lower.len() - 1);
                assert(p == upper[k]);
                lemma_chain_selects(s.reverse(), k);
                let m = choose|m: int| 0 <= m < s.len() && s.reverse()[m] == p;
                assert(s[s.len() - 1 - m] == p);
            }
            assert(s.contains(p));
        } else {
            assert(s[i] == p);
        }
        let k = choose|k: int| 0 <= k < s.len() && s[k] == p;
        lemma_distinct_selects(t, k);
        let m = choose|m: int| 0 <= m < t.len() && t[m] == p;
        lemma_sorted_selects(points, m);
    } else {
        assert(points[i] == p);
    }
}

proof fn lemma_chain_nonempty(s: Seq<Vec2>)
    requires
        s.len() > 0,
    ensures
        polygon::chain_of(s).len() > 0,
{
    lemma_extended_nonempty(polygon::chain_of(s.drop_last()), s.last());
}

proof fn lemma_extended_nonempty(chain: Seq<Vec2>, p: Vec2)
    ensures
        polygon::extend_chain(chain, p).len() > 0,
    decreases chain.len(),
{
    if chain.len() >= 2 && polygon::turn(
        chain[chain.len() - 2],
        chain[chain.len() - 1],
        p,
    ).spec_le(F32 { bits: 0 }) {
        lemma_extended_nonempty(chain.drop_last(), p);
    }
}

} // verus!
