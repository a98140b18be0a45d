//! Laws on contours: how each next pixel is chosen, and where a contour ends.

use crate::contour;
use crate::contour::Step;
use vstd::prelude::*;

verus! {

/// The directions go round: the first is to the right, the second one down as well,
/// and two further on is a right angle to the right.
pub proof fn law_directions_go_round(k: int)
    requires
        0 <= k < 8,
    ensures
        contour::direction(0) == (1int, 0int),
        contour::direction(1) == (1int, 1int),
        contour::direction((k + 2) % 8).0 == -contour::direction(k).1,
        contour::direction((k + 2) % 8).1 == contour::direction(k).0,
{
}

/// The neighbour of a pixel in a direction is one step away in it.
pub proof fn law_neighbour_is_one_step_away(p: (i32, i32), k: int)
    requires
        0 <= k < 8,
        i32::MIN < p.0 < i32::MAX,
        i32::MIN < p.1 < i32::MAX,
    ensures
        contour::neighbour(p, k).0 == p.0 + contour::direction(k).0,
        contour::neighbour(p, k).1 == p.1 + contour::direction(k).1,
{
}

/// A contour begins with the leftmost of the pixels in the topmost row.
pub proof fn law_contour_begins_top_left(points: Seq<(i32, i32)>, p: (i32, i32))
    requires
        points.contains(p),
    ensures
        contour::trace(points).len() >= 1,
        points.contains(contour::trace(points)[0]),
        contour::trace(points)[0].1 <= p.1,
        contour::trace(points)[0].1 == p.1 ==> contour::trace(points)[0].0 <= p.0,
{
    contour::law_trace_starts_at_first(points, p);
}

/// The pixel that is looked at after `j` others from `p`, which a step in the
/// direction `d` led to: the first is a right angle to the left of that step, each
/// other one 45 degrees further to the right.
pub open spec fn looked_at(p: (i32, i32), d: int, j: int) -> (i32, i32) {
    contour::neighbour(p, (d + 6 + j) % 8)
}

/// With the first `n` pixels of `r`, `q` closes the contour: it is the first pixel,
/// and there are more than two.
pub open spec fn closes(r: Seq<(i32, i32)>, n: int, q: (i32, i32)) -> bool {
    q == r[0] && n > 2
}

/// With the first `n` pixels of `r`, the contour can go on with `q`: a border pixel
/// other than the one before the last.
pub open spec fn goes_on(
    points: Seq<(i32, i32)>,
    r: Seq<(i32, i32)>,
    n: int,
    q: (i32, i32),
) -> bool {
    points.contains(q) && q != if n >= 2 {
        r[n - 2]
    } else {
        r[0]
    }
}

/// With the first `n` pixels of `r`, the first `j` pixels that are looked at
/// neither close the contour nor can it go on with them.
pub open spec fn passed(
    points: Seq<(i32, i32)>,
    r: Seq<(i32, i32)>,
    n: int,
    d: int,
    j: int,
) -> bool {
    forall|i: int|
        0 <= i < j ==> {
            let q = #[trigger] looked_at(r[n - 1], d, i);
            !closes(r, n, q) && !goes_on(points, r, n, q)
        }
}

/// After its first `n` pixels, the contour goes on with the first pixel it can.
pub open spec fn steps_on(
    points: Seq<(i32, i32)>,
    r: Seq<(i32, i32)>,
    turns: Seq<int>,
    n: int,
) -> bool {
    exists|j: int|
        #![trigger looked_at(r[n - 1], turns[n - 1], j)]
        0 <= j < 8 && passed(points, r, n, turns[n - 1], j) && {
            let q = looked_at(r[n - 1], turns[n - 1], j);
            &&& !closes(r, n, q)
            &&& goes_on(points, r, n, q)
            &&& r[n] == q
            &&& turns[n] == (turns[n - 1] + 6 + j) % 8
        }
}

/// After its first `n` pixels, the contour is at an end: it is closed before it can
/// go on, or it cannot go on.
pub open spec fn ends(
    points: Seq<(i32, i32)>,
    r: Seq<(i32, i32)>,
    turns: Seq<int>,
    n: int,
) -> bool {
    exists|j: int|
        #![trigger looked_at(r[n - 1], turns[n - 1], j)]
        0 <= j <= 8 && passed(points, r, n, turns[n - 1], j) && (j == 8 || closes(
            r,
            n,
            looked_at(r[n - 1], turns[n - 1], j),
        ))
}

/// A contour keeps to its left: from every pixel it goes on with the first one it
/// can, beginning a right angle to the left of its last step, as if it had come to
/// its first pixel from the right. It ends where it is closed or cannot go on,
/// unless it has become longer than a contour of these pixels can be. Returned are
/// the directions of its steps.
pub proof fn law_contour_keeps_left(points: Seq<(i32, i32)>) -> (turns: Seq<int>)
    requires
        points.len() > 0,
    ensures
        turns.len() == contour::trace(points).len(),
        turns.len() >= 1,
        turns[0] == 4,
        forall|n: int|
            1 <= n < turns.len() ==> #[trigger] steps_on(points, contour::trace(points), turns, n),
        turns.len() > points.len() + 8 || ends(
            points,
            contour::trace(points),
            turns,
            turns.len() as int,
        ),
{
    let start = contour::first_scanned(points);
    lemma_trace_turns(points, start, seq![start], seq![4int])
}

/// What a search finds, in terms of what is looked at.
proof fn lemma_search_finds(
    points: Seq<(i32, i32)>,
    start: (i32, i32),
    ordered: Seq<(i32, i32)>,
    d: int,
    i: int,
) -> (j: int)
    requires
        ordered.len() >= 1,
        ordered[0] == start,
        0 <= d < 8,
        0 <= i <= 8,
        passed(points, ordered, ordered.len() as int, d, i),
    ensures
        i <= j <= 8,
        passed(points, ordered, ordered.len() as int, d, j),
        match contour::search(points, start, ordered, (d + 6) % 8, i) {
            Step::Advance(k) => {
                let q = looked_at(ordered.last(), d, j);
                &&& j < 8
                &&& k == (d + 6 + j) % 8
                &&& !closes(ordered, ordered.len() as int, q)
                &&& goes_on(points, ordered, ordered.len() as int, q)
            },
            _ => j == 8 || closes(ordered, ordered.len() as int, looked_at(ordered.last(), d, j)),
        },
    decreases 8 - i,
{
    if i >= 8 {
        8
    } else {
        let n = ordered.len() as int;
        assert(((d + 6) % 8 + i) % 8 == (d + 6 + i) % 8);
        let q = looked_at(ordered.last(), d, i);
        assert(ordered.last() == ordered[n - 1]);
        if closes(ordered, n, q) || goes_on(points, ordered, n, q) {
            i
        } else {
            assert(passed(points, ordered, n, d, i + 1));
            lemma_search_finds(points, start, ordered, d, i + 1)
        }
    }
}

/// More pixels behind the first `n` do not matter for how the contour goes on.
proof fn lemma_same_beginning(
    points: Seq<(i32, i32)>,
    a: Seq<(i32, i32)>,
    b: Seq<(i32, i32)>,
    n: int,
    d: int,
    j: int,
)
    requires
        1 <= n <= a.len(),
        n <= b.len(),
        forall|i: int| 0 <= i < n ==> a[i] == b[i],
        passed(points, a, n, d, j),
    ensures
        passed(points, b, n, d, j),
{
    assert forall|i: int| 0 <= i < j implies {
        let q = #[trigger] looked_at(b[n - 1], d, i);
        !closes(b, n, q) && !goes_on(points, b, n, q)
    } by {
        let q = looked_at(a[n - 1], d, i);
        assert(!closes(a, n, q) && !goes_on(points, a, n, q));
    }
}

proof fn lemma_step_stays(
    points: Seq<(i32, i32)>,
    a: Seq<(i32, i32)>,
    s: Seq<int>,
    b: Seq<(i32, i32)>,
    t: Seq<int>,
    n: int,
)
    requires
        1 <= n < a.len(),
        a.len() == s.len(),
        a.len() <= b.len(),
        b.len() == t.len(),
        forall|i: int| 0 <= i < a.len() ==> a[i] == b[i],
        forall|i: int| 0 <= i < a.len() ==> s[i] == t[i],
        steps_on(points, a, s, n),
    ensures
        steps_on(points, b, t, n),
{
    let j = choose|j: int|
        #![trigger looked_at(a[n - 1], s[n - 1], j)]
        0 <= j < 8 && passed(points, a, n, s[n - 1], j) && {
            let q = looked_at(a[n - 1], s[n - 1], j);
            &&& !closes(a, n, q)
            &&& goes_on(points, a, n, q)
            &&& a[n] == q
            &&& s[n] == (s[n - 1] + 6 + j) % 8
        };
    lemma_same_beginning(points, a, b, n, s[n - 1], j);
    assert(looked_at(b[n - 1], t[n - 1], j) == looked_at(a[n - 1], s[n - 1], j));
}

proof fn lemma_trace_turns(
    points: Seq<(i32, i32)>,
    start: (i32, i32),
    ordered: Seq<(i32, i32)>,
    before: Seq<int>,
) -> (turns: Seq<int>)
    requires
        ordered.len() >= 1,
        ordered.len() == before.len(),
        ordered[0] == start,
        before[0] == 4,
        0 <= before.last() < 8,
        ordered.len() <= points.len() + 8,
        forall|n: int| 1 <= n < before.len() ==> #[trigger] steps_on(points, ordered, before, n),
    ensures
        ({
            let r = contour::trace_from(points, start, ordered, before.last());
            &&& turns.len() == r.len()
            &&& r.len() >= 1
            &&& turns[0] == 4
            &&& forall|n: int| 1 <= n < turns.len() ==> #[trigger] steps_on(points, r, turns, n)
            &&& turns.len() > points.len() + 8 || ends(points, r, turns, turns.len() as int)
        }),
    decreases points.len() + 9 - ordered.len(),
{
    let d = before.last();
    let n = ordered.len() as int;
    let j = lemma_search_finds(points, start, ordered, d, 0);
    assert(ordered.last() == ordered[n - 1] && before.last() == before[n - 1]);
    match contour::search(points, start, ordered, (d + 6) % 8, 0) {
        Step::Advance(k) => {
            let q = contour::neighbour(ordered.last(), k);
            let longer = ordered.push(q);
            let turns = before.push(k);
            assert(looked_at(longer[n - 1], turns[n - 1], j) == q);
            lemma_same_beginning(points, ordered, longer, n, d, j);
            assert(steps_on(points, longer, turns, n));
            assert forall|m: int| 1 <= m < turns.len() implies #[trigger] steps_on(
                points,
                longer,
                turns,
                m,
            ) by {
                if m < n {
                    assert(steps_on(points, ordered, before, m));
                    lemma_step_stays(points, ordered, before, longer, turns, m);
                }
            }
            if longer.len() > points.len() + 8 {
                turns
            } else {
                lemma_trace_turns(points, start, longer, turns)
            }
        },
        _ => {
            assert(looked_at(ordered[n - 1], before[n - 1], j) == looked_at(ordered.last(), d, j));
            assert(ends(points, ordered, before, n));
            before
        },
    }
}

} // verus!
