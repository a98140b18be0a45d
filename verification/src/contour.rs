//! Contours: the border pixels in the order of a walk around them.

use std::collections::HashSet;
use vstd::prelude::*;

verus! {

/// The eight directions to a neighbouring pixel, clockwise from the right in an
/// image whose rows run downwards.
pub open spec fn direction(k: int) -> (int, int) {
    if k == 0 {
        (1, 0)
    } else if k == 1 {
        (1, 1)
    } else if k == 2 {
        (0, 1)
    } else if k == 3 {
        (-1, 1)
    } else if k == 4 {
        (-1, 0)
    } else if k == 5 {
        (-1, -1)
    } else if k == 6 {
        (0, -1)
    } else {
        (1, -1)
    }
}

/// The neighbour of `p` in a direction.
pub open spec fn neighbour(p: (i32, i32), k: int) -> (i32, i32) {
    ((p.0 + direction(k).0) as i32, (p.1 + direction(k).1) as i32)
}

/// What the search for the next pixel of a contour finds.
pub enum Step {
    /// The contour is back at its start.
    Close,
    /// The next pixel is in this direction.
    Advance(int),
    /// There is no next pixel.
    Stuck,
}

/// The pixel before the last one, which a contour does not go back to.
pub open spec fn behind(ordered: Seq<(i32, i32)>) -> (i32, i32) {
    if ordered.len() >= 2 {
        ordered[ordered.len() - 2]
    } else {
        ordered[0]
    }
}

/// Looks at the directions `from + i`, `from + i + 1`, ... `from + 7` in turn.
pub open spec fn search(
    points: Seq<(i32, i32)>,
    start: (i32, i32),
    ordered: Seq<(i32, i32)>,
    from: int,
    i: int,
) -> Step
    decreases 8 - i,
{
    if i >= 8 {
        Step::Stuck
    } else {
        let k = (from + i) % 8;
        let next = neighbour(ordered.last(), k);
        if next == start && ordered.len() > 2 {
            Step::Close
        } else if points.contains(next) && next != behind(ordered) {
            Step::Advance(k)
        } else {
            search(points, start, ordered, from, i + 1)
        }
    }
}

/// The contour that begins with `ordered`, whose last step went in the direction
/// `previous`: each search begins two directions to the left of the last step.
pub open spec fn trace_from(
    points: Seq<(i32, i32)>,
    start: (i32, i32),
    ordered: Seq<(i32, i32)>,
    previous: int,
) -> Seq<(i32, i32)>
    decreases points.len() + 9 - ordered.len(),
{
    match search(points, start, ordered, (previous + 6) % 8, 0) {
        Step::Advance(k) => {
            let longer = ordered.push(neighbour(ordered.last(), k));
            if longer.len() > points.len() + 8 {
                longer
            } else {
                trace_from(points, start, longer, k)
            }
        },
        _ => ordered,
    }
}

/// The order in which an image is scanned: by row, then by column.
pub open spec fn scanned_before(a: (i32, i32), b: (i32, i32)) -> bool {
    a.1 < b.1 || (a.1 == b.1 && a.0 < b.0)
}

/// The point that a scan of the image meets first.
pub open spec fn first_scanned(points: Seq<(i32, i32)>) -> (i32, i32)
    decreases points.len(),
{
    if points.len() <= 1 {
        points[0]
    } else {
        let best = first_scanned(points.drop_last());
        if scanned_before(points.last(), best) {
            points.last()
        } else {
            best
        }
    }
}

/// The contour traced through border pixels.
pub open spec fn trace(points: Seq<(i32, i32)>) -> Seq<(i32, i32)> {
    if points.len() == 0 {
        Seq::empty()
    } else {
        trace_from(points, first_scanned(points), seq![first_scanned(points)], 4)
    }
}

/// A point whose neighbours all have coordinates.
pub open spec fn interior(p: (i32, i32)) -> bool {
    i32::MIN < p.0 < i32::MAX && i32::MIN < p.1 < i32::MAX
}

/// A point as one number.
spec fn key(p: (i32, i32)) -> int {
    (p.0 + 0x8000_0000) * 0x1_0000_0000 + (p.1 + 0x8000_0000)
}

fn key_of(p: (i32, i32)) -> (r: u64)
    ensures
        r == key(p),
{
    let a: u64 = (p.0 as i64 + 0x8000_0000) as u64;
    let b: u64 = (p.1 as i64 + 0x8000_0000) as u64;
    a * 0x1_0000_0000 + b
}

fn offset(k: usize) -> (r: (i32, i32))
    requires
        k < 8,
    ensures
        (r.0 as int, r.1 as int) == direction(k as int),
        -1 <= r.0 <= 1,
        -1 <= r.1 <= 1,
{
    if k == 0 {
        (1, 0)
    } else if k == 1 {
        (1, 1)
    } else if k == 2 {
        (0, 1)
    } else if k == 3 {
        (-1, 1)
    } else if k == 4 {
        (-1, 0)
    } else if k == 5 {
        (-1, -1)
    } else if k == 6 {
        (0, -1)
    } else {
        (1, -1)
    }
}

/// The numbers of `points`.
spec fn keys_of(points: Seq<(i32, i32)>, keys: Set<u64>) -> bool {
    forall|p: (i32, i32)|
        #![trigger points.contains(p)]
        #![trigger key(p)]
        points.contains(p) <==> keys.contains(key(p) as u64)
}

fn collect_keys(points: &[(i32, i32)]) -> (r: HashSet<u64>)
    ensures
        keys_of(points@, r@),
{
    broadcast use vstd::std_specs::hash::group_hash_axioms;

    let mut set: HashSet<u64> = HashSet::new();
    for i in 0..points.len()
        invariant
            keys_of(points@.take(i as int), set@),
    {
        let ghost old_set = set@;
        let k = key_of(points[i]);
        set.insert(k);
        proof {
            let before = points@.take(i as int);
            let now = points@.take(i + 1);
            assert(now =~= before.push(points@[i as int]));
            assert forall|p: (i32, i32)|
                #![trigger now.contains(p)]
                #![trigger key(p)]
                now.contains(p) <==> set@.contains(key(p) as u64) by {
                assert(before.contains(p) <==> old_set.contains(key(p) as u64));
                if before.contains(p) {
                    let j = choose|j: int| 0 <= j < before.len() && before[j] == p;
                    assert(now[j] == p);
                }
                if p == points@[i as int] {
                    assert(now[i as int] == p);
                }
                if now.contains(p) && p != points@[i as int] {
                    let j = choose|j: int| 0 <= j < now.len() && now[j] == p;
                    assert(before[j] == p);
                }
                if key(p) as u64 == k {
                    assert(p == points@[i as int]);
                }
            }
        }
    }
    assert(points@.take(points@.len() as int) =~= points@);
    set
}

/// Traces the outline through border pixels, from the pixel that a scan meets
/// first, until it is back there or cannot go on.
pub fn trace_contour(border_pixels: &[(i32, i32)]) -> (r: Vec<(i32, i32)>)
    requires
        forall|i: int| 0 <= i < border_pixels@.len() ==> interior(#[trigger] border_pixels@[i]),
    ensures
        r@ == trace(border_pixels@),
{
    broadcast use vstd::std_specs::hash::group_hash_axioms;

    let n = border_pixels.len();
    if n == 0 {
        return Vec::new();
    }
    let set = collect_keys(border_pixels);
    let ghost points = border_pixels@;
    let mut start = border_pixels[0];
    for i in 1..n
        invariant
            n == border_pixels@.len(),
            1 <= i <= n,
            start == first_scanned(border_pixels@.take(i as int)),
            border_pixels@.contains(start),
    {
        let p = border_pixels[i];
        assert(border_pixels@.take(i + 1).drop_last() =~= border_pixels@.take(i as int));
        if p.1 < start.1 || (p.1 == start.1 && p.0 < start.0) {
            start = p;
        }
    }
    assert(points.take(n as int) =~= points);
    let mut ordered: Vec<(i32, i32)> = Vec::new();
    ordered.push(start);
    assert(ordered@ =~= seq![start]);
    let mut current = start;
    let mut previous: usize = 4;
    loop
        invariant_except_break
            keys_of(points, set@),
            points == border_pixels@,
            n == points.len(),
            forall|i: int| 0 <= i < points.len() ==> interior(#[trigger] points[i]),
            points.contains(current),
            ordered@.len() >= 1,
            ordered@.len() <= n + 8,
            ordered@.last() == current,
            previous < 8,
            trace_from(points, start, ordered@, previous as int) == trace(points),
        ensures
            ordered@ == trace(points),
        decreases n + 9 - ordered@.len(),
    {
        let from: usize = (previous + 6) % 8;
        let mut found: Option<usize> = None;
        let mut closed = false;
        let mut i: usize = 0;
        assert(interior(current)) by {
            let j = choose|j: int| 0 <= j < points.len() && points[j] == current;
            assert(interior(points[j]));
        }
        while i < 8 && found.is_none() && !closed
            invariant
                keys_of(points, set@),
                interior(current),
                ordered@.len() >= 1,
                ordered@.last() == current,
                from < 8,
                i <= 8,
                match found {
                    Some(k) => !closed && k < 8 && points.contains(neighbour(current, k as int))
                        && search(points, start, ordered@, from as int, 0) == Step::Advance(
                        k as int,
                    ),
                    None => if closed {
                        search(points, start, ordered@, from as int, 0) == Step::Close
                    } else {
                        search(points, start, ordered@, from as int, 0) == search(
                            points,
                            start,
                            ordered@,
                            from as int,
                            i as int,
                        )
                    },
                },
            decreases 8 - i,
        {
            let k: usize = (from + i) % 8;
            let d = offset(k);
            let next = (current.0 + d.0, current.1 + d.1);
            let last = if ordered.len() >= 2 {
                ordered[ordered.len() - 2]
            } else {
                ordered[0]
            };
            assert(next == neighbour(current, k as int));
            if next.0 == start.0 && next.1 == start.1 && ordered.len() > 2 {
                closed = true;
            } else {
                let number = key_of(next);
                assert(points.contains(next) <==> set@.contains(key(next) as u64));
                if set.contains(&number) && (next.0 != last.0 || next.1 != last.1) {
                    found = Some(k);
                }
            }
            i = i + 1;
        }
        match found {
            Some(k) => {
                let d = offset(k);
                current = (current.0 + d.0, current.1 + d.1);
                ordered.push(current);
                previous = k;
                if ordered.len() > 8 && ordered.len() - 8 > n {
                    break;
                }
            },
            None => {
                break;
            },
        }
    }
    ordered
}

// ---- laws of tracing ----

/// Every point of a traced contour is one of the border pixels.
pub proof fn law_trace_stays_on_border(points: Seq<(i32, i32)>, i: int)
    requires
        0 <= i < trace(points).len(),
    ensures
        points.contains(trace(points)[i]),
{
    let start = first_scanned(points);
    lemma_first_scanned(points);
    lemma_trace_from(points, start, seq![start], 4);
}

proof fn lemma_first_scanned(points: Seq<(i32, i32)>)
    requires
        points.len() > 0,
    ensures
        points.contains(first_scanned(points)),
        forall|p: (i32, i32)| #[trigger]
            points.contains(p) ==> !scanned_before(p, first_scanned(points)),
    decreases points.len(),
{
    assert(points[points.len() - 1] == points.last());
    if points.len() > 1 {
        let rest = points.drop_last();
        lemma_first_scanned(rest);
        let j = choose|j: int| 0 <= j < rest.len() && rest[j] == first_scanned(rest);
        assert(points[j] == first_scanned(rest));
        assert forall|p: (i32, i32)| #[trigger] points.contains(p) implies !scanned_before(
            p,
            first_scanned(points),
        ) by {
            let i = choose|i: int| 0 <= i < points.len() && points[i] == p;
            if i < rest.len() {
                assert(rest[i] == p);
                assert(rest.contains(p));
            }
        }
    }
}

/// A contour starts at the pixel that no other precedes in a scan of the image.
pub proof fn law_trace_starts_at_first(points: Seq<(i32, i32)>, p: (i32, i32))
    requires
        points.contains(p),
    ensures
        trace(points).len() >= 1,
        points.contains(trace(points)[0]),
        !scanned_before(p, trace(points)[0]),
{
    let start = first_scanned(points);
    lemma_first_scanned(points);
    lemma_trace_from(points, start, seq![start], 4);
}

proof fn lemma_search(
    points: Seq<(i32, i32)>,
    start: (i32, i32),
    ordered: Seq<(i32, i32)>,
    from: int,
    i: int,
)
    requires
        0 <= from,
        0 <= i,
    ensures
        search(points, start, ordered, from, i) matches Step::Advance(k) ==> 0 <= k < 8
            && points.contains(neighbour(ordered.last(), k)),
    decreases 8 - i,
{
    if i < 8 {
        lemma_search(points, start, ordered, from, i + 1);
    }
}

/// Each point after the first is in one of the eight directions from the one
/// before it.
spec fn in_steps(s: Seq<(i32, i32)>) -> bool {
    forall|i: int, j: int|
        0 <= i && j == i + 1 && j < s.len() ==> one_step(#[trigger] s[i], #[trigger] s[j])
}

/// `b` is one of the eight neighbours of `a`.
pub open spec fn one_step(a: (i32, i32), b: (i32, i32)) -> bool {
    -1 <= b.0 - a.0 <= 1 && -1 <= b.1 - a.1 <= 1 && a != b
}

proof fn lemma_trace_from(
    points: Seq<(i32, i32)>,
    start: (i32, i32),
    ordered: Seq<(i32, i32)>,
    previous: int,
)
    requires
        ordered.len() >= 1,
        0 <= previous,
        forall|i: int| 0 <= i < ordered.len() ==> points.contains(#[trigger] ordered[i]),
    ensures
        ({
            let r = trace_from(points, start, ordered, previous);
            &&& r.len() >= ordered.len()
            &&& forall|i: int| 0 <= i < ordered.len() ==> #[trigger] r[i] == ordered[i]
            &&& forall|i: int| 0 <= i < r.len() ==> points.contains(#[trigger] r[i])
            &&& (in_steps(ordered) && forall|i: int|
                0 <= i < points.len() ==> interior(#[trigger] points[i])) ==> in_steps(r)
            &&& ordered.len() <= points.len() + 8 ==> r.len() <= points.len() + 9
        }),
    decreases points.len() + 9 - ordered.len(),
{
    lemma_search(points, start, ordered, (previous + 6) % 8, 0);
    match search(points, start, ordered, (previous + 6) % 8, 0) {
        Step::Advance(k) => {
            let last = ordered.last();
            let longer = ordered.push(neighbour(last, k));
            if in_steps(ordered) && forall|i: int|
                0 <= i < points.len() ==> interior(#[trigger] points[i]) {
                assert(points.contains(ordered[ordered.len() - 1]));
                let m = choose|m: int| 0 <= m < points.len() && points[m] == last;
                assert(interior(points[m]));
                assert(one_step(last, neighbour(last, k)));
                assert(in_steps(longer));
            }
            if longer.len() <= points.len() + 8 {
                lemma_trace_from(points, start, longer, k);
            }
        },
        _ => {},
    }
}

/// A traced contour goes from each pixel to one of its eight neighbours.
pub proof fn law_trace_goes_in_steps(points: Seq<(i32, i32)>, i: int)
    requires
        forall|i: int| 0 <= i < points.len() ==> interior(#[trigger] points[i]),
        0 <= i < trace(points).len() - 1,
    ensures
        one_step(trace(points)[i], trace(points)[i + 1]),
{
    let start = first_scanned(points);
    lemma_first_scanned(points);
    lemma_trace_from(points, start, seq![start], 4);
}

/// Tracing ends: a contour has at most nine more points than there are pixels.
pub proof fn law_trace_is_bounded(points: Seq<(i32, i32)>)
    ensures
        trace(points).len() <= points.len() + 9,
{
    if points.len() > 0 {
        let start = first_scanned(points);
        lemma_first_scanned(points);
        lemma_trace_from(points, start, seq![start], 4);
    }
}

} // verus!
