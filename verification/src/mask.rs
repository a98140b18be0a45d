//! Pixel masks: which pixels of a sprite are solid.
//!
//! A mask holds one boolean per pixel, row by row.

use crate::grid;
use vstd::prelude::*;

verus! {

/// The mask of the pixels whose alpha is above the threshold.
pub open spec fn visible(pixels: Seq<u8>, n: int, threshold: u8) -> Seq<bool> {
    Seq::new(n as nat, |i: int| pixels[i * 4 + 3] > threshold)
}

/// Marks the pixels of an RGBA image whose alpha is above the threshold.
pub fn build_binary_mask(pixels: &[u8], width: u32, height: u32, threshold: u8) -> (r: Vec<bool>)
    requires
        width * height * 4 <= pixels@.len(),
    ensures
        r@ == visible(pixels@, width * height, threshold),
{
    let ghost n = width * height;
    assert(n >= 0) by (nonlinear_arith)
        requires
            n == width * height,
    ;
    let available: usize = pixels.len();
    let area: usize = width as usize * height as usize;
    let mut mask: Vec<bool> = Vec::with_capacity(area);
    for i in 0..area
        invariant
            area == width * height,
            area * 4 <= available,
            available == pixels@.len(),
            mask@ == visible(pixels@, i as int, threshold),
    {
        mask.push(pixels[i * 4 + 3] > threshold);
        assert(mask@ =~= visible(pixels@, i + 1, threshold));
    }
    mask
}

// ---- largest component ----

/// Of the first `k` cells, the first solid one whose component no component of
/// another of them exceeds.
pub open spec fn largest_start(mask: Seq<bool>, w: int, n: int, k: int) -> Option<int>
    decreases k,
{
    if k <= 0 {
        None
    } else {
        let best = largest_start(mask, w, n, k - 1);
        let c = k - 1;
        match best {
            None => if mask[c] {
                Some(c)
            } else {
                None
            },
            Some(b) => if mask[c] && grid::component(mask, w, n, c).len() > grid::component(
                mask,
                w,
                n,
                b,
            ).len() {
                Some(c)
            } else {
                best
            },
        }
    }
}

/// The mask of the largest component; of several equally large ones, of the one
/// with the first cell.
pub open spec fn largest_component(mask: Seq<bool>, w: int, n: int) -> Seq<bool> {
    match largest_start(mask, w, n, n) {
        None => Seq::new(mask.len(), |i: int| false),
        Some(s) => Seq::new(mask.len(), |i: int| grid::component(mask, w, n, s).contains(i)),
    }
}

/// No step between solid cells leads out of the marked cells.
spec fn closed_marks(mask: Seq<bool>, w: int, n: int, marks: Seq<bool>) -> bool {
    forall|c: int, d: int|
        #![trigger marks[c], grid::adjacent(w, c, d)]
        0 <= c < n && 0 <= d < n && marks[c] && grid::adjacent(w, c, d) && mask[d] ==> marks[d]
}

spec fn as_ints(s: Seq<usize>) -> Seq<int> {
    s.map_values(|i: usize| i as int)
}

/// State of a flood that started from unmarked cells: `done` and `todo` together
/// are what it has marked so far.
spec fn flooding(
    mask: Seq<bool>,
    w: int,
    n: int,
    start: int,
    before: Seq<bool>,
    marks: Seq<bool>,
    done: Seq<usize>,
    todo: Seq<usize>,
) -> bool {
    &&& marks.len() == before.len()
    &&& (done + todo).no_duplicates()
    &&& forall|i: int|
        0 <= i < (done + todo).len() ==> {
            let c = #[trigger] (done + todo)[i];
            c < n && grid::connected(mask, w, n, start, c as int) && !before[c as int]
                && marks[c as int]
        }
    &&& forall|c: usize|
        #![trigger marks[c as int]]
        c < n && marks[c as int] ==> before[c as int] || (done + todo).contains(c)
    &&& forall|c: usize|
        #![trigger marks[c as int]]
        #![trigger before[c as int]]
        c < n && before[c as int] ==> marks[c as int]
}

/// Marks a cell that the flood has reached and has yet to look at.
fn reach(
    mask: &[bool],
    marks: &mut Vec<bool>,
    todo: &mut Vec<usize>,
    c: usize,
    Ghost(w): Ghost<int>,
    Ghost(n): Ghost<int>,
    Ghost(start): Ghost<int>,
    Ghost(before): Ghost<Seq<bool>>,
    Ghost(done): Ghost<Seq<usize>>,
    Ghost(from): Ghost<int>,
)
    requires
        c < n <= mask@.len(),
        old(marks)@.len() == mask@.len(),
        before.len() == mask@.len(),
        flooding(mask@, w, n, start, before, old(marks)@, done, old(todo)@),
        grid::connected(mask@, w, n, start, from),
        grid::adjacent(w, from, c as int),
    ensures
        final(marks)@.len() == mask@.len(),
        flooding(mask@, w, n, start, before, final(marks)@, done, final(todo)@),
        mask@[c as int] ==> final(marks)@[c as int],
        forall|d: int| 0 <= d < n && old(marks)@[d] ==> #[trigger] final(marks)@[d],
{
    if marks[c] || !mask[c] {
        return;
    }
    let ghost old_marks = marks@;
    let ghost old_todo = todo@;
    marks.set(c, true);
    todo.push(c);
    proof {
        grid::lemma_connected_step(mask@, w, n, start, from, c as int);
        let all = done + old_todo;
        let now = done + todo@;
        assert(now =~= all.push(c));
        assert(!all.contains(c)) by {
            if all.contains(c) {
                let i = choose|i: int| 0 <= i < all.len() && all[i] == c;
                assert(old_marks[all[i] as int]);
            }
        }
        assert forall|i: int| 0 <= i < now.len() implies {
            let d = #[trigger] now[i];
            d < n && grid::connected(mask@, w, n, start, d as int) && !before[d as int]
                && marks@[d as int]
        } by {
            if i < all.len() {
                assert(now[i] == all[i]);
            } else {
                assert(!old_marks[c as int]);
            }
        }
        assert forall|d: usize|
            #![trigger marks@[d as int]]
            d < n && marks@[d as int] implies before[d as int] || now.contains(d) by {
            if d == c {
                assert(now[all.len() as int] == c);
            } else {
                assert(old_marks[d as int]);
                if all.contains(d) {
                    let i = choose|i: int| 0 <= i < all.len() && all[i] == d;
                    assert(now[i] == d);
                }
            }
        }
    }
}

/// Marks the component of an unmarked solid cell and lists its cells.
fn flood(mask: &[bool], w: usize, h: usize, marks: &mut Vec<bool>, start: usize) -> (r: Vec<usize>)
    requires
        w > 0,
        start < w * h <= mask@.len(),
        old(marks)@.len() == mask@.len(),
        closed_marks(mask@, w as int, w * h, old(marks)@),
        mask@[start as int],
        !old(marks)@[start as int],
    ensures
        final(marks)@.len() == mask@.len(),
        closed_marks(mask@, w as int, w * h, final(marks)@),
        as_ints(r@).no_duplicates(),
        as_ints(r@).to_set() == grid::component(mask@, w as int, w * h, start as int),
        forall|c: int|
            0 <= c < w * h ==> (#[trigger] final(marks)@[c] <==> old(marks)@[c]
                || grid::connected(mask@, w as int, w * h, start as int, c)),
{
    let limit: usize = mask.len();
    let ghost n: int = w * h;
    let ghost gw: int = w as int;
    let ghost before = marks@;
    let ghost m = mask@;
    let ghost s = start as int;
    let mut done: Vec<usize> = Vec::new();
    let mut todo: Vec<usize> = Vec::new();
    marks.set(start, true);
    todo.push(start);
    proof {
        grid::lemma_connected_self(m, gw, n, s);
        assert(done@ + todo@ =~= seq![start]);
        assert((done@ + todo@)[0] == start);
        assert(flooding(m, gw, n, s, before, marks@, done@, todo@));
    }
    while todo.len() > 0
        invariant
            w > 0,
            m == mask@,
            gw == w,
            n == w * h,
            n <= limit,
            limit == m.len(),
            before.len() == m.len(),
            marks@.len() == m.len(),
            marks@[s],
            0 <= s < n,
            closed_marks(m, gw, n, before),
            flooding(m, gw, n, s, before, marks@, done@, todo@),
            forall|i: int, d: int|
                #![trigger done@[i], grid::adjacent(gw, done@[i] as int, d)]
                0 <= i < done@.len() && grid::adjacent(gw, done@[i] as int, d) && 0 <= d < n
                    && m[d] ==> marks@[d],
        decreases n - done@.len(),
    {
        let ghost old_done = done@;
        let ghost old_todo = todo@;
        let ghost all = done@ + todo@;
        let c: usize = todo.pop().unwrap();
        done.push(c);
        proof {
            assert(all[all.len() - 1] == c);
            let now = done@ + todo@;
            // the same cells, `c` now among the ones that are done
            let k = old_done.len() as int;
            assert forall|i: int| 0 <= i < now.len() implies #[trigger] now[i] == all[if i < k {
                i
            } else if i == k {
                all.len() - 1
            } else {
                i - 1
            }] by {}
            assert(now.no_duplicates());
            assert forall|d: usize| all.contains(d) implies now.contains(d) by {
                let i = choose|i: int| 0 <= i < all.len() && all[i] == d;
                if i < k {
                    assert(now[i] == d);
                } else if i == all.len() - 1 {
                    assert(now[k] == d);
                } else {
                    assert(now[i + 1] == d);
                }
            }
            assert(flooding(m, gw, n, s, before, marks@, done@, todo@));
            assert(now[k] == c);
            grid::lemma_neighbours(gw, h as int, c as int);
            grid::lemma_cell(gw, h as int, c as int);
            lemma_done_bounded(m, gw, n, s, before, marks@, done@, todo@);
            lemma_done_bounded(m, gw, n, s, before, marks@, old_done, old_todo);
        }
        let x: usize = c % w;
        let y: usize = c / w;
        if x > 0 {
            assert(grid::adjacent(gw, c as int, c - 1));
            reach(
                mask,
                marks,
                &mut todo,
                c - 1,
                Ghost(gw),
                Ghost(n),
                Ghost(s),
                Ghost(before),
                Ghost(done@),
                Ghost(c as int),
            );
        }
        if x + 1 < w {
            assert(grid::adjacent(gw, c as int, c + 1));
            reach(
                mask,
                marks,
                &mut todo,
                c + 1,
                Ghost(gw),
                Ghost(n),
                Ghost(s),
                Ghost(before),
                Ghost(done@),
                Ghost(c as int),
            );
        }
        if y > 0 {
            assert(grid::adjacent(gw, c as int, c - w));
            reach(
                mask,
                marks,
                &mut todo,
                c - w,
                Ghost(gw),
                Ghost(n),
                Ghost(s),
                Ghost(before),
                Ghost(done@),
                Ghost(c as int),
            );
        }
        if y + 1 < h {
            assert(grid::adjacent(gw, c as int, c + w));
            reach(
                mask,
                marks,
                &mut todo,
                c + w,
                Ghost(gw),
                Ghost(n),
                Ghost(s),
                Ghost(before),
                Ghost(done@),
                Ghost(c as int),
            );
        }
        proof {
            assert forall|i: int, d: int|
                #![trigger done@[i], grid::adjacent(gw, done@[i] as int, d)]
                0 <= i < done@.len() && grid::adjacent(gw, done@[i] as int, d) && 0 <= d < n
                    && m[d] implies marks@[d] by {
                if i < old_done.len() {
                    assert(done@[i] == old_done[i]);
                }
            }
        }
    }
    proof {
        assert(done@ + todo@ =~= done@);
        lemma_flooded(m, gw, n, s, before, marks@, done@);
    }
    done
}

proof fn lemma_done_bounded(
    m: Seq<bool>,
    w: int,
    n: int,
    s: int,
    before: Seq<bool>,
    marks: Seq<bool>,
    done: Seq<usize>,
    todo: Seq<usize>,
)
    requires
        flooding(m, w, n, s, before, marks, done, todo),
        n >= 0,
    ensures
        done.len() <= n,
{
    let d = as_ints(done);
    let all = done + todo;
    assert forall|i: int| 0 <= i < d.len() implies 0 <= #[trigger] d[i] < n by {
        assert(all[i] == done[i]);
    }
    assert(d.no_duplicates()) by {
        assert forall|i: int, j: int| 0 <= i < d.len() && 0 <= j < d.len() && i != j implies d[i]
            != d[j] by {
            assert(all[i] == done[i] && all[j] == done[j]);
        }
    }
    grid::lemma_distinct_below(d, n);
}

/// A flood with nothing left to look at has marked exactly one component.
proof fn lemma_flooded(
    m: Seq<bool>,
    w: int,
    n: int,
    s: int,
    before: Seq<bool>,
    marks: Seq<bool>,
    done: Seq<usize>,
)
    requires
        flooding(m, w, n, s, before, marks, done, Seq::empty()),
        w > 0,
        0 <= s < n <= m.len(),
        n <= usize::MAX,
        marks[s],
        !before[s],
        closed_marks(m, w, n, before),
        exists|h: int| n == #[trigger] (w * h),
        forall|i: int, d: int|
            #![trigger done[i], grid::adjacent(w, done[i] as int, d)]
            0 <= i < done.len() && grid::adjacent(w, done[i] as int, d) && 0 <= d < n && m[d]
                ==> marks[d],
    ensures
        as_ints(done).no_duplicates(),
        as_ints(done).to_set() == grid::component(m, w, n, s),
        closed_marks(m, w, n, marks),
        forall|c: int|
            0 <= c < n ==> (#[trigger] marks[c] <==> before[c] || grid::connected(m, w, n, s, c)),
{
    let h = choose|h: int| n == #[trigger] (w * h);
    let empty = Seq::<usize>::empty();
    let all = done + empty;
    assert(all =~= done);
    let d = as_ints(done);
    let cells = d.to_set();
    assert forall|c: int| #[trigger] cells.contains(c) implies 0 <= c < n && done.contains(
        c as usize,
    ) && grid::connected(m, w, n, s, c) && !before[c] && marks[c] by {
        let i = choose|i: int| 0 <= i < d.len() && d[i] == c;
        assert(all[i] == done[i]);
        assert(done[i] as int == c);
        assert(done.contains(done[i]));
    }
    assert forall|c: int| 0 <= c < n && #[trigger] marks[c] && !before[c] implies cells.contains(
        c,
    ) by {
        let u = c as usize;
        assert(marks[u as int]);
        assert(all.contains(u));
        let i = choose|i: int| 0 <= i < all.len() && all[i] == u;
        assert(d[i] == c);
    }
    assert forall|c: int, e: int|
        #![trigger cells.contains(c), grid::adjacent(w, c, e)]
        cells.contains(c) && grid::adjacent(w, c, e) && 0 <= e < n && m[e] implies cells.contains(
        e,
    ) by {
        let i = choose|i: int| 0 <= i < d.len() && d[i] == c;
        assert(done[i] as int == c);
        assert(grid::adjacent(w, done[i] as int, e));
        assert(marks[e]);
        if before[e] {
            grid::lemma_neighbours(w, h, c);
            assert(grid::adjacent(w, e, c));
            grid::lemma_connected_open(m, w, n, s, c);
            assert(before[c]);
        }
    }
    assert(cells.contains(s));
    assert forall|c: int| cells.contains(c) <==> grid::component(m, w, n, s).contains(c) by {
        if grid::connected(m, w, n, s, c) {
            grid::lemma_closed(m, w, n, cells, s, c);
        }
    }
    assert(cells =~= grid::component(m, w, n, s));
    assert forall|c: int| 0 <= c < n implies (#[trigger] marks[c] <==> before[c] || grid::connected(
        m,
        w,
        n,
        s,
        c,
    )) by {
        if grid::connected(m, w, n, s, c) {
            assert(grid::component(m, w, n, s).contains(c));
            assert(cells.contains(c));
        }
        if before[c] {
            assert(before[(c as usize) as int]);
            assert(marks[(c as usize) as int]);
        }
    }
    assert forall|c: int, e: int|
        #![trigger marks[c], grid::adjacent(w, c, e)]
        0 <= c < n && 0 <= e < n && marks[c] && grid::adjacent(w, c, e) && m[e] implies marks[e] by {
        if before[c] {
            assert(before[e]);
        } else {
            assert(cells.contains(c));
            assert(cells.contains(e));
        }
    }
    assert(d.no_duplicates()) by {
        assert forall|i: int, j: int| 0 <= i < d.len() && 0 <= j < d.len() && i != j implies d[i]
            != d[j] by {
            assert(all[i] == done[i] && all[j] == done[j]);
        }
    }
}

/// Whether signed 32-bit numbers can count the columns and the rows.
pub open spec fn countable(width: u32, height: u32) -> bool {
    0 < width <= i32::MAX && 0 < height <= i32::MAX
}

/// Keeps only the largest component of a mask. The result is empty if the mask
/// or a side is, or if a side exceeds the range of `i32`.
pub fn keep_largest_mask_component(mask: &[bool], width: u32, height: u32) -> (r: Vec<bool>)
    requires
        mask@.len() > 0 && countable(width, height) ==> width * height <= mask@.len() && width
            * height <= i32::MAX,
    ensures
        r@ == (if mask@.len() > 0 && countable(width, height) {
            largest_component(mask@, width as int, width * height)
        } else {
            Seq::empty()
        }),
{
    if width == 0 || height == 0 || width > 0x7fff_ffff || height > 0x7fff_ffff || mask.len() == 0 {
        return Vec::new();
    }
    let w = width as usize;
    let h = height as usize;
    assert(w * h == width * height);
    assert(w * h > 0) by (nonlinear_arith)
        requires
            w > 0,
            h > 0,
    ;
    let area: usize = w * h;
    let mut marks: Vec<bool> = vec![false; mask.len()];
    let mut largest: Vec<usize> = Vec::new();
    let ghost m = mask@;
    let ghost gw: int = w as int;
    let ghost n: int = area as int;
    for c in 0..area
        invariant
            w > 0,
            area == w * h,
            n == area,
            gw == w,
            m == mask@,
            n <= m.len(),
            marks@.len() == m.len(),
            closed_marks(m, gw, n, marks@),
            as_ints(largest@).no_duplicates(),
            match largest_start(m, gw, n, c as int) {
                None => largest@.len() == 0,
                Some(b) => as_ints(largest@).to_set() == grid::component(m, gw, n, b),
            },
            forall|i: int| 0 <= i < n && #[trigger] marks@[i] ==> seen_by(m, gw, n, c as int, i),
            forall|i: int| 0 <= i < c && m[i] ==> #[trigger] marks@[i],
    {
        let ghost old_marks = marks@;
        let ghost old_largest = largest@;
        let ghost best = largest_start(m, gw, n, c as int);
        proof {
            as_ints(largest@).unique_seq_to_set();
            if best is None {
                assert(as_ints(largest@).to_set() =~= Set::empty());
            }
        }
        if !marks[c] && mask[c] {
            let cells = flood(mask, w, h, &mut marks, c);
            proof {
                as_ints(cells@).unique_seq_to_set();
                grid::lemma_connected_self(m, gw, n, c as int);
                assert(grid::component(m, gw, n, c as int).contains(c as int));
                if cells@.len() == 0 {
                    assert(as_ints(cells@).to_set().contains(c as int));
                    assert(false);
                }
            }
            if cells.len() > largest.len() {
                largest = cells;
            }
        } else {
            proof {
                if m[c as int] {
                    assert(seen_by(m, gw, n, c as int, c as int));
                }
            }
        }
        proof {
            let next = largest_start(m, gw, n, c + 1);
            assert forall|i: int| 0 <= i < n && #[trigger] marks@[i] implies seen_by(
                m,
                gw,
                n,
                c + 1,
                i,
            ) by {
                if old_marks[i] {
                    assert(seen_by(m, gw, n, c as int, i));
                } else {
                    grid::lemma_same_component(m, gw, n, c as int, i);
                }
            }
            assert forall|i: int| 0 <= i < c + 1 && m[i] implies #[trigger] marks@[i] by {
                if i < c {
                    assert(old_marks[i]);
                } else {
                    grid::lemma_connected_self(m, gw, n, i);
                }
            }
        }
    }
    let mut cleaned: Vec<bool> = vec![false; mask.len()];
    let ghost cells = as_ints(largest@);
    proof {
        assert forall|i: int| 0 <= i < cells.len() implies 0 <= #[trigger] cells[i] < m.len() by {
            assert(cells.to_set().contains(cells[i]));
            let b = largest_start(m, gw, n, n)->0;
            grid::lemma_connected_open(m, gw, n, b, cells[i]);
        }
    }
    for k in 0..largest.len()
        invariant
            cleaned@.len() == m.len(),
            cells == as_ints(largest@),
            forall|i: int| 0 <= i < cells.len() ==> 0 <= #[trigger] cells[i] < m.len(),
            forall|i: int|
                0 <= i < m.len() ==> (#[trigger] cleaned@[i] <==> cells.take(k as int).contains(i)),
    {
        assert(cells[k as int] == largest@[k as int]);
        let ghost old_cleaned = cleaned@;
        cleaned.set(largest[k], true);
        proof {
            let now = cells.take(k + 1);
            assert(now =~= cells.take(k as int).push(cells[k as int]));
            assert forall|i: int| 0 <= i < m.len() implies (#[trigger] cleaned@[i] <==> now.contains(
                i,
            )) by {
                if cells.take(k as int).contains(i) {
                    let j = choose|j: int| 0 <= j < k && cells.take(k as int)[j] == i;
                    assert(now[j] == i);
                }
                if i == cells[k as int] {
                    assert(now[k as int] == i);
                }
                if now.contains(i) && i != cells[k as int] {
                    let j = choose|j: int| 0 <= j < now.len() && now[j] == i;
                    assert(cells.take(k as int)[j] == i);
                }
                assert(i != cells[k as int] ==> cleaned@[i] == old_cleaned[i]);
            }
        }
    }
    proof {
        assert(cells.take(cells.len() as int) =~= cells);
        match largest_start(m, gw, n, n) {
            None => {},
            Some(b) => {
                assert forall|i: int| 0 <= i < m.len() implies (#[trigger] cleaned@[i]
                    <==> grid::component(m, gw, n, b).contains(i)) by {
                    assert(cells.contains(i) <==> cells.to_set().contains(i));
                }
            },
        }
        assert(cleaned@ =~= largest_component(m, gw, n));
    }
    cleaned
}

/// The component of the cell `i` has been weighed among those of the first `k`.
spec fn seen_by(m: Seq<bool>, w: int, n: int, k: int, i: int) -> bool {
    match largest_start(m, w, n, k) {
        None => false,
        Some(b) => grid::component(m, w, n, i).len() <= grid::component(m, w, n, b).len(),
    }
}

// ---- border ----

/// The pixel in column `x` of row `y` is inside of the grid and solid.
pub open spec fn solid(mask: Seq<bool>, w: int, h: int, x: int, y: int) -> bool {
    0 <= x < w && 0 <= y < h && mask[y * w + x]
}

/// A solid pixel with a side that no solid pixel shares.
pub open spec fn on_border(mask: Seq<bool>, w: int, h: int, x: int, y: int) -> bool {
    solid(mask, w, h, x, y) && !(solid(mask, w, h, x - 1, y) && solid(mask, w, h, x + 1, y)
        && solid(mask, w, h, x, y - 1) && solid(mask, w, h, x, y + 1))
}

/// The border pixels among the first `k`, row by row.
pub open spec fn border(mask: Seq<bool>, w: int, h: int, k: int) -> Seq<(i32, i32)>
    decreases k,
{
    if k <= 0 {
        Seq::empty()
    } else {
        let rest = border(mask, w, h, k - 1);
        let x = (k - 1) % w;
        let y = (k - 1) / w;
        if on_border(mask, w, h, x, y) {
            rest.push((x as i32, y as i32))
        } else {
            rest
        }
    }
}

fn is_solid(mask: &[bool], w: i32, h: i32, x: i32, y: i32) -> (r: bool)
    requires
        w > 0,
        h > 0,
        w * h <= mask@.len(),
        w * h <= i32::MAX,
    ensures
        r == solid(mask@, w as int, h as int, x as int, y as int),
{
    if x < 0 || x >= w || y < 0 || y >= h {
        return false;
    }
    proof {
        grid::lemma_cell_at(w as int, h as int, x as int, y as int);
        assert(0 <= y * w) by (nonlinear_arith)
            requires
                y >= 0,
                w > 0,
        ;
    }
    mask[(y * w + x) as usize]
}

/// The solid pixels with a side that no solid pixel shares, row by row. There
/// are none if a side exceeds the range of `i32`.
pub fn extract_border_pixels(mask: &[bool], width: u32, height: u32) -> (r: Vec<(i32, i32)>)
    requires
        countable(width, height) ==> width * height <= mask@.len() && width * height <= i32::MAX,
    ensures
        r@ == (if countable(width, height) {
            border(mask@, width as int, height as int, width * height)
        } else {
            Seq::empty()
        }),
{
    if width == 0 || height == 0 || width > 0x7fff_ffff || height > 0x7fff_ffff {
        return Vec::new();
    }
    let w: i32 = width as i32;
    let h: i32 = height as i32;
    let ghost n: int = w * h;
    assert(n > 0) by (nonlinear_arith)
        requires
            n == w * h,
            w > 0,
            h > 0,
    ;
    let area: i32 = w * h;
    let mut found: Vec<(i32, i32)> = Vec::new();
    for c in 0..area
        invariant
            w > 0,
            h > 0,
            area == w * h,
            w * h <= mask@.len(),
            w * h <= i32::MAX,
            found@ == border(mask@, w as int, h as int, c as int),
    {
        proof {
            grid::lemma_cell(w as int, h as int, c as int);
        }
        let x: i32 = c % w;
        let y: i32 = c / w;
        if is_solid(mask, w, h, x, y) && !(is_solid(mask, w, h, x - 1, y) && is_solid(
            mask,
            w,
            h,
            x + 1,
            y,
        ) && is_solid(mask, w, h, x, y - 1) && is_solid(mask, w, h, x, y + 1)) {
            found.push((x, y));
        }
    }
    found
}

// ---- laws ----

/// Every solid cell is in a component, and none is larger than the one that is
/// kept.
pub proof fn law_largest_component_is_largest(mask: Seq<bool>, w: int, n: int, i: int)
    requires
        0 <= i < n <= mask.len(),
        mask[i],
    ensures
        largest_start(mask, w, n, n) matches Some(s) && mask[s] && 0 <= s < n && grid::component(
            mask,
            w,
            n,
            i,
        ).len() <= grid::component(mask, w, n, s).len(),
{
    lemma_largest_start(mask, w, n, n, i);
}

proof fn lemma_largest_start(mask: Seq<bool>, w: int, n: int, k: int, i: int)
    requires
        0 <= i < k <= n <= mask.len(),
        mask[i],
    ensures
        largest_start(mask, w, n, k) matches Some(s) && mask[s] && 0 <= s < k && grid::component(
            mask,
            w,
            n,
            i,
        ).len() <= grid::component(mask, w, n, s).len(),
    decreases k,
{
    if i < k - 1 {
        lemma_largest_start(mask, w, n, k - 1, i);
    } else {
        match largest_start(mask, w, n, k - 1) {
            None => {},
            Some(b) => {
                lemma_start_is_solid(mask, w, n, k - 1);
            },
        }
    }
}

proof fn lemma_start_is_solid(mask: Seq<bool>, w: int, n: int, k: int)
    ensures
        largest_start(mask, w, n, k) matches Some(s) ==> mask[s] && 0 <= s < k,
    decreases k,
{
    if k > 0 {
        lemma_start_is_solid(mask, w, n, k - 1);
    }
}

/// Of equally large components the one with the first cell is kept: every cell
/// before the start has a smaller component, or is not solid.
pub proof fn law_largest_component_is_first(mask: Seq<bool>, w: int, n: int, i: int)
    requires
        0 <= n <= mask.len(),
        largest_start(mask, w, n, n) matches Some(s) && 0 <= i < s,
        mask[i],
    ensures
        largest_start(mask, w, n, n) matches Some(s) && grid::component(mask, w, n, i).len()
            < grid::component(mask, w, n, s).len(),
{
    lemma_first_start(mask, w, n, n, i);
}

proof fn lemma_first_start(mask: Seq<bool>, w: int, n: int, k: int, i: int)
    requires
        k <= n <= mask.len(),
        largest_start(mask, w, n, k) matches Some(s) && 0 <= i < s,
        mask[i],
    ensures
        largest_start(mask, w, n, k) matches Some(s) && grid::component(mask, w, n, i).len()
            < grid::component(mask, w, n, s).len(),
    decreases k,
{
    let s = largest_start(mask, w, n, k)->0;
    lemma_start_is_solid(mask, w, n, k);
    if largest_start(mask, w, n, k - 1) == Some(s) {
        lemma_first_start(mask, w, n, k - 1, i);
    } else {
        lemma_largest_start(mask, w, n, k - 1, i);
    }
}

/// What is kept of a mask is solid in it, and any two kept cells are connected.
pub proof fn law_kept_cells_are_solid_and_connected(
    mask: Seq<bool>,
    w: int,
    n: int,
    i: int,
    j: int,
)
    requires
        0 <= n <= mask.len(),
        0 <= i < mask.len(),
        0 <= j < mask.len(),
        largest_component(mask, w, n)[i],
        largest_component(mask, w, n)[j],
    ensures
        mask[i],
        grid::connected(mask, w, n, i, j),
{
    let s = largest_start(mask, w, n, n)->0;
    grid::lemma_connected_open(mask, w, n, s, i);
    grid::lemma_connected_back(mask, w, n, s, i);
    grid::lemma_connected_through(mask, w, n, i, s, j);
}

/// The border holds exactly the border pixels.
pub proof fn law_border_is_complete(mask: Seq<bool>, w: int, h: int, x: i32, y: i32)
    requires
        0 < w <= i32::MAX,
        0 < h <= i32::MAX,
    ensures
        border(mask, w, h, w * h).contains((x, y)) <==> on_border(
            mask,
            w,
            h,
            x as int,
            y as int,
        ),
{
    assert(w * h >= 0) by (nonlinear_arith)
        requires
            w > 0,
            h > 0,
    ;
    if on_border(mask, w, h, x as int, y as int) {
        grid::lemma_cell_at(w, h, x as int, y as int);
        lemma_border_has(mask, w, h, w * h, y * w + x);
    }
    if border(mask, w, h, w * h).contains((x, y)) {
        let b = border(mask, w, h, w * h);
        let i = choose|i: int| 0 <= i < b.len() && b[i] == (x, y);
        lemma_border_is(mask, w, h, w * h, i);
    }
}

proof fn lemma_border_has(mask: Seq<bool>, w: int, h: int, k: int, c: int)
    requires
        0 < w <= i32::MAX,
        0 < h <= i32::MAX,
        0 <= c < k <= w * h,
        on_border(mask, w, h, c % w, c / w),
    ensures
        border(mask, w, h, k).contains(((c % w) as i32, (c / w) as i32)),
    decreases k,
{
    let b = border(mask, w, h, k);
    let rest = border(mask, w, h, k - 1);
    let p = ((c % w) as i32, (c / w) as i32);
    if c < k - 1 {
        lemma_border_has(mask, w, h, k - 1, c);
        let i = choose|i: int| 0 <= i < rest.len() && rest[i] == p;
        assert(b[i] == p);
    } else {
        assert(b[rest.len() as int] == p);
    }
}

/// Every element of the border is a border pixel.
pub proof fn lemma_border_is(mask: Seq<bool>, w: int, h: int, k: int, i: int)
    requires
        0 < w <= i32::MAX,
        0 < h <= i32::MAX,
        0 <= k <= w * h,
        0 <= i < border(mask, w, h, k).len(),
    ensures
        on_border(
            mask,
            w,
            h,
            border(mask, w, h, k)[i].0 as int,
            border(mask, w, h, k)[i].1 as int,
        ),
    decreases k,
{
    let rest = border(mask, w, h, k - 1);
    if k > 0 {
        if i < rest.len() {
            lemma_border_is(mask, w, h, k - 1, i);
        } else {
            grid::lemma_cell(w, h, k - 1);
        }
    }
}

} // verus!
