//! Removal of an opaque background from a mask.
//!
//! A sprite that fills nearly all of its image probably has a background that is
//! not transparent. The background is what can be reached from the edge of the
//! image through pixels that look like its corners.

use crate::float::F32;
use crate::grid;
use vstd::prelude::*;

verus! {

/// 0.9: a mask that fills less of the image is left alone.
pub const LEAST_FILL: u32 = 0x3f66_6666;

/// 0.015: a background that leaves less of the image is left alone.
pub const LEAST_KEPT: u32 = 0x3c75_c28f;

/// 0.97: a background that leaves more of the image is left alone.
pub const MOST_KEPT: u32 = 0x3f78_51ec;

/// The number of solid pixels of a mask.
pub open spec fn count_solid(mask: Seq<bool>) -> nat
    decreases mask.len(),
{
    if mask.len() == 0 {
        0
    } else {
        count_solid(mask.drop_last()) + if mask.last() {
            1nat
        } else {
            0nat
        }
    }
}

/// `count` of `area`, as a rounded quotient.
pub open spec fn ratio(count: nat, area: int) -> F32 {
    F32::spec_from_int(count as int).spec_div(F32::spec_from_int(area))
}

/// One colour channel of a pixel.
pub open spec fn channel(pixels: Seq<u8>, i: int, c: int) -> int {
    pixels[i * 4 + c] as int
}

/// The mean of a channel over the four corners.
pub open spec fn corner_mean(pixels: Seq<u8>, w: int, h: int, c: int) -> int {
    (channel(pixels, 0, c) + channel(pixels, w - 1, c) + channel(pixels, (h - 1) * w, c) + channel(
        pixels,
        (h - 1) * w + (w - 1),
        c,
    )) / 4
}

pub open spec fn square(a: int) -> int {
    a * a
}

/// A pixel above the threshold whose colour is close to the mean of the corners.
pub open spec fn like_corners(pixels: Seq<u8>, w: int, h: int, threshold: u8, i: int) -> bool {
    channel(pixels, i, 3) > threshold && square(
        channel(pixels, i, 0) - corner_mean(pixels, w, h, 0),
    ) + square(channel(pixels, i, 1) - corner_mean(pixels, w, h, 1)) + square(
        channel(pixels, i, 2) - corner_mean(pixels, w, h, 2),
    ) <= 5200
}

/// The solid pixels that look like the corners.
pub open spec fn candidates(
    pixels: Seq<u8>,
    w: int,
    h: int,
    mask: Seq<bool>,
    threshold: u8,
) -> Seq<bool> {
    Seq::new((w * h) as nat, |i: int| mask[i] && like_corners(pixels, w, h, threshold, i))
}

/// A cell in the first or last column or row.
pub open spec fn on_edge(w: int, h: int, i: int) -> bool {
    0 <= i < w * h && (i % w == 0 || i % w == w - 1 || i / w == 0 || i / w == h - 1)
}

/// A candidate that is connected with the edge through candidates.
pub open spec fn is_background(open: Seq<bool>, w: int, h: int, i: int) -> bool {
    exists|e: int| on_edge(w, h, e) && #[trigger] grid::connected(open, w, w * h, e, i)
}

/// The mask without its background.
pub open spec fn foreground(
    pixels: Seq<u8>,
    w: int,
    h: int,
    mask: Seq<bool>,
    threshold: u8,
) -> Seq<bool> {
    let open = candidates(pixels, w, h, mask, threshold);
    Seq::new((w * h) as nat, |i: int| mask[i] && !is_background(open, w, h, i))
}

/// The mask fills enough of the image for a background to be looked for.
pub open spec fn may_have_background(w: int, h: int, mask: Seq<bool>) -> bool {
    w > 0 && h > 0 && mask.len() > 0 && !ratio(count_solid(mask), w * h).spec_lt(
        F32 { bits: LEAST_FILL },
    )
}

/// `kept` of `area` pixels is neither too little nor nearly all.
pub open spec fn plausible(kept: nat, area: int) -> bool {
    kept >= 3 && (F32 { bits: LEAST_KEPT }).spec_le(ratio(kept, area)) && ratio(
        kept,
        area,
    ).spec_le(F32 { bits: MOST_KEPT })
}

/// The mask without its background, if there is one and enough is left.
pub open spec fn without_background(
    pixels: Seq<u8>,
    w: int,
    h: int,
    mask: Seq<bool>,
    threshold: u8,
) -> Seq<bool> {
    let cleaned = foreground(pixels, w, h, mask, threshold);
    if may_have_background(w, h, mask) && plausible(count_solid(cleaned), w * h) {
        cleaned
    } else {
        mask
    }
}

/// A mask has a solid pixel if and only if it counts one.
pub proof fn lemma_solid_count(mask: Seq<bool>)
    ensures
        count_solid(mask) > 0 <==> exists|i: int| 0 <= i < mask.len() && mask[i],
    decreases mask.len(),
{
    if mask.len() > 0 {
        let rest = mask.drop_last();
        lemma_solid_count(rest);
        if mask.last() {
            assert(mask[mask.len() - 1]);
        }
        if exists|i: int| 0 <= i < rest.len() && rest[i] {
            let i = choose|i: int| 0 <= i < rest.len() && rest[i];
            assert(mask[i]);
        }
        if exists|i: int| 0 <= i < mask.len() && mask[i] {
            let i = choose|i: int| 0 <= i < mask.len() && mask[i];
            if i < rest.len() {
                assert(rest[i]);
            }
        }
    }
}

fn count(mask: &[bool]) -> (r: usize)
    ensures
        r == count_solid(mask@),
{
    let mut k: usize = 0;
    for i in 0..mask.len()
        invariant
            k <= i,
            k == count_solid(mask@.take(i as int)),
    {
        assert(mask@.take(i + 1).drop_last() =~= mask@.take(i as int));
        if mask[i] {
            k = k + 1;
        }
    }
    assert(mask@.take(mask@.len() as int) =~= mask@);
    k
}

/// The mean of a channel over the four corners.
fn mean_of_corners(pixels: &[u8], w: usize, h: usize, c: usize) -> (r: i32)
    requires
        w > 0,
        h > 0,
        w * h * 4 <= pixels@.len(),
        c < 3,
    ensures
        r == corner_mean(pixels@, w as int, h as int, c as int),
        0 <= r <= 255,
{
    proof {
        grid::lemma_cell_at(w as int, h as int, 0, 0);
        grid::lemma_cell_at(w as int, h as int, w - 1, 0);
        grid::lemma_cell_at(w as int, h as int, 0, h - 1);
        grid::lemma_cell_at(w as int, h as int, w - 1, h - 1);
    }
    let _available: usize = pixels.len();
    let last_row: usize = (h - 1) * w;
    (pixels[c] as i32 + pixels[(w - 1) * 4 + c] as i32 + pixels[last_row * 4 + c] as i32
        + pixels[(last_row + (w - 1)) * 4 + c] as i32) / 4
}

/// Marks the solid pixels that look like the corners.
fn mark_candidates(pixels: &[u8], w: usize, h: usize, mask: &[bool], threshold: u8) -> (r: Vec<
    bool,
>)
    requires
        w > 0,
        h > 0,
        w * h * 4 <= pixels@.len(),
        w * h <= mask@.len(),
    ensures
        r@ == candidates(pixels@, w as int, h as int, mask@, threshold),
{
    let red = mean_of_corners(pixels, w, h, 0);
    let green = mean_of_corners(pixels, w, h, 1);
    let blue = mean_of_corners(pixels, w, h, 2);
    let length: usize = pixels.len();
    let area: usize = w * h;
    let mut marks: Vec<bool> = Vec::with_capacity(area);
    let ghost all = candidates(pixels@, w as int, h as int, mask@, threshold);
    for i in 0..area
        invariant
            area == w * h,
            area * 4 <= length,
            length == pixels@.len(),
            area <= mask@.len(),
            red == corner_mean(pixels@, w as int, h as int, 0),
            green == corner_mean(pixels@, w as int, h as int, 1),
            blue == corner_mean(pixels@, w as int, h as int, 2),
            0 <= red <= 255,
            0 <= green <= 255,
            0 <= blue <= 255,
            all == candidates(pixels@, w as int, h as int, mask@, threshold),
            all.len() == area,
            marks@ == all.take(i as int),
    {
        let dr: i32 = pixels[i * 4] as i32 - red;
        let dg: i32 = pixels[i * 4 + 1] as i32 - green;
        let db: i32 = pixels[i * 4 + 2] as i32 - blue;
        assert(0 <= dr * dr <= 65025) by (nonlinear_arith)
            requires
                -255 <= dr <= 255,
        ;
        assert(0 <= dg * dg <= 65025) by (nonlinear_arith)
            requires
                -255 <= dg <= 255,
        ;
        assert(0 <= db * db <= 65025) by (nonlinear_arith)
            requires
                -255 <= db <= 255,
        ;
        let alike = pixels[i * 4 + 3] > threshold && dr * dr + dg * dg + db * db <= 5200;
        marks.push(mask[i] && alike);
        assert(marks@ =~= all.take(i + 1));
    }
    assert(all.take(area as int) =~= all);
    marks
}

/// State of the search for the background: `marks` are the cells that have been
/// visited, `done` lists them, and `todo` holds the cells to visit next.
spec fn searching(
    open: Seq<bool>,
    w: int,
    h: int,
    marks: Seq<bool>,
    done: Seq<int>,
    todo: Seq<usize>,
) -> bool {
    let n = w * h;
    &&& marks.len() == n
    &&& done.no_duplicates()
    &&& forall|c: int| 0 <= c < n ==> (#[trigger] marks[c] <==> done.contains(c))
    &&& forall|i: int|
        0 <= i < done.len() ==> 0 <= #[trigger] done[i] < n && is_background(open, w, h, done[i])
    &&& forall|i: int| 0 <= i < todo.len() ==> reachable(open, w, h, #[trigger] todo[i] as int)
}

/// A cell of which it is known that it is background if it is a candidate.
spec fn reachable(open: Seq<bool>, w: int, h: int, c: int) -> bool {
    0 <= c < w * h && (open[c] ==> is_background(open, w, h, c))
}

/// The cell is visited, to be visited, or no candidate.
spec fn settled(open: Seq<bool>, marks: Seq<bool>, todo: Seq<usize>, c: int) -> bool {
    !open[c] || marks[c] || todo.contains(c as usize)
}

proof fn lemma_settled_push(
    open: Seq<bool>,
    marks: Seq<bool>,
    todo: Seq<usize>,
    c: int,
    extra: usize,
)
    requires
        settled(open, marks, todo, c),
    ensures
        settled(open, marks, todo.push(extra), c),
{
    if todo.contains(c as usize) {
        let i = choose|i: int| 0 <= i < todo.len() && todo[i] == c as usize;
        assert(todo.push(extra)[i] == c as usize);
    }
}

/// The cells on the edge of the grid.
fn edge_cells(w: usize, h: usize) -> (r: Vec<usize>)
    requires
        w > 0,
        h > 0,
        w * h <= usize::MAX,
    ensures
        forall|i: int| 0 <= i < r@.len() ==> on_edge(w as int, h as int, #[trigger] r@[i] as int),
        forall|c: int| #[trigger] on_edge(w as int, h as int, c) ==> r@.contains(c as usize),
{
    let mut cells: Vec<usize> = Vec::new();
    for c in 0..w * h
        invariant
            w > 0,
            h > 0,
            forall|i: int|
                0 <= i < cells@.len() ==> on_edge(w as int, h as int, #[trigger] cells@[i] as int),
            forall|d: int|
                d < c && #[trigger] on_edge(w as int, h as int, d) ==> cells@.contains(d as usize),
    {
        proof {
            grid::lemma_cell(w as int, h as int, c as int);
        }
        let ghost old_cells = cells@;
        let edge = c % w == 0 || c % w == w - 1 || c / w == 0 || c / w == h - 1;
        if edge {
            cells.push(c);
        }
        assert forall|d: int|
            d < c + 1 && #[trigger] on_edge(w as int, h as int, d) implies cells@.contains(
            d as usize,
        ) by {
            if d == c {
                assert(cells@[old_cells.len() as int] == c);
            } else {
                let i = choose|i: int| 0 <= i < old_cells.len() && old_cells[i] == d as usize;
                assert(cells@[i] == d as usize);
            }
        }
    }
    cells
}

/// Marks the candidates that are connected with the edge through candidates.
fn mark_background(open: &[bool], w: usize, h: usize) -> (r: Vec<bool>)
    requires
        w > 0,
        h > 0,
        open@.len() == w * h,
    ensures
        r@.len() == w * h,
        forall|i: int|
            0 <= i < w * h ==> (#[trigger] r@[i] <==> is_background(
                open@,
                w as int,
                h as int,
                i,
            )),
{
    let limit: usize = open.len();
    let ghost o = open@;
    let ghost gw: int = w as int;
    let ghost gh: int = h as int;
    let ghost n: int = w * h;
    let mut marks: Vec<bool> = vec![false; open.len()];
    let mut todo = edge_cells(w, h);
    let ghost mut done: Seq<int> = Seq::empty();
    proof {
        assert forall|i: int| 0 <= i < todo@.len() implies reachable(
            o,
            gw,
            gh,
            #[trigger] todo@[i] as int,
        ) by {
            let c = todo@[i] as int;
            assert(on_edge(gw, gh, c));
            if o[c] {
                grid::lemma_connected_self(o, gw, n, c);
            }
        }
        assert forall|c: int| 0 <= c < n implies (#[trigger] marks@[c] <==> done.contains(c)) by {}
    }
    while todo.len() > 0
        invariant
            w > 0,
            h > 0,
            o == open@,
            gw == w,
            gh == h,
            n == w * h,
            n == o.len(),
            n == limit,
            searching(o, gw, gh, marks@, done, todo@),
            forall|c: int| #[trigger] on_edge(gw, gh, c) ==> settled(o, marks@, todo@, c),
            forall|c: int, d: int|
                #![trigger marks@[c], grid::adjacent(gw, c, d)]
                0 <= c < n && marks@[c] && grid::adjacent(gw, c, d) && 0 <= d < n ==> settled(
                    o,
                    marks@,
                    todo@,
                    d,
                ),
        decreases n - done.len(), todo@.len(),
    {
        let ghost old_todo = todo@;
        let ghost old_marks = marks@;
        let ghost old_done = done;
        let c: usize = todo.pop().unwrap();
        proof {
            assert(old_todo[old_todo.len() - 1] == c);
            assert(reachable(o, gw, gh, c as int));
            grid::lemma_distinct_below(done, n);
        }
        let ghost gc: int = c as int;
        if marks[c] || !open[c] {
            assert forall|e: int| settled(o, marks@, old_todo, e) && 0 <= e < n implies settled(
                o,
                marks@,
                todo@,
                e,
            ) by {
                if old_todo.contains(e as usize) {
                    let i = choose|i: int| 0 <= i < old_todo.len() && old_todo[i] == e as usize;
                    if i < todo@.len() {
                        assert(todo@[i] == e as usize);
                    }
                }
            }
            continue ;
        }
        marks.set(c, true);
        proof {
            done = done.push(gc);
            assert(!old_done.contains(gc));
            assert forall|e: int| 0 <= e < n implies (#[trigger] marks@[e] <==> done.contains(
                e,
            )) by {
                assert(old_marks[e] <==> old_done.contains(e));
                if old_done.contains(e) {
                    let i = choose|i: int| 0 <= i < old_done.len() && old_done[i] == e;
                    assert(done[i] == e);
                }
                if e == gc {
                    assert(done[old_done.len() as int] == gc);
                }
                if done.contains(e) && e != gc {
                    let i = choose|i: int| 0 <= i < done.len() && done[i] == e;
                    assert(old_done[i] == e);
                }
            }
            assert(searching(o, gw, gh, marks@, done, todo@));
            assert forall|e: int| settled(o, old_marks, old_todo, e) && 0 <= e < n implies settled(
                o,
                marks@,
                todo@,
                e,
            ) by {
                if old_todo.contains(e as usize) {
                    let i = choose|i: int| 0 <= i < old_todo.len() && old_todo[i] == e as usize;
                    if i < todo@.len() {
                        assert(todo@[i] == e as usize);
                    }
                }
            }
            grid::lemma_neighbours(gw, gh, gc);
            grid::lemma_cell(gw, gh, gc);
            grid::lemma_distinct_below(done, n);
        }
        let x: usize = c % w;
        let y: usize = c / w;
        if x > 0 {
            assert(grid::adjacent(gw, gc, gc - 1));
            visit_next(
                &mut todo,
                c - 1,
                Ghost(o),
                Ghost(gw),
                Ghost(gh),
                Ghost(marks@),
                Ghost(done),
                Ghost(gc),
            );
        }
        if x + 1 < w {
            assert(grid::adjacent(gw, gc, gc + 1));
            visit_next(
                &mut todo,
                c + 1,
                Ghost(o),
                Ghost(gw),
                Ghost(gh),
                Ghost(marks@),
                Ghost(done),
                Ghost(gc),
            );
        }
        if y > 0 {
            assert(grid::adjacent(gw, gc, gc - gw));
            visit_next(
                &mut todo,
                c - w,
                Ghost(o),
                Ghost(gw),
                Ghost(gh),
                Ghost(marks@),
                Ghost(done),
                Ghost(gc),
            );
        }
        if y + 1 < h {
            assert(grid::adjacent(gw, gc, gc + gw));
            visit_next(
                &mut todo,
                c + w,
                Ghost(o),
                Ghost(gw),
                Ghost(gh),
                Ghost(marks@),
                Ghost(done),
                Ghost(gc),
            );
        }
        proof {
            assert forall|e: int| #[trigger] on_edge(gw, gh, e) implies settled(
                o,
                marks@,
                todo@,
                e,
            ) by {
                assert(settled(o, old_marks, old_todo, e));
            }
            assert forall|a: int, d: int|
                #![trigger marks@[a], grid::adjacent(gw, a, d)]
                0 <= a < n && marks@[a] && grid::adjacent(gw, a, d) && 0 <= d < n implies settled(
                o,
                marks@,
                todo@,
                d,
            ) by {
                if a != gc {
                    assert(old_marks[a]);
                    assert(settled(o, old_marks, old_todo, d));
                }
            }
        }
    }
    proof {
        assert forall|i: int| 0 <= i < n implies (#[trigger] marks@[i] <==> is_background(
            o,
            gw,
            gh,
            i,
        )) by {
            if marks@[i] {
                assert(done.contains(i));
                let j = choose|j: int| 0 <= j < done.len() && done[j] == i;
                assert(is_background(o, gw, gh, done[j]));
            }
            if is_background(o, gw, gh, i) {
                let e = choose|e: int|
                    on_edge(gw, gh, e) && #[trigger] grid::connected(o, gw, n, e, i);
                let cells = done.to_set();
                grid::lemma_connected_open(o, gw, n, e, i);
                assert(settled(o, marks@, todo@, e));
                assert(marks@[e]);
                assert forall|c: int, d: int|
                    #![trigger cells.contains(c), grid::adjacent(gw, c, d)]
                    cells.contains(c) && grid::adjacent(gw, c, d) && 0 <= d < n
                        && o[d] implies cells.contains(d) by {
                    let j = choose|j: int| 0 <= j < done.len() && done[j] == c;
                    assert(0 <= done[j] < n);
                    assert(marks@[c]);
                    assert(settled(o, marks@, todo@, d));
                    assert(marks@[d]);
                }
                grid::lemma_closed(o, gw, n, cells, e, i);
            }
        }
    }
    marks
}

/// Adds a neighbour of a background cell to the cells to visit.
fn visit_next(
    todo: &mut Vec<usize>,
    c: usize,
    Ghost(open): Ghost<Seq<bool>>,
    Ghost(w): Ghost<int>,
    Ghost(h): Ghost<int>,
    Ghost(marks): Ghost<Seq<bool>>,
    Ghost(done): Ghost<Seq<int>>,
    Ghost(from): Ghost<int>,
)
    requires
        searching(open, w, h, marks, done, old(todo)@),
        c < w * h,
        is_background(open, w, h, from),
        grid::adjacent(w, from, c as int),
    ensures
        searching(open, w, h, marks, done, final(todo)@),
        settled(open, marks, final(todo)@, c as int),
        forall|e: int|
            settled(open, marks, old(todo)@, e) ==> #[trigger] settled(
                open,
                marks,
                final(todo)@,
                e,
            ),
{
    let ghost old_todo = todo@;
    todo.push(c);
    proof {
        assert(todo@[old_todo.len() as int] == c);
        if open[c as int] {
            let e = choose|e: int|
                on_edge(w, h, e) && #[trigger] grid::connected(open, w, w * h, e, from);
            grid::lemma_connected_step(open, w, w * h, e, from, c as int);
        }
        assert forall|e: int| settled(open, marks, old_todo, e) implies #[trigger] settled(
            open,
            marks,
            todo@,
            e,
        ) by {
            lemma_settled_push(open, marks, old_todo, e, c);
        }
    }
}

/// Removes from a mask the background that is connected with the edge of the
/// image and looks like its corners. The mask is left alone if it does not fill
/// most of the image, or if too little or nearly all of the image would stay.
pub fn maybe_remove_edge_background_by_color(
    pixels: &[u8],
    width: u32,
    height: u32,
    mask: &[bool],
    threshold: u8,
) -> (r: Vec<bool>)
    requires
        width > 0 && height > 0 && mask@.len() > 0 ==> width * height <= usize::MAX,
        may_have_background(width as int, height as int, mask@) ==> width * height * 4
            <= pixels@.len() && width * height <= mask@.len(),
    ensures
        r@ == without_background(pixels@, width as int, height as int, mask@, threshold),
{
    let w = width as usize;
    let h = height as usize;
    if w == 0 || h == 0 || mask.len() == 0 {
        return vstd::slice::slice_to_vec(mask);
    }
    let occupied = count(mask);
    assert(w * h == width * height);
    let area: usize = w * h;
    let least = F32 { bits: LEAST_FILL };
    if F32::from_u64(occupied as u64).div(F32::from_u64(area as u64)).lt(least) {
        return vstd::slice::slice_to_vec(mask);
    }
    let open = mark_candidates(pixels, w, h, mask, threshold);
    let background = mark_background(open.as_slice(), w, h);
    let mut cleaned: Vec<bool> = Vec::with_capacity(area);
    let ghost kept_mask = foreground(pixels@, w as int, h as int, mask@, threshold);
    for i in 0..area
        invariant
            area == w * h,
            area <= mask@.len(),
            background@.len() == area,
            forall|i: int|
                0 <= i < area ==> (#[trigger] background@[i] <==> is_background(
                    open@,
                    w as int,
                    h as int,
                    i,
                )),
            open@ == candidates(pixels@, w as int, h as int, mask@, threshold),
            kept_mask == foreground(pixels@, w as int, h as int, mask@, threshold),
            kept_mask.len() == area,
            cleaned@ == kept_mask.take(i as int),
    {
        cleaned.push(mask[i] && !background[i]);
        assert(cleaned@ =~= kept_mask.take(i + 1));
    }
    assert(kept_mask.take(area as int) =~= kept_mask);
    let kept = count(cleaned.as_slice());
    let left = F32::from_u64(kept as u64).div(F32::from_u64(area as u64));
    let lower = F32 { bits: LEAST_KEPT };
    let upper = F32 { bits: MOST_KEPT };
    if kept < 3 || !(lower.le(left) && left.le(upper)) {
        return vstd::slice::slice_to_vec(mask);
    }
    cleaned
}

/// Removing the background never makes a pixel solid.
pub proof fn law_background_removal_only_removes(
    pixels: Seq<u8>,
    w: int,
    h: int,
    mask: Seq<bool>,
    threshold: u8,
    i: int,
)
    requires
        0 <= i < without_background(pixels, w, h, mask, threshold).len(),
        without_background(pixels, w, h, mask, threshold)[i],
    ensures
        mask[i],
{
}

/// Removing the background never leaves nothing of a mask that is not empty.
pub proof fn law_background_removal_leaves_something(
    pixels: Seq<u8>,
    w: int,
    h: int,
    mask: Seq<bool>,
    threshold: u8,
)
    requires
        count_solid(mask) > 0,
    ensures
        count_solid(without_background(pixels, w, h, mask, threshold)) > 0,
{
}

} // verus!
