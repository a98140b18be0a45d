//! Connected cells of a grid.
//!
//! The cells of a grid of `w` columns are numbered row by row, so the cell in
//! column `x` of row `y` has the number `y * w + x`. A sequence of booleans
//! says which cells are open.

use vstd::arithmetic::div_mod::*;
use vstd::prelude::*;

verus! {

/// The cells `a` and `b` share a side.
pub open spec fn adjacent(w: int, a: int, b: int) -> bool {
    ||| b == a + 1 && b % w != 0
    ||| a == b + 1 && a % w != 0
    ||| b == a + w
    ||| a == b + w
}

/// `path` leads from `a` to `b` through open cells among the first `n`, each
/// sharing a side with the next.
pub open spec fn is_path(
    open: Seq<bool>,
    w: int,
    n: int,
    path: Seq<int>,
    a: int,
    b: int,
) -> bool {
    &&& path.len() >= 1
    &&& path[0] == a
    &&& path.last() == b
    &&& forall|i: int| 0 <= i < path.len() ==> 0 <= #[trigger] path[i] < n && open[path[i]]
    &&& forall|i: int, j: int|
        0 <= i && j == i + 1 && j < path.len() ==> adjacent(
            w,
            #[trigger] path[i],
            #[trigger] path[j],
        )
}

/// A path through open cells leads from `a` to `b`.
pub open spec fn connected(open: Seq<bool>, w: int, n: int, a: int, b: int) -> bool {
    exists|path: Seq<int>| is_path(open, w, n, path, a, b)
}

/// All cells that paths through open cells lead to from `a`.
pub open spec fn component(open: Seq<bool>, w: int, n: int, a: int) -> Set<int> {
    Set::new(|b: int| connected(open, w, n, a, b))
}

pub proof fn lemma_cell(w: int, h: int, i: int)
    requires
        w > 0,
        0 <= i < w * h,
    ensures
        0 <= i % w < w,
        0 <= i / w < h,
        i == (i / w) * w + i % w,
{
    lemma_fundamental_div_mod(i, w);
    let x = i % w;
    let y = i / w;
    assert(y < h) by (nonlinear_arith)
        requires
            i == w * y + x,
            0 <= x < w,
            i < w * h,
    ;
    assert(y >= 0) by (nonlinear_arith)
        requires
            i == w * y + x,
            0 <= x < w,
            i >= 0,
    ;
    assert(w * y == y * w) by (nonlinear_arith);
}

pub proof fn lemma_cell_at(w: int, h: int, x: int, y: int)
    requires
        0 <= x < w,
        0 <= y < h,
    ensures
        0 <= y * w + x < w * h,
        (y * w + x) % w == x,
        (y * w + x) / w == y,
{
    assert(0 <= y * w + x < w * h) by (nonlinear_arith)
        requires
            0 <= x < w,
            0 <= y < h,
    ;
    lemma_fundamental_div_mod_converse(y * w + x, w, y, x);
}

/// The cells next to the cell `i`, by its column and row.
pub proof fn lemma_neighbours(w: int, h: int, i: int)
    requires
        w > 0,
        0 <= i < w * h,
    ensures
        i % w + 1 < w <==> (i + 1) % w != 0,
        i % w + 1 < w ==> i + 1 < w * h,
        i % w > 0 ==> i >= 1,
        i / w + 1 < h <==> i + w < w * h,
        i / w > 0 <==> i >= w,
        forall|b: int|
            0 <= b < w * h && #[trigger] adjacent(w, i, b) ==> {
                ||| i % w > 0 && b == i - 1
                ||| i % w + 1 < w && b == i + 1
                ||| i / w > 0 && b == i - w
                ||| i / w + 1 < h && b == i + w
            },
        forall|b: int| #[trigger] adjacent(w, i, b) <==> adjacent(w, b, i),
{
    lemma_cell(w, h, i);
    let x = i % w;
    let y = i / w;
    if x + 1 < w {
        lemma_fundamental_div_mod_converse(i + 1, w, y, x + 1);
        lemma_cell_at(w, h, x + 1, y);
    } else {
        assert(i + 1 == (y + 1) * w) by (nonlinear_arith)
            requires
                i == y * w + x,
                x + 1 == w,
        ;
        lemma_fundamental_div_mod_converse(i + 1, w, y + 1, 0);
    }
    assert((y + 1) * w == y * w + w) by (nonlinear_arith);
    if y + 1 < h {
        lemma_cell_at(w, h, x, y + 1);
    } else {
        assert((y + 1) * w == w * h) by (nonlinear_arith)
            requires
                y + 1 == h,
        ;
    }
    if y > 0 {
        assert(y * w >= w) by (nonlinear_arith)
            requires
                y >= 1,
                w > 0,
        ;
    } else {
        assert(y * w == 0) by (nonlinear_arith)
            requires
                y == 0,
        ;
    }
    if x == 0 && i >= 1 {
        assert((i - 1) + 1 == i);
    }
}

/// A cell next to an open one that is connected is connected too.
pub proof fn lemma_connected_step(open: Seq<bool>, w: int, n: int, a: int, b: int, c: int)
    requires
        connected(open, w, n, a, b),
        adjacent(w, b, c),
        0 <= c < n,
        open[c],
    ensures
        connected(open, w, n, a, c),
{
    let path = choose|path: Seq<int>| is_path(open, w, n, path, a, b);
    let longer = path.push(c);
    assert(is_path(open, w, n, longer, a, c));
}

pub proof fn lemma_connected_self(open: Seq<bool>, w: int, n: int, a: int)
    requires
        0 <= a < n,
        open[a],
    ensures
        connected(open, w, n, a, a),
{
    let path = seq![a];
    assert(is_path(open, w, n, path, a, a));
}

/// Connection goes both ways.
pub proof fn lemma_connected_back(open: Seq<bool>, w: int, n: int, a: int, b: int)
    requires
        connected(open, w, n, a, b),
    ensures
        connected(open, w, n, b, a),
{
    let path = choose|path: Seq<int>| is_path(open, w, n, path, a, b);
    let back = path.reverse();
    assert forall|i: int, j: int| 0 <= i && j == i + 1 && j < back.len() implies adjacent(
        w,
        #[trigger] back[i],
        #[trigger] back[j],
    ) by {
        let k = path.len() - 1 - j;
        assert(adjacent(w, path[k], path[k + 1]));
    }
    assert(is_path(open, w, n, back, b, a));
}

/// What is connected to a connected cell is connected.
pub proof fn lemma_connected_through(open: Seq<bool>, w: int, n: int, a: int, b: int, c: int)
    requires
        connected(open, w, n, a, b),
        connected(open, w, n, b, c),
    ensures
        connected(open, w, n, a, c),
{
    let p = choose|path: Seq<int>| is_path(open, w, n, path, a, b);
    let q = choose|path: Seq<int>| is_path(open, w, n, path, b, c);
    let r = p + q.drop_first();
    assert forall|i: int, j: int| 0 <= i && j == i + 1 && j < r.len() implies adjacent(
        w,
        #[trigger] r[i],
        #[trigger] r[j],
    ) by {
        if j < p.len() {
            assert(adjacent(w, p[i], p[j]));
        } else {
            assert(adjacent(w, q[i - p.len() + 1], q[j - p.len() + 1]));
        }
    }
    assert(is_path(open, w, n, r, a, c));
}

/// Connected cells have the same component.
pub proof fn lemma_same_component(open: Seq<bool>, w: int, n: int, a: int, b: int)
    requires
        connected(open, w, n, a, b),
    ensures
        component(open, w, n, a) == component(open, w, n, b),
{
    lemma_connected_back(open, w, n, a, b);
    assert forall|c: int| component(open, w, n, a).contains(c) <==> component(
        open,
        w,
        n,
        b,
    ).contains(c) by {
        if connected(open, w, n, a, c) {
            lemma_connected_through(open, w, n, b, a, c);
        }
        if connected(open, w, n, b, c) {
            lemma_connected_through(open, w, n, a, b, c);
        }
    }
    assert(component(open, w, n, a) =~= component(open, w, n, b));
}

/// The ends of a path are open cells.
pub proof fn lemma_connected_open(open: Seq<bool>, w: int, n: int, a: int, b: int)
    requires
        connected(open, w, n, a, b),
    ensures
        0 <= a < n,
        0 <= b < n,
        open[a],
        open[b],
{
    let path = choose|path: Seq<int>| is_path(open, w, n, path, a, b);
    assert(0 <= path[0] < n && open[path[0]]);
    assert(0 <= path[path.len() - 1] < n && open[path[path.len() - 1]]);
}

/// A set of cells that no step leads out of holds all that is connected to one
/// of its cells.
pub proof fn lemma_closed(open: Seq<bool>, w: int, n: int, cells: Set<int>, a: int, b: int)
    requires
        cells.contains(a),
        connected(open, w, n, a, b),
        forall|c: int, d: int|
            #![trigger cells.contains(c), adjacent(w, c, d)]
            cells.contains(c) && adjacent(w, c, d) && 0 <= d < n && open[d] ==> cells.contains(d),
    ensures
        cells.contains(b),
{
    let path = choose|path: Seq<int>| is_path(open, w, n, path, a, b);
    lemma_closed_along(open, w, n, cells, path, a, b, path.len() - 1);
}

proof fn lemma_closed_along(
    open: Seq<bool>,
    w: int,
    n: int,
    cells: Set<int>,
    path: Seq<int>,
    a: int,
    b: int,
    i: int,
)
    requires
        cells.contains(a),
        is_path(open, w, n, path, a, b),
        0 <= i < path.len(),
        forall|c: int, d: int|
            #![trigger cells.contains(c), adjacent(w, c, d)]
            cells.contains(c) && adjacent(w, c, d) && 0 <= d < n && open[d] ==> cells.contains(d),
    ensures
        cells.contains(path[i]),
    decreases i,
{
    if i > 0 {
        lemma_closed_along(open, w, n, cells, path, a, b, i - 1);
        assert(adjacent(w, path[i - 1], path[i]));
    }
}

/// Distinct numbers below `n` are at most `n`.
pub proof fn lemma_distinct_below(s: Seq<int>, n: int)
    requires
        s.no_duplicates(),
        forall|i: int| 0 <= i < s.len() ==> 0 <= #[trigger] s[i] < n,
        n >= 0,
    ensures
        s.len() <= n,
{
    s.unique_seq_to_set();
    let all = vstd::set_lib::set_int_range(0, n);
    vstd::set_lib::lemma_int_range(0, n);
    assert(s.to_set().subset_of(all));
    vstd::set_lib::lemma_len_subset(s.to_set(), all);
}

} // verus!
