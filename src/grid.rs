//! Cell neighbourhoods and walks over walkable cells.
use vstd::prelude::*;
use vstd::arithmetic::div_mod::{lemma_fundamental_div_mod, lemma_fundamental_div_mod_converse};
use crate::tile_type::{TileType, walkable};

verus! {

/// Column offset of neighbour direction `d` (0..8, row by row, centre left out).
pub open spec fn dir_dx(d: int) -> int {
    if d == 0 || d == 3 || d == 5 {
        -1
    } else if d == 1 || d == 6 {
        0
    } else {
        1
    }
}

/// Row offset of neighbour direction `d`.
pub open spec fn dir_dy(d: int) -> int {
    if d <= 2 {
        -1
    } else if d <= 4 {
        0
    } else {
        1
    }
}

/// The cell next to `i` in direction `d`, if it lies inside a `w` by `h` grid.
pub open spec fn nb(w: int, h: int, i: int, d: int) -> Option<int> {
    let x = i % w + dir_dx(d);
    let y = i / w + dir_dy(d);
    if 0 <= x < w && 0 <= y < h {
        Some(y * w + x)
    } else {
        None
    }
}

/// `b` is one of the eight cells around `a`.
pub open spec fn step(w: int, h: int, a: int, b: int) -> bool {
    exists|d: int| 0 <= d < 8 && nb(w, h, a, d) == Some(b)
}

/// `p` is a walk over walkable cells, each one next to the one before.
pub open spec fn is_walk(t: Seq<TileType>, w: int, h: int, p: Seq<int>) -> bool {
    &&& p.len() >= 1
    &&& forall|k: int| 0 <= k < p.len() ==> 0 <= #[trigger] p[k] < t.len() && walkable(t[p[k]])
    &&& forall|k: int| 0 <= k < p.len() - 1 ==> #[trigger] step(w, h, p[k], p[k + 1])
}

/// Cell `e` can be walked to from cell `s`.
pub open spec fn reachable(t: Seq<TileType>, w: int, h: int, s: int, e: int) -> bool {
    exists|p: Seq<int>| is_walk(t, w, h, p) && p[0] == s && p.last() == e
}

pub proof fn lemma_coords(w: int, h: int, i: int)
    requires
        0 < w,
        0 <= i < w * h,
    ensures
        0 <= i % w < w,
        0 <= i / w < h,
        i == (i / w) * w + i % w,
{
    lemma_fundamental_div_mod(i, w);
    assert(0 <= i % w < w);
    assert(0 <= i / w < h) by (nonlinear_arith)
        requires
            0 < w,
            0 <= i < w * h,
            i == w * (i / w) + i % w,
            0 <= i % w < w,
    ;
    assert(i == (i / w) * w + i % w) by (nonlinear_arith)
        requires
            i == w * (i / w) + i % w,
    ;
}

pub proof fn lemma_index_of(w: int, h: int, x: int, y: int)
    requires
        0 <= x < w,
        0 <= y < h,
    ensures
        0 <= y * w + x < w * h,
        (y * w + x) % w == x,
        (y * w + x) / w == y,
{
    assert(0 <= y * w + x < w * h) by (nonlinear_arith)
        requires
            0 <= x < w,
            0 <= y < h,
    ;
    lemma_fundamental_div_mod_converse(y * w + x, w, y, x);
}

pub proof fn lemma_nb_in_grid(w: int, h: int, i: int, d: int)
    requires
        0 < w,
        0 <= i < w * h,
        nb(w, h, i, d) is Some,
    ensures
        0 <= nb(w, h, i, d).unwrap() < w * h,
        nb(w, h, i, d).unwrap() % w == i % w + dir_dx(d),
        nb(w, h, i, d).unwrap() / w == i / w + dir_dy(d),
{
    lemma_index_of(w, h, i % w + dir_dx(d), i / w + dir_dy(d));
}

/// Neighbourhood is symmetric: stepping in direction `d` and then in the
/// opposite direction `7 - d` comes back.
pub proof fn lemma_nb_symmetric(w: int, h: int, i: int, d: int)
    requires
        0 < w,
        0 <= i < w * h,
        0 <= d < 8,
        nb(w, h, i, d) is Some,
    ensures
        nb(w, h, nb(w, h, i, d).unwrap(), 7 - d) == Some(i),
{
    lemma_nb_in_grid(w, h, i, d);
    lemma_coords(w, h, i);
}

pub proof fn lemma_step_symmetric(w: int, h: int, a: int, b: int)
    requires
        0 < w,
        0 <= a < w * h,
        step(w, h, a, b),
    ensures
        step(w, h, b, a),
{
    let d = choose|d: int| 0 <= d < 8 && nb(w, h, a, d) == Some(b);
    lemma_nb_symmetric(w, h, a, d);
    assert(nb(w, h, b, 7 - d) == Some(a));
}

/// The neighbour of cell `i` in direction `d`, if it is inside the grid.
pub fn neighbor(w: i32, h: i32, i: usize, d: usize) -> (r: Option<usize>)
    requires
        0 < w,
        0 < h,
        w * h <= i32::MAX,
        i < w * h,
        d < 8,
    ensures
        r is Some == nb(w as int, h as int, i as int, d as int) is Some,
        r is Some ==> r.unwrap() as int == nb(w as int, h as int, i as int, d as int).unwrap(),
        r is Some ==> r.unwrap() < w * h,
{
    proof {
        lemma_coords(w as int, h as int, i as int);
    }
    let x: i32 = (i % (w as usize)) as i32;
    let y: i32 = (i / (w as usize)) as i32;
    let dx: i32 = if d == 0 || d == 3 || d == 5 {
        -1
    } else if d == 1 || d == 6 {
        0
    } else {
        1
    };
    let dy: i32 = if d <= 2 {
        -1
    } else if d <= 4 {
        0
    } else {
        1
    };
    let nx = x + dx;
    let ny = y + dy;
    if 0 <= nx && nx < w && 0 <= ny && ny < h {
        proof {
            lemma_index_of(w as int, h as int, nx as int, ny as int);
        }
        Some((ny as usize) * (w as usize) + (nx as usize))
    } else {
        None
    }
}

/// A walk followed by one more step is a walk.
pub proof fn lemma_walk_push(t: Seq<TileType>, w: int, h: int, p: Seq<int>, e: int)
    requires
        is_walk(t, w, h, p),
        0 <= e < t.len(),
        walkable(t[e]),
        step(w, h, p.last(), e),
    ensures
        is_walk(t, w, h, p.push(e)),
        p.push(e)[0] == p[0],
        p.push(e).last() == e,
{
    let q = p.push(e);
    assert forall|k: int| 0 <= k < q.len() - 1 implies #[trigger] step(w, h, q[k], q[k + 1]) by {
        if k < p.len() - 1 {
            assert(q[k] == p[k] && q[k + 1] == p[k + 1]);
        }
    }
    assert forall|k: int| 0 <= k < q.len() implies 0 <= #[trigger] q[k] < t.len() && walkable(
        t[q[k]],
    ) by {
        if k < p.len() {
            assert(q[k] == p[k]);
        }
    }
}

/// A set of cells that holds `s` and every walkable neighbour of each of its
/// cells holds every cell reachable from `s`.
pub proof fn lemma_closed_holds_reachable(
    t: Seq<TileType>,
    w: int,
    h: int,
    s: int,
    e: int,
    inside: spec_fn(int) -> bool,
)
    requires
        inside(s),
        forall|a: int, b: int|
            #![trigger inside(a), step(w, h, a, b)]
            inside(a) && step(w, h, a, b) && 0 <= b < t.len() && walkable(t[b]) ==> inside(b),
        reachable(t, w, h, s, e),
    ensures
        inside(e),
{
    let p = choose|p: Seq<int>| is_walk(t, w, h, p) && p[0] == s && p.last() == e;
    lemma_walk_inside(t, w, h, p, p.len() - 1, inside);
}

proof fn lemma_walk_inside(
    t: Seq<TileType>,
    w: int,
    h: int,
    p: Seq<int>,
    k: int,
    inside: spec_fn(int) -> bool,
)
    requires
        is_walk(t, w, h, p),
        0 <= k < p.len(),
        inside(p[0]),
        forall|a: int, b: int|
            #![trigger inside(a), step(w, h, a, b)]
            inside(a) && step(w, h, a, b) && 0 <= b < t.len() && walkable(t[b]) ==> inside(b),
    ensures
        inside(p[k]),
    decreases k,
{
    if k > 0 {
        lemma_walk_inside(t, w, h, p, k - 1, inside);
        assert(step(w, h, p[k - 1], p[(k - 1) + 1]));
        assert(0 <= p[k] < t.len() && walkable(t[p[k]]));
    }
}

} // verus!
