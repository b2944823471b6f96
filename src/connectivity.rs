//! Rooms carved and joined by nearest-neighbour corridors are connected.
use vstd::prelude::*;
use crate::tile_type::{TileType, walkable};
use crate::grid::{nb, step, is_walk, reachable, lemma_index_of, lemma_walk_push, lemma_step_symmetric, lemma_nb_in_grid};
use crate::rect::{Rect, rect_in, center_x, center_y, overlaps};
use crate::room_based::{
    rooms_apart, in_some_room,
    rooms_carved, dug_corridors, is_nearest, on_corridor, past_toward, in_room,
    lemma_corridors_floor,
};

verus! {

/// Index of the centre cell of a room.
pub open spec fn center_idx(w: int, r: Rect) -> int {
    center_y(r) * w + center_x(r)
}

/// The room is at least two cells across each way, so its centre lies
/// inside it rather than on its border.
pub open spec fn roomy(r: Rect) -> bool {
    r.x2 >= r.x1 + 2 && r.y2 >= r.y1 + 2
}

proof fn lemma_reach_self(t: Seq<TileType>, w: int, h: int, a: int)
    requires
        0 <= a < t.len(),
        walkable(t[a]),
    ensures
        reachable(t, w, h, a, a),
{
    let p = seq![a];
    assert(is_walk(t, w, h, p));
    assert(p[0] == a && p.last() == a);
}

proof fn lemma_reach_step(t: Seq<TileType>, w: int, h: int, s: int, a: int, b: int)
    requires
        reachable(t, w, h, s, a),
        step(w, h, a, b),
        0 <= b < t.len(),
        walkable(t[b]),
    ensures
        reachable(t, w, h, s, b),
{
    let p = choose|p: Seq<int>| is_walk(t, w, h, p) && p[0] == s && p.last() == a;
    lemma_walk_push(t, w, h, p, b);
}

proof fn lemma_reach_along(t: Seq<TileType>, w: int, h: int, a: int, p: Seq<int>, k: int)
    requires
        is_walk(t, w, h, p),
        reachable(t, w, h, a, p[0]),
        0 <= k < p.len(),
    ensures
        reachable(t, w, h, a, p[k]),
    decreases k,
{
    if k > 0 {
        lemma_reach_along(t, w, h, a, p, k - 1);
        assert(step(w, h, p[k - 1], p[(k - 1) + 1]));
        assert(0 <= p[k] < t.len() && walkable(t[p[k]]));
        lemma_reach_step(t, w, h, a, p[k - 1], p[k]);
    }
}

/// Walks chain: `a` reaches `b` and `b` reaches `c`, so `a` reaches `c`.
pub proof fn lemma_reach_trans(t: Seq<TileType>, w: int, h: int, a: int, b: int, c: int)
    requires
        reachable(t, w, h, a, b),
        reachable(t, w, h, b, c),
    ensures
        reachable(t, w, h, a, c),
{
    let p = choose|p: Seq<int>| is_walk(t, w, h, p) && p[0] == b && p.last() == c;
    lemma_reach_along(t, w, h, a, p, p.len() - 1);
}

proof fn lemma_reach_back(t: Seq<TileType>, w: int, h: int, p: Seq<int>, k: int)
    requires
        0 < w,
        t.len() == w * h,
        is_walk(t, w, h, p),
        0 <= k < p.len(),
    ensures
        reachable(t, w, h, p.last(), p[k]),
    decreases p.len() - k,
{
    if k == p.len() - 1 {
        lemma_reach_self(t, w, h, p[k]);
    } else {
        lemma_reach_back(t, w, h, p, k + 1);
        assert(step(w, h, p[k], p[k + 1]));
        assert(0 <= p[k + 1] < t.len());
        lemma_step_symmetric(w, h, p[k], p[k + 1]);
        assert(0 <= p[k] < t.len() && walkable(t[p[k]]));
        lemma_reach_step(t, w, h, p.last(), p[k + 1], p[k]);
    }
}

/// Walks reverse: `a` reaches `b`, so `b` reaches `a`.
pub proof fn lemma_reach_sym(t: Seq<TileType>, w: int, h: int, a: int, b: int)
    requires
        0 < w,
        t.len() == w * h,
        reachable(t, w, h, a, b),
    ensures
        reachable(t, w, h, b, a),
{
    let p = choose|p: Seq<int>| is_walk(t, w, h, p) && p[0] == a && p.last() == b;
    lemma_reach_back(t, w, h, p, 0);
}

proof fn lemma_row_reach(t: Seq<TileType>, w: int, h: int, s: int, y: int, xa: int, xb: int)
    requires
        0 < w,
        t.len() == w * h,
        0 <= xa < w,
        0 <= xb < w,
        0 <= y < h,
        reachable(t, w, h, s, y * w + xa),
        forall|x: int| past_toward(xa, xb, x) ==> walkable(#[trigger] t[y * w + x]),
    ensures
        reachable(t, w, h, s, y * w + xb),
    decreases if xa <= xb { xb - xa } else { xa - xb },
{
    if xa != xb {
        let xm = if xa < xb { xb - 1 } else { xb + 1 };
        assert forall|x: int| past_toward(xa, xm, x) implies walkable(#[trigger] t[y * w + x]) by {
            assert(past_toward(xa, xb, x));
        }
        lemma_row_reach(t, w, h, s, y, xa, xm);
        lemma_index_of(w, h, xm, y);
        lemma_index_of(w, h, xb, y);
        let d = if xa < xb { 4int } else { 3int };
        assert(nb(w, h, y * w + xm, d) == Some(y * w + xb));
        assert(past_toward(xa, xb, xb));
        lemma_reach_step(t, w, h, s, y * w + xm, y * w + xb);
    }
}

proof fn lemma_col_reach(t: Seq<TileType>, w: int, h: int, s: int, x: int, ya: int, yb: int)
    requires
        0 < w,
        t.len() == w * h,
        0 <= x < w,
        0 <= ya < h,
        0 <= yb < h,
        reachable(t, w, h, s, ya * w + x),
        forall|y: int| past_toward(ya, yb, y) ==> walkable(#[trigger] t[y * w + x]),
    ensures
        reachable(t, w, h, s, yb * w + x),
    decreases if ya <= yb { yb - ya } else { ya - yb },
{
    if ya != yb {
        let ym = if ya < yb { yb - 1 } else { yb + 1 };
        assert forall|y: int| past_toward(ya, ym, y) implies walkable(#[trigger] t[y * w + x]) by {
            assert(past_toward(ya, yb, y));
        }
        lemma_col_reach(t, w, h, s, x, ya, ym);
        lemma_index_of(w, h, x, ym);
        lemma_index_of(w, h, x, yb);
        let d = if ya < yb { 6int } else { 1int };
        assert(nb(w, h, ym * w + x, d) == Some(yb * w + x));
        assert(past_toward(ya, yb, yb));
        lemma_reach_step(t, w, h, s, ym * w + x, yb * w + x);
    }
}

/// A dug corridor whose first cell is walkable leads from its first cell to
/// its last.
pub proof fn lemma_corridor_walk(t: Seq<TileType>, w: int, h: int, x1: int, y1: int, x2: int, y2: int)
    requires
        0 < w,
        t.len() == w * h,
        0 <= x1 < w,
        0 <= x2 < w,
        0 <= y1 < h,
        0 <= y2 < h,
        walkable(t[y1 * w + x1]),
        forall|c: int|
            0 <= c < t.len() && #[trigger] on_corridor(x1, y1, x2, y2, c % w, c / w) ==> t[c]
                == TileType::Floor,
    ensures
        reachable(t, w, h, y1 * w + x1, y2 * w + x2),
{
    lemma_index_of(w, h, x1, y1);
    lemma_reach_self(t, w, h, y1 * w + x1);
    assert forall|x: int| past_toward(x1, x2, x) implies walkable(#[trigger] t[y1 * w + x]) by {
        lemma_index_of(w, h, x, y1);
        assert(on_corridor(x1, y1, x2, y2, (y1 * w + x) % w, (y1 * w + x) / w));
    }
    lemma_row_reach(t, w, h, y1 * w + x1, y1, x1, x2);
    assert forall|y: int| past_toward(y1, y2, y) implies walkable(#[trigger] t[y * w + x2]) by {
        lemma_index_of(w, h, x2, y);
        assert(on_corridor(x1, y1, x2, y2, (y * w + x2) % w, (y * w + x2) / w));
    }
    lemma_col_reach(t, w, h, y1 * w + x1, x2, y1, y2);
}

pub proof fn lemma_dug_keeps_floor(t: Seq<TileType>, w: int, rooms: Seq<Rect>, targets: Seq<int>, k: nat, c: int)
    requires
        0 <= c < t.len(),
        t[c] == TileType::Floor,
    ensures
        dug_corridors(t, w, rooms, targets, k)[c] == TileType::Floor,
    decreases k,
{
    lemma_corridors_floor(t, w, rooms, targets, k);
    if k > 0 {
        lemma_dug_keeps_floor(t, w, rooms, targets, (k - 1) as nat, c);
        lemma_corridors_floor(t, w, rooms, targets, (k - 1) as nat);
    }
}

/// The grid a room recipe leaves: rooms carved, then each joined to its
/// nearest later room.
pub open spec fn joined_rooms(t: Seq<TileType>, w: int, rooms: Seq<Rect>, targets: Seq<int>) -> Seq<TileType> {
    dug_corridors(rooms_carved(t, w, rooms), w, rooms, targets, targets.len())
}

/// What the room recipe needs of its rooms and corridor targets.
pub open spec fn rooms_joinable(w: int, h: int, rooms: Seq<Rect>, targets: Seq<int>) -> bool {
    &&& rooms.len() > 0
    &&& targets.len() == rooms.len() - 1
    &&& forall|k: int| 0 <= k < rooms.len() ==> rect_in(w, h, #[trigger] rooms[k]) && roomy(rooms[k])
    &&& forall|k: int| 0 <= k < targets.len() ==> is_nearest(rooms, k, #[trigger] targets[k])
}

proof fn lemma_center_open(t: Seq<TileType>, w: int, h: int, rooms: Seq<Rect>, targets: Seq<int>, k: int)
    requires
        0 < w,
        t.len() == w * h,
        rooms_joinable(w, h, rooms, targets),
        0 <= k < rooms.len(),
    ensures
        0 <= center_idx(w, rooms[k]) < t.len(),
        joined_rooms(t, w, rooms, targets).len() == t.len(),
        walkable(joined_rooms(t, w, rooms, targets)[center_idx(w, rooms[k])]),
{
    let r = rooms[k];
    assert(rect_in(w, h, r) && roomy(r));
    let cx = center_x(r);
    let cy = center_y(r);
    lemma_index_of(w, h, cx, cy);
    let carved = rooms_carved(t, w, rooms);
    assert(in_room(rooms[k], cx, cy));
    assert(carved[center_idx(w, r)] == TileType::Floor);
    lemma_dug_keeps_floor(carved, w, rooms, targets, targets.len(), center_idx(w, r));
    lemma_corridors_floor(carved, w, rooms, targets, targets.len());
}

proof fn lemma_room_to_last(t: Seq<TileType>, w: int, h: int, rooms: Seq<Rect>, targets: Seq<int>, k: int)
    requires
        0 < w,
        t.len() == w * h,
        rooms_joinable(w, h, rooms, targets),
        0 <= k < rooms.len(),
    ensures
        reachable(
            joined_rooms(t, w, rooms, targets),
            w,
            h,
            center_idx(w, rooms[k]),
            center_idx(w, rooms[rooms.len() - 1]),
        ),
    decreases rooms.len() - k,
{
    let g = joined_rooms(t, w, rooms, targets);
    lemma_center_open(t, w, h, rooms, targets, k);
    if k == rooms.len() - 1 {
        lemma_reach_self(g, w, h, center_idx(w, rooms[k]));
    } else {
        let j = targets[k];
        assert(is_nearest(rooms, k, j));
        lemma_room_to_last(t, w, h, rooms, targets, j);
        let a = rooms[k];
        let b = rooms[j];
        assert(rect_in(w, h, a) && rect_in(w, h, b));
        let carved = rooms_carved(t, w, rooms);
        lemma_corridors_floor(carved, w, rooms, targets, targets.len());
        assert forall|c: int|
            0 <= c < g.len() && #[trigger] on_corridor(center_x(a), center_y(a), center_x(b), center_y(b), c % w, c / w)
                implies g[c] == TileType::Floor by {
            assert(on_corridor(
                center_x(rooms[k]),
                center_y(rooms[k]),
                center_x(rooms[targets[k]]),
                center_y(rooms[targets[k]]),
                c % w,
                c / w,
            ));
        }
        lemma_corridor_walk(g, w, h, center_x(a), center_y(a), center_x(b), center_y(b));
        lemma_reach_trans(g, w, h, center_idx(w, a), center_idx(w, b), center_idx(w, rooms[rooms.len() - 1]));
    }
}

/// Rooms carved and joined each to its nearest later room are connected:
/// from the centre of any room one can walk over walkable cells to the
/// centre of any other.
pub proof fn lemma_rooms_connected(
    t: Seq<TileType>,
    w: int,
    h: int,
    rooms: Seq<Rect>,
    targets: Seq<int>,
    i: int,
    j: int,
)
    requires
        0 < w,
        t.len() == w * h,
        rooms_joinable(w, h, rooms, targets),
        0 <= i < rooms.len(),
        0 <= j < rooms.len(),
    ensures
        reachable(joined_rooms(t, w, rooms, targets), w, h, center_idx(w, rooms[i]), center_idx(w, rooms[j])),
{
    let g = joined_rooms(t, w, rooms, targets);
    lemma_center_open(t, w, h, rooms, targets, 0);
    lemma_room_to_last(t, w, h, rooms, targets, i);
    lemma_room_to_last(t, w, h, rooms, targets, j);
    lemma_reach_sym(g, w, h, center_idx(w, rooms[j]), center_idx(w, rooms[rooms.len() - 1]));
    lemma_reach_trans(
        g,
        w,
        h,
        center_idx(w, rooms[i]),
        center_idx(w, rooms[rooms.len() - 1]),
        center_idx(w, rooms[j]),
    );
}

/// Every walkable cell can be walked to from `s`.
pub open spec fn all_reachable(t: Seq<TileType>, w: int, h: int, s: int) -> bool {
    forall|i: int| 0 <= i < t.len() && walkable(#[trigger] t[i]) ==> reachable(t, w, h, s, i)
}

/// Once every walkable cell is reachable from one start, it is reachable
/// from any walkable start: moving the start after culling keeps the level
/// connected.
pub proof fn lemma_any_start_reaches_all(t: Seq<TileType>, w: int, h: int, s: int, s2: int)
    requires
        0 < w,
        t.len() == w * h,
        all_reachable(t, w, h, s),
        0 <= s2 < t.len(),
        walkable(t[s2]),
    ensures
        all_reachable(t, w, h, s2),
{
    assert(reachable(t, w, h, s, s2));
    lemma_reach_sym(t, w, h, s, s2);
    assert forall|i: int| 0 <= i < t.len() && walkable(#[trigger] t[i]) implies reachable(t, w, h, s2, i) by {
        lemma_reach_trans(t, w, h, s2, s, i);
    }
}

/// Walks depend on walkability alone: a grid whose cells are walkable
/// exactly where another's are has the same walks.
pub proof fn lemma_same_walkability_same_walks(
    t1: Seq<TileType>,
    t2: Seq<TileType>,
    w: int,
    h: int,
    a: int,
    b: int,
)
    requires
        t1.len() == t2.len(),
        forall|i: int| 0 <= i < t1.len() ==> walkable(#[trigger] t1[i]) == walkable(t2[i]),
        reachable(t1, w, h, a, b),
    ensures
        reachable(t2, w, h, a, b),
{
    let p = choose|p: Seq<int>| is_walk(t1, w, h, p) && p[0] == a && p.last() == b;
    assert forall|k: int| 0 <= k < p.len() implies 0 <= #[trigger] p[k] < t2.len() && walkable(t2[p[k]]) by {
        assert(walkable(t1[p[k]]));
    }
    assert(is_walk(t2, w, h, p));
}

/// Stages that keep walkability (placing stairs on a walkable cell,
/// decorating, planning spawns) keep every walkable cell reachable.
pub proof fn lemma_connected_kept(t1: Seq<TileType>, t2: Seq<TileType>, w: int, h: int, s: int)
    requires
        t1.len() == t2.len(),
        forall|i: int| 0 <= i < t1.len() ==> walkable(#[trigger] t1[i]) == walkable(t2[i]),
        all_reachable(t1, w, h, s),
    ensures
        all_reachable(t2, w, h, s),
{
    assert forall|i: int| 0 <= i < t2.len() && walkable(#[trigger] t2[i]) implies reachable(t2, w, h, s, i) by {
        assert(walkable(t1[i]));
        lemma_same_walkability_same_walks(t1, t2, w, h, s, i);
    }
}

/// Down stairs are walkable, so putting them on a walkable cell keeps
/// walkability everywhere.
pub proof fn lemma_stairs_keep_walkability(t: Seq<TileType>, e: int)
    requires
        0 <= e < t.len(),
        walkable(t[e]),
    ensures
        forall|i: int| 0 <= i < t.len() ==> walkable(#[trigger] t[i]) == walkable(t.update(e, TileType::DownStairs)[i]),
{
}

/// Rooms carved into an all-wall grid without corridors are cut off from
/// each other: no walk leads from the centre of one room to the centre of
/// another.
pub proof fn lemma_unjoined_rooms_apart(t: Seq<TileType>, w: int, h: int, rooms: Seq<Rect>, i: int, j: int)
    requires
        0 < w,
        t.len() == w * h,
        forall|c: int| 0 <= c < t.len() ==> #[trigger] t[c] == TileType::Wall,
        rooms_apart(rooms),
        forall|k: int| 0 <= k < rooms.len() ==> rect_in(w, h, #[trigger] rooms[k]) && roomy(rooms[k]),
        0 <= i < rooms.len(),
        0 <= j < rooms.len(),
        i != j,
    ensures
        !reachable(rooms_carved(t, w, rooms), w, h, center_idx(w, rooms[i]), center_idx(w, rooms[j])),
{
    let g = rooms_carved(t, w, rooms);
    let a = rooms[i];
    let b = rooms[j];
    lemma_index_of(w, h, center_x(a), center_y(a));
    lemma_index_of(w, h, center_x(b), center_y(b));
    if reachable(g, w, h, center_idx(w, a), center_idx(w, b)) {
        let p = choose|p: Seq<int>| is_walk(g, w, h, p) && p[0] == center_idx(w, a) && p.last() == center_idx(w, b);
        lemma_walk_stays_in_room(t, w, h, rooms, i, p, p.len() - 1);
        let c = p.last();
        assert(in_room(a, c % w, c / w));
        assert(in_room(b, c % w, c / w));
        if i < j {
            assert(!overlaps(rooms[i], rooms[j]));
        } else {
            assert(!overlaps(rooms[j], rooms[i]));
        }
    }
}

proof fn lemma_walk_stays_in_room(t: Seq<TileType>, w: int, h: int, rooms: Seq<Rect>, i: int, p: Seq<int>, k: int)
    requires
        0 < w,
        t.len() == w * h,
        forall|c: int| 0 <= c < t.len() ==> #[trigger] t[c] == TileType::Wall,
        rooms_apart(rooms),
        forall|q: int| 0 <= q < rooms.len() ==> rect_in(w, h, #[trigger] rooms[q]) && roomy(rooms[q]),
        0 <= i < rooms.len(),
        is_walk(rooms_carved(t, w, rooms), w, h, p),
        p[0] == center_idx(w, rooms[i]),
        0 <= k < p.len(),
    ensures
        in_room(rooms[i], p[k] % w, p[k] / w),
    decreases k,
{
    let a = rooms[i];
    let g = rooms_carved(t, w, rooms);
    if k == 0 {
        lemma_index_of(w, h, center_x(a), center_y(a));
    } else {
        lemma_walk_stays_in_room(t, w, h, rooms, i, p, k - 1);
        let u = p[k - 1];
        let v = p[k];
        assert(step(w, h, p[k - 1], p[(k - 1) + 1]));
        let d = choose|d: int| 0 <= d < 8 && nb(w, h, u, d) == Some(v);
        assert(0 <= u < g.len());
        lemma_nb_in_grid(w, h, u, d);
        assert(0 <= v < g.len() && walkable(g[v]));
        // a walkable cell lies in some room
        assert(in_some_room(rooms, v % w, v / w));
        let q = choose|q: int| 0 <= q < rooms.len() && in_room(#[trigger] rooms[q], v % w, v / w);
        if q != i {
            if i < q {
                assert(!overlaps(rooms[i], rooms[q]));
            } else {
                assert(!overlaps(rooms[q], rooms[i]));
            }
            assert(false);
        }
    }
}

} // verus!
