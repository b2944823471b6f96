//! Breadth-first distances over walkable cells.
use vstd::prelude::*;
use vstd::set_lib::{lemma_len_subset, set_int_range, lemma_int_range};
use crate::tile_type::{TileType, walkable, is_tile_walkable};
use crate::map::GameMap;
use crate::grid::{
    nb, step, is_walk, reachable, neighbor, lemma_nb_symmetric, lemma_walk_push,
    lemma_closed_holds_reachable, lemma_nb_in_grid,
};

verus! {

/// Labels of a distance map that hold at every stage of the search: a
/// labelled cell is reachable, neighbouring labels differ by at most one,
/// and every positive label has a neighbour one lower.
pub open spec fn labels_ok(t: Seq<TileType>, w: int, h: int, s: int, dist: Seq<i32>) -> bool {
    &&& dist.len() == t.len()
    &&& dist[s] == 0
    &&& forall|i: int| 0 <= i < dist.len() ==> #[trigger] dist[i] >= -1
    &&& forall|i: int|
        0 <= i < dist.len() && #[trigger] dist[i] >= 0 ==> reachable(t, w, h, s, i)
    &&& forall|i: int, d: int|
        #![trigger dist[i], nb(w, h, i, d)]
        0 <= i < dist.len() && 0 <= d < 8 && dist[i] >= 0 && nb(w, h, i, d) is Some && dist[nb(
            w,
            h,
            i,
            d,
        ).unwrap()] >= 0 ==> dist[nb(w, h, i, d).unwrap()] <= dist[i] + 1
    &&& forall|i: int|
        0 <= i < dist.len() && #[trigger] dist[i] > 0 ==> exists|d: int|
            0 <= d < 8 && #[trigger] nb(w, h, i, d) is Some && dist[nb(w, h, i, d).unwrap()]
                == dist[i] - 1
    &&& forall|i: int| 0 <= i < dist.len() && i != s ==> #[trigger] dist[i] != 0
}

/// Every walkable neighbour of a cell labelled below `level` is labelled.
pub open spec fn closed_below(t: Seq<TileType>, w: int, h: int, dist: Seq<i32>, level: int) -> bool {
    forall|i: int, d: int|
        #![trigger dist[i], nb(w, h, i, d)]
        0 <= i < dist.len() && 0 <= d < 8 && 0 <= dist[i] < level && nb(w, h, i, d) is Some
            && walkable(t[nb(w, h, i, d).unwrap()]) ==> dist[nb(w, h, i, d).unwrap()] >= 0
}

/// The finished distance map of `t` from `s`: labels are the walk distances
/// of exactly the reachable cells, and -1 elsewhere.
pub open spec fn is_distance_map(t: Seq<TileType>, w: int, h: int, s: int, dist: Seq<i32>) -> bool {
    &&& labels_ok(t, w, h, s, dist)
    &&& forall|i: int|
        0 <= i < dist.len() ==> (#[trigger] dist[i] >= 0 <==> reachable(t, w, h, s, i))
}

/// `seen` is the finite set of labelled cells.
pub open spec fn seen_ok(dist: Seq<i32>, seen: Set<int>) -> bool {
    &&& seen.finite()
    &&& seen.subset_of(set_int_range(0, dist.len() as int))
    &&& forall|i: int| 0 <= i < dist.len() ==> (#[trigger] dist[i] >= 0 <==> seen.contains(i))
}

/// State of the search between two levels: `frontier` holds exactly the
/// cells labelled `level`, and every cell below it has its neighbours labelled.
#[verifier::opaque]
pub open spec fn level_state(
    t: Seq<TileType>,
    w: int,
    h: int,
    s: int,
    dist: Seq<i32>,
    level: int,
    frontier: Seq<usize>,
    seen: Set<int>,
) -> bool {
    &&& labels_ok(t, w, h, s, dist)
    &&& closed_below(t, w, h, dist, level)
    &&& 0 <= level
    &&& forall|i: int| 0 <= i < dist.len() ==> #[trigger] dist[i] <= level
    &&& forall|k: int|
        0 <= k < frontier.len() ==> #[trigger] frontier[k] < dist.len() && dist[frontier[k] as int]
            == level
    &&& forall|i: int|
        0 <= i < dist.len() && #[trigger] dist[i] == level ==> exists|k: int|
            0 <= k < frontier.len() && #[trigger] frontier[k] == i
    &&& seen_ok(dist, seen)
    &&& frontier.len() > 0 ==> level < seen.len()
}

/// State of the search inside a level: the first `k` frontier cells have
/// their neighbours labelled, and `next` holds exactly the cells labelled
/// `level + 1`.
#[verifier::opaque]
pub open spec fn frontier_state(
    t: Seq<TileType>,
    w: int,
    h: int,
    s: int,
    dist: Seq<i32>,
    level: int,
    frontier: Seq<usize>,
    k: int,
    next: Seq<usize>,
    seen: Set<int>,
    seen0: Set<int>,
) -> bool {
    &&& labels_ok(t, w, h, s, dist)
    &&& closed_below(t, w, h, dist, level)
    &&& 0 <= level < seen0.len()
    &&& 0 <= k <= frontier.len()
    &&& forall|i: int| 0 <= i < dist.len() ==> #[trigger] dist[i] <= level + 1
    &&& forall|j: int|
        0 <= j < frontier.len() ==> #[trigger] frontier[j] < dist.len() && dist[frontier[j] as int]
            == level
    &&& forall|i: int|
        0 <= i < dist.len() && #[trigger] dist[i] == level ==> exists|j: int|
            0 <= j < frontier.len() && #[trigger] frontier[j] == i
    &&& forall|j: int, d: int|
        #![trigger frontier[j], nb(w, h, frontier[j] as int, d)]
        0 <= j < k && 0 <= d < 8 && nb(w, h, frontier[j] as int, d) is Some && walkable(
            t[nb(w, h, frontier[j] as int, d).unwrap()],
        ) ==> dist[nb(w, h, frontier[j] as int, d).unwrap()] >= 0
    &&& forall|m: int|
        0 <= m < next.len() ==> #[trigger] next[m] < dist.len() && dist[next[m] as int] == level + 1
    &&& forall|i: int|
        0 <= i < dist.len() && #[trigger] dist[i] == level + 1 ==> exists|m: int|
            0 <= m < next.len() && #[trigger] next[m] == i
    &&& seen_ok(dist, seen)
    &&& seen.len() == seen0.len() + next.len()
}

/// The walkable neighbours of `u` in the first `d` directions are labelled.
pub open spec fn dirs_done(t: Seq<TileType>, w: int, h: int, dist: Seq<i32>, u: int, d: int) -> bool {
    forall|e: int|
        0 <= e < d && #[trigger] nb(w, h, u, e) is Some && walkable(t[nb(w, h, u, e).unwrap()])
            ==> dist[nb(w, h, u, e).unwrap()] >= 0
}

/// Breadth-first search from `start` over walkable cells, eight ways.
pub fn distance_map(map: &GameMap, start: usize) -> (dist: Vec<i32>)
    requires
        map.wf(),
        start < map.size(),
        walkable(map.tiles@[start as int]),
    ensures
        is_distance_map(map.tiles@, map.width as int, map.height as int, start as int, dist@),
{
    let ghost t = map.tiles@;
    let ghost wi = map.width as int;
    let ghost hi = map.height as int;
    let w = map.width;
    let h = map.height;
    let n = map.tiles.len();
    let mut dist: Vec<i32> = vec![-1i32; n];
    dist.set(start, 0);
    let ghost mut seen: Set<int> = set![start as int];
    let mut frontier: Vec<usize> = vec![start];
    let mut level: i32 = 0;
    proof {
        lemma_search_start(t, wi, hi, start as int, dist@, frontier@, seen);
    }
    while frontier.len() > 0
        invariant
            map.wf(),
            t == map.tiles@,
            wi == w,
            hi == h,
            w == map.width,
            h == map.height,
            n == t.len(),
            start < n,
            dist@.len() == n,
            level_state(t, wi, hi, start as int, dist@, level as int, frontier@, seen),
            seen.finite(),
            seen.len() <= n,
        decreases n - seen.len() + frontier@.len(),
    {
        proof {
            lemma_level_to_frontier(t, wi, hi, start as int, dist@, level as int, frontier@, seen);
        }
        let ghost seen0 = seen;
        let mut next: Vec<usize> = Vec::new();
        let mut k: usize = 0;
        while k < frontier.len()
            invariant
                map.wf(),
                t == map.tiles@,
                wi == w,
                hi == h,
                w == map.width,
                h == map.height,
                n == t.len(),
                start < n,
                dist@.len() == n,
                level < seen0.len() <= n,
                k <= frontier@.len(),
                frontier_state(
                    t,
                    wi,
                    hi,
                    start as int,
                    dist@,
                    level as int,
                    frontier@,
                    k as int,
                    next@,
                    seen,
                    seen0,
                ),
            decreases frontier@.len() - k,
        {
            proof {
                lemma_frontier_cell(
                    t,
                    wi,
                    hi,
                    start as int,
                    dist@,
                    level as int,
                    frontier@,
                    k as int,
                    next@,
                    seen,
                    seen0,
                );
            }
            let u = frontier[k];
            let mut d: usize = 0;
            while d < 8
                invariant
                    map.wf(),
                    t == map.tiles@,
                    wi == w,
                    hi == h,
                    w == map.width,
                    h == map.height,
                    n == t.len(),
                    start < n,
                    dist@.len() == n,
                    level < seen0.len() <= n,
                    k < frontier@.len(),
                    u == frontier@[k as int],
                    u < n,
                    d <= 8,
                    frontier_state(
                        t,
                        wi,
                        hi,
                        start as int,
                        dist@,
                        level as int,
                        frontier@,
                        k as int,
                        next@,
                        seen,
                        seen0,
                    ),
                    dirs_done(t, wi, hi, dist@, u as int, d as int),
                decreases 8 - d,
            {
                match neighbor(w, h, u, d) {
                    Some(j) => {
                        if dist[j] < 0 && is_tile_walkable(map.tiles[j]) {
                            proof {
                                lemma_mark(
                                    t,
                                    wi,
                                    hi,
                                    start as int,
                                    dist@,
                                    level as int,
                                    frontier@,
                                    k as int,
                                    next@,
                                    seen,
                                    seen0,
                                    d as int,
                                );
                                seen = seen.insert(j as int);
                            }
                            dist.set(j, level + 1);
                            next.push(j);
                        }
                    },
                    None => {},
                }
                d = d + 1;
            }
            proof {
                lemma_frontier_next(
                    t,
                    wi,
                    hi,
                    start as int,
                    dist@,
                    level as int,
                    frontier@,
                    k as int,
                    next@,
                    seen,
                    seen0,
                );
            }
            k = k + 1;
        }
        proof {
            lemma_frontier_to_level(
                t,
                wi,
                hi,
                start as int,
                dist@,
                level as int,
                frontier@,
                next@,
                seen,
                seen0,
            );
        }
        frontier = next;
        level = level + 1;
    }
    proof {
        lemma_search_end(t, wi, hi, start as int, dist@, level as int, frontier@, seen);
    }
    dist
}

proof fn lemma_search_start(
    t: Seq<TileType>,
    w: int,
    h: int,
    s: int,
    dist: Seq<i32>,
    frontier: Seq<usize>,
    seen: Set<int>,
)
    requires
        0 < w,
        0 < h,
        t.len() == w * h,
        0 <= s < t.len(),
        walkable(t[s]),
        dist.len() == t.len(),
        dist[s] == 0,
        forall|i: int| 0 <= i < dist.len() && i != s ==> dist[i] == -1,
        frontier.len() == 1,
        frontier[0] as int == s,
        seen == set![s],
    ensures
        level_state(t, w, h, s, dist, 0, frontier, seen),
        seen.finite(),
        seen.len() <= t.len(),
{
    reveal(level_state);
    let p = seq![s];
    assert(is_walk(t, w, h, p));
    assert(p[0] == s && p.last() == s);
    assert(reachable(t, w, h, s, s));
    assert forall|i: int| 0 <= i < dist.len() && #[trigger] dist[i] == 0 implies exists|k: int|
        0 <= k < frontier.len() && #[trigger] frontier[k] == i by {
        assert(i == s);
        assert(frontier[0] as int == s);
    }
    assert forall|i: int| 0 <= i < dist.len() && #[trigger] dist[i] >= 0 implies reachable(t, w, h, s, i) by {
        assert(i == s);
    }
    lemma_int_range(0, t.len() as int);
    assert(seen.len() == 1);
    assert forall|i: int| 0 <= i < dist.len() implies (#[trigger] dist[i] >= 0 <==> seen.contains(i)) by {}
    assert forall|i: int, d: int|
        #![trigger dist[i], nb(w, h, i, d)]
        0 <= i < dist.len() && 0 <= d < 8 && dist[i] >= 0 && nb(w, h, i, d) is Some && dist[nb(
            w,
            h,
            i,
            d,
        ).unwrap()] >= 0 implies dist[nb(w, h, i, d).unwrap()] <= dist[i] + 1 by {
        lemma_nb_in_grid(w, h, i, d);
        assert(i == s);
        assert(nb(w, h, i, d).unwrap() == s);
    }
    assert(labels_ok(t, w, h, s, dist));
    assert(closed_below(t, w, h, dist, 0));
    assert(seen_ok(dist, seen));
    assert(seen.subset_of(set_int_range(0, dist.len() as int)));
}

proof fn lemma_level_to_frontier(
    t: Seq<TileType>,
    w: int,
    h: int,
    s: int,
    dist: Seq<i32>,
    level: int,
    frontier: Seq<usize>,
    seen: Set<int>,
)
    requires
        level_state(t, w, h, s, dist, level, frontier, seen),
        frontier.len() > 0,
    ensures
        frontier_state(t, w, h, s, dist, level, frontier, 0, seq![], seen, seen),
        level < seen.len() <= dist.len(),
{
    reveal(level_state);
    reveal(frontier_state);
    lemma_int_range(0, dist.len() as int);
    lemma_len_subset(seen, set_int_range(0, dist.len() as int));
}

proof fn lemma_frontier_cell(
    t: Seq<TileType>,
    w: int,
    h: int,
    s: int,
    dist: Seq<i32>,
    level: int,
    frontier: Seq<usize>,
    k: int,
    next: Seq<usize>,
    seen: Set<int>,
    seen0: Set<int>,
)
    requires
        frontier_state(t, w, h, s, dist, level, frontier, k, next, seen, seen0),
        k < frontier.len(),
    ensures
        frontier[k] < dist.len(),
        dirs_done(t, w, h, dist, frontier[k] as int, 0),
{
    reveal(frontier_state);
}

proof fn lemma_mark(
    t: Seq<TileType>,
    w: int,
    h: int,
    s: int,
    dist: Seq<i32>,
    level: int,
    frontier: Seq<usize>,
    k: int,
    next: Seq<usize>,
    seen: Set<int>,
    seen0: Set<int>,
    d: int,
)
    requires
        0 < w,
        0 < h,
        t.len() == w * h,
        w * h <= i32::MAX,
        0 <= s < t.len(),
        dist.len() == t.len(),
        frontier_state(t, w, h, s, dist, level, frontier, k, next, seen, seen0),
        seen0.len() <= t.len(),
        0 <= k < frontier.len(),
        dirs_done(t, w, h, dist, frontier[k] as int, d),
        0 <= d < 8,
        nb(w, h, frontier[k] as int, d) is Some,
        dist[nb(w, h, frontier[k] as int, d).unwrap()] < 0,
        walkable(t[nb(w, h, frontier[k] as int, d).unwrap()]),
    ensures
        ({
            let j = nb(w, h, frontier[k] as int, d).unwrap();
            let nd = dist.update(j, (level + 1) as i32);
            &&& frontier_state(t, w, h, s, nd, level, frontier, k, next.push(j as usize), seen.insert(j), seen0)
            &&& dirs_done(t, w, h, nd, frontier[k] as int, d + 1)
            &&& level + 1 <= i32::MAX
        }),
{
    reveal(frontier_state);
    let u = frontier[k] as int;
    let j = nb(w, h, u, d).unwrap();
    lemma_nb_in_grid(w, h, u, d);
    let nd = dist.update(j, (level + 1) as i32);
    let nn = next.push(j as usize);
    let ns = seen.insert(j);
    mark_cell(t, w, h, s, dist, level, u, d);
    assert(!seen.contains(j));
    assert forall|i: int| 0 <= i < nd.len() && #[trigger] nd[i] == level + 1 implies exists|m: int|
        0 <= m < nn.len() && #[trigger] nn[m] == i by {
        if i != j {
            assert(dist[i] == level + 1);
            let m = choose|m: int| 0 <= m < next.len() && #[trigger] next[m] == i;
            assert(nn[m] == i);
        } else {
            assert(nn[nn.len() - 1] == i);
        }
    }
    assert forall|i: int| 0 <= i < nd.len() && #[trigger] nd[i] == level implies exists|jj: int|
        0 <= jj < frontier.len() && #[trigger] frontier[jj] == i by {
        assert(dist[i] == level);
    }
    assert forall|m: int| 0 <= m < nn.len() implies #[trigger] nn[m] < nd.len() && nd[nn[m] as int]
        == level + 1 by {
        if m < next.len() {
            assert(nn[m] == next[m]);
        }
    }
    assert forall|jj: int| 0 <= jj < frontier.len() implies #[trigger] frontier[jj] < nd.len()
        && nd[frontier[jj] as int] == level by {
        assert(dist[frontier[jj] as int] == level);
    }
    assert forall|i: int| 0 <= i < nd.len() implies #[trigger] nd[i] <= level + 1 by {
        assert(dist[i] <= level + 1);
    }
    assert forall|i: int| 0 <= i < nd.len() implies (#[trigger] nd[i] >= 0 <==> ns.contains(i)) by {
        assert(dist[i] >= 0 <==> seen.contains(i));
    }
    assert forall|jj: int, e: int|
        #![trigger frontier[jj], nb(w, h, frontier[jj] as int, e)]
        0 <= jj < k && 0 <= e < 8 && nb(w, h, frontier[jj] as int, e) is Some && walkable(
            t[nb(w, h, frontier[jj] as int, e).unwrap()],
        ) implies nd[nb(w, h, frontier[jj] as int, e).unwrap()] >= 0 by {
        lemma_nb_in_grid(w, h, frontier[jj] as int, e);
        assert(dist[nb(w, h, frontier[jj] as int, e).unwrap()] >= 0);
    }
    assert forall|e: int|
        0 <= e < d + 1 && #[trigger] nb(w, h, u, e) is Some && walkable(t[nb(w, h, u, e).unwrap()])
            implies nd[nb(w, h, u, e).unwrap()] >= 0 by {
        lemma_nb_in_grid(w, h, u, e);
        if e < d {
            assert(dist[nb(w, h, u, e).unwrap()] >= 0);
        }
    }
    lemma_int_range(0, dist.len() as int);
    assert(ns.subset_of(set_int_range(0, dist.len() as int)));
}

proof fn lemma_frontier_next(
    t: Seq<TileType>,
    w: int,
    h: int,
    s: int,
    dist: Seq<i32>,
    level: int,
    frontier: Seq<usize>,
    k: int,
    next: Seq<usize>,
    seen: Set<int>,
    seen0: Set<int>,
)
    requires
        frontier_state(t, w, h, s, dist, level, frontier, k, next, seen, seen0),
        0 <= k < frontier.len(),
        dirs_done(t, w, h, dist, frontier[k] as int, 8),
    ensures
        frontier_state(t, w, h, s, dist, level, frontier, k + 1, next, seen, seen0),
{
    reveal(frontier_state);
    assert forall|jj: int, e: int|
        #![trigger frontier[jj], nb(w, h, frontier[jj] as int, e)]
        0 <= jj < k + 1 && 0 <= e < 8 && nb(w, h, frontier[jj] as int, e) is Some && walkable(
            t[nb(w, h, frontier[jj] as int, e).unwrap()],
        ) implies dist[nb(w, h, frontier[jj] as int, e).unwrap()] >= 0 by {
        if jj == k {
            assert(nb(w, h, frontier[k] as int, e) is Some);
        }
    }
}

proof fn lemma_frontier_to_level(
    t: Seq<TileType>,
    w: int,
    h: int,
    s: int,
    dist: Seq<i32>,
    level: int,
    frontier: Seq<usize>,
    next: Seq<usize>,
    seen: Set<int>,
    seen0: Set<int>,
)
    requires
        frontier_state(t, w, h, s, dist, level, frontier, frontier.len() as int, next, seen, seen0),
        seen0.finite(),
    ensures
        level_state(t, w, h, s, dist, level + 1, next, seen),
        seen.finite(),
        seen.len() == seen0.len() + next.len(),
        seen.len() <= dist.len(),
{
    reveal(frontier_state);
    reveal(level_state);
    assert forall|i: int, e: int|
        #![trigger dist[i], nb(w, h, i, e)]
        0 <= i < dist.len() && 0 <= e < 8 && 0 <= dist[i] < level + 1 && nb(w, h, i, e) is Some
            && walkable(t[nb(w, h, i, e).unwrap()]) implies dist[nb(w, h, i, e).unwrap()] >= 0 by {
        if dist[i] == level {
            let jj = choose|jj: int| 0 <= jj < frontier.len() && #[trigger] frontier[jj] == i;
            assert(nb(w, h, frontier[jj] as int, e) is Some);
        }
    }
    lemma_int_range(0, dist.len() as int);
    lemma_len_subset(seen, set_int_range(0, dist.len() as int));
}

proof fn lemma_search_end(
    t: Seq<TileType>,
    w: int,
    h: int,
    s: int,
    dist: Seq<i32>,
    level: int,
    frontier: Seq<usize>,
    seen: Set<int>,
)
    requires
        level_state(t, w, h, s, dist, level, frontier, seen),
        frontier.len() == 0,
        dist.len() == t.len(),
    ensures
        is_distance_map(t, w, h, s, dist),
{
    reveal(level_state);
    let n = dist.len();
    let inside = |c: int| 0 <= c < n && dist[c] >= 0;
    assert forall|a: int, b: int|
        #![trigger inside(a), step(w, h, a, b)]
        inside(a) && step(w, h, a, b) && 0 <= b < t.len() && walkable(t[b]) implies inside(b) by {
        let e = choose|e: int| 0 <= e < 8 && nb(w, h, a, e) == Some(b);
        assert(dist[a] < level) by {
            if dist[a] == level {
                let jj = choose|jj: int| 0 <= jj < frontier.len() && #[trigger] frontier[jj] == a;
            }
        }
        assert(nb(w, h, a, e) is Some);
    }
    assert forall|i: int| 0 <= i < dist.len() implies (#[trigger] dist[i] >= 0 <==> reachable(
        t,
        w,
        h,
        s,
        i,
    )) by {
        if reachable(t, w, h, s, i) {
            lemma_closed_holds_reachable(t, w, h, s, i, inside);
        }
    }
}

/// Labelling the unlabelled walkable neighbour of a frontier cell with the
/// next level keeps the labels consistent.
proof fn mark_cell(
    t: Seq<TileType>,
    w: int,
    h: int,
    s: int,
    dist: Seq<i32>,
    level: int,
    u: int,
    d: int,
)
    requires
        mark_pre(t, w, h, s, dist, level, u, d),
    ensures
        labels_ok(t, w, h, s, dist.update(nb(w, h, u, d).unwrap(), (level + 1) as i32)),
        closed_below(t, w, h, dist.update(nb(w, h, u, d).unwrap(), (level + 1) as i32), level),
{
    let j = nb(w, h, u, d).unwrap();
    lemma_nb_in_grid(w, h, u, d);
    let nd = dist.update(j, (level + 1) as i32);
    mark_reach(t, w, h, s, dist, level, u, d);
    mark_close(t, w, h, s, dist, level, u, d);
    mark_pred(t, w, h, s, dist, level, u, d);
    assert forall|i: int| 0 <= i < nd.len() && i != s implies #[trigger] nd[i] != 0 by {
        if i != j {
            assert(dist[i] != 0);
        }
    }
    assert forall|i: int| 0 <= i < nd.len() implies #[trigger] nd[i] >= -1 by {
        if i != j {
            assert(dist[i] >= -1);
        }
    }
    assert forall|i: int, e: int|
        #![trigger nd[i], nb(w, h, i, e)]
        0 <= i < nd.len() && 0 <= e < 8 && 0 <= nd[i] < level && nb(w, h, i, e) is Some
            && walkable(t[nb(w, h, i, e).unwrap()]) implies nd[nb(w, h, i, e).unwrap()] >= 0 by {
        assert(i != j);
        lemma_nb_in_grid(w, h, i, e);
        assert(dist[i] >= 0 && dist[i] < level);
        if nb(w, h, i, e).unwrap() != j {
            assert(dist[nb(w, h, i, e).unwrap()] >= 0);
        }
    }
}

pub open spec fn mark_pre(
    t: Seq<TileType>,
    w: int,
    h: int,
    s: int,
    dist: Seq<i32>,
    level: int,
    u: int,
    d: int,
) -> bool {
    &&& 0 < w
    &&& 0 < h
    &&& t.len() == w * h
    &&& 0 <= s < t.len()
    &&& labels_ok(t, w, h, s, dist)
    &&& closed_below(t, w, h, dist, level)
    &&& 0 <= level < i32::MAX
    &&& forall|i: int| 0 <= i < dist.len() ==> #[trigger] dist[i] <= level + 1
    &&& 0 <= u < t.len()
    &&& dist[u] == level
    &&& 0 <= d < 8
    &&& nb(w, h, u, d) is Some
    &&& dist[nb(w, h, u, d).unwrap()] < 0
    &&& walkable(t[nb(w, h, u, d).unwrap()])
}

proof fn mark_reach(
    t: Seq<TileType>,
    w: int,
    h: int,
    s: int,
    dist: Seq<i32>,
    level: int,
    u: int,
    d: int,
)
    requires
        mark_pre(t, w, h, s, dist, level, u, d),
    ensures
        forall|i: int|
            0 <= i < dist.len() && #[trigger] dist.update(nb(w, h, u, d).unwrap(), (level + 1) as i32)[i]
                >= 0 ==> reachable(t, w, h, s, i),
{
    let j = nb(w, h, u, d).unwrap();
    lemma_nb_in_grid(w, h, u, d);
    let nd = dist.update(j, (level + 1) as i32);
    assert(reachable(t, w, h, s, u));
    let p = choose|p: Seq<int>| is_walk(t, w, h, p) && p[0] == s && p.last() == u;
    assert(step(w, h, u, j));
    lemma_walk_push(t, w, h, p, j);
    assert(reachable(t, w, h, s, j));
    assert forall|i: int| 0 <= i < nd.len() && #[trigger] nd[i] >= 0 implies reachable(t, w, h, s, i) by {
        if i != j {
            assert(dist[i] >= 0);
        }
    }
}

proof fn mark_close(
    t: Seq<TileType>,
    w: int,
    h: int,
    s: int,
    dist: Seq<i32>,
    level: int,
    u: int,
    d: int,
)
    requires
        mark_pre(t, w, h, s, dist, level, u, d),
    ensures
        forall|i: int, e: int|
            #![trigger dist.update(nb(w, h, u, d).unwrap(), (level + 1) as i32)[i], nb(w, h, i, e)]
            0 <= i < dist.len() && 0 <= e < 8 && dist.update(nb(w, h, u, d).unwrap(), (level + 1) as i32)[i] >= 0 && nb(w, h, i, e) is Some
                && dist.update(nb(w, h, u, d).unwrap(), (level + 1) as i32)[nb(w, h, i, e).unwrap()] >= 0
                ==> dist.update(nb(w, h, u, d).unwrap(), (level + 1) as i32)[nb(w, h, i, e).unwrap()]
                <= dist.update(nb(w, h, u, d).unwrap(), (level + 1) as i32)[i] + 1,
{
    let j = nb(w, h, u, d).unwrap();
    lemma_nb_in_grid(w, h, u, d);
    let nd = dist.update(j, (level + 1) as i32);
    assert forall|i: int, e: int|
        #![trigger nd[i], nb(w, h, i, e)]
        0 <= i < nd.len() && 0 <= e < 8 && nd[i] >= 0 && nb(w, h, i, e) is Some && nd[nb(
            w,
            h,
            i,
            e,
        ).unwrap()] >= 0 implies nd[nb(w, h, i, e).unwrap()] <= nd[i] + 1 by {
        let v = nb(w, h, i, e).unwrap();
        lemma_nb_in_grid(w, h, i, e);
        if i == j && v != j {
            // v is labelled; were it below the level, j would be labelled already
            lemma_nb_symmetric(w, h, i, e);
            assert(nb(w, h, v, 7 - e) == Some(j));
            if dist[v] < level {
                assert(dist[v] >= 0);
                assert(walkable(t[nb(w, h, v, 7 - e).unwrap()]));
                assert(dist[nb(w, h, v, 7 - e).unwrap()] >= 0);
            }
        } else if i != j && v != j {
            assert(dist[i] >= 0 && dist[v] >= 0);
        }
    }
}

proof fn mark_pred(
    t: Seq<TileType>,
    w: int,
    h: int,
    s: int,
    dist: Seq<i32>,
    level: int,
    u: int,
    d: int,
)
    requires
        mark_pre(t, w, h, s, dist, level, u, d),
    ensures
        forall|i: int|
            0 <= i < dist.len() && #[trigger] dist.update(nb(w, h, u, d).unwrap(), (level + 1) as i32)[i] > 0
                ==> exists|e: int|
                0 <= e < 8 && #[trigger] nb(w, h, i, e) is Some
                    && dist.update(nb(w, h, u, d).unwrap(), (level + 1) as i32)[nb(w, h, i, e).unwrap()]
                    == dist.update(nb(w, h, u, d).unwrap(), (level + 1) as i32)[i] - 1,
{
    let j = nb(w, h, u, d).unwrap();
    lemma_nb_in_grid(w, h, u, d);
    lemma_nb_symmetric(w, h, u, d);
    let nd = dist.update(j, (level + 1) as i32);
    assert forall|i: int| 0 <= i < nd.len() && #[trigger] nd[i] > 0 implies exists|e: int|
        0 <= e < 8 && #[trigger] nb(w, h, i, e) is Some && nd[nb(w, h, i, e).unwrap()] == nd[i]
            - 1 by {
        if i == j {
            assert(nb(w, h, j, 7 - d) == Some(u));
            assert(nb(w, h, i, 7 - d) is Some && nd[nb(w, h, i, 7 - d).unwrap()] == nd[i] - 1);
        } else {
            assert(dist[i] > 0);
            let e = choose|e: int|
                0 <= e < 8 && #[trigger] nb(w, h, i, e) is Some && dist[nb(w, h, i, e).unwrap()]
                    == dist[i] - 1;
            lemma_nb_in_grid(w, h, i, e);
            assert(nb(w, h, i, e).unwrap() != j);
            assert(nb(w, h, i, e) is Some && nd[nb(w, h, i, e).unwrap()] == nd[i] - 1);
        }
    }
}

} // verus!
