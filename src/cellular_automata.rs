//! Cave growth by cellular automata.
use vstd::prelude::*;
use crate::tile_type::TileType;
use crate::builder_map::BuilderMap;
use crate::grid::lemma_coords;

verus! {

/// One if cell `i` is wall, else zero.
pub open spec fn wall_at(t: Seq<TileType>, i: int) -> int {
    if t[i] == TileType::Wall {
        1
    } else {
        0
    }
}

/// Walls among the eight cells around cell `i` of a grid `w` wide.
pub open spec fn wall_neighbors(t: Seq<TileType>, w: int, i: int) -> int {
    wall_at(t, i - w - 1) + wall_at(t, i - w) + wall_at(t, i - w + 1) + wall_at(t, i - 1) + wall_at(
        t,
        i + 1,
    ) + wall_at(t, i + w - 1) + wall_at(t, i + w) + wall_at(t, i + w + 1)
}

/// Cell `i` is off the outer border of a `w` by `h` grid.
pub open spec fn interior(w: int, h: int, i: int) -> bool {
    1 <= i % w < w - 1 && 1 <= i / w < h - 1
}

/// One pass of the rule: an interior cell becomes wall when more than four,
/// or none, of its neighbours are wall, and floor otherwise.
pub open spec fn ca_step(t: Seq<TileType>, w: int, h: int) -> Seq<TileType> {
    Seq::new(
        t.len(),
        |i: int|
            if interior(w, h, i) {
                if wall_neighbors(t, w, i) > 4 || wall_neighbors(t, w, i) == 0 {
                    TileType::Wall
                } else {
                    TileType::Floor
                }
            } else {
                t[i]
            },
    )
}

/// `k` passes of the rule.
pub open spec fn ca_iterate(t: Seq<TileType>, w: int, h: int, k: nat) -> Seq<TileType>
    decreases k,
{
    if k == 0 {
        t
    } else {
        ca_step(ca_iterate(t, w, h, (k - 1) as nat), w, h)
    }
}

/// The random start: an interior cell is floor when its roll (of a
/// hundred-sided die) is above 45, so about 55% of them, and wall otherwise.
pub open spec fn seeded(t: Seq<TileType>, w: int, h: int, rolls: Seq<i32>) -> Seq<TileType> {
    Seq::new(
        t.len(),
        |i: int|
            if interior(w, h, i) {
                if rolls[i] > FLOOR_ROLL_ABOVE {
                    TileType::Floor
                } else {
                    TileType::Wall
                }
            } else {
                t[i]
            },
    )
}

/// A seeding roll above this makes floor.
pub const FLOOR_ROLL_ABOVE: i32 = 45;

/// Number of rule passes after seeding.
pub const ITERATIONS: usize = 15;

/// The whole growth: seed from the rolls, then apply the rule fifteen times.
pub open spec fn cave_from_rolls(t: Seq<TileType>, w: int, h: int, rolls: Seq<i32>) -> Seq<TileType> {
    ca_iterate(seeded(t, w, h, rolls), w, h, ITERATIONS as nat)
}

/// Growth is replayable: the same grid and the same rolls at the interior
/// cells give the same cave, cell for cell.
pub proof fn lemma_cellular_automata_replayable(
    t1: Seq<TileType>,
    t2: Seq<TileType>,
    w: int,
    h: int,
    rolls1: Seq<i32>,
    rolls2: Seq<i32>,
)
    requires
        t1 == t2,
        forall|i: int| 0 <= i < t1.len() && interior(w, h, i) ==> rolls1[i] == rolls2[i],
    ensures
        cave_from_rolls(t1, w, h, rolls1) == cave_from_rolls(t2, w, h, rolls2),
{
    assert(seeded(t1, w, h, rolls1) =~= seeded(t2, w, h, rolls2));
}

proof fn lemma_interior_bounds(w: int, h: int, i: int)
    requires
        0 < w,
        0 <= i < w * h,
        interior(w, h, i),
    ensures
        i - w - 1 >= 0,
        i + w + 1 < w * h,
{
    lemma_coords(w, h, i);
    let x = i % w;
    let y = i / w;
    assert(i - w - 1 >= 0) by (nonlinear_arith)
        requires
            i == y * w + x,
            1 <= x,
            1 <= y,
            0 < w,
    ;
    assert(i + w + 1 < w * h) by (nonlinear_arith)
        requires
            i == y * w + x,
            x < w - 1,
            y < h - 1,
            0 < w,
    ;
}

/// Grows caves: random seeding, then repeated smoothing.
#[derive(Copy, Clone)]
pub struct CellularAutomataBuilder {}

impl CellularAutomataBuilder {
    pub fn new() -> (r: CellularAutomataBuilder) {
        CellularAutomataBuilder {  }
    }

    /// Seeds the interior from the rolls (one per cell, used at interior
    /// cells only), then applies the rule fifteen times.
    pub fn build_from_rolls(&mut self, build_data: &mut BuilderMap, rolls: &Vec<i32>)
        requires
            old(build_data).wf(),
            rolls@.len() == old(build_data).map.tiles@.len(),
        ensures
            final(build_data).wf(),
            final(build_data).same_layout(old(build_data)),
            final(build_data).map.tiles@ == cave_from_rolls(
                old(build_data).map.tiles@,
                old(build_data).width as int,
                old(build_data).height as int,
                rolls@,
            ),
    {
        let ghost b0 = *build_data;
        let ghost t0 = build_data.map.tiles@;
        let ghost w = build_data.width as int;
        let ghost h = build_data.height as int;
        let n = build_data.map.tiles.len();
        let wu = build_data.width as usize;
        let hu = build_data.height as usize;
        let mut i: usize = 0;
        while i < n
            invariant
                build_data.wf(),
                build_data.same_layout(&b0),
                b0.map.tiles@ == t0,
                n == t0.len(),
                w == wu,
                h == hu,
                w == build_data.width,
                h == build_data.height,
                rolls@.len() == n,
                i <= n,
                forall|k: int| 0 <= k < i ==> #[trigger] build_data.map.tiles@[k] == seeded(t0, w, h, rolls@)[k],
                forall|k: int| i <= k < n ==> #[trigger] build_data.map.tiles@[k] == t0[k],
            decreases n - i,
        {
            let x = i % wu;
            let y = i / wu;
            if 1 <= x && x + 1 < wu && 1 <= y && y + 1 < hu {
                if rolls[i] > FLOOR_ROLL_ABOVE {
                    build_data.map.tiles.set(i, TileType::Floor);
                } else {
                    build_data.map.tiles.set(i, TileType::Wall);
                }
            }
            i = i + 1;
        }
        proof {
            assert(build_data.map.tiles@ =~= seeded(t0, w, h, rolls@));
        }
        build_data.take_snapshot();
        let mut k: usize = 0;
        while k < ITERATIONS
            invariant
                build_data.wf(),
                build_data.same_layout(&b0),
                w == build_data.width,
                h == build_data.height,
                k <= ITERATIONS,
                build_data.map.tiles@ == ca_iterate(seeded(t0, w, h, rolls@), w, h, k as nat),
            decreases ITERATIONS - k,
        {
            self.apply_iteration(build_data);
            k = k + 1;
        }
    }

    /// Seeds the interior with rolls of a hundred-sided die, drawn in scan
    /// order, then applies the rule fifteen times.
    pub fn build(&mut self, rng: &mut rltk::RandomNumberGenerator, build_data: &mut BuilderMap)
        requires
            old(build_data).wf(),
        ensures
            final(build_data).wf(),
            final(build_data).same_layout(old(build_data)),
            exists|rolls: Seq<i32>|
                rolls.len() == old(build_data).map.tiles@.len() && (forall|i: int|
                    0 <= i < rolls.len() ==> 1 <= #[trigger] rolls[i] <= 100)
                    && final(build_data).map.tiles@ == cave_from_rolls(
                    old(build_data).map.tiles@,
                    old(build_data).width as int,
                    old(build_data).height as int,
                    rolls,
                ),
    {
        let n = build_data.map.tiles.len();
        let wu = build_data.width as usize;
        let hu = build_data.height as usize;
        let mut rolls: Vec<i32> = Vec::new();
        let mut i: usize = 0;
        while i < n
            invariant
                i <= n,
                wu > 0,
                rolls@.len() == i,
                forall|k: int| 0 <= k < i ==> 1 <= #[trigger] rolls@[k] <= 100,
            decreases n - i,
        {
            let x = i % wu;
            let y = i / wu;
            if 1 <= x && x + 1 < wu && 1 <= y && y + 1 < hu {
                let roll = rng.roll_dice(1, 100);
                rolls.push(roll);
            } else {
                rolls.push(1);
            }
            i = i + 1;
        }
        self.build_from_rolls(build_data, &rolls);
    }

    /// One pass of the rule over the interior.
    pub fn apply_iteration(&mut self, build_data: &mut BuilderMap)
        requires
            old(build_data).wf(),
        ensures
            final(build_data).wf(),
            final(build_data).same_layout(old(build_data)),
            final(build_data).map.tiles@ == ca_step(
                old(build_data).map.tiles@,
                old(build_data).width as int,
                old(build_data).height as int,
            ),
    {
        let ghost b0 = *build_data;
        let ghost t = build_data.map.tiles@;
        let ghost wi = build_data.width as int;
        let ghost hi = build_data.height as int;
        let n = build_data.map.tiles.len();
        let wu = build_data.width as usize;
        let hu = build_data.height as usize;
        let mut new_tiles: Vec<TileType> = Vec::new();
        let mut i: usize = 0;
        while i < n
            invariant
                build_data.map.tiles@ == t,
                n == t.len(),
                i <= n,
                new_tiles@.len() == i,
                forall|k: int| 0 <= k < i ==> #[trigger] new_tiles@[k] == t[k],
            decreases n - i,
        {
            new_tiles.push(build_data.map.tiles[i]);
            i = i + 1;
        }
        let mut i: usize = 0;
        while i < n
            invariant
                *build_data == b0,
                build_data.wf(),
                build_data.map.tiles@ == t,
                wi == wu,
                hi == hu,
                wi == build_data.width,
                hi == build_data.height,
                n == t.len(),
                i <= n,
                new_tiles@.len() == n,
                forall|k: int| 0 <= k < i ==> #[trigger] new_tiles@[k] == ca_step(t, wi, hi)[k],
                forall|k: int| i <= k < n ==> #[trigger] new_tiles@[k] == t[k],
            decreases n - i,
        {
            let x = i % wu;
            let y = i / wu;
            if 1 <= x && x + 1 < wu && 1 <= y && y + 1 < hu {
                proof {
                    lemma_interior_bounds(wi, hi, i as int);
                }
                let tiles = &build_data.map.tiles;
                let mut neighbors: u32 = 0;
                if tiles[i - wu - 1] == TileType::Wall {
                    neighbors += 1;
                }
                if tiles[i - wu] == TileType::Wall {
                    neighbors += 1;
                }
                if tiles[i - wu + 1] == TileType::Wall {
                    neighbors += 1;
                }
                if tiles[i - 1] == TileType::Wall {
                    neighbors += 1;
                }
                if tiles[i + 1] == TileType::Wall {
                    neighbors += 1;
                }
                if tiles[i + wu - 1] == TileType::Wall {
                    neighbors += 1;
                }
                if tiles[i + wu] == TileType::Wall {
                    neighbors += 1;
                }
                if tiles[i + wu + 1] == TileType::Wall {
                    neighbors += 1;
                }
                assert(neighbors == wall_neighbors(t, wi, i as int));
                if neighbors > 4 || neighbors == 0 {
                    new_tiles.set(i, TileType::Wall);
                } else {
                    new_tiles.set(i, TileType::Floor);
                }
            }
            i = i + 1;
        }
        proof {
            assert(new_tiles@ =~= ca_step(t, wi, hi));
        }
        build_data.map.tiles = new_tiles;
        build_data.take_snapshot();
    }
}

} // verus!
