//! Random-walk diggers.
use vstd::prelude::*;
use crate::tile_type::TileType;
use crate::builder_map::BuilderMap;
use crate::map::idx_of;
use crate::grid::lemma_index_of;

verus! {

/// Where each new digger starts.
#[derive(PartialEq, Eq, Structural, Copy, Clone, Debug)]
pub enum DrunkSpawnMode {
    /// Always at the centre of the grid.
    StartingPoint,
    /// The first at the centre, later ones anywhere off the border.
    Random,
}

/// Settings of a random-walk digger.
#[derive(PartialEq, Eq, Structural, Copy, Clone, Debug)]
pub struct DrunkardSettings {
    pub spawn_mode: DrunkSpawnMode,
    /// Steps each digger takes.
    pub drunken_lifetime: i32,
    /// Share of the grid, in percent, to turn into floor.
    pub floor_percent: i32,
}

/// Most diggers one run sends out; a safety bound that ordinary settings
/// never reach.
pub const MAX_DIGGERS: usize = 10_000;

/// Cell `i` of a `w` by `h` grid lies at least one cell off the border.
pub open spec fn off_border(w: int, h: int, i: int) -> bool {
    1 <= i % w < w - 1 && 1 <= i / w < h - 1
}

/// Carves caves with random walkers until enough of the grid is floor.
#[derive(Copy, Clone)]
pub struct DrunkardsWalkBuilder {
    pub settings: DrunkardSettings,
}

impl DrunkardsWalkBuilder {
    pub fn new(settings: DrunkardSettings) -> (r: DrunkardsWalkBuilder)
        ensures
            r.settings == settings,
    {
        DrunkardsWalkBuilder { settings }
    }

    /// Diggers from the centre, long-lived, until half the grid is floor.
    pub fn open_area() -> (r: DrunkardsWalkBuilder)
        ensures
            r.settings == (DrunkardSettings {
                spawn_mode: DrunkSpawnMode::StartingPoint,
                drunken_lifetime: 400,
                floor_percent: 50,
            }),
    {
        DrunkardsWalkBuilder::new(
            DrunkardSettings { spawn_mode: DrunkSpawnMode::StartingPoint, drunken_lifetime: 400, floor_percent: 50 },
        )
    }

    /// Long-lived diggers from anywhere, until half the grid is floor.
    pub fn open_halls() -> (r: DrunkardsWalkBuilder)
        ensures
            r.settings == (DrunkardSettings {
                spawn_mode: DrunkSpawnMode::Random,
                drunken_lifetime: 400,
                floor_percent: 50,
            }),
    {
        DrunkardsWalkBuilder::new(
            DrunkardSettings { spawn_mode: DrunkSpawnMode::Random, drunken_lifetime: 400, floor_percent: 50 },
        )
    }

    /// Short-lived diggers from anywhere, until two fifths of the grid is
    /// floor: narrow winding passages.
    pub fn winding_passages() -> (r: DrunkardsWalkBuilder)
        ensures
            r.settings == (DrunkardSettings {
                spawn_mode: DrunkSpawnMode::Random,
                drunken_lifetime: 100,
                floor_percent: 40,
            }),
    {
        DrunkardsWalkBuilder::new(
            DrunkardSettings { spawn_mode: DrunkSpawnMode::Random, drunken_lifetime: 100, floor_percent: 40 },
        )
    }

    /// Digs until `floor_percent` percent of the grid is floor or the digger
    /// budget is spent: the centre cell becomes floor, then each digger
    /// walks `drunken_lifetime` steps from its start (the centre, or for
    /// later diggers of a random-spawning digger any cell at least two from
    /// the border), digging as it goes. A grid with no cell off the border
    /// is left as it is.
    pub fn build(&self, rng: &mut rltk::RandomNumberGenerator, build_data: &mut BuilderMap)
        requires
            old(build_data).wf(),
            0 <= self.settings.drunken_lifetime,
            0 <= self.settings.floor_percent <= 100,
        ensures
            final(build_data).wf(),
            final(build_data).same_layout(old(build_data)),
            forall|i: int|
                0 <= i < final(build_data).map.tiles@.len() ==> #[trigger] final(build_data).map.tiles@[i]
                    == old(build_data).map.tiles@[i] || (final(build_data).map.tiles@[i] == TileType::Floor
                    && off_border(old(build_data).width as int, old(build_data).height as int, i)),
            old(build_data).width < 3 || old(build_data).height < 3 ==> final(build_data).map.tiles@
                == old(build_data).map.tiles@,
            old(build_data).width >= 3 && old(build_data).height >= 3 ==> {
                let w = old(build_data).width as int;
                let h = old(build_data).height as int;
                let t0 = old(build_data).map.tiles@.update(idx_of(w, w / 2, h / 2), TileType::Floor);
                let n = old(build_data).map.tiles@.len() as int;
                &&& final(build_data).map.tiles@[idx_of(w, w / 2, h / 2)] == TileType::Floor
                &&& exists|diggers: Seq<Digger>|
                    #[trigger] diggers_in_range(diggers, w, h, self.settings) && final(build_data).map.tiles@
                        == dig_all(t0, w, h, diggers, diggers.len()) && (floors_in(
                        final(build_data).map.tiles@,
                        n,
                    ) >= n * self.settings.floor_percent / 100 || diggers.len() == MAX_DIGGERS)
            },
    {
        let ghost b0 = *build_data;
        let ghost t = build_data.map.tiles@;
        let ghost wi = build_data.width as int;
        let ghost hi = build_data.height as int;
        let width = build_data.width;
        let height = build_data.height;
        if width < 3 || height < 3 {
            return;
        }
        let sx = width / 2;
        let sy = height / 2;
        let start_idx = build_data.map.xy_idx(sx, sy);
        proof {
            lemma_index_of(wi, hi, sx as int, sy as int);
        }
        build_data.map.tiles.set(start_idx, TileType::Floor);
        let ghost t0 = build_data.map.tiles@;
        let n = build_data.map.tiles.len();
        assert(n <= 0x7fff_fffe);
        assert((n as u64) * (self.settings.floor_percent as u64) <= 0x7fff_fffe * 100) by (nonlinear_arith)
            requires
                n <= 0x7fff_fffe,
                0 <= self.settings.floor_percent <= 100,
        ;
        let desired: usize = ((n as u64) * (self.settings.floor_percent as u64) / 100) as usize;
        let mut floor_count = count_floor(&build_data.map.tiles);
        let mut digger_count: usize = 0;
        let ghost mut diggers: Seq<Digger> = seq![];
        while floor_count < desired && digger_count < MAX_DIGGERS
            invariant
                build_data.wf(),
                build_data.same_layout(&b0),
                b0.map.tiles@ == t,
                width == build_data.width,
                height == build_data.height,
                wi == width,
                hi == height,
                width >= 3,
                height >= 3,
                n == t.len(),
                n == build_data.map.tiles@.len(),
                start_idx < n,
                start_idx == idx_of(wi, sx as int, sy as int),
                sx == width / 2,
                sy == height / 2,
                t0 == t.update(start_idx as int, TileType::Floor),
                0 <= self.settings.drunken_lifetime,
                desired == n * self.settings.floor_percent / 100,
                floor_count == floors_in(build_data.map.tiles@, n as int),
                diggers.len() == digger_count,
                digger_count <= MAX_DIGGERS,
                diggers_in_range(diggers, wi, hi, self.settings),
                build_data.map.tiles@ == dig_all(t0, wi, hi, diggers, diggers.len()),
                build_data.map.tiles@[start_idx as int] == TileType::Floor,
                forall|i: int|
                    0 <= i < n ==> #[trigger] build_data.map.tiles@[i] == t[i] || (build_data.map.tiles@[i]
                        == TileType::Floor && off_border(wi, hi, i)),
            decreases MAX_DIGGERS - digger_count,
        {
            let mut x = sx;
            let mut y = sy;
            let random_start = self.settings.spawn_mode == DrunkSpawnMode::Random && digger_count > 0 && width >= 4
                && height >= 4;
            if random_start {
                x = rng.roll_dice(1, width - 3) + 1;
                y = rng.roll_dice(1, height - 3) + 1;
            }
            assert(random_start ==> 2 <= x <= width - 2 && 2 <= y <= height - 2);
            assert(!random_start ==> x == width / 2 && y == height / 2);
            let mut dirs: Vec<i32> = Vec::new();
            while dirs.len() < self.settings.drunken_lifetime as usize
                invariant
                    forall|k: int| 0 <= k < dirs@.len() ==> 1 <= #[trigger] dirs@[k] <= 4,
                    dirs@.len() <= self.settings.drunken_lifetime,
                    0 <= self.settings.drunken_lifetime,
                decreases self.settings.drunken_lifetime as usize - dirs@.len(),
            {
                dirs.push(rng.roll_dice(1, 4));
            }
            let ghost before = build_data.map.tiles@;
            let did_something = dig_walk(build_data, x, y, &dirs);
            if did_something {
                build_data.take_snapshot();
            }
            proof {
                let d = Digger { start: (x as int, y as int), dirs: dirs@ };
                let ds = diggers.push(d);
                assert forall|k: int| 0 <= k < ds.len() implies {
                    let dd = #[trigger] ds[k];
                    &&& dd.dirs.len() == self.settings.drunken_lifetime
                    &&& forall|j: int| 0 <= j < dd.dirs.len() ==> 1 <= #[trigger] dd.dirs[j] <= 4
                    &&& if self.settings.spawn_mode == DrunkSpawnMode::Random && k > 0 && wi >= 4 && hi >= 4 {
                        2 <= dd.start.0 <= wi - 2 && 2 <= dd.start.1 <= hi - 2
                    } else {
                        dd.start == (wi / 2, hi / 2)
                    }
                } by {
                    if k < diggers.len() {
                        assert(ds[k] == diggers[k]);
                    }
                }
                assert(ds.subrange(0, diggers.len() as int) =~= diggers);
                lemma_dig_all_prefix(t0, wi, hi, ds, diggers);
                diggers = ds;
            }
            digger_count = digger_count + 1;
            floor_count = count_floor(&build_data.map.tiles);
        }
        proof {
            assert(diggers_in_range(diggers, wi, hi, self.settings));
        }
    }
}

/// One digger: where it starts, and the direction of each step (1 left,
/// 2 right, 3 up, 4 down).
pub struct Digger {
    pub start: (int, int),
    pub dirs: Seq<i32>,
}

/// Where a step in direction `dir` leads: one cell that way, unless that
/// would come within two cells of the border.
pub open spec fn step_to(w: int, h: int, p: (int, int), dir: i32) -> (int, int) {
    if dir == 1 {
        if p.0 > 2 { (p.0 - 1, p.1) } else { p }
    } else if dir == 2 {
        if p.0 < w - 2 { (p.0 + 1, p.1) } else { p }
    } else if dir == 3 {
        if p.1 > 2 { (p.0, p.1 - 1) } else { p }
    } else {
        if p.1 < h - 2 { (p.0, p.1 + 1) } else { p }
    }
}

/// The grid and the position after a walker from `p` takes the first `k`
/// steps: each step digs the cell it stands on, then moves.
pub open spec fn walk(t: Seq<TileType>, w: int, h: int, p: (int, int), dirs: Seq<i32>, k: nat) -> (Seq<TileType>, (int, int))
    decreases k,
{
    if k == 0 || k > dirs.len() {
        (t, p)
    } else {
        let prev = walk(t, w, h, p, dirs, (k - 1) as nat);
        let q = prev.1;
        (prev.0.update(idx_of(w, q.0, q.1), TileType::Floor), step_to(w, h, q, dirs[k - 1]))
    }
}

/// The grid after the first `k` diggers have walked.
pub open spec fn dig_all(t: Seq<TileType>, w: int, h: int, diggers: Seq<Digger>, k: nat) -> Seq<TileType>
    decreases k,
{
    if k == 0 || k > diggers.len() {
        t
    } else {
        let prev = dig_all(t, w, h, diggers, (k - 1) as nat);
        walk(prev, w, h, diggers[k - 1].start, diggers[k - 1].dirs, diggers[k - 1].dirs.len()).0
    }
}

/// The diggers were drawn as the settings draw them: each walks
/// `drunken_lifetime` steps of a four-sided die, and starts at the centre,
/// or, for a later digger of a random-spawning digger on a grid at least
/// four cells each way, anywhere two or more cells from the border.
pub open spec fn diggers_in_range(diggers: Seq<Digger>, w: int, h: int, settings: DrunkardSettings) -> bool {
    forall|k: int|
        0 <= k < diggers.len() ==> {
            let d = #[trigger] diggers[k];
            &&& d.dirs.len() == settings.drunken_lifetime
            &&& forall|j: int| 0 <= j < d.dirs.len() ==> 1 <= #[trigger] d.dirs[j] <= 4
            &&& if settings.spawn_mode == DrunkSpawnMode::Random && k > 0 && w >= 4 && h >= 4 {
                2 <= d.start.0 <= w - 2 && 2 <= d.start.1 <= h - 2
            } else {
                d.start == (w / 2, h / 2)
            }
        }
}

proof fn lemma_dig_all_prefix(t: Seq<TileType>, w: int, h: int, ds: Seq<Digger>, prefix: Seq<Digger>)
    requires
        prefix.len() < ds.len(),
        ds.subrange(0, prefix.len() as int) == prefix,
    ensures
        dig_all(t, w, h, ds, prefix.len()) == dig_all(t, w, h, prefix, prefix.len()),
    decreases prefix.len(),
{
    if prefix.len() > 0 {
        let p2 = prefix.drop_last();
        assert(ds.subrange(0, p2.len() as int) =~= p2);
        assert(prefix.subrange(0, p2.len() as int) =~= p2);
        lemma_dig_all_prefix(t, w, h, ds, p2);
        lemma_dig_all_prefix(t, w, h, prefix, p2);
        assert(ds[prefix.len() - 1] == prefix[prefix.len() - 1]);
    }
}

/// Walks one digger from `(x, y)` with the given steps, digging as it goes;
/// says whether it dug through any wall.
pub fn dig_walk(build_data: &mut BuilderMap, x: i32, y: i32, dirs: &Vec<i32>) -> (did_something: bool)
    requires
        old(build_data).wf(),
        1 <= x < old(build_data).width - 1,
        1 <= y < old(build_data).height - 1,
    ensures
        final(build_data).wf(),
        final(build_data).same_layout(old(build_data)),
        final(build_data).history == old(build_data).history,
        final(build_data).map.tiles@ == walk(
            old(build_data).map.tiles@,
            old(build_data).width as int,
            old(build_data).height as int,
            (x as int, y as int),
            dirs@,
            dirs@.len(),
        ).0,
        forall|i: int|
            0 <= i < final(build_data).map.tiles@.len() ==> #[trigger] final(build_data).map.tiles@[i]
                == old(build_data).map.tiles@[i] || (final(build_data).map.tiles@[i] == TileType::Floor
                && off_border(old(build_data).width as int, old(build_data).height as int, i)),
{
    let ghost b0 = *build_data;
    let ghost t = build_data.map.tiles@;
    let ghost wi = build_data.width as int;
    let ghost hi = build_data.height as int;
    let width = build_data.width;
    let height = build_data.height;
    let mut px = x;
    let mut py = y;
    let mut did_something = false;
    let mut k: usize = 0;
    while k < dirs.len()
        invariant
            build_data.wf(),
            build_data.same_layout(&b0),
            build_data.history == b0.history,
            b0.map.tiles@ == t,
            wi == width,
            hi == height,
            width == build_data.width,
            height == build_data.height,
            1 <= px < width - 1,
            1 <= py < height - 1,
            k <= dirs@.len(),
            walk(t, wi, hi, (x as int, y as int), dirs@, k as nat) == (build_data.map.tiles@, (px as int, py as int)),
            forall|i: int|
                0 <= i < t.len() ==> #[trigger] build_data.map.tiles@[i] == t[i] || (build_data.map.tiles@[i]
                    == TileType::Floor && off_border(wi, hi, i)),
        decreases dirs@.len() - k,
    {
        let idx = build_data.map.xy_idx(px, py);
        proof {
            lemma_index_of(wi, hi, px as int, py as int);
        }
        if build_data.map.tiles[idx] == TileType::Wall {
            did_something = true;
        }
        build_data.map.tiles.set(idx, TileType::Floor);
        let d = dirs[k];
        if d == 1 {
            if px > 2 {
                px = px - 1;
            }
        } else if d == 2 {
            if px < width - 2 {
                px = px + 1;
            }
        } else if d == 3 {
            if py > 2 {
                py = py - 1;
            }
        } else {
            if py < height - 2 {
                py = py + 1;
            }
        }
        k = k + 1;
    }
    did_something
}

/// Number of floor tiles among the first `k`.
pub open spec fn floors_in(t: Seq<TileType>, k: int) -> int
    decreases k,
{
    if k <= 0 || k > t.len() {
        0
    } else {
        floors_in(t, k - 1) + if t[k - 1] == TileType::Floor {
            1int
        } else {
            0
        }
    }
}

/// Number of floor tiles.
pub fn count_floor(tiles: &Vec<TileType>) -> (c: usize)
    ensures
        c == floors_in(tiles@, tiles@.len() as int),
{
    let mut c: usize = 0;
    let mut i: usize = 0;
    while i < tiles.len()
        invariant
            c <= i <= tiles@.len(),
            c == floors_in(tiles@, i as int),
        decreases tiles@.len() - i,
    {
        if tiles[i] == TileType::Floor {
            c = c + 1;
        }
        i = i + 1;
    }
    c
}

} // verus!
