//! Prefab stamping: hand-made patterns laid over the grid, either as a
//! section anchored to the grid's edges or as a vault in free floor.
use vstd::prelude::*;
use crate::tile_type::{TileType, walkable};
use crate::builder_map::BuilderMap;
use crate::area_based::{XEnd, YEnd};
use crate::grid::{lemma_coords, lemma_index_of};
use crate::limestone_cavern::lemma_filter_step;
use crate::map::MAX_TILES;

verus! {

/// A rectangular pattern of tiles, row-major.
pub struct Prefab {
    pub width: i32,
    pub height: i32,
    pub tiles: Vec<TileType>,
}

impl Prefab {
    pub open spec fn wf(&self) -> bool {
        &&& 0 < self.width
        &&& 0 < self.height
        &&& self.width * self.height <= MAX_TILES
        &&& self.tiles@.len() == self.width * self.height
    }

    /// Every tile of the pattern can be walked on.
    pub open spec fn all_walkable(&self) -> bool {
        forall|k: int| 0 <= k < self.tiles@.len() ==> walkable(#[trigger] self.tiles@[k])
    }
}

/// Cell `i` of a grid `w` wide lies under a `pw` by `ph` pattern whose top
/// left corner is `(x, y)`.
pub open spec fn under(w: int, x: int, y: int, pw: int, ph: int, i: int) -> bool {
    x <= i % w < x + pw && y <= i / w < y + ph
}

/// The grid with the pattern laid with its top left corner at `(x, y)`.
pub open spec fn stamped(t: Seq<TileType>, w: int, p: Seq<TileType>, pw: int, ph: int, x: int, y: int) -> Seq<TileType> {
    Seq::new(
        t.len(),
        |i: int|
            if under(w, x, y, pw, ph, i) {
                p[(i / w - y) * pw + (i % w - x)]
            } else {
                t[i]
            },
    )
}

/// A vault may cover cell `i`: it is floor, not the start, and holds no
/// spawn intent.
pub open spec fn cell_free(b: BuilderMap, i: int) -> bool {
    &&& b.map.tiles@[i] == TileType::Floor
    &&& (b.starting_position is Some ==> i != b.start_idx())
    &&& forall|k: int| 0 <= k < b.spawn_list@.len() ==> #[trigger] b.spawn_list@[k].0 != i
}

/// A `pw` by `ph` vault fits with its top left corner at `(x, y)`: it lies
/// on the grid and every cell under it is free.
pub open spec fn vault_fits(b: BuilderMap, pw: int, ph: int, x: int, y: int) -> bool {
    let w = b.width as int;
    &&& 0 <= x && x + pw <= w
    &&& 0 <= y && y + ph <= b.height
    &&& forall|i: int| 0 <= i < b.map.tiles@.len() && #[trigger] under(w, x, y, pw, ph, i) ==> cell_free(b, i)
}

/// Cell `i` is the first corner, in scan order, at which the vault fits.
pub open spec fn first_vault_corner(b: BuilderMap, pw: int, ph: int, i: int) -> bool {
    let w = b.width as int;
    &&& 0 <= i < b.map.tiles@.len()
    &&& vault_fits(b, pw, ph, i % w, i / w)
    &&& forall|j: int| 0 <= j < i ==> !vault_fits(b, pw, ph, #[trigger] (j % w), j / w)
}

/// The corner of a section anchored to the grid's edges: left, centred or
/// right, and top, centred or bottom.
pub open spec fn anchor_x(x: XEnd, w: int, pw: int) -> int {
    match x {
        XEnd::Left => 0,
        XEnd::Center => (w - pw) / 2,
        XEnd::Right => w - pw,
    }
}

pub open spec fn anchor_y(y: YEnd, h: int, ph: int) -> int {
    match y {
        YEnd::Top => 0,
        YEnd::Center => (h - ph) / 2,
        YEnd::Bottom => h - ph,
    }
}

/// Where a prefab goes.
pub enum PrefabMode {
    /// Anchored to the grid's edges, over whatever is there; spawn intents
    /// under it are dropped.
    Sectional { x: XEnd, y: YEnd },
    /// In the first free stretch of floor, scanning in order; skipped when
    /// none is free.
    Vault,
}

/// Lays a prefab over the grid.
pub struct PrefabBuilder {
    pub mode: PrefabMode,
    pub prefab: Prefab,
}

/// The tiles of the fort gatehouse.
pub open spec fn fort_tiles() -> Seq<TileType> {
    let w = TileType::Wall;
    let f = TileType::Floor;
    seq![
        w, w, w, f, w, w, w,
        w, f, f, f, f, f, w,
        f, f, w, f, w, f, f,
        w, f, f, f, f, f, w,
        w, w, w, f, w, w, w,
    ]
}

/// The tiles of the shrine vault.
pub open spec fn shrine_tiles() -> Seq<TileType> {
    let g = TileType::Gravel;
    seq![g, g, g, g, TileType::ShallowWater, g, g, g, g]
}

/// The stage lays the shrine vault.
pub open spec fn is_vault_stage(b: PrefabBuilder) -> bool {
    b.mode == PrefabMode::Vault && b.prefab.width == 3 && b.prefab.height == 3 && b.prefab.tiles@ == shrine_tiles()
}

/// The stage lays the fort gatehouse at the right edge, centred.
pub open spec fn is_fort_stage(b: PrefabBuilder) -> bool {
    b.mode == (PrefabMode::Sectional { x: XEnd::Right, y: YEnd::Center }) && b.prefab.width == 7 && b.prefab.height == 5
        && b.prefab.tiles@ == fort_tiles()
}

/// An underground fort gatehouse: walls with a gate on each side.
pub fn underground_fort() -> (p: Prefab)
    ensures
        p.wf(),
        p.width == 7,
        p.height == 5,
        p.tiles@ == fort_tiles(),
{
    let w = TileType::Wall;
    let f = TileType::Floor;
    let tiles = vec![
        w, w, w, f, w, w, w,
        w, f, f, f, f, f, w,
        f, f, w, f, w, f, f,
        w, f, f, f, f, f, w,
        w, w, w, f, w, w, w,
    ];
    Prefab { width: 7, height: 5, tiles }
}

/// A small gravel-paved shrine around a pool; every tile can be walked on.
pub fn shrine_vault() -> (p: Prefab)
    ensures
        p.wf(),
        p.all_walkable(),
        p.width == 3,
        p.height == 3,
        p.tiles@ == shrine_tiles(),
{
    let g = TileType::Gravel;
    let s = TileType::ShallowWater;
    let tiles = vec![g, g, g, g, s, g, g, g, g];
    let p = Prefab { width: 3, height: 3, tiles };
    assert(p.all_walkable()) by {
        assert forall|k: int| 0 <= k < p.tiles@.len() implies walkable(#[trigger] p.tiles@[k]) by {
            assert(p.tiles@[k] == g || p.tiles@[k] == s);
        }
    }
    p
}

impl PrefabBuilder {
    /// The fort gatehouse, anchored right and centred.
    pub fn sectional() -> (r: PrefabBuilder)
        ensures
            r.prefab.wf(),
            is_fort_stage(r),
    {
        PrefabBuilder { mode: PrefabMode::Sectional { x: XEnd::Right, y: YEnd::Center }, prefab: underground_fort() }
    }

    /// The shrine vault.
    pub fn vaults() -> (r: PrefabBuilder)
        ensures
            r.prefab.wf(),
            r.prefab.all_walkable(),
            is_vault_stage(r),
    {
        PrefabBuilder { mode: PrefabMode::Vault, prefab: shrine_vault() }
    }

    /// Lays the prefab. A section that does not fit on the grid, or a vault
    /// that finds no free stretch, leaves everything as it was.
    pub fn build(&self, build_data: &mut BuilderMap)
        requires
            old(build_data).wf(),
            self.prefab.wf(),
        ensures
            final(build_data).wf(),
            final(build_data).starting_position == old(build_data).starting_position,
            final(build_data).rooms == old(build_data).rooms,
            final(build_data).corridors == old(build_data).corridors,
            final(build_data).width == old(build_data).width,
            final(build_data).height == old(build_data).height,
            final(build_data).map.tiles@.len() == old(build_data).map.tiles@.len(),
            self.mode == PrefabMode::Vault && self.prefab.all_walkable() ==> forall|i: int|
                0 <= i < final(build_data).map.tiles@.len() ==> walkable(#[trigger] final(build_data).map.tiles@[i])
                    == walkable(old(build_data).map.tiles@[i]),
            ({
                let b0 = *old(build_data);
                let b1 = *final(build_data);
                let w = b0.width as int;
                let h = b0.height as int;
                let pw = self.prefab.width as int;
                let ph = self.prefab.height as int;
                let p = self.prefab.tiles@;
                match self.mode {
                    PrefabMode::Sectional { x, y } => if pw <= w && ph <= h {
                        let ax = anchor_x(x, w, pw);
                        let ay = anchor_y(y, h, ph);
                        &&& b1.map.tiles@ == stamped(b0.map.tiles@, w, p, pw, ph, ax, ay)
                        &&& b1.spawn_list@ == b0.spawn_list@.filter(
                            |s: (usize, String)| !under(w, ax, ay, pw, ph, s.0 as int),
                        )
                    } else {
                        b1.map.tiles@ == b0.map.tiles@ && b1.spawn_list == b0.spawn_list
                    },
                    PrefabMode::Vault => {
                        &&& b1.spawn_list == b0.spawn_list
                        &&& (forall|i: int| 0 <= i < b0.map.tiles@.len() ==> !#[trigger] first_vault_corner(b0, pw, ph, i))
                            ==> b1.map.tiles@ == b0.map.tiles@
                        &&& forall|i: int|
                            #[trigger] first_vault_corner(b0, pw, ph, i) ==> b1.map.tiles@ == stamped(
                                b0.map.tiles@,
                                w,
                                p,
                                pw,
                                ph,
                                i % w,
                                i / w,
                            )
                    },
                }
            }),
    {
        let w = build_data.width;
        let h = build_data.height;
        let pw = self.prefab.width;
        let ph = self.prefab.height;
        match self.mode {
            PrefabMode::Sectional { x, y } => {
                if pw > w || ph > h {
                    return;
                }
                let ax = match x {
                    XEnd::Left => 0,
                    XEnd::Center => (w - pw) / 2,
                    XEnd::Right => w - pw,
                };
                let ay = match y {
                    YEnd::Top => 0,
                    YEnd::Center => (h - ph) / 2,
                    YEnd::Bottom => h - ph,
                };
                stamp(build_data, &self.prefab, ax, ay);
                drop_spawns_under(build_data, ax, ay, pw, ph);
            },
            PrefabMode::Vault => {
                match find_vault_corner(build_data, pw, ph) {
                    Some(i) => {
                        let x = (i % (w as usize)) as i32;
                        let y = (i / (w as usize)) as i32;
                        proof {
                            lemma_coords(w as int, h as int, i as int);
                        }
                        let ghost b0 = *build_data;
                        stamp(build_data, &self.prefab, x, y);
                        proof {
                            if self.prefab.all_walkable() {
                                let wi = w as int;
                                assert forall|c: int| 0 <= c < build_data.map.tiles@.len() implies walkable(
                                    #[trigger] build_data.map.tiles@[c],
                                ) == walkable(b0.map.tiles@[c]) by {
                                    if under(wi, x as int, y as int, pw as int, ph as int, c) {
                                        assert(cell_free(b0, c));
                                        lemma_coords(wi, h as int, c);
                                        lemma_index_of(pw as int, ph as int, c % wi - x, c / wi - y);
                                        assert(walkable(self.prefab.tiles@[(c / wi - y) * pw + (c % wi - x)]));
                                    }
                                }
                            }
                        }
                    },
                    None => {},
                }
            },
        }
    }
}

/// Lays the pattern with its top left corner at `(x, y)`.
pub fn stamp(build_data: &mut BuilderMap, prefab: &Prefab, x: i32, y: i32)
    requires
        old(build_data).wf(),
        prefab.wf(),
        0 <= x,
        x + prefab.width <= old(build_data).width,
        0 <= y,
        y + prefab.height <= old(build_data).height,
    ensures
        final(build_data).wf(),
        final(build_data).same_layout(old(build_data)),
        final(build_data).history == old(build_data).history,
        final(build_data).map.tiles@ == stamped(
            old(build_data).map.tiles@,
            old(build_data).width as int,
            prefab.tiles@,
            prefab.width as int,
            prefab.height as int,
            x as int,
            y as int,
        ),
{
    let ghost b0 = *build_data;
    let ghost t = build_data.map.tiles@;
    let ghost wi = build_data.width as int;
    let ghost hi = build_data.height as int;
    let n = build_data.map.tiles.len();
    let wu = build_data.width as usize;
    let pw = prefab.width;
    let ph = prefab.height;
    let mut i: usize = 0;
    while i < n
        invariant
            build_data.wf(),
            build_data.same_layout(&b0),
            build_data.history == b0.history,
            b0.map.tiles@ == t,
            n == t.len(),
            wi == wu,
            wi == build_data.width,
            hi == build_data.height,
            prefab.wf(),
            pw == prefab.width,
            ph == prefab.height,
            0 <= x,
            x + pw <= wi,
            0 <= y,
            y + ph <= hi,
            i <= n,
            forall|k: int| 0 <= k < i ==> #[trigger] build_data.map.tiles@[k] == stamped(t, wi, prefab.tiles@, pw as int, ph as int, x as int, y as int)[k],
            forall|k: int| i <= k < n ==> #[trigger] build_data.map.tiles@[k] == t[k],
        decreases n - i,
    {
        proof {
            lemma_coords(wi, hi, i as int);
        }
        let cx = (i % wu) as i32;
        let cy = (i / wu) as i32;
        if x <= cx && cx < x + pw && y <= cy && cy < y + ph {
            proof {
                lemma_index_of(pw as int, ph as int, (cx - x) as int, (cy - y) as int);
            }
            let k = ((cy - y) as usize) * (pw as usize) + ((cx - x) as usize);
            let tile = prefab.tiles[k];
            build_data.map.tiles.set(i, tile);
        }
        i = i + 1;
    }
    proof {
        assert(build_data.map.tiles@ =~= stamped(t, wi, prefab.tiles@, pw as int, ph as int, x as int, y as int));
    }
}

/// Drops the spawn intents under a `pw` by `ph` area at `(x, y)`.
pub fn drop_spawns_under(build_data: &mut BuilderMap, x: i32, y: i32, pw: i32, ph: i32)
    requires
        old(build_data).wf(),
    ensures
        final(build_data).wf(),
        final(build_data).map == old(build_data).map,
        final(build_data).starting_position == old(build_data).starting_position,
        final(build_data).rooms == old(build_data).rooms,
        final(build_data).corridors == old(build_data).corridors,
        final(build_data).width == old(build_data).width,
        final(build_data).height == old(build_data).height,
        final(build_data).spawn_list@ == old(build_data).spawn_list@.filter(
            |s: (usize, String)| !under(old(build_data).width as int, x as int, y as int, pw as int, ph as int, s.0 as int),
        ),
{
    let ghost w = build_data.width as int;
    let ghost p = |s: (usize, String)| !under(w, x as int, y as int, pw as int, ph as int, s.0 as int);
    let ghost s0 = build_data.spawn_list@;
    let ghost b0 = *build_data;
    let wu = build_data.width as usize;
    let mut rest: Vec<(usize, String)> = Vec::new();
    std::mem::swap(&mut build_data.spawn_list, &mut rest);
    let ghost mut k: int = 0;
    proof {
        reveal_with_fuel(Seq::filter, 1);
        assert(s0.subrange(0, 0) =~= Seq::<(usize, String)>::empty());
    }
    while rest.len() > 0
        invariant
            build_data.wf(),
            w == build_data.width,
            wu == w,
            wu > 0,
            0 <= k <= s0.len(),
            rest@ == s0.subrange(k, s0.len() as int),
            build_data.spawn_list@ == s0.subrange(0, k).filter(p),
            build_data.map == b0.map,
            build_data.starting_position == b0.starting_position,
            build_data.rooms == b0.rooms,
            build_data.corridors == b0.corridors,
            build_data.width == b0.width,
            build_data.height == b0.height,
            p == (|s: (usize, String)| !under(w, x as int, y as int, pw as int, ph as int, s.0 as int)),
        decreases rest@.len(),
    {
        assert(k < s0.len());
        let s = rest.remove(0);
        proof {
            lemma_filter_step(s0, k, p);
            assert(s == s0[k]);
        }
        let cx = (s.0 % wu) as i128;
        let cy = (s.0 / wu) as i128;
        let inside = (x as i128) <= cx && cx < (x as i128) + (pw as i128) && (y as i128) <= cy && cy < (y as i128)
            + (ph as i128);
        assert(inside == under(w, x as int, y as int, pw as int, ph as int, s.0 as int));
        if !inside {
            build_data.spawn_list.push(s);
        }
        proof {
            assert(build_data.spawn_list@ =~= s0.subrange(0, k + 1).filter(p));
            k = k + 1;
        }
    }
    proof {
        assert(s0.subrange(0, s0.len() as int) =~= s0);
    }
}

/// The cells a vault may cover, one flag per cell.
fn free_cells(build_data: &BuilderMap) -> (free: Vec<bool>)
    requires
        build_data.wf(),
    ensures
        free@.len() == build_data.map.tiles@.len(),
        forall|i: int| 0 <= i < free@.len() ==> #[trigger] free@[i] == cell_free(*build_data, i),
{
    let n = build_data.map.tiles.len();
    let start: usize = match build_data.starting_position {
        Some(p) => build_data.map.xy_idx(p.x, p.y),
        None => n,
    };
    let mut free: Vec<bool> = Vec::new();
    let mut i: usize = 0;
    while i < n
        invariant
            build_data.wf(),
            n == build_data.map.tiles@.len(),
            build_data.starting_position is Some ==> start == build_data.start_idx(),
            build_data.starting_position is None ==> start == n,
            i <= n,
            free@.len() == i,
            forall|j: int| 0 <= j < i ==> #[trigger] free@[j] == cell_free(*build_data, j),
        decreases n - i,
    {
        let mut ok = build_data.map.tiles[i] == TileType::Floor && i != start;
        let mut k: usize = 0;
        while k < build_data.spawn_list.len()
            invariant
                k <= build_data.spawn_list@.len(),
                ok == (build_data.map.tiles@[i as int] == TileType::Floor && i != start && forall|j: int|
                    0 <= j < k ==> #[trigger] build_data.spawn_list@[j].0 != i),
            decreases build_data.spawn_list@.len() - k,
        {
            if build_data.spawn_list[k].0 == i {
                ok = false;
            }
            k = k + 1;
        }
        free.push(ok);
        i = i + 1;
    }
    free
}

/// The first corner, in scan order, at which a `pw` by `ph` vault fits.
pub fn find_vault_corner(build_data: &BuilderMap, pw: i32, ph: i32) -> (r: Option<usize>)
    requires
        build_data.wf(),
        0 < pw,
        0 < ph,
    ensures
        r matches Some(i) ==> first_vault_corner(*build_data, pw as int, ph as int, i as int),
        r is None ==> forall|i: int| 0 <= i < build_data.map.tiles@.len() ==> !#[trigger] first_vault_corner(
            *build_data,
            pw as int,
            ph as int,
            i,
        ),
{
    let ghost wi = build_data.width as int;
    let ghost hi = build_data.height as int;
    let free = free_cells(build_data);
    let n = build_data.map.tiles.len();
    let w = build_data.width;
    let h = build_data.height;
    let mut i: usize = 0;
    while i < n
        invariant
            build_data.wf(),
            n == build_data.map.tiles@.len(),
            wi == w,
            hi == h,
            w == build_data.width,
            h == build_data.height,
            0 < pw,
            0 < ph,
            free@.len() == n,
            forall|j: int| 0 <= j < n ==> #[trigger] free@[j] == cell_free(*build_data, j),
            i <= n,
            forall|j: int| 0 <= j < i ==> !vault_fits(*build_data, pw as int, ph as int, #[trigger] (j % wi), j / wi),
        decreases n - i,
    {
        proof {
            lemma_coords(wi, hi, i as int);
        }
        let x = (i % (w as usize)) as i32;
        let y = (i / (w as usize)) as i32;
        let fits = x as i64 + pw as i64 <= w as i64 && y as i64 + ph as i64 <= h as i64 && footprint_free(
            &free,
            w,
            h,
            x,
            y,
            pw,
            ph,
        );
        proof {
            if fits {
                assert forall|c: int| 0 <= c < n && #[trigger] under(wi, x as int, y as int, pw as int, ph as int, c) implies cell_free(*build_data, c) by {
                    assert(free@[c]);
                }
            } else if x as i64 + pw as i64 <= w as i64 && y as i64 + ph as i64 <= h as i64 {
                let c = choose|c: int| 0 <= c < n && under(wi, x as int, y as int, pw as int, ph as int, c) && !free@[c];
                assert(!cell_free(*build_data, c));
            }
        }
        if fits {
            return Some(i);
        }
        i = i + 1;
    }
    proof {
        assert forall|j: int| 0 <= j < n implies !#[trigger] first_vault_corner(*build_data, pw as int, ph as int, j) by {
            lemma_coords(wi, hi, j);
        }
    }
    None
}

/// Whether every cell under a `pw` by `ph` area at `(x, y)` is free.
fn footprint_free(free: &Vec<bool>, w: i32, h: i32, x: i32, y: i32, pw: i32, ph: i32) -> (r: bool)
    requires
        0 < w,
        0 < h,
        w * h <= MAX_TILES,
        free@.len() == w * h,
        0 <= x,
        0 <= y,
        0 < pw,
        0 < ph,
        x + pw <= w,
        y + ph <= h,
    ensures
        r == forall|c: int| 0 <= c < free@.len() && #[trigger] under(w as int, x as int, y as int, pw as int, ph as int, c) ==> free@[c],
        !r ==> exists|c: int| 0 <= c < free@.len() && under(w as int, x as int, y as int, pw as int, ph as int, c) && !free@[c],
{
    let ghost wi = w as int;
    let ghost hi = h as int;
    let mut dy: i32 = 0;
    while dy < ph
        invariant
            0 < w,
            0 < h,
            w * h <= MAX_TILES,
            free@.len() == w * h,
            0 <= x,
            0 <= y,
            0 < pw,
            0 < ph,
            x + pw <= w,
            y + ph <= h,
            wi == w,
            hi == h,
            0 <= dy <= ph,
            forall|c: int| 0 <= c < free@.len() && under(wi, x as int, y as int, pw as int, dy as int, c) ==> #[trigger] free@[c],
        decreases ph - dy,
    {
        let mut dx: i32 = 0;
        while dx < pw
            invariant
                0 < w,
                0 < h,
                w * h <= MAX_TILES,
                free@.len() == w * h,
                0 <= x,
                0 <= y,
                0 < pw,
                0 < ph,
                x + pw <= w,
                y + ph <= h,
                wi == w,
                hi == h,
                0 <= dy < ph,
                0 <= dx <= pw,
                forall|c: int| 0 <= c < free@.len() && under(wi, x as int, y as int, pw as int, dy as int, c) ==> #[trigger] free@[c],
                forall|c: int| 0 <= c < free@.len() && under(wi, x as int, (y + dy) as int, dx as int, 1, c) ==> #[trigger] free@[c],
            decreases pw - dx,
        {
            proof {
                lemma_index_of(wi, hi, (x + dx) as int, (y + dy) as int);
            }
            let c = ((y + dy) as usize) * (w as usize) + ((x + dx) as usize);
            if !free[c] {
                proof {
                    assert(under(wi, x as int, y as int, pw as int, ph as int, c as int));
                }
                return false;
            }
            proof {
                assert forall|d: int| 0 <= d < free@.len() && under(wi, x as int, (y + dy) as int, (dx + 1) as int, 1, d) implies #[trigger] free@[d] by {
                    if d % wi == x + dx {
                        lemma_coords(wi, hi, d);
                        assert(d == c);
                    }
                }
            }
            dx = dx + 1;
        }
        proof {
            assert forall|d: int| 0 <= d < free@.len() && under(wi, x as int, y as int, pw as int, (dy + 1) as int, d) implies #[trigger] free@[d] by {
                if d / wi == y + dy {
                    assert(under(wi, x as int, (y + dy) as int, pw as int, 1, d));
                }
            }
        }
        dy = dy + 1;
    }
    true
}

} // verus!
