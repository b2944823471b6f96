//! Spawn planning: weighted entity tables and placement of spawn intents.
use vstd::prelude::*;
use crate::tile_type::{TileType, walkable, is_tile_walkable};
use crate::builder_map::{BuilderMap, ChainError};
use crate::rect::{Rect, rect_in};
use crate::room_based::copy_rooms;
use crate::grid::lemma_coords;

verus! {

/// One weighted entry of a table.
pub struct RandomEntry {
    pub name: String,
    pub weight: i32,
}

/// A weighted table: an entry is drawn with probability proportional to its
/// weight.
pub struct RandomTable {
    pub entries: Vec<RandomEntry>,
    pub total_weight: i32,
}

/// Sum of the weights of the first `k` entries.
pub open spec fn weights_before(e: Seq<RandomEntry>, k: int) -> int
    decreases k,
{
    if k <= 0 || k > e.len() {
        0
    } else {
        weights_before(e, k - 1) + e[k - 1].weight
    }
}

/// The table as (name, weight) pairs.
pub open spec fn table_view(e: Seq<RandomEntry>) -> Seq<(Seq<char>, int)> {
    Seq::new(e.len(), |k: int| (e[k].name@, e[k].weight as int))
}

impl RandomTable {
    /// Weights are positive, `total_weight` is their sum, and a die with a
    /// face per unit of weight can be rolled.
    pub open spec fn wf(&self) -> bool {
        &&& forall|k: int| 0 <= k < self.entries@.len() ==> #[trigger] self.entries@[k].weight > 0
        &&& self.total_weight == weights_before(self.entries@, self.entries@.len() as int)
        &&& self.total_weight < i32::MAX
    }

    pub fn new() -> (t: RandomTable)
        ensures
            t.wf(),
            t.entries@.len() == 0,
    {
        RandomTable { entries: Vec::new(), total_weight: 0 }
    }

    /// Adds an entry. One of weight zero or less would never be drawn, and
    /// one that would take the total to `i32::MAX` could not be rolled for:
    /// both leave the table as it is.
    pub fn add(self, name: String, weight: i32) -> (t: RandomTable)
        requires
            self.wf(),
        ensures
            t.wf(),
            weight > 0 && self.total_weight + weight < i32::MAX ==> table_view(t.entries@)
                == table_view(self.entries@).push((name@, weight as int)),
            !(weight > 0 && self.total_weight + weight < i32::MAX) ==> table_view(t.entries@)
                == table_view(self.entries@),
            t.total_weight < i32::MAX || t.total_weight == self.total_weight,
    {
        let mut t = self;
        if weight > 0 && t.total_weight < i32::MAX - weight {
            let ghost e0 = t.entries@;
            t.entries.push(RandomEntry { name, weight });
            t.total_weight = t.total_weight + weight;
            proof {
                lemma_weights_push(e0, t.entries@);
                assert(table_view(t.entries@) =~= table_view(e0).push((name@, weight as int)));
            }
        }
        t
    }

    /// An identical table.
    pub fn copy(&self) -> (t: RandomTable)
        requires
            self.wf(),
        ensures
            t.wf(),
            table_view(t.entries@) == table_view(self.entries@),
            t.total_weight == self.total_weight,
    {
        let mut t = RandomTable::new();
        let mut k: usize = 0;
        while k < self.entries.len()
            invariant
                self.wf(),
                t.wf(),
                k <= self.entries@.len(),
                t.entries@.len() == k,
                forall|j: int| 0 <= j < k ==> #[trigger] t.entries@[j].weight == self.entries@[j].weight
                    && t.entries@[j].name@ == self.entries@[j].name@,
            decreases self.entries@.len() - k,
        {
            let ghost e0 = t.entries@;
            t.entries.push(RandomEntry { name: self.entries[k].name.clone(), weight: self.entries[k].weight });
            proof {
                lemma_weights_push(e0, t.entries@);
                lemma_same_weights(t.entries@, self.entries@, k as int + 1);
                lemma_weights_mono(self.entries@, k as int + 1, self.entries@.len() as int);
            }
            t.total_weight = t.total_weight + self.entries[k].weight;
            k = k + 1;
        }
        proof {
            assert(table_view(t.entries@) =~= table_view(self.entries@));
            lemma_same_weights(t.entries@, self.entries@, k as int);
        }
        t
    }

    /// The entry whose share of `0..total_weight` holds `roll`: entries take
    /// consecutive shares, each as wide as its weight.
    pub fn pick(&self, roll: i32) -> (r: Option<usize>)
        requires
            self.wf(),
        ensures
            r is Some <==> 0 <= roll < self.total_weight,
            r matches Some(k) ==> k < self.entries@.len() && weights_before(self.entries@, k as int)
                <= roll < weights_before(self.entries@, k as int + 1),
    {
        if roll < 0 {
            return None;
        }
        let mut acc: i32 = 0;
        let mut k: usize = 0;
        while k < self.entries.len()
            invariant
                self.wf(),
                k <= self.entries@.len(),
                acc == weights_before(self.entries@, k as int),
                acc <= roll,
                0 <= roll,
            decreases self.entries@.len() - k,
        {
            proof {
                lemma_weights_mono(self.entries@, k as int + 1, self.entries@.len() as int);
                lemma_weights_nonneg(self.entries@, k as int);
            }
            let wt = self.entries[k].weight;
            if roll - acc < wt {
                return Some(k);
            }
            acc = acc + wt;
            k = k + 1;
        }
        None
    }

    /// Draws an entry's name; `None` when the table is empty.
    pub fn roll(&self, rng: &mut rltk::RandomNumberGenerator) -> (r: Option<String>)
        requires
            self.wf(),
        ensures
            r is None <==> self.total_weight == 0,
            r matches Some(s) ==> exists|k: int|
                0 <= k < self.entries@.len() && s@ == #[trigger] self.entries@[k].name@,
    {
        proof {
            lemma_weights_mono(self.entries@, 0, self.entries@.len() as int);
        }
        if self.total_weight == 0 {
            return None;
        }
        let roll = rng.roll_dice(1, self.total_weight) - 1;
        match self.pick(roll) {
            Some(k) => {
                let name = self.entries[k].name.clone();
                assert(name@ == self.entries@[k as int].name@);
                Some(name)
            },
            None => None,
        }
    }
}

proof fn lemma_weights_push(e0: Seq<RandomEntry>, e1: Seq<RandomEntry>)
    requires
        e1.len() == e0.len() + 1,
        forall|k: int| 0 <= k < e0.len() ==> e1[k] == e0[k],
    ensures
        weights_before(e1, e1.len() as int) == weights_before(e0, e0.len() as int) + e1[e0.len() as int].weight,
{
    assert forall|k: int| 0 <= k <= e0.len() implies weights_before(e1, k) == weights_before(e0, k) by {
        lemma_weights_prefix(e0, e1, k);
    }
}

proof fn lemma_same_weights(a: Seq<RandomEntry>, b: Seq<RandomEntry>, k: int)
    requires
        0 <= k <= a.len(),
        k <= b.len(),
        forall|j: int| 0 <= j < k ==> #[trigger] a[j].weight == b[j].weight,
    ensures
        weights_before(a, k) == weights_before(b, k),
    decreases k,
{
    if k > 0 {
        lemma_same_weights(a, b, k - 1);
    }
}

proof fn lemma_weights_prefix(e0: Seq<RandomEntry>, e1: Seq<RandomEntry>, k: int)
    requires
        0 <= k <= e0.len(),
        k <= e1.len(),
        forall|j: int| 0 <= j < e0.len() && j < e1.len() ==> e1[j] == e0[j],
    ensures
        weights_before(e1, k) == weights_before(e0, k),
    decreases k,
{
    if k > 0 {
        lemma_weights_prefix(e0, e1, k - 1);
    }
}

proof fn lemma_weights_mono(e: Seq<RandomEntry>, a: int, b: int)
    requires
        0 <= a <= b <= e.len(),
        forall|k: int| 0 <= k < e.len() ==> #[trigger] e[k].weight > 0,
    ensures
        weights_before(e, a) <= weights_before(e, b),
        0 <= weights_before(e, a),
    decreases b,
{
    if a < b {
        lemma_weights_mono(e, a, b - 1);
    } else {
        lemma_weights_nonneg(e, a);
    }
}

proof fn lemma_weights_nonneg(e: Seq<RandomEntry>, a: int)
    requires
        0 <= a <= e.len(),
        forall|k: int| 0 <= k < e.len() ==> #[trigger] e[k].weight > 0,
    ensures
        0 <= weights_before(e, a),
    decreases a,
{
    if a > 0 {
        lemma_weights_nonneg(e, a - 1);
    }
}

/// One entry of a spawn table, with the depths at which it may appear.
pub struct SpawnTableEntry {
    pub name: String,
    pub weight: i32,
    pub min_depth: i32,
    pub max_depth: i32,
    pub add_map_depth_to_weight: bool,
}

/// The weight of an entry at a depth: deeper levels add their depth when
/// the entry asks for it.
pub open spec fn depth_weight(e: SpawnTableEntry, depth: int) -> int {
    e.weight + if e.add_map_depth_to_weight {
        depth
    } else {
        0
    }
}

/// Sum of the weights of a table view.
pub open spec fn view_total(v: Seq<(Seq<char>, int)>) -> int
    decreases v.len(),
{
    if v.len() == 0 {
        0
    } else {
        view_total(v.drop_last()) + v.last().1
    }
}

/// The table for a depth, from the first `k` entries: each entry whose depth
/// range holds the depth is added with its depth weight, as `add` does.
pub open spec fn depth_table(entries: Seq<SpawnTableEntry>, depth: int, k: nat) -> Seq<(Seq<char>, int)>
    decreases k,
{
    if k == 0 || k > entries.len() {
        seq![]
    } else {
        let prev = depth_table(entries, depth, (k - 1) as nat);
        let e = entries[k - 1];
        let wt = depth_weight(e, depth);
        if e.min_depth <= depth <= e.max_depth && wt > 0 && view_total(prev) + wt < i32::MAX {
            prev.push((e.name@, wt))
        } else {
            prev
        }
    }
}

proof fn lemma_view_total(e: Seq<RandomEntry>, k: int)
    requires
        0 <= k <= e.len(),
    ensures
        view_total(table_view(e).subrange(0, k)) == weights_before(e, k),
    decreases k,
{
    if k > 0 {
        lemma_view_total(e, k - 1);
        assert(table_view(e).subrange(0, k).drop_last() =~= table_view(e).subrange(0, k - 1));
    }
}

/// The weighted table of what may spawn at `depth`.
pub fn get_spawn_table_for_depth(entries: &Vec<SpawnTableEntry>, depth: i32) -> (t: RandomTable)
    ensures
        t.wf(),
        table_view(t.entries@) == depth_table(entries@, depth as int, entries@.len() as nat),
{
    let mut t = RandomTable::new();
    let mut k: usize = 0;
    while k < entries.len()
        invariant
            k <= entries@.len(),
            t.wf(),
            table_view(t.entries@) == depth_table(entries@, depth as int, k as nat),
        decreases entries@.len() - k,
    {
        let e = &entries[k];
        proof {
            lemma_view_total(t.entries@, t.entries@.len() as int);
            assert(table_view(t.entries@).subrange(0, t.entries@.len() as int) =~= table_view(t.entries@));
            lemma_weights_nonneg(t.entries@, t.entries@.len() as int);
            assert(view_total(table_view(t.entries@)) == t.total_weight);
            assert(depth_table(entries@, depth as int, (k + 1) as nat) == {
                let prev = depth_table(entries@, depth as int, k as nat);
                let wt = depth_weight(entries@[k as int], depth as int);
                if entries@[k as int].min_depth <= depth <= entries@[k as int].max_depth && wt > 0
                    && view_total(prev) + wt < i32::MAX {
                    prev.push((entries@[k as int].name@, wt))
                } else {
                    prev
                }
            });
        }
        if e.min_depth <= depth && depth <= e.max_depth {
            let wt: i64 = e.weight as i64 + if e.add_map_depth_to_weight {
                depth as i64
            } else {
                0
            };
            if 0 < wt && wt < i32::MAX as i64 {
                let name = e.name.clone();
                t = t.add(name, wt as i32);
            }
        }
        k = k + 1;
    }
    t
}

/// The table holds an entry of that name.
pub open spec fn table_has(table: RandomTable, name: Seq<char>) -> bool {
    exists|j: int| 0 <= j < table.entries@.len() && #[trigger] table.entries@[j].name@ == name
}

/// Every spawn intent from position `from` on names an entity of the table.
pub open spec fn names_from(table: RandomTable, list: Seq<(usize, String)>, from: int) -> bool {
    forall|k: int| from <= k < list.len() ==> #[trigger] table_has(table, list[k].1@)
}

/// Every spawn intent is on a walkable cell of the grid, not on the start,
/// and no two share a cell.
pub open spec fn spawns_ok(b: BuilderMap) -> bool {
    &&& forall|k: int|
        0 <= k < b.spawn_list@.len() ==> #[trigger] b.spawn_list@[k].0 < b.map.tiles@.len() && walkable(
            b.map.tiles@[b.spawn_list@[k].0 as int],
        ) && (b.starting_position is Some ==> b.spawn_list@[k].0 != b.start_idx())
    &&& forall|a: int, c: int|
        0 <= a < c < b.spawn_list@.len() ==> #[trigger] b.spawn_list@[a].0 != #[trigger] b.spawn_list@[c].0
}

/// A spawn intent may go on cell `idx`: it is walkable, not the start, and
/// holds no intent yet.
pub open spec fn spawn_fits(b: BuilderMap, idx: int) -> bool {
    &&& 0 <= idx < b.map.tiles@.len()
    &&& walkable(b.map.tiles@[idx])
    &&& (b.starting_position is Some ==> idx != b.start_idx())
    &&& forall|k: int| 0 <= k < b.spawn_list@.len() ==> #[trigger] b.spawn_list@[k].0 != idx
}

/// Only spawn intents were added, at the end.
pub open spec fn only_spawns_added(b1: BuilderMap, b0: BuilderMap) -> bool {
    &&& b1.map == b0.map
    &&& b1.starting_position == b0.starting_position
    &&& b1.rooms == b0.rooms
    &&& b1.corridors == b0.corridors
    &&& b1.history == b0.history
    &&& b1.width == b0.width
    &&& b1.height == b0.height
    &&& b1.record_snapshots == b0.record_snapshots
    &&& b0.spawn_list@.len() <= b1.spawn_list@.len()
    &&& forall|k: int| 0 <= k < b0.spawn_list@.len() ==> #[trigger] b1.spawn_list@[k] == b0.spawn_list@[k]
}

/// Adds the intent to spawn `name` on cell `idx` when the cell fits one.
pub fn try_add_spawn(build_data: &mut BuilderMap, idx: usize, name: String) -> (added: bool)
    requires
        old(build_data).wf(),
    ensures
        final(build_data).wf(),
        added == spawn_fits(*old(build_data), idx as int),
        added ==> final(build_data).spawn_list@ == old(build_data).spawn_list@.push((idx, name)),
        !added ==> *final(build_data) == *old(build_data),
        only_spawns_added(*final(build_data), *old(build_data)),
        spawns_ok(*old(build_data)) ==> spawns_ok(*final(build_data)),
{
    if idx >= build_data.map.tiles.len() || !is_tile_walkable(build_data.map.tiles[idx]) {
        return false;
    }
    if let Some(p) = build_data.starting_position {
        let s = build_data.map.xy_idx(p.x, p.y);
        if s == idx {
            return false;
        }
    }
    let mut k: usize = 0;
    while k < build_data.spawn_list.len()
        invariant
            *build_data == *old(build_data),
            old(build_data).wf(),
            spawn_fits(*old(build_data), idx as int) <==> forall|j: int|
                k <= j < build_data.spawn_list@.len() ==> #[trigger] build_data.spawn_list@[j].0 != idx,
            k <= build_data.spawn_list@.len(),
            forall|j: int| 0 <= j < k ==> #[trigger] build_data.spawn_list@[j].0 != idx,
        decreases build_data.spawn_list@.len() - k,
    {
        if build_data.spawn_list[k].0 == idx {
            return false;
        }
        k = k + 1;
    }
    build_data.spawn_list.push((idx, name));
    true
}

/// Most intents a region gets before the depth bonus.
pub const MAX_MONSTERS: i32 = 4;

/// A spawn intent may go on cell `idx` of the grid of `b`, given the intents
/// `list` placed so far: it is walkable, not the start, and free.
pub open spec fn fits_with(b: BuilderMap, list: Seq<(usize, String)>, idx: int) -> bool {
    &&& 0 <= idx < b.map.tiles@.len()
    &&& walkable(b.map.tiles@[idx])
    &&& (b.starting_position is Some ==> idx != b.start_idx())
    &&& forall|k: int| 0 <= k < list.len() ==> #[trigger] list[k].0 != idx
}

/// The cells still free to draw from and the intents placed after the
/// first `j` draws: draw `i` takes cell `picks[i]` of those left and, when
/// it drew a name that fits there, places it.
pub open spec fn region_draws(
    b: BuilderMap,
    list0: Seq<(usize, String)>,
    area: Seq<usize>,
    picks: Seq<usize>,
    names: Seq<Option<String>>,
    j: nat,
) -> (Seq<usize>, Seq<(usize, String)>)
    decreases j,
{
    if j == 0 {
        (area, list0)
    } else {
        let prev = region_draws(b, list0, area, picks, names, (j - 1) as nat);
        let rem = prev.0;
        let list = prev.1;
        if rem.len() == 0 || picks[j - 1] >= rem.len() {
            prev
        } else {
            let idx = rem[picks[j - 1] as int];
            (
                rem.remove(picks[j - 1] as int),
                if names[j - 1] is Some && fits_with(b, list, idx as int) {
                    list.push((idx, names[j - 1].unwrap()))
                } else {
                    list
                },
            )
        }
    }
}

proof fn lemma_region_draws_len(b: BuilderMap, list0: Seq<(usize, String)>, area: Seq<usize>, picks: Seq<usize>, names: Seq<Option<String>>, j: nat)
    requires
        j <= picks.len(),
        forall|i: int| 0 <= i < picks.len() ==> #[trigger] picks[i] < area.len() - i,
    ensures
        region_draws(b, list0, area, picks, names, j).0.len() == area.len() - j,
    decreases j,
{
    if j > 0 {
        lemma_region_draws_len(b, list0, area, picks, names, (j - 1) as nat);
        assert(picks[j - 1] < area.len() - (j - 1));
    }
}

/// Places spawn intents from given draws: draw `i` takes cell `picks[i]`
/// of the cells of `area` not yet drawn, and places `names[i]` there when
/// it fits.
pub fn spawn_from_draws(build_data: &mut BuilderMap, area: Vec<usize>, picks: &Vec<usize>, names: Vec<Option<String>>)
    requires
        old(build_data).wf(),
        names@.len() == picks@.len(),
        picks@.len() <= area@.len(),
        forall|i: int| 0 <= i < picks@.len() ==> #[trigger] picks@[i] < area@.len() - i,
    ensures
        final(build_data).wf(),
        final(build_data).spawn_list@ == region_draws(*old(build_data), old(build_data).spawn_list@, area@, picks@, names@, picks@.len()).1,
        only_spawns_added(*final(build_data), *old(build_data)),
        spawns_ok(*old(build_data)) ==> spawns_ok(*final(build_data)),
        forall|k: int|
            old(build_data).spawn_list@.len() <= k < final(build_data).spawn_list@.len() ==> area@.contains(
                #[trigger] final(build_data).spawn_list@[k].0,
            ),
        forall|k: int|
            old(build_data).spawn_list@.len() <= k < final(build_data).spawn_list@.len() ==> exists|i: int|
                0 <= i < names@.len() && names@[i] == Some(#[trigger] final(build_data).spawn_list@[k].1),
{
    let ghost b0 = *build_data;
    let ghost names0 = names@;
    let mut areas = area;
    let mut rest = names;
    let mut i: usize = 0;
    while i < picks.len()
        invariant
            build_data.wf(),
            only_spawns_added(*build_data, b0),
            spawns_ok(b0) ==> spawns_ok(*build_data),
            names0.len() == picks@.len(),
            picks@.len() <= area@.len(),
            forall|q: int| 0 <= q < picks@.len() ==> #[trigger] picks@[q] < area@.len() - q,
            i <= picks@.len(),
            rest@ == names0.subrange(i as int, names0.len() as int),
            areas@ == region_draws(b0, b0.spawn_list@, area@, picks@, names0, i as nat).0,
            build_data.spawn_list@ == region_draws(b0, b0.spawn_list@, area@, picks@, names0, i as nat).1,
            forall|j: int| 0 <= j < areas@.len() ==> area@.contains(#[trigger] areas@[j]),
            forall|k: int|
                b0.spawn_list@.len() <= k < build_data.spawn_list@.len() ==> area@.contains(
                    #[trigger] build_data.spawn_list@[k].0,
                ),
            forall|k: int|
                b0.spawn_list@.len() <= k < build_data.spawn_list@.len() ==> exists|q: int|
                    0 <= q < names0.len() && names0[q] == Some(#[trigger] build_data.spawn_list@[k].1),
        decreases picks@.len() - i,
    {
        proof {
            lemma_region_draws_len(b0, b0.spawn_list@, area@, picks@, names0, i as nat);
        }
        let pick = picks[i];
        let ghost areas0 = areas@;
        let map_idx = areas.remove(pick);
        assert(area@.contains(map_idx)) by {
            assert(areas0[pick as int] == map_idx);
        }
        let name = rest.remove(0);
        assert(name == names0[i as int]);
        let ghost before = *build_data;
        match name {
            Some(n) => {
                let added = try_add_spawn(build_data, map_idx, n);
                proof {
                    assert(added == fits_with(b0, before.spawn_list@, map_idx as int));
                    assert forall|k: int|
                        b0.spawn_list@.len() <= k < build_data.spawn_list@.len() implies area@.contains(
                            #[trigger] build_data.spawn_list@[k].0,
                        ) by {
                        if k < before.spawn_list@.len() {
                            assert(build_data.spawn_list@[k] == before.spawn_list@[k]);
                        }
                    }
                    assert forall|k: int|
                        b0.spawn_list@.len() <= k < build_data.spawn_list@.len() implies exists|q: int|
                            0 <= q < names0.len() && names0[q] == Some(#[trigger] build_data.spawn_list@[k].1) by {
                        if k < before.spawn_list@.len() {
                            assert(build_data.spawn_list@[k] == before.spawn_list@[k]);
                        } else {
                            assert(names0[i as int] == Some(build_data.spawn_list@[k].1));
                        }
                    }
                }
            },
            None => {},
        }
        proof {
            assert(rest@ =~= names0.subrange(i as int + 1, names0.len() as int));
            assert forall|j: int| 0 <= j < areas@.len() implies area@.contains(#[trigger] areas@[j]) by {
                if j < pick {
                    assert(areas@[j] == areas0[j]);
                } else {
                    assert(areas@[j] == areas0[j + 1]);
                }
            }
        }
        i = i + 1;
    }
}

/// The draws for one region: the count roll, and for each placement the
/// pick among the cells left and the name drawn from the table.
pub struct RegionDraw {
    pub roll: int,
    pub picks: Seq<usize>,
    pub names: Seq<Option<String>>,
}

/// The draws lie on their dice: a count roll of `1..=7`, as many picks as
/// the count gives, each among the cells left, and a name exactly when the
/// table is not empty.
pub open spec fn region_draw_ok(d: RegionDraw, depth: int, cells: int, table: RandomTable) -> bool {
    &&& 1 <= d.roll <= MAX_MONSTERS + 3
    &&& d.picks.len() == region_count(d.roll, depth, cells)
    &&& d.names.len() == d.picks.len()
    &&& forall|i: int| 0 <= i < d.picks.len() ==> #[trigger] d.picks[i] < cells - i
    &&& forall|i: int| 0 <= i < d.names.len() ==> (#[trigger] d.names[i] is Some <==> table.total_weight != 0)
}

/// The number of intents a region gets: the count roll plus the depth,
/// less four, at least none and at most the cells of the region.
pub open spec fn region_count(roll: int, depth: int, cells: int) -> int {
    let wanted = roll + depth - 4;
    if wanted <= 0 {
        0
    } else if wanted >= cells {
        cells
    } else {
        wanted
    }
}

/// Places up to `d7 + depth - 4` intents on distinct cells of `area`, drawn
/// at random, each with an entity drawn from the table; cells that cannot
/// take one are passed over.
pub fn spawn_region(
    build_data: &mut BuilderMap,
    rng: &mut rltk::RandomNumberGenerator,
    area: Vec<usize>,
    table: &RandomTable,
)
    requires
        old(build_data).wf(),
        table.wf(),
    ensures
        final(build_data).wf(),
        only_spawns_added(*final(build_data), *old(build_data)),
        spawns_ok(*old(build_data)) ==> spawns_ok(*final(build_data)),
        forall|k: int|
            old(build_data).spawn_list@.len() <= k < final(build_data).spawn_list@.len() ==> area@.contains(
                #[trigger] final(build_data).spawn_list@[k].0,
            ),
        names_from(*table, final(build_data).spawn_list@, old(build_data).spawn_list@.len() as int),
        exists|d: RegionDraw|
            #[trigger] region_draw_ok(d, old(build_data).map.depth as int, area@.len() as int, *table)
                && final(build_data).spawn_list@ == region_draws(
                *old(build_data),
                old(build_data).spawn_list@,
                area@,
                d.picks,
                d.names,
                d.picks.len(),
            ).1,
{
    let depth = build_data.map.depth;
    let roll = rng.roll_dice(1, MAX_MONSTERS + 3);
    let wanted: i64 = roll as i64 + depth as i64 - 1 - 3;
    let num: usize = if wanted <= 0 {
        0
    } else if wanted as u64 >= area.len() as u64 {
        area.len()
    } else {
        wanted as usize
    };
    let mut picks: Vec<usize> = Vec::new();
    let mut names: Vec<Option<String>> = Vec::new();
    while picks.len() < num
        invariant
            num <= area@.len(),
            table.wf(),
            names@.len() == picks@.len(),
            picks@.len() <= num,
            forall|i: int| 0 <= i < picks@.len() ==> #[trigger] picks@[i] < area@.len() - i,
            forall|i: int| 0 <= i < names@.len() ==> (#[trigger] names@[i] is Some <==> table.total_weight != 0),
            forall|i: int| 0 <= i < names@.len() && names@[i] is Some ==> table_has(*table, (#[trigger] names@[i]).unwrap()@),
        decreases num - picks@.len(),
    {
        let left = area.len() - picks.len();
        let pick: usize = if left == 1 || left >= i32::MAX as usize {
            0
        } else {
            (rng.roll_dice(1, left as i32) - 1) as usize
        };
        picks.push(pick);
        let name = table.roll(rng);
        names.push(name);
    }
    let ghost pv = picks@;
    let ghost nv = names@;
    let ghost b0 = *build_data;
    spawn_from_draws(build_data, area, &picks, names);
    proof {
        assert forall|k: int|
            b0.spawn_list@.len() <= k < build_data.spawn_list@.len() implies #[trigger] table_has(
                *table,
                build_data.spawn_list@[k].1@,
            ) by {
            let q = choose|q: int| 0 <= q < nv.len() && nv[q] == Some(build_data.spawn_list@[k].1);
            assert(table_has(*table, nv[q].unwrap()@));
        }
        assert(pv.len() == region_count(roll as int, depth as int, area@.len() as int));
        let d = RegionDraw { roll: roll as int, picks: pv, names: nv };
        assert(region_draw_ok(d, depth as int, area@.len() as int, *table));
    }
}

/// Cell `i` lies strictly inside the room's border.
pub open spec fn inside_border(w: int, r: Rect, i: int) -> bool {
    r.x1 < i % w < r.x2 && r.y1 < i / w < r.y2
}

/// The floor cells strictly inside a room's border among the first `k`, in
/// scan order.
pub open spec fn room_cells(t: Seq<TileType>, w: int, room: Rect, k: nat) -> Seq<usize>
    decreases k,
{
    if k == 0 || k > t.len() {
        seq![]
    } else {
        let prev = room_cells(t, w, room, (k - 1) as nat);
        if inside_border(w, room, k - 1) && t[k - 1] == TileType::Floor {
            prev.push((k - 1) as usize)
        } else {
            prev
        }
    }
}

/// The intents after spawning into rooms `1..=k`, room `j` with draws
/// `draws[j - 1]`.
pub open spec fn rooms_spawned(b: BuilderMap, rooms: Seq<Rect>, draws: Seq<RegionDraw>, k: nat) -> Seq<(usize, String)>
    decreases k,
{
    if k == 0 || k > draws.len() {
        b.spawn_list@
    } else {
        let prev = rooms_spawned(b, rooms, draws, (k - 1) as nat);
        let d = draws[k - 1];
        region_draws(
            b,
            prev,
            room_cells(b.map.tiles@, b.width as int, rooms[k as int], b.map.tiles@.len()),
            d.picks,
            d.names,
            d.picks.len(),
        ).1
    }
}

proof fn lemma_rooms_spawned_prefix(b: BuilderMap, rooms: Seq<Rect>, d1: Seq<RegionDraw>, d2: Seq<RegionDraw>, k: nat)
    requires
        k <= d1.len(),
        k <= d2.len(),
        forall|j: int| 0 <= j < k ==> d1[j] == d2[j],
    ensures
        rooms_spawned(b, rooms, d1, k) == rooms_spawned(b, rooms, d2, k),
    decreases k,
{
    if k > 0 {
        lemma_rooms_spawned_prefix(b, rooms, d1, d2, (k - 1) as nat);
    }
}

/// Region draws read the grid, its width and the start only.
pub proof fn lemma_region_draws_same(
    b1: BuilderMap,
    b2: BuilderMap,
    list0: Seq<(usize, String)>,
    area: Seq<usize>,
    picks: Seq<usize>,
    names: Seq<Option<String>>,
    j: nat,
)
    requires
        b1.map == b2.map,
        b1.width == b2.width,
        b1.starting_position == b2.starting_position,
    ensures
        region_draws(b1, list0, area, picks, names, j) == region_draws(b2, list0, area, picks, names, j),
    decreases j,
{
    if j > 0 {
        lemma_region_draws_same(b1, b2, list0, area, picks, names, (j - 1) as nat);
    }
}

/// The floor cells strictly inside a room's border, in scan order.
pub fn room_floor_cells(build_data: &BuilderMap, room: Rect) -> (area: Vec<usize>)
    requires
        build_data.wf(),
        rect_in(build_data.width as int, build_data.height as int, room),
    ensures
        forall|k: int| 0 <= k < area@.len() ==> #[trigger] area@[k] < build_data.map.tiles@.len()
            && inside_border(build_data.width as int, room, area@[k] as int)
            && build_data.map.tiles@[area@[k] as int] == TileType::Floor,
        forall|i: int|
            0 <= i < build_data.map.tiles@.len() && inside_border(build_data.width as int, room, i)
                && #[trigger] build_data.map.tiles@[i] == TileType::Floor ==> area@.contains(i as usize),
        forall|a: int, b: int| 0 <= a < b < area@.len() ==> #[trigger] area@[a] < #[trigger] area@[b],
        area@ == room_cells(build_data.map.tiles@, build_data.width as int, room, build_data.map.tiles@.len()),
{
    let ghost w = build_data.width as int;
    let ghost h = build_data.height as int;
    let mut area: Vec<usize> = Vec::new();
    let n = build_data.map.tiles.len();
    let mut i: usize = 0;
    let wu = build_data.width as usize;
    while i < n
        invariant
            build_data.wf(),
            n == build_data.map.tiles@.len(),
            w == wu,
            w == build_data.width,
            wu > 0,
            area@ == room_cells(build_data.map.tiles@, w, room, i as nat),
            i <= n,
            forall|k: int| 0 <= k < area@.len() ==> #[trigger] area@[k] < i
                && inside_border(w, room, area@[k] as int)
                && build_data.map.tiles@[area@[k] as int] == TileType::Floor,
            forall|j: int|
                0 <= j < i && inside_border(w, room, j) && #[trigger] build_data.map.tiles@[j]
                    == TileType::Floor ==> area@.contains(j as usize),
            forall|a: int, b: int| 0 <= a < b < area@.len() ==> #[trigger] area@[a] < #[trigger] area@[b],
        decreases n - i,
    {
        let x = (i % wu) as i64;
        let y = (i / wu) as i64;
        if (room.x1 as i64) < x && x < (room.x2 as i64) && (room.y1 as i64) < y && y < (room.y2 as i64)
            && build_data.map.tiles[i] == TileType::Floor {
            let ghost a0 = area@;
            area.push(i);
            proof {
                assert forall|j: int|
                    0 <= j < i + 1 && inside_border(w, room, j) && #[trigger] build_data.map.tiles@[j]
                        == TileType::Floor implies area@.contains(j as usize) by {
                    if j == i {
                        assert(area@[area@.len() - 1] == i);
                    } else {
                        let k = choose|k: int| 0 <= k < a0.len() && a0[k] == j as usize;
                        assert(area@[k] == j as usize);
                    }
                }
            }
        }
        i = i + 1;
    }
    area
}

/// Spawns into every room but the first (where the player starts).
pub struct RoomBasedSpawner {
    pub table: RandomTable,
}

impl RoomBasedSpawner {
    pub fn new(table: RandomTable) -> (r: RoomBasedSpawner)
        ensures
            r.table == table,
    {
        RoomBasedSpawner { table }
    }

    pub fn build(&self, rng: &mut rltk::RandomNumberGenerator, build_data: &mut BuilderMap)
        requires
            old(build_data).wf(),
            old(build_data).rooms is Some,
            self.table.wf(),
        ensures
            final(build_data).wf(),
            only_spawns_added(*final(build_data), *old(build_data)),
            spawns_ok(*old(build_data)) ==> spawns_ok(*final(build_data)),
            names_from(self.table, final(build_data).spawn_list@, old(build_data).spawn_list@.len() as int),
            exists|draws: Seq<RegionDraw>|
                #[trigger] rooms_spawned(*old(build_data), old(build_data).rooms.unwrap()@, draws, draws.len())
                    == final(build_data).spawn_list@ && draws.len() == (if old(build_data).rooms.unwrap()@.len()
                    == 0 { 0 } else { old(build_data).rooms.unwrap()@.len() - 1 }) && forall|j: int|
                    0 <= j < draws.len() ==> region_draw_ok(
                        #[trigger] draws[j],
                        old(build_data).map.depth as int,
                        room_cells(
                            old(build_data).map.tiles@,
                            old(build_data).width as int,
                            old(build_data).rooms.unwrap()@[j + 1],
                            old(build_data).map.tiles@.len(),
                        ).len() as int,
                        self.table,
                    ),
    {
        let rooms = match &build_data.rooms {
            None => {
                return;
            },
            Some(v) => copy_rooms(v),
        };
        let ghost b0 = *build_data;
        let ghost mut draws: Seq<RegionDraw> = seq![];
        let mut i: usize = 1;
        while i < rooms.len()
            invariant
                build_data.wf(),
                self.table.wf(),
                b0.rooms matches Some(v) && rooms@ == v@,
                only_spawns_added(*build_data, b0),
                spawns_ok(b0) ==> spawns_ok(*build_data),
                names_from(self.table, build_data.spawn_list@, b0.spawn_list@.len() as int),
                1 <= i,
                rooms@.len() > 0 ==> i <= rooms@.len(),
                rooms@.len() == 0 ==> i == 1,
                draws.len() == i - 1,
                build_data.spawn_list@ == rooms_spawned(b0, rooms@, draws, draws.len()),
                forall|j: int|
                    0 <= j < draws.len() ==> region_draw_ok(
                        #[trigger] draws[j],
                        b0.map.depth as int,
                        room_cells(b0.map.tiles@, b0.width as int, rooms@[j + 1], b0.map.tiles@.len()).len() as int,
                        self.table,
                    ),
            decreases rooms@.len() - i,
        {
            assert(rect_in(build_data.width as int, build_data.height as int, rooms@[i as int]));
            let area = room_floor_cells(build_data, rooms[i]);
            let ghost before = *build_data;
            spawn_region(build_data, rng, area, &self.table);
            proof {
                let d = choose|d: RegionDraw|
                    #[trigger] region_draw_ok(d, before.map.depth as int, area@.len() as int, self.table)
                        && build_data.spawn_list@ == region_draws(
                        before,
                        before.spawn_list@,
                        area@,
                        d.picks,
                        d.names,
                        d.picks.len(),
                    ).1;
                lemma_region_draws_same(before, b0, before.spawn_list@, area@, d.picks, d.names, d.picks.len());
                let nd = draws.push(d);
                assert(rooms_spawned(b0, rooms@, nd, (nd.len() - 1) as nat) == rooms_spawned(b0, rooms@, draws, draws.len())) by {
                    lemma_rooms_spawned_prefix(b0, rooms@, nd, draws, draws.len());
                }
                assert forall|j: int| 0 <= j < nd.len() implies region_draw_ok(
                    #[trigger] nd[j],
                    b0.map.depth as int,
                    room_cells(b0.map.tiles@, b0.width as int, rooms@[j + 1], b0.map.tiles@.len()).len() as int,
                    self.table,
                ) by {
                    if j < draws.len() {
                        assert(nd[j] == draws[j]);
                    }
                }
                draws = nd;
            }
            i = i + 1;
        }
        proof {
            if rooms@.len() == 0 {
                assert(draws.len() == 0);
            }
        }
    }
}

/// Number of seed points of the Voronoi partition.
pub const VORONOI_SEEDS: usize = 32;

/// Squared distance between two cells.
pub open spec fn cell_dist2(ax: int, ay: int, bx: int, by: int) -> int {
    (ax - bx) * (ax - bx) + (ay - by) * (ay - by)
}

/// Seed `s` is the seed nearest to `(x, y)`, the first such in list order.
pub open spec fn nearest_seed(seeds: Seq<(i32, i32)>, x: int, y: int, s: int) -> bool {
    &&& 0 <= s < seeds.len()
    &&& forall|k: int| 0 <= k < seeds.len() ==> cell_dist2(x, y, seeds[s].0 as int, seeds[s].1 as int) <= cell_dist2(x, y, #[trigger] seeds[k].0 as int, seeds[k].1 as int)
    &&& forall|k: int| 0 <= k < s ==> cell_dist2(x, y, seeds[s].0 as int, seeds[s].1 as int) < cell_dist2(x, y, #[trigger] seeds[k].0 as int, seeds[k].1 as int)
}

fn cell_dist2_exec(ax: i32, ay: i32, bx: i32, by: i32) -> (r: i64)
    requires
        0 <= ax,
        0 <= ay,
        0 <= bx,
        0 <= by,
    ensures
        r == cell_dist2(ax as int, ay as int, bx as int, by as int),
{
    let dx = ax as i64 - bx as i64;
    let dy = ay as i64 - by as i64;
    proof {
        assert(0 <= dx * dx <= 0x3fff_ffff_0000_0001) by (nonlinear_arith)
            requires
                -0x7fff_ffff <= dx <= 0x7fff_ffff,
        ;
        assert(0 <= dy * dy <= 0x3fff_ffff_0000_0001) by (nonlinear_arith)
            requires
                -0x7fff_ffff <= dy <= 0x7fff_ffff,
        ;
    }
    dx * dx + dy * dy
}

/// The nearest seed is unique.
pub proof fn lemma_nearest_unique(seeds: Seq<(i32, i32)>, x: int, y: int, s1: int, s2: int)
    requires
        nearest_seed(seeds, x, y, s1),
        nearest_seed(seeds, x, y, s2),
    ensures
        s1 == s2,
{
    if s1 < s2 {
        assert(cell_dist2(x, y, seeds[s2].0 as int, seeds[s2].1 as int) < cell_dist2(x, y, seeds[s1].0 as int, seeds[s1].1 as int));
    } else if s2 < s1 {
        assert(cell_dist2(x, y, seeds[s1].0 as int, seeds[s1].1 as int) < cell_dist2(x, y, seeds[s2].0 as int, seeds[s2].1 as int));
    }
}

/// The walkable cells among the first `k` whose nearest seed is `s`, in
/// scan order.
pub open spec fn region_cells(t: Seq<TileType>, w: int, seeds: Seq<(i32, i32)>, s: int, k: nat) -> Seq<usize>
    decreases k,
{
    if k == 0 || k > t.len() {
        seq![]
    } else {
        let prev = region_cells(t, w, seeds, s, (k - 1) as nat);
        if walkable(t[k - 1]) && nearest_seed(seeds, (k - 1) % w, (k - 1) / w, s) {
            prev.push((k - 1) as usize)
        } else {
            prev
        }
    }
}

/// The intents after spawning into the regions of seeds `0..k`, region `j`
/// with draws `draws[j]`.
pub open spec fn regions_spawned(b: BuilderMap, seeds: Seq<(i32, i32)>, draws: Seq<RegionDraw>, k: nat) -> Seq<(usize, String)>
    decreases k,
{
    if k == 0 || k > draws.len() {
        b.spawn_list@
    } else {
        let prev = regions_spawned(b, seeds, draws, (k - 1) as nat);
        let d = draws[k - 1];
        region_draws(
            b,
            prev,
            region_cells(b.map.tiles@, b.width as int, seeds, k - 1, b.map.tiles@.len()),
            d.picks,
            d.names,
            d.picks.len(),
        ).1
    }
}

proof fn lemma_regions_spawned_prefix(b: BuilderMap, seeds: Seq<(i32, i32)>, d1: Seq<RegionDraw>, d2: Seq<RegionDraw>, k: nat)
    requires
        k <= d1.len(),
        k <= d2.len(),
        forall|j: int| 0 <= j < k ==> d1[j] == d2[j],
    ensures
        regions_spawned(b, seeds, d1, k) == regions_spawned(b, seeds, d2, k),
    decreases k,
{
    if k > 0 {
        lemma_regions_spawned_prefix(b, seeds, d1, d2, (k - 1) as nat);
    }
}

/// The seed nearest to `(x, y)`.
pub fn find_nearest_seed(seeds: &Vec<(i32, i32)>, x: i32, y: i32) -> (s: usize)
    requires
        seeds@.len() > 0,
        0 <= x,
        0 <= y,
        forall|k: int| 0 <= k < seeds@.len() ==> 0 <= (#[trigger] seeds@[k]).0 && 0 <= seeds@[k].1,
    ensures
        nearest_seed(seeds@, x as int, y as int, s as int),
{
    let mut best: usize = 0;
    let mut best_d = cell_dist2_exec(x, y, seeds[0].0, seeds[0].1);
    let mut k: usize = 1;
    while k < seeds.len()
        invariant
            0 <= x,
            0 <= y,
            forall|j: int| 0 <= j < seeds@.len() ==> 0 <= (#[trigger] seeds@[j]).0 && 0 <= seeds@[j].1,
            best < k <= seeds@.len(),
            best_d == cell_dist2(x as int, y as int, seeds@[best as int].0 as int, seeds@[best as int].1 as int),
            forall|j: int| 0 <= j < k ==> best_d <= cell_dist2(x as int, y as int, #[trigger] seeds@[j].0 as int, seeds@[j].1 as int),
            forall|j: int| 0 <= j < best ==> best_d < cell_dist2(x as int, y as int, #[trigger] seeds@[j].0 as int, seeds@[j].1 as int),
        decreases seeds@.len() - k,
    {
        let d = cell_dist2_exec(x, y, seeds[k].0, seeds[k].1);
        if d < best_d {
            best = k;
            best_d = d;
        }
        k = k + 1;
    }
    best
}

/// Splits the walkable cells into the regions of randomly scattered seed
/// points (each cell goes to its nearest seed), then spawns into each region.
pub struct VoronoiSpawning {
    pub table: RandomTable,
}

impl VoronoiSpawning {
    pub fn new(table: RandomTable) -> (r: VoronoiSpawning)
        ensures
            r.table == table,
    {
        VoronoiSpawning { table }
    }

    /// The walkable cells of each seed's region, seed by seed.
    pub fn regions(build_data: &BuilderMap, seeds: &Vec<(i32, i32)>) -> (regions: Vec<Vec<usize>>)
        requires
            build_data.wf(),
            seeds@.len() > 0,
            forall|k: int| 0 <= k < seeds@.len() ==> 0 <= (#[trigger] seeds@[k]).0 && 0 <= seeds@[k].1,
        ensures
            regions@.len() == seeds@.len(),
            forall|i: int|
                0 <= i < build_data.map.tiles@.len() && walkable(#[trigger] build_data.map.tiles@[i])
                    ==> exists|s: int, k: int|
                    0 <= s < regions@.len() && 0 <= k < regions@[s]@.len() && regions@[s]@[k] == i,
            forall|s: int, k: int|
                0 <= s < regions@.len() && 0 <= k < regions@[s]@.len() ==> {
                    let i = #[trigger] regions@[s]@[k] as int;
                    &&& 0 <= i < build_data.map.tiles@.len()
                    &&& walkable(build_data.map.tiles@[i])
                    &&& nearest_seed(seeds@, i % build_data.width as int, i / build_data.width as int, s)
                },
            forall|s: int|
                0 <= s < regions@.len() ==> (#[trigger] regions@[s])@ == region_cells(
                    build_data.map.tiles@,
                    build_data.width as int,
                    seeds@,
                    s,
                    build_data.map.tiles@.len(),
                ),
    {
        let mut regions: Vec<Vec<usize>> = Vec::new();
        let mut s: usize = 0;
        while s < seeds.len()
            invariant
                s <= seeds@.len(),
                regions@.len() == s,
                forall|j: int| 0 <= j < s ==> (#[trigger] regions@[j])@.len() == 0,
            decreases seeds@.len() - s,
        {
            regions.push(Vec::new());
            s = s + 1;
        }
        let n = build_data.map.tiles.len();
        let wu = build_data.width as usize;
        let ghost w = build_data.width as int;
        let ghost h = build_data.height as int;
        let mut i: usize = 0;
        while i < n
            invariant
                build_data.wf(),
                n == build_data.map.tiles@.len(),
                w == wu,
                w == build_data.width,
                h == build_data.height,
                seeds@.len() > 0,
                forall|k: int| 0 <= k < seeds@.len() ==> 0 <= (#[trigger] seeds@[k]).0 && 0 <= seeds@[k].1,
                regions@.len() == seeds@.len(),
                i <= n,
                forall|t: int| 0 <= t < regions@.len() ==> (#[trigger] regions@[t])@ == region_cells(build_data.map.tiles@, w, seeds@, t, i as nat),
                forall|j: int|
                    0 <= j < i && walkable(#[trigger] build_data.map.tiles@[j]) ==> exists|s: int, k: int|
                        0 <= s < regions@.len() && 0 <= k < regions@[s]@.len() && regions@[s]@[k] == j,
                forall|s: int, k: int|
                    0 <= s < regions@.len() && 0 <= k < regions@[s]@.len() ==> {
                        let c = #[trigger] regions@[s]@[k] as int;
                        &&& 0 <= c < n
                        &&& walkable(build_data.map.tiles@[c])
                        &&& nearest_seed(seeds@, c % w, c / w, s)
                    },
            decreases n - i,
        {
            if is_tile_walkable(build_data.map.tiles[i]) {
                proof {
                    lemma_coords(w, h, i as int);
                }
                let x = (i % wu) as i32;
                let y = (i / wu) as i32;
                let s = find_nearest_seed(seeds, x, y);
                let ghost r0 = regions@;
                let mut cell_list: Vec<usize> = Vec::new();
                regions.set_and_swap(s, &mut cell_list);
                cell_list.push(i);
                regions.set(s, cell_list);
                proof {
                    assert forall|t: int, k: int|
                        0 <= t < regions@.len() && 0 <= k < regions@[t]@.len() implies {
                            let c = #[trigger] regions@[t]@[k] as int;
                            &&& 0 <= c < n
                            &&& walkable(build_data.map.tiles@[c])
                            &&& nearest_seed(seeds@, c % w, c / w, t)
                        } by {
                        if t != s || k < r0[t]@.len() {
                            assert(regions@[t]@[k] == r0[t]@[k]);
                        }
                    }
                    assert forall|j: int|
                        0 <= j < i + 1 && walkable(#[trigger] build_data.map.tiles@[j]) implies exists|t: int, k: int|
                            0 <= t < regions@.len() && 0 <= k < regions@[t]@.len() && regions@[t]@[k] == j by {
                        if j == i {
                            assert(regions@[s as int]@[r0[s as int]@.len() as int] == i);
                        } else {
                            let (t, k) = choose|t: int, k: int|
                                0 <= t < r0.len() && 0 <= k < r0[t]@.len() && r0[t]@[k] == j;
                            assert(regions@[t]@[k] == r0[t]@[k]);
                        }
                    }
                    assert forall|t: int| 0 <= t < regions@.len() implies (#[trigger] regions@[t])@ == region_cells(
                        build_data.map.tiles@,
                        w,
                        seeds@,
                        t,
                        (i + 1) as nat,
                    ) by {
                        if t == s {
                            assert(regions@[t]@ =~= r0[t]@.push(i));
                        } else {
                            if nearest_seed(seeds@, i as int % w, i as int / w, t) {
                                lemma_nearest_unique(seeds@, i as int % w, i as int / w, s as int, t);
                            }
                            assert(regions@[t] == r0[t]);
                        }
                    }
                }
            } else {
                proof {
                    assert forall|t: int| 0 <= t < regions@.len() implies (#[trigger] regions@[t])@ == region_cells(
                        build_data.map.tiles@,
                        w,
                        seeds@,
                        t,
                        (i + 1) as nat,
                    ) by {}
                }
            }
            i = i + 1;
        }
        regions
    }

    /// Scatters the seeds, then spawns into each region in seed order.
    pub fn build(&self, rng: &mut rltk::RandomNumberGenerator, build_data: &mut BuilderMap)
        requires
            old(build_data).wf(),
            self.table.wf(),
        ensures
            final(build_data).wf(),
            only_spawns_added(*final(build_data), *old(build_data)),
            spawns_ok(*old(build_data)) ==> spawns_ok(*final(build_data)),
            names_from(self.table, final(build_data).spawn_list@, old(build_data).spawn_list@.len() as int),
            exists|seeds: Seq<(i32, i32)>, draws: Seq<RegionDraw>|
                #[trigger] regions_spawned(*old(build_data), seeds, draws, draws.len()) == final(build_data).spawn_list@
                    && seeds.len() == VORONOI_SEEDS && draws.len() == VORONOI_SEEDS && (forall|k: int|
                    0 <= k < seeds.len() ==> 0 <= (#[trigger] seeds[k]).0 < old(build_data).width && 0 <= seeds[k].1
                        < old(build_data).height) && forall|j: int|
                    0 <= j < draws.len() ==> region_draw_ok(
                        #[trigger] draws[j],
                        old(build_data).map.depth as int,
                        region_cells(
                            old(build_data).map.tiles@,
                            old(build_data).width as int,
                            seeds,
                            j,
                            old(build_data).map.tiles@.len(),
                        ).len() as int,
                        self.table,
                    ),
    {
        let ghost b0 = *build_data;
        let w = build_data.width;
        let h = build_data.height;
        let mut seeds: Vec<(i32, i32)> = Vec::new();
        proof {
            assert(w <= w * h && h <= w * h) by (nonlinear_arith)
                requires
                    0 < w,
                    0 < h,
            ;
        }
        while seeds.len() < VORONOI_SEEDS
            invariant
                0 < w < i32::MAX,
                0 < h < i32::MAX,
                seeds@.len() <= VORONOI_SEEDS,
                w == build_data.width,
                h == build_data.height,
                build_data.wf(),
                forall|k: int| 0 <= k < seeds@.len() ==> 0 <= (#[trigger] seeds@[k]).0 < w && 0 <= seeds@[k].1 < h,
            decreases VORONOI_SEEDS - seeds@.len(),
        {
            let x = rng.roll_dice(1, w) - 1;
            let y = rng.roll_dice(1, h) - 1;
            seeds.push((x, y));
        }
        let mut regions = VoronoiSpawning::regions(build_data, &seeds);
        let ghost sv = seeds@;
        let ghost mut draws: Seq<RegionDraw> = seq![];
        let mut s: usize = 0;
        while s < regions.len()
            invariant
                build_data.wf(),
                self.table.wf(),
                only_spawns_added(*build_data, b0),
                spawns_ok(b0) ==> spawns_ok(*build_data),
                names_from(self.table, build_data.spawn_list@, b0.spawn_list@.len() as int),
                regions@.len() == VORONOI_SEEDS,
                s <= regions@.len(),
                draws.len() == s,
                forall|t: int|
                    s <= t < regions@.len() ==> (#[trigger] regions@[t])@ == region_cells(
                        b0.map.tiles@,
                        b0.width as int,
                        sv,
                        t,
                        b0.map.tiles@.len(),
                    ),
                build_data.spawn_list@ == regions_spawned(b0, sv, draws, draws.len()),
                forall|j: int|
                    0 <= j < draws.len() ==> region_draw_ok(
                        #[trigger] draws[j],
                        b0.map.depth as int,
                        region_cells(b0.map.tiles@, b0.width as int, sv, j, b0.map.tiles@.len()).len() as int,
                        self.table,
                    ),
            decreases regions@.len() - s,
        {
            let mut area: Vec<usize> = Vec::new();
            let ghost r0 = regions@;
            regions.set_and_swap(s, &mut area);
            assert(area@ == r0[s as int]@);
            let ghost before = *build_data;
            spawn_region(build_data, rng, area, &self.table);
            proof {
                let d = choose|d: RegionDraw|
                    #[trigger] region_draw_ok(d, before.map.depth as int, area@.len() as int, self.table)
                        && build_data.spawn_list@ == region_draws(
                        before,
                        before.spawn_list@,
                        area@,
                        d.picks,
                        d.names,
                        d.picks.len(),
                    ).1;
                lemma_region_draws_same(before, b0, before.spawn_list@, area@, d.picks, d.names, d.picks.len());
                let nd = draws.push(d);
                lemma_regions_spawned_prefix(b0, sv, nd, draws, draws.len());
                assert forall|j: int| 0 <= j < nd.len() implies region_draw_ok(
                    #[trigger] nd[j],
                    b0.map.depth as int,
                    region_cells(b0.map.tiles@, b0.width as int, sv, j, b0.map.tiles@.len()).len() as int,
                    self.table,
                ) by {
                    if j < draws.len() {
                        assert(nd[j] == draws[j]);
                    }
                }
                assert forall|t: int|
                    s + 1 <= t < regions@.len() implies (#[trigger] regions@[t])@ == region_cells(
                        b0.map.tiles@,
                        b0.width as int,
                        sv,
                        t,
                        b0.map.tiles@.len(),
                    ) by {
                    assert(regions@[t] == r0[t]);
                }
                draws = nd;
            }
            s = s + 1;
        }
    }
}

} // verus!
