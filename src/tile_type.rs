use vstd::prelude::*;

verus! {

/// The kind of one grid cell.
#[derive(PartialEq, Eq, Structural, Hash, Copy, Clone, Debug)]
pub enum TileType {
    Wall,
    Stalactite,
    Stalagmite,
    Floor,
    DownStairs,
    Road,
    Grass,
    ShallowWater,
    DeepWater,
    WoodFloor,
    Bridge,
    Gravel,
    UpStairs,
}

/// A creature can stand on the tile.
pub open spec fn walkable(t: TileType) -> bool {
    !(t is Wall || t is Stalactite || t is Stalagmite || t is DeepWater)
}

/// The tile blocks line of sight.
pub open spec fn opaque(t: TileType) -> bool {
    t is Wall || t is Stalactite || t is Stalagmite
}

/// Movement cost of a tile, in tenths of a step.
pub open spec fn cost_tenths(t: TileType) -> int {
    match t {
        TileType::Road => 8,
        TileType::Grass => 11,
        TileType::ShallowWater => 12,
        _ => 10,
    }
}

pub fn is_tile_walkable(tile_type: TileType) -> (r: bool)
    ensures
        r == walkable(tile_type),
{
    match tile_type {
        TileType::Floor | TileType::DownStairs | TileType::UpStairs | TileType::Road
        | TileType::Grass | TileType::ShallowWater | TileType::WoodFloor | TileType::Bridge
        | TileType::Gravel => true,
        _ => false,
    }
}

pub fn is_tile_opaque(tile_type: TileType) -> (r: bool)
    ensures
        r == opaque(tile_type),
{
    match tile_type {
        TileType::Wall | TileType::Stalactite | TileType::Stalagmite => true,
        _ => false,
    }
}

/// Movement cost of a tile in tenths: a road is cheaper than open floor,
/// grass and shallow water are dearer.
pub fn get_tile_cost_tenths(tile_type: TileType) -> (r: u32)
    ensures
        r as int == cost_tenths(tile_type),
{
    match tile_type {
        TileType::Road => 8,
        TileType::Grass => 11,
        TileType::ShallowWater => 12,
        _ => 10,
    }
}

} // verus!
