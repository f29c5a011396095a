//! Tiles: the contents of one grid cell.

use vstd::prelude::*;

verus! {

/// Identifier of a simulation entity (player, enemy, chest, ...). The value
/// `0` is the placeholder carried by cells that hold no entity.
pub type EntityId = u64;

/// The placeholder entity id of empty and terrain cells.
pub const PLACEHOLDER_ENTITY: EntityId = 0;

/// The material of a terrain cell.
#[derive(Clone, Copy, PartialEq, Eq, Structural, Debug)]
pub enum TerrainKind {
    Invisible,
    Sand,
    Rock,
    Boardwalk,
    PalmTree,
    TreeTrunk,
    Leaves,
}

/// Sand and rock are the island's base ground; everything else is decoration.
pub fn is_base_terrain(kind: TerrainKind) -> (r: bool)
    ensures
        r == (kind is Sand || kind is Rock),
{
    match kind {
        TerrainKind::Sand | TerrainKind::Rock => true,
        _ => false,
    }
}

/// What occupies a cell. Exactly one logical occupant per coordinate.
#[derive(Clone, Copy, PartialEq, Eq, Structural, Debug)]
pub enum TileKind {
    Empty,
    Terrain(TerrainKind),
    Player,
    Enemy,
}

/// One grid cell: its kind and the entity standing there (the placeholder id
/// for empty and terrain cells).
#[derive(Clone, Copy, PartialEq, Eq, Structural, Debug)]
pub struct Tile {
    pub kind: TileKind,
    pub entity: EntityId,
}

impl Tile {
    pub fn new(kind: TileKind, entity: EntityId) -> (r: Tile)
        ensures
            r == (Tile { kind, entity }),
    {
        Tile { kind, entity }
    }

    /// The contents of every cell no write has touched: empty, placeholder.
    pub open spec fn empty_spec() -> Tile {
        Tile { kind: TileKind::Empty, entity: PLACEHOLDER_ENTITY }
    }

    /// Clear the cell back to the empty placeholder tile.
    pub fn reset(&mut self)
        ensures
            *final(self) == Tile::empty_spec(),
    {
        self.kind = TileKind::Empty;
        self.entity = PLACEHOLDER_ENTITY;
    }
}

impl Default for Tile {
    fn default() -> (r: Tile)
        ensures
            r == Tile::empty_spec(),
    {
        Tile { kind: TileKind::Empty, entity: PLACEHOLDER_ENTITY }
    }
}

} // verus!
