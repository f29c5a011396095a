//! Fixed-size cubic chunks of tiles, addressed by local coordinates.

use vstd::prelude::*;
use crate::pos::{GridPos, CHUNK_SIZE};
use crate::tile::Tile;

verus! {

/// Number of tiles in one chunk (`CHUNK_SIZE` cubed).
pub const CHUNK_VOLUME: usize = 4096;

/// The flat-array slot of a local coordinate triple.
pub open spec fn local_index_of(x: int, y: int, z: int) -> int {
    x + (CHUNK_SIZE as int) * (y + (CHUNK_SIZE as int) * z)
}

pub open spec fn local_in_range(x: int, y: int, z: int) -> bool {
    0 <= x < CHUNK_SIZE as int && 0 <= y < CHUNK_SIZE as int && 0 <= z < CHUNK_SIZE as int
}

/// Distinct local coordinates occupy distinct slots.
pub proof fn lemma_local_index_injective(x1: int, y1: int, z1: int, x2: int, y2: int, z2: int)
    requires
        local_in_range(x1, y1, z1),
        local_in_range(x2, y2, z2),
        local_index_of(x1, y1, z1) == local_index_of(x2, y2, z2),
    ensures
        x1 == x2 && y1 == y2 && z1 == z2,
{
}

/// A cube of `CHUNK_VOLUME` tiles stored as one flat vector.
pub struct Chunk {
    tiles: Vec<Tile>,
}

impl Chunk {
    pub closed spec fn view(self) -> Seq<Tile> {
        self.tiles@
    }

    /// A chunk always holds exactly `CHUNK_VOLUME` tiles.
    pub open spec fn wf(self) -> bool {
        self@.len() == CHUNK_VOLUME as int
    }

    /// The tile at a local coordinate triple, as the model sees it.
    pub open spec fn spec_tile(self, x: int, y: int, z: int) -> Tile
        recommends
            self.wf(),
            local_in_range(x, y, z),
    {
        self@[local_index_of(x, y, z)]
    }

    /// A fresh chunk: every slot holds the empty tile.
    pub fn new() -> (r: Chunk)
        ensures
            r.wf(),
            forall|i: int| 0 <= i < CHUNK_VOLUME as int ==> r@[i] == Tile::empty_spec(),
    {
        let mut tiles: Vec<Tile> = Vec::new();
        let mut i: usize = 0;
        while i < CHUNK_VOLUME
            invariant
                i <= CHUNK_VOLUME,
                tiles@.len() == i as int,
                forall|j: int| 0 <= j < i as int ==> tiles@[j] == Tile::empty_spec(),
            decreases CHUNK_VOLUME - i,
        {
            tiles.push(Tile::default());
            i = i + 1;
        }
        Chunk { tiles }
    }

    fn index(local_pos: GridPos) -> (r: usize)
        requires
            local_in_range(local_pos.x as int, local_pos.y as int, local_pos.z as int),
        ensures
            r as int == local_index_of(local_pos.x as int, local_pos.y as int, local_pos.z as int),
            r < CHUNK_VOLUME,
    {
        (local_pos.x + CHUNK_SIZE * (local_pos.y + CHUNK_SIZE * local_pos.z)) as usize
    }

    pub fn get_tile(&self, local_pos: GridPos) -> (r: Tile)
        requires
            self.wf(),
            local_in_range(local_pos.x as int, local_pos.y as int, local_pos.z as int),
        ensures
            r == self.spec_tile(local_pos.x as int, local_pos.y as int, local_pos.z as int),
    {
        self.tiles[Self::index(local_pos)]
    }

    /// Overwrite one slot; every other slot keeps its tile.
    pub fn set_tile(&mut self, local_pos: GridPos, tile: Tile)
        requires
            old(self).wf(),
            local_in_range(local_pos.x as int, local_pos.y as int, local_pos.z as int),
        ensures
            final(self).wf(),
            final(self)@ == old(self)@.update(
                local_index_of(local_pos.x as int, local_pos.y as int, local_pos.z as int),
                tile,
            ),
    {
        let idx = Self::index(local_pos);
        self.tiles.set(idx, tile);
    }

    /// Clear one slot back to the empty tile; every other slot keeps its tile.
    pub fn reset_tile(&mut self, local_pos: GridPos)
        requires
            old(self).wf(),
            local_in_range(local_pos.x as int, local_pos.y as int, local_pos.z as int),
        ensures
            final(self).wf(),
            final(self)@ == old(self)@.update(
                local_index_of(local_pos.x as int, local_pos.y as int, local_pos.z as int),
                Tile::empty_spec(),
            ),
    {
        self.set_tile(local_pos, Tile::default());
    }
}

} // verus!
