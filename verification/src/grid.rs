//! The chunked spatial occupancy grid of one island.
//!
//! Chunks are created lazily on first write and the grid is unbounded in
//! extent: reading a cell whose chunk does not exist yields the empty tile.

use vstd::prelude::*;
use crate::pos::{
    lemma_chunk_coord_bounds,
    GridPos, CHUNK_SIZE, chunk_coord_of, local_coord_of, world_to_chunk, world_to_local,
    lemma_coord_round_trip, lemma_coord_parts_injective,
};
use crate::chunk::{
    Chunk, CHUNK_VOLUME, local_index_of, local_in_range, lemma_local_index_injective,
};
use crate::tile::{Tile, TileKind, TerrainKind, EntityId};

verus! {

/// One chunk of the sparse grid, tagged with its chunk coordinate.
pub struct ChunkEntry {
    pub key: GridPos,
    pub chunk: Chunk,
}

/// No two occupant entity ids are recorded twice.
pub open spec fn entities_unique(s: Seq<EntityId>) -> bool {
    forall|i: int, j: int| 0 <= i < j < s.len() ==> s[i] != s[j]
}

/// No two entries share a chunk coordinate.
pub open spec fn keys_unique(s: Seq<ChunkEntry>) -> bool {
    forall|i: int, j: int| 0 <= i < j < s.len() ==> s[i].key != s[j].key
}

/// Chunk coordinates that some representable world cell maps to.
pub open spec fn key_in_range(k: GridPos) -> bool {
    &&& chunk_coord_of(i32::MIN as int) <= k.x as int <= chunk_coord_of(i32::MAX as int)
    &&& chunk_coord_of(i32::MIN as int) <= k.y as int <= chunk_coord_of(i32::MAX as int)
    &&& chunk_coord_of(i32::MIN as int) <= k.z as int <= chunk_coord_of(i32::MAX as int)
}

/// The index of the entry keyed `k`, if one is present.
pub open spec fn chunk_idx(s: Seq<ChunkEntry>, k: GridPos) -> Option<int>
    decreases s.len(),
{
    if s.len() == 0 {
        None
    } else if s.last().key == k {
        Some(s.len() - 1)
    } else {
        chunk_idx(s.drop_last(), k)
    }
}

pub proof fn lemma_chunk_idx_props(s: Seq<ChunkEntry>, k: GridPos)
    ensures
        match chunk_idx(s, k) {
            Some(i) => 0 <= i < s.len() && s[i].key == k,
            None => forall|j: int| 0 <= j < s.len() ==> s[j].key != k,
        },
    decreases s.len(),
{
    if s.len() > 0 && s.last().key != k {
        lemma_chunk_idx_props(s.drop_last(), k);
        assert(forall|j: int| 0 <= j < s.len() - 1 ==> s.drop_last()[j] == s[j]);
        assert(s[s.len() - 1] == s.last());
    }
}

/// With unique keys, any entry that carries `k` is the one `chunk_idx` finds.
pub proof fn lemma_chunk_idx_unique(s: Seq<ChunkEntry>, k: GridPos, i: int)
    requires
        keys_unique(s),
        0 <= i < s.len(),
        s[i].key == k,
    ensures
        chunk_idx(s, k) == Some(i),
{
    lemma_chunk_idx_props(s, k);
}

/// `chunk_idx` depends only on the sequence of keys.
pub proof fn lemma_chunk_idx_same_keys(s1: Seq<ChunkEntry>, s2: Seq<ChunkEntry>, k: GridPos)
    requires
        s1.len() == s2.len(),
        forall|i: int| 0 <= i < s1.len() ==> s1[i].key == s2[i].key,
    ensures
        chunk_idx(s1, k) == chunk_idx(s2, k),
    decreases s1.len(),
{
    if s1.len() > 0 {
        assert(s1.last().key == s2.last().key);
        if s1.last().key != k {
            assert(forall|i: int|
                0 <= i < s1.len() - 1 ==> s1.drop_last()[i].key == s2.drop_last()[i].key);
            lemma_chunk_idx_same_keys(s1.drop_last(), s2.drop_last(), k);
        }
    }
}

/// Appending an entry leaves every other key's lookup unchanged.
pub proof fn lemma_chunk_idx_push(s: Seq<ChunkEntry>, e: ChunkEntry, k: GridPos)
    ensures
        chunk_idx(s.push(e), k) == if e.key == k {
            Some(s.len() as int)
        } else {
            chunk_idx(s, k)
        },
{
    assert(s.push(e).last() == e);
    assert(s.push(e).drop_last() =~= s);
}

/// The chunked occupancy store of a single island: a sparse dictionary from
/// chunk coordinate to chunk, occupant counters, the designated portal cell,
/// and the set of entity ids present on the island.
pub struct SpatialGrid {
    chunks: Vec<ChunkEntry>,
    player_count: u32,
    enemy_count: u32,
    leave_position: GridPos,
    entities: Vec<EntityId>,
}

impl SpatialGrid {
    pub closed spec fn entries(self) -> Seq<ChunkEntry> {
        self.chunks@
    }

    pub closed spec fn spec_player_count(self) -> u32 {
        self.player_count
    }

    pub closed spec fn spec_enemy_count(self) -> u32 {
        self.enemy_count
    }

    pub closed spec fn spec_leave_position(self) -> GridPos {
        self.leave_position
    }

    pub closed spec fn spec_entities(self) -> Seq<EntityId> {
        self.entities@
    }

    pub open spec fn wf(self) -> bool {
        &&& keys_unique(self.entries())
        &&& forall|i: int|
            0 <= i < self.entries().len() ==> (#[trigger] self.entries()[i]).chunk.wf()
                && key_in_range(self.entries()[i].key)
        &&& entities_unique(self.spec_entities())
    }

    /// The entry index of a chunk coordinate triple, `None` when no such chunk
    /// exists or the triple lies outside the representable range.
    pub open spec fn spec_chunk_at(self, cx: int, cy: int, cz: int) -> Option<int> {
        if i32::MIN <= cx <= i32::MAX && i32::MIN <= cy <= i32::MAX && i32::MIN <= cz <= i32::MAX {
            chunk_idx(self.entries(), GridPos { x: cx as i32, y: cy as i32, z: cz as i32 })
        } else {
            None
        }
    }

    /// The mathematical contents of the grid: the tile at any integer cell.
    /// Cells in absent chunks hold the empty tile.
    pub open spec fn spec_tile_at(self, x: int, y: int, z: int) -> Tile {
        match self.spec_chunk_at(chunk_coord_of(x), chunk_coord_of(y), chunk_coord_of(z)) {
            Some(i) => self.entries()[i].chunk@[local_index_of(
                local_coord_of(x),
                local_coord_of(y),
                local_coord_of(z),
            )],
            None => Tile::empty_spec(),
        }
    }

    pub open spec fn spec_tile(self, p: GridPos) -> Tile {
        self.spec_tile_at(p.x as int, p.y as int, p.z as int)
    }

    /// A cell is walkable when the cell directly below is terrain and the cell
    /// itself holds nothing solid (empty, or a player that may be shared).
    pub open spec fn spec_can_move(self, p: GridPos) -> bool {
        &&& self.spec_tile_at(p.x as int, p.y as int - 1, p.z as int).kind is Terrain
        &&& (self.spec_tile(p).kind is Empty || self.spec_tile(p).kind is Player)
    }

    /// An empty grid: every cell reads as the empty tile.
    pub fn new() -> (r: SpatialGrid)
        ensures
            r.wf(),
            r.entries().len() == 0,
            forall|x: int, y: int, z: int| r.spec_tile_at(x, y, z) == Tile::empty_spec(),
            r.spec_player_count() == 0,
            r.spec_enemy_count() == 0,
            r.spec_leave_position() == (GridPos { x: 0, y: 0, z: 0 }),
            r.spec_entities().len() == 0,
    {
        SpatialGrid {
            chunks: Vec::new(),
            player_count: 0,
            enemy_count: 0,
            leave_position: GridPos { x: 0, y: 0, z: 0 },
            entities: Vec::new(),
        }
    }

    /// Linear scan for the entry holding a chunk coordinate.
    fn find_chunk(&self, key: GridPos) -> (r: Option<usize>)
        requires
            self.wf(),
        ensures
            match r {
                Some(i) => chunk_idx(self.entries(), key) == Some(i as int),
                None => chunk_idx(self.entries(), key) is None,
            },
    {
        let n = self.chunks.len();
        let mut i: usize = 0;
        while i < n
            invariant
                self.wf(),
                n == self.entries().len(),
                i <= n,
                forall|j: int| 0 <= j < i as int ==> self.entries()[j].key != key,
            decreases n - i,
        {
            if self.chunks[i].key == key {
                proof {
                    lemma_chunk_idx_unique(self.entries(), key, i as int);
                }
                return Some(i);
            }
            i = i + 1;
        }
        proof {
            lemma_chunk_idx_props(self.entries(), key);
        }
        None
    }

    /// Everything beside the cell contents: counters, portal cell, entity set.
    pub open spec fn same_meta(self, other: SpatialGrid) -> bool {
        &&& self.spec_player_count() == other.spec_player_count()
        &&& self.spec_enemy_count() == other.spec_enemy_count()
        &&& self.spec_leave_position() == other.spec_leave_position()
        &&& self.spec_entities() == other.spec_entities()
    }

    /// The index of the chunk covering `key`, creating a fresh (all-empty)
    /// chunk when none exists. No cell changes its contents.
    fn get_or_create_chunk_idx(&mut self, key: GridPos) -> (i: usize)
        requires
            old(self).wf(),
            key_in_range(key),
        ensures
            final(self).wf(),
            (i as int) < final(self).entries().len(),
            chunk_idx(final(self).entries(), key) == Some(i as int),
            forall|x: int, y: int, z: int|
                final(self).spec_tile_at(x, y, z) == old(self).spec_tile_at(x, y, z),
            final(self).same_meta(*old(self)),
            // the old entries are still in place; at most one entry was appended
            final(self).entries().len() >= old(self).entries().len(),
            forall|j: int|
                0 <= j < old(self).entries().len() ==> final(self).entries()[j] == old(
                    self,
                ).entries()[j],
    {
        match self.find_chunk(key) {
            Some(i) => {
                proof {
                    lemma_chunk_idx_props(self.entries(), key);
                }
                i
            },
            None => {
                proof {
                    lemma_chunk_idx_props(self.entries(), key);
                }
                let ghost old_entries = self.chunks@;
                let entry = ChunkEntry { key, chunk: Chunk::new() };
                let ghost ge = entry;
                self.chunks.push(entry);
                let i = self.chunks.len() - 1;
                proof {
                    let s = self.chunks@;
                    assert(s == old_entries.push(ge));
                    assert(forall|j: int| 0 <= j < old_entries.len() ==> s[j] == old_entries[j]);
                    assert(forall|j: int|
                        0 <= j < old_entries.len() ==> old_entries[j].key != key);
                    assert forall|j1: int, j2: int| 0 <= j1 < j2 < s.len() implies s[j1].key
                        != s[j2].key by {
                        if j2 == old_entries.len() as int {
                            assert(s[j1].key != key);
                        }
                    }
                    assert forall|k2: GridPos|
                        chunk_idx(s, k2) == if k2 == key {
                            Some(old_entries.len() as int)
                        } else {
                            chunk_idx(old_entries, k2)
                        } by {
                        lemma_chunk_idx_push(old_entries, ge, k2);
                    }
                    assert(self.spec_entities() == old(self).spec_entities());
                    assert forall|e1: int, e2: int|
                        0 <= e1 < e2 < self.spec_entities().len() implies self.spec_entities()[e1]
                        != self.spec_entities()[e2] by {
                        assert(old(self).spec_entities()[e1] != old(self).spec_entities()[e2]);
                    }
                    assert(self.wf());
                    assert forall|x: int, y: int, z: int|
                        self.spec_tile_at(x, y, z) == old(self).spec_tile_at(x, y, z) by {
                        let cx = chunk_coord_of(x);
                        let cy = chunk_coord_of(y);
                        let cz = chunk_coord_of(z);
                        if i32::MIN <= cx <= i32::MAX && i32::MIN <= cy <= i32::MAX && i32::MIN
                            <= cz <= i32::MAX {
                            let k2 = GridPos { x: cx as i32, y: cy as i32, z: cz as i32 };
                            if k2 == key {
                                lemma_coord_round_trip(x);
                                lemma_coord_round_trip(y);
                                lemma_coord_round_trip(z);
                                assert(chunk_idx(old_entries, k2) is None);
                                assert(chunk_idx(s, k2) == Some(old_entries.len() as int));
                                assert(s[old_entries.len() as int].chunk@[local_index_of(
                                    local_coord_of(x),
                                    local_coord_of(y),
                                    local_coord_of(z),
                                )] == Tile::empty_spec());
                            } else {
                                assert(chunk_idx(s, k2) == chunk_idx(old_entries, k2));
                                lemma_chunk_idx_props(old_entries, k2);
                            }
                        }
                    }
                }
                i
            },
        }
    }

    /// Write a tile at a world position, creating the containing chunk when
    /// needed; every other cell keeps its contents.
    pub fn add_entity_at(&mut self, position: GridPos, tile: Tile)
        requires
            old(self).wf(),
        ensures
            final(self).wf(),
            final(self).spec_tile(position) == tile,
            forall|x: int, y: int, z: int|
                !(x == position.x as int && y == position.y as int && z == position.z as int)
                    ==> final(self).spec_tile_at(x, y, z) == old(self).spec_tile_at(x, y, z),
            final(self).same_meta(*old(self)),
    {
        proof {
            lemma_coord_round_trip(position.x as int);
            lemma_coord_round_trip(position.y as int);
            lemma_coord_round_trip(position.z as int);
        }
        let key = world_to_chunk(position);
        let i = self.get_or_create_chunk_idx(key);
        self.set_tile_at_entry(i, position, tile);
    }

    /// Overwrite the cell of `position` inside the already-present entry `i`.
    fn set_tile_at_entry(&mut self, i: usize, position: GridPos, tile: Tile)
        requires
            old(self).wf(),
            chunk_idx(
                old(self).entries(),
                GridPos {
                    x: chunk_coord_of(position.x as int) as i32,
                    y: chunk_coord_of(position.y as int) as i32,
                    z: chunk_coord_of(position.z as int) as i32,
                },
            ) == Some(i as int),
        ensures
            final(self).wf(),
            final(self).spec_tile(position) == tile,
            forall|x: int, y: int, z: int|
                !(x == position.x as int && y == position.y as int && z == position.z as int)
                    ==> final(self).spec_tile_at(x, y, z) == old(self).spec_tile_at(x, y, z),
            final(self).same_meta(*old(self)),
            final(self).entries().len() == old(self).entries().len(),
    {
        proof {
            lemma_coord_round_trip(position.x as int);
            lemma_coord_round_trip(position.y as int);
            lemma_coord_round_trip(position.z as int);
        }
        let key = world_to_chunk(position);
        let local = world_to_local(position);
        let ghost mid = *self;
        proof {
            lemma_chunk_coord_bounds(position.x as int);
            lemma_chunk_coord_bounds(position.y as int);
            lemma_chunk_coord_bounds(position.z as int);
            assert(key == GridPos {
                x: chunk_coord_of(position.x as int) as i32,
                y: chunk_coord_of(position.y as int) as i32,
                z: chunk_coord_of(position.z as int) as i32,
            });
            lemma_chunk_idx_props(mid.entries(), key);
        }
        let entry = &mut self.chunks[i];
        entry.chunk.set_tile(local, tile);
        proof {
            let s = self.chunks@;
            let pli = local_index_of(
                local_coord_of(position.x as int),
                local_coord_of(position.y as int),
                local_coord_of(position.z as int),
            );
            assert(forall|j: int| 0 <= j < s.len() ==> s[j].key == mid.entries()[j].key);
            assert forall|k2: GridPos|
                chunk_idx(s, k2) == chunk_idx(mid.entries(), k2) by {
                lemma_chunk_idx_same_keys(s, mid.entries(), k2);
            }
            assert(self.wf());
            assert(self.spec_tile(position) == tile);
            assert forall|x: int, y: int, z: int|
                !(x == position.x as int && y == position.y as int && z == position.z as int)
                    implies self.spec_tile_at(x, y, z) == old(self).spec_tile_at(x, y, z) by {
                let cx = chunk_coord_of(x);
                let cy = chunk_coord_of(y);
                let cz = chunk_coord_of(z);
                if i32::MIN <= cx <= i32::MAX && i32::MIN <= cy <= i32::MAX && i32::MIN <= cz
                    <= i32::MAX {
                    let k2 = GridPos { x: cx as i32, y: cy as i32, z: cz as i32 };
                    if k2 == key {
                        // same chunk: the write hit a different slot
                        lemma_coord_round_trip(x);
                        lemma_coord_round_trip(y);
                        lemma_coord_round_trip(z);
                        if local_index_of(local_coord_of(x), local_coord_of(y), local_coord_of(z))
                            == pli {
                            lemma_local_index_injective(
                                local_coord_of(x),
                                local_coord_of(y),
                                local_coord_of(z),
                                local_coord_of(position.x as int),
                                local_coord_of(position.y as int),
                                local_coord_of(position.z as int),
                            );
                            lemma_coord_parts_injective(x, position.x as int);
                            lemma_coord_parts_injective(y, position.y as int);
                            lemma_coord_parts_injective(z, position.z as int);
                            assert(false);
                        }
                    } else {
                        // different chunk: that entry was not touched
                        if chunk_idx(s, k2) is Some {
                            lemma_chunk_idx_props(s, k2);
                            lemma_chunk_idx_props(mid.entries(), k2);
                        }
                    }
                }
            }
        }
    }

    /// Cells below the representable world are empty: no stored chunk covers
    /// that region.
    pub proof fn lemma_below_world_empty(self, x: int, y: int, z: int)
        requires
            self.wf(),
            y < i32::MIN as int,
        ensures
            self.spec_tile_at(x, y, z) == Tile::empty_spec(),
    {
        let cy = chunk_coord_of(y);
        vstd::arithmetic::div_mod::lemma_div_is_ordered(y, i32::MIN as int - 1, CHUNK_SIZE as int);
        assert(chunk_coord_of(y) <= chunk_coord_of(i32::MIN as int - 1));
        assert(chunk_coord_of(i32::MIN as int - 1) == chunk_coord_of(i32::MIN as int) - 1) by {
            vstd::arithmetic::div_mod::lemma_fundamental_div_mod_converse(
                i32::MIN as int - 1,
                CHUNK_SIZE as int,
                chunk_coord_of(i32::MIN as int) - 1,
                CHUNK_SIZE as int - 1,
            );
        }
        let cx = chunk_coord_of(x);
        let cz = chunk_coord_of(z);
        if i32::MIN <= cx <= i32::MAX && i32::MIN <= cy <= i32::MAX && i32::MIN <= cz <= i32::MAX {
            let k = GridPos { x: cx as i32, y: cy as i32, z: cz as i32 };
            lemma_chunk_idx_props(self.entries(), k);
            if chunk_idx(self.entries(), k) is Some {
                assert(false);
            }
        }
    }

    /// Walkability: the cell below is terrain and the cell itself is empty or
    /// holds a player.
    pub fn can_move(&self, position: GridPos) -> (r: bool)
        requires
            self.wf(),
        ensures
            r == self.spec_can_move(position),
    {
        let below = match position.below() {
            Some(b) => b,
            None => {
                proof {
                    self.lemma_below_world_empty(
                        position.x as int,
                        position.y as int - 1,
                        position.z as int,
                    );
                }
                return false;
            },
        };
        let below_tile = self.get_tile(below);
        let supported = match below_tile.kind {
            TileKind::Terrain(_) => true,
            _ => false,
        };
        if !supported {
            return false;
        }
        match self.get_tile(position).kind {
            TileKind::Empty | TileKind::Player => true,
            _ => false,
        }
    }

    /// The attackable occupant of a cell: a player or enemy standing there.
    /// Terrain and empty cells are not targets.
    pub open spec fn spec_get_target(self, p: GridPos) -> Option<EntityId> {
        let t = self.spec_tile(p);
        if t.kind is Player || t.kind is Enemy {
            Some(t.entity)
        } else {
            None
        }
    }

    pub fn get_target(&self, position: GridPos) -> (r: Option<EntityId>)
        requires
            self.wf(),
        ensures
            r == self.spec_get_target(position),
    {
        let tile = self.get_tile(position);
        match tile.kind {
            TileKind::Player | TileKind::Enemy => Some(tile.entity),
            _ => None,
        }
    }

    /// Clear the cell of a world position back to the empty tile; every other
    /// cell keeps its contents. A cell in an absent chunk is already empty and
    /// no chunk is created for it.
    pub fn remove_entity(&mut self, position: GridPos)
        requires
            old(self).wf(),
        ensures
            final(self).wf(),
            final(self).spec_tile(position) == Tile::empty_spec(),
            forall|x: int, y: int, z: int|
                !(x == position.x as int && y == position.y as int && z == position.z as int)
                    ==> final(self).spec_tile_at(x, y, z) == old(self).spec_tile_at(x, y, z),
            final(self).same_meta(*old(self)),
            // clearing never creates a chunk; with the chunk absent the grid
            // is left entirely as it was
            final(self).entries().len() == old(self).entries().len(),
            old(self).spec_chunk_at(
                chunk_coord_of(position.x as int),
                chunk_coord_of(position.y as int),
                chunk_coord_of(position.z as int),
            ) is None ==> *final(self) == *old(self),
    {
        proof {
            lemma_coord_round_trip(position.x as int);
            lemma_coord_round_trip(position.y as int);
            lemma_coord_round_trip(position.z as int);
            lemma_chunk_coord_bounds(position.x as int);
            lemma_chunk_coord_bounds(position.y as int);
            lemma_chunk_coord_bounds(position.z as int);
        }
        let key = world_to_chunk(position);
        match self.find_chunk(key) {
            Some(i) => {
                self.set_tile_at_entry(i, position, Tile::default());
            },
            None => {
                proof {
                    assert(self.spec_tile(position) == Tile::empty_spec());
                }
            },
        }
    }

    /// Write a tile at the world position given by its three coordinates.
    pub fn add_entity(&mut self, x: i32, y: i32, z: i32, tile: Tile)
        requires
            old(self).wf(),
        ensures
            final(self).wf(),
            final(self).spec_tile(GridPos { x, y, z }) == tile,
            forall|qx: int, qy: int, qz: int|
                !(qx == x as int && qy == y as int && qz == z as int) ==> final(self).spec_tile_at(
                    qx,
                    qy,
                    qz,
                ) == old(self).spec_tile_at(qx, qy, qz),
            final(self).same_meta(*old(self)),
    {
        self.add_entity_at(GridPos { x, y, z }, tile);
    }

    /// Record an entity id as present on the island (no effect when it is
    /// already recorded).
    pub fn insert_entity(&mut self, entity: EntityId)
        requires
            old(self).wf(),
        ensures
            final(self).wf(),
            final(self).spec_entities().contains(entity),
            forall|e: EntityId|
                #[trigger] final(self).spec_entities().contains(e) <==> (old(
                    self,
                ).spec_entities().contains(e) || e == entity),
            forall|x: int, y: int, z: int|
                final(self).spec_tile_at(x, y, z) == old(self).spec_tile_at(x, y, z),
            final(self).spec_player_count() == old(self).spec_player_count(),
            final(self).spec_enemy_count() == old(self).spec_enemy_count(),
            final(self).spec_leave_position() == old(self).spec_leave_position(),
    {
        let n = self.entities.len();
        let mut i: usize = 0;
        while i < n
            invariant
                old(self) == self,
                old(self).wf(),
                n == self.spec_entities().len(),
                i <= n,
                forall|j: int| 0 <= j < i as int ==> self.spec_entities()[j] != entity,
            decreases n - i,
        {
            if self.entities[i] == entity {
                assert(self.spec_entities().contains(entity));
                return ;
            }
            i = i + 1;
        }
        let ghost old_entities = self.entities@;
        self.entities.push(entity);
        proof {
            assert(self.spec_entities() == old_entities.push(entity));
            assert(self.spec_entities()[old_entities.len() as int] == entity);
            assert(self.spec_entities().contains(entity));
            assert forall|e: EntityId| #[trigger]
                self.spec_entities().contains(e) <==> (old_entities.contains(e) || e
                    == entity) by {
                if self.spec_entities().contains(e) {
                    let w = choose|w: int|
                        0 <= w < self.spec_entities().len() && self.spec_entities()[w] == e;
                    if w < old_entities.len() {
                        assert(old_entities[w] == e);
                    }
                } else {
                    assert(!old_entities.contains(e)) by {
                        if old_entities.contains(e) {
                            let w = choose|w: int|
                                0 <= w < old_entities.len() && old_entities[w] == e;
                            assert(self.spec_entities()[w] == e);
                        }
                    }
                }
            }
            assert(entities_unique(self.spec_entities())) by {
                assert forall|j1: int, j2: int|
                    0 <= j1 < j2 < self.spec_entities().len() implies self.spec_entities()[j1]
                    != self.spec_entities()[j2] by {
                    if j2 == old_entities.len() as int {
                        assert(old_entities[j1] != entity);
                    }
                }
            }
        }
    }

    /// Drop an entity id from the island's record.
    pub fn remove_entity_id(&mut self, entity: EntityId)
        requires
            old(self).wf(),
        ensures
            final(self).wf(),
            !final(self).spec_entities().contains(entity),
            forall|e: EntityId|
                e != entity ==> (#[trigger] final(self).spec_entities().contains(e) <==> old(
                    self,
                ).spec_entities().contains(e)),
            forall|x: int, y: int, z: int|
                final(self).spec_tile_at(x, y, z) == old(self).spec_tile_at(x, y, z),
            final(self).spec_player_count() == old(self).spec_player_count(),
            final(self).spec_enemy_count() == old(self).spec_enemy_count(),
            final(self).spec_leave_position() == old(self).spec_leave_position(),
    {
        let n = self.entities.len();
        let mut i: usize = 0;
        while i < n
            invariant
                old(self) == self,
                old(self).wf(),
                n == self.spec_entities().len(),
                i <= n,
                forall|j: int| 0 <= j < i as int ==> self.spec_entities()[j] != entity,
            decreases n - i,
        {
            if self.entities[i] == entity {
                let ghost old_entities = self.entities@;
                self.entities.remove(i);
                proof {
                    assert(self.spec_entities() == old_entities.remove(i as int));
                    assert forall|j: int|
                        0 <= j < self.spec_entities().len() implies self.spec_entities()[j]
                        != entity by {
                        if j < i as int {
                            assert(self.spec_entities()[j] == old_entities[j]);
                        } else {
                            assert(self.spec_entities()[j] == old_entities[j + 1]);
                            assert(old_entities[i as int] == entity);
                        }
                    }
                    assert(!self.spec_entities().contains(entity));
                    assert forall|e: EntityId| e != entity implies (#[trigger] self.spec_entities(
                    ).contains(e) <==> old_entities.contains(e)) by {
                        if self.spec_entities().contains(e) {
                            let w = choose|w: int|
                                0 <= w < self.spec_entities().len() && self.spec_entities()[w]
                                    == e;
                            if w < i as int {
                                assert(old_entities[w] == e);
                            } else {
                                assert(old_entities[w + 1] == e);
                            }
                        }
                        if old_entities.contains(e) {
                            let w = choose|w: int|
                                0 <= w < old_entities.len() && old_entities[w] == e;
                            if w < i as int {
                                assert(self.spec_entities()[w] == e);
                            } else {
                                assert(w != i as int);
                                assert(self.spec_entities()[w - 1] == e);
                            }
                        }
                    }
                    assert(entities_unique(self.spec_entities())) by {
                        assert forall|j1: int, j2: int|
                            0 <= j1 < j2 < self.spec_entities().len() implies self.spec_entities(
                        )[j1] != self.spec_entities()[j2] by {
                            let w1 = if j1 < i as int {
                                j1
                            } else {
                                j1 + 1
                            };
                            let w2 = if j2 < i as int {
                                j2
                            } else {
                                j2 + 1
                            };
                            assert(old_entities[w1] != old_entities[w2]);
                        }
                    }
                }
                return ;
            }
            i = i + 1;
        }
        proof {
            assert(!self.spec_entities().contains(entity)) by {
                if self.spec_entities().contains(entity) {
                    let w = choose|w: int|
                        0 <= w < self.spec_entities().len() && self.spec_entities()[w] == entity;
                }
            }
        }
    }

    /// Place a player occupant: writes the tile, bumps the player counter and
    /// records the entity id.
    pub fn add_player(&mut self, position: GridPos, entity: EntityId)
        requires
            old(self).wf(),
            old(self).spec_player_count() < u32::MAX,
        ensures
            final(self).wf(),
            final(self).spec_tile(position) == (Tile { kind: TileKind::Player, entity }),
            forall|x: int, y: int, z: int|
                !(x == position.x as int && y == position.y as int && z == position.z as int)
                    ==> final(self).spec_tile_at(x, y, z) == old(self).spec_tile_at(x, y, z),
            final(self).spec_player_count() == old(self).spec_player_count() + 1,
            final(self).spec_enemy_count() == old(self).spec_enemy_count(),
            final(self).spec_leave_position() == old(self).spec_leave_position(),
            final(self).spec_entities().contains(entity),
            forall|e: EntityId|
                #[trigger] final(self).spec_entities().contains(e) <==> (old(
                    self,
                ).spec_entities().contains(e) || e == entity),
    {
        self.player_count = self.player_count + 1;
        self.add_entity_at(position, Tile::new(TileKind::Player, entity));
        self.insert_entity(entity);
    }

    /// Place an enemy occupant: writes the tile, bumps the enemy counter and
    /// records the entity id.
    pub fn add_enemy(&mut self, position: GridPos, entity: EntityId)
        requires
            old(self).wf(),
            old(self).spec_enemy_count() < u32::MAX,
        ensures
            final(self).wf(),
            final(self).spec_tile(position) == (Tile { kind: TileKind::Enemy, entity }),
            forall|x: int, y: int, z: int|
                !(x == position.x as int && y == position.y as int && z == position.z as int)
                    ==> final(self).spec_tile_at(x, y, z) == old(self).spec_tile_at(x, y, z),
            final(self).spec_enemy_count() == old(self).spec_enemy_count() + 1,
            final(self).spec_player_count() == old(self).spec_player_count(),
            final(self).spec_leave_position() == old(self).spec_leave_position(),
            final(self).spec_entities().contains(entity),
            forall|e: EntityId|
                #[trigger] final(self).spec_entities().contains(e) <==> (old(
                    self,
                ).spec_entities().contains(e) || e == entity),
    {
        self.enemy_count = self.enemy_count + 1;
        self.add_entity_at(position, Tile::new(TileKind::Enemy, entity));
        self.insert_entity(entity);
    }

    /// Rewrite the cell of `position` with an occupant tile, following the
    /// remove-then-add protocol.
    pub fn update_position(&mut self, entity: EntityId, position: GridPos, kind: TileKind)
        requires
            old(self).wf(),
        ensures
            final(self).wf(),
            final(self).spec_tile(position) == (Tile { kind, entity }),
            forall|x: int, y: int, z: int|
                !(x == position.x as int && y == position.y as int && z == position.z as int)
                    ==> final(self).spec_tile_at(x, y, z) == old(self).spec_tile_at(x, y, z),
            final(self).same_meta(*old(self)),
    {
        self.remove_entity(position);
        self.add_entity_at(position, Tile::new(kind, entity));
    }

    /// Clear all chunks, the player counter and the portal cell. The enemy
    /// counter and the entity record are left for the teardown sweep.
    pub fn reset(&mut self)
        requires
            old(self).wf(),
        ensures
            final(self).wf(),
            forall|x: int, y: int, z: int| final(self).spec_tile_at(x, y, z) == Tile::empty_spec(),
            final(self).spec_player_count() == 0,
            final(self).spec_leave_position() == (GridPos { x: 0, y: 0, z: 0 }),
            final(self).spec_enemy_count() == old(self).spec_enemy_count(),
            final(self).spec_entities() == old(self).spec_entities(),
    {
        self.chunks = Vec::new();
        self.player_count = 0;
        self.leave_position = GridPos { x: 0, y: 0, z: 0 };
    }

    /// How many chunks have been created.
    pub fn chunk_count(&self) -> (r: usize)
        ensures
            r == self.entries().len(),
    {
        self.chunks.len()
    }

    pub fn player_count(&self) -> (r: u32)
        ensures
            r == self.spec_player_count(),
    {
        self.player_count
    }

    pub fn enemy_count(&self) -> (r: u32)
        ensures
            r == self.spec_enemy_count(),
    {
        self.enemy_count
    }

    pub fn leave_position(&self) -> (r: GridPos)
        ensures
            r == self.spec_leave_position(),
    {
        self.leave_position
    }

    pub fn set_leave_position(&mut self, position: GridPos)
        requires
            old(self).wf(),
        ensures
            final(self).wf(),
            final(self).spec_leave_position() == position,
            forall|x: int, y: int, z: int|
                final(self).spec_tile_at(x, y, z) == old(self).spec_tile_at(x, y, z),
            final(self).spec_player_count() == old(self).spec_player_count(),
            final(self).spec_enemy_count() == old(self).spec_enemy_count(),
            final(self).spec_entities() == old(self).spec_entities(),
    {
        self.leave_position = position;
    }

    /// Drop the player counter by one, stopping at zero.
    pub fn saturating_dec_player_count(&mut self)
        requires
            old(self).wf(),
        ensures
            final(self).wf(),
            final(self).spec_player_count() == if old(self).spec_player_count() > 0 {
                old(self).spec_player_count() - 1
            } else {
                0int
            },
            forall|x: int, y: int, z: int|
                final(self).spec_tile_at(x, y, z) == old(self).spec_tile_at(x, y, z),
            final(self).spec_enemy_count() == old(self).spec_enemy_count(),
            final(self).spec_leave_position() == old(self).spec_leave_position(),
            final(self).spec_entities() == old(self).spec_entities(),
    {
        if self.player_count > 0 {
            self.player_count = self.player_count - 1;
        }
    }

    /// Drop the enemy counter by one, stopping at zero.
    pub fn saturating_dec_enemy_count(&mut self)
        requires
            old(self).wf(),
        ensures
            final(self).wf(),
            final(self).spec_enemy_count() == if old(self).spec_enemy_count() > 0 {
                old(self).spec_enemy_count() - 1
            } else {
                0int
            },
            forall|x: int, y: int, z: int|
                final(self).spec_tile_at(x, y, z) == old(self).spec_tile_at(x, y, z),
            final(self).spec_player_count() == old(self).spec_player_count(),
            final(self).spec_leave_position() == old(self).spec_leave_position(),
            final(self).spec_entities() == old(self).spec_entities(),
    {
        if self.enemy_count > 0 {
            self.enemy_count = self.enemy_count - 1;
        }
    }

    /// Pre-create the chunks in a horizontal square around the player's
    /// chunk. No cell changes its contents: a fresh chunk reads all-empty,
    /// exactly as its cells did before.
    pub fn load_chunks_around(&mut self, player_pos: GridPos, load_radius: i32)
        requires
            old(self).wf(),
        ensures
            final(self).wf(),
            forall|x: int, y: int, z: int|
                final(self).spec_tile_at(x, y, z) == old(self).spec_tile_at(x, y, z),
            final(self).same_meta(*old(self)),
    {
        let center = world_to_chunk(player_pos);
        let radius = load_radius as i64;
        let mut dx: i64 = -radius;
        while dx <= radius
            invariant
                self.wf(),
                radius == load_radius as int,
                -radius <= dx,
                center.y as int == chunk_coord_of(player_pos.y as int),
                forall|x: int, y: int, z: int|
                    #[trigger] self.spec_tile_at(x, y, z) == old(self).spec_tile_at(x, y, z),
                self.same_meta(*old(self)),
            decreases radius - dx + 1,
        {
            let mut dz: i64 = -radius;
            while dz <= radius
                invariant
                    self.wf(),
                    radius == load_radius as int,
                    -radius <= dz,
                    -radius <= dx <= radius,
                    center.y as int == chunk_coord_of(player_pos.y as int),
                    forall|x: int, y: int, z: int|
                        #[trigger] self.spec_tile_at(x, y, z) == old(self).spec_tile_at(x, y, z),
                    self.same_meta(*old(self)),
                decreases radius - dz + 1,
            {
                let kx = center.x as i64 + dx;
                let kz = center.z as i64 + dz;
                let lo = i32::MIN as i64 / CHUNK_SIZE as i64;
                let hi = i32::MAX as i64 / CHUNK_SIZE as i64;
                proof {
                    assert(lo == chunk_coord_of(i32::MIN as int));
                    assert(hi == chunk_coord_of(i32::MAX as int));
                }
                if lo <= kx && kx <= hi && lo <= kz && kz <= hi {
                    let key = GridPos { x: kx as i32, y: center.y, z: kz as i32 };
                    proof {
                        lemma_chunk_coord_bounds(player_pos.y as int);
                    }
                    let _ = self.get_or_create_chunk_idx(key);
                }
                dz = dz + 1;
            }
            dx = dx + 1;
        }
    }

    /// Drop every chunk whose horizontal chunk coordinate lies outside the
    /// given radius of the player's chunk: cells of dropped chunks read empty
    /// afterwards; cells of kept chunks are untouched.
    pub fn unload_chunks_far_from(&mut self, player_pos: GridPos, unload_radius: i32)
        requires
            old(self).wf(),
            unload_radius >= 0,
        ensures
            final(self).wf(),
            forall|x: int, y: int, z: int|
                crate::movement::abs_diff(chunk_coord_of(x), chunk_coord_of(player_pos.x as int))
                    <= unload_radius as int && crate::movement::abs_diff(
                    chunk_coord_of(z),
                    chunk_coord_of(player_pos.z as int),
                ) <= unload_radius as int ==> #[trigger] final(self).spec_tile_at(x, y, z) == old(
                    self,
                ).spec_tile_at(x, y, z),
            forall|x: int, y: int, z: int|
                !(crate::movement::abs_diff(chunk_coord_of(x), chunk_coord_of(player_pos.x as int))
                    <= unload_radius as int && crate::movement::abs_diff(
                    chunk_coord_of(z),
                    chunk_coord_of(player_pos.z as int),
                ) <= unload_radius as int) ==> #[trigger] final(self).spec_tile_at(x, y, z)
                    == Tile::empty_spec(),
            final(self).same_meta(*old(self)),
    {
        let center = world_to_chunk(player_pos);
        let ghost orig = self.chunks@;
        let mut rest: Vec<ChunkEntry> = Vec::new();
        core::mem::swap(&mut self.chunks, &mut rest);
        let ghost mut k: int = 0;
        while rest.len() > 0
            invariant
                keys_unique(orig),
                orig == old(self).entries(),
                self.same_meta(*old(self)),
                old(self).wf(),
                forall|i: int|
                    0 <= i < orig.len() ==> (#[trigger] orig[i]).chunk.wf() && key_in_range(
                        orig[i].key,
                    ),
                0 <= k <= orig.len(),
                rest@ == orig.subrange(k, orig.len() as int),
                keys_unique(self.chunks@),
                forall|i: int|
                    0 <= i < self.chunks@.len() ==> (#[trigger] self.chunks@[i]).chunk.wf()
                        && key_in_range(self.chunks@[i].key),
                center.x == chunk_coord_of(player_pos.x as int),
                center.z == chunk_coord_of(player_pos.z as int),
                unload_radius >= 0,
                forall|key: GridPos|
                    #[trigger] chunk_idx(self.chunks@, key) is Some <==> exists|j: int|
                        0 <= j < k && (#[trigger] orig[j]).key == key && crate::movement::abs_diff(
                            key.x as int,
                            center.x as int,
                        ) <= unload_radius as int && crate::movement::abs_diff(
                            key.z as int,
                            center.z as int,
                        ) <= unload_radius as int,
                forall|key: GridPos|
                    chunk_idx(self.chunks@, key) is Some ==> self.chunks@[chunk_idx(
                        self.chunks@,
                        key,
                    )->Some_0] == orig[chunk_idx(orig, key)->Some_0],
            decreases rest.len(),
        {
            let entry = rest.remove(0);
            let ghost ge = entry;
            proof {
                assert(orig[k] == ge);
                assert(rest@ == orig.subrange(k + 1, orig.len() as int));
            }
            let dxw = entry.key.x as i64 - center.x as i64;
            let dzw = entry.key.z as i64 - center.z as i64;
            let ddx: i64 = if dxw >= 0 {
                dxw
            } else {
                -dxw
            };
            let ddz: i64 = if dzw >= 0 {
                dzw
            } else {
                -dzw
            };
            let keep = ddx <= unload_radius as i64 && ddz <= unload_radius as i64;
            if keep {
                let ghost pre_kept = self.chunks@;
                self.chunks.push(entry);
                proof {
                    assert(self.chunks@ == pre_kept.push(ge));
                    assert(forall|j: int|
                        0 <= j < pre_kept.len() ==> self.chunks@[j] == pre_kept[j]);
                    assert forall|key: GridPos|
                        chunk_idx(self.chunks@, key) == if ge.key == key {
                            Some(pre_kept.len() as int)
                        } else {
                            chunk_idx(pre_kept, key)
                        } by {
                        lemma_chunk_idx_push(pre_kept, ge, key);
                    }
                    assert(!(chunk_idx(pre_kept, ge.key) is Some)) by {
                        if chunk_idx(pre_kept, ge.key) is Some {
                            let j = choose|j: int|
                                0 <= j < k && (#[trigger] orig[j]).key == ge.key
                                    && crate::movement::abs_diff(ge.key.x as int, center.x as int)
                                    <= unload_radius as int && crate::movement::abs_diff(
                                    ge.key.z as int,
                                    center.z as int,
                                ) <= unload_radius as int;
                            assert(orig[j].key == orig[k].key);
                        }
                    }
                    assert forall|j1: int, j2: int|
                        0 <= j1 < j2 < self.chunks@.len() implies self.chunks@[j1].key
                        != self.chunks@[j2].key by {
                        if j2 == pre_kept.len() as int {
                            lemma_chunk_idx_unique(pre_kept, self.chunks@[j1].key, j1);
                        }
                    }
                    assert forall|key: GridPos|
                        #[trigger] chunk_idx(self.chunks@, key) is Some <==> exists|j: int|
                            0 <= j < k + 1 && (#[trigger] orig[j]).key == key
                                && crate::movement::abs_diff(key.x as int, center.x as int)
                                <= unload_radius as int && crate::movement::abs_diff(
                                key.z as int,
                                center.z as int,
                            ) <= unload_radius as int by {
                        if chunk_idx(self.chunks@, key) is Some {
                            if ge.key == key {
                                assert(orig[k].key == key);
                            } else {
                                let j = choose|j: int|
                                    0 <= j < k && (#[trigger] orig[j]).key == key
                                        && crate::movement::abs_diff(
                                        key.x as int,
                                        center.x as int,
                                    ) <= unload_radius as int && crate::movement::abs_diff(
                                        key.z as int,
                                        center.z as int,
                                    ) <= unload_radius as int;
                            }
                        } else {
                            if exists|j: int|
                                0 <= j < k + 1 && (#[trigger] orig[j]).key == key
                                    && crate::movement::abs_diff(key.x as int, center.x as int)
                                    <= unload_radius as int && crate::movement::abs_diff(
                                    key.z as int,
                                    center.z as int,
                                ) <= unload_radius as int {
                                let j = choose|j: int|
                                    0 <= j < k + 1 && (#[trigger] orig[j]).key == key
                                        && crate::movement::abs_diff(
                                        key.x as int,
                                        center.x as int,
                                    ) <= unload_radius as int && crate::movement::abs_diff(
                                        key.z as int,
                                        center.z as int,
                                    ) <= unload_radius as int;
                                assert(j == k);
                                assert(ge.key == key);
                                assert(false);
                            }
                        }
                    }
                    assert forall|key: GridPos| chunk_idx(self.chunks@, key) is Some implies self.chunks@[chunk_idx(
                        self.chunks@,
                        key,
                    )->Some_0] == orig[chunk_idx(orig, key)->Some_0] by {
                        if ge.key == key {
                            lemma_chunk_idx_unique(orig, key, k);
                        } else {
                            lemma_chunk_idx_props(pre_kept, key);
                        }
                    }
                    k = k + 1;
                }
            } else {
                proof {
                    assert forall|key: GridPos|
                        #[trigger] chunk_idx(self.chunks@, key) is Some <==> exists|j: int|
                            0 <= j < k + 1 && (#[trigger] orig[j]).key == key
                                && crate::movement::abs_diff(key.x as int, center.x as int)
                                <= unload_radius as int && crate::movement::abs_diff(
                                key.z as int,
                                center.z as int,
                            ) <= unload_radius as int by {
                        if chunk_idx(self.chunks@, key) is Some {
                            let j = choose|j: int|
                                0 <= j < k && (#[trigger] orig[j]).key == key
                                    && crate::movement::abs_diff(key.x as int, center.x as int)
                                    <= unload_radius as int && crate::movement::abs_diff(
                                    key.z as int,
                                    center.z as int,
                                ) <= unload_radius as int;
                        } else {
                            if exists|j: int|
                                0 <= j < k + 1 && (#[trigger] orig[j]).key == key
                                    && crate::movement::abs_diff(key.x as int, center.x as int)
                                    <= unload_radius as int && crate::movement::abs_diff(
                                    key.z as int,
                                    center.z as int,
                                ) <= unload_radius as int {
                                let j = choose|j: int|
                                    0 <= j < k + 1 && (#[trigger] orig[j]).key == key
                                        && crate::movement::abs_diff(
                                        key.x as int,
                                        center.x as int,
                                    ) <= unload_radius as int && crate::movement::abs_diff(
                                        key.z as int,
                                        center.z as int,
                                    ) <= unload_radius as int;
                                assert(j == k);
                                assert(false);
                            }
                        }
                    }
                    k = k + 1;
                }
            }
        }
        proof {
            assert(k == orig.len());
            let pc_x = chunk_coord_of(player_pos.x as int);
            let pc_z = chunk_coord_of(player_pos.z as int);
            assert forall|x: int, y: int, z: int|
                {
                    &&& (crate::movement::abs_diff(chunk_coord_of(x), pc_x) <= unload_radius as int
                        && crate::movement::abs_diff(chunk_coord_of(z), pc_z)
                        <= unload_radius as int ==> #[trigger] self.spec_tile_at(x, y, z) == old(
                        self,
                    ).spec_tile_at(x, y, z))
                    &&& (!(crate::movement::abs_diff(chunk_coord_of(x), pc_x)
                        <= unload_radius as int && crate::movement::abs_diff(chunk_coord_of(z), pc_z)
                        <= unload_radius as int) ==> self.spec_tile_at(x, y, z)
                        == Tile::empty_spec())
                } by {
                let cx = chunk_coord_of(x);
                let cy = chunk_coord_of(y);
                let cz = chunk_coord_of(z);
                if i32::MIN <= cx <= i32::MAX && i32::MIN <= cy <= i32::MAX && i32::MIN <= cz
                    <= i32::MAX {
                    let key = GridPos { x: cx as i32, y: cy as i32, z: cz as i32 };
                    lemma_chunk_idx_props(orig, key);
                    lemma_chunk_idx_props(self.chunks@, key);
                    if chunk_idx(self.chunks@, key) is Some {
                        let j = choose|j: int|
                            0 <= j < k && (#[trigger] orig[j]).key == key
                                && crate::movement::abs_diff(key.x as int, center.x as int)
                                <= unload_radius as int && crate::movement::abs_diff(
                                key.z as int,
                                center.z as int,
                            ) <= unload_radius as int;
                        lemma_chunk_idx_unique(orig, key, j);
                    } else {
                        if chunk_idx(orig, key) is Some && crate::movement::abs_diff(
                            key.x as int,
                            center.x as int,
                        ) <= unload_radius as int && crate::movement::abs_diff(
                            key.z as int,
                            center.z as int,
                        ) <= unload_radius as int {
                            let j = chunk_idx(orig, key)->Some_0;
                            assert(0 <= j < k && orig[j].key == key);
                            assert(false);
                        }
                    }
                }
            }
        }
    }

    /// What departing leaves behind: the cell freed, the player counter one
    /// lower (stopping at zero), the entity record dropped, everything else
    /// untouched.
    pub open spec fn depart_left_post(
        m0: SpatialGrid,
        m1: SpatialGrid,
        entity: EntityId,
        position: GridPos,
    ) -> bool {
        &&& m1.spec_tile(position) == Tile::empty_spec()
        &&& forall|x: int, y: int, z: int|
            !(x == position.x as int && y == position.y as int && z == position.z as int)
                ==> #[trigger] m1.spec_tile_at(x, y, z) == m0.spec_tile_at(x, y, z)
        &&& m1.spec_player_count() == if m0.spec_player_count() > 0 {
            m0.spec_player_count() - 1
        } else {
            0int
        }
        &&& m1.spec_enemy_count() == m0.spec_enemy_count()
        &&& m1.spec_leave_position() == m0.spec_leave_position()
        &&& !m1.spec_entities().contains(entity)
        &&& forall|e: EntityId|
            e != entity ==> (#[trigger] m1.spec_entities().contains(e)
                == m0.spec_entities().contains(e))
    }

    /// A player standing on the portal departs: the cell is freed, the player
    /// counter drops and the entity record is cleared. Anywhere else the call
    /// does nothing and reports so.
    pub fn depart_player(&mut self, entity: EntityId, position: GridPos) -> (left: bool)
        requires
            old(self).wf(),
        ensures
            final(self).wf(),
            left == (position.x == old(self).spec_leave_position().x && position.y as int == old(
                self,
            ).spec_leave_position().y as int + 1 && position.z == old(
                self,
            ).spec_leave_position().z),
            !left ==> *final(self) == *old(self),
            left ==> SpatialGrid::depart_left_post(*old(self), *final(self), entity, position),
    {
        if !self.is_at_leave_position(position) {
            return false;
        }
        let ghost g0 = *self;
        self.remove_entity(position);
        let ghost g1 = *self;
        self.saturating_dec_player_count();
        let ghost g2 = *self;
        self.remove_entity_id(entity);
        proof {
            assert(self.spec_tile(position) == g1.spec_tile(position));
            assert forall|e: EntityId| e != entity implies (#[trigger] self.spec_entities(
            ).contains(e) == g0.spec_entities().contains(e)) by {
                assert(g1.spec_entities() == g0.spec_entities());
                assert(g2.spec_entities() == g1.spec_entities());
                assert(self.spec_entities().contains(e) == g2.spec_entities().contains(e));
            }
        }
        true
    }

    /// Whether an actor at `position` stands on the portal: one cell directly
    /// above the island's leave position, where a player departs.
    pub fn is_at_leave_position(&self, position: GridPos) -> (r: bool)
        ensures
            r == (position.x == self.spec_leave_position().x && position.y as int
                == self.spec_leave_position().y as int + 1 && position.z
                == self.spec_leave_position().z),
    {
        let leave = self.leave_position;
        position.x == leave.x && leave.y < i32::MAX && position.y == leave.y + 1 && position.z
            == leave.z
    }

    /// Walk from `start` in the positive `z` direction and return the first
    /// empty cell; `None` when every cell up to the edge of the representable
    /// world is taken.
    pub fn find_spawn_position(&self, start: GridPos) -> (r: Option<GridPos>)
        requires
            self.wf(),
        ensures
            match r {
                Some(p) => {
                    &&& p.x == start.x && p.y == start.y && p.z >= start.z
                    &&& self.spec_tile(p).kind is Empty
                    &&& forall|w: int|
                        start.z <= w < p.z ==> !((#[trigger] self.spec_tile_at(
                            start.x as int,
                            start.y as int,
                            w,
                        )).kind is Empty)
                },
                None => forall|w: int|
                    start.z <= w <= i32::MAX ==> !((#[trigger] self.spec_tile_at(
                        start.x as int,
                        start.y as int,
                        w,
                    )).kind is Empty),
            },
    {
        let mut z = start.z;
        loop
            invariant
                self.wf(),
                start.z <= z,
                forall|w: int|
                    start.z <= w < z ==> !((#[trigger] self.spec_tile_at(
                        start.x as int,
                        start.y as int,
                        w,
                    )).kind is Empty),
            decreases i32::MAX - z,
        {
            let p = GridPos { x: start.x, y: start.y, z };
            let empty_here = match self.get_tile(p).kind {
                TileKind::Empty => true,
                _ => false,
            };
            if empty_here {
                return Some(p);
            }
            if z == i32::MAX {
                return None;
            }
            z = z + 1;
        }
    }

    /// The chunk coordinate of a world position (floored division per axis).
    pub fn world_to_chunk_coords(&self, world_pos: GridPos) -> (r: GridPos)
        ensures
            r.x == chunk_coord_of(world_pos.x as int),
            r.y == chunk_coord_of(world_pos.y as int),
            r.z == chunk_coord_of(world_pos.z as int),
    {
        world_to_chunk(world_pos)
    }

    /// The position of a world cell within its chunk (Euclidean remainder per
    /// axis, always in `0 .. CHUNK_SIZE`).
    pub fn world_to_local_chunk_coords(&self, world_pos: GridPos) -> (r: GridPos)
        ensures
            r.x == local_coord_of(world_pos.x as int),
            r.y == local_coord_of(world_pos.y as int),
            r.z == local_coord_of(world_pos.z as int),
            local_in_range(r.x as int, r.y as int, r.z as int),
    {
        world_to_local(world_pos)
    }

    /// The world position of the tile at flat index `tile_index` of the chunk
    /// at `chunk_coords`: the exact inverse of the world-to-chunk/local split.
    pub fn chunk_to_world_coords(&self, chunk_coords: GridPos, tile_index: usize) -> (r: GridPos)
        requires
            key_in_range(chunk_coords),
            tile_index < CHUNK_VOLUME,
        ensures
            chunk_coord_of(r.x as int) == chunk_coords.x as int,
            chunk_coord_of(r.y as int) == chunk_coords.y as int,
            chunk_coord_of(r.z as int) == chunk_coords.z as int,
            local_index_of(
                local_coord_of(r.x as int),
                local_coord_of(r.y as int),
                local_coord_of(r.z as int),
            ) == tile_index as int,
    {
        let size = CHUNK_SIZE as usize;
        let xl = (tile_index % size) as i32;
        let yl = ((tile_index / size) % size) as i32;
        let zl = (tile_index / (size * size)) as i32;
        proof {
            let ti = tile_index as int;
            let c = CHUNK_SIZE as int;
            vstd::arithmetic::div_mod::lemma_fundamental_div_mod(ti, c);
            vstd::arithmetic::div_mod::lemma_fundamental_div_mod(ti / c, c);
            vstd::arithmetic::div_mod::lemma_mod_bound(ti, c);
            vstd::arithmetic::div_mod::lemma_mod_bound(ti / c, c);
            vstd::arithmetic::div_mod::lemma_div_is_ordered(0, ti, c);
            vstd::arithmetic::div_mod::lemma_div_denominator(ti, c, c);
            assert(zl as int == ti / c / c);
            assert(0 <= ti / c / c < c) by {
                vstd::arithmetic::div_mod::lemma_div_is_ordered(0, ti / c, c);
                vstd::arithmetic::div_mod::lemma_div_is_ordered(ti / c, c * c - 1, c);
                vstd::arithmetic::div_mod::lemma_fundamental_div_mod_converse(
                    c * c - 1,
                    c,
                    c - 1,
                    c - 1,
                );
            }
            assert(local_index_of(xl as int, yl as int, zl as int) == ti);
        }
        let x = chunk_coords.x * CHUNK_SIZE + xl;
        let y = chunk_coords.y * CHUNK_SIZE + yl;
        let z = chunk_coords.z * CHUNK_SIZE + zl;
        proof {
            vstd::arithmetic::div_mod::lemma_fundamental_div_mod_converse(
                x as int,
                CHUNK_SIZE as int,
                chunk_coords.x as int,
                xl as int,
            );
            vstd::arithmetic::div_mod::lemma_fundamental_div_mod_converse(
                y as int,
                CHUNK_SIZE as int,
                chunk_coords.y as int,
                yl as int,
            );
            vstd::arithmetic::div_mod::lemma_fundamental_div_mod_converse(
                z as int,
                CHUNK_SIZE as int,
                chunk_coords.z as int,
                zl as int,
            );
        }
        GridPos { x, y, z }
    }

    /// The tile at a world position; the empty tile when the containing chunk
    /// does not exist.
    pub fn get_tile(&self, position: GridPos) -> (r: Tile)
        requires
            self.wf(),
        ensures
            r == self.spec_tile(position),
    {
        proof {
            lemma_coord_round_trip(position.x as int);
            lemma_coord_round_trip(position.y as int);
            lemma_coord_round_trip(position.z as int);
        }
        let ck = world_to_chunk(position);
        match self.find_chunk(ck) {
            Some(i) => {
                proof {
                    lemma_chunk_idx_props(self.entries(), ck);
                }
                let local = world_to_local(position);
                self.chunks[i].chunk.get_tile(local)
            },
            None => Tile::default(),
        }
    }
}

/// Why a footprint cell blocks the fit: it leaves the representable world,
/// or lies beyond the first row and is not empty.
pub open spec fn rect_cell_blocked(
    m: SpatialGrid,
    origin: GridPos,
    direction: GridPos,
    l: int,
    w: int,
) -> bool {
    let px = origin.x as int + direction.x as int * l + (-(direction.z as int)) * w;
    let pz = origin.z as int + direction.z as int * l + direction.x as int * w;
    ||| !(i32::MIN <= px <= i32::MAX && i32::MIN <= pz <= i32::MAX)
    ||| (l > 0 && i32::MIN <= px <= i32::MAX && i32::MIN <= pz <= i32::MAX && !(m.spec_tile_at(
        px,
        origin.y as int,
        pz,
    ).kind is Empty))
}

/// Row-major indices decompose uniquely.
proof fn lemma_row_major_unique(l1: int, w1: int, l2: int, w2: int, width: int)
    requires
        0 <= w1 < width,
        0 <= w2 < width,
        0 <= l1,
        0 <= l2,
        l1 * width + w1 == l2 * width + w2,
    ensures
        l1 == l2 && w1 == w2,
{
    assert(l1 == l2 && w1 == w2) by (nonlinear_arith)
        requires
            0 <= w1 < width,
            0 <= w2 < width,
            0 <= l1,
            0 <= l2,
            l1 * width + w1 == l2 * width + w2,
    ;
}

/// An earlier row's cells index below a later row's start.
proof fn lemma_row_major_bound(l2: int, w2: int, l: int, width: int)
    requires
        0 <= w2 < width,
        0 <= l2 < l,
    ensures
        l2 * width + w2 < l * width,
{
    assert(l2 * width + w2 < l * width) by (nonlinear_arith)
        requires
            0 <= w2 < width,
            0 <= l2 < l,
    ;
}

impl SpatialGrid {
    /// Whether a footprint of `width` by `length` cells, laid out from
    /// `origin` along `direction`, fits: every cell beyond the first row must
    /// be empty. Returns the covered cells in row-major order when it fits;
    /// `None` names a blocking cell otherwise.
    pub fn check_fit_rect(&self, origin: GridPos, direction: GridPos, width: u32, length: u32) -> (
        r: Option<Vec<GridPos>>)
        requires
            self.wf(),
            -1 <= direction.x <= 1,
            direction.y == 0,
            -1 <= direction.z <= 1,
        ensures
            match r {
                Some(cells) => {
                    &&& cells@.len() == length as int * width as int
                    &&& forall|l: int, w: int|
                        0 <= l < length as int && 0 <= w < width as int ==> {
                            let p = #[trigger] cells@[l * (width as int) + w];
                            &&& p.x == origin.x as int + direction.x as int * l + (-(
                            direction.z as int)) * w
                            &&& p.y == origin.y as int
                            &&& p.z == origin.z as int + direction.z as int * l
                                + direction.x as int * w
                            &&& (l > 0 ==> self.spec_tile(p).kind is Empty)
                        }
                },
                None => exists|l: int, w: int|
                    0 <= l < length as int && 0 <= w < width as int && #[trigger] rect_cell_blocked(
                        *self,
                        origin,
                        direction,
                        l,
                        w,
                    ),
            },
    {
        let rx: i64 = -(direction.z as i64);
        let rz: i64 = direction.x as i64;
        let mut cells: Vec<GridPos> = Vec::new();
        let mut l: u32 = 0;
        while l < length
            invariant
                self.wf(),
                -1 <= direction.x <= 1,
                direction.y == 0,
                -1 <= direction.z <= 1,
                rx == -(direction.z as int),
                rz == direction.x as int,
                l <= length,
                cells@.len() == l as int * width as int,
                forall|l2: int, w2: int|
                    0 <= l2 < l as int && 0 <= w2 < width as int ==> {
                        let p = #[trigger] cells@[l2 * (width as int) + w2];
                        &&& p.x == origin.x as int + direction.x as int * l2 + (-(
                        direction.z as int)) * w2
                        &&& p.y == origin.y as int
                        &&& p.z == origin.z as int + direction.z as int * l2
                            + direction.x as int * w2
                        &&& (l2 > 0 ==> self.spec_tile(p).kind is Empty)
                    },
            decreases length - l,
        {
            let mut w: u32 = 0;
            while w < width
                invariant
                    self.wf(),
                    -1 <= direction.x <= 1,
                    direction.y == 0,
                    -1 <= direction.z <= 1,
                    rx == -(direction.z as int),
                    rz == direction.x as int,
                    l < length,
                    w <= width,
                    cells@.len() == l as int * width as int + w as int,
                    forall|l2: int, w2: int|
                        0 <= l2 < l as int + 1 && 0 <= w2 < width as int && l2 * (width as int)
                            + w2 < cells@.len() ==> {
                            let p = #[trigger] cells@[l2 * (width as int) + w2];
                            &&& p.x == origin.x as int + direction.x as int * l2 + (-(
                            direction.z as int)) * w2
                            &&& p.y == origin.y as int
                            &&& p.z == origin.z as int + direction.z as int * l2
                                + direction.x as int * w2
                            &&& (l2 > 0 ==> self.spec_tile(p).kind is Empty)
                        },
                decreases width - w,
            {
                proof {
                    assert(direction.x as int * l as int <= 0x100000000 && direction.x as int
                        * l as int >= -0x100000000 && direction.z as int * l as int
                        <= 0x100000000 && direction.z as int * l as int >= -0x100000000 && rx
                        * w as int <= 0x100000000 && rx * w as int >= -0x100000000 && rz
                        * w as int <= 0x100000000 && rz * w as int >= -0x100000000)
                        by (nonlinear_arith)
                        requires
                            -1 <= direction.x as int <= 1,
                            -1 <= direction.z as int <= 1,
                            -1 <= rx <= 1,
                            -1 <= rz <= 1,
                            0 <= l as int <= 0x100000000,
                            0 <= w as int <= 0x100000000,
                    ;
                }
                let px = origin.x as i64 + direction.x as i64 * l as i64 + rx * w as i64;
                let py = origin.y as i64;
                let pz = origin.z as i64 + direction.z as i64 * l as i64 + rz * w as i64;
                if !(i32::MIN as i64 <= px && px <= i32::MAX as i64 && i32::MIN as i64 <= pz && pz
                    <= i32::MAX as i64) {
                    proof {
                        assert(rect_cell_blocked(*self, origin, direction, l as int, w as int));
                    }
                    return None;
                }
                let p = GridPos { x: px as i32, y: py as i32, z: pz as i32 };
                if l > 0 {
                    let empty_here = match self.get_tile(p).kind {
                        TileKind::Empty => true,
                        _ => false,
                    };
                    if !empty_here {
                        proof {
                            assert(rect_cell_blocked(
                                *self,
                                origin,
                                direction,
                                l as int,
                                w as int,
                            ));
                        }
                        return None;
                    }
                }
                let ghost pre = cells@;
                cells.push(p);
                proof {
                    assert(cells@ == pre.push(p));
                    assert(forall|j: int| 0 <= j < pre.len() ==> cells@[j] == pre[j]);
                    assert(cells@[l as int * width as int + w as int] == p);
                    assert forall|l2: int, w2: int|
                        0 <= l2 < l as int + 1 && 0 <= w2 < width as int && l2 * (width as int)
                            + w2 < cells@.len() implies {
                        let q = #[trigger] cells@[l2 * (width as int) + w2];
                        &&& q.x == origin.x as int + direction.x as int * l2 + (-(
                        direction.z as int)) * w2
                        &&& q.y == origin.y as int
                        &&& q.z == origin.z as int + direction.z as int * l2
                            + direction.x as int * w2
                        &&& (l2 > 0 ==> self.spec_tile(q).kind is Empty)
                    } by {
                        if l2 * (width as int) + w2 == pre.len() {
                            lemma_row_major_unique(
                                l2,
                                w2,
                                l as int,
                                w as int,
                                width as int,
                            );
                        }
                    }
                }
                w = w + 1;
            }
            proof {
                assert((l as int + 1) * (width as int) == l as int * width as int
                    + width as int) by (nonlinear_arith);
                assert forall|l2: int, w2: int|
                    0 <= l2 < l as int + 1 && 0 <= w2 < width as int implies #[trigger] (l2 * (
                width as int) + w2) < cells@.len() by {
                    if l2 < l as int {
                        lemma_row_major_bound(l2, w2, l as int, width as int);
                        assert(l as int * width as int <= cells@.len());
                    } else {
                        assert(l2 * (width as int) + w2 < cells@.len());
                    }
                }
            }
            l = l + 1;
        }
        Some(cells)
    }

    /// Sand cells at sea level with an empty horizontal neighbour: the
    /// island's shoreline. Every returned cell satisfies that predicate, and
    /// no cell is listed twice.
    pub fn shore_tiles(&self) -> (r: Vec<GridPos>)
        requires
            self.wf(),
        ensures
            forall|j: int|
                0 <= j < r@.len() ==> {
                    let p = #[trigger] r@[j];
                    &&& self.spec_tile(p).kind == TileKind::Terrain(
                        crate::tile::TerrainKind::Sand,
                    )
                    &&& p.y == 0
                    &&& (self.spec_tile_at(p.x + 1, 0, p.z as int).kind is Empty
                        || self.spec_tile_at(p.x - 1, 0, p.z as int).kind is Empty
                        || self.spec_tile_at(p.x as int, 0, p.z + 1).kind is Empty
                        || self.spec_tile_at(p.x as int, 0, p.z - 1).kind is Empty)
                },
            forall|j1: int, j2: int| 0 <= j1 < j2 < r@.len() ==> r@[j1] != r@[j2],
    {
        let mut r: Vec<GridPos> = Vec::new();
        let cn = self.chunks.len();
        let mut ci: usize = 0;
        while ci < cn
            invariant
                self.wf(),
                cn == self.entries().len(),
                ci <= cn,
                forall|j: int|
                    0 <= j < r@.len() ==> {
                        let p = #[trigger] r@[j];
                        &&& self.spec_tile(p).kind == TileKind::Terrain(
                            crate::tile::TerrainKind::Sand,
                        )
                        &&& p.y == 0
                        &&& (self.spec_tile_at(p.x + 1, 0, p.z as int).kind is Empty
                            || self.spec_tile_at(p.x - 1, 0, p.z as int).kind is Empty
                            || self.spec_tile_at(p.x as int, 0, p.z + 1).kind is Empty
                            || self.spec_tile_at(p.x as int, 0, p.z - 1).kind is Empty)
                    },
                forall|j1: int, j2: int| 0 <= j1 < j2 < r@.len() ==> r@[j1] != r@[j2],
            decreases cn - ci,
        {
            let key = self.chunks[ci].key;
            let mut t: usize = 0;
            while t < CHUNK_VOLUME
                invariant
                    self.wf(),
                    cn == self.entries().len(),
                    ci < cn,
                    key == self.entries()[ci as int].key,
                    t <= CHUNK_VOLUME,
                    forall|j: int|
                        0 <= j < r@.len() ==> {
                            let p = #[trigger] r@[j];
                            &&& self.spec_tile(p).kind == TileKind::Terrain(
                                crate::tile::TerrainKind::Sand,
                            )
                            &&& p.y == 0
                            &&& (self.spec_tile_at(p.x + 1, 0, p.z as int).kind is Empty
                                || self.spec_tile_at(p.x - 1, 0, p.z as int).kind is Empty
                                || self.spec_tile_at(p.x as int, 0, p.z + 1).kind is Empty
                                || self.spec_tile_at(p.x as int, 0, p.z - 1).kind is Empty)
                        },
                    forall|j1: int, j2: int| 0 <= j1 < j2 < r@.len() ==> r@[j1] != r@[j2],
                decreases CHUNK_VOLUME - t,
            {
                let pos = self.chunk_to_world_coords(key, t);
                if pos.y == 0 {
                    let is_sand = match self.get_tile(pos).kind {
                        TileKind::Terrain(TerrainKind::Sand) => true,
                        _ => false,
                    };
                    if is_sand {
                        let mut is_shore = false;
                        if pos.x < i32::MAX {
                            match self.get_tile(GridPos { x: pos.x + 1, y: 0, z: pos.z }).kind {
                                TileKind::Empty => {
                                    is_shore = true;
                                },
                                _ => (),
                            }
                        }
                        if pos.x > i32::MIN {
                            match self.get_tile(GridPos { x: pos.x - 1, y: 0, z: pos.z }).kind {
                                TileKind::Empty => {
                                    is_shore = true;
                                },
                                _ => (),
                            }
                        }
                        if pos.z < i32::MAX {
                            match self.get_tile(GridPos { x: pos.x, y: 0, z: pos.z + 1 }).kind {
                                TileKind::Empty => {
                                    is_shore = true;
                                },
                                _ => (),
                            }
                        }
                        if pos.z > i32::MIN {
                            match self.get_tile(GridPos { x: pos.x, y: 0, z: pos.z - 1 }).kind {
                                TileKind::Empty => {
                                    is_shore = true;
                                },
                                _ => (),
                            }
                        }
                        if is_shore {
                            let mut listed = false;
                            let mut li: usize = 0;
                            while li < r.len()
                                invariant
                                    li <= r@.len(),
                                    listed ==> exists|w: int|
                                        0 <= w < r@.len() && r@[w] == pos,
                                    !listed ==> forall|w: int|
                                        0 <= w < li as int ==> (#[trigger] r@[w]) != pos,
                                decreases r@.len() - li,
                            {
                                if r[li] == pos {
                                    proof {
                                        assert(r@[li as int] == pos);
                                    }
                                    listed = true;
                                }
                                li = li + 1;
                            }
                            if !listed {
                                let ghost pre = r@;
                                r.push(pos);
                                proof {
                                    assert(r@ == pre.push(pos));
                                    assert(forall|w: int|
                                        0 <= w < pre.len() ==> r@[w] == pre[w]);
                                    assert forall|j1: int, j2: int|
                                        0 <= j1 < j2 < r@.len() implies r@[j1] != r@[j2] by {
                                        if j2 == pre.len() as int {
                                            if r@[j1] == pos {
                                                assert(exists|w: int|
                                                    0 <= w < pre.len() && pre[w] == pos);
                                            }
                                        }
                                    }
                                }
                            }
                        }
                    }
                }
                t = t + 1;
            }
            ci = ci + 1;
        }
        r
    }

    /// The highest base-terrain (sand or rock) cell of each listed column, at
    /// or above sea level. Every returned cell is base terrain with `y >= 0`,
    /// and no two returned cells share a column.
    pub fn above_water_top_tiles(&self) -> (r: Vec<GridPos>)
        requires
            self.wf(),
        ensures
            forall|j: int|
                0 <= j < r@.len() ==> {
                    let p = #[trigger] r@[j];
                    &&& (self.spec_tile(p).kind matches TileKind::Terrain(tk) && (tk is Sand
                        || tk is Rock))
                    &&& p.y >= 0
                },
            forall|j1: int, j2: int|
                0 <= j1 < j2 < r@.len() ==> !((#[trigger] r@[j1]).x == (#[trigger] r@[j2]).x
                    && r@[j1].z == r@[j2].z),
    {
        let mut r: Vec<GridPos> = Vec::new();
        let cn = self.chunks.len();
        let mut ci: usize = 0;
        while ci < cn
            invariant
                self.wf(),
                cn == self.entries().len(),
                ci <= cn,
                forall|j: int|
                    0 <= j < r@.len() ==> {
                        let p = #[trigger] r@[j];
                        &&& (self.spec_tile(p).kind matches TileKind::Terrain(tk) && (tk is Sand
                            || tk is Rock))
                        &&& p.y >= 0
                    },
                forall|j1: int, j2: int|
                    0 <= j1 < j2 < r@.len() ==> !((#[trigger] r@[j1]).x == (#[trigger] r@[j2]).x
                        && r@[j1].z == r@[j2].z),
            decreases cn - ci,
        {
            let key = self.chunks[ci].key;
            let mut t: usize = 0;
            while t < CHUNK_VOLUME
                invariant
                    self.wf(),
                    cn == self.entries().len(),
                    ci < cn,
                    key == self.entries()[ci as int].key,
                    t <= CHUNK_VOLUME,
                    forall|j: int|
                        0 <= j < r@.len() ==> {
                            let p = #[trigger] r@[j];
                            &&& (self.spec_tile(p).kind matches TileKind::Terrain(tk) && (
                            tk is Sand || tk is Rock))
                            &&& p.y >= 0
                        },
                    forall|j1: int, j2: int|
                        0 <= j1 < j2 < r@.len() ==> !((#[trigger] r@[j1]).x
                            == (#[trigger] r@[j2]).x && r@[j1].z == r@[j2].z),
                decreases CHUNK_VOLUME - t,
            {
                let pos = self.chunk_to_world_coords(key, t);
                let is_base = match self.get_tile(pos).kind {
                    TileKind::Terrain(tk) => crate::tile::is_base_terrain(tk),
                    _ => false,
                };
                if is_base && pos.y >= 0 {
                    let mut found: Option<usize> = None;
                    let mut j: usize = 0;
                    while j < r.len()
                        invariant
                            j <= r@.len(),
                            match found {
                                Some(f) => (f as int) < r@.len() && r@[f as int].x == pos.x
                                    && r@[f as int].z == pos.z,
                                None => forall|w: int|
                                    0 <= w < j as int ==> !((#[trigger] r@[w]).x == pos.x
                                        && r@[w].z == pos.z),
                            },
                        decreases r@.len() - j,
                    {
                        if r[j].x == pos.x && r[j].z == pos.z {
                            found = Some(j);
                        }
                        j = j + 1;
                    }
                    match found {
                        Some(f) => {
                            if pos.y > r[f].y {
                                let ghost pre = r@;
                                r.set(f, pos);
                                proof {
                                    assert(r@ == pre.update(f as int, pos));
                                    assert forall|j1: int, j2: int|
                                        0 <= j1 < j2 < r@.len() implies !((#[trigger] r@[j1]).x
                                        == (#[trigger] r@[j2]).x && r@[j1].z == r@[j2].z) by {
                                        assert(!(pre[j1].x == pre[j2].x && pre[j1].z
                                            == pre[j2].z));
                                        assert(pre[f as int].x == pos.x && pre[f as int].z
                                            == pos.z);
                                    }
                                }
                            }
                        },
                        None => {
                            let ghost pre = r@;
                            r.push(pos);
                            proof {
                                assert(r@ == pre.push(pos));
                                assert(forall|w: int| 0 <= w < pre.len() ==> r@[w] == pre[w]);
                                assert forall|j1: int, j2: int|
                                    0 <= j1 < j2 < r@.len() implies !((#[trigger] r@[j1]).x
                                    == (#[trigger] r@[j2]).x && r@[j1].z == r@[j2].z) by {
                                    if j2 == pre.len() as int {
                                        assert(!(r@[j1].x == pos.x && r@[j1].z == pos.z));
                                    }
                                }
                            }
                        },
                    }
                }
                t = t + 1;
            }
            ci = ci + 1;
        }
        r
    }
}

/// Law: writing an occupant at `p` and then clearing `p` leaves the grid
/// reading the default empty tile at `p`, and every other cell exactly as it
/// was before the write. `g1` is any result of `add_entity_at(p, t)` on `g0`,
/// `g2` any result of `remove_entity(p)` on `g1`, stated over their contracts.
pub proof fn lemma_remove_after_add_restores_empty(
    g0: SpatialGrid,
    g1: SpatialGrid,
    g2: SpatialGrid,
    p: GridPos,
    t: Tile,
)
    requires
        g1.spec_tile(p) == t,
        forall|x: int, y: int, z: int|
            !(x == p.x as int && y == p.y as int && z == p.z as int) ==> g1.spec_tile_at(x, y, z)
                == g0.spec_tile_at(x, y, z),
        g2.spec_tile(p) == Tile::empty_spec(),
        forall|x: int, y: int, z: int|
            !(x == p.x as int && y == p.y as int && z == p.z as int) ==> g2.spec_tile_at(x, y, z)
                == g1.spec_tile_at(x, y, z),
    ensures
        g2.spec_tile(p) == Tile::empty_spec(),
        forall|x: int, y: int, z: int|
            !(x == p.x as int && y == p.y as int && z == p.z as int) ==> g2.spec_tile_at(x, y, z)
                == g0.spec_tile_at(x, y, z),
{
}

} // verus!
