//! Integer grid positions and the world/chunk coordinate mapping.

use vstd::prelude::*;

verus! {

/// Edge length of a cubic chunk, in tiles.
pub const CHUNK_SIZE: i32 = 16;

/// A discrete 3D grid cell. `y` is the vertical axis.
#[derive(Clone, Copy, PartialEq, Eq, Structural, Debug, Hash)]
pub struct GridPos {
    pub x: i32,
    pub y: i32,
    pub z: i32,
}

impl GridPos {
    pub fn new(x: i32, y: i32, z: i32) -> (r: GridPos)
        ensures
            r == (GridPos { x, y, z }),
    {
        GridPos { x, y, z }
    }

    /// Component-wise sum, `None` when a component leaves the `i32` range.
    pub fn checked_add(self, other: GridPos) -> (r: Option<GridPos>)
        ensures
            match r {
                Some(s) => s.x == self.x + other.x && s.y == self.y + other.y && s.z == self.z
                    + other.z,
                None => !(i32::MIN <= self.x + other.x <= i32::MAX
                    && i32::MIN <= self.y + other.y <= i32::MAX && i32::MIN <= self.z + other.z
                    <= i32::MAX),
            },
    {
        match (self.x.checked_add(other.x), self.y.checked_add(other.y), self.z.checked_add(
            other.z,
        )) {
            (Some(x), Some(y), Some(z)) => Some(GridPos { x, y, z }),
            _ => None,
        }
    }

    /// The cell directly below, `None` at the bottom of the representable range.
    pub fn below(self) -> (r: Option<GridPos>)
        ensures
            match r {
                Some(b) => b.x == self.x && b.y == self.y - 1 && b.z == self.z,
                None => self.y == i32::MIN,
            },
    {
        match self.y.checked_sub(1) {
            Some(y) => Some(GridPos { x: self.x, y, z: self.z }),
            None => None,
        }
    }

    /// The cell directly above, `None` at the top of the representable range.
    pub fn above(self) -> (r: Option<GridPos>)
        ensures
            match r {
                Some(a) => a.x == self.x && a.y == self.y + 1 && a.z == self.z,
                None => self.y == i32::MAX,
            },
    {
        match self.y.checked_add(1) {
            Some(y) => Some(GridPos { x: self.x, y, z: self.z }),
            None => None,
        }
    }
}

/// Euclidean (floored, non-negative remainder) division of a coordinate by
/// `CHUNK_SIZE`, as the mathematical pair it produces.
pub open spec fn chunk_coord_of(w: int) -> int {
    w / (CHUNK_SIZE as int)
}

pub open spec fn local_coord_of(w: int) -> int {
    w % (CHUNK_SIZE as int)
}

/// Reassembling a world coordinate from its chunk and local parts is exact,
/// for negative coordinates too.
pub proof fn lemma_coord_round_trip(w: int)
    ensures
        chunk_coord_of(w) * (CHUNK_SIZE as int) + local_coord_of(w) == w,
        0 <= local_coord_of(w) < CHUNK_SIZE as int,
{
    vstd::arithmetic::div_mod::lemma_fundamental_div_mod(w, CHUNK_SIZE as int);
    vstd::arithmetic::div_mod::lemma_mod_bound(w, CHUNK_SIZE as int);
}

/// The chunk coordinate of a representable world coordinate lies between the
/// chunk coordinates of the two extremes.
pub proof fn lemma_chunk_coord_bounds(w: int)
    requires
        i32::MIN <= w <= i32::MAX,
    ensures
        chunk_coord_of(i32::MIN as int) <= chunk_coord_of(w) <= chunk_coord_of(i32::MAX as int),
{
    vstd::arithmetic::div_mod::lemma_div_is_ordered(i32::MIN as int, w, CHUNK_SIZE as int);
    vstd::arithmetic::div_mod::lemma_div_is_ordered(w, i32::MAX as int, CHUNK_SIZE as int);
}

/// The chunk/local pair determines the world coordinate: two coordinates with
/// equal parts are equal.
pub proof fn lemma_coord_parts_injective(w1: int, w2: int)
    requires
        chunk_coord_of(w1) == chunk_coord_of(w2),
        local_coord_of(w1) == local_coord_of(w2),
    ensures
        w1 == w2,
{
    lemma_coord_round_trip(w1);
    lemma_coord_round_trip(w2);
}

fn chunk_coord_i32(w: i32) -> (r: i32)
    ensures
        r == chunk_coord_of(w as int),
{
    w.checked_div_euclid(CHUNK_SIZE).unwrap()
}

fn local_coord_i32(w: i32) -> (r: i32)
    ensures
        r == local_coord_of(w as int),
{
    w.checked_rem_euclid(CHUNK_SIZE).unwrap()
}

/// The coordinate of the chunk containing a world position (floored division,
/// so negative coordinates map correctly).
pub fn world_to_chunk(world_pos: GridPos) -> (r: GridPos)
    ensures
        r.x == chunk_coord_of(world_pos.x as int),
        r.y == chunk_coord_of(world_pos.y as int),
        r.z == chunk_coord_of(world_pos.z as int),
{
    GridPos {
        x: chunk_coord_i32(world_pos.x),
        y: chunk_coord_i32(world_pos.y),
        z: chunk_coord_i32(world_pos.z),
    }
}

/// The position of a world cell within its chunk; each component lies in
/// `0 .. CHUNK_SIZE`.
pub fn world_to_local(world_pos: GridPos) -> (r: GridPos)
    ensures
        r.x == local_coord_of(world_pos.x as int),
        r.y == local_coord_of(world_pos.y as int),
        r.z == local_coord_of(world_pos.z as int),
        0 <= r.x < CHUNK_SIZE,
        0 <= r.y < CHUNK_SIZE,
        0 <= r.z < CHUNK_SIZE,
{
    proof {
        lemma_coord_round_trip(world_pos.x as int);
        lemma_coord_round_trip(world_pos.y as int);
        lemma_coord_round_trip(world_pos.z as int);
    }
    GridPos {
        x: local_coord_i32(world_pos.x),
        y: local_coord_i32(world_pos.y),
        z: local_coord_i32(world_pos.z),
    }
}

} // verus!
