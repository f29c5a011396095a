//! Movement rules: step offsets, climb/drop permissions, heuristics, and the
//! player movement logic with its step-up/step-down rules.

use vstd::prelude::*;
use crate::pos::GridPos;
use crate::grid::SpatialGrid;
use crate::tile::{Tile, TileKind, EntityId};

verus! {

/// Distance between two coordinates, as a non-negative integer.
pub open spec fn abs_diff(a: int, b: int) -> int {
    if a >= b {
        a - b
    } else {
        b - a
    }
}

pub open spec fn spec_manhattan(a: GridPos, b: GridPos) -> int {
    abs_diff(a.x as int, b.x as int) + abs_diff(a.y as int, b.y as int) + abs_diff(
        a.z as int,
        b.z as int,
    )
}

pub open spec fn spec_chebyshev(a: GridPos, b: GridPos) -> int {
    let dx = abs_diff(a.x as int, b.x as int);
    let dy = abs_diff(a.y as int, b.y as int);
    let dz = abs_diff(a.z as int, b.z as int);
    if dx >= dy && dx >= dz {
        dx
    } else if dy >= dz {
        dy
    } else {
        dz
    }
}

/// A knight move covers a Manhattan distance of three, so the knight distance
/// estimate is the Manhattan distance divided by three, rounded up.
pub open spec fn spec_knight(a: GridPos, b: GridPos) -> int {
    (spec_manhattan(a, b) + 2) / 3
}

fn abs_diff_i32(a: i32, b: i32) -> (r: u64)
    ensures
        r == abs_diff(a as int, b as int),
{
    if a >= b {
        (a as i64 - b as i64) as u64
    } else {
        (b as i64 - a as i64) as u64
    }
}

/// Manhattan distance: the sum of the per-axis distances.
pub fn manhattan(a: GridPos, b: GridPos) -> (r: u64)
    ensures
        r == spec_manhattan(a, b),
{
    abs_diff_i32(a.x, b.x) + abs_diff_i32(a.y, b.y) + abs_diff_i32(a.z, b.z)
}

/// Chebyshev distance: the largest per-axis distance.
pub fn chebyshev(a: GridPos, b: GridPos) -> (r: u64)
    ensures
        r == spec_chebyshev(a, b),
{
    let dx = abs_diff_i32(a.x, b.x);
    let dy = abs_diff_i32(a.y, b.y);
    let dz = abs_diff_i32(a.z, b.z);
    if dx >= dy && dx >= dz {
        dx
    } else if dy >= dz {
        dy
    } else {
        dz
    }
}

/// Knight distance: Manhattan distance over three, rounded up.
pub fn knight(a: GridPos, b: GridPos) -> (r: u64)
    ensures
        r == spec_knight(a, b),
{
    (manhattan(a, b) + 2) / 3
}

/// The distance estimate a movement rule plans with.
#[derive(Clone, Copy, PartialEq, Eq, Structural, Debug)]
pub enum Heuristic {
    Manhattan,
    Chebyshev,
    Knight,
}

pub open spec fn spec_heuristic(h: Heuristic, a: GridPos, b: GridPos) -> int {
    match h {
        Heuristic::Manhattan => spec_manhattan(a, b),
        Heuristic::Chebyshev => spec_chebyshev(a, b),
        Heuristic::Knight => spec_knight(a, b),
    }
}

pub fn eval_heuristic(h: Heuristic, a: GridPos, b: GridPos) -> (r: u64)
    ensures
        r == spec_heuristic(h, a, b),
{
    match h {
        Heuristic::Manhattan => manhattan(a, b),
        Heuristic::Chebyshev => chebyshev(a, b),
        Heuristic::Knight => knight(a, b),
    }
}

/// A named traversal policy: the candidate step offsets, whether a blocked
/// step may be retried one cell higher (climb) or lower (drop), and the
/// distance estimate used for planning.
pub struct MoveRule {
    pub offsets: Vec<GridPos>,
    pub can_climb: bool,
    pub can_drop: bool,
    pub heuristic: Heuristic,
}

/// The four axis-aligned horizontal steps.
pub fn standard_offsets() -> (r: Vec<GridPos>)
    ensures
        r@ =~= seq![
            GridPos { x: 1, y: 0, z: 0 },
            GridPos { x: -1i32, y: 0, z: 0 },
            GridPos { x: 0, y: 0, z: 1 },
            GridPos { x: 0, y: 0, z: -1i32 },
        ],
{
    let mut v: Vec<GridPos> = Vec::new();
    v.push(GridPos { x: 1, y: 0, z: 0 });
    v.push(GridPos { x: -1i32, y: 0, z: 0 });
    v.push(GridPos { x: 0, y: 0, z: 1 });
    v.push(GridPos { x: 0, y: 0, z: -1i32 });
    v
}

/// The four horizontal diagonal steps.
pub fn diagonal_offsets() -> (r: Vec<GridPos>)
    ensures
        r@ =~= seq![
            GridPos { x: 1, y: 0, z: 1 },
            GridPos { x: -1i32, y: 0, z: 1 },
            GridPos { x: 1, y: 0, z: -1i32 },
            GridPos { x: -1i32, y: 0, z: -1i32 },
        ],
{
    let mut v: Vec<GridPos> = Vec::new();
    v.push(GridPos { x: 1, y: 0, z: 1 });
    v.push(GridPos { x: -1i32, y: 0, z: 1 });
    v.push(GridPos { x: 1, y: 0, z: -1i32 });
    v.push(GridPos { x: -1i32, y: 0, z: -1i32 });
    v
}

/// All eight horizontal steps.
pub fn omni_offsets() -> (r: Vec<GridPos>)
    ensures
        r@.len() == 8,
        r@.subrange(0, 4) =~= standard_offsets_spec(),
        r@.subrange(4, 8) =~= diagonal_offsets_spec(),
{
    let mut v = standard_offsets();
    let mut d = diagonal_offsets();
    v.append(&mut d);
    v
}

pub open spec fn standard_offsets_spec() -> Seq<GridPos> {
    seq![
        GridPos { x: 1, y: 0, z: 0 },
        GridPos { x: -1i32, y: 0, z: 0 },
        GridPos { x: 0, y: 0, z: 1 },
        GridPos { x: 0, y: 0, z: -1i32 },
    ]
}

pub open spec fn diagonal_offsets_spec() -> Seq<GridPos> {
    seq![
        GridPos { x: 1, y: 0, z: 1 },
        GridPos { x: -1i32, y: 0, z: 1 },
        GridPos { x: 1, y: 0, z: -1i32 },
        GridPos { x: -1i32, y: 0, z: -1i32 },
    ]
}

/// The eight knight jumps.
pub fn knight_offsets() -> (r: Vec<GridPos>)
    ensures
        r@.len() == 8,
        forall|i: int|
            0 <= i < 8 ==> (#[trigger] r@[i]).y == 0 && abs_diff(r@[i].x as int, 0) + abs_diff(
                r@[i].z as int,
                0,
            ) == 3,
{
    let mut v: Vec<GridPos> = Vec::new();
    v.push(GridPos { x: 2, y: 0, z: 1 });
    v.push(GridPos { x: 2, y: 0, z: -1i32 });
    v.push(GridPos { x: -2i32, y: 0, z: 1 });
    v.push(GridPos { x: -2i32, y: 0, z: -1i32 });
    v.push(GridPos { x: 1, y: 0, z: 2 });
    v.push(GridPos { x: 1, y: 0, z: -2i32 });
    v.push(GridPos { x: -1i32, y: 0, z: 2 });
    v.push(GridPos { x: -1i32, y: 0, z: -2i32 });
    v
}

pub fn standard_move() -> (r: MoveRule)
    ensures
        r.offsets@ =~= standard_offsets_spec(),
        r.can_climb,
        r.can_drop,
        r.heuristic is Manhattan,
{
    MoveRule {
        offsets: standard_offsets(),
        can_climb: true,
        can_drop: true,
        heuristic: Heuristic::Manhattan,
    }
}

pub fn knight_move() -> (r: MoveRule)
    ensures
        r.offsets@.len() == 8,
        !r.can_climb,
        !r.can_drop,
        r.heuristic is Knight,
{
    MoveRule {
        offsets: knight_offsets(),
        can_climb: false,
        can_drop: false,
        heuristic: Heuristic::Knight,
    }
}

pub fn rook_rule() -> (r: MoveRule)
    ensures
        r.offsets@ =~= standard_offsets_spec(),
        !r.can_climb,
        !r.can_drop,
        r.heuristic is Manhattan,
{
    MoveRule {
        offsets: standard_offsets(),
        can_climb: false,
        can_drop: false,
        heuristic: Heuristic::Manhattan,
    }
}

pub fn bishop_rule() -> (r: MoveRule)
    ensures
        r.offsets@ =~= diagonal_offsets_spec(),
        !r.can_climb,
        !r.can_drop,
        r.heuristic is Chebyshev,
{
    MoveRule {
        offsets: diagonal_offsets(),
        can_climb: false,
        can_drop: false,
        heuristic: Heuristic::Chebyshev,
    }
}

pub fn queen_rule() -> (r: MoveRule)
    ensures
        r.offsets@.len() == 8,
        !r.can_climb,
        !r.can_drop,
        r.heuristic is Chebyshev,
{
    MoveRule { offsets: omni_offsets(), can_climb: false, can_drop: false, heuristic:
        Heuristic::Chebyshev }
}

/// Rotate an input direction into world space by the camera's quarter-turn
/// quadrant (`0` to `3`; anything else leaves the direction unchanged).
pub fn rotate_direction(dir: GridPos, quadrant: u8) -> (r: GridPos)
    requires
        dir.x > i32::MIN,
        dir.z > i32::MIN,
    ensures
        quadrant == 0 ==> r == dir,
        quadrant == 1 ==> r.x == dir.z && r.y == 0 && r.z == -(dir.x as int),
        quadrant == 2 ==> r.x == -(dir.x as int) && r.y == 0 && r.z == -(dir.z as int),
        quadrant == 3 ==> r.x == -(dir.z as int) && r.y == 0 && r.z == dir.x,
        quadrant > 3 ==> r == dir,
{
    match quadrant {
        1 => GridPos { x: dir.z, y: 0, z: -dir.x },
        2 => GridPos { x: -dir.x, y: 0, z: -dir.z },
        3 => GridPos { x: -dir.z, y: 0, z: dir.x },
        _ => dir,
    }
}

/// Where a relative step from `cur` lands, after the step-up / step-down
/// rules: stepping into terrain climbs one cell when the cell above is free;
/// stepping into air above ground level drops one cell when the cell below is
/// free and rests on terrain; stepping into an occupant is rejected.
pub open spec fn spec_plan_move(m: SpatialGrid, cur: GridPos, dir: GridPos) -> Option<GridPos> {
    let nx = cur.x as int + dir.x as int;
    let ny = cur.y as int + dir.y as int;
    let nz = cur.z as int + dir.z as int;
    if !(i32::MIN <= nx <= i32::MAX && i32::MIN <= ny <= i32::MAX && i32::MIN <= nz <= i32::MAX) {
        None
    } else {
        let t = m.spec_tile_at(nx, ny, nz);
        if t.kind is Terrain {
            if ny + 1 <= i32::MAX && m.spec_tile_at(nx, ny + 1, nz).kind is Empty {
                Some(GridPos { x: nx as i32, y: (ny + 1) as i32, z: nz as i32 })
            } else {
                None
            }
        } else if t.kind is Empty {
            if ny != 0 {
                if m.spec_tile_at(nx, ny - 1, nz).kind is Empty {
                    if m.spec_tile_at(nx, ny - 2, nz).kind is Terrain && ny - 1 >= i32::MIN {
                        Some(GridPos { x: nx as i32, y: (ny - 1) as i32, z: nz as i32 })
                    } else {
                        None
                    }
                } else {
                    Some(GridPos { x: nx as i32, y: ny as i32, z: nz as i32 })
                }
            } else {
                Some(GridPos { x: nx as i32, y: ny as i32, z: nz as i32 })
            }
        } else {
            None
        }
    }
}

pub fn plan_move(m: &SpatialGrid, cur: GridPos, dir: GridPos) -> (r: Option<GridPos>)
    requires
        m.wf(),
    ensures
        r == spec_plan_move(*m, cur, dir),
{
    let new_pos = match cur.checked_add(dir) {
        Some(p) => p,
        None => {
            return None;
        },
    };
    let t = m.get_tile(new_pos);
    match t.kind {
        TileKind::Terrain(_) => {
            match new_pos.above() {
                Some(up) => {
                    match m.get_tile(up).kind {
                        TileKind::Empty => Some(up),
                        _ => None,
                    }
                },
                None => None,
            }
        },
        TileKind::Empty => {
            if new_pos.y != 0 {
                let below = match new_pos.below() {
                    Some(b) => b,
                    None => {
                        proof {
                            m.lemma_below_world_empty(
                                new_pos.x as int,
                                new_pos.y as int - 1,
                                new_pos.z as int,
                            );
                            m.lemma_below_world_empty(
                                new_pos.x as int,
                                new_pos.y as int - 2,
                                new_pos.z as int,
                            );
                        }
                        return None;
                    },
                };
                match m.get_tile(below).kind {
                    TileKind::Empty => {
                        match below.below() {
                            Some(b2) => {
                                match m.get_tile(b2).kind {
                                    TileKind::Terrain(_) => Some(below),
                                    _ => None,
                                }
                            },
                            None => {
                                proof {
                                    m.lemma_below_world_empty(
                                        new_pos.x as int,
                                        new_pos.y as int - 2,
                                        new_pos.z as int,
                                    );
                                }
                                None
                            },
                        }
                    },
                    _ => Some(new_pos),
                }
            } else {
                Some(new_pos)
            }
        },
        _ => None,
    }
}

/// Apply a player's relative move: plan the step, then move the occupant with
/// the remove-then-add protocol. Returns the new position, or `None` when the
/// move is rejected (the grid is then untouched).
pub fn apply_movement(m: &mut SpatialGrid, entity: EntityId, cur: GridPos, dir: GridPos) -> (r:
    Option<GridPos>)
    requires
        old(m).wf(),
    ensures
        final(m).wf(),
        r == spec_plan_move(*old(m), cur, dir),
        match r {
            Some(p) => {
                &&& final(m).spec_tile(p) == (Tile { kind: TileKind::Player, entity })
                &&& (p != cur ==> final(m).spec_tile(cur) == Tile::empty_spec())
                &&& forall|x: int, y: int, z: int|
                    !(x == p.x as int && y == p.y as int && z == p.z as int) && !(x == cur.x as int
                        && y == cur.y as int && z == cur.z as int) ==> final(m).spec_tile_at(
                        x,
                        y,
                        z,
                    ) == old(m).spec_tile_at(x, y, z)
            },
            None => forall|x: int, y: int, z: int|
                final(m).spec_tile_at(x, y, z) == old(m).spec_tile_at(x, y, z),
        },
        final(m).same_meta(*old(m)),
{
    match plan_move(m, cur, dir) {
        Some(p) => {
            m.remove_entity(cur);
            m.add_entity_at(p, Tile::new(TileKind::Player, entity));
            Some(p)
        },
        None => None,
    }
}

} // verus!
