//! Ballistic entities: a projectile advances along its direction each tick
//! and converts the first grid collision into a damage intent.

use vstd::prelude::*;
use crate::pos::GridPos;
use crate::grid::SpatialGrid;
use crate::tile::{TileKind, EntityId};

verus! {

/// A projectile in flight. Distances are carried in thousandths of a tile;
/// speed is in thousandths of a tile per second.
pub struct Projectile {
    pub owner: EntityId,
    /// Unit direction of travel.
    pub direction: GridPos,
    /// The cell the projectile was launched from.
    pub origin: GridPos,
    pub traveled_milli: u64,
    /// Range in whole tiles; the projectile despawns once it has traveled it.
    pub range: u8,
    pub speed_milli: u64,
    pub damage: u64,
}

/// What one tick did to a projectile.
#[derive(Clone, Copy, PartialEq, Eq, Structural, Debug)]
pub enum ProjectileStep {
    /// Still in flight.
    Flying,
    /// Despawned against terrain (or after leaving the representable world),
    /// with no effect.
    Blocked,
    /// Despawned against an occupant other than the owner: the caller raises
    /// a damage intent at `position`.
    Hit { position: GridPos, target: EntityId },
    /// Despawned after exhausting its range, with no effect.
    Expired,
}

/// The whole tile offset a traveled distance rounds to.
pub open spec fn spec_tiles_traveled(t_milli: int) -> int {
    (t_milli + 500) / 1000
}

/// The distance after one tick, saturating at the counter's width.
pub open spec fn spec_advanced(traveled: u64, speed: u64, dt_ms: u64) -> int {
    let t = traveled + (speed * dt_ms) / 1000;
    if t <= u64::MAX {
        t
    } else {
        u64::MAX as int
    }
}

impl Projectile {
    /// The cell the projectile samples after having traveled `t_milli`, when
    /// it is representable.
    pub open spec fn spec_sample(self, t_milli: int) -> Option<GridPos> {
        let k = spec_tiles_traveled(t_milli);
        let x = self.origin.x as int + self.direction.x as int * k;
        let y = self.origin.y as int + self.direction.y as int * k;
        let z = self.origin.z as int + self.direction.z as int * k;
        if i32::MIN <= x <= i32::MAX && i32::MIN <= y <= i32::MAX && i32::MIN <= z <= i32::MAX {
            Some(GridPos { x: x as i32, y: y as i32, z: z as i32 })
        } else {
            None
        }
    }

    /// Advance by the tick's delta, sample the grid at the rounded position,
    /// and report the outcome: terrain blocks; an occupant other than the
    /// owner is hit; past its range the projectile expires; otherwise it
    /// flies on.
    pub fn step(&mut self, map: &SpatialGrid, dt_ms: u64) -> (r: ProjectileStep)
        requires
            map.wf(),
        ensures
            final(self).owner == old(self).owner,
            final(self).direction == old(self).direction,
            final(self).origin == old(self).origin,
            final(self).range == old(self).range,
            final(self).speed_milli == old(self).speed_milli,
            final(self).damage == old(self).damage,
            final(self).traveled_milli == spec_advanced(
                old(self).traveled_milli,
                old(self).speed_milli,
                dt_ms,
            ),
            match old(self).spec_sample(final(self).traveled_milli as int) {
                None => r is Blocked,
                Some(p) => {
                    let tile = map.spec_tile(p);
                    if tile.kind is Terrain {
                        r == ProjectileStep::Blocked
                    } else if (tile.kind is Player || tile.kind is Enemy) && tile.entity != old(
                        self,
                    ).owner {
                        r == (ProjectileStep::Hit { position: p, target: tile.entity })
                    } else if final(self).traveled_milli >= old(self).range as int * 1000 {
                        r == ProjectileStep::Expired
                    } else {
                        r == ProjectileStep::Flying
                    }
                },
            },
    {
        proof {
            vstd::arithmetic::mul::lemma_mul_upper_bound(
                self.speed_milli as int,
                u64::MAX as int,
                dt_ms as int,
                u64::MAX as int,
            );
            vstd::arithmetic::div_mod::lemma_div_is_ordered(
                self.speed_milli as int * dt_ms as int,
                u64::MAX as int * u64::MAX as int,
                1000,
            );
        }
        let advance_wide = (self.speed_milli as u128 * dt_ms as u128) / 1000u128;
        let total = self.traveled_milli as u128 + advance_wide;
        self.traveled_milli = if total <= u64::MAX as u128 {
            total as u64
        } else {
            u64::MAX
        };
        let tiles = ((self.traveled_milli as u128 + 500u128) / 1000u128) as u64;
        proof {
            vstd::arithmetic::div_mod::lemma_div_is_ordered(
                self.traveled_milli as int + 500,
                u64::MAX as int + 500,
                1000,
            );
            assert(tiles as int == spec_tiles_traveled(self.traveled_milli as int));
            assert(tiles <= 0x4189374BC6A7F0u64) by {
                vstd::arithmetic::div_mod::lemma_div_is_ordered(
                    self.traveled_milli as int + 500,
                    u64::MAX as int + 500,
                    1000,
                );
            }
            assert(-(0x80000000int * 0x4189374BC6A7F0int) <= self.direction.x as int
                * tiles as int <= 0x80000000int * 0x4189374BC6A7F0int) by (nonlinear_arith)
                requires
                    -0x80000000 <= self.direction.x as int <= 0x7FFFFFFF,
                    0 <= tiles as int <= 0x4189374BC6A7F0int,
            ;
            assert(-(0x80000000int * 0x4189374BC6A7F0int) <= self.direction.y as int
                * tiles as int <= 0x80000000int * 0x4189374BC6A7F0int) by (nonlinear_arith)
                requires
                    -0x80000000 <= self.direction.y as int <= 0x7FFFFFFF,
                    0 <= tiles as int <= 0x4189374BC6A7F0int,
            ;
            assert(-(0x80000000int * 0x4189374BC6A7F0int) <= self.direction.z as int
                * tiles as int <= 0x80000000int * 0x4189374BC6A7F0int) by (nonlinear_arith)
                requires
                    -0x80000000 <= self.direction.z as int <= 0x7FFFFFFF,
                    0 <= tiles as int <= 0x4189374BC6A7F0int,
            ;
        }
        let x = self.origin.x as i128 + self.direction.x as i128 * tiles as i128;
        let y = self.origin.y as i128 + self.direction.y as i128 * tiles as i128;
        let z = self.origin.z as i128 + self.direction.z as i128 * tiles as i128;
        if !(i32::MIN as i128 <= x && x <= i32::MAX as i128 && i32::MIN as i128 <= y && y
            <= i32::MAX as i128 && i32::MIN as i128 <= z && z <= i32::MAX as i128) {
            return ProjectileStep::Blocked;
        }
        let p = GridPos { x: x as i32, y: y as i32, z: z as i32 };
        let tile = map.get_tile(p);
        match tile.kind {
            TileKind::Terrain(_) => ProjectileStep::Blocked,
            TileKind::Player | TileKind::Enemy => {
                if tile.entity != self.owner {
                    ProjectileStep::Hit { position: p, target: tile.entity }
                } else if self.traveled_milli >= self.range as u64 * 1000 {
                    ProjectileStep::Expired
                } else {
                    ProjectileStep::Flying
                }
            },
            TileKind::Empty => {
                if self.traveled_milli >= self.range as u64 * 1000 {
                    ProjectileStep::Expired
                } else {
                    ProjectileStep::Flying
                }
            },
        }
    }
}

} // verus!
