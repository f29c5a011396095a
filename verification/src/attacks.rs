//! Driving one active cast through a tick: the per-kind effects of the
//! attack-instance state machine.

use vstd::prelude::*;
use crate::pos::GridPos;
use crate::grid::SpatialGrid;
use crate::tile::EntityId;
use crate::combat::{cut_through_ray, AttackInstance, AttackKind};
use crate::damage::DamageIntent;
use crate::projectile::Projectile;

verus! {

/// The range, in tiles, of a thrown dagger.
pub const DAGGER_RANGE: u8 = 3;

/// The flight speed of a thrown dagger, in thousandths of a tile per second.
pub const DAGGER_SPEED_MILLI: u64 = 1000;

/// What one tick of an active cast asks the simulation to do.
pub struct AttackTickEffects {
    /// Damage to resolve, in order.
    pub intents: Vec<DamageIntent>,
    /// A projectile released by a ranged attack.
    pub released: Option<Projectile>,
    /// Where a dash moves its attacker, when the landing cell is walkable.
    pub dash_landing: Option<GridPos>,
    /// The instance completed and must despawn, returning its owner to idle.
    pub finished: bool,
}

/// Advance one active cast by the tick's delta. Crossing the phase midpoint
/// releases the instance's single hit: a melee swing raises one damage intent
/// one cell along its direction; a throw releases a projectile; a dash
/// damages the whole run of occupants along its direction and reports the
/// landing cell; a counter stance has no active effect (its negation lives on
/// the actor). `finished` reports completion.
pub fn perform_attack(
    map: &SpatialGrid,
    instance: &mut AttackInstance,
    actor: EntityId,
    actor_pos: GridPos,
    island: u64,
    dt_ms: u64,
) -> (r: AttackTickEffects)
    requires
        map.wf(),
    ensures
        final(instance).attack_id == old(instance).attack_id,
        final(instance).kind == old(instance).kind,
        final(instance).direction == old(instance).direction,
        final(instance).damage == old(instance).damage,
        final(instance).hit_applied == (old(instance).hit_applied || (!old(instance).hit_applied
            && final(instance).timer.spec_past_midpoint())),
        r.finished == final(instance).timer.spec_finished(),
        ({
            let fired = !old(instance).hit_applied && final(instance).timer.spec_past_midpoint();
            let dir = old(instance).direction;
            &&& (!fired ==> r.intents@.len() == 0 && r.released is None && r.dash_landing is None)
            &&& (fired && old(instance).kind is Melee ==> {
                let tx = actor_pos.x as int + dir.x as int;
                let ty = actor_pos.y as int + dir.y as int;
                let tz = actor_pos.z as int + dir.z as int;
                if i32::MIN <= tx <= i32::MAX && i32::MIN <= ty <= i32::MAX && i32::MIN <= tz
                    <= i32::MAX {
                    r.intents@ =~= seq![
                        DamageIntent {
                            attacker: actor,
                            island,
                            target_pos: GridPos { x: tx as i32, y: ty as i32, z: tz as i32 },
                            amount: old(instance).damage,
                        },
                    ]
                } else {
                    r.intents@.len() == 0
                }
            })
            &&& (fired && old(instance).kind is Ranged ==> (r.released matches Some(p) && p.owner
                == actor && p.direction == dir && p.origin == actor_pos && p.traveled_milli == 0
                && p.range == DAGGER_RANGE && p.speed_milli == DAGGER_SPEED_MILLI && p.damage
                == old(instance).damage))
            &&& (fired && old(instance).kind is Dash && !(dir.x == 0 && dir.y == 0 && dir.z == 0)
                ==> {
                // the dash hits exactly the consecutive run of occupants ahead
                &&& forall|j: int|
                    0 <= j < r.intents@.len() ==> (#[trigger] r.intents@[j]).attacker == actor
                        && r.intents@[j].island == island && r.intents@[j].amount == old(
                        instance,
                    ).damage && map.spec_get_target(r.intents@[j].target_pos) is Some
                &&& (r.intents@.len() > 0 ==> r.intents@[0].target_pos.x == actor_pos.x as int
                    + dir.x as int && r.intents@[0].target_pos.y == actor_pos.y as int
                    + dir.y as int && r.intents@[0].target_pos.z == actor_pos.z as int
                    + dir.z as int)
                &&& forall|j: int|
                    0 <= j < r.intents@.len() - 1 ==> (#[trigger] r.intents@[j
                        + 1]).target_pos.x == r.intents@[j].target_pos.x as int + dir.x as int
                        && r.intents@[j + 1].target_pos.y == r.intents@[j].target_pos.y as int
                        + dir.y as int && r.intents@[j + 1].target_pos.z
                        == r.intents@[j].target_pos.z as int + dir.z as int
                &&& ({
                    // the cell past the run: where the dash would land
                    let ex = if r.intents@.len() == 0 {
                        actor_pos.x as int + dir.x as int
                    } else {
                        r.intents@.last().target_pos.x as int + dir.x as int
                    };
                    let ey = if r.intents@.len() == 0 {
                        actor_pos.y as int + dir.y as int
                    } else {
                        r.intents@.last().target_pos.y as int + dir.y as int
                    };
                    let ez = if r.intents@.len() == 0 {
                        actor_pos.z as int + dir.z as int
                    } else {
                        r.intents@.last().target_pos.z as int + dir.z as int
                    };
                    match r.dash_landing {
                        Some(p) => p.x == ex && p.y == ey && p.z == ez && map.spec_can_move(p)
                            && map.spec_get_target(p) is None,
                        None => i32::MIN <= ex <= i32::MAX && i32::MIN <= ey <= i32::MAX
                            && i32::MIN <= ez <= i32::MAX ==> {
                            let past = GridPos { x: ex as i32, y: ey as i32, z: ez as i32 };
                            &&& map.spec_get_target(past) is None
                            &&& !map.spec_can_move(past)
                        },
                    }
                })
            })
            &&& (fired && old(instance).kind is Dash && dir.x == 0 && dir.y == 0 && dir.z == 0
                ==> r.intents@.len() == 0 && r.dash_landing is None)
            &&& (fired && old(instance).kind is Counter ==> r.intents@.len() == 0 && r.released
                is None && r.dash_landing is None)
            &&& (r.dash_landing is Some ==> map.spec_can_move(r.dash_landing->Some_0))
        }),
{
    let (fired, finished) = instance.tick(dt_ms);
    let mut effects = AttackTickEffects {
        intents: Vec::new(),
        released: None,
        dash_landing: None,
        finished,
    };
    if !fired {
        return effects;
    }
    match instance.kind {
        AttackKind::Melee => {
            match actor_pos.checked_add(instance.direction) {
                Some(target) => {
                    effects.intents.push(
                        DamageIntent {
                            attacker: actor,
                            island,
                            target_pos: target,
                            amount: instance.damage,
                        },
                    );
                    proof {
                        assert(effects.intents@ =~= seq![
                            DamageIntent {
                                attacker: actor,
                                island,
                                target_pos: target,
                                amount: instance.damage,
                            },
                        ]);
                    }
                },
                None => (),
            }
        },
        AttackKind::Ranged => {
            effects.released = Some(
                Projectile {
                    owner: actor,
                    direction: instance.direction,
                    origin: actor_pos,
                    traveled_milli: 0,
                    range: DAGGER_RANGE,
                    speed_milli: DAGGER_SPEED_MILLI,
                    damage: instance.damage,
                },
            );
        },
        AttackKind::Dash => {
            let d = instance.direction;
            if !(d.x == 0 && d.y == 0 && d.z == 0) {
                let (hits, landing) = cut_through_ray(map, actor_pos, d);
                let n = hits.len();
                let mut i: usize = 0;
                while i < n
                    invariant
                        map.wf(),
                        n == hits@.len(),
                        i <= n,
                        effects.finished == finished,
                        effects.released is None,
                        effects.dash_landing is None,
                        forall|j: int|
                            0 <= j < n ==> map.spec_get_target(#[trigger] hits@[j]) is Some,
                        effects.intents@.len() == i as int,
                        forall|j: int|
                            0 <= j < i as int ==> (#[trigger] effects.intents@[j]).attacker
                                == actor && effects.intents@[j].island == island
                                && effects.intents@[j].amount == instance.damage
                                && map.spec_get_target(effects.intents@[j].target_pos) is Some,
                        forall|j: int|
                            0 <= j < i as int ==> (#[trigger] effects.intents@[j]).target_pos
                                == hits@[j],
                    decreases n - i,
                {
                    let ghost pre = effects.intents@;
                    let intent = DamageIntent {
                        attacker: actor,
                        island,
                        target_pos: hits[i],
                        amount: instance.damage,
                    };
                    effects.intents.push(intent);
                    proof {
                        assert(effects.intents@ == pre.push(intent));
                        assert(forall|j: int| 0 <= j < pre.len() ==> effects.intents@[j]
                            == pre[j]);
                        assert(effects.intents@[pre.len() as int] == intent);
                    }
                    i = i + 1;
                }
                effects.dash_landing = landing;
                proof {
                    assert(effects.intents@.len() == hits@.len());
                    if effects.intents@.len() > 0 {
                        assert(effects.intents@[0].target_pos == hits@[0]);
                        assert(effects.intents@.last().target_pos == hits@.last());
                    }
                    assert forall|j: int|
                        0 <= j < effects.intents@.len() - 1 implies (#[trigger] effects.intents@[j
                        + 1]).target_pos.x == effects.intents@[j].target_pos.x as int
                        + d.x as int && effects.intents@[j + 1].target_pos.y
                        == effects.intents@[j].target_pos.y as int + d.y as int
                        && effects.intents@[j + 1].target_pos.z
                        == effects.intents@[j].target_pos.z as int + d.z as int by {
                        assert(effects.intents@[j].target_pos == hits@[j]);
                        assert(effects.intents@[j + 1].target_pos == hits@[j + 1]);
                    }
                }
            }
        },
        AttackKind::Counter => (),
    }
    effects
}

} // verus!
