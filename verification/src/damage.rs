//! The damage pipeline: resolving a damage intent against a grid and the
//! actors standing on it, with negation handling and removal on death.

use vstd::prelude::*;
use crate::pos::GridPos;
use crate::grid::SpatialGrid;
use crate::registry::{IslandMaps, island_idx};
use crate::kv::KeyedVec;
use crate::humanoid::{Health, Stunned};
use crate::combat::AttackId;
use crate::tile::EntityId;

verus! {

/// How long the original attacker is stunned when a counter negates its hit.
pub const STUN_ON_NEGATION_MS: u64 = 10000;

/// The combat-relevant state of one actor.
#[derive(Clone, Copy, PartialEq, Eq, Structural, Debug)]
pub struct Actor {
    pub health: Health,
    /// While `Some`, a counter stance is active: one incoming hit is negated
    /// and converted into a stun on the attacker. Carries the attack id of
    /// the negating instance.
    pub negating: Option<AttackId>,
    pub stunned: Option<Stunned>,
    pub is_player: bool,
}

/// All actors of the simulation, keyed by entity id.
pub type ActorStore = KeyedVec<Actor>;

/// An in-flight request to damage whatever occupies a grid cell.
#[derive(Clone, Copy, PartialEq, Eq, Structural, Debug)]
pub struct DamageIntent {
    pub attacker: EntityId,
    pub island: u64,
    pub target_pos: GridPos,
    pub amount: u64,
}

/// What one resolution broadcast to observers.
#[derive(Clone, Copy, PartialEq, Eq, Structural, Debug)]
pub enum CombatEvent {
    /// Damage landed; `remaining_health` is the victim's health afterwards.
    DamageDealt { amount: u64, position: GridPos, remaining_health: u64 },
    /// A negating child diverted the hit: no health was lost and the original
    /// attacker is stunned instead.
    DamageNegated { attacker: EntityId, victim: EntityId, negating_attack: AttackId },
    /// The victim reached zero health: despawned, its cell freed, its island's
    /// counter decremented. A removed player must leave the island.
    Removed { entity: EntityId, position: GridPos, was_player: bool },
}

/// How many removal events a broadcast holds.
pub open spec fn removed_count(ev: Seq<CombatEvent>) -> int
    decreases ev.len(),
{
    if ev.len() == 0 {
        0
    } else {
        removed_count(ev.drop_last()) + if ev.last() is Removed {
            1int
        } else {
            0int
        }
    }
}

/// A stun applied this very resolution.
pub open spec fn stun_fresh(s: Option<Stunned>) -> bool {
    &&& s is Some
    &&& s->Some_0.timer.spec_elapsed() == 0
    &&& s->Some_0.timer.spec_duration() == STUN_ON_NEGATION_MS
}

/// The negation outcome: the victim keeps its health, the negating instance
/// is consumed, and the attacker receives exactly one fresh stun.
pub open spec fn negation_post(
    m0: SpatialGrid,
    m1: SpatialGrid,
    a0: ActorStore,
    a1: ActorStore,
    attacker: EntityId,
    v: EntityId,
    nid: AttackId,
    ev: Seq<CombatEvent>,
) -> bool {
    &&& m1 == m0
    &&& ev.len() == 1
    &&& ev[0] == (CombatEvent::DamageNegated { attacker, victim: v, negating_attack: nid })
    &&& forall|k: u64| #[trigger] a1.spec_has(k) == a0.spec_has(k)
    &&& a1.spec_get(v).health == a0.spec_get(v).health
    &&& a1.spec_get(v).negating is None
    &&& a1.spec_get(v).is_player == a0.spec_get(v).is_player
    &&& (a0.spec_has(attacker) ==> stun_fresh(a1.spec_get(attacker).stunned))
    &&& (attacker != v ==> a1.spec_get(v).stunned == a0.spec_get(v).stunned)
    &&& (a0.spec_has(attacker) && attacker != v ==> a1.spec_get(attacker).health == a0.spec_get(
        attacker,
    ).health && a1.spec_get(attacker).negating == a0.spec_get(attacker).negating && a1.spec_get(
        attacker,
    ).is_player == a0.spec_get(attacker).is_player)
    &&& forall|k: u64|
        k != v && k != attacker && a0.spec_has(k) ==> #[trigger] a1.spec_get(k) == a0.spec_get(k)
}

/// The plain-damage outcome: health drops with a floor at zero; reaching
/// exactly zero emits one removal, frees the cell and decrements the island's
/// counter for the victim's side.
pub open spec fn damage_post(
    m0: SpatialGrid,
    m1: SpatialGrid,
    a0: ActorStore,
    a1: ActorStore,
    pos: GridPos,
    amount: u64,
    v: EntityId,
    ev: Seq<CombatEvent>,
) -> bool {
    let h0 = a0.spec_get(v).health.spec_value();
    let remaining = if h0 >= amount {
        h0 - amount
    } else {
        0int
    };
    if remaining > 0 {
        &&& m1 == m0
        &&& ev.len() == 1
        &&& ev[0] == (CombatEvent::DamageDealt {
            amount,
            position: pos,
            remaining_health: remaining as u64,
        })
        &&& forall|k: u64| #[trigger] a1.spec_has(k) == a0.spec_has(k)
        &&& a1.spec_get(v).health.spec_value() == remaining
        &&& a1.spec_get(v).health.spec_max() == a0.spec_get(v).health.spec_max()
        &&& a1.spec_get(v).negating == a0.spec_get(v).negating
        &&& a1.spec_get(v).stunned == a0.spec_get(v).stunned
        &&& a1.spec_get(v).is_player == a0.spec_get(v).is_player
        &&& forall|k: u64|
            k != v && a0.spec_has(k) ==> #[trigger] a1.spec_get(k) == a0.spec_get(k)
    } else {
        let was_player = a0.spec_get(v).is_player;
        &&& ev.len() == 2
        &&& ev[0] == (CombatEvent::DamageDealt { amount, position: pos, remaining_health: 0u64 })
        &&& ev[1] == (CombatEvent::Removed { entity: v, position: pos, was_player })
        &&& !a1.spec_has(v)
        &&& forall|k: u64|
            k != v ==> (#[trigger] a1.spec_has(k) == a0.spec_has(k) && (a0.spec_has(k)
                ==> a1.spec_get(k) == a0.spec_get(k)))
        &&& m1.spec_tile(pos) == crate::tile::Tile::empty_spec()
        &&& forall|x: int, y: int, z: int|
            !(x == pos.x as int && y == pos.y as int && z == pos.z as int)
                ==> m1.spec_tile_at(x, y, z) == m0.spec_tile_at(x, y, z)
        &&& m1.spec_leave_position() == m0.spec_leave_position()
        &&& (was_player ==> m1.spec_player_count() == (if m0.spec_player_count() > 0 {
            m0.spec_player_count() - 1
        } else {
            0int
        }) && m1.spec_enemy_count() == m0.spec_enemy_count())
        &&& (!was_player ==> m1.spec_enemy_count() == (if m0.spec_enemy_count() > 0 {
            m0.spec_enemy_count() - 1
        } else {
            0int
        }) && m1.spec_player_count() == m0.spec_player_count())
        &&& !m1.spec_entities().contains(v)
        &&& forall|e: EntityId|
            e != v ==> (#[trigger] m1.spec_entities().contains(e) == m0.spec_entities().contains(
                e,
            ))
    }
}

/// The full outcome of resolving one damage intent against grid `m0` and
/// actors `a0`: a miss is silently dropped; a negating child diverts the hit;
/// otherwise health is reduced with a floor at zero and reaching zero removes
/// the victim.
pub open spec fn resolve_post(
    m0: SpatialGrid,
    m1: SpatialGrid,
    a0: ActorStore,
    a1: ActorStore,
    attacker: EntityId,
    pos: GridPos,
    amount: u64,
    ev: Seq<CombatEvent>,
) -> bool {
    match m0.spec_get_target(pos) {
        None => m1 == m0 && a1 == a0 && ev.len() == 0,
        Some(v) => {
            if !a0.spec_has(v) {
                m1 == m0 && a1 == a0 && ev.len() == 0
            } else {
                match a0.spec_get(v).negating {
                    Some(nid) => negation_post(m0, m1, a0, a1, attacker, v, nid, ev),
                    None => damage_post(m0, m1, a0, a1, pos, amount, v, ev),
                }
            }
        },
    }
}

/// Resolve one damage intent against a single island's grid and the actor
/// store. Returns the events to broadcast.
pub fn resolve_damage(
    map: &mut SpatialGrid,
    actors: &mut ActorStore,
    attacker: EntityId,
    target_pos: GridPos,
    amount: u64,
) -> (events: Vec<CombatEvent>)
    requires
        old(map).wf(),
        old(actors).wf(),
    ensures
        final(map).wf(),
        final(actors).wf(),
        resolve_post(
            *old(map),
            *final(map),
            *old(actors),
            *final(actors),
            attacker,
            target_pos,
            amount,
            events@,
        ),
{
    let mut events: Vec<CombatEvent> = Vec::new();
    let victim = match map.get_target(target_pos) {
        Some(v) => v,
        None => {
            return events;
        },
    };
    let actor = match actors.get(victim) {
        Some(a) => *a,
        None => {
            return events;
        },
    };
    match actor.negating {
        Some(nid) => {
            // the counter stance consumes itself and diverts the hit
            let consumed = Actor {
                health: actor.health,
                negating: None,
                stunned: if attacker == victim {
                    Some(Stunned::new(STUN_ON_NEGATION_MS))
                } else {
                    actor.stunned
                },
                is_player: actor.is_player,
            };
            actors.set(victim, consumed);
            let ghost a_mid = *actors;
            if attacker != victim {
                match actors.get(attacker) {
                    Some(att) => {
                        let stunned_attacker = Actor {
                            health: att.health,
                            negating: att.negating,
                            stunned: Some(Stunned::new(STUN_ON_NEGATION_MS)),
                            is_player: att.is_player,
                        };
                        actors.set(attacker, stunned_attacker);
                        proof {
                            assert(actors.spec_has(victim) == a_mid.spec_has(victim));
                            assert(actors.spec_get(victim) == a_mid.spec_get(victim));
                            assert(actors.spec_get(victim) == consumed);
                            assert(actors.spec_get(attacker) == stunned_attacker);
                        }
                    },
                    None => {
                        proof {
                            assert(actors.spec_get(victim) == consumed);
                        }
                    },
                }
            } else {
                proof {
                    assert(actors.spec_get(victim) == consumed);
                }
            }
            proof {
                assert forall|k: u64|
                    k != victim && k != attacker && old(actors).spec_has(k) implies #[trigger] actors.spec_get(
                    k,
                ) == old(actors).spec_get(k) by {
                    assert(a_mid.spec_has(k) == old(actors).spec_has(k));
                    assert(actors.spec_has(k) == a_mid.spec_has(k));
                    assert(a_mid.spec_get(k) == old(actors).spec_get(k));
                    assert(actors.spec_get(k) == a_mid.spec_get(k));
                }
            }
            events.push(
                CombatEvent::DamageNegated { attacker, victim, negating_attack: nid },
            );
            proof {
                assert(events@ =~= seq![
                    CombatEvent::DamageNegated { attacker, victim, negating_attack: nid },
                ]);
            }
            events
        },
        None => {
            let mut health = actor.health;
            let remaining = health.damage(amount);
            let updated = Actor {
                health,
                negating: actor.negating,
                stunned: actor.stunned,
                is_player: actor.is_player,
            };
            actors.set(victim, updated);
            let ghost a_mid = *actors;
            proof {
                assert(actors.spec_get(victim) == updated);
                assert forall|k: u64|
                    k != victim && old(actors).spec_has(k) implies #[trigger] actors.spec_get(k)
                    == old(actors).spec_get(k) by {
                    assert(actors.spec_has(k) == old(actors).spec_has(k));
                }
            }
            events.push(
                CombatEvent::DamageDealt {
                    amount,
                    position: target_pos,
                    remaining_health: remaining,
                },
            );
            if remaining == 0 {
                actors.remove(victim);
                proof {
                    assert(!actors.spec_has(victim));
                    assert forall|k: u64|
                        k != victim implies (#[trigger] actors.spec_has(k) == old(
                        actors,
                    ).spec_has(k) && (old(actors).spec_has(k) ==> actors.spec_get(k) == old(
                        actors,
                    ).spec_get(k))) by {
                        assert(actors.spec_has(k) == a_mid.spec_has(k));
                        assert(a_mid.spec_has(k) == old(actors).spec_has(k));
                        if old(actors).spec_has(k) {
                            assert(actors.spec_get(k) == a_mid.spec_get(k));
                            assert(a_mid.spec_get(k) == old(actors).spec_get(k));
                        }
                    }
                }
                map.remove_entity(target_pos);
                map.remove_entity_id(victim);
                if actor.is_player {
                    map.saturating_dec_player_count();
                } else {
                    map.saturating_dec_enemy_count();
                }
                proof {
                    assert(map.spec_tile(target_pos) == crate::tile::Tile::empty_spec());
                    assert(!map.spec_entities().contains(victim));
                }
                events.push(
                    CombatEvent::Removed {
                        entity: victim,
                        position: target_pos,
                        was_player: actor.is_player,
                    },
                );
                proof {
                    assert(events@ =~= seq![
                        CombatEvent::DamageDealt {
                            amount,
                            position: target_pos,
                            remaining_health: 0u64,
                        },
                        CombatEvent::Removed {
                            entity: victim,
                            position: target_pos,
                            was_player: actor.is_player,
                        },
                    ]);
                }
            }
            events
        },
    }
}

/// Resolve a damage intent at the registry level: look up the island's grid;
/// an intent against an absent island is silently dropped.
pub fn resolve(islands: &mut IslandMaps, actors: &mut ActorStore, intent: &DamageIntent) -> (
    events: Vec<CombatEvent>)
    requires
        old(islands).wf(),
        old(actors).wf(),
    ensures
        final(islands).wf(),
        final(actors).wf(),
        !old(islands).spec_has(intent.island) ==> (*final(islands) == *old(islands)
            && *final(actors) == *old(actors) && events@.len() == 0),
        old(islands).spec_has(intent.island) ==> {
            &&& final(islands).spec_has(intent.island)
            &&& resolve_post(
                old(islands).spec_map(intent.island),
                final(islands).spec_map(intent.island),
                *old(actors),
                *final(actors),
                intent.attacker,
                intent.target_pos,
                intent.amount,
                events@,
            )
            &&& forall|other: u64|
                other != intent.island ==> (#[trigger] final(islands).spec_has(other) == old(
                    islands,
                ).spec_has(other) && (old(islands).spec_has(other) ==> final(islands).spec_map(
                    other,
                ) == old(islands).spec_map(other)))
        },
{
    let present = islands.get_map(intent.island).is_some();
    if !present {
        return Vec::new();
    }
    proof {
        crate::registry::lemma_island_idx_props(islands.entries(), intent.island);
    }
    let ghost idx = island_idx(old(islands).entries(), intent.island)->Some_0;
    let m = islands.get_map_mut(intent.island);
    let events = resolve_damage(m, actors, intent.attacker, intent.target_pos, intent.amount);
    proof {
        let mm = islands.entries()[idx].map;
        IslandMaps::lemma_after_map_update(*old(islands), *islands, intent.island, mm);
    }
    events
}

/// Law: damage never drives health below zero, and reaching exactly zero
/// triggers exactly one removal event. The killing resolution emits one
/// removal and frees the victim's cell, so a second resolution against the
/// same cell finds no target and emits nothing.
pub proof fn lemma_single_removal(
    m0: SpatialGrid,
    m1: SpatialGrid,
    m2: SpatialGrid,
    a0: ActorStore,
    a1: ActorStore,
    a2: ActorStore,
    attacker: EntityId,
    pos: GridPos,
    amount: u64,
    ev1: Seq<CombatEvent>,
    ev2: Seq<CombatEvent>,
)
    requires
        resolve_post(m0, m1, a0, a1, attacker, pos, amount, ev1),
        resolve_post(m1, m2, a1, a2, attacker, pos, amount, ev2),
        // the first hit lands on an actor without a counter stance and kills it
        m0.spec_get_target(pos) is Some,
        a0.spec_has(m0.spec_get_target(pos)->Some_0),
        a0.spec_get(m0.spec_get_target(pos)->Some_0).negating is None,
        a0.spec_get(m0.spec_get_target(pos)->Some_0).health.spec_value() <= amount,
        a0.spec_get(m0.spec_get_target(pos)->Some_0).health.spec_value() > 0,
    ensures
        removed_count(ev1) == 1,
        removed_count(ev2) == 0,
        m1.spec_get_target(pos) is None,
{
    let v = m0.spec_get_target(pos)->Some_0;
    assert(damage_post(m0, m1, a0, a1, pos, amount, v, ev1));
    let h0 = a0.spec_get(v).health.spec_value();
    assert((if h0 >= amount { h0 - amount as int } else { 0int }) == 0);
    assert(ev1.len() == 2 && ev1[1] is Removed && !(ev1[0] is Removed));
    assert(removed_count(ev1) == 1) by {
        reveal_with_fuel(removed_count, 3);
        assert(ev1.drop_last().len() == 1);
        assert(ev1.drop_last().drop_last().len() == 0);
        assert(ev1.drop_last()[0] == ev1[0]);
        assert(ev1.drop_last().last() == ev1[0]);
        assert(ev1.last() == ev1[1]);
    }
    assert(m1.spec_tile(pos) == crate::tile::Tile::empty_spec());
    assert(m1.spec_get_target(pos) is None);
    assert(ev2.len() == 0);
}

/// Law: when a negating child is present on the target, the target's health
/// is unchanged by resolution, the negating instance is consumed, and the
/// original attacker receives exactly one stun application.
pub proof fn lemma_negation_protects_target(
    m0: SpatialGrid,
    m1: SpatialGrid,
    a0: ActorStore,
    a1: ActorStore,
    attacker: EntityId,
    pos: GridPos,
    amount: u64,
    ev: Seq<CombatEvent>,
)
    requires
        resolve_post(m0, m1, a0, a1, attacker, pos, amount, ev),
        m0.spec_get_target(pos) is Some,
        a0.spec_has(m0.spec_get_target(pos)->Some_0),
        a0.spec_get(m0.spec_get_target(pos)->Some_0).negating is Some,
        a0.spec_has(attacker),
    ensures
        ({
            let v = m0.spec_get_target(pos)->Some_0;
            &&& a1.spec_get(v).health == a0.spec_get(v).health
            &&& a1.spec_get(v).negating is None
            &&& stun_fresh(a1.spec_get(attacker).stunned)
            &&& removed_count(ev) == 0
            &&& ev.len() == 1
            &&& m1 == m0
        }),
{
    let v = m0.spec_get_target(pos)->Some_0;
    let nid = a0.spec_get(v).negating->Some_0;
    assert(negation_post(m0, m1, a0, a1, attacker, v, nid, ev));
    assert(ev.len() == 1 && !(ev[0] is Removed));
    assert(removed_count(ev) == 0) by {
        reveal_with_fuel(removed_count, 2);
        assert(ev.drop_last().len() == 0);
        assert(ev.last() == ev[0]);
    }
}

} // verus!
