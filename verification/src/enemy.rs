//! Enemy behaviour decisions: aggression, attack selection and the planning
//! step of enemy movement.

use vstd::prelude::*;
use crate::pos::GridPos;
use crate::grid::SpatialGrid;
use crate::tile::{Tile, TileKind, EntityId};
use crate::movement::MoveRule;
use crate::combat::{AttackId, AttackCooldowns, AttackCatalogue};
use crate::path::{astar, valid_step};

verus! {

/// The behavioural mode of an enemy.
#[derive(Clone, Copy, PartialEq, Eq, Structural, Debug)]
pub enum EnemyState {
    Idle,
    Searching,
    Attacking(EntityId),
    Fleeing,
}

/// Squared Euclidean distance between two cells.
pub open spec fn spec_dist_sq(a: GridPos, b: GridPos) -> int {
    let dx = a.x as int - b.x as int;
    let dy = a.y as int - b.y as int;
    let dz = a.z as int - b.z as int;
    dx * dx + dy * dy + dz * dz
}

fn dist_sq(a: GridPos, b: GridPos) -> (r: u128)
    ensures
        r == spec_dist_sq(a, b),
{
    let dx = (a.x as i64 - b.x as i64) as i128;
    let dy = (a.y as i64 - b.y as i64) as i128;
    let dz = (a.z as i64 - b.z as i64) as i128;
    proof {
        assert(dx * dx <= 0x100000000int * 0x100000000int && dx * dx >= 0)
            by (nonlinear_arith)
            requires
                -0x100000000 <= dx <= 0x100000000,
        ;
        assert(dy * dy <= 0x100000000int * 0x100000000int && dy * dy >= 0)
            by (nonlinear_arith)
            requires
                -0x100000000 <= dy <= 0x100000000,
        ;
        assert(dz * dz <= 0x100000000int * 0x100000000int && dz * dz >= 0)
            by (nonlinear_arith)
            requires
                -0x100000000 <= dz <= 0x100000000,
        ;
    }
    (dx * dx + dy * dy + dz * dz) as u128
}

/// The closest listed actor within `range` cells of `enemy_pos`; ties go to
/// the earliest listed. `None` when nobody is in range.
pub fn find_closest_in_range(
    players: &Vec<(GridPos, EntityId)>,
    enemy_pos: GridPos,
    range: u32,
) -> (r: Option<EntityId>)
    ensures
        match r {
            None => forall|j: int|
                0 <= j < players@.len() ==> spec_dist_sq((#[trigger] players@[j]).0, enemy_pos)
                    > range as int * range as int,
            Some(e) => exists|i: int|
                {
                    &&& 0 <= i < players@.len()
                    &&& (#[trigger] players@[i]).1 == e
                    &&& spec_dist_sq(players@[i].0, enemy_pos) <= range as int * range as int
                    &&& forall|j: int|
                        0 <= j < players@.len() ==> spec_dist_sq(
                            (#[trigger] players@[j]).0,
                            enemy_pos,
                        ) >= spec_dist_sq(players@[i].0, enemy_pos)
                    &&& forall|j: int|
                        0 <= j < i ==> spec_dist_sq((#[trigger] players@[j]).0, enemy_pos)
                            > spec_dist_sq(players@[i].0, enemy_pos)
                },
        },
{
    proof {
        assert((range as int) * (range as int) <= 0xFFFFFFFFint * 0xFFFFFFFFint)
            by (nonlinear_arith)
            requires
                0 <= range as int <= 0xFFFFFFFF,
        ;
    }
    let range_sq = range as u128 * range as u128;
    let mut best: Option<usize> = None;
    let mut best_d: u128 = 0;
    let n = players.len();
    let mut i: usize = 0;
    while i < n
        invariant
            n == players@.len(),
            i <= n,
            range_sq == range as int * range as int,
            match best {
                None => forall|j: int|
                    0 <= j < i as int ==> spec_dist_sq((#[trigger] players@[j]).0, enemy_pos)
                        > range as int * range as int,
                Some(b) => {
                    &&& (b as int) < i as int
                    &&& best_d == spec_dist_sq(players@[b as int].0, enemy_pos)
                    &&& best_d <= range as int * range as int
                    &&& forall|j: int|
                        0 <= j < i as int ==> spec_dist_sq(
                            (#[trigger] players@[j]).0,
                            enemy_pos,
                        ) >= best_d
                    &&& forall|j: int|
                        0 <= j < b as int ==> spec_dist_sq(
                            (#[trigger] players@[j]).0,
                            enemy_pos,
                        ) > best_d
                },
            },
        decreases n - i,
    {
        let (pos, _entity) = players[i];
        let d = dist_sq(pos, enemy_pos);
        proof {
            assert(players@[i as int].0 == pos);
            assert(d == spec_dist_sq(players@[i as int].0, enemy_pos));
            assert(range_sq == range as int * range as int);
        }
        let take = match best {
            None => d <= range_sq,
            Some(_) => d <= range_sq && d < best_d,
        };
        if take {
            best = Some(i);
            best_d = d;
        }
        i = i + 1;
    }
    match best {
        Some(b) => Some(players[b].1),
        None => None,
    }
}

/// The aggression rule: an enemy that is not attacking locks onto the closest
/// actor in range, or idles when nobody is near; one that is attacking keeps
/// its target while the target exists and idles once it is gone.
pub fn next_enemy_state(current: EnemyState, closest: Option<EntityId>, target_alive: bool) -> (r:
    EnemyState)
    ensures
        !(current is Attacking) ==> r == match closest {
            Some(e) => EnemyState::Attacking(e),
            None => EnemyState::Idle,
        },
        current is Attacking && target_alive ==> r == current,
        current is Attacking && !target_alive ==> r is Idle,
{
    match current {
        EnemyState::Attacking(_) => {
            if target_alive {
                current
            } else {
                EnemyState::Idle
            }
        },
        _ => {
            match closest {
                Some(e) => EnemyState::Attacking(e),
                None => EnemyState::Idle,
            }
        },
    }
}


/// Whether the listed attack could strike the listed actor: the actor stands
/// at one of the attack's allowed offsets from the enemy.
pub open spec fn attack_reaches(
    spec_entry: crate::combat::AttackSpec,
    enemy_pos: GridPos,
    ppos: GridPos,
) -> bool {
    exists|oi: int|
        0 <= oi < spec_entry.offsets@.len() && ppos.x as int == enemy_pos.x as int
            + (#[trigger] spec_entry.offsets@[oi]).x as int && ppos.y as int == enemy_pos.y as int
            + spec_entry.offsets@[oi].y as int && ppos.z as int == enemy_pos.z as int
            + spec_entry.offsets@[oi].z as int
}

/// Pick the first ready attack that can reach a listed actor: the attack must
/// be registered, off cooldown, and some actor must stand at one of its
/// allowed offsets from the enemy. Returns the attack and the aim direction.
pub fn choose_enemy_attack(
    cooldowns: &AttackCooldowns,
    attacks: &Vec<AttackId>,
    catalogue: &AttackCatalogue,
    enemy_pos: GridPos,
    players: &Vec<(GridPos, EntityId)>,
) -> (r: Option<(AttackId, GridPos)>)
    requires
        cooldowns.wf(),
        catalogue.wf(),
    ensures
        match r {
            Some(choice) => {
                &&& attacks@.contains(choice.0)
                &&& catalogue.spec_has(choice.0)
                &&& (cooldowns.spec_has(choice.0) ==> cooldowns.spec_get(
                    choice.0,
                ).spec_finished())
                &&& catalogue.spec_get(choice.0).offsets@.contains(choice.1)
                &&& exists|j: int|
                    0 <= j < players@.len() && (#[trigger] players@[j]).0.x as int
                        == enemy_pos.x as int + choice.1.x as int && players@[j].0.y as int
                        == enemy_pos.y as int + choice.1.y as int && players@[j].0.z as int
                        == enemy_pos.z as int + choice.1.z as int
            },
            // nothing is chosen only when no registered, ready attack can
            // reach any listed actor
            None => forall|w: int|
                0 <= w < attacks@.len() ==> {
                    let id = #[trigger] attacks@[w];
                    catalogue.spec_has(id) && (cooldowns.spec_has(id)
                        ==> cooldowns.spec_get(id).spec_finished()) ==> forall|j: int|
                        0 <= j < players@.len() ==> !attack_reaches(
                            catalogue.spec_get(id),
                            enemy_pos,
                            (#[trigger] players@[j]).0,
                        )
                },
        },
{
    let n = attacks.len();
    let mut ai: usize = 0;
    while ai < n
        invariant
            cooldowns.wf(),
            catalogue.wf(),
            n == attacks@.len(),
            ai <= n,
            forall|w: int|
                0 <= w < ai as int ==> {
                    let id = #[trigger] attacks@[w];
                    catalogue.spec_has(id) && (cooldowns.spec_has(id)
                        ==> cooldowns.spec_get(id).spec_finished()) ==> forall|j: int|
                        0 <= j < players@.len() ==> !attack_reaches(
                            catalogue.spec_get(id),
                            enemy_pos,
                            (#[trigger] players@[j]).0,
                        )
                },
        decreases n - ai,
    {
        let id = attacks[ai];
        let ready = match cooldowns.get(id) {
            Some(t) => t.finished(),
            None => true,
        };
        if ready {
            match catalogue.get(id) {
                Some(spec_entry) => {
                    let pn = players.len();
                    let mut pi: usize = 0;
                    while pi < pn
                        invariant
                            cooldowns.wf(),
                            catalogue.wf(),
                            pn == players@.len(),
                            pi <= pn,
                            n == attacks@.len(),
                            ai < n,
                            attacks@[ai as int] == id,
                            catalogue.spec_has(id),
                            *spec_entry == catalogue.spec_get(id),
                            cooldowns.spec_has(id) ==> cooldowns.spec_get(id).spec_finished(),
                            forall|w: int|
                                0 <= w < ai as int ==> {
                                    let id2 = #[trigger] attacks@[w];
                                    catalogue.spec_has(id2) && (cooldowns.spec_has(id2)
                                        ==> cooldowns.spec_get(id2).spec_finished()) ==> forall|
                                        j: int,
                                    |
                                        0 <= j < players@.len() ==> !attack_reaches(
                                            catalogue.spec_get(id2),
                                            enemy_pos,
                                            (#[trigger] players@[j]).0,
                                        )
                                },
                            forall|j: int|
                                0 <= j < pi as int ==> !attack_reaches(
                                    *spec_entry,
                                    enemy_pos,
                                    (#[trigger] players@[j]).0,
                                ),
                        decreases pn - pi,
                    {
                        let (ppos, _e) = players[pi];
                        let dx = ppos.x as i64 - enemy_pos.x as i64;
                        let dy = ppos.y as i64 - enemy_pos.y as i64;
                        let dz = ppos.z as i64 - enemy_pos.z as i64;
                        let on = spec_entry.offsets.len();
                        let mut oi: usize = 0;
                        while oi < on
                            invariant
                                on == spec_entry.offsets@.len(),
                                oi <= on,
                                dx == ppos.x as int - enemy_pos.x as int,
                                dy == ppos.y as int - enemy_pos.y as int,
                                dz == ppos.z as int - enemy_pos.z as int,
                                n == attacks@.len(),
                                ai < n,
                                attacks@[ai as int] == id,
                                catalogue.spec_has(id),
                                *spec_entry == catalogue.spec_get(id),
                                cooldowns.spec_has(id) ==> cooldowns.spec_get(
                                    id,
                                ).spec_finished(),
                                pn == players@.len(),
                                pi < pn,
                                players@[pi as int].0 == ppos,
                                forall|w2: int|
                                    0 <= w2 < oi as int ==> !(ppos.x as int == enemy_pos.x as int
                                        + (#[trigger] spec_entry.offsets@[w2]).x as int
                                        && ppos.y as int == enemy_pos.y as int
                                        + spec_entry.offsets@[w2].y as int && ppos.z as int
                                        == enemy_pos.z as int
                                        + spec_entry.offsets@[w2].z as int),
                            decreases on - oi,
                        {
                            let o = spec_entry.offsets[oi];
                            if o.x as i64 == dx && o.y as i64 == dy && o.z as i64 == dz {
                                proof {
                                    assert(spec_entry.offsets@[oi as int] == o);
                                    assert(spec_entry.offsets@.contains(o));
                                    assert(attacks@.contains(id)) by {
                                        assert(attacks@[ai as int] == id);
                                    }
                                    assert(players@[pi as int].0 == ppos);
                                    assert(ppos.x as int == enemy_pos.x as int + o.x as int
                                        && ppos.y as int == enemy_pos.y as int + o.y as int
                                        && ppos.z as int == enemy_pos.z as int + o.z as int);
                                    assert((pi as int) < players@.len());
                                }
                                return Some((id, o));
                            }
                            oi = oi + 1;
                        }
                        proof {
                            assert(!attack_reaches(*spec_entry, enemy_pos, ppos));
                        }
                        pi = pi + 1;
                    }
                },
                None => (),
            }
        }
        proof {
            assert forall|w: int| 0 <= w < ai as int + 1 implies {
                let id2 = #[trigger] attacks@[w];
                catalogue.spec_has(id2) && (cooldowns.spec_has(id2) ==> cooldowns.spec_get(
                    id2,
                ).spec_finished()) ==> forall|j: int|
                    0 <= j < players@.len() ==> !attack_reaches(
                        catalogue.spec_get(id2),
                        enemy_pos,
                        (#[trigger] players@[j]).0,
                    )
            } by {
                if w == ai as int {
                    assert(attacks@[w] == id);
                }
            }
        }
        ai = ai + 1;
    }
    None
}

/// One planning tick of enemy movement: plan a path to the target with the
/// enemy's rule, and when one exists take its first step, moving the occupant
/// by the remove-then-add protocol. Returns the enemy's new position; `None`
/// comes back exactly when the enemy already stands at the target or no legal
/// rule-path reaches it, and the enemy then holds position.
pub fn advance_enemy(
    map: &mut SpatialGrid,
    enemy: EntityId,
    enemy_pos: GridPos,
    target_pos: GridPos,
    rule: &MoveRule,
) -> (r: Option<GridPos>)
    requires
        old(map).wf(),
    ensures
        final(map).wf(),
        r is None ==> enemy_pos == target_pos || !(exists|path: Seq<GridPos>|
            #[trigger] crate::path::valid_path(
                *old(map),
                rule.offsets@,
                rule.can_climb,
                rule.can_drop,
                enemy_pos,
                target_pos,
                path,
            ) && path.len() > 0),
        match r {
            Some(p) => {
                &&& valid_step(
                    *old(map),
                    rule.offsets@,
                    rule.can_climb,
                    rule.can_drop,
                    enemy_pos,
                    p,
                )
                &&& final(map).spec_tile(p) == (Tile { kind: TileKind::Enemy, entity: enemy })
                &&& (p != enemy_pos ==> final(map).spec_tile(enemy_pos) == Tile::empty_spec())
                &&& forall|x: int, y: int, z: int|
                    !(x == p.x as int && y == p.y as int && z == p.z as int) && !(x
                        == enemy_pos.x as int && y == enemy_pos.y as int && z
                        == enemy_pos.z as int) ==> final(map).spec_tile_at(x, y, z) == old(
                        map,
                    ).spec_tile_at(x, y, z)
            },
            None => forall|x: int, y: int, z: int|
                final(map).spec_tile_at(x, y, z) == old(map).spec_tile_at(x, y, z),
        },
        final(map).same_meta(*old(map)),
{
    let path = astar(enemy_pos, target_pos, map, rule);
    if path.len() > 0 {
        let next = path[0];
        map.remove_entity(enemy_pos);
        map.add_entity_at(next, Tile::new(TileKind::Enemy, enemy));
        Some(next)
    } else {
        None
    }
}

} // verus!
