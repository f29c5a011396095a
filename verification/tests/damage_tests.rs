use dice_venture::combat::key_of;
use dice_venture::damage::{
    resolve, resolve_damage, Actor, ActorStore, CombatEvent, DamageIntent, STUN_ON_NEGATION_MS,
};
use dice_venture::grid::SpatialGrid;
use dice_venture::humanoid::Health;
use dice_venture::pos::GridPos;
use dice_venture::registry::IslandMaps;
use dice_venture::tile::{Tile, TileKind};

fn actor(hp: u64, is_player: bool) -> Actor {
    Actor { health: Health::new(hp), negating: None, stunned: None, is_player }
}

#[test]
fn twenty_damage_against_fifteen_health_kills_exactly_once() {
    let mut map = SpatialGrid::new();
    let pos = GridPos::new(2, 0, 2);
    map.add_enemy(pos, 50);
    let mut actors = ActorStore::new();
    actors.set(50, actor(15, false));
    assert_eq!(map.enemy_count(), 1);

    let events = resolve_damage(&mut map, &mut actors, 1, pos, 20);
    assert_eq!(events.len(), 2);
    assert_eq!(
        events[0],
        CombatEvent::DamageDealt { amount: 20, position: pos, remaining_health: 0 }
    );
    assert_eq!(events[1], CombatEvent::Removed { entity: 50, position: pos, was_player: false });
    // the cell is freed, the counter decremented, the actor gone
    assert_eq!(map.get_tile(pos).kind, TileKind::Empty);
    assert_eq!(map.enemy_count(), 0);
    assert!(actors.get(50).is_none());

    // a second resolution at the same cell hits nothing: exactly one removal
    let again = resolve_damage(&mut map, &mut actors, 1, pos, 20);
    assert!(again.is_empty());
}

#[test]
fn damage_clamps_at_zero_health() {
    let mut h = Health::new(15);
    let remaining = h.damage(20);
    assert_eq!(remaining, 0);
    assert_eq!(h.get(), 0);
    let mut h2 = Health::new(30);
    assert_eq!(h2.damage(10), 20);
    assert_eq!(h2.damage(5), 15);
    assert_eq!(h2.max(), 30);
}

#[test]
fn surviving_hit_reports_remaining_health() {
    let mut map = SpatialGrid::new();
    let pos = GridPos::new(0, 0, 0);
    map.add_player(pos, 7);
    let mut actors = ActorStore::new();
    actors.set(7, actor(200, true));

    let events = resolve_damage(&mut map, &mut actors, 2, pos, 30);
    assert_eq!(events.len(), 1);
    assert_eq!(
        events[0],
        CombatEvent::DamageDealt { amount: 30, position: pos, remaining_health: 170 }
    );
    assert_eq!(actors.get(7).unwrap().health.get(), 170);
    assert_eq!(map.get_tile(pos).kind, TileKind::Player);
}

#[test]
fn negating_child_diverts_the_hit_and_stuns_the_attacker() {
    let mut map = SpatialGrid::new();
    let pos = GridPos::new(1, 0, 1);
    map.add_player(pos, 9);
    let mut actors = ActorStore::new();
    let counter_id = key_of("counter");
    actors.set(
        9,
        Actor { health: Health::new(100), negating: Some(counter_id), stunned: None, is_player: true },
    );
    actors.set(4, actor(50, false));

    let events = resolve_damage(&mut map, &mut actors, 4, pos, 25);
    assert_eq!(events.len(), 1);
    assert_eq!(
        events[0],
        CombatEvent::DamageNegated { attacker: 4, victim: 9, negating_attack: counter_id }
    );
    // target health unchanged, negating instance consumed
    let victim = actors.get(9).unwrap();
    assert_eq!(victim.health.get(), 100);
    assert!(victim.negating.is_none());
    // the attacker received exactly one fresh stun
    let attacker = actors.get(4).unwrap();
    let stun = attacker.stunned.unwrap();
    assert_eq!(stun.timer.remaining_ms(), STUN_ON_NEGATION_MS);
    // a second hit is no longer negated
    let events2 = resolve_damage(&mut map, &mut actors, 4, pos, 25);
    assert_eq!(events2.len(), 1);
    assert_eq!(
        events2[0],
        CombatEvent::DamageDealt { amount: 25, position: pos, remaining_health: 75 }
    );
}

#[test]
fn misses_are_silently_dropped() {
    let mut map = SpatialGrid::new();
    let mut actors = ActorStore::new();
    let events = resolve_damage(&mut map, &mut actors, 1, GridPos::new(5, 5, 5), 10);
    assert!(events.is_empty());
}

#[test]
fn intents_against_absent_islands_are_dropped() {
    let mut islands = IslandMaps::new();
    let mut actors = ActorStore::new();
    let intent =
        DamageIntent { attacker: 1, island: 42, target_pos: GridPos::new(0, 0, 0), amount: 5 };
    let events = resolve(&mut islands, &mut actors, &intent);
    assert!(events.is_empty());
}

#[test]
fn resolve_goes_through_the_island_registry() {
    let mut islands = IslandMaps::new();
    islands.ensure_island(3);
    let pos = GridPos::new(0, 0, 0);
    islands.get_map_mut(3).add_entity_at(pos, Tile::new(TileKind::Enemy, 8));
    let mut actors = ActorStore::new();
    actors.set(8, actor(10, false));
    let intent = DamageIntent { attacker: 1, island: 3, target_pos: pos, amount: 10 };
    let events = resolve(&mut islands, &mut actors, &intent);
    assert_eq!(events.len(), 2);
    assert_eq!(events[1], CombatEvent::Removed { entity: 8, position: pos, was_player: false });
    assert_eq!(islands.get_map(3).unwrap().get_tile(pos).kind, TileKind::Empty);
}
