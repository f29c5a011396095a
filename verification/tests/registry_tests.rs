use dice_venture::pos::GridPos;
use dice_venture::registry::IslandMaps;
use dice_venture::tile::{TerrainKind, Tile, TileKind, PLACEHOLDER_ENTITY};

#[test]
fn lookups_tolerate_absent_islands() {
    let islands = IslandMaps::new();
    assert!(islands.get_map(7).is_none());
}

#[test]
fn ensure_island_creates_once() {
    let mut islands = IslandMaps::new();
    islands.ensure_island(1);
    islands.get_map_mut(1).add_player(GridPos::new(0, 0, 0), 10);
    // a second ensure call leaves the populated grid alone
    islands.ensure_island(1);
    assert_eq!(islands.get_map(1).unwrap().player_count(), 1);
}

#[test]
fn sweep_tears_down_islands_without_players() {
    let mut islands = IslandMaps::new();
    islands.ensure_island(1);
    islands.ensure_island(2);
    islands.ensure_island(3);
    islands.get_map_mut(1).add_player(GridPos::new(0, 0, 0), 10);
    // island 2 holds only an enemy: enemies alone do not keep it alive
    islands.get_map_mut(2).add_enemy(GridPos::new(0, 0, 0), 20);
    let removed = islands.sweep_empty_islands();
    assert!(islands.get_map(1).is_some());
    assert!(islands.get_map(2).is_none());
    assert!(islands.get_map(3).is_none());
    assert_eq!(removed.len(), 2);
    assert!(removed.contains(&2));
    assert!(removed.contains(&3));
}

#[test]
fn arrival_is_processed_before_the_teardown_sweep() {
    // an island whose player count drops to zero mid-tick, with a new arrival
    // queued in the same tick, is not torn down
    let mut islands = IslandMaps::new();
    islands.ensure_island(5);
    {
        let map = islands.get_map_mut(5);
        map.set_leave_position(GridPos::new(0, 0, 0));
        map.add_player(GridPos::new(0, 2, 0), 10);
        // ... the player leaves mid-tick
        map.remove_entity(GridPos::new(0, 2, 0));
        map.saturating_dec_player_count();
        assert_eq!(map.player_count(), 0);
    }
    let arrivals = vec![(5u64, 77u64)];
    let outcome = islands.end_of_tick(&arrivals);
    assert!(islands.get_map(5).is_some());
    assert_eq!(outcome.admitted, vec![(5, 77)]);
    assert!(outcome.removed.is_empty());
    assert_eq!(islands.get_map(5).unwrap().player_count(), 1);
}

#[test]
fn end_of_tick_still_sweeps_islands_without_arrivals() {
    let mut islands = IslandMaps::new();
    islands.ensure_island(5);
    islands.ensure_island(6);
    let arrivals = vec![(5u64, 77u64)];
    let outcome = islands.end_of_tick(&arrivals);
    assert!(islands.get_map(5).is_some());
    assert!(islands.get_map(6).is_none());
    assert_eq!(outcome.removed, vec![6]);
}

#[test]
fn admitted_players_spawn_above_the_portal_on_a_free_cell() {
    let mut islands = IslandMaps::new();
    islands.ensure_island(9);
    {
        let map = islands.get_map_mut(9);
        map.set_leave_position(GridPos::new(4, 0, 4));
        // the first candidate cell is taken; the next one along z is free
        map.add_entity_at(
            GridPos::new(4, 2, 4),
            Tile::new(TileKind::Terrain(TerrainKind::Rock), PLACEHOLDER_ENTITY),
        );
    }
    assert!(islands.admit_player(9, 31));
    let map = islands.get_map(9).unwrap();
    let spawned = map.get_tile(GridPos::new(4, 2, 5));
    assert_eq!(spawned.kind, TileKind::Player);
    assert_eq!(spawned.entity, 31);
    // arrivals to unknown islands are not admitted
    assert!(!islands.admit_player(1000, 32));
}

#[test]
fn departure_frees_the_cell_and_the_count() {
    let mut islands = IslandMaps::new();
    islands.ensure_island(2);
    {
        let map = islands.get_map_mut(2);
        map.set_leave_position(GridPos::new(0, 0, 0));
        map.add_player(GridPos::new(0, 1, 0), 21);
    }
    // standing beside the portal: nothing happens
    assert!(!islands.player_leaves_island(2, 21, GridPos::new(1, 1, 0)));
    // standing on the portal: the player departs
    assert!(islands.player_leaves_island(2, 21, GridPos::new(0, 1, 0)));
    let map = islands.get_map(2).unwrap();
    assert_eq!(map.get_tile(GridPos::new(0, 1, 0)).kind, TileKind::Empty);
    assert_eq!(map.player_count(), 0);
    // unknown islands reject the request
    assert!(!islands.player_leaves_island(9, 21, GridPos::new(0, 1, 0)));
}

#[test]
fn admitted_arrivals_are_listed_in_queue_order() {
    let mut islands = IslandMaps::new();
    islands.ensure_island(1);
    islands.get_map_mut(1).add_player(GridPos::new(5, 5, 5), 90);
    // island 7 does not exist: its arrival is not admitted
    let arrivals = vec![(1u64, 41u64), (7u64, 42u64), (1u64, 43u64)];
    let outcome = islands.end_of_tick(&arrivals);
    assert_eq!(outcome.admitted, vec![(1, 41), (1, 43)]);
    assert_eq!(islands.get_map(1).unwrap().player_count(), 3);
}
