use dice_venture::attacks::{perform_attack, DAGGER_RANGE, DAGGER_SPEED_MILLI};
use dice_venture::combat::{instance_for, key_of};
use dice_venture::grid::SpatialGrid;
use dice_venture::pos::GridPos;
use dice_venture::tile::{TerrainKind, Tile, TileKind, PLACEHOLDER_ENTITY};

fn flat_map() -> SpatialGrid {
    let mut g = SpatialGrid::new();
    for x in 0..6 {
        g.add_entity_at(
            GridPos::new(x, -1, 0),
            Tile::new(TileKind::Terrain(TerrainKind::Sand), PLACEHOLDER_ENTITY),
        );
    }
    g
}

#[test]
fn melee_swing_raises_one_intent_at_the_aimed_cell() {
    let g = flat_map();
    let mut swing = instance_for(key_of("base_attack"), GridPos::new(1, 0, 0)).unwrap();
    // before the midpoint: nothing happens
    let early = perform_attack(&g, &mut swing, 1, GridPos::new(0, 0, 0), 0, 50);
    assert!(early.intents.is_empty() && !early.finished);
    // crossing the midpoint raises exactly one intent
    let fired = perform_attack(&g, &mut swing, 1, GridPos::new(0, 0, 0), 0, 60);
    assert_eq!(fired.intents.len(), 1);
    assert_eq!(fired.intents[0].target_pos, GridPos::new(1, 0, 0));
    assert_eq!(fired.intents[0].amount, 10);
    assert_eq!(fired.intents[0].attacker, 1);
    // the hit never fires twice
    let late = perform_attack(&g, &mut swing, 1, GridPos::new(0, 0, 0), 0, 200);
    assert!(late.intents.is_empty());
    assert!(late.finished);
}

#[test]
fn dagger_throw_releases_a_projectile() {
    let g = flat_map();
    let mut throw = instance_for(key_of("dagger_throw"), GridPos::new(0, 0, 1)).unwrap();
    let fired = perform_attack(&g, &mut throw, 2, GridPos::new(0, 0, 0), 0, 150);
    let p = fired.released.expect("the throw releases its projectile");
    assert_eq!(p.owner, 2);
    assert_eq!(p.direction, GridPos::new(0, 0, 1));
    assert_eq!(p.range, DAGGER_RANGE);
    assert_eq!(p.speed_milli, DAGGER_SPEED_MILLI);
    assert_eq!(p.damage, 8);
}

#[test]
fn dash_hits_the_run_and_reports_the_landing() {
    let mut g = flat_map();
    g.add_entity_at(GridPos::new(1, 0, 0), Tile::new(TileKind::Enemy, 31));
    g.add_entity_at(GridPos::new(2, 0, 0), Tile::new(TileKind::Enemy, 32));
    let mut dash = instance_for(key_of("cut_through"), GridPos::new(1, 0, 0)).unwrap();
    // a zero-duration phase fires immediately
    let fired = perform_attack(&g, &mut dash, 3, GridPos::new(0, 0, 0), 0, 1);
    assert!(fired.finished);
    assert_eq!(fired.intents.len(), 2);
    assert_eq!(fired.intents[0].target_pos, GridPos::new(1, 0, 0));
    assert_eq!(fired.intents[1].target_pos, GridPos::new(2, 0, 0));
    assert_eq!(fired.dash_landing, Some(GridPos::new(3, 0, 0)));
}

#[test]
fn counter_stance_has_no_active_effect() {
    let g = flat_map();
    let mut stance = instance_for(key_of("counter"), GridPos::new(1, 0, 0)).unwrap();
    let mid = perform_attack(&g, &mut stance, 4, GridPos::new(0, 0, 0), 0, 2600);
    assert!(mid.intents.is_empty() && mid.released.is_none());
    assert!(!mid.finished);
}

#[test]
fn leave_position_check_matches_the_portal_cell() {
    let mut g = SpatialGrid::new();
    g.set_leave_position(GridPos::new(3, 0, 3));
    assert!(g.is_at_leave_position(GridPos::new(3, 1, 3)));
    assert!(!g.is_at_leave_position(GridPos::new(3, 0, 3)));
    assert!(!g.is_at_leave_position(GridPos::new(4, 1, 3)));
}
