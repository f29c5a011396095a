use dice_venture::combat::{key_of, AttackCatalogue, AttackCooldowns, AttackSpec};
use dice_venture::enemy::{
    advance_enemy, choose_enemy_attack, find_closest_in_range, next_enemy_state, EnemyState,
};
use dice_venture::grid::SpatialGrid;
use dice_venture::humanoid::{
    status_flags_to_action_state, sync_status_flags, ActionState, Status, Stunned,
};
use dice_venture::inventory::{apply_reward, CharacterXp, Gold, Inventory, ItemStack, RewardGrant};
use dice_venture::movement::{apply_movement, plan_move, rotate_direction, standard_move, standard_offsets};
use dice_venture::pos::GridPos;
use dice_venture::projectile::{Projectile, ProjectileStep};
use dice_venture::tile::{TerrainKind, Tile, TileKind, PLACEHOLDER_ENTITY};

fn terrain_at(g: &mut SpatialGrid, x: i32, y: i32, z: i32) {
    g.add_entity_at(
        GridPos::new(x, y, z),
        Tile::new(TileKind::Terrain(TerrainKind::Sand), PLACEHOLDER_ENTITY),
    );
}

#[test]
fn plan_move_steps_up_onto_terrain() {
    let mut g = SpatialGrid::new();
    terrain_at(&mut g, 1, 0, 0);
    let r = plan_move(&g, GridPos::new(0, 0, 0), GridPos::new(1, 0, 0));
    assert_eq!(r, Some(GridPos::new(1, 1, 0)));
    // a blocked cell above the step rejects the move
    terrain_at(&mut g, 1, 1, 0);
    assert_eq!(plan_move(&g, GridPos::new(0, 0, 0), GridPos::new(1, 0, 0)), None);
}

#[test]
fn plan_move_drops_one_cell_onto_supported_ground() {
    let mut g = SpatialGrid::new();
    terrain_at(&mut g, 1, -1, 0);
    // standing at y=1, stepping into air at y=1 drops to y=0 above terrain
    let r = plan_move(&g, GridPos::new(0, 1, 0), GridPos::new(1, 0, 0));
    assert_eq!(r, Some(GridPos::new(1, 0, 0)));
    // with no support two below, the step is rejected
    let r2 = plan_move(&g, GridPos::new(3, 1, 0), GridPos::new(1, 0, 0));
    assert_eq!(r2, None);
}

#[test]
fn plan_move_rejects_occupants() {
    let mut g = SpatialGrid::new();
    g.add_entity_at(GridPos::new(1, 0, 0), Tile::new(TileKind::Enemy, 5));
    assert_eq!(plan_move(&g, GridPos::new(0, 0, 0), GridPos::new(1, 0, 0)), None);
}

#[test]
fn apply_movement_follows_the_remove_then_add_protocol() {
    let mut g = SpatialGrid::new();
    terrain_at(&mut g, 1, -1, 0);
    let cur = GridPos::new(0, 0, 0);
    g.add_entity_at(cur, Tile::new(TileKind::Player, 3));
    let moved = apply_movement(&mut g, 3, cur, GridPos::new(1, 0, 0));
    assert_eq!(moved, Some(GridPos::new(1, 0, 0)));
    assert_eq!(g.get_tile(cur).kind, TileKind::Empty);
    let t = g.get_tile(GridPos::new(1, 0, 0));
    assert_eq!(t.kind, TileKind::Player);
    assert_eq!(t.entity, 3);
}

#[test]
fn rotate_direction_turns_by_camera_quadrant() {
    let d = GridPos::new(1, 0, 0);
    assert_eq!(rotate_direction(d, 0), d);
    assert_eq!(rotate_direction(d, 1), GridPos::new(0, 0, -1));
    assert_eq!(rotate_direction(d, 2), GridPos::new(-1, 0, 0));
    assert_eq!(rotate_direction(d, 3), GridPos::new(0, 0, 1));
    assert_eq!(rotate_direction(d, 9), d);
}

#[test]
fn projectile_flies_hits_and_expires() {
    let mut g = SpatialGrid::new();
    g.add_entity_at(GridPos::new(3, 0, 0), Tile::new(TileKind::Enemy, 40));
    // one tile per second, launched from the origin along +x
    let mut p = Projectile {
        owner: 1,
        direction: GridPos::new(1, 0, 0),
        origin: GridPos::new(0, 0, 0),
        traveled_milli: 0,
        range: 3,
        speed_milli: 1000,
        damage: 8,
    };
    assert_eq!(p.step(&g, 1000), ProjectileStep::Flying);
    assert_eq!(p.step(&g, 1000), ProjectileStep::Flying);
    assert_eq!(
        p.step(&g, 1000),
        ProjectileStep::Hit { position: GridPos::new(3, 0, 0), target: 40 }
    );

    // without a victim, the same flight expires at its range
    let g2 = SpatialGrid::new();
    let mut q = Projectile {
        owner: 1,
        direction: GridPos::new(1, 0, 0),
        origin: GridPos::new(0, 0, 0),
        traveled_milli: 0,
        range: 3,
        speed_milli: 1000,
        damage: 8,
    };
    assert_eq!(q.step(&g2, 1000), ProjectileStep::Flying);
    assert_eq!(q.step(&g2, 2000), ProjectileStep::Expired);

    // terrain blocks
    let mut g3 = SpatialGrid::new();
    terrain_at(&mut g3, 1, 0, 0);
    let mut b = Projectile {
        owner: 1,
        direction: GridPos::new(1, 0, 0),
        origin: GridPos::new(0, 0, 0),
        traveled_milli: 0,
        range: 3,
        speed_milli: 1000,
        damage: 8,
    };
    assert_eq!(b.step(&g3, 1000), ProjectileStep::Blocked);

    // the owner's own cell does not stop the projectile
    let mut g4 = SpatialGrid::new();
    g4.add_entity_at(GridPos::new(1, 0, 0), Tile::new(TileKind::Player, 1));
    let mut o = Projectile {
        owner: 1,
        direction: GridPos::new(1, 0, 0),
        origin: GridPos::new(0, 0, 0),
        traveled_milli: 0,
        range: 3,
        speed_milli: 1000,
        damage: 8,
    };
    assert_eq!(o.step(&g4, 1000), ProjectileStep::Flying);
}

#[test]
fn closest_target_in_range_wins_with_first_tie() {
    let players = vec![
        (GridPos::new(10, 0, 0), 1u64),
        (GridPos::new(2, 0, 0), 2u64),
        (GridPos::new(0, 2, 0), 3u64),
        (GridPos::new(50, 0, 0), 4u64),
    ];
    let r = find_closest_in_range(&players, GridPos::new(0, 0, 0), 8);
    assert_eq!(r, Some(2));
    assert_eq!(find_closest_in_range(&players, GridPos::new(200, 0, 0), 8), None);
}

#[test]
fn aggression_state_transitions() {
    assert_eq!(next_enemy_state(EnemyState::Idle, Some(5), false), EnemyState::Attacking(5));
    assert_eq!(next_enemy_state(EnemyState::Idle, None, false), EnemyState::Idle);
    assert_eq!(
        next_enemy_state(EnemyState::Attacking(5), Some(6), true),
        EnemyState::Attacking(5)
    );
    assert_eq!(next_enemy_state(EnemyState::Attacking(5), None, false), EnemyState::Idle);
}

#[test]
fn enemy_attack_selection_requires_reach_and_readiness() {
    let mut catalogue = AttackCatalogue::new();
    let id = key_of("base_attack");
    catalogue.set(
        id,
        AttackSpec { offsets: standard_offsets(), cooldown_ms: 400, damage: 10 },
    );
    let cooldowns = AttackCooldowns::new();
    let attacks = vec![id];
    let enemy_pos = GridPos::new(0, 0, 0);
    let players = vec![(GridPos::new(0, 0, 1), 9u64)];
    let choice = choose_enemy_attack(&cooldowns, &attacks, &catalogue, enemy_pos, &players);
    assert_eq!(choice, Some((id, GridPos::new(0, 0, 1))));
    // out of reach: no choice
    let far = vec![(GridPos::new(0, 0, 3), 9u64)];
    assert_eq!(choose_enemy_attack(&cooldowns, &attacks, &catalogue, enemy_pos, &far), None);
}

#[test]
fn enemies_advance_one_step_along_the_planned_path() {
    let mut g = SpatialGrid::new();
    for x in 0..4 {
        terrain_at(&mut g, x, -1, 0);
    }
    let enemy_pos = GridPos::new(0, 0, 0);
    g.add_enemy(enemy_pos, 13);
    let rule = standard_move();
    let stepped = advance_enemy(&mut g, 13, enemy_pos, GridPos::new(3, 0, 0), &rule);
    assert_eq!(stepped, Some(GridPos::new(1, 0, 0)));
    assert_eq!(g.get_tile(enemy_pos).kind, TileKind::Empty);
    assert_eq!(g.get_tile(GridPos::new(1, 0, 0)).entity, 13);
}

#[test]
fn stun_flags_follow_the_timer_and_drive_the_action_state() {
    let stun = Stunned::new(100);
    let (flags, remaining) = sync_status_flags(Some(stun), 40);
    assert!(flags.stunned);
    assert!(remaining.is_some());
    let (flags2, remaining2) = sync_status_flags(remaining, 60);
    assert!(!flags2.stunned);
    assert!(remaining2.is_none());
    let (flags3, r3) = sync_status_flags(None, 50);
    assert!(!flags3.stunned && r3.is_none());

    assert_eq!(status_flags_to_action_state(flags, ActionState::Moving), ActionState::Stunned);
    assert_eq!(status_flags_to_action_state(flags2, ActionState::Stunned), ActionState::Idle);
    assert_eq!(
        status_flags_to_action_state(Status::empty(), ActionState::Attacking),
        ActionState::Attacking
    );
}

#[test]
fn inventory_merges_then_fills_then_drops() {
    let mut inv = Inventory::new(2);
    assert!(inv.add_item(ItemStack { id: 5, qty: 2 }));
    assert!(inv.add_item(ItemStack { id: 5, qty: 3 }));
    assert_eq!(inv.slots[0], Some(ItemStack { id: 5, qty: 5 }));
    assert!(inv.add_item(ItemStack { id: 6, qty: 1 }));
    // both slots taken by other items: the stack is dropped
    assert!(!inv.add_item(ItemStack { id: 7, qty: 1 }));
    assert_eq!(inv.slots.len(), 2);
}

#[test]
fn rewards_accrue_xp_gold_and_items() {
    let mut xp = CharacterXp { value: 3, level: 0 };
    let mut gold = Gold { value: 10 };
    let mut inv = Inventory::new(4);
    let grant = RewardGrant { items: vec![ItemStack { id: 1, qty: 2 }], xp: 5, gold: 7 };
    apply_reward(&mut xp, &mut gold, &mut inv, &grant);
    assert_eq!(xp.value, 8);
    assert_eq!(gold.value, 17);
    assert_eq!(inv.slots[0], Some(ItemStack { id: 1, qty: 2 }));
}
