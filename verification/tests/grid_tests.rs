use dice_venture::grid::SpatialGrid;
use dice_venture::pos::GridPos;
use dice_venture::tile::{EntityId, TerrainKind, Tile, TileKind, PLACEHOLDER_ENTITY};

fn terrain(kind: TerrainKind) -> Tile {
    Tile::new(TileKind::Terrain(kind), PLACEHOLDER_ENTITY)
}

#[test]
fn empty_grid_reads_empty_everywhere() {
    let g = SpatialGrid::new();
    let t = g.get_tile(GridPos::new(5, -3, 1000));
    assert_eq!(t.kind, TileKind::Empty);
    assert_eq!(t.entity, PLACEHOLDER_ENTITY);
    assert_eq!(g.player_count(), 0);
    assert_eq!(g.enemy_count(), 0);
}

#[test]
fn remove_after_add_restores_empty() {
    // the round trip at positive, negative and mixed coordinates
    let positions = vec![
        GridPos::new(0, 0, 0),
        GridPos::new(3, 1, 2),
        GridPos::new(-1, -1, -1),
        GridPos::new(-17, 40, -33),
        GridPos::new(100000, -100000, 7),
    ];
    for p in positions {
        let mut g = SpatialGrid::new();
        g.add_entity_at(p, Tile::new(TileKind::Player, 42));
        assert_eq!(g.get_tile(p).kind, TileKind::Player);
        assert_eq!(g.get_tile(p).entity, 42);
        g.remove_entity(p);
        let t = g.get_tile(p);
        assert_eq!(t.kind, TileKind::Empty);
        assert_eq!(t.entity, PLACEHOLDER_ENTITY);
    }
}

#[test]
fn writes_do_not_disturb_other_cells() {
    let mut g = SpatialGrid::new();
    let a = GridPos::new(1, 0, 1);
    let b = GridPos::new(2, 0, 1);
    let far = GridPos::new(-500, 3, 911);
    g.add_entity_at(a, Tile::new(TileKind::Player, 1));
    g.add_entity_at(b, Tile::new(TileKind::Enemy, 2));
    g.add_entity_at(far, terrain(TerrainKind::Rock));
    g.remove_entity(b);
    assert_eq!(g.get_tile(a).kind, TileKind::Player);
    assert_eq!(g.get_tile(b).kind, TileKind::Empty);
    assert_eq!(g.get_tile(far).kind, TileKind::Terrain(TerrainKind::Rock));
}

#[test]
fn world_chunk_local_round_trip() {
    let g = SpatialGrid::new();
    // negative coordinates use floored division and non-negative remainders
    let cases = vec![
        (GridPos::new(-17, 0, 15), GridPos::new(-2, 0, 0), GridPos::new(15, 0, 15)),
        (GridPos::new(-1, -16, 16), GridPos::new(-1, -1, 1), GridPos::new(15, 0, 0)),
        (GridPos::new(0, 0, 0), GridPos::new(0, 0, 0), GridPos::new(0, 0, 0)),
        (GridPos::new(31, 47, -48), GridPos::new(1, 2, -3), GridPos::new(15, 15, 0)),
    ];
    for (world, chunk, local) in cases {
        assert_eq!(g.world_to_chunk_coords(world), chunk);
        assert_eq!(g.world_to_local_chunk_coords(world), local);
        // reconstructing the world position from the parts is exact
        assert_eq!(chunk.x * 16 + local.x, world.x);
        assert_eq!(chunk.y * 16 + local.y, world.y);
        assert_eq!(chunk.z * 16 + local.z, world.z);
    }
}

#[test]
fn chunk_to_world_inverts_the_split() {
    let g = SpatialGrid::new();
    let world = GridPos::new(-17, 33, 2);
    let chunk = g.world_to_chunk_coords(world);
    let local = g.world_to_local_chunk_coords(world);
    let idx = (local.x + 16 * (local.y + 16 * local.z)) as usize;
    assert_eq!(g.chunk_to_world_coords(chunk, idx), world);
}

#[test]
fn can_move_needs_terrain_below_and_free_cell() {
    let mut g = SpatialGrid::new();
    let ground = GridPos::new(0, -1, 0);
    let cell = GridPos::new(0, 0, 0);
    assert!(!g.can_move(cell));
    g.add_entity_at(ground, terrain(TerrainKind::Sand));
    assert!(g.can_move(cell));
    // a player does not block movement, an enemy does
    g.add_entity_at(cell, Tile::new(TileKind::Player, 9));
    assert!(g.can_move(cell));
    g.add_entity_at(cell, Tile::new(TileKind::Enemy, 9));
    assert!(!g.can_move(cell));
    g.add_entity_at(cell, terrain(TerrainKind::Rock));
    assert!(!g.can_move(cell));
}

#[test]
fn get_target_sees_occupants_not_terrain() {
    let mut g = SpatialGrid::new();
    let p = GridPos::new(4, 0, 4);
    assert_eq!(g.get_target(p), None);
    g.add_entity_at(p, terrain(TerrainKind::Sand));
    assert_eq!(g.get_target(p), None);
    g.add_entity_at(p, Tile::new(TileKind::Enemy, 77));
    assert_eq!(g.get_target(p), Some(77));
    g.add_entity_at(p, Tile::new(TileKind::Player, 78));
    assert_eq!(g.get_target(p), Some(78));
}

#[test]
fn occupant_helpers_update_counters_and_records() {
    let mut g = SpatialGrid::new();
    g.add_player(GridPos::new(0, 0, 0), 1);
    g.add_enemy(GridPos::new(1, 0, 0), 2);
    g.add_enemy(GridPos::new(2, 0, 0), 3);
    assert_eq!(g.player_count(), 1);
    assert_eq!(g.enemy_count(), 2);
    g.saturating_dec_enemy_count();
    assert_eq!(g.enemy_count(), 1);
    g.saturating_dec_player_count();
    g.saturating_dec_player_count();
    assert_eq!(g.player_count(), 0);
}

#[test]
fn update_position_rewrites_the_cell() {
    let mut g = SpatialGrid::new();
    let p = GridPos::new(6, 1, -2);
    g.add_entity_at(p, Tile::new(TileKind::Player, 5));
    g.update_position(11, p, TileKind::Enemy);
    let t = g.get_tile(p);
    assert_eq!(t.kind, TileKind::Enemy);
    assert_eq!(t.entity, 11);
}

#[test]
fn reset_clears_tiles_and_player_count() {
    let mut g = SpatialGrid::new();
    g.add_player(GridPos::new(0, 0, 0), 1);
    g.set_leave_position(GridPos::new(9, 0, 9));
    g.reset();
    assert_eq!(g.get_tile(GridPos::new(0, 0, 0)).kind, TileKind::Empty);
    assert_eq!(g.player_count(), 0);
    assert_eq!(g.leave_position(), GridPos::new(0, 0, 0));
}

#[test]
fn find_spawn_position_skips_occupied_cells() {
    let mut g = SpatialGrid::new();
    let start = GridPos::new(0, 2, 0);
    g.add_entity_at(GridPos::new(0, 2, 0), terrain(TerrainKind::Rock));
    g.add_entity_at(GridPos::new(0, 2, 1), Tile::new(TileKind::Enemy, 4));
    let spawn = g.find_spawn_position(start).unwrap();
    assert_eq!(spawn, GridPos::new(0, 2, 2));
}

#[test]
fn check_fit_rect_accepts_empty_footprints_only() {
    let mut g = SpatialGrid::new();
    let origin = GridPos::new(0, 0, 0);
    let dir = GridPos::new(0, 0, 1);
    let cells = g.check_fit_rect(origin, dir, 2, 3).unwrap();
    assert_eq!(cells.len(), 6);
    // blocking a later row rejects the footprint; the first row may overlap
    g.add_entity_at(GridPos::new(0, 0, 1), terrain(TerrainKind::Sand));
    assert!(g.check_fit_rect(origin, dir, 2, 3).is_none());
    g.remove_entity(GridPos::new(0, 0, 1));
    g.add_entity_at(origin, terrain(TerrainKind::Sand));
    assert!(g.check_fit_rect(origin, dir, 2, 3).is_some());
}

#[test]
fn shore_tiles_finds_sand_bordering_water() {
    let mut g = SpatialGrid::new();
    // a 3x1 sand bar at sea level: both ends touch empty cells
    for x in 0..3 {
        g.add_entity_at(GridPos::new(x, 0, 0), terrain(TerrainKind::Sand));
    }
    let shore = g.shore_tiles();
    // every cell of a thin bar borders water
    assert_eq!(shore.len(), 3);
    for p in &shore {
        assert_eq!(g.get_tile(*p).kind, TileKind::Terrain(TerrainKind::Sand));
        assert_eq!(p.y, 0);
    }
}

#[test]
fn above_water_top_tiles_keeps_highest_per_column() {
    let mut g = SpatialGrid::new();
    g.add_entity_at(GridPos::new(0, 0, 0), terrain(TerrainKind::Sand));
    g.add_entity_at(GridPos::new(0, 2, 0), terrain(TerrainKind::Rock));
    g.add_entity_at(GridPos::new(1, 0, 0), terrain(TerrainKind::Sand));
    g.add_entity_at(GridPos::new(2, -1, 0), terrain(TerrainKind::Sand));
    g.add_entity_at(GridPos::new(3, 0, 0), terrain(TerrainKind::PalmTree));
    let tops = g.above_water_top_tiles();
    assert_eq!(tops.len(), 2);
    assert!(tops.contains(&GridPos::new(0, 2, 0)));
    assert!(tops.contains(&GridPos::new(1, 0, 0)));
}

#[test]
fn entity_records_are_a_set() {
    let mut g = SpatialGrid::new();
    g.insert_entity(10);
    g.insert_entity(10);
    g.insert_entity(11);
    g.remove_entity_id(10);
    g.insert_entity(12 as EntityId);
    g.remove_entity_id(99);
    // removing and re-adding keeps the record consistent
    g.insert_entity(10);
    g.remove_entity_id(11);
    g.remove_entity_id(12);
    g.remove_entity_id(10);
    assert_eq!(g.player_count(), 0);
}

#[test]
fn unload_drops_far_chunks_and_keeps_near_ones() {
    let mut g = SpatialGrid::new();
    let near = GridPos::new(1, 0, 1);
    let far = GridPos::new(100, 0, 100);
    g.add_entity_at(near, terrain(TerrainKind::Sand));
    g.add_entity_at(far, terrain(TerrainKind::Sand));
    g.unload_chunks_far_from(GridPos::new(0, 0, 0), 2);
    assert_eq!(g.get_tile(near).kind, TileKind::Terrain(TerrainKind::Sand));
    assert_eq!(g.get_tile(far).kind, TileKind::Empty);
}

#[test]
fn loading_chunks_changes_no_cell() {
    let mut g = SpatialGrid::new();
    let p = GridPos::new(2, 0, 2);
    g.add_entity_at(p, terrain(TerrainKind::Rock));
    g.load_chunks_around(GridPos::new(0, 0, 0), 3);
    assert_eq!(g.get_tile(p).kind, TileKind::Terrain(TerrainKind::Rock));
    assert_eq!(g.get_tile(GridPos::new(30, 0, 30)).kind, TileKind::Empty);
}
