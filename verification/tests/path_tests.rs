use dice_venture::grid::SpatialGrid;
use dice_venture::movement::{
    bishop_rule, chebyshev, knight, knight_move, manhattan, queen_rule, rook_rule, standard_move,
};
use dice_venture::path::{astar, get_valid_neighbors};
use dice_venture::pos::GridPos;
use dice_venture::tile::{TerrainKind, Tile, TileKind, PLACEHOLDER_ENTITY};

fn terrain_at(g: &mut SpatialGrid, x: i32, y: i32, z: i32) {
    g.add_entity_at(
        GridPos::new(x, y, z),
        Tile::new(TileKind::Terrain(TerrainKind::Sand), PLACEHOLDER_ENTITY),
    );
}

/// A flat walkable strip at y = 0 supported by terrain at y = -1.
fn strip(len: i32) -> SpatialGrid {
    let mut g = SpatialGrid::new();
    for x in 0..len {
        terrain_at(&mut g, x, -1, 0);
    }
    g
}

#[test]
fn astar_on_flat_strip_returns_the_three_steps() {
    let g = strip(4);
    let rule = standard_move();
    let path = astar(GridPos::new(0, 0, 0), GridPos::new(3, 0, 0), &g, &rule);
    assert_eq!(
        path,
        vec![GridPos::new(1, 0, 0), GridPos::new(2, 0, 0), GridPos::new(3, 0, 0)]
    );
}

#[test]
fn astar_returns_empty_when_no_path_exists() {
    // two disconnected platforms
    let mut g = SpatialGrid::new();
    terrain_at(&mut g, 0, -1, 0);
    terrain_at(&mut g, 5, -1, 0);
    let rule = standard_move();
    let path = astar(GridPos::new(0, 0, 0), GridPos::new(5, 0, 0), &g, &rule);
    assert!(path.is_empty());
}

#[test]
fn astar_trivial_goal_is_empty() {
    let g = strip(2);
    let rule = standard_move();
    let path = astar(GridPos::new(0, 0, 0), GridPos::new(0, 0, 0), &g, &rule);
    assert!(path.is_empty());
}

#[test]
fn astar_climbs_single_steps_when_the_rule_allows() {
    // ground at y=-1 for x=0..2, then a raised cell at (2, 0): walk on top
    let mut g = SpatialGrid::new();
    terrain_at(&mut g, 0, -1, 0);
    terrain_at(&mut g, 1, -1, 0);
    terrain_at(&mut g, 2, -1, 0);
    terrain_at(&mut g, 2, 0, 0);
    let climbing = standard_move();
    let path = astar(GridPos::new(0, 0, 0), GridPos::new(2, 1, 0), &g, &climbing);
    assert_eq!(path, vec![GridPos::new(1, 0, 0), GridPos::new(2, 1, 0)]);
    // without climbing the raised goal is unreachable
    let flat = rook_rule();
    let blocked = astar(GridPos::new(0, 0, 0), GridPos::new(2, 1, 0), &g, &flat);
    assert!(blocked.is_empty());
}

#[test]
fn astar_path_length_is_at_least_the_manhattan_estimate() {
    // a field with obstacle walls that force detours
    let mut g = SpatialGrid::new();
    for x in 0..8 {
        for z in 0..8 {
            terrain_at(&mut g, x, -1, z);
        }
    }
    // a wall with one gap
    for z in 0..7 {
        g.add_entity_at(
            GridPos::new(4, 0, z),
            Tile::new(TileKind::Terrain(TerrainKind::Rock), PLACEHOLDER_ENTITY),
        );
    }
    let rule = rook_rule();
    let start = GridPos::new(0, 0, 0);
    let goal = GridPos::new(7, 0, 0);
    let path = astar(start, goal, &g, &rule);
    assert!(!path.is_empty());
    assert!(path.len() as u64 >= manhattan(start, goal));
    assert_eq!(*path.last().unwrap(), goal);
}

#[test]
fn neighbors_follow_the_rule_offsets() {
    let g = strip(3);
    let rule = rook_rule();
    let n = get_valid_neighbors(GridPos::new(1, 0, 0), &g, &rule);
    assert!(n.contains(&GridPos::new(0, 0, 0)));
    assert!(n.contains(&GridPos::new(2, 0, 0)));
    assert_eq!(n.len(), 2);
}

#[test]
fn heuristics_compute_exact_values() {
    let a = GridPos::new(0, 0, 0);
    let b = GridPos::new(3, -2, 5);
    assert_eq!(manhattan(a, b), 10);
    assert_eq!(chebyshev(a, b), 5);
    assert_eq!(knight(a, b), 4);
    assert_eq!(manhattan(b, b), 0);
    assert_eq!(chebyshev(b, b), 0);
    assert_eq!(knight(b, b), 0);
}

#[test]
fn rules_carry_their_policies() {
    assert!(standard_move().can_climb);
    assert!(standard_move().can_drop);
    assert!(!knight_move().can_climb);
    assert_eq!(knight_move().offsets.len(), 8);
    assert_eq!(bishop_rule().offsets.len(), 4);
    assert_eq!(queen_rule().offsets.len(), 8);
}
