use dice_venture::combat::{
    cut_through_ray, instance_for, key_of, register_standard_attacks, tick_attack_cooldowns,
    try_cast, AttackCatalogue, AttackCooldowns, AttackKind, AttackSpec, CastOutcome,
};
use dice_venture::grid::SpatialGrid;
use dice_venture::movement::standard_offsets;
use dice_venture::pos::GridPos;
use dice_venture::tile::{TerrainKind, Tile, TileKind, PLACEHOLDER_ENTITY};
use dice_venture::timer::Timer;

#[test]
fn key_of_distinguishes_names() {
    // a digest that ignored its input would break the catalogue keys
    let a = key_of("base_attack");
    let b = key_of("counter");
    let c = key_of("cut_through");
    assert_ne!(a, b);
    assert_ne!(a, c);
    assert_ne!(b, c);
    assert_eq!(a, key_of("base_attack"));
}

#[test]
fn second_cast_within_cooldown_is_rejected() {
    let mut catalogue = AttackCatalogue::new();
    let id = key_of("base_attack");
    catalogue.set(
        id,
        AttackSpec { offsets: standard_offsets(), cooldown_ms: 400, damage: 10 },
    );
    let mut cooldowns = AttackCooldowns::new();
    assert_eq!(try_cast(&mut cooldowns, &catalogue, id), CastOutcome::Cast);
    // the second attempt in the same window fails
    assert_eq!(try_cast(&mut cooldowns, &catalogue, id), CastOutcome::OnCooldown);
    tick_attack_cooldowns(&mut cooldowns, 399);
    assert_eq!(try_cast(&mut cooldowns, &catalogue, id), CastOutcome::OnCooldown);
    // once the cooldown elapses the cast goes through exactly once more
    tick_attack_cooldowns(&mut cooldowns, 1);
    assert_eq!(try_cast(&mut cooldowns, &catalogue, id), CastOutcome::Cast);
    assert_eq!(try_cast(&mut cooldowns, &catalogue, id), CastOutcome::OnCooldown);
}

#[test]
fn unknown_attack_is_a_no_op() {
    let catalogue = AttackCatalogue::new();
    let mut cooldowns = AttackCooldowns::new();
    assert_eq!(try_cast(&mut cooldowns, &catalogue, 12345), CastOutcome::UnknownAttack);
    assert_eq!(cooldowns.len(), 0);
}

#[test]
fn standard_catalogue_has_all_four_attacks() {
    let mut catalogue = AttackCatalogue::new();
    register_standard_attacks(&mut catalogue);
    let base = catalogue.get(key_of("base_attack")).unwrap();
    assert_eq!(base.cooldown_ms, 400);
    assert_eq!(base.damage, 10);
    let cut = catalogue.get(key_of("cut_through")).unwrap();
    assert_eq!(cut.damage, 20);
    let dagger = catalogue.get(key_of("dagger_throw")).unwrap();
    assert_eq!(dagger.cooldown_ms, 800);
    assert!(catalogue.get(key_of("counter")).is_some());
}

#[test]
fn instance_dispatch_matches_the_attack_ids() {
    let dir = GridPos::new(1, 0, 0);
    let base = instance_for(key_of("base_attack"), dir).unwrap();
    assert_eq!(base.kind, AttackKind::Melee);
    assert!(base.interruptible);
    let counter = instance_for(key_of("counter"), dir).unwrap();
    assert_eq!(counter.kind, AttackKind::Counter);
    assert!(!counter.interruptible);
    let cut = instance_for(key_of("cut_through"), dir).unwrap();
    assert_eq!(cut.kind, AttackKind::Dash);
    let dagger = instance_for(key_of("dagger_throw"), dir).unwrap();
    assert_eq!(dagger.kind, AttackKind::Ranged);
    assert!(instance_for(987654321, dir).is_none());
}

#[test]
fn attack_instance_fires_exactly_once_at_the_midpoint() {
    let mut inst = instance_for(key_of("base_attack"), GridPos::new(0, 0, 1)).unwrap();
    // duration 200ms: before the midpoint nothing fires
    let (fired, finished) = inst.tick(50);
    assert!(!fired && !finished);
    // crossing the midpoint fires once
    let (fired, finished) = inst.tick(60);
    assert!(fired && !finished);
    // later ticks never fire again; completion despawns
    let (fired, finished) = inst.tick(60);
    assert!(!fired && !finished);
    let (fired, finished) = inst.tick(60);
    assert!(!fired && finished);
}

#[test]
fn interrupt_rule_checks_the_tag_and_the_stun() {
    let swing = instance_for(key_of("base_attack"), GridPos::new(1, 0, 0)).unwrap();
    assert!(swing.should_interrupt(true));
    assert!(!swing.should_interrupt(false));
    let stance = instance_for(key_of("counter"), GridPos::new(1, 0, 0)).unwrap();
    assert!(!stance.should_interrupt(true));
}

#[test]
fn timers_tick_clamp_and_report() {
    let mut t = Timer::new(100);
    assert!(!t.finished());
    t.tick(40);
    assert_eq!(t.remaining_ms(), 60);
    assert!(!t.past_midpoint());
    t.tick(10);
    assert!(t.past_midpoint());
    t.tick(1000);
    assert!(t.finished());
    assert_eq!(t.remaining_ms(), 0);
    assert_eq!(t.fraction_permille(), 1000);
    t.reset();
    assert_eq!(t.remaining_ms(), 100);
    let quarter = {
        let mut q = Timer::new(400);
        q.tick(100);
        q.fraction_permille()
    };
    assert_eq!(quarter, 250);
}

#[test]
fn cut_through_ray_collects_the_run_and_lands_past_it() {
    let mut g = SpatialGrid::new();
    for x in 0..6 {
        g.add_entity_at(
            GridPos::new(x, -1, 0),
            Tile::new(TileKind::Terrain(TerrainKind::Sand), PLACEHOLDER_ENTITY),
        );
    }
    g.add_entity_at(GridPos::new(1, 0, 0), Tile::new(TileKind::Enemy, 21));
    g.add_entity_at(GridPos::new(2, 0, 0), Tile::new(TileKind::Enemy, 22));
    let (hits, landing) = cut_through_ray(&g, GridPos::new(0, 0, 0), GridPos::new(1, 0, 0));
    assert_eq!(hits, vec![GridPos::new(1, 0, 0), GridPos::new(2, 0, 0)]);
    assert_eq!(landing, Some(GridPos::new(3, 0, 0)));
    // with the landing cell unsupported there is nowhere to land
    let (hits2, landing2) = cut_through_ray(&g, GridPos::new(4, 0, 0), GridPos::new(1, 0, 0));
    assert!(hits2.is_empty());
    assert_eq!(landing2, Some(GridPos::new(5, 0, 0)));
    let (hits3, landing3) = cut_through_ray(&g, GridPos::new(5, 0, 0), GridPos::new(1, 0, 0));
    assert!(hits3.is_empty());
    assert_eq!(landing3, None);
}
