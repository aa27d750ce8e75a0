use rand::rngs::StdRng;
use rand::{Rng, SeedableRng};
use rpg_combat::entity::{Condition, Entity, EntityType};
use rpg_combat::tracker::CombatTracker;

#[test]
fn test_roll_initiative() {
    let mut ct = CombatTracker::new();
    let entity1 = Entity::new("monster1.1", EntityType::Monster, 0, 10, 20);
    let entity2 = Entity::new("monster1.2", EntityType::Monster, 50, 10, 20);
    let entity3 = Entity::new("monster2", EntityType::Monster, 100, 10, 20);
    let entity4 = entity3.clone();
    ct.add_entity(entity2);
    ct.add_entity(entity3);
    ct.add_entity(entity1);
    ct.add_entity(entity4);

    let rng = StdRng::seed_from_u64(42);
    ct.rng = rng;
    ct.roll_initiative(true, true);

    // check that same monsters are rolled together
    assert_eq!(&ct.entities[0].name, &ct.entities[1].name);
    assert_eq!(&ct.entities[0].initiative, &ct.entities[1].initiative);

    // check correct initiative order
    assert_eq!(&ct.get_current_entity().unwrap().name, "monster2");
    ct.next_turn();
    assert_eq!(&ct.get_current_entity().unwrap().name, "monster2");
    ct.next_turn();
    assert_eq!(&ct.get_current_entity().unwrap().name, "monster1.2");
    ct.next_turn();
    assert_eq!(&ct.get_current_entity().unwrap().name, "monster1.1");
}

#[test]
fn test_individual_initiative_rolls() {
    let mut ct = CombatTracker::new();
    let entity1 = Entity::new("monster", EntityType::Monster, 0, 10, 20);
    let entity2 = Entity::new("monster", EntityType::Monster, 50, 10, 20);
    ct.add_entity(entity1);
    ct.add_entity(entity2);

    let rng = StdRng::seed_from_u64(42);
    ct.rng = rng;
    ct.roll_initiative(false, true);

    // Ensure monsters with the same name have different initiatives
    assert_ne!(ct.entities[0].initiative, ct.entities[1].initiative);
}

#[test]
fn test_player_priority_in_sorting() {
    let mut ct = CombatTracker::new();
    let mut player = Entity::new("player", EntityType::Player, 10, 15, 30);
    player.initiative = Some(1);
    let mut monster = Entity::new("monster", EntityType::Monster, 10, 10, 20);
    monster.initiative = Some(1);
    ct.entities = vec![monster, player]; // monster before player
    ct.sort_by_initiative();

    // Ensure that the player is sorted before the monster with the same initiative
    assert_eq!(ct.entities[0].entity_type, EntityType::Player);
}

#[test]
fn test_empty_combat_tracker() {
    let mut ct = CombatTracker::new();

    assert!(ct.get_current_entity().is_none());

    ct.next_turn(); // Should not panic
    assert!(ct.get_current_entity().is_none());
}

#[test]
fn test_add_entity() {
    let mut ct = CombatTracker::new();
    let entity1 = Entity::new("monster", EntityType::Monster, 0, 10, 20);
    let entity2 = Entity::new("monster", EntityType::Monster, 50, 10, 20);
    let entity3 = Entity::new("monster", EntityType::Monster, 100, 10, 20);
    ct.add_entity(entity1);
    assert_eq!(ct.entities[0].id, 0);
    ct.add_entity(entity2);
    assert_eq!(ct.entities[0].id, 1);
    assert_eq!(ct.entities[1].id, 2);
    ct.add_entity(entity3);
    assert_eq!(ct.entities[0].id, 1);
    assert_eq!(ct.entities[1].id, 2);
    assert_eq!(ct.entities[2].id, 3);
}

#[test]
fn test_remove_entry_by_uuid() {
    let mut ct = CombatTracker::new();
    let entity1 = Entity::new("monster", EntityType::Monster, 0, 10, 20);
    let entity2 = Entity::new("monster", EntityType::Monster, 50, 10, 20);
    ct.add_entity(entity1);
    ct.add_entity(entity2);
    assert_eq!(ct.entities.len(), 2);
}

#[test]
fn test_remove_entity_resets_turn() {
    // Removing the acting entity when it is the last element of the
    // roster resets current_turn to 0 without panicking.
    let mut ct = CombatTracker::new();
    ct.add_entity(Entity::new("a", EntityType::Monster, 0, 10, 20));
    ct.add_entity(Entity::new("b", EntityType::Monster, 0, 10, 20));
    ct.next_turn();
    assert_eq!(ct.current_turn, 1);
    let target = ct.entities[1].stable_identity;
    ct.remove_entity_by_uuid(target);
    assert_eq!(ct.entities.len(), 1);
    assert_eq!(ct.current_turn, 0);
    assert_eq!(&ct.entities[0].name, "a");
}

#[test]
fn test_single_entity_round_advance() {
    // On a single-entity roster every forward advance increments the round.
    let mut ct = CombatTracker::new();
    ct.add_entity(Entity::new("solo", EntityType::Player, 0, 10, 20));
    assert_eq!(ct.round, 0);
    ct.next_turn();
    assert_eq!(ct.round, 1);
    assert_eq!(ct.current_turn, 0);
    ct.next_turn();
    assert_eq!(ct.round, 2);
    ct.next_turn();
    assert_eq!(ct.round, 3);
}

#[test]
fn test_prev_turn_boundaries() {
    let mut ct = CombatTracker::new();
    ct.add_entity(Entity::new("a", EntityType::Player, 0, 10, 20));
    ct.add_entity(Entity::new("b", EntityType::Monster, 0, 10, 20));
    ct.next_turn();
    ct.next_turn();
    assert_eq!((ct.round, ct.current_turn), (1, 0));
    // stepping back past index 0 with a non-zero resulting round wraps
    ct.next_turn();
    assert_eq!((ct.round, ct.current_turn), (1, 1));
    ct.prev_turn();
    assert_eq!((ct.round, ct.current_turn), (1, 0));
    ct.prev_turn();
    // round 1 -> 0, and at round 0 the index stays at 0
    assert_eq!((ct.round, ct.current_turn), (0, 0));
    ct.prev_turn();
    assert_eq!((ct.round, ct.current_turn), (0, 0));
}

#[test]
fn test_grouped_roll_order_matches_seed() {
    // Two Goblins and an Orc, all with modifier 1, rolled grouped with a
    // fixed seed: the Goblins end up adjacent with equal initiative, and
    // their order against the Orc matches the deterministic rolls.
    let mut ct = CombatTracker::new();
    ct.add_entity(Entity::new("Goblin", EntityType::Monster, 1, 13, 15));
    ct.add_entity(Entity::new("Goblin", EntityType::Monster, 1, 13, 15));
    ct.add_entity(Entity::new("Orc", EntityType::Monster, 1, 13, 15));
    ct.rng = StdRng::seed_from_u64(7);
    ct.roll_initiative(true, true);

    let mut reference = StdRng::seed_from_u64(7);
    let goblin_roll: i32 = reference.random_range(1..=20) + 1;
    let orc_roll: i32 = reference.random_range(1..=20) + 1;

    let names: Vec<&str> = ct.entities.iter().map(|e| e.name.as_str()).collect();
    if goblin_roll >= orc_roll {
        // on a tie the stable sort keeps the Goblins, added first, in front
        assert_eq!(names, vec!["Goblin", "Goblin", "Orc"]);
    } else {
        assert_eq!(names, vec!["Orc", "Goblin", "Goblin"]);
    }
    let goblins: Vec<_> = ct.entities.iter().filter(|e| e.name == "Goblin").collect();
    assert_eq!(goblins[0].initiative, Some(goblin_roll));
    assert_eq!(goblins[1].initiative, Some(goblin_roll));
    let orc = ct.entities.iter().find(|e| e.name == "Orc").unwrap();
    assert_eq!(orc.initiative, Some(orc_roll));
}

#[test]
fn test_sort_non_increasing() {
    let mut ct = CombatTracker::new();
    for (name, ini) in [("a", 3), ("b", 17), ("c", 9), ("d", 17), ("e", 1)] {
        let mut e = Entity::new(name, EntityType::Monster, 0, 10, 20);
        e.initiative = Some(ini);
        ct.entities.push(e);
    }
    let mut unrolled = Entity::new("f", EntityType::Monster, 0, 10, 20);
    unrolled.initiative = None;
    ct.entities.push(unrolled);
    ct.sort_by_initiative();
    for w in ct.entities.windows(2) {
        let a = w[0].initiative.unwrap_or(i32::MIN);
        let b = w[1].initiative.unwrap_or(i32::MIN);
        assert!(a >= b);
    }
    // entities with no initiative sort last
    assert_eq!(ct.entities.last().unwrap().initiative, None);
    // the stable sort keeps equal keys in prior relative order
    let names: Vec<&str> = ct.entities.iter().map(|e| e.name.as_str()).collect();
    assert_eq!(names, vec!["b", "d", "c", "a", "e", "f"]);
}

#[test]
fn test_reset_combat() {
    let mut ct = CombatTracker::new();
    let mut e = Entity::new("hero", EntityType::Player, 2, 18, 45);
    e.initiative = Some(12);
    ct.add_entity(e);
    ct.apply_damage(0, 30);
    ct.toggle_condition(0, Condition::Poisoned);
    ct.next_turn();
    assert_eq!(ct.entities[0].current_hp, 15);
    ct.reset_combat();
    assert_eq!(ct.entities[0].current_hp, 45);
    assert!(ct.entities[0].conditions.is_empty());
    assert_eq!(ct.round, 0);
    assert_eq!(ct.current_turn, 0);
    // initiative survives a reset
    assert_eq!(ct.entities[0].initiative, Some(12));
}

#[test]
fn test_damage_heal_clamped() {
    let mut ct = CombatTracker::new();
    ct.add_entity(Entity::new("g", EntityType::Monster, 0, 10, 20));
    ct.apply_damage(0, 9999);
    assert_eq!(ct.entities[0].current_hp, 0);
    ct.apply_heal(0, 5);
    assert_eq!(ct.entities[0].current_hp, 5);
    ct.apply_heal(0, 9999);
    assert_eq!(ct.entities[0].current_hp, 20);
    // out-of-range targets are silently ignored
    ct.apply_damage(7, 5);
    ct.apply_heal(7, 5);
    ct.toggle_condition(7, Condition::Prone);
    assert_eq!(ct.entities[0].current_hp, 20);
}

#[test]
fn test_set_initiative_resorts() {
    let mut ct = CombatTracker::new();
    for name in ["a", "b", "c"] {
        let mut e = Entity::new(name, EntityType::Monster, 0, 10, 20);
        e.initiative = Some(10);
        ct.entities.push(e);
    }
    ct.set_initiative(2, 99);
    assert_eq!(&ct.entities[0].name, "c");
    assert_eq!(ct.entities[0].initiative, Some(99));
}

#[test]
fn test_roll_dice_range() {
    let mut rng = StdRng::seed_from_u64(3);
    for _ in 0..100 {
        let r = rpg_combat::dice::roll_dice(&mut rng, 20, 5);
        assert!((6..=25).contains(&r));
    }
}
