use rpg_combat::entity::{Condition, Entity, EntityType};

#[test]
fn test_new_entity_defaults() {
    let e = Entity::new("Arthas", EntityType::Player, 2, 18, 45);
    assert_eq!(e.id, 0);
    assert_eq!(&e.name, "Arthas");
    assert_eq!(e.entity_type, EntityType::Player);
    assert_eq!(e.initiative, None);
    assert_eq!(e.initiative_modifier, 2);
    assert_eq!(e.ac, 18);
    assert_eq!(e.max_hp, 45);
    assert_eq!(e.current_hp, 45);
    assert!(e.conditions.is_empty());
}

#[test]
fn test_take_damage_and_heal_clamp() {
    let mut e = Entity::new("g", EntityType::Monster, 0, 13, 15);
    e.take_damage(6);
    assert_eq!(e.current_hp, 9);
    e.take_damage(100);
    assert_eq!(e.current_hp, 0);
    assert!(!e.is_alive());
    e.heal(4);
    assert_eq!(e.current_hp, 4);
    assert!(e.is_alive());
    e.heal(i32::MAX);
    assert_eq!(e.current_hp, 15);
    // a negative heal cannot push below zero either
    e.heal(i32::MIN);
    assert_eq!(e.current_hp, 0);
}

#[test]
fn test_conditions_toggle_and_order() {
    let mut e = Entity::new("g", EntityType::Monster, 0, 13, 15);
    e.add_condition(Condition::Poisoned);
    e.add_condition(Condition::Blinded);
    e.add_condition(Condition::Poisoned);
    assert_eq!(e.conditions, vec![Condition::Blinded, Condition::Poisoned]);
    assert!(e.has_condition(Condition::Blinded));
    assert!(!e.has_condition(Condition::Stunned));
    e.remove_condition(Condition::Blinded);
    assert_eq!(e.conditions, vec![Condition::Poisoned]);
    e.remove_condition(Condition::Blinded);
    assert_eq!(e.conditions, vec![Condition::Poisoned]);
}

#[test]
fn test_clone_keeps_identity() {
    let e = Entity::new("g", EntityType::Monster, 0, 13, 15);
    let c = e.clone();
    assert_eq!(e.stable_identity, c.stable_identity);
    assert_eq!(e.name, c.name);
}

#[test]
fn test_fresh_identities_differ() {
    let a = Entity::new("g", EntityType::Monster, 0, 13, 15);
    let b = Entity::new("g", EntityType::Monster, 0, 13, 15);
    assert_ne!(a.stable_identity, b.stable_identity);
}
