use rpg_combat::entity::{Condition, Entity, EntityType};
use rpg_combat::snapshot::{CombatInfo, MonsterEntry};
use rpg_combat::tracker::CombatTracker;

fn stats_key(e: &Entity) -> (String, u8, Option<i32>, i32, i32, i32, i32, Vec<u8>) {
    let kind: u8 = match e.entity_type {
        EntityType::Player => 0,
        EntityType::Npc => 1,
        EntityType::Monster => 2,
    };
    (
        e.name.clone(),
        kind,
        e.initiative,
        e.initiative_modifier,
        e.ac,
        e.max_hp,
        e.current_hp,
        e.conditions.iter().map(|c| c.rank()).collect(),
    )
}

#[test]
fn test_round_trip_preserves_stats() {
    let mut ct = CombatTracker::new();
    let mut hero = Entity::new("Arthas", EntityType::Player, 2, 18, 45);
    hero.initiative = Some(15);
    ct.add_entity(hero);
    ct.add_entity(Entity::new("Goblin", EntityType::Monster, 1, 13, 15));
    ct.add_entity(Entity::new("Goblin", EntityType::Monster, 1, 13, 15));
    ct.toggle_condition(1, Condition::Grappled);
    ct.apply_damage(2, 3);
    ct.round = 4;
    ct.current_turn = 2;

    let info = ct.to_snapshot();
    assert_eq!(info.players.len(), 1);
    assert_eq!(info.monsters.len(), 2);
    let back = CombatTracker::from_snapshot(&info);

    assert_eq!(back.round, 4);
    assert_eq!(back.current_turn, 2);
    assert_eq!(back.entities.len(), ct.entities.len());
    let mut before: Vec<_> = ct.entities.iter().map(stats_key).collect();
    let mut after: Vec<_> = back.entities.iter().map(stats_key).collect();
    before.sort();
    after.sort();
    assert_eq!(before, after);
}

#[test]
fn test_monster_count_expansion() {
    let goblin = Entity::new("Goblin", EntityType::Monster, 1, 13, 15);
    let orc = Entity::new("Orc", EntityType::Monster, 1, 13, 15);
    let mut arthas = Entity::new("Arthas", EntityType::Player, 2, 18, 45);
    arthas.current_hp = 45;
    let info = CombatInfo {
        current_turn: 0,
        round: 0,
        players: vec![arthas],
        monsters: vec![
            MonsterEntry { count: Some(3), stats: goblin },
            MonsterEntry { count: None, stats: orc },
        ],
    };
    let tracker = CombatTracker::from_snapshot(&info);

    assert_eq!(tracker.entities.len(), 5);
    assert!(tracker.entities.iter().any(|e| e.name == "Arthas"));
    assert_eq!(tracker.entities.iter().filter(|e| e.name == "Goblin").count(), 3);
    // the three goblins get dense ids
    let mut goblin_ids: Vec<i32> =
        tracker.entities.iter().filter(|e| e.name == "Goblin").map(|e| e.id).collect();
    goblin_ids.sort();
    assert_eq!(goblin_ids, vec![1, 2, 3]);
    // expanded copies get distinct fresh identities
    let g: Vec<_> = tracker.entities.iter().filter(|e| e.name == "Goblin").collect();
    assert_ne!(g[0].stable_identity, g[1].stable_identity);
}

#[test]
fn test_monster_zero_hp_initialised_to_max() {
    let mut dead = Entity::new("Skeleton", EntityType::Monster, 0, 13, 15);
    dead.current_hp = 0;
    let info = CombatInfo {
        current_turn: 0,
        round: 0,
        players: vec![],
        monsters: vec![MonsterEntry { count: None, stats: dead }],
    };
    let tracker = CombatTracker::from_snapshot(&info);
    assert_eq!(tracker.entities[0].current_hp, 15);
}

#[test]
fn test_out_of_range_turn_resets() {
    let info = CombatInfo {
        current_turn: 9,
        round: 2,
        players: vec![],
        monsters: vec![
            MonsterEntry { count: None, stats: Entity::new("Orc", EntityType::Monster, 1, 13, 15) },
        ],
    };
    let tracker = CombatTracker::from_snapshot(&info);
    assert_eq!(tracker.current_turn, 0);
    assert_eq!(tracker.round, 2);
}
