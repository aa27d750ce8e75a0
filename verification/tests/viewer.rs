use rpg_combat::dto::{
    get_health_state, get_ref_array_string, HealthState, PlayerClientEntity, PlayerClientState,
};
use rpg_combat::entity::{Condition, Entity, EntityType};
use rpg_combat::protocol::{decode_frame_len, encode_frame, parse_client_message, ClientMessage};
use rpg_combat::tracker::CombatTracker;

#[test]
fn test_health_state_bands() {
    assert_eq!(get_health_state(20, 20), HealthState::Healthy);
    assert_eq!(get_health_state(3, 2), HealthState::Healthy);
    assert_eq!(get_health_state(20, 7), HealthState::Wounded);
    assert_eq!(get_health_state(20, 1), HealthState::NearDeath);
    assert_eq!(get_health_state(20, 0), HealthState::Dead);
    assert_eq!(get_health_state(20, 0).label(), "Dead");
    assert_eq!(get_health_state(20, 1).label(), "Near Death");
}

#[test]
fn test_get_ref_array_string() {
    let entity = PlayerClientEntity {
        name: "Goblin".to_string(),
        id: 2,
        current_hp: 15,
        max_hp: 15,
        conditions: vec![Condition::Blinded, Condition::Grappled],
        entity_type: EntityType::Monster,
        initiative: -5,
    };
    let cells = get_ref_array_string(&entity);
    assert_eq!(cells, vec!["-5", "Goblin (2)", "Healthy", "Blinded, Grappled"]);

    let unique = PlayerClientEntity {
        name: "Orc".to_string(),
        id: 0,
        current_hp: 0,
        max_hp: 15,
        conditions: vec![],
        entity_type: EntityType::Monster,
        initiative: 12,
    };
    let cells = get_ref_array_string(&unique);
    assert_eq!(cells, vec!["12", "Orc", "Dead", ""]);
}

#[test]
fn test_player_view_projection() {
    // A tracker with two entities answers a "get player view" request with
    // a snapshot of two entities and the live acting index.
    let mut ct = CombatTracker::new();
    let mut a = Entity::new("Arthas", EntityType::Player, 2, 18, 45);
    a.initiative = Some(19);
    let mut b = Entity::new("Goblin", EntityType::Monster, 1, 13, 15);
    b.initiative = Some(7);
    ct.add_entity(a);
    ct.add_entity(b);
    ct.next_turn();

    let view = PlayerClientState::of_tracker(&ct);
    assert_eq!(view.entities.len(), 2);
    assert_eq!(view.current_turn, ct.current_turn);
    assert_eq!(view.round, ct.round);
    assert_eq!(&view.entities[0].name, "Arthas");
    assert_eq!(view.entities[0].initiative, 19);
    // the viewer form carries no armor class
    assert_eq!(view.entities[1].max_hp, 15);
}

#[test]
fn test_frame_round_trip() {
    let payload: Vec<u8> = vec![1, 2, 3, 250, 255];
    let frame = encode_frame(&payload);
    assert_eq!(frame.len(), payload.len() + 4);
    let n = decode_frame_len(frame[0], frame[1], frame[2], frame[3]);
    assert_eq!(n as usize, payload.len());
    assert_eq!(&frame[4..], &payload[..]);

    let big = vec![0u8; 70000];
    let frame = encode_frame(&big);
    assert_eq!(frame[0], 0);
    assert_eq!(frame[1], 1);
    assert_eq!(frame[2], 0x11);
    assert_eq!(frame[3], 0x70);
}

#[test]
fn test_parse_client_message() {
    // the canonical request is exactly what serde_json makes of the tag
    let wire = serde_json::to_vec("GetPlayerView").unwrap();
    assert_eq!(parse_client_message(&wire), Some(ClientMessage::GetPlayerView));
    let other = serde_json::to_vec("GetDmView").unwrap();
    assert_eq!(parse_client_message(&other), None);
    assert_eq!(parse_client_message(&vec![]), None);
}
