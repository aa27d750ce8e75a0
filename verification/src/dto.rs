//! The viewer form: the reduced per-entity projection served to remote
//! viewers, and its display helpers.

use vstd::prelude::*;
use vstd::string::StringExecFns;
use crate::entity::{spec_condition_rank, Condition, Entity, EntityType, EntityV};
use crate::text::{
    conditions_joined, dec_str, i32_to_string, spec_conditions_joined,
};
use crate::tracker::CombatTracker;

verus! {

/// The mathematical value of a [`PlayerClientEntity`].
#[verifier::ext_equal]
pub ghost struct PlayerClientEntityV {
    pub name: Seq<char>,
    pub id: int,
    pub current_hp: int,
    pub max_hp: int,
    pub conditions: Seq<Condition>,
    pub entity_type: EntityType,
    pub initiative: int,
}

/// One entity as the remote viewer sees it: no armor class, no modifier,
/// and the initiative already settled.
#[derive(Debug)]
pub struct PlayerClientEntity {
    pub name: String,
    pub id: i32,
    pub current_hp: i32,
    pub max_hp: i32,
    pub conditions: Vec<Condition>,
    pub entity_type: EntityType,
    pub initiative: i32,
}

impl View for PlayerClientEntity {
    type V = PlayerClientEntityV;

    open spec fn view(&self) -> PlayerClientEntityV {
        PlayerClientEntityV {
            name: self.name@,
            id: self.id as int,
            current_hp: self.current_hp as int,
            max_hp: self.max_hp as int,
            conditions: self.conditions@,
            entity_type: self.entity_type,
            initiative: self.initiative as int,
        }
    }
}

/// The viewer projection of one entity; its initiative must be settled.
pub open spec fn spec_project_entity(e: EntityV) -> PlayerClientEntityV {
    PlayerClientEntityV {
        name: e.name,
        id: e.id,
        current_hp: e.current_hp,
        max_hp: e.max_hp,
        conditions: e.conditions,
        entity_type: e.entity_type,
        initiative: match e.initiative {
            Option::Some(v) => v as int,
            Option::None => 0,
        },
    }
}

impl PlayerClientEntity {
    /// The viewer projection of one entity.  The engine rolls initiative
    /// before any viewer snapshot is taken, so an unrolled entity is a
    /// caller ordering bug, not a runtime condition.
    pub fn of_entity(e: &Entity) -> (r: PlayerClientEntity)
        requires
            e@.initiative is Some,
        ensures
            r@ == spec_project_entity(e@),
    {
        let cloned = e.clone();
        PlayerClientEntity {
            name: cloned.name,
            id: cloned.id,
            current_hp: cloned.current_hp,
            max_hp: cloned.max_hp,
            conditions: cloned.conditions,
            entity_type: cloned.entity_type,
            initiative: cloned.initiative.unwrap(),
        }
    }
}

/// The mathematical value of a [`PlayerClientState`].
#[verifier::ext_equal]
pub ghost struct PlayerClientStateV {
    pub round: int,
    pub current_turn: int,
    pub entities: Seq<PlayerClientEntityV>,
}

/// The whole tracker as the remote viewer sees it.
#[derive(Debug)]
pub struct PlayerClientState {
    pub round: usize,
    pub current_turn: usize,
    pub entities: Vec<PlayerClientEntity>,
}

impl View for PlayerClientState {
    type V = PlayerClientStateV;

    open spec fn view(&self) -> PlayerClientStateV {
        PlayerClientStateV {
            round: self.round as int,
            current_turn: self.current_turn as int,
            entities: self.entities@.map_values(|e: PlayerClientEntity| e@),
        }
    }
}

impl PlayerClientState {
    /// The viewer snapshot of a tracker: its counters and the projection
    /// of every entity, in roster order.  Every initiative must already
    /// be settled.
    pub fn of_tracker(t: &CombatTracker) -> (r: PlayerClientState)
        requires
            forall|i: int|
                0 <= i < t@.entities.len() ==> (#[trigger] t@.entities[i]).initiative is Some,
        ensures
            r@.round == t@.round,
            r@.current_turn == t@.current_turn,
            r@.entities == t@.entities.map_values(|e: EntityV| spec_project_entity(e)),
    {
        let n = t.entities.len();
        let mut entities: Vec<PlayerClientEntity> = Vec::new();
        let mut i: usize = 0;
        while i < n
            invariant
                n == t.entities.len(),
                0 <= i <= n,
                forall|k: int|
                    0 <= k < t@.entities.len() ==> (#[trigger] t@.entities[k]).initiative is Some,
                entities@.len() == i,
                forall|k: int|
                    0 <= k < i ==> (#[trigger] entities@[k])@ == spec_project_entity(
                        t@.entities[k],
                    ),
            decreases n - i,
        {
            proof {
                assert(t@.entities[i as int] == t.entities@[i as int]@);
            }
            entities.push(PlayerClientEntity::of_entity(&t.entities[i]));
            i += 1;
        }
        let r = PlayerClientState { round: t.round, current_turn: t.current_turn, entities };
        proof {
            assert(r@.entities =~= t@.entities.map_values(|e: EntityV| spec_project_entity(e)));
        }
        r
    }
}

/// The health bands shown to the remote viewer in place of exact monster
/// hit points.
#[derive(Clone, Copy, Debug, PartialEq, Eq, Structural)]
pub enum HealthState {
    Healthy,
    Wounded,
    NearDeath,
    Dead,
}

/// The display label of a health band.
pub open spec fn spec_health_label(h: HealthState) -> Seq<char> {
    match h {
        HealthState::Healthy => "Healthy"@,
        HealthState::Wounded => "Wounded"@,
        HealthState::NearDeath => "Near Death"@,
        HealthState::Dead => "Dead"@,
    }
}

impl HealthState {
    /// The display label of this band.
    pub fn label(&self) -> (r: String)
        ensures
            r@ == spec_health_label(*self),
    {
        match self {
            HealthState::Healthy => String::from_str("Healthy"),
            HealthState::Wounded => String::from_str("Wounded"),
            HealthState::NearDeath => String::from_str("Near Death"),
            HealthState::Dead => String::from_str("Dead"),
        }
    }
}

/// The health band of a hit-point ratio: at least 66.66% is healthy, at
/// least 33.33% wounded, exactly zero dead, anything else near death.
pub open spec fn spec_health_state(max_hp: int, current_hp: int) -> HealthState {
    if current_hp * 10000 >= max_hp * 6666 {
        HealthState::Healthy
    } else if current_hp * 10000 >= max_hp * 3333 {
        HealthState::Wounded
    } else if current_hp == 0 {
        HealthState::Dead
    } else {
        HealthState::NearDeath
    }
}

/// The health band of an entity's hit points.
pub fn get_health_state(max_hp: i32, current_hp: i32) -> (r: HealthState)
    requires
        max_hp >= 1,
    ensures
        r == spec_health_state(max_hp as int, current_hp as int),
{
    let cur: i64 = current_hp as i64;
    let max: i64 = max_hp as i64;
    if cur * 10000 >= max * 6666 {
        HealthState::Healthy
    } else if cur * 10000 >= max * 3333 {
        HealthState::Wounded
    } else if current_hp == 0 {
        HealthState::Dead
    } else {
        HealthState::NearDeath
    }
}

/// The display name of a viewer entity: the name alone for id 0, else the
/// name with the id in parentheses.
pub open spec fn spec_display_name(name: Seq<char>, id: int) -> Seq<char> {
    if id != 0 {
        name + " ("@ + dec_str(id) + ")"@
    } else {
        name
    }
}

/// The four display cells of a viewer entity: initiative, display name,
/// health band, and the conditions joined with `", "`.
pub fn get_ref_array_string(entity: &PlayerClientEntity) -> (r: Vec<String>)
    requires
        entity@.max_hp >= 1,
        forall|i: int, j: int|
            0 <= i < j < entity@.conditions.len() ==> spec_condition_rank(entity@.conditions[i])
                < spec_condition_rank(entity@.conditions[j]),
    ensures
        r@.len() == 4,
        r@[0]@ == dec_str(entity@.initiative),
        r@[1]@ == spec_display_name(entity@.name, entity@.id),
        r@[2]@ == spec_health_label(spec_health_state(entity@.max_hp, entity@.current_hp)),
        r@[3]@ == spec_conditions_joined(entity@.conditions),
{
    let display_name: String = if entity.id != 0 {
        let mut s = entity.name.clone();
        s.append(" (");
        let id_str = i32_to_string(entity.id);
        s.append(id_str.as_str());
        s.append(")");
        s
    } else {
        entity.name.clone()
    };
    let mut r: Vec<String> = Vec::new();
    r.push(i32_to_string(entity.initiative));
    r.push(display_name);
    r.push(get_health_state(entity.max_hp, entity.current_hp).label());
    r.push(conditions_joined(&entity.conditions));
    r
}

/// The five display cells of a tracker entity: initiative, display name,
/// "current/max" hit points, armor class, and the conditions joined with
/// `", "`.  Initiative must be settled: the engine rolls before any
/// display row is built.
pub fn entity_ref_array_string(entity: &Entity) -> (r: Vec<String>)
    requires
        entity@.initiative is Some,
    ensures
        r@.len() == 5,
        r@[0]@ == dec_str(ini_value(entity@)),
        r@[1]@ == spec_display_name(entity@.name, entity@.id),
        r@[2]@ == dec_str(entity@.current_hp) + "/"@ + dec_str(entity@.max_hp),
        r@[3]@ == dec_str(entity@.ac),
        r@[4]@ == spec_conditions_joined(entity@.conditions),
{
    let display_name: String = if entity.id != 0 {
        let mut s = entity.name.clone();
        s.append(" (");
        let id_str = i32_to_string(entity.id);
        s.append(id_str.as_str());
        s.append(")");
        s
    } else {
        entity.name.clone()
    };
    let mut hp = i32_to_string(entity.current_hp);
    hp.append("/");
    let max_str = i32_to_string(entity.max_hp);
    hp.append(max_str.as_str());
    let mut r: Vec<String> = Vec::new();
    r.push(i32_to_string(entity.initiative.unwrap()));
    r.push(display_name);
    r.push(hp);
    r.push(i32_to_string(entity.ac));
    r.push(conditions_joined(&entity.conditions));
    r
}

/// The settled initiative of an entity.
pub open spec fn ini_value(e: EntityV) -> int {
    match e.initiative {
        Option::Some(v) => v as int,
        Option::None => 0,
    }
}

impl Entity {
    /// The five display cells of this entity; see
    /// [`entity_ref_array_string`].
    pub fn ref_array_string(&self) -> (r: Vec<String>)
        requires
            self@.initiative is Some,
        ensures
            r@.len() == 5,
            r@[0]@ == dec_str(ini_value(self@)),
            r@[1]@ == spec_display_name(self@.name, self@.id),
            r@[2]@ == dec_str(self@.current_hp) + "/"@ + dec_str(self@.max_hp),
            r@[3]@ == dec_str(self@.ac),
            r@[4]@ == spec_conditions_joined(self@.conditions),
    {
        entity_ref_array_string(self)
    }
}

} // verus!
