//! One combatant and its mutable combat attributes.

use vstd::prelude::*;

verus! {

/// A status-effect tag. Presence or absence only; no duration tracking.
#[derive(Clone, Copy, Debug, PartialEq, Eq, Structural)]
pub enum Condition {
    Blinded,
    Charmed,
    Deafened,
    Frightened,
    Grappled,
    Incapacitated,
    Invisible,
    Paralyzed,
    Petrified,
    Poisoned,
    Prone,
    Restrained,
    Stunned,
    Unconscious,
}

/// Position of a condition in the fixed display order.
pub open spec fn spec_condition_rank(c: Condition) -> int {
    match c {
        Condition::Blinded => 0,
        Condition::Charmed => 1,
        Condition::Deafened => 2,
        Condition::Frightened => 3,
        Condition::Grappled => 4,
        Condition::Incapacitated => 5,
        Condition::Invisible => 6,
        Condition::Paralyzed => 7,
        Condition::Petrified => 8,
        Condition::Poisoned => 9,
        Condition::Prone => 10,
        Condition::Restrained => 11,
        Condition::Stunned => 12,
        Condition::Unconscious => 13,
    }
}

impl Condition {
    /// Position of this condition in the fixed display order.
    pub fn rank(&self) -> (r: u8)
        ensures
            r as int == spec_condition_rank(*self),
    {
        match self {
            Condition::Blinded => 0,
            Condition::Charmed => 1,
            Condition::Deafened => 2,
            Condition::Frightened => 3,
            Condition::Grappled => 4,
            Condition::Incapacitated => 5,
            Condition::Invisible => 6,
            Condition::Paralyzed => 7,
            Condition::Petrified => 8,
            Condition::Poisoned => 9,
            Condition::Prone => 10,
            Condition::Restrained => 11,
            Condition::Stunned => 12,
            Condition::Unconscious => 13,
        }
    }
}

/// Two conditions with the same rank are the same condition.
pub proof fn lemma_condition_rank_injective(a: Condition, b: Condition)
    ensures
        spec_condition_rank(a) == spec_condition_rank(b) ==> a == b,
{
}

/// The kind of a combatant; polymorphic only in display and grouping.
#[derive(Clone, Copy, Debug, PartialEq, Eq, Structural)]
pub enum EntityType {
    Player,
    Npc,
    Monster,
}

/// The mathematical value of an [`Entity`].
#[verifier::ext_equal]
pub ghost struct EntityV {
    /// Disambiguator among same-named entities; 0 means "the only one so far".
    pub id: int,
    /// Creation-time identifier, never reused; independent of position and id.
    pub stable_identity: int,
    pub name: Seq<char>,
    pub entity_type: EntityType,
    /// Absent until rolled.
    pub initiative: Option<i32>,
    pub initiative_modifier: int,
    pub ac: int,
    pub max_hp: int,
    pub current_hp: int,
    pub conditions: Seq<Condition>,
}

impl EntityV {
    /// The condition list carries a set: strictly increasing by rank,
    /// hence duplicate-free.
    pub open spec fn wf(self) -> bool {
        forall|i: int, j: int|
            0 <= i < j < self.conditions.len() ==> spec_condition_rank(self.conditions[i])
                < spec_condition_rank(self.conditions[j])
    }
}

/// One combatant: a player, NPC or monster.
#[derive(Debug)]
pub struct Entity {
    /// Disambiguator among same-named entities; 0 means "the only one so far".
    pub id: i32,
    /// Creation-time identifier, never reused; used to remove a specific
    /// entity unambiguously even after reordering.
    pub stable_identity: u128,
    /// Display label, not required to be unique.
    pub name: String,
    pub entity_type: EntityType,
    /// Absent until rolled.
    pub initiative: Option<i32>,
    /// Added to each initiative roll.
    pub initiative_modifier: i32,
    /// Armor class.
    pub ac: i32,
    pub max_hp: i32,
    pub current_hp: i32,
    /// Status effects, kept strictly increasing by rank.
    pub conditions: Vec<Condition>,
}

impl View for Entity {
    type V = EntityV;

    open spec fn view(&self) -> EntityV {
        EntityV {
            id: self.id as int,
            stable_identity: self.stable_identity as int,
            name: self.name@,
            entity_type: self.entity_type,
            initiative: self.initiative,
            initiative_modifier: self.initiative_modifier as int,
            ac: self.ac as int,
            max_hp: self.max_hp as int,
            current_hp: self.current_hp as int,
            conditions: self.conditions@,
        }
    }
}

/// A hit-point change clamped into `[0, max]`: first floored at 0,
/// then capped at `max`.
pub open spec fn clamped_hp(x: int, max: int) -> int {
    let floored = if x < 0 {
        0
    } else {
        x
    };
    if floored > max {
        max
    } else {
        floored
    }
}

/// For a non-negative maximum, the clamped value always lies in `[0, max]`,
/// whatever the starting hit points and the amount.
pub proof fn lemma_hp_clamp(current_hp: int, amount: int, max_hp: int)
    requires
        max_hp >= 0,
    ensures
        0 <= clamped_hp(current_hp - amount, max_hp) <= max_hp,
        0 <= clamped_hp(current_hp + amount, max_hp) <= max_hp,
{
}

/// Relies on uuid's `Uuid::new_v4`: a fresh random identifier.  Nothing is
/// promised of the value; callers treat it as an arbitrary identity.
#[verifier::external_body]
pub(crate) fn fresh_identity() -> u128 {
    uuid::Uuid::new_v4().as_u128()
}

impl Entity {
    /// A fresh combatant: no duplicate id yet, no initiative, full hit
    /// points, no conditions, and a newly assigned stable identity.
    pub fn new(
        name: &str,
        entity_type: EntityType,
        initiative_modifier: i32,
        ac: i32,
        max_hp: i32,
    ) -> (r: Entity)
        ensures
            r@.id == 0,
            r@.name == name@,
            r@.entity_type == entity_type,
            r@.initiative is None,
            r@.initiative_modifier == initiative_modifier as int,
            r@.ac == ac as int,
            r@.max_hp == max_hp as int,
            r@.current_hp == max_hp as int,
            r@.conditions == Seq::<Condition>::empty(),
            r@.wf(),
    {
        Entity {
            id: 0,
            stable_identity: fresh_identity(),
            name: name.to_owned(),
            entity_type,
            initiative: None,
            initiative_modifier,
            ac,
            max_hp,
            current_hp: max_hp,
            conditions: Vec::new(),
        }
    }

    /// Reduce hit points by `damage`, clamped into `[0, max_hp]`.
    pub fn take_damage(&mut self, damage: i32)
        ensures
            final(self)@ == (EntityV {
                current_hp: clamped_hp(old(self)@.current_hp - damage as int, old(self)@.max_hp),
                ..old(self)@
            }),
    {
        let x: i64 = self.current_hp as i64 - damage as i64;
        let m: i64 = self.max_hp as i64;
        let floored: i64 = if x < 0 {
            0
        } else {
            x
        };
        let clamped: i64 = if floored > m {
            m
        } else {
            floored
        };
        self.current_hp = clamped as i32;
    }

    /// Raise hit points by `amount`, clamped into `[0, max_hp]`.
    pub fn heal(&mut self, amount: i32)
        ensures
            final(self)@ == (EntityV {
                current_hp: clamped_hp(old(self)@.current_hp + amount as int, old(self)@.max_hp),
                ..old(self)@
            }),
    {
        let x: i64 = self.current_hp as i64 + amount as i64;
        let m: i64 = self.max_hp as i64;
        let floored: i64 = if x < 0 {
            0
        } else {
            x
        };
        let clamped: i64 = if floored > m {
            m
        } else {
            floored
        };
        self.current_hp = clamped as i32;
    }

    /// An entity is alive while it has hit points left.
    pub fn is_alive(&self) -> (r: bool)
        ensures
            r == (self@.current_hp > 0),
    {
        self.current_hp > 0
    }

    /// Whether the condition is currently present.
    pub fn has_condition(&self, condition: Condition) -> (r: bool)
        ensures
            r == self@.conditions.contains(condition),
    {
        let n = self.conditions.len();
        let mut i: usize = 0;
        while i < n
            invariant
                n == self.conditions.len(),
                0 <= i <= n,
                forall|k: int| 0 <= k < i ==> self@.conditions[k] != condition,
            decreases n - i,
        {
            if self.conditions[i] == condition {
                return true;
            }
            i += 1;
        }
        false
    }

    /// Insert the condition; a no-op when it is already present.
    pub fn add_condition(&mut self, condition: Condition)
        requires
            old(self)@.wf(),
        ensures
            final(self)@.wf(),
            final(self)@.conditions.to_set() == old(self)@.conditions.to_set().insert(condition),
            final(self)@ == (EntityV { conditions: final(self)@.conditions, ..old(self)@ }),
    {
        let n = self.conditions.len();
        let rank = condition.rank();
        let mut i: usize = 0;
        while i < n
            invariant
                n == self.conditions.len(),
                0 <= i <= n,
                rank as int == spec_condition_rank(condition),
                forall|k: int|
                    0 <= k < i ==> spec_condition_rank(self@.conditions[k]) < rank as int,
            ensures
                i <= n,
                forall|k: int|
                    0 <= k < i ==> spec_condition_rank(self@.conditions[k]) < rank as int,
                i < n ==> spec_condition_rank(self@.conditions[i as int]) >= rank as int,
            decreases n - i,
        {
            let r = self.conditions[i].rank();
            if r >= rank {
                break ;
            }
            i += 1;
        }
        proof {
            lemma_conditions_to_set_insert(self@.conditions, condition, i as int);
        }
        if i < self.conditions.len() {
            let r = self.conditions[i].rank();
            if r == rank {
                proof {
                    lemma_condition_rank_injective(self@.conditions[i as int], condition);
                    assert(self@.conditions.contains(condition));
                    assert(self@.conditions.to_set() =~= self@.conditions.to_set().insert(
                        condition,
                    ));
                }
                return ;
            }
        }
        self.conditions.insert(i, condition);
    }

    /// Remove the condition; a no-op when it is absent.
    pub fn remove_condition(&mut self, condition: Condition)
        requires
            old(self)@.wf(),
        ensures
            final(self)@.wf(),
            final(self)@.conditions.to_set() == old(self)@.conditions.to_set().remove(condition),
            final(self)@ == (EntityV { conditions: final(self)@.conditions, ..old(self)@ }),
    {
        let n = self.conditions.len();
        let mut i: usize = 0;
        while i < n
            invariant
                n == self.conditions.len(),
                0 <= i <= n,
                forall|k: int| 0 <= k < i ==> self@.conditions[k] != condition,
            ensures
                i <= n,
                forall|k: int| 0 <= k < i ==> self@.conditions[k] != condition,
                i < n ==> self@.conditions[i as int] == condition,
            decreases n - i,
        {
            if self.conditions[i] == condition {
                break ;
            }
            i += 1;
        }
        if i < self.conditions.len() {
            proof {
                lemma_conditions_to_set_remove(self@.conditions, i as int);
            }
            self.conditions.remove(i);
        } else {
            proof {
                assert(!self@.conditions.contains(condition));
                assert(self@.conditions.to_set() =~= self@.conditions.to_set().remove(condition));
            }
        }
    }
}

/// An element-for-element copy of a condition list.
fn clone_conditions(v: &Vec<Condition>) -> (r: Vec<Condition>)
    ensures
        r@ == v@,
{
    let n = v.len();
    let mut r: Vec<Condition> = Vec::new();
    let mut i: usize = 0;
    while i < n
        invariant
            n == v.len(),
            0 <= i <= n,
            r@ == v@.subrange(0, i as int),
        decreases n - i,
    {
        r.push(v[i]);
        proof {
            assert(r@ =~= v@.subrange(0, i + 1 as int));
        }
        i += 1;
    }
    proof {
        assert(v@.subrange(0, n as int) =~= v@);
    }
    r
}

impl Clone for Entity {
    /// A copy with the same mathematical value, stable identity included.
    fn clone(&self) -> (r: Self)
        ensures
            r@ == self@,
    {
        Entity {
            id: self.id,
            stable_identity: self.stable_identity,
            name: self.name.clone(),
            entity_type: self.entity_type,
            initiative: self.initiative,
            initiative_modifier: self.initiative_modifier,
            ac: self.ac,
            max_hp: self.max_hp,
            current_hp: self.current_hp,
            conditions: clone_conditions(&self.conditions),
        }
    }
}

/// Inserting into a strictly rank-sorted sequence at the first position of
/// equal-or-greater rank keeps it sorted and inserts into its set.
proof fn lemma_conditions_to_set_insert(s: Seq<Condition>, c: Condition, i: int)
    requires
        0 <= i <= s.len(),
        forall|k: int, j: int|
            0 <= k < j < s.len() ==> spec_condition_rank(s[k]) < spec_condition_rank(s[j]),
        forall|k: int| 0 <= k < i ==> spec_condition_rank(s[k]) < spec_condition_rank(c),
        i < s.len() ==> spec_condition_rank(s[i]) >= spec_condition_rank(c),
    ensures
        i < s.len() && spec_condition_rank(s[i]) != spec_condition_rank(c) || i == s.len() ==> {
            let t = s.insert(i, c);
            &&& forall|k: int, j: int|
                0 <= k < j < t.len() ==> spec_condition_rank(t[k]) < spec_condition_rank(t[j])
            &&& t.to_set() == s.to_set().insert(c)
        },
{
    if i == s.len() || spec_condition_rank(s[i]) != spec_condition_rank(c) {
        let t = s.insert(i, c);
        assert forall|k: int, j: int| 0 <= k < j < t.len() implies spec_condition_rank(t[k])
            < spec_condition_rank(t[j]) by {
            assert(forall|m: int| 0 <= m < i ==> t[m] == s[m]);
            assert(t[i] == c);
            assert(forall|m: int| i < m < t.len() ==> t[m] == s[m - 1]);
        }
        assert(t.to_set() =~= s.to_set().insert(c)) by {
            assert forall|x: Condition| t.to_set().contains(x) implies s.to_set().insert(
                c,
            ).contains(x) by {
                let k = choose|k: int| 0 <= k < t.len() && t[k] == x;
                if k < i {
                    assert(s[k] == x);
                } else if k > i {
                    assert(s[k - 1] == x);
                }
            }
            assert forall|x: Condition| s.to_set().insert(c).contains(x) implies t.to_set().contains(
                x,
            ) by {
                if x == c {
                    assert(t[i] == x);
                } else {
                    let k = choose|k: int| 0 <= k < s.len() && s[k] == x;
                    if k < i {
                        assert(t[k] == x);
                    } else {
                        assert(t[k + 1] == x);
                    }
                }
            }
        }
    }
}

/// Removing the one occurrence of a condition from a strictly rank-sorted
/// sequence removes it from its set.
proof fn lemma_conditions_to_set_remove(s: Seq<Condition>, i: int)
    requires
        0 <= i < s.len(),
        forall|k: int, j: int|
            0 <= k < j < s.len() ==> spec_condition_rank(s[k]) < spec_condition_rank(s[j]),
    ensures
        ({
            let t = s.remove(i);
            &&& forall|k: int, j: int|
                0 <= k < j < t.len() ==> spec_condition_rank(t[k]) < spec_condition_rank(t[j])
            &&& t.to_set() == s.to_set().remove(s[i])
        }),
{
    let c = s[i];
    let t = s.remove(i);
    assert forall|k: int, j: int| 0 <= k < j < t.len() implies spec_condition_rank(t[k])
        < spec_condition_rank(t[j]) by {
        assert(forall|m: int| 0 <= m < i ==> t[m] == s[m]);
        assert(forall|m: int| i <= m < t.len() ==> t[m] == s[m + 1]);
    }
    assert(t.to_set() =~= s.to_set().remove(c)) by {
        assert forall|x: Condition| t.to_set().contains(x) implies s.to_set().remove(c).contains(
            x,
        ) by {
            let k = choose|k: int| 0 <= k < t.len() && t[k] == x;
            if k < i {
                assert(s[k] == x);
                assert(spec_condition_rank(s[k]) != spec_condition_rank(c)) by {
                    assert(k < i);
                }
            } else {
                assert(s[k + 1] == x);
                assert(spec_condition_rank(s[k + 1]) != spec_condition_rank(c));
            }
            lemma_condition_rank_injective(x, c);
        }
        assert forall|x: Condition| s.to_set().remove(c).contains(x) implies t.to_set().contains(
            x,
        ) by {
            let k = choose|k: int| 0 <= k < s.len() && s[k] == x;
            if k < i {
                assert(t[k] == x);
            } else {
                assert(k != i) by {
                    lemma_condition_rank_injective(x, c);
                }
                assert(t[k - 1] == x);
            }
        }
    }
}

} // verus!
