//! The combat tracker: roster, initiative order, and turn/round state.

use vstd::prelude::*;
use rand::rngs::StdRng;
use crate::dice::fresh_rng;
use crate::entity::{clamped_hp, Condition, Entity, EntityType, EntityV};

verus! {

/// The mathematical value of a [`CombatTracker`]: the generator is omitted,
/// its draws being visible only through the contracts of the roll operations.
#[verifier::ext_equal]
pub ghost struct TrackerV {
    pub entities: Seq<EntityV>,
    pub current_turn: int,
    pub round: int,
}

impl TrackerV {
    /// `current_turn` indexes the roster whenever the roster is non-empty
    /// (and sits at 0 otherwise), and every entity's condition list is
    /// well-formed.
    pub open spec fn wf(self) -> bool {
        &&& if self.entities.len() == 0 {
            self.current_turn == 0
        } else {
            0 <= self.current_turn < self.entities.len()
        }
        &&& 0 <= self.round
        &&& forall|i: int| 0 <= i < self.entities.len() ==> #[trigger] self.entities[i].wf()
    }
}

/// The initiative half of the sort key: higher acts first, and an entity
/// with no initiative sorts below every rolled one.
pub open spec fn ini_key(e: EntityV) -> int {
    match e.initiative {
        Option::None => i32::MIN as int - 1,
        Option::Some(v) => v as int,
    }
}

/// The tie-breaking half of the sort key: a Player outranks a non-Player.
pub open spec fn player_key(e: EntityV) -> int {
    if e.entity_type is Player {
        1
    } else {
        0
    }
}

/// `a` may stand at or before `b` in initiative order: strictly higher
/// initiative, or an exact tie in which `b` is a Player only if `a` is too.
pub open spec fn precede_ok(a: EntityV, b: EntityV) -> bool {
    ||| ini_key(a) > ini_key(b)
    ||| (ini_key(a) == ini_key(b) && player_key(a) >= player_key(b))
}

/// The roster order produced by the Initiative Sort: non-increasing by
/// initiative, and within an equal-initiative run Players precede
/// non-Players.
pub open spec fn initiative_sorted(s: Seq<EntityV>) -> bool {
    forall|i: int, j: int| 0 <= i < j < s.len() ==> precede_ok(#[trigger] s[i], #[trigger] s[j])
}

/// The encounter state: the ordered roster, the acting entity's index, the
/// round counter, and the tracker-owned source of randomness.
pub struct CombatTracker {
    pub entities: Vec<Entity>,
    pub current_turn: usize,
    pub round: usize,
    pub rng: StdRng,
}

impl View for CombatTracker {
    type V = TrackerV;

    open spec fn view(&self) -> TrackerV {
        TrackerV {
            entities: self.entities@.map_values(|e: Entity| e@),
            current_turn: self.current_turn as int,
            round: self.round as int,
        }
    }
}

/// The state after a forward turn advance: a no-op on an empty roster;
/// otherwise the acting index steps forward cyclically, and the round
/// counter grows each time the order wraps back to index 0.
pub open spec fn spec_next_turn(t: TrackerV) -> TrackerV {
    if t.entities.len() == 0 {
        t
    } else {
        let ct = (t.current_turn + 1) % (t.entities.len() as int);
        TrackerV { current_turn: ct, round: if ct == 0 { t.round + 1 } else { t.round }, ..t }
    }
}

/// The state after a backward turn step: a no-op on an empty roster;
/// stepping back past index 0 decrements the round (floored at 0) and
/// wraps to the last index only when the resulting round is non-zero.
pub open spec fn spec_prev_turn(t: TrackerV) -> TrackerV {
    if t.entities.len() == 0 {
        t
    } else if t.current_turn == 0 {
        let r = if t.round == 0 {
            0
        } else {
            t.round - 1
        };
        TrackerV {
            current_turn: if r != 0 {
                t.entities.len() - 1
            } else {
                0
            },
            round: r,
            ..t
        }
    } else {
        TrackerV { current_turn: t.current_turn - 1, ..t }
    }
}

impl CombatTracker {
    /// An empty encounter at round 0 with a freshly seeded generator.
    pub fn new() -> (r: CombatTracker)
        ensures
            r@.entities == Seq::<EntityV>::empty(),
            r@.current_turn == 0,
            r@.round == 0,
            r@.wf(),
    {
        let r = CombatTracker { entities: Vec::new(), current_turn: 0, round: 0, rng: fresh_rng() };
        proof {
            assert(r@.entities =~= Seq::<EntityV>::empty());
        }
        r
    }

    /// Advance to the next turn; wrapping past the end of the roster
    /// increments the round.  On a single-entity roster every call
    /// increments the round.
    pub fn next_turn(&mut self)
        requires
            old(self)@.wf(),
            old(self)@.entities.len() > 0 && (old(self)@.current_turn + 1) % (
            old(self)@.entities.len() as int) == 0 ==> old(self)@.round < usize::MAX,
        ensures
            final(self)@ == spec_next_turn(old(self)@),
            final(self)@.wf(),
    {
        if !self.entities.is_empty() {
            proof {
                assert(self@.entities.len() == self.entities@.len());
                assert(self.current_turn < self.entities.len());
            }
            self.current_turn = (self.current_turn + 1) % self.entities.len();
            if self.current_turn == 0 {
                self.round = self.round + 1;
            }
        }
    }

    /// Step back to the previous turn; see [`spec_prev_turn`] for the
    /// boundary behaviour at index 0 and round 0.
    pub fn prev_turn(&mut self)
        requires
            old(self)@.wf(),
        ensures
            final(self)@ == spec_prev_turn(old(self)@),
            final(self)@.wf(),
    {
        if self.entities.is_empty() {
            return ;
        }
        if self.current_turn == 0 {
            if self.round > 0 {
                self.round = self.round - 1;
            }
            if self.round != 0 {
                self.current_turn = self.entities.len() - 1;
            }
        } else {
            self.current_turn = self.current_turn - 1;
        }
    }

    /// A copy of the acting entity, or nothing when the roster is empty.
    pub fn get_current_entity(&self) -> (r: Option<Entity>)
        ensures
            match r {
                Option::Some(e) => self@.current_turn < self@.entities.len() && e@
                    == self@.entities[self@.current_turn],
                Option::None => self@.current_turn >= self@.entities.len(),
            },
    {
        if self.current_turn < self.entities.len() {
            Some(self.entities[self.current_turn].clone())
        } else {
            None
        }
    }
}

/// How many entities of the roster already carry the given name.
pub open spec fn count_with_name(s: Seq<EntityV>, name: Seq<char>) -> int
    decreases s.len(),
{
    if s.len() == 0 {
        0
    } else {
        count_with_name(s.drop_last(), name) + if s.last().name == name {
            1 as int
        } else {
            0 as int
        }
    }
}

/// The duplicate-name promotion: an entity that shares the incoming name
/// and still carries id 0 is promoted to id 1; every other entity is left
/// alone.
pub open spec fn promote_dup(x: EntityV, name: Seq<char>) -> EntityV {
    if x.name == name && x.id == 0 {
        EntityV { id: 1, ..x }
    } else {
        x
    }
}

/// The state after appending an entity.  With duplicates of its name
/// already present, existing id-0 holders of the name are promoted to 1
/// and the newcomer receives id `count + 1`; otherwise the roster and the
/// newcomer's id are untouched.  No resort, no rolling.
pub open spec fn spec_add_entity(t: TrackerV, e: EntityV) -> TrackerV {
    let count = count_with_name(t.entities, e.name);
    if count > 0 {
        let promoted = t.entities.map_values(|x: EntityV| promote_dup(x, e.name));
        TrackerV { entities: promoted.push(EntityV { id: count + 1, ..e }), ..t }
    } else {
        TrackerV { entities: t.entities.push(e), ..t }
    }
}

/// The roster with every entity of the given stable identity removed,
/// order otherwise kept.
pub open spec fn remove_by_identity(s: Seq<EntityV>, id: int) -> Seq<EntityV>
    decreases s.len(),
{
    if s.len() == 0 {
        Seq::<EntityV>::empty()
    } else {
        remove_by_identity(s.drop_last(), id) + if s.last().stable_identity != id {
            seq![s.last()]
        } else {
            Seq::<EntityV>::empty()
        }
    }
}

/// The state after removing by stable identity: matching entities leave
/// the roster, and an acting index that would now point past the end is
/// reset to 0.
pub open spec fn spec_remove_entity(t: TrackerV, id: int) -> TrackerV {
    let kept = remove_by_identity(t.entities, id);
    TrackerV {
        entities: kept,
        current_turn: if t.current_turn >= kept.len() {
            0
        } else {
            t.current_turn
        },
        ..t
    }
}

/// An entity restored for a fresh encounter: full hit points and no
/// conditions; initiative, id and identity untouched.
pub open spec fn spec_reset_entity(e: EntityV) -> EntityV {
    EntityV { current_hp: e.max_hp, conditions: Seq::<Condition>::empty(), ..e }
}

/// Removal keeps only elements of the original roster.
proof fn lemma_remove_by_identity_elems(s: Seq<EntityV>, id: int, p: spec_fn(EntityV) -> bool)
    requires
        forall|i: int| 0 <= i < s.len() ==> p(#[trigger] s[i]),
    ensures
        forall|k: int|
            0 <= k < remove_by_identity(s, id).len() ==> p(
                #[trigger] remove_by_identity(s, id)[k],
            ),
        remove_by_identity(s, id).len() <= s.len(),
    decreases s.len(),
{
    if s.len() > 0 {
        lemma_remove_by_identity_elems(s.drop_last(), id, p);
        assert(forall|i: int| 0 <= i < s.drop_last().len() ==> p(#[trigger] s.drop_last()[i]));
    }
}

impl CombatTracker {
    /// Append an entity; duplicate names get dense, increasing ids: the
    /// sole holder of a name keeps id 0, and from the first duplicate on
    /// the holders are numbered 1, 2, 3, ….
    pub fn add_entity(&mut self, new_entity: Entity)
        requires
            old(self)@.wf(),
            new_entity@.wf(),
            old(self)@.entities.len() < i32::MAX as int,
        ensures
            final(self)@ == spec_add_entity(old(self)@, new_entity@),
            final(self)@.wf(),
    {
        let ghost orig = self@.entities;
        let ghost nm = new_entity@.name;
        let n = self.entities.len();
        let mut count: usize = 0;
        let mut i: usize = 0;
        while i < n
            invariant
                n == self.entities.len(),
                self == old(self),
                0 <= i <= n,
                count <= i,
                count as int == count_with_name(self@.entities.subrange(0, i as int), nm),
                nm == new_entity@.name,
            decreases n - i,
        {
            proof {
                assert(self@.entities.subrange(0, i + 1).drop_last() =~= self@.entities.subrange(
                    0,
                    i as int,
                ));
                assert(self@.entities.subrange(0, i + 1).last() == self@.entities[i as int]);
            }
            if self.entities[i].name == new_entity.name {
                count += 1;
            }
            i += 1;
        }
        proof {
            assert(self@.entities.subrange(0, n as int) =~= self@.entities);
        }
        if count > 0 {
            let mut updated: Vec<Entity> = Vec::new();
            let mut j: usize = 0;
            while j < n
                invariant
                    n == self.entities.len(),
                    self == old(self),
                    0 <= j <= n,
                    nm == new_entity@.name,
                    updated@.len() == j,
                    forall|k: int|
                        0 <= k < j ==> (#[trigger] updated@[k])@ == promote_dup(
                            self@.entities[k],
                            nm,
                        ),
                decreases n - j,
            {
                let mut e = self.entities[j].clone();
                if e.id == 0 && e.name == new_entity.name {
                    e.id = 1;
                }
                updated.push(e);
                j += 1;
            }
            self.entities = updated;
            let mut incoming = new_entity;
            incoming.id = (count as i32) + 1;
            self.entities.push(incoming);
            proof {
                assert(self@.entities =~= orig.map_values(
                    |x: EntityV| promote_dup(x, nm),
                ).push(EntityV { id: count as int + 1, ..new_entity@ }));
                assert forall|k: int|
                    0 <= k < self@.entities.len() implies (#[trigger] self@.entities[k]).wf() by {
                    if k < orig.len() {
                        assert(self@.entities[k] == promote_dup(orig[k], nm));
                        assert(orig[k].wf());
                    } else {
                        assert(self@.entities[k] == EntityV {
                            id: count as int + 1,
                            ..new_entity@
                        });
                    }
                }
            }
        } else {
            self.entities.push(new_entity);
            proof {
                assert(self@.entities =~= orig.push(new_entity@));
                assert forall|k: int|
                    0 <= k < self@.entities.len() implies (#[trigger] self@.entities[k]).wf() by {
                    if k < orig.len() {
                        assert(orig[k].wf());
                    }
                }
            }
        }
    }

    /// Remove the entity with the given stable identity (every holder of
    /// it, should the identity ever repeat).  An acting index left past
    /// the end resets to 0.
    pub fn remove_entity_by_uuid(&mut self, entity_id: u128)
        requires
            old(self)@.wf(),
        ensures
            final(self)@ == spec_remove_entity(old(self)@, entity_id as int),
            final(self)@.wf(),
    {
        let ghost orig = self@.entities;
        let n = self.entities.len();
        let mut kept: Vec<Entity> = Vec::new();
        let mut i: usize = 0;
        while i < n
            invariant
                n == self.entities.len(),
                self == old(self),
                0 <= i <= n,
                kept@.len() <= i,
                kept@.map_values(|e: Entity| e@) == remove_by_identity(
                    self@.entities.subrange(0, i as int),
                    entity_id as int,
                ),
            decreases n - i,
        {
            proof {
                assert(self@.entities.subrange(0, i + 1).drop_last() =~= self@.entities.subrange(
                    0,
                    i as int,
                ));
                assert(self@.entities.subrange(0, i + 1).last() == self@.entities[i as int]);
            }
            let ghost before = kept@.map_values(|e: Entity| e@);
            if self.entities[i].stable_identity != entity_id {
                kept.push(self.entities[i].clone());
                proof {
                    assert(kept@.map_values(|e: Entity| e@) =~= before + seq![
                        self@.entities[i as int],
                    ]);
                }
            } else {
                proof {
                    assert(kept@.map_values(|e: Entity| e@) =~= before + Seq::<EntityV>::empty());
                }
            }
            i += 1;
        }
        proof {
            assert(self@.entities.subrange(0, n as int) =~= self@.entities);
            lemma_remove_by_identity_elems(
                orig,
                entity_id as int,
                |e: EntityV| e.wf(),
            );
        }
        self.entities = kept;
        if self.current_turn >= self.entities.len() {
            self.current_turn = 0;
        }
    }

    /// Restore every entity to full hit points with no conditions, and
    /// reset the round and the acting index to 0.  Initiative values and
    /// roster membership are untouched.
    pub fn reset_combat(&mut self)
        requires
            old(self)@.wf(),
        ensures
            final(self)@.entities == old(self)@.entities.map_values(
                |e: EntityV| spec_reset_entity(e),
            ),
            final(self)@.current_turn == 0,
            final(self)@.round == 0,
            final(self)@.wf(),
    {
        let n = self.entities.len();
        let mut updated: Vec<Entity> = Vec::new();
        let mut i: usize = 0;
        while i < n
            invariant
                n == self.entities.len(),
                self == old(self),
                0 <= i <= n,
                updated@.len() == i,
                forall|k: int|
                    0 <= k < i ==> (#[trigger] updated@[k])@ == spec_reset_entity(
                        self@.entities[k],
                    ),
            decreases n - i,
        {
            let mut e = self.entities[i].clone();
            e.current_hp = e.max_hp;
            e.conditions = Vec::new();
            updated.push(e);
            i += 1;
        }
        self.entities = updated;
        self.current_turn = 0;
        self.round = 0;
        proof {
            assert(self@.entities =~= old(self)@.entities.map_values(
                |e: EntityV| spec_reset_entity(e),
            ));
        }
    }

    /// Apply damage to the entity at `index`, clamped into `[0, max_hp]`.
    /// An out-of-range index is silently ignored.
    pub fn apply_damage(&mut self, index: usize, amount: i32)
        requires
            old(self)@.wf(),
        ensures
            index < old(self)@.entities.len() ==> final(self)@ == (TrackerV {
                entities: old(self)@.entities.update(
                    index as int,
                    EntityV {
                        current_hp: clamped_hp(
                            old(self)@.entities[index as int].current_hp - amount as int,
                            old(self)@.entities[index as int].max_hp,
                        ),
                        ..old(self)@.entities[index as int]
                    },
                ),
                ..old(self)@
            }),
            index >= old(self)@.entities.len() ==> final(self)@ == old(self)@,
            final(self)@.wf(),
    {
        if index >= self.entities.len() {
            return ;
        }
        let ghost orig = self@.entities;
        let mut e = self.entities.remove(index);
        e.take_damage(amount);
        self.entities.insert(index, e);
        proof {
            assert(self@.entities =~= orig.update(index as int, e@));
            assert forall|k: int|
                0 <= k < self@.entities.len() implies (#[trigger] self@.entities[k]).wf() by {
                if k != index as int {
                    assert(self@.entities[k] == orig[k]);
                }
                assert(orig[k].wf());
            }
        }
    }

    /// Heal the entity at `index`, clamped into `[0, max_hp]`.  An
    /// out-of-range index is silently ignored.
    pub fn apply_heal(&mut self, index: usize, amount: i32)
        requires
            old(self)@.wf(),
        ensures
            index < old(self)@.entities.len() ==> final(self)@ == (TrackerV {
                entities: old(self)@.entities.update(
                    index as int,
                    EntityV {
                        current_hp: clamped_hp(
                            old(self)@.entities[index as int].current_hp + amount as int,
                            old(self)@.entities[index as int].max_hp,
                        ),
                        ..old(self)@.entities[index as int]
                    },
                ),
                ..old(self)@
            }),
            index >= old(self)@.entities.len() ==> final(self)@ == old(self)@,
            final(self)@.wf(),
    {
        if index >= self.entities.len() {
            return ;
        }
        let ghost orig = self@.entities;
        let mut e = self.entities.remove(index);
        e.heal(amount);
        self.entities.insert(index, e);
        proof {
            assert(self@.entities =~= orig.update(index as int, e@));
            assert forall|k: int|
                0 <= k < self@.entities.len() implies (#[trigger] self@.entities[k]).wf() by {
                if k != index as int {
                    assert(self@.entities[k] == orig[k]);
                }
                assert(orig[k].wf());
            }
        }
    }

    /// Toggle a condition on the entity at `index`: inserted when absent,
    /// removed when present.  An out-of-range index is silently ignored.
    pub fn toggle_condition(&mut self, index: usize, condition: Condition)
        requires
            old(self)@.wf(),
        ensures
            index < old(self)@.entities.len() ==> {
                let eo = old(self)@.entities[index as int];
                let en = final(self)@.entities[index as int];
                &&& final(self)@ == (TrackerV {
                    entities: old(self)@.entities.update(index as int, en),
                    ..old(self)@
                })
                &&& en == (EntityV { conditions: en.conditions, ..eo })
                &&& en.conditions.to_set() == if eo.conditions.contains(condition) {
                    eo.conditions.to_set().remove(condition)
                } else {
                    eo.conditions.to_set().insert(condition)
                }
                &&& en.wf()
            },
            index >= old(self)@.entities.len() ==> final(self)@ == old(self)@,
            final(self)@.wf(),
    {
        if index >= self.entities.len() {
            return ;
        }
        let ghost orig = self@.entities;
        let mut e = self.entities.remove(index);
        if e.has_condition(condition) {
            e.remove_condition(condition);
        } else {
            e.add_condition(condition);
        }
        self.entities.insert(index, e);
        proof {
            assert(self@.entities =~= orig.update(index as int, e@));
            assert forall|k: int|
                0 <= k < self@.entities.len() implies (#[trigger] self@.entities[k]).wf() by {
                if k != index as int {
                    assert(self@.entities[k] == orig[k]);
                }
                assert(orig[k].wf());
            }
        }
    }

    /// Overwrite the initiative of the entity at `index` and resort the
    /// roster.  An out-of-range index is silently ignored.
    pub fn set_initiative(&mut self, index: usize, value: i32)
        requires
            old(self)@.wf(),
        ensures
            index < old(self)@.entities.len() ==> {
                let inter = old(self)@.entities.update(
                    index as int,
                    EntityV { initiative: Some(value), ..old(self)@.entities[index as int] },
                );
                &&& final(self)@.entities.to_multiset() == inter.to_multiset()
                &&& final(self)@.entities.len() == old(self)@.entities.len()
                &&& initiative_sorted(final(self)@.entities)
                &&& final(self)@.current_turn == old(self)@.current_turn
                &&& final(self)@.round == old(self)@.round
            },
            index >= old(self)@.entities.len() ==> final(self)@ == old(self)@,
            final(self)@.wf(),
    {
        if index >= self.entities.len() {
            return ;
        }
        let ghost orig = self@.entities;
        let mut e = self.entities.remove(index);
        e.initiative = Some(value);
        self.entities.insert(index, e);
        proof {
            assert(self@.entities =~= orig.update(index as int, e@));
            assert forall|k: int|
                0 <= k < self@.entities.len() implies (#[trigger] self@.entities[k]).wf() by {
                if k != index as int {
                    assert(self@.entities[k] == orig[k]);
                }
                assert(orig[k].wf());
            }
        }
        self.sort_by_initiative();
    }
}

/// Whether this pass rolls a fresh initiative for the entity: it has none
/// yet, or a re-roll was asked for.
pub open spec fn needs_roll(e: EntityV, re_roll: bool) -> bool {
    e.initiative is None || re_roll
}

/// The pointwise relation between the roster before the rolling pass and
/// after it, prior to sorting.  Every entity keeps all fields but
/// initiative; one that needed no roll keeps its initiative; one that was
/// rolled now carries some value.  Rolled individually, the value lies in
/// the entity's own `modifier + [1, 20]` range; rolled grouped by name,
/// all entities rolled in the pass that share a name share one value,
/// drawn from the range of some same-named entity rolled in the pass.
pub open spec fn rolled_from(
    before: Seq<EntityV>,
    after: Seq<EntityV>,
    group_by_name: bool,
    re_roll: bool,
) -> bool {
    &&& after.len() == before.len()
    &&& forall|i: int|
        0 <= i < before.len() ==> (#[trigger] after[i]) == (EntityV {
            initiative: after[i].initiative,
            ..before[i]
        })
    &&& forall|i: int|
        0 <= i < before.len() && !needs_roll(#[trigger] before[i], re_roll) ==> after[i].initiative
            == before[i].initiative
    &&& forall|i: int|
        0 <= i < before.len() && needs_roll(#[trigger] before[i], re_roll)
            ==> after[i].initiative is Some
    &&& !group_by_name ==> forall|i: int|
        0 <= i < before.len() && needs_roll(#[trigger] before[i], re_roll)
            ==> before[i].initiative_modifier + 1 <= ini_key(after[i])
            <= before[i].initiative_modifier + 20
    &&& group_by_name ==> forall|i: int, j: int|
        0 <= i < before.len() && 0 <= j < before.len() && needs_roll(#[trigger] before[i], re_roll)
            && needs_roll(#[trigger] before[j], re_roll) && before[i].name == before[j].name
            ==> after[i].initiative == after[j].initiative
}

/// The initiative already rolled this pass for an entity sharing the
/// given name: the roster prefix `updated` holds the entities processed so
/// far, pointwise name-equal with the original roster.
fn find_grouped_roll(
    originals: &Vec<Entity>,
    updated: &Vec<Entity>,
    name: &String,
    re_roll: bool,
) -> (r: Option<i32>)
    requires
        updated@.len() <= originals@.len(),
        forall|k: int|
            0 <= k < updated@.len() ==> (#[trigger] updated@[k])@.name == originals@[k]@.name,
        forall|k: int|
            0 <= k < updated@.len() && needs_roll((#[trigger] originals@[k])@, re_roll)
                ==> updated@[k]@.initiative is Some,
    ensures
        match r {
            Option::Some(v) => exists|j: int|
                0 <= j < updated@.len() && needs_roll((#[trigger] originals@[j])@, re_roll)
                    && originals@[j]@.name == name@ && updated@[j]@.initiative == Some(v),
            Option::None => forall|j: int|
                0 <= j < updated@.len() ==> !(needs_roll((#[trigger] originals@[j])@, re_roll)
                    && originals@[j]@.name == name@),
        },
{
    let n = updated.len();
    let mut j: usize = 0;
    while j < n
        invariant
            n == updated@.len(),
            n <= originals@.len(),
            0 <= j <= n,
            forall|k: int|
                0 <= k < n ==> (#[trigger] updated@[k])@.name == originals@[k]@.name,
            forall|k: int|
                0 <= k < n && needs_roll((#[trigger] originals@[k])@, re_roll)
                    ==> updated@[k]@.initiative is Some,
            forall|k: int|
                0 <= k < j ==> !(needs_roll((#[trigger] originals@[k])@, re_roll)
                    && originals@[k]@.name == name@),
        decreases n - j,
    {
        let needs_j = originals[j].initiative.is_none() || re_roll;
        if needs_j && originals[j].name == *name {
            proof {
                assert(updated@[j as int]@.initiative is Some);
            }
            return Some(updated[j].initiative.unwrap());
        }
        j += 1;
    }
    None
}

/// The state of the rolling pass over a processed roster prefix `ups`,
/// defined entity by entity.  Each processed entity keeps all fields but
/// initiative.  One that needed no roll keeps its initiative.  One that
/// was rolled either repeats the roll of an earlier same-named entity
/// rolled in the pass (only when grouping by name, and only if there is
/// one), or carries a fresh draw from its own `modifier + [1, 20]` range.
pub open spec fn roll_pass_inv(
    orig: Seq<EntityV>,
    ups: Seq<EntityV>,
    group_by_name: bool,
    re_roll: bool,
) -> bool
    decreases ups.len(),
{
    ups.len() <= orig.len() && (ups.len() == 0 || {
        let i = ups.len() - 1;
        let prev = ups.drop_last();
        let e = ups.last();
        &&& roll_pass_inv(orig, prev, group_by_name, re_roll)
        &&& e == (EntityV { initiative: e.initiative, ..orig[i] })
        &&& if !needs_roll(orig[i], re_roll) {
            e.initiative == orig[i].initiative
        } else if group_by_name && exists|j: int|
            0 <= j < i && needs_roll(#[trigger] orig[j], re_roll) && orig[j].name
                == orig[i].name {
            exists|j: int|
                0 <= j < i && needs_roll(#[trigger] orig[j], re_roll) && orig[j].name
                    == orig[i].name && prev[j].initiative == e.initiative
        } else {
            e.initiative is Some && orig[i].initiative_modifier + 1 <= ini_key(e)
                <= orig[i].initiative_modifier + 20
        }
    })
}

/// Through the rolling pass every processed entity keeps all fields but
/// initiative, keeps its initiative when it needed no roll, and carries
/// some initiative when it was rolled.
#[verifier::rlimit(100)]
#[verifier::spinoff_prover]
proof fn lemma_roll_flat_basic(
    orig: Seq<EntityV>,
    ups: Seq<EntityV>,
    group_by_name: bool,
    re_roll: bool,
)
    requires
        roll_pass_inv(orig, ups, group_by_name, re_roll),
    ensures
        ups.len() <= orig.len(),
        forall|k: int|
            0 <= k < ups.len() ==> (#[trigger] ups[k]) == (EntityV {
                initiative: ups[k].initiative,
                ..orig[k]
            }),
        forall|k: int|
            0 <= k < ups.len() && !needs_roll(orig[k], re_roll) ==> (#[trigger] ups[k]).initiative
                == orig[k].initiative,
        forall|k: int|
            0 <= k < ups.len() && needs_roll(orig[k], re_roll)
                ==> (#[trigger] ups[k]).initiative is Some,
    decreases ups.len(),
{
    if ups.len() > 0 {
        let i = ups.len() - 1;
        let prev = ups.drop_last();
        lemma_roll_flat_basic(orig, prev, group_by_name, re_roll);
        assert(forall|k: int| 0 <= k < i ==> #[trigger] ups[k] == prev[k]);
        if needs_roll(orig[i], re_roll) {
            if group_by_name && exists|j: int|
                0 <= j < i && needs_roll(#[trigger] orig[j], re_roll) && orig[j].name
                    == orig[i].name {
                let j = choose|j: int|
                    0 <= j < i && needs_roll(#[trigger] orig[j], re_roll) && orig[j].name
                        == orig[i].name && prev[j].initiative == ups[i].initiative;
                assert(prev[j].initiative is Some);
            } else {
                assert(ups[i].initiative is Some);
            }
        }
    }
}

/// Rolled individually, every rolled entity's initiative lies in its own
/// `modifier + [1, 20]` range.
#[verifier::rlimit(100)]
#[verifier::spinoff_prover]
proof fn lemma_roll_flat_solo(orig: Seq<EntityV>, ups: Seq<EntityV>, re_roll: bool)
    requires
        roll_pass_inv(orig, ups, false, re_roll),
    ensures
        forall|k: int|
            0 <= k < ups.len() && needs_roll(orig[k], re_roll) ==> orig[k].initiative_modifier + 1
                <= ini_key(#[trigger] ups[k]) <= orig[k].initiative_modifier + 20,
    decreases ups.len(),
{
    if ups.len() > 0 {
        let i = ups.len() - 1;
        let prev = ups.drop_last();
        lemma_roll_flat_solo(orig, prev, re_roll);
        assert(forall|k: int| 0 <= k < i ==> #[trigger] ups[k] == prev[k]);
    }
}

/// Rolled grouped by name, entities rolled in the pass that share a name
/// share one value.
#[verifier::rlimit(100)]
#[verifier::spinoff_prover]
proof fn lemma_roll_flat_group_eq(orig: Seq<EntityV>, ups: Seq<EntityV>, re_roll: bool)
    requires
        roll_pass_inv(orig, ups, true, re_roll),
    ensures
        forall|k1: int, k2: int|
            0 <= k1 < ups.len() && 0 <= k2 < ups.len() && needs_roll(orig[k1], re_roll)
                && needs_roll(orig[k2], re_roll) && orig[k1].name == orig[k2].name ==> (
            #[trigger] ups[k1]).initiative == (#[trigger] ups[k2]).initiative,
    decreases ups.len(),
{
    if ups.len() > 0 {
        let i = ups.len() - 1;
        let prev = ups.drop_last();
        lemma_roll_flat_group_eq(orig, prev, re_roll);
        assert(forall|k: int| 0 <= k < i ==> #[trigger] ups[k] == prev[k]);
        if needs_roll(orig[i], re_roll) {
            if exists|j: int|
                0 <= j < i && needs_roll(#[trigger] orig[j], re_roll) && orig[j].name
                    == orig[i].name {
                let w = choose|j: int|
                    0 <= j < i && needs_roll(#[trigger] orig[j], re_roll) && orig[j].name
                        == orig[i].name && prev[j].initiative == ups[i].initiative;
                assert forall|k: int|
                    0 <= k < i && needs_roll(orig[k], re_roll) && orig[k].name == orig[i].name
                        implies (#[trigger] ups[k]).initiative == ups[i].initiative by {
                    assert(ups[k].initiative == ups[w].initiative);
                }
            }
        }
    }
}

/// Well-formedness survives the rolling pass: the condition lists are
/// untouched.
#[verifier::rlimit(100)]
#[verifier::spinoff_prover]
proof fn lemma_roll_pass_wf(
    orig: Seq<EntityV>,
    ups: Seq<EntityV>,
    group_by_name: bool,
    re_roll: bool,
)
    requires
        roll_pass_inv(orig, ups, group_by_name, re_roll),
        forall|k: int| 0 <= k < orig.len() ==> (#[trigger] orig[k]).wf(),
    ensures
        ups.len() <= orig.len(),
        forall|k: int| 0 <= k < ups.len() ==> (#[trigger] ups[k]).wf(),
{
    lemma_roll_flat_basic(orig, ups, group_by_name, re_roll);
    assert forall|k: int| 0 <= k < ups.len() implies (#[trigger] ups[k]).wf() by {
        assert(ups[k] == (EntityV { initiative: ups[k].initiative, ..orig[k] }));
        assert(orig[k].wf());
    }
}

/// A completed pass realises the pointwise rolling relation; every entity
/// then carries an initiative, and under a grouped re-roll equal names
/// imply equal initiative.
#[verifier::rlimit(100)]
#[verifier::spinoff_prover]
proof fn lemma_roll_pass_realises(
    orig: Seq<EntityV>,
    ups: Seq<EntityV>,
    group_by_name: bool,
    re_roll: bool,
)
    requires
        roll_pass_inv(orig, ups, group_by_name, re_roll),
        ups.len() == orig.len(),
    ensures
        rolled_from(orig, ups, group_by_name, re_roll),
        forall|k: int| 0 <= k < ups.len() ==> (#[trigger] ups[k]).initiative is Some,
        group_by_name && re_roll ==> forall|k1: int, k2: int|
            0 <= k1 < ups.len() && 0 <= k2 < ups.len() && (#[trigger] ups[k1]).name == (
            #[trigger] ups[k2]).name ==> ups[k1].initiative == ups[k2].initiative,
{
    lemma_roll_flat_basic(orig, ups, group_by_name, re_roll);
    if group_by_name {
        lemma_roll_flat_group_eq(orig, ups, re_roll);
    } else {
        lemma_roll_flat_solo(orig, ups, re_roll);
    }
    assert forall|k: int| 0 <= k < ups.len() implies (#[trigger] ups[k]).initiative is Some by {
        if !needs_roll(orig[k], re_roll) {
            assert(ups[k].initiative == orig[k].initiative);
        }
    }
    if group_by_name && re_roll {
        assert forall|k1: int, k2: int|
            0 <= k1 < ups.len() && 0 <= k2 < ups.len() && (#[trigger] ups[k1]).name == (
            #[trigger] ups[k2]).name implies ups[k1].initiative == ups[k2].initiative by {
            assert(orig[k1].name == ups[k1].name);
            assert(orig[k2].name == ups[k2].name);
            assert(needs_roll(orig[k1], re_roll) && needs_roll(orig[k2], re_roll));
        }
    }
}

/// After the pass and any reordering that keeps the multiset, the final
/// roster realises the rolling relation through the intermediate one:
/// every entity carries an initiative, well-formedness survives, and
/// under a grouped re-roll equal names imply equal initiative.
#[verifier::rlimit(100)]
#[verifier::spinoff_prover]
proof fn lemma_roll_finish(
    orig: Seq<EntityV>,
    mid: Seq<EntityV>,
    fin: Seq<EntityV>,
    group_by_name: bool,
    re_roll: bool,
)
    requires
        roll_pass_inv(orig, mid, group_by_name, re_roll),
        mid.len() == orig.len(),
        forall|k: int| 0 <= k < orig.len() ==> (#[trigger] orig[k]).wf(),
        fin.to_multiset() == mid.to_multiset(),
    ensures
        rolled_from(orig, mid, group_by_name, re_roll),
        forall|k: int| 0 <= k < fin.len() ==> (#[trigger] fin[k]).initiative is Some,
        group_by_name && re_roll ==> forall|k1: int, k2: int|
            0 <= k1 < fin.len() && 0 <= k2 < fin.len() && (#[trigger] fin[k1]).name == (
            #[trigger] fin[k2]).name ==> fin[k1].initiative == fin[k2].initiative,
{
    lemma_roll_pass_realises(orig, mid, group_by_name, re_roll);
    lemma_elements_transfer(mid, fin, |e: EntityV| e.initiative is Some);
    if group_by_name && re_roll {
        lemma_pairs_transfer(
            mid,
            fin,
            |a: EntityV, b: EntityV| a.name == b.name ==> a.initiative == b.initiative,
        );
    }
}

impl CombatTracker {
    /// Roll initiative with a d20 plus each entity's modifier: every
    /// entity without an initiative is rolled, every entity if `re_roll`
    /// is set.  With `group_by_name` set, all entities rolled in the pass
    /// that share a name receive one shared roll.  The roster is then
    /// reordered by the Initiative Sort; afterwards every entity carries
    /// an initiative, and under a grouped re-roll equal names imply equal
    /// initiative.
    #[verifier::rlimit(60)]
    #[verifier::spinoff_prover]
    pub fn roll_initiative(&mut self, group_by_name: bool, re_roll: bool)
        requires
            old(self)@.wf(),
            forall|i: int|
                0 <= i < old(self)@.entities.len()
                    ==> (#[trigger] old(self)@.entities[i]).initiative_modifier + 20
                    <= i32::MAX as int,
        ensures
            final(self)@.current_turn == old(self)@.current_turn,
            final(self)@.round == old(self)@.round,
            final(self)@.entities.len() == old(self)@.entities.len(),
            initiative_sorted(final(self)@.entities),
            forall|i: int|
                0 <= i < final(self)@.entities.len()
                    ==> (#[trigger] final(self)@.entities[i]).initiative is Some,
            group_by_name && re_roll ==> forall|i: int, j: int|
                0 <= i < final(self)@.entities.len() && 0 <= j < final(self)@.entities.len() && (
                #[trigger] final(self)@.entities[i]).name == (
                #[trigger] final(self)@.entities[j]).name ==> final(self)@.entities[i].initiative
                    == final(self)@.entities[j].initiative,
            exists|mid: Seq<EntityV>|
                #[trigger] rolled_from(old(self)@.entities, mid, group_by_name, re_roll)
                    && final(self)@.entities.to_multiset() == mid.to_multiset(),
            final(self)@.wf(),
    {
        let ghost orig = self@.entities;
        let n = self.entities.len();
        let mut updated: Vec<Entity> = Vec::new();
        proof {
            assert(updated@.map_values(|e: Entity| e@) =~= Seq::<EntityV>::empty());
        }
        let mut i: usize = 0;
        while i < n
            invariant
                n == self.entities.len(),
                self.entities == old(self).entities,
                self.current_turn == old(self).current_turn,
                self.round == old(self).round,
                orig == self@.entities,
                forall|k: int|
                    0 <= k < n ==> (#[trigger] orig[k]).initiative_modifier + 20 <= i32::MAX as int,
                0 <= i <= n,
                updated@.len() == i,
                roll_pass_inv(
                    orig,
                    updated@.map_values(|e: Entity| e@),
                    group_by_name,
                    re_roll,
                ),
            decreases n - i,
        {
            let ghost ups = updated@.map_values(|e: Entity| e@);
            proof {
                lemma_roll_flat_basic(orig, ups, group_by_name, re_roll);
                assert(updated@.len() == ups.len());
                assert forall|k: int| 0 <= k < i implies (#[trigger] updated@[k])@ == ups[k] by {
                    assert(ups[k] == updated@[k]@);
                }
                assert forall|k: int| 0 <= k < n implies #[trigger] self.entities@[k]@
                    == orig[k] by {
                    assert(orig[k] == self.entities@[k]@);
                }
            }
            let needs = self.entities[i].initiative.is_none() || re_roll;
            if needs {
                let m = self.entities[i].initiative_modifier;
                proof {
                    assert(orig[i as int].initiative_modifier + 20 <= i32::MAX as int);
                    assert(orig[i as int].initiative_modifier == m as int);
                }
                let looked: Option<i32> = if group_by_name {
                    find_grouped_roll(&self.entities, &updated, &self.entities[i].name, re_roll)
                } else {
                    None
                };
                let value: i32 = match looked {
                    Option::Some(v) => v,
                    Option::None => crate::dice::roll_dice(&mut self.rng, 20, m),
                };
                let mut e = self.entities[i].clone();
                e.initiative = Some(value);
                updated.push(e);
                proof {
                    let up2 = updated@.map_values(|x: Entity| x@);
                    let ev = EntityV { initiative: Some(value), ..orig[i as int] };
                    assert(e@ == ev);
                    assert(up2 =~= ups.push(ev));
                    assert(up2.drop_last() =~= ups);
                    assert(up2.last() == ev);
                    assert(needs_roll(orig[i as int], re_roll));
                    match looked {
                        Option::Some(v) => {
                            let jw = choose|j: int|
                                0 <= j < updated@.len() - 1 && needs_roll(
                                    (#[trigger] self.entities@[j])@,
                                    re_roll,
                                ) && self.entities@[j]@.name == self.entities[i as int].name@
                                    && updated@[j]@.initiative == Some(v);
                            assert(0 <= jw < i && needs_roll(orig[jw], re_roll) && orig[jw].name
                                == orig[i as int].name && ups[jw].initiative == Some(value));
                            assert(ups[jw].initiative == ev.initiative);
                        },
                        Option::None => {
                            if group_by_name {
                                assert forall|j: int| 0 <= j < i implies !(needs_roll(
                                    (#[trigger] orig[j]),
                                    re_roll,
                                ) && orig[j].name == orig[i as int].name) by {
                                    assert(!(needs_roll(self.entities@[j]@, re_roll)
                                        && self.entities@[j]@.name
                                        == self.entities[i as int].name@));
                                }
                            }
                            assert(orig[i as int].initiative_modifier + 1 <= ini_key(ev)
                                <= orig[i as int].initiative_modifier + 20);
                        },
                    }
                    assert(roll_pass_inv(orig, up2, group_by_name, re_roll));
                }
            } else {
                let e = self.entities[i].clone();
                updated.push(e);
                proof {
                    let up2 = updated@.map_values(|x: Entity| x@);
                    assert(e@ == orig[i as int]);
                    assert(up2 =~= ups.push(orig[i as int]));
                    assert(up2.drop_last() =~= ups);
                    assert(up2.last() == orig[i as int]);
                    assert(!needs_roll(orig[i as int], re_roll));
                    assert(roll_pass_inv(orig, up2, group_by_name, re_roll));
                }
            }
            i += 1;
        }
        self.entities = updated;
        let ghost mid = self@.entities;
        proof {
            lemma_roll_pass_wf(orig, mid, group_by_name, re_roll);
        }
        self.sort_by_initiative();
        proof {
            lemma_roll_finish(orig, mid, self@.entities, group_by_name, re_roll);
            assert(orig == old(self)@.entities);
            assert(rolled_from(old(self)@.entities, mid, group_by_name, re_roll));
        }
    }
}


/// Elementwise properties survive reordering: if two sequences carry the
/// same multiset, a property of every element of one holds of every
/// element of the other.
pub proof fn lemma_elements_transfer<A>(s1: Seq<A>, s2: Seq<A>, p: spec_fn(A) -> bool)
    requires
        s1.to_multiset() == s2.to_multiset(),
        forall|i: int| 0 <= i < s1.len() ==> p(#[trigger] s1[i]),
    ensures
        forall|i: int| 0 <= i < s2.len() ==> p(#[trigger] s2[i]),
{
    broadcast use vstd::seq_lib::group_to_multiset_ensures;

    assert forall|i: int| 0 <= i < s2.len() implies p(s2[i]) by {
        assert(s2.contains(s2[i]));
        assert(s1.to_multiset().count(s2[i]) > 0);
        assert(s1.contains(s2[i]));
        let j = choose|j: int| 0 <= j < s1.len() && s1[j] == s2[i];
        assert(p(s1[j]));
    }
}

/// Pairwise properties survive reordering in the same way.
pub proof fn lemma_pairs_transfer<A>(s1: Seq<A>, s2: Seq<A>, p: spec_fn(A, A) -> bool)
    requires
        s1.to_multiset() == s2.to_multiset(),
        forall|i: int, j: int|
            0 <= i < s1.len() && 0 <= j < s1.len() ==> p(#[trigger] s1[i], #[trigger] s1[j]),
    ensures
        forall|i: int, j: int|
            0 <= i < s2.len() && 0 <= j < s2.len() ==> p(#[trigger] s2[i], #[trigger] s2[j]),
{
    broadcast use vstd::seq_lib::group_to_multiset_ensures;

    assert forall|i: int, j: int|
        0 <= i < s2.len() && 0 <= j < s2.len() implies p(s2[i], s2[j]) by {
        assert(s2.contains(s2[i]));
        assert(s2.contains(s2[j]));
        assert(s1.to_multiset().count(s2[i]) > 0);
        assert(s1.to_multiset().count(s2[j]) > 0);
        assert(s1.contains(s2[i]));
        assert(s1.contains(s2[j]));
        let a = choose|a: int| 0 <= a < s1.len() && s1[a] == s2[i];
        let b = choose|b: int| 0 <= b < s1.len() && s1[b] == s2[j];
        assert(p(s1[a], s1[b]));
    }
}

/// Moving `s[i]` to position `pos` keeps the multiset, sorts the prefix up
/// to and including `i`, and leaves the tail beyond `i` in place.
proof fn lemma_insertion_step(s: Seq<EntityV>, i: int, pos: int)
    requires
        0 <= pos < i < s.len(),
        initiative_sorted(s.subrange(0, i)),
        forall|k: int| 0 <= k < pos ==> precede_ok(#[trigger] s[k], s[i]),
        !precede_ok(s[pos], s[i]),
    ensures
        ({
            let t = s.remove(i).insert(pos, s[i]);
            &&& t.len() == s.len()
            &&& t.to_multiset() == s.to_multiset()
            &&& initiative_sorted(t.subrange(0, i + 1))
            &&& forall|k: int| i < k < s.len() ==> t[k] == s[k]
            &&& forall|k: int|
                0 <= k < t.len() ==> exists|m: int| 0 <= m < s.len() && #[trigger] t[k] == s[m]
        }),
{
    broadcast use vstd::seq_lib::group_to_multiset_ensures;
    broadcast use vstd::seq_lib::to_multiset_insert;

    let e = s[i];
    let u = s.remove(i);
    let t = u.insert(pos, e);
    assert(forall|k: int| 0 <= k < i ==> u[k] == s[k]);
    assert(forall|k: int| i <= k < u.len() ==> u[k] == s[k + 1]);
    assert(forall|k: int| 0 <= k < pos ==> t[k] == s[k]);
    assert(t[pos] == e);
    assert(forall|k: int| pos < k <= i ==> t[k] == s[k - 1]);
    assert(forall|k: int| i < k < t.len() ==> t[k] == s[k]);
    assert(t.to_multiset() =~= s.to_multiset()) by {
        assert(u.to_multiset() == s.to_multiset().remove(e));
        assert(t.to_multiset() == u.to_multiset().insert(e));
        assert(s.contains(e));
        assert(s.to_multiset().count(e) > 0);
    }
    assert forall|a: int, b: int| 0 <= a < b < i + 1 implies precede_ok(
        #[trigger] t.subrange(0, i + 1)[a],
        #[trigger] t.subrange(0, i + 1)[b],
    ) by {
        assert(t.subrange(0, i + 1)[a] == t[a]);
        assert(t.subrange(0, i + 1)[b] == t[b]);
        if b < pos {
            assert(s.subrange(0, i)[a] == s[a]);
            assert(s.subrange(0, i)[b] == s[b]);
        } else if b == pos {
            assert(precede_ok(s[a], e));
        } else {
            if a < pos {
                assert(s.subrange(0, i)[a] == s[a]);
                assert(s.subrange(0, i)[b - 1] == s[b - 1]);
            } else if a == pos {
                assert(precede_ok(e, s[pos]));
                if pos < b - 1 {
                    assert(s.subrange(0, i)[pos] == s[pos]);
                    assert(s.subrange(0, i)[b - 1] == s[b - 1]);
                    assert(precede_ok(s[pos], s[b - 1]));
                }
            } else {
                assert(s.subrange(0, i)[a - 1] == s[a - 1]);
                assert(s.subrange(0, i)[b - 1] == s[b - 1]);
            }
        }
    }
    assert forall|k: int| 0 <= k < t.len() implies exists|m: int|
        0 <= m < s.len() && #[trigger] t[k] == s[m] by {
        if k < pos {
            assert(t[k] == s[k]);
        } else if k == pos {
            assert(t[k] == s[i]);
        } else if k <= i {
            assert(t[k] == s[k - 1]);
        } else {
            assert(t[k] == s[k]);
        }
    }
}

/// `a` may stand at or before `b` in initiative order: the executable
/// comparison behind the Initiative Sort.
fn sorts_no_later(a: &Entity, b: &Entity) -> (r: bool)
    ensures
        r == precede_ok(a@, b@),
{
    let ka: i64 = match a.initiative {
        Option::Some(v) => v as i64,
        Option::None => (i32::MIN as i64) - 1,
    };
    let kb: i64 = match b.initiative {
        Option::Some(v) => v as i64,
        Option::None => (i32::MIN as i64) - 1,
    };
    if ka != kb {
        ka > kb
    } else {
        let pa: i32 = match a.entity_type {
            EntityType::Player => 1,
            _ => 0,
        };
        let pb: i32 = match b.entity_type {
            EntityType::Player => 1,
            _ => 0,
        };
        pa >= pb
    }
}

impl CombatTracker {
    /// The Initiative Sort: reorder the roster so that initiative is
    /// non-increasing and, within an equal-initiative run, Players precede
    /// non-Players.  The roster's multiset of entities, the acting index
    /// and the round are unchanged.
    pub fn sort_by_initiative(&mut self)
        requires
            old(self)@.wf(),
        ensures
            final(self)@.entities.to_multiset() == old(self)@.entities.to_multiset(),
            final(self)@.entities.len() == old(self)@.entities.len(),
            initiative_sorted(final(self)@.entities),
            final(self)@.current_turn == old(self)@.current_turn,
            final(self)@.round == old(self)@.round,
            final(self)@.wf(),
    {
        let n = self.entities.len();
        if n < 2 {
            return ;
        }
        let mut i: usize = 1;
        while i < n
            invariant
                n == self.entities.len(),
                1 <= i <= n,
                self@.entities.to_multiset() == old(self)@.entities.to_multiset(),
                self.current_turn == old(self).current_turn,
                self.round == old(self).round,
                initiative_sorted(self@.entities.subrange(0, i as int)),
                forall|k: int| 0 <= k < n ==> (#[trigger] self@.entities[k]).wf(),
            decreases n - i,
        {
            let ghost s = self@.entities;
            let mut pos: usize = 0;
            while pos < i
                invariant
                    pos <= i < n == self.entities.len(),
                    self@.entities == s,
                    forall|k: int|
                        0 <= k < pos ==> precede_ok(#[trigger] s[k], s[i as int]),
                ensures
                    pos <= i,
                    self@.entities == s,
                    forall|k: int|
                        0 <= k < pos ==> precede_ok(#[trigger] s[k], s[i as int]),
                    pos < i ==> !precede_ok(s[pos as int], s[i as int]),
                decreases i - pos,
            {
                if !sorts_no_later(&self.entities[pos], &self.entities[i]) {
                    break ;
                }
                pos += 1;
            }
            if pos < i {
                proof {
                    lemma_insertion_step(s, i as int, pos as int);
                }
                let e = self.entities.remove(i);
                self.entities.insert(pos, e);
                proof {
                    assert(self@.entities =~= s.remove(i as int).insert(pos as int, s[i as int]));
                }
            } else {
                proof {
                    assert forall|a: int, b: int| 0 <= a < b < i + 1 implies precede_ok(
                        #[trigger] self@.entities.subrange(0, i + 1)[a],
                        #[trigger] self@.entities.subrange(0, i + 1)[b],
                    ) by {
                        if b < i {
                            assert(s.subrange(0, i as int)[a] == s[a]);
                            assert(s.subrange(0, i as int)[b] == s[b]);
                        }
                    }
                }
            }
            i += 1;
        }
        proof {
            assert(self@.entities.subrange(0, n as int) =~= self@.entities);
        }
    }
}

/// On a single-entity roster a forward turn advance increments the round on
/// every call, the acting index staying at 0.
pub proof fn lemma_next_turn_single_entity(t: TrackerV)
    requires
        t.wf(),
        t.entities.len() == 1,
    ensures
        spec_next_turn(t).round == t.round + 1,
        spec_next_turn(t).current_turn == 0,
{
}

} // verus!
