//! The durable form of the tracker: entities grouped by kind, monsters
//! optionally compressed into an entry with a repeat count.

use vstd::prelude::*;
use vstd::multiset::Multiset;
use crate::entity::{Condition, Entity, EntityType, EntityV};
use crate::tracker::{spec_add_entity, CombatTracker, TrackerV};

verus! {

/// The mathematical value of a [`MonsterEntry`].
#[verifier::ext_equal]
pub ghost struct MonsterEntryV {
    pub count: int,
    pub stats: EntityV,
}

/// One monster line of the durable form: a stat block and how many copies
/// of it the encounter holds (absent means one).
#[derive(Debug)]
pub struct MonsterEntry {
    pub count: Option<usize>,
    pub stats: Entity,
}

impl View for MonsterEntry {
    type V = MonsterEntryV;

    open spec fn view(&self) -> MonsterEntryV {
        MonsterEntryV {
            count: match self.count {
                Option::None => 1,
                Option::Some(n) => n as int,
            },
            stats: self.stats@,
        }
    }
}

/// The mathematical value of a [`CombatInfo`].
#[verifier::ext_equal]
pub ghost struct CombatInfoV {
    pub current_turn: int,
    pub round: int,
    pub players: Seq<EntityV>,
    pub monsters: Seq<MonsterEntryV>,
}

/// The durable form of an encounter: the turn counters, the player
/// entities, and the monster entries.
#[derive(Debug)]
pub struct CombatInfo {
    pub current_turn: usize,
    pub round: usize,
    pub players: Vec<Entity>,
    pub monsters: Vec<MonsterEntry>,
}

impl View for CombatInfo {
    type V = CombatInfoV;

    open spec fn view(&self) -> CombatInfoV {
        CombatInfoV {
            current_turn: self.current_turn as int,
            round: self.round as int,
            players: self.players@.map_values(|e: Entity| e@),
            monsters: self.monsters@.map_values(|m: MonsterEntry| m@),
        }
    }
}

/// Whether the entity is of Player kind.
pub open spec fn is_player(e: EntityV) -> bool {
    e.entity_type is Player
}

/// The players of a roster, in roster order.
pub open spec fn players_of(s: Seq<EntityV>) -> Seq<EntityV>
    decreases s.len(),
{
    if s.len() == 0 {
        Seq::<EntityV>::empty()
    } else {
        players_of(s.drop_last()) + if is_player(s.last()) {
            seq![s.last()]
        } else {
            Seq::<EntityV>::empty()
        }
    }
}

/// The non-players of a roster, in roster order.
pub open spec fn monsters_of(s: Seq<EntityV>) -> Seq<EntityV>
    decreases s.len(),
{
    if s.len() == 0 {
        Seq::<EntityV>::empty()
    } else {
        monsters_of(s.drop_last()) + if !is_player(s.last()) {
            seq![s.last()]
        } else {
            Seq::<EntityV>::empty()
        }
    }
}

/// The durable form of a tracker: players and non-players split, each
/// non-player written as an entry of count 1.
pub open spec fn spec_save(t: TrackerV) -> CombatInfoV {
    CombatInfoV {
        current_turn: t.current_turn,
        round: t.round,
        players: players_of(t.entities),
        monsters: monsters_of(t.entities).map_values(
            |e: EntityV| MonsterEntryV { count: 1, stats: e },
        ),
    }
}

/// A loaded player: its kind is forced to Player.
pub open spec fn force_player(e: EntityV) -> EntityV {
    EntityV { entity_type: EntityType::Player, ..e }
}

/// A loaded monster: its kind is forced to Monster, and a zero (unset)
/// current hit-point value is initialised to the maximum.
pub open spec fn force_monster(e: EntityV) -> EntityV {
    EntityV {
        entity_type: EntityType::Monster,
        current_hp: if e.current_hp == 0 {
            e.max_hp
        } else {
            e.current_hp
        },
        ..e
    }
}

/// `n` copies of one entity.
pub open spec fn repeat_entity(e: EntityV, n: int) -> Seq<EntityV>
    decreases n,
{
    if n <= 0 {
        Seq::<EntityV>::empty()
    } else {
        repeat_entity(e, n - 1).push(e)
    }
}

/// The monster entries expanded into entities, entry by entry.
pub open spec fn expand_monsters(entries: Seq<MonsterEntryV>) -> Seq<EntityV>
    decreases entries.len(),
{
    if entries.len() == 0 {
        Seq::<EntityV>::empty()
    } else {
        expand_monsters(entries.drop_last()) + repeat_entity(
            force_monster(entries.last().stats),
            entries.last().count,
        )
    }
}

/// The entities a durable form hydrates, in load order: the players, then
/// the expanded monsters.
pub open spec fn load_entries(info: CombatInfoV) -> Seq<EntityV> {
    players_of_loaded(info.players) + expand_monsters(info.monsters)
}

/// The loaded players, kinds forced.
pub open spec fn players_of_loaded(players: Seq<EntityV>) -> Seq<EntityV> {
    players.map_values(|e: EntityV| force_player(e))
}

/// Entities appended one by one through the duplicate-name id assignment.
pub open spec fn add_all(t: TrackerV, s: Seq<EntityV>) -> TrackerV
    decreases s.len(),
{
    if s.len() == 0 {
        t
    } else {
        spec_add_entity(add_all(t, s.drop_last()), s.last())
    }
}

/// The tracker a durable form hydrates: its entities appended in load
/// order onto an empty roster carrying the stored counters, with an
/// out-of-range acting index reset to 0.
pub open spec fn spec_load(info: CombatInfoV) -> TrackerV {
    let base = TrackerV {
        entities: Seq::<EntityV>::empty(),
        current_turn: info.current_turn,
        round: info.round,
    };
    let u = add_all(base, load_entries(info));
    TrackerV {
        current_turn: if u.current_turn >= u.entities.len() {
            0
        } else {
            u.current_turn
        },
        ..u
    }
}

/// Two entities equal in everything but their stable identity.
pub open spec fn eq_mod_identity(a: EntityV, b: EntityV) -> bool {
    a == (EntityV { stable_identity: a.stable_identity, ..b })
}

/// Two rosters pointwise equal in everything but stable identities.
pub open spec fn pointwise_mod_identity(a: Seq<EntityV>, b: Seq<EntityV>) -> bool {
    a.len() == b.len() && forall|k: int| 0 <= k < a.len() ==> eq_mod_identity(#[trigger] a[k], b[k])
}

/// The combat-relevant stats of an entity: everything but the two
/// bookkeeping identifiers.
#[verifier::ext_equal]
pub ghost struct EntityStats {
    pub name: Seq<char>,
    pub entity_type: EntityType,
    pub initiative: Option<i32>,
    pub initiative_modifier: int,
    pub ac: int,
    pub max_hp: int,
    pub current_hp: int,
    pub conditions: Seq<Condition>,
}

/// The stats projection.
pub open spec fn stats_of(e: EntityV) -> EntityStats {
    EntityStats {
        name: e.name,
        entity_type: e.entity_type,
        initiative: e.initiative,
        initiative_modifier: e.initiative_modifier,
        ac: e.ac,
        max_hp: e.max_hp,
        current_hp: e.current_hp,
        conditions: e.conditions,
    }
}

/// The stats of a whole roster.
pub open spec fn stats_seq(s: Seq<EntityV>) -> Seq<EntityStats> {
    s.map_values(|e: EntityV| stats_of(e))
}

/// How many entities the durable form hydrates.
pub open spec fn spec_load_len(info: CombatInfoV) -> int {
    load_entries(info).len() as int
}

impl CombatTracker {
    /// The durable form of this tracker: players and monsters split in
    /// roster order, each monster written as an entry of count 1.
    pub fn to_snapshot(&self) -> (r: CombatInfo)
        ensures
            r@ == spec_save(self@),
    {
        let ghost s = self@.entities;
        let n = self.entities.len();
        let mut players: Vec<Entity> = Vec::new();
        let mut monsters: Vec<MonsterEntry> = Vec::new();
        let mut i: usize = 0;
        proof {
            assert(players@.map_values(|e: Entity| e@) =~= players_of(s.subrange(0, 0)));
            assert(monsters@.map_values(|m: MonsterEntry| m@) =~= monsters_of(
                s.subrange(0, 0),
            ).map_values(|e: EntityV| MonsterEntryV { count: 1, stats: e }));
        }
        while i < n
            invariant
                n == self.entities.len(),
                s == self@.entities,
                0 <= i <= n,
                players@.map_values(|e: Entity| e@) == players_of(s.subrange(0, i as int)),
                monsters@.map_values(|m: MonsterEntry| m@) == monsters_of(
                    s.subrange(0, i as int),
                ).map_values(|e: EntityV| MonsterEntryV { count: 1, stats: e }),
            decreases n - i,
        {
            proof {
                assert(s.subrange(0, i + 1).drop_last() =~= s.subrange(0, i as int));
                assert(s.subrange(0, i + 1).last() == s[i as int]);
            }
            let ghost p_before = players@.map_values(|e: Entity| e@);
            let ghost m_before = monsters@.map_values(|m: MonsterEntry| m@);
            match self.entities[i].entity_type {
                EntityType::Player => {
                    players.push(self.entities[i].clone());
                    proof {
                        assert(players@.map_values(|e: Entity| e@) =~= p_before + seq![
                            s[i as int],
                        ]);
                        assert(monsters@.map_values(|m: MonsterEntry| m@) =~= m_before
                            + Seq::<MonsterEntryV>::empty());
                        assert(monsters_of(s.subrange(0, i + 1)).map_values(
                            |e: EntityV| MonsterEntryV { count: 1, stats: e },
                        ) =~= m_before);
                    }
                },
                _ => {
                    monsters.push(
                        MonsterEntry { count: Some(1), stats: self.entities[i].clone() },
                    );
                    proof {
                        assert(players@.map_values(|e: Entity| e@) =~= p_before
                            + Seq::<EntityV>::empty());
                        assert(monsters@.map_values(|m: MonsterEntry| m@) =~= m_before + seq![
                            MonsterEntryV { count: 1, stats: s[i as int] },
                        ]);
                        assert(monsters_of(s.subrange(0, i + 1)).map_values(
                            |e: EntityV| MonsterEntryV { count: 1, stats: e },
                        ) =~= m_before + seq![MonsterEntryV { count: 1, stats: s[i as int] }]);
                    }
                },
            }
            i += 1;
        }
        proof {
            assert(s.subrange(0, n as int) =~= s);
        }
        let r = CombatInfo {
            current_turn: self.current_turn,
            round: self.round,
            players,
            monsters,
        };
        proof {
            assert(r@ =~= spec_save(self@));
        }
        r
    }

    /// Hydrate a tracker from a durable form: players first, then each
    /// monster entry expanded into `count` entities, every loaded entity
    /// getting a fresh stable identity and passing through the
    /// duplicate-name id assignment.  An out-of-range acting index is
    /// reset to 0.
    pub fn from_snapshot(info: &CombatInfo) -> (r: CombatTracker)
        requires
            spec_load_len(info@) <= i32::MAX as int,
            forall|k: int|
                0 <= k < info@.players.len() ==> (#[trigger] info@.players[k]).wf(),
            forall|k: int|
                0 <= k < info@.monsters.len() ==> (#[trigger] info@.monsters[k]).stats.wf(),
        ensures
            exists|ents: Seq<EntityV>|
                #[trigger] pointwise_mod_identity(ents, load_entries(info@)) && r@ == ({
                    let base = TrackerV {
                        entities: Seq::<EntityV>::empty(),
                        current_turn: info@.current_turn,
                        round: info@.round,
                    };
                    let u = add_all(base, ents);
                    TrackerV {
                        current_turn: if u.current_turn >= u.entities.len() {
                            0
                        } else {
                            u.current_turn
                        },
                        ..u
                    }
                }),
            r@.round == info@.round,
            r@.wf(),
    {
        let ghost target = load_entries(info@);
        let mut incoming: Vec<Entity> = Vec::new();
        let np = info.players.len();
        let mut i: usize = 0;
        proof {
            assert(incoming@.map_values(|e: Entity| e@) =~= Seq::<EntityV>::empty());
            assert(players_of_loaded(info@.players.subrange(0, 0)) =~= Seq::<EntityV>::empty());
            assert(pointwise_mod_identity(
                incoming@.map_values(|e: Entity| e@),
                players_of_loaded(info@.players.subrange(0, 0)),
            ));
        }
        while i < np
            invariant
                np == info.players.len(),
                0 <= i <= np,
                forall|k: int|
                    0 <= k < info@.players.len() ==> (#[trigger] info@.players[k]).wf(),
                pointwise_mod_identity(
                    incoming@.map_values(|e: Entity| e@),
                    players_of_loaded(info@.players.subrange(0, i as int)),
                ),
                forall|k: int|
                    0 <= k < incoming@.len() ==> (#[trigger] incoming@[k])@.wf(),
            decreases np - i,
        {
            let ghost before = incoming@.map_values(|e: Entity| e@);
            let mut e = info.players[i].clone();
            e.entity_type = EntityType::Player;
            e.stable_identity = crate::entity::fresh_identity();
            proof {
                assert(eq_mod_identity(e@, force_player(info@.players[i as int])));
                assert(e@.wf());
            }
            incoming.push(e);
            proof {
                assert(incoming@.map_values(|x: Entity| x@) =~= before.push(
                    incoming@[incoming@.len() - 1]@,
                ));
                assert(players_of_loaded(info@.players.subrange(0, i + 1)) =~= players_of_loaded(
                    info@.players.subrange(0, i as int),
                ).push(force_player(info@.players[i as int])));
            }
            i += 1;
        }
        proof {
            assert(info@.players.subrange(0, np as int) =~= info@.players);
        }
        let nm = info.monsters.len();
        let mut j: usize = 0;
        proof {
            assert(expand_monsters(info@.monsters.subrange(0, 0)) =~= Seq::<EntityV>::empty());
            assert(players_of_loaded(info@.players) + expand_monsters(
                info@.monsters.subrange(0, 0),
            ) =~= players_of_loaded(info@.players));
        }
        while j < nm
            invariant
                nm == info.monsters.len(),
                0 <= j <= nm,
                forall|k: int|
                    0 <= k < info@.monsters.len() ==> (#[trigger] info@.monsters[k]).stats.wf(),
                pointwise_mod_identity(
                    incoming@.map_values(|e: Entity| e@),
                    players_of_loaded(info@.players) + expand_monsters(
                        info@.monsters.subrange(0, j as int),
                    ),
                ),
                forall|k: int|
                    0 <= k < incoming@.len() ==> (#[trigger] incoming@[k])@.wf(),
            decreases nm - j,
        {
            let count: usize = match info.monsters[j].count {
                Option::Some(c) => c,
                Option::None => 1,
            };
            let ghost entry = info@.monsters[j as int];
            let ghost fm = force_monster(entry.stats);
            proof {
                assert(count as int == entry.count);
            }
            let mut c: usize = 0;
            proof {
                assert(repeat_entity(fm, 0) =~= Seq::<EntityV>::empty());
                assert(players_of_loaded(info@.players) + expand_monsters(
                    info@.monsters.subrange(0, j as int),
                ) + repeat_entity(fm, 0) =~= players_of_loaded(info@.players) + expand_monsters(
                    info@.monsters.subrange(0, j as int),
                ));
            }
            while c < count
                invariant
                    0 <= c <= count,
                    0 <= j < nm == info.monsters.len(),
                    count as int == info@.monsters[j as int].count,
                    entry == info@.monsters[j as int],
                    fm == force_monster(entry.stats),
                    forall|k: int|
                        0 <= k < info@.monsters.len() ==> (#[trigger] info@.monsters[k]).stats.wf(),
                    pointwise_mod_identity(
                        incoming@.map_values(|e: Entity| e@),
                        players_of_loaded(info@.players) + expand_monsters(
                            info@.monsters.subrange(0, j as int),
                        ) + repeat_entity(fm, c as int),
                    ),
                    forall|k: int|
                        0 <= k < incoming@.len() ==> (#[trigger] incoming@[k])@.wf(),
                decreases count - c,
            {
                let ghost before = incoming@.map_values(|e: Entity| e@);
                let mut e = info.monsters[j].stats.clone();
                e.entity_type = EntityType::Monster;
                if e.current_hp == 0 {
                    e.current_hp = e.max_hp;
                }
                e.stable_identity = crate::entity::fresh_identity();
                proof {
                    assert(eq_mod_identity(e@, fm));
                    assert(e@.wf());
                }
                incoming.push(e);
                proof {
                    assert(incoming@.map_values(|x: Entity| x@) =~= before.push(
                        incoming@[incoming@.len() - 1]@,
                    ));
                    assert(repeat_entity(fm, c + 1) =~= repeat_entity(fm, c as int).push(fm));
                    assert(players_of_loaded(info@.players) + expand_monsters(
                        info@.monsters.subrange(0, j as int),
                    ) + repeat_entity(fm, c + 1) =~= (players_of_loaded(info@.players)
                        + expand_monsters(info@.monsters.subrange(0, j as int)) + repeat_entity(
                        fm,
                        c as int,
                    )).push(fm));
                }
                c += 1;
            }
            proof {
                assert(info@.monsters.subrange(0, j + 1).drop_last() =~= info@.monsters.subrange(
                    0,
                    j as int,
                ));
                assert(info@.monsters.subrange(0, j + 1).last() == entry);
                assert(expand_monsters(info@.monsters.subrange(0, j + 1)) =~= expand_monsters(
                    info@.monsters.subrange(0, j as int),
                ) + repeat_entity(fm, count as int));
                assert(players_of_loaded(info@.players) + expand_monsters(
                    info@.monsters.subrange(0, j + 1),
                ) =~= players_of_loaded(info@.players) + expand_monsters(
                    info@.monsters.subrange(0, j as int),
                ) + repeat_entity(fm, count as int));
            }
            j += 1;
        }
        proof {
            assert(info@.monsters.subrange(0, nm as int) =~= info@.monsters);
            assert(pointwise_mod_identity(incoming@.map_values(|e: Entity| e@), target));
        }
        let ghost fv = incoming@.map_values(|e: Entity| e@);
        let ghost base0 = TrackerV {
            entities: Seq::<EntityV>::empty(),
            current_turn: 0,
            round: 0,
        };
        let mut t = CombatTracker::new();
        proof {
            assert(t@ =~= base0);
            assert(fv.subrange(0, 0) =~= Seq::<EntityV>::empty());
            assert(add_all(base0, fv.subrange(0, 0)) == base0);
        }
        let total = incoming.len();
        let mut k: usize = 0;
        while k < total
            invariant
                total == incoming@.len(),
                0 <= k <= total,
                fv == incoming@.map_values(|e: Entity| e@),
                fv.len() == total,
                fv.len() <= i32::MAX as int,
                forall|m: int| 0 <= m < incoming@.len() ==> (#[trigger] incoming@[m])@.wf(),
                base0 == (TrackerV {
                    entities: Seq::<EntityV>::empty(),
                    current_turn: 0,
                    round: 0,
                }),
                t@ == add_all(base0, fv.subrange(0, k as int)),
                t@.wf(),
            decreases total - k,
        {
            proof {
                assert(fv.subrange(0, k + 1).drop_last() =~= fv.subrange(0, k as int));
                assert(fv.subrange(0, k + 1).last() == fv[k as int]);
                lemma_add_all_len(base0, fv.subrange(0, k as int));
                assert(t@.entities.len() == fv.subrange(0, k as int).len());
                assert(incoming@[k as int]@ == fv[k as int]);
                assert(fv[k as int].wf());
            }
            let e = incoming[k].clone();
            t.add_entity(e);
            k += 1;
        }
        proof {
            assert(fv.subrange(0, total as int) =~= fv);
        }
        t.current_turn = info.current_turn;
        t.round = info.round;
        if t.current_turn >= t.entities.len() {
            t.current_turn = 0;
        }
        proof {
            let base = TrackerV {
                entities: Seq::<EntityV>::empty(),
                current_turn: info@.current_turn,
                round: info@.round,
            };
            lemma_add_all_counters(base0, base, fv);
            let u = add_all(base, fv);
            assert(t@ =~= (TrackerV {
                current_turn: if u.current_turn >= u.entities.len() {
                    0
                } else {
                    u.current_turn
                },
                ..u
            }));
            assert(pointwise_mod_identity(fv, load_entries(info@)));
        }
        t
    }
}

/// Each append grows the roster by exactly one entity.
proof fn lemma_add_all_len(t: TrackerV, s: Seq<EntityV>)
    ensures
        add_all(t, s).entities.len() == t.entities.len() + s.len(),
    decreases s.len(),
{
    if s.len() > 0 {
        lemma_add_all_len(t, s.drop_last());
    }
}

/// Appending entities neither reads nor writes the turn counters: two
/// starting states with the same (empty) roster give rosters that agree,
/// whatever their counters.
proof fn lemma_add_all_counters(a: TrackerV, b: TrackerV, s: Seq<EntityV>)
    requires
        a.entities == b.entities,
    ensures
        add_all(a, s).entities == add_all(b, s).entities,
        add_all(a, s).current_turn == a.current_turn,
        add_all(a, s).round == a.round,
        add_all(b, s).current_turn == b.current_turn,
        add_all(b, s).round == b.round,
    decreases s.len(),
{
    if s.len() > 0 {
        lemma_add_all_counters(a, b, s.drop_last());
    }
}

/// Elements produced by the kind split are elements of the roster.
proof fn lemma_split_elems(s: Seq<EntityV>, p: spec_fn(EntityV) -> bool)
    requires
        forall|i: int| 0 <= i < s.len() ==> p(#[trigger] s[i]),
    ensures
        forall|k: int| 0 <= k < players_of(s).len() ==> p(#[trigger] players_of(s)[k]),
        forall|k: int| 0 <= k < monsters_of(s).len() ==> p(#[trigger] monsters_of(s)[k]),
        forall|k: int| 0 <= k < players_of(s).len() ==> is_player(#[trigger] players_of(s)[k]),
        forall|k: int| 0 <= k < monsters_of(s).len() ==> !is_player(#[trigger] monsters_of(s)[k]),
    decreases s.len(),
{
    if s.len() > 0 {
        let pre = s.drop_last();
        lemma_split_elems(pre, p);
        assert(forall|i: int| 0 <= i < pre.len() ==> p(#[trigger] pre[i]));
        assert(p(s[s.len() - 1]));
        assert forall|k: int| 0 <= k < players_of(s).len() implies p(#[trigger] players_of(s)[k])
            && is_player(players_of(s)[k]) by {
            if k < players_of(pre).len() {
                assert(players_of(s)[k] == players_of(pre)[k]);
            } else {
                assert(players_of(s)[k] == s.last());
            }
        }
        assert forall|k: int| 0 <= k < monsters_of(s).len() implies p(#[trigger] monsters_of(s)[k])
            && !is_player(monsters_of(s)[k]) by {
            if k < monsters_of(pre).len() {
                assert(monsters_of(s)[k] == monsters_of(pre)[k]);
            } else {
                assert(monsters_of(s)[k] == s.last());
            }
        }
    }
}

/// Forcing the Player kind onto entities that already are Players changes
/// nothing.
proof fn lemma_players_unforced(ps: Seq<EntityV>)
    requires
        forall|k: int| 0 <= k < ps.len() ==> is_player(#[trigger] ps[k]),
    ensures
        players_of_loaded(ps) == ps,
{
    assert forall|k: int| 0 <= k < ps.len() implies players_of_loaded(ps)[k] == ps[k] by {
        assert(force_player(ps[k]) =~= ps[k]);
    }
    assert(players_of_loaded(ps) =~= ps);
}

/// Expanding count-1 entries over monsters that the forcing does not
/// change gives the monsters back.
proof fn lemma_expand_singletons(ms: Seq<EntityV>)
    requires
        forall|k: int| 0 <= k < ms.len() ==> force_monster(#[trigger] ms[k]) == ms[k],
    ensures
        expand_monsters(ms.map_values(|e: EntityV| MonsterEntryV { count: 1, stats: e })) == ms,
    decreases ms.len(),
{
    let entries = ms.map_values(|e: EntityV| MonsterEntryV { count: 1, stats: e });
    if ms.len() == 0 {
        assert(expand_monsters(entries) =~= ms);
    } else {
        let pre = ms.drop_last();
        lemma_expand_singletons(pre);
        let pre_entries = pre.map_values(|e: EntityV| MonsterEntryV { count: 1, stats: e });
        assert(entries.drop_last() =~= pre_entries);
        assert(entries.last() == (MonsterEntryV { count: 1, stats: ms.last() }));
        assert(repeat_entity(force_monster(ms.last()), 0) =~= Seq::<EntityV>::empty());
        assert(repeat_entity(force_monster(ms.last()), 1) =~= seq![ms.last()]);
        assert(expand_monsters(entries) =~= pre + seq![ms.last()]);
        assert(pre + seq![ms.last()] =~= ms);
    }
}

/// The appended entities pass their stats through unchanged: only ids are
/// renumbered by the duplicate-name assignment.
proof fn lemma_add_all_stats(t: TrackerV, s: Seq<EntityV>)
    ensures
        stats_seq(add_all(t, s).entities) == stats_seq(t.entities) + stats_seq(s),
    decreases s.len(),
{
    if s.len() == 0 {
        assert(stats_seq(s) =~= Seq::<EntityStats>::empty());
        assert(stats_seq(add_all(t, s).entities) =~= stats_seq(t.entities) + stats_seq(s));
    } else {
        let pre = s.drop_last();
        let e = s.last();
        lemma_add_all_stats(t, pre);
        let u = add_all(t, pre);
        let v = spec_add_entity(u, e);
        let count = crate::tracker::count_with_name(u.entities, e.name);
        assert forall|k: int| 0 <= k < v.entities.len() implies stats_seq(v.entities)[k] == (
        stats_seq(u.entities) + stats_seq(seq![e]))[k] by {
            if k < u.entities.len() {
                if count > 0 {
                    assert(v.entities[k] == crate::tracker::promote_dup(u.entities[k], e.name));
                    assert(stats_of(v.entities[k]) =~= stats_of(u.entities[k]));
                } else {
                    assert(v.entities[k] == u.entities[k]);
                }
            } else {
                if count > 0 {
                    assert(v.entities[k] == (EntityV { id: count + 1, ..e }));
                    assert(stats_of(v.entities[k]) =~= stats_of(e));
                } else {
                    assert(v.entities[k] == e);
                }
            }
        }
        assert(stats_seq(v.entities) =~= stats_seq(u.entities) + stats_seq(seq![e]));
        assert(stats_seq(pre) + stats_seq(seq![e]) =~= stats_seq(s));
        assert(stats_seq(v.entities) =~= stats_seq(t.entities) + stats_seq(s));
    }
}

/// Splitting a roster by kind keeps the multiset of entity stats.
proof fn lemma_split_stats_multiset(s: Seq<EntityV>)
    ensures
        stats_seq(players_of(s) + monsters_of(s)).to_multiset() == stats_seq(s).to_multiset(),
        players_of(s).len() + monsters_of(s).len() == s.len(),
    decreases s.len(),
{
    broadcast use vstd::seq_lib::group_to_multiset_ensures;
    broadcast use vstd::seq_lib::lemma_multiset_commutative;

    if s.len() == 0 {
        assert(stats_seq(players_of(s) + monsters_of(s)) =~= stats_seq(s));
    } else {
        let pre = s.drop_last();
        let e = s.last();
        lemma_split_stats_multiset(pre);
        let p0 = players_of(pre);
        let m0 = monsters_of(pre);
        if is_player(e) {
            assert(players_of(s) =~= p0.push(e));
            assert(monsters_of(s) =~= m0);
            assert(stats_seq(players_of(s) + monsters_of(s)) =~= stats_seq(p0) + seq![
                stats_of(e),
            ] + stats_seq(m0));
            assert(stats_seq(p0 + m0) =~= stats_seq(p0) + stats_seq(m0));
            assert((stats_seq(p0) + seq![stats_of(e)] + stats_seq(m0)).to_multiset()
                =~= stats_seq(p0).to_multiset().add(
                seq![stats_of(e)].to_multiset().add(stats_seq(m0).to_multiset()),
            ));
            assert(stats_seq(p0 + m0).to_multiset() =~= stats_seq(p0).to_multiset().add(
                stats_seq(m0).to_multiset(),
            ));
            assert(stats_seq(s) =~= stats_seq(pre).push(stats_of(e)));
            assert(stats_seq(pre).push(stats_of(e)).to_multiset() =~= stats_seq(
                pre,
            ).to_multiset().insert(stats_of(e)));
            assert(seq![stats_of(e)].to_multiset() =~= Multiset::<EntityStats>::empty().insert(
                stats_of(e),
            ));
            assert(stats_seq(players_of(s) + monsters_of(s)).to_multiset() =~= stats_seq(
                s,
            ).to_multiset());
        } else {
            assert(players_of(s) =~= p0);
            assert(monsters_of(s) =~= m0.push(e));
            assert(stats_seq(players_of(s) + monsters_of(s)) =~= stats_seq(p0) + (stats_seq(
                m0,
            ).push(stats_of(e))));
            assert(stats_seq(p0 + m0) =~= stats_seq(p0) + stats_seq(m0));
            assert((stats_seq(p0) + (stats_seq(m0).push(stats_of(e)))).to_multiset()
                =~= stats_seq(p0).to_multiset().add(
                stats_seq(m0).push(stats_of(e)).to_multiset(),
            ));
            assert(stats_seq(m0).push(stats_of(e)).to_multiset() =~= stats_seq(
                m0,
            ).to_multiset().insert(stats_of(e)));
            assert(stats_seq(p0 + m0).to_multiset() =~= stats_seq(p0).to_multiset().add(
                stats_seq(m0).to_multiset(),
            ));
            assert(stats_seq(s) =~= stats_seq(pre).push(stats_of(e)));
            assert(stats_seq(pre).push(stats_of(e)).to_multiset() =~= stats_seq(
                pre,
            ).to_multiset().insert(stats_of(e)));
            assert(stats_seq(players_of(s) + monsters_of(s)).to_multiset() =~= stats_seq(
                s,
            ).to_multiset());
        }
    }
}

/// The durable round trip: saving a tracker and hydrating the saved form
/// reproduces the round, the acting index, and the multiset of entity
/// stats — everything but the renumbered ids and the fresh stable
/// identities.  NPCs are written to the monster list and come back as
/// Monsters, and a monster at 0 hit points comes back at its maximum, so
/// those rosters are left out.
pub proof fn lemma_durable_round_trip(t: TrackerV)
    requires
        t.wf(),
        forall|i: int| 0 <= i < t.entities.len() ==> !((#[trigger] t.entities[i]).entity_type is Npc),
        forall|i: int|
            0 <= i < t.entities.len() ==> ((#[trigger] t.entities[i]).entity_type is Monster
                ==> t.entities[i].current_hp != 0),
    ensures
        spec_load(spec_save(t)).round == t.round,
        spec_load(spec_save(t)).current_turn == t.current_turn,
        stats_seq(spec_load(spec_save(t)).entities).to_multiset() == stats_seq(
            t.entities,
        ).to_multiset(),
{
    broadcast use vstd::seq_lib::group_to_multiset_ensures;
    broadcast use vstd::seq_lib::lemma_multiset_commutative;

    let info = spec_save(t);
    let s = t.entities;
    lemma_split_elems(
        s,
        |e: EntityV|
            !(e.entity_type is Npc) && (e.entity_type is Monster ==> e.current_hp != 0),
    );
    lemma_players_unforced(players_of(s));
    assert forall|k: int| 0 <= k < monsters_of(s).len() implies force_monster(
        #[trigger] monsters_of(s)[k],
    ) == monsters_of(s)[k] by {
        let e = monsters_of(s)[k];
        assert(!is_player(e) && !(e.entity_type is Npc));
        assert(e.entity_type is Monster);
        assert(e.current_hp != 0);
        assert(force_monster(e) =~= e);
    }
    lemma_expand_singletons(monsters_of(s));
    assert(info.monsters == monsters_of(s).map_values(
        |e: EntityV| MonsterEntryV { count: 1, stats: e },
    ));
    assert(load_entries(info) == players_of(s) + expand_monsters(info.monsters));
    assert(load_entries(info) == players_of(s) + monsters_of(s));
    let base = TrackerV {
        entities: Seq::<EntityV>::empty(),
        current_turn: info.current_turn,
        round: info.round,
    };
    let u = add_all(base, load_entries(info));
    lemma_add_all_stats(base, load_entries(info));
    assert(stats_seq(base.entities) =~= Seq::<EntityStats>::empty());
    assert(stats_seq(u.entities) =~= stats_seq(players_of(s) + monsters_of(s)));
    lemma_split_stats_multiset(s);
    lemma_add_all_counters(base, base, load_entries(info));
    lemma_add_all_len(base, load_entries(info));
    assert(u.entities.len() == s.len());
    assert(u.current_turn == t.current_turn && u.round == t.round);
    if s.len() == 0 {
        assert(spec_load(info).current_turn == 0);
    } else {
        assert(t.current_turn < s.len());
        assert(spec_load(info).current_turn == t.current_turn);
    }
}

} // verus!
