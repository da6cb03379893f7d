//! World snapshot — frozen world state at a point in the narrative:
//! `Snapshot = fold(genesis, effects_up_to_position)`.
//! The same genesis and effects always produce the same snapshot.
use vstd::prelude::*;

use crate::entity::{Character, Entity, EntityV, CharacterV, duplicate_entities, entity_views};
use crate::goal::{GoalEntity, GoalEntityV, duplicate_goals, goal_entity_views};
use crate::history::{
    History, before_spec, chapters_spec, entry_views, previous_chapter, replay_entities_spec,
    replay_goals_spec, replay_secrets_spec, up_to_spec,
};
use crate::secret::{Secret, SecretV, secret_views};
use crate::text::{Chars, clone_opt, owned, str_eq};

verus! {

broadcast use vstd::seq_lib::group_seq_properties;

/// A frozen world state at a point in the narrative.
#[derive(Debug)]
pub struct Snapshot {
    /// Position in the narrative (content id or chapter name).
    pub position: String,
    pub entities: Vec<Entity>,
    pub secrets: Vec<Secret>,
    pub goal_entities: Vec<GoalEntity>,
}

pub ghost struct SnapshotV {
    pub position: Chars,
    pub entities: Seq<EntityV>,
    pub secrets: Seq<SecretV>,
    pub goal_entities: Seq<GoalEntityV>,
}

impl View for Snapshot {
    type V = SnapshotV;

    open spec fn view(&self) -> SnapshotV {
        SnapshotV {
            position: self.position@,
            entities: entity_views(self.entities@),
            secrets: secret_views(self.secrets@),
            goal_entities: goal_entity_views(self.goal_entities@),
        }
    }
}

// ── Goal entities ────────────────────────────────────────────────

/// The goal entity of a character.
pub open spec fn goal_entity_of(c: CharacterV) -> GoalEntityV {
    GoalEntityV { entity_type: "character"@, id: c.id, name: c.name, goals: c.goals }
}

/// The goal entities of the characters that have goals, in order.
pub open spec fn extracted_goals(es: Seq<EntityV>) -> Seq<GoalEntityV>
    decreases es.len(),
{
    if es.len() == 0 {
        Seq::empty()
    } else {
        let prev = extracted_goals(es.drop_last());
        match es.last() {
            EntityV::Character(c) => if c.goals.len() > 0 {
                prev.push(goal_entity_of(c))
            } else {
                prev
            },
            _ => prev,
        }
    }
}

pub open spec fn has_goal_id(gs: Seq<GoalEntityV>, id: Chars) -> bool {
    exists|i: int| 0 <= i < gs.len() && #[trigger] gs[i].id == id
}

/// `gs` followed by each goal entity of `extra` whose id is not yet present.
pub open spec fn merged_goals(gs: Seq<GoalEntityV>, extra: Seq<GoalEntityV>) -> Seq<GoalEntityV>
    decreases extra.len(),
{
    if extra.len() == 0 {
        gs
    } else {
        let prev = merged_goals(gs, extra.drop_last());
        if has_goal_id(prev, extra.last().id) {
            prev
        } else {
            prev.push(extra.last())
        }
    }
}

fn goal_entity_from(c: &Character) -> (r: GoalEntity)
    ensures
        r@ == goal_entity_of(c@),
{
    GoalEntity {
        entity_type: owned("character"),
        id: c.id.clone(),
        name: clone_opt(&c.name),
        goals: duplicate_goals(&c.goals),
    }
}

/// Goal trees carried by the characters (those with at least one goal).
pub fn extract_goal_entities(entities: &Vec<Entity>) -> (r: Vec<GoalEntity>)
    ensures
        goal_entity_views(r@) == extracted_goals(entity_views(entities@)),
{
    let ghost ev = entity_views(entities@);
    let mut r: Vec<GoalEntity> = Vec::new();
    let mut i: usize = 0;
    while i < entities.len()
        invariant
            i <= entities@.len(),
            ev == entity_views(entities@),
            goal_entity_views(r@) == extracted_goals(ev.take(i as int)),
        decreases entities@.len() - i,
    {
        assert(ev.take(i + 1).drop_last() == ev.take(i as int));
        assert(ev.take(i + 1).last() == entities@[i as int]@);
        match &entities[i] {
            Entity::Character(c) => {
                if c.goals.len() > 0 {
                    let ghost prev = r@;
                    let g = goal_entity_from(c);
                    r.push(g);
                    assert(goal_entity_views(r@) =~= goal_entity_views(prev).push(g@));
                }
            },
            _ => {},
        }
        i += 1;
    }
    assert(ev.take(entities@.len() as int) == ev);
    r
}

fn has_goal(goals: &Vec<GoalEntity>, id: &str) -> (r: bool)
    ensures
        r == has_goal_id(goal_entity_views(goals@), id@),
{
    let ghost gv = goal_entity_views(goals@);
    let mut i: usize = 0;
    while i < goals.len()
        invariant
            i <= goals@.len(),
            gv == goal_entity_views(goals@),
            forall|j: int| 0 <= j < i ==> gv[j].id != id@,
        decreases goals@.len() - i,
    {
        if str_eq(goals[i].id.as_str(), id) {
            assert(gv[i as int].id == id@);
            return true;
        }
        i += 1;
    }
    false
}

/// Appends each goal entity of `extra` whose id is not yet present.
pub fn merge_goals(goals: &mut Vec<GoalEntity>, extra: &Vec<GoalEntity>)
    ensures
        goal_entity_views(final(goals)@) == merged_goals(
            goal_entity_views(old(goals)@),
            goal_entity_views(extra@),
        ),
{
    let ghost g0 = goal_entity_views(goals@);
    let ghost xv = goal_entity_views(extra@);
    let mut i: usize = 0;
    while i < extra.len()
        invariant
            i <= extra@.len(),
            xv == goal_entity_views(extra@),
            goal_entity_views(goals@) == merged_goals(g0, xv.take(i as int)),
        decreases extra@.len() - i,
    {
        assert(xv.take(i + 1).drop_last() == xv.take(i as int));
        assert(xv.take(i + 1).last() == extra@[i as int]@);
        if !has_goal(goals, extra[i].id.as_str()) {
            let ghost prev = goals@;
            let g = extra[i].duplicate();
            goals.push(g);
            assert(goal_entity_views(goals@) =~= goal_entity_views(prev).push(g@));
        }
        i += 1;
    }
    assert(xv.take(extra@.len() as int) == xv);
}

// ── Construction ─────────────────────────────────────────────────

/// The snapshot at the end of `chapter`: every effect up to and including
/// that chapter is applied to entities, secrets and goals.
pub open spec fn build_spec(
    chapter: Chars,
    es: Seq<EntityV>,
    ss: Seq<SecretV>,
    yaml: Seq<GoalEntityV>,
    log: Seq<crate::history::HistoryEntryV>,
) -> SnapshotV {
    let sel = up_to_spec(chapters_spec(log), Some(chapter));
    let ents = replay_entities_spec(es, log, sel);
    SnapshotV {
        position: chapter,
        entities: ents,
        secrets: replay_secrets_spec(ss, log, sel),
        goal_entities: replay_goals_spec(merged_goals(extracted_goals(ents), yaml), log, sel),
    }
}

/// The snapshot before `chapter`: entity effects of the earlier chapters;
/// secrets and goals replayed up to the previous chapter, when there is one.
pub open spec fn build_before_spec(
    chapter: Chars,
    es: Seq<EntityV>,
    ss: Seq<SecretV>,
    yaml: Seq<GoalEntityV>,
    log: Seq<crate::history::HistoryEntryV>,
) -> SnapshotV {
    let chs = chapters_spec(log);
    let ents = replay_entities_spec(es, log, before_spec(chs, chapter));
    let goals = merged_goals(extracted_goals(ents), yaml);
    match previous_chapter(chs, chapter) {
        Some(p) => {
            let sel = up_to_spec(chs, Some(p));
            SnapshotV {
                position: chapter,
                entities: ents,
                secrets: replay_secrets_spec(ss, log, sel),
                goal_entities: replay_goals_spec(goals, log, sel),
            }
        },
        None => SnapshotV { position: chapter, entities: ents, secrets: ss, goal_entities: goals },
    }
}

/// The snapshot before a chapter is the snapshot at the end of the chapter
/// listed before it (but for its position); with no earlier chapter it is
/// the genesis state, no effect replayed.
pub proof fn lemma_build_before_is_build_previous(
    chapter: Chars,
    es: Seq<EntityV>,
    ss: Seq<SecretV>,
    yaml: Seq<GoalEntityV>,
    log: Seq<crate::history::HistoryEntryV>,
)
    ensures
        match previous_chapter(chapters_spec(log), chapter) {
            Some(p) => build_before_spec(chapter, es, ss, yaml, log) == (SnapshotV {
                position: chapter,
                ..build_spec(p, es, ss, yaml, log)
            }),
            None => build_before_spec(chapter, es, ss, yaml, log) == (SnapshotV {
                position: chapter,
                entities: es,
                secrets: ss,
                goal_entities: merged_goals(extracted_goals(es), yaml),
            }),
        },
{
    crate::history::lemma_replay_before_is_up_to_previous(es, log, chapter);
}

pub open spec fn is_char(e: EntityV) -> bool {
    e is Character
}

pub open spec fn is_loc(e: EntityV) -> bool {
    e is Location
}

pub open spec fn is_fac(e: EntityV) -> bool {
    e is Faction
}

pub open spec fn char_pred() -> spec_fn(EntityV) -> bool {
    |e: EntityV| is_char(e)
}

pub open spec fn loc_pred() -> spec_fn(EntityV) -> bool {
    |e: EntityV| is_loc(e)
}

pub open spec fn fac_pred() -> spec_fn(EntityV) -> bool {
    |e: EntityV| is_fac(e)
}

pub open spec fn entity_ref_views(es: Seq<&Entity>) -> Seq<EntityV> {
    es.map_values(|e: &Entity| e@)
}

impl Snapshot {
    /// The world state at the end of a chapter, from the loaded genesis
    /// entities and secrets, the goal entities loaded from YAML, and the log.
    pub fn build(
        chapter: &str,
        entities: Vec<Entity>,
        secrets: Vec<Secret>,
        yaml_goals: &Vec<GoalEntity>,
        history: &History,
    ) -> (r: Snapshot)
        ensures
            r@ == build_spec(
                chapter@,
                entity_views(entities@),
                secret_views(secrets@),
                goal_entity_views(yaml_goals@),
                entry_views(history.entries@),
            ),
    {
        let mut entities = entities;
        let mut secrets = secrets;
        History::replay_entities(&mut entities, history, Some(chapter));
        History::replay_secrets(&mut secrets, history, Some(chapter));
        let mut goals = extract_goal_entities(&entities);
        merge_goals(&mut goals, yaml_goals);
        History::replay_goals(&mut goals, history, Some(chapter));
        Snapshot { position: owned(chapter), entities, secrets, goal_entities: goals }
    }

    /// The world state before a chapter (see `build_before_spec`).
    pub fn build_before(
        chapter: &str,
        entities: Vec<Entity>,
        secrets: Vec<Secret>,
        yaml_goals: &Vec<GoalEntity>,
        history: &History,
    ) -> (r: Snapshot)
        ensures
            r@ == build_before_spec(
                chapter@,
                entity_views(entities@),
                secret_views(secrets@),
                goal_entity_views(yaml_goals@),
                entry_views(history.entries@),
            ),
    {
        let mut entities = entities;
        let mut secrets = secrets;
        History::replay_before(&mut entities, history, chapter);
        let mut goals = extract_goal_entities(&entities);
        merge_goals(&mut goals, yaml_goals);
        let chapters = history.chapters();
        let before = crate::history::select_before(&chapters, chapter);
        if before.len() > 0 {
            let prev = &before[before.len() - 1];
            History::replay_secrets(&mut secrets, history, Some(prev.as_str()));
            History::replay_goals(&mut goals, history, Some(prev.as_str()));
        }
        Snapshot { position: owned(chapter), entities, secrets, goal_entities: goals }
    }

    /// Build from pre-loaded data.
    pub fn from_parts(
        position: &str,
        entities: Vec<Entity>,
        secrets: Vec<Secret>,
        goal_entities: Vec<GoalEntity>,
    ) -> (r: Snapshot)
        ensures
            r@ == (SnapshotV {
                position: position@,
                entities: entity_views(entities@),
                secrets: secret_views(secrets@),
                goal_entities: goal_entity_views(goal_entities@),
            }),
    {
        Snapshot { position: owned(position), entities, secrets, goal_entities }
    }

    /// Find an entity by id: the first one with that id.
    pub fn entity(&self, id: &str) -> (r: Option<&Entity>)
        ensures
            match r {
                Some(e) => exists|i: int|
                    0 <= i < self@.entities.len() && self@.entities[i] == e@ && e@.id() == id@
                        && forall|j: int| 0 <= j < i ==> #[trigger] self@.entities[j].id() != id@,
                None => forall|i: int| 0 <= i < self@.entities.len() ==> #[trigger] self@.entities[i].id() != id@,
            },
    {
        let mut i: usize = 0;
        while i < self.entities.len()
            invariant
                i <= self.entities@.len(),
                forall|j: int| 0 <= j < i ==> #[trigger] self@.entities[j].id() != id@,
            decreases self.entities@.len() - i,
        {
            if str_eq(self.entities[i].id(), id) {
                assert(self@.entities[i as int] == self.entities@[i as int]@);
                return Some(&self.entities[i]);
            }
            i += 1;
        }
        None
    }

    /// Find a secret by id: the first one with that id.
    pub fn secret(&self, id: &str) -> (r: Option<&Secret>)
        ensures
            match r {
                Some(s) => exists|i: int|
                    0 <= i < self@.secrets.len() && self@.secrets[i] == s@ && s@.id == id@
                        && forall|j: int| 0 <= j < i ==> #[trigger] self@.secrets[j].id != id@,
                None => forall|i: int| 0 <= i < self@.secrets.len() ==> #[trigger] self@.secrets[i].id != id@,
            },
    {
        let mut i: usize = 0;
        while i < self.secrets.len()
            invariant
                i <= self.secrets@.len(),
                forall|j: int| 0 <= j < i ==> #[trigger] self@.secrets[j].id != id@,
            decreases self.secrets@.len() - i,
        {
            if str_eq(self.secrets[i].id.as_str(), id) {
                assert(self@.secrets[i as int] == self.secrets@[i as int]@);
                return Some(&self.secrets[i]);
            }
            i += 1;
        }
        None
    }

    /// All characters in the snapshot.
    pub fn characters(&self) -> (r: Vec<&Entity>)
        ensures
            entity_ref_views(r@) == self@.entities.filter(char_pred()),
    {
        assert(kind_pred(0) =~= char_pred());
        self.kind_filter(0)
    }

    /// All locations in the snapshot.
    pub fn locations(&self) -> (r: Vec<&Entity>)
        ensures
            entity_ref_views(r@) == self@.entities.filter(loc_pred()),
    {
        assert(kind_pred(1) =~= loc_pred());
        self.kind_filter(1)
    }

    /// All factions in the snapshot.
    pub fn factions(&self) -> (r: Vec<&Entity>)
        ensures
            entity_ref_views(r@) == self@.entities.filter(fac_pred()),
    {
        assert(kind_pred(2) =~= fac_pred());
        self.kind_filter(2)
    }

    fn kind_filter(&self, kind: u8) -> (r: Vec<&Entity>)
        requires
            kind < 3,
        ensures
            entity_ref_views(r@) == self@.entities.filter(kind_pred(kind)),
    {
        let ghost ev = self@.entities;
        let mut r: Vec<&Entity> = Vec::new();
        let mut i: usize = 0;
        while i < self.entities.len()
            invariant
                i <= self.entities@.len(),
                ev == self@.entities,
                entity_ref_views(r@) == ev.take(i as int).filter(kind_pred(kind)),
            decreases self.entities@.len() - i,
        {
            assert(ev.take(i + 1) == ev.take(i as int).push(ev[i as int]));
            proof { ev.take(i as int).lemma_filter_push(ev[i as int], kind_pred(kind)); }
            let e = &self.entities[i];
            let keep = if kind == 0 {
                e.is_character()
            } else if kind == 1 {
                e.is_location()
            } else {
                e.is_faction()
            };
            if keep {
                let ghost prev = r@;
                r.push(e);
                assert(entity_ref_views(r@) =~= entity_ref_views(prev).push(ev[i as int]));
            }
            i += 1;
        }
        assert(ev.take(ev.len() as int) == ev);
        r
    }
}

pub open spec fn kind_pred(kind: u8) -> spec_fn(EntityV) -> bool {
    |e: EntityV|
        if kind == 0 {
            is_char(e)
        } else if kind == 1 {
            is_loc(e)
        } else {
            is_fac(e)
        }
}

/// A copy of the snapshot.
pub fn duplicate_snapshot(s: &Snapshot) -> (r: Snapshot)
    ensures
        r@ == s@,
{
    let mut secrets: Vec<Secret> = Vec::new();
    let mut i: usize = 0;
    while i < s.secrets.len()
        invariant
            i <= s.secrets@.len(),
            secret_views(secrets@) == secret_views(s.secrets@.take(i as int)),
        decreases s.secrets@.len() - i,
    {
        let ghost prev = secrets@;
        secrets.push(s.secrets[i].duplicate());
        assert(s.secrets@.take(i + 1) == s.secrets@.take(i as int).push(s.secrets@[i as int]));
        assert(secret_views(secrets@) =~= secret_views(prev).push(s.secrets@[i as int]@));
        assert(secret_views(s.secrets@.take(i + 1)) =~= secret_views(s.secrets@.take(i as int)).push(
            s.secrets@[i as int]@,
        ));
        i += 1;
    }
    assert(s.secrets@.take(s.secrets@.len() as int) == s.secrets@);
    let mut goals: Vec<GoalEntity> = Vec::new();
    let mut k: usize = 0;
    while k < s.goal_entities.len()
        invariant
            k <= s.goal_entities@.len(),
            goal_entity_views(goals@) == goal_entity_views(s.goal_entities@.take(k as int)),
        decreases s.goal_entities@.len() - k,
    {
        let ghost prev = goals@;
        goals.push(s.goal_entities[k].duplicate());
        assert(s.goal_entities@.take(k + 1) == s.goal_entities@.take(k as int).push(
            s.goal_entities@[k as int],
        ));
        assert(goal_entity_views(goals@) =~= goal_entity_views(prev).push(s.goal_entities@[k as int]@));
        assert(goal_entity_views(s.goal_entities@.take(k + 1)) =~= goal_entity_views(
            s.goal_entities@.take(k as int),
        ).push(s.goal_entities@[k as int]@));
        k += 1;
    }
    assert(s.goal_entities@.take(s.goal_entities@.len() as int) == s.goal_entities@);
    Snapshot {
        position: s.position.clone(),
        entities: duplicate_entities(&s.entities),
        secrets,
        goal_entities: goals,
    }
}

} // verus!
