//! Checking a snapshot against the dramatic intents of a chapter.
//!
//! The director asks whether the current world state can support what it
//! plans; when it cannot, the verdict lists each unmet intent with a reason.
use vstd::prelude::*;
use vstd::string::StrSliceExecFns;

use crate::entity::{Entity, EntityV};
use crate::goal::{Goal, GoalEntityV, GoalStatus, GoalV, goal_views, lemma_children_view};
use crate::intent::{DramaticIntent, DramaticIntentV, join_with, push_joined, summary_spec};
use crate::reasoning::{ReasoningResult, rows_of};
use crate::secret::{Secret, SecretV};
use crate::snapshot::{Snapshot, SnapshotV};
use crate::text::{Chars, chars_of, contains_str, dec, find, find_in, push_dec, push_str, str_eq, views};

verus! {

broadcast use vstd::seq_lib::group_seq_properties;

// ── Lookups ──────────────────────────────────────────────────────

/// The first entity at or after `i` with the given id.
pub open spec fn first_entity(es: Seq<EntityV>, id: Chars, i: int) -> Option<EntityV>
    decreases es.len() - i,
{
    if i < 0 || i >= es.len() {
        None
    } else if es[i].id() == id {
        Some(es[i])
    } else {
        first_entity(es, id, i + 1)
    }
}

/// The first secret at or after `i` with the given id.
pub open spec fn first_secret(ss: Seq<SecretV>, id: Chars, i: int) -> Option<SecretV>
    decreases ss.len() - i,
{
    if i < 0 || i >= ss.len() {
        None
    } else if ss[i].id == id {
        Some(ss[i])
    } else {
        first_secret(ss, id, i + 1)
    }
}

proof fn lemma_first_entity_at(es: Seq<EntityV>, id: Chars, k: int, i: int)
    requires
        0 <= k <= i < es.len(),
        es[i].id() == id,
        forall|j: int| k <= j < i ==> #[trigger] es[j].id() != id,
    ensures
        first_entity(es, id, k) == Some(es[i]),
    decreases i - k,
{
    if k < i {
        lemma_first_entity_at(es, id, k + 1, i);
    }
}

proof fn lemma_first_entity_none(es: Seq<EntityV>, id: Chars, k: int)
    requires
        0 <= k <= es.len(),
        forall|j: int| k <= j < es.len() ==> #[trigger] es[j].id() != id,
    ensures
        first_entity(es, id, k) is None,
    decreases es.len() - k,
{
    if k < es.len() {
        lemma_first_entity_none(es, id, k + 1);
    }
}

proof fn lemma_first_secret_at(ss: Seq<SecretV>, id: Chars, k: int, i: int)
    requires
        0 <= k <= i < ss.len(),
        ss[i].id == id,
        forall|j: int| k <= j < i ==> #[trigger] ss[j].id != id,
    ensures
        first_secret(ss, id, k) == Some(ss[i]),
    decreases i - k,
{
    if k < i {
        lemma_first_secret_at(ss, id, k + 1, i);
    }
}

proof fn lemma_first_secret_none(ss: Seq<SecretV>, id: Chars, k: int)
    requires
        0 <= k <= ss.len(),
        forall|j: int| k <= j < ss.len() ==> #[trigger] ss[j].id != id,
    ensures
        first_secret(ss, id, k) is None,
    decreases ss.len() - k,
{
    if k < ss.len() {
        lemma_first_secret_none(ss, id, k + 1);
    }
}

fn find_entity<'a>(s: &'a Snapshot, id: &str) -> (r: Option<&'a Entity>)
    ensures
        match r {
            Some(e) => first_entity(s@.entities, id@, 0) == Some(e@),
            None => first_entity(s@.entities, id@, 0) is None,
        },
{
    let r = s.entity(id);
    proof {
        match r {
            Some(e) => {
                let i = choose|i: int|
                    0 <= i < s@.entities.len() && s@.entities[i] == e@ && e@.id() == id@ && forall|j: int|
                        0 <= j < i ==> #[trigger] s@.entities[j].id() != id@;
                lemma_first_entity_at(s@.entities, id@, 0, i);
            },
            None => {
                lemma_first_entity_none(s@.entities, id@, 0);
            },
        }
    }
    r
}

fn find_secret<'a>(s: &'a Snapshot, id: &str) -> (r: Option<&'a Secret>)
    ensures
        match r {
            Some(x) => first_secret(s@.secrets, id@, 0) == Some(x@),
            None => first_secret(s@.secrets, id@, 0) is None,
        },
{
    let r = s.secret(id);
    proof {
        match r {
            Some(x) => {
                let i = choose|i: int|
                    0 <= i < s@.secrets.len() && s@.secrets[i] == x@ && x@.id == id@ && forall|j: int|
                        0 <= j < i ==> #[trigger] s@.secrets[j].id != id@;
                lemma_first_secret_at(s@.secrets, id@, 0, i);
            },
            None => {
                lemma_first_secret_none(s@.secrets, id@, 0);
            },
        }
    }
    r
}

/// Whether no entity of the snapshot has the id.
pub open spec fn missing(s: SnapshotV, id: Chars) -> bool {
    first_entity(s.entities, id, 0) is None
}

/// Where an entity stands, or `?` when it has no known location.
pub open spec fn location_label(s: SnapshotV, id: Chars) -> Chars {
    match first_entity(s.entities, id, 0) {
        Some(EntityV::Character(c)) => match c.location {
            Some(l) => l,
            None => "?"@,
        },
        _ => "?"@,
    }
}

// ── Goal lookup ──────────────────────────────────────────────────

/// Whether some goal of the forest, at any depth, has the id.
pub open spec fn forest_has(gs: Seq<GoalV>, id: Chars) -> bool
    decreases gs,
{
    if gs.len() == 0 {
        false
    } else {
        forest_has(gs.drop_last(), id) || gs.last().id == id || forest_has(gs.last().children, id)
    }
}

/// Whether some goal `id` in the forest is active.
pub open spec fn forest_has_active(gs: Seq<GoalV>, id: Chars) -> bool
    decreases gs,
{
    if gs.len() == 0 {
        false
    } else {
        forest_has_active(gs.drop_last(), id) || (gs.last().id == id && gs.last().status == GoalStatus::Active)
            || forest_has_active(gs.last().children, id)
    }
}

/// Whether the character `owner` has an active goal `goal_id` in its tree.
pub open spec fn goal_active(ges: Seq<GoalEntityV>, owner: Chars, goal_id: Chars) -> bool {
    exists|i: int| 0 <= i < ges.len() && #[trigger] ges[i].id == owner && forest_has_active(ges[i].goals, goal_id)
}

/// Whether the character `owner` has a goal `goal_id` in its tree.
pub open spec fn goal_found(ges: Seq<GoalEntityV>, owner: Chars, goal_id: Chars) -> bool {
    exists|i: int| 0 <= i < ges.len() && #[trigger] ges[i].id == owner && forest_has(ges[i].goals, goal_id)
}

fn forest_contains(goals: &Vec<Goal>, id: &str) -> (r: bool)
    ensures
        r == forest_has(goal_views(goals@), id@),
    decreases goals@,
{
    let ghost gv = goal_views(goals@);
    let mut found = false;
    let mut i: usize = 0;
    while i < goals.len()
        invariant
            i <= goals@.len(),
            gv == goal_views(goals@),
            found == forest_has(gv.take(i as int), id@),
        decreases goals@.len() - i,
    {
        let g = &goals[i];
        proof {
            lemma_children_view(*g);
            assert(gv.take(i + 1).drop_last() == gv.take(i as int));
            assert(gv.take(i + 1).last() == g@);
        }
        let here = str_eq(g.id.as_str(), id);
        let below = forest_contains(&g.children, id);
        found = found || here || below;
        i += 1;
    }
    assert(gv.take(goals@.len() as int) == gv);
    found
}

fn forest_contains_active(goals: &Vec<Goal>, id: &str) -> (r: bool)
    ensures
        r == forest_has_active(goal_views(goals@), id@),
    decreases goals@,
{
    let ghost gv = goal_views(goals@);
    let mut found = false;
    let mut i: usize = 0;
    while i < goals.len()
        invariant
            i <= goals@.len(),
            gv == goal_views(goals@),
            found == forest_has_active(gv.take(i as int), id@),
        decreases goals@.len() - i,
    {
        let g = &goals[i];
        proof {
            lemma_children_view(*g);
            assert(gv.take(i + 1).drop_last() == gv.take(i as int));
            assert(gv.take(i + 1).last() == g@);
        }
        let here = str_eq(g.id.as_str(), id) && matches!(g.status, GoalStatus::Active);
        let below = forest_contains_active(&g.children, id);
        found = found || here || below;
        i += 1;
    }
    assert(gv.take(goals@.len() as int) == gv);
    found
}

fn goal_is_active(s: &Snapshot, owner: &str, goal_id: &str) -> (r: bool)
    ensures
        r == goal_active(s@.goal_entities, owner@, goal_id@),
{
    let ghost ges = s@.goal_entities;
    let mut i: usize = 0;
    while i < s.goal_entities.len()
        invariant
            i <= s.goal_entities@.len(),
            ges == s@.goal_entities,
            forall|j: int|
                0 <= j < i ==> !(#[trigger] ges[j].id == owner@ && forest_has_active(ges[j].goals, goal_id@)),
        decreases s.goal_entities@.len() - i,
    {
        let ge = &s.goal_entities[i];
        assert(ges[i as int] == ge@);
        if str_eq(ge.id.as_str(), owner) && forest_contains_active(&ge.goals, goal_id) {
            assert(ges[i as int].id == owner@ && forest_has_active(ges[i as int].goals, goal_id@));
            return true;
        }
        i += 1;
    }
    false
}

fn goal_exists(s: &Snapshot, owner: &str, goal_id: &str) -> (r: bool)
    ensures
        r == goal_found(s@.goal_entities, owner@, goal_id@),
{
    let ghost ges = s@.goal_entities;
    let mut i: usize = 0;
    while i < s.goal_entities.len()
        invariant
            i <= s.goal_entities@.len(),
            ges == s@.goal_entities,
            forall|j: int|
                0 <= j < i ==> !(#[trigger] ges[j].id == owner@ && forest_has(ges[j].goals, goal_id@)),
        decreases s.goal_entities@.len() - i,
    {
        let ge = &s.goal_entities[i];
        assert(ges[i as int] == ge@);
        if str_eq(ge.id.as_str(), owner) && forest_contains(&ge.goals, goal_id) {
            assert(ges[i as int].id == owner@ && forest_has(ges[i as int].goals, goal_id@));
            return true;
        }
        i += 1;
    }
    false
}

// ── Checking one intent ──────────────────────────────────────────

/// The first id at or after `i` that names no entity.
pub open spec fn first_missing(s: SnapshotV, ids: Seq<Chars>, i: int) -> Option<Chars>
    decreases ids.len() - i,
{
    if i < 0 || i >= ids.len() {
        None
    } else if missing(s, ids[i]) {
        Some(ids[i])
    } else {
        first_missing(s, ids, i + 1)
    }
}

/// Whether the derived facts say the two can meet, in either order.
pub open spec fn can_meet(rv: Seq<(Chars, Seq<Seq<Chars>>)>, a: Chars, b: Chars) -> bool {
    rows_of(rv, "can_meet"@).contains(seq![a, b]) || rows_of(rv, "can_meet"@).contains(seq![b, a])
}

/// The first pair of neighbours, at or after `i`, that cannot meet.
pub open spec fn first_apart(rv: Seq<(Chars, Seq<Seq<Chars>>)>, ids: Seq<Chars>, i: int) -> Option<(Chars, Chars)>
    decreases ids.len() - i,
{
    if i < 0 || i + 1 >= ids.len() {
        None
    } else if !can_meet(rv, ids[i], ids[i + 1]) {
        Some((ids[i], ids[i + 1]))
    } else {
        first_apart(rv, ids, i + 1)
    }
}

pub open spec fn no_character(id: Chars) -> Chars {
    "角色 "@ + id + " 不存在"@
}

pub open spec fn no_location(id: Chars) -> Chars {
    "地点 "@ + id + " 不存在"@
}

pub open spec fn apart_reason(s: SnapshotV, a: Chars, b: Chars, at: Chars) -> Chars {
    a + "("@ + location_label(s, a) + ") 与 "@ + b + "("@ + location_label(s, b) + ") 不在同一地点, 需要先 move 到 "@
        + at
}

pub open spec fn all_known(to: Seq<Chars>, known_by: Seq<Chars>) -> bool {
    forall|k: int| 0 <= k < to.len() ==> known_by.contains(#[trigger] to[k])
}

/// Why an intent cannot be met in the snapshot, or `None` when it can.
pub open spec fn check_spec(
    s: SnapshotV,
    intent: DramaticIntentV,
    reasoning: Option<Seq<(Chars, Seq<Seq<Chars>>)>>,
) -> Option<Chars> {
    match intent {
        DramaticIntentV::Confrontation { between, at, .. } => match first_missing(s, between, 0) {
            Some(id) => Some(no_character(id)),
            None => if missing(s, at) {
                Some(no_location(at))
            } else {
                match reasoning {
                    None => None,
                    Some(rv) => match first_apart(rv, between, 0) {
                        Some((a, b)) => Some(apart_reason(s, a, b, at)),
                        None => None,
                    },
                }
            },
        },
        DramaticIntentV::SecretReveal { secret, to, .. } => match first_secret(s.secrets, secret, 0) {
            None => Some("秘密 "@ + secret + " 不存在"@),
            Some(sec) => if all_known(to, sec.known_by) {
                Some("秘密 "@ + secret + " 已被 "@ + join_with(to, ", "@) + " 知道, 没有揭示价值"@)
            } else {
                None
            },
        },
        DramaticIntentV::SuspenseResolution { goal, .. } => match find(goal, '/') {
            None => Some("目标格式错误: "@ + goal + " (应为 owner/goal_id)"@),
            Some(k) => if !goal_found(s.goal_entities, goal.take(k), goal.skip(k + 1)) {
                Some("目标 "@ + goal + " 不存在"@)
            } else if !goal_active(s.goal_entities, goal.take(k), goal.skip(k + 1)) {
                Some("目标 "@ + goal + " 不是活跃状态"@)
            } else {
                None
            },
        },
        DramaticIntentV::GoalEmergence { owner, .. } => if missing(s, owner) {
            Some(no_character(owner))
        } else {
            None
        },
        DramaticIntentV::Reversal { target, .. } => if missing(s, target) {
            Some(no_character(target))
        } else {
            None
        },
        DramaticIntentV::CharacterDevelopment { character, .. } => if missing(s, character) {
            Some(no_character(character))
        } else {
            None
        },
        DramaticIntentV::TensionBuild { .. } => None,
    }
}

/// The view of an optional borrowed reasoning result.
pub open spec fn reasoning_view(r: Option<&ReasoningResult>) -> Option<Seq<(Chars, Seq<Seq<Chars>>)>> {
    match r {
        Some(x) => Some(x@),
        None => None,
    }
}

/// An intent that cannot be satisfied with the current snapshot.
#[derive(Debug)]
pub struct UnmetIntent {
    pub intent: DramaticIntent,
    pub reason: String,
}

pub ghost struct UnmetIntentV {
    pub intent: DramaticIntentV,
    pub reason: Chars,
}

impl View for UnmetIntent {
    type V = UnmetIntentV;

    open spec fn view(&self) -> UnmetIntentV {
        UnmetIntentV { intent: self.intent@, reason: self.reason@ }
    }
}

fn unmet(intent: &DramaticIntent, reason: String) -> (r: UnmetIntent)
    ensures
        r@ == (UnmetIntentV { intent: intent@, reason: reason@ }),
{
    UnmetIntent { intent: intent.duplicate(), reason }
}

fn missing_character(intent: &DramaticIntent, id: &str) -> (r: UnmetIntent)
    ensures
        r@ == (UnmetIntentV { intent: intent@, reason: no_character(id@) }),
{
    let mut m = String::new();
    push_str(&mut m, "角色 ");
    push_str(&mut m, id);
    push_str(&mut m, " 不存在");
    unmet(intent, m)
}

fn location_of<'a>(s: &'a Snapshot, id: &str) -> (r: &'a str)
    ensures
        r@ == location_label(s@, id@),
{
    match find_entity(s, id) {
        Some(Entity::Character(c)) => match &c.location {
            Some(l) => l.as_str(),
            None => "?",
        },
        _ => "?",
    }
}

/// Checks one intent against the snapshot; the derived facts, when given,
/// decide whether the characters of a confrontation can meet.
#[verifier::loop_isolation(false)]
pub fn check_intent(
    snapshot: &Snapshot,
    intent: &DramaticIntent,
    reasoning: Option<&ReasoningResult>,
) -> (r: Option<UnmetIntent>)
    ensures
        match check_spec(snapshot@, intent@, reasoning_view(reasoning)) {
            Some(reason) => r matches Some(u) && u@ == (UnmetIntentV { intent: intent@, reason }),
            None => r is None,
        },
{
    let ghost s = snapshot@;
    match intent {
        DramaticIntent::Confrontation { between, at, .. } => {
            let ghost ids = views(between@);
            let mut i: usize = 0;
            while i < between.len()
                invariant
                    i <= between@.len(),
                    ids == views(between@),
                    s == snapshot@,
                    first_missing(s, ids, 0) == first_missing(s, ids, i as int),
                decreases between@.len() - i,
            {
                assert(ids[i as int] == between@[i as int]@);
                if find_entity(snapshot, between[i].as_str()).is_none() {
                    assert(first_missing(s, ids, i as int) == Some(ids[i as int]));
                    return Some(missing_character(intent, between[i].as_str()));
                }
                i += 1;
            }
            if find_entity(snapshot, at.as_str()).is_none() {
                let mut m = String::new();
                push_str(&mut m, "地点 ");
                push_str(&mut m, at.as_str());
                push_str(&mut m, " 不存在");
                return Some(unmet(intent, m));
            }
            match reasoning {
                None => None,
                Some(result) => {
                    let ghost rv = result@;
                    let mut k: usize = 0;
                    while k + 1 < between.len()
                        invariant
                            ids == views(between@),
                            s == snapshot@,
                            rv == result@,
                            k == 0 || k < between@.len(),
                            first_missing(s, ids, 0) is None,
                            !missing(s, at@),
                            reasoning_view(reasoning) == Some(rv),
                            first_apart(rv, ids, 0) == first_apart(rv, ids, k as int),
                        decreases between@.len() - k,
                    {
                        let a = between[k].as_str();
                        let b = between[k + 1].as_str();
                        let ab = [a, b];
                        let ba = [b, a];
                        proof {
                            assert(crate::reasoning::str_refs(ab@) =~= seq![ids[k as int], ids[k + 1]]);
                            assert(crate::reasoning::str_refs(ba@) =~= seq![ids[k + 1], ids[k as int]]);
                        }
                        let met = result.contains("can_meet", &ab) || result.contains("can_meet", &ba);
                        assert(met == can_meet(rv, ids[k as int], ids[k + 1]));
                        if !met {
                            assert(first_apart(rv, ids, k as int) == Some((ids[k as int], ids[k + 1])));
                            let mut m = String::new();
                            push_str(&mut m, a);
                            push_str(&mut m, "(");
                            push_str(&mut m, location_of(snapshot, a));
                            push_str(&mut m, ") 与 ");
                            push_str(&mut m, b);
                            push_str(&mut m, "(");
                            push_str(&mut m, location_of(snapshot, b));
                            push_str(&mut m, ") 不在同一地点, 需要先 move 到 ");
                            push_str(&mut m, at.as_str());
                            return Some(unmet(intent, m));
                        }
                        k += 1;
                    }
                    None
                },
            }
        },
        DramaticIntent::SecretReveal { secret, to, .. } => {
            match find_secret(snapshot, secret.as_str()) {
                None => {
                    let mut m = String::new();
                    push_str(&mut m, "秘密 ");
                    push_str(&mut m, secret.as_str());
                    push_str(&mut m, " 不存在");
                    Some(unmet(intent, m))
                },
                Some(sec) => {
                    let ghost tv = views(to@);
                    let ghost kv = views(sec.known_by@);
                    let mut every = true;
                    let mut i: usize = 0;
                    while i < to.len()
                        invariant
                            i <= to@.len(),
                            tv == views(to@),
                            kv == views(sec.known_by@),
                            every == all_known(tv.take(i as int), kv),
                        decreases to@.len() - i,
                    {
                        let known = contains_str(&sec.known_by, to[i].as_str());
                        proof {
                            let t1 = tv.take(i + 1);
                            if every && known {
                                assert forall|k: int| 0 <= k < t1.len() implies kv.contains(#[trigger] t1[k]) by {
                                    if k < i {
                                        assert(t1[k] == tv.take(i as int)[k]);
                                    }
                                }
                            }
                            if !known {
                                assert(t1[i as int] == tv[i as int]);
                            }
                            if !every {
                                let w = choose|k: int| 0 <= k < i && !kv.contains(#[trigger] tv.take(i as int)[k]);
                                assert(t1[w] == tv.take(i as int)[w]);
                            }
                        }
                        every = every && known;
                        i += 1;
                    }
                    assert(tv.take(to@.len() as int) == tv);
                    if every {
                        let mut m = String::new();
                        push_str(&mut m, "秘密 ");
                        push_str(&mut m, secret.as_str());
                        push_str(&mut m, " 已被 ");
                        push_joined(&mut m, to, ", ");
                        push_str(&mut m, " 知道, 没有揭示价值");
                        Some(unmet(intent, m))
                    } else {
                        None
                    }
                },
            }
        },
        DramaticIntent::SuspenseResolution { goal, .. } => {
            let v = chars_of(goal.as_str());
            let n = v.len();
            assert(v@.subrange(0, n as int) == v@);
            match find_in(&v, 0, n, '/') {
                None => {
                    let mut m = String::new();
                    push_str(&mut m, "目标格式错误: ");
                    push_str(&mut m, goal.as_str());
                    push_str(&mut m, " (应为 owner/goal_id)");
                    Some(unmet(intent, m))
                },
                Some(k) => {
                    let owner = goal.as_str().substring_char(0, k);
                    let goal_id = goal.as_str().substring_char(k + 1, n);
                    assert(owner@ =~= goal@.take(k as int));
                    assert(goal_id@ =~= goal@.skip(k + 1));
                    if !goal_exists(snapshot, owner, goal_id) {
                        let mut m = String::new();
                        push_str(&mut m, "目标 ");
                        push_str(&mut m, goal.as_str());
                        push_str(&mut m, " 不存在");
                        Some(unmet(intent, m))
                    } else if !goal_is_active(snapshot, owner, goal_id) {
                        let mut m = String::new();
                        push_str(&mut m, "目标 ");
                        push_str(&mut m, goal.as_str());
                        push_str(&mut m, " 不是活跃状态");
                        Some(unmet(intent, m))
                    } else {
                        None
                    }
                },
            }
        },
        DramaticIntent::GoalEmergence { owner, .. } => {
            if find_entity(snapshot, owner.as_str()).is_none() {
                Some(missing_character(intent, owner.as_str()))
            } else {
                None
            }
        },
        DramaticIntent::Reversal { target, .. } => {
            if find_entity(snapshot, target.as_str()).is_none() {
                Some(missing_character(intent, target.as_str()))
            } else {
                None
            }
        },
        DramaticIntent::CharacterDevelopment { character, .. } => {
            if find_entity(snapshot, character.as_str()).is_none() {
                Some(missing_character(intent, character.as_str()))
            } else {
                None
            }
        },
        DramaticIntent::TensionBuild { .. } => None,
    }
}

// ── Verdict ──────────────────────────────────────────────────────

/// Result of validating a snapshot against dramatic intents.
#[derive(Debug)]
pub enum Verdict {
    /// All intents are satisfiable.
    Accept,
    /// Some intents cannot be satisfied with the current world state.
    Reject { unmet: Vec<UnmetIntent> },
}

pub ghost enum VerdictV {
    Accept,
    Reject(Seq<UnmetIntentV>),
}

pub open spec fn unmet_views(us: Seq<UnmetIntent>) -> Seq<UnmetIntentV> {
    us.map_values(|u: UnmetIntent| u@)
}

impl View for Verdict {
    type V = VerdictV;

    open spec fn view(&self) -> VerdictV {
        match self {
            Verdict::Accept => VerdictV::Accept,
            Verdict::Reject { unmet } => VerdictV::Reject(unmet_views(unmet@)),
        }
    }
}

/// The unmet intents among `intents`, in their order.
pub open spec fn unmet_spec(
    s: SnapshotV,
    intents: Seq<DramaticIntentV>,
    reasoning: Option<Seq<(Chars, Seq<Seq<Chars>>)>>,
) -> Seq<UnmetIntentV>
    decreases intents.len(),
{
    if intents.len() == 0 {
        Seq::empty()
    } else {
        let rest = unmet_spec(s, intents.drop_last(), reasoning);
        match check_spec(s, intents.last(), reasoning) {
            Some(reason) => rest.push(UnmetIntentV { intent: intents.last(), reason }),
            None => rest,
        }
    }
}

pub open spec fn verdict_spec(
    s: SnapshotV,
    intents: Seq<DramaticIntentV>,
    reasoning: Option<Seq<(Chars, Seq<Seq<Chars>>)>>,
) -> VerdictV {
    let u = unmet_spec(s, intents, reasoning);
    if u.len() == 0 {
        VerdictV::Accept
    } else {
        VerdictV::Reject(u)
    }
}

pub open spec fn intent_views(is: Seq<DramaticIntent>) -> Seq<DramaticIntentV> {
    is.map_values(|i: DramaticIntent| i@)
}

/// Validate a snapshot against the intents of a chapter: each intent is
/// checked in turn, and every one that cannot be met is listed.
pub fn validate(
    snapshot: &Snapshot,
    intents: &Vec<DramaticIntent>,
    reasoning: Option<&ReasoningResult>,
) -> (r: Verdict)
    ensures
        r@ == verdict_spec(snapshot@, intent_views(intents@), reasoning_view(reasoning)),
{
    let ghost iv = intent_views(intents@);
    let ghost rv = reasoning_view(reasoning);
    let mut unmet: Vec<UnmetIntent> = Vec::new();
    let mut i: usize = 0;
    while i < intents.len()
        invariant
            i <= intents@.len(),
            iv == intent_views(intents@),
            rv == reasoning_view(reasoning),
            unmet_views(unmet@) == unmet_spec(snapshot@, iv.take(i as int), rv),
        decreases intents@.len() - i,
    {
        proof {
            assert(iv.take(i + 1).drop_last() == iv.take(i as int));
            assert(iv.take(i + 1).last() == intents@[i as int]@);
        }
        let ghost prev = unmet@;
        match check_intent(snapshot, &intents[i], reasoning) {
            Some(issue) => {
                unmet.push(issue);
                assert(unmet_views(unmet@) =~= unmet_views(prev).push(unmet@.last()@));
            },
            None => {},
        }
        i += 1;
    }
    assert(iv.take(intents@.len() as int) == iv);
    if unmet.len() == 0 {
        Verdict::Accept
    } else {
        Verdict::Reject { unmet }
    }
}

/// One line of a rejection.
pub open spec fn unmet_line(u: UnmetIntentV) -> Chars {
    "  ⊘ "@ + summary_spec(u.intent) + " — "@ + u.reason + "\n"@
}

pub open spec fn unmet_lines(us: Seq<UnmetIntentV>) -> Chars
    decreases us.len(),
{
    if us.len() == 0 {
        Seq::empty()
    } else {
        unmet_lines(us.drop_last()) + unmet_line(us.last())
    }
}

pub open spec fn render_spec(v: VerdictV) -> Chars {
    match v {
        VerdictV::Accept => "✓ 所有戏剧性意图可满足"@,
        VerdictV::Reject(us) => "✗ "@ + dec(us.len()) + " 个意图无法满足:\n"@ + unmet_lines(us),
    }
}

impl Verdict {
    pub fn is_accept(&self) -> (r: bool)
        ensures
            r == (self@ is Accept),
    {
        match self {
            Verdict::Accept => true,
            Verdict::Reject { .. } => false,
        }
    }

    pub fn unmet_count(&self) -> (r: usize)
        ensures
            r == match self@ {
                VerdictV::Accept => 0,
                VerdictV::Reject(us) => us.len(),
            },
    {
        match self {
            Verdict::Accept => 0,
            Verdict::Reject { unmet } => unmet.len(),
        }
    }

    /// The verdict as text: a single line when every intent can be met,
    /// else a count followed by one line per unmet intent.
    pub fn render(&self) -> (r: String)
        ensures
            r@ == render_spec(self@),
    {
        match self {
            Verdict::Accept => {
                let mut s = String::new();
                push_str(&mut s, "✓ 所有戏剧性意图可满足");
                s
            },
            Verdict::Reject { unmet } => {
                let ghost uv = unmet_views(unmet@);
                let mut out = String::new();
                push_str(&mut out, "✗ ");
                push_dec(&mut out, unmet.len() as u64);
                push_str(&mut out, " 个意图无法满足:\n");
                let ghost head = out@;
                let mut i: usize = 0;
                while i < unmet.len()
                    invariant
                        i <= unmet@.len(),
                        uv == unmet_views(unmet@),
                        out@ == head + unmet_lines(uv.take(i as int)),
                    decreases unmet@.len() - i,
                {
                    let item = &unmet[i];
                    proof {
                        assert(uv.take(i + 1).drop_last() == uv.take(i as int));
                        assert(uv.take(i + 1).last() == item@);
                    }
                    push_str(&mut out, "  ⊘ ");
                    let summary = item.intent.summary();
                    push_str(&mut out, summary.as_str());
                    push_str(&mut out, " — ");
                    push_str(&mut out, item.reason.as_str());
                    push_str(&mut out, "\n");
                    i += 1;
                }
                assert(uv.take(unmet@.len() as int) == uv);
                out
            },
        }
    }
}

// ── Laws ─────────────────────────────────────────────────────────

proof fn lemma_unmet_none(
    s: SnapshotV,
    intents: Seq<DramaticIntentV>,
    reasoning: Option<Seq<(Chars, Seq<Seq<Chars>>)>>,
)
    ensures
        unmet_spec(s, intents, reasoning).len() == 0 <==> forall|i: int|
            0 <= i < intents.len() ==> #[trigger] check_spec(s, intents[i], reasoning) is None,
        unmet_spec(s, intents, reasoning).len() <= intents.len(),
    decreases intents.len(),
{
    if intents.len() > 0 {
        let rest = intents.drop_last();
        lemma_unmet_none(s, rest, reasoning);
        assert forall|i: int| 0 <= i < rest.len() implies rest[i] == intents[i] by {}
        if unmet_spec(s, intents, reasoning).len() == 0 {
            assert forall|i: int| 0 <= i < intents.len() implies #[trigger] check_spec(s, intents[i], reasoning) is None by {
                if i < rest.len() {
                    assert(rest[i] == intents[i]);
                }
            }
        }
    }
}

/// A plan is accepted exactly when every one of its intents can be met,
/// the unmet ones are listed once each at most, and a tension build is
/// never unmet.
pub proof fn lemma_accept_iff_all_met(
    s: SnapshotV,
    intents: Seq<DramaticIntentV>,
    reasoning: Option<Seq<(Chars, Seq<Seq<Chars>>)>>,
    source: Chars,
    foreshadowing: Seq<Chars>,
)
    ensures
        (verdict_spec(s, intents, reasoning) is Accept) <==> forall|i: int|
            0 <= i < intents.len() ==> #[trigger] check_spec(s, intents[i], reasoning) is None,
        unmet_spec(s, intents, reasoning).len() <= intents.len(),
        check_spec(s, DramaticIntentV::TensionBuild { source, foreshadowing }, reasoning) is None,
{
    lemma_unmet_none(s, intents, reasoning);
}

// ── Laws of checking intents ─────────────────────────────────────

proof fn lemma_first_entity_found(es: Seq<EntityV>, id: Chars, i: int)
    requires
        0 <= i,
    ensures
        (first_entity(es, id, i) is None) <==> (forall|j: int| i <= j < es.len() ==> #[trigger] es[j].id() != id),
    decreases es.len() - i,
{
    if i < es.len() {
        lemma_first_entity_found(es, id, i + 1);
        if es[i].id() != id {
            assert forall|j: int| i <= j < es.len() && (forall|m: int| i + 1 <= m < es.len() ==> #[trigger] es[m].id() != id) implies #[trigger] es[j].id() != id by {
                if j > i {
                }
            }
        }
    }
}

proof fn lemma_none_missing(s: SnapshotV, ids: Seq<Chars>, i: int)
    requires
        0 <= i,
        forall|k: int| 0 <= k < ids.len() ==> exists|j: int| 0 <= j < s.entities.len() && #[trigger] s.entities[j].id()
            == #[trigger] ids[k],
    ensures
        first_missing(s, ids, i) is None,
    decreases ids.len() - i,
{
    if i < ids.len() {
        let j = choose|j: int| 0 <= j < s.entities.len() && #[trigger] s.entities[j].id() == ids[i];
        lemma_first_entity_found(s.entities, ids[i], 0);
        assert(s.entities[j].id() == ids[i]);
        lemma_none_missing(s, ids, i + 1);
    }
}

/// A confrontation between characters who all exist, at a place that no
/// entity of the snapshot names, is unmet because the place does not exist,
/// whatever the derived facts say.
pub proof fn lemma_confrontation_needs_place(
    s: SnapshotV,
    between: Seq<Chars>,
    at: Chars,
    depends_on: Seq<Chars>,
    reasoning: Option<Seq<(Chars, Seq<Seq<Chars>>)>>,
)
    requires
        forall|k: int| 0 <= k < between.len() ==> exists|j: int| 0 <= j < s.entities.len() && #[trigger] s.entities[j].id()
            == #[trigger] between[k],
        forall|j: int| 0 <= j < s.entities.len() ==> #[trigger] s.entities[j].id() != at,
    ensures
        check_spec(s, DramaticIntentV::Confrontation { between, at, depends_on }, reasoning) == Some(
            "地点 "@ + at + " 不存在"@,
        ),
{
    lemma_none_missing(s, between, 0);
    lemma_first_entity_found(s.entities, at, 0);
}

} // verus!
