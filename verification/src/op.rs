//! Effect operations — the atomic vocabulary of state change, and the DSL
//! parser for strings like `remove_item(kian, 电磁短刀)`.
use vstd::prelude::*;

use crate::entity::{
    Character, CharacterV, Entity, EntityV, Relationship, RelationshipV, rel_views,
};
use crate::error::{LedgerError, LedgerErrorV};
use crate::goal::{
    Goal, GoalEntity, GoalEntityV, GoalStatus, GoalV, goal_views, height, lemma_height_prefix, ov,
};
use crate::secret::{Secret, SecretV, reveal_spec};
use crate::text::{
    Chars, chars_of, clone_opt, contains_str, dec, find, find_in, owned, push_dec, push_str,
    rfind, rfind_in, str_eq, string_from, trim, trim_bounds, views,
};

verus! {

broadcast use vstd::seq_lib::group_seq_properties;

/// A single atomic effect operation.
#[derive(Debug, PartialEq, Eq)]
pub enum Op {
    AddTrait { entity: String, value: String },
    RemoveTrait { entity: String, value: String },
    AddItem { entity: String, item: String },
    RemoveItem { entity: String, item: String },
    Move { entity: String, location: String },
    AddRel { entity: String, target: String, rel: String },
    RemoveRel { entity: String, target: String },
    SetBelief { entity: String, old: String, new: String },
    AddDesire { entity: String, value: String },
    RemoveDesire { entity: String, value: String },
    Reveal { secret: String, to: String },
    RevealToReader { secret: String },
    ResolveGoal { owner: String, goal_id: String, solution: String },
    FailGoal { owner: String, goal_id: String },
    EmergeGoal { owner: String, goal_id: String, want: String, problem: Option<String> },
}

pub ghost enum OpV {
    AddTrait { entity: Chars, value: Chars },
    RemoveTrait { entity: Chars, value: Chars },
    AddItem { entity: Chars, item: Chars },
    RemoveItem { entity: Chars, item: Chars },
    Move { entity: Chars, location: Chars },
    AddRel { entity: Chars, target: Chars, rel: Chars },
    RemoveRel { entity: Chars, target: Chars },
    SetBelief { entity: Chars, old: Chars, new: Chars },
    AddDesire { entity: Chars, value: Chars },
    RemoveDesire { entity: Chars, value: Chars },
    Reveal { secret: Chars, to: Chars },
    RevealToReader { secret: Chars },
    ResolveGoal { owner: Chars, goal_id: Chars, solution: Chars },
    FailGoal { owner: Chars, goal_id: Chars },
    EmergeGoal { owner: Chars, goal_id: Chars, want: Chars, problem: Option<Chars> },
}

impl View for Op {
    type V = OpV;

    open spec fn view(&self) -> OpV {
        match self {
            Op::AddTrait { entity, value } => OpV::AddTrait { entity: entity@, value: value@ },
            Op::RemoveTrait { entity, value } => OpV::RemoveTrait { entity: entity@, value: value@ },
            Op::AddItem { entity, item } => OpV::AddItem { entity: entity@, item: item@ },
            Op::RemoveItem { entity, item } => OpV::RemoveItem { entity: entity@, item: item@ },
            Op::Move { entity, location } => OpV::Move { entity: entity@, location: location@ },
            Op::AddRel { entity, target, rel } => OpV::AddRel {
                entity: entity@,
                target: target@,
                rel: rel@,
            },
            Op::RemoveRel { entity, target } => OpV::RemoveRel { entity: entity@, target: target@ },
            Op::SetBelief { entity, old, new } => OpV::SetBelief {
                entity: entity@,
                old: old@,
                new: new@,
            },
            Op::AddDesire { entity, value } => OpV::AddDesire { entity: entity@, value: value@ },
            Op::RemoveDesire { entity, value } => OpV::RemoveDesire {
                entity: entity@,
                value: value@,
            },
            Op::Reveal { secret, to } => OpV::Reveal { secret: secret@, to: to@ },
            Op::RevealToReader { secret } => OpV::RevealToReader { secret: secret@ },
            Op::ResolveGoal { owner, goal_id, solution } => OpV::ResolveGoal {
                owner: owner@,
                goal_id: goal_id@,
                solution: solution@,
            },
            Op::FailGoal { owner, goal_id } => OpV::FailGoal { owner: owner@, goal_id: goal_id@ },
            Op::EmergeGoal { owner, goal_id, want, problem } => OpV::EmergeGoal {
                owner: owner@,
                goal_id: goal_id@,
                want: want@,
                problem: ov(*problem),
            },
        }
    }
}

pub open spec fn op_views(ops: Seq<Op>) -> Seq<OpV> {
    ops.map_values(|o: Op| o@)
}

// ── Spec of the mutations ────────────────────────────────────────

/// The entity an op targets, if any.
pub open spec fn target_of(op: OpV) -> Option<Chars> {
    match op {
        OpV::AddTrait { entity, .. } => Some(entity),
        OpV::RemoveTrait { entity, .. } => Some(entity),
        OpV::AddItem { entity, .. } => Some(entity),
        OpV::RemoveItem { entity, .. } => Some(entity),
        OpV::Move { entity, .. } => Some(entity),
        OpV::AddRel { entity, .. } => Some(entity),
        OpV::RemoveRel { entity, .. } => Some(entity),
        OpV::SetBelief { entity, .. } => Some(entity),
        OpV::AddDesire { entity, .. } => Some(entity),
        OpV::RemoveDesire { entity, .. } => Some(entity),
        OpV::Reveal { .. } => None,
        OpV::RevealToReader { .. } => None,
        OpV::ResolveGoal { owner, .. } => Some(owner),
        OpV::FailGoal { owner, .. } => Some(owner),
        OpV::EmergeGoal { owner, .. } => Some(owner),
    }
}

/// Ops that change a character.
pub open spec fn is_character_op(op: OpV) -> bool {
    !(op is Reveal || op is RevealToReader || op is ResolveGoal || op is FailGoal
        || op is EmergeGoal)
}

/// `s` with `x` appended unless it is already there.
pub open spec fn add_unique(s: Seq<Chars>, x: Chars) -> Seq<Chars> {
    if s.contains(x) {
        s
    } else {
        s.push(x)
    }
}

pub open spec fn ne_pred(x: Chars) -> spec_fn(Chars) -> bool {
    |t: Chars| t != x
}

/// `s` without any copy of `x`, order kept.
pub open spec fn remove_all(s: Seq<Chars>, x: Chars) -> Seq<Chars> {
    s.filter(ne_pred(x))
}

/// First index of `x` in `s`, if any.
pub open spec fn first_index<A>(s: Seq<A>, x: A) -> Option<int>
    decreases s.len(),
{
    if s.len() == 0 {
        None
    } else {
        match first_index(s.drop_last(), x) {
            Some(i) => Some(i),
            None => if s.last() == x {
                Some(s.len() - 1)
            } else {
                None
            },
        }
    }
}

/// The first copy of `old` replaced by `new`, or `new` appended when absent.
pub open spec fn set_belief_spec(s: Seq<Chars>, old: Chars, new: Chars) -> Seq<Chars> {
    match first_index(s, old) {
        Some(i) => s.update(i, new),
        None => s.push(new),
    }
}

pub open spec fn has_rel(rs: Seq<RelationshipV>, t: Chars, rel: Chars) -> bool {
    exists|i: int| 0 <= i < rs.len() && #[trigger] rs[i].target == t && rs[i].role == rel
}

pub open spec fn new_rel(t: Chars, rel: Chars) -> RelationshipV {
    RelationshipV { target: t, role: rel, trust: 0, affinity: 0, respect: 0 }
}

pub open spec fn target_ne(t: Chars) -> spec_fn(RelationshipV) -> bool {
    |r: RelationshipV| r.target != t
}

/// What a character-changing op does to a character.
pub open spec fn apply_char(op: OpV, c: CharacterV) -> CharacterV {
    match op {
        OpV::AddTrait { value, .. } => CharacterV { traits: add_unique(c.traits, value), ..c },
        OpV::RemoveTrait { value, .. } => CharacterV { traits: remove_all(c.traits, value), ..c },
        OpV::AddItem { item, .. } => CharacterV { inventory: add_unique(c.inventory, item), ..c },
        OpV::RemoveItem { item, .. } => CharacterV {
            inventory: remove_all(c.inventory, item),
            ..c
        },
        OpV::Move { location, .. } => CharacterV { location: Some(location), ..c },
        OpV::AddRel { target, rel, .. } => CharacterV {
            relationships: if has_rel(c.relationships, target, rel) {
                c.relationships
            } else {
                c.relationships.push(new_rel(target, rel))
            },
            ..c
        },
        OpV::RemoveRel { target, .. } => CharacterV {
            relationships: c.relationships.filter(target_ne(target)),
            ..c
        },
        OpV::SetBelief { old, new, .. } => CharacterV {
            beliefs: set_belief_spec(c.beliefs, old, new),
            ..c
        },
        OpV::AddDesire { value, .. } => CharacterV { desires: add_unique(c.desires, value), ..c },
        OpV::RemoveDesire { value, .. } => CharacterV {
            desires: remove_all(c.desires, value),
            ..c
        },
        _ => c,
    }
}

/// Whether the op changes this entity: it targets the entity's id, the
/// entity is a character, and the op is a character op.
pub open spec fn applies_to_entity(op: OpV, e: EntityV) -> bool {
    &&& target_of(op) == Some(e.id())
    &&& e is Character
    &&& is_character_op(op)
}

/// The entity after the op.
pub open spec fn apply_entity(op: OpV, e: EntityV) -> EntityV {
    if applies_to_entity(op, e) {
        match e {
            EntityV::Character(c) => EntityV::Character(apply_char(op, c)),
            _ => e,
        }
    } else {
        e
    }
}

/// Whether the op changes this secret.
pub open spec fn applies_to_secret(op: OpV, s: SecretV) -> bool {
    match op {
        OpV::Reveal { secret, .. } => secret == s.id,
        OpV::RevealToReader { secret } => secret == s.id,
        _ => false,
    }
}

pub open spec fn apply_secret(op: OpV, s: SecretV) -> SecretV {
    match op {
        OpV::Reveal { secret, to } => if secret == s.id {
            reveal_spec(s, to)
        } else {
            s
        },
        OpV::RevealToReader { secret } => if secret == s.id {
            SecretV { revealed_to_reader: true, ..s }
        } else {
            s
        },
        _ => s,
    }
}

/// Pre-order search for the first goal with id `gid`, applying `upd` to it.
/// Returns whether one was found, and the forest afterwards.
pub open spec fn update_first(gs: Seq<GoalV>, gid: Chars, upd: spec_fn(GoalV) -> GoalV) -> (
    bool,
    Seq<GoalV>,
)
    decreases gs,
{
    if gs.len() == 0 {
        (false, gs)
    } else {
        let (found, front) = update_first(gs.drop_last(), gid, upd);
        if found {
            (true, front.push(gs.last()))
        } else {
            let g = gs.last();
            if g.id == gid {
                (true, front.push(upd(g)))
            } else {
                let (fc, kids) = update_first(g.children, gid, upd);
                (fc, front.push(GoalV { children: kids, ..g }))
            }
        }
    }
}

pub open spec fn resolve_upd(solution: Chars) -> spec_fn(GoalV) -> GoalV {
    |g: GoalV| GoalV { status: GoalStatus::Resolved, solution: Some(solution), ..g }
}

pub open spec fn fail_upd() -> spec_fn(GoalV) -> GoalV {
    |g: GoalV| GoalV { status: GoalStatus::Failed, ..g }
}

pub open spec fn new_goal(goal_id: Chars, want: Chars, problem: Option<Chars>) -> GoalV {
    GoalV {
        id: goal_id,
        want,
        problem,
        solution: None,
        status: GoalStatus::Active,
        blocked_by: Seq::empty(),
        conflicts_with: Seq::empty(),
        side_effects: Seq::empty(),
        children: Seq::empty(),
    }
}

/// Whether a goal op changes this goal entity, and the entity afterwards.
pub open spec fn apply_goal(op: OpV, ge: GoalEntityV) -> (bool, GoalEntityV) {
    match op {
        OpV::ResolveGoal { owner, goal_id, solution } => if owner == ge.id {
            let (f, gs) = update_first(ge.goals, goal_id, resolve_upd(solution));
            (f, GoalEntityV { goals: gs, ..ge })
        } else {
            (false, ge)
        },
        OpV::FailGoal { owner, goal_id } => if owner == ge.id {
            let (f, gs) = update_first(ge.goals, goal_id, fail_upd());
            (f, GoalEntityV { goals: gs, ..ge })
        } else {
            (false, ge)
        },
        OpV::EmergeGoal { owner, goal_id, want, problem } => if owner == ge.id {
            (true, GoalEntityV { goals: ge.goals.push(new_goal(goal_id, want, problem)), ..ge })
        } else {
            (false, ge)
        },
        _ => (false, ge),
    }
}

/// When nothing is found, the forest is unchanged.
pub proof fn lemma_update_first_unchanged(gs: Seq<GoalV>, gid: Chars, upd: spec_fn(GoalV) -> GoalV)
    ensures
        !update_first(gs, gid, upd).0 ==> update_first(gs, gid, upd).1 == gs,
        update_first(gs, gid, upd).1.len() == gs.len(),
    decreases gs,
{
    if gs.len() > 0 {
        lemma_update_first_unchanged(gs.drop_last(), gid, upd);
        lemma_update_first_unchanged(gs.last().children, gid, upd);
        if !update_first(gs, gid, upd).0 {
            let g = gs.last();
            assert(GoalV { children: update_first(g.children, gid, upd).1, ..g } == g);
            assert(gs.drop_last().push(gs.last()) == gs);
        }
    }
}

// ── List helpers ─────────────────────────────────────────────────

fn add_unique_vec(v: &mut Vec<String>, x: &String)
    ensures
        views(final(v)@) == add_unique(views(old(v)@), x@),
{
    if !contains_str(v, x.as_str()) {
        let ghost prev = v@;
        v.push(x.clone());
        assert(views(v@) =~= views(prev).push(x@));
    }
}

fn remove_all_vec(v: &mut Vec<String>, x: &String)
    ensures
        views(final(v)@) == remove_all(views(old(v)@), x@),
{
    let ghost sv = views(v@);
    let mut r: Vec<String> = Vec::new();
    let mut i: usize = 0;
    while i < v.len()
        invariant
            i <= v@.len(),
            sv == views(v@),
            views(r@) == sv.take(i as int).filter(ne_pred(x@)),
        decreases v@.len() - i,
    {
        assert(sv.take(i + 1) == sv.take(i as int).push(sv[i as int]));
        proof { sv.take(i as int).lemma_filter_push(sv[i as int], ne_pred(x@)); }
        let ghost prev = r@;
        if !str_eq(v[i].as_str(), x.as_str()) {
            r.push(v[i].clone());
            assert(views(r@) =~= views(prev).push(sv[i as int]));
        }
        i += 1;
    }
    assert(sv.take(v@.len() as int) == sv);
    *v = r;
}

proof fn lemma_first_index_prefix<A>(s: Seq<A>, x: A, i: int)
    requires
        0 <= i <= s.len(),
        forall|j: int| 0 <= j < i ==> s[j] != x,
    ensures
        first_index(s.take(i), x) is None,
    decreases i,
{
    if i > 0 {
        assert(s.take(i).drop_last() == s.take(i - 1));
        lemma_first_index_prefix(s, x, i - 1);
    }
}

proof fn lemma_first_index_found<A>(s: Seq<A>, x: A, i: int)
    requires
        0 <= i < s.len(),
        s[i] == x,
        forall|j: int| 0 <= j < i ==> s[j] != x,
    ensures
        first_index(s, x) == Some(i),
    decreases s.len(),
{
    if i < s.len() - 1 {
        assert(s.drop_last()[i] == x);
        lemma_first_index_found(s.drop_last(), x, i);
    } else {
        assert(s.drop_last() == s.take(i));
        lemma_first_index_prefix(s, x, i);
    }
}

fn set_belief_vec(v: &mut Vec<String>, from: &String, new: &String)
    ensures
        views(final(v)@) == set_belief_spec(views(old(v)@), from@, new@),
{
    let ghost sv = views(v@);
    let mut i: usize = 0;
    while i < v.len()
        invariant
            i <= v@.len(),
            sv == views(v@),
            sv == views(old(v)@),
            v@ == old(v)@,
            forall|j: int| 0 <= j < i ==> sv[j] != from@,
        decreases v@.len() - i,
    {
        if str_eq(v[i].as_str(), from.as_str()) {
            proof { lemma_first_index_found(sv, from@, i as int); }
            v.set(i, new.clone());
            assert(views(v@) =~= sv.update(i as int, new@));
            return ;
        }
        i += 1;
    }
    proof {
        lemma_first_index_prefix(sv, from@, sv.len() as int);
        assert(sv.take(sv.len() as int) == sv);
    }
    let ghost prev = v@;
    v.push(new.clone());
    assert(views(v@) =~= views(prev).push(new@));
}

fn add_rel_vec(v: &mut Vec<Relationship>, target: &String, rel: &String)
    ensures
        rel_views(final(v)@) == if has_rel(rel_views(old(v)@), target@, rel@) {
            rel_views(old(v)@)
        } else {
            rel_views(old(v)@).push(new_rel(target@, rel@))
        },
{
    let ghost rv = rel_views(v@);
    let mut i: usize = 0;
    while i < v.len()
        invariant
            i <= v@.len(),
            rv == rel_views(v@),
            forall|j: int| 0 <= j < i ==> !(rv[j].target == target@ && rv[j].role == rel@),
        decreases v@.len() - i,
    {
        if str_eq(v[i].target.as_str(), target.as_str()) && str_eq(v[i].role.as_str(), rel.as_str()) {
            assert(rv[i as int].target == target@);
            return ;
        }
        i += 1;
    }
    let ghost prev = v@;
    v.push(Relationship { target: target.clone(), role: rel.clone(), trust: 0, affinity: 0, respect: 0 });
    assert(rel_views(v@) =~= rel_views(prev).push(new_rel(target@, rel@)));
}

fn remove_rel_vec(v: &mut Vec<Relationship>, target: &String)
    ensures
        rel_views(final(v)@) == rel_views(old(v)@).filter(target_ne(target@)),
{
    let ghost rv = rel_views(v@);
    let mut r: Vec<Relationship> = Vec::new();
    let mut i: usize = 0;
    while i < v.len()
        invariant
            i <= v@.len(),
            rv == rel_views(v@),
            rel_views(r@) == rv.take(i as int).filter(target_ne(target@)),
        decreases v@.len() - i,
    {
        assert(rv.take(i + 1) == rv.take(i as int).push(rv[i as int]));
        proof { rv.take(i as int).lemma_filter_push(rv[i as int], target_ne(target@)); }
        let ghost prev = r@;
        if !str_eq(v[i].target.as_str(), target.as_str()) {
            r.push(v[i].duplicate());
            assert(rel_views(r@) =~= rel_views(prev).push(rv[i as int]));
        }
        i += 1;
    }
    assert(rv.take(v@.len() as int) == rv);
    *v = r;
}

fn apply_to_character(op: &Op, c: &mut Character)
    requires
        is_character_op(op@),
    ensures
        final(c)@ == apply_char(op@, old(c)@),
{
    match op {
        Op::AddTrait { value, .. } => add_unique_vec(&mut c.traits, value),
        Op::RemoveTrait { value, .. } => remove_all_vec(&mut c.traits, value),
        Op::AddItem { item, .. } => add_unique_vec(&mut c.inventory, item),
        Op::RemoveItem { item, .. } => remove_all_vec(&mut c.inventory, item),
        Op::Move { location, .. } => {
            c.location = Some(location.clone());
        },
        Op::AddRel { target, rel, .. } => add_rel_vec(&mut c.relationships, target, rel),
        Op::RemoveRel { target, .. } => remove_rel_vec(&mut c.relationships, target),
        Op::SetBelief { old, new, .. } => set_belief_vec(&mut c.beliefs, old, new),
        Op::AddDesire { value, .. } => add_unique_vec(&mut c.desires, value),
        Op::RemoveDesire { value, .. } => remove_all_vec(&mut c.desires, value),
        _ => {},
    }
}

// ── Goal tree search ─────────────────────────────────────────────

/// Applies `upd` (resolve with `solution`, or fail when `solution` is None)
/// to the first goal in pre-order whose id is `gid`.
fn update_goal_in(goals: &mut Vec<Goal>, gid: &str, solution: &Option<String>) -> (found: bool)
    ensures
        (found, goal_views(final(goals)@)) == update_first(
            goal_views(old(goals)@),
            gid@,
            match solution {
                Some(s) => resolve_upd(s@),
                None => fail_upd(),
            },
        ),
    decreases height(goal_views(old(goals)@)),
{
    let ghost upd = match solution {
        Some(s) => resolve_upd(s@),
        None => fail_upd(),
    };
    let ghost gv0 = goal_views(goals@);
    let n = goals.len();
    let mut i: usize = 0;
    while i < n
        invariant
            n == goals@.len() == gv0.len(),
            gv0 == goal_views(old(goals)@),
            i <= n,
            upd == (match solution {
                Some(s) => resolve_upd(s@),
                None => fail_upd(),
            }),
            !update_first(gv0.take(i as int), gid@, upd).0,
            goal_views(goals@) == update_first(gv0.take(i as int), gid@, upd).1 + gv0.skip(i as int),
        decreases n - i,
    {
        let ghost pre = goals@;
        proof {
            lemma_update_first_unchanged(gv0.take(i as int), gid@, upd);
            assert(gv0.take(i + 1).drop_last() == gv0.take(i as int));
            assert(gv0.take(i + 1).last() == gv0[i as int]);
            assert(goal_views(pre)[i as int] == gv0[i as int]);
            crate::goal::lemma_children_view(pre[i as int]);
        }
        if str_eq(goals[i].id.as_str(), gid) {
            goals[i].status = match solution {
                Some(_) => GoalStatus::Resolved,
                None => GoalStatus::Failed,
            };
            if solution.is_some() {
                goals[i].solution = clone_opt(solution);
            }
            proof {
                crate::goal::lemma_children_view(goals@[i as int]);
                assert(goals@[i as int]@ == upd(gv0[i as int]));
                let ff = update_first(gv0.take(i as int), gid@, upd).1;
                assert(goals@ =~= pre.update(i as int, goals@[i as int]));
                lemma_views_update(pre, i as int, goals@[i as int], ff, gv0);
                assert(goal_views(goals@) =~= ff.push(upd(gv0[i as int])) + gv0.skip(i + 1));
                assert(goal_views(goals@) =~= update_first(gv0.take(i + 1), gid@, upd).1 + gv0.skip(
                    i + 1,
                ));
                lemma_update_first_suffix(gv0, i as int, gid@, upd);
            }
            return true;
        }
        proof {
            lemma_height_prefix(gv0, i as int);
        }
        let found = update_goal_in(&mut goals[i].children, gid, solution);
        proof {
            crate::goal::lemma_children_view(goals@[i as int]);
            let ff = update_first(gv0.take(i as int), gid@, upd).1;
            let kids = update_first(gv0[i as int].children, gid@, upd).1;
            assert(goals@ =~= pre.update(i as int, goals@[i as int]));
            lemma_views_update(pre, i as int, goals@[i as int], ff, gv0);
            assert(goals@[i as int]@ == GoalV { children: kids, ..gv0[i as int] });
            assert(goal_views(goals@) =~= ff.push(GoalV { children: kids, ..gv0[i as int] }) + gv0.skip(i + 1));
            assert(goal_views(goals@) =~= update_first(gv0.take(i + 1), gid@, upd).1 + gv0.skip(
                i + 1,
            ));
        }
        if found {
            proof { lemma_update_first_suffix(gv0, i as int, gid@, upd); }
            return true;
        }
        i += 1;
    }
    proof {
        assert(gv0.take(n as int) == gv0);
        assert(gv0.skip(n as int) =~= Seq::<GoalV>::empty());
        assert(goal_views(goals@) =~= update_first(gv0, gid@, upd).1);
    }
    false
}

proof fn lemma_views_update(pre: Seq<Goal>, i: int, x: Goal, ff: Seq<GoalV>, gv0: Seq<GoalV>)
    requires
        0 <= i < pre.len(),
        ff.len() == i,
        pre.len() == gv0.len(),
        goal_views(pre) == ff + gv0.skip(i),
    ensures
        goal_views(pre.update(i, x)) == ff.push(x@) + gv0.skip(i + 1),
{
    let a = goal_views(pre.update(i, x));
    let b = ff.push(x@) + gv0.skip(i + 1);
    assert forall|j: int| 0 <= j < a.len() implies a[j] == b[j] by {
        if j < i {
            assert(goal_views(pre)[j] == ff[j]);
        } else if j > i {
            assert(goal_views(pre)[j] == gv0.skip(i)[j - i]);
        }
    }
    assert(a =~= b);
}

/// Once found within a prefix, the rest of the forest is kept as is.
proof fn lemma_update_first_suffix(gs: Seq<GoalV>, i: int, gid: Chars, upd: spec_fn(GoalV) -> GoalV)
    requires
        0 <= i < gs.len(),
        update_first(gs.take(i + 1), gid, upd).0,
    ensures
        update_first(gs, gid, upd) == (true, update_first(gs.take(i + 1), gid, upd).1 + gs.skip(i + 1)),
    decreases gs.len(),
{
    if gs.len() == i + 1 {
        assert(gs.take(i + 1) == gs);
        assert(gs.skip(i + 1) =~= Seq::<GoalV>::empty());
    } else {
        assert(gs.drop_last().take(i + 1) == gs.take(i + 1));
        lemma_update_first_suffix(gs.drop_last(), i, gid, upd);
        assert(gs.drop_last().skip(i + 1).push(gs.last()) =~= gs.skip(i + 1));
    }
}

// ── Public API ───────────────────────────────────────────────────

impl Op {
    pub fn duplicate(&self) -> (r: Op)
        ensures
            r@ == self@,
    {
        match self {
            Op::AddTrait { entity, value } => Op::AddTrait { entity: entity.clone(), value: value.clone() },
            Op::RemoveTrait { entity, value } => Op::RemoveTrait {
                entity: entity.clone(),
                value: value.clone(),
            },
            Op::AddItem { entity, item } => Op::AddItem { entity: entity.clone(), item: item.clone() },
            Op::RemoveItem { entity, item } => Op::RemoveItem {
                entity: entity.clone(),
                item: item.clone(),
            },
            Op::Move { entity, location } => Op::Move {
                entity: entity.clone(),
                location: location.clone(),
            },
            Op::AddRel { entity, target, rel } => Op::AddRel {
                entity: entity.clone(),
                target: target.clone(),
                rel: rel.clone(),
            },
            Op::RemoveRel { entity, target } => Op::RemoveRel {
                entity: entity.clone(),
                target: target.clone(),
            },
            Op::SetBelief { entity, old, new } => Op::SetBelief {
                entity: entity.clone(),
                old: old.clone(),
                new: new.clone(),
            },
            Op::AddDesire { entity, value } => Op::AddDesire {
                entity: entity.clone(),
                value: value.clone(),
            },
            Op::RemoveDesire { entity, value } => Op::RemoveDesire {
                entity: entity.clone(),
                value: value.clone(),
            },
            Op::Reveal { secret, to } => Op::Reveal { secret: secret.clone(), to: to.clone() },
            Op::RevealToReader { secret } => Op::RevealToReader { secret: secret.clone() },
            Op::ResolveGoal { owner, goal_id, solution } => Op::ResolveGoal {
                owner: owner.clone(),
                goal_id: goal_id.clone(),
                solution: solution.clone(),
            },
            Op::FailGoal { owner, goal_id } => Op::FailGoal {
                owner: owner.clone(),
                goal_id: goal_id.clone(),
            },
            Op::EmergeGoal { owner, goal_id, want, problem } => Op::EmergeGoal {
                owner: owner.clone(),
                goal_id: goal_id.clone(),
                want: want.clone(),
                problem: clone_opt(problem),
            },
        }
    }

    /// Get the primary entity id this effect targets (if applicable).
    pub fn entity_id(&self) -> (r: Option<&str>)
        ensures
            r matches Some(s) ==> target_of(self@) == Some(s@),
            r is None ==> target_of(self@) is None,
    {
        match self {
            Op::AddTrait { entity, .. }
            | Op::RemoveTrait { entity, .. }
            | Op::AddItem { entity, .. }
            | Op::RemoveItem { entity, .. }
            | Op::Move { entity, .. }
            | Op::AddRel { entity, .. }
            | Op::RemoveRel { entity, .. }
            | Op::SetBelief { entity, .. }
            | Op::AddDesire { entity, .. }
            | Op::RemoveDesire { entity, .. } => Some(entity.as_str()),
            Op::Reveal { .. } | Op::RevealToReader { .. } => None,
            Op::ResolveGoal { owner, .. } | Op::FailGoal { owner, .. } | Op::EmergeGoal {
                owner,
                ..
            } => Some(owner.as_str()),
        }
    }

    /// Apply this effect to an entity. Returns true if applied.
    pub fn apply_to_entity(&self, entity: &mut Entity) -> (applied: bool)
        ensures
            applied == applies_to_entity(self@, old(entity)@),
            final(entity)@ == apply_entity(self@, old(entity)@),
    {
        let target_id = match self.entity_id() {
            Some(t) => t,
            None => return false,
        };
        if !str_eq(entity.id(), target_id) {
            return false;
        }
        if matches!(self, Op::Reveal { .. } | Op::RevealToReader { .. } | Op::ResolveGoal { .. } | Op::FailGoal { .. } | Op::EmergeGoal { .. }) {
            return false;
        }
        match entity {
            Entity::Character(c) => {
                apply_to_character(self, c);
                true
            },
            _ => false,
        }
    }

    /// Apply this effect to a secret. Returns true if applied.
    pub fn apply_to_secret(&self, secret: &mut Secret) -> (applied: bool)
        ensures
            applied == applies_to_secret(self@, old(secret)@),
            final(secret)@ == apply_secret(self@, old(secret)@),
    {
        match self {
            Op::Reveal { secret: sid, to } => {
                if str_eq(sid.as_str(), secret.id.as_str()) {
                    secret.reveal_to(to.as_str());
                    true
                } else {
                    false
                }
            },
            Op::RevealToReader { secret: sid } => {
                if str_eq(sid.as_str(), secret.id.as_str()) {
                    secret.reveal_to_reader();
                    true
                } else {
                    false
                }
            },
            _ => false,
        }
    }

    /// Apply this effect to a goal entity. Returns true if applied.
    pub fn apply_to_goal(&self, goal_entity: &mut GoalEntity) -> (applied: bool)
        ensures
            (applied, final(goal_entity)@) == apply_goal(self@, old(goal_entity)@),
    {
        match self {
            Op::ResolveGoal { owner, goal_id, solution } => {
                if str_eq(owner.as_str(), goal_entity.id.as_str()) {
                    update_goal_in(&mut goal_entity.goals, goal_id.as_str(), &Some(solution.clone()))
                } else {
                    false
                }
            },
            Op::FailGoal { owner, goal_id } => {
                if str_eq(owner.as_str(), goal_entity.id.as_str()) {
                    update_goal_in(&mut goal_entity.goals, goal_id.as_str(), &None)
                } else {
                    false
                }
            },
            Op::EmergeGoal { owner, goal_id, want, problem } => {
                if str_eq(owner.as_str(), goal_entity.id.as_str()) {
                    let g = Goal {
                        id: goal_id.clone(),
                        want: want.clone(),
                        problem: clone_opt(problem),
                        solution: None,
                        status: GoalStatus::Active,
                        blocked_by: Vec::new(),
                        conflicts_with: Vec::new(),
                        side_effects: Vec::new(),
                        children: Vec::new(),
                    };
                    let ghost prev = goal_entity.goals@;
                    assert(g@.children =~= Seq::<GoalV>::empty());
                    assert(g@.blocked_by =~= Seq::<Chars>::empty());
                    assert(g@.conflicts_with =~= Seq::<Chars>::empty());
                    assert(g@.side_effects =~= Seq::<Chars>::empty());
                    assert(g@ == new_goal(goal_id@, want@, ov(*problem)));
                    goal_entity.goals.push(g);
                    assert(goal_views(goal_entity.goals@) =~= goal_views(prev).push(
                        new_goal(goal_id@, want@, ov(*problem)),
                    ));
                    true
                } else {
                    false
                }
            },
            _ => false,
        }
    }

    /// Equality of two ops by their fields.
    pub fn same_as(&self, other: &Op) -> (r: bool)
        ensures
            r == (self@ == other@),
    {
        match (self, other) {
            (Op::AddTrait { entity: a, value: b }, Op::AddTrait { entity: c, value: d }) => eq2(a, b, c, d),
            (Op::RemoveTrait { entity: a, value: b }, Op::RemoveTrait { entity: c, value: d }) => eq2(a, b, c, d),
            (Op::AddItem { entity: a, item: b }, Op::AddItem { entity: c, item: d }) => eq2(a, b, c, d),
            (Op::RemoveItem { entity: a, item: b }, Op::RemoveItem { entity: c, item: d }) => eq2(a, b, c, d),
            (Op::Move { entity: a, location: b }, Op::Move { entity: c, location: d }) => eq2(a, b, c, d),
            (Op::AddRel { entity: a, target: b, rel: x }, Op::AddRel { entity: c, target: d, rel: y }) =>
                eq2(a, b, c, d) && eq1(x, y),
            (Op::RemoveRel { entity: a, target: b }, Op::RemoveRel { entity: c, target: d }) => eq2(a, b, c, d),
            (Op::SetBelief { entity: a, old: b, new: x }, Op::SetBelief { entity: c, old: d, new: y }) =>
                eq2(a, b, c, d) && eq1(x, y),
            (Op::AddDesire { entity: a, value: b }, Op::AddDesire { entity: c, value: d }) => eq2(a, b, c, d),
            (Op::RemoveDesire { entity: a, value: b }, Op::RemoveDesire { entity: c, value: d }) => eq2(a, b, c, d),
            (Op::Reveal { secret: a, to: b }, Op::Reveal { secret: c, to: d }) => eq2(a, b, c, d),
            (Op::RevealToReader { secret: a }, Op::RevealToReader { secret: c }) => eq1(a, c),
            (Op::ResolveGoal { owner: a, goal_id: b, solution: x }, Op::ResolveGoal { owner: c, goal_id: d, solution: y }) =>
                eq2(a, b, c, d) && eq1(x, y),
            (Op::FailGoal { owner: a, goal_id: b }, Op::FailGoal { owner: c, goal_id: d }) => eq2(a, b, c, d),
            (Op::EmergeGoal { owner: a, goal_id: b, want: x, problem: p }, Op::EmergeGoal { owner: c, goal_id: d, want: y, problem: q }) => {
                let same_problem = match (p, q) {
                    (Some(s), Some(t)) => eq1(s, t),
                    (None, None) => true,
                    _ => false,
                };
                eq2(a, b, c, d) && eq1(x, y) && same_problem
            },
            _ => false,
        }
    }
}

fn eq2(a: &String, b: &String, c: &String, d: &String) -> (r: bool)
    ensures
        r == (a@ == c@ && b@ == d@),
{
    str_eq(a.as_str(), c.as_str()) && str_eq(b.as_str(), d.as_str())
}

fn eq1(a: &String, c: &String) -> (r: bool)
    ensures
        r == (a@ == c@),
{
    str_eq(a.as_str(), c.as_str())
}

/// Whether some op in `ops` equals `op`.
pub fn contains_op(ops: &Vec<Op>, op: &Op) -> (r: bool)
    ensures
        r == op_views(ops@).contains(op@),
{
    let mut i: usize = 0;
    while i < ops.len()
        invariant
            i <= ops@.len(),
            forall|j: int| 0 <= j < i ==> ops@[j]@ != op@,
        decreases ops@.len() - i,
    {
        if ops[i].same_as(op) {
            assert(op_views(ops@)[i as int] == op@);
            return true;
        }
        i += 1;
    }
    assert(!op_views(ops@).contains(op@)) by {
        if op_views(ops@).contains(op@) {
            let k = choose|k: int| 0 <= k < op_views(ops@).len() && op_views(ops@)[k] == op@;
            assert(ops@[k]@ == op@);
        }
    }
    false
}

/// Copies a list of ops.
pub fn duplicate_ops(ops: &Vec<Op>) -> (r: Vec<Op>)
    ensures
        op_views(r@) == op_views(ops@),
{
    let mut r: Vec<Op> = Vec::new();
    let mut i: usize = 0;
    while i < ops.len()
        invariant
            i <= ops@.len(),
            op_views(r@) == op_views(ops@.take(i as int)),
        decreases ops@.len() - i,
    {
        let ghost prev = r@;
        r.push(ops[i].duplicate());
        assert(ops@.take(i + 1) == ops@.take(i as int).push(ops@[i as int]));
        assert(op_views(r@) =~= op_views(prev).push(ops@[i as int]@));
        assert(op_views(ops@.take(i + 1)) =~= op_views(ops@.take(i as int)).push(ops@[i as int]@));
        i += 1;
    }
    assert(ops@.take(ops@.len() as int) == ops@);
    r
}

// ── Description ─────────────────────────────────────────────────

/// Human-readable description (Chinese) of an op.
pub open spec fn describe_spec(op: OpV) -> Chars {
    match op {
        OpV::AddTrait { entity, value } => entity + ": 获得特质 \""@ + value + "\""@,
        OpV::RemoveTrait { entity, value } => entity + ": 失去特质 \""@ + value + "\""@,
        OpV::AddItem { entity, item } => entity + ": 获得物品 \""@ + item + "\""@,
        OpV::RemoveItem { entity, item } => entity + ": 失去物品 \""@ + item + "\""@,
        OpV::Move { entity, location } => entity + ": 移动至 "@ + location,
        OpV::AddRel { entity, target, rel } => entity + ": 新关系 "@ + rel + "("@ + target + ")"@,
        OpV::RemoveRel { entity, target } => entity + ": 断绝与 "@ + target + " 的关系"@,
        OpV::SetBelief { entity, old, new } => entity + ": 信念 \""@ + old + "\" → \""@ + new
            + "\""@,
        OpV::AddDesire { entity, value } => entity + ": 新欲望 \""@ + value + "\""@,
        OpV::RemoveDesire { entity, value } => entity + ": 放弃欲望 \""@ + value + "\""@,
        OpV::Reveal { secret, to } => "秘密 "@ + secret + " 揭示给 "@ + to,
        OpV::RevealToReader { secret } => "秘密 "@ + secret + " 揭示给读者"@,
        OpV::ResolveGoal { owner, goal_id, solution } => owner + "/"@ + goal_id + ": 解决 — \""@
            + solution + "\""@,
        OpV::FailGoal { owner, goal_id } => owner + "/"@ + goal_id + ": 失败"@,
        OpV::EmergeGoal { owner, goal_id, want, .. } => owner + ": 新目标 "@ + goal_id + " — \""@
            + want + "\""@,
    }
}

pub(crate) fn cat3(a: &str, b: &str, c: &str) -> (r: String)
    ensures
        r@ == a@ + b@ + c@,
{
    let mut r = String::new();
    push_str(&mut r, a);
    push_str(&mut r, b);
    push_str(&mut r, c);
    r
}

fn cat5(a: &str, b: &str, c: &str, d: &str, e: &str) -> (r: String)
    ensures
        r@ == a@ + b@ + c@ + d@ + e@,
{
    let mut r = String::new();
    push_str(&mut r, a);
    push_str(&mut r, b);
    push_str(&mut r, c);
    push_str(&mut r, d);
    push_str(&mut r, e);
    r
}

pub(crate) fn cat4(a: &str, b: &str, c: &str, d: &str) -> (r: String)
    ensures
        r@ == a@ + b@ + c@ + d@,
{
    let mut r = String::new();
    push_str(&mut r, a);
    push_str(&mut r, b);
    push_str(&mut r, c);
    push_str(&mut r, d);
    r
}

impl Op {
    /// Human-readable description (Chinese).
    pub fn describe(&self) -> (r: String)
        ensures
            r@ == describe_spec(self@),
    {
        match self {
            Op::AddTrait { entity, value } => cat4(entity.as_str(), ": 获得特质 \"", value.as_str(), "\""),
            Op::RemoveTrait { entity, value } => cat4(entity.as_str(), ": 失去特质 \"", value.as_str(), "\""),
            Op::AddItem { entity, item } => cat4(entity.as_str(), ": 获得物品 \"", item.as_str(), "\""),
            Op::RemoveItem { entity, item } => cat4(entity.as_str(), ": 失去物品 \"", item.as_str(), "\""),
            Op::Move { entity, location } => cat3(entity.as_str(), ": 移动至 ", location.as_str()),
            Op::AddRel { entity, target, rel } => {
                let mut r = cat4(entity.as_str(), ": 新关系 ", rel.as_str(), "(");
                push_str(&mut r, target.as_str());
                push_str(&mut r, ")");
                r
            },
            Op::RemoveRel { entity, target } => cat4(entity.as_str(), ": 断绝与 ", target.as_str(), " 的关系"),
            Op::SetBelief { entity, old, new } => {
                let mut r = cat4(entity.as_str(), ": 信念 \"", old.as_str(), "\" → \"");
                push_str(&mut r, new.as_str());
                push_str(&mut r, "\"");
                r
            },
            Op::AddDesire { entity, value } => cat4(entity.as_str(), ": 新欲望 \"", value.as_str(), "\""),
            Op::RemoveDesire { entity, value } => cat4(entity.as_str(), ": 放弃欲望 \"", value.as_str(), "\""),
            Op::Reveal { secret, to } => cat4("秘密 ", secret.as_str(), " 揭示给 ", to.as_str()),
            Op::RevealToReader { secret } => cat3("秘密 ", secret.as_str(), " 揭示给读者"),
            Op::ResolveGoal { owner, goal_id, solution } => {
                let mut r = cat4(owner.as_str(), "/", goal_id.as_str(), ": 解决 — \"");
                push_str(&mut r, solution.as_str());
                push_str(&mut r, "\"");
                r
            },
            Op::FailGoal { owner, goal_id } => cat4(owner.as_str(), "/", goal_id.as_str(), ": 失败"),
            Op::EmergeGoal { owner, goal_id, want, .. } => {
                let mut r = cat4(owner.as_str(), ": 新目标 ", goal_id.as_str(), " — \"");
                push_str(&mut r, want.as_str());
                push_str(&mut r, "\"");
                r
            },
        }
    }
}

// ── Referenced ids ───────────────────────────────────────────────

pub open spec fn entities_of(op: OpV) -> Seq<Chars> {
    match op {
        OpV::AddRel { entity, target, .. } => seq![entity, target],
        OpV::RemoveRel { entity, target } => seq![entity, target],
        OpV::Reveal { to, .. } => seq![to],
        OpV::RevealToReader { .. } => Seq::empty(),
        _ => seq![target_of(op)->0],
    }
}

pub open spec fn secrets_of(op: OpV) -> Seq<Chars> {
    match op {
        OpV::Reveal { secret, .. } => seq![secret],
        OpV::RevealToReader { secret } => seq![secret],
        _ => Seq::empty(),
    }
}

pub open spec fn str_views(v: Seq<&str>) -> Seq<Chars> {
    v.map_values(|s: &str| s@)
}

impl Op {
    /// All entity ids this effect refers to.
    pub fn extract_entities(&self) -> (r: Vec<&str>)
        ensures
            str_views(r@) == entities_of(self@),
    {
        let mut ids: Vec<&str> = Vec::new();
        match self {
            Op::AddRel { entity, target, .. } | Op::RemoveRel { entity, target } => {
                ids.push(entity.as_str());
                ids.push(target.as_str());
            },
            Op::Reveal { to, .. } => {
                ids.push(to.as_str());
            },
            Op::RevealToReader { .. } => {},
            Op::AddTrait { entity, .. }
            | Op::RemoveTrait { entity, .. }
            | Op::AddItem { entity, .. }
            | Op::RemoveItem { entity, .. }
            | Op::Move { entity, .. }
            | Op::SetBelief { entity, .. }
            | Op::AddDesire { entity, .. }
            | Op::RemoveDesire { entity, .. } => {
                ids.push(entity.as_str());
            },
            Op::ResolveGoal { owner, .. } | Op::FailGoal { owner, .. } | Op::EmergeGoal {
                owner,
                ..
            } => {
                ids.push(owner.as_str());
            },
        }
        assert(str_views(ids@) =~= entities_of(self@));
        ids
    }

    /// All secret ids this effect refers to.
    pub fn extract_secrets(&self) -> (r: Vec<&str>)
        ensures
            str_views(r@) == secrets_of(self@),
    {
        let mut ids: Vec<&str> = Vec::new();
        match self {
            Op::Reveal { secret, .. } | Op::RevealToReader { secret } => {
                ids.push(secret.as_str());
            },
            _ => {},
        }
        assert(str_views(ids@) =~= secrets_of(self@));
        ids
    }
}

// ── DSL parser ───────────────────────────────────────────────────

/// `str::splitn(3, ',')`.
pub open spec fn split3(s: Chars) -> Seq<Chars> {
    match find(s, ',') {
        None => seq![s],
        Some(i) => {
            let rest = s.skip(i + 1);
            match find(rest, ',') {
                None => seq![s.take(i), rest],
                Some(j) => seq![s.take(i), rest.take(j), rest.skip(j + 1)],
            }
        },
    }
}

pub open spec fn trim_all(s: Seq<Chars>) -> Seq<Chars> {
    s.map_values(|a: Chars| trim(a))
}

/// `name requires k args, got n`.
pub open spec fn arity_error(name: Chars, k: nat, got: nat) -> LedgerErrorV {
    LedgerErrorV::EffectParse(name + " requires "@ + dec(k) + " args, got "@ + dec(got))
}

/// The op a name builds from its arguments, each known name with its
/// number of required arguments.
pub open spec fn build_op(name: Chars, a: Seq<Chars>) -> Result<OpV, LedgerErrorV> {
    if name == "add_trait"@ {
        if a.len() < 2 {
            Err(arity_error(name, 2, a.len()))
        } else {
            Ok(OpV::AddTrait { entity: a[0], value: a[1] })
        }
    } else if name == "remove_trait"@ {
        if a.len() < 2 {
            Err(arity_error(name, 2, a.len()))
        } else {
            Ok(OpV::RemoveTrait { entity: a[0], value: a[1] })
        }
    } else if name == "add_item"@ {
        if a.len() < 2 {
            Err(arity_error(name, 2, a.len()))
        } else {
            Ok(OpV::AddItem { entity: a[0], item: a[1] })
        }
    } else if name == "remove_item"@ {
        if a.len() < 2 {
            Err(arity_error(name, 2, a.len()))
        } else {
            Ok(OpV::RemoveItem { entity: a[0], item: a[1] })
        }
    } else if name == "move"@ {
        if a.len() < 2 {
            Err(arity_error(name, 2, a.len()))
        } else {
            Ok(OpV::Move { entity: a[0], location: a[1] })
        }
    } else if name == "add_rel"@ {
        if a.len() < 3 {
            Err(arity_error(name, 3, a.len()))
        } else {
            Ok(OpV::AddRel { entity: a[0], target: a[1], rel: a[2] })
        }
    } else if name == "remove_rel"@ {
        if a.len() < 2 {
            Err(arity_error(name, 2, a.len()))
        } else {
            Ok(OpV::RemoveRel { entity: a[0], target: a[1] })
        }
    } else if name == "set_belief"@ {
        if a.len() < 3 {
            Err(arity_error(name, 3, a.len()))
        } else {
            Ok(OpV::SetBelief { entity: a[0], old: a[1], new: a[2] })
        }
    } else if name == "add_desire"@ {
        if a.len() < 2 {
            Err(arity_error(name, 2, a.len()))
        } else {
            Ok(OpV::AddDesire { entity: a[0], value: a[1] })
        }
    } else if name == "remove_desire"@ {
        if a.len() < 2 {
            Err(arity_error(name, 2, a.len()))
        } else {
            Ok(OpV::RemoveDesire { entity: a[0], value: a[1] })
        }
    } else if name == "reveal"@ {
        if a.len() < 2 {
            Err(arity_error(name, 2, a.len()))
        } else {
            Ok(OpV::Reveal { secret: a[0], to: a[1] })
        }
    } else if name == "reveal_to_reader"@ {
        if a.len() < 1 {
            Err(arity_error(name, 1, a.len()))
        } else {
            Ok(OpV::RevealToReader { secret: a[0] })
        }
    } else if name == "resolve_goal"@ {
        if a.len() < 3 {
            Err(arity_error(name, 3, a.len()))
        } else {
            Ok(OpV::ResolveGoal { owner: a[0], goal_id: a[1], solution: a[2] })
        }
    } else if name == "fail_goal"@ {
        if a.len() < 2 {
            Err(arity_error(name, 2, a.len()))
        } else {
            Ok(OpV::FailGoal { owner: a[0], goal_id: a[1] })
        }
    } else if name == "emerge_goal"@ {
        if a.len() < 3 {
            Err(arity_error(name, 3, a.len()))
        } else {
            Ok(OpV::EmergeGoal { owner: a[0], goal_id: a[1], want: a[2], problem: None })
        }
    } else {
        Err(LedgerErrorV::EffectParse("Unknown op: "@ + name))
    }
}

/// The result of parsing a DSL line: name before the first `(`, arguments
/// between it and the last `)`, split on the first two commas and trimmed.
pub open spec fn parse_spec(s: Chars) -> Result<OpV, LedgerErrorV> {
    let t = trim(s);
    match find(t, '(') {
        None => Err(LedgerErrorV::EffectParse("Missing '(' in: "@ + t)),
        Some(ps) => match rfind(t, ')') {
            None => Err(LedgerErrorV::EffectParse("Missing ')' in: "@ + t)),
            Some(pe) => {
                build_op(t.take(ps), trim_all(split3(t.subrange(ps + 1, pe))))
            },
        },
    }
}

/// Inputs on which slicing would panic: the last `)` stands before the first `(`.
pub open spec fn parse_panics(s: Chars) -> bool {
    let t = trim(s);
    match (find(t, '('), rfind(t, ')')) {
        (Some(ps), Some(pe)) => pe < ps,
        _ => false,
    }
}

fn sub_vec(v: &Vec<char>, lo: usize, hi: usize) -> (r: Vec<char>)
    requires
        lo <= hi <= v@.len(),
    ensures
        r@ == v@.subrange(lo as int, hi as int),
{
    let mut r: Vec<char> = Vec::new();
    let mut i = lo;
    while i < hi
        invariant
            lo <= i <= hi <= v@.len(),
            r@ == v@.subrange(lo as int, i as int),
        decreases hi - i,
    {
        r.push(v[i]);
        assert(v@.subrange(lo as int, i + 1) == v@.subrange(lo as int, i as int).push(v@[i as int]));
        i += 1;
    }
    r
}

fn trimmed(v: &Vec<char>) -> (r: Vec<char>)
    ensures
        r@ == trim(v@),
{
    let (lo, hi) = trim_bounds(v);
    sub_vec(v, lo, hi)
}

#[verifier::rlimit(40)]
fn split3_vec(inner: &Vec<char>) -> (parts: Vec<Vec<char>>)
    ensures
        parts@.len() == split3(inner@).len(),
        forall|m: int| 0 <= m < parts@.len() ==> (#[trigger] parts@[m])@ == split3(inner@)[m],
{
    let n = inner.len();
    let mut parts: Vec<Vec<char>> = Vec::new();
    assert(inner@.subrange(0, n as int) == inner@);
    match find_in(inner, 0, n, ',') {
        None => {
            parts.push(sub_vec(inner, 0, n));
        },
        Some(i) => {
            parts.push(sub_vec(inner, 0, i));
            assert(inner@.subrange(i + 1, n as int) == inner@.skip(i + 1));
            match find_in(inner, i + 1, n, ',') {
                None => {
                    parts.push(sub_vec(inner, i + 1, n));
                },
                Some(j) => {
                    parts.push(sub_vec(inner, i + 1, i + 1 + j));
                    parts.push(sub_vec(inner, i + 2 + j, n));
                    assert(inner@.subrange(i + 1, i + 1 + j) == inner@.skip(i + 1).take(j as int));
                    assert(inner@.subrange(i + 2 + j, n as int) == inner@.skip(i + 1).skip(j + 1));
                },
            }
        },
    }
    parts
}

fn split_args(inner: &Vec<char>) -> (r: Vec<String>)
    ensures
        views(r@) == trim_all(split3(inner@)),
{
    let parts = split3_vec(inner);
    let ghost sp = split3(inner@);
    let mut r: Vec<String> = Vec::new();
    let mut k: usize = 0;
    while k < parts.len()
        invariant
            k <= parts@.len(),
            parts@.len() == sp.len(),
            forall|m: int| 0 <= m < parts@.len() ==> (#[trigger] parts@[m])@ == sp[m],
            views(r@) == trim_all(sp.take(k as int)),
        decreases parts@.len() - k,
    {
        let t = trimmed(&parts[k]);
        let ghost prev = r@;
        r.push(string_from(&t, 0, t.len()));
        assert(t@.subrange(0, t@.len() as int) == t@);
        assert(views(r@) =~= views(prev).push(trim(sp[k as int])));
        assert(trim_all(sp.take(k + 1)) =~= trim_all(sp.take(k as int)).push(trim(sp[k as int])));
        k += 1;
    }
    assert(sp.take(parts@.len() as int) == sp);
    r
}

fn err(msg: String) -> (r: Result<Op, LedgerError>)
    ensures
        r matches Err(e) && e@ == LedgerErrorV::EffectParse(msg@),
{
    Err(LedgerError::EffectParse(msg))
}

fn arg(args: &Vec<String>, i: usize) -> (r: String)
    requires
        i < args@.len(),
    ensures
        r@ == args@[i as int]@,
{
    args[i].clone()
}

fn build_from(name: &String, args: &Vec<String>) -> (r: Result<Op, LedgerError>)
    ensures
        match r {
            Ok(op) => build_op(name@, views(args@)) == Ok::<OpV, LedgerErrorV>(op@),
            Err(e) => build_op(name@, views(args@)) == Err::<OpV, LedgerErrorV>(e@),
        },
{
    let nm = name.as_str();
    let n = args.len();
    if str_eq(nm, "add_trait") {
        if n < 2 {
            Err(LedgerError::EffectParse(arity_msg(name, 2, n)))
        } else {
            Ok(Op::AddTrait { entity: arg(args, 0), value: arg(args, 1) })
        }
    } else if str_eq(nm, "remove_trait") {
        if n < 2 {
            Err(LedgerError::EffectParse(arity_msg(name, 2, n)))
        } else {
            Ok(Op::RemoveTrait { entity: arg(args, 0), value: arg(args, 1) })
        }
    } else if str_eq(nm, "add_item") {
        if n < 2 {
            Err(LedgerError::EffectParse(arity_msg(name, 2, n)))
        } else {
            Ok(Op::AddItem { entity: arg(args, 0), item: arg(args, 1) })
        }
    } else if str_eq(nm, "remove_item") {
        if n < 2 {
            Err(LedgerError::EffectParse(arity_msg(name, 2, n)))
        } else {
            Ok(Op::RemoveItem { entity: arg(args, 0), item: arg(args, 1) })
        }
    } else if str_eq(nm, "move") {
        if n < 2 {
            Err(LedgerError::EffectParse(arity_msg(name, 2, n)))
        } else {
            Ok(Op::Move { entity: arg(args, 0), location: arg(args, 1) })
        }
    } else if str_eq(nm, "add_rel") {
        if n < 3 {
            Err(LedgerError::EffectParse(arity_msg(name, 3, n)))
        } else {
            Ok(Op::AddRel { entity: arg(args, 0), target: arg(args, 1), rel: arg(args, 2) })
        }
    } else if str_eq(nm, "remove_rel") {
        if n < 2 {
            Err(LedgerError::EffectParse(arity_msg(name, 2, n)))
        } else {
            Ok(Op::RemoveRel { entity: arg(args, 0), target: arg(args, 1) })
        }
    } else if str_eq(nm, "set_belief") {
        if n < 3 {
            Err(LedgerError::EffectParse(arity_msg(name, 3, n)))
        } else {
            Ok(Op::SetBelief { entity: arg(args, 0), old: arg(args, 1), new: arg(args, 2) })
        }
    } else if str_eq(nm, "add_desire") {
        if n < 2 {
            Err(LedgerError::EffectParse(arity_msg(name, 2, n)))
        } else {
            Ok(Op::AddDesire { entity: arg(args, 0), value: arg(args, 1) })
        }
    } else if str_eq(nm, "remove_desire") {
        if n < 2 {
            Err(LedgerError::EffectParse(arity_msg(name, 2, n)))
        } else {
            Ok(Op::RemoveDesire { entity: arg(args, 0), value: arg(args, 1) })
        }
    } else if str_eq(nm, "reveal") {
        if n < 2 {
            Err(LedgerError::EffectParse(arity_msg(name, 2, n)))
        } else {
            Ok(Op::Reveal { secret: arg(args, 0), to: arg(args, 1) })
        }
    } else if str_eq(nm, "reveal_to_reader") {
        if n < 1 {
            Err(LedgerError::EffectParse(arity_msg(name, 1, n)))
        } else {
            Ok(Op::RevealToReader { secret: arg(args, 0) })
        }
    } else if str_eq(nm, "resolve_goal") {
        if n < 3 {
            Err(LedgerError::EffectParse(arity_msg(name, 3, n)))
        } else {
            Ok(Op::ResolveGoal { owner: arg(args, 0), goal_id: arg(args, 1), solution: arg(args, 2) })
        }
    } else if str_eq(nm, "fail_goal") {
        if n < 2 {
            Err(LedgerError::EffectParse(arity_msg(name, 2, n)))
        } else {
            Ok(Op::FailGoal { owner: arg(args, 0), goal_id: arg(args, 1) })
        }
    } else if str_eq(nm, "emerge_goal") {
        if n < 3 {
            Err(LedgerError::EffectParse(arity_msg(name, 3, n)))
        } else {
            Ok(Op::EmergeGoal { owner: arg(args, 0), goal_id: arg(args, 1), want: arg(args, 2), problem: None })
        }
    } else {
        let mut m = owned("Unknown op: ");
        push_str(&mut m, nm);
        Err(LedgerError::EffectParse(m))
    }
}

fn missing_msg(prefix: &str, t: &Vec<char>) -> (m: String)
    ensures
        m@ == prefix@ + t@,
{
    let mut m = owned(prefix);
    let ts = string_from(t, 0, t.len());
    assert(t@.subrange(0, t@.len() as int) == t@);
    push_str(&mut m, ts.as_str());
    m
}

fn arity_msg(name: &String, k: usize, got: usize) -> (m: String)
    ensures
        m@ == name@ + " requires "@ + dec(k as nat) + " args, got "@ + dec(got as nat),
{
    let mut m = name.clone();
    push_str(&mut m, " requires ");
    push_dec(&mut m, k as u64);
    push_str(&mut m, " args, got ");
    push_dec(&mut m, got as u64);
    m
}

impl Op {
    /// Parse a DSL string like `remove_item(kian, 电磁短刀)`.
    pub fn parse(s: &str) -> (r: Result<Op, LedgerError>)
        requires
            !parse_panics(s@),
        ensures
            match r {
                Ok(op) => parse_spec(s@) == Ok::<OpV, LedgerErrorV>(op@),
                Err(e) => parse_spec(s@) == Err::<OpV, LedgerErrorV>(e@),
            },
    {
        let v = chars_of(s);
        let t = trimmed(&v);
        let n = t.len();
        let ghost tv = t@;
        assert(t@.subrange(0, n as int) == t@);
        let ps = match find_in(&t, 0, n, '(') {
            Some(p) => p,
            None => {
                return err(missing_msg("Missing '(' in: ", &t));
            },
        };
        let pe = match rfind_in(&t, 0, n, ')') {
            Some(p) => p,
            None => {
                return err(missing_msg("Missing ')' in: ", &t));
            },
        };
        let name = string_from(&t, 0, ps);
        assert(name@ == tv.take(ps as int));
        let inner = sub_vec(&t, ps + 1, pe);
        let args = split_args(&inner);
        build_from(&name, &args)
    }
}

// ── Laws ─────────────────────────────────────────────────────────

/// An op never changes an entity whose id it does not target.
pub proof fn lemma_apply_other_entity(op: OpV, e: EntityV)
    requires
        target_of(op) != Some(e.id()),
    ensures
        apply_entity(op, e) == e,
{
}

/// Applying an add-style op twice is the same as applying it once.
pub proof fn lemma_add_idempotent(op: OpV, e: EntityV)
    requires
        op is AddTrait || op is AddItem || op is AddDesire || op is Move || op is AddRel,
    ensures
        apply_entity(op, apply_entity(op, e)) == apply_entity(op, e),
{
    if applies_to_entity(op, e) {
        let c = e->Character_0;
        match op {
            OpV::AddTrait { value, .. } => lemma_add_unique_twice(c.traits, value),
            OpV::AddItem { item, .. } => lemma_add_unique_twice(c.inventory, item),
            OpV::AddDesire { value, .. } => lemma_add_unique_twice(c.desires, value),
            OpV::AddRel { target, rel, .. } => {
                if !has_rel(c.relationships, target, rel) {
                    let rs = c.relationships.push(new_rel(target, rel));
                    assert(rs[c.relationships.len() as int].target == target);
                }
            },
            _ => {},
        }
    }
}

proof fn lemma_add_unique_twice(s: Seq<Chars>, x: Chars)
    ensures
        add_unique(add_unique(s, x), x) == add_unique(s, x),
{
    if !s.contains(x) {
        assert(s.push(x)[s.len() as int] == x);
    }
}

/// After removing a value it is no longer present; adding then removing
/// leaves no copy of it.
pub proof fn lemma_remove_absent(s: Seq<Chars>, x: Chars)
    ensures
        !remove_all(s, x).contains(x),
        remove_all(add_unique(s, x), x) == remove_all(s, x),
{
    broadcast use vstd::seq_lib::group_filter_ensures;
    if remove_all(s, x).contains(x) {
        let i = choose|i: int| 0 <= i < remove_all(s, x).len() && remove_all(s, x)[i] == x;
        assert(ne_pred(x)(remove_all(s, x)[i]));
    }
    if !s.contains(x) {
        s.lemma_filter_push(x, ne_pred(x));
    }
}

// ── Laws of belief changes ───────────────────────────────────────

/// Changing a belief replaces it where it first stands and keeps every
/// other belief and every other field of the character; a belief that is
/// not held is added at the end.
pub proof fn lemma_set_belief_replaces(c: CharacterV, old: Chars, new: Chars)
    ensures
        apply_entity(OpV::SetBelief { entity: c.id, old, new }, EntityV::Character(c)) matches EntityV::Character(c2)
            && c2 == (CharacterV { beliefs: c2.beliefs, ..c }) && (c.beliefs.contains(old) ==> c2.beliefs.len()
            == c.beliefs.len() && forall|i: int|
            0 <= i < c.beliefs.len() && c.beliefs[i] == old && (forall|j: int| 0 <= j < i ==> c.beliefs[j] != old)
                ==> c2.beliefs[i] == new && forall|k: int|
                0 <= k < c.beliefs.len() && k != i ==> #[trigger] c2.beliefs[k] == c.beliefs[k]) && (
        !c.beliefs.contains(old) ==> c2.beliefs == c.beliefs.push(new)),
{
    let op = OpV::SetBelief { entity: c.id, old, new };
    assert(applies_to_entity(op, EntityV::Character(c)));
    crate::history::lemma_first_index_spec(c.beliefs, old);
    match first_index(c.beliefs, old) {
        Some(f) => {
            assert forall|i: int|
                0 <= i < c.beliefs.len() && c.beliefs[i] == old && (forall|j: int| 0 <= j < i ==> c.beliefs[j] != old)
                implies i == f by {
                if i < f {
                } else if i > f {
                    assert(c.beliefs[f] == old);
                }
            }
        },
        None => {
            assert(!c.beliefs.contains(old));
        },
    }
}

} // verus!
