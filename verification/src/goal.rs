//! Desire engine: each character owns a recursive goal tree
//! (`want → problem → solution → children`); cross-character references
//! (`conflicts_with`, `blocked_by`, written `owner/goal_id`) make the
//! conflict graph.
use vstd::prelude::*;

use crate::text::{
    Chars, chars_of, clone_opt, clone_strs, escape_quotes, find, find_in, owned, push_escaped, push_quoted,
    push_str, quoted, string_from, views, str_eq, str_lt, lex_lt, contains_str,
};

verus! {

broadcast use vstd::seq_lib::group_seq_properties;

/// Status of a goal node in the desire tree.
#[derive(Debug, Clone, Copy, PartialEq, Eq, Structural)]
pub enum GoalStatus {
    Background,
    Active,
    Blocked,
    Resolved,
    Failed,
}

pub open spec fn status_label(s: GoalStatus) -> Chars {
    match s {
        GoalStatus::Background => "background"@,
        GoalStatus::Active => "active"@,
        GoalStatus::Blocked => "blocked"@,
        GoalStatus::Resolved => "resolved"@,
        GoalStatus::Failed => "failed"@,
    }
}

pub open spec fn status_icon(s: GoalStatus) -> Chars {
    match s {
        GoalStatus::Background => "◌"@,
        GoalStatus::Active => "●"@,
        GoalStatus::Blocked => "⊘"@,
        GoalStatus::Resolved => "✓"@,
        GoalStatus::Failed => "✗"@,
    }
}

impl GoalStatus {
    pub fn label(&self) -> (r: &'static str)
        ensures
            r@ == status_label(*self),
    {
        match self {
            GoalStatus::Background => "background",
            GoalStatus::Active => "active",
            GoalStatus::Blocked => "blocked",
            GoalStatus::Resolved => "resolved",
            GoalStatus::Failed => "failed",
        }
    }

    pub fn icon(&self) -> (r: &'static str)
        ensures
            r@ == status_icon(*self),
    {
        match self {
            GoalStatus::Background => "◌",
            GoalStatus::Active => "●",
            GoalStatus::Blocked => "⊘",
            GoalStatus::Resolved => "✓",
            GoalStatus::Failed => "✗",
        }
    }
}

/// A single goal node in a character's desire tree.
#[derive(Debug)]
pub struct Goal {
    pub id: String,
    pub want: String,
    pub problem: Option<String>,
    pub solution: Option<String>,
    pub status: GoalStatus,
    /// Cross-character blockers: `"owner/goal_id"`.
    pub blocked_by: Vec<String>,
    /// Cross-character conflicts: `"owner/goal_id"`.
    pub conflicts_with: Vec<String>,
    /// Side effects when this goal resolves.
    pub side_effects: Vec<String>,
    /// Recursive sub-goals.
    pub children: Vec<Goal>,
}

pub ghost struct GoalV {
    pub id: Chars,
    pub want: Chars,
    pub problem: Option<Chars>,
    pub solution: Option<Chars>,
    pub status: GoalStatus,
    pub blocked_by: Seq<Chars>,
    pub conflicts_with: Seq<Chars>,
    pub side_effects: Seq<Chars>,
    pub children: Seq<GoalV>,
}

/// The character view of an optional string.
pub open spec fn ov(o: Option<String>) -> Option<Chars> {
    match o {
        Some(s) => Some(s@),
        None => None,
    }
}

pub open spec fn goal_view(g: Goal) -> GoalV
    decreases g,
{
    GoalV {
        id: g.id@,
        want: g.want@,
        problem: ov(g.problem),
        solution: ov(g.solution),
        status: g.status,
        blocked_by: views(g.blocked_by@),
        conflicts_with: views(g.conflicts_with@),
        side_effects: views(g.side_effects@),
        children: Seq::new(
            g.children@.len(),
            |i: int|
                if 0 <= i < g.children@.len() {
                    goal_view(g.children@[i])
                } else {
                    arbitrary()
                },
        ),
    }
}

impl View for Goal {
    type V = GoalV;

    open spec fn view(&self) -> GoalV {
        goal_view(*self)
    }
}

/// The views of a sequence of goals.
pub open spec fn goal_views(gs: Seq<Goal>) -> Seq<GoalV> {
    gs.map_values(|g: Goal| g@)
}

pub proof fn lemma_children_view(g: Goal)
    ensures
        g@.children == goal_views(g.children@),
{
    assert(g@.children =~= goal_views(g.children@));
}

impl Goal {
    /// A deep copy of the goal tree.
    pub fn duplicate(&self) -> (r: Goal)
        ensures
            r@ == self@,
        decreases self,
    {
        let mut children: Vec<Goal> = Vec::new();
        let mut i: usize = 0;
        while i < self.children.len()
            invariant
                i <= self.children@.len(),
                children@.len() == i,
                forall|j: int| 0 <= j < i ==> (#[trigger] children@[j])@ == self.children@[j]@,
            decreases self.children@.len() - i,
        {
            let c = self.children[i].duplicate();
            children.push(c);
            i += 1;
        }
        let r = Goal {
            id: self.id.clone(),
            want: self.want.clone(),
            problem: clone_opt(&self.problem),
            solution: clone_opt(&self.solution),
            status: self.status,
            blocked_by: clone_strs(&self.blocked_by),
            conflicts_with: clone_strs(&self.conflicts_with),
            side_effects: clone_strs(&self.side_effects),
            children,
        };
        assert(r@.children =~= self@.children);
        r
    }

    /// This goal with its sub-goals removed.
    pub fn without_children(&self) -> (r: Goal)
        ensures
            r@ == (GoalV { children: Seq::empty(), ..self@ }),
    {
        let r = Goal {
            id: self.id.clone(),
            want: self.want.clone(),
            problem: clone_opt(&self.problem),
            solution: clone_opt(&self.solution),
            status: self.status,
            blocked_by: clone_strs(&self.blocked_by),
            conflicts_with: clone_strs(&self.conflicts_with),
            side_effects: clone_strs(&self.side_effects),
            children: Vec::new(),
        };
        assert(r@.children =~= Seq::<GoalV>::empty());
        r
    }
}

/// A character entity with its goal tree.
#[derive(Debug)]
pub struct GoalEntity {
    pub entity_type: String,
    pub id: String,
    pub name: Option<String>,
    pub goals: Vec<Goal>,
}

pub ghost struct GoalEntityV {
    pub entity_type: Chars,
    pub id: Chars,
    pub name: Option<Chars>,
    pub goals: Seq<GoalV>,
}

impl View for GoalEntity {
    type V = GoalEntityV;

    open spec fn view(&self) -> GoalEntityV {
        GoalEntityV {
            entity_type: self.entity_type@,
            id: self.id@,
            name: ov(self.name),
            goals: goal_views(self.goals@),
        }
    }
}

/// Copies a list of goal trees.
pub fn duplicate_goals(gs: &Vec<Goal>) -> (r: Vec<Goal>)
    ensures
        goal_views(r@) == goal_views(gs@),
{
    let mut r: Vec<Goal> = Vec::new();
    let mut i: usize = 0;
    while i < gs.len()
        invariant
            i <= gs@.len(),
            goal_views(r@) == goal_views(gs@.take(i as int)),
        decreases gs@.len() - i,
    {
        let ghost prev = r@;
        r.push(gs[i].duplicate());
        assert(gs@.take(i + 1) == gs@.take(i as int).push(gs@[i as int]));
        assert(goal_views(r@) =~= goal_views(prev).push(gs@[i as int]@));
        assert(goal_views(gs@.take(i + 1)) =~= goal_views(gs@.take(i as int)).push(gs@[i as int]@));
        i += 1;
    }
    assert(gs@.take(gs@.len() as int) == gs@);
    r
}

impl GoalEntity {
    pub fn duplicate(&self) -> (r: GoalEntity)
        ensures
            r@ == self@,
    {
        GoalEntity {
            entity_type: self.entity_type.clone(),
            id: self.id.clone(),
            name: clone_opt(&self.name),
            goals: duplicate_goals(&self.goals),
        }
    }
}

/// The views of a sequence of goal entities.
pub open spec fn goal_entity_views(es: Seq<GoalEntity>) -> Seq<GoalEntityV> {
    es.map_values(|e: GoalEntity| e@)
}

// ── Flattening ───────────────────────────────────────────────────

/// A goal node taken out of its tree, with its owner and depth.
#[derive(Debug)]
pub struct FlatGoal {
    pub owner: String,
    pub depth: usize,
    pub goal: Goal,
}

pub ghost struct FlatGoalV {
    pub owner: Chars,
    pub depth: nat,
    pub goal: GoalV,
}

impl View for FlatGoal {
    type V = FlatGoalV;

    open spec fn view(&self) -> FlatGoalV {
        FlatGoalV { owner: self.owner@, depth: self.depth as nat, goal: self.goal@ }
    }
}

impl FlatGoal {
    pub fn duplicate(&self) -> (r: FlatGoal)
        ensures
            r@ == self@,
    {
        FlatGoal { owner: self.owner.clone(), depth: self.depth, goal: self.goal.duplicate() }
    }
}

pub open spec fn flat_views(fs: Seq<FlatGoal>) -> Seq<FlatGoalV> {
    fs.map_values(|f: FlatGoal| f@)
}

/// Pre-order listing of goal trees `gs` at depth `d`: each node (without
/// its children) followed by the listing of its children at depth `d + 1`.
pub open spec fn flat_list(owner: Chars, gs: Seq<GoalV>, d: nat) -> Seq<FlatGoalV>
    decreases gs,
{
    if gs.len() == 0 {
        Seq::empty()
    } else {
        let g = gs.last();
        flat_list(owner, gs.drop_last(), d) + seq![
            FlatGoalV { owner, depth: d, goal: GoalV { children: Seq::empty(), ..g } },
        ] + flat_list(owner, g.children, d + 1)
    }
}

/// Height of a goal forest (0 for an empty one).
pub open spec fn height(gs: Seq<GoalV>) -> nat
    decreases gs,
{
    if gs.len() == 0 {
        0
    } else {
        let h1 = height(gs.drop_last());
        let h2 = 1 + height(gs.last().children);
        if h1 > h2 {
            h1
        } else {
            h2
        }
    }
}

pub proof fn lemma_height_prefix(gs: Seq<GoalV>, i: int)
    requires
        0 <= i < gs.len(),
    ensures
        height(gs.take(i)) <= height(gs),
        height(gs[i].children) + 1 <= height(gs),
    decreases gs.len(),
{
    if i < gs.len() - 1 {
        assert(gs.drop_last().take(i) == gs.take(i));
        assert(gs.drop_last()[i] == gs[i]);
        lemma_height_prefix(gs.drop_last(), i);
    } else {
        assert(gs.drop_last() == gs.take(i));
    }
}

/// Pushes the pre-order listing of `goals` onto `out`.
fn flatten_into(owner: &String, goals: &Vec<Goal>, depth: usize, out: &mut Vec<FlatGoal>)
    requires
        depth + height(goal_views(goals@)) <= usize::MAX,
    ensures
        flat_views(final(out)@) == flat_views(old(out)@) + flat_list(owner@, goal_views(goals@), depth as nat),
    decreases goals@,
{
    let ghost gv = goal_views(goals@);
    let ghost start = flat_views(out@);
    let mut i: usize = 0;
    while i < goals.len()
        invariant
            i <= goals@.len(),
            gv == goal_views(goals@),
            depth + height(gv) <= usize::MAX,
            flat_views(out@) == start + flat_list(owner@, gv.take(i as int), depth as nat),
        decreases goals@.len() - i,
    {
        let g = &goals[i];
        proof {
            lemma_height_prefix(gv, i as int);
            lemma_children_view(*g);
            assert(gv.take(i + 1).drop_last() == gv.take(i as int));
            assert(gv.take(i + 1).last() == g@);
        }
        let ghost prev = out@;
        let fg = FlatGoal { owner: owner.clone(), depth, goal: g.without_children() };
        let ghost fgv = fg@;
        out.push(fg);
        assert(flat_views(out@) =~= flat_views(prev).push(fgv));
        flatten_into(owner, &g.children, depth + 1, out);
        assert(flat_views(out@) =~= start + flat_list(owner@, gv.take(i + 1), depth as nat));
        i += 1;
    }
    assert(gv.take(goals@.len() as int) == gv);
}

/// Pre-order listing of every goal of every entity, entity by entity.
pub open spec fn flatten_spec(es: Seq<GoalEntityV>) -> Seq<FlatGoalV>
    decreases es.len(),
{
    if es.len() == 0 {
        Seq::empty()
    } else {
        flatten_spec(es.drop_last()) + flat_list(es.last().id, es.last().goals, 0)
    }
}

/// Every goal tree is shallower than the machine word allows.
pub open spec fn heights_ok(es: Seq<GoalEntityV>) -> bool {
    forall|i: int| 0 <= i < es.len() ==> height(#[trigger] es[i].goals) < usize::MAX
}

/// Flatten all goal trees across all characters.
pub fn flatten_all(entities: &Vec<GoalEntity>) -> (r: Vec<FlatGoal>)
    requires
        heights_ok(goal_entity_views(entities@)),
    ensures
        flat_views(r@) == flatten_spec(goal_entity_views(entities@)),
{
    let ghost ev = goal_entity_views(entities@);
    let mut out: Vec<FlatGoal> = Vec::new();
    let mut i: usize = 0;
    while i < entities.len()
        invariant
            i <= entities@.len(),
            ev == goal_entity_views(entities@),
            heights_ok(ev),
            flat_views(out@) == flatten_spec(ev.take(i as int)),
        decreases entities@.len() - i,
    {
        let e = &entities[i];
        proof {
            assert(ev.take(i + 1).drop_last() == ev.take(i as int));
            assert(ev[i as int] == e@);
            assert(height(ev[i as int].goals) < usize::MAX);
        }
        flatten_into(&e.id, &e.goals, 0, &mut out);
        i += 1;
    }
    assert(ev.take(entities@.len() as int) == ev);
    out
}

// ── Queries ──────────────────────────────────────────────────────

/// Suspense: an active goal with no solution yet.
pub open spec fn is_suspense(f: FlatGoalV) -> bool {
    f.goal.solution is None && f.goal.status == GoalStatus::Active
}

pub open spec fn suspense_pred() -> spec_fn(FlatGoalV) -> bool {
    |f: FlatGoalV| is_suspense(f)
}

/// Find all goals with no solution and status active (narrative suspense).
pub fn find_suspense(entities: &Vec<GoalEntity>) -> (r: Vec<FlatGoal>)
    requires
        heights_ok(goal_entity_views(entities@)),
    ensures
        flat_views(r@) == flatten_spec(goal_entity_views(entities@)).filter(suspense_pred()),
{
    let flat = flatten_all(entities);
    let ghost fv = flat_views(flat@);
    let mut r: Vec<FlatGoal> = Vec::new();
    let mut i: usize = 0;
    while i < flat.len()
        invariant
            i <= flat@.len(),
            fv == flat_views(flat@),
            flat_views(r@) == fv.take(i as int).filter(suspense_pred()),
        decreases flat@.len() - i,
    {
        assert(fv.take(i + 1) == fv.take(i as int).push(fv[i as int]));
        proof { fv.take(i as int).lemma_filter_push(fv[i as int], suspense_pred()); }
        let ghost prev = r@;
        if flat[i].goal.solution.is_none() && flat[i].goal.status == GoalStatus::Active {
            r.push(flat[i].duplicate());
            assert(flat_views(r@) =~= flat_views(prev).push(fv[i as int]));
        }
        i += 1;
    }
    assert(fv.take(flat@.len() as int) == fv);
    r
}

// ── Datalog translation ──────────────────────────────────────────

/// `"owner/goal"` split at its first `/`.
pub open spec fn split_ref(r: Chars) -> Option<(Chars, Chars)> {
    match find(r, '/') {
        Some(k) => Some((r.take(k), r.skip(k + 1))),
        None => None,
    }
}

/// `blocks(ref_owner, ref_goal, owner, goal).` for each well-formed blocker.
pub open spec fn blocks_facts(owner: Chars, q: Chars, refs: Seq<Chars>) -> Seq<Chars>
    decreases refs.len(),
{
    if refs.len() == 0 {
        Seq::empty()
    } else {
        blocks_facts(owner, q, refs.drop_last()) + match split_ref(refs.last()) {
            Some((o, g)) => seq!["blocks("@ + o + ", "@ + quoted(g) + ", "@ + owner + ", "@ + q + ")."@],
            None => Seq::empty(),
        }
    }
}

/// `conflicts(owner, goal, ref_owner, ref_goal).` for each well-formed reference.
pub open spec fn conflicts_facts(owner: Chars, q: Chars, refs: Seq<Chars>) -> Seq<Chars>
    decreases refs.len(),
{
    if refs.len() == 0 {
        Seq::empty()
    } else {
        conflicts_facts(owner, q, refs.drop_last()) + match split_ref(refs.last()) {
            Some((o, g)) => seq!["conflicts("@ + owner + ", "@ + q + ", "@ + o + ", "@ + quoted(g) + ")."@],
            None => Seq::empty(),
        }
    }
}

/// The facts of one goal node (not of its children).
pub open spec fn own_facts(owner: Chars, g: GoalV, parent: Option<Chars>) -> Seq<Chars> {
    let q = quoted(g.id);
    seq![
        "want("@ + owner + ", "@ + q + ", \""@ + escape_quotes(g.want) + "\")."@,
        "goal_status("@ + owner + ", "@ + q + ", "@ + status_label(g.status) + ")."@,
    ] + (if g.solution is Some {
        seq!["has_solution("@ + owner + ", "@ + q + ")."@]
    } else {
        Seq::empty()
    }) + (match g.problem {
        Some(p) => seq!["goal_problem("@ + owner + ", "@ + q + ", \""@ + escape_quotes(p) + "\")."@],
        None => Seq::empty(),
    }) + (match parent {
        Some(pid) => seq!["child_of("@ + q + ", "@ + quoted(pid) + ")."@],
        None => Seq::empty(),
    }) + blocks_facts(owner, q, g.blocked_by) + conflicts_facts(owner, q, g.conflicts_with)
}

/// The facts of a goal forest: each node's facts, then its children's.
pub open spec fn forest_facts(owner: Chars, gs: Seq<GoalV>, parent: Option<Chars>) -> Seq<Chars>
    decreases gs,
{
    if gs.len() == 0 {
        Seq::empty()
    } else {
        let g = gs.last();
        forest_facts(owner, gs.drop_last(), parent) + own_facts(owner, g, parent) + forest_facts(
            owner,
            g.children,
            Some(g.id),
        )
    }
}

pub open spec fn entities_facts(es: Seq<GoalEntityV>) -> Seq<Chars>
    decreases es.len(),
{
    if es.len() == 0 {
        Seq::empty()
    } else {
        entities_facts(es.drop_last()) + forest_facts(es.last().id, es.last().goals, None)
    }
}

fn push_ref_facts(out: &mut Vec<String>, owner: &String, id: &String, refs: &Vec<String>, blocks: bool)
    ensures
        views(final(out)@) == views(old(out)@) + if blocks {
            blocks_facts(owner@, quoted(id@), views(refs@))
        } else {
            conflicts_facts(owner@, quoted(id@), views(refs@))
        },
{
    let ghost start = views(out@);
    let ghost rv = views(refs@);
    let mut i: usize = 0;
    while i < refs.len()
        invariant
            i <= refs@.len(),
            rv == views(refs@),
            views(out@) == start + if blocks {
                blocks_facts(owner@, quoted(id@), rv.take(i as int))
            } else {
                conflicts_facts(owner@, quoted(id@), rv.take(i as int))
            },
        decreases refs@.len() - i,
    {
        assert(rv.take(i + 1).drop_last() == rv.take(i as int));
        assert(rv.take(i + 1).last() == refs@[i as int]@);
        let v = chars_of(refs[i].as_str());
        let n = v.len();
        assert(v@.subrange(0, n as int) == v@);
        match find_in(&v, 0, n, '/') {
            Some(k) => {
                let o = string_from(v.as_slice(), 0, k);
                let g = string_from(v.as_slice(), k + 1, n);
                assert(v@.take(k as int) == v@.subrange(0, k as int));
                assert(v@.skip(k + 1) == v@.subrange(k + 1, n as int));
                let mut f = String::new();
                if blocks {
                    push_str(&mut f, "blocks(");
                    push_str(&mut f, o.as_str());
                    push_str(&mut f, ", ");
                    push_quoted(&mut f, g.as_str());
                    push_str(&mut f, ", ");
                    push_str(&mut f, owner.as_str());
                    push_str(&mut f, ", ");
                    push_quoted(&mut f, id.as_str());
                    push_str(&mut f, ").");
                } else {
                    push_str(&mut f, "conflicts(");
                    push_str(&mut f, owner.as_str());
                    push_str(&mut f, ", ");
                    push_quoted(&mut f, id.as_str());
                    push_str(&mut f, ", ");
                    push_str(&mut f, o.as_str());
                    push_str(&mut f, ", ");
                    push_quoted(&mut f, g.as_str());
                    push_str(&mut f, ").");
                }
                let ghost prev = views(out@);
                out.push(f);
                assert(views(out@) =~= prev.push(f@));
            },
            None => {},
        }
        i += 1;
    }
    assert(rv.take(refs@.len() as int) == rv);
}

fn push_own_facts(out: &mut Vec<String>, owner: &String, g: &Goal, parent: Option<&String>)
    ensures
        views(final(out)@) == views(old(out)@) + own_facts(
            owner@,
            g@,
            match parent {
                Some(p) => Some(p@),
                None => None,
            },
        ),
{
    let ghost start = views(out@);
    let ghost q = quoted(g.id@);
    let mut f1 = owned("want(");
    push_str(&mut f1, owner.as_str());
    push_str(&mut f1, ", ");
    push_quoted(&mut f1, g.id.as_str());
    push_str(&mut f1, ", \"");
    let wv = chars_of(g.want.as_str());
    push_escaped(&mut f1, &wv);
    push_str(&mut f1, "\").");
    let mut f2 = owned("goal_status(");
    push_str(&mut f2, owner.as_str());
    push_str(&mut f2, ", ");
    push_quoted(&mut f2, g.id.as_str());
    push_str(&mut f2, ", ");
    push_str(&mut f2, g.status.label());
    push_str(&mut f2, ").");
    out.push(f1);
    out.push(f2);
    let ghost s1 = views(out@);
    assert(s1 =~= start + seq![f1@, f2@]);
    if g.solution.is_some() {
        let mut f = owned("has_solution(");
        push_str(&mut f, owner.as_str());
        push_str(&mut f, ", ");
        push_quoted(&mut f, g.id.as_str());
        push_str(&mut f, ").");
        let ghost prev = views(out@);
        out.push(f);
        assert(views(out@) =~= prev + seq![f@]);
    }
    let ghost s2 = views(out@);
    match &g.problem {
        Some(p) => {
            let mut f = owned("goal_problem(");
            push_str(&mut f, owner.as_str());
            push_str(&mut f, ", ");
            push_quoted(&mut f, g.id.as_str());
            push_str(&mut f, ", \"");
            let pv = chars_of(p.as_str());
            push_escaped(&mut f, &pv);
            push_str(&mut f, "\").");
            out.push(f);
            assert(views(out@) =~= s2 + seq![f@]);
        },
        None => {},
    }
    let ghost s3 = views(out@);
    match parent {
        Some(pid) => {
            let mut f = owned("child_of(");
            push_quoted(&mut f, g.id.as_str());
            push_str(&mut f, ", ");
            push_quoted(&mut f, pid.as_str());
            push_str(&mut f, ").");
            out.push(f);
            assert(views(out@) =~= s3 + seq![f@]);
        },
        None => {},
    }
    push_ref_facts(out, owner, &g.id, &g.blocked_by, true);
    push_ref_facts(out, owner, &g.id, &g.conflicts_with, false);
    assert(views(out@) =~= start + own_facts(
        owner@,
        g@,
        match parent {
            Some(p) => Some(p@),
            None => None,
        },
    ));
}

fn push_forest_facts(out: &mut Vec<String>, owner: &String, goals: &Vec<Goal>, parent: Option<&String>)
    ensures
        views(final(out)@) == views(old(out)@) + forest_facts(
            owner@,
            goal_views(goals@),
            match parent {
                Some(p) => Some(p@),
                None => None,
            },
        ),
    decreases goals@,
{
    let ghost gv = goal_views(goals@);
    let ghost pv: Option<Chars> = match parent {
        Some(p) => Some(p@),
        None => None,
    };
    let ghost start = views(out@);
    let mut i: usize = 0;
    while i < goals.len()
        invariant
            i <= goals@.len(),
            gv == goal_views(goals@),
            pv == match parent {
                Some(p) => Some(p@),
                None => None::<Chars>,
            },
            views(out@) == start + forest_facts(owner@, gv.take(i as int), pv),
        decreases goals@.len() - i,
    {
        let g = &goals[i];
        proof {
            lemma_children_view(*g);
            assert(gv.take(i + 1).drop_last() == gv.take(i as int));
            assert(gv.take(i + 1).last() == g@);
        }
        push_own_facts(out, owner, g, parent);
        push_forest_facts(out, owner, &g.children, Some(&g.id));
        assert(views(out@) =~= start + forest_facts(owner@, gv.take(i + 1), pv));
        i += 1;
    }
    assert(gv.take(goals@.len() as int) == gv);
}

/// All goal trees as Datalog facts, after a header line.
pub fn goals_to_datalog(entities: &Vec<GoalEntity>) -> (r: Vec<String>)
    ensures
        views(r@) == seq!["% === Goal Graph Facts ==="@] + entities_facts(goal_entity_views(entities@)),
{
    let ghost ev = goal_entity_views(entities@);
    let mut out: Vec<String> = Vec::new();
    out.push(owned("% === Goal Graph Facts ==="));
    let ghost head = views(out@);
    assert(head =~= seq!["% === Goal Graph Facts ==="@]);
    let mut i: usize = 0;
    while i < entities.len()
        invariant
            i <= entities@.len(),
            ev == goal_entity_views(entities@),
            views(out@) == head + entities_facts(ev.take(i as int)),
        decreases entities@.len() - i,
    {
        assert(ev.take(i + 1).drop_last() == ev.take(i as int));
        assert(ev[i as int] == entities@[i as int]@);
        push_forest_facts(&mut out, &entities[i].id, &entities[i].goals, None);
        assert(views(out@) =~= head + entities_facts(ev.take(i + 1)));
        i += 1;
    }
    assert(ev.take(entities@.len() as int) == ev);
    out
}

/// Built-in Datalog rules for goal graph reasoning.
pub fn goal_rules() -> (r: &'static str)
    ensures
        r@ == GOAL_RULES@,
{
    GOAL_RULES
}

pub const GOAL_RULES: &'static str = "% === Goal Reasoning Rules ===

% Suspense: active goal with no solution
suspense(?Owner, ?Goal) :-
  goal_status(?Owner, ?Goal, active),
  ~has_solution(?Owner, ?Goal).

% Active conflict: both sides active
active_conflict(?OA, ?GA, ?OB, ?GB) :-
  conflicts(?OA, ?GA, ?OB, ?GB),
  goal_status(?OA, ?GA, active),
  goal_status(?OB, ?GB, active).

% Unblocked: a blocked goal whose blocker has failed or resolved
unblocked(?Owner, ?Goal) :-
  goal_status(?Owner, ?Goal, blocked),
  blocks(?BOwner, ?BGoal, ?Owner, ?Goal),
  goal_status(?BOwner, ?BGoal, failed).

unblocked(?Owner, ?Goal) :-
  goal_status(?Owner, ?Goal, blocked),
  blocks(?BOwner, ?BGoal, ?Owner, ?Goal),
  goal_status(?BOwner, ?BGoal, resolved).

% Cascade: if a blocker resolves, what might unblock
would_unblock(?BOwner, ?BGoal, ?Owner, ?Goal) :-
  blocks(?BOwner, ?BGoal, ?Owner, ?Goal),
  goal_status(?Owner, ?Goal, blocked).
";

// ── Goal tree text ───────────────────────────────────────────────

/// `n` levels of two-space indentation.
pub open spec fn indent(n: nat) -> Chars
    decreases n,
{
    if n == 0 {
        Seq::empty()
    } else {
        indent((n - 1) as nat) + "  "@
    }
}

pub open spec fn node_head(g: GoalV, d: nat) -> Chars {
    indent(d + 1) + status_icon(g.status) + " "@ + g.id + ": "@ + g.want + " ["@ + status_label(g.status) + "]\n"@
}

pub open spec fn node_detail(g: GoalV, d: nat) -> Chars {
    (match g.problem {
        Some(p) => indent(d + 1) + "  问题: "@ + p + "\n"@,
        None => Seq::empty(),
    }) + (match g.solution {
        Some(x) => indent(d + 1) + "  解法: "@ + x + "\n"@,
        None => indent(d + 1) + "  解法: ???\n"@,
    })
}

pub open spec fn node_refs(g: GoalV, d: nat) -> Chars {
    ref_lines(indent(d + 1) + "  ⊘ blocked_by: "@, g.blocked_by) + ref_lines(
        indent(d + 1) + "  ⚔ conflicts: "@,
        g.conflicts_with,
    )
}

/// The lines of one goal node at depth `d` (not its children).
pub open spec fn node_text(g: GoalV, d: nat) -> Chars {
    node_head(g, d) + node_detail(g, d) + node_refs(g, d)
}

pub open spec fn ref_lines(prefix: Chars, rs: Seq<Chars>) -> Chars
    decreases rs.len(),
{
    if rs.len() == 0 {
        Seq::empty()
    } else {
        ref_lines(prefix, rs.drop_last()) + prefix + rs.last() + "\n"@
    }
}

/// A goal forest at depth `d`: each node, then its children one level deeper.
pub open spec fn tree_text(gs: Seq<GoalV>, d: nat) -> Chars
    decreases gs,
{
    if gs.len() == 0 {
        Seq::empty()
    } else {
        tree_text(gs.drop_last(), d) + node_text(gs.last(), d) + tree_text(gs.last().children, d + 1)
    }
}

pub open spec fn goal_tree_spec(e: GoalEntityV) -> Chars {
    e.id + " ("@ + (match e.name {
        Some(n) => n,
        None => e.id,
    }) + ") 目标树:\n\n"@ + tree_text(e.goals, 0)
}

fn push_indent(out: &mut String, n: usize)
    ensures
        final(out)@ == old(out)@ + indent(n as nat),
{
    let ghost start = out@;
    let mut i: usize = 0;
    while i < n
        invariant
            i <= n,
            out@ == start + indent(i as nat),
        decreases n - i,
    {
        push_str(out, "  ");
        i += 1;
    }
}

fn push_ref_lines(out: &mut String, d: usize, label: &str, rs: &Vec<String>)
    requires
        d < usize::MAX,
    ensures
        final(out)@ == old(out)@ + ref_lines(indent((d + 1) as nat) + label@, views(rs@)),
{
    let ghost start = out@;
    let ghost rv = views(rs@);
    let ghost prefix = indent((d + 1) as nat) + label@;
    let mut i: usize = 0;
    while i < rs.len()
        invariant
            i <= rs@.len(),
            d < usize::MAX,
            rv == views(rs@),
            prefix == indent((d + 1) as nat) + label@,
            out@ == start + ref_lines(prefix, rv.take(i as int)),
        decreases rs@.len() - i,
    {
        assert(rv.take(i + 1).drop_last() == rv.take(i as int));
        push_indent(out, d + 1);
        push_str(out, label);
        push_str(out, rs[i].as_str());
        push_str(out, "\n");
        i += 1;
    }
    assert(rv.take(rs@.len() as int) == rv);
}

fn push_head(out: &mut String, g: &Goal, d: usize)
    requires
        d < usize::MAX,
    ensures
        final(out)@ == old(out)@ + node_head(g@, d as nat),
{
    let ghost start = out@;
    push_indent(out, d + 1);
    push_str(out, g.status.icon());
    push_str(out, " ");
    push_str(out, g.id.as_str());
    push_str(out, ": ");
    push_str(out, g.want.as_str());
    push_str(out, " [");
    push_str(out, g.status.label());
    push_str(out, "]\n");
    assert(out@ =~= start + node_head(g@, d as nat));
}

fn push_detail(out: &mut String, g: &Goal, d: usize)
    requires
        d < usize::MAX,
    ensures
        final(out)@ == old(out)@ + node_detail(g@, d as nat),
{
    let ghost start = out@;
    match &g.problem {
        Some(p) => {
            push_indent(out, d + 1);
            push_str(out, "  问题: ");
            push_str(out, p.as_str());
            push_str(out, "\n");
        },
        None => {},
    }
    let ghost s1 = out@;
    match &g.solution {
        Some(x) => {
            push_indent(out, d + 1);
            push_str(out, "  解法: ");
            push_str(out, x.as_str());
            push_str(out, "\n");
        },
        None => {
            push_indent(out, d + 1);
            push_str(out, "  解法: ???\n");
        },
    }
    assert(out@ =~= start + node_detail(g@, d as nat));
}

fn push_node(out: &mut String, g: &Goal, d: usize)
    requires
        d < usize::MAX,
    ensures
        final(out)@ == old(out)@ + node_text(g@, d as nat),
{
    let ghost start = out@;
    push_head(out, g, d);
    push_detail(out, g, d);
    let ghost s2 = out@;
    push_ref_lines(out, d, "  ⊘ blocked_by: ", &g.blocked_by);
    push_ref_lines(out, d, "  ⚔ conflicts: ", &g.conflicts_with);
    assert(out@ =~= s2 + node_refs(g@, d as nat));
    assert(out@ =~= start + node_text(g@, d as nat));
}

fn push_tree(out: &mut String, goals: &Vec<Goal>, d: usize)
    requires
        d + height(goal_views(goals@)) < usize::MAX,
    ensures
        final(out)@ == old(out)@ + tree_text(goal_views(goals@), d as nat),
    decreases goals@,
{
    let ghost gv = goal_views(goals@);
    let ghost start = out@;
    let mut i: usize = 0;
    while i < goals.len()
        invariant
            i <= goals@.len(),
            gv == goal_views(goals@),
            d + height(gv) < usize::MAX,
            out@ == start + tree_text(gv.take(i as int), d as nat),
        decreases goals@.len() - i,
    {
        let g = &goals[i];
        proof {
            lemma_height_prefix(gv, i as int);
            lemma_children_view(*g);
            assert(gv.take(i + 1).drop_last() == gv.take(i as int));
            assert(gv.take(i + 1).last() == g@);
        }
        push_node(out, g, d);
        push_tree(out, &g.children, d + 1);
        assert(out@ =~= start + tree_text(gv.take(i + 1), d as nat));
        i += 1;
    }
    assert(gv.take(goals@.len() as int) == gv);
}

/// A character's goal tree as text.
pub fn render_goal_tree(entity: &GoalEntity) -> (r: String)
    requires
        height(entity@.goals) < usize::MAX,
    ensures
        r@ == goal_tree_spec(entity@),
{
    let mut out = entity.id.clone();
    push_str(&mut out, " (");
    match &entity.name {
        Some(n) => push_str(&mut out, n.as_str()),
        None => push_str(&mut out, entity.id.as_str()),
    }
    push_str(&mut out, ") 目标树:\n\n");
    push_tree(&mut out, &entity.goals, 0);
    out
}

// ── Unblocked goals and active conflicts ─────────────────────────

/// `owner/goal_id` of a flattened goal.
pub open spec fn key_of(f: FlatGoalV) -> Chars {
    f.owner + "/"@ + f.goal.id
}

/// The last flattened goal with the given key.
pub open spec fn last_with_key(fs: Seq<FlatGoalV>, k: Chars) -> Option<FlatGoalV>
    decreases fs.len(),
{
    if fs.len() == 0 {
        None
    } else if key_of(fs.last()) == k {
        Some(fs.last())
    } else {
        last_with_key(fs.drop_last(), k)
    }
}

pub open spec fn released(all: Seq<FlatGoalV>, b: Chars) -> bool {
    last_with_key(all, b) matches Some(o) && (o.goal.status == GoalStatus::Failed || o.goal.status
        == GoalStatus::Resolved)
}

/// The blockers of `f` that have failed or resolved, with `f`.
pub open spec fn released_blockers(all: Seq<FlatGoalV>, f: FlatGoalV, bs: Seq<Chars>) -> Seq<(FlatGoalV, Chars)>
    decreases bs.len(),
{
    if bs.len() == 0 {
        Seq::empty()
    } else {
        released_blockers(all, f, bs.drop_last()) + if released(all, bs.last()) {
            seq![(f, bs.last())]
        } else {
            Seq::empty()
        }
    }
}

/// Blocked goals paired with each of their blockers that has failed or
/// resolved, in order.
pub open spec fn unblocked_spec(all: Seq<FlatGoalV>, fs: Seq<FlatGoalV>) -> Seq<(FlatGoalV, Chars)>
    decreases fs.len(),
{
    if fs.len() == 0 {
        Seq::empty()
    } else {
        unblocked_spec(all, fs.drop_last()) + if fs.last().goal.status == GoalStatus::Blocked {
            released_blockers(all, fs.last(), fs.last().goal.blocked_by)
        } else {
            Seq::empty()
        }
    }
}

fn key_string(f: &FlatGoal) -> (r: String)
    ensures
        r@ == key_of(f@),
{
    let mut k = f.owner.clone();
    push_str(&mut k, "/");
    push_str(&mut k, f.goal.id.as_str());
    k
}

/// The last flattened goal with the given key.
fn find_key(flat: &Vec<FlatGoal>, k: &str) -> (r: Option<usize>)
    ensures
        match r {
            Some(i) => i < flat@.len() && last_with_key(flat_views(flat@), k@) == Some(flat@[i as int]@),
            None => last_with_key(flat_views(flat@), k@) is None,
        },
{
    let ghost fv = flat_views(flat@);
    let mut i: usize = flat.len();
    while i > 0
        invariant
            i <= flat@.len(),
            fv == flat_views(flat@),
            last_with_key(fv, k@) == last_with_key(fv.take(i as int), k@),
        decreases i,
    {
        assert(fv.take(i as int).drop_last() == fv.take(i - 1));
        assert(fv.take(i as int).last() == flat@[i - 1]@);
        let key = key_string(&flat[i - 1]);
        if str_eq(key.as_str(), k) {
            return Some(i - 1);
        }
        i -= 1;
    }
    None
}

fn is_released(flat: &Vec<FlatGoal>, b: &str) -> (r: bool)
    ensures
        r == released(flat_views(flat@), b@),
{
    match find_key(flat, b) {
        Some(i) => flat[i].goal.status == GoalStatus::Failed || flat[i].goal.status == GoalStatus::Resolved,
        None => false,
    }
}

pub open spec fn pair_views(ps: Seq<(FlatGoal, String)>) -> Seq<(FlatGoalV, Chars)> {
    ps.map_values(|p: (FlatGoal, String)| (p.0@, p.1@))
}

/// Blocked goals whose blockers have failed or resolved (newly unblocked),
/// each with the blocker.
pub fn find_unblocked(entities: &Vec<GoalEntity>) -> (r: Vec<(FlatGoal, String)>)
    requires
        heights_ok(goal_entity_views(entities@)),
    ensures
        pair_views(r@) == unblocked_spec(
            flatten_spec(goal_entity_views(entities@)),
            flatten_spec(goal_entity_views(entities@)),
        ),
{
    let flat = flatten_all(entities);
    let ghost fv = flat_views(flat@);
    let mut r: Vec<(FlatGoal, String)> = Vec::new();
    let mut i: usize = 0;
    while i < flat.len()
        invariant
            i <= flat@.len(),
            fv == flat_views(flat@),
            pair_views(r@) == unblocked_spec(fv, fv.take(i as int)),
        decreases flat@.len() - i,
    {
        assert(fv.take(i + 1).drop_last() == fv.take(i as int));
        assert(fv.take(i + 1).last() == flat@[i as int]@);
        let f = &flat[i];
        if f.goal.status == GoalStatus::Blocked {
            let ghost base = pair_views(r@);
            let ghost bv = views(f.goal.blocked_by@);
            proof { lemma_children_view(f.goal); }
            let mut j: usize = 0;
            while j < f.goal.blocked_by.len()
                invariant
                    j <= f.goal.blocked_by@.len(),
                    fv == flat_views(flat@),
                    bv == views(f.goal.blocked_by@),
                    bv == f@.goal.blocked_by,
                    pair_views(r@) == base + released_blockers(fv, f@, bv.take(j as int)),
                decreases f.goal.blocked_by@.len() - j,
            {
                assert(bv.take(j + 1).drop_last() == bv.take(j as int));
                assert(bv.take(j + 1).last() == f.goal.blocked_by@[j as int]@);
                let b = &f.goal.blocked_by[j];
                if is_released(&flat, b.as_str()) {
                    let ghost prev = pair_views(r@);
                    let item = (f.duplicate(), b.clone());
                    r.push(item);
                    assert(pair_views(r@) =~= prev.push((f@, b@)));
                    assert(pair_views(r@) =~= base + released_blockers(fv, f@, bv.take(j + 1)));
                }
                j += 1;
            }
            assert(bv.take(f.goal.blocked_by@.len() as int) == bv);
        }
        i += 1;
    }
    assert(fv.take(flat@.len() as int) == fv);
    r
}

/// The key of a conflict pair, the smaller key first.
pub open spec fn pair_key(a: Chars, b: Chars) -> Chars {
    if lex_lt(a, b) {
        a + "|"@ + b
    } else {
        b + "|"@ + a
    }
}

/// Conflicts declared by `f` (already known active) against `refs`, given
/// the pairs seen so far.
pub open spec fn conflicts_of(
    all: Seq<FlatGoalV>,
    f: FlatGoalV,
    refs: Seq<Chars>,
    seen: Set<Chars>,
) -> (Seq<(FlatGoalV, FlatGoalV)>, Set<Chars>)
    decreases refs.len(),
{
    if refs.len() == 0 {
        (Seq::empty(), seen)
    } else {
        let (res, sn) = conflicts_of(all, f, refs.drop_last(), seen);
        let c = refs.last();
        match last_with_key(all, c) {
            Some(o) => if o.goal.status == GoalStatus::Active && !sn.contains(pair_key(key_of(f), c)) {
                (res.push((f, o)), sn.insert(pair_key(key_of(f), c)))
            } else {
                (res, sn)
            },
            None => (res, sn),
        }
    }
}

/// Active goals paired with the active goals they conflict with, each
/// pair once (in the order first declared).
pub open spec fn conflicts_spec(all: Seq<FlatGoalV>, fs: Seq<FlatGoalV>) -> (Seq<(FlatGoalV, FlatGoalV)>, Set<Chars>)
    decreases fs.len(),
{
    if fs.len() == 0 {
        (Seq::empty(), Set::empty())
    } else {
        let (res, seen) = conflicts_spec(all, fs.drop_last());
        let f = fs.last();
        if f.goal.status == GoalStatus::Active {
            let (more, sn) = conflicts_of(all, f, f.goal.conflicts_with, seen);
            (res + more, sn)
        } else {
            (res, seen)
        }
    }
}

pub open spec fn conflict_views(ps: Seq<(FlatGoal, FlatGoal)>) -> Seq<(FlatGoalV, FlatGoalV)> {
    ps.map_values(|p: (FlatGoal, FlatGoal)| (p.0@, p.1@))
}

/// All active conflicts: pairs of active goals where one declares a
/// conflict with the other, each pair once.
pub fn find_active_conflicts(entities: &Vec<GoalEntity>) -> (r: Vec<(FlatGoal, FlatGoal)>)
    requires
        heights_ok(goal_entity_views(entities@)),
    ensures
        conflict_views(r@) == conflicts_spec(
            flatten_spec(goal_entity_views(entities@)),
            flatten_spec(goal_entity_views(entities@)),
        ).0,
{
    let flat = flatten_all(entities);
    let ghost fv = flat_views(flat@);
    let mut r: Vec<(FlatGoal, FlatGoal)> = Vec::new();
    let mut seen: Vec<String> = Vec::new();
    let mut i: usize = 0;
    while i < flat.len()
        invariant
            i <= flat@.len(),
            fv == flat_views(flat@),
            conflict_views(r@) == conflicts_spec(fv, fv.take(i as int)).0,
            views(seen@).to_set() == conflicts_spec(fv, fv.take(i as int)).1,
        decreases flat@.len() - i,
    {
        assert(fv.take(i + 1).drop_last() == fv.take(i as int));
        assert(fv.take(i + 1).last() == flat@[i as int]@);
        let f = &flat[i];
        if f.goal.status == GoalStatus::Active {
            let my_key = key_string(f);
            let ghost base = conflict_views(r@);
            let ghost seen0 = views(seen@).to_set();
            let ghost cv = views(f.goal.conflicts_with@);
            proof { lemma_children_view(f.goal); }
            let mut j: usize = 0;
            while j < f.goal.conflicts_with.len()
                invariant
                    j <= f.goal.conflicts_with@.len(),
                    fv == flat_views(flat@),
                    cv == views(f.goal.conflicts_with@),
                    cv == f@.goal.conflicts_with,
                    my_key@ == key_of(f@),
                    conflict_views(r@) == base + conflicts_of(fv, f@, cv.take(j as int), seen0).0,
                    views(seen@).to_set() == conflicts_of(fv, f@, cv.take(j as int), seen0).1,
                decreases f.goal.conflicts_with@.len() - j,
            {
                assert(cv.take(j + 1).drop_last() == cv.take(j as int));
                assert(cv.take(j + 1).last() == f.goal.conflicts_with@[j as int]@);
                let c = &f.goal.conflicts_with[j];
                match find_key(&flat, c.as_str()) {
                    Some(oi) => {
                        if flat[oi].goal.status == GoalStatus::Active {
                            let mut pk = String::new();
                            if str_lt(my_key.as_str(), c.as_str()) {
                                push_str(&mut pk, my_key.as_str());
                                push_str(&mut pk, "|");
                                push_str(&mut pk, c.as_str());
                            } else {
                                push_str(&mut pk, c.as_str());
                                push_str(&mut pk, "|");
                                push_str(&mut pk, my_key.as_str());
                            }
                            assert(pk@ == pair_key(key_of(f@), c@));
                            if !contains_str(&seen, pk.as_str()) {
                                let ghost prev_r = conflict_views(r@);
                                let ghost prev_s = views(seen@);
                                let item = (f.duplicate(), flat[oi].duplicate());
                                r.push(item);
                                assert(conflict_views(r@) =~= prev_r.push((f@, flat@[oi as int]@)));
                                seen.push(pk);
                                assert(views(seen@) =~= prev_s.push(pair_key(key_of(f@), c@)));
                                assert(views(seen@).to_set() =~= prev_s.to_set().insert(pair_key(key_of(f@), c@)));
                            } else {
                                assert(views(seen@).to_set().contains(pk@));
                            }
                        }
                    },
                    None => {},
                }
                j += 1;
            }
            assert(cv.take(f.goal.conflicts_with@.len() as int) == cv);
            assert(conflict_views(r@) =~= conflicts_spec(fv, fv.take(i + 1)).0);
        }
        i += 1;
    }
    assert(fv.take(flat@.len() as int) == fv);
    r
}

// ── Situation summary ────────────────────────────────────────────

pub open spec fn suspense_lines(fs: Seq<FlatGoalV>) -> Chars
    decreases fs.len(),
{
    if fs.len() == 0 {
        Seq::empty()
    } else {
        let f = fs.last();
        suspense_lines(fs.drop_last()) + "  ● "@ + f.owner + "/"@ + f.goal.id + " — "@ + (match f.goal.problem {
            Some(p) => p,
            None => "—"@,
        }) + "\n"@
    }
}

pub open spec fn unblocked_lines(ps: Seq<(FlatGoalV, Chars)>) -> Chars
    decreases ps.len(),
{
    if ps.len() == 0 {
        Seq::empty()
    } else {
        let (f, b) = ps.last();
        unblocked_lines(ps.drop_last()) + "  ★ "@ + f.owner + "/"@ + f.goal.id + " — blocker "@ + b + " 已失效\n"@
    }
}

pub open spec fn conflict_lines(ps: Seq<(FlatGoalV, FlatGoalV)>) -> Chars
    decreases ps.len(),
{
    if ps.len() == 0 {
        Seq::empty()
    } else {
        let (a, b) = ps.last();
        conflict_lines(ps.drop_last()) + "  ⚔ "@ + a.owner + "/"@ + a.goal.id + " ↔ "@ + b.owner + "/"@ + b.goal.id
            + "\n"@
    }
}

/// The situation summary: suspense, newly unblocked goals, active
/// conflicts, each section only when it has lines.
pub open spec fn plan_spec(
    susp: Seq<FlatGoalV>,
    unb: Seq<(FlatGoalV, Chars)>,
    conf: Seq<(FlatGoalV, FlatGoalV)>,
) -> Chars {
    "═══ 当前态势 ═══\n\n"@ + (if susp.len() > 0 {
        "悬念（active, solution=null）:\n"@ + suspense_lines(susp) + "\n"@
    } else {
        Seq::empty()
    }) + (if unb.len() > 0 {
        "刚解锁:\n"@ + unblocked_lines(unb) + "\n"@
    } else {
        Seq::empty()
    }) + (if conf.len() > 0 {
        "活跃冲突:\n"@ + conflict_lines(conf) + "\n"@
    } else {
        Seq::empty()
    }) + (if susp.len() == 0 && unb.len() == 0 && conf.len() == 0 {
        "  (无活跃态势 — 需要引入新的冲突或目标)\n"@
    } else {
        Seq::empty()
    })
}

fn push_suspense(out: &mut String, fs: &Vec<FlatGoal>)
    ensures
        final(out)@ == old(out)@ + suspense_lines(flat_views(fs@)),
{
    let ghost start = out@;
    let ghost fv = flat_views(fs@);
    let mut i: usize = 0;
    while i < fs.len()
        invariant
            i <= fs@.len(),
            fv == flat_views(fs@),
            out@ == start + suspense_lines(fv.take(i as int)),
        decreases fs@.len() - i,
    {
        assert(fv.take(i + 1).drop_last() == fv.take(i as int));
        assert(fv.take(i + 1).last() == fs@[i as int]@);
        let f = &fs[i];
        push_str(out, "  ● ");
        push_str(out, f.owner.as_str());
        push_str(out, "/");
        push_str(out, f.goal.id.as_str());
        push_str(out, " — ");
        match &f.goal.problem {
            Some(p) => push_str(out, p.as_str()),
            None => push_str(out, "—"),
        }
        push_str(out, "\n");
        i += 1;
    }
    assert(fv.take(fs@.len() as int) == fv);
}

fn push_unblocked(out: &mut String, ps: &Vec<(FlatGoal, String)>)
    ensures
        final(out)@ == old(out)@ + unblocked_lines(pair_views(ps@)),
{
    let ghost start = out@;
    let ghost pv = pair_views(ps@);
    let mut i: usize = 0;
    while i < ps.len()
        invariant
            i <= ps@.len(),
            pv == pair_views(ps@),
            out@ == start + unblocked_lines(pv.take(i as int)),
        decreases ps@.len() - i,
    {
        assert(pv.take(i + 1).drop_last() == pv.take(i as int));
        assert(pv.take(i + 1).last() == (ps@[i as int].0@, ps@[i as int].1@));
        let (f, b) = &ps[i];
        push_str(out, "  ★ ");
        push_str(out, f.owner.as_str());
        push_str(out, "/");
        push_str(out, f.goal.id.as_str());
        push_str(out, " — blocker ");
        push_str(out, b.as_str());
        push_str(out, " 已失效\n");
        i += 1;
    }
    assert(pv.take(ps@.len() as int) == pv);
}

fn push_conflicts(out: &mut String, ps: &Vec<(FlatGoal, FlatGoal)>)
    ensures
        final(out)@ == old(out)@ + conflict_lines(conflict_views(ps@)),
{
    let ghost start = out@;
    let ghost pv = conflict_views(ps@);
    let mut i: usize = 0;
    while i < ps.len()
        invariant
            i <= ps@.len(),
            pv == conflict_views(ps@),
            out@ == start + conflict_lines(pv.take(i as int)),
        decreases ps@.len() - i,
    {
        assert(pv.take(i + 1).drop_last() == pv.take(i as int));
        assert(pv.take(i + 1).last() == (ps@[i as int].0@, ps@[i as int].1@));
        let (a, b) = &ps[i];
        push_str(out, "  ⚔ ");
        push_str(out, a.owner.as_str());
        push_str(out, "/");
        push_str(out, a.goal.id.as_str());
        push_str(out, " ↔ ");
        push_str(out, b.owner.as_str());
        push_str(out, "/");
        push_str(out, b.goal.id.as_str());
        push_str(out, "\n");
        i += 1;
    }
    assert(pv.take(ps@.len() as int) == pv);
}

/// The situation summary (suspense, newly unblocked, active conflicts).
pub fn render_plan(entities: &Vec<GoalEntity>) -> (r: String)
    requires
        heights_ok(goal_entity_views(entities@)),
    ensures
        ({
            let all = flatten_spec(goal_entity_views(entities@));
            r@ == plan_spec(all.filter(suspense_pred()), unblocked_spec(all, all), conflicts_spec(all, all).0)
        }),
{
    let mut out = owned("═══ 当前态势 ═══\n\n");
    let ghost s0 = out@;
    let suspense = find_suspense(entities);
    if suspense.len() > 0 {
        push_str(&mut out, "悬念（active, solution=null）:\n");
        push_suspense(&mut out, &suspense);
        push_str(&mut out, "\n");
    }
    let ghost s1 = out@;
    let unblocked = find_unblocked(entities);
    if unblocked.len() > 0 {
        push_str(&mut out, "刚解锁:\n");
        push_unblocked(&mut out, &unblocked);
        push_str(&mut out, "\n");
    }
    let ghost s2 = out@;
    let conflicts = find_active_conflicts(entities);
    if conflicts.len() > 0 {
        push_str(&mut out, "活跃冲突:\n");
        push_conflicts(&mut out, &conflicts);
        push_str(&mut out, "\n");
    }
    let ghost s3 = out@;
    if suspense.len() == 0 && unblocked.len() == 0 && conflicts.len() == 0 {
        push_str(&mut out, "  (无活跃态势 — 需要引入新的冲突或目标)\n");
    }
    let ghost all = flatten_spec(goal_entity_views(entities@));
    assert(out@ =~= plan_spec(all.filter(suspense_pred()), unblocked_spec(all, all), conflicts_spec(all, all).0));
    out
}

} // verus!
