//! Phase progress: how far a phase is against its four layers of
//! constraints (world state, drama, writing, reader response), and what
//! still blocks it.
use vstd::prelude::*;

use crate::beat::{Beat, words_total};
use crate::constraint::{assertion_views, check_assertions, failures};
use crate::intent::{join_with, push_joined};
use crate::phase::{
    BeatPlan, BeatPlanV, low_views, plan_views, ConstraintSource, DefinitionStatus,
    ExecutorConstraints, ExecutorProgress, LayerStatus, LedgerProgress, LowBeat, ResolverProgress,
    StateAssertion,
};
use crate::snapshot::{Snapshot, SnapshotV};
use crate::text::{Chars, contains_str, dec, owned, push_dec, push_str, sorted_of, sorted_unique, views};

verus! {

broadcast use vstd::seq_lib::group_seq_properties;

/// The constraints of a phase as the progress check reads them.
#[derive(Debug)]
pub struct PhasePlan {
    pub id: String,
    pub constraint_source: Option<ConstraintSource>,
    /// L1: assertions that must hold after every beat.
    pub invariants: Vec<StateAssertion>,
    /// L1: assertions that must hold when the phase is submitted.
    pub exit_state: Vec<StateAssertion>,
    /// L1: whether minimum entity counts are set.
    pub has_min_entities: bool,
    /// L1: whether a minimum relationship density is set.
    pub has_min_rel_density: bool,
    /// L2: the dramatic intents required, each as its JSON text.
    pub intents: Vec<String>,
    pub min_effects: Option<u32>,
    pub min_relationship_changes: Option<u32>,
    /// L3.
    pub executor: ExecutorConstraints,
    /// L4: whether a minimum average score is set.
    pub has_min_avg_score: bool,
    pub max_boring_beats: Option<u32>,
    pub required_tags: Vec<String>,
}

/// What readers made of the phase.
#[derive(Debug)]
pub struct EvaluatorInput {
    pub annotations_count: u32,
    /// Whether the average score reaches the minimum (or none is set).
    pub avg_met: bool,
    /// The average score against the minimum, e.g. `2.5/3`.
    pub avg_summary: String,
    pub low_beats: Vec<LowBeat>,
    pub present_tags: Vec<String>,
}

// ── Which layers are defined ─────────────────────────────────────

pub open spec fn ledger_defined(p: PhasePlan) -> bool {
    p.invariants@.len() > 0 || p.exit_state@.len() > 0 || p.has_min_entities || p.has_min_rel_density
}

pub open spec fn resolver_defined(p: PhasePlan) -> bool {
    p.intents@.len() > 0 || p.min_effects is Some || p.min_relationship_changes is Some
}

pub open spec fn executor_defined(p: PhasePlan) -> bool {
    p.executor.words is Some || p.executor.per_beat is Some || p.executor.pov is Some || p.executor.tone is Some
        || p.executor.tone_arc is Some || p.executor.writing_plan@.len() > 0
}

pub open spec fn evaluator_defined(p: PhasePlan) -> bool {
    p.has_min_avg_score || p.max_boring_beats is Some || p.required_tags@.len() > 0
}

pub open spec fn one_if(b: bool) -> nat {
    if b {
        1
    } else {
        0
    }
}

pub open spec fn defined_layers(p: PhasePlan) -> nat {
    one_if(ledger_defined(p)) + one_if(resolver_defined(p)) + one_if(executor_defined(p)) + one_if(
        evaluator_defined(p),
    )
}

/// No layer defined: missing; all four: derived (from a synopsis) or
/// explicit; otherwise partial.
pub open spec fn definition_spec(p: PhasePlan) -> DefinitionStatus {
    let n = defined_layers(p);
    if n == 0 {
        DefinitionStatus::Missing
    } else if n == 4 {
        if p.constraint_source == Some(ConstraintSource::SynopsisDerived) {
            DefinitionStatus::Derived
        } else {
            DefinitionStatus::Explicit
        }
    } else {
        DefinitionStatus::Partial
    }
}

impl PhasePlan {
    pub fn has_ledger_constraints(&self) -> (r: bool)
        ensures
            r == ledger_defined(*self),
    {
        self.invariants.len() > 0 || self.exit_state.len() > 0 || self.has_min_entities || self.has_min_rel_density
    }

    pub fn has_resolver_constraints(&self) -> (r: bool)
        ensures
            r == resolver_defined(*self),
    {
        self.intents.len() > 0 || self.min_effects.is_some() || self.min_relationship_changes.is_some()
    }

    pub fn has_executor_constraints(&self) -> (r: bool)
        ensures
            r == executor_defined(*self),
    {
        self.executor.words.is_some() || self.executor.per_beat.is_some() || self.executor.pov.is_some()
            || self.executor.tone.is_some() || self.executor.tone_arc.is_some() || self.executor.writing_plan.len()
            > 0
    }

    pub fn has_evaluator_constraints(&self) -> (r: bool)
        ensures
            r == evaluator_defined(*self),
    {
        self.has_min_avg_score || self.max_boring_beats.is_some() || self.required_tags.len() > 0
    }

    pub fn has_any_constraints(&self) -> (r: bool)
        ensures
            r == (defined_layers(*self) > 0),
    {
        self.has_ledger_constraints() || self.has_resolver_constraints() || self.has_executor_constraints()
            || self.has_evaluator_constraints()
    }

    pub fn definition_status(&self) -> (r: DefinitionStatus)
        ensures
            r == definition_spec(*self),
    {
        let mut n: u32 = 0;
        if self.has_ledger_constraints() {
            n += 1;
        }
        if self.has_resolver_constraints() {
            n += 1;
        }
        if self.has_executor_constraints() {
            n += 1;
        }
        if self.has_evaluator_constraints() {
            n += 1;
        }
        if n == 0 {
            DefinitionStatus::Missing
        } else if n == 4 {
            match self.constraint_source {
                Some(ConstraintSource::SynopsisDerived) => DefinitionStatus::Derived,
                _ => DefinitionStatus::Explicit,
            }
        } else {
            DefinitionStatus::Partial
        }
    }
}

// ── L1 · world state ─────────────────────────────────────────────

pub open spec fn inv_failures(p: PhasePlan, s: SnapshotV) -> Seq<Chars> {
    failures(s, assertion_views(p.invariants@))
}

pub open spec fn exit_failures(p: PhasePlan, s: SnapshotV) -> Seq<Chars> {
    failures(s, assertion_views(p.exit_state@))
}

pub open spec fn ledger_ok(p: PhasePlan, s: SnapshotV, wb_ok: bool) -> bool {
    inv_failures(p, s).len() == 0 && exit_failures(p, s).len() == 0 && wb_ok
}

pub open spec fn ledger_status(p: PhasePlan, s: SnapshotV, wb_ok: bool) -> LayerStatus {
    if !ledger_defined(p) {
        LayerStatus::NotChecked
    } else if ledger_ok(p, s, wb_ok) {
        LayerStatus::Pass
    } else {
        LayerStatus::Partial
    }
}

pub open spec fn wb_line() -> spec_fn(Chars) -> Chars {
    |f: Chars| "L1 未通过：worldbuilding "@ + f
}

pub open spec fn if_seq(b: bool, x: Chars) -> Seq<Chars> {
    if b {
        seq![x]
    } else {
        Seq::empty()
    }
}

pub open spec fn ledger_blockers(p: PhasePlan, s: SnapshotV, wb_ok: bool, wb_failures: Seq<Chars>) -> Seq<Chars> {
    if !ledger_defined(p) {
        seq!["L1 未定义：缺少 invariants / exit_state"@]
    } else if ledger_ok(p, s, wb_ok) {
        Seq::empty()
    } else {
        if_seq(inv_failures(p, s).len() > 0, "L1 未通过：存在 invariant 违反"@) + if_seq(
            exit_failures(p, s).len() > 0,
            "L1 未通过：exit_state 尚未满足"@,
        ) + wb_failures.map_values(wb_line())
    }
}

fn push_owned(v: &mut Vec<String>, x: &str)
    ensures
        views(final(v)@) == views(old(v)@).push(x@),
{
    let ghost prev = v@;
    v.push(owned(x));
    assert(views(v@) =~= views(prev).push(x@));
}

fn append_strings(v: &mut Vec<String>, xs: &Vec<String>)
    ensures
        views(final(v)@) == views(old(v)@) + views(xs@),
{
    let ghost start = views(v@);
    let mut i: usize = 0;
    while i < xs.len()
        invariant
            i <= xs@.len(),
            views(v@) == start + views(xs@).take(i as int),
        decreases xs@.len() - i,
    {
        push_owned(v, xs[i].as_str());
        assert(views(xs@).take(i + 1) == views(xs@).take(i as int).push(xs@[i as int]@));
        i += 1;
    }
    assert(views(xs@).take(xs@.len() as int) == views(xs@));
}

fn ledger_layer(
    p: &PhasePlan,
    snapshot: &Snapshot,
    wb_ok: bool,
    wb_failures: &Vec<String>,
    blockers: &mut Vec<String>,
) -> (r: LedgerProgress)
    ensures
        r.status == ledger_status(*p, snapshot@, wb_ok),
        r.invariants_passing == (inv_failures(*p, snapshot@).len() == 0),
        r.exit_state_met == (exit_failures(*p, snapshot@).len() == 0),
        views(r.exit_state_pending@) == exit_failures(*p, snapshot@) + inv_failures(*p, snapshot@) + views(
            wb_failures@,
        ),
        views(final(blockers)@) == views(old(blockers)@) + ledger_blockers(*p, snapshot@, wb_ok, views(wb_failures@)),
{
    let (inv_ok, inv_f) = check_assertions(snapshot, &p.invariants);
    let (exit_ok, exit_f) = check_assertions(snapshot, &p.exit_state);
    assert(views(inv_f@) =~= inv_f@.map_values(|m: String| m@));
    assert(views(exit_f@) =~= exit_f@.map_values(|m: String| m@));
    let ghost start = views(blockers@);
    let status = if !p.has_ledger_constraints() {
        push_owned(blockers, "L1 未定义：缺少 invariants / exit_state");
        LayerStatus::NotChecked
    } else if inv_ok && exit_ok && wb_ok {
        LayerStatus::Pass
    } else {
        if !inv_ok {
            push_owned(blockers, "L1 未通过：存在 invariant 违反");
        }
        if !exit_ok {
            push_owned(blockers, "L1 未通过：exit_state 尚未满足");
        }
        let ghost mid = views(blockers@);
        let mut i: usize = 0;
        while i < wb_failures.len()
            invariant
                i <= wb_failures@.len(),
                views(blockers@) == mid + views(wb_failures@).take(i as int).map_values(wb_line()),
            decreases wb_failures@.len() - i,
        {
            let mut m = String::new();
            push_str(&mut m, "L1 未通过：worldbuilding ");
            push_str(&mut m, wb_failures[i].as_str());
            let ghost prev = blockers@;
            blockers.push(m);
            assert(views(wb_failures@).take(i + 1).map_values(wb_line()) =~= views(wb_failures@).take(
                i as int,
            ).map_values(wb_line()).push(wb_line()(wb_failures@[i as int]@)));
            assert(views(blockers@) =~= views(prev).push(wb_line()(wb_failures@[i as int]@)));
            i += 1;
        }
        assert(views(wb_failures@).take(wb_failures@.len() as int) == views(wb_failures@));
        LayerStatus::Partial
    };
    assert(views(blockers@) =~= start + ledger_blockers(*p, snapshot@, wb_ok, views(wb_failures@)));
    let mut pending: Vec<String> = Vec::new();
    append_strings(&mut pending, &exit_f);
    append_strings(&mut pending, &inv_f);
    append_strings(&mut pending, wb_failures);
    LedgerProgress { status, invariants_passing: inv_ok, exit_state_met: exit_ok, exit_state_pending: pending }
}

// ── L2 · drama ───────────────────────────────────────────────────

pub open spec fn min_effects_of(p: PhasePlan) -> u32 {
    match p.min_effects {
        Some(m) => m,
        None => 0,
    }
}

pub open spec fn resolver_status(p: PhasePlan, total: u32) -> LayerStatus {
    if !resolver_defined(p) {
        LayerStatus::NotChecked
    } else if p.intents@.len() > 0 {
        LayerStatus::Partial
    } else if total >= min_effects_of(p) {
        LayerStatus::Pass
    } else {
        LayerStatus::Partial
    }
}

pub open spec fn effects_text(p: PhasePlan, total: u32) -> Chars {
    dec(total as nat) + "/"@ + dec(min_effects_of(p) as nat)
}

pub open spec fn resolver_blockers(p: PhasePlan, total: u32) -> Seq<Chars> {
    if !resolver_defined(p) {
        seq!["L2 未定义：缺少 drama 约束"@]
    } else if p.intents@.len() > 0 {
        seq!["L2 存在 intents，但当前实现还不能验证它们"@]
    } else if total >= min_effects_of(p) {
        Seq::empty()
    } else {
        seq!["L2 未通过：effects "@ + effects_text(p, total)]
    }
}

fn push_ratio(s: &mut String, a: u32, b: u32)
    ensures
        final(s)@ == old(s)@ + dec(a as nat) + "/"@ + dec(b as nat),
{
    push_dec(s, a as u64);
    push_str(s, "/");
    push_dec(s, b as u64);
}

fn resolver_layer(p: &PhasePlan, total: u32, blockers: &mut Vec<String>) -> (r: ResolverProgress)
    ensures
        r.status == resolver_status(*p, total),
        r.effects@ == effects_text(*p, total),
        views(r.intents_pending@) == views(p.intents@),
        views(r.intents_done@) == if p.intents@.len() == 0 && resolver_defined(*p) {
            seq!["effects_budget_met"@]
        } else {
            Seq::empty()
        },
        views(final(blockers)@) == views(old(blockers)@) + resolver_blockers(*p, total),
{
    let min = match p.min_effects {
        Some(m) => m,
        None => 0,
    };
    let mut effects = String::new();
    push_ratio(&mut effects, total, min);
    let ghost start = views(blockers@);
    let status = if !p.has_resolver_constraints() {
        push_owned(blockers, "L2 未定义：缺少 drama 约束");
        LayerStatus::NotChecked
    } else if p.intents.len() > 0 {
        push_owned(blockers, "L2 存在 intents，但当前实现还不能验证它们");
        LayerStatus::Partial
    } else if total >= min {
        LayerStatus::Pass
    } else {
        let mut m = String::new();
        push_str(&mut m, "L2 未通过：effects ");
        push_str(&mut m, effects.as_str());
        let ghost prev = blockers@;
        blockers.push(m);
        assert(views(blockers@) =~= views(prev).push("L2 未通过：effects "@ + effects_text(*p, total)));
        LayerStatus::Partial
    };
    assert(views(blockers@) =~= start + resolver_blockers(*p, total));
    let mut pending: Vec<String> = Vec::new();
    append_strings(&mut pending, &p.intents);
    let mut done: Vec<String> = Vec::new();
    if p.intents.len() == 0 && p.has_resolver_constraints() {
        push_owned(&mut done, "effects_budget_met");
    }
    assert(views(done@) =~= if p.intents@.len() == 0 && resolver_defined(*p) {
        seq!["effects_budget_met"@]
    } else {
        Seq::<Chars>::empty()
    });
    ResolverProgress { status, effects, intents_done: done, intents_pending: pending }
}

// ── L3 · writing ─────────────────────────────────────────────────

pub open spec fn word_bounds(p: PhasePlan) -> (u32, u32) {
    match p.executor.words {
        Some(w) => w,
        None => (0, u32::MAX),
    }
}

pub open spec fn words_met(p: PhasePlan, tw: u32) -> bool {
    match p.executor.words {
        None => true,
        Some((a, b)) => tw >= a && tw <= b,
    }
}

pub open spec fn per_beat_met(p: PhasePlan, beats: Seq<Beat>) -> bool {
    match p.executor.per_beat {
        None => true,
        Some((a, b)) => beats.len() > 0 && forall|i: int|
            0 <= i < beats.len() ==> a <= (#[trigger] beats[i]).word_count <= b,
    }
}

pub open spec fn plan_count(p: PhasePlan) -> nat {
    p.executor.writing_plan@.len()
}

pub open spec fn planned_met(p: PhasePlan, bc: nat) -> bool {
    plan_count(p) == 0 || bc >= plan_count(p)
}

pub open spec fn soft_constraints(p: PhasePlan) -> bool {
    p.executor.pov is Some || p.executor.tone is Some || p.executor.tone_arc is Some
}

pub open spec fn executor_ok(p: PhasePlan, tw: u32, beats: Seq<Beat>) -> bool {
    words_met(p, tw) && per_beat_met(p, beats) && planned_met(p, beats.len())
}

pub open spec fn executor_status(p: PhasePlan, tw: u32, beats: Seq<Beat>) -> LayerStatus {
    if !executor_defined(p) {
        LayerStatus::NotChecked
    } else if soft_constraints(p) {
        LayerStatus::Partial
    } else if executor_ok(p, tw, beats) {
        LayerStatus::Pass
    } else {
        LayerStatus::InProgress
    }
}

pub open spec fn words_text(p: PhasePlan, tw: u32) -> Chars {
    dec(tw as nat) + "/"@ + dec(word_bounds(p).0 as nat) + "-"@ + dec(word_bounds(p).1 as nat)
}

pub open spec fn beats_text(p: PhasePlan, bc: nat) -> Chars {
    dec(bc) + "/"@ + dec(
        if plan_count(p) > 0 {
            plan_count(p)
        } else {
            bc
        },
    )
}

pub open spec fn executor_blockers(p: PhasePlan, tw: u32, beats: Seq<Beat>) -> Seq<Chars> {
    if !executor_defined(p) {
        seq!["L3 未定义：缺少 writing 约束"@]
    } else if soft_constraints(p) {
        seq!["L3 包含 POV / tone 软约束，当前实现还不能自动验证"@]
    } else if executor_ok(p, tw, beats) {
        Seq::empty()
    } else {
        if_seq(!words_met(p, tw), "L3 未通过：words "@ + words_text(p, tw)) + if_seq(
            !per_beat_met(p, beats),
            "L3 未通过：存在 beat 字数超出 per_beat 范围"@,
        ) + if_seq(
            !planned_met(p, beats.len()),
            "L3 未通过：beats "@ + dec(beats.len()) + "/"@ + dec(plan_count(p)),
        )
    }
}

/// The planned beats not written yet.
pub open spec fn remaining_plan(p: PhasePlan, bc: nat) -> Seq<BeatPlanV> {
    if bc < plan_count(p) {
        plan_views(p.executor.writing_plan@).skip(bc as int)
    } else {
        Seq::empty()
    }
}

#[verifier::loop_isolation(false)]
fn per_beat_ok(p: &PhasePlan, beats: &Vec<Beat>) -> (r: bool)
    ensures
        r == per_beat_met(*p, beats@),
{
    match p.executor.per_beat {
        None => true,
        Some((a, b)) => {
            if beats.len() == 0 {
                return false;
            }
            let mut i: usize = 0;
            while i < beats.len()
                invariant
                    i <= beats@.len(),
                    forall|j: int| 0 <= j < i ==> a <= (#[trigger] beats@[j]).word_count <= b,
                decreases beats@.len() - i,
            {
                if beats[i].word_count < a || beats[i].word_count > b {
                    assert(!(a <= beats@[i as int].word_count <= b));
                    return false;
                }
                i += 1;
            }
            true
        },
    }
}

fn executor_layer(p: &PhasePlan, beats: &Vec<Beat>, tw: u32, bc: u32, blockers: &mut Vec<String>) -> (r:
    ExecutorProgress)
    requires
        bc == beats@.len(),
        plan_count(*p) <= u32::MAX,
    ensures
        r.status == executor_status(*p, tw, beats@),
        r.words@ == words_text(*p, tw),
        r.beats@ == beats_text(*p, bc as nat),
        plan_views(r.beats_remaining@) == remaining_plan(*p, bc as nat),
        views(final(blockers)@) == views(old(blockers)@) + executor_blockers(*p, tw, beats@),
{
    let pc = p.executor.writing_plan.len() as u32;
    let (wmin, wmax) = match p.executor.words {
        Some(w) => w,
        None => (0, u32::MAX),
    };
    let words_ok = match p.executor.words {
        None => true,
        Some((a, b)) => tw >= a && tw <= b,
    };
    let per_ok = per_beat_ok(p, beats);
    let planned_ok = pc == 0 || bc >= pc;
    let soft = p.executor.pov.is_some() || p.executor.tone.is_some() || p.executor.tone_arc.is_some();
    let mut words = String::new();
    push_dec(&mut words, tw as u64);
    push_str(&mut words, "/");
    push_dec(&mut words, wmin as u64);
    push_str(&mut words, "-");
    push_dec(&mut words, wmax as u64);
    let mut beats_s = String::new();
    push_ratio(&mut beats_s, bc, if pc > 0 { pc } else { bc });
    let ghost start = views(blockers@);
    let status = if !p.has_executor_constraints() {
        push_owned(blockers, "L3 未定义：缺少 writing 约束");
        LayerStatus::NotChecked
    } else if soft {
        push_owned(blockers, "L3 包含 POV / tone 软约束，当前实现还不能自动验证");
        LayerStatus::Partial
    } else if words_ok && per_ok && planned_ok {
        LayerStatus::Pass
    } else {
        if !words_ok {
            let mut m = String::new();
            push_str(&mut m, "L3 未通过：words ");
            push_str(&mut m, words.as_str());
            let ghost prev = blockers@;
            blockers.push(m);
            assert(views(blockers@) =~= views(prev).push("L3 未通过：words "@ + words_text(*p, tw)));
        }
        let ghost s1 = views(blockers@);
        if !per_ok {
            push_owned(blockers, "L3 未通过：存在 beat 字数超出 per_beat 范围");
        }
        let ghost s2 = views(blockers@);
        if !planned_ok {
            let mut m = String::new();
            push_str(&mut m, "L3 未通过：beats ");
            push_ratio(&mut m, bc, pc);
            let ghost prev = blockers@;
            blockers.push(m);
            assert(views(blockers@) =~= views(prev).push(
                "L3 未通过：beats "@ + dec(beats@.len()) + "/"@ + dec(plan_count(*p)),
            ));
        }
        LayerStatus::InProgress
    };
    assert(views(blockers@) =~= start + executor_blockers(*p, tw, beats@));
    let mut remaining: Vec<BeatPlan> = Vec::new();
    if bc < pc {
        let mut i: usize = bc as usize;
        while i < p.executor.writing_plan.len()
            invariant
                bc <= i <= p.executor.writing_plan@.len(),
                plan_views(remaining@) == plan_views(p.executor.writing_plan@).subrange(bc as int, i as int),
            decreases p.executor.writing_plan@.len() - i,
        {
            let ghost prev = remaining@;
            remaining.push(p.executor.writing_plan[i].duplicate());
            assert(plan_views(remaining@) =~= plan_views(prev).push(p.executor.writing_plan@[i as int]@));
            assert(plan_views(p.executor.writing_plan@).subrange(bc as int, i + 1) =~= plan_views(
                p.executor.writing_plan@,
            ).subrange(bc as int, i as int).push(p.executor.writing_plan@[i as int]@));
            i += 1;
        }
        assert(plan_views(p.executor.writing_plan@).subrange(bc as int, p.executor.writing_plan@.len() as int)
            =~= plan_views(p.executor.writing_plan@).skip(bc as int));
    } else {
        assert(plan_views(remaining@) =~= Seq::<BeatPlanV>::empty());
    }
    ExecutorProgress { status, words, beats: beats_s, beats_remaining: remaining }
}

// ── L4 · readers ─────────────────────────────────────────────────

/// A string as its `Debug` form writes it (quoted and escaped).
pub uninterp spec fn debug_str(s: Seq<char>) -> Seq<char>;

/// Calls `format!("{:?}", s)`, std's `Debug` for `str`. Claimed: the
/// result is the form named `debug_str` of the argument; nothing more.
#[verifier::external_body]
fn debug_of(s: &str) -> (r: String)
    ensures
        r@ == debug_str(s@),
{
    format!("{:?}", s)
}

/// Reader-side progress of a phase (the average score itself stays with
/// the caller).
#[derive(Debug)]
pub struct EvaluatorProgress {
    pub status: LayerStatus,
    pub low_beats: Vec<LowBeat>,
    pub required_tags_missing: Vec<String>,
}

pub open spec fn not_present(present: Seq<Chars>) -> spec_fn(Chars) -> bool {
    |t: Chars| !present.contains(t)
}

pub open spec fn missing_tags(p: PhasePlan, e: EvaluatorInput) -> Seq<Chars> {
    views(p.required_tags@).filter(not_present(views(e.present_tags@)))
}

pub open spec fn debug_views() -> spec_fn(Chars) -> Chars {
    |t: Chars| debug_str(t)
}

/// A list of strings as `Debug` writes it: `["a", "b"]`.
pub open spec fn debug_list(ts: Seq<Chars>) -> Chars {
    "["@ + join_with(ts.map_values(debug_views()), ", "@) + "]"@
}

pub open spec fn max_boring(p: PhasePlan) -> u32 {
    match p.max_boring_beats {
        Some(m) => m,
        None => u32::MAX,
    }
}

pub open spec fn evaluator_ok(p: PhasePlan, e: EvaluatorInput) -> bool {
    e.avg_met && e.low_beats@.len() <= max_boring(p) && missing_tags(p, e).len() == 0
}

pub open spec fn evaluator_status(p: PhasePlan, e: EvaluatorInput) -> LayerStatus {
    if !evaluator_defined(p) {
        LayerStatus::NotChecked
    } else if e.annotations_count == 0 {
        LayerStatus::NotChecked
    } else if evaluator_ok(p, e) {
        LayerStatus::Pass
    } else {
        LayerStatus::NeedsRevision
    }
}

pub open spec fn evaluator_blockers(p: PhasePlan, e: EvaluatorInput) -> Seq<Chars> {
    if !evaluator_defined(p) {
        seq!["L4 未定义：缺少 reader 约束"@]
    } else if e.annotations_count == 0 {
        seq!["L4 未检查：当前 phase 尚无 annotations"@]
    } else if evaluator_ok(p, e) {
        Seq::empty()
    } else {
        if_seq(!e.avg_met, "L4 未通过：avg_score "@ + e.avg_summary@) + if_seq(
            e.low_beats@.len() > max_boring(p),
            "L4 未通过：low_beats "@ + dec(e.low_beats@.len()) + "/"@ + dec(max_boring(p) as nat),
        ) + if_seq(missing_tags(p, e).len() > 0, "L4 未通过：缺少 required_tags "@ + debug_list(missing_tags(p, e)))
    }
}

fn missing_tag_list(p: &PhasePlan, e: &EvaluatorInput) -> (r: Vec<String>)
    ensures
        views(r@) == missing_tags(*p, *e),
{
    let ghost rv = views(p.required_tags@);
    let ghost pred = not_present(views(e.present_tags@));
    let mut out: Vec<String> = Vec::new();
    let mut i: usize = 0;
    while i < p.required_tags.len()
        invariant
            i <= p.required_tags@.len(),
            rv == views(p.required_tags@),
            pred == not_present(views(e.present_tags@)),
            views(out@) == rv.take(i as int).filter(pred),
        decreases p.required_tags@.len() - i,
    {
        proof {
            assert(rv.take(i + 1) == rv.take(i as int).push(rv[i as int]));
            rv.take(i as int).lemma_filter_push(rv[i as int], pred);
        }
        if !contains_str(&e.present_tags, p.required_tags[i].as_str()) {
            push_owned(&mut out, p.required_tags[i].as_str());
        }
        i += 1;
    }
    assert(rv.take(p.required_tags@.len() as int) == rv);
    out
}

fn debug_strings(ts: &Vec<String>) -> (r: Vec<String>)
    ensures
        views(r@) == views(ts@).map_values(debug_views()),
{
    let mut out: Vec<String> = Vec::new();
    let mut i: usize = 0;
    while i < ts.len()
        invariant
            i <= ts@.len(),
            views(out@) == views(ts@).take(i as int).map_values(debug_views()),
        decreases ts@.len() - i,
    {
        let d = debug_of(ts[i].as_str());
        let ghost prev = out@;
        out.push(d);
        assert(views(out@) =~= views(prev).push(debug_str(ts@[i as int]@)));
        assert(views(ts@).take(i + 1).map_values(debug_views()) =~= views(ts@).take(i as int).map_values(
            debug_views(),
        ).push(debug_str(ts@[i as int]@)));
        i += 1;
    }
    assert(views(ts@).take(ts@.len() as int) == views(ts@));
    out
}

fn duplicate_lows(ls: &Vec<LowBeat>) -> (r: Vec<LowBeat>)
    ensures
        low_views(r@) == low_views(ls@),
{
    let mut out: Vec<LowBeat> = Vec::new();
    let mut i: usize = 0;
    while i < ls.len()
        invariant
            i <= ls@.len(),
            low_views(out@) == low_views(ls@).take(i as int),
        decreases ls@.len() - i,
    {
        let ghost prev = out@;
        out.push(ls[i].duplicate());
        assert(low_views(out@) =~= low_views(prev).push(ls@[i as int]@));
        assert(low_views(ls@).take(i + 1) =~= low_views(ls@).take(i as int).push(ls@[i as int]@));
        i += 1;
    }
    assert(low_views(ls@).take(ls@.len() as int) == low_views(ls@));
    out
}

fn evaluator_layer(p: &PhasePlan, e: &EvaluatorInput, blockers: &mut Vec<String>) -> (r: EvaluatorProgress)
    requires
        e.low_beats@.len() <= u32::MAX,
    ensures
        r.status == evaluator_status(*p, *e),
        low_views(r.low_beats@) == low_views(e.low_beats@),
        views(r.required_tags_missing@) == missing_tags(*p, *e),
        views(final(blockers)@) == views(old(blockers)@) + evaluator_blockers(*p, *e),
{
    let missing = missing_tag_list(p, e);
    let max_b = match p.max_boring_beats {
        Some(m) => m,
        None => u32::MAX,
    };
    let low = e.low_beats.len() as u32;
    let ghost start = views(blockers@);
    let status = if !p.has_evaluator_constraints() {
        push_owned(blockers, "L4 未定义：缺少 reader 约束");
        LayerStatus::NotChecked
    } else if e.annotations_count == 0 {
        push_owned(blockers, "L4 未检查：当前 phase 尚无 annotations");
        LayerStatus::NotChecked
    } else if e.avg_met && low <= max_b && missing.len() == 0 {
        LayerStatus::Pass
    } else {
        if !e.avg_met {
            let mut m = String::new();
            push_str(&mut m, "L4 未通过：avg_score ");
            push_str(&mut m, e.avg_summary.as_str());
            let ghost prev = blockers@;
            blockers.push(m);
            assert(views(blockers@) =~= views(prev).push("L4 未通过：avg_score "@ + e.avg_summary@));
        }
        if low > max_b {
            let mut m = String::new();
            push_str(&mut m, "L4 未通过：low_beats ");
            push_ratio(&mut m, low, max_b);
            let ghost prev = blockers@;
            blockers.push(m);
            assert(views(blockers@) =~= views(prev).push(
                "L4 未通过：low_beats "@ + dec(e.low_beats@.len()) + "/"@ + dec(max_boring(*p) as nat),
            ));
        }
        if missing.len() > 0 {
            let mut m = String::new();
            push_str(&mut m, "L4 未通过：缺少 required_tags ");
            push_str(&mut m, "[");
            let ds = debug_strings(&missing);
            push_joined(&mut m, &ds, ", ");
            push_str(&mut m, "]");
            assert(views(ds@) == missing_tags(*p, *e).map_values(debug_views()));
            assert(m@ =~= "L4 未通过：缺少 required_tags "@ + debug_list(missing_tags(*p, *e)));
            let ghost prev = blockers@;
            blockers.push(m);
            assert(views(blockers@) =~= views(prev).push(
                "L4 未通过：缺少 required_tags "@ + debug_list(missing_tags(*p, *e)),
            ));
        }
        LayerStatus::NeedsRevision
    };
    assert(views(blockers@) =~= start + evaluator_blockers(*p, *e));
    EvaluatorProgress { status, low_beats: duplicate_lows(&e.low_beats), required_tags_missing: missing }
}

// ── The whole phase ──────────────────────────────────────────────

/// Effects written across the beats.
pub open spec fn effects_total(bs: Seq<Beat>) -> int
    decreases bs.len(),
{
    if bs.len() == 0 {
        0
    } else {
        effects_total(bs.drop_last()) + bs.last().effects@.len()
    }
}

proof fn lemma_effects_prefix(bs: Seq<Beat>, i: int)
    requires
        0 <= i <= bs.len(),
    ensures
        effects_total(bs.take(i)) <= effects_total(bs),
    decreases bs.len(),
{
    if i < bs.len() {
        assert(bs.drop_last().take(i) == bs.take(i));
        lemma_effects_prefix(bs.drop_last(), i);
    } else {
        assert(bs.take(i) == bs);
    }
}

fn count_effects(beats: &Vec<Beat>) -> (r: u32)
    requires
        effects_total(beats@) <= u32::MAX,
    ensures
        r == effects_total(beats@),
{
    let mut total: u32 = 0;
    let mut i: usize = 0;
    while i < beats.len()
        invariant
            i <= beats@.len(),
            total == effects_total(beats@.take(i as int)),
            effects_total(beats@) <= u32::MAX,
        decreases beats@.len() - i,
    {
        assert(beats@.take(i + 1).drop_last() == beats@.take(i as int));
        proof { lemma_effects_prefix(beats@, i as int + 1); }
        total = total + beats[i].effects.len() as u32;
        i += 1;
    }
    assert(beats@.take(beats@.len() as int) == beats@);
    total
}

/// Where a phase stands, layer by layer.
#[derive(Debug)]
pub struct PhaseProgress {
    pub phase_id: String,
    pub complete: bool,
    pub definition_status: DefinitionStatus,
    pub beats: u32,
    pub words: u32,
    pub effects_count: u32,
    /// What still blocks the phase, sorted, each once.
    pub blockers: Vec<String>,
    pub ledger: LedgerProgress,
    pub resolver: ResolverProgress,
    pub executor: ExecutorProgress,
    pub evaluator: EvaluatorProgress,
}

/// The blockers of all four layers in layer order, before sorting.
pub open spec fn all_blockers(
    p: PhasePlan,
    s: SnapshotV,
    beats: Seq<Beat>,
    e: EvaluatorInput,
    wb_ok: bool,
    wb_failures: Seq<Chars>,
) -> Seq<Chars> {
    ledger_blockers(p, s, wb_ok, wb_failures) + resolver_blockers(p, effects_total(beats) as u32)
        + executor_blockers(p, words_total(beats) as u32, beats) + evaluator_blockers(p, e)
}

/// Complete: the constraints are fully defined and every layer passes.
pub open spec fn complete_spec(p: PhasePlan, s: SnapshotV, beats: Seq<Beat>, e: EvaluatorInput, wb_ok: bool) -> bool {
    (definition_spec(p) == DefinitionStatus::Derived || definition_spec(p) == DefinitionStatus::Explicit)
        && ledger_status(p, s, wb_ok) == LayerStatus::Pass
        && resolver_status(p, effects_total(beats) as u32) == LayerStatus::Pass
        && executor_status(p, words_total(beats) as u32, beats) == LayerStatus::Pass
        && evaluator_status(p, e) == LayerStatus::Pass
}

pub open spec fn progress_bounds(p: PhasePlan, beats: Seq<Beat>, e: EvaluatorInput) -> bool {
    &&& words_total(beats) <= u32::MAX
    &&& effects_total(beats) <= u32::MAX
    &&& beats.len() <= u32::MAX
    &&& plan_count(p) <= u32::MAX
    &&& e.low_beats@.len() <= u32::MAX
}

/// A phase is complete exactly when no layer reports a blocker, provided a
/// failed worldbuilding check names at least one failure.
pub proof fn lemma_complete_iff_unblocked(
    p: PhasePlan,
    s: SnapshotV,
    beats: Seq<Beat>,
    e: EvaluatorInput,
    wb_ok: bool,
    wb_failures: Seq<Chars>,
)
    requires
        !wb_ok ==> wb_failures.len() > 0,
    ensures
        complete_spec(p, s, beats, e, wb_ok) <==> all_blockers(p, s, beats, e, wb_ok, wb_failures).len() == 0,
{
    let tw = words_total(beats) as u32;
    let te = effects_total(beats) as u32;
    if all_blockers(p, s, beats, e, wb_ok, wb_failures).len() == 0 {
        assert(ledger_blockers(p, s, wb_ok, wb_failures).len() == 0);
        assert(resolver_blockers(p, te).len() == 0);
        assert(executor_blockers(p, tw, beats).len() == 0);
        assert(evaluator_blockers(p, e).len() == 0);
        if !ledger_ok(p, s, wb_ok) && ledger_defined(p) {
            assert(wb_failures.map_values(wb_line()).len() == wb_failures.len());
        }
        assert(defined_layers(p) == 4);
    }
}

impl PhasePlan {
    /// Evaluates the phase against its beats, the world state and what
    /// readers said. `wb_ok` and `wb_failures` are the outcome of the
    /// worldbuilding check (minimum entities, relationship density).
    pub fn evaluate_progress(
        &self,
        snapshot: &Snapshot,
        beats: &Vec<Beat>,
        evaluator: &EvaluatorInput,
        wb_ok: bool,
        wb_failures: &Vec<String>,
    ) -> (r: PhaseProgress)
        requires
            progress_bounds(*self, beats@, *evaluator),
        ensures
            r.phase_id@ == self.id@,
            r.definition_status == definition_spec(*self),
            r.beats == beats@.len(),
            r.words == words_total(beats@),
            r.effects_count == effects_total(beats@),
            r.complete == complete_spec(*self, snapshot@, beats@, *evaluator, wb_ok),
            views(r.blockers@) == sorted_of(all_blockers(*self, snapshot@, beats@, *evaluator, wb_ok, views(wb_failures@))),
            r.ledger.status == ledger_status(*self, snapshot@, wb_ok),
            r.ledger.invariants_passing == (inv_failures(*self, snapshot@).len() == 0),
            r.ledger.exit_state_met == (exit_failures(*self, snapshot@).len() == 0),
            views(r.ledger.exit_state_pending@) == exit_failures(*self, snapshot@) + inv_failures(*self, snapshot@)
                + views(wb_failures@),
            r.resolver.status == resolver_status(*self, r.effects_count),
            r.resolver.effects@ == effects_text(*self, r.effects_count),
            views(r.resolver.intents_pending@) == views(self.intents@),
            views(r.resolver.intents_done@) == if self.intents@.len() == 0 && resolver_defined(*self) {
                seq!["effects_budget_met"@]
            } else {
                Seq::empty()
            },
            r.executor.status == executor_status(*self, r.words, beats@),
            r.executor.words@ == words_text(*self, r.words),
            r.executor.beats@ == beats_text(*self, beats@.len()),
            plan_views(r.executor.beats_remaining@) == remaining_plan(*self, beats@.len()),
            r.evaluator.status == evaluator_status(*self, *evaluator),
            low_views(r.evaluator.low_beats@) == low_views(evaluator.low_beats@),
            views(r.evaluator.required_tags_missing@) == missing_tags(*self, *evaluator),
            (!wb_ok ==> wb_failures@.len() > 0) ==> (r.complete <==> r.blockers@.len() == 0),
    {
        let definition_status = self.definition_status();
        let mut raw: Vec<String> = Vec::new();
        let ghost b0 = views(raw@);
        let ledger = ledger_layer(self, snapshot, wb_ok, wb_failures, &mut raw);
        let total_effects = count_effects(beats);
        let resolver = resolver_layer(self, total_effects, &mut raw);
        let total_words = Beat::total_words(beats);
        let beat_count = beats.len() as u32;
        let executor = executor_layer(self, beats, total_words, beat_count, &mut raw);
        let evaluator_p = evaluator_layer(self, evaluator, &mut raw);
        assert(views(raw@) =~= all_blockers(*self, snapshot@, beats@, *evaluator, wb_ok, views(wb_failures@)));
        let complete = match definition_status {
            DefinitionStatus::Derived | DefinitionStatus::Explicit => true,
            _ => false,
        } && matches!(ledger.status, LayerStatus::Pass) && matches!(resolver.status, LayerStatus::Pass)
            && matches!(executor.status, LayerStatus::Pass) && matches!(evaluator_p.status, LayerStatus::Pass);
        let blockers = sorted_unique(&raw);
        proof {
            if !wb_ok ==> wb_failures@.len() > 0 {
                lemma_complete_iff_unblocked(*self, snapshot@, beats@, *evaluator, wb_ok, views(wb_failures@));
                if raw@.len() > 0 {
                    assert(views(raw@).contains(views(raw@)[0]));
                    assert(views(blockers@).contains(views(raw@)[0]));
                }
                if blockers@.len() > 0 {
                    assert(views(blockers@).contains(views(blockers@)[0]));
                    assert(views(raw@).contains(views(blockers@)[0]));
                }
            }
        }
        PhaseProgress {
            phase_id: owned(self.id.as_str()),
            complete,
            definition_status,
            beats: beat_count,
            words: total_words,
            effects_count: total_effects,
            blockers,
            ledger,
            resolver,
            executor,
            evaluator: evaluator_p,
        }
    }
}

} // verus!
