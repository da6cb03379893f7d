//! Phase — the dramatic arc work unit with four-layer constraints
//! (ledger, resolver, executor, evaluator).
use vstd::prelude::*;

use crate::error::{LedgerError, LedgerErrorV};
use crate::text::{
    Chars, chars_of, find, find_in, is_call, is_call_at, owned, push_str, str_eq, string_from,
    views,
};

verus! {

broadcast use vstd::seq_lib::group_seq_properties;

/// Phase lifecycle: locked → ready → active → reviewing → approved.
#[derive(Debug, Clone, Copy, PartialEq, Eq, Structural)]
pub enum PhaseStatus {
    /// Some dependency is not yet approved.
    Locked,
    /// Ready to check out (all dependencies approved).
    Ready,
    /// Currently being worked on.
    Active,
    /// Submitted for review.
    Reviewing,
    /// Approved and permanently locked.
    Approved,
}

impl Default for PhaseStatus {
    fn default() -> (r: PhaseStatus)
        ensures
            r == PhaseStatus::Ready,
    {
        PhaseStatus::Ready
    }
}

#[derive(Debug, Clone, Copy, PartialEq, Eq, Structural)]
pub enum PhaseType {
    Narrative,
    Worldbuilding,
}

impl Default for PhaseType {
    fn default() -> (r: PhaseType)
        ensures
            r == PhaseType::Narrative,
    {
        PhaseType::Narrative
    }
}

#[derive(Debug, Clone, Copy, PartialEq, Eq, Structural)]
pub enum ConstraintSource {
    Manual,
    SynopsisDerived,
}

/// Worldbuilding entity count requirements.
#[derive(Debug, Clone, Copy, PartialEq, Eq, Structural)]
pub struct WorldbuildingCounts {
    pub characters: Option<u32>,
    pub locations: Option<u32>,
    pub factions: Option<u32>,
    pub secrets: Option<u32>,
}

impl Default for WorldbuildingCounts {
    fn default() -> (r: WorldbuildingCounts)
        ensures
            r == (WorldbuildingCounts { characters: None, locations: None, factions: None, secrets: None }),
    {
        WorldbuildingCounts { characters: None, locations: None, factions: None, secrets: None }
    }
}

/// A simple state assertion: a query such as `kian.location`,
/// `knows(kian, truth)` or `entity_alive(kian)`, and its expected value
/// (`true`/`false` for existence checks).
#[derive(Debug, PartialEq, Eq)]
pub struct StateAssertion {
    pub query: String,
    pub expected: String,
}

/// The expected value when none is given.
pub fn default_expected() -> (r: String)
    ensures
        r@ == "true"@,
{
    owned("true")
}

/// The supported field checks after `entity.`.
pub open spec fn valid_field(f: Chars) -> bool {
    ||| f == "location"@
    ||| f == "type"@
    ||| f == "name"@
    ||| is_call(f, "has_trait("@)
    ||| is_call(f, "rel("@)
    ||| is_call(f, "has_item("@)
}

/// The supported query patterns.
pub open spec fn valid_query(q: Chars) -> bool {
    ||| is_call(q, "entity_alive("@)
    ||| is_call(q, "knows("@)
    ||| match find(q, '.') {
        Some(d) => valid_field(q.skip(d + 1)),
        None => false,
    }
}

impl StateAssertion {
    /// Checks that the query matches one of the supported patterns.
    pub fn validate_syntax(&self) -> (r: Result<(), LedgerError>)
        ensures
            r is Ok <==> valid_query(self.query@),
            r matches Err(e) ==> e@ == LedgerErrorV::Parse(
                "Invalid StateAssertion syntax: "@ + self.query@,
            ),
    {
        let v = chars_of(self.query.as_str());
        let n = v.len();
        assert(v@.subrange(0, n as int) == v@);
        if is_call_at(&v, 0, n, "entity_alive(") {
            return Ok(());
        }
        if is_call_at(&v, 0, n, "knows(") {
            return Ok(());
        }
        match find_in(&v, 0, n, '.') {
            Some(d) => {
                assert(v@.skip(d + 1) == v@.subrange(d + 1, n as int));
                if field_ok(&v, d + 1, n) {
                    return Ok(());
                }
            },
            None => {},
        }
        let mut msg = owned("Invalid StateAssertion syntax: ");
        push_str(&mut msg, self.query.as_str());
        Err(LedgerError::Parse(msg))
    }
}

fn field_ok(v: &Vec<char>, lo: usize, hi: usize) -> (r: bool)
    requires
        lo <= hi <= v@.len(),
    ensures
        r == valid_field(v@.subrange(lo as int, hi as int)),
{
    let f = string_from(v.as_slice(), lo, hi);
    str_eq(f.as_str(), "location") || str_eq(f.as_str(), "type") || str_eq(f.as_str(), "name")
        || is_call_at(v, lo, hi, "has_trait(") || is_call_at(v, lo, hi, "rel(") || is_call_at(
        v,
        lo,
        hi,
        "has_item(",
    )
}

/// A planned beat within a phase's writing plan.
#[derive(Debug)]
pub struct BeatPlan {
    pub label: String,
    pub target_words: Option<u32>,
    pub effects: Vec<String>,
    pub guidance: Option<String>,
}

pub ghost struct BeatPlanV {
    pub label: Chars,
    pub target_words: Option<u32>,
    pub effects: Seq<Chars>,
    pub guidance: Option<Chars>,
}

impl View for BeatPlan {
    type V = BeatPlanV;

    open spec fn view(&self) -> BeatPlanV {
        BeatPlanV {
            label: self.label@,
            target_words: self.target_words,
            effects: views(self.effects@),
            guidance: match self.guidance {
                Some(g) => Some(g@),
                None => None,
            },
        }
    }
}

pub open spec fn plan_views(ps: Seq<BeatPlan>) -> Seq<BeatPlanV> {
    ps.map_values(|b: BeatPlan| b@)
}

impl BeatPlan {
    pub fn duplicate(&self) -> (r: BeatPlan)
        ensures
            r@ == self@,
    {
        BeatPlan {
            label: self.label.clone(),
            target_words: self.target_words,
            effects: crate::text::clone_strs(&self.effects),
            guidance: crate::text::clone_opt(&self.guidance),
        }
    }
}

/// L3 · Executor: text output control.
#[derive(Debug)]
pub struct ExecutorConstraints {
    /// (min, max) word count for the entire phase.
    pub words: Option<(u32, u32)>,
    /// (min, max) word count per beat.
    pub per_beat: Option<(u32, u32)>,
    /// POV character.
    pub pov: Option<String>,
    pub tone: Option<String>,
    /// Tone arc, e.g. "好奇 → 恐惧 → 震撼".
    pub tone_arc: Option<String>,
    /// Planned beats with guidance.
    pub writing_plan: Vec<BeatPlan>,
}

/// Per-layer status report.
#[derive(Debug, Clone, Copy, PartialEq, Eq, Structural)]
pub enum LayerStatus {
    /// All checks of the layer hold.
    Pass,
    Partial,
    InProgress,
    NeedsRevision,
    NotChecked,
}

#[derive(Debug)]
pub struct LedgerProgress {
    pub status: LayerStatus,
    pub invariants_passing: bool,
    pub exit_state_met: bool,
    pub exit_state_pending: Vec<String>,
}

#[derive(Debug)]
pub struct ResolverProgress {
    pub status: LayerStatus,
    /// "done/required", e.g. "5/8".
    pub effects: String,
    pub intents_done: Vec<String>,
    pub intents_pending: Vec<String>,
}

#[derive(Debug)]
pub struct ExecutorProgress {
    pub status: LayerStatus,
    /// e.g. "3500/5000-8000".
    pub words: String,
    /// e.g. "2/3".
    pub beats: String,
    pub beats_remaining: Vec<BeatPlan>,
}

/// A beat that readers scored low.
#[derive(Debug)]
pub struct LowBeat {
    pub beat: u32,
    pub score: u8,
    pub reason: Option<String>,
}

pub ghost struct LowBeatV {
    pub beat: u32,
    pub score: u8,
    pub reason: Option<Chars>,
}

impl View for LowBeat {
    type V = LowBeatV;

    open spec fn view(&self) -> LowBeatV {
        LowBeatV {
            beat: self.beat,
            score: self.score,
            reason: match self.reason {
                Some(g) => Some(g@),
                None => None,
            },
        }
    }
}

pub open spec fn low_views(ls: Seq<LowBeat>) -> Seq<LowBeatV> {
    ls.map_values(|l: LowBeat| l@)
}

impl LowBeat {
    pub fn duplicate(&self) -> (r: LowBeat)
        ensures
            r@ == self@,
    {
        LowBeat { beat: self.beat, score: self.score, reason: crate::text::clone_opt(&self.reason) }
    }
}

/// How completely a phase's constraints are defined.
#[derive(Debug, Clone, Copy, PartialEq, Eq, Structural)]
pub enum DefinitionStatus {
    Missing,
    Partial,
    Derived,
    Explicit,
}

} // verus!
