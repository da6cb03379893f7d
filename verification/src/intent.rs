//! Dramatic intents: what the director wants a chapter to achieve. They
//! describe goals, not how to write them.
use vstd::prelude::*;
use vstd::string::StrSliceExecFns;

use crate::text::{Chars, chars_of, find, find_in, push_str, views};

verus! {

broadcast use vstd::seq_lib::group_seq_properties;

/// Where in the chapter a reversal or reveal falls.
#[derive(Debug, Clone, Copy, PartialEq, Eq, Structural)]
pub enum Timing {
    Opening,
    BuildUp,
    Climax,
    Resolution,
}

impl Default for Timing {
    fn default() -> (r: Timing)
        ensures
            r == Timing::BuildUp,
    {
        Timing::BuildUp
    }
}

/// Expected outcome of a goal resolution.
#[derive(Debug, Clone, Copy, PartialEq, Eq, Structural)]
pub enum GoalOutcome {
    Resolved,
    Failed,
    Blocked,
}

/// What the director wants a chapter to achieve.
#[derive(Debug)]
#[allow(inconsistent_fields)]
pub enum DramaticIntent {
    /// Two or more characters meet and confront each other.
    Confrontation { between: Vec<String>, at: String, depends_on: Vec<String> },
    /// A dramatic reversal: an expectation subverted.
    Reversal { target: String, trigger: String, secret: Option<String>, timing: Timing },
    /// A goal (`owner/goal_id`) reaches its conclusion.
    SuspenseResolution { goal: String, expected_outcome: GoalOutcome },
    /// A secret is revealed to characters (and/or the reader).
    SecretReveal { secret: String, to: Vec<String>, reveal_to_reader: bool },
    /// A new goal emerges for a character.
    GoalEmergence { owner: String, goal_id: String, want: String, problem: Option<String> },
    /// A character changes inside (belief shift, trait change).
    CharacterDevelopment { character: String, arc: String, effects: Vec<String> },
    /// Tension escalates without resolution.
    TensionBuild { source: String, foreshadowing: Vec<String> },
}

#[allow(inconsistent_fields)]
pub ghost enum DramaticIntentV {
    Confrontation { between: Seq<Chars>, at: Chars, depends_on: Seq<Chars> },
    Reversal { target: Chars, trigger: Chars, secret: Option<Chars>, timing: Timing },
    SuspenseResolution { goal: Chars, expected_outcome: GoalOutcome },
    SecretReveal { secret: Chars, to: Seq<Chars>, reveal_to_reader: bool },
    GoalEmergence { owner: Chars, goal_id: Chars, want: Chars, problem: Option<Chars> },
    CharacterDevelopment { character: Chars, arc: Chars, effects: Seq<Chars> },
    TensionBuild { source: Chars, foreshadowing: Seq<Chars> },
}

pub open spec fn oc(o: Option<String>) -> Option<Chars> {
    match o {
        Some(s) => Some(s@),
        None => None,
    }
}

impl View for DramaticIntent {
    type V = DramaticIntentV;

    open spec fn view(&self) -> DramaticIntentV {
        match self {
            DramaticIntent::Confrontation { between, at, depends_on } => DramaticIntentV::Confrontation {
                between: views(between@),
                at: at@,
                depends_on: views(depends_on@),
            },
            DramaticIntent::Reversal { target, trigger, secret, timing } => DramaticIntentV::Reversal {
                target: target@,
                trigger: trigger@,
                secret: oc(*secret),
                timing: *timing,
            },
            DramaticIntent::SuspenseResolution { goal, expected_outcome } => DramaticIntentV::SuspenseResolution {
                goal: goal@,
                expected_outcome: *expected_outcome,
            },
            DramaticIntent::SecretReveal { secret, to, reveal_to_reader } => DramaticIntentV::SecretReveal {
                secret: secret@,
                to: views(to@),
                reveal_to_reader: *reveal_to_reader,
            },
            DramaticIntent::GoalEmergence { owner, goal_id, want, problem } => DramaticIntentV::GoalEmergence {
                owner: owner@,
                goal_id: goal_id@,
                want: want@,
                problem: oc(*problem),
            },
            DramaticIntent::CharacterDevelopment { character, arc, effects } => DramaticIntentV::CharacterDevelopment {
                character: character@,
                arc: arc@,
                effects: views(effects@),
            },
            DramaticIntent::TensionBuild { source, foreshadowing } => DramaticIntentV::TensionBuild {
                source: source@,
                foreshadowing: views(foreshadowing@),
            },
        }
    }
}

/// Items joined by a separator.
pub open spec fn join_with(items: Seq<Chars>, sep: Chars) -> Chars
    decreases items.len(),
{
    if items.len() == 0 {
        Seq::empty()
    } else if items.len() == 1 {
        items[0]
    } else {
        join_with(items.drop_last(), sep) + sep + items.last()
    }
}

/// Appends the items joined by `sep`.
pub fn push_joined(out: &mut String, items: &Vec<String>, sep: &str)
    ensures
        final(out)@ == old(out)@ + join_with(views(items@), sep@),
{
    let ghost start = out@;
    let ghost iv = views(items@);
    let mut i: usize = 0;
    while i < items.len()
        invariant
            i <= items@.len(),
            iv == views(items@),
            out@ == start + join_with(iv.take(i as int), sep@),
        decreases items@.len() - i,
    {
        assert(iv.take(i + 1).drop_last() == iv.take(i as int));
        if i > 0 {
            push_str(out, sep);
        }
        push_str(out, items[i].as_str());
        proof {
            if i == 0 {
                assert(iv.take(1) =~= seq![iv[0]]);
            }
        }
        i += 1;
    }
    assert(iv.take(items@.len() as int) == iv);
}

pub open spec fn outcome_name(o: GoalOutcome) -> Chars {
    match o {
        GoalOutcome::Resolved => "Resolved"@,
        GoalOutcome::Failed => "Failed"@,
        GoalOutcome::Blocked => "Blocked"@,
    }
}

/// A short human-readable summary of an intent.
pub open spec fn summary_spec(i: DramaticIntentV) -> Chars {
    match i {
        DramaticIntentV::Confrontation { between, at, .. } => "对峙: "@ + join_with(between, " vs "@) + " @ "@ + at,
        DramaticIntentV::Reversal { target, trigger, .. } => "反转: "@ + target + " — 触发: "@ + trigger,
        DramaticIntentV::SuspenseResolution { goal, expected_outcome } => "悬念解决: "@ + goal + " → "@
            + outcome_name(expected_outcome),
        DramaticIntentV::SecretReveal { secret, to, .. } => "揭秘: "@ + secret + " → "@ + join_with(to, ", "@),
        DramaticIntentV::GoalEmergence { owner, goal_id, want, .. } => "新目标: "@ + owner + "/"@ + goal_id
            + " — "@ + want,
        DramaticIntentV::CharacterDevelopment { character, arc, .. } => "角色发展: "@ + character + " — "@ + arc,
        DramaticIntentV::TensionBuild { source, .. } => "张力蓄积: "@ + source,
    }
}

/// The entity ids an intent refers to.
pub open spec fn referenced_spec(i: DramaticIntentV) -> Seq<Chars> {
    match i {
        DramaticIntentV::Confrontation { between, at, .. } => between.push(at),
        DramaticIntentV::Reversal { target, .. } => seq![target],
        DramaticIntentV::SuspenseResolution { goal, .. } => match find(goal, '/') {
            Some(k) => seq![goal.take(k)],
            None => Seq::empty(),
        },
        DramaticIntentV::SecretReveal { to, .. } => to,
        DramaticIntentV::GoalEmergence { owner, .. } => seq![owner],
        DramaticIntentV::CharacterDevelopment { character, .. } => seq![character],
        DramaticIntentV::TensionBuild { .. } => Seq::empty(),
    }
}

pub open spec fn str_refs(s: Seq<&str>) -> Seq<Chars> {
    s.map_values(|x: &str| x@)
}

fn refs_of(v: &Vec<String>) -> (r: Vec<&str>)
    ensures
        str_refs(r@) == views(v@),
{
    let mut r: Vec<&str> = Vec::new();
    let mut i: usize = 0;
    while i < v.len()
        invariant
            i <= v@.len(),
            str_refs(r@) == views(v@).take(i as int),
        decreases v@.len() - i,
    {
        let ghost prev = r@;
        let item = v[i].as_str();
        r.push(item);
        assert(r@ == prev.push(item));
        assert(str_refs(r@) =~= str_refs(prev).push(item@));
        assert(views(v@).take(i + 1) =~= views(v@).take(i as int).push(v@[i as int]@));
        i += 1;
    }
    assert(views(v@).take(v@.len() as int) =~= views(v@));
    r
}

impl DramaticIntent {
    /// A short human-readable summary.
    pub fn summary(&self) -> (r: String)
        ensures
            r@ == summary_spec(self@),
    {
        let mut s = String::new();
        match self {
            DramaticIntent::Confrontation { between, at, .. } => {
                push_str(&mut s, "对峙: ");
                push_joined(&mut s, between, " vs ");
                push_str(&mut s, " @ ");
                push_str(&mut s, at.as_str());
            },
            DramaticIntent::Reversal { target, trigger, .. } => {
                push_str(&mut s, "反转: ");
                push_str(&mut s, target.as_str());
                push_str(&mut s, " — 触发: ");
                push_str(&mut s, trigger.as_str());
            },
            DramaticIntent::SuspenseResolution { goal, expected_outcome } => {
                push_str(&mut s, "悬念解决: ");
                push_str(&mut s, goal.as_str());
                push_str(&mut s, " → ");
                push_str(
                    &mut s,
                    match expected_outcome {
                        GoalOutcome::Resolved => "Resolved",
                        GoalOutcome::Failed => "Failed",
                        GoalOutcome::Blocked => "Blocked",
                    },
                );
            },
            DramaticIntent::SecretReveal { secret, to, .. } => {
                push_str(&mut s, "揭秘: ");
                push_str(&mut s, secret.as_str());
                push_str(&mut s, " → ");
                push_joined(&mut s, to, ", ");
            },
            DramaticIntent::GoalEmergence { owner, goal_id, want, .. } => {
                push_str(&mut s, "新目标: ");
                push_str(&mut s, owner.as_str());
                push_str(&mut s, "/");
                push_str(&mut s, goal_id.as_str());
                push_str(&mut s, " — ");
                push_str(&mut s, want.as_str());
            },
            DramaticIntent::CharacterDevelopment { character, arc, .. } => {
                push_str(&mut s, "角色发展: ");
                push_str(&mut s, character.as_str());
                push_str(&mut s, " — ");
                push_str(&mut s, arc.as_str());
            },
            DramaticIntent::TensionBuild { source, .. } => {
                push_str(&mut s, "张力蓄积: ");
                push_str(&mut s, source.as_str());
            },
        }
        s
    }

    /// The entity ids this intent refers to.
    pub fn referenced_entities(&self) -> (r: Vec<&str>)
        ensures
            str_refs(r@) == referenced_spec(self@),
    {
        match self {
            DramaticIntent::Confrontation { between, at, .. } => {
                let mut ids = refs_of(between);
                let ghost prev = ids@;
                ids.push(at.as_str());
                assert(str_refs(ids@) =~= str_refs(prev).push(at@));
                ids
            },
            DramaticIntent::Reversal { target, .. } => {
                let mut ids: Vec<&str> = Vec::new();
                ids.push(target.as_str());
                assert(str_refs(ids@) =~= seq![target@]);
                ids
            },
            DramaticIntent::SuspenseResolution { goal, .. } => {
                let v = chars_of(goal.as_str());
                let n = v.len();
                assert(v@.subrange(0, n as int) == v@);
                let mut ids: Vec<&str> = Vec::new();
                match find_in(&v, 0, n, '/') {
                    Some(k) => {
                        let owner = goal.as_str().substring_char(0, k);
                        ids.push(owner);
                        assert(goal@.take(k as int) =~= goal@.subrange(0, k as int));
                        assert(str_refs(ids@) =~= seq![goal@.take(k as int)]);
                    },
                    None => {
                        assert(str_refs(ids@) =~= Seq::<Chars>::empty());
                    },
                }
                ids
            },
            DramaticIntent::SecretReveal { to, .. } => refs_of(to),
            DramaticIntent::GoalEmergence { owner, .. } => {
                let mut ids: Vec<&str> = Vec::new();
                ids.push(owner.as_str());
                assert(str_refs(ids@) =~= seq![owner@]);
                ids
            },
            DramaticIntent::CharacterDevelopment { character, .. } => {
                let mut ids: Vec<&str> = Vec::new();
                ids.push(character.as_str());
                assert(str_refs(ids@) =~= seq![character@]);
                ids
            },
            DramaticIntent::TensionBuild { .. } => {
                let ids: Vec<&str> = Vec::new();
                assert(str_refs(ids@) =~= Seq::<Chars>::empty());
                ids
            },
        }
    }

    /// A copy of the intent.
    pub fn duplicate(&self) -> (r: DramaticIntent)
        ensures
            r@ == self@,
    {
        match self {
            DramaticIntent::Confrontation { between, at, depends_on } => DramaticIntent::Confrontation {
                between: crate::text::clone_strs(between),
                at: at.clone(),
                depends_on: crate::text::clone_strs(depends_on),
            },
            DramaticIntent::Reversal { target, trigger, secret, timing } => DramaticIntent::Reversal {
                target: target.clone(),
                trigger: trigger.clone(),
                secret: crate::text::clone_opt(secret),
                timing: *timing,
            },
            DramaticIntent::SuspenseResolution { goal, expected_outcome } => DramaticIntent::SuspenseResolution {
                goal: goal.clone(),
                expected_outcome: *expected_outcome,
            },
            DramaticIntent::SecretReveal { secret, to, reveal_to_reader } => DramaticIntent::SecretReveal {
                secret: secret.clone(),
                to: crate::text::clone_strs(to),
                reveal_to_reader: *reveal_to_reader,
            },
            DramaticIntent::GoalEmergence { owner, goal_id, want, problem } => DramaticIntent::GoalEmergence {
                owner: owner.clone(),
                goal_id: goal_id.clone(),
                want: want.clone(),
                problem: crate::text::clone_opt(problem),
            },
            DramaticIntent::CharacterDevelopment { character, arc, effects } => DramaticIntent::CharacterDevelopment {
                character: character.clone(),
                arc: arc.clone(),
                effects: crate::text::clone_strs(effects),
            },
            DramaticIntent::TensionBuild { source, foreshadowing } => DramaticIntent::TensionBuild {
                source: source.clone(),
                foreshadowing: crate::text::clone_strs(foreshadowing),
            },
        }
    }
}

} // verus!
