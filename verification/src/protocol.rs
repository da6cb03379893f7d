//! Messages between the layers: the engine states facts, the director
//! sets intent, the author writes text and reports where it deviated.
use vstd::prelude::*;

use crate::drama::DirectorNotes;
use crate::op::Op;
use crate::prompt::AuthorPrompt;
use crate::reasoning::ReasoningResult;
use crate::secret::Secret;
use crate::snapshot::Snapshot;
use crate::validate::Verdict;

verus! {

/// Engine → director.
#[derive(Debug)]
pub struct EngineOutput {
    pub snapshot: Snapshot,
    pub derived_facts: ReasoningResult,
    pub secrets_state: Vec<Secret>,
}

/// Director → author.
#[derive(Debug)]
pub struct DirectorToAuthor {
    pub prompt: AuthorPrompt,
    pub required_effects: Vec<Op>,
    pub suggested_effects: Vec<Op>,
    pub director_notes: DirectorNotes,
    pub verdict: Verdict,
}

/// Author → director, after writing.
#[derive(Debug)]
pub struct AuthorToDirector {
    pub text: String,
    pub annotated_effects: Vec<Op>,
    pub deviations: Vec<Deviation>,
}

/// A required effect the author could not satisfy.
#[derive(Debug)]
pub struct Deviation {
    pub expected: Op,
    pub reason: String,
    pub alternative: Option<Op>,
}

} // verus!
