use vstd::prelude::*;

pub mod text;
pub mod goal;
pub mod entity;
pub mod secret;
pub mod error;
pub mod op;
pub mod history;
pub mod beat;
pub mod snapshot;
pub mod phase;
pub mod constraint;
pub mod graph;
pub mod rule;
pub mod reasoning;
pub mod diff;
pub mod content;
pub mod node;
pub mod clock;
pub mod phase_manager;
pub mod intent;
pub mod validate;
pub mod card;
pub mod card_writer;
pub mod fact;
pub mod program;
pub mod loader;
pub mod extractor;
pub mod events;
pub mod memory;
pub mod edge;
pub mod perceive;
pub mod memory_fact;
pub mod hypergraph;
pub mod builder;
pub mod drama;
pub mod prompt;
pub mod protocol;
pub mod progress;
pub mod evaluator;

verus! {
} // verus!
