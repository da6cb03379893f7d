//! Plain records of the memory layer: perceptions, build statistics,
//! text chunks and embedding errors.
use vstd::prelude::*;

use crate::text::{Chars, push_str};

verus! {

/// How a character came to know about an event.
#[derive(Debug, Clone, Copy, PartialEq, Eq, Structural)]
pub enum PerceptionMode {
    /// Was present and directly observed the event.
    Witnessed,
    /// Was told by a trusted source.
    Told,
    /// Logically deduced from other known facts.
    Inferred,
    /// Heard through unreliable channels.
    Rumor,
    /// Deliberately fed false information (deception).
    False,
}

/// A character's perception of a specific memory edge.
#[derive(Debug)]
pub struct Perception {
    pub character: String,
    pub edge_id: String,
    pub mode: PerceptionMode,
}

pub ghost struct PerceptionV {
    pub character: Chars,
    pub edge_id: Chars,
    pub mode: PerceptionMode,
}

impl View for Perception {
    type V = PerceptionV;

    open spec fn view(&self) -> PerceptionV {
        PerceptionV { character: self.character@, edge_id: self.edge_id@, mode: self.mode }
    }
}

pub open spec fn perception_views(ps: Seq<Perception>) -> Seq<PerceptionV> {
    ps.map_values(|p: Perception| p@)
}

/// Build statistics.
#[derive(Debug, Clone, Copy)]
pub struct BuildStats {
    pub total_events: usize,
    pub total_edges: usize,
    pub total_perceptions: usize,
    pub unique_characters: usize,
    pub unique_locations: usize,
    pub chapters_covered: usize,
}

impl Default for BuildStats {
    fn default() -> (r: BuildStats)
        ensures
            r.total_events == 0 && r.total_edges == 0 && r.total_perceptions == 0 && r.unique_characters == 0
                && r.unique_locations == 0 && r.chapters_covered == 0,
    {
        BuildStats {
            total_events: 0,
            total_edges: 0,
            total_perceptions: 0,
            unique_characters: 0,
            unique_locations: 0,
            chapters_covered: 0,
        }
    }
}

/// A text chunk with metadata.
#[derive(Debug)]
pub struct Chunk {
    /// Global chunk index.
    pub index: usize,
    /// Chapter this chunk belongs to.
    pub chapter_index: usize,
    /// The text content of this chunk.
    pub text: String,
    /// Token count.
    pub token_count: usize,
    /// Start token offset within the chapter.
    pub token_offset: usize,
}

/// Chunking configuration: a sliding window over tokens.
#[derive(Debug, Clone, Copy)]
pub struct ChunkConfig {
    /// Window size in tokens.
    pub window_size: usize,
    /// Step size in tokens (window size minus overlap).
    pub stride: usize,
}

impl Default for ChunkConfig {
    fn default() -> (r: ChunkConfig)
        ensures
            r.window_size == 384 && r.stride == 192,
    {
        ChunkConfig { window_size: 384, stride: 192 }
    }
}

/// Why embedding failed.
#[derive(Debug)]
pub enum EmbedError {
    Init(String),
    Embed(String),
    Io(String),
}

pub open spec fn embed_error_text(e: EmbedError) -> Chars {
    match e {
        EmbedError::Init(m) => "embedding model init failed: "@ + m@,
        EmbedError::Embed(m) => "embedding failed: "@ + m@,
        EmbedError::Io(m) => "io error: "@ + m@,
    }
}

impl EmbedError {
    /// The error as a sentence.
    pub fn message(&self) -> (r: String)
        ensures
            r@ == embed_error_text(*self),
    {
        let mut s = String::new();
        match self {
            EmbedError::Init(m) => {
                push_str(&mut s, "embedding model init failed: ");
                push_str(&mut s, m.as_str());
            },
            EmbedError::Embed(m) => {
                push_str(&mut s, "embedding failed: ");
                push_str(&mut s, m.as_str());
            },
            EmbedError::Io(m) => {
                push_str(&mut s, "io error: ");
                push_str(&mut s, m.as_str());
            },
        }
        s
    }
}

} // verus!
