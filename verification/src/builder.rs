//! Memory built from raw events: one edge per event, witnessed by every
//! character it names, all indexed in a hypergraph.
use vstd::prelude::*;

use crate::edge::{MemoryEdge, MemoryEdgeV, edge_views};
use crate::events::{RawEvent, RawEventV, event_views};
use crate::hypergraph::{HyperGraph, built_from, lemma_inserted_built};
use crate::memory::{BuildStats, Perception, PerceptionMode, PerceptionV, perception_views};
use crate::perceive::perceptions_of;
use crate::text::{
    Chars, chars_of, dec, insert_sorted, owned, push_dec, push_str, string_from, strictly_sorted,
    views,
};

verus! {

broadcast use vstd::seq_lib::group_seq_properties;

/// Built memory state.
#[derive(Debug)]
pub struct BuiltMemory {
    pub graph: HyperGraph,
    pub edges: Vec<MemoryEdge>,
    pub perceptions: Vec<Perception>,
    pub stats: BuildStats,
}

/// At most `max` characters of the text, with `…` when cut.
pub open spec fn truncated(s: Chars, max: nat) -> Chars {
    if s.len() <= max {
        s
    } else {
        s.take(max as int) + "…"@
    }
}

fn truncate_text(text: &str, max_chars: usize) -> (r: String)
    ensures
        r@ == truncated(text@, max_chars as nat),
{
    let v = chars_of(text);
    if v.len() <= max_chars {
        owned(text)
    } else {
        let mut s = string_from(v.as_slice(), 0, max_chars);
        assert(v@.subrange(0, max_chars as int) =~= text@.take(max_chars as int));
        push_str(&mut s, "…");
        s
    }
}

/// The edge an event gives (no effects: it comes from raw text).
pub open spec fn event_edge(e: RawEventV) -> MemoryEdgeV {
    MemoryEdgeV {
        id: "ch"@ + dec(e.chapter_index) + ":p"@ + dec(e.paragraph_index),
        content_node: "chapter_"@ + dec(e.chapter_index),
        description: truncated(e.text, 200),
        seq: e.seq,
        participants: e.characters,
        locations: e.locations,
        secrets: Seq::empty(),
        objects: Seq::empty(),
        rehearsal_count: 0,
        source_ops: Seq::empty(),
    }
}

fn event_to_edge(event: &RawEvent) -> (r: MemoryEdge)
    ensures
        r@ == event_edge(event@),
{
    let mut id = owned("ch");
    push_dec(&mut id, event.chapter_index as u64);
    push_str(&mut id, ":p");
    push_dec(&mut id, event.paragraph_index as u64);
    let mut node = owned("chapter_");
    push_dec(&mut node, event.chapter_index as u64);
    let r = MemoryEdge {
        id,
        content_node: node,
        description: truncate_text(event.text.as_str(), 200),
        seq: event.seq,
        participants: crate::text::clone_strs(&event.characters),
        locations: crate::text::clone_strs(&event.locations),
        secrets: Vec::new(),
        objects: Vec::new(),
        rehearsal_count: 0,
        source_ops: Vec::new(),
    };
    assert(r@.secrets =~= Seq::<Chars>::empty());
    assert(r@.objects =~= Seq::<Chars>::empty());
    assert(r@.source_ops =~= Seq::<crate::op::OpV>::empty());
    r
}

pub open spec fn edge_fn() -> spec_fn(RawEventV) -> MemoryEdgeV {
    |e: RawEventV| event_edge(e)
}

/// Every event's characters witness it, event by event.
pub open spec fn witnessed_all(es: Seq<RawEventV>) -> Seq<PerceptionV>
    decreases es.len(),
{
    if es.len() == 0 {
        Seq::empty()
    } else {
        witnessed_all(es.drop_last()) + perceptions_of(
            es.last().characters,
            event_edge(es.last()).id,
            PerceptionMode::Witnessed,
        )
    }
}

pub open spec fn all_characters(es: Seq<RawEventV>) -> Seq<Chars>
    decreases es.len(),
{
    if es.len() == 0 {
        Seq::empty()
    } else {
        all_characters(es.drop_last()) + es.last().characters
    }
}

pub open spec fn all_locations(es: Seq<RawEventV>) -> Seq<Chars>
    decreases es.len(),
{
    if es.len() == 0 {
        Seq::empty()
    } else {
        all_locations(es.drop_last()) + es.last().locations
    }
}

pub open spec fn all_chapters(es: Seq<RawEventV>) -> Seq<nat> {
    es.map_values(|e: RawEventV| e.chapter_index)
}

fn add_all_sorted(set: &mut Vec<String>, xs: &Vec<String>)
    requires
        strictly_sorted(views(old(set)@)),
    ensures
        strictly_sorted(views(final(set)@)),
        forall|y: Chars| #[trigger] views(final(set)@).contains(y) <==> (views(old(set)@).contains(y) || views(xs@).contains(y)),
{
    let ghost s0 = views(set@);
    let ghost xv = views(xs@);
    let mut i: usize = 0;
    while i < xs.len()
        invariant
            i <= xs@.len(),
            xv == views(xs@),
            strictly_sorted(views(set@)),
            forall|y: Chars| #[trigger] views(set@).contains(y) <==> (s0.contains(y) || xv.take(i as int).contains(y)),
        decreases xs@.len() - i,
    {
        insert_sorted(set, xs[i].as_str());
        proof {
            let t0 = xv.take(i as int);
            let t1 = xv.take(i + 1);
            assert(t1 =~= t0.push(xv[i as int]));
            assert forall|y: Chars| #[trigger] t1.contains(y) <==> (t0.contains(y) || y == xv[i as int]) by {
                if t1.contains(y) {
                    let q = choose|q: int| 0 <= q < t1.len() && #[trigger] t1[q] == y;
                    if q < t0.len() {
                        assert(t0[q] == y);
                    }
                }
                if t0.contains(y) {
                    let q = choose|q: int| 0 <= q < t0.len() && #[trigger] t0[q] == y;
                    assert(t1[q] == y);
                }
                if y == xv[i as int] {
                    assert(t1[i as int] == y);
                }
            }
        }
        i += 1;
    }
    assert(xv.take(xs@.len() as int) =~= xv);
}

fn witness_all(out: &mut Vec<Perception>, chars: &Vec<String>, edge_id: &str)
    ensures
        perception_views(final(out)@) == perception_views(old(out)@) + perceptions_of(views(chars@), edge_id@, PerceptionMode::Witnessed),
{
    let ghost p0 = perception_views(out@);
    let ghost cv = views(chars@);
    let mut i: usize = 0;
    while i < chars.len()
        invariant
            i <= chars@.len(),
            cv == views(chars@),
            perception_views(out@) == p0 + perceptions_of(cv.take(i as int), edge_id@, PerceptionMode::Witnessed),
        decreases chars@.len() - i,
    {
        let ghost prev = out@;
        out.push(Perception { character: owned(chars[i].as_str()), edge_id: owned(edge_id), mode: PerceptionMode::Witnessed });
        assert(perception_views(out@) =~= perception_views(prev).push(PerceptionV { character: cv[i as int], edge_id: edge_id@, mode: PerceptionMode::Witnessed }));
        assert(perceptions_of(cv.take(i + 1), edge_id@, PerceptionMode::Witnessed) =~= perceptions_of(cv.take(i as int), edge_id@, PerceptionMode::Witnessed).push(PerceptionV { character: cv[i as int], edge_id: edge_id@, mode: PerceptionMode::Witnessed }));
        i += 1;
    }
    assert(cv.take(chars@.len() as int) =~= cv);
}

/// Build the memory graph from raw events: one edge per event, every
/// character of an event witnesses it.
pub fn build_memory(events: &Vec<RawEvent>) -> (r: BuiltMemory)
    ensures
        r.graph.wf(),
        edge_views(r.edges@) == event_views(events@).map_values(edge_fn()),
        built_from(r.graph@, event_views(events@).map_values(edge_fn())),
        perception_views(r.perceptions@) == witnessed_all(event_views(events@)),
        r.stats.total_events == events@.len(),
        r.stats.total_edges == events@.len(),
        r.stats.total_perceptions == witnessed_all(event_views(events@)).len(),
        r.stats.unique_characters == all_characters(event_views(events@)).to_set().len(),
        r.stats.unique_locations == all_locations(event_views(events@)).to_set().len(),
        r.stats.chapters_covered == all_chapters(event_views(events@)).to_set().len(),
{
    let ghost ev = event_views(events@);
    let mut graph = HyperGraph::new();
    let mut edges: Vec<MemoryEdge> = Vec::new();
    let mut perceptions: Vec<Perception> = Vec::new();
    let mut characters: Vec<String> = Vec::new();
    let mut locations: Vec<String> = Vec::new();
    let mut chapters: Vec<usize> = Vec::new();
    let mut i: usize = 0;
    while i < events.len()
        invariant
            i <= events@.len(),
            ev == event_views(events@),
            graph.wf(),
            edges@.len() == i,
            edge_views(edges@) == ev.take(i as int).map_values(edge_fn()),
            built_from(graph@, ev.take(i as int).map_values(edge_fn())),
            perception_views(perceptions@) == witnessed_all(ev.take(i as int)),
            strictly_sorted(views(characters@)),
            strictly_sorted(views(locations@)),
            forall|y: Chars| #[trigger] views(characters@).contains(y) <==> all_characters(ev.take(i as int)).contains(y),
            forall|y: Chars| #[trigger] views(locations@).contains(y) <==> all_locations(ev.take(i as int)).contains(y),
            chapters@.no_duplicates(),
            forall|c: usize| #[trigger] chapters@.contains(c) <==> all_chapters(ev.take(i as int)).contains(c as nat),
        decreases events@.len() - i,
    {
        let event = &events[i];
        let ghost t0 = ev.take(i as int);
        let ghost t1 = ev.take(i + 1);
        proof {
            assert(t1.drop_last() =~= t0);
            assert(t1.last() == event@);
        }
        let edge = event_to_edge(event);
        if !contains_usize(&chapters, event.chapter_index) {
            chapters.push(event.chapter_index);
        }
        add_all_sorted(&mut characters, &event.characters);
        witness_all(&mut perceptions, &event.characters, edge.id.as_str());
        add_all_sorted(&mut locations, &event.locations);
        let ghost g0 = graph@;
        graph.insert(edge.duplicate());
        proof {
            lemma_inserted_built(g0, graph@, t0.map_values(edge_fn()), edge@);
            assert(t1.map_values(edge_fn()) =~= t0.map_values(edge_fn()).push(edge@));
        }
        let ghost e0 = edges@;
        edges.push(edge);
        proof {
            assert(edge_views(edges@) =~= edge_views(e0).push(event_edge(event@)));
            assert forall|y: Chars| #[trigger] all_characters(t1).contains(y) <==> (all_characters(t0).contains(y) || event@.characters.contains(y)) by {
                lemma_concat_contains(all_characters(t0), event@.characters, y);
            }
            assert forall|y: Chars| #[trigger] all_locations(t1).contains(y) <==> (all_locations(t0).contains(y) || event@.locations.contains(y)) by {
                lemma_concat_contains(all_locations(t0), event@.locations, y);
            }
            assert(all_chapters(t1) =~= all_chapters(t0).push(event.chapter_index as nat));
            assert forall|c: usize| #[trigger] chapters@.contains(c) <==> all_chapters(t1).contains(c as nat) by {
                let a0 = all_chapters(t0);
                let a1 = all_chapters(t1);
                if a1.contains(c as nat) {
                    let q = choose|q: int| 0 <= q < a1.len() && #[trigger] a1[q] == c as nat;
                    if q < a0.len() {
                        assert(a0[q] == c as nat);
                    }
                }
                if a0.contains(c as nat) {
                    let q = choose|q: int| 0 <= q < a0.len() && #[trigger] a0[q] == c as nat;
                    assert(a1[q] == c as nat);
                }
                if c == event.chapter_index {
                    assert(a1[a0.len() as int] == c as nat);
                }
            }
        }
        i += 1;
    }
    assert(ev.take(events@.len() as int) =~= ev);
    let ghost av = all_characters(ev);
    let ghost lv = all_locations(ev);
    let ghost cv = all_chapters(ev);
    proof {
        lemma_sorted_len(views(characters@), av);
        lemma_sorted_len(views(locations@), lv);
        chapters@.unique_seq_to_set();
        assert(chapters@.to_set().len() == cv.to_set().len()) by {
            let m = chapters@.map_values(|c: usize| c as nat);
            assert(m.no_duplicates()) by {
                assert forall|a: int, b: int| 0 <= a < b < m.len() implies m[a] != m[b] by {
                    assert(chapters@[a] != chapters@[b]);
                }
            }
            m.unique_seq_to_set();
            assert(m.to_set() =~= cv.to_set()) by {
                assert forall|x: nat| m.to_set().contains(x) <==> cv.to_set().contains(x) by {
                    if m.contains(x) {
                        let q = choose|q: int| 0 <= q < m.len() && #[trigger] m[q] == x;
                        assert(chapters@.contains(chapters@[q]));
                    }
                    if cv.contains(x) {
                        let q = choose|q: int| 0 <= q < cv.len() && #[trigger] cv[q] == x;
                        let c = events@[q].chapter_index;
                        assert(cv[q] == c as nat);
                        assert(chapters@.contains(c));
                        let r = choose|r: int| 0 <= r < chapters@.len() && #[trigger] chapters@[r] == c;
                        assert(m[r] == x);
                    }
                }
            }
        }
    }
    let stats = BuildStats {
        total_events: events.len(),
        total_edges: edges.len(),
        total_perceptions: perceptions.len(),
        unique_characters: characters.len(),
        unique_locations: locations.len(),
        chapters_covered: chapters.len(),
    };
    BuiltMemory { graph, edges, perceptions, stats }
}

proof fn lemma_concat_contains(a: Seq<Chars>, b: Seq<Chars>, y: Chars)
    ensures
        (a + b).contains(y) <==> (a.contains(y) || b.contains(y)),
{
    let c = a + b;
    if c.contains(y) {
        let q = choose|q: int| 0 <= q < c.len() && #[trigger] c[q] == y;
        if q < a.len() {
            assert(a[q] == y);
        } else {
            assert(b[q - a.len()] == y);
        }
    }
    if a.contains(y) {
        let q = choose|q: int| 0 <= q < a.len() && #[trigger] a[q] == y;
        assert(c[q] == y);
    }
    if b.contains(y) {
        let q = choose|q: int| 0 <= q < b.len() && #[trigger] b[q] == y;
        assert(c[a.len() + q] == y);
    }
}

/// A sorted list without repeats has as many elements as the set of
/// what it lists.
proof fn lemma_sorted_len(t: Seq<Chars>, s: Seq<Chars>)
    requires
        strictly_sorted(t),
        forall|y: Chars| #[trigger] t.contains(y) <==> s.contains(y),
    ensures
        t.len() == s.to_set().len(),
{
    assert(t.no_duplicates()) by {
        assert forall|a: int, b: int| 0 <= a < b < t.len() implies t[a] != t[b] by {
            crate::text::lemma_lex_irreflexive(t[a]);
        }
    }
    t.unique_seq_to_set();
    assert(t.to_set() =~= s.to_set());
}

fn contains_usize(v: &Vec<usize>, x: usize) -> (r: bool)
    ensures
        r == v@.contains(x),
{
    let mut i: usize = 0;
    while i < v.len()
        invariant
            i <= v@.len(),
            forall|k: int| 0 <= k < i ==> v@[k] != x,
        decreases v@.len() - i,
    {
        if v[i] == x {
            return true;
        }
        i += 1;
    }
    false
}

} // verus!
