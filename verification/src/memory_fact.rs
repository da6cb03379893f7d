//! Memory edges and perceptions as Datalog facts, and the rules that reason
//! over them.
use vstd::prelude::*;

use crate::edge::{MemoryEdge, MemoryEdgeV, edge_views};
use crate::fact::{
    Arg, ArgV, FactSet, FactV, add2, add3, add_facts, auto_spec, each, id_arg,
    lemma_add_facts_append, lemma_each_step,
};
use crate::memory::{Perception, PerceptionMode, PerceptionV, perception_views};
use crate::text::{Chars, views};

verus! {

/// The name a perception mode has in the facts.
pub open spec fn mode_name(m: PerceptionMode) -> Chars {
    match m {
        PerceptionMode::Witnessed => "witnessed"@,
        PerceptionMode::Told => "told"@,
        PerceptionMode::Inferred => "inferred"@,
        PerceptionMode::Rumor => "rumor"@,
        PerceptionMode::False => "false"@,
    }
}

fn mode_str(m: PerceptionMode) -> (r: &'static str)
    ensures
        r@ == mode_name(m),
{
    match m {
        PerceptionMode::Witnessed => "witnessed",
        PerceptionMode::Told => "told",
        PerceptionMode::Inferred => "inferred",
        PerceptionMode::Rumor => "rumor",
        PerceptionMode::False => "false",
    }
}

pub open spec fn mem_fact(pred: Chars, eid: Chars) -> spec_fn(Chars) -> Seq<FactV> {
    |x: Chars| seq![(pred, seq![ArgV::Id(eid), auto_spec(x)])]
}

/// The facts of one edge; `sal` and `val` are its salience and valence in
/// hundredths.
pub open spec fn edge_facts(e: MemoryEdgeV, sal: i64, val: i64) -> Seq<FactV> {
    seq![("memory"@, seq![ArgV::Id(e.id), auto_spec(e.content_node), ArgV::Int(e.seq as int)])] + each(
        e.participants,
        mem_fact("mem_participant"@, e.id),
    ) + each(e.locations, mem_fact("mem_location"@, e.id)) + each(e.secrets, mem_fact("mem_secret"@, e.id)) + each(
        e.objects,
        mem_fact("mem_object"@, e.id),
    ) + seq![("mem_salience"@, seq![ArgV::Id(e.id), ArgV::Int(sal as int)])] + seq![
        ("mem_valence"@, seq![ArgV::Id(e.id), ArgV::Int(val as int)]),
    ]
}

pub open spec fn edges_facts(es: Seq<MemoryEdgeV>, scores: Seq<(i64, i64)>) -> Seq<FactV>
    decreases es.len(),
{
    if es.len() == 0 {
        Seq::empty()
    } else {
        edges_facts(es.drop_last(), scores) + edge_facts(
            es.last(),
            scores[es.len() - 1].0,
            scores[es.len() - 1].1,
        )
    }
}

pub open spec fn perception_fact() -> spec_fn(PerceptionV) -> Seq<FactV> {
    |p: PerceptionV| seq![("perceives"@, seq![auto_spec(p.character), ArgV::Id(p.edge_id), ArgV::Id(mode_name(p.mode))])]
}

/// All facts of the memory layer, in order, before repeats are dropped.
pub open spec fn memory_facts_spec(es: Seq<MemoryEdgeV>, scores: Seq<(i64, i64)>, ps: Seq<PerceptionV>) -> Seq<FactV> {
    edges_facts(es, scores) + each(ps, perception_fact())
}

fn add_each(f: &mut FactSet, pred: &str, eid: &str, xs: &Vec<String>)
    ensures
        final(f)@ == add_facts(old(f)@, each(views(xs@), mem_fact(pred@, eid@))),
{
    let ghost start = f@;
    let ghost xv = views(xs@);
    let mut i: usize = 0;
    while i < xs.len()
        invariant
            i <= xs@.len(),
            xv == views(xs@),
            f@ == add_facts(start, each(xv.take(i as int), mem_fact(pred@, eid@))),
        decreases xs@.len() - i,
    {
        proof {
            lemma_each_step(xv, mem_fact(pred@, eid@), i as int);
            lemma_add_facts_append(start, each(xv.take(i as int), mem_fact(pred@, eid@)), mem_fact(pred@, eid@)(xv[i as int]));
        }
        add2(f, pred, id_arg(eid), Arg::auto(xs[i].as_str()));
        i += 1;
    }
    assert(xv.take(xs@.len() as int) == xv);
}

fn add_edge(f: &mut FactSet, e: &MemoryEdge, sal: i64, val: i64)
    ensures
        final(f)@ == add_facts(old(f)@, edge_facts(e@, sal, val)),
{
    let ghost start = f@;
    let ghost v = e@;
    let eid = e.id.as_str();
    add3(f, "memory", id_arg(eid), Arg::auto(e.content_node.as_str()), Arg::Int(e.seq as i64));
    let ghost p1 = seq![("memory"@, seq![ArgV::Id(v.id), auto_spec(v.content_node), ArgV::Int(v.seq as int)])];
    add_each(f, "mem_participant", eid, &e.participants);
    proof { lemma_add_facts_append(start, p1, each(v.participants, mem_fact("mem_participant"@, v.id))); }
    let ghost p2 = p1 + each(v.participants, mem_fact("mem_participant"@, v.id));
    add_each(f, "mem_location", eid, &e.locations);
    proof { lemma_add_facts_append(start, p2, each(v.locations, mem_fact("mem_location"@, v.id))); }
    let ghost p3 = p2 + each(v.locations, mem_fact("mem_location"@, v.id));
    add_each(f, "mem_secret", eid, &e.secrets);
    proof { lemma_add_facts_append(start, p3, each(v.secrets, mem_fact("mem_secret"@, v.id))); }
    let ghost p4 = p3 + each(v.secrets, mem_fact("mem_secret"@, v.id));
    add_each(f, "mem_object", eid, &e.objects);
    proof { lemma_add_facts_append(start, p4, each(v.objects, mem_fact("mem_object"@, v.id))); }
    let ghost p5 = p4 + each(v.objects, mem_fact("mem_object"@, v.id));
    add2(f, "mem_salience", id_arg(eid), Arg::Int(sal));
    let ghost q = seq![("mem_salience"@, seq![ArgV::Id(v.id), ArgV::Int(sal as int)])];
    proof { lemma_add_facts_append(start, p5, q); }
    add2(f, "mem_valence", id_arg(eid), Arg::Int(val));
    proof { lemma_add_facts_append(start, p5 + q, seq![("mem_valence"@, seq![ArgV::Id(v.id), ArgV::Int(val as int)])]); }
}

/// Generate Datalog facts from memory edges and perceptions. `scores`
/// holds, for each edge in order, its salience and emotional valence in
/// hundredths (0..100 and -100..100).
pub fn collect_memory_facts(edges: &Vec<MemoryEdge>, scores: &Vec<(i64, i64)>, perceptions: &Vec<Perception>) -> (r:
    FactSet)
    requires
        scores@.len() == edges@.len(),
    ensures
        r@ == add_facts(Seq::empty(), memory_facts_spec(edge_views(edges@), scores@, perception_views(perceptions@))),
{
    let ghost ev = edge_views(edges@);
    let mut facts = FactSet::new();
    let mut i: usize = 0;
    while i < edges.len()
        invariant
            i <= edges@.len(),
            scores@.len() == edges@.len(),
            ev == edge_views(edges@),
            facts@ == add_facts(Seq::empty(), edges_facts(ev.take(i as int), scores@)),
        decreases edges@.len() - i,
    {
        proof {
            assert(ev.take(i + 1).drop_last() == ev.take(i as int));
            assert(ev.take(i + 1).last() == edges@[i as int]@);
            lemma_add_facts_append(
                Seq::empty(),
                edges_facts(ev.take(i as int), scores@),
                edge_facts(ev[i as int], scores@[i as int].0, scores@[i as int].1),
            );
        }
        add_edge(&mut facts, &edges[i], scores[i].0, scores[i].1);
        i += 1;
    }
    assert(ev.take(edges@.len() as int) == ev);
    let ghost e1 = edges_facts(ev, scores@);
    let ghost pv = perception_views(perceptions@);
    let mut k: usize = 0;
    while k < perceptions.len()
        invariant
            k <= perceptions@.len(),
            pv == perception_views(perceptions@),
            facts@ == add_facts(Seq::empty(), e1 + each(pv.take(k as int), perception_fact())),
        decreases perceptions@.len() - k,
    {
        proof {
            lemma_each_step(pv, perception_fact(), k as int);
            assert(e1 + each(pv.take(k + 1), perception_fact()) =~= (e1 + each(pv.take(k as int), perception_fact()))
                + perception_fact()(pv[k as int]));
            lemma_add_facts_append(
                Seq::empty(),
                e1 + each(pv.take(k as int), perception_fact()),
                perception_fact()(pv[k as int]),
            );
        }
        let p = &perceptions[k];
        add3(&mut facts, "perceives", Arg::auto(p.character.as_str()), id_arg(p.edge_id.as_str()), id_arg(mode_str(p.mode)));
        k += 1;
    }
    assert(pv.take(perceptions@.len() as int) == pv);
    facts
}

/// Datalog rules for memory reasoning, appended to the rule set.
pub const MEMORY_RULES: &'static str = "
% ═══ Memory reasoning rules ═══

% Character knows an event (any reliable perception mode)
knows_event(?C, ?E) :- perceives(?C, ?E, witnessed).
knows_event(?C, ?E) :- perceives(?C, ?E, told).
knows_event(?C, ?E) :- perceives(?C, ?E, inferred).

% Shared memory — two characters both know the same event
shared_memory(?A, ?B, ?E) :-
    knows_event(?A, ?E),
    knows_event(?B, ?E),
    ?A != ?B.

% Knowledge gap — character participated but doesn't know
knowledge_gap(?C, ?E) :-
    mem_participant(?E, ?C),
    ~knows_event(?C, ?E).

% Could inform — A knows, B doesn't, they can meet, trust >= 1
could_inform(?A, ?B, ?E) :-
    knows_event(?A, ?E),
    ~knows_event(?B, ?E),
    can_meet(?A, ?B),
    trust(?A, ?B, ?T),
    ?T >= 1.

% False belief — character has a false perception
false_belief(?C, ?E) :- perceives(?C, ?E, false).

% Trauma — high salience + negative valence + character knows
trauma(?C, ?E) :-
    knows_event(?C, ?E),
    mem_salience(?E, ?S), ?S >= 80,
    mem_valence(?E, ?V), ?V <= -50.

% Informed chain — multi-hop information propagation
informed_chain(?A, ?B, ?E) :- could_inform(?A, ?B, ?E).
informed_chain(?A, ?C, ?E) :-
    could_inform(?A, ?B, ?E),
    informed_chain(?B, ?C, ?E),
    ?A != ?C.

% Unaware threat — character doesn't know about an event targeting them
unaware_threat(?C, ?E) :-
    mem_participant(?E, ?C),
    mem_valence(?E, ?V), ?V <= -30,
    ~knows_event(?C, ?E).

% Secret witness — only one character knows (excluding participants)
sole_witness(?C, ?E) :-
    knows_event(?C, ?E),
    mem_participant(?E, ?Other),
    ?C != ?Other,
    ~knows_event(?Other, ?E).
";

} // verus!
