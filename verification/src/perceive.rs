//! Who perceived an event: derived from the world state at the time, with
//! no manual tagging.
//!
//! Participants and characters at the event's locations witness it, as does
//! the recipient of a revealed secret; those they trust enough are told.
use vstd::prelude::*;

use crate::edge::{MemoryEdge, MemoryEdgeV, edge_views, push_new, unique_from};
use crate::entity::{Entity, EntityV, RelationshipV, rel_views};
use crate::memory::{Perception, PerceptionMode, PerceptionV, perception_views};
use crate::op::{Op, OpV};
use crate::snapshot::{Snapshot, SnapshotV};
use crate::text::{Chars, contains_str, owned, str_eq, views};

verus! {

broadcast use vstd::seq_lib::group_seq_properties;

/// Whether the snapshot has a character with this id.
pub open spec fn is_character_in(es: Seq<EntityV>, id: Chars) -> bool {
    exists|i: int| 0 <= i < es.len() && (#[trigger] es[i]) is Character && es[i].id() == id
}

pub open spec fn char_filter(es: Seq<EntityV>) -> spec_fn(Chars) -> bool {
    |id: Chars| is_character_in(es, id)
}

/// The characters standing at a location, in snapshot order.
pub open spec fn at_location(es: Seq<EntityV>, loc: Chars) -> Seq<Chars>
    decreases es.len(),
{
    if es.len() == 0 {
        Seq::empty()
    } else {
        at_location(es.drop_last(), loc) + match es.last() {
            EntityV::Character(c) => if c.location == Some(loc) {
                seq![c.id]
            } else {
                Seq::empty()
            },
            _ => Seq::empty(),
        }
    }
}

/// The characters at each of the locations, location by location.
pub open spec fn at_locations(es: Seq<EntityV>, locs: Seq<Chars>) -> Seq<Chars>
    decreases locs.len(),
{
    if locs.len() == 0 {
        Seq::empty()
    } else {
        at_locations(es, locs.drop_last()) + at_location(es, locs.last())
    }
}

/// The recipients of revealed secrets, in effect order.
pub open spec fn reveal_targets(ops: Seq<OpV>) -> Seq<Chars>
    decreases ops.len(),
{
    if ops.len() == 0 {
        Seq::empty()
    } else {
        reveal_targets(ops.drop_last()) + match ops.last() {
            OpV::Reveal { to, .. } => seq![to],
            _ => Seq::empty(),
        }
    }
}

/// Everyone who witnesses the event, each once, in the order the rules
/// find them: participants who are characters, characters at the event's
/// locations, then recipients of revealed secrets.
pub open spec fn witnesses(e: MemoryEdgeV, s: SnapshotV) -> Seq<Chars> {
    unique_from(
        Seq::empty(),
        e.participants.filter(char_filter(s.entities)) + at_locations(s.entities, e.locations) + reveal_targets(
            e.source_ops,
        ),
    )
}

pub open spec fn perceptions_of(cs: Seq<Chars>, edge_id: Chars, mode: PerceptionMode) -> Seq<PerceptionV> {
    cs.map_values(|c: Chars| PerceptionV { character: c, edge_id, mode })
}

fn is_character(id: &str, snapshot: &Snapshot) -> (r: bool)
    ensures
        r == is_character_in(snapshot@.entities, id@),
{
    let ghost es = snapshot@.entities;
    let mut i: usize = 0;
    while i < snapshot.entities.len()
        invariant
            i <= snapshot.entities@.len(),
            es == snapshot@.entities,
            forall|k: int| 0 <= k < i ==> !((#[trigger] es[k]) is Character && es[k].id() == id@),
        decreases snapshot.entities@.len() - i,
    {
        assert(es[i as int] == snapshot.entities@[i as int]@);
        match &snapshot.entities[i] {
            Entity::Character(c) => {
                if str_eq(c.id.as_str(), id) {
                    return true;
                }
            },
            _ => {},
        }
        i += 1;
    }
    false
}

/// Records a witness unless already recorded.
fn witness(seen: &mut Vec<String>, out: &mut Vec<Perception>, who: &str, edge_id: &str)
    requires
        perception_views(old(out)@) == perceptions_of(views(old(seen)@), edge_id@, PerceptionMode::Witnessed),
    ensures
        views(final(seen)@) == push_new(views(old(seen)@), who@),
        perception_views(final(out)@) == perceptions_of(views(final(seen)@), edge_id@, PerceptionMode::Witnessed),
{
    if !contains_str(seen, who) {
        let ghost s0 = views(seen@);
        let ghost o0 = out@;
        seen.push(owned(who));
        out.push(Perception { character: owned(who), edge_id: owned(edge_id), mode: PerceptionMode::Witnessed });
        assert(views(seen@) =~= s0.push(who@));
        let ghost pv = PerceptionV { character: who@, edge_id: edge_id@, mode: PerceptionMode::Witnessed };
        assert(perception_views(out@) =~= perception_views(o0).push(pv));
        assert(perceptions_of(s0.push(who@), edge_id@, PerceptionMode::Witnessed) =~= perceptions_of(
            s0,
            edge_id@,
            PerceptionMode::Witnessed,
        ).push(pv));
    }
}

proof fn lemma_unique_push(d: Seq<Chars>, a: Seq<Chars>, x: Chars)
    ensures
        unique_from(d, a.push(x)) == push_new(unique_from(d, a), x),
{
    assert(a.push(x).drop_last() =~= a);
}

/// Derive who witnessed an event from the world at the time.
pub fn auto_perceive(edge: &MemoryEdge, snapshot: &Snapshot) -> (r: Vec<Perception>)
    ensures
        perception_views(r@) == perceptions_of(witnesses(edge@, snapshot@), edge@.id, PerceptionMode::Witnessed),
{
    let ghost e = edge@;
    let ghost es = snapshot@.entities;
    let mut seen: Vec<String> = Vec::new();
    let mut out: Vec<Perception> = Vec::new();
    let eid = edge.id.as_str();
    assert(perception_views(out@) =~= perceptions_of(views(seen@), eid@, PerceptionMode::Witnessed));
    // Participants who are characters.
    let ghost pf = e.participants.filter(char_filter(es));
    let mut i: usize = 0;
    while i < edge.participants.len()
        invariant
            i <= edge.participants@.len(),
            e == edge@,
            es == snapshot@.entities,
            eid@ == e.id,
            views(seen@) == unique_from(Seq::empty(), e.participants.take(i as int).filter(char_filter(es))),
            perception_views(out@) == perceptions_of(views(seen@), eid@, PerceptionMode::Witnessed),
        decreases edge.participants@.len() - i,
    {
        proof {
            assert(e.participants.take(i + 1) == e.participants.take(i as int).push(e.participants[i as int]));
            e.participants.take(i as int).lemma_filter_push(e.participants[i as int], char_filter(es));
            lemma_unique_push(Seq::empty(), e.participants.take(i as int).filter(char_filter(es)), e.participants[i as int]);
        }
        let p = edge.participants[i].as_str();
        if is_character(p, snapshot) {
            witness(&mut seen, &mut out, p, eid);
        }
        i += 1;
    }
    assert(e.participants.take(e.participants.len() as int) == e.participants);
    // Characters at the event's locations.
    let ghost base = pf;
    let mut j: usize = 0;
    while j < edge.locations.len()
        invariant
            j <= edge.locations@.len(),
            e == edge@,
            es == snapshot@.entities,
            eid@ == e.id,
            views(seen@) == unique_from(Seq::empty(), base + at_locations(es, e.locations.take(j as int))),
            perception_views(out@) == perceptions_of(views(seen@), eid@, PerceptionMode::Witnessed),
        decreases edge.locations@.len() - j,
    {
        let loc = edge.locations[j].as_str();
        let ghost before = base + at_locations(es, e.locations.take(j as int));
        let mut k: usize = 0;
        while k < snapshot.entities.len()
            invariant
                k <= snapshot.entities@.len(),
                es == snapshot@.entities,
                eid@ == e.id,
                loc@ == e.locations[j as int],
                views(seen@) == unique_from(Seq::empty(), before + at_location(es.take(k as int), loc@)),
                perception_views(out@) == perceptions_of(views(seen@), eid@, PerceptionMode::Witnessed),
            decreases snapshot.entities@.len() - k,
        {
            proof {
                assert(es.take(k + 1).drop_last() == es.take(k as int));
                assert(es.take(k + 1).last() == es[k as int]);
                assert(es[k as int] == snapshot.entities@[k as int]@);
            }
            match &snapshot.entities[k] {
                Entity::Character(c) => {
                    let here = match &c.location {
                        Some(l) => str_eq(l.as_str(), loc),
                        None => false,
                    };
                    if here {
                        proof {
                            assert(before + at_location(es.take(k + 1), loc@) =~= (before + at_location(
                                es.take(k as int),
                                loc@,
                            )).push(c.id@));
                            lemma_unique_push(Seq::empty(), before + at_location(es.take(k as int), loc@), c.id@);
                        }
                        witness(&mut seen, &mut out, c.id.as_str(), eid);
                    } else {
                        assert(before + at_location(es.take(k + 1), loc@) =~= before + at_location(
                            es.take(k as int),
                            loc@,
                        ));
                    }
                },
                _ => {
                    assert(before + at_location(es.take(k + 1), loc@) =~= before + at_location(es.take(k as int), loc@));
                },
            }
            k += 1;
        }
        proof {
            assert(es.take(es.len() as int) == es);
            assert(e.locations.take(j + 1).drop_last() == e.locations.take(j as int));
            assert(e.locations.take(j + 1).last() == e.locations[j as int]);
            assert(base + at_locations(es, e.locations.take(j + 1)) =~= before + at_location(es, loc@));
        }
        j += 1;
    }
    assert(e.locations.take(e.locations.len() as int) == e.locations);
    // Recipients of revealed secrets.
    let ghost base2 = base + at_locations(es, e.locations);
    let ghost ov = e.source_ops;
    let mut m: usize = 0;
    while m < edge.source_ops.len()
        invariant
            m <= edge.source_ops@.len(),
            e == edge@,
            ov == e.source_ops,
            eid@ == e.id,
            views(seen@) == unique_from(Seq::empty(), base2 + reveal_targets(ov.take(m as int))),
            perception_views(out@) == perceptions_of(views(seen@), eid@, PerceptionMode::Witnessed),
        decreases edge.source_ops@.len() - m,
    {
        proof {
            assert(ov.take(m + 1).drop_last() == ov.take(m as int));
            assert(ov.take(m + 1).last() == ov[m as int]);
            assert(ov[m as int] == edge.source_ops@[m as int]@);
        }
        match &edge.source_ops[m] {
            Op::Reveal { to, .. } => {
                proof {
                    assert(base2 + reveal_targets(ov.take(m + 1)) =~= (base2 + reveal_targets(ov.take(m as int))).push(
                        to@,
                    ));
                    lemma_unique_push(Seq::empty(), base2 + reveal_targets(ov.take(m as int)), to@);
                }
                witness(&mut seen, &mut out, to.as_str(), eid);
            },
            _ => {
                assert(base2 + reveal_targets(ov.take(m + 1)) =~= base2 + reveal_targets(ov.take(m as int)));
            },
        }
        m += 1;
    }
    assert(ov.take(ov.len() as int) == ov);
    out
}

// ── Told ─────────────────────────────────────────────────────────

/// The characters who already perceived the edge.
pub open spec fn informed(ps: Seq<PerceptionV>, eid: Chars) -> Seq<Chars> {
    ps.filter(|p: PerceptionV| p.edge_id == eid).map_values(|p: PerceptionV| p.character)
}

pub open spec fn would_tell(inf: Seq<Chars>, es: Seq<EntityV>, th: i8) -> spec_fn(RelationshipV) -> bool {
    |r: RelationshipV| r.trust >= th && !inf.contains(r.target) && is_character_in(es, r.target)
}

/// Whom the informed characters among `scan` tell: each informed character
/// tells every character it trusts enough who does not know yet.
pub open spec fn told_targets(es: Seq<EntityV>, scan: Seq<EntityV>, inf: Seq<Chars>, th: i8) -> Seq<Chars>
    decreases scan.len(),
{
    if scan.len() == 0 {
        Seq::empty()
    } else {
        told_targets(es, scan.drop_last(), inf, th) + match scan.last() {
            EntityV::Character(c) => if inf.contains(c.id) {
                c.relationships.filter(would_tell(inf, es, th)).map_values(|r: RelationshipV| r.target)
            } else {
                Seq::empty()
            },
            _ => Seq::empty(),
        }
    }
}

/// One round of telling for an edge.
pub open spec fn told_spec(e: MemoryEdgeV, ps: Seq<PerceptionV>, s: SnapshotV, th: i8) -> Seq<PerceptionV> {
    perceptions_of(told_targets(s.entities, s.entities, informed(ps, e.id), th), e.id, PerceptionMode::Told)
}

fn informed_of(edge: &MemoryEdge, existing: &Vec<Perception>) -> (r: Vec<String>)
    ensures
        views(r@) == informed(perception_views(existing@), edge@.id),
{
    let ghost pv = perception_views(existing@);
    let ghost pred = |p: PerceptionV| p.edge_id == edge@.id;
    let mut out: Vec<String> = Vec::new();
    let mut i: usize = 0;
    while i < existing.len()
        invariant
            i <= existing@.len(),
            pv == perception_views(existing@),
            pred == (|p: PerceptionV| p.edge_id == edge@.id),
            views(out@) == pv.take(i as int).filter(pred).map_values(|p: PerceptionV| p.character),
        decreases existing@.len() - i,
    {
        proof {
            assert(pv.take(i + 1) == pv.take(i as int).push(pv[i as int]));
            pv.take(i as int).lemma_filter_push(pv[i as int], pred);
        }
        if str_eq(existing[i].edge_id.as_str(), edge.id.as_str()) {
            let ghost prev = out@;
            out.push(owned(existing[i].character.as_str()));
            assert(views(out@) =~= views(prev).push(pv[i as int].character));
            assert(pv.take(i + 1).filter(pred).map_values(|p: PerceptionV| p.character) =~= pv.take(i as int).filter(
                pred,
            ).map_values(|p: PerceptionV| p.character).push(pv[i as int].character));
        }
        i += 1;
    }
    assert(pv.take(existing@.len() as int) == pv);
    out
}

/// Propagate "told" perceptions one step: each character who perceived
/// the edge tells every character it trusts at least `trust_threshold` who
/// has not perceived it (once per informer).
pub fn propagate_told(edge: &MemoryEdge, existing: &Vec<Perception>, snapshot: &Snapshot, trust_threshold: i8) -> (r: Vec<
    Perception,
>)
    ensures
        perception_views(r@) == told_spec(edge@, perception_views(existing@), snapshot@, trust_threshold),
{
    let inf = informed_of(edge, existing);
    let ghost iv = views(inf@);
    let ghost es = snapshot@.entities;
    let ghost eid = edge@.id;
    let mut out: Vec<Perception> = Vec::new();
    let mut i: usize = 0;
    assert(perception_views(out@) =~= perceptions_of(told_targets(es, es.take(0), iv, trust_threshold), eid, PerceptionMode::Told));
    while i < snapshot.entities.len()
        invariant
            i <= snapshot.entities@.len(),
            es == snapshot@.entities,
            iv == views(inf@),
            eid == edge@.id,
            perception_views(out@) == perceptions_of(
                told_targets(es, es.take(i as int), iv, trust_threshold),
                eid,
                PerceptionMode::Told,
            ),
        decreases snapshot.entities@.len() - i,
    {
        let ghost before = told_targets(es, es.take(i as int), iv, trust_threshold);
        proof {
            assert(es.take(i + 1).drop_last() == es.take(i as int));
            assert(es.take(i + 1).last() == es[i as int]);
            assert(es[i as int] == snapshot.entities@[i as int]@);
        }
        match &snapshot.entities[i] {
            Entity::Character(c) => {
                if contains_str(&inf, c.id.as_str()) {
                    let ghost rv = rel_views(c.relationships@);
                    let ghost pred = would_tell(iv, es, trust_threshold);
                    let mut k: usize = 0;
                    while k < c.relationships.len()
                        invariant
                            k <= c.relationships@.len(),
                            rv == rel_views(c.relationships@),
                            es == snapshot@.entities,
                            iv == views(inf@),
                            eid == edge@.id,
                            pred == would_tell(iv, es, trust_threshold),
                            perception_views(out@) == perceptions_of(
                                before + rv.take(k as int).filter(pred).map_values(|r: RelationshipV| r.target),
                                eid,
                                PerceptionMode::Told,
                            ),
                        decreases c.relationships@.len() - k,
                    {
                        proof {
                            assert(rv.take(k + 1) == rv.take(k as int).push(rv[k as int]));
                            rv.take(k as int).lemma_filter_push(rv[k as int], pred);
                        }
                        let rel = &c.relationships[k];
                        if rel.trust >= trust_threshold && !contains_str(&inf, rel.target.as_str()) && is_character(
                            rel.target.as_str(),
                            snapshot,
                        ) {
                            let ghost o0 = out@;
                            out.push(
                                Perception {
                                    character: owned(rel.target.as_str()),
                                    edge_id: owned(edge.id.as_str()),
                                    mode: PerceptionMode::Told,
                                },
                            );
                            let ghost pv = PerceptionV { character: rel.target@, edge_id: eid, mode: PerceptionMode::Told };
                            assert(perception_views(out@) =~= perception_views(o0).push(pv));
                            assert(before + rv.take(k + 1).filter(pred).map_values(|r: RelationshipV| r.target) =~= (before
                                + rv.take(k as int).filter(pred).map_values(|r: RelationshipV| r.target)).push(
                                rel.target@,
                            ));
                            assert(perceptions_of(
                                (before + rv.take(k as int).filter(pred).map_values(|r: RelationshipV| r.target)).push(
                                    rel.target@,
                                ),
                                eid,
                                PerceptionMode::Told,
                            ) =~= perceptions_of(
                                before + rv.take(k as int).filter(pred).map_values(|r: RelationshipV| r.target),
                                eid,
                                PerceptionMode::Told,
                            ).push(pv));
                        }
                        k += 1;
                    }
                    assert(rv.take(c.relationships@.len() as int) == rv);
                } else {
                    assert(told_targets(es, es.take(i + 1), iv, trust_threshold) =~= before);
                }
            },
            _ => {
                assert(told_targets(es, es.take(i + 1), iv, trust_threshold) =~= before);
            },
        }
        i += 1;
    }
    assert(es.take(es.len() as int) == es);
    out
}

// ── All edges ────────────────────────────────────────────────────

/// Perceptions of an edge after at most `n` rounds of telling, stopping
/// early once a round tells no one.
pub open spec fn spread(e: MemoryEdgeV, s: SnapshotV, th: i8, n: nat, ps: Seq<PerceptionV>) -> Seq<PerceptionV>
    decreases n,
{
    if n == 0 {
        ps
    } else {
        let t = told_spec(e, ps, s, th);
        if t.len() == 0 {
            ps
        } else {
            spread(e, s, th, (n - 1) as nat, ps + t)
        }
    }
}

/// Every edge's perceptions, edge by edge: its witnesses, then those told.
pub open spec fn perceive_all_spec(es: Seq<MemoryEdgeV>, s: SnapshotV, th: i8, n: nat) -> Seq<PerceptionV>
    decreases es.len(),
{
    if es.len() == 0 {
        Seq::empty()
    } else {
        let e = es.last();
        perceive_all_spec(es.drop_last(), s, th, n) + spread(
            e,
            s,
            th,
            n,
            perceptions_of(witnesses(e, s), e.id, PerceptionMode::Witnessed),
        )
    }
}

fn append_perceptions(v: &mut Vec<Perception>, more: Vec<Perception>)
    ensures
        perception_views(final(v)@) == perception_views(old(v)@) + perception_views(more@),
{
    let ghost a = perception_views(v@);
    let ghost b = perception_views(more@);
    let mut more = more;
    v.append(&mut more);
    assert(perception_views(v@) =~= a + b);
}

/// Generate perceptions for all edges, with up to `propagation_rounds`
/// rounds of telling each.
pub fn perceive_all(edges: &Vec<MemoryEdge>, snapshot: &Snapshot, trust_threshold: i8, propagation_rounds: usize) -> (r:
    Vec<Perception>)
    ensures
        perception_views(r@) == perceive_all_spec(edge_views(edges@), snapshot@, trust_threshold, propagation_rounds as nat),
{
    let ghost ev = edge_views(edges@);
    let mut all: Vec<Perception> = Vec::new();
    let mut i: usize = 0;
    while i < edges.len()
        invariant
            i <= edges@.len(),
            ev == edge_views(edges@),
            perception_views(all@) == perceive_all_spec(ev.take(i as int), snapshot@, trust_threshold, propagation_rounds as nat),
        decreases edges@.len() - i,
    {
        let edge = &edges[i];
        assert(ev.take(i + 1).drop_last() == ev.take(i as int));
        assert(ev.take(i + 1).last() == edge@);
        let mut ps = auto_perceive(edge, snapshot);
        let ghost p0 = perception_views(ps@);
        let mut r: usize = 0;
        let mut done = false;
        while r < propagation_rounds && !done
            invariant
                r <= propagation_rounds,
                spread(edge@, snapshot@, trust_threshold, propagation_rounds as nat, p0) == spread(
                    edge@,
                    snapshot@,
                    trust_threshold,
                    (propagation_rounds - r) as nat,
                    perception_views(ps@),
                ),
                done ==> told_spec(edge@, perception_views(ps@), snapshot@, trust_threshold).len() == 0 && r
                    < propagation_rounds,
            decreases propagation_rounds - r, if done { 0int } else { 1int },
        {
            let told = propagate_told(edge, &ps, snapshot, trust_threshold);
            if told.len() == 0 {
                done = true;
            } else {
                append_perceptions(&mut ps, told);
                r += 1;
            }
        }
        append_perceptions(&mut all, ps);
        i += 1;
    }
    assert(ev.take(edges@.len() as int) == ev);
    all
}

} // verus!
