//! Memory hyperedges: one perceivable narrative event connecting every
//! participant, location, secret and object it involves.
use vstd::prelude::*;

use crate::intent::{join_with, push_joined};
use crate::op::{Op, OpV, cat3, cat4, duplicate_ops, op_views};
use crate::text::{Chars, dec, owned, push_dec, push_str, str_eq, views};

verus! {

broadcast use vstd::seq_lib::group_seq_properties;

/// A hyperedge for a single perceivable event, made from the effects of a
/// content node. Its emotional valence and salience are floating-point
/// estimates kept beside it by the memory builder.
#[derive(Debug)]
pub struct MemoryEdge {
    /// Unique edge identifier (`node:seq`).
    pub id: String,
    /// Content node where this event occurred.
    pub content_node: String,
    /// Human-readable event description.
    pub description: String,
    /// Sequence number in the narrative timeline.
    pub seq: u32,
    /// Characters involved as actors or subjects.
    pub participants: Vec<String>,
    /// Locations where the event takes place.
    pub locations: Vec<String>,
    /// Secrets disclosed or relevant.
    pub secrets: Vec<String>,
    /// Objects (inventory items) involved.
    pub objects: Vec<String>,
    /// How many times this memory has been referenced.
    pub rehearsal_count: u32,
    /// The effects that produced this edge.
    pub source_ops: Vec<Op>,
}

pub ghost struct MemoryEdgeV {
    pub id: Chars,
    pub content_node: Chars,
    pub description: Chars,
    pub seq: u32,
    pub participants: Seq<Chars>,
    pub locations: Seq<Chars>,
    pub secrets: Seq<Chars>,
    pub objects: Seq<Chars>,
    pub rehearsal_count: u32,
    pub source_ops: Seq<OpV>,
}

impl View for MemoryEdge {
    type V = MemoryEdgeV;

    open spec fn view(&self) -> MemoryEdgeV {
        MemoryEdgeV {
            id: self.id@,
            content_node: self.content_node@,
            description: self.description@,
            seq: self.seq,
            participants: views(self.participants@),
            locations: views(self.locations@),
            secrets: views(self.secrets@),
            objects: views(self.objects@),
            rehearsal_count: self.rehearsal_count,
            source_ops: op_views(self.source_ops@),
        }
    }
}

pub open spec fn edge_views(es: Seq<MemoryEdge>) -> Seq<MemoryEdgeV> {
    es.map_values(|e: MemoryEdge| e@)
}

// ── Who and what an effect involves ──────────────────────────────

/// The kinds of node an event connects.
pub ghost enum NodeKind {
    Participant,
    Location,
    Secret,
    Object,
}

/// What an effect adds to each kind, in order.
pub open spec fn involved(k: NodeKind, op: OpV) -> Seq<Chars> {
    match (k, op) {
        (NodeKind::Participant, OpV::AddTrait { entity, .. }) => seq![entity],
        (NodeKind::Participant, OpV::RemoveTrait { entity, .. }) => seq![entity],
        (NodeKind::Participant, OpV::SetBelief { entity, .. }) => seq![entity],
        (NodeKind::Participant, OpV::AddDesire { entity, .. }) => seq![entity],
        (NodeKind::Participant, OpV::RemoveDesire { entity, .. }) => seq![entity],
        (NodeKind::Participant, OpV::Move { entity, .. }) => seq![entity],
        (NodeKind::Location, OpV::Move { location, .. }) => seq![location],
        (NodeKind::Participant, OpV::AddItem { entity, .. }) => seq![entity],
        (NodeKind::Participant, OpV::RemoveItem { entity, .. }) => seq![entity],
        (NodeKind::Object, OpV::AddItem { item, .. }) => seq![item],
        (NodeKind::Object, OpV::RemoveItem { item, .. }) => seq![item],
        (NodeKind::Participant, OpV::AddRel { entity, target, .. }) => seq![entity, target],
        (NodeKind::Participant, OpV::RemoveRel { entity, target }) => seq![entity, target],
        (NodeKind::Secret, OpV::Reveal { secret, .. }) => seq![secret],
        (NodeKind::Participant, OpV::Reveal { to, .. }) => seq![to],
        (NodeKind::Secret, OpV::RevealToReader { secret }) => seq![secret],
        (NodeKind::Participant, OpV::ResolveGoal { owner, .. }) => seq![owner],
        (NodeKind::Participant, OpV::FailGoal { owner, .. }) => seq![owner],
        (NodeKind::Participant, OpV::EmergeGoal { owner, .. }) => seq![owner],
        _ => Seq::empty(),
    }
}

/// What a run of effects adds to a kind, in order.
pub open spec fn involved_all(k: NodeKind, ops: Seq<OpV>) -> Seq<Chars>
    decreases ops.len(),
{
    if ops.len() == 0 {
        Seq::empty()
    } else {
        involved_all(k, ops.drop_last()) + involved(k, ops.last())
    }
}

/// Appends a value unless it is already there.
pub open spec fn push_new(d: Seq<Chars>, x: Chars) -> Seq<Chars> {
    if d.contains(x) {
        d
    } else {
        d.push(x)
    }
}

/// The values in order of first appearance, each once, after `d`.
pub open spec fn unique_from(d: Seq<Chars>, xs: Seq<Chars>) -> Seq<Chars>
    decreases xs.len(),
{
    if xs.len() == 0 {
        d
    } else {
        push_new(unique_from(d, xs.drop_last()), xs.last())
    }
}

pub proof fn lemma_unique_append(d: Seq<Chars>, a: Seq<Chars>, b: Seq<Chars>)
    ensures
        unique_from(d, a + b) == unique_from(unique_from(d, a), b),
    decreases b.len(),
{
    if b.len() == 0 {
        assert(a + b =~= a);
    } else {
        assert((a + b).drop_last() =~= a + b.drop_last());
        lemma_unique_append(d, a, b.drop_last());
    }
}

// ── Descriptions ─────────────────────────────────────────────────

/// One effect as a short sentence.
pub open spec fn event_text(op: OpV) -> Chars {
    match op {
        OpV::Move { entity, location } => entity + "移动到"@ + location,
        OpV::AddTrait { entity, value } => entity + "获得特质「"@ + value + "」"@,
        OpV::RemoveTrait { entity, value } => entity + "失去特质「"@ + value + "」"@,
        OpV::AddItem { entity, item } => entity + "获得"@ + item,
        OpV::RemoveItem { entity, item } => entity + "失去"@ + item,
        OpV::AddRel { entity, target, rel } => entity + "与"@ + target + "建立关系「"@ + rel + "」"@,
        OpV::RemoveRel { entity, target } => entity + "与"@ + target + "断绝关系"@,
        OpV::SetBelief { entity, old, new } => entity + "的信念从「"@ + old + "」变为「"@ + new + "」"@,
        OpV::AddDesire { entity, value } => entity + "产生欲望「"@ + value + "」"@,
        OpV::RemoveDesire { entity, value } => entity + "放弃欲望「"@ + value + "」"@,
        OpV::Reveal { secret, to } => to + "得知秘密「"@ + secret + "」"@,
        OpV::RevealToReader { secret } => "读者得知秘密「"@ + secret + "」"@,
        OpV::ResolveGoal { owner, goal_id, .. } => owner + "达成目标「"@ + goal_id + "」"@,
        OpV::FailGoal { owner, goal_id } => owner + "的目标「"@ + goal_id + "」失败"@,
        OpV::EmergeGoal { owner, goal_id, want, .. } => owner + "产生新目标「"@ + goal_id + "」: "@ + want,
    }
}

/// The sentences of all effects, joined with `；`.
pub open spec fn events_text(ops: Seq<OpV>) -> Chars {
    join_with(ops.map_values(|o: OpV| event_text(o)), "；"@)
}

/// The edge a group of effects on a content node gives.
pub open spec fn edge_spec(node: Chars, seq: u32, ops: Seq<OpV>) -> MemoryEdgeV {
    MemoryEdgeV {
        id: node + ":"@ + dec(seq as nat),
        content_node: node,
        description: events_text(ops),
        seq,
        participants: unique_from(Seq::empty(), involved_all(NodeKind::Participant, ops)),
        locations: unique_from(Seq::empty(), involved_all(NodeKind::Location, ops)),
        secrets: unique_from(Seq::empty(), involved_all(NodeKind::Secret, ops)),
        objects: unique_from(Seq::empty(), involved_all(NodeKind::Object, ops)),
        rehearsal_count: 0,
        source_ops: ops,
    }
}

/// Every node the edge connects: participants, locations, secrets, objects.
pub open spec fn nodes_of(e: MemoryEdgeV) -> Seq<Chars> {
    e.participants + e.locations + e.secrets + e.objects
}

fn push_unique(v: &mut Vec<String>, val: &str)
    ensures
        views(final(v)@) == push_new(views(old(v)@), val@),
{
    let ghost d = views(v@);
    let mut i: usize = 0;
    while i < v.len()
        invariant
            i <= v@.len(),
            d == views(v@),
            v@ == old(v)@,
            forall|k: int| 0 <= k < i ==> d[k] != val@,
        decreases v@.len() - i,
    {
        if str_eq(v[i].as_str(), val) {
            assert(d[i as int] == val@);
            return;
        }
        i += 1;
    }
    let ghost prev = v@;
    v.push(owned(val));
    assert(views(v@) =~= views(prev).push(val@));
}

fn event_sentence(op: &Op) -> (r: String)
    ensures
        r@ == event_text(op@),
{
    match op {
        Op::Move { entity, location } => cat3(entity.as_str(), "移动到", location.as_str()),
        Op::AddTrait { entity, value } => cat4(entity.as_str(), "获得特质「", value.as_str(), "」"),
        Op::RemoveTrait { entity, value } => cat4(entity.as_str(), "失去特质「", value.as_str(), "」"),
        Op::AddItem { entity, item } => cat3(entity.as_str(), "获得", item.as_str()),
        Op::RemoveItem { entity, item } => cat3(entity.as_str(), "失去", item.as_str()),
        Op::AddRel { entity, target, rel } => {
            let mut r = cat4(entity.as_str(), "与", target.as_str(), "建立关系「");
            push_str(&mut r, rel.as_str());
            push_str(&mut r, "」");
            r
        },
        Op::RemoveRel { entity, target } => cat4(entity.as_str(), "与", target.as_str(), "断绝关系"),
        Op::SetBelief { entity, old, new } => {
            let mut r = cat4(entity.as_str(), "的信念从「", old.as_str(), "」变为「");
            push_str(&mut r, new.as_str());
            push_str(&mut r, "」");
            r
        },
        Op::AddDesire { entity, value } => cat4(entity.as_str(), "产生欲望「", value.as_str(), "」"),
        Op::RemoveDesire { entity, value } => cat4(entity.as_str(), "放弃欲望「", value.as_str(), "」"),
        Op::Reveal { secret, to } => cat4(to.as_str(), "得知秘密「", secret.as_str(), "」"),
        Op::RevealToReader { secret } => cat3("读者得知秘密「", secret.as_str(), "」"),
        Op::ResolveGoal { owner, goal_id, .. } => cat4(owner.as_str(), "达成目标「", goal_id.as_str(), "」"),
        Op::FailGoal { owner, goal_id } => cat4(owner.as_str(), "的目标「", goal_id.as_str(), "」失败"),
        Op::EmergeGoal { owner, goal_id, want, .. } => {
            let mut r = cat4(owner.as_str(), "产生新目标「", goal_id.as_str(), "」: ");
            push_str(&mut r, want.as_str());
            r
        },
    }
}

fn describe_ops(ops: &Vec<Op>) -> (r: String)
    ensures
        r@ == events_text(op_views(ops@)),
{
    let mut parts: Vec<String> = Vec::new();
    let mut i: usize = 0;
    while i < ops.len()
        invariant
            i <= ops@.len(),
            views(parts@) == op_views(ops@).take(i as int).map_values(|o: OpV| event_text(o)),
        decreases ops@.len() - i,
    {
        let ghost prev = parts@;
        parts.push(event_sentence(&ops[i]));
        assert(views(parts@) =~= views(prev).push(event_text(ops@[i as int]@)));
        assert(op_views(ops@).take(i + 1).map_values(|o: OpV| event_text(o)) =~= op_views(ops@).take(
            i as int,
        ).map_values(|o: OpV| event_text(o)).push(event_text(ops@[i as int]@)));
        i += 1;
    }
    assert(op_views(ops@).take(ops@.len() as int) == op_views(ops@));
    let mut out = String::new();
    push_joined(&mut out, &parts, "；");
    out
}

/// The four lists an edge keeps, as they stand after some effects.
pub open spec fn lists_after(ops: Seq<OpV>) -> (Seq<Chars>, Seq<Chars>, Seq<Chars>, Seq<Chars>) {
    (
        unique_from(Seq::empty(), involved_all(NodeKind::Participant, ops)),
        unique_from(Seq::empty(), involved_all(NodeKind::Location, ops)),
        unique_from(Seq::empty(), involved_all(NodeKind::Secret, ops)),
        unique_from(Seq::empty(), involved_all(NodeKind::Object, ops)),
    )
}

proof fn lemma_step(ops: Seq<OpV>, i: int, k: NodeKind)
    requires
        0 <= i < ops.len(),
    ensures
        unique_from(Seq::empty(), involved_all(k, ops.take(i + 1))) == unique_from(
            unique_from(Seq::empty(), involved_all(k, ops.take(i))),
            involved(k, ops[i]),
        ),
{
    assert(ops.take(i + 1).drop_last() =~= ops.take(i));
    assert(ops.take(i + 1).last() == ops[i]);
    lemma_unique_append(Seq::empty(), involved_all(k, ops.take(i)), involved(k, ops[i]));
}

proof fn lemma_one(d: Seq<Chars>, x: Chars)
    ensures
        unique_from(d, seq![x]) == push_new(d, x),
{
    assert(seq![x].drop_last() =~= Seq::<Chars>::empty());
    assert(seq![x].last() == x);
    assert(unique_from(d, seq![x].drop_last()) == d);
}

proof fn lemma_two(d: Seq<Chars>, x: Chars, y: Chars)
    ensures
        unique_from(d, seq![x, y]) == push_new(push_new(d, x), y),
{
    assert(seq![x, y].drop_last() =~= seq![x]);
    lemma_one(d, x);
}

proof fn lemma_none(d: Seq<Chars>)
    ensures
        unique_from(d, Seq::empty()) == d,
{
}

fn push_refs<'a>(nodes: &mut Vec<&'a str>, list: &'a Vec<String>)
    ensures
        final(nodes)@.map_values(|s: &str| s@) == old(nodes)@.map_values(|s: &str| s@) + views(list@),
{
    let ghost base = nodes@.map_values(|s: &str| s@);
    let mut k: usize = 0;
    while k < list.len()
        invariant
            k <= list@.len(),
            nodes@.map_values(|s: &str| s@) == base + views(list@).take(k as int),
        decreases list@.len() - k,
    {
        let ghost prev = nodes@;
        nodes.push(list[k].as_str());
        assert(nodes@.map_values(|s: &str| s@) =~= prev.map_values(|s: &str| s@).push(list@[k as int]@));
        assert(views(list@).take(k + 1) =~= views(list@).take(k as int).push(list@[k as int]@));
        k += 1;
    }
    assert(views(list@).take(list@.len() as int) == views(list@));
}

impl MemoryEdge {
    /// Create a memory edge from a group of effects on a content node: it
    /// connects every character, location, secret and object they name,
    /// each once, in order of first mention.
    pub fn from_ops(content_node: &str, seq: u32, ops: &Vec<Op>) -> (r: MemoryEdge)
        ensures
            r@ == edge_spec(content_node@, seq, op_views(ops@)),
    {
        let ghost ov = op_views(ops@);
        let mut participants: Vec<String> = Vec::new();
        let mut locations: Vec<String> = Vec::new();
        let mut secrets: Vec<String> = Vec::new();
        let mut objects: Vec<String> = Vec::new();
        let mut i: usize = 0;
        while i < ops.len()
            invariant
                i <= ops@.len(),
                ov == op_views(ops@),
                (views(participants@), views(locations@), views(secrets@), views(objects@)) == lists_after(
                    ov.take(i as int),
                ),
            decreases ops@.len() - i,
        {
            proof {
                lemma_step(ov, i as int, NodeKind::Participant);
                lemma_step(ov, i as int, NodeKind::Location);
                lemma_step(ov, i as int, NodeKind::Secret);
                lemma_step(ov, i as int, NodeKind::Object);
                lemma_none(views(participants@));
                lemma_none(views(locations@));
                lemma_none(views(secrets@));
                lemma_none(views(objects@));
                assert(ov[i as int] == ops@[i as int]@);
            }
            match &ops[i] {
                Op::AddTrait { entity, .. } | Op::RemoveTrait { entity, .. } | Op::SetBelief { entity, .. }
                | Op::AddDesire { entity, .. } | Op::RemoveDesire { entity, .. } => {
                    proof { lemma_one(views(participants@), entity@); }
                    push_unique(&mut participants, entity.as_str());
                },
                Op::Move { entity, location } => {
                    proof {
                        lemma_one(views(participants@), entity@);
                        lemma_one(views(locations@), location@);
                    }
                    push_unique(&mut participants, entity.as_str());
                    push_unique(&mut locations, location.as_str());
                },
                Op::AddItem { entity, item } | Op::RemoveItem { entity, item } => {
                    proof {
                        lemma_one(views(participants@), entity@);
                        lemma_one(views(objects@), item@);
                    }
                    push_unique(&mut participants, entity.as_str());
                    push_unique(&mut objects, item.as_str());
                },
                Op::AddRel { entity, target, .. } | Op::RemoveRel { entity, target } => {
                    proof { lemma_two(views(participants@), entity@, target@); }
                    push_unique(&mut participants, entity.as_str());
                    push_unique(&mut participants, target.as_str());
                },
                Op::Reveal { secret, to } => {
                    proof {
                        lemma_one(views(secrets@), secret@);
                        lemma_one(views(participants@), to@);
                    }
                    push_unique(&mut secrets, secret.as_str());
                    push_unique(&mut participants, to.as_str());
                },
                Op::RevealToReader { secret } => {
                    proof { lemma_one(views(secrets@), secret@); }
                    push_unique(&mut secrets, secret.as_str());
                },
                Op::ResolveGoal { owner, .. } | Op::FailGoal { owner, .. } | Op::EmergeGoal { owner, .. } => {
                    proof { lemma_one(views(participants@), owner@); }
                    push_unique(&mut participants, owner.as_str());
                },
            }
            i += 1;
        }
        assert(ov.take(ops@.len() as int) == ov);
        let mut id = owned(content_node);
        push_str(&mut id, ":");
        push_dec(&mut id, seq as u64);
        MemoryEdge {
            id,
            content_node: owned(content_node),
            description: describe_ops(ops),
            seq,
            participants,
            locations,
            secrets,
            objects,
            rehearsal_count: 0,
            source_ops: duplicate_ops(ops),
        }
    }

    /// All node ids the edge connects (for graph algorithms).
    pub fn all_nodes(&self) -> (r: Vec<&str>)
        ensures
            r@.map_values(|s: &str| s@) == nodes_of(self@),
    {
        let mut nodes: Vec<&str> = Vec::new();
        push_refs(&mut nodes, &self.participants);
        push_refs(&mut nodes, &self.locations);
        push_refs(&mut nodes, &self.secrets);
        push_refs(&mut nodes, &self.objects);
        assert(nodes@.map_values(|s: &str| s@) =~= nodes_of(self@));
        nodes
    }

    /// Number of nodes connected (the hyperedge's cardinality).
    pub fn cardinality(&self) -> (r: usize)
        requires
            nodes_of(self@).len() <= usize::MAX,
        ensures
            r == nodes_of(self@).len(),
    {
        self.participants.len() + self.locations.len() + self.secrets.len() + self.objects.len()
    }
}

impl MemoryEdge {
    /// A copy of the edge.
    pub fn duplicate(&self) -> (r: MemoryEdge)
        ensures
            r@ == self@,
    {
        MemoryEdge {
            id: owned(self.id.as_str()),
            content_node: owned(self.content_node.as_str()),
            description: owned(self.description.as_str()),
            seq: self.seq,
            participants: crate::text::clone_strs(&self.participants),
            locations: crate::text::clone_strs(&self.locations),
            secrets: crate::text::clone_strs(&self.secrets),
            objects: crate::text::clone_strs(&self.objects),
            rehearsal_count: self.rehearsal_count,
            source_ops: duplicate_ops(&self.source_ops),
        }
    }
}

} // verus!
