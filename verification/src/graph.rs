//! Entity relationship graph — the "world map" index. It indexes entities
//! by type, location and relationships, and extracts subgraphs around a
//! scene's entities.
//!
//! The keyed indexes are kept as lists of `(key, value)` entries in the
//! order they were made; the entries of one key, in order, are what the
//! key maps to.
use vstd::prelude::*;

use crate::entity::{Entity, EntityV, Relationship, RelationshipV, rel_views};
use crate::text::{Chars, chars_of, chars_ident, is_ident, owned, push_char, push_str, str_eq, views};

verus! {

broadcast use vstd::seq_lib::group_seq_properties;

/// Type of edge in the world graph.
#[derive(Debug)]
pub enum EdgeKind {
    /// character → location
    At,
    /// character → character, with the relationship's role
    Rel(String),
    /// location → location
    Connected,
    /// character → faction
    Member,
    /// faction → faction
    Rival,
}

pub ghost enum EdgeKindV {
    At,
    Rel(Chars),
    Connected,
    Member,
    Rival,
}

impl View for EdgeKind {
    type V = EdgeKindV;

    open spec fn view(&self) -> EdgeKindV {
        match self {
            EdgeKind::At => EdgeKindV::At,
            EdgeKind::Rel(r) => EdgeKindV::Rel(r@),
            EdgeKind::Connected => EdgeKindV::Connected,
            EdgeKind::Member => EdgeKindV::Member,
            EdgeKind::Rival => EdgeKindV::Rival,
        }
    }
}

impl EdgeKind {
    pub fn duplicate(&self) -> (r: EdgeKind)
        ensures
            r@ == self@,
    {
        match self {
            EdgeKind::At => EdgeKind::At,
            EdgeKind::Rel(r) => EdgeKind::Rel(r.clone()),
            EdgeKind::Connected => EdgeKind::Connected,
            EdgeKind::Member => EdgeKind::Member,
            EdgeKind::Rival => EdgeKind::Rival,
        }
    }

    pub fn is_at(&self) -> (r: bool)
        ensures
            r == (self@ == EdgeKindV::At),
    {
        match self {
            EdgeKind::At => true,
            _ => false,
        }
    }
}

/// A node in the world graph.
#[derive(Debug)]
pub struct GraphNode {
    pub id: String,
    pub entity_type: String,
    pub name: Option<String>,
}

pub ghost struct GraphNodeV {
    pub id: Chars,
    pub entity_type: Chars,
    pub name: Option<Chars>,
}

impl View for GraphNode {
    type V = GraphNodeV;

    open spec fn view(&self) -> GraphNodeV {
        GraphNodeV {
            id: self.id@,
            entity_type: self.entity_type@,
            name: match self.name {
                Some(n) => Some(n@),
                None => None,
            },
        }
    }
}

impl GraphNode {
    pub fn duplicate(&self) -> (r: GraphNode)
        ensures
            r@ == self@,
    {
        GraphNode { id: self.id.clone(), entity_type: self.entity_type.clone(), name: crate::text::clone_opt(&self.name) }
    }
}

/// A directed edge in the world graph.
#[derive(Debug)]
pub struct GraphEdge {
    pub from: String,
    pub to: String,
    pub kind: EdgeKind,
}

pub ghost struct GraphEdgeV {
    pub from: Chars,
    pub to: Chars,
    pub kind: EdgeKindV,
}

impl View for GraphEdge {
    type V = GraphEdgeV;

    open spec fn view(&self) -> GraphEdgeV {
        GraphEdgeV { from: self.from@, to: self.to@, kind: self.kind@ }
    }
}

impl GraphEdge {
    pub fn duplicate(&self) -> (r: GraphEdge)
        ensures
            r@ == self@,
    {
        GraphEdge { from: self.from.clone(), to: self.to.clone(), kind: self.kind.duplicate() }
    }
}

/// One entry of a keyed index: `key` maps to `value`.
#[derive(Debug)]
pub struct IndexEntry {
    pub key: String,
    pub value: String,
}

/// One entry of the adjacency index: `node` has `neighbor` over `kind`.
#[derive(Debug)]
pub struct Adjacent {
    pub node: String,
    pub neighbor: String,
    pub kind: EdgeKind,
}

pub ghost struct AdjacentV {
    pub node: Chars,
    pub neighbor: Chars,
    pub kind: EdgeKindV,
}

impl View for Adjacent {
    type V = AdjacentV;

    open spec fn view(&self) -> AdjacentV {
        AdjacentV { node: self.node@, neighbor: self.neighbor@, kind: self.kind@ }
    }
}

/// The world relationship graph.
#[derive(Debug)]
pub struct WorldGraph {
    /// One node per distinct entity id, in order of first appearance.
    pub nodes: Vec<GraphNode>,
    pub edges: Vec<GraphEdge>,
    /// Entity type → entity id.
    pub by_type: Vec<IndexEntry>,
    /// Location → id of a character there.
    pub by_location: Vec<IndexEntry>,
    pub neighbors: Vec<Adjacent>,
}

pub ghost struct WorldGraphV {
    pub nodes: Seq<GraphNodeV>,
    pub edges: Seq<GraphEdgeV>,
    pub by_type: Seq<(Chars, Chars)>,
    pub by_location: Seq<(Chars, Chars)>,
    pub neighbors: Seq<AdjacentV>,
}

pub open spec fn node_views(s: Seq<GraphNode>) -> Seq<GraphNodeV> {
    s.map_values(|n: GraphNode| n@)
}

pub open spec fn edge_views(s: Seq<GraphEdge>) -> Seq<GraphEdgeV> {
    s.map_values(|e: GraphEdge| e@)
}

pub open spec fn index_views(s: Seq<IndexEntry>) -> Seq<(Chars, Chars)> {
    s.map_values(|e: IndexEntry| (e.key@, e.value@))
}

pub open spec fn adj_views(s: Seq<Adjacent>) -> Seq<AdjacentV> {
    s.map_values(|a: Adjacent| a@)
}

impl View for WorldGraph {
    type V = WorldGraphV;

    open spec fn view(&self) -> WorldGraphV {
        WorldGraphV {
            nodes: node_views(self.nodes@),
            edges: edge_views(self.edges@),
            by_type: index_views(self.by_type@),
            by_location: index_views(self.by_location@),
            neighbors: adj_views(self.neighbors@),
        }
    }
}

// ── The graph of a list of entities ─────────────────────────────

pub open spec fn node_of(e: EntityV) -> GraphNodeV {
    GraphNodeV { id: e.id(), entity_type: e.kind_name(), name: e.name() }
}

/// Position of the first node with the given id.
pub open spec fn id_index(p: Seq<GraphNodeV>, id: Chars) -> Option<int>
    decreases p.len(),
{
    if p.len() == 0 {
        None
    } else {
        match id_index(p.drop_last(), id) {
            Some(i) => Some(i),
            None => if p.last().id == id {
                Some(p.len() - 1)
            } else {
                None
            },
        }
    }
}

/// Registering a node: a node with the same id is replaced in place,
/// otherwise the node is appended.
pub open spec fn upsert(p: Seq<GraphNodeV>, n: GraphNodeV) -> Seq<GraphNodeV> {
    match id_index(p, n.id) {
        Some(i) => p.update(i, n),
        None => p.push(n),
    }
}

pub open spec fn nodes_spec(es: Seq<EntityV>) -> Seq<GraphNodeV>
    decreases es.len(),
{
    if es.len() == 0 {
        Seq::empty()
    } else {
        upsert(nodes_spec(es.drop_last()), node_of(es.last()))
    }
}

pub open spec fn edge(from: Chars, to: Chars, kind: EdgeKindV) -> GraphEdgeV {
    GraphEdgeV { from, to, kind }
}

pub open spec fn adj(node: Chars, neighbor: Chars, kind: EdgeKindV) -> AdjacentV {
    AdjacentV { node, neighbor, kind }
}

pub open spec fn rel_edges(id: Chars, rs: Seq<RelationshipV>) -> Seq<GraphEdgeV> {
    Seq::new(rs.len(), |i: int| edge(id, rs[i].target, EdgeKindV::Rel(rs[i].role)))
}

pub open spec fn rel_adjs(id: Chars, rs: Seq<RelationshipV>) -> Seq<AdjacentV> {
    Seq::new(rs.len(), |i: int| adj(id, rs[i].target, EdgeKindV::Rel(rs[i].role)))
}

pub open spec fn out_edges(id: Chars, ts: Seq<Chars>, k: EdgeKindV) -> Seq<GraphEdgeV> {
    Seq::new(ts.len(), |i: int| edge(id, ts[i], k))
}

pub open spec fn out_adjs(id: Chars, ts: Seq<Chars>, k: EdgeKindV) -> Seq<AdjacentV> {
    Seq::new(ts.len(), |i: int| adj(id, ts[i], k))
}

pub open spec fn member_edges(fid: Chars, ms: Seq<Chars>) -> Seq<GraphEdgeV> {
    Seq::new(ms.len(), |i: int| edge(ms[i], fid, EdgeKindV::Member))
}

/// Both directions of each membership, member first.
pub open spec fn member_adjs(fid: Chars, ms: Seq<Chars>) -> Seq<AdjacentV>
    decreases ms.len(),
{
    if ms.len() == 0 {
        Seq::empty()
    } else {
        member_adjs(fid, ms.drop_last()) + seq![
            adj(ms.last(), fid, EdgeKindV::Member),
            adj(fid, ms.last(), EdgeKindV::Member),
        ]
    }
}

/// The edges an entity contributes.
pub open spec fn entity_edges(e: EntityV) -> Seq<GraphEdgeV> {
    match e {
        EntityV::Character(c) => (match c.location {
            Some(l) => seq![edge(c.id, l, EdgeKindV::At)],
            None => Seq::empty(),
        }) + rel_edges(c.id, c.relationships),
        EntityV::Location(l) => out_edges(l.id, l.connections, EdgeKindV::Connected),
        EntityV::Faction(f) => member_edges(f.id, f.members) + out_edges(f.id, f.rivals, EdgeKindV::Rival),
    }
}

/// The adjacency entries an entity contributes (`At` and memberships in
/// both directions, the others from the entity).
pub open spec fn entity_adjs(e: EntityV) -> Seq<AdjacentV> {
    match e {
        EntityV::Character(c) => (match c.location {
            Some(l) => seq![adj(c.id, l, EdgeKindV::At), adj(l, c.id, EdgeKindV::At)],
            None => Seq::empty(),
        }) + rel_adjs(c.id, c.relationships),
        EntityV::Location(l) => out_adjs(l.id, l.connections, EdgeKindV::Connected),
        EntityV::Faction(f) => member_adjs(f.id, f.members) + out_adjs(f.id, f.rivals, EdgeKindV::Rival),
    }
}

pub open spec fn entity_at(e: EntityV) -> Seq<(Chars, Chars)> {
    match e {
        EntityV::Character(c) => match c.location {
            Some(l) => seq![(l, c.id)],
            None => Seq::empty(),
        },
        _ => Seq::empty(),
    }
}

pub open spec fn all_edges(es: Seq<EntityV>) -> Seq<GraphEdgeV>
    decreases es.len(),
{
    if es.len() == 0 {
        Seq::empty()
    } else {
        all_edges(es.drop_last()) + entity_edges(es.last())
    }
}

pub open spec fn all_adjs(es: Seq<EntityV>) -> Seq<AdjacentV>
    decreases es.len(),
{
    if es.len() == 0 {
        Seq::empty()
    } else {
        all_adjs(es.drop_last()) + entity_adjs(es.last())
    }
}

pub open spec fn all_at(es: Seq<EntityV>) -> Seq<(Chars, Chars)>
    decreases es.len(),
{
    if es.len() == 0 {
        Seq::empty()
    } else {
        all_at(es.drop_last()) + entity_at(es.last())
    }
}

/// The graph of a list of entities.
pub open spec fn graph_of(es: Seq<EntityV>) -> WorldGraphV {
    WorldGraphV {
        nodes: nodes_spec(es),
        edges: all_edges(es),
        by_type: Seq::new(es.len(), |i: int| (es[i].kind_name(), es[i].id())),
        by_location: all_at(es),
        neighbors: all_adjs(es),
    }
}

/// No two nodes share an id.
pub open spec fn ids_unique(p: Seq<GraphNodeV>) -> bool {
    forall|i: int, j: int| 0 <= i < j < p.len() ==> #[trigger] p[i].id != #[trigger] p[j].id
}

proof fn lemma_id_index(p: Seq<GraphNodeV>, id: Chars, j: int)
    requires
        0 <= j <= p.len(),
        forall|k: int| 0 <= k < j ==> #[trigger] p[k].id != id,
        j < p.len() ==> p[j].id == id,
    ensures
        id_index(p, id) == if j < p.len() {
            Some(j)
        } else {
            None::<int>
        },
    decreases p.len(),
{
    if p.len() > 0 {
        let jj = if j < p.len() - 1 {
            j
        } else {
            p.len() - 1
        };
        assert forall|k: int| 0 <= k < jj implies #[trigger] p.drop_last()[k].id != id by {
            assert(p.drop_last()[k] == p[k]);
        }
        lemma_id_index(p.drop_last(), id, jj);
    }
}

/// Registering nodes keeps their ids distinct.
pub proof fn lemma_nodes_unique(es: Seq<EntityV>)
    ensures
        ids_unique(nodes_spec(es)),
    decreases es.len(),
{
    if es.len() > 0 {
        let p = nodes_spec(es.drop_last());
        lemma_nodes_unique(es.drop_last());
        let n = node_of(es.last());
        match id_index(p, n.id) {
            Some(i) => {
                lemma_id_index_found(p, n.id);
                assert(ids_unique(p.update(i, n)));
            },
            None => {
                lemma_id_index_absent(p, n.id);
            },
        }
    }
}

proof fn lemma_id_index_found(p: Seq<GraphNodeV>, id: Chars)
    requires
        id_index(p, id) is Some,
    ensures
        id_index(p, id) matches Some(i) && 0 <= i < p.len() && p[i].id == id,
    decreases p.len(),
{
    if p.len() > 0 {
        if id_index(p.drop_last(), id) is Some {
            lemma_id_index_found(p.drop_last(), id);
        }
    }
}

proof fn lemma_id_index_absent(p: Seq<GraphNodeV>, id: Chars)
    requires
        id_index(p, id) is None,
    ensures
        forall|k: int| 0 <= k < p.len() ==> #[trigger] p[k].id != id,
    decreases p.len(),
{
    if p.len() > 0 {
        lemma_id_index_absent(p.drop_last(), id);
        assert forall|k: int| 0 <= k < p.len() implies #[trigger] p[k].id != id by {
            if k < p.len() - 1 {
                assert(p.drop_last()[k] == p[k]);
            }
        }
    }
}

// ── Building ─────────────────────────────────────────────────────

fn node_from(e: &Entity) -> (r: GraphNode)
    ensures
        r@ == node_of(e@),
{
    GraphNode {
        id: owned(e.id()),
        entity_type: owned(e.entity_type()),
        name: match e.name() {
            Some(n) => Some(owned(n)),
            None => None,
        },
    }
}

fn register(nodes: &mut Vec<GraphNode>, n: GraphNode)
    ensures
        node_views(final(nodes)@) == upsert(node_views(old(nodes)@), n@),
{
    let ghost nv = node_views(nodes@);
    let mut i: usize = 0;
    while i < nodes.len()
        invariant
            i <= nodes@.len(),
            nv == node_views(nodes@),
            nodes@ == old(nodes)@,
            forall|k: int| 0 <= k < i ==> #[trigger] nv[k].id != n@.id,
        decreases nodes@.len() - i,
    {
        if str_eq(nodes[i].id.as_str(), n.id.as_str()) {
            assert(nv[i as int] == nodes@[i as int]@);
            proof { lemma_id_index(nv, n@.id, i as int); }
            let ghost nn = n@;
            nodes.set(i, n);
            assert(node_views(nodes@) =~= nv.update(i as int, nn));
            return;
        }
        i += 1;
    }
    proof { lemma_id_index(nv, n@.id, nv.len() as int); }
    let ghost nn = n@;
    nodes.push(n);
    assert(node_views(nodes@) =~= nv.push(nn));
}

fn push_edge(edges: &mut Vec<GraphEdge>, from: &str, to: &str, kind: EdgeKind)
    ensures
        edge_views(final(edges)@) == edge_views(old(edges)@).push(edge(from@, to@, kind@)),
{
    let ghost prev = edges@;
    let e = GraphEdge { from: owned(from), to: owned(to), kind };
    edges.push(e);
    assert(edge_views(edges@) =~= edge_views(prev).push(e@));
}

fn push_adj(nb: &mut Vec<Adjacent>, node: &str, neighbor: &str, kind: EdgeKind)
    ensures
        adj_views(final(nb)@) == adj_views(old(nb)@).push(adj(node@, neighbor@, kind@)),
{
    let ghost prev = nb@;
    let a = Adjacent { node: owned(node), neighbor: owned(neighbor), kind };
    nb.push(a);
    assert(adj_views(nb@) =~= adj_views(prev).push(a@));
}

fn push_entry(ix: &mut Vec<IndexEntry>, key: &str, value: &str)
    ensures
        index_views(final(ix)@) == index_views(old(ix)@).push((key@, value@)),
{
    let ghost prev = ix@;
    ix.push(IndexEntry { key: owned(key), value: owned(value) });
    assert(index_views(ix@) =~= index_views(prev).push((key@, value@)));
}

fn add_rels(id: &str, rs: &Vec<Relationship>, edges: &mut Vec<GraphEdge>, nb: &mut Vec<Adjacent>)
    ensures
        edge_views(final(edges)@) == edge_views(old(edges)@) + rel_edges(id@, rel_views(rs@)),
        adj_views(final(nb)@) == adj_views(old(nb)@) + rel_adjs(id@, rel_views(rs@)),
{
    let ghost e0 = edge_views(edges@);
    let ghost n0 = adj_views(nb@);
    let ghost rv = rel_views(rs@);
    let mut i: usize = 0;
    while i < rs.len()
        invariant
            i <= rs@.len(),
            rv == rel_views(rs@),
            edge_views(edges@) == e0 + rel_edges(id@, rv.take(i as int)),
            adj_views(nb@) == n0 + rel_adjs(id@, rv.take(i as int)),
        decreases rs@.len() - i,
    {
        assert(rv[i as int] == rs@[i as int]@);
        push_edge(edges, id, rs[i].target.as_str(), EdgeKind::Rel(rs[i].role.clone()));
        push_adj(nb, id, rs[i].target.as_str(), EdgeKind::Rel(rs[i].role.clone()));
        assert(rel_edges(id@, rv.take(i + 1)) =~= rel_edges(id@, rv.take(i as int)).push(
            edge(id@, rv[i as int].target, EdgeKindV::Rel(rv[i as int].role)),
        ));
        assert(rel_adjs(id@, rv.take(i + 1)) =~= rel_adjs(id@, rv.take(i as int)).push(
            adj(id@, rv[i as int].target, EdgeKindV::Rel(rv[i as int].role)),
        ));
        i += 1;
    }
    assert(rv.take(rs@.len() as int) == rv);
}

/// Edges `id → t` of one kind, for each target `t`.
fn add_outgoing(
    id: &str,
    ts: &Vec<String>,
    rival: bool,
    edges: &mut Vec<GraphEdge>,
    nb: &mut Vec<Adjacent>,
)
    ensures
        edge_views(final(edges)@) == edge_views(old(edges)@) + out_edges(
            id@,
            views(ts@),
            if rival {
                EdgeKindV::Rival
            } else {
                EdgeKindV::Connected
            },
        ),
        adj_views(final(nb)@) == adj_views(old(nb)@) + out_adjs(
            id@,
            views(ts@),
            if rival {
                EdgeKindV::Rival
            } else {
                EdgeKindV::Connected
            },
        ),
{
    let ghost k = if rival {
        EdgeKindV::Rival
    } else {
        EdgeKindV::Connected
    };
    let ghost e0 = edge_views(edges@);
    let ghost n0 = adj_views(nb@);
    let ghost tv = views(ts@);
    let mut i: usize = 0;
    while i < ts.len()
        invariant
            i <= ts@.len(),
            tv == views(ts@),
            k == if rival {
                EdgeKindV::Rival
            } else {
                EdgeKindV::Connected
            },
            edge_views(edges@) == e0 + out_edges(id@, tv.take(i as int), k),
            adj_views(nb@) == n0 + out_adjs(id@, tv.take(i as int), k),
        decreases ts@.len() - i,
    {
        let kind1 = if rival {
            EdgeKind::Rival
        } else {
            EdgeKind::Connected
        };
        let kind2 = if rival {
            EdgeKind::Rival
        } else {
            EdgeKind::Connected
        };
        push_edge(edges, id, ts[i].as_str(), kind1);
        push_adj(nb, id, ts[i].as_str(), kind2);
        assert(out_edges(id@, tv.take(i + 1), k) =~= out_edges(id@, tv.take(i as int), k).push(
            edge(id@, tv[i as int], k),
        ));
        assert(out_adjs(id@, tv.take(i + 1), k) =~= out_adjs(id@, tv.take(i as int), k).push(
            adj(id@, tv[i as int], k),
        ));
        i += 1;
    }
    assert(tv.take(ts@.len() as int) == tv);
}

fn add_members(fid: &str, ms: &Vec<String>, edges: &mut Vec<GraphEdge>, nb: &mut Vec<Adjacent>)
    ensures
        edge_views(final(edges)@) == edge_views(old(edges)@) + member_edges(fid@, views(ms@)),
        adj_views(final(nb)@) == adj_views(old(nb)@) + member_adjs(fid@, views(ms@)),
{
    let ghost e0 = edge_views(edges@);
    let ghost n0 = adj_views(nb@);
    let ghost mv = views(ms@);
    let mut i: usize = 0;
    while i < ms.len()
        invariant
            i <= ms@.len(),
            mv == views(ms@),
            edge_views(edges@) == e0 + member_edges(fid@, mv.take(i as int)),
            adj_views(nb@) == n0 + member_adjs(fid@, mv.take(i as int)),
        decreases ms@.len() - i,
    {
        push_edge(edges, ms[i].as_str(), fid, EdgeKind::Member);
        push_adj(nb, ms[i].as_str(), fid, EdgeKind::Member);
        push_adj(nb, fid, ms[i].as_str(), EdgeKind::Member);
        assert(member_edges(fid@, mv.take(i + 1)) =~= member_edges(fid@, mv.take(i as int)).push(
            edge(mv[i as int], fid@, EdgeKindV::Member),
        ));
        assert(mv.take(i + 1).drop_last() == mv.take(i as int));
        i += 1;
    }
    assert(mv.take(ms@.len() as int) == mv);
}

fn add_entity(
    e: &Entity,
    edges: &mut Vec<GraphEdge>,
    nb: &mut Vec<Adjacent>,
    by_location: &mut Vec<IndexEntry>,
)
    ensures
        edge_views(final(edges)@) == edge_views(old(edges)@) + entity_edges(e@),
        adj_views(final(nb)@) == adj_views(old(nb)@) + entity_adjs(e@),
        index_views(final(by_location)@) == index_views(old(by_location)@) + entity_at(e@),
{
    match e {
        Entity::Character(c) => {
            let ghost e0 = edge_views(edges@);
            let ghost n0 = adj_views(nb@);
            match &c.location {
                Some(loc) => {
                    push_adj(nb, c.id.as_str(), loc.as_str(), EdgeKind::At);
                    push_adj(nb, loc.as_str(), c.id.as_str(), EdgeKind::At);
                    push_entry(by_location, loc.as_str(), c.id.as_str());
                    push_edge(edges, c.id.as_str(), loc.as_str(), EdgeKind::At);
                },
                None => {
                    assert(index_views(by_location@) =~= index_views(old(by_location)@) + entity_at(e@));
                },
            }
            let ghost e1 = edge_views(edges@);
            let ghost n1 = adj_views(nb@);
            add_rels(c.id.as_str(), &c.relationships, edges, nb);
            assert(edge_views(edges@) =~= e0 + entity_edges(e@));
            assert(adj_views(nb@) =~= n0 + entity_adjs(e@));
        },
        Entity::Location(l) => {
            add_outgoing(l.id.as_str(), &l.connections, false, edges, nb);
            assert(index_views(by_location@) =~= index_views(old(by_location)@) + entity_at(e@));
        },
        Entity::Faction(f) => {
            let ghost e0 = edge_views(edges@);
            let ghost n0 = adj_views(nb@);
            add_members(f.id.as_str(), &f.members, edges, nb);
            add_outgoing(f.id.as_str(), &f.rivals, true, edges, nb);
            assert(edge_views(edges@) =~= e0 + entity_edges(e@));
            assert(adj_views(nb@) =~= n0 + entity_adjs(e@));
            assert(index_views(by_location@) =~= index_views(old(by_location)@) + entity_at(e@));
        },
    }
}

impl WorldGraph {
    /// Build the graph of a list of entities.
    pub fn build(entities: &Vec<Entity>) -> (r: WorldGraph)
        ensures
            r@ == graph_of(crate::entity::entity_views(entities@)),
            ids_unique(r@.nodes),
    {
        let ghost ev = crate::entity::entity_views(entities@);
        let mut nodes: Vec<GraphNode> = Vec::new();
        let mut by_type: Vec<IndexEntry> = Vec::new();
        let mut i: usize = 0;
        while i < entities.len()
            invariant
                i <= entities@.len(),
                ev == crate::entity::entity_views(entities@),
                node_views(nodes@) == nodes_spec(ev.take(i as int)),
                index_views(by_type@) == Seq::new(i as nat, |k: int| (ev[k].kind_name(), ev[k].id())),
            decreases entities@.len() - i,
        {
            assert(ev.take(i + 1).drop_last() == ev.take(i as int));
            let e = &entities[i];
            register(&mut nodes, node_from(e));
            push_entry(&mut by_type, e.entity_type(), e.id());
            assert(index_views(by_type@) =~= Seq::new((i + 1) as nat, |k: int| (ev[k].kind_name(), ev[k].id())));
            i += 1;
        }
        assert(ev.take(entities@.len() as int) == ev);
        let mut edges: Vec<GraphEdge> = Vec::new();
        let mut neighbors: Vec<Adjacent> = Vec::new();
        let mut by_location: Vec<IndexEntry> = Vec::new();
        let mut j: usize = 0;
        while j < entities.len()
            invariant
                j <= entities@.len(),
                ev == crate::entity::entity_views(entities@),
                edge_views(edges@) == all_edges(ev.take(j as int)),
                adj_views(neighbors@) == all_adjs(ev.take(j as int)),
                index_views(by_location@) == all_at(ev.take(j as int)),
            decreases entities@.len() - j,
        {
            assert(ev.take(j + 1).drop_last() == ev.take(j as int));
            add_entity(&entities[j], &mut edges, &mut neighbors, &mut by_location);
            j += 1;
        }
        assert(ev.take(entities@.len() as int) == ev);
        proof { lemma_nodes_unique(ev); }
        WorldGraph { nodes, edges, by_type, by_location, neighbors }
    }

    pub fn node_count(&self) -> (r: usize)
        ensures
            r == self@.nodes.len(),
    {
        self.nodes.len()
    }

    pub fn edge_count(&self) -> (r: usize)
        ensures
            r == self@.edges.len(),
    {
        self.edges.len()
    }

    /// Whether some node has the given id.
    pub fn contains_node(&self, id: &str) -> (r: bool)
        ensures
            r == exists|i: int| 0 <= i < self@.nodes.len() && #[trigger] self@.nodes[i].id == id@,
    {
        let mut i: usize = 0;
        while i < self.nodes.len()
            invariant
                i <= self.nodes@.len(),
                forall|k: int| 0 <= k < i ==> #[trigger] self@.nodes[k].id != id@,
            decreases self.nodes@.len() - i,
        {
            if str_eq(self.nodes[i].id.as_str(), id) {
                assert(self@.nodes[i as int].id == id@);
                return true;
            }
            i += 1;
        }
        false
    }
}

// ── Neighborhoods ────────────────────────────────────────────────

/// The given ids that are nodes of the graph.
pub open spec fn start_set(g: WorldGraphV, centers: Seq<Chars>) -> Set<Chars> {
    Set::new(
        |x: Chars| centers.contains(x) && exists|i: int| 0 <= i < g.nodes.len() && #[trigger] g.nodes[i].id == x,
    )
}

/// One of the first `j` adjacency entries leads from a member of `s` to `y`.
pub open spec fn hit(nb: Seq<AdjacentV>, s: Set<Chars>, j: int, y: Chars) -> bool {
    exists|i: int| 0 <= i < j && s.contains(#[trigger] nb[i].node) && nb[i].neighbor == y
}

/// `s` with every neighbor of its members added.
pub open spec fn step(nb: Seq<AdjacentV>, s: Set<Chars>) -> Set<Chars> {
    Set::new(|y: Chars| s.contains(y) || hit(nb, s, nb.len() as int, y))
}

proof fn lemma_hit_next(nb: Seq<AdjacentV>, s: Set<Chars>, j: int, y: Chars)
    requires
        0 <= j < nb.len(),
    ensures
        hit(nb, s, j + 1, y) == (hit(nb, s, j, y) || (s.contains(nb[j].node) && nb[j].neighbor == y)),
{
    if hit(nb, s, j + 1, y) {
        let i = choose|i: int| 0 <= i < j + 1 && s.contains(#[trigger] nb[i].node) && nb[i].neighbor == y;
        if i < j {
            assert(hit(nb, s, j, y));
        }
    }
    if hit(nb, s, j, y) {
        let i = choose|i: int| 0 <= i < j && s.contains(#[trigger] nb[i].node) && nb[i].neighbor == y;
        assert(hit(nb, s, j + 1, y));
    }
    if s.contains(nb[j].node) && nb[j].neighbor == y {
        assert(hit(nb, s, j + 1, y));
    }
}

/// The ids within `k` hops of `s`.
pub open spec fn reach(nb: Seq<AdjacentV>, s: Set<Chars>, k: nat) -> Set<Chars>
    decreases k,
{
    if k == 0 {
        s
    } else {
        step(nb, reach(nb, s, (k - 1) as nat))
    }
}

/// Once a hop adds nothing, no later hop does.
pub proof fn lemma_reach_stable(nb: Seq<AdjacentV>, s: Set<Chars>, d: nat, k: nat)
    requires
        reach(nb, s, d + 1) == reach(nb, s, d),
        d <= k,
    ensures
        reach(nb, s, k) == reach(nb, s, d),
    decreases k - d,
{
    if k > d {
        lemma_reach_stable(nb, s, d, (k - 1) as nat);
    }
}

pub open spec fn str_views(s: Seq<&str>) -> Seq<Chars> {
    s.map_values(|x: &str| x@)
}

fn push_new(v: &mut Vec<String>, x: &str)
    requires
        views(old(v)@).no_duplicates(),
    ensures
        views(final(v)@).no_duplicates(),
        forall|y: Chars| views(final(v)@).contains(y) <==> (views(old(v)@).contains(y) || y == x@),
        views(final(v)@).len() >= views(old(v)@).len(),
        views(final(v)@).subrange(0, views(old(v)@).len() as int) == views(old(v)@),
        views(final(v)@).len() == views(old(v)@).len() ==> views(old(v)@).contains(x@),
{
    if !crate::text::contains_str(v, x) {
        let ghost prev = views(v@);
        v.push(owned(x));
        assert(views(v@) =~= prev.push(x@));
    }
}

impl WorldGraph {
    /// The ids within `max_depth` hops of the given nodes (ids that are
    /// not nodes are ignored), each once.
    pub fn neighborhood(&self, center_ids: &[&str], max_depth: usize) -> (r: Vec<String>)
        ensures
            views(r@).no_duplicates(),
            forall|x: Chars|
                views(r@).contains(x) <==> reach(
                    self@.neighbors,
                    start_set(self@, str_views(center_ids@)),
                    max_depth as nat,
                ).contains(x),
    {
        let ghost nb = self@.neighbors;
        let ghost s0 = start_set(self@, str_views(center_ids@));
        let mut visited: Vec<String> = Vec::new();
        let mut c: usize = 0;
        while c < center_ids.len()
            invariant
                c <= center_ids@.len(),
                views(visited@).no_duplicates(),
                forall|x: Chars|
                    views(visited@).contains(x) <==> (str_views(center_ids@).take(c as int).contains(x)
                        && exists|i: int| 0 <= i < self@.nodes.len() && #[trigger] self@.nodes[i].id == x),
            decreases center_ids@.len() - c,
        {
            let id = center_ids[c];
            assert(str_views(center_ids@).take(c + 1) =~= str_views(center_ids@).take(c as int).push(id@));
            if self.contains_node(id) {
                push_new(&mut visited, id);
            }
            c += 1;
        }
        assert(str_views(center_ids@).take(center_ids@.len() as int) =~= str_views(center_ids@));
        assert forall|x: Chars| views(visited@).contains(x) <==> reach(nb, s0, 0).contains(x) by {}
        let mut d: usize = 0;
        while d < max_depth
            invariant
                d <= max_depth,
                nb == self@.neighbors,
                s0 == start_set(self@, str_views(center_ids@)),
                views(visited@).no_duplicates(),
                forall|x: Chars| views(visited@).contains(x) <==> reach(nb, s0, d as nat).contains(x),
            decreases max_depth - d,
        {
            let ghost rd = reach(nb, s0, d as nat);
            let frontier = crate::text::clone_strs(&visited);
            let before = visited.len();
            let mut j: usize = 0;
            while j < self.neighbors.len()
                invariant
                    j <= self.neighbors@.len(),
                    nb == self@.neighbors,
                    views(frontier@) == views(visited@).subrange(0, before as int),
                    before <= visited@.len(),
                    forall|x: Chars| views(frontier@).contains(x) <==> rd.contains(x),
                    views(visited@).no_duplicates(),
                    forall|x: Chars| views(visited@).contains(x) <==> (rd.contains(x) || hit(nb, rd, j as int, x)),
                decreases self.neighbors@.len() - j,
            {
                let a = &self.neighbors[j];
                assert(nb[j as int] == a@);
                let ghost v0 = views(visited@);
                assert(forall|x: Chars| v0.contains(x) <==> (rd.contains(x) || hit(nb, rd, j as int, x)));
                let in_front = crate::text::contains_str(&frontier, a.node.as_str());
                assert(in_front == rd.contains(nb[j as int].node));
                if in_front {
                    push_new(&mut visited, a.neighbor.as_str());
                    assert(views(visited@).subrange(0, before as int) =~= v0.subrange(0, before as int));
                    assert forall|x: Chars|
                        views(visited@).contains(x) <==> (rd.contains(x) || hit(nb, rd, j + 1, x)) by {
                        lemma_hit_next(nb, rd, j as int, x);
                    }
                } else {
                    assert forall|x: Chars|
                        views(visited@).contains(x) <==> (rd.contains(x) || hit(nb, rd, j + 1, x)) by {
                        lemma_hit_next(nb, rd, j as int, x);
                    }
                }
                j += 1;
            }
            assert forall|x: Chars| views(visited@).contains(x) <==> reach(nb, s0, (d + 1) as nat).contains(x) by {
                assert(reach(nb, s0, (d + 1) as nat) == step(nb, rd));
            }
            let ghost dd = d as nat;
            d += 1;
            if visited.len() == before {
                assert(views(visited@) =~= views(frontier@));
                assert(reach(nb, s0, dd + 1) =~= reach(nb, s0, dd));
                proof { lemma_reach_stable(nb, s0, dd, max_depth as nat); }
                assert forall|x: Chars| views(visited@).contains(x) <==> reach(nb, s0, max_depth as nat).contains(x) by {
                    assert(reach(nb, s0, max_depth as nat) == rd);
                }
                return visited;
            }
        }
        visited
    }
}

// ── Subgraphs ────────────────────────────────────────────────────

pub open spec fn node_in(inc: Set<Chars>) -> spec_fn(GraphNodeV) -> bool {
    |n: GraphNodeV| inc.contains(n.id)
}

pub open spec fn edge_in(inc: Set<Chars>) -> spec_fn(GraphEdgeV) -> bool {
    |e: GraphEdgeV| inc.contains(e.from) && inc.contains(e.to)
}

pub open spec fn at_edge() -> spec_fn(GraphEdgeV) -> bool {
    |e: GraphEdgeV| e.kind == EdgeKindV::At
}

pub open spec fn type_entry(n: GraphNodeV) -> (Chars, Chars) {
    (n.entity_type, n.id)
}

pub open spec fn at_entry(e: GraphEdgeV) -> (Chars, Chars) {
    (e.to, e.from)
}

pub open spec fn forward(e: GraphEdgeV) -> AdjacentV {
    adj(e.from, e.to, e.kind)
}

/// The part of a graph on the ids of `inc`: its nodes, the edges between
/// them, and the indexes rebuilt from those (neighbors in the direction
/// of the edges only).
pub open spec fn sub_of(g: WorldGraphV, inc: Set<Chars>) -> WorldGraphV {
    let nodes = g.nodes.filter(node_in(inc));
    let edges = g.edges.filter(edge_in(inc));
    WorldGraphV {
        nodes,
        edges,
        by_type: nodes.map_values(|n: GraphNodeV| type_entry(n)),
        by_location: edges.filter(at_edge()).map_values(|e: GraphEdgeV| at_entry(e)),
        neighbors: edges.map_values(|e: GraphEdgeV| forward(e)),
    }
}

impl WorldGraph {
    /// The subgraph on the given nodes and their direct neighbors.
    pub fn subgraph(&self, center_ids: &[&str]) -> (r: WorldGraph)
        ensures
            r@ == sub_of(self@, reach(self@.neighbors, start_set(self@, str_views(center_ids@)), 1)),
    {
        let included = self.neighborhood(center_ids, 1);
        let ghost inc = reach(self@.neighbors, start_set(self@, str_views(center_ids@)), 1);
        let ghost gv = self@;
        let mut nodes: Vec<GraphNode> = Vec::new();
        let mut by_type: Vec<IndexEntry> = Vec::new();
        let mut i: usize = 0;
        while i < self.nodes.len()
            invariant
                i <= self.nodes@.len(),
                gv == self@,
                forall|x: Chars| views(included@).contains(x) <==> inc.contains(x),
                node_views(nodes@) == gv.nodes.take(i as int).filter(node_in(inc)),
                index_views(by_type@) == node_views(nodes@).map_values(|n: GraphNodeV| type_entry(n)),
            decreases self.nodes@.len() - i,
        {
            assert(gv.nodes.take(i + 1) == gv.nodes.take(i as int).push(gv.nodes[i as int]));
            proof { gv.nodes.take(i as int).lemma_filter_push(gv.nodes[i as int], node_in(inc)); }
            let n = &self.nodes[i];
            assert(gv.nodes[i as int] == n@);
            if crate::text::contains_str(&included, n.id.as_str()) {
                let ghost p1 = nodes@;
                let ghost p2 = by_type@;
                nodes.push(n.duplicate());
                by_type.push(IndexEntry { key: n.entity_type.clone(), value: n.id.clone() });
                assert(node_views(nodes@) =~= node_views(p1).push(n@));
                assert(index_views(by_type@) =~= index_views(p2).push(type_entry(n@)));
                assert(node_views(nodes@).map_values(|n: GraphNodeV| type_entry(n)) =~= node_views(p1).map_values(
                    |n: GraphNodeV| type_entry(n),
                ).push(type_entry(n@)));
            }
            i += 1;
        }
        assert(gv.nodes.take(gv.nodes.len() as int) == gv.nodes);
        let mut edges: Vec<GraphEdge> = Vec::new();
        let mut by_location: Vec<IndexEntry> = Vec::new();
        let mut neighbors: Vec<Adjacent> = Vec::new();
        let mut j: usize = 0;
        while j < self.edges.len()
            invariant
                j <= self.edges@.len(),
                gv == self@,
                forall|x: Chars| views(included@).contains(x) <==> inc.contains(x),
                edge_views(edges@) == gv.edges.take(j as int).filter(edge_in(inc)),
                index_views(by_location@) == edge_views(edges@).filter(at_edge()).map_values(
                    |e: GraphEdgeV| at_entry(e),
                ),
                adj_views(neighbors@) == edge_views(edges@).map_values(|e: GraphEdgeV| forward(e)),
            decreases self.edges@.len() - j,
        {
            assert(gv.edges.take(j + 1) == gv.edges.take(j as int).push(gv.edges[j as int]));
            proof { gv.edges.take(j as int).lemma_filter_push(gv.edges[j as int], edge_in(inc)); }
            let e = &self.edges[j];
            assert(gv.edges[j as int] == e@);
            if crate::text::contains_str(&included, e.from.as_str()) && crate::text::contains_str(
                &included,
                e.to.as_str(),
            ) {
                let ghost p1 = edge_views(edges@);
                let ghost p2 = index_views(by_location@);
                let ghost p3 = adj_views(neighbors@);
                proof { p1.lemma_filter_push(e@, at_edge()); }
                if e.kind.is_at() {
                    push_entry(&mut by_location, e.to.as_str(), e.from.as_str());
                }
                push_adj(&mut neighbors, e.from.as_str(), e.to.as_str(), e.kind.duplicate());
                edges.push(e.duplicate());
                assert(edge_views(edges@) =~= p1.push(e@));
                assert(edge_views(edges@).map_values(|e: GraphEdgeV| forward(e)) =~= p1.map_values(
                    |e: GraphEdgeV| forward(e),
                ).push(forward(e@)));
                if e.kind.is_at() {
                    assert(edge_views(edges@).filter(at_edge()) == p1.filter(at_edge()).push(e@));
                    assert(index_views(by_location@) =~= edge_views(edges@).filter(at_edge()).map_values(
                        |e: GraphEdgeV| at_entry(e),
                    ));
                } else {
                    assert(edge_views(edges@).filter(at_edge()) == p1.filter(at_edge()));
                }
            }
            j += 1;
        }
        assert(gv.edges.take(gv.edges.len() as int) == gv.edges);
        WorldGraph { nodes, edges, by_type, by_location, neighbors }
    }
}

// ── Datalog ──────────────────────────────────────────────────────

/// Every `"` escaped and every `'` dropped.
pub open spec fn rel_escape(s: Chars) -> Chars
    decreases s.len(),
{
    if s.len() == 0 {
        s
    } else {
        rel_escape(s.drop_last()) + if s.last() == '"' {
            seq!['\\', '"']
        } else if s.last() == '\'' {
            Seq::empty()
        } else {
            seq![s.last()]
        }
    }
}

/// A relationship label in a fact: bare when an identifier, else quoted.
pub open spec fn rel_label(r: Chars) -> Chars {
    if is_ident(r) {
        r
    } else {
        seq!['"'] + rel_escape(r) + seq!['"']
    }
}

pub open spec fn edge_fact(e: GraphEdgeV) -> Chars {
    match e.kind {
        EdgeKindV::At => "at("@ + e.from + ", "@ + e.to + ")."@,
        EdgeKindV::Rel(r) => "rel("@ + e.from + ", "@ + e.to + ", "@ + rel_label(r) + ")."@,
        EdgeKindV::Connected => "connected("@ + e.from + ", "@ + e.to + ")."@,
        EdgeKindV::Member => "member("@ + e.from + ", "@ + e.to + ")."@,
        EdgeKindV::Rival => "rival("@ + e.from + ", "@ + e.to + ")."@,
    }
}

pub open spec fn facts_text(es: Seq<GraphEdgeV>) -> Chars
    decreases es.len(),
{
    if es.len() == 0 {
        Seq::empty()
    } else {
        facts_text(es.drop_last()) + edge_fact(es.last()) + "\n"@
    }
}

fn push_rel_label(out: &mut String, r: &str)
    ensures
        final(out)@ == old(out)@ + rel_label(r@),
{
    let v = chars_of(r);
    if chars_ident(&v) {
        push_str(out, r);
    } else {
        push_char(out, '"');
        let ghost start = out@;
        let mut i: usize = 0;
        while i < v.len()
            invariant
                i <= v@.len(),
                v@ == r@,
                out@ == start + rel_escape(v@.take(i as int)),
            decreases v@.len() - i,
        {
            assert(v@.take(i + 1).drop_last() == v@.take(i as int));
            let c = v[i];
            if c == '"' {
                push_char(out, '\\');
                push_char(out, '"');
            } else if c != '\'' {
                push_char(out, c);
            }
            assert(out@ == start + rel_escape(v@.take(i + 1)));
            i += 1;
        }
        assert(v@.take(v@.len() as int) == v@);
        push_char(out, '"');
        assert(out@ == old(out)@ + rel_label(r@));
    }
}

fn push_pair(out: &mut String, head: &str, e: &GraphEdge)
    ensures
        final(out)@ == old(out)@ + head@ + e.from@ + ", "@ + e.to@ + ")."@,
{
    push_str(out, head);
    push_str(out, e.from.as_str());
    push_str(out, ", ");
    push_str(out, e.to.as_str());
    push_str(out, ").");
}

fn push_fact(out: &mut String, e: &GraphEdge)
    ensures
        final(out)@ == old(out)@ + edge_fact(e@),
{
    match &e.kind {
        EdgeKind::At => push_pair(out, "at(", e),
        EdgeKind::Rel(r) => {
            push_str(out, "rel(");
            push_str(out, e.from.as_str());
            push_str(out, ", ");
            push_str(out, e.to.as_str());
            push_str(out, ", ");
            push_rel_label(out, r.as_str());
            push_str(out, ").");
        },
        EdgeKind::Connected => push_pair(out, "connected(", e),
        EdgeKind::Member => push_pair(out, "member(", e),
        EdgeKind::Rival => push_pair(out, "rival(", e),
    }
}

impl WorldGraph {
    /// The graph's edges as Datalog facts, one per line.
    pub fn to_datalog(&self) -> (r: String)
        ensures
            r@ == "% Graph index facts\n\n"@ + facts_text(self@.edges),
    {
        let mut out = owned("% Graph index facts\n\n");
        let ghost head = out@;
        let ghost ev = self@.edges;
        let mut i: usize = 0;
        while i < self.edges.len()
            invariant
                i <= self.edges@.len(),
                ev == self@.edges,
                out@ == head + facts_text(ev.take(i as int)),
            decreases self.edges@.len() - i,
        {
            assert(ev.take(i + 1).drop_last() == ev.take(i as int));
            assert(ev[i as int] == self.edges@[i as int]@);
            push_fact(&mut out, &self.edges[i]);
            push_str(&mut out, "\n");
            i += 1;
        }
        assert(ev.take(ev.len() as int) == ev);
        out
    }
}

} // verus!
