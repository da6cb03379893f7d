//! A structural index over memory edges: which edges touch which nodes,
//! shared memories, connected knowledge domains, neighbourhoods and
//! character-scoped subgraphs.
use vstd::prelude::*;

use crate::edge::{MemoryEdge, MemoryEdgeV, nodes_of};
use crate::history::{lemma_first_index_at, lemma_first_index_spec};
use crate::op::first_index;
use crate::text::{
    Chars, insert_sorted, lemma_lex_irreflexive, lemma_lex_total, lemma_lex_transitive, lex_lt, owned, str_eq, str_lt,
    strictly_sorted, views,
};

verus! {

broadcast use vstd::seq_lib::group_seq_properties;

/// A hypergraph indexing memory edges by the nodes they connect.
#[derive(Debug)]
pub struct HyperGraph {
    /// Edge ids, in increasing order; `edges[i]` has id `edge_ids[i]`.
    edge_ids: Vec<String>,
    edges: Vec<MemoryEdge>,
    /// Node ids, in increasing order; `incident[i]` lists, in increasing
    /// order, the ids of the edges that touch `nodes[i]`.
    nodes: Vec<String>,
    incident: Vec<Vec<String>>,
}

pub ghost struct HyperGraphV {
    pub edges: Seq<MemoryEdgeV>,
    pub nodes: Seq<Chars>,
    pub incident: Seq<Seq<Chars>>,
}

impl View for HyperGraph {
    type V = HyperGraphV;

    closed spec fn view(&self) -> HyperGraphV {
        HyperGraphV {
            edges: self.edges@.map_values(|e: MemoryEdge| e@),
            nodes: views(self.nodes@),
            incident: self.incident@.map_values(|l: Vec<String>| views(l@)),
        }
    }
}

pub open spec fn ids_of(es: Seq<MemoryEdgeV>) -> Seq<Chars> {
    es.map_values(|e: MemoryEdgeV| e.id)
}

/// The edge with the id, if any.
pub open spec fn edge_of(g: HyperGraphV, id: Chars) -> Option<MemoryEdgeV> {
    match first_index(ids_of(g.edges), id) {
        Some(i) => Some(g.edges[i]),
        None => None,
    }
}

/// The ids of the edges touching a node, in increasing order.
pub open spec fn inc_of(g: HyperGraphV, n: Chars) -> Seq<Chars> {
    match first_index(g.nodes, n) {
        Some(i) => g.incident[i],
        None => Seq::empty(),
    }
}

/// Ids and nodes kept in increasing order, each once.
pub open spec fn graph_wf(g: HyperGraphV) -> bool {
    &&& strictly_sorted(ids_of(g.edges))
    &&& strictly_sorted(g.nodes)
    &&& g.incident.len() == g.nodes.len()
    &&& forall|i: int| 0 <= i < g.incident.len() ==> strictly_sorted(#[trigger] g.incident[i])
    &&& forall|i: int, m: Chars| 0 <= i < g.edges.len() && #[trigger] nodes_of(g.edges[i]).contains(m) ==> g.nodes.contains(m)
}

/// The graph holds exactly what inserting these edges in order gives: each
/// id's latest edge, and for each node the ids of every edge (of any
/// version) that touched it.
pub open spec fn built_from(g: HyperGraphV, es: Seq<MemoryEdgeV>) -> bool {
    &&& graph_wf(g)
    &&& forall|id: Chars| #[trigger] edge_of(g, id) == last_with_id(es, id)
    &&& forall|n: Chars| #[trigger] g.nodes.contains(n) <==> touched(es, n)
    &&& forall|n: Chars, y: Chars| #[trigger] inc_of(g, n).contains(y) <==> touches(es, n, y)
}

/// The last edge in the list with the id.
pub open spec fn last_with_id(es: Seq<MemoryEdgeV>, id: Chars) -> Option<MemoryEdgeV>
    decreases es.len(),
{
    if es.len() == 0 {
        None
    } else if es.last().id == id {
        Some(es.last())
    } else {
        last_with_id(es.drop_last(), id)
    }
}

/// Some edge in the list touches the node.
pub open spec fn touched(es: Seq<MemoryEdgeV>, n: Chars) -> bool {
    exists|k: int| 0 <= k < es.len() && nodes_of(#[trigger] es[k]).contains(n)
}

/// Some edge in the list with id `y` touches the node.
pub open spec fn touches(es: Seq<MemoryEdgeV>, n: Chars, y: Chars) -> bool {
    exists|k: int| 0 <= k < es.len() && (#[trigger] es[k]).id == y && nodes_of(es[k]).contains(n)
}

// ── Ordered lists of strings ─────────────────────────────────────

/// In a strictly sorted list, an element's first position is its position.
pub proof fn lemma_sorted_index(s: Seq<Chars>, i: int)
    requires
        strictly_sorted(s),
        0 <= i < s.len(),
    ensures
        first_index(s, s[i]) == Some(i),
{
    assert forall|k: int| 0 <= k < i implies s[k] != s[i] by {
        lemma_lex_irreflexive(s[i]);
    }
    lemma_first_index_at(s, s[i], i);
}

/// Where `x` goes in a strictly sorted list: every element before the
/// position is below it, every element after it above it.
fn sorted_position(v: &Vec<String>, x: &str) -> (k: usize)
    requires
        strictly_sorted(views(v@)),
    ensures
        k <= v@.len(),
        forall|i: int| 0 <= i < k ==> lex_lt(#[trigger] views(v@)[i], x@),
        forall|i: int| k < i < v@.len() ==> lex_lt(x@, #[trigger] views(v@)[i]),
        k < v@.len() ==> views(v@)[k as int] == x@ || lex_lt(x@, views(v@)[k as int]),
{
    let ghost s = views(v@);
    let mut k: usize = 0;
    while k < v.len() && str_lt(v[k].as_str(), x)
        invariant
            k <= v@.len(),
            s == views(v@),
            strictly_sorted(s),
            forall|i: int| 0 <= i < k ==> lex_lt(#[trigger] s[i], x@),
        decreases v@.len() - k,
    {
        k += 1;
    }
    proof {
        if k < s.len() {
            lemma_lex_total(s[k as int], x@);
            assert forall|i: int| k < i < s.len() implies lex_lt(x@, #[trigger] s[i]) by {
                if s[k as int] == x@ {
                } else {
                    lemma_lex_transitive(x@, s[k as int], s[i]);
                }
            }
        }
    }
    k
}

/// Inserting `x` where `sorted_position` puts it keeps the list sorted.
proof fn lemma_insert_keeps_sorted(s: Seq<Chars>, k: int, x: Chars)
    requires
        strictly_sorted(s),
        0 <= k <= s.len(),
        forall|i: int| 0 <= i < k ==> lex_lt(#[trigger] s[i], x),
        forall|i: int| k <= i < s.len() ==> lex_lt(x, #[trigger] s[i]),
    ensures
        strictly_sorted(s.insert(k, x)),
{
    let t = s.insert(k, x);
    assert forall|i: int, j: int| 0 <= i < j < t.len() implies lex_lt(#[trigger] t[i], #[trigger] t[j]) by {
        if j < k {
        } else if j == k {
            assert(t[i] == s[i]);
        } else if i < k {
            assert(t[j] == s[j - 1]);
            lemma_lex_transitive(s[i], x, s[j - 1]);
        } else if i == k {
            assert(t[j] == s[j - 1]);
        } else {
            assert(t[i] == s[i - 1]);
            assert(t[j] == s[j - 1]);
        }
    }
}

impl HyperGraph {
    pub closed spec fn wf(&self) -> bool {
        &&& graph_wf(self@)
        &&& self.edge_ids@.len() == self.edges@.len()
        &&& views(self.edge_ids@) == ids_of(self@.edges)
        &&& self.incident@.len() == self.nodes@.len()
    }

    pub fn new() -> (r: HyperGraph)
        ensures
            r.wf(),
            built_from(r@, Seq::empty()),
    {
        let r = HyperGraph { edge_ids: Vec::new(), edges: Vec::new(), nodes: Vec::new(), incident: Vec::new() };
        assert(r@.edges =~= Seq::<MemoryEdgeV>::empty());
        assert(r@.nodes =~= Seq::<Chars>::empty());
        assert(ids_of(r@.edges) =~= Seq::<Chars>::empty());
        assert(views(r.edge_ids@) =~= Seq::<Chars>::empty());
        r
    }
}

impl HyperGraph {
    /// Records that edge `y` touches node `n`.
    fn add_incidence(&mut self, n: &str, y: &str)
        requires
            old(self).wf(),
        ensures
            final(self).wf(),
            final(self)@.edges == old(self)@.edges,
            forall|m: Chars| #[trigger] final(self)@.nodes.contains(m) <==> (old(self)@.nodes.contains(m) || m == n@),
            forall|m: Chars, z: Chars| #[trigger] inc_of(final(self)@, m).contains(z) <==> (inc_of(old(self)@, m).contains(z) || (m == n@ && z == y@)),
    {
        let ghost g0 = self@;
        let k = sorted_position(&self.nodes, n);
        if k < self.nodes.len() && str_eq(self.nodes[k].as_str(), n) {
            let mut list = self.incident.remove(k);
            assert(views(list@) == g0.incident[k as int]);
            insert_sorted(&mut list, y);
            let ghost l1 = views(list@);
            self.incident.insert(k, list);
            proof {
                let g = self@;
                assert(g.nodes == g0.nodes);
                assert(g.edges == g0.edges);
                assert(g.incident =~= g0.incident.update(k as int, l1));
                lemma_sorted_index(g0.nodes, k as int);
                assert forall|m: Chars, z: Chars| #[trigger] inc_of(g, m).contains(z) <==> (inc_of(g0, m).contains(z) || (m == n@ && z == y@)) by {
                    lemma_first_index_spec(g0.nodes, m);
                    if m == n@ {
                        assert(inc_of(g, m) == l1);
                        assert(inc_of(g0, m) == g0.incident[k as int]);
                    } else {
                        match first_index(g0.nodes, m) {
                            Some(i) => {
                                assert(i != k);
                                assert(inc_of(g, m) == g.incident[i]);
                            },
                            None => {},
                        }
                    }
                }
                assert forall|i: int| 0 <= i < g.incident.len() implies strictly_sorted(#[trigger] g.incident[i]) by {
                    if i != k {
                        assert(g.incident[i] == g0.incident[i]);
                    }
                }
            }
        } else {
            proof {
                if k < g0.nodes.len() {
                    assert(lex_lt(n@, g0.nodes[k as int]));
                }
                assert forall|i: int| k <= i < g0.nodes.len() implies lex_lt(n@, #[trigger] g0.nodes[i]) by {}
                lemma_insert_keeps_sorted(g0.nodes, k as int, n@);
            }
            self.nodes.insert(k, owned(n));
            let fresh = vec![owned(y)];
            assert(views(fresh@) =~= seq![y@]);
            self.incident.insert(k, fresh);
            proof {
                let g = self@;
                assert(g.nodes =~= g0.nodes.insert(k as int, n@));
                assert(g.incident =~= g0.incident.insert(k as int, seq![y@]));
                assert(g.edges == g0.edges);
                assert(!g0.nodes.contains(n@)) by {
                    if g0.nodes.contains(n@) {
                        let i = choose|i: int| 0 <= i < g0.nodes.len() && g0.nodes[i] == n@;
                        lemma_lex_irreflexive(n@);
                    }
                }
                assert forall|m: Chars| #[trigger] g.nodes.contains(m) <==> (g0.nodes.contains(m) || m == n@) by {
                    if g.nodes.contains(m) {
                        let i = choose|i: int| 0 <= i < g.nodes.len() && g.nodes[i] == m;
                        if i < k {
                            assert(g0.nodes[i] == m);
                        } else if i > k {
                            assert(g0.nodes[i - 1] == m);
                        }
                    }
                    if g0.nodes.contains(m) {
                        let i = choose|i: int| 0 <= i < g0.nodes.len() && g0.nodes[i] == m;
                        if i < k {
                            assert(g.nodes[i] == m);
                        } else {
                            assert(g.nodes[i + 1] == m);
                        }
                    }
                    if m == n@ {
                        assert(g.nodes[k as int] == m);
                    }
                }
                assert forall|m: Chars, z: Chars| #[trigger] inc_of(g, m).contains(z) <==> (inc_of(g0, m).contains(z) || (m == n@ && z == y@)) by {
                    lemma_first_index_spec(g0.nodes, m);
                    if m == n@ {
                        lemma_sorted_index(g.nodes, k as int);
                        assert(inc_of(g, m) == seq![y@]);
                        assert(inc_of(g0, m) == Seq::<Chars>::empty());
                        assert(seq![y@][0] == y@);
                    } else {
                        match first_index(g0.nodes, m) {
                            Some(i) => {
                                if i < k {
                                    lemma_sorted_index(g.nodes, i);
                                    assert(g.nodes[i] == m);
                                    assert(inc_of(g, m) == g0.incident[i]);
                                } else {
                                    lemma_sorted_index(g.nodes, i + 1);
                                    assert(g.nodes[i + 1] == m);
                                    assert(inc_of(g, m) == g0.incident[i]);
                                }
                            },
                            None => {
                                lemma_first_index_spec(g.nodes, m);
                                assert(!g.nodes.contains(m));
                                if first_index(g.nodes, m) is Some {
                                    let i = first_index(g.nodes, m)->0;
                                    assert(g.nodes[i] == m);
                                }
                            },
                        }
                    }
                }
                assert forall|i: int| 0 <= i < g.incident.len() implies strictly_sorted(#[trigger] g.incident[i]) by {
                    if i < k {
                        assert(g.incident[i] == g0.incident[i]);
                    } else if i > k {
                        assert(g.incident[i] == g0.incident[i - 1]);
                    }
                }
            }
        }
    }
}

/// What inserting an edge does, stated over lookups.
pub open spec fn inserted(g0: HyperGraphV, g: HyperGraphV, e: MemoryEdgeV) -> bool {
    &&& graph_wf(g)
    &&& forall|id: Chars| #[trigger] edge_of(g, id) == if id == e.id {
        Some(e)
    } else {
        edge_of(g0, id)
    }
    &&& forall|m: Chars| #[trigger] g.nodes.contains(m) <==> (g0.nodes.contains(m) || nodes_of(e).contains(m))
    &&& forall|m: Chars, z: Chars| #[trigger] inc_of(g, m).contains(z) <==> (inc_of(g0, m).contains(z) || (nodes_of(e).contains(m) && z == e.id))
}

/// Inserting one more edge into a graph built from a list gives the graph
/// built from the longer list.
pub proof fn lemma_inserted_built(g0: HyperGraphV, g: HyperGraphV, es: Seq<MemoryEdgeV>, e: MemoryEdgeV)
    requires
        built_from(g0, es),
        inserted(g0, g, e),
    ensures
        built_from(g, es.push(e)),
{
    let es2 = es.push(e);
    assert(es2.drop_last() =~= es);
    assert(es2.last() == e);
    assert forall|id: Chars| #[trigger] edge_of(g, id) == last_with_id(es2, id) by {
        assert(edge_of(g0, id) == last_with_id(es, id));
    }
    assert forall|n: Chars| #[trigger] g.nodes.contains(n) <==> touched(es2, n) by {
        assert(g0.nodes.contains(n) <==> touched(es, n));
        if touched(es2, n) {
            let k = choose|k: int| 0 <= k < es2.len() && nodes_of(#[trigger] es2[k]).contains(n);
            if k < es.len() {
                assert(es[k] == es2[k]);
            }
        }
        if touched(es, n) {
            let k = choose|k: int| 0 <= k < es.len() && nodes_of(#[trigger] es[k]).contains(n);
            assert(es2[k] == es[k]);
        }
        if nodes_of(e).contains(n) {
            assert(es2[es.len() as int] == e);
        }
    }
    assert forall|n: Chars, y: Chars| #[trigger] inc_of(g, n).contains(y) <==> touches(es2, n, y) by {
        assert(inc_of(g0, n).contains(y) <==> touches(es, n, y));
        if touches(es2, n, y) {
            let k = choose|k: int| 0 <= k < es2.len() && (#[trigger] es2[k]).id == y && nodes_of(es2[k]).contains(n);
            if k < es.len() {
                assert(es[k] == es2[k]);
            }
        }
        if touches(es, n, y) {
            let k = choose|k: int| 0 <= k < es.len() && (#[trigger] es[k]).id == y && nodes_of(es[k]).contains(n);
            assert(es2[k] == es[k]);
        }
        if nodes_of(e).contains(n) && y == e.id {
            assert(es2[es.len() as int] == e);
        }
    }
}

impl HyperGraph {
    /// Stores the edge under its id, replacing an edge with the same id.
    fn set_edge(&mut self, edge: MemoryEdge)
        requires
            old(self).wf(),
            forall|m: Chars| #[trigger] nodes_of(edge@).contains(m) ==> old(self)@.nodes.contains(m),
        ensures
            final(self).wf(),
            final(self)@.nodes == old(self)@.nodes,
            final(self)@.incident == old(self)@.incident,
            forall|id: Chars| #[trigger] edge_of(final(self)@, id) == if id == edge@.id {
                Some(edge@)
            } else {
                edge_of(old(self)@, id)
            },
    {
        let ghost g0 = self@;
        let ghost ev = edge@;
        let ghost ids0 = ids_of(g0.edges);
        let k = sorted_position(&self.edge_ids, edge.id.as_str());
        if k < self.edge_ids.len() && str_eq(self.edge_ids[k].as_str(), edge.id.as_str()) {
            self.edges.set(k, edge);
            proof {
                let g = self@;
                assert(g.edges =~= g0.edges.update(k as int, ev));
                assert(ids_of(g.edges) =~= ids0);
                lemma_sorted_index(ids0, k as int);
                assert forall|id: Chars| #[trigger] edge_of(g, id) == if id == ev.id {
                    Some(ev)
                } else {
                    edge_of(g0, id)
                } by {
                    lemma_first_index_spec(ids0, id);
                    match first_index(ids0, id) {
                        Some(i) => {
                            if id != ev.id {
                                assert(i != k);
                            }
                        },
                        None => {},
                    }
                }
            }
        } else {
            proof {
                if k < ids0.len() {
                    assert(lex_lt(ev.id, ids0[k as int]));
                }
                lemma_insert_keeps_sorted(ids0, k as int, ev.id);
                assert(!ids0.contains(ev.id)) by {
                    if ids0.contains(ev.id) {
                        let i = choose|i: int| 0 <= i < ids0.len() && ids0[i] == ev.id;
                        lemma_lex_irreflexive(ev.id);
                    }
                }
            }
            self.edge_ids.insert(k, owned(edge.id.as_str()));
            self.edges.insert(k, edge);
            proof {
                let g = self@;
                assert(g.edges =~= g0.edges.insert(k as int, ev));
                let ids = ids_of(g.edges);
                assert(ids =~= ids0.insert(k as int, ev.id));
                assert(views(self.edge_ids@) =~= ids);
                assert forall|id: Chars| #[trigger] edge_of(g, id) == if id == ev.id {
                    Some(ev)
                } else {
                    edge_of(g0, id)
                } by {
                    lemma_first_index_spec(ids0, id);
                    if id == ev.id {
                        lemma_sorted_index(ids, k as int);
                    } else {
                        match first_index(ids0, id) {
                            Some(i) => {
                                if i < k {
                                    lemma_sorted_index(ids, i);
                                    assert(ids[i] == id);
                                } else {
                                    lemma_sorted_index(ids, i + 1);
                                    assert(ids[i + 1] == id);
                                }
                            },
                            None => {
                                lemma_first_index_spec(ids, id);
                                if first_index(ids, id) is Some {
                                    let i = first_index(ids, id)->0;
                                    if i < k {
                                        assert(ids0[i] == id);
                                    } else if i > k {
                                        assert(ids0[i - 1] == id);
                                    }
                                }
                            },
                        }
                    }
                }
            }
        }
    }

    /// Insert a memory edge and index it under every node it touches.
    pub fn insert(&mut self, edge: MemoryEdge)
        requires
            old(self).wf(),
        ensures
            final(self).wf(),
            inserted(old(self)@, final(self)@, edge@),
    {
        let ghost g0 = self@;
        let ghost ev = edge@;
        let ghost nv = nodes_of(ev);
        let nodes = edge.all_nodes();
        let mut i: usize = 0;
        while i < nodes.len()
            invariant
                i <= nodes@.len(),
                self.wf(),
                nodes@.map_values(|s: &str| s@) == nv,
                ev.id == edge@.id,
                self@.edges == g0.edges,
                forall|m: Chars| #[trigger] self@.nodes.contains(m) <==> (g0.nodes.contains(m) || nv.take(i as int).contains(m)),
                forall|m: Chars, z: Chars| #[trigger] inc_of(self@, m).contains(z) <==> (inc_of(g0, m).contains(z) || (nv.take(i as int).contains(m) && z == ev.id)),
            decreases nodes@.len() - i,
        {
            let ghost before = self@;
            assert(nv[i as int] == nodes@[i as int]@);
            self.add_incidence(nodes[i], edge.id.as_str());
            proof {
                let t0 = nv.take(i as int);
                let t1 = nv.take(i + 1);
                assert(t1 =~= t0.push(nv[i as int]));
                assert forall|m: Chars| #[trigger] t1.contains(m) <==> (t0.contains(m) || m == nv[i as int]) by {
                    if t1.contains(m) {
                        let k = choose|k: int| 0 <= k < t1.len() && #[trigger] t1[k] == m;
                        if k < i {
                            assert(t0[k] == m);
                        }
                    }
                    if t0.contains(m) {
                        let k = choose|k: int| 0 <= k < t0.len() && #[trigger] t0[k] == m;
                        assert(t1[k] == m);
                    }
                    if m == nv[i as int] {
                        assert(t1[i as int] == m);
                    }
                }
            }
            i += 1;
        }
        assert(nv.take(nodes@.len() as int) =~= nv);
        let ghost g1 = self@;
        self.set_edge(edge);
        proof {
            let g = self@;
            assert forall|m: Chars| #[trigger] g.nodes.contains(m) <==> (g0.nodes.contains(m) || nv.contains(m)) by {
                assert(g1.nodes.contains(m) <==> (g0.nodes.contains(m) || nv.take(nodes@.len() as int).contains(m)));
            }
            assert forall|m: Chars, z: Chars| #[trigger] inc_of(g, m).contains(z) <==> (inc_of(g0, m).contains(z) || (nv.contains(m) && z == ev.id)) by {
                assert(inc_of(g, m) == inc_of(g1, m));
                assert(inc_of(g1, m).contains(z) <==> (inc_of(g0, m).contains(z) || (nv.take(nodes@.len() as int).contains(m) && z == ev.id)));
            }
            assert forall|id: Chars| #[trigger] edge_of(g, id) == if id == ev.id {
                Some(ev)
            } else {
                edge_of(g0, id)
            } by {
                assert(edge_of(g1, id) == edge_of(g0, id));
            }
        }
    }
}

/// The edges of the graph with the given ids, in that order, skipping
/// ids it does not hold.
pub open spec fn found_edges(g: HyperGraphV, ids: Seq<Chars>) -> Seq<MemoryEdgeV>
    decreases ids.len(),
{
    if ids.len() == 0 {
        Seq::empty()
    } else {
        found_edges(g, ids.drop_last()) + match edge_of(g, ids.last()) {
            Some(e) => seq![e],
            None => Seq::empty(),
        }
    }
}

pub open spec fn in_list(l: Seq<Chars>) -> spec_fn(Chars) -> bool {
    |x: Chars| l.contains(x)
}

/// The edge ids touching every one of the nodes, in increasing order.
pub open spec fn common_edges(g: HyperGraphV, ns: Seq<Chars>) -> Seq<Chars>
    decreases ns.len(),
{
    if ns.len() == 0 {
        Seq::empty()
    } else if ns.len() == 1 {
        inc_of(g, ns[0])
    } else {
        common_edges(g, ns.drop_last()).filter(in_list(inc_of(g, ns.last())))
    }
}

pub open spec fn str_views(v: Seq<&str>) -> Seq<Chars> {
    v.map_values(|s: &str| s@)
}

fn refs_of(v: &Vec<String>) -> (r: Vec<&str>)
    ensures
        str_views(r@) == views(v@),
{
    let mut r: Vec<&str> = Vec::new();
    let mut i: usize = 0;
    while i < v.len()
        invariant
            i <= v@.len(),
            str_views(r@) == views(v@).take(i as int),
        decreases v@.len() - i,
    {
        let ghost prev = r@;
        r.push(v[i].as_str());
        assert(str_views(r@) =~= str_views(prev).push(v@[i as int]@));
        assert(views(v@).take(i + 1) =~= views(v@).take(i as int).push(v@[i as int]@));
        i += 1;
    }
    assert(views(v@).take(v@.len() as int) == views(v@));
    r
}

fn contains_ref(v: &Vec<&str>, x: &str) -> (r: bool)
    ensures
        r == str_views(v@).contains(x@),
{
    let mut i: usize = 0;
    while i < v.len()
        invariant
            i <= v@.len(),
            forall|k: int| 0 <= k < i ==> str_views(v@)[k] != x@,
        decreases v@.len() - i,
    {
        if str_eq(v[i], x) {
            assert(str_views(v@)[i as int] == x@);
            return true;
        }
        i += 1;
    }
    false
}

fn keep_common<'a>(v: &Vec<&'a str>, other: &Vec<&str>) -> (r: Vec<&'a str>)
    ensures
        str_views(r@) == str_views(v@).filter(in_list(str_views(other@))),
{
    let ghost sv = str_views(v@);
    let ghost pred = in_list(str_views(other@));
    let mut r: Vec<&str> = Vec::new();
    let mut i: usize = 0;
    while i < v.len()
        invariant
            i <= v@.len(),
            sv == str_views(v@),
            pred == in_list(str_views(other@)),
            str_views(r@) == sv.take(i as int).filter(pred),
        decreases v@.len() - i,
    {
        proof {
            assert(sv.take(i + 1) == sv.take(i as int).push(sv[i as int]));
            sv.take(i as int).lemma_filter_push(sv[i as int], pred);
        }
        if contains_ref(other, v[i]) {
            let ghost prev = r@;
            r.push(v[i]);
            assert(str_views(r@) =~= str_views(prev).push(sv[i as int]));
        }
        i += 1;
    }
    assert(sv.take(v@.len() as int) == sv);
    r
}

impl HyperGraph {
    /// Where a node sits among the nodes, if present.
    fn node_index(&self, node: &str) -> (r: Option<usize>)
        requires
            self.wf(),
        ensures
            match r {
                Some(k) => k < self@.nodes.len() && first_index(self@.nodes, node@) == Some(k as int),
                None => first_index(self@.nodes, node@) is None,
            },
    {
        let k = sorted_position(&self.nodes, node);
        if k < self.nodes.len() && str_eq(self.nodes[k].as_str(), node) {
            proof { lemma_sorted_index(self@.nodes, k as int); }
            Some(k)
        } else {
            proof {
                lemma_first_index_spec(self@.nodes, node@);
                if first_index(self@.nodes, node@) is Some {
                    let i = first_index(self@.nodes, node@)->0;
                    if i < k {
                        lemma_lex_irreflexive(node@);
                    } else if i > k {
                        lemma_lex_irreflexive(node@);
                    } else {
                        lemma_lex_irreflexive(node@);
                    }
                }
            }
            None
        }
    }

    /// All edge ids incident to a node, in increasing order.
    pub fn edges_of(&self, node: &str) -> (r: Vec<&str>)
        requires
            self.wf(),
        ensures
            str_views(r@) == inc_of(self@, node@),
    {
        match self.node_index(node) {
            Some(k) => {
                assert(views(self.incident@[k as int]@) == self@.incident[k as int]);
                refs_of(&self.incident[k])
            },
            None => {
                let r: Vec<&str> = Vec::new();
                assert(str_views(r@) =~= Seq::<Chars>::empty());
                r
            },
        }
    }

    /// Get an edge by id.
    pub fn edge(&self, id: &str) -> (r: Option<&MemoryEdge>)
        requires
            self.wf(),
        ensures
            match r {
                Some(e) => edge_of(self@, id@) == Some(e@),
                None => edge_of(self@, id@) is None,
            },
    {
        let ghost ids = ids_of(self@.edges);
        let k = sorted_position(&self.edge_ids, id);
        if k < self.edge_ids.len() && str_eq(self.edge_ids[k].as_str(), id) {
            proof { lemma_sorted_index(ids, k as int); }
            Some(&self.edges[k])
        } else {
            proof {
                lemma_first_index_spec(ids, id@);
                if first_index(ids, id@) is Some {
                    lemma_lex_irreflexive(id@);
                }
            }
            None
        }
    }

    /// All node ids, in increasing order.
    pub fn nodes(&self) -> (r: Vec<&str>)
        requires
            self.wf(),
        ensures
            str_views(r@) == self@.nodes,
    {
        refs_of(&self.nodes)
    }

    /// Number of edges.
    pub fn edge_count(&self) -> (r: usize)
        requires
            self.wf(),
        ensures
            r == self@.edges.len(),
    {
        self.edges.len()
    }

    /// Raw degree: the number of edges incident to a node.
    pub fn degree(&self, node: &str) -> (r: usize)
        requires
            self.wf(),
        ensures
            r == inc_of(self@, node@).len(),
    {
        match self.node_index(node) {
            Some(k) => {
                assert(views(self.incident@[k as int]@) == self@.incident[k as int]);
                self.incident[k].len()
            },
            None => 0,
        }
    }

    /// Edges shared between two nodes (shared memories), in increasing order.
    pub fn shared_edges(&self, a: &str, b: &str) -> (r: Vec<&str>)
        requires
            self.wf(),
        ensures
            str_views(r@) == inc_of(self@, a@).filter(in_list(inc_of(self@, b@))),
    {
        let ea = self.edges_of(a);
        let eb = self.edges_of(b);
        keep_common(&ea, &eb)
    }

    /// Edges involving all of the given nodes, in increasing order.
    pub fn edges_involving_all(&self, nodes: &[&str]) -> (r: Vec<&str>)
        requires
            self.wf(),
        ensures
            str_views(r@) == common_edges(self@, str_views(nodes@)),
    {
        let ghost nv = str_views(nodes@);
        if nodes.len() == 0 {
            let r: Vec<&str> = Vec::new();
            assert(str_views(r@) =~= Seq::<Chars>::empty());
            return r;
        }
        let mut result = self.edges_of(nodes[0]);
        assert(nv.take(1).drop_last() =~= Seq::<Chars>::empty());
        let mut i: usize = 1;
        while i < nodes.len()
            invariant
                1 <= i <= nodes@.len(),
                self.wf(),
                nv == str_views(nodes@),
                str_views(result@) == common_edges(self@, nv.take(i as int)),
            decreases nodes@.len() - i,
        {
            let other = self.edges_of(nodes[i]);
            assert(nv.take(i + 1).drop_last() =~= nv.take(i as int));
            assert(nv.take(i + 1).last() == nv[i as int]);
            result = keep_common(&result, &other);
            i += 1;
        }
        assert(nv.take(nodes@.len() as int) =~= nv);
        result
    }

    /// The subgraph of the edges in the given order, skipping unknown ids.
    fn subgraph_of(&self, ids: &Vec<&str>) -> (r: HyperGraph)
        requires
            self.wf(),
        ensures
            r.wf(),
            built_from(r@, found_edges(self@, str_views(ids@))),
    {
        let ghost iv = str_views(ids@);
        let mut sub = HyperGraph::new();
        let mut i: usize = 0;
        while i < ids.len()
            invariant
                i <= ids@.len(),
                self.wf(),
                sub.wf(),
                iv == str_views(ids@),
                built_from(sub@, found_edges(self@, iv.take(i as int))),
            decreases ids@.len() - i,
        {
            assert(iv.take(i + 1).drop_last() =~= iv.take(i as int));
            assert(iv.take(i + 1).last() == ids@[i as int]@);
            match self.edge(ids[i]) {
                Some(e) => {
                    let ghost g0 = sub@;
                    sub.insert(e.duplicate());
                    proof {
                        lemma_inserted_built(g0, sub@, found_edges(self@, iv.take(i as int)), e@);
                        assert(found_edges(self@, iv.take(i as int)).push(e@) =~= found_edges(self@, iv.take(i + 1)));
                    }
                },
                None => {
                    assert(found_edges(self@, iv.take(i + 1)) =~= found_edges(self@, iv.take(i as int)));
                },
            }
            i += 1;
        }
        assert(iv.take(ids@.len() as int) =~= iv);
        sub
    }

    /// The subgraph of the edges touching a node (a character-scoped view).
    pub fn subgraph_for(&self, node: &str) -> (r: HyperGraph)
        requires
            self.wf(),
        ensures
            r.wf(),
            built_from(r@, found_edges(self@, inc_of(self@, node@))),
    {
        let ids = self.edges_of(node);
        self.subgraph_of(&ids)
    }

    /// The subgraph of the edges with the given ids, in that order.
    pub fn subgraph_by_edges(&self, edge_ids: &[&str]) -> (r: HyperGraph)
        requires
            self.wf(),
        ensures
            r.wf(),
            built_from(r@, found_edges(self@, str_views(edge_ids@))),
    {
        let mut ids: Vec<&str> = Vec::new();
        let mut i: usize = 0;
        while i < edge_ids.len()
            invariant
                i <= edge_ids@.len(),
                ids@ == edge_ids@.take(i as int),
            decreases edge_ids@.len() - i,
        {
            ids.push(edge_ids[i]);
            i += 1;
        }
        assert(edge_ids@.take(edge_ids@.len() as int) =~= edge_ids@);
        self.subgraph_of(&ids)
    }
}

// ── Reachability ─────────────────────────────────────────────────

/// `m` shares an edge with `n`: some edge indexed under `n` connects `m`.
pub open spec fn adj(g: HyperGraphV, n: Chars, m: Chars) -> bool {
    adj_via(g, inc_of(g, n), m)
}

/// Some edge among the ids connects `m`.
pub open spec fn adj_via(g: HyperGraphV, ids: Seq<Chars>, m: Chars) -> bool {
    exists|j: int| 0 <= j < ids.len() && #[trigger] connects(g, ids[j], m)
}

/// The graph holds an edge with the id, and it connects `m`.
pub open spec fn connects(g: HyperGraphV, y: Chars, m: Chars) -> bool {
    match edge_of(g, y) {
        Some(e) => nodes_of(e).contains(m),
        None => false,
    }
}

proof fn lemma_adj_via_step(g: HyperGraphV, ids: Seq<Chars>, i: int, m: Chars)
    requires
        0 <= i < ids.len(),
    ensures
        adj_via(g, ids.take(i + 1), m) <==> (adj_via(g, ids.take(i), m) || connects(g, ids[i], m)),
{
    let a = ids.take(i);
    let b = ids.take(i + 1);
    if adj_via(g, b, m) {
        let j = choose|j: int| 0 <= j < b.len() && #[trigger] connects(g, b[j], m);
        if j < i {
            assert(a[j] == b[j]);
        }
    }
    if adj_via(g, a, m) {
        let j = choose|j: int| 0 <= j < a.len() && #[trigger] connects(g, a[j], m);
        assert(b[j] == a[j]);
    }
    if connects(g, ids[i], m) {
        assert(b[i] == ids[i]);
    }
}

impl HyperGraph {
    /// Marks every node sharing an edge with `n`: those not yet visited are
    /// added to `visited` and appended to `found`, in discovery order.
    fn expand(&self, n: &str, visited: &mut Vec<String>, found: &mut Vec<String>)
        requires
            self.wf(),
            strictly_sorted(views(old(visited)@)),
        ensures
            strictly_sorted(views(final(visited)@)),
            forall|m: Chars| #[trigger] views(final(visited)@).contains(m) <==> (views(old(visited)@).contains(m) || adj(self@, n@, m)),
            views(final(found)@).len() >= views(old(found)@).len(),
            views(final(found)@).take(views(old(found)@).len() as int) == views(old(found)@),
            views(final(found)@).skip(views(old(found)@).len() as int).no_duplicates(),
            forall|m: Chars| #[trigger] views(final(found)@).skip(views(old(found)@).len() as int).contains(m) <==> (adj(self@, n@, m) && !views(old(visited)@).contains(m)),
    {
        let ghost g = self@;
        let ghost v0 = views(visited@);
        let ghost f0 = views(found@);
        let ids = self.edges_of(n);
        let ghost iv = str_views(ids@);
        let mut i: usize = 0;
        assert(views(found@).skip(f0.len() as int) =~= Seq::<Chars>::empty());
        while i < ids.len()
            invariant
                i <= ids@.len(),
                self.wf(),
                g == self@,
                iv == str_views(ids@),
                iv == inc_of(g, n@),
                strictly_sorted(views(visited@)),
                forall|m: Chars| #[trigger] views(visited@).contains(m) <==> (v0.contains(m) || adj_via(g, iv.take(i as int), m)),
                views(found@).len() >= f0.len(),
                views(found@).take(f0.len() as int) == f0,
                views(found@).skip(f0.len() as int).no_duplicates(),
                forall|m: Chars| #[trigger] views(found@).skip(f0.len() as int).contains(m) <==> (adj_via(g, iv.take(i as int), m) && !v0.contains(m)),
            decreases ids@.len() - i,
        {
            proof {
                assert forall|m: Chars| #[trigger] adj_via(g, iv.take(i + 1), m) <==> (adj_via(g, iv.take(i as int), m) || connects(g, iv[i as int], m)) by {
                    lemma_adj_via_step(g, iv, i as int, m);
                }
            }
            assert(iv[i as int] == ids@[i as int]@);
            match self.edge(ids[i]) {
                Some(e) => {
                    let ns = e.all_nodes();
                    let ghost nv = str_views(ns@);
                    assert(nv == nodes_of(e@));
                    let ghost vi = views(visited@);
                    let ghost fi = views(found@).skip(f0.len() as int);
                    let mut k: usize = 0;
                    while k < ns.len()
                        invariant
                            k <= ns@.len(),
                            nv == str_views(ns@),
                            strictly_sorted(views(visited@)),
                            forall|m: Chars| #[trigger] views(visited@).contains(m) <==> (vi.contains(m) || nv.take(k as int).contains(m)),
                            views(found@).len() >= f0.len(),
                            views(found@).take(f0.len() as int) == f0,
                            views(found@).skip(f0.len() as int).no_duplicates(),
                            forall|m: Chars| #[trigger] views(found@).skip(f0.len() as int).contains(m) <==> (fi.contains(m) || (nv.take(k as int).contains(m) && !vi.contains(m))),
                            forall|m: Chars| #[trigger] fi.contains(m) ==> vi.contains(m),
                        decreases ns@.len() - k,
                    {
                        let ghost t0 = nv.take(k as int);
                        let ghost t1 = nv.take(k + 1);
                        proof {
                            assert(t1 =~= t0.push(nv[k as int]));
                            assert forall|m: Chars| #[trigger] t1.contains(m) <==> (t0.contains(m) || m == nv[k as int]) by {
                                if t1.contains(m) {
                                    let q = choose|q: int| 0 <= q < t1.len() && #[trigger] t1[q] == m;
                                    if q < k {
                                        assert(t0[q] == m);
                                    }
                                }
                                if t0.contains(m) {
                                    let q = choose|q: int| 0 <= q < t0.len() && #[trigger] t0[q] == m;
                                    assert(t1[q] == m);
                                }
                                if m == nv[k as int] {
                                    assert(t1[k as int] == m);
                                }
                            }
                        }
                        let m = ns[k];
                        assert(nv[k as int] == m@);
                        if !crate::text::contains_str(visited, m) {
                            let ghost fs = views(found@);
                            insert_sorted(visited, m);
                            found.push(owned(m));
                            proof {
                                let fs2 = views(found@);
                                assert(fs2 =~= fs.push(m@));
                                assert(fs2.take(f0.len() as int) =~= fs.take(f0.len() as int));
                                assert(fs2.skip(f0.len() as int) =~= fs.skip(f0.len() as int).push(m@));
                                let old_new = fs.skip(f0.len() as int);
                                assert(!old_new.contains(m@)) by {
                                    if old_new.contains(m@) {
                                        if fi.contains(m@) {
                                        } else {
                                        }
                                    }
                                }
                                assert forall|x: Chars| #[trigger] fs2.skip(f0.len() as int).contains(x) <==> (old_new.contains(x) || x == m@) by {
                                    let a = old_new;
                                    let b = fs2.skip(f0.len() as int);
                                    if b.contains(x) {
                                        let q = choose|q: int| 0 <= q < b.len() && #[trigger] b[q] == x;
                                        if q < a.len() {
                                            assert(a[q] == x);
                                        }
                                    }
                                    if a.contains(x) {
                                        let q = choose|q: int| 0 <= q < a.len() && #[trigger] a[q] == x;
                                        assert(b[q] == x);
                                    }
                                    if x == m@ {
                                        assert(b[a.len() as int] == x);
                                    }
                                }
                            }
                        }
                        k += 1;
                    }
                    assert(nv.take(ns@.len() as int) =~= nv);
                    proof {
                        assert forall|m: Chars| connects(g, iv[i as int], m) <==> nv.contains(m) by {}
                    }
                },
                None => {
                    assert forall|m: Chars| !connects(g, iv[i as int], m) by {}
                },
            }
            i += 1;
        }
        assert(iv.take(ids@.len() as int) =~= iv);
    }
}

/// The nodes within `k` hops of `s`.
pub open spec fn within(g: HyperGraphV, s: Chars, k: nat) -> Set<Chars>
    decreases k,
{
    if k == 0 {
        set![s]
    } else {
        let p = within(g, s, (k - 1) as nat);
        p.union(Set::new(|m: Chars| exists|n: Chars| p.contains(n) && #[trigger] adj(g, n, m)))
    }
}

impl HyperGraph {
    /// All nodes reachable from `node` within `hops` edge traversals, in
    /// increasing order.
    pub fn neighborhood(&self, node: &str, hops: usize) -> (r: Vec<String>)
        requires
            self.wf(),
        ensures
            strictly_sorted(views(r@)),
            forall|m: Chars| #[trigger] views(r@).contains(m) <==> within(self@, node@, hops as nat).contains(m),
    {
        let ghost g = self@;
        let mut visited: Vec<String> = Vec::new();
        visited.push(owned(node));
        let mut frontier: Vec<String> = Vec::new();
        frontier.push(owned(node));
        proof {
            assert(views(visited@) =~= seq![node@]);
            assert(views(frontier@) =~= seq![node@]);
            assert forall|m: Chars| #[trigger] views(visited@).contains(m) <==> within(g, node@, 0).contains(m) by {
                if views(visited@).contains(m) {
                    assert(views(visited@)[0] == node@);
                }
                if m == node@ {
                    assert(views(visited@)[0] == m);
                }
            }
        }
        let mut round: usize = 0;
        while round < hops
            invariant
                round <= hops,
                self.wf(),
                g == self@,
                strictly_sorted(views(visited@)),
                forall|m: Chars| #[trigger] views(visited@).contains(m) <==> within(g, node@, round as nat).contains(m),
                forall|m: Chars| #[trigger] views(frontier@).contains(m) ==> views(visited@).contains(m),
                forall|n: Chars, m: Chars| views(visited@).contains(n) && !views(frontier@).contains(n) && #[trigger] adj(g, n, m) ==> views(visited@).contains(m),
            decreases hops - round,
        {
            let ghost v0 = views(visited@);
            let ghost fr = views(frontier@);
            let mut next: Vec<String> = Vec::new();
            let mut j: usize = 0;
            while j < frontier.len()
                invariant
                    j <= frontier@.len(),
                    self.wf(),
                    g == self@,
                    fr == views(frontier@),
                    strictly_sorted(views(visited@)),
                    forall|m: Chars| #[trigger] views(visited@).contains(m) <==> (v0.contains(m) || views(next@).contains(m)),
                    forall|m: Chars| #[trigger] views(next@).contains(m) ==> exists|n: Chars| fr.contains(n) && #[trigger] adj(g, n, m),
                    forall|m: Chars| #[trigger] views(next@).contains(m) ==> !v0.contains(m),
                    forall|n: Chars, m: Chars| fr.take(j as int).contains(n) && #[trigger] adj(g, n, m) ==> views(visited@).contains(m),
                decreases frontier@.len() - j,
            {
                let ghost vis_before = views(visited@);
                let ghost nx_before = views(next@);
                let ghost n = fr[j as int];
                assert(n == frontier@[j as int]@);
                self.expand(frontier[j].as_str(), &mut visited, &mut next);
                proof {
                    let nx = views(next@);
                    assert forall|m: Chars| #[trigger] nx.contains(m) <==> (nx_before.contains(m) || (adj(g, n, m) && !vis_before.contains(m))) by {
                        let a = nx_before;
                        let b = nx.skip(a.len() as int);
                        assert(nx =~= a + b) by {
                            assert(nx.take(a.len() as int) == a);
                        }
                        if nx.contains(m) {
                            let q = choose|q: int| 0 <= q < nx.len() && #[trigger] nx[q] == m;
                            if q < a.len() {
                                assert(a[q] == m);
                            } else {
                                assert(b[q - a.len()] == m);
                            }
                        }
                        if a.contains(m) {
                            let q = choose|q: int| 0 <= q < a.len() && #[trigger] a[q] == m;
                            assert(nx[q] == m);
                        }
                        if adj(g, n, m) && !vis_before.contains(m) {
                            assert(b.contains(m));
                            let q = choose|q: int| 0 <= q < b.len() && #[trigger] b[q] == m;
                            assert(nx[a.len() + q] == m);
                        }
                    }
                    assert(fr.contains(n)) by {
                        assert(fr[j as int] == n);
                    }
                    assert forall|m: Chars| #[trigger] nx.contains(m) implies exists|n2: Chars| fr.contains(n2) && #[trigger] adj(g, n2, m) by {
                        if nx_before.contains(m) {
                        } else {
                            assert(fr.contains(n) && adj(g, n, m));
                        }
                    }
                    assert forall|n2: Chars, m: Chars| fr.take(j + 1).contains(n2) && #[trigger] adj(g, n2, m) implies views(visited@).contains(m) by {
                        if fr.take(j as int).contains(n2) {
                        } else {
                            let q = choose|q: int| 0 <= q < j + 1 && #[trigger] fr.take(j + 1)[q] == n2;
                            if q < j {
                                assert(fr.take(j as int)[q] == n2);
                            } else {
                                assert(n2 == n);
                            }
                        }
                    }
                }
                j += 1;
            }
            proof {
                assert(fr.take(frontier@.len() as int) =~= fr);
                let v1 = views(visited@);
                let nx = views(next@);
                let p = within(g, node@, round as nat);
                assert(within(g, node@, (round + 1) as nat) == p.union(Set::new(|m: Chars| exists|n: Chars| p.contains(n) && #[trigger] adj(g, n, m))));
                assert forall|m: Chars| #[trigger] v1.contains(m) <==> within(g, node@, (round + 1) as nat).contains(m) by {
                    if v1.contains(m) {
                        if nx.contains(m) {
                            let n = choose|n: Chars| fr.contains(n) && #[trigger] adj(g, n, m);
                            assert(v0.contains(n));
                            assert(p.contains(n));
                        }
                    }
                    if within(g, node@, (round + 1) as nat).contains(m) {
                        if !p.contains(m) {
                            let n = choose|n: Chars| p.contains(n) && #[trigger] adj(g, n, m);
                            assert(v0.contains(n));
                            if fr.contains(n) {
                            } else {
                            }
                        }
                    }
                }
                assert forall|n: Chars, m: Chars| v1.contains(n) && !nx.contains(n) && #[trigger] adj(g, n, m) implies v1.contains(m) by {
                    assert(v0.contains(n));
                    if fr.contains(n) {
                    } else {
                        assert(v0.contains(m));
                    }
                }
            }
            frontier = next;
            round += 1;
        }
        visited
    }
}

// ── Connected components ─────────────────────────────────────────

/// A walk along shared edges that stays outside `vs`.
pub open spec fn is_walk(g: HyperGraphV, p: Seq<Chars>, vs: Set<Chars>) -> bool {
    &&& p.len() > 0
    &&& forall|i: int| 0 <= i < p.len() ==> !vs.contains(#[trigger] p[i])
    &&& forall|i: int| 0 <= i < p.len() - 1 ==> #[trigger] adj(g, p[i], p[i + 1])
}

/// `m` can be reached from `s` without passing through `vs`.
pub open spec fn reaches(g: HyperGraphV, s: Chars, m: Chars, vs: Set<Chars>) -> bool {
    exists|p: Seq<Chars>| #[trigger] is_walk(g, p, vs) && p[0] == s && p.last() == m
}

/// The nodes reachable from `s` without passing through `vs`.
pub open spec fn component_of(g: HyperGraphV, s: Chars, vs: Set<Chars>) -> Set<Chars> {
    Set::new(|m: Chars| reaches(g, s, m, vs))
}

/// The components found by taking the nodes in order and, at each node not
/// yet in a component, gathering everything reachable from it through the
/// nodes not yet taken.
pub open spec fn components_from(g: HyperGraphV, keys: Seq<Chars>, vs: Set<Chars>) -> Seq<Set<Chars>>
    decreases keys.len(),
{
    if keys.len() == 0 {
        Seq::empty()
    } else if vs.contains(keys[0]) {
        components_from(g, keys.drop_first(), vs)
    } else {
        let c = component_of(g, keys[0], vs);
        seq![c] + components_from(g, keys.drop_first(), vs.union(c))
    }
}

proof fn lemma_nodup_subset_len(o: Seq<Chars>, u: Seq<Chars>)
    requires
        o.no_duplicates(),
        forall|x: Chars| #[trigger] o.contains(x) ==> u.contains(x),
    ensures
        o.len() <= u.len(),
{
    broadcast use vstd::seq_lib::seq_to_set_is_finite;
    o.unique_seq_to_set();
    u.lemma_cardinality_of_set();
    assert(o.to_set().subset_of(u.to_set()));
    vstd::set_lib::lemma_len_subset(o.to_set(), u.to_set());
}

proof fn lemma_walk_inside(g: HyperGraphV, p: Seq<Chars>, v0: Set<Chars>, inside: Seq<Chars>, visited: Seq<Chars>, i: int)
    requires
        is_walk(g, p, v0),
        inside.contains(p[0]),
        forall|m: Chars| #[trigger] visited.contains(m) <==> (v0.contains(m) || inside.contains(m)),
        forall|n: Chars, m: Chars| inside.contains(n) && #[trigger] adj(g, n, m) ==> visited.contains(m),
        0 <= i < p.len(),
    ensures
        inside.contains(p[i]),
    decreases i,
{
    if i > 0 {
        lemma_walk_inside(g, p, v0, inside, visited, i - 1);
        let k = i - 1;
        assert(0 <= k < p.len() - 1);
        assert(adj(g, p[k], p[k + 1]));
        assert(p[k + 1] == p[i]);
        assert(!v0.contains(p[i]));
    }
}

proof fn lemma_adj_is_node(g: HyperGraphV, n: Chars, m: Chars)
    requires
        graph_wf(g),
        adj(g, n, m),
    ensures
        g.nodes.contains(m),
{
    let ids = inc_of(g, n);
    let j = choose|j: int| 0 <= j < ids.len() && #[trigger] connects(g, ids[j], m);
    let y = ids[j];
    lemma_first_index_spec(ids_of(g.edges), y);
    let i = first_index(ids_of(g.edges), y)->0;
    assert(nodes_of(g.edges[i]).contains(m));
}

impl HyperGraph {
    /// Everything reachable from `start` through nodes not yet visited,
    /// in increasing order; those nodes become visited.
    fn gather(&self, start: &str, visited: &mut Vec<String>) -> (r: Vec<String>)
        requires
            self.wf(),
            strictly_sorted(views(old(visited)@)),
            !views(old(visited)@).contains(start@),
            self@.nodes.contains(start@),
            forall|m: Chars| #[trigger] views(old(visited)@).contains(m) ==> self@.nodes.contains(m),
        ensures
            strictly_sorted(views(final(visited)@)),
            forall|m: Chars| #[trigger] views(final(visited)@).contains(m) ==> self@.nodes.contains(m),
            forall|m: Chars| #[trigger] views(final(visited)@).contains(m) <==> (views(old(visited)@).contains(m)
                || component_of(self@, start@, views(old(visited)@).to_set()).contains(m)),
            strictly_sorted(views(r@)),
            forall|m: Chars| #[trigger] views(r@).contains(m) <==> component_of(self@, start@, views(old(visited)@).to_set()).contains(m),
    {
        let ghost g = self@;
        let ghost v0 = views(visited@).to_set();
        let ghost vs0 = views(visited@);
        insert_sorted(visited, start);
        let mut order: Vec<String> = Vec::new();
        order.push(owned(start));
        proof {
            assert(views(order@) =~= seq![start@]);
            assert forall|m: Chars| #[trigger] views(order@).contains(m) implies reaches(g, start@, m, v0) by {
                assert(views(order@)[0] == m);
                let p = seq![start@];
                assert(is_walk(g, p, v0));
            }
            assert forall|m: Chars| #[trigger] views(visited@).contains(m) <==> (v0.contains(m) || views(order@).contains(m)) by {
                if m == start@ {
                    assert(views(order@)[0] == m);
                }
            }
            lemma_nodup_subset_len(views(order@), g.nodes);
        }
        let mut head: usize = 0;
        while head < order.len()
            invariant
                self.wf(),
                g == self@,
                head <= order@.len() <= g.nodes.len(),
                views(order@).len() > 0,
                views(order@)[0] == start@,
                views(order@).no_duplicates(),
                strictly_sorted(views(visited@)),
                forall|m: Chars| #[trigger] views(visited@).contains(m) <==> (v0.contains(m) || views(order@).contains(m)),
                forall|m: Chars| #[trigger] views(visited@).contains(m) ==> g.nodes.contains(m),
                forall|m: Chars| #[trigger] views(order@).contains(m) ==> !v0.contains(m),
                forall|m: Chars| #[trigger] views(order@).contains(m) ==> reaches(g, start@, m, v0),
                forall|i: int, m: Chars| 0 <= i < head && #[trigger] adj(g, views(order@)[i], m) ==> views(visited@).contains(m),
            decreases g.nodes.len() - head,
        {
            let ghost o0 = views(order@);
            let ghost vis0 = views(visited@);
            let n = owned(order[head].as_str());
            assert(n@ == o0[head as int]);
            self.expand(n.as_str(), visited, &mut order);
            proof {
                let o1 = views(order@);
                let nw = o1.skip(o0.len() as int);
                assert(o1 =~= o0 + nw) by {
                    assert(o1.take(o0.len() as int) == o0);
                }
                assert forall|m: Chars| #[trigger] o1.contains(m) <==> (o0.contains(m) || nw.contains(m)) by {
                    if o1.contains(m) {
                        let q = choose|q: int| 0 <= q < o1.len() && #[trigger] o1[q] == m;
                        if q >= o0.len() {
                            assert(nw[q - o0.len()] == m);
                        }
                    }
                    if o0.contains(m) {
                        let q = choose|q: int| 0 <= q < o0.len() && #[trigger] o0[q] == m;
                        assert(o1[q] == m);
                    }
                    if nw.contains(m) {
                        let q = choose|q: int| 0 <= q < nw.len() && #[trigger] nw[q] == m;
                        assert(o1[o0.len() + q] == m);
                    }
                }
                assert forall|i: int, j: int| 0 <= i < o0.len() && 0 <= j < nw.len() implies o0[i] != nw[j] by {
                    assert(o0.contains(o0[i]));
                    assert(nw.contains(nw[j]));
                }
                vstd::seq_lib::lemma_no_dup_in_concat(o0, nw);
                assert forall|m: Chars| #[trigger] views(visited@).contains(m) ==> g.nodes.contains(m) by {
                    if views(visited@).contains(m) && !vis0.contains(m) {
                        lemma_adj_is_node(g, n@, m);
                    }
                }
                assert forall|m: Chars| #[trigger] o1.contains(m) implies reaches(g, start@, m, v0) by {
                    if nw.contains(m) {
                        assert(o0.contains(n@)) by {
                            assert(o0[head as int] == n@);
                        }
                        let p = choose|p: Seq<Chars>| #[trigger] is_walk(g, p, v0) && p[0] == start@ && p.last() == n@;
                        let p2 = p.push(m);
                        assert(!v0.contains(m));
                        assert forall|i: int| 0 <= i < p2.len() - 1 implies #[trigger] adj(g, p2[i], p2[i + 1]) by {
                            if i < p.len() - 1 {
                                assert(adj(g, p[i], p[i + 1]));
                            } else {
                                assert(p2[i] == n@);
                                assert(p2[i + 1] == m);
                            }
                        }
                        assert forall|i: int| 0 <= i < p2.len() implies !v0.contains(#[trigger] p2[i]) by {
                            if i < p.len() {
                                assert(p2[i] == p[i]);
                            }
                        }
                        assert(is_walk(g, p2, v0));
                    }
                }
                assert forall|m: Chars| #[trigger] views(visited@).contains(m) <==> (v0.contains(m) || o1.contains(m)) by {}
                assert forall|i: int, m: Chars| 0 <= i < head + 1 && #[trigger] adj(g, o1[i], m) implies views(visited@).contains(m) by {
                    assert(o1[i] == o0[i]);
                }
                assert forall|x: Chars| #[trigger] o1.contains(x) implies g.nodes.contains(x) by {
                    assert(views(visited@).contains(x));
                }
                lemma_nodup_subset_len(o1, g.nodes);
            }
            head += 1;
        }
        let ghost ov = views(order@);
        proof {
            assert forall|m: Chars| #[trigger] ov.contains(m) <==> component_of(g, start@, v0).contains(m) by {
                if reaches(g, start@, m, v0) {
                    let p = choose|p: Seq<Chars>| #[trigger] is_walk(g, p, v0) && p[0] == start@ && p.last() == m;
                    assert(ov.contains(p[0])) by {
                        assert(ov[0] == start@);
                    }
                    assert forall|n: Chars, x: Chars| ov.contains(n) && #[trigger] adj(g, n, x) implies views(visited@).contains(x) by {
                        let q = choose|q: int| 0 <= q < ov.len() && ov[q] == n;
                    }
                    lemma_walk_inside(g, p, v0, ov, views(visited@), p.len() - 1);
                }
            }
            assert forall|m: Chars| #[trigger] views(visited@).contains(m) <==> (vs0.contains(m) || component_of(g, start@, v0).contains(m)) by {
                assert(v0.contains(m) <==> vs0.contains(m));
            }
        }
        let r = crate::text::sorted_unique(&order);
        r
    }

    /// Connected components (independent knowledge domains): nodes are
    /// connected when they share an edge. Each component is in increasing
    /// order; components come in the order of their first node.
    pub fn connected_components(&self) -> (r: Vec<Vec<String>>)
        requires
            self.wf(),
        ensures
            r@.len() == components_from(self@, self@.nodes, Set::empty()).len(),
            forall|j: int| 0 <= j < r@.len() ==> strictly_sorted(views(#[trigger] r@[j]@)),
            forall|j: int, m: Chars| 0 <= j < r@.len() ==> (#[trigger] views(r@[j]@).contains(m) <==> components_from(
                self@,
                self@.nodes,
                Set::empty(),
            )[j].contains(m)),
    {
        let ghost g = self@;
        let ghost all = components_from(g, g.nodes, Set::empty());
        let mut visited: Vec<String> = Vec::new();
        let mut out: Vec<Vec<String>> = Vec::new();
        let mut i: usize = 0;
        proof {
            assert(views(visited@).to_set() =~= Set::<Chars>::empty());
            assert(g.nodes.skip(0) =~= g.nodes);
        }
        while i < self.nodes.len()
            invariant
                self.wf(),
                g == self@,
                all == components_from(g, g.nodes, Set::empty()),
                i <= g.nodes.len(),
                strictly_sorted(views(visited@)),
                forall|m: Chars| #[trigger] views(visited@).contains(m) ==> g.nodes.contains(m),
                out@.len() + components_from(g, g.nodes.skip(i as int), views(visited@).to_set()).len() == all.len(),
                forall|j: int| 0 <= j < out@.len() ==> strictly_sorted(views(#[trigger] out@[j]@)),
                forall|j: int, m: Chars| 0 <= j < out@.len() ==> (#[trigger] views(out@[j]@).contains(m) <==> all[j].contains(m)),
                forall|j: int| 0 <= j < components_from(g, g.nodes.skip(i as int), views(visited@).to_set()).len() ==> #[trigger] components_from(g, g.nodes.skip(i as int), views(visited@).to_set())[j] == all[out@.len() + j],
            decreases g.nodes.len() - i,
        {
            let ghost keys = g.nodes.skip(i as int);
            let ghost vs = views(visited@).to_set();
            assert(keys[0] == g.nodes[i as int]);
            assert(keys.drop_first() =~= g.nodes.skip(i + 1));
            assert(g.nodes[i as int] == self.nodes@[i as int]@);
            if crate::text::contains_str(&visited, self.nodes[i].as_str()) {
                assert(vs.contains(keys[0]));
            } else {
                assert(!vs.contains(keys[0]));
                assert(g.nodes.contains(g.nodes[i as int]));
                let comp = self.gather(self.nodes[i].as_str(), &mut visited);
                proof {
                    let c = component_of(g, keys[0], vs);
                    assert(views(visited@).to_set() =~= vs.union(c));
                    let rest = components_from(g, keys.drop_first(), vs.union(c));
                    assert(components_from(g, keys, vs) == seq![c] + rest);
                    assert(all[out@.len() as int] == c) by {
                        assert(components_from(g, keys, vs)[0] == c);
                    }
                    assert forall|j: int| 0 <= j < rest.len() implies #[trigger] rest[j] == all[out@.len() + 1 + j] by {
                        assert(components_from(g, keys, vs)[j + 1] == rest[j]);
                    }
                }
                let ghost before = out@;
                out.push(comp);
                proof {
                    assert forall|j: int, m: Chars| 0 <= j < out@.len() implies (#[trigger] views(out@[j]@).contains(m) <==> all[j].contains(m)) by {
                        if j < before.len() {
                            assert(out@[j] == before[j]);
                        }
                    }
                    assert forall|j: int| 0 <= j < out@.len() implies strictly_sorted(views(#[trigger] out@[j]@)) by {
                        if j < before.len() {
                            assert(out@[j] == before[j]);
                        }
                    }
                }
            }
            i += 1;
        }
        assert(g.nodes.skip(g.nodes.len() as int) =~= Seq::<Chars>::empty());
        out
    }
}

} // verus!
