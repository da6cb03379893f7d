//! Content tree — the fractal narrative structure. Leaves carry text and
//! effects; branches distribute their effects to their children. Branch or
//! leaf is decided by the tree's structure: a node with children is a
//! branch.
//!
//! Unlock rule: a node can be active when its parent is committed, or is
//! active and being expanded (has children); every preceding sibling must
//! be committed.
//!
//! The keyed tables are lists of `(key, value)` entries with distinct
//! keys; `nodes` is kept in increasing order of id.
use vstd::prelude::*;

use crate::error::{LedgerError, LedgerErrorV};
use crate::history::{lemma_first_index_at, lemma_first_index_spec};
use crate::op::{Op, OpV, contains_op, describe_spec, first_index, op_views};
use crate::text::{
    Chars, chars_of, find, find_in, lex_lt, owned, push_char, push_str, rfind, rfind_in, str_eq, str_lt,
    string_from, strictly_sorted, views,
};
use crate::clock::{now, stamp_of};

verus! {

broadcast use vstd::seq_lib::group_seq_properties;

/// Lifecycle of a content node: locked → active → committed (and back to
/// active when re-edited).
#[derive(Debug, Clone, Copy, PartialEq, Eq, Structural)]
pub enum ContentStatus {
    Locked,
    Active,
    Committed,
}

impl Default for ContentStatus {
    fn default() -> (r: ContentStatus)
        ensures
            r == ContentStatus::Locked,
    {
        ContentStatus::Locked
    }
}

/// Runtime state of a content node.
#[derive(Debug)]
pub struct ContentEntry {
    pub status: ContentStatus,
    pub committed_at: Option<String>,
    /// Incremented each time a committed node is re-activated.
    pub version: u32,
    /// An ancestor was re-edited after this node was committed.
    pub stale: bool,
}

pub ghost struct ContentEntryV {
    pub status: ContentStatus,
    pub committed_at: Option<Chars>,
    pub version: u32,
    pub stale: bool,
}

impl View for ContentEntry {
    type V = ContentEntryV;

    open spec fn view(&self) -> ContentEntryV {
        ContentEntryV {
            status: self.status,
            committed_at: match self.committed_at {
                Some(s) => Some(s@),
                None => None,
            },
            version: self.version,
            stale: self.stale,
        }
    }
}

/// The runtime state of one node.
#[derive(Debug)]
pub struct NodeState {
    pub id: String,
    pub entry: ContentEntry,
}

/// The ordered children of one node.
#[derive(Debug)]
pub struct ChildList {
    pub parent: String,
    pub children: Vec<String>,
}

/// A node and its parent.
#[derive(Debug)]
pub struct ParentLink {
    pub child: String,
    pub parent: String,
}

/// The content tree: structure and node lifecycle.
#[derive(Debug)]
pub struct ContentTree {
    pub root: Option<String>,
    /// The node currently being worked on.
    pub active: Option<String>,
    /// Per-node runtime state, by increasing id.
    pub nodes: Vec<NodeState>,
    /// Parent → ordered children.
    pub children: Vec<ChildList>,
    /// Node → parent.
    pub parents: Vec<ParentLink>,
}

pub ghost struct TreeV {
    pub root: Option<Chars>,
    pub active: Option<Chars>,
    pub nodes: Seq<(Chars, ContentEntryV)>,
    pub children: Seq<(Chars, Seq<Chars>)>,
    pub parents: Seq<(Chars, Chars)>,
}

pub open spec fn opt_chars(o: Option<String>) -> Option<Chars> {
    match o {
        Some(s) => Some(s@),
        None => None,
    }
}

pub open spec fn node_views(s: Seq<NodeState>) -> Seq<(Chars, ContentEntryV)> {
    s.map_values(|n: NodeState| (n.id@, n.entry@))
}

pub open spec fn child_views(s: Seq<ChildList>) -> Seq<(Chars, Seq<Chars>)> {
    s.map_values(|c: ChildList| (c.parent@, views(c.children@)))
}

pub open spec fn parent_views(s: Seq<ParentLink>) -> Seq<(Chars, Chars)> {
    s.map_values(|p: ParentLink| (p.child@, p.parent@))
}

impl View for ContentTree {
    type V = TreeV;

    open spec fn view(&self) -> TreeV {
        TreeV {
            root: opt_chars(self.root),
            active: opt_chars(self.active),
            nodes: node_views(self.nodes@),
            children: child_views(self.children@),
            parents: parent_views(self.parents@),
        }
    }
}

// ── Keyed lookups ────────────────────────────────────────────────

pub open spec fn keys<V>(s: Seq<(Chars, V)>) -> Seq<Chars> {
    s.map_values(|p: (Chars, V)| p.0)
}

/// The value of the first entry with the given key.
pub open spec fn get<V>(s: Seq<(Chars, V)>, k: Chars) -> Option<V> {
    match first_index(keys(s), k) {
        Some(i) => Some(s[i].1),
        None => None,
    }
}

pub open spec fn entry_of(t: TreeV, id: Chars) -> Option<ContentEntryV> {
    get(t.nodes, id)
}

/// The ordered children of a node (none when it has no list).
pub open spec fn kids(t: TreeV, id: Chars) -> Seq<Chars> {
    match get(t.children, id) {
        Some(c) => c,
        None => Seq::empty(),
    }
}

pub open spec fn parent_of(t: TreeV, id: Chars) -> Option<Chars> {
    get(t.parents, id)
}

pub open spec fn is_committed(t: TreeV, id: Chars) -> bool {
    entry_of(t, id) matches Some(e) && e.status == ContentStatus::Committed
}

pub open spec fn is_leaf_spec(t: TreeV, id: Chars) -> bool {
    kids(t, id).len() == 0
}

// ── Depth-first order ────────────────────────────────────────────

/// Pre-order walk from `node`, descending at most `fuel` levels.
pub open spec fn walk(t: TreeV, node: Chars, fuel: nat) -> Seq<Chars>
    decreases fuel, 0nat,
{
    if fuel == 0 {
        seq![node]
    } else {
        seq![node] + walk_list(t, kids(t, node), (fuel - 1) as nat)
    }
}

/// The walks from each node of `ks`, one after another.
pub open spec fn walk_list(t: TreeV, ks: Seq<Chars>, fuel: nat) -> Seq<Chars>
    decreases fuel, ks.len(),
{
    if ks.len() == 0 {
        Seq::empty()
    } else {
        walk_list(t, ks.drop_last(), fuel) + walk(t, ks.last(), fuel)
    }
}

/// How deep walks go: the number of registered nodes, which the depth of
/// a tree without cycles never reaches.
pub open spec fn depth_bound(t: TreeV) -> nat {
    t.nodes.len()
}

/// The pre-order listing of the whole tree.
pub open spec fn dfs_spec(t: TreeV) -> Seq<Chars> {
    match t.root {
        Some(r) => walk(t, r, depth_bound(t)),
        None => Seq::empty(),
    }
}

pub open spec fn leaf_pred(t: TreeV) -> spec_fn(Chars) -> bool {
    |x: Chars| is_leaf_spec(t, x)
}

/// Parent hops from `id` until a node without parent, at most `fuel`.
pub open spec fn depth_spec(t: TreeV, id: Chars, fuel: nat) -> nat
    decreases fuel,
{
    if fuel == 0 {
        0
    } else {
        match parent_of(t, id) {
            Some(p) => 1 + depth_spec(t, p, (fuel - 1) as nat),
            None => 0,
        }
    }
}

/// The ancestor chain above `id`, nearest first, at most `fuel` long.
pub open spec fn up_chain(t: TreeV, id: Chars, fuel: nat) -> Seq<Chars>
    decreases fuel,
{
    if fuel == 0 {
        Seq::empty()
    } else {
        match parent_of(t, id) {
            Some(p) => seq![p] + up_chain(t, p, (fuel - 1) as nat),
            None => Seq::empty(),
        }
    }
}

/// How many parent hops are followed: the number of parent links, which
/// the depth of a tree without cycles never exceeds.
pub open spec fn hop_bound(t: TreeV) -> nat {
    t.parents.len()
}

/// A sequence in reverse order.
pub open spec fn rev(s: Seq<Chars>) -> Seq<Chars> {
    Seq::new(s.len(), |i: int| s[s.len() - 1 - i])
}

pub open spec fn at_depth(t: TreeV, d: nat) -> spec_fn(Chars) -> bool {
    |x: Chars| depth_spec(t, x, hop_bound(t)) == d
}

impl ContentTree {
    fn node_pos(&self, id: &str) -> (r: Option<usize>)
        ensures
            first_index(keys(self@.nodes), id@) == match r {
                Some(i) => Some(i as int),
                None => None,
            },
            r matches Some(i) ==> i < self.nodes@.len(),
    {
        let ghost ks = keys(self@.nodes);
        let mut i: usize = 0;
        while i < self.nodes.len()
            invariant
                i <= self.nodes@.len(),
                ks == keys(self@.nodes),
                ks.len() == self.nodes@.len(),
                forall|k: int| 0 <= k < i ==> ks[k] != id@,
            decreases self.nodes@.len() - i,
        {
            assert(ks[i as int] == self.nodes@[i as int].id@);
            if str_eq(self.nodes[i].id.as_str(), id) {
                proof { lemma_first_index_at(ks, id@, i as int); }
                return Some(i);
            }
            i += 1;
        }
        proof { lemma_first_index_at(ks, id@, i as int); }
        None
    }

    fn child_pos(&self, id: &str) -> (r: Option<usize>)
        ensures
            first_index(keys(self@.children), id@) == match r {
                Some(i) => Some(i as int),
                None => None,
            },
            r matches Some(i) ==> i < self.children@.len(),
    {
        let ghost ks = keys(self@.children);
        let mut i: usize = 0;
        while i < self.children.len()
            invariant
                i <= self.children@.len(),
                ks == keys(self@.children),
                ks.len() == self.children@.len(),
                forall|k: int| 0 <= k < i ==> ks[k] != id@,
            decreases self.children@.len() - i,
        {
            assert(ks[i as int] == self.children@[i as int].parent@);
            if str_eq(self.children[i].parent.as_str(), id) {
                proof { lemma_first_index_at(ks, id@, i as int); }
                return Some(i);
            }
            i += 1;
        }
        proof { lemma_first_index_at(ks, id@, i as int); }
        None
    }

    fn parent_pos(&self, id: &str) -> (r: Option<usize>)
        ensures
            first_index(keys(self@.parents), id@) == match r {
                Some(i) => Some(i as int),
                None => None,
            },
            r matches Some(i) ==> i < self.parents@.len(),
    {
        let ghost ks = keys(self@.parents);
        let mut i: usize = 0;
        while i < self.parents.len()
            invariant
                i <= self.parents@.len(),
                ks == keys(self@.parents),
                ks.len() == self.parents@.len(),
                forall|k: int| 0 <= k < i ==> ks[k] != id@,
            decreases self.parents@.len() - i,
        {
            assert(ks[i as int] == self.parents@[i as int].child@);
            if str_eq(self.parents[i].child.as_str(), id) {
                proof { lemma_first_index_at(ks, id@, i as int); }
                return Some(i);
            }
            i += 1;
        }
        proof { lemma_first_index_at(ks, id@, i as int); }
        None
    }

    /// Whether the tree holds a node with this id.
    pub fn has_node(&self, content_id: &str) -> (r: bool)
        ensures
            r == keys(self@.nodes).contains(content_id@),
    {
        let p = self.node_pos(content_id);
        proof {
            lemma_first_index_spec(keys(self@.nodes), content_id@);
        }
        p.is_some()
    }

    /// The parent of a node.
    pub fn parent(&self, id: &str) -> (r: Option<&str>)
        ensures
            match r {
                Some(p) => parent_of(self@, id@) == Some(p@),
                None => parent_of(self@, id@) is None,
            },
    {
        match self.parent_pos(id) {
            Some(i) => {
                assert(self@.parents[i as int] == (self.parents@[i as int].child@, self.parents@[i as int].parent@));
                Some(self.parents[i].parent.as_str())
            },
            None => None,
        }
    }

    /// Ordered children of a node.
    pub fn children_of(&self, content_id: &str) -> (r: &[String])
        ensures
            views(r@) == kids(self@, content_id@),
    {
        match self.child_pos(content_id) {
            Some(i) => {
                assert(self@.children[i as int].1 == views(self.children@[i as int].children@));
                self.children[i].children.as_slice()
            },
            None => {
                let e: &[String] = &[];
                assert(views(e@) =~= Seq::<Chars>::empty());
                e
            },
        }
    }

    /// Whether a node has children (a branch).
    pub fn is_branch(&self, content_id: &str) -> (r: bool)
        ensures
            r == !is_leaf_spec(self@, content_id@),
    {
        self.children_of(content_id).len() > 0
    }

    /// Whether a node has no children (a leaf).
    pub fn is_leaf(&self, content_id: &str) -> (r: bool)
        ensures
            r == is_leaf_spec(self@, content_id@),
    {
        self.children_of(content_id).len() == 0
    }

    fn dfs_walk(&self, node: &str, fuel: usize, out: &mut Vec<String>)
        ensures
            views(final(out)@) == views(old(out)@) + walk(self@, node@, fuel as nat),
        decreases fuel, 0nat,
    {
        let ghost start = views(out@);
        let ghost prev = out@;
        out.push(owned(node));
        assert(views(out@) =~= views(prev).push(node@));
        if fuel == 0 {
            assert(views(out@) =~= start + walk(self@, node@, 0));
            return;
        }
        let kids_of = self.children_of(node);
        let ghost kv = views(kids_of@);
        let ghost mid = views(out@);
        let mut i: usize = 0;
        while i < kids_of.len()
            invariant
                0 < fuel,
                i <= kids_of@.len(),
                kv == views(kids_of@),
                kv == kids(self@, node@),
                views(out@) == mid + walk_list(self@, kv.take(i as int), (fuel - 1) as nat),
            decreases kids_of@.len() - i,
        {
            assert(kv.take(i + 1).drop_last() == kv.take(i as int));
            assert(kv.take(i + 1).last() == kids_of@[i as int]@);
            self.dfs_walk(kids_of[i].as_str(), fuel - 1, out);
            i += 1;
        }
        assert(kv.take(kids_of@.len() as int) == kv);
        assert(views(out@) =~= start + walk(self@, node@, fuel as nat));
    }

    /// Pre-order listing of the whole tree.
    pub fn dfs_order(&self) -> (r: Vec<String>)
        ensures
            views(r@) == dfs_spec(self@),
    {
        let mut out: Vec<String> = Vec::new();
        match &self.root {
            Some(root) => {
                self.dfs_walk(root.as_str(), self.nodes.len(), &mut out);
                assert(views(out@) =~= dfs_spec(self@));
            },
            None => {
                assert(views(out@) =~= dfs_spec(self@));
            },
        }
        out
    }

    /// The nodes after `content_id` in pre-order (its dependents).
    pub fn downstream_of(&self, content_id: &str) -> (r: Vec<String>)
        ensures
            views(r@) == match first_index(dfs_spec(self@), content_id@) {
                Some(i) => dfs_spec(self@).skip(i + 1),
                None => Seq::empty(),
            },
    {
        let full = self.dfs_order();
        let ghost fv = views(full@);
        proof { lemma_first_index_spec(fv, content_id@); }
        let mut found = false;
        let mut r: Vec<String> = Vec::new();
        let mut i: usize = 0;
        while i < full.len()
            invariant
                i <= full@.len(),
                fv == views(full@),
                found == (exists|k: int| 0 <= k < i && fv[k] == content_id@),
                match first_index(fv, content_id@) {
                    Some(j) => 0 <= j < fv.len() && fv[j] == content_id@ && forall|k: int| 0 <= k < j ==> fv[k] != content_id@,
                    None => forall|k: int| 0 <= k < fv.len() ==> fv[k] != content_id@,
                },
                views(r@) == match first_index(fv, content_id@) {
                    Some(j) => if j < i {
                        fv.subrange(j + 1, i as int)
                    } else {
                        Seq::empty()
                    },
                    None => Seq::empty(),
                },
            decreases full@.len() - i,
        {
            assert(fv[i as int] == full@[i as int]@);
            if found {
                let ghost prev = r@;
                r.push(full[i].clone());
                assert(views(r@) =~= views(prev).push(fv[i as int]));
            }
            if str_eq(full[i].as_str(), content_id) {
                found = true;
            }
            i += 1;
        }
        r
    }

    /// Pre-order path up to and including `content_id` (the whole order
    /// when it does not occur).
    pub fn replay_path(&self, content_id: &str) -> (r: Vec<String>)
        ensures
            views(r@) == match first_index(dfs_spec(self@), content_id@) {
                Some(i) => dfs_spec(self@).take(i + 1),
                None => dfs_spec(self@),
            },
    {
        let full = self.dfs_order();
        let ghost fv = views(full@);
        proof { lemma_first_index_spec(fv, content_id@); }
        let mut r: Vec<String> = Vec::new();
        let mut i: usize = 0;
        while i < full.len()
            invariant
                i <= full@.len(),
                fv == views(full@),
                fv == dfs_spec(self@),
                forall|k: int| 0 <= k < i ==> fv[k] != content_id@,
                views(r@) == fv.take(i as int),
            decreases full@.len() - i,
        {
            assert(fv[i as int] == full@[i as int]@);
            let ghost prev = r@;
            r.push(full[i].clone());
            assert(views(r@) =~= views(prev).push(fv[i as int]));
            assert(views(r@) =~= fv.take(i + 1));
            if str_eq(full[i].as_str(), content_id) {
                proof { lemma_first_index_at(fv, content_id@, i as int); }
                return r;
            }
            i += 1;
        }
        proof { lemma_first_index_at(fv, content_id@, i as int); }
        assert(fv.take(i as int) =~= fv);
        r
    }

    /// Pre-order path up to but not including `content_id`.
    pub fn replay_path_before(&self, content_id: &str) -> (r: Vec<String>)
        ensures
            views(r@) == match first_index(dfs_spec(self@), content_id@) {
                Some(i) => dfs_spec(self@).take(i),
                None => dfs_spec(self@),
            },
    {
        let full = self.dfs_order();
        let ghost fv = views(full@);
        let mut r: Vec<String> = Vec::new();
        let mut i: usize = 0;
        while i < full.len()
            invariant
                i <= full@.len(),
                fv == views(full@),
                fv == dfs_spec(self@),
                forall|k: int| 0 <= k < i ==> fv[k] != content_id@,
                views(r@) == fv.take(i as int),
            decreases full@.len() - i,
        {
            assert(fv[i as int] == full@[i as int]@);
            if str_eq(full[i].as_str(), content_id) {
                proof { lemma_first_index_at(fv, content_id@, i as int); }
                return r;
            }
            let ghost prev = r@;
            r.push(full[i].clone());
            assert(views(r@) =~= views(prev).push(fv[i as int]));
            assert(views(r@) =~= fv.take(i + 1));
            i += 1;
        }
        proof { lemma_first_index_at(fv, content_id@, i as int); }
        assert(fv.take(i as int) =~= fv);
        r
    }

    /// The subtrees of the siblings before `content_id`, in pre-order.
    pub fn preceding_subtrees(&self, content_id: &str) -> (r: Vec<String>)
        ensures
            views(r@) == match parent_of(self@, content_id@) {
                Some(p) => walk_list(
                    self@,
                    match first_index(kids(self@, p), content_id@) {
                        Some(i) => kids(self@, p).take(i),
                        None => kids(self@, p),
                    },
                    depth_bound(self@),
                ),
                None => Seq::empty(),
            },
    {
        let mut r: Vec<String> = Vec::new();
        let parent = match self.parent(content_id) {
            Some(p) => p,
            None => {
                assert(views(r@) =~= Seq::<Chars>::empty());
                return r;
            },
        };
        let sibs = self.children_of(parent);
        let ghost sv = views(sibs@);
        let fuel = self.nodes.len();
        let mut i: usize = 0;
        while i < sibs.len()
            invariant
                i <= sibs@.len(),
                sv == views(sibs@),
                parent_of(self@, content_id@) == Some(parent@),
                sv == kids(self@, parent@),
                fuel == depth_bound(self@),
                forall|k: int| 0 <= k < i ==> sv[k] != content_id@,
                views(r@) == walk_list(self@, sv.take(i as int), fuel as nat),
            decreases sibs@.len() - i,
        {
            assert(sv[i as int] == sibs@[i as int]@);
            if str_eq(sibs[i].as_str(), content_id) {
                proof { lemma_first_index_at(sv, content_id@, i as int); }
                return r;
            }
            assert(sv.take(i + 1).drop_last() == sv.take(i as int));
            assert(sv.take(i + 1).last() == sibs@[i as int]@);
            self.dfs_walk(sibs[i].as_str(), fuel, &mut r);
            i += 1;
        }
        proof { lemma_first_index_at(sv, content_id@, i as int); }
        assert(sv.take(i as int) =~= sv);
        r
    }

    fn committed(&self, id: &str) -> (r: bool)
        ensures
            r == is_committed(self@, id@),
    {
        match self.node_pos(id) {
            Some(i) => {
                assert(self@.nodes[i as int] == (self.nodes@[i as int].id@, self.nodes@[i as int].entry@));
                self.nodes[i].entry.status == ContentStatus::Committed
            },
            None => false,
        }
    }

    /// Whether every child of a node is committed.
    pub fn all_children_committed(&self, content_id: &str) -> (r: bool)
        ensures
            r == forall|k: int|
                0 <= k < kids(self@, content_id@).len() ==> is_committed(self@, #[trigger] kids(self@, content_id@)[k]),
    {
        let ks = self.children_of(content_id);
        let mut i: usize = 0;
        while i < ks.len()
            invariant
                i <= ks@.len(),
                views(ks@) == kids(self@, content_id@),
                forall|k: int| 0 <= k < i ==> is_committed(self@, #[trigger] kids(self@, content_id@)[k]),
            decreases ks@.len() - i,
        {
            assert(kids(self@, content_id@)[i as int] == ks@[i as int]@);
            if !self.committed(ks[i].as_str()) {
                return false;
            }
            i += 1;
        }
        true
    }

    /// All registered content ids, in increasing order.
    pub fn all_ids(&self) -> (r: Vec<String>)
        ensures
            views(r@) == keys(self@.nodes),
    {
        let mut r: Vec<String> = Vec::new();
        let mut i: usize = 0;
        while i < self.nodes.len()
            invariant
                i <= self.nodes@.len(),
                views(r@) == keys(self@.nodes).take(i as int),
            decreases self.nodes@.len() - i,
        {
            let ghost prev = r@;
            r.push(self.nodes[i].id.clone());
            assert(self@.nodes[i as int] == (self.nodes@[i as int].id@, self.nodes@[i as int].entry@));
            assert(keys(self@.nodes)[i as int] == self.nodes@[i as int].id@);
            assert(views(r@) =~= views(prev).push(self.nodes@[i as int].id@));
            assert(views(r@) =~= keys(self@.nodes).take(i + 1));
            i += 1;
        }
        assert(keys(self@.nodes).take(self.nodes@.len() as int) =~= keys(self@.nodes));
        r
    }

    /// Depth of a node (a node without parent has depth 0).
    pub fn depth(&self, content_id: &str) -> (r: usize)
        ensures
            r == depth_spec(self@, content_id@, hop_bound(self@)),
    {
        let mut d: usize = 0;
        let mut cur = owned(content_id);
        let fuel = self.parents.len();
        while d < fuel
            invariant
                d <= fuel == hop_bound(self@),
                depth_spec(self@, content_id@, fuel as nat) == d + depth_spec(self@, cur@, (fuel - d) as nat),
            decreases fuel - d,
        {
            match self.parent(cur.as_str()) {
                Some(p) => {
                    cur = owned(p);
                    d += 1;
                },
                None => {
                    return d;
                },
            }
        }
        d
    }

    /// The chain from the topmost ancestor down to the node itself.
    pub fn ancestors(&self, content_id: &str) -> (r: Vec<String>)
        ensures
            views(r@) == rev(seq![content_id@] + up_chain(self@, content_id@, hop_bound(self@))),
    {
        let mut chain: Vec<String> = Vec::new();
        chain.push(owned(content_id));
        let mut cur = owned(content_id);
        let fuel = self.parents.len();
        let mut d: usize = 0;
        let mut done = false;
        assert(views(chain@) =~= seq![content_id@]);
        while d < fuel && !done
            invariant
                d <= fuel == hop_bound(self@),
                seq![content_id@] + up_chain(self@, content_id@, fuel as nat) == views(chain@) + up_chain(
                    self@,
                    cur@,
                    (fuel - d) as nat,
                ),
                done ==> up_chain(self@, cur@, (fuel - d) as nat) == Seq::<Chars>::empty(),
            decreases fuel - d, if done { 0int } else { 1int },
        {
            match self.parent(cur.as_str()) {
                Some(p) => {
                    let ghost prev = views(chain@);
                    chain.push(owned(p));
                    assert(views(chain@) =~= prev.push(p@));
                    assert(prev + up_chain(self@, cur@, (fuel - d) as nat) =~= views(chain@) + up_chain(
                        self@,
                        p@,
                        (fuel - d - 1) as nat,
                    ));
                    cur = owned(p);
                    d += 1;
                },
                None => {
                    done = true;
                },
            }
        }
        assert(views(chain@) =~= seq![content_id@] + up_chain(self@, content_id@, fuel as nat));
        let ghost before = views(chain@);
        let mut r: Vec<String> = Vec::new();
        let mut k: usize = chain.len();
        while k > 0
            invariant
                k <= chain@.len(),
                before == views(chain@),
                views(r@) == rev(before).take(before.len() - k),
            decreases k,
        {
            let ghost prev = r@;
            r.push(chain[k - 1].clone());
            assert(views(r@) =~= views(prev).push(before[k - 1]));
            assert(views(r@) =~= rev(before).take(before.len() - k + 1));
            k -= 1;
        }
        assert(rev(before).take(before.len() as int) =~= rev(before));
        r
    }
}

impl ContentTree {
    /// Keeps the ids of `ids` for which `keep` holds.
    fn filter_ids(&self, ids: Vec<String>, by_depth: bool, d: usize) -> (r: Vec<String>)
        ensures
            views(r@) == views(ids@).filter(
                if by_depth {
                    at_depth(self@, d as nat)
                } else {
                    leaf_pred(self@)
                },
            ),
    {
        let ghost p = if by_depth {
            at_depth(self@, d as nat)
        } else {
            leaf_pred(self@)
        };
        let ghost iv = views(ids@);
        let mut r: Vec<String> = Vec::new();
        let mut i: usize = 0;
        while i < ids.len()
            invariant
                i <= ids@.len(),
                iv == views(ids@),
                p == if by_depth {
                    at_depth(self@, d as nat)
                } else {
                    leaf_pred(self@)
                },
                views(r@) == iv.take(i as int).filter(p),
            decreases ids@.len() - i,
        {
            assert(iv.take(i + 1) == iv.take(i as int).push(iv[i as int]));
            proof { iv.take(i as int).lemma_filter_push(iv[i as int], p); }
            assert(iv[i as int] == ids@[i as int]@);
            let keep = if by_depth {
                self.depth(ids[i].as_str()) == d
            } else {
                self.is_leaf(ids[i].as_str())
            };
            if keep {
                let ghost prev = r@;
                r.push(ids[i].clone());
                assert(views(r@) =~= views(prev).push(iv[i as int]));
            }
            i += 1;
        }
        assert(iv.take(ids@.len() as int) == iv);
        r
    }

    /// The nodes at a given depth, in pre-order.
    pub fn nodes_at_depth(&self, target_depth: usize) -> (r: Vec<String>)
        ensures
            views(r@) == dfs_spec(self@).filter(at_depth(self@, target_depth as nat)),
    {
        let full = self.dfs_order();
        self.filter_ids(full, true, target_depth)
    }

    /// All leaves, in pre-order.
    pub fn leaves_dfs(&self) -> (r: Vec<String>)
        ensures
            views(r@) == dfs_spec(self@).filter(leaf_pred(self@)),
    {
        let full = self.dfs_order();
        self.filter_ids(full, false, 0)
    }

    /// The leaves of the pre-order path up to and including `content_id`.
    pub fn leaf_replay_path(&self, content_id: &str) -> (r: Vec<String>)
        ensures
            views(r@) == (match first_index(dfs_spec(self@), content_id@) {
                Some(i) => dfs_spec(self@).take(i + 1),
                None => dfs_spec(self@),
            }).filter(leaf_pred(self@)),
    {
        let path = self.replay_path(content_id);
        self.filter_ids(path, false, 0)
    }

    /// The leaves of the pre-order path before `content_id`.
    pub fn leaf_replay_path_before(&self, content_id: &str) -> (r: Vec<String>)
        ensures
            views(r@) == (match first_index(dfs_spec(self@), content_id@) {
                Some(i) => dfs_spec(self@).take(i),
                None => dfs_spec(self@),
            }).filter(leaf_pred(self@)),
    {
        let path = self.replay_path_before(content_id);
        self.filter_ids(path, false, 0)
    }

    /// The leaves of a node's subtree, in pre-order.
    pub fn subtree_leaves(&self, content_id: &str) -> (r: Vec<String>)
        ensures
            views(r@) == walk(self@, content_id@, depth_bound(self@)).filter(leaf_pred(self@)),
    {
        let mut all: Vec<String> = Vec::new();
        self.dfs_walk(content_id, self.nodes.len(), &mut all);
        assert(views(all@) =~= walk(self@, content_id@, depth_bound(self@)));
        self.filter_ids(all, false, 0)
    }
}

// ── Lifecycle ────────────────────────────────────────────────────

/// The siblings before `id` (all of them when `id` is not among them).
pub open spec fn siblings_before(sibs: Seq<Chars>, id: Chars) -> Seq<Chars> {
    match first_index(sibs, id) {
        Some(i) => sibs.take(i),
        None => sibs,
    }
}

pub open spec fn all_committed(t: TreeV, s: Seq<Chars>) -> bool {
    forall|k: int| 0 <= k < s.len() ==> is_committed(t, #[trigger] s[k])
}

/// The status a node gets: a root is active; otherwise its parent must be
/// committed, or active with children, and every sibling before it must
/// be committed.
pub open spec fn status_for(t: TreeV, id: Chars, parent: Option<Chars>) -> ContentStatus {
    match parent {
        None => ContentStatus::Active,
        Some(p) => {
            let ready = match entry_of(t, p) {
                Some(e) => e.status == ContentStatus::Committed || (e.status == ContentStatus::Active
                    && kids(t, p).len() > 0),
                None => false,
            };
            if ready && all_committed(t, siblings_before(kids(t, p), id)) {
                ContentStatus::Active
            } else {
                ContentStatus::Locked
            }
        },
    }
}

impl ContentTree {
    fn status_of(&self, id: &str) -> (r: Option<ContentStatus>)
        ensures
            r == match entry_of(self@, id@) {
                Some(e) => Some(e.status),
                None => None::<ContentStatus>,
            },
    {
        match self.node_pos(id) {
            Some(i) => {
                assert(self@.nodes[i as int] == (self.nodes@[i as int].id@, self.nodes@[i as int].entry@));
                Some(self.nodes[i].entry.status)
            },
            None => None,
        }
    }

    fn compute_status(&self, id: &str, parent: Option<&str>) -> (r: ContentStatus)
        ensures
            r == status_for(
                self@,
                id@,
                match parent {
                    Some(p) => Some(p@),
                    None => None,
                },
            ),
    {
        let p = match parent {
            None => {
                return ContentStatus::Active;
            },
            Some(p) => p,
        };
        let ready = match self.status_of(p) {
            Some(ContentStatus::Committed) => true,
            Some(ContentStatus::Active) => self.is_branch(p),
            _ => false,
        };
        if !ready {
            return ContentStatus::Locked;
        }
        let sibs = self.children_of(p);
        let ghost sv = views(sibs@);
        let mut i: usize = 0;
        while i < sibs.len()
            invariant
                i <= sibs@.len(),
                sv == views(sibs@),
                sv == kids(self@, p@),
                parent == Some(p),
                match entry_of(self@, p@) {
                    Some(e) => e.status == ContentStatus::Committed || (e.status == ContentStatus::Active
                        && kids(self@, p@).len() > 0),
                    None => false,
                },
                forall|k: int| 0 <= k < i ==> sv[k] != id@,
                forall|k: int| 0 <= k < i ==> is_committed(self@, #[trigger] sv[k]),
            decreases sibs@.len() - i,
        {
            assert(sv[i as int] == sibs@[i as int]@);
            if str_eq(sibs[i].as_str(), id) {
                proof { lemma_first_index_at(sv, id@, i as int); }
                assert(forall|k: int| 0 <= k < sv.take(i as int).len() ==> is_committed(self@, #[trigger] sv.take(i as int)[k]));
                return ContentStatus::Active;
            }
            if !self.committed(sibs[i].as_str()) {
                proof {
                    lemma_first_index_spec(sv, id@);
                    assert(!is_committed(self@, sv[i as int]));
                    match first_index(sv, id@) {
                        Some(j) => {
                            assert(j > i);
                            assert(sv.take(j)[i as int] == sv[i as int]);
                            assert(!is_committed(self@, sv.take(j)[i as int]));
                        },
                        None => {
                            assert(!is_committed(self@, sv[i as int]));
                        },
                    }
                }
                return ContentStatus::Locked;
            }
            i += 1;
        }
        proof { lemma_first_index_at(sv, id@, i as int); }
        ContentStatus::Active
    }

    /// Move the cursor to a content node (its status does not change).
    pub fn activate(&mut self, content_id: &str) -> (r: Result<(), LedgerError>)
        ensures
            match entry_of(old(self)@, content_id@) {
                None => r matches Err(e) && e@ == LedgerErrorV::NotFound(
                    "Content '"@ + content_id@ + "' 未注册"@,
                ) && final(self)@ == old(self)@,
                Some(e) => if e.status == ContentStatus::Locked {
                    r matches Err(err) && err@ == LedgerErrorV::Other(
                        "Content '"@ + content_id@ + "' 仍 locked — 父节点或前序兄弟未 committed"@,
                    ) && final(self)@ == old(self)@
                } else {
                    r is Ok && final(self)@ == (TreeV { active: Some(content_id@), ..old(self)@ })
                },
            },
    {
        match self.status_of(content_id) {
            None => {
                let mut m = owned("Content '");
                push_str(&mut m, content_id);
                push_str(&mut m, "' 未注册");
                Err(LedgerError::NotFound(m))
            },
            Some(ContentStatus::Locked) => {
                let mut m = owned("Content '");
                push_str(&mut m, content_id);
                push_str(&mut m, "' 仍 locked — 父节点或前序兄弟未 committed");
                Err(LedgerError::Other(m))
            },
            Some(_) => {
                self.active = Some(owned(content_id));
                Ok(())
            },
        }
    }
}

// ── Registration ─────────────────────────────────────────────────

/// Where `id` goes in a list of ids: after the run of smaller ones at
/// its front.
pub open spec fn insert_pos(ks: Seq<Chars>, id: Chars) -> int
    decreases ks.len(),
{
    if ks.len() == 0 {
        0
    } else if lex_lt(ks[0], id) {
        1 + insert_pos(ks.drop_first(), id)
    } else {
        0
    }
}

pub(crate) proof fn lemma_insert_pos(ks: Seq<Chars>, id: Chars, k: int)
    requires
        0 <= k <= ks.len(),
        forall|j: int| 0 <= j < k ==> lex_lt(#[trigger] ks[j], id),
        k < ks.len() ==> !lex_lt(ks[k], id),
    ensures
        insert_pos(ks, id) == k,
    decreases ks.len(),
{
    if ks.len() > 0 && k > 0 {
        assert(lex_lt(ks[0], id));
        assert forall|j: int| 0 <= j < k - 1 implies lex_lt(#[trigger] ks.drop_first()[j], id) by {
            assert(ks.drop_first()[j] == ks[j + 1]);
        }
        lemma_insert_pos(ks.drop_first(), id, k - 1);
    }
}

pub open spec fn set_parent(ps: Seq<(Chars, Chars)>, c: Chars, p: Chars) -> Seq<(Chars, Chars)> {
    match first_index(keys(ps), c) {
        Some(i) => ps.update(i, (c, p)),
        None => ps.push((c, p)),
    }
}

/// `c` appended to `p`'s children unless already there.
pub open spec fn add_child(cs: Seq<(Chars, Seq<Chars>)>, p: Chars, c: Chars) -> Seq<(Chars, Seq<Chars>)> {
    match first_index(keys(cs), p) {
        Some(i) => if cs[i].1.contains(c) {
            cs
        } else {
            cs.update(i, (p, cs[i].1.push(c)))
        },
        None => cs.push((p, seq![c])),
    }
}

/// The tree with `id` linked under its parent (or made root).
pub open spec fn linked(t: TreeV, id: Chars, parent: Option<Chars>) -> TreeV {
    match parent {
        None => TreeV { root: Some(id), ..t },
        Some(p) => TreeV {
            parents: set_parent(t.parents, id, p),
            children: add_child(t.children, p, id),
            ..t
        },
    }
}

pub open spec fn fresh_entry(s: ContentStatus) -> ContentEntryV {
    ContentEntryV { status: s, committed_at: None, version: 1, stale: false }
}

/// Registering a node: link it, then give it a state (if it has none)
/// with the status its parent and earlier siblings allow.
pub open spec fn registered(t: TreeV, id: Chars, parent: Option<Chars>) -> TreeV {
    let t1 = linked(t, id, parent);
    if keys(t1.nodes).contains(id) {
        t1
    } else {
        TreeV {
            nodes: t1.nodes.insert(insert_pos(keys(t1.nodes), id), (id, fresh_entry(status_for(t1, id, parent)))),
            ..t1
        }
    }
}

pub open spec fn opt_view(o: Option<&str>) -> Option<Chars> {
    match o {
        Some(s) => Some(s@),
        None => None,
    }
}

impl ContentTree {
    /// An empty tree.
    pub fn new() -> (r: ContentTree)
        ensures
            r@ == (TreeV {
                root: None,
                active: None,
                nodes: Seq::empty(),
                children: Seq::empty(),
                parents: Seq::empty(),
            }),
    {
        let r = ContentTree { root: None, active: None, nodes: Vec::new(), children: Vec::new(), parents: Vec::new() };
        assert(r@.nodes =~= Seq::<(Chars, ContentEntryV)>::empty());
        assert(r@.children =~= Seq::<(Chars, Seq<Chars>)>::empty());
        assert(r@.parents =~= Seq::<(Chars, Chars)>::empty());
        r
    }

    fn link(&mut self, id: &str, parent: Option<&str>)
        ensures
            final(self)@ == linked(old(self)@, id@, opt_view(parent)),
    {
        match parent {
            None => {
                self.root = Some(owned(id));
            },
            Some(p) => {
                let ghost ps = self@.parents;
                match self.parent_pos(id) {
                    Some(i) => {
                        self.parents.set(i, ParentLink { child: owned(id), parent: owned(p) });
                        assert(self@.parents =~= ps.update(i as int, (id@, p@)));
                    },
                    None => {
                        self.parents.push(ParentLink { child: owned(id), parent: owned(p) });
                        assert(self@.parents =~= ps.push((id@, p@)));
                    },
                }
                let ghost cs = self@.children;
                match self.child_pos(p) {
                    Some(i) => {
                        proof { lemma_first_index_spec(keys(cs), p@); }
                        if !crate::text::contains_str(&self.children[i].children, id) {
                            let ghost old_list = views(self.children@[i as int].children@);
                            assert(cs[i as int].1 == old_list);
                            let mut list = crate::text::clone_strs(&self.children[i].children);
                            list.push(owned(id));
                            assert(views(list@) =~= old_list.push(id@));
                            self.children.set(i, ChildList { parent: owned(p), children: list });
                            assert(cs[i as int].0 == p@);
                            assert(self@.children =~= cs.update(i as int, (p@, old_list.push(id@))));
                        } else {
                            assert(cs[i as int].1 == views(self.children@[i as int].children@));
                        }
                    },
                    None => {
                        let mut list: Vec<String> = Vec::new();
                        list.push(owned(id));
                        assert(views(list@) =~= seq![id@]);
                        self.children.push(ChildList { parent: owned(p), children: list });
                        assert(self@.children =~= cs.push((p@, seq![id@])));
                    },
                }
            },
        }
    }

    /// Register a content node under its parent (or as the root). A node
    /// seen for the first time gets the status its parent and preceding
    /// siblings allow.
    pub fn register(&mut self, id: &str, parent: Option<&str>)
        ensures
            final(self)@ == registered(old(self)@, id@, opt_view(parent)),
    {
        self.link(id, parent);
        let status = self.compute_status(id, parent);
        if self.node_pos(id).is_some() {
            proof { lemma_first_index_spec(keys(self@.nodes), id@); }
            return;
        }
        proof {
            lemma_first_index_spec(keys(self@.nodes), id@);
        }
        let ghost ks = keys(self@.nodes);
        let ghost ns = self@.nodes;
        let mut k: usize = 0;
        while k < self.nodes.len() && str_lt(self.nodes[k].id.as_str(), id)
            invariant
                k <= self.nodes@.len(),
                ks == keys(self@.nodes),
                ns == self@.nodes,
                ks.len() == self.nodes@.len(),
                forall|j: int| 0 <= j < k ==> lex_lt(#[trigger] ks[j], id@),
            decreases self.nodes@.len() - k,
        {
            assert(ks[k as int] == self.nodes@[k as int].id@);
            k += 1;
        }
        if k < self.nodes.len() {
            assert(ks[k as int] == self.nodes@[k as int].id@);
        }
        proof { lemma_insert_pos(ks, id@, k as int); }
        let e = ContentEntry { status, committed_at: None, version: 1, stale: false };
        self.nodes.insert(k, NodeState { id: owned(id), entry: e });
        assert(self@.nodes =~= ns.insert(k as int, (id@, fresh_entry(status))));
        assert(ks.contains(id@) == false);
    }
}

/// Registration keeps the node states in increasing order of id.
pub proof fn lemma_register_keeps_order(t: TreeV, id: Chars, parent: Option<Chars>)
    requires
        strictly_sorted(keys(t.nodes)),
    ensures
        strictly_sorted(keys(registered(t, id, parent).nodes)),
{
    let t1 = linked(t, id, parent);
    let ks = keys(t1.nodes);
    assert(t1.nodes == t.nodes);
    if !ks.contains(id) {
        let p = insert_pos(ks, id);
        let n = t1.nodes.insert(p, (id, fresh_entry(status_for(t1, id, parent))));
        lemma_insert_pos_props(ks, id);
        assert(keys(n) =~= ks.insert(p, id));
        lemma_sorted_insert(ks, id);
    }
}

pub(crate) proof fn lemma_sorted_insert(ks: Seq<Chars>, id: Chars)
    requires
        strictly_sorted(ks),
        !ks.contains(id),
    ensures
        strictly_sorted(ks.insert(insert_pos(ks, id), id)),
{
    lemma_insert_pos_props(ks, id);
    let p = insert_pos(ks, id);
    let kn = ks.insert(p, id);
    assert forall|i: int, j: int| 0 <= i < j < kn.len() implies lex_lt(#[trigger] kn[i], #[trigger] kn[j]) by {
        if j < p {
            assert(kn[i] == ks[i] && kn[j] == ks[j]);
        } else if j == p {
            assert(kn[i] == ks[i]);
        } else if i < p {
            assert(kn[i] == ks[i]);
            assert(kn[j] == ks[j - 1]);
            crate::text::lemma_lex_transitive(ks[i], id, ks[j - 1]);
        } else if i == p {
            assert(kn[j] == ks[j - 1]);
        } else {
            assert(kn[i] == ks[i - 1]);
            assert(kn[j] == ks[j - 1]);
        }
    }
}

pub(crate) proof fn lemma_insert_pos_props(ks: Seq<Chars>, id: Chars)
    requires
        strictly_sorted(ks),
        !ks.contains(id),
    ensures
        0 <= insert_pos(ks, id) <= ks.len(),
        forall|j: int| 0 <= j < insert_pos(ks, id) ==> lex_lt(#[trigger] ks[j], id),
        forall|j: int| insert_pos(ks, id) <= j < ks.len() ==> lex_lt(id, #[trigger] ks[j]),
    decreases ks.len(),
{
    if ks.len() > 0 {
        let r = ks.drop_first();
        assert forall|a: int, b: int| 0 <= a < b < r.len() implies lex_lt(#[trigger] r[a], #[trigger] r[b]) by {
            assert(r[a] == ks[a + 1] && r[b] == ks[b + 1]);
        }
        assert(!r.contains(id)) by {
            if r.contains(id) {
                let j = choose|j: int| 0 <= j < r.len() && r[j] == id;
                assert(ks[j + 1] == id);
            }
        }
        lemma_insert_pos_props(r, id);
        assert forall|j: int| 0 < j < ks.len() implies ks[j] == r[j - 1] by {}
        if !lex_lt(ks[0], id) {
            assert(ks[0] != id);
            crate::text::lemma_lex_total(ks[0], id);
            assert forall|j: int| 0 <= j < ks.len() implies lex_lt(id, #[trigger] ks[j]) by {
                if j > 0 {
                    crate::text::lemma_lex_transitive(id, ks[0], ks[j]);
                }
            }
        }
    }
}

// ── Status changes ───────────────────────────────────────────────

pub open spec fn with_status(t: TreeV, id: Chars, s: ContentStatus) -> TreeV {
    match first_index(keys(t.nodes), id) {
        Some(i) => TreeV { nodes: t.nodes.update(i, (id, ContentEntryV { status: s, ..t.nodes[i].1 })), ..t },
        None => t,
    }
}

pub open spec fn is_locked(t: TreeV, id: Chars) -> bool {
    entry_of(t, id) matches Some(e) && e.status == ContentStatus::Locked
}

/// Unlocks `id`, when it is still locked, if its dependencies are now met.
pub open spec fn unlock_one(t: TreeV, id: Chars) -> TreeV {
    let s = status_for(t, id, parent_of(t, id));
    if is_locked(t, id) && s != ContentStatus::Locked {
        with_status(t, id, s)
    } else {
        t
    }
}

pub open spec fn unlock_all(t: TreeV, ids: Seq<Chars>) -> TreeV
    decreases ids.len(),
{
    if ids.len() == 0 {
        t
    } else {
        unlock_one(unlock_all(t, ids.drop_last()), ids.last())
    }
}

pub open spec fn locked_pred() -> spec_fn((Chars, ContentEntryV)) -> bool {
    |n: (Chars, ContentEntryV)| n.1.status == ContentStatus::Locked
}

/// The ids of the locked nodes, in order.
pub open spec fn locked_ids(t: TreeV) -> Seq<Chars> {
    keys(t.nodes.filter(locked_pred()))
}

/// One pass: every locked node, in order, re-checked and unlocked when
/// ready.
pub open spec fn resolved(t: TreeV) -> TreeV {
    unlock_all(t, locked_ids(t))
}

/// How many nodes are locked.
pub open spec fn locked_count(t: TreeV) -> nat {
    t.nodes.filter(locked_pred()).len()
}

/// Passes repeated until one unlocks nothing more: every locked node whose
/// dependencies are met, also through nodes unlocked on the way, is
/// unlocked.
pub open spec fn settled(t: TreeV) -> TreeV
    decreases locked_count(t),
{
    let t1 = resolved(t);
    if locked_count(t1) < locked_count(t) {
        settled(t1)
    } else {
        t1
    }
}

/// Turning one locked record into an unlocked one lowers the count by one.
proof fn lemma_filter_unlock(s: Seq<(Chars, ContentEntryV)>, i: int, v: (Chars, ContentEntryV))
    requires
        0 <= i < s.len(),
        s[i].1.status == ContentStatus::Locked,
        v.1.status != ContentStatus::Locked,
    ensures
        s.update(i, v).filter(locked_pred()).len() + 1 == s.filter(locked_pred()).len(),
    decreases s.len(),
{
    let p = locked_pred();
    let s0 = s.drop_last();
    let x = s.last();
    assert(s == s0.push(x));
    s0.lemma_filter_push(x, p);
    if i == s.len() - 1 {
        assert(s.update(i, v) == s0.push(v));
        s0.lemma_filter_push(v, p);
    } else {
        lemma_filter_unlock(s0, i, v);
        assert(s.update(i, v) == s0.update(i, v).push(x));
        s0.update(i, v).lemma_filter_push(x, p);
    }
}

/// Re-checking one node either changes nothing or unlocks one locked
/// node; ids and every other record are kept.
proof fn lemma_unlock_one_step(t: TreeV, id: Chars, n: Chars)
    ensures
        unlock_one(t, id) == t || locked_count(unlock_one(t, id)) + 1 == locked_count(t),
        keys(unlock_one(t, id).nodes) == keys(t.nodes),
        unlock_one(t, id).parents == t.parents,
        unlock_one(t, id).children == t.children,
        !is_locked(t, n) ==> entry_of(unlock_one(t, id), n) == entry_of(t, n),
        is_locked(t, id) && status_for(t, id, parent_of(t, id)) != ContentStatus::Locked ==> unlock_one(t, id) != t,
{
    lemma_first_index_spec(keys(t.nodes), id);
    lemma_first_index_spec(keys(t.nodes), n);
    let s = status_for(t, id, parent_of(t, id));
    if is_locked(t, id) && s != ContentStatus::Locked {
        let i = first_index(keys(t.nodes), id).unwrap();
        let v = (id, ContentEntryV { status: s, ..t.nodes[i].1 });
        assert(keys(t.nodes)[i] == t.nodes[i].0);
        lemma_filter_unlock(t.nodes, i, v);
        let t2 = unlock_one(t, id);
        assert(keys(t2.nodes) =~= keys(t.nodes));
        assert(t2.nodes[i] != t.nodes[i]);
        lemma_first_index_spec(keys(t2.nodes), n);
    }
}

/// A pass never adds locked nodes; a pass that unlocks none changes
/// nothing, and then each locked node, re-checked, stays locked.
proof fn lemma_pass_stable(t: TreeV, ids: Seq<Chars>)
    ensures
        locked_count(unlock_all(t, ids)) <= locked_count(t),
        locked_count(unlock_all(t, ids)) == locked_count(t) ==> unlock_all(t, ids) == t && forall|k: int|
            0 <= k < ids.len() ==> unlock_one(t, #[trigger] ids[k]) == t,
    decreases ids.len(),
{
    if ids.len() > 0 {
        let t1 = unlock_all(t, ids.drop_last());
        lemma_pass_stable(t, ids.drop_last());
        lemma_unlock_one_step(t1, ids.last(), ids.last());
        if locked_count(unlock_all(t, ids)) == locked_count(t) {
            assert forall|k: int| 0 <= k < ids.len() implies unlock_one(t, #[trigger] ids[k]) == t by {
                if k < ids.len() - 1 {
                    assert(ids.drop_last()[k] == ids[k]);
                }
            }
        }
    }
}

/// Nodes that are not locked keep their record through a pass, and the
/// ids and the tree's shape are kept.
proof fn lemma_pass_frame(t: TreeV, ids: Seq<Chars>, n: Chars)
    ensures
        keys(unlock_all(t, ids).nodes) == keys(t.nodes),
        unlock_all(t, ids).parents == t.parents,
        unlock_all(t, ids).children == t.children,
        !is_locked(t, n) ==> entry_of(unlock_all(t, ids), n) == entry_of(t, n),
    decreases ids.len(),
{
    if ids.len() > 0 {
        let t1 = unlock_all(t, ids.drop_last());
        lemma_pass_frame(t, ids.drop_last(), n);
        lemma_unlock_one_step(t1, ids.last(), n);
    }
}

/// A locked node is among the locked ids.
proof fn lemma_locked_listed(t: TreeV, n: Chars)
    requires
        is_locked(t, n),
    ensures
        locked_ids(t).contains(n),
{
    lemma_first_index_spec(keys(t.nodes), n);
    let i = first_index(keys(t.nodes), n).unwrap();
    assert(keys(t.nodes)[i] == t.nodes[i].0);
    let x = t.nodes[i];
    assert(locked_pred()(x));
    let f = t.nodes.filter(locked_pred());
    assert(t.nodes.contains(x));
    broadcast use vstd::seq_lib::group_filter_ensures;
    assert(f.contains(x));
    let j = choose|j: int| 0 <= j < f.len() && f[j] == x;
    assert(keys(f)[j] == n);
}

/// Resolving locks reaches a fixpoint: every node still locked has a
/// dependency that is not met, and a node that was not locked keeps its
/// record.
pub proof fn lemma_settled_fixpoint(t: TreeV, n: Chars)
    ensures
        is_locked(settled(t), n) ==> status_for(settled(t), n, parent_of(settled(t), n)) == ContentStatus::Locked,
        !is_locked(t, n) ==> entry_of(settled(t), n) == entry_of(t, n),
        keys(settled(t).nodes) == keys(t.nodes),
        settled(t).parents == t.parents,
        settled(t).children == t.children,
    decreases locked_count(t),
{
    let t1 = resolved(t);
    lemma_pass_stable(t, locked_ids(t));
    lemma_pass_frame(t, locked_ids(t), n);
    if locked_count(t1) < locked_count(t) {
        lemma_settled_fixpoint(t1, n);
        if !is_locked(t, n) {
            assert(!is_locked(t1, n));
        }
    } else {
        assert(t1 == t);
        if is_locked(t, n) {
            lemma_locked_listed(t, n);
            let k = choose|k: int| 0 <= k < locked_ids(t).len() && locked_ids(t)[k] == n;
            assert(unlock_one(t, locked_ids(t)[k]) == t);
            lemma_unlock_one_step(t, n, n);
        }
    }
}

impl ContentTree {
    fn set_status(&mut self, id: &str, s: ContentStatus)
        ensures
            final(self)@ == with_status(old(self)@, id@, s),
    {
        match self.node_pos(id) {
            Some(i) => {
                let ghost ns = self@.nodes;
                assert(ns[i as int] == (self.nodes@[i as int].id@, self.nodes@[i as int].entry@));
                let old_entry = &self.nodes[i].entry;
                let e = ContentEntry {
                    status: s,
                    committed_at: match &old_entry.committed_at {
                        Some(c) => Some(c.clone()),
                        None => None,
                    },
                    version: old_entry.version,
                    stale: old_entry.stale,
                };
                let n = NodeState { id: self.nodes[i].id.clone(), entry: e };
                self.nodes.set(i, n);
                proof { lemma_first_index_spec(keys(ns), id@); }
                assert(self@.nodes =~= ns.update(i as int, (id@, ContentEntryV { status: s, ..ns[i as int].1 })));
            },
            None => {},
        }
    }

    fn locked(&self, id: &str) -> (r: bool)
        ensures
            r == is_locked(self@, id@),
    {
        match self.node_pos(id) {
            Some(i) => {
                assert(self@.nodes[i as int] == (self.nodes@[i as int].id@, self.nodes@[i as int].entry@));
                self.nodes[i].entry.status == ContentStatus::Locked
            },
            None => false,
        }
    }

    fn count_locked(&self) -> (r: usize)
        ensures
            r == locked_count(self@),
    {
        let ghost nv = self@.nodes;
        let mut n: usize = 0;
        let mut i: usize = 0;
        while i < self.nodes.len()
            invariant
                i <= self.nodes@.len(),
                nv == self@.nodes,
                n == nv.take(i as int).filter(locked_pred()).len(),
                n <= i,
            decreases self.nodes@.len() - i,
        {
            assert(nv.take(i + 1) == nv.take(i as int).push(nv[i as int]));
            assert(nv[i as int] == (self.nodes@[i as int].id@, self.nodes@[i as int].entry@));
            proof { nv.take(i as int).lemma_filter_push(nv[i as int], locked_pred()); }
            if self.nodes[i].entry.status == ContentStatus::Locked {
                n += 1;
            }
            i += 1;
        }
        assert(nv.take(nv.len() as int) == nv);
        n
    }

    /// Re-check every locked node and unlock those whose dependencies are
    /// met, pass after pass, until a pass unlocks nothing more.
    pub fn resolve_locks(&mut self)
        ensures
            final(self)@ == settled(old(self)@),
    {
        let ghost t0 = self@;
        loop
            invariant_except_break
                settled(self@) == settled(t0),
            ensures
                self@ == settled(t0),
            decreases locked_count(self@),
        {
            let before = self.count_locked();
            self.resolve_pass();
            let after = self.count_locked();
            if after >= before {
                break;
            }
        }
    }

    /// One pass over the locked nodes (see `resolved`).
    fn resolve_pass(&mut self)
        ensures
            final(self)@ == resolved(old(self)@),
    {
        let ghost t0 = self@;
        let ghost nv = self@.nodes;
        let mut locked: Vec<String> = Vec::new();
        let mut i: usize = 0;
        while i < self.nodes.len()
            invariant
                i <= self.nodes@.len(),
                nv == self@.nodes,
                views(locked@) == keys(nv.take(i as int).filter(locked_pred())),
            decreases self.nodes@.len() - i,
        {
            assert(nv.take(i + 1) == nv.take(i as int).push(nv[i as int]));
            assert(nv[i as int] == (self.nodes@[i as int].id@, self.nodes@[i as int].entry@));
            proof { nv.take(i as int).lemma_filter_push(nv[i as int], locked_pred()); }
            if self.nodes[i].entry.status == ContentStatus::Locked {
                let ghost prev = locked@;
                locked.push(self.nodes[i].id.clone());
                assert(views(locked@) =~= views(prev).push(nv[i as int].0));
                assert(keys(nv.take(i + 1).filter(locked_pred())) =~= keys(nv.take(i as int).filter(locked_pred())).push(
                    nv[i as int].0,
                ));
            }
            i += 1;
        }
        assert(nv.take(nv.len() as int) == nv);
        let ghost lv = views(locked@);
        let mut j: usize = 0;
        while j < locked.len()
            invariant
                j <= locked@.len(),
                lv == views(locked@),
                lv == locked_ids(t0),
                self@ == unlock_all(t0, lv.take(j as int)),
            decreases locked@.len() - j,
        {
            assert(lv.take(j + 1).drop_last() == lv.take(j as int));
            assert(lv.take(j + 1).last() == locked@[j as int]@);
            let id = locked[j].as_str();
            let s = match self.parent(id) {
                Some(p) => {
                    let p2 = owned(p);
                    self.compute_status(id, Some(p2.as_str()))
                },
                None => self.compute_status(id, None),
            };
            if s != ContentStatus::Locked && self.locked(id) {
                self.set_status(id, s);
            }
            j += 1;
        }
        assert(lv.take(locked@.len() as int) == lv);
    }
}

// ── Editing and committing ───────────────────────────────────────

/// Every listed node that has a state marked stale.
pub open spec fn mark_stale(t: TreeV, ids: Seq<Chars>) -> TreeV
    decreases ids.len(),
{
    if ids.len() == 0 {
        t
    } else {
        let t1 = mark_stale(t, ids.drop_last());
        match first_index(keys(t1.nodes), ids.last()) {
            Some(i) => TreeV {
                nodes: t1.nodes.update(i, (ids.last(), ContentEntryV { stale: true, ..t1.nodes[i].1 })),
                ..t1
            },
            None => t1,
        }
    }
}

pub open spec fn downstream_spec(t: TreeV, id: Chars) -> Seq<Chars> {
    match first_index(dfs_spec(t), id) {
        Some(i) => dfs_spec(t).skip(i + 1),
        None => Seq::empty(),
    }
}

/// A committed node made active again, one version later, under the cursor.
pub open spec fn reopened(t: TreeV, id: Chars) -> TreeV {
    match first_index(keys(t.nodes), id) {
        Some(i) => TreeV {
            nodes: t.nodes.update(
                i,
                (id, ContentEntryV { status: ContentStatus::Active, version: (t.nodes[i].1.version + 1) as u32, ..t.nodes[i].1 }),
            ),
            active: Some(id),
            ..t
        },
        None => t,
    }
}

/// A node committed at time `c`; the cursor leaves it.
pub open spec fn committed_at(t: TreeV, id: Chars, c: Chars) -> TreeV {
    match first_index(keys(t.nodes), id) {
        Some(i) => TreeV {
            nodes: t.nodes.update(
                i,
                (id, ContentEntryV { status: ContentStatus::Committed, committed_at: Some(c), ..t.nodes[i].1 }),
            ),
            active: if t.active == Some(id) {
                None
            } else {
                t.active
            },
            ..t
        },
        None => t,
    }
}

pub open spec fn not_registered(id: Chars) -> LedgerErrorV {
    LedgerErrorV::NotFound("Content '"@ + id + "' 未注册"@)
}

fn not_registered_err(id: &str) -> (r: LedgerError)
    ensures
        r@ == not_registered(id@),
{
    let mut m = owned("Content '");
    push_str(&mut m, id);
    push_str(&mut m, "' 未注册");
    LedgerError::NotFound(m)
}

impl ContentTree {
    fn mark_stale_all(&mut self, ids: &Vec<String>)
        ensures
            final(self)@ == mark_stale(old(self)@, views(ids@)),
    {
        let ghost t0 = self@;
        let ghost iv = views(ids@);
        let mut j: usize = 0;
        while j < ids.len()
            invariant
                j <= ids@.len(),
                iv == views(ids@),
                self@ == mark_stale(t0, iv.take(j as int)),
            decreases ids@.len() - j,
        {
            assert(iv.take(j + 1).drop_last() == iv.take(j as int));
            assert(iv.take(j + 1).last() == ids@[j as int]@);
            match self.node_pos(ids[j].as_str()) {
                Some(i) => {
                    let ghost ns = self@.nodes;
                    assert(ns[i as int] == (self.nodes@[i as int].id@, self.nodes@[i as int].entry@));
                    proof { lemma_first_index_spec(keys(ns), ids@[j as int]@); }
                    let old_entry = &self.nodes[i].entry;
                    let e = ContentEntry {
                        status: old_entry.status,
                        committed_at: match &old_entry.committed_at {
                            Some(c) => Some(c.clone()),
                            None => None,
                        },
                        version: old_entry.version,
                        stale: true,
                    };
                    let n = NodeState { id: self.nodes[i].id.clone(), entry: e };
                    self.nodes.set(i, n);
                    assert(self@.nodes =~= ns.update(i as int, (iv[j as int], ContentEntryV { stale: true, ..ns[i as int].1 })));
                },
                None => {},
            }
            j += 1;
        }
        assert(iv.take(ids@.len() as int) == iv);
    }

    /// Re-open a committed node for editing: it becomes active one version
    /// later, and every node after it in pre-order is marked stale; those
    /// ids are returned. An active node just gets the cursor.
    pub fn edit(&mut self, content_id: &str) -> (r: Result<Vec<String>, LedgerError>)
        requires
            entry_of(old(self)@, content_id@) matches Some(e) ==> (e.status == ContentStatus::Committed
                ==> e.version < u32::MAX),
        ensures
            match entry_of(old(self)@, content_id@) {
                None => r matches Err(e) && e@ == not_registered(content_id@) && final(self)@ == old(self)@,
                Some(e) => match e.status {
                    ContentStatus::Locked => r matches Err(err) && err@ == LedgerErrorV::Other(
                        "Content '"@ + content_id@ + "' 仍 locked"@,
                    ) && final(self)@ == old(self)@,
                    ContentStatus::Active => r matches Ok(v) && v@.len() == 0 && final(self)@ == (TreeV {
                        active: Some(content_id@),
                        ..old(self)@
                    }),
                    ContentStatus::Committed => r matches Ok(v) && views(v@) == downstream_spec(
                        old(self)@,
                        content_id@,
                    ) && final(self)@ == mark_stale(reopened(old(self)@, content_id@), views(v@)),
                },
            },
    {
        let i = match self.node_pos(content_id) {
            None => {
                return Err(not_registered_err(content_id));
            },
            Some(i) => i,
        };
        let ghost ns = self@.nodes;
        assert(ns[i as int] == (self.nodes@[i as int].id@, self.nodes@[i as int].entry@));
        proof { lemma_first_index_spec(keys(ns), content_id@); }
        match self.nodes[i].entry.status {
            ContentStatus::Locked => {
                let mut m = owned("Content '");
                push_str(&mut m, content_id);
                push_str(&mut m, "' 仍 locked");
                return Err(LedgerError::Other(m));
            },
            ContentStatus::Active => {
                self.active = Some(owned(content_id));
                return Ok(Vec::new());
            },
            ContentStatus::Committed => {},
        }
        let downstream = self.downstream_of(content_id);
        let old_entry = &self.nodes[i].entry;
        let e = ContentEntry {
            status: ContentStatus::Active,
            committed_at: match &old_entry.committed_at {
                Some(c) => Some(c.clone()),
                None => None,
            },
            version: old_entry.version + 1,
            stale: old_entry.stale,
        };
        let n = NodeState { id: self.nodes[i].id.clone(), entry: e };
        self.nodes.set(i, n);
        self.active = Some(owned(content_id));
        assert(self@ == reopened(old(self)@, content_id@)) by {
            assert(self@.nodes =~= reopened(old(self)@, content_id@).nodes);
        }
        self.mark_stale_all(&downstream);
        Ok(downstream)
    }

    /// Commit an active node at the given time; locked nodes whose
    /// dependencies are now met are unlocked.
    pub fn commit_at(&mut self, content_id: &str, stamp: String) -> (r: Result<(), LedgerError>)
        ensures
            match entry_of(old(self)@, content_id@) {
                None => r matches Err(e) && e@ == not_registered(content_id@) && final(self)@ == old(self)@,
                Some(e) => if e.status != ContentStatus::Active {
                    r matches Err(err) && err@ == LedgerErrorV::Other(
                        "Content '"@ + content_id@ + "' 不是 active 状态，不能 commit"@,
                    ) && final(self)@ == old(self)@
                } else {
                    r is Ok && final(self)@ == settled(committed_at(old(self)@, content_id@, stamp@))
                },
            },
    {
        let i = match self.node_pos(content_id) {
            None => {
                return Err(not_registered_err(content_id));
            },
            Some(i) => i,
        };
        let ghost ns = self@.nodes;
        assert(ns[i as int] == (self.nodes@[i as int].id@, self.nodes@[i as int].entry@));
        proof { lemma_first_index_spec(keys(ns), content_id@); }
        if self.nodes[i].entry.status != ContentStatus::Active {
            let mut m = owned("Content '");
            push_str(&mut m, content_id);
            push_str(&mut m, "' 不是 active 状态，不能 commit");
            return Err(LedgerError::Other(m));
        }
        let ghost sv = stamp@;
        let old_entry = &self.nodes[i].entry;
        let e = ContentEntry {
            status: ContentStatus::Committed,
            committed_at: Some(stamp),
            version: old_entry.version,
            stale: old_entry.stale,
        };
        let n = NodeState { id: self.nodes[i].id.clone(), entry: e };
        self.nodes.set(i, n);
        let clear = match &self.active {
            Some(a) => str_eq(a.as_str(), content_id),
            None => false,
        };
        if clear {
            self.active = None;
        }
        assert(self@ == committed_at(old(self)@, content_id@, sv)) by {
            assert(self@.nodes =~= committed_at(old(self)@, content_id@, sv).nodes);
        }
        self.resolve_locks();
        Ok(())
    }

    /// Commit an active node now (see `commit_at`).
    pub fn commit(&mut self, content_id: &str) -> (r: Result<(), LedgerError>)
        ensures
            match entry_of(old(self)@, content_id@) {
                None => r matches Err(e) && e@ == not_registered(content_id@) && final(self)@ == old(self)@,
                Some(e) => if e.status != ContentStatus::Active {
                    r matches Err(err) && err@ == LedgerErrorV::Other(
                        "Content '"@ + content_id@ + "' 不是 active 状态，不能 commit"@,
                    ) && final(self)@ == old(self)@
                } else {
                    r is Ok && exists|secs: nat|
                        final(self)@ == settled(committed_at(old(self)@, content_id@, stamp_of(secs)))
                },
            },
    {
        let stamp = now();
        let ghost sv = stamp@;
        let r = self.commit_at(content_id, stamp);
        proof {
            if r is Ok {
                let secs = choose|secs: nat| sv == stamp_of(secs);
                assert(final(self)@ == settled(committed_at(old(self)@, content_id@, stamp_of(secs))));
            }
        }
        r
    }
}

// ── Ordering children ────────────────────────────────────────────

/// The order of a node (unlisted nodes go last).
pub open spec fn order_key(orders: Seq<(Chars, u32)>, id: Chars) -> u32 {
    match get(orders, id) {
        Some(o) => o,
        None => u32::MAX,
    }
}

/// `x` placed before the first element of larger order.
pub open spec fn ins_by(orders: Seq<(Chars, u32)>, t: Seq<Chars>, x: Chars) -> Seq<Chars>
    decreases t.len(),
{
    if t.len() == 0 {
        seq![x]
    } else if order_key(orders, t[0]) <= order_key(orders, x) {
        seq![t[0]] + ins_by(orders, t.drop_first(), x)
    } else {
        seq![x] + t
    }
}

/// Stable sort by order.
pub open spec fn sort_by_order(orders: Seq<(Chars, u32)>, s: Seq<Chars>) -> Seq<Chars>
    decreases s.len(),
{
    if s.len() == 0 {
        Seq::empty()
    } else {
        ins_by(orders, sort_by_order(orders, s.drop_last()), s.last())
    }
}

proof fn lemma_ins_by(orders: Seq<(Chars, u32)>, t: Seq<Chars>, x: Chars, k: int)
    requires
        0 <= k <= t.len(),
        forall|j: int| 0 <= j < k ==> order_key(orders, #[trigger] t[j]) <= order_key(orders, x),
        k < t.len() ==> order_key(orders, t[k]) > order_key(orders, x),
    ensures
        ins_by(orders, t, x) == t.insert(k, x),
    decreases t.len(),
{
    if t.len() == 0 {
        assert(t.insert(k, x) =~= seq![x]);
    } else if k == 0 {
        assert(t.insert(0, x) =~= seq![x] + t);
    } else {
        assert(order_key(orders, t[0]) <= order_key(orders, x));
        assert forall|j: int| 0 <= j < k - 1 implies order_key(orders, #[trigger] t.drop_first()[j]) <= order_key(orders, x) by {
            assert(t.drop_first()[j] == t[j + 1]);
        }
        lemma_ins_by(orders, t.drop_first(), x, k - 1);
        assert(t.insert(k, x) =~= seq![t[0]] + t.drop_first().insert(k - 1, x));
    }
}

pub open spec fn order_views(o: Seq<(String, u32)>) -> Seq<(Chars, u32)> {
    o.map_values(|p: (String, u32)| (p.0@, p.1))
}

fn order_of(orders: &Vec<(String, u32)>, id: &str) -> (r: u32)
    ensures
        r == order_key(order_views(orders@), id@),
{
    let ghost ov = order_views(orders@);
    let mut i: usize = 0;
    while i < orders.len()
        invariant
            i <= orders@.len(),
            ov == order_views(orders@),
            forall|k: int| 0 <= k < i ==> keys(ov)[k] != id@,
        decreases orders@.len() - i,
    {
        assert(keys(ov)[i as int] == orders@[i as int].0@);
        if str_eq(orders[i].0.as_str(), id) {
            proof { lemma_first_index_at(keys(ov), id@, i as int); }
            return orders[i].1;
        }
        i += 1;
    }
    proof { lemma_first_index_at(keys(ov), id@, i as int); }
    u32::MAX
}

fn sorted_by_order(list: &Vec<String>, orders: &Vec<(String, u32)>) -> (r: Vec<String>)
    ensures
        views(r@) == sort_by_order(order_views(orders@), views(list@)),
{
    let ghost ov = order_views(orders@);
    let ghost lv = views(list@);
    let mut r: Vec<String> = Vec::new();
    let mut i: usize = 0;
    while i < list.len()
        invariant
            i <= list@.len(),
            ov == order_views(orders@),
            lv == views(list@),
            views(r@) == sort_by_order(ov, lv.take(i as int)),
        decreases list@.len() - i,
    {
        assert(lv.take(i + 1).drop_last() == lv.take(i as int));
        assert(lv.take(i + 1).last() == list@[i as int]@);
        let key = order_of(orders, list[i].as_str());
        let ghost rv = views(r@);
        let mut k: usize = 0;
        while k < r.len() && order_of(orders, r[k].as_str()) <= key
            invariant
                k <= r@.len(),
                rv == views(r@),
                ov == order_views(orders@),
                key == order_key(ov, list@[i as int]@),
                forall|j: int| 0 <= j < k ==> order_key(ov, #[trigger] rv[j]) <= key,
            decreases r@.len() - k,
        {
            assert(rv[k as int] == r@[k as int]@);
            k += 1;
        }
        if k < r.len() {
            assert(rv[k as int] == r@[k as int]@);
        }
        proof { lemma_ins_by(ov, rv, list@[i as int]@, k as int); }
        r.insert(k, list[i].clone());
        assert(views(r@) =~= rv.insert(k as int, list@[i as int]@));
        i += 1;
    }
    assert(lv.take(list@.len() as int) == lv);
    r
}

pub open spec fn sorted_lists(orders: Seq<(Chars, u32)>, cs: Seq<(Chars, Seq<Chars>)>) -> Seq<(Chars, Seq<Chars>)> {
    cs.map_values(|c: (Chars, Seq<Chars>)| (c.0, sort_by_order(orders, c.1)))
}

impl ContentTree {
    /// Sort every children list by the given orders (stable; unlisted
    /// nodes last).
    pub fn sort_children(&mut self, orders: &Vec<(String, u32)>)
        ensures
            final(self)@ == (TreeV { children: sorted_lists(order_views(orders@), old(self)@.children), ..old(self)@ }),
    {
        let ghost c0 = self@.children;
        let mut i: usize = 0;
        while i < self.children.len()
            invariant
                i <= self.children@.len(),
                c0.len() == self.children@.len(),
                self@ == (TreeV { children: self@.children, ..old(self)@ }),
                forall|k: int| 0 <= k < i ==> #[trigger] self@.children[k] == sorted_lists(order_views(orders@), c0)[k],
                forall|k: int| i <= k < c0.len() ==> #[trigger] self@.children[k] == c0[k],
            decreases self.children@.len() - i,
        {
            let ghost before = self@.children;
            let sorted = sorted_by_order(&self.children[i].children, orders);
            let parent = self.children[i].parent.clone();
            assert(before[i as int] == c0[i as int]);
            self.children.set(i, ChildList { parent, children: sorted });
            assert forall|k: int| 0 <= k < c0.len() && k != i implies #[trigger] self@.children[k] == before[k] by {}
            i += 1;
        }
        assert(self@.children =~= sorted_lists(order_views(orders@), c0));
    }
}

// ── Slot coverage ────────────────────────────────────────────────

pub open spec fn ops_views(cs: Seq<Vec<Op>>) -> Seq<Seq<OpV>> {
    cs.map_values(|c: Vec<Op>| op_views(c@))
}

/// Some child's effects include `op`.
pub open spec fn claimed(children: Seq<Seq<OpV>>, op: OpV) -> bool {
    exists|k: int| 0 <= k < children.len() && #[trigger] children[k].contains(op)
}

pub open spec fn claimed_pred(children: Seq<Seq<OpV>>) -> spec_fn(OpV) -> bool {
    |op: OpV| claimed(children, op)
}

pub open spec fn unclaimed_pred(children: Seq<Seq<OpV>>) -> spec_fn(OpV) -> bool {
    |op: OpV| !claimed(children, op)
}

pub open spec fn described(ops: Seq<OpV>) -> Seq<Chars> {
    ops.map_values(|o: OpV| describe_spec(o))
}

pub(crate) fn claimed_exec(children: &Vec<Vec<Op>>, op: &Op) -> (r: bool)
    ensures
        r == claimed(ops_views(children@), op@),
{
    let ghost cv = ops_views(children@);
    let mut k: usize = 0;
    while k < children.len()
        invariant
            k <= children@.len(),
            cv == ops_views(children@),
            forall|j: int| 0 <= j < k ==> !(#[trigger] cv[j]).contains(op@),
        decreases children@.len() - k,
    {
        assert(cv[k as int] == op_views(children@[k as int]@));
        if contains_op(&children[k], op) {
            return true;
        }
        k += 1;
    }
    false
}

/// The descriptions of the parent's effects that some child carries, and
/// of those none does (these the parent applies itself during replay).
pub fn check_slot_coverage(parent_effects: &Vec<Op>, children_effects: &Vec<Vec<Op>>) -> (r: (Vec<String>, Vec<String>))
    ensures
        views(r.0@) == described(op_views(parent_effects@).filter(claimed_pred(ops_views(children_effects@)))),
        views(r.1@) == described(op_views(parent_effects@).filter(unclaimed_pred(ops_views(children_effects@)))),
{
    let ghost pv = op_views(parent_effects@);
    let ghost cv = ops_views(children_effects@);
    let mut covered: Vec<String> = Vec::new();
    let mut uncovered: Vec<String> = Vec::new();
    let mut i: usize = 0;
    while i < parent_effects.len()
        invariant
            i <= parent_effects@.len(),
            pv == op_views(parent_effects@),
            cv == ops_views(children_effects@),
            views(covered@) == described(pv.take(i as int).filter(claimed_pred(cv))),
            views(uncovered@) == described(pv.take(i as int).filter(unclaimed_pred(cv))),
        decreases parent_effects@.len() - i,
    {
        assert(pv.take(i + 1) == pv.take(i as int).push(pv[i as int]));
        proof {
            pv.take(i as int).lemma_filter_push(pv[i as int], claimed_pred(cv));
            pv.take(i as int).lemma_filter_push(pv[i as int], unclaimed_pred(cv));
        }
        let op = &parent_effects[i];
        assert(pv[i as int] == op@);
        let d = op.describe();
        if claimed_exec(children_effects, op) {
            let ghost prev = covered@;
            covered.push(d);
            assert(views(covered@) =~= views(prev).push(describe_spec(op@)));
            assert(described(pv.take(i + 1).filter(claimed_pred(cv))) =~= described(pv.take(i as int).filter(claimed_pred(cv))).push(describe_spec(op@)));
        } else {
            let ghost prev = uncovered@;
            uncovered.push(d);
            assert(views(uncovered@) =~= views(prev).push(describe_spec(op@)));
            assert(described(pv.take(i + 1).filter(unclaimed_pred(cv))) =~= described(pv.take(i as int).filter(unclaimed_pred(cv))).push(describe_spec(op@)));
        }
        i += 1;
    }
    assert(pv.take(parent_effects@.len() as int) == pv);
    (covered, uncovered)
}

// ── Card references in text ──────────────────────────────────────

/// A card link `[display](card_type/entity_id)` found in text.
#[derive(Debug, PartialEq, Eq)]
pub struct ContentRef {
    /// The display text, e.g. "小晚".
    pub display: String,
    /// The card path, e.g. "characters/lin".
    pub card_path: String,
    /// The entity id: the path after its last `/`, e.g. "lin".
    pub entity_id: String,
    /// Byte offset of the `[` in the text.
    pub offset: usize,
}

pub ghost struct ContentRefV {
    pub display: Chars,
    pub card_path: Chars,
    pub entity_id: Chars,
    pub offset: nat,
}

impl View for ContentRef {
    type V = ContentRefV;

    open spec fn view(&self) -> ContentRefV {
        ContentRefV {
            display: self.display@,
            card_path: self.card_path@,
            entity_id: self.entity_id@,
            offset: self.offset as nat,
        }
    }
}

/// Bytes of a character in UTF-8.
pub open spec fn utf8_len(c: char) -> nat {
    if (c as u32) < 0x80 {
        1
    } else if (c as u32) < 0x800 {
        2
    } else if (c as u32) < 0x10000 {
        3
    } else {
        4
    }
}

/// Bytes of a text in UTF-8.
pub open spec fn byte_len(s: Seq<char>) -> nat
    decreases s.len(),
{
    if s.len() == 0 {
        0
    } else {
        byte_len(s.drop_last()) + utf8_len(s.last())
    }
}

/// The card links of `s` from position `i` on: a `[` with a later `]`
/// directly followed by `(` and a later `)`; the path must hold a `/`
/// with a non-empty id after the last one, and the display must be
/// non-empty. Scanning resumes after the `)`.
#[verifier::opaque]
pub open spec fn refs_from(s: Seq<char>, i: int) -> Seq<ContentRefV>
    decreases s.len() - i,
{
    if i < 0 || i >= s.len() {
        Seq::empty()
    } else if s[i] != '[' {
        refs_from(s, i + 1)
    } else {
        proof {
            crate::text::lemma_find(s.skip(i + 1), ']');
            crate::text::lemma_find(s.skip(i + 1), ')');
        }
        match find(s.skip(i + 1), ']') {
            None => refs_from(s, i + 1),
            Some(b) => {
                let be = i + 1 + b;
                if be + 1 >= s.len() || s[be + 1] != '(' {
                    refs_from(s, be + 1)
                } else {
                    proof { crate::text::lemma_find(s.skip(be + 2), ')'); }
                    match find(s.skip(be + 2), ')') {
                        None => refs_from(s, be + 1),
                        Some(p) => {
                            let pe = be + 2 + p;
                            let display = s.subrange(i + 1, be);
                            let path = s.subrange(be + 2, pe);
                            let rest = refs_from(s, pe + 1);
                            match rfind(path, '/') {
                                Some(sl) => if path.len() - (sl + 1) > 0 && display.len() > 0 {
                                    seq![
                                        ContentRefV {
                                            display,
                                            card_path: path,
                                            entity_id: path.skip(sl + 1),
                                            offset: byte_len(s.take(i)),
                                        },
                                    ] + rest
                                } else {
                                    rest
                                },
                                None => rest,
                            }
                        },
                    }
                }
            },
        }
    }
}

fn char_bytes(c: char) -> (r: usize)
    ensures
        r == utf8_len(c),
{
    let u = c as u32;
    if u < 0x80 {
        1
    } else if u < 0x800 {
        2
    } else if u < 0x10000 {
        3
    } else {
        4
    }
}

fn bytes_before(v: &Vec<char>, i: usize) -> (r: usize)
    requires
        i <= v@.len(),
        v@.len() <= usize::MAX / 4,
    ensures
        r == byte_len(v@.take(i as int)),
{
    let mut n: usize = 0;
    let mut k: usize = 0;
    while k < i
        invariant
            k <= i <= v@.len() <= usize::MAX / 4,
            n == byte_len(v@.take(k as int)),
            n <= 4 * k,
        decreases i - k,
    {
        assert(v@.take(k + 1).drop_last() == v@.take(k as int));
        n = n + char_bytes(v[k]);
        k += 1;
    }
    n
}

pub open spec fn ref_views(r: Seq<ContentRef>) -> Seq<ContentRefV> {
    r.map_values(|x: ContentRef| x@)
}

/// One step of the scan at position `i`: the link found there, if any,
/// and where scanning resumes.
#[verifier::rlimit(40)]
fn scan_ref(v: &Vec<char>, i: usize) -> (r: (Option<ContentRef>, usize))
    requires
        i < v@.len() <= usize::MAX / 4,
    ensures
        i < r.1 <= v@.len(),
        refs_from(v@, i as int) == (match r.0 {
            Some(x) => seq![x@],
            None => Seq::empty(),
        }) + refs_from(v@, r.1 as int),
{
    let n = v.len();
    if v[i] != '[' {
        assert(refs_from(v@, i as int) =~= Seq::<ContentRefV>::empty() + refs_from(v@, i + 1)) by {
            reveal(refs_from);
        }
        return (None, i + 1);
    }
    assert(v@.skip(i + 1) == v@.subrange(i + 1, n as int));
    let be = match find_in(v, i + 1, n, ']') {
        None => {
            assert(refs_from(v@, i as int) =~= Seq::<ContentRefV>::empty() + refs_from(v@, i + 1)) by {
            reveal(refs_from);
        }
            return (None, i + 1);
        },
        Some(b) => i + 1 + b,
    };
    if be + 1 >= n || v[be + 1] != '(' {
        assert(refs_from(v@, i as int) =~= Seq::<ContentRefV>::empty() + refs_from(v@, be + 1)) by {
            reveal(refs_from);
        }
        return (None, be + 1);
    }
    assert(v@.skip(be + 2) == v@.subrange(be + 2, n as int));
    let pe = match find_in(v, be + 2, n, ')') {
        None => {
            assert(refs_from(v@, i as int) =~= Seq::<ContentRefV>::empty() + refs_from(v@, be + 1)) by {
            reveal(refs_from);
        }
            return (None, be + 1);
        },
        Some(p) => be + 2 + p,
    };
    let ghost path = v@.subrange(be + 2, pe as int);
    match rfind_in(v, be + 2, pe, '/') {
        Some(sl) => {
            let id_start = be + 2 + sl + 1;
            if pe > id_start && be > i + 1 {
                let rf = ContentRef {
                    display: string_from(v.as_slice(), i + 1, be),
                    card_path: string_from(v.as_slice(), be + 2, pe),
                    entity_id: string_from(v.as_slice(), id_start, pe),
                    offset: bytes_before(v, i),
                };
                assert(path.skip(sl + 1) =~= v@.subrange(id_start as int, pe as int));
                assert(refs_from(v@, i as int) =~= seq![rf@] + refs_from(v@, pe + 1)) by {
                    reveal(refs_from);
                }
                return (Some(rf), pe + 1);
            }
        },
        None => {},
    }
    assert(refs_from(v@, i as int) =~= Seq::<ContentRefV>::empty() + refs_from(v@, pe + 1)) by {
            reveal(refs_from);
        }
    (None, pe + 1)
}

/// All card links `[text](card_type/entity_id)` in a text.
pub fn extract_refs(text: &str) -> (r: Vec<ContentRef>)
    requires
        text@.len() <= usize::MAX / 4,
    ensures
        ref_views(r@) == refs_from(text@, 0),
{
    let v = chars_of(text);
    let n = v.len();
    let mut out: Vec<ContentRef> = Vec::new();
    let mut i: usize = 0;
    while i < n
        invariant
            v@ == text@,
            n == v@.len() <= usize::MAX / 4,
            i <= n,
            ref_views(out@) + refs_from(v@, i as int) == refs_from(v@, 0),
        decreases n - i,
    {
        let (found, next) = scan_ref(&v, i);
        let ghost prev = out@;
        match found {
            Some(rf) => {
                out.push(rf);
                assert(ref_views(out@) =~= ref_views(prev).push(rf@));
            },
            None => {},
        }
        assert(ref_views(out@) + refs_from(v@, next as int) =~= ref_views(prev) + refs_from(v@, i as int));
        i = next;
    }
    assert(refs_from(v@, n as int) =~= Seq::<ContentRefV>::empty()) by {
        reveal(refs_from);
    }
    out
}

/// One step of stripping at position `i` (within the text): the text it
/// emits and where it resumes.
pub open spec fn strip_step(s: Seq<char>, i: int) -> (Seq<char>, int) {
    if s[i] != '[' {
        (seq![s[i]], i + 1)
    } else {
        match find(s.skip(i + 1), ']') {
            None => (seq!['['], i + 1),
            Some(b) => {
                let be = i + 1 + b;
                if be + 1 >= s.len() || s[be + 1] != '(' {
                    (s.subrange(i, be + 1), be + 1)
                } else {
                    match find(s.skip(be + 2), ')') {
                        None => (s.subrange(i, be + 2), be + 2),
                        Some(p) => {
                            let pe = be + 2 + p;
                            let display = s.subrange(i + 1, be);
                            let path = s.subrange(be + 2, pe);
                            (
                                if path.contains('/') && display.len() > 0 {
                                    display
                                } else {
                                    s.subrange(i, pe + 1)
                                },
                                pe + 1,
                            )
                        },
                    }
                }
            },
        }
    }
}

pub proof fn lemma_strip_step_advances(s: Seq<char>, i: int)
    requires
        0 <= i < s.len(),
    ensures
        i < strip_step(s, i).1 <= s.len(),
{
    crate::text::lemma_find(s.skip(i + 1), ']');
    if s[i] == '[' {
        if let Some(b) = find(s.skip(i + 1), ']') {
            let be = i + 1 + b;
            if !(be + 1 >= s.len() || s[be + 1] != '(') {
                crate::text::lemma_find(s.skip(be + 2), ')');
            }
        }
    }
}

/// The text from position `i` on with each card link replaced by its
/// display text; other links, and unmatched brackets, are kept as they are.
#[verifier::opaque]
pub open spec fn strip_from(s: Seq<char>, i: int) -> Seq<char>
    decreases s.len() - i,
{
    if i < 0 || i >= s.len() {
        Seq::empty()
    } else {
        proof { lemma_strip_step_advances(s, i); }
        strip_step(s, i).0 + strip_from(s, strip_step(s, i).1)
    }
}

fn push_range(out: &mut String, v: &Vec<char>, lo: usize, hi: usize)
    requires
        lo <= hi <= v@.len(),
    ensures
        final(out)@ == old(out)@ + v@.subrange(lo as int, hi as int),
{
    let piece = string_from(v.as_slice(), lo, hi);
    push_str(out, piece.as_str());
}

#[verifier::rlimit(30)]
fn scan_strip(v: &Vec<char>, i: usize, out: &mut String) -> (next: usize)
    requires
        i < v@.len(),
    ensures
        i < next <= v@.len(),
        final(out)@ == old(out)@ + strip_step(v@, i as int).0,
        next == strip_step(v@, i as int).1,
{
    let n = v.len();
    if v[i] != '[' {
        push_char(out, v[i]);
        return i + 1;
    }
    assert(v@.skip(i + 1) == v@.subrange(i + 1, n as int));
    let be = match find_in(v, i + 1, n, ']') {
        None => {
            push_char(out, '[');
            return i + 1;
        },
        Some(b) => i + 1 + b,
    };
    if be + 1 >= n || v[be + 1] != '(' {
        push_range(out, v, i, be + 1);
        return be + 1;
    }
    assert(v@.skip(be + 2) == v@.subrange(be + 2, n as int));
    let pe = match find_in(v, be + 2, n, ')') {
        None => {
            push_range(out, v, i, be + 2);
            return be + 2;
        },
        Some(p) => be + 2 + p,
    };
    let ghost path = v@.subrange(be + 2, pe as int);
    let has_slash = match find_in(v, be + 2, pe, '/') {
        Some(k) => {
            assert(path[k as int] == '/');
            true
        },
        None => {
            proof { crate::text::lemma_find(path, '/'); }
            false
        },
    };
    if has_slash && be > i + 1 {
        push_range(out, v, i + 1, be);
    } else {
        push_range(out, v, i, pe + 1);
    }
    pe + 1
}

/// The text with each card link `[display](card_type/id)` replaced by its
/// display text; links without `/` in the path are kept.
pub fn strip_refs(text: &str) -> (r: String)
    ensures
        r@ == strip_from(text@, 0),
{
    let v = chars_of(text);
    let n = v.len();
    let mut out = String::new();
    let mut i: usize = 0;
    while i < n
        invariant
            v@ == text@,
            n == v@.len(),
            i <= n,
            out@ + strip_from(v@, i as int) == strip_from(v@, 0),
        decreases n - i,
    {
        let ghost o0 = out@;
        let next = scan_strip(&v, i, &mut out);
        assert(strip_from(v@, i as int) == strip_step(v@, i as int).0 + strip_from(v@, next as int)) by {
            reveal(strip_from);
        }
        assert(out@ + strip_from(v@, next as int) =~= o0 + strip_from(v@, i as int));
        i = next;
    }
    assert(strip_from(v@, n as int) =~= Seq::<char>::empty()) by {
        reveal(strip_from);
    }
    assert(out@ =~= out@ + strip_from(v@, n as int));
    out
}

// ── Context around an offset ─────────────────────────────────────

/// A line without the `\r` of a `\r\n` ending.
pub open spec fn strip_cr(l: Seq<char>) -> Seq<char> {
    if l.len() > 0 && l.last() == '\r' {
        l.drop_last()
    } else {
        l
    }
}

/// The lines of a text as `str::lines` gives them: split at `\n`, a
/// final line break ending the last line, `\r\n` endings trimmed.
#[verifier::opaque]
pub open spec fn lines_of(s: Seq<char>) -> Seq<Seq<char>>
    decreases s.len(),
{
    if s.len() == 0 {
        Seq::empty()
    } else {
        proof { crate::text::lemma_find(s, '\n'); }
        match find(s, '\n') {
            None => seq![s],
            Some(k) => seq![strip_cr(s.take(k))] + lines_of(s.skip(k + 1)),
        }
    }
}

/// The first line whose end (counting one byte for its line break) lies
/// beyond the byte offset; the first line when there is none.
pub open spec fn line_at(ls: Seq<Seq<char>>, offset: nat, start: nat, i: nat) -> nat
    decreases ls.len() - i,
{
    if i >= ls.len() {
        0
    } else if offset < start + byte_len(ls[i as int]) + 1 {
        i
    } else {
        line_at(ls, offset, start + byte_len(ls[i as int]) + 1, i + 1)
    }
}

/// Lines joined by `\n`.
pub open spec fn joined(ls: Seq<Seq<char>>) -> Seq<char>
    decreases ls.len(),
{
    if ls.len() == 0 {
        Seq::empty()
    } else if ls.len() == 1 {
        ls[0]
    } else {
        joined(ls.drop_last()) + seq!['\n'] + ls.last()
    }
}

/// The lines around the one holding byte `offset`: `context_lines`
/// before and after it, joined by `\n`.
pub open spec fn context_spec(s: Seq<char>, offset: nat, k: nat) -> Seq<char> {
    let ls = lines_of(s);
    let t = line_at(ls, offset, 0, 0);
    let start: int = if t >= k {
        t - k
    } else {
        0
    };
    let end: int = if t + k + 1 <= ls.len() {
        (t + k + 1) as int
    } else {
        ls.len() as int
    };
    joined(ls.subrange(start as int, end as int))
}

#[verifier::spinoff_prover]
#[verifier::rlimit(30)]
pub(crate) fn split_lines(v: &Vec<char>) -> (r: Vec<Vec<char>>)
    ensures
        r@.map_values(|l: Vec<char>| l@) == lines_of(v@),
{
    let n = v.len();
    let mut r: Vec<Vec<char>> = Vec::new();
    let mut i: usize = 0;
    assert(v@.skip(0) == v@);
    while i < n
        invariant
            n == v@.len(),
            i <= n,
            r@.map_values(|l: Vec<char>| l@) + lines_of(v@.skip(i as int)) == lines_of(v@),
        decreases n - i,
    {
        let ghost rest = v@.skip(i as int);
        assert(rest == v@.subrange(i as int, n as int));
        let mut line: Vec<char> = Vec::new();
        let ghost prev = r@;
        match find_in(v, i, n, '\n') {
            Some(k) => {
                let mut j = i;
                while j < i + k
                    invariant
                        i <= j <= i + k,
                        i + k < n == v@.len(),
                        line@ == v@.subrange(i as int, j as int),
                    decreases i + k - j,
                {
                    line.push(v[j]);
                    assert(line@ =~= v@.subrange(i as int, j + 1));
                    j += 1;
                }
                if line.len() > 0 && line[line.len() - 1] == '\r' {
                    line.pop();
                }
                assert(rest.take(k as int) =~= v@.subrange(i as int, i + k));
                assert(rest.skip(k + 1) =~= v@.skip(i + k + 1));
                assert(lines_of(rest) == seq![strip_cr(rest.take(k as int))] + lines_of(rest.skip(k + 1))) by {
                    reveal(lines_of);
                }
                let ghost lv = line@;
                r.push(line);
                assert(r@.map_values(|l: Vec<char>| l@) =~= prev.map_values(|l: Vec<char>| l@).push(lv));
                assert(r@.map_values(|l: Vec<char>| l@) + lines_of(v@.skip(i + k + 1)) =~= prev.map_values(
                    |l: Vec<char>| l@,
                ) + lines_of(rest));
                i = i + k + 1;
            },
            None => {
                let mut j = i;
                while j < n
                    invariant
                        i <= j <= n == v@.len(),
                        line@ == v@.subrange(i as int, j as int),
                    decreases n - j,
                {
                    line.push(v[j]);
                    assert(line@ =~= v@.subrange(i as int, j + 1));
                    j += 1;
                }
                let ghost lv = line@;
                r.push(line);
                assert(r@.map_values(|l: Vec<char>| l@) =~= prev.map_values(|l: Vec<char>| l@).push(lv));
                assert(lv =~= rest);
                assert(lines_of(rest) == seq![rest]) by {
                    reveal(lines_of);
                }
                assert(v@.skip(n as int) =~= Seq::<char>::empty());
                assert(lines_of(v@.skip(n as int)) =~= Seq::<Seq<char>>::empty()) by {
                    reveal(lines_of);
                }
                assert(r@.map_values(|l: Vec<char>| l@) + lines_of(v@.skip(n as int)) =~= prev.map_values(
                    |l: Vec<char>| l@,
                ) + lines_of(rest));
                i = n;
            },
        }
    }
    assert(v@.skip(n as int) =~= Seq::<char>::empty());
    assert(lines_of(v@.skip(n as int)) =~= Seq::<Seq<char>>::empty()) by {
        reveal(lines_of);
    }
    assert(r@.map_values(|l: Vec<char>| l@) =~= r@.map_values(|l: Vec<char>| l@) + lines_of(v@.skip(n as int)));
    r
}

fn line_bytes(l: &Vec<char>) -> (r: usize)
    requires
        l@.len() <= usize::MAX / 4,
    ensures
        r == byte_len(l@),
{
    let b = bytes_before(l, l.len());
    assert(l@.take(l@.len() as int) == l@);
    b
}

/// The lines around the one holding byte `offset` (see `context_spec`).
pub fn extract_context(text: &str, offset: usize, context_lines: usize) -> (r: String)
    requires
        text@.len() <= usize::MAX / 8,
        context_lines < usize::MAX / 2,
    ensures
        r@ == context_spec(text@, offset as nat, context_lines as nat),
{
    let v = chars_of(text);
    let lines = split_lines(&v);
    let ghost ls = lines@.map_values(|l: Vec<char>| l@);
    proof { lemma_lines_short(v@); }
    let mut cumulative: usize = 0;
    let mut target: usize = 0;
    let mut i: usize = 0;
    let mut found = false;
    while i < lines.len() && !found
        invariant
            ls == lines@.map_values(|l: Vec<char>| l@),
            ls == lines_of(v@),
            v@ == text@,
            v@.len() <= usize::MAX / 8,
            forall|k: int| 0 <= k < ls.len() ==> #[trigger] ls[k].len() <= v@.len(),
            i <= ls.len(),
            ls.len() == lines@.len(),
            ls.len() <= v@.len() + 1,
            !found ==> cumulative <= offset,
            !found ==> target == 0,
            found ==> line_at(ls, offset as nat, 0, 0) == target,
            !found ==> line_at(ls, offset as nat, 0, 0) == line_at(ls, offset as nat, cumulative as nat, i as nat),
            target < ls.len() || target == 0,
        decreases ls.len() - i, if found { 0int } else { 1int },
    {
        assert(ls[i as int] == lines@[i as int]@);
        let lb = line_bytes(&lines[i]);
        let line_end: u128 = cumulative as u128 + lb as u128 + 1;
        if (offset as u128) < line_end {
            target = i;
            found = true;
        } else {
            cumulative = line_end as usize;
            i += 1;
        }
    }
    if !found {
        assert(line_at(ls, offset as nat, cumulative as nat, i as nat) == 0);
    }
    assert(line_at(ls, offset as nat, 0, 0) == target);
    let start = if target >= context_lines { target - context_lines } else { 0 };
    let end = if target + context_lines + 1 <= lines.len() { target + context_lines + 1 } else { lines.len() };
    let mut out: Vec<char> = Vec::new();
    let mut k = start;
    while k < end
        invariant
            start <= k <= end <= ls.len(),
            ls.len() == lines@.len(),
            ls == lines@.map_values(|l: Vec<char>| l@),
            out@ == joined(ls.subrange(start as int, k as int)),
        decreases end - k,
    {
        if k > start {
            out.push('\n');
        }
        let mut j: usize = 0;
        let ghost before = out@;
        while j < lines[k].len()
            invariant
                k < lines@.len(),
                j <= lines@[k as int]@.len(),
                out@ == before + lines@[k as int]@.take(j as int),
            decreases lines@[k as int]@.len() - j,
        {
            out.push(lines[k][j]);
            assert(out@ =~= before + lines@[k as int]@.take(j + 1));
            j += 1;
        }
        assert(lines@[k as int]@.take(lines@[k as int]@.len() as int) == lines@[k as int]@);
        assert(ls[k as int] == lines@[k as int]@);
        assert(ls.subrange(start as int, k + 1).drop_last() =~= ls.subrange(start as int, k as int));
        k += 1;
    }
    assert(out@ == joined(ls.subrange(start as int, end as int)));
    let r = string_from(out.as_slice(), 0, out.len());
    assert(out@.subrange(0, out@.len() as int) == out@);
    r
}

proof fn lemma_lines_short(s: Seq<char>)
    ensures
        lines_of(s).len() <= s.len() + 1,
        forall|k: int| 0 <= k < lines_of(s).len() ==> #[trigger] lines_of(s)[k].len() <= s.len(),
    decreases s.len(),
{
    reveal(lines_of);
    if s.len() > 0 {
        crate::text::lemma_find(s, '\n');
        match find(s, '\n') {
            None => {},
            Some(k) => {
                lemma_lines_short(s.skip(k + 1));
                let ls = lines_of(s);
                assert forall|j: int| 0 <= j < ls.len() implies #[trigger] ls[j].len() <= s.len() by {
                    if j > 0 {
                        assert(ls[j] == lines_of(s.skip(k + 1))[j - 1]);
                    }
                }
            },
        }
    }
}

} // verus!
