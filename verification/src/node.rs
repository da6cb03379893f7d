//! Content nodes: their own fields, what they inherit from their ancestors,
//! and the world state a path through the content tree replays to.
use vstd::prelude::*;

use crate::content::{
    ContentTree, TreeV, claimed_exec, dfs_spec, hop_bound, is_leaf_spec, keys, kids, ops_views, rev,
    unclaimed_pred, up_chain,
};
use crate::entity::{Entity, EntityV, entity_views};
use crate::error::{LedgerError, LedgerErrorV};
use crate::goal::{GoalEntity, GoalEntityV, goal_entity_views};
use crate::history::{
    apply_all_entities, apply_all_goals, apply_all_secrets, apply_to_all_entities,
    apply_to_all_goals, apply_to_all_secrets, lemma_first_index_at, lemma_first_index_spec,
};
use crate::op::{Op, OpV, duplicate_ops, first_index, op_views};
use crate::secret::{Secret, SecretV, secret_views};
use crate::snapshot::{Snapshot, SnapshotV, extract_goal_entities, extracted_goals, merge_goals, merged_goals};
use crate::text::{Chars, owned, push_str, str_eq, views};

verus! {

broadcast use vstd::seq_lib::group_seq_properties;

/// A node of the content tree as its card records it (its constraints are
/// kept by the card loader).
#[derive(Debug)]
pub struct Content {
    pub id: String,
    /// Parent content id; `None` for the root.
    pub parent: Option<String>,
    /// Ordering among siblings (1-indexed).
    pub order: u32,
    pub title: Option<String>,
    pub synopsis: Option<String>,
    /// Narrative text (only meaningful for leaves).
    pub text: String,
    /// State mutations produced by this node.
    pub effects: Vec<Op>,
    pub word_count: u32,
    /// Main point-of-view character; inherited from ancestors when unset.
    pub main_role: Option<String>,
    /// Style directives; inherited unless `style_override` is set.
    pub style: Vec<String>,
    pub style_override: bool,
    pub created_by: String,
    pub created_at: String,
}

pub ghost struct ContentV {
    pub id: Chars,
    pub parent: Option<Chars>,
    pub main_role: Option<Chars>,
    pub style: Seq<Chars>,
    pub style_override: bool,
    pub effects: Seq<OpV>,
}

impl View for Content {
    type V = ContentV;

    open spec fn view(&self) -> ContentV {
        ContentV {
            id: self.id@,
            parent: match self.parent {
                Some(p) => Some(p@),
                None => None,
            },
            main_role: match self.main_role {
                Some(r) => Some(r@),
                None => None,
            },
            style: views(self.style@),
            style_override: self.style_override,
            effects: op_views(self.effects@),
        }
    }
}

pub open spec fn content_views(cs: Seq<Content>) -> Seq<ContentV> {
    cs.map_values(|c: Content| c@)
}

pub open spec fn content_ids(cs: Seq<ContentV>) -> Seq<Chars> {
    cs.map_values(|c: ContentV| c.id)
}

/// The first content with the id, if any.
pub open spec fn lookup(cs: Seq<ContentV>, id: Chars) -> Option<ContentV> {
    match first_index(content_ids(cs), id) {
        Some(i) => Some(cs[i]),
        None => None,
    }
}

impl Content {
    pub fn is_root(&self) -> (r: bool)
        ensures
            r == (self.parent is None),
    {
        self.parent.is_none()
    }
}

fn find_content<'a>(cs: &'a Vec<Content>, id: &str) -> (r: Option<&'a Content>)
    ensures
        match r {
            Some(c) => lookup(content_views(cs@), id@) == Some(c@),
            None => lookup(content_views(cs@), id@) is None,
        },
{
    let ghost ks = content_ids(content_views(cs@));
    let mut i: usize = 0;
    while i < cs.len()
        invariant
            i <= cs@.len(),
            ks == content_ids(content_views(cs@)),
            ks.len() == cs@.len(),
            forall|k: int| 0 <= k < i ==> ks[k] != id@,
        decreases cs@.len() - i,
    {
        assert(ks[i as int] == cs@[i as int].id@);
        if str_eq(cs[i].id.as_str(), id) {
            proof { lemma_first_index_at(ks, id@, i as int); }
            return Some(&cs[i]);
        }
        i += 1;
    }
    proof { lemma_first_index_at(ks, id@, i as int); }
    None
}

/// The chain from the topmost ancestor down to the node itself.
pub open spec fn chain_to(t: TreeV, id: Chars) -> Seq<Chars> {
    rev(seq![id] + up_chain(t, id, hop_bound(t)))
}

/// Styles gathered from the root down: a node that overrides drops what
/// came before it.
pub open spec fn style_along(ids: Seq<Chars>, cs: Seq<ContentV>) -> Seq<Chars>
    decreases ids.len(),
{
    if ids.len() == 0 {
        Seq::empty()
    } else {
        let prev = style_along(ids.drop_last(), cs);
        match lookup(cs, ids.last()) {
            Some(c) => if c.style_override {
                c.style
            } else {
                prev + c.style
            },
            None => prev,
        }
    }
}

/// The main role nearest the node: its own, else its parent's, and so on up.
pub open spec fn role_along(ids: Seq<Chars>, cs: Seq<ContentV>) -> Option<Chars>
    decreases ids.len(),
{
    if ids.len() == 0 {
        None
    } else {
        match lookup(cs, ids.last()) {
            Some(c) if c.main_role is Some => c.main_role,
            _ => role_along(ids.drop_last(), cs),
        }
    }
}

/// Resolve the effective style of a content node.
///
/// Accumulates style directives from the root to the node; a node with
/// `style_override` discards all inherited styles.
pub fn effective_style(content_id: &str, tree: &ContentTree, contents: &Vec<Content>) -> (r: Vec<String>)
    ensures
        views(r@) == style_along(chain_to(tree@, content_id@), content_views(contents@)),
{
    let ancestors = tree.ancestors(content_id);
    let ghost av = views(ancestors@);
    let ghost cv = content_views(contents@);
    let mut styles: Vec<String> = Vec::new();
    let mut i: usize = 0;
    while i < ancestors.len()
        invariant
            i <= ancestors@.len(),
            av == views(ancestors@),
            cv == content_views(contents@),
            views(styles@) == style_along(av.take(i as int), cv),
        decreases ancestors@.len() - i,
    {
        assert(av.take(i + 1).drop_last() == av.take(i as int));
        assert(av.take(i + 1).last() == ancestors@[i as int]@);
        match find_content(contents, ancestors[i].as_str()) {
            Some(c) => {
                if c.style_override {
                    styles = Vec::new();
                }
                let ghost prev = views(styles@);
                let mut k: usize = 0;
                while k < c.style.len()
                    invariant
                        k <= c.style@.len(),
                        views(styles@) == prev + views(c.style@).take(k as int),
                    decreases c.style@.len() - k,
                {
                    let ghost before = styles@;
                    styles.push(c.style[k].clone());
                    assert(views(styles@) =~= views(before).push(c.style@[k as int]@));
                    assert(views(c.style@).take(k + 1) =~= views(c.style@).take(k as int).push(c.style@[k as int]@));
                    k += 1;
                }
                assert(views(c.style@).take(c.style@.len() as int) == views(c.style@));
            },
            None => {},
        }
        i += 1;
    }
    assert(av.take(ancestors@.len() as int) == av);
    styles
}

/// Resolve the effective main role of a content node: the nearest one set
/// on the node or its ancestors.
pub fn effective_main_role(content_id: &str, tree: &ContentTree, contents: &Vec<Content>) -> (r: Option<String>)
    ensures
        match r {
            Some(s) => role_along(chain_to(tree@, content_id@), content_views(contents@)) == Some(s@),
            None => role_along(chain_to(tree@, content_id@), content_views(contents@)) is None,
        },
{
    let ancestors = tree.ancestors(content_id);
    let ghost av = views(ancestors@);
    let ghost cv = content_views(contents@);
    let mut k: usize = ancestors.len();
    while k > 0
        invariant
            k <= ancestors@.len(),
            av == views(ancestors@),
            cv == content_views(contents@),
            av == chain_to(tree@, content_id@),
            role_along(av, cv) == role_along(av.take(k as int), cv),
        decreases k,
    {
        assert(av.take(k as int).drop_last() == av.take(k - 1));
        assert(av.take(k as int).last() == ancestors@[k - 1]@);
        match find_content(contents, ancestors[k - 1].as_str()) {
            Some(c) => {
                match &c.main_role {
                    Some(role) => {
                        assert(role_along(av.take(k as int), cv) == Some(role@));
                        return Some(crate::text::owned(role.as_str()));
                    },
                    None => {},
                }
            },
            None => {},
        }
        k -= 1;
    }
    None
}

// ── Effects a node applies ───────────────────────────────────────

/// The effects of the node's children that have content, child by child.
pub open spec fn child_effects(ks: Seq<Chars>, cs: Seq<ContentV>) -> Seq<Seq<OpV>>
    decreases ks.len(),
{
    if ks.len() == 0 {
        Seq::empty()
    } else {
        let prev = child_effects(ks.drop_last(), cs);
        match lookup(cs, ks.last()) {
            Some(c) => prev.push(c.effects),
            None => prev,
        }
    }
}

/// What a node applies during replay: a leaf all its effects, a branch
/// only those that no child carries; a node without content nothing.
pub open spec fn effective_spec(t: TreeV, id: Chars, cs: Seq<ContentV>) -> Seq<OpV> {
    match lookup(cs, id) {
        None => Seq::empty(),
        Some(c) => if is_leaf_spec(t, id) {
            c.effects
        } else {
            c.effects.filter(unclaimed_pred(child_effects(kids(t, id), cs)))
        },
    }
}

/// The effects a node applies during replay (see `effective_spec`).
pub fn effective_effects(node_id: &str, tree: &ContentTree, contents: &Vec<Content>) -> (r: Vec<Op>)
    ensures
        op_views(r@) == effective_spec(tree@, node_id@, content_views(contents@)),
{
    let ghost cv = content_views(contents@);
    let content = match find_content(contents, node_id) {
        Some(c) => c,
        None => {
            let r: Vec<Op> = Vec::new();
            assert(op_views(r@) =~= Seq::<OpV>::empty());
            return r;
        },
    };
    if tree.is_leaf(node_id) {
        return duplicate_ops(&content.effects);
    }
    let kid_ids = tree.children_of(node_id);
    let ghost kv = views(kid_ids@);
    let mut children: Vec<Vec<Op>> = Vec::new();
    let mut i: usize = 0;
    while i < kid_ids.len()
        invariant
            i <= kid_ids@.len(),
            kv == views(kid_ids@),
            cv == content_views(contents@),
            ops_views(children@) == child_effects(kv.take(i as int), cv),
        decreases kid_ids@.len() - i,
    {
        assert(kv.take(i + 1).drop_last() == kv.take(i as int));
        assert(kv.take(i + 1).last() == kid_ids@[i as int]@);
        match find_content(contents, kid_ids[i].as_str()) {
            Some(c) => {
                let ghost prev = children@;
                children.push(duplicate_ops(&c.effects));
                assert(ops_views(children@) =~= ops_views(prev).push(c@.effects));
            },
            None => {},
        }
        i += 1;
    }
    assert(kv.take(kid_ids@.len() as int) == kv);
    let ghost ch = ops_views(children@);
    let ghost ev = op_views(content.effects@);
    let mut out: Vec<Op> = Vec::new();
    let mut k: usize = 0;
    while k < content.effects.len()
        invariant
            k <= content.effects@.len(),
            ev == op_views(content.effects@),
            ch == ops_views(children@),
            op_views(out@) == ev.take(k as int).filter(unclaimed_pred(ch)),
        decreases content.effects@.len() - k,
    {
        proof {
            assert(ev.take(k + 1) == ev.take(k as int).push(ev[k as int]));
            ev.take(k as int).lemma_filter_push(ev[k as int], unclaimed_pred(ch));
        }
        if !claimed_exec(&children, &content.effects[k]) {
            let ghost prev = out@;
            out.push(content.effects[k].duplicate());
            assert(op_views(out@) =~= op_views(prev).push(ev[k as int]));
        }
        k += 1;
    }
    assert(ev.take(content.effects@.len() as int) == ev);
    out
}

// ── Replaying a path ─────────────────────────────────────────────

/// The entity and secret cards kept under one content node.
#[derive(Debug)]
pub struct LocalCards {
    pub node: String,
    pub entities: Vec<Entity>,
    pub secrets: Vec<Secret>,
}

pub ghost struct LocalCardsV {
    pub node: Chars,
    pub entities: Seq<EntityV>,
    pub secrets: Seq<SecretV>,
}

impl View for LocalCards {
    type V = LocalCardsV;

    open spec fn view(&self) -> LocalCardsV {
        LocalCardsV { node: self.node@, entities: entity_views(self.entities@), secrets: secret_views(self.secrets@) }
    }
}

pub open spec fn local_views(ls: Seq<LocalCards>) -> Seq<LocalCardsV> {
    ls.map_values(|l: LocalCards| l@)
}

/// The local cards of a node: the first set recorded for it, else none.
pub open spec fn local_of(ls: Seq<LocalCardsV>, id: Chars) -> (Seq<EntityV>, Seq<SecretV>) {
    match first_index(ls.map_values(|l: LocalCardsV| l.node), id) {
        Some(i) => (ls[i].entities, ls[i].secrets),
        None => (Seq::empty(), Seq::empty()),
    }
}

pub open spec fn entity_ids(es: Seq<EntityV>) -> Seq<Chars> {
    es.map_values(|e: EntityV| e.id())
}

pub open spec fn secret_ids(ss: Seq<SecretV>) -> Seq<Chars> {
    ss.map_values(|x: SecretV| x.id)
}

/// A local card replaces the first entity with its id, or joins the end.
pub open spec fn merge_entity(es: Seq<EntityV>, e: EntityV) -> Seq<EntityV> {
    match first_index(entity_ids(es), e.id()) {
        Some(i) => es.update(i, e),
        None => es.push(e),
    }
}

pub open spec fn merge_entities(es: Seq<EntityV>, ls: Seq<EntityV>) -> Seq<EntityV>
    decreases ls.len(),
{
    if ls.len() == 0 {
        es
    } else {
        merge_entity(merge_entities(es, ls.drop_last()), ls.last())
    }
}

pub open spec fn merge_secret(ss: Seq<SecretV>, x: SecretV) -> Seq<SecretV> {
    match first_index(secret_ids(ss), x.id) {
        Some(i) => ss.update(i, x),
        None => ss.push(x),
    }
}

pub open spec fn merge_secrets(ss: Seq<SecretV>, ls: Seq<SecretV>) -> Seq<SecretV>
    decreases ls.len(),
{
    if ls.len() == 0 {
        ss
    } else {
        merge_secret(merge_secrets(ss, ls.drop_last()), ls.last())
    }
}

pub open spec fn ops_on_entities(ops: Seq<OpV>, es: Seq<EntityV>) -> Seq<EntityV>
    decreases ops.len(),
{
    if ops.len() == 0 {
        es
    } else {
        apply_all_entities(ops.last(), ops_on_entities(ops.drop_last(), es))
    }
}

pub open spec fn ops_on_secrets(ops: Seq<OpV>, ss: Seq<SecretV>) -> Seq<SecretV>
    decreases ops.len(),
{
    if ops.len() == 0 {
        ss
    } else {
        apply_all_secrets(ops.last(), ops_on_secrets(ops.drop_last(), ss))
    }
}

pub open spec fn ops_on_goals(ops: Seq<OpV>, gs: Seq<GoalEntityV>) -> Seq<GoalEntityV>
    decreases ops.len(),
{
    if ops.len() == 0 {
        gs
    } else {
        apply_all_goals(ops.last(), ops_on_goals(ops.drop_last(), gs))
    }
}

/// Entities and secrets after walking the path: at each node its local
/// cards are merged in, then its effective effects are applied.
pub open spec fn replay_world(
    path: Seq<Chars>,
    t: TreeV,
    cs: Seq<ContentV>,
    es: Seq<EntityV>,
    ss: Seq<SecretV>,
    ls: Seq<LocalCardsV>,
) -> (Seq<EntityV>, Seq<SecretV>)
    decreases path.len(),
{
    if path.len() == 0 {
        (es, ss)
    } else {
        node_step(replay_world(path.drop_last(), t, cs, es, ss, ls), t, path.last(), cs, ls)
    }
}

/// One node of a replay: its local cards merged in, then its effective
/// effects applied.
pub open spec fn node_step(
    w: (Seq<EntityV>, Seq<SecretV>),
    t: TreeV,
    id: Chars,
    cs: Seq<ContentV>,
    ls: Seq<LocalCardsV>,
) -> (Seq<EntityV>, Seq<SecretV>) {
    let loc = local_of(ls, id);
    let ops = effective_spec(t, id, cs);
    (ops_on_entities(ops, merge_entities(w.0, loc.0)), ops_on_secrets(ops, merge_secrets(w.1, loc.1)))
}

/// The world after a node is the world before it, with that one node
/// replayed (for a node the pre-order walk reaches).
pub proof fn lemma_after_is_before_then_node(
    t: TreeV,
    id: Chars,
    cs: Seq<ContentV>,
    es: Seq<EntityV>,
    ss: Seq<SecretV>,
    ls: Seq<LocalCardsV>,
)
    requires
        dfs_spec(t).contains(id),
    ensures
        replay_world(path_to(t, id), t, cs, es, ss, ls) == node_step(
            replay_world(path_before(t, id), t, cs, es, ss, ls),
            t,
            id,
            cs,
            ls,
        ),
{
    lemma_first_index_spec(dfs_spec(t), id);
    let i = first_index(dfs_spec(t), id)->0;
    assert(path_to(t, id).drop_last() =~= path_before(t, id));
    assert(path_to(t, id).last() == id);
}

/// Goals after applying the effective effects of every node of the path.
pub open spec fn replay_goals_along(path: Seq<Chars>, t: TreeV, cs: Seq<ContentV>, gs: Seq<GoalEntityV>) -> Seq<
    GoalEntityV,
>
    decreases path.len(),
{
    if path.len() == 0 {
        gs
    } else {
        ops_on_goals(effective_spec(t, path.last(), cs), replay_goals_along(path.drop_last(), t, cs, gs))
    }
}

/// The snapshot a replay path gives.
pub open spec fn replay_spec(
    position: Chars,
    path: Seq<Chars>,
    t: TreeV,
    cs: Seq<ContentV>,
    es: Seq<EntityV>,
    ss: Seq<SecretV>,
    ls: Seq<LocalCardsV>,
    yaml: Seq<GoalEntityV>,
) -> SnapshotV {
    let w = replay_world(path, t, cs, es, ss, ls);
    SnapshotV {
        position,
        entities: w.0,
        secrets: w.1,
        goal_entities: replay_goals_along(path, t, cs, merged_goals(extracted_goals(w.0), yaml)),
    }
}

fn find_local<'a>(ls: &'a Vec<LocalCards>, id: &str) -> (r: Option<&'a LocalCards>)
    ensures
        match r {
            Some(l) => local_of(local_views(ls@), id@) == (l@.entities, l@.secrets),
            None => local_of(local_views(ls@), id@) == (Seq::<EntityV>::empty(), Seq::<SecretV>::empty()),
        },
{
    let ghost ks = local_views(ls@).map_values(|l: LocalCardsV| l.node);
    let mut i: usize = 0;
    while i < ls.len()
        invariant
            i <= ls@.len(),
            ks == local_views(ls@).map_values(|l: LocalCardsV| l.node),
            ks.len() == ls@.len(),
            forall|k: int| 0 <= k < i ==> ks[k] != id@,
        decreases ls@.len() - i,
    {
        assert(ks[i as int] == ls@[i as int].node@);
        if str_eq(ls[i].node.as_str(), id) {
            proof { lemma_first_index_at(ks, id@, i as int); }
            return Some(&ls[i]);
        }
        i += 1;
    }
    proof { lemma_first_index_at(ks, id@, i as int); }
    None
}

fn merge_entity_into(es: &mut Vec<Entity>, e: Entity)
    ensures
        entity_views(final(es)@) == merge_entity(entity_views(old(es)@), e@),
{
    let ghost ks = entity_ids(entity_views(es@));
    let ghost ev = e@;
    let mut i: usize = 0;
    while i < es.len()
        invariant
            i <= es@.len(),
            ks == entity_ids(entity_views(es@)),
            es@ == old(es)@,
            ks.len() == es@.len(),
            forall|k: int| 0 <= k < i ==> ks[k] != ev.id(),
            e@ == ev,
        decreases es@.len() - i,
    {
        assert(ks[i as int] == es@[i as int]@.id());
        if str_eq(es[i].id(), e.id()) {
            proof { lemma_first_index_at(ks, ev.id(), i as int); }
            let ghost prev = entity_views(es@);
            es.set(i, e);
            assert(entity_views(es@) =~= prev.update(i as int, ev));
            return;
        }
        i += 1;
    }
    proof { lemma_first_index_at(ks, ev.id(), i as int); }
    let ghost prev = entity_views(es@);
    es.push(e);
    assert(entity_views(es@) =~= prev.push(ev));
}

fn merge_secret_into(ss: &mut Vec<Secret>, x: Secret)
    ensures
        secret_views(final(ss)@) == merge_secret(secret_views(old(ss)@), x@),
{
    let ghost ks = secret_ids(secret_views(ss@));
    let ghost xv = x@;
    let mut i: usize = 0;
    while i < ss.len()
        invariant
            i <= ss@.len(),
            ks == secret_ids(secret_views(ss@)),
            ss@ == old(ss)@,
            ks.len() == ss@.len(),
            forall|k: int| 0 <= k < i ==> ks[k] != xv.id,
            x@ == xv,
        decreases ss@.len() - i,
    {
        assert(ks[i as int] == ss@[i as int]@.id);
        if str_eq(ss[i].id.as_str(), x.id.as_str()) {
            proof { lemma_first_index_at(ks, xv.id, i as int); }
            let ghost prev = secret_views(ss@);
            ss.set(i, x);
            assert(secret_views(ss@) =~= prev.update(i as int, xv));
            return;
        }
        i += 1;
    }
    proof { lemma_first_index_at(ks, xv.id, i as int); }
    let ghost prev = secret_views(ss@);
    ss.push(x);
    assert(secret_views(ss@) =~= prev.push(xv));
}

fn merge_local(es: &mut Vec<Entity>, ss: &mut Vec<Secret>, l: &LocalCards)
    ensures
        entity_views(final(es)@) == merge_entities(entity_views(old(es)@), l@.entities),
        secret_views(final(ss)@) == merge_secrets(secret_views(old(ss)@), l@.secrets),
{
    let ghost e0 = entity_views(es@);
    let ghost lv = entity_views(l.entities@);
    let mut i: usize = 0;
    while i < l.entities.len()
        invariant
            i <= l.entities@.len(),
            lv == entity_views(l.entities@),
            entity_views(es@) == merge_entities(e0, lv.take(i as int)),
        decreases l.entities@.len() - i,
    {
        assert(lv.take(i + 1).drop_last() == lv.take(i as int));
        assert(lv.take(i + 1).last() == l.entities@[i as int]@);
        merge_entity_into(es, l.entities[i].duplicate());
        i += 1;
    }
    assert(lv.take(l.entities@.len() as int) == lv);
    let ghost s0 = secret_views(ss@);
    let ghost sv = secret_views(l.secrets@);
    let mut k: usize = 0;
    while k < l.secrets.len()
        invariant
            k <= l.secrets@.len(),
            sv == secret_views(l.secrets@),
            secret_views(ss@) == merge_secrets(s0, sv.take(k as int)),
        decreases l.secrets@.len() - k,
    {
        assert(sv.take(k + 1).drop_last() == sv.take(k as int));
        assert(sv.take(k + 1).last() == l.secrets@[k as int]@);
        merge_secret_into(ss, l.secrets[k].duplicate());
        k += 1;
    }
    assert(sv.take(l.secrets@.len() as int) == sv);
}

fn apply_ops(ops: &Vec<Op>, es: &mut Vec<Entity>, ss: &mut Vec<Secret>)
    ensures
        entity_views(final(es)@) == ops_on_entities(op_views(ops@), entity_views(old(es)@)),
        secret_views(final(ss)@) == ops_on_secrets(op_views(ops@), secret_views(old(ss)@)),
{
    let ghost ov = op_views(ops@);
    let ghost e0 = entity_views(es@);
    let ghost s0 = secret_views(ss@);
    let mut i: usize = 0;
    while i < ops.len()
        invariant
            i <= ops@.len(),
            ov == op_views(ops@),
            entity_views(es@) == ops_on_entities(ov.take(i as int), e0),
            secret_views(ss@) == ops_on_secrets(ov.take(i as int), s0),
        decreases ops@.len() - i,
    {
        assert(ov.take(i + 1).drop_last() == ov.take(i as int));
        assert(ov.take(i + 1).last() == ops@[i as int]@);
        apply_to_all_entities(&ops[i], es);
        apply_to_all_secrets(&ops[i], ss);
        i += 1;
    }
    assert(ov.take(ops@.len() as int) == ov);
}

fn apply_ops_goals(ops: &Vec<Op>, gs: &mut Vec<GoalEntity>)
    ensures
        goal_entity_views(final(gs)@) == ops_on_goals(op_views(ops@), goal_entity_views(old(gs)@)),
{
    let ghost ov = op_views(ops@);
    let ghost g0 = goal_entity_views(gs@);
    let mut i: usize = 0;
    while i < ops.len()
        invariant
            i <= ops@.len(),
            ov == op_views(ops@),
            goal_entity_views(gs@) == ops_on_goals(ov.take(i as int), g0),
        decreases ops@.len() - i,
    {
        assert(ov.take(i + 1).drop_last() == ov.take(i as int));
        assert(ov.take(i + 1).last() == ops@[i as int]@);
        apply_to_all_goals(&ops[i], gs);
        i += 1;
    }
    assert(ov.take(ops@.len() as int) == ov);
}

/// The replay path up to and including the node (pre-order).
pub open spec fn path_to(t: TreeV, id: Chars) -> Seq<Chars> {
    match first_index(dfs_spec(t), id) {
        Some(i) => dfs_spec(t).take(i + 1),
        None => dfs_spec(t),
    }
}

/// The replay path up to, not including, the node.
pub open spec fn path_before(t: TreeV, id: Chars) -> Seq<Chars> {
    match first_index(dfs_spec(t), id) {
        Some(i) => dfs_spec(t).take(i),
        None => dfs_spec(t),
    }
}

pub open spec fn not_in_tree(id: Chars) -> LedgerErrorV {
    LedgerErrorV::NotFound("Content '"@ + id + "' 不在内容树中"@)
}

fn not_in_tree_error(id: &str) -> (r: LedgerError)
    ensures
        r@ == not_in_tree(id@),
{
    let mut m = owned("Content '");
    push_str(&mut m, id);
    push_str(&mut m, "' 不在内容树中");
    LedgerError::NotFound(m)
}

impl Snapshot {
    /// Replays a path of the content tree over the genesis entities and
    /// secrets: at each node its local cards are merged in, then its
    /// effective effects are applied; goals are then extracted, completed
    /// from YAML, and replayed along the same path.
    pub fn replay(
        position: &str,
        path: &Vec<String>,
        tree: &ContentTree,
        contents: &Vec<Content>,
        entities: Vec<Entity>,
        secrets: Vec<Secret>,
        locals: &Vec<LocalCards>,
        yaml_goals: &Vec<GoalEntity>,
    ) -> (r: Snapshot)
        ensures
            r@ == replay_spec(
                position@,
                views(path@),
                tree@,
                content_views(contents@),
                entity_views(entities@),
                secret_views(secrets@),
                local_views(locals@),
                goal_entity_views(yaml_goals@),
            ),
    {
        let ghost pv = views(path@);
        let ghost cv = content_views(contents@);
        let ghost lv = local_views(locals@);
        let ghost e0 = entity_views(entities@);
        let ghost s0 = secret_views(secrets@);
        let mut entities = entities;
        let mut secrets = secrets;
        let mut i: usize = 0;
        while i < path.len()
            invariant
                i <= path@.len(),
                pv == views(path@),
                cv == content_views(contents@),
                lv == local_views(locals@),
                (entity_views(entities@), secret_views(secrets@)) == replay_world(
                    pv.take(i as int),
                    tree@,
                    cv,
                    e0,
                    s0,
                    lv,
                ),
            decreases path@.len() - i,
        {
            assert(pv.take(i + 1).drop_last() == pv.take(i as int));
            assert(pv.take(i + 1).last() == path@[i as int]@);
            match find_local(locals, path[i].as_str()) {
                Some(l) => merge_local(&mut entities, &mut secrets, l),
                None => {
                    assert(merge_entities(entity_views(entities@), Seq::empty()) == entity_views(entities@));
                    assert(merge_secrets(secret_views(secrets@), Seq::empty()) == secret_views(secrets@));
                },
            }
            let ops = effective_effects(path[i].as_str(), tree, contents);
            apply_ops(&ops, &mut entities, &mut secrets);
            i += 1;
        }
        assert(pv.take(path@.len() as int) == pv);
        let mut goals = extract_goal_entities(&entities);
        merge_goals(&mut goals, yaml_goals);
        let ghost g0 = goal_entity_views(goals@);
        let mut k: usize = 0;
        while k < path.len()
            invariant
                k <= path@.len(),
                pv == views(path@),
                cv == content_views(contents@),
                goal_entity_views(goals@) == replay_goals_along(pv.take(k as int), tree@, cv, g0),
            decreases path@.len() - k,
        {
            assert(pv.take(k + 1).drop_last() == pv.take(k as int));
            assert(pv.take(k + 1).last() == path@[k as int]@);
            let ops = effective_effects(path[k].as_str(), tree, contents);
            apply_ops_goals(&ops, &mut goals);
            k += 1;
        }
        assert(pv.take(path@.len() as int) == pv);
        Snapshot::from_parts(position, entities, secrets, goals)
    }

    /// The world after a content node's effects (used to check a commit).
    pub fn at_content(
        content_id: &str,
        tree: &ContentTree,
        contents: &Vec<Content>,
        entities: Vec<Entity>,
        secrets: Vec<Secret>,
        locals: &Vec<LocalCards>,
        yaml_goals: &Vec<GoalEntity>,
    ) -> (r: Result<Snapshot, LedgerError>)
        ensures
            match r {
                Ok(s) => keys(tree@.nodes).contains(content_id@) && s@ == replay_spec(
                    content_id@,
                    path_to(tree@, content_id@),
                    tree@,
                    content_views(contents@),
                    entity_views(entities@),
                    secret_views(secrets@),
                    local_views(locals@),
                    goal_entity_views(yaml_goals@),
                ),
                Err(e) => !keys(tree@.nodes).contains(content_id@) && e@ == not_in_tree(content_id@),
            },
    {
        if !tree.has_node(content_id) {
            return Err(not_in_tree_error(content_id));
        }
        let path = tree.replay_path(content_id);
        Ok(Snapshot::replay(content_id, &path, tree, contents, entities, secrets, locals, yaml_goals))
    }

    /// The world before a content node's effects: what is seen while
    /// writing it.
    pub fn before_content(
        content_id: &str,
        tree: &ContentTree,
        contents: &Vec<Content>,
        entities: Vec<Entity>,
        secrets: Vec<Secret>,
        locals: &Vec<LocalCards>,
        yaml_goals: &Vec<GoalEntity>,
    ) -> (r: Result<Snapshot, LedgerError>)
        ensures
            match r {
                Ok(s) => keys(tree@.nodes).contains(content_id@) && s@ == replay_spec(
                    content_id@,
                    path_before(tree@, content_id@),
                    tree@,
                    content_views(contents@),
                    entity_views(entities@),
                    secret_views(secrets@),
                    local_views(locals@),
                    goal_entity_views(yaml_goals@),
                ),
                Err(e) => !keys(tree@.nodes).contains(content_id@) && e@ == not_in_tree(content_id@),
            },
    {
        if !tree.has_node(content_id) {
            return Err(not_in_tree_error(content_id));
        }
        let path = tree.replay_path_before(content_id);
        Ok(Snapshot::replay(content_id, &path, tree, contents, entities, secrets, locals, yaml_goals))
    }
}

} // verus!
