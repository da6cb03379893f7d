//! Snapshot diff — comparing world states to find what an edit changed,
//! so that later chapters depending on it can be regenerated.
use vstd::prelude::*;

use crate::constraint::{first_with_id, lemma_first_with_id};
use crate::content::{insert_pos, lemma_insert_pos_props, lemma_sorted_insert};
use crate::entity::{Character, CharacterV, Entity, EntityV, Relationship, RelationshipV, rel_views};
use crate::goal::ov;
use crate::snapshot::{Snapshot, SnapshotV};
use crate::text::{
    Chars, clone_opt, contains_str, insert_sorted, insert_sorted_pair, lemma_sorted_of,
    lemma_sorted_pairs_of, owned, pair_views, push_str, sorted_members, sorted_of,
    lemma_pair_order, pair_lt, sorted_pair_members, sorted_pairs_of, str_eq, strictly_sorted, strictly_sorted_pairs,
    views,
};

verus! {

broadcast use vstd::seq_lib::group_seq_properties;

/// Diff for a single entity between two snapshots.
#[derive(Debug)]
pub struct EntityDiff {
    pub id: String,
    pub entity_type: String,
    pub location_change: Option<(Option<String>, Option<String>)>,
    pub added_traits: Vec<String>,
    pub removed_traits: Vec<String>,
    pub added_beliefs: Vec<String>,
    pub removed_beliefs: Vec<String>,
    /// `(target, role)` pairs.
    pub added_relationships: Vec<(String, String)>,
    pub removed_relationships: Vec<(String, String)>,
    pub added_inventory: Vec<String>,
    pub removed_inventory: Vec<String>,
}

pub ghost struct EntityDiffV {
    pub id: Chars,
    pub entity_type: Chars,
    pub location_change: Option<(Option<Chars>, Option<Chars>)>,
    pub added_traits: Seq<Chars>,
    pub removed_traits: Seq<Chars>,
    pub added_beliefs: Seq<Chars>,
    pub removed_beliefs: Seq<Chars>,
    pub added_relationships: Seq<(Chars, Chars)>,
    pub removed_relationships: Seq<(Chars, Chars)>,
    pub added_inventory: Seq<Chars>,
    pub removed_inventory: Seq<Chars>,
}

pub open spec fn loc_change_view(l: Option<(Option<String>, Option<String>)>) -> Option<(Option<Chars>, Option<Chars>)> {
    match l {
        Some((a, b)) => Some((ov(a), ov(b))),
        None => None,
    }
}

impl View for EntityDiff {
    type V = EntityDiffV;

    open spec fn view(&self) -> EntityDiffV {
        EntityDiffV {
            id: self.id@,
            entity_type: self.entity_type@,
            location_change: loc_change_view(self.location_change),
            added_traits: views(self.added_traits@),
            removed_traits: views(self.removed_traits@),
            added_beliefs: views(self.added_beliefs@),
            removed_beliefs: views(self.removed_beliefs@),
            added_relationships: pair_views(self.added_relationships@),
            removed_relationships: pair_views(self.removed_relationships@),
            added_inventory: views(self.added_inventory@),
            removed_inventory: views(self.removed_inventory@),
        }
    }
}

pub open spec fn diff_views(ds: Seq<EntityDiff>) -> Seq<EntityDiffV> {
    ds.map_values(|d: EntityDiff| d@)
}

/// Diff between two snapshots.
#[derive(Debug)]
pub struct SnapshotDiff {
    pub chapter: String,
    pub added_entities: Vec<String>,
    pub removed_entities: Vec<String>,
    pub entity_diffs: Vec<EntityDiff>,
}

// ── The diff of two entities ─────────────────────────────────────

pub open spec fn not_in(b: Seq<Chars>) -> spec_fn(Chars) -> bool {
    |x: Chars| !b.contains(x)
}

pub open spec fn pair_not_in(b: Seq<(Chars, Chars)>) -> spec_fn((Chars, Chars)) -> bool {
    |x: (Chars, Chars)| !b.contains(x)
}

/// The members of `a` that are not in `b`, sorted, each once.
pub open spec fn minus(a: Seq<Chars>, b: Seq<Chars>) -> Seq<Chars> {
    sorted_of(a.filter(not_in(b)))
}

pub open spec fn pair_minus(a: Seq<(Chars, Chars)>, b: Seq<(Chars, Chars)>) -> Seq<(Chars, Chars)> {
    sorted_pairs_of(a.filter(pair_not_in(b)))
}

pub open spec fn rel_pairs(rs: Seq<RelationshipV>) -> Seq<(Chars, Chars)> {
    rs.map_values(|r: RelationshipV| (r.target, r.role))
}

/// What changed from `old` to `new` (character fields are compared only
/// when both are characters).
pub open spec fn diff_spec(old: EntityV, new: EntityV) -> EntityDiffV {
    let base = EntityDiffV {
        id: old.id(),
        entity_type: old.kind_name(),
        location_change: None,
        added_traits: Seq::empty(),
        removed_traits: Seq::empty(),
        added_beliefs: Seq::empty(),
        removed_beliefs: Seq::empty(),
        added_relationships: Seq::empty(),
        removed_relationships: Seq::empty(),
        added_inventory: Seq::empty(),
        removed_inventory: Seq::empty(),
    };
    match (old, new) {
        (EntityV::Character(o), EntityV::Character(n)) => EntityDiffV {
            location_change: if o.location != n.location {
                Some((o.location, n.location))
            } else {
                None
            },
            added_traits: minus(n.traits, o.traits),
            removed_traits: minus(o.traits, n.traits),
            added_beliefs: minus(n.beliefs, o.beliefs),
            removed_beliefs: minus(o.beliefs, n.beliefs),
            added_relationships: pair_minus(rel_pairs(n.relationships), rel_pairs(o.relationships)),
            removed_relationships: pair_minus(rel_pairs(o.relationships), rel_pairs(n.relationships)),
            added_inventory: minus(n.inventory, o.inventory),
            removed_inventory: minus(o.inventory, n.inventory),
            ..base
        },
        _ => base,
    }
}

pub open spec fn diff_is_empty(d: EntityDiffV) -> bool {
    &&& d.location_change is None
    &&& d.added_traits.len() == 0
    &&& d.removed_traits.len() == 0
    &&& d.added_beliefs.len() == 0
    &&& d.removed_beliefs.len() == 0
    &&& d.added_relationships.len() == 0
    &&& d.removed_relationships.len() == 0
    &&& d.added_inventory.len() == 0
    &&& d.removed_inventory.len() == 0
}

/// The members of `a` not in `b`, sorted, each once.
fn sorted_minus(a: &Vec<String>, b: &Vec<String>) -> (r: Vec<String>)
    ensures
        views(r@) == minus(views(a@), views(b@)),
{
    let ghost av = views(a@);
    let ghost bv = views(b@);
    let mut r: Vec<String> = Vec::new();
    let mut i: usize = 0;
    while i < a.len()
        invariant
            i <= a@.len(),
            av == views(a@),
            bv == views(b@),
            sorted_members(views(r@), av.take(i as int).filter(not_in(bv))),
        decreases a@.len() - i,
    {
        assert(av.take(i + 1) == av.take(i as int).push(av[i as int]));
        proof { av.take(i as int).lemma_filter_push(av[i as int], not_in(bv)); }
        if !contains_str(b, a[i].as_str()) {
            insert_sorted(&mut r, a[i].as_str());
        }
        i += 1;
    }
    assert(av.take(a@.len() as int) == av);
    proof { lemma_sorted_of(views(r@), av.filter(not_in(bv))); }
    r
}

fn has_pair(rs: &Vec<Relationship>, t: &str, role: &str) -> (r: bool)
    ensures
        r == rel_pairs(rel_views(rs@)).contains((t@, role@)),
{
    let ghost ps = rel_pairs(rel_views(rs@));
    let mut i: usize = 0;
    while i < rs.len()
        invariant
            i <= rs@.len(),
            ps == rel_pairs(rel_views(rs@)),
            forall|k: int| 0 <= k < i ==> ps[k] != (t@, role@),
        decreases rs@.len() - i,
    {
        assert(ps[i as int] == (rs@[i as int].target@, rs@[i as int].role@));
        if str_eq(rs[i].target.as_str(), t) && str_eq(rs[i].role.as_str(), role) {
            return true;
        }
        i += 1;
    }
    false
}

/// The `(target, role)` pairs of `a` not in `b`, sorted, each once.
fn sorted_minus_rels(a: &Vec<Relationship>, b: &Vec<Relationship>) -> (r: Vec<(String, String)>)
    ensures
        pair_views(r@) == pair_minus(rel_pairs(rel_views(a@)), rel_pairs(rel_views(b@))),
{
    let ghost av = rel_pairs(rel_views(a@));
    let ghost bv = rel_pairs(rel_views(b@));
    let mut r: Vec<(String, String)> = Vec::new();
    let mut i: usize = 0;
    while i < a.len()
        invariant
            i <= a@.len(),
            av == rel_pairs(rel_views(a@)),
            bv == rel_pairs(rel_views(b@)),
            sorted_pair_members(pair_views(r@), av.take(i as int).filter(pair_not_in(bv))),
        decreases a@.len() - i,
    {
        assert(av.take(i + 1) == av.take(i as int).push(av[i as int]));
        assert(av[i as int] == (a@[i as int].target@, a@[i as int].role@));
        proof { av.take(i as int).lemma_filter_push(av[i as int], pair_not_in(bv)); }
        if !has_pair(b, a[i].target.as_str(), a[i].role.as_str()) {
            insert_sorted_pair(&mut r, a[i].target.as_str(), a[i].role.as_str());
        }
        i += 1;
    }
    assert(av.take(a@.len() as int) == av);
    proof { lemma_sorted_pairs_of(pair_views(r@), av.filter(pair_not_in(bv))); }
    r
}

fn opt_eq(a: &Option<String>, b: &Option<String>) -> (r: bool)
    ensures
        r == (ov(*a) == ov(*b)),
{
    match (a, b) {
        (Some(x), Some(y)) => str_eq(x.as_str(), y.as_str()),
        (None, None) => true,
        _ => false,
    }
}

fn diff_characters(d: &mut EntityDiff, o: &Character, n: &Character)
    ensures
        final(d)@ == (EntityDiffV {
            location_change: if o@.location != n@.location {
                Some((o@.location, n@.location))
            } else {
                None
            },
            added_traits: minus(n@.traits, o@.traits),
            removed_traits: minus(o@.traits, n@.traits),
            added_beliefs: minus(n@.beliefs, o@.beliefs),
            removed_beliefs: minus(o@.beliefs, n@.beliefs),
            added_relationships: pair_minus(rel_pairs(n@.relationships), rel_pairs(o@.relationships)),
            removed_relationships: pair_minus(rel_pairs(o@.relationships), rel_pairs(n@.relationships)),
            added_inventory: minus(n@.inventory, o@.inventory),
            removed_inventory: minus(o@.inventory, n@.inventory),
            ..old(d)@
        }),
{
    d.added_traits = sorted_minus(&n.traits, &o.traits);
    d.removed_traits = sorted_minus(&o.traits, &n.traits);
    d.added_beliefs = sorted_minus(&n.beliefs, &o.beliefs);
    d.removed_beliefs = sorted_minus(&o.beliefs, &n.beliefs);
    d.added_relationships = sorted_minus_rels(&n.relationships, &o.relationships);
    d.removed_relationships = sorted_minus_rels(&o.relationships, &n.relationships);
    d.added_inventory = sorted_minus(&n.inventory, &o.inventory);
    d.removed_inventory = sorted_minus(&o.inventory, &n.inventory);
    if !opt_eq(&o.location, &n.location) {
        d.location_change = Some((clone_opt(&o.location), clone_opt(&n.location)));
    } else {
        d.location_change = None;
    }
}

/// The diff of one entity between two snapshots.
pub fn diff_entity(old: &Entity, new: &Entity) -> (r: EntityDiff)
    ensures
        r@ == diff_spec(old@, new@),
{
    let mut d = EntityDiff {
        id: owned(old.id()),
        entity_type: owned(old.entity_type()),
        location_change: None,
        added_traits: Vec::new(),
        removed_traits: Vec::new(),
        added_beliefs: Vec::new(),
        removed_beliefs: Vec::new(),
        added_relationships: Vec::new(),
        removed_relationships: Vec::new(),
        added_inventory: Vec::new(),
        removed_inventory: Vec::new(),
    };
    assert(d@.added_traits =~= Seq::<Chars>::empty());
    assert(d@.removed_traits =~= Seq::<Chars>::empty());
    assert(d@.added_beliefs =~= Seq::<Chars>::empty());
    assert(d@.removed_beliefs =~= Seq::<Chars>::empty());
    assert(d@.added_relationships =~= Seq::<(Chars, Chars)>::empty());
    assert(d@.removed_relationships =~= Seq::<(Chars, Chars)>::empty());
    assert(d@.added_inventory =~= Seq::<Chars>::empty());
    assert(d@.removed_inventory =~= Seq::<Chars>::empty());
    match (old, new) {
        (Entity::Character(o), Entity::Character(n)) => {
            diff_characters(&mut d, o, n);
        },
        _ => {},
    }
    d
}

impl EntityDiff {
    /// Whether nothing changed.
    pub fn is_empty(&self) -> (r: bool)
        ensures
            r == diff_is_empty(self@),
    {
        self.location_change.is_none() && self.added_traits.len() == 0 && self.removed_traits.len() == 0
            && self.added_beliefs.len() == 0 && self.removed_beliefs.len() == 0
            && self.added_relationships.len() == 0 && self.removed_relationships.len() == 0
            && self.added_inventory.len() == 0 && self.removed_inventory.len() == 0
    }
}

// ── Snapshot diffs ───────────────────────────────────────────────

pub ghost struct SnapshotDiffV {
    pub chapter: Chars,
    pub added_entities: Seq<Chars>,
    pub removed_entities: Seq<Chars>,
    pub entity_diffs: Seq<EntityDiffV>,
}

impl View for SnapshotDiff {
    type V = SnapshotDiffV;

    open spec fn view(&self) -> SnapshotDiffV {
        SnapshotDiffV {
            chapter: self.chapter@,
            added_entities: views(self.added_entities@),
            removed_entities: views(self.removed_entities@),
            entity_diffs: diff_views(self.entity_diffs@),
        }
    }
}

pub open spec fn ids_of(es: Seq<EntityV>) -> Seq<Chars> {
    es.map_values(|e: EntityV| e.id())
}

pub open spec fn is_in(b: Seq<Chars>) -> spec_fn(Chars) -> bool {
    |x: Chars| b.contains(x)
}

/// The ids present in both lists, sorted, each once.
pub open spec fn common_ids(o: Seq<EntityV>, n: Seq<EntityV>) -> Seq<Chars> {
    sorted_of(ids_of(o).filter(is_in(ids_of(n))))
}

/// The non-empty diffs of the entities with the given ids, in order.
pub open spec fn diffs_for(ids: Seq<Chars>, o: Seq<EntityV>, n: Seq<EntityV>) -> Seq<EntityDiffV>
    decreases ids.len(),
{
    if ids.len() == 0 {
        Seq::empty()
    } else {
        let prev = diffs_for(ids.drop_last(), o, n);
        match (first_with_id(o, ids.last()), first_with_id(n, ids.last())) {
            (Some(a), Some(b)) => if diff_is_empty(diff_spec(a, b)) {
                prev
            } else {
                prev.push(diff_spec(a, b))
            },
            _ => prev,
        }
    }
}

/// The diff from `old` to `new`: ids only in `new`, ids only in `old`,
/// and the non-empty diffs of the entities in both (by sorted id).
pub open spec fn compute_spec(old: SnapshotV, new: SnapshotV) -> SnapshotDiffV {
    SnapshotDiffV {
        chapter: new.position,
        added_entities: minus(ids_of(new.entities), ids_of(old.entities)),
        removed_entities: minus(ids_of(old.entities), ids_of(new.entities)),
        entity_diffs: diffs_for(common_ids(old.entities, new.entities), old.entities, new.entities),
    }
}

// ── Laws of the snapshot diff ────────────────────────────────────

/// Every list has a sorted list of its members without repeats.
pub proof fn lemma_sorted_of_members(s: Seq<Chars>)
    ensures
        sorted_members(sorted_of(s), s),
    decreases s.len(),
{
    if s.len() == 0 {
        let t = Seq::<Chars>::empty();
        assert(sorted_members(t, s));
    } else {
        let s0 = s.drop_last();
        let x = s.last();
        lemma_sorted_of_members(s0);
        let t = sorted_of(s0);
        if t.contains(x) {
            assert forall|y: Chars| t.contains(y) <==> s.contains(y) by {
                if s.contains(y) {
                    let i = choose|i: int| 0 <= i < s.len() && s[i] == y;
                    if i < s.len() - 1 {
                        assert(s0[i] == y);
                    }
                }
                if s0.contains(y) {
                    let i = choose|i: int| 0 <= i < s0.len() && s0[i] == y;
                    assert(s[i] == y);
                }
            }
            assert(sorted_members(t, s));
        } else {
            let k = insert_pos(t, x);
            lemma_insert_pos_props(t, x);
            lemma_sorted_insert(t, x);
            let t2 = t.insert(k, x);
            assert forall|y: Chars| t2.contains(y) <==> s.contains(y) by {
                if t2.contains(y) {
                    let i = choose|i: int| 0 <= i < t2.len() && t2[i] == y;
                    if i < k {
                        assert(t[i] == y);
                    } else if i > k {
                        assert(t[i - 1] == y);
                    }
                    if y != x {
                        assert(s0.contains(y));
                        let j = choose|j: int| 0 <= j < s0.len() && s0[j] == y;
                        assert(s[j] == y);
                    } else {
                        assert(s[s.len() - 1] == y);
                    }
                }
                if s.contains(y) {
                    let i = choose|i: int| 0 <= i < s.len() && s[i] == y;
                    if i < s.len() - 1 {
                        assert(s0[i] == y);
                        assert(t.contains(y));
                        let j = choose|j: int| 0 <= j < t.len() && t[j] == y;
                        if j < k {
                            assert(t2[j] == y);
                        } else {
                            assert(t2[j + 1] == y);
                        }
                    } else {
                        assert(t2[k] == y);
                    }
                }
            }
            assert(sorted_members(t2, s));
        }
        lemma_sorted_of(sorted_of(s0), s0);
    }
}

/// The members of a list that are not in the list itself: none.
proof fn lemma_minus_self(a: Seq<Chars>)
    ensures
        minus(a, a) == Seq::<Chars>::empty(),
{
    let f = a.filter(not_in(a));
    lemma_filter_sub(a, not_in(a));
    if f.len() > 0 {
        assert(f.contains(f[0]));
    }
    lemma_sorted_of(Seq::<Chars>::empty(), f);
}

proof fn lemma_pair_minus_self(a: Seq<(Chars, Chars)>)
    ensures
        pair_minus(a, a) == Seq::<(Chars, Chars)>::empty(),
{
    let f = a.filter(pair_not_in(a));
    lemma_pair_filter_sub(a, pair_not_in(a));
    if f.len() > 0 {
        assert(f.contains(f[0]));
    }
    lemma_sorted_pairs_of(Seq::<(Chars, Chars)>::empty(), f);
}

proof fn lemma_pair_filter_sub(s: Seq<(Chars, Chars)>, p: spec_fn((Chars, Chars)) -> bool)
    ensures
        forall|x: (Chars, Chars)| #[trigger] s.filter(p).contains(x) ==> s.contains(x) && p(x),
    decreases s.len(),
{
    if s.len() > 0 {
        let s0 = s.drop_last();
        assert(s == s0.push(s.last()));
        s0.lemma_filter_push(s.last(), p);
        lemma_pair_filter_sub(s0, p);
        assert forall|x: (Chars, Chars)| #[trigger] s.filter(p).contains(x) implies s.contains(x) && p(x) by {
            let j = choose|j: int| 0 <= j < s.filter(p).len() && s.filter(p)[j] == x;
            if j < s0.filter(p).len() {
                assert(s0.filter(p)[j] == x);
                assert(s0.filter(p).contains(x));
                assert(s0.contains(x));
                let i = choose|i: int| 0 <= i < s0.len() && s0[i] == x;
                assert(s[i] == x);
            } else {
                assert(x == s.last());
            }
        }
    }
}

/// An entity has no changes against itself.
proof fn lemma_diff_self(e: EntityV)
    ensures
        diff_is_empty(diff_spec(e, e)),
{
    match e {
        EntityV::Character(c) => {
            lemma_minus_self(c.traits);
            lemma_minus_self(c.beliefs);
            lemma_minus_self(c.inventory);
            lemma_pair_minus_self(rel_pairs(c.relationships));
        },
        _ => {},
    }
}

proof fn lemma_first_with_id_is(es: Seq<EntityV>, id: Chars)
    ensures
        first_with_id(es, id) matches Some(e) ==> e.id() == id && es.contains(e),
    decreases es.len(),
{
    if es.len() > 0 && es[0].id() != id {
        lemma_first_with_id_is(es.drop_first(), id);
        if first_with_id(es.drop_first(), id) is Some {
            let e = first_with_id(es.drop_first(), id).unwrap();
            let i = choose|i: int| 0 <= i < es.drop_first().len() && es.drop_first()[i] == e;
            assert(es[i + 1] == e);
        }
    }
}

proof fn lemma_diffs_self(ids: Seq<Chars>, o: Seq<EntityV>)
    ensures
        diffs_for(ids, o, o) == Seq::<EntityDiffV>::empty(),
    decreases ids.len(),
{
    if ids.len() > 0 {
        lemma_diffs_self(ids.drop_last(), o);
        if let Some(a) = first_with_id(o, ids.last()) {
            lemma_diff_self(a);
        }
    }
}

proof fn lemma_diffs_shape(ids: Seq<Chars>, o: Seq<EntityV>, n: Seq<EntityV>)
    ensures
        forall|k: int| 0 <= k < diffs_for(ids, o, n).len() ==> !diff_is_empty(#[trigger] diffs_for(ids, o, n)[k])
            && ids.contains(diffs_for(ids, o, n)[k].id),
    decreases ids.len(),
{
    if ids.len() > 0 {
        let ds = diffs_for(ids, o, n);
        let prev = diffs_for(ids.drop_last(), o, n);
        lemma_diffs_shape(ids.drop_last(), o, n);
        lemma_first_with_id_is(o, ids.last());
        assert forall|k: int| 0 <= k < ds.len() implies !diff_is_empty(#[trigger] ds[k]) && ids.contains(ds[k].id) by {
            if k < prev.len() {
                assert(ds[k] == prev[k]);
                let j = choose|j: int| 0 <= j < ids.drop_last().len() && ids.drop_last()[j] == prev[k].id;
                assert(ids[j] == prev[k].id);
            } else {
                assert(ids[ids.len() - 1] == ds[k].id);
            }
        }
    }
}

/// The diff of two snapshots: what one adds the other, read the other way,
/// removes; the added ids are exactly those only in the newer snapshot, in
/// increasing order; every entity diff listed is non-empty and is about an
/// entity present in both; and the diff is stamped with the newer position.
pub proof fn lemma_compute_laws(a: SnapshotV, b: SnapshotV)
    ensures
        compute_spec(a, b).added_entities == compute_spec(b, a).removed_entities,
        compute_spec(a, b).removed_entities == compute_spec(b, a).added_entities,
        strictly_sorted(compute_spec(a, b).added_entities),
        forall|x: Chars| #[trigger] compute_spec(a, b).added_entities.contains(x) <==> ids_of(b.entities).contains(x)
            && !ids_of(a.entities).contains(x),
        forall|k: int| 0 <= k < compute_spec(a, b).entity_diffs.len() ==> !diff_is_empty(
            #[trigger] compute_spec(a, b).entity_diffs[k],
        ) && ids_of(a.entities).contains(compute_spec(a, b).entity_diffs[k].id) && ids_of(b.entities).contains(
            compute_spec(a, b).entity_diffs[k].id,
        ),
        compute_spec(a, b).chapter == b.position,
{
    let ia = ids_of(a.entities);
    let ib = ids_of(b.entities);
    let f = ib.filter(not_in(ia));
    lemma_sorted_of_members(f);
    broadcast use vstd::seq_lib::group_filter_ensures;
    lemma_filter_sub(ib, not_in(ia));
    assert forall|x: Chars| #[trigger] compute_spec(a, b).added_entities.contains(x) <==> ib.contains(x)
        && !ia.contains(x) by {
        if ib.contains(x) && !ia.contains(x) {
            let i = choose|i: int| 0 <= i < ib.len() && ib[i] == x;
            assert(not_in(ia)(ib[i]));
        }
        if f.contains(x) {
            assert(not_in(ia)(x));
        }
    }
    let c = ia.filter(is_in(ib));
    lemma_sorted_of_members(c);
    lemma_filter_sub(ia, is_in(ib));
    let ds = compute_spec(a, b).entity_diffs;
    lemma_diffs_shape(common_ids(a.entities, b.entities), a.entities, b.entities);
    assert forall|k: int| 0 <= k < ds.len() implies !diff_is_empty(#[trigger] ds[k]) && ia.contains(ds[k].id)
        && ib.contains(ds[k].id) by {
        assert(common_ids(a.entities, b.entities).contains(ds[k].id));
        assert(c.contains(ds[k].id));
        assert(is_in(ib)(ds[k].id));
    }
}

/// A snapshot has no differences against itself.
pub proof fn lemma_compute_self_empty(s: SnapshotV)
    ensures
        compute_spec(s, s).added_entities.len() == 0,
        compute_spec(s, s).removed_entities.len() == 0,
        compute_spec(s, s).entity_diffs.len() == 0,
{
    lemma_minus_self(ids_of(s.entities));
    lemma_diffs_self(common_ids(s.entities, s.entities), s.entities);
}

/// What a filter keeps is in the list and meets the predicate.
proof fn lemma_filter_sub(s: Seq<Chars>, p: spec_fn(Chars) -> bool)
    ensures
        forall|x: Chars| #[trigger] s.filter(p).contains(x) ==> s.contains(x) && p(x),
    decreases s.len(),
{
    if s.len() > 0 {
        let s0 = s.drop_last();
        assert(s == s0.push(s.last()));
        s0.lemma_filter_push(s.last(), p);
        lemma_filter_sub(s0, p);
        assert forall|x: Chars| #[trigger] s.filter(p).contains(x) implies s.contains(x) && p(x) by {
            let j = choose|j: int| 0 <= j < s.filter(p).len() && s.filter(p)[j] == x;
            if j < s0.filter(p).len() {
                assert(s0.filter(p)[j] == x);
                assert(s0.filter(p).contains(x));
                assert(s0.contains(x));
                let i = choose|i: int| 0 <= i < s0.len() && s0[i] == x;
                assert(s[i] == x);
            } else {
                assert(x == s.last());
            }
        }
    }
}

fn entity_ids(s: &Snapshot) -> (r: Vec<String>)
    ensures
        views(r@) == ids_of(s@.entities),
{
    let mut r: Vec<String> = Vec::new();
    let mut i: usize = 0;
    while i < s.entities.len()
        invariant
            i <= s.entities@.len(),
            views(r@) == ids_of(s@.entities).take(i as int),
        decreases s.entities@.len() - i,
    {
        let ghost prev = r@;
        r.push(owned(s.entities[i].id()));
        assert(views(r@) =~= views(prev).push(s@.entities[i as int].id()));
        assert(ids_of(s@.entities).take(i + 1) =~= ids_of(s@.entities).take(i as int).push(
            s@.entities[i as int].id(),
        ));
        i += 1;
    }
    assert(ids_of(s@.entities).take(s.entities@.len() as int) =~= ids_of(s@.entities));
    r
}

fn sorted_common(a: &Vec<String>, b: &Vec<String>) -> (r: Vec<String>)
    ensures
        views(r@) == sorted_of(views(a@).filter(is_in(views(b@)))),
{
    let ghost av = views(a@);
    let ghost bv = views(b@);
    let mut r: Vec<String> = Vec::new();
    let mut i: usize = 0;
    while i < a.len()
        invariant
            i <= a@.len(),
            av == views(a@),
            bv == views(b@),
            sorted_members(views(r@), av.take(i as int).filter(is_in(bv))),
        decreases a@.len() - i,
    {
        assert(av.take(i + 1) == av.take(i as int).push(av[i as int]));
        proof { av.take(i as int).lemma_filter_push(av[i as int], is_in(bv)); }
        if contains_str(b, a[i].as_str()) {
            insert_sorted(&mut r, a[i].as_str());
        }
        i += 1;
    }
    assert(av.take(a@.len() as int) == av);
    proof { lemma_sorted_of(views(r@), av.filter(is_in(bv))); }
    r
}

fn first_entity<'a>(s: &'a Snapshot, id: &str) -> (r: Option<&'a Entity>)
    ensures
        match r {
            Some(e) => first_with_id(s@.entities, id@) == Some(e@),
            None => first_with_id(s@.entities, id@) is None,
        },
{
    match s.entity(id) {
        Some(e) => {
            proof {
                let i = choose|i: int|
                    0 <= i < s@.entities.len() && s@.entities[i] == e@ && e@.id() == id@ && forall|j: int|
                        0 <= j < i ==> #[trigger] s@.entities[j].id() != id@;
                lemma_first_with_id(s@.entities, id@, i);
            }
            Some(e)
        },
        None => {
            proof { lemma_first_with_id(s@.entities, id@, s@.entities.len() as int); }
            None
        },
    }
}

impl SnapshotDiff {
    /// The diff between two snapshots.
    pub fn compute(old: &Snapshot, new: &Snapshot) -> (r: SnapshotDiff)
        ensures
            r@ == compute_spec(old@, new@),
    {
        let old_ids = entity_ids(old);
        let new_ids = entity_ids(new);
        let added = sorted_minus(&new_ids, &old_ids);
        let removed = sorted_minus(&old_ids, &new_ids);
        let common = sorted_common(&old_ids, &new_ids);
        let ghost cv = views(common@);
        let mut diffs: Vec<EntityDiff> = Vec::new();
        let mut i: usize = 0;
        while i < common.len()
            invariant
                i <= common@.len(),
                cv == views(common@),
                diff_views(diffs@) == diffs_for(cv.take(i as int), old@.entities, new@.entities),
            decreases common@.len() - i,
        {
            assert(cv.take(i + 1).drop_last() == cv.take(i as int));
            assert(cv.take(i + 1).last() == common@[i as int]@);
            let id = common[i].as_str();
            match (first_entity(old, id), first_entity(new, id)) {
                (Some(a), Some(b)) => {
                    let d = diff_entity(a, b);
                    if !d.is_empty() {
                        let ghost prev = diffs@;
                        diffs.push(d);
                        assert(diff_views(diffs@) =~= diff_views(prev).push(d@));
                    }
                },
                _ => {},
            }
            i += 1;
        }
        assert(cv.take(common@.len() as int) == cv);
        SnapshotDiff { chapter: new.position.clone(), added_entities: added, removed_entities: removed, entity_diffs: diffs }
    }

    /// True if no differences were found.
    pub fn is_empty(&self) -> (r: bool)
        ensures
            r == (self@.added_entities.len() == 0 && self@.removed_entities.len() == 0
                && self@.entity_diffs.len() == 0),
    {
        self.added_entities.len() == 0 && self.removed_entities.len() == 0 && self.entity_diffs.len() == 0
    }
}

// ── Rendering ────────────────────────────────────────────────────

/// `prefix item\n` for each item.
pub open spec fn item_lines(prefix: Chars, items: Seq<Chars>) -> Chars
    decreases items.len(),
{
    if items.len() == 0 {
        Seq::empty()
    } else {
        item_lines(prefix, items.drop_last()) + prefix + items.last() + "\n"@
    }
}

/// `prefix role(target)\n` for each relationship pair.
pub open spec fn rel_lines(prefix: Chars, items: Seq<(Chars, Chars)>) -> Chars
    decreases items.len(),
{
    if items.len() == 0 {
        Seq::empty()
    } else {
        rel_lines(prefix, items.drop_last()) + prefix + items.last().1 + "("@ + items.last().0 + ")\n"@
    }
}

pub open spec fn or_unknown(o: Option<Chars>) -> Chars {
    match o {
        Some(s) => s,
        None => "?"@,
    }
}

pub open spec fn block_head(d: EntityDiffV) -> Chars {
    "  Δ "@ + d.id + " ("@ + d.entity_type + "):\n"@ + match d.location_change {
        Some((a, b)) => "    location: "@ + or_unknown(a) + " → "@ + or_unknown(b) + "\n"@,
        None => Seq::empty(),
    }
}

pub open spec fn block_lists(d: EntityDiffV) -> Chars {
    item_lines("    + trait: "@, d.added_traits) + item_lines("    - trait: "@, d.removed_traits)
        + item_lines("    + belief: "@, d.added_beliefs) + item_lines("    - belief: "@, d.removed_beliefs)
        + rel_lines("    + rel: "@, d.added_relationships) + rel_lines(
        "    - rel: "@,
        d.removed_relationships,
    ) + item_lines("    + item: "@, d.added_inventory) + item_lines("    - item: "@, d.removed_inventory)
}

/// The lines of one entity's diff.
pub open spec fn diff_block(d: EntityDiffV) -> Chars {
    block_head(d) + block_lists(d)
}

pub open spec fn diff_blocks(ds: Seq<EntityDiffV>) -> Chars
    decreases ds.len(),
{
    if ds.len() == 0 {
        Seq::empty()
    } else {
        diff_blocks(ds.drop_last()) + diff_block(ds.last())
    }
}

pub open spec fn render_spec(d: SnapshotDiffV) -> Chars {
    "Diff for "@ + d.chapter + ":\n"@ + if d.added_entities.len() == 0 && d.removed_entities.len() == 0
        && d.entity_diffs.len() == 0 {
        "  (no changes)\n"@
    } else {
        item_lines("  + NEW: "@, d.added_entities) + item_lines("  - GONE: "@, d.removed_entities)
            + diff_blocks(d.entity_diffs)
    }
}

#[verifier::spinoff_prover]
fn push_items(out: &mut String, prefix: &str, items: &Vec<String>)
    ensures
        final(out)@ == old(out)@ + item_lines(prefix@, views(items@)),
{
    let ghost start = out@;
    let ghost iv = views(items@);
    let mut i: usize = 0;
    while i < items.len()
        invariant
            i <= items@.len(),
            iv == views(items@),
            out@ == start + item_lines(prefix@, iv.take(i as int)),
        decreases items@.len() - i,
    {
        assert(iv.take(i + 1).drop_last() == iv.take(i as int));
        push_str(out, prefix);
        push_str(out, items[i].as_str());
        push_str(out, "\n");
        i += 1;
    }
    assert(iv.take(items@.len() as int) == iv);
}

fn push_rels(out: &mut String, prefix: &str, items: &Vec<(String, String)>)
    ensures
        final(out)@ == old(out)@ + rel_lines(prefix@, pair_views(items@)),
{
    let ghost start = out@;
    let ghost iv = pair_views(items@);
    let mut i: usize = 0;
    while i < items.len()
        invariant
            i <= items@.len(),
            iv == pair_views(items@),
            out@ == start + rel_lines(prefix@, iv.take(i as int)),
        decreases items@.len() - i,
    {
        assert(iv.take(i + 1).drop_last() == iv.take(i as int));
        push_str(out, prefix);
        push_str(out, items[i].1.as_str());
        push_str(out, "(");
        push_str(out, items[i].0.as_str());
        push_str(out, ")\n");
        i += 1;
    }
    assert(iv.take(items@.len() as int) == iv);
}

fn push_opt(out: &mut String, o: &Option<String>)
    ensures
        final(out)@ == old(out)@ + or_unknown(ov(*o)),
{
    match o {
        Some(s) => push_str(out, s.as_str()),
        None => push_str(out, "?"),
    }
}

fn push_head(out: &mut String, d: &EntityDiff)
    ensures
        final(out)@ == old(out)@ + block_head(d@),
{
    push_str(out, "  Δ ");
    push_str(out, d.id.as_str());
    push_str(out, " (");
    push_str(out, d.entity_type.as_str());
    push_str(out, "):\n");
    match &d.location_change {
        Some((a, b)) => {
            push_str(out, "    location: ");
            push_opt(out, a);
            push_str(out, " → ");
            push_opt(out, b);
            push_str(out, "\n");
        },
        None => {},
    }
}

#[verifier::rlimit(30)]
fn push_lists(out: &mut String, d: &EntityDiff)
    ensures
        final(out)@ == old(out)@ + block_lists(d@),
{
    let ghost s0 = out@;
    push_items(out, "    + trait: ", &d.added_traits);
    push_items(out, "    - trait: ", &d.removed_traits);
    push_items(out, "    + belief: ", &d.added_beliefs);
    push_items(out, "    - belief: ", &d.removed_beliefs);
    let ghost s1 = out@;
    push_rels(out, "    + rel: ", &d.added_relationships);
    push_rels(out, "    - rel: ", &d.removed_relationships);
    let ghost s2 = out@;
    push_items(out, "    + item: ", &d.added_inventory);
    push_items(out, "    - item: ", &d.removed_inventory);
    assert(out@ =~= s0 + block_lists(d@));
}

fn push_block(out: &mut String, d: &EntityDiff)
    ensures
        final(out)@ == old(out)@ + diff_block(d@),
{
    push_head(out, d);
    push_lists(out, d);
}

/// Entries of `a`, `b` and the diffs' ids, in order.
pub open spec fn changed_spec(d: SnapshotDiffV) -> Seq<Chars> {
    d.added_entities + d.removed_entities + d.entity_diffs.map_values(|e: EntityDiffV| e.id)
}

impl SnapshotDiff {
    /// Render as human-readable text.
    pub fn render(&self) -> (r: String)
        ensures
            r@ == render_spec(self@),
    {
        let mut out = owned("Diff for ");
        push_str(&mut out, self.chapter.as_str());
        push_str(&mut out, ":\n");
        if self.is_empty() {
            push_str(&mut out, "  (no changes)\n");
            return out;
        }
        let ghost head = out@;
        push_items(&mut out, "  + NEW: ", &self.added_entities);
        push_items(&mut out, "  - GONE: ", &self.removed_entities);
        let ghost mid = out@;
        let ghost dv = self@.entity_diffs;
        let mut i: usize = 0;
        while i < self.entity_diffs.len()
            invariant
                i <= self.entity_diffs@.len(),
                dv == self@.entity_diffs,
                out@ == mid + diff_blocks(dv.take(i as int)),
            decreases self.entity_diffs@.len() - i,
        {
            assert(dv.take(i + 1).drop_last() == dv.take(i as int));
            assert(dv[i as int] == self.entity_diffs@[i as int]@);
            push_block(&mut out, &self.entity_diffs[i]);
            i += 1;
        }
        assert(dv.take(dv.len() as int) == dv);
        out
    }

    /// The ids of all entities with any change, sorted, each once.
    pub fn changed_entity_ids(&self) -> (r: Vec<String>)
        ensures
            views(r@) == sorted_of(changed_spec(self@)),
    {
        let ghost all = changed_spec(self@);
        let mut r: Vec<String> = Vec::new();
        let mut i: usize = 0;
        while i < self.added_entities.len()
            invariant
                i <= self.added_entities@.len(),
                sorted_members(views(r@), views(self.added_entities@).take(i as int)),
            decreases self.added_entities@.len() - i,
        {
            assert(views(self.added_entities@).take(i + 1) == views(self.added_entities@).take(i as int).push(
                self.added_entities@[i as int]@,
            ));
            insert_sorted(&mut r, self.added_entities[i].as_str());
            i += 1;
        }
        let ghost a = views(self.added_entities@);
        assert(a.take(a.len() as int) == a);
        let mut j: usize = 0;
        while j < self.removed_entities.len()
            invariant
                j <= self.removed_entities@.len(),
                a == views(self.added_entities@),
                sorted_members(views(r@), a + views(self.removed_entities@).take(j as int)),
            decreases self.removed_entities@.len() - j,
        {
            assert(a + views(self.removed_entities@).take(j + 1) == (a + views(self.removed_entities@).take(
                j as int,
            )).push(self.removed_entities@[j as int]@));
            insert_sorted(&mut r, self.removed_entities[j].as_str());
            j += 1;
        }
        let ghost b = a + views(self.removed_entities@);
        assert(views(self.removed_entities@).take(self.removed_entities@.len() as int) == views(self.removed_entities@));
        let ghost ids = self@.entity_diffs.map_values(|e: EntityDiffV| e.id);
        let mut k: usize = 0;
        while k < self.entity_diffs.len()
            invariant
                k <= self.entity_diffs@.len(),
                ids == self@.entity_diffs.map_values(|e: EntityDiffV| e.id),
                sorted_members(views(r@), b + ids.take(k as int)),
            decreases self.entity_diffs@.len() - k,
        {
            assert(ids[k as int] == self.entity_diffs@[k as int].id@);
            assert(b + ids.take(k + 1) == (b + ids.take(k as int)).push(ids[k as int]));
            insert_sorted(&mut r, self.entity_diffs[k].id.as_str());
            k += 1;
        }
        assert(ids.take(ids.len() as int) == ids);
        assert(b + ids == all);
        proof { lemma_sorted_of(views(r@), all); }
        r
    }
}

/// The members of `a` not in `b`: exactly those, in increasing order.
pub proof fn lemma_minus_members(a: Seq<Chars>, b: Seq<Chars>)
    ensures
        strictly_sorted(minus(a, b)),
        forall|x: Chars| #[trigger] minus(a, b).contains(x) <==> a.contains(x) && !b.contains(x),
{
    let f = a.filter(not_in(b));
    lemma_sorted_of_members(f);
    lemma_filter_sub(a, not_in(b));
    broadcast use vstd::seq_lib::group_filter_ensures;
    assert forall|x: Chars| #[trigger] minus(a, b).contains(x) <==> a.contains(x) && !b.contains(x) by {
        if a.contains(x) && !b.contains(x) {
            let i = choose|i: int| 0 <= i < a.len() && a[i] == x;
            assert(not_in(b)(a[i]));
        }
        if f.contains(x) {
            assert(not_in(b)(x));
        }
    }
}

/// What the diff of two characters lists: a trait, belief or item is
/// added exactly when the new character has it and the old one has not,
/// and removed exactly when the old one has it and the new one has not;
/// each list is in increasing order; the location change is recorded
/// exactly when the locations differ.
pub proof fn lemma_character_diff(o: CharacterV, n: CharacterV)
    ensures
        ({
            let d = diff_spec(EntityV::Character(o), EntityV::Character(n));
            &&& d.id == o.id
            &&& d.location_change == if o.location != n.location {
                Some((o.location, n.location))
            } else {
                None
            }
            &&& forall|x: Chars| #[trigger] d.added_beliefs.contains(x) <==> n.beliefs.contains(x) && !o.beliefs.contains(x)
            &&& forall|x: Chars| #[trigger] d.removed_beliefs.contains(x) <==> o.beliefs.contains(x) && !n.beliefs.contains(x)
            &&& forall|x: Chars| #[trigger] d.added_traits.contains(x) <==> n.traits.contains(x) && !o.traits.contains(x)
            &&& forall|x: Chars| #[trigger] d.removed_traits.contains(x) <==> o.traits.contains(x) && !n.traits.contains(x)
            &&& forall|x: Chars| #[trigger] d.added_inventory.contains(x) <==> n.inventory.contains(x)
                && !o.inventory.contains(x)
            &&& forall|x: Chars| #[trigger] d.removed_inventory.contains(x) <==> o.inventory.contains(x)
                && !n.inventory.contains(x)
            &&& strictly_sorted(d.added_beliefs) && strictly_sorted(d.removed_beliefs)
            &&& strictly_sorted(d.added_traits) && strictly_sorted(d.removed_traits)
            &&& strictly_sorted(d.added_inventory) && strictly_sorted(d.removed_inventory)
        }),
{
    lemma_minus_members(n.beliefs, o.beliefs);
    lemma_minus_members(o.beliefs, n.beliefs);
    lemma_minus_members(n.traits, o.traits);
    lemma_minus_members(o.traits, n.traits);
    lemma_minus_members(n.inventory, o.inventory);
    lemma_minus_members(o.inventory, n.inventory);
}

/// Where a pair goes in a list of pairs: after the run of smaller ones.
pub open spec fn pair_insert_pos(t: Seq<(Chars, Chars)>, x: (Chars, Chars)) -> int
    decreases t.len(),
{
    if t.len() == 0 {
        0
    } else if pair_lt(t[0], x) {
        1 + pair_insert_pos(t.drop_first(), x)
    } else {
        0
    }
}

proof fn lemma_pair_insert_pos_props(t: Seq<(Chars, Chars)>, x: (Chars, Chars))
    requires
        strictly_sorted_pairs(t),
        !t.contains(x),
    ensures
        0 <= pair_insert_pos(t, x) <= t.len(),
        forall|j: int| 0 <= j < pair_insert_pos(t, x) ==> pair_lt(#[trigger] t[j], x),
        forall|j: int| pair_insert_pos(t, x) <= j < t.len() ==> pair_lt(x, #[trigger] t[j]),
    decreases t.len(),
{
    if t.len() > 0 {
        let r = t.drop_first();
        assert forall|a: int, b: int| 0 <= a < b < r.len() implies pair_lt(#[trigger] r[a], #[trigger] r[b]) by {
            assert(r[a] == t[a + 1] && r[b] == t[b + 1]);
        }
        assert(!r.contains(x)) by {
            if r.contains(x) {
                let j = choose|j: int| 0 <= j < r.len() && r[j] == x;
                assert(t[j + 1] == x);
            }
        }
        lemma_pair_insert_pos_props(r, x);
        assert forall|j: int| 0 < j < t.len() implies t[j] == r[j - 1] by {}
        if !pair_lt(t[0], x) {
            assert(t[0] != x);
            lemma_pair_order(t[0], x, t[0]);
            assert forall|j: int| 0 <= j < t.len() implies pair_lt(x, #[trigger] t[j]) by {
                if j > 0 {
                    lemma_pair_order(x, t[0], t[j]);
                }
            }
        }
    }
}

/// Every list of pairs has a sorted list of its members without repeats.
pub proof fn lemma_sorted_pairs_of_members(s: Seq<(Chars, Chars)>)
    ensures
        sorted_pair_members(sorted_pairs_of(s), s),
    decreases s.len(),
{
    if s.len() == 0 {
        let t = Seq::<(Chars, Chars)>::empty();
        assert(sorted_pair_members(t, s));
    } else {
        let s0 = s.drop_last();
        let x = s.last();
        lemma_sorted_pairs_of_members(s0);
        let t = sorted_pairs_of(s0);
        if t.contains(x) {
            assert forall|y: (Chars, Chars)| t.contains(y) <==> s.contains(y) by {
                if s.contains(y) {
                    let i = choose|i: int| 0 <= i < s.len() && s[i] == y;
                    if i < s.len() - 1 {
                        assert(s0[i] == y);
                    }
                }
                if s0.contains(y) {
                    let i = choose|i: int| 0 <= i < s0.len() && s0[i] == y;
                    assert(s[i] == y);
                }
            }
            assert(sorted_pair_members(t, s));
        } else {
            let k = pair_insert_pos(t, x);
            lemma_pair_insert_pos_props(t, x);
            let t2 = t.insert(k, x);
            assert forall|i: int, j: int| 0 <= i < j < t2.len() implies pair_lt(#[trigger] t2[i], #[trigger] t2[j]) by {
                if j < k {
                    assert(t2[i] == t[i] && t2[j] == t[j]);
                } else if j == k {
                    assert(t2[i] == t[i]);
                } else if i < k {
                    assert(t2[i] == t[i]);
                    assert(t2[j] == t[j - 1]);
                    lemma_pair_order(t[i], x, t[j - 1]);
                } else if i == k {
                    assert(t2[j] == t[j - 1]);
                } else {
                    assert(t2[i] == t[i - 1]);
                    assert(t2[j] == t[j - 1]);
                }
            }
            assert forall|y: (Chars, Chars)| t2.contains(y) <==> s.contains(y) by {
                if t2.contains(y) {
                    let i = choose|i: int| 0 <= i < t2.len() && t2[i] == y;
                    if i < k {
                        assert(t[i] == y);
                    } else if i > k {
                        assert(t[i - 1] == y);
                    }
                    if y != x {
                        assert(s0.contains(y));
                        let j = choose|j: int| 0 <= j < s0.len() && s0[j] == y;
                        assert(s[j] == y);
                    } else {
                        assert(s[s.len() - 1] == y);
                    }
                }
                if s.contains(y) {
                    let i = choose|i: int| 0 <= i < s.len() && s[i] == y;
                    if i < s.len() - 1 {
                        assert(s0[i] == y);
                        assert(t.contains(y));
                        let j = choose|j: int| 0 <= j < t.len() && t[j] == y;
                        if j < k {
                            assert(t2[j] == y);
                        } else {
                            assert(t2[j + 1] == y);
                        }
                    } else {
                        assert(t2[k] == y);
                    }
                }
            }
            assert(sorted_pair_members(t2, s));
        }
        lemma_sorted_pairs_of(sorted_pairs_of(s0), s0);
    }
}

/// The pairs of `a` not in `b`: exactly those, in increasing order.
pub proof fn lemma_pair_minus_members(a: Seq<(Chars, Chars)>, b: Seq<(Chars, Chars)>)
    ensures
        strictly_sorted_pairs(pair_minus(a, b)),
        forall|x: (Chars, Chars)| #[trigger] pair_minus(a, b).contains(x) <==> a.contains(x) && !b.contains(x),
{
    let f = a.filter(pair_not_in(b));
    lemma_sorted_pairs_of_members(f);
    lemma_pair_filter_sub(a, pair_not_in(b));
    broadcast use vstd::seq_lib::group_filter_ensures;
    assert forall|x: (Chars, Chars)| #[trigger] pair_minus(a, b).contains(x) <==> a.contains(x) && !b.contains(x) by {
        if a.contains(x) && !b.contains(x) {
            let i = choose|i: int| 0 <= i < a.len() && a[i] == x;
            assert(pair_not_in(b)(a[i]));
        }
        if f.contains(x) {
            assert(pair_not_in(b)(x));
        }
    }
}

/// A relationship (target, role) is added exactly when the new character
/// has it and the old one has not, and removed exactly in the other case,
/// each list in increasing order.
pub proof fn lemma_character_rel_diff(o: CharacterV, n: CharacterV)
    ensures
        ({
            let d = diff_spec(EntityV::Character(o), EntityV::Character(n));
            &&& forall|x: (Chars, Chars)| #[trigger] d.added_relationships.contains(x) <==> rel_pairs(
                n.relationships,
            ).contains(x) && !rel_pairs(o.relationships).contains(x)
            &&& forall|x: (Chars, Chars)| #[trigger] d.removed_relationships.contains(x) <==> rel_pairs(
                o.relationships,
            ).contains(x) && !rel_pairs(n.relationships).contains(x)
            &&& strictly_sorted_pairs(d.added_relationships) && strictly_sorted_pairs(d.removed_relationships)
        }),
{
    lemma_pair_minus_members(rel_pairs(n.relationships), rel_pairs(o.relationships));
    lemma_pair_minus_members(rel_pairs(o.relationships), rel_pairs(n.relationships));
}

proof fn lemma_diffs_complete(ids: Seq<Chars>, o: Seq<EntityV>, n: Seq<EntityV>, x: Chars)
    requires
        ids.contains(x),
        first_with_id(o, x) is Some,
        first_with_id(n, x) is Some,
        !diff_is_empty(diff_spec(first_with_id(o, x).unwrap(), first_with_id(n, x).unwrap())),
    ensures
        diffs_for(ids, o, n).contains(diff_spec(first_with_id(o, x).unwrap(), first_with_id(n, x).unwrap())),
    decreases ids.len(),
{
    let d = diff_spec(first_with_id(o, x).unwrap(), first_with_id(n, x).unwrap());
    let prev = diffs_for(ids.drop_last(), o, n);
    if ids.last() == x {
        assert(diffs_for(ids, o, n) == prev.push(d));
        assert(diffs_for(ids, o, n)[prev.len() as int] == d);
    } else {
        let i = choose|i: int| 0 <= i < ids.len() && ids[i] == x;
        assert(ids.drop_last()[i] == x);
        lemma_diffs_complete(ids.drop_last(), o, n, x);
        let j = choose|j: int| 0 <= j < prev.len() && prev[j] == d;
        assert(diffs_for(ids, o, n)[j] == d);
    }
}

/// Every entity present in both snapshots whose first record changed is
/// reported: its diff is among the entity diffs.
pub proof fn lemma_compute_reports_changes(a: SnapshotV, b: SnapshotV, x: Chars)
    requires
        first_with_id(a.entities, x) is Some,
        first_with_id(b.entities, x) is Some,
        !diff_is_empty(diff_spec(first_with_id(a.entities, x).unwrap(), first_with_id(b.entities, x).unwrap())),
    ensures
        compute_spec(a, b).entity_diffs.contains(
            diff_spec(first_with_id(a.entities, x).unwrap(), first_with_id(b.entities, x).unwrap()),
        ),
{
    let ia = ids_of(a.entities);
    let ib = ids_of(b.entities);
    lemma_first_with_id_is(a.entities, x);
    lemma_first_with_id_is(b.entities, x);
    let ea = first_with_id(a.entities, x).unwrap();
    let eb = first_with_id(b.entities, x).unwrap();
    let i = choose|i: int| 0 <= i < a.entities.len() && a.entities[i] == ea;
    let j = choose|j: int| 0 <= j < b.entities.len() && b.entities[j] == eb;
    assert(ia[i] == x);
    assert(ib[j] == x);
    let c = ia.filter(is_in(ib));
    broadcast use vstd::seq_lib::group_filter_ensures;
    assert(is_in(ib)(ia[i]));
    assert(c.contains(x));
    lemma_sorted_of_members(c);
    lemma_diffs_complete(common_ids(a.entities, b.entities), a.entities, b.entities, x);
}

} // verus!
