//! Entity schemas (character, location, faction) and their translation
//! into Datalog fact lines.
use vstd::prelude::*;

use crate::goal::{Goal, GoalV, duplicate_goals, goal_views, ov};
use crate::text::{
    Chars, clone_opt, clone_strs, contains_str, int_dec, push_int, push_quoted, push_str, quoted,
    views,
};

verus! {

broadcast use vstd::seq_lib::group_seq_properties;

/// A relationship edge to another entity, with three emotion axes
/// (trust, affinity, respect), each from -3 to +3.
#[derive(Debug)]
pub struct Relationship {
    pub target: String,
    /// Social role label.
    pub role: String,
    pub trust: i8,
    pub affinity: i8,
    pub respect: i8,
}

pub ghost struct RelationshipV {
    pub target: Chars,
    pub role: Chars,
    pub trust: i8,
    pub affinity: i8,
    pub respect: i8,
}

impl View for Relationship {
    type V = RelationshipV;

    open spec fn view(&self) -> RelationshipV {
        RelationshipV {
            target: self.target@,
            role: self.role@,
            trust: self.trust,
            affinity: self.affinity,
            respect: self.respect,
        }
    }
}

impl Relationship {
    pub fn duplicate(&self) -> (r: Relationship)
        ensures
            r@ == self@,
    {
        Relationship {
            target: self.target.clone(),
            role: self.role.clone(),
            trust: self.trust,
            affinity: self.affinity,
            respect: self.respect,
        }
    }
}

pub open spec fn rel_views(rs: Seq<Relationship>) -> Seq<RelationshipV> {
    rs.map_values(|r: Relationship| r@)
}

pub fn duplicate_rels(rs: &Vec<Relationship>) -> (r: Vec<Relationship>)
    ensures
        rel_views(r@) == rel_views(rs@),
{
    let mut r: Vec<Relationship> = Vec::new();
    let mut i: usize = 0;
    while i < rs.len()
        invariant
            i <= rs@.len(),
            rel_views(r@) == rel_views(rs@.take(i as int)),
        decreases rs@.len() - i,
    {
        let ghost prev = r@;
        r.push(rs[i].duplicate());
        assert(rs@.take(i + 1) == rs@.take(i as int).push(rs@[i as int]));
        assert(rel_views(r@) =~= rel_views(prev).push(rs@[i as int]@));
        assert(rel_views(rs@.take(i + 1)) =~= rel_views(rs@.take(i as int)).push(rs@[i as int]@));
        i += 1;
    }
    assert(rs@.take(rs@.len() as int) == rs@);
    r
}

#[derive(Debug)]
pub struct Character {
    pub id: String,
    pub name: Option<String>,
    pub traits: Vec<String>,
    pub beliefs: Vec<String>,
    pub desires: Vec<String>,
    pub intentions: Vec<String>,
    pub location: Option<String>,
    pub relationships: Vec<Relationship>,
    pub inventory: Vec<String>,
    pub goals: Vec<Goal>,
    pub tags: Vec<String>,
    pub description: Option<String>,
}

pub ghost struct CharacterV {
    pub id: Chars,
    pub name: Option<Chars>,
    pub traits: Seq<Chars>,
    pub beliefs: Seq<Chars>,
    pub desires: Seq<Chars>,
    pub intentions: Seq<Chars>,
    pub location: Option<Chars>,
    pub relationships: Seq<RelationshipV>,
    pub inventory: Seq<Chars>,
    pub goals: Seq<GoalV>,
    pub tags: Seq<Chars>,
    pub description: Option<Chars>,
}

impl View for Character {
    type V = CharacterV;

    open spec fn view(&self) -> CharacterV {
        CharacterV {
            id: self.id@,
            name: ov(self.name),
            traits: views(self.traits@),
            beliefs: views(self.beliefs@),
            desires: views(self.desires@),
            intentions: views(self.intentions@),
            location: ov(self.location),
            relationships: rel_views(self.relationships@),
            inventory: views(self.inventory@),
            goals: goal_views(self.goals@),
            tags: views(self.tags@),
            description: ov(self.description),
        }
    }
}

#[derive(Debug)]
pub struct Location {
    pub id: String,
    pub name: Option<String>,
    pub properties: Vec<String>,
    pub connections: Vec<String>,
    pub tags: Vec<String>,
    pub description: Option<String>,
}

pub ghost struct LocationV {
    pub id: Chars,
    pub name: Option<Chars>,
    pub properties: Seq<Chars>,
    pub connections: Seq<Chars>,
    pub tags: Seq<Chars>,
    pub description: Option<Chars>,
}

impl View for Location {
    type V = LocationV;

    open spec fn view(&self) -> LocationV {
        LocationV {
            id: self.id@,
            name: ov(self.name),
            properties: views(self.properties@),
            connections: views(self.connections@),
            tags: views(self.tags@),
            description: ov(self.description),
        }
    }
}

#[derive(Debug)]
pub struct Faction {
    pub id: String,
    pub name: Option<String>,
    pub alignment: Option<String>,
    pub rivals: Vec<String>,
    pub members: Vec<String>,
    pub tags: Vec<String>,
    pub description: Option<String>,
}

pub ghost struct FactionV {
    pub id: Chars,
    pub name: Option<Chars>,
    pub alignment: Option<Chars>,
    pub rivals: Seq<Chars>,
    pub members: Seq<Chars>,
    pub tags: Seq<Chars>,
    pub description: Option<Chars>,
}

impl View for Faction {
    type V = FactionV;

    open spec fn view(&self) -> FactionV {
        FactionV {
            id: self.id@,
            name: ov(self.name),
            alignment: ov(self.alignment),
            rivals: views(self.rivals@),
            members: views(self.members@),
            tags: views(self.tags@),
            description: ov(self.description),
        }
    }
}

/// An entity of the world; each variant holds only its own fields.
#[derive(Debug)]
pub enum Entity {
    Character(Character),
    Location(Location),
    Faction(Faction),
}

pub ghost enum EntityV {
    Character(CharacterV),
    Location(LocationV),
    Faction(FactionV),
}

impl View for Entity {
    type V = EntityV;

    open spec fn view(&self) -> EntityV {
        match self {
            Entity::Character(c) => EntityV::Character(c@),
            Entity::Location(l) => EntityV::Location(l@),
            Entity::Faction(f) => EntityV::Faction(f@),
        }
    }
}

pub open spec fn entity_views(es: Seq<Entity>) -> Seq<EntityV> {
    es.map_values(|e: Entity| e@)
}

impl Character {
    pub fn duplicate(&self) -> (r: Character)
        ensures
            r@ == self@,
    {
        Character {
            id: self.id.clone(),
            name: clone_opt(&self.name),
            traits: clone_strs(&self.traits),
            beliefs: clone_strs(&self.beliefs),
            desires: clone_strs(&self.desires),
            intentions: clone_strs(&self.intentions),
            location: clone_opt(&self.location),
            relationships: duplicate_rels(&self.relationships),
            inventory: clone_strs(&self.inventory),
            goals: duplicate_goals(&self.goals),
            tags: clone_strs(&self.tags),
            description: clone_opt(&self.description),
        }
    }
}

impl Entity {
    pub fn duplicate(&self) -> (r: Entity)
        ensures
            r@ == self@,
    {
        match self {
            Entity::Character(c) => Entity::Character(c.duplicate()),
            Entity::Location(l) => Entity::Location(
                Location {
                    id: l.id.clone(),
                    name: clone_opt(&l.name),
                    properties: clone_strs(&l.properties),
                    connections: clone_strs(&l.connections),
                    tags: clone_strs(&l.tags),
                    description: clone_opt(&l.description),
                },
            ),
            Entity::Faction(f) => Entity::Faction(
                Faction {
                    id: f.id.clone(),
                    name: clone_opt(&f.name),
                    alignment: clone_opt(&f.alignment),
                    rivals: clone_strs(&f.rivals),
                    members: clone_strs(&f.members),
                    tags: clone_strs(&f.tags),
                    description: clone_opt(&f.description),
                },
            ),
        }
    }
}

/// Copies a list of entities.
pub fn duplicate_entities(es: &Vec<Entity>) -> (r: Vec<Entity>)
    ensures
        entity_views(r@) == entity_views(es@),
{
    let mut r: Vec<Entity> = Vec::new();
    let mut i: usize = 0;
    while i < es.len()
        invariant
            i <= es@.len(),
            entity_views(r@) == entity_views(es@.take(i as int)),
        decreases es@.len() - i,
    {
        let ghost prev = r@;
        r.push(es[i].duplicate());
        assert(es@.take(i + 1) == es@.take(i as int).push(es@[i as int]));
        assert(entity_views(r@) =~= entity_views(prev).push(es@[i as int]@));
        assert(entity_views(es@.take(i + 1)) =~= entity_views(es@.take(i as int)).push(
            es@[i as int]@,
        ));
        i += 1;
    }
    assert(es@.take(es@.len() as int) == es@);
    r
}

// ── Common accessors ─────────────────────────────────────────────

impl EntityV {
    pub open spec fn id(self) -> Chars {
        match self {
            EntityV::Character(c) => c.id,
            EntityV::Location(l) => l.id,
            EntityV::Faction(f) => f.id,
        }
    }

    pub open spec fn name(self) -> Option<Chars> {
        match self {
            EntityV::Character(c) => c.name,
            EntityV::Location(l) => l.name,
            EntityV::Faction(f) => f.name,
        }
    }

    pub open spec fn kind_name(self) -> Chars {
        match self {
            EntityV::Character(_) => "character"@,
            EntityV::Location(_) => "location"@,
            EntityV::Faction(_) => "faction"@,
        }
    }

    pub open spec fn tags(self) -> Seq<Chars> {
        match self {
            EntityV::Character(c) => c.tags,
            EntityV::Location(l) => l.tags,
            EntityV::Faction(f) => f.tags,
        }
    }

    pub open spec fn description(self) -> Option<Chars> {
        match self {
            EntityV::Character(c) => c.description,
            EntityV::Location(l) => l.description,
            EntityV::Faction(f) => f.description,
        }
    }

    pub open spec fn with_description(self, d: Option<Chars>) -> EntityV {
        match self {
            EntityV::Character(c) => EntityV::Character(CharacterV { description: d, ..c }),
            EntityV::Location(l) => EntityV::Location(LocationV { description: d, ..l }),
            EntityV::Faction(f) => EntityV::Faction(FactionV { description: d, ..f }),
        }
    }
}

impl Entity {
    pub fn id(&self) -> (r: &str)
        ensures
            r@ == self@.id(),
    {
        match self {
            Entity::Character(c) => c.id.as_str(),
            Entity::Location(l) => l.id.as_str(),
            Entity::Faction(f) => f.id.as_str(),
        }
    }

    pub fn name(&self) -> (r: Option<&str>)
        ensures
            r matches Some(s) ==> self@.name() == Some(s@),
            r is None ==> self@.name() is None,
    {
        let n = match self {
            Entity::Character(c) => &c.name,
            Entity::Location(l) => &l.name,
            Entity::Faction(f) => &f.name,
        };
        match n {
            Some(s) => Some(s.as_str()),
            None => None,
        }
    }

    pub fn entity_type(&self) -> (r: &'static str)
        ensures
            r@ == self@.kind_name(),
    {
        match self {
            Entity::Character(_) => "character",
            Entity::Location(_) => "location",
            Entity::Faction(_) => "faction",
        }
    }

    pub fn tags(&self) -> (r: &Vec<String>)
        ensures
            views(r@) == self@.tags(),
    {
        match self {
            Entity::Character(c) => &c.tags,
            Entity::Location(l) => &l.tags,
            Entity::Faction(f) => &f.tags,
        }
    }

    pub fn description(&self) -> (r: Option<&str>)
        ensures
            r matches Some(s) ==> self@.description() == Some(s@),
            r is None ==> self@.description() is None,
    {
        let d = match self {
            Entity::Character(c) => &c.description,
            Entity::Location(l) => &l.description,
            Entity::Faction(f) => &f.description,
        };
        match d {
            Some(s) => Some(s.as_str()),
            None => None,
        }
    }

    pub fn set_description(&mut self, desc: Option<String>)
        ensures
            final(self)@ == old(self)@.with_description(ov(desc)),
    {
        match self {
            Entity::Character(c) => c.description = desc,
            Entity::Location(l) => l.description = desc,
            Entity::Faction(f) => f.description = desc,
        }
    }

    pub fn is_character(&self) -> (r: bool)
        ensures
            r == self@ is Character,
    {
        matches!(self, Entity::Character(_))
    }

    pub fn is_location(&self) -> (r: bool)
        ensures
            r == self@ is Location,
    {
        matches!(self, Entity::Location(_))
    }

    pub fn is_faction(&self) -> (r: bool)
        ensures
            r == self@ is Faction,
    {
        matches!(self, Entity::Faction(_))
    }

    pub fn as_character(&self) -> (r: Option<&Character>)
        ensures
            r matches Some(c) ==> self@ == EntityV::Character(c@),
            r is None ==> !(self@ is Character),
    {
        match self {
            Entity::Character(c) => Some(c),
            _ => None,
        }
    }

    /// The character, for changing in place.
    pub fn as_character_mut(&mut self) -> (r: Option<&mut Character>)
        ensures
            match r {
                Some(c) => *old(self) == Entity::Character(*c) && *final(self) == Entity::Character(*final(c)),
                None => !(old(self)@ is Character) && *final(self) == *old(self),
            },
    {
        match self {
            Entity::Character(c) => Some(c),
            _ => None,
        }
    }

    pub fn as_location(&self) -> (r: Option<&Location>)
        ensures
            r matches Some(l) ==> self@ == EntityV::Location(l@),
            r is None ==> !(self@ is Location),
    {
        match self {
            Entity::Location(l) => Some(l),
            _ => None,
        }
    }

    pub fn as_faction(&self) -> (r: Option<&Faction>)
        ensures
            r matches Some(f) ==> self@ == EntityV::Faction(f@),
            r is None ==> !(self@ is Faction),
    {
        match self {
            Entity::Faction(f) => Some(f),
            _ => None,
        }
    }
}

// ── Datalog translation ──────────────────────────────────────────

/// `pred(a, b).`
pub open spec fn fact2(pred: Chars, a: Chars, b: Chars) -> Chars {
    pred + "("@ + a + ", "@ + b + ")."@
}

/// `pred(a, b, c).`
pub open spec fn fact3(pred: Chars, a: Chars, b: Chars, c: Chars) -> Chars {
    pred + "("@ + a + ", "@ + b + ", "@ + c + ")."@
}

/// `pred(a).`
pub open spec fn fact1(pred: Chars, a: Chars) -> Chars {
    pred + "("@ + a + ")."@
}

/// One `pred(id, quoted(item)).` fact per item.
pub open spec fn item_facts(pred: Chars, id: Chars, items: Seq<Chars>) -> Seq<Chars> {
    items.map_values(|t: Chars| fact2(pred, id, quoted(t)))
}

/// Facts for the relationships of character `id`.
pub open spec fn rel_facts(id: Chars, rs: Seq<RelationshipV>) -> Seq<Chars>
    decreases rs.len(),
{
    if rs.len() == 0 {
        Seq::empty()
    } else {
        let r = rs.last();
        rel_facts(id, rs.drop_last()) + seq![
            fact3("role"@, id, r.target, quoted(r.role)),
            fact3("trust"@, id, r.target, int_dec(r.trust as int)),
            fact3("affinity"@, id, r.target, int_dec(r.affinity as int)),
            fact3("respect"@, id, r.target, int_dec(r.respect as int)),
        ]
    }
}

/// Two `connected` facts (both directions) per connection.
pub open spec fn conn_facts(id: Chars, cs: Seq<Chars>) -> Seq<Chars>
    decreases cs.len(),
{
    if cs.len() == 0 {
        Seq::empty()
    } else {
        conn_facts(id, cs.drop_last()) + seq![
            fact2("connected"@, id, cs.last()),
            fact2("connected"@, cs.last(), id),
        ]
    }
}

pub open spec fn opt_fact(pred: Chars, id: Chars, o: Option<Chars>, quote_it: bool) -> Seq<Chars> {
    match o {
        Some(v) => seq![fact2(pred, id, if quote_it { quoted(v) } else { v })],
        None => Seq::empty(),
    }
}

pub open spec fn character_tail(c: CharacterV) -> Seq<Chars> {
    let id = c.id;
    seq![fact1("character"@, id)] + item_facts("trait"@, id, c.traits) + item_facts(
        "believes"@,
        id,
        c.beliefs,
    ) + item_facts("desires"@, id, c.desires) + item_facts("intends"@, id, c.intentions)
        + opt_fact("at"@, id, c.location, false) + rel_facts(id, c.relationships) + item_facts(
        "has"@,
        id,
        c.inventory,
    ) + opt_fact("name"@, id, c.name, true)
}

pub open spec fn location_tail(l: LocationV) -> Seq<Chars> {
    let id = l.id;
    seq![fact1("location"@, id)] + item_facts("property"@, id, l.properties) + conn_facts(
        id,
        l.connections,
    ) + opt_fact("name"@, id, l.name, true)
}

pub open spec fn faction_tail(f: FactionV) -> Seq<Chars> {
    let id = f.id;
    seq![fact1("faction"@, id)] + opt_fact("alignment"@, id, f.alignment, true)
        + f.rivals.map_values(|r: Chars| fact2("rival"@, id, r)) + f.members.map_values(
        |m: Chars| fact2("member"@, m, id),
    ) + opt_fact("name"@, id, f.name, true)
}

/// The Datalog fact lines of an entity.
pub open spec fn entity_facts(e: EntityV) -> Seq<Chars> {
    seq![fact2("entity"@, e.id(), e.kind_name())] + match e {
        EntityV::Character(c) => character_tail(c),
        EntityV::Location(l) => location_tail(l),
        EntityV::Faction(f) => faction_tail(f),
    }
}

/// Builds `pred(a, b).` with `b` quoted when asked.
pub(crate) fn make_fact2(pred: &str, a: &str, b: &str, quote_b: bool) -> (r: String)
    ensures
        r@ == fact2(pred@, a@, if quote_b { quoted(b@) } else { b@ }),
{
    let mut s = String::new();
    push_str(&mut s, pred);
    push_str(&mut s, "(");
    push_str(&mut s, a);
    push_str(&mut s, ", ");
    if quote_b {
        push_quoted(&mut s, b);
    } else {
        push_str(&mut s, b);
    }
    push_str(&mut s, ").");
    s
}

pub(crate) fn make_fact1(pred: &str, a: &str) -> (r: String)
    ensures
        r@ == fact1(pred@, a@),
{
    let mut s = String::new();
    push_str(&mut s, pred);
    push_str(&mut s, "(");
    push_str(&mut s, a);
    push_str(&mut s, ").");
    s
}

fn make_num_fact(pred: &str, a: &str, b: &str, n: i8) -> (r: String)
    ensures
        r@ == fact3(pred@, a@, b@, int_dec(n as int)),
{
    let mut s = String::new();
    push_str(&mut s, pred);
    push_str(&mut s, "(");
    push_str(&mut s, a);
    push_str(&mut s, ", ");
    push_str(&mut s, b);
    push_str(&mut s, ", ");
    push_int(&mut s, n as i64);
    push_str(&mut s, ").");
    s
}

/// Pushes one `pred(id, item).` per item (the item quoted when asked).
fn push_item_facts(out: &mut Vec<String>, pred: &str, id: &str, items: &Vec<String>, quote_it: bool)
    ensures
        views(final(out)@) == views(old(out)@) + items@.map_values(
            |t: String| fact2(pred@, id@, if quote_it { quoted(t@) } else { t@ }),
        ),
{
    let ghost start = views(out@);
    let ghost f = |t: String| fact2(pred@, id@, if quote_it { quoted(t@) } else { t@ });
    let mut i: usize = 0;
    while i < items.len()
        invariant
            i <= items@.len(),
            views(out@) == start + items@.take(i as int).map_values(f),
            f == (|t: String| fact2(pred@, id@, if quote_it { quoted(t@) } else { t@ })),
        decreases items@.len() - i,
    {
        let fact = make_fact2(pred, id, items[i].as_str(), quote_it);
        let ghost prev = out@;
        out.push(fact);
        assert(views(out@) =~= views(prev).push(f(items@[i as int])));
        assert(items@.take(i + 1).map_values(f) =~= items@.take(i as int).map_values(f).push(
            f(items@[i as int]),
        ));
        i += 1;
    }
    assert(items@.take(items@.len() as int) == items@);
}

proof fn lemma_item_facts(pred: Chars, id: Chars, items: Seq<String>)
    ensures
        items.map_values(|t: String| fact2(pred, id, quoted(t@))) == item_facts(pred, id, views(items)),
{
    assert(items.map_values(|t: String| fact2(pred, id, quoted(t@))) =~= item_facts(pred, id, views(items)));
}

fn push_opt_fact(out: &mut Vec<String>, pred: &str, id: &str, o: &Option<String>, quote_it: bool)
    ensures
        views(final(out)@) == views(old(out)@) + opt_fact(pred@, id@, ov(*o), quote_it),
{
    if let Some(v) = o {
        let ghost prev = out@;
        out.push(make_fact2(pred, id, v.as_str(), quote_it));
        assert(views(out@) =~= views(prev) + opt_fact(pred@, id@, ov(*o), quote_it));
    } else {
        assert(opt_fact(pred@, id@, ov(*o), quote_it) =~= Seq::<Chars>::empty());
    }
}

pub(crate) fn push_one(out: &mut Vec<String>, s: String)
    ensures
        views(final(out)@) == views(old(out)@).push(s@),
{
    let ghost prev = out@;
    out.push(s);
    assert(views(out@) =~= views(prev).push(s@));
}

fn push_rel_facts(facts: &mut Vec<String>, id: &str, rels: &Vec<Relationship>)
    ensures
        views(final(facts)@) == views(old(facts)@) + rel_facts(id@, rel_views(rels@)),
{
    let ghost before = views(facts@);
    let mut i: usize = 0;
    while i < rels.len()
        invariant
            i <= rels@.len(),
            views(facts@) == before + rel_facts(id@, rel_views(rels@).take(i as int)),
        decreases rels@.len() - i,
    {
        let r = &rels[i];
        let ghost rv = rel_views(rels@);
        assert(rv.take(i + 1).drop_last() == rv.take(i as int));
        assert(rv.take(i + 1).last() == r@);
        let mut f = String::new();
        push_str(&mut f, "role");
        push_str(&mut f, "(");
        push_str(&mut f, id);
        push_str(&mut f, ", ");
        push_str(&mut f, r.target.as_str());
        push_str(&mut f, ", ");
        push_quoted(&mut f, r.role.as_str());
        push_str(&mut f, ").");
        let ghost f0 = f@;
        push_one(facts, f);
        let t = make_num_fact("trust", id, r.target.as_str(), r.trust);
        push_one(facts, t);
        let a = make_num_fact("affinity", id, r.target.as_str(), r.affinity);
        push_one(facts, a);
        let p = make_num_fact("respect", id, r.target.as_str(), r.respect);
        push_one(facts, p);
        assert(f0 == fact3("role"@, id@, r@.target, quoted(r@.role)));
        assert(views(facts@) =~= before + rel_facts(id@, rv.take(i + 1)));
        i += 1;
    }
    assert(rel_views(rels@).take(rels@.len() as int) == rel_views(rels@));
}

fn push_character_facts(facts: &mut Vec<String>, c: &Character)
    ensures
        views(final(facts)@) == views(old(facts)@) + character_tail(c@),
{
    let ghost start = views(facts@);
    let id = c.id.as_str();
    push_one(facts, make_fact1("character", id));
    push_item_facts(facts, "trait", id, &c.traits, true);
    push_item_facts(facts, "believes", id, &c.beliefs, true);
    push_item_facts(facts, "desires", id, &c.desires, true);
    push_item_facts(facts, "intends", id, &c.intentions, true);
    push_opt_fact(facts, "at", id, &c.location, false);
    push_rel_facts(facts, id, &c.relationships);
    push_item_facts(facts, "has", id, &c.inventory, true);
    push_opt_fact(facts, "name", id, &c.name, true);
    proof {
        lemma_item_facts("trait"@, id@, c.traits@);
        lemma_item_facts("believes"@, id@, c.beliefs@);
        lemma_item_facts("desires"@, id@, c.desires@);
        lemma_item_facts("intends"@, id@, c.intentions@);
        lemma_item_facts("has"@, id@, c.inventory@);
    }
    assert(views(facts@) =~= start + character_tail(c@));
}

fn push_location_facts(facts: &mut Vec<String>, l: &Location)
    ensures
        views(final(facts)@) == views(old(facts)@) + location_tail(l@),
{
    let ghost start = views(facts@);
    let id = l.id.as_str();
    push_one(facts, make_fact1("location", id));
    push_item_facts(facts, "property", id, &l.properties, true);
    let ghost before = views(facts@);
    let mut i: usize = 0;
    while i < l.connections.len()
        invariant
            i <= l.connections@.len(),
            views(facts@) == before + conn_facts(id@, views(l.connections@).take(i as int)),
        decreases l.connections@.len() - i,
    {
        let ghost cv = views(l.connections@);
        assert(cv.take(i + 1).drop_last() == cv.take(i as int));
        let c = l.connections[i].as_str();
        push_one(facts, make_fact2("connected", id, c, false));
        push_one(facts, make_fact2("connected", c, id, false));
        assert(views(facts@) =~= before + conn_facts(id@, cv.take(i + 1)));
        i += 1;
    }
    assert(views(l.connections@).take(l.connections@.len() as int) == views(l.connections@));
    push_opt_fact(facts, "name", id, &l.name, true);
    proof {
        lemma_item_facts("property"@, id@, l.properties@);
    }
    assert(views(facts@) =~= start + location_tail(l@));
}

fn push_faction_facts(facts: &mut Vec<String>, f: &Faction)
    ensures
        views(final(facts)@) == views(old(facts)@) + faction_tail(f@),
{
    let ghost start = views(facts@);
    let id = f.id.as_str();
    push_one(facts, make_fact1("faction", id));
    push_opt_fact(facts, "alignment", id, &f.alignment, true);
    push_item_facts(facts, "rival", id, &f.rivals, false);
    let ghost before = views(facts@);
    let ghost mf = |m: Chars| fact2("member"@, m, id@);
    let mut i: usize = 0;
    while i < f.members.len()
        invariant
            i <= f.members@.len(),
            mf == (|m: Chars| fact2("member"@, m, id@)),
            views(facts@) == before + views(f.members@).take(i as int).map_values(mf),
        decreases f.members@.len() - i,
    {
        let ghost mv = views(f.members@);
        push_one(facts, make_fact2("member", f.members[i].as_str(), id, false));
        assert(mv.take(i + 1).map_values(mf) =~= mv.take(i as int).map_values(mf).push(
            mf(mv[i as int]),
        ));
        i += 1;
    }
    assert(views(f.members@).take(f.members@.len() as int) == views(f.members@));
    push_opt_fact(facts, "name", id, &f.name, true);
    assert(f.rivals@.map_values(|t: String| fact2("rival"@, id@, t@)) =~= views(f.rivals@).map_values(
        |r: Chars| fact2("rival"@, id@, r),
    ));
    assert(views(facts@) =~= start + faction_tail(f@));
}

impl Entity {
    /// Translate this entity into Datalog fact lines.
    pub fn to_datalog(&self) -> (r: Vec<String>)
        ensures
            views(r@) == entity_facts(self@),
    {
        let id = self.id();
        let mut facts: Vec<String> = Vec::new();
        push_one(&mut facts, make_fact2("entity", id, self.entity_type(), false));
        match self {
            Entity::Character(c) => push_character_facts(&mut facts, c),
            Entity::Location(l) => push_location_facts(&mut facts, l),
            Entity::Faction(f) => push_faction_facts(&mut facts, f),
        }
        assert(views(facts@) =~= entity_facts(self@));
        facts
    }
}

// ── Filtering & combined output ──────────────────────────────────

/// Kept by a tag filter: untagged, or sharing a tag with the active set.
pub open spec fn tag_match(e: EntityV, active: Seq<Chars>) -> bool {
    e.tags().len() == 0 || exists|i: int| 0 <= i < e.tags().len() && active.contains(#[trigger] e.tags()[i])
}

pub open spec fn tag_filter(es: Seq<EntityV>, active: Seq<Chars>) -> Seq<EntityV> {
    if active.len() == 0 {
        es
    } else {
        es.filter(|e: EntityV| tag_match(e, active))
    }
}

fn matches_tags(e: &Entity, active: &Vec<String>) -> (r: bool)
    ensures
        r == tag_match(e@, views(active@)),
{
    let tags = e.tags();
    if tags.len() == 0 {
        return true;
    }
    let mut i: usize = 0;
    while i < tags.len()
        invariant
            views(tags@) == e@.tags(),
            i <= tags@.len(),
            forall|j: int| 0 <= j < i ==> !views(active@).contains(#[trigger] e@.tags()[j]),
        decreases tags@.len() - i,
    {
        if contains_str(active, tags[i].as_str()) {
            assert(e@.tags()[i as int] == tags@[i as int]@);
            return true;
        }
        i += 1;
    }
    false
}

/// Filter entities by active tags. With no active tag every entity is
/// kept; otherwise untagged entities and those sharing a tag are kept.
pub fn filter_by_tags(entities: Vec<Entity>, active_tags: &Vec<String>) -> (r: Vec<Entity>)
    ensures
        entity_views(r@) == tag_filter(entity_views(entities@), views(active_tags@)),
{
    if active_tags.len() == 0 {
        return entities;
    }
    let ghost ev = entity_views(entities@);
    let ghost pred = |e: EntityV| tag_match(e, views(active_tags@));
    let mut r: Vec<Entity> = Vec::new();
    let mut i: usize = 0;
    while i < entities.len()
        invariant
            i <= entities@.len(),
            ev == entity_views(entities@),
            pred == (|e: EntityV| tag_match(e, views(active_tags@))),
            entity_views(r@) == ev.take(i as int).filter(pred),
        decreases entities@.len() - i,
    {
        assert(ev.take(i + 1) == ev.take(i as int).push(ev[i as int]));
        proof { ev.take(i as int).lemma_filter_push(ev[i as int], pred); }
        let ghost prev = r@;
        if matches_tags(&entities[i], active_tags) {
            r.push(entities[i].duplicate());
            assert(entity_views(r@) =~= entity_views(prev).push(ev[i as int]));
        }
        i += 1;
    }
    assert(ev.take(entities@.len() as int) == ev);
    r
}

/// One block per entity: a `% --- id (type) ---` header, its facts, a blank line.
pub open spec fn entity_block(e: EntityV) -> Chars {
    "% --- "@ + e.id() + " ("@ + e.kind_name() + ") ---\n"@ + lines(entity_facts(e)) + "\n"@
}

/// Each line followed by a newline.
pub open spec fn lines(ls: Seq<Chars>) -> Chars
    decreases ls.len(),
{
    if ls.len() == 0 {
        Seq::empty()
    } else {
        lines(ls.drop_last()) + ls.last() + "\n"@
    }
}

pub open spec fn blocks(es: Seq<EntityV>) -> Chars
    decreases es.len(),
{
    if es.len() == 0 {
        Seq::empty()
    } else {
        blocks(es.drop_last()) + entity_block(es.last())
    }
}

/// Appends each string followed by a newline.
pub fn push_lines(out: &mut String, ls: &Vec<String>)
    ensures
        final(out)@ == old(out)@ + lines(views(ls@)),
{
    let ghost start = out@;
    let mut i: usize = 0;
    while i < ls.len()
        invariant
            i <= ls@.len(),
            out@ == start + lines(views(ls@).take(i as int)),
        decreases ls@.len() - i,
    {
        assert(views(ls@).take(i + 1).drop_last() == views(ls@).take(i as int));
        push_str(out, ls[i].as_str());
        push_str(out, "\n");
        i += 1;
    }
    assert(views(ls@).take(ls@.len() as int) == views(ls@));
}

/// Translate a list of entities into a combined Datalog facts string.
#[verifier::rlimit(40)]
pub fn translate_to_datalog(entities: &Vec<Entity>) -> (r: String)
    ensures
        r@ == "% Auto-generated entity facts\n\n"@ + blocks(entity_views(entities@)),
{
    let mut out = String::new();
    push_str(&mut out, "% Auto-generated entity facts\n\n");
    let ghost ev = entity_views(entities@);
    let mut i: usize = 0;
    while i < entities.len()
        invariant
            i <= entities@.len(),
            ev == entity_views(entities@),
            out@ == "% Auto-generated entity facts\n\n"@ + blocks(ev.take(i as int)),
        decreases entities@.len() - i,
    {
        let e = &entities[i];
        assert(ev.take(i + 1).drop_last() == ev.take(i as int));
        push_str(&mut out, "% --- ");
        push_str(&mut out, e.id());
        push_str(&mut out, " (");
        push_str(&mut out, e.entity_type());
        push_str(&mut out, ") ---\n");
        let facts = e.to_datalog();
        push_lines(&mut out, &facts);
        push_str(&mut out, "\n");
        i += 1;
    }
    assert(ev.take(entities@.len() as int) == ev);
    out
}

/// Built-in reasoning rules that every project gets.
pub fn builtin_rules() -> (r: &'static str)
    ensures
        r@ == builtin_rules_text(),
{
    BUILTIN_RULES
}

pub open spec fn builtin_rules_text() -> Chars {
    BUILTIN_RULES@
}

pub const BUILTIN_RULES: &'static str = "% === Built-in Rules ===

% Social: who can meet (same location)
can_meet(?A, ?B) :- at(?A, ?P), at(?B, ?P), ?A != ?B, character(?A), character(?B).

% Social: enemy detection (rival factions)
enemy(?A, ?B) :- member(?A, ?S1), member(?B, ?S2), rival(?S1, ?S2), ?A != ?B.

% Social: personal enemy (affinity <= -2)
personal_enemy(?A, ?B) :- affinity(?A, ?B, ?V), ?V <= -2, character(?A), character(?B).

% Danger: enemies meeting (faction or personal)
danger(?A, ?B) :- can_meet(?A, ?B), enemy(?A, ?B).
danger(?A, ?B) :- can_meet(?A, ?B), personal_enemy(?A, ?B).

% Location: reachable (transitive connections)
reachable(?A, ?B) :- connected(?A, ?B).
reachable(?A, ?C) :- connected(?A, ?B), reachable(?B, ?C).

% Social: heard-of via relationships
heard_of(?A, ?C) :- role(?A, ?B, ?R1), role(?B, ?C, ?R2), ?A != ?C.

% Trust: would confide a secret (trust >= 2 + can meet)
would_confide(?A, ?B) :- trust(?A, ?B, ?T), ?T >= 2, can_meet(?A, ?B).

% Trust: would obey (respect >= 2)
would_obey(?A, ?B) :- respect(?A, ?B, ?R), ?R >= 2.

% Trust: would sacrifice (affinity >= 3 + trust >= 1)
would_sacrifice(?A, ?B) :- affinity(?A, ?B, ?Af), ?Af >= 3, trust(?A, ?B, ?T), ?T >= 1.

% Conflict: rebellion seed (low respect + low affinity)
rebellion_seed(?Sub, ?Sup) :- respect(?Sub, ?Sup, ?R), ?R <= -1, affinity(?Sub, ?Sup, ?A), ?A <= -1.
";

} // verus!
