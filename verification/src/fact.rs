//! Typed Datalog facts: their arguments, an ordered set without repeats,
//! and the facts a snapshot gives.
use indexmap::IndexSet;
use vstd::prelude::*;

use crate::entity::{
    Character, CharacterV, Entity, EntityV, Faction, FactionV, Location, LocationV, Relationship, RelationshipV, rel_views,
};
use crate::goal::{
    Goal, GoalEntity, GoalEntityV, GoalV, goal_entity_views, goal_views, lemma_children_view, ov,
    split_ref, status_label,
};
use crate::intent::join_with;
use crate::secret::{Secret, SecretV, secret_views};
use crate::snapshot::{Snapshot, SnapshotV};
use crate::text::{
    Chars, views, cat, find_in, string_from, chars_ident, chars_of, escape_quotes, int_dec, is_ident, lemma_cat_step, owned, push_char, push_escaped,
    push_int, push_str,
};

verus! {

/// A single argument in a Datalog fact.
#[derive(Debug, PartialEq, Eq)]
pub enum Arg {
    /// Bare identifier: `kian`, `wasteland` (ASCII alphanumeric and `_`).
    Id(String),
    /// Quoted string: `"师徒"`, `"坚韧"`.
    Str(String),
    /// Integer literal: `3`, `-2`.
    Int(i64),
}

pub ghost enum ArgV {
    Id(Chars),
    Str(Chars),
    Int(int),
}

impl View for Arg {
    type V = ArgV;

    open spec fn view(&self) -> ArgV {
        match self {
            Arg::Id(s) => ArgV::Id(s@),
            Arg::Str(s) => ArgV::Str(s@),
            Arg::Int(n) => ArgV::Int(*n as int),
        }
    }
}

/// A bare identifier when the text is one, else a quoted string.
pub open spec fn auto_spec(s: Chars) -> ArgV {
    if s.len() > 0 && is_ident(s) {
        ArgV::Id(s)
    } else {
        ArgV::Str(s)
    }
}

/// How an argument is written in a Datalog program.
pub open spec fn arg_text(a: ArgV) -> Chars {
    match a {
        ArgV::Id(s) => s,
        ArgV::Str(s) => seq!['"'] + escape_quotes(s) + seq!['"'],
        ArgV::Int(n) => int_dec(n),
    }
}

impl Arg {
    /// Smart constructor: a valid bare identifier becomes `Id`, anything
    /// else `Str`.
    pub fn auto(s: &str) -> (r: Arg)
        ensures
            r@ == auto_spec(s@),
    {
        let v = chars_of(s);
        if v.len() > 0 && chars_ident(&v) {
            Arg::Id(owned(s))
        } else {
            Arg::Str(owned(s))
        }
    }

    /// The argument as Datalog text.
    pub fn to_datalog(&self) -> (r: String)
        ensures
            r@ == arg_text(self@),
    {
        match self {
            Arg::Id(s) => s.clone(),
            Arg::Str(s) => {
                let mut out = String::new();
                push_char(&mut out, '"');
                push_escaped(&mut out, &chars_of(s.as_str()));
                push_char(&mut out, '"');
                out
            },
            Arg::Int(n) => {
                let mut out = String::new();
                push_int(&mut out, *n);
                out
            },
        }
    }
}

// ── The ordered fact set ─────────────────────────────────────────

#[verifier::external_type_specification]
#[verifier::external_body]
#[verifier::reject_recursive_types(T)]
#[verifier::reject_recursive_types(S)]
pub struct ExIndexSet<T, S>(IndexSet<T, S>);

/// An argument as the set keys it: its kind (identifier, string,
/// integer), its text and its number.
pub open spec fn arg_key(a: ArgV) -> (u8, Chars, int) {
    match a {
        ArgV::Id(s) => (0u8, s, 0),
        ArgV::Str(s) => (1u8, s, 0),
        ArgV::Int(n) => (2u8, Seq::empty(), n),
    }
}

pub open spec fn key_arg(k: (u8, Chars, int)) -> ArgV {
    if k.0 == 0 {
        ArgV::Id(k.1)
    } else if k.0 == 1 {
        ArgV::Str(k.1)
    } else {
        ArgV::Int(k.2)
    }
}

/// The view of a stored fact key.
pub open spec fn key_view(k: (String, Vec<(u8, String, i64)>)) -> (Chars, Seq<(u8, Chars, int)>) {
    (k.0@, k.1@.map_values(|a: (u8, String, i64)| (a.0, a.1@, a.2 as int)))
}

/// What an index set of fact keys holds, in insertion order.
pub uninterp spec fn key_entries(s: IndexSet<(String, Vec<(u8, String, i64)>)>) -> Seq<(Chars, Seq<(u8, Chars, int)>)>;

/// Calls `IndexSet::new`: the set is empty.
#[verifier::external_body]
fn key_set_new() -> (r: IndexSet<(String, Vec<(u8, String, i64)>)>)
    ensures
        key_entries(r).len() == 0,
{
    IndexSet::new()
}

/// Calls `IndexSet::insert`. As its documentation says: when an equal key
/// is present it returns `false` and the set stays as it was; otherwise
/// the key goes last and it returns `true`. Equality of these keys is std's
/// equality of strings, integers, tuples and vectors.
#[verifier::external_body]
fn key_set_insert(s: &mut IndexSet<(String, Vec<(u8, String, i64)>)>, k: (String, Vec<(u8, String, i64)>)) -> (r: bool)
    ensures
        r == !key_entries(*old(s)).contains(key_view(k)),
        key_entries(*final(s)) == if r {
            key_entries(*old(s)).push(key_view(k))
        } else {
            key_entries(*old(s))
        },
{
    s.insert(k)
}

/// Calls `IndexSet::len`: the number of keys held.
#[verifier::external_body]
fn key_set_len(s: &IndexSet<(String, Vec<(u8, String, i64)>)>) -> (r: usize)
    ensures
        r == key_entries(*s).len(),
{
    s.len()
}

/// Calls `IndexSet::get_index`: the key at a position in insertion order,
/// if there is one.
#[verifier::external_body]
fn key_set_get(s: &IndexSet<(String, Vec<(u8, String, i64)>)>, i: usize) -> (r: Option<&(String, Vec<(u8, String, i64)>)>)
    ensures
        r is Some <==> i < key_entries(*s).len(),
        r is Some ==> key_view(*r->0) == key_entries(*s)[i as int],
{
    s.get_index(i)
}

/// A Datalog fact: a predicate and its arguments.
pub type FactV = (Chars, Seq<ArgV>);

pub open spec fn fact_of_key(k: (Chars, Seq<(u8, Chars, int)>)) -> FactV {
    (k.0, k.1.map_values(|a: (u8, Chars, int)| key_arg(a)))
}

pub open spec fn key_of_fact(f: FactV) -> (Chars, Seq<(u8, Chars, int)>) {
    (f.0, f.1.map_values(|a: ArgV| arg_key(a)))
}

/// Adds a fact unless it is already there.
pub open spec fn add_fact(s: Seq<FactV>, f: FactV) -> Seq<FactV> {
    if s.contains(f) {
        s
    } else {
        s.push(f)
    }
}

/// Adds the facts one after another.
pub open spec fn add_facts(s: Seq<FactV>, fs: Seq<FactV>) -> Seq<FactV>
    decreases fs.len(),
{
    if fs.len() == 0 {
        s
    } else {
        add_fact(add_facts(s, fs.drop_last()), fs.last())
    }
}

/// One fact as a line of a Datalog program: `pred(a, b).`
pub open spec fn fact_line() -> spec_fn(FactV) -> Chars {
    |f: FactV| f.0 + "("@ + join_with(f.1.map_values(|a: ArgV| arg_text(a)), ", "@) + ").\n"@
}

/// The facts as a Datalog program fragment.
pub open spec fn facts_text(fs: Seq<FactV>) -> Chars {
    "% === Facts ===\n"@ + cat(fs, fact_line())
}

/// Appends `pred(args).` and a line break for a stored key.
fn push_fact_line(out: &mut String, k: &(String, Vec<(u8, String, i64)>))
    ensures
        final(out)@ == old(out)@ + fact_line()(fact_of_key(key_view(*k))),
{
    let ghost start = out@;
    let ghost texts = fact_of_key(key_view(*k)).1.map_values(|a: ArgV| arg_text(a));
    push_str(out, k.0.as_str());
    push_str(out, "(");
    let ghost base = out@;
    let mut j: usize = 0;
    while j < k.1.len()
        invariant
            j <= k.1@.len(),
            texts.len() == k.1@.len(),
            texts == fact_of_key(key_view(*k)).1.map_values(|a: ArgV| arg_text(a)),
            out@ == base + join_with(texts.take(j as int), ", "@),
        decreases k.1@.len() - j,
    {
        if j > 0 {
            push_str(out, ", ");
        }
        let a = arg_of_key(&k.1[j]);
        let t = a.to_datalog();
        push_str(out, t.as_str());
        proof {
            assert(texts[j as int] == t@);
            assert(texts.take(j + 1).drop_last() == texts.take(j as int));
            assert(texts.take(j + 1).last() == texts[j as int]);
            if j == 0 {
                assert(texts.take(1) =~= seq![texts[0]]);
            }
        }
        j += 1;
    }
    assert(texts.take(k.1@.len() as int) == texts);
    push_str(out, ").\n");
    assert(out@ =~= start + fact_line()(fact_of_key(key_view(*k))));
}

/// Ordered, deduplicated collection of Datalog facts.
#[derive(Debug)]
pub struct FactSet {
    facts: IndexSet<(String, Vec<(u8, String, i64)>)>,
}

/// A stored key is one that a fact gives.
pub open spec fn canonical_key(k: (Chars, Seq<(u8, Chars, int)>)) -> bool {
    key_of_fact(fact_of_key(k)) == k
}

impl FactSet {
    #[verifier::type_invariant]
    spec fn keys_canonical(self) -> bool {
        forall|j: int| 0 <= j < key_entries(self.facts).len() ==> canonical_key(#[trigger] key_entries(self.facts)[j])
    }
}

impl View for FactSet {
    type V = Seq<FactV>;

    closed spec fn view(&self) -> Seq<FactV> {
        key_entries(self.facts).map_values(|k: (Chars, Seq<(u8, Chars, int)>)| fact_of_key(k))
    }
}

proof fn lemma_key_roundtrip(f: FactV)
    ensures
        fact_of_key(key_of_fact(f)) == f,
{
    assert(fact_of_key(key_of_fact(f)).1 =~= f.1);
}

fn arg_key_of(a: &Arg) -> (r: (u8, String, i64))
    ensures
        (r.0, r.1@, r.2 as int) == arg_key(a@),
{
    match a {
        Arg::Id(s) => (0, s.clone(), 0),
        Arg::Str(s) => (1, s.clone(), 0),
        Arg::Int(n) => (2, String::new(), *n),
    }
}

fn arg_of_key(k: &(u8, String, i64)) -> (r: Arg)
    ensures
        r@ == key_arg((k.0, k.1@, k.2 as int)),
{
    if k.0 == 0 {
        Arg::Id(k.1.clone())
    } else if k.0 == 1 {
        Arg::Str(k.1.clone())
    } else {
        Arg::Int(k.2)
    }
}

impl FactSet {
    pub fn new() -> (r: FactSet)
        ensures
            r@ == Seq::<FactV>::empty(),
    {
        let r = FactSet { facts: key_set_new() };
        assert(r@ =~= Seq::<FactV>::empty());
        r
    }

    /// Add a fact. Duplicates are silently ignored.
    pub fn add(&mut self, predicate: &str, args: Vec<Arg>)
        ensures
            final(self)@ == add_fact(old(self)@, (predicate@, args@.map_values(|a: Arg| a@))),
    {
        let ghost f: FactV = (predicate@, args@.map_values(|a: Arg| a@));
        let mut keys: Vec<(u8, String, i64)> = Vec::new();
        let mut i: usize = 0;
        while i < args.len()
            invariant
                i <= args@.len(),
                keys@.len() == i,
                forall|j: int| 0 <= j < i ==> (#[trigger] keys@[j]).0 == arg_key(args@[j]@).0 && keys@[j].1@
                    == arg_key(args@[j]@).1 && keys@[j].2 as int == arg_key(args@[j]@).2,
            decreases args@.len() - i,
        {
            let k = arg_key_of(&args[i]);
            keys.push(k);
            i += 1;
        }
        let key = (owned(predicate), keys);
        assert(key_view(key) =~= key_of_fact(f)) by {
            assert(key_view(key).1 =~= key_of_fact(f).1);
        }
        proof {
            use_type_invariant(&*self);
            lemma_key_roundtrip(f);
        }
        let ghost before = key_entries(self.facts);
        let mut facts = key_set_new();
        std::mem::swap(&mut facts, &mut self.facts);
        let inserted = key_set_insert(&mut facts, key);
        proof {
            if inserted {
                if old(self)@.contains(f) {
                    let j = choose|j: int| 0 <= j < old(self)@.len() && old(self)@[j] == f;
                    assert(canonical_key(before[j]));
                    assert(before[j] == key_of_fact(f));
                }
                assert forall|j: int| 0 <= j < key_entries(facts).len() implies canonical_key(
                    #[trigger] key_entries(facts)[j],
                ) by {
                    if j == before.len() {
                        assert(key_entries(facts)[j] == key_of_fact(f));
                    } else {
                        assert(key_entries(facts)[j] == before[j]);
                    }
                }
            } else {
                let j = choose|j: int| 0 <= j < before.len() && before[j] == key_of_fact(f);
            }
        }
        self.facts = facts;
        proof {
            if inserted {
                assert(self@ =~= old(self)@.push(f));
            } else {
                let j = choose|j: int| 0 <= j < before.len() && before[j] == key_of_fact(f);
                assert(old(self)@[j] == f);
                assert(self@ =~= old(self)@);
            }
        }
    }

    pub fn len(&self) -> (r: usize)
        ensures
            r == self@.len(),
    {
        key_set_len(&self.facts)
    }

    /// Serialize all facts to a Datalog program fragment.
    pub fn to_datalog(&self) -> (r: String)
        ensures
            r@ == facts_text(self@),
    {
        let ghost fs = self@;
        let mut out = String::new();
        push_str(&mut out, "% === Facts ===\n");
        let ghost base = out@;
        let n = key_set_len(&self.facts);
        let mut i: usize = 0;
        while i < n
            invariant
                i <= n,
                n == fs.len(),
                fs == self@,
                out@ == base + cat(fs.take(i as int), fact_line()),
            decreases n - i,
        {
            proof { lemma_cat_step(fs, fact_line(), i as int); }
            match key_set_get(&self.facts, i) {
                Some(k) => push_fact_line(&mut out, k),
                None => {},
            }
            i += 1;
        }
        assert(fs.take(n as int) == fs);
        out
    }

    pub fn is_empty(&self) -> (r: bool)
        ensures
            r == (self@.len() == 0),
    {
        key_set_len(&self.facts) == 0
    }
}

// ── Building up a fact set ───────────────────────────────────────

pub proof fn lemma_add_facts_append(s: Seq<FactV>, a: Seq<FactV>, b: Seq<FactV>)
    ensures
        add_facts(s, a + b) == add_facts(add_facts(s, a), b),
    decreases b.len(),
{
    if b.len() == 0 {
        assert(a + b =~= a);
    } else {
        assert((a + b).drop_last() =~= a + b.drop_last());
        assert((a + b).last() == b.last());
        lemma_add_facts_append(s, a, b.drop_last());
    }
}

proof fn lemma_add_facts_push(s: Seq<FactV>, a: Seq<FactV>, f: FactV)
    ensures
        add_facts(s, a.push(f)) == add_fact(add_facts(s, a), f),
{
    assert(a.push(f).drop_last() =~= a);
}

/// The facts an item gives, for each item in turn.
pub open spec fn each<A>(xs: Seq<A>, f: spec_fn(A) -> Seq<FactV>) -> Seq<FactV>
    decreases xs.len(),
{
    if xs.len() == 0 {
        Seq::empty()
    } else {
        each(xs.drop_last(), f) + f(xs.last())
    }
}

pub proof fn lemma_each_step<A>(xs: Seq<A>, f: spec_fn(A) -> Seq<FactV>, i: int)
    requires
        0 <= i < xs.len(),
    ensures
        each(xs.take(i + 1), f) == each(xs.take(i), f) + f(xs[i]),
{
    assert(xs.take(i + 1).drop_last() =~= xs.take(i));
    assert(xs.take(i + 1).last() == xs[i]);
}

pub(crate) fn add1(f: &mut FactSet, pred: &str, a: Arg)
    ensures
        final(f)@ == add_facts(old(f)@, seq![(pred@, seq![a@])]),
{
    let ghost x: FactV = (pred@, seq![a@]);
    let args = vec![a];
    assert(args@.map_values(|a: Arg| a@) =~= seq![a@]);
    f.add(pred, args);
    proof { lemma_add_facts_push(old(f)@, Seq::empty(), x); }
    assert(Seq::<FactV>::empty().push(x) =~= seq![x]);
}

pub(crate) fn add2(f: &mut FactSet, pred: &str, a: Arg, b: Arg)
    ensures
        final(f)@ == add_facts(old(f)@, seq![(pred@, seq![a@, b@])]),
{
    let ghost x: FactV = (pred@, seq![a@, b@]);
    let args = vec![a, b];
    assert(args@.map_values(|a: Arg| a@) =~= seq![a@, b@]);
    f.add(pred, args);
    proof { lemma_add_facts_push(old(f)@, Seq::empty(), x); }
    assert(Seq::<FactV>::empty().push(x) =~= seq![x]);
}

pub(crate) fn add3(f: &mut FactSet, pred: &str, a: Arg, b: Arg, c: Arg)
    ensures
        final(f)@ == add_facts(old(f)@, seq![(pred@, seq![a@, b@, c@])]),
{
    let ghost x: FactV = (pred@, seq![a@, b@, c@]);
    let args = vec![a, b, c];
    assert(args@.map_values(|a: Arg| a@) =~= seq![a@, b@, c@]);
    f.add(pred, args);
    proof { lemma_add_facts_push(old(f)@, Seq::empty(), x); }
    assert(Seq::<FactV>::empty().push(x) =~= seq![x]);
}

pub(crate) fn add4(f: &mut FactSet, pred: &str, a: Arg, b: Arg, c: Arg, d: Arg)
    ensures
        final(f)@ == add_facts(old(f)@, seq![(pred@, seq![a@, b@, c@, d@])]),
{
    let ghost x: FactV = (pred@, seq![a@, b@, c@, d@]);
    let args = vec![a, b, c, d];
    assert(args@.map_values(|a: Arg| a@) =~= seq![a@, b@, c@, d@]);
    f.add(pred, args);
    proof { lemma_add_facts_push(old(f)@, Seq::empty(), x); }
    assert(Seq::<FactV>::empty().push(x) =~= seq![x]);
}

pub(crate) fn id_arg(s: &str) -> (r: Arg)
    ensures
        r@ == ArgV::Id(s@),
{
    Arg::Id(owned(s))
}

pub(crate) fn str_arg(s: &str) -> (r: Arg)
    ensures
        r@ == ArgV::Str(s@),
{
    Arg::Str(owned(s))
}

/// `pred(id, x)` for each text, the text as an identifier when it is one.
pub open spec fn about(pred: Chars, id: Chars) -> spec_fn(Chars) -> Seq<FactV> {
    |x: Chars| seq![(pred, seq![ArgV::Id(id), auto_spec(x)])]
}

fn add_about(f: &mut FactSet, pred: &str, id: &str, xs: &Vec<String>)
    ensures
        final(f)@ == add_facts(old(f)@, each(views(xs@), about(pred@, id@))),
{
    let ghost start = f@;
    let ghost xv = views(xs@);
    let mut i: usize = 0;
    while i < xs.len()
        invariant
            i <= xs@.len(),
            xv == views(xs@),
            f@ == add_facts(start, each(xv.take(i as int), about(pred@, id@))),
        decreases xs@.len() - i,
    {
        proof {
            lemma_each_step(xv, about(pred@, id@), i as int);
            lemma_add_facts_append(start, each(xv.take(i as int), about(pred@, id@)), about(pred@, id@)(xv[i as int]));
        }
        add2(f, pred, id_arg(id), Arg::auto(xs[i].as_str()));
        i += 1;
    }
    assert(xv.take(xs@.len() as int) == xv);
}

// ── Entity facts ─────────────────────────────────────────────────

pub open spec fn opt_fact(o: Option<Chars>, mk: spec_fn(Chars) -> FactV) -> Seq<FactV> {
    match o {
        Some(x) => seq![mk(x)],
        None => Seq::empty(),
    }
}

pub open spec fn name_fact(id: Chars) -> spec_fn(Chars) -> FactV {
    |n: Chars| ("name"@, seq![ArgV::Id(id), auto_spec(n)])
}

pub open spec fn rel_facts(id: Chars) -> spec_fn(RelationshipV) -> Seq<FactV> {
    |r: RelationshipV|
        seq![
            ("role"@, seq![ArgV::Id(id), ArgV::Id(r.target), auto_spec(r.role)]),
            ("trust"@, seq![ArgV::Id(id), ArgV::Id(r.target), ArgV::Int(r.trust as int)]),
            ("affinity"@, seq![ArgV::Id(id), ArgV::Id(r.target), ArgV::Int(r.affinity as int)]),
            ("respect"@, seq![ArgV::Id(id), ArgV::Id(r.target), ArgV::Int(r.respect as int)]),
        ]
}

pub open spec fn character_facts(c: CharacterV) -> Seq<FactV> {
    seq![("character"@, seq![ArgV::Id(c.id)])] + each(c.traits, about("trait"@, c.id)) + each(
        c.beliefs,
        about("believes"@, c.id),
    ) + each(c.desires, about("desires"@, c.id)) + each(c.intentions, about("intends"@, c.id)) + opt_fact(
        c.location,
        |l: Chars| ("at"@, seq![ArgV::Id(c.id), ArgV::Id(l)]),
    ) + each(c.relationships, rel_facts(c.id)) + each(c.inventory, about("has"@, c.id)) + opt_fact(
        c.name,
        name_fact(c.id),
    )
}

pub open spec fn connected_facts(id: Chars) -> spec_fn(Chars) -> Seq<FactV> {
    |c: Chars| seq![("connected"@, seq![ArgV::Id(id), ArgV::Id(c)]), ("connected"@, seq![ArgV::Id(c), ArgV::Id(id)])]
}

pub open spec fn location_facts(l: LocationV) -> Seq<FactV> {
    seq![("location"@, seq![ArgV::Id(l.id)])] + each(l.properties, about("property"@, l.id)) + each(
        l.connections,
        connected_facts(l.id),
    ) + opt_fact(l.name, name_fact(l.id))
}

pub open spec fn rival_facts(id: Chars) -> spec_fn(Chars) -> Seq<FactV> {
    |r: Chars| seq![("rival"@, seq![ArgV::Id(id), ArgV::Id(r)])]
}

pub open spec fn member_facts(id: Chars) -> spec_fn(Chars) -> Seq<FactV> {
    |m: Chars| seq![("member"@, seq![ArgV::Id(m), ArgV::Id(id)])]
}

pub open spec fn faction_facts(fa: FactionV) -> Seq<FactV> {
    seq![("faction"@, seq![ArgV::Id(fa.id)])] + opt_fact(
        fa.alignment,
        |a: Chars| ("alignment"@, seq![ArgV::Id(fa.id), auto_spec(a)]),
    ) + each(fa.rivals, rival_facts(fa.id)) + each(fa.members, member_facts(fa.id)) + opt_fact(
        fa.name,
        name_fact(fa.id),
    )
}

/// The facts of one entity: its kind, then what its kind records.
pub open spec fn entity_facts(e: EntityV) -> Seq<FactV> {
    seq![("entity"@, seq![ArgV::Id(e.id()), ArgV::Id(e.kind_name())])] + match e {
        EntityV::Character(c) => character_facts(c),
        EntityV::Location(l) => location_facts(l),
        EntityV::Faction(fa) => faction_facts(fa),
    }
}

fn add_rels(f: &mut FactSet, id: &str, rs: &Vec<Relationship>)
    ensures
        final(f)@ == add_facts(old(f)@, each(rel_views(rs@), rel_facts(id@))),
{
    let ghost start = f@;
    let ghost rv = rel_views(rs@);
    let mut i: usize = 0;
    while i < rs.len()
        invariant
            i <= rs@.len(),
            rv == rel_views(rs@),
            f@ == add_facts(start, each(rv.take(i as int), rel_facts(id@))),
        decreases rs@.len() - i,
    {
        let ghost before = each(rv.take(i as int), rel_facts(id@));
        let r = &rs[i];
        let ghost x = rel_facts(id@)(rv[i as int]);
        proof {
            lemma_each_step(rv, rel_facts(id@), i as int);
            lemma_add_facts_append(start, before, x);
        }
        let ghost s0 = f@;
        add3(f, "role", id_arg(id), id_arg(r.target.as_str()), Arg::auto(r.role.as_str()));
        add3(f, "trust", id_arg(id), id_arg(r.target.as_str()), Arg::Int(r.trust as i64));
        add3(f, "affinity", id_arg(id), id_arg(r.target.as_str()), Arg::Int(r.affinity as i64));
        add3(f, "respect", id_arg(id), id_arg(r.target.as_str()), Arg::Int(r.respect as i64));
        proof {
            assert(x =~= seq![x[0]] + seq![x[1]] + seq![x[2]] + seq![x[3]]);
            lemma_add_facts_append(s0, seq![x[0]], seq![x[1]]);
            lemma_add_facts_append(s0, seq![x[0]] + seq![x[1]], seq![x[2]]);
            lemma_add_facts_append(s0, seq![x[0]] + seq![x[1]] + seq![x[2]], seq![x[3]]);
        }
        i += 1;
    }
    assert(rv.take(rs@.len() as int) == rv);
}

fn add_pairs(f: &mut FactSet, id: &str, cs: &Vec<String>, kind: u8)
    requires
        kind <= 2,
    ensures
        final(f)@ == add_facts(
            old(f)@,
            each(
                views(cs@),
                if kind == 0 {
                    connected_facts(id@)
                } else if kind == 1 {
                    rival_facts(id@)
                } else {
                    member_facts(id@)
                },
            ),
        ),
{
    let ghost start = f@;
    let ghost cv = views(cs@);
    let ghost mk = if kind == 0 {
        connected_facts(id@)
    } else if kind == 1 {
        rival_facts(id@)
    } else {
        member_facts(id@)
    };
    let mut i: usize = 0;
    while i < cs.len()
        invariant
            i <= cs@.len(),
            cv == views(cs@),
            kind <= 2,
            mk == (if kind == 0 {
                connected_facts(id@)
            } else if kind == 1 {
                rival_facts(id@)
            } else {
                member_facts(id@)
            }),
            f@ == add_facts(start, each(cv.take(i as int), mk)),
        decreases cs@.len() - i,
    {
        let ghost before = each(cv.take(i as int), mk);
        let ghost x = mk(cv[i as int]);
        proof {
            lemma_each_step(cv, mk, i as int);
            lemma_add_facts_append(start, before, x);
        }
        let c = cs[i].as_str();
        if kind == 0 {
            let ghost s0 = f@;
            add2(f, "connected", id_arg(id), id_arg(c));
            add2(f, "connected", id_arg(c), id_arg(id));
            proof {
                assert(x =~= seq![x[0]] + seq![x[1]]);
                lemma_add_facts_append(s0, seq![x[0]], seq![x[1]]);
            }
        } else if kind == 1 {
            add2(f, "rival", id_arg(id), id_arg(c));
        } else {
            add2(f, "member", id_arg(c), id_arg(id));
        }
        i += 1;
    }
    assert(cv.take(cs@.len() as int) == cv);
}

fn add_name(f: &mut FactSet, id: &str, name: &Option<String>)
    ensures
        final(f)@ == add_facts(old(f)@, opt_fact(ov(*name), name_fact(id@))),
{
    match name {
        Some(n) => add2(f, "name", id_arg(id), Arg::auto(n.as_str())),
        None => {},
    }
}

fn add_character(f: &mut FactSet, c: &Character)
    ensures
        final(f)@ == add_facts(old(f)@, character_facts(c@)),
{
    let ghost start = f@;
    let ghost v = c@;
    let id = c.id.as_str();
    add1(f, "character", id_arg(id));
    let ghost p1 = seq![("character"@, seq![ArgV::Id(v.id)])];
    add_about(f, "trait", id, &c.traits);
    proof { lemma_add_facts_append(start, p1, each(v.traits, about("trait"@, v.id))); }
    let ghost p2 = p1 + each(v.traits, about("trait"@, v.id));
    add_about(f, "believes", id, &c.beliefs);
    proof { lemma_add_facts_append(start, p2, each(v.beliefs, about("believes"@, v.id))); }
    let ghost p3 = p2 + each(v.beliefs, about("believes"@, v.id));
    add_about(f, "desires", id, &c.desires);
    proof { lemma_add_facts_append(start, p3, each(v.desires, about("desires"@, v.id))); }
    let ghost p4 = p3 + each(v.desires, about("desires"@, v.id));
    add_about(f, "intends", id, &c.intentions);
    proof { lemma_add_facts_append(start, p4, each(v.intentions, about("intends"@, v.id))); }
    let ghost p5 = p4 + each(v.intentions, about("intends"@, v.id));
    let ghost at = opt_fact(v.location, |l: Chars| ("at"@, seq![ArgV::Id(v.id), ArgV::Id(l)]));
    match &c.location {
        Some(l) => add2(f, "at", id_arg(id), id_arg(l.as_str())),
        None => {},
    }
    proof { lemma_add_facts_append(start, p5, at); }
    let ghost p6 = p5 + at;
    add_rels(f, id, &c.relationships);
    proof { lemma_add_facts_append(start, p6, each(v.relationships, rel_facts(v.id))); }
    let ghost p7 = p6 + each(v.relationships, rel_facts(v.id));
    add_about(f, "has", id, &c.inventory);
    proof { lemma_add_facts_append(start, p7, each(v.inventory, about("has"@, v.id))); }
    let ghost p8 = p7 + each(v.inventory, about("has"@, v.id));
    add_name(f, id, &c.name);
    proof { lemma_add_facts_append(start, p8, opt_fact(v.name, name_fact(v.id))); }
}

fn add_location(f: &mut FactSet, l: &Location)
    ensures
        final(f)@ == add_facts(old(f)@, location_facts(l@)),
{
    let ghost start = f@;
    let ghost v = l@;
    let id = l.id.as_str();
    add1(f, "location", id_arg(id));
    let ghost p1 = seq![("location"@, seq![ArgV::Id(v.id)])];
    add_about(f, "property", id, &l.properties);
    proof { lemma_add_facts_append(start, p1, each(v.properties, about("property"@, v.id))); }
    let ghost p2 = p1 + each(v.properties, about("property"@, v.id));
    add_pairs(f, id, &l.connections, 0);
    proof { lemma_add_facts_append(start, p2, each(v.connections, connected_facts(v.id))); }
    let ghost p3 = p2 + each(v.connections, connected_facts(v.id));
    add_name(f, id, &l.name);
    proof { lemma_add_facts_append(start, p3, opt_fact(v.name, name_fact(v.id))); }
}

fn add_faction(f: &mut FactSet, fa: &Faction)
    ensures
        final(f)@ == add_facts(old(f)@, faction_facts(fa@)),
{
    let ghost start = f@;
    let ghost v = fa@;
    let id = fa.id.as_str();
    add1(f, "faction", id_arg(id));
    let ghost p1 = seq![("faction"@, seq![ArgV::Id(v.id)])];
    let ghost al = opt_fact(v.alignment, |a: Chars| ("alignment"@, seq![ArgV::Id(v.id), auto_spec(a)]));
    match &fa.alignment {
        Some(a) => add2(f, "alignment", id_arg(id), Arg::auto(a.as_str())),
        None => {},
    }
    proof { lemma_add_facts_append(start, p1, al); }
    let ghost p2 = p1 + al;
    add_pairs(f, id, &fa.rivals, 1);
    proof { lemma_add_facts_append(start, p2, each(v.rivals, rival_facts(v.id))); }
    let ghost p3 = p2 + each(v.rivals, rival_facts(v.id));
    add_pairs(f, id, &fa.members, 2);
    proof { lemma_add_facts_append(start, p3, each(v.members, member_facts(v.id))); }
    let ghost p4 = p3 + each(v.members, member_facts(v.id));
    add_name(f, id, &fa.name);
    proof { lemma_add_facts_append(start, p4, opt_fact(v.name, name_fact(v.id))); }
}

fn emit_entity_facts(f: &mut FactSet, entity: &Entity)
    ensures
        final(f)@ == add_facts(old(f)@, entity_facts(entity@)),
{
    let ghost start = f@;
    let ghost head = seq![("entity"@, seq![ArgV::Id(entity@.id()), ArgV::Id(entity@.kind_name())])];
    add2(f, "entity", id_arg(entity.id()), id_arg(entity.entity_type()));
    match entity {
        Entity::Character(c) => {
            add_character(f, c);
            proof { lemma_add_facts_append(start, head, character_facts(c@)); }
        },
        Entity::Location(l) => {
            add_location(f, l);
            proof { lemma_add_facts_append(start, head, location_facts(l@)); }
        },
        Entity::Faction(fa) => {
            add_faction(f, fa);
            proof { lemma_add_facts_append(start, head, faction_facts(fa@)); }
        },
    }
}

// ── Goal facts ───────────────────────────────────────────────────

/// `blocks(..)` or `conflicts(..)` for a well-formed `owner/goal` reference.
pub open spec fn ref_facts(owner: Chars, gid: ArgV, blocks: bool) -> spec_fn(Chars) -> Seq<FactV> {
    |r: Chars|
        match split_ref(r) {
            Some((o, g)) => if blocks {
                seq![("blocks"@, seq![ArgV::Id(o), auto_spec(g), ArgV::Id(owner), gid])]
            } else {
                seq![("conflicts"@, seq![ArgV::Id(owner), gid, ArgV::Id(o), auto_spec(g)])]
            },
            None => Seq::empty(),
        }
}

/// The facts of one goal node, not of its sub-goals.
pub open spec fn goal_node_facts(owner: Chars, g: GoalV, parent: Option<Chars>) -> Seq<FactV> {
    let gid = auto_spec(g.id);
    seq![
        ("want"@, seq![ArgV::Id(owner), gid, ArgV::Str(g.want)]),
        ("goal_status"@, seq![ArgV::Id(owner), gid, ArgV::Id(status_label(g.status))]),
    ] + (if g.solution is Some {
        seq![("has_solution"@, seq![ArgV::Id(owner), gid])]
    } else {
        Seq::empty()
    }) + opt_fact(g.problem, |p: Chars| ("goal_problem"@, seq![ArgV::Id(owner), gid, ArgV::Str(p)])) + opt_fact(
        parent,
        |pid: Chars| ("child_of"@, seq![gid, auto_spec(pid)]),
    ) + each(g.blocked_by, ref_facts(owner, gid, true)) + each(g.conflicts_with, ref_facts(owner, gid, false))
}

/// The facts of a goal forest: each tree's root, then its sub-goals.
pub open spec fn goal_forest_facts(owner: Chars, gs: Seq<GoalV>, parent: Option<Chars>) -> Seq<FactV>
    decreases gs,
{
    if gs.len() == 0 {
        Seq::empty()
    } else {
        let g = gs.last();
        goal_forest_facts(owner, gs.drop_last(), parent) + goal_node_facts(owner, g, parent) + goal_forest_facts(
            owner,
            g.children,
            Some(g.id),
        )
    }
}

pub open spec fn goal_entity_facts() -> spec_fn(GoalEntityV) -> Seq<FactV> {
    |e: GoalEntityV| goal_forest_facts(e.id, e.goals, None)
}

fn add_refs(f: &mut FactSet, owner: &str, gid: &str, refs: &Vec<String>, blocks: bool)
    ensures
        final(f)@ == add_facts(old(f)@, each(views(refs@), ref_facts(owner@, auto_spec(gid@), blocks))),
{
    let ghost start = f@;
    let ghost rv = views(refs@);
    let ghost mk = ref_facts(owner@, auto_spec(gid@), blocks);
    let mut i: usize = 0;
    while i < refs.len()
        invariant
            i <= refs@.len(),
            rv == views(refs@),
            mk == ref_facts(owner@, auto_spec(gid@), blocks),
            f@ == add_facts(start, each(rv.take(i as int), mk)),
        decreases refs@.len() - i,
    {
        proof {
            lemma_each_step(rv, mk, i as int);
            lemma_add_facts_append(start, each(rv.take(i as int), mk), mk(rv[i as int]));
        }
        let v = chars_of(refs[i].as_str());
        let n = v.len();
        assert(v@.subrange(0, n as int) == v@);
        match find_in(&v, 0, n, '/') {
            Some(k) => {
                let o = string_from(v.as_slice(), 0, k);
                let g = string_from(v.as_slice(), k + 1, n);
                assert(v@.take(k as int) == v@.subrange(0, k as int));
                assert(v@.skip(k + 1) == v@.subrange(k + 1, n as int));
                if blocks {
                    add4(f, "blocks", id_arg(o.as_str()), Arg::auto(g.as_str()), id_arg(owner), Arg::auto(gid));
                } else {
                    add4(f, "conflicts", id_arg(owner), Arg::auto(gid), id_arg(o.as_str()), Arg::auto(g.as_str()));
                }
            },
            None => {},
        }
        i += 1;
    }
    assert(rv.take(refs@.len() as int) == rv);
}

fn add_goal_node(f: &mut FactSet, owner: &str, goal: &Goal, parent: Option<&str>)
    ensures
        final(f)@ == add_facts(
            old(f)@,
            goal_node_facts(
                owner@,
                goal@,
                match parent {
                    Some(p) => Some(p@),
                    None => None,
                },
            ),
        ),
{
    let ghost start = f@;
    let ghost v = goal@;
    let ghost gid = auto_spec(v.id);
    let ghost pv: Option<Chars> = match parent {
        Some(p) => Some(p@),
        None => None,
    };
    let gs = goal.id.as_str();
    add3(f, "want", id_arg(owner), Arg::auto(gs), str_arg(goal.want.as_str()));
    let ghost s1 = f@;
    add3(f, "goal_status", id_arg(owner), Arg::auto(gs), id_arg(goal.status.label()));
    let ghost p1 = seq![
        ("want"@, seq![ArgV::Id(owner@), gid, ArgV::Str(v.want)]),
        ("goal_status"@, seq![ArgV::Id(owner@), gid, ArgV::Id(status_label(v.status))]),
    ];
    proof {
        assert(p1 =~= seq![p1[0]] + seq![p1[1]]);
        lemma_add_facts_append(start, seq![p1[0]], seq![p1[1]]);
    }
    let ghost sol = if v.solution is Some {
        seq![("has_solution"@, seq![ArgV::Id(owner@), gid])]
    } else {
        Seq::<FactV>::empty()
    };
    if goal.solution.is_some() {
        add2(f, "has_solution", id_arg(owner), Arg::auto(gs));
    }
    proof { lemma_add_facts_append(start, p1, sol); }
    let ghost p2 = p1 + sol;
    let ghost prob = opt_fact(v.problem, |p: Chars| ("goal_problem"@, seq![ArgV::Id(owner@), gid, ArgV::Str(p)]));
    match &goal.problem {
        Some(p) => add3(f, "goal_problem", id_arg(owner), Arg::auto(gs), str_arg(p.as_str())),
        None => {},
    }
    proof { lemma_add_facts_append(start, p2, prob); }
    let ghost p3 = p2 + prob;
    let ghost par = opt_fact(pv, |pid: Chars| ("child_of"@, seq![gid, auto_spec(pid)]));
    match parent {
        Some(pid) => add2(f, "child_of", Arg::auto(gs), Arg::auto(pid)),
        None => {},
    }
    proof { lemma_add_facts_append(start, p3, par); }
    let ghost p4 = p3 + par;
    add_refs(f, owner, gs, &goal.blocked_by, true);
    proof { lemma_add_facts_append(start, p4, each(v.blocked_by, ref_facts(owner@, gid, true))); }
    let ghost p5 = p4 + each(v.blocked_by, ref_facts(owner@, gid, true));
    add_refs(f, owner, gs, &goal.conflicts_with, false);
    proof { lemma_add_facts_append(start, p5, each(v.conflicts_with, ref_facts(owner@, gid, false))); }
}

fn emit_goal_tree(f: &mut FactSet, owner: &str, goal: &Goal, parent: Option<&str>)
    ensures
        final(f)@ == add_facts(
            old(f)@,
            goal_node_facts(
                owner@,
                goal@,
                match parent {
                    Some(p) => Some(p@),
                    None => None,
                },
            ) + goal_forest_facts(owner@, goal@.children, Some(goal@.id)),
        ),
    decreases goal,
{
    let ghost start = f@;
    let ghost pv: Option<Chars> = match parent {
        Some(p) => Some(p@),
        None => None,
    };
    add_goal_node(f, owner, goal, parent);
    let ghost mid = f@;
    let ghost cv = goal@.children;
    proof { lemma_children_view(*goal); }
    let mut i: usize = 0;
    while i < goal.children.len()
        invariant
            i <= goal.children@.len(),
            cv == goal_views(goal.children@),
            cv == goal@.children,
            f@ == add_facts(mid, goal_forest_facts(owner@, cv.take(i as int), Some(goal@.id))),
        decreases goal.children@.len() - i,
    {
        let c = &goal.children[i];
        proof {
            lemma_children_view(*c);
            assert(cv.take(i + 1).drop_last() == cv.take(i as int));
            assert(cv.take(i + 1).last() == c@);
            lemma_add_facts_append(
                mid,
                goal_forest_facts(owner@, cv.take(i as int), Some(goal@.id)),
                goal_node_facts(owner@, c@, Some(goal@.id)) + goal_forest_facts(owner@, c@.children, Some(c@.id)),
            );
            assert(goal_forest_facts(owner@, cv.take(i + 1), Some(goal@.id)) =~= goal_forest_facts(
                owner@,
                cv.take(i as int),
                Some(goal@.id),
            ) + (goal_node_facts(owner@, c@, Some(goal@.id)) + goal_forest_facts(owner@, c@.children, Some(c@.id))));
        }
        emit_goal_tree(f, owner, c, Some(goal.id.as_str()));
        i += 1;
    }
    assert(cv.take(goal.children@.len() as int) == cv);
    proof {
        lemma_add_facts_append(
            start,
            goal_node_facts(owner@, goal@, pv),
            goal_forest_facts(owner@, goal@.children, Some(goal@.id)),
        );
    }
}

fn emit_goal_facts(f: &mut FactSet, entities: &Vec<GoalEntity>)
    ensures
        final(f)@ == add_facts(old(f)@, each(goal_entity_views(entities@), goal_entity_facts())),
{
    let ghost start = f@;
    let ghost ev = goal_entity_views(entities@);
    let mut i: usize = 0;
    while i < entities.len()
        invariant
            i <= entities@.len(),
            ev == goal_entity_views(entities@),
            f@ == add_facts(start, each(ev.take(i as int), goal_entity_facts())),
        decreases entities@.len() - i,
    {
        let e = &entities[i];
        let ghost before = f@;
        let ghost gv = goal_views(e.goals@);
        assert(ev[i as int] == e@);
        let mut j: usize = 0;
        while j < e.goals.len()
            invariant
                j <= e.goals@.len(),
                gv == goal_views(e.goals@),
                f@ == add_facts(before, goal_forest_facts(e.id@, gv.take(j as int), None)),
            decreases e.goals@.len() - j,
        {
            let g = &e.goals[j];
            proof {
                assert(gv.take(j + 1).drop_last() == gv.take(j as int));
                assert(gv.take(j + 1).last() == g@);
                lemma_add_facts_append(
                    before,
                    goal_forest_facts(e.id@, gv.take(j as int), None),
                    goal_node_facts(e.id@, g@, None) + goal_forest_facts(e.id@, g@.children, Some(g@.id)),
                );
                assert(goal_forest_facts(e.id@, gv.take(j + 1), None) =~= goal_forest_facts(
                    e.id@,
                    gv.take(j as int),
                    None,
                ) + (goal_node_facts(e.id@, g@, None) + goal_forest_facts(e.id@, g@.children, Some(g@.id))));
            }
            emit_goal_tree(f, e.id.as_str(), g, None);
            j += 1;
        }
        assert(gv.take(e.goals@.len() as int) == gv);
        proof {
            lemma_each_step(ev, goal_entity_facts(), i as int);
            lemma_add_facts_append(start, each(ev.take(i as int), goal_entity_facts()), goal_entity_facts()(ev[i as int]));
        }
        i += 1;
    }
    assert(ev.take(entities@.len() as int) == ev);
}

// ── Secret facts ─────────────────────────────────────────────────

pub open spec fn known_fact(sid: Chars) -> spec_fn(Chars) -> Seq<FactV> {
    |c: Chars| seq![("secret_known_by"@, seq![ArgV::Id(sid), ArgV::Id(c)])]
}

pub open spec fn secret_facts() -> spec_fn(SecretV) -> Seq<FactV> {
    |x: SecretV|
        seq![("secret"@, seq![ArgV::Id(x.id)])] + each(x.known_by, known_fact(x.id)) + if x.revealed_to_reader {
            seq![("secret_revealed_to_reader"@, seq![ArgV::Id(x.id)])]
        } else {
            Seq::empty()
        }
}

fn add_secret(f: &mut FactSet, x: &Secret)
    ensures
        final(f)@ == add_facts(old(f)@, secret_facts()(x@)),
{
    let ghost start = f@;
    let ghost v = x@;
    let sid = x.id.as_str();
    add1(f, "secret", id_arg(sid));
    let ghost p1 = seq![("secret"@, seq![ArgV::Id(v.id)])];
    let ghost mid = f@;
    let ghost kv = views(x.known_by@);
    let mut i: usize = 0;
    while i < x.known_by.len()
        invariant
            i <= x.known_by@.len(),
            kv == views(x.known_by@),
            f@ == add_facts(mid, each(kv.take(i as int), known_fact(sid@))),
        decreases x.known_by@.len() - i,
    {
        proof {
            lemma_each_step(kv, known_fact(sid@), i as int);
            lemma_add_facts_append(mid, each(kv.take(i as int), known_fact(sid@)), known_fact(sid@)(kv[i as int]));
        }
        add2(f, "secret_known_by", id_arg(sid), id_arg(x.known_by[i].as_str()));
        i += 1;
    }
    assert(kv.take(x.known_by@.len() as int) == kv);
    proof { lemma_add_facts_append(start, p1, each(v.known_by, known_fact(v.id))); }
    let ghost p2 = p1 + each(v.known_by, known_fact(v.id));
    let ghost rev = if v.revealed_to_reader {
        seq![("secret_revealed_to_reader"@, seq![ArgV::Id(v.id)])]
    } else {
        Seq::<FactV>::empty()
    };
    if x.revealed_to_reader {
        add1(f, "secret_revealed_to_reader", id_arg(sid));
    }
    proof { lemma_add_facts_append(start, p2, rev); }
}

fn emit_secret_facts(f: &mut FactSet, secrets: &Vec<Secret>)
    ensures
        final(f)@ == add_facts(old(f)@, each(secret_views(secrets@), secret_facts())),
{
    let ghost start = f@;
    let ghost sv = secret_views(secrets@);
    let mut i: usize = 0;
    while i < secrets.len()
        invariant
            i <= secrets@.len(),
            sv == secret_views(secrets@),
            f@ == add_facts(start, each(sv.take(i as int), secret_facts())),
        decreases secrets@.len() - i,
    {
        proof {
            lemma_each_step(sv, secret_facts(), i as int);
            lemma_add_facts_append(start, each(sv.take(i as int), secret_facts()), secret_facts()(sv[i as int]));
        }
        add_secret(f, &secrets[i]);
        i += 1;
    }
    assert(sv.take(secrets@.len() as int) == sv);
}

// ── All facts of a snapshot ──────────────────────────────────────

pub open spec fn entity_facts_fn() -> spec_fn(EntityV) -> Seq<FactV> {
    |e: EntityV| entity_facts(e)
}

/// Every fact a snapshot gives, in order, repeats included: the entities',
/// then the goal trees', then the secrets'.
pub open spec fn snapshot_facts(s: SnapshotV) -> Seq<FactV> {
    each(s.entities, entity_facts_fn()) + each(s.goal_entities, goal_entity_facts()) + each(s.secrets, secret_facts())
}

/// Generate all Datalog facts from a snapshot: each once, in the order of
/// first appearance.
pub fn collect_facts(snapshot: &Snapshot) -> (r: FactSet)
    ensures
        r@ == add_facts(Seq::empty(), snapshot_facts(snapshot@)),
        r@.no_duplicates(),
        forall|x: FactV| r@.contains(x) <==> snapshot_facts(snapshot@).contains(x),
{
    proof { lemma_add_facts_members(Seq::empty(), snapshot_facts(snapshot@)); }
    let mut facts = FactSet::new();
    let ghost ev = snapshot@.entities;
    let mut i: usize = 0;
    while i < snapshot.entities.len()
        invariant
            i <= snapshot.entities@.len(),
            ev == snapshot@.entities,
            facts@ == add_facts(Seq::empty(), each(ev.take(i as int), entity_facts_fn())),
        decreases snapshot.entities@.len() - i,
    {
        proof {
            assert(ev[i as int] == snapshot.entities@[i as int]@);
            lemma_each_step(ev, entity_facts_fn(), i as int);
            lemma_add_facts_append(Seq::empty(), each(ev.take(i as int), entity_facts_fn()), entity_facts(ev[i as int]));
        }
        emit_entity_facts(&mut facts, &snapshot.entities[i]);
        i += 1;
    }
    assert(ev.take(snapshot.entities@.len() as int) == ev);
    let ghost e1 = each(ev, entity_facts_fn());
    emit_goal_facts(&mut facts, &snapshot.goal_entities);
    proof { lemma_add_facts_append(Seq::empty(), e1, each(snapshot@.goal_entities, goal_entity_facts())); }
    let ghost e2 = e1 + each(snapshot@.goal_entities, goal_entity_facts());
    emit_secret_facts(&mut facts, &snapshot.secrets);
    proof { lemma_add_facts_append(Seq::empty(), e2, each(snapshot@.secrets, secret_facts())); }
    facts
}

// ── Laws of the fact set ─────────────────────────────────────────

/// Adding a fact that is already there changes nothing, so adding the same
/// fact twice is adding it once.
pub proof fn lemma_add_fact_idempotent(s: Seq<FactV>, f: FactV)
    ensures
        add_fact(add_fact(s, f), f) == add_fact(s, f),
{
    if !s.contains(f) {
        assert(s.push(f)[s.len() as int] == f);
    }
}

/// A fact set holds each fact once, and exactly the facts it started with
/// and the facts added.
pub proof fn lemma_add_facts_members(s: Seq<FactV>, fs: Seq<FactV>)
    requires
        s.no_duplicates(),
    ensures
        add_facts(s, fs).no_duplicates(),
        forall|x: FactV| add_facts(s, fs).contains(x) <==> (s.contains(x) || fs.contains(x)),
    decreases fs.len(),
{
    if fs.len() > 0 {
        let prev = add_facts(s, fs.drop_last());
        let f = fs.last();
        lemma_add_facts_members(s, fs.drop_last());
        assert forall|x: FactV| add_facts(s, fs).contains(x) <==> (s.contains(x) || fs.contains(x)) by {
            if fs.contains(x) && x != f {
                let k = choose|k: int| 0 <= k < fs.len() && fs[k] == x;
                assert(fs.drop_last()[k] == x);
            }
            if fs.drop_last().contains(x) {
                let k = choose|k: int| 0 <= k < fs.len() - 1 && fs.drop_last()[k] == x;
                assert(fs[k] == x);
            }
            if !prev.contains(f) {
                assert(prev.push(f)[prev.len() as int] == f);
                if prev.push(f).contains(x) && x != f {
                    let k = choose|k: int| 0 <= k < prev.len() + 1 && prev.push(f)[k] == x;
                    assert(prev[k] == x);
                }
                if prev.contains(x) {
                    let k = choose|k: int| 0 <= k < prev.len() && prev[k] == x;
                    assert(prev.push(f)[k] == x);
                }
            }
            assert(fs[fs.len() - 1] == f);
        }
        if !prev.contains(f) {
            assert forall|i: int, j: int| 0 <= i < j < prev.push(f).len() implies prev.push(f)[i] != prev.push(f)[j] by {
                if j == prev.len() {
                    assert(prev[i] == prev.push(f)[i]);
                }
            }
        }
    }
}

} // verus!
