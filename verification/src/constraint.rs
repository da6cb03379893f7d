//! Ledger-layer constraint checking: invariants and exit-state assertions
//! evaluated against a snapshot.
use vstd::prelude::*;

use crate::entity::{Entity, EntityV, Relationship, RelationshipV, rel_views};
use crate::phase::{StateAssertion, WorldbuildingCounts};
use crate::secret::SecretV;
use crate::snapshot::{Snapshot, SnapshotV};
use crate::text::{
    Chars, call_inner, chars_of, contains_str, dec, find, find_in, push_dec, push_dec_wide, push_str,
    starts, starts_at, str_eq, string_from, trim, trim_range, unwrap_call, views,
};

verus! {

broadcast use vstd::seq_lib::group_seq_properties;

/// An existence check read against its expected value: `"false"` asks
/// for absence, anything else for presence.
pub open spec fn flag(expected: Chars, b: bool) -> bool {
    if expected == "false"@ {
        !b
    } else {
        b
    }
}

/// The first entity with the given id.
pub open spec fn first_with_id(es: Seq<EntityV>, id: Chars) -> Option<EntityV>
    decreases es.len(),
{
    if es.len() == 0 {
        None
    } else if es[0].id() == id {
        Some(es[0])
    } else {
        first_with_id(es.drop_first(), id)
    }
}

pub open spec fn traits_of(e: EntityV) -> Seq<Chars> {
    match e {
        EntityV::Character(c) => c.traits,
        _ => Seq::empty(),
    }
}

pub open spec fn items_of(e: EntityV) -> Seq<Chars> {
    match e {
        EntityV::Character(c) => c.inventory,
        _ => Seq::empty(),
    }
}

pub open spec fn rels_of(e: EntityV) -> Seq<RelationshipV> {
    match e {
        EntityV::Character(c) => c.relationships,
        _ => Seq::empty(),
    }
}

pub open spec fn location_of(e: EntityV) -> Option<Chars> {
    match e {
        EntityV::Character(c) => c.location,
        _ => None,
    }
}

/// Some relationship points at `t` or carries the role `t`.
pub open spec fn has_rel_to(rs: Seq<RelationshipV>, t: Chars) -> bool {
    exists|i: int| #![trigger rs[i]] 0 <= i < rs.len() && (rs[i].target == t || rs[i].role == t)
}

/// The field check `f` (after `entity.`) on entity `e`.
pub open spec fn field_holds(e: EntityV, f: Chars, expected: Chars) -> bool {
    if f == "location"@ {
        location_of(e) == Some(expected)
    } else if f == "type"@ {
        e.kind_name() == expected
    } else if f == "name"@ {
        e.name() == Some(expected)
    } else if starts(f, "has_trait("@) {
        match unwrap_call(f, "has_trait("@) {
            Some(t) => flag(expected, traits_of(e).contains(t)),
            None => false,
        }
    } else if starts(f, "rel("@) {
        match unwrap_call(f, "rel("@) {
            Some(t) => has_rel_to(rels_of(e), t),
            None => false,
        }
    } else if starts(f, "has_item("@) {
        match unwrap_call(f, "has_item("@) {
            Some(t) => flag(expected, items_of(e).contains(t)),
            None => false,
        }
    } else {
        false
    }
}

/// The two trimmed arguments of `knows(a, b)`, when there are exactly two.
pub open spec fn knows_args(q: Chars) -> Option<(Chars, Chars)> {
    match unwrap_call(q, "knows("@) {
        Some(inner) => comma_pair(inner),
        None => None,
    }
}

pub open spec fn secret_known(ss: Seq<SecretV>, who: Chars, sid: Chars) -> bool {
    exists|i: int| 0 <= i < ss.len() && #[trigger] ss[i].id == sid && ss[i].known_by.contains(who)
}

pub open spec fn entity_exists(es: Seq<EntityV>, id: Chars) -> bool {
    exists|i: int| 0 <= i < es.len() && #[trigger] es[i].id() == id
}

/// Whether a state assertion holds in a snapshot. Supported queries:
/// `entity_alive(id)`, `knows(entity, secret)` and `entity.field` with the
/// fields `location`, `type`, `name`, `has_trait(t)`, `rel(t)`,
/// `has_item(i)`; anything else fails.
pub open spec fn assertion_holds(s: SnapshotV, q: Chars, expected: Chars) -> bool {
    match unwrap_call(q, "entity_alive("@) {
        Some(id) => flag(expected, entity_exists(s.entities, id)),
        None => match knows_args(q) {
            Some((who, sid)) => flag(expected, secret_known(s.secrets, who, sid)),
            None => match find(q, '.') {
                Some(d) => match first_with_id(s.entities, q.take(d)) {
                    Some(e) => field_holds(e, q.skip(d + 1), expected),
                    None => false,
                },
                None => false,
            },
        },
    }
}

/// The failure message of each assertion that does not hold, in order.
pub open spec fn failures(s: SnapshotV, qs: Seq<(Chars, Chars)>) -> Seq<Chars>
    decreases qs.len(),
{
    if qs.len() == 0 {
        Seq::empty()
    } else {
        let prev = failures(s, qs.drop_last());
        let (q, e) = qs.last();
        if assertion_holds(s, q, e) {
            prev
        } else {
            prev.push(q + " ≠ "@ + e)
        }
    }
}

pub open spec fn assertion_views(a: Seq<StateAssertion>) -> Seq<(Chars, Chars)> {
    a.map_values(|x: StateAssertion| (x.query@, x.expected@))
}

pub proof fn lemma_first_with_id(es: Seq<EntityV>, id: Chars, i: int)
    requires
        0 <= i <= es.len(),
        forall|j: int| 0 <= j < i ==> #[trigger] es[j].id() != id,
    ensures
        i < es.len() && es[i].id() == id ==> first_with_id(es, id) == Some(es[i]),
        i == es.len() ==> first_with_id(es, id) is None,
    decreases es.len(),
{
    if es.len() > 0 && i > 0 {
        assert(es[0].id() != id);
        assert forall|j: int| 0 <= j < i - 1 implies #[trigger] es.drop_first()[j].id() != id by {
            assert(es.drop_first()[j] == es[j + 1]);
        }
        lemma_first_with_id(es.drop_first(), id, i - 1);
    }
}

fn any_entity(s: &Snapshot, id: &str) -> (r: bool)
    ensures
        r == entity_exists(s@.entities, id@),
{
    let mut i: usize = 0;
    while i < s.entities.len()
        invariant
            i <= s.entities@.len(),
            forall|j: int| 0 <= j < i ==> #[trigger] s@.entities[j].id() != id@,
        decreases s.entities@.len() - i,
    {
        if str_eq(s.entities[i].id(), id) {
            assert(s@.entities[i as int].id() == id@);
            return true;
        }
        i += 1;
    }
    false
}

fn knows_exec(s: &Snapshot, who: &str, sid: &str) -> (r: bool)
    ensures
        r == secret_known(s@.secrets, who@, sid@),
{
    let mut i: usize = 0;
    while i < s.secrets.len()
        invariant
            i <= s.secrets@.len(),
            forall|j: int|
                0 <= j < i ==> !(#[trigger] s@.secrets[j].id == sid@ && s@.secrets[j].known_by.contains(who@)),
        decreases s.secrets@.len() - i,
    {
        assert(s@.secrets[i as int] == s.secrets@[i as int]@);
        if str_eq(s.secrets[i].id.as_str(), sid) && contains_str(&s.secrets[i].known_by, who) {
            assert(s@.secrets[i as int].id == sid@ && s@.secrets[i as int].known_by.contains(who@));
            return true;
        }
        i += 1;
    }
    false
}

fn has_rel(rs: &Vec<Relationship>, t: &str) -> (r: bool)
    ensures
        r == has_rel_to(rel_views(rs@), t@),
{
    let ghost rv = rel_views(rs@);
    let mut i: usize = 0;
    while i < rs.len()
        invariant
            i <= rs@.len(),
            rv == rel_views(rs@),
            forall|j: int| #![trigger rv[j]] 0 <= j < i ==> !(rv[j].target == t@ || rv[j].role == t@),
        decreases rs@.len() - i,
    {
        assert(rv[i as int] == rs@[i as int]@);
        if str_eq(rs[i].target.as_str(), t) || str_eq(rs[i].role.as_str(), t) {
            assert(rv[i as int].target == t@ || rv[i as int].role == t@);
            return true;
        }
        i += 1;
    }
    false
}

/// The two trimmed sides of the single comma of `inner`, if it has exactly one.
pub open spec fn comma_pair(inner: Chars) -> Option<(Chars, Chars)> {
    match find(inner, ',') {
        Some(k) => if find(inner.skip(k + 1), ',') is None {
            Some((trim(inner.take(k)), trim(inner.skip(k + 1))))
        } else {
            None
        },
        None => None,
    }
}

fn split_pair(v: &Vec<char>, lo: usize, hi: usize) -> (r: Option<(String, String)>)
    requires
        lo <= hi <= v@.len(),
    ensures
        match r {
            Some((a, b)) => comma_pair(v@.subrange(lo as int, hi as int)) == Some((a@, b@)),
            None => comma_pair(v@.subrange(lo as int, hi as int)) is None,
        },
{
    let ghost inner = v@.subrange(lo as int, hi as int);
    match find_in(v, lo, hi, ',') {
        None => None,
        Some(k) => {
            let c = lo + k;
            assert(inner.skip(k + 1) == v@.subrange(c + 1, hi as int));
            assert(inner.take(k as int) == v@.subrange(lo as int, c as int));
            match find_in(v, c + 1, hi, ',') {
                Some(_) => None,
                None => Some((trim_range(v, lo, c), trim_range(v, c + 1, hi))),
            }
        },
    }
}

/// Splits the arguments of `knows(a, b)` in `v`.
fn knows_split(v: &Vec<char>) -> (r: Option<(String, String)>)
    ensures
        match r {
            Some((a, b)) => knows_args(v@) == Some((a@, b@)),
            None => knows_args(v@) is None,
        },
{
    let n = v.len();
    assert(v@.subrange(0, n as int) == v@);
    match call_inner(v, 0, n, "knows(") {
        None => None,
        Some((lo, hi)) => split_pair(v, lo, hi),
    }
}

fn field_check(e: &Entity, v: &Vec<char>, lo: usize, hi: usize, expected: &str) -> (r: bool)
    requires
        lo <= hi <= v@.len(),
    ensures
        r == field_holds(e@, v@.subrange(lo as int, hi as int), expected@),
{
    let f = string_from(v.as_slice(), lo, hi);
    let exp_false = str_eq(expected, "false");
    if str_eq(f.as_str(), "location") {
        return match e {
            Entity::Character(c) => match &c.location {
                Some(l) => str_eq(l.as_str(), expected),
                None => false,
            },
            _ => false,
        };
    }
    if str_eq(f.as_str(), "type") {
        return str_eq(e.entity_type(), expected);
    }
    if str_eq(f.as_str(), "name") {
        return match e.name() {
            Some(nm) => str_eq(nm, expected),
            None => false,
        };
    }
    if starts_at(v, lo, hi, "has_trait(") {
        return match call_inner(v, lo, hi, "has_trait(") {
            Some((a, b)) => {
                let t = string_from(v.as_slice(), a, b);
                let has = match e {
                    Entity::Character(c) => contains_str(&c.traits, t.as_str()),
                    _ => false,
                };
                if exp_false {
                    !has
                } else {
                    has
                }
            },
            None => false,
        };
    }
    if starts_at(v, lo, hi, "rel(") {
        return match call_inner(v, lo, hi, "rel(") {
            Some((a, b)) => {
                let t = string_from(v.as_slice(), a, b);
                match e {
                    Entity::Character(c) => has_rel(&c.relationships, t.as_str()),
                    _ => false,
                }
            },
            None => false,
        };
    }
    if starts_at(v, lo, hi, "has_item(") {
        return match call_inner(v, lo, hi, "has_item(") {
            Some((a, b)) => {
                let t = string_from(v.as_slice(), a, b);
                let has = match e {
                    Entity::Character(c) => contains_str(&c.inventory, t.as_str()),
                    _ => false,
                };
                if exp_false {
                    !has
                } else {
                    has
                }
            },
            None => false,
        };
    }
    false
}

/// Evaluates one state assertion against a snapshot.
pub fn evaluate_assertion(snapshot: &Snapshot, assertion: &StateAssertion) -> (r: bool)
    ensures
        r == assertion_holds(snapshot@, assertion.query@, assertion.expected@),
{
    let v = chars_of(assertion.query.as_str());
    let n = v.len();
    assert(v@.subrange(0, n as int) == v@);
    let exp_false = str_eq(assertion.expected.as_str(), "false");
    match call_inner(&v, 0, n, "entity_alive(") {
        Some((lo, hi)) => {
            let id = string_from(v.as_slice(), lo, hi);
            let exists = any_entity(snapshot, id.as_str());
            return if exp_false {
                !exists
            } else {
                exists
            };
        },
        None => {},
    }
    match knows_split(&v) {
        Some((who, sid)) => {
            let k = knows_exec(snapshot, who.as_str(), sid.as_str());
            return if exp_false {
                !k
            } else {
                k
            };
        },
        None => {},
    }
    match find_in(&v, 0, n, '.') {
        Some(d) => {
            let id = string_from(v.as_slice(), 0, d);
            assert(v@.take(d as int) == v@.subrange(0, d as int));
            assert(v@.skip(d + 1) == v@.subrange(d + 1, n as int));
            match snapshot.entity(id.as_str()) {
                Some(e) => {
                    proof {
                        let i = choose|i: int|
                            0 <= i < snapshot@.entities.len() && snapshot@.entities[i] == e@
                                && e@.id() == id@ && forall|j: int|
                                0 <= j < i ==> #[trigger] snapshot@.entities[j].id() != id@;
                        lemma_first_with_id(snapshot@.entities, id@, i);
                    }
                    field_check(e, &v, d + 1, n, assertion.expected.as_str())
                },
                None => {
                    proof {
                        lemma_first_with_id(
                            snapshot@.entities,
                            id@,
                            snapshot@.entities.len() as int,
                        );
                    }
                    false
                },
            }
        },
        None => false,
    }
}

/// Checks a list of assertions against a snapshot: whether all hold, and
/// the message `query ≠ expected` of each one that does not.
pub fn check_assertions(snapshot: &Snapshot, assertions: &Vec<StateAssertion>) -> (r: (bool, Vec<String>))
    ensures
        r.1@.map_values(|m: String| m@) == failures(snapshot@, assertion_views(assertions@)),
        r.0 == (r.1@.len() == 0),
{
    let ghost av = assertion_views(assertions@);
    let mut out: Vec<String> = Vec::new();
    let mut i: usize = 0;
    while i < assertions.len()
        invariant
            i <= assertions@.len(),
            av == assertion_views(assertions@),
            out@.map_values(|m: String| m@) == failures(snapshot@, av.take(i as int)),
        decreases assertions@.len() - i,
    {
        assert(av.take(i + 1).drop_last() == av.take(i as int));
        assert(av.take(i + 1).last() == (assertions@[i as int].query@, assertions@[i as int].expected@));
        let a = &assertions[i];
        if !evaluate_assertion(snapshot, a) {
            let mut m = a.query.clone();
            push_str(&mut m, " ≠ ");
            push_str(&mut m, a.expected.as_str());
            let ghost prev = out@;
            out.push(m);
            assert(out@.map_values(|m: String| m@) =~= prev.map_values(|m: String| m@).push(m@));
        }
        i += 1;
    }
    assert(av.take(assertions@.len() as int) == av);
    let ok = out.len() == 0;
    (ok, out)
}

// ── Worldbuilding ───────────────────────────────────────────────

/// How many entities are of each kind: characters, locations, factions;
/// and how many relationships the characters hold in all.
pub open spec fn census(es: Seq<EntityV>) -> (nat, nat, nat, nat)
    decreases es.len(),
{
    if es.len() == 0 {
        (0, 0, 0, 0)
    } else {
        let (c, l, f, r) = census(es.drop_last());
        match es.last() {
            EntityV::Character(ch) => (c + 1, l, f, r + ch.relationships.len()),
            EntityV::Location(_) => (c, l + 1, f, r),
            EntityV::Faction(_) => (c, l, f + 1, r),
        }
    }
}

/// `label: have < need` when a minimum is set and not reached.
pub open spec fn short_line(label: Chars, have: nat, need: Option<u32>) -> Seq<Chars> {
    match need {
        Some(m) => if have < m {
            seq![label + ": "@ + dec(have) + " < "@ + dec(m as nat)]
        } else {
            Seq::empty()
        },
        None => Seq::empty(),
    }
}

/// The relationship density falls short when the characters hold fewer
/// than `need` hundredths of a relationship each on average (with no
/// character, any positive minimum falls short).
pub open spec fn density_line(rels: nat, chars: nat, need: Option<u64>) -> Seq<Chars> {
    match need {
        Some(d) => if rels * 100 < d * chars || (chars == 0 && d > 0) {
            seq![
                "relationships: "@ + dec(rels) + " for "@ + dec(chars) + " characters < "@ + dec(d as nat)
                    + "/100 each"@,
            ]
        } else {
            Seq::empty()
        },
        None => Seq::empty(),
    }
}

/// The worldbuilding minimums a snapshot misses, in a fixed order:
/// characters, locations, factions, secrets, relationship density.
pub open spec fn worldbuilding_failures(
    s: SnapshotV,
    min: Option<WorldbuildingCounts>,
    density: Option<u64>,
) -> Seq<Chars> {
    let (c, l, f, r) = census(s.entities);
    let counts = match min {
        Some(m) => short_line("characters"@, c, m.characters) + short_line("locations"@, l, m.locations)
            + short_line("factions"@, f, m.factions) + short_line("secrets"@, s.secrets.len(), m.secrets),
        None => Seq::empty(),
    };
    counts + density_line(r, c, density)
}

fn push_short(out: &mut Vec<String>, label: &str, have: u64, need: Option<u32>)
    ensures
        views(final(out)@) == views(old(out)@) + short_line(label@, have as nat, need),
{
    match need {
        Some(m) => {
            if have < m as u64 {
                let mut line = String::new();
                push_str(&mut line, label);
                push_str(&mut line, ": ");
                push_dec(&mut line, have);
                push_str(&mut line, " < ");
                push_dec(&mut line, m as u64);
                let ghost prev = views(out@);
                out.push(line);
                assert(views(out@) =~= prev + short_line(label@, have as nat, need));
            } else {
                assert(short_line(label@, have as nat, need) =~= Seq::<Chars>::empty());
                assert(views(out@) =~= views(out@) + Seq::<Chars>::empty());
            }
        },
        None => {
            assert(views(out@) =~= views(out@) + Seq::<Chars>::empty());
        },
    }
}

/// Checks the worldbuilding minimums of a phase against a snapshot: entity
/// counts by kind, and the characters' average relationships, given in
/// hundredths. Returns whether all are met and the message of each that
/// is not.
pub fn check_worldbuilding(
    snapshot: &Snapshot,
    min_entities: &Option<WorldbuildingCounts>,
    min_rel_density: Option<u64>,
) -> (r: (bool, Vec<String>))
    requires
        snapshot@.entities.len() < u64::MAX,
    ensures
        views(r.1@) == worldbuilding_failures(snapshot@, *min_entities, min_rel_density),
        r.0 == (r.1@.len() == 0),
{
    let ghost es = snapshot@.entities;
    let mut c: u64 = 0;
    let mut l: u64 = 0;
    let mut f: u64 = 0;
    let mut rels: u128 = 0;
    let mut i: usize = 0;
    while i < snapshot.entities.len()
        invariant
            i <= es.len(),
            es == snapshot@.entities,
            es.len() < u64::MAX,
            (c as nat, l as nat, f as nat, rels as nat) == census(es.take(i as int)),
            c <= i && l <= i && f <= i,
            rels <= i * 0x1_0000_0000_0000_0000,
        decreases es.len() - i,
    {
        assert(es.take(i + 1).drop_last() == es.take(i as int));
        assert(es.take(i + 1).last() == snapshot.entities@[i as int]@);
        match &snapshot.entities[i] {
            Entity::Character(ch) => {
                c = c + 1;
                let n = ch.relationships.len() as u128;
                assert(n <= 0x1_0000_0000_0000_0000);
                assert(rels + n <= (i + 1) * 0x1_0000_0000_0000_0000) by (nonlinear_arith)
                    requires
                        rels <= i * 0x1_0000_0000_0000_0000,
                        n <= 0x1_0000_0000_0000_0000,
                ;
                proof { assert(ch@.relationships.len() == ch.relationships@.len()); }
                rels = rels + n;
            },
            Entity::Location(_) => {
                l = l + 1;
            },
            Entity::Faction(_) => {
                f = f + 1;
            },
        }
        proof {
            assert(rels <= (i + 1) * 0x1_0000_0000_0000_0000) by (nonlinear_arith)
                requires
                    rels <= i * 0x1_0000_0000_0000_0000 || rels <= (i + 1) * 0x1_0000_0000_0000_0000,
                    i >= 0,
            ;
        }
        i += 1;
    }
    assert(es.take(es.len() as int) == es);
    let mut out: Vec<String> = Vec::new();
    assert(views(out@) =~= Seq::<Chars>::empty());
    match min_entities {
        Some(m) => {
            push_short(&mut out, "characters", c, m.characters);
            push_short(&mut out, "locations", l, m.locations);
            push_short(&mut out, "factions", f, m.factions);
            push_short(&mut out, "secrets", snapshot.secrets.len() as u64, m.secrets);
        },
        None => {},
    }
    let ghost counts = views(out@);
    match min_rel_density {
        Some(d) => {
            assert((d as u128) * (c as u128) <= u128::MAX) by (nonlinear_arith)
                requires
                    d <= u64::MAX,
                    c <= u64::MAX,
            ;
            let dc = (d as u128) * (c as u128);
            let below = match rels.checked_mul(100) {
                Some(x) => x < dc,
                None => false,
            };
            let short = below || (c == 0 && d > 0);
            if short {
                let mut line = String::new();
                push_str(&mut line, "relationships: ");
                push_dec_wide(&mut line, rels);
                push_str(&mut line, " for ");
                push_dec(&mut line, c);
                push_str(&mut line, " characters < ");
                push_dec(&mut line, d);
                push_str(&mut line, "/100 each");
                out.push(line);
            }
        },
        None => {},
    }
    assert(views(out@) =~= worldbuilding_failures(snapshot@, *min_entities, min_rel_density));
    (out.len() == 0, out)
}

// ── Laws of assertions ───────────────────────────────────────────

/// A `knows(a, s)` assertion expecting `true` holds exactly when some
/// secret with id `s` lists `a` among those who know it, and the same
/// assertion expecting `false` holds exactly when that one does not.
pub proof fn lemma_knows_assertion(snap: SnapshotV, q: Chars, who: Chars, sid: Chars)
    requires
        knows_args(q) == Some((who, sid)),
    ensures
        assertion_holds(snap, q, "true"@) == exists|i: int|
            0 <= i < snap.secrets.len() && #[trigger] snap.secrets[i].id == sid && snap.secrets[i].known_by.contains(
                who,
            ),
        assertion_holds(snap, q, "false"@) == !assertion_holds(snap, q, "true"@),
{
    reveal_strlit("knows(");
    reveal_strlit("entity_alive(");
    reveal_strlit("true");
    reveal_strlit("false");
    assert(unwrap_call(q, "knows("@) is Some);
    assert(q[0] == 'k') by {
        assert(q.take(6)[0] == "knows("@[0]);
    }
    assert(unwrap_call(q, "entity_alive("@) is None) by {
        if starts(q, "entity_alive("@) {
            assert(q.take(13)[0] == "entity_alive("@[0]);
        }
    }
    assert("true"@ != "false"@) by {
        assert("true"@.len() != "false"@.len());
    }
}

} // verus!
