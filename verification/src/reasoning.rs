//! Results of a Datalog reasoning session: derived facts by predicate.
use vstd::prelude::*;

use crate::content::{insert_pos, lemma_insert_pos, lemma_insert_pos_props, lemma_sorted_insert, lines_of, split_lines};
use crate::history::{lemma_first_index_at, lemma_first_index_spec};
use crate::op::first_index;
use crate::text::{
    Chars, chars_of, lex_lt, lemma_lex_irreflexive, str_eq, str_lt, string_from, strictly_sorted, trim, trim_bounds,
    views,
};

verus! {

broadcast use vstd::seq_lib::group_seq_properties;

/// The rows derived for one predicate.
#[derive(Debug)]
pub struct PredicateRows {
    pub name: String,
    pub rows: Vec<Vec<String>>,
}

pub open spec fn rows_view(rows: Seq<Vec<String>>) -> Seq<Seq<Chars>> {
    rows.map_values(|r: Vec<String>| views(r@))
}

pub open spec fn pred_views(ps: Seq<PredicateRows>) -> Seq<(Chars, Seq<Seq<Chars>>)> {
    ps.map_values(|p: PredicateRows| (p.name@, rows_view(p.rows@)))
}

/// Result of a reasoning session.
#[derive(Debug)]
pub struct ReasoningResult {
    /// Derived facts by predicate name, one entry per name.
    predicates: Vec<PredicateRows>,
    /// Total number of derived facts.
    total_facts: usize,
}

impl View for ReasoningResult {
    type V = Seq<(Chars, Seq<Seq<Chars>>)>;

    closed spec fn view(&self) -> Seq<(Chars, Seq<Seq<Chars>>)> {
        pred_views(self.predicates@)
    }
}

pub open spec fn names(ps: Seq<(Chars, Seq<Seq<Chars>>)>) -> Seq<Chars> {
    ps.map_values(|p: (Chars, Seq<Seq<Chars>>)| p.0)
}

/// The rows recorded for a predicate.
pub open spec fn lookup(ps: Seq<(Chars, Seq<Seq<Chars>>)>, name: Chars) -> Option<Seq<Seq<Chars>>> {
    match first_index(names(ps), name) {
        Some(i) => Some(ps[i].1),
        None => None,
    }
}

/// Recording rows: they replace those of the same predicate, or are added
/// where the name goes in name order.
pub open spec fn recorded(
    ps: Seq<(Chars, Seq<Seq<Chars>>)>,
    name: Chars,
    rows: Seq<Seq<Chars>>,
) -> Seq<(Chars, Seq<Seq<Chars>>)> {
    match first_index(names(ps), name) {
        Some(i) => ps.update(i, (name, rows)),
        None => ps.insert(insert_pos(names(ps), name), (name, rows)),
    }
}

proof fn lemma_lookup_inserted(ps: Seq<(Chars, Seq<Seq<Chars>>)>, name: Chars, rows: Seq<Seq<Chars>>, other: Chars)
    requires
        first_index(names(ps), name) is None,
    ensures
        lookup(recorded(ps, name, rows), name) == Some(rows),
        other != name ==> lookup(recorded(ps, name, rows), other) == lookup(ps, other),
{
    let ns = names(ps);
    let q = recorded(ps, name, rows);
    lemma_first_index_spec(ns, name);
    let k = insert_pos(ns, name);
    lemma_insert_pos_range(ns, name);
    let nq = ns.insert(k, name);
    assert(q == ps.insert(k, (name, rows)));
    assert(names(q) =~= nq);
    assert forall|i: int| 0 <= i < k implies nq[i] != name by {
        assert(nq[i] == ns[i]);
    }
    lemma_first_index_at(nq, name, k);
    assert(q[k] == (name, rows));
    if other != name {
        lemma_lookup_inserted_other(ps, name, rows, other);
    }
}

proof fn lemma_lookup_inserted_other(ps: Seq<(Chars, Seq<Seq<Chars>>)>, name: Chars, rows: Seq<Seq<Chars>>, other: Chars)
    requires
        first_index(names(ps), name) is None,
        other != name,
    ensures
        lookup(recorded(ps, name, rows), other) == lookup(ps, other),
{
    let ns = names(ps);
    let q = recorded(ps, name, rows);
    let k = insert_pos(ns, name);
    lemma_insert_pos_range(ns, name);
    let nq = ns.insert(k, name);
    assert(q == ps.insert(k, (name, rows)));
    assert(names(q) =~= nq);
    lemma_first_index_spec(ns, other);
    match first_index(ns, other) {
        Some(j) => {
            if j < k {
                assert forall|i: int| 0 <= i < j implies nq[i] != other by {
                    assert(nq[i] == ns[i]);
                }
                assert(nq[j] == ns[j]);
                lemma_first_index_at(nq, other, j);
                assert(q[j] == ps[j]);
            } else {
                assert forall|i: int| 0 <= i < j + 1 implies nq[i] != other by {
                    if i < k {
                        assert(nq[i] == ns[i]);
                    } else if i > k {
                        assert(nq[i] == ns[i - 1]);
                    }
                }
                assert(nq[j + 1] == ns[j]);
                lemma_first_index_at(nq, other, j + 1);
                assert(q[j + 1] == ps[j]);
            }
        },
        None => {
            assert forall|i: int| 0 <= i < nq.len() implies nq[i] != other by {
                if i < k {
                    assert(nq[i] == ns[i]);
                } else if i > k {
                    assert(nq[i] == ns[i - 1]);
                }
            }
            lemma_first_index_at(nq, other, nq.len() as int);
        },
    }
}

/// Dropping the last entry keeps the lookups of the other names.
proof fn lemma_lookup_drop_last(p: Seq<(Chars, Seq<Seq<Chars>>)>, n: Chars)
    requires
        p.len() > 0,
        n != p.last().0,
    ensures
        lookup(p.drop_last(), n) == lookup(p, n),
{
    let np = names(p);
    let p0 = p.drop_last();
    assert(names(p0) =~= np.drop_last());
    lemma_first_index_spec(np, n);
    match first_index(np, n) {
        Some(j) => {
            assert(np[j] == p[j].0);
            assert(j != p.len() - 1);
            lemma_first_index_at(names(p0), n, j);
            assert(p0[j] == p[j]);
        },
        None => {
            assert forall|k: int| 0 <= k < p0.len() implies names(p0)[k] != n by {
                assert(names(p0)[k] == np[k]);
            }
            lemma_first_index_at(names(p0), n, p0.len() as int);
        },
    }
}

proof fn lemma_insert_pos_range(ks: Seq<Chars>, id: Chars)
    ensures
        0 <= insert_pos(ks, id) <= ks.len(),
    decreases ks.len(),
{
    if ks.len() > 0 {
        lemma_insert_pos_range(ks.drop_first(), id);
    }
}

/// Recording keeps the predicates in strictly increasing name order.
pub proof fn lemma_recorded_sorted(ps: Seq<(Chars, Seq<Seq<Chars>>)>, name: Chars, rows: Seq<Seq<Chars>>)
    requires
        strictly_sorted(names(ps)),
    ensures
        strictly_sorted(names(recorded(ps, name, rows))),
{
    let ns = names(ps);
    lemma_first_index_spec(ns, name);
    match first_index(ns, name) {
        Some(i) => {
            assert(names(recorded(ps, name, rows)) =~= ns);
        },
        None => {
            assert(!ns.contains(name));
            lemma_insert_pos_props(ns, name);
            assert(names(recorded(ps, name, rows)) =~= ns.insert(insert_pos(ns, name), name));
            lemma_sorted_insert(ns, name);
        },
    }
}

/// Two results in name order that hold the same rows for every predicate
/// are the same, so they render alike.
pub proof fn lemma_same_rows_same_result(p: Seq<(Chars, Seq<Seq<Chars>>)>, q: Seq<(Chars, Seq<Seq<Chars>>)>)
    requires
        strictly_sorted(names(p)),
        strictly_sorted(names(q)),
        forall|n: Chars| lookup(p, n) == lookup(q, n),
    ensures
        p == q,
    decreases p.len() + q.len(),
{
    let np = names(p);
    let nq = names(q);
    assert forall|k: int| 0 <= k < p.len() implies #[trigger] np[k] == p[k].0 by {}
    assert forall|k: int| 0 <= k < q.len() implies #[trigger] nq[k] == q[k].0 by {}
    if p.len() == 0 {
        if q.len() > 0 {
            lemma_first_index_spec(nq, q[0].0);
            lemma_first_index_spec(np, q[0].0);
        }
    } else if q.len() == 0 {
        lemma_first_index_spec(np, p[0].0);
        lemma_first_index_spec(nq, p[0].0);
    } else {
        let a = p.last().0;
        let b = q.last().0;
        // the largest names agree
        lemma_first_index_spec(np, a);
        lemma_first_index_spec(nq, a);
        lemma_first_index_spec(np, b);
        lemma_first_index_spec(nq, b);
        assert(np[p.len() - 1] == a);
        assert(nq[q.len() - 1] == b);
        assert(lookup(p, a) == lookup(q, a));
        assert(lookup(p, b) == lookup(q, b));
        let ja = first_index(nq, a).unwrap();
        let jb = first_index(np, b).unwrap();
        assert(np[jb] == b && nq[ja] == a);
        if a != b {
            if jb < p.len() - 1 {
                assert(lex_lt(np[jb], np[p.len() - 1]));
            }
            if ja < q.len() - 1 {
                assert(lex_lt(nq[ja], nq[q.len() - 1]));
            }
            crate::text::lemma_lex_total(a, b);
            if lex_lt(a, b) {
                assert(np[jb] == b);
                if jb == p.len() - 1 {
                    lemma_lex_irreflexive(a);
                } else {
                    crate::text::lemma_lex_transitive(a, b, a);
                    lemma_lex_irreflexive(a);
                }
            } else {
                assert(nq[ja] == a);
                if ja == q.len() - 1 {
                    lemma_lex_irreflexive(b);
                } else {
                    crate::text::lemma_lex_transitive(b, a, b);
                    lemma_lex_irreflexive(b);
                }
            }
        }
        assert(a == b);
        // the last entries hold the same rows
        assert forall|k: int| 0 <= k < p.len() - 1 implies np[k] != a by {
            assert(lex_lt(np[k], np[p.len() - 1]));
            if np[k] == a { lemma_lex_irreflexive(a); }
        }
        assert forall|k: int| 0 <= k < q.len() - 1 implies nq[k] != a by {
            assert(lex_lt(nq[k], nq[q.len() - 1]));
            if nq[k] == a { lemma_lex_irreflexive(a); }
        }
        lemma_first_index_at(np, a, p.len() - 1);
        lemma_first_index_at(nq, a, q.len() - 1);
        assert(p.last() == q.last());
        // the rest agree by induction
        let p0 = p.drop_last();
        let q0 = q.drop_last();
        assert(names(p0) =~= np.drop_last());
        assert(names(q0) =~= nq.drop_last());
        assert forall|n: Chars| lookup(p0, n) == lookup(q0, n) by {
            assert(lookup(p, n) == lookup(q, n));
            if n == a {
                assert forall|k: int| 0 <= k < p0.len() implies names(p0)[k] != n by {
                    assert(names(p0)[k] == np[k]);
                }
                assert forall|k: int| 0 <= k < q0.len() implies names(q0)[k] != n by {
                    assert(names(q0)[k] == nq[k]);
                }
                lemma_first_index_at(names(p0), n, p0.len() as int);
                lemma_first_index_at(names(q0), n, q0.len() as int);
            } else {
                lemma_lookup_drop_last(p, n);
                lemma_lookup_drop_last(q, n);
            }
        }
        lemma_same_rows_same_result(p0, q0);
        assert(p =~= p0.push(p.last()));
        assert(q =~= q0.push(q.last()));
    }
}

/// What is recorded for a predicate is what a lookup gives back, and the
/// other predicates keep theirs.
pub proof fn lemma_lookup_recorded(
    ps: Seq<(Chars, Seq<Seq<Chars>>)>,
    name: Chars,
    rows: Seq<Seq<Chars>>,
    other: Chars,
)
    ensures
        lookup(recorded(ps, name, rows), name) == Some(rows),
        other != name ==> lookup(recorded(ps, name, rows), other) == lookup(ps, other),
{
    let q = recorded(ps, name, rows);
    let ns = names(ps);
    lemma_first_index_spec(ns, name);
    lemma_first_index_spec(ns, other);
    match first_index(ns, name) {
        Some(i) => {
            assert(names(q) =~= ns);
        },
        None => {
            lemma_lookup_inserted(ps, name, rows, other);
        },
    }
}

pub open spec fn sum_rows(ps: Seq<(Chars, Seq<Seq<Chars>>)>) -> int
    decreases ps.len(),
{
    if ps.len() == 0 {
        0
    } else {
        sum_rows(ps.drop_last()) + ps.last().1.len()
    }
}

pub open spec fn pair_rows() -> spec_fn(Seq<Chars>) -> bool {
    |r: Seq<Chars>| r.len() >= 2
}

pub open spec fn triple_rows() -> spec_fn(Seq<Chars>) -> bool {
    |r: Seq<Chars>| r.len() >= 3
}

pub open spec fn quad_rows() -> spec_fn(Seq<Chars>) -> bool {
    |r: Seq<Chars>| r.len() >= 4
}

pub open spec fn single_rows() -> spec_fn(Seq<Chars>) -> bool {
    |r: Seq<Chars>| r.len() >= 1
}

pub open spec fn rows_of(ps: Seq<(Chars, Seq<Seq<Chars>>)>, name: Chars) -> Seq<Seq<Chars>> {
    match lookup(ps, name) {
        Some(rs) => rs,
        None => Seq::empty(),
    }
}

pub open spec fn str_refs(s: Seq<&str>) -> Seq<Chars> {
    s.map_values(|x: &str| x@)
}

impl ReasoningResult {
    /// The predicates are kept in strictly increasing name order.
    #[verifier::type_invariant]
    spec fn in_name_order(self) -> bool {
        strictly_sorted(names(pred_views(self.predicates@)))
    }

    pub closed spec fn total_spec(self) -> usize {
        self.total_facts
    }

    /// Total number of derived facts.
    pub fn total_facts(&self) -> (r: usize)
        ensures
            r == self.total_spec(),
            strictly_sorted(names(self@)),
    {
        proof { use_type_invariant(self); }
        self.total_facts
    }

    /// Record the total number of derived facts.
    pub fn set_total_facts(&mut self, n: usize)
        ensures
            final(self).total_spec() == n,
            final(self)@ == old(self)@,
    {
        proof { use_type_invariant(&*self); }
        self.total_facts = n;
    }

    /// An empty result.
    pub fn new() -> (r: ReasoningResult)
        ensures
            r@ == Seq::<(Chars, Seq<Seq<Chars>>)>::empty(),
            r.total_spec() == 0,
            strictly_sorted(names(r@)),
    {
        let r = ReasoningResult { predicates: Vec::new(), total_facts: 0 };
        assert(r@ =~= Seq::<(Chars, Seq<Seq<Chars>>)>::empty());
        r
    }

    fn position(&self, predicate: &str) -> (r: Option<usize>)
        ensures
            first_index(names(self@), predicate@) == match r {
                Some(i) => Some(i as int),
                None => None,
            },
            r matches Some(i) ==> i < self.predicates@.len(),
    {
        let ghost ns = names(self@);
        let mut i: usize = 0;
        while i < self.predicates.len()
            invariant
                i <= self.predicates@.len(),
                ns == names(self@),
                ns.len() == self.predicates@.len(),
                forall|k: int| 0 <= k < i ==> ns[k] != predicate@,
            decreases self.predicates@.len() - i,
        {
            assert(ns[i as int] == self.predicates@[i as int].name@);
            if str_eq(self.predicates[i].name.as_str(), predicate) {
                proof { lemma_first_index_at(ns, predicate@, i as int); }
                return Some(i);
            }
            i += 1;
        }
        proof { lemma_first_index_at(ns, predicate@, i as int); }
        None
    }

    /// Record the rows of a predicate (replacing earlier ones).
    pub fn insert(&mut self, predicate: String, rows: Vec<Vec<String>>)
        ensures
            final(self)@ == recorded(old(self)@, predicate@, rows_view(rows@)),
            final(self).total_spec() == old(self).total_spec(),
            strictly_sorted(names(final(self)@)),
    {
        proof {
            use_type_invariant(&*self);
            lemma_recorded_sorted(self@, predicate@, rows_view(rows@));
        }
        let ghost before = self@;
        let ghost entry = (predicate@, rows_view(rows@));
        let pos = self.position(predicate.as_str());
        let mut ps: Vec<PredicateRows> = Vec::new();
        std::mem::swap(&mut ps, &mut self.predicates);
        assert(pred_views(ps@) == before);
        match pos {
            Some(i) => {
                ps.set(i, PredicateRows { name: predicate, rows });
                assert(pred_views(ps@) =~= before.update(i as int, entry));
            },
            None => {
                let ghost ns = names(before);
                let mut k: usize = 0;
                while k < ps.len() && str_lt(ps[k].name.as_str(), predicate.as_str())
                    invariant
                        k <= ps@.len(),
                        before == pred_views(ps@),
                        ns == names(before),
                        ns.len() == ps@.len(),
                        forall|j: int| 0 <= j < k ==> lex_lt(#[trigger] ns[j], predicate@),
                    decreases ps@.len() - k,
                {
                    assert(ns[k as int] == ps@[k as int].name@);
                    k += 1;
                }
                if k < ps.len() {
                    assert(ns[k as int] == ps@[k as int].name@);
                }
                proof { lemma_insert_pos(ns, predicate@, k as int); }
                ps.insert(k, PredicateRows { name: predicate, rows });
                assert(pred_views(ps@) =~= before.insert(k as int, entry));
            },
        }
        self.predicates = ps;
    }

    /// The rows of a predicate.
    pub fn get(&self, predicate: &str) -> (r: Option<&Vec<Vec<String>>>)
        ensures
            match r {
                Some(rows) => lookup(self@, predicate@) == Some(rows_view(rows@)),
                None => lookup(self@, predicate@) is None,
            },
    {
        match self.position(predicate) {
            Some(i) => {
                assert(self@[i as int].1 == rows_view(self.predicates@[i as int].rows@));
                Some(&self.predicates[i].rows)
            },
            None => None,
        }
    }

    /// Whether some fact was derived for a predicate.
    pub fn has(&self, predicate: &str) -> (r: bool)
        ensures
            r == (rows_of(self@, predicate@).len() > 0),
    {
        match self.get(predicate) {
            Some(rows) => rows.len() > 0,
            None => false,
        }
    }

    /// Whether a specific tuple was derived for a predicate.
    pub fn contains(&self, predicate: &str, args: &[&str]) -> (r: bool)
        ensures
            r == rows_of(self@, predicate@).contains(str_refs(args@)),
    {
        let rows = match self.get(predicate) {
            Some(rows) => rows,
            None => {
                return false;
            },
        };
        let ghost rv = rows_view(rows@);
        let ghost want = str_refs(args@);
        let mut i: usize = 0;
        while i < rows.len()
            invariant
                i <= rows@.len(),
                rv == rows_view(rows@),
                lookup(self@, predicate@) == Some(rv),
                want == str_refs(args@),
                forall|k: int| 0 <= k < i ==> rv[k] != want,
            decreases rows@.len() - i,
        {
            let row = &rows[i];
            assert(rv[i as int] == views(row@));
            if row.len() == args.len() {
                let mut k: usize = 0;
                let mut same = true;
                while k < row.len()
                    invariant
                        k <= row@.len() == args@.len(),
                        same == forall|m: int| 0 <= m < k ==> #[trigger] row@[m]@ == args@[m]@,
                    decreases row@.len() - k,
                {
                    if !str_eq(row[k].as_str(), args[k]) {
                        same = false;
                    }
                    k += 1;
                }
                if same {
                    assert(views(row@) =~= want);
                    assert(rv[i as int] == want);
                    return true;
                } else {
                    assert(views(row@) != want) by {
                        let m = choose|m: int| 0 <= m < row@.len() && !(#[trigger] row@[m]@ == args@[m]@);
                        assert(views(row@)[m] != want[m]);
                    }
                }
            } else {
                assert(views(row@).len() != want.len());
            }
            i += 1;
        }
        false
    }

    /// The number of predicates recorded.
    pub fn predicate_count(&self) -> (r: usize)
        ensures
            r == self@.len(),
            strictly_sorted(names(self@)),
    {
        proof { use_type_invariant(self); }
        self.predicates.len()
    }

    /// The `i`th predicate recorded, with its rows.
    pub fn predicate_at(&self, i: usize) -> (r: (&String, &Vec<Vec<String>>))
        requires
            i < self@.len(),
        ensures
            r.0@ == self@[i as int].0,
            rows_view(r.1@) == self@[i as int].1,
    {
        let p = &self.predicates[i];
        (&p.name, &p.rows)
    }

    /// All predicate names that have facts.
    pub fn predicate_names(&self) -> (r: Vec<&String>)
        ensures
            r@.map_values(|s: &String| s@) == names(self@),
            strictly_sorted(names(self@)),
    {
        proof { use_type_invariant(self); }
        let mut r: Vec<&String> = Vec::new();
        let mut i: usize = 0;
        while i < self.predicates.len()
            invariant
                i <= self.predicates@.len(),
                r@.map_values(|s: &String| s@) == names(self@).take(i as int),
            decreases self.predicates@.len() - i,
        {
            let ghost prev = r@;
            assert(names(self@)[i as int] == self.predicates@[i as int].name@);
            r.push(&self.predicates[i].name);
            assert(r@.map_values(|s: &String| s@) =~= prev.map_values(|s: &String| s@).push(
                self.predicates@[i as int].name@,
            ));
            assert(names(self@).take(i + 1) =~= names(self@).take(i as int).push(names(self@)[i as int]));
            assert(r@.map_values(|s: &String| s@) =~= names(self@).take(i + 1));
            i += 1;
        }
        assert(names(self@).take(self.predicates@.len() as int) =~= names(self@));
        r
    }

    /// Rows with at least two values, as `(a, b)` pairs.
    pub fn pairs(&self, predicate: &str) -> (r: Vec<(&str, &str)>)
        ensures
            r@.map_values(|p: (&str, &str)| (p.0@, p.1@)) == rows_of(self@, predicate@).filter(
                pair_rows(),
            ).map_values(|row: Seq<Chars>| (row[0], row[1])),
    {
        let mut r: Vec<(&str, &str)> = Vec::new();
        let rows = match self.get(predicate) {
            Some(rows) => rows,
            None => {
                assert(r@.map_values(|p: (&str, &str)| (p.0@, p.1@)) =~= Seq::<Seq<Chars>>::empty().filter(pair_rows()).map_values(|row: Seq<Chars>| (row[0], row[1])));
                return r;
            },
        };
        let ghost rv = rows_view(rows@);
        let mut i: usize = 0;
        while i < rows.len()
            invariant
                i <= rows@.len(),
                rv == rows_view(rows@),
                r@.map_values(|p: (&str, &str)| (p.0@, p.1@)) == rv.take(i as int).filter(pair_rows()).map_values(
                    |row: Seq<Chars>| (row[0], row[1]),
                ),
            decreases rows@.len() - i,
        {
            assert(rv.take(i + 1) == rv.take(i as int).push(rv[i as int]));
            proof { rv.take(i as int).lemma_filter_push(rv[i as int], pair_rows()); }
            let row = &rows[i];
            assert(rv[i as int] == views(row@));
            if row.len() >= 2 {
                let ghost prev = r@;
                r.push((row[0].as_str(), row[1].as_str()));
                assert(r@.map_values(|p: (&str, &str)| (p.0@, p.1@)) =~= prev.map_values(
                    |p: (&str, &str)| (p.0@, p.1@),
                ).push((rv[i as int][0], rv[i as int][1])));
            }
            i += 1;
        }
        assert(rv.take(rows@.len() as int) == rv);
        r
    }

    /// Rows with at least three values, as `(a, b, c)` triples.
    pub fn triples(&self, predicate: &str) -> (r: Vec<(&str, &str, &str)>)
        ensures
            r@.map_values(|p: (&str, &str, &str)| (p.0@, p.1@, p.2@)) == rows_of(self@, predicate@).filter(
                triple_rows(),
            ).map_values(|row: Seq<Chars>| (row[0], row[1], row[2])),
    {
        let mut r: Vec<(&str, &str, &str)> = Vec::new();
        let rows = match self.get(predicate) {
            Some(rows) => rows,
            None => {
                assert(r@.map_values(|p: (&str, &str, &str)| (p.0@, p.1@, p.2@)) =~= Seq::<Seq<Chars>>::empty().filter(triple_rows()).map_values(|row: Seq<Chars>| (row[0], row[1], row[2])));
                return r;
            },
        };
        let ghost rv = rows_view(rows@);
        let mut i: usize = 0;
        while i < rows.len()
            invariant
                i <= rows@.len(),
                rv == rows_view(rows@),
                r@.map_values(|p: (&str, &str, &str)| (p.0@, p.1@, p.2@)) == rv.take(i as int).filter(
                    triple_rows(),
                ).map_values(|row: Seq<Chars>| (row[0], row[1], row[2])),
            decreases rows@.len() - i,
        {
            assert(rv.take(i + 1) == rv.take(i as int).push(rv[i as int]));
            proof { rv.take(i as int).lemma_filter_push(rv[i as int], triple_rows()); }
            let row = &rows[i];
            assert(rv[i as int] == views(row@));
            if row.len() >= 3 {
                let ghost prev = r@;
                r.push((row[0].as_str(), row[1].as_str(), row[2].as_str()));
                assert(r@.map_values(|p: (&str, &str, &str)| (p.0@, p.1@, p.2@)) =~= prev.map_values(
                    |p: (&str, &str, &str)| (p.0@, p.1@, p.2@),
                ).push((rv[i as int][0], rv[i as int][1], rv[i as int][2])));
            }
            i += 1;
        }
        assert(rv.take(rows@.len() as int) == rv);
        r
    }

    /// Rows with at least four values, as `(a, b, c, d)` quads.
    pub fn quads(&self, predicate: &str) -> (r: Vec<(&str, &str, &str, &str)>)
        ensures
            r@.map_values(|p: (&str, &str, &str, &str)| (p.0@, p.1@, p.2@, p.3@)) == rows_of(
                self@,
                predicate@,
            ).filter(quad_rows()).map_values(|row: Seq<Chars>| (row[0], row[1], row[2], row[3])),
    {
        let mut r: Vec<(&str, &str, &str, &str)> = Vec::new();
        let rows = match self.get(predicate) {
            Some(rows) => rows,
            None => {
                assert(r@.map_values(|p: (&str, &str, &str, &str)| (p.0@, p.1@, p.2@, p.3@)) =~= Seq::<Seq<Chars>>::empty().filter(quad_rows()).map_values(|row: Seq<Chars>| (row[0], row[1], row[2], row[3])));
                return r;
            },
        };
        let ghost rv = rows_view(rows@);
        let mut i: usize = 0;
        while i < rows.len()
            invariant
                i <= rows@.len(),
                rv == rows_view(rows@),
                r@.map_values(|p: (&str, &str, &str, &str)| (p.0@, p.1@, p.2@, p.3@)) == rv.take(i as int).filter(
                    quad_rows(),
                ).map_values(|row: Seq<Chars>| (row[0], row[1], row[2], row[3])),
            decreases rows@.len() - i,
        {
            assert(rv.take(i + 1) == rv.take(i as int).push(rv[i as int]));
            proof { rv.take(i as int).lemma_filter_push(rv[i as int], quad_rows()); }
            let row = &rows[i];
            assert(rv[i as int] == views(row@));
            if row.len() >= 4 {
                let ghost prev = r@;
                r.push((row[0].as_str(), row[1].as_str(), row[2].as_str(), row[3].as_str()));
                assert(r@.map_values(|p: (&str, &str, &str, &str)| (p.0@, p.1@, p.2@, p.3@)) =~= prev.map_values(
                    |p: (&str, &str, &str, &str)| (p.0@, p.1@, p.2@, p.3@),
                ).push((rv[i as int][0], rv[i as int][1], rv[i as int][2], rv[i as int][3])));
            }
            i += 1;
        }
        assert(rv.take(rows@.len() as int) == rv);
        r
    }

    /// First values of the non-empty rows.
    pub fn singles(&self, predicate: &str) -> (r: Vec<&str>)
        ensures
            r@.map_values(|p: &str| p@) == rows_of(self@, predicate@).filter(single_rows()).map_values(
                |row: Seq<Chars>| row[0],
            ),
    {
        let mut r: Vec<&str> = Vec::new();
        let rows = match self.get(predicate) {
            Some(rows) => rows,
            None => {
                assert(r@.map_values(|p: &str| p@) =~= Seq::<Seq<Chars>>::empty().filter(single_rows()).map_values(|row: Seq<Chars>| row[0]));
                return r;
            },
        };
        let ghost rv = rows_view(rows@);
        let mut i: usize = 0;
        while i < rows.len()
            invariant
                i <= rows@.len(),
                rv == rows_view(rows@),
                r@.map_values(|p: &str| p@) == rv.take(i as int).filter(single_rows()).map_values(
                    |row: Seq<Chars>| row[0],
                ),
            decreases rows@.len() - i,
        {
            assert(rv.take(i + 1) == rv.take(i as int).push(rv[i as int]));
            proof { rv.take(i as int).lemma_filter_push(rv[i as int], single_rows()); }
            let row = &rows[i];
            assert(rv[i as int] == views(row@));
            if row.len() >= 1 {
                let ghost prev = r@;
                r.push(row[0].as_str());
                assert(r@.map_values(|p: &str| p@) =~= prev.map_values(|p: &str| p@).push(rv[i as int][0]));
            }
            i += 1;
        }
        assert(rv.take(rows@.len() as int) == rv);
        r
    }
}

// ── Program text and engine output ──────────────────────────────

/// A line that is blank or a `%` comment once trimmed.
pub open spec fn comment_or_blank(l: Chars) -> bool {
    trim(l).len() == 0 || trim(l)[0] == '%'
}

/// A program with nothing to reason on: every line blank or a comment.
pub open spec fn nothing_to_reason(text: Chars) -> bool {
    forall|i: int| 0 <= i < lines_of(text).len() ==> comment_or_blank(#[trigger] lines_of(text)[i])
}

/// Whether a program text holds nothing but blank lines and comments, so
/// that reasoning on it gives an empty result without running the engine.
pub fn is_empty_program(program_text: &str) -> (r: bool)
    ensures
        r == nothing_to_reason(program_text@),
{
    let v = chars_of(program_text);
    let lines = split_lines(&v);
    let ghost ls = lines_of(program_text@);
    assert(lines@.map_values(|l: Vec<char>| l@) == ls);
    let mut i: usize = 0;
    while i < lines.len()
        invariant
            i <= lines@.len(),
            lines@.map_values(|l: Vec<char>| l@) == ls,
            ls == lines_of(program_text@),
            forall|j: int| 0 <= j < i ==> comment_or_blank(#[trigger] ls[j]),
        decreases lines@.len() - i,
    {
        let l = &lines[i];
        assert(ls[i as int] == l@);
        let (lo, hi) = trim_bounds(l);
        if lo < hi && l[lo] != '%' {
            assert(trim(l@)[0] == l@[lo as int]);
            assert(!comment_or_blank(lines_of(program_text@)[i as int]));
            return false;
        }
        if lo < hi {
            assert(trim(l@)[0] == l@[lo as int]);
        }
        i += 1;
    }
    true
}

/// An engine value without the `<` `>` that enclose an IRI.
pub open spec fn iri_stripped(s: Chars) -> Chars {
    if s.len() >= 2 && s[0] == '<' && s.last() == '>' {
        s.subrange(1, s.len() - 1)
    } else {
        s
    }
}

/// Strip the `<>` brackets of an IRI from an engine value.
pub fn strip_iri_brackets(s: &str) -> (r: String)
    ensures
        r@ == iri_stripped(s@),
{
    let v = chars_of(s);
    let n = v.len();
    if n >= 2 && v[0] == '<' && v[n - 1] == '>' {
        string_from(v.as_slice(), 1, n - 1)
    } else {
        assert(v@.subrange(0, n as int) == v@);
        string_from(v.as_slice(), 0, n)
    }
}

} // verus!
