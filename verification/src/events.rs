//! Events from raw novel text — one per paragraph that mentions a known
//! character — and how often characters appear together.
use vstd::prelude::*;


use crate::extractor::{CooccurrenceMatrix, Roster, char_count_views, entry_views, pair_count_views};
use crate::history::{lemma_first_index_at, lemma_first_index_spec};
use crate::loader::{Novel, ParagraphV, paragraph_list, paragraph_views};
use crate::op::first_index;
use crate::text::{
    Chars, chars_of, contains_run, has_infix, insert_sorted, lemma_lex_irreflexive, lemma_lex_total,
    lemma_lex_transitive, lemma_pair_order, lemma_sorted_of, lex_lt, owned, pair_less, pair_lt,
    sorted_members, sorted_of, str_eq, str_lt, strictly_sorted, strictly_sorted_pairs, views,
};

verus! {

broadcast use vstd::seq_lib::group_seq_properties;

/// A paragraph-level event extracted from raw text. (Its emotional valence
/// is a floating-point estimate kept beside it.)
#[derive(Debug)]
pub struct RawEvent {
    pub chapter_index: usize,
    pub paragraph_index: usize,
    /// Ids of the characters mentioned, in increasing order, each once.
    pub characters: Vec<String>,
    /// Ids of the locations mentioned, in increasing order, each once.
    pub locations: Vec<String>,
    /// Paragraph text.
    pub text: String,
    /// Sequence number (global ordering).
    pub seq: u32,
}

pub ghost struct RawEventV {
    pub chapter_index: nat,
    pub paragraph_index: nat,
    pub characters: Seq<Chars>,
    pub locations: Seq<Chars>,
    pub text: Chars,
    pub seq: u32,
}

impl View for RawEvent {
    type V = RawEventV;

    open spec fn view(&self) -> RawEventV {
        RawEventV {
            chapter_index: self.chapter_index as nat,
            paragraph_index: self.paragraph_index as nat,
            characters: views(self.characters@),
            locations: views(self.locations@),
            text: self.text@,
            seq: self.seq,
        }
    }
}

pub open spec fn event_views(es: Seq<RawEvent>) -> Seq<RawEventV> {
    es.map_values(|e: RawEvent| e@)
}

/// The ids of the dictionary entries whose name occurs in the text.
pub open spec fn matching_ids(text: Chars, dict: Seq<(Chars, Chars)>) -> Seq<Chars> {
    dict.filter(|e: (Chars, Chars)| has_infix(text, e.0)).map_values(|e: (Chars, Chars)| e.1)
}

/// Find all entity mentions in text: the ids whose names occur in it, in
/// increasing order, each once.
pub fn find_entities(text: &str, dictionary: &Vec<(String, String)>) -> (r: Vec<String>)
    ensures
        views(r@) == sorted_of(matching_ids(text@, entry_views(dictionary@))),
        sorted_members(views(r@), matching_ids(text@, entry_views(dictionary@))),
{
    let tv = chars_of(text);
    let ghost dv = entry_views(dictionary@);
    let ghost pred = |e: (Chars, Chars)| has_infix(text@, e.0);
    let mut found: Vec<String> = Vec::new();
    let mut i: usize = 0;
    while i < dictionary.len()
        invariant
            i <= dictionary@.len(),
            tv@ == text@,
            dv == entry_views(dictionary@),
            pred == (|e: (Chars, Chars)| has_infix(text@, e.0)),
            sorted_members(views(found@), dv.take(i as int).filter(pred).map_values(|e: (Chars, Chars)| e.1)),
        decreases dictionary@.len() - i,
    {
        let ghost before = dv.take(i as int).filter(pred).map_values(|e: (Chars, Chars)| e.1);
        proof {
            assert(dv.take(i + 1) == dv.take(i as int).push(dv[i as int]));
            dv.take(i as int).lemma_filter_push(dv[i as int], pred);
        }
        assert(dv[i as int] == (dictionary@[i as int].0@, dictionary@[i as int].1@));
        if contains_run(&tv, dictionary[i].0.as_str()) {
            insert_sorted(&mut found, dictionary[i].1.as_str());
            let ghost after = dv.take(i + 1).filter(pred).map_values(|e: (Chars, Chars)| e.1);
            assert(after =~= before.push(dv[i as int].1));
            assert forall|y: Chars| #[trigger] after.contains(y) <==> (before.contains(y) || y == dv[i as int].1) by {
                if after.contains(y) {
                    let k = choose|k: int| 0 <= k < after.len() && after[k] == y;
                    if k < before.len() {
                        assert(before[k] == y);
                    }
                }
                if before.contains(y) {
                    let k = choose|k: int| 0 <= k < before.len() && before[k] == y;
                    assert(after[k] == y);
                }
                if y == dv[i as int].1 {
                    assert(after[before.len() as int] == y);
                }
            }
        } else {
            assert(dv.take(i + 1).filter(pred).map_values(|e: (Chars, Chars)| e.1) =~= before);
        }
        i += 1;
    }
    assert(dv.take(dictionary@.len() as int) =~= dv);
    proof { lemma_sorted_of(views(found@), matching_ids(text@, dv)); }
    found
}

/// The events of a run of paragraphs: every paragraph that mentions a
/// character gives one, numbered in order.
pub open spec fn events_spec(ps: Seq<ParagraphV>, chars: Seq<(Chars, Chars)>, locs: Seq<(Chars, Chars)>) -> Seq<
    RawEventV,
>
    decreases ps.len(),
{
    if ps.len() == 0 {
        Seq::empty()
    } else {
        let prev = events_spec(ps.drop_last(), chars, locs);
        let p = ps.last();
        let cs = sorted_of(matching_ids(p.text, chars));
        if cs.len() == 0 {
            prev
        } else {
            prev.push(
                RawEventV {
                    chapter_index: p.chapter_index,
                    paragraph_index: p.paragraph_index,
                    characters: cs,
                    locations: sorted_of(matching_ids(p.text, locs)),
                    text: p.text,
                    seq: prev.len() as u32,
                },
            )
        }
    }
}

proof fn lemma_events_len(ps: Seq<ParagraphV>, chars: Seq<(Chars, Chars)>, locs: Seq<(Chars, Chars)>)
    ensures
        events_spec(ps, chars, locs).len() <= ps.len(),
    decreases ps.len(),
{
    if ps.len() > 0 {
        lemma_events_len(ps.drop_last(), chars, locs);
    }
}

/// Extract events from a novel using a roster: one per paragraph that
/// mentions a character.
pub fn extract_events(novel: &Novel, roster: &Roster) -> (r: Vec<RawEvent>)
    requires
        paragraph_list(novel@.chapters).len() <= u32::MAX,
    ensures
        event_views(r@) == events_spec(
            paragraph_list(novel@.chapters),
            entry_views(roster.characters@),
            entry_views(roster.locations@),
        ),
{
    let paragraphs = novel.paragraphs();
    let ghost pv = paragraph_views(paragraphs@);
    let ghost cv = entry_views(roster.characters@);
    let ghost lv = entry_views(roster.locations@);
    let mut events: Vec<RawEvent> = Vec::new();
    let mut seq: u32 = 0;
    let mut i: usize = 0;
    while i < paragraphs.len()
        invariant
            i <= paragraphs@.len(),
            pv == paragraph_views(paragraphs@),
            pv.len() <= u32::MAX,
            cv == entry_views(roster.characters@),
            lv == entry_views(roster.locations@),
            event_views(events@) == events_spec(pv.take(i as int), cv, lv),
            seq as nat == events@.len(),
            events@.len() <= i,
        decreases paragraphs@.len() - i,
    {
        let para = &paragraphs[i];
        proof {
            assert(pv.take(i + 1).drop_last() == pv.take(i as int));
            assert(pv.take(i + 1).last() == para@);
        }
        let characters = find_entities(para.text.as_str(), &roster.characters);
        if characters.len() > 0 {
            let locations = find_entities(para.text.as_str(), &roster.locations);
            let ghost prev = event_views(events@);
            events.push(
                RawEvent {
                    chapter_index: para.chapter_index,
                    paragraph_index: para.paragraph_index,
                    characters,
                    locations,
                    text: owned(para.text.as_str()),
                    seq,
                },
            );
            assert(event_views(events@) =~= events_spec(pv.take(i + 1), cv, lv));
            seq = seq + 1;
        }
        i += 1;
    }
    assert(pv.take(paragraphs@.len() as int) == pv);
    events
}

// ── Co-occurrence ────────────────────────────────────────────────

/// How many events list the character.
pub open spec fn appearances(es: Seq<RawEventV>, c: Chars) -> nat {
    es.filter(|e: RawEventV| e.characters.contains(c)).len()
}

/// How many events list both characters.
pub open spec fn together(es: Seq<RawEventV>, a: Chars, b: Chars) -> nat {
    es.filter(|e: RawEventV| e.characters.contains(a) && e.characters.contains(b)).len()
}

/// The count recorded for a key (0 when absent).
pub open spec fn count_in<K>(v: Seq<(K, nat)>, k: K) -> nat {
    match first_index(v.map_values(|e: (K, nat)| e.0), k) {
        Some(i) => v[i].1,
        None => 0,
    }
}

pub open spec fn count_keys<K>(v: Seq<(K, nat)>) -> Seq<K> {
    v.map_values(|e: (K, nat)| e.0)
}

/// Keys in increasing order, each with a positive count.
pub open spec fn counts_wf(v: Seq<(Chars, nat)>) -> bool {
    strictly_sorted(count_keys(v)) && forall|i: int| 0 <= i < v.len() ==> (#[trigger] v[i]).1 > 0
}

pub open spec fn pair_counts_wf(v: Seq<((Chars, Chars), nat)>) -> bool {
    strictly_sorted_pairs(count_keys(v)) && forall|i: int| 0 <= i < v.len() ==> (#[trigger] v[i]).1 > 0
}

proof fn lemma_sorted_lookup(s: Seq<Chars>, i: int)
    requires
        strictly_sorted(s),
        0 <= i < s.len(),
    ensures
        first_index(s, s[i]) == Some(i),
{
    assert forall|k: int| 0 <= k < i implies s[k] != s[i] by {
        lemma_lex_irreflexive(s[i]);
    }
    lemma_first_index_at(s, s[i], i);
}

proof fn lemma_sorted_pair_lookup(s: Seq<(Chars, Chars)>, i: int)
    requires
        strictly_sorted_pairs(s),
        0 <= i < s.len(),
    ensures
        first_index(s, s[i]) == Some(i),
{
    assert forall|k: int| 0 <= k < i implies s[k] != s[i] by {
        lemma_pair_order(s[i], s[i], s[i]);
    }
    lemma_first_index_at(s, s[i], i);
}

/// Adds one to the count of `k`.
fn bump(v: &mut Vec<(String, u32)>, k: &str)
    requires
        counts_wf(char_count_views(old(v)@)),
        count_in(char_count_views(old(v)@), k@) < u32::MAX,
    ensures
        counts_wf(char_count_views(final(v)@)),
        forall|x: Chars| #[trigger] count_in(char_count_views(final(v)@), x) == count_in(char_count_views(old(v)@), x) + if x
            == k@ {
            1nat
        } else {
            0nat
        },
{
    let ghost s = char_count_views(v@);
    let ghost ks = count_keys(s);
    let mut i: usize = 0;
    while i < v.len() && str_lt(v[i].0.as_str(), k)
        invariant
            i <= v@.len(),
            s == char_count_views(v@),
            ks == count_keys(s),
            v@ == old(v)@,
            counts_wf(s),
            forall|j: int| 0 <= j < i ==> lex_lt(#[trigger] ks[j], k@),
        decreases v@.len() - i,
    {
        i += 1;
    }
    if i < v.len() && str_eq(v[i].0.as_str(), k) {
        proof { lemma_sorted_lookup(ks, i as int); }
        let c = v[i].1;
        let key = owned(v[i].0.as_str());
        v.set(i, (key, c + 1));
        proof {
            let s2 = char_count_views(v@);
            assert(s2 =~= s.update(i as int, (k@, (c + 1) as nat)));
            assert(count_keys(s2) =~= ks);
            assert forall|x: Chars| #[trigger] count_in(s2, x) == count_in(s, x) + if x == k@ {
                1nat
            } else {
                0nat
            } by {
                lemma_first_index_spec(ks, x);
            }
        }
    } else {
        proof {
            if i < ks.len() {
                lemma_lex_total(ks[i as int], k@);
            }
            assert forall|j: int| i <= j < ks.len() implies lex_lt(k@, #[trigger] ks[j]) by {
                if j > i {
                    lemma_lex_transitive(k@, ks[i as int], ks[j]);
                }
            }
        }
        v.insert(i, (owned(k), 1));
        proof {
            let s2 = char_count_views(v@);
            let ks2 = count_keys(s2);
            assert(s2 =~= s.insert(i as int, (k@, 1nat)));
            assert(ks2 =~= ks.insert(i as int, k@));
            assert forall|a: int, b: int| 0 <= a < b < ks2.len() implies lex_lt(#[trigger] ks2[a], #[trigger] ks2[b]) by {
                if b < i {
                } else if b == i {
                } else if a < i {
                    lemma_lex_transitive(ks[a], k@, ks[b - 1]);
                } else if a == i {
                } else {
                }
            }
            assert(!ks.contains(k@)) by {
                if ks.contains(k@) {
                    let j = choose|j: int| 0 <= j < ks.len() && ks[j] == k@;
                    lemma_lex_irreflexive(k@);
                }
            }
            assert forall|x: Chars| #[trigger] count_in(s2, x) == count_in(s, x) + if x == k@ {
                1nat
            } else {
                0nat
            } by {
                lemma_first_index_spec(ks, x);
                if x == k@ {
                    lemma_sorted_lookup(ks2, i as int);
                } else {
                    match first_index(ks, x) {
                        Some(j) => {
                            if j < i {
                                lemma_sorted_lookup(ks2, j);
                                assert(ks2[j] == x);
                            } else {
                                lemma_sorted_lookup(ks2, j + 1);
                                assert(ks2[j + 1] == x);
                            }
                        },
                        None => {
                            lemma_first_index_spec(ks2, x);
                            if first_index(ks2, x) is Some {
                                let j = first_index(ks2, x)->0;
                                if j < i {
                                    assert(ks[j] == x);
                                } else if j > i {
                                    assert(ks[j - 1] == x);
                                }
                            }
                        },
                    }
                }
            }
        }
    }
}

/// Adds one to the count of the pair `(k0, k1)`.
fn bump_pair(v: &mut Vec<((String, String), u32)>, k0: &str, k1: &str)
    requires
        pair_counts_wf(pair_count_views(old(v)@)),
        count_in(pair_count_views(old(v)@), (k0@, k1@)) < u32::MAX,
    ensures
        pair_counts_wf(pair_count_views(final(v)@)),
        forall|x: (Chars, Chars)| #[trigger] count_in(pair_count_views(final(v)@), x) == count_in(pair_count_views(old(v)@), x) + if x
            == (k0@, k1@) {
            1nat
        } else {
            0nat
        },
{
    let ghost k = (k0@, k1@);
    let ghost s = pair_count_views(v@);
    let ghost ks = count_keys(s);
    let mut i: usize = 0;
    while i < v.len() && pair_less(&v[i].0, k0, k1)
        invariant
            i <= v@.len(),
            s == pair_count_views(v@),
            ks == count_keys(s),
            v@ == old(v)@,
            k == (k0@, k1@),
            pair_counts_wf(s),
            forall|j: int| 0 <= j < i ==> pair_lt(#[trigger] ks[j], k),
        decreases v@.len() - i,
    {
        assert(ks[i as int] == (v@[i as int].0.0@, v@[i as int].0.1@));
        i += 1;
    }
    if i < v.len() && str_eq(v[i].0.0.as_str(), k0) && str_eq(v[i].0.1.as_str(), k1) {
        assert(ks[i as int] == k);
        proof { lemma_sorted_pair_lookup(ks, i as int); }
        let c = v[i].1;
        let key = (owned(k0), owned(k1));
        v.set(i, (key, c + 1));
        proof {
            let s2 = pair_count_views(v@);
            assert(s2 =~= s.update(i as int, (k, (c + 1) as nat)));
            assert(count_keys(s2) =~= ks);
            assert forall|x: (Chars, Chars)| #[trigger] count_in(s2, x) == count_in(s, x) + if x == k {
                1nat
            } else {
                0nat
            } by {
                lemma_first_index_spec(ks, x);
            }
        }
    } else {
        proof {
            if i < ks.len() {
                assert(ks[i as int] == (v@[i as int].0.0@, v@[i as int].0.1@));
                assert(!pair_lt(ks[i as int], k));
                assert(ks[i as int] != k);
                lemma_pair_order(ks[i as int], k, k);
                lemma_pair_order(k, ks[i as int], k);
            }
            assert forall|j: int| i <= j < ks.len() implies pair_lt(k, #[trigger] ks[j]) by {
                if j > i {
                    lemma_pair_order(k, ks[i as int], ks[j]);
                }
            }
        }
        v.insert(i, ((owned(k0), owned(k1)), 1));
        proof {
            let s2 = pair_count_views(v@);
            let ks2 = count_keys(s2);
            assert(s2 =~= s.insert(i as int, (k, 1nat)));
            assert(ks2 =~= ks.insert(i as int, k));
            assert forall|a: int, b: int| 0 <= a < b < ks2.len() implies pair_lt(#[trigger] ks2[a], #[trigger] ks2[b]) by {
                if b < i {
                } else if b == i {
                } else if a < i {
                    lemma_pair_order(ks[a], k, ks[b - 1]);
                } else if a == i {
                } else {
                }
            }
            assert(!ks.contains(k)) by {
                if ks.contains(k) {
                    let j = choose|j: int| 0 <= j < ks.len() && ks[j] == k;
                    lemma_pair_order(k, k, k);
                }
            }
            assert forall|x: (Chars, Chars)| #[trigger] count_in(s2, x) == count_in(s, x) + if x == k {
                1nat
            } else {
                0nat
            } by {
                lemma_first_index_spec(ks, x);
                if x == k {
                    lemma_sorted_pair_lookup(ks2, i as int);
                } else {
                    match first_index(ks, x) {
                        Some(j) => {
                            if j < i {
                                lemma_sorted_pair_lookup(ks2, j);
                                assert(ks2[j] == x);
                            } else {
                                lemma_sorted_pair_lookup(ks2, j + 1);
                                assert(ks2[j + 1] == x);
                            }
                        },
                        None => {
                            lemma_first_index_spec(ks2, x);
                            if first_index(ks2, x) is Some {
                                let j = first_index(ks2, x)->0;
                                if j < i {
                                    assert(ks[j] == x);
                                } else if j > i {
                                    assert(ks[j - 1] == x);
                                }
                            }
                        },
                    }
                }
            }
        }
    }
}

/// Each event lists its characters in increasing order, each once.
pub open spec fn events_wf(es: Seq<RawEventV>) -> bool {
    forall|i: int| 0 <= i < es.len() ==> strictly_sorted(#[trigger] es[i].characters)
}

pub open spec fn ind(b: bool) -> nat {
    if b {
        1
    } else {
        0
    }
}

proof fn lemma_appearances_step(es: Seq<RawEventV>, k: int, c: Chars)
    requires
        0 <= k < es.len(),
    ensures
        appearances(es.take(k + 1), c) == appearances(es.take(k), c) + ind(es[k].characters.contains(c)),
        together(es.take(k + 1), c, c) == together(es.take(k), c, c) + ind(es[k].characters.contains(c)),
{
    assert(es.take(k + 1) == es.take(k).push(es[k]));
    es.take(k).lemma_filter_push(es[k], |e: RawEventV| e.characters.contains(c));
    es.take(k).lemma_filter_push(es[k], |e: RawEventV| e.characters.contains(c) && e.characters.contains(c));
}

proof fn lemma_together_step(es: Seq<RawEventV>, k: int, a: Chars, b: Chars)
    requires
        0 <= k < es.len(),
    ensures
        together(es.take(k + 1), a, b) == together(es.take(k), a, b) + ind(
            es[k].characters.contains(a) && es[k].characters.contains(b),
        ),
{
    assert(es.take(k + 1) == es.take(k).push(es[k]));
    es.take(k).lemma_filter_push(es[k], |e: RawEventV| e.characters.contains(a) && e.characters.contains(b));
}

proof fn lemma_counts_bounded(es: Seq<RawEventV>, k: int, a: Chars, b: Chars)
    requires
        0 <= k <= es.len(),
    ensures
        appearances(es.take(k), a) <= k,
        together(es.take(k), a, b) <= k,
{
    es.take(k).lemma_filter_len(|e: RawEventV| e.characters.contains(a));
    es.take(k).lemma_filter_len(|e: RawEventV| e.characters.contains(a) && e.characters.contains(b));
}

/// In a strictly sorted list, the elements after position `i` are those
/// above `cs[i]`.
proof fn lemma_after(cs: Seq<Chars>, i: int, j: int, b: Chars)
    requires
        strictly_sorted(cs),
        0 <= i < cs.len(),
        i < j <= cs.len(),
    ensures
        cs.subrange(i + 1, j).contains(b) <==> (exists|q: int| i < q < j && cs[q] == b),
        (exists|q: int| i < q < cs.len() && cs[q] == b) <==> (cs.contains(b) && lex_lt(cs[i], b)),
{
    let t = cs.subrange(i + 1, j);
    if t.contains(b) {
        let q = choose|q: int| 0 <= q < t.len() && t[q] == b;
        assert(cs[i + 1 + q] == b);
    }
    if exists|q: int| i < q < j && cs[q] == b {
        let q = choose|q: int| i < q < j && cs[q] == b;
        assert(t[q - i - 1] == b);
    }
    if cs.contains(b) && lex_lt(cs[i], b) {
        let q = choose|q: int| 0 <= q < cs.len() && cs[q] == b;
        if q <= i {
            if q < i {
                lemma_lex_transitive(cs[i], b, cs[i]);
            }
            lemma_lex_irreflexive(cs[i]);
        }
    }
}

/// Growing a slice by one element adds exactly that element.
proof fn lemma_grow_contains(cs: Seq<Chars>, lo: int, hi: int, c: Chars)
    requires
        0 <= lo <= hi < cs.len(),
    ensures
        cs.subrange(lo, hi + 1).contains(c) <==> (cs.subrange(lo, hi).contains(c) || c == cs[hi]),
{
    let t0 = cs.subrange(lo, hi);
    let t1 = cs.subrange(lo, hi + 1);
    assert(t1 =~= t0.push(cs[hi]));
    if t1.contains(c) {
        let q = choose|q: int| 0 <= q < t1.len() && #[trigger] t1[q] == c;
        if q < t0.len() {
            assert(t0[q] == c);
        }
    }
    if t0.contains(c) {
        let q = choose|q: int| 0 <= q < t0.len() && #[trigger] t0[q] == c;
        assert(t1[q] == c);
    }
    if c == cs[hi] {
        assert(t1[hi - lo] == c);
    }
}

/// Character co-occurrence: for each character the number of events
/// listing it, and for each pair `a < b` the number of events listing both.
pub fn build_cooccurrence(events: &Vec<RawEvent>) -> (r: CooccurrenceMatrix)
    requires
        events@.len() < u32::MAX,
        events_wf(event_views(events@)),
    ensures
        counts_wf(char_count_views(r.counts@)),
        forall|c: Chars| #[trigger] count_in(char_count_views(r.counts@), c) == appearances(event_views(events@), c),
        pair_counts_wf(pair_count_views(r.pairs@)),
        forall|a: Chars, b: Chars| #[trigger] count_in(pair_count_views(r.pairs@), (a, b)) == if lex_lt(a, b) {
            together(event_views(events@), a, b)
        } else {
            0
        },
{
    let ghost ev = event_views(events@);
    let mut counts: Vec<(String, u32)> = Vec::new();
    let mut pairs: Vec<((String, String), u32)> = Vec::new();
    proof {
        assert(char_count_views(counts@) =~= Seq::<(Chars, nat)>::empty());
        assert(pair_count_views(pairs@) =~= Seq::<((Chars, Chars), nat)>::empty());
        assert(count_keys(char_count_views(counts@)) =~= Seq::<Chars>::empty());
        assert(count_keys(pair_count_views(pairs@)) =~= Seq::<(Chars, Chars)>::empty());
    }
    let mut k: usize = 0;
    while k < events.len()
        invariant
            k <= events@.len() < u32::MAX,
            ev == event_views(events@),
            events_wf(ev),
            counts_wf(char_count_views(counts@)),
            pair_counts_wf(pair_count_views(pairs@)),
            forall|c: Chars| #[trigger] count_in(char_count_views(counts@), c) == appearances(ev.take(k as int), c),
            forall|a: Chars, b: Chars| #[trigger] count_in(pair_count_views(pairs@), (a, b)) == if lex_lt(a, b) {
                together(ev.take(k as int), a, b)
            } else {
                0
            },
        decreases events@.len() - k,
    {
        let chars = &events[k].characters;
        let ghost cs = views(chars@);
        assert(cs == ev[k as int].characters);
        assert(strictly_sorted(cs));
        let ghost c0 = char_count_views(counts@);
        let mut i: usize = 0;
        while i < chars.len()
            invariant
                i <= chars@.len(),
                cs == views(chars@),
                strictly_sorted(cs),
                k < events@.len() < u32::MAX,
                ev == event_views(events@),
                counts_wf(char_count_views(counts@)),
                forall|c: Chars| #[trigger] count_in(c0, c) == appearances(ev.take(k as int), c),
                forall|c: Chars| #[trigger] count_in(char_count_views(counts@), c) == count_in(c0, c) + ind(cs.take(i as int).contains(c)),
            decreases chars@.len() - i,
        {
            let ghost x = cs[i as int];
            proof {
                lemma_counts_bounded(ev, k as int, x, x);
                assert(!cs.take(i as int).contains(x)) by {
                    let t = cs.take(i as int);
                    if t.contains(x) {
                        let q = choose|q: int| 0 <= q < t.len() && #[trigger] t[q] == x;
                        assert(lex_lt(cs[q], cs[i as int]));
                        lemma_lex_irreflexive(x);
                    }
                }
            }
            bump(&mut counts, chars[i].as_str());
            proof {
                let t0 = cs.take(i as int);
                let t1 = cs.take(i + 1);
                assert(t1 =~= cs.subrange(0, i + 1));
                assert(t0 =~= cs.subrange(0, i as int));
                assert forall|c: Chars| #[trigger] t1.contains(c) <==> (t0.contains(c) || c == x) by {
                    lemma_grow_contains(cs, 0, i as int, c);
                }
            }
            i += 1;
        }
        assert(cs.take(chars@.len() as int) =~= cs);
        let ghost p0 = pair_count_views(pairs@);
        let mut a: usize = 0;
        while a < chars.len()
            invariant
                a <= chars@.len(),
                cs == views(chars@),
                strictly_sorted(cs),
                k < events@.len() < u32::MAX,
                ev == event_views(events@),
                pair_counts_wf(pair_count_views(pairs@)),
                forall|x: Chars, y: Chars| #[trigger] count_in(p0, (x, y)) == if lex_lt(x, y) {
                    together(ev.take(k as int), x, y)
                } else {
                    0
                },
                forall|x: Chars, y: Chars| #[trigger] count_in(pair_count_views(pairs@), (x, y)) == count_in(p0, (x, y)) + ind(
                    cs.take(a as int).contains(x) && cs.contains(y) && lex_lt(x, y),
                ),
            decreases chars@.len() - a,
        {
            let ghost xa = cs[a as int];
            let mut b: usize = a + 1;
            while b < chars.len()
                invariant
                    a < b <= chars@.len(),
                    cs == views(chars@),
                    xa == cs[a as int],
                    strictly_sorted(cs),
                    k < events@.len() < u32::MAX,
                    ev == event_views(events@),
                    pair_counts_wf(pair_count_views(pairs@)),
                    forall|x: Chars, y: Chars| #[trigger] count_in(p0, (x, y)) == if lex_lt(x, y) {
                        together(ev.take(k as int), x, y)
                    } else {
                        0
                    },
                    forall|x: Chars, y: Chars| #[trigger] count_in(pair_count_views(pairs@), (x, y)) == count_in(p0, (x, y)) + ind(
                        cs.take(a as int).contains(x) && cs.contains(y) && lex_lt(x, y),
                    ) + ind(x == xa && cs.subrange(a + 1, b as int).contains(y)),
                decreases chars@.len() - b,
            {
                let ghost yb = cs[b as int];
                proof {
                    assert(lex_lt(xa, yb));
                    lemma_counts_bounded(ev, k as int, xa, yb);
                    assert(!cs.take(a as int).contains(xa)) by {
                        let t = cs.take(a as int);
                        if t.contains(xa) {
                            let q = choose|q: int| 0 <= q < t.len() && #[trigger] t[q] == xa;
                            assert(lex_lt(cs[q], cs[a as int]));
                            lemma_lex_irreflexive(xa);
                        }
                    }
                    assert(!cs.subrange(a + 1, b as int).contains(yb)) by {
                        let t = cs.subrange(a + 1, b as int);
                        if t.contains(yb) {
                            let q = choose|q: int| 0 <= q < t.len() && #[trigger] t[q] == yb;
                            assert(t[q] == cs[a + 1 + q]);
                            assert(lex_lt(cs[a + 1 + q], cs[b as int]));
                            lemma_lex_irreflexive(yb);
                        }
                    }
                }
                bump_pair(&mut pairs, chars[a].as_str(), chars[b].as_str());
                proof {
                    let t0 = cs.subrange(a + 1, b as int);
                    let t1 = cs.subrange(a + 1, b + 1);
                    assert forall|y: Chars| #[trigger] t1.contains(y) <==> (t0.contains(y) || y == yb) by {
                        lemma_grow_contains(cs, a + 1, b as int, y);
                    }
                }
                b += 1;
            }
            proof {
                assert forall|x: Chars, y: Chars| #[trigger] count_in(pair_count_views(pairs@), (x, y)) == count_in(p0, (x, y)) + ind(
                    cs.take(a + 1).contains(x) && cs.contains(y) && lex_lt(x, y),
                ) by {
                    lemma_after(cs, a as int, cs.len() as int, y);
                    assert(cs.subrange(a + 1, cs.len() as int).contains(y) <==> (cs.contains(y) && lex_lt(xa, y)));
                    assert(cs.take(a + 1).contains(x) <==> (cs.take(a as int).contains(x) || x == xa)) by {
                        lemma_grow_contains(cs, 0, a as int, x);
                        assert(cs.take(a + 1) =~= cs.subrange(0, a + 1));
                        assert(cs.take(a as int) =~= cs.subrange(0, a as int));
                    }
                    let t = cs.take(a as int);
                    if x == xa && t.contains(x) {
                        let q = choose|q: int| 0 <= q < t.len() && #[trigger] t[q] == x;
                        assert(lex_lt(cs[q], cs[a as int]));
                        lemma_lex_irreflexive(xa);
                    }
                }
            }
            a += 1;
        }
        proof {
            assert(cs.take(chars@.len() as int) =~= cs);
            assert forall|c: Chars| #[trigger] count_in(char_count_views(counts@), c) == appearances(ev.take(k + 1), c) by {
                lemma_appearances_step(ev, k as int, c);
            }
            assert forall|x: Chars, y: Chars| #[trigger] count_in(pair_count_views(pairs@), (x, y)) == if lex_lt(x, y) {
                together(ev.take(k + 1), x, y)
            } else {
                0
            } by {
                lemma_together_step(ev, k as int, x, y);
            }
        }
        k += 1;
    }
    assert(ev.take(events@.len() as int) =~= ev);
    CooccurrenceMatrix { pairs, counts }
}

} // verus!
