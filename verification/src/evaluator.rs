//! Structural measures of a built memory that need no floating point.
use vstd::prelude::*;

use crate::edge::{MemoryEdge, MemoryEdgeV, edge_views};
use crate::events::{RawEvent, RawEventV, event_views};
use crate::extractor::{count_views, lemma_tally_concat, rank, rank_counts, tally_from, tally_into};
use crate::extractor::matches_at;
use crate::hypergraph::{HyperGraph, HyperGraphV, edge_of, in_list, inc_of, str_views};
use crate::memory::{Perception, PerceptionV, perception_views};
use crate::text::{Chars, chars_of, contains_str, sorted_of, sorted_unique, str_eq, views};

verus! {

/// Every participant of every edge, edge after edge.
pub open spec fn all_participants(es: Seq<MemoryEdgeV>) -> Seq<Chars>
    decreases es.len(),
{
    if es.len() == 0 {
        Seq::empty()
    } else {
        all_participants(es.drop_last()) + es.last().participants
    }
}

/// Each character with the number of edges it takes part in, most
/// involved first (equal counts in order of first appearance).
pub open spec fn involvement_spec(es: Seq<MemoryEdgeV>) -> Seq<(Chars, nat)> {
    rank(tally_from(Seq::empty(), all_participants(es)))
}

proof fn lemma_participants_prefix(es: Seq<MemoryEdgeV>, k: int)
    requires
        0 <= k <= es.len(),
    ensures
        all_participants(es.take(k)).len() <= all_participants(es).len(),
    decreases es.len() - k,
{
    if k < es.len() {
        lemma_participants_prefix(es, k + 1);
        assert(es.take(k + 1).drop_last() == es.take(k));
    } else {
        assert(es.take(k) == es);
    }
}

/// How many edges each character takes part in, most involved first.
pub fn character_involvement(edges: &Vec<MemoryEdge>) -> (r: Vec<(String, usize)>)
    requires
        all_participants(edge_views(edges@)).len() <= usize::MAX,
    ensures
        count_views(r@) == involvement_spec(edge_views(edges@)),
{
    let ghost es = edge_views(edges@);
    let mut counts: Vec<(String, usize)> = Vec::new();
    let mut i: usize = 0;
    while i < edges.len()
        invariant
            i <= edges@.len(),
            es == edge_views(edges@),
            all_participants(es).len() <= usize::MAX,
            count_views(counts@) == tally_from(Seq::empty(), all_participants(es.take(i as int))),
            forall|j: int| 0 <= j < counts@.len() ==> #[trigger] counts@[j].1 <= all_participants(es.take(i as int)).len(),
        decreases edges@.len() - i,
    {
        let ghost done = all_participants(es.take(i as int));
        proof {
            assert(es.take(i + 1).drop_last() == es.take(i as int));
            assert(es.take(i + 1).last() == edges@[i as int]@);
            lemma_participants_prefix(es, i + 1);
            assert(all_participants(es.take(i + 1)) == done + views(edges@[i as int].participants@));
            lemma_tally_concat(Seq::empty(), done, views(edges@[i as int].participants@));
        }
        tally_into(&mut counts, &edges[i].participants, Ghost(done.len()));
        i += 1;
    }
    assert(es.take(edges@.len() as int) == es);
    rank_counts(counts)
}

/// How many events fall in chapter `ch`.
pub open spec fn in_chapter(es: Seq<RawEventV>, ch: nat) -> nat {
    es.filter(|e: RawEventV| e.chapter_index == ch).len()
}

/// Each chapter index below `n` with its number of events, in order.
pub open spec fn per_chapter_spec(es: Seq<RawEventV>, n: nat) -> Seq<(nat, nat)> {
    Seq::new(n, |ch: int| (ch as nat, in_chapter(es, ch as nat)))
}

/// How many of the chapters have no event.
pub open spec fn empty_count(s: Seq<(nat, nat)>) -> nat {
    s.filter(|p: (nat, nat)| p.1 == 0).len()
}

/// The number of events in each of the first `chapter_count` chapters, and
/// how many of those chapters have none.
pub fn events_per_chapter(events: &Vec<RawEvent>, chapter_count: usize) -> (r: (Vec<(usize, usize)>, usize))
    ensures
        r.0@.map_values(|p: (usize, usize)| (p.0 as nat, p.1 as nat)) == per_chapter_spec(event_views(events@), chapter_count as nat),
        r.1 == empty_count(per_chapter_spec(event_views(events@), chapter_count as nat)),
{
    let ghost es = event_views(events@);
    let mut counts: Vec<usize> = Vec::new();
    let mut c: usize = 0;
    while c < chapter_count
        invariant
            c <= chapter_count,
            counts@.len() == c,
            forall|j: int| 0 <= j < c ==> counts@[j] == 0,
        decreases chapter_count - c,
    {
        counts.push(0);
        c += 1;
    }
    let mut i: usize = 0;
    while i < events.len()
        invariant
            i <= events@.len(),
            es == event_views(events@),
            counts@.len() == chapter_count,
            forall|ch: int| 0 <= ch < chapter_count ==> #[trigger] counts@[ch] == in_chapter(es.take(i as int), ch as nat),
            forall|ch: int| 0 <= ch < chapter_count ==> #[trigger] counts@[ch] <= i,
        decreases events@.len() - i,
    {
        let ghost before = counts@;
        let ghost t0 = es.take(i as int);
        let k = events[i].chapter_index;
        assert(es[i as int].chapter_index == k);
        if k < chapter_count {
            let n = counts[k];
            counts.set(k, n + 1);
        }
        proof {
            assert(es.take(i + 1) == t0.push(es[i as int]));
            assert forall|ch: int| 0 <= ch < chapter_count implies #[trigger] counts@[ch] == in_chapter(
                es.take(i + 1),
                ch as nat,
            ) && counts@[ch] <= i + 1 by {
                t0.lemma_filter_push(es[i as int], |e: RawEventV| e.chapter_index == ch as nat);
                assert(before[ch] == in_chapter(t0, ch as nat));
            }
        }
        i += 1;
    }
    assert(es.take(events@.len() as int) == es);
    let mut out: Vec<(usize, usize)> = Vec::new();
    let mut empty: usize = 0;
    let ghost target = per_chapter_spec(es, chapter_count as nat);
    let mut ch: usize = 0;
    while ch < chapter_count
        invariant
            ch <= chapter_count,
            counts@.len() == chapter_count,
            target == per_chapter_spec(es, chapter_count as nat),
            forall|j: int| 0 <= j < chapter_count ==> #[trigger] counts@[j] == in_chapter(es, j as nat),
            out@.map_values(|p: (usize, usize)| (p.0 as nat, p.1 as nat)) == target.take(ch as int),
            empty == empty_count(target.take(ch as int)),
            empty <= ch,
        decreases chapter_count - ch,
    {
        let ghost prev = out@;
        out.push((ch, counts[ch]));
        proof {
            assert(target.take(ch + 1) == target.take(ch as int).push(target[ch as int]));
            target.take(ch as int).lemma_filter_push(target[ch as int], |p: (nat, nat)| p.1 == 0);
            assert(out@.map_values(|p: (usize, usize)| (p.0 as nat, p.1 as nat)) =~= prev.map_values(
                |p: (usize, usize)| (p.0 as nat, p.1 as nat),
            ).push(target[ch as int]));
        }
        if counts[ch] == 0 {
            empty += 1;
        }
        ch += 1;
    }
    assert(target.take(chapter_count as int) == target);
    (out, empty)
}

// ── Emotional tone of a text ────────────────────────────────────

pub const POSITIVE_COUNT: usize = 23;

pub const NEGATIVE_COUNT: usize = 25;

/// Words of a positive tone.
pub open spec fn positive_word(k: int) -> Chars {
    if k == 0 { "笑"@ } else if k == 1 { "喜"@ } else if k == 2 { "乐"@ } else if k == 3 { "爱"@ } else if k == 4 { "好"@ } else if k == 5 { "美"@ } else if k == 6 { "幸"@ } else if k == 7 { "福"@ } else if k == 8 { "快"@ } else if k == 9 { "赞"@ } else if k == 10 { "善"@ } else if k == 11 { "亲"@ } else if k == 12 { "欢"@ } else if k == 13 { "暖"@ } else if k == 14 { "甜"@ } else if k == 15 { "安"@ } else if k == 16 { "宁"@ } else if k == 17 { "和"@ } else if k == 18 { "赢"@ } else if k == 19 { "胜"@ } else if k == 20 { "强"@ } else if k == 21 { "成功"@ } else { "突破"@ }
}

/// Words of a negative tone.
pub open spec fn negative_word(k: int) -> Chars {
    if k == 0 { "死"@ } else if k == 1 { "杀"@ } else if k == 2 { "哭"@ } else if k == 3 { "怒"@ } else if k == 4 { "恨"@ } else if k == 5 { "悲"@ } else if k == 6 { "伤"@ } else if k == 7 { "痛"@ } else if k == 8 { "苦"@ } else if k == 9 { "惧"@ } else if k == 10 { "怕"@ } else if k == 11 { "忧"@ } else if k == 12 { "愁"@ } else if k == 13 { "恶"@ } else if k == 14 { "毒"@ } else if k == 15 { "血"@ } else if k == 16 { "泪"@ } else if k == 17 { "叹"@ } else if k == 18 { "冷"@ } else if k == 19 { "暗"@ } else if k == 20 { "败"@ } else if k == 21 { "亡"@ } else if k == 22 { "离"@ } else if k == 23 { "危"@ } else { "困"@ }
}

fn positive_at(k: usize) -> (r: &'static str)
    ensures
        r@ == positive_word(k as int),
{
    if k == 0 { "笑" } else if k == 1 { "喜" } else if k == 2 { "乐" } else if k == 3 { "爱" } else if k == 4 { "好" } else if k == 5 { "美" } else if k == 6 { "幸" } else if k == 7 { "福" } else if k == 8 { "快" } else if k == 9 { "赞" } else if k == 10 { "善" } else if k == 11 { "亲" } else if k == 12 { "欢" } else if k == 13 { "暖" } else if k == 14 { "甜" } else if k == 15 { "安" } else if k == 16 { "宁" } else if k == 17 { "和" } else if k == 18 { "赢" } else if k == 19 { "胜" } else if k == 20 { "强" } else if k == 21 { "成功" } else { "突破" }
}

fn negative_at(k: usize) -> (r: &'static str)
    ensures
        r@ == negative_word(k as int),
{
    if k == 0 { "死" } else if k == 1 { "杀" } else if k == 2 { "哭" } else if k == 3 { "怒" } else if k == 4 { "恨" } else if k == 5 { "悲" } else if k == 6 { "伤" } else if k == 7 { "痛" } else if k == 8 { "苦" } else if k == 9 { "惧" } else if k == 10 { "怕" } else if k == 11 { "忧" } else if k == 12 { "愁" } else if k == 13 { "恶" } else if k == 14 { "毒" } else if k == 15 { "血" } else if k == 16 { "泪" } else if k == 17 { "叹" } else if k == 18 { "冷" } else if k == 19 { "暗" } else if k == 20 { "败" } else if k == 21 { "亡" } else if k == 22 { "离" } else if k == 23 { "危" } else { "困" }
}

/// Occurrences of `w` in `cs` from `i`, not overlapping, found from the
/// left.
pub open spec fn occurrences(cs: Chars, w: Chars, i: int) -> nat
    decreases cs.len() - i,
{
    if i < 0 || w.len() == 0 || i + w.len() > cs.len() {
        0
    } else if cs.subrange(i, i + w.len()) == w {
        1 + occurrences(cs, w, i + w.len())
    } else {
        occurrences(cs, w, i + 1)
    }
}

/// Occurrences of the first `k` words of a tone.
pub open spec fn tone_count(cs: Chars, positive: bool, k: int) -> nat
    decreases k,
{
    if k <= 0 {
        0
    } else {
        tone_count(cs, positive, k - 1) + occurrences(
            cs,
            if positive { positive_word(k - 1) } else { negative_word(k - 1) },
            0,
        )
    }
}

proof fn lemma_occurrences_bound(cs: Chars, w: Chars, i: int)
    requires
        0 <= i <= cs.len(),
    ensures
        occurrences(cs, w, i) <= cs.len() - i,
    decreases cs.len() - i,
{
    if w.len() > 0 && i + w.len() <= cs.len() {
        if cs.subrange(i, i + w.len()) == w {
            lemma_occurrences_bound(cs, w, i + w.len());
        } else {
            lemma_occurrences_bound(cs, w, i + 1);
        }
    }
}

fn count_word(v: &Vec<char>, w: &str) -> (r: u64)
    ensures
        r == occurrences(v@, w@, 0),
{
    let wv = chars_of(w);
    let mut n: u64 = 0;
    let mut i: usize = 0;
    proof { lemma_occurrences_bound(v@, w@, 0); }
    if wv.len() == 0 {
        return 0;
    }
    while i < v.len() && wv.len() <= v.len() - i
        invariant
            i <= v@.len(),
            wv@ == w@,
            wv@.len() > 0,
            n + occurrences(v@, w@, i as int) == occurrences(v@, w@, 0),
            occurrences(v@, w@, 0) <= v@.len(),
        decreases v@.len() - i,
    {
        if matches_at(v, i, &wv) {
            n += 1;
            i += wv.len();
        } else {
            i += 1;
        }
    }
    n
}

/// How many positive and how many negative words a text holds (each word
/// counted where it occurs, without overlap).
pub fn tone_counts(text: &str) -> (r: (u128, u128))
    ensures
        r.0 == tone_count(text@, true, POSITIVE_COUNT as int),
        r.1 == tone_count(text@, false, NEGATIVE_COUNT as int),
{
    let v = chars_of(text);
    let mut p: u128 = 0;
    let mut k: usize = 0;
    while k < POSITIVE_COUNT
        invariant
            k <= POSITIVE_COUNT,
            v@ == text@,
            p == tone_count(text@, true, k as int),
            p <= k * 0x1_0000_0000_0000_0000,
        decreases POSITIVE_COUNT - k,
    {
        let c = count_word(&v, positive_at(k));
        p = p + c as u128;
        k += 1;
    }
    let mut q: u128 = 0;
    let mut k: usize = 0;
    while k < NEGATIVE_COUNT
        invariant
            k <= NEGATIVE_COUNT,
            v@ == text@,
            q == tone_count(text@, false, k as int),
            q <= k * 0x1_0000_0000_0000_0000,
        decreases NEGATIVE_COUNT - k,
    {
        let c = count_word(&v, negative_at(k));
        q = q + c as u128;
        k += 1;
    }
    (p, q)
}

// ── Knowledge coverage ───────────────────────────────────────────

/// The ids of the edges `c` takes part in, in order.
pub open spec fn edges_with(es: Seq<MemoryEdgeV>, c: Chars) -> Seq<Chars>
    decreases es.len(),
{
    if es.len() == 0 {
        Seq::empty()
    } else {
        edges_with(es.drop_last(), c) + if es.last().participants.contains(c) {
            seq![es.last().id]
        } else {
            Seq::empty()
        }
    }
}

/// The ids of the edges `c` perceives, in order.
pub open spec fn edges_perceived(ps: Seq<PerceptionV>, c: Chars) -> Seq<Chars>
    decreases ps.len(),
{
    if ps.len() == 0 {
        Seq::empty()
    } else {
        edges_perceived(ps.drop_last(), c) + if ps.last().character == c {
            seq![ps.last().edge_id]
        } else {
            Seq::empty()
        }
    }
}

/// For each participant, by increasing id: how many distinct edges it
/// takes part in, and how many distinct edges it perceives.
pub open spec fn coverage_spec(es: Seq<MemoryEdgeV>, ps: Seq<PerceptionV>) -> Seq<(Chars, nat, nat)> {
    let cs = sorted_of(all_participants(es));
    Seq::new(
        cs.len(),
        |i: int| (cs[i], sorted_of(edges_with(es, cs[i])).len(), sorted_of(edges_perceived(ps, cs[i])).len()),
    )
}

fn participants_of(edges: &Vec<MemoryEdge>) -> (r: Vec<String>)
    ensures
        views(r@) == all_participants(edge_views(edges@)),
{
    let ghost es = edge_views(edges@);
    let mut r: Vec<String> = Vec::new();
    let mut i: usize = 0;
    while i < edges.len()
        invariant
            i <= edges@.len(),
            es == edge_views(edges@),
            views(r@) == all_participants(es.take(i as int)),
        decreases edges@.len() - i,
    {
        assert(es.take(i + 1).drop_last() == es.take(i as int));
        assert(es.take(i + 1).last() == edges@[i as int]@);
        let ps = &edges[i].participants;
        let mut j: usize = 0;
        let ghost base = views(r@);
        while j < ps.len()
            invariant
                j <= ps@.len(),
                views(r@) == base + views(ps@).take(j as int),
            decreases ps@.len() - j,
        {
            let ghost prev = views(r@);
            r.push(ps[j].clone());
            assert(views(r@) =~= prev.push(ps@[j as int]@));
            assert(views(ps@).take(j + 1) =~= views(ps@).take(j as int).push(ps@[j as int]@));
            j += 1;
        }
        assert(views(ps@).take(ps@.len() as int) == views(ps@));
        i += 1;
    }
    assert(es.take(edges@.len() as int) == es);
    r
}

fn edges_with_exec(edges: &Vec<MemoryEdge>, c: &str) -> (r: Vec<String>)
    ensures
        views(r@) == edges_with(edge_views(edges@), c@),
{
    let ghost es = edge_views(edges@);
    let mut r: Vec<String> = Vec::new();
    let mut i: usize = 0;
    while i < edges.len()
        invariant
            i <= edges@.len(),
            es == edge_views(edges@),
            views(r@) == edges_with(es.take(i as int), c@),
        decreases edges@.len() - i,
    {
        assert(es.take(i + 1).drop_last() == es.take(i as int));
        assert(es.take(i + 1).last() == edges@[i as int]@);
        let ghost prev = views(r@);
        if contains_str(&edges[i].participants, c) {
            r.push(edges[i].id.clone());
            assert(views(r@) =~= prev + seq![edges@[i as int].id@]);
        } else {
            assert(views(r@) =~= prev + Seq::<Chars>::empty());
        }
        i += 1;
    }
    assert(es.take(edges@.len() as int) == es);
    r
}

fn edges_perceived_exec(perceptions: &Vec<Perception>, c: &str) -> (r: Vec<String>)
    ensures
        views(r@) == edges_perceived(perception_views(perceptions@), c@),
{
    let ghost ps = perception_views(perceptions@);
    let mut r: Vec<String> = Vec::new();
    let mut i: usize = 0;
    while i < perceptions.len()
        invariant
            i <= perceptions@.len(),
            ps == perception_views(perceptions@),
            views(r@) == edges_perceived(ps.take(i as int), c@),
        decreases perceptions@.len() - i,
    {
        assert(ps.take(i + 1).drop_last() == ps.take(i as int));
        assert(ps.take(i + 1).last() == perceptions@[i as int]@);
        let ghost prev = views(r@);
        if crate::text::str_eq(perceptions[i].character.as_str(), c) {
            r.push(perceptions[i].edge_id.clone());
            assert(views(r@) =~= prev + seq![perceptions@[i as int].edge_id@]);
        } else {
            assert(views(r@) =~= prev + Seq::<Chars>::empty());
        }
        i += 1;
    }
    assert(ps.take(perceptions@.len() as int) == ps);
    r
}

/// For each character taking part in an edge, by increasing id: the
/// number of distinct edges it takes part in and of those it perceives.
pub fn knowledge_coverage(edges: &Vec<MemoryEdge>, perceptions: &Vec<Perception>) -> (r: Vec<(String, usize, usize)>)
    ensures
        r@.map_values(|t: (String, usize, usize)| (t.0@, t.1 as nat, t.2 as nat)) == coverage_spec(
            edge_views(edges@),
            perception_views(perceptions@),
        ),
{
    let ghost es = edge_views(edges@);
    let ghost ps = perception_views(perceptions@);
    let all = participants_of(edges);
    let cs = sorted_unique(&all);
    let ghost target = coverage_spec(es, ps);
    let mut r: Vec<(String, usize, usize)> = Vec::new();
    let mut i: usize = 0;
    while i < cs.len()
        invariant
            i <= cs@.len(),
            views(cs@) == sorted_of(all_participants(es)),
            es == edge_views(edges@),
            ps == perception_views(perceptions@),
            target == coverage_spec(es, ps),
            target.len() == cs@.len(),
            r@.map_values(|t: (String, usize, usize)| (t.0@, t.1 as nat, t.2 as nat)) == target.take(i as int),
        decreases cs@.len() - i,
    {
        let c = cs[i].as_str();
        assert(views(cs@)[i as int] == c@);
        let took = sorted_unique(&edges_with_exec(edges, c));
        let saw = sorted_unique(&edges_perceived_exec(perceptions, c));
        let ghost prev = r@;
        r.push((cs[i].clone(), took.len(), saw.len()));
        assert(r@.map_values(|t: (String, usize, usize)| (t.0@, t.1 as nat, t.2 as nat)) =~= prev.map_values(
            |t: (String, usize, usize)| (t.0@, t.1 as nat, t.2 as nat),
        ).push(target[i as int]));
        assert(target.take(i + 1) =~= target.take(i as int).push(target[i as int]));
        i += 1;
    }
    assert(target.take(cs@.len() as int) == target);
    r
}

// ── Structural recall ────────────────────────────────────────────

/// The edges both characters take part in, as the graph lists them.
pub open spec fn shared_spec(g: HyperGraphV, a: Chars, b: Chars) -> Seq<Chars> {
    inc_of(g, a).filter(in_list(inc_of(g, b)))
}

/// How many of the listed edges hold both characters.
pub open spec fn relevant_count(g: HyperGraphV, ids: Seq<Chars>, a: Chars, b: Chars) -> nat
    decreases ids.len(),
{
    if ids.len() == 0 {
        0
    } else {
        relevant_count(g, ids.drop_last(), a, b) + match edge_of(g, ids.last()) {
            Some(e) => if e.participants.contains(a) && e.participants.contains(b) {
                1nat
            } else {
                0nat
            },
            None => 0nat,
        }
    }
}

/// The participants of the listed edges, edge after edge.
pub open spec fn hit_list(g: HyperGraphV, ids: Seq<Chars>) -> Seq<Chars>
    decreases ids.len(),
{
    if ids.len() == 0 {
        Seq::empty()
    } else {
        hit_list(g, ids.drop_last()) + match edge_of(g, ids.last()) {
            Some(e) => e.participants,
            None => Seq::empty(),
        }
    }
}

/// At most the first `n` members of a list.
pub open spec fn first_n(s: Seq<Chars>, n: nat) -> Seq<Chars> {
    if s.len() <= n {
        s
    } else {
        s.take(n as int)
    }
}

/// The counts of one recall query for the pair `a`, `b`.
pub struct RecallCounts {
    /// Edges both take part in.
    pub shared: usize,
    /// Of those, the edges that hold both.
    pub relevant: usize,
    /// The characters asked for (one when `a` and `b` are the same).
    pub expected: usize,
    /// Of those, the ones found among the participants of the shared edges.
    pub found: usize,
    /// The first five participants of the shared edges, by increasing id.
    pub top_hits: Vec<String>,
}

/// The counts of a recall query for a pair of characters.
pub fn recall_query(graph: &HyperGraph, a: &str, b: &str) -> (r: RecallCounts)
    requires
        graph.wf(),
    ensures
        r.shared == shared_spec(graph@, a@, b@).len(),
        r.relevant == relevant_count(graph@, shared_spec(graph@, a@, b@), a@, b@),
        r.expected == if a@ == b@ { 1nat } else { 2nat },
        r.found == (if sorted_of(hit_list(graph@, shared_spec(graph@, a@, b@))).contains(a@) { 1nat } else { 0nat })
            + (if a@ != b@ && sorted_of(hit_list(graph@, shared_spec(graph@, a@, b@))).contains(b@) {
            1nat
        } else {
            0nat
        }),
        views(r.top_hits@) == first_n(sorted_of(hit_list(graph@, shared_spec(graph@, a@, b@))), 5),
{
    let shared = graph.shared_edges(a, b);
    let ghost ids = str_views(shared@);
    let mut relevant: usize = 0;
    let mut hits: Vec<String> = Vec::new();
    let mut i: usize = 0;
    while i < shared.len()
        invariant
            i <= shared@.len(),
            graph.wf(),
            ids == str_views(shared@),
            relevant == relevant_count(graph@, ids.take(i as int), a@, b@),
            relevant <= i,
            views(hits@) == hit_list(graph@, ids.take(i as int)),
        decreases shared@.len() - i,
    {
        assert(ids.take(i + 1).drop_last() == ids.take(i as int));
        assert(ids.take(i + 1).last() == shared@[i as int]@);
        let ghost prev = views(hits@);
        match graph.edge(shared[i]) {
            Some(e) => {
                if contains_str(&e.participants, a) && contains_str(&e.participants, b) {
                    relevant += 1;
                }
                let mut j: usize = 0;
                while j < e.participants.len()
                    invariant
                        j <= e.participants@.len(),
                        views(hits@) == prev + views(e.participants@).take(j as int),
                    decreases e.participants@.len() - j,
                {
                    let ghost before = views(hits@);
                    hits.push(e.participants[j].clone());
                    assert(views(hits@) =~= before.push(e.participants@[j as int]@));
                    assert(views(e.participants@).take(j + 1) =~= views(e.participants@).take(j as int).push(
                        e.participants@[j as int]@,
                    ));
                    j += 1;
                }
                assert(views(e.participants@).take(e.participants@.len() as int) == views(e.participants@));
            },
            None => {
                assert(views(hits@) =~= prev + Seq::<Chars>::empty());
            },
        }
        i += 1;
    }
    assert(ids.take(shared@.len() as int) == ids);
    let sorted = sorted_unique(&hits);
    let same = str_eq(a, b);
    let found_a: usize = if contains_str(&sorted, a) { 1 } else { 0 };
    let found_b: usize = if !same && contains_str(&sorted, b) { 1 } else { 0 };
    let mut top: Vec<String> = Vec::new();
    let mut k: usize = 0;
    while k < sorted.len() && k < 5
        invariant
            k <= sorted@.len(),
            k <= 5,
            views(top@) == views(sorted@).take(k as int),
        decreases sorted@.len() - k,
    {
        let ghost before = views(top@);
        top.push(sorted[k].clone());
        assert(views(top@) =~= before.push(sorted@[k as int]@));
        assert(views(sorted@).take(k + 1) =~= views(sorted@).take(k as int).push(sorted@[k as int]@));
        k += 1;
    }
    assert(views(sorted@).take(k as int) =~= first_n(views(sorted@), 5));
    RecallCounts {
        shared: shared.len(),
        relevant,
        expected: if same { 1 } else { 2 },
        found: found_a + found_b,
        top_hits: top,
    }
}

} // verus!
