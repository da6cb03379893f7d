//! Timeline engine — event sourcing for narrative state. Genesis data is
//! never mutated; the world at any chapter is genesis with the log's
//! effects replayed on top.
use vstd::prelude::*;

use crate::entity::{Entity, EntityV, entity_views};
use crate::goal::{GoalEntity, GoalEntityV, goal_entity_views};
use crate::op::{Op, OpV, apply_entity, apply_goal, apply_secret, describe_spec, first_index};
use crate::secret::{Secret, SecretV, secret_views};
use crate::text::{Chars, contains_str, owned, push_str, str_eq, views};

verus! {

broadcast use vstd::seq_lib::group_seq_properties;

/// A single entry in the history log.
#[derive(Debug)]
pub struct HistoryEntry {
    pub chapter: String,
    pub seq: u32,
    pub effect: Op,
}

pub ghost struct HistoryEntryV {
    pub chapter: Chars,
    pub seq: u32,
    pub effect: OpV,
}

impl View for HistoryEntry {
    type V = HistoryEntryV;

    open spec fn view(&self) -> HistoryEntryV {
        HistoryEntryV { chapter: self.chapter@, seq: self.seq, effect: self.effect@ }
    }
}

impl HistoryEntry {
    pub fn duplicate(&self) -> (r: HistoryEntry)
        ensures
            r@ == self@,
    {
        HistoryEntry { chapter: self.chapter.clone(), seq: self.seq, effect: self.effect.duplicate() }
    }
}

pub open spec fn entry_views(es: Seq<HistoryEntry>) -> Seq<HistoryEntryV> {
    es.map_values(|e: HistoryEntry| e@)
}

pub open spec fn entry_ref_views(es: Seq<&HistoryEntry>) -> Seq<HistoryEntryV> {
    es.map_values(|e: &HistoryEntry| e@)
}

/// The full history log — an append-only event stream.
#[derive(Debug)]
pub struct History {
    pub entries: Vec<HistoryEntry>,
}

// ── Spec ─────────────────────────────────────────────────────────

/// Distinct chapters in order of first appearance.
pub open spec fn chapters_spec(es: Seq<HistoryEntryV>) -> Seq<Chars>
    decreases es.len(),
{
    if es.len() == 0 {
        Seq::empty()
    } else {
        let prev = chapters_spec(es.drop_last());
        if prev.contains(es.last().chapter) {
            prev
        } else {
            prev.push(es.last().chapter)
        }
    }
}

/// The chapters replayed "up to" a chapter: every chapter up to and
/// including the first one equal to it (all of them when it is absent or
/// when no bound is given).
pub open spec fn up_to_spec(chs: Seq<Chars>, up_to: Option<Chars>) -> Seq<Chars> {
    match up_to {
        None => chs,
        Some(u) => match first_index(chs, u) {
            Some(i) => chs.take(i + 1),
            None => chs,
        },
    }
}

/// The chapters strictly before the first occurrence of `current`.
pub open spec fn before_spec(chs: Seq<Chars>, current: Chars) -> Seq<Chars> {
    match first_index(chs, current) {
        Some(i) => chs.take(i),
        None => chs,
    }
}

pub open spec fn apply_all_entities(op: OpV, es: Seq<EntityV>) -> Seq<EntityV> {
    Seq::new(es.len(), |i: int| apply_entity(op, es[i]))
}

pub open spec fn apply_all_secrets(op: OpV, ss: Seq<SecretV>) -> Seq<SecretV> {
    Seq::new(ss.len(), |i: int| apply_secret(op, ss[i]))
}

pub open spec fn apply_all_goals(op: OpV, gs: Seq<GoalEntityV>) -> Seq<GoalEntityV> {
    Seq::new(gs.len(), |i: int| apply_goal(op, gs[i]).1)
}

/// Entities after replaying, in log order, every entry whose chapter is selected.
pub open spec fn replay_entities_spec(es: Seq<EntityV>, log: Seq<HistoryEntryV>, sel: Seq<Chars>) -> Seq<EntityV>
    decreases log.len(),
{
    if log.len() == 0 {
        es
    } else {
        let prev = replay_entities_spec(es, log.drop_last(), sel);
        if sel.contains(log.last().chapter) {
            apply_all_entities(log.last().effect, prev)
        } else {
            prev
        }
    }
}

pub open spec fn replay_secrets_spec(ss: Seq<SecretV>, log: Seq<HistoryEntryV>, sel: Seq<Chars>) -> Seq<SecretV>
    decreases log.len(),
{
    if log.len() == 0 {
        ss
    } else {
        let prev = replay_secrets_spec(ss, log.drop_last(), sel);
        if sel.contains(log.last().chapter) {
            apply_all_secrets(log.last().effect, prev)
        } else {
            prev
        }
    }
}

pub open spec fn replay_goals_spec(gs: Seq<GoalEntityV>, log: Seq<HistoryEntryV>, sel: Seq<Chars>) -> Seq<GoalEntityV>
    decreases log.len(),
{
    if log.len() == 0 {
        gs
    } else {
        let prev = replay_goals_spec(gs, log.drop_last(), sel);
        if sel.contains(log.last().chapter) {
            apply_all_goals(log.last().effect, prev)
        } else {
            prev
        }
    }
}

/// Largest `seq` among the entries of a chapter, if it has any.
pub open spec fn max_seq(es: Seq<HistoryEntryV>, ch: Chars) -> Option<u32>
    decreases es.len(),
{
    if es.len() == 0 {
        None
    } else {
        let prev = max_seq(es.drop_last(), ch);
        if es.last().chapter == ch {
            match prev {
                Some(m) => if m >= es.last().seq {
                    Some(m)
                } else {
                    Some(es.last().seq)
                },
                None => Some(es.last().seq),
            }
        } else {
            prev
        }
    }
}

pub open spec fn in_chapter(ch: Chars) -> spec_fn(HistoryEntryV) -> bool {
    |e: HistoryEntryV| e.chapter == ch
}

pub open spec fn not_in_chapter(ch: Chars) -> spec_fn(HistoryEntryV) -> bool {
    |e: HistoryEntryV| e.chapter != ch
}

/// The chapter just before `current` in order of appearance: the last
/// chapter seen before reaching `current` (the last chapter overall when
/// `current` never appears).
pub open spec fn previous_chapter(chs: Seq<Chars>, current: Chars) -> Option<Chars> {
    let b = before_spec(chs, current);
    if b.len() == 0 {
        None
    } else {
        Some(b.last())
    }
}

pub open spec fn summary_lines(es: Seq<HistoryEntryV>) -> Chars
    decreases es.len(),
{
    if es.len() == 0 {
        Seq::empty()
    } else {
        summary_lines(es.drop_last()) + "- "@ + describe_spec(es.last().effect) + "\n"@
    }
}

pub open spec fn summary_spec(es: Seq<HistoryEntryV>, current: Chars) -> Option<Chars> {
    match previous_chapter(chapters_spec(es), current) {
        None => None,
        Some(p) => {
            let mine = es.filter(in_chapter(p));
            if mine.len() == 0 {
                None
            } else {
                Some("在 "@ + p + " 中发生了以下变化：\n"@ + summary_lines(mine))
            }
        },
    }
}

// ── Lemmas ───────────────────────────────────────────────────────

/// The chapter list has no duplicates and holds exactly the chapters of the log.
pub proof fn lemma_chapters(es: Seq<HistoryEntryV>)
    ensures
        chapters_spec(es).no_duplicates(),
        forall|c: Chars| chapters_spec(es).contains(c) <==> exists|i: int| 0 <= i < es.len() && #[trigger] es[i].chapter == c,
    decreases es.len(),
{
    if es.len() > 0 {
        lemma_chapters(es.drop_last());
        let prev = chapters_spec(es.drop_last());
        assert forall|c: Chars| chapters_spec(es).contains(c) <==> exists|i: int| 0 <= i < es.len() && #[trigger] es[i].chapter == c by {
            if chapters_spec(es).contains(c) {
                if prev.contains(c) {
                    let i = choose|i: int| 0 <= i < es.drop_last().len() && #[trigger] es.drop_last()[i].chapter == c;
                    assert(es[i].chapter == c);
                } else {
                    assert(es[es.len() - 1].chapter == c);
                }
            }
            if exists|i: int| 0 <= i < es.len() && #[trigger] es[i].chapter == c {
                let i = choose|i: int| 0 <= i < es.len() && #[trigger] es[i].chapter == c;
                if i < es.len() - 1 {
                    assert(es.drop_last()[i].chapter == c);
                    assert(prev.contains(c));
                    if !prev.contains(es.last().chapter) {
                        assert(prev.push(es.last().chapter).contains(c)) by {
                            let k = choose|k: int| 0 <= k < prev.len() && prev[k] == c;
                            assert(prev.push(es.last().chapter)[k] == c);
                        }
                    }
                } else {
                    if !prev.contains(c) {
                        assert(prev.push(c)[prev.len() as int] == c);
                    }
                }
            }
        }
    }
}

/// Replaying a log made of two parts is replaying the second part on the
/// result of replaying the first.
pub proof fn lemma_replay_entities_append(es: Seq<EntityV>, a: Seq<HistoryEntryV>, b: Seq<HistoryEntryV>, sel: Seq<Chars>)
    ensures
        replay_entities_spec(es, a + b, sel) == replay_entities_spec(replay_entities_spec(es, a, sel), b, sel),
    decreases b.len(),
{
    if b.len() == 0 {
        assert(a + b == a);
    } else {
        assert((a + b).drop_last() == a + b.drop_last());
        assert((a + b).last() == b.last());
        lemma_replay_entities_append(es, a, b.drop_last(), sel);
    }
}

/// Entries of chapters that are not selected change nothing.
pub proof fn lemma_replay_unselected(es: Seq<EntityV>, log: Seq<HistoryEntryV>, sel: Seq<Chars>)
    requires
        forall|i: int| 0 <= i < log.len() ==> !sel.contains(#[trigger] log[i].chapter),
    ensures
        replay_entities_spec(es, log, sel) == es,
    decreases log.len(),
{
    if log.len() > 0 {
        assert(!sel.contains(log[log.len() - 1].chapter));
        lemma_replay_unselected(es, log.drop_last(), sel);
    }
}

/// Replaying "before chapter c" is replaying "up to the chapter preceding c",
/// whenever c appears in the log after some other chapter.
pub proof fn lemma_before_is_up_to_previous(log: Seq<HistoryEntryV>, c: Chars)
    requires
        chapters_spec(log).contains(c),
        previous_chapter(chapters_spec(log), c) is Some,
    ensures
        before_spec(chapters_spec(log), c) == up_to_spec(
            chapters_spec(log),
            previous_chapter(chapters_spec(log), c),
        ),
{
    let chs = chapters_spec(log);
    lemma_chapters(log);
    lemma_first_index_some(chs, c);
    let k = first_index(chs, c)->0;
    let p = chs[k - 1];
    assert(chs.take(k).last() == p);
    lemma_first_index_unique(chs, k - 1);
}

/// Replaying before chapter `c` applies exactly the entries of the
/// chapters listed before it: nothing when there is none, else what
/// replaying up to the last of them gives.
pub proof fn lemma_replay_before_is_up_to_previous(es: Seq<EntityV>, log: Seq<HistoryEntryV>, c: Chars)
    ensures
        before_spec(chapters_spec(log), c).len() == 0 ==> replay_entities_spec(
            es,
            log,
            before_spec(chapters_spec(log), c),
        ) == es,
        before_spec(chapters_spec(log), c).len() > 0 ==> replay_entities_spec(
            es,
            log,
            before_spec(chapters_spec(log), c),
        ) == replay_entities_spec(
            es,
            log,
            up_to_spec(chapters_spec(log), Some(before_spec(chapters_spec(log), c).last())),
        ),
{
    let chs = chapters_spec(log);
    let b = before_spec(chs, c);
    lemma_chapters(log);
    lemma_first_index_spec(chs, c);
    assert(b.len() <= chs.len());
    if b.len() == 0 {
        assert forall|i: int| 0 <= i < log.len() implies !b.contains(#[trigger] log[i].chapter) by {}
        lemma_replay_unselected(es, log, b);
    } else {
        let k = b.len() - 1;
        assert(b[k] == chs[k]);
        lemma_first_index_unique(chs, k);
        assert(up_to_spec(chs, Some(b.last())) =~= b);
    }
}

pub proof fn lemma_first_index_some<A>(s: Seq<A>, x: A)
    requires
        s.contains(x),
    ensures
        first_index(s, x) matches Some(i) && 0 <= i < s.len() && s[i] == x,
    decreases s.len(),
{
    if s.drop_last().contains(x) {
        lemma_first_index_some(s.drop_last(), x);
    } else {
        let i = choose|i: int| 0 <= i < s.len() && s[i] == x;
        if i < s.len() - 1 {
            assert(s.drop_last()[i] == x);
        }
        lemma_first_index_none(s.drop_last(), x);
    }
}

/// What `first_index` gives: the first position of `x`, if any.
pub proof fn lemma_first_index_spec<A>(s: Seq<A>, x: A)
    ensures
        match first_index(s, x) {
            Some(i) => 0 <= i < s.len() && s[i] == x && forall|k: int| 0 <= k < i ==> s[k] != x,
            None => forall|k: int| 0 <= k < s.len() ==> s[k] != x,
        },
    decreases s.len(),
{
    if s.len() > 0 {
        lemma_first_index_spec(s.drop_last(), x);
        assert forall|k: int| 0 <= k < s.len() - 1 implies s.drop_last()[k] == s[k] by {}
    }
}

/// The first index is the position before which `x` does not occur.
pub proof fn lemma_first_index_at<A>(s: Seq<A>, x: A, i: int)
    requires
        0 <= i <= s.len(),
        forall|k: int| 0 <= k < i ==> s[k] != x,
        i < s.len() ==> s[i] == x,
    ensures
        first_index(s, x) == if i < s.len() {
            Some(i)
        } else {
            None::<int>
        },
    decreases s.len(),
{
    if s.len() > 0 {
        let j = if i < s.len() - 1 {
            i
        } else {
            s.len() - 1
        };
        assert forall|k: int| 0 <= k < j implies s.drop_last()[k] != x by {
            assert(s.drop_last()[k] == s[k]);
        }
        lemma_first_index_at(s.drop_last(), x, j);
    }
}

pub proof fn lemma_first_index_none<A>(s: Seq<A>, x: A)
    requires
        !s.contains(x),
    ensures
        first_index(s, x) is None,
    decreases s.len(),
{
    if s.len() > 0 {
        if s.drop_last().contains(x) {
            let i = choose|i: int| 0 <= i < s.drop_last().len() && s.drop_last()[i] == x;
            assert(s[i] == x);
        }
        lemma_first_index_none(s.drop_last(), x);
        assert(s[s.len() - 1] != x);
    }
}

/// In a sequence without duplicates, the first index of an element is its index.
pub proof fn lemma_first_index_unique<A>(s: Seq<A>, k: int)
    requires
        s.no_duplicates(),
        0 <= k < s.len(),
    ensures
        first_index(s, s[k]) == Some(k),
    decreases s.len(),
{
    if k < s.len() - 1 {
        assert(s.drop_last()[k] == s[k]);
        assert(s.drop_last().no_duplicates());
        lemma_first_index_unique(s.drop_last(), k);
    } else {
        assert(!s.drop_last().contains(s[k])) by {
            if s.drop_last().contains(s[k]) {
                let j = choose|j: int| 0 <= j < s.drop_last().len() && s.drop_last()[j] == s[k];
                assert(s[j] == s[k]);
            }
        }
        lemma_first_index_none(s.drop_last(), s[k]);
    }
}

// ── Queries ──────────────────────────────────────────────────────

impl History {
    /// Check if a chapter has any effects applied.
    pub fn has_chapter(&self, chapter: &str) -> (r: bool)
        ensures
            r == exists|i: int| 0 <= i < self.entries@.len() && #[trigger] self.entries@[i].chapter@ == chapter@,
    {
        let mut i: usize = 0;
        while i < self.entries.len()
            invariant
                i <= self.entries@.len(),
                forall|j: int| 0 <= j < i ==> self.entries@[j].chapter@ != chapter@,
            decreases self.entries@.len() - i,
        {
            if str_eq(self.entries[i].chapter.as_str(), chapter) {
                return true;
            }
            i += 1;
        }
        false
    }

    /// Get all entries for a specific chapter.
    pub fn chapter_entries(&self, chapter: &str) -> (r: Vec<&HistoryEntry>)
        ensures
            entry_ref_views(r@) == entry_views(self.entries@).filter(in_chapter(chapter@)),
    {
        let ghost ev = entry_views(self.entries@);
        let mut r: Vec<&HistoryEntry> = Vec::new();
        let mut i: usize = 0;
        while i < self.entries.len()
            invariant
                i <= self.entries@.len(),
                ev == entry_views(self.entries@),
                entry_ref_views(r@) == ev.take(i as int).filter(in_chapter(chapter@)),
            decreases self.entries@.len() - i,
        {
            assert(ev.take(i + 1) == ev.take(i as int).push(ev[i as int]));
            proof { ev.take(i as int).lemma_filter_push(ev[i as int], in_chapter(chapter@)); }
            let ghost prev = r@;
            if str_eq(self.entries[i].chapter.as_str(), chapter) {
                r.push(&self.entries[i]);
                assert(entry_ref_views(r@) =~= entry_ref_views(prev).push(ev[i as int]));
            }
            i += 1;
        }
        assert(ev.take(self.entries@.len() as int) == ev);
        r
    }

    /// Get all unique chapter names in order of first appearance.
    pub fn chapters(&self) -> (r: Vec<String>)
        ensures
            views(r@) == chapters_spec(entry_views(self.entries@)),
    {
        let ghost ev = entry_views(self.entries@);
        let mut seen: Vec<String> = Vec::new();
        let mut i: usize = 0;
        while i < self.entries.len()
            invariant
                i <= self.entries@.len(),
                ev == entry_views(self.entries@),
                views(seen@) == chapters_spec(ev.take(i as int)),
            decreases self.entries@.len() - i,
        {
            assert(ev.take(i + 1).drop_last() == ev.take(i as int));
            let ghost prev = seen@;
            if !contains_str(&seen, self.entries[i].chapter.as_str()) {
                seen.push(self.entries[i].chapter.clone());
                assert(views(seen@) =~= views(prev).push(ev[i as int].chapter));
            }
            i += 1;
        }
        assert(ev.take(self.entries@.len() as int) == ev);
        seen
    }

    /// Get the next available sequence number for a chapter.
    pub fn next_seq(&self, chapter: &str) -> (r: u32)
        requires
            max_seq(entry_views(self.entries@), chapter@) != Some(u32::MAX),
        ensures
            r == match max_seq(entry_views(self.entries@), chapter@) {
                Some(m) => m + 1,
                None => 1,
            },
    {
        let ghost ev = entry_views(self.entries@);
        let mut best: Option<u32> = None;
        let mut i: usize = 0;
        while i < self.entries.len()
            invariant
                i <= self.entries@.len(),
                ev == entry_views(self.entries@),
                best == max_seq(ev.take(i as int), chapter@),
            decreases self.entries@.len() - i,
        {
            assert(ev.take(i + 1).drop_last() == ev.take(i as int));
            if str_eq(self.entries[i].chapter.as_str(), chapter) {
                let s = self.entries[i].seq;
                best = match best {
                    Some(m) => if m >= s {
                        Some(m)
                    } else {
                        Some(s)
                    },
                    None => Some(s),
                };
            }
            i += 1;
        }
        assert(ev.take(self.entries@.len() as int) == ev);
        match best {
            Some(m) => m + 1,
            None => 1,
        }
    }
}

// ── Replay ───────────────────────────────────────────────────────

/// The chapters selected by an optional upper bound.
fn select_up_to(chapters: &Vec<String>, up_to: Option<&str>) -> (r: Vec<String>)
    ensures
        views(r@) == up_to_spec(views(chapters@), match up_to {
            Some(u) => Some(u@),
            None => None,
        }),
{
    match up_to {
        None => crate::text::clone_strs(chapters),
        Some(u) => select_until(chapters, u),
    }
}

fn select_until(chapters: &Vec<String>, u: &str) -> (r: Vec<String>)
    ensures
        views(r@) == up_to_spec(views(chapters@), Some(u@)),
{
    let ghost cv = views(chapters@);
    {
        {
            let mut selected: Vec<String> = Vec::new();
            let mut i: usize = 0;
            while i < chapters.len()
                invariant
                    i <= chapters@.len(),
                    cv == views(chapters@),
                    views(selected@) == cv.take(i as int),
                    first_index(cv.take(i as int), u@) is None,
                decreases chapters@.len() - i,
            {
                let ghost prev = selected@;
                selected.push(chapters[i].clone());
                assert(views(selected@) =~= views(prev).push(cv[i as int]));
                assert(cv.take(i + 1) =~= cv.take(i as int).push(cv[i as int]));
                assert(cv.take(i + 1).drop_last() == cv.take(i as int));
                if str_eq(chapters[i].as_str(), u) {
                    proof { lemma_first_index_prefix_found(cv, u@, i as int); }
                    return selected;
                }
                i += 1;
            }
            assert(cv.take(chapters@.len() as int) == cv);
            selected
        }
    }
}

proof fn lemma_first_index_prefix_found(cv: Seq<Chars>, u: Chars, i: int)
    requires
        0 <= i < cv.len(),
        cv[i] == u,
        first_index(cv.take(i), u) is None,
    ensures
        first_index(cv, u) == Some(i),
    decreases cv.len(),
{
    if i < cv.len() - 1 {
        assert(cv.drop_last().take(i) == cv.take(i));
        lemma_first_index_prefix_found(cv.drop_last(), u, i);
    } else {
        assert(cv.drop_last() == cv.take(i));
    }
}

/// The chapters strictly before `current`.
pub(crate) fn select_before(chapters: &Vec<String>, current: &str) -> (r: Vec<String>)
    ensures
        views(r@) == before_spec(views(chapters@), current@),
{
    let ghost cv = views(chapters@);
    let mut selected: Vec<String> = Vec::new();
    let mut i: usize = 0;
    while i < chapters.len()
        invariant
            i <= chapters@.len(),
            cv == views(chapters@),
            views(selected@) == cv.take(i as int),
            first_index(cv.take(i as int), current@) is None,
        decreases chapters@.len() - i,
    {
        if str_eq(chapters[i].as_str(), current) {
            proof { lemma_first_index_prefix_found(cv, current@, i as int); }
            return selected;
        }
        let ghost prev = selected@;
        selected.push(chapters[i].clone());
        assert(views(selected@) =~= views(prev).push(cv[i as int]));
        assert(cv.take(i + 1) =~= cv.take(i as int).push(cv[i as int]));
        assert(cv.take(i + 1).drop_last() == cv.take(i as int));
        i += 1;
    }
    assert(cv.take(chapters@.len() as int) == cv);
    selected
}

pub(crate) fn apply_to_all_entities(op: &Op, entities: &mut Vec<Entity>)
    ensures
        entity_views(final(entities)@) == apply_all_entities(op@, entity_views(old(entities)@)),
{
    let ghost ev = entity_views(entities@);
    let mut j: usize = 0;
    while j < entities.len()
        invariant
            j <= entities@.len() == ev.len(),
            ev == entity_views(old(entities)@),
            forall|k: int| 0 <= k < j ==> (#[trigger] entities@[k])@ == apply_entity(op@, ev[k]),
            forall|k: int| j <= k < entities@.len() ==> (#[trigger] entities@[k])@ == ev[k],
        decreases entities@.len() - j,
    {
        op.apply_to_entity(&mut entities[j]);
        j += 1;
    }
    assert(entity_views(entities@) =~= apply_all_entities(op@, ev));
}

pub(crate) fn apply_to_all_secrets(op: &Op, secrets: &mut Vec<Secret>)
    ensures
        secret_views(final(secrets)@) == apply_all_secrets(op@, secret_views(old(secrets)@)),
{
    let ghost sv = secret_views(secrets@);
    let mut j: usize = 0;
    while j < secrets.len()
        invariant
            j <= secrets@.len() == sv.len(),
            sv == secret_views(old(secrets)@),
            forall|k: int| 0 <= k < j ==> (#[trigger] secrets@[k])@ == apply_secret(op@, sv[k]),
            forall|k: int| j <= k < secrets@.len() ==> (#[trigger] secrets@[k])@ == sv[k],
        decreases secrets@.len() - j,
    {
        op.apply_to_secret(&mut secrets[j]);
        j += 1;
    }
    assert(secret_views(secrets@) =~= apply_all_secrets(op@, sv));
}

pub(crate) fn apply_to_all_goals(op: &Op, goals: &mut Vec<GoalEntity>)
    ensures
        goal_entity_views(final(goals)@) == apply_all_goals(op@, goal_entity_views(old(goals)@)),
{
    let ghost gv = goal_entity_views(goals@);
    let mut j: usize = 0;
    while j < goals.len()
        invariant
            j <= goals@.len() == gv.len(),
            gv == goal_entity_views(old(goals)@),
            forall|k: int| 0 <= k < j ==> (#[trigger] goals@[k])@ == apply_goal(op@, gv[k]).1,
            forall|k: int| j <= k < goals@.len() ==> (#[trigger] goals@[k])@ == gv[k],
        decreases goals@.len() - j,
    {
        op.apply_to_goal(&mut goals[j]);
        j += 1;
    }
    assert(goal_entity_views(goals@) =~= apply_all_goals(op@, gv));
}

fn replay_selected_entities(entities: &mut Vec<Entity>, history: &History, sel: &Vec<String>)
    ensures
        entity_views(final(entities)@) == replay_entities_spec(
            entity_views(old(entities)@),
            entry_views(history.entries@),
            views(sel@),
        ),
{
    let ghost ev = entry_views(history.entries@);
    let ghost e0 = entity_views(entities@);
    let mut i: usize = 0;
    while i < history.entries.len()
        invariant
            i <= history.entries@.len(),
            ev == entry_views(history.entries@),
            e0 == entity_views(old(entities)@),
            entity_views(entities@) == replay_entities_spec(e0, ev.take(i as int), views(sel@)),
        decreases history.entries@.len() - i,
    {
        assert(ev.take(i + 1).drop_last() == ev.take(i as int));
        let entry = &history.entries[i];
        if contains_str(sel, entry.chapter.as_str()) {
            apply_to_all_entities(&entry.effect, entities);
        }
        i += 1;
    }
    assert(ev.take(history.entries@.len() as int) == ev);
}

fn replay_selected_secrets(secrets: &mut Vec<Secret>, history: &History, sel: &Vec<String>)
    ensures
        secret_views(final(secrets)@) == replay_secrets_spec(
            secret_views(old(secrets)@),
            entry_views(history.entries@),
            views(sel@),
        ),
{
    let ghost ev = entry_views(history.entries@);
    let ghost s0 = secret_views(secrets@);
    let mut i: usize = 0;
    while i < history.entries.len()
        invariant
            i <= history.entries@.len(),
            ev == entry_views(history.entries@),
            s0 == secret_views(old(secrets)@),
            secret_views(secrets@) == replay_secrets_spec(s0, ev.take(i as int), views(sel@)),
        decreases history.entries@.len() - i,
    {
        assert(ev.take(i + 1).drop_last() == ev.take(i as int));
        let entry = &history.entries[i];
        if contains_str(sel, entry.chapter.as_str()) {
            apply_to_all_secrets(&entry.effect, secrets);
        }
        i += 1;
    }
    assert(ev.take(history.entries@.len() as int) == ev);
}

fn replay_selected_goals(goals: &mut Vec<GoalEntity>, history: &History, sel: &Vec<String>)
    ensures
        goal_entity_views(final(goals)@) == replay_goals_spec(
            goal_entity_views(old(goals)@),
            entry_views(history.entries@),
            views(sel@),
        ),
{
    let ghost ev = entry_views(history.entries@);
    let ghost g0 = goal_entity_views(goals@);
    let mut i: usize = 0;
    while i < history.entries.len()
        invariant
            i <= history.entries@.len(),
            ev == entry_views(history.entries@),
            g0 == goal_entity_views(old(goals)@),
            goal_entity_views(goals@) == replay_goals_spec(g0, ev.take(i as int), views(sel@)),
        decreases history.entries@.len() - i,
    {
        assert(ev.take(i + 1).drop_last() == ev.take(i as int));
        let entry = &history.entries[i];
        if contains_str(sel, entry.chapter.as_str()) {
            apply_to_all_goals(&entry.effect, goals);
        }
        i += 1;
    }
    assert(ev.take(history.entries@.len() as int) == ev);
}

pub open spec fn opt_view(o: Option<&str>) -> Option<Chars> {
    match o {
        Some(u) => Some(u@),
        None => None,
    }
}

impl History {
    /// Replay all history entries onto entities, up to and including
    /// `up_to_chapter` (everything when it is None).
    pub fn replay_entities(entities: &mut Vec<Entity>, history: &History, up_to_chapter: Option<&str>)
        ensures
            entity_views(final(entities)@) == replay_entities_spec(
                entity_views(old(entities)@),
                entry_views(history.entries@),
                up_to_spec(chapters_spec(entry_views(history.entries@)), opt_view(up_to_chapter)),
            ),
    {
        let chapters = history.chapters();
        let sel = select_up_to(&chapters, up_to_chapter);
        replay_selected_entities(entities, history, &sel);
    }

    /// Replay history up to but excluding the given chapter.
    pub fn replay_before(entities: &mut Vec<Entity>, history: &History, current_chapter: &str)
        ensures
            entity_views(final(entities)@) == replay_entities_spec(
                entity_views(old(entities)@),
                entry_views(history.entries@),
                before_spec(chapters_spec(entry_views(history.entries@)), current_chapter@),
            ),
    {
        let chapters = history.chapters();
        let sel = select_before(&chapters, current_chapter);
        replay_selected_entities(entities, history, &sel);
    }

    /// Replay secret-related effects.
    pub fn replay_secrets(secrets: &mut Vec<Secret>, history: &History, up_to: Option<&str>)
        ensures
            secret_views(final(secrets)@) == replay_secrets_spec(
                secret_views(old(secrets)@),
                entry_views(history.entries@),
                up_to_spec(chapters_spec(entry_views(history.entries@)), opt_view(up_to)),
            ),
    {
        let chapters = history.chapters();
        let sel = select_up_to(&chapters, up_to);
        replay_selected_secrets(secrets, history, &sel);
    }

    /// Replay goal-related effects.
    pub fn replay_goals(goal_entities: &mut Vec<GoalEntity>, history: &History, up_to: Option<&str>)
        ensures
            goal_entity_views(final(goal_entities)@) == replay_goals_spec(
                goal_entity_views(old(goal_entities)@),
                entry_views(history.entries@),
                up_to_spec(chapters_spec(entry_views(history.entries@)), opt_view(up_to)),
            ),
    {
        let chapters = history.chapters();
        let sel = select_up_to(&chapters, up_to);
        replay_selected_goals(goal_entities, history, &sel);
    }

    /// The log without the entries of a chapter, and how many were removed.
    pub fn rollback_entries(&self, chapter: &str) -> (r: (Vec<HistoryEntry>, usize))
        ensures
            entry_views(r.0@) == entry_views(self.entries@).filter(not_in_chapter(chapter@)),
            r.1 == self.entries@.len() - r.0@.len(),
    {
        let ghost ev = entry_views(self.entries@);
        let mut kept: Vec<HistoryEntry> = Vec::new();
        let mut i: usize = 0;
        while i < self.entries.len()
            invariant
                i <= self.entries@.len(),
                ev == entry_views(self.entries@),
                entry_views(kept@) == ev.take(i as int).filter(not_in_chapter(chapter@)),
                kept@.len() <= i,
            decreases self.entries@.len() - i,
        {
            assert(ev.take(i + 1) == ev.take(i as int).push(ev[i as int]));
            proof { ev.take(i as int).lemma_filter_push(ev[i as int], not_in_chapter(chapter@)); }
            let ghost prev = kept@;
            if !str_eq(self.entries[i].chapter.as_str(), chapter) {
                kept.push(self.entries[i].duplicate());
                assert(entry_views(kept@) =~= entry_views(prev).push(ev[i as int]));
            }
            i += 1;
        }
        assert(ev.take(self.entries@.len() as int) == ev);
        let removed = self.entries.len() - kept.len();
        (kept, removed)
    }

    /// A "Previously On…" summary of the chapter before `current`.
    pub fn previous_chapter_summary(history: &History, current_chapter: &str) -> (r: Option<String>)
        ensures
            match r {
                Some(s) => summary_spec(entry_views(history.entries@), current_chapter@) == Some(s@),
                None => summary_spec(entry_views(history.entries@), current_chapter@) is None,
            },
    {
        let chapters = history.chapters();
        let before = select_before(&chapters, current_chapter);
        if before.len() == 0 {
            return None;
        }
        let prev = &before[before.len() - 1];
        let entries = history.chapter_entries(prev.as_str());
        if entries.len() == 0 {
            return None;
        }
        let mut summary = owned("在 ");
        push_str(&mut summary, prev.as_str());
        push_str(&mut summary, " 中发生了以下变化：\n");
        let ghost mine = entry_ref_views(entries@);
        let ghost head = summary@;
        let mut i: usize = 0;
        while i < entries.len()
            invariant
                i <= entries@.len(),
                mine == entry_ref_views(entries@),
                summary@ == head + summary_lines(mine.take(i as int)),
            decreases entries@.len() - i,
        {
            assert(mine.take(i + 1).drop_last() == mine.take(i as int));
            push_str(&mut summary, "- ");
            let d = entries[i].effect.describe();
            push_str(&mut summary, d.as_str());
            push_str(&mut summary, "\n");
            i += 1;
        }
        assert(mine.take(entries@.len() as int) == mine);
        Some(summary)
    }
}

} // verus!
