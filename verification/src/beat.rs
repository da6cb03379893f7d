//! Beat — the atomic commit unit: text and effects bundled together.
//! A beat is stored as `{phase}_{seq:03}.json`, a revision as
//! `{phase}_{seq:03}_r{rev}.json`.
use vstd::prelude::*;

use crate::history::{HistoryEntry, HistoryEntryV, entry_views};
use crate::op::{Op, OpV, duplicate_ops, op_views};
use crate::text::{Chars, chars_of, dec, dec3, is_ascii_alnum, ascii_alnum, push_dec, push_dec3, push_str};

verus! {

broadcast use vstd::seq_lib::group_seq_properties;

/// A single beat: one writing iteration's output.
#[derive(Debug)]
pub struct Beat {
    pub phase: String,
    pub seq: u32,
    /// If this beat revises an earlier one, its seq number.
    pub revises: Option<u32>,
    /// Revision number (0 = original).
    pub revision: u32,
    pub text: String,
    pub effects: Vec<Op>,
    pub word_count: u32,
    pub created_by: String,
    pub created_at: String,
    /// Reason for revision (if this is a revision).
    pub revision_reason: Option<String>,
}

/// The creator recorded when none is given.
pub fn default_creator() -> (r: String)
    ensures
        r@ == "ai"@,
{
    "ai".to_owned()
}

// ── Word count ───────────────────────────────────────────────────

/// CJK unified ideographs (and extension A, compatibility block) count as
/// one word each.
pub open spec fn is_cjk(c: char) -> bool {
    ('\u{4e00}' <= c && c <= '\u{9fff}') || ('\u{3400}' <= c && c <= '\u{4dbf}') || ('\u{f900}' <= c
        && c <= '\u{faff}')
}

/// Word count and whether the text ends inside a Latin word.
pub open spec fn count_state(s: Seq<char>) -> (int, bool)
    decreases s.len(),
{
    if s.len() == 0 {
        (0, false)
    } else {
        let (n, in_latin) = count_state(s.drop_last());
        let c = s.last();
        if is_ascii_alnum(c) {
            if in_latin {
                (n, true)
            } else {
                (n + 1, true)
            }
        } else if is_cjk(c) {
            (n + 1, false)
        } else {
            (n, false)
        }
    }
}

/// Number of words: runs of ASCII letters and digits, plus CJK characters.
pub open spec fn word_count(s: Seq<char>) -> int {
    count_state(s).0
}

proof fn lemma_count_bound(s: Seq<char>)
    ensures
        0 <= count_state(s).0 <= s.len(),
    decreases s.len(),
{
    if s.len() > 0 {
        lemma_count_bound(s.drop_last());
    }
}

impl Beat {
    /// Count CJK + Latin words in text.
    pub fn count_words(text: &str) -> (r: u32)
        requires
            text@.len() <= u32::MAX,
        ensures
            r == word_count(text@),
    {
        let v = chars_of(text);
        let mut count: u32 = 0;
        let mut in_latin = false;
        let mut i: usize = 0;
        while i < v.len()
            invariant
                i <= v@.len() <= u32::MAX,
                (count as int, in_latin) == count_state(v@.take(i as int)),
            decreases v@.len() - i,
        {
            let ch = v[i];
            assert(v@.take(i + 1).drop_last() == v@.take(i as int));
            proof { lemma_count_bound(v@.take(i as int)); }
            if ascii_alnum(ch) {
                if !in_latin {
                    count += 1;
                    in_latin = true;
                }
            } else {
                in_latin = false;
                if ('\u{4e00}' <= ch && ch <= '\u{9fff}') || ('\u{3400}' <= ch && ch <= '\u{4dbf}')
                    || ('\u{f900}' <= ch && ch <= '\u{faff}') {
                    count += 1;
                }
            }
            i += 1;
        }
        assert(v@.take(v@.len() as int) == v@);
        count
    }

    /// Generate the filename for this beat.
    pub fn filename(&self) -> (r: String)
        ensures
            r@ == if self.revises is Some {
                self.phase@ + "_"@ + dec3(self.seq as nat) + "_r"@ + dec(self.revision as nat) + ".json"@
            } else {
                self.phase@ + "_"@ + dec3(self.seq as nat) + ".json"@
            },
    {
        let mut s = self.phase.clone();
        push_str(&mut s, "_");
        push_dec3(&mut s, self.seq as u64);
        if self.revises.is_some() {
            push_str(&mut s, "_r");
            push_dec(&mut s, self.revision as u64);
        }
        push_str(&mut s, ".json");
        s
    }
}

// ── Aggregates ───────────────────────────────────────────────────

pub open spec fn words_total(bs: Seq<Beat>) -> int
    decreases bs.len(),
{
    if bs.len() == 0 {
        0
    } else {
        words_total(bs.drop_last()) + bs.last().word_count
    }
}

pub open spec fn seq_max(bs: Seq<Beat>) -> int
    decreases bs.len(),
{
    if bs.len() == 0 {
        0
    } else {
        let m = seq_max(bs.drop_last());
        if m >= bs.last().seq {
            m
        } else {
            bs.last().seq as int
        }
    }
}

/// The effects of all beats, in order.
pub open spec fn effects_of(bs: Seq<Beat>) -> Seq<OpV>
    decreases bs.len(),
{
    if bs.len() == 0 {
        Seq::empty()
    } else {
        effects_of(bs.drop_last()) + op_views(bs.last().effects@)
    }
}

/// History entries for the effects of one beat: chapter = phase,
/// seq = beat seq × 100 + position.
pub open spec fn beat_entries(phase: Chars, seq: u32, ops: Seq<OpV>) -> Seq<HistoryEntryV> {
    Seq::new(
        ops.len(),
        |i: int| HistoryEntryV { chapter: phase, seq: (seq * 100 + i) as u32, effect: ops[i] },
    )
}

pub open spec fn entries_of(bs: Seq<Beat>) -> Seq<HistoryEntryV>
    decreases bs.len(),
{
    if bs.len() == 0 {
        Seq::empty()
    } else {
        entries_of(bs.drop_last()) + beat_entries(bs.last().phase@, bs.last().seq, op_views(bs.last().effects@))
    }
}

/// The numbering of a beat's effects fits in a `u32`: the last effect's
/// number, when there is one, is at most `u32::MAX`.
pub open spec fn numbering_fits(b: Beat) -> bool {
    b.effects@.len() == 0 || b.seq * 100 + b.effects@.len() - 1 <= u32::MAX
}

impl Beat {
    /// Next sequence number for a phase, given its loaded beats.
    pub fn next_seq(beats: &Vec<Beat>) -> (r: u32)
        requires
            seq_max(beats@) < u32::MAX,
        ensures
            r == seq_max(beats@) + 1,
    {
        let mut m: u32 = 0;
        let mut i: usize = 0;
        while i < beats.len()
            invariant
                i <= beats@.len(),
                m == seq_max(beats@.take(i as int)),
            decreases beats@.len() - i,
        {
            assert(beats@.take(i + 1).drop_last() == beats@.take(i as int));
            if beats[i].seq > m {
                m = beats[i].seq;
            }
            i += 1;
        }
        assert(beats@.take(beats@.len() as int) == beats@);
        m + 1
    }

    /// Total word count across all beats in a phase.
    pub fn total_words(beats: &Vec<Beat>) -> (r: u32)
        requires
            words_total(beats@) <= u32::MAX,
        ensures
            r == words_total(beats@),
    {
        let mut total: u32 = 0;
        let mut i: usize = 0;
        while i < beats.len()
            invariant
                i <= beats@.len(),
                total == words_total(beats@.take(i as int)),
                words_total(beats@) <= u32::MAX,
            decreases beats@.len() - i,
        {
            assert(beats@.take(i + 1).drop_last() == beats@.take(i as int));
            proof { lemma_words_prefix(beats@, i as int + 1); }
            total = total + beats[i].word_count;
            i += 1;
        }
        assert(beats@.take(beats@.len() as int) == beats@);
        total
    }

    /// Extract all effects from beats as a flat list.
    pub fn all_effects(beats: &Vec<Beat>) -> (r: Vec<Op>)
        ensures
            op_views(r@) == effects_of(beats@),
    {
        let mut r: Vec<Op> = Vec::new();
        let mut i: usize = 0;
        while i < beats.len()
            invariant
                i <= beats@.len(),
                op_views(r@) == effects_of(beats@.take(i as int)),
            decreases beats@.len() - i,
        {
            assert(beats@.take(i + 1).drop_last() == beats@.take(i as int));
            let mut more = duplicate_ops(&beats[i].effects);
            let ghost prev = r@;
            let ghost m = more@;
            r.append(&mut more);
            assert(op_views(r@) =~= op_views(prev) + op_views(m));
            i += 1;
        }
        assert(beats@.take(beats@.len() as int) == beats@);
        r
    }

    /// This beat's effects as history records, ready for the log.
    pub fn as_history_entries(&self) -> (r: Vec<HistoryEntry>)
        requires
            numbering_fits(*self),
        ensures
            entry_views(r@) == beat_entries(self.phase@, self.seq, op_views(self.effects@)),
    {
        let mut r: Vec<HistoryEntry> = Vec::new();
        let ghost target = beat_entries(self.phase@, self.seq, op_views(self.effects@));
        let mut i: usize = 0;
        while i < self.effects.len()
            invariant
                i <= self.effects@.len(),
                numbering_fits(*self),
                target == beat_entries(self.phase@, self.seq, op_views(self.effects@)),
                entry_views(r@) == target.take(i as int),
            decreases self.effects@.len() - i,
        {
            let ghost prev = r@;
            let e = HistoryEntry {
                chapter: self.phase.clone(),
                seq: self.seq * 100 + i as u32,
                effect: self.effects[i].duplicate(),
            };
            assert(e@ == target[i as int]);
            r.push(e);
            assert(entry_views(r@) =~= entry_views(prev).push(e@));
            assert(entry_views(r@) =~= target.take(i + 1));
            i += 1;
        }
        assert(target.take(self.effects@.len() as int) =~= target);
        r
    }

    /// Convert beats to history records (see `as_history_entries`).
    pub fn to_history_entries(beats: &Vec<Beat>) -> (r: Vec<HistoryEntry>)
        requires
            forall|i: int| 0 <= i < beats@.len() ==> numbering_fits(#[trigger] beats@[i]),
        ensures
            entry_views(r@) == entries_of(beats@),
    {
        let mut r: Vec<HistoryEntry> = Vec::new();
        let mut i: usize = 0;
        while i < beats.len()
            invariant
                i <= beats@.len(),
                forall|k: int| 0 <= k < beats@.len() ==> numbering_fits(#[trigger] beats@[k]),
                entry_views(r@) == entries_of(beats@.take(i as int)),
            decreases beats@.len() - i,
        {
            assert(beats@.take(i + 1).drop_last() == beats@.take(i as int));
            assert(numbering_fits(beats@[i as int]));
            let mut more = beats[i].as_history_entries();
            let ghost prev = r@;
            let ghost m = more@;
            r.append(&mut more);
            assert(entry_views(r@) =~= entry_views(prev) + entry_views(m));
            i += 1;
        }
        assert(beats@.take(beats@.len() as int) == beats@);
        r
    }
}

proof fn lemma_words_prefix(bs: Seq<Beat>, i: int)
    requires
        0 <= i <= bs.len(),
    ensures
        words_total(bs.take(i)) <= words_total(bs),
    decreases bs.len(),
{
    if i < bs.len() {
        assert(bs.drop_last().take(i) == bs.take(i));
        lemma_words_prefix(bs.drop_last(), i);
    } else {
        assert(bs.take(i) == bs);
    }
}

// ── Revisions ────────────────────────────────────────────────────

/// Where a beat's seq goes among beats ordered by seq: the first place
/// whose seq is not below it.
pub open spec fn seq_pos(r: Seq<Beat>, seq: u32) -> int
    decreases r.len(),
{
    if r.len() == 0 {
        0
    } else if r[0].seq >= seq {
        0
    } else {
        1 + seq_pos(r.drop_first(), seq)
    }
}

/// One more beat read: it takes the place of the kept beat of its seq
/// unless that one is a later revision; a new seq is added in order.
pub open spec fn keep_latest(r: Seq<Beat>, b: Beat) -> Seq<Beat> {
    let k = seq_pos(r, b.seq);
    if k < r.len() && r[k].seq == b.seq {
        if r[k].revision <= b.revision {
            r.update(k, b)
        } else {
            r
        }
    } else {
        r.insert(k, b)
    }
}

/// For each seq, the beat of highest revision (of equal ones, the last
/// read), ordered by seq.
pub open spec fn latest_spec(all: Seq<Beat>) -> Seq<Beat>
    decreases all.len(),
{
    if all.len() == 0 {
        Seq::empty()
    } else {
        keep_latest(latest_spec(all.drop_last()), all.last())
    }
}

proof fn lemma_seq_pos(r: Seq<Beat>, seq: u32, k: int)
    requires
        0 <= k <= r.len(),
        forall|j: int| 0 <= j < k ==> #[trigger] r[j].seq < seq,
        k < r.len() ==> r[k].seq >= seq,
    ensures
        seq_pos(r, seq) == k,
    decreases k,
{
    if k > 0 {
        assert forall|j: int| 0 <= j < k - 1 implies #[trigger] r.drop_first()[j].seq < seq by {
            assert(r.drop_first()[j] == r[j + 1]);
        }
        lemma_seq_pos(r.drop_first(), seq, k - 1);
    }
}

proof fn lemma_seq_pos_props(r: Seq<Beat>, seq: u32)
    ensures
        0 <= seq_pos(r, seq) <= r.len(),
        forall|j: int| 0 <= j < seq_pos(r, seq) ==> #[trigger] r[j].seq < seq,
        seq_pos(r, seq) < r.len() ==> r[seq_pos(r, seq)].seq >= seq,
    decreases r.len(),
{
    if r.len() > 0 && r[0].seq < seq {
        lemma_seq_pos_props(r.drop_first(), seq);
        assert forall|j: int| 0 <= j < seq_pos(r, seq) implies #[trigger] r[j].seq < seq by {
            if j > 0 {
                assert(r[j] == r.drop_first()[j - 1]);
            }
        }
        if seq_pos(r, seq) < r.len() {
            assert(r[seq_pos(r, seq)] == r.drop_first()[seq_pos(r, seq) - 1]);
        }
    }
}

pub open spec fn seqs_increasing(r: Seq<Beat>) -> bool {
    forall|i: int, j: int| 0 <= i < j < r.len() ==> r[i].seq < r[j].seq
}

/// `q` keeps a beat of the seq of `x` whose revision is at least that of `x`.
pub open spec fn covers(q: Seq<Beat>, x: Beat) -> bool {
    exists|i: int| 0 <= i < q.len() && q[i].seq == x.seq && q[i].revision >= x.revision
}

proof fn lemma_keep_latest_step(r: Seq<Beat>, b: Beat)
    requires
        seqs_increasing(r),
    ensures
        seqs_increasing(keep_latest(r, b)),
        covers(keep_latest(r, b), b),
        forall|i: int| 0 <= i < r.len() ==> covers(keep_latest(r, b), #[trigger] r[i]),
        forall|i: int|
            0 <= i < keep_latest(r, b).len() ==> (keep_latest(r, b)[i] == b || r.contains(#[trigger] keep_latest(r, b)[i])),
{
    lemma_seq_pos_props(r, b.seq);
    let k = seq_pos(r, b.seq);
    let q = keep_latest(r, b);
    if k < r.len() && r[k].seq == b.seq {
        if r[k].revision <= b.revision {
            assert(q[k] == b);
            assert forall|i: int| 0 <= i < r.len() implies covers(q, #[trigger] r[i]) by {
                if i == k {
                    assert(q[k].seq == r[i].seq && q[k].revision >= r[i].revision);
                } else {
                    assert(q[i] == r[i]);
                }
            }
            assert forall|i: int| 0 <= i < q.len() implies (q[i] == b || r.contains(#[trigger] q[i])) by {
                if i != k {
                    assert(q[i] == r[i]);
                }
            }
        } else {
            assert(q[k].seq == b.seq && q[k].revision >= b.revision);
            assert forall|i: int| 0 <= i < r.len() implies covers(q, #[trigger] r[i]) by {
                assert(q[i] == r[i]);
            }
            assert forall|i: int| 0 <= i < q.len() implies (q[i] == b || r.contains(#[trigger] q[i])) by {
                assert(q[i] == r[i]);
            }
        }
    } else {
        assert(q[k] == b);
        assert forall|i: int, j: int| 0 <= i < j < q.len() implies q[i].seq < q[j].seq by {
            if j < k {
                assert(q[i] == r[i] && q[j] == r[j]);
            } else if j == k {
                assert(q[i] == r[i]);
            } else if i < k {
                assert(q[i] == r[i] && q[j] == r[j - 1]);
                if j - 1 > k {
                    assert(r[k].seq < r[j - 1].seq);
                }
            } else if i == k {
                assert(q[j] == r[j - 1]);
                if j - 1 > k {
                    assert(r[k].seq < r[j - 1].seq);
                }
            } else {
                assert(q[i] == r[i - 1] && q[j] == r[j - 1]);
            }
        }
        assert forall|i: int| 0 <= i < r.len() implies covers(q, #[trigger] r[i]) by {
            if i < k {
                assert(q[i] == r[i]);
            } else {
                assert(q[i + 1] == r[i]);
            }
        }
        assert forall|i: int| 0 <= i < q.len() implies (q[i] == b || r.contains(#[trigger] q[i])) by {
            if i < k {
                assert(q[i] == r[i]);
            } else if i > k {
                assert(q[i] == r[i - 1]);
            }
        }
    }
}

/// Keeping the latest revisions leaves one beat per seq, in increasing
/// seq order; each beat read has a kept beat of its seq with a revision at
/// least as high; and every kept beat is one that was read.
pub proof fn lemma_latest(all: Seq<Beat>)
    ensures
        seqs_increasing(latest_spec(all)),
        forall|m: int| 0 <= m < all.len() ==> covers(latest_spec(all), #[trigger] all[m]),
        forall|i: int| 0 <= i < latest_spec(all).len() ==> all.contains(#[trigger] latest_spec(all)[i]),
    decreases all.len(),
{
    if all.len() > 0 {
        let p = all.drop_last();
        let b = all.last();
        lemma_latest(p);
        let r = latest_spec(p);
        lemma_keep_latest_step(r, b);
        let q = latest_spec(all);
        assert(q == keep_latest(r, b));
        assert forall|m: int| 0 <= m < all.len() implies covers(q, #[trigger] all[m]) by {
            if m < p.len() {
                assert(all[m] == p[m]);
                let i = choose|i: int| 0 <= i < r.len() && r[i].seq == p[m].seq && r[i].revision >= p[m].revision;
                assert(covers(q, r[i]));
            }
        }
        assert forall|i: int| 0 <= i < q.len() implies all.contains(#[trigger] q[i]) by {
            if q[i] == b {
                assert(all[all.len() - 1] == q[i]);
            } else {
                assert(r.contains(q[i]));
                let j = choose|j: int| 0 <= j < r.len() && r[j] == q[i];
                assert(p.contains(r[j]));
                let m = choose|m: int| 0 <= m < p.len() && p[m] == r[j];
                assert(all[m] == q[i]);
            }
        }
    }
}

impl Beat {
    /// The beats of a phase as read, reduced to the latest revision of
    /// each seq, ordered by seq.
    pub fn latest_revisions(all: Vec<Beat>) -> (r: Vec<Beat>)
        ensures
            r@ == latest_spec(all@),
    {
        let ghost a0 = all@;
        assert(a0.len() == all.len());
        let mut all = all;
        let mut r: Vec<Beat> = Vec::new();
        let mut i: usize = 0;
        while all.len() > 0
            invariant
                i + all@.len() == a0.len(),
                a0.len() <= usize::MAX,
                all@ == a0.skip(i as int),
                r@ == latest_spec(a0.take(i as int)),
            decreases all@.len(),
        {
            let b = all.remove(0);
            proof {
                assert(a0.take(i + 1).drop_last() == a0.take(i as int));
                assert(a0.take(i + 1).last() == b);
            }
            let ghost rv = r@;
            let mut k: usize = 0;
            while k < r.len() && r[k].seq < b.seq
                invariant
                    k <= r@.len(),
                    rv == r@,
                    forall|j: int| 0 <= j < k ==> #[trigger] rv[j].seq < b.seq,
                decreases r@.len() - k,
            {
                k += 1;
            }
            proof {
                lemma_seq_pos(rv, b.seq, k as int);
            }
            if k < r.len() && r[k].seq == b.seq {
                if r[k].revision <= b.revision {
                    r.set(k, b);
                }
            } else {
                r.insert(k, b);
            }
            i += 1;
            assert(all@ =~= a0.skip(i as int));
        }
        assert(a0.take(a0.len() as int) == a0);
        r
    }
}

} // verus!
