//! Project state and the phase lifecycle:
//! locked → ready → active → reviewing → approved (reject: reviewing → active).
use vstd::prelude::*;

use crate::clock::{now, stamp_of};
use crate::error::{LedgerError, LedgerErrorV};
use crate::history::{lemma_first_index_at, lemma_first_index_spec};
use crate::op::first_index;
use crate::phase::PhaseStatus;
use crate::text::{Chars, clone_strs, contains_str, owned, push_str, str_eq, views};

verus! {

broadcast use vstd::seq_lib::group_seq_properties;

/// Runtime state of one phase.
#[derive(Debug)]
pub struct PhaseEntry {
    pub status: PhaseStatus,
    pub beats: u32,
    pub words: u32,
    pub effects: u32,
    pub checked_out_at: Option<String>,
    pub approved_at: Option<String>,
    pub rejected_reason: Option<String>,
    /// The phases this one waits for.
    pub depends_on: Vec<String>,
}

pub ghost struct PhaseEntryV {
    pub status: PhaseStatus,
    pub beats: u32,
    pub words: u32,
    pub effects: u32,
    pub checked_out_at: Option<Chars>,
    pub approved_at: Option<Chars>,
    pub rejected_reason: Option<Chars>,
    pub depends_on: Seq<Chars>,
}

pub open spec fn oc(o: Option<String>) -> Option<Chars> {
    match o {
        Some(s) => Some(s@),
        None => None,
    }
}

impl View for PhaseEntry {
    type V = PhaseEntryV;

    open spec fn view(&self) -> PhaseEntryV {
        PhaseEntryV {
            status: self.status,
            beats: self.beats,
            words: self.words,
            effects: self.effects,
            checked_out_at: oc(self.checked_out_at),
            approved_at: oc(self.approved_at),
            rejected_reason: oc(self.rejected_reason),
            depends_on: views(self.depends_on@),
        }
    }
}

/// The state of one registered phase.
#[derive(Debug)]
pub struct PhaseRecord {
    pub id: String,
    pub entry: PhaseEntry,
}

/// The project's phases: which one is checked out, the plan, and each
/// phase's runtime state (one record per id).
#[derive(Debug)]
pub struct ProjectState {
    pub current_phase: Option<String>,
    /// Ordered plan of phase ids.
    pub plan: Vec<String>,
    pub phases: Vec<PhaseRecord>,
}

pub ghost struct ProjectStateV {
    pub current: Option<Chars>,
    pub plan: Seq<Chars>,
    pub phases: Seq<(Chars, PhaseEntryV)>,
}

pub open spec fn record_views(s: Seq<PhaseRecord>) -> Seq<(Chars, PhaseEntryV)> {
    s.map_values(|r: PhaseRecord| (r.id@, r.entry@))
}

impl View for ProjectState {
    type V = ProjectStateV;

    open spec fn view(&self) -> ProjectStateV {
        ProjectStateV { current: oc(self.current_phase), plan: views(self.plan@), phases: record_views(self.phases@) }
    }
}

pub open spec fn ids(ps: Seq<(Chars, PhaseEntryV)>) -> Seq<Chars> {
    ps.map_values(|p: (Chars, PhaseEntryV)| p.0)
}

pub open spec fn entry_of(s: ProjectStateV, id: Chars) -> Option<PhaseEntryV> {
    match first_index(ids(s.phases), id) {
        Some(i) => Some(s.phases[i].1),
        None => None,
    }
}

/// The state with the record of `id` replaced (when there is one).
pub open spec fn with_entry(s: ProjectStateV, id: Chars, e: PhaseEntryV) -> ProjectStateV {
    match first_index(ids(s.phases), id) {
        Some(i) => ProjectStateV { phases: s.phases.update(i, (id, e)), ..s },
        None => s,
    }
}

pub open spec fn not_registered(id: Chars) -> LedgerErrorV {
    LedgerErrorV::NotFound("Phase '"@ + id + "' 未注册"@)
}

pub open spec fn no_active() -> LedgerErrorV {
    LedgerErrorV::Other("没有活跃的 phase"@)
}

/// Checking out `id` at time `stamp`: refused while another phase is
/// checked out; a ready phase becomes active, an active one just becomes
/// current; locked, reviewing and approved phases are refused.
pub open spec fn checkout_spec(s: ProjectStateV, id: Chars, stamp: Chars) -> (Result<(), LedgerErrorV>, ProjectStateV) {
    match s.current {
        Some(c) if c != id => (Err(LedgerErrorV::Other("Phase '"@ + c + "' 正在进行中，请先 submit 或切换"@)), s),
        _ => match entry_of(s, id) {
            None => (Err(not_registered(id)), s),
            Some(e) => match e.status {
                PhaseStatus::Ready => (
                    Ok(()),
                    ProjectStateV {
                        current: Some(id),
                        ..with_entry(s, id, PhaseEntryV { status: PhaseStatus::Active, checked_out_at: Some(stamp), ..e })
                    },
                ),
                PhaseStatus::Active => (Ok(()), ProjectStateV { current: Some(id), ..s }),
                PhaseStatus::Locked => (Err(LedgerErrorV::Other("Phase '"@ + id + "' 仍然 locked — 前置 phase 未完成"@)), s),
                PhaseStatus::Reviewing => (Err(LedgerErrorV::Other("Phase '"@ + id + "' 正在审阅中"@)), s),
                PhaseStatus::Approved => (
                    Err(LedgerErrorV::Other("Phase '"@ + id + "' 已经 approved，不能重新 checkout"@)),
                    s,
                ),
            },
        },
    }
}

/// Submitting the current phase: active → reviewing.
pub open spec fn submit_spec(s: ProjectStateV) -> (Result<Chars, LedgerErrorV>, ProjectStateV) {
    match s.current {
        None => (Err(no_active()), s),
        Some(id) => match entry_of(s, id) {
            None => (Err(not_registered(id)), s),
            Some(e) => if e.status != PhaseStatus::Active {
                (Err(LedgerErrorV::Other("Phase '"@ + id + "' 不是 active 状态，不能 submit"@)), s)
            } else {
                (Ok(id), with_entry(s, id, PhaseEntryV { status: PhaseStatus::Reviewing, ..e }))
            },
        },
    }
}

/// Each phase's id with the dependencies it was registered with.
pub open spec fn entry_defs(s: ProjectStateV) -> Seq<(Chars, Seq<Chars>)> {
    s.phases.map_values(|p: (Chars, PhaseEntryV)| (p.0, p.1.depends_on))
}

/// Approving the current phase at time `stamp`: reviewing → approved, no
/// phase is current any more, and every locked phase whose dependencies
/// are now all approved becomes ready.
pub open spec fn approve_spec(s: ProjectStateV, stamp: Chars) -> (Result<Chars, LedgerErrorV>, ProjectStateV) {
    match s.current {
        None => (Err(no_active()), s),
        Some(id) => match entry_of(s, id) {
            None => (Err(not_registered(id)), s),
            Some(e) => if e.status != PhaseStatus::Reviewing {
                (Err(LedgerErrorV::Other("Phase '"@ + id + "' 不是 reviewing 状态，不能 approve"@)), s)
            } else {
                (Ok(id), unlock_all(approved_now(s, id, e, stamp)))
            },
        },
    }
}

/// The state right after `id` is approved, before anything is unlocked.
pub open spec fn approved_now(s: ProjectStateV, id: Chars, e: PhaseEntryV, stamp: Chars) -> ProjectStateV {
    ProjectStateV {
        current: None,
        ..with_entry(s, id, PhaseEntryV { status: PhaseStatus::Approved, approved_at: Some(stamp), ..e })
    }
}

/// Every locked phase whose registered dependencies are all approved
/// becomes ready.
pub open spec fn unlock_all(s: ProjectStateV) -> ProjectStateV {
    unlocked(s, s, entry_defs(s))
}

/// Rejecting the current phase: reviewing → active, with the reason kept.
pub open spec fn reject_spec(s: ProjectStateV, reason: Chars) -> (Result<Chars, LedgerErrorV>, ProjectStateV) {
    match s.current {
        None => (Err(no_active()), s),
        Some(id) => match entry_of(s, id) {
            None => (Err(not_registered(id)), s),
            Some(e) => if e.status != PhaseStatus::Reviewing {
                (Err(LedgerErrorV::Other("Phase '"@ + id + "' 不是 reviewing 状态，不能 reject"@)), s)
            } else {
                (Ok(id), with_entry(s, id, PhaseEntryV { status: PhaseStatus::Active, rejected_reason: Some(reason), ..e }))
            },
        },
    }
}

pub open spec fn err_view<T>(r: Result<T, LedgerError>) -> Result<T, LedgerErrorV> {
    match r {
        Ok(x) => Ok(x),
        Err(e) => Err(e@),
    }
}

pub open spec fn id_result_view(r: Result<String, LedgerError>) -> Result<Chars, LedgerErrorV> {
    match r {
        Ok(x) => Ok(x@),
        Err(e) => Err(e@),
    }
}

fn err_other(head: &str, id: &str, tail: &str) -> (r: LedgerError)
    ensures
        r@ == LedgerErrorV::Other(head@ + id@ + tail@),
{
    let mut m = owned(head);
    push_str(&mut m, id);
    push_str(&mut m, tail);
    LedgerError::Other(m)
}

fn not_registered_err(id: &str) -> (r: LedgerError)
    ensures
        r@ == not_registered(id@),
{
    let mut m = owned("Phase '");
    push_str(&mut m, id);
    push_str(&mut m, "' 未注册");
    LedgerError::NotFound(m)
}

fn dup_opt(o: &Option<String>) -> (r: Option<String>)
    ensures
        oc(r) == oc(*o),
{
    match o {
        Some(s) => Some(s.clone()),
        None => None,
    }
}

impl PhaseEntry {
    fn with_status(&self, status: PhaseStatus) -> (r: PhaseEntry)
        ensures
            r@ == (PhaseEntryV { status, ..self@ }),
    {
        PhaseEntry {
            status,
            beats: self.beats,
            words: self.words,
            effects: self.effects,
            checked_out_at: dup_opt(&self.checked_out_at),
            approved_at: dup_opt(&self.approved_at),
            rejected_reason: dup_opt(&self.rejected_reason),
            depends_on: clone_strs(&self.depends_on),
        }
    }
}

impl ProjectState {
    /// An empty project.
    pub fn new() -> (r: ProjectState)
        ensures
            r@ == (ProjectStateV { current: None, plan: Seq::empty(), phases: Seq::empty() }),
    {
        let r = ProjectState { current_phase: None, plan: Vec::new(), phases: Vec::new() };
        assert(r@.plan =~= Seq::<Chars>::empty());
        assert(r@.phases =~= Seq::<(Chars, PhaseEntryV)>::empty());
        r
    }

    fn pos(&self, id: &str) -> (r: Option<usize>)
        ensures
            first_index(ids(self@.phases), id@) == match r {
                Some(i) => Some(i as int),
                None => None,
            },
            r matches Some(i) ==> i < self.phases@.len() && self@.phases[i as int] == (
                self.phases@[i as int].id@,
                self.phases@[i as int].entry@,
            ) && self@.phases[i as int].0 == id@,
    {
        let ghost ks = ids(self@.phases);
        let mut i: usize = 0;
        while i < self.phases.len()
            invariant
                i <= self.phases@.len(),
                ks == ids(self@.phases),
                ks.len() == self.phases@.len(),
                forall|k: int| 0 <= k < i ==> ks[k] != id@,
            decreases self.phases@.len() - i,
        {
            assert(ks[i as int] == self.phases@[i as int].id@);
            if str_eq(self.phases[i].id.as_str(), id) {
                proof { lemma_first_index_at(ks, id@, i as int); }
                return Some(i);
            }
            i += 1;
        }
        proof { lemma_first_index_at(ks, id@, i as int); }
        None
    }

    fn set_entry(&mut self, i: usize, e: PhaseEntry)
        requires
            i < old(self).phases@.len(),
        ensures
            final(self)@ == (ProjectStateV {
                phases: old(self)@.phases.update(i as int, (old(self).phases@[i as int].id@, e@)),
                ..old(self)@
            }),
    {
        let id = self.phases[i].id.clone();
        self.phases.set(i, PhaseRecord { id, entry: e });
        assert(record_views(self.phases@) =~= record_views(old(self).phases@).update(
            i as int,
            (old(self).phases@[i as int].id@, e@),
        ));
    }

    /// Check out a phase at the given time (see `checkout_spec`).
    pub fn checkout_at(&mut self, phase_id: &str, stamp: String) -> (r: Result<(), LedgerError>)
        ensures
            (err_view(r), final(self)@) == checkout_spec(old(self)@, phase_id@, stamp@),
    {
        match &self.current_phase {
            Some(c) => {
                if !str_eq(c.as_str(), phase_id) {
                    return Err(err_other("Phase '", c.as_str(), "' 正在进行中，请先 submit 或切换"));
                }
            },
            None => {},
        }
        let i = match self.pos(phase_id) {
            None => {
                return Err(not_registered_err(phase_id));
            },
            Some(i) => i,
        };
        match self.phases[i].entry.status {
            PhaseStatus::Ready => {
                let ghost sv = stamp@;
                let mut e = self.phases[i].entry.with_status(PhaseStatus::Active);
                e.checked_out_at = Some(stamp);
                self.set_entry(i, e);
                self.current_phase = Some(owned(phase_id));
                assert(final(self)@ == checkout_spec(old(self)@, phase_id@, sv).1);
                Ok(())
            },
            PhaseStatus::Active => {
                self.current_phase = Some(owned(phase_id));
                Ok(())
            },
            PhaseStatus::Locked => Err(err_other("Phase '", phase_id, "' 仍然 locked — 前置 phase 未完成")),
            PhaseStatus::Reviewing => Err(err_other("Phase '", phase_id, "' 正在审阅中")),
            PhaseStatus::Approved => Err(err_other("Phase '", phase_id, "' 已经 approved，不能重新 checkout")),
        }
    }

    /// Check out a phase now: ready → active (see `checkout_spec`).
    pub fn checkout(&mut self, phase_id: &str) -> (r: Result<(), LedgerError>)
        ensures
            exists|secs: nat| (err_view(r), final(self)@) == checkout_spec(old(self)@, phase_id@, stamp_of(secs)),
    {
        let stamp = now();
        let ghost sv = stamp@;
        let r = self.checkout_at(phase_id, stamp);
        proof {
            let secs = choose|secs: nat| sv == stamp_of(secs);
            assert((err_view(r), final(self)@) == checkout_spec(old(self)@, phase_id@, stamp_of(secs)));
        }
        r
    }

    /// Submit the current phase for review: active → reviewing.
    pub fn submit(&mut self) -> (r: Result<String, LedgerError>)
        ensures
            (id_result_view(r), final(self)@) == submit_spec(old(self)@),
    {
        let id = match &self.current_phase {
            None => {
                return Err(LedgerError::Other(owned("没有活跃的 phase")));
            },
            Some(c) => c.clone(),
        };
        let i = match self.pos(id.as_str()) {
            None => {
                return Err(not_registered_err(id.as_str()));
            },
            Some(i) => i,
        };
        if self.phases[i].entry.status != PhaseStatus::Active {
            return Err(err_other("Phase '", id.as_str(), "' 不是 active 状态，不能 submit"));
        }
        let e = self.phases[i].entry.with_status(PhaseStatus::Reviewing);
        self.set_entry(i, e);
        Ok(id)
    }

    /// Approve the current phase at the given time: reviewing → approved.
    pub fn approve_at(&mut self, stamp: String) -> (r: Result<String, LedgerError>)
        ensures
            (id_result_view(r), final(self)@) == approve_spec(old(self)@, stamp@),
    {
        let id = match &self.current_phase {
            None => {
                return Err(LedgerError::Other(owned("没有活跃的 phase")));
            },
            Some(c) => c.clone(),
        };
        let i = match self.pos(id.as_str()) {
            None => {
                return Err(not_registered_err(id.as_str()));
            },
            Some(i) => i,
        };
        if self.phases[i].entry.status != PhaseStatus::Reviewing {
            return Err(err_other("Phase '", id.as_str(), "' 不是 reviewing 状态，不能 approve"));
        }
        let mut e = self.phases[i].entry.with_status(PhaseStatus::Approved);
        e.approved_at = Some(stamp);
        self.set_entry(i, e);
        self.current_phase = None;
        let defs = self.definitions();
        self.resolve_dependencies_with_phases(&defs);
        Ok(id)
    }

    /// Approve the current phase now (see `approve_spec`).
    pub fn approve(&mut self) -> (r: Result<String, LedgerError>)
        ensures
            exists|secs: nat| (id_result_view(r), final(self)@) == approve_spec(old(self)@, stamp_of(secs)),
    {
        let stamp = now();
        let ghost sv = stamp@;
        let r = self.approve_at(stamp);
        proof {
            let secs = choose|secs: nat| sv == stamp_of(secs);
            assert((id_result_view(r), final(self)@) == approve_spec(old(self)@, stamp_of(secs)));
        }
        r
    }

    /// Reject the current phase: reviewing → active.
    pub fn reject(&mut self, reason: &str) -> (r: Result<String, LedgerError>)
        ensures
            (id_result_view(r), final(self)@) == reject_spec(old(self)@, reason@),
    {
        let id = match &self.current_phase {
            None => {
                return Err(LedgerError::Other(owned("没有活跃的 phase")));
            },
            Some(c) => c.clone(),
        };
        let i = match self.pos(id.as_str()) {
            None => {
                return Err(not_registered_err(id.as_str()));
            },
            Some(i) => i,
        };
        if self.phases[i].entry.status != PhaseStatus::Reviewing {
            return Err(err_other("Phase '", id.as_str(), "' 不是 reviewing 状态，不能 reject"));
        }
        let mut e = self.phases[i].entry.with_status(PhaseStatus::Active);
        e.rejected_reason = Some(owned(reason));
        self.set_entry(i, e);
        Ok(id)
    }

    /// Record the beat, word and effect counts of the current phase.
    pub fn update_progress(&mut self, beats: u32, words: u32, effects: u32)
        ensures
            final(self)@ == match old(self)@.current {
                Some(id) => match entry_of(old(self)@, id) {
                    Some(e) => with_entry(old(self)@, id, PhaseEntryV { beats, words, effects, ..e }),
                    None => old(self)@,
                },
                None => old(self)@,
            },
    {
        let id = match &self.current_phase {
            None => {
                return;
            },
            Some(c) => c.clone(),
        };
        match self.pos(id.as_str()) {
            Some(i) => {
                let mut e = self.phases[i].entry.with_status(self.phases[i].entry.status);
                e.beats = beats;
                e.words = words;
                e.effects = effects;
                self.set_entry(i, e);
            },
            None => {},
        }
    }

    /// The id of the checked-out phase.
    pub fn active_phase(&self) -> (r: Option<&str>)
        ensures
            match r {
                Some(s) => self@.current == Some(s@),
                None => self@.current is None,
            },
    {
        match &self.current_phase {
            Some(s) => Some(s.as_str()),
            None => None,
        }
    }
}

// ── Laws of the lifecycle ────────────────────────────────────────

/// An approved phase stays approved whatever transition is attempted.
pub proof fn lemma_approved_is_final(s: ProjectStateV, id: Chars, other: Chars, stamp: Chars, reason: Chars)
    requires
        entry_of(s, id) matches Some(e) && e.status == PhaseStatus::Approved,
    ensures
        entry_of(checkout_spec(s, other, stamp).1, id) == entry_of(s, id),
        entry_of(submit_spec(s).1, id) == entry_of(s, id),
        entry_of(approve_spec(s, stamp).1, id) == entry_of(s, id),
        entry_of(reject_spec(s, reason).1, id) == entry_of(s, id),
{
    lemma_first_index_spec(ids(s.phases), id);
    lemma_with_entry_other(s, other, id);
    match s.current {
        Some(c) => {
            lemma_with_entry_other(s, c, id);
            if let Some(e) = entry_of(s, c) {
                let s2 = approved_now(s, c, e, stamp);
                lemma_unlocked_frame(s2, s2, entry_defs(s2), id);
            }
        },
        None => {},
    }
}

/// Replacing the record of `x` keeps the ids and every other record.
pub proof fn lemma_with_entry_other(s: ProjectStateV, x: Chars, y: Chars)
    ensures
        forall|e: PhaseEntryV|
            #![trigger with_entry(s, x, e)]
            ids(with_entry(s, x, e).phases) == ids(s.phases) && (x != y ==> entry_of(with_entry(s, x, e), y)
                == entry_of(s, y)) && (entry_of(s, x) is Some ==> entry_of(with_entry(s, x, e), x) == Some(e)),
{
    lemma_first_index_spec(ids(s.phases), x);
    lemma_first_index_spec(ids(s.phases), y);
    assert forall|e: PhaseEntryV| #![trigger with_entry(s, x, e)]
        ids(with_entry(s, x, e).phases) == ids(s.phases) && (x != y ==> entry_of(with_entry(s, x, e), y)
            == entry_of(s, y)) && (entry_of(s, x) is Some ==> entry_of(with_entry(s, x, e), x) == Some(e)) by {
        match first_index(ids(s.phases), x) {
            Some(i) => {
                assert(ids(with_entry(s, x, e).phases) =~= ids(s.phases));
            },
            None => {},
        }
    }
}

/// A record is kept, or a locked one becomes ready and is otherwise kept.
pub open spec fn same_or_unlocked(before: Option<PhaseEntryV>, after: Option<PhaseEntryV>) -> bool {
    after == before || match before {
        Some(e) => e.status == PhaseStatus::Locked && after == Some(PhaseEntryV { status: PhaseStatus::Ready, ..e }),
        None => false,
    }
}

/// Submitting or rejecting only ever changes the current phase's record,
/// and checking out only the record of the phase named; approving changes
/// the current phase's record and otherwise only turns locked phases ready.
pub proof fn lemma_only_current_changes(s: ProjectStateV, id: Chars, other: Chars, stamp: Chars, reason: Chars)
    requires
        s.current != Some(id),
        other != id,
    ensures
        entry_of(checkout_spec(s, other, stamp).1, id) == entry_of(s, id),
        entry_of(submit_spec(s).1, id) == entry_of(s, id),
        same_or_unlocked(entry_of(s, id), entry_of(approve_spec(s, stamp).1, id)),
        entry_of(reject_spec(s, reason).1, id) == entry_of(s, id),
{
    lemma_with_entry_other(s, other, id);
    match s.current {
        Some(c) => {
            lemma_with_entry_other(s, c, id);
            if let Some(e) = entry_of(s, c) {
                let s2 = approved_now(s, c, e, stamp);
                lemma_unlocked_frame(s2, s2, entry_defs(s2), id);
            }
        },
        None => {},
    }
}

/// Unlocking keeps the cursor, the plan and the ids, and changes a record
/// only by turning a locked phase ready.
pub proof fn lemma_unlocked_frame(s: ProjectStateV, b: ProjectStateV, defs: Seq<(Chars, Seq<Chars>)>, id: Chars)
    ensures
        unlocked(s, b, defs).current == s.current,
        unlocked(s, b, defs).plan == s.plan,
        ids(unlocked(s, b, defs).phases) == ids(s.phases),
        same_or_unlocked(entry_of(s, id), entry_of(unlocked(s, b, defs), id)),
    decreases defs.len(),
{
    if defs.len() > 0 {
        lemma_unlocked_frame(s, b, defs.drop_last(), id);
        let s1 = unlocked(s, b, defs.drop_last());
        let x = defs.last().0;
        lemma_with_entry_other(s1, x, id);
        lemma_first_index_spec(ids(s1.phases), id);
        lemma_first_index_spec(ids(s.phases), id);
    }
}

/// Through the first `k` definitions of the state's own phases, the
/// phase `x` (locked, its dependencies approved in `b`) is still as it was
/// before its own definition comes, and ready from then on.
proof fn lemma_unlocked_reaches(s: ProjectStateV, b: ProjectStateV, x: Chars, e: PhaseEntryV, k: int)
    requires
        entry_of(s, x) == Some(e),
        e.status == PhaseStatus::Locked,
        deps_approved(b, e.depends_on),
        0 <= k <= s.phases.len(),
    ensures
        entry_of(unlocked(s, b, entry_defs(s).take(k)), x) == if k <= first_index(ids(s.phases), x).unwrap() {
            Some(e)
        } else {
            Some(PhaseEntryV { status: PhaseStatus::Ready, ..e })
        },
    decreases k,
{
    let i = first_index(ids(s.phases), x).unwrap();
    lemma_first_index_spec(ids(s.phases), x);
    let d = entry_defs(s).take(k);
    if k == 0 {
        assert(d.len() == 0);
    } else {
        lemma_unlocked_reaches(s, b, x, e, k - 1);
        assert(d.drop_last() =~= entry_defs(s).take(k - 1));
        let s1 = unlocked(s, b, entry_defs(s).take(k - 1));
        let y = d.last().0;
        assert(d.last() == (s.phases[k - 1].0, s.phases[k - 1].1.depends_on));
        assert(ids(s.phases)[k - 1] == s.phases[k - 1].0);
        lemma_unlocked_frame(s, b, entry_defs(s).take(k - 1), x);
        lemma_with_entry_other(s1, y, x);
        if k - 1 == i {
            assert(s.phases[i].1 == e);
        }
    }
}

/// Approving a phase unlocks each locked phase whose registered
/// dependencies are then all approved.
pub proof fn lemma_approve_unlocks(s: ProjectStateV, stamp: Chars, x: Chars)
    requires
        s.current matches Some(c) && (entry_of(s, c) matches Some(e) && e.status == PhaseStatus::Reviewing),
        entry_of(s, x) matches Some(ex) && ex.status == PhaseStatus::Locked && deps_approved(
            approved_now(s, s.current.unwrap(), entry_of(s, s.current.unwrap()).unwrap(), stamp),
            ex.depends_on,
        ),
    ensures
        approve_spec(s, stamp).0 == Ok::<Chars, LedgerErrorV>(s.current.unwrap()),
        entry_of(approve_spec(s, stamp).1, x) == Some(
            PhaseEntryV { status: PhaseStatus::Ready, ..entry_of(s, x).unwrap() },
        ),
{
    let c = s.current.unwrap();
    let e = entry_of(s, c).unwrap();
    let ex = entry_of(s, x).unwrap();
    let s2 = approved_now(s, c, e, stamp);
    lemma_with_entry_other(s, c, x);
    assert(x != c);
    assert(entry_of(s2, x) == Some(ex));
    lemma_first_index_spec(ids(s2.phases), x);
    lemma_unlocked_reaches(s2, s2, x, ex, s2.phases.len() as int);
    assert(entry_defs(s2).take(s2.phases.len() as int) =~= entry_defs(s2));
}

/// A phase that is checked out and submitted while no other phase is
/// current ends reviewing; approving it then makes it approved and leaves
/// no phase current.
pub proof fn lemma_lifecycle(s: ProjectStateV, id: Chars, t1: Chars, t2: Chars)
    requires
        s.current is None,
        entry_of(s, id) matches Some(e) && e.status == PhaseStatus::Ready,
    ensures
        checkout_spec(s, id, t1).0 is Ok,
        submit_spec(checkout_spec(s, id, t1).1).0 == Ok::<Chars, LedgerErrorV>(id),
        approve_spec(submit_spec(checkout_spec(s, id, t1).1).1, t2).0 == Ok::<Chars, LedgerErrorV>(id),
        approve_spec(submit_spec(checkout_spec(s, id, t1).1).1, t2).1.current is None,
        entry_of(approve_spec(submit_spec(checkout_spec(s, id, t1).1).1, t2).1, id) matches Some(e)
            && e.status == PhaseStatus::Approved,
{
    let s1 = checkout_spec(s, id, t1).1;
    lemma_with_entry_other(s, id, id);
    let s2 = submit_spec(s1).1;
    lemma_with_entry_other(s1, id, id);
    lemma_with_entry_other(s2, id, id);
    let e2 = entry_of(s2, id).unwrap();
    let s3 = approved_now(s2, id, e2, t2);
    lemma_with_entry_other(s3, id, id);
    lemma_unlocked_frame(s3, s3, entry_defs(s3), id);
}

// ── Registration and dependencies ────────────────────────────────

pub open spec fn deps_approved(s: ProjectStateV, deps: Seq<Chars>) -> bool {
    forall|k: int| 0 <= k < deps.len() ==> (entry_of(s, #[trigger] deps[k]) matches Some(e) && e.status
        == PhaseStatus::Approved)
}

pub open spec fn new_entry(status: PhaseStatus, deps: Seq<Chars>) -> PhaseEntryV {
    PhaseEntryV {
        status,
        beats: 0,
        words: 0,
        effects: 0,
        checked_out_at: None,
        approved_at: None,
        rejected_reason: None,
        depends_on: deps,
    }
}

/// Registering a phase: ready when it has no dependencies or all are
/// approved, locked otherwise; its record is replaced or added, and the
/// id joins the plan once.
pub open spec fn registered(s: ProjectStateV, id: Chars, deps: Seq<Chars>) -> ProjectStateV {
    let status = if deps.len() == 0 || deps_approved(s, deps) {
        PhaseStatus::Ready
    } else {
        PhaseStatus::Locked
    };
    let phases = match first_index(ids(s.phases), id) {
        Some(i) => s.phases.update(i, (id, new_entry(status, deps))),
        None => s.phases.push((id, new_entry(status, deps))),
    };
    ProjectStateV {
        phases,
        plan: if s.plan.contains(id) {
            s.plan
        } else {
            s.plan.push(id)
        },
        ..s
    }
}

fn fresh(status: PhaseStatus, deps: &Vec<String>) -> (r: PhaseEntry)
    ensures
        r@ == new_entry(status, views(deps@)),
{
    PhaseEntry {
        status,
        beats: 0,
        words: 0,
        effects: 0,
        checked_out_at: None,
        approved_at: None,
        rejected_reason: None,
        depends_on: clone_strs(deps),
    }
}

/// A phase definition's identity and dependencies.
#[derive(Debug)]
pub struct PhaseDeps {
    pub id: String,
    pub depends_on: Vec<String>,
}

impl ProjectState {
    /// Each phase's id with the dependencies it was registered with.
    fn definitions(&self) -> (r: Vec<PhaseDeps>)
        ensures
            def_views(r@) == entry_defs(self@),
    {
        let mut r: Vec<PhaseDeps> = Vec::new();
        let mut i: usize = 0;
        while i < self.phases.len()
            invariant
                i <= self.phases@.len(),
                def_views(r@) == entry_defs(self@).take(i as int),
            decreases self.phases@.len() - i,
        {
            let ghost prev = r@;
            r.push(PhaseDeps { id: self.phases[i].id.clone(), depends_on: clone_strs(&self.phases[i].entry.depends_on) });
            assert(def_views(r@) =~= def_views(prev).push(entry_defs(self@)[i as int]));
            assert(entry_defs(self@).take(i + 1) =~= entry_defs(self@).take(i as int).push(entry_defs(self@)[i as int]));
            i += 1;
        }
        assert(entry_defs(self@).take(self.phases@.len() as int) =~= entry_defs(self@));
        r
    }

    fn approved(&self, id: &str) -> (r: bool)
        ensures
            r == (entry_of(self@, id@) matches Some(e) && e.status == PhaseStatus::Approved),
    {
        match self.pos(id) {
            Some(i) => self.phases[i].entry.status == PhaseStatus::Approved,
            None => false,
        }
    }

    /// Register a phase with its dependencies.
    pub fn register_phase(&mut self, phase_id: &str, depends_on: &Vec<String>)
        ensures
            final(self)@ == registered(old(self)@, phase_id@, views(depends_on@)),
    {
        let ghost dv = views(depends_on@);
        let mut all = true;
        let mut k: usize = 0;
        while k < depends_on.len()
            invariant
                k <= depends_on@.len(),
                dv == views(depends_on@),
                all == forall|j: int| 0 <= j < k ==> (entry_of(self@, #[trigger] dv[j]) matches Some(e)
                    && e.status == PhaseStatus::Approved),
            decreases depends_on@.len() - k,
        {
            assert(dv[k as int] == depends_on@[k as int]@);
            if !self.approved(depends_on[k].as_str()) {
                all = false;
            }
            k += 1;
        }
        let status = if depends_on.len() == 0 || all {
            PhaseStatus::Ready
        } else {
            PhaseStatus::Locked
        };
        let ghost ps = self@.phases;
        match self.pos(phase_id) {
            Some(i) => {
                self.set_entry(i, fresh(status, depends_on));
            },
            None => {
                self.phases.push(PhaseRecord { id: owned(phase_id), entry: fresh(status, depends_on) });
                assert(self@.phases =~= ps.push((phase_id@, new_entry(status, dv))));
            },
        }
        if !contains_str(&self.plan, phase_id) {
            let ghost pl = self@.plan;
            self.plan.push(owned(phase_id));
            assert(self@.plan =~= pl.push(phase_id@));
        }
    }
}

/// Unlocking by definitions: each locked phase whose dependencies were
/// all approved (before this pass) becomes ready.
pub open spec fn unlocked(s: ProjectStateV, before: ProjectStateV, defs: Seq<(Chars, Seq<Chars>)>) -> ProjectStateV
    decreases defs.len(),
{
    if defs.len() == 0 {
        s
    } else {
        let s1 = unlocked(s, before, defs.drop_last());
        let (id, deps) = defs.last();
        match entry_of(s1, id) {
            Some(e) => if e.status == PhaseStatus::Locked && deps_approved(before, deps) {
                with_entry(s1, id, PhaseEntryV { status: PhaseStatus::Ready, ..e })
            } else {
                s1
            },
            None => s1,
        }
    }
}

/// The first record of `x` comes before position `i` and is approved.
pub open spec fn approved_before(s: ProjectStateV, x: Chars, i: int) -> bool {
    first_index(ids(s.phases), x) matches Some(j) && j < i && s.phases[j].1.status == PhaseStatus::Approved
}

pub open spec fn def_views(d: Seq<PhaseDeps>) -> Seq<(Chars, Seq<Chars>)> {
    d.map_values(|p: PhaseDeps| (p.id@, views(p.depends_on@)))
}

impl ProjectState {
    /// Re-check locked phases against their definitions and unlock those
    /// whose dependencies are all approved.
    pub fn resolve_dependencies_with_phases(&mut self, phases: &Vec<PhaseDeps>)
        ensures
            final(self)@ == unlocked(old(self)@, old(self)@, def_views(phases@)),
    {
        let ghost s0 = self@;
        let mut approved: Vec<String> = Vec::new();
        let mut i: usize = 0;
        assert forall|x: Chars| #[trigger] approved_before(s0, x, 0) implies views(approved@).contains(x) by {
            lemma_first_index_spec(ids(s0.phases), x);
        }
        while i < self.phases.len()
            invariant
                i <= self.phases@.len(),
                self@ == s0,
                forall|x: Chars| views(approved@).contains(x) ==> (entry_of(s0, x) matches Some(e) && e.status == PhaseStatus::Approved),
                forall|x: Chars| #[trigger] approved_before(s0, x, i as int) ==> views(approved@).contains(x),
            decreases self.phases@.len() - i,
        {
            assert(s0.phases[i as int] == (self.phases@[i as int].id@, self.phases@[i as int].entry@));
            let ghost prev0 = views(approved@);
            if self.phases[i].entry.status == PhaseStatus::Approved {
                let ghost prev = approved@;
                proof { lemma_first_index_spec(ids(s0.phases), s0.phases[i as int].0); }
                if self.approved(self.phases[i].id.as_str()) {
                    approved.push(self.phases[i].id.clone());
                    assert(views(approved@) =~= views(prev).push(s0.phases[i as int].0));
                }
            }
            assert forall|x: Chars| #[trigger] approved_before(s0, x, i + 1) implies views(approved@).contains(x) by {
                lemma_first_index_spec(ids(s0.phases), x);
                if first_index(ids(s0.phases), x) == Some(i as int) {
                    assert(ids(s0.phases)[i as int] == x);
                } else {
                    assert(approved_before(s0, x, i as int));
                    assert(prev0.contains(x));
                    let w = choose|w: int| 0 <= w < prev0.len() && prev0[w] == x;
                    assert(views(approved@)[w] == x);
                }
            }
            i += 1;
        }
        assert(forall|x: Chars| views(approved@).contains(x) <==> (entry_of(s0, x) matches Some(e) && e.status == PhaseStatus::Approved)) by {
            assert forall|x: Chars| (entry_of(s0, x) matches Some(e) && e.status == PhaseStatus::Approved) implies views(approved@).contains(x) by {
                lemma_first_index_spec(ids(s0.phases), x);
                assert(approved_before(s0, x, s0.phases.len() as int));
            }
        }
        let ghost dv = def_views(phases@);
        let mut k: usize = 0;
        while k < phases.len()
            invariant
                k <= phases@.len(),
                dv == def_views(phases@),
                forall|x: Chars| views(approved@).contains(x) <==> (entry_of(s0, x) matches Some(e) && e.status == PhaseStatus::Approved),
                self@ == unlocked(s0, s0, dv.take(k as int)),
            decreases phases@.len() - k,
        {
            assert(dv.take(k + 1).drop_last() == dv.take(k as int));
            assert(dv.take(k + 1).last() == (phases@[k as int].id@, views(phases@[k as int].depends_on@)));
            let def = &phases[k];
            match self.pos(def.id.as_str()) {
                Some(i) => {
                    if self.phases[i].entry.status == PhaseStatus::Locked {
                        let ghost deps = views(def.depends_on@);
                        let mut all = true;
                        let mut j: usize = 0;
                        while j < def.depends_on.len()
                            invariant
                                j <= def.depends_on@.len(),
                                deps == views(def.depends_on@),
                                forall|x: Chars| views(approved@).contains(x) <==> (entry_of(s0, x) matches Some(e)
                                    && e.status == PhaseStatus::Approved),
                                all == forall|m: int| 0 <= m < j ==> (entry_of(s0, #[trigger] deps[m]) matches Some(e)
                                    && e.status == PhaseStatus::Approved),
                            decreases def.depends_on@.len() - j,
                        {
                            assert(deps[j as int] == def.depends_on@[j as int]@);
                            if !contains_str(&approved, def.depends_on[j].as_str()) {
                                all = false;
                            }
                            j += 1;
                        }
                        if all {
                            let e = self.phases[i].entry.with_status(PhaseStatus::Ready);
                            self.set_entry(i, e);
                        }
                    }
                },
                None => {},
            }
            k += 1;
        }
        assert(dv.take(phases@.len() as int) == dv);
    }
}

} // verus!
