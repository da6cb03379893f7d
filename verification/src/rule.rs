//! Rule management — built-in and user-supplied Datalog rules. Each
//! entry carries the predicates it exports, so the export list always
//! matches the rules.
use vstd::prelude::*;

use crate::loader::{line_spans, span_views, spans_ok, split_lines, trim_span};
use crate::text::{
    Chars, chars_of, insert_sorted, lemma_sorted_of, owned, push_str, sorted_members, sorted_of,
    starts, starts_at, string_from, trim, views,
};

verus! {

broadcast use vstd::seq_lib::group_seq_properties;

/// Where a rule came from.
#[derive(Debug)]
pub enum RuleSource {
    Builtin(&'static str),
    UserFile(String),
}

pub ghost enum RuleSourceV {
    Builtin(Chars),
    UserFile(Chars),
}

impl View for RuleSource {
    type V = RuleSourceV;

    open spec fn view(&self) -> RuleSourceV {
        match self {
            RuleSource::Builtin(s) => RuleSourceV::Builtin(s@),
            RuleSource::UserFile(s) => RuleSourceV::UserFile(s@),
        }
    }
}

/// A single rule entry: Datalog text and the predicates it exports.
#[derive(Debug)]
pub struct RuleEntry {
    pub source: RuleSource,
    pub text: String,
    pub exports: Vec<String>,
}

pub ghost struct RuleEntryV {
    pub source: RuleSourceV,
    pub text: Chars,
    pub exports: Seq<Chars>,
}

impl View for RuleEntry {
    type V = RuleEntryV;

    open spec fn view(&self) -> RuleEntryV {
        RuleEntryV { source: self.source@, text: self.text@, exports: views(self.exports@) }
    }
}

pub open spec fn rule_entry_v(source: RuleSourceV, text: Chars, exports: Seq<Chars>) -> RuleEntryV {
    RuleEntryV { source, text, exports }
}

pub open spec fn rule_entry_views(es: Seq<RuleEntry>) -> Seq<RuleEntryV> {
    es.map_values(|e: RuleEntry| e@)
}

/// All rules of a reasoning session.
#[derive(Debug)]
pub struct RuleSet {
    entries: Vec<RuleEntry>,
}

impl View for RuleSet {
    type V = Seq<RuleEntryV>;

    closed spec fn view(&self) -> Seq<RuleEntryV> {
        rule_entry_views(self.entries@)
    }
}

/// Every export of every entry, in order.
pub open spec fn all_exports(es: Seq<RuleEntryV>) -> Seq<Chars>
    decreases es.len(),
{
    if es.len() == 0 {
        Seq::empty()
    } else {
        all_exports(es.drop_last()) + es.last().exports
    }
}

pub open spec fn source_name(s: RuleSourceV) -> Chars {
    match s {
        RuleSourceV::Builtin(n) => n,
        RuleSourceV::UserFile(p) => p,
    }
}

/// The Datalog program fragment of the rules: each entry under a header
/// naming its source.
pub open spec fn rules_text(es: Seq<RuleEntryV>) -> Chars
    decreases es.len(),
{
    if es.len() == 0 {
        Seq::empty()
    } else {
        rules_text(es.drop_last()) + "% --- rules: "@ + source_name(es.last().source) + " ---\n"@
            + es.last().text + "\n"@
    }
}

/// One export declaration per predicate, in order.
pub open spec fn decl_lines(ps: Seq<Chars>) -> Chars
    decreases ps.len(),
{
    if ps.len() == 0 {
        Seq::empty()
    } else {
        decl_lines(ps.drop_last()) + "@export "@ + ps.last() + " :- csv{}.\n"@
    }
}

/// The built-in rule entries.
pub open spec fn builtin_entries() -> Seq<RuleEntryV> {
    seq![
        rule_entry_v(RuleSourceV::Builtin("entity"@), ENTITY_RULES@, seq!["active_danger"@, "armed_danger"@, "can_meet"@, "danger"@, "enemy"@, "heard_of"@, "personal_bond"@, "personal_enemy"@, "protector"@, "reachable"@, "rebellion_seed"@, "would_confide"@, "would_obey"@, "would_sacrifice"@]),
        rule_entry_v(RuleSourceV::Builtin("social"@), SOCIAL_RULES@, seq!["would_shield"@, "indirect_protector"@, "pressure_to_harm"@, "pressure_to_spare"@, "torn"@, "power_advantage"@, "must_submit"@, "deceiving"@, "deceived"@]),
        rule_entry_v(RuleSourceV::Builtin("goal"@), GOAL_RULES@, seq!["suspense"@, "active_conflict"@, "unblocked"@, "would_unblock"@]),
        rule_entry_v(RuleSourceV::Builtin("intent"@), INTENT_RULES@, seq!["threatens"@, "plots_against"@]),
        rule_entry_v(RuleSourceV::Builtin("secret"@), SECRET_RULES@, seq!["dramatic_irony"@]),
        rule_entry_v(RuleSourceV::Builtin("narrative"@), NARRATIVE_RULES@, seq!["betrayal_opportunity"@, "critical_reveal"@, "possible_reveal"@, "info_cascade"@, "alliance_opportunity"@, "goal_conflict_encounter"@, "orphaned_secret"@]),
    ]
}

impl RuleSet {
    pub fn new() -> (r: RuleSet)
        ensures
            r@ == Seq::<RuleEntryV>::empty(),
    {
        let r = RuleSet { entries: Vec::new() };
        assert(r@ =~= Seq::<RuleEntryV>::empty());
        r
    }

    /// Add a rule entry.
    pub fn add(&mut self, entry: RuleEntry)
        ensures
            final(self)@ == old(self)@.push(entry@),
    {
        let ghost e = entry@;
        self.entries.push(entry);
        assert(rule_entry_views(self.entries@) =~= rule_entry_views(old(self).entries@).push(e));
    }

    /// Merge another rule set into this one.
    pub fn extend(&mut self, other: RuleSet)
        ensures
            final(self)@ == old(self)@ + other@,
    {
        let ghost o = other@;
        let mut other = other;
        self.entries.append(&mut other.entries);
        assert(rule_entry_views(self.entries@) =~= rule_entry_views(old(self).entries@) + o);
    }

    /// All export predicate names, each once, in increasing order.
    pub fn exports(&self) -> (r: Vec<String>)
        ensures
            sorted_members(views(r@), all_exports(self@)),
            views(r@) == sorted_of(all_exports(self@)),
    {
        let ghost es = self@;
        let mut r: Vec<String> = Vec::new();
        let mut i: usize = 0;
        while i < self.entries.len()
            invariant
                i <= self.entries@.len(),
                es == self@,
                es == rule_entry_views(self.entries@),
                sorted_members(views(r@), all_exports(es.take(i as int))),
            decreases self.entries@.len() - i,
        {
            assert(es.take(i + 1).drop_last() == es.take(i as int));
            let ex = &self.entries[i].exports;
            assert(es[i as int].exports == views(ex@));
            let ghost before = all_exports(es.take(i as int));
            let mut k: usize = 0;
            while k < ex.len()
                invariant
                    k <= ex@.len(),
                    sorted_members(views(r@), before + views(ex@).take(k as int)),
                decreases ex@.len() - k,
            {
                assert(before + views(ex@).take(k + 1) == (before + views(ex@).take(k as int)).push(
                    views(ex@)[k as int],
                ));
                insert_sorted(&mut r, ex[k].as_str());
                k += 1;
            }
            assert(views(ex@).take(ex@.len() as int) == views(ex@));
            i += 1;
        }
        assert(es.take(es.len() as int) == es);
        proof { lemma_sorted_of(views(r@), all_exports(self@)); }
        r
    }

    /// All rules as a Datalog program fragment.
    pub fn to_datalog(&self) -> (r: String)
        ensures
            r@ == rules_text(self@),
    {
        let ghost es = self@;
        let mut out = String::new();
        let mut i: usize = 0;
        while i < self.entries.len()
            invariant
                i <= self.entries@.len(),
                es == self@,
                es == rule_entry_views(self.entries@),
                out@ == rules_text(es.take(i as int)),
            decreases self.entries@.len() - i,
        {
            assert(es.take(i + 1).drop_last() == es.take(i as int));
            let e = &self.entries[i];
            assert(es[i as int] == e@);
            push_str(&mut out, "% --- rules: ");
            match &e.source {
                RuleSource::Builtin(name) => push_str(&mut out, name),
                RuleSource::UserFile(path) => push_str(&mut out, path.as_str()),
            }
            push_str(&mut out, " ---\n");
            push_str(&mut out, e.text.as_str());
            push_str(&mut out, "\n");
            i += 1;
        }
        assert(es.take(es.len() as int) == es);
        out
    }

    /// The export declarations of all exported predicates.
    pub fn export_declarations(&self) -> (r: String)
        ensures
            r@ == "% === Exports ===\n"@ + decl_lines(sorted_of(all_exports(self@))),
    {
        let ex = self.exports();
        proof { lemma_sorted_of(views(ex@), all_exports(self@)); }
        let mut out = owned("% === Exports ===\n");
        let ghost head = out@;
        let mut i: usize = 0;
        while i < ex.len()
            invariant
                i <= ex@.len(),
                out@ == head + decl_lines(views(ex@).take(i as int)),
            decreases ex@.len() - i,
        {
            assert(views(ex@).take(i + 1).drop_last() == views(ex@).take(i as int));
            push_str(&mut out, "@export ");
            push_str(&mut out, ex[i].as_str());
            push_str(&mut out, " :- csv{}.\n");
            i += 1;
        }
        assert(views(ex@).take(ex@.len() as int) == views(ex@));
        out
    }

    /// The built-in rules.
    pub fn builtins() -> (r: RuleSet)
        ensures
            r@ == builtin_entries(),
    {
        let mut rs = RuleSet::new();
        let mut exports: Vec<String> = Vec::new();
        exports.push(owned("active_danger"));
        exports.push(owned("armed_danger"));
        exports.push(owned("can_meet"));
        exports.push(owned("danger"));
        exports.push(owned("enemy"));
        exports.push(owned("heard_of"));
        exports.push(owned("personal_bond"));
        exports.push(owned("personal_enemy"));
        exports.push(owned("protector"));
        exports.push(owned("reachable"));
        exports.push(owned("rebellion_seed"));
        exports.push(owned("would_confide"));
        exports.push(owned("would_obey"));
        exports.push(owned("would_sacrifice"));
        assert(views(exports@) =~= seq!["active_danger"@, "armed_danger"@, "can_meet"@, "danger"@, "enemy"@, "heard_of"@, "personal_bond"@, "personal_enemy"@, "protector"@, "reachable"@, "rebellion_seed"@, "would_confide"@, "would_obey"@, "would_sacrifice"@]);
        rs.add(RuleEntry { source: RuleSource::Builtin("entity"), text: owned(ENTITY_RULES), exports });
        let mut exports: Vec<String> = Vec::new();
        exports.push(owned("would_shield"));
        exports.push(owned("indirect_protector"));
        exports.push(owned("pressure_to_harm"));
        exports.push(owned("pressure_to_spare"));
        exports.push(owned("torn"));
        exports.push(owned("power_advantage"));
        exports.push(owned("must_submit"));
        exports.push(owned("deceiving"));
        exports.push(owned("deceived"));
        assert(views(exports@) =~= seq!["would_shield"@, "indirect_protector"@, "pressure_to_harm"@, "pressure_to_spare"@, "torn"@, "power_advantage"@, "must_submit"@, "deceiving"@, "deceived"@]);
        rs.add(RuleEntry { source: RuleSource::Builtin("social"), text: owned(SOCIAL_RULES), exports });
        let mut exports: Vec<String> = Vec::new();
        exports.push(owned("suspense"));
        exports.push(owned("active_conflict"));
        exports.push(owned("unblocked"));
        exports.push(owned("would_unblock"));
        assert(views(exports@) =~= seq!["suspense"@, "active_conflict"@, "unblocked"@, "would_unblock"@]);
        rs.add(RuleEntry { source: RuleSource::Builtin("goal"), text: owned(GOAL_RULES), exports });
        let mut exports: Vec<String> = Vec::new();
        exports.push(owned("threatens"));
        exports.push(owned("plots_against"));
        assert(views(exports@) =~= seq!["threatens"@, "plots_against"@]);
        rs.add(RuleEntry { source: RuleSource::Builtin("intent"), text: owned(INTENT_RULES), exports });
        let mut exports: Vec<String> = Vec::new();
        exports.push(owned("dramatic_irony"));
        assert(views(exports@) =~= seq!["dramatic_irony"@]);
        rs.add(RuleEntry { source: RuleSource::Builtin("secret"), text: owned(SECRET_RULES), exports });
        let mut exports: Vec<String> = Vec::new();
        exports.push(owned("betrayal_opportunity"));
        exports.push(owned("critical_reveal"));
        exports.push(owned("possible_reveal"));
        exports.push(owned("info_cascade"));
        exports.push(owned("alliance_opportunity"));
        exports.push(owned("goal_conflict_encounter"));
        exports.push(owned("orphaned_secret"));
        assert(views(exports@) =~= seq!["betrayal_opportunity"@, "critical_reveal"@, "possible_reveal"@, "info_cascade"@, "alliance_opportunity"@, "goal_conflict_encounter"@, "orphaned_secret"@]);
        rs.add(RuleEntry { source: RuleSource::Builtin("narrative"), text: owned(NARRATIVE_RULES), exports });
        assert(rs@ =~= builtin_entries());
        rs
    }
}

/// The exports of a merged rule set are those of the first followed by
/// those of the second.
pub proof fn lemma_all_exports_concat(a: Seq<RuleEntryV>, b: Seq<RuleEntryV>)
    ensures
        all_exports(a + b) == all_exports(a) + all_exports(b),
    decreases b.len(),
{
    if b.len() == 0 {
        assert(a + b == a);
        assert(all_exports(a) + all_exports(b) =~= all_exports(a));
    } else {
        assert((a + b).drop_last() == a + b.drop_last());
        lemma_all_exports_concat(a, b.drop_last());
        assert(all_exports(a + b) =~= all_exports(a) + all_exports(b));
    }
}

pub const ENTITY_RULES: &'static str = "% Social: who can meet (same location)
can_meet(?A, ?B) :- at(?A, ?P), at(?B, ?P), ?A != ?B, character(?A), character(?B).

% Helper: personal bond (affinity >= 2, either direction) overrides faction rivalry
personal_bond(?A, ?B) :- affinity(?A, ?B, ?V), ?V >= 2.

% Social: enemy detection (rival factions, unless personal bond overrides)
enemy(?A, ?B) :- member(?A, ?S1), member(?B, ?S2), rival(?S1, ?S2), ?A != ?B, ~personal_bond(?A, ?B), ~personal_bond(?B, ?A).

% Social: personal enemy (affinity <= -2)
personal_enemy(?A, ?B) :- affinity(?A, ?B, ?V), ?V <= -2, character(?A), character(?B).

% Danger (background): faction enemies meeting — low signal, kept for completeness
danger(?A, ?B) :- can_meet(?A, ?B), enemy(?A, ?B).
danger(?A, ?B) :- can_meet(?A, ?B), personal_enemy(?A, ?B).

% Armed danger: targeted threat (intent to harm + can meet)
armed_danger(?Attacker, ?Target) :- threatens(?Attacker, ?Target), can_meet(?Attacker, ?Target).

% Active danger: someone with specific hostile intent or personal hatred faces you
active_danger(?A, ?B) :- armed_danger(?A, ?B).
active_danger(?A, ?B) :- can_meet(?A, ?B), personal_enemy(?A, ?B).

% Protection: would sacrifice + someone has armed_danger on the protectee
protector(?Guardian, ?Protectee) :- would_sacrifice(?Guardian, ?Protectee), armed_danger(?Attacker, ?Protectee), ?Guardian != ?Attacker.

% Location: reachable (transitive connections)
reachable(?A, ?B) :- connected(?A, ?B).
reachable(?A, ?C) :- connected(?A, ?B), reachable(?B, ?C), ?A != ?C.

% Social: heard-of via relationships
heard_of(?A, ?C) :- role(?A, ?B, ?R1), role(?B, ?C, ?R2), ?A != ?C.

% Trust: would confide a secret (trust >= 2 + can meet)
would_confide(?A, ?B) :- trust(?A, ?B, ?T), ?T >= 2, can_meet(?A, ?B).

% Trust: would obey (respect >= 2)
would_obey(?A, ?B) :- respect(?A, ?B, ?R), ?R >= 2.

% Trust: would sacrifice (affinity >= 3 + trust >= 1)
would_sacrifice(?A, ?B) :- affinity(?A, ?B, ?Af), ?Af >= 3, trust(?A, ?B, ?T), ?T >= 1.

% Conflict: rebellion seed (low respect + low affinity)
rebellion_seed(?Sub, ?Sup) :- respect(?Sub, ?Sup, ?R), ?R <= -1, affinity(?Sub, ?Sup, ?A), ?A <= -1.
";

pub const GOAL_RULES: &'static str = "% Suspense: active goal with no solution
suspense(?Owner, ?Goal) :-
  goal_status(?Owner, ?Goal, active),
  ~has_solution(?Owner, ?Goal).

% Active conflict: both sides active
active_conflict(?OA, ?GA, ?OB, ?GB) :-
  conflicts(?OA, ?GA, ?OB, ?GB),
  goal_status(?OA, ?GA, active),
  goal_status(?OB, ?GB, active).

% Unblocked: a blocked goal whose blocker has failed or resolved
unblocked(?Owner, ?Goal) :-
  goal_status(?Owner, ?Goal, blocked),
  blocks(?BOwner, ?BGoal, ?Owner, ?Goal),
  goal_status(?BOwner, ?BGoal, failed).

unblocked(?Owner, ?Goal) :-
  goal_status(?Owner, ?Goal, blocked),
  blocks(?BOwner, ?BGoal, ?Owner, ?Goal),
  goal_status(?BOwner, ?BGoal, resolved).

% Cascade: if a blocker resolves, what might unblock
would_unblock(?BOwner, ?BGoal, ?Owner, ?Goal) :-
  blocks(?BOwner, ?BGoal, ?Owner, ?Goal),
  goal_status(?Owner, ?Goal, blocked).
";

pub const SOCIAL_RULES: &'static str = "% Indirect protection: A would sacrifice for C, C would sacrifice for B → A shields B
would_shield(?A, ?B) :-
  would_sacrifice(?A, ?C),
  would_sacrifice(?C, ?B),
  ?A != ?B.

% Indirect protector: would_shield + target has armed_danger + can meet
indirect_protector(?A, ?B) :-
  would_shield(?A, ?B),
  armed_danger(?Attacker, ?B),
  can_meet(?A, ?B),
  ?A != ?Attacker.

% Pressure to harm: A obeys instigator, instigator threatens B, A can meet B
pressure_to_harm(?A, ?B, ?Instigator) :-
  would_obey(?A, ?Instigator),
  threatens(?Instigator, ?B),
  can_meet(?A, ?B),
  ?A != ?B, ?A != ?Instigator.

% Pressure to spare: A would sacrifice for pleader, pleader shields B
pressure_to_spare(?A, ?B, ?Pleader) :-
  would_sacrifice(?A, ?Pleader),
  would_shield(?Pleader, ?B),
  can_meet(?A, ?B),
  ?A != ?B, ?A != ?Pleader.

% Torn: simultaneous pressure to harm and to spare the same person
torn(?A, ?B) :-
  pressure_to_harm(?A, ?B, ?X),
  pressure_to_spare(?A, ?B, ?Y),
  ?X != ?Y.

% Power advantage: faction strength >= 2x opponent
power_advantage(?StrongF, ?WeakF) :-
  strength(?StrongF, ?S1),
  strength(?WeakF, ?S2),
  rival(?StrongF, ?WeakF),
  ?S1 >= ?S2 * 2.

% Must submit: weaker faction member facing the rival faction's leader
must_submit(?A, ?B) :-
  member(?A, ?WeakF),
  leader(?B, ?StrongF),
  power_advantage(?StrongF, ?WeakF),
  can_meet(?A, ?B).

% Deception: real affinity negative + facade affinity positive
deceiving(?A, ?B) :-
  affinity(?A, ?B, ?Real), ?Real <= 0,
  facade_affinity(?A, ?B, ?Fake), ?Fake >= 2.

% Deceived: someone is deceiving you + you don't distrust them
deceived(?B, ?A) :-
  deceiving(?A, ?B),
  trust(?B, ?A, ?T), ?T >= 0.

% Deceived (fallback: no trust data → assumed deceived)
deceived(?B, ?A) :-
  deceiving(?A, ?B),
  ~trust(?B, ?A, ?Any).
";

pub const INTENT_RULES: &'static str = "% Threat: intent_target fact (emitted by fact.rs when intent references an entity)
threatens(?A, ?B) :- intent_target(?A, ?B), character(?A), character(?B).

% Plots against: has a secret weapon against someone + threatens them
plots_against(?A, ?B) :- threatens(?A, ?B), secret_known_by(?S, ?A), ~secret_known_by(?S, ?B).
";

pub const SECRET_RULES: &'static str = "% Dramatic irony: reader and some char know, but another char doesn't
dramatic_irony(?Secret, ?Uninformed) :-
  secret_known_by(?Secret, ?Informed),
  secret_revealed_to_reader(?Secret),
  character(?Uninformed),
  ?Informed != ?Uninformed,
  ~secret_known_by(?Secret, ?Uninformed).
";

pub const NARRATIVE_RULES: &'static str = "% 背叛时机（强）：持有秘密 + 对受害者有敌意(affinity <= -1) + 能见面
betrayal_opportunity(?Plotter, ?Victim, ?Secret) :-
  secret_known_by(?Secret, ?Plotter),
  ~secret_known_by(?Secret, ?Victim),
  affinity(?Plotter, ?Victim, ?Af), ?Af <= -1,
  can_meet(?Plotter, ?Victim),
  character(?Victim).

% 背叛时机（信任型）：受害者信任施害者(trust >= 1) + 施害者不信任受害者(trust <= 0) + 能见面
betrayal_opportunity(?Plotter, ?Victim, ?Secret) :-
  secret_known_by(?Secret, ?Plotter),
  ~secret_known_by(?Secret, ?Victim),
  trust(?Victim, ?Plotter, ?VT), ?VT >= 1,
  trust(?Plotter, ?Victim, ?PT), ?PT <= 0,
  can_meet(?Plotter, ?Victim),
  character(?Victim).

% 揭秘时机（完整）：知情者与不知情者在同一地点
possible_reveal(?Secret, ?Informed, ?Uninformed) :-
  secret_known_by(?Secret, ?Informed),
  ~secret_known_by(?Secret, ?Uninformed),
  can_meet(?Informed, ?Uninformed),
  character(?Uninformed).

% 关键揭秘：对受威胁者的预警（知情者不是敌人才会告知）
critical_reveal(?Secret, ?Informed, ?Target) :-
  possible_reveal(?Secret, ?Informed, ?Target),
  plots_against(?Plotter, ?Target),
  secret_known_by(?Secret, ?Plotter),
  ~enemy(?Informed, ?Target).

% 关键揭秘：对同盟的预警（知情者信任不知情者）
critical_reveal(?Secret, ?Informed, ?Ally) :-
  possible_reveal(?Secret, ?Informed, ?Ally),
  trust(?Informed, ?Ally, ?T), ?T >= 1,
  ~enemy(?Informed, ?Ally).

% 关键揭秘：向上级汇报（不知情者是知情者 would_obey 的对象）
critical_reveal(?Secret, ?Informed, ?Superior) :-
  possible_reveal(?Secret, ?Informed, ?Superior),
  would_obey(?Informed, ?Superior).

% 信息级联：知情者能传给谁（信任 >= 1）
info_cascade(?Secret, ?Bridge, ?Target) :-
  secret_known_by(?Secret, ?Bridge),
  can_meet(?Bridge, ?Target),
  trust(?Bridge, ?Target, ?T), ?T >= 1,
  ~secret_known_by(?Secret, ?Target),
  character(?Target).

% 联盟机会：共同欲望 + 正向亲和
alliance_opportunity(?A, ?B, ?Want) :-
  desires(?A, ?Want), desires(?B, ?Want),
  affinity(?A, ?B, ?V), ?V >= 0,
  character(?A), character(?B), ?A != ?B.

% 联盟机会（回退：无亲和数据时）
alliance_opportunity(?A, ?B, ?Want) :-
  desires(?A, ?Want), desires(?B, ?Want),
  character(?A), character(?B), ?A != ?B,
  ~affinity(?A, ?B, ?Any).

% 联盟机会：共同 desire_tag
alliance_opportunity(?A, ?B, ?Tag) :-
  desire_tag(?A, ?Tag), desire_tag(?B, ?Tag),
  character(?A), character(?B), ?A != ?B,
  affinity(?A, ?B, ?V), ?V >= 0.

% 联盟机会（回退：desire_tag 无亲和数据时）
alliance_opportunity(?A, ?B, ?Tag) :-
  desire_tag(?A, ?Tag), desire_tag(?B, ?Tag),
  character(?A), character(?B), ?A != ?B,
  ~affinity(?A, ?B, ?Any).

% 目标冲突相遇：冲突目标 + 能见面
goal_conflict_encounter(?OA, ?GA, ?OB, ?GB) :-
  active_conflict(?OA, ?GA, ?OB, ?GB),
  can_meet(?OA, ?OB).

% 孤立秘密：读者知道但没有角色知道
has_knower(?S) :- secret_known_by(?S, ?C).
orphaned_secret(?S) :-
  secret(?S),
  secret_revealed_to_reader(?S),
  ~has_knower(?S).
";

// ── User rule files ──────────────────────────────────────────────

/// The predicate a line declares for export: a trimmed line
/// `% @export name` (or `%@export name`) declares `name`, trimmed.
pub open spec fn declared_export(line: Chars) -> Option<Chars> {
    let t = trim(line);
    if starts(t, "% @export "@) {
        Some(trim(t.skip("% @export "@.len() as int)))
    } else if starts(t, "%@export "@) {
        Some(trim(t.skip("%@export "@.len() as int)))
    } else {
        None
    }
}

/// The exports declared by the lines, in order.
pub open spec fn declared_exports(lines: Seq<Chars>) -> Seq<Chars>
    decreases lines.len(),
{
    if lines.len() == 0 {
        Seq::empty()
    } else {
        let rest = declared_exports(lines.drop_last());
        match declared_export(lines.last()) {
            Some(e) => rest.push(e),
            None => rest,
        }
    }
}

fn export_after(v: &Vec<char>, a: usize, b: usize, prefix: &str) -> (r: Option<String>)
    requires
        a <= b <= v@.len(),
    ensures
        match r {
            Some(s) => starts(v@.subrange(a as int, b as int), prefix@) && s@ == trim(
                v@.subrange(a as int, b as int).skip(prefix@.len() as int),
            ),
            None => !starts(v@.subrange(a as int, b as int), prefix@),
        },
{
    if starts_at(v, a, b, prefix) {
        let n = chars_of(prefix).len();
        let (x, y) = trim_span(v, a + n, b);
        assert(v@.subrange(a as int, b as int).skip(n as int) =~= v@.subrange(a + n, b as int));
        Some(string_from(v.as_slice(), x, y))
    } else {
        None
    }
}

/// A rule file: its text, with the exports its `% @export` lines declare.
pub fn user_rule(filename: String, text: String) -> (r: RuleEntry)
    ensures
        r@ == (RuleEntryV {
            source: RuleSourceV::UserFile(filename@),
            text: text@,
            exports: declared_exports(split_lines(text@)),
        }),
{
    let v = chars_of(text.as_str());
    let spans = line_spans(&v);
    let ghost lines = span_views(v@, spans@);
    let mut exports: Vec<String> = Vec::new();
    let mut i: usize = 0;
    while i < spans.len()
        invariant
            i <= spans@.len(),
            spans_ok(v@.len() as int, spans@),
            lines == span_views(v@, spans@),
            views(exports@) == declared_exports(lines.take(i as int)),
        decreases spans@.len() - i,
    {
        let (lo, hi) = spans[i];
        assert(spans@[i as int].0 <= spans@[i as int].1 <= v@.len());
        proof {
            assert(lines.take(i + 1).drop_last() == lines.take(i as int));
            assert(lines.take(i + 1).last() == v@.subrange(lo as int, hi as int));
        }
        let (a, b) = trim_span(&v, lo, hi);
        let found = match export_after(&v, a, b, "% @export ") {
            Some(e) => Some(e),
            None => export_after(&v, a, b, "%@export "),
        };
        match found {
            Some(e) => {
                let ghost prev = exports@;
                exports.push(e);
                assert(views(exports@) =~= views(prev).push(exports@.last()@));
            },
            None => {},
        }
        i += 1;
    }
    assert(lines.take(spans@.len() as int) == lines);
    RuleEntry { source: RuleSource::UserFile(filename), text, exports }
}

} // verus!
