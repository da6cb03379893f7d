//! Information disclosure: narrative secrets, who knows them, and the
//! narrative technique their disclosure state implies.
use vstd::prelude::*;

use crate::entity::{fact1, fact2, push_one};
use crate::text::{Chars, clone_strs, contains_str, owned, push_str, views};

verus! {

broadcast use vstd::seq_lib::group_seq_properties;

/// The dramatic purpose of a secret.
#[derive(Debug, Clone, Copy, PartialEq, Eq, Structural)]
pub enum DramaticFunction {
    Reversal,
    Suspense,
    DramaticIrony,
    Misdirection,
    Foreshadowing,
}

/// A narrative secret with disclosure tracking.
#[derive(Debug)]
pub struct Secret {
    pub id: String,
    pub content: String,
    /// Which characters currently know this secret.
    pub known_by: Vec<String>,
    /// Whether the reader knows this secret.
    pub revealed_to_reader: bool,
    /// The intended dramatic purpose.
    pub dramatic_function: Option<DramaticFunction>,
}

pub ghost struct SecretV {
    pub id: Chars,
    pub content: Chars,
    pub known_by: Seq<Chars>,
    pub revealed_to_reader: bool,
    pub dramatic_function: Option<DramaticFunction>,
}

impl View for Secret {
    type V = SecretV;

    open spec fn view(&self) -> SecretV {
        SecretV {
            id: self.id@,
            content: self.content@,
            known_by: views(self.known_by@),
            revealed_to_reader: self.revealed_to_reader,
            dramatic_function: self.dramatic_function,
        }
    }
}

pub open spec fn secret_views(ss: Seq<Secret>) -> Seq<SecretV> {
    ss.map_values(|s: Secret| s@)
}

/// The narrative technique implied by a secret's disclosure state.
#[derive(Debug, Clone, Copy, PartialEq, Eq, Structural)]
pub enum NarrativeTechnique {
    /// Nobody knows, reader doesn't know.
    Suspense,
    /// The reader knows something some character does not.
    DramaticIrony,
    /// A character knows, the reader doesn't.
    HiddenAdvantage,
    /// Wrong belief, reader is also misled.
    Misdirection,
    /// Everyone relevant knows.
    Resolved,
}

pub open spec fn classify_spec(s: SecretV) -> NarrativeTechnique {
    if s.known_by.len() == 0 {
        if s.revealed_to_reader {
            NarrativeTechnique::DramaticIrony
        } else {
            NarrativeTechnique::Suspense
        }
    } else if s.revealed_to_reader {
        NarrativeTechnique::DramaticIrony
    } else {
        NarrativeTechnique::HiddenAdvantage
    }
}

/// `known_by` after a reveal to `c`: unchanged when `c` already knows.
pub open spec fn reveal_spec(s: SecretV, c: Chars) -> SecretV {
    if s.known_by.contains(c) {
        s
    } else {
        SecretV { known_by: s.known_by.push(c), ..s }
    }
}

impl Secret {
    pub fn duplicate(&self) -> (r: Secret)
        ensures
            r@ == self@,
    {
        Secret {
            id: self.id.clone(),
            content: self.content.clone(),
            known_by: clone_strs(&self.known_by),
            revealed_to_reader: self.revealed_to_reader,
            dramatic_function: self.dramatic_function,
        }
    }

    /// Classify the current narrative technique based on disclosure state.
    pub fn classify(&self) -> (r: NarrativeTechnique)
        ensures
            r == classify_spec(self@),
    {
        let nobody_knows = self.known_by.len() == 0;
        let reader_knows = self.revealed_to_reader;
        if nobody_knows {
            if reader_knows {
                NarrativeTechnique::DramaticIrony
            } else {
                NarrativeTechnique::Suspense
            }
        } else if reader_knows {
            NarrativeTechnique::DramaticIrony
        } else {
            NarrativeTechnique::HiddenAdvantage
        }
    }

    /// Apply a `reveal` effect: add a character to `known_by`.
    pub fn reveal_to(&mut self, character: &str)
        ensures
            final(self)@ == reveal_spec(old(self)@, character@),
    {
        if !contains_str(&self.known_by, character) {
            let ghost prev = self.known_by@;
            self.known_by.push(owned(character));
            assert(views(self.known_by@) =~= views(prev).push(character@));
        }
    }

    /// Apply a `reveal_to_reader` effect.
    pub fn reveal_to_reader(&mut self)
        ensures
            final(self)@ == (SecretV { revealed_to_reader: true, ..old(self)@ }),
    {
        self.revealed_to_reader = true;
    }
}

/// Revealing a secret to the same character twice changes nothing more.
pub proof fn lemma_reveal_idempotent(s: SecretV, c: Chars)
    ensures
        reveal_spec(reveal_spec(s, c), c) == reveal_spec(s, c),
{
    if !s.known_by.contains(c) {
        assert(s.known_by.push(c)[s.known_by.len() as int] == c);
    }
}

/// A reveal keeps everyone who already knew, and the revealed-to character knows.
pub proof fn lemma_reveal_monotone(s: SecretV, c: Chars, k: Chars)
    ensures
        s.known_by.contains(k) ==> reveal_spec(s, c).known_by.contains(k),
        reveal_spec(s, c).known_by.contains(c),
{
    if !s.known_by.contains(c) {
        assert(s.known_by.push(c)[s.known_by.len() as int] == c);
        if s.known_by.contains(k) {
            let i = choose|i: int| 0 <= i < s.known_by.len() && s.known_by[i] == k;
            assert(s.known_by.push(c)[i] == k);
        }
    }
}

// ── Datalog translation ──────────────────────────────────────────

pub open spec fn secret_facts(s: SecretV) -> Seq<Chars> {
    seq![fact1("secret"@, s.id)] + s.known_by.map_values(
        |c: Chars| fact2("secret_known_by"@, s.id, c),
    ) + if s.revealed_to_reader {
        seq![fact1("secret_revealed_to_reader"@, s.id)]
    } else {
        Seq::empty()
    }
}

pub open spec fn all_secret_facts(ss: Seq<SecretV>) -> Seq<Chars>
    decreases ss.len(),
{
    if ss.len() == 0 {
        Seq::empty()
    } else {
        all_secret_facts(ss.drop_last()) + secret_facts(ss.last())
    }
}

fn fact_str1(pred: &str, a: &str) -> (r: String)
    ensures
        r@ == fact1(pred@, a@),
{
    let mut s = String::new();
    push_str(&mut s, pred);
    push_str(&mut s, "(");
    push_str(&mut s, a);
    push_str(&mut s, ").");
    s
}

fn fact_str2(pred: &str, a: &str, b: &str) -> (r: String)
    ensures
        r@ == fact2(pred@, a@, b@),
{
    let mut s = String::new();
    push_str(&mut s, pred);
    push_str(&mut s, "(");
    push_str(&mut s, a);
    push_str(&mut s, ", ");
    push_str(&mut s, b);
    push_str(&mut s, ").");
    s
}

fn push_secret_facts(facts: &mut Vec<String>, s: &Secret)
    ensures
        views(final(facts)@) == views(old(facts)@) + secret_facts(s@),
{
    let ghost start = views(facts@);
    let sid = s.id.as_str();
    push_one(facts, fact_str1("secret", sid));
    let ghost before = views(facts@);
    let ghost f = |c: Chars| fact2("secret_known_by"@, sid@, c);
    let mut i: usize = 0;
    while i < s.known_by.len()
        invariant
            i <= s.known_by@.len(),
            f == (|c: Chars| fact2("secret_known_by"@, sid@, c)),
            views(facts@) == before + views(s.known_by@).take(i as int).map_values(f),
        decreases s.known_by@.len() - i,
    {
        let ghost kv = views(s.known_by@);
        push_one(facts, fact_str2("secret_known_by", sid, s.known_by[i].as_str()));
        assert(kv.take(i + 1).map_values(f) =~= kv.take(i as int).map_values(f).push(f(kv[i as int])));
        i += 1;
    }
    assert(views(s.known_by@).take(s.known_by@.len() as int) == views(s.known_by@));
    if s.revealed_to_reader {
        push_one(facts, fact_str1("secret_revealed_to_reader", sid));
    }
    assert(views(facts@) =~= start + secret_facts(s@));
}

/// Translate secrets into Datalog facts.
pub fn secrets_to_datalog(secrets: &Vec<Secret>) -> (r: Vec<String>)
    ensures
        views(r@) == seq!["% === Secret Facts ==="@] + all_secret_facts(secret_views(secrets@)),
{
    let mut facts: Vec<String> = Vec::new();
    push_one(&mut facts, owned("% === Secret Facts ==="));
    let ghost sv = secret_views(secrets@);
    let mut i: usize = 0;
    while i < secrets.len()
        invariant
            i <= secrets@.len(),
            sv == secret_views(secrets@),
            views(facts@) == seq!["% === Secret Facts ==="@] + all_secret_facts(sv.take(i as int)),
        decreases secrets@.len() - i,
    {
        assert(sv.take(i + 1).drop_last() == sv.take(i as int));
        push_secret_facts(&mut facts, &secrets[i]);
        i += 1;
    }
    assert(sv.take(secrets@.len() as int) == sv);
    facts
}

/// Built-in rules for information asymmetry reasoning.
pub fn secret_rules() -> (r: &'static str)
    ensures
        r@ == SECRET_RULES@,
{
    SECRET_RULES
}

pub const SECRET_RULES: &'static str = "% === Information Asymmetry Rules ===

% Dramatic irony: reader and some char know, but another char doesn't
dramatic_irony(?Secret, ?Uninformed) :-
  secret_known_by(?Secret, ?Informed),
  secret_revealed_to_reader(?Secret),
  character(?Uninformed),
  ?Informed != ?Uninformed,
  ~secret_known_by(?Secret, ?Uninformed).
";

} // verus!
