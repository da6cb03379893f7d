//! A complete Datalog program: the facts of a snapshot, the rules, and the
//! export declarations.
use vstd::prelude::*;

use crate::fact::{FactSet, FactV, add_facts, collect_facts, facts_text, snapshot_facts};
use crate::rule::{RuleEntryV, RuleSet, all_exports, builtin_entries, decl_lines, rules_text};
use crate::snapshot::Snapshot;
use crate::text::{Chars, push_str, sorted_of};

verus! {

/// A complete Datalog program: facts + rules + exports.
#[derive(Debug)]
pub struct Program {
    pub facts: FactSet,
    pub rules: RuleSet,
}

/// The program text: facts, rules, then one export declaration per
/// exported predicate.
pub open spec fn program_text(facts: Seq<FactV>, rules: Seq<RuleEntryV>) -> Chars {
    facts_text(facts) + "\n"@ + rules_text(rules) + "\n"@ + "% === Exports ===\n"@ + decl_lines(
        sorted_of(all_exports(rules)),
    )
}

impl Program {
    /// Build a program from a snapshot with the built-in rules, followed by
    /// the user's rules when given.
    pub fn from_snapshot(snapshot: &Snapshot, user_rules: Option<RuleSet>) -> (r: Program)
        ensures
            r.facts@ == add_facts(Seq::empty(), snapshot_facts(snapshot@)),
            r.rules@ == match user_rules {
                Some(u) => builtin_entries() + u@,
                None => builtin_entries(),
            },
    {
        let facts = collect_facts(snapshot);
        let mut rules = RuleSet::builtins();
        match user_rules {
            Some(u) => rules.extend(u),
            None => {},
        }
        Program { facts, rules }
    }

    /// Serialize the full program to Datalog text.
    pub fn to_datalog(&self) -> (r: String)
        ensures
            r@ == program_text(self.facts@, self.rules@),
    {
        let mut out = self.facts.to_datalog();
        push_str(&mut out, "\n");
        push_str(&mut out, self.rules.to_datalog().as_str());
        push_str(&mut out, "\n");
        push_str(&mut out, self.rules.export_declarations().as_str());
        out
    }
}

} // verus!
