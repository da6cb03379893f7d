//! Error type of the ledger logic.
use vstd::prelude::*;

use crate::text::Chars;

verus! {

/// What can go wrong in the ledger's own logic.
#[derive(Debug)]
pub enum LedgerError {
    EffectParse(String),
    Reasoning(String),
    Snapshot(String),
    EntityNotFound(String),
    NotFound(String),
    Parse(String),
    Other(String),
}

pub ghost enum LedgerErrorV {
    EffectParse(Chars),
    Reasoning(Chars),
    Snapshot(Chars),
    EntityNotFound(Chars),
    NotFound(Chars),
    Parse(Chars),
    Other(Chars),
}

impl View for LedgerError {
    type V = LedgerErrorV;

    open spec fn view(&self) -> LedgerErrorV {
        match self {
            LedgerError::EffectParse(s) => LedgerErrorV::EffectParse(s@),
            LedgerError::Reasoning(s) => LedgerErrorV::Reasoning(s@),
            LedgerError::Snapshot(s) => LedgerErrorV::Snapshot(s@),
            LedgerError::EntityNotFound(s) => LedgerErrorV::EntityNotFound(s@),
            LedgerError::NotFound(s) => LedgerErrorV::NotFound(s@),
            LedgerError::Parse(s) => LedgerErrorV::Parse(s@),
            LedgerError::Other(s) => LedgerErrorV::Other(s@),
        }
    }
}

impl LedgerError {
    /// The message carried by the error.
    pub fn message(&self) -> (r: &str)
        ensures
            r@ == match self@ {
                LedgerErrorV::EffectParse(s) => s,
                LedgerErrorV::Reasoning(s) => s,
                LedgerErrorV::Snapshot(s) => s,
                LedgerErrorV::EntityNotFound(s) => s,
                LedgerErrorV::NotFound(s) => s,
                LedgerErrorV::Parse(s) => s,
                LedgerErrorV::Other(s) => s,
            },
    {
        match self {
            LedgerError::EffectParse(s) => s.as_str(),
            LedgerError::Reasoning(s) => s.as_str(),
            LedgerError::Snapshot(s) => s.as_str(),
            LedgerError::EntityNotFound(s) => s.as_str(),
            LedgerError::NotFound(s) => s.as_str(),
            LedgerError::Parse(s) => s.as_str(),
            LedgerError::Other(s) => s.as_str(),
        }
    }
}

} // verus!
