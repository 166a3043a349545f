//! The closed error taxonomy shared by training, generation and the
//! surrounding transport layer, and the tagged per-iteration result.

use vstd::prelude::*;
use vstd::string::*;

verus! {

/// Everything that can go wrong, as one closed enum: configuration
/// errors (`NoPath`, `MaxMinWords`), structural generation failures
/// (`EmptyChain`), the bounded-retry failure (`TerminatorNotFound`)
/// and wrapped I/O or parse failures (`IoError`).
#[derive(Debug, Clone)]
pub enum RyazonError {
    NoPath,
    EmptyChain,
    MaxMinWords,
    TerminatorNotFound(String),
    IoError(String),
}

impl RyazonError {
    /// The human-readable message of each error kind.
    pub open spec fn message_spec(self) -> Seq<char> {
        match self {
            RyazonError::NoPath => "no path provided"@,
            RyazonError::EmptyChain => "the chain is empty"@,
            RyazonError::MaxMinWords => "max words must be greater than min words"@,
            RyazonError::TerminatorNotFound(m) => "terminator not found: "@ + m@,
            RyazonError::IoError(m) => "io error: "@ + m@,
        }
    }

    /// Render the error as its message.
    pub fn message(&self) -> (r: String)
        ensures
            r@ == self.message_spec(),
    {
        let mut r = String::new();
        match self {
            RyazonError::NoPath => {
                r.append("no path provided");
            },
            RyazonError::EmptyChain => {
                r.append("the chain is empty");
            },
            RyazonError::MaxMinWords => {
                r.append("max words must be greater than min words");
            },
            RyazonError::TerminatorNotFound(m) => {
                r.append("terminator not found: ");
                r.append(m.as_str());
            },
            RyazonError::IoError(m) => {
                r.append("io error: ");
                r.append(m.as_str());
            },
        }
        r
    }
}

/// One generation result: either the generated text or the error that
/// iteration ended with.
#[derive(Debug, Clone)]
pub enum RyazonOutput {
    Success(String),
    Error(RyazonError),
}

} // verus!
