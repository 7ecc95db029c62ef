//! What can go wrong.
use vstd::prelude::*;

verus! {

/// Why a request was refused.
#[derive(Debug, PartialEq, Eq)]
pub enum ClaripyError {
    /// An argument of the wrong kind, and what was wrong with it.
    TypeError(String),
}

impl ClaripyError {
    /// What was wrong.
    pub open spec fn message(self) -> Seq<char> {
        match self {
            ClaripyError::TypeError(message) => message@,
        }
    }
}

} // verus!
