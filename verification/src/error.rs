//! The error of decoding.

use vstd::prelude::*;

verus! {

/// Tells that bytes could not be decoded, and why.
#[derive(Debug, Clone, Copy, PartialEq, Eq)]
pub struct DecodeError {
    description: &'static str,
}

impl View for DecodeError {
    type V = Seq<char>;

    closed spec fn view(&self) -> Seq<char> {
        self.description@
    }
}

impl DecodeError {
    /// An error with the given description.
    pub fn new(description: &'static str) -> (error: DecodeError)
        ensures
            error@ == description@,
    {
        DecodeError { description }
    }

    /// What went wrong.
    pub fn description(&self) -> (description: &'static str)
        ensures
            description@ == self@,
    {
        self.description
    }
}

} // verus!
