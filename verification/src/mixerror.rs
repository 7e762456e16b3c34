//! Error type shared by the parsing and loading routines.

use vstd::prelude::*;

verus! {

/// An error raised while parsing a mixnode line or loading a topology.
#[derive(Debug, Clone)]
pub struct MixError {
    details: String,
}

impl MixError {
    /// The message, as a spec-level sequence of characters.
    pub closed spec fn spec_message(&self) -> Seq<char> {
        self.details@
    }

    /// Wrap a message into an error value.
    pub fn new(msg: &str) -> (e: MixError)
        ensures
            e.spec_message() == msg@,
    {
        MixError { details: msg.to_owned() }
    }

    /// The message this error was created with.
    pub fn message(&self) -> (m: &str)
        ensures
            m@ == self.spec_message(),
    {
        self.details.as_str()
    }
}

} // verus!
