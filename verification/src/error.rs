//! What a refused request is answered with.
use vstd::prelude::*;

verus! {

/// The class of an error, which is what a caller decides on.
#[derive(Clone, Copy, Debug, PartialEq, Eq, Structural)]
pub enum Code {
    InvalidArgument,
    NotReady,
    NotSupported,
    OutOfMemory,
    BudgetExceeded,
    Io,
}

/// A refusal: a code to act on and a sentence to show.
#[derive(Debug)]
pub struct Error {
    pub code: Code,
    pub message: String,
}

impl Error {
    /// The error has this code and this message.
    pub open spec fn says(self, code: Code, message: Seq<char>) -> bool {
        self.code == code && self.message@ == message
    }

    pub fn new(code: Code, message: &str) -> (e: Error)
        ensures
            e.says(code, message@),
    {
        Error { code, message: String::from_str(message) }
    }
}

} // verus!
