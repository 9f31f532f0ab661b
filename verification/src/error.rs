//! Errors, by what they tell the user.

use vstd::prelude::*;

verus! {

/// Why an operation was refused.
#[derive(Debug, Clone, PartialEq, Eq)]
pub struct Error {
    pub message: String,
}

impl View for Error {
    type V = Seq<char>;

    open spec fn view(&self) -> Seq<char> {
        self.message@
    }
}

impl Error {
    pub fn new(message: &str) -> (e: Error)
        ensures
            e@ == message@,
    {
        Error { message: message.to_owned() }
    }

    /// `head` followed by `tail`.
    pub fn because(head: &str, tail: &str) -> (e: Error)
        ensures
            e@ == head@ + tail@,
    {
        let mut message = head.to_owned();
        message.push_str(tail);
        Error { message }
    }

    /// `tail` between `head` and `end`.
    pub fn about(head: &str, middle: &str, end: &str) -> (e: Error)
        ensures
            e@ == head@ + middle@ + end@,
    {
        let mut message = head.to_owned();
        message.push_str(middle);
        message.push_str(end);
        Error { message }
    }
}

} // verus!
