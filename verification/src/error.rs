//! An error that carries a message.
use vstd::prelude::*;

verus! {

#[derive(Debug)]
pub struct Error {
    e: String,
}

impl Error {
    /// The message of the error.
    pub closed spec fn text(&self) -> Seq<char> {
        self.e@
    }

    pub fn new(e: String) -> (r: Self)
        ensures
            r.text() == e@,
    {
        Error { e }
    }

    /// The message of the error, as it is shown.
    pub fn message(&self) -> (s: String)
        ensures
            s@ == self.text(),
    {
        self.e.clone()
    }
}

} // verus!
