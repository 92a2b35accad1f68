//! Errors, told to the user as one line of text.
use vstd::prelude::*;
use vstd::string::StringExecFns;

verus! {

/// Why a request was refused.
#[derive(Debug)]
pub struct Error {
    text: String,
}

impl View for Error {
    type V = Seq<char>;

    closed spec fn view(&self) -> Seq<char> {
        self.text@
    }
}

/// Two texts, one after the other.
pub fn cat(a: &str, b: &str) -> (r: String)
    ensures
        r@ == a@ + b@,
{
    let mut r: String = a.to_owned();
    r.append(b);
    r
}

/// What was being done, and why it failed.
pub open spec fn in_context(what: Seq<char>, why: Seq<char>) -> Seq<char> {
    what + ": "@ + why
}

/// An outcome with its error as text.
pub open spec fn told<T>(r: Result<T, Error>) -> Result<T, Seq<char>> {
    match r {
        Ok(t) => Ok(t),
        Err(e) => Err(e@),
    }
}

impl Error {
    pub fn new(text: String) -> (e: Error)
        ensures
            e@ == text@,
    {
        Error { text }
    }

    /// The message.
    pub fn message(&self) -> (text: &str)
        ensures
            text@ == self@,
    {
        self.text.as_str()
    }

    /// The error with what was being done in front of it.
    pub fn context(self, what: &str) -> (e: Error)
        ensures
            e@ == in_context(what@, self@),
    {
        Error { text: cat(cat(what, ": ").as_str(), self.text.as_str()) }
    }
}

} // verus!
