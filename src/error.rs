//! The error of a failed cryptographic operation.
use vstd::prelude::*;

verus! {

#[derive(Debug)]
pub struct CryptographicError {
    message: String,
}

impl CryptographicError {
    /// The text the error was made with.
    pub closed spec fn spec_message(&self) -> Seq<char> {
        self.message@
    }

    pub fn new(message: &str) -> (r: CryptographicError)
        ensures
            r.spec_message() == message@,
    {
        CryptographicError { message: message.to_owned() }
    }

    pub fn message(&self) -> (r: &str)
        ensures
            r@ == self.spec_message(),
    {
        self.message.as_str()
    }
}

} // verus!
