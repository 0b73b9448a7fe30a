//! Errors of the sender's conversation with the market.
use vstd::prelude::*;

verus! {

/// Why publishing an offer on the market failed.
#[derive(Debug)]
pub struct MarketError {
    message: String,
}

impl MarketError {
    pub closed spec fn spec_message(&self) -> Seq<char> {
        self.message@
    }

    /// An error with the given message.
    pub fn new(message: &str) -> (e: Self)
        ensures
            e.spec_message() == message@,
    {
        MarketError { message: crate::text::copy_str(message) }
    }

    /// The message of this error.
    pub fn to_string(&self) -> (s: String)
        ensures
            s@ == self.spec_message(),
    {
        crate::text::copy_str(self.message.as_str())
    }
}

} // verus!
