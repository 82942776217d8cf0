//! What can go wrong, and whether it is worth repeating.

use vstd::prelude::*;
use vstd::string::StringExecFns;

verus! {

/// A failure: what happened, and whether trying again later may help.
#[derive(Clone, Debug, PartialEq, Eq)]
pub struct TransportError {
    pub message: String,
    pub retryable: bool,
}

/// A [`TransportError`], its message as a sequence of characters.
pub struct ErrorView {
    pub message: Seq<char>,
    pub retryable: bool,
}

impl View for TransportError {
    type V = ErrorView;

    open spec fn view(&self) -> ErrorView {
        ErrorView { message: self.message@, retryable: self.retryable }
    }
}

/// What the peer said cannot be read, and will not be readable next time.
pub open spec fn protocol(message: Seq<char>) -> ErrorView {
    ErrorView { message, retryable: false }
}

/// What the peer said cannot be read, and will not be readable next time.
pub fn protocol_error(message: String) -> (res: TransportError)
    ensures
        res@ == protocol(message@),
{
    TransportError { message, retryable: false }
}

/// Two texts, one after the other.
pub fn joined(a: &str, b: &str) -> (res: String)
    ensures
        res@ == a@ + b@,
{
    let mut out = a.to_owned();
    out.append(b);
    out
}

} // verus!
