//! The error type shared by the codec, the command parser and the engine.
use vstd::prelude::*;

verus! {

/// A recoverable error: the message is reported to the peer or logged.
#[derive(Debug)]
pub struct DBError(pub String);

impl DBError {
    /// Build an error from a literal message.
    pub fn msg(m: &str) -> (r: DBError)
        ensures
            r.0@ == m@,
    {
        DBError(m.to_owned())
    }
}

} // verus!
