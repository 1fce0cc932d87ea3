//! The keyed store: a mapping from text keys to typed values.

use vstd::prelude::*;

pub mod db;

verus! {

/// Errors raised by store operations.
#[derive(Debug)]
pub enum DBError {
    /// The entry at the key does not hold the variant the operation expects.
    WrongType,
    /// Any other store failure.
    Other(String),
}

impl DBError {
    /// A human-readable reason, as it would be reported to a peer.
    pub fn message(&self) -> (r: String)
        ensures
            r@ == match self {
                DBError::WrongType => wrong_type_reason(),
                DBError::Other(s) => s@,
            },
    {
        match self {
            DBError::WrongType => {
                "WRONGTYPE Operation against a key holding the wrong kind of value".to_owned()
            },
            DBError::Other(s) => s.as_str().to_owned(),
        }
    }
}

/// The reason reported for a `WrongType` store error.
pub open spec fn wrong_type_reason() -> Seq<char> {
    "WRONGTYPE Operation against a key holding the wrong kind of value"@
}

} // verus!
