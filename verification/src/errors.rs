//! Error taxonomy of the store.

use vstd::prelude::*;

verus! {

/// Everything that can go wrong in the store or on the wire.
///
/// `KeyNotFound` is the contractual error of `remove` on an absent key.
/// `IoFailure` carries a description of a filesystem or socket failure; the
/// verified core never constructs it, but callers that drive real I/O do.
/// `DecodeFailure` marks bytes that are not a complete record of the schema.
/// `InternalInvariant` would mean the index pointed at something other than a
/// live `Set` record; the verified engine proves this can never happen.
/// `StringError` carries an error description received over the wire.
#[derive(Debug)]
pub enum MyError {
    KeyNotFound,
    IoFailure(String),
    DecodeFailure,
    InternalInvariant,
    StringError(String),
}

impl MyError {
    /// The human-readable description of this error, as the server reports it
    /// to clients and the command line prints it.
    pub fn message(&self) -> (r: String)
        ensures
            r@ == error_message(*self),
    {
        match self {
            MyError::KeyNotFound => String::from_str("Key not found"),
            MyError::IoFailure(m) => {
                let mut s = String::from_str("I/O failure: ");
                s.append(m.as_str());
                s
            },
            MyError::DecodeFailure => String::from_str("malformed record"),
            MyError::InternalInvariant => String::from_str("internal invariant violated"),
            MyError::StringError(m) => m.clone(),
        }
    }
}

/// What `MyError::message` returns, variant by variant.
pub open spec fn error_message(e: MyError) -> Seq<char> {
    match e {
        MyError::KeyNotFound => "Key not found"@,
        MyError::IoFailure(m) => "I/O failure: "@ + m@,
        MyError::DecodeFailure => "malformed record"@,
        MyError::InternalInvariant => "internal invariant violated"@,
        MyError::StringError(m) => m@,
    }
}

} // verus!
