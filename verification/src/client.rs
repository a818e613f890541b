//! The client's half of the protocol: building requests and reading
//! responses.
//!
//! A client writes exactly one encoded request, then reads exactly one
//! response of the matching kind. The functions here do everything but the
//! socket: [`crate::protocol::encode_request`] builds the bytes to send,
//! the response decoders read what comes back, and the interpreters below
//! turn a response into the result the caller sees — a server-reported
//! error becomes an error value, never a lost connection.

use vstd::prelude::*;

use crate::errors::MyError;
use crate::protocol::{GetResponse, RemoveResponse, SetResponse};

verus! {

/// The caller's view of a `Get` response: the optional value, or the
/// server's error description as an error value.
pub fn interpret_get_response(resp: GetResponse) -> (r: Result<Option<String>, MyError>)
    ensures
        match resp@ {
            crate::protocol::GetResponseModel::Done(ov) => (r matches Ok(v) && (match v {
                Some(s) => ov matches Some(o) && s@ == o,
                None => ov is None,
            })),
            crate::protocol::GetResponseModel::Failed(m) => (r matches Err(
                MyError::StringError(s),
            ) && s@ == m),
        },
{
    match resp {
        GetResponse::Done(value) => Ok(value),
        GetResponse::Failed(m) => Err(MyError::StringError(m)),
    }
}

/// The caller's view of a `Set` response.
pub fn interpret_set_response(resp: SetResponse) -> (r: Result<(), MyError>)
    ensures
        match resp@ {
            crate::protocol::SetResponseModel::Done => r is Ok,
            crate::protocol::SetResponseModel::Failed(m) => (r matches Err(
                MyError::StringError(s),
            ) && s@ == m),
        },
{
    match resp {
        SetResponse::Done => Ok(()),
        SetResponse::Failed(m) => Err(MyError::StringError(m)),
    }
}

/// The caller's view of a `Remove` response.
pub fn interpret_remove_response(resp: RemoveResponse) -> (r: Result<(), MyError>)
    ensures
        match resp@ {
            crate::protocol::RemoveResponseModel::Done => r is Ok,
            crate::protocol::RemoveResponseModel::Failed(m) => (r matches Err(
                MyError::StringError(s),
            ) && s@ == m),
        },
{
    match resp {
        RemoveResponse::Done => Ok(()),
        RemoveResponse::Failed(m) => Err(MyError::StringError(m)),
    }
}

} // verus!
