//! The dispatch core of the server: one request in, one response out.
//!
//! Each request maps to exactly one engine call, and the engine's result is
//! folded into a response carrying either the payload or a description of
//! the error — an engine error never ends the connection. The byte-level
//! entry point decodes one request, dispatches it, and encodes the
//! response; only an undecodable request yields `None`, which ends the
//! connection. The listening socket and the per-connection read loop live
//! with the caller, outside this verified core.

use vstd::prelude::*;

use crate::engine::KvsEngine;
use crate::errors::error_message;
use crate::errors::MyError;
use crate::protocol::{
    decode_request, encode_get_response, encode_remove_response, encode_set_response,
    encode_get_response_model, encode_remove_response_model, encode_set_response_model,
    encode_request_model, lemma_parse_request_complete, parse_request, GetResponse,
    GetResponseModel, RemoveResponse, RemoveResponseModel, Request, RequestModel, SetResponse,
    SetResponseModel,
};

verus! {

/// The response to one request, of the kind that request calls for.
#[derive(Debug)]
pub enum Response {
    Get(GetResponse),
    Put(SetResponse),
    Remove(RemoveResponse),
}

/// What a reliable engine answers to a request against state `m`.
pub open spec fn expected_response(m: Map<Seq<char>, Seq<char>>, req: RequestModel) -> Seq<u8> {
    match req {
        RequestModel::Get { key } => encode_get_response_model(
            GetResponseModel::Done(
                if m.contains_key(key) {
                    Some(m[key])
                } else {
                    None
                },
            ),
        ),
        RequestModel::Put { key, value } => encode_set_response_model(SetResponseModel::Done),
        RequestModel::Remove { key } => if m.contains_key(key) {
            encode_remove_response_model(RemoveResponseModel::Done)
        } else {
            encode_remove_response_model(
                RemoveResponseModel::Failed(error_message(crate::errors::MyError::KeyNotFound)),
            )
        },
    }
}

/// The state after one request: a `Set` binds, a successful `Remove`
/// unbinds, everything else leaves the state alone.
pub open spec fn next_state(m: Map<Seq<char>, Seq<char>>, req: RequestModel) -> Map<
    Seq<char>,
    Seq<char>,
> {
    match req {
        RequestModel::Get { key } => m,
        RequestModel::Put { key, value } => m.insert(key, value),
        RequestModel::Remove { key } => m.remove(key),
    }
}

/// The dispatch server around one storage backend.
pub struct Server<E: KvsEngine> {
    pub engine: E,
}

impl<E: KvsEngine> Server<E> {
    /// Wrap a storage backend.
    pub fn new(engine: E) -> (s: Server<E>)
        ensures
            s.engine == engine,
    {
        Server { engine }
    }

    /// Dispatch one request to the engine and fold its result into the
    /// response of the matching kind. With a reliable engine the response
    /// and the state change are pinned exactly.
    pub fn handle_request(&mut self, req: Request) -> (resp: Response)
        requires
            old(self).engine.inv(),
        ensures
            final(self).engine.inv(),
            final(self).engine.reliable() == old(self).engine.reliable(),
            old(self).engine.reliable() ==> final(self).engine.state() == next_state(
                old(self).engine.state(),
                req@,
            ),
            req@ is Get ==> resp is Get && final(self).engine.state() == old(self).engine.state(),
            req@ is Put ==> resp is Put,
            req@ is Remove ==> resp is Remove,
            old(self).engine.reliable() ==> (match req@ {
                RequestModel::Get { key } => resp matches Response::Get(gr)
                    && encode_get_response_model(gr@) == expected_response(
                    old(self).engine.state(),
                    req@,
                ),
                RequestModel::Put { key, value } => resp matches Response::Put(sr)
                    && encode_set_response_model(sr@) == expected_response(
                    old(self).engine.state(),
                    req@,
                ),
                RequestModel::Remove { key } => resp matches Response::Remove(rr)
                    && encode_remove_response_model(rr@) == expected_response(
                    old(self).engine.state(),
                    req@,
                ),
            }),
    {
        match req {
            Request::Get { key } => {
                match self.engine.get(key) {
                    Ok(value) => Response::Get(GetResponse::Done(value)),
                    Err(e) => Response::Get(GetResponse::Failed(e.message())),
                }
            },
            Request::Put { key, value } => {
                match self.engine.set(key, value) {
                    Ok(_) => Response::Put(SetResponse::Done),
                    Err(e) => Response::Put(SetResponse::Failed(e.message())),
                }
            },
            Request::Remove { key } => {
                match self.engine.remove(key) {
                    Ok(_) => Response::Remove(RemoveResponse::Done),
                    Err(e) => Response::Remove(RemoveResponse::Failed(e.message())),
                }
            },
        }
    }

    /// Decode one request at `start`, dispatch it, and encode the response:
    /// the bytes to send back and the position after the request. `None`
    /// means no complete request stands there and the connection is done.
    pub fn handle_request_bytes(&mut self, data: &Vec<u8>, start: usize) -> (r: Option<
        (Vec<u8>, usize),
    >)
        requires
            old(self).engine.inv(),
        ensures
            final(self).engine.inv(),
            final(self).engine.reliable() == old(self).engine.reliable(),
            r is None <==> parse_request(data@, start as int) is None,
            r is None ==> final(self).engine.state() == old(self).engine.state(),
            r matches Some((out, next)) ==> (parse_request(data@, start as int) matches Some(
                (rq, n),
            ) && next as int == n && (old(self).engine.reliable() ==> out@ == expected_response(
                old(self).engine.state(),
                rq,
            ) && final(self).engine.state() == next_state(old(self).engine.state(), rq))),
    {
        match decode_request(data, start) {
            Some((req, next)) => {
                let ghost rq = req@;
                let resp = self.handle_request(req);
                let out = match resp {
                    Response::Get(gr) => encode_get_response(&gr),
                    Response::Put(sr) => encode_set_response(&sr),
                    Response::Remove(rr) => encode_remove_response(&rr),
                };
                Some((out, next))
            },
            None => None,
        }
    }
}

/// Protocol round trip: against any state, sending the encoded
/// `Set(k, v)` and then the encoded `Get(k)` decodes to those requests
/// exactly, the upsert is acknowledged, and the lookup answers `v`; a
/// `Remove` of a key never bound answers the `KeyNotFound` error response
/// and leaves the state — and so the connection — untouched.
pub proof fn lemma_protocol_round_trip(
    m: Map<Seq<char>, Seq<char>>,
    k: Seq<char>,
    v: Seq<char>,
    missing: Seq<char>,
)
    requires
        !m.contains_key(missing),
    ensures
        ({
            let put = RequestModel::Put { key: k, value: v };
            parse_request(encode_request_model(put), 0) == Some(
                (put, encode_request_model(put).len() as int),
            )
        }),
        ({
            let get = RequestModel::Get { key: k };
            parse_request(encode_request_model(get), 0) == Some(
                (get, encode_request_model(get).len() as int),
            )
        }),
        next_state(m, RequestModel::Put { key: k, value: v }) == m.insert(k, v),
        expected_response(m, RequestModel::Put { key: k, value: v })
            == encode_set_response_model(SetResponseModel::Done),
        expected_response(
            next_state(m, RequestModel::Put { key: k, value: v }),
            RequestModel::Get { key: k },
        ) == encode_get_response_model(GetResponseModel::Done(Some(v))),
        expected_response(m, RequestModel::Remove { key: missing })
            == encode_remove_response_model(
            RemoveResponseModel::Failed(error_message(MyError::KeyNotFound)),
        ),
        next_state(m, RequestModel::Remove { key: missing }) == m,
{
    let put = RequestModel::Put { key: k, value: v };
    let get = RequestModel::Get { key: k };
    assert(encode_request_model(put).subrange(0, encode_request_model(put).len() as int)
        =~= encode_request_model(put));
    lemma_parse_request_complete(encode_request_model(put), 0, put);
    assert(encode_request_model(get).subrange(0, encode_request_model(get).len() as int)
        =~= encode_request_model(get));
    lemma_parse_request_complete(encode_request_model(get), 0, get);
    assert(m.remove(missing) =~= m);
}

} // verus!
