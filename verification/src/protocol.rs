//! The wire protocol: requests and responses in the same self-delimiting
//! encoding the log uses.
//!
//! A request is a tagged object — `{"Get":{"key":k}}`, `{"Set":{"key":k,
//! "value":v}}` or `{"Remove":{"key":k}}` — and each response is either
//! `{"Ok":...}` with the success payload or `{"Err":m}` with an error
//! description. Exactly one response follows each request on a connection.

use vstd::prelude::*;

use crate::codec::{
    decode_record, decode_string_body, encode_record_model, esc_str, has_bytes_at,
    lemma_bytes_at_index, lemma_bytes_at_split, lemma_parse_record_complete,
    lemma_parse_string_complete, match_record_suffix, parse_quoted, parse_record_model,
    push_quoted, quoted, record_suffix, set_prefix,
};
use crate::record::{Record, RecordModel};

verus! {

/// One request of the wire protocol. The upsert is written with the tag
/// `Set` on the wire, as in the log.
#[derive(Debug)]
pub enum Request {
    Get { key: String },
    Put { key: String, value: String },
    Remove { key: String },
}

/// The mathematical shape of a [`Request`].
pub enum RequestModel {
    Get { key: Seq<char> },
    Put { key: Seq<char>, value: Seq<char> },
    Remove { key: Seq<char> },
}

impl View for Request {
    type V = RequestModel;

    open spec fn view(&self) -> RequestModel {
        match self {
            Request::Get { key } => RequestModel::Get { key: key@ },
            Request::Put { key, value } => RequestModel::Put { key: key@, value: value@ },
            Request::Remove { key } => RequestModel::Remove { key: key@ },
        }
    }
}

/// The response to a `Get`: the optional value, or an error description.
/// On the wire the variants carry the tags `Ok` and `Err`.
#[derive(Debug)]
pub enum GetResponse {
    Done(Option<String>),
    Failed(String),
}

/// The mathematical shape of a [`GetResponse`].
pub enum GetResponseModel {
    Done(Option<Seq<char>>),
    Failed(Seq<char>),
}

impl View for GetResponse {
    type V = GetResponseModel;

    open spec fn view(&self) -> GetResponseModel {
        match self {
            GetResponse::Done(ov) => GetResponseModel::Done(
                match ov {
                    Some(v) => Some(v@),
                    None => None,
                },
            ),
            GetResponse::Failed(m) => GetResponseModel::Failed(m@),
        }
    }
}

/// The response to a `Set`. On the wire the variants carry the tags `Ok`
/// (with a `null` payload) and `Err`.
#[derive(Debug)]
pub enum SetResponse {
    Done,
    Failed(String),
}

/// The mathematical shape of a [`SetResponse`].
pub enum SetResponseModel {
    Done,
    Failed(Seq<char>),
}

impl View for SetResponse {
    type V = SetResponseModel;

    open spec fn view(&self) -> SetResponseModel {
        match self {
            SetResponse::Done => SetResponseModel::Done,
            SetResponse::Failed(m) => SetResponseModel::Failed(m@),
        }
    }
}

/// The response to a `Remove`, shaped like a [`SetResponse`].
#[derive(Debug)]
pub enum RemoveResponse {
    Done,
    Failed(String),
}

/// The mathematical shape of a [`RemoveResponse`].
pub enum RemoveResponseModel {
    Done,
    Failed(Seq<char>),
}

impl View for RemoveResponse {
    type V = RemoveResponseModel;

    open spec fn view(&self) -> RemoveResponseModel {
        match self {
            RemoveResponse::Done => RemoveResponseModel::Done,
            RemoveResponse::Failed(m) => RemoveResponseModel::Failed(m@),
        }
    }
}

// ---------------------------------------------------------------------------
// Encodings
// ---------------------------------------------------------------------------

/// The bytes of `{"Get":{"key":`.
pub open spec fn get_prefix() -> Seq<u8> {
    seq![123u8, 34u8, 71u8, 101u8, 116u8, 34u8, 58u8, 123u8, 34u8, 107u8, 101u8, 121u8, 34u8, 58u8]
}

/// The bytes of `{"Ok":`.
pub open spec fn ok_prefix() -> Seq<u8> {
    seq![123u8, 34u8, 79u8, 107u8, 34u8, 58u8]
}

/// The bytes of `{"Err":`.
pub open spec fn err_prefix() -> Seq<u8> {
    seq![123u8, 34u8, 69u8, 114u8, 114u8, 34u8, 58u8]
}

/// The bytes of `null}`.
pub open spec fn null_end() -> Seq<u8> {
    seq![110u8, 117u8, 108u8, 108u8, 125u8]
}

/// The canonical encoding of a request.
pub open spec fn encode_request_model(r: RequestModel) -> Seq<u8> {
    match r {
        RequestModel::Get { key } => get_prefix() + quoted(key) + record_suffix(),
        RequestModel::Put { key, value } => encode_record_model(
            RecordModel::Put { key, value },
        ),
        RequestModel::Remove { key } => encode_record_model(RecordModel::Remove { key }),
    }
}

/// The canonical encoding of a `Get` response.
pub open spec fn encode_get_response_model(r: GetResponseModel) -> Seq<u8> {
    match r {
        GetResponseModel::Done(ov) => match ov {
            Some(v) => ok_prefix() + quoted(v) + seq![125u8],
            None => ok_prefix() + null_end(),
        },
        GetResponseModel::Failed(m) => err_prefix() + quoted(m) + seq![125u8],
    }
}

/// The canonical encoding of a `Set` response.
pub open spec fn encode_set_response_model(r: SetResponseModel) -> Seq<u8> {
    match r {
        SetResponseModel::Done => ok_prefix() + null_end(),
        SetResponseModel::Failed(m) => err_prefix() + quoted(m) + seq![125u8],
    }
}

/// The canonical encoding of a `Remove` response.
pub open spec fn encode_remove_response_model(r: RemoveResponseModel) -> Seq<u8> {
    match r {
        RemoveResponseModel::Done => ok_prefix() + null_end(),
        RemoveResponseModel::Failed(m) => err_prefix() + quoted(m) + seq![125u8],
    }
}

// ---------------------------------------------------------------------------
// Parsers
// ---------------------------------------------------------------------------

/// One request read at `i`: the request and the position after its bytes.
pub open spec fn parse_request(d: Seq<u8>, i: int) -> Option<(RequestModel, int)> {
    if has_bytes_at(d, i, get_prefix()) {
        match parse_quoted(d, i + get_prefix().len()) {
            Some((k, j)) => if has_bytes_at(d, j, record_suffix()) {
                Some((RequestModel::Get { key: k }, j + 2))
            } else {
                None
            },
            None => None,
        }
    } else {
        match parse_record_model(d, i) {
            Some((rv, j)) => match rv {
                RecordModel::Put { key, value } => Some((RequestModel::Put { key, value }, j)),
                RecordModel::Remove { key } => Some((RequestModel::Remove { key }, j)),
            },
            None => None,
        }
    }
}

/// A quoted string then a closing brace, read at `i`.
pub open spec fn parse_quoted_close(d: Seq<u8>, i: int) -> Option<(Seq<char>, int)> {
    match parse_quoted(d, i) {
        Some((s, j)) => if j < d.len() && d[j] == 125 {
            Some((s, j + 1))
        } else {
            None
        },
        None => None,
    }
}

/// One `Get` response read at `i`.
pub open spec fn parse_get_response(d: Seq<u8>, i: int) -> Option<(GetResponseModel, int)> {
    if has_bytes_at(d, i, ok_prefix()) {
        let p = i + ok_prefix().len();
        if has_bytes_at(d, p, null_end()) {
            Some((GetResponseModel::Done(None), p + null_end().len()))
        } else {
            match parse_quoted_close(d, p) {
                Some((v, j)) => Some((GetResponseModel::Done(Some(v)), j)),
                None => None,
            }
        }
    } else if has_bytes_at(d, i, err_prefix()) {
        match parse_quoted_close(d, i + err_prefix().len()) {
            Some((m, j)) => Some((GetResponseModel::Failed(m), j)),
            None => None,
        }
    } else {
        None
    }
}

/// One `Set` response read at `i`.
pub open spec fn parse_set_response(d: Seq<u8>, i: int) -> Option<(SetResponseModel, int)> {
    if has_bytes_at(d, i, ok_prefix()) {
        let p = i + ok_prefix().len();
        if has_bytes_at(d, p, null_end()) {
            Some((SetResponseModel::Done, p + null_end().len()))
        } else {
            None
        }
    } else if has_bytes_at(d, i, err_prefix()) {
        match parse_quoted_close(d, i + err_prefix().len()) {
            Some((m, j)) => Some((SetResponseModel::Failed(m), j)),
            None => None,
        }
    } else {
        None
    }
}

/// One `Remove` response read at `i`.
pub open spec fn parse_remove_response(d: Seq<u8>, i: int) -> Option<(RemoveResponseModel, int)> {
    if has_bytes_at(d, i, ok_prefix()) {
        let p = i + ok_prefix().len();
        if has_bytes_at(d, p, null_end()) {
            Some((RemoveResponseModel::Done, p + null_end().len()))
        } else {
            None
        }
    } else if has_bytes_at(d, i, err_prefix()) {
        match parse_quoted_close(d, i + err_prefix().len()) {
            Some((m, j)) => Some((RemoveResponseModel::Failed(m), j)),
            None => None,
        }
    } else {
        None
    }
}

// ---------------------------------------------------------------------------
// Round trips
// ---------------------------------------------------------------------------

/// The encoding of a request reads back as exactly that request.
#[verifier::rlimit(60)]
#[verifier::spinoff_prover]
pub proof fn lemma_parse_request_complete(d: Seq<u8>, i: int, rm: RequestModel)
    requires
        0 <= i,
        has_bytes_at(d, i, encode_request_model(rm)),
    ensures
        parse_request(d, i) == Some((rm, i + encode_request_model(rm).len())),
{
    match rm {
        RequestModel::Get { key } => {
            let enc = encode_request_model(rm);
            assert(enc =~= get_prefix() + (quoted(key) + record_suffix()));
            lemma_bytes_at_split(d, i, get_prefix(), quoted(key) + record_suffix());
            let p = i + get_prefix().len();
            lemma_bytes_at_split(d, p, quoted(key), record_suffix());
            assert(quoted(key) =~= seq![34u8] + esc_str(key).push(34u8));
            lemma_bytes_at_split(d, p, seq![34u8], esc_str(key).push(34u8));
            assert(d[p] == d.subrange(p, p + 1)[0]);
            assert(d[p] == 34);
            lemma_parse_string_complete(d, p + 1, key);
            let j = p + 1 + esc_str(key).len() + 1;
            assert(parse_quoted(d, p) == Some((key, j)));
            assert(has_bytes_at(d, j, record_suffix()));
            assert(j + 2 == i + enc.len());
        },
        RequestModel::Put { key, value } => {
            let rv = RecordModel::Put { key, value };
            if has_bytes_at(d, i, get_prefix()) {
                lemma_bytes_at_index(d, i, get_prefix());
                assert(encode_record_model(rv) =~= set_prefix() + (quoted(key) + (quoted(
                    value,
                ) + record_suffix())));
                lemma_bytes_at_index(d, i, encode_record_model(rv));
                assert(d[i + 2] == get_prefix()[2]);
                assert(d[i + 2] == encode_record_model(rv)[2]);
                assert(encode_record_model(rv)[2] == set_prefix()[2]);
                assert(false);
            }
            lemma_parse_record_complete(d, i, rv);
        },
        RequestModel::Remove { key } => {
            let rv = RecordModel::Remove { key };
            if has_bytes_at(d, i, get_prefix()) {
                lemma_bytes_at_index(d, i, get_prefix());
                lemma_bytes_at_index(d, i, encode_record_model(rv));
                assert(d[i + 2] == get_prefix()[2]);
                assert(d[i + 2] == encode_record_model(rv)[2]);
                assert(false);
            }
            lemma_parse_record_complete(d, i, rv);
        },
    }
}

/// The encoding of a quoted payload and its closing brace reads back as
/// exactly that payload.
proof fn lemma_parse_quoted_close_complete(d: Seq<u8>, i: int, s: Seq<char>)
    requires
        0 <= i,
        has_bytes_at(d, i, quoted(s) + seq![125u8]),
    ensures
        parse_quoted_close(d, i) == Some((s, i + quoted(s).len() + 1)),
{
    lemma_bytes_at_split(d, i, quoted(s), seq![125u8]);
    assert(quoted(s) =~= seq![34u8] + esc_str(s).push(34u8));
    lemma_bytes_at_split(d, i, seq![34u8], esc_str(s).push(34u8));
    assert(d[i] == d.subrange(i, i + 1)[0]);
    assert(d[i] == 34);
    lemma_parse_string_complete(d, i + 1, s);
    let j = i + 1 + esc_str(s).len() + 1;
    assert(parse_quoted(d, i) == Some((s, j)));
    let q = i + quoted(s).len();
    assert(d[q] == d.subrange(q, q + 1)[0]);
    assert(d[q] == 125);
}

/// The encoding of a `Get` response reads back as exactly that response.
pub proof fn lemma_parse_get_response_complete(d: Seq<u8>, i: int, rm: GetResponseModel)
    requires
        0 <= i,
        has_bytes_at(d, i, encode_get_response_model(rm)),
    ensures
        parse_get_response(d, i) == Some((rm, i + encode_get_response_model(rm).len())),
{
    let enc = encode_get_response_model(rm);
    match rm {
        GetResponseModel::Done(ov) => {
            match ov {
                Some(v) => {
                    assert(enc =~= ok_prefix() + (quoted(v) + seq![125u8]));
                    lemma_bytes_at_split(d, i, ok_prefix(), quoted(v) + seq![125u8]);
                    let p = i + ok_prefix().len();
                    if has_bytes_at(d, p, null_end()) {
                        lemma_bytes_at_index(d, p, null_end());
                        lemma_bytes_at_split(d, p, quoted(v), seq![125u8]);
                        assert(d[p] == d.subrange(p, p + quoted(v).len())[0]);
                        assert(d[p] == 34 && d[p] == 110);
                        assert(false);
                    }
                    lemma_parse_quoted_close_complete(d, p, v);
                },
                None => {
                    lemma_bytes_at_split(d, i, ok_prefix(), null_end());
                },
            }
        },
        GetResponseModel::Failed(m) => {
            assert(enc =~= err_prefix() + (quoted(m) + seq![125u8]));
            lemma_bytes_at_split(d, i, err_prefix(), quoted(m) + seq![125u8]);
            if has_bytes_at(d, i, ok_prefix()) {
                lemma_bytes_at_index(d, i, ok_prefix());
                lemma_bytes_at_index(d, i, enc);
                assert(d[i + 2] == ok_prefix()[2]);
                assert(d[i + 2] == enc[2]);
                assert(enc[2] == err_prefix()[2]);
                assert(false);
            }
            lemma_parse_quoted_close_complete(d, i + err_prefix().len(), m);
        },
    }
}

/// The encoding of a `Set` response reads back as exactly that response.
pub proof fn lemma_parse_set_response_complete(d: Seq<u8>, i: int, rm: SetResponseModel)
    requires
        0 <= i,
        has_bytes_at(d, i, encode_set_response_model(rm)),
    ensures
        parse_set_response(d, i) == Some((rm, i + encode_set_response_model(rm).len())),
{
    let enc = encode_set_response_model(rm);
    match rm {
        SetResponseModel::Done => {
            lemma_bytes_at_split(d, i, ok_prefix(), null_end());
        },
        SetResponseModel::Failed(m) => {
            assert(enc =~= err_prefix() + (quoted(m) + seq![125u8]));
            lemma_bytes_at_split(d, i, err_prefix(), quoted(m) + seq![125u8]);
            if has_bytes_at(d, i, ok_prefix()) {
                lemma_bytes_at_index(d, i, ok_prefix());
                lemma_bytes_at_index(d, i, enc);
                assert(d[i + 2] == ok_prefix()[2]);
                assert(d[i + 2] == enc[2]);
                assert(enc[2] == err_prefix()[2]);
                assert(false);
            }
            lemma_parse_quoted_close_complete(d, i + err_prefix().len(), m);
        },
    }
}

/// The encoding of a `Remove` response reads back as exactly that response.
pub proof fn lemma_parse_remove_response_complete(d: Seq<u8>, i: int, rm: RemoveResponseModel)
    requires
        0 <= i,
        has_bytes_at(d, i, encode_remove_response_model(rm)),
    ensures
        parse_remove_response(d, i) == Some((rm, i + encode_remove_response_model(rm).len())),
{
    let enc = encode_remove_response_model(rm);
    match rm {
        RemoveResponseModel::Done => {
            lemma_bytes_at_split(d, i, ok_prefix(), null_end());
        },
        RemoveResponseModel::Failed(m) => {
            assert(enc =~= err_prefix() + (quoted(m) + seq![125u8]));
            lemma_bytes_at_split(d, i, err_prefix(), quoted(m) + seq![125u8]);
            if has_bytes_at(d, i, ok_prefix()) {
                lemma_bytes_at_index(d, i, ok_prefix());
                lemma_bytes_at_index(d, i, enc);
                assert(d[i + 2] == ok_prefix()[2]);
                assert(d[i + 2] == enc[2]);
                assert(enc[2] == err_prefix()[2]);
                assert(false);
            }
            lemma_parse_quoted_close_complete(d, i + err_prefix().len(), m);
        },
    }
}

// ---------------------------------------------------------------------------
// Executable encoders
// ---------------------------------------------------------------------------

fn push_get_prefix(out: &mut Vec<u8>)
    ensures
        final(out)@ == old(out)@ + get_prefix(),
{
    out.push(123);
    out.push(34);
    out.push(71);
    out.push(101);
    out.push(116);
    out.push(34);
    out.push(58);
    out.push(123);
    out.push(34);
    out.push(107);
    out.push(101);
    out.push(121);
    out.push(34);
    out.push(58);
    assert(final(out)@ =~= old(out)@ + get_prefix());
}

fn push_ok_prefix(out: &mut Vec<u8>)
    ensures
        final(out)@ == old(out)@ + ok_prefix(),
{
    out.push(123);
    out.push(34);
    out.push(79);
    out.push(107);
    out.push(34);
    out.push(58);
    assert(final(out)@ =~= old(out)@ + ok_prefix());
}

fn push_err_prefix(out: &mut Vec<u8>)
    ensures
        final(out)@ == old(out)@ + err_prefix(),
{
    out.push(123);
    out.push(34);
    out.push(69);
    out.push(114);
    out.push(114);
    out.push(34);
    out.push(58);
    assert(final(out)@ =~= old(out)@ + err_prefix());
}

fn push_null_end(out: &mut Vec<u8>)
    ensures
        final(out)@ == old(out)@ + null_end(),
{
    out.push(110);
    out.push(117);
    out.push(108);
    out.push(108);
    out.push(125);
    assert(final(out)@ =~= old(out)@ + null_end());
}

/// Serialize one request into its canonical byte encoding.
pub fn encode_request(req: &Request) -> (out: Vec<u8>)
    ensures
        out@ == encode_request_model(req@),
{
    match req {
        Request::Get { key } => {
            let mut out: Vec<u8> = Vec::new();
            push_get_prefix(&mut out);
            push_quoted(&mut out, key.as_str());
            out.push(125);
            out.push(125);
            assert(out@ =~= encode_request_model(req@));
            out
        },
        Request::Put { key, value } => {
            let rec = Record::Put { key: key.clone(), value: value.clone() };
            crate::codec::encode_record(&rec)
        },
        Request::Remove { key } => {
            let rec = Record::Remove { key: key.clone() };
            crate::codec::encode_record(&rec)
        },
    }
}

/// Serialize one `Get` response.
pub fn encode_get_response(resp: &GetResponse) -> (out: Vec<u8>)
    ensures
        out@ == encode_get_response_model(resp@),
{
    let mut out: Vec<u8> = Vec::new();
    match resp {
        GetResponse::Done(ov) => {
            push_ok_prefix(&mut out);
            match ov {
                Some(v) => {
                    push_quoted(&mut out, v.as_str());
                    out.push(125);
                },
                None => {
                    push_null_end(&mut out);
                },
            }
        },
        GetResponse::Failed(m) => {
            push_err_prefix(&mut out);
            push_quoted(&mut out, m.as_str());
            out.push(125);
        },
    }
    assert(out@ =~= encode_get_response_model(resp@));
    out
}

/// Serialize one `Set` response.
pub fn encode_set_response(resp: &SetResponse) -> (out: Vec<u8>)
    ensures
        out@ == encode_set_response_model(resp@),
{
    let mut out: Vec<u8> = Vec::new();
    match resp {
        SetResponse::Done => {
            push_ok_prefix(&mut out);
            push_null_end(&mut out);
        },
        SetResponse::Failed(m) => {
            push_err_prefix(&mut out);
            push_quoted(&mut out, m.as_str());
            out.push(125);
        },
    }
    assert(out@ =~= encode_set_response_model(resp@));
    out
}

/// Serialize one `Remove` response.
pub fn encode_remove_response(resp: &RemoveResponse) -> (out: Vec<u8>)
    ensures
        out@ == encode_remove_response_model(resp@),
{
    let mut out: Vec<u8> = Vec::new();
    match resp {
        RemoveResponse::Done => {
            push_ok_prefix(&mut out);
            push_null_end(&mut out);
        },
        RemoveResponse::Failed(m) => {
            push_err_prefix(&mut out);
            push_quoted(&mut out, m.as_str());
            out.push(125);
        },
    }
    assert(out@ =~= encode_remove_response_model(resp@));
    out
}

// ---------------------------------------------------------------------------
// Executable decoders
// ---------------------------------------------------------------------------

fn match_get_prefix(d: &Vec<u8>, i: usize) -> (b: bool)
    ensures
        b == has_bytes_at(d@, i as int, get_prefix()),
{
    if d.len() < 14 || i > d.len() - 14 {
        return false;
    }
    let r = d[i] == 123 && d[i + 1] == 34 && d[i + 2] == 71 && d[i + 3] == 101 && d[i + 4] == 116
        && d[i + 5] == 34 && d[i + 6] == 58 && d[i + 7] == 123 && d[i + 8] == 34 && d[i + 9] == 107
        && d[i + 10] == 101 && d[i + 11] == 121 && d[i + 12] == 34 && d[i + 13] == 58;
    proof {
        if r {
            assert(d@.subrange(i as int, i as int + 14) =~= get_prefix());
        } else {
            if has_bytes_at(d@, i as int, get_prefix()) {
                lemma_bytes_at_index(d@, i as int, get_prefix());
                assert(forall|k: int| 0 <= k < 14 ==> d@[i as int + k] == #[trigger] get_prefix()[k]);
                assert(false);
            }
        }
    }
    r
}

fn match_ok_prefix(d: &Vec<u8>, i: usize) -> (b: bool)
    ensures
        b == has_bytes_at(d@, i as int, ok_prefix()),
{
    if d.len() < 6 || i > d.len() - 6 {
        return false;
    }
    let r = d[i] == 123 && d[i + 1] == 34 && d[i + 2] == 79 && d[i + 3] == 107 && d[i + 4] == 34
        && d[i + 5] == 58;
    proof {
        if r {
            assert(d@.subrange(i as int, i as int + 6) =~= ok_prefix());
        } else {
            if has_bytes_at(d@, i as int, ok_prefix()) {
                lemma_bytes_at_index(d@, i as int, ok_prefix());
                assert(forall|k: int| 0 <= k < 6 ==> d@[i as int + k] == #[trigger] ok_prefix()[k]);
                assert(false);
            }
        }
    }
    r
}

fn match_err_prefix(d: &Vec<u8>, i: usize) -> (b: bool)
    ensures
        b == has_bytes_at(d@, i as int, err_prefix()),
{
    if d.len() < 7 || i > d.len() - 7 {
        return false;
    }
    let r = d[i] == 123 && d[i + 1] == 34 && d[i + 2] == 69 && d[i + 3] == 114 && d[i + 4] == 114
        && d[i + 5] == 34 && d[i + 6] == 58;
    proof {
        if r {
            assert(d@.subrange(i as int, i as int + 7) =~= err_prefix());
        } else {
            if has_bytes_at(d@, i as int, err_prefix()) {
                lemma_bytes_at_index(d@, i as int, err_prefix());
                assert(forall|k: int| 0 <= k < 7 ==> d@[i as int + k] == #[trigger] err_prefix()[k]);
                assert(false);
            }
        }
    }
    r
}

fn match_null_end(d: &Vec<u8>, i: usize) -> (b: bool)
    ensures
        b == has_bytes_at(d@, i as int, null_end()),
{
    if d.len() < 5 || i > d.len() - 5 {
        return false;
    }
    let r = d[i] == 110 && d[i + 1] == 117 && d[i + 2] == 108 && d[i + 3] == 108 && d[i + 4]
        == 125;
    proof {
        if r {
            assert(d@.subrange(i as int, i as int + 5) =~= null_end());
        } else {
            if has_bytes_at(d@, i as int, null_end()) {
                lemma_bytes_at_index(d@, i as int, null_end());
                assert(forall|k: int| 0 <= k < 5 ==> d@[i as int + k] == #[trigger] null_end()[k]);
                assert(false);
            }
        }
    }
    r
}

/// Decode a quoted payload and its closing brace at `start`.
fn decode_quoted_close(d: &Vec<u8>, start: usize) -> (r: Option<(String, usize)>)
    ensures
        match r {
            Some((s, e)) => parse_quoted_close(d@, start as int) == Some((s@, e as int)) && start
                < e <= d.len(),
            None => parse_quoted_close(d@, start as int) is None,
        },
{
    if start >= d.len() || d[start] != 34 {
        return None;
    }
    match decode_string_body(d, start + 1) {
        Some((s, j)) => {
            if j < d.len() && d[j] == 125 {
                Some((s, j + 1))
            } else {
                None
            }
        },
        None => None,
    }
}

/// Decode one complete request at `start`; `None` when no complete
/// canonical request stands there, which ends the connection.
pub fn decode_request(d: &Vec<u8>, start: usize) -> (r: Option<(Request, usize)>)
    ensures
        match r {
            Some((req, next)) => parse_request(d@, start as int) == Some((req@, next as int))
                && start < next <= d.len(),
            None => parse_request(d@, start as int) is None,
        },
{
    if match_get_prefix(d, start) {
        proof {
            assert(get_prefix().len() == 14);
            assert(start + 14 <= d.len());
        }
        let p = start + 14;
        if p < d.len() && d[p] == 34 {
            match decode_string_body(d, p + 1) {
                Some((key, j)) => {
                    if match_record_suffix(d, j) {
                        proof {
                            assert(record_suffix().len() == 2);
                            assert(j + 2 <= d.len());
                        }
                        Some((Request::Get { key }, j + 2))
                    } else {
                        None
                    }
                },
                None => None,
            }
        } else {
            None
        }
    } else {
        match decode_record(d, start) {
            Some((rec, next)) => match rec {
                Record::Put { key, value } => Some((Request::Put { key, value }, next)),
                Record::Remove { key } => Some((Request::Remove { key }, next)),
            },
            None => None,
        }
    }
}

/// Decode one complete `Get` response at `start`.
pub fn decode_get_response(d: &Vec<u8>, start: usize) -> (r: Option<(GetResponse, usize)>)
    ensures
        match r {
            Some((resp, next)) => parse_get_response(d@, start as int) == Some(
                (resp@, next as int),
            ) && start < next <= d.len(),
            None => parse_get_response(d@, start as int) is None,
        },
{
    if match_ok_prefix(d, start) {
        proof {
            assert(ok_prefix().len() == 6);
            assert(start + 6 <= d.len());
        }
        let p = start + 6;
        if match_null_end(d, p) {
            proof {
                assert(null_end().len() == 5);
                assert(p + 5 <= d.len());
            }
            Some((GetResponse::Done(None), p + 5))
        } else {
            match decode_quoted_close(d, p) {
                Some((v, j)) => Some((GetResponse::Done(Some(v)), j)),
                None => None,
            }
        }
    } else if match_err_prefix(d, start) {
        proof {
            assert(err_prefix().len() == 7);
            assert(start + 7 <= d.len());
        }
        match decode_quoted_close(d, start + 7) {
            Some((m, j)) => Some((GetResponse::Failed(m), j)),
            None => None,
        }
    } else {
        None
    }
}

/// Decode one complete `Set` response at `start`.
pub fn decode_set_response(d: &Vec<u8>, start: usize) -> (r: Option<(SetResponse, usize)>)
    ensures
        match r {
            Some((resp, next)) => parse_set_response(d@, start as int) == Some(
                (resp@, next as int),
            ) && start < next <= d.len(),
            None => parse_set_response(d@, start as int) is None,
        },
{
    if match_ok_prefix(d, start) {
        proof {
            assert(ok_prefix().len() == 6);
            assert(start + 6 <= d.len());
        }
        let p = start + 6;
        if match_null_end(d, p) {
            proof {
                assert(null_end().len() == 5);
                assert(p + 5 <= d.len());
            }
            Some((SetResponse::Done, p + 5))
        } else {
            None
        }
    } else if match_err_prefix(d, start) {
        proof {
            assert(err_prefix().len() == 7);
            assert(start + 7 <= d.len());
        }
        match decode_quoted_close(d, start + 7) {
            Some((m, j)) => Some((SetResponse::Failed(m), j)),
            None => None,
        }
    } else {
        None
    }
}

/// Decode one complete `Remove` response at `start`.
pub fn decode_remove_response(d: &Vec<u8>, start: usize) -> (r: Option<(RemoveResponse, usize)>)
    ensures
        match r {
            Some((resp, next)) => parse_remove_response(d@, start as int) == Some(
                (resp@, next as int),
            ) && start < next <= d.len(),
            None => parse_remove_response(d@, start as int) is None,
        },
{
    if match_ok_prefix(d, start) {
        proof {
            assert(ok_prefix().len() == 6);
            assert(start + 6 <= d.len());
        }
        let p = start + 6;
        if match_null_end(d, p) {
            proof {
                assert(null_end().len() == 5);
                assert(p + 5 <= d.len());
            }
            Some((RemoveResponse::Done, p + 5))
        } else {
            None
        }
    } else if match_err_prefix(d, start) {
        proof {
            assert(err_prefix().len() == 7);
            assert(start + 7 <= d.len());
        }
        match decode_quoted_close(d, start + 7) {
            Some((m, j)) => Some((RemoveResponse::Failed(m), j)),
            None => None,
        }
    } else {
        None
    }
}

} // verus!
