//! The wire protocol and the dispatch server, end to end in memory.

use kvs::client::{interpret_get_response, interpret_remove_response, interpret_set_response};
use kvs::codec::{decode_record, encode_record};
use kvs::protocol::{
    decode_get_response, decode_remove_response, decode_set_response, encode_request, GetResponse,
    RemoveResponse, Request, SetResponse,
};
use kvs::{KvStore, MyError, Record, Server};

#[test]
fn record_encoding_is_the_tagged_object() {
    let rec = Record::Put {
        key: "a".to_string(),
        value: "b".to_string(),
    };
    assert_eq!(encode_record(&rec), b"{\"Set\":{\"key\":\"a\",\"value\":\"b\"}}".to_vec());
    let rec = Record::Remove { key: "a".to_string() };
    assert_eq!(encode_record(&rec), b"{\"Remove\":{\"key\":\"a\"}}".to_vec());
}

#[test]
fn record_escaping_is_ascii_hex() {
    let rec = Record::Put {
        key: "k".to_string(),
        value: "é".to_string(),
    };
    assert_eq!(
        encode_record(&rec),
        b"{\"Set\":{\"key\":\"k\",\"value\":\"\\u00e9\"}}".to_vec()
    );
    let rec = Record::Put {
        key: "q\"b\\".to_string(),
        value: "\u{1F600}".to_string(),
    };
    // quote and backslash take a backslash escape; a character beyond the
    // basic plane takes a surrogate pair
    assert_eq!(
        encode_record(&rec),
        b"{\"Set\":{\"key\":\"q\\\"b\\\\\",\"value\":\"\\ud83d\\ude00\"}}".to_vec()
    );
}

#[test]
fn record_decode_round_trip() {
    let cases = [
        ("", ""),
        ("plain", "text"),
        ("höher", "tièf"),
        ("日本語", "\u{1F680}"),
        ("a\"b", "c\\d\ne"),
    ];
    let mut bytes: Vec<u8> = Vec::new();
    for (k, v) in cases.iter() {
        bytes.extend(encode_record(&Record::Put {
            key: k.to_string(),
            value: v.to_string(),
        }));
    }
    let mut pos = 0;
    for (k, v) in cases.iter() {
        let (rec, next) = decode_record(&bytes, pos).unwrap();
        match rec {
            Record::Put { key, value } => {
                assert_eq!(key, k.to_string());
                assert_eq!(value, v.to_string());
            }
            Record::Remove { .. } => panic!("decoded the wrong record kind"),
        }
        pos = next;
    }
    assert_eq!(pos, bytes.len());
}

#[test]
fn decoder_rejects_incomplete_and_foreign_bytes() {
    let bytes = b"{\"Set\":{\"key\":\"a\",\"val".to_vec();
    assert!(decode_record(&bytes, 0).is_none());
    let bytes = b"hello world".to_vec();
    assert!(decode_record(&bytes, 0).is_none());
    let bytes: Vec<u8> = vec![0xff, 0xfe, 0x00];
    assert!(decode_record(&bytes, 0).is_none());
}

#[test]
fn request_encoding_matches_the_schema() {
    let req = Request::Get { key: "foo".to_string() };
    assert_eq!(encode_request(&req), b"{\"Get\":{\"key\":\"foo\"}}".to_vec());
    let req = Request::Put {
        key: "foo".to_string(),
        value: "bar".to_string(),
    };
    assert_eq!(
        encode_request(&req),
        b"{\"Set\":{\"key\":\"foo\",\"value\":\"bar\"}}".to_vec()
    );
}

#[test]
fn protocol_round_trip_over_dispatch() {
    let store = KvStore::open(Vec::new());
    let mut server = Server::new(store);

    // the client sends Set("foo", "bar") and one response comes back
    let wire = encode_request(&Request::Put {
        key: "foo".to_string(),
        value: "bar".to_string(),
    });
    let (reply, consumed) = server.handle_request_bytes(&wire, 0).unwrap();
    assert_eq!(consumed, wire.len());
    let (resp, used) = decode_set_response(&reply, 0).unwrap();
    assert_eq!(used, reply.len());
    assert!(matches!(resp, SetResponse::Done));
    interpret_set_response(resp).unwrap();

    // then Get("foo") answers "bar"
    let wire = encode_request(&Request::Get { key: "foo".to_string() });
    let (reply, _) = server.handle_request_bytes(&wire, 0).unwrap();
    let (resp, _) = decode_get_response(&reply, 0).unwrap();
    let value = interpret_get_response(resp).unwrap();
    assert_eq!(value, Some("bar".to_string()));
}

#[test]
fn remove_missing_is_an_error_response_and_connection_survives() {
    let store = KvStore::open(Vec::new());
    let mut server = Server::new(store);
    server
        .handle_request_bytes(
            &encode_request(&Request::Put {
                key: "foo".to_string(),
                value: "bar".to_string(),
            }),
            0,
        )
        .unwrap();

    let wire = encode_request(&Request::Remove { key: "missing".to_string() });
    let (reply, _) = server.handle_request_bytes(&wire, 0).unwrap();
    assert_eq!(reply, b"{\"Err\":\"Key not found\"}".to_vec());
    let (resp, _) = decode_remove_response(&reply, 0).unwrap();
    assert!(matches!(resp, RemoveResponse::Failed(_)));
    let err = interpret_remove_response(resp).unwrap_err();
    match err {
        MyError::StringError(m) => assert_eq!(m, "Key not found".to_string()),
        _ => panic!("the server's error arrives as its description"),
    }

    // the same connection still serves requests
    let wire = encode_request(&Request::Get { key: "foo".to_string() });
    let (reply, _) = server.handle_request_bytes(&wire, 0).unwrap();
    let (resp, _) = decode_get_response(&reply, 0).unwrap();
    assert_eq!(interpret_get_response(resp).unwrap(), Some("bar".to_string()));
}

#[test]
fn pipelined_requests_decode_one_by_one() {
    // two requests back to back on the buffer: the server consumes exactly
    // one at a time
    let store = KvStore::open(Vec::new());
    let mut server = Server::new(store);
    let mut wire = encode_request(&Request::Put {
        key: "a".to_string(),
        value: "1".to_string(),
    });
    let first_len = wire.len();
    wire.extend(encode_request(&Request::Get { key: "a".to_string() }));

    let (_, consumed) = server.handle_request_bytes(&wire, 0).unwrap();
    assert_eq!(consumed, first_len);
    let (reply, consumed) = server.handle_request_bytes(&wire, consumed).unwrap();
    assert_eq!(consumed, wire.len());
    let (resp, _) = decode_get_response(&reply, 0).unwrap();
    assert_eq!(interpret_get_response(resp).unwrap(), Some("1".to_string()));
}

#[test]
fn undecodable_request_ends_the_connection() {
    let store = KvStore::open(Vec::new());
    let mut server = Server::new(store);
    let wire = b"{\"Nonsense\":1}".to_vec();
    assert!(server.handle_request_bytes(&wire, 0).is_none());
}

#[test]
fn get_responses_encode_both_ways() {
    let resp = GetResponse::Done(Some("bar".to_string()));
    let bytes = kvs::protocol::encode_get_response(&resp);
    assert_eq!(bytes, b"{\"Ok\":\"bar\"}".to_vec());
    let (back, used) = decode_get_response(&bytes, 0).unwrap();
    assert_eq!(used, bytes.len());
    assert!(matches!(back, GetResponse::Done(Some(v)) if v == "bar"));

    let resp = GetResponse::Done(None);
    let bytes = kvs::protocol::encode_get_response(&resp);
    assert_eq!(bytes, b"{\"Ok\":null}".to_vec());
    let (back, _) = decode_get_response(&bytes, 0).unwrap();
    assert!(matches!(back, GetResponse::Done(None)));
}
