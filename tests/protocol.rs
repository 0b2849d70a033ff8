use kvs::{
    decode_get_resp, decode_remove_resp, decode_request, decode_set_resp, encode_get_resp,
    encode_remove_resp, encode_request, encode_set_resp, get_reply, remove_reply, set_reply, Engine,
    request_may_follow, GetResp, KvsError, RemoveResp, Request, Server, SetResp,
};
use std::collections::HashMap;
use std::sync::{Arc, Mutex};

#[test]
fn request_frames() {
    assert_eq!(encode_request(&Request::Get { key: "a".into() }), br#"{"Get":{"key":"a"}}"#.to_vec());
    assert_eq!(
        encode_request(&Request::Put { key: "a".into(), value: "b".into() }),
        br#"{"Set":{"key":"a","value":"b"}}"#.to_vec()
    );
    assert_eq!(encode_request(&Request::Remove { key: "a".into() }), br#"{"Remove":{"key":"a"}}"#.to_vec());
}

#[test]
fn request_stream_round_trips() {
    let reqs = vec![
        Request::Put { key: "k".into(), value: "v".into() },
        Request::Get { key: "k".into() },
        Request::Remove { key: "k".into() },
    ];
    let mut bytes = Vec::new();
    for r in &reqs {
        bytes.extend(encode_request(r));
    }
    let mut pos = 0;
    let mut back = Vec::new();
    while pos < bytes.len() {
        let (r, end) = decode_request(&bytes, pos).expect("a request");
        back.push(format!("{:?}", r));
        pos = end;
    }
    assert_eq!(back, reqs.iter().map(|r| format!("{:?}", r)).collect::<Vec<_>>());
}

#[test]
fn partial_request_is_not_decoded() {
    let bytes = encode_request(&Request::Get { key: "abc".into() });
    assert!(decode_request(&bytes[..bytes.len() - 1], 0).is_none());
}

#[test]
fn reply_frames() {
    assert_eq!(encode_get_resp(&GetResp::Value(Some("v".into()))), br#"{"Ok":"v"}"#.to_vec());
    assert_eq!(encode_get_resp(&GetResp::Value(None)), br#"{"Ok":null}"#.to_vec());
    assert_eq!(encode_get_resp(&GetResp::Failure("bad".into())), br#"{"Err":"bad"}"#.to_vec());
    assert_eq!(encode_set_resp(&SetResp::Done), br#"{"Ok":null}"#.to_vec());
    assert_eq!(encode_remove_resp(&RemoveResp::Failure("e".into())), br#"{"Err":"e"}"#.to_vec());
}

#[test]
fn replies_decode() {
    assert!(matches!(decode_get_resp(br#"{"Ok":"v"}"#, 0), Some((GetResp::Value(Some(v)), 10)) if v == "v"));
    assert!(matches!(decode_get_resp(br#"{"Ok":null}"#, 0), Some((GetResp::Value(None), 11))));
    assert!(matches!(decode_set_resp(br#"{"Ok":null}"#, 0), Some((SetResp::Done, 11))));
    assert!(matches!(decode_set_resp(br#"{"Ok":"v"}"#, 0), None));
    assert!(matches!(decode_remove_resp(br#"{"Err":"key is not found in KvStore"}"#, 0),
        Some((RemoveResp::Failure(m), _)) if m == "key is not found in KvStore"));
}

#[test]
fn engine_errors_become_messages() {
    assert!(matches!(get_reply(Err(KvsError::CommandNotSupported)), GetResp::Failure(m) if m == "command is not supported"));
    assert!(matches!(set_reply(Err(KvsError::IoErr("disk full".into()))), SetResp::Failure(m) if m == "disk full"));
    assert!(matches!(remove_reply(Err(KvsError::KeyNotFound)), RemoveResp::Failure(m) if m == "key is not found in KvStore"));
    assert!(matches!(remove_reply(Ok(())), RemoveResp::Done));
    assert!(matches!(get_reply(Ok(Some("x".into()))), GetResp::Value(Some(v)) if v == "x"));
}

#[derive(Clone, Default)]
struct MapEngine(Arc<Mutex<HashMap<String, String>>>);

impl Engine for MapEngine {
    fn set(&self, key: String, value: String) -> Result<(), KvsError> {
        self.0.lock().unwrap().insert(key, value);
        Ok(())
    }
    fn get(&self, key: String) -> Result<Option<String>, KvsError> {
        Ok(self.0.lock().unwrap().get(&key).cloned())
    }
    fn remove(&self, key: String) -> Result<(), KvsError> {
        self.0.lock().unwrap().remove(&key).map(|_| ()).ok_or(KvsError::KeyNotFound)
    }
}

#[test]
fn server_answers_requests_in_order() {
    let server = Server::new(MapEngine::default());
    let put = server.handle_request(Request::Put { key: "a".into(), value: "1".into() });
    assert_eq!(put, br#"{"Ok":null}"#.to_vec());
    let got = server.handle_request(Request::Get { key: "a".into() });
    assert_eq!(got, br#"{"Ok":"1"}"#.to_vec());
    let removed = server.handle_request(Request::Remove { key: "a".into() });
    assert_eq!(removed, br#"{"Ok":null}"#.to_vec());
    let again = server.handle_request(Request::Remove { key: "a".into() });
    assert_eq!(again, br#"{"Err":"key is not found in KvStore"}"#.to_vec());
    let missing = server.handle_request(Request::Get { key: "a".into() });
    assert_eq!(missing, br#"{"Ok":null}"#.to_vec());
}

#[test]
fn replies_round_trip() {
    for r in [
        GetResp::Value(Some("null}".into())),
        GetResp::Value(Some("".into())),
        GetResp::Value(None),
        GetResp::Failure("line\nbreak \"q\"".into()),
    ] {
        let bytes = encode_get_resp(&r);
        let (back, end) = decode_get_resp(&bytes, 0).expect("a reply");
        assert_eq!(format!("{:?}", back), format!("{:?}", r));
        assert_eq!(end, bytes.len());
    }
    let bytes = encode_set_resp(&SetResp::Failure("x".into()));
    assert!(matches!(decode_set_resp(&bytes, 0), Some((SetResp::Failure(m), 11)) if m == "x"));
    let bytes = encode_remove_resp(&RemoveResp::Done);
    assert!(matches!(decode_remove_resp(&bytes, 0), Some((RemoveResp::Done, 11))));
}

#[test]
fn malformed_requests_are_told_from_partial_ones() {
    let bytes = encode_request(&Request::Put { key: "a".into(), value: "b".into() });
    assert!(request_may_follow(&bytes[..5], 0));
    assert!(request_may_follow(b"", 0));
    assert!(request_may_follow(br#"{"Rem"#, 0));
    assert!(!request_may_follow(b"hello", 0));
    assert!(!request_may_follow(br#"{"Got"#, 0));
    assert!(!request_may_follow(br#"xx{"Get":{"key":"a"}}"#, 0));
    assert!(request_may_follow(br#"xx{"Get":{"key":"a"}}"#, 2));
}
