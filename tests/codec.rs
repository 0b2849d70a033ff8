use kvs::{decode_all, decode_cmd, encode_cmd, Cmd};

fn put(k: &str, v: &str) -> Cmd {
    Cmd::Put { key: k.to_owned(), value: v.to_owned() }
}

fn rm(k: &str) -> Cmd {
    Cmd::Remove { key: k.to_owned() }
}

#[test]
fn put_record_text() {
    assert_eq!(encode_cmd(&put("a", "1")), br#"{"Set":{"key":"a","value":"1"}}"#.to_vec());
}

#[test]
fn remove_record_text() {
    assert_eq!(encode_cmd(&rm("a")), br#"{"Remove":{"key":"a"}}"#.to_vec());
}

#[test]
fn escapes_in_record_text() {
    let bytes = encode_cmd(&put("q\"uote", "line\nbreak\\"));
    assert_eq!(bytes, br#"{"Set":{"key":"q\"uote","value":"line\nbreak\\"}}"#.to_vec());
}

#[test]
fn record_round_trips() {
    for c in [put("k", "v"), put("", ""), put("ключ", "значение ✓"), rm("k"), rm("\u{1}\t\"")] {
        let bytes = encode_cmd(&c);
        let (back, end) = decode_cmd(&bytes, 0).expect("decodes");
        assert_eq!(back, c);
        assert_eq!(end, bytes.len());
    }
}

#[test]
fn record_reads_back_whatever_follows() {
    let mut bytes = encode_cmd(&put("a", "1"));
    let len = bytes.len();
    bytes.extend_from_slice(b"garbage");
    assert_eq!(decode_cmd(&bytes, 0), Some((put("a", "1"), len)));
}

#[test]
fn concatenated_records_round_trip() {
    let cmds = vec![put("a", "1"), put("b", "2"), rm("a"), put("a", "3")];
    let mut bytes = Vec::new();
    let mut ends = Vec::new();
    for c in &cmds {
        bytes.extend(encode_cmd(c));
        ends.push(bytes.len());
    }
    let back = decode_all(&bytes).expect("decodes");
    assert_eq!(back.iter().map(|(c, _)| c.clone()).collect::<Vec<_>>(), cmds);
    assert_eq!(back.iter().map(|(_, e)| *e).collect::<Vec<_>>(), ends);
}

#[test]
fn empty_log_has_no_records() {
    assert_eq!(decode_all(b""), Some(vec![]));
}

#[test]
fn truncated_record_is_refused() {
    let mut bytes = encode_cmd(&put("a", "1"));
    bytes.extend(encode_cmd(&put("b", "2")));
    bytes.pop();
    assert_eq!(decode_all(&bytes), None);
    assert_eq!(decode_cmd(b"{\"Set\":{\"key\":\"a\"", 0), None);
}

#[test]
fn garbage_is_no_record() {
    assert_eq!(decode_cmd(b"hello", 0), None);
    assert_eq!(decode_cmd(br#"{"Get":{"key":"a"}}"#, 0), None);
}

#[test]
fn decode_at_offset() {
    let mut bytes = encode_cmd(&rm("x"));
    let start = bytes.len();
    bytes.extend(encode_cmd(&put("y", "z")));
    assert_eq!(decode_cmd(&bytes, start), Some((put("y", "z"), bytes.len())));
}
