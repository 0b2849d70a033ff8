//! JSON string literals, written and read by serde_json.
use vstd::prelude::*;

verus! {

/// The bytes of the JSON string literal that serde_json writes for `s`.
pub uninterp spec fn json_text(s: Seq<char>) -> Seq<u8>;

/// What serde_json's stream reader takes from the start of `b` when it expects one
/// string: the string and the number of bytes consumed, or `None` when `b` does not
/// start with a JSON string literal.
pub uninterp spec fn json_string_prefix(b: Seq<u8>) -> Option<(Seq<char>, nat)>;

/// `t` is read back as `s`, whatever bytes follow it.
pub open spec fn reads_as(t: Seq<u8>, s: Seq<char>) -> bool {
    forall|rest: Seq<u8>| #[trigger] json_string_prefix(t + rest) == Some((s, t.len()))
}

/// When `b` starts with the literal that serde_json writes for some string, `r` is
/// that string and the literal's length.
pub open spec fn reads_back(b: Seq<u8>, r: Option<(String, usize)>) -> bool {
    forall|s: Seq<char>, rest: Seq<u8>|
        b == #[trigger] (json_text(s) + rest) ==> (r matches Some((x, n)) && x@ == s && n
            == json_text(s).len())
}

/// Relies on `serde_json::to_vec` on a `str`: the result is the quoted, escaped
/// literal (each character as at most six bytes: its UTF-8 or an escape such as
/// `\u001f`), and serde_json's reader takes exactly those bytes back to `s`.
#[verifier::external_body]
pub(crate) fn quote(s: &str) -> (r: Vec<u8>)
    ensures
        r@ == json_text(s@),
        reads_as(r@, s@),
        r@.len() <= 2 + 6 * s@.len(),
{
    serde_json::to_vec(s).unwrap_or_default()
}

/// The first byte of a string literal, after any whitespace: `"`, or one of the
/// whitespace bytes that the reader skips (space, `\n`, `\t`, `\r`).
pub open spec fn may_start_string(b: u8) -> bool {
    b == 34 || b == 32 || b == 10 || b == 9 || b == 13
}

/// Relies on serde_json's `StreamDeserializer` over a byte slice, asked for one
/// `String`, and on its `byte_offset`: after skipping whitespace the reader wants a
/// `"`; a string literal is read up to its closing quote and no further, so the
/// bytes after it do not change what is read; the literal that `to_vec` wrote is
/// read back to the string it came from.
#[verifier::external_body]
pub(crate) fn read_string(b: &[u8]) -> (r: Option<(String, usize)>)
    ensures
        r is None <==> json_string_prefix(b@) is None,
        r matches Some((s, n)) ==> json_string_prefix(b@) == Some((s@, n as nat)),
        r matches Some((s, n)) ==> 0 < n <= b@.len() && reads_as(b@.subrange(0, n as int), s@),
        reads_back(b@, r),
        r is Some ==> b@.len() > 0 && may_start_string(b@[0]),
{
    let mut stream = serde_json::Deserializer::from_slice(b).into_iter::<String>();
    match stream.next() {
        Some(Ok(s)) => Some((s, stream.byte_offset())),
        _ => None,
    }
}

} // verus!
