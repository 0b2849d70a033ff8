//! The request/response protocol: one self-delimiting frame per message, frames
//! back to back on the connection, in the same text form as log records.
//!
//! A request is `{"Get":{"key":K}}`, `{"Set":{"key":K,"value":V}}` or
//! `{"Remove":{"key":K}}`. A reply is `{"Ok":null}`, `{"Ok":V}` or `{"Err":M}`.
use vstd::prelude::*;
use crate::codec::{
    remove_head, set_head, close2, close2_bytes, decode_cmd, enc_cmd, has_lit_at, parse_cmd, push_lit, read_string_then,
    remove_head_bytes, set_head_bytes, starts_with, string_then, value_sep_bytes, Cmd, CmdModel,
};
use crate::json::{json_text, quote};

verus! {

/// A request from a client.
#[derive(Debug, Clone)]
pub enum Request {
    Get { key: String },
    Put { key: String, value: String },
    Remove { key: String },
}

/// What a request asks, over plain sequences of characters.
pub enum RequestModel {
    Get { key: Seq<char> },
    Put { key: Seq<char>, value: Seq<char> },
    Remove { key: Seq<char> },
}

impl View for Request {
    type V = RequestModel;

    open spec fn view(&self) -> RequestModel {
        match self {
            Request::Get { key } => RequestModel::Get { key: key@ },
            Request::Put { key, value } => RequestModel::Put { key: key@, value: value@ },
            Request::Remove { key } => RequestModel::Remove { key: key@ },
        }
    }
}

/// The reply to a `Get`: the value, `None` for a key that the store does not hold,
/// or the error's message.
#[derive(Debug, Clone)]
pub enum GetResp {
    Value(Option<String>),
    Failure(String),
}

/// The reply to a `Set`: done, or the error's message.
#[derive(Debug, Clone)]
pub enum SetResp {
    Done,
    Failure(String),
}

/// The reply to a `Remove`: done, or the error's message.
#[derive(Debug, Clone)]
pub enum RemoveResp {
    Done,
    Failure(String),
}

/// What a reply says: done with nothing to return, a value, or a failure.
pub enum ReplyModel {
    Done,
    Value(Seq<char>),
    Failed(Seq<char>),
}

impl View for GetResp {
    type V = ReplyModel;

    open spec fn view(&self) -> ReplyModel {
        match self {
            GetResp::Value(None) => ReplyModel::Done,
            GetResp::Value(Some(v)) => ReplyModel::Value(v@),
            GetResp::Failure(e) => ReplyModel::Failed(e@),
        }
    }
}

impl View for SetResp {
    type V = ReplyModel;

    open spec fn view(&self) -> ReplyModel {
        match self {
            SetResp::Done => ReplyModel::Done,
            SetResp::Failure(e) => ReplyModel::Failed(e@),
        }
    }
}

impl View for RemoveResp {
    type V = ReplyModel;

    open spec fn view(&self) -> ReplyModel {
        match self {
            RemoveResp::Done => ReplyModel::Done,
            RemoveResp::Failure(e) => ReplyModel::Failed(e@),
        }
    }
}

/// `{"Get":{"key":`
pub open spec fn get_head() -> Seq<u8> {
    seq![123u8, 34, 71, 101, 116, 34, 58, 123, 34, 107, 101, 121, 34, 58]
}

/// `{"Ok":`
pub open spec fn ok_head() -> Seq<u8> {
    seq![123u8, 34, 79, 107, 34, 58]
}

/// `{"Err":`
pub open spec fn err_head() -> Seq<u8> {
    seq![123u8, 34, 69, 114, 114, 34, 58]
}

/// `null}`
pub open spec fn null_close() -> Seq<u8> {
    seq![110u8, 117, 108, 108, 125]
}

/// `}`
pub open spec fn close1() -> Seq<u8> {
    seq![125u8]
}

/// The bytes that a request is sent as.
pub open spec fn enc_request(r: RequestModel) -> Seq<u8> {
    match r {
        RequestModel::Get { key } => get_head() + json_text(key) + close2(),
        RequestModel::Put { key, value } => enc_cmd(CmdModel::Put { key, value }),
        RequestModel::Remove { key } => enc_cmd(CmdModel::Remove { key }),
    }
}

/// The request at the start of `b` and the number of bytes it takes.
pub open spec fn parse_request(b: Seq<u8>) -> Option<(RequestModel, nat)> {
    if starts_with(b, get_head()) {
        match string_then(b.skip(14), close2()) {
            Some((k, n)) => Some((RequestModel::Get { key: k }, 14 + n)),
            None => None,
        }
    } else {
        match parse_cmd(b) {
            Some((CmdModel::Put { key, value }, n)) => Some(
                (RequestModel::Put { key, value }, n),
            ),
            Some((CmdModel::Remove { key }, n)) => Some((RequestModel::Remove { key }, n)),
            None => None,
        }
    }
}

/// The bytes that a reply is sent as.
pub open spec fn enc_reply(m: ReplyModel) -> Seq<u8> {
    match m {
        ReplyModel::Done => ok_head() + null_close(),
        ReplyModel::Value(v) => ok_head() + json_text(v) + close1(),
        ReplyModel::Failed(e) => err_head() + json_text(e) + close1(),
    }
}

/// The reply at the start of `b` and the number of bytes it takes.
pub open spec fn parse_reply(b: Seq<u8>) -> Option<(ReplyModel, nat)> {
    if starts_with(b, ok_head()) {
        match string_then(b.skip(6), close1()) {
            Some((v, n)) => Some((ReplyModel::Value(v), 6 + n)),
            None => if starts_with(b.skip(6), null_close()) {
                Some((ReplyModel::Done, 11))
            } else {
                None
            },
        }
    } else if starts_with(b, err_head()) {
        match string_then(b.skip(7), close1()) {
            Some((e, n)) => Some((ReplyModel::Failed(e), 7 + n)),
            None => None,
        }
    } else {
        None
    }
}

fn get_head_bytes() -> (r: Vec<u8>)
    ensures
        r@ == get_head(),
{
    let r: Vec<u8> = vec![123u8, 34, 71, 101, 116, 34, 58, 123, 34, 107, 101, 121, 34, 58];
    assert(r@ =~= get_head());
    r
}

fn ok_head_bytes() -> (r: Vec<u8>)
    ensures
        r@ == ok_head(),
{
    let r: Vec<u8> = vec![123u8, 34, 79, 107, 34, 58];
    assert(r@ =~= ok_head());
    r
}

fn err_head_bytes() -> (r: Vec<u8>)
    ensures
        r@ == err_head(),
{
    let r: Vec<u8> = vec![123u8, 34, 69, 114, 114, 34, 58];
    assert(r@ =~= err_head());
    r
}

fn null_close_bytes() -> (r: Vec<u8>)
    ensures
        r@ == null_close(),
{
    let r: Vec<u8> = vec![110u8, 117, 108, 108, 125];
    assert(r@ =~= null_close());
    r
}

fn close1_bytes() -> (r: Vec<u8>)
    ensures
        r@ == close1(),
{
    let r: Vec<u8> = vec![125u8];
    assert(r@ =~= close1());
    r
}

/// Writes a request frame.
pub fn encode_request(req: &Request) -> (r: Vec<u8>)
    ensures
        r@ == enc_request(req@),
{
    match req {
        Request::Get { key } => {
            let mut out = get_head_bytes();
            push_lit(&mut out, quote(key.as_str()).as_slice());
            push_lit(&mut out, close2_bytes().as_slice());
            out
        },
        Request::Put { key, value } => {
            let mut out = set_head_bytes();
            push_lit(&mut out, quote(key.as_str()).as_slice());
            push_lit(&mut out, value_sep_bytes().as_slice());
            push_lit(&mut out, quote(value.as_str()).as_slice());
            push_lit(&mut out, close2_bytes().as_slice());
            out
        },
        Request::Remove { key } => {
            let mut out = remove_head_bytes();
            push_lit(&mut out, quote(key.as_str()).as_slice());
            push_lit(&mut out, close2_bytes().as_slice());
            out
        },
    }
}

/// Reads the request frame that starts at offset `start` of `b`: the request and the
/// offset just past it, or `None` when no whole request starts there. The frame that
/// [`encode_request`] wrote is read back as the same request, whatever follows it.
pub fn decode_request(b: &[u8], start: usize) -> (r: Option<(Request, usize)>)
    requires
        start <= b@.len(),
    ensures
        r is None <==> parse_request(b@.skip(start as int)) is None,
        r matches Some((q, e)) ==> start < e <= b@.len() && parse_request(b@.skip(start as int))
            == Some((q@, (e - start) as nat)),
        forall|q: RequestModel, rest: Seq<u8>|
            b@.skip(start as int) == #[trigger] (enc_request(q) + rest) ==> (r matches Some((x, e))
                && x@ == q && e == start + enc_request(q).len()),
{
    let b0 = Ghost(b@.skip(start as int));
    let blen = b.len();
    if has_lit_at(b, start, get_head_bytes().as_slice()) {
        let at1 = start + 14;
        assert(b0@.skip(14) =~= b@.skip(at1 as int));
        let got = read_string_then(b, at1, close2_bytes().as_slice());
        proof {
            assert forall|q: RequestModel, rest: Seq<u8>|
                b0@ == #[trigger] (enc_request(q) + rest) implies (got matches Some((x, e))
                    && q == RequestModel::Get { key: x@ } && e == start + enc_request(q).len()) by {
                if q is Get {
                    let tail = close2() + rest;
                    assert(b@.skip(at1 as int) =~= json_text(q->Get_key) + tail);
                    assert(tail.subrange(0, 2) =~= close2());
                } else if q is Put {
                    assert(b0@.subrange(0, 14)[2] == (enc_request(q) + rest)[2]);
                } else {
                    assert(b0@.subrange(0, 14)[2] == (enc_request(q) + rest)[2]);
                }
            }
        }
        match got {
            Some((key, e)) => Some((Request::Get { key }, e)),
            None => None,
        }
    } else {
        let got = decode_cmd(b, start);
        proof {
            assert forall|q: RequestModel, rest: Seq<u8>|
                b0@ == #[trigger] (enc_request(q) + rest) implies !(q is Get) by {
                if q is Get {
                    assert((enc_request(q) + rest).subrange(0, 14) =~= get_head());
                }
            }
            assert forall|q: RequestModel, rest: Seq<u8>|
                b0@ == #[trigger] (enc_request(q) + rest) implies (got matches Some((x, e))
                    && e == start + enc_request(q).len() && match q {
                    RequestModel::Put { key, value } => x@ == CmdModel::Put { key, value },
                    RequestModel::Remove { key } => x@ == CmdModel::Remove { key },
                    RequestModel::Get { .. } => false,
                }) by {
                if q is Put {
                    assert(b0@ == enc_cmd(CmdModel::Put { key: q->Put_key, value: q->Put_value })
                        + rest);
                } else if q is Remove {
                    assert(b0@ == enc_cmd(CmdModel::Remove { key: q->Remove_key }) + rest);
                }
            }
        }
        match got {
            Some((Cmd::Put { key, value }, e)) => Some((Request::Put { key, value }, e)),
            Some((Cmd::Remove { key }, e)) => Some((Request::Remove { key }, e)),
            None => None,
        }
    }
}

/// The bytes of `b` agree with `lit` as far as both go.
pub open spec fn agrees(b: Seq<u8>, lit: Seq<u8>) -> bool {
    forall|i: int| 0 <= i < b.len() && 0 <= i < lit.len() ==> b[i] == lit[i]
}

/// Whether the bytes of `b` from `pos` on agree with `lit` as far as both go.
fn agrees_at(b: &[u8], pos: usize, lit: &[u8]) -> (r: bool)
    requires
        pos <= b@.len(),
    ensures
        r == agrees(b@.skip(pos as int), lit@),
{
    let mut i: usize = 0;
    while i < lit.len() && i < b.len() - pos
        invariant
            pos <= b@.len(),
            i <= lit@.len(),
            i <= b@.len() - pos,
            forall|j: int| 0 <= j < i ==> b@[pos + j] == lit@[j],
        decreases lit@.len() - i,
    {
        if b[pos + i] != lit[i] {
            assert(b@.skip(pos as int)[i as int] == b@[pos + i]);
            return false;
        }
        i = i + 1;
    }
    assert forall|j: int| 0 <= j < b@.skip(pos as int).len() && 0 <= j < lit@.len() implies b@.skip(
        pos as int,
    )[j] == lit@[j] by {
        assert(b@.skip(pos as int)[j] == b@[pos + j]);
    }
    true
}

proof fn lemma_agrees_prefix(x: Seq<u8>, more: Seq<u8>, lit: Seq<u8>)
    requires
        starts_with(x + more, lit),
    ensures
        agrees(x, lit),
{
    assert forall|i: int| 0 <= i < x.len() && 0 <= i < lit.len() implies x[i] == lit[i] by {
        assert((x + more).subrange(0, lit.len() as int)[i] == (x + more)[i]);
    }
}

/// Whether the bytes of `b` from `start` on may still become a request as more bytes
/// arrive. When they cannot, no bytes that follow make them one: a connection that
/// sends them has sent a malformed request.
pub fn request_may_follow(b: &[u8], start: usize) -> (r: bool)
    requires
        start <= b@.len(),
    ensures
        r == (agrees(b@.skip(start as int), get_head()) || agrees(b@.skip(start as int), set_head())
            || agrees(b@.skip(start as int), remove_head())),
        !r ==> forall|more: Seq<u8>| #[trigger] parse_request(b@.skip(start as int) + more) is None,
{
    let r = agrees_at(b, start, get_head_bytes().as_slice()) || agrees_at(
        b,
        start,
        set_head_bytes().as_slice(),
    ) || agrees_at(b, start, remove_head_bytes().as_slice());
    proof {
        let x = b@.skip(start as int);
        assert forall|more: Seq<u8>| !r implies #[trigger] parse_request(x + more) is None by {
            if parse_request(x + more) is Some {
                if starts_with(x + more, get_head()) {
                    lemma_agrees_prefix(x, more, get_head());
                } else if starts_with(x + more, set_head()) {
                    lemma_agrees_prefix(x, more, set_head());
                } else if starts_with(x + more, remove_head()) {
                    lemma_agrees_prefix(x, more, remove_head());
                }
            }
        }
    }
    r
}

/// Writes a reply frame.
fn encode_reply(ok: bool, text: Option<&String>) -> (r: Vec<u8>)
    requires
        !ok ==> text is Some,
    ensures
        r@ == (if ok {
            match text {
                None => enc_reply(ReplyModel::Done),
                Some(v) => enc_reply(ReplyModel::Value(v@)),
            }
        } else {
            enc_reply(ReplyModel::Failed(text->Some_0@))
        }),
{
    if ok {
        let mut out = ok_head_bytes();
        match text {
            None => {
                push_lit(&mut out, null_close_bytes().as_slice());
            },
            Some(v) => {
                push_lit(&mut out, quote(v.as_str()).as_slice());
                push_lit(&mut out, close1_bytes().as_slice());
            },
        }
        out
    } else {
        let mut out = err_head_bytes();
        if let Some(e) = text {
            push_lit(&mut out, quote(e.as_str()).as_slice());
        }
        push_lit(&mut out, close1_bytes().as_slice());
        out
    }
}

/// Writes the frame of a reply to a `Get`.
pub fn encode_get_resp(resp: &GetResp) -> (r: Vec<u8>)
    ensures
        r@ == enc_reply(resp@),
{
    match resp {
        GetResp::Value(v) => encode_reply(true, v.as_ref()),
        GetResp::Failure(e) => encode_reply(false, Some(e)),
    }
}

/// Writes the frame of a reply to a `Set`.
pub fn encode_set_resp(resp: &SetResp) -> (r: Vec<u8>)
    ensures
        r@ == enc_reply(resp@),
{
    match resp {
        SetResp::Done => encode_reply(true, None),
        SetResp::Failure(e) => encode_reply(false, Some(e)),
    }
}

/// Writes the frame of a reply to a `Remove`.
pub fn encode_remove_resp(resp: &RemoveResp) -> (r: Vec<u8>)
    ensures
        r@ == enc_reply(resp@),
{
    match resp {
        RemoveResp::Done => encode_reply(true, None),
        RemoveResp::Failure(e) => encode_reply(false, Some(e)),
    }
}

/// What a decoded reply says: `ok` with or without a value, or a failure's message.
pub open spec fn reply_of(t: Option<String>, ok: bool) -> ReplyModel {
    if ok {
        match t {
            None => ReplyModel::Done,
            Some(v) => ReplyModel::Value(v@),
        }
    } else {
        ReplyModel::Failed(t->Some_0@)
    }
}

/// Reads the reply frame that starts at offset `start` of `b`.
fn decode_reply(b: &[u8], start: usize) -> (r: Option<(Option<String>, bool, usize)>)
    requires
        start <= b@.len(),
    ensures
        r is None <==> parse_reply(b@.skip(start as int)) is None,
        r matches Some((t, ok, e)) ==> start < e <= b@.len() && parse_reply(
            b@.skip(start as int),
        ) == Some((reply_of(t, ok), (e - start) as nat)) && (!ok ==> t is Some),
        forall|m: ReplyModel, rest: Seq<u8>|
            b@.skip(start as int) == #[trigger] (enc_reply(m) + rest) ==> (r matches Some(
                (t, ok, e),
            ) && reply_of(t, ok) == m && e == start + enc_reply(m).len()),
{
    let b0 = Ghost(b@.skip(start as int));
    let blen = b.len();
    if has_lit_at(b, start, ok_head_bytes().as_slice()) {
        let at1 = start + 6;
        assert(b0@.skip(6) =~= b@.skip(at1 as int));
        let got = read_string_then(b, at1, close1_bytes().as_slice());
        proof {
            assert forall|m: ReplyModel, rest: Seq<u8>|
                b0@ == #[trigger] (enc_reply(m) + rest) implies !(m is Failed) by {
                if m is Failed {
                    assert(b0@.subrange(0, 6)[2] == (enc_reply(m) + rest)[2]);
                }
            }
            assert forall|m: ReplyModel, rest: Seq<u8>|
                b0@ == #[trigger] (enc_reply(m) + rest) && m is Value implies (got matches Some(
                    (x, e),
                ) && x@ == m->Value_0 && e == start + enc_reply(m).len()) by {
                let tail = close1() + rest;
                assert(b@.skip(at1 as int) =~= json_text(m->Value_0) + tail);
                assert(tail.subrange(0, 1) =~= close1());
            }
            assert forall|m: ReplyModel, rest: Seq<u8>|
                b0@ == #[trigger] (enc_reply(m) + rest) && m is Done implies got is None
                && starts_with(b@.skip(at1 as int), null_close()) by {
                assert(b@.skip(at1 as int) =~= null_close() + rest);
                assert(b@.skip(at1 as int)[0] == 110u8);
                assert(b@[at1 as int] == b@.skip(at1 as int)[0]);
                assert((null_close() + rest).subrange(0, 5) =~= null_close());
            }
        }
        match got {
            Some((v, e)) => Some((Some(v), true, e)),
            None => {
                if has_lit_at(b, at1, null_close_bytes().as_slice()) {
                    Some((None, true, at1 + 5))
                } else {
                    None
                }
            },
        }
    } else if has_lit_at(b, start, err_head_bytes().as_slice()) {
        let at1 = start + 7;
        assert(b0@.skip(7) =~= b@.skip(at1 as int));
        let got = read_string_then(b, at1, close1_bytes().as_slice());
        proof {
            assert forall|m: ReplyModel, rest: Seq<u8>|
                b0@ == #[trigger] (enc_reply(m) + rest) implies (got matches Some((x, e))
                    && m == ReplyModel::Failed(x@) && e == start + enc_reply(m).len()) by {
                if m is Failed {
                    let tail = close1() + rest;
                    assert(b@.skip(at1 as int) =~= json_text(m->Failed_0) + tail);
                    assert(tail.subrange(0, 1) =~= close1());
                } else {
                    assert((enc_reply(m) + rest).subrange(0, 6) =~= ok_head());
                }
            }
        }
        match got {
            Some((m, e)) => Some((Some(m), false, e)),
            None => None,
        }
    } else {
        proof {
            assert forall|m: ReplyModel, rest: Seq<u8>|
                b0@ == #[trigger] (enc_reply(m) + rest) implies false by {
                if m is Failed {
                    assert((enc_reply(m) + rest).subrange(0, 7) =~= err_head());
                } else {
                    assert((enc_reply(m) + rest).subrange(0, 6) =~= ok_head());
                }
            }
        }
        None
    }
}

/// Reads a reply to a `Get` that starts at offset `start` of `b`.
pub fn decode_get_resp(b: &[u8], start: usize) -> (r: Option<(GetResp, usize)>)
    requires
        start <= b@.len(),
    ensures
        r is None <==> parse_reply(b@.skip(start as int)) is None,
        r matches Some((x, e)) ==> start < e <= b@.len() && parse_reply(b@.skip(start as int))
            == Some((x@, (e - start) as nat)),
        forall|m: ReplyModel, rest: Seq<u8>|
            b@.skip(start as int) == #[trigger] (enc_reply(m) + rest) ==> (r matches Some((x, e))
                && x@ == m && e == start + enc_reply(m).len()),
{
    match decode_reply(b, start) {
        Some((t, true, e)) => Some((GetResp::Value(t), e)),
        Some((Some(m), false, e)) => Some((GetResp::Failure(m), e)),
        _ => None,
    }
}

/// Reads a reply to a `Set` that starts at offset `start` of `b`; a reply that
/// carries a value is no reply to a `Set`.
pub fn decode_set_resp(b: &[u8], start: usize) -> (r: Option<(SetResp, usize)>)
    requires
        start <= b@.len(),
    ensures
        r is None <==> (parse_reply(b@.skip(start as int)) matches None || parse_reply(
            b@.skip(start as int),
        ) matches Some((ReplyModel::Value(_), _))),
        r matches Some((x, e)) ==> start < e <= b@.len() && parse_reply(b@.skip(start as int))
            == Some((x@, (e - start) as nat)),
        forall|m: ReplyModel, rest: Seq<u8>|
            b@.skip(start as int) == #[trigger] (enc_reply(m) + rest) && !(m is Value) ==> (
            r matches Some((x, e)) && x@ == m && e == start + enc_reply(m).len()),
{
    match decode_reply(b, start) {
        Some((None, true, e)) => Some((SetResp::Done, e)),
        Some((Some(m), false, e)) => Some((SetResp::Failure(m), e)),
        _ => None,
    }
}

/// Reads a reply to a `Remove` that starts at offset `start` of `b`; a reply that
/// carries a value is no reply to a `Remove`.
pub fn decode_remove_resp(b: &[u8], start: usize) -> (r: Option<(RemoveResp, usize)>)
    requires
        start <= b@.len(),
    ensures
        r is None <==> (parse_reply(b@.skip(start as int)) matches None || parse_reply(
            b@.skip(start as int),
        ) matches Some((ReplyModel::Value(_), _))),
        r matches Some((x, e)) ==> start < e <= b@.len() && parse_reply(b@.skip(start as int))
            == Some((x@, (e - start) as nat)),
        forall|m: ReplyModel, rest: Seq<u8>|
            b@.skip(start as int) == #[trigger] (enc_reply(m) + rest) && !(m is Value) ==> (
            r matches Some((x, e)) && x@ == m && e == start + enc_reply(m).len()),
{
    match decode_reply(b, start) {
        Some((None, true, e)) => Some((RemoveResp::Done, e)),
        Some((Some(m), false, e)) => Some((RemoveResp::Failure(m), e)),
        _ => None,
    }
}

} // verus!
