//! Log records and their self-delimiting text form.
//!
//! A record is a JSON object with the variant name as its only key:
//! `{"Set":{"key":K,"value":V}}` or `{"Remove":{"key":K}}`, where `K` and `V` are
//! JSON string literals. Records are appended back to back with nothing between them.
use vstd::prelude::*;
use vstd::slice::slice_subrange;
use crate::json::{json_string_prefix, json_text, may_start_string, quote, read_string, reads_as};

verus! {

/// What a record says, over plain sequences of characters.
pub enum CmdModel {
    Put { key: Seq<char>, value: Seq<char> },
    Remove { key: Seq<char> },
}

/// A log record: a key bound to a value, or a key removed.
#[derive(Debug, Clone)]
pub enum Cmd {
    Put { key: String, value: String },
    Remove { key: String },
}

impl View for Cmd {
    type V = CmdModel;

    open spec fn view(&self) -> CmdModel {
        match self {
            Cmd::Put { key, value } => CmdModel::Put { key: key@, value: value@ },
            Cmd::Remove { key } => CmdModel::Remove { key: key@ },
        }
    }
}

impl PartialEq for Cmd {
    fn eq(&self, other: &Cmd) -> (r: bool) {
        match (self, other) {
            (Cmd::Put { key: k1, value: v1 }, Cmd::Put { key: k2, value: v2 }) => *k1 == *k2 && *v1
                == *v2,
            (Cmd::Remove { key: k1 }, Cmd::Remove { key: k2 }) => *k1 == *k2,
            _ => false,
        }
    }
}

impl vstd::std_specs::cmp::PartialEqSpecImpl for Cmd {
    open spec fn obeys_eq_spec() -> bool {
        true
    }

    open spec fn eq_spec(&self, other: &Cmd) -> bool {
        self@ == other@
    }
}

impl Eq for Cmd {}

/// `{"Set":{"key":`
pub open spec fn set_head() -> Seq<u8> {
    seq![123u8, 34, 83, 101, 116, 34, 58, 123, 34, 107, 101, 121, 34, 58]
}

/// `{"Remove":{"key":`
pub open spec fn remove_head() -> Seq<u8> {
    seq![123u8, 34, 82, 101, 109, 111, 118, 101, 34, 58, 123, 34, 107, 101, 121, 34, 58]
}

/// `,"value":`
pub open spec fn value_sep() -> Seq<u8> {
    seq![44u8, 34, 118, 97, 108, 117, 101, 34, 58]
}

/// `}}`
pub open spec fn close2() -> Seq<u8> {
    seq![125u8, 125]
}

/// The bytes that a record is written as.
pub open spec fn enc_cmd(c: CmdModel) -> Seq<u8> {
    match c {
        CmdModel::Put { key, value } => set_head() + json_text(key) + value_sep() + json_text(
            value,
        ) + close2(),
        CmdModel::Remove { key } => remove_head() + json_text(key) + close2(),
    }
}

/// The bytes of several records written one after another.
pub open spec fn enc_all(cs: Seq<CmdModel>) -> Seq<u8>
    decreases cs.len(),
{
    if cs.len() == 0 {
        Seq::empty()
    } else {
        enc_cmd(cs[0]) + enc_all(cs.drop_first())
    }
}

pub open spec fn starts_with(b: Seq<u8>, lit: Seq<u8>) -> bool {
    lit.len() <= b.len() && b.subrange(0, lit.len() as int) == lit
}

/// A JSON string literal followed by the literal bytes `lit`: the string and the
/// number of bytes that both take.
pub open spec fn string_then(b: Seq<u8>, lit: Seq<u8>) -> Option<(Seq<char>, nat)> {
    match json_string_prefix(b) {
        Some((s, n)) => if n <= b.len() && starts_with(b.skip(n as int), lit) {
            Some((s, n + lit.len()))
        } else {
            None
        },
        None => None,
    }
}

/// The record at the start of `b` and the number of bytes it takes, or `None` when
/// `b` does not start with one.
pub open spec fn parse_cmd(b: Seq<u8>) -> Option<(CmdModel, nat)> {
    if starts_with(b, set_head()) {
        let b1 = b.skip(set_head().len() as int);
        match string_then(b1, value_sep()) {
            Some((k, n1)) => match string_then(b1.skip(n1 as int), close2()) {
                Some((v, n2)) => Some(
                    (CmdModel::Put { key: k, value: v }, set_head().len() + n1 + n2),
                ),
                None => None,
            },
            None => None,
        }
    } else if starts_with(b, remove_head()) {
        match string_then(b.skip(remove_head().len() as int), close2()) {
            Some((k, n)) => Some((CmdModel::Remove { key: k }, remove_head().len() + n)),
            None => None,
        }
    } else {
        None
    }
}

/// `chunk` is read as the record `c`, whatever bytes follow it.
pub open spec fn robust_cmd(chunk: Seq<u8>, c: CmdModel) -> bool {
    forall|rest: Seq<u8>| #[trigger] parse_cmd(chunk + rest) == Some((c, chunk.len()))
}

/// The records of `b` from offset `pos` on, each with the offset just past it;
/// `None` when the bytes from `pos` on are not a whole number of records.
pub open spec fn parse_from(b: Seq<u8>, pos: nat) -> Option<Seq<(CmdModel, nat)>>
    decreases b.len() - pos,
{
    if pos >= b.len() {
        Some(Seq::empty())
    } else {
        match parse_cmd(b.skip(pos as int)) {
            Some((c, n)) => if n > 0 {
                match parse_from(b, pos + n) {
                    Some(rs) => Some(seq![(c, pos + n)] + rs),
                    None => None,
                }
            } else {
                None
            },
            None => None,
        }
    }
}

pub open spec fn first_of(rs: Seq<(CmdModel, nat)>) -> Seq<CmdModel> {
    rs.map_values(|r: (CmdModel, nat)| r.0)
}

proof fn lemma_string_then(t: Seq<u8>, s: Seq<char>, lit: Seq<u8>, rest: Seq<u8>)
    requires
        reads_as(t, s),
    ensures
        string_then(t + (lit + rest), lit) == Some((s, t.len() + lit.len())),
{
    let b = t + (lit + rest);
    assert(json_string_prefix(t + (lit + rest)) == Some((s, t.len())));
    assert(b.skip(t.len() as int) =~= lit + rest);
    assert((lit + rest).subrange(0, lit.len() as int) =~= lit);
}

proof fn lemma_set_robust(t1: Seq<u8>, t2: Seq<u8>, k: Seq<char>, v: Seq<char>)
    requires
        reads_as(t1, k),
        reads_as(t2, v),
    ensures
        robust_cmd(
            set_head() + t1 + value_sep() + t2 + close2(),
            CmdModel::Put { key: k, value: v },
        ),
{
    let chunk = set_head() + t1 + value_sep() + t2 + close2();
    assert forall|rest: Seq<u8>|
        #[trigger] parse_cmd(chunk + rest) == Some(
            (CmdModel::Put { key: k, value: v }, chunk.len()),
        ) by {
        let b = chunk + rest;
        let tail2 = close2() + rest;
        let tail1 = value_sep() + (t2 + tail2);
        assert(b.subrange(0, 14) =~= set_head());
        let b1 = b.skip(14);
        assert(b1 =~= t1 + tail1);
        lemma_string_then(t1, k, value_sep(), t2 + tail2);
        let n1 = t1.len() + 9;
        assert(b1.skip(n1 as int) =~= t2 + tail2);
        lemma_string_then(t2, v, close2(), rest);
    }
}

proof fn lemma_remove_robust(t: Seq<u8>, k: Seq<char>)
    requires
        reads_as(t, k),
    ensures
        robust_cmd(remove_head() + t + close2(), CmdModel::Remove { key: k }),
{
    let chunk = remove_head() + t + close2();
    assert forall|rest: Seq<u8>|
        #[trigger] parse_cmd(chunk + rest) == Some(
            (CmdModel::Remove { key: k }, chunk.len()),
        ) by {
        let b = chunk + rest;
        assert(b.subrange(0, 17) =~= remove_head());
        assert(!starts_with(b, set_head())) by {
            assert(b.subrange(0, 17)[2] == 82u8);
            assert(set_head()[2] == 83u8);
        }
        assert(b.skip(17) =~= t + (close2() + rest));
        lemma_string_then(t, k, close2(), rest);
    }
}

/// Appends the literal bytes `lit` to `out`.
pub(crate) fn push_lit(out: &mut Vec<u8>, lit: &[u8])
    ensures
        final(out)@ == old(out)@ + lit@,
{
    let mut i: usize = 0;
    while i < lit.len()
        invariant
            i <= lit@.len(),
            out@ == old(out)@ + lit@.subrange(0, i as int),
        decreases lit@.len() - i,
    {
        out.push(lit[i]);
        i = i + 1;
        assert(lit@.subrange(0, i as int) =~= lit@.subrange(0, i - 1) + seq![lit@[i - 1]]);
    }
    assert(lit@.subrange(0, i as int) =~= lit@);
}

pub(crate) fn set_head_bytes() -> (r: Vec<u8>)
    ensures
        r@ == set_head(),
{
    let r: Vec<u8> = vec![123u8, 34, 83, 101, 116, 34, 58, 123, 34, 107, 101, 121, 34, 58];
    assert(r@ =~= set_head());
    r
}

pub(crate) fn remove_head_bytes() -> (r: Vec<u8>)
    ensures
        r@ == remove_head(),
{
    let r: Vec<u8> = vec![
        123u8,
        34,
        82,
        101,
        109,
        111,
        118,
        101,
        34,
        58,
        123,
        34,
        107,
        101,
        121,
        34,
        58,
    ];
    assert(r@ =~= remove_head());
    r
}

pub(crate) fn value_sep_bytes() -> (r: Vec<u8>)
    ensures
        r@ == value_sep(),
{
    let r: Vec<u8> = vec![44u8, 34, 118, 97, 108, 117, 101, 34, 58];
    assert(r@ =~= value_sep());
    r
}

pub(crate) fn close2_bytes() -> (r: Vec<u8>)
    ensures
        r@ == close2(),
{
    let r: Vec<u8> = vec![125u8, 125];
    assert(r@ =~= close2());
    r
}

/// Writes a record in its text form. The bytes are read back as the same record,
/// whatever follows them.
pub fn encode_cmd(c: &Cmd) -> (r: Vec<u8>)
    ensures
        r@ == enc_cmd(c@),
        robust_cmd(r@, c@),
{
    match c {
        Cmd::Put { key, value } => {
            let mut out = set_head_bytes();
            let qk = quote(key.as_str());
            push_lit(&mut out, qk.as_slice());
            push_lit(&mut out, value_sep_bytes().as_slice());
            let qv = quote(value.as_str());
            push_lit(&mut out, qv.as_slice());
            push_lit(&mut out, close2_bytes().as_slice());
            proof {
                lemma_set_robust(qk@, qv@, key@, value@);
            }
            out
        },
        Cmd::Remove { key } => {
            let mut out = remove_head_bytes();
            let qk = quote(key.as_str());
            push_lit(&mut out, qk.as_slice());
            push_lit(&mut out, close2_bytes().as_slice());
            proof {
                lemma_remove_robust(qk@, key@);
            }
            out
        },
    }
}


/// Whether the bytes of `b` from `pos` on start with `lit`.
pub(crate) fn has_lit_at(b: &[u8], pos: usize, lit: &[u8]) -> (r: bool)
    requires
        pos <= b@.len(),
    ensures
        r == starts_with(b@.skip(pos as int), lit@),
{
    if lit.len() > b.len() - pos {
        return false;
    }
    let mut i: usize = 0;
    while i < lit.len()
        invariant
            i <= lit@.len(),
            pos + lit@.len() <= b@.len(),
            b@.len() <= usize::MAX,
            forall|j: int| 0 <= j < i ==> b@[pos + j] == lit@[j],
        decreases lit@.len() - i,
    {
        if b[pos + i] != lit[i] {
            assert(b@.skip(pos as int).subrange(0, lit@.len() as int)[i as int] == b@[pos + i]);
            return false;
        }
        i = i + 1;
    }
    assert(b@.skip(pos as int).subrange(0, lit@.len() as int) =~= lit@);
    true
}

/// A JSON string literal at offset `pos` of `b` followed by `lit`: the string and
/// the offset just past both.
pub(crate) fn read_string_then(b: &[u8], pos: usize, lit: &[u8]) -> (r: Option<(String, usize)>)
    requires
        pos <= b@.len(),
    ensures
        r is None <==> string_then(b@.skip(pos as int), lit@) is None,
        r matches Some((s, e)) ==> {
            &&& string_then(b@.skip(pos as int), lit@) == Some((s@, (e - pos) as nat))
            &&& pos + lit@.len() < e <= b@.len()
            &&& reads_as(b@.subrange(pos as int, e - lit@.len()), s@)
            &&& b@.subrange(e - lit@.len(), e as int) == lit@
        },
        forall|s: Seq<char>, tail: Seq<u8>|
            b@.skip(pos as int) == #[trigger] (json_text(s) + tail) && starts_with(tail, lit@) ==> (
            r matches Some((x, e)) && x@ == s && e == pos + json_text(s).len() + lit@.len()),
        r is Some ==> pos < b@.len() && may_start_string(b@[pos as int]),
{
    let rest = slice_subrange(b, pos, b.len());
    assert(rest@ == b@.skip(pos as int));
    match read_string(rest) {
        Some((s, n)) => {
            let end = pos + n;
            let ok = has_lit_at(b, end, lit);
            assert(b@.skip(pos as int).skip(n as int) =~= b@.skip(end as int));
            proof {
                assert forall|s2: Seq<char>, tail: Seq<u8>|
                    b@.skip(pos as int) == #[trigger] (json_text(s2) + tail) && starts_with(
                        tail,
                        lit@,
                    ) implies ok && s@ == s2 && n == json_text(s2).len() by {
                    assert(rest@ == json_text(s2) + tail);
                    assert(b@.skip(end as int) =~= tail);
                }
                if ok {
                    assert(b@.subrange(pos as int, end as int) =~= rest@.subrange(0, n as int));
                    assert(b@.subrange(end as int, end + lit@.len()) =~= b@.skip(
                        end as int,
                    ).subrange(0, lit@.len() as int));
                }
            }
            if ok {
                Some((s, end + lit.len()))
            } else {
                None
            }
        },
        None => {
            proof {
                assert forall|s2: Seq<char>, tail: Seq<u8>|
                    b@.skip(pos as int) == #[trigger] (json_text(s2) + tail) && starts_with(
                        tail,
                        lit@,
                    ) implies false by {
                    assert(rest@ == json_text(s2) + tail);
                }
            }
            None
        },
    }
}

/// The fields of a `Put` record whose head starts at offset `start` of `b`.
#[verifier::rlimit(60)]
#[verifier::spinoff_prover]
fn decode_put(b: &[u8], start: usize) -> (r: Option<(Cmd, usize)>)
    requires
        start <= b@.len(),
        starts_with(b@.skip(start as int), set_head()),
    ensures
        r is None <==> parse_cmd(b@.skip(start as int)) is None,
        r matches Some((c, e)) ==> {
            &&& parse_cmd(b@.skip(start as int)) == Some((c@, (e - start) as nat))
            &&& start < e <= b@.len()
            &&& robust_cmd(b@.subrange(start as int, e as int), c@)
        },
        forall|c: CmdModel, rest: Seq<u8>|
            b@.skip(start as int) == #[trigger] (enc_cmd(c) + rest) ==> (r matches Some((x, e))
                && x@ == c && e == start + enc_cmd(c).len()),
{
    let b0 = Ghost(b@.skip(start as int));
    let blen = b.len();
    let at1 = start + 14;
    assert(b0@.skip(14) =~= b@.skip(at1 as int));
    proof {
        assert forall|c: CmdModel, rest: Seq<u8>|
            b0@ == #[trigger] (enc_cmd(c) + rest) implies c is Put by {
            if c is Remove {
                assert(b0@.subrange(0, 14)[2] == (enc_cmd(c) + rest)[2]);
            }
        }
    }
    let first = read_string_then(b, at1, value_sep_bytes().as_slice());
    proof {
        assert forall|c: CmdModel, rest: Seq<u8>|
            b0@ == #[trigger] (enc_cmd(c) + rest) implies (first matches Some((x, e)) && x@
                == c->Put_key && e == at1 + json_text(c->Put_key).len() + 9) by {
            let k = c->Put_key;
            let v = c->Put_value;
            let tail1 = value_sep() + json_text(v) + close2() + rest;
            assert(b@.skip(at1 as int) =~= json_text(k) + tail1);
            assert(tail1.subrange(0, 9) =~= value_sep());
        }
    }
    match first {
        Some((key, at2)) => {
            assert(b0@.skip(14).skip((at2 - at1) as int) =~= b@.skip(at2 as int));
            let second = read_string_then(b, at2, close2_bytes().as_slice());
            proof {
                assert forall|c: CmdModel, rest: Seq<u8>|
                    b0@ == #[trigger] (enc_cmd(c) + rest) implies (second matches Some((x, e))
                        && x@ == c->Put_value && e == start + enc_cmd(c).len()) by {
                    let v = c->Put_value;
                    let tail2 = close2() + rest;
                    assert(b@.skip(at2 as int) =~= json_text(v) + tail2) by {
                        assert(b0@ =~= set_head() + json_text(c->Put_key) + (value_sep()
                            + json_text(v) + tail2));
                    }
                    assert(tail2.subrange(0, 2) =~= close2());
                }
            }
            match second {
                Some((value, at3)) => {
                    proof {
                        let t1 = b@.subrange(at1 as int, at2 - 9);
                        let t2 = b@.subrange(at2 as int, at3 - 2);
                        lemma_set_robust(t1, t2, key@, value@);
                        assert(b@.subrange(start as int, at3 as int) =~= set_head() + t1
                            + value_sep() + t2 + close2()) by {
                            assert(b@.subrange(start as int, at1 as int) =~= b0@.subrange(0, 14));
                        }
                    }
                    Some((Cmd::Put { key, value }, at3))
                },
                None => None,
            }
        },
        None => None,
    }
}

/// The key of a `Remove` record whose head starts at offset `start` of `b`.
fn decode_remove(b: &[u8], start: usize) -> (r: Option<(Cmd, usize)>)
    requires
        start <= b@.len(),
        starts_with(b@.skip(start as int), remove_head()),
        !starts_with(b@.skip(start as int), set_head()),
    ensures
        r is None <==> parse_cmd(b@.skip(start as int)) is None,
        r matches Some((c, e)) ==> {
            &&& parse_cmd(b@.skip(start as int)) == Some((c@, (e - start) as nat))
            &&& start < e <= b@.len()
            &&& robust_cmd(b@.subrange(start as int, e as int), c@)
        },
        forall|c: CmdModel, rest: Seq<u8>|
            b@.skip(start as int) == #[trigger] (enc_cmd(c) + rest) ==> (r matches Some((x, e))
                && x@ == c && e == start + enc_cmd(c).len()),
{
    let b0 = Ghost(b@.skip(start as int));
    let blen = b.len();
    let at1 = start + 17;
    assert(b0@.skip(17) =~= b@.skip(at1 as int));
    let first = read_string_then(b, at1, close2_bytes().as_slice());
    proof {
        assert forall|c: CmdModel, rest: Seq<u8>|
            b0@ == #[trigger] (enc_cmd(c) + rest) implies (first matches Some((x, e)) && c
                == CmdModel::Remove { key: x@ } && e == start + enc_cmd(c).len()) by {
            if c is Put {
                assert((enc_cmd(c) + rest).subrange(0, 14) =~= set_head());
            } else {
                let k = c->Remove_key;
                let tail = close2() + rest;
                assert(b@.skip(at1 as int) =~= json_text(k) + tail);
                assert(tail.subrange(0, 2) =~= close2());
            }
        }
    }
    match first {
        Some((key, at2)) => {
            proof {
                let t = b@.subrange(at1 as int, at2 - 2);
                lemma_remove_robust(t, key@);
                assert(b@.subrange(start as int, at2 as int) =~= remove_head() + t + close2()) by {
                    assert(b@.subrange(start as int, at1 as int) =~= b0@.subrange(0, 17));
                }
            }
            Some((Cmd::Remove { key }, at2))
        },
        None => None,
    }
}

/// Reads the record that starts at offset `start` of `b`: the record and the offset
/// just past it, or `None` when no record starts there. The bytes that
/// [`encode_cmd`] wrote for a record are read back as that record, whatever follows
/// them.
pub fn decode_cmd(b: &[u8], start: usize) -> (r: Option<(Cmd, usize)>)
    requires
        start <= b@.len(),
    ensures
        r is None <==> parse_cmd(b@.skip(start as int)) is None,
        r matches Some((c, e)) ==> {
            &&& parse_cmd(b@.skip(start as int)) == Some((c@, (e - start) as nat))
            &&& start < e <= b@.len()
            &&& robust_cmd(b@.subrange(start as int, e as int), c@)
        },
        forall|c: CmdModel, rest: Seq<u8>|
            b@.skip(start as int) == #[trigger] (enc_cmd(c) + rest) ==> (r matches Some((x, e))
                && x@ == c && e == start + enc_cmd(c).len()),
{
    let b0 = Ghost(b@.skip(start as int));
    if has_lit_at(b, start, set_head_bytes().as_slice()) {
        decode_put(b, start)
    } else if has_lit_at(b, start, remove_head_bytes().as_slice()) {
        decode_remove(b, start)
    } else {
        proof {
            assert forall|c: CmdModel, rest: Seq<u8>|
                b0@ == #[trigger] (enc_cmd(c) + rest) implies false by {
                if c is Put {
                    assert((enc_cmd(c) + rest).subrange(0, 14) =~= set_head());
                } else {
                    assert((enc_cmd(c) + rest).subrange(0, 17) =~= remove_head());
                }
            }
        }
        None
    }
}

pub open spec fn recs_view(v: Seq<(Cmd, usize)>) -> Seq<(CmdModel, nat)> {
    v.map_values(|x: (Cmd, usize)| (x.0@, x.1 as nat))
}

/// Where the `i`-th record of a decoded log starts: where the one before it ends.
pub open spec fn start_of(v: Seq<(Cmd, usize)>, i: int) -> int {
    if i == 0 {
        0
    } else {
        v[i - 1].1 as int
    }
}

/// The records of a decoded log lie back to back from offset 0 to the end of `b`,
/// and each is read as the same record whatever follows it.
pub open spec fn tiles(b: Seq<u8>, v: Seq<(Cmd, usize)>) -> bool {
    &&& forall|i: int|
        0 <= i < v.len() ==> start_of(v, i) < #[trigger] v[i].1 <= b.len() && robust_cmd(
            b.subrange(start_of(v, i), v[i].1 as int),
            v[i].0@,
        )
    &&& (v.len() == 0 ==> b.len() == 0)
    &&& (v.len() > 0 ==> v.last().1 == b.len())
}

proof fn lemma_enc_cmd_nonempty(c: CmdModel)
    ensures
        enc_cmd(c).len() > 0,
{
}

proof fn lemma_enc_all_step(cs: Seq<CmdModel>, j: int)
    requires
        0 <= j < cs.len(),
    ensures
        enc_all(cs.skip(j)) == enc_cmd(cs[j]) + enc_all(cs.skip(j + 1)),
{
    assert(cs.skip(j).drop_first() =~= cs.skip(j + 1));
}

/// Every list of records whose bytes make up `b` begins with the records of `out`,
/// and the rest of it makes up `b` from `pos` on.
#[verifier::opaque]
pub open spec fn agrees_so_far(b: Seq<u8>, out: Seq<(Cmd, usize)>, pos: int) -> bool {
    forall|cs: Seq<CmdModel>|
        b == #[trigger] enc_all(cs) ==> out.len() <= cs.len() && first_of(recs_view(out))
            == cs.take(out.len() as int) && b.skip(pos) == enc_all(cs.skip(out.len() as int))
}

/// Any record whose bytes begin `b` at `pos` is `c`, and ends at `e`.
pub open spec fn only_record_at(b: Seq<u8>, pos: int, c: CmdModel, e: int) -> bool {
    forall|c2: CmdModel, rest: Seq<u8>|
        b.skip(pos) == #[trigger] (enc_cmd(c2) + rest) ==> c2 == c && e == pos + enc_cmd(c2).len()
}

/// No record's bytes begin `b` at `pos`.
pub open spec fn no_record_at(b: Seq<u8>, pos: int) -> bool {
    forall|c2: CmdModel, rest: Seq<u8>| b.skip(pos) == #[trigger] (enc_cmd(c2) + rest) ==> false
}

proof fn lemma_agrees_start(b: Seq<u8>)
    ensures
        agrees_so_far(b, Seq::empty(), 0),
{
    reveal(agrees_so_far);
    assert forall|cs: Seq<CmdModel>| b == #[trigger] enc_all(cs) implies first_of(
        recs_view(Seq::<(Cmd, usize)>::empty()),
    ) == cs.take(0) && b.skip(0) == enc_all(cs.skip(0)) by {
        assert(cs.skip(0) =~= cs);
        assert(b.skip(0) =~= b);
        assert(first_of(recs_view(Seq::<(Cmd, usize)>::empty())) =~= cs.take(0));
    }
}

proof fn lemma_agrees_step(b: Seq<u8>, out: Seq<(Cmd, usize)>, pos: int, c: Cmd, e: usize)
    requires
        agrees_so_far(b, out, pos),
        only_record_at(b, pos, c@, e as int),
        0 <= pos < e <= b.len(),
    ensures
        agrees_so_far(b, out.push((c, e)), e as int),
{
    reveal(agrees_so_far);
    let out2 = out.push((c, e));
    assert forall|cs: Seq<CmdModel>| b == #[trigger] enc_all(cs) implies out2.len() <= cs.len()
        && first_of(recs_view(out2)) == cs.take(out2.len() as int) && b.skip(e as int) == enc_all(
        cs.skip(out2.len() as int),
    ) by {
        let j = out.len() as int;
        lemma_more_records(b, cs, j, pos);
        lemma_enc_all_step(cs, j);
        let x = enc_cmd(cs[j]);
        assert(b.skip(pos) == x + enc_all(cs.skip(j + 1)));
        assert(b.skip(e as int) =~= (x + enc_all(cs.skip(j + 1))).skip(x.len() as int));
        assert(b.skip(e as int) =~= enc_all(cs.skip(j + 1)));
        assert(first_of(recs_view(out2)) =~= first_of(recs_view(out)) + seq![c@]);
        assert(cs.take(j + 1) =~= cs.take(j) + seq![cs[j]]);
    }
}

/// Bytes left over mean records left over.
proof fn lemma_more_records(b: Seq<u8>, cs: Seq<CmdModel>, j: int, pos: int)
    requires
        0 <= j <= cs.len(),
        0 <= pos < b.len(),
        b.skip(pos) == enc_all(cs.skip(j)),
    ensures
        j < cs.len(),
{
    if j == cs.len() {
        assert(cs.skip(j) =~= Seq::<CmdModel>::empty());
        assert(enc_all(cs.skip(j)).len() == 0);
    }
}

proof fn lemma_agrees_none(b: Seq<u8>, out: Seq<(Cmd, usize)>, pos: int)
    requires
        agrees_so_far(b, out, pos),
        no_record_at(b, pos),
        0 <= pos < b.len(),
    ensures
        forall|cs: Seq<CmdModel>| b != #[trigger] enc_all(cs),
{
    reveal(agrees_so_far);
    assert forall|cs: Seq<CmdModel>| b != #[trigger] enc_all(cs) by {
        if b == enc_all(cs) {
            let j = out.len() as int;
            lemma_more_records(b, cs, j, pos);
            lemma_enc_all_step(cs, j);
            assert(b.skip(pos) == enc_cmd(cs[j]) + enc_all(cs.skip(j + 1)));
        }
    }
}

proof fn lemma_agrees_end(b: Seq<u8>, out: Seq<(Cmd, usize)>, pos: int)
    requires
        agrees_so_far(b, out, pos),
        pos == b.len(),
    ensures
        forall|cs: Seq<CmdModel>| b == #[trigger] enc_all(cs) ==> first_of(recs_view(out)) == cs,
{
    reveal(agrees_so_far);
    assert forall|cs: Seq<CmdModel>| b == #[trigger] enc_all(cs) implies first_of(
        recs_view(out),
    ) == cs by {
        if out.len() < cs.len() {
            lemma_enc_all_step(cs, out.len() as int);
            lemma_enc_cmd_nonempty(cs[out.len() as int]);
            assert(b.skip(pos).len() == 0);
        }
        assert(cs.take(cs.len() as int) =~= cs);
    }
}

proof fn lemma_parse_step(b: Seq<u8>, pos: nat, c: CmdModel, e: nat)
    requires
        pos < e <= b.len(),
        parse_cmd(b.skip(pos as int)) == Some((c, (e - pos) as nat)),
    ensures
        parse_from(b, pos) is Some <==> parse_from(b, e) is Some,
        parse_from(b, e) is Some ==> parse_from(b, pos)->Some_0 == seq![(c, e)] + parse_from(
            b,
            e,
        )->Some_0,
{
}

proof fn lemma_tiles_step(b: Seq<u8>, out: Seq<(Cmd, usize)>, pos: int, c: Cmd, e: usize)
    requires
        forall|i: int|
            0 <= i < out.len() ==> start_of(out, i) < #[trigger] out[i].1 <= pos && robust_cmd(
                b.subrange(start_of(out, i), out[i].1 as int),
                out[i].0@,
            ),
        out.len() == 0 ==> pos == 0,
        out.len() > 0 ==> out.last().1 == pos,
        pos < e,
        robust_cmd(b.subrange(pos, e as int), c@),
    ensures
        ({
            let out2 = out.push((c, e));
            forall|i: int|
                0 <= i < out2.len() ==> start_of(out2, i) < #[trigger] out2[i].1 <= e
                    && robust_cmd(b.subrange(start_of(out2, i), out2[i].1 as int), out2[i].0@)
        }),
{
    let out2 = out.push((c, e));
    assert forall|i: int| 0 <= i < out2.len() implies start_of(out2, i) < #[trigger] out2[i].1
        <= e && robust_cmd(b.subrange(start_of(out2, i), out2[i].1 as int), out2[i].0@) by {
        if i < out.len() {
            assert(out2[i] == out[i]);
            assert(start_of(out2, i) == start_of(out, i));
        }
    }
}

/// Reads a whole log: each record with the offset just past it, or `None` when the
/// bytes are not a whole number of records (a record cut short included). Records
/// written one after another by [`encode_cmd`] are read back in order.
pub fn decode_all(b: &[u8]) -> (r: Option<Vec<(Cmd, usize)>>)
    ensures
        r is None <==> parse_from(b@, 0) is None,
        r matches Some(v) ==> parse_from(b@, 0) == Some(recs_view(v@)) && tiles(b@, v@),
        forall|cs: Seq<CmdModel>|
            b@ == #[trigger] enc_all(cs) ==> (r matches Some(v) && first_of(recs_view(v@))
                == cs),
{
    let mut out: Vec<(Cmd, usize)> = Vec::new();
    let mut pos: usize = 0;
    proof {
        lemma_agrees_start(b@);
    }
    while pos < b.len()
        invariant
            pos <= b@.len(),
            parse_from(b@, 0) is Some <==> parse_from(b@, pos as nat) is Some,
            parse_from(b@, pos as nat) is Some ==> parse_from(b@, 0)->Some_0 == recs_view(out@)
                + parse_from(b@, pos as nat)->Some_0,
            forall|i: int|
                0 <= i < out@.len() ==> start_of(out@, i) < #[trigger] out@[i].1 <= pos
                    && robust_cmd(b@.subrange(start_of(out@, i), out@[i].1 as int), out@[i].0@),
            out@.len() == 0 ==> pos == 0,
            out@.len() > 0 ==> out@.last().1 == pos,
            agrees_so_far(b@, out@, pos as int),
        decreases b@.len() - pos,
    {
        match decode_cmd(b, pos) {
            Some((c, e)) => {
                proof {
                    assert(only_record_at(b@, pos as int, c@, e as int));
                    lemma_agrees_step(b@, out@, pos as int, c, e);
                    lemma_tiles_step(b@, out@, pos as int, c, e);
                    lemma_parse_step(b@, pos as nat, c@, e as nat);
                    if parse_from(b@, e as nat) is Some {
                        assert(recs_view(out@) + (seq![(c@, e as nat)] + parse_from(
                            b@,
                            e as nat,
                        )->Some_0) =~= recs_view(out@.push((c, e))) + parse_from(
                            b@,
                            e as nat,
                        )->Some_0);
                    }
                }
                out.push((c, e));
                pos = e;
            },
            None => {
                proof {
                    assert(no_record_at(b@, pos as int));
                    lemma_agrees_none(b@, out@, pos as int);
                }
                return None;
            },
        }
    }
    proof {
        lemma_agrees_end(b@, out@, pos as int);
        assert(recs_view(out@) + Seq::<(CmdModel, nat)>::empty() =~= recs_view(out@));
    }
    Some(out)
}

} // verus!
