//! The layout of a store directory: log files are named `<id>.log`, with `<id>` in
//! decimal digits.
use vstd::prelude::*;
use vstd::string::StringSliceAdditionalSpecFns;
use vstd::utf8::encode_utf8;

verus! {

/// `.log`
pub open spec fn log_suffix() -> Seq<u8> {
    seq![46u8, 108, 111, 103]
}

pub open spec fn is_digit(b: u8) -> bool {
    48 <= b <= 57
}

/// The number that a run of decimal digits spells.
pub open spec fn digits_value(b: Seq<u8>) -> nat
    decreases b.len(),
{
    if b.len() == 0 {
        0
    } else {
        digits_value(b.drop_last()) * 10 + (b.last() - 48) as nat
    }
}

/// The decimal digits of `n`, without leading zeros.
pub open spec fn decimal(n: nat) -> Seq<u8>
    decreases n,
{
    if n < 10 {
        seq![(n + 48) as u8]
    } else {
        decimal(n / 10).push((n % 10 + 48) as u8)
    }
}

/// The id of a log file from the bytes of its name: one or more decimal digits that
/// fit in a `u64`, then `.log`. `None` for any other name.
pub open spec fn log_id_spec(name: Seq<u8>) -> Option<u64> {
    let n = name.len() as int;
    let stem = name.take(n - 4);
    if n > 4 && name.skip(n - 4) == log_suffix() && (forall|i: int|
        0 <= i < n - 4 ==> is_digit(#[trigger] name[i])) && digits_value(stem) <= u64::MAX {
        Some(digits_value(stem) as u64)
    } else {
        None
    }
}

/// The ids that a list of file names holds, in the order of the names.
pub open spec fn ids_of(names: Seq<Seq<u8>>) -> Seq<u64> {
    names.filter_map(|n: Seq<u8>| log_id_spec(n))
}

pub open spec fn sorted(s: Seq<u64>) -> bool {
    forall|i: int, j: int| 0 <= i < j < s.len() ==> s[i] <= s[j]
}

proof fn lemma_digits_grow(b: Seq<u8>, i: int, j: int)
    requires
        0 <= i <= j <= b.len(),
        forall|t: int| 0 <= t < b.len() ==> is_digit(#[trigger] b[t]),
    ensures
        digits_value(b.take(i)) <= digits_value(b.take(j)),
    decreases j - i,
{
    if i < j {
        lemma_digits_grow(b, i, j - 1);
        assert(b.take(j).drop_last() =~= b.take(j - 1));
        assert(digits_value(b.take(j - 1)) <= digits_value(b.take(j - 1)) * 10) by (nonlinear_arith);
    }
}

/// The id of the log file named `name`, or `None` when the name is not `<digits>.log`
/// or the number does not fit in a `u64`.
pub fn log_id_of(name: &str) -> (r: Option<u64>)
    ensures
        r == log_id_spec(encode_utf8(name@)),
{
    let b = name.as_bytes();
    assert(b@ == encode_utf8(name@));
    let n = b.len();
    if n <= 4 || b[n - 4] != 46 || b[n - 3] != 108 || b[n - 2] != 111 || b[n - 1] != 103 {
        proof {
            if n > 4 {
                assert(b@.skip(n - 4)[0] == b@[n - 4]);
                assert(b@.skip(n - 4)[1] == b@[n - 3]);
                assert(b@.skip(n - 4)[2] == b@[n - 2]);
                assert(b@.skip(n - 4)[3] == b@[n - 1]);
            }
        }
        return None;
    }
    assert(b@.skip(n - 4) =~= log_suffix());
    let stem_len = n - 4;
    let ghost stem = b@.take(stem_len as int);
    let mut value: u64 = 0;
    let mut i: usize = 0;
    while i < stem_len
        invariant
            i <= stem_len,
            b@ == encode_utf8(name@),
            b@.len() > 4,
            b@.skip(b@.len() - 4) == log_suffix(),
            stem_len == b@.len() - 4,
            stem == b@.take(stem_len as int),
            forall|t: int| 0 <= t < i ==> is_digit(#[trigger] b@[t]),
            value == digits_value(stem.take(i as int)),
        decreases stem_len - i,
    {
        let c = b[i];
        if c < 48 || c > 57 {
            proof {
                assert(!is_digit(b@[i as int]));
            }
            return None;
        }
        assert(is_digit(b@[i as int]));
        assert(stem.take(i + 1).drop_last() =~= stem.take(i as int));
        assert(stem[i as int] == c);
        let d = (c - 48) as u64;
        match value.checked_mul(10) {
            Some(m) => match m.checked_add(d) {
                Some(v) => {
                    value = v;
                },
                None => {
                    proof {
                        assert(digits_value(stem.take(i + 1)) == value * 10 + d);
                        lemma_stem_overflow(b@, stem_len as int, i as int + 1);
                    }
                    return None;
                },
            },
            None => {
                proof {
                    assert(digits_value(stem.take(i + 1)) == value * 10 + d);
                    lemma_stem_overflow(b@, stem_len as int, i as int + 1);
                }
                return None;
            },
        }
        i = i + 1;
    }
    assert(stem.take(stem_len as int) =~= stem);
    Some(value)
}

/// When a prefix of the digits already spells more than `u64::MAX`, the name is no
/// log file's.
proof fn lemma_stem_overflow(b: Seq<u8>, stem_len: int, i: int)
    requires
        stem_len == b.len() - 4,
        0 < i <= stem_len,
        digits_value(b.take(stem_len).take(i)) > u64::MAX,
        forall|t: int| 0 <= t < i ==> is_digit(#[trigger] b[t]),
    ensures
        log_id_spec(b) is None,
{
    let stem = b.take(stem_len);
    if log_id_spec(b) is Some {
        assert forall|t: int| 0 <= t < stem.len() implies is_digit(#[trigger] stem[t]) by {
            assert(is_digit(b[t]));
        }
        lemma_digits_grow(stem, i, stem_len);
        assert(stem.take(stem_len) =~= stem);
    }
}

/// Relies on `slice::sort_unstable`: the same ids, in ascending order.
#[verifier::external_body]
fn sort_ids(v: &mut Vec<u64>)
    ensures
        final(v)@.to_multiset() == old(v)@.to_multiset(),
        sorted(final(v)@),
{
    v.sort_unstable();
}

/// The ids of the log files among `names`, in ascending order.
pub fn sorted_file_list(names: &Vec<String>) -> (r: Vec<u64>)
    ensures
        sorted(r@),
        r@.to_multiset() == ids_of(names@.map_values(|n: String| encode_utf8(n@))).to_multiset(),
{
    let ghost nb = names@.map_values(|n: String| encode_utf8(n@));
    let mut ids: Vec<u64> = Vec::new();
    let mut i: usize = 0;
    while i < names.len()
        invariant
            i <= names@.len(),
            nb == names@.map_values(|n: String| encode_utf8(n@)),
            ids@ == ids_of(nb.take(i as int)),
        decreases names@.len() - i,
    {
        let id = log_id_of(names[i].as_str());
        proof {
            assert(nb.take(i + 1).drop_last() =~= nb.take(i as int));
            assert(nb.take(i + 1).last() == encode_utf8(names@[i as int]@));
        }
        if let Some(id) = id {
            ids.push(id);
        }
        i = i + 1;
    }
    assert(nb.take(names@.len() as int) =~= nb);
    sort_ids(&mut ids);
    ids
}

/// The decimal digits of `n`.
fn decimal_bytes(n: u64) -> (r: Vec<u8>)
    ensures
        r@ == decimal(n as nat),
    decreases n,
{
    if n < 10 {
        let r: Vec<u8> = vec![(n as u8) + 48];
        assert(r@ =~= decimal(n as nat));
        r
    } else {
        let mut r = decimal_bytes(n / 10);
        r.push(((n % 10) as u8) + 48);
        r
    }
}

/// Relies on `String::from_utf8`: ASCII bytes are valid UTF-8, one character each.
#[verifier::external_body]
fn ascii_text(b: Vec<u8>) -> (r: String)
    requires
        forall|i: int| 0 <= i < b@.len() ==> b@[i] < 128,
    ensures
        r@ == b@.map_values(|x: u8| x as char),
{
    String::from_utf8(b).unwrap_or_default()
}

/// The name of the log file with id `file_id`: its decimal digits, then `.log`.
pub fn to_log_file(file_id: u64) -> (r: String)
    ensures
        r@ == (decimal(file_id as nat) + log_suffix()).map_values(|x: u8| x as char),
{
    let mut b = decimal_bytes(file_id);
    b.push(46);
    b.push(108);
    b.push(111);
    b.push(103);
    assert(b@ =~= decimal(file_id as nat) + log_suffix());
    proof {
        lemma_decimal_digits(file_id as nat);
    }
    ascii_text(b)
}

proof fn lemma_decimal_digits(n: nat)
    ensures
        forall|i: int| 0 <= i < decimal(n).len() ==> is_digit(#[trigger] decimal(n)[i]),
    decreases n,
{
    if n >= 10 {
        lemma_decimal_digits(n / 10);
        let d = decimal(n / 10);
        assert forall|i: int| 0 <= i < decimal(n).len() implies is_digit(#[trigger] decimal(n)[i]) by {
            if i < d.len() {
                assert(decimal(n)[i] == d[i]);
            }
        }
    }
}

/// The ids among `ids` that lie below `check_point`: the files that a compaction
/// has made stale, and whose open handles readers drop.
pub fn stale_logs(ids: &Vec<u64>, check_point: u64) -> (r: Vec<u64>)
    ensures
        r@ == ids@.filter(|x: u64| x < check_point),
{
    let mut out: Vec<u64> = Vec::new();
    let mut i: usize = 0;
    while i < ids.len()
        invariant
            i <= ids@.len(),
            out@ == ids@.take(i as int).filter(|x: u64| x < check_point),
        decreases ids@.len() - i,
    {
        proof {
            reveal(Seq::filter);
            assert(ids@.take(i + 1).drop_last() =~= ids@.take(i as int));
        }
        if ids[i] < check_point {
            out.push(ids[i]);
        }
        i = i + 1;
    }
    assert(ids@.take(ids@.len() as int) =~= ids@);
    out
}

} // verus!
