use vstd::prelude::*;
use crate::value::{
    BDecodedChunk, BValue, BencodeError, model, model_items, model_pairs,
    lemma_model_items_push, lemma_model_pairs_push, lemma_model_pairs_index,
};
use crate::grammar::{
    Decoded, spec_decode_int, spec_decode_str, spec_decode_list, spec_decode_dict,
    spec_decode_items, spec_decode_pairs, spec_decode_value, has_key,
    is_digit_byte, digit_val, digits_end, digits_val,
    lemma_digits_end_is, lemma_digits_val_grows, lemma_digits_val_step, lemma_accum_step_bound,
    TAG_INT, TAG_LIST, TAG_DICT, TAG_END, MINUS, COLON, DIGIT_ZERO, DIGIT_NINE,
};

verus! {

/// Scan the digit run starting at `d0` and return the position of the first
/// non-digit byte (or the end of the input).
#[verifier::loop_isolation(false)]
fn scan_digits(s: &Vec<u8>, d0: usize) -> (de: usize)
    requires
        d0 <= s.len(),
    ensures
        d0 <= de <= s.len(),
        digits_end(s@, d0 as int) == de as int,
        forall|q: int| d0 <= q < de ==> is_digit_byte(s@[q]),
        de == s.len() || !is_digit_byte(s@[de as int]),
{
    let mut de = d0;
    while de < s.len() && DIGIT_ZERO <= s[de] && s[de] <= DIGIT_NINE
        invariant
            d0 <= de <= s.len(),
            forall|q: int| d0 <= q < de ==> is_digit_byte(s@[q]),
        decreases s.len() - de,
    {
        de = de + 1;
    }
    proof {
        lemma_digits_end_is(s@, d0 as int, de as int);
    }
    de
}

/// Integer routine: consumes `i` ... `e` starting at position `i` and returns
/// the signed value. Exactly the outcome `spec_decode_int` gives: the leading
/// tag must be `i` (else `TypeMismatch`), the literal must be one or more
/// digits with an optional `-`, no superfluous leading zero and no `-0`
/// (else `Malformed`), the terminator must be present (else `UnexpectedEnd`),
/// and the value must fit in `i64` (else `Overflow`).
#[verifier::loop_isolation(false)]
pub fn decode_int(s: &Vec<u8>, i: usize) -> (res: (Result<i64, BencodeError>, usize))
    requires
        i <= s.len(),
    ensures
        match res.0 {
            Ok(n) => spec_decode_int(s@, i as int) == Decoded::Found(BValue::Int(n), res.1 as int)
                && i < res.1 <= s.len(),
            Err(e) => spec_decode_int(s@, i as int) == Decoded::<BValue>::Fail(e),
        },
{
    if i >= s.len() {
        return (Err(BencodeError::UnexpectedEnd), i);
    }
    if s[i] != TAG_INT {
        return (Err(BencodeError::TypeMismatch), i);
    }
    let neg = i + 1 < s.len() && s[i + 1] == MINUS;
    let ds = if neg { i + 2 } else { i + 1 };
    let de = scan_digits(s, ds);
    if de >= s.len() {
        return (Err(BencodeError::UnexpectedEnd), i);
    }
    if s[de] != TAG_END {
        return (Err(BencodeError::Malformed), i);
    }
    if de == ds {
        return (Err(BencodeError::Malformed), i);
    }
    if s[ds] == DIGIT_ZERO && de > ds + 1 {
        return (Err(BencodeError::Malformed), i);
    }
    if neg && s[ds] == DIGIT_ZERO {
        return (Err(BencodeError::Malformed), i);
    }
    let bound: u64 = if neg { 0x8000_0000_0000_0000 } else { 0x7fff_ffff_ffff_ffff };
    let ghost total = digits_val(s@.subrange(ds as int, de as int));
    let mut m: u64 = 0;
    let mut k = ds;
    while k < de
        invariant
            ds <= k <= de <= s.len(),
            i < ds,
            forall|q: int| ds <= q < de ==> is_digit_byte(s@[q]),
            m == digits_val(s@.subrange(ds as int, k as int)),
            m <= bound,
            bound == if neg { 0x8000_0000_0000_0000u64 } else { 0x7fff_ffff_ffff_ffffu64 },
            total == digits_val(s@.subrange(ds as int, de as int)),
        decreases de - k,
    {
        let d = s[k] - DIGIT_ZERO;
        proof {
            lemma_digits_val_step(s@, ds as int, k as int);
            lemma_accum_step_bound(m as int, d as int, bound as int);
        }
        if m > (bound - d as u64) / 10 {
            proof {
                lemma_digits_val_grows(s@, ds as int, k as int + 1, de as int);
            }
            return (Err(BencodeError::Overflow), i);
        }
        m = m * 10 + d as u64;
        k = k + 1;
    }
    if neg {
        let n: i64 = if m == 0x8000_0000_0000_0000 {
            i64::MIN
        } else {
            -(m as i64)
        };
        (Ok(n), de + 1)
    } else {
        (Ok(m as i64), de + 1)
    }
}

/// Byte-string routine: consumes the decimal length, `:` and the raw bytes
/// starting at position `i`, exactly as `spec_decode_str` says: the first
/// byte must be a digit (else `TypeMismatch`), the length must be followed
/// by `:` (else `Malformed`), and the claimed number of bytes must be present
/// (else `UnexpectedEnd`).
#[verifier::loop_isolation(false)]
pub fn decode_string(s: &Vec<u8>, i: usize) -> (res: (Result<Vec<u8>, BencodeError>, usize))
    requires
        i <= s.len(),
    ensures
        match res.0 {
            Ok(b) => spec_decode_str(s@, i as int) == Decoded::Found(b@, res.1 as int)
                && i < res.1 <= s.len(),
            Err(e) => spec_decode_str(s@, i as int) == Decoded::<Seq<u8>>::Fail(e),
        },
{
    if i >= s.len() {
        return (Err(BencodeError::UnexpectedEnd), i);
    }
    if !(DIGIT_ZERO <= s[i] && s[i] <= DIGIT_NINE) {
        return (Err(BencodeError::TypeMismatch), i);
    }
    let de = scan_digits(s, i);
    if de >= s.len() {
        return (Err(BencodeError::UnexpectedEnd), i);
    }
    if s[de] != COLON {
        return (Err(BencodeError::Malformed), i);
    }
    let ghost total = digits_val(s@.subrange(i as int, de as int));
    let mut n: usize = 0;
    let mut k = i;
    while k < de
        invariant
            i <= k <= de <= s.len(),
            forall|q: int| i <= q < de ==> is_digit_byte(s@[q]),
            n == digits_val(s@.subrange(i as int, k as int)),
            total == digits_val(s@.subrange(i as int, de as int)),
        decreases de - k,
    {
        let d = s[k] - DIGIT_ZERO;
        proof {
            lemma_digits_val_step(s@, i as int, k as int);
            lemma_accum_step_bound(n as int, d as int, usize::MAX as int);
        }
        if n > (usize::MAX - d as usize) / 10 {
            // The claimed length alone exceeds the address space, so it
            // certainly exceeds what is left of the input.
            proof {
                lemma_digits_val_grows(s@, i as int, k as int + 1, de as int);
            }
            return (Err(BencodeError::UnexpectedEnd), i);
        }
        n = n * 10 + d as usize;
        k = k + 1;
    }
    if n > s.len() - (de + 1) {
        return (Err(BencodeError::UnexpectedEnd), i);
    }
    let mut out: Vec<u8> = Vec::new();
    let mut p = de + 1;
    while p < de + 1 + n
        invariant
            de + 1 <= p <= de + 1 + n <= s.len(),
            out@ =~= s@.subrange(de as int + 1, p as int),
        decreases de + 1 + n - p,
    {
        out.push(s[p]);
        p = p + 1;
    }
    (Ok(out), de + 1 + n)
}

/// Byte-for-byte equality of two byte vectors.
fn bytes_eq(a: &Vec<u8>, b: &Vec<u8>) -> (r: bool)
    ensures
        r == (a@ == b@),
{
    if a.len() != b.len() {
        return false;
    }
    let mut q: usize = 0;
    while q < a.len()
        invariant
            q <= a.len(),
            a.len() == b.len(),
            forall|t: int| 0 <= t < q ==> a@[t] == b@[t],
        decreases a.len() - q,
    {
        if a[q] != b[q] {
            return false;
        }
        q = q + 1;
    }
    proof {
        assert(a@ =~= b@);
    }
    true
}

/// Does the dictionary built so far already hold the key `k`?
#[verifier::loop_isolation(false)]
fn find_key(ps: &Vec<(Vec<u8>, BDecodedChunk)>, k: &Vec<u8>) -> (r: bool)
    ensures
        r == has_key(model_pairs(ps@, 0), k@),
{
    proof {
        lemma_model_pairs_index(ps@, 0);
    }
    let mut q: usize = 0;
    while q < ps.len()
        invariant
            q <= ps.len(),
            forall|t: int| 0 <= t < q ==> ps@[t].0@ != k@,
        decreases ps.len() - q,
    {
        if bytes_eq(&ps[q].0, k) {
            assert(model_pairs(ps@, 0)[q as int].0 == k@);
            return true;
        }
        q = q + 1;
    }
    assert forall|idx: int| 0 <= idx < model_pairs(ps@, 0).len()
        implies model_pairs(ps@, 0)[idx].0 != k@ by {}
    false
}

/// List routine: consumes `l`, the elements, and the closing `e`, exactly as
/// `spec_decode_list` says. Elements keep their input order.
#[verifier::loop_isolation(false)]
pub fn decode_list(s: &Vec<u8>, i: usize) -> (res: (Result<Vec<BDecodedChunk>, BencodeError>, usize))
    requires
        i <= s.len(),
    ensures
        match res.0 {
            Ok(l) => spec_decode_list(s@, i as int)
                == Decoded::Found(BValue::List(model_items(l@, 0)), res.1 as int)
                && i < res.1 <= s.len(),
            Err(e) => spec_decode_list(s@, i as int) == Decoded::<BValue>::Fail(e),
        },
    decreases s.len() - i, 0int,
{
    if i >= s.len() {
        return (Err(BencodeError::UnexpectedEnd), i);
    }
    if s[i] != TAG_LIST {
        return (Err(BencodeError::TypeMismatch), i);
    }
    let mut items: Vec<BDecodedChunk> = Vec::new();
    let mut cur = i + 1;
    loop
        invariant
            i < cur <= s.len(),
            spec_decode_items(s@, i as int + 1, Seq::empty())
                == spec_decode_items(s@, cur as int, model_items(items@, 0)),
        decreases s.len() - cur,
    {
        if cur >= s.len() {
            return (Err(BencodeError::UnexpectedEnd), i);
        }
        if s[cur] == TAG_END {
            return (Ok(items), cur + 1);
        }
        let (r, j) = decode_value(s, cur);
        match r {
            Err(e) => {
                return (Err(e), i);
            },
            Ok(v) => {
                proof {
                    lemma_model_items_push(items@, v, 0);
                }
                items.push(v);
                cur = j;
            },
        }
    }
}

/// Dictionary routine: consumes `d`, the key/value pairs, and the closing
/// `e`, exactly as `spec_decode_dict` says. Pairs keep their input order; a
/// non-string key and a repeated key are malformed.
#[verifier::loop_isolation(false)]
pub fn decode_dictionary(s: &Vec<u8>, i: usize) -> (res: (
    Result<Vec<(Vec<u8>, BDecodedChunk)>, BencodeError>,
    usize,
))
    requires
        i <= s.len(),
    ensures
        match res.0 {
            Ok(ps) => spec_decode_dict(s@, i as int)
                == Decoded::Found(BValue::Dict(model_pairs(ps@, 0)), res.1 as int)
                && i < res.1 <= s.len(),
            Err(e) => spec_decode_dict(s@, i as int) == Decoded::<BValue>::Fail(e),
        },
    decreases s.len() - i, 0int,
{
    if i >= s.len() {
        return (Err(BencodeError::UnexpectedEnd), i);
    }
    if s[i] != TAG_DICT {
        return (Err(BencodeError::TypeMismatch), i);
    }
    let mut pairs: Vec<(Vec<u8>, BDecodedChunk)> = Vec::new();
    let mut cur = i + 1;
    loop
        invariant
            i < cur <= s.len(),
            spec_decode_pairs(s@, i as int + 1, Seq::empty())
                == spec_decode_pairs(s@, cur as int, model_pairs(pairs@, 0)),
        decreases s.len() - cur,
    {
        if cur >= s.len() {
            return (Err(BencodeError::UnexpectedEnd), i);
        }
        if s[cur] == TAG_END {
            return (Ok(pairs), cur + 1);
        }
        if !(DIGIT_ZERO <= s[cur] && s[cur] <= DIGIT_NINE) {
            return (Err(BencodeError::Malformed), i);
        }
        let (kr, j) = decode_string(s, cur);
        match kr {
            Err(e) => {
                return (Err(e), i);
            },
            Ok(key) => {
                if find_key(&pairs, &key) {
                    return (Err(BencodeError::Malformed), i);
                }
                let (vr, m) = decode_value(s, j);
                match vr {
                    Err(e) => {
                        return (Err(e), i);
                    },
                    Ok(v) => {
                        proof {
                            lemma_model_pairs_push(pairs@, (key, v), 0);
                        }
                        pairs.push((key, v));
                        cur = m;
                    },
                }
            },
        }
    }
}

/// Dispatch on the next unconsumed byte, exactly as `spec_decode_value`
/// says: `i` starts an integer, a digit starts a byte string, `l` a list,
/// `d` a dictionary; anything else is malformed, and an exhausted input is
/// an unexpected end.
pub fn decode_value(s: &Vec<u8>, i: usize) -> (res: (Result<BDecodedChunk, BencodeError>, usize))
    requires
        i <= s.len(),
    ensures
        match res.0 {
            Ok(v) => spec_decode_value(s@, i as int) == Decoded::Found(model(v), res.1 as int)
                && i < res.1 <= s.len(),
            Err(e) => spec_decode_value(s@, i as int) == Decoded::<BValue>::Fail(e),
        },
    decreases s.len() - i, 1int,
{
    if i >= s.len() {
        return (Err(BencodeError::UnexpectedEnd), i);
    }
    let b = s[i];
    if b == TAG_INT {
        let (r, j) = decode_int(s, i);
        match r {
            Ok(n) => (Ok(BDecodedChunk::Integer(n)), j),
            Err(e) => (Err(e), i),
        }
    } else if DIGIT_ZERO <= b && b <= DIGIT_NINE {
        let (r, j) = decode_string(s, i);
        match r {
            Ok(bs) => (Ok(BDecodedChunk::ByteString(bs)), j),
            Err(e) => (Err(e), i),
        }
    } else if b == TAG_LIST {
        let (r, j) = decode_list(s, i);
        match r {
            Ok(l) => (Ok(BDecodedChunk::List(l)), j),
            Err(e) => (Err(e), i),
        }
    } else if b == TAG_DICT {
        let (r, j) = decode_dictionary(s, i);
        match r {
            Ok(ps) => (Ok(BDecodedChunk::Dictionary(ps)), j),
            Err(e) => (Err(e), i),
        }
    } else {
        (Err(BencodeError::Malformed), i)
    }
}

/// Decode one Bencode value of any kind from the start of `data`. Trailing
/// bytes after the value are tolerated and ignored. The result is exactly
/// what `spec_decode_value` gives at position 0.
pub fn bdecode(data: &Vec<u8>) -> (r: Result<BDecodedChunk, BencodeError>)
    ensures
        match spec_decode_value(data@, 0) {
            Decoded::Found(b, _) => r matches Ok(v) && model(v) == b,
            Decoded::Fail(e) => r matches Err(e2) && e2 == e,
        },
{
    let (r, _) = decode_value(data, 0);
    r
}

/// Decode the input as an integer. Any other leading tag is a `TypeMismatch`
/// before anything else is parsed; the rest is as `spec_decode_int` says.
pub fn decode_as_integer(data: &Vec<u8>) -> (r: Result<BDecodedChunk, BencodeError>)
    ensures
        match spec_decode_int(data@, 0) {
            Decoded::Found(b, _) => r matches Ok(v) && v is Integer && model(v) == b,
            Decoded::Fail(e) => r matches Err(e2) && e2 == e,
        },
{
    let (r, _) = decode_int(data, 0);
    match r {
        Ok(n) => Ok(BDecodedChunk::Integer(n)),
        Err(e) => Err(e),
    }
}

/// Decode the input as a byte string. Any other leading byte is a
/// `TypeMismatch`; the rest is as `spec_decode_str` says.
pub fn decode_as_string(data: &Vec<u8>) -> (r: Result<BDecodedChunk, BencodeError>)
    ensures
        match spec_decode_str(data@, 0) {
            Decoded::Found(b, _) => r matches Ok(v) && v is ByteString && model(v) == BValue::Str(b),
            Decoded::Fail(e) => r matches Err(e2) && e2 == e,
        },
{
    let (r, _) = decode_string(data, 0);
    match r {
        Ok(bs) => Ok(BDecodedChunk::ByteString(bs)),
        Err(e) => Err(e),
    }
}

/// Decode the input as a list. Any other leading tag is a `TypeMismatch`;
/// the rest is as `spec_decode_list` says.
pub fn decode_as_list(data: &Vec<u8>) -> (r: Result<BDecodedChunk, BencodeError>)
    ensures
        match spec_decode_list(data@, 0) {
            Decoded::Found(b, _) => r matches Ok(v) && v is List && model(v) == b,
            Decoded::Fail(e) => r matches Err(e2) && e2 == e,
        },
{
    let (r, _) = decode_list(data, 0);
    match r {
        Ok(l) => Ok(BDecodedChunk::List(l)),
        Err(e) => Err(e),
    }
}

/// Decode the input as a dictionary. Any other leading tag is a
/// `TypeMismatch`; the rest is as `spec_decode_dict` says.
pub fn decode_as_dictionary(data: &Vec<u8>) -> (r: Result<BDecodedChunk, BencodeError>)
    ensures
        match spec_decode_dict(data@, 0) {
            Decoded::Found(b, _) => r matches Ok(v) && v is Dictionary && model(v) == b,
            Decoded::Fail(e) => r matches Err(e2) && e2 == e,
        },
{
    let (r, _) = decode_dictionary(data, 0);
    match r {
        Ok(ps) => Ok(BDecodedChunk::Dictionary(ps)),
        Err(e) => Err(e),
    }
}

} // verus!
