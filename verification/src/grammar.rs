use vstd::prelude::*;
use crate::value::{BValue, BencodeError};

verus! {

/// ASCII byte values of the grammar's marker characters.
pub const TAG_INT: u8 = 105;

pub const TAG_LIST: u8 = 108;

pub const TAG_DICT: u8 = 100;

pub const TAG_END: u8 = 101;

pub const COLON: u8 = 58;

pub const MINUS: u8 = 45;

pub const DIGIT_ZERO: u8 = 48;

pub const DIGIT_NINE: u8 = 57;


/// Outcome of parsing one construct starting at some position: the parsed
/// model value together with the position just past its last byte, or the
/// error the decoder reports.
pub enum Decoded<T> {
    Found(T, int),
    Fail(BencodeError),
}

pub open spec fn is_digit_byte(b: u8) -> bool {
    DIGIT_ZERO <= b && b <= DIGIT_NINE
}

pub open spec fn digit_val(b: u8) -> nat {
    (b - DIGIT_ZERO) as nat
}

/// First position at or after `i` holding a non-digit byte (or the end).
pub open spec fn digits_end(s: Seq<u8>, i: int) -> int
    decreases s.len() - i,
{
    if 0 <= i && i < s.len() && is_digit_byte(s[i]) {
        digits_end(s, i + 1)
    } else {
        i
    }
}

/// Value of a sequence of decimal digit bytes, most significant first.
pub open spec fn digits_val(ds: Seq<u8>) -> nat
    decreases ds.len(),
{
    if ds.len() == 0 {
        0
    } else {
        digits_val(ds.drop_last()) * 10 + digit_val(ds.last())
    }
}

/// Does some pair in `ps` already use the key `k`?
pub open spec fn has_key(ps: Seq<(Seq<u8>, BValue)>, k: Seq<u8>) -> bool {
    exists|idx: int| 0 <= idx < ps.len() && ps[idx].0 == k
}

/// Integer: `i`, an optional `-`, one or more digits without a superfluous
/// leading zero (and never `-0`), then `e`; the value must fit in `i64`.
pub open spec fn spec_decode_int(s: Seq<u8>, i: int) -> Decoded<BValue> {
    if !(0 <= i && i < s.len()) {
        Decoded::Fail(BencodeError::UnexpectedEnd)
    } else if s[i] != TAG_INT {
        Decoded::Fail(BencodeError::TypeMismatch)
    } else {
        let neg = i + 1 < s.len() && s[i + 1] == MINUS;
        let ds: int = if neg { i + 2 } else { i + 1 };
        let de: int = digits_end(s, ds);
        if de >= s.len() {
            Decoded::Fail(BencodeError::UnexpectedEnd)
        } else if s[de] != TAG_END {
            Decoded::Fail(BencodeError::Malformed)
        } else if de == ds {
            Decoded::Fail(BencodeError::Malformed)
        } else if s[ds] == DIGIT_ZERO && de > ds + 1 {
            Decoded::Fail(BencodeError::Malformed)
        } else if neg && s[ds] == DIGIT_ZERO {
            Decoded::Fail(BencodeError::Malformed)
        } else {
            let m = digits_val(s.subrange(ds, de));
            if neg {
                if m > 0x8000_0000_0000_0000 {
                    Decoded::Fail(BencodeError::Overflow)
                } else {
                    Decoded::Found(BValue::Int((-(m as int)) as i64), de + 1)
                }
            } else {
                if m > 0x7fff_ffff_ffff_ffff {
                    Decoded::Fail(BencodeError::Overflow)
                } else {
                    Decoded::Found(BValue::Int(m as i64), de + 1)
                }
            }
        }
    }
}

/// Byte string: one or more length digits, `:`, then exactly that many raw
/// bytes. Returns the raw bytes themselves. The length is read as a plain
/// decimal, so superfluous leading zeros in it are tolerated; only integer
/// literals reject them.
pub open spec fn spec_decode_str(s: Seq<u8>, i: int) -> Decoded<Seq<u8>> {
    if !(0 <= i && i < s.len()) {
        Decoded::Fail(BencodeError::UnexpectedEnd)
    } else if !is_digit_byte(s[i]) {
        Decoded::Fail(BencodeError::TypeMismatch)
    } else {
        let de: int = digits_end(s, i);
        if de >= s.len() {
            Decoded::Fail(BencodeError::UnexpectedEnd)
        } else if s[de] != COLON {
            Decoded::Fail(BencodeError::Malformed)
        } else {
            let n: int = digits_val(s.subrange(i, de)) as int;
            if de + 1 + n > s.len() {
                Decoded::Fail(BencodeError::UnexpectedEnd)
            } else {
                Decoded::Found(s.subrange(de + 1, de + 1 + n), de + 1 + n)
            }
        }
    }
}

/// List: `l`, any number of values, `e`.
pub open spec fn spec_decode_list(s: Seq<u8>, i: int) -> Decoded<BValue>
    decreases s.len() - i, 0int,
{
    if !(0 <= i && i < s.len()) {
        Decoded::Fail(BencodeError::UnexpectedEnd)
    } else if s[i] != TAG_LIST {
        Decoded::Fail(BencodeError::TypeMismatch)
    } else {
        match spec_decode_items(s, i + 1, Seq::empty()) {
            Decoded::Found(l, j) => Decoded::Found(BValue::List(l), j),
            Decoded::Fail(e) => Decoded::Fail(e),
        }
    }
}

/// Elements of a list body up to and including the closing `e`; `acc` holds
/// the elements already decoded.
pub open spec fn spec_decode_items(s: Seq<u8>, i: int, acc: Seq<BValue>) -> Decoded<Seq<BValue>>
    decreases s.len() - i, 2int,
{
    if !(0 <= i && i < s.len()) {
        Decoded::Fail(BencodeError::UnexpectedEnd)
    } else if s[i] == TAG_END {
        Decoded::Found(acc, i + 1)
    } else {
        match spec_decode_value(s, i) {
            Decoded::Fail(e) => Decoded::Fail(e),
            Decoded::Found(v, j) => {
                if i < j && j <= s.len() {
                    spec_decode_items(s, j, acc.push(v))
                } else {
                    Decoded::Fail(BencodeError::Malformed)
                }
            },
        }
    }
}

/// Dictionary: `d`, any number of key/value pairs, `e`.
pub open spec fn spec_decode_dict(s: Seq<u8>, i: int) -> Decoded<BValue>
    decreases s.len() - i, 0int,
{
    if !(0 <= i && i < s.len()) {
        Decoded::Fail(BencodeError::UnexpectedEnd)
    } else if s[i] != TAG_DICT {
        Decoded::Fail(BencodeError::TypeMismatch)
    } else {
        match spec_decode_pairs(s, i + 1, Seq::empty()) {
            Decoded::Found(ps, j) => Decoded::Found(BValue::Dict(ps), j),
            Decoded::Fail(e) => Decoded::Fail(e),
        }
    }
}

/// Key/value pairs of a dictionary body up to and including the closing `e`.
/// A key must be a byte string; a key equal to one already seen is rejected
/// as malformed before its value is read.
pub open spec fn spec_decode_pairs(
    s: Seq<u8>,
    i: int,
    acc: Seq<(Seq<u8>, BValue)>,
) -> Decoded<Seq<(Seq<u8>, BValue)>>
    decreases s.len() - i, 2int,
{
    if !(0 <= i && i < s.len()) {
        Decoded::Fail(BencodeError::UnexpectedEnd)
    } else if s[i] == TAG_END {
        Decoded::Found(acc, i + 1)
    } else if !is_digit_byte(s[i]) {
        Decoded::Fail(BencodeError::Malformed)
    } else {
        match spec_decode_str(s, i) {
            Decoded::Fail(e) => Decoded::Fail(e),
            Decoded::Found(k, j) => {
                if !(i <= j && j <= s.len()) {
                    Decoded::Fail(BencodeError::Malformed)
                } else if has_key(acc, k) {
                    Decoded::Fail(BencodeError::Malformed)
                } else {
                    match spec_decode_value(s, j) {
                        Decoded::Fail(e) => Decoded::Fail(e),
                        Decoded::Found(v, m) => {
                            if j < m && m <= s.len() {
                                spec_decode_pairs(s, m, acc.push((k, v)))
                            } else {
                                Decoded::Fail(BencodeError::Malformed)
                            }
                        },
                    }
                }
            },
        }
    }
}

/// One value of any kind, dispatched on its first byte.
pub open spec fn spec_decode_value(s: Seq<u8>, i: int) -> Decoded<BValue>
    decreases s.len() - i, 1int,
{
    if !(0 <= i && i < s.len()) {
        Decoded::Fail(BencodeError::UnexpectedEnd)
    } else if s[i] == TAG_INT {
        spec_decode_int(s, i)
    } else if is_digit_byte(s[i]) {
        match spec_decode_str(s, i) {
            Decoded::Found(k, j) => Decoded::Found(BValue::Str(k), j),
            Decoded::Fail(e) => Decoded::Fail(e),
        }
    } else if s[i] == TAG_LIST {
        spec_decode_list(s, i)
    } else if s[i] == TAG_DICT {
        spec_decode_dict(s, i)
    } else {
        Decoded::Fail(BencodeError::Malformed)
    }
}

use vstd::arithmetic::div_mod::lemma_fundamental_div_mod;

/// `digits_end` is the position of the first non-digit: scanning the digit
/// run `s[i..e)` ends exactly at `e`.
pub proof fn lemma_digits_end_is(s: Seq<u8>, i: int, e: int)
    requires
        0 <= i <= e <= s.len(),
        forall|q: int| i <= q < e ==> is_digit_byte(s[q]),
        e == s.len() || !is_digit_byte(s[e]),
    ensures
        digits_end(s, i) == e,
    decreases e - i,
{
    if i < e {
        lemma_digits_end_is(s, i + 1, e);
    }
}

/// Extending a digit run never shrinks its value.
pub proof fn lemma_digits_val_grows(s: Seq<u8>, lo: int, mid: int, hi: int)
    requires
        0 <= lo <= mid <= hi <= s.len(),
    ensures
        digits_val(s.subrange(lo, mid)) <= digits_val(s.subrange(lo, hi)),
    decreases hi - mid,
{
    if mid < hi {
        lemma_digits_val_grows(s, lo, mid, hi - 1);
        assert(s.subrange(lo, hi).drop_last() =~= s.subrange(lo, hi - 1));
        assert(digits_val(s.subrange(lo, hi))
            == digits_val(s.subrange(lo, hi - 1)) * 10 + digit_val(s.subrange(lo, hi).last()));
    }
}

/// One step of reading a digit run left to right.
pub proof fn lemma_digits_val_step(s: Seq<u8>, lo: int, k: int)
    requires
        0 <= lo <= k < s.len(),
    ensures
        digits_val(s.subrange(lo, k + 1)) == digits_val(s.subrange(lo, k)) * 10 + digit_val(s[k]),
{
    assert(s.subrange(lo, k + 1).drop_last() =~= s.subrange(lo, k));
    assert(s.subrange(lo, k + 1).last() == s[k]);
}

/// The guard the accumulating loops test is exactly "the next step passes the
/// bound": `m > (b - d) / 10` iff `m * 10 + d > b`.
pub proof fn lemma_accum_step_bound(m: int, d: int, b: int)
    requires
        0 <= d <= 9,
        d <= b,
        0 <= m,
    ensures
        m > (b - d) / 10 <==> m * 10 + d > b,
{
    lemma_fundamental_div_mod(b - d, 10);
}

/// Scanning digits never moves backwards.
pub proof fn lemma_digits_end_ge(s: Seq<u8>, i: int)
    ensures
        digits_end(s, i) >= i,
        digits_end(s, i) <= s.len() || digits_end(s, i) == i,
    decreases s.len() - i,
{
    if 0 <= i && i < s.len() && is_digit_byte(s[i]) {
        lemma_digits_end_ge(s, i + 1);
    }
}

} // verus!
