use vstd::prelude::*;
use crate::value::BValue;
use crate::grammar::{
    Decoded, spec_decode_int, spec_decode_str, is_digit_byte, digit_val, digits_val,
    lemma_digits_end_is, lemma_digits_end_ge, TAG_INT, TAG_END, COLON, MINUS, DIGIT_ZERO,
};
use crate::encode::{spec_encode, canon, dec_digits, int_literal};
use vstd::arithmetic::div_mod::lemma_fundamental_div_mod;

verus! {

/// The decimal digits of `m` are digits, start with `0` only for `m == 0`
/// itself, and read back as `m`.
pub proof fn lemma_dec_digits(m: nat)
    ensures
        dec_digits(m).len() >= 1,
        forall|k: int| 0 <= k < dec_digits(m).len() ==> is_digit_byte(#[trigger] dec_digits(m)[k]),
        digits_val(dec_digits(m)) == m,
        m >= 1 ==> dec_digits(m)[0] != DIGIT_ZERO,
        m < 10 ==> dec_digits(m).len() == 1,
    decreases m,
{
    if m < 10 {
        assert(dec_digits(m) == seq![(DIGIT_ZERO + m) as u8]);
        assert(digits_val(dec_digits(m)) == digits_val(dec_digits(m).drop_last()) * 10
            + digit_val(dec_digits(m).last()));
        assert(dec_digits(m).drop_last() =~= Seq::<u8>::empty());
    } else {
        lemma_dec_digits(m / 10);
        lemma_fundamental_div_mod(m as int, 10);
        let d = (DIGIT_ZERO + m % 10) as u8;
        assert(dec_digits(m).drop_last() =~= dec_digits(m / 10));
        assert(dec_digits(m).last() == d);
        assert(digits_val(dec_digits(m)) == (m / 10) * 10 + m % 10);
        assert(dec_digits(m)[0] == dec_digits(m / 10)[0]);
    }
}

/// Decoding an encoded integer literal: if `s` holds `i`, the canonical
/// literal of `n`, and `e` at position `i`, the integer routine returns
/// exactly `n` and stops just past the `e`.
pub proof fn lemma_decode_int_enc(n: i64, s: Seq<u8>, i: int)
    requires
        0 <= i,
        i + spec_encode(BValue::Int(n)).len() <= s.len(),
        s.subrange(i, i + spec_encode(BValue::Int(n)).len()) == spec_encode(BValue::Int(n)),
    ensures
        spec_decode_int(s, i) == Decoded::Found(
            BValue::Int(n),
            i + spec_encode(BValue::Int(n)).len(),
        ),
{
    let e = spec_encode(BValue::Int(n));
    let lit = int_literal(n);
    let mag: nat = if n < 0 { (-(n as int)) as nat } else { n as nat };
    lemma_dec_digits(mag);
    let dd = dec_digits(mag);
    assert(e == seq![TAG_INT] + lit + seq![TAG_END]);
    assert(e.len() == lit.len() + 2);
    assert forall|q: int| i <= q < i + e.len() implies s[q] == e[q - i] by {
        assert(s.subrange(i, i + e.len())[q - i] == s[q]);
    }
    assert(s[i] == TAG_INT);
    let ds: int = if n < 0 { i + 2 } else { i + 1 };
    let de: int = ds + dd.len();
    if n < 0 {
        assert(lit == seq![MINUS] + dd);
        assert(s[i + 1] == MINUS);
        assert forall|q: int| ds <= q < de implies is_digit_byte(s[q]) by {
            assert(e[q - i] == dd[q - ds]);
        }
        assert(!is_digit_byte(s[de])) by {
            assert(e[de - i] == TAG_END);
        }
        lemma_digits_end_is(s, ds, de);
        assert(s.subrange(ds, de) =~= dd);
        assert(s[ds] == dd[0]);
        assert(mag >= 1);
        assert(mag <= 0x8000_0000_0000_0000) by {
            assert(n >= i64::MIN);
        }
        assert((-(mag as int)) as i64 == n);
    } else {
        assert(lit == dd);
        assert(s[i + 1] == dd[0]);
        assert(is_digit_byte(s[i + 1]));
        assert(s[i + 1] != MINUS);
        assert forall|q: int| ds <= q < de implies is_digit_byte(s[q]) by {
            assert(e[q - i] == dd[q - ds]);
        }
        assert(!is_digit_byte(s[de])) by {
            assert(e[de - i] == TAG_END);
        }
        lemma_digits_end_is(s, ds, de);
        assert(s.subrange(ds, de) =~= dd);
        assert(s[de] == TAG_END);
        assert(mag <= 0x7fff_ffff_ffff_ffff);
        if mag >= 1 {
            assert(s[ds] != DIGIT_ZERO);
        } else {
            assert(dd.len() == 1);
        }
    }
}

/// Decoding an encoded byte string: if `s` holds the length digits, `:`
/// and the bytes `b` at position `i`, the string routine returns exactly
/// `b` and stops just past its last byte.
pub proof fn lemma_decode_str_enc(b: Seq<u8>, s: Seq<u8>, i: int)
    requires
        0 <= i,
        i + spec_encode(BValue::Str(b)).len() <= s.len(),
        s.subrange(i, i + spec_encode(BValue::Str(b)).len()) == spec_encode(BValue::Str(b)),
    ensures
        spec_decode_str(s, i) == Decoded::Found(b, i + spec_encode(BValue::Str(b)).len()),
{
    let e = spec_encode(BValue::Str(b));
    lemma_dec_digits(b.len());
    let dd = dec_digits(b.len());
    assert(e == dd + seq![COLON] + b);
    assert(e.len() == dd.len() + 1 + b.len());
    assert forall|q: int| i <= q < i + e.len() implies s[q] == e[q - i] by {
        assert(s.subrange(i, i + e.len())[q - i] == s[q]);
    }
    let de: int = i + dd.len();
    assert forall|q: int| i <= q < de implies is_digit_byte(s[q]) by {
        assert(e[q - i] == dd[q - i]);
    }
    assert(s[de] == COLON) by {
        assert(e[de - i] == COLON);
    }
    assert(!is_digit_byte(s[de]));
    lemma_digits_end_is(s, i, de);
    assert(s.subrange(i, de) =~= dd);
    assert(is_digit_byte(s[i])) by {
        assert(e[0] == dd[0]);
    }
    assert(s.subrange(de + 1, de + 1 + b.len()) =~= b);
}

/// Round trip for integers: decoding the encoding of `Integer(n)` with the
/// typed integer entry point yields exactly `Integer(n)` again, for every
/// `n`.
pub proof fn lemma_integer_round_trip(n: i64)
    ensures
        spec_decode_int(spec_encode(canon(BValue::Int(n))), 0) == Decoded::Found(
            BValue::Int(n),
            spec_encode(BValue::Int(n)).len() as int,
        ),
{
    let e = spec_encode(BValue::Int(n));
    assert(e.subrange(0, e.len() as int) =~= e);
    lemma_decode_int_enc(n, e, 0);
}

/// Round trip for byte strings: decoding the encoding of `ByteString(b)`
/// with the typed string entry point yields exactly the bytes `b` again,
/// for every byte sequence `b`, empty and non-text bytes included.
pub proof fn lemma_string_round_trip(b: Seq<u8>)
    ensures
        spec_decode_str(spec_encode(canon(BValue::Str(b))), 0) == Decoded::Found(
            b,
            spec_encode(BValue::Str(b)).len() as int,
        ),
{
    let e = spec_encode(BValue::Str(b));
    assert(e.subrange(0, e.len() as int) =~= e);
    lemma_decode_str_enc(b, e, 0);
}

} // verus!

use crate::encode::{insert_pair, sort_pairs, lex_lt};
use crate::grammar::has_key;

verus! {

/// No two pairs share a key.
pub open spec fn distinct_keys(ps: Seq<(Seq<u8>, BValue)>) -> bool {
    forall|x: int, y: int| 0 <= x < y < ps.len() ==> ps[x].0 != ps[y].0
}

/// Keys strictly ascend in byte-lexicographic order.
pub open spec fn sorted_keys(ps: Seq<(Seq<u8>, BValue)>) -> bool {
    forall|x: int, y: int| 0 <= x < y < ps.len() ==> lex_lt(ps[x].0, ps[y].0)
}

/// A well-formed value tree: every dictionary's keys are unique.
pub open spec fn wf(v: BValue) -> bool
    decreases v,
{
    match v {
        BValue::Int(_) => true,
        BValue::Str(_) => true,
        BValue::List(l) => forall|k: int| 0 <= k < l.len() ==> wf(#[trigger] l[k]),
        BValue::Dict(ps) => distinct_keys(ps) && forall|k: int|
            0 <= k < ps.len() ==> wf(#[trigger] ps[k].1),
    }
}

/// A canonical value tree: every dictionary's keys strictly ascend.
pub open spec fn canonical(v: BValue) -> bool
    decreases v,
{
    match v {
        BValue::Int(_) => true,
        BValue::Str(_) => true,
        BValue::List(l) => forall|k: int| 0 <= k < l.len() ==> canonical(#[trigger] l[k]),
        BValue::Dict(ps) => sorted_keys(ps) && forall|k: int|
            0 <= k < ps.len() ==> canonical(#[trigger] ps[k].1),
    }
}

/// No byte string precedes itself.
pub proof fn lemma_lex_irrefl(a: Seq<u8>)
    ensures
        !lex_lt(a, a),
    decreases a.len(),
{
    if a.len() > 0 {
        lemma_lex_irrefl(a.subrange(1, a.len() as int));
    }
}

/// Two distinct byte strings compare one way or the other.
pub proof fn lemma_lex_total(a: Seq<u8>, b: Seq<u8>)
    ensures
        a == b || lex_lt(a, b) || lex_lt(b, a),
    decreases a.len(),
{
    if a.len() > 0 && b.len() > 0 && a[0] == b[0] {
        lemma_lex_total(a.subrange(1, a.len() as int), b.subrange(1, b.len() as int));
        if a.subrange(1, a.len() as int) == b.subrange(1, b.len() as int) && a.len() == b.len() {
            assert forall|k: int| 0 <= k < a.len() implies a[k] == b[k] by {
                if k >= 1 {
                    assert(a.subrange(1, a.len() as int)[k - 1] == a[k]);
                    assert(b.subrange(1, b.len() as int)[k - 1] == b[k]);
                }
            }
            assert(a =~= b);
        }
    }
}

/// The order is transitive.
pub proof fn lemma_lex_trans(a: Seq<u8>, b: Seq<u8>, c: Seq<u8>)
    requires
        lex_lt(a, b),
        lex_lt(b, c),
    ensures
        lex_lt(a, c),
    decreases a.len(),
{
    if a.len() > 0 && b.len() > 0 && c.len() > 0 && a[0] == b[0] && b[0] == c[0] {
        lemma_lex_trans(
            a.subrange(1, a.len() as int),
            b.subrange(1, b.len() as int),
            c.subrange(1, c.len() as int),
        );
    }
}

/// The order is asymmetric.
pub proof fn lemma_lex_asym(a: Seq<u8>, b: Seq<u8>)
    requires
        lex_lt(a, b),
    ensures
        !lex_lt(b, a),
{
    if lex_lt(b, a) {
        lemma_lex_trans(a, b, a);
        lemma_lex_irrefl(a);
    }
}

/// Is `p` one of the pairs of `ps`?
pub open spec fn in_pairs(ps: Seq<(Seq<u8>, BValue)>, p: (Seq<u8>, BValue)) -> bool {
    exists|y: int| 0 <= y < ps.len() && ps[y] == p
}

/// Inserting a fresh key into a strictly sorted pair sequence keeps it
/// strictly sorted and adds exactly that pair.
pub proof fn lemma_insert_pair_sorted(ps: Seq<(Seq<u8>, BValue)>, p: (Seq<u8>, BValue))
    requires
        sorted_keys(ps),
        !has_key(ps, p.0),
    ensures
        insert_pair(ps, p).len() == ps.len() + 1,
        sorted_keys(insert_pair(ps, p)),
        forall|x: int| 0 <= x < insert_pair(ps, p).len()
            ==> #[trigger] insert_pair(ps, p)[x] == p || in_pairs(ps, insert_pair(ps, p)[x]),
        forall|k: Seq<u8>| #[trigger] has_key(insert_pair(ps, p), k)
            <==> (has_key(ps, k) || k == p.0),
    decreases ps.len(),
{
    let res = insert_pair(ps, p);
    if ps.len() == 0 {
        assert(res == seq![p]);
        assert forall|k: Seq<u8>| #[trigger] has_key(res, k)
            implies (has_key(ps, k) || k == p.0) by {
            let y = choose|y: int| 0 <= y < res.len() && res[y].0 == k;
            assert(res[y] == p);
        }
        assert forall|k: Seq<u8>| (has_key(ps, k) || k == p.0)
            implies #[trigger] has_key(res, k) by {
            assert(res[0].0 == p.0);
        }
    } else if lex_lt(p.0, ps.last().0) {
        let dl = ps.drop_last();
        assert(!has_key(dl, p.0)) by {
            if has_key(dl, p.0) {
                let y = choose|y: int| 0 <= y < dl.len() && dl[y].0 == p.0;
                assert(ps[y].0 == p.0);
            }
        }
        lemma_insert_pair_sorted(dl, p);
        let inner = insert_pair(dl, p);
        assert(res == inner.push(ps.last()));
        assert forall|x: int, y: int| 0 <= x < y < res.len()
            implies lex_lt(res[x].0, res[y].0) by {
            if y < inner.len() {
                assert(res[x] == inner[x] && res[y] == inner[y]);
            } else {
                assert(res[y] == ps.last());
                assert(res[x] == inner[x]);
                if inner[x] == p {
                } else {
                    assert(in_pairs(dl, inner[x]));
                    let w = choose|w: int| 0 <= w < dl.len() && dl[w] == inner[x];
                    assert(ps[w] == inner[x]);
                    assert(lex_lt(ps[w].0, ps[ps.len() - 1].0));
                }
            }
        }
        assert forall|x: int| 0 <= x < res.len()
            implies #[trigger] res[x] == p || in_pairs(ps, res[x]) by {
            if x < inner.len() {
                assert(res[x] == inner[x]);
                if inner[x] != p {
                    let w = choose|w: int| 0 <= w < dl.len() && dl[w] == inner[x];
                    assert(ps[w] == inner[x]);
                }
            } else {
                assert(res[x] == ps[ps.len() - 1]);
            }
        }
        assert forall|k: Seq<u8>| #[trigger] has_key(res, k)
            implies (has_key(ps, k) || k == p.0) by {
            let y = choose|y: int| 0 <= y < res.len() && res[y].0 == k;
            if y < inner.len() {
                assert(has_key(inner, res[y].0));
                if has_key(dl, k) {
                    let w = choose|w: int| 0 <= w < dl.len() && dl[w].0 == k;
                    assert(ps[w].0 == k);
                }
            } else {
                assert(res[y].0 == ps[ps.len() - 1].0);
            }
        }
        assert forall|k: Seq<u8>| (has_key(ps, k) || k == p.0)
            implies #[trigger] has_key(res, k) by {
            if k == p.0 {
                assert(has_key(inner, k));
                let y = choose|y: int| 0 <= y < inner.len() && inner[y].0 == k;
                assert(res[y].0 == k);
            } else {
                let y = choose|y: int| 0 <= y < ps.len() && ps[y].0 == k;
                if y < ps.len() - 1 {
                    assert(dl[y].0 == k);
                    assert(has_key(dl, k));
                    assert(has_key(inner, k));
                    let w = choose|w: int| 0 <= w < inner.len() && inner[w].0 == k;
                    assert(res[w].0 == k);
                } else {
                    assert(ps[y] == ps.last());
                    assert(res[res.len() - 1] == ps.last());
                    assert(res[res.len() - 1].0 == k);
                }
            }
        }
    } else {
        assert(ps[ps.len() - 1].0 != p.0) by {
            if ps.last().0 == p.0 {
                assert(has_key(ps, p.0));
            }
        }
        lemma_lex_total(p.0, ps.last().0);
        assert(lex_lt(ps.last().0, p.0));
        assert(res == ps.push(p));
        assert forall|x: int, y: int| 0 <= x < y < res.len()
            implies lex_lt(res[x].0, res[y].0) by {
            if y == ps.len() {
                assert(res[y] == p);
                assert(res[x] == ps[x]);
                if x < ps.len() - 1 {
                    assert(lex_lt(ps[x].0, ps[ps.len() - 1].0));
                    lemma_lex_trans(ps[x].0, ps.last().0, p.0);
                }
            } else {
                assert(res[x] == ps[x] && res[y] == ps[y]);
            }
        }
        assert forall|k: Seq<u8>| #[trigger] has_key(res, k)
            implies (has_key(ps, k) || k == p.0) by {
            let y = choose|y: int| 0 <= y < res.len() && res[y].0 == k;
            if y < ps.len() {
                assert(ps[y].0 == k);
            }
        }
        assert forall|k: Seq<u8>| (has_key(ps, k) || k == p.0)
            implies #[trigger] has_key(res, k) by {
            if k == p.0 {
                assert(res[ps.len() as int].0 == k);
            } else {
                let y = choose|y: int| 0 <= y < ps.len() && ps[y].0 == k;
                assert(res[y].0 == k);
            }
        }
    }
}

/// Sorting distinct-keyed pairs yields a strictly sorted arrangement of
/// exactly the same pairs.
pub proof fn lemma_sort_pairs_sorted(ps: Seq<(Seq<u8>, BValue)>)
    requires
        distinct_keys(ps),
    ensures
        sort_pairs(ps).len() == ps.len(),
        sorted_keys(sort_pairs(ps)),
        forall|x: int| 0 <= x < sort_pairs(ps).len() ==> in_pairs(ps, #[trigger] sort_pairs(ps)[x]),
        forall|k: Seq<u8>| #[trigger] has_key(sort_pairs(ps), k) <==> has_key(ps, k),
    decreases ps.len(),
{
    let res = sort_pairs(ps);
    if ps.len() > 0 {
        let dl = ps.drop_last();
        let p = ps.last();
        assert(distinct_keys(dl)) by {
            assert forall|x: int, y: int| 0 <= x < y < dl.len()
                implies dl[x].0 != dl[y].0 by {
                assert(dl[x] == ps[x] && dl[y] == ps[y]);
            }
        }
        lemma_sort_pairs_sorted(dl);
        let sdl = sort_pairs(dl);
        assert(!has_key(sdl, p.0)) by {
            if has_key(sdl, p.0) {
                assert(has_key(dl, p.0));
                let y = choose|y: int| 0 <= y < dl.len() && dl[y].0 == p.0;
                assert(ps[y].0 == ps[ps.len() - 1].0);
            }
        }
        lemma_insert_pair_sorted(sdl, p);
        assert forall|x: int| 0 <= x < res.len()
            implies in_pairs(ps, #[trigger] res[x]) by {
            if res[x] == p {
                assert(ps[ps.len() - 1] == p);
            } else {
                assert(in_pairs(sdl, res[x]));
                let w = choose|w: int| 0 <= w < sdl.len() && sdl[w] == res[x];
                assert(in_pairs(dl, sdl[w]));
                let u = choose|u: int| 0 <= u < dl.len() && dl[u] == sdl[w];
                assert(ps[u] == res[x]);
            }
        }
        assert forall|k: Seq<u8>| #[trigger] has_key(res, k) implies has_key(ps, k) by {
            if has_key(sdl, k) {
                assert(has_key(dl, k));
                let y = choose|y: int| 0 <= y < dl.len() && dl[y].0 == k;
                assert(ps[y].0 == k);
            } else {
                assert(k == p.0);
                assert(ps[ps.len() - 1].0 == k);
            }
        }
        assert forall|k: Seq<u8>| has_key(ps, k) implies #[trigger] has_key(res, k) by {
            let y = choose|y: int| 0 <= y < ps.len() && ps[y].0 == k;
            if y < ps.len() - 1 {
                assert(dl[y].0 == k);
                assert(has_key(dl, k));
            }
        }
    }
}

/// Sorting an already strictly sorted pair sequence changes nothing.
pub proof fn lemma_sort_pairs_id(ps: Seq<(Seq<u8>, BValue)>)
    requires
        sorted_keys(ps),
    ensures
        sort_pairs(ps) == ps,
    decreases ps.len(),
{
    if ps.len() > 0 {
        let dl = ps.drop_last();
        assert(sorted_keys(dl)) by {
            assert forall|x: int, y: int| 0 <= x < y < dl.len()
                implies lex_lt(dl[x].0, dl[y].0) by {
                assert(dl[x] == ps[x] && dl[y] == ps[y]);
            }
        }
        lemma_sort_pairs_id(dl);
        if dl.len() == 0 {
            assert(insert_pair(dl, ps.last()) =~= ps);
        } else {
            assert(lex_lt(ps[ps.len() - 2].0, ps[ps.len() - 1].0));
            assert(dl.last() == ps[ps.len() - 2]);
            lemma_lex_asym(dl.last().0, ps.last().0);
            assert(insert_pair(dl, ps.last()) == dl.push(ps.last()));
            assert(dl.push(ps.last()) =~= ps);
        }
    }
}

} // verus!

use crate::encode::{
    canon_items, canon_vpairs, spec_encode_items, spec_encode_pairs,
    lemma_canon_items_index, lemma_canon_vpairs_index,
};
use crate::grammar::{
    spec_decode_value, spec_decode_items, spec_decode_pairs, TAG_LIST, TAG_DICT,
};

verus! {

/// Every encoding is non-empty and starts with its kind's tag byte, never
/// with the terminator.
pub proof fn lemma_encode_first(v: BValue)
    ensures
        spec_encode(v).len() >= 1,
        spec_encode(v)[0] != TAG_END,
        match v {
            BValue::Int(_) => spec_encode(v)[0] == TAG_INT,
            BValue::Str(_) => is_digit_byte(spec_encode(v)[0]),
            BValue::List(_) => spec_encode(v)[0] == TAG_LIST,
            BValue::Dict(_) => spec_encode(v)[0] == TAG_DICT,
        },
{
    match v {
        BValue::Int(_) => {},
        BValue::Str(s) => {
            lemma_dec_digits(s.len());
            assert(spec_encode(v)[0] == dec_digits(s.len())[0]);
        },
        BValue::List(_) => {},
        BValue::Dict(_) => {},
    }
}

/// The canonical form of a well-formed value is canonical, and
/// canonicalizing is idempotent.
pub proof fn lemma_canon_canonical(v: BValue)
    requires
        wf(v),
    ensures
        canonical(canon(v)),
        canon(canon(v)) == canon(v),
    decreases v,
{
    match v {
        BValue::Int(_) => {},
        BValue::Str(_) => {},
        BValue::List(l) => {
            let cl = canon_items(l, 0);
            lemma_canon_items_index(l, 0);
            assert forall|k: int| 0 <= k < cl.len() implies canonical(#[trigger] cl[k]) by {
                assert(cl[k] == canon(l[k]));
                lemma_canon_canonical(l[k]);
            }
            lemma_canon_items_index(cl, 0);
            assert forall|k: int| 0 <= k < cl.len()
                implies #[trigger] canon_items(cl, 0)[k] == cl[k] by {
                assert(canon_items(cl, 0)[k] == canon(cl[k]));
                assert(cl[k] == canon(l[k]));
                lemma_canon_canonical(l[k]);
            }
            assert(canon_items(cl, 0) =~= cl);
        },
        BValue::Dict(ps) => {
            let cvp = canon_vpairs(ps, 0);
            lemma_canon_vpairs_index(ps, 0);
            assert(distinct_keys(cvp)) by {
                assert forall|x: int, y: int| 0 <= x < y < cvp.len()
                    implies cvp[x].0 != cvp[y].0 by {
                    assert(cvp[x].0 == ps[x].0 && cvp[y].0 == ps[y].0);
                }
            }
            lemma_sort_pairs_sorted(cvp);
            let sps = sort_pairs(cvp);
            assert forall|k: int| 0 <= k < sps.len()
                implies canonical(#[trigger] sps[k].1) by {
                assert(in_pairs(cvp, sps[k]));
                let y = choose|y: int| 0 <= y < cvp.len() && cvp[y] == sps[k];
                assert(cvp[y] == (ps[y].0, canon(ps[y].1)));
                lemma_canon_canonical(ps[y].1);
            }
            lemma_canon_vpairs_index(sps, 0);
            assert forall|k: int| 0 <= k < sps.len()
                implies #[trigger] canon_vpairs(sps, 0)[k] == sps[k] by {
                assert(canon_vpairs(sps, 0)[k] == (sps[k].0, canon(sps[k].1)));
                assert(in_pairs(cvp, sps[k]));
                let y = choose|y: int| 0 <= y < cvp.len() && cvp[y] == sps[k];
                assert(cvp[y] == (ps[y].0, canon(ps[y].1)));
                lemma_canon_canonical(ps[y].1);
            }
            assert(canon_vpairs(sps, 0) =~= sps);
            lemma_sort_pairs_id(sps);
        },
    }
}

/// Decoding an encoded canonical value at position `i` yields exactly that
/// value and consumes exactly its bytes, whatever follows.
pub proof fn lemma_decode_encoded(v: BValue, s: Seq<u8>, i: int)
    requires
        canonical(v),
        0 <= i,
        i + spec_encode(v).len() <= s.len(),
        s.subrange(i, i + spec_encode(v).len()) == spec_encode(v),
    ensures
        spec_decode_value(s, i) == Decoded::Found(v, i + spec_encode(v).len()),
    decreases v, 0int,
{
    let e = spec_encode(v);
    assert forall|q: int| i <= q < i + e.len() implies s[q] == e[q - i] by {
        assert(s.subrange(i, i + e.len())[q - i] == s[q]);
    }
    lemma_encode_first(v);
    assert(s[i] == e[0]);
    match v {
        BValue::Int(n) => {
            lemma_decode_int_enc(n, s, i);
        },
        BValue::Str(b) => {
            lemma_decode_str_enc(b, s, i);
        },
        BValue::List(l) => {
            let body = spec_encode_items(l, 0);
            assert(e == seq![TAG_LIST] + body + seq![TAG_END]);
            assert(s.subrange(i + 1, i + 1 + body.len()) =~= body);
            assert(s[i + 1 + body.len()] == TAG_END) by {
                assert(e[1 + body.len() as int] == TAG_END);
            }
            assert(l.take(0) =~= Seq::<BValue>::empty());
            lemma_decode_items_enc(l, 0, s, i + 1);
        },
        BValue::Dict(ps) => {
            let body = spec_encode_pairs(ps, 0);
            assert(e == seq![TAG_DICT] + body + seq![TAG_END]);
            assert(s.subrange(i + 1, i + 1 + body.len()) =~= body);
            assert(s[i + 1 + body.len()] == TAG_END) by {
                assert(e[1 + body.len() as int] == TAG_END);
            }
            assert(ps.take(0) =~= Seq::<(Seq<u8>, BValue)>::empty());
            lemma_decode_pairs_enc(ps, 0, s, i + 1);
        },
    }
}

/// Decoding the encoded tail `l[t..]` of a list body, with the elements
/// before `t` already accumulated, reaches the closing terminator and
/// returns the whole list.
pub proof fn lemma_decode_items_enc(l: Seq<BValue>, t: int, s: Seq<u8>, j: int)
    requires
        0 <= t <= l.len(),
        forall|k: int| t <= k < l.len() ==> canonical(#[trigger] l[k]),
        0 <= j,
        j + spec_encode_items(l, t).len() + 1 <= s.len(),
        s.subrange(j, j + spec_encode_items(l, t).len()) == spec_encode_items(l, t),
        s[j + spec_encode_items(l, t).len()] == TAG_END,
    ensures
        spec_decode_items(s, j, l.take(t)) == Decoded::Found(
            l,
            j + spec_encode_items(l, t).len() + 1,
        ),
    decreases l, l.len() - t,
{
    let body = spec_encode_items(l, t);
    assert forall|q: int| j <= q < j + body.len() implies s[q] == body[q - j] by {
        assert(s.subrange(j, j + body.len())[q - j] == s[q]);
    }
    if t == l.len() {
        assert(l.take(t) =~= l);
    } else {
        let el = spec_encode(l[t]);
        let rest = spec_encode_items(l, t + 1);
        assert(body == el + rest);
        lemma_encode_first(l[t]);
        assert(s[j] == body[0]);
        assert(body[0] == el[0]);
        assert(s.subrange(j, j + el.len()) =~= el);
        lemma_decode_encoded(l[t], s, j);
        assert(l.take(t).push(l[t]) =~= l.take(t + 1));
        assert(s.subrange(j + el.len(), j + el.len() + rest.len()) =~= rest);
        assert(s[j + el.len() + rest.len()] == TAG_END);
        lemma_decode_items_enc(l, t + 1, s, j + el.len());
    }
}

/// Decoding the encoded tail `ps[t..]` of a dictionary body: every key is
/// a byte string, the strictly ascending keys rule out a duplicate, and the
/// whole dictionary comes back in its encoded order.
pub proof fn lemma_decode_pairs_enc(ps: Seq<(Seq<u8>, BValue)>, t: int, s: Seq<u8>, j: int)
    requires
        0 <= t <= ps.len(),
        sorted_keys(ps),
        forall|k: int| t <= k < ps.len() ==> canonical(#[trigger] ps[k].1),
        0 <= j,
        j + spec_encode_pairs(ps, t).len() + 1 <= s.len(),
        s.subrange(j, j + spec_encode_pairs(ps, t).len()) == spec_encode_pairs(ps, t),
        s[j + spec_encode_pairs(ps, t).len()] == TAG_END,
    ensures
        spec_decode_pairs(s, j, ps.take(t)) == Decoded::Found(
            ps,
            j + spec_encode_pairs(ps, t).len() + 1,
        ),
    decreases ps, ps.len() - t,
{
    let body = spec_encode_pairs(ps, t);
    assert forall|q: int| j <= q < j + body.len() implies s[q] == body[q - j] by {
        assert(s.subrange(j, j + body.len())[q - j] == s[q]);
    }
    if t == ps.len() {
        assert(ps.take(t) =~= ps);
    } else {
        let key = ps[t].0;
        let ke = spec_encode(BValue::Str(key));
        let ve = spec_encode(ps[t].1);
        let rest = spec_encode_pairs(ps, t + 1);
        assert(ke == dec_digits(key.len()) + seq![COLON] + key);
        assert(body == dec_digits(key.len()) + seq![COLON] + key + ve + rest);
        assert(body =~= ke + ve + rest);
        lemma_encode_first(BValue::Str(key));
        assert(s[j] == body[0]);
        assert(body[0] == ke[0]);
        assert(is_digit_byte(s[j]));
        assert(s[j] != TAG_END);
        assert(s.subrange(j, j + ke.len()) =~= ke);
        lemma_decode_str_enc(key, s, j);
        assert(!has_key(ps.take(t), key)) by {
            if has_key(ps.take(t), key) {
                let y = choose|y: int| 0 <= y < ps.take(t).len() && ps.take(t)[y].0 == key;
                assert(ps[y].0 == key);
                assert(lex_lt(ps[y].0, ps[t].0));
                lemma_lex_irrefl(key);
            }
        }
        lemma_encode_first(ps[t].1);
        assert(s[j + ke.len()] == body[ke.len() as int]);
        assert(body[ke.len() as int] == ve[0]);
        assert(s.subrange(j + ke.len(), j + ke.len() + ve.len()) =~= ve);
        lemma_decode_encoded(ps[t].1, s, j + ke.len());
        assert(ps.take(t).push((key, ps[t].1)) =~= ps.take(t + 1));
        assert(s.subrange(j + ke.len() + ve.len(), j + ke.len() + ve.len() + rest.len())
            =~= rest);
        assert(s[j + ke.len() + ve.len() + rest.len()] == TAG_END);
        lemma_decode_pairs_enc(ps, t + 1, s, j + ke.len() + ve.len());
    }
}

/// Round trip and canonicalization fixpoint: for a well-formed value tree,
/// decoding its encoding yields exactly its canonical form while consuming
/// the whole input, and canonicalizing a second time changes nothing — so
/// decode, encode, decode again is the identity after the first pass.
pub proof fn lemma_round_trip_fixpoint(v: BValue)
    requires
        wf(v),
    ensures
        spec_decode_value(spec_encode(canon(v)), 0) == Decoded::Found(
            canon(v),
            spec_encode(canon(v)).len() as int,
        ),
        canon(canon(v)) == canon(v),
{
    lemma_canon_canonical(v);
    let e = spec_encode(canon(v));
    assert(e.subrange(0, e.len() as int) =~= e);
    lemma_decode_encoded(canon(v), e, 0);
}

} // verus!

verus! {

/// Every value the decoder returns is well-formed (no dictionary repeats a
/// key), and decoding always consumes at least one byte and stays inside
/// the input.
pub proof fn lemma_decoded_wf(s: Seq<u8>, i: int)
    ensures
        match spec_decode_value(s, i) {
            Decoded::Found(v, j) => i < j <= s.len() && wf(v),
            Decoded::Fail(_) => true,
        },
    decreases s.len() - i, 1int,
{
    if 0 <= i && i < s.len() {
        if s[i] == TAG_INT {
            lemma_digits_end_ge(s, i + 1);
            lemma_digits_end_ge(s, i + 2);
        } else if is_digit_byte(s[i]) {
            lemma_digits_end_ge(s, i);
        } else if s[i] == TAG_LIST {
            lemma_decoded_items_wf(s, i + 1, Seq::empty());
        } else if s[i] == TAG_DICT {
            lemma_decoded_pairs_wf(s, i + 1, Seq::empty());
        }
    }
}

/// List-body counterpart of `lemma_decoded_wf`.
pub proof fn lemma_decoded_items_wf(s: Seq<u8>, i: int, acc: Seq<BValue>)
    requires
        forall|k: int| 0 <= k < acc.len() ==> wf(#[trigger] acc[k]),
    ensures
        match spec_decode_items(s, i, acc) {
            Decoded::Found(l, j) => i < j <= s.len() && forall|k: int|
                0 <= k < l.len() ==> wf(#[trigger] l[k]),
            Decoded::Fail(_) => true,
        },
    decreases s.len() - i, 2int,
{
    if 0 <= i && i < s.len() && s[i] != TAG_END {
        let d = spec_decode_value(s, i);
        match d {
            Decoded::Fail(_) => {},
            Decoded::Found(v, j) => {
                lemma_decoded_wf(s, i);
                if i < j && j <= s.len() {
                    lemma_decoded_items_wf(s, j, acc.push(v));
                }
            },
        }
    }
}

/// Dictionary-body counterpart of `lemma_decoded_wf`: the duplicate-key
/// check makes the accumulated keys distinct.
pub proof fn lemma_decoded_pairs_wf(s: Seq<u8>, i: int, acc: Seq<(Seq<u8>, BValue)>)
    requires
        distinct_keys(acc),
        forall|k: int| 0 <= k < acc.len() ==> wf(#[trigger] acc[k].1),
    ensures
        match spec_decode_pairs(s, i, acc) {
            Decoded::Found(ps, j) => i < j <= s.len() && distinct_keys(ps) && forall|k: int|
                0 <= k < ps.len() ==> wf(#[trigger] ps[k].1),
            Decoded::Fail(_) => true,
        },
    decreases s.len() - i, 2int,
{
    if 0 <= i && i < s.len() && s[i] != TAG_END && is_digit_byte(s[i]) {
        let dk = spec_decode_str(s, i);
        match dk {
            Decoded::Fail(_) => {},
            Decoded::Found(key, j) => {
                if i <= j && j <= s.len() && !has_key(acc, key) {
                    let dv = spec_decode_value(s, j);
                    match dv {
                        Decoded::Fail(_) => {},
                        Decoded::Found(v, m) => {
                            lemma_decoded_wf(s, j);
                            if j < m && m <= s.len() {
                                assert(distinct_keys(acc.push((key, v)))) by {
                                    assert forall|x: int, y: int|
                                        0 <= x < y < acc.push((key, v)).len()
                                        implies acc.push((key, v))[x].0
                                            != acc.push((key, v))[y].0 by {
                                        if y == acc.len() {
                                            assert(!has_key(acc, key));
                                            assert(acc[x].0 != key);
                                        }
                                    }
                                }
                                lemma_decoded_pairs_wf(s, m, acc.push((key, v)));
                            }
                        },
                    }
                }
            },
        }
    }
}

/// The full round trip for every accepted input: whatever the decoder
/// returns re-encodes to a canonical form whose decoding gives that same
/// canonical value back — decode, encode, decode is the identity after the
/// first pass.
pub proof fn lemma_decode_encode_decode(s: Seq<u8>)
    ensures
        match spec_decode_value(s, 0) {
            Decoded::Found(v, _) => spec_decode_value(spec_encode(canon(v)), 0)
                == Decoded::Found(canon(v), spec_encode(canon(v)).len() as int)
                && canon(canon(v)) == canon(v),
            Decoded::Fail(_) => true,
        },
{
    lemma_decoded_wf(s, 0);
    match spec_decode_value(s, 0) {
        Decoded::Found(v, _) => {
            lemma_round_trip_fixpoint(v);
        },
        Decoded::Fail(_) => {},
    }
}

} // verus!
