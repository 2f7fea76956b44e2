use vstd::prelude::*;
use crate::value::BValue;
use crate::grammar::{TAG_INT, TAG_LIST, TAG_DICT, TAG_END, COLON, MINUS, DIGIT_ZERO};

verus! {

/// Strict byte-lexicographic order on byte strings: a proper prefix comes
/// first, otherwise the first differing byte decides.
pub open spec fn lex_lt(a: Seq<u8>, b: Seq<u8>) -> bool
    decreases a.len(),
{
    if b.len() == 0 {
        false
    } else if a.len() == 0 {
        true
    } else if a[0] < b[0] {
        true
    } else if a[0] > b[0] {
        false
    } else {
        lex_lt(a.subrange(1, a.len() as int), b.subrange(1, b.len() as int))
    }
}

/// Decimal digits of `n`, most significant first, no superfluous leading
/// zero (`0` itself is the single digit `0`).
pub open spec fn dec_digits(n: nat) -> Seq<u8>
    decreases n,
{
    if n < 10 {
        seq![(DIGIT_ZERO + n) as u8]
    } else {
        dec_digits(n / 10).push((DIGIT_ZERO + n % 10) as u8)
    }
}

/// The canonical integer literal: digits of the magnitude, with `-` in
/// front for a negative value.
pub open spec fn int_literal(n: i64) -> Seq<u8> {
    if n < 0 {
        seq![MINUS] + dec_digits((-(n as int)) as nat)
    } else {
        dec_digits(n as nat)
    }
}

/// Insert `p` into the key-sorted `ps`, after any pair whose key is not
/// strictly greater (so equal keys keep their earlier order).
pub open spec fn insert_pair(
    ps: Seq<(Seq<u8>, BValue)>,
    p: (Seq<u8>, BValue),
) -> Seq<(Seq<u8>, BValue)>
    decreases ps.len(),
{
    if ps.len() == 0 {
        seq![p]
    } else if lex_lt(p.0, ps.last().0) {
        insert_pair(ps.drop_last(), p).push(ps.last())
    } else {
        ps.push(p)
    }
}

/// Stable insertion sort of dictionary pairs by ascending key.
pub open spec fn sort_pairs(ps: Seq<(Seq<u8>, BValue)>) -> Seq<(Seq<u8>, BValue)>
    decreases ps.len(),
{
    if ps.len() == 0 {
        ps
    } else {
        insert_pair(sort_pairs(ps.drop_last()), ps.last())
    }
}

/// Canonical forms of the values `l[t..]`.
pub open spec fn canon_items(l: Seq<BValue>, t: int) -> Seq<BValue>
    decreases l, l.len() - t,
{
    if t < 0 || t >= l.len() {
        Seq::empty()
    } else {
        seq![canon(l[t])] + canon_items(l, t + 1)
    }
}

/// The pairs `ps[t..]` with each value replaced by its canonical form; the
/// keys and their order are untouched.
pub open spec fn canon_vpairs(ps: Seq<(Seq<u8>, BValue)>, t: int) -> Seq<(Seq<u8>, BValue)>
    decreases ps, ps.len() - t,
{
    if t < 0 || t >= ps.len() {
        Seq::empty()
    } else {
        seq![(ps[t].0, canon(ps[t].1))] + canon_vpairs(ps, t + 1)
    }
}

/// The canonical form of a value: the same tree with every dictionary's
/// pairs sorted by ascending key. Encoding always emits the canonical form.
pub open spec fn canon(v: BValue) -> BValue
    decreases v, 0int,
{
    match v {
        BValue::Int(n) => BValue::Int(n),
        BValue::Str(s) => BValue::Str(s),
        BValue::List(l) => BValue::List(canon_items(l, 0)),
        BValue::Dict(ps) => BValue::Dict(sort_pairs(canon_vpairs(ps, 0))),
    }
}

/// Wire bytes of the values `l[t..]`, in order.
pub open spec fn spec_encode_items(l: Seq<BValue>, t: int) -> Seq<u8>
    decreases l, l.len() - t,
{
    if t < 0 || t >= l.len() {
        Seq::empty()
    } else {
        spec_encode(l[t]) + spec_encode_items(l, t + 1)
    }
}

/// Wire bytes of the pairs `ps[t..]`: each key as a byte string, then its
/// value, in order.
pub open spec fn spec_encode_pairs(ps: Seq<(Seq<u8>, BValue)>, t: int) -> Seq<u8>
    decreases ps, ps.len() - t,
{
    if t < 0 || t >= ps.len() {
        Seq::empty()
    } else {
        dec_digits(ps[t].0.len()) + seq![COLON] + ps[t].0 + spec_encode(ps[t].1)
            + spec_encode_pairs(ps, t + 1)
    }
}

/// Wire bytes of a value, emitted as it stands (no sorting): `i..e` for an
/// integer, length `:` bytes for a byte string, `l..e` and `d..e` for the
/// containers.
pub open spec fn spec_encode(v: BValue) -> Seq<u8>
    decreases v, 0int,
{
    match v {
        BValue::Int(n) => seq![TAG_INT] + int_literal(n) + seq![TAG_END],
        BValue::Str(s) => dec_digits(s.len()) + seq![COLON] + s,
        BValue::List(l) => seq![TAG_LIST] + spec_encode_items(l, 0) + seq![TAG_END],
        BValue::Dict(ps) => seq![TAG_DICT] + spec_encode_pairs(ps, 0) + seq![TAG_END],
    }
}

} // verus!

use crate::value::{
    BDecodedChunk, model, model_items, model_pairs,
    lemma_model_items_index, lemma_model_pairs_index,
};

verus! {

/// `canon_items(l, i)` canonicalizes `l[i..]` elementwise.
pub proof fn lemma_canon_items_index(l: Seq<BValue>, i: int)
    requires
        0 <= i <= l.len(),
    ensures
        canon_items(l, i).len() == l.len() - i,
        forall|k: int| 0 <= k < l.len() - i ==> canon_items(l, i)[k] == canon(l[k + i]),
    decreases l.len() - i,
{
    if i < l.len() {
        lemma_canon_items_index(l, i + 1);
        assert forall|k: int| 0 <= k < l.len() - i
            implies canon_items(l, i)[k] == canon(l[k + i]) by {
            if k > 0 {
                assert(canon_items(l, i)[k] == canon_items(l, i + 1)[k - 1]);
            }
        }
    }
}

/// `canon_vpairs(ps, i)` canonicalizes the values of `ps[i..]` pairwise.
pub proof fn lemma_canon_vpairs_index(ps: Seq<(Seq<u8>, BValue)>, i: int)
    requires
        0 <= i <= ps.len(),
    ensures
        canon_vpairs(ps, i).len() == ps.len() - i,
        forall|k: int| 0 <= k < ps.len() - i
            ==> canon_vpairs(ps, i)[k] == (ps[k + i].0, canon(ps[k + i].1)),
    decreases ps.len() - i,
{
    if i < ps.len() {
        lemma_canon_vpairs_index(ps, i + 1);
        assert forall|k: int| 0 <= k < ps.len() - i
            implies canon_vpairs(ps, i)[k] == (ps[k + i].0, canon(ps[k + i].1)) by {
            if k > 0 {
                assert(canon_vpairs(ps, i)[k] == canon_vpairs(ps, i + 1)[k - 1]);
            }
        }
    }
}

/// Canonicalizing values commutes with appending a pair.
pub proof fn lemma_canon_vpairs_push(ps: Seq<(Seq<u8>, BValue)>, p: (Seq<u8>, BValue))
    ensures
        canon_vpairs(ps.push(p), 0) == canon_vpairs(ps, 0).push((p.0, canon(p.1))),
{
    lemma_canon_vpairs_index(ps.push(p), 0);
    lemma_canon_vpairs_index(ps, 0);
    assert(canon_vpairs(ps.push(p), 0) =~= canon_vpairs(ps, 0).push((p.0, canon(p.1))));
}

/// Canonicalizing values commutes with a sorted insertion: the insertion
/// compares keys only, and canonicalization keeps every key.
pub proof fn lemma_canon_insert(ps: Seq<(Seq<u8>, BValue)>, p: (Seq<u8>, BValue))
    ensures
        canon_vpairs(insert_pair(ps, p), 0) == insert_pair(canon_vpairs(ps, 0), (p.0, canon(p.1))),
    decreases ps.len(),
{
    let cp = (p.0, canon(p.1));
    let cps = canon_vpairs(ps, 0);
    lemma_canon_vpairs_index(ps, 0);
    if ps.len() == 0 {
        lemma_canon_vpairs_index(seq![p], 0);
        assert(canon_vpairs(seq![p], 0) =~= seq![cp]);
    } else {
        assert(cps.last() == (ps.last().0, canon(ps.last().1)));
        if lex_lt(p.0, ps.last().0) {
            lemma_canon_insert(ps.drop_last(), p);
            lemma_canon_vpairs_push(insert_pair(ps.drop_last(), p), ps.last());
            lemma_canon_vpairs_index(ps.drop_last(), 0);
            assert(canon_vpairs(ps.drop_last(), 0) =~= cps.drop_last());
        } else {
            lemma_canon_vpairs_push(ps, p);
        }
    }
}

/// Canonicalizing values commutes with sorting by key.
pub proof fn lemma_canon_sort(ps: Seq<(Seq<u8>, BValue)>)
    ensures
        canon_vpairs(sort_pairs(ps), 0) == sort_pairs(canon_vpairs(ps, 0)),
    decreases ps.len(),
{
    let cps = canon_vpairs(ps, 0);
    lemma_canon_vpairs_index(ps, 0);
    if ps.len() == 0 {
        assert(canon_vpairs(ps, 0) =~= Seq::<(Seq<u8>, BValue)>::empty());
    } else {
        lemma_canon_sort(ps.drop_last());
        lemma_canon_insert(sort_pairs(ps.drop_last()), ps.last());
        lemma_canon_vpairs_index(ps.drop_last(), 0);
        assert(canon_vpairs(ps.drop_last(), 0) =~= cps.drop_last());
        assert(cps.last() == (ps.last().0, canon(ps.last().1)));
    }
}

/// The model pair a sort-order index stands for.
pub open spec fn pair_model_at(ps: Seq<(Vec<u8>, BDecodedChunk)>, ix: usize) -> (Seq<u8>, BValue) {
    (ps[ix as int].0@, model(ps[ix as int].1))
}

/// The model pairs an index order stands for, in that order.
pub open spec fn idx_pairs(
    ps: Seq<(Vec<u8>, BDecodedChunk)>,
    ord: Seq<usize>,
) -> Seq<(Seq<u8>, BValue)> {
    ord.map_values(|ix: usize| pair_model_at(ps, ix))
}

/// Byte-lexicographic comparison of two byte vectors.
#[verifier::loop_isolation(false)]
fn lex_lt_bytes(a: &Vec<u8>, b: &Vec<u8>) -> (r: bool)
    ensures
        r == lex_lt(a@, b@),
{
    proof {
        assert(a@.skip(0) =~= a@);
        assert(b@.skip(0) =~= b@);
    }
    let mut t: usize = 0;
    loop
        invariant
            t <= a.len(),
            t <= b.len(),
            lex_lt(a@, b@) == lex_lt(a@.skip(t as int), b@.skip(t as int)),
        decreases a.len() - t,
    {
        if t >= b.len() {
            return false;
        }
        if t >= a.len() {
            return true;
        }
        if a[t] < b[t] {
            return true;
        }
        if a[t] > b[t] {
            return false;
        }
        proof {
            assert(a@.skip(t as int).subrange(1, a@.skip(t as int).len() as int)
                =~= a@.skip(t as int + 1));
            assert(b@.skip(t as int).subrange(1, b@.skip(t as int).len() as int)
                =~= b@.skip(t as int + 1));
        }
        t = t + 1;
    }
}

/// Index order that reads the pairs in ascending key order: a stable
/// insertion sort mirroring `sort_pairs`.
#[verifier::loop_isolation(false)]
fn sort_key_order(ps: &Vec<(Vec<u8>, BDecodedChunk)>) -> (order: Vec<usize>)
    ensures
        order@.len() == ps.len(),
        forall|t: int| 0 <= t < order@.len() ==> order@[t] < ps.len(),
        idx_pairs(ps@, order@) == sort_pairs(model_pairs(ps@, 0)),
{
    proof {
        lemma_model_pairs_index(ps@, 0);
    }
    let ghost mps = model_pairs(ps@, 0);
    let mut order: Vec<usize> = Vec::new();
    let mut q: usize = 0;
    proof {
        assert(idx_pairs(ps@, order@) =~= sort_pairs(mps.take(0)));
    }
    while q < ps.len()
        invariant
            q <= ps.len(),
            order@.len() == q,
            forall|t: int| 0 <= t < q ==> order@[t] < ps.len(),
            idx_pairs(ps@, order@) == sort_pairs(mps.take(q as int)),
        decreases ps.len() - q,
    {
        let ghost p = pair_model_at(ps@, q);
        let ghost sorted = idx_pairs(ps@, order@);
        let mut pos: usize = order.len();
        proof {
            assert(sorted.skip(pos as int) =~= Seq::<(Seq<u8>, BValue)>::empty());
            assert(sorted.take(pos as int) =~= sorted);
            assert(insert_pair(sorted, p)
                =~= insert_pair(sorted.take(pos as int), p) + sorted.skip(pos as int));
        }
        while pos > 0 && lex_lt_bytes(&ps[q].0, &ps[order[pos - 1]].0)
            invariant
                pos <= order@.len(),
                insert_pair(sorted, p)
                    == insert_pair(sorted.take(pos as int), p) + sorted.skip(pos as int),
            decreases pos,
        {
            proof {
                assert(sorted[pos - 1] == pair_model_at(ps@, order@[pos - 1]));
                assert(sorted.take(pos as int).last() == sorted[pos - 1]);
                assert(sorted.take(pos as int).drop_last() =~= sorted.take(pos as int - 1));
                assert(insert_pair(sorted.take(pos as int), p)
                    == insert_pair(sorted.take(pos as int - 1), p).push(sorted[pos - 1]));
                assert(insert_pair(sorted.take(pos as int - 1), p).push(sorted[pos - 1])
                    + sorted.skip(pos as int)
                    =~= insert_pair(sorted.take(pos as int - 1), p) + sorted.skip(pos as int - 1));
            }
            pos = pos - 1;
        }
        proof {
            if pos == 0 {
                assert(sorted.take(0) =~= Seq::<(Seq<u8>, BValue)>::empty());
                assert(insert_pair(sorted, p) =~= sorted.insert(0, p));
            } else {
                assert(sorted[pos - 1] == pair_model_at(ps@, order@[pos - 1]));
                assert(!lex_lt(p.0, sorted[pos - 1].0));
                assert(sorted.take(pos as int).last() == sorted[pos - 1]);
                assert(insert_pair(sorted.take(pos as int), p)
                    == sorted.take(pos as int).push(p));
                assert(sorted.take(pos as int).push(p) + sorted.skip(pos as int)
                    =~= sorted.insert(pos as int, p));
            }
        }
        order.insert(pos, q);
        q = q + 1;
        proof {
            assert(idx_pairs(ps@, order@) =~= sorted.insert(pos as int, p));
            assert(mps.take(q as int).drop_last() =~= mps.take(q as int - 1));
            assert(mps.take(q as int).last() == p);
            assert(sort_pairs(mps.take(q as int))
                == insert_pair(sort_pairs(mps.take(q as int - 1)), p));
        }
    }
    proof {
        assert(mps.take(ps.len() as int) =~= mps);
    }
    order
}

} // verus!

verus! {

/// Append the decimal digits of `n`, most significant first.
fn push_digits(out: &mut Vec<u8>, n: u64)
    ensures
        final(out)@ == old(out)@ + dec_digits(n as nat),
    decreases n,
{
    if n < 10 {
        out.push(DIGIT_ZERO + n as u8);
        proof {
            assert(out@ =~= old(out)@ + dec_digits(n as nat));
        }
    } else {
        push_digits(out, n / 10);
        out.push(DIGIT_ZERO + (n % 10) as u8);
        proof {
            assert(out@ =~= old(out)@ + dec_digits(n as nat));
        }
    }
}

/// Append the canonical literal of `n`: `-` and the magnitude's digits.
fn push_int_literal(out: &mut Vec<u8>, n: i64)
    ensures
        final(out)@ == old(out)@ + int_literal(n),
{
    if n < 0 {
        out.push(MINUS);
        let m: u64 = if n == i64::MIN {
            0x8000_0000_0000_0000u64
        } else {
            (-n) as u64
        };
        push_digits(out, m);
        proof {
            assert(out@ =~= old(out)@ + int_literal(n));
        }
    } else {
        push_digits(out, n as u64);
    }
}

/// Append all of `bs`.
#[verifier::loop_isolation(false)]
fn push_all(out: &mut Vec<u8>, bs: &Vec<u8>)
    ensures
        final(out)@ == old(out)@ + bs@,
{
    let mut t: usize = 0;
    while t < bs.len()
        invariant
            t <= bs.len(),
            out@ == old(out)@ + bs@.take(t as int),
        decreases bs.len() - t,
    {
        out.push(bs[t]);
        proof {
            assert(old(out)@ + bs@.take(t as int + 1)
                =~= (old(out)@ + bs@.take(t as int)).push(bs@[t as int]));
        }
        t = t + 1;
    }
    proof {
        assert(bs@.take(bs.len() as int) =~= bs@);
    }
}

/// Append the wire form of `v`'s canonical tree.
#[verifier::loop_isolation(false)]
fn encode_into(v: &BDecodedChunk, out: &mut Vec<u8>)
    ensures
        final(out)@ == old(out)@ + spec_encode(canon(model(*v))),
    decreases v,
{
    match v {
        BDecodedChunk::Integer(n) => {
            out.push(TAG_INT);
            push_int_literal(out, *n);
            out.push(TAG_END);
            proof {
                assert(out@ =~= old(out)@ + spec_encode(canon(model(*v))));
            }
        },
        BDecodedChunk::ByteString(bs) => {
            push_digits(out, bs.len() as u64);
            out.push(COLON);
            push_all(out, bs);
            proof {
                assert(out@ =~= old(out)@ + spec_encode(canon(model(*v))));
            }
        },
        BDecodedChunk::List(l) => {
            let ghost cl = canon_items(model_items(l@, 0), 0);
            proof {
                lemma_model_items_index(l@, 0);
                lemma_canon_items_index(model_items(l@, 0), 0);
            }
            out.push(TAG_LIST);
            let ghost base = out@;
            let mut t: usize = 0;
            while t < l.len()
                invariant
                    t <= l.len(),
                    out@ + spec_encode_items(cl, t as int) == base + spec_encode_items(cl, 0),
                decreases l.len() - t,
            {
                encode_into(&l[t], out);
                proof {
                    assert(cl[t as int] == canon(model(l@[t as int])));
                    assert(spec_encode_items(cl, t as int)
                        == spec_encode(cl[t as int]) + spec_encode_items(cl, t as int + 1));
                    assert(out@ + spec_encode_items(cl, t as int + 1)
                        =~= base + spec_encode_items(cl, 0));
                }
                t = t + 1;
            }
            out.push(TAG_END);
            proof {
                assert(spec_encode_items(cl, l.len() as int) =~= Seq::<u8>::empty());
                assert(out@ =~= old(out)@ + spec_encode(canon(model(*v))));
            }
        },
        BDecodedChunk::Dictionary(ps) => {
            let ghost mps = model_pairs(ps@, 0);
            let ghost spairs = sort_pairs(canon_vpairs(mps, 0));
            proof {
                lemma_model_pairs_index(ps@, 0);
                lemma_canon_sort(mps);
            }
            out.push(TAG_DICT);
            let order = sort_key_order(ps);
            proof {
                lemma_canon_vpairs_index(idx_pairs(ps@, order@), 0);
            }
            let ghost base = out@;
            let mut t: usize = 0;
            while t < order.len()
                invariant
                    t <= order.len(),
                    out@ + spec_encode_pairs(spairs, t as int) == base + spec_encode_pairs(spairs, 0),
                decreases order.len() - t,
            {
                let ix = order[t];
                proof {
                    assert(idx_pairs(ps@, order@)[t as int] == pair_model_at(ps@, order@[t as int]));
                    assert(spairs == canon_vpairs(idx_pairs(ps@, order@), 0));
                    assert(spairs[t as int]
                        == (ps@[ix as int].0@, canon(model(ps@[ix as int].1))));
                }
                push_digits(out, ps[ix].0.len() as u64);
                out.push(COLON);
                push_all(out, &ps[ix].0);
                proof {
                    assert(decreases_to!(*v => ps@[ix as int].1));
                }
                encode_into(&ps[ix].1, out);
                proof {
                    assert(spec_encode_pairs(spairs, t as int)
                        == dec_digits(spairs[t as int].0.len()) + seq![COLON] + spairs[t as int].0
                            + spec_encode(spairs[t as int].1)
                            + spec_encode_pairs(spairs, t as int + 1));
                    assert(out@ + spec_encode_pairs(spairs, t as int + 1)
                        =~= base + spec_encode_pairs(spairs, 0));
                }
                t = t + 1;
            }
            out.push(TAG_END);
            proof {
                assert(spec_encode_pairs(spairs, order@.len() as int) =~= Seq::<u8>::empty());
                assert(out@ =~= old(out)@ + spec_encode(canon(model(*v))));
            }
        },
    }
}

/// Encode a value tree to its unique canonical wire form: integers as
/// `i..e`, byte strings length-prefixed, lists in their given order, and
/// every dictionary with its keys sorted in ascending byte-lexicographic
/// order. Total: every tree has exactly one canonical encoding.
pub fn encode(v: &BDecodedChunk) -> (r: Vec<u8>)
    ensures
        r@ == spec_encode(canon(model(*v))),
{
    let mut out: Vec<u8> = Vec::new();
    encode_into(v, &mut out);
    proof {
        assert(Seq::<u8>::empty() + spec_encode(canon(model(*v)))
            =~= spec_encode(canon(model(*v))));
    }
    out
}

} // verus!

use crate::value::BencodeError;
use crate::grammar::{Decoded, spec_decode_value};
use crate::decode::bdecode;

verus! {

/// Types with a Bencode wire form.
pub trait Bencode {
    /// The value this datum stands for.
    spec fn bmodel(&self) -> BValue;

    /// Emit the canonical wire form of this datum.
    fn bencode(&self) -> (r: Vec<u8>)
        ensures
            r@ == spec_encode(canon(self.bmodel())),
    ;
}

impl Bencode for BDecodedChunk {
    open spec fn bmodel(&self) -> BValue {
        model(*self)
    }

    fn bencode(&self) -> (r: Vec<u8>) {
        encode(self)
    }
}

impl Bencode for i64 {
    open spec fn bmodel(&self) -> BValue {
        BValue::Int(*self)
    }

    fn bencode(&self) -> (r: Vec<u8>) {
        encode(&BDecodedChunk::Integer(*self))
    }
}

/// Sources a Bencode value of kind `T` can be decoded from.
pub trait BencodeDecodable<T: Bencode> {
    /// The byte sequence this datum presents to the decoder.
    spec fn bsource(&self) -> Seq<u8>;

    /// The exact outcome decoding this source must report.
    spec fn bdecodes_to(&self, r: Result<T, BencodeError>) -> bool;

    fn decode_bencode(&self) -> (r: Result<T, BencodeError>)
        ensures
            self.bdecodes_to(r),
    ;
}

impl BencodeDecodable<BDecodedChunk> for Vec<u8> {
    open spec fn bsource(&self) -> Seq<u8> {
        self@
    }

    open spec fn bdecodes_to(&self, r: Result<BDecodedChunk, BencodeError>) -> bool {
        match spec_decode_value(self@, 0) {
            Decoded::Found(b, _) => r matches Ok(v) && model(v) == b,
            Decoded::Fail(e) => r matches Err(e2) && e2 == e,
        }
    }

    fn decode_bencode(&self) -> (r: Result<BDecodedChunk, BencodeError>) {
        bdecode(self)
    }
}

} // verus!
