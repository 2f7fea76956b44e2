use vstd::prelude::*;

verus! {

/// A decoded Bencode value: a tagged tree with one node per wire value.
///
/// A dictionary is kept as the sequence of its key/value pairs in the order
/// the input presented them (decoding preserves insertion order; encoding
/// sorts the keys into canonical byte-lexicographic order). A decoded
/// dictionary never holds two pairs with the same key: the decoder rejects
/// duplicate keys as malformed input.
#[derive(Debug, PartialEq, Eq)]
pub enum BDecodedChunk {
    Integer(i64),
    ByteString(Vec<u8>),
    List(Vec<BDecodedChunk>),
    Dictionary(Vec<(Vec<u8>, BDecodedChunk)>),
}

/// Why a decode failed. Decoding aborts on the first violation; no partial
/// tree is ever returned.
#[derive(Debug, Clone, Copy, PartialEq, Eq, Structural)]
pub enum BencodeError {
    /// The bytes do not match the grammar at the current position.
    Malformed,
    /// The input ended before a required terminator or byte count was met.
    UnexpectedEnd,
    /// A typed entry point was used but the value's leading tag differs from
    /// the requested kind.
    TypeMismatch,
    /// An integer literal exceeds the signed 64-bit range.
    Overflow,
}

/// The mathematical model of a decoded value, used by every contract.
pub enum BValue {
    Int(i64),
    Str(Seq<u8>),
    List(Seq<BValue>),
    Dict(Seq<(Seq<u8>, BValue)>),
}

/// The model of a list tail `l[i..]`.
pub open spec fn model_items(l: Seq<BDecodedChunk>, i: int) -> Seq<BValue>
    decreases l, l.len() - i,
{
    if i < 0 || i >= l.len() {
        Seq::empty()
    } else {
        seq![model(l[i])] + model_items(l, i + 1)
    }
}

/// The model of a dictionary tail `ps[i..]`.
pub open spec fn model_pairs(ps: Seq<(Vec<u8>, BDecodedChunk)>, i: int) -> Seq<(Seq<u8>, BValue)>
    decreases ps, ps.len() - i,
{
    if i < 0 || i >= ps.len() {
        Seq::empty()
    } else {
        seq![(ps[i].0@, model(ps[i].1))] + model_pairs(ps, i + 1)
    }
}

/// The model of a value tree.
pub open spec fn model(v: BDecodedChunk) -> BValue
    decreases v, 0int,
{
    match v {
        BDecodedChunk::Integer(n) => BValue::Int(n),
        BDecodedChunk::ByteString(s) => BValue::Str(s@),
        BDecodedChunk::List(l) => BValue::List(model_items(l@, 0)),
        BDecodedChunk::Dictionary(ps) => BValue::Dict(model_pairs(ps@, 0)),
    }
}

/// `model_items(l, i)` lists the models of `l[i..]`, one per element.
pub proof fn lemma_model_items_index(l: Seq<BDecodedChunk>, i: int)
    requires
        0 <= i <= l.len(),
    ensures
        model_items(l, i).len() == l.len() - i,
        forall|k: int| 0 <= k < l.len() - i ==> model_items(l, i)[k] == model(l[k + i]),
    decreases l.len() - i,
{
    if i < l.len() {
        lemma_model_items_index(l, i + 1);
        assert forall|k: int| 0 <= k < l.len() - i
            implies model_items(l, i)[k] == model(l[k + i]) by {
            if k > 0 {
                assert(model_items(l, i)[k] == model_items(l, i + 1)[k - 1]);
            }
        }
    }
}

/// `model_pairs(ps, i)` lists the models of `ps[i..]`, one per pair.
pub proof fn lemma_model_pairs_index(ps: Seq<(Vec<u8>, BDecodedChunk)>, i: int)
    requires
        0 <= i <= ps.len(),
    ensures
        model_pairs(ps, i).len() == ps.len() - i,
        forall|k: int| 0 <= k < ps.len() - i
            ==> model_pairs(ps, i)[k] == (ps[k + i].0@, model(ps[k + i].1)),
    decreases ps.len() - i,
{
    if i < ps.len() {
        lemma_model_pairs_index(ps, i + 1);
        assert forall|k: int| 0 <= k < ps.len() - i
            implies model_pairs(ps, i)[k] == (ps[k + i].0@, model(ps[k + i].1)) by {
            if k > 0 {
                assert(model_pairs(ps, i)[k] == model_pairs(ps, i + 1)[k - 1]);
            }
        }
    }
}

/// Appending an element appends its model.
pub proof fn lemma_model_items_push(l: Seq<BDecodedChunk>, c: BDecodedChunk, i: int)
    requires
        0 <= i <= l.len(),
    ensures
        model_items(l.push(c), i) == model_items(l, i).push(model(c)),
    decreases l.len() - i,
{
    if i == l.len() {
        assert(l.push(c)[i] == c);
        assert(model_items(l.push(c), i + 1) =~= Seq::<BValue>::empty());
        assert(model_items(l.push(c), i) =~= model_items(l, i).push(model(c)));
    } else {
        lemma_model_items_push(l, c, i + 1);
        assert(l.push(c)[i] == l[i]);
        assert(model_items(l.push(c), i) =~= model_items(l, i).push(model(c)));
    }
}

/// Appending a pair appends its model.
pub proof fn lemma_model_pairs_push(
    ps: Seq<(Vec<u8>, BDecodedChunk)>,
    p: (Vec<u8>, BDecodedChunk),
    i: int,
)
    requires
        0 <= i <= ps.len(),
    ensures
        model_pairs(ps.push(p), i) == model_pairs(ps, i).push((p.0@, model(p.1))),
    decreases ps.len() - i,
{
    if i == ps.len() {
        assert(ps.push(p)[i] == p);
        assert(model_pairs(ps.push(p), i + 1) =~= Seq::<(Seq<u8>, BValue)>::empty());
        assert(model_pairs(ps.push(p), i) =~= model_pairs(ps, i).push((p.0@, model(p.1))));
    } else {
        lemma_model_pairs_push(ps, p, i + 1);
        assert(ps.push(p)[i] == ps[i]);
        assert(model_pairs(ps.push(p), i) =~= model_pairs(ps, i).push((p.0@, model(p.1))));
    }
}

} // verus!
