use vstd::prelude::*;

verus! {

/// Mathematical model of a decoded bencode node: the value tree that the
/// decoder's contracts are stated over.
pub enum SpecValue {
    /// A signed whole number, `i42e` on the wire.
    Int(i64),
    /// A length-prefixed run of raw bytes, `4:spam` on the wire.
    Bytes(Seq<u8>),
    /// An ordered sequence of values, `l...e` on the wire.
    List(Seq<SpecValue>),
    /// Key/value pairs in encounter order, `d...e` on the wire; keys are byte strings.
    Dict(Seq<(Seq<u8>, SpecValue)>),
}

/// Canonical decimal digits of `n`, most significant first.
pub open spec fn spec_digits(n: nat) -> Seq<u8>
    decreases n,
{
    if n < 10 {
        seq![(48 + n) as u8]
    } else {
        spec_digits(n / 10).push((48 + n % 10) as u8)
    }
}

/// Canonical decimal representation of a signed integer.
pub open spec fn spec_int_digits(i: int) -> Seq<u8> {
    if i < 0 {
        seq![45u8] + spec_digits((-i) as nat)
    } else {
        spec_digits(i as nat)
    }
}

/// Encoding of a byte string: decimal length, `:`, then the raw bytes.
pub open spec fn spec_encode_bytes(b: Seq<u8>) -> Seq<u8> {
    spec_digits(b.len()) + seq![58u8] + b
}

/// The unique bencode encoding of a value.
pub open spec fn spec_encode(v: SpecValue) -> Seq<u8>
    decreases v,
{
    match v {
        SpecValue::Int(i) => seq![105u8] + spec_int_digits(i as int) + seq![101u8],
        SpecValue::Bytes(b) => spec_encode_bytes(b),
        SpecValue::List(xs) => seq![108u8] + spec_encode_seq(xs) + seq![101u8],
        SpecValue::Dict(ps) => seq![100u8] + spec_encode_pairs(ps) + seq![101u8],
    }
}

/// Concatenation of the encodings of a sequence of values (a list body).
pub open spec fn spec_encode_seq(xs: Seq<SpecValue>) -> Seq<u8>
    decreases xs,
{
    if xs.len() == 0 {
        Seq::empty()
    } else {
        spec_encode(xs[0]) + spec_encode_seq(xs.drop_first())
    }
}

/// Concatenation of the encodings of key/value pairs (a dictionary body).
pub open spec fn spec_encode_pairs(ps: Seq<(Seq<u8>, SpecValue)>) -> Seq<u8>
    decreases ps,
{
    if ps.len() == 0 {
        Seq::empty()
    } else {
        spec_encode_bytes(ps[0].0) + spec_encode(ps[0].1) + spec_encode_pairs(
            ps.drop_first(),
        )
    }
}

/// A decoded bencode node.  Containers own their children exclusively; a
/// dictionary keeps its pairs in the order they appeared in the input.
#[derive(Debug, PartialEq, Eq)]
pub enum Value {
    Int(i64),
    Bytes(Vec<u8>),
    List(Vec<Value>),
    Dict(Vec<(Vec<u8>, Value)>),
}

/// The mathematical value that a decoded node stands for.
pub open spec fn spec_view(v: Value) -> SpecValue
    decreases v via spec_view_decreases
{
    match v {
        Value::Int(i) => SpecValue::Int(i),
        Value::Bytes(b) => SpecValue::Bytes(b@),
        Value::List(xs) => SpecValue::List(spec_view_list(xs@)),
        Value::Dict(ps) => SpecValue::Dict(spec_view_pairs(ps@)),
    }
}

#[via_fn]
proof fn spec_view_decreases(v: Value) {
    broadcast use vstd::std_specs::vec::group_vec_axioms;

    match v {
        Value::List(xs) => {
            assert(decreases_to!(v => xs));
        },
        Value::Dict(ps) => {
            assert(decreases_to!(v => ps));
        },
        _ => {},
    }
}

/// Element-wise view of a decoded list body.
pub open spec fn spec_view_list(xs: Seq<Value>) -> Seq<SpecValue>
    decreases xs,
{
    if xs.len() == 0 {
        Seq::empty()
    } else {
        seq![spec_view(xs[0])] + spec_view_list(xs.drop_first())
    }
}

/// Element-wise view of a decoded dictionary body.
pub open spec fn spec_view_pairs(ps: Seq<(Vec<u8>, Value)>) -> Seq<(Seq<u8>, SpecValue)>
    decreases ps,
{
    if ps.len() == 0 {
        Seq::empty()
    } else {
        seq![(ps[0].0@, spec_view(ps[0].1))] + spec_view_pairs(ps.drop_first())
    }
}

impl View for Value {
    type V = SpecValue;

    open spec fn view(&self) -> SpecValue {
        spec_view(*self)
    }
}

/// Every encoding is at least two bytes long, and its lead byte names the
/// production that built it: `i`, a digit, `l`, or `d` — never `e`.
pub proof fn lemma_encode_shape(v: SpecValue)
    ensures
        spec_encode(v).len() >= 2,
        v matches SpecValue::Int(i) ==> spec_encode(v)[0] == 105,
        v matches SpecValue::Bytes(b) ==> crate::numrep::is_ascii_digit(spec_encode(v)[0]),
        v matches SpecValue::List(xs) ==> spec_encode(v)[0] == 108,
        v matches SpecValue::Dict(ps) ==> spec_encode(v)[0] == 100,
        spec_encode(v)[0] != 101,
{
    match v {
        SpecValue::Int(i) => {
            crate::numrep::lemma_spec_digits(if i < 0 { (-(i as int)) as nat } else { i as nat });
        },
        SpecValue::Bytes(b) => {
            crate::numrep::lemma_spec_digits(b.len());
        },
        SpecValue::List(xs) => {},
        SpecValue::Dict(ps) => {},
    }
}

/// The characters of a canonical integer body are a sign or digits; in
/// particular none of them is the terminator `e`.
pub proof fn lemma_int_digits_chars(i: int)
    ensures
        spec_int_digits(i).len() >= 1,
        forall|k: int|
            0 <= k < spec_int_digits(i).len()
                ==> #[trigger] spec_int_digits(i)[k] == 45
                || crate::numrep::is_ascii_digit(spec_int_digits(i)[k]),
{
    if i < 0 {
        crate::numrep::lemma_spec_digits((-i) as nat);
    } else {
        crate::numrep::lemma_spec_digits(i as nat);
    }
}

/// Appending a value to a list body appends its encoding.
pub proof fn lemma_encode_seq_push(xs: Seq<SpecValue>, v: SpecValue)
    ensures
        spec_encode_seq(xs.push(v)) =~= spec_encode_seq(xs) + spec_encode(v),
    decreases xs.len(),
{
    if xs.len() == 0 {
        assert(xs.push(v) =~= seq![v]);
        assert(seq![v].drop_first() =~= Seq::<SpecValue>::empty());
        assert(spec_encode_seq(seq![v]) == spec_encode(v) + spec_encode_seq(Seq::empty()));
        assert(spec_encode_seq(xs.push(v)) =~= spec_encode_seq(xs) + spec_encode(v));
    } else {
        assert(xs.push(v)[0] == xs[0]);
        assert(xs.push(v).drop_first() =~= xs.drop_first().push(v));
        lemma_encode_seq_push(xs.drop_first(), v);
    }
}

/// A list body splits at any point into the encodings of the two halves.
pub proof fn lemma_encode_seq_split(xs: Seq<SpecValue>, k: int)
    requires
        0 <= k <= xs.len(),
    ensures
        spec_encode_seq(xs) =~= spec_encode_seq(xs.take(k)) + spec_encode_seq(xs.skip(k)),
    decreases k,
{
    if k == 0 {
        assert(xs.take(0) =~= Seq::<SpecValue>::empty());
        assert(xs.skip(0) =~= xs);
    } else {
        let t = xs.drop_first();
        lemma_encode_seq_split(t, k - 1);
        assert(xs.take(k)[0] == xs[0]);
        assert(xs.take(k).drop_first() =~= t.take(k - 1));
        assert(xs.skip(k) =~= t.skip(k - 1));
        assert(spec_encode_seq(xs.take(k))
            == spec_encode(xs[0]) + spec_encode_seq(t.take(k - 1)));
    }
}

/// The tail of a list body starts with the encoding of its next element.
pub proof fn lemma_encode_seq_skip_unfold(xs: Seq<SpecValue>, k: int)
    requires
        0 <= k < xs.len(),
    ensures
        spec_encode_seq(xs.skip(k)) =~= spec_encode(xs[k]) + spec_encode_seq(xs.skip(k + 1)),
{
    assert(xs.skip(k)[0] == xs[k]);
    assert(xs.skip(k).drop_first() =~= xs.skip(k + 1));
}

/// Appending a pair to a dictionary body appends the key and value encodings.
pub proof fn lemma_encode_pairs_push(ps: Seq<(Seq<u8>, SpecValue)>, p: (Seq<u8>, SpecValue))
    ensures
        spec_encode_pairs(ps.push(p)) =~= spec_encode_pairs(ps) + spec_encode_bytes(p.0)
            + spec_encode(p.1),
    decreases ps.len(),
{
    if ps.len() == 0 {
        assert(ps.push(p) =~= seq![p]);
        assert(seq![p].drop_first() =~= Seq::<(Seq<u8>, SpecValue)>::empty());
        assert(spec_encode_pairs(Seq::<(Seq<u8>, SpecValue)>::empty()) =~= Seq::empty());
        assert(spec_encode_pairs(seq![p])
            == spec_encode_bytes(p.0) + spec_encode(p.1)
                + spec_encode_pairs(seq![p].drop_first()));
        assert(spec_encode_pairs(ps.push(p))
            =~= spec_encode_pairs(ps) + spec_encode_bytes(p.0) + spec_encode(p.1));
    } else {
        assert(ps.push(p)[0] == ps[0]);
        assert(ps.push(p).drop_first() =~= ps.drop_first().push(p));
        lemma_encode_pairs_push(ps.drop_first(), p);
    }
}

/// A dictionary body splits at any pair boundary.
pub proof fn lemma_encode_pairs_split(ps: Seq<(Seq<u8>, SpecValue)>, k: int)
    requires
        0 <= k <= ps.len(),
    ensures
        spec_encode_pairs(ps) =~= spec_encode_pairs(ps.take(k)) + spec_encode_pairs(ps.skip(k)),
    decreases k,
{
    if k == 0 {
        assert(ps.take(0) =~= Seq::<(Seq<u8>, SpecValue)>::empty());
        assert(ps.skip(0) =~= ps);
    } else {
        let t = ps.drop_first();
        lemma_encode_pairs_split(t, k - 1);
        assert(ps.take(k)[0] == ps[0]);
        assert(ps.take(k).drop_first() =~= t.take(k - 1));
        assert(ps.skip(k) =~= t.skip(k - 1));
        assert(spec_encode_pairs(ps.take(k))
            == spec_encode_bytes(ps[0].0) + spec_encode(ps[0].1)
                + spec_encode_pairs(t.take(k - 1)));
    }
}

/// The tail of a dictionary body starts with its next key and value.
pub proof fn lemma_encode_pairs_skip_unfold(ps: Seq<(Seq<u8>, SpecValue)>, k: int)
    requires
        0 <= k < ps.len(),
    ensures
        spec_encode_pairs(ps.skip(k)) =~= spec_encode_bytes(ps[k].0) + spec_encode(ps[k].1)
            + spec_encode_pairs(ps.skip(k + 1)),
{
    assert(ps.skip(k)[0] == ps[k]);
    assert(ps.skip(k).drop_first() =~= ps.skip(k + 1));
}

/// The view of a list body has one entry per decoded element.
pub proof fn lemma_view_list_len(xs: Seq<Value>)
    ensures
        spec_view_list(xs).len() == xs.len(),
    decreases xs.len(),
{
    if xs.len() > 0 {
        lemma_view_list_len(xs.drop_first());
    }
}

/// Pushing a decoded element pushes its view.
pub proof fn lemma_view_list_push(xs: Seq<Value>, v: Value)
    ensures
        spec_view_list(xs.push(v)) =~= spec_view_list(xs) + seq![spec_view(v)],
    decreases xs.len(),
{
    if xs.len() == 0 {
        assert(xs.push(v) =~= seq![v]);
        assert(seq![v].drop_first() =~= Seq::<Value>::empty());
        assert(spec_view_list(Seq::<Value>::empty()) =~= Seq::empty());
        assert(spec_view_list(seq![v])
            == seq![spec_view(v)] + spec_view_list(seq![v].drop_first()));
        assert(spec_view_list(xs.push(v)) =~= spec_view_list(xs) + seq![spec_view(v)]);
    } else {
        assert(xs.push(v)[0] == xs[0]);
        assert(xs.push(v).drop_first() =~= xs.drop_first().push(v));
        lemma_view_list_push(xs.drop_first(), v);
    }
}

/// The view of a dictionary body has one entry per decoded pair.
pub proof fn lemma_view_pairs_len(ps: Seq<(Vec<u8>, Value)>)
    ensures
        spec_view_pairs(ps).len() == ps.len(),
    decreases ps.len(),
{
    if ps.len() > 0 {
        lemma_view_pairs_len(ps.drop_first());
    }
}

/// Pushing a decoded pair pushes its view.
pub proof fn lemma_view_pairs_push(ps: Seq<(Vec<u8>, Value)>, p: (Vec<u8>, Value))
    ensures
        spec_view_pairs(ps.push(p)) =~= spec_view_pairs(ps) + seq![(p.0@, spec_view(p.1))],
    decreases ps.len(),
{
    if ps.len() == 0 {
        assert(ps.push(p) =~= seq![p]);
        assert(seq![p].drop_first() =~= Seq::<(Vec<u8>, Value)>::empty());
        assert(spec_view_pairs(Seq::<(Vec<u8>, Value)>::empty()) =~= Seq::empty());
        assert(spec_view_pairs(seq![p])
            == seq![(p.0@, spec_view(p.1))] + spec_view_pairs(seq![p].drop_first()));
        assert(spec_view_pairs(ps.push(p)) =~= spec_view_pairs(ps) + seq![(p.0@, spec_view(p.1))]);
    } else {
        assert(ps.push(p)[0] == ps[0]);
        assert(ps.push(p).drop_first() =~= ps.drop_first().push(p));
        lemma_view_pairs_push(ps.drop_first(), p);
    }
}

/// Why a decode call rejected its input.
#[derive(Debug, Clone, Copy, PartialEq, Eq, Structural)]
pub enum DecodeError {
    /// A terminator, separator, or declared run of bytes was not found
    /// before the input ended.
    TruncatedInput,
    /// An integer body or a string-length prefix is not a valid number of
    /// the expected type.
    InvalidNumeric,
    /// A dictionary key position decoded to something other than a byte
    /// string.
    InvalidKeyType,
    /// The lead byte matches none of the four productions.
    UnknownLeadToken,
}

} // verus!
