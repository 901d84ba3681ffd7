//! The recursive-descent decoder: one entry point that dispatches on the
//! lead byte of the remaining input to one of the four bencode productions.
//! Every production returns the decoded value together with the position
//! just past the bytes it consumed, so sibling elements inside a list or a
//! dictionary continue from that authoritative remainder.

use vstd::prelude::*;

verus! {

use crate::numrep::all_digits;
use crate::numrep::canonical_digits;
use crate::numrep::digits_value;
use crate::numrep::is_ascii_digit;
use crate::numrep::lemma_canonical_digits_inverse;
use crate::numrep::lemma_digits_value_nonneg;
use crate::numrep::lemma_digits_value_prefix_le;
use crate::numrep::lemma_spec_digits;
use crate::value::DecodeError;
use crate::value::SpecValue;
use crate::value::Value;
use crate::value::lemma_int_digits_chars;
use crate::value::spec_encode;
use crate::value::spec_encode_bytes;
use crate::value::spec_encode_pairs;
use crate::value::spec_encode_seq;
use crate::value::spec_int_digits;
use crate::value::spec_view_list;
use crate::value::spec_view_pairs;

/// The bytes of `s` starting at `pos` begin with the encoding of `v`.
pub open spec fn encodes_at(s: Seq<u8>, pos: int, v: SpecValue) -> bool {
    &&& 0 <= pos
    &&& pos + spec_encode(v).len() <= s.len()
    &&& s.subrange(pos, pos + spec_encode(v).len() as int) == spec_encode(v)
}

/// `j` is the first position at or after `from` holding `target`.
pub open spec fn first_at(s: Seq<u8>, from: int, j: int, target: u8) -> bool {
    &&& from <= j < s.len()
    &&& s[j] == target
    &&& forall|k: int| from <= k < j ==> s[k] != target
}

/// The body between `i` and `e` denotes a 64-bit signed integer: an
/// optional minus sign (never on zero), then canonical digits, in range.
pub open spec fn int_body_ok(b: Seq<u8>) -> bool {
    if b.len() > 0 && b[0] == 45 {
        &&& canonical_digits(b.drop_first())
        &&& 0 < digits_value(b.drop_first()) <= 0x8000000000000000
    } else {
        &&& canonical_digits(b)
        &&& digits_value(b) < 0x8000000000000000
    }
}

/// The signed number an integer body denotes.
pub open spec fn int_body_value(b: Seq<u8>) -> int {
    if b.len() > 0 && b[0] == 45 {
        -digits_value(b.drop_first())
    } else {
        digits_value(b)
    }
}

/// The digits before the colon form a length that fits the platform's
/// addressable size.  Leading zeros are tolerated here: the wire format's
/// length prefix is "a non-negative integer", not a canonical one.
pub open spec fn len_prefix_ok(b: Seq<u8>) -> bool {
    &&& all_digits(b)
    &&& b.len() > 0
    &&& digits_value(b) <= usize::MAX
}

/// First position at or after `from` that holds `target`.
pub open spec fn spec_find(s: Seq<u8>, from: int, target: u8) -> Option<int>
    decreases s.len() - from,
{
    if from < 0 || from >= s.len() {
        None
    } else if s[from] == target {
        Some(from)
    } else {
        spec_find(s, from + 1, target)
    }
}

/// What decoding the integer production at `pos` returns: everything up to
/// the first `e` is the body, which must denote a 64-bit signed integer.
pub open spec fn spec_parse_int(s: Seq<u8>, pos: int) -> Result<(SpecValue, int), DecodeError> {
    match spec_find(s, pos + 1, 101) {
        None => Err(DecodeError::TruncatedInput),
        Some(j) => {
            let body = s.subrange(pos + 1, j);
            if int_body_ok(body) {
                Ok((SpecValue::Int(int_body_value(body) as i64), j + 1))
            } else {
                Err(DecodeError::InvalidNumeric)
            }
        },
    }
}

/// What decoding the byte-string production at `pos` returns: digits up to
/// the first colon declare the length, and exactly that many raw bytes
/// follow.
pub open spec fn spec_parse_bytes(s: Seq<u8>, pos: int) -> Result<(SpecValue, int), DecodeError> {
    match spec_find(s, pos, 58) {
        None => Err(DecodeError::TruncatedInput),
        Some(c) => {
            let prefix = s.subrange(pos, c);
            if !len_prefix_ok(prefix) {
                Err(DecodeError::InvalidNumeric)
            } else if c + 1 + digits_value(prefix) > s.len() {
                Err(DecodeError::TruncatedInput)
            } else {
                Ok(
                    (
                        SpecValue::Bytes(s.subrange(c + 1, c + 1 + digits_value(prefix))),
                        c + 1 + digits_value(prefix),
                    ),
                )
            }
        },
    }
}

/// What decoding one value at `pos` returns: dispatch on the lead byte,
/// with no backtracking.  This is the decoder's full behaviour, error
/// kinds included; every executable production is proved equal to it.
pub open spec fn spec_parse(s: Seq<u8>, pos: int) -> Result<(SpecValue, int), DecodeError>
    decreases s.len() - pos, 0int,
{
    if pos < 0 || pos >= s.len() {
        Err(DecodeError::TruncatedInput)
    } else if s[pos] == 105 {
        spec_parse_int(s, pos)
    } else if s[pos] == 108 {
        match spec_parse_items(s, pos + 1) {
            Ok(p) => Ok((SpecValue::List(p.0), p.1)),
            Err(e) => Err(e),
        }
    } else if s[pos] == 100 {
        match spec_parse_pairs(s, pos + 1) {
            Ok(p) => Ok((SpecValue::Dict(p.0), p.1)),
            Err(e) => Err(e),
        }
    } else if is_ascii_digit(s[pos]) {
        spec_parse_bytes(s, pos)
    } else {
        Err(DecodeError::UnknownLeadToken)
    }
}

/// What decoding a list body at `p` returns: values until the end marker.
/// The guard on `mid` can never fire, since a parsed value consumes at
/// least one byte; it only keeps the recursion visibly well-founded.
pub open spec fn spec_parse_items(s: Seq<u8>, p: int) -> Result<
    (Seq<SpecValue>, int),
    DecodeError,
>
    decreases s.len() - p, 1int,
{
    if p < 0 || p >= s.len() {
        Err(DecodeError::TruncatedInput)
    } else if s[p] == 101 {
        Ok((Seq::empty(), p + 1))
    } else {
        match spec_parse(s, p) {
            Err(e) => Err(e),
            Ok((v, mid)) => if !(p < mid <= s.len()) {
                Err(DecodeError::TruncatedInput)
            } else {
                match spec_parse_items(s, mid) {
                    Err(e) => Err(e),
                    Ok((vs, end)) => Ok((seq![v] + vs, end)),
                }
            },
        }
    }
}

/// What decoding a dictionary body at `p` returns: key/value pairs until
/// the end marker.  A key must decode to a byte string; a key followed by
/// the end marker, or by nothing, lacks its value.
pub open spec fn spec_parse_pairs(s: Seq<u8>, p: int) -> Result<
    (Seq<(Seq<u8>, SpecValue)>, int),
    DecodeError,
>
    decreases s.len() - p, 1int,
{
    if p < 0 || p >= s.len() {
        Err(DecodeError::TruncatedInput)
    } else if s[p] == 101 {
        Ok((Seq::empty(), p + 1))
    } else {
        match spec_parse(s, p) {
            Err(e) => Err(e),
            Ok((k, mid)) => match k {
                SpecValue::Bytes(kb) => if !(p < mid <= s.len()) {
                    Err(DecodeError::TruncatedInput)
                } else if mid == s.len() {
                    Err(DecodeError::TruncatedInput)
                } else if s[mid] == 101 {
                    Err(DecodeError::TruncatedInput)
                } else {
                    match spec_parse(s, mid) {
                        Err(e) => Err(e),
                        Ok((v, m2)) => if !(mid < m2 <= s.len()) {
                            Err(DecodeError::TruncatedInput)
                        } else {
                            match spec_parse_pairs(s, m2) {
                                Err(e) => Err(e),
                                Ok((ps, end)) => Ok((seq![(kb, v)] + ps, end)),
                            }
                        },
                    }
                },
                _ => Err(DecodeError::InvalidKeyType),
            },
        }
    }
}

/// What decoding a whole stream of sibling values returns: values until
/// the input is exhausted.
pub open spec fn spec_parse_stream(s: Seq<u8>, p: int) -> Result<(Seq<SpecValue>, int), DecodeError>
    decreases s.len() - p, 1int,
{
    if p < 0 {
        Err(DecodeError::TruncatedInput)
    } else if p >= s.len() {
        Ok((Seq::empty(), p))
    } else {
        match spec_parse(s, p) {
            Err(e) => Err(e),
            Ok((v, mid)) => if !(p < mid <= s.len()) {
                Err(DecodeError::TruncatedInput)
            } else {
                match spec_parse_stream(s, mid) {
                    Err(e) => Err(e),
                    Ok((vs, end)) => Ok((seq![v] + vs, end)),
                }
            },
        }
    }
}

/// The decoded tree and final position that an executable result stands
/// for, in the spec parser's terms.
pub open spec fn parse_result_view(r: Result<(Value, usize), DecodeError>) -> Result<
    (SpecValue, int),
    DecodeError,
> {
    match r {
        Ok(p) => Ok((p.0@, p.1 as int)),
        Err(e) => Err(e),
    }
}

/// Prepend already-decoded values to the outcome of parsing the rest of a
/// container body.
pub open spec fn prepend_items(vs: Seq<SpecValue>, r: Result<(Seq<SpecValue>, int), DecodeError>)
    -> Result<(Seq<SpecValue>, int), DecodeError> {
    match r {
        Ok(p) => Ok((vs + p.0, p.1)),
        Err(e) => Err(e),
    }
}

/// Prepend already-decoded pairs to the outcome of parsing the rest of a
/// dictionary body.
pub open spec fn prepend_pairs(
    qs: Seq<(Seq<u8>, SpecValue)>,
    r: Result<(Seq<(Seq<u8>, SpecValue)>, int), DecodeError>,
) -> Result<(Seq<(Seq<u8>, SpecValue)>, int), DecodeError> {
    match r {
        Ok(p) => Ok((qs + p.0, p.1)),
        Err(e) => Err(e),
    }
}

/// The canonical body of any 64-bit integer is a valid body and denotes it.
pub proof fn lemma_int_body_of(i: i64)
    ensures
        int_body_ok(spec_int_digits(i as int)),
        int_body_value(spec_int_digits(i as int)) == i,
{
    let b = spec_int_digits(i as int);
    if i < 0 {
        let m = (-(i as int)) as nat;
        lemma_spec_digits(m);
        assert(b == seq![45u8] + crate::value::spec_digits(m));
        assert(b[0] == 45);
        assert(b.drop_first() =~= crate::value::spec_digits(m));
    } else {
        lemma_spec_digits(i as nat);
        assert(b[0] != 45);
    }
}

/// A valid integer body is the canonical body of the number it denotes.
pub proof fn lemma_int_body_to(b: Seq<u8>)
    requires
        int_body_ok(b),
    ensures
        -0x8000000000000000 <= int_body_value(b) < 0x8000000000000000,
        spec_int_digits(int_body_value(b)) =~= b,
{
    if b.len() > 0 && b[0] == 45 {
        let d = b.drop_first();
        lemma_canonical_digits_inverse(d);
        let v = int_body_value(b);
        assert(v == -digits_value(d));
        assert(spec_int_digits(v) == seq![45u8] + crate::value::spec_digits((-v) as nat));
        assert(crate::value::spec_digits((-v) as nat) =~= d);
        assert(spec_int_digits(v) =~= b);
    } else {
        assert(b.len() > 0);
        lemma_canonical_digits_inverse(b);
    }
}

/// A prefix of `s` that is a concatenation splits into matching subranges.
pub proof fn lemma_subrange_split(s: Seq<u8>, pos: int, x: Seq<u8>, y: Seq<u8>)
    requires
        0 <= pos,
        pos + x.len() + y.len() <= s.len(),
        s.subrange(pos, pos + x.len() + y.len()) == x + y,
    ensures
        s.subrange(pos, pos + x.len() as int) =~= x,
        s.subrange(pos + x.len(), pos + x.len() + y.len()) =~= y,
{
    let w = s.subrange(pos, pos + x.len() + y.len());
    assert(forall|i: int| 0 <= i < x.len() + y.len() ==> #[trigger] w[i] == s[pos + i]);
    assert forall|i: int| 0 <= i < y.len() implies s.subrange(
        pos + x.len(),
        pos + x.len() + y.len(),
    )[i] == y[i] by {
        assert(w[x.len() + i] == s[pos + x.len() + i]);
        assert(w[x.len() + i] == (x + y)[x.len() + i]);
    }
}

/// Adjacent matching subranges of `s` join into a concatenation.
pub proof fn lemma_subrange_join(s: Seq<u8>, pos: int, x: Seq<u8>, y: Seq<u8>)
    requires
        0 <= pos,
        pos + x.len() + y.len() <= s.len(),
        s.subrange(pos, pos + x.len() as int) == x,
        s.subrange(pos + x.len(), pos + x.len() + y.len()) == y,
    ensures
        s.subrange(pos, pos + x.len() + y.len()) =~= x + y,
{
}

/// A scan that has seen no hit so far finds whatever a later start finds.
proof fn lemma_spec_find_skip(s: Seq<u8>, from: int, j: int, target: u8)
    requires
        0 <= from <= j,
        forall|k: int| from <= k < j ==> s[k] != target,
    ensures
        spec_find(s, from, target) == spec_find(s, j, target),
    decreases j - from,
{
    if from < j && from < s.len() {
        lemma_spec_find_skip(s, from + 1, j, target);
    }
    if from < j && from >= s.len() {
        assert(spec_find(s, from, target) == None::<int>);
        assert(spec_find(s, j, target) == None::<int>);
    }
}

/// A first occurrence is exactly what the scan returns.
proof fn lemma_spec_find_first(s: Seq<u8>, from: int, j: int, target: u8)
    requires
        first_at(s, from, j, target),
        0 <= from,
    ensures
        spec_find(s, from, target) == Some(j),
{
    lemma_spec_find_skip(s, from, j, target);
}

/// Scan for the first occurrence of `target` at or after `from`.
#[verifier::loop_isolation(false)]
fn find_byte(input: &[u8], from: usize, target: u8) -> (r: Option<usize>)
    requires
        from as int <= input@.len(),
    ensures
        r matches Some(j) ==> first_at(input@, from as int, j as int, target),
        r is None ==> forall|k: int| from <= k < input@.len() ==> input@[k] != target,
        r matches Some(j) ==> spec_find(input@, from as int, target) == Some(j as int),
        r is None ==> spec_find(input@, from as int, target) == None::<int>,
{
    let n = input.len();
    let mut j = from;
    while j < n
        invariant
            from <= j <= n,
            n == input@.len(),
            forall|k: int| from <= k < j ==> input@[k] != target,
        decreases n - j,
    {
        if input[j] == target {
            proof {
                lemma_spec_find_skip(input@, from as int, j as int, target);
            }
            return Some(j);
        }
        j = j + 1;
    }
    proof {
        lemma_spec_find_skip(input@, from as int, n as int, target);
    }
    None
}

/// Accumulate the digit run `input[lo..hi)` into a number, reporting runs
/// whose value does not fit in 64 bits.
fn parse_digit_run(input: &[u8], lo: usize, hi: usize) -> (r: Option<u64>)
    requires
        lo as int <= hi as int <= input@.len(),
        all_digits(input@.subrange(lo as int, hi as int)),
    ensures
        r matches Some(m) ==> m == digits_value(input@.subrange(lo as int, hi as int)),
        r is None ==> digits_value(input@.subrange(lo as int, hi as int)) > u64::MAX,
{
    let ghost whole = input@.subrange(lo as int, hi as int);
    let mut mag: u64 = 0;
    let mut k = lo;
    while k < hi
        invariant
            lo <= k <= hi,
            hi as int <= input@.len(),
            all_digits(whole),
            whole == input@.subrange(lo as int, hi as int),
            mag == digits_value(input@.subrange(lo as int, k as int)),
        decreases hi - k,
    {
        assert(is_ascii_digit(input@[k as int])) by {
            assert(whole[k - lo] == input@[k as int]);
        }
        let d = input[k] - 48;
        proof {
            let pre = input@.subrange(lo as int, k as int);
            let ext = input@.subrange(lo as int, k + 1);
            assert(ext.drop_last() =~= pre);
            assert(ext.last() == input@[k as int]);
            assert(all_digits(ext)) by {
                assert(forall|i: int| 0 <= i < ext.len() ==> ext[i] == #[trigger] whole[i]);
            }
            assert(digits_value(ext) == digits_value(pre) * 10 + d);
        }
        if mag > (u64::MAX - d as u64) / 10 {
            proof {
                let ext = input@.subrange(lo as int, k + 1);
                assert(digits_value(ext) == mag * 10 + d);
                assert(mag * 10 + d > u64::MAX) by (nonlinear_arith)
                    requires
                        mag > (u64::MAX - d as u64) / 10,
                        0 <= d <= 9,
                {}
                assert(whole.subrange(0, k + 1 - lo) =~= ext);
                lemma_digits_value_prefix_le(whole, k + 1 - lo);
            }
            return None;
        }
        assert(mag * 10 + d <= u64::MAX) by (nonlinear_arith)
            requires
                mag <= (u64::MAX - d as u64) / 10,
                0 <= d <= 9,
        {}
        mag = mag * 10 + d as u64;
        k = k + 1;
    }
    assert(input@.subrange(lo as int, k as int) == whole);
    Some(mag)
}

/// If an integer encoding sits at `pos` and `j` is the first terminator,
/// then the bytes between are exactly the canonical body of that integer.
proof fn lemma_int_match(s: Seq<u8>, pos: int, j: int, i: i64)
    requires
        0 <= pos < s.len(),
        s[pos] == 105,
        first_at(s, pos + 1, j, 101),
        encodes_at(s, pos, SpecValue::Int(i)),
    ensures
        j == pos + 1 + spec_int_digits(i as int).len(),
        s.subrange(pos + 1, j) =~= spec_int_digits(i as int),
        int_body_ok(s.subrange(pos + 1, j)),
        int_body_value(s.subrange(pos + 1, j)) == i,
{
    let d = spec_int_digits(i as int);
    let enc = spec_encode(SpecValue::Int(i));
    let n = enc.len() as int;
    lemma_int_digits_chars(i as int);
    assert(n == d.len() + 2);
    assert forall|k: int| 0 <= k < n implies #[trigger] enc[k] == s[pos + k] by {
        assert(s.subrange(pos, pos + n)[k] == s[pos + k]);
    }
    assert(forall|k: int| 0 <= k < d.len() ==> #[trigger] enc[k + 1] == d[k]);
    assert(enc[d.len() as int + 1] == 101);
    assert(s[pos + (d.len() as int + 1)] == enc[d.len() as int + 1]);
    assert(s[pos + 1 + d.len()] == 101);
    assert forall|k: int| pos + 1 <= k < pos + 1 + d.len() implies #[trigger] s[k] != 101 by {
        assert(s[pos + (k - pos)] == enc[k - pos]);
        assert(enc[(k - pos - 1) + 1] == d[k - pos - 1]);
        assert(d[k - pos - 1] == 45 || crate::numrep::is_ascii_digit(d[k - pos - 1]));
    }
    if j < pos + 1 + d.len() {
        assert(s[j] != 101);
        assert(false);
    }
    if j > pos + 1 + d.len() {
        assert(s[pos + 1 + d.len()] != 101);
        assert(false);
    }
    assert forall|k: int| 0 <= k < d.len() implies s.subrange(pos + 1, j)[k] == d[k] by {
        assert(s.subrange(pos + 1, j)[k] == s[pos + 1 + k]);
        assert(s[pos + (k + 1)] == enc[k + 1]);
        assert(enc[k + 1] == d[k]);
    }
    assert(s.subrange(pos + 1, j) =~= d);
    lemma_int_body_of(i);
}

/// Decode the integer production `i` `<body>` `e` starting at `pos`.
#[verifier::loop_isolation(false)]
pub fn decode_int(input: &[u8], pos: usize) -> (r: Result<(Value, usize), DecodeError>)
    requires
        pos < input@.len(),
        input@[pos as int] == 105,
    ensures
        parse_result_view(r) == spec_parse_int(input@, pos as int),
        r matches Ok(p) ==> p.0@ is Int && pos < p.1 <= input@.len() && encodes_at(
            input@,
            pos as int,
            p.0@,
        ) && p.1 == pos + spec_encode(p.0@).len(),
        forall|i: i64| #[trigger] encodes_at(input@, pos as int, SpecValue::Int(i)) ==> (r matches
            Ok(p) && p.0@ == SpecValue::Int(i)),
        r == Err::<(Value, usize), DecodeError>(DecodeError::TruncatedInput) <==> (forall|k: int|
            pos < k < input@.len() ==> input@[k] != 101),
        forall|j: int| #[trigger] first_at(input@, pos + 1, j, 101) ==> (r == Err::<
            (Value, usize),
            DecodeError,
        >(DecodeError::InvalidNumeric) <==> !int_body_ok(input@.subrange(pos + 1, j))),
{
    let ghost s = input@;
    let ilen = input.len();
    let j = match find_byte(input, pos + 1, 101) {
        None => {
            assert forall|i: i64| #[trigger] encodes_at(s, pos as int, SpecValue::Int(i))
                implies false by {
                let d = spec_int_digits(i as int);
                let enc = spec_encode(SpecValue::Int(i));
                lemma_int_digits_chars(i as int);
                assert(enc[d.len() as int + 1] == s.subrange(pos as int, pos + enc.len())[d.len()
                    as int + 1]);
                assert(s[pos + 1 + d.len()] == 101);
            }
            return Err(DecodeError::TruncatedInput);
        },
        Some(j) => j,
    };
    assert forall|j2: int| #[trigger] first_at(s, pos + 1, j2, 101) implies j2 == j by {
        if j2 < j {
            assert(s[j2] != 101);
        }
        if j2 > j {
            assert(s[j as int] != 101);
        }
    }
    assert(!(forall|k: int| pos < k < s.len() ==> s[k] != 101)) by {
        assert(pos < j < s.len() && s[j as int] == 101);
    }
    let ghost body = s.subrange(pos + 1, j as int);
    let mut lo = pos + 1;
    let mut neg = false;
    if lo < j && input[lo] == 45 {
        neg = true;
        lo = lo + 1;
    }
    proof {
        if body.len() > 0 {
            assert(body[0] == s[pos + 1]);
        }
        assert(neg <==> body.len() > 0 && body[0] == 45);
    }
    let ghost dg = s.subrange(lo as int, j as int);
    proof {
        if neg {
            assert(dg =~= body.drop_first());
        } else {
            assert(dg =~= body);
        }
    }
    if lo == j {
        proof {
            assert(!int_body_ok(body));
            not_int_encoding(s, pos as int, j as int, body);
        }
        return Err(DecodeError::InvalidNumeric);
    }
    let mut k = lo;
    while k < j
        invariant
            lo <= k <= j,
            j < s.len(),
            s == input@,
            dg == s.subrange(lo as int, j as int),
            forall|t: int| lo <= t < k ==> crate::numrep::is_ascii_digit(#[trigger] s[t]),
        decreases j - k,
    {
        let c = input[k];
        if c < 48 || c > 57 {
            proof {
                assert(dg[k - lo] == s[k as int]);
                assert(!all_digits(dg));
                assert(!int_body_ok(body));
                not_int_encoding(s, pos as int, j as int, body);
            }
            return Err(DecodeError::InvalidNumeric);
        }
        k = k + 1;
    }
    proof {
        assert(all_digits(dg)) by {
            assert(forall|t: int| 0 <= t < dg.len() ==> dg[t] == #[trigger] s[lo + t]);
        }
    }
    if j - lo > 1 && input[lo] == 48 {
        proof {
            assert(dg[0] == 48 && dg.len() > 1);
            assert(!int_body_ok(body));
            not_int_encoding(s, pos as int, j as int, body);
        }
        return Err(DecodeError::InvalidNumeric);
    }
    if neg && input[lo] == 48 {
        proof {
            assert(dg[0] == 48);
            assert(dg.len() == 1);
            assert(dg =~= seq![48u8]);
            assert(digits_value(dg.drop_last()) == 0);
            assert(digits_value(dg) == 0);
            assert(!int_body_ok(body));
            not_int_encoding(s, pos as int, j as int, body);
        }
        return Err(DecodeError::InvalidNumeric);
    }
    proof {
        lemma_digits_value_nonneg(dg);
        if dg[0] != 48 {
            crate::numrep::lemma_digits_value_lower(dg);
            crate::numrep::lemma_pow10_positive((dg.len() - 1) as nat);
        } else {
            assert(dg.len() == 1 && !neg);
        }
    }
    let mag = match parse_digit_run(input, lo, j) {
        None => {
            proof {
                assert(!int_body_ok(body));
                not_int_encoding(s, pos as int, j as int, body);
            }
            return Err(DecodeError::InvalidNumeric);
        },
        Some(m) => m,
    };
    if neg {
        if mag > 9223372036854775808u64 {
            proof {
                assert(!int_body_ok(body));
                not_int_encoding(s, pos as int, j as int, body);
            }
            return Err(DecodeError::InvalidNumeric);
        }
        let v: i64 = if mag == 9223372036854775808u64 {
            i64::MIN
        } else {
            -(mag as i64)
        };
        proof {
            assert(digits_value(dg) > 0);
            assert(int_body_ok(body));
            assert(int_body_value(body) == v);
            int_encoding_done(s, pos as int, j as int, body, v);
        }
        Ok((Value::Int(v), j + 1))
    } else {
        if mag > 9223372036854775807u64 {
            proof {
                assert(!int_body_ok(body));
                not_int_encoding(s, pos as int, j as int, body);
            }
            return Err(DecodeError::InvalidNumeric);
        }
        let v: i64 = mag as i64;
        proof {
            assert(int_body_ok(body));
            assert(int_body_value(body) == v);
            int_encoding_done(s, pos as int, j as int, body, v);
        }
        Ok((Value::Int(v), j + 1))
    }
}

/// Decode the byte-string production `<decimal length>` `:` `<bytes>`.
/// The length prefix may carry leading zeros; its value must fit the
/// platform's addressable size, and exactly that many raw bytes are
/// consumed regardless of their content.
#[verifier::loop_isolation(false)]
pub fn decode_bytes(input: &[u8], pos: usize) -> (r: Result<(Value, usize), DecodeError>)
    requires
        pos < input@.len(),
        is_ascii_digit(input@[pos as int]),
    ensures
        parse_result_view(r) == spec_parse_bytes(input@, pos as int),
        r matches Ok(p) ==> p.0@ is Bytes && pos < p.1 <= input@.len(),
{
    let ghost s = input@;
    let ilen = input.len();
    let c = match find_byte(input, pos, 58) {
        None => {
            return Err(DecodeError::TruncatedInput);
        },
        Some(c) => c,
    };
    assert(c != pos);
    let ghost prefix = s.subrange(pos as int, c as int);
    let mut k = pos;
    while k < c
        invariant
            pos <= k <= c,
            forall|t: int| pos <= t < k ==> crate::numrep::is_ascii_digit(#[trigger] s[t]),
        decreases c - k,
    {
        let ch = input[k];
        if ch < 48 || ch > 57 {
            proof {
                assert(prefix[k - pos] == s[k as int]);
                assert(!all_digits(prefix));
            }
            return Err(DecodeError::InvalidNumeric);
        }
        k = k + 1;
    }
    proof {
        assert(all_digits(prefix)) by {
            assert(forall|t: int| 0 <= t < prefix.len() ==> prefix[t] == #[trigger] s[pos + t]);
        }
        lemma_digits_value_nonneg(prefix);
    }
    let l64 = match parse_digit_run(input, pos, c) {
        None => {
            proof {
                assert(digits_value(prefix) > usize::MAX);
            }
            return Err(DecodeError::InvalidNumeric);
        },
        Some(m) => m,
    };
    if l64 > usize::MAX as u64 {
        proof {
            assert(digits_value(prefix) > usize::MAX);
        }
        return Err(DecodeError::InvalidNumeric);
    }
    let l = l64 as usize;
    assert(len_prefix_ok(prefix));
    if l > ilen - (c + 1) {
        return Err(DecodeError::TruncatedInput);
    }
    let content = vstd::slice::slice_to_vec(vstd::slice::slice_subrange(input, c + 1, c + 1 + l));
    Ok((Value::Bytes(content), c + 1 + l))
}

/// An invalid body at the unique terminator rules out every integer
/// encoding at `pos`.
proof fn not_int_encoding(s: Seq<u8>, pos: int, j: int, body: Seq<u8>)
    requires
        0 <= pos < s.len(),
        s[pos] == 105,
        first_at(s, pos + 1, j, 101),
        body == s.subrange(pos + 1, j),
        !int_body_ok(body),
    ensures
        forall|i: i64| !encodes_at(s, pos, SpecValue::Int(i)),
{
    assert forall|i: i64| !encodes_at(s, pos, SpecValue::Int(i)) by {
        if encodes_at(s, pos, SpecValue::Int(i)) {
            lemma_int_match(s, pos, j, i);
        }
    }
}

/// A valid body at the unique terminator yields the one integer encoding.
proof fn int_encoding_done(s: Seq<u8>, pos: int, j: int, body: Seq<u8>, v: i64)
    requires
        0 <= pos < s.len(),
        s[pos] == 105,
        first_at(s, pos + 1, j, 101),
        body == s.subrange(pos + 1, j),
        int_body_ok(body),
        int_body_value(body) == v,
    ensures
        encodes_at(s, pos, SpecValue::Int(v)),
        j + 1 == pos + spec_encode(SpecValue::Int(v)).len(),
        forall|i: i64| #[trigger] encodes_at(s, pos, SpecValue::Int(i)) ==> i == v,
{
    lemma_int_body_to(body);
    let enc = spec_encode(SpecValue::Int(v));
    assert(spec_int_digits(v as int) =~= body);
    assert(enc == seq![105u8] + spec_int_digits(v as int) + seq![101u8]);
    assert(s.subrange(pos, pos + 1) =~= seq![105u8]);
    lemma_subrange_join(s, pos, seq![105u8], body);
    assert(s.subrange(pos, j) =~= seq![105u8] + body);
    assert(s.subrange(j, j + 1) =~= seq![101u8]);
    lemma_subrange_join(s, pos, seq![105u8] + body, seq![101u8]);
    assert(s.subrange(pos, j + 1) =~= (seq![105u8] + body) + seq![101u8]);
    assert((seq![105u8] + body) + seq![101u8] =~= enc);
    assert(encodes_at(s, pos, SpecValue::Int(v)));
    assert forall|i: i64| #[trigger] encodes_at(s, pos, SpecValue::Int(i)) implies i == v by {
        lemma_int_match(s, pos, j, i);
    }
}

/// The lead byte of an encoding names its production.
proof fn lemma_lead_byte(s: Seq<u8>, pos: int, v: SpecValue)
    requires
        encodes_at(s, pos, v),
    ensures
        pos < s.len(),
        s[pos] == spec_encode(v)[0],
        s[pos] == 105 ==> v is Int,
        is_ascii_digit(s[pos]) ==> v is Bytes,
        s[pos] == 108 ==> v is List,
        s[pos] == 100 ==> v is Dict,
        s[pos] == 105 || is_ascii_digit(s[pos]) || s[pos] == 108 || s[pos] == 100,
        s[pos] != 101,
{
    crate::value::lemma_encode_shape(v);
    assert(s.subrange(pos, pos + spec_encode(v).len() as int)[0] == s[pos]);
}

/// Prepending nothing changes nothing.
proof fn lemma_prepend_items_empty(r: Result<(Seq<SpecValue>, int), DecodeError>)
    ensures
        prepend_items(Seq::empty(), r) == r,
{
    match r {
        Ok(p) => {
            assert(Seq::<SpecValue>::empty() + p.0 =~= p.0);
        },
        Err(_) => {},
    }
}

/// Prepending nothing changes nothing.
proof fn lemma_prepend_pairs_empty(r: Result<(Seq<(Seq<u8>, SpecValue)>, int), DecodeError>)
    ensures
        prepend_pairs(Seq::empty(), r) == r,
{
    match r {
        Ok(p) => {
            assert(Seq::<(Seq<u8>, SpecValue)>::empty() + p.0 =~= p.0);
        },
        Err(_) => {},
    }
}

/// Consuming one more element of a list body shifts it from the unparsed
/// rest to the already-decoded prefix.
proof fn lemma_items_step(s: Seq<u8>, cur: int, v: SpecValue, nxt: int, vs: Seq<SpecValue>)
    requires
        0 <= cur < s.len(),
        s[cur] != 101,
        spec_parse(s, cur) == Ok::<(SpecValue, int), DecodeError>((v, nxt)),
        cur < nxt <= s.len(),
    ensures
        prepend_items(vs, spec_parse_items(s, cur)) == prepend_items(
            vs.push(v),
            spec_parse_items(s, nxt),
        ),
{
    match spec_parse_items(s, nxt) {
        Ok(p) => {
            assert(spec_parse_items(s, cur) == Ok::<(Seq<SpecValue>, int), DecodeError>(
                (seq![v] + p.0, p.1),
            ));
            assert(vs + (seq![v] + p.0) =~= vs.push(v) + p.0);
        },
        Err(e) => {
            assert(spec_parse_items(s, cur) == Err::<(Seq<SpecValue>, int), DecodeError>(e));
        },
    }
}

/// Consuming one more sibling of a stream shifts it from the unparsed
/// rest to the already-decoded prefix.
proof fn lemma_stream_step(s: Seq<u8>, cur: int, v: SpecValue, nxt: int, vs: Seq<SpecValue>)
    requires
        0 <= cur < s.len(),
        spec_parse(s, cur) == Ok::<(SpecValue, int), DecodeError>((v, nxt)),
        cur < nxt <= s.len(),
    ensures
        prepend_items(vs, spec_parse_stream(s, cur)) == prepend_items(
            vs.push(v),
            spec_parse_stream(s, nxt),
        ),
{
    match spec_parse_stream(s, nxt) {
        Ok(p) => {
            assert(spec_parse_stream(s, cur) == Ok::<(Seq<SpecValue>, int), DecodeError>(
                (seq![v] + p.0, p.1),
            ));
            assert(vs + (seq![v] + p.0) =~= vs.push(v) + p.0);
        },
        Err(e) => {
            assert(spec_parse_stream(s, cur) == Err::<(Seq<SpecValue>, int), DecodeError>(e));
        },
    }
}

/// Consuming one more key/value pair of a dictionary body shifts it from
/// the unparsed rest to the already-decoded prefix.
proof fn lemma_pairs_step(
    s: Seq<u8>,
    cur: int,
    kb: Seq<u8>,
    kn: int,
    v: SpecValue,
    vn: int,
    qs: Seq<(Seq<u8>, SpecValue)>,
)
    requires
        0 <= cur < s.len(),
        s[cur] != 101,
        spec_parse(s, cur) == Ok::<(SpecValue, int), DecodeError>((SpecValue::Bytes(kb), kn)),
        cur < kn < s.len(),
        s[kn] != 101,
        spec_parse(s, kn) == Ok::<(SpecValue, int), DecodeError>((v, vn)),
        kn < vn <= s.len(),
    ensures
        prepend_pairs(qs, spec_parse_pairs(s, cur)) == prepend_pairs(
            qs.push((kb, v)),
            spec_parse_pairs(s, vn),
        ),
{
    match spec_parse_pairs(s, vn) {
        Ok(p) => {
            assert(spec_parse_pairs(s, cur) == Ok::<
                (Seq<(Seq<u8>, SpecValue)>, int),
                DecodeError,
            >((seq![(kb, v)] + p.0, p.1)));
            assert(qs + (seq![(kb, v)] + p.0) =~= qs.push((kb, v)) + p.0);
        },
        Err(e) => {
            assert(spec_parse_pairs(s, cur) == Err::<(Seq<(Seq<u8>, SpecValue)>, int), DecodeError>(
                e,
            ));
        },
    }
}

/// Decode one bencode value starting at `pos`: dispatch on the lead byte,
/// with no backtracking.  The result is exactly what the spec parser says,
/// error kinds included.
pub fn decode_value(input: &[u8], pos: usize) -> (r: Result<(Value, usize), DecodeError>)
    requires
        pos as int <= input@.len(),
    ensures
        parse_result_view(r) == spec_parse(input@, pos as int),
        r matches Ok(p) ==> pos < p.1 <= input@.len(),
        r matches Ok(p) ==> {
            &&& input@[pos as int] == 105 ==> p.0@ is Int
            &&& input@[pos as int] == 108 ==> p.0@ is List
            &&& input@[pos as int] == 100 ==> p.0@ is Dict
            &&& is_ascii_digit(input@[pos as int]) ==> p.0@ is Bytes
        },
        pos == input@.len() ==> r == Err::<(Value, usize), DecodeError>(
            DecodeError::TruncatedInput,
        ),
        pos < input@.len() && input@[pos as int] != 105 && input@[pos as int] != 108
            && input@[pos as int] != 100 && !is_ascii_digit(input@[pos as int]) ==> r == Err::<
            (Value, usize),
            DecodeError,
        >(DecodeError::UnknownLeadToken),
    decreases input@.len() - pos, 1int,
{
    let ilen = input.len();
    if pos == ilen {
        return Err(DecodeError::TruncatedInput);
    }
    let c = input[pos];
    if c == 105 {
        decode_int(input, pos)
    } else if c == 108 {
        decode_list(input, pos)
    } else if c == 100 {
        decode_dict(input, pos)
    } else if c >= 48 && c <= 57 {
        decode_bytes(input, pos)
    } else {
        Err(DecodeError::UnknownLeadToken)
    }
}

/// Decode the list production `l` `<values>` `e` starting at `pos`.
#[verifier::loop_isolation(false)]
pub fn decode_list(input: &[u8], pos: usize) -> (r: Result<(Value, usize), DecodeError>)
    requires
        pos < input@.len(),
        input@[pos as int] == 108,
    ensures
        parse_result_view(r) == spec_parse(input@, pos as int),
        r matches Ok(p) ==> p.0@ is List && pos < p.1 <= input@.len(),
    decreases input@.len() - pos, 0int,
{
    let ghost s = input@;
    let ilen = input.len();
    let mut items: Vec<Value> = Vec::new();
    let mut cur: usize = pos + 1;
    proof {
        assert(spec_view_list(items@) =~= Seq::<SpecValue>::empty());
        lemma_prepend_items_empty(spec_parse_items(s, pos + 1));
    }
    loop
        invariant
            pos + 1 <= cur <= ilen,
            prepend_items(spec_view_list(items@), spec_parse_items(s, cur as int))
                == spec_parse_items(s, pos + 1),
        decreases ilen - cur,
    {
        let ghost vs = spec_view_list(items@);
        if cur == ilen {
            assert(spec_parse_items(s, cur as int) == Err::<(Seq<SpecValue>, int), DecodeError>(
                DecodeError::TruncatedInput,
            ));
            return Err(DecodeError::TruncatedInput);
        }
        if input[cur] == 101 {
            proof {
                assert(spec_parse_items(s, cur as int) == Ok::<(Seq<SpecValue>, int), DecodeError>(
                    (Seq::empty(), cur + 1),
                ));
                assert(vs + Seq::<SpecValue>::empty() =~= vs);
                assert(spec_parse_items(s, pos + 1) == Ok::<(Seq<SpecValue>, int), DecodeError>(
                    (vs, cur + 1),
                ));
            }
            return Ok((Value::List(items), cur + 1));
        }
        match decode_value(input, cur) {
            Err(e) => {
                assert(spec_parse_items(s, cur as int) == Err::<(Seq<SpecValue>, int), DecodeError>(
                    e,
                ));
                return Err(e);
            },
            Ok((v, nxt)) => {
                proof {
                    lemma_items_step(s, cur as int, v@, nxt as int, vs);
                    crate::value::lemma_view_list_push(items@, v);
                    assert(vs.push(v@) =~= vs + seq![v@]);
                    assert(spec_view_list(items@.push(v)) =~= vs.push(v@));
                }
                items.push(v);
                cur = nxt;
            },
        }
    }
}

/// Decode the dictionary production `d` `<key/value pairs>` `e`: keys must
/// be byte strings, and pairs are kept in encounter order.
#[verifier::loop_isolation(false)]
pub fn decode_dict(input: &[u8], pos: usize) -> (r: Result<(Value, usize), DecodeError>)
    requires
        pos < input@.len(),
        input@[pos as int] == 100,
    ensures
        parse_result_view(r) == spec_parse(input@, pos as int),
        r matches Ok(p) ==> p.0@ is Dict && pos < p.1 <= input@.len(),
    decreases input@.len() - pos, 0int,
{
    let ghost s = input@;
    let ilen = input.len();
    let mut pairs: Vec<(Vec<u8>, Value)> = Vec::new();
    let mut cur: usize = pos + 1;
    proof {
        assert(spec_view_pairs(pairs@) =~= Seq::<(Seq<u8>, SpecValue)>::empty());
        lemma_prepend_pairs_empty(spec_parse_pairs(s, pos + 1));
    }
    loop
        invariant
            pos + 1 <= cur <= ilen,
            prepend_pairs(spec_view_pairs(pairs@), spec_parse_pairs(s, cur as int))
                == spec_parse_pairs(s, pos + 1),
        decreases ilen - cur,
    {
        let ghost qs = spec_view_pairs(pairs@);
        if cur == ilen {
            assert(spec_parse_pairs(s, cur as int) == Err::<
                (Seq<(Seq<u8>, SpecValue)>, int),
                DecodeError,
            >(DecodeError::TruncatedInput));
            return Err(DecodeError::TruncatedInput);
        }
        if input[cur] == 101 {
            proof {
                assert(spec_parse_pairs(s, cur as int) == Ok::<
                    (Seq<(Seq<u8>, SpecValue)>, int),
                    DecodeError,
                >((Seq::empty(), cur + 1)));
                assert(qs + Seq::<(Seq<u8>, SpecValue)>::empty() =~= qs);
                assert(spec_parse_pairs(s, pos + 1) == Ok::<
                    (Seq<(Seq<u8>, SpecValue)>, int),
                    DecodeError,
                >((qs, cur + 1)));
            }
            return Ok((Value::Dict(pairs), cur + 1));
        }
        let (kb, kn) = match decode_value(input, cur) {
            Err(e) => {
                assert(spec_parse_pairs(s, cur as int) == Err::<
                    (Seq<(Seq<u8>, SpecValue)>, int),
                    DecodeError,
                >(e));
                return Err(e);
            },
            Ok((kv, kn)) => match kv {
                Value::Bytes(kb) => (kb, kn),
                _ => {
                    assert(!(kv@ is Bytes));
                    assert(spec_parse_pairs(s, cur as int) == Err::<
                        (Seq<(Seq<u8>, SpecValue)>, int),
                        DecodeError,
                    >(DecodeError::InvalidKeyType));
                    return Err(DecodeError::InvalidKeyType);
                },
            },
        };
        if kn == ilen {
            assert(spec_parse_pairs(s, cur as int) == Err::<
                (Seq<(Seq<u8>, SpecValue)>, int),
                DecodeError,
            >(DecodeError::TruncatedInput));
            return Err(DecodeError::TruncatedInput);
        }
        if input[kn] == 101 {
            assert(spec_parse_pairs(s, cur as int) == Err::<
                (Seq<(Seq<u8>, SpecValue)>, int),
                DecodeError,
            >(DecodeError::TruncatedInput));
            return Err(DecodeError::TruncatedInput);
        }
        match decode_value(input, kn) {
            Err(e) => {
                assert(spec_parse_pairs(s, cur as int) == Err::<
                    (Seq<(Seq<u8>, SpecValue)>, int),
                    DecodeError,
                >(e));
                return Err(e);
            },
            Ok((vv, vn)) => {
                proof {
                    lemma_pairs_step(s, cur as int, kb@, kn as int, vv@, vn as int, qs);
                    crate::value::lemma_view_pairs_push(pairs@, (kb, vv));
                    assert(qs.push((kb@, vv@)) =~= qs + seq![(kb@, vv@)]);
                    assert(spec_view_pairs(pairs@.push((kb, vv))) =~= qs.push((kb@, vv@)));
                }
                pairs.push((kb, vv));
                cur = vn;
            },
        }
    }
}

/// The spec parser accepts every canonical byte-string encoding and
/// returns exactly its value and length.
proof fn lemma_parse_canonical_bytes(s: Seq<u8>, pos: int, b: Seq<u8>)
    requires
        encodes_at(s, pos, SpecValue::Bytes(b)),
        s.len() <= usize::MAX,
    ensures
        spec_parse_bytes(s, pos) == Ok::<(SpecValue, int), DecodeError>(
            (SpecValue::Bytes(b), pos + spec_encode(SpecValue::Bytes(b)).len()),
        ),
{
    let d = crate::value::spec_digits(b.len());
    let enc = spec_encode(SpecValue::Bytes(b));
    let n = enc.len() as int;
    lemma_spec_digits(b.len());
    assert(n == d.len() + 1 + b.len());
    assert forall|k: int| 0 <= k < n implies #[trigger] enc[k] == s[pos + k] by {
        assert(s.subrange(pos, pos + n)[k] == s[pos + k]);
    }
    assert(forall|k: int| 0 <= k < d.len() ==> #[trigger] enc[k] == d[k]);
    assert(enc[d.len() as int] == 58);
    assert(s[pos + d.len() as int] == enc[d.len() as int]);
    assert forall|k: int| pos <= k < pos + d.len() implies #[trigger] s[k] != 58 by {
        assert(s[pos + (k - pos)] == enc[k - pos]);
        assert(enc[k - pos] == d[k - pos]);
        assert(crate::numrep::is_ascii_digit(d[k - pos]));
    }
    let c = pos + d.len() as int;
    assert(first_at(s, pos, c, 58));
    lemma_spec_find_first(s, pos, c, 58);
    assert forall|k: int| 0 <= k < d.len() implies s.subrange(pos, c)[k] == d[k] by {
        assert(s.subrange(pos, c)[k] == s[pos + k]);
        assert(s[pos + k] == enc[k]);
    }
    assert(s.subrange(pos, c) =~= d);
    assert(digits_value(s.subrange(pos, c)) == b.len());
    assert(len_prefix_ok(s.subrange(pos, c)));
    assert(c + 1 + b.len() <= s.len());
    assert forall|k: int| 0 <= k < b.len() implies s.subrange(c + 1, c + 1 + b.len())[k]
        == b[k] by {
        assert(s.subrange(c + 1, c + 1 + b.len())[k] == s[c + 1 + k]);
        assert(s[pos + (d.len() + 1 + k)] == enc[d.len() + 1 + k]);
        assert(enc[d.len() + 1 + k] == b[k]);
    }
    assert(s.subrange(c + 1, c + 1 + b.len()) =~= b);
}

/// The spec parser accepts every canonical encoding and returns exactly
/// its value and length: this is the remainder-correctness law, stated
/// against the mathematical encoder.
pub proof fn lemma_parse_canonical(s: Seq<u8>, pos: int, v: SpecValue)
    requires
        encodes_at(s, pos, v),
        s.len() <= usize::MAX,
    ensures
        spec_parse(s, pos) == Ok::<(SpecValue, int), DecodeError>(
            (v, pos + spec_encode(v).len()),
        ),
    decreases v,
{
    lemma_lead_byte(s, pos, v);
    crate::value::lemma_encode_shape(v);
    match v {
        SpecValue::Int(i) => {
            let d = spec_int_digits(i as int);
            let enc = spec_encode(v);
            let n = enc.len() as int;
            lemma_int_digits_chars(i as int);
            assert(n == d.len() + 2);
            assert forall|k: int| 0 <= k < n implies #[trigger] enc[k] == s[pos + k] by {
                assert(s.subrange(pos, pos + n)[k] == s[pos + k]);
            }
            assert(forall|k: int| 0 <= k < d.len() ==> #[trigger] enc[k + 1] == d[k]);
            assert(enc[d.len() as int + 1] == 101);
            assert(s[pos + (d.len() as int + 1)] == enc[d.len() as int + 1]);
            let j = pos + 1 + d.len() as int;
            assert(s[j] == 101);
            assert forall|k: int| pos + 1 <= k < j implies #[trigger] s[k] != 101 by {
                assert(s[pos + (k - pos)] == enc[k - pos]);
                assert(enc[(k - pos - 1) + 1] == d[k - pos - 1]);
                assert(d[k - pos - 1] == 45 || crate::numrep::is_ascii_digit(d[k - pos - 1]));
            }
            assert(first_at(s, pos + 1, j, 101));
            lemma_spec_find_first(s, pos + 1, j, 101);
            lemma_int_match(s, pos, j, i);
            assert(int_body_value(s.subrange(pos + 1, j)) as i64 == i);
        },
        SpecValue::Bytes(b) => {
            lemma_parse_canonical_bytes(s, pos, b);
        },
        SpecValue::List(xs) => {
            let body = spec_encode_seq(xs);
            let enc = spec_encode(v);
            assert(enc =~= (seq![108u8] + body) + seq![101u8]);
            lemma_subrange_split(s, pos, seq![108u8] + body, seq![101u8]);
            lemma_subrange_split(s, pos, seq![108u8], body);
            let q = pos + 1 + body.len() as int;
            assert(s.subrange(pos + 1, q) == body);
            assert(s[q] == 101) by {
                assert(s.subrange(q, q + 1)[0] == s[q]);
            }
            lemma_parse_canonical_items(s, pos + 1, q, xs);
        },
        SpecValue::Dict(ps) => {
            let body = spec_encode_pairs(ps);
            let enc = spec_encode(v);
            assert(enc =~= (seq![100u8] + body) + seq![101u8]);
            lemma_subrange_split(s, pos, seq![100u8] + body, seq![101u8]);
            lemma_subrange_split(s, pos, seq![100u8], body);
            let q = pos + 1 + body.len() as int;
            assert(s.subrange(pos + 1, q) == body);
            assert(s[q] == 101) by {
                assert(s.subrange(q, q + 1)[0] == s[q]);
            }
            lemma_parse_canonical_pairs(s, pos + 1, q, ps);
        },
    }
}

/// The spec parser accepts a canonical list body followed by its end
/// marker, yielding exactly its elements.
proof fn lemma_parse_canonical_items(s: Seq<u8>, p: int, q: int, xs: Seq<SpecValue>)
    requires
        0 <= p <= q < s.len(),
        s.len() <= usize::MAX,
        s.subrange(p, q) == spec_encode_seq(xs),
        s[q] == 101,
    ensures
        spec_parse_items(s, p) == Ok::<(Seq<SpecValue>, int), DecodeError>((xs, q + 1)),
    decreases xs,
{
    if xs.len() == 0 {
        assert(p == q);
        assert(xs =~= Seq::<SpecValue>::empty());
    } else {
        let e0 = spec_encode(xs[0]);
        let rest = spec_encode_seq(xs.drop_first());
        assert(spec_encode_seq(xs) == e0 + rest);
        lemma_subrange_split(s, p, e0, rest);
        assert(s.subrange(p, p + e0.len() as int) == e0);
        assert(encodes_at(s, p, xs[0]));
        lemma_lead_byte(s, p, xs[0]);
        lemma_parse_canonical(s, p, xs[0]);
        let mid = p + e0.len() as int;
        crate::value::lemma_encode_shape(xs[0]);
        lemma_parse_canonical_items(s, mid, q, xs.drop_first());
        assert(seq![xs[0]] + xs.drop_first() =~= xs);
    }
}

/// The spec parser accepts a canonical dictionary body followed by its
/// end marker, yielding exactly its pairs.
proof fn lemma_parse_canonical_pairs(s: Seq<u8>, p: int, q: int, ps: Seq<(Seq<u8>, SpecValue)>)
    requires
        0 <= p <= q < s.len(),
        s.len() <= usize::MAX,
        s.subrange(p, q) == spec_encode_pairs(ps),
        s[q] == 101,
    ensures
        spec_parse_pairs(s, p) == Ok::<(Seq<(Seq<u8>, SpecValue)>, int), DecodeError>(
            (ps, q + 1),
        ),
    decreases ps,
{
    if ps.len() == 0 {
        assert(p == q);
        assert(ps =~= Seq::<(Seq<u8>, SpecValue)>::empty());
    } else {
        let ek = spec_encode_bytes(ps[0].0);
        let ev = spec_encode(ps[0].1);
        let rest = spec_encode_pairs(ps.drop_first());
        assert(spec_encode_pairs(ps) == ek + ev + rest);
        assert(spec_encode_pairs(ps) =~= ek + (ev + rest));
        lemma_subrange_split(s, p, ek, ev + rest);
        assert(s.subrange(p, p + ek.len() as int) == ek);
        assert(ek == spec_encode(SpecValue::Bytes(ps[0].0)));
        assert(encodes_at(s, p, SpecValue::Bytes(ps[0].0)));
        lemma_lead_byte(s, p, SpecValue::Bytes(ps[0].0));
        lemma_parse_canonical_bytes(s, p, ps[0].0);
        let mid = p + ek.len() as int;
        lemma_subrange_split(s, mid, ev, rest);
        assert(s.subrange(mid, mid + ev.len() as int) == ev);
        assert(encodes_at(s, mid, ps[0].1));
        lemma_lead_byte(s, mid, ps[0].1);
        lemma_parse_canonical(s, mid, ps[0].1);
        let m2 = mid + ev.len() as int;
        crate::value::lemma_encode_shape(ps[0].1);
        assert(mid < q);
        lemma_parse_canonical_pairs(s, m2, q, ps.drop_first());
        assert((ps[0].0, ps[0].1) == ps[0]);
        assert(seq![(ps[0].0, ps[0].1)] + ps.drop_first() =~= ps);
        assert(p < s.len() && s[p] != 101);
        assert(spec_parse(s, p) == Ok::<(SpecValue, int), DecodeError>(
            (SpecValue::Bytes(ps[0].0), mid),
        ));
        assert(p < mid < s.len() && s[mid] != 101);
        assert(spec_parse(s, mid) == Ok::<(SpecValue, int), DecodeError>((ps[0].1, m2)));
        assert(mid < m2 <= s.len());
        assert(spec_parse_pairs(s, m2) == Ok::<(Seq<(Seq<u8>, SpecValue)>, int), DecodeError>(
            (ps.drop_first(), q + 1),
        ));
        assert(spec_parse_pairs(s, p) == Ok::<(Seq<(Seq<u8>, SpecValue)>, int), DecodeError>(
            (seq![(ps[0].0, ps[0].1)] + ps.drop_first(), q + 1),
        ));
    }
}

/// The spec parser accepts a whole stream of canonical encodings, yielding
/// exactly its values and consuming every byte.
proof fn lemma_parse_canonical_stream(s: Seq<u8>, p: int, xs: Seq<SpecValue>)
    requires
        0 <= p <= s.len(),
        s.len() <= usize::MAX,
        s.subrange(p, s.len() as int) == spec_encode_seq(xs),
    ensures
        spec_parse_stream(s, p) == Ok::<(Seq<SpecValue>, int), DecodeError>(
            (xs, s.len() as int),
        ),
    decreases xs,
{
    if xs.len() == 0 {
        assert(p == s.len());
        assert(xs =~= Seq::<SpecValue>::empty());
    } else {
        let e0 = spec_encode(xs[0]);
        let rest = spec_encode_seq(xs.drop_first());
        assert(spec_encode_seq(xs) == e0 + rest);
        lemma_subrange_split(s, p, e0, rest);
        assert(s.subrange(p, p + e0.len() as int) == e0);
        assert(encodes_at(s, p, xs[0]));
        lemma_lead_byte(s, p, xs[0]);
        lemma_parse_canonical(s, p, xs[0]);
        let mid = p + e0.len() as int;
        crate::value::lemma_encode_shape(xs[0]);
        lemma_parse_canonical_stream(s, mid, xs.drop_first());
        assert(seq![xs[0]] + xs.drop_first() =~= xs);
    }
}

/// Decode the single value at the head of `input`.  On success the
/// returned position is the start of the unconsumed remainder, so decoding
/// `A ++ B` for any encoding `A` yields the value of `A` and leaves `B`.
pub fn decode(input: &[u8]) -> (r: Result<(Value, usize), DecodeError>)
    ensures
        parse_result_view(r) == spec_parse(input@, 0),
        r matches Ok(p) ==> 0 < p.1 <= input@.len(),
        input@.len() == 0 ==> r == Err::<(Value, usize), DecodeError>(DecodeError::TruncatedInput),
        input@.len() > 0 && input@[0] != 105 && input@[0] != 108 && input@[0] != 100
            && !is_ascii_digit(input@[0]) ==> r == Err::<(Value, usize), DecodeError>(
            DecodeError::UnknownLeadToken,
        ),
        forall|v: SpecValue| #[trigger] encodes_at(input@, 0, v) ==> (r matches Ok(p) && p.0@ == v
            && p.1 == spec_encode(v).len()),
        forall|v: SpecValue, rest: Seq<u8>| input@ == #[trigger] (spec_encode(v) + rest) ==> (r
            matches Ok(p) && p.0@ == v && p.1 == spec_encode(v).len()),
{
    let ghost s = input@;
    let ilen = input.len();
    let r = decode_value(input, 0);
    proof {
        assert forall|v: SpecValue| #[trigger] encodes_at(s, 0, v) implies (r matches Ok(p)
            && p.0@ == v && p.1 == spec_encode(v).len()) by {
            lemma_parse_canonical(s, 0, v);
        }
        assert forall|v: SpecValue, rest: Seq<u8>|
            input@ == #[trigger] (spec_encode(v) + rest) implies (r matches Ok(p) && p.0@ == v
            && p.1 == spec_encode(v).len()) by {
            assert(s.subrange(0, spec_encode(v).len() as int) =~= spec_encode(v));
            assert(encodes_at(s, 0, v));
            lemma_parse_canonical(s, 0, v);
        }
    }
    r
}

/// Decode a whole stream of sibling values: iterate decoding on the
/// returned remainder until the input is exhausted.  The decoded sequence
/// reproduces the stream exactly, with no byte lost or duplicated.
#[verifier::loop_isolation(false)]
pub fn decode_all(input: &[u8]) -> (r: Result<Vec<Value>, DecodeError>)
    ensures
        spec_parse_stream(input@, 0) matches Ok(q) ==> (r matches Ok(vs) && spec_view_list(vs@)
            == q.0),
        spec_parse_stream(input@, 0) matches Err(e) ==> r == Err::<Vec<Value>, DecodeError>(e),
        forall|xs: Seq<SpecValue>| input@ == #[trigger] spec_encode_seq(xs) ==> (r matches Ok(vs)
            && spec_view_list(vs@) == xs),
{
    let ghost s = input@;
    let ilen = input.len();
    let mut items: Vec<Value> = Vec::new();
    let mut cur: usize = 0;
    proof {
        assert(spec_view_list(items@) =~= Seq::<SpecValue>::empty());
        lemma_prepend_items_empty(spec_parse_stream(s, 0));
    }
    loop
        invariant
            cur <= ilen,
            prepend_items(spec_view_list(items@), spec_parse_stream(s, cur as int))
                == spec_parse_stream(s, 0),
        decreases ilen - cur,
    {
        let ghost vs = spec_view_list(items@);
        if cur == ilen {
            proof {
                assert(spec_parse_stream(s, cur as int) == Ok::<(Seq<SpecValue>, int), DecodeError>(
                    (Seq::empty(), cur as int),
                ));
                assert(vs + Seq::<SpecValue>::empty() =~= vs);
                assert(spec_parse_stream(s, 0) == Ok::<(Seq<SpecValue>, int), DecodeError>(
                    (vs, cur as int),
                ));
                assert forall|xs: Seq<SpecValue>|
                    input@ == #[trigger] spec_encode_seq(xs) implies vs == xs by {
                    assert(s.subrange(0, s.len() as int) =~= s);
                    lemma_parse_canonical_stream(s, 0, xs);
                }
            }
            return Ok(items);
        }
        match decode_value(input, cur) {
            Err(e) => {
                proof {
                    assert(spec_parse_stream(s, cur as int) == Err::<
                        (Seq<SpecValue>, int),
                        DecodeError,
                    >(e));
                    assert(spec_parse_stream(s, 0) == Err::<(Seq<SpecValue>, int), DecodeError>(e));
                    assert forall|xs: Seq<SpecValue>|
                        input@ != #[trigger] spec_encode_seq(xs) by {
                        if input@ == spec_encode_seq(xs) {
                            assert(s.subrange(0, s.len() as int) =~= s);
                            lemma_parse_canonical_stream(s, 0, xs);
                        }
                    }
                }
                return Err(e);
            },
            Ok((v, nxt)) => {
                proof {
                    lemma_stream_step(s, cur as int, v@, nxt as int, vs);
                    crate::value::lemma_view_list_push(items@, v);
                    assert(vs.push(v@) =~= vs + seq![v@]);
                    assert(spec_view_list(items@.push(v)) =~= vs.push(v@));
                }
                items.push(v);
                cur = nxt;
            },
        }
    }
}

/// Number of container openers (`l` or `d`) in `s`.
pub open spec fn opener_count(s: Seq<u8>) -> int
    decreases s.len(),
{
    if s.len() == 0 {
        0
    } else {
        opener_count(s.drop_last()) + (if s.last() == 108 || s.last() == 100 {
            1int
        } else {
            0int
        })
    }
}

/// Decode the value at the head of `input` only after bounding how deep it
/// can nest.  The decoder recurses once per container level, and each
/// level consumes a distinct `l` or `d` byte, so the opener count bounds
/// the recursion depth.  `None` means the bound was exceeded and nothing
/// was decoded; a caller handling untrusted input picks the limit its
/// stack affords.
#[verifier::loop_isolation(false)]
pub fn decode_bounded(input: &[u8], depth_limit: usize) -> (r: Option<
    Result<(Value, usize), DecodeError>,
>)
    ensures
        r matches Some(inner) ==> parse_result_view(inner) == spec_parse(input@, 0),
        opener_count(input@) <= depth_limit ==> r is Some,
{
    let n = input.len();
    let mut count: usize = 0;
    let mut i: usize = 0;
    while i < n
        invariant
            i <= n,
            count <= i,
            count == opener_count(input@.subrange(0, i as int)),
        decreases n - i,
    {
        let b = input[i];
        proof {
            let pre = input@.subrange(0, i as int);
            let ext = input@.subrange(0, i + 1);
            assert(ext.drop_last() =~= pre);
            assert(ext.last() == input@[i as int]);
        }
        if b == 108 || b == 100 {
            count = count + 1;
        }
        i = i + 1;
    }
    assert(input@.subrange(0, n as int) =~= input@);
    if count > depth_limit {
        return None;
    }
    Some(decode(input))
}

} // verus!
