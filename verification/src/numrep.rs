//! Decimal representation of numbers as ASCII digit runs, and the lemmas
//! that connect a digit run to the number it denotes.

use vstd::prelude::*;

verus! {

use crate::value::spec_digits;

/// 10 raised to `k`.
pub open spec fn pow10(k: nat) -> nat
    decreases k,
{
    if k == 0 {
        1
    } else {
        10 * pow10((k - 1) as nat)
    }
}

/// Is `c` an ASCII decimal digit?
pub open spec fn is_ascii_digit(c: u8) -> bool {
    48 <= c <= 57
}

/// Does `s` consist of ASCII decimal digits only?
pub open spec fn all_digits(s: Seq<u8>) -> bool {
    forall|i: int| 0 <= i < s.len() ==> is_ascii_digit(#[trigger] s[i])
}

/// The number denoted by a run of ASCII digits, most significant first.
pub open spec fn digits_value(s: Seq<u8>) -> int
    decreases s.len(),
{
    if s.len() == 0 {
        0
    } else {
        digits_value(s.drop_last()) * 10 + s.last() - 48
    }
}

/// A digit run in canonical form: non-empty, and no leading zero unless it
/// is the single digit `0`.
pub open spec fn canonical_digits(s: Seq<u8>) -> bool {
    &&& all_digits(s)
    &&& s.len() > 0
    &&& (s.len() > 1 ==> s[0] != 48)
}

/// A run of digits never denotes a negative number.
pub proof fn lemma_digits_value_nonneg(s: Seq<u8>)
    requires
        all_digits(s),
    ensures
        digits_value(s) >= 0,
    decreases s.len(),
{
    if s.len() > 0 {
        assert(all_digits(s.drop_last())) by {
            assert(forall|i: int|
                0 <= i < s.len() - 1 ==> s.drop_last()[i] == #[trigger] s[i]);
        }
        lemma_digits_value_nonneg(s.drop_last());
    }
}

/// A canonical run with a non-zero lead digit denotes at least
/// `pow10(len - 1)`.
pub proof fn lemma_digits_value_lower(s: Seq<u8>)
    requires
        all_digits(s),
        s.len() > 0,
        s[0] != 48,
    ensures
        digits_value(s) >= pow10((s.len() - 1) as nat),
    decreases s.len(),
{
    if s.len() == 1 {
        assert(digits_value(s.drop_last()) == 0);
        assert(s.last() == s[0]);
        assert(digits_value(s) == s[0] - 48);
    } else {
        let t = s.drop_last();
        assert(all_digits(t) && t[0] == s[0]) by {
            assert(forall|i: int| 0 <= i < s.len() - 1 ==> t[i] == #[trigger] s[i]);
        }
        lemma_digits_value_lower(t);
        assert(pow10((s.len() - 1) as nat) == 10 * pow10((s.len() - 2) as nat));
        assert(digits_value(s) == digits_value(t) * 10 + s.last() - 48);
    }
}

/// The canonical digits of `n` are digits, start with a non-zero digit
/// unless `n` is zero, and denote `n`.
pub proof fn lemma_spec_digits(n: nat)
    ensures
        spec_digits(n).len() >= 1,
        all_digits(spec_digits(n)),
        n > 0 ==> spec_digits(n)[0] != 48,
        n == 0 ==> spec_digits(n) =~= seq![48u8],
        spec_digits(n).len() > 1 ==> spec_digits(n)[0] != 48,
        digits_value(spec_digits(n)) == n,
    decreases n,
{
    if n < 10 {
        assert(spec_digits(n) =~= seq![(48 + n) as u8]);
        let s = spec_digits(n);
        assert(digits_value(s.drop_last()) == 0);
        assert(s.last() == (48 + n) as u8);
        assert(digits_value(s) == (48 + n) - 48);
    } else {
        lemma_spec_digits(n / 10);
        let t = spec_digits(n / 10);
        let s = spec_digits(n);
        assert(s == t.push((48 + n % 10) as u8));
        assert(s.drop_last() =~= t);
        assert(s.last() == (48 + n % 10) as u8);
        assert(forall|i: int|
            0 <= i < s.len() ==> is_ascii_digit(#[trigger] s[i])) by {
            assert(forall|i: int| 0 <= i < t.len() ==> s[i] == #[trigger] t[i]);
        }
        assert(digits_value(s) == digits_value(t) * 10 + n % 10);
        assert(n / 10 * 10 + n % 10 == n);
    }
}

/// A canonical digit run is the canonical representation of its value:
/// `spec_digits` inverts `digits_value` on canonical runs.
pub proof fn lemma_canonical_digits_inverse(s: Seq<u8>)
    requires
        canonical_digits(s),
    ensures
        digits_value(s) >= 0,
        spec_digits(digits_value(s) as nat) =~= s,
    decreases s.len(),
{
    lemma_digits_value_nonneg(s);
    let v = digits_value(s) as nat;
    if s.len() == 1 {
        assert(s.drop_last().len() == 0);
        assert(digits_value(s.drop_last()) == 0);
        assert(s.last() == s[0]);
        assert(v == s[0] - 48);
        assert(v < 10);
        assert(spec_digits(v) =~= seq![(48 + v) as u8]);
    } else {
        assert(s[0] != 48);
        lemma_digits_value_lower(s);
        assert(pow10((s.len() - 1) as nat) >= 10) by {
            assert(pow10((s.len() - 1) as nat)
                == 10 * pow10((s.len() - 2) as nat));
            lemma_pow10_positive((s.len() - 2) as nat);
        }
        let t = s.drop_last();
        assert(canonical_digits(t)) by {
            assert(forall|i: int| 0 <= i < s.len() - 1 ==> t[i] == #[trigger] s[i]);
        }
        lemma_canonical_digits_inverse(t);
        assert(v == digits_value(t) * 10 + (s.last() - 48));
        assert(0 <= s.last() - 48 <= 9);
        assert(v / 10 == digits_value(t) && v % 10 == s.last() - 48) by {
            lemma_digits_value_nonneg(t);
        }
        assert(v >= 10);
        assert(spec_digits(v) == spec_digits(v / 10).push((48 + v % 10) as u8));
    }
}

/// Powers of ten are positive.
pub proof fn lemma_pow10_positive(k: nat)
    ensures
        pow10(k) >= 1,
    decreases k,
{
    if k > 0 {
        lemma_pow10_positive((k - 1) as nat);
    }
}

/// Appending digits to a run never shrinks its value.
pub proof fn lemma_digits_value_prefix_le(s: Seq<u8>, k: int)
    requires
        all_digits(s),
        0 <= k <= s.len(),
    ensures
        digits_value(s.subrange(0, k)) <= digits_value(s),
    decreases s.len() - k,
{
    if k == s.len() {
        assert(s.subrange(0, k) =~= s);
    } else {
        let t = s.subrange(0, k + 1);
        lemma_digits_value_prefix_le(s, k + 1);
        assert(t.drop_last() =~= s.subrange(0, k));
        assert(all_digits(t)) by {
            assert(forall|i: int| 0 <= i < t.len() ==> t[i] == #[trigger] s[i]);
        }
        lemma_digits_value_nonneg(t.drop_last());
        assert(digits_value(t)
            == digits_value(s.subrange(0, k)) * 10 + (t.last() - 48));
        assert(is_ascii_digit(s[k]));
    }
}

} // verus!
