//! Decimal notation of unsigned numbers.

use vstd::prelude::*;

verus! {

/// The ASCII code of decimal digit `d`.
pub open spec fn digit_code(d: nat) -> u8 {
    (48 + d) as u8
}

/// The ASCII codes of the decimal notation of `n`, most significant digit first, with no
/// leading zeros (zero itself is the single digit `0`).
pub open spec fn decimal(n: nat) -> Seq<u8>
    decreases n,
{
    if n < 10 {
        seq![digit_code(n)]
    } else {
        decimal(n / 10).push(digit_code(n % 10))
    }
}

/// Every code in a decimal notation is that of a digit.
pub proof fn lemma_decimal_digits(n: nat)
    ensures
        decimal(n).len() >= 1,
        forall|i: int| 0 <= i < decimal(n).len() ==> 48 <= #[trigger] decimal(n)[i] <= 57,
    decreases n,
{
    if n >= 10 {
        lemma_decimal_digits(n / 10);
    }
}

/// Whether every code in `s` is that of a decimal digit.
pub open spec fn is_digits(s: Seq<u8>) -> bool {
    forall|i: int| 0 <= i < s.len() ==> 48 <= #[trigger] s[i] <= 57
}

/// The number that the decimal digits `s` denote, reading from the most significant digit.
pub open spec fn digits_value(s: Seq<u8>) -> int
    decreases s.len(),
{
    if s.len() == 0 {
        0
    } else {
        digits_value(s.drop_last()) * 10 + (s.last() as int - 48)
    }
}

/// The decimal notation is canonical and denotes the number: it is a non-empty run of digits
/// with no leading zero (except for zero itself), and reading it back gives `n`.
pub proof fn lemma_decimal_value(n: nat)
    ensures
        is_digits(decimal(n)),
        decimal(n).len() >= 1,
        decimal(n).len() == 1 || decimal(n)[0] != 48,
        n > 0 ==> decimal(n)[0] != 48,
        digits_value(decimal(n)) == n,
    decreases n,
{
    lemma_decimal_digits(n);
    if n >= 10 {
        lemma_decimal_value(n / 10);
        assert(decimal(n).drop_last() =~= decimal(n / 10));
        assert(decimal(n)[0] == decimal(n / 10)[0]);
        assert(decimal(n).last() == digit_code(n % 10));
        assert(n / 10 > 0);
        assert(n == (n / 10) * 10 + n % 10);
    } else {
        assert(decimal(n).drop_last() =~= Seq::<u8>::empty());
        assert(digits_value(Seq::<u8>::empty()) == 0);
    }
}

/// The decimal notation of `n`, as ASCII codes.
pub fn decimal_digits(n: u64) -> (r: Vec<u8>)
    ensures
        r@ == decimal(n as nat),
    decreases n,
{
    if n < 10 {
        let mut r: Vec<u8> = Vec::new();
        r.push(48 + n as u8);
        r
    } else {
        let mut r = decimal_digits(n / 10);
        r.push(48 + (n % 10) as u8);
        r
    }
}

} // verus!
