//! Decimal notation of natural numbers, also of numbers too large for a
//! machine integer.
//!
//! A number under construction is a vector of digits, least significant
//! first. Such a vector is rendered most significant digit first as ASCII.

use vstd::prelude::*;

verus! {

/// The ASCII code of the digit `d`, for `d` below ten.
pub open spec fn digit_byte(d: nat) -> u8 {
    (48 + d) as u8
}

/// The decimal notation of `n` in ASCII, most significant digit first and
/// without leading zeros; zero is written `0`.
pub open spec fn decimal_bytes(n: nat) -> Seq<u8>
    decreases n,
{
    if n < 10 {
        seq![digit_byte(n)]
    } else {
        decimal_bytes(n / 10).push(digit_byte(n % 10))
    }
}

/// The number whose digits are `low`, least significant first, below the
/// digits of `high`.
pub open spec fn join_digits(low: Seq<u8>, high: nat) -> nat
    decreases low.len(),
{
    if low.len() == 0 {
        high
    } else {
        low[0] as nat + 10 * join_digits(low.drop_first(), high)
    }
}

/// The number that a sequence of digits, least significant first, denotes.
pub open spec fn digits_value(digits: Seq<u8>) -> nat {
    join_digits(digits, 0)
}

/// Every element is a decimal digit.
pub open spec fn is_digits(digits: Seq<u8>) -> bool {
    forall|i: int| 0 <= i < digits.len() ==> digits[i] < 10
}

/// The digits have no superfluous zero at the significant end: a number
/// has exactly one such sequence.
pub open spec fn is_canonical(digits: Seq<u8>) -> bool {
    &&& is_digits(digits)
    &&& digits.len() >= 1
    &&& digits.len() > 1 ==> digits.last() != 0
}

/// The digits in ASCII, most significant first.
pub open spec fn rendered(digits: Seq<u8>) -> Seq<u8> {
    Seq::new(digits.len(), |i: int| digit_byte(digits[digits.len() - 1 - i] as nat))
}

/// Appending a digit at the significant end puts it on top of the lower
/// digits.
pub proof fn lemma_join_push(low: Seq<u8>, digit: u8, high: nat)
    ensures
        join_digits(low.push(digit), high) == join_digits(low, digit as nat + 10 * high),
    decreases low.len(),
{
    let pushed = low.push(digit);
    if low.len() == 0 {
        assert(pushed.drop_first().len() == 0);
        assert(join_digits(pushed.drop_first(), high) == high);
    } else {
        assert(pushed.drop_first() =~= low.drop_first().push(digit));
        assert(pushed[0] == low[0]);
        lemma_join_push(low.drop_first(), digit, high);
    }
}

/// Digits with a non-zero most significant digit denote a positive number.
pub proof fn lemma_value_positive(digits: Seq<u8>)
    requires
        digits.len() >= 1,
        digits.last() != 0,
    ensures
        digits_value(digits) > 0,
    decreases digits.len(),
{
    if digits.len() > 1 {
        assert(digits.drop_first().last() == digits.last());
        lemma_value_positive(digits.drop_first());
    } else {
        assert(digits.drop_first().len() == 0);
    }
}

/// Canonical digits, rendered, are the decimal notation of their value.
pub proof fn lemma_rendered_is_decimal(digits: Seq<u8>)
    requires
        is_canonical(digits),
    ensures
        rendered(digits) == decimal_bytes(digits_value(digits)),
    decreases digits.len(),
{
    let rest = digits.drop_first();
    let value = digits_value(digits);
    if digits.len() == 1 {
        assert(rest.len() == 0);
        assert(value == digits[0]);
        assert(rendered(digits) =~= seq![digit_byte(digits[0] as nat)]);
    } else {
        assert(rest.last() == digits.last());
        assert(is_canonical(rest));
        lemma_value_positive(rest);
        lemma_rendered_is_decimal(rest);
        assert(value == digits[0] as nat + 10 * digits_value(rest));
        assert(value / 10 == digits_value(rest));
        assert(value % 10 == digits[0] as nat);
        assert(rendered(digits) =~= rendered(rest).push(digit_byte(digits[0] as nat)));
    }
}

/// The digits of `n`, least significant first.
pub fn digits_of(n: u128) -> (digits: Vec<u8>)
    ensures
        is_canonical(digits@),
        digits_value(digits@) == n,
{
    let mut digits: Vec<u8> = Vec::new();
    let mut rest: u128 = n;
    while rest >= 10
        invariant
            is_digits(digits@),
            digits@.len() > 0 ==> rest > 0,
            join_digits(digits@, rest as nat) == n,
        decreases rest,
    {
        let digit: u8 = (rest % 10) as u8;
        proof {
            lemma_join_push(digits@, digit, (rest / 10) as nat);
        }
        digits.push(digit);
        rest = rest / 10;
    }
    proof {
        lemma_join_push(digits@, rest as u8, 0);
    }
    digits.push(rest as u8);
    digits
}

/// Sixteen times the number that `digits` denotes, as digits.
pub fn times_sixteen(digits: &Vec<u8>) -> (product: Vec<u8>)
    requires
        is_canonical(digits@),
    ensures
        is_canonical(product@),
        digits_value(product@) == 16 * digits_value(digits@),
{
    let count: usize = digits.len();
    let mut product: Vec<u8> = Vec::new();
    let mut carry: u8 = 0;
    let mut i: usize = 0;
    assert(digits@.skip(0) =~= digits@);
    while i < count
        invariant
            i <= count,
            count == digits@.len(),
            is_digits(digits@),
            is_digits(product@),
            product@.len() == i,
            carry <= 15,
            i > 0 && digits@[i - 1] != 0 ==> carry > 0,
            join_digits(product@, 16 * digits_value(digits@.skip(i as int)) + carry as nat) == 16
                * digits_value(digits@),
        decreases count - i,
    {
        let step: u8 = digits[i] * 16 + carry;
        proof {
            let tail = digits@.skip(i as int);
            assert(tail.drop_first() =~= digits@.skip(i + 1));
            assert(tail[0] == digits@[i as int]);
            assert(digits_value(tail) == digits@[i as int] as nat + 10 * digits_value(
                digits@.skip(i + 1),
            ));
            lemma_join_push(
                product@,
                step % 10,
                16 * digits_value(digits@.skip(i + 1)) + (step / 10) as nat,
            );
        }
        product.push(step % 10);
        carry = step / 10;
        i += 1;
    }
    assert(digits@.skip(count as int).len() == 0);
    while carry > 0
        invariant
            is_digits(product@),
            product@.len() >= count,
            count >= 1,
            carry <= 15,
            carry > 0 || product@.len() == 1 || product@.last() != 0,
            join_digits(product@, carry as nat) == 16 * digits_value(digits@),
        decreases carry,
    {
        proof {
            lemma_join_push(product@, carry % 10, (carry / 10) as nat);
        }
        product.push(carry % 10);
        carry = carry / 10;
    }
    product
}

/// Appends the digits to `out` in ASCII, most significant first.
pub fn append_rendered(out: &mut Vec<u8>, digits: &Vec<u8>)
    requires
        is_digits(digits@),
    ensures
        final(out)@ == old(out)@ + rendered(digits@),
{
    let count: usize = digits.len();
    let mut i: usize = 0;
    while i < count
        invariant
            i <= count,
            count == digits@.len(),
            is_digits(digits@),
            out@ == old(out)@ + rendered(digits@).take(i as int),
        decreases count - i,
    {
        out.push(48 + digits[count - 1 - i]);
        i += 1;
        assert(out@ =~= old(out)@ + rendered(digits@).take(i as int));
    }
    assert(rendered(digits@).take(count as int) =~= rendered(digits@));
}

/// Appends the decimal notation of `n` to `out`.
pub fn append_decimal(out: &mut Vec<u8>, n: u128)
    ensures
        final(out)@ == old(out)@ + decimal_bytes(n as nat),
{
    let digits = digits_of(n);
    proof {
        lemma_rendered_is_decimal(digits@);
    }
    append_rendered(out, &digits);
}

} // verus!
