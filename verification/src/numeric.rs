//! Numeric cells: eight bytes in the hexadecimal format of the IBM
//! System/360, written out in decimal notation.
//!
//! Byte 0 holds the sign in its top bit and an exponent, biased by 64, in
//! the other seven. Bytes 1 to 7 hold a fraction of 56 bits. The magnitude
//! is the fraction, divided by two to the 56th, times sixteen to the power
//! of the exponent. It is computed exactly, in integers.

use crate::decimal::{
    append_decimal, append_rendered, decimal_bytes, digit_byte, digits_of, digits_value,
    is_canonical, lemma_rendered_is_decimal, times_sixteen,
};
use crate::scan::{drop_tail_while, lemma_drop_tail_while, lemma_suffix_run};
use crate::text::{ascii_text, is_ascii_bytes, text_from_ascii};
use crate::XPTParser;
use vstd::arithmetic::div_mod::{
    lemma_basic_div, lemma_div_multiples_vanish, lemma_div_multiples_vanish_quotient,
    lemma_fundamental_div_mod_converse,
};
use vstd::arithmetic::power::{lemma_pow_adds, lemma_pow_increases, lemma_pow_positive, pow};
use vstd::prelude::*;

verus! {

/// The first byte of a missing value.
pub const MISSING_MARK: u8 = 0x2E;

/// The fraction that bytes 1 to 7 of a cell hold, most significant first.
pub open spec fn fraction_of(cell: Seq<u8>) -> nat {
    (cell[1] * 0x1_0000_0000_0000 + cell[2] * 0x100_0000_0000 + cell[3] * 0x1_0000_0000 + cell[4]
        * 0x100_0000 + cell[5] * 0x1_0000 + cell[6] * 0x100 + cell[7]) as nat
}

/// The exponent of sixteen in byte 0, still biased by 64.
pub open spec fn biased_exponent(cell: Seq<u8>) -> nat {
    (cell[0] % 128) as nat
}

/// Whether the sign bit of byte 0 is set.
pub open spec fn is_negative(cell: Seq<u8>) -> bool {
    cell[0] >= 0x80
}

/// The magnitude in millionths, rounded toward zero. Two to the 56th is
/// sixteen to the 14th, so the magnitude is the fraction times sixteen to
/// the power of `biased - 78`.
pub open spec fn scaled_magnitude(fraction: nat, biased: nat) -> nat {
    ((fraction as int * 1_000_000 * pow(16, biased)) / pow(16, 78)) as nat
}

/// The six digits of `millionths` in ASCII, for a number below a million.
pub open spec fn six_digits(millionths: nat) -> Seq<u8> {
    seq![
        digit_byte(millionths / 100_000 % 10),
        digit_byte(millionths / 10_000 % 10),
        digit_byte(millionths / 1_000 % 10),
        digit_byte(millionths / 100 % 10),
        digit_byte(millionths / 10 % 10),
        digit_byte(millionths % 10),
    ]
}

/// The predicate of the digit zero in ASCII.
pub open spec fn zero_digit() -> spec_fn(u8) -> bool {
    |byte: u8| byte == 0x30
}

/// The fractional part of a notation: nothing where there are no
/// millionths, else the point and the six digits without trailing zeros.
pub open spec fn fraction_bytes(millionths: nat) -> Seq<u8> {
    if millionths == 0 {
        Seq::empty()
    } else {
        seq![0x2Eu8] + drop_tail_while(six_digits(millionths), zero_digit())
    }
}

/// The notation of a magnitude given in millionths: the whole part, then
/// the fractional part.
pub open spec fn magnitude_bytes(scaled: nat) -> Seq<u8> {
    decimal_bytes(scaled / 1_000_000) + fraction_bytes(scaled % 1_000_000)
}

/// The sign of a notation: a minus for a negative number, else nothing.
pub open spec fn sign_bytes(negative: bool) -> Seq<u8> {
    if negative {
        seq![0x2Du8]
    } else {
        Seq::empty()
    }
}

/// The first eight bytes of the cell are all zero.
pub open spec fn is_all_zero(cell: Seq<u8>) -> bool {
    forall|i: int| 0 <= i < 8 ==> cell[i] == 0
}

/// The cell holds no value: it is shorter than eight bytes, or it is not
/// all zero and starts with the mark of a missing value.
pub open spec fn is_missing(cell: Seq<u8>) -> bool {
    cell.len() < 8 || (!is_all_zero(cell) && cell[0] == 0x2E)
}

/// The decimal notation of a numeric cell in ASCII; empty for a missing
/// value. Bytes after the eighth are ignored. A fraction of zero gives `0`
/// or `-0`, by the sign.
pub open spec fn numeric_bytes(cell: Seq<u8>) -> Seq<u8> {
    if is_missing(cell) {
        Seq::empty()
    } else if is_all_zero(cell) {
        decimal_bytes(0)
    } else {
        sign_bytes(is_negative(cell)) + magnitude_bytes(
            scaled_magnitude(fraction_of(cell), biased_exponent(cell)),
        )
    }
}

/// The decimal notation of a numeric cell as text.
pub open spec fn numeric_text(cell: Seq<u8>) -> Seq<char> {
    ascii_text(numeric_bytes(cell))
}

/// Decimal notation consists of ASCII digits and is never empty.
pub proof fn lemma_decimal_is_ascii(n: nat)
    ensures
        is_ascii_bytes(decimal_bytes(n)),
        decimal_bytes(n).len() >= 1,
    decreases n,
{
    if n >= 10 {
        lemma_decimal_is_ascii(n / 10);
    }
}

/// The fractional part consists of ASCII characters.
pub proof fn lemma_fraction_is_ascii(millionths: nat)
    ensures
        is_ascii_bytes(fraction_bytes(millionths)),
{
    if millionths != 0 {
        let six = six_digits(millionths);
        lemma_drop_tail_while(six, zero_digit());
        let kept = drop_tail_while(six, zero_digit());
        assert forall|i: int| 0 <= i < fraction_bytes(millionths).len() implies fraction_bytes(
            millionths,
        )[i] < 0x80 by {
            if i > 0 {
                assert(fraction_bytes(millionths)[i] == kept[i - 1]);
                assert(kept[i - 1] == six[i - 1]);
            }
        }
    }
}

/// A present value has a notation, a missing one has none: the empty text
/// stands for a missing value and for nothing else.
pub proof fn lemma_missing_iff_empty(cell: Seq<u8>)
    ensures
        is_missing(cell) <==> numeric_text(cell).len() == 0,
{
    lemma_decimal_is_ascii(0);
    if !is_missing(cell) && !is_all_zero(cell) {
        let scaled = scaled_magnitude(fraction_of(cell), biased_exponent(cell));
        lemma_decimal_is_ascii(scaled / 1_000_000);
    }
}

/// With an exponent of 14 or more the magnitude is a whole number: the
/// fraction times a power of sixteen.
pub proof fn lemma_scaled_whole(fraction: nat, biased: nat)
    requires
        biased >= 78,
    ensures
        scaled_magnitude(fraction, biased) == fraction * pow(16, (biased - 78) as nat) * 1_000_000,
        scaled_magnitude(fraction, biased) / 1_000_000 == fraction * pow(16, (biased - 78) as nat),
        scaled_magnitude(fraction, biased) % 1_000_000 == 0,
{
    let unit = pow(16, 78);
    let factor = pow(16, (biased - 78) as nat);
    lemma_pow_positive(16, 78);
    lemma_pow_positive(16, (biased - 78) as nat);
    lemma_pow_adds(16, 78, (biased - 78) as nat);
    let whole = fraction * factor;
    assert(fraction * 1_000_000 * (unit * factor) == unit * (whole * 1_000_000))
        by (nonlinear_arith)
        requires
            whole == fraction * factor,
    ;
    lemma_div_multiples_vanish(whole * 1_000_000, unit);
    assert(whole >= 0) by (nonlinear_arith)
        requires
            whole == fraction * factor,
            factor > 0,
    ;
    lemma_fundamental_div_mod_converse(whole * 1_000_000, 1_000_000, whole, 0);
}

/// With an exponent below 14 the magnitude is the fraction divided by a
/// power of sixteen.
pub proof fn lemma_scaled_part(fraction: nat, biased: nat)
    requires
        biased < 78,
    ensures
        pow(16, (78 - biased) as nat) > 0,
        scaled_magnitude(fraction, biased) == (fraction * 1_000_000) as int / pow(
            16,
            (78 - biased) as nat,
        ),
{
    let common = pow(16, biased);
    let divisor = pow(16, (78 - biased) as nat);
    lemma_pow_positive(16, biased);
    lemma_pow_positive(16, (78 - biased) as nat);
    lemma_pow_adds(16, biased, (78 - biased) as nat);
    lemma_div_multiples_vanish_quotient(common, (fraction * 1_000_000) as int, divisor);
    assert(fraction * 1_000_000 * common == common * (fraction * 1_000_000)) by (nonlinear_arith);
}

/// No magnitude reaches sixteen to the 63rd: every cell that is not
/// missing has a finite value, far below the largest double.
pub proof fn lemma_magnitude_is_bounded(fraction: nat, biased: nat)
    requires
        fraction < 0x100_0000_0000_0000,
        biased < 128,
    ensures
        scaled_magnitude(fraction, biased) < pow(16, 63) * 1_000_000,
{
    reveal_with_fuel(pow, 15);
    assert(pow(16, 14) == 0x100_0000_0000_0000);
    lemma_pow_adds(16, 14, 49);
    lemma_pow_positive(16, 49);
    let top = pow(16, 49);
    if biased >= 78 {
        lemma_scaled_whole(fraction, biased);
        let factor = pow(16, (biased - 78) as nat);
        lemma_pow_positive(16, (biased - 78) as nat);
        lemma_pow_increases(16, (biased - 78) as nat, 49);
        assert(fraction * factor * 1_000_000 < 0x100_0000_0000_0000 * top * 1_000_000)
            by (nonlinear_arith)
            requires
                fraction < 0x100_0000_0000_0000,
                0 < factor <= top,
        ;
    } else {
        lemma_scaled_part(fraction, biased);
        let divisor = pow(16, (78 - biased) as nat);
        vstd::arithmetic::div_mod::lemma_div_nonincreasing((fraction * 1_000_000) as int, divisor);
        assert(fraction * 1_000_000 < 0x100_0000_0000_0000 * top * 1_000_000) by (nonlinear_arith)
            requires
                fraction < 0x100_0000_0000_0000,
                0 < top,
        ;
    }
}

/// Sixteen to the 19th and to the 20th, written out.
pub proof fn lemma_pow16_values()
    ensures
        pow(16, 19) == 0x1000_0000_0000_0000_0000,
        pow(16, 20) == 0x1_0000_0000_0000_0000_0000,
{
    reveal_with_fuel(pow, 21);
}

/// Sixteen to the power of `exponent`, for an exponent that keeps it
/// within 80 bits.
fn pow16(exponent: u8) -> (power: u128)
    requires
        exponent <= 19,
    ensures
        power == pow(16, exponent as nat),
        1 <= power <= 0x1000_0000_0000_0000_0000,
{
    let mut power: u128 = 1;
    let mut i: u8 = 0;
    proof {
        reveal_with_fuel(pow, 1);
    }
    while i < exponent
        invariant
            i <= exponent <= 19,
            power == pow(16, i as nat),
            1 <= power <= 0x1000_0000_0000_0000_0000,
        decreases exponent - i,
    {
        proof {
            lemma_pow16_values();
            lemma_pow_increases(16, (i + 1) as nat, 19);
            reveal_with_fuel(pow, 1);
            assert(pow(16, (i + 1) as nat) == 16 * pow(16, i as nat));
        }
        power = power * 16;
        i += 1;
    }
    power
}

/// Appends the fractional part of a notation.
fn append_fraction(out: &mut Vec<u8>, millionths: u32)
    requires
        millionths < 1_000_000,
    ensures
        final(out)@ == old(out)@ + fraction_bytes(millionths as nat),
{
    if millionths == 0 {
        assert(out@ =~= old(out)@ + fraction_bytes(0));
        return ;
    }
    let mut six: Vec<u8> = Vec::new();
    six.push(48 + (millionths / 100_000 % 10) as u8);
    six.push(48 + (millionths / 10_000 % 10) as u8);
    six.push(48 + (millionths / 1_000 % 10) as u8);
    six.push(48 + (millionths / 100 % 10) as u8);
    six.push(48 + (millionths / 10 % 10) as u8);
    six.push(48 + (millionths % 10) as u8);
    assert(six@ =~= six_digits(millionths as nat));
    let mut kept: usize = 6;
    while kept > 0 && six[kept - 1] == 48
        invariant
            kept <= 6,
            six@.len() == 6,
            forall|i: int| kept <= i < 6 ==> zero_digit()(#[trigger] six@[i]),
        decreases kept,
    {
        kept -= 1;
    }
    proof {
        lemma_suffix_run(six@, zero_digit(), kept as int);
    }
    out.push(0x2E);
    let mut i: usize = 0;
    while i < kept
        invariant
            i <= kept <= 6,
            six@.len() == 6,
            out@ == old(out)@ + seq![0x2Eu8] + six@.take(i as int),
        decreases kept - i,
    {
        out.push(six[i]);
        i += 1;
        assert(out@ =~= old(out)@ + seq![0x2Eu8] + six@.take(i as int));
    }
    assert(out@ =~= old(out)@ + (seq![0x2Eu8] + six@.take(kept as int)));
}

/// Appends the notation of a magnitude whose exponent makes it a whole
/// number, possibly beyond any machine integer.
fn append_whole(out: &mut Vec<u8>, fraction: u64, biased: u8)
    requires
        78 <= biased < 128,
    ensures
        final(out)@ == old(out)@ + magnitude_bytes(
            scaled_magnitude(fraction as nat, biased as nat),
        ),
{
    let mut digits = digits_of(fraction as u128);
    let mut raised: u8 = 78;
    proof {
        reveal_with_fuel(pow, 1);
        assert(fraction * pow(16, 0) == fraction);
    }
    while raised < biased
        invariant
            78 <= raised <= biased,
            is_canonical(digits@),
            digits_value(digits@) == fraction * pow(16, (raised - 78) as nat),
        decreases biased - raised,
    {
        proof {
            let before = pow(16, (raised - 78) as nat);
            reveal_with_fuel(pow, 1);
            assert(pow(16, (raised + 1 - 78) as nat) == 16 * before);
            assert(16 * (fraction * before) == fraction * (16 * before)) by (nonlinear_arith);
        }
        digits = times_sixteen(&digits);
        raised += 1;
    }
    proof {
        lemma_rendered_is_decimal(digits@);
        lemma_scaled_whole(fraction as nat, biased as nat);
        assert(fraction_bytes(0) =~= Seq::<u8>::empty());
    }
    append_rendered(out, &digits);
    assert(out@ =~= old(out)@ + magnitude_bytes(
        scaled_magnitude(fraction as nat, biased as nat),
    ));
}

/// Appends the notation of a magnitude whose exponent leaves a fractional
/// part.
fn append_part(out: &mut Vec<u8>, fraction: u64, biased: u8)
    requires
        biased < 78,
        fraction < 0x100_0000_0000_0000,
    ensures
        final(out)@ == old(out)@ + magnitude_bytes(
            scaled_magnitude(fraction as nat, biased as nat),
        ),
{
    let shift: u8 = 78 - biased;
    let millionths: u128 = fraction as u128 * 1_000_000;
    proof {
        lemma_scaled_part(fraction as nat, biased as nat);
    }
    let scaled: u128 = if shift >= 20 {
        proof {
            lemma_pow16_values();
            lemma_pow_increases(16, 20, shift as nat);
            lemma_basic_div(millionths as int, pow(16, shift as nat));
        }
        0
    } else {
        millionths / pow16(shift)
    };
    assert(scaled == scaled_magnitude(fraction as nat, biased as nat));
    append_decimal(out, scaled / 1_000_000);
    append_fraction(out, (scaled % 1_000_000) as u32);
    assert(out@ =~= old(out)@ + magnitude_bytes(scaled as nat));
}

impl XPTParser {
    /// Decodes a numeric cell to its decimal notation: at most six digits
    /// after the point, further ones cut off and not rounded, trailing
    /// zeros and a trailing point left out. A missing value gives the
    /// empty string.
    pub fn parse_numeric_value(data: &[u8]) -> (text: String)
        ensures
            text@ == numeric_text(data@),
    {
        if data.len() < 8 {
            return String::new();
        }
        let mut out: Vec<u8> = Vec::new();
        if data[0] == 0 && data[1] == 0 && data[2] == 0 && data[3] == 0 && data[4] == 0 && data[5]
            == 0 && data[6] == 0 && data[7] == 0 {
            proof {
                lemma_decimal_is_ascii(0);
            }
            append_decimal(&mut out, 0);
            assert(out@ =~= numeric_bytes(data@));
            return text_from_ascii(out.as_slice());
        }
        assert(!is_all_zero(data@));
        if data[0] == MISSING_MARK {
            return String::new();
        }
        let negative: bool = data[0] >= 0x80;
        let biased: u8 = data[0] % 128;
        let fraction: u64 = data[1] as u64 * 0x1_0000_0000_0000 + data[2] as u64 * 0x100_0000_0000
            + data[3] as u64 * 0x1_0000_0000 + data[4] as u64 * 0x100_0000 + data[5] as u64
            * 0x1_0000 + data[6] as u64 * 0x100 + data[7] as u64;
        if negative {
            out.push(0x2D);
        }
        assert(out@ =~= sign_bytes(is_negative(data@)));
        if biased >= 78 {
            append_whole(&mut out, fraction, biased);
        } else {
            append_part(&mut out, fraction, biased);
        }
        proof {
            let scaled = scaled_magnitude(fraction_of(data@), biased_exponent(data@));
            lemma_decimal_is_ascii(scaled / 1_000_000);
            lemma_fraction_is_ascii(scaled % 1_000_000);
        }
        text_from_ascii(out.as_slice())
    }
}

} // verus!
