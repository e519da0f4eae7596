//! Decimal text for numbers that are carried as IEEE-754 bit patterns.
//!
//! A finite double is an integer significand times a power of two, so it has
//! a finite decimal expansion. The text written here is that expansion in
//! full: reading it back gives the same double, whatever the reader's
//! rounding.
use vstd::prelude::*;
use vstd::utf8::{encode_utf8, encode_utf8_valid_utf8, is_ascii_chars, is_ascii_chars_encode_utf8, valid_utf8};

verus! {

/// `base` to the power of `exponent`.
pub open spec fn power(base: nat, exponent: nat) -> nat
    decreases exponent,
{
    if exponent == 0 {
        1
    } else {
        base * power(base, (exponent - 1) as nat)
    }
}

/// The number that the given decimal digits stand for, least significant first.
pub open spec fn digits_value(digits: Seq<u8>) -> nat
    decreases digits.len(),
{
    if digits.len() == 0 {
        0
    } else {
        digits[0] as nat + 10 * digits_value(digits.drop_first())
    }
}

/// The decimal digits of `n`, least significant first; zero has none.
pub open spec fn decimal_digits(n: nat) -> Seq<u8>
    decreases n,
{
    if n == 0 {
        Seq::empty()
    } else {
        seq![(n % 10) as u8] + decimal_digits(n / 10)
    }
}

/// Whether the given digits are decimal digits without a leading zero.
pub open spec fn canonical(digits: Seq<u8>) -> bool {
    &&& forall|i: int| 0 <= i < digits.len() ==> #[trigger] digits[i] < 10
    &&& digits.len() > 0 ==> digits.last() != 0
}

/// Canonical digits are the decimal digits of the number they stand for.
pub proof fn lemma_digits_unique(digits: Seq<u8>)
    requires
        canonical(digits),
    ensures
        decimal_digits(digits_value(digits)) == digits,
        digits.len() > 0 ==> digits_value(digits) > 0,
    decreases digits.len(),
{
    if digits.len() > 0 {
        let rest = digits.drop_first();
        assert(canonical(rest)) by {
            assert forall|i: int| 0 <= i < rest.len() implies #[trigger] rest[i] < 10 by {
                assert(rest[i] == digits[i + 1]);
            }
            if rest.len() > 0 {
                assert(rest.last() == digits.last());
            }
        }
        lemma_digits_unique(rest);
        let n = digits_value(digits);
        let d = digits[0] as nat;
        let m = digits_value(rest);
        assert(n == d + 10 * m);
        if rest.len() == 0 {
            assert(digits.last() == digits[0]);
        }
        assert(n > 0);
        assert(n % 10 == d && n / 10 == m) by (nonlinear_arith)
            requires
                n == d + 10 * m,
                d < 10,
        ;
        assert(seq![(n % 10) as u8] + decimal_digits(n / 10) =~= digits);
    }
}

/// The decimal digits of a number are canonical and stand for it.
pub proof fn lemma_decimal_digits(n: nat)
    ensures
        canonical(decimal_digits(n)),
        digits_value(decimal_digits(n)) == n,
    decreases n,
{
    if n > 0 {
        lemma_decimal_digits(n / 10);
        let rest = decimal_digits(n / 10);
        let digits = decimal_digits(n);
        assert(digits.drop_first() =~= rest);
        assert(digits[0] == (n % 10) as u8);
        if rest.len() > 0 {
            assert(digits.last() == rest.last());
        } else {
            assert(n / 10 == 0);
            assert(digits.last() == digits[0]);
        }
        assert forall|i: int| 0 <= i < digits.len() implies #[trigger] digits[i] < 10 by {
            if i > 0 {
                assert(digits[i] == rest[i - 1]);
            }
        }
    }
}

/// One more digit on top adds its multiple of the next power of ten.
pub proof fn lemma_value_push(digits: Seq<u8>, d: u8)
    ensures
        digits_value(digits.push(d)) == digits_value(digits) + d * power(10, digits.len()),
    decreases digits.len(),
{
    if digits.len() == 0 {
        assert(digits.push(d).drop_first() =~= Seq::<u8>::empty());
        assert(digits_value(digits.push(d).drop_first()) == 0);
        assert(digits_value(digits.push(d)) == d);
        assert(d * power(10, 0) == d) by (nonlinear_arith)
            requires
                power(10, 0) == 1,
        ;
    } else {
        let rest = digits.drop_first();
        lemma_value_push(rest, d);
        assert(digits.push(d).drop_first() =~= rest.push(d));
        let p = power(10, rest.len());
        assert(power(10, digits.len()) == 10 * p);
        assert(10 * (d * p) == d * (10 * p)) by (nonlinear_arith);
        assert(digits.push(d)[0] == digits[0]);
        assert(digits_value(digits.push(d)) == digits[0] + 10 * digits_value(rest.push(d)));
    }
}

/// The decimal digits of `n`.
fn digits_of(n: u64) -> (digits: Vec<u8>)
    ensures
        digits@ == decimal_digits(n as nat),
{
    let mut digits: Vec<u8> = Vec::new();
    let mut rest: u64 = n;
    while rest > 0
        invariant
            decimal_digits(n as nat) == digits@ + decimal_digits(rest as nat),
        decreases rest,
    {
        let ghost before = digits@;
        digits.push((rest % 10) as u8);
        assert(before + decimal_digits(rest as nat) =~= digits@ + decimal_digits(
            (rest / 10) as nat,
        ));
        rest = rest / 10;
    }
    assert(digits@ + decimal_digits(0) =~= digits@);
    digits
}

/// The decimal digits of the product of a number, given by its digits, and
/// a factor of one digit.
fn times(digits: &Vec<u8>, factor: u8) -> (product: Vec<u8>)
    requires
        canonical(digits@),
        1 <= factor <= 9,
    ensures
        product@ == decimal_digits(factor as nat * digits_value(digits@)),
{
    let mut product: Vec<u8> = Vec::new();
    let mut carry: u8 = 0;
    let mut i: usize = 0;
    proof {
        assert(digits@.take(0) =~= Seq::<u8>::empty());
        assert(0 * power(10, 0) == 0) by (nonlinear_arith);
        assert(factor * 0 == 0) by (nonlinear_arith);
    }
    while i < digits.len()
        invariant
            i <= digits.len(),
            canonical(digits@),
            1 <= factor <= 9,
            carry <= 8,
            product.len() == i,
            forall|j: int| 0 <= j < i ==> #[trigger] product@[j] < 10,
            digits_value(product@) + carry * power(10, i as nat) == factor * digits_value(
                digits@.take(i as int),
            ),
            i > 0 && digits@[i - 1] != 0 ==> product@[i - 1] != 0 || carry != 0,
        decreases digits.len() - i,
    {
        assert(digits@[i as int] < 10);
        assert(digits@[i as int] * factor <= 81) by (nonlinear_arith)
            requires
                digits@[i as int] <= 9,
                factor <= 9,
        ;
        assert(digits@[i as int] != 0 ==> digits@[i as int] * factor >= 1) by (nonlinear_arith)
            requires
                factor >= 1,
        ;
        let t: u8 = digits[i] * factor + carry;
        let d: u8 = t % 10;
        let next: u8 = t / 10;
        proof {
            let p = power(10, i as nat);
            let done = digits@.take(i as int);
            lemma_value_push(product@, d);
            lemma_value_push(done, digits@[i as int]);
            assert(digits@.take(i + 1) =~= done.push(digits@[i as int]));
            assert(power(10, (i + 1) as nat) == 10 * p);
            let a = digits_value(product@) as int;
            let b = digits_value(done) as int;
            let v = digits@[i as int] as int;
            let f = factor as int;
            let c = carry as int;
            assert(a + d * p + next * (10 * p) == f * (b + v * p)) by (nonlinear_arith)
                requires
                    a + c * p == f * b,
                    v * f + c == 10 * next + d,
            ;
        }
        product.push(d);
        carry = next;
        i += 1;
    }
    proof {
        assert(digits@.take(i as int) =~= digits@);
    }
    if carry > 0 {
        proof {
            lemma_value_push(product@, carry);
        }
        product.push(carry);
    } else {
        assert(carry * power(10, i as nat) == 0) by (nonlinear_arith)
            requires
                carry == 0,
        ;
    }
    proof {
        lemma_digits_unique(product@);
    }
    product
}

/// The decimal digits of `n` times `factor` to the power of `exponent`.
fn scaled_digits(n: u64, factor: u8, exponent: u16) -> (digits: Vec<u8>)
    requires
        1 <= factor <= 9,
    ensures
        digits@ == decimal_digits(n as nat * power(factor as nat, exponent as nat)),
{
    let mut digits = digits_of(n);
    let mut i: u16 = 0;
    proof {
        assert(n as nat * power(factor as nat, 0) == n) by (nonlinear_arith)
            requires
                power(factor as nat, 0) == 1,
        ;
    }
    while i < exponent
        invariant
            i <= exponent,
            1 <= factor <= 9,
            digits@ == decimal_digits(n as nat * power(factor as nat, i as nat)),
        decreases exponent - i,
    {
        proof {
            let q = power(factor as nat, i as nat);
            lemma_decimal_digits(n as nat * q);
            assert(power(factor as nat, (i + 1) as nat) == factor * q);
            assert(factor as nat * (n as nat * q) == n as nat * (factor as nat * q)) by (nonlinear_arith);
        }
        digits = times(&digits, factor);
        i += 1;
    }
    digits
}

/// The digit at the given decimal position; positions beyond the digits hold zero.
pub open spec fn digit_at(digits: Seq<u8>, i: int) -> u8 {
    if 0 <= i < digits.len() {
        digits[i]
    } else {
        0
    }
}

/// The lowest position at or above `from` and below `places` whose digit is
/// not zero, or `places` if there is none.
pub open spec fn lowest_nonzero(digits: Seq<u8>, places: nat, from: nat) -> nat
    decreases places - from,
{
    if from >= places {
        places
    } else if digit_at(digits, from as int) != 0 {
        from
    } else {
        lowest_nonzero(digits, places, from + 1)
    }
}

/// The text of the integer part of a number with `places` decimal places:
/// its digits above the places, most significant first, or `0` if it has none.
pub open spec fn integer_text(digits: Seq<u8>, places: nat) -> Seq<u8> {
    if digits.len() <= places {
        seq![48u8]
    } else {
        Seq::new((digits.len() - places) as nat, |i: int| (48 + digits[digits.len() - 1 - i]) as u8)
    }
}

/// The text of the fractional part of a number with `places` decimal places:
/// nothing if all the places hold zero, and otherwise a point and the places
/// from the highest down to the lowest that does not hold zero.
pub open spec fn fraction_text(digits: Seq<u8>, places: nat) -> Seq<u8> {
    let low = lowest_nonzero(digits, places, 0);
    if low >= places {
        Seq::empty()
    } else {
        seq![46u8] + Seq::new(
            (places - low) as nat,
            |i: int| (48 + digit_at(digits, places - 1 - i)) as u8,
        )
    }
}

/// The text of the number whose decimal digits are `digits`, least
/// significant first, and of which the lowest `places` are decimal places.
pub open spec fn fixed_point_text(digits: Seq<u8>, places: nat) -> Seq<u8> {
    integer_text(digits, places) + fraction_text(digits, places)
}

/// Whether the bit pattern has its sign bit set.
pub open spec fn sign_of(bits: u64) -> bool {
    bits >= 0x8000_0000_0000_0000
}

/// The biased exponent of the bit pattern: eleven bits.
pub open spec fn exponent_of(bits: u64) -> nat {
    ((bits / 0x10_0000_0000_0000) % 2048) as nat
}

/// The fraction of the bit pattern: fifty-two bits.
pub open spec fn fraction_of(bits: u64) -> nat {
    (bits % 0x10_0000_0000_0000) as nat
}

/// The text of the magnitude of a finite double.
///
/// A double with the biased exponent `e` and the fraction `f` has the
/// magnitude `(2^52 + f) * 2^(e - 1075)`, or `f * 2^-1074` where `e` is zero.
/// With a negative power of two `2^-k` that is the integer `m * 5^k` with
/// `k` decimal places.
pub open spec fn magnitude_text(exponent: nat, fraction: nat) -> Seq<u8> {
    if exponent == 0 {
        fixed_point_text(decimal_digits(fraction * power(5, 1074)), 1074)
    } else if exponent >= 1075 {
        fixed_point_text(
            decimal_digits((0x10_0000_0000_0000 + fraction) * power(2, (exponent - 1075) as nat)),
            0,
        )
    } else {
        fixed_point_text(
            decimal_digits((0x10_0000_0000_0000 + fraction) * power(5, (1075 - exponent) as nat)),
            (1075 - exponent) as nat,
        )
    }
}

/// The text, in ASCII, of the double with the given bit pattern: `NaN`,
/// `inf` or `-inf`, or the exact decimal expansion of a finite double with
/// `-` in front where the sign bit is set.
pub open spec fn number_text(bits: u64) -> Seq<u8> {
    let exponent = exponent_of(bits);
    let fraction = fraction_of(bits);
    if exponent == 2047 {
        if fraction != 0 {
            seq![78u8, 97u8, 78u8]
        } else if sign_of(bits) {
            seq![45u8, 105u8, 110u8, 102u8]
        } else {
            seq![105u8, 110u8, 102u8]
        }
    } else if sign_of(bits) {
        seq![45u8] + magnitude_text(exponent, fraction)
    } else {
        magnitude_text(exponent, fraction)
    }
}

/// Appends the text of the number with the given digits and decimal places.
fn write_fixed_point(out: &mut Vec<u8>, digits: &Vec<u8>, places: usize)
    requires
        canonical(digits@),
    ensures
        final(out)@ == old(out)@ + fixed_point_text(digits@, places as nat),
{
    let ghost start = out@;
    let ghost whole = integer_text(digits@, places as nat);
    let n = digits.len();
    if n <= places {
        out.push(48u8);
        assert(out@ =~= start + whole);
    } else {
        let mut i: usize = n;
        while i > places
            invariant
                places <= i <= n,
                n == digits.len(),
                places < n,
                canonical(digits@),
                whole == integer_text(digits@, places as nat),
                out@ == start + whole.take(n - i),
            decreases i,
        {
            i -= 1;
            let ghost before = out@;
            out.push(48u8 + digits[i]);
            assert(whole[n - 1 - i] == (48 + digits@[i as int]) as u8);
            assert(out@ =~= start + whole.take(n - i));
        }
        assert(whole.take(n - places) =~= whole);
    }
    let ghost middle = out@;
    let ghost fraction = fraction_text(digits@, places as nat);
    let mut low: usize = 0;
    while low < places && (low >= n || digits[low] == 0)
        invariant
            low <= places,
            n == digits.len(),
            lowest_nonzero(digits@, places as nat, 0) == lowest_nonzero(
                digits@,
                places as nat,
                low as nat,
            ),
        decreases places - low,
    {
        low += 1;
    }
    if low < places {
        out.push(46u8);
        let mut i: usize = places;
        while i > low
            invariant
                low <= i <= places,
                low < places,
                n == digits.len(),
                canonical(digits@),
                low == lowest_nonzero(digits@, places as nat, 0),
                fraction == fraction_text(digits@, places as nat),
                out@ == middle + fraction.take(1 + places - i),
            decreases i,
        {
            i -= 1;
            let d: u8 = if i < n { digits[i] } else { 0 };
            out.push(48u8 + d);
            assert(fraction[places - i] == (48 + digit_at(digits@, i as int)) as u8);
            assert(out@ =~= middle + fraction.take(1 + places - i));
        }
        assert(fraction.take(1 + places - low) =~= fraction);
    } else {
        assert(out@ =~= middle + fraction);
    }
    assert(out@ =~= start + fixed_point_text(digits@, places as nat));
}

/// Appends to `out` the text of the double with the given bit pattern.
pub fn write_number(out: &mut Vec<u8>, bits: u64)
    ensures
        final(out)@ == old(out)@ + number_text(bits),
{
    let ghost start = out@;
    let negative = bits >= 0x8000_0000_0000_0000;
    let exponent: u16 = ((bits / 0x10_0000_0000_0000) % 2048) as u16;
    let fraction: u64 = bits % 0x10_0000_0000_0000;
    if exponent == 2047 {
        if fraction != 0 {
            out.push(78u8);
            out.push(97u8);
            out.push(78u8);
        } else {
            if negative {
                out.push(45u8);
            }
            out.push(105u8);
            out.push(110u8);
            out.push(102u8);
        }
        assert(out@ =~= start + number_text(bits));
        return ;
    }
    if negative {
        out.push(45u8);
    }
    let ghost signed = out@;
    if exponent == 0 {
        let digits = scaled_digits(fraction, 5, 1074);
        proof {
            lemma_decimal_digits(fraction as nat * power(5, 1074));
        }
        write_fixed_point(out, &digits, 1074);
    } else if exponent >= 1075 {
        let digits = scaled_digits(0x10_0000_0000_0000 + fraction, 2, exponent - 1075);
        proof {
            lemma_decimal_digits(
                (0x10_0000_0000_0000 + fraction) as nat * power(2, (exponent - 1075) as nat),
            );
        }
        write_fixed_point(out, &digits, 0);
    } else {
        let digits = scaled_digits(0x10_0000_0000_0000 + fraction, 5, 1075 - exponent);
        proof {
            lemma_decimal_digits(
                (0x10_0000_0000_0000 + fraction) as nat * power(5, (1075 - exponent) as nat),
            );
        }
        write_fixed_point(out, &digits, (1075 - exponent) as usize);
    }
    assert(out@ =~= start + number_text(bits));
}

/// Whether every one of the given bytes is an ASCII character.
pub open spec fn ascii(bytes: Seq<u8>) -> bool {
    forall|i: int| 0 <= i < bytes.len() ==> #[trigger] bytes[i] < 128
}

/// ASCII text is valid UTF-8.
pub proof fn lemma_ascii_is_utf8(bytes: Seq<u8>)
    requires
        ascii(bytes),
    ensures
        valid_utf8(bytes),
{
    let chars = Seq::new(bytes.len(), |i: int| bytes[i] as char);
    assert(is_ascii_chars(chars));
    is_ascii_chars_encode_utf8(chars);
    assert(encode_utf8(chars) =~= bytes);
    encode_utf8_valid_utf8(chars);
}

/// The text of a number in fixed-point notation is ASCII.
pub proof fn lemma_fixed_point_ascii(digits: Seq<u8>, places: nat)
    requires
        canonical(digits),
    ensures
        ascii(fixed_point_text(digits, places)),
{
    let whole = integer_text(digits, places);
    let fraction = fraction_text(digits, places);
    assert forall|i: int| 0 <= i < whole.len() implies #[trigger] whole[i] < 128 by {
        if digits.len() > places {
            assert(digits[digits.len() - 1 - i] < 10);
        }
    }
    assert forall|i: int| 0 <= i < fraction.len() implies #[trigger] fraction[i] < 128 by {
        if i > 0 {
            let at = places - i;
            if 0 <= at < digits.len() {
                assert(digits[at] < 10);
            }
        }
    }
}

/// The text of a number is ASCII, and so valid UTF-8.
pub proof fn lemma_number_text_ascii(bits: u64)
    ensures
        ascii(number_text(bits)),
        valid_utf8(number_text(bits)),
{
    let exponent = exponent_of(bits);
    let fraction = fraction_of(bits);
    if exponent != 2047 {
        if exponent == 0 {
            lemma_decimal_digits(fraction * power(5, 1074));
            lemma_fixed_point_ascii(decimal_digits(fraction * power(5, 1074)), 1074);
        } else if exponent >= 1075 {
            let n = (0x10_0000_0000_0000 + fraction) * power(2, (exponent - 1075) as nat);
            lemma_decimal_digits(n);
            lemma_fixed_point_ascii(decimal_digits(n), 0);
        } else {
            let n = (0x10_0000_0000_0000 + fraction) * power(5, (1075 - exponent) as nat);
            lemma_decimal_digits(n);
            lemma_fixed_point_ascii(decimal_digits(n), (1075 - exponent) as nat);
        }
    }
    lemma_ascii_is_utf8(number_text(bits));
}

} // verus!
