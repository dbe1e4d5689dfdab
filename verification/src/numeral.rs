//! Positional numerals: the digits of a value in a radix from 2 to 36, their
//! zero-padded form, and the value that a run of digits denotes.

use vstd::prelude::*;
use vstd::arithmetic::power::*;
use vstd::arithmetic::div_mod::*;

verus! {

/// The character that stands for the digit `d`: `'0'` to `'9'`, then `'a'` to `'z'`.
pub open spec fn digit_char(d: nat) -> char {
    if d < 10 {
        (0x30 + d) as char
    } else {
        (0x61 + d - 10) as char
    }
}

/// The digits of `value` in base `radix`, most significant first, without
/// leading zeros; the single digit `'0'` for zero. A radix below 2 has no
/// numerals but that of zero; there the result is one digit whatever the
/// value.
pub open spec fn radix_digits(value: nat, radix: nat) -> Seq<char>
    decreases value,
{
    if radix < 2 || value < radix {
        seq![digit_char(value)]
    } else {
        proof {
            assert(value / radix < value) by (nonlinear_arith)
                requires
                    radix >= 2,
                    value >= radix,
            ;
        }
        radix_digits(value / radix, radix).push(digit_char(value % radix))
    }
}

/// `count` copies of `symbol`.
pub open spec fn repeated(symbol: char, count: nat) -> Seq<char> {
    Seq::new(count, |i: int| symbol)
}

/// `digits` with as many `'0'` in front as it takes to reach `width`
/// characters; unchanged where it is that long already.
pub open spec fn zero_padded(digits: Seq<char>, width: nat) -> Seq<char> {
    if digits.len() >= width {
        digits
    } else {
        repeated('0', (width - digits.len()) as nat) + digits
    }
}

/// The digit that `c` stands for, the inverse of `digit_char`; 36 for a
/// character that is no digit in any radix.
pub open spec fn digit_value(c: char) -> nat {
    let code = c as nat;
    if 0x30 <= code <= 0x39 {
        (code - 0x30) as nat
    } else if 0x61 <= code <= 0x7a {
        (code - 0x61 + 10) as nat
    } else {
        36
    }
}

/// The number that `digits` denotes in base `radix`, most significant digit
/// first; zero for the empty sequence.
pub open spec fn numeral_value(digits: Seq<char>, radix: nat) -> nat
    decreases digits.len(),
{
    if digits.len() == 0 {
        0
    } else {
        numeral_value(digits.drop_last(), radix) * radix + digit_value(digits.last())
    }
}

/// Every character of `text` is a digit of base `radix`.
pub open spec fn all_digits(text: Seq<char>, radix: nat) -> bool {
    forall|i: int| 0 <= i < text.len() ==> digit_value(#[trigger] text[i]) < radix
}

/// `digit_value` undoes `digit_char`.
pub proof fn lemma_digit_char_value(d: nat)
    requires
        d < 36,
    ensures
        digit_value(digit_char(d)) == d,
{
}

/// `digit_char` undoes `digit_value` on every character that is a digit.
pub proof fn lemma_digit_value_char(c: char)
    requires
        digit_value(c) < 36,
    ensures
        digit_char(digit_value(c)) == c,
        digit_value(c) == 0 ==> c == '0',
{
}

/// A numeral denotes the value it was made from.
pub proof fn lemma_radix_digits_value(value: nat, radix: nat)
    requires
        2 <= radix <= 36,
    ensures
        numeral_value(radix_digits(value, radix), radix) == value,
    decreases value,
{
    let digits = radix_digits(value, radix);
    if value < radix {
        lemma_digit_char_value(value);
        assert(digits.drop_last() =~= Seq::<char>::empty());
        assert(numeral_value(digits.drop_last(), radix) * radix == 0) by (nonlinear_arith)
            requires
                numeral_value(digits.drop_last(), radix) == 0,
        ;
    } else {
        let high = value / radix;
        let low = value % radix;
        assert(high < value) by (nonlinear_arith)
            requires
                high == value / radix,
                radix >= 2,
                value >= radix,
        ;
        lemma_radix_digits_value(high, radix);
        lemma_digit_char_value(low);
        assert(digits.drop_last() =~= radix_digits(high, radix));
        lemma_fundamental_div_mod(value as int, radix as int);
        assert(high * radix == radix * high) by (nonlinear_arith);
    }
}

/// A numeral of a value below `radix^width` has at most `width` digits, and
/// every numeral has at least one.
pub proof fn lemma_radix_digits_len(value: nat, radix: nat, width: nat)
    requires
        radix >= 2,
        value < pow(radix as int, width),
    ensures
        1 <= radix_digits(value, radix).len(),
        width >= 1 ==> radix_digits(value, radix).len() <= width,
    decreases value,
{
    let r = radix as int;
    if value < radix {
    } else {
        lemma_pow0(r);
        lemma_pow1(r);
        assert(width >= 2);
        let high = value / radix;
        lemma_pow_adds(r, 1, (width - 1) as nat);
        let rest = pow(r, (width - 1) as nat);
        lemma_pow_positive(r, (width - 1) as nat);
        assert(high < rest && high < value) by (nonlinear_arith)
            requires
                high == value / radix,
                value < r * rest,
                r == radix,
                radix >= 2,
                value >= radix,
                rest > 0,
        ;
        lemma_radix_digits_len(high, radix, (width - 1) as nat);
    }
}

/// A numeral holds only digits of its radix.
pub proof fn lemma_radix_digits_all_digits(value: nat, radix: nat)
    requires
        2 <= radix <= 36,
    ensures
        all_digits(radix_digits(value, radix), radix),
    decreases value,
{
    if value < radix {
        lemma_digit_char_value(value);
    } else {
        let high = value / radix;
        let low = value % radix;
        assert(high < value && low < radix) by (nonlinear_arith)
            requires
                high == value / radix,
                low == value % radix,
                radix >= 2,
                value >= radix,
        ;
        lemma_radix_digits_all_digits(high, radix);
        lemma_digit_char_value(low);
    }
}

/// A run of zeros denotes zero.
proof fn lemma_zeros_value(count: nat, radix: nat)
    ensures
        numeral_value(repeated('0', count), radix) == 0,
    decreases count,
{
    if count > 0 {
        let zeros = repeated('0', count);
        lemma_zeros_value((count - 1) as nat, radix);
        assert(zeros.drop_last() =~= repeated('0', (count - 1) as nat));
        assert(0 * radix == 0) by (nonlinear_arith);
    }
}

/// Padding with zeros changes neither the value that the digits denote nor
/// that they are digits, and yields exactly `width` characters where the
/// digits were no longer than that.
pub proof fn lemma_zero_padded(digits: Seq<char>, width: nat, radix: nat)
    ensures
        numeral_value(zero_padded(digits, width), radix) == numeral_value(digits, radix),
        digits.len() <= width ==> zero_padded(digits, width).len() == width,
        radix >= 1 && all_digits(digits, radix) ==> all_digits(zero_padded(digits, width), radix),
    decreases digits.len(),
{
    let padded = zero_padded(digits, width);
    if digits.len() < width {
        let zeros = repeated('0', (width - digits.len()) as nat);
        if digits.len() == 0 {
            assert(padded =~= zeros);
            lemma_zeros_value(width, radix);
        } else {
            let shorter = digits.drop_last();
            lemma_zero_padded(shorter, (width - 1) as nat, radix);
            assert(padded.drop_last() =~= zero_padded(shorter, (width - 1) as nat));
        }
        if radix >= 1 && all_digits(digits, radix) {
            assert forall|i: int| 0 <= i < padded.len() implies digit_value(#[trigger] padded[i])
                < radix by {
                if i >= zeros.len() {
                    assert(padded[i] == digits[i - zeros.len()]);
                }
            }
        }
    }
}

/// As many digits as `digits` holds denote a number below that power of the
/// radix.
pub proof fn lemma_numeral_value_bound(digits: Seq<char>, radix: nat)
    requires
        radix >= 1,
        all_digits(digits, radix),
    ensures
        numeral_value(digits, radix) < pow(radix as int, digits.len()),
    decreases digits.len(),
{
    let r = radix as int;
    if digits.len() == 0 {
        lemma_pow0(r);
    } else {
        let front = digits.drop_last();
        lemma_numeral_value_bound(front, radix);
        lemma_pow_adds(r, front.len(), 1);
        lemma_pow1(r);
        let high = numeral_value(front, radix) as int;
        let bound = pow(r, front.len());
        let low = digit_value(digits.last()) as int;
        assert(low < radix);
        assert(high * r + low < bound * r) by (nonlinear_arith)
            requires
                0 <= high < bound,
                0 <= low < r,
        ;
    }
}

/// The value of a numeral never falls below that of its leading digits.
pub proof fn lemma_numeral_value_prefix(digits: Seq<char>, radix: nat, count: int)
    requires
        radix >= 1,
        0 <= count <= digits.len(),
    ensures
        numeral_value(digits.take(count), radix) <= numeral_value(digits, radix),
    decreases digits.len() - count,
{
    if count == digits.len() {
        assert(digits.take(count) =~= digits);
    } else {
        lemma_numeral_value_prefix(digits.drop_last(), radix, count);
        assert(digits.drop_last().take(count) =~= digits.take(count));
        let front = numeral_value(digits.drop_last(), radix);
        assert(front * radix >= front) by (nonlinear_arith)
            requires
                radix >= 1,
        ;
    }
}

/// Digits are the numeral of the number they denote, padded with zeros to
/// their own count: writing undoes reading.
pub proof fn lemma_digits_of_numeral_value(digits: Seq<char>, radix: nat)
    requires
        2 <= radix <= 36,
        digits.len() >= 1,
        all_digits(digits, radix),
    ensures
        zero_padded(radix_digits(numeral_value(digits, radix), radix), digits.len()) == digits,
    decreases digits.len(),
{
    let width = digits.len();
    let front = digits.drop_last();
    let last = digits.last();
    let high = numeral_value(front, radix);
    let low = digit_value(last);
    let value = numeral_value(digits, radix);
    assert(low < radix);
    lemma_digit_value_char(last);
    assert(value / radix == high && value % radix == low) by {
        assert(value == radix * high + low) by (nonlinear_arith)
            requires
                value == high * radix + low,
        ;
        lemma_fundamental_div_mod_converse(value as int, radix as int, high as int, low as int);
    }
    assert(high == 0 <==> value < radix) by (nonlinear_arith)
        requires
            value == high * radix + low,
            low < radix,
            radix >= 2,
    ;
    if width == 1 {
        assert(front =~= Seq::<char>::empty());
        assert(zero_padded(radix_digits(value, radix), width) =~= digits);
    } else {
        lemma_digits_of_numeral_value(front, radix);
        let inner = radix_digits(high, radix);
        if high == 0 {
            assert(inner =~= seq!['0']);
            assert(zero_padded(radix_digits(value, radix), width) =~= zero_padded(
                inner,
                (width - 1) as nat,
            ).push(last));
        } else {
            lemma_numeral_value_bound(front, radix);
            lemma_radix_digits_len(high, radix, (width - 1) as nat);
            assert(radix_digits(value, radix) == inner.push(last));
            assert(zero_padded(inner.push(last), width) =~= zero_padded(
                inner,
                (width - 1) as nat,
            ).push(last));
        }
        assert(front.push(last) =~= digits);
    }
}

/// Two values whose zero-padded numerals of one width agree are the same
/// value.
pub proof fn lemma_padded_numeral_injective(first: nat, second: nat, radix: nat, width: nat)
    requires
        2 <= radix <= 36,
        zero_padded(radix_digits(first, radix), width) == zero_padded(
            radix_digits(second, radix),
            width,
        ),
    ensures
        first == second,
{
    lemma_radix_digits_value(first, radix);
    lemma_radix_digits_value(second, radix);
    lemma_zero_padded(radix_digits(first, radix), width, radix);
    lemma_zero_padded(radix_digits(second, radix), width, radix);
}

} // verus!
