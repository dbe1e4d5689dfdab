//! The code of an index: what it is, and that it can be told apart from
//! every other code of the same nominal length.

use vstd::prelude::*;
use vstd::arithmetic::power::*;
use vstd::arithmetic::logarithm::*;
use vstd::arithmetic::div_mod::*;
use crate::alphabet::{distinct_symbols, no_digit_symbols};
use crate::capacity::{
    in_tier, max_index, representable, tier_base, tier_unit, lemma_representable_up_to_max,
    lemma_tier_base_increasing, lemma_tier_unique, lemma_tier_unit_exact, lemma_tier_unit_unary,
};
use crate::numeral::{
    all_digits, digit_value, radix_digits, repeated, zero_padded, lemma_padded_numeral_injective,
    lemma_radix_digits_all_digits, lemma_radix_digits_len, lemma_zero_padded,
};

verus! {

/// The code of `value` in an overflow tier that starts after `base` and
/// whose symbols cover `unit` indices each: one marker (the last symbol of
/// the alphabet) per tier before this one, the symbol of the block that
/// holds `value`, and, where a block holds more than one index, `value`
/// modulo `unit` as a numeral of as many digits as `unit` has powers of the
/// radix.
pub open spec fn assembled(
    radix: nat,
    alphabet: Seq<char>,
    value: nat,
    tier: nat,
    base: int,
    unit: nat,
) -> Seq<char> {
    let block = (value - base - 1) / (unit as int);
    let head = repeated(alphabet.last(), tier).push(alphabet[block]);
    if unit > 1 {
        head + zero_padded(
            radix_digits(value % unit, radix),
            log(radix as int, unit as int) as nat,
        )
    } else {
        head
    }
}

/// The overflow tier that holds `value`.
pub open spec fn tier_of(radix: nat, symbols: nat, length: nat, value: nat) -> nat {
    choose|tier: nat| in_tier(radix, symbols, length, value, tier)
}

/// The code that tier `tier` assembles for `value`.
pub open spec fn tier_code(
    radix: nat,
    alphabet: Seq<char>,
    length: nat,
    value: nat,
    tier: nat,
) -> Seq<char> {
    assembled(
        radix,
        alphabet,
        value,
        tier,
        tier_base(radix, alphabet.len(), length, tier),
        tier_unit(radix, length, tier),
    )
}

/// The code of `value` for nominal length `length`: the numeral of `value`
/// padded to `length` digits where that many digits can hold it, else the
/// code that its overflow tier assembles.
pub open spec fn encoding(radix: nat, alphabet: Seq<char>, length: nat, value: nat) -> Seq<char> {
    if value < pow(radix as int, length) {
        zero_padded(radix_digits(value, radix), length)
    } else {
        tier_code(radix, alphabet, length, value, tier_of(radix, alphabet.len(), length, value))
    }
}

/// The block of its tier that holds `value`, counted from zero: the place
/// in the alphabet of the symbol that follows the markers.
pub open spec fn tier_block(radix: nat, symbols: nat, length: nat, value: nat, tier: nat) -> int {
    (value - tier_base(radix, symbols, length, tier) - 1) / (tier_unit(radix, length, tier) as int)
}

/// How many digits follow the symbol in a code of tier `tier`: as many as
/// the tier's unit has powers of the radix, and none where the unit is 1.
pub open spec fn tier_digits(radix: nat, length: nat, tier: nat) -> nat {
    let unit = tier_unit(radix, length, tier);
    if unit > 1 {
        log(radix as int, unit as int) as nat
    } else {
        0
    }
}

/// An index that lies in a tier is no plain numeral, the tier is the one
/// that `encoding` picks, and its block is a place in the alphabet.
pub proof fn lemma_encoding_in_tier(
    radix: nat,
    alphabet: Seq<char>,
    length: nat,
    value: nat,
    tier: nat,
)
    requires
        radix >= 1,
        in_tier(radix, alphabet.len(), length, value, tier),
    ensures
        value >= pow(radix as int, length),
        representable(radix, alphabet.len(), length, value),
        tier_of(radix, alphabet.len(), length, value) == tier,
        encoding(radix, alphabet, length, value) == tier_code(
            radix,
            alphabet,
            length,
            value,
            tier,
        ),
        0 <= tier_block(radix, alphabet.len(), length, value, tier) < alphabet.len(),
{
    let symbols = alphabet.len();
    lemma_tier_base_increasing(radix, symbols, length, 0, tier);
    lemma_tier_unique(
        radix,
        symbols,
        length,
        value,
        tier_of(radix, symbols, length, value),
        tier,
    );
    let unit = tier_unit(radix, length, tier) as int;
    let offset = value - tier_base(radix, symbols, length, tier) - 1;
    assert(0 <= offset / unit < symbols) by (nonlinear_arith)
        requires
            0 <= offset < symbols * unit,
            unit > 0,
    ;
}

/// The layout of a code from an overflow tier: the tier's number of
/// markers, then the symbol of the block, then only digits, which are the
/// numeral of the index modulo the tier's unit. For a radix of at least 2
/// that makes `length` characters in all; with radix 1 there are no digits.
pub proof fn lemma_tier_code_layout(
    radix: nat,
    alphabet: Seq<char>,
    length: nat,
    value: nat,
    tier: nat,
)
    requires
        1 <= radix <= 36,
        in_tier(radix, alphabet.len(), length, value, tier),
    ensures
        ({
            let code = tier_code(radix, alphabet, length, value, tier);
            let unit = tier_unit(radix, length, tier);
            let block = tier_block(radix, alphabet.len(), length, value, tier);
            let digits = tier_digits(radix, length, tier);
            &&& code.len() == tier + 1 + digits
            &&& radix >= 2 ==> tier < length && digits == length - 1 - tier
            &&& unit == 1 <==> digits == 0
            &&& unit > 1 ==> radix >= 2
            &&& forall|i: int| 0 <= i < tier ==> code[i] == alphabet.last()
            &&& code[tier as int] == alphabet[block]
            &&& forall|i: int| tier < i < code.len() ==> digit_value(#[trigger] code[i]) < radix
            &&& unit > 1 ==> code.subrange(tier as int + 1, code.len() as int) == zero_padded(
                radix_digits(value % unit, radix),
                digits,
            )
        }),
{
    let r = radix as int;
    let code = tier_code(radix, alphabet, length, value, tier);
    let unit = tier_unit(radix, length, tier);
    if radix == 1 {
        lemma_tier_unit_unary(length, tier);
    } else {
        lemma_tier_unit_exact(radix, length, tier);
        let rest = (length - 1 - tier) as nat;
        lemma_log_pow(r, rest);
        lemma_pow0(r);
        if rest >= 1 {
            lemma_pow_strictly_increases(radix, 0, rest);
        }
        let head = repeated(alphabet.last(), tier).push(
            alphabet[tier_block(radix, alphabet.len(), length, value, tier)],
        );
        if unit > 1 {
            let low = (value % unit) as nat;
            lemma_mod_bound(value as int, unit as int);
            let digits = radix_digits(low, radix);
            let padded = zero_padded(digits, rest);
            lemma_radix_digits_len(low, radix, rest);
            lemma_radix_digits_all_digits(low, radix);
            lemma_zero_padded(digits, rest, radix);
            assert(code == head + padded);
            assert(code.subrange(tier as int + 1, code.len() as int) =~= padded);
            assert forall|i: int| tier < i < code.len() implies digit_value(#[trigger] code[i])
                < radix by {
                assert(code[i] == padded[i - tier - 1]);
            }
        }
    }
}

/// An index below `radix^length` has a code, and the code is its numeral,
/// padded with zeros to exactly `length` digits.
pub proof fn lemma_plain_code(radix: nat, alphabet: Seq<char>, length: nat, value: nat)
    requires
        1 <= radix <= 36,
        length >= 1,
        value <= pow(radix as int, length) - 1,
    ensures
        representable(radix, alphabet.len(), length, value),
        encoding(radix, alphabet, length, value) == zero_padded(
            radix_digits(value, radix),
            length,
        ),
        encoding(radix, alphabet, length, value).len() == length,
        all_digits(encoding(radix, alphabet, length, value), radix),
{
    if radix == 1 {
        lemma1_pow(length);
    } else {
        lemma_radix_digits_len(value, radix, length);
        lemma_radix_digits_all_digits(value, radix);
    }
    lemma_zero_padded(radix_digits(value, radix), length, radix);
}

/// An index from `radix^length` up to the capacity has a code. The code is
/// no longer than a plain numeral: it has exactly `length` characters, of
/// which the first are as many markers as the index lies tiers beyond the
/// first one, and the next is a symbol of the alphabet.
pub proof fn lemma_overflow_code(radix: nat, alphabet: Seq<char>, length: nat, value: nat)
    requires
        2 <= radix <= 36,
        length >= 1,
        pow(radix as int, length) - 1 < value <= max_index(radix, alphabet.len(), length),
    ensures
        representable(radix, alphabet.len(), length, value),
        ({
            let code = encoding(radix, alphabet, length, value);
            let tier = tier_of(radix, alphabet.len(), length, value);
            let block = tier_block(radix, alphabet.len(), length, value, tier);
            &&& in_tier(radix, alphabet.len(), length, value, tier)
            &&& tier < length
            &&& code.len() == length
            &&& forall|i: int| 0 <= i < tier ==> code[i] == alphabet.last()
            &&& 0 <= block < alphabet.len()
            &&& code[tier as int] == alphabet[block]
            &&& forall|i: int| tier < i < length ==> digit_value(#[trigger] code[i]) < radix
        }),
{
    lemma_representable_up_to_max(radix, alphabet.len(), length, value);
    let tier = tier_of(radix, alphabet.len(), length, value);
    lemma_encoding_in_tier(radix, alphabet, length, value, tier);
    lemma_tier_code_layout(radix, alphabet, length, value, tier);
}

/// For a radix of at least 2 every code has exactly `length` characters.
pub proof fn lemma_encoding_len(radix: nat, alphabet: Seq<char>, length: nat, value: nat)
    requires
        2 <= radix <= 36,
        length >= 1,
        representable(radix, alphabet.len(), length, value),
    ensures
        encoding(radix, alphabet, length, value).len() == length,
{
    if value < pow(radix as int, length) {
        lemma_plain_code(radix, alphabet, length, value);
    } else {
        let tier = tier_of(radix, alphabet.len(), length, value);
        lemma_encoding_in_tier(radix, alphabet, length, value, tier);
        lemma_tier_code_layout(radix, alphabet, length, value, tier);
    }
}

/// With radix 1 only index 0 is a plain numeral, and the code of every
/// other index is a symbol behind one marker per tier: it grows with the
/// index.
pub proof fn lemma_encoding_len_unary(alphabet: Seq<char>, length: nat, value: nat)
    requires
        length >= 1,
        representable(1, alphabet.len(), length, value),
    ensures
        encoding(1, alphabet, length, value).len() == if value == 0 {
            length
        } else {
            tier_of(1, alphabet.len(), length, value) + 1
        },
{
    lemma1_pow(length);
    if value == 0 {
        lemma_plain_code(1, alphabet, length, value);
    } else {
        let tier = tier_of(1, alphabet.len(), length, value);
        lemma_tier_unit_unary(length, tier);
    }
}

/// Two indices of one tier whose codes agree in the block symbol and in the
/// digits are the same index.
proof fn lemma_same_block_same_index(first: nat, second: nat, base: int, unit: nat)
    requires
        unit >= 1,
        base < first,
        base < second,
        (first - base - 1) / (unit as int) == (second - base - 1) / (unit as int),
        first % unit == second % unit,
    ensures
        first == second,
{
    let u = unit as int;
    let a = first - base - 1;
    let b = second - base - 1;
    lemma_mod_equivalence(first as int, second as int, u);
    assert(a - b == first - second);
    lemma_mod_equivalence(a, b, u);
    lemma_fundamental_div_mod(a, u);
    lemma_fundamental_div_mod(b, u);
}

/// A code from an overflow tier begins with a symbol of the alphabet, which
/// is no digit, and so differs from every plain numeral.
proof fn lemma_tier_code_starts_with_symbol(
    radix: nat,
    alphabet: Seq<char>,
    length: nat,
    value: nat,
    tier: nat,
)
    requires
        1 <= radix <= 36,
        no_digit_symbols(alphabet, radix),
        in_tier(radix, alphabet.len(), length, value, tier),
    ensures
        tier_code(radix, alphabet, length, value, tier).len() >= 1,
        digit_value(tier_code(radix, alphabet, length, value, tier)[0]) >= radix,
{
    lemma_encoding_in_tier(radix, alphabet, length, value, tier);
    lemma_tier_code_layout(radix, alphabet, length, value, tier);
    let block = tier_block(radix, alphabet.len(), length, value, tier);
    assert(digit_value(alphabet[block]) >= radix);
    assert(digit_value(alphabet[alphabet.len() - 1]) >= radix);
}

/// No two indices share a code: where the codes of two indices of one
/// nominal length are equal, so are the indices. The alphabet must not
/// repeat a symbol nor hold a digit of the radix.
pub proof fn lemma_encoding_injective(
    radix: nat,
    alphabet: Seq<char>,
    length: nat,
    first: nat,
    second: nat,
)
    requires
        1 <= radix <= 36,
        length >= 1,
        distinct_symbols(alphabet),
        no_digit_symbols(alphabet, radix),
        representable(radix, alphabet.len(), length, first),
        representable(radix, alphabet.len(), length, second),
        encoding(radix, alphabet, length, first) == encoding(radix, alphabet, length, second),
    ensures
        first == second,
{
    let symbols = alphabet.len();
    let code = encoding(radix, alphabet, length, first);
    let range = pow(radix as int, length);
    if first < range && second < range {
        if radix == 1 {
            lemma1_pow(length);
        } else {
            lemma_padded_numeral_injective(first, second, radix, length);
        }
    } else if first < range || second < range {
        let plain = if first < range {
            first
        } else {
            second
        };
        let other = if first < range {
            second
        } else {
            first
        };
        let tier = tier_of(radix, symbols, length, other);
        lemma_plain_code(radix, alphabet, length, plain);
        lemma_tier_code_starts_with_symbol(radix, alphabet, length, other, tier);
        assert(digit_value(code[0]) < radix);
    } else {
        let t1 = tier_of(radix, symbols, length, first);
        let t2 = tier_of(radix, symbols, length, second);
        lemma_encoding_in_tier(radix, alphabet, length, first, t1);
        lemma_encoding_in_tier(radix, alphabet, length, second, t2);
        lemma_tier_code_layout(radix, alphabet, length, first, t1);
        lemma_tier_code_layout(radix, alphabet, length, second, t2);
        let b1 = tier_block(radix, symbols, length, first, t1);
        let b2 = tier_block(radix, symbols, length, second, t2);
        if t1 != t2 {
            let low = if t1 < t2 {
                t1
            } else {
                t2
            };
            let high = if t1 < t2 {
                t2
            } else {
                t1
            };
            let high_block = if t1 < t2 {
                b2
            } else {
                b1
            };
            // Right after the symbol of the lower tier stands a digit in one
            // code and a symbol of the alphabet in the other.
            assert(low + 1 < code.len());
            assert(digit_value(code[low as int + 1]) < radix);
            if low + 1 < high {
                assert(code[low as int + 1] == alphabet.last());
                assert(digit_value(alphabet[symbols - 1]) >= radix);
            } else {
                assert(code[low as int + 1] == alphabet[high_block]);
                assert(digit_value(alphabet[high_block]) >= radix);
            }
        } else {
            let unit = tier_unit(radix, length, t1);
            assert(alphabet[b1] == alphabet[b2]);
            assert(b1 == b2);
            if unit > 1 {
                lemma_mod_bound(first as int, unit as int);
                lemma_mod_bound(second as int, unit as int);
                lemma_padded_numeral_injective(
                    (first % unit) as nat,
                    (second % unit) as nat,
                    radix,
                    tier_digits(radix, length, t1),
                );
            }
            lemma_same_block_same_index(
                first,
                second,
                tier_base(radix, symbols, length, t1),
                unit,
            );
        }
    }
}

/// For a radix of at least 2 no two distinct indices up to the capacity of
/// a nominal length have the same code.
pub proof fn lemma_codes_differ_up_to_max(
    radix: nat,
    alphabet: Seq<char>,
    length: nat,
    first: nat,
    second: nat,
)
    requires
        2 <= radix <= 36,
        length >= 1,
        distinct_symbols(alphabet),
        no_digit_symbols(alphabet, radix),
        first <= max_index(radix, alphabet.len(), length),
        second <= max_index(radix, alphabet.len(), length),
        first != second,
    ensures
        encoding(radix, alphabet, length, first) != encoding(radix, alphabet, length, second),
{
    lemma_representable_up_to_max(radix, alphabet.len(), length, first);
    lemma_representable_up_to_max(radix, alphabet.len(), length, second);
    if encoding(radix, alphabet, length, first) == encoding(radix, alphabet, length, second) {
        lemma_encoding_injective(radix, alphabet, length, first, second);
    }
}

} // verus!
