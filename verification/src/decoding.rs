//! Reading a code back: from its characters to the index it stands for.
//!
//! A code ends in digits. Where it holds nothing else it is a plain numeral.
//! Otherwise the character in front of the digits is the symbol of a block,
//! its place in the code is the tier, and the digits tell which index of the
//! block is meant.

use vstd::prelude::*;
use vstd::arithmetic::power::*;
use vstd::arithmetic::div_mod::*;
use vstd::arithmetic::logarithm::*;
use crate::alphabet::no_digit_symbols;
use crate::capacity::{
    in_tier, representable, tier_base, tier_unit, lemma_tier_base_increasing,
    lemma_tier_start_aligned, lemma_tier_unit_exact, lemma_tier_unit_unary,
};
use crate::encoding::{
    encoding, tier_block, tier_code, tier_digits, tier_of, lemma_encoding_in_tier,
    lemma_plain_code, lemma_tier_code_layout,
};
use crate::numeral::{
    all_digits, digit_value, numeral_value, radix_digits, repeated, zero_padded,
    lemma_digit_value_char, lemma_digits_of_numeral_value, lemma_numeral_value_bound,
    lemma_numeral_value_prefix, lemma_radix_digits_value, lemma_zero_padded,
};

verus! {

/// `code` is the code of `value` for nominal length `length`.
pub open spec fn is_code_of(
    radix: nat,
    alphabet: Seq<char>,
    length: nat,
    value: nat,
    code: Seq<char>,
) -> bool {
    &&& length >= 1
    &&& representable(radix, alphabet.len(), length, value)
    &&& encoding(radix, alphabet, length, value) == code
}

/// The digits at the end of `code` begin at `start`: from there on every
/// character is a digit of the radix, and the one before is none.
pub open spec fn digits_start_at(code: Seq<char>, radix: nat, start: int) -> bool {
    &&& 0 <= start <= code.len()
    &&& forall|i: int| start <= i < code.len() ==> digit_value(#[trigger] code[i]) < radix
    &&& start > 0 ==> digit_value(code[start - 1]) >= radix
}

/// An index of a tier is the start of its block plus what it leaves modulo
/// the tier's unit.
pub proof fn lemma_index_from_block(base: int, unit: nat, value: nat)
    requires
        unit >= 1,
        -1 <= base < value,
        (base + 1) % (unit as int) == 0,
    ensures
        0 <= (value - base - 1) / (unit as int),
        value == base + 1 + ((value - base - 1) / (unit as int)) * unit + value % unit,
{
    let u = unit as int;
    let offset = value - base - 1;
    lemma_fundamental_div_mod(offset, u);
    lemma_div_pos_is_pos(offset, u);
    lemma_fundamental_div_mod(base + 1, u);
    lemma_mod_multiples_vanish((base + 1) / u, offset, u);
    assert(u * (offset / u) == (offset / u) * unit) by (nonlinear_arith)
        requires
            u == unit,
    ;
}

/// What a code tells about its index. Where the code is all digits, the
/// index is the number they denote. Otherwise the index lies in the tier
/// that is numbered by the place of the last character that is no digit;
/// that character is the symbol of its block, before it stand only
/// markers, and the digits after it denote the index modulo the tier's
/// unit.
pub proof fn lemma_code_determines_index(
    radix: nat,
    alphabet: Seq<char>,
    length: nat,
    value: nat,
    code: Seq<char>,
    start: int,
)
    requires
        1 <= radix <= 36,
        no_digit_symbols(alphabet, radix),
        is_code_of(radix, alphabet, length, value, code),
        digits_start_at(code, radix, start),
    ensures
        start == 0 ==> code.len() == length && value == numeral_value(code, radix),
        start > 0 ==> ({
            let tier = (start - 1) as nat;
            let block = tier_block(radix, alphabet.len(), length, value, tier);
            &&& in_tier(radix, alphabet.len(), length, value, tier)
            &&& code.len() == start + tier_digits(radix, length, tier)
            &&& forall|i: int| 0 <= i < tier ==> code[i] == alphabet.last()
            &&& 0 <= block < alphabet.len()
            &&& code[start - 1] == alphabet[block]
            &&& numeral_value(code.subrange(start, code.len() as int), radix) == value
                % tier_unit(radix, length, tier)
        }),
{
    if value < pow(radix as int, length) {
        lemma_plain_code(radix, alphabet, length, value);
        lemma_zero_padded(radix_digits(value, radix), length, radix);
        if radix >= 2 {
            lemma_radix_digits_value(value, radix);
        } else {
            lemma1_pow(length);
            assert(radix_digits(value, radix).drop_last() =~= Seq::<char>::empty());
            reveal_with_fuel(numeral_value, 2);
        }
        if start > 0 {
            assert(digit_value(code[start - 1]) < radix);
        }
    } else {
        let tier = tier_of(radix, alphabet.len(), length, value);
        lemma_encoding_in_tier(radix, alphabet, length, value, tier);
        lemma_tier_code_layout(radix, alphabet, length, value, tier);
        let block = tier_block(radix, alphabet.len(), length, value, tier);
        let unit = tier_unit(radix, length, tier);
        assert(digit_value(alphabet[block]) >= radix);
        assert(digit_value(code[tier as int]) >= radix);
        if start - 1 > tier {
            assert(digit_value(code[start - 1]) < radix);
        }
        assert(start - 1 == tier);
        let rest = code.subrange(start, code.len() as int);
        if unit > 1 {
            let low = (value % unit) as nat;
            lemma_radix_digits_value(low, radix);
            lemma_zero_padded(radix_digits(low, radix), tier_digits(radix, length, tier), radix);
        } else {
            assert(rest =~= Seq::<char>::empty());
        }
    }
}

/// Digits alone, as many as the nominal length, are the code of the number
/// they denote.
pub proof fn lemma_digits_are_code(radix: nat, alphabet: Seq<char>, code: Seq<char>)
    requires
        1 <= radix <= 36,
        code.len() >= 1,
        all_digits(code, radix),
    ensures
        is_code_of(radix, alphabet, code.len(), numeral_value(code, radix), code),
{
    let value = numeral_value(code, radix);
    lemma_numeral_value_bound(code, radix);
    lemma_plain_code(radix, alphabet, code.len(), value);
    if radix >= 2 {
        lemma_digits_of_numeral_value(code, radix);
    } else {
        lemma1_pow(code.len());
        let written = zero_padded(radix_digits(0, 1), code.len());
        assert(radix_digits(0, 1) =~= seq!['0']);
        assert forall|i: int| 0 <= i < code.len() implies written[i] == code[i] by {
            lemma_digit_value_char(code[i]);
        }
        assert(written =~= code);
    }
}

/// Markers, the symbol of a block and digits, in the places and the number
/// that the tier gives them, are the code of the index that lies as far
/// into the block as the digits say.
pub proof fn lemma_parts_are_code(
    radix: nat,
    alphabet: Seq<char>,
    length: nat,
    code: Seq<char>,
    tier: nat,
    block: int,
)
    requires
        1 <= radix <= 36,
        length >= 1,
        tier_unit(radix, length, tier) >= 1,
        code.len() == tier + 1 + tier_digits(radix, length, tier),
        0 <= block < alphabet.len(),
        forall|i: int| 0 <= i < tier ==> code[i] == alphabet.last(),
        code[tier as int] == alphabet[block],
        all_digits(code.subrange(tier as int + 1, code.len() as int), radix),
    ensures
        ({
            let base = tier_base(radix, alphabet.len(), length, tier);
            let unit = tier_unit(radix, length, tier);
            let place = numeral_value(code.subrange(tier as int + 1, code.len() as int), radix);
            let value = base + 1 + block * unit + place;
            &&& 0 <= base
            &&& 0 <= block * unit
            &&& is_code_of(radix, alphabet, length, value as nat, code)
        }),
{
    let r = radix as int;
    let symbols = alphabet.len();
    let base = tier_base(radix, symbols, length, tier);
    let unit = tier_unit(radix, length, tier);
    let u = unit as int;
    let digits = code.subrange(tier as int + 1, code.len() as int);
    let place = numeral_value(digits, radix);
    let first = base + 1 + block * unit;
    lemma_pow0(r);
    if radix >= 2 {
        lemma_tier_unit_exact(radix, length, tier);
        lemma_log_pow(r, (length - 1 - tier) as nat);
        if length - 1 - tier >= 1 {
            lemma_pow_strictly_increases(radix, 0, (length - 1 - tier) as nat);
        }
    } else {
        lemma_tier_unit_unary(length, tier);
    }
    lemma_numeral_value_bound(digits, radix);
    assert(place < unit);
    lemma_tier_base_increasing(radix, symbols, length, 0, tier);
    lemma_pow_positive(r, length);
    assert(0 <= block * unit && (block + 1) * unit <= symbols * unit && (block + 1) * unit
        == block * unit + unit) by (nonlinear_arith)
        requires
            0 <= block < symbols,
            unit >= 1,
    ;
    let value = (first + place) as nat;
    assert(in_tier(radix, symbols, length, value, tier));
    lemma_encoding_in_tier(radix, alphabet, length, value, tier);
    assert(tier_block(radix, symbols, length, value, tier) == block) by {
        assert(value - base - 1 == block * u + place);
        lemma_fundamental_div_mod_converse_div(value - base - 1, u, block, place as int);
    }
    assert(value % unit == place) by {
        lemma_tier_start_aligned(radix, symbols, length, tier);
        lemma_fundamental_div_mod(base + 1, u);
        let k = (base + 1) / u;
        assert(value == (k + block) * u + place) by (nonlinear_arith)
            requires
                value == base + 1 + block * u + place,
                base + 1 == u * k,
        ;
        lemma_fundamental_div_mod_converse_mod(value as int, u, k + block, place as int);
    }
    let head = repeated(alphabet.last(), tier).push(alphabet[block]);
    let built = tier_code(radix, alphabet, length, value, tier);
    if unit > 1 {
        lemma_digits_of_numeral_value(digits, radix);
        assert(built == head + zero_padded(
            radix_digits(place, radix),
            tier_digits(radix, length, tier),
        ));
        assert(built =~= code);
    } else {
        assert(built =~= code);
    }
}

/// The digit that `symbol` stands for; 36 for what is no digit.
pub(crate) fn digit_of(symbol: char) -> (digit: usize)
    ensures
        digit == digit_value(symbol),
{
    let code = symbol as u32;
    if 0x30 <= code && code <= 0x39 {
        (code - 0x30) as usize
    } else if 0x61 <= code && code <= 0x7a {
        (code - 0x61 + 10) as usize
    } else {
        36
    }
}

/// Where the digits at the end of `symbols` begin.
pub(crate) fn digit_suffix_start(symbols: &Vec<char>, radix: usize) -> (start: usize)
    ensures
        digits_start_at(symbols@, radix as nat, start as int),
{
    let mut start = symbols.len();
    while start > 0 && digit_of(symbols[start - 1]) < radix
        invariant
            start <= symbols@.len(),
            forall|i: int|
                start <= i < symbols@.len() ==> digit_value(#[trigger] symbols@[i]) < radix,
        decreases start,
    {
        start -= 1;
    }
    start
}

/// The number that the characters of `symbols` from `start` on denote in
/// base `radix`, or `None` where one of them is no digit of that base or
/// the number does not fit in a `usize`.
pub fn parse_numeral(symbols: &Vec<char>, start: usize, radix: usize) -> (value: Option<usize>)
    requires
        start <= symbols@.len(),
    ensures
        ({
            let digits = symbols@.subrange(start as int, symbols@.len() as int);
            match value {
                Some(number) => all_digits(digits, radix as nat) && number == numeral_value(
                    digits,
                    radix as nat,
                ),
                None => !all_digits(digits, radix as nat) || numeral_value(digits, radix as nat)
                    > usize::MAX,
            }
        }),
{
    let ghost digits = symbols@.subrange(start as int, symbols@.len() as int);
    let mut number: usize = 0;
    let mut next = start;
    assert(digits.take(0) =~= Seq::<char>::empty());
    while next < symbols.len()
        invariant
            start <= next <= symbols@.len(),
            digits == symbols@.subrange(start as int, symbols@.len() as int),
            all_digits(digits.take(next - start), radix as nat),
            number == numeral_value(digits.take(next - start), radix as nat),
        decreases symbols@.len() - next,
    {
        let digit = digit_of(symbols[next]);
        let ghost seen = digits.take(next - start);
        let ghost longer = digits.take(next - start + 1);
        if digit >= radix {
            assert(digit_value(digits[next - start]) >= radix);
            return None;
        }
        proof {
            assert(longer.drop_last() =~= seen);
            assert(longer.last() == symbols@[next as int]);
            lemma_numeral_value_prefix(digits, radix as nat, next - start + 1);
        }
        let scaled = match number.checked_mul(radix) {
            Some(product) => product,
            None => {
                return None;
            },
        };
        number =
        match scaled.checked_add(digit) {
            Some(sum) => sum,
            None => {
                return None;
            },
        };
        next += 1;
        proof {
            assert forall|i: int| 0 <= i < longer.len() implies digit_value(#[trigger] longer[i])
                < radix by {
                if i < seen.len() {
                    assert(longer[i] == seen[i]);
                }
            }
        }
    }
    assert(digits.take(next - start) =~= digits);
    Some(number)
}

/// The first place of `symbol` in `alphabet`, if it has one.
pub(crate) fn symbol_position(alphabet: &Vec<char>, symbol: char) -> (place: Option<usize>)
    ensures
        match place {
            Some(k) => {
                &&& k < alphabet@.len()
                &&& alphabet@[k as int] == symbol
                &&& forall|i: int| 0 <= i < k ==> alphabet@[i] != symbol
            },
            None => forall|i: int| 0 <= i < alphabet@.len() ==> alphabet@[i] != symbol,
        },
{
    let mut k: usize = 0;
    while k < alphabet.len()
        invariant
            k <= alphabet@.len(),
            forall|i: int| 0 <= i < k ==> alphabet@[i] != symbol,
        decreases alphabet@.len() - k,
    {
        if alphabet[k] == symbol {
            return Some(k);
        }
        k += 1;
    }
    None
}

/// Whether the first `count` of `symbols` are all `symbol`.
pub(crate) fn starts_with_repeated(symbols: &Vec<char>, symbol: char, count: usize) -> (all: bool)
    requires
        count <= symbols@.len(),
    ensures
        all == forall|i: int| 0 <= i < count ==> symbols@[i] == symbol,
{
    let mut seen: usize = 0;
    while seen < count
        invariant
            seen <= count <= symbols@.len(),
            forall|i: int| 0 <= i < seen ==> symbols@[i] == symbol,
        decreases count - seen,
    {
        if symbols[seen] != symbol {
            return false;
        }
        seen += 1;
    }
    true
}

} // verus!
