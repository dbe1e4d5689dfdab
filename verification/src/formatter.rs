//! The formatter: an alphabet, a radix and the marker symbol, and the
//! operations that turn an index into its code.

use vstd::prelude::*;
use vstd::arithmetic::power::*;
use vstd::arithmetic::mul::*;
use crate::alphabet::{
    alphabet_for, alphabet_symbols, distinct_symbols, no_digit_symbols,
    lemma_alphabet_properties,
};
use crate::capacity::{
    checked_pow, floor_log, in_tier, max_index, representable, tier_base, tier_unit,
    lemma_range_division_step, lemma_representable_up_to_max, lemma_tier_base_increasing,
    lemma_tier_start_aligned, lemma_tier_unit_decreasing, lemma_tier_unit_exact,
};
use crate::decoding::{
    digit_suffix_start, is_code_of, parse_numeral, starts_with_repeated, symbol_position,
    lemma_code_determines_index, lemma_digits_are_code, lemma_index_from_block,
    lemma_parts_are_code,
};
use crate::encoding::{
    assembled, encoding, tier_block, tier_digits, lemma_encoding_in_tier, lemma_encoding_len,
};
use crate::error::FormatError;
use crate::numeral::{numeral_value, radix_digits, repeated, zero_padded};
use crate::text::{push_repeated, radix_string, symbols_of};

verus! {

/// Turns indices into codes over one alphabet and one radix.
pub struct FlowControlIndexFormatter {
    char_array: Vec<char>,
    radix: usize,
    last_char: char,
}

impl FlowControlIndexFormatter {
    /// The numeral base of the digits in a code.
    pub closed spec fn radix(&self) -> nat {
        self.radix as nat
    }

    /// The symbols that select a block of an overflow tier, in order.
    pub closed spec fn alphabet(&self) -> Seq<char> {
        self.char_array@
    }

    /// The symbol that is repeated in front of a code, once per overflow
    /// tier that the index lies beyond.
    pub closed spec fn marker(&self) -> char {
        self.last_char
    }

    /// The alphabet is not empty and the marker is its last symbol.
    pub open spec fn wf(&self) -> bool {
        &&& self.alphabet().len() >= 1
        &&& self.marker() == self.alphabet().last()
    }

    /// No symbol of the alphabet occurs twice in it or is a digit of the
    /// radix, so that a code can be read in one way only.
    pub open spec fn unambiguous(&self) -> bool {
        &&& distinct_symbols(self.alphabet())
        &&& no_digit_symbols(self.alphabet(), self.radix())
    }

    /// A formatter over the given radix and alphabet, neither of them
    /// checked against the other.
    pub fn create(radix: usize, char_array: Vec<char>) -> (formatter: Self)
        requires
            char_array@.len() >= 1,
        ensures
            formatter.wf(),
            formatter.radix() == radix,
            formatter.alphabet() == char_array@,
    {
        let last_char = char_array[char_array.len() - 1];
        FlowControlIndexFormatter { char_array, radix, last_char }
    }

    /// A formatter over the Latin alphabet, or over the letters that cannot
    /// be taken for digits where `human_readable` is set. The radix has to
    /// be from 1 to 10, or above 10 and below the size of the alphabet.
    pub fn of_base(radix: usize, human_readable: bool) -> (result: Result<Self, FormatError>)
        ensures
            result is Ok <==> (1 <= radix <= 10 || 10 < radix < alphabet_for(
                human_readable,
            ).len()),
            result matches Err(error) ==> error == FormatError::UnsupportedRadix,
            result matches Ok(formatter) ==> {
                &&& formatter.wf()
                &&& formatter.unambiguous()
                &&& formatter.radix() == radix
                &&& formatter.alphabet() == alphabet_for(human_readable)
            },
    {
        let char_array = alphabet_symbols(human_readable);
        proof {
            if radix <= 36 {
                lemma_alphabet_properties(human_readable, radix as nat);
            } else {
                lemma_alphabet_properties(human_readable, 0);
            }
        }
        if radix > 10 && radix < char_array.len() {
            return Ok(Self::create(radix, char_array));
        }
        if radix > 0 && radix <= 10 {
            return Ok(Self::create(radix, char_array));
        }
        Err(FormatError::UnsupportedRadix)
    }

    /// The largest index that has a code of nominal length `length`, or
    /// `None` where no such index fits in a `usize`: where the capacity is
    /// too large, and with radix 1, whose tiers never run out. Zero for
    /// length zero.
    pub fn checked_max_number_by_length(&self, length: u32) -> (max: Option<usize>)
        requires
            self.wf(),
            self.radix() >= 1,
        ensures
            match max {
                Some(m) => {
                    &&& length == 0 || self.radix() >= 2
                    &&& m == max_index(self.radix(), self.alphabet().len(), length as nat)
                },
                None => {
                    &&& length >= 1
                    &&& self.radix() == 1 || max_index(
                        self.radix(),
                        self.alphabet().len(),
                        length as nat,
                    ) > usize::MAX
                },
            },
    {
        if length < 1 {
            return Some(0);
        }
        if self.radix == 1 {
            return None;
        }
        let ghost r = self.radix();
        let ghost symbols = self.alphabet().len();
        let ghost len = length as nat;
        proof {
            lemma_pow_positive(r as int, len);
            lemma_tier_base_increasing(r, symbols, len, 0, len);
        }
        let base_range = match checked_pow(self.radix, length) {
            Some(power) => power,
            None => {
                proof {
                    lemma_tier_base_increasing(r, symbols, len, 1, len);
                    lemma_tier_unit_exact(r, len, 0);
                    lemma_mul_increases(symbols as int, tier_unit(r, len, 0) as int);
                }
                return None;
            },
        };
        let mut max_value = base_range - 1;
        let mut segment_size = base_range;
        let ghost mut tier: nat = 0;
        proof {
            lemma_pow0(r as int);
        }
        loop
            invariant
                self.wf(),
                r == self.radix(),
                symbols == self.alphabet().len(),
                len == length,
                r >= 2,
                len >= 1,
                tier <= len,
                segment_size >= 1,
                segment_size == pow(r as int, len) / pow(r as int, tier),
                max_value == tier_base(r, symbols, len, tier),
            decreases segment_size,
        {
            proof {
                lemma_range_division_step(r, len, tier);
                lemma_tier_unit_exact(r, len, tier);
                assert((segment_size as int) / (r as int) < segment_size) by (nonlinear_arith)
                    requires
                        segment_size >= 1,
                        r >= 2,
                ;
            }
            segment_size = segment_size / self.radix;
            if segment_size == 0 {
                return Some(max_value);
            }
            proof {
                lemma_tier_base_increasing(r, symbols, len, tier + 1, len);
            }
            let added = match self.char_array.len().checked_mul(segment_size) {
                Some(product) => product,
                None => {
                    return None;
                },
            };
            max_value =
            match max_value.checked_add(added) {
                Some(sum) => sum,
                None => {
                    return None;
                },
            };
            proof {
                tier = tier + 1;
            }
        }
    }

    /// The largest index that has a code of nominal length `length`: the
    /// plain numerals of that many digits and every overflow tier on top of
    /// them. Zero for length zero.
    pub fn max_number_by_length(&self, length: u32) -> (max: usize)
        requires
            self.wf(),
            self.radix() >= 2,
            max_index(self.radix(), self.alphabet().len(), length as nat) <= usize::MAX,
        ensures
            max == max_index(self.radix(), self.alphabet().len(), length as nat),
    {
        self.checked_max_number_by_length(length).unwrap()
    }

    /// The code of `value` for nominal length `length`.
    ///
    /// An index below `radix^length` becomes its numeral, padded with zeros
    /// to `length` digits. A larger one is looked up tier by tier; its code
    /// holds one marker per tier passed, the symbol of its block, and the
    /// digits left to the tier.
    pub fn format_index(&self, value: usize, length: u32) -> (result: Result<String, FormatError>)
        requires
            self.wf(),
            1 <= self.radix() <= 36,
        ensures
            length < 1 ==> result == Err::<String, FormatError>(FormatError::InvalidLength),
            length >= 1 && !representable(
                self.radix(),
                self.alphabet().len(),
                length as nat,
                value as nat,
            ) ==> result == Err::<String, FormatError>(FormatError::ValueTooLarge),
            length >= 1 && representable(
                self.radix(),
                self.alphabet().len(),
                length as nat,
                value as nat,
            ) ==> (result matches Ok(code) && code@ == encoding(
                self.radix(),
                self.alphabet(),
                length as nat,
                value as nat,
            )),
            self.radix() >= 2 && length >= 1 ==> (result is Ok <==> value <= max_index(
                self.radix(),
                self.alphabet().len(),
                length as nat,
            )),
            self.radix() >= 2 ==> (result matches Ok(code) ==> code@.len() == length),
    {
        if length < 1 {
            return Err(FormatError::InvalidLength);
        }
        let ghost r = self.radix();
        let ghost symbols = self.alphabet().len();
        let ghost len = length as nat;
        let ghost v = value as nat;
        proof {
            lemma_pow_positive(r as int, len);
            lemma1_pow(len);
            if r >= 2 {
                lemma_representable_up_to_max(r, symbols, len, v);
                if representable(r, symbols, len, v) {
                    lemma_encoding_len(r, self.alphabet(), len, v);
                }
            }
        }
        let mut numeric_limit = match checked_pow(self.radix, length) {
            Some(power) => power,
            None => {
                return Ok(self.format_radix_string(value, length));
            },
        };
        if numeric_limit > value {
            return Ok(self.format_radix_string(value, length));
        }
        let mut extended_limit = numeric_limit - 1;
        let mut overflow_tier: usize = 0;
        proof {
            lemma_pow0(r as int);
        }
        loop
            invariant
                self.wf(),
                r == self.radix(),
                symbols == self.alphabet().len(),
                len == length,
                v == value,
                1 <= r <= 36,
                len >= 1,
                numeric_limit >= 1,
                numeric_limit == pow(r as int, len) / pow(r as int, overflow_tier as nat),
                extended_limit == tier_base(r, symbols, len, overflow_tier as nat),
                extended_limit < value,
                overflow_tier <= extended_limit,
            decreases value - extended_limit,
        {
            let ghost tier = overflow_tier as nat;
            proof {
                lemma_range_division_step(r, len, tier);
            }
            numeric_limit = numeric_limit / self.radix;
            if numeric_limit == 0 {
                proof {
                    lemma_tier_base_increasing(r, symbols, len, 0, tier);
                    assert forall|other: nat| !in_tier(r, symbols, len, v, other) by {
                        if other < tier {
                            lemma_tier_base_increasing(r, symbols, len, other + 1, tier);
                        } else {
                            lemma_tier_unit_decreasing(r, len, tier, other);
                        }
                    }
                    if r >= 2 {
                        lemma_representable_up_to_max(r, symbols, len, v);
                    }
                }
                return Err(FormatError::ValueTooLarge);
            }
            let offset = value - extended_limit - 1;
            if offset / numeric_limit < self.char_array.len() {
                proof {
                    assert(offset < symbols * numeric_limit) by (nonlinear_arith)
                        requires
                            (offset as int) / (numeric_limit as int) < symbols,
                            numeric_limit >= 1,
                            offset >= 0,
                    ;
                    assert(in_tier(r, symbols, len, v, tier));
                    lemma_encoding_in_tier(r, self.alphabet(), len, v, tier);
                    if r >= 2 {
                        lemma_representable_up_to_max(r, symbols, len, v);
                        lemma_encoding_len(r, self.alphabet(), len, v);
                    } else {
                        lemma1_pow(len);
                        lemma1_pow(tier + 1);
                    }
                }
                return Ok(
                    self.assemble_code(value, overflow_tier, extended_limit, numeric_limit),
                );
            }
            proof {
                assert(symbols * numeric_limit <= offset && symbols * numeric_limit >= 1)
                    by (nonlinear_arith)
                    requires
                        (offset as int) / (numeric_limit as int) >= symbols,
                        numeric_limit >= 1,
                        symbols >= 1,
                        offset >= 0,
                ;
            }
            extended_limit = extended_limit + self.char_array.len() * numeric_limit;
            overflow_tier += 1;
        }
    }

    /// The index whose code for nominal length `length` is `code`, or
    /// `None` where `code` is the code of no index that fits in a `usize`.
    pub fn decode_index(&self, code: &str, length: u32) -> (result: Option<usize>)
        requires
            self.wf(),
            self.unambiguous(),
            1 <= self.radix() <= 36,
        ensures
            result matches Some(value) ==> is_code_of(
                self.radix(),
                self.alphabet(),
                length as nat,
                value as nat,
                code@,
            ),
            forall|value: nat|
                value <= usize::MAX && #[trigger] is_code_of(
                    self.radix(),
                    self.alphabet(),
                    length as nat,
                    value,
                    code@,
                ) ==> result == Some(value as usize),
    {
        let ghost r = self.radix();
        let ghost alphabet = self.alphabet();
        let ghost len = length as nat;
        let symbols = symbols_of(code);
        let start = digit_suffix_start(&symbols, self.radix);
        proof {
            // What every index with this code has in common with the code.
            assert forall|value: nat| #[trigger]
                is_code_of(r, alphabet, len, value, symbols@) implies {
                &&& start == 0 ==> symbols@.len() == len && value == numeral_value(symbols@, r)
                &&& start > 0 ==> {
                    let tier = (start - 1) as nat;
                    let block = tier_block(r, alphabet.len(), len, value, tier);
                    let base = tier_base(r, alphabet.len(), len, tier);
                    let unit = tier_unit(r, len, tier);
                    &&& in_tier(r, alphabet.len(), len, value, tier)
                    &&& symbols@.len() == start + tier_digits(r, len, tier)
                    &&& forall|i: int| 0 <= i < tier ==> symbols@[i] == alphabet.last()
                    &&& 0 <= block < alphabet.len()
                    &&& symbols@[start - 1] == alphabet[block]
                    &&& numeral_value(
                        symbols@.subrange(start as int, symbols@.len() as int),
                        r,
                    ) == value % unit
                    &&& 0 <= block * unit
                    &&& value == base + 1 + block * unit + value % unit
                }
            } by {
                lemma_code_determines_index(r, alphabet, len, value, symbols@, start as int);
                if start > 0 {
                    let tier = (start - 1) as nat;
                    let base = tier_base(r, alphabet.len(), len, tier);
                    let unit = tier_unit(r, len, tier);
                    lemma_tier_start_aligned(r, alphabet.len(), len, tier);
                    lemma_tier_base_increasing(r, alphabet.len(), len, 0, tier);
                    lemma_pow_positive(r as int, len);
                    lemma_index_from_block(base, unit, value);
                    lemma_mul_nonnegative(
                        tier_block(r, alphabet.len(), len, value, tier),
                        unit as int,
                    );
                }
            }
        }
        if length < 1 {
            return None;
        }
        if start == 0 {
            if symbols.len() != length as usize {
                return None;
            }
            proof {
                assert(symbols@.subrange(0, symbols@.len() as int) =~= symbols@);
                lemma_digits_are_code(r, alphabet, symbols@);
            }
            return parse_numeral(&symbols, 0, self.radix);
        }
        let tier = start - 1;
        if !starts_with_repeated(&symbols, self.last_char, tier) {
            return None;
        }
        let block = match symbol_position(&self.char_array, symbols[tier]) {
            Some(place) => place,
            None => {
                return None;
            },
        };
        let (base, unit) = match self.tier_bounds(length, tier) {
            Some(bounds) => bounds,
            None => {
                return None;
            },
        };
        let digits = if unit > 1 {
            proof {
                if r == 1 {
                    lemma1_pow(len);
                    lemma1_pow((tier + 1) as nat);
                }
            }
            floor_log(unit, self.radix) as usize
        } else {
            0
        };
        if symbols.len() - start != digits {
            return None;
        }
        let place = match parse_numeral(&symbols, start, self.radix) {
            Some(number) => number,
            None => {
                return None;
            },
        };
        proof {
            lemma_parts_are_code(r, alphabet, len, symbols@, tier as nat, block as int);
        }
        let offset = match block.checked_mul(unit) {
            Some(product) => product,
            None => {
                return None;
            },
        };
        let before = match base.checked_add(offset) {
            Some(sum) => sum,
            None => {
                return None;
            },
        };
        let first = match before.checked_add(1) {
            Some(next) => next,
            None => {
                return None;
            },
        };
        first.checked_add(place)
    }

    /// The numeral of `value` in the formatter's radix, with zeros in front
    /// up to `length` characters; the bare numeral where it is longer. Zero
    /// is the digit `0` in every radix; with radix 1 nothing else has a
    /// numeral.
    pub fn format_radix_string(&self, value: usize, length: u32) -> (text: String)
        requires
            2 <= self.radix() <= 36 || (self.radix() == 1 && value == 0),
        ensures
            text@ == zero_padded(radix_digits(value as nat, self.radix()), length as nat),
    {
        let digits = if self.radix >= 2 {
            radix_string(value, self.radix as u8)
        } else {
            proof {
                reveal_strlit("0");
            }
            assert("0"@ =~= radix_digits(0, 1));
            String::from_str("0")
        };
        let count = digits.as_str().unicode_len();
        if count >= length as usize {
            return digits;
        }
        let mut text = String::new();
        push_repeated(&mut text, '0', length as usize - count);
        text.append(digits.as_str());
        assert(text@ =~= repeated('0', (length - count) as nat) + digits@);
        text
    }

    /// The code of `value` in the overflow tier `overflow_tier`, which
    /// starts after `previous_tier_start` and whose symbols cover
    /// `numeric_limit` indices each.
    fn assemble_code(
        &self,
        value: usize,
        overflow_tier: usize,
        previous_tier_start: usize,
        numeric_limit: usize,
    ) -> (code: String)
        requires
            self.wf(),
            numeric_limit >= 1,
            numeric_limit > 1 ==> 2 <= self.radix() <= 36,
            previous_tier_start < value,
            (value - previous_tier_start - 1) / (numeric_limit as int) < self.alphabet().len(),
        ensures
            code@ == assembled(
                self.radix(),
                self.alphabet(),
                value as nat,
                overflow_tier as nat,
                previous_tier_start as int,
                numeric_limit as nat,
            ),
    {
        let mut builder = String::new();
        push_repeated(&mut builder, self.last_char, overflow_tier);
        let size = (value - (previous_tier_start + 1)) / numeric_limit;
        let c = self.char_array[size];
        builder.push(c);
        assert(builder@ =~= repeated(self.marker(), overflow_tier as nat).push(
            self.alphabet()[size as int],
        ));
        if numeric_limit > 1 {
            let pad = floor_log(numeric_limit, self.radix);
            builder.append(self.format_radix_string(value % numeric_limit, pad).as_str());
        }
        builder
    }

    /// The base and the unit of tier `tier`. `None` is returned only where
    /// the tier is empty or starts beyond the last `usize`.
    fn tier_bounds(&self, length: u32, tier: usize) -> (bounds: Option<(usize, usize)>)
        requires
            self.wf(),
            self.radix() >= 1,
        ensures
            match bounds {
                Some((base, unit)) => {
                    &&& base == tier_base(
                        self.radix(),
                        self.alphabet().len(),
                        length as nat,
                        tier as nat,
                    )
                    &&& unit == tier_unit(self.radix(), length as nat, tier as nat)
                    &&& unit >= 1
                },
                None => tier_unit(self.radix(), length as nat, tier as nat) == 0 || tier_base(
                    self.radix(),
                    self.alphabet().len(),
                    length as nat,
                    tier as nat,
                ) >= usize::MAX,
            },
    {
        let ghost r = self.radix();
        let ghost symbols = self.alphabet().len();
        let ghost len = length as nat;
        proof {
            lemma_pow_positive(r as int, len);
            lemma_pow0(r as int);
            lemma_tier_base_increasing(r, symbols, len, 0, tier as nat);
        }
        let mut unit = match checked_pow(self.radix, length) {
            Some(power) => power,
            None => {
                return None;
            },
        };
        let mut base = unit - 1;
        let mut passed: usize = 0;
        while passed < tier
            invariant
                self.wf(),
                r == self.radix(),
                symbols == self.alphabet().len(),
                len == length,
                r >= 1,
                passed <= tier,
                unit == pow(r as int, len) / pow(r as int, passed as nat),
                base == tier_base(r, symbols, len, passed as nat),
            decreases tier - passed,
        {
            proof {
                lemma_range_division_step(r, len, passed as nat);
                lemma_tier_unit_decreasing(r, len, passed as nat, tier as nat);
                lemma_tier_base_increasing(r, symbols, len, passed as nat + 1, tier as nat);
            }
            unit = unit / self.radix;
            let added = match self.char_array.len().checked_mul(unit) {
                Some(product) => product,
                None => {
                    return None;
                },
            };
            base =
            match base.checked_add(added) {
                Some(sum) => sum,
                None => {
                    return None;
                },
            };
            passed += 1;
        }
        proof {
            lemma_range_division_step(r, len, tier as nat);
        }
        unit = unit / self.radix;
        if unit == 0 {
            return None;
        }
        Some((base, unit))
    }
}

} // verus!
