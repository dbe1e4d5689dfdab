use flow_control_index::{FlowControlIndexFormatter, FormatError};
use std::collections::HashSet;

fn readable_decimal() -> FlowControlIndexFormatter {
    FlowControlIndexFormatter::of_base(10, true).unwrap()
}

#[test]
fn single_digit_scenario() {
    let formatter = readable_decimal();
    assert_eq!(formatter.max_number_by_length(1), 33);
    assert_eq!(formatter.format_index(0, 1), Ok(String::from("0")));
    assert_eq!(formatter.format_index(9, 1), Ok(String::from("9")));
    assert_eq!(formatter.format_index(10, 1), Ok(String::from("A")));
    assert_eq!(formatter.format_index(33, 1), Ok(String::from("Z")));
    assert_eq!(formatter.format_index(34, 1), Err(FormatError::ValueTooLarge));
}

#[test]
fn construction_scenario() {
    assert!(FlowControlIndexFormatter::of_base(11, true).is_ok());
    assert_eq!(
        FlowControlIndexFormatter::of_base(24, true).err(),
        Some(FormatError::UnsupportedRadix)
    );
    assert_eq!(
        FlowControlIndexFormatter::of_base(0, true).err(),
        Some(FormatError::UnsupportedRadix)
    );
    assert_eq!(
        FlowControlIndexFormatter::of_base(0, false).err(),
        Some(FormatError::UnsupportedRadix)
    );
}

#[test]
fn radix_bounds_follow_the_alphabet_size() {
    assert!(FlowControlIndexFormatter::of_base(1, false).is_ok());
    assert!(FlowControlIndexFormatter::of_base(10, false).is_ok());
    assert!(FlowControlIndexFormatter::of_base(23, true).is_ok());
    assert!(FlowControlIndexFormatter::of_base(25, false).is_ok());
    assert_eq!(
        FlowControlIndexFormatter::of_base(26, false).err(),
        Some(FormatError::UnsupportedRadix)
    );
    assert_eq!(
        FlowControlIndexFormatter::of_base(25, true).err(),
        Some(FormatError::UnsupportedRadix)
    );
    assert_eq!(
        FlowControlIndexFormatter::of_base(usize::MAX, false).err(),
        Some(FormatError::UnsupportedRadix)
    );
}

#[test]
fn zero_length_is_invalid() {
    let formatter = readable_decimal();
    assert_eq!(formatter.format_index(0, 0), Err(FormatError::InvalidLength));
    assert_eq!(formatter.format_index(5, 0), Err(FormatError::InvalidLength));
    assert_eq!(formatter.max_number_by_length(0), 0);
}

#[test]
fn two_digit_tiers() {
    let formatter = readable_decimal();
    assert_eq!(formatter.max_number_by_length(2), 363);
    assert_eq!(formatter.format_index(7, 2), Ok(String::from("07")));
    assert_eq!(formatter.format_index(99, 2), Ok(String::from("99")));
    assert_eq!(formatter.format_index(100, 2), Ok(String::from("A0")));
    assert_eq!(formatter.format_index(109, 2), Ok(String::from("A9")));
    assert_eq!(formatter.format_index(110, 2), Ok(String::from("B0")));
    assert_eq!(formatter.format_index(339, 2), Ok(String::from("Z9")));
    assert_eq!(formatter.format_index(340, 2), Ok(String::from("ZA")));
    assert_eq!(formatter.format_index(347, 2), Ok(String::from("ZH")));
    assert_eq!(formatter.format_index(348, 2), Ok(String::from("ZJ")));
    assert_eq!(formatter.format_index(363, 2), Ok(String::from("ZZ")));
    assert_eq!(formatter.format_index(364, 2), Err(FormatError::ValueTooLarge));
}

#[test]
fn digits_after_the_symbol_are_the_index_modulo_the_unit() {
    let formatter = readable_decimal();
    // Tier 0 of length 3 starts at 1000 and its symbols cover 100 indices each.
    assert_eq!(formatter.format_index(1000, 3), Ok(String::from("A00")));
    assert_eq!(formatter.format_index(1234, 3), Ok(String::from("C34")));
    assert_eq!(formatter.format_index(3399, 3), Ok(String::from("Z99")));
    // Tier 1 starts at 3400, where the index modulo 10 is not the offset modulo 10
    // only by a multiple of the unit.
    assert_eq!(formatter.format_index(3400, 3), Ok(String::from("ZA0")));
    assert_eq!(formatter.format_index(3639, 3), Ok(String::from("ZZ9")));
    assert_eq!(formatter.format_index(3640, 3), Ok(String::from("ZZA")));
    assert_eq!(formatter.format_index(3663, 3), Ok(String::from("ZZZ")));
    assert_eq!(formatter.format_index(3664, 3), Err(FormatError::ValueTooLarge));
}

#[test]
fn capacity_formula() {
    let formatter = readable_decimal();
    assert_eq!(formatter.max_number_by_length(3), 999 + 24 * (100 + 10 + 1));
    let full = FlowControlIndexFormatter::of_base(10, false).unwrap();
    assert_eq!(full.max_number_by_length(1), 9 + 26);
    assert_eq!(full.max_number_by_length(2), 99 + 26 * 11);
    let binary = FlowControlIndexFormatter::of_base(2, false).unwrap();
    assert_eq!(binary.max_number_by_length(3), 7 + 26 * (4 + 2 + 1));
}

#[test]
fn capacity_grows_with_the_length() {
    let formatter = readable_decimal();
    let mut before = formatter.max_number_by_length(0);
    assert_eq!(before, 0);
    for length in 1..=9u32 {
        let max = formatter.max_number_by_length(length);
        assert!(max > before);
        before = max;
    }
}

#[test]
fn capacity_in_closed_form() {
    for (radix, symbols) in [(2usize, 26usize), (7, 26), (10, 24), (16, 26)] {
        let formatter = FlowControlIndexFormatter::of_base(radix, symbols == 24).unwrap();
        for length in 0..=5u32 {
            let max = formatter.max_number_by_length(length);
            let range = radix.pow(length);
            assert_eq!((radix - 1) * max, (radix - 1 + symbols) * (range - 1));
        }
    }
}

#[test]
fn capacity_that_does_not_fit_is_reported() {
    let formatter = readable_decimal();
    assert_eq!(formatter.checked_max_number_by_length(2), Some(363));
    assert_eq!(formatter.checked_max_number_by_length(0), Some(0));
    assert_eq!(formatter.checked_max_number_by_length(40), None);
    assert_eq!(formatter.checked_max_number_by_length(u32::MAX), None);
    let unary = FlowControlIndexFormatter::of_base(1, false).unwrap();
    assert_eq!(unary.checked_max_number_by_length(0), Some(0));
    assert_eq!(unary.checked_max_number_by_length(1), None);
    assert_eq!(unary.checked_max_number_by_length(7), None);
}

#[test]
fn codes_are_distinct_and_of_nominal_length() {
    for radix in [2usize, 3, 10] {
        for human_readable in [false, true] {
            let formatter = FlowControlIndexFormatter::of_base(radix, human_readable).unwrap();
            for length in 1..=3u32 {
                let max = formatter.max_number_by_length(length);
                let mut seen = HashSet::new();
                for value in 0..=max {
                    let code = formatter.format_index(value, length).unwrap();
                    assert_eq!(code.chars().count(), length as usize);
                    assert!(seen.insert(code));
                }
                assert_eq!(
                    formatter.format_index(max + 1, length),
                    Err(FormatError::ValueTooLarge)
                );
            }
        }
    }
}

#[test]
fn plain_numerals_are_zero_padded() {
    let formatter = readable_decimal();
    assert_eq!(formatter.format_index(0, 5), Ok(String::from("00000")));
    assert_eq!(formatter.format_index(42, 5), Ok(String::from("00042")));
    assert_eq!(formatter.format_index(99999, 5), Ok(String::from("99999")));
    let binary = FlowControlIndexFormatter::of_base(2, false).unwrap();
    assert_eq!(binary.format_index(5, 4), Ok(String::from("0101")));
}

#[test]
fn a_range_beyond_the_machine_word_is_all_plain_numerals() {
    let formatter = readable_decimal();
    let code = formatter.format_index(usize::MAX, 40).unwrap();
    assert_eq!(code.len(), 40);
    assert_eq!(code.trim_start_matches('0'), usize::MAX.to_string());
}

#[test]
fn radix_string_pads_but_never_cuts() {
    let formatter = readable_decimal();
    assert_eq!(formatter.format_radix_string(5, 3), "005");
    assert_eq!(formatter.format_radix_string(1234, 3), "1234");
    assert_eq!(formatter.format_radix_string(0, 0), "0");
    assert_eq!(formatter.format_radix_string(7, 1), "7");
}

#[test]
fn radix_string_uses_lower_case_letters_above_nine() {
    let eleven = FlowControlIndexFormatter::of_base(11, true).unwrap();
    assert_eq!(eleven.format_radix_string(10, 1), "a");
    assert_eq!(eleven.format_radix_string(120, 4), "00aa");
    let hex = FlowControlIndexFormatter::create(16, vec!['X', 'Y']);
    assert_eq!(hex.format_radix_string(255, 2), "ff");
    assert_eq!(hex.format_radix_string(0xbeef, 6), "00beef");
    let top = FlowControlIndexFormatter::create(36, vec!['A']);
    assert_eq!(top.format_radix_string(35, 1), "z");
    assert_eq!(top.format_radix_string(36 * 36 - 1, 1), "zz");
}

#[test]
fn radix_above_ten_keeps_the_whole_alphabet() {
    let formatter = FlowControlIndexFormatter::of_base(11, true).unwrap();
    assert_eq!(formatter.max_number_by_length(1), 10 + 24);
    assert_eq!(formatter.format_index(10, 1), Ok(String::from("a")));
    assert_eq!(formatter.format_index(11, 1), Ok(String::from("A")));
    assert_eq!(formatter.format_index(34, 1), Ok(String::from("Z")));
    assert_eq!(formatter.format_index(35, 1), Err(FormatError::ValueTooLarge));
}

#[test]
fn custom_alphabet_uses_its_last_symbol_as_marker() {
    let formatter = FlowControlIndexFormatter::create(10, vec!['x', 'y', '#']);
    assert_eq!(formatter.max_number_by_length(2), 99 + 3 * 11);
    assert_eq!(formatter.format_index(100, 2), Ok(String::from("x0")));
    assert_eq!(formatter.format_index(129, 2), Ok(String::from("#9")));
    assert_eq!(formatter.format_index(130, 2), Ok(String::from("#x")));
    assert_eq!(formatter.format_index(132, 2), Ok(String::from("##")));
    assert_eq!(formatter.format_index(133, 2), Err(FormatError::ValueTooLarge));
}

#[test]
fn radix_one_grows_by_one_marker_per_tier() {
    let formatter = FlowControlIndexFormatter::of_base(1, false).unwrap();
    assert_eq!(formatter.format_index(0, 1), Ok(String::from("0")));
    assert_eq!(formatter.format_index(0, 3), Ok(String::from("000")));
    assert_eq!(formatter.format_index(1, 1), Ok(String::from("A")));
    assert_eq!(formatter.format_index(5, 1), Ok(String::from("E")));
    assert_eq!(formatter.format_index(26, 1), Ok(String::from("Z")));
    assert_eq!(formatter.format_index(27, 1), Ok(String::from("ZA")));
    assert_eq!(formatter.format_index(53, 3), Ok(String::from("ZZA")));
    assert_eq!(formatter.format_index(5, 0), Err(FormatError::InvalidLength));
    assert_eq!(formatter.format_radix_string(0, 2), "00");
}

#[test]
fn radix_one_codes_are_read_back() {
    let formatter = FlowControlIndexFormatter::of_base(1, true).unwrap();
    for length in 1..=3u32 {
        let mut seen = HashSet::new();
        for value in 0..=200usize {
            let code = formatter.format_index(value, length).unwrap();
            assert_eq!(formatter.decode_index(&code, length), Some(value));
            assert!(seen.insert(code));
        }
    }
    assert_eq!(formatter.decode_index("ZZA", 1), Some(49));
    assert_eq!(formatter.decode_index("00", 2), Some(0));
    assert_eq!(formatter.decode_index("00", 3), None);
    assert_eq!(formatter.decode_index("A0", 2), None);
    assert_eq!(formatter.decode_index("AZ", 2), None);
    assert_eq!(formatter.decode_index("1", 1), None);
    assert_eq!(formatter.decode_index("", 1), None);
}

#[test]
fn error_messages() {
    assert_eq!(
        FormatError::UnsupportedRadix.message(),
        "Unsupported radix or character set size."
    );
    assert_eq!(FormatError::InvalidLength.message(), "Length must be at least 1.");
    assert_eq!(
        FormatError::ValueTooLarge.message(),
        "Value too large for given length."
    );
}

#[test]
fn decoding_reads_back_every_code() {
    for radix in [2usize, 3, 7, 10] {
        for human_readable in [false, true] {
            let formatter = FlowControlIndexFormatter::of_base(radix, human_readable).unwrap();
            for length in 1..=3u32 {
                let max = formatter.max_number_by_length(length);
                for value in 0..=max {
                    let code = formatter.format_index(value, length).unwrap();
                    assert_eq!(formatter.decode_index(&code, length), Some(value));
                }
            }
        }
    }
}

#[test]
fn decoding_with_letter_digits() {
    let formatter = FlowControlIndexFormatter::of_base(16, false).unwrap();
    for length in 1..=2u32 {
        let max = formatter.max_number_by_length(length);
        for value in 0..=max {
            let code = formatter.format_index(value, length).unwrap();
            assert_eq!(formatter.decode_index(&code, length), Some(value));
        }
    }
    assert_eq!(formatter.format_index(255, 2), Ok(String::from("ff")));
    assert_eq!(formatter.decode_index("ff", 2), Some(255));
    assert_eq!(formatter.decode_index("Fa", 2), Some(256 + 5 * 16 + 10));
    assert_eq!(formatter.decode_index("FF", 2), None);
    assert_eq!(formatter.decode_index("ZZ", 2), Some(formatter.max_number_by_length(2)));
}

#[test]
fn decoding_known_codes() {
    let formatter = readable_decimal();
    assert_eq!(formatter.decode_index("0", 1), Some(0));
    assert_eq!(formatter.decode_index("A", 1), Some(10));
    assert_eq!(formatter.decode_index("Z", 1), Some(33));
    assert_eq!(formatter.decode_index("07", 2), Some(7));
    assert_eq!(formatter.decode_index("Z9", 2), Some(339));
    assert_eq!(formatter.decode_index("ZA", 2), Some(340));
    assert_eq!(formatter.decode_index("C34", 3), Some(1234));
    assert_eq!(formatter.decode_index("ZA0", 3), Some(3400));
    assert_eq!(formatter.decode_index("ZZZ", 3), Some(3663));
}

#[test]
fn decoding_rejects_what_is_no_code() {
    let formatter = readable_decimal();
    assert_eq!(formatter.decode_index("", 1), None);
    assert_eq!(formatter.decode_index("", 0), None);
    assert_eq!(formatter.decode_index("0", 0), None);
    assert_eq!(formatter.decode_index("7", 2), None);
    assert_eq!(formatter.decode_index("007", 2), None);
    assert_eq!(formatter.decode_index("I", 1), None);
    assert_eq!(formatter.decode_index("O5", 2), None);
    assert_eq!(formatter.decode_index("a", 1), None);
    assert_eq!(formatter.decode_index("9Z", 2), None);
    assert_eq!(formatter.decode_index("AZ", 2), None);
    assert_eq!(formatter.decode_index("AA", 2), None);
    assert_eq!(formatter.decode_index("A0Z", 3), None);
    assert_eq!(formatter.decode_index("ZAZ", 3), None);
    assert_eq!(formatter.decode_index("Z\u{e9}", 2), None);
    assert_eq!(formatter.decode_index("99999999999999999999999999", 26), None);
}

fn assert_table(formatter: &FlowControlIndexFormatter, length: u32, table: &str) {
    let width = length as usize;
    assert_eq!(table.len() % width, 0);
    let count = table.len() / width;
    assert_eq!(formatter.max_number_by_length(length), count - 1);
    for value in 0..count {
        let expected = &table[value * width..(value + 1) * width];
        assert_eq!(formatter.format_index(value, length).as_deref(), Ok(expected));
        assert_eq!(formatter.decode_index(expected, length), Some(value));
    }
}

#[test]
fn every_code_of_two_decimal_digits() {
    let table = [
        "000102030405060708091011121314151617181920212223242526272829303132333435363738",
        "394041424344454647484950515253545556575859606162636465666768697071727374757677",
        "78798081828384858687888990919293949596979899A0A1A2A3A4A5A6A7A8A9B0B1B2B3B4B5B6",
        "B7B8B9C0C1C2C3C4C5C6C7C8C9D0D1D2D3D4D5D6D7D8D9E0E1E2E3E4E5E6E7E8E9F0F1F2F3F4F5",
        "F6F7F8F9G0G1G2G3G4G5G6G7G8G9H0H1H2H3H4H5H6H7H8H9J0J1J2J3J4J5J6J7J8J9K0K1K2K3K4",
        "K5K6K7K8K9L0L1L2L3L4L5L6L7L8L9M0M1M2M3M4M5M6M7M8M9N0N1N2N3N4N5N6N7N8N9P0P1P2P3",
        "P4P5P6P7P8P9Q0Q1Q2Q3Q4Q5Q6Q7Q8Q9R0R1R2R3R4R5R6R7R8R9S0S1S2S3S4S5S6S7S8S9T0T1T2",
        "T3T4T5T6T7T8T9U0U1U2U3U4U5U6U7U8U9V0V1V2V3V4V5V6V7V8V9W0W1W2W3W4W5W6W7W8W9X0X1",
        "X2X3X4X5X6X7X8X9Y0Y1Y2Y3Y4Y5Y6Y7Y8Y9Z0Z1Z2Z3Z4Z5Z6Z7Z8Z9ZAZBZCZDZEZFZGZHZJZKZL",
        "ZMZNZPZQZRZSZTZUZVZWZXZYZZ",
    ]
    .concat();
    assert_table(&readable_decimal(), 2, &table);
}

#[test]
fn every_code_of_three_ternary_digits() {
    let table = [
        "000001002010011012020021022100101102110111112120121122200201202210211212220221",
        "222A00A01A02A10A11A12A20A21A22B00B01B02B10B11B12B20B21B22C00C01C02C10C11C12C20",
        "C21C22D00D01D02D10D11D12D20D21D22E00E01E02E10E11E12E20E21E22F00F01F02F10F11F12",
        "F20F21F22G00G01G02G10G11G12G20G21G22H00H01H02H10H11H12H20H21H22I00I01I02I10I11",
        "I12I20I21I22J00J01J02J10J11J12J20J21J22K00K01K02K10K11K12K20K21K22L00L01L02L10",
        "L11L12L20L21L22M00M01M02M10M11M12M20M21M22N00N01N02N10N11N12N20N21N22O00O01O02",
        "O10O11O12O20O21O22P00P01P02P10P11P12P20P21P22Q00Q01Q02Q10Q11Q12Q20Q21Q22R00R01",
        "R02R10R11R12R20R21R22S00S01S02S10S11S12S20S21S22T00T01T02T10T11T12T20T21T22U00",
        "U01U02U10U11U12U20U21U22V00V01V02V10V11V12V20V21V22W00W01W02W10W11W12W20W21W22",
        "X00X01X02X10X11X12X20X21X22Y00Y01Y02Y10Y11Y12Y20Y21Y22Z00Z01Z02Z10Z11Z12Z20Z21",
        "Z22ZA0ZA1ZA2ZB0ZB1ZB2ZC0ZC1ZC2ZD0ZD1ZD2ZE0ZE1ZE2ZF0ZF1ZF2ZG0ZG1ZG2ZH0ZH1ZH2ZI0",
        "ZI1ZI2ZJ0ZJ1ZJ2ZK0ZK1ZK2ZL0ZL1ZL2ZM0ZM1ZM2ZN0ZN1ZN2ZO0ZO1ZO2ZP0ZP1ZP2ZQ0ZQ1ZQ2",
        "ZR0ZR1ZR2ZS0ZS1ZS2ZT0ZT1ZT2ZU0ZU1ZU2ZV0ZV1ZV2ZW0ZW1ZW2ZX0ZX1ZX2ZY0ZY1ZY2ZZ0ZZ1",
        "ZZ2ZZAZZBZZCZZDZZEZZFZZGZZHZZIZZJZZKZZLZZMZZNZZOZZPZZQZZRZZSZZTZZUZZVZZWZZXZZY",
        "ZZZ",
    ]
    .concat();
    let formatter = FlowControlIndexFormatter::of_base(3, false).unwrap();
    assert_table(&formatter, 3, &table);
}

#[test]
fn every_code_of_one_hexadecimal_digit() {
    let formatter = FlowControlIndexFormatter::of_base(16, false).unwrap();
    assert_table(&formatter, 1, "0123456789abcdefABCDEFGHIJKLMNOPQRSTUVWXYZ");
}
