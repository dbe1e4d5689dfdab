use flow_control_index::alphabet::alphabet_symbols;
use flow_control_index::capacity::{checked_pow, floor_log};
use flow_control_index::decoding::parse_numeral;

#[test]
fn alphabets() {
    let full: String = alphabet_symbols(false).into_iter().collect();
    assert_eq!(full, "ABCDEFGHIJKLMNOPQRSTUVWXYZ");
    let readable: String = alphabet_symbols(true).into_iter().collect();
    assert_eq!(readable, "ABCDEFGHJKLMNPQRSTUVWXYZ");
    assert_eq!(readable.len(), 24);
    assert!(!readable.contains('I') && !readable.contains('O'));
}

#[test]
fn powers() {
    assert_eq!(checked_pow(10, 0), Some(1));
    assert_eq!(checked_pow(10, 3), Some(1000));
    assert_eq!(checked_pow(2, 10), Some(1024));
    assert_eq!(checked_pow(0, 0), Some(1));
    assert_eq!(checked_pow(0, 5), Some(0));
    assert_eq!(checked_pow(1, u32::MAX), Some(1));
    assert_eq!(checked_pow(2, usize::BITS - 1), Some(1usize << (usize::BITS - 1)));
    assert_eq!(checked_pow(2, usize::BITS), None);
    assert_eq!(checked_pow(10, 40), None);
    assert_eq!(checked_pow(usize::MAX, 1), Some(usize::MAX));
    assert_eq!(checked_pow(usize::MAX, 2), None);
}

#[test]
fn parsing_numerals() {
    let symbols: Vec<char> = "X00ff".chars().collect();
    assert_eq!(parse_numeral(&symbols, 1, 16), Some(255));
    assert_eq!(parse_numeral(&symbols, 5, 16), Some(0));
    assert_eq!(parse_numeral(&symbols, 0, 16), None);
    assert_eq!(parse_numeral(&symbols, 1, 15), None);
    let decimal: Vec<char> = "0123".chars().collect();
    assert_eq!(parse_numeral(&decimal, 0, 10), Some(123));
    assert_eq!(parse_numeral(&decimal, 0, 3), None);
    let upper: Vec<char> = "FF".chars().collect();
    assert_eq!(parse_numeral(&upper, 0, 16), None);
    let top: Vec<char> = "zz".chars().collect();
    assert_eq!(parse_numeral(&top, 0, 36), Some(36 * 36 - 1));
    let large: Vec<char> = usize::MAX.to_string().chars().collect();
    assert_eq!(parse_numeral(&large, 0, 10), Some(usize::MAX));
    let too_large: Vec<char> = format!("{}0", usize::MAX).chars().collect();
    assert_eq!(parse_numeral(&too_large, 0, 10), None);
}

#[test]
fn whole_number_logarithms() {
    assert_eq!(floor_log(0, 2), 0);
    assert_eq!(floor_log(1, 2), 0);
    assert_eq!(floor_log(2, 2), 1);
    assert_eq!(floor_log(999, 10), 2);
    assert_eq!(floor_log(1000, 10), 3);
    assert_eq!(floor_log(1001, 10), 3);
    assert_eq!(floor_log(35, 36), 0);
    assert_eq!(floor_log(36, 36), 1);
    assert_eq!(floor_log(usize::MAX, 2), usize::BITS - 1);
    assert_eq!(floor_log(usize::MAX, usize::MAX), 1);
}
