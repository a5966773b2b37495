use cda_cache_sim::address::{binary_str_value, decode_hex_address, hex_str_to_binary_str, DecodeError};

#[test]
fn test_hex_to_binary_address() {
    let hex_addy = "0x123456789ABCDeF";
    let actual =
        hex_str_to_binary_str(hex_addy.strip_prefix("0x").unwrap().to_lowercase().trim()).unwrap();
    let expected = "000100100011010001010110011110001001101010111100110111101111".to_string();
    assert_eq!(actual, expected);
}

#[test]
fn hex_digits_expand_to_four_bits_each() {
    let digits = "0f9A";
    let bits = hex_str_to_binary_str(digits).unwrap();
    assert_eq!(bits.len(), 4 * digits.len());
    assert_eq!(bits, "0000111110011010");
}

#[test]
fn hex_upper_and_lower_case_agree() {
    assert_eq!(hex_str_to_binary_str("ABCDEF"), hex_str_to_binary_str("abcdef"));
}

#[test]
fn empty_hex_gives_empty_bits() {
    assert_eq!(hex_str_to_binary_str("").unwrap(), "");
}

#[test]
fn non_hex_digit_is_a_format_error() {
    assert_eq!(hex_str_to_binary_str("12g4"), Err(DecodeError::Format));
}

#[test]
fn address_needs_its_prefix() {
    assert_eq!(decode_hex_address("1fffff50"), Err(DecodeError::Prefix));
    assert_eq!(decode_hex_address("0"), Err(DecodeError::Prefix));
    assert_eq!(decode_hex_address("0x1fffff5z"), Err(DecodeError::Format));
}

#[test]
fn address_decodes_after_prefix() {
    assert_eq!(
        decode_hex_address("0x1FFFFF50").unwrap(),
        "00011111111111111111111101010000"
    );
    assert_eq!(decode_hex_address("0X0000000a").unwrap(), "00000000000000000000000000001010");
}

#[test]
fn binary_strings_read_as_numbers() {
    assert_eq!(binary_str_value(""), 0);
    assert_eq!(binary_str_value("100"), 4);
    assert_eq!(binary_str_value("00011111111111111111111101010000"), 0x1FFF_FF50);
    assert_eq!(binary_str_value("11111111111111111111111111111111"), u32::MAX);
}
