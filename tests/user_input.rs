use cda_cache_sim::text::is_number;
use cda_cache_sim::user_input::{CacheType, ConfigError, ReplacementPolicy, UserInput};

#[test]
fn test_decompose_binary_address_with_fa() {
    let test_input = UserInput::new(5, 2, "fa".into(), "l".into()).unwrap();
    // 0x1fffff50
    let binary_address = "00011111111111111111111101010000".to_string();
    let (tag, set, offset) = test_input.break_down_binary_address(&binary_address).unwrap();
    assert_eq!(tag, "000111111111111111111111010100");
    assert_eq!(set, "");
    assert_eq!(offset, "00");
}

#[test]
fn test_decompose_binary_address_with_dm() {
    let test_input = UserInput::new(5, 2, "dm".into(), "l".into()).unwrap();
    // 0x1fffff50
    let binary_address = "00011111111111111111111101010000".to_string();
    let (tag, set, offset) = test_input.break_down_binary_address(&binary_address).unwrap();
    assert_eq!(tag, "000111111111111111111111010");
    assert_eq!(set, "100");
    assert_eq!(offset, "00");
}

#[test]
fn direct_mapped_geometry() {
    let ui = UserInput::new(5, 2, "DM".into(), "l".into()).unwrap();
    assert_eq!(ui.num_sets(), 8);
    assert_eq!(ui.lines_per_set(), 1);
    assert_eq!(ui.num_lines(), 8);
    assert_eq!(ui.tag_size(), 27);
    assert_eq!(ui.set_size(), 3);
    assert_eq!(ui.offset_size(), 2);
    assert_eq!(ui.tag_size() + ui.set_size() + ui.offset_size(), 32);
}

#[test]
fn fully_associative_geometry() {
    let ui = UserInput::new(5, 2, " fa ".into(), "x".into()).unwrap();
    assert_eq!(ui.num_sets(), 1);
    assert_eq!(ui.num_sets_exp(), 0);
    assert_eq!(ui.lines_per_set(), 8);
    assert_eq!(ui.tag_size(), 30);
    assert_eq!(ui.replacement_policy(), ReplacementPolicy::FIFO);
}

#[test]
fn set_associative_geometry() {
    let ui = UserInput::set_associative(10, 4, 2, "L".into()).unwrap();
    assert_eq!(ui.num_lines_exp(), 6);
    assert_eq!(ui.lines_per_set(), 4);
    assert_eq!(ui.num_sets(), 16);
    assert_eq!(ui.tag_size(), 24);
    assert_eq!(ui.replacement_policy(), ReplacementPolicy::LRU);
}

#[test]
fn split_reassembles_the_address() {
    let ui = UserInput::set_associative(12, 3, 3, "l".into()).unwrap();
    let address = "10110011100011110000111100001111".to_string();
    let (tag, set, offset) = ui.break_down_binary_address(&address).unwrap();
    assert_eq!(tag.len() + set.len() + offset.len(), 32);
    assert_eq!(format!("{}{}{}", tag, set, offset), address);
}

#[test]
fn split_refuses_a_short_address() {
    let ui = UserInput::new(5, 2, "dm".into(), "l".into()).unwrap();
    let address = "0101".to_string();
    assert_eq!(
        ui.break_down_binary_address(&address),
        Err(cda_cache_sim::address::DecodeError::LengthMismatch)
    );
}

#[test]
fn configuration_errors() {
    assert_eq!(UserInput::new(2, 5, "dm".into(), "l".into()).unwrap_err(), ConfigError::LineLargerThanCache);
    assert_eq!(UserInput::new(40, 2, "dm".into(), "l".into()).unwrap_err(), ConfigError::TooManyLines);
    assert_eq!(UserInput::set_associative(5, 2, 5, "l".into()).unwrap_err(), ConfigError::WaysOutOfRange);
    assert_eq!(UserInput::set_associative(5, 4, 2, "l".into()).unwrap_err(), ConfigError::WaysOutOfRange);
    assert_eq!(UserInput::set_associative(5, 2, 0, "l".into()).unwrap_err(), ConfigError::WaysOutOfRange);
    assert_eq!(UserInput::new(36, 8, "dm".into(), "l".into()).unwrap_err(), ConfigError::AddressTooNarrow);
    assert_eq!(UserInput::new(40, 40, "fa".into(), "l".into()).unwrap_err(), ConfigError::AddressTooNarrow);
    assert_eq!(UserInput::new(5, 2, "sa".into(), "l".into()).unwrap_err(), ConfigError::WaysRequired);
    assert_eq!(UserInput::new(5, 2, "xy".into(), "l".into()).unwrap_err(), ConfigError::UnknownCacheType);
}

#[test]
fn from_parts_checks_like_the_words() {
    let ui = UserInput::from_parts(5, 2, CacheType::SetAssociative(1), ReplacementPolicy::FIFO).unwrap();
    assert_eq!(ui.lines_per_set(), 2);
    assert_eq!(ui.num_sets(), 4);
    assert_eq!(CacheType::DirectMapped.set_size_exp(3), 0);
    assert_eq!(CacheType::FullyAssociative.set_size_exp(3), 3);
}

#[test]
fn policy_words() {
    assert_eq!(ReplacementPolicy::parse(" l\n"), ReplacementPolicy::LRU);
    assert_eq!(ReplacementPolicy::parse("L"), ReplacementPolicy::LRU);
    assert_eq!(ReplacementPolicy::parse("lru"), ReplacementPolicy::FIFO);
    assert_eq!(ReplacementPolicy::parse(""), ReplacementPolicy::FIFO);
    assert_eq!(ReplacementPolicy::from("l".to_string()), ReplacementPolicy::LRU);
    assert_eq!(ReplacementPolicy::from("f".to_string()), ReplacementPolicy::FIFO);
}

#[test]
fn number_filter() {
    assert_eq!(is_number(&"42".to_string()), Ok(()));
    assert_eq!(is_number(&"+7".to_string()), Ok(()));
    assert_eq!(is_number(&"4294967295".to_string()), Ok(()));
    assert_eq!(
        is_number(&"4294967296".to_string()),
        Err("when given: 4294967296\nfailed to parse to u32".to_string())
    );
    assert!(is_number(&"-1".to_string()).is_err());
    assert!(is_number(&"".to_string()).is_err());
    assert!(is_number(&"1 2".to_string()).is_err());
}

#[test]
fn words_tolerate_unicode_whitespace() {
    assert_eq!(ReplacementPolicy::parse("\u{a0}l"), ReplacementPolicy::LRU);
    assert_eq!(ReplacementPolicy::from("\u{3000}L\u{2028}".to_string()), ReplacementPolicy::LRU);
    assert_eq!(ReplacementPolicy::from("\u{200b}l".to_string()), ReplacementPolicy::FIFO);
    let ui = UserInput::new(5, 2, "\u{a0}DM\u{85}".into(), "\u{2009}l".into()).unwrap();
    assert_eq!(ui.num_sets(), 8);
    assert_eq!(ui.replacement_policy(), ReplacementPolicy::LRU);
}
