use solana_validator_snapshot_keeper::text::{char_is_space, str_equals, to_ascii_lowercase};

/// The white-space set is exactly Unicode `White_Space`, as `char::is_whitespace` has it.
#[test]
fn space_set_matches_char_is_whitespace() {
    for u in 0..=0x10FFFFu32 {
        if let Some(c) = char::from_u32(u) {
            assert_eq!(char_is_space(c), c.is_whitespace(), "{u:#x}");
        }
    }
}

#[test]
fn lowercase_is_ascii_only() {
    assert_eq!(to_ascii_lowercase("WARN"), "warn");
    assert_eq!(to_ascii_lowercase("Ärger-OK"), "Ärger-ok");
    assert_eq!(to_ascii_lowercase(""), "");
}

#[test]
fn string_equality() {
    assert!(str_equals("testnet", "testnet"));
    assert!(!str_equals("testnet", "testnet "));
    assert!(!str_equals("", "a"));
    assert!(str_equals("", ""));
}
