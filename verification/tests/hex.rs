use breakwater::parser::{from_hex_char_lookup, from_hex_char_map};

#[test]
fn test_from_hex_char() {
    for c in 0..=255 {
        assert_eq!(from_hex_char_map(c), from_hex_char_map(c));
    }
}

#[test]
fn test_hex_char_values() {
    assert_eq!(from_hex_char_map(b'0'), 0);
    assert_eq!(from_hex_char_map(b'9'), 9);
    assert_eq!(from_hex_char_map(b'a'), 10);
    assert_eq!(from_hex_char_map(b'f'), 15);
    assert_eq!(from_hex_char_map(b'A'), 10);
    assert_eq!(from_hex_char_map(b'F'), 15);
    assert_eq!(from_hex_char_map(b'g'), 0);
    assert_eq!(from_hex_char_map(b' '), 0);
    assert_eq!(from_hex_char_map(0), 0);
    assert_eq!(from_hex_char_map(255), 0);
}

#[test]
fn test_lookup_agrees_with_map() {
    for c in 0..=255 {
        assert_eq!(from_hex_char_lookup(c), from_hex_char_map(c));
    }
}
