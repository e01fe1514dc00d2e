use agent_spy::text::{pad_left, to_char2b, to_decimal, Char2b};

#[test]
fn numbers_in_decimal() {
    assert_eq!(to_decimal(0), "0");
    assert_eq!(to_decimal(9), "9");
    assert_eq!(to_decimal(10), "10");
    assert_eq!(to_decimal(1024), "1024");
    assert_eq!(to_decimal(u64::MAX), u64::MAX.to_string());
}

#[test]
fn padding() {
    assert_eq!(pad_left("7", 3), "  7");
    assert_eq!(pad_left("123", 3), "123");
    assert_eq!(pad_left("1234", 3), "1234");
    assert_eq!(pad_left("", 0), "");
    assert_eq!(pad_left("×", 2), " ×");
}

#[test]
fn characters_of_two_bytes() {
    assert_eq!(
        to_char2b("Aé—😀"),
        [
            Char2b { byte1: 0, byte2: 0x41 },
            Char2b { byte1: 0, byte2: 0xe9 },
            Char2b { byte1: 0x20, byte2: 0x14 },
            Char2b { byte1: 0xff, byte2: 0xfd },
        ]
    );
    assert!(to_char2b("").is_empty());
    assert_eq!(to_char2b("\u{ffff}"), [Char2b { byte1: 0xff, byte2: 0xff }]);
    assert_eq!(to_char2b("\u{10000}"), [Char2b { byte1: 0xff, byte2: 0xfd }]);
}

#[test]
fn at_most_255_characters_are_drawn() {
    assert_eq!(to_char2b(&"x".repeat(255)).len(), 255);
    let long = to_char2b(&("y".repeat(255) + "zz"));
    assert_eq!(long.len(), 255);
    assert!(long.iter().all(|c| c.byte2 == b'y'));
}
