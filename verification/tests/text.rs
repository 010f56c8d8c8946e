use idrac_fan_controller::text::{chars_of, parse_unsigned, push_decimal, push_hex_byte, trim_range, white_space};

#[test]
fn decimal_and_hex_notation() {
    let mut s = String::from("n=");
    push_decimal(&mut s, 0);
    push_decimal(&mut s, 1234567890);
    assert_eq!(s, "n=01234567890");
    let mut s = String::new();
    push_decimal(&mut s, u64::MAX);
    assert_eq!(s, u64::MAX.to_string());
    for b in [0u8, 9, 10, 15, 16, 100, 171, 255] {
        let mut h = String::new();
        push_hex_byte(&mut h, b);
        assert_eq!(h, format!("{:#04x}", b));
    }
}

#[test]
fn unsigned_numbers_as_from_str_reads_them() {
    for text in ["0", "+7", "007", "255", "256", "+", "-1", "", " 1", "1 ", "4294967295", "4294967296", "1_0", "٣"] {
        let chars = chars_of(text);
        assert_eq!(parse_unsigned(&chars, 0, chars.len(), 255), text.parse::<u8>().ok().map(|v| v as u64), "{text:?}");
        assert_eq!(
            parse_unsigned(&chars, 0, chars.len(), u32::MAX as u64),
            text.parse::<u32>().ok().map(|v| v as u64),
            "{text:?}"
        );
    }
}

#[test]
fn trimming_as_str_trim() {
    for text in ["", "   ", " a ", "\u{3000}x y\u{2028}", "\u{200b}z", "a\t\n"] {
        let chars = chars_of(text);
        let (a, b) = trim_range(&chars, 0, chars.len());
        let trimmed: String = chars[a..b].iter().collect();
        assert_eq!(trimmed, text.trim(), "{text:?}");
    }
    for c in ['\u{85}', '\u{a0}', '\u{1680}', '\u{205f}', ' ', 'x', '\u{200b}', '\u{feff}'] {
        assert_eq!(white_space(c), c.is_whitespace(), "{c:?}");
    }
}
