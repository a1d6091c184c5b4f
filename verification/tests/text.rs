use criew::text::{
    chars_of, comes_before, decimal_chars, decimal_signed_chars, dedup, hex_chars, lower, padded_chars,
    parse_number, split, split_lines, split_words, string_of, trim, CharClass,
};

fn text(chars: &[char]) -> String {
    string_of(chars)
}

#[test]
fn numbers_are_written_and_read() {
    assert_eq!(text(&decimal_chars(0)), "0");
    assert_eq!(text(&decimal_chars(u64::MAX)), u64::MAX.to_string());
    assert_eq!(text(&decimal_signed_chars(i64::MIN)), i64::MIN.to_string());
    assert_eq!(text(&padded_chars(42, 5)), "00042");
    assert_eq!(text(&padded_chars(123456, 5)), "123456");
    assert_eq!(text(&hex_chars(0xab)), "00000000000000ab");
    assert_eq!(parse_number(&chars_of("4294967295")), Some(u32::MAX));
    assert_eq!(parse_number(&chars_of("4294967296")), None);
    assert_eq!(parse_number(&chars_of("+07")), Some(7));
    for bad in ["", "+", "-1", "1 ", "\u{0661}"] {
        assert_eq!(parse_number(&chars_of(bad)), None);
        assert!(bad.parse::<u32>().is_err());
    }
}

#[test]
fn splitting_agrees_with_the_standard_library() {
    for sample in ["", " a  b\u{3000}c\n", "x\r\ny\n\nz\r", "\n", "a,b,,c"] {
        let chars = chars_of(sample);
        let words: Vec<String> = split_words(&chars).into_iter().map(text).collect();
        assert_eq!(words, sample.split_whitespace().collect::<Vec<_>>());
        let lines: Vec<String> = split_lines(&chars).into_iter().map(text).collect();
        assert_eq!(lines, sample.lines().collect::<Vec<_>>());
        let parts: Vec<String> = split(&chars, &CharClass::One(',')).into_iter().map(text).collect();
        assert_eq!(parts, sample.split(',').collect::<Vec<_>>());
        assert_eq!(text(trim(&chars)), sample.trim());
        assert_eq!(text(&lower(&chars)), sample.to_ascii_lowercase());
    }
}

#[test]
fn white_space_and_letters_agree_with_the_standard_library() {
    for c in (0..=0x3100u32).filter_map(char::from_u32) {
        assert_eq!(CharClass::Space.test(c), c.is_whitespace());
        assert_eq!(CharClass::Symbol.test(c), !c.is_alphanumeric());
    }
}

#[test]
fn dictionary_order_agrees_with_the_standard_library() {
    let samples = ["", "a", "ab", "B", "\u{e9}", "\u{10000}", "\u{ffff}"];
    for a in samples {
        for b in samples {
            assert_eq!(comes_before(&chars_of(a), &chars_of(b)), a < b);
        }
    }
}

#[test]
fn first_appearances_are_kept() {
    let items = ["b", "a", "b", "c", "a"].map(|s| s.to_string()).to_vec();
    assert_eq!(dedup(&items), vec!["b", "a", "c"]);
}
