use ire_core::text::{
    chars_of, ends_with, is_whitespace, padded_decimal, parse_u32, starts_with, string_of, trim,
};

#[test]
fn white_space_is_that_of_unicode() {
    for code in 0..0x110000u32 {
        if let Some(c) = char::from_u32(code) {
            assert_eq!(is_whitespace(c), c.is_whitespace(), "U+{code:04X}");
        }
    }
}

#[test]
fn trimming_takes_white_space_off_both_ends() {
    for s in ["", " ", "a", " a ", "\t\n a b \u{3000}", "\u{a0}x\u{2028}", "no-trim"] {
        assert_eq!(trim(s), s.trim());
    }
}

#[test]
fn numbers_are_padded_with_zeros() {
    for n in [0u32, 1, 9, 10, 99, 100, 999, 1000, 1234567, u32::MAX] {
        assert_eq!(padded_decimal(n, 3), format!("{n:03}"));
        assert_eq!(padded_decimal(n, 0), format!("{n}"));
    }
}

#[test]
fn numbers_are_read_as_std_reads_them() {
    for s in [
        "", "0", "7", "007", "+7", "++7", "+", "-7", "-0", " 7", "7 ", "1_0", "4294967295",
        "4294967296", "99999999999999999999", "0000000000000000000001", "0x1", "\u{664}", "1.0",
    ] {
        let chars = chars_of(s);
        assert_eq!(parse_u32(&chars, chars.len()), s.parse::<u32>().ok(), "{s:?}");
    }
}

#[test]
fn padded_numbers_read_back() {
    for n in [0u32, 5, 42, 999, 1000, u32::MAX] {
        let chars = chars_of(&padded_decimal(n, 3));
        assert_eq!(parse_u32(&chars, chars.len()), Some(n));
    }
}

#[test]
fn prefixes_and_suffixes() {
    assert!(starts_with("resources/a.md", "resources/"));
    assert!(!starts_with("resource", "resources/"));
    assert!(starts_with("x", ""));
    assert!(ends_with("a.md", ".md"));
    assert!(!ends_with("md", ".md"));
    assert!(!ends_with("a.mdx", ".md"));
}

#[test]
fn characters_go_there_and_back() {
    let s = "aé—🦀`";
    assert_eq!(chars_of(s), s.chars().collect::<Vec<char>>());
    assert_eq!(string_of(&chars_of(s)), s);
}
