use network_programming::text::{
    decimal_string, find_byte_pair, find_str, is_whitespace_char, starts_with_str, str_equal,
    trim_end_nul_str, trim_str,
};

#[test]
fn whitespace_matches_std_on_every_char() {
    for u in 0u32..=0x10FFFF {
        if let Some(c) = char::from_u32(u) {
            assert_eq!(is_whitespace_char(c), c.is_whitespace(), "char U+{:04X}", u);
        }
    }
}

#[test]
fn trimming_matches_std() {
    let samples = ["", "  ", " a ", "\t\nab c\r\n", "\u{85}x\u{A0}", "\u{3000}y", "x\0 ", "\u{200B}z"];
    for s in samples {
        assert_eq!(trim_str(s), s.trim(), "{:?}", s);
        assert_eq!(trim_end_nul_str(s), s.trim_end_matches('\0'), "{:?}", s);
    }
    assert_eq!(trim_end_nul_str("ab\0\0"), "ab");
    assert_eq!(trim_end_nul_str("\0"), "");
}

#[test]
fn trimming_twice_changes_nothing() {
    for s in ["  a b  ", "\u{2003}x\t", "", "   "] {
        let once = trim_str(s);
        assert_eq!(trim_str(once), once);
    }
}

#[test]
fn decimal_matches_std() {
    for n in [0usize, 7, 9, 10, 42, 100, 1024, 65535, 1_000_000, usize::MAX] {
        assert_eq!(decimal_string(n), n.to_string());
        assert_eq!(decimal_string(n).parse::<usize>().unwrap(), n);
    }
}

#[test]
fn searching() {
    assert_eq!(find_byte_pair(b"ab\r\ncd\r\n", 0, b'\r', b'\n'), Some(2));
    assert_eq!(find_byte_pair(b"ab\r\ncd\r\n", 3, b'\r', b'\n'), Some(6));
    assert_eq!(find_byte_pair(b"ab\r\ncd\r\n", 7, b'\r', b'\n'), None);
    assert_eq!(find_byte_pair(b"", 5, b'\r', b'\n'), None);
    assert_eq!(find_str("a\u{e9} b c", 0, " "), Some(2));
    assert_eq!(find_str("a\u{e9} b c", 3, " "), Some(4));
    assert_eq!(find_str("abc", 0, "bc"), Some(1));
    assert_eq!(find_str("abc", 2, "bc"), None);
}

#[test]
fn prefixes_and_equality() {
    assert!(starts_with_str("GET /", "GET"));
    assert!(!starts_with_str("GE", "GET"));
    assert!(starts_with_str("x", ""));
    assert!(str_equal("/", "/"));
    assert!(!str_equal("/", "//"));
}
