use tmpl::text::{
    append_bytes, bytes_eq, find_byte, find_bytes, read_index, starts_with, trim_bounds,
};

fn trimmed(s: &str) -> &str {
    let (from, to) = trim_bounds(s.as_bytes());
    &s[from..to]
}

#[test]
fn find_byte_gives_the_first_place_or_the_length() {
    assert_eq!(find_byte(b"a.b.c", b'.'), 1);
    assert_eq!(find_byte(b".a", b'.'), 0);
    assert_eq!(find_byte(b"abc", b'.'), 3);
    assert_eq!(find_byte(b"", b'.'), 0);
}

#[test]
fn find_bytes_gives_the_first_place_or_the_length() {
    assert_eq!(find_bytes(b"{{var}}", b"var"), 2);
    assert_eq!(find_bytes(b"vavar", b"var"), 2);
    assert_eq!(find_bytes(b"var", b"var"), 0);
    assert_eq!(find_bytes(b"va", b"var"), 2);
    assert_eq!(find_bytes(b"", b"var"), 0);
    assert_eq!(find_bytes(b"xxvarvar", b"var"), 2);
    assert_eq!(find_bytes(b"abc", b""), 0);
    assert_eq!(find_bytes(b"", b""), 0);
}

#[test]
fn bytes_eq_compares_length_and_content() {
    assert!(bytes_eq(b"", b""));
    assert!(bytes_eq(b"abc", b"abc"));
    assert!(!bytes_eq(b"abc", b"abd"));
    assert!(!bytes_eq(b"abc", b"ab"));
    assert!(!bytes_eq(b"", b"a"));
}

#[test]
fn starts_with_accepts_the_empty_prefix_and_the_whole() {
    assert!(starts_with(b"#IF x", b"#IF "));
    assert!(starts_with(b"abc", b""));
    assert!(starts_with(b"abc", b"abc"));
    assert!(!starts_with(b"ab", b"abc"));
    assert!(!starts_with(b"#IFNOT x", b"#IF "));
}

#[test]
fn trim_removes_ascii_white_space_at_both_ends() {
    assert_eq!(trimmed("  a b \t\r\n"), "a b");
    assert_eq!(trimmed("\x0b\x0ca\x0c\x0b"), "a");
    assert_eq!(trimmed("a"), "a");
    assert_eq!(trimmed(""), "");
    assert_eq!(trimmed(" \n\t "), "");
}

#[test]
fn trim_removes_every_unicode_white_space() {
    let spaces = [
        '\u{85}', '\u{a0}', '\u{1680}', '\u{2000}', '\u{2001}', '\u{2002}', '\u{2003}',
        '\u{2004}', '\u{2005}', '\u{2006}', '\u{2007}', '\u{2008}', '\u{2009}', '\u{200a}',
        '\u{2028}', '\u{2029}', '\u{202f}', '\u{205f}', '\u{3000}',
    ];
    for c in spaces {
        let s = format!("{}x{}y{}", c, c, c);
        assert_eq!(trimmed(&s), format!("x{}y", c));
    }
}

#[test]
fn trim_agrees_with_std_on_every_character() {
    for code in 0..0x3100u32 {
        if let Some(c) = char::from_u32(code) {
            let s = format!("{}a{}", c, c);
            assert_eq!(trimmed(&s), s.trim());
        }
    }
}

#[test]
fn trim_keeps_what_only_looks_like_white_space() {
    for s in ["\u{200b}a", "\u{180e}a", "\u{feff}a", "\u{2060}a", "\u{c2}a", "\u{e2}a"] {
        assert_eq!(trimmed(s), s);
    }
}

#[test]
fn read_index_takes_digits_with_an_optional_plus() {
    assert_eq!(read_index(b"0"), Some(0));
    assert_eq!(read_index(b"42"), Some(42));
    assert_eq!(read_index(b"+42"), Some(42));
    assert_eq!(read_index(b"007"), Some(7));
    assert_eq!(read_index(usize::MAX.to_string().as_bytes()), Some(usize::MAX));
}

#[test]
fn read_index_refuses_everything_else() {
    for s in ["", "+", "-1", "-0", "1a", "a1", " 1", "1 ", "++1", "1.0", "0x10", "\u{661}"] {
        assert_eq!(read_index(s.as_bytes()), None);
    }
}

#[test]
fn read_index_refuses_what_does_not_fit() {
    assert_eq!(read_index(b"18446744073709551616"), None);
    assert_eq!(read_index(b"99999999999999999999999"), None);
    assert_eq!(read_index(b"184467440737095516150"), None);
}

#[test]
fn read_index_agrees_with_std() {
    for s in ["0", "1", "+1", "-1", "", "+", "12345678901234567890", "1_000", "00", "+00", "٣"] {
        assert_eq!(read_index(s.as_bytes()), s.parse::<usize>().ok());
    }
}

#[test]
fn append_bytes_adds_at_the_end() {
    let mut v = b"ab".to_vec();
    append_bytes(&mut v, b"cd");
    append_bytes(&mut v, b"");
    assert_eq!(v, b"abcd".to_vec());
}
