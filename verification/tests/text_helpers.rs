use cuzi::text::{
    char_is_whitespace, decimal_string, find_char_in, join_from, parse_usize_str, split_char,
    starts_with, str_eq, trim_str,
};

#[test]
fn whitespace_matches_std_for_every_char() {
    for u in 0u32..0x110000 {
        if let Some(c) = char::from_u32(u) {
            assert_eq!(char_is_whitespace(c), c.is_whitespace(), "code point {:x}", u);
        }
    }
}

#[test]
fn trim_matches_std() {
    let cases = [
        "", "   ", " a ", "\tHTTP/1.1\r\n", "x", "\u{3000}mid dle\u{85}", "a\u{a0}", "\r\n",
    ];
    for s in cases {
        assert_eq!(trim_str(s), s.trim(), "case {:?}", s);
    }
}

#[test]
fn split_matches_std() {
    let cases = ["", " ", "a b c", "GET / HTTP/1.1\r\n", "  two  spaces ", "none"];
    for s in cases {
        let ours: Vec<&str> = split_char(s, ' ');
        let std: Vec<&str> = s.split(' ').collect();
        assert_eq!(ours, std, "case {:?}", s);
    }
}

#[test]
fn join_after_split_gives_text_back() {
    let cases = ["a b c", " lead", "trail ", "x", "", "HTTP/1.1 404 Not Found\r\n"];
    for s in cases {
        let pieces = split_char(s, ' ');
        assert_eq!(join_from(&pieces, 0, " "), s);
    }
}

#[test]
fn join_from_skips_leading_pieces() {
    let pieces = vec!["HTTP/1.1", "404", "Not", "Found"];
    assert_eq!(join_from(&pieces, 2, " "), "Not Found");
    assert_eq!(join_from(&pieces, 3, "-"), "Found");
}

#[test]
fn str_eq_and_starts_with() {
    assert!(str_eq("abc", "abc"));
    assert!(!str_eq("abc", "abd"));
    assert!(!str_eq("abc", "ab"));
    assert!(starts_with("HTTP/1.1 200 OK", "HTTP"));
    assert!(!starts_with("HTT", "HTTP"));
    assert!(!starts_with("GET / HTTP/1.1", "HTTP"));
    assert!(starts_with("anything", ""));
}

#[test]
fn find_char_gives_character_position() {
    assert_eq!(find_char_in("Host: x", ':'), Some(4));
    assert_eq!(find_char_in("\u{e9}t\u{e9}: x", ':'), Some(3));
    assert_eq!(find_char_in("no colon", ':'), None);
}

#[test]
fn parse_usize_matches_std() {
    let cases = [
        "0", "42", "+7", "007", "", "+", "-0", "-5", " 5", "5 ", "12a", "18446744073709551615",
        "18446744073709551616", "99999999999999999999999",
    ];
    for s in cases {
        assert_eq!(parse_usize_str(s), s.parse::<usize>().ok(), "case {:?}", s);
    }
}

#[test]
fn decimal_matches_display() {
    for n in [0, 7, 10, 443, 2001, -1, -80, i32::MAX, i32::MIN] {
        assert_eq!(decimal_string(n), n.to_string());
    }
}
