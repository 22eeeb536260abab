use p2p_file_system::text::{
    chars_of, find_chars, parse_unsigned_chars, push_decimal, second_piece_chars,
    split_whitespace_chars, starts_with_chars, string_of, trim_chars, trim_end_matches_char,
};

fn cs(s: &str) -> Vec<char> {
    s.chars().collect()
}

#[test]
fn chars_round_trip() {
    let v = chars_of("héllo wörld");
    assert_eq!(v.len(), 11);
    assert_eq!(string_of(&v), "héllo wörld");
}

#[test]
fn trimming() {
    assert_eq!(trim_chars(&cs(" \t a b \u{3000}\n")), cs("a b"));
    assert_eq!(trim_chars(&cs("   ")), cs(""));
    assert_eq!(trim_end_matches_char(&cs("12::"), ':'), cs("12"));
    assert_eq!(trim_end_matches_char(&cs(":12"), ':'), cs(":12"));
}

#[test]
fn splitting_on_whitespace() {
    let w = split_whitespace_chars(&cs("  0:  1,\t3, 4  "));
    assert_eq!(w, vec![cs("0:"), cs("1,"), cs("3,"), cs("4")]);
    assert!(split_whitespace_chars(&cs(" \u{a0} ")).is_empty());
}

#[test]
fn parsing_numbers_as_std_does() {
    for text in ["0", "255", "+7", "007", "", "+", "-1", "256", "1 2", "++1", "x"] {
        let expected = text.parse::<u8>().ok().map(|v| v as u128);
        assert_eq!(parse_unsigned_chars(&cs(text), 255), expected, "text {:?}", text);
    }
    assert_eq!(
        parse_unsigned_chars(&cs("340282366920938463463374607431768211455"), u128::MAX),
        Some(u128::MAX)
    );
    assert_eq!(
        parse_unsigned_chars(&cs("340282366920938463463374607431768211456"), u128::MAX),
        None
    );
    assert_eq!(parse_unsigned_chars(&cs("4294967296"), 0xffff_ffff), None);
}

#[test]
fn writing_numbers() {
    for n in [0u128, 7, 10, 255, 1000, u128::MAX] {
        let mut v = cs("x");
        push_decimal(&mut v, n);
        assert_eq!(string_of(&v), format!("x{}", n));
    }
}

#[test]
fn searching() {
    assert_eq!(find_chars(&cs("a.ch1.ch2"), &cs(".ch"), 0), Some(1));
    assert_eq!(find_chars(&cs("a.ch1.ch2"), &cs(".ch"), 2), Some(5));
    assert_eq!(find_chars(&cs("abc"), &cs(".ch"), 0), None);
    assert!(starts_with_chars(&cs("file.ch3"), &cs("file.ch")));
    assert!(!starts_with_chars(&cs("file.c"), &cs("file.ch")));
    for (s, pat) in [("a.ch1.ch2", ".ch"), ("a.ch7", ".ch"), ("abc", ".ch"), ("x.chx.ch", "x.ch")] {
        let expected = s.split(pat).nth(1).map(cs);
        assert_eq!(second_piece_chars(&cs(s), &cs(pat)), expected, "{} / {}", s, pat);
    }
}
