use hca::text::{chars_of, is_blank, is_whitespace, push_decimal, take_chars, trim};

#[test]
fn trim_matches_std() {
    for s in ["", "  a b  ", "\t\n x\u{3000}", "\u{85}y\u{a0}", "no_space", " \u{2009} "] {
        assert_eq!(trim(s), s.trim());
        assert_eq!(is_blank(s), s.trim().is_empty());
    }
}

#[test]
fn whitespace_matches_std() {
    for u in 0u32..0x3100 {
        if let Some(c) = char::from_u32(u) {
            assert_eq!(is_whitespace(c), c.is_whitespace(), "{:x}", u);
        }
    }
}

#[test]
fn decimal_numerals() {
    for n in [0usize, 7, 10, 99, 1234567890] {
        let mut s = String::from("pos_");
        push_decimal(&mut s, n);
        assert_eq!(s, format!("pos_{}", n));
    }
}

#[test]
fn take_and_chars() {
    assert_eq!(take_chars("héllo", 2), "hé");
    assert_eq!(take_chars("ab", 5), "ab");
    assert_eq!(chars_of("añb"), vec!['a', 'ñ', 'b']);
}
