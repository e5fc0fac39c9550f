use beebotos_launcher::text::{
    chars_of, is_space_char, line_spans, str_equals, trimmed, utf8_len_at_least,
};

#[test]
fn whitespace_matches_std() {
    for code in 0u32..=0x10FFFF {
        if let Some(c) = char::from_u32(code) {
            assert_eq!(is_space_char(c), c.is_whitespace(), "{code:#x}");
        }
    }
}

fn split(s: &str) -> Vec<String> {
    let v = chars_of(s);
    line_spans(&v)
        .into_iter()
        .map(|(a, b)| v[a..b].iter().collect())
        .collect()
}

#[test]
fn lines_match_std() {
    for s in [
        "",
        "a",
        "a\n",
        "a\nb",
        "a\r\nb\r\n",
        "\n\n",
        "a\r",
        "a\r\r\n",
        "x\ry\nz",
        "\r\n",
        "中文\n行",
    ] {
        let expected: Vec<String> = s.lines().map(str::to_string).collect();
        assert_eq!(split(s), expected, "{s:?}");
    }
}

#[test]
fn trim_matches_std() {
    for s in ["", "  ", " a ", "\u{3000}x\u{a0}", "a b", "\t\r\n a\n"] {
        assert_eq!(trimmed(s), s.trim());
    }
}

#[test]
fn byte_length_threshold() {
    for s in ["", "abc", "é", "中", "😀", "éé", "aaaaaa"] {
        for n in 0..8 {
            assert_eq!(utf8_len_at_least(s, n), s.len() >= n, "{s:?} {n}");
        }
    }
}

#[test]
fn text_equality() {
    assert!(str_equals("start", "start"));
    assert!(!str_equals("start", "--start"));
    assert!(str_equals("", ""));
    assert!(!str_equals("é", "e"));
}

#[test]
fn blank_texts() {
    assert!(beebotos_launcher::text::is_blank(""));
    assert!(beebotos_launcher::text::is_blank(" \t\u{3000}\n"));
    assert!(!beebotos_launcher::text::is_blank(" k "));
}
