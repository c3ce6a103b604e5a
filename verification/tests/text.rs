use aioc::text::{
    chars_of, control, copy_range, join_words, lines, parse_u16, push_decimal, push_padded,
    same_text, split, split_whitespace, string_of, text_before, trim, whitespace,
};

fn owned(parts: &[&str]) -> Vec<String> {
    parts.iter().map(|p| p.to_string()).collect()
}

#[test]
fn characters_and_back() {
    let chars = chars_of("a\u{e9}z");
    assert_eq!(chars, vec!['a', '\u{e9}', 'z']);
    assert_eq!(string_of(&chars, 1, 3), "\u{e9}z");
    assert_eq!(string_of(&chars, 2, 2), "");
}

#[test]
fn texts_are_compared() {
    assert!(same_text("ls", "ls"));
    assert!(!same_text("ls", "lsx"));
    assert!(!same_text("ls", "lt"));
    assert!(text_before("a", "b"));
    assert!(text_before("a", "ab"));
    assert!(!text_before("b", "ab"));
    assert!(!text_before("a", "a"));
}

#[test]
fn text_order_is_the_order_of_strings() {
    let words = ["", "A", "a", "aa", "ab", "b", "\u{e9}", "\u{ff}", "\u{4e00}", "\u{1f600}"];
    for x in words {
        for y in words {
            assert_eq!(text_before(x, y), x < y, "{x} {y}");
        }
    }
}

#[test]
fn character_classes() {
    for n in 0..0x3100u32 {
        if let Some(c) = char::from_u32(n) {
            assert_eq!(whitespace(c), c.is_whitespace(), "{n:x}");
            assert_eq!(control(c), c.is_control(), "{n:x}");
        }
    }
}

#[test]
fn words_between_spaces() {
    for s in ["", "  ", "ls", " ls  -a\t/x\n", "a\u{3000}b", "one two"] {
        let std_words: Vec<String> = s.split_whitespace().map(|w| w.to_string()).collect();
        assert_eq!(split_whitespace(s), std_words);
    }
}

#[test]
fn splitting_and_joining_undo_each_other() {
    for s in ["", "/", "/a//b/", "a/b", "x"] {
        let parts: Vec<String> = s.split('/').map(|w| w.to_string()).collect();
        assert_eq!(split(s, '/'), parts);
    }
    let words = owned(&["write", "hello", "wide", "world"]);
    assert_eq!(join_words(&words, 1), "hello wide world");
    assert_eq!(join_words(&words, 4), "");
    assert_eq!(split(&join_words(&words, 0), ' '), words);
}

#[test]
fn trimming() {
    for s in ["", "  ", " a b ", "\u{2003}x\n"] {
        assert_eq!(trim(s), s.trim());
    }
}

#[test]
fn lines_of_a_text() {
    for s in ["", "\n", "a", "a\n", "a\r\nb\n\nc", "\r", "a\rb\r\n", "x\r\r\n"] {
        let std_lines: Vec<String> = s.lines().map(|l| l.to_string()).collect();
        assert_eq!(lines(s), std_lines, "{s:?}");
    }
}

#[test]
fn decimal_numbers() {
    for n in [0u64, 7, 10, 99, 100, 65535, u64::MAX] {
        let mut s = String::from("n=");
        push_decimal(&mut s, n);
        assert_eq!(s, format!("n={n}"));
        assert_eq!(s[2..].parse::<u64>(), Ok(n));
    }
}

#[test]
fn padded_numbers() {
    let mut s = String::new();
    push_padded(&mut s, 7, 2, '0');
    push_padded(&mut s, 7, 2, ' ');
    push_padded(&mut s, 123, 2, '0');
    assert_eq!(s, "07 7123");
}

#[test]
fn ports_are_parsed_like_numbers() {
    let cases = [
        "", "0", "80", "8080", "65535", "65536", "99999", "-1", "+1", "+", "-", "007", "1a", " 1",
        "00000000000000000001", "\u{661}",
    ];
    for s in cases {
        assert_eq!(parse_u16(s), s.parse::<u16>().ok(), "{s:?}");
    }
}

#[test]
fn a_range_of_bytes() {
    assert_eq!(copy_range(&[1, 2, 3, 4], 1, 3), vec![2, 3]);
    assert_eq!(copy_range(&[1, 2, 3, 4], 4, 4), Vec::<u8>::new());
}
