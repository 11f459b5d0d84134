use gyroflow_bench::text::{
    contains, decimal, find, lines, pad_left, pad_right, precedes, starts_with, string_of, trim,
};

#[test]
fn trimming_agrees_with_std() {
    for s in ["", " ", "a", " a b ", "\u{a0}x\u{3000}", "\u{200b}y\u{200b}", "\t\u{85}\u{2028}z\n\r"] {
        assert_eq!(trim(s), s.trim());
    }
    for c in (0..0x11_0000u32).filter_map(char::from_u32) {
        if c.is_whitespace() || (c as u32) < 0x4000 {
            let s = c.to_string();
            assert_eq!(trim(&s), s.trim());
        }
    }
}

#[test]
fn lines_agree_with_std() {
    for s in ["", "a", "a\n", "a\r\nb", "\n\n", "a\rb\n", "a\r", "\r\n", "a\r\r\nb\r\n"] {
        let ours: Vec<String> = lines(s).iter().map(|l| string_of(l)).collect();
        let theirs: Vec<&str> = s.lines().collect();
        assert_eq!(ours, theirs, "{s:?}");
    }
}

#[test]
fn searching_agrees_with_std() {
    for hay in ["", "aaab", "\u{e9}t\u{e9}", "abcabd"] {
        for needle in ["", "a", "aab", "abd", "t\u{e9}", "x"] {
            assert_eq!(contains(hay, needle), hay.contains(needle));
            assert_eq!(starts_with(hay, needle), hay.starts_with(needle));
        }
    }
}

#[test]
fn padding_agrees_with_std() {
    for s in ["", "ab", "\u{e9}\u{e9}", "longer than eight"] {
        assert_eq!(pad_right(s, 8), format!("{s:<8}"));
        assert_eq!(pad_left(s, 8), format!("{s:>8}"));
    }
}

#[test]
fn decimals_agree_with_std() {
    for n in [0usize, 9, 10, 99, 100, 12345, usize::MAX] {
        assert_eq!(decimal(n), n.to_string());
    }
}

#[test]
fn dictionary_order_agrees_with_std() {
    let words: [&[u8]; 6] = [b"", b"a", b"ab", b"b", b"a\xff", b"\xff"];
    for a in words {
        for b in words {
            assert_eq!(precedes(a, b), a < b);
        }
    }
}

#[test]
fn the_first_occurrence_is_found() {
    let chars = |s: &str| s.chars().collect::<Vec<char>>();
    assert_eq!(find(&chars("abcabc"), &chars("bc"), 0), Some(1));
    assert_eq!(find(&chars("abcabc"), &chars("bc"), 2), Some(4));
    assert_eq!(find(&chars("abcabc"), &chars("bc"), 5), None);
    assert_eq!(find(&chars("ab"), &chars(""), 2), Some(2));
    assert_eq!(find(&chars("ab"), &chars(""), 3), None);
}

#[test]
fn trimming_twice_changes_nothing() {
    assert_eq!(trim(&trim(" \n a b\u{a0}")), trim(" \n a b\u{a0}"));
}
