use blkspeed::number::{number, parse_unsigned};
use blkspeed::text::{
    align_right, is_before, is_space, join, pad, rsplit_once, split, split_lines, split_once, split_words, starts_with,
    strip_leading, strip_prefix, strip_trailing, to_lower, trim,
};

const TEXTS: [&str; 24] = [
    "", " ", "a", " a ", "a b", "a  b ", "\ta\u{a0}b\u{3000}", "a,b,,c", ",", ",,", "a\nb", "a\r\nb\r\n", "\n", "a\n\nb",
    "a\r", "é—x", "rrdisk", "r", "((a)))", "a on b on c", "x (y) (z)", "aaa", "\u{85}x\u{2028}", "Zebra",
];

fn owned(parts: Vec<&str>) -> Vec<String> {
    parts.into_iter().map(|s| s.to_string()).collect()
}

fn pair(p: Option<(&str, &str)>) -> Option<(String, String)> {
    p.map(|(a, b)| (a.to_string(), b.to_string()))
}

#[test]
fn texts_are_cut_as_the_standard_library_does() {
    for s in TEXTS {
        assert_eq!(trim(s), s.trim());
        assert_eq!(split(s, ','), owned(s.split(',').collect()));
        assert_eq!(split_words(s), owned(s.split_whitespace().collect()));
        assert_eq!(split_lines(s), owned(s.lines().collect()));
        assert_eq!(strip_leading(s, 'r'), s.trim_start_matches('r'));
        assert_eq!(strip_trailing(s, ')'), s.trim_end_matches(')'));
        for p in [" on ", " (", "=", "a", "aa", "b"] {
            assert_eq!(split_once(s, p), pair(s.split_once(p)));
            assert_eq!(rsplit_once(s, p), pair(s.rsplit_once(p)));
            assert_eq!(starts_with(s, p), s.starts_with(p));
            assert_eq!(strip_prefix(s, p), s.strip_prefix(p).map(|t| t.to_string()));
        }
        for w in [0usize, 1, 3, 9] {
            assert_eq!(pad(s, w), format!("{:<1$}", s, w));
            assert_eq!(align_right(s, w), format!("{:>1$}", s, w));
        }
        for t in TEXTS {
            assert_eq!(is_before(s, t), s < t, "{:?} {:?}", s, t);
        }
    }
}

#[test]
fn white_space_is_that_of_unicode() {
    for n in 0..0x11_0000u32 {
        if let Some(c) = char::from_u32(n) {
            assert_eq!(is_space(c), c.is_whitespace(), "{:x}", n);
        }
    }
    for c in ['A', 'Z', 'a', 'É', '1', '['] {
        assert_eq!(to_lower(c), c.to_ascii_lowercase());
    }
}

#[test]
fn parts_are_joined() {
    let parts = owned(vec!["a", "b", "", "c"]);
    assert_eq!(join(&parts, 0, 4, " "), "a b  c");
    assert_eq!(join(&parts, 1, 2, " "), "b");
    assert_eq!(join(&parts, 2, 2, " "), "");
}

#[test]
fn numbers_are_read_as_the_standard_library_does() {
    for s in ["", "+", "-", "0", "00", "+7", "-7", "12x", " 1", "18446744073709551615", "18446744073709551616", "99999999999999999999999"] {
        assert_eq!(parse_unsigned(s, 10, u64::MAX), s.parse::<u64>().ok(), "{:?}", s);
        assert_eq!(parse_unsigned(s, 10, 255), s.parse::<u8>().ok().map(|v| v as u64), "{:?}", s);
        assert_eq!(parse_unsigned(s, 8, 255), u8::from_str_radix(s, 8).ok().map(|v| v as u64), "{:?}", s);
    }
    for n in [0u64, 9, 10, 1234567890, u64::MAX] {
        assert_eq!(number(n), n.to_string());
    }
}
