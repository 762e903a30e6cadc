//! Text functions against those of the standard library.
use dlog::text::{
    before, decimal, decimal_i64, find, is_whitespace, join, lines, parse_i64, parse_u32, replace, rfind,
    rsplit_once, split, split_once, split_whitespace, trim, trim_end, trim_start,
};

const SAMPLES: [&str; 14] = [
    "",
    " ",
    "a",
    " a b ",
    "a\nb",
    "a\r\nb\r",
    "\n\n",
    "a\n",
    "x-y--z",
    "::a::b::",
    "\u{3000}wide\u{85}",
    "\u{e4}\u{1f600}",
    "a/b//c/",
    "\"q\"",
];

#[test]
fn white_space_is_that_of_std() {
    for n in 0..=0x10ffffu32 {
        if let Some(c) = char::from_u32(n) {
            assert_eq!(is_whitespace(c), c.is_whitespace(), "{n:x}");
        }
    }
}

#[test]
fn splitting_and_trimming_are_those_of_std() {
    for s in SAMPLES {
        assert_eq!(trim(s), s.trim());
        assert_eq!(trim_start(s), s.trim_start());
        assert_eq!(trim_end(s), s.trim_end());
        assert_eq!(split_whitespace(s), s.split_whitespace().collect::<Vec<_>>());
        assert_eq!(lines(s), s.lines().collect::<Vec<_>>(), "{s:?}");
        assert_eq!(split(s, '-'), s.split('-').collect::<Vec<_>>());
        assert_eq!(split(s, '/'), s.split('/').collect::<Vec<_>>());
        assert_eq!(replace(s, '"', "\"\""), s.replace('"', "\"\""));
        for sep in ["::", "-", "\n", "--", ":"] {
            let owned = |(a, b): (&str, &str)| (a.to_string(), b.to_string());
            assert_eq!(split_once(s, sep), s.split_once(sep).map(owned));
            assert_eq!(rsplit_once(s, sep), s.rsplit_once(sep).map(owned));
            assert_eq!(find(s, sep).is_some(), s.contains(sep));
        }
        for t in SAMPLES {
            assert_eq!(before(s, t), s < t, "{s:?} {t:?}");
        }
    }
    assert_eq!(find("aXbX", "X"), Some(1));
    assert_eq!(rfind("aXbX", "X"), Some(3));
    assert_eq!(find("ab", ""), Some(0));
    assert_eq!(rfind("ab", ""), Some(2));
    assert_eq!(join(&vec!["a".into(), "".into(), "b".into()], ", "), "a, , b");
}

#[test]
fn numbers_are_those_of_std() {
    let texts = [
        "0", "7", "+7", "-7", "-", "+", "", "00012", "4294967295", "4294967296", "1 ", "0x1",
        "9223372036854775807", "9223372036854775808", "-9223372036854775808", "-9223372036854775809",
        "99999999999999999999999", "\u{661}",
    ];
    for s in texts {
        assert_eq!(parse_u32(s), s.parse::<u32>().ok(), "{s}");
        assert_eq!(parse_i64(s), s.parse::<i64>().ok(), "{s}");
    }
    for n in [0u64, 9, 10, 1234567890, u64::MAX] {
        assert_eq!(decimal(n), n.to_string());
    }
    for n in [0i64, -1, 42, i64::MAX, i64::MIN] {
        assert_eq!(decimal_i64(n), n.to_string());
    }
}
