use warc_curator::chars::{blank, to_chars, to_string, trim, whitespace, words};
use warc_curator::decimal::{parse_unsigned, push_decimal};
use warc_curator::split::{contains, find, join, lines, split, split_str};

fn chars(s: &str) -> Vec<char> {
    s.chars().collect()
}

fn strings(v: Vec<Vec<char>>) -> Vec<String> {
    v.into_iter().map(|p| p.into_iter().collect()).collect()
}

#[test]
fn chars_and_string_round_trip() {
    let text = "abc 日本語 \u{1F600}";
    assert_eq!(to_chars(text), chars(text));
    assert_eq!(to_string(&chars(text)), text);
    assert_eq!(to_chars(""), Vec::<char>::new());
}

#[test]
fn whitespace_agrees_with_std_on_every_char() {
    let mut code: u32 = 0;
    while code <= 0x10FFFF {
        if let Some(c) = char::from_u32(code) {
            assert_eq!(whitespace(c), c.is_whitespace(), "U+{:04X}", code);
        }
        code += 1;
    }
}

#[test]
fn trim_agrees_with_std() {
    for text in ["", " ", "  a  ", "a", "\t\r\n x y \u{3000}", "\u{a0}z", "no space", " \n "] {
        let v = chars(text);
        let got: String = trim(&v).iter().collect();
        assert_eq!(got, text.trim(), "{:?}", text);
        assert_eq!(blank(&v), text.trim().is_empty(), "{:?}", text);
    }
}

#[test]
fn words_agree_with_std() {
    for text in ["", "   ", "one", " one  two\tthree\n", "HTTP/1.1 200 OK", "a\u{3000}b"] {
        let expected: Vec<String> = text.split_whitespace().map(|w| w.to_string()).collect();
        assert_eq!(strings(words(&chars(text))), expected, "{:?}", text);
    }
}

#[test]
fn lines_agree_with_std() {
    for text in ["", "\n", "a", "a\n", "a\nb", "a\r\nb\r\n", "a\n\nb", "x\r", "x\r\ny\r", "\r\n\r\n"] {
        let expected: Vec<String> = text.lines().map(|l| l.to_string()).collect();
        assert_eq!(strings(lines(&chars(text))), expected, "{:?}", text);
    }
}

#[test]
fn split_agrees_with_std() {
    for text in ["", "。", "a。b", "a。", "。a", "a。。b", "no stop"] {
        let expected: Vec<String> = text.split('。').map(|l| l.to_string()).collect();
        assert_eq!(strings(split(&chars(text), '。')), expected, "{:?}", text);
    }
    assert_eq!(find(&chars("a:b:c"), ':', 0), 1);
    assert_eq!(find(&chars("a:b:c"), ':', 2), 3);
    assert_eq!(find(&chars("abc"), ':', 0), 3);
}

#[test]
fn split_str_agrees_with_std() {
    for text in ["", "a\n\n\nb", "\n\n\n", "a\n\n\n\nb", "a\n\nb", "x\n\n\n\n\n\ny\n\n\n"] {
        let expected: Vec<String> = text.split("\n\n\n").map(|l| l.to_string()).collect();
        assert_eq!(strings(split_str(&chars(text), &chars("\n\n\n"))), expected, "{:?}", text);
    }
}

#[test]
fn join_agrees_with_std() {
    let parts = vec![chars("a"), chars(""), chars("bc")];
    assert_eq!(to_string(&join(&parts, &chars("\n"))), "a\n\nbc");
    assert_eq!(to_string(&join(&Vec::new(), &chars("\n"))), "");
    assert_eq!(to_string(&join(&vec![chars("solo")], &chars(", "))), "solo");
}

#[test]
fn contains_agrees_with_std() {
    for (hay, needle) in [("", ""), ("abc", ""), ("abc", "bc"), ("abc", "cb"), ("abc", "abcd"), ("ログイン画面", "ログイン"), ("aab", "ab")] {
        assert_eq!(contains(&chars(hay), &chars(needle)), hay.contains(needle), "{:?} {:?}", hay, needle);
    }
}

#[test]
fn parse_unsigned_agrees_with_std() {
    for text in ["", "+", "-", "0", "+0", "007", "200", "65535", "65536", "+65535", "-1", "1a", " 1", "1 ", "99999999999999999999", "２００"] {
        let expected: Option<u64> = text.parse::<u16>().ok().map(|n| n as u64);
        assert_eq!(parse_unsigned(&chars(text), 65535), expected, "{:?}", text);
    }
    for text in ["18446744073709551615", "18446744073709551616", "+18446744073709551615", "0000000000000000000001"] {
        let expected: Option<u64> = text.parse::<u64>().ok();
        assert_eq!(parse_unsigned(&chars(text), u64::MAX), expected, "{:?}", text);
    }
}

#[test]
fn push_decimal_writes_the_digits() {
    for n in [0u64, 7, 10, 99, 100, 12345, u64::MAX] {
        let mut out = chars("n=");
        push_decimal(&mut out, n);
        assert_eq!(to_string(&out), format!("n={}", n));
    }
}
