//! Cutting text up agrees with what std does.

use srvaudit::text::{lines, space, split, trim, words};

fn chars(s: &str) -> Vec<char> {
    s.chars().collect()
}

fn back(v: Vec<&[char]>) -> Vec<String> {
    v.iter().map(|p| p.iter().collect()).collect()
}

const SAMPLES: [&str; 14] = [
    "",
    " ",
    "\n",
    "\r\n",
    "one",
    "one two",
    "  one \t two  ",
    "a\nb\n",
    "a\r\nb\r\n\r\nc",
    "a\rb\n\rc",
    "a\n\nb",
    "\u{a0}wide\u{2003}space\u{3000}",
    "é ü\u{85}ß",
    "a:b::c:",
];

#[test]
fn white_space_is_what_std_says() {
    for u in 0..=0x10ffffu32 {
        if let Some(c) = char::from_u32(u) {
            assert_eq!(space(c), c.is_whitespace(), "{u:x}");
        }
    }
}

#[test]
fn lines_are_what_std_says() {
    for s in SAMPLES {
        let expect: Vec<String> = s.lines().map(String::from).collect();
        assert_eq!(back(lines(&chars(s))), expect, "{s:?}");
    }
}

#[test]
fn words_are_what_std_says() {
    for s in SAMPLES {
        let expect: Vec<String> = s.split_whitespace().map(String::from).collect();
        assert_eq!(back(words(&chars(s))), expect, "{s:?}");
    }
}

#[test]
fn pieces_are_what_std_says() {
    for s in SAMPLES {
        let expect: Vec<String> = s.split(':').map(String::from).collect();
        assert_eq!(back(split(&chars(s), ':')), expect, "{s:?}");
    }
}

#[test]
fn trimming_is_what_std_says() {
    for s in SAMPLES {
        let t: String = trim(&chars(s)).iter().collect();
        assert_eq!(t, s.trim(), "{s:?}");
    }
}
