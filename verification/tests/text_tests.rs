use arch_installer::order::{lex_less, sort_lex, sorted_strings, sorted_unique};
use arch_installer::text::{
    chars_of, contains, ends_with, is_whitespace, join_with, lines_of, starts_with,
    strip_leading_char, strip_prefix_all, strip_trailing_char, strip_trailing_digit_chars,
    string_of, trim_start_chars, trimmed, words_of,
};

fn cs(x: &str) -> Vec<char> {
    x.chars().collect()
}

fn strings(v: Vec<Vec<char>>) -> Vec<String> {
    v.into_iter().map(|c| c.into_iter().collect()).collect()
}

const SAMPLES: &[&str] = &[
    "",
    "\n",
    "\n\n",
    "a",
    "a\n",
    "a\nb",
    "a\r\nb\r\n",
    "a\r",
    "a\r\r\n\rb",
    "foo\nbar\n\r\nbaz\r",
    "  x  y\t\tz \u{3000}w\u{85}",
    "\u{2028}lead\u{a0}and trail\u{202f}",
    " \t ",
    "ä ö\nü",
];

#[test]
fn whitespace_matches_std_everywhere() {
    for u in 0u32..=0x10FFFF {
        if let Some(c) = char::from_u32(u) {
            assert_eq!(is_whitespace(c), c.is_whitespace(), "{u:#x}");
        }
    }
}

#[test]
fn lines_match_std() {
    for s in SAMPLES {
        let expected: Vec<String> = s.lines().map(String::from).collect();
        assert_eq!(strings(lines_of(&cs(s))), expected, "{s:?}");
    }
}

#[test]
fn words_match_std() {
    for s in SAMPLES {
        let expected: Vec<String> = s.split_whitespace().map(String::from).collect();
        assert_eq!(strings(words_of(&cs(s))), expected, "{s:?}");
    }
}

#[test]
fn trims_match_std() {
    for s in SAMPLES {
        assert_eq!(trimmed(s), cs(s.trim()), "{s:?}");
        assert_eq!(trim_start_chars(&cs(s)), cs(s.trim_start()), "{s:?}");
    }
}

#[test]
fn strips_match_std() {
    for s in ["##a#", "a##", "", "#", "x12p3", "abc123", "nvme0n1pp", "MODULES=MODULES=x", "MODULES"] {
        assert_eq!(strip_leading_char(&cs(s), '#'), cs(s.trim_start_matches('#')));
        assert_eq!(strip_trailing_char(&cs(s), 'p'), cs(s.trim_end_matches('p')));
        assert_eq!(
            strip_trailing_digit_chars(&cs(s)),
            cs(s.trim_end_matches(|c: char| c.is_ascii_digit()))
        );
        assert_eq!(strip_prefix_all(&cs(s), &cs("MODULES=")), cs(s.trim_start_matches("MODULES=")));
    }
}

#[test]
fn affixes_match_std() {
    let pairs = [("abc", "ab"), ("abc", "bc"), ("abc", ""), ("", "a"), ("abc", "abcd"), ("xnvmey", "nvme")];
    for (s, p) in pairs {
        assert_eq!(starts_with(&cs(s), &cs(p)), s.starts_with(p));
        assert_eq!(ends_with(&cs(s), &cs(p)), s.ends_with(p));
        assert_eq!(contains(&cs(s), &cs(p)), s.contains(p));
    }
}

#[test]
fn join_matches_std() {
    let parts = ["a", "", "bc"];
    let v: Vec<Vec<char>> = parts.iter().map(|p| cs(p)).collect();
    assert_eq!(join_with(&v, &cs(", ")), cs(&parts.join(", ")));
    assert_eq!(join_with(&vec![], &cs(",")), Vec::<char>::new());
    assert_eq!(string_of(&chars_of("çay")), "çay");
}

#[test]
fn order_matches_std() {
    let words = ["", "a", "b", "ab", "B", "ä", "z", "aa", "a\u{10000}", "a\u{ffff}"];
    for x in words {
        for y in words {
            assert_eq!(lex_less(&cs(x), &cs(y)), x < y, "{x:?} {y:?}");
        }
    }
    let mut expected: Vec<String> = words.iter().map(|w| w.to_string()).collect();
    expected.sort();
    let input: Vec<Vec<char>> = words.iter().rev().map(|w| cs(w)).collect();
    assert_eq!(strings(sort_lex(input)), expected);
}

#[test]
fn sort_and_dedup_strings() {
    let v: Vec<String> = ["b", "a", "b", "c", "a"].iter().map(|s| s.to_string()).collect();
    assert_eq!(sorted_strings(&v), vec!["a", "a", "b", "b", "c"]);
    assert_eq!(sorted_unique(&v), vec!["a", "b", "c"]);
}
