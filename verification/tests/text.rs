use appender::decimal::{is_unsigned, read_digits, read_signed, read_unsigned};
use appender::search::_find_subsequence;
use appender::text::{is_space, same_trimmed, to_chars, trim_bounds, trimmed};

fn chars(s: &str) -> Vec<char> {
    s.chars().collect()
}

#[test]
fn to_chars_gives_each_character() {
    assert_eq!(to_chars(""), Vec::<char>::new());
    assert_eq!(to_chars("abc"), vec!['a', 'b', 'c']);
    assert_eq!(to_chars("é日\u{10FFFF}"), vec!['é', '日', '\u{10FFFF}']);
}

#[test]
fn is_space_is_the_white_space_of_the_standard_library() {
    for code in 0u32..=0x11_0000 {
        if let Some(c) = char::from_u32(code) {
            assert_eq!(is_space(c), c.is_whitespace(), "U+{:04X}", code);
        }
    }
}

#[test]
fn trim_bounds_agrees_with_trim() {
    let cases = [
        "",
        " ",
        "   \t\n",
        "a",
        " a",
        "a ",
        "  a b  ",
        "\u{3000}id\u{2003}",
        "\u{85}\u{A0}x\u{1680}\u{2028}\u{2029}\u{202F}\u{205F}",
        "no-space",
        " \u{200B} ",
    ];
    for case in cases {
        let cs = chars(case);
        let (a, b) = trim_bounds(&cs);
        let got: String = cs[a..b].iter().collect();
        assert_eq!(got, case.trim(), "{:?}", case);
    }
    assert_eq!(trim_bounds(&chars("  ab ")), (2, 4));
    assert_eq!(trim_bounds(&chars("   ")), (3, 3));
    assert_eq!(trim_bounds(&chars("")), (0, 0));
}

#[test]
fn trimmed_agrees_with_trim() {
    for case in ["", " ", " a ", "\u{3000}é\u{2003}日本\t", "a b", "\n\n"] {
        assert_eq!(trimmed(case), case.trim(), "{:?}", case);
    }
    assert_eq!(trimmed("  resource.bin \r\n"), "resource.bin");
}

#[test]
fn same_trimmed_compares_what_is_left() {
    assert!(same_trimmed(&chars(" abc "), &chars("abc")));
    assert!(same_trimmed(&chars(""), &chars("  ")));
    assert!(!same_trimmed(&chars("abc"), &chars("abd")));
    assert!(!same_trimmed(&chars("abc"), &chars("ab")));
    assert!(!same_trimmed(&chars("a bc"), &chars("abc")));
}

#[test]
fn read_digits_reads_a_number() {
    let cs = chars("x0123456789y");
    assert_eq!(read_digits(&cs, 1, 11, u64::MAX), Some(123_456_789));
    assert_eq!(read_digits(&cs, 1, 11, 123_456_789), Some(123_456_789));
    assert_eq!(read_digits(&cs, 1, 11, 123_456_788), None);
    assert_eq!(read_digits(&cs, 1, 1, u64::MAX), None);
    assert_eq!(read_digits(&cs, 0, 11, u64::MAX), None);
    assert_eq!(read_digits(&cs, 1, 12, u64::MAX), None);
    assert_eq!(read_digits(&chars("18446744073709551615"), 0, 20, u64::MAX), Some(u64::MAX));
    assert_eq!(read_digits(&chars("18446744073709551616"), 0, 20, u64::MAX), None);
    assert_eq!(read_digits(&chars("99999999999999999999999"), 0, 23, u64::MAX), None);
}

#[test]
fn read_unsigned_agrees_with_parse() {
    let cases = [
        "", "0", "27", "0000000000027", "+27", "+", "-27", "-0", "++1", "+-1", " 27", "27 ",
        "2 7", "1e3", "0x10", "١٢", "18446744073709551615", "18446744073709551616",
        "000000000000000000000000000001",
    ];
    for case in cases {
        let cs = chars(case);
        assert_eq!(
            read_unsigned(&cs, 0, cs.len(), u64::MAX),
            case.parse::<u64>().ok(),
            "{:?}",
            case
        );
        assert_eq!(
            read_unsigned(&cs, 0, cs.len(), u32::MAX as u64),
            case.parse::<u32>().ok().map(|n| n as u64),
            "{:?}",
            case
        );
    }
}

#[test]
fn is_unsigned_tells_numbers_of_any_size() {
    for (case, expected) in [
        ("", false),
        ("0", true),
        ("+0", true),
        ("+", false),
        ("-1", false),
        ("12a", false),
        ("99999999999999999999999999999999", true),
    ] {
        let cs = chars(case);
        assert_eq!(is_unsigned(&cs, 0, cs.len()), expected, "{:?}", case);
    }
}

#[test]
fn read_signed_agrees_with_parse() {
    let cases = [
        "", "0", "-0", "+0", "1", "-1", "+1", "007", "-007", "2147483647", "2147483648",
        "-2147483648", "-2147483649", "+2147483647", "-", "+", "--1", "-+1", "+-1", " 1", "1 ",
        "1.0", "a", "99999999999999999999",
    ];
    for case in cases {
        let cs = chars(case);
        assert_eq!(read_signed(&cs, 0, cs.len()), case.parse::<i32>().ok(), "{:?}", case);
    }
    let cs = chars("1.-20.3");
    assert_eq!(read_signed(&cs, 2, 5), Some(-20));
}

#[test]
fn find_subsequence_finds_the_first_place() {
    assert_eq!(_find_subsequence(b"foo bar baz", b"foo"), Some(0));
    assert_eq!(_find_subsequence(b"foo bar baz", b"bar"), Some(4));
    assert_eq!(_find_subsequence(b"foo bar baz", b"ba"), Some(4));
    assert_eq!(_find_subsequence(b"foo bar baz", b"baz"), Some(8));
    assert_eq!(_find_subsequence(b"foo bar baz", b"quux"), None);
    assert_eq!(_find_subsequence(b"ab", b"abc"), None);
    assert_eq!(_find_subsequence(b"", b"a"), None);
    assert_eq!(_find_subsequence(b"aaab", b"aab"), Some(1));
    assert_eq!(_find_subsequence(b"abc", b"abc"), Some(0));
    assert_eq!(_find_subsequence(b"abc", b""), Some(0));
    assert_eq!(_find_subsequence(b"", b""), Some(0));
}

#[test]
fn find_subsequence_agrees_with_the_searcher() {
    let hay = b"the quick brown fox jumps over the lazy dog, the end";
    for needle in [&b"the"[..], b"fox", b"dog,", b" ", b"end", b"cat", b"the end", b"t", b""] {
        assert_eq!(_find_subsequence(hay, needle), memchr::memmem::find(hay, needle));
    }
}
