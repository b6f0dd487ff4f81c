use advent2022::number::{parse_i32, parse_i64, parse_isize, parse_u32, parse_usize};
use advent2022::text::{
    begins_with, chars_of, cut, find, has, split_lines, split_on, split_words, trimmed,
    without_suffix,
};

fn chars(s: &str) -> Vec<char> {
    s.chars().collect()
}

fn strings(v: Vec<Vec<char>>) -> Vec<String> {
    v.into_iter().map(|p| p.into_iter().collect()).collect()
}

#[test]
fn characters_of_a_string() {
    assert_eq!(chars_of("a\u{e9}z"), vec!['a', '\u{e9}', 'z']);
    assert_eq!(chars_of(""), Vec::<char>::new());
}

#[test]
fn splitting_as_the_standard_library_does() {
    for (text, pat) in [
        ("a,b,,c", ","),
        ("", ","),
        (",", ","),
        ("a->b -> c", "->"),
        ("aaa", "aa"),
        ("no match", "xyz"),
        ("abab", "ab"),
    ] {
        let expected = text.split(pat).map(|s| s.to_string()).collect::<Vec<_>>();
        assert_eq!(strings(split_on(&chars(text), pat)), expected, "{:?} {:?}", text, pat);
    }
}

#[test]
fn words_as_the_standard_library_does() {
    for text in ["", "  ", "a", " a  b\tc\n", "$ cd /", "\u{a0}x\u{2003}y\u{3000}", "x\u{200b}y"] {
        let expected = text.split_whitespace().map(|s| s.to_string()).collect::<Vec<_>>();
        assert_eq!(strings(split_words(&chars(text))), expected, "{:?}", text);
    }
}

#[test]
fn trimming_as_the_standard_library_does() {
    for text in ["", "   ", " a b ", "\t\nab\r\n", "ab", "\u{85}x\u{1680}"] {
        let got: String = trimmed(&chars(text)).into_iter().collect();
        assert_eq!(got, text.trim(), "{:?}", text);
    }
}

#[test]
fn lines_as_the_standard_library_does() {
    for text in ["", "a", "a\n", "a\nb", "a\r\nb\r\n", "\n", "\n\n", "a\n\nb\n", "a\rb\n", "a\r"] {
        let expected = text.lines().map(|s| s.to_string()).collect::<Vec<_>>();
        assert_eq!(strings(split_lines(&chars(text))), expected, "{:?}", text);
    }
}

#[test]
fn searching_as_the_standard_library_does() {
    for (text, pat) in [("hello", "l"), ("hello", "lo"), ("hello", "x"), ("", "a"), ("aab", "ab")] {
        assert_eq!(find(&chars(text), &chars(pat)), text.find(pat), "{:?} {:?}", text, pat);
        assert_eq!(has(&chars(text), pat), text.contains(pat));
        assert_eq!(begins_with(&chars(text), pat), text.starts_with(pat));
        let once = cut(&chars(text), pat)
            .map(|(a, b)| (a.into_iter().collect::<String>(), b.into_iter().collect::<String>()));
        let expected = text.split_once(pat).map(|(a, b)| (a.to_string(), b.to_string()));
        assert_eq!(once, expected);
        let stripped = without_suffix(&chars(text), pat).map(|a| a.into_iter().collect::<String>());
        assert_eq!(stripped, text.strip_suffix(pat).map(|a| a.to_string()));
    }
}

#[test]
fn numbers_as_the_standard_library_reads_them() {
    for text in [
        "0", "7", "-7", "+7", "007", "-0", "", "-", "+", "--1", "1a", " 1", "2147483647",
        "2147483648", "-2147483648", "-2147483649", "4294967295", "4294967296",
        "9223372036854775807", "9223372036854775808", "-9223372036854775808",
        "-9223372036854775809", "18446744073709551615", "18446744073709551616",
        "000000000000000000000000000000000000001", "99999999999999999999999999999999999",
        "\u{0663}",
    ] {
        let cs = chars(text);
        assert_eq!(parse_i32(&cs), text.parse::<i32>().ok(), "{:?}", text);
        assert_eq!(parse_i64(&cs), text.parse::<i64>().ok(), "{:?}", text);
        assert_eq!(parse_isize(&cs), text.parse::<isize>().ok(), "{:?}", text);
        assert_eq!(parse_u32(&cs), text.parse::<u32>().ok(), "{:?}", text);
        assert_eq!(parse_usize(&cs), text.parse::<usize>().ok(), "{:?}", text);
    }
}
