use fds::order::{sort, sort_dedup};
use fds::text::{
    find, lines, parse_i32, parse_u32, parse_u64, parse_usize, push_num, split, split_once,
    split_whitespace, string_of, to_ascii_lowercase, to_ascii_uppercase, to_chars, trim,
};

fn chars(s: &str) -> Vec<char> {
    s.chars().collect()
}

fn back(v: Vec<&[char]>) -> Vec<String> {
    v.into_iter().map(string_of).collect()
}

#[test]
fn text_helpers_agree_with_the_standard_library() {
    let samples = [
        "", " ", "a", " a b ", "\u{3000}x\u{2028}", "one,two,,", "k : v : w", "a\r\nb\n\nc\r", "\n",
        "tab\tend\n", "+12", "-7", "007", "18446744073709551615", "18446744073709551616", "12x",
        "4294967296", "-2147483648", "2147483648", "+", "-", "ÄbC", "MiB",
    ];
    for s in samples {
        let c = chars(s);
        assert_eq!(to_chars(s), c);
        assert_eq!(string_of(&c), s);
        assert_eq!(string_of(trim(&c)), s.trim());
        assert_eq!(back(lines(&c)), s.lines().collect::<Vec<_>>());
        assert_eq!(back(split(&c, ',')), s.split(',').collect::<Vec<_>>());
        assert_eq!(back(split_whitespace(&c)), s.split_whitespace().collect::<Vec<_>>());
        assert_eq!(
            split_once(&c, ':').map(|(a, b)| (string_of(a), string_of(b))),
            s.split_once(':').map(|(a, b)| (a.to_string(), b.to_string()))
        );
        assert_eq!(string_of(&to_ascii_lowercase(&c)), s.to_ascii_lowercase());
        assert_eq!(string_of(&to_ascii_uppercase(&c)), s.to_ascii_uppercase());
        assert_eq!(parse_u64(&c), s.parse().ok());
        assert_eq!(parse_u32(&c), s.parse().ok());
        assert_eq!(parse_usize(&c), s.parse().ok());
        assert_eq!(parse_i32(&c), s.parse().ok());
        assert_eq!(find(&c, 'b'), c.iter().position(|x| *x == 'b').unwrap_or(c.len()));
    }
}

#[test]
fn numbers_survive_writing_and_reading() {
    for n in [0u64, 9, 10, 99, 100, 123_456_789, u64::MAX] {
        let mut s = String::new();
        push_num(&mut s, n);
        assert_eq!(s, n.to_string());
        assert_eq!(parse_u64(&chars(&s)), Some(n));
    }
}

#[test]
fn every_whitespace_character_is_known() {
    for x in 0..0x11_0000u32 {
        if let Some(c) = char::from_u32(x) {
            assert_eq!(fds::text::is_white(c), c.is_whitespace(), "{x:#x}");
        }
    }
}

#[test]
fn sorting_matches_the_standard_library() {
    let v: Vec<String> = ["b", "", "a", "ab", "é", "b", "Z", "a"].iter().map(|s| s.to_string()).collect();
    let mut expected = v.clone();
    expected.sort();
    assert_eq!(sort(&v), expected);
    expected.dedup();
    assert_eq!(sort_dedup(&v), expected);
}
