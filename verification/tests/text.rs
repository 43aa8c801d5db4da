use vram_booster::text::{
    chars_of, decimal_string, find_first, parse_u32, parse_u64, split_chars, split_lines,
    split_words, string_of, trim_chars,
};

fn samples() -> Vec<&'static str> {
    vec![
        "",
        "\n",
        "\n\n",
        "a",
        "a\n",
        "a\nb",
        "a\r\nb\r\n",
        "a\r",
        "a\r\r\n",
        "\r\n",
        "foo\nbar\n\r\nbaz\r",
        "  drm/x  12 \t 7\n\nsystem\u{a0}3\u{2003}x\n",
        " lead and trail \u{3000}",
        "\u{85}nel\u{2028}ls\u{2029}ps\u{202f}\u{205f}\u{1680}end",
        "tab\tsep\x0bvt\x0cff",
        "unicode é ü 日本 \u{200b}zero-width",
    ]
}

fn to_strings(v: &[Vec<char>]) -> Vec<String> {
    v.iter().map(|c| c.iter().collect()).collect()
}

#[test]
fn split_lines_agrees_with_str_lines() {
    for s in samples() {
        let got = to_strings(&split_lines(&chars_of(s)));
        let want: Vec<String> = s.lines().map(|l| l.to_string()).collect();
        assert_eq!(got, want, "lines of {s:?}");
    }
}

#[test]
fn split_words_agrees_with_split_whitespace() {
    for s in samples() {
        let got = to_strings(&split_words(&chars_of(s)));
        let want: Vec<String> = s.split_whitespace().map(|w| w.to_string()).collect();
        assert_eq!(got, want, "words of {s:?}");
    }
}

#[test]
fn split_chars_agrees_with_str_split() {
    for s in ["", "/", "/a/b", "a//b/", "app.slice"] {
        let got = to_strings(&split_chars(&chars_of(s), '/'));
        let want: Vec<String> = s.split('/').map(|w| w.to_string()).collect();
        assert_eq!(got, want, "pieces of {s:?}");
    }
}

#[test]
fn trim_agrees_with_str_trim() {
    for s in samples() {
        let got: String = trim_chars(&chars_of(s)).iter().collect();
        assert_eq!(got, s.trim(), "trim of {s:?}");
    }
}

#[test]
fn parse_agrees_with_str_parse() {
    let cases = [
        "", "0", "7", "+7", "+", "-0", "-5", "007", "12a", " 1", "1 ",
        "18446744073709551615", "18446744073709551616", "+18446744073709551615",
        "99999999999999999999999", "4294967295", "4294967296", "٣",
    ];
    for s in cases {
        assert_eq!(parse_u64(&chars_of(s)), s.parse::<u64>().ok(), "u64 of {s:?}");
        assert_eq!(parse_u32(&chars_of(s)), s.parse::<u32>().ok(), "u32 of {s:?}");
    }
}

#[test]
fn decimal_agrees_with_to_string() {
    for n in [0u64, 1, 9, 10, 99, 100, 8573157376, u64::MAX] {
        assert_eq!(decimal_string(n), n.to_string());
    }
}

#[test]
fn decimal_is_parsed_back() {
    for n in [0u64, 5, 1234567890, u64::MAX] {
        assert_eq!(parse_u64(&chars_of(&decimal_string(n))), Some(n));
    }
}

#[test]
fn find_first_finds_the_first_occurrence() {
    let s = chars_of("a/app.slice/b/app.slice/c");
    assert_eq!(find_first(&s, &chars_of("/app.slice/")), Some(1));
    assert_eq!(find_first(&s, &chars_of("..")), None);
    assert_eq!(find_first(&s, &chars_of("")), Some(0));
}

#[test]
fn string_of_keeps_the_characters() {
    assert_eq!(string_of(&chars_of("dmem.low é")), "dmem.low é");
}

#[test]
fn whitespace_agrees_with_std() {
    for code in 0u32..0x3100 {
        if let Some(c) = char::from_u32(code) {
            let s = format!("a{c}b");
            let words = split_words(&chars_of(&s));
            assert_eq!(words.len() == 2, c.is_whitespace(), "U+{code:04X}");
        }
    }
}
