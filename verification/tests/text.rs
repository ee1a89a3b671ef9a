use ai4all::text::{
    chars_of, clone_strings, contains, find_from, folded, found_at, holds_text, is_space_char,
    join_with_comma, lines_of, mentions_text, parse_number, push_all, push_decimal, push_digits,
    push_str, same_text, slice_before, slice_equal, slice_of, split_up_to, str_before, string_of,
    trimmed, without_prefixes, without_trailing,
};

fn chars(s: &str) -> Vec<char> {
    s.chars().collect()
}

fn texts(rows: Vec<Vec<char>>) -> Vec<String> {
    rows.iter().map(|r| r.iter().collect()).collect()
}

fn text(row: Vec<char>) -> String {
    row.iter().collect()
}

#[test]
fn strings_and_characters_convert_both_ways() {
    assert_eq!(chars_of("aé\u{10000}"), vec!['a', 'é', '\u{10000}']);
    assert_eq!(chars_of(""), Vec::<char>::new());
    assert_eq!(string_of(&chars("aé\u{10000}")), "aé\u{10000}");
    assert_eq!(string_of(&vec![]), "");
    let mut out = chars("x");
    push_all(&mut out, &chars("yz"));
    push_str(&mut out, "é!");
    assert_eq!(text(out), "xyzé!");
    assert_eq!(text(slice_of(&chars("abcdef"), 2, 4)), "cd");
    assert_eq!(text(slice_of(&chars("abcdef"), 3, 3)), "");
}

#[test]
fn decimal_text_of_numbers() {
    let cases: [(i64, &str); 7] = [
        (0, "0"),
        (7, "7"),
        (10, "10"),
        (-1, "-1"),
        (1700000000, "1700000000"),
        (i64::MAX, "9223372036854775807"),
        (i64::MIN, "-9223372036854775808"),
    ];
    for (n, expected) in cases {
        let mut out = Vec::new();
        push_decimal(&mut out, n);
        assert_eq!(text(out), expected);
        assert_eq!(n.to_string(), expected);
    }
    let mut out = chars("n=");
    push_digits(&mut out, 0);
    push_digits(&mut out, 1020);
    push_digits(&mut out, u128::MAX);
    assert_eq!(text(out), format!("n=01020{}", u128::MAX));
}

#[test]
fn numbers_are_read_as_the_standard_library_does() {
    let cases = [
        "0", "7", "007", "+7", "255", "256", "+255", "+0256", "", "+", "-", "-0", "-1", "++1",
        "1+", " 1", "1 ", "1_0", "0x1", "1.0", "٣", "4294967295", "4294967296",
        "18446744073709551615", "18446744073709551616", "99999999999999999999999999",
    ];
    for case in cases {
        assert_eq!(parse_number(&chars(case), 255), case.parse::<u8>().ok().map(u64::from));
        assert_eq!(
            parse_number(&chars(case), 0xffff_ffff),
            case.parse::<u32>().ok().map(u64::from)
        );
        assert_eq!(parse_number(&chars(case), u64::MAX), case.parse::<u64>().ok());
    }
    assert_eq!(parse_number(&chars("256"), 255), None);
    assert_eq!(parse_number(&chars("+255"), 255), Some(255));
    assert_eq!(parse_number(&chars("5"), 4), None);
    assert_eq!(parse_number(&chars("0"), 0), Some(0));
}

#[test]
fn white_space_is_what_unicode_says() {
    for code in 0..=0x11_0000u32 {
        if let Some(c) = char::from_u32(code) {
            assert_eq!(is_space_char(c), c.is_whitespace());
        }
    }
}

#[test]
fn trimming_takes_white_space_off_both_ends() {
    let cases = [
        "", " ", "a", " a", "a ", "  a b  ", "\t\r\n a \u{3000}\u{a0}", "\u{200b}a\u{200b}",
        " \u{2028} ", "a\u{85}", "\u{feff}a",
    ];
    for case in cases {
        assert_eq!(text(trimmed(&chars(case))), case.trim());
    }
    assert_eq!(text(trimmed(&chars("  a b  "))), "a b");
}

#[test]
fn lines_end_at_line_feeds() {
    let cases = [
        "", "\n", "a", "a\n", "a\nb", "a\nb\n", "a\n\nb\n\n", "a\r\nb\r\n", "a\rb\r", "\r\n",
        "\r", "a\r\r\nb", "\n\r", "a\n\r\nb", "é\n\u{2028}\n",
    ];
    for case in cases {
        let expected: Vec<String> = case.lines().map(|l| l.to_string()).collect();
        assert_eq!(texts(lines_of(&chars(case))), expected);
    }
    assert_eq!(texts(lines_of(&chars("a\r\nb\n\nc"))), vec!["a", "b", "", "c"]);
}

#[test]
fn splitting_stops_at_the_limit() {
    let cases = ["", ",", "a", "a,b", "a,b,c", ",a,,b,", "a,b,c,d,e,f,g,h", ",,,,,,,,,,"];
    for case in cases {
        for limit in [0usize, 1, 2, 3, 7, 20] {
            let expected: Vec<String> = case.splitn(limit, ',').map(|p| p.to_string()).collect();
            assert_eq!(texts(split_up_to(&chars(case), ',', limit)), expected);
        }
    }
    assert_eq!(texts(split_up_to(&chars("a,b,c"), ',', 2)), vec!["a", "b,c"]);
    assert_eq!(texts(split_up_to(&chars("a:b"), ':', 3)), vec!["a", "b"]);
}

#[test]
fn finding_a_character() {
    let s = chars("a:b:c");
    assert_eq!(find_from(&s, 0, ':'), 1);
    assert_eq!(find_from(&s, 1, ':'), 1);
    assert_eq!(find_from(&s, 2, ':'), 3);
    assert_eq!(find_from(&s, 4, ':'), 5);
    assert_eq!(find_from(&s, 5, ':'), 5);
    assert_eq!(find_from(&s, 0, 'x'), 5);
}

#[test]
fn finding_a_text() {
    let hay = chars("VRAM Total Memory (B)");
    assert!(found_at(&hay, &chars("VRAM"), 0));
    assert!(!found_at(&hay, &chars("VRAM"), 1));
    assert!(found_at(&hay, &chars("(B)"), 18));
    assert!(!found_at(&hay, &chars("(B)"), 19));
    assert!(!found_at(&hay, &chars("(B)"), 1000));
    assert!(found_at(&hay, &chars(""), 21));
    assert!(!found_at(&hay, &chars(""), 22));
    let cases = [("", ""), ("a", ""), ("", "a"), ("abc", "bc"), ("abc", "cb"), ("aab", "ab"),
        ("abcabd", "abd"), ("abc", "abcd"), ("ééa", "éa")];
    for (hay, needle) in cases {
        assert_eq!(contains(&chars(hay), &chars(needle)), hay.contains(needle));
    }
}

#[test]
fn case_of_ascii_letters_is_folded() {
    assert_eq!(text(folded(&chars("VRAM Total_Memory (B) 1@[`{Zz"))), "vram total_memory (b) 1@[`{zz");
    assert_eq!(text(folded(&chars("ÀÉİ\u{212a}"))), "ÀÉİ\u{212a}");
    assert!(mentions_text(&chars("VRAM Total Memory (B)"), "total memory"));
    assert!(mentions_text(&chars("gpu USE (%)"), "gpu use"));
    assert!(!mentions_text(&chars("GPU  use"), "gpu use"));
    assert!(!mentions_text(&chars("total"), "total memory"));
    assert!(mentions_text(&chars("anything"), ""));
    for hay in ["Driver Version: 1", "DRIVER VERSION", "driver  version", "x", "Drİver version"] {
        assert_eq!(
            mentions_text(&chars(hay), "driver version"),
            hay.to_lowercase().contains("driver version")
        );
    }
}

#[test]
fn leading_words_and_trailing_characters_are_stripped() {
    let cases = ["card0", "cardcard12", "card", "car", "xcard1", "", "Card1", "cardcar"];
    for case in cases {
        assert_eq!(
            text(without_prefixes(&chars(case), &chars("card"))),
            case.trim_start_matches("card")
        );
    }
    assert_eq!(text(without_prefixes(&chars("aaa"), &chars(""))), "aaa");
    for case in ["15%", "15%%", "%", "", "1%5", "15"] {
        assert_eq!(text(without_trailing(&chars(case), '%')), case.trim_end_matches('%'));
    }
}

#[test]
fn joining_puts_commas_between() {
    assert_eq!(text(join_with_comma(&vec![])), "");
    assert_eq!(text(join_with_comma(&vec![chars("0")])), "0");
    assert_eq!(text(join_with_comma(&vec![chars("0"), chars("12"), chars("")])), "0,12,");
}

#[test]
fn texts_are_ordered_as_strings_are() {
    let samples = ["", "a", "A", "aa", "ab", "b", "é", "z", "a\u{10000}", "a\u{ffff}", "\u{0}"];
    for a in samples {
        for b in samples {
            assert_eq!(str_before(a, b), a < b);
            assert_eq!(same_text(a, b), a == b);
            assert_eq!(slice_before(a.as_bytes(), b.as_bytes()), a.as_bytes() < b.as_bytes());
            assert_eq!(slice_equal(a.as_bytes(), b.as_bytes()), a == b);
        }
    }
}

#[test]
fn lists_of_strings() {
    let list = vec!["llama3".to_string(), "".to_string(), "mistral".to_string()];
    assert_eq!(clone_strings(&list), list);
    assert!(holds_text(&list, "mistral"));
    assert!(holds_text(&list, ""));
    assert!(!holds_text(&list, "llama"));
    assert!(!holds_text(&vec![], ""));
}
