use network_scanner::text::{
    copy_range, digit_of, hex_digit_of, parse_unsigned, push_all, push_decimal, same_text, split,
    split_lines, to_chars, to_text, trim, whitespace,
};

fn chars(s: &str) -> Vec<char> {
    s.chars().collect()
}

fn strings(parts: Vec<Vec<char>>) -> Vec<String> {
    parts.iter().map(|p| p.iter().collect()).collect()
}

#[test]
fn characters_and_strings_convert_both_ways() {
    assert_eq!(to_chars("a-b"), vec!['a', '-', 'b']);
    assert_eq!(to_chars(""), Vec::<char>::new());
    assert_eq!(to_chars("h\u{e9}llo \u{1f600}"), chars("h\u{e9}llo \u{1f600}"));
    assert_eq!(to_text(&chars("192.168.1.1")), "192.168.1.1");
    assert_eq!(to_text(&chars("")), "");
    assert_eq!(to_text(&to_chars("\u{3000}x\u{1f600}")), "\u{3000}x\u{1f600}");
}

#[test]
fn a_text_splits_into_one_more_field_than_separators() {
    assert_eq!(strings(split(&chars("a-b"), '-')), vec!["a", "b"]);
    assert_eq!(strings(split(&chars("abc"), '-')), vec!["abc"]);
    assert_eq!(strings(split(&chars(""), '-')), vec![""]);
    assert_eq!(strings(split(&chars("-"), '-')), vec!["", ""]);
    assert_eq!(strings(split(&chars("a--b-"), '-')), vec!["a", "", "b", ""]);
    assert_eq!(strings(split(&chars("1.2.3.4"), '.')), vec!["1", "2", "3", "4"]);
    assert_eq!(strings(split(&chars("::1"), ':')), vec!["", "", "1"]);
}

#[test]
fn a_text_splits_into_lines() {
    assert_eq!(strings(split_lines(&chars(""))), Vec::<String>::new());
    assert_eq!(strings(split_lines(&chars("a"))), vec!["a"]);
    assert_eq!(strings(split_lines(&chars("a\n"))), vec!["a"]);
    assert_eq!(strings(split_lines(&chars("a\nb"))), vec!["a", "b"]);
    assert_eq!(strings(split_lines(&chars("a\r\nb\r\n"))), vec!["a", "b"]);
    assert_eq!(strings(split_lines(&chars("\n\n"))), vec!["", ""]);
    assert_eq!(strings(split_lines(&chars("a\rb\n"))), vec!["a\rb"]);
    assert_eq!(strings(split_lines(&chars("a\r"))), vec!["a\r"]);
    assert_eq!(strings(split_lines(&chars("\r\n"))), vec![""]);
}

#[test]
fn lines_agree_with_the_standard_library() {
    let samples = [
        "", "a", "a\n", "a\nb", "a\r\nb\r\n", "\n\n", "a\rb\n", "a\r", "\r\n", "\r", "\n\r",
        "a\r\r\n", "x\n\ny\n\n", " \n \n",
    ];
    for sample in samples {
        let expected: Vec<String> = sample.lines().map(|l| l.to_string()).collect();
        assert_eq!(strings(split_lines(&chars(sample))), expected);
    }
}

#[test]
fn trimming_removes_white_space_at_both_ends() {
    assert_eq!(to_text(&trim(&chars("  a b \n"))), "a b");
    assert_eq!(to_text(&trim(&chars("a"))), "a");
    assert_eq!(to_text(&trim(&chars(""))), "");
    assert_eq!(to_text(&trim(&chars(" \t\r\n"))), "");
    assert_eq!(to_text(&trim(&chars("\u{2003}x\u{205f}"))), "x");
    assert_eq!(to_text(&trim(&chars("\u{200b}x"))), "\u{200b}x");
}

#[test]
fn white_space_agrees_with_the_standard_library() {
    let mut code: u32 = 0;
    while code <= 0x3100 {
        if let Some(c) = char::from_u32(code) {
            assert_eq!(whitespace(c), c.is_whitespace());
        }
        code += 1;
    }
    let samples = ["  a ", "\u{a0}\u{85}b\u{1680}", "\u{2028}c\u{2029}", "d\u{202f}", "\u{feff}e"];
    for sample in samples {
        assert_eq!(to_text(&trim(&chars(sample))), sample.trim());
    }
}

#[test]
fn unsigned_numbers() {
    assert_eq!(parse_unsigned(&chars("0"), 65535), Some(0));
    assert_eq!(parse_unsigned(&chars("65535"), 65535), Some(65535));
    assert_eq!(parse_unsigned(&chars("65536"), 65535), None);
    assert_eq!(parse_unsigned(&chars("255"), 255), Some(255));
    assert_eq!(parse_unsigned(&chars("256"), 255), None);
    assert_eq!(parse_unsigned(&chars("+7"), 255), Some(7));
    assert_eq!(parse_unsigned(&chars("007"), 255), Some(7));
    assert_eq!(parse_unsigned(&chars(""), 255), None);
    assert_eq!(parse_unsigned(&chars("+"), 255), None);
    assert_eq!(parse_unsigned(&chars("-7"), 255), None);
    assert_eq!(parse_unsigned(&chars("7+"), 255), None);
    assert_eq!(parse_unsigned(&chars("1 "), 255), None);
    assert_eq!(parse_unsigned(&chars("\u{661}"), 255), None);
    assert_eq!(parse_unsigned(&chars("4294967295"), u32::MAX), Some(u32::MAX));
    assert_eq!(parse_unsigned(&chars("4294967296"), u32::MAX), None);
    assert_eq!(parse_unsigned(&chars("99999999999999999999"), u32::MAX), None);
    assert_eq!(parse_unsigned(&chars("5"), 0), None);
    assert_eq!(parse_unsigned(&chars("0"), 0), Some(0));
}

#[test]
fn unsigned_numbers_agree_with_the_standard_library() {
    let samples = [
        "0", "22", "+22", "0022", "65535", "65536", "", "+", "-1", "1-", " 1", "1_0", "abc",
        "999999", "+0", "00000000000000000000000",
    ];
    for sample in samples {
        let expected: Option<u32> = sample.parse::<u16>().ok().map(|v| v as u32);
        assert_eq!(parse_unsigned(&chars(sample), 65535), expected);
    }
}

#[test]
fn decimal_notation() {
    let samples: [u32; 9] = [0, 7, 10, 99, 100, 255, 65535, 1000000, u32::MAX];
    for n in samples {
        let mut out: Vec<char> = vec!['x'];
        push_decimal(&mut out, n);
        assert_eq!(to_text(&out), format!("x{}", n));
    }
}

#[test]
fn digits() {
    assert_eq!(digit_of('0'), Some(0));
    assert_eq!(digit_of('9'), Some(9));
    assert_eq!(digit_of('a'), None);
    assert_eq!(digit_of('/'), None);
    assert_eq!(digit_of(':'), None);
    assert_eq!(hex_digit_of('0'), Some(0));
    assert_eq!(hex_digit_of('9'), Some(9));
    assert_eq!(hex_digit_of('a'), Some(10));
    assert_eq!(hex_digit_of('f'), Some(15));
    assert_eq!(hex_digit_of('A'), Some(10));
    assert_eq!(hex_digit_of('F'), Some(15));
    assert_eq!(hex_digit_of('g'), None);
    assert_eq!(hex_digit_of('G'), None);
    assert_eq!(hex_digit_of('@'), None);
    assert_eq!(hex_digit_of('`'), None);
}

#[test]
fn copying_and_comparing() {
    let text = chars("abcdef");
    assert_eq!(copy_range(&text, 1, 4), chars("bcd"));
    assert_eq!(copy_range(&text, 0, 6), text);
    assert_eq!(copy_range(&text, 3, 3), Vec::<char>::new());
    let mut out = chars("ab");
    push_all(&mut out, &chars("cd"));
    assert_eq!(out, chars("abcd"));
    assert!(same_text(&chars("abc"), &chars("abc")));
    assert!(same_text(&chars(""), &chars("")));
    assert!(!same_text(&chars("abc"), &chars("abd")));
    assert!(!same_text(&chars("abc"), &chars("ab")));
}
