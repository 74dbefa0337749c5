use north_pole::parse::{parse_binary, parse_i64, parse_u64, split_at, trim};

fn chars(text: &str) -> Vec<char> {
    text.chars().collect()
}

fn text(chars: &[char]) -> String {
    chars.iter().collect()
}

const SAMPLES: [&str; 28] = [
    "",
    "0",
    "7",
    "+7",
    "-7",
    "-0",
    "+0",
    "+",
    "-",
    "+-7",
    "--7",
    "++7",
    "007",
    "-007",
    "12a",
    "a12",
    "1 2",
    " 12",
    "12 ",
    "1_000",
    "18446744073709551615",
    "18446744073709551616",
    "9223372036854775807",
    "9223372036854775808",
    "-9223372036854775808",
    "-9223372036854775809",
    "99999999999999999999999999999999999999999999999999",
    "１２",
];

#[test]
fn unsigned_numbers_are_read_as_std_reads_them() {
    for sample in SAMPLES {
        assert_eq!(parse_u64(&chars(sample)), sample.parse::<u64>().ok(), "{:?}", sample);
    }
    assert_eq!(parse_u64(&chars("42")), Some(42));
    assert_eq!(parse_u64(&chars("-42")), None);
}

#[test]
fn signed_numbers_are_read_as_std_reads_them() {
    for sample in SAMPLES {
        assert_eq!(parse_i64(&chars(sample)), sample.parse::<i64>().ok(), "{:?}", sample);
    }
    assert_eq!(parse_i64(&chars("-42")), Some(-42));
    assert_eq!(parse_i64(&chars("-9223372036854775808")), Some(i64::MIN));
}

#[test]
fn binary_numbers_are_read_as_std_reads_them() {
    let samples = [
        "",
        "0",
        "1",
        "2",
        "+1",
        "-1",
        "+",
        "101",
        "0101",
        "10 1",
        "1111111111111111111111111111111111111111111111111111111111111111",
        "10000000000000000000000000000000000000000000000000000000000000000",
        "00000000000000000000000000000000000000000000000000000000000000001",
        "0100111110010011000110011001010101011111000010100011110001011011",
        "0b11",
    ];
    for sample in samples {
        assert_eq!(parse_binary(sample), u64::from_str_radix(sample, 2).ok(), "{:?}", sample);
    }
    assert_eq!(parse_binary("101"), Some(5));
    assert_eq!(parse_binary("12"), None);
}

#[test]
fn a_text_is_cut_at_every_mark() {
    let samples = ["", "/", "a", "a/b", "/a", "a/", "a//b", "//", "ab/cd/ef", "é/ü/🎁"];
    for sample in samples {
        let parts: Vec<String> = split_at(&chars(sample), '/').iter().map(|p| text(p)).collect();
        let want: Vec<String> = sample.split('/').map(|p| p.to_string()).collect();
        assert_eq!(parts, want, "{:?}", sample);
    }
    assert_eq!(split_at(&chars("a,b"), ','), vec![vec!['a'], vec!['b']]);
    assert_eq!(split_at(&chars(""), ','), vec![Vec::<char>::new()]);
}

#[test]
fn white_space_is_taken_off_both_ends() {
    let samples = [
        "",
        " ",
        "a",
        " a",
        "a ",
        " a b ",
        "\t\n\u{b}\u{c}\r a \u{85}\u{a0}",
        "\u{1680}\u{2000}\u{200a}x\u{2028}\u{2029}\u{202f}\u{205f}\u{3000}",
        "\u{200b}a\u{200b}",
        "\u{8}a\u{e}",
        "   ",
        "\u{1f}a",
    ];
    for sample in samples {
        assert_eq!(text(&trim(&chars(sample))), sample.trim(), "{:?}", sample);
    }
    assert_eq!(trim(&chars("  a b ")), vec!['a', ' ', 'b']);
}

#[test]
fn white_space_is_what_std_calls_white_space() {
    for code in 0..=0x3100u32 {
        if let Some(c) = char::from_u32(code) {
            let kept = trim(&vec![c]);
            assert_eq!(kept.is_empty(), c.is_whitespace(), "{:x}", code);
        }
    }
}
