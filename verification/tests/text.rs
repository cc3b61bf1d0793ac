use olc_datafile_rust::lexical::integer::digit_of;
use olc_datafile_rust::lexical::integer::push_digits;
use olc_datafile_rust::lexical::Serializable;
use olc_datafile_rust::text::chars_of;
use olc_datafile_rust::text::contains_char;
use olc_datafile_rust::text::find_char;
use olc_datafile_rust::text::is_single;
use olc_datafile_rust::text::is_whitespace_char;
use olc_datafile_rust::text::trim;

#[test]
fn white_space_is_what_the_standard_library_calls_so() {
    for code in 0..=0x10FFFFu32 {
        if let Some(c) = char::from_u32(code) {
            assert_eq!(is_whitespace_char(c), c.is_whitespace(), "U+{code:04X}");
        }
    }
}

#[test]
fn trim_agrees_with_the_standard_library() {
    for text in [
        "",
        " ",
        "\t\r\n",
        "a",
        " a",
        "a ",
        "  a  b  ",
        "\u{2003}x\u{2003}",
        "\u{85}y\u{a0}",
        "no space",
        "ünï  ©ödé\u{3000}",
        "\u{feff}bom ",
        " \"quoted\" ",
    ] {
        assert_eq!(trim(text), text.trim(), "{text:?}");
    }
}

#[test]
fn find_char_counts_characters_not_bytes() {
    assert_eq!(find_char("key = value", '='), (Some(4), 11));
    assert_eq!(find_char("a=b=c", '='), (Some(1), 5));
    assert_eq!(find_char("=", '='), (Some(0), 1));
    assert_eq!(find_char("none", '='), (None, 4));
    assert_eq!(find_char("", '='), (None, 0));
    assert_eq!(find_char("ünï = x", '='), (Some(4), 7));
}

#[test]
fn contains_char_finds_the_separator() {
    assert!(contains_char("bar, baz", ','));
    assert!(!contains_char("bar baz", ','));
    assert!(!contains_char("", ','));
    assert!(contains_char("ü;", ';'));
}

#[test]
fn is_single_takes_one_character_only() {
    assert!(is_single("{", '{'));
    assert!(!is_single("{", '}'));
    assert!(!is_single("{{", '{'));
    assert!(!is_single("{ ", '{'));
    assert!(!is_single("", '{'));
    assert!(is_single("ü", 'ü'));
}

#[test]
fn digit_of_knows_the_ten_digits() {
    for (value, c) in "0123456789".chars().enumerate() {
        assert_eq!(digit_of(c), Some(value as u64));
    }
    for c in ['/', ':', 'a', ' ', '-', '.', '٣', '０'] {
        assert_eq!(digit_of(c), None);
    }
}

#[test]
fn push_digits_appends_without_leading_zeros() {
    let mut text = String::from("n=");
    push_digits(&mut text, 0);
    assert_eq!(text, "n=0");
    push_digits(&mut text, 907);
    assert_eq!(text, "n=0907");
    let mut text = String::new();
    push_digits(&mut text, u64::MAX);
    assert_eq!(text, "18446744073709551615");
}

#[test]
fn integer_of_written_reals_agrees_with_the_float_path() {
    for value in [
        0.0f32,
        -0.0,
        1.88,
        -1.88,
        0.1,
        0.99999994,
        1.0000001,
        8388607.5,
        16777216.0,
        123456789.0,
        2147483520.0,
        2147483648.0,
        -2147483648.0,
        3.0e9,
        -3.0e9,
        1.0e-7,
        f32::MAX,
        f32::MIN,
        f32::MIN_POSITIVE,
        f32::EPSILON,
        f32::INFINITY,
        f32::NEG_INFINITY,
        f32::NAN,
    ] {
        let text = value.to_string();
        let expected = text
            .parse::<i32>()
            .unwrap_or_else(|_| text.replace(',', ".").parse::<f32>().unwrap_or(0.0) as i32);
        assert_eq!(i32::deserialize(&text), expected, "{text:?}");
    }
}

#[test]
fn integer_of_plain_numerals_agrees_with_the_float_path() {
    for data in [
        "0", "1", "-1", "+1", "1.5", "1,5", "-1.5", "0.25", ".5", "5.", "-.5", "+.5", "007.900",
        "123456", "-123456.789", "2147483647", "2147483648", "-2147483648", "-2147483649",
        "4294967296", "99999999999999999999", "-99999999999999999999.9", "", "-", "+", ".", ",",
        "abc", "1.2.3", "1,2,3", "12a", " 1", "1 ", "0x10", "--1", "+-1", "1_000", "inf", "-inf",
        "+inf", "INF", "Infinity", "-iNfInItY", "infinit", "infinityy", "in", "i", "inf.", "NaN",
        "nan", "-nan", "1e3", "1E3", "1e+3", "-1e3", "1,5e1", "1.5e1", ".5e1", "5.e1", "1e-1",
        "1e39", "-1e39", "1e", "1e+", "1e-", "e3", ".e3", "1e3.5", "1ee3", "1e3e3", "12345e-2",
        "12345e-5", "0.00012e5", "007.25e002", "1e9", "1e10", "-1e10", "1e0", "1e-0",
        "21474836470e-1", "-21474836480e-1", "1e99999999999999999999", "1e-99999999999999999999",
        "0e99999999999999999999", "-0.0e-5", "1e 3", "1 e3", "+1e+1", "1e++3",
    ] {
        let expected = data
            .parse::<i32>()
            .unwrap_or_else(|_| data.replace(',', ".").parse::<f32>().unwrap_or(0.0) as i32);
        assert_eq!(i32::deserialize(data), expected, "{data:?}");
    }
}

#[test]
fn chars_of_gives_every_character() {
    assert_eq!(chars_of(""), Vec::<char>::new());
    assert_eq!(chars_of("a=1"), vec!['a', '=', '1']);
    assert_eq!(chars_of("ü\u{3000}x"), vec!['ü', '\u{3000}', 'x']);
}
