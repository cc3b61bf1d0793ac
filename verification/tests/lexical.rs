use olc_datafile_rust::lexical::Serializable;

#[test]
fn integer_test_serialize() {
    assert_eq!(0.serialize(), "0");
    assert_eq!(1.serialize(), "1");
}

#[test]
fn integer_test_deserialize() {
    assert_eq!(i32::deserialize("0"), 0);
    assert_eq!(i32::deserialize("1"), 1);
    assert_eq!(i32::deserialize("1.5"), 1);
    assert_eq!(i32::deserialize("1,5"), 1);
}

#[test]
fn string_test_serialize() {
    assert_eq!("".serialize(), "");
    assert_eq!("Hello, world!".serialize(), "Hello, world!");
}

#[test]
fn string_test_deserialize() {
    assert_eq!(String::deserialize(""), "");
    assert_eq!(String::deserialize("Hello, world!"), "Hello, world!");
}

#[test]
fn integer_serialize_writes_sign_only_if_negative() {
    assert_eq!(42.serialize(), "42");
    assert_eq!((-42).serialize(), "-42");
    assert_eq!(1_000_000.serialize(), "1000000");
    assert_eq!(i32::MAX.serialize(), "2147483647");
    assert_eq!(i32::MIN.serialize(), "-2147483648");
}

#[test]
fn integer_round_trip() {
    for v in [0, 1, -1, 7, 10, -10, 99, 100, 12345, -98765, i32::MAX, i32::MIN, i32::MAX - 1] {
        assert_eq!(i32::deserialize(&v.serialize()), v);
    }
}

#[test]
fn integer_deserialize_accepts_signs_and_leading_zeros() {
    assert_eq!(i32::deserialize("+5"), 5);
    assert_eq!(i32::deserialize("-5"), -5);
    assert_eq!(i32::deserialize("007"), 7);
    assert_eq!(i32::deserialize("-0"), 0);
    assert_eq!(i32::deserialize("2147483647"), i32::MAX);
    assert_eq!(i32::deserialize("-2147483648"), i32::MIN);
}

#[test]
fn integer_deserialize_truncates_toward_zero() {
    assert_eq!(i32::deserialize("1.9"), 1);
    assert_eq!(i32::deserialize("-1.9"), -1);
    assert_eq!(i32::deserialize("-1,9"), -1);
    assert_eq!(i32::deserialize("0.999"), 0);
    assert_eq!(i32::deserialize("-0.5"), 0);
    assert_eq!(i32::deserialize(".5"), 0);
    assert_eq!(i32::deserialize("5."), 5);
    assert_eq!(i32::deserialize("+12.75"), 12);
    assert_eq!(i32::deserialize("24.0"), 24);
}

#[test]
fn integer_deserialize_holds_large_numbers_to_the_range() {
    assert_eq!(i32::deserialize("2147483648"), i32::MAX);
    assert_eq!(i32::deserialize("-2147483649"), i32::MIN);
    assert_eq!(i32::deserialize("99999999999999999999999999"), i32::MAX);
    assert_eq!(i32::deserialize("-99999999999999999999999999.5"), i32::MIN);
    assert_eq!(i32::deserialize("2147483647.9"), i32::MAX);
}

#[test]
fn integer_deserialize_defaults_to_zero() {
    assert_eq!(i32::deserialize(""), 0);
    assert_eq!(i32::deserialize("-"), 0);
    assert_eq!(i32::deserialize("+"), 0);
    assert_eq!(i32::deserialize("."), 0);
    assert_eq!(i32::deserialize(","), 0);
    assert_eq!(i32::deserialize("-."), 0);
    assert_eq!(i32::deserialize("abc"), 0);
    assert_eq!(i32::deserialize("12a"), 0);
    assert_eq!(i32::deserialize("a12"), 0);
    assert_eq!(i32::deserialize("1.2.3"), 0);
    assert_eq!(i32::deserialize("1,2,3"), 0);
    assert_eq!(i32::deserialize("1.2,3"), 0);
    assert_eq!(i32::deserialize("1-2"), 0);
    assert_eq!(i32::deserialize("--1"), 0);
    assert_eq!(i32::deserialize(" 1"), 0);
    assert_eq!(i32::deserialize("1 "), 0);
    assert_eq!(i32::deserialize("١٢"), 0);
}

#[test]
fn text_round_trip() {
    for text in ["", "a", "Hello, world!", "  spaced  ", "\"quoted\"", "ünï©ödé"] {
        assert_eq!(String::deserialize(&text.serialize()), text);
        let owned = text.to_string();
        assert_eq!(String::deserialize(&owned.serialize()), owned);
        assert_eq!(<&str>::deserialize(text), text);
    }
}

#[test]
fn integer_deserialize_reads_infinity_as_a_bound() {
    assert_eq!(i32::deserialize("inf"), i32::MAX);
    assert_eq!(i32::deserialize("+inf"), i32::MAX);
    assert_eq!(i32::deserialize("-inf"), i32::MIN);
    assert_eq!(i32::deserialize("Infinity"), i32::MAX);
    assert_eq!(i32::deserialize("-INFINITY"), i32::MIN);
    assert_eq!(i32::deserialize("infinit"), 0);
    assert_eq!(i32::deserialize("infi"), 0);
    assert_eq!(i32::deserialize("inf "), 0);
    assert_eq!(i32::deserialize("NaN"), 0);
}

#[test]
fn integer_deserialize_reads_an_exponent() {
    assert_eq!(i32::deserialize("1e3"), 1000);
    assert_eq!(i32::deserialize("1,5e1"), 15);
    assert_eq!(i32::deserialize("1e-1"), 0);
    assert_eq!(i32::deserialize("1e39"), i32::MAX);
    assert_eq!(i32::deserialize("1e"), 0);

    assert_eq!(i32::deserialize("1E3"), 1000);
    assert_eq!(i32::deserialize("1e+3"), 1000);
    assert_eq!(i32::deserialize("-1e3"), -1000);
    assert_eq!(i32::deserialize("+1e+1"), 10);
    assert_eq!(i32::deserialize("1.5e1"), 15);
    assert_eq!(i32::deserialize("-1.59e1"), -15);
    assert_eq!(i32::deserialize(".5e1"), 5);
    assert_eq!(i32::deserialize("5.e1"), 50);
    assert_eq!(i32::deserialize("1e0"), 1);
    assert_eq!(i32::deserialize("1e-0"), 1);
    assert_eq!(i32::deserialize("12345e-2"), 123);
    assert_eq!(i32::deserialize("12345e-5"), 0);
    assert_eq!(i32::deserialize("12345e-6"), 0);
    assert_eq!(i32::deserialize("0.00012e5"), 12);
    assert_eq!(i32::deserialize("0.00012e4"), 1);
    assert_eq!(i32::deserialize("007.25e002"), 725);
    assert_eq!(i32::deserialize("2147483647e0"), i32::MAX);
    assert_eq!(i32::deserialize("21474836470e-1"), i32::MAX);
    assert_eq!(i32::deserialize("-21474836480e-1"), i32::MIN);
    assert_eq!(i32::deserialize("-214748364.7e1"), -2147483647);
    assert_eq!(i32::deserialize("1e9"), 1_000_000_000);
    assert_eq!(i32::deserialize("1e10"), i32::MAX);
    assert_eq!(i32::deserialize("-1e10"), i32::MIN);
}

#[test]
fn integer_deserialize_reads_an_exponent_of_any_size() {
    assert_eq!(i32::deserialize("1e99999999999999999999999999999"), i32::MAX);
    assert_eq!(i32::deserialize("-1e99999999999999999999999999999"), i32::MIN);
    assert_eq!(i32::deserialize("0e99999999999999999999999999999"), 0);
    assert_eq!(i32::deserialize("0.000e99999999999999999999999999999"), 0);
    assert_eq!(i32::deserialize("1e-99999999999999999999999999999"), 0);
    assert_eq!(i32::deserialize("987654321e-99999999999999999999999999999"), 0);
    assert_eq!(i32::deserialize("1e1180591620717411303424"), i32::MAX);
    assert_eq!(i32::deserialize("1e-1180591620717411303423"), 0);
    assert_eq!(i32::deserialize("1e0000000000000000000000000000000000003"), 1000);
}

#[test]
fn integer_deserialize_reads_no_broken_exponent() {
    assert_eq!(i32::deserialize("e3"), 0);
    assert_eq!(i32::deserialize(".e3"), 0);
    assert_eq!(i32::deserialize("-e3"), 0);
    assert_eq!(i32::deserialize("1e+"), 0);
    assert_eq!(i32::deserialize("1e-"), 0);
    assert_eq!(i32::deserialize("1e3.5"), 0);
    assert_eq!(i32::deserialize("1e3,5"), 0);
    assert_eq!(i32::deserialize("1ee3"), 0);
    assert_eq!(i32::deserialize("1e3e3"), 0);
    assert_eq!(i32::deserialize("1e++3"), 0);
    assert_eq!(i32::deserialize("1e 3"), 0);
    assert_eq!(i32::deserialize("1 e3"), 0);
    assert_eq!(i32::deserialize("1.2.3e1"), 0);
    assert_eq!(i32::deserialize("1x3"), 0);
    assert_eq!(i32::deserialize("e"), 0);
    assert_eq!(i32::deserialize("E"), 0);
}
