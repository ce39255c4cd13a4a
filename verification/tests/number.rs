use inventory::number::{is_price, parse_quantity, render_quantity};

#[test]
fn quantities_are_read() {
    assert_eq!(parse_quantity("0"), Some(0));
    assert_eq!(parse_quantity("5"), Some(5));
    assert_eq!(parse_quantity("-42"), Some(-42));
    assert_eq!(parse_quantity("+42"), Some(42));
    assert_eq!(parse_quantity("-0"), Some(0));
    assert_eq!(parse_quantity("007"), Some(7));
    assert_eq!(parse_quantity("2147483647"), Some(i32::MAX));
    assert_eq!(parse_quantity("-2147483648"), Some(i32::MIN));
    assert_eq!(parse_quantity("00000000000000000000000000012"), Some(12));
}

#[test]
fn other_texts_are_no_quantities() {
    assert_eq!(parse_quantity(""), None);
    assert_eq!(parse_quantity("+"), None);
    assert_eq!(parse_quantity("-"), None);
    assert_eq!(parse_quantity("notanint"), None);
    assert_eq!(parse_quantity("2147483648"), None);
    assert_eq!(parse_quantity("-2147483649"), None);
    assert_eq!(parse_quantity("99999999999999999999999999"), None);
    assert_eq!(parse_quantity("1.0"), None);
    assert_eq!(parse_quantity(" 1"), None);
    assert_eq!(parse_quantity("1 "), None);
    assert_eq!(parse_quantity("1_000"), None);
    assert_eq!(parse_quantity("--1"), None);
    assert_eq!(parse_quantity("+-1"), None);
    assert_eq!(parse_quantity("0x10"), None);
    assert_eq!(parse_quantity("１２"), None);
}

#[test]
fn quantities_agree_with_std() {
    let texts = [
        "", "0", "-0", "+0", "1", "-1", "+1", "12345", "2147483647", "2147483648", "-2147483648",
        "-2147483649", "4294967296", "00", "-", "+", "a", "1a", "a1", "1-", "٣", "1e3", " 5", "5\n",
    ];
    for text in texts {
        assert_eq!(parse_quantity(text), text.parse::<i32>().ok(), "text {:?}", text);
    }
}

#[test]
fn quantities_are_written() {
    assert_eq!(render_quantity(0), "0");
    assert_eq!(render_quantity(5), "5");
    assert_eq!(render_quantity(10), "10");
    assert_eq!(render_quantity(-5), "-5");
    assert_eq!(render_quantity(1234567890), "1234567890");
    assert_eq!(render_quantity(i32::MAX), "2147483647");
    assert_eq!(render_quantity(i32::MIN), "-2147483648");
}

#[test]
fn written_quantities_read_back() {
    for q in [0, 1, -1, 9, 10, 11, 99, 100, -100, 65535, i32::MAX, i32::MIN, i32::MIN + 1] {
        assert_eq!(render_quantity(q), q.to_string());
        assert_eq!(parse_quantity(&render_quantity(q)), Some(q));
    }
}

#[test]
fn prices_are_recognised() {
    for text in [
        "0", "10", "10.0", "9.99", ".5", "5.", "+1.5", "-1.5", "1e3", "1E3", "1e+3", "1e-3",
        "1.5e10", ".5e1", "5.e1", "inf", "-inf", "+inf", "Infinity", "INFINITY", "nan", "NaN",
        "-NAN", "0000.0000", "123456789012345678901234567890", "1e999",
    ] {
        assert!(is_price(text), "text {:?}", text);
    }
}

#[test]
fn other_texts_are_no_prices() {
    for text in [
        "", "notanumber", ".", "+", "-", "e5", "1e", "1e+", "1.2.3", "1,5", " 1", "1 ", "1_0",
        "0x10", "infinit", "infinityy", "in", "na", "nanx", "+-1", "--1", "1e5.5", "1f", "$1",
        "１", "1e٣",
    ] {
        assert!(!is_price(text), "text {:?}", text);
    }
}

#[test]
fn prices_agree_with_std() {
    let texts = [
        "", "0", "-0", "+0", "1", "1.", ".1", ".", "1.0", "-1.0", "+1.0", "1e0", "1e", "e1", "1e+1",
        "1e-1", "1e+-1", "1E5", "1.e5", ".e5", ".5e5", "inf", "INF", "iNf", "infinity", "Infinity",
        "infinit", "-infinity", "nan", "NaN", "+nan", "-nan", "nann", "abc", "1a", "a1", " 1", "1 ",
        "1..2", "1.2.3", "--1", "+-1", "1_000", "0x1p3", "1e99999", "İnf", "ınf", "Kelvin", "1\n",
        "+", "-", "+.", "-.5", "+5.", "9.99", "notanumber", "1e1e1", "١", "inf ", "i", "in",
        "NAN", "nAn", "infinitY", "INFINITY", "1E+05", "1e-007", "00", "0.0.0", "1,0",
    ];
    for text in texts {
        assert_eq!(is_price(text), text.parse::<f64>().is_ok(), "text {:?}", text);
    }
}

#[test]
fn shown_prices_are_recognised() {
    for value in [
        0.0f64, -0.0, 1.0, 10.0, 20.0, 9.99, 0.1 + 0.2, 1e300, 1e-300, f64::MAX, f64::MIN,
        f64::MIN_POSITIVE, f64::INFINITY, f64::NEG_INFINITY, f64::NAN, 123456.789,
    ] {
        let text = format!("{}", value);
        assert!(is_price(&text), "text {:?}", text);
    }
}
