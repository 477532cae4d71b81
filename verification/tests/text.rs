use student_performance::text::{
    is_float_text, is_whitespace, parse_i64, same_text, split_commas, trim,
};

#[test]
fn whitespace_matches_std() {
    for u in 0u32..0x3100 {
        if let Some(c) = char::from_u32(u) {
            assert_eq!(is_whitespace(c), c.is_whitespace(), "code point {u:#x}");
        }
    }
}

#[test]
fn trim_matches_std() {
    for s in ["", "   ", " a ", "\u{3000}x y\u{85}", "\tq\r\n", "abc", "\u{a0}\u{2007} z"] {
        assert_eq!(trim(s), s.trim());
    }
}

#[test]
fn split_matches_std() {
    for s in ["", ",", "a,b", ",a,,b,", "x", "1,Male,4.0"] {
        let expected: Vec<&str> = s.split(',').collect();
        assert_eq!(split_commas(s), expected);
    }
}

#[test]
fn parse_i64_matches_std() {
    for s in [
        "0", "42", "-42", "+7", "-", "+", "", "00012", "9223372036854775807",
        "9223372036854775808", "-9223372036854775808", "-9223372036854775809",
        "12a", " 1", "1 ", "--1", "+-1", "99999999999999999999999",
    ] {
        assert_eq!(parse_i64(s), s.parse::<i64>().ok(), "input {s:?}");
    }
}

#[test]
fn same_text_compares_characters() {
    assert!(same_text("Male", "Male"));
    assert!(!same_text("Male", "male"));
    assert!(!same_text("Yes", "Yes "));
    assert!(same_text("", ""));
}

#[test]
fn float_text_matches_std() {
    for s in [
        "0", "4.0", "-4.0", "+4.0", ".5", "5.", ".", "", "-", "+", "1e5", "1E-5", "1e+5", "1e",
        "e5", ".e5", "1.e5", ".5e5", "1.5.2", "1..", "inf", "-INF", "+Infinity", "infinit",
        "nan", "NaN", "-nAn", "nana", " 1", "1 ", "1_000", "0x10", "12a", "1e5.0", "1ee5",
        "--1", "76.9", "100.0", "\u{212a}", "İnf", "00.00e-00",
    ] {
        assert_eq!(is_float_text(s), s.parse::<f64>().is_ok(), "input {s:?}");
    }
}
