//! Fields and decimal integers.
use svm::text::{characters, decimal_text, parse_integer, signed_decimal_text, split};

fn chars(s: &str) -> Vec<char> {
    s.chars().collect()
}

#[test]
fn fields_between_separators() {
    for s in ["", "_", "a", "a_b", "_a_", "DES_1_2_r2_sliding.txt", "ñ_é__x", "__"] {
        let expected: Vec<Vec<char>> = s.split('_').map(chars).collect();
        assert_eq!(split(s, '_'), expected, "{s:?}");
    }
    assert_eq!(characters("aé"), vec!['a', 'é']);
}

#[test]
fn integers_are_read_as_written() {
    for s in [
        "", "+", "-", "0", "-0", "+7", "007", "7", "12", "-12", " 7", "7 ", "1_0", "0x1", "٣",
        "2147483647", "2147483648", "-2147483648", "-2147483649", "+2147483648",
        "99999999999999999999999999", "-99999999999999999999999999", "00000000000000000000000000005",
        "99999999999999999999999999x", "--1", "+-1", "1-",
    ] {
        assert_eq!(parse_integer(&chars(s)), s.parse::<i32>().ok(), "{s:?}");
    }
}

#[test]
fn integers_are_written_in_decimal() {
    for n in [0, 1, 9, 10, 99, 100, 1234567890, i32::MAX, -1, -10, i32::MIN] {
        assert_eq!(signed_decimal_text(n), n.to_string());
    }
    for n in [0, 9, 10, 18446744073709551615] {
        assert_eq!(decimal_text(n), n.to_string());
    }
}

#[test]
fn decimal_reads_back() {
    for n in [0, 7, -7, 40, i32::MAX, i32::MIN] {
        assert_eq!(parse_integer(&chars(&signed_decimal_text(n))), Some(n));
    }
}
