use procmon::percent::percent_key_of;
use procmon::text::{
    char_codes_of, count_char_in, i64_to_string, parse_i32, parse_u64, starts_with_char,
    u64_to_string,
};

#[test]
fn decimal_notation_of_unsigned() {
    assert_eq!(u64_to_string(0), "0");
    assert_eq!(u64_to_string(7), "7");
    assert_eq!(u64_to_string(1024), "1024");
    assert_eq!(u64_to_string(u64::MAX), "18446744073709551615");
}

#[test]
fn decimal_notation_of_signed() {
    assert_eq!(i64_to_string(0), "0");
    assert_eq!(i64_to_string(-1), "-1");
    assert_eq!(i64_to_string(39), "39");
    assert_eq!(i64_to_string(i64::MIN), "-9223372036854775808");
    assert_eq!(i64_to_string(i64::MAX), "9223372036854775807");
}

#[test]
fn reading_integers_as_parse_does() {
    assert_eq!(parse_i32("123"), Some(123));
    assert_eq!(parse_i32("-5"), Some(-5));
    assert_eq!(parse_i32("+7"), Some(7));
    assert_eq!(parse_i32("007"), Some(7));
    assert_eq!(parse_i32("-2147483648"), Some(i32::MIN));
    assert_eq!(parse_i32("2147483647"), Some(i32::MAX));
    assert_eq!(parse_i32("2147483648"), None);
    assert_eq!(parse_i32("-2147483649"), None);
    assert_eq!(parse_i32("99999999999999999999999"), None);
    assert_eq!(parse_i32(""), None);
    assert_eq!(parse_i32("-"), None);
    assert_eq!(parse_i32("+"), None);
    assert_eq!(parse_i32("12a"), None);
    assert_eq!(parse_i32(" 1"), None);
    for s in ["0", "42", "-17", "+3", "x", "1-2", "--1"] {
        assert_eq!(parse_i32(s), s.parse::<i32>().ok(), "{}", s);
    }
}

#[test]
fn reading_unsigned_integers() {
    assert_eq!(parse_u64("0"), Some(0));
    assert_eq!(parse_u64("+12"), Some(12));
    assert_eq!(parse_u64("18446744073709551615"), Some(u64::MAX));
    assert_eq!(parse_u64("18446744073709551616"), None);
    assert_eq!(parse_u64("-0"), None);
    assert_eq!(parse_u64("+"), None);
    assert_eq!(parse_u64(""), None);
    for s in ["7", "+7", "-7", "x", "99999999999999999999", "0012"] {
        assert_eq!(parse_u64(s), s.parse::<u64>().ok(), "{}", s);
    }
}

#[test]
fn numbers_written_read_back() {
    for v in [0i64, 1, -1, 9, 10, -10, 2147483647, -2147483648, 123456] {
        assert_eq!(parse_i32(&i64_to_string(v)), Some(v as i32));
    }
    assert_eq!(parse_i32(&i64_to_string(2147483648)), None);
}

#[test]
fn character_codes() {
    assert_eq!(char_codes_of("Ab"), vec![65, 98]);
    assert_eq!(char_codes_of(""), Vec::<i64>::new());
}

#[test]
fn counting_and_prefixes() {
    assert_eq!(count_char_in("a\nb\n", '\n'), 2);
    assert_eq!(count_char_in("", '\n'), 0);
    assert!(starts_with_char("bash", 'b'));
    assert!(!starts_with_char("bash", 'a'));
    assert!(!starts_with_char("", 'a'));
}

/// The texts, from the largest number they read as to the smallest, as `parse::<f32>`
/// orders them; texts within one group read as equal numbers.
fn percent_groups() -> Vec<Vec<&'static str>> {
    vec![
        vec!["inf%", "+inf", "Infinity%", "INF", "999999999999999999999999999999999999999.00%"],
        vec!["1000000000000000000000.00%"],
        vec!["12.50%", "12.5%", "+12.504%%"],
        vec!["3.20%", "3.2"],
        vec!["0.50%", ".5%"],
        vec!["0.00%", "-0.00%", "abc", ".", "%", ""],
        vec!["-1.25"],
        vec!["-2000000000000000000000.00%"],
        vec!["-inf%", "-Infinity"],
    ]
}

#[test]
fn percentages_order_as_numbers() {
    let groups = percent_groups();
    for (gi, g) in groups.iter().enumerate() {
        for a in g {
            for b in g {
                assert_eq!(percent_key_of(a), percent_key_of(b), "{} {}", a, b);
            }
            for h in groups.iter().skip(gi + 1) {
                for b in h {
                    assert!(percent_key_of(a) < percent_key_of(b), "{} before {}", a, b);
                }
            }
        }
    }
}

#[test]
fn percentages_agree_with_f32_order() {
    let texts = [
        "inf%", "-inf%", "0.00%", "5.00%", "12.25%", "-3.00%", "1000000.00%", "0.01%",
        "340282356779733661637539395458142568447.00%", "340282356779733661637539395458142568448.00%",
    ];
    for a in texts {
        for b in texts {
            let fa: f32 = a.trim_end_matches('%').parse().unwrap();
            let fb: f32 = b.trim_end_matches('%').parse().unwrap();
            // Sorting is by decreasing number.
            assert_eq!(fa > fb, percent_key_of(a) < percent_key_of(b), "{} {}", a, b);
        }
    }
}
