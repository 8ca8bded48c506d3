use fas_rs::cpu_info::{parse_cores, parse_frequencies, parse_policy, Info, InfoError};
use fas_rs::text::{
    decimal_text, parse_i32, parse_isize, parse_u64, parse_usize, skip_bytes, split_whitespace,
    text_before, trim,
};

fn chars(s: &str) -> Vec<char> {
    s.chars().collect()
}

fn cases() -> Vec<&'static str> {
    vec![
        "", "0", "+0", "-0", "+", "-", "7", "007", "-12", "+12", "1 2", " 1", "1a", "--1", "+-1",
        "2147483647", "2147483648", "-2147483648", "-2147483649", "9223372036854775807",
        "9223372036854775808", "-9223372036854775808", "-9223372036854775809",
        "18446744073709551615", "18446744073709551616", "99999999999999999999999",
        "00000000000000000000000000000001", "\u{661}",
    ]
}

#[test]
fn numbers_are_read_as_the_standard_library_reads_them() {
    for s in cases() {
        assert_eq!(parse_u64(&chars(s)), s.parse::<u64>().ok(), "{s}");
        assert_eq!(parse_usize(&chars(s)), s.parse::<usize>().ok(), "{s}");
        assert_eq!(parse_isize(&chars(s)), s.parse::<isize>().ok(), "{s}");
        assert_eq!(parse_i32(&chars(s)), s.parse::<i32>().ok(), "{s}");
    }
}

#[test]
fn white_space_is_split_as_the_standard_library_splits_it() {
    for s in ["", " ", "a", " a b\tc\n", "300000 600000  900000\n", "a\u{3000}b\u{85}c\u{200b}d"] {
        let words: Vec<String> =
            split_whitespace(s).iter().map(|w| w.iter().collect::<String>()).collect();
        let expected: Vec<String> = s.split_whitespace().map(|w| w.to_owned()).collect();
        assert_eq!(words, expected, "{s:?}");
        assert_eq!(trim(s), chars(s.trim()), "{s:?}");
    }
}

#[test]
fn a_written_number_is_read_back() {
    for n in [0, 1, 9, 10, 60, 144, 1_000_000_007, u32::MAX] {
        assert_eq!(decimal_text(n), n.to_string());
        assert_eq!(parse_u64(&chars(&decimal_text(n))), Some(u64::from(n)));
    }
}

#[test]
fn text_ends_before_the_mark() {
    assert_eq!(text_before("com.game:service", ':'), "com.game");
    assert_eq!(text_before("com.game", ':'), "com.game");
    assert_eq!(text_before(":x", ':'), "");
    assert_eq!(text_before("", ':'), "");
}

#[test]
fn bytes_are_skipped_only_at_character_boundaries() {
    let odd = ["p\u{e9}\u{20ac}x", "p\u{e9}\u{20ac}", "\u{1f600}ab1"];
    for s in ["policy4", "policy", "polic", "", odd[0], odd[1], odd[2]] {
        for n in 0..8 {
            assert_eq!(skip_bytes(s, n), s.get(n..).map(chars), "{s} {n}");
        }
    }
}

#[test]
fn policy_number_follows_the_first_six_bytes() {
    assert_eq!(parse_policy("policy0"), Ok(0));
    assert_eq!(parse_policy("policy7"), Ok(7));
    assert_eq!(parse_policy("policy-1"), Ok(-1));
    assert_eq!(parse_policy("polic"), Err(InfoError::InvalidPolicyFormat));
    assert_eq!(parse_policy("polic\u{e9}7"), Err(InfoError::InvalidPolicyFormat));
    assert_eq!(parse_policy("policy"), Err(InfoError::PolicyNotANumber));
    assert_eq!(parse_policy("policyx"), Err(InfoError::PolicyNotANumber));
}

#[test]
fn frequencies_and_cores_are_lists_of_numbers() {
    assert_eq!(parse_frequencies("300000 1800000 600000\n"), Ok(vec![300_000, 1_800_000, 600_000]));
    assert_eq!(parse_frequencies("\n"), Ok(vec![]));
    assert_eq!(parse_frequencies("300000 fast"), Err(InfoError::FrequencyNotANumber));
    assert_eq!(parse_cores("4 5 6 7\n"), Some(vec![4, 5, 6, 7]));
    assert_eq!(parse_cores("4 -5"), None);
    assert_eq!(Info::read_freq(" 1804800\n"), Some(1_804_800));
    assert_eq!(Info::read_freq("none"), None);
    assert_eq!(Info::read_freq_khz("1804800\n"), Some(1_804_800));
    assert_eq!(Info::read_freq_khz("-1"), None);
}
