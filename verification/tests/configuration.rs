//! Settings and their defaults.

use loop_guard::settings::{
    address, env_or, env_or_usize, is_verbose, parse_number, upstream_base, DEFAULT_HOST,
    DEFAULT_MIN_STEP_WORDS, DEFAULT_MODEL_NAME, DEFAULT_PORT, DEFAULT_UPSTREAM_HOST,
    DEFAULT_UPSTREAM_PORT,
};

fn given(s: &str) -> Option<String> {
    Some(s.to_string())
}

#[test]
fn empty_and_absent_settings_fall_back() {
    assert_eq!(env_or(None, "x"), "x");
    assert_eq!(env_or(given(""), "x"), "x");
    assert_eq!(env_or(given("y"), "x"), "y");
}

#[test]
fn numbers_are_decimal_and_fit() {
    assert_eq!(parse_number("0"), Some(0));
    assert_eq!(parse_number("+0042"), Some(42));
    assert_eq!(parse_number("18446744073709551615"), "18446744073709551615".parse().ok());
    assert_eq!(parse_number("18446744073709551616"), None);
    assert_eq!(parse_number("99999999999999999999999"), None);
    assert_eq!(parse_number(""), None);
    assert_eq!(parse_number("+"), None);
    assert_eq!(parse_number("-1"), None);
    assert_eq!(parse_number(" 1"), None);
    assert_eq!(parse_number("1x"), None);
    assert_eq!(parse_number("\u{661}"), None);
}

#[test]
fn numeric_settings_fall_back() {
    assert_eq!(env_or_usize(None, 15), 15);
    assert_eq!(env_or_usize(given(""), 15), 15);
    assert_eq!(env_or_usize(given("many"), 15), 15);
    assert_eq!(env_or_usize(given("0"), 15), 0);
}

#[test]
fn only_one_is_verbose() {
    assert!(is_verbose(given("1")));
    assert!(!is_verbose(given("true")));
    assert!(!is_verbose(given("")));
    assert!(!is_verbose(None));
}

#[test]
fn addresses_are_put_together() {
    assert_eq!(address("localhost", "80"), "localhost:80");
    assert_eq!(upstream_base("127.0.0.1", "8901"), "http://127.0.0.1:8901");
}

#[test]
fn defaults_are_as_documented() {
    assert_eq!(DEFAULT_HOST, "127.0.0.1");
    assert_eq!(DEFAULT_PORT, "8898");
    assert_eq!(DEFAULT_UPSTREAM_HOST, "127.0.0.1");
    assert_eq!(DEFAULT_UPSTREAM_PORT, "8901");
    assert_eq!(DEFAULT_MIN_STEP_WORDS, 15);
    assert_eq!(DEFAULT_MODEL_NAME, "qwen3.6-35b-a3b-gpu");
}
