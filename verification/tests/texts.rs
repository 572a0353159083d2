use planning::text::{contains, join, starts_with, to_decimal};

#[test]
fn numbers_in_decimal() {
    assert_eq!(to_decimal(0), "0");
    assert_eq!(to_decimal(9), "9");
    assert_eq!(to_decimal(10), "10");
    assert_eq!(to_decimal(1203), "1203");
    assert_eq!(to_decimal(usize::MAX), format!("{}", usize::MAX));
}

#[test]
fn joining() {
    let none: Vec<String> = vec![];
    assert_eq!(join(&none, ", "), "");
    assert_eq!(join(&["x".to_string()], ", "), "x");
    assert_eq!(join(&["x".to_string(), "".to_string(), "z".to_string()], ", "), "x, , z");
}

#[test]
fn prefixes_and_parts() {
    assert!(starts_with("KvToKv", "Kv"));
    assert!(starts_with("K", ""));
    assert!(!starts_with("K", "Kv"));
    assert!(!starts_with("vK", "K"));
    assert!(contains("reach_sip", "_sip"));
    assert!(contains("a_sip_b", "_sip"));
    assert!(contains("", ""));
    assert!(contains("é_sip", "_sip"));
    assert!(!contains("sip", "_sip"));
    assert!(!contains("_si_p", "_sip"));
}
