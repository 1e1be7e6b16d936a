use metarepo::versioning::{is_more_recent_str, split_version, strip_dash_str, Versioning};

#[test]
fn more_recent_patch_difference() {
    assert!(is_more_recent_str("1.2.0", "1.1.9"));
}

#[test]
fn more_recent_two_digit_component() {
    // The comparison must look past the equal leading component.
    assert!(is_more_recent_str("1.10.0", "1.9.0"));
}

#[test]
fn more_recent_qualifier_stripped() {
    // "1.0.0-beta" reads as 1.0.0, so neither side is newer.
    assert!(!is_more_recent_str("1.0.0-beta", "1.0.0"));
    assert!(!is_more_recent_str("1.0.0", "1.0.0-beta"));
}

#[test]
fn more_recent_is_strict() {
    assert!(!is_more_recent_str("1.2.0", "1.2.0"));
    assert!(!is_more_recent_str("1.1.9", "1.2.0"));
    assert!(!is_more_recent_str("1.9.0", "1.10.0"));
}

#[test]
fn more_recent_missing_components_are_zero() {
    assert!(!is_more_recent_str("1.2", "1.2.0"));
    assert!(!is_more_recent_str("1.2.0", "1.2"));
    assert!(is_more_recent_str("1.2.1", "1.2"));
    assert!(is_more_recent_str("2", "1.9.9"));
}

#[test]
fn split_version_components() {
    assert_eq!(split_version("1.10.0"), vec![1, 10, 0]);
    assert_eq!(split_version("0.0.7"), vec![0, 0, 7]);
    assert_eq!(split_version("3"), vec![3]);
    assert_eq!(split_version("1.0.0-beta"), vec![1, 0, 0]);
}

#[test]
fn split_version_large_component() {
    assert_eq!(split_version("1.18446744073709551615.0"), vec![1, u64::MAX, 0]);
}

#[test]
fn strip_dash_variant_cuts_qualifier() {
    assert_eq!(strip_dash_str("0-beta"), "0");
    assert_eq!(strip_dash_str("12"), "12");
    assert_eq!(strip_dash_str("-rc"), "");
}

#[test]
fn versioning_trait_on_string() {
    let a = String::from("1.2.0");
    assert!(a.is_more_recent("1.1.9"));
    assert_eq!(a.split_dot_version(), vec![1, 2, 0]);
    let q = String::from("4-alpha");
    assert_eq!(q.strip_dash_variant(), "4");
}
