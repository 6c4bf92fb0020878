use port_kill::update::{compare_versions, evaluate_release, should_skip_check, tag_version};

#[test]
fn versions_compare_by_text() {
    assert!(!compare_versions("0.5.2", "0.5.2"));
    assert!(compare_versions("0.5.2", "0.5.3"));
    assert!(compare_versions("0.5.2", "0.5.20"));
}

#[test]
fn checks_are_skipped_within_a_day() {
    assert!(should_skip_check(1000, 1000));
    assert!(should_skip_check(1000, 1000 + 86399));
    assert!(!should_skip_check(1000, 1000 + 86400));
    assert!(!should_skip_check(0, 200000));
    assert!(!should_skip_check(5000, 10));
}

#[test]
fn releases_are_evaluated_against_the_running_version() {
    assert_eq!(tag_version("v1.2.0"), "1.2.0");
    assert_eq!(tag_version("vv2"), "2");
    assert_eq!(tag_version("1.0"), "1.0");
    assert!(evaluate_release("1.2.0", "v1.2.0", "u", "n", 5).is_none());
    let info = evaluate_release("1.2.0", "v1.3.0", "https://example.org/r", "notes", 42).unwrap();
    assert_eq!(info.latest_version, "1.3.0");
    assert_eq!(info.current_version, "1.2.0");
    assert!(info.is_update_available);
    assert_eq!(info.release_url, "https://example.org/r");
    assert_eq!(info.last_checked, 42);
}
