use lazyscan::version::{parse_number, Epoch, Version};

fn v(text: &str) -> Version {
    Version::parse(text)
}

#[test]
fn exact_version_contains_itself_only() {
    let spec = v("2.4.49");
    assert!(spec.contains(&v("2.4.49")));
    assert!(!spec.contains(&v("2.4.50")));
}

#[test]
fn range_component_lower_inclusive_upper_exclusive() {
    let spec = v("2.4.46-52");
    assert_eq!(spec.epochs, vec![Epoch::Point(2), Epoch::Point(4), Epoch::Range(46, 52)]);
    assert!(spec.contains(&v("2.4.49")));
    assert!(spec.contains(&v("2.4.46")));
    assert!(!spec.contains(&v("2.4.52")));
    assert!(!spec.contains(&v("2.5.1")));
    assert!(!spec.contains(&v("2.4.45")));
}

#[test]
fn hyphen_across_dots_splits_into_five_components() {
    let spec = v("2.4.46-2.4.52");
    assert_eq!(
        spec.epochs,
        vec![
            Epoch::Point(2),
            Epoch::Point(4),
            Epoch::Range(46, 2),
            Epoch::Point(4),
            Epoch::Point(52),
        ]
    );
    assert!(!spec.contains(&v("2.4.49")));
}

#[test]
fn length_mismatch_never_matches() {
    let spec = v("1.2.3");
    assert!(!spec.contains(&v("1.2")));
    assert!(!spec.contains(&v("1.2.3.4")));
    let wide = v("0-100.0-100.0-100");
    assert!(wide.contains(&v("1.2.3")));
    assert!(!wide.contains(&v("1.2")));
    assert!(!wide.contains(&v("1.2.3.4")));
}

#[test]
fn range_takes_first_and_last_number() {
    assert_eq!(v("1-x-5-9").epochs, vec![Epoch::Range(1, 9)]);
    assert_eq!(v("7-").epochs, vec![Epoch::Point(7)]);
}

#[test]
fn unparseable_components_are_dropped() {
    assert_eq!(v("2.x.4").epochs, vec![Epoch::Point(2), Epoch::Point(4)]);
    assert_eq!(v("").epochs, vec![]);
    assert_eq!(v("1.2.3b").epochs, vec![Epoch::Point(1), Epoch::Point(2)]);
}

#[test]
fn observed_range_shifts_the_comparison() {
    // The observed `3-4` is a range: it keeps its place for the length test
    // but gives no point value, so the `9` after it meets the second epoch.
    assert!(v("1.9.7").contains(&v("1.3-4.9")));
    assert!(!v("1.3.9").contains(&v("1.3-4.9")));
    assert!(v("9.9.5").contains(&v("1-2.9.9")));
}

#[test]
fn numbers_follow_u64_syntax() {
    let n = |s: &str| parse_number(&s.chars().collect::<Vec<char>>());
    assert_eq!(n("0"), Some(0));
    assert_eq!(n("+12"), Some(12));
    assert_eq!(n("007"), Some(7));
    assert_eq!(n(""), None);
    assert_eq!(n("+"), None);
    assert_eq!(n("-1"), None);
    assert_eq!(n("1a"), None);
    assert_eq!(n("18446744073709551615"), Some(u64::MAX));
    assert_eq!(n("18446744073709551616"), None);
}

#[test]
fn epoch_contains_points_and_ranges() {
    assert!(Epoch::Point(3).contains(3));
    assert!(!Epoch::Point(3).contains(4));
    assert!(Epoch::Range(3, 5).contains(3));
    assert!(Epoch::Range(3, 5).contains(4));
    assert!(!Epoch::Range(3, 5).contains(5));
}
