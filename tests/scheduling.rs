use pwgen::schedule::{class_candidates, count_missing, next_class};
use pwgen::success::adaptive_retry_bound;
use pwgen::CharClass;
use pwgen::CharClass::{Digit, Lower, Special, Upper};

#[test]
fn all_classes_are_candidates_at_the_start() {
    assert_eq!(class_candidates(None, &[false; 4], 16), vec![Upper, Lower, Digit, Special]);
}

#[test]
fn previous_class_is_excluded() {
    assert_eq!(class_candidates(Some(Upper), &[true, false, false, false], 15), vec![Lower, Digit, Special]);
    assert_eq!(class_candidates(Some(Special), &[true; 4], 3), vec![Upper, Lower, Digit]);
}

#[test]
fn forcing_rule_keeps_only_missing_classes() {
    assert_eq!(class_candidates(Some(Lower), &[true, true, false, false], 2), vec![Digit, Special]);
    assert_eq!(class_candidates(Some(Digit), &[true, true, true, false], 1), vec![Special]);
    assert_eq!(class_candidates(Some(Lower), &[true, true, false, false], 3), vec![Upper, Digit, Special]);
}

#[test]
fn draw_selects_among_candidates() {
    assert_eq!(next_class(None, 0, 16, &[false; 4], 5), Some(Lower));
    assert_eq!(next_class(Some(Upper), 1, 16, &[true, false, false, false], 3), Some(Lower));
    assert_eq!(next_class(Some(Digit), 15, 16, &[true, true, true, false], 12345), Some(Special));
    assert_eq!(count_missing(&[true, false, true, false]), 2);
    assert_eq!(CharClass::Special.index(), 3);
}

#[test]
fn adaptive_bound_values() {
    assert_eq!(adaptive_retry_bound(0, 0, 16), 32);
    assert_eq!(adaptive_retry_bound(0, 0, 4), 32);
    assert_eq!(adaptive_retry_bound(0, 10, 16), 1600);
    assert_eq!(adaptive_retry_bound(1, 100, 10), 1600);
    assert_eq!(adaptive_retry_bound(10, 10, 20), 40);
    assert_eq!(adaptive_retry_bound(1, 3, 16), 48);
    assert_eq!(adaptive_retry_bound(2, 5, 16), 48);
    assert_eq!(adaptive_retry_bound(1, 50, 90), 4500);
}

#[test]
fn adaptive_bound_grows_as_rate_falls() {
    let mut last = 0usize;
    for s in (0..=100u64).rev() {
        let b = adaptive_retry_bound(s, 100, 30);
        assert!(b >= last);
        assert!(b >= 30 && b <= 3000);
        last = b;
    }
}
