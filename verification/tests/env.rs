//! Reading a setting.
use taimux::env::{is, num, on};

#[test]
fn num_takes_the_default_when_unset_or_junk() {
    assert_eq!(num(None, 7), 7);
    assert_eq!(num(Some("not a number"), 7), 7);
    assert_eq!(num(Some("12"), 7), 12);
    assert_eq!(num(Some("18446744073709551616"), 7), 7);
}

#[test]
fn on_is_true_unless_zero() {
    assert!(on(None));
    assert!(!on(Some("0")));
    assert!(on(Some("1")));
}

/// A variable cleared to nothing is set, and is not the same as unset.
#[test]
fn an_empty_value_is_a_value() {
    assert!(is(Some(""), ""));
    assert!(!is(None, ""));
}

