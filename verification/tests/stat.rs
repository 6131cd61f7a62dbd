//! What a refresh spent its time on.
use taimux::stat::{capture, probe, report, reset, ssh};

/// The report names only what actually happened, so a slow refresh line is
/// about the thing that was slow rather than a row of zeroes to read past.
#[test]
fn the_report_omits_what_never_ran() {
    let mut s = reset();
    assert_eq!(report(&s, "0.0", "0.0", "0.0"), "");
    capture(&mut s, 3);
    capture(&mut s, 4);
    let r = report(&s, "0.0", "0.0", "0.0");
    assert!(r.starts_with("2 captures in "), "got {r:?}");
    assert!(!r.contains("ssh"), "got {r:?}");
}

#[test]
fn every_kind_is_counted_and_timed() {
    let mut s = reset();
    probe(&mut s, 10);
    ssh(&mut s, 20);
    assert_eq!(s.probes.micros, 10);
    assert_eq!(s.ssh.micros, 20);
    let r = report(&s, "0.0", "0.1", "0.2");
    assert!(r.contains("1 version probes in "), "got {r:?}");
    assert!(r.contains("1 ssh calls in "), "got {r:?}");
}

/// A reset has to clear the clock as well as the count, or the next refresh
/// inherits the last one's seconds and every report after a slow one lies.
#[test]
fn a_reset_clears_the_clock_too() {
    let mut s = reset();
    capture(&mut s, 5000);
    assert_eq!(s.captures.micros, 5000);
    s = reset();
    capture(&mut s, 0);
    assert_eq!(s.captures.micros, 0);
    let r = report(&s, "0.0", "0.0", "0.0");
    assert!(r.starts_with("1 captures in 0.0s"), "got {r:?}");
}

