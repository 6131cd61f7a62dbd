//! What the kernel says of a process.
use taimux::proc::{
    children_of, foreground_map, front_tty, parse_stat, read_argv, tty_name, Scanned,
};


/// The kernel's own new_encode_dev, so the tests build what /proc really prints.
fn encode(major: i64, minor: i64) -> i64 {
    (minor & 0xff) | (major << 8) | ((minor & !0xff) << 12)
}

#[test]
fn pts_devices_decode_to_their_name() {
    assert_eq!(tty_name(encode(136, 110)), Some("pts/110".into()));
    assert_eq!(tty_name(encode(136, 0)), Some("pts/0".into()));
}

#[test]
fn a_minor_above_255_survives_the_split_encoding() {
    // the case that catches reading tty_nr as a contiguous number
    assert_eq!(tty_name(encode(136, 261)), Some("pts/261".into()));
    assert_eq!(tty_name(encode(136, 4095)), Some("pts/4095".into()));
}

#[test]
fn a_process_with_no_terminal_has_no_tty() {
    assert_eq!(tty_name(0), None);
}

#[test]
fn non_pts_terminals_are_ignored() {
    assert_eq!(tty_name((4 << 8) | 1), None); // tty1, a real console
}

#[test]
fn stat_is_parsed_past_the_comm_field() {
    // pid comm state ppid pgrp session tty_nr tpgid ...
    let s = "1234 (bash) S 1 1234 1234 34816 1234 4194304 0 0";
    assert_eq!(parse_stat(s), Some((1234, 34816, 1234)));
}

#[test]
fn a_comm_containing_spaces_and_parens_does_not_break_it() {
    // This is why the split is at the LAST ')' and not on whitespace.
    let s = "77 (weird ) name) S 1 99 99 34816 42 0";
    assert_eq!(parse_stat(s), Some((99, 34816, 42)));
}

#[test]
fn a_truncated_stat_line_is_refused_rather_than_guessed() {
    assert_eq!(parse_stat("1234 (bash) S 1"), None);
    assert_eq!(parse_stat("no parens here"), None);
}

fn process(pid: i32, stat: &str, cmdline: &str) -> Scanned {
    Scanned {
        pid,
        stat: stat.to_string(),
        cmdline: cmdline.to_string(),
    }
}

/// A process is its parent's child, and nobody else's.
#[test]
fn a_process_is_its_parents_child() {
    let all = vec![
        process(77, "77 (weird ) name) S 12 99 99 34816 42 0", ""),
        process(12, "12 (bash) S 1 12 12 34816 12 0", ""),
        process(31, "31 (node) S 12 99 99 34816 42 0", ""),
        process(40, "gone", ""),
    ];
    assert_eq!(children_of(12, &all), [31, 77]);
    assert_eq!(children_of(1, &all), [12]);
    assert!(children_of(77, &all).is_empty());
}

#[test]
fn nothing_is_a_child_of_a_nonsense_pid() {
    let all = vec![process(5, "5 (x) S 0 5 5 34816 5 0", "")];
    assert!(children_of(0, &all).is_empty());
    assert!(children_of(-1, &all).is_empty());
}

#[test]
fn only_what_leads_its_terminal_is_in_front() {
    let front = format!("8 (coder) S 1 8 8 {} 8 0", encode(136, 3));
    let back = format!("9 (make) S 1 9 8 {} 8 0", encode(136, 3));
    assert_eq!(front_tty(&front), Some("pts/3".into()));
    assert_eq!(front_tty(&back), None);
    let map = foreground_map(&vec![
        process(9, &back, "make\0"),
        process(8, &front, "coder\0--effort\0max\0"),
    ]);
    assert_eq!(map.len(), 1);
    assert_eq!(map[0].tty, "pts/3");
    assert_eq!(map[0].pid, 8);
    assert_eq!(map[0].argv, "coder --effort max");
}

#[test]
fn a_process_with_no_argv_has_none() {
    assert_eq!(read_argv(""), None);
    assert_eq!(read_argv("a\0b\0"), Some("a b".into()));
}
