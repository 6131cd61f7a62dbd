//! Text, numbers and the small collections.
use taimux::log::trim_log;
use taimux::order::{order, sort};
use taimux::table::Table;
use taimux::text::{
    dec, dec_int, lines, parse_i32, parse_i64, parse_u64, replace, split, words,
};

#[test]
fn lines_and_fields_are_what_std_says() {
    for s in ["", "a", "a\n", "a\n\nb", "a\r\nb\r\n", "\n", "a\rb"] {
        assert_eq!(lines(s), s.lines().collect::<Vec<_>>(), "{s:?}");
        assert_eq!(split(s, 'a'), s.split('a').collect::<Vec<_>>(), "{s:?}");
    }
    let spaced = " one\t two\u{a0}three\u{3000}four ";
    assert_eq!(words(spaced), spaced.split_whitespace().collect::<Vec<_>>());
    assert_eq!(replace("a  b  c", "  ", " "), "a b c");
}

#[test]
fn numbers_are_read_as_std_reads_them() {
    for s in [
        "0", "12", "+7", "-7", "-0", "", "+", "-", "1x", " 1", "007", "18446744073709551615",
        "18446744073709551616", "9223372036854775807", "9223372036854775808",
        "-9223372036854775808", "-9223372036854775809", "2147483648", "-2147483648",
    ] {
        assert_eq!(parse_u64(s), s.parse::<u64>().ok(), "{s:?}");
        assert_eq!(parse_i64(s), s.parse::<i64>().ok(), "{s:?}");
        assert_eq!(parse_i32(s), s.parse::<i32>().ok(), "{s:?}");
    }
    for n in [0u64, 9, 10, 100, u64::MAX] {
        assert_eq!(dec(n), n.to_string());
    }
    for n in [0i64, -1, i64::MIN, i64::MAX] {
        assert_eq!(dec_int(n), n.to_string());
    }
}

/// Keys are put in order, and equal ones keep the order they came in.
#[test]
fn an_order_is_stable() {
    assert_eq!(order(&vec![3, 1, 2, 1]), [1, 3, 2, 0]);
    assert_eq!(sort(&vec![3, -1, 2]), [-1, 2, 3]);
}

#[test]
fn a_table_keeps_the_last_value_of_a_key() {
    let mut t = Table::new();
    assert_eq!(t.get("a"), None);
    t.insert("a".into(), "1".into());
    t.insert("b".into(), "2".into());
    t.insert("a".into(), "3".into());
    assert_eq!(t.get("a").as_deref(), Some("3"));
    assert_eq!(t.get("b").as_deref(), Some("2"));
}

#[test]
fn a_log_is_cut_to_its_last_lines() {
    assert_eq!(trim_log("a\nb\nc\n", 3, 2), None);
    assert_eq!(trim_log("a\nb\nc\nd\n", 3, 2).as_deref(), Some("c\nd\n"));
}
