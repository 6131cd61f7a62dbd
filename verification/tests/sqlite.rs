//! A value out of a store.
use taimux::sqlite::{available, link_name, Cell};


#[test]
fn a_cell_reads_as_either_text_or_a_number() {
    assert_eq!(Cell::Text("abc".into()).text(), "abc");
    assert_eq!(Cell::Int(42).text(), "42");
    assert_eq!(Cell::Null.text(), "");
    assert_eq!(Cell::Int(42).integer(), 42);
    // these stores are not consistent about which they used
    assert_eq!(Cell::Text("1787640865115".into()).integer(), 1787640865115);
    assert_eq!(Cell::Text("not a number".into()).integer(), 0);
    assert_eq!(Cell::Null.integer(), 0);
}

/// The same source always reaches the same link, under a name that is one plain word.
#[test]
fn one_store_is_reached_through_one_link() {
    assert_eq!(link_name("/home/u/some.db"), link_name("/home/u/some.db"));
    assert_ne!(link_name("/home/u/some.db"), link_name("/home/u/other.db"));
    assert_eq!(link_name("/home/u/some.db"), "_home_u_some_db");
}

/// A build is allowed to drop the engine; what it may not do is make its
/// callers know about it.
#[test]
fn the_engine_reports_whether_it_is_here() {
    assert!(available());
}
