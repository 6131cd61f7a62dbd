//! Reading a field out of a line.
use taimux::json::{array_has_items, field, first, scan};


#[test]
fn a_plain_field() {
    assert_eq!(first(r#"{"a":"b"}"#, "a").as_deref(), Some("b"));
    assert_eq!(scan(r#"{"a":"b"}"#, "a").as_deref(), Some("b"));
    assert_eq!(field(r#"{"a":"b"}"#, "a"), "b");
}

#[test]
fn whitespace_around_the_colon_is_allowed() {
    let t = "{\n  \"version\"  :   \"1.2.3\"\n}";
    assert_eq!(first(t, "version").as_deref(), Some("1.2.3"));
    assert_eq!(scan(t, "version").as_deref(), Some("1.2.3"));
}

#[test]
fn an_absent_field() {
    assert_eq!(first("{}", "version"), None);
    assert_eq!(scan("{}", "version"), None);
    assert_eq!(field("{}", "version"), "");
}

/// The one case that separates them.
///
/// A decoy only counts if it is the key **exactly as quoted**, `"key"`, since
/// that is the needle. Prose mentioning the bare word does not divert either
/// function, and neither does an escaped `\"key\"`, because the backslash
/// sits where the closing quote would have to be and the needle simply does
/// not match there. Both are asserted, because both look like they should
/// diverge and neither does.
#[test]
fn only_scan_looks_past_a_false_first_hit() {
    let prose = r#"{"prompt":"what is permission_mode for","permission_mode":"plan"}"#;
    assert_eq!(scan(prose, "permission_mode").as_deref(), Some("plan"));
    assert_eq!(first(prose, "permission_mode").as_deref(), Some("plan"));

    let escaped = r#"{"note":"\"permission_mode\" is unset","permission_mode":"plan"}"#;
    assert_eq!(scan(escaped, "permission_mode").as_deref(), Some("plan"));
    assert_eq!(first(escaped, "permission_mode").as_deref(), Some("plan"));

    // A quoted token that is NOT a key: the needle matches, and what follows
    // is `]` rather than a colon. THIS is where they part company.
    let listed = r#"{"fields":["permission_mode"],"permission_mode":"plan"}"#;
    assert_eq!(scan(listed, "permission_mode").as_deref(), Some("plan"));
    assert_eq!(first(listed, "permission_mode"), None);
}

#[test]
fn an_array_is_empty_or_not() {
    let done = r#"{"hook_event_name":"Stop","background_tasks":[],"session_crons":[]}"#;
    assert_eq!(array_has_items(done, "background_tasks"), Some(false));
    let busy = r#"{"background_tasks":[ {"id":"t1","type":"shell","status":"running"} ]}"#;
    assert_eq!(array_has_items(busy, "background_tasks"), Some(true));
    assert_eq!(array_has_items(r#"{"a":1}"#, "background_tasks"), None);
    // the key quoted as somebody's value, then the real one
    let decoy = r#"{"fields":["background_tasks"],"background_tasks":[ ]}"#;
    assert_eq!(array_has_items(decoy, "background_tasks"), Some(false));
}

#[test]
fn a_non_string_value_is_not_a_match() {
    assert_eq!(first(r#"{"n":12}"#, "n"), None);
    assert_eq!(field(r#"{"n":12}"#, "n"), "");
}

/// A value ends at the next quote, and one that never ends is no value.
#[test]
fn a_value_is_read_to_the_next_quote() {
    assert_eq!(first(r#"{"a":"x y","b":"z"}"#, "a").as_deref(), Some("x y"));
    assert_eq!(first(r#"{"a":"unclosed"#, "a"), None);
    assert_eq!(field(r#"{"a":"unclosed"#, "a"), "");
}
