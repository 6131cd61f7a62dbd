//! Sessions kept in a database.
use taimux::agents::opencode::{
    discover, fingerprint, messages_query, meta, meta_query, part_text, parts_query, prose,
    prose_query, quote, resume, role_of, stamp_query, turns, Message,
};
use taimux::agents::Meta;
use taimux::sqlite::Cell;


/// Ids come off rows the database handed back. One that could not have is
/// refused rather than escaped cleverly.
#[test]
fn an_id_that_could_end_a_string_literal_is_refused() {
    assert_eq!(quote("ses_abc123").as_deref(), Some("'ses_abc123'"));
    assert!(quote("a' OR 1=1 --").is_none());
    assert!(quote("a\"b").is_none());
    assert!(quote("a\nb").is_none());
    assert!(quote("").is_none());
    assert!(quote(&"x".repeat(200)).is_none());
}

#[test]
fn only_a_text_part_contributes_prose() {
    assert_eq!(
        part_text(r#"{"type":"text","text":"what was said"}"#).as_deref(),
        Some("what was said")
    );
    // a tool call is most of the bytes and none of the prose
    assert!(part_text(r#"{"type":"tool","state":{"output":"BIG"}}"#).is_none());
    assert!(part_text(r#"{"type":"text","text":""}"#).is_none());
}

#[test]
fn a_message_row_says_whose_turn_it_was() {
    assert_eq!(role_of(r#"{"role":"user"}"#), Some(true));
    assert_eq!(role_of(r#"{"role":"assistant"}"#), Some(false));
    assert_eq!(role_of(r#"{"role":"system"}"#), None);
    assert_eq!(role_of("{}"), None);
}

#[test]
fn the_resume_names_the_session() {
    assert_eq!(resume("ses_abc"), "command opencode --session ses_abc");
}

/// With no database, every one of these answers empty rather than failing:
/// a machine without OpenCode is the ordinary case.
#[test]
fn a_machine_without_opencode_simply_has_no_rows() {
    assert!(discover(&Vec::new()).is_empty());
    assert_eq!(meta(&None), Meta::default());
    assert_eq!(prose(0, &Vec::new()).text, "");
    assert!(turns(&Vec::new(), 3).is_empty());
}

#[test]
fn a_query_names_its_session_or_is_not_made() {
    for q in [
        stamp_query("ses_a"),
        meta_query("ses_a"),
        prose_query("ses_a"),
        messages_query("ses_a"),
        parts_query("ses_a"),
    ] {
        assert!(q.expect("made").contains("'ses_a'"));
    }
    assert_eq!(meta_query("a'b"), None);
    assert_eq!(fingerprint(&Cell::Int(77)), 77);
}

#[test]
fn a_message_is_what_its_parts_say() {
    let m = |id: &str, role: &str, text: &str| Message {
        id: id.into(),
        data: format!(r#"{{"role":"{role}"}}"#),
        parts: Some(vec![format!(r#"{{"type":"text","text":"{text}"}}"#)]),
    };
    // newest first, as the database hands them back
    let t = turns(&vec![m("2", "assistant", "the answer"), m("1", "user", "the ask")], 5);
    assert_eq!(t.len(), 2);
    let p = prose(
        5,
        &vec![Cell::Text(r#"{"type":"text","text":"said"}"#.into())],
    );
    assert_eq!(p.fingerprint, 5);
    assert!(p.whole);
    assert!(p.text.contains("said"));
}
