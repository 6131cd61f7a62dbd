//! Conversations kept one to a directory.
use taimux::agents::agy::{cwd_of, extract, id_of, meta, resume, turns, user_text};


fn t() -> String {
    [
        r#"{"type":"USER_INPUT","content":"<USER_REQUEST>\nfix the gpg agent\n</USER_REQUEST>\n<ADDITIONAL_METADATA>\nnoise\n</ADDITIONAL_METADATA>"}"#,
        r#"{"type":"PLANNER_RESPONSE","content":"Looking at the agent now"}"#,
        r#"{"type":"TOOL_CALL","content":"never shown"}"#,
        "",
    ]
    .join("\n")
}

/// The request is taken out of its marker, and the metadata block that rides
/// with it is not: that block is in every record and would match everything.
#[test]
fn only_the_request_half_of_a_user_record_is_kept() {
    let all = t();
    let t = user_text(all.lines().next().unwrap()).expect("request");
    assert_eq!(t, "fix the gpg agent");
    assert!(!t.contains("noise"));
}

/// A transcript that wrote the request bare is still readable.
#[test]
fn a_record_with_no_marker_is_taken_whole() {
    let l = r#"{"type":"USER_INPUT","content":"just this"}"#;
    assert_eq!(user_text(l).as_deref(), Some("just this"));
}

#[test]
fn the_prose_is_both_sides_and_nothing_else() {
    let p = extract(&t());
    assert!(p.contains("fix the gpg agent"), "{p}");
    assert!(p.contains("Looking at the agent now"), "{p}");
    assert!(!p.contains("never shown"), "{p}");
}

#[test]
fn turns_come_back_oldest_first() {
    let lines: Vec<String> = t().lines().map(|l| l.to_string()).collect();
    let t = turns(&lines, 5);
    assert_eq!(t.len(), 2);
    assert!(t[0].you);
    assert!(!t[1].you);
}

/// The id is the directory three levels above the transcript, and it is what
/// `--conversation` takes.
#[test]
fn the_conversation_id_comes_off_the_path() {
    let k = "/h/.gemini/antigravity-cli/brain/abc-123/.system_generated/logs/transcript.jsonl";
    assert_eq!(id_of(k), "abc-123");
    assert_eq!(
        resume(k).expect("resumable"),
        "command agy --conversation abc-123"
    );
    // …and a path that is not one refuses rather than resuming nothing
    assert!(resume("transcript.jsonl").is_err());
}

#[test]
fn the_directory_is_looked_up_in_the_history() {
    let h = r#"{"display":"x","conversationId":"abc-123","workspace":"/w"}"#;
    assert_eq!(cwd_of(Some(h), "abc-123"), "/w");
    assert_eq!(cwd_of(Some(h), "other"), "");
    let k = "/h/brain/abc-123/.system_generated/logs/transcript.jsonl";
    let m = meta(k, Some(h), Some(&t()));
    assert_eq!(m.cwd, "/w");
    assert_eq!(m.title, "fix the gpg agent");
}

/// A step up is no conversation.
#[test]
fn a_step_up_has_no_id() {
    assert_eq!(id_of("/b/../x/y/z"), "");
    assert_eq!(id_of("/brain/./u-1/x/y/z"), "u-1");
    assert!(resume("/b/../x/y/z").is_err());
}
