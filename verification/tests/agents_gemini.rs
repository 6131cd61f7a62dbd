//! Session logs, in either of their two layouts.
use taimux::agents::gemini::{extract, meta, project_map, resume, scan_turns, turns};


fn log() -> String {
    [
        r#"{"sessionId":"s1","projectHash":"HASH","kind":"main"}"#,
        r#"{"id":"m1","type":"user","content":"the first question"}"#,
        r#"{"id":"m2","type":"gemini","content":[{"text":"the first answer"}]}"#,
        r#"{"id":"m3","type":"user","content":"the second question"}"#,
        "",
    ]
    .join("\n")
}

/// The legacy layout: one pretty-printed object with a `messages` array, and
/// whitespace after every colon. A line-based
/// reader finds nothing at all in it.
const LEGACY: &str = r#"{
  "sessionId": "s1",
  "projectHash": "HASH",
  "messages": [
{
  "id": "m1",
  "type": "user",
  "content": [
    { "text": "the first question" }
  ]
},
{
  "id": "m2",
  "type": "gemini",
  "content": [
    { "text": "the first answer" }
  ]
}
  ]
}"#;

#[test]
fn both_content_shapes_are_read() {
    let t = scan_turns(&log());
    assert_eq!(t.len(), 3);
    assert_eq!(t[0].text, "the first question");
    assert!(t[0].you);
    assert_eq!(t[1].text, "the first answer");
    assert!(!t[1].you);
}

/// Both LAYOUTS, read by the same code, which is the point of reading them
/// by marker rather than by line.
#[test]
fn the_legacy_layout_reads_the_same_as_the_current_one() {
    let t = scan_turns(LEGACY);
    assert_eq!(t.len(), 2, "{:?}", t);
    assert_eq!(t[0].text, "the first question");
    assert!(t[0].you);
    assert_eq!(t[1].text, "the first answer");
    assert!(!t[1].you);
}

/// A rewind drops its target AND everything after it.
#[test]
fn a_rewind_deletes_the_run_it_points_at() {
    let log = format!("{}{}\n", log(), r#"{"$rewindTo":"m2"}"#);
    let t = scan_turns(&log);
    assert_eq!(t.len(), 1, "{:?}", t);
    assert_eq!(t[0].text, "the first question");
}

/// The block the harness writes at the top of a session carries the whole
/// workspace listing. Indexing it would put every project's file names in
/// every conversation that touched that project.
#[test]
fn the_injected_context_block_never_reaches_the_index() {
    let p = extract(
        r#"{"id":"m1","type":"user","content":"<session_context>\nWorkspace: /w\n├───secrets.yaml\n</session_context>\nthe real question"}"#,
    );
    assert!(p.contains("the real question"), "{p}");
    assert!(!p.contains("secrets.yaml"), "{p}");
}

#[test]
fn the_prose_index_covers_both_sides() {
    let p = extract(&log());
    assert!(p.contains("the first question"), "{p}");
    assert!(p.contains("the first answer"), "{p}");
    // the header is not a turn
    assert!(!p.contains("HASH"), "{p}");
}

/// The id comes off the header, and off the filename when there is no
/// header to read: the filename carries only the first eight characters,
/// which is what Gemini's own lookup matches on.
#[test]
fn the_session_id_comes_from_the_header_or_the_filename() {
    let f = "/t/chats/session-2026-06-05T11-40-5095293a.jsonl";
    assert_eq!(
        resume(f, Some(&log())).expect("resumable"),
        "command gemini --resume s1"
    );
    // no header: the filename's tail stands in
    assert_eq!(
        resume(f, Some("")).expect("resumable"),
        "command gemini --resume 5095293a"
    );
}

/// The directory comes off the project the log names.
#[test]
fn the_directory_is_the_projects() {
    let projects = project_map(r#"{"projects":{"/w/one":"one","/w/two":"two"}}"#);
    assert_eq!(projects.len(), 2);
    let m = meta("/h/tmp/two/chats/session-a.json", Some(&log()), &projects);
    assert_eq!(m.cwd, "/w/two");
    assert_eq!(m.title, "the first question");
    assert_eq!(turns(&log(), 1).len(), 1);
}
