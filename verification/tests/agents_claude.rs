//! Transcripts kept one to a file, under a project.
use taimux::agents::claude::{discover, extract, meta, resume, turns};
use taimux::agents::File;

fn lines(body: &str) -> Vec<String> {
    body.lines().map(|l| l.to_string()).collect()
}

#[test]
fn meta_reads_backwards_and_prefers_a_custom_title() {
    let m = meta(&vec![
        r#"{"cwd":"/w","version":"2.1.1"}"#.to_string(),
        r#"{"type":"ai-title","aiTitle":"what the model called it"}"#.to_string(),
        r#"{"type":"custom-title","customTitle":"what I called it"}"#.to_string(),
    ]);
    assert_eq!((m.cwd.as_str(), m.version.as_str()), ("/w", "2.1.1"));
    assert_eq!(m.title, "what I called it");
    assert_eq!(m.src, "t");
}

/// An untitled session falls back to the last prompt, and says so with `p`,
/// because a LIVE pane may borrow a real title but never a prompt.
#[test]
fn an_untitled_session_falls_back_to_its_last_prompt() {
    let m = meta(&vec![
        r#"{"cwd":"/w","version":"2.1.1"}"#.to_string(),
        r#"{"type":"last-prompt","lastPrompt":"the thing\nI asked"}"#.to_string(),
    ]);
    assert_eq!(m.title, "the thing I asked");
    assert_eq!(m.src, "p");
}

/// A tab in any cached field would shift every field after it.
#[test]
fn tabs_are_kept_out_of_the_cached_fields() {
    let m = meta(&lines(
        "{\"cwd\":\"/w\\ta\",\"version\":\"1\",\"type\":\"custom-title\",\"customTitle\":\"a\\tb\"}\n",
    ));
    assert!(!m.cwd.contains('\t'));
    assert!(!m.title.contains('\t'));
}

/// The preview reaches back past its quota until one of YOUR turns is in
/// view, because a working session ends in a run of the agent's own.
#[test]
fn the_turns_reach_back_for_a_prompt() {
    let mut body = String::from(
        "{\"type\":\"user\",\"message\":{\"role\":\"user\",\"content\":\"THEQUESTION\"}}\n",
    );
    for i in 0..5 {
        body.push_str(&format!(
            "{{\"type\":\"assistant\",\"message\":{{\"role\":\"assistant\",\"content\":[{{\"type\":\"text\",\"text\":\"answer {}\"}}]}}}}\n",
            i
        ));
    }
    let t = turns(&lines(&body), 2);
    assert!(
        t.iter().any(|x| x.you && x.text == "THEQUESTION"),
        "{:?}",
        t
    );
    // oldest first: the question leads
    assert!(t[0].you);
}

#[test]
fn the_resume_goes_through_command_and_quotes_its_path() {
    assert_eq!(
        resume("coder", "/a/b.jsonl"),
        "command coder --resume /a/b.jsonl"
    );
    assert_eq!(
        resume("coder", "/a b.jsonl"),
        "command coder --resume '/a b.jsonl'"
    );
}

#[test]
fn only_a_transcript_is_a_conversation() {
    let file = |p: &str, is_dir: bool| File {
        path: p.into(),
        mtime: 3,
        is_dir,
    };
    let found = discover(
        "coder",
        &vec![file("/c/projects/-w/a.jsonl", false), file("/c/projects/-w/b.txt", false)],
    );
    assert_eq!(found.len(), 1);
    assert_eq!(found[0].key, "/c/projects/-w/a.jsonl");
    assert_eq!(found[0].mtime, 3);
}

#[test]
fn what_both_sides_said_is_extracted() {
    let p = extract(
        "{\"type\":\"user\",\"message\":{\"role\":\"user\",\"content\":\"the ask\"}}\n",
    );
    assert!(p.contains("the ask"), "{p}");
}

