//! What the agents have in common.
use taimux::agents::{
    between, discover, enough, file_prose, fingerprint, known, meta, prose, proper_for, resume,
    show, spoken_for, tail_lines,
    tail_turns, title_from_prompt, transcript, turns, window, window_start, File, Gained, Meta,
    Store, Tail, Turn,
};
use taimux::sqlite::Cell;

const AGENT: &str = "coder";

fn empty() -> Store {
    Store {
        lines: Vec::new(),
        text: None,
        history: None,
        projects: Vec::new(),
        row: None,
        messages: Vec::new(),
    }
}

fn gained(size: u64, read: &str, parts: Vec<Cell>) -> Gained {
    Gained {
        size,
        read: read.into(),
        reread: false,
        stamp: 1700,
        parts,
    }
}

#[test]
fn each_store_gives_its_prose() {
    let line = r#"{"type":"USER_INPUT","content":"<USER_REQUEST>fix it</USER_REQUEST>"}"#;
    let p = prose(AGENT, "agy", &gained(90, line, Vec::new()), 40).expect("agy has prose");
    assert_eq!(p.text, "fix it ");
    assert_eq!(p.fingerprint, 90);
    assert!(!p.whole);
    // A database has no bytes to count: its time is what it is known by.
    let part = Cell::Text(r#"{"type":"text","text":"hello"}"#.into());
    let p = prose(AGENT, "opencode", &gained(0, line, vec![part]), 40).expect("rows have prose");
    assert_eq!(p.text, "hello ");
    assert_eq!(p.fingerprint, 1700);
    assert!(p.whole);
}

#[test]
fn a_prompt_becomes_a_row_sized_title() {
    assert_eq!(
        title_from_prompt("  the\tthing   I asked\n"),
        "the thing I asked"
    );
    let long = "x".repeat(200);
    let t = title_from_prompt(&long);
    assert_eq!(t.chars().count(), 80);
    assert!(t.ends_with('…'));
    // nothing that could shift a tab-separated cache field survives
    assert!(!title_from_prompt("a\tb\nc").contains('\t'));
}

#[test]
fn a_marked_span_is_found_or_it_is_not() {
    assert_eq!(
        between("a<X>body</X>b", "<X>", "</X>").as_deref(),
        Some("body")
    );
    assert_eq!(between("no markers", "<X>", "</X>"), None);
    assert_eq!(between("<X>unterminated", "<X>", "</X>"), None);
}

/// A window that starts mid-file drops its first line, because that line is
/// a fragment; a window covering the file keeps every line and says so.
#[test]
fn a_tail_drops_the_fragment_it_started_in() {
    let file = "aaaa\nbbbb\ncccc\ndddd\n";
    let size = file.len() as u64;

    let (from, whole) = window_start(size, 1024);
    assert!(whole);
    assert_eq!(
        tail_lines(&file[from as usize..], whole),
        vec!["aaaa", "bbbb", "cccc", "dddd"]
    );

    // a window of 12 bytes starts at offset 8, mid-way through "bbbb", so
    // that fragment goes and the two whole lines after it stay
    let (from, whole) = window_start(size, 12);
    assert!(!whole);
    assert_eq!(from, 8);
    assert_eq!(
        tail_lines(&file[from as usize..], whole),
        vec!["cccc", "dddd"]
    );
}

/// The incremental read: a grown file contributes only its new bytes, a
/// shrunken one is read whole because it is not the same file any more.
#[test]
fn prose_is_read_from_where_the_last_pass_stopped() {
    let p = file_prose(4, 0, "one ".into(), false);
    assert_eq!((p.fingerprint, p.whole), (4, true));
    assert_eq!(p.text, "one ");

    let p = file_prose(8, 4, "two ".into(), false);
    assert_eq!((p.fingerprint, p.whole), (8, false));
    assert_eq!(p.text, "two ");

    // shrunk: the offset is past the end, so it is not an increment
    let p = file_prose(2, 8, "x ".into(), false);
    assert!(p.whole);
    assert_eq!(p.text, "x ");
}

/// An agent nothing knows about answers empty rather than panicking, since
/// the cache is a file anything could have written.
#[test]
fn an_unknown_agent_answers_nothing() {
    assert_eq!(meta(AGENT, "nosuchagent", "k", &empty()), Meta::default());
    assert!(prose(AGENT, "nosuchagent", &gained(0, "", Vec::new()), 0).is_none());
    assert!(turns(AGENT, "nosuchagent", &empty(), 3).is_empty());
    assert!(resume(AGENT, "nosuchagent", "k", None).is_err());
    assert_eq!(fingerprint("nosuchagent", None, &None), None);
}

#[test]
fn the_agents_known_are_five() {
    let k = known(AGENT);
    assert_eq!(k.len(), 5);
    for a in [AGENT, "codex", "agy", "gemini", "opencode"] {
        assert!(k.contains(&a.to_string()), "{a}");
    }
}

/// A conversation of every agent is found under that agent's name.
#[test]
fn every_store_is_looked_in() {
    let f = |p: &str| {
        vec![File {
            path: p.into(),
            mtime: 7,
            is_dir: false,
        }]
    };
    let all = discover(
        AGENT,
        &f("/c/projects/-w/a.jsonl"),
        &f("/codex/rollout-a.jsonl"),
        &f("/g/tmp/h/chats/session-a.json"),
        &vec![vec![
            Cell::Text("ses_a".into()),
            Cell::Int(9_000),
            Cell::Text("t".into()),
            Cell::Text("/w".into()),
        ]],
        &f("/b/x/.system_generated/logs/transcript.jsonl"),
    );
    let names: Vec<&str> = all.iter().map(|p| p.agent.as_str()).collect();
    for a in [AGENT, "codex", "gemini", "opencode"] {
        assert!(names.contains(&a), "{a} in {names:?}");
    }
}

fn turn(you: bool, text: &str) -> Turn {
    Turn {
        you,
        text: text.into(),
    }
}

#[test]
fn enough_is_the_quota_with_a_question_in_it() {
    assert!(!enough(&vec![turn(false, "a"), turn(false, "b")], 2));
    assert!(enough(&vec![turn(false, "a"), turn(true, "b")], 2));
    assert!(!enough(&vec![turn(true, "b")], 2));
}

/// The window grows until what is wanted is in it, and then it stops.
#[test]
fn a_tail_is_read_further_back_until_it_is_enough() {
    let lines: Vec<String> = vec![
        r#"{"type":"message","role":"assistant","content":[{"type":"output_text","text":"x"}]}"#
            .to_string(),
    ];
    match tail_turns(AGENT, "codex", 1, &lines, false, 3) {
        Tail::Read(w) => assert_eq!(Some(w), window(1)),
        Tail::Done(_) => panic!("stopped short"),
    }
    match tail_turns(AGENT, "codex", 1, &lines, true, 3) {
        Tail::Done(t) => assert_eq!(t.len(), 1),
        Tail::Read(_) => panic!("the file was read whole"),
    }
    let mut tried: usize = 0;
    while window(tried).is_some() {
        tried += 1;
        assert!(tried < 100);
    }
}

#[test]
fn what_is_shown_is_one_line_or_nothing() {
    assert_eq!(show("   "), None);
    assert!(show("said").is_some_and(|s| s.contains("said")));
}

#[test]
fn a_transcript_is_a_file_or_it_is_none() {
    assert_eq!(
        transcript("codex", "/a.jsonl", true).as_deref(),
        Some("/a.jsonl")
    );
    assert_eq!(transcript("codex", "/a.jsonl", false), None);
    assert_eq!(transcript("opencode", "ses_a", true), None);
}

#[test]
fn the_other_names_come_from_the_commands() {
    assert_eq!(spoken_for(AGENT), "Coder");
    assert_eq!(proper_for(AGENT), "Coder Code");
    assert_eq!(spoken_for(""), "");
    assert_eq!(spoken_for("éa"), "éa");
}
