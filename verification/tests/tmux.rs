//! What is asked of the multiplexer.
use taimux::agents::Turn;
use taimux::index::{past_id, split_past_id, Session};
use taimux::tmux::{
    capture, capture_coloured, match_block, past_cwd, place_args, preview_dead, preview_live,
    resume_dead, shell_quote, switch_local, Switch, RULE,
};

const AGENT: &str = "coder";


#[test]
fn a_plain_path_needs_no_quoting() {
    assert_eq!(
        shell_quote("/home/p/.coder/a-b_c.jsonl"),
        "/home/p/.coder/a-b_c.jsonl"
    );
}

#[test]
fn a_space_or_a_quote_is_wrapped() {
    assert_eq!(shell_quote("/a b/c.jsonl"), "'/a b/c.jsonl'");
    assert_eq!(shell_quote("it's"), "'it'\\''s'");
    assert_eq!(shell_quote(""), "''");
}

/// The characters that would let a path become more than one argument, or a
/// command of its own. A project directory can be named
/// anything.
#[test]
fn anything_a_shell_would_act_on_is_quoted() {
    for s in [
        "a;b", "a|b", "a$b", "a`b`", "a&b", "a>b", "a\nb", "a*b", "~a",
    ] {
        let q = shell_quote(s);
        assert!(q.starts_with('\''), "{} was left bare as {}", s, q);
    }
}

#[test]
fn resuming_refuses_a_transcript_that_has_gone() {
    let e = resume_dead(
        AGENT,
        AGENT,
        "/nowhere/at/all.jsonl",
        "/tmp",
        false,
        true,
        None,
    )
    .expect_err("refused");
    assert!(e.contains("no longer on disk"));
}

/// A directory that has gone is a refusal, not a fallback to $HOME.
#[test]
fn resuming_refuses_a_directory_that_has_gone() {
    let e = resume_dead(AGENT, AGENT, "/t.jsonl", "/nowhere/at/all", true, false, None)
        .expect_err("refused");
    assert!(e.contains("/nowhere/at/all"));
    let e = resume_dead(AGENT, AGENT, "/t.jsonl", "", true, false, None).expect_err("refused");
    assert!(e.contains("its directory"));
}

/// A conversation with nothing to resume BY refuses before the directory is
/// judged, because the refusal is about the conversation and saying "its
/// directory is gone" would send you looking in the wrong place.
#[test]
fn a_conversation_with_no_id_refuses_before_the_directory_is_judged() {
    // An agy transcript with no conversation directory above it: there is no
    // `--conversation` argument to be had.
    let e = resume_dead(AGENT, "agy", "transcript.jsonl", "/nowhere/at/all", true, false, None)
        .expect_err("refused");
    assert!(e.contains("no id to resume by"), "{e}");
}

#[test]
fn a_session_is_reopened_where_it_ran() {
    let argv =
        resume_dead(AGENT, AGENT, "/t.jsonl", "/w", true, true, None).expect("resumed");
    assert!(argv.contains(&"/w".to_string()), "{argv:?}");
    assert!(argv.iter().any(|a| a.contains("--resume /t.jsonl")), "{argv:?}");
}

/// A row id carries the agent AND the key, and the key can hold colons of
/// its own, so it splits once.
#[test]
fn a_past_row_id_round_trips() {
    let id = past_id("coder", "/a/b:c.jsonl");
    assert_eq!(id, "dead:coder:/a/b:c.jsonl");
    assert_eq!(
        split_past_id(&id),
        Some(("coder".to_string(), "/a/b:c.jsonl".to_string()))
    );
    assert_eq!(split_past_id("%7"), None);
    assert_eq!(split_past_id("dead:!"), None);
}

#[test]
fn a_capture_names_its_pane() {
    assert!(capture("%7").contains(&"%7".to_string()));
    assert_ne!(capture("%7"), capture_coloured("%7"));
    assert!(place_args("%7").contains(&"%7".to_string()));
}

/// A pane that is already zoomed is left as it is.
#[test]
fn a_zoomed_pane_is_left_alone() {
    let mut step: usize = 0;
    let mut asked = Vec::new();
    loop {
        match switch_local("%7", true, step, Some("work"), Some("1")) {
            Switch::Session(a) | Switch::Tell(a) | Switch::Zoomed(a) => asked.push(a),
            Switch::Last(a) => {
                asked.push(a);
                break;
            }
            Switch::Refused => break,
        }
        step += 1;
    }
    assert!(
        asked.iter().all(|a| !a.contains(&"resize-pane".to_string())),
        "{asked:?}"
    );
}

fn past(agent: &str, key: &str, cwd: &str) -> Session {
    Session {
        mtime: 1,
        pane: "-".into(),
        agent: agent.into(),
        key: key.into(),
        cwd: cwd.into(),
        version: "1".into(),
        title: "t".into(),
        src: "mine".into(),
    }
}

#[test]
fn a_past_sessions_directory_is_looked_up_by_both_names() {
    let es = vec![past("codex", "/k", "/c"), past("agy", "/k", "/a")];
    assert_eq!(past_cwd(&es, "agy", "/k"), "/a");
    assert_eq!(past_cwd(&es, "agy", "/other"), "");
}

#[test]
fn a_preview_leads_with_what_was_found() {
    let file = "idx 1 2 %7 /a.jsonl\none needle here\n";
    let live = preview_live(Some(file), "needle", 2, "the header", "the screen");
    assert!(live.contains("needle"), "{live}");
    assert!(live.contains(RULE), "{live}");
    assert!(live.ends_with("the screen") || live.ends_with("the screen\n"), "{live}");
    assert_eq!(match_block(Some(file), "absent", 2), "");
    let said = vec![Turn {
        you: true,
        text: "what I asked".into(),
    }];
    let es = vec![past("codex", "/k", "/c")];
    let dead = preview_dead("dead:codex:/k", None, "", 2, &es, &said, true, 40);
    assert!(dead.contains("what I asked"), "{dead}");
}
