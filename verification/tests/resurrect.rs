//! Rewriting a saved layout.
use taimux::resurrect::{check_lines, decide, fresh_from_saved, rewrite, Commands, Key};

/// A save file's pane record, in the eleven fields that are really written.
fn pane(sess: &str, win: &str, idx: &str, cmd: &str) -> String {
    format!(
        "pane\t{}\t{}\t1\t:*Z\t{}\t_\t:/w\t0\tbash\t:{}\n",
        sess, win, idx, cmd
    )
}

fn key(s: &str, w: &str, p: &str) -> Key {
    (s.into(), w.into(), p.into())
}

#[test]
fn only_the_command_field_changes() {
    let save = format!(
        "{}{}",
        pane("main", "1", "0", "coder"),
        "window\tmain\t1\n"
    );
    let mut map = Commands::new();
    map.insert(
        key("main", "1", "0"),
        "command coder --resume /t.jsonl".into(),
    );
    let out = rewrite(&map, &save);
    assert!(out.contains(":command coder --resume /t.jsonl"));
    // every other field survives, and so does every other line
    assert!(out.contains(":*Z")); // the flags field, untouched
    assert!(out.contains("window\tmain\t1"));
    assert_eq!(out.lines().count(), save.lines().count());
}

/// A pane the map does not mention is left exactly as it was: a rewrite has no
/// business touching a shell or an editor.
#[test]
fn an_unmapped_pane_is_untouched() {
    let save = pane("main", "1", "0", "vim");
    let out = rewrite(&Commands::new(), &save);
    assert_eq!(out, save);
}

#[test]
fn a_fresh_command_drops_every_claim_on_a_conversation() {
    let save = pane(
        "main",
        "1",
        "0",
        "coder --model opus --resume /old.jsonl --fork-session",
    );
    assert_eq!(
        fresh_from_saved("coder", &key("main", "1", "0"), &save),
        "command coder --model opus"
    );
}

/// A save file that has already been rewritten once opens with `command` and the
/// program, two words.
#[test]
fn a_command_prefixed_save_does_not_double_the_program() {
    let save = pane(
        "main",
        "1",
        "0",
        "command coder --model opus --resume /old.jsonl",
    );
    assert_eq!(
        fresh_from_saved("coder", &key("main", "1", "0"), &save),
        "command coder --model opus"
    );
}

#[test]
fn a_pane_the_save_does_not_hold_still_gives_a_bare_claude() {
    assert_eq!(
        fresh_from_saved(
            "coder",
            &key("nope", "9", "9"),
            &pane("main", "1", "0", "coder")
        ),
        "command coder"
    );
}

#[test]
fn a_resumable_record_is_counted_and_mapped() {
    let panes = "%1\tmain\t1\t0\n";
    let records = "%1\tmain:1.0\t/w\tresume\tpane map, idle\tcommand coder --resume /t.jsonl\n";
    let o = decide("coder", panes, records, "");
    assert_eq!((o.resumed, o.fresh, o.lost), (1, 0, 0));
    assert_eq!(
        o.map.get(&key("main", "1", "0")).as_deref(),
        Some("command coder --resume /t.jsonl")
    );
    assert_eq!(
        o.summary("coder"),
        "1 coder pane(s): 1 resumed, 0 fresh, 0 left alone"
    );
}

/// An unresolved record still comes back as the agent, just without a conversation,
/// and it says so in the notes.
#[test]
fn an_unresolved_record_comes_back_fresh_with_a_note() {
    let panes = "%1\tmain\t1\t0\n";
    let records = "%1\tmain:1.0\t/w\tunresolved\t3 share this title, idle\tcommand coder\n";
    let o = decide("coder", panes, records, "");
    assert_eq!((o.resumed, o.fresh, o.lost), (0, 1, 0));
    assert!(o.notes[0].contains("fresh session, 3 share this title"));
}

/// A record with no command at all had no live session process under it, and the save
/// file is where its argv comes from instead. Marked DIG, because it is the case worth
/// looking at.
#[test]
fn a_record_with_no_command_falls_back_to_the_save_file() {
    let panes = "%1\tmain\t1\t0\n";
    let records = "%1\tmain:1.0\t/w\tunresolved\tno session process\t\n";
    let save = pane("main", "1", "0", "coder --resume /old.jsonl");
    let o = decide("coder", panes, records, &save);
    assert_eq!((o.resumed, o.fresh, o.lost), (0, 1, 0));
    assert_eq!(
        o.map.get(&key("main", "1", "0")).as_deref(),
        Some("command coder")
    );
    assert!(o.notes[0].contains("DIG"));
}

/// The two reads are of one moment, but not the SAME instant: a pane can go between
/// them, and that is counted rather than guessed at.
#[test]
fn a_pane_that_vanished_between_the_reads_is_left_alone() {
    let records = "%9\tmain:9.9\t/w\tresume\tpane map, idle\tcommand coder\n";
    let o = decide("coder", "%1\tmain\t1\t0\n", records, "");
    assert_eq!((o.resumed, o.fresh, o.lost), (0, 0, 1));
    assert!(o.notes[0].contains("vanished between the two reads"));
    assert!(o.map.is_empty());
}

/// Losing the saved layout is not recoverable, so a rewrite that dropped lines is
/// refused.
#[test]
fn a_rewrite_that_lost_lines_is_refused() {
    assert_eq!(
        check_lines("a\nb\n", "a\nb\nc\n"),
        Err("rewrite dropped lines, kept the original".into())
    );
    assert!(check_lines("a\nb\nc\n", "a\nb\nc\n").is_ok());
}

/// Every record is counted once, whatever became of it.
#[test]
fn every_record_is_counted_once() {
    let panes = "%1\tmain\t1\t0\n%2\tmain\t2\t0\n";
    let records = "%1\tmain:1.0\t/w\tresume\tpane map, idle\tcommand coder --resume /t\n\
                   %2\tmain:2.0\t/w\tunresolved\tno idea\tcommand coder\n\
                   %9\tmain:9.0\t/w\tresume\tpane map, idle\tcommand coder\n";
    let o = decide("coder", panes, records, "");
    assert_eq!((o.resumed, o.fresh, o.lost), (1, 1, 1));
    assert_eq!(o.total(), 3);
}
