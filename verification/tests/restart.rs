//! Planning a restart.
use std::collections::HashMap;

use taimux::agents::Agent;
use taimux::restart::answers::{Answers, PaneAnswer, ProcessAnswer, TranscriptAnswer};
use taimux::restart::{
    base_id, confirm_yes, describe_nonpane, installed, json_object_with_prefix, launcher,
    nonpane_pids, parse_iso8601, plan, render, screen_has_no_dialog, screen_has_no_draft, send_keys,
    transcript_is_settled, version_of_pid, versions_dir, wants_agents, Opts, Plan, Process, Waiting,
};

#[test]
fn a_timestamp_becomes_epoch_seconds() {
    // 2026-09-02T01:23:45Z
    assert_eq!(parse_iso8601("2026-09-02T01:23:45.678Z"), Some(1788312225));
    assert_eq!(parse_iso8601("1970-01-01T00:00:00Z"), Some(0));
    // a leap day, which a hand-rolled calendar is where it goes wrong
    assert_eq!(parse_iso8601("2024-02-29T00:00:00Z"), Some(1709164800));
}

/// Anything not of that exact shape reads as "no answer", which the caller
/// treats as not-evidence rather than as busy: guessing busy would skip a
/// pane on a malformed line forever.
#[test]
fn an_unparseable_timestamp_is_no_answer() {
    assert_eq!(parse_iso8601(""), None);
    assert_eq!(parse_iso8601("yesterday"), None);
    assert_eq!(parse_iso8601("2026-09-02 01:23:45"), None);
    assert_eq!(parse_iso8601("2026-13-02T01:23:45Z"), None);
}

#[test]
fn a_tool_call_still_running_is_not_settled() {
    let t = r#"{"type":"assistant","message":{"content":[{"type":"tool_use"}]},"timestamp":"2020-01-01T00:00:00Z"}"#;
    assert_eq!(
        transcript_is_settled(t, 1788312225),
        Err("a tool call is still running".into())
    );
}

/// Insurance for the screen reading, which is the most fragile thing here.
#[test]
fn recent_activity_is_not_settled_whatever_the_screen_said() {
    let t = r#"{"type":"user","timestamp":"2026-09-02T01:23:45Z"}"#;
    assert!(transcript_is_settled(t, 1788312225 + 10).is_err());
    assert!(transcript_is_settled(t, 1788312225 + 100).is_ok());
}

#[test]
fn an_empty_or_odd_transcript_does_not_block() {
    assert!(transcript_is_settled("", 0).is_ok());
    assert!(transcript_is_settled("not json at all\n", 0).is_ok());
    // no timestamp: nothing to judge recency by
    assert!(transcript_is_settled(r#"{"type":"user"}"#, 0).is_ok());
}

/// A dialog is what `state::awaits_input` recognises, so the fixture has to
/// be one it would: either the footer in the last few lines, or a numbered
/// choice on the LOWEST prompt line. A made-up shape asserts nothing.
#[test]
fn a_dialog_on_screen_blocks_a_restart() {
    let footer = "some output\n\nDo you want to proceed?\n";
    assert_eq!(
        screen_has_no_dialog(footer),
        Err("a dialog is waiting for an answer".into())
    );
    let choice = "some output\n1. Yes\n2. No\n❯ 1. Yes\n";
    assert_eq!(
        screen_has_no_dialog(choice),
        Err("a dialog is waiting for an answer".into())
    );
    // an ordinary idle screen is not a dialog
    assert!(screen_has_no_dialog("some output\n❯ \n").is_ok());
}

/// A half-pressed Ctrl-C is the one state where the keystroke that starts a
/// restart is also an answer to something else.
#[test]
fn a_half_pressed_ctrl_c_blocks_a_restart() {
    let screen = "work\n\nPress Ctrl-C again to exit\n";
    assert_eq!(
        screen_has_no_dialog(screen),
        Err("a Ctrl-C is already half-pressed".into())
    );
}

#[test]
fn an_empty_prompt_box_is_no_draft() {
    assert!(screen_has_no_draft("stuff\n❯ \n").is_ok());
    // the non-breaking space coder pads the box with is not a draft
    assert!(screen_has_no_draft("stuff\n❯ \u{a0}\u{a0}\n").is_ok());
    assert_eq!(
        screen_has_no_draft("stuff\n❯ half a thought\n"),
        Err("unsent text in the prompt box".into())
    );
}

/// No box at all means the screen is not what it is expected to be, and that
/// is a refusal rather than a shrug.
#[test]
fn no_prompt_box_is_a_refusal() {
    assert_eq!(
        screen_has_no_draft("just some text\n"),
        Err("no prompt box on screen".into())
    );
    // …but a genuinely blank screen is not judged at all
    assert!(screen_has_no_draft("").is_ok());
    assert!(screen_has_no_draft("   \n\n").is_ok());
}

#[test]
fn a_bare_enter_confirms() {
    assert!(confirm_yes(""));
    assert!(confirm_yes("y"));
    assert!(confirm_yes("YES"));
    assert!(!confirm_yes("n"));
    assert!(!confirm_yes("no"));
    assert!(!confirm_yes("maybe"));
}

#[test]
fn the_launcher_must_point_into_the_versions_dir() {
    assert_eq!(
        installed("/r/coder", "/r/versions/2.1.258", "/r/versions"),
        Ok("2.1.258".into())
    );
    // pointing elsewhere is a refusal that names what it found
    let e = installed("/r/coder", "/r/elsewhere", "/r/versions").expect_err("refused");
    assert!(e.contains("elsewhere"));
}

fn v(a: &[&str]) -> Vec<String> {
    a.iter().map(|s| s.to_string()).collect()
}

#[test]
fn a_session_id_is_read_out_of_a_path_or_taken_as_it_stands() {
    assert_eq!(base_id("/a/b/263946b5-9bd7.jsonl"), "263946b5-9bd7");
    assert_eq!(base_id("263946b5"), "263946b5");
    assert_eq!(base_id(""), "");
}

/// The depth count is the whole point: taking everything between the first
/// brace and the first close would truncate any element with a nested field,
/// and `coder agents --json` has them.
#[test]
fn the_right_object_comes_back_whole() {
    let j = r#"[{"sessionId":"aaa111","kind":"task","meta":{"a":1},"name":"first"},
                {"sessionId":"bbb222","kind":"agent","name":"second"}]"#;
    let o = json_object_with_prefix(j, "sessionId", "bbb222").expect("found");
    assert!(o.contains("second"));
    assert!(!o.contains("first"));
    let o = json_object_with_prefix(j, "sessionId", "aaa").expect("found by prefix");
    assert!(o.contains("first"));
    assert!(
        o.contains("\"meta\":{\"a\":1}"),
        "nested field truncated: {}",
        o
    );
    assert!(json_object_with_prefix(j, "sessionId", "zzz").is_none());
}

#[test]
fn a_process_with_no_argv_is_simply_gone() {
    assert_eq!(describe_nonpane(&[], "[]"), "gone");
}

#[test]
fn an_unnamed_session_still_says_what_it_can() {
    let d = describe_nonpane(&v(&["coder", "--session-id", "263946b5-9bd7"]), "[]");
    assert_eq!(d, "? ? [263946b5]");
}

#[test]
fn a_named_one_says_kind_state_and_name() {
    let j =
        r#"[{"sessionId":"263946b5-9bd7","kind":"task","state":"running","name":"the thing"}]"#;
    let d = describe_nonpane(&v(&["coder", "--session-id", "263946b5-9bd7"]), j);
    assert_eq!(d, "task running \"the thing\" [263946b5]");
}

/// `status` is the older field name, and one of the two is what a given
/// version emits.
#[test]
fn status_stands_in_for_state() {
    let j = r#"[{"sessionId":"aaa11111","kind":"agent","status":"idle"}]"#;
    let d = describe_nonpane(&v(&["coder", "--session-id", "aaa11111"]), j);
    assert_eq!(d, "agent idle [aaa11111]");
}

/// A fork names both itself and its parent, because that is the pair you need
/// to work out which one is the stale one.
#[test]
fn a_fork_names_its_parent_too() {
    let d = describe_nonpane(
        &v(&[
            "coder",
            "--session-id",
            "child111",
            "--fork-session",
            "--resume",
            "/p/parent22.jsonl",
        ]),
        "[]",
    );
    assert_eq!(d, "? ? fork [child111] of [parent22]");
}

/// A machine with one stale pane, one current one, and whatever else the test asks
/// for. The branch that actually acts needs a fixture.
struct Fake {
    /// pid -> version
    vers: HashMap<i32, String>,
    /// pane -> screen
    screens: HashMap<String, String>,
    /// pane -> resolved transcript, or the refusal
    resolved: HashMap<String, Result<String, String>>,
    transcript: String,
    now: i64,
}

impl Fake {
    /// What this machine answers about the rows.
    fn answers(&self) -> Answers {
        let row = |pane: &str, pid: i32, title: &str| PaneAnswer {
            pane: pane.into(),
            pid,
            screen: self.screens.get(pane).cloned().unwrap_or_default(),
            hook: None,
            cwd: "/w".into(),
            title: title.into(),
            found: self
                .resolved
                .get(pane)
                .cloned()
                .unwrap_or_else(|| Err("no candidate".into())),
        };
        Answers {
            panes: vec![
                row("%1", 11, "proj: the stale one"),
                row("%2", 22, "proj: the current one"),
            ],
            processes: self
                .vers
                .iter()
                .map(|(pid, v)| ProcessAnswer {
                    pid: *pid,
                    version: Some(v.clone()),
                    cwd: Some("/w".into()),
                    argv: vec!["coder".into()],
                })
                .collect(),
            transcripts: vec![TranscriptAnswer {
                path: "/t/a.jsonl".into(),
                text: self.transcript.clone(),
            }],
            now: self.now,
        }
    }
}

fn fake() -> Fake {
    let mut vers = HashMap::new();
    vers.insert(11, "2.1.100".to_string()); // stale
    vers.insert(22, "2.1.258".to_string()); // current
    let mut screens = HashMap::new();
    // an idle screen with an empty prompt box
    screens.insert("%1".to_string(), "some output\n❯ \n".to_string());
    screens.insert("%2".to_string(), "some output\n❯ \n".to_string());
    let mut resolved = HashMap::new();
    resolved.insert("%1".to_string(), Ok("/t/a.jsonl\tpane map".to_string()));
    Fake {
        vers,
        screens,
        resolved,
        transcript: r#"{"type":"user","timestamp":"2020-01-01T00:00:00Z"}"#.to_string(),
        now: 1788312225,
    }
}

const CODER: Agent<'static> = Agent {
    name: "coder",
    spoken: "Coder",
    proper: "Coder",
};

fn opts() -> Opts<'static> {
    Opts {
        agent: CODER,
        include_busy: false,
        only_panes: Vec::new(),
        force_transcript: None,
        self_pane: String::new(),
    }
}

const ROWS: &str = "%1\tw:1.1\t/w\tcoder\t11\tcoder\tproj: the stale one\n\
                    %2\tw:2.1\t/w\tcoder\t22\tcoder\tproj: the current one";

fn plan_of(e: &Fake, o: &Opts) -> Plan {
    plan(
        ROWS,
        "2.1.258",
        "/l/coder",
        o,
        &e.answers(),
        "/nowhere",
        &Vec::new(),
        "[]",
    )
}

#[test]
fn a_stale_pane_is_planned_and_a_current_one_is_not() {
    let p = plan_of(&fake(), &opts());
    assert_eq!(p.go.len(), 1);
    assert_eq!(p.go[0].pane, "%1");
    assert_eq!(p.go[0].cmd, "command coder --resume /t/a.jsonl");
    assert_eq!(p.go[0].via, "2.1.100 -> 2.1.258, pane map, idle");
    assert!(p.skipped.is_empty());
}

/// The rendered plan is the whole user interface of `restart -n`, so its exact shape
/// matters.
#[test]
fn the_rendered_plan_reads_the_way_it_always_did() {
    let out = render(&plan_of(&fake(), &opts()));
    assert_eq!(
        out,
        "coder: 2.1.258 installed at /l/coder\n\n\
         to restart (1):\n\
         \x20 %1    w:1.1          proj: the stale one\n\
         \x20       2.1.100 -> 2.1.258, pane map, idle\n\
         \x20       command coder --resume /t/a.jsonl\n"
    );
}

/// Restarting the pane taimux is running in would kill taimux mid-restart.
#[test]
fn this_pane_is_never_restarted() {
    let mut o = opts();
    o.self_pane = "%1".into();
    let p = plan_of(&fake(), &o);
    assert!(p.go.is_empty());
    assert!(p.skipped[0].contains("this pane"));
    assert!(p.skipped[0].contains("killing it would kill taimux"));
}

#[test]
fn a_pane_that_is_not_idle_waits_for_include_busy() {
    let mut e = fake();
    // an activity line: mid-turn
    e.screens
        .insert("%1".into(), "Twisting… (35s · ↓ 1.6k tokens)\n❯ \n".into());
    let p = plan_of(&e, &opts());
    assert!(p.go.is_empty());
    assert!(p.skipped[0].contains("rerun when idle, or --include-busy"));

    let mut o = opts();
    o.include_busy = true;
    assert_eq!(plan_of(&e, &o).go.len(), 1);
}

/// Even with --include-busy: a half-answered permission prompt is the one
/// state where the Ctrl-C that starts a restart means something else.
#[test]
fn a_dialog_blocks_a_restart_even_with_include_busy() {
    let mut e = fake();
    e.screens
        .insert("%1".into(), "output\n\nDo you want to proceed?\n".into());
    let mut o = opts();
    o.include_busy = true;
    let p = plan_of(&e, &o);
    assert!(p.go.is_empty());
    assert!(p.skipped[0].contains("a dialog is waiting for an answer"));
}

#[test]
fn an_unsent_draft_is_left_alone() {
    let mut e = fake();
    e.screens
        .insert("%1".into(), "output\n❯ half a thought\n".into());
    let p = plan_of(&e, &opts());
    assert!(p.skipped[0].contains("unsent text in the prompt box"));
}

/// A transcript touched in the last 45 seconds is left alone whatever the
/// screen said, because the screen reading is the fragile half.
#[test]
fn a_recently_active_transcript_is_left_alone() {
    let mut e = fake();
    e.transcript = r#"{"type":"user","timestamp":"2026-09-02T01:23:45Z"}"#.into();
    e.now = 1788312225 + 10;
    let p = plan_of(&e, &opts());
    assert!(p.skipped[0].contains("active in the last 45s"));
}

#[test]
fn an_unresolved_pane_says_so_and_earns_the_paragraph() {
    let mut e = fake();
    e.resolved
        .insert("%1".into(), Err("3 transcripts share this title".into()));
    let p = plan_of(&e, &opts());
    assert!(p.go.is_empty());
    assert!(p.unresolved);
    assert!(p.skipped[0].contains("unresolved: 3 transcripts share this title"));
    assert!(render(&p).contains("restart it by hand"));
}

/// Two panes on one conversation is the same mistake on a restart as on a
/// restore: the second one to claim it gets skipped rather than resumed.
#[test]
fn one_transcript_is_never_resumed_into_two_panes() {
    let mut e = fake();
    e.vers.insert(22, "2.1.100".into()); // make the second one stale too
    e.resolved
        .insert("%2".into(), Ok("/t/a.jsonl\tpane map".into()));
    let p = plan_of(&e, &opts());
    assert_eq!(p.go.len(), 1);
    assert_eq!(p.go[0].pane, "%1");
    assert!(p.skipped[0].contains("resolves to the same transcript as %1"));
}

#[test]
fn only_panes_narrows_the_plan_without_changing_the_verdicts() {
    let mut o = opts();
    o.only_panes = vec!["%2".into()];
    let p = plan_of(&fake(), &o);
    assert!(p.go.is_empty());
    assert!(p.skipped.is_empty()); // %1 was not considered at all
}

#[test]
fn a_pane_with_no_session_process_is_reported_not_dropped() {
    let rows = "%9\tw:9.9\t/w\tcoder\t0\tcoder\tno pid here";
    let p = plan(
        rows,
        "2.1.258",
        "/l",
        &opts(),
        &fake().answers(),
        "/nowhere",
        &Vec::new(),
        "[]",
    );
    assert!(p.go.is_empty());
    assert_eq!(p.skipped.len(), 1);
    assert!(p.skipped[0].contains("no session process was found"));
}

#[test]
fn nothing_to_restart_says_so() {
    let mut e = fake();
    e.vers.insert(11, "2.1.258".into());
    let out = render(&plan_of(&e, &opts()));
    assert!(out.contains("nothing to restart."));
    assert!(!out.contains("to restart ("));
}

/// --transcript names the conversation outright, which is the escape hatch
/// for a pane the ladder refuses.
#[test]
fn a_given_transcript_overrides_the_ladder() {
    let mut e = fake();
    e.resolved.insert("%1".into(), Err("no candidate".into()));
    let mut o = opts();
    o.force_transcript = Some("/given.jsonl".into());
    let p = plan_of(&e, &o);
    assert_eq!(p.go.len(), 1);
    assert!(p.go[0].via.contains("--transcript, given"));
    assert!(p.go[0].cmd.contains("--resume /given.jsonl"));
}

#[test]
fn a_process_outside_every_pane_is_found_by_its_name_or_its_path() {
    let process = |pid: i32, comm: &str, argv: &[&str]| Process {
        pid,
        comm: comm.to_string(),
        argv: argv.iter().map(|s| s.to_string()).collect(),
    };
    let all = vec![
        process(30, "coder", &["coder"]),
        process(20, "node", &["/v/2.1.100/coder", "x"]),
        process(10, "bash", &["bash"]),
        process(11, "coder", &["coder"]),
    ];
    assert_eq!(nonpane_pids("coder", &vec![11], "/v", &all), vec![20, 30]);
    assert!(wants_agents(ROWS, "2.1.258", &opts(), &fake().answers(), "/v", &vec![process(11, "x", &["x"])])
        == false);
}

#[test]
fn a_version_is_read_off_the_path_of_what_runs() {
    assert_eq!(
        version_of_pid("/v/2.1.100", "/v").as_deref(),
        Some("2.1.100")
    );
    assert_eq!(
        version_of_pid("/v/2.1.100 (deleted)", "/v").as_deref(),
        Some("2.1.100")
    );
    assert_eq!(version_of_pid("/usr/bin/node", "/v"), None);
    assert_eq!(versions_dir("coder", "/h"), "/h/.local/share/coder/versions");
    assert_eq!(launcher("coder", "/h"), "/h/.local/bin/coder");
}

/// The word that leaves is typed once, on the sixth wait, and the thirtieth is the last.
#[test]
fn exit_is_typed_once_while_a_session_is_waited_for() {
    let mut w = Waiting::start();
    let mut exits: Vec<u32> = Vec::new();
    let mut n = 0;
    loop {
        n += 1;
        let due = w.tick();
        if due.exit {
            exits.push(n);
        }
        if due.give_up {
            break;
        }
    }
    assert_eq!((exits, n), (vec![6], 30));
    assert_eq!(
        send_keys("%7", "/exit", true),
        vec!["send-keys", "-t", "%7", "/exit", "Enter"]
    );
    assert_eq!(send_keys("%7", "C-c", false), vec!["send-keys", "-t", "%7", "C-c"]);
}
