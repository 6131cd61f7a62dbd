//! Which panes run an agent.
use taimux::agents::Agent;
use taimux::hook::Entry;
use taimux::panes::{agent_of, agent_row, agent_rows, list_rows, state_of, Observed, Pane};
use taimux::proc::Foreground;
use taimux::state::State;

const AGENT: &str = "coder";

const CODER: Agent<'static> = Agent {
    name: "coder",
    spoken: "Coder",
    proper: "Coder",
};


fn fg(tty: &str, pid: i32, argv: &str) -> Foreground {
    Foreground {
        tty: tty.into(),
        pid,
        argv: argv.into(),
    }
}
fn pane(tty: &str, id: &str, comm: &str, title: &str) -> Pane {
    Pane {
        tty: tty.into(),
        id: id.into(),
        target: "w:1.1".into(),
        cwd: "/w".into(),
        comm: comm.into(),
        title: title.into(),
    }
}

#[test]
fn native_agents_are_matched_as_whole_words() {
    assert_eq!(agent_of(AGENT, "coder --effort max"), Some("coder"));
    assert_eq!(agent_of(AGENT, "/home/u/.local/bin/coder"), Some("coder"));
    assert_eq!(agent_of(AGENT, "codex"), Some("codex"));
    assert_eq!(agent_of(AGENT, "/home/u/.bun/bin/opencode run"), Some("opencode"));
}

#[test]
fn a_node_wrapped_cli_is_matched_on_its_argv() {
    assert_eq!(
        agent_of(AGENT, "node /usr/lib/node_modules/@google/gemini-cli/dist/index.js"),
        Some("gemini")
    );
}

#[test]
fn headless_and_sdk_claude_are_excluded() {
    assert_eq!(agent_of(AGENT, "coder -p hi --output-format stream-json"), None);
    assert_eq!(agent_of(AGENT, "coder --print hi"), None);
}

/// What a headless run was asked does not make it a session of another tool, and
/// a directory named after the agent does not make another tool a headless run.
#[test]
fn a_headless_run_is_no_row_whatever_its_prompt_names() {
    assert_eq!(agent_of(AGENT, "coder -p review the codex diff"), None);
    assert_eq!(agent_of(AGENT, "/usr/bin/coder --print ask gemini"), None);
    assert_eq!(
        agent_of(AGENT, "/h/.local/share/coder/versions/2.1.239 -p why agy"),
        None
    );
    assert_eq!(agent_of(AGENT, "codex -p /home/coder/notes"), Some("codex"));
    let fgs = vec![fg("pts/3", 3, "coder -p review the codex diff")];
    assert!(agent_row(AGENT, &pane("pts/3", "%3", "coder", ""), &fgs).is_none());
}

#[test]
fn a_self_updated_claude_has_no_claude_word_at_all() {
    // the version IS the filename after a self-update
    assert_eq!(
        agent_of(AGENT, "/home/u/.local/share/coder/versions/2.1.239"),
        Some("coder")
    );
    assert_eq!(
        agent_of(
            AGENT,
            "/home/u/.local/share/coder/versions/2.1.239 -p hi --output-format stream-json"
        ),
        None
    );
}

#[test]
fn programs_that_merely_look_like_agents_are_not() {
    assert_eq!(agent_of(AGENT, "python -m pip install foo"), None); // not `pi`
    assert_eq!(agent_of(AGENT, "vim README.md"), None);
    assert_eq!(agent_of(AGENT, ""), None);
}

#[test]
fn a_pane_joins_to_the_agent_on_its_own_tty() {
    let fgs = vec![
        fg("pts/10", 1010, "coder --effort max"),
        fg("pts/99", 9, "vim"),
    ];
    let row = agent_row(AGENT, &pane("pts/10", "%10", "coder", "✳ A"), &fgs).unwrap();
    assert_eq!(
        row,
        "%10\tw:1.1\t/w\tcoder\t1010\tcoder --effort max\t✳ A"
    );
}

#[test]
fn the_agent_wins_over_the_launcher_leading_its_group() {
    // npm names opencode in its own argv; the agent's own process must win,
    // because the pid decides where the version is read from
    let fgs = vec![
        fg("pts/14", 100, "npm exec opencode"),
        fg("pts/14", 101, "/home/u/.bun/bin/opencode run"),
    ];
    let row = agent_row(AGENT, &pane("pts/14", "%14", "node", ""), &fgs).unwrap();
    assert!(
        row.contains("\t101\t"),
        "expected the agent's own pid, got {row}"
    );
}

#[test]
fn comm_is_the_fallback_only_when_nothing_was_seen() {
    let row = agent_row(AGENT, &pane("pts/19", "%19", "codex", "I"), &[]).unwrap();
    assert!(row.contains("\tcodex\t0\t-\t"), "{row}");
    // …and it must not resurrect a pane the argv rules deliberately excluded
    let fgs = vec![fg(
        "pts/11",
        1011,
        "coder -p hi --output-format stream-json",
    )];
    assert!(agent_row(AGENT, &pane("pts/11", "%11", "coder", ""), &fgs).is_none());
}

#[test]
fn a_pane_running_nothing_interesting_is_not_a_row() {
    let fgs = vec![fg("pts/18", 1018, "vim README.md")];
    assert!(agent_row(AGENT, &pane("pts/18", "%18", "vim", "H"), &fgs).is_none());
}

#[test]
fn agy_titles_are_normalised_the_way_the_picker_expects() {
    let fgs = vec![fg("pts/20", 1020, "agy --resume")];
    let row = agent_row(AGENT, &pane("pts/20", "%20", "agy", "¯J"), &fgs).unwrap();
    assert!(row.ends_with("\t✳ J"), "{row}");
    let row = agent_row(AGENT, &pane("pts/20", "%20", "agy", "_"), &fgs).unwrap();
    assert!(row.ends_with("\t✳"), "{row}");
}

#[test]
fn tmux_drops_the_trailing_field_when_a_title_is_unset() {
    let p = Pane::parse("/dev/pts/7\t%7\tw:1.1\t/w\tcoder").unwrap();
    assert_eq!(p.title, "");
    assert_eq!(p.tty, "pts/7");
}

#[test]
fn a_pane_with_no_cwd_is_marked_rather_than_left_blank() {
    // a blank field ahead of the title would be read as no field at all
    let mut p = pane("pts/5", "%5", "coder", "t");
    p.cwd = String::new();
    let fgs = vec![fg("pts/5", 5, "coder")];
    assert!(agent_row(AGENT, &p, &fgs).unwrap().contains("\t?\t"));
}

#[test]
fn the_rows_are_one_to_a_pane_in_their_order() {
    let panes = vec![
        pane("pts/1", "%1", "coder", "A"),
        pane("pts/2", "%2", "vim", "B"),
        pane("pts/3", "%3", "codex", "C"),
    ];
    let fgs = vec![fg("pts/1", 11, "coder"), fg("pts/3", 33, "codex")];
    assert_eq!(
        agent_rows(AGENT, &panes, &fgs),
        "%1\tw:1.1\t/w\tcoder\t11\tcoder\tA\n%3\tw:1.1\t/w\tcodex\t33\tcodex\tC\n"
    );
}

#[test]
fn a_listed_row_says_what_was_seen_of_its_pane() {
    let panes = vec![pane("pts/1", "%1", "coder", "A")];
    let fgs = vec![fg("pts/1", 11, "coder")];
    let seen = vec![Observed {
        screen: String::new(),
        hook: Some(Entry {
            state: "ask".into(),
            mode: "plan".into(),
            at: 5,
        }),
        version: Some("2.1.0".into()),
    }];
    let rows = list_rows(&CODER, &panes, &fgs, &seen);
    assert!(rows.starts_with("%1\tw:1.1\t/w\tcoder\t2.1.0\tinput\t"), "{rows}");
}

#[test]
fn a_pane_with_nothing_on_it_is_idle_unless_its_hook_says_otherwise() {
    assert_eq!(state_of("", &None, "Coder"), State::Idle);
    let run = Some(Entry {
        state: "run".into(),
        mode: "-".into(),
        at: 5,
    });
    assert_eq!(state_of("", &run, "Coder"), State::Run);
}
