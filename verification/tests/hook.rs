//! What an agent reports of itself.
use taimux::hook::{
    agent_pid, current, decide, head, hook_entry, hook_state_of, json_str, read_ppid, read_prev,
    respond, Action, Entry, Link, Payload, Prev,
};
use taimux::turn::Event;

const AGENT: &str = "coder";


#[test]
fn a_flat_string_field_is_read_out() {
    assert_eq!(
        json_str(
            r#"{"a":1,"hook_event_name":"Stop","b":"x"}"#,
            "hook_event_name"
        )
        .as_deref(),
        Some("Stop")
    );
    // spaces around the colon are no obstacle, nor are newlines
    assert_eq!(
        json_str(
            "{\"permission_mode\" :\n \"acceptEdits\"}",
            "permission_mode"
        )
        .as_deref(),
        Some("acceptEdits")
    );
    assert_eq!(json_str(r#"{"a":"b"}"#, "permission_mode"), None);
}

#[test]
fn a_key_appearing_as_a_value_does_not_win() {
    // "hook_event_name" as someone else's value, then the real field
    let p = r#"{"note":"hook_event_name","hook_event_name":"Stop"}"#;
    assert_eq!(json_str(p, "hook_event_name").as_deref(), Some("Stop"));
}

fn chain(pairs: &[(i32, &str, i32)]) -> Vec<Link> {
    pairs
        .iter()
        .map(|(pid, comm, parent)| Link {
            pid: *pid,
            comm: Some(comm.to_string()),
            parent: Some(*parent),
        })
        .collect()
}

#[test]
fn the_agent_above_the_hook_is_found() {
    let pairs = [(10, "bash", 20), (20, "coder", 30), (30, "bash", 1)];
    assert_eq!(agent_pid(AGENT, 10, &chain(&pairs)), Some(20));
}

#[test]
fn a_self_updated_claude_is_named_after_its_version() {
    let pairs = [(10, "bash", 20), (20, "2.1.239", 1)];
    assert_eq!(agent_pid(AGENT, 10, &chain(&pairs)), Some(20));
}

#[test]
fn a_nested_agent_is_refused_rather_than_allowed_to_write() {
    // a `coder -p` inherits $TMUX_PANE from the session that launched it
    let pairs = [(10, "bash", 20), (20, "coder", 30), (30, "coder", 1)];
    assert_eq!(agent_pid(AGENT, 10, &chain(&pairs)), None);
}

#[test]
fn a_chain_with_no_agent_in_it_yields_nothing() {
    let pairs = [(10, "bash", 20), (20, "sshd", 1)];
    assert_eq!(agent_pid(AGENT, 10, &chain(&pairs)), None);
}

/// A payload for one event, the rest defaulted.
fn ev(event: &str) -> Payload<'_> {
    Payload {
        event,
        ..Default::default()
    }
}

fn prev<'a>(pid: i32, state: &'a str, mode: &'a str) -> Prev<'a> {
    Prev {
        pid,
        state,
        mode,
        who: "",
    }
}

fn write(s: &str) -> Action {
    Action::Write(s.into())
}

#[test]
fn each_event_maps_to_the_state_the_picker_shows() {
    let with = |event, mode| Payload {
        mode: Some(mode),
        ..ev(event)
    };
    assert_eq!(
        decide(&with("UserPromptSubmit", "acceptEdits"), 42, None),
        write("42\trun\tacceptEdits\n")
    );
    assert_eq!(
        decide(&with("PermissionRequest", "acceptEdits"), 42, None),
        write("42\tinput\tacceptEdits\n")
    );
    assert_eq!(
        decide(&with("Stop", "acceptEdits"), 42, None),
        write("42\tidle\tacceptEdits\n")
    );
    assert_eq!(
        decide(&ev("SessionStart"), 42, None),
        write("42\tidle\t-\n")
    );
}

#[test]
fn a_tool_that_ran_says_the_turn_is_still_going() {
    let tool = Payload {
        mode: Some("auto"),
        ..ev("PostToolUse")
    };
    assert_eq!(decide(&tool, 42, None), write("42\trun\tauto\n"));
    // The same, whichever way the tool ended.
    let failed = Payload {
        event: "PostToolUseFailure",
        ..tool
    };
    assert_eq!(decide(&failed, 42, None), write("42\trun\tauto\n"));
    // Which is what closes a permission the user granted: nothing else fires
    // after the dialog goes away, and the line would otherwise stay `input`.
    assert_eq!(
        decide(&ev("PostToolUse"), 42, Some(&prev(42, "input", "default"))),
        write("42\trun\tdefault\n")
    );
}

#[test]
fn a_background_subagents_tools_leave_the_main_thread_alone() {
    // The main thread's `Stop`, then the subagent's own call, carrying its
    // `agent_id`. Taken at its word that puts the session back in the working
    // list while it sits at an empty prompt.
    let sub = Payload {
        agent: Some("ad1a32b042459363f"),
        ..ev("PostToolUse")
    };
    for state in ["idle", "bg", "run"] {
        assert_eq!(
            decide(&sub, 42, Some(&prev(42, state, "auto"))),
            Action::Nothing,
            "{state}"
        );
    }
    assert_eq!(decide(&sub, 42, None), Action::Nothing);
}

#[test]
fn a_subagents_tool_settles_only_the_dialog_that_subagent_raised() {
    let asked = Payload {
        agent: Some("sub1"),
        mode: Some("default"),
        ..ev("PermissionRequest")
    };
    assert_eq!(
        decide(&asked, 42, None),
        write("42\tinput\tdefault\tsub1\n")
    );
    let theirs = Prev {
        who: "sub1",
        ..prev(42, "input", "default")
    };
    let ran = |agent| Payload {
        agent: Some(agent),
        ..ev("PostToolUse")
    };
    assert_eq!(
        decide(&ran("sub1"), 42, Some(&theirs)),
        write("42\trun\tdefault\n")
    );
    // another subagent's call says nothing about that dialog…
    assert_eq!(decide(&ran("sub2"), 42, Some(&theirs)), Action::Nothing);
    // …nor about one the main thread is holding up
    assert_eq!(
        decide(&ran("sub1"), 42, Some(&prev(42, "ask", "default"))),
        Action::Nothing
    );
}

#[test]
fn claudes_own_notification_confirms_a_dialog_is_on_screen() {
    let shown = |kind| Payload {
        notification: Some(kind),
        ..ev("Notification")
    };
    // it carries no mode, and keeps the asker the request named
    let asked = Prev {
        who: "sub1",
        ..prev(42, "input", "auto")
    };
    assert_eq!(
        decide(&shown("permission_prompt"), 42, Some(&asked)),
        write("42\task\tauto\tsub1\n")
    );
    assert_eq!(
        decide(
            &shown("elicitation_dialog"),
            42,
            Some(&prev(42, "run", "auto"))
        ),
        write("42\task\tauto\n")
    );
    // A minute after a turn, background work or not, and never after an
    // interrupt: not something to hang a state on.
    for kind in ["idle_prompt", "auth_success", "agent_needs_input"] {
        assert_eq!(
            decide(&shown(kind), 42, Some(&prev(42, "bg", "auto"))),
            Action::Nothing,
            "{kind}"
        );
    }
}

#[test]
fn a_turn_that_leaves_work_running_is_not_idle() {
    let stop = |background| Payload {
        background,
        mode: Some("auto"),
        ..ev("Stop")
    };
    assert_eq!(decide(&stop(true), 42, None), write("42\tbg\tauto\n"));
    assert_eq!(decide(&stop(false), 42, None), write("42\tidle\tauto\n"));
}

#[test]
fn an_api_error_ends_the_turn_too() {
    // `StopFailure` runs INSTEAD of `Stop`
    assert_eq!(
        decide(&ev("StopFailure"), 42, Some(&prev(42, "run", "auto"))),
        write("42\tidle\tauto\n")
    );
}

#[test]
fn a_compaction_inside_a_turn_leaves_the_line_alone() {
    let compact = Payload {
        source: Some("compact"),
        ..ev("SessionStart")
    };
    for state in ["run", "input", "ask", "bg"] {
        assert_eq!(
            decide(&compact, 42, Some(&prev(42, state, "auto"))),
            Action::Nothing,
            "{state}"
        );
    }
    // typed at the prompt, after the `Stop` that already said idle
    assert_eq!(
        decide(&compact, 42, Some(&prev(42, "idle", "auto"))),
        write("42\tidle\tauto\n")
    );
    // and a line about some other process is no guide at all
    assert_eq!(
        decide(&compact, 42, Some(&prev(99, "run", "auto"))),
        write("42\tidle\t-\n")
    );
}

#[test]
fn an_event_nobody_subscribed_to_changes_nothing() {
    // `SubagentStop` deliberately: it fires while the main turn carries on,
    // so writing `idle` from it would be wrong, and `run` would only repeat
    // what the tool events already said.
    for event in ["SubagentStop", "PreToolUse", "PermissionDenied"] {
        let p = Payload {
            mode: Some("auto"),
            ..ev(event)
        };
        assert_eq!(decide(&p, 42, None), Action::Nothing, "{event}");
    }
}

#[test]
fn a_mode_an_earlier_event_knew_is_kept() {
    // no event announces a mode flip, so the last one seen has to persist
    assert_eq!(
        decide(&ev("Stop"), 42, Some(&prev(42, "run", "acceptEdits"))),
        write("42\tidle\tacceptEdits\n")
    );
    // …but not from a line about a different process
    assert_eq!(
        decide(&ev("Stop"), 42, Some(&prev(99, "run", "acceptEdits"))),
        write("42\tidle\t-\n")
    );
}

#[test]
fn ending_removes_only_our_own_line() {
    let end = ev("SessionEnd");
    assert_eq!(
        decide(&end, 42, Some(&prev(42, "idle", "-"))),
        Action::Remove
    );
    // the line belongs to the session that launched us: leave it alone
    assert_eq!(
        decide(&end, 42, Some(&prev(99, "idle", "-"))),
        Action::Nothing
    );
    assert_eq!(decide(&end, 42, None), Action::Nothing);
}

#[test]
fn the_common_fields_are_read_before_a_tools_own_arguments() {
    // A main-thread call to a tool that takes an `agent_id` argument of its
    // own: the payload's real `agent_id` is absent, and the tool's is not it.
    let p = r#"{"session_id":"s","permission_mode":"auto","hook_event_name":"PostToolUse","tool_name":"mcp__x__y","tool_input":{"agent_id":"not-a-subagent"}}"#;
    assert_eq!(json_str(&head(p), "agent_id"), None);
    assert_eq!(
        json_str(&head(p), "permission_mode").as_deref(),
        Some("auto")
    );
    let sub = r#"{"session_id":"s","agent_id":"a1","agent_type":"general-purpose","hook_event_name":"PostToolUse","tool_input":{}}"#;
    assert_eq!(json_str(&head(sub), "agent_id").as_deref(), Some("a1"));
}

#[test]
fn a_parent_is_read_out_of_a_status() {
    assert_eq!(read_ppid("Name:\tbash\nPPid:\t41\nUid:\t0\n"), Some(41));
    assert_eq!(read_ppid("Name:\tbash\n"), None);
}

#[test]
fn a_line_is_read_back_as_it_was_written() {
    let Action::Write(line) = decide(&ev("Stop"), 42, Some(&prev(42, "run", "plan"))) else {
        panic!("not written");
    };
    assert_eq!(
        read_prev(&line),
        Some((42, "idle".into(), "plan".into(), "".into()))
    );
    assert_eq!(read_prev("garbage"), None);
    let e = hook_entry(&line, 9, 42).expect("ours");
    assert_eq!((e.state.as_str(), e.mode.as_str(), e.at), ("idle", "plan", 9));
    // a line about another process says nothing of this one
    assert!(hook_entry(&line, 9, 43).is_none());
}

#[test]
fn a_payload_is_answered_against_the_file_before_it() {
    let stop = r#"{"hook_event_name":"Stop","permission_mode":"plan"}"#;
    assert_eq!(respond(stop, 42, None), write("42\tidle\tplan\n"));
    let quiet = r#"{"hook_event_name":"Stop"}"#;
    assert_eq!(
        respond(quiet, 42, Some("42\trun\tplan\n")),
        write("42\tidle\tplan\n")
    );
    assert_eq!(respond("{}", 42, None), Action::Nothing);
    let busy = r#"{"hook_event_name":"Stop","background_tasks":[{"id":"t"}]}"#;
    assert_eq!(respond(busy, 42, None), write("42\tbg\t-\n"));
}

#[test]
fn an_entry_is_brought_up_to_date_by_the_transcript() {
    let line = |state: &str| Entry {
        state: state.into(),
        mode: "-".into(),
        at: 1_000,
    };
    let e = current(Some(line("run")), Some((Event::Interrupt, 1_500))).expect("kept");
    assert_eq!(e.state, "idle");
    assert_eq!(
        hook_state_of(Some(line("idle")), Some((Event::Prompt, 1_500))).as_deref(),
        Some("run")
    );
    assert_eq!(hook_state_of(None, Some((Event::Over, 1_500))), None);
}
