//! What a pane is doing, read off its screen and its hook line.
use taimux::state::{awaits_input, correct, live_box, State, Turn};
use taimux::turn::Event;

const SPOKEN: &str = "Coder";

fn classify(screen: &str) -> State {
    taimux::state::classify(screen, SPOKEN)
}

fn is_working(screen: &str) -> bool {
    taimux::state::is_working(screen, SPOKEN)
}

fn turn_marker(screen: &str) -> Option<Turn> {
    taimux::state::turn_marker(screen, SPOKEN)
}

fn merge(screen: &str, hook: Option<&str>) -> State {
    taimux::state::merge(screen, hook, SPOKEN)
}


const RULE: &str = "────────────────────────────────────────────────────────────────";

/// The bottom of a real screen at rest: the token count, the box between its
/// rules, and the status row, under whatever the conversation ends with.
fn at_prompt(above: &str) -> String {
    format!(
        "{above}\n                                  38487 tokens\n{RULE}\n❯ \n{RULE}\n  ⏸ manual mode on · ? for shortcuts · ← 11 agents\n"
    )
}

/// The same mid-turn, where the status row has room to say so.
fn mid_turn(above: &str) -> String {
    at_prompt(above).replace("? for shortcuts", "esc to interrupt")
}

#[test]
fn a_numbered_choice_list_is_a_session_asking() {
    let s = "some output\n  2. Yes, and don't ask again\n  3. No\n ❯ 1. Yes\n";
    assert!(awaits_input(s));
    assert_eq!(classify(s), State::Input);
}

#[test]
fn the_footer_alone_is_enough_when_the_list_has_wrapped_off() {
    // a narrow pane pushes the choice list off the bottom
    assert!(awaits_input("blah\nblah\n Esc to cancel · Tab to amend\n"));
    assert!(awaits_input("Do you want to proceed?\n"));
}

#[test]
fn a_footer_that_wrapped_across_two_lines_is_still_a_footer() {
    // 46 columns, live: the question's own footer breaks mid-phrase, so
    // neither line carries it and the pane read as working instead of asking.
    let s = "──────────────────────────────\n\
             \x20 6. Chat about this\n\
             \n\
             Enter to select · ↑/↓ to navigate · Esc to\n\
             cancel\n";
    assert!(awaits_input(s));
    assert_eq!(classify(s), State::Input);
    // and the join does not invent one out of two unrelated lines
    assert!(!awaits_input("nothing to escape here\ncancel the order\n"));
}

#[test]
fn the_blank_lines_capture_pane_pads_with_do_not_hide_the_dialog() {
    // A pane sitting on "Yes, I trust this folder": tmux pads to the pane
    // height, so the footer is four lines up but twenty lines from the end.
    let s = " ❯ No, exit\n   Yes, I trust this folder\n\n Enter to confirm · Esc to cancel\n"
        .to_string()
        + &"\n".repeat(20);
    assert!(awaits_input(&s));
    assert_eq!(classify(&s), State::Input);
}

#[test]
fn those_strings_higher_up_the_scrollback_do_not_count() {
    // they turn up in ordinary output, which is why only the last lines are read
    let s = at_prompt(&("Do you want to proceed?\n".to_string() + &"filler\n".repeat(20)));
    assert!(!awaits_input(&s));
    assert_eq!(classify(&s), State::Idle);
}

#[test]
fn the_live_box_is_the_glyph_under_a_rule() {
    let s = at_prompt("● done");
    let lines: Vec<&str> = s.lines().collect();
    assert_eq!(lines[live_box(&lines).unwrap()], "❯ ");
    // the rule above it can carry the session's name, down to four dashes
    let named = "──── gitlab-webhook-receiver: fix-ruff-ci-errors ─\n❯ \n";
    assert!(live_box(&named.lines().collect::<Vec<_>>()).is_some());
    // a prompt already sent has conversation above it, not a rule
    let sent = "✻ Baked for 4s · done 11:46 PM\n\n❯ Run exactly this\n";
    assert_eq!(live_box(&sent.lines().collect::<Vec<_>>()), None);
}

#[test]
fn a_viewport_scrolled_up_shows_no_prompt_box() {
    // Probe, 2.1.280 fullscreen: a permission prompt open, then Page Up. The
    // lowest glyph on screen is a prompt sent earlier, and the dialog is
    // nowhere. This read as idle, and so did a real pane holding a prompt
    // for 35 hours.
    let paged = "● Got it — you prefer tea!\n\n✻ Baked for 4s · done 11:46 PM\n\n\
                 ❯ Run exactly this with the Bash too Jump to bottom (ctrl+End) ↓\n";
    assert_eq!(classify(paged), State::Unknown);
    let away = "❯ https://example.slack.com/archives/C07/p17\n     some reply text\n\
                \x20                                          6 new messages (ctrl+End) ↓\n";
    assert_eq!(classify(away), State::Unknown);
    // So the line decides: confirmed on screen is waiting, the rest working.
    assert_eq!(merge(paged, Some("ask")), State::Input);
    assert_eq!(merge(paged, Some("input")), State::Run);
    assert_eq!(merge(away, Some("run")), State::Run);
}

#[test]
fn an_activity_line_means_working_but_a_finished_turn_does_not() {
    assert!(is_working("✽ Twisting… (35s · ↓ 1.6k tokens)\n ❯ "));
    assert!(is_working("✽ Thinking… (esc to interrupt)\n ❯ "));
    // no brackets: the turn is over
    assert!(!is_working("✻ Crunched for 9m 55s · done 11:07 AM\n ❯ "));
    // an ellipsis with no counter after it is just prose
    assert!(!is_working("I will think about it…\n ❯ "));
}

#[test]
fn the_rows_claude_tucks_under_the_turn_line_do_not_bury_it() {
    // Live capture shape: the tip and the token count sit under the activity
    // line, then the title rule, the box, its rule and two status rows, which
    // put it NINE lines of content up. Read over eight it vanished, and a
    // session twenty-six minutes into a turn read idle off its screen.
    let s = "✽ Symbioting… (26m 38s · ↓ 19.7k tokens)\n\
             \x20 ⎿  Tip: Use git worktrees to run multiple sessions\n\
             \x20                                    253088 tokens\n\
             ──── gitlab-webhook-receiver: fix-ruff-ci-errors ─\n\
             ❯ \n\
             ─────────────────────────────────────────────────\n\
             \x20 Opus 5 (1M, max) v2.1.274  [█░░] 25%  5h 12%\n\
             \x20 ⏵⏵ auto mode on (shift+tab to cycle) · 11 agents\n";
    assert_eq!(turn_marker(s), Some(Turn::Running));
    assert_eq!(classify(s), State::Run);
}

#[test]
fn a_finished_turn_line_is_read_whatever_the_verb_and_however_old() {
    for l in [
        "✻ Churned for 1m 19s · done 11:07 AM",
        "✻ Sautéed for 10m 29s · done 11:19 PM",
        "✻ Cogitated for 13m 58s · done Friday 11:34 AM",
        "✻ Brewed for 6m 54s · done Thursday, Aug 27, 2:52 PM",
    ] {
        assert_eq!(turn_marker(&format!("{l}\n ❯ ")), Some(Turn::Done), "{l}");
        assert_eq!(turn_marker(&at_prompt(l)), Some(Turn::Done), "{l}");
    }
    // half of the shape is not the shape: prose, and the status row
    assert_eq!(turn_marker("it ran for 3 hours\n ❯ "), None);
    assert_eq!(turn_marker("· done deal\n ❯ "), None);
}

#[test]
fn the_lowest_turn_line_is_the_one_that_counts() {
    // The turn now running, under the one it followed: Coder writes a fresh
    // line per turn and the previous turn's finished one stays on screen.
    let s = "✻ Churned for 30s · done 9:56 AM\n> do the next thing\n✽ Thinking… (2s)\n ❯ ";
    assert_eq!(turn_marker(s), Some(Turn::Running));
    // and the other way round, which is the whole point: a turn that ended
    assert_eq!(
        turn_marker("✽ Thinking… (2s)\n✻ Churned for 30s · done 9:56 AM\n ❯ "),
        Some(Turn::Done)
    );
}

#[test]
fn a_reply_streaming_under_the_last_turns_line_is_not_that_turn() {
    // Fullscreen draws no turn line while a reply streams, so the lowest one
    // on screen is the PREVIOUS turn's. Where the status row has room it says
    // so outright…
    let streaming = "✻ Baked for 12s · done 11:37 PM\n\n❯ Write a story about a baker\n\n\
                     \x20 Maria had learned to bake at her father's side";
    assert_eq!(turn_marker(&mid_turn(streaming)), Some(Turn::Running));
    assert_eq!(merge(&mid_turn(streaming), Some("run")), State::Run);
    // …and where it has not, the prompt sent since is the boundary: that
    // finished line belongs to a turn before it.
    assert_eq!(turn_marker(&at_prompt(streaming)), None);
    assert_eq!(merge(&at_prompt(streaming), Some("run")), State::Run);
}

#[test]
fn a_slash_command_is_no_boundary() {
    // `/exit` typed and thought better of: it opened no turn, so the finished
    // line above it still says what the last turn did.
    let s = at_prompt(
        "✻ Cooked for 55m 46s · done 7:28 PM\n\n❯ /exit\n\n\
         ● Background shell command didn't finish before the previous session ended",
    );
    assert_eq!(turn_marker(&s), Some(Turn::Done));
}

#[test]
fn an_interrupted_turn_is_over() {
    // Esc part way through a reply: no finished line, no hook, only this.
    let s = at_prompt(
        "  She paused, gathering words like scattered coins\n\
         \x20 ⎿  Interrupted · What should Coder do instead?",
    );
    assert_eq!(turn_marker(&s), Some(Turn::Done));
    assert_eq!(classify(&s), State::Idle);
    assert_eq!(merge(&s, Some("run")), State::Idle);
    // and an interrupt an earlier prompt left behind is not this turn's
    let older = at_prompt(
        "  ⎿  Interrupted · What should Coder do instead?\n\n❯ try again\n\n  Working on it",
    );
    assert_eq!(turn_marker(&older), None);
    assert_eq!(merge(&older, Some("run")), State::Run);
}

#[test]
fn a_turn_that_left_work_running_is_busy() {
    let s = at_prompt("✻ Sautéed for 11s · done 11:39 PM · 1 shell still running");
    assert_eq!(turn_marker(&s), Some(Turn::Background));
    assert_eq!(classify(&s), State::Run);
    // whether or not the line knew about it
    for hook in [None, Some("idle"), Some("run"), Some("bg")] {
        assert_eq!(merge(&s, hook), State::Run, "{hook:?}");
    }
}

#[test]
fn a_dialog_outranks_an_activity_line() {
    let s = "✽ Twisting… (35s)\n  2. No\n ❯ 1. Yes\n";
    assert_eq!(classify(s), State::Input);
}

#[test]
fn a_prompt_box_is_idle_and_a_screen_without_one_is_unknown() {
    assert_eq!(classify(&at_prompt("● done")), State::Idle);
    // a glyph with no rule over it is not a box
    assert_eq!(classify(" ❯ "), State::Unknown);
    assert_eq!(classify("just some output\n"), State::Unknown);
    assert_eq!(classify(""), State::Unknown);
    // Two rows of a pane in a crowded window, which is all fullscreen draws
    // there: nothing of the box.
    assert_eq!(
        classify("\n                       new task? /clear to save 772.2k tokens\n"),
        State::Unknown
    );
}

// The screens the merge rules turn on. FINISHED and RUNNING carry a turn
// line; STREAMING is the one that carries none, which is a real screen and not
// a contrived one: a session part way through a long reply shows exactly this.
const DIALOG: &str = "✽ Twisting… (35s)\n  2. No\n ❯ 1. Yes\n";
fn finished() -> String {
    at_prompt("✻ Crunched for 9m 55s · done 11:07 AM")
}
fn running() -> String {
    at_prompt("✽ Twisting… (35s · ↓ 1.6k tokens)")
}
fn streaming() -> String {
    at_prompt("…and that is the third reason it cannot work.")
}
const UNREADABLE: &str = "just some output\n";

#[test]
fn a_dialog_on_screen_beats_any_hook_line() {
    for hook in [
        None,
        Some("run"),
        Some("idle"),
        Some("input"),
        Some("ask"),
        Some("bg"),
    ] {
        assert_eq!(merge(DIALOG, hook), State::Input);
    }
}

#[test]
fn an_idle_screen_overrules_a_stale_hook_input() {
    // the 38-hour-old line that made a pane refuse every restart
    assert_eq!(merge(&finished(), Some("input")), State::Idle);
    assert_eq!(merge(&streaming(), Some("input")), State::Idle);
    // the confirmed kind too: a prompt refused with Esc fires nothing
    assert_eq!(merge(&finished(), Some("ask")), State::Idle);
}

#[test]
fn a_confirmed_dialog_is_waiting_where_the_screen_cannot_show_it() {
    assert_eq!(merge(UNREADABLE, Some("ask")), State::Input);
    assert_eq!(merge("", Some("ask")), State::Input);
    // …but a counter running means the permission was granted and the tool
    // is at work, which fires nothing until it finishes
    assert_eq!(merge(&running(), Some("ask")), State::Run);
}

#[test]
fn a_working_screen_overrules_a_stale_hook_idle() {
    // The line a session's last turn closed with, left behind because the
    // opening `run` of the turn now on screen never arrived. Two days old on
    // the pane this was found on, which was mid-turn at the time.
    assert_eq!(merge(&running(), Some("idle")), State::Run);
    // …and only that screen overrules it: every other reading still takes
    // the line at its word (the rest of them in the test below).
    assert_eq!(merge(&finished(), Some("idle")), State::Idle);
}

#[test]
fn a_finished_turn_on_screen_overrules_a_stale_hook_run() {
    // The line a backgrounded session left behind: six and a half hours at
    // `run` with the pane sitting at an empty prompt box under a turn that
    // had plainly ended, and `restart` refusing it the whole time.
    assert_eq!(merge(&finished(), Some("run")), State::Idle);
}

#[test]
fn a_screen_with_no_turn_line_still_leaves_run_alone() {
    // The case the rule above must not eat. A session part way through a long
    // reply shows no turn line at all, so the screen has nothing to say and
    // the hook is the only thing that knows a turn is in flight.
    assert_eq!(merge(&streaming(), Some("run")), State::Run);
    assert_eq!(merge(UNREADABLE, Some("run")), State::Run);
}

#[test]
fn otherwise_the_hook_is_taken_as_it_stands() {
    assert_eq!(merge(UNREADABLE, Some("idle")), State::Idle);
    // a session mid-permission is working, for the list's purposes
    assert_eq!(merge(&running(), Some("input")), State::Run);
    assert_eq!(merge(UNREADABLE, Some("input")), State::Run);
    // and one waiting on its background work is too
    assert_eq!(merge(UNREADABLE, Some("bg")), State::Run);
    assert_eq!(merge(&finished(), Some("bg")), State::Run);
}

#[test]
fn with_no_hook_the_screen_decides_and_unreadable_reads_as_idle() {
    assert_eq!(merge(&running(), None), State::Run);
    assert_eq!(merge(&finished(), None), State::Idle);
    assert_eq!(merge(&streaming(), None), State::Idle);
    assert_eq!(merge(UNREADABLE, None), State::Idle);
    assert_eq!(merge(UNREADABLE, Some("nonsense")), State::Idle);
}

#[test]
fn a_transcript_newer_than_the_line_brings_it_up_to_date() {
    let line_at = 1_000;
    // An interrupt fires no hook: the transcript is the only one to know.
    for hook in ["run", "input", "ask", "bg", "idle"] {
        assert_eq!(
            correct(hook, line_at, Some((Event::Interrupt, 1_500))),
            "idle",
            "{hook}"
        );
    }
    // A turn's end the line missed…
    for hook in ["run", "input", "ask"] {
        assert_eq!(
            correct(hook, line_at, Some((Event::Over, 1_500))),
            "idle",
            "{hook}"
        );
    }
    // …but after `bg`, the record the same Stop was written alongside
    assert_eq!(correct("bg", line_at, Some((Event::Over, 1_007))), "bg");
    // A prompt whose UserPromptSubmit never landed.
    assert_eq!(correct("idle", line_at, Some((Event::Prompt, 1_500))), "run");
    assert_eq!(correct("bg", line_at, Some((Event::Prompt, 1_500))), "run");
    assert_eq!(correct("ask", line_at, Some((Event::Prompt, 1_500))), "ask");
}

#[test]
fn a_line_newer_than_the_transcript_already_knows() {
    // The next prompt's UserPromptSubmit lands after the record it answers
    // (17 ms after, measured), so the interrupt before it is old news.
    assert_eq!(correct("run", 2_000, Some((Event::Interrupt, 1_500))), "run");
    assert_eq!(correct("run", 2_000, Some((Event::Over, 1_500))), "run");
    assert_eq!(correct("idle", 2_000, Some((Event::Prompt, 1_983))), "idle");
    assert_eq!(correct("run", 2_000, None), "run");
}

#[test]
fn a_state_has_its_word() {
    assert_eq!(State::Input.as_str(), "input");
    assert_eq!(State::Run.as_str(), "run");
    assert_eq!(State::Idle.as_str(), "idle");
}

#[test]
fn padding_neither_hides_a_dialog_nor_invents_one() {
    for s in [
        "Esc to cancel",
        "Do you want to proceed?\r",
        "❯ 1. Yes\r",
        "❯ 1\r",
        "nothing asked",
        "",
    ] {
        for n in 0..40 {
            let padded = format!("{}{}", s, "\n".repeat(n));
            assert_eq!(awaits_input(&padded), awaits_input(s), "{s:?} {n}");
        }
    }
}
