//! The restart keys: what a plan says, and what is said of it.
use taimux::act::{
    after_forced, after_plan, agrees, answered, count_in, plan_panes, restart_args, restart_one,
    restart_subject, sweep, swept, why_for, Forced, Opening, Planned, Pressed, Sweep, ENDED, FORCE,
    NOTHING_OUTDATED, SWEEP,
};

const PLAN: &str = "coder: 2.1.258 installed at /l/coder\n\
                    \n\
                    to restart (2):\n\
                    \x20 %19   platform:4.1   a title\n\
                    \x20       2.1.100 -> 2.1.258, pane map, idle\n\
                    \x20       command coder --resume /t.jsonl\n\
                    \x20 %23   platform:4.5   another\n\
                    \x20       2.1.100 -> 2.1.258, pane map, idle\n\
                    \x20       command coder\n\
                    \n\
                    skipped (3):\n\
                    \x20 %77 main:1.1  2.1.100, run: rerun when idle\n";

const EMPTY: &str = "coder: 2.1.258 installed at /l\n\nnothing to restart.\n";

/// The pane lines only: the detail lines are indented further and the skip list sits
/// past its own heading, so a guess at indentation would take either of them.
#[test]
fn only_the_pane_lines_of_the_plan_are_shown() {
    assert_eq!(
        plan_panes(PLAN),
        vec![
            "  %19   platform:4.1   a title",
            "  %23   platform:4.5   another"
        ]
    );
}

#[test]
fn the_counts_come_off_the_headings() {
    assert_eq!(count_in(PLAN, "to restart ("), Some(2));
    assert_eq!(count_in(PLAN, "skipped ("), Some(3));
    assert_eq!(count_in("nothing to restart.\n", "to restart ("), None);
}

#[test]
fn a_panes_own_reason_is_picked_out_of_the_skip_list() {
    assert_eq!(
        why_for(PLAN, "%77").as_deref(),
        Some("%77 main:1.1  2.1.100, run: rerun when idle")
    );
    assert_eq!(why_for(PLAN, "%99"), None);
}

/// A plan with nothing in it must not be read as having something: that is the
/// difference between firing a restart and explaining a refusal.
#[test]
fn an_empty_plan_is_not_mistaken_for_a_full_one() {
    let empty = "coder: 2.1.258 installed at /l\n\nnothing to restart.\n";
    assert!(plan_panes(empty).is_empty());
    assert_eq!(count_in(empty, "to restart ("), None);
}

#[test]
fn a_restart_is_asked_for_by_pane() {
    assert_eq!(
        restart_args("%7", false),
        vec!["restart", "-y", "--pane", "%7"]
    );
    assert_eq!(
        restart_args("%7", true),
        vec!["restart", "-y", "--pane", "%7", "--include-busy"]
    );
    assert_eq!(restart_args("", false), vec!["restart", "-y"]);
    assert_eq!(restart_subject(""), "all outdated panes");
    assert_eq!(restart_subject("%7"), "%7");
}

#[test]
fn only_a_pane_of_this_server_is_planned_for() {
    assert_eq!(restart_one("%7"), Opening::Plan);
    assert_eq!(restart_one("nonsense"), Opening::Nothing);
    assert_eq!(restart_one("dead:x:/t"), Opening::Say(ENDED.to_string()));
    match restart_one("ha:%6") {
        Opening::Say(t) => {
            assert!(t.contains("%6 is on ha"), "{t}");
            assert!(t.contains("ssh ha taimux restart --pane %6"), "{t}");
        }
        other => panic!("{other:?}"),
    }
}

#[test]
fn a_plan_fires_or_says_why_not() {
    assert_eq!(after_plan("coder", "%19", PLAN), Planned::Fire);
    match after_plan("coder", "%7", EMPTY) {
        Planned::Say(t) => assert!(t.contains("not a coder pane."), "{t}"),
        other => panic!("{other:?}"),
    }
    let skipped = "nothing to restart.\n\nskipped (1):\n  %7 a:1.1  1.0, run: rerun when idle\n";
    match after_plan("coder", "%7", skipped) {
        Planned::Refused(t) => assert!(t.contains("run: rerun when idle"), "{t}"),
        other => panic!("{other:?}"),
    }
}

/// What forcing would not get past is not offered.
#[test]
fn forcing_is_offered_only_where_it_would_help() {
    assert_eq!(after_forced("%19", PLAN), Forced::Offer(FORCE.to_string()));
    let skipped = "nothing to restart.\n\nskipped (1):\n  %7 a:1.1  1.0, input: dialog open\n";
    assert_eq!(
        after_forced("%7", skipped),
        Forced::Say(
            "\n  Forcing would not help:\n  %7 a:1.1  1.0, input: dialog open\n\n".to_string()
        )
    );
    assert_eq!(
        after_forced("%7", EMPTY),
        Forced::Say("\n  Forcing would not help:\n  same refusal\n\n".to_string())
    );
}

#[test]
fn an_answer_that_cannot_be_read_is_no() {
    assert!(agrees(Pressed::Key('y')));
    assert!(!agrees(Pressed::Key('n')));
    assert!(!agrees(Pressed::Unreadable));
    assert!(answered(Pressed::Unreadable, "/log").contains("Left alone."));
    assert_eq!(
        answered(Pressed::Key('y'), "/log"),
        "\n\n  Forced, detached. Watch the version, or read\n  /log\n"
    );
    assert_eq!(answered(Pressed::Key('n'), "/log"), "\n\n  Left alone.\n");
    assert_eq!(swept(Pressed::Key('n'), "/log"), "\n\nNothing restarted.\n");
    assert!(swept(Pressed::Key('y'), "/log").contains("/log"));
    assert!(swept(Pressed::Unreadable, "/log").contains("no readable terminal"));
}

#[test]
fn a_sweep_asks_with_its_count() {
    assert_eq!(
        sweep(PLAN),
        Sweep::Ask(
            format!(
                "{}  %19   platform:4.1   a title\n  %23   platform:4.5   another\n\n  3 left alone (working, waiting, or unidentified).\n\n\x1b[1mRestart 2 session(s)?\x1b[0m [Y/n] ",
                SWEEP
            ),
            2
        )
    );
    assert_eq!(
        sweep(EMPTY),
        Sweep::Say(format!("{}{}\n", SWEEP, NOTHING_OUTDATED))
    );
}
