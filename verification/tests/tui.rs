//! The picker, without its terminal.
use taimux::ansi::Line;
use taimux::table::Table;
use taimux::tui::app::{
    ended_source, App, Ask, Code, Key, Next, Source, DOUBLE_CLICK, PREVIEW_TTL,
};
use taimux::rows::{cell, Row, PLAIN};
use taimux::tui::filter::{all_matchable, arrange, filter, MATCHED};
use taimux::tui::hold::RESTART_HOLD;
use taimux::tui::near::{cwd_near, target_parts};
use taimux::tui::preview::{scroll, wanted, Wanted};
use taimux::tui::{
    empty_note, header, label, outgrown, own_session, pasted, room_for_tag, row_width, tail,
    version_tag, Mode, Outcome, State,
};

const VERSION: &str = "1.2.3";

fn holds(a: &App, id: &str) -> bool {
    a.restarting.iter().any(|h| h.id == id)
}


fn src() -> Source {
    Source {
        ended: false,
        cur: String::new(),
        cur_cwd: String::new(),
        cur_target: String::new(),
        home: "/h".into(),
        newver: String::new(),
        agent: "coder".into(),
        script: None,
        popup: false,
        searchable: false,
        search_min: 3,
        state: State::default(),
    }
}

fn rebuild(a: &mut App) {
    a.rebuild(Table::new(), Table::new());
}

fn app(tsv: &str) -> App {
    let mut a = App::new(src(), 104);
    a.fetch(tsv, 0);
    rebuild(&mut a);
    a
}

fn query(a: &mut App, q: &str) {
    let next = a.query_changed(q.to_string());
    assert_eq!(next, Next::Draw);
}

fn text(l: &Line) -> String {
    l.spans.iter().map(|s| s.content.as_str()).collect()
}

fn ids(a: &App) -> Vec<String> {
    a.view.iter().map(|&i| a.all[i].pane_id.clone()).collect()
}

/// A restart takes the session away for seconds, so
/// the pane has no agent and the scan does not see it.
#[test]
fn a_restarting_row_stays_in_the_list_where_it_was() {
    let mut a = app(THREE);
    a.sel = 1; // the middle one, %2
    assert_eq!(ids(&a), ["%1", "%2", "%3"]);

    a.hold("%2", 0);
    // the restart has taken it away
    let scan = "%1\ta:1.1\t/h\tcoder\t1\tidle\t-\tapple pie\n\
                          %3\tc:1.1\t/h\tcoder\t1\tinput\t-\tcherry tart";
    a.fetch(scan, 0);
    rebuild(&mut a);

    assert_eq!(ids(&a), ["%1", "%2", "%3"], "the row should still be there");
    assert_eq!(
        a.selected().map(|r| r.pane_id.as_str()),
        Some("%2"),
        "and the cursor should still be on it"
    );
}

/// The same, but through the sequence ctrl-x actually produces.
///
/// A restart is fired and returns AT ONCE, so the first refresh after ctrl-x still sees the agent:
/// it has been asked to exit and has not done so yet. Releasing the hold on
/// that refresh would leave nothing holding the row when the session does go a
/// moment later.
#[test]
fn a_row_is_still_held_through_the_refresh_before_the_session_goes() {
    let mut a = app(THREE);
    a.sel = 1;
    a.hold("%2", 0);

    // Refresh ONE: the restart is in flight and the agent is still there.
    a.fetch(THREE, 0);
    rebuild(&mut a);
    assert_eq!(
        ids(&a),
        ["%1", "%2", "%3"],
        "no duplicate while it is present"
    );
    assert!(
        holds(&a, "%2"),
        "not yet gone, so still held"
    );
    assert_eq!(
        a.selected().map(|r| r.pane_id.as_str()),
        Some("%2"),
        "cursor stays put"
    );

    // Refresh TWO: now the session has actually gone.
    let scan = "%1\ta:1.1\t/h\tcoder\t1\tidle\t-\tapple pie\n\
                          %3\tc:1.1\t/h\tcoder\t1\tinput\t-\tcherry tart";
    a.fetch(scan, 0);
    rebuild(&mut a);
    assert_eq!(
        ids(&a),
        ["%1", "%2", "%3"],
        "held in place while it is away"
    );
    assert_eq!(
        a.selected().map(|r| r.pane_id.as_str()),
        Some("%2"),
        "and the cursor is STILL on the session being upgraded"
    );

    // Refresh THREE: it comes back, and only now is the hold spent.
    a.fetch(THREE, 0);
    rebuild(&mut a);
    assert!(a.restarting.is_empty(), "back for real, so no longer held");
    assert_eq!(ids(&a), ["%1", "%2", "%3"]);
    assert_eq!(a.selected().map(|r| r.pane_id.as_str()), Some("%2"));
}

/// Appending would have been easier and wrong: the row would jump to the
/// bottom of the list at the moment its owner is watching it.
#[test]
fn a_held_row_is_not_moved_to_the_end() {
    let mut a = app(THREE);
    a.hold("%1", 0);
    let scan = "%2\tb:1.1\t/h\tcoder\t1\trun\t-\tbanana bread\n\
                          %3\tc:1.1\t/h\tcoder\t1\tinput\t-\tcherry tart";
    a.fetch(scan, 0);
    rebuild(&mut a);
    assert_eq!(ids(&a), ["%1", "%2", "%3"], "%1 was first and stays first");
}

/// Holding stops the moment the session is back, or the row would go on
/// claiming a restart is in flight for as long as the picker is open.
#[test]
fn the_hold_is_released_when_the_session_comes_back() {
    let mut a = app(THREE);
    a.hold("%2", 0);
    let scan = "%1\ta:1.1\t/h\tcoder\t1\tidle\t-\tapple pie";
    a.fetch(scan, 0);
    assert!(holds(&a, "%2"), "still away, still held");
    // back, with a new title, which is what a fresh session looks like
    a.fetch(THREE, 0);
    rebuild(&mut a);
    assert!(a.restarting.is_empty(), "back, so no longer held");
    assert_eq!(ids(&a), ["%1", "%2", "%3"]);
}

/// A restart that never comes back must not leave a row lying about forever.
#[test]
fn the_hold_expires() {
    let mut a = app(THREE);
    a.hold("%2", 0);
    let scan = "%1\ta:1.1\t/h\tcoder\t1\tidle\t-\tapple pie";
    // fired longer ago than the hold allows
    a.fetch(scan, RESTART_HOLD + 1_000);
    rebuild(&mut a);
    assert!(a.restarting.is_empty());
    assert_eq!(
        ids(&a),
        ["%1"],
        "the row is gone, because the restart failed"
    );
}

/// The marker column says a restart is in flight. It goes there and not into
/// the summary because the summary strips a leading marker glyph.
#[test]
fn a_held_row_is_marked_as_restarting() {
    let mut a = app(THREE);
    a.hold("%2", 0);
    let scan = "%1\ta:1.1\t/h\tcoder\t1\tidle\t-\tapple pie";
    a.fetch(scan, 0);
    rebuild(&mut a);
    let row = a.all.iter().find(|r| r.pane_id == "%2").unwrap();
    let text = row.to_ansi();
    assert!(
        text.contains('↻'),
        "expected the restart marker in {text:?}"
    );
    // …and it does not borrow the waiting star, which means something else
    assert!(!text.contains('✳'), "must not read as asking: {text:?}");
}

/// A row held while a filter is on keeps its state, so it stays in whichever
/// mode was being watched. A synthetic state would have dropped it out of the
/// list at exactly the wrong moment.
#[test]
fn a_held_row_survives_the_mode_it_was_watched_in() {
    let mut a = app(THREE);
    a.mode = Mode::Run; // %2 is the running one
    rebuild(&mut a);
    assert_eq!(ids(&a), ["%2"]);
    a.hold("%2", 0);
    let scan = "%1\ta:1.1\t/h\tcoder\t1\tidle\t-\tapple pie";
    a.fetch(scan, 0);
    rebuild(&mut a);
    assert_eq!(ids(&a), ["%2"], "still listed under the filter it was in");
}

/// Asking must return AT ONCE: a scan can take a minute and more, and the list
/// is drawn and read meanwhile.
#[test]
fn asking_for_a_refresh_does_not_wait_for_it() {
    let mut a = app(THREE);
    assert_eq!(a.start_refresh(0), Ask::Scan);
    assert!(a.pending.is_some(), "nothing has landed yet");
    assert_eq!(a.all.len(), 3, "and the old rows are still there to draw");

    // …and it lands later, without anything having waited on it.
    a.take_refresh("%9\tz:1.1\t/h\tcoder\t1\tidle\t-\tlate arrival", None, 400);
    assert!(a.pending.is_none());
    rebuild(&mut a);
    assert_eq!(ids(&a), ["%9"]);
}

/// One at a time. The timer must not stack refreshes on a machine where they
/// take longer than the interval, which is the machine this matters on.
#[test]
fn a_second_refresh_is_not_started_while_one_is_out() {
    let mut a = app(THREE);
    assert_eq!(a.start_refresh(0), Ask::Scan);
    assert_eq!(a.start_refresh(100), Ask::Waiting);
    assert_eq!(a.start_refresh(200), Ask::Waiting);
    a.take_refresh(THREE, None, 300);
    assert_eq!(a.start_refresh(400), Ask::Scan);
    a.mode = Mode::Dead;
    assert_eq!(a.start_refresh(500), Ask::Ended);
}

/// A scan that fails never answers. The picker has to forget that refresh and
/// carry on, not wait on it forever.
#[test]
fn a_refresh_that_never_answers_is_forgotten() {
    let mut a = app(THREE);
    a.start_refresh(0);
    a.drop_refresh();
    assert!(a.pending.is_none(), "still waiting on a dead scan");
    assert_eq!(a.all.len(), 3, "and the list it had is untouched");
}

/// The border says so, but only once it has been a second: on a healthy
/// machine the answer is back before the next draw, and a label that flashed
/// every tick would be noise about nothing.
#[test]
fn the_border_says_refreshing_only_when_it_is_worth_saying() {
    let mut a = app(THREE);
    a.start_refresh(10_000);
    assert!(!a.refreshing(10_001), "not from the first millisecond");
    assert!(a.refreshing(12_000));
    assert_eq!(
        label(Mode::All, false, true, false, true),
        " agent sessions · live · refreshing "
    );
}

/// An empty list is four different silences, and it says which.
#[test]
fn an_empty_list_says_which_kind_of_empty_it_is() {
    let text = |ls: Vec<String>| ls.join("\n");

    // nothing running at all
    let none = text(empty_note(Mode::All, "", false, true, false));
    assert!(none.contains("No agent sessions on this machine"), "{none}");
    assert!(none.contains("Esc closes this"), "{none}");
    // …and with an ended list to offer, it offers it
    let none_ended = text(empty_note(Mode::All, "", false, true, true));
    assert!(none_ended.contains("Tab reaches the conversations that ended"));

    // something IS running, just not in this state
    let filtered = text(empty_note(Mode::Input, "", false, false, true));
    assert!(
        filtered.contains("Nothing is waiting for an answer right now"),
        "{filtered}"
    );
    assert!(!filtered.contains("No agent sessions"), "{filtered}");

    // a query nobody matches, which says what to press to undo it
    let q = text(empty_note(Mode::All, "zzz", false, false, true));
    assert!(q.contains("Nothing matches zzz"), "{q}");
    assert!(q.contains("ctrl-u"), "{q}");

    // the ended list, before anything has ended
    let dead = text(empty_note(Mode::Dead, "", false, false, true));
    assert!(
        dead.contains("No past conversations have been found here yet"),
        "{dead}"
    );

    // …and before the first scan has come back at all. It outranks every
    // other case, because none of them is known yet.
    let scanning = text(empty_note(Mode::All, "", true, true, true));
    assert!(
        scanning.contains("Looking for agent sessions"),
        "{scanning}"
    );
    assert!(!scanning.contains("No agent sessions"), "{scanning}");
    let scanning_q = text(empty_note(Mode::Input, "zzz", true, false, true));
    assert!(
        scanning_q.contains("Looking for agent sessions"),
        "{scanning_q}"
    );
}

/// The default state is an ORDINARY open, which above all means the preview
/// is ON.
#[test]
fn the_default_state_is_an_ordinary_open() {
    let d = State::default();
    assert!(d.preview);
    assert!(!d.search);
    assert!(!d.by_date);
    assert_eq!(Mode::from_key(d.mode), Mode::All);
    assert!(d.query.is_empty() && d.on.is_empty());
}

/// tmux shrinks a popup to fit a client that got smaller and grows it back
/// up to the size it was ASKED for, so the only case the picker has to act
/// on is a terminal that grew past that.
#[test]
fn only_a_terminal_that_grew_past_the_popup_counts() {
    // opened at 160x50, so 80% is 128x40 and the usable area 126x38
    assert!(
        !outgrown((126, 38), (160, 50), 2),
        "the size it was opened at is not a reason to reopen"
    );
    // the client grew to 200x60: 80% of that is 160x48, well past 126x38
    assert!(outgrown((126, 38), (200, 60), 2));
    // …and the same popup on a client that SHRANK is tmux's business, not
    // ours: it has already clamped the popup to fit.
    assert!(!outgrown((58, 18), (60, 20), 2));
}

/// A column or two of rounding must not close and reopen the popup, and the
/// rule switches at 100 columns, so a phone rotating between portrait and
/// landscape crosses it in both directions.
#[test]
fn the_slack_stops_a_reopen_over_rounding() {
    // 80 columns is "small", so the popup is 100% wide: 78 usable
    assert!(!outgrown((78, 19), (80, 24), 2));
    // one column of growth is not worth a flicker
    assert!(!outgrown((78, 19), (81, 24), 2));
    // portrait to landscape: 80 -> 140 crosses the rule, 80% of 140 is 112
    assert!(outgrown((78, 19), (140, 40), 2));
}

/// What a resize carries over. Losing the query or the cursor to a rotation
/// would make the reopen worse than the stuck popup it replaces.
#[test]
fn a_resize_hands_over_what_the_picker_was_doing() {
    let mut a = app(THREE);
    a.mode = Mode::Run;
    rebuild(&mut a);
    query(&mut a, "banana");
    a.search = true;
    a.by_date = true;
    a.preview = false;
    // The client the popup was on, which the reopen must target rather than
    // asking tmux which one is "current".
    a.client = Some(("/dev/pts/7".into(), (200, 60)));
    let Outcome::Resize(state) = a.outcome(None, true) else {
        panic!("not handed over");
    };
    assert_eq!(
        state,
        State {
            query: "banana".into(),
            mode: "run",
            search: true,
            by_date: true,
            preview: false,
            on: "%2".into(),
            client: "/dev/pts/7".into(),
        }
    );
    // …and it comes back as the same picker on the other side
    assert_eq!(Mode::from_key(state.mode), Mode::Run);
    assert_eq!(Mode::from_key("outdated"), Mode::Outdated);
    assert_eq!(Mode::from_key(""), Mode::All);
}

/// focus() is what covers a REFUSED restart: nothing is held, so the rebuild
/// has nothing to re-pin to, and without it the cursor falls to the top.
#[test]
fn focus_puts_the_cursor_back_and_is_silent_when_it_cannot() {
    let mut a = app(THREE);
    a.sel = 0;
    assert!(a.focus("%3"));
    assert_eq!(a.selected().map(|r| r.pane_id.as_str()), Some("%3"));
    assert!(!a.focus("%404"));
    assert_eq!(
        a.selected().map(|r| r.pane_id.as_str()),
        Some("%3"),
        "a pane that is not listed leaves the cursor alone"
    );
}

/// The picker as `pick` opens it: a scan, plus where the pane it was opened
/// from is, and no ● row because that pane runs no agent.
fn app_at(tsv: &str, cwd: &str, target: &str) -> App {
    let mut a = app(tsv);
    a.src.cur_cwd = cwd.into();
    a.src.cur_target = target.into();
    a.focus_nearest();
    a
}

fn on(a: &App) -> &str {
    a.selected().map(|r| r.pane_id.as_str()).unwrap_or("")
}

/// Four sessions around one project tree, in a session the pane pressing F1
/// is not in, so nothing but the directory can separate them.
const TREE: &str = "%1\tw:1.1\t/h/notes\tcoder\t1\tidle\t-\tnotes\n\
                    %2\tw:2.1\t/h/proj/web\tcoder\t1\tidle\t-\tweb\n\
                    %3\tw:3.1\t/h/proj/web/docs\tcoder\t1\tidle\t-\tdocs\n\
                    %4\tw:4.1\t/h/proj\tcoder\t1\tidle\t-\tproj";

/// F1 from a shell: the pane it was pressed in runs no agent, so there is no
/// ● row to open on.
#[test]
fn a_pane_with_no_agent_opens_on_the_session_in_its_own_directory() {
    assert_eq!(on(&app_at(TREE, "/h/proj/web", "z:1.1")), "%2");
    // the same directory wins however it is written
    assert_eq!(on(&app_at(TREE, "/h/proj/web/", "z:1.1")), "%2");
    assert_eq!(on(&app_at(TREE, "/h/notes", "z:1.1")), "%1");
}

/// Nothing is in the directory itself, so the nearest one is taken: DOWN the
/// tree before up it, since the deeper session is the more specific answer
/// and the parent is often just where several projects happen to live.
#[test]
fn a_subdirectory_beats_the_parent_directory() {
    let two = "%3\tw:3.1\t/h/proj/web/docs\tcoder\t1\tidle\t-\tdocs\n\
               %4\tw:4.1\t/h/proj\tcoder\t1\tidle\t-\tproj";
    assert_eq!(on(&app_at(two, "/h/proj/web", "z:1.1")), "%3");
    // …and from deeper in, the session on the way back up
    assert_eq!(on(&app_at(TREE, "/h/proj/web/docs/api", "z:1.1")), "%3");
}

/// The directory outranks the list: a session next door in the wrong tree is
/// not the one you are working on.
#[test]
fn the_directory_outranks_how_near_the_pane_is() {
    let two = "%1\tw:1.1\t/h/proj\tcoder\t1\tidle\t-\tright tree\n\
               %2\tw:4.1\t/h/other\tcoder\t1\tidle\t-\tnext door";
    assert_eq!(on(&app_at(two, "/h/proj", "w:5.1")), "%1");
}

/// …and only then the list, which is what separates sessions the directory
/// cannot: the same session first, nearest window in it, then anything else
/// on this server, then another host, whose window numbers mean nothing here.
#[test]
fn equal_directories_are_separated_by_the_tmux_list() {
    let same = "%1\tother:1.1\t/h/proj\tcoder\t1\tidle\t-\tanother session\n\
                %2\tw:9.1\t/h/proj\tcoder\t1\tidle\t-\tfar window\n\
                %3\tw:2.1\t/h/proj\tcoder\t1\tidle\t-\tnext window";
    assert_eq!(on(&app_at(same, "/h/proj", "w:3.1")), "%3");

    let remote = "ha:%9\tw:1.1\t/h/proj\tcoder\t1\tidle\t-\tover there\n\
                  %1\tother:1.1\t/h/proj\tcoder\t1\tidle\t-\there";
    assert_eq!(on(&app_at(remote, "/h/proj", "w:3.1")), "%1");
}

/// A directory with nothing in common says nothing about which row is
/// nearer, so the tie falls through to the list rather than to whichever
/// session happens to sit closest to the root.
#[test]
fn a_directory_that_shares_nothing_falls_through_to_the_list() {
    let two = "%1\tw:1.1\t/h/a/b/c\tcoder\t1\tidle\t-\tdeep\n\
               %2\tw:4.1\t/h/b\tcoder\t1\tidle\t-\tshallow";
    assert_eq!(on(&app_at(two, "/tmp/scratch", "w:5.1")), "%2");
}

/// Not knowing where the pane is means not knowing: the cursor stays at the
/// top rather than moving on a guess. That is every entry point but `pick`.
#[test]
fn an_unknown_position_leaves_the_cursor_at_the_top() {
    assert_eq!(on(&app_at(TREE, "", "")), "%1");
}

const THREE: &str = "%1\ta:1.1\t/h\tcoder\t1\tidle\t-\tapple pie\n\
                     %2\tb:1.1\t/h\tcoder\t1\trun\t-\tbanana bread\n\
                     %3\tc:1.1\t/h\tcoder\t1\tinput\t-\tcherry tart";

/// The rows are fitted to the area they are drawn in, less the border and the
/// pointer. Getting this wrong is invisible until a row is one column too
/// long and the right-hand columns fall off.
#[test]
fn the_row_width_excludes_the_border_and_the_pointer() {
    assert_eq!(row_width(130), 126);
    assert_eq!(row_width(2), 0); // narrower than its own chrome
    assert_eq!(row_width(0), 0);
}

#[test]
fn tab_steps_round_the_cycle_and_starts_over() {
    let mut m = Mode::All;
    let seen: Vec<Mode> = (0..6)
        .map(|_| {
            m = m.next(true, true);
            m
        })
        .collect();
    assert_eq!(
        seen,
        vec![
            Mode::Input,
            Mode::Run,
            Mode::Idle,
            Mode::Outdated,
            Mode::Dead,
            Mode::All
        ]
    );
}

/// Shift-tab is the same ring read backwards, so a step each way from
/// anywhere lands back where it started.
#[test]
fn shift_tab_steps_the_other_way_round_the_cycle() {
    let mut m = Mode::All;
    let seen: Vec<Mode> = (0..6)
        .map(|_| {
            m = m.prev(true, true);
            m
        })
        .collect();
    assert_eq!(
        seen,
        vec![
            Mode::Dead,
            Mode::Outdated,
            Mode::Idle,
            Mode::Run,
            Mode::Input,
            Mode::All
        ]
    );
    for m in [
        Mode::All,
        Mode::Input,
        Mode::Run,
        Mode::Idle,
        Mode::Outdated,
        Mode::Dead,
    ] {
        assert_eq!(m.next(true, true).prev(true, true), m);
        assert_eq!(m.prev(true, true).next(true, true), m);
    }
}

/// Ended is skipped where there is nothing to show, rather than trapping the
/// picker in a mode with no rows in it.
#[test]
fn the_ended_mode_is_skipped_without_a_sessions_cache() {
    assert_eq!(Mode::Idle.next(false, false), Mode::All);
    assert_eq!(Mode::Idle.next(true, false), Mode::Dead);
    // and backwards it is skipped the same way
    assert_eq!(Mode::All.prev(false, false), Mode::Idle);
    assert_eq!(Mode::All.prev(true, false), Mode::Dead);
}

/// …and so is outdated, where nothing is installed to judge a version
/// against: every row would be measured against an empty version, so the
/// list could only ever be empty.
#[test]
fn the_outdated_mode_is_skipped_when_no_version_is_installed() {
    assert_eq!(Mode::Idle.next(false, true), Mode::Outdated);
    assert_eq!(Mode::Outdated.next(false, true), Mode::All);
    assert_eq!(Mode::Outdated.next(true, true), Mode::Dead);
    // both gates off: idle is the last stop
    assert_eq!(Mode::Idle.next(false, false), Mode::All);
    // …and going back from the first stop skips it just the same
    assert_eq!(Mode::All.prev(false, false), Mode::Idle);
    assert_eq!(Mode::All.prev(false, true), Mode::Outdated);
}

#[test]
fn the_label_says_which_list_and_what_is_on() {
    assert_eq!(
        label(Mode::All, false, false, false, false),
        " agent sessions "
    );
    assert_eq!(
        label(Mode::Input, false, true, false, false),
        " waiting for an answer · live "
    );
    assert_eq!(
        label(Mode::Outdated, false, false, false, false),
        " running outdated code "
    );
    assert_eq!(
        label(Mode::Dead, false, true, true, false),
        " past sessions · live · ⌕ "
    );
    // the order goes straight after the name, since it describes that list
    assert_eq!(
        label(Mode::Dead, true, true, true, false),
        " past sessions · by date · live · ⌕ "
    );
}

/// Past conversations, newest first as the list arrives. Two SAY "tart", the
/// older one where a word starts, which the matcher ranks higher; the newest
/// of all only has its letters, scattered across four words.
const PAST: &str =
    "dead:coder:/n.jsonl\t30m\t/h/a\tcoder\t1\tdead\t-\ttrial and error then tests\n\
     dead:coder:/r.jsonl\t1h\t/h/r\tcoder\t1\tdead\t-\trestart the ledger\n\
     dead:coder:/m.jsonl\t2d\t/h/b\tcoder\t1\tdead\t-\tapple pie\n\
     dead:coder:/o.jsonl\t9d\t/h/c\tcoder\t1\tdead\t-\tcherry tart";

fn app_past(query: &str) -> App {
    let mut a = app(THREE);
    a.src.ended = true;
    a.mode = Mode::Dead;
    a.query = query.into();
    a.fetch(PAST, 0);
    rebuild(&mut a);
    a
}

/// The reason for the key. A query ranks the past list best match first,
/// which scatters what it keeps across the months; by date keeps the same
/// matches, newest first, the order the list had before anything was typed.
#[test]
fn ctrl_s_keeps_the_past_list_newest_first_while_a_query_filters_it() {
    let mut a = app_past("tart");
    assert_eq!(
        ids(&a),
        [
            "dead:coder:/o.jsonl",
            "dead:coder:/r.jsonl",
            "dead:coder:/n.jsonl"
        ],
        "ranked, the word start wins, and the loose match comes last"
    );
    a.by_date = true;
    rebuild(&mut a);
    assert_eq!(
        ids(&a),
        [
            "dead:coder:/r.jsonl",
            "dead:coder:/o.jsonl",
            "dead:coder:/n.jsonl"
        ],
        "by date, the two that say it newest first, THEN the loose one"
    );
    // …and typing more keeps that order rather than ranking again
    query(&mut a, "tart e");
    assert_eq!(
        ids(&a),
        [
            "dead:coder:/r.jsonl",
            "dead:coder:/o.jsonl",
            "dead:coder:/n.jsonl"
        ]
    );
}

/// Why by date is not simply "leave every match where it stands". The
/// letters of a query turn up scattered in rows that have nothing to do with
/// it, and the ranking is what keeps those under the rows that say it. So
/// the loose match stays last even as the newest row there is.
#[test]
fn by_date_keeps_the_loose_matches_under_the_ones_that_say_it() {
    let mut a = app_past("tart");
    a.by_date = true;
    rebuild(&mut a);
    assert_eq!(
        ids(&a).last().map(String::as_str),
        Some("dead:coder:/n.jsonl")
    );
    // With nothing but loose matches, they are simply newest first.
    query(&mut a, "tlr");
    assert_eq!(ids(&a), ["dead:coder:/n.jsonl", "dead:coder:/r.jsonl"]);
}

/// The cursor stays on the conversation it was on, so a second press lands
/// exactly where the first one started.
#[test]
fn sorting_by_date_keeps_the_cursor_on_the_same_conversation() {
    let mut a = app_past("tart");
    assert_eq!(on(&a), "dead:coder:/o.jsonl");
    a.by_date = true;
    rebuild(&mut a);
    assert_eq!(on(&a), "dead:coder:/o.jsonl");
    assert_eq!(a.sel, 1, "which is now below the newer one");
    a.by_date = false;
    rebuild(&mut a);
    assert_eq!((on(&a), a.sel), ("dead:coder:/o.jsonl", 0));
}

/// Only the past list has a date to go by. Left on through a Tab, the flag
/// must not quietly stop the live lists ranking what a query keeps.
#[test]
fn by_date_is_the_past_lists_alone() {
    let mut a = app("%1\ta:1.1\t/h\tcoder\t1\tidle\t-\trestart the ledger\n\
                     %2\tb:1.1\t/h\tcoder\t1\tidle\t-\tcherry tart");
    a.by_date = true;
    a.query = "tart".into();
    rebuild(&mut a);
    assert!(!a.dated(), "a live list is never in date order");
    assert_eq!(ids(&a), ["%2", "%1"], "so a query still ranks it");
}

/// The list ctrl-x and F8 act on, gathered in one place. It crosses the four
/// state modes, because being behind is not a state.
#[test]
fn the_outdated_mode_lists_the_rows_a_restart_would_act_on() {
    let mut a = app(VERSIONS);
    a.src.newver = "2.1.243".into();
    a.mode = Mode::Outdated;
    rebuild(&mut a);
    assert_eq!(ids(&a), ["%1", "%2"], "behind, whatever they are doing");

    // …and with nothing installed to compare against, nothing is behind.
    a.src.newver = String::new();
    rebuild(&mut a);
    assert!(a.view.is_empty());
}

const VERSIONS: &str = "%1\ta:1.1\t/h\tcoder\t2.1.229\tidle\t-\tbehind\n\
                        %2\tb:1.1\t/h\tcoder\t2.1.229\tinput\t-\tbehind and asking\n\
                        %3\tc:1.1\t/h\tcoder\t2.1.243\trun\t-\tcurrent\n\
                        ha:%4\td:1.1\t/h\tcoder\t2.1.229\tidle\t-\tover there";

/// The stamp names the tool as well as the version, or a bare number in a
/// corner would read as one more agent version like the ones down the right
/// of every row. It is the version that
/// `taimux version` prints.
#[test]
fn the_stamp_names_the_tool_and_carries_the_crate_version() {
    let tag = version_tag(VERSION);
    assert!(tag.contains("taimux"));
    assert!(tag.contains(VERSION));
    // padded both sides, so it does not touch the border corner
    assert!(tag.starts_with(' ') && tag.ends_with(' '));
}

/// The stamp gives way to the count, never the other way round: ratatui
/// gives a right-aligned title precedence, so without the check the count
/// is what gets eaten, and the count is the live half.
#[test]
fn the_stamp_yields_to_the_count_on_a_narrow_border() {
    let count = " 5/5 ";
    let need = count.len() + version_tag(VERSION).chars().count() + 2;
    assert!(room_for_tag(need as u16, count, VERSION));
    assert!(!room_for_tag(need as u16 - 1, count, VERSION));
    // a four-figure list needs more room for the same window
    assert!(!room_for_tag(need as u16, " 1000/1000 ", VERSION));
    // and a window narrower than the stamp alone never gets it
    assert!(!room_for_tag(16, count, VERSION));
}

/// The header only ever advertises what is really bound: a key that does
/// nothing is worse than a shorter header.
#[test]
fn the_header_advertises_only_bound_keys() {
    let bare = header(false, false, false, false, None);
    assert!(!bare.contains("ctrl-x"));
    assert!(!bare.contains("resume"));
    assert!(!bare.contains("ctrl-t"));
    assert!(!bare.contains("ctrl-s"));
    assert!(header(true, false, false, false, None).contains("ctrl-x"));
    assert!(header(false, true, false, false, None).contains("enter: switch/resume"));
    assert!(header(false, false, true, true, None).contains("(on)"));
    assert!(!header(false, false, true, false, None).contains("(on)"));
    // ctrl-s is bound on the past list, and only said there
    let past = header(false, true, false, false, Some(false));
    assert!(past.contains("ctrl-s: sort by date") && !past.contains("(on)"));
    assert!(header(false, true, false, false, Some(true)).contains("ctrl-s: sort by date (on)"));
}

#[test]
fn a_mode_shows_only_that_state() {
    let mut a = app(THREE);
    assert_eq!(a.view.len(), 3);
    a.mode = Mode::Run;
    rebuild(&mut a);
    assert_eq!(a.view.len(), 1);
    assert!(a.selected().unwrap().plain().contains("banana"));
}

#[test]
fn the_query_filters_and_ranks() {
    let mut a = app(THREE);
    a.query = "banana".into();
    a.view = filter(&a.all, &a.query, false);
    assert_eq!(a.view.len(), 1);

    // an AND of terms, not one fuzzy match
    a.query = "apple tart".into();
    a.view = filter(&a.all, &a.query, false);
    assert!(a.view.is_empty());
}

#[test]
fn no_query_keeps_the_lists_own_order() {
    let a = app(THREE);
    assert_eq!(a.view, vec![0, 1, 2]);
}

/// A rebuild puts the cursor back on the same SESSION, not the same index:
/// the refresh timer rebuilds under you while you are moving.
#[test]
fn a_rebuild_keeps_the_cursor_on_the_same_session() {
    let mut a = app(THREE);
    a.sel = 2;
    let was = a.selected().unwrap().pane_id.clone();
    // a session vanishes from the top of the list
    a.fetch(
        "%2\tb:1.1\t/h\tcoder\t1\trun\t-\tbanana bread\n\
                 %3\tc:1.1\t/h\tcoder\t1\tinput\t-\tcherry tart",
        0,
    );
    rebuild(&mut a);
    assert_eq!(a.selected().unwrap().pane_id, was);
    assert_eq!(a.sel, 1);
}

#[test]
fn a_cursor_whose_row_is_gone_falls_back_to_the_top() {
    let mut a = app(THREE);
    a.sel = 2;
    a.fetch(
        "%1\ta:1.1\t/h\tcoder\t1\tidle\t-\tapple pie",
        0,
    );
    rebuild(&mut a);
    assert_eq!(a.sel, 0);
}

#[test]
fn the_cursor_wraps_both_ways() {
    let mut a = app(THREE);
    a.move_by(-1);
    assert_eq!(a.sel, 2);
    a.move_by(1);
    assert_eq!(a.sel, 0);
}

/// A page CLAMPS where a single step wraps, and the difference is the point:
/// holding Page Down to reach the bottom of a long list must not sail past
/// the end and land back at the top, with nothing on the row to say so.
#[test]
fn a_page_clamps_where_a_single_step_wraps() {
    let mut a = app(THREE);
    a.move_page(1, 2);
    assert_eq!(a.sel, 2);
    a.move_page(1, 2); // already at the end, and it stays there
    assert_eq!(a.sel, 2);
    a.move_page(-1, 2);
    assert_eq!(a.sel, 0);
    a.move_page(-1, 2);
    assert_eq!(a.sel, 0);
}

/// A list drawn zero rows tall (a pane too short for one) would otherwise
/// make the key do nothing at all, which reads as the key being unbound.
#[test]
fn a_page_of_no_rows_still_moves_one() {
    let mut a = app(THREE);
    a.move_page(1, 0);
    assert_eq!(a.sel, 1);
}

/// A page of an empty list goes nowhere.
#[test]
fn an_empty_view_pages_without_panicking() {
    let mut a = app(THREE);
    query(&mut a, "zzzzz");
    assert!(a.view.is_empty());
    a.move_page(1, 8);
    a.move_page(-1, 8);
    assert_eq!(a.sel, 0);
}

/// An empty list must not be indexed into, and every key still has to work on
/// one: a query that matches nothing is the ordinary way to get here.
#[test]
fn an_empty_view_is_safe_to_navigate() {
    let mut a = app(THREE);
    a.query = "zzzzz".into();
    a.view = filter(&a.all, &a.query, false);
    assert!(a.view.is_empty());
    a.move_by(1);
    a.move_by(-1);
    assert!(a.selected().is_none());
}

/// `capture-pane` pads a screen to the pane's height, so the preview trims
/// before it takes a tail.
#[test]
fn the_preview_tail_ignores_the_padding_capture_pane_adds() {
    let screen = "one\ntwo\nthree\n\n\n\n\n\n\n\n";
    let t = tail(screen, 2);
    let text: Vec<String> = t.iter().map(text).collect();
    assert_eq!(text, vec!["two", "three"]);
}

#[test]
fn a_screen_shorter_than_the_room_is_shown_whole() {
    assert_eq!(tail("one\ntwo\n", 40).len(), 2);
    assert!(tail("", 40).is_empty());
    assert!(tail("\n\n\n", 40).is_empty());
}

/// The whole point of the exercise: a paste is text, never an Enter. Its
/// first line joins the query and the rest is dropped, rather than being
/// submitted into whatever is behind the picker.
#[test]
fn a_pasted_newline_stays_out_of_the_query() {
    let text = "set -g @plugin foo\rdo not write below this line";
    assert_eq!(pasted(text), "set -g @plugin foo");
    let mut a = app(THREE);
    a.paste(text);
    assert_eq!(a.query, "set -g @plugin foo");
}

fn key(code: Code) -> Key {
    Key {
        code,
        ctrl: false,
        alt: false,
        shift: false,
    }
}

fn ctrl(c: char) -> Key {
    Key {
        ctrl: true,
        ..key(Code::Char(c))
    }
}

/// Enter chooses, and nothing typed does.
#[test]
fn only_enter_chooses() {
    let mut a = app(THREE);
    assert_eq!(a.press(key(Code::Enter), 5, 0), Next::Choose("%1".into()));
    for c in ['a', 'z', ' ', 'é'] {
        let n = a.press(key(Code::Char(c)), 5, 0);
        assert!(!matches!(n, Next::Choose(_)), "{c}");
    }
    assert_eq!(a.query, "az é");
    assert_eq!(a.press(key(Code::Esc), 5, 0), Next::Leave);
}

#[test]
fn the_keys_move_the_cursor() {
    let mut a = app(THREE);
    a.press(key(Code::Down), 5, 0);
    assert_eq!(a.sel, 1);
    a.press(key(Code::Up), 5, 0);
    assert_eq!(a.sel, 0);
    a.press(key(Code::End), 5, 0);
    assert_eq!(a.sel, 2);
    a.press(key(Code::Home), 5, 0);
    assert_eq!(a.sel, 0);
    a.press(key(Code::PageDown), 1, 0);
    assert_eq!(a.sel, 1);
    a.press(key(Code::PageUp), 1, 0);
    assert_eq!(a.sel, 0);
}

#[test]
fn the_keys_step_the_mode_and_edit_the_query() {
    let mut a = app(THREE);
    a.press(key(Code::Tab), 5, 0);
    assert_eq!(a.mode, Mode::Input);
    a.press(key(Code::BackTab), 5, 0);
    assert_eq!(a.mode, Mode::All);
    query(&mut a, "two words");
    a.press(ctrl('w'), 5, 0);
    assert_eq!(a.query, "two ");
    a.press(key(Code::Backspace), 5, 0);
    assert_eq!(a.query, "two");
    a.press(ctrl('u'), 5, 0);
    assert_eq!(a.query, "");
}

/// A second press of a toggle puts back what the first one changed.
#[test]
fn a_toggle_undoes_itself() {
    let mut a = app(THREE);
    let was = a.preview;
    a.press(ctrl('/'), 5, 0);
    assert_ne!(a.preview, was);
    a.press(ctrl('/'), 5, 0);
    assert_eq!(a.preview, was);
    assert_eq!(a.sel, 0);
}

/// A click moves the cursor, and a second one on the same row chooses it.
#[test]
fn a_double_click_chooses() {
    let mut a = app(THREE);
    assert_eq!(a.click(6, 5, 0, 0), Next::Draw);
    assert_eq!(a.sel, 1);
    assert_eq!(a.click(6, 5, 0, 100), Next::Choose("%2".into()));
    // too late to be one
    a.click(5, 5, 0, 1_000);
    assert_eq!(a.click(5, 5, 0, 1_000 + DOUBLE_CLICK + 1), Next::Draw);
    // outside the list is nothing
    assert_eq!(a.click(50, 5, 0, 9_000), Next::Draw);
}

#[test]
fn a_terminal_that_grew_is_left_with_its_state() {
    let mut a = app(THREE);
    a.client = Some(("/dev/pts/7".into(), (200, 60)));
    assert!(a.outgrew((126, 38), true));
    assert!(!a.outgrew((126, 38), false));
    assert_eq!(a.outcome(Some("%1".into()), true), Outcome::Chosen("%1".into()));
    assert_eq!(a.outcome(None, false), Outcome::Aborted);
    assert_eq!(a.count(), " 3/3 ");
}

/// A screen is kept for its pane alone, and only for a while.
#[test]
fn a_screen_grows_stale() {
    let mut a = app(THREE);
    a.keep_shot("%1", "the screen".into(), 100);
    assert!(a.fresh("%1", PREVIEW_TTL, 100 + PREVIEW_TTL - 1));
    assert!(!a.fresh("%1", PREVIEW_TTL, 100 + PREVIEW_TTL));
    assert!(!a.fresh("%2", PREVIEW_TTL, 100));
    let Some(Wanted::Live { id }) = a.wanted() else {
        panic!("a live pane");
    };
    assert_eq!(id, "%1");
    let (_, lines, _) = a.preview(&Vec::new(), false, &Vec::new());
    assert!(lines.iter().any(|l| text(l) == "the screen"), "{lines:?}");
}

#[test]
fn what_a_row_wants_shown_depends_on_where_it_is() {
    let past = app_past("");
    let r = past.selected().unwrap();
    assert_eq!(
        wanted(r, false),
        Wanted::Past {
            agent: "coder".into(),
            key: "/n.jsonl".into()
        }
    );
    let far = app("ha:%9\tw:1.1\t/h/proj\tcoder\t1\tidle\t-\tover there");
    let r = far.selected().unwrap();
    assert_eq!(wanted(r, false), Wanted::Unasked { host: "ha".into() });
    assert_eq!(wanted(r, true), Wanted::Remote { id: "ha:%9".into() });
}

/// Scrolling stops at both ends.
#[test]
fn scrolling_stops_at_the_ends() {
    assert_eq!(scroll(100, 10, true, 0).0, 90);
    assert_eq!(scroll(100, 10, true, -1_000).0, 0);
    assert_eq!(scroll(100, 10, false, 0).0, 0);
    assert_eq!(scroll(100, 10, false, 1_000).0, 90);
    assert_eq!(scroll(5, 10, true, 0).0, 0);
}

/// A score decides the order, and by date only the tight ones come first.
#[test]
fn what_matched_is_arranged_best_first_or_newest_first() {
    let scores = vec![Some(1), None, Some(9), Some(5)];
    let loose = vec![true, true, false, false];
    assert_eq!(arrange(&scores, &loose, false), [2, 3, 0]);
    assert_eq!(arrange(&scores, &loose, true), [2, 3, 0]);
    let loose = vec![false, true, true, false];
    assert_eq!(arrange(&scores, &loose, true), [0, 3, 2]);
}

#[test]
fn a_directory_is_near_by_what_it_shares_and_how_far_it_is() {
    let (shared, here) = cwd_near("/h/proj/web", "/h/proj/web");
    let (down, below) = cwd_near("/h/proj/web", "/h/proj/web/docs");
    let (up, above) = cwd_near("/h/proj/web", "/h/proj");
    assert!(shared == down && down > up || shared >= up);
    assert!(here < below);
    assert!(above > 0);
    assert_eq!(target_parts("w:3.1"), Some(("w".into(), 3, 1)));
    assert_eq!(target_parts("nonsense"), None);
}

#[test]
fn the_popup_knows_whose_it_is() {
    assert_eq!(own_session(Some("/tmp/tmux/default,123,7")).as_deref(), Some("$7"));
    assert_eq!(own_session(None), None);
    assert!(ended_source(Some("0"), Some("x"), 0).is_none());
}

fn row_of(text: &str) -> Row {
    Row {
        cells: vec![cell(text, PLAIN)],
        pane_id: "%1".into(),
        target: String::new(),
        cwd: String::new(),
        host: String::new(),
        since: None,
    }
}

#[test]
fn rows_that_can_be_matched_are_shown() {
    let mut a = App::new(src(), 104);
    a.fetch("%1\ta:1.1\t/h\tcoder\t1\tidle\t-\tapple pie", 0);
    assert!(a.rebuild_if_matchable(Table::new(), Table::new()));
    assert_eq!(ids(&a), ["%1"]);
    assert!(all_matchable(&vec![row_of("apple pie")]));
    assert!(!all_matchable(&vec![row_of(&"x".repeat(MATCHED + 1))]));
}

/// A row is kept exactly where it has the letters of every word, in order.
#[test]
fn a_row_is_kept_by_the_letters_of_every_word() {
    let list = vec![row_of("apple pie"), row_of("Plain tea"), row_of("pea")];
    assert_eq!(filter(&list, "pe", true), [2, 0, 1]);
    assert_eq!(filter(&list, "ple a", true), [0, 1]);
    assert_eq!(filter(&list, "lat", true), [1]);
    assert!(filter(&list, "pe zz", true).is_empty());
}
