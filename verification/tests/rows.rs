//! Laying the rows out.
use taimux::ansi::{Color, Style};
use taimux::rows::{
    abbrev, build, cell, path_display, says_it, summary_of, trim_trailing, vlen, Input, Row, PATH,
    PLAIN,
};
use taimux::table::Table;


fn rows(lines: &str, cur: &str, width: usize) -> Vec<String> {
    build(
        lines,
        &Input {
            cur,
            width,
            home: "/home/p",
            agent: "coder",
                ..Default::default()
        },
    )
    .iter()
    .map(|r| r.to_ansi())
    .collect()
}

const THREE: &str = "%10\twork:1.1\t/home/p/proj/web\tcoder\t2.1.229\trun\t-\t◐ Refactor auth\n\
                     %11\tops:2.1\t/home/p\tgemini\t0.41.2\trun\t-\t⠂ tests\n\
                     %12\tops:3.1\t/home/p/longdir/another-very-long-project-name-here\tcodex\t\trun\t-\t◐ X";

#[test]
fn the_pane_id_is_the_hidden_last_field() {
    let r = rows(THREE, "%11", 100);
    assert!(r[0].ends_with("\t%10"));
    assert!(r[1].ends_with("\t%11"));
}

#[test]
fn only_the_current_pane_is_marked() {
    let r = rows(THREE, "%11", 100);
    assert!(!r[0].contains('●'));
    assert!(r[1].contains('●'));
}

/// The glyph the title leads with is dropped and the column filled from the
/// state, so a title's own spinner frame never leaks into the summary.
#[test]
fn the_title_marker_is_replaced_by_the_state_marker() {
    let r = rows(THREE, "%11", 100);
    assert!(r[0].contains("Refactor auth"));
    assert!(!r[0].contains("◐ Refactor")); // the title's own glyph is gone
    assert!(r[0].contains("\x1b[2m◐\x1b[0m ")); // …and the state's is there
}

#[test]
fn summary_of_strips_only_a_leading_glyph_run() {
    assert_eq!(summary_of("◐ Refactor auth"), "Refactor auth");
    assert_eq!(summary_of("⠂ tests"), "tests");
    assert_eq!(summary_of("plain title"), "plain title");
    // a title that merely OPENS on a non-ASCII word keeps it: the space has
    // to follow the run directly
    assert_eq!(summary_of("étude du code"), "étude du code");
    // a bare glyph with nothing after it leaves an empty summary
    assert_eq!(summary_of("✳"), "");
}

#[test]
fn paths_fold_home_and_keep_the_last_two_components() {
    assert_eq!(path_display("/home/p/proj/web", "/home/p"), "proj/web");
    assert_eq!(path_display("/home/p", "/home/p"), "~");
    assert_eq!(path_display("/var/log", "/home/p"), "var/log");
}

#[test]
fn a_long_path_is_elided_from_the_left_to_thirty() {
    let d = path_display(
        "/home/p/longdir/another-very-long-project-name-here",
        "/home/p",
    );
    assert_eq!(d.chars().count(), 30);
    assert!(d.starts_with('…'));
    assert!(d.ends_with("name-here"));
}

/// Every trailing column is measured over the whole list, so the path column
/// starts in the same place on every row. Sizing them per row is what bent
/// the list: no two agent names are the same length.
/// Columns, not bytes: `●` and `◐` are three bytes each, so a byte offset
/// reports two rows as misaligned that are in fact flush.
fn col_of(line: &str, needle: &str) -> usize {
    let s = strip(line);
    let b = s.find(needle).expect("needle on the row");
    vlen(&s[..b])
}

#[test]
fn the_trailing_columns_line_up_down_the_list() {
    let r = rows(THREE, "%11", 100);
    // all three paths start at the same column
    let a = col_of(&r[0], "proj/web");
    assert_eq!(col_of(&r[1], "~"), a);
    assert_eq!(col_of(&r[2], "…"), a);
}

fn strip(s: &str) -> String {
    let mut out = String::new();
    let mut it = s.chars();
    while let Some(c) = it.next() {
        if c == '\x1b' {
            for c in it.by_ref() {
                if c == 'm' {
                    break;
                }
            }
        } else {
            out.push(c);
        }
    }
    out
}

/// A row with no version keeps the column rather than pulling the ones beside
/// it out of line, and the blank remainder that leaves is trimmed.
#[test]
fn a_missing_version_keeps_its_column_but_leaves_no_trailing_space() {
    let r = rows(THREE, "%11", 100);
    assert!(!strip(&r[2]).split('\t').next().unwrap().ends_with(' '));
    assert!(strip(&r[2]).contains("codex"));
}

#[test]
fn abbreviates_to_the_shortest_prefix_that_still_tells_names_apart() {
    let n: Vec<String> = ["main", "master", "ops"]
        .iter()
        .map(|s| s.to_string())
        .collect();
    let a = abbrev(&n, 1);
    assert_eq!(a[2], "o");
    assert_eq!(a[0], "mai");
    assert_eq!(a[1], "mas");
}

/// A name that is a whole other name plus something can only be told apart in full.
#[test]
fn a_name_that_contains_another_is_kept_whole() {
    let n: Vec<String> = ["main", "main2"].iter().map(|s| s.to_string()).collect();
    let a = abbrev(&n, 1);
    assert_eq!(a[0], "main");
    assert_eq!(a[1], "main2");
}

#[test]
fn the_host_floor_is_two_letters() {
    let n: Vec<String> = ["laptop-two", "ha"].iter().map(|s| s.to_string()).collect();
    let a = abbrev(&n, 2);
    assert_eq!(a[0], "la");
    assert_eq!(a[1], "ha");
}

/// The floor holds up a column of pane labels and nothing else. A list of
/// ended sessions labels no pane, so it would spend twelve columns of summary
/// on nothing.
#[test]
fn the_label_floor_applies_to_pane_rows_and_the_cap_to_narrow_windows() {
    let short = "%1\tw:1.1\t/home/p\tcoder\t1.0\tidle\t-\thi";
    let wide = rows(short, "", 200);
    let label_end = strip(&wide[0]).find("hi").unwrap();
    assert_eq!(label_end, 15 + 1 + 2); // floored at 15, a space, the marker

    // narrow caps rather than floors, so the summary gets the width back
    let narrow = rows(short, "", 60);
    assert!(strip(&narrow[0]).find("hi").unwrap() < 15);
}

#[test]
fn a_row_with_no_room_still_leaves_two_columns_of_gap() {
    let r = rows(THREE, "%11", 0);
    for line in &r {
        assert!(strip(line).contains("  "));
    }
}

#[test]
fn trims_only_a_trailing_run_of_unpainted_spaces() {
    let mut c = vec![cell("a", PLAIN), cell("b  ", PLAIN)];
    trim_trailing(&mut c);
    assert_eq!(c, vec![cell("a", PLAIN), cell("b", PLAIN)]);

    // the run crosses a cell boundary
    let mut c = vec![cell("a", PLAIN), cell("  ", PLAIN), cell("   ", PLAIN)];
    trim_trailing(&mut c);
    assert_eq!(c, vec![cell("a", PLAIN)]);

    // a painted cell ends in a reset, so nothing is trimmed past it
    let mut c = vec![cell("x  ", PATH), cell("", PLAIN)];
    trim_trailing(&mut c);
    assert_eq!(c[0].text, "x  ");
}

#[test]
fn the_permission_mode_rides_on_the_agent_name() {
    let base = "%1\tw:1.1\t/home/p\tcoder\t1.0\tidle\t";
    let ask = rows(&format!("{}default\thi", base), "", 100);
    let edit = rows(&format!("{}acceptEdits\thi", base), "", 100);
    let auto = rows(&format!("{}bypassPermissions\thi", base), "", 100);
    assert!(ask[0].contains("\x1b[35mcoder"));
    assert!(edit[0].contains("\x1b[95mcoder"));
    assert!(auto[0].contains("\x1b[1;95mcoder"));
}

#[test]
fn a_stale_version_goes_yellow_only_where_ctrl_x_could_act() {
    let line = "%1\tw:1.1\t/home/p\tcoder\t1.0\tidle\t-\thi";
    let stale = build(
        line,
        &Input {
            newver: "2.0",
            width: 100,
            agent: "coder",
                ..Default::default()
        },
    );
    assert!(stale[0].to_ansi().contains("\x1b[33m1.0"));

    // same version installed: nothing to act on
    let current = build(
        line,
        &Input {
            newver: "1.0",
            width: 100,
            agent: "coder",
                ..Default::default()
        },
    );
    assert!(current[0].to_ansi().contains("\x1b[2;35m1.0"));

    // another host: newver is what THIS box would start, so it says nothing
    let remote = build(
        "ha:%1\tw:1.1\t/home/p\tcoder\t1.0\tidle\t-\thi",
        &Input {
            newver: "2.0",
            width: 100,
            agent: "coder",
                ..Default::default()
        },
    );
    assert!(remote[0].to_ansi().contains("\x1b[2;35m1.0"));

    // an ended session has no process to put back
    let dead = build(
        "%1\tw:1.1\t/home/p\tcoder\t1.0\tdead\t-\thi",
        &Input {
            newver: "2.0",
            width: 100,
            agent: "coder",
                ..Default::default()
        },
    );
    assert!(dead[0].to_ansi().contains("\x1b[2;35m1.0"));
}

#[test]
fn a_host_that_could_not_answer_keeps_its_name_whole() {
    // the second field is the message, not a target, and the row is left out
    // of the shortening
    let r = build(
        "laptop-two:unreachable\tlaptop-two: no answer\t\t\t\tnote\t\t",
        &Input {
            width: 60,
            only: "note",
            agent: "coder",
                ..Default::default()
        },
    );
    assert!(r[0].to_ansi().contains("laptop-two: no answer"));
}

/// The outdated list holds exactly the rows the version column paints
/// yellow, which is what makes it the list of rows ctrl-x and F8 act on.
/// Same predicate for both, so the two can never disagree.
#[test]
fn the_outdated_list_holds_exactly_the_rows_painted_yellow() {
    let lines = "%1\ta:1.1\t/home/p\tcoder\t2.1.229\tidle\t-\tbehind\n\
                 %2\tb:1.1\t/home/p\tcoder\t2.1.243\trun\t-\tcurrent\n\
                 %3\tc:1.1\t/home/p\tgemini\t0.41.2\tinput\t-\tanother agent\n\
                 ha:%4\td:1.1\t/home/p\tcoder\t2.1.229\tidle\t-\tover there";
    let r = build(
        lines,
        &Input {
            newver: "2.1.243",
            width: 100,
            outdated: true,
            agent: "coder",
                ..Default::default()
        },
    );
    let ids: Vec<&str> = r.iter().map(|r| r.pane_id.as_str()).collect();
    assert_eq!(ids, ["%1"]);
    assert!(r[0].to_ansi().contains("\x1b[33m2.1.229"));

    // …and the same list with nothing installed to compare against is
    // empty rather than everything: the mode is skipped there.
    let none = build(
        lines,
        &Input {
            width: 100,
            outdated: true,
            agent: "coder",
                ..Default::default()
        },
    );
    assert!(none.is_empty());
}

/// Being behind is not a state, so the list crosses all four of them: a
/// session waiting for an answer is as behind as an idle one.
#[test]
fn the_outdated_list_is_not_one_state() {
    let lines = "%1\ta:1.1\t/home/p\tcoder\t1.0\tinput\t-\tasking\n\
                 %2\tb:1.1\t/home/p\tcoder\t1.0\trun\t-\tworking\n\
                 %3\tc:1.1\t/home/p\tcoder\t1.0\tidle\t-\tidle";
    let r = build(
        lines,
        &Input {
            newver: "2.0",
            width: 100,
            outdated: true,
            agent: "coder",
                ..Default::default()
        },
    );
    assert_eq!(r.len(), 3);
}

#[test]
fn one_state_only_when_asked() {
    let r = build(
        THREE,
        &Input {
            only: "run",
            width: 100,
            agent: "coder",
                ..Default::default()
        },
    );
    assert_eq!(r.len(), 3);
    let r = build(
        THREE,
        &Input {
            only: "input",
            width: 100,
            agent: "coder",
                ..Default::default()
        },
    );
    assert!(r.is_empty());
}

#[test]
fn a_blank_pane_title_borrows_the_one_its_conversation_recorded() {
    let mut ptitles = Table::new();
    ptitles.insert("%1".to_string(), "what it called itself".to_string());
    let r = build(
        "%1\tw:1.1\t/home/p\tcoder\t1.0\tidle\t-\t",
        &Input {
            width: 100,
            ptitles,
            agent: "coder",
                ..Default::default()
        },
    );
    assert!(r[0].plain().contains("what it called itself"));
}

/// The snippet takes the path column, but only on a row that does not already
/// show what was typed: there is nothing to explain then, and the path is
/// worth more.
#[test]
fn a_search_snippet_replaces_the_tail_unless_the_row_already_says_it() {
    let mut snips = Table::new();
    snips.insert("%10".to_string(), "…the words it said…".to_string());
    snips.insert("%11".to_string(), "…other words…".to_string());
    let r = build(
        THREE,
        &Input {
            cur: "%11",
            width: 100,
            home: "/home/p",
            query: "refactor",
            snips,
            agent: "coder",
                ..Default::default()
        },
    );
    // %10's summary is "Refactor auth", so it already says it
    assert!(r[0].plain().contains("proj/web"));
    assert!(!r[0].plain().contains('⌕'));
    // %11's does not
    assert!(r[1].plain().contains("⌕ …other words…"));
}

/// Whichever side carries the capital. `build` folds the terms, and a row
/// showing `Refactor` answers a query for `REFACTOR` as well as one for
/// `refactor`.
#[test]
fn says_it_ignores_case_both_ways() {
    assert!(says_it("Refactor auth", &vec!["refactor".to_string()]));
    assert!(says_it("refactor auth", &vec!["refactor".to_string()]));
    assert!(!says_it("refactor auth", &vec!["rewrite".to_string()]));
}

/// …and the row built from a shouted query keeps its path rather than being
/// handed a snippet to explain a match it visibly already shows.
#[test]
fn a_shouted_query_still_counts_as_said_on_the_row() {
    let mut snips = Table::new();
    snips.insert("%10".to_string(), "…the words it said…".to_string());
    let r = build(
        THREE,
        &Input {
            width: 100,
            home: "/home/p",
            query: "REFACTOR",
            snips,
            agent: "coder",
                ..Default::default()
        },
    );
    assert!(r[0].plain().contains("proj/web"));
    assert!(!r[0].plain().contains('⌕'));
}

/// When a session last said something rides in a ninth field, and a row
/// without one, from an older host or an agent that cannot say, is read as
/// not knowing rather than refused. Nothing about it is drawn.
#[test]
fn the_last_message_is_read_off_a_ninth_field_when_there_is_one() {
    let rows = "%1\tw:1.1\t/a\tcoder\t2.1\tidle\t-\tone\t1700000000000\n\
                %2\tw:2.1\t/b\tcodex\t0.9\tidle\t-\ttwo\t-\n\
                %3\tw:3.1\t/c\tcoder\t2.1\tidle\t-\tthree\n";
    let r = build(rows, &Input::default());
    let since: Vec<Option<i64>> = r.iter().map(|r| r.since).collect();
    assert_eq!(since, [Some(1_700_000_000_000), None, None]);
    let eight: String = rows
        .lines()
        .map(|l| l.split('\t').take(8).collect::<Vec<_>>().join("\t") + "\n")
        .collect();
    let eight = build(&eight, &Input::default());
    assert_eq!(
        r.iter().map(Row::plain).collect::<Vec<_>>(),
        eight.iter().map(Row::plain).collect::<Vec<_>>(),
        "the field changes nothing on screen"
    );
}

#[test]
fn a_paint_means_its_sequence() {
    let r = build(
        "%1\tw:1.1\t/home/p\tcoder\t1.0\tidle\t-\thi",
        &Input {
            cur: "%1",
            newver: "2.0",
            agent: "coder",
            ..Default::default()
        },
    );
    let yellow = Style::default().fg(Color::Yellow);
    assert!(r[0].cells.iter().any(|c| c.text.contains("1.0") && c.paint.style() == yellow));
    let plain: String = r[0].cells.iter().map(|c| c.text.as_str()).collect();
    assert_eq!(r[0].plain(), plain);
}

/// A pane whose restart is in flight is marked, and stays where it was.
#[test]
fn a_restarting_row_is_marked() {
    let line = "%1\tw:1.1\t/home/p\tcoder\t1.0\tidle\t-\thi";
    let still = build(line, &Input::default());
    let moving = build(
        line,
        &Input {
            restarting: vec!["%1".to_string()],
            ..Default::default()
        },
    );
    assert!(!still[0].plain().contains('↻'));
    assert!(moving[0].plain().contains('↻'), "{}", moving[0].plain());
}

/// No two names come out the same.
#[test]
fn short_names_differ() {
    let n: Vec<String> = ["main", "mains", "m", "ops", "opt"]
        .iter()
        .map(|s| s.to_string())
        .collect();
    for floor in [1, 2] {
        let a = abbrev(&n, floor);
        for i in 0..n.len() {
            for j in 0..i {
                assert_ne!(a[i], a[j], "{} and {}", n[i], n[j]);
            }
        }
    }
}

/// A directory whose name only begins like the home directory's is another one.
#[test]
fn only_the_home_directory_itself_is_folded() {
    assert_eq!(path_display("/home/pat2/x", "/home/pat"), "pat2/x");
    assert_eq!(path_display("/home/pat2", "/home/pat"), "home/pat2");
    assert_eq!(path_display("/home/pat/x", "/home/pat"), "~/x");
    assert_eq!(path_display("/home/pat/x", "/home/pat/"), "~/x");
    assert_eq!(path_display("/home/pat", "/home/pat/"), "~");
    assert_eq!(path_display("/etc", "/"), "~/etc");
    assert_eq!(path_display("/home/pat/x", ""), "pat/x");
}

/// Without its colours a row is its plain text, a tab and the id, and every painted
/// cell is closed right behind its text.
#[test]
fn colours_are_all_that_is_added() {
    let list = build(
        THREE,
        &Input {
            cur: "%11",
            width: 100,
            home: "/home/p",
            agent: "coder",
            ..Default::default()
        },
    );
    for r in &list {
        let mut bare = String::new();
        let mut inside = false;
        for c in r.to_ansi().chars() {
            match c {
                '\x1b' => inside = true,
                'm' if inside => inside = false,
                c if !inside => bare.push(c),
                _ => {}
            }
        }
        assert_eq!(bare, format!("{}\t{}", r.plain(), r.pane_id));
        for c in r.cells.iter().filter(|c| c.paint.0 != PLAIN) {
            let closed = format!("{}{}\x1b[0m", c.paint.0, c.text);
            assert!(r.to_ansi().contains(&closed));
        }
    }
}

#[test]
fn every_row_with_a_version_ends_at_the_edge() {
    let lines = "%1\ta:1.1\t/w\tcoder\t1.0\tidle\t-\tone\n\
                 %2\tbb:12.1\t/long/er\tgemini\t0.41.2\trun\t-\tanother one\n";
    let list = build(
        lines,
        &Input {
            width: 120,
            home: "/h",
            agent: "coder",
            ..Default::default()
        },
    );
    for r in &list {
        assert_eq!(vlen(&r.plain()), 120);
    }
    let at = |i: usize, what: &str| list[i].plain().find(what).expect("shown");
    assert_eq!(
        vlen(&list[0].plain()[..at(0, "/w")]),
        vlen(&list[1].plain()[..at(1, "long/er")])
    );
}

/// Any colour sequence will do as a paint.
#[test]
fn a_cell_of_any_colour_is_closed() {
    let row = Row {
        cells: vec![cell("red", "\x1b[38;5;196m"), cell("plain", PLAIN)],
        pane_id: "%1".into(),
        target: String::new(),
        cwd: String::new(),
        host: String::new(),
        since: None,
    };
    assert_eq!(row.to_ansi(), "\x1b[38;5;196mred\x1b[0mplain\t%1");
    assert_eq!(row.plain(), "redplain");
}
