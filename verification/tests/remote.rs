//! Sessions on other hosts.
use taimux::proc::Foreground;
use taimux::index::read_entry;
use taimux::remote::{
    all_panes, cache_dir, classify, cur_host, header, hosts_body, hosts_cached, hosts_file,
    hosts_of, index_due, index_dump, index_fetch, is_down, overdue, pane_host, pane_local, render, reply,
    resolve_cur, rows, ssh_args, ssh_host, ssh_tmux_panes, ssh_why, switch_remote, switched,
    tmux_pane_ttys, Cached, INDEX_DUMP_CMD, REMOTE_TAIMUX,
};

#[test]
fn an_ssh_tmux_argv_names_its_host() {
    assert_eq!(
        ssh_host("ssh ha -t tmux new-session -As main").as_deref(),
        Some("ha")
    );
    assert_eq!(
        ssh_host("/usr/bin/ssh laptop-two -t tmux attach").as_deref(),
        Some("laptop-two")
    );
}

/// ssh is a TOKEN, not argv[0]: a `#!` wrapper named ssh runs as `bash /path/to/ssh
/// host …`, and requiring argv[0] found no hosts at all on such a machine.
#[test]
fn ssh_is_found_when_it_is_not_argv_zero() {
    assert_eq!(
        ssh_host("bash /home/p/bin/ssh ha -t tmux attach").as_deref(),
        Some("ha")
    );
}

/// A later `tmux` is required, or `ssh host journalctl -f` and a plain remote login
/// shell would both look like a window onto another server.
#[test]
fn without_a_later_tmux_it_is_not_a_window_onto_a_server() {
    assert_eq!(ssh_host("ssh ha journalctl -f"), None);
    assert_eq!(ssh_host("ssh ha"), None);
    assert_eq!(ssh_host("tmux attach"), None);
    assert_eq!(ssh_host(""), None);
}

/// An option that takes a separate value must not have that value read as the host.
#[test]
fn an_options_value_is_not_mistaken_for_a_host() {
    assert_eq!(
        ssh_host("ssh -p 2222 ha -t tmux attach").as_deref(),
        Some("ha")
    );
    assert_eq!(
        ssh_host("ssh -i /k/id_ed25519 -o Foo=bar ha tmux attach").as_deref(),
        Some("ha")
    );
    // a flag with no separate value is skipped without eating the host
    assert_eq!(ssh_host("ssh -4 -A ha tmux attach").as_deref(), Some("ha"));
}

/// The name becomes a cache filename and an ssh argument, and there is no such thing
/// as a hostname needing a quote.
#[test]
fn an_unexpected_character_in_a_host_drops_it() {
    assert_eq!(ssh_host("ssh ha;rm -rf / tmux attach"), None);
    assert_eq!(ssh_host("ssh ../etc tmux attach"), None);
    assert_eq!(ssh_host("ssh $HOST tmux attach"), None);
    // …but the ordinary shapes are fine
    assert_eq!(
        ssh_host("ssh user@ha.example.com tmux attach").as_deref(),
        Some("user@ha.example.com")
    );
}

#[test]
fn a_composite_id_splits_into_host_and_pane() {
    assert_eq!(pane_host("ha:%6").as_deref(), Some("ha"));
    assert_eq!(pane_local("ha:%6"), "%6");
    assert_eq!(pane_host("%17"), None);
    assert_eq!(pane_local("%17"), "%17");
    assert_eq!(pane_host(""), None);
    assert_eq!(pane_local(""), "");
    // the note row a host that stopped answering keeps
    assert_eq!(pane_host("ha:!").as_deref(), Some("ha"));
    assert_eq!(pane_local("ha:!"), "!");
}

#[test]
fn an_ssh_failure_says_what_kind() {
    assert_eq!(ssh_why(127), "no taimux on that host");
    assert_eq!(ssh_why(124), "timed out");
    assert_eq!(ssh_why(137), "timed out");
    assert_eq!(ssh_why(255), "unreachable");
    assert_eq!(ssh_why(3), "ssh failed");
}

#[test]
fn a_cached_reply_becomes_host_prefixed_rows() {
    let file = "ok 100\n%6\tmain:1.7\t/w\tcoder\t2.1.1\trun\t-\tover there\n";
    let out = render("ha", Some(file), false);
    assert!(out.starts_with("ha:%6\tmain:1.7\t"));
    assert_eq!(out.lines().count(), 1);
}

/// A host that has answered before and then goes quiet keeps ONE row saying so. One
/// that never answered gets none: it is simply not running taimux, which is not an
/// outage.
#[test]
fn only_a_host_that_has_answered_before_keeps_a_row() {
    let file = "err 100 unreachable\n";
    assert_eq!(render("ha", Some(file), false), "");
    let out = render("ha", Some(file), true);
    assert!(out.starts_with("ha:!\tha\t"));
    assert!(out.contains("unreachable"));
}

/// An older taimux over there answers in another shape. Say so on one row rather than
/// dropping its sessions silently.
#[test]
fn a_reply_in_another_format_says_so_once() {
    let file = "ok 100\n%6\ttoo\tfew\tfields\n%7\talso\tshort\n";
    let out = render("ha", Some(file), false);
    assert_eq!(out.lines().count(), 1);
    assert!(out.contains("2 row(s) dropped"));
}

#[test]
fn a_file_with_no_header_renders_nothing() {
    assert_eq!(render("ha", None, false), ""); // no file at all
    assert_eq!(render("ha", Some(""), false), "");
}

/// The header is unconditional, so the file is never empty and the write is never
/// mistaken for a failure.
#[test]
fn the_host_cache_is_written_even_with_no_hosts() {
    let hosts = hosts_of(&Vec::new());
    assert!(hosts.is_empty());
    let body = hosts_body(&hosts, 100);
    assert!(body.starts_with("hosts "));
    assert_eq!(hosts_cached(Some(&body), 101, 10), Some(Vec::new()));
}

/// Keyed by tmux SERVER: the list comes off that server's panes, and a second server on
/// the same box has entirely different ones.
#[test]
fn the_host_cache_is_keyed_by_server() {
    let a = hosts_file("/d", "/tmp/one,1,0");
    let b = hosts_file("/d", "/tmp/two,1,0");
    assert_ne!(a, b);
}

fn cached(host: &str, file: Option<&str>) -> Cached {
    Cached {
        host: host.to_string(),
        file: file.map(|f| f.to_string()),
        seen: false,
    }
}

/// The TTL split, without an ssh anywhere near it. An answer is worth three seconds and
/// a FAILURE sixty, because a sleeping host must not be re-probed on every tick while a
/// live one must not go stale.
#[test]
fn a_fresh_answer_is_left_alone_and_a_stale_one_is_refreshed() {
    let hosts = vec![
        cached("fresh", Some("ok 1000\n")),
        cached("stale", Some("ok 900\n")),
        cached("dead", Some("err 995 unreachable\n")),
        cached("junk", Some("nonsense\n")),
        cached("never", None),
    ];
    let (cold, refresh) = classify(&hosts, 1001, 3, 60);
    // never asked, and a header nobody recognises: both COLD, because serving them
    // from cache would mean serving nothing
    assert_eq!(cold, vec!["junk", "never"]);
    // 101 s past a 3 s answer, but only 6 s past a 60 s failure
    assert_eq!(refresh, vec!["stale"]);
}

/// A pane that is not an ssh window resolves to itself, and the cheap pre-filter is
/// what stops a process scan on every picker open.
#[test]
fn resolve_cur_leaves_an_ordinary_pane_alone() {
    assert_eq!(resolve_cur("%7", &[], "bash", true, None, 0, ""), "%7");
    // ssh, but no host found
    assert_eq!(resolve_cur("%7", &[], "ssh", true, None, 0, ""), "%7");
    assert_eq!(
        resolve_cur("dead:/x", &[], "ssh", true, None, 0, ""),
        "dead:/x"
    );
}

/// What runs on the FAR side exits 127 where there is no taimux.
#[test]
fn the_remote_command_tells_a_missing_taimux_apart() {
    assert!(REMOTE_TAIMUX.contains("exit 127"));
    assert!(REMOTE_TAIMUX.contains(".tmux/plugins"));
    assert_eq!(INDEX_DUMP_CMD, "index-dump");
}

#[test]
fn an_ssh_is_bounded_and_never_asks() {
    let a = ssh_args("ha", "list", 5);
    assert_eq!(a.last().map(|s| s.as_str()), Some("list"));
    assert!(a.contains(&"ha".to_string()));
    assert!(a.contains(&"BatchMode=yes".to_string()), "{a:?}");
    assert!(a.contains(&"ConnectTimeout=5".to_string()), "{a:?}");
}

/// A reply that is kept is read back as the rows it was.
#[test]
fn a_reply_comes_back_as_its_rows() {
    let row = "%6\tmain:1.7\t/w\tcoder\t2.1.1\trun\t-\tover there\n";
    let file = reply(0, row, 100);
    assert_eq!(header(&file).map(|h| h.0), Some("ok".to_string()));
    assert_eq!(render("ha", Some(&file), false), format!("ha:{}", row));
    let failed = reply(255, "", 100);
    assert_eq!(
        header(&failed),
        Some(("err".to_string(), 100, "unreachable".to_string()))
    );
    assert!(is_down(Some(&failed)));
    assert!(!is_down(Some(&file)));
    let all = rows(&vec![cached("ha", Some(&file))]);
    assert_eq!(all, format!("ha:{}", row));
    assert_eq!(all_panes("x\n", &all), format!("x\n{}", all));
}

#[test]
fn hosts_are_found_in_the_panes_that_show_them() {
    let panes = vec![
        ("%1".to_string(), "pts/1".to_string()),
        ("%2".to_string(), "pts/2".to_string()),
    ];
    let fg = vec![Foreground {
        pid: 7,
        tty: "pts/2".to_string(),
        argv: "ssh ha -t tmux attach".to_string(),
    }];
    let found = ssh_tmux_panes(&panes, &fg);
    assert_eq!(found, vec![("ha".to_string(), "%2".to_string())]);
    assert_eq!(hosts_of(&found), vec!["ha"]);
    assert_eq!(cur_host("%2", &found, "ssh", true).as_deref(), Some("ha"));
    assert_eq!(cur_host("%2", &found, "bash", true), None);
    assert_eq!(cur_host("%2", &found, "ssh", false), None);
    assert_eq!(tmux_pane_ttys("%1\tpts/1\n%2\tpts/2\n"), panes);
}

#[test]
fn a_cache_of_hosts_is_good_for_so_long() {
    let body = hosts_body(&vec!["ha".to_string()], 100);
    assert_eq!(
        hosts_cached(Some(&body), 109, 10).as_deref(),
        Some(&["ha".to_string()][..])
    );
    assert_eq!(hosts_cached(Some(&body), 110, 10), None);
    assert_eq!(hosts_cached(None, 111, 10), None);
    assert_eq!(cache_dir("/run/taimux"), "/run/taimux/remote");
}

#[test]
fn an_index_is_fetched_under_its_host() {
    let dump = index_dump(&vec!["idx 10 20 %7 /a\nwords here\n".to_string()]);
    let got = index_fetch("ha", 0, &dump, 100);
    assert_eq!(got.len(), 1, "{got:?}");
    assert_eq!(got[0].0, "ha__7");
    assert!(got[0].1.starts_with("idx 0 100 ha:%7 -\n"));
    assert!(got[0].1.contains("words here"));
    assert!(index_fetch("ha", 255, "", 100).is_empty());
    assert!(index_due(None, 100, 60));
    assert!(index_due(Some("10"), 100, 60));
    assert!(!index_due(Some("90"), 100, 60));
}

#[test]
fn a_remote_session_is_reached_through_the_window_onto_it() {
    let cmd = switch_remote("ha", "%6", "%2", true).expect("reached");
    assert!(cmd.contains("%6"), "{cmd}");
    assert!(switch_remote("ha", "%6", "", true).is_err());
    assert_eq!(switched("ha", "%2", 0, true), Ok(()));
    assert!(switched("ha", "%2", 255, true).is_err());
}

/// What one host dumps is searched here under the composite id.
#[test]
fn a_dump_is_read_back() {
    let dump = index_dump(&vec!["idx 5 6 %7 /a.jsonl\nwords said there\n".to_string()]);
    assert_eq!(dump, "%7\twords said there\n");
    let files = index_fetch("ha", 0, &dump, 100);
    assert_eq!(
        read_entry(&files[0].1),
        Some(("ha:%7".into(), "words said there".into()))
    );
}

#[test]
fn a_child_is_overdue_once_its_seconds_are_up() {
    assert!(!overdue(5_000, 6_999, 2));
    assert!(overdue(5_000, 7_000, 2));
    assert!(overdue(5_000, 5_000, 0));
    // A clock that went back gives it more time.
    assert!(!overdue(5_000, 4_000, 0));
    assert!(!overdue(0, u64::MAX, u64::MAX));
}
