//! Which conversation a pane is in, and how to bring it back.
use taimux::conv::{
    argv_of, build_cmd, claude_dir, claude_panes, from_argv, ids_on_screen, is_uuid, norm_title,
    pane_map_file, pane_number, project_dir_for, recent_in, resolve, resolve_from_pane,
    title_matches, title_variants, titles_of, transcript_by_id, wanted_files, Recent, Seen,
    Stamped,
};

const AGENT: &str = "coder";


fn v(a: &[&str]) -> Vec<String> {
    a.iter().map(|s| s.to_string()).collect()
}

#[test]
fn a_project_dir_dashes_everything_that_is_not_alphanumeric() {
    assert_eq!(
        project_dir_for("/c", "/home/p/work/my_proj.v2"),
        "/c/projects/-home-p-work-my-proj-v2"
    );
}

#[test]
fn the_agents_directory_is_the_setting_or_under_home() {
    assert_eq!(claude_dir("coder", Some("/c"), "/home/u"), "/c");
    assert_eq!(claude_dir("coder", None, "/home/u"), "/home/u/.coder");
}

#[test]
fn resume_and_session_id_are_read_out_of_the_argv() {
    let (att, sid, res) = from_argv(&v(&["coder", "--resume", "abc"]));
    assert_eq!((att, sid, res), (None, None, Some("abc".into())));
    let (_, sid, _) = from_argv(&v(&["coder", "--session-id", "def"]));
    assert_eq!(sid, Some("def".into()));
    // a flag where a value should be is not a value
    let (_, _, res) = from_argv(&v(&["coder", "--resume", "--verbose"]));
    assert_eq!(res, None);
}

/// A forked session writes a NEW transcript named by --session-id while
/// --resume names its parent, whose pane is somewhere else entirely. Taking
/// the resume value would put two panes on one conversation.
#[test]
fn a_forked_session_drops_the_resume_value() {
    let (_, sid, res) = from_argv(&v(&[
        "coder",
        "--session-id",
        "new",
        "--fork-session",
        "--resume",
        "/parent.jsonl",
    ]));
    assert_eq!(sid, Some("new".into()));
    assert_eq!(res, None);
}

/// `attach` counts only in the subcommand slot. A shell alias that puts
/// `--effort max` in front of it shifts it out, and the whole line is then a prompt.
#[test]
fn attach_counts_only_as_the_first_argument() {
    let (att, ..) = from_argv(&v(&["coder", "attach", "263946b5"]));
    assert_eq!(att, Some("263946b5".into()));
    let (att, ..) = from_argv(&v(&["coder", "--effort", "max", "attach", "263946b5"]));
    assert_eq!(att, None);
    // …and a flag is not a session id
    let (att, ..) = from_argv(&v(&["coder", "attach", "--help"]));
    assert_eq!(att, None);
}

#[test]
fn argv_of_reads_this_process() {
    assert_eq!(argv_of("coder\0--resume\0abc\0"), ["coder", "--resume", "abc"]);
    // …and a process that is gone is empty rather than an error
    assert!(argv_of("").is_empty());
}

/// An ambiguous prefix names neither conversation, which is a refusal rather
/// than a coin toss.
#[test]
fn an_ambiguous_session_id_resolves_to_nothing() {
    let one = v(&["/c/projects/-p/abc111.jsonl"]);
    let first = Some("/c/projects/-p/abc111.jsonl".to_string());
    assert_eq!(transcript_by_id("abc111", &one), first);
    assert_eq!(transcript_by_id("abc", &one), first);

    let two = v(&["/c/projects/-p/abc111.jsonl", "/c/projects/-p/abc222.jsonl"]);
    assert_eq!(transcript_by_id("abc", &two), None); // now ambiguous
    assert_eq!(transcript_by_id("abc111", &two), first);

    // nothing shaped like a path or a flag is looked up at all
    assert_eq!(transcript_by_id("a/b", &two), None);
    assert_eq!(transcript_by_id("-r", &two), None);
    assert_eq!(transcript_by_id("", &two), None);
}

/// What was found for a pane in `/w`, whose project holds `files`.
fn seen(map: Option<(&str, &str)>, files: &[&str]) -> Seen {
    Seen {
        map: map.map(|(t, cwd)| format!(r#"{{"transcript_path":"{t}","cwd":"{cwd}"}}"#)),
        project: "/c/projects/-w".into(),
        is_dir: true,
        argv: Vec::new(),
        projects: Vec::new(),
        files: v(files),
    }
}

/// The pane map wins, but only when its cwd agrees: a nested `coder -p`
/// inherits $TMUX_PANE and would otherwise hand over its throwaway
/// conversation.
#[test]
fn the_pane_map_is_trusted_only_where_the_cwd_agrees() {
    let s = seen(Some(("/c/t.jsonl", "/work")), &["/c/t.jsonl"]);
    let got = resolve_from_pane("/work", &s).expect("resolved");
    assert_eq!(got.why, "pane map");
    assert_eq!(got.transcript, "/c/t.jsonl");

    // a different cwd: not this pane's conversation
    assert!(resolve_from_pane("/elsewhere", &s).is_none());
    // …nor one whose transcript has gone
    let gone = seen(Some(("/c/t.jsonl", "/work")), &[]);
    assert!(resolve_from_pane("/work", &gone).is_none());
}

/// `attach` runs wherever you happen to be, while the session keeps the
/// project it was created in. So this is the one rung that can put a pane on
/// a conversation belonging to ANOTHER directory, and it has to be looked up
/// by id rather than under the pane's own project.
#[test]
fn attach_reaches_a_conversation_in_another_project() {
    let tr = "/c/projects/-w-other/263946b5-9bd7-493d-8be1-10b0c180dd34.jsonl";
    let argv = v(&["coder", "attach", "263946b5"]);
    let (att, ..) = from_argv(&argv);
    assert_eq!(att.as_deref(), Some("263946b5"));
    assert_eq!(
        transcript_by_id(&att.unwrap(), &v(&[tr])),
        Some(tr.to_string())
    );
    let s = Seen {
        argv,
        projects: v(&[tr]),
        ..seen(None, &[])
    };
    let got = resolve_from_pane("/w", &s).expect("resolved");
    assert_eq!((got.transcript.as_str(), got.why), (tr, "attach in argv"));
}

#[test]
fn a_session_named_in_the_argv_is_this_projects() {
    let s = Seen {
        argv: v(&["coder", "--session-id", "abc"]),
        ..seen(None, &["/c/projects/-w/abc.jsonl"])
    };
    let got = resolve_from_pane("/w", &s).expect("resolved");
    assert_eq!(
        (got.transcript.as_str(), got.why),
        ("/c/projects/-w/abc.jsonl", "--session-id in argv")
    );
    let s = Seen {
        argv: v(&["coder", "--resume", "abc"]),
        ..seen(None, &["/c/projects/-w/abc.jsonl"])
    };
    let got = resolve_from_pane("/w", &s).expect("resolved");
    assert_eq!(got.why, "--resume in argv");
}

#[test]
fn a_title_loses_its_leading_glyph_and_trailing_space() {
    assert_eq!(norm_title("✳ proj: do the thing  "), "proj: do the thing");
    assert_eq!(norm_title("plain"), "plain");
    assert_eq!(norm_title("  ⑂ forked  "), "forked");
}

/// Both directions, because a pane title can be truncated OR carry an
/// appended fork marker.
#[test]
fn a_title_matches_in_either_direction() {
    let pn = "proj: do the thing";
    let vs = title_variants(pn);
    assert!(title_matches(pn, &vs, "proj: do the thing"));
    assert!(title_matches(pn, &vs, "proj: do the")); // recorded is a prefix
    assert!(title_matches(pn, &vs, "proj: do the thing and more")); // pane truncated
    assert!(!title_matches(pn, &vs, "other: thing"));
}

/// The unprefixed variant exists because a transcript may only ever have
/// recorded the title without the hook's "<project>: " prefix.
#[test]
fn the_unprefixed_variant_is_tried_too() {
    let pn = "proj: do the thing";
    assert_eq!(
        title_variants(pn),
        vec!["proj: do the thing", "do the thing"]
    );
    assert!(title_matches(pn, &title_variants(pn), "do the thing"));
}

/// Anything under eight characters is not evidence: too many sessions share
/// a short title for a prefix test to mean anything.
#[test]
fn a_short_title_is_never_a_match() {
    assert!(!title_matches("short", &title_variants("short"), "short"));
    assert!(!title_matches(
        "a long enough one",
        &title_variants("a long enough one"),
        "tiny"
    ));
}

/// A fork inherits its parent's title, so it prefix-matches the parent's
/// pane. Without this the two are indistinguishable and the WRONG one gets
/// restarted.
#[test]
fn a_fork_is_not_mistaken_for_its_parent() {
    let parent = "proj: the original task";
    assert!(!title_matches(
        parent,
        &title_variants(parent),
        "proj: the original task ⑂ and then this"
    ));
    // …but a forked PANE may match a forked title
    let fork = "proj: the original task ⑂ and then this";
    assert!(title_matches(
        fork,
        &title_variants(fork),
        "proj: the original task ⑂ and then this"
    ));
}

#[test]
fn conv_a_uuid_is_recognised_and_nothing_else_is() {
    assert!(is_uuid("263946b5-9bd7-493d-8be1-10b0c180dd34"));
    assert!(!is_uuid("263946b5-9bd7-493d-8be1-10b0c180dd3"));
    assert!(!is_uuid("263946b5x9bd7-493d-8be1-10b0c180dd34"));
    assert!(!is_uuid("zz3946b5-9bd7-493d-8be1-10b0c180dd34"));
}

/// Three shapes are dropped because each would answer the same question
/// twice, and --session-id / --resume go with their VALUES.
#[test]
fn the_replay_drops_every_competing_claim() {
    let cmd = build_cmd(AGENT, &v(&[
            "coder",
            "--continue",
            "--model",
            "opus",
            "--resume",
            "/old.jsonl",
        ]),
        "/new.jsonl",
        "/w",
        "/w",
    )
    .expect("cmd");
    assert_eq!(cmd, "command coder --model opus --resume /new.jsonl");

    let cmd = build_cmd(AGENT, &v(&[
            "coder",
            "--session-id",
            "abc",
            "--fork-session",
            "-r",
            "/p.jsonl",
        ]),
        "/new.jsonl",
        "/w",
        "/w",
    )
    .expect("cmd");
    assert_eq!(cmd, "command coder --resume /new.jsonl");
}

#[test]
fn the_replay_drops_an_attach_subcommand_with_its_id() {
    let cmd = build_cmd(AGENT, &v(&["coder", "attach", "263946b5"]),
        "/t.jsonl",
        "/w",
        "/w",
    )
    .expect("cmd");
    assert_eq!(cmd, "command coder --resume /t.jsonl");
    // …but the word elsewhere is an ordinary argument
    let cmd = build_cmd(AGENT, &v(&["coder", "--print", "attach"]), "", "/w", "/w").expect("cmd");
    assert_eq!(cmd, "command coder --print attach");
}

/// A cd is prepended only when coder's own directory is not where the pane
/// shell will land, since the pane's own path is where a new shell starts.
#[test]
fn a_cd_is_added_only_when_the_directories_differ() {
    let same = build_cmd(AGENT, &v(&["coder"]), "", "/w", "/w").expect("cmd");
    assert_eq!(same, "command coder");
    let diff = build_cmd(AGENT, &v(&["coder"]), "", "/w/sub", "/w").expect("cmd");
    assert_eq!(diff, "cd /w/sub && command coder");
}

#[test]
fn an_argument_needing_quotes_gets_them() {
    let cmd = build_cmd(AGENT, &v(&["coder", "--prompt", "two words"]), "", "/w", "/w").expect("cmd");
    assert_eq!(cmd, "command coder --prompt 'two words'");
}

#[test]
fn no_argv_is_no_command() {
    assert!(build_cmd(AGENT, &[], "/t.jsonl", "/w", "/w").is_none());
}

/// A conversation of the project, under the title it records.
fn transcript(name: &str, title: &str) -> Recent {
    Recent {
        path: format!("/c/projects/-w/{name}.jsonl"),
        titles: titles_of(&format!(
            "{{\"type\":\"user\"}}\n{{\"type\":\"custom-title\",\"customTitle\":\"{title}\"}}\n"
        )),
    }
}

#[test]
fn titles_are_read_newest_first_both_kinds_deduplicated() {
    let t = [
        r#"{"type":"custom-title","customTitle":"the old one"}"#,
        r#"{"type":"ai-title","aiTitle":"merge the tools"}"#,
        r#"{"type":"custom-title","customTitle":"taimux: merge the tools"}"#,
        r#"{"type":"ai-title","aiTitle":"merge the tools"}"#,
        "",
    ]
    .join("\n");
    // newest first, both kinds, and the repeat appears once
    assert_eq!(
        titles_of(&t),
        ["merge the tools", "taimux: merge the tools", "the old one"]
    );
}

/// A nested `coder -p` inherits $TMUX_PANE and overwrites the pane's map
/// entry with its own throwaway session. The cwd equality check catches it,
/// and resolution then falls through to the title.
#[test]
fn the_pane_map_is_trusted_only_for_its_own_cwd() {
    let recent = vec![
        transcript("aaaa", "proj: the first task"),
        transcript("bbbb", "proj: the second task"),
    ];
    let (a, b) = (recent[0].path.as_str(), recent[1].path.as_str());

    let s = seen(Some((a, "/w")), &[a, b]);
    let r = resolve("/w", "proj: the second task", &s, &recent, &v(&[])).expect("resolved");
    assert_eq!((r.transcript.as_str(), r.why), (a, "pane map"));

    // the same map entry, but written by something running elsewhere
    let s = seen(Some((a, "/elsewhere")), &[a, b]);
    let r = resolve("/w", "proj: the second task", &s, &recent, &v(&[])).expect("resolved");
    assert_eq!((r.transcript.as_str(), r.why), (b, "title match"));
}

#[test]
fn a_unique_title_resolves_and_a_shared_one_refuses() {
    let mut recent = vec![
        transcript("aaaa", "proj: the first task"),
        transcript("bbbb", "proj: the second task"),
    ];
    let s = seen(None, &[]);
    let r = resolve("/w", "proj: the first task", &s, &recent, &v(&[])).expect("resolved");
    assert_eq!(r.transcript, "/c/projects/-w/aaaa.jsonl");
    assert_eq!(r.why, "title match");

    // two conversations recording the same title cannot be told apart
    recent.push(transcript("cccc", "proj: the first task"));
    let e = resolve("/w", "proj: the first task", &s, &recent, &v(&[])).expect_err("refused");
    assert_eq!(e, "2 transcripts share this title");

    // …unless one of them is the one this pane's screen names
    let r = resolve("/w", "proj: the first task", &s, &recent, &v(&["cccc"])).expect("resolved");
    assert_eq!(r.transcript, "/c/projects/-w/cccc.jsonl");
}

/// A fork inherits its parent's title, so it prefix-matches the parent's
/// pane. Without the marker rule the pair is ambiguous and the wrong one wins.
#[test]
fn a_forked_candidate_is_excluded_for_an_unforked_pane() {
    let recent = vec![
        transcript("aaaa", "proj: the first task"),
        transcript("bbbb", "proj: the first task ⑂ and then this"),
    ];
    let s = seen(None, &[]);
    let r = resolve("/w", "proj: the first task", &s, &recent, &v(&[])).expect("resolved");
    assert_eq!(r.transcript, "/c/projects/-w/aaaa.jsonl");
}

/// A project with exactly one recent transcript leaves nothing to confuse it
/// with, so a pane with no usable title still resolves.
#[test]
fn a_project_with_one_transcript_needs_no_title() {
    let recent = vec![transcript("aaaa", "x")];
    let r = resolve("/w", "short", &seen(None, &[]), &recent, &v(&[])).expect("resolved");
    assert_eq!(r.transcript, "/c/projects/-w/aaaa.jsonl");
    assert_eq!(r.why, "only transcript in project");
}

#[test]
fn an_unknown_cwd_names_the_missing_project_dir() {
    let s = Seen {
        is_dir: false,
        ..seen(None, &[])
    };
    let e = resolve("/no/such/place", "a title long enough", &s, &Vec::new(), &v(&[]))
        .expect_err("refused");
    assert!(e.contains("no project dir"), "{}", e);
    assert_eq!(e, "no project dir for /no/such/place");
}

/// Neither a short pane title nor an empty project resolves, and the refusal
/// counts what it looked at.
#[test]
fn no_title_and_several_candidates_refuses_with_a_count() {
    let recent = vec![
        transcript("aaaa", "one title here"),
        transcript("bbbb", "another title"),
    ];
    let e = resolve("/w", "tiny", &seen(None, &[]), &recent, &v(&[])).expect_err("refused");
    assert_eq!(
        e,
        "no pane map, and no title match among 2 recent transcripts"
    );
}

#[test]
fn the_newest_are_looked_at_first_and_the_old_not_at_all() {
    let files = vec![
        Stamped { at: 5, path: "/a.jsonl".into() },
        Stamped { at: 9, path: "/b.jsonl".into() },
        Stamped { at: 7, path: "/c.txt".into() },
        Stamped { at: 1, path: "/d.jsonl".into() },
    ];
    assert_eq!(recent_in(&files, Some(2)), ["/b.jsonl", "/a.jsonl"]);
    assert_eq!(recent_in(&files, None), ["/b.jsonl", "/a.jsonl", "/d.jsonl"]);
}

#[test]
fn an_id_on_the_screen_is_the_one_before_its_results() {
    let id = "263946b5-9bd7-493d-8be1-10b0c180dd34";
    let screen = format!("saved to {id}/tool-results/x\nagain {id}/tool-results/y\n/tool-results");
    assert_eq!(ids_on_screen(&screen), [id]);
    assert!(ids_on_screen(id).is_empty());
}

#[test]
fn the_files_worth_asking_after_are_the_ones_a_rung_names() {
    let w = wanted_files(
        Some(r#"{"transcript_path":"/t.jsonl","cwd":"/w"}"#),
        "/c/projects/-w",
        &v(&["coder", "--session-id", "abc"]),
    );
    assert_eq!(w, ["/t.jsonl", "/c/projects/-w/abc.jsonl"]);
    assert_eq!(pane_map_file("/c", "%7"), "/c/tmux-panes/7.json");
    assert_eq!(pane_number("%7"), "7");
}

#[test]
fn only_this_agents_panes_are_printed() {
    let rows = "%1\tw:1.1\t/w\tcoder\t11\tcoder\tA title\n%2\tw:1.2\t/x\tcodex\t22\tcodex\tB\n";
    let panes = claude_panes(AGENT, rows);
    assert_eq!(panes.len(), 1);
    assert_eq!(panes[0].id, "%1");
    assert_eq!(panes[0].cwd, "/w");
    assert_eq!(panes[0].pid, 11);
}

/// Putting back what was put back changes nothing: the words of a command are the
/// argv that it stands for.
#[test]
fn putting_back_twice_changes_nothing() {
    let argv = v(&[
        "coder",
        "--model",
        "opus",
        "-c",
        "--session-id",
        "abc",
        "--fork-session",
    ]);
    let cmd = build_cmd(AGENT, &argv, "/t.jsonl", "/w", "/w").expect("cmd");
    assert_eq!(cmd, "command coder --model opus --resume /t.jsonl");
    let again: Vec<String> = cmd.split_whitespace().skip(1).map(String::from).collect();
    assert_eq!(
        build_cmd(AGENT, &again, "/t.jsonl", "/w", "/w").as_deref(),
        Some(cmd.as_str())
    );
}
