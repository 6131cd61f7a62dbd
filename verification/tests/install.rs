//! Binding the picker to a key.
use taimux::install::{
    bind_args, bind_live, block_for, candidates, choose_conf, describe, done_message,
    insert_block, is_oh_my_tmux, is_old_link, new_config, plugin_checkout, popup_cmd,
    popup_geometry, strip_block, tmux_opt, POPUP_COND,
};

#[test]
fn the_popup_is_wider_on_a_narrow_client() {
    assert!(popup_cmd("taimux", true).contains("-w 100%"));
    assert!(popup_cmd("taimux", false).contains("-w 80%"));
    // the pane id goes in BARE: display-popup expands no format, so the shell
    // drops it as a comment and the picker asks tmux instead
    assert!(popup_cmd("taimux", false).contains("pick #{pane_id}"));
}

#[test]
fn the_keys_read_as_a_sentence() {
    assert_eq!(describe("a", "F1"), "prefix + a and F1");
    assert_eq!(describe("a", ""), "prefix + a");
    assert_eq!(describe("", "F1"), "F1");
    assert_eq!(describe("", ""), "");
}

/// A file with nothing of ours in it is left completely untouched, mtime included: a
/// reinstall must not look like an edit to anything watching it.
#[test]
fn a_file_without_our_block_is_not_rewritten() {
    assert_eq!(strip_block("coder", "set -g mouse on\n"), None);
}

/// Every former name of this tool, because a config edited years ago still has one of
/// them in it and leaving it would bind the popup twice.
#[test]
fn a_past_block_is_stripped_under_any_of_the_old_names() {
    let text = "set -g mouse on\n\
                # taimux - jump between agent sessions\n\
                bind-key a if-shell '…' 'display-popup -E … \"taimux pick\"' '…'\n\
                # muxhop\n\
                bind-key -n F1 run 'muxhop pick'\n\
                bind-key X run 'coder-tmux-locator pick'\n\
                set -g status on\n";
    let out = strip_block("coder", text).expect("stripped");
    assert_eq!(out, "set -g mouse on\nset -g status on\n");
}

/// The "user customizations" heading sits inside a heredoc, which is what makes an
/// insertion there safe.
#[test]
fn the_block_goes_under_the_user_customizations_heading() {
    let text = "# -- user customizations\n# after\n";
    let out = insert_block(text, "\nBLOCK\n");
    assert_eq!(out, "# -- user customizations\n\nBLOCK\n# after\n");
}

#[test]
fn without_that_heading_it_goes_at_the_end() {
    let out = insert_block("set -g mouse on\n", "\nBLOCK\n");
    assert_eq!(out, "set -g mouse on\n\nBLOCK\n");
}

/// Only the FIRST heading, or a config mentioning it twice gets two blocks.
#[test]
fn only_the_first_heading_takes_the_block() {
    let text = "# -- user customizations\nx\n# -- user customizations\n";
    let out = insert_block(text, "\nBLOCK\n");
    assert_eq!(out.matches("BLOCK").count(), 1);
}

/// `.tmux.conf.local` is reserved for exactly this where the config is a shell script
/// as well, and appending to `.tmux.conf` there breaks every reload.
#[test]
fn oh_my_tmux_gets_the_local_file() {
    let conf = "/d/tmux.conf";
    let local = "/d/tmux.conf.local";

    // a plain config, no local file: write to the config itself
    assert_eq!(
        choose_conf(conf, local, false, "/h", Some("set -g mouse on\n")),
        conf
    );

    // detected by its own function: the local file, even though it does not exist yet
    assert_eq!(
        choose_conf(
            conf,
            local,
            false,
            "/h",
            Some("_apply_configuration() {\n  :\n}\n")
        ),
        local
    );

    // and a local file that exists always wins
    assert_eq!(
        choose_conf(conf, local, true, "/h", Some("set -g mouse on\n")),
        local
    );
}

/// A plugin-manager checkout must not have bindings written to a config file: the
/// plugin entry point binds them on every launch.
#[test]
fn a_plugin_checkout_is_recognised() {
    let home = "/tmp/home";
    assert!(plugin_checkout(
        "/tmp/home/.tmux/plugins/taimux/taimux",
        "",
        home,
        None
    ));
    assert!(!plugin_checkout(
        "/tmp/home/workspaces/ai/taimux/taimux",
        "",
        home,
        None
    ));
    // …and the manager's own path, wherever it points
    assert!(plugin_checkout(
        "/tmp/home/elsewhere/taimux/taimux",
        "/tmp/home/elsewhere",
        home,
        None
    ));
}

#[test]
fn an_executable_is_looked_for_in_every_directory_of_the_path() {
    assert_eq!(
        candidates("/usr/bin::/bin", "jq"),
        vec!["/usr/bin/jq", "/bin/jq"]
    );
    assert!(candidates("", "jq").is_empty());
}

#[test]
fn the_geometry_follows_the_width() {
    assert_eq!(popup_geometry(80), (100, 90));
    assert_eq!(popup_geometry(200), (80, 80));
}

#[test]
fn an_option_is_its_value_once_it_is_set_at_all() {
    assert_eq!(tmux_opt(None, None, "a"), "a");
    assert_eq!(tmux_opt(Some(""), None, "a"), "a");
    assert_eq!(tmux_opt(Some("@key ''"), Some(""), "a"), "");
    assert_eq!(tmux_opt(Some("@key b"), Some("b"), "a"), "b");
}

#[test]
fn a_key_is_bound_to_the_popup() {
    assert_eq!(
        bind_args("taimux", "F1", true),
        vec![
            "bind-key".to_string(),
            "-n".to_string(),
            "F1".to_string(),
            "if-shell".to_string(),
            POPUP_COND.to_string(),
            popup_cmd("taimux", true),
            popup_cmd("taimux", false),
        ]
    );
    assert_eq!(bind_args("taimux", "a", false)[1], "a");
    assert_eq!(bind_live("a", true, "F1", false), "prefix + a");
    assert_eq!(bind_live("a", false, "F1", false), "");
}

#[test]
fn a_link_of_an_earlier_name_is_known() {
    assert!(is_old_link("coder", "/x/coder-tmux-locator/run"));
    assert!(is_old_link("coder", "/bin/muxhop"));
    assert!(is_old_link("coder", "/bin/taimux"));
    assert!(!is_old_link("coder", "/bin/tmux"));
    assert!(is_oh_my_tmux("/h/.tmux/x", "/h", None));
    assert!(!is_oh_my_tmux("/h/tmux.conf", "/h", None));
}

/// Installing twice binds each key once.
#[test]
fn a_reinstall_binds_each_key_once() {
    let one = new_config("coder", "set -g mouse on\n", "a", "F1");
    let two = new_config("coder", &one, "a", "F1");
    assert_eq!(one.matches("bind-key").count(), 2);
    assert_eq!(two.matches("bind-key").count(), 2);
    assert!(two.starts_with("set -g mouse on\n"));
    assert!(block_for("taimux", "", "", "").contains("unbound"));
}

#[test]
fn the_last_line_names_the_keys() {
    assert_eq!(
        done_message("prefix + a"),
        "\nDone. Press prefix + a, or run: taimux"
    );
    assert!(done_message("").contains("no key is bound"));
}

/// Stripping what an install inserted leaves the text it was given, and the empty
/// line that the block opens with.
#[test]
fn a_strip_undoes_an_insertion() {
    for conf in [
        "set -g mouse on\n",
        "a\n# -- user customizations ---\nb\n",
        "",
    ] {
        let block = block_for("taimux", "a", "F1", &describe("a", "F1"));
        let bound = insert_block(conf, &block);
        let gap = insert_block(conf, "\n");
        assert_eq!(strip_block("coder", &bound), Some(gap.clone()));
        assert_eq!(strip_block("coder", &gap), None);
        let kept: Vec<&str> = gap.lines().filter(|l| !l.is_empty()).collect();
        assert_eq!(kept, conf.lines().collect::<Vec<_>>());
    }
}
