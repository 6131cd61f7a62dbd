//! Searching what was said, and listing what is past.
use taimux::index::{
    age, dead_rows, find_at, header, index_dir, key_for, pane_titles, past_id, preview_hits,
    preview_match, read_entry, sessions, sessions_file, snippets, split_past_id, window, Query,
};


#[test]
fn ages_read_the_way_you_remember_a_session() {
    assert_eq!(age(1000, 1000), "0m");
    assert_eq!(age(0, 1800), "30m");
    assert_eq!(age(0, 7200), "2h");
    assert_eq!(age(0, 172800), "2d");
    // a clock that has gone backwards is not a negative age
    assert_eq!(age(2000, 1000), "now");
}

#[test]
fn a_window_marks_the_ends_it_cut() {
    let blob = "the quick brown fox jumps over the lazy dog and keeps going";
    let w = window(blob, 10, 5, 4);
    assert!(w.starts_with('…'));
    assert!(w.ends_with('…'));
    assert!(w.contains("brown"));

    // a hit at the very start is not marked as cut there
    let w = window(blob, 0, 3, 4);
    assert!(!w.starts_with('…'));
    assert!(w.ends_with('…'));
}

/// Character offsets, not byte offsets. A blob carries whatever the sessions
/// said, and a snippet cut mid-character is not text any more.
#[test]
fn windows_are_cut_on_characters_not_bytes() {
    let blob = "ééé needle ééé";
    let hay = blob.to_lowercase();
    let (at, len) = find_at(&hay, "needle").expect("found");
    assert_eq!(at, 4); // three e-acutes and a space
    let w = window(blob, at, len, 4);
    assert!(w.contains("needle"));
    assert!(w.chars().count() <= 4 + 6 + 4 + 2);
}

#[test]
fn smart_case_matches_the_way_fzf_does() {
    let q = Query::new("auth layer");
    assert!(q.fold);
    assert_eq!(q.terms.len(), 2);
    assert_eq!(q.haystack("AUTH Layer"), "auth layer");

    let q = Query::new("Auth");
    assert!(!q.fold);
    assert_eq!(q.haystack("AUTH Layer"), "AUTH Layer");
}

#[test]
fn a_header_that_is_not_a_header_is_skipped() {
    assert_eq!(
        read_entry("idx 10 20 %7 /a/b.jsonl\nsome words here\n"),
        Some(("%7".into(), "some words here".into()))
    );
    assert_eq!(read_entry("half a line\n"), None);
    // a file being rewritten under us: the header is there but truncated
    assert_eq!(read_entry("idx 10 20\n"), None);
    // …and one with no blob yet reads as an empty blob rather than failing
    assert_eq!(
        read_entry("idx 10 20 %8 /a/b.jsonl\n"),
        Some(("%8".into(), String::new()))
    );
}

#[test]
fn a_file_is_named_after_its_pane() {
    assert_eq!(index_dir("/run/taimux"), "/run/taimux/index");
    assert!(sessions_file("/run/taimux").starts_with("/run/taimux/"));
    assert_ne!(key_for("%7"), key_for("%8"));
}

/// Every word has to be there, and the snippet is cut round the first.
#[test]
fn a_snippet_is_given_for_a_session_holding_every_word() {
    let files = vec![
        "idx 10 20 %7 /a.jsonl\nwe changed the Auth layer today\n".to_string(),
        "idx 10 20 %8 /b.jsonl\nnothing about layers at all\n".to_string(),
    ];
    let t = snippets(&Query::new("auth layer"), &files);
    assert!(t.get("%7").is_some_and(|s| s.contains("Auth")));
    assert!(t.get("%8").is_none());
    // a capital asks for that case
    let t = snippets(&Query::new("AUTH"), &files);
    assert!(t.get("%7").is_none());
}

#[test]
fn a_preview_shows_what_was_found_with_its_surroundings() {
    let file = "idx 10 20 %7 /a.jsonl\none needle here\n";
    let hits = preview_hits(Some(file), &Query::new("needle"), 3);
    assert_eq!(hits.len(), 1);
    assert_eq!(hits[0].term, "needle");
    assert_eq!(hits[0].before, "one ");
    assert!(!hits[0].cut_left && !hits[0].cut_right);
    assert_eq!(preview_match(Some(file), &Query::new("needle"), 3).len(), 1);
    assert!(preview_hits(None, &Query::new("needle"), 3).is_empty());
}

fn cache(lines: &[&str]) -> String {
    let mut s = header(1_000);
    if !s.ends_with('\n') {
        s.push('\n');
    }
    for l in lines {
        s.push_str(l);
        s.push('\n');
    }
    s
}

/// A cache is read only under its own header.
#[test]
fn a_cache_of_another_shape_lists_nothing() {
    let row = "900\t-\tcodex\t/k.jsonl\t/w\t1.2\tthe title\tmine";
    let es = sessions(&cache(&[row]));
    assert_eq!(es.len(), 1);
    assert_eq!(es[0].agent, "codex");
    assert_eq!(es[0].key, "/k.jsonl");
    assert_eq!(es[0].title, "the title");
    assert!(sessions(row).is_empty());
}

/// A session open in a pane is not past.
#[test]
fn only_what_is_in_no_pane_is_past() {
    let c = cache(&[
        "900\t-\tcodex\t/k.jsonl\t/w\t1.2\tthe title\tmine",
        "950\t%4\tcodex\t/l.jsonl\t/w\t1.2\tan open one\tmine",
    ]);
    let rows = dead_rows(Some(&c), 1_000);
    assert!(rows.contains("dead:codex:/k.jsonl"), "{rows}");
    assert!(!rows.contains("/l.jsonl"), "{rows}");
    assert_eq!(dead_rows(None, 1_000), "");
    let t = pane_titles(&c);
    assert_eq!(t.get("%4").as_deref(), Some("an open one"));
    assert_eq!(t.get("-"), None);
}

/// An id comes apart into what it was made of.
#[test]
fn a_past_id_comes_apart() {
    let id = past_id("codex", "/a:b");
    assert_eq!(
        split_past_id(&id),
        Some(("codex".to_string(), "/a:b".to_string()))
    );
}

/// A query without a capital is found whatever the case; one with a capital is taken
/// as it stands.
#[test]
fn a_capital_makes_a_query_literal() {
    let file = "idx 1 2 %4\nWe moved the Needle there\n";
    assert!(Query::new("needle moved").fold);
    assert!(!Query::new("Needle").fold);
    assert_eq!(preview_hits(Some(file), &Query::new("needle"), 3).len(), 1);
    assert_eq!(preview_hits(Some(file), &Query::new("Needle"), 3).len(), 1);
    assert!(preview_hits(Some(file), &Query::new("NEEDLE"), 3).is_empty());
    // A session that says only one of the terms is no hit.
    let files = vec![file.to_string()];
    assert!(snippets(&Query::new("needle moved"), &files).get("%4").is_some());
    assert!(snippets(&Query::new("needle haystack"), &files).get("%4").is_none());
    assert!(snippets(&Query::new("NEEDLE"), &files).get("%4").is_none());
}
