//! Rollouts, in either of their two shapes.
use taimux::agents::codex::{
    extract, id_of, is_uuid, meta, resume, strip_environment, turns,
};


fn a() -> String {
    [
        r#"{"type":"session_meta","payload":{"id":"11111111-2222-3333-4444-555555555555","cwd":"/w"}}"#,
        r#"{"type":"event_msg","payload":{"type":"user_message","message":"the ask"}}"#,
        r#"{"type":"response_item","payload":{"role":"assistant","content":[{"type":"output_text","text":"the answer"}]}}"#,
        "",
    ]
    .join("\n")
}

fn b() -> String {
    [
        r#"{"id":"99999999-8888-7777-6666-555555555555","cwd":"/other","git":{"branch":"main"}}"#,
        r#"{"type":"message","role":"user","content":[{"type":"input_text","text":"<environment_context>\nshell: bash\n</environment_context>\nthe real ask"}]}"#,
        r#"{"type":"message","role":"assistant","content":[{"type":"output_text","text":"schema b answer"}]}"#,
        "",
    ]
    .join("\n")
}

#[test]
fn both_schemas_yield_the_same_two_sides() {
    let pa = extract(&a());
    assert!(pa.contains("the ask") && pa.contains("the answer"), "{pa}");
    let pb = extract(&b());
    assert!(
        pb.contains("the real ask") && pb.contains("schema b answer"),
        "{pb}"
    );
}

/// The environment block is the harness talking, and it carries every
/// machine's paths. Leaving it in would put them in every session's index.
#[test]
fn the_environment_block_never_reaches_the_index() {
    let p = extract(&b());
    assert!(!p.contains("shell: bash"), "{p}");
    assert!(p.contains("the real ask"), "{p}");
    // an unterminated block takes the rest with it rather than surviving
    assert_eq!(
        strip_environment("keep<environment_context>rest").trim(),
        "keep"
    );
}

/// A tail cannot see line 0, so both schemas have to be recognisable per
/// record. They are, because their shapes are disjoint.
#[test]
fn a_backwards_reader_recognises_either_schema() {
    for src in [a(), b()] {
        let lines: Vec<String> = src.lines().map(|l| l.to_string()).collect();
        let t = turns(&lines, 4);
        assert_eq!(t.len(), 2, "{:?}", t);
        assert!(t[0].you && !t[1].you);
    }
}

#[test]
fn codex_a_uuid_is_recognised_and_nothing_else_is() {
    assert!(is_uuid("11111111-2222-3333-4444-555555555555"));
    assert!(!is_uuid("11111111-2222-3333-4444-55555555555"));
    assert!(!is_uuid("zzzzzzzz-2222-3333-4444-555555555555"));
}

#[test]
fn the_head_says_where_it_ran_and_what_was_asked() {
    let m = meta(Some(&a()));
    assert_eq!(m.cwd, "/w");
    assert_eq!(m.title, "the ask");
    assert_eq!(meta(None).title, "");
}

#[test]
fn the_id_is_in_the_head_or_in_the_name() {
    let key = "/s/rollout-2026-01-02T03-04-05-11111111-2222-3333-4444-555555555555.jsonl";
    assert_eq!(
        id_of("/s/other.jsonl", Some(&a())),
        "11111111-2222-3333-4444-555555555555"
    );
    assert_eq!(id_of(key, None), "11111111-2222-3333-4444-555555555555");
    assert_eq!(
        resume(key, None).expect("resumable"),
        "command codex resume 11111111-2222-3333-4444-555555555555"
    );
    assert!(resume("/s/other.jsonl", None).is_err());
}

#[test]
fn a_rollout_is_named_whatever_slashes_follow_it() {
    assert_eq!(id_of("/s/rollout-2026-abc.jsonl/", None), "2026-abc");
}
