//! Reading what was said out of a record.
use taimux::transcript::{
    after_key, clean, extract, first_text, grab, is_noise, json_body, said_in, untag,
};

/// A body ends at the quote nothing escapes.
#[test]
fn a_body_ends_at_its_own_quote() {
    assert_eq!(json_body(r#"a \"b\" c","d":1"#), r#"a \"b\" c"#);
    assert_eq!(json_body(r#"a \\","d":1"#), r#"a \\"#);
    assert_eq!(json_body("never closed"), "never closed");
}

#[test]
fn escapes_are_undone_and_the_ends_are_words() {
    assert_eq!(clean(r#" one\ntwo\tthree \"four\" "#), "one two three \"four\"");
    assert_eq!(clean(r"a\\b"), r"a\b");
}

#[test]
fn every_place_a_key_stands_is_gathered() {
    let line = r#"{"text":"one","x":{"text":"two"}}"#;
    assert_eq!(after_key(line, "\"text\":\"").as_deref(), Some("one"));
    assert_eq!(after_key(line, "\"none\":\""), None);
    let mut out = String::new();
    grab(line, "\"text\":\"", &mut out);
    assert_eq!(out, "one two ");
}

/// A block that is taken out is gone, and one never closed takes the rest with it.
#[test]
fn no_block_is_left() {
    assert_eq!(untag("a<x>b</x>c<x>d</x>e", "<x>", "</x>").split_whitespace().collect::<Vec<_>>(), ["a", "c", "e"]);
    assert_eq!(untag("a<x>b", "<x>", "</x>").trim(), "a");
}

#[test]
fn what_a_tool_wrote_is_noise() {
    assert!(is_noise(r#"{"type":"user","content":[{"type":"tool_result"}]}"#));
    assert!(is_noise("<system-reminder>x"));
    assert!(!is_noise(r#"{"type":"user"}"#));
}

#[test]
fn both_sides_are_extracted_and_nothing_else() {
    let you = r#"{"type":"user","message":{"role":"user","content":"the ask"}}"#;
    let it = r#"{"type":"assistant","message":{"role":"assistant","content":[{"type":"text","text":"the answer"}]}}"#;
    let tool = r#"{"type":"user","message":{"role":"user","content":[{"type":"tool_result","text":"noise"}]}}"#;
    assert_eq!(first_text(you).as_deref(), Some("the ask"));
    assert_eq!(said_in(you), Some((true, "the ask".to_string())));
    assert_eq!(said_in(it), Some((false, "the answer".to_string())));
    assert_eq!(said_in(tool), None);
    assert_eq!(
        extract(&format!("{you}\n{tool}\n{it}\n")),
        "the ask the answer "
    );
}
