//! Handing a session's work to another agent.
use taimux::agents::{Agent, Meta, Turn};
use taimux::handoff::{display_name, git_context, installed, launch, trunc, Git};

const CODER: Agent<'static> = Agent {
    name: "coder",
    spoken: "Coder",
    proper: "Coder",
};

fn build(which: &str) -> String {
    let git = git_context(false, None, None, None);
    taimux::handoff::build(&CODER, which, &Meta::default(), &git, &Vec::new(), None)
}

#[test]
fn a_name_gets_the_article_it_needs() {
    assert_eq!(display_name(&CODER, "agy"), "Antigravity");
    assert!(build("nosuchagent").contains("a nosuchagent session"));
    // Antigravity takes "an", which is the only reason the rule is here
    assert!(build("agy").contains("an Antigravity session"));
}

#[test]
fn a_cut_lands_on_a_character_boundary() {
    let s = "é".repeat(50);
    let t = trunc(&s, 10);
    assert_eq!(t.chars().count(), 11); // ten plus the ellipsis
    assert!(t.ends_with('…'));
    assert_eq!(trunc("  short  ", 10), "short");
}

/// A directory that is not a repository contributes nothing, rather than
/// three empty headings.
#[test]
fn somewhere_that_is_not_a_repository_says_nothing_about_git() {
    let g = git_context(false, Some("main"), Some("abc"), Some(" M x"));
    assert!(g.branch.is_none() && g.log.is_none() && g.status.is_none());
    let g: Git = git_context(true, None, None, None);
    assert!(g.branch.is_none() && g.log.is_none() && g.status.is_none());
    let p = build("codex");
    assert!(!p.contains("branch"), "{p}");
}

/// The prompt opens with the instruction, because that is what a model acts
/// on, and the task comes before the evidence.
#[test]
fn the_prompt_leads_with_the_instruction() {
    let p = build("coder");
    assert!(p.starts_with("Continue this work."), "{p}");
    assert!(p.contains("Task:"), "{p}");
}

#[test]
fn what_was_said_is_in_the_prompt_and_cut() {
    let git = git_context(true, Some("topic"), Some("abc one"), Some(" M x"));
    let said = vec![
        Turn {
            you: true,
            text: "please fix it".into(),
        },
        Turn {
            you: false,
            text: "x".repeat(5_000),
        },
    ];
    let p = taimux::handoff::build(&CODER, "codex", &Meta::default(), &git, &said, Some("/t"));
    assert!(p.contains("topic"), "{p}");
    assert!(p.contains("please fix it"), "{p}");
    assert!(p.contains("/t"), "{p}");
    assert!(!p.contains(&"x".repeat(2_000)), "{p}");
}

/// The prompt goes to the new session as one argument, whatever is in it.
#[test]
fn the_prompt_is_one_argument() {
    let c = launch("coder", "codex", "it's two words").expect("launched");
    assert!(c.contains("'it'\\''s two words'"), "{c}");
    assert!(launch("coder", "nosuchagent", "x").is_err());
}

#[test]
fn only_what_is_installed_is_offered() {
    let there = vec!["codex".to_string(), "vim".to_string()];
    assert_eq!(installed("coder", &there), ["codex"]);
    assert!(installed("coder", &Vec::new()).is_empty());
}

fn turn(you: bool, text: String) -> Turn {
    Turn { you, text }
}

/// The last thing the agent said has more room, also where you spoke after it.
#[test]
fn the_last_answer_has_more_room() {
    let git = git_context(false, None, None, None);
    let said = vec![
        turn(false, "a".repeat(700)),
        turn(false, "b".repeat(1300)),
        turn(true, "c".repeat(700)),
    ];
    let p = taimux::handoff::build(&CODER, "codex", &Meta::default(), &git, &said, None);
    assert!(p.contains(&format!("  Codex: {}…\n", "a".repeat(600))));
    assert!(p.contains(&format!("  Codex: {}…\n", "b".repeat(1200))));
    assert!(p.contains(&format!("  User: {}…\n", "c".repeat(600))));
}
