//! Carrying a conversation into a different agent.
//!
//! The past list answers "where did that session get to". This answers the question
//! that usually comes next: **continue it somewhere else**.
//!
//! The receiving agent is started with one prompt already typed, carrying four
//! things, in the order a model reads them:
//!
//! 1. **The instruction**, first, because that is what a model acts on.
//! 2. **The task**, which is what the session was called or opened with.
//! 3. **The git state**, which is the ground truth of what was actually done.
//! 4. **The last turns**, yours and its, oldest first.
//!
//! Then a pointer to the transcript, so the model can read the whole history itself.
use vstd::prelude::*;

use crate::agents;
use crate::agents::{Agent, Meta, Turn};
use crate::text;
use crate::text::{chars_of, lines, same, slice, trim, trim_end};
use crate::tmux;
use crate::tmux::shell_quote;

verus! {

/// How much of each part survives into the prompt.
///
/// The last thing the agent said gets more room than the rest, because it is the
/// work that was in flight and the thing most likely to be half-finished.
pub const TASK_MAX: usize = 800;

pub const TURN_MAX: usize = 600;

pub const LAST_ANSWER_MAX: usize = 1200;

/// How many turns are carried.
pub const DEFAULT_TURNS: usize = 6;

pub open spec fn truncated(s: Seq<char>, max: nat) -> Seq<char> {
    let t = text::trimmed(s);
    if t.len() <= max {
        t
    } else {
        t.take(max as int) + "…"@
    }
}

/// A text without the space round it, cut to so many characters.
pub fn trunc(s: &str, max: usize) -> (r: String)
    ensures
        r@ == truncated(s@, max as nat),
{
    let t = trim(s);
    let v = chars_of(&t);
    if v.len() <= max {
        t
    } else {
        let mut cut = slice(&v, 0, max);
        assert(cut@ =~= t@.take(max as int));
        cut.append("…");
        cut
    }
}

/// The proper name of an agent.
pub open spec fn name_of(agent: agents::AgentView, which: Seq<char>) -> Seq<char> {
    if which == agent.name {
        agent.proper
    } else if which == "codex"@ {
        "Codex"@
    } else if which == "gemini"@ {
        "Gemini"@
    } else if which == "opencode"@ {
        "OpenCode"@
    } else if which == "agy"@ {
        "Antigravity"@
    } else {
        which
    }
}

/// The proper name of an agent, for prose rather than for a command line.
pub fn display_name<'a>(agent: &Agent<'a>, which: &'a str) -> (r: &'a str)
    ensures
        r@ == name_of(agent@, which@),
{
    if same(which, agent.name) {
        agent.proper
    } else if same(which, "codex") {
        "Codex"
    } else if same(which, "gemini") {
        "Gemini"
    } else if same(which, "opencode") {
        "OpenCode"
    } else if same(which, "agy") {
        "Antigravity"
    } else {
        which
    }
}

// ---------------------------------------------------------------------------
// What the repository says
// ---------------------------------------------------------------------------
/// What a repository says about itself, or nothing at all.
#[derive(Debug, Default, PartialEq)]
pub struct Git {
    pub branch: Option<String>,
    pub log: Option<String>,
    pub status: Option<String>,
}

#[verifier::ext_equal]
pub struct GitView {
    pub branch: Option<Seq<char>>,
    pub log: Option<Seq<char>>,
    pub status: Option<Seq<char>>,
}

impl View for Git {
    type V = GitView;

    open spec fn view(&self) -> GitView {
        GitView {
            branch: text::opt_string(self.branch),
            log: text::opt_string(self.log),
            status: text::opt_string(self.status),
        }
    }
}

/// What one of the commands printed, where it printed anything.
pub open spec fn printed(out: Option<Seq<char>>) -> Option<Seq<char>> {
    match out {
        Some(s) => if text::trimmed_end(s).len() > 0 {
            Some(text::trimmed_end(s))
        } else {
            None
        },
        None => None,
    }
}

pub open spec fn context(
    there: bool,
    branch: Option<Seq<char>>,
    log: Option<Seq<char>>,
    status: Option<Seq<char>>,
) -> GitView {
    if there && printed(branch) is Some {
        GitView { branch: printed(branch), log: printed(log), status: printed(status) }
    } else {
        GitView { branch: None, log: None, status: None }
    }
}

fn print(out: Option<&str>) -> (r: Option<String>)
    ensures
        text::opt_string(r) == printed(text::opt(out)),
{
    match out {
        None => None,
        Some(s) => {
            let t = trim_end(s);
            if t.as_str().is_empty() {
                None
            } else {
                Some(t)
            }
        },
    }
}

/// The branch, the recent commits and the dirty files of the directory a session ran
/// in: what the three commands printed, where they succeeded.
///
/// Every part is optional, and a directory that is not there or not a repository
/// yields none of them: plenty of sessions are not in one, and a handoff from those
/// is the conversation alone.
pub fn git_context(
    there: bool,
    branch: Option<&str>,
    log: Option<&str>,
    status: Option<&str>,
) -> (r: Git)
    ensures
        r@ == context(there, text::opt(branch), text::opt(log), text::opt(status)),
{
    let none = Git { branch: None, log: None, status: None };
    if !there {
        return none;
    }
    match print(branch) {
        None => none,
        Some(b) => Git { branch: Some(b), log: print(log), status: print(status) },
    }
}

// ---------------------------------------------------------------------------
// The prompt
// ---------------------------------------------------------------------------
pub open spec fn article(name: Seq<char>) -> Seq<char> {
    if name.len() > 0 && (name[0] == 'A' || name[0] == 'E' || name[0] == 'I' || name[0] == 'O'
        || name[0] == 'U') {
        "an"@
    } else {
        "a"@
    }
}

/// A heading and lines under it, indented, where there are any to show.
pub open spec fn section(heading: Seq<char>, body: Option<Seq<char>>) -> Seq<char> {
    match body {
        Some(b) => heading + indented(text::lines_of(b)),
        None => Seq::empty(),
    }
}

pub open spec fn indented(ls: Seq<Seq<char>>) -> Seq<char>
    decreases ls.len(),
{
    if ls.len() == 0 {
        Seq::empty()
    } else {
        indented(ls.drop_last()) + "  "@ + ls.last() + "\n"@
    }
}

/// Is that turn the last thing the agent said, whatever you said after it?
pub open spec fn last_answer(said: Seq<agents::TurnView>, i: int) -> bool {
    &&& !said[i].you
    &&& forall|j: int| i < j < said.len() ==> (#[trigger] said[j]).you
}

/// One turn, as it stands in the prompt: the last answer has more room.
pub open spec fn said_line(name: Seq<char>, t: agents::TurnView, last: bool) -> Seq<char> {
    "  "@ + (if t.you {
        "User"@
    } else {
        name
    }) + ": "@ + truncated(
        t.text,
        if last {
            LAST_ANSWER_MAX as nat
        } else {
            TURN_MAX as nat
        },
    ) + "\n"@
}

/// The first `n` of the turns.
pub open spec fn said_lines(name: Seq<char>, said: Seq<agents::TurnView>, n: int) -> Seq<char>
    decreases n,
{
    if n <= 0 || n > said.len() {
        Seq::empty()
    } else {
        said_lines(name, said, n - 1) + said_line(name, said[n - 1], last_answer(said, n - 1))
    }
}

pub open spec fn conversation(name: Seq<char>, said: Seq<agents::TurnView>) -> Seq<char> {
    if said.len() == 0 {
        Seq::empty()
    } else {
        "\nRecent conversation ("@ + text::decimal(said.len()) + " messages):\n"@ + said_lines(
            name,
            said,
            said.len() as int,
        )
    }
}

/// A line, where there is something to put on it.
pub open spec fn line_with(before: Seq<char>, what: Seq<char>) -> Seq<char> {
    if what.len() > 0 {
        before + what + "\n"@
    } else {
        Seq::empty()
    }
}

pub open spec fn line_of(before: Seq<char>, what: Option<Seq<char>>) -> Seq<char> {
    match what {
        Some(w) => before + w + "\n"@,
        None => Seq::empty(),
    }
}

pub open spec fn pointer(transcript: Option<Seq<char>>) -> Seq<char> {
    match transcript {
        Some(p) => "\nFull session transcript: "@ + p + "\n"@
            + "Read this file if you need the complete conversation history.\n"@,
        None => Seq::empty(),
    }
}

/// The handoff prompt.
pub open spec fn prompt(
    name: Seq<char>,
    meta: agents::MetaView,
    git: GitView,
    said: Seq<agents::TurnView>,
    transcript: Option<Seq<char>>,
) -> Seq<char> {
    let task = truncated(meta.title, TASK_MAX as nat);
    "Continue this work. You are picking up from "@ + article(name) + " "@ + name + " session.\n"@
        + line_with("Work in: "@, meta.cwd) + line_of("Branch: "@, git.branch) + "\nTask:\n  "@ + (
    if task.len() == 0 {
        "(not found)"@
    } else {
        task
    }) + "\n"@ + section("\nRecent commits:\n"@, git.log) + section(
        "\nUncommitted changes:\n"@,
        git.status,
    ) + conversation(name, said) + pointer(transcript)
}

fn push_section(out: &mut String, heading: &str, body: &Option<String>)
    ensures
        final(out)@ == old(out)@ + section(heading@, text::opt_string(*body)),
{
    let ghost was = out@;
    match body {
        None => {
            assert(out@ =~= was + section(heading@, None));
        },
        Some(b) => {
            out.append(heading);
            let ghost open = out@;
            let ls = lines(b);
            let ghost all = text::texts(ls@);
            let mut i: usize = 0;
            assert(out@ =~= open + indented(all.take(0)));
            while i < ls.len()
                invariant
                    i <= ls@.len(),
                    all == text::texts(ls@),
                    out@ == open + indented(all.take(i as int)),
                decreases ls@.len() - i,
            {
                assert(all.take(i + 1).drop_last() =~= all.take(i as int));
                assert(all.take(i + 1).last() == ls@[i as int]@);
                out.append("  ");
                out.append(&ls[i]);
                out.append("\n");
                assert(out@ =~= open + indented(all.take(i + 1)));
                i = i + 1;
            }
            assert(all.take(all.len() as int) =~= all);
            assert(out@ =~= was + (heading@ + indented(all)));
        },
    }
}

fn push_said(out: &mut String, name: &str, said: &Vec<Turn>)
    ensures
        final(out)@ == old(out)@ + conversation(name@, agents::turns_view(said@)),
{
    let ghost was = out@;
    let ghost ts = agents::turns_view(said@);
    let n: usize = said.len();
    if n == 0 {
        assert(out@ =~= was + conversation(name@, ts));
        return;
    }
    out.append("\nRecent conversation (");
    let count = text::dec(n as u64);
    out.append(&count);
    out.append(" messages):\n");
    let ghost open = out@;
    // The last answer is the one before `answered`, if there is any.
    let mut answered: usize = n;
    while answered > 0 && said[answered - 1].you
        invariant
            answered <= n == said@.len(),
            ts == agents::turns_view(said@),
            forall|j: int| answered <= j < n ==> (#[trigger] ts[j]).you,
        decreases answered,
    {
        assert(ts[answered - 1] == said@[answered - 1]@);
        answered = answered - 1;
    }
    assert(answered > 0 ==> ts[answered - 1] == said@[answered - 1]@);
    let mut i: usize = 0;
    assert(out@ =~= open + said_lines(name@, ts, 0));
    while i < n
        invariant
            i <= n == said@.len(),
            answered <= n,
            answered > 0 ==> !ts[answered - 1].you,
            forall|j: int| answered <= j < n ==> (#[trigger] ts[j]).you,
            ts == agents::turns_view(said@),
            out@ == open + said_lines(name@, ts, i as int),
        decreases n - i,
    {
        let t = &said[i];
        assert(ts[i as int] == t@);
        assert(last_answer(ts, i as int) <==> i + 1 == answered);
        let max: usize = if i + 1 == answered {
            LAST_ANSWER_MAX
        } else {
            TURN_MAX
        };
        let what = trunc(&t.text, max);
        out.append("  ");
        if t.you {
            out.append("User");
        } else {
            out.append(name);
        }
        out.append(": ");
        out.append(&what);
        out.append("\n");
        assert(out@ =~= open + (said_lines(name@, ts, i as int) + said_line(
            name@,
            ts[i as int],
            i + 1 == answered,
        )));
        i = i + 1;
    }
    assert(out@ =~= was + conversation(name@, ts));
}

fn article_of(name: &str) -> (r: &'static str)
    ensures
        r@ == article(name@),
{
    let v = chars_of(name);
    if v.len() > 0 && (v[0] == 'A' || v[0] == 'E' || v[0] == 'I' || v[0] == 'O' || v[0] == 'U') {
        "an"
    } else {
        "a"
    }
}

fn opening(name: &str, meta: &Meta, git: &Git) -> (r: String)
    ensures
        r@ == "Continue this work. You are picking up from "@ + article(name@) + " "@ + name@
            + " session.\n"@ + line_with("Work in: "@, meta@.cwd) + line_of(
            "Branch: "@,
            git@.branch,
        ),
{
    let mut out = "Continue this work. You are picking up from ".to_owned();
    out.append(article_of(name));
    out.append(" ");
    out.append(name);
    out.append(" session.\n");
    let ghost a = out@;
    if !meta.cwd.as_str().is_empty() {
        out.append("Work in: ");
        out.append(&meta.cwd);
        out.append("\n");
    }
    assert(out@ =~= a + line_with("Work in: "@, meta@.cwd));
    let ghost b = out@;
    match &git.branch {
        Some(x) => {
            out.append("Branch: ");
            out.append(x);
            out.append("\n");
        },
        None => {},
    }
    assert(out@ =~= b + line_of("Branch: "@, git@.branch));
    out
}

/// The handoff prompt for one conversation.
pub fn build(
    agent: &Agent,
    which: &str,
    meta: &Meta,
    git: &Git,
    said: &Vec<Turn>,
    transcript: Option<&str>,
) -> (r: String)
    ensures
        r@ == prompt(
            name_of(agent@, which@),
            meta@,
            git@,
            agents::turns_view(said@),
            text::opt(transcript),
        ),
{
    let name: &str = display_name(agent, which);
    let mut out = opening(name, meta, git);
    let task = trunc(&meta.title, TASK_MAX);
    out.append("\nTask:\n  ");
    if task.as_str().is_empty() {
        out.append("(not found)");
    } else {
        out.append(&task);
    }
    out.append("\n");
    push_section(&mut out, "\nRecent commits:\n", &git.log);
    push_section(&mut out, "\nUncommitted changes:\n", &git.status);
    push_said(&mut out, name, said);
    let ghost a = out@;
    if let Some(p) = transcript {
        out.append("\nFull session transcript: ");
        out.append(p);
        out.append("\n");
        out.append("Read this file if you need the complete conversation history.\n");
    }
    assert(out@ =~= a + pointer(text::opt(transcript)));
    out
}

// ---------------------------------------------------------------------------
// Starting the other agent
// ---------------------------------------------------------------------------
pub open spec fn launched(agent: Seq<char>, target: Seq<char>, prompt: Seq<char>) -> Result<
    Seq<char>,
    Seq<char>,
> {
    let q = tmux::quoted(prompt);
    if target == agent || target == "codex"@ || target == "gemini"@ {
        Ok("command "@ + target + " "@ + q)
    } else if target == "opencode"@ {
        Ok("command opencode --prompt "@ + q)
    } else if target == "agy"@ {
        Ok("command agy -i "@ + q)
    } else {
        Err("taimux does not know how to start "@ + target + " with a prompt"@)
    }
}

/// The command that starts an agent with a prompt already typed.
///
/// Every one of them takes it differently, and two of them would otherwise run it
/// non-interactively, which is the opposite of what a handoff is for: `--prompt`
/// opens OpenCode's interface with the prompt in, and `-i` is `agy`'s interactive
/// one.
///
/// **Through `command`**, so no shell alias fires and the argv can be read back
/// later.
pub fn launch(agent: &str, target: &str, prompt: &str) -> (r: Result<String, String>)
    ensures
        tmux::result_texts(r) == launched(agent@, target@, prompt@),
{
    let q = shell_quote(prompt);
    if same(target, agent) || same(target, "codex") || same(target, "gemini") {
        let mut s = "command ".to_owned();
        s.append(target);
        s.append(" ");
        s.append(&q);
        Ok(s)
    } else if same(target, "opencode") {
        let mut s = "command opencode --prompt ".to_owned();
        s.append(&q);
        Ok(s)
    } else if same(target, "agy") {
        let mut s = "command agy -i ".to_owned();
        s.append(&q);
        Ok(s)
    } else {
        let mut s = "taimux does not know how to start ".to_owned();
        s.append(target);
        s.append(" with a prompt");
        Err(s)
    }
}

/// Those of the agents that are among the commands there are.
pub open spec fn offered(agents: Seq<Seq<char>>, present: Seq<Seq<char>>) -> Seq<Seq<char>>
    decreases agents.len(),
{
    if agents.len() == 0 {
        Seq::empty()
    } else if present.contains(agents.last()) {
        offered(agents.drop_last(), present).push(agents.last())
    } else {
        offered(agents.drop_last(), present)
    }
}

/// Which agents are on this machine, in the order they are offered: those among the
/// commands that can be run.
///
/// The list is a menu: offering a target that is not installed spends a keystroke on
/// an error.
pub fn installed(agent: &str, present: &Vec<String>) -> (r: Vec<String>)
    ensures
        text::texts(r@) == offered(agents::known_agents(agent@), text::texts(present@)),
{
    let known = agents::known(agent);
    let ghost all = text::texts(known@);
    let ghost here = text::texts(present@);
    let mut out: Vec<String> = Vec::new();
    let mut i: usize = 0;
    assert(text::texts(out@) =~= offered(all.take(0), here));
    while i < known.len()
        invariant
            i <= known@.len(),
            all == text::texts(known@),
            here == text::texts(present@),
            text::texts(out@) == offered(all.take(i as int), here),
        decreases known@.len() - i,
    {
        assert(all.take(i + 1).drop_last() =~= all.take(i as int));
        assert(all.take(i + 1).last() == known@[i as int]@);
        if text::listed(present, &known[i]) {
            let t = known[i].clone();
            proof {
                text::lemma_texts_push(out@, t);
            }
            out.push(t);
        }
        i = i + 1;
    }
    assert(all.take(all.len() as int) =~= all);
    out
}

// ---------------------------------------------------------------------------
// Laws
// ---------------------------------------------------------------------------
/// The prompt opens with the instruction, whatever it is handed.
pub proof fn lemma_the_instruction_comes_first(
    name: Seq<char>,
    meta: agents::MetaView,
    git: GitView,
    said: Seq<agents::TurnView>,
    transcript: Option<Seq<char>>,
)
    ensures
        "Continue this work."@.is_prefix_of(prompt(name, meta, git, said, transcript)),
{
    let whole = prompt(name, meta, git, said, transcript);
    let first = "Continue this work. You are picking up from "@;
    reveal_strlit("Continue this work.");
    reveal_strlit("Continue this work. You are picking up from ");
    assert(first.take("Continue this work."@.len() as int) =~= "Continue this work."@);
    assert(whole.take(first.len() as int) =~= first);
    assert("Continue this work."@ =~= whole.take("Continue this work."@.len() as int));
}

/// A prompt is handed over as one argument: the shell reads back exactly what was
/// quoted.
pub proof fn lemma_the_prompt_is_one_argument(prompt: Seq<char>)
    ensures
        tmux::shell_word(tmux::quoted(prompt), false) == Some(prompt),
{
    tmux::lemma_quoting_is_read_back(prompt);
}

/// Whatever is carried over of a turn is cut to its room and the mark that says so.
pub proof fn lemma_a_turn_is_cut(s: Seq<char>, max: nat)
    ensures
        truncated(s, max).len() <= max + 1,
{
    reveal_strlit("…");
}

/// What is offered is an agent that is known, and there.
pub proof fn lemma_only_what_is_there_is_offered(
    agents: Seq<Seq<char>>,
    present: Seq<Seq<char>>,
    which: Seq<char>,
)
    ensures
        offered(agents, present).contains(which) <==> agents.contains(which) && present.contains(
            which,
        ),
    decreases agents.len(),
{
    if agents.len() > 0 {
        let rest = offered(agents.drop_last(), present);
        lemma_only_what_is_there_is_offered(agents.drop_last(), present, which);
        assert(agents =~= agents.drop_last().push(agents.last()));
        if rest.contains(which) {
            let k = choose|k: int| 0 <= k < rest.len() && rest[k] == which;
            assert(offered(agents, present)[k] == which);
        }
        if agents.contains(which) && !agents.drop_last().contains(which) {
            let k = choose|k: int| 0 <= k < agents.len() && agents[k] == which;
            if k < agents.len() - 1 {
                assert(agents.drop_last()[k] == which);
            }
        }
        if agents.drop_last().contains(which) {
            let k = choose|k: int|
                0 <= k < agents.drop_last().len() && agents.drop_last()[k] == which;
            assert(agents[k] == which);
        }
        if present.contains(agents.last()) {
            assert(offered(agents, present)[rest.len() as int] == agents.last());
            assert(agents[agents.len() - 1] == agents.last());
            if offered(agents, present).contains(which) && !rest.contains(which) {
                let k = choose|k: int|
                    0 <= k < offered(agents, present).len() && offered(agents, present)[k]
                        == which;
                if k < rest.len() {
                    assert(rest[k] == which);
                }
            }
        }
    }
}

/// The task is the conversation's title, and nothing but it: trimmed, and whole where it
/// is short enough. A conversation without one has a task that was not found, wherever it
/// was held.
pub proof fn lemma_the_task_is_the_title(
    name: Seq<char>,
    meta: agents::MetaView,
    git: GitView,
    said: Seq<agents::TurnView>,
    transcript: Option<Seq<char>>,
)
    ensures
        ({
            let p = prompt(name, meta, git, said, transcript);
            let t = text::trimmed(meta.title);
            &&& 0 < t.len() <= 800 ==> text::has(p, "\nTask:\n  "@ + t + "\n"@)
            &&& t.len() > 800 ==> text::has(p, "\nTask:\n  "@ + t.take(800) + "…\n"@)
            &&& t.len() == 0 ==> text::has(p, "\nTask:\n  (not found)\n"@)
        }),
{
    let t = text::trimmed(meta.title);
    let p = prompt(name, meta, git, said, transcript);
    let (head, tail) = lemma_around_the_task(name, meta, git, said, transcript);
    reveal_strlit("\nTask:\n  ");
    reveal_strlit("\n");
    reveal_strlit("…\n");
    reveal_strlit("…");
    reveal_strlit("(not found)");
    reveal_strlit("\nTask:\n  (not found)\n");
    if t.len() == 0 {
        let line = "\nTask:\n  (not found)\n"@;
        assert("\nTask:\n  "@ + "(not found)"@ + "\n"@ =~= line);
        assert(p =~= head + line + tail);
        text::lemma_has_middle(head, line, tail);
    } else if t.len() <= 800 {
        let line = "\nTask:\n  "@ + t + "\n"@;
        assert(p =~= head + line + tail);
        text::lemma_has_middle(head, line, tail);
    } else {
        let line = "\nTask:\n  "@ + t.take(800) + "…\n"@;
        assert("…"@ + "\n"@ =~= "…\n"@);
        assert("\nTask:\n  "@ + (t.take(800) + "…"@) + "\n"@ =~= line);
        assert(p =~= head + line + tail);
        text::lemma_has_middle(head, line, tail);
    }
}

proof fn lemma_around_the_task(
    name: Seq<char>,
    meta: agents::MetaView,
    git: GitView,
    said: Seq<agents::TurnView>,
    transcript: Option<Seq<char>>,
) -> (parts: (Seq<char>, Seq<char>))
    ensures
        ({
            let t = truncated(meta.title, TASK_MAX as nat);
            prompt(name, meta, git, said, transcript) == parts.0 + ("\nTask:\n  "@ + (if t.len() == 0 {
                "(not found)"@
            } else {
                t
            }) + "\n"@) + parts.1
        }),
        forall|title: Seq<char>|
            ({
                let t = truncated(title, TASK_MAX as nat);
                #[trigger] prompt(name, (agents::MetaView { title, ..meta }), git, said, transcript)
                    == parts.0 + ("\nTask:\n  "@ + (if t.len() == 0 {
                    "(not found)"@
                } else {
                    t
                }) + "\n"@) + parts.1
            }),
{
    let head = "Continue this work. You are picking up from "@ + article(name) + " "@ + name
        + " session.\n"@ + line_with("Work in: "@, meta.cwd) + line_of("Branch: "@, git.branch);
    let tail = section("\nRecent commits:\n"@, git.log) + section(
        "\nUncommitted changes:\n"@,
        git.status,
    ) + conversation(name, said) + pointer(transcript);
    assert forall|title: Seq<char>|
        ({
            let t = truncated(title, TASK_MAX as nat);
            #[trigger] prompt(name, (agents::MetaView { title, ..meta }), git, said, transcript)
                == head + ("\nTask:\n  "@ + (if t.len() == 0 {
                "(not found)"@
            } else {
                t
            }) + "\n"@) + tail
        }) by {
        let t = truncated(title, TASK_MAX as nat);
        assert(prompt(name, (agents::MetaView { title, ..meta }), git, said, transcript) =~= head + (
        "\nTask:\n  "@ + (if t.len() == 0 {
            "(not found)"@
        } else {
            t
        }) + "\n"@) + tail);
    }
    let same = agents::MetaView { title: meta.title, ..meta };
    assert(same == meta);
    assert(prompt(name, same, git, said, transcript) == prompt(name, meta, git, said, transcript));
    (head, tail)
}

/// Two conversations that differ in their title alone are handed on by different
/// prompts.
pub proof fn lemma_another_title_is_another_prompt(
    name: Seq<char>,
    meta: agents::MetaView,
    title: Seq<char>,
    git: GitView,
    said: Seq<agents::TurnView>,
    transcript: Option<Seq<char>>,
)
    requires
        0 < text::trimmed(meta.title).len() <= 800,
        0 < text::trimmed(title).len() <= 800,
        text::trimmed(title) != text::trimmed(meta.title),
    ensures
        prompt(name, meta, git, said, transcript) != prompt(
            name,
            (agents::MetaView { title, ..meta }),
            git,
            said,
            transcript,
        ),
{
    let a = text::trimmed(meta.title);
    let b = text::trimmed(title);
    let other = agents::MetaView { title, ..meta };
    let p = prompt(name, meta, git, said, transcript);
    let q = prompt(name, other, git, said, transcript);
    let (head, tail) = lemma_around_the_task(name, meta, git, said, transcript);
    assert(q == head + ("\nTask:\n  "@ + b + "\n"@) + tail);
    if p == q {
        let from = (head + "\nTask:\n  "@).len() as int;
        assert(p.subrange(from, from + a.len()) =~= a);
        assert(q.subrange(from, from + b.len()) =~= b);
        assert(a.len() == b.len());
    }
}

/// The prompt says who is picked up from, where the work is and on which branch, and where
/// the whole conversation can be read.
pub proof fn lemma_the_prompt_says_where_the_work_is(
    name: Seq<char>,
    meta: agents::MetaView,
    git: GitView,
    said: Seq<agents::TurnView>,
    transcript: Option<Seq<char>>,
)
    ensures
        ({
            let p = prompt(name, meta, git, said, transcript);
            &&& ("Continue this work. You are picking up from "@ + article(name) + " "@ + name
                + " session.\n"@).is_prefix_of(p)
            &&& meta.cwd.len() > 0 ==> text::has(p, "Work in: "@ + meta.cwd + "\n"@)
            &&& git.branch is Some ==> text::has(p, "Branch: "@ + git.branch->0 + "\n"@)
            &&& transcript is Some ==> ("\nFull session transcript: "@ + transcript->0 + "\n"@
                + "Read this file if you need the complete conversation history.\n"@).is_suffix_of(
                p,
            )
        }),
{
    let p = prompt(name, meta, git, said, transcript);
    let head = "Continue this work. You are picking up from "@ + article(name) + " "@ + name
        + " session.\n"@;
    let place = line_with("Work in: "@, meta.cwd);
    let branch = line_of("Branch: "@, git.branch);
    let end = pointer(transcript);
    let middle = lemma_prompt_parts(name, meta, git, said, transcript);
    lemma_four_parts(head, place, branch, middle, end);
}

proof fn lemma_prompt_parts(
    name: Seq<char>,
    meta: agents::MetaView,
    git: GitView,
    said: Seq<agents::TurnView>,
    transcript: Option<Seq<char>>,
) -> (middle: Seq<char>)
    ensures
        prompt(name, meta, git, said, transcript) == (
        "Continue this work. You are picking up from "@ + article(name) + " "@ + name
            + " session.\n"@) + line_with("Work in: "@, meta.cwd) + line_of("Branch: "@, git.branch)
            + middle + pointer(transcript),
{
    let t = truncated(meta.title, TASK_MAX as nat);
    let task = if t.len() == 0 {
        "(not found)"@
    } else {
        t
    };
    let head = "Continue this work. You are picking up from "@ + article(name) + " "@ + name
        + " session.\n"@ + line_with("Work in: "@, meta.cwd) + line_of("Branch: "@, git.branch);
    let commits = section("\nRecent commits:\n"@, git.log);
    let changes = section("\nUncommitted changes:\n"@, git.status);
    let held = conversation(name, said);
    let end = pointer(transcript);
    let middle = "\nTask:\n  "@ + task + "\n"@ + commits + changes + held;
    assert(head + "\nTask:\n  "@ + task + "\n"@ + commits + changes + held + end =~= head + middle
        + end);
    middle
}

proof fn lemma_four_parts(
    a: Seq<char>,
    b: Seq<char>,
    c: Seq<char>,
    d: Seq<char>,
    e: Seq<char>,
)
    ensures
        a.is_prefix_of(a + b + c + d + e),
        text::has(a + b + c + d + e, b),
        text::has(a + b + c + d + e, c),
        e.is_suffix_of(a + b + c + d + e),
{
    let p = a + b + c + d + e;
    assert(p.subrange(0, a.len() as int) =~= a);
    assert(p.subrange(p.len() - e.len(), p.len() as int) =~= e);
    assert(p =~= a + b + (c + d + e));
    text::lemma_has_middle(a, b, c + d + e);
    assert(p =~= (a + b) + c + (d + e));
    text::lemma_has_middle(a + b, c, d + e);
}

/// Every line of the recent commits and of the uncommitted changes is in the prompt, under
/// its own heading and indented.
pub proof fn lemma_the_prompt_shows_the_repository(
    name: Seq<char>,
    meta: agents::MetaView,
    git: GitView,
    said: Seq<agents::TurnView>,
    transcript: Option<Seq<char>>,
    log: Seq<char>,
    i: int,
)
    ensures
        ({
            let p = prompt(name, meta, git, said, transcript);
            &&& git.log == Some(log) && 0 <= i < text::lines_of(log).len() ==> text::has(
                p,
                "\nRecent commits:\n"@,
            ) && text::has(p, "  "@ + text::lines_of(log)[i] + "\n"@)
            &&& git.status == Some(log) && 0 <= i < text::lines_of(log).len() ==> text::has(
                p,
                "\nUncommitted changes:\n"@,
            ) && text::has(p, "  "@ + text::lines_of(log)[i] + "\n"@)
        }),
{
    let p = prompt(name, meta, git, said, transcript);
    let t = truncated(meta.title, TASK_MAX as nat);
    let front = "Continue this work. You are picking up from "@ + article(name) + " "@ + name
        + " session.\n"@ + line_with("Work in: "@, meta.cwd) + line_of("Branch: "@, git.branch) + (
    "\nTask:\n  "@ + (if t.len() == 0 {
        "(not found)"@
    } else {
        t
    }) + "\n"@);
    let commits = section("\nRecent commits:\n"@, git.log);
    let changes = section("\nUncommitted changes:\n"@, git.status);
    let end = conversation(name, said) + pointer(transcript);
    assert(p =~= front + commits + (changes + end));
    assert(p =~= (front + commits) + changes + end);
    if git.log == Some(log) && 0 <= i < text::lines_of(log).len() {
        lemma_a_section_shows_its_lines(front, "\nRecent commits:\n"@, log, changes + end, i);
    }
    if git.status == Some(log) && 0 <= i < text::lines_of(log).len() {
        lemma_a_section_shows_its_lines(front + commits, "\nUncommitted changes:\n"@, log, end, i);
    }
}

proof fn lemma_a_section_shows_its_lines(
    front: Seq<char>,
    heading: Seq<char>,
    body: Seq<char>,
    end: Seq<char>,
    i: int,
)
    requires
        0 <= i < text::lines_of(body).len(),
    ensures
        text::has(front + section(heading, Some(body)) + end, heading),
        text::has(
            front + section(heading, Some(body)) + end,
            "  "@ + text::lines_of(body)[i] + "\n"@,
        ),
{
    let ls = text::lines_of(body);
    let whole = front + section(heading, Some(body)) + end;
    let (a, b) = lemma_indented_holds(ls, i);
    let l = "  "@ + ls[i] + "\n"@;
    assert(whole =~= front + heading + (indented(ls) + end));
    text::lemma_has_middle(front, heading, indented(ls) + end);
    assert(whole =~= (front + heading + a) + l + (b + end));
    text::lemma_has_middle(front + heading + a, l, b + end);
}

proof fn lemma_indented_holds(ls: Seq<Seq<char>>, i: int) -> (r: (Seq<char>, Seq<char>))
    requires
        0 <= i < ls.len(),
    ensures
        indented(ls) == r.0 + ("  "@ + ls[i] + "\n"@) + r.1,
    decreases ls.len(),
{
    let last = "  "@ + ls.last() + "\n"@;
    if i == ls.len() - 1 {
        let a = indented(ls.drop_last());
        assert(indented(ls) =~= a + last + Seq::<char>::empty());
        (a, Seq::empty())
    } else {
        let (a, b) = lemma_indented_holds(ls.drop_last(), i);
        assert(indented(ls) =~= a + ("  "@ + ls[i] + "\n"@) + (b + last));
        (a, b + last)
    }
}

/// Every turn of the recent conversation is in the prompt under who said it, whole where it
/// is short enough.
pub proof fn lemma_the_prompt_quotes_every_turn(
    name: Seq<char>,
    meta: agents::MetaView,
    git: GitView,
    said: Seq<agents::TurnView>,
    transcript: Option<Seq<char>>,
    i: int,
)
    requires
        0 <= i < said.len(),
        text::trimmed(said[i].text).len() <= 600,
    ensures
        ({
            let p = prompt(name, meta, git, said, transcript);
            let t = text::trimmed(said[i].text);
            &&& said[i].you ==> text::has(p, "  User: "@ + t + "\n"@)
            &&& !said[i].you ==> text::has(p, "  "@ + name + ": "@ + t + "\n"@)
            &&& text::has(
                p,
                "\nRecent conversation ("@ + text::decimal(said.len()) + " messages):\n"@,
            )
        }),
{
    let p = prompt(name, meta, git, said, transcript);
    let n = said.len() as int;
    let (a, b) = lemma_said_lines_hold(name, said, n, i);
    let t = text::trimmed(said[i].text);
    let l = said_line(name, said[i], last_answer(said, i));
    let title = truncated(meta.title, TASK_MAX as nat);
    let front = "Continue this work. You are picking up from "@ + article(name) + " "@ + name
        + " session.\n"@ + line_with("Work in: "@, meta.cwd) + line_of("Branch: "@, git.branch)
        + "\nTask:\n  "@ + (if title.len() == 0 {
        "(not found)"@
    } else {
        title
    }) + "\n"@ + section("\nRecent commits:\n"@, git.log) + section(
        "\nUncommitted changes:\n"@,
        git.status,
    );
    let heading = "\nRecent conversation ("@ + text::decimal(said.len()) + " messages):\n"@;
    let end = pointer(transcript);
    let lines = said_lines(name, said, n);
    assert(p =~= front + heading + (lines + end));
    text::lemma_has_middle(front, heading, lines + end);
    assert(lines + end =~= a + l + (b + end));
    assert(p =~= (front + heading + a) + l + (b + end));
    text::lemma_has_middle(front + heading + a, l, b + end);
    reveal_strlit("  ");
    reveal_strlit("User");
    reveal_strlit(": ");
    reveal_strlit("  User: ");
    if said[i].you {
        assert("  "@ + "User"@ + ": "@ =~= "  User: "@);
    }
}

proof fn lemma_said_lines_hold(
    name: Seq<char>,
    said: Seq<agents::TurnView>,
    n: int,
    i: int,
) -> (r: (Seq<char>, Seq<char>))
    requires
        0 <= i < n <= said.len(),
    ensures
        said_lines(name, said, n) == r.0 + said_line(name, said[i], last_answer(said, i)) + r.1,
    decreases n,
{
    let last = said_line(name, said[n - 1], last_answer(said, n - 1));
    if i == n - 1 {
        let a = said_lines(name, said, n - 1);
        assert(said_lines(name, said, n) =~= a + last + Seq::<char>::empty());
        (a, Seq::empty())
    } else {
        let (a, b) = lemma_said_lines_hold(name, said, n - 1, i);
        let here = said_line(name, said[i], last_answer(said, i));
        assert(said_lines(name, said, n) =~= a + here + (b + last));
        (a, b + last)
    }
}

/// An agent is started on a prompt the way that agent takes one, and an agent that is not
/// known is not started.
pub proof fn lemma_each_agent_takes_a_prompt_its_own_way(
    agent: Seq<char>,
    target: Seq<char>,
    text: Seq<char>,
)
    ensures
        launched(agent, agent, text) == Ok::<Seq<char>, Seq<char>>(
            "command "@ + agent + " "@ + tmux::quoted(text),
        ),
        target == "codex"@ || target == "gemini"@ ==> launched(agent, target, text) == Ok::<
            Seq<char>,
            Seq<char>,
        >("command "@ + target + " "@ + tmux::quoted(text)),
        target != agent && target == "opencode"@ ==> launched(agent, target, text) == Ok::<
            Seq<char>,
            Seq<char>,
        >("command opencode --prompt "@ + tmux::quoted(text)),
        target != agent && target == "agy"@ ==> launched(agent, target, text) == Ok::<
            Seq<char>,
            Seq<char>,
        >("command agy -i "@ + tmux::quoted(text)),
        target != agent && target != "codex"@ && target != "gemini"@ && target != "opencode"@
            && target != "agy"@ ==> launched(agent, target, text) is Err,
{
    reveal_strlit("codex");
    reveal_strlit("gemini");
    reveal_strlit("opencode");
    reveal_strlit("agy");
    assert("codex"@.len() == 5 && "gemini"@.len() == 6 && "opencode"@.len() == 8 && "agy"@.len()
        == 3);
}

/// What the repository says is trimmed at its end and passed on, and nothing of it is where
/// there is no branch to speak of.
pub proof fn lemma_the_repository_is_passed_on(
    branch: Seq<char>,
    log: Seq<char>,
    status: Seq<char>,
)
    requires
        text::trimmed_end(branch).len() > 0,
        text::trimmed_end(log).len() > 0,
        text::trimmed_end(status).len() > 0,
    ensures
        ({
            let c = context(true, Some(branch), Some(log), Some(status));
            &&& c.branch == Some(text::trimmed_end(branch))
            &&& c.log == Some(text::trimmed_end(log))
            &&& c.status == Some(text::trimmed_end(status))
        }),
        context(true, Some(branch), None, None).branch == Some(text::trimmed_end(branch)),
        context(true, Some(branch), None, None).log is None,
        ({
            let c = context(false, Some(branch), Some(log), Some(status));
            c.branch is None && c.log is None && c.status is None
        }),
        ({
            let c = context(true, None, Some(log), Some(status));
            c.branch is None && c.log is None && c.status is None
        }),
{
}

} // verus!
