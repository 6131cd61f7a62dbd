//! Antigravity CLI (`agy`): one JSONL transcript per conversation, under
//! `~/.gemini/antigravity-cli/brain/<id>/.system_generated/logs/transcript.jsonl`.
//!
//! Two record types are the conversation: `USER_INPUT`, whose content wraps what
//! you typed in `<USER_REQUEST>` alongside metadata blocks nobody wrote, and
//! `PLANNER_RESPONSE`. Everything else in the file is the agent's own plumbing.
//!
//! **The working directory is not in the transcript.** It is in `history.jsonl`,
//! keyed by conversation id, which is also the directory name.
use vstd::prelude::*;

use super::{between, past_in, show, title_from_prompt, File, Meta, Past, Record, Turn};
use crate::agents;
use crate::agents::gemini;
use crate::json;
use crate::paths;
use crate::paths::{above, join};
use crate::text;
use crate::text::{contains, same};
use crate::tmux;
use crate::tmux::shell_quote;
use crate::transcript;

verus! {

pub open spec fn agy_in(home: Seq<char>) -> Seq<char> {
    paths::joined(gemini::gemini_in(home), "antigravity-cli"@)
}

/// Where this agent keeps everything.
pub fn agy_dir(home: &str) -> (r: String)
    ensures
        r@ == agy_in(home@),
{
    let base = gemini::gemini_dir(home);
    join(&base, "antigravity-cli")
}

/// The directory whose subdirectories are the conversations.
pub fn brain_dir(home: &str) -> (r: String)
    ensures
        r@ == paths::joined(agy_in(home@), "brain"@),
{
    let base = agy_dir(home);
    join(&base, "brain")
}

/// The transcript of the conversation in a directory.
pub fn transcript_in(dir: &str) -> (r: String)
    ensures
        r@ == paths::joined(
            paths::joined(paths::joined(dir@, ".system_generated"@), "logs"@),
            "transcript.jsonl"@,
        ),
{
    let a = join(dir, ".system_generated");
    let b = join(&a, "logs");
    join(&b, "transcript.jsonl")
}

pub open spec fn all_in(files: Seq<agents::FileView>) -> Seq<agents::PastView> {
    files.map_values(|f: agents::FileView| agents::in_file("agy"@, f))
}

/// Every conversation: the transcripts that are there, one a directory.
pub fn discover(files: &Vec<File>) -> (r: Vec<Past>)
    ensures
        agents::pasts_view(r@) == all_in(agents::files_view(files@)),
{
    let ghost fs = agents::files_view(files@);
    let mut out: Vec<Past> = Vec::new();
    let mut i: usize = 0;
    while i < files.len()
        invariant
            i <= files@.len(),
            fs == agents::files_view(files@),
            out@.len() == i,
            forall|k: int| 0 <= k < i ==> (#[trigger] out@[k])@ == all_in(fs)[k],
        decreases files@.len() - i,
    {
        assert(fs[i as int] == files@[i as int]@);
        out.push(past_in("agy", &files[i]));
        i = i + 1;
    }
    assert(agents::pasts_view(out@) =~= all_in(fs));
    out
}

/// The conversation id a transcript belongs to: the directory three levels up.
pub fn id_of(key: &str) -> (r: String)
    ensures
        r@ == paths::component_above(key@, 3),
{
    above(key, 3)
}

// ---------------------------------------------------------------------------
// One record
// ---------------------------------------------------------------------------
/// A record's content, unescaped enough to read.
pub open spec fn content(line: Seq<char>) -> Option<Seq<char>> {
    match transcript::body_after(line, "\"content\":\""@) {
        Some(b) => Some(transcript::cleaned(b)),
        None => None,
    }
}

fn content_of(line: &str) -> (r: Option<String>)
    ensures
        text::opt_string(r) == content(line@),
{
    match transcript::after_key(line, "\"content\":\"") {
        Some(b) => Some(transcript::clean(&b)),
        None => None,
    }
}

/// What you typed in a `USER_INPUT` record.
pub open spec fn requested(line: Seq<char>) -> Option<Seq<char>> {
    if text::has(line, "\"type\":\"USER_INPUT\""@) {
        match content(line) {
            Some(c) => match agents::marked(c, "<USER_REQUEST>"@, "</USER_REQUEST>"@) {
                Some(inner) => agents::shown(inner),
                None => agents::shown(c),
            },
            None => None,
        }
    } else {
        None
    }
}

/// What you typed in a `USER_INPUT` record.
///
/// The content carries `<USER_REQUEST>` and then blocks nobody wrote, so only the
/// request is taken. A record with no request marker at all is taken whole.
pub fn user_text(line: &str) -> (r: Option<String>)
    ensures
        text::opt_string(r) == requested(line@),
{
    if !contains(line, "\"type\":\"USER_INPUT\"") {
        return None;
    }
    match content_of(line) {
        None => None,
        Some(c) => match between(&c, "<USER_REQUEST>", "</USER_REQUEST>") {
            Some(inner) => show(&inner),
            None => show(&c),
        },
    }
}

/// What the agent said in a `PLANNER_RESPONSE` record.
pub open spec fn planned(line: Seq<char>) -> Option<Seq<char>> {
    if text::has(line, "\"type\":\"PLANNER_RESPONSE\""@) {
        match content(line) {
            Some(c) => agents::shown(c),
            None => None,
        }
    } else {
        None
    }
}

pub fn planner_text(line: &str) -> (r: Option<String>)
    ensures
        text::opt_string(r) == planned(line@),
{
    if !contains(line, "\"type\":\"PLANNER_RESPONSE\"") {
        return None;
    }
    match content_of(line) {
        None => None,
        Some(c) => show(&c),
    }
}

/// One line of a transcript.
pub struct Line;

impl Record for Line {
    open spec fn says(line: Seq<char>) -> Option<agents::TurnView> {
        match requested(line) {
            Some(t) => Some(agents::TurnView { you: true, text: t }),
            None => match planned(line) {
                Some(t) => Some(agents::TurnView { you: false, text: t }),
                None => None,
            },
        }
    }

    fn turn_in(line: &str) -> (r: Option<Turn>) {
        match user_text(line) {
            Some(t) => Some(Turn { you: true, text: t }),
            None => match planner_text(line) {
                Some(t) => Some(Turn { you: false, text: t }),
                None => None,
            },
        }
    }
}

// ---------------------------------------------------------------------------
// A whole conversation
// ---------------------------------------------------------------------------
/// How far into a transcript the opening request can be.
pub const HEAD: usize = 0x1_0000;

/// The directory a conversation ran in, as the last of the history's lines to name
/// both says.
pub open spec fn ran_in(ls: Seq<Seq<char>>, id: Seq<char>) -> Seq<char>
    decreases ls.len(),
{
    if ls.len() == 0 {
        Seq::empty()
    } else {
        let i = json::or_empty(json::first_value(ls.last(), "conversationId"@));
        let w = json::or_empty(json::first_value(ls.last(), "workspace"@));
        if i.len() > 0 && w.len() > 0 && i == id {
            w
        } else {
            ran_in(ls.drop_last(), id)
        }
    }
}

pub open spec fn history_lines(history: Option<Seq<char>>) -> Seq<Seq<char>> {
    match history {
        Some(h) => text::lines_of(h),
        None => Seq::empty(),
    }
}

/// The directory a conversation ran in, out of the shell history file.
pub fn cwd_of(history: Option<&str>, id: &str) -> (r: String)
    ensures
        r@ == ran_in(history_lines(text::opt(history)), id@),
{
    let none = String::new();
    assert(none@ =~= Seq::<char>::empty());
    let h: &str = match history {
        None => {
            return none;
        },
        Some(h) => h,
    };
    let lines = text::lines(h);
    let ghost ls = text::texts(lines@);
    let mut n: usize = lines.len();
    assert(ls.take(n as int) =~= ls);
    while n > 0
        invariant
            n <= lines@.len(),
            ls == text::texts(lines@),
            ls == history_lines(text::opt(history)),
            ran_in(ls.take(n as int), id@) == ran_in(ls, id@),
        decreases n,
    {
        assert(ls.take(n as int).last() == lines@[n - 1]@);
        assert(ls.take(n as int).drop_last() =~= ls.take(n - 1));
        let i = json::field(&lines[n - 1], "conversationId");
        let w = json::field(&lines[n - 1], "workspace");
        if !i.as_str().is_empty() && !w.as_str().is_empty() && same(&i, id) {
            return w;
        }
        n = n - 1;
    }
    none
}

/// The first thing you asked, as a title.
pub open spec fn opening(ls: Seq<Seq<char>>, i: int) -> Seq<char>
    decreases ls.len() - i,
{
    if i >= ls.len() {
        Seq::empty()
    } else {
        match requested(ls[i]) {
            Some(t) => agents::prompt_title(t),
            None => opening(ls, i + 1),
        }
    }
}

/// What a row says of the conversation with that key, history and opening.
pub open spec fn meta_of(
    key: Seq<char>,
    history: Option<Seq<char>>,
    head: Option<Seq<char>>,
) -> agents::MetaView {
    let title = opening(history_lines(head), 0);
    agents::MetaView {
        cwd: ran_in(history_lines(history), paths::component_above(key, 3)),
        version: Seq::empty(),
        title,
        src: agents::source(title, "p"@),
    }
}

fn head_request(head: Option<&str>) -> (r: String)
    ensures
        r@ == opening(history_lines(text::opt(head)), 0),
{
    let none = String::new();
    assert(none@ =~= Seq::<char>::empty());
    let h: &str = match head {
        None => {
            return none;
        },
        Some(h) => h,
    };
    let lines = text::lines(h);
    let ghost ls = text::texts(lines@);
    assert(ls.len() == lines@.len());
    let mut i: usize = 0;
    while i < lines.len()
        invariant
            i <= lines@.len(),
            ls == text::texts(lines@),
            ls == history_lines(text::opt(head)),
            opening(ls, i as int) == opening(ls, 0),
        decreases lines@.len() - i,
    {
        assert(ls[i as int] == lines@[i as int]@);
        if let Some(t) = user_text(&lines[i]) {
            return title_from_prompt(&t);
        }
        i = i + 1;
    }
    none
}

/// The directory from the history file, and the opening request as the title.
pub fn meta(key: &str, history: Option<&str>, head: Option<&str>) -> (r: Meta)
    ensures
        r@ == meta_of(key@, text::opt(history), text::opt(head)),
{
    let id = id_of(key);
    let cwd = cwd_of(history, &id);
    let title = head_request(head);
    let src: &'static str = if title.as_str().is_empty() {
        ""
    } else {
        "p"
    };
    let version = String::new();
    assert(version@ =~= Seq::<char>::empty());
    Meta { cwd, version, title, src }
}

/// Both sides' prose, with the metadata blocks that ride inside a user record left
/// out: they are the harness talking, not you.
pub fn extract(read: &str) -> (r: String)
    ensures
        r@ == agents::prose_in::<Line>(text::lines_of(read@)),
{
    agents::all_said::<Line>(read)
}

/// The last turns, oldest first.
pub fn turns(lines: &Vec<String>, want: usize) -> (r: Vec<Turn>)
    ensures
        agents::turns_view(r@) == agents::last_said::<Line>(
            text::texts(lines@),
            want as nat,
            None,
        ),
{
    agents::from_lines::<Line>(lines, want, None)
}

pub open spec fn resumed(key: Seq<char>) -> Result<Seq<char>, Seq<char>> {
    let id = paths::component_above(key, 3);
    if id.len() == 0 {
        Err("that conversation has no id to resume by"@)
    } else {
        Ok("command agy --conversation "@ + tmux::quoted(id))
    }
}

/// `agy --conversation <id>`, which is the flag its own `--help` advertises for
/// exactly this.
pub fn resume(key: &str) -> (r: Result<String, String>)
    ensures
        tmux::result_texts(r) == resumed(key@),
{
    let id = id_of(key);
    if id.as_str().is_empty() {
        return Err("that conversation has no id to resume by".to_owned());
    }
    let mut s = "command agy --conversation ".to_owned();
    let q = shell_quote(&id);
    s.append(&q);
    Ok(s)
}

/// Where a conversation was held is what the last line of the history that names it says.
pub proof fn lemma_the_last_line_of_the_history_counts(
    ls: Seq<Seq<char>>,
    id: Seq<char>,
    i: int,
    w: Seq<char>,
)
    requires
        0 <= i < ls.len(),
        id.len() > 0,
        w.len() > 0,
        json::first_value(ls[i], "conversationId"@) == Some(id),
        json::first_value(ls[i], "workspace"@) == Some(w),
        forall|j: int|
            i < j < ls.len() ==> json::first_value(#[trigger] ls[j], "conversationId"@) != Some(id),
    ensures
        ran_in(ls, id) == w,
    decreases ls.len(),
{
    if i < ls.len() - 1 {
        assert(json::first_value(ls[ls.len() - 1], "conversationId"@) != Some(id));
        let front = ls.drop_last();
        assert forall|j: int| i < j < front.len() implies json::first_value(
            #[trigger] front[j],
            "conversationId"@,
        ) != Some(id) by {
            assert(front[j] == ls[j]);
        }
        lemma_the_last_line_of_the_history_counts(front, id, i, w);
    }
}

/// What was asked is the user's and what was planned is the agent's, and a line that is
/// neither says nothing.
pub proof fn lemma_who_said_it(line: Seq<char>)
    ensures
        ({
            let said = <Line as agents::Record>::says(line);
            &&& text::has(line, "\"type\":\"USER_INPUT\""@) && !text::has(
                line,
                "\"type\":\"PLANNER_RESPONSE\""@,
            ) && said is Some ==> said->0.you
            &&& !text::has(line, "\"type\":\"USER_INPUT\""@) && said is Some ==> !said->0.you
            &&& !text::has(line, "\"type\":\"USER_INPUT\""@) && !text::has(
                line,
                "\"type\":\"PLANNER_RESPONSE\""@,
            ) ==> said is None
        }),
{
}

/// A conversation is called by the first request on its lines.
pub proof fn lemma_a_conversation_is_called_by_its_first_request(
    ls: Seq<Seq<char>>,
    from: int,
    i: int,
    t: Seq<char>,
)
    requires
        0 <= from <= i < ls.len(),
        requested(ls[i]) == Some(t),
        forall|j: int| from <= j < i ==> requested(#[trigger] ls[j]) is None,
    ensures
        opening(ls, from) == agents::prompt_title(t),
    decreases i - from,
{
    if from < i {
        assert(requested(ls[from]) is None);
        lemma_a_conversation_is_called_by_its_first_request(ls, from + 1, i, t);
    }
}

} // verus!
