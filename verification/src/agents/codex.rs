//! Codex CLI: one JSONL rollout per session, under `~/.codex/sessions/`.
//!
//! **Two schemas**, and a file is one or the other. They are told apart by their
//! record shapes, which are disjoint, so a backwards reader that cannot see the
//! first line still recognises both:
//!
//! - one opens with `session_meta`, carrying `cwd` and the thread id. Turns are
//!   `event_msg`/`user_message` and `response_item` with an assistant role.
//! - the other opens with the session object itself (`id`, `cwd`, `git`). Turns are
//!   `message` records with a role, and the user's first one has an
//!   `<environment_context>` block stapled to it that nobody typed.
use vstd::prelude::*;

use super::{past_in, show, title_from_prompt, File, Meta, Past, Record, Turn};
use crate::agents;
use crate::conv;
use crate::json;
use crate::paths;
use crate::paths::{has_extension, join};
use crate::text;
use crate::text::{contains, turn};
use crate::tmux;
use crate::tmux::shell_quote;
use crate::transcript;

verus! {

pub open spec fn sessions_in(home: Seq<char>) -> Seq<char> {
    paths::joined(paths::joined(home, ".codex"@), "sessions"@)
}

/// Where the rollouts are, at any depth.
pub fn sessions_dir(home: &str) -> (r: String)
    ensures
        r@ == sessions_in(home@),
{
    let base = join(home, ".codex");
    join(&base, "sessions")
}

/// The rollouts among the files below the sessions directory.
pub open spec fn rollouts(files: Seq<agents::FileView>) -> Seq<agents::PastView>
    decreases files.len(),
{
    if files.len() == 0 {
        Seq::empty()
    } else {
        let rest = rollouts(files.drop_last());
        let f = files.last();
        if !f.is_dir && paths::ends_in(f.path, "jsonl"@) {
            rest.push(agents::in_file("codex"@, f))
        } else {
            rest
        }
    }
}

/// Every rollout there is, at whatever depth it stands.
pub fn discover(files: &Vec<File>) -> (r: Vec<Past>)
    ensures
        agents::pasts_view(r@) == rollouts(agents::files_view(files@)),
{
    let ghost fs = agents::files_view(files@);
    let mut out: Vec<Past> = Vec::new();
    let mut i: usize = 0;
    assert(agents::pasts_view(out@) =~= rollouts(fs.take(0)));
    while i < files.len()
        invariant
            i <= files@.len(),
            fs == agents::files_view(files@),
            agents::pasts_view(out@) == rollouts(fs.take(i as int)),
        decreases files@.len() - i,
    {
        assert(fs.take(i + 1).drop_last() =~= fs.take(i as int));
        assert(fs.take(i + 1).last() == files@[i as int]@);
        if !files[i].is_dir && has_extension(&files[i].path, "jsonl") {
            let p = past_in("codex", &files[i]);
            let ghost was = agents::pasts_view(out@);
            let ghost pv = p@;
            out.push(p);
            assert(agents::pasts_view(out@) =~= was.push(pv));
        }
        i = i + 1;
    }
    assert(fs.take(fs.len() as int) =~= fs);
    out
}

// ---------------------------------------------------------------------------
// One record
// ---------------------------------------------------------------------------
/// The text of a content array, whichever part type it used.
pub open spec fn parts_of(line: Seq<char>) -> Option<Seq<char>> {
    agents::shown(transcript::grabbed(line, "\"text\":\""@, 0))
}

fn text_parts(line: &str) -> (r: Option<String>)
    ensures
        text::opt_string(r) == parts_of(line@),
{
    let mut s = String::new();
    proof {
        reveal_strlit("\"text\":\"");
    }
    let ghost none = s@;
    transcript::grab(line, "\"text\":\"", &mut s);
    assert(s@ =~= transcript::grabbed(line@, "\"text\":\""@, 0));
    show(&s)
}

/// A text without the environment blocks in it.
pub open spec fn without_environment(s: Seq<char>) -> Seq<char> {
    transcript::without_blocks(s, "<environment_context>"@, "</environment_context>"@)
}

/// Codex staples an `<environment_context>` to the first user message, listing the
/// cwd, the shell and the sandbox. Leaving it in would put every machine's paths in
/// every session's index.
pub fn strip_environment(s: &str) -> (r: String)
    ensures
        r@ == without_environment(s@),
{
    proof {
        reveal_strlit("</environment_context>");
    }
    transcript::untag(s, "<environment_context>", "</environment_context>")
}

/// What you typed, as it stands in the record.
pub open spec fn typed(line: Seq<char>) -> Option<Seq<char>> {
    if text::has(line, "\"type\":\"event_msg\""@) && text::has(
        line,
        "\"type\":\"user_message\""@,
    ) {
        match transcript::body_after(line, "\"message\":\""@) {
            Some(b) => Some(transcript::cleaned(b)),
            None => None,
        }
    } else if text::has(line, "\"type\":\"message\""@) && text::has(line, "\"role\":\"user\""@) {
        parts_of(line)
    } else {
        None
    }
}

/// What you typed, in either schema, with the environment block taken off.
pub open spec fn asked(line: Seq<char>) -> Option<Seq<char>> {
    match typed(line) {
        Some(t) => agents::shown(without_environment(t)),
        None => None,
    }
}

pub fn user_text(line: &str) -> (r: Option<String>)
    ensures
        text::opt_string(r) == asked(line@),
{
    let raw = if contains(line, "\"type\":\"event_msg\"") && contains(
        line,
        "\"type\":\"user_message\"",
    ) {
        match transcript::after_key(line, "\"message\":\"") {
            Some(b) => Some(transcript::clean(&b)),
            None => None,
        }
    } else if contains(line, "\"type\":\"message\"") && contains(line, "\"role\":\"user\"") {
        text_parts(line)
    } else {
        None
    };
    match raw {
        Some(t) => {
            let rest = strip_environment(&t);
            show(&rest)
        },
        None => None,
    }
}

/// What the agent said.
pub open spec fn answered(line: Seq<char>) -> Option<Seq<char>> {
    if (text::has(line, "\"type\":\"response_item\""@) || text::has(
        line,
        "\"type\":\"message\""@,
    )) && text::has(line, "\"role\":\"assistant\""@) {
        match parts_of(line) {
            Some(t) => agents::shown(t),
            None => None,
        }
    } else {
        None
    }
}

pub fn assistant_text(line: &str) -> (r: Option<String>)
    ensures
        text::opt_string(r) == answered(line@),
{
    if (contains(line, "\"type\":\"response_item\"") || contains(line, "\"type\":\"message\""))
        && contains(line, "\"role\":\"assistant\"") {
        match text_parts(line) {
            Some(t) => show(&t),
            None => None,
        }
    } else {
        None
    }
}

/// One line of a rollout.
pub struct Line;

impl Record for Line {
    open spec fn says(line: Seq<char>) -> Option<agents::TurnView> {
        match asked(line) {
            Some(t) => Some(agents::TurnView { you: true, text: t }),
            None => match answered(line) {
                Some(t) => Some(agents::TurnView { you: false, text: t }),
                None => None,
            },
        }
    }

    fn turn_in(line: &str) -> (r: Option<Turn>) {
        match user_text(line) {
            Some(t) => Some(Turn { you: true, text: t }),
            None => match assistant_text(line) {
                Some(t) => Some(Turn { you: false, text: t }),
                None => None,
            },
        }
    }
}

// ---------------------------------------------------------------------------
// A whole rollout
// ---------------------------------------------------------------------------
/// How much of a rollout's opening is read: enough for the session record and the
/// first prompt.
pub const HEAD: usize = 0x1_0000;

/// The first directory that a line names.
pub open spec fn first_cwd(ls: Seq<Seq<char>>, i: int) -> Seq<char>
    decreases ls.len() - i,
{
    if i >= ls.len() {
        Seq::empty()
    } else if json::or_empty(json::first_value(ls[i], "cwd"@)).len() > 0 {
        json::or_empty(json::first_value(ls[i], "cwd"@))
    } else {
        first_cwd(ls, i + 1)
    }
}

/// The title that the first prompt with one makes.
pub open spec fn first_title(ls: Seq<Seq<char>>, i: int) -> Seq<char>
    decreases ls.len() - i,
{
    if i >= ls.len() {
        Seq::empty()
    } else {
        match asked(ls[i]) {
            Some(t) => if agents::prompt_title(t).len() > 0 {
                agents::prompt_title(t)
            } else {
                first_title(ls, i + 1)
            },
            None => first_title(ls, i + 1),
        }
    }
}

/// What a row says of the rollout with that opening.
pub open spec fn meta_of(head: Option<Seq<char>>) -> agents::MetaView {
    match head {
        None => agents::no_meta(),
        Some(h) => {
            let ls = text::lines_of(h);
            let title = first_title(ls, 0);
            agents::MetaView {
                cwd: text::turned(first_cwd(ls, 0), '\t', ' '),
                version: Seq::empty(),
                title,
                src: agents::source(title, "p"@),
            }
        },
    }
}

/// The directory and the opening request, both of which live at the TOP of a rollout
/// whichever schema it is.
pub fn meta(head: Option<&str>) -> (r: Meta)
    ensures
        r@ == meta_of(text::opt(head)),
{
    let h: &str = match head {
        None => {
            return Meta::default();
        },
        Some(h) => h,
    };
    let lines = text::lines(h);
    let ghost ls = text::texts(lines@);
    let n: usize = lines.len();
    assert(ls.len() == n);
    let mut cwd = String::new();
    let mut title = String::new();
    let mut i: usize = 0;
    while i < n && (cwd.as_str().is_empty() || title.as_str().is_empty())
        invariant
            i <= n == lines@.len(),
            ls == text::texts(lines@),
            cwd@.len() == 0 ==> first_cwd(ls, i as int) == first_cwd(ls, 0),
            cwd@.len() > 0 ==> cwd@ == first_cwd(ls, 0),
            title@.len() == 0 ==> first_title(ls, i as int) == first_title(ls, 0),
            title@.len() > 0 ==> title@ == first_title(ls, 0),
        decreases n - i,
    {
        assert(ls[i as int] == lines@[i as int]@);
        if cwd.as_str().is_empty() {
            cwd = json::field(&lines[i], "cwd");
        }
        if title.as_str().is_empty() {
            if let Some(t) = user_text(&lines[i]) {
                title = title_from_prompt(&t);
            }
        }
        i = i + 1;
    }
    assert(cwd@ =~= first_cwd(ls, 0));
    assert(title@ =~= first_title(ls, 0));
    let src: &'static str = if title.as_str().is_empty() {
        ""
    } else {
        "p"
    };
    let version = String::new();
    assert(version@ =~= Seq::<char>::empty());
    Meta { cwd: turn(&cwd, '\t', ' '), version, title, src }
}

/// Has the text the shape of a thread id?
pub fn is_uuid(s: &str) -> (r: bool)
    ensures
        r == conv::uuid(s@),
{
    conv::is_uuid(s)
}

/// The thread id that one of the opening lines carries.
pub open spec fn id_in(ls: Seq<Seq<char>>, i: int) -> Option<Seq<char>>
    decreases 4 - i,
{
    if i >= ls.len() || i >= 4 {
        None
    } else {
        let id = json::or_empty(json::first_value(ls[i], "id"@));
        if conv::uuid(id) {
            Some(id)
        } else {
            id_in(ls, i + 1)
        }
    }
}

/// The thread id: from the opening, and from the rollout's name failing that.
pub open spec fn thread_id(key: Seq<char>, head: Option<Seq<char>>) -> Seq<char> {
    let named = json::or_empty(text::after_last_text(paths::stem(key), "rollout-"@));
    match head {
        Some(h) => match id_in(text::lines_of(h), 0) {
            Some(id) => id,
            None => named,
        },
        None => named,
    }
}

/// The thread id, which is what `codex resume` takes.
///
/// Both schemas carry it in their first record. Failing both, the rollout's filename
/// does, which is how Codex's own filesystem fallback finds one.
pub fn id_of(key: &str, head: Option<&str>) -> (r: String)
    ensures
        r@ == thread_id(key@, text::opt(head)),
{
    if let Some(h) = head {
        let lines = text::lines(h);
        let ghost ls = text::texts(lines@);
        let mut i: usize = 0;
        assert(ls.len() == lines@.len());
        while i < lines.len() && i < 4
            invariant
                i <= lines@.len(),
                i <= 4,
                ls == text::texts(lines@),
                ls == text::lines_of(h@),
                head == Some(h),
                id_in(ls, i as int) == id_in(ls, 0),
            decreases 4 - i,
        {
            assert(ls[i as int] == lines@[i as int]@);
            let id = json::field(&lines[i], "id");
            if is_uuid(&id) {
                return id;
            }
            i = i + 1;
        }
    }
    let stem = paths::file_stem(key);
    match text::tail_after_text(&stem, "rollout-") {
        Some(id) => id,
        None => {
            let none = String::new();
            assert(none@ =~= Seq::<char>::empty());
            none
        },
    }
}

/// The searchable prose of what was read of a rollout.
pub fn extract(read: &str) -> (r: String)
    ensures
        r@ == agents::prose_in::<Line>(text::lines_of(read@)),
{
    agents::all_said::<Line>(read)
}

/// The last turns, oldest first.
pub fn turns(lines: &Vec<String>, want: usize) -> (r: Vec<Turn>)
    ensures
        agents::turns_view(r@) == agents::last_said::<Line>(
            text::texts(lines@),
            want as nat,
            None,
        ),
{
    agents::from_lines::<Line>(lines, want, None)
}

pub open spec fn resumed(key: Seq<char>, head: Option<Seq<char>>) -> Result<Seq<char>, Seq<char>> {
    let id = thread_id(key, head);
    if id.len() == 0 {
        Err("that rollout carries no session id to resume by"@)
    } else {
        Ok("command codex resume "@ + tmux::quoted(id))
    }
}

/// `codex resume <id>`.
pub fn resume(key: &str, head: Option<&str>) -> (r: Result<String, String>)
    ensures
        tmux::result_texts(r) == resumed(key@, text::opt(head)),
{
    let id = id_of(key, head);
    if id.as_str().is_empty() {
        return Err("that rollout carries no session id to resume by".to_owned());
    }
    let mut s = "command codex resume ".to_owned();
    let q = shell_quote(&id);
    s.append(&q);
    Ok(s)
}

// ---------------------------------------------------------------------------
// Laws
// ---------------------------------------------------------------------------
/// No environment block survives in what you asked, or in a title made of it.
pub proof fn lemma_no_environment_is_indexed(line: Seq<char>)
    ensures
        asked(line) is Some ==> !text::has(asked(line)->0, "<environment_context>"@),
{
    reveal_strlit("<environment_context>");
    reveal_strlit("</environment_context>");
    if asked(line) is Some {
        let t = typed(line)->0;
        let rest = without_environment(t);
        transcript::lemma_no_block_is_left(
            t,
            "<environment_context>"@,
            "</environment_context>"@,
        );
        text::lemma_trimmed_has_no_more(rest, "<environment_context>"@);
    }
}

/// A rollout in a file is a conversation.
pub proof fn lemma_a_rollout_is_listed(files: Seq<agents::FileView>, i: int) -> (k: int)
    requires
        0 <= i < files.len(),
        paths::ends_in(files[i].path, "jsonl"@),
        !files[i].is_dir,
    ensures
        0 <= k < rollouts(files).len(),
        rollouts(files)[k].agent == "codex"@,
        rollouts(files)[k].key == files[i].path,
        rollouts(files)[k].mtime == files[i].mtime,
    decreases files.len(),
{
    let front = files.drop_last();
    if i == files.len() - 1 {
        rollouts(front).len() as int
    } else {
        assert(front[i] == files[i]);
        lemma_a_rollout_is_listed(front, i)
    }
}

/// Where a rollout was held is what the first of its lines that knows says, and it is
/// resumed by the id that the first of its lines that has one gives.
pub proof fn lemma_the_first_line_that_knows(head: Seq<char>, key: Seq<char>, i: int, v: Seq<char>)
    requires
        0 <= i < text::lines_of(head).len(),
        v.len() > 0,
    ensures
        json::first_value(text::lines_of(head)[i], "cwd"@) == Some(v) && (forall|j: int|
            0 <= j < i ==> json::first_value(#[trigger] text::lines_of(head)[j], "cwd"@) is None)
            ==> meta_of(Some(head)).cwd == text::turned(v, '\t', ' '),
        i < 4 && json::first_value(text::lines_of(head)[i], "id"@) == Some(v) && conv::uuid(v) && (
        forall|j: int|
            0 <= j < i ==> !conv::uuid(
                json::or_empty(json::first_value(#[trigger] text::lines_of(head)[j], "id"@)),
            )) ==> resumed(key, Some(head)) == Ok::<Seq<char>, Seq<char>>(
            "command codex resume "@ + tmux::quoted(v),
        ),
{
    let ls = text::lines_of(head);
    if json::first_value(ls[i], "cwd"@) == Some(v) && (forall|j: int|
        0 <= j < i ==> json::first_value(#[trigger] ls[j], "cwd"@) is None) {
        lemma_first_cwd(ls, 0, i);
    }
    if i < 4 && (forall|j: int|
        0 <= j < i ==> !conv::uuid(json::or_empty(json::first_value(#[trigger] ls[j], "id"@)))) {
        lemma_id_in(ls, 0, i);
    }
}

proof fn lemma_first_cwd(ls: Seq<Seq<char>>, from: int, i: int)
    requires
        0 <= from <= i < ls.len(),
        forall|j: int| from <= j < i ==> json::first_value(#[trigger] ls[j], "cwd"@) is None,
    ensures
        first_cwd(ls, from) == first_cwd(ls, i),
    decreases i - from,
{
    if from < i {
        assert(json::first_value(ls[from], "cwd"@) is None);
        lemma_first_cwd(ls, from + 1, i);
    }
}

proof fn lemma_id_in(ls: Seq<Seq<char>>, from: int, i: int)
    requires
        0 <= from <= i < ls.len(),
        i < 4,
        forall|j: int|
            from <= j < i ==> !conv::uuid(
                json::or_empty(json::first_value(#[trigger] ls[j], "id"@)),
            ),
    ensures
        id_in(ls, from) == id_in(ls, i),
    decreases i - from,
{
    if from < i {
        assert(!conv::uuid(json::or_empty(json::first_value(ls[from], "id"@))));
        lemma_id_in(ls, from + 1, i);
    }
}

/// What a line says is the user's exactly where the user typed it, and the agent's where
/// it answered.
pub proof fn lemma_who_said_it(line: Seq<char>)
    ensures
        ({
            let said = <Line as agents::Record>::says(line);
            &&& text::has(line, "\"type\":\"event_msg\""@) && text::has(
                line,
                "\"type\":\"user_message\""@,
            ) && !text::has(line, "\"role\":\"assistant\""@) && said is Some ==> said->0.you
            &&& !text::has(line, "\"type\":\"event_msg\""@) && !text::has(
                line,
                "\"role\":\"user\""@,
            ) && said is Some ==> !said->0.you && text::has(line, "\"role\":\"assistant\""@)
        }),
{
}

} // verus!
