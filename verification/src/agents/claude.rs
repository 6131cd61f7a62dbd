//! The agent whose sessions can be matched to a live pane: one JSONL transcript per
//! conversation, under `projects/<project>/<session-id>.jsonl`.
//!
//! Its sessions leave the past list when one is open, which no other agent's can.
use vstd::prelude::*;

use super::{past_in, title_from_prompt, File, Meta, Past, Record, Turn};
use crate::agents;
use crate::json;
use crate::paths;
use crate::paths::has_extension;
use crate::text;
use crate::text::{contains, replace, turn};
use crate::tmux;
use crate::tmux::shell_quote;
use crate::transcript;

verus! {

/// One line of such a transcript.
pub struct Line;

impl Record for Line {
    open spec fn says(line: Seq<char>) -> Option<agents::TurnView> {
        match transcript::said(line) {
            Some((you, text)) => Some(agents::TurnView { you, text }),
            None => None,
        }
    }

    fn turn_in(line: &str) -> (r: Option<Turn>) {
        match transcript::said_in(line) {
            Some((you, text)) => Some(Turn { you, text }),
            None => None,
        }
    }
}

/// The conversations among the files of the project directories.
pub open spec fn conversations(agent: Seq<char>, files: Seq<agents::FileView>) -> Seq<
    agents::PastView,
>
    decreases files.len(),
{
    if files.len() == 0 {
        Seq::empty()
    } else {
        let rest = conversations(agent, files.drop_last());
        let f = files.last();
        if paths::ends_in(f.path, "jsonl"@) && !f.is_dir {
            rest.push(agents::in_file(agent, f))
        } else {
            rest
        }
    }
}

/// Every conversation on disk: the transcripts sitting directly in a project
/// directory, and nothing deeper.
///
/// **Depth is what tells a conversation from a subagent.** A subagent writes further
/// down, and its records are sidechains of a conversation that is itself in the
/// list. So `files` are those of the project directories themselves.
pub fn discover(agent: &str, files: &Vec<File>) -> (r: Vec<Past>)
    ensures
        agents::pasts_view(r@) == conversations(agent@, agents::files_view(files@)),
{
    let ghost fs = agents::files_view(files@);
    let mut out: Vec<Past> = Vec::new();
    let mut i: usize = 0;
    assert(agents::pasts_view(out@) =~= conversations(agent@, fs.take(0)));
    while i < files.len()
        invariant
            i <= files@.len(),
            fs == agents::files_view(files@),
            agents::pasts_view(out@) == conversations(agent@, fs.take(i as int)),
        decreases files@.len() - i,
    {
        assert(fs.take(i + 1).drop_last() =~= fs.take(i as int));
        assert(fs.take(i + 1).last() == files@[i as int]@);
        if has_extension(&files[i].path, "jsonl") && !files[i].is_dir {
            let p = past_in(agent, &files[i]);
            let ghost was = agents::pasts_view(out@);
            let ghost pv = p@;
            out.push(p);
            assert(agents::pasts_view(out@) =~= was.push(pv));
        }
        i = i + 1;
    }
    assert(fs.take(fs.len() as int) =~= fs);
    out
}

// ---------------------------------------------------------------------------
// What a row says
// ---------------------------------------------------------------------------
/// How far back it is read, in bytes. Every one of the three values wanted is
/// restated within a few records of the end.
pub const TAIL: u64 = 0x8_0000;

/// What has been read so far, going back.
#[verifier::ext_equal]
pub struct Gathered {
    pub cwd: Seq<char>,
    pub version: Seq<char>,
    pub custom: Seq<char>,
    pub automatic: Seq<char>,
    pub prompt: Seq<char>,
}

pub open spec fn nothing() -> Gathered {
    Gathered {
        cwd: Seq::empty(),
        version: Seq::empty(),
        custom: Seq::empty(),
        automatic: Seq::empty(),
        prompt: Seq::empty(),
    }
}

/// A string field of a record, or the empty text.
pub open spec fn value(line: Seq<char>, key: Seq<char>) -> Seq<char> {
    json::or_empty(json::first_value(line, key))
}

/// What is known already, or what the record says.
pub open spec fn known_or(known: Seq<char>, here: bool, v: Seq<char>) -> Seq<char> {
    if known.len() == 0 && here {
        v
    } else {
        known
    }
}

pub open spec fn with_line(g: Gathered, line: Seq<char>) -> Gathered {
    Gathered {
        cwd: known_or(g.cwd, true, value(line, "cwd"@)),
        version: known_or(g.version, true, value(line, "version"@)),
        custom: known_or(
            g.custom,
            text::has(line, "\"type\":\"custom-title\""@),
            value(line, "customTitle"@),
        ),
        automatic: known_or(
            g.automatic,
            text::has(line, "\"type\":\"ai-title\""@),
            value(line, "aiTitle"@),
        ),
        prompt: known_or(
            g.prompt,
            text::has(line, "\"type\":\"last-prompt\""@),
            value(line, "lastPrompt"@),
        ),
    }
}

pub open spec fn complete(g: Gathered) -> bool {
    g.cwd.len() > 0 && g.version.len() > 0 && g.custom.len() > 0
}

/// Reading back from `to`, having read `n` lines: until all is known, or the lines
/// run out, or a transcript that never says has been dug in far enough.
pub open spec fn gathered(ls: Seq<Seq<char>>, to: int, n: int, g: Gathered) -> Gathered
    decreases to,
{
    if to <= 0 {
        g
    } else {
        let next = with_line(g, ls[to - 1]);
        if complete(next) || n > 400 {
            next
        } else {
            gathered(ls, to - 1, n + 1, next)
        }
    }
}

/// A prompt with its line breaks and tabs as spaces.
pub open spec fn one_line(prompt: Seq<char>) -> Seq<char> {
    text::replaced(
        text::replaced(text::replaced(prompt, "\\n"@, " "@), "\\r"@, " "@),
        "\\t"@,
        " "@,
    )
}

pub open spec fn described(g: Gathered) -> agents::MetaView {
    let recorded = if g.custom.len() > 0 {
        g.custom
    } else {
        g.automatic
    };
    let title = if recorded.len() > 0 {
        recorded
    } else if g.prompt.len() > 0 {
        agents::prompt_title(one_line(g.prompt))
    } else {
        Seq::empty()
    };
    agents::MetaView {
        cwd: text::turned(g.cwd, '\t', ' '),
        version: text::turned(g.version, '\t', ' '),
        title: text::turned(title, '\t', ' '),
        src: if recorded.len() > 0 {
            "t"@
        } else if g.prompt.len() > 0 {
            "p"@
        } else {
            ""@
        },
    }
}

/// What a row says of the transcript whose last lines these are.
pub open spec fn meta_of(ls: Seq<Seq<char>>) -> agents::MetaView {
    described(gathered(ls, ls.len() as int, 0, nothing()))
}

fn take_field(known: &mut String, line: &str, key: &str)
    ensures
        final(known)@ == known_or(old(known)@, true, value(line@, key@)),
{
    if known.as_str().is_empty() {
        *known = json::field(line, key);
    }
}

fn take_titled(known: &mut String, line: &str, mark: &str, key: &str)
    ensures
        final(known)@ == known_or(old(known)@, text::has(line@, mark@), value(line@, key@)),
{
    if known.as_str().is_empty() && contains(line, mark) {
        *known = json::field(line, key);
    }
}

/// The directory, the version and the title, read BACKWARDS and stopped as soon as
/// all three are in hand.
///
/// All three are re-stated on recent records, so a large conversation costs no more
/// than a small one. The two kinds of title interleave for the whole life of a
/// session, so the one you gave is preferred and the other kept as a fallback; a
/// session that ended before it was ever titled goes by the prompt it was last
/// given.
pub fn meta(lines: &Vec<String>) -> (r: Meta)
    ensures
        r@ == meta_of(text::texts(lines@)),
{
    let ghost ls = text::texts(lines@);
    let mut cwd = String::new();
    let mut version = String::new();
    let mut custom = String::new();
    let mut automatic = String::new();
    let mut prompt = String::new();
    let total: usize = lines.len();
    let mut to: usize = total;
    let mut n: usize = 0;
    let mut done = false;
    let ghost all = gathered(ls, ls.len() as int, 0, nothing());
    let ghost mut g = nothing();
    assert(g =~= Gathered {
        cwd: cwd@,
        version: version@,
        custom: custom@,
        automatic: automatic@,
        prompt: prompt@,
    });
    while to > 0 && !done
        invariant
            to <= total == lines@.len(),
            n <= 402,
            !done ==> n == total - to,
            !done ==> n <= 401,
            ls == text::texts(lines@),
            g == (Gathered {
                cwd: cwd@,
                version: version@,
                custom: custom@,
                automatic: automatic@,
                prompt: prompt@,
            }),
            if done {
                g == all
            } else {
                gathered(ls, to as int, n as int, g) == all
            },
        decreases to,
    {
        let line = &lines[to - 1];
        assert(ls[to - 1] == line@);
        take_field(&mut cwd, line, "cwd");
        take_field(&mut version, line, "version");
        take_titled(&mut custom, line, "\"type\":\"custom-title\"", "customTitle");
        take_titled(&mut automatic, line, "\"type\":\"ai-title\"", "aiTitle");
        take_titled(&mut prompt, line, "\"type\":\"last-prompt\"", "lastPrompt");
        proof {
            g = with_line(g, line@);
        }
        done = (!cwd.as_str().is_empty() && !version.as_str().is_empty()
            && !custom.as_str().is_empty()) || n > 400;
        to = to - 1;
        n = n + 1;
    }
    assert(g == all);
    let recorded = if custom.as_str().is_empty() {
        automatic
    } else {
        custom
    };
    let none = String::new();
    assert(none@ =~= Seq::<char>::empty());
    let (title, src): (String, &'static str) = if !recorded.as_str().is_empty() {
        (recorded, "t")
    } else if !prompt.as_str().is_empty() {
        proof {
            reveal_strlit("\\n");
            reveal_strlit("\\r");
            reveal_strlit("\\t");
        }
        let a = replace(&prompt, "\\n", " ");
        let b = replace(&a, "\\r", " ");
        let c = replace(&b, "\\t", " ");
        (title_from_prompt(&c), "p")
    } else {
        (none, "")
    };
    Meta {
        cwd: turn(&cwd, '\t', ' '),
        version: turn(&version, '\t', ' '),
        title: turn(&title, '\t', ' '),
        src,
    }
}

/// The searchable prose of what was read of a transcript.
pub fn extract(read: &str) -> (r: String)
    ensures
        r@ == agents::prose_in::<Line>(text::lines_of(read@)),
{
    agents::all_said::<Line>(read)
}

/// How many of the last lines a reader looks at before it gives up.
pub const REACH: usize = 801;

/// The last turns, oldest first.
pub fn turns(lines: &Vec<String>, want: usize) -> (r: Vec<Turn>)
    ensures
        agents::turns_view(r@) == agents::last_said::<Line>(
            text::texts(lines@),
            want as nat,
            Some(REACH),
        ),
{
    agents::from_lines::<Line>(lines, want, Some(REACH))
}

pub open spec fn resume_line(agent: Seq<char>, key: Seq<char>) -> Seq<char> {
    "command "@ + agent + " --resume "@ + tmux::quoted(key)
}

/// **Through `command`**, so no shell alias fires and the pane's argv can be read
/// back later.
pub fn resume(agent: &str, key: &str) -> (r: String)
    ensures
        r@ == resume_line(agent@, key@),
{
    let mut s = "command ".to_owned();
    s.append(agent);
    s.append(" --resume ");
    let q = shell_quote(key);
    s.append(&q);
    s
}

/// No tab is left in a field that is kept: one would shift every field after it.
pub proof fn lemma_no_tab_is_kept(ls: Seq<Seq<char>>)
    ensures
        text::free_of(meta_of(ls).cwd, '\t'),
        text::free_of(meta_of(ls).version, '\t'),
        text::free_of(meta_of(ls).title, '\t'),
{
}

/// A file of a project that is a transcript is a conversation.
pub proof fn lemma_a_conversation_is_listed(
    agent: Seq<char>,
    files: Seq<agents::FileView>,
    i: int,
) -> (k: int)
    requires
        0 <= i < files.len(),
        paths::ends_in(files[i].path, "jsonl"@),
        !files[i].is_dir,
    ensures
        0 <= k < conversations(agent, files).len(),
        conversations(agent, files)[k].agent == agent,
        conversations(agent, files)[k].key == files[i].path,
        conversations(agent, files)[k].mtime == files[i].mtime,
    decreases files.len(),
{
    let front = files.drop_last();
    if i == files.len() - 1 {
        conversations(agent, front).len() as int
    } else {
        assert(front[i] == files[i]);
        lemma_a_conversation_is_listed(agent, front, i)
    }
}

proof fn lemma_what_is_known_stays(ls: Seq<Seq<char>>, to: int, n: int, g: Gathered)
    ensures
        g.cwd.len() > 0 ==> gathered(ls, to, n, g).cwd == g.cwd,
        g.version.len() > 0 ==> gathered(ls, to, n, g).version == g.version,
        g.custom.len() > 0 ==> gathered(ls, to, n, g).custom == g.custom,
        g.automatic.len() > 0 ==> gathered(ls, to, n, g).automatic == g.automatic,
        g.prompt.len() > 0 ==> gathered(ls, to, n, g).prompt == g.prompt,
    decreases to,
{
    if to > 0 {
        let next = with_line(g, ls[to - 1]);
        if !(complete(next) || n > 400) {
            lemma_what_is_known_stays(ls, to - 1, n + 1, next);
        }
    }
}

/// What the last line of a transcript says of the conversation stands: where it is, which
/// version it runs, and the title that was given to it.
pub proof fn lemma_the_last_line_stands(ls: Seq<Seq<char>>, v: Seq<char>)
    requires
        ls.len() > 0,
        v.len() > 0,
    ensures
        json::first_value(ls.last(), "cwd"@) == Some(v) ==> meta_of(ls).cwd == text::turned(
            v,
            '\t',
            ' ',
        ),
        json::first_value(ls.last(), "version"@) == Some(v) ==> meta_of(ls).version
            == text::turned(v, '\t', ' '),
        text::has(ls.last(), "\"type\":\"custom-title\""@) && json::first_value(
            ls.last(),
            "customTitle"@,
        ) == Some(v) ==> meta_of(ls).title == text::turned(v, '\t', ' ') && meta_of(ls).src
            == "t"@,
{
    let n = ls.len() as int;
    let next = with_line(nothing(), ls[n - 1]);
    lemma_what_is_known_stays(ls, n - 1, 1, next);
}

/// A title that was given outranks one that was found, and either outranks the last
/// prompt, which is only what the conversation is called for want of one.
pub proof fn lemma_a_given_title_outranks(g: Gathered)
    ensures
        g.custom.len() > 0 ==> described(g).title == text::turned(g.custom, '\t', ' ') && described(
            g,
        ).src == "t"@,
        g.custom.len() == 0 && g.automatic.len() > 0 ==> described(g).title == text::turned(
            g.automatic,
            '\t',
            ' ',
        ) && described(g).src == "t"@,
        g.custom.len() == 0 && g.automatic.len() == 0 && g.prompt.len() > 0 ==> described(g).src
            == "p"@ && described(g).title == text::turned(
            agents::prompt_title(one_line(g.prompt)),
            '\t',
            ' ',
        ),
        g.custom.len() == 0 && g.automatic.len() == 0 && g.prompt.len() == 0 ==> described(
            g,
        ).title.len() == 0,
{
}

} // verus!
