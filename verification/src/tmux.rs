//! Driving tmux: the command lines, and rendering a session for the preview.
//!
//! Every command line is a list of arguments rather than a formatted string: a
//! pane id, a directory or a transcript path goes in as one argument and can
//! never be re-split by a shell.
use vstd::prelude::*;

use crate::agents;
use crate::agents::Turn;
use crate::index;
use crate::index::{Hit, Query, Session};
use crate::text;
use crate::text::{alnum, chars_of, lines, same, take_chars};

verus! {

// ---------------------------------------------------------------------------
// Quoting
// ---------------------------------------------------------------------------
/// A character no shell acts on.
pub open spec fn inert(c: char) -> bool {
    text::is_alnum(c) || c == '@' || c == '%' || c == '+' || c == '=' || c == ':' || c == ','
        || c == '.' || c == '/' || c == '-' || c == '_'
}

pub open spec fn all_inert(s: Seq<char>) -> bool {
    forall|i: int| 0 <= i < s.len() ==> inert(#[trigger] s[i])
}

/// What one character becomes inside single quotes: itself, or for a quote the
/// end of the quotes, an escaped quote, and their beginning again.
pub open spec fn escaped_char(c: char) -> Seq<char> {
    if c == '\'' {
        "'\\''"@
    } else {
        seq![c]
    }
}

pub open spec fn escaped(s: Seq<char>) -> Seq<char>
    decreases s.len(),
{
    if s.len() == 0 {
        Seq::empty()
    } else {
        escaped_char(s[0]) + escaped(s.skip(1))
    }
}

/// A text as one word of a shell's command line.
pub open spec fn quoted(s: Seq<char>) -> Seq<char> {
    if s.len() > 0 && all_inert(s) {
        s
    } else {
        "'"@ + escaped(s) + "'"@
    }
}

/// The one word a shell reads `q` as, or nothing where it would read it as
/// anything else: a quote opened and never closed, or a character outside quotes
/// that ends the word or means something.
pub open spec fn shell_word(q: Seq<char>, inside: bool) -> Option<Seq<char>>
    decreases q.len(),
{
    if q.len() == 0 {
        if inside {
            None
        } else {
            Some(Seq::empty())
        }
    } else if q[0] == '\'' {
        shell_word(q.skip(1), !inside)
    } else if inside {
        with_first(q[0], shell_word(q.skip(1), true))
    } else if q[0] == '\\' {
        if q.len() < 2 {
            None
        } else {
            with_first(q[1], shell_word(q.skip(2), false))
        }
    } else if inert(q[0]) {
        with_first(q[0], shell_word(q.skip(1), false))
    } else {
        None
    }
}

pub open spec fn with_first(c: char, rest: Option<Seq<char>>) -> Option<Seq<char>> {
    match rest {
        Some(s) => Some(seq![c] + s),
        None => None,
    }
}

fn inert_char(c: char) -> (r: bool)
    ensures
        r == inert(c),
{
    alnum(c) || c == '@' || c == '%' || c == '+' || c == '=' || c == ':' || c == ',' || c == '.'
        || c == '/' || c == '-' || c == '_'
}

/// Single-quote a string for the shell tmux will hand it to, for anything
/// awkward: wrap it, and end-quote around each embedded quote.
pub fn shell_quote(s: &str) -> (r: String)
    ensures
        r@ == quoted(s@),
{
    let v = chars_of(s);
    let n: usize = v.len();
    let mut plain = n > 0;
    let mut i: usize = 0;
    while i < n && plain
        invariant
            i <= n == v@.len(),
            v@ == s@,
            plain ==> n > 0 && forall|j: int| 0 <= j < i ==> inert(#[trigger] s@[j]),
            !plain ==> !(s@.len() > 0 && all_inert(s@)),
        decreases n - i,
    {
        if !inert_char(v[i]) {
            assert(!inert(s@[i as int]));
            plain = false;
        }
        i = i + 1;
    }
    if plain {
        return s.to_owned();
    }
    let mut out = "'".to_owned();
    let ghost open = out@;
    let mut k: usize = 0;
    assert(v@.skip(0) =~= v@);
    assert(out@ + escaped(v@.skip(0)) == open + escaped(v@));
    while k < n
        invariant
            k <= n == v@.len(),
            out@ + escaped(v@.skip(k as int)) == open + escaped(v@),
        decreases n - k,
    {
        let ghost before = out@;
        let ghost rest = v@.skip(k as int);
        assert(rest[0] == v@[k as int]);
        assert(rest.skip(1) =~= v@.skip(k + 1));
        if v[k] == '\'' {
            out.append("'\\''");
        } else {
            out.push(v[k]);
            assert(out@ =~= before + seq![v@[k as int]]);
        }
        assert(out@ + escaped(v@.skip(k + 1)) =~= before + (escaped_char(v@[k as int]) + escaped(
            v@.skip(k + 1),
        )));
        k = k + 1;
    }
    assert(v@.skip(n as int).len() == 0);
    assert(out@ + Seq::<char>::empty() =~= out@);
    out.append("'");
    out
}

proof fn lemma_inert_word(s: Seq<char>)
    requires
        all_inert(s),
    ensures
        shell_word(s, false) == Some(s),
    decreases s.len(),
{
    if s.len() > 0 {
        assert(inert(s[0]));
        assert forall|i: int| 0 <= i < s.skip(1).len() implies inert(#[trigger] s.skip(1)[i]) by {
            assert(inert(s[i + 1]));
        }
        lemma_inert_word(s.skip(1));
        assert(seq![s[0]] + s.skip(1) =~= s);
    }
}

proof fn lemma_escaped_word(s: Seq<char>)
    ensures
        shell_word(escaped(s) + "'"@, true) == Some(s),
    decreases s.len(),
{
    reveal_strlit("'");
    reveal_strlit("'\\''");
    let close = "'"@;
    if s.len() == 0 {
        let q = escaped(s) + close;
        assert(q =~= close);
        assert(q.skip(1).len() == 0);
        assert(shell_word(q.skip(1), false) == Some(Seq::<char>::empty()));
        assert(s =~= Seq::<char>::empty());
    } else {
        let rest = s.skip(1);
        lemma_escaped_word(rest);
        let inner = escaped(rest) + close;
        let q = escaped(s) + close;
        assert(seq![s[0]] + rest =~= s);
        if s[0] == '\'' {
            assert(q =~= "'\\''"@ + inner);
            let q1 = q.skip(1);
            assert(q[0] == '\'');
            assert(q1[0] == '\\');
            assert(q1[1] == '\'');
            let q2 = q1.skip(2);
            assert(q2[0] == '\'');
            assert(q2.skip(1) =~= inner);
            assert(shell_word(q2, false) == Some(rest));
            assert(shell_word(q1, false) == Some(seq!['\''] + rest));
        } else {
            assert(q =~= seq![s[0]] + inner);
            assert(q[0] == s[0]);
            assert(q.skip(1) =~= inner);
        }
    }
}

/// A shell reads a quoted text back as one word: the text itself, whatever is in
/// it.
pub proof fn lemma_quoting_is_read_back(s: Seq<char>)
    ensures
        shell_word(quoted(s), false) == Some(s),
{
    if s.len() > 0 && all_inert(s) {
        lemma_inert_word(s);
    } else {
        reveal_strlit("'");
        lemma_escaped_word(s);
        let q = quoted(s);
        assert(q =~= "'"@ + (escaped(s) + "'"@));
        assert(q[0] == '\'');
        assert(q.skip(1) =~= escaped(s) + "'"@);
    }
}

/// A command or a refusal, as texts.
pub open spec fn result_texts(r: Result<String, String>) -> Result<Seq<char>, Seq<char>> {
    match r {
        Ok(s) => Ok(s@),
        Err(e) => Err(e@),
    }
}

// ---------------------------------------------------------------------------
// Command lines
// ---------------------------------------------------------------------------
/// The arguments that print one pane's screen WITH its colours, which is what a
/// preview of a live agent session has to show.
pub fn capture_coloured(pane: &str) -> (r: Vec<String>)
    ensures
        text::texts(r@) == seq!["capture-pane"@, "-ep"@, "-t"@, pane@],
{
    let mut v: Vec<String> = Vec::new();
    v.push("capture-pane".to_owned());
    v.push("-ep".to_owned());
    v.push("-t".to_owned());
    v.push(pane.to_owned());
    assert(text::texts(v@) =~= seq!["capture-pane"@, "-ep"@, "-t"@, pane@]);
    v
}

/// The arguments that print one pane's screen.
pub fn capture(pane: &str) -> (r: Vec<String>)
    ensures
        text::texts(r@) == seq!["capture-pane"@, "-p"@, "-t"@, pane@],
{
    let mut v: Vec<String> = Vec::new();
    v.push("capture-pane".to_owned());
    v.push("-p".to_owned());
    v.push("-t".to_owned());
    v.push(pane.to_owned());
    assert(text::texts(v@) =~= seq!["capture-pane"@, "-p"@, "-t"@, pane@]);
    v
}

/// The arguments that ask a pane for something.
pub open spec fn asking(pane: Seq<char>, what: Seq<char>) -> Seq<Seq<char>> {
    seq!["display-message"@, "-p"@, "-t"@, pane, what]
}

fn ask_pane(pane: &str, what: &str) -> (r: Vec<String>)
    ensures
        text::texts(r@) == asking(pane@, what@),
{
    let mut v: Vec<String> = Vec::new();
    v.push("display-message".to_owned());
    v.push("-p".to_owned());
    v.push("-t".to_owned());
    v.push(pane.to_owned());
    v.push(what.to_owned());
    assert(text::texts(v@) =~= asking(pane@, what@));
    v
}

/// Where a switch has got to: what tmux is to be asked or told next.
#[derive(Debug, PartialEq, Eq)]
pub enum Switch {
    /// Ask for the pane's session.
    Session(Vec<String>),
    /// Tell it this, and go on whatever it says.
    Tell(Vec<String>),
    /// Ask whether the window is zoomed.
    Zoomed(Vec<String>),
    /// Tell it this; whether it obeys is whether the switch was made.
    Last(Vec<String>),
    /// The pane has gone, and the client stays where it is.
    Refused,
}

#[verifier::ext_equal]
pub enum SwitchView {
    Session(Seq<Seq<char>>),
    Tell(Seq<Seq<char>>),
    Zoomed(Seq<Seq<char>>),
    Last(Seq<Seq<char>>),
    Refused,
}

impl View for Switch {
    type V = SwitchView;

    open spec fn view(&self) -> SwitchView {
        match self {
            Switch::Session(a) => SwitchView::Session(text::texts(a@)),
            Switch::Tell(a) => SwitchView::Tell(text::texts(a@)),
            Switch::Zoomed(a) => SwitchView::Zoomed(text::texts(a@)),
            Switch::Last(a) => SwitchView::Last(text::texts(a@)),
            Switch::Refused => SwitchView::Refused,
        }
    }
}

/// The steps of a switch, in order: ask for the session, select the window, select
/// the pane, zoom it if it is not zoomed, and move the client. `session` is what the
/// first answer was, and `zoomed` what the other was.
pub open spec fn switching(
    pane: Seq<char>,
    zoom: bool,
    step: int,
    session: Option<Seq<char>>,
    zoomed: Option<Seq<char>>,
) -> SwitchView {
    if step == 0 {
        SwitchView::Session(asking(pane, "#{session_name}"@))
    } else {
        match session {
            None => SwitchView::Refused,
            Some(s) => if s.len() == 0 {
                SwitchView::Refused
            } else if step == 1 {
                SwitchView::Tell(seq!["select-window"@, "-t"@, pane])
            } else if step == 2 {
                SwitchView::Tell(seq!["select-pane"@, "-t"@, pane])
            } else if step == 3 && zoom {
                SwitchView::Zoomed(asking(pane, "#{window_zoomed_flag}"@))
            } else if step == 4 && zoom && zoomed != Some("1"@) {
                SwitchView::Tell(seq!["resize-pane"@, "-Z"@, "-t"@, pane])
            } else {
                SwitchView::Last(seq!["switch-client"@, "-t"@, s])
            },
        }
    }
}

fn three(a: &str, b: &str, c: &str) -> (r: Vec<String>)
    ensures
        text::texts(r@) == seq![a@, b@, c@],
{
    let mut v: Vec<String> = Vec::new();
    v.push(a.to_owned());
    v.push(b.to_owned());
    v.push(c.to_owned());
    assert(text::texts(v@) =~= seq![a@, b@, c@]);
    v
}

/// Move the attached client to a pane, and zoom it: what to ask or tell tmux at a
/// step, given what it has answered so far.
///
/// The pane's session is asked for first, and a pane that cannot answer is a refusal
/// rather than a best effort: switching a client to a session that is not there
/// leaves it somewhere nobody chose.
///
/// `resize-pane -Z` TOGGLES, so a pane that is already zoomed must be left alone or
/// the zoom is undone by the very key that asked for it.
pub fn switch_local(
    pane: &str,
    zoom: bool,
    step: usize,
    session: Option<&str>,
    zoomed: Option<&str>,
) -> (r: Switch)
    ensures
        r@ == switching(pane@, zoom, step as int, text::opt(session), text::opt(zoomed)),
{
    if step == 0 {
        return Switch::Session(ask_pane(pane, "#{session_name}"));
    }
    let s: &str = match session {
        None => {
            return Switch::Refused;
        },
        Some(s) => s,
    };
    if s.is_empty() {
        return Switch::Refused;
    }
    if step == 1 {
        return Switch::Tell(three("select-window", "-t", pane));
    }
    if step == 2 {
        return Switch::Tell(three("select-pane", "-t", pane));
    }
    if step == 3 && zoom {
        return Switch::Zoomed(ask_pane(pane, "#{window_zoomed_flag}"));
    }
    if step == 4 && zoom {
        let already = match zoomed {
            Some(z) => same(z, "1"),
            None => false,
        };
        if !already {
            let mut v: Vec<String> = Vec::new();
            v.push("resize-pane".to_owned());
            v.push("-Z".to_owned());
            v.push("-t".to_owned());
            v.push(pane.to_owned());
            assert(text::texts(v@) =~= seq!["resize-pane"@, "-Z"@, "-t"@, pane@]);
            return Switch::Tell(v);
        }
    }
    Switch::Last(three("switch-client", "-t", s))
}

/// The command that opens a past conversation again, or why it is not opened.
pub open spec fn reopened(
    agent: Seq<char>,
    which: Seq<char>,
    key: Seq<char>,
    cwd: Seq<char>,
    key_is_file: bool,
    cwd_is_dir: bool,
    opening: Option<Seq<char>>,
) -> Result<Seq<Seq<char>>, Seq<char>> {
    if key.len() > 0 && key[0] == '/' && !key_is_file {
        Err("that conversation is no longer on disk"@)
    } else {
        match agents::resumed(agent, which, key, opening) {
            Err(e) => Err(e),
            Ok(cmd) => if cwd.len() == 0 {
                Err("its directory is gone, so there is nowhere to resume it"@)
            } else if !cwd_is_dir {
                Err(cwd + " is gone, so there is nowhere to resume it"@)
            } else {
                Ok(seq!["new-window"@, "-c"@, cwd, cmd])
            },
        }
    }
}

pub open spec fn result_args(r: Result<Vec<String>, String>) -> Result<Seq<Seq<char>>, Seq<char>> {
    match r {
        Ok(v) => Ok(text::texts(v@)),
        Err(e) => Err(e@),
    }
}

/// Open a past conversation again, in its own tool, in the directory it ran in: the
/// arguments for tmux, or why not.
///
/// It refuses when the directory has gone rather than falling back to `$HOME`: a
/// session resumed in the wrong place writes its history into a different project,
/// silently. A refusal of the agent's own comes first, because it is about the
/// conversation.
pub fn resume_dead(
    agent: &str,
    which: &str,
    key: &str,
    cwd: &str,
    key_is_file: bool,
    cwd_is_dir: bool,
    opening: Option<&str>,
) -> (r: Result<Vec<String>, String>)
    ensures
        result_args(r) == reopened(
            agent@,
            which@,
            key@,
            cwd@,
            key_is_file,
            cwd_is_dir,
            text::opt(opening),
        ),
{
    let k = chars_of(key);
    if k.len() > 0 && k[0] == '/' && !key_is_file {
        return Err("that conversation is no longer on disk".to_owned());
    }
    let cmd = match agents::resume(agent, which, key, opening) {
        Err(e) => {
            return Err(e);
        },
        Ok(cmd) => cmd,
    };
    if cwd.is_empty() {
        return Err("its directory is gone, so there is nowhere to resume it".to_owned());
    }
    if !cwd_is_dir {
        let mut e = cwd.to_owned();
        e.append(" is gone, so there is nowhere to resume it");
        return Err(e);
    }
    let mut v: Vec<String> = Vec::new();
    v.push("new-window".to_owned());
    v.push("-c".to_owned());
    v.push(cwd.to_owned());
    let ghost c = cmd@;
    v.push(cmd);
    assert(text::texts(v@) =~= seq!["new-window"@, "-c"@, cwd@, c]);
    Ok(v)
}

/// The session with that agent and key, as the first of the cache is.
pub open spec fn cached_at(
    es: Seq<index::SessionView>,
    agent: Seq<char>,
    key: Seq<char>,
    i: int,
) -> Option<int>
    decreases es.len() - i,
{
    if i >= es.len() {
        None
    } else if es[i].agent == agent && es[i].key == key {
        Some(i)
    } else {
        cached_at(es, agent, key, i + 1)
    }
}

fn find_cached(es: &Vec<Session>, agent: &str, key: &str) -> (r: Option<usize>)
    ensures
        match r {
            Some(i) => cached_at(index::sessions_view(es@), agent@, key@, 0) == Some(i as int) && i
                < es@.len(),
            None => cached_at(index::sessions_view(es@), agent@, key@, 0) is None,
        },
{
    let ghost all = index::sessions_view(es@);
    let mut i: usize = 0;
    while i < es.len()
        invariant
            i <= es@.len(),
            all == index::sessions_view(es@),
            cached_at(all, agent@, key@, i as int) == cached_at(all, agent@, key@, 0),
        decreases es@.len() - i,
    {
        assert(all[i as int] == es@[i as int]@);
        if same(&es[i].agent, agent) && same(&es[i].key, key) {
            return Some(i);
        }
        i = i + 1;
    }
    None
}

/// What the cache says of a conversation's directory and version, as far as it does.
pub open spec fn cached_cwd(es: Seq<index::SessionView>, agent: Seq<char>, key: Seq<char>) -> Seq<
    char,
> {
    match cached_at(es, agent, key, 0) {
        Some(i) => es[i].cwd,
        None => Seq::empty(),
    }
}

pub open spec fn cached_version(
    es: Seq<index::SessionView>,
    agent: Seq<char>,
    key: Seq<char>,
) -> Seq<char> {
    match cached_at(es, agent, key, 0) {
        Some(i) => es[i].version,
        None => Seq::empty(),
    }
}

/// The directory a past conversation ran in, off the sessions cache.
pub fn past_cwd(es: &Vec<Session>, agent: &str, key: &str) -> (r: String)
    ensures
        r@ == cached_cwd(index::sessions_view(es@), agent@, key@),
{
    match find_cached(es, agent, key) {
        Some(i) => {
            assert(index::sessions_view(es@)[i as int] == es@[i as int]@);
            es[i].cwd.clone()
        },
        None => {
            let none = String::new();
            assert(none@ =~= Seq::<char>::empty());
            none
        },
    }
}

// ---------------------------------------------------------------------------
// A preview for a terminal
// ---------------------------------------------------------------------------
/// The rule under the preview's header.
pub const RULE: &'static str = "────────────────────────────────────────────";

/// One hit: the term itself in reverse video, its context grey.
pub open spec fn hit_line(h: index::HitView) -> Seq<char> {
    "\x1b[90m"@ + index::cut_mark(h.cut_left) + h.before + "\x1b[0m\x1b[7m"@ + h.term
        + "\x1b[0m\x1b[90m"@ + h.after + index::cut_mark(h.cut_right) + "\x1b[0m\n"@
}

pub open spec fn hit_lines(hs: Seq<index::HitView>) -> Seq<char>
    decreases hs.len(),
{
    if hs.len() == 0 {
        Seq::empty()
    } else {
        hit_lines(hs.drop_last()) + hit_line(hs.last())
    }
}

/// Where the words you typed turn up in what the session said.
pub open spec fn matches(file: Option<Seq<char>>, query: Seq<char>, want: nat) -> Seq<char> {
    let hs = index::hits_in(file, index::query_of(query), want);
    if query.len() < 3 || hs.len() == 0 {
        Seq::empty()
    } else {
        hit_lines(hs) + "\x1b[90m──────────────── ⌕ ────────────────\x1b[0m\n\n"@
    }
}

fn push_hit(s: &mut String, h: &Hit)
    ensures
        final(s)@ == old(s)@ + hit_line(h@),
{
    let ghost was = s@;
    s.append("\x1b[90m");
    if h.cut_left {
        s.append("…");
    } else {
        s.append("");
    }
    s.append(&h.before);
    s.append("\x1b[0m\x1b[7m");
    s.append(&h.term);
    s.append("\x1b[0m\x1b[90m");
    s.append(&h.after);
    if h.cut_right {
        s.append("…");
    } else {
        s.append("");
    }
    s.append("\x1b[0m\n");
    assert(s@ =~= was + hit_line(h@));
}

/// Where the words you typed turn up in what this session actually SAID, drawn for a
/// terminal rather than for the picker. `file` is what its index file holds. A query
/// of a letter or two stands in every transcript and would say nothing.
pub fn match_block(file: Option<&str>, query: &str, want: usize) -> (r: String)
    ensures
        r@ == matches(text::opt(file), query@, want as nat),
{
    let mut s = String::new();
    assert(s@ =~= Seq::<char>::empty());
    if query.unicode_len() < 3 {
        return s;
    }
    let q = Query::new(query);
    let hits = index::preview_hits(file, &q, want);
    let ghost hs = index::hits_view(hits@);
    assert(hs.len() == hits@.len());
    if hits.len() == 0 {
        return s;
    }
    let mut i: usize = 0;
    assert(s@ =~= hit_lines(hs.take(0)));
    while i < hits.len()
        invariant
            i <= hits@.len(),
            hs == index::hits_view(hits@),
            s@ == hit_lines(hs.take(i as int)),
        decreases hits@.len() - i,
    {
        assert(hs.take(i + 1).drop_last() =~= hs.take(i as int));
        assert(hs.take(i + 1).last() == hits@[i as int]@);
        push_hit(&mut s, &hits[i]);
        i = i + 1;
    }
    assert(hs.take(hs.len() as int) =~= hs);
    s.append("\x1b[90m──────────────── ⌕ ────────────────\x1b[0m\n\n");
    s
}

/// The last hundred lines.
pub open spec fn last_hundred(ls: Seq<Seq<char>>) -> Seq<Seq<char>> {
    if ls.len() > 100 {
        ls.skip(ls.len() - 100)
    } else {
        ls
    }
}

pub open spec fn live_preview(
    file: Option<Seq<char>>,
    query: Seq<char>,
    want: nat,
    header: Seq<char>,
    screen: Seq<char>,
) -> Seq<char> {
    matches(file, query, want) + "\x1b[1;36m"@ + header + "\x1b[0m\n"@ + "\x1b[90m"@ + RULE@
        + "\x1b[0m\n\n"@ + text::as_lines(last_hundred(text::lines_of(screen)))
}

/// What asks a pane where it is, for the header of its preview.
pub fn place_args(pane: &str) -> (r: Vec<String>)
    ensures
        text::texts(r@) == asking(
            pane@,
            "#{session_name}:#{window_index}.#{pane_index}   #{pane_current_path}"@,
        ),
{
    ask_pane(pane, "#{session_name}:#{window_index}.#{pane_index}   #{pane_current_path}")
}

/// A live pane's screen, under a header saying exactly where it is.
///
/// The last hundred lines, because what a session is doing is at the bottom of it,
/// and because a preview pane is short.
pub fn preview_live(
    file: Option<&str>,
    query: &str,
    want: usize,
    header: &str,
    screen: &str,
) -> (r: String)
    ensures
        r@ == live_preview(text::opt(file), query@, want as nat, header@, screen@),
{
    let mut s = match_block(file, query, want);
    s.append("\x1b[1;36m");
    s.append(header);
    s.append("\x1b[0m\n");
    s.append("\x1b[90m");
    s.append(RULE);
    s.append("\x1b[0m\n\n");
    let mut ls = lines(screen);
    let ghost all = text::texts(ls@);
    let n: usize = ls.len();
    assert(all.len() == n);
    let body = if n > 100 {
        let rest = ls.split_off(n - 100);
        assert(text::texts(rest@) =~= all.skip(n - 100));
        text::end_lines(&rest)
    } else {
        text::end_lines(&ls)
    };
    s.append(&body);
    s
}

/// How much of a turn is shown: two lines of so many columns, less what the marker
/// takes.
pub open spec fn room(columns: nat) -> nat {
    if columns * 2 >= 2 {
        (columns * 2 - 2) as nat
    } else {
        0
    }
}

pub open spec fn capped(s: Seq<char>, cap: nat) -> Seq<char> {
    if s.len() > cap {
        s.take(cap as int) + "…"@
    } else {
        s
    }
}

fn cap_to(s: &str, columns: usize) -> (r: String)
    ensures
        r@ == capped(s@, room(columns as nat)),
{
    let v = chars_of(s);
    let twice: u128 = columns as u128 * 2;
    let cap: u128 = if twice >= 2 {
        twice - 2
    } else {
        0
    };
    if v.len() as u128 > cap {
        let mut t = take_chars(s, cap as usize);
        t.append("…");
        t
    } else {
        s.to_owned()
    }
}

/// One turn of a past conversation.
pub open spec fn turn_lines(t: agents::TurnView, columns: nat) -> Seq<char> {
    "\x1b["@ + (if t.you {
        "1;36"@
    } else {
        "2"@
    }) + "m"@ + (if t.you {
        "❯"@
    } else {
        " "@
    }) + "\x1b[0m "@ + capped(t.text, room(columns)) + "\n\n"@
}

pub open spec fn all_turn_lines(ts: Seq<agents::TurnView>, columns: nat) -> Seq<char>
    decreases ts.len(),
{
    if ts.len() == 0 {
        Seq::empty()
    } else {
        all_turn_lines(ts.drop_last(), columns) + turn_lines(ts.last(), columns)
    }
}

/// What stands in for turns where there are none.
pub open spec fn silence(key: Seq<char>, key_is_file: bool, n: nat) -> Seq<char> {
    if n > 0 {
        Seq::empty()
    } else if key.len() > 0 && key[0] == '/' && !key_is_file {
        "\x1b[31mthis conversation is no longer on disk\x1b[0m\n"@
    } else {
        "\x1b[90m(nothing was said in this one)\x1b[0m\n"@
    }
}

pub open spec fn dead_header(cwd: Seq<char>, agent: Seq<char>, version: Seq<char>) -> Seq<char> {
    "\x1b[1;36m"@ + (if cwd.len() == 0 {
        "?"@
    } else {
        cwd
    }) + "\x1b[0m  \x1b[2m"@ + (if version.len() == 0 {
        agent
    } else {
        agent + " "@ + version
    }) + "\x1b[0m\n"@
}

pub open spec fn dead_preview(
    id: Seq<char>,
    file: Option<Seq<char>>,
    query: Seq<char>,
    want: nat,
    es: Seq<index::SessionView>,
    turns: Seq<agents::TurnView>,
    key_is_file: bool,
    columns: nat,
) -> Seq<char> {
    let found = matches(file, query, want);
    if id == "dead:!"@ {
        found + "\x1b[90mthe list is still being built\x1b[0m\n"@
    } else {
        match index::past_parts(id) {
            None => found + "\x1b[31mthat row does not name a conversation\x1b[0m\n"@,
            Some((agent, key)) => found + dead_header(
                cached_cwd(es, agent, key),
                agent,
                cached_version(es, agent, key),
            ) + "\x1b[90m"@ + RULE@ + "\x1b[0m\n\n"@ + silence(key, key_is_file, turns.len())
                + all_turn_lines(turns, columns),
        }
    }
}

fn header_of(cwd: &str, agent: &str, version: &str) -> (r: String)
    ensures
        r@ == dead_header(cwd@, agent@, version@),
{
    let mut s = "\x1b[1;36m".to_owned();
    if cwd.is_empty() {
        s.append("?");
    } else {
        s.append(cwd);
    }
    s.append("\x1b[0m  \x1b[2m");
    let mut what = agent.to_owned();
    if !version.is_empty() {
        what.append(" ");
        what.append(version);
    }
    s.append(&what);
    s.append("\x1b[0m\n");
    s
}

fn turns_text(turns: &Vec<Turn>, columns: usize) -> (r: String)
    ensures
        r@ == all_turn_lines(agents::turns_view(turns@), columns as nat),
{
    let ghost ts = agents::turns_view(turns@);
    let mut s = String::new();
    let mut i: usize = 0;
    assert(s@ =~= all_turn_lines(ts.take(0), columns as nat));
    while i < turns.len()
        invariant
            i <= turns@.len(),
            ts == agents::turns_view(turns@),
            s@ == all_turn_lines(ts.take(i as int), columns as nat),
        decreases turns@.len() - i,
    {
        assert(ts.take(i + 1).drop_last() =~= ts.take(i as int));
        assert(ts.take(i + 1).last() == turns@[i as int]@);
        let t = &turns[i];
        let what = cap_to(&t.text, columns);
        let mut one = "\x1b[".to_owned();
        if t.you {
            one.append("1;36");
        } else {
            one.append("2");
        }
        one.append("m");
        if t.you {
            one.append("❯");
        } else {
            one.append(" ");
        }
        one.append("\x1b[0m ");
        one.append(&what);
        one.append("\n\n");
        s.append(&one);
        i = i + 1;
    }
    assert(ts.take(ts.len() as int) =~= ts);
    s
}

/// A PAST conversation has no screen to capture: what it has is the last things that
/// were said in it, which is what tells you whether it is the one you were looking
/// for. `file` is what its index file holds, `es` the sessions cache, and `turns` the
/// last of what was said.
///
/// Two lines a turn is enough to recognise one. A turn cut off says so rather than
/// pretending it ended there.
pub fn preview_dead(
    id: &str,
    file: Option<&str>,
    query: &str,
    want: usize,
    es: &Vec<Session>,
    turns: &Vec<Turn>,
    key_is_file: bool,
    columns: usize,
) -> (r: String)
    ensures
        r@ == dead_preview(
            id@,
            text::opt(file),
            query@,
            want as nat,
            index::sessions_view(es@),
            agents::turns_view(turns@),
            key_is_file,
            columns as nat,
        ),
{
    let mut s = match_block(file, query, want);
    if same(id, "dead:!") {
        s.append("\x1b[90mthe list is still being built\x1b[0m\n");
        return s;
    }
    let (agent, key) = match index::split_past_id(id) {
        None => {
            s.append("\x1b[31mthat row does not name a conversation\x1b[0m\n");
            return s;
        },
        Some(p) => p,
    };
    let cwd = past_cwd(es, &agent, &key);
    let version = match find_cached(es, &agent, &key) {
        Some(i) => {
            assert(index::sessions_view(es@)[i as int] == es@[i as int]@);
            es[i].version.clone()
        },
        None => {
            let none = String::new();
            assert(none@ =~= Seq::<char>::empty());
            none
        },
    };
    let head = header_of(&cwd, &agent, &version);
    s.append(&head);
    s.append("\x1b[90m");
    s.append(RULE);
    s.append("\x1b[0m\n\n");
    assert(agents::turns_view(turns@).len() == turns@.len());
    let ghost before = s@;
    if turns.len() == 0 {
        let k = chars_of(&key);
        if k.len() > 0 && k[0] == '/' && !key_is_file {
            s.append("\x1b[31mthis conversation is no longer on disk\x1b[0m\n");
        } else {
            s.append("\x1b[90m(nothing was said in this one)\x1b[0m\n");
        }
    }
    assert(s@ =~= before + silence(key@, key_is_file, turns@.len()));
    let said = turns_text(turns, columns);
    s.append(&said);
    s
}

// ---------------------------------------------------------------------------
// Laws
// ---------------------------------------------------------------------------
/// A window is zoomed only where it is wanted and not zoomed already, and whatever
/// happens to it the switch ends with the client moved to the pane's session.
pub proof fn lemma_a_zoomed_pane_is_left_alone(
    pane: Seq<char>,
    zoom: bool,
    step: int,
    session: Seq<char>,
)
    requires
        session.len() > 0,
        step >= 4,
    ensures
        switching(pane, zoom, step, Some(session), Some("1"@)) == SwitchView::Last(
            seq!["switch-client"@, "-t"@, session],
        ),
{
}

/// A conversation is opened only in the directory it ran in.
pub proof fn lemma_a_session_opens_only_where_it_ran(
    agent: Seq<char>,
    which: Seq<char>,
    key: Seq<char>,
    cwd: Seq<char>,
    key_is_file: bool,
    cwd_is_dir: bool,
    opening: Option<Seq<char>>,
)
    ensures
        reopened(agent, which, key, cwd, key_is_file, cwd_is_dir, opening) is Ok ==> cwd.len() > 0
            && cwd_is_dir && reopened(
            agent,
            which,
            key,
            cwd,
            key_is_file,
            cwd_is_dir,
            opening,
        )->Ok_0[2] == cwd,
{
}

/// What a server holds of its panes and of the client that is attached to it: the session
/// and the window each pane is in, the current window of each session, the active pane of
/// each window, the windows that are zoomed, and the session the client shows.
pub struct Server {
    pub home: Map<Seq<char>, (Seq<char>, int)>,
    pub current: Map<Seq<char>, int>,
    pub active: Map<int, Seq<char>>,
    pub zoomed: Set<int>,
    pub client: Seq<char>,
}

/// A server that has been told something. To select another pane of a zoomed window ends
/// its zoom, and to zoom a window that is zoomed ends it as well.
pub open spec fn obeyed(was: Server, args: Seq<Seq<char>>) -> Server {
    if args.len() == 3 && args[0] == "select-window"@ {
        let (session, window) = was.home[args[2]];
        Server { current: was.current.insert(session, window), ..was }
    } else if args.len() == 3 && args[0] == "select-pane"@ {
        let window = was.home[args[2]].1;
        Server {
            active: was.active.insert(window, args[2]),
            zoomed: if was.active[window] == args[2] {
                was.zoomed
            } else {
                was.zoomed.remove(window)
            },
            ..was
        }
    } else if args.len() == 4 && args[0] == "resize-pane"@ && args[1] == "-Z"@ {
        let window = was.home[args[3]].1;
        Server {
            zoomed: if was.zoomed.contains(window) {
                was.zoomed.remove(window)
            } else {
                was.zoomed.insert(window)
            },
            ..was
        }
    } else if args.len() == 3 && args[0] == "switch-client"@ {
        Server { client: args[2], ..was }
    } else {
        was
    }
}

/// The server once the first `n` steps of a switch have been taken.
pub open spec fn switched(
    was: Server,
    pane: Seq<char>,
    zoom: bool,
    session: Seq<char>,
    zoomed: Option<Seq<char>>,
    n: nat,
) -> Server
    decreases n,
{
    if n == 0 {
        was
    } else {
        let before = switched(was, pane, zoom, session, zoomed, (n - 1) as nat);
        match switching(pane, zoom, n - 1, Some(session), zoomed) {
            SwitchView::Tell(args) => obeyed(before, args),
            SwitchView::Last(args) => obeyed(before, args),
            _ => before,
        }
    }
}

/// A switch ends, and ends on the pane: the client shows the pane's session, whose current
/// window is the pane's, whose active pane is the pane, and where a zoom was asked for it
/// is zoomed, whether or not it was. Nothing else on the server has moved.
pub proof fn lemma_a_switch_ends_on_the_pane(
    was: Server,
    pane: Seq<char>,
    zoom: bool,
    session: Seq<char>,
    zoomed: Option<Seq<char>>,
    window: int,
) -> (n: nat)
    requires
        session.len() > 0,
        was.home.dom().contains(pane),
        was.home[pane] == (session, window),
        zoomed == Some("1"@) <==> was.active[window] == pane && was.zoomed.contains(window),
    ensures
        forall|k: int|
            0 <= k < n - 1 ==> !(#[trigger] switching(pane, zoom, k, Some(session), zoomed) is Last),
        n > 0,
        switching(pane, zoom, n - 1, Some(session), zoomed) is Last,
        ({
            let now = switched(was, pane, zoom, session, zoomed, n);
            &&& now.client == session
            &&& now.current == was.current.insert(session, window)
            &&& now.active == was.active.insert(window, pane)
            &&& zoom ==> now.zoomed.contains(window)
            &&& !zoom && was.active[window] == pane ==> now.zoomed == was.zoomed
            &&& forall|w: int|
                w != window ==> #[trigger] now.zoomed.contains(w) == was.zoomed.contains(w)
            &&& now.home == was.home
        }),
{
    reveal_strlit("select-window");
    reveal_strlit("select-pane");
    reveal_strlit("resize-pane");
    reveal_strlit("switch-client");
    assert("select-window"@.len() == 13 && "select-pane"@.len() == 11 && "resize-pane"@.len() == 11
        && "switch-client"@.len() == 13);
    assert("select-window"@[1] == 'e' && "switch-client"@[1] == 'w');
    assert("select-pane"@[0] == 's' && "resize-pane"@[0] == 'r');
    reveal_with_fuel(switched, 6);
    let n: nat = if !zoom {
        4
    } else if zoomed == Some("1"@) {
        5
    } else {
        6
    };
    let after_two = switched(was, pane, zoom, session, zoomed, 2);
    let after_three = switched(was, pane, zoom, session, zoomed, 3);
    assert(after_two == obeyed(was, seq!["select-window"@, "-t"@, pane]));
    assert(after_three == obeyed(after_two, seq!["select-pane"@, "-t"@, pane]));
    assert(after_three.zoomed.contains(window) <==> zoomed == Some("1"@));
    if zoom {
        assert(switched(was, pane, zoom, session, zoomed, 4) == after_three);
        if zoomed != Some("1"@) {
            assert(switched(was, pane, zoom, session, zoomed, 5) == obeyed(
                after_three,
                seq!["resize-pane"@, "-Z"@, "-t"@, pane],
            ));
        }
    }
    n
}

/// The pane is always selected before the client is moved: its window first, then the
/// pane in it, whatever is asked for or answered of a zoom.
pub proof fn lemma_the_pane_is_selected_before_the_client_moves(
    pane: Seq<char>,
    zoom: bool,
    session: Seq<char>,
    zoomed: Option<Seq<char>>,
    n: int,
)
    requires
        session.len() > 0,
        n > 0,
        switching(pane, zoom, n, Some(session), zoomed) is Last,
    ensures
        switching(pane, zoom, n, Some(session), zoomed)->Last_0 == seq![
            "switch-client"@,
            "-t"@,
            session,
        ],
        exists|i: int, j: int|
            0 < i < j < n && #[trigger] switching(pane, zoom, i, Some(session), zoomed)
                == SwitchView::Tell(seq!["select-window"@, "-t"@, pane]) && #[trigger] switching(
                pane,
                zoom,
                j,
                Some(session),
                zoomed,
            ) == SwitchView::Tell(seq!["select-pane"@, "-t"@, pane]),
{
    assert(switching(pane, zoom, 1, Some(session), zoomed) == SwitchView::Tell(
        seq!["select-window"@, "-t"@, pane],
    ));
    assert(switching(pane, zoom, 2, Some(session), zoomed) == SwitchView::Tell(
        seq!["select-pane"@, "-t"@, pane],
    ));
}

/// A conversation that is on disk and whose directory is there is opened in a new window,
/// in that directory, by the command that resumes it in its own agent.
pub proof fn lemma_a_session_reopens_where_it_ran(
    agent: Seq<char>,
    which: Seq<char>,
    key: Seq<char>,
    cwd: Seq<char>,
    key_is_file: bool,
    cwd_is_dir: bool,
    opening: Option<Seq<char>>,
    cmd: Seq<char>,
)
    requires
        agents::resumed(agent, which, key, opening) == Ok::<Seq<char>, Seq<char>>(cmd),
    ensures
        ({
            let r = reopened(agent, which, key, cwd, key_is_file, cwd_is_dir, opening);
            let gone = key.len() > 0 && key[0] == '/' && !key_is_file;
            &&& gone ==> r == Err::<Seq<Seq<char>>, Seq<char>>(
                "that conversation is no longer on disk"@,
            )
            &&& !gone && cwd.len() > 0 && cwd_is_dir ==> r == Ok::<Seq<Seq<char>>, Seq<char>>(
                seq!["new-window"@, "-c"@, cwd, cmd],
            )
            &&& !gone && !(cwd.len() > 0 && cwd_is_dir) ==> r is Err
        }),
{
}

/// What is known of a conversation comes from its own entry: the first one with its agent
/// and its key.
pub proof fn lemma_the_first_entry_of_a_conversation(
    es: Seq<index::SessionView>,
    agent: Seq<char>,
    key: Seq<char>,
    i: int,
)
    requires
        0 <= i < es.len(),
        es[i].agent == agent && es[i].key == key,
        forall|j: int| 0 <= j < i ==> !((#[trigger] es[j]).agent == agent && es[j].key == key),
    ensures
        cached_cwd(es, agent, key) == es[i].cwd,
        cached_version(es, agent, key) == es[i].version,
{
    lemma_cached_at(es, agent, key, 0, i);
}

proof fn lemma_cached_at(
    es: Seq<index::SessionView>,
    agent: Seq<char>,
    key: Seq<char>,
    from: int,
    i: int,
)
    requires
        0 <= from <= i < es.len(),
        es[i].agent == agent && es[i].key == key,
        forall|j: int| from <= j < i ==> !((#[trigger] es[j]).agent == agent && es[j].key == key),
    ensures
        cached_at(es, agent, key, from) == Some(i),
    decreases i - from,
{
    if from < i {
        assert(!(es[from].agent == agent && es[from].key == key));
        lemma_cached_at(es, agent, key, from + 1, i);
    }
}

/// The preview of a session that runs shows where it is and then its screen: the last
/// hundred lines of it, and the whole of one that is no longer.
pub proof fn lemma_a_live_preview_ends_in_the_screen(
    file: Option<Seq<char>>,
    query: Seq<char>,
    want: nat,
    header: Seq<char>,
    screen: Seq<char>,
)
    ensures
        ({
            let out = live_preview(file, query, want, header, screen);
            let ls = text::lines_of(screen);
            &&& ls.len() <= 100 ==> text::as_lines(ls).is_suffix_of(out)
            &&& ls.len() > 100 ==> text::as_lines(ls.skip(ls.len() - 100)).is_suffix_of(out)
            &&& text::has(out, "\x1b[1;36m"@ + header + "\x1b[0m\n"@)
            &&& query.len() < 3 ==> ("\x1b[1;36m"@ + header + "\x1b[0m\n"@).is_prefix_of(out)
        }),
{
    let out = live_preview(file, query, want, header, screen);
    let tail = text::as_lines(last_hundred(text::lines_of(screen)));
    assert(out.subrange(out.len() - tail.len(), out.len() as int) =~= tail);
    let line = "\x1b[1;36m"@ + header + "\x1b[0m\n"@;
    let rest = "\x1b[90m"@ + RULE@ + "\x1b[0m\n\n"@ + tail;
    let found = matches(file, query, want);
    assert(out =~= found + line + rest);
    text::lemma_has_middle(found, line, rest);
    if query.len() < 3 {
        assert(out.subrange(0, line.len() as int) =~= line);
    }
}

/// The preview of a past conversation names where it was held, in which agent and in
/// which version, and then gives every turn of it: what was asked under a mark, what was
/// answered without, each whole where it is no longer than twice the window less two.
pub proof fn lemma_a_past_preview_gives_every_turn(
    id: Seq<char>,
    file: Option<Seq<char>>,
    query: Seq<char>,
    want: nat,
    es: Seq<index::SessionView>,
    turns: Seq<agents::TurnView>,
    key_is_file: bool,
    columns: nat,
    agent: Seq<char>,
    key: Seq<char>,
    i: int,
)
    requires
        id != "dead:!"@,
        index::past_parts(id) == Some((agent, key)),
        0 <= i < turns.len(),
        turns[i].text.len() + 2 <= columns * 2,
    ensures
        ({
            let out = dead_preview(id, file, query, want, es, turns, key_is_file, columns);
            &&& turns[i].you ==> text::has(
                out,
                "\x1b[1;36m❯\x1b[0m "@ + turns[i].text + "\n\n"@,
            )
            &&& !turns[i].you ==> text::has(out, "\x1b[2m \x1b[0m "@ + turns[i].text + "\n\n"@)
            &&& cached_cwd(es, agent, key).len() > 0 && cached_version(es, agent, key).len() > 0
                ==> text::has(
                out,
                "\x1b[1;36m"@ + cached_cwd(es, agent, key) + "\x1b[0m  \x1b[2m"@ + agent + " "@
                    + cached_version(es, agent, key) + "\x1b[0m\n"@,
            )
        }),
{
    let out = dead_preview(id, file, query, want, es, turns, key_is_file, columns);
    let t = turns[i];
    let (a, b) = lemma_turn_lines_hold(turns, columns, i);
    let found = matches(file, query, want);
    let head = dead_header(cached_cwd(es, agent, key), agent, cached_version(es, agent, key));
    let rule = "\x1b[90m"@ + RULE@ + "\x1b[0m\n\n"@;
    assert(silence(key, key_is_file, turns.len()) =~= Seq::<char>::empty());
    reveal_strlit("\x1b[");
    reveal_strlit("1;36");
    reveal_strlit("m");
    reveal_strlit("❯");
    reveal_strlit("\x1b[0m ");
    reveal_strlit("\x1b[1;36m❯\x1b[0m ");
    reveal_strlit("2");
    reveal_strlit(" ");
    reveal_strlit("\x1b[2m \x1b[0m ");
    let mark = if t.you {
        "\x1b[1;36m❯\x1b[0m "@
    } else {
        "\x1b[2m \x1b[0m "@
    };
    assert("\x1b["@ + "1;36"@ + "m"@ + "❯"@ + "\x1b[0m "@ =~= "\x1b[1;36m❯\x1b[0m "@);
    assert("\x1b["@ + "2"@ + "m"@ + " "@ + "\x1b[0m "@ =~= "\x1b[2m \x1b[0m "@);
    let l = mark + t.text + "\n\n"@;
    assert(turn_lines(t, columns) == l);
    assert(out =~= (found + head + rule + a) + l + b);
    text::lemma_has_middle(found + head + rule + a, l, b);
    let want_head = "\x1b[1;36m"@ + cached_cwd(es, agent, key) + "\x1b[0m  \x1b[2m"@ + agent + " "@
        + cached_version(es, agent, key) + "\x1b[0m\n"@;
    if cached_cwd(es, agent, key).len() > 0 && cached_version(es, agent, key).len() > 0 {
        assert(head =~= want_head);
        assert(out =~= found + want_head + (rule + a + l + b));
        text::lemma_has_middle(found, want_head, rule + a + l + b);
    }
}

proof fn lemma_turn_lines_hold(ts: Seq<agents::TurnView>, columns: nat, i: int) -> (r: (
    Seq<char>,
    Seq<char>,
))
    requires
        0 <= i < ts.len(),
    ensures
        all_turn_lines(ts, columns) == r.0 + turn_lines(ts[i], columns) + r.1,
    decreases ts.len(),
{
    let last = turn_lines(ts.last(), columns);
    if i == ts.len() - 1 {
        let a = all_turn_lines(ts.drop_last(), columns);
        assert(all_turn_lines(ts, columns) =~= a + last + Seq::<char>::empty());
        (a, Seq::empty())
    } else {
        let (a, b) = lemma_turn_lines_hold(ts.drop_last(), columns, i);
        let here = turn_lines(ts[i], columns);
        assert(all_turn_lines(ts, columns) =~= a + here + (b + last));
        (a, b + last)
    }
}

} // verus!
