//! The coding agents, and what each of them leaves behind.
//!
//! Everything else here lists **panes**, so everything else can only find a session
//! that is still running. This module is the other half: the conversations on disk,
//! whoever wrote them, so a session you closed on Tuesday is still findable on
//! Thursday.
//!
//! Five stores, three shapes: one JSON record a line for three of them, the same
//! with rewinds for one, and a database for one. Each answers the same questions:
//! which conversations exist, what a row says about one, its searchable prose, the
//! last few things said, and the command that opens it again.
//!
//! **A session is keyed by whatever its own tool calls it**: a transcript path for
//! the file-backed agents, a session id for the one with a database. That is the
//! string that has to be handed back to the tool.
use vstd::prelude::*;

use crate::sqlite::Cell;
use crate::text;
use crate::text::{chars_of, control, find_at, same, slice, trim};
use crate::tmux;

pub mod agy;
pub mod claude;
pub mod codex;
pub mod gemini;
pub mod opencode;

verus! {

/// The agent whose sessions can be restarted and put back on their conversation.
#[derive(Clone, Copy, Debug)]
pub struct Agent<'a> {
    /// The name its processes, its directories and its launcher go by.
    pub name: &'a str,
    /// The name it goes by in what it says on screen.
    pub spoken: &'a str,
    /// Its proper name, for prose rather than for a command line.
    pub proper: &'a str,
}

pub struct AgentView {
    pub name: Seq<char>,
    pub spoken: Seq<char>,
    pub proper: Seq<char>,
}

impl<'a> View for Agent<'a> {
    type V = AgentView;

    open spec fn view(&self) -> AgentView {
        AgentView { name: self.name@, spoken: self.spoken@, proper: self.proper@ }
    }
}

/// A small ASCII letter as a capital one; anything else is what it is.
pub open spec fn capital(c: char) -> char {
    if 'a' <= c <= 'z' {
        (c as u32 - 32) as char
    } else {
        c
    }
}

/// The name an agent goes by on screen, where nothing else is said: its command's, with
/// a capital.
pub open spec fn spoken_name(name: Seq<char>) -> Seq<char> {
    if name.len() == 0 {
        name
    } else {
        seq![capital(name[0])] + name.skip(1)
    }
}

/// Its proper name, where nothing else is said.
pub open spec fn proper_name(name: Seq<char>) -> Seq<char> {
    spoken_name(name) + " Code"@
}

/// The name an agent goes by on screen, from that of its command.
pub fn spoken_for(name: &str) -> (r: String)
    ensures
        r@ == spoken_name(name@),
{
    let v = chars_of(name);
    let n: usize = v.len();
    let mut out = String::new();
    if n > 0 {
        let c: char = v[0];
        let first: char = if 'a' <= c && c <= 'z' {
            ((c as u8) - 32) as char
        } else {
            c
        };
        out.push(first);
        let rest = slice(&v, 1, n);
        assert(rest@ =~= name@.skip(1));
        out.append(&rest);
    }
    assert(out@ =~= spoken_name(name@));
    out
}

/// An agent's proper name, from that of its command.
pub fn proper_for(name: &str) -> (r: String)
    ensures
        r@ == proper_name(name@),
{
    let mut out = spoken_for(name);
    out.append(" Code");
    out
}

/// Every agent whose history can be read, in the order a list's ties break in: the
/// one whose sessions can be restarted, and then the others.
pub open spec fn known_agents(agent: Seq<char>) -> Seq<Seq<char>> {
    seq![agent, "codex"@, "gemini"@, "opencode"@, "agy"@]
}

pub fn known(agent: &str) -> (r: Vec<String>)
    ensures
        text::texts(r@) == known_agents(agent@),
{
    let mut v: Vec<String> = Vec::new();
    v.push(agent.to_owned());
    v.push("codex".to_owned());
    v.push("gemini".to_owned());
    v.push("opencode".to_owned());
    v.push("agy".to_owned());
    assert(text::texts(v@) =~= known_agents(agent@));
    v
}

// ---------------------------------------------------------------------------
// What is known of a conversation
// ---------------------------------------------------------------------------
/// What a row says about a conversation.
#[derive(Debug, PartialEq)]
pub struct Meta {
    pub cwd: String,
    /// The agent version the session recorded. Only one agent records one.
    pub version: String,
    pub title: String,
    /// `t` for a title the session recorded, `p` for a prompt standing in for
    /// one. A live pane may borrow a real title but never a prompt.
    pub src: &'static str,
}

#[verifier::ext_equal]
pub struct MetaView {
    pub cwd: Seq<char>,
    pub version: Seq<char>,
    pub title: Seq<char>,
    pub src: Seq<char>,
}

impl View for Meta {
    type V = MetaView;

    open spec fn view(&self) -> MetaView {
        MetaView {
            cwd: self.cwd@,
            version: self.version@,
            title: self.title@,
            src: self.src@,
        }
    }
}

pub open spec fn no_meta() -> MetaView {
    MetaView { cwd: Seq::empty(), version: Seq::empty(), title: Seq::empty(), src: ""@ }
}

impl Default for Meta {
    fn default() -> (r: Meta)
        ensures
            r@ == no_meta(),
    {
        let r = Meta {
            cwd: String::new(),
            version: String::new(),
            title: String::new(),
            src: "",
        };
        assert(r@ =~= no_meta());
        r
    }
}

/// Where a title came from: nowhere if there is none.
pub open spec fn source(title: Seq<char>, from: Seq<char>) -> Seq<char> {
    if title.len() == 0 {
        ""@
    } else {
        from
    }
}

/// One past conversation: which tool wrote it, what that tool calls it, and when it
/// last said anything.
#[derive(Debug, PartialEq)]
pub struct Past {
    pub agent: String,
    pub key: String,
    pub mtime: i64,
    /// What a row says about it, when the store handed that over for free.
    ///
    /// A file-backed agent leaves this out: reading a title out of a transcript
    /// means opening it. A database hands back every column of the row it was
    /// already reading.
    pub meta: Option<Meta>,
}

#[verifier::ext_equal]
pub struct PastView {
    pub agent: Seq<char>,
    pub key: Seq<char>,
    pub mtime: i64,
    pub meta: Option<MetaView>,
}

pub open spec fn opt_meta(m: Option<Meta>) -> Option<MetaView> {
    match m {
        Some(m) => Some(m@),
        None => None,
    }
}

impl View for Past {
    type V = PastView;

    open spec fn view(&self) -> PastView {
        PastView {
            agent: self.agent@,
            key: self.key@,
            mtime: self.mtime,
            meta: opt_meta(self.meta),
        }
    }
}

pub open spec fn pasts_view(v: Seq<Past>) -> Seq<PastView> {
    v.map_values(|p: Past| p@)
}

/// A file the program came across where an agent keeps its conversations.
pub struct File {
    pub path: String,
    pub mtime: i64,
    pub is_dir: bool,
}

#[verifier::ext_equal]
pub struct FileView {
    pub path: Seq<char>,
    pub mtime: i64,
    pub is_dir: bool,
}

impl View for File {
    type V = FileView;

    open spec fn view(&self) -> FileView {
        FileView { path: self.path@, mtime: self.mtime, is_dir: self.is_dir }
    }
}

pub open spec fn files_view(v: Seq<File>) -> Seq<FileView> {
    v.map_values(|f: File| f@)
}

/// The conversation in a file.
pub open spec fn in_file(agent: Seq<char>, f: FileView) -> PastView {
    PastView { agent, key: f.path, mtime: f.mtime, meta: None }
}

pub fn past_in(agent: &str, f: &File) -> (r: Past)
    ensures
        r@ == in_file(agent@, f@),
{
    Past { agent: agent.to_owned(), key: f.path.clone(), mtime: f.mtime, meta: None }
}

/// A conversation's searchable text, and what to do with it.
#[derive(Debug, PartialEq)]
pub struct Prose {
    /// What "unchanged since last time" means for this store: a byte length for a
    /// file, a timestamp for a row in a database. The caller only ever compares it
    /// with the one it kept.
    pub fingerprint: u64,
    pub text: String,
    /// `true` when `text` is the WHOLE conversation and replaces what was known;
    /// `false` when it is only what the store has gained.
    pub whole: bool,
}

#[verifier::ext_equal]
pub struct ProseView {
    pub fingerprint: u64,
    pub text: Seq<char>,
    pub whole: bool,
}

impl View for Prose {
    type V = ProseView;

    open spec fn view(&self) -> ProseView {
        ProseView { fingerprint: self.fingerprint, text: self.text@, whole: self.whole }
    }
}

/// One thing that was said.
#[derive(Debug, PartialEq)]
pub struct Turn {
    /// Whose turn it was. The agent's name is the caller's to supply.
    pub you: bool,
    pub text: String,
}

#[verifier::ext_equal]
pub struct TurnView {
    pub you: bool,
    pub text: Seq<char>,
}

impl View for Turn {
    type V = TurnView;

    open spec fn view(&self) -> TurnView {
        TurnView { you: self.you, text: self.text@ }
    }
}

pub open spec fn turns_view(v: Seq<Turn>) -> Seq<TurnView> {
    v.map_values(|t: Turn| t@)
}

pub open spec fn opt_turn(t: Option<Turn>) -> Option<TurnView> {
    match t {
        Some(t) => Some(t@),
        None => None,
    }
}

// ---------------------------------------------------------------------------
// The end of a conversation
// ---------------------------------------------------------------------------
/// Is one of your turns among them?
pub open spec fn yours(v: Seq<TurnView>) -> bool {
    exists|i: int| 0 <= i < v.len() && (#[trigger] v[i]).you
}

pub open spec fn satisfied(v: Seq<TurnView>, want: nat) -> bool {
    (v.len() >= want && yours(v)) || v.len() >= want + 4
}

fn has_yours(v: &Vec<Turn>, from: usize) -> (r: bool)
    requires
        from <= v@.len(),
    ensures
        r == yours(turns_view(v@).skip(from as int)),
{
    let ghost all = turns_view(v@).skip(from as int);
    let mut i: usize = from;
    while i < v.len()
        invariant
            from <= i <= v@.len(),
            all == turns_view(v@).skip(from as int),
            forall|k: int| 0 <= k < i - from ==> !(#[trigger] all[k]).you,
        decreases v@.len() - i,
    {
        assert(all[i - from] == v@[i as int]@);
        if v[i].you {
            return true;
        }
        i = i + 1;
    }
    false
}

/// Has a backwards reader seen enough?
///
/// **Not at the quota alone.** A long stretch of tool calls puts a dozen results
/// between two prompts, so the last six records of a working session are routinely
/// six things the agent said and nothing you asked. So the reader keeps going past
/// its quota until one of your turns is in view, and gives up four turns later.
pub fn enough(out: &Vec<Turn>, want: usize) -> (r: bool)
    ensures
        r == satisfied(turns_view(out@), want as nat),
{
    assert(turns_view(out@).skip(0) =~= turns_view(out@));
    (out.len() >= want && has_yours(out, 0)) || (out.len() >= 4 && out.len() - 4 >= want)
}

/// Where the last turns begin, going back from a place.
pub open spec fn tail_start(all: Seq<TurnView>, from: int, want: nat) -> int
    decreases from,
{
    if from > 0 && !yours(all.skip(from)) && all.len() - from < want + 4 {
        tail_start(all, from - 1, want)
    } else {
        from
    }
}

/// The last `want` turns of a list read forwards, under the same rule.
pub open spec fn last_of(all: Seq<TurnView>, want: nat) -> Seq<TurnView> {
    all.skip(
        tail_start(
            all,
            if all.len() > want {
                all.len() - want
            } else {
                0
            },
            want,
        ),
    )
}

pub fn tail_of(all: Vec<Turn>, want: usize) -> (r: Vec<Turn>)
    ensures
        turns_view(r@) == last_of(turns_view(all@), want as nat),
{
    let ghost vs = turns_view(all@);
    let n: usize = all.len();
    let mut from: usize = if n > want {
        n - want
    } else {
        0
    };
    let ghost start = from as int;
    while from > 0 && !has_yours(&all, from) && n - from < 4usize.saturating_add(want)
        invariant
            from <= n == all@.len(),
            vs == turns_view(all@),
            tail_start(vs, from as int, want as nat) == tail_start(vs, start, want as nat),
        decreases from,
    {
        from = from - 1;
    }
    let mut all = all;
    let out = all.split_off(from);
    assert(turns_view(out@) =~= vs.skip(from as int));
    out
}

/// What each kind of record says, if anything.
pub trait Record {
    spec fn says(line: Seq<char>) -> Option<TurnView>;

    fn turn_in(line: &str) -> (r: Option<Turn>)
        ensures
            opt_turn(r) == Self::says(line@),
    ;
}

/// The turns of the lines from `from` up to `to`, last first, behind those already
/// read, until there are enough.
pub open spec fn back<R: Record>(
    ls: Seq<Seq<char>>,
    from: int,
    to: int,
    want: nat,
    out: Seq<TurnView>,
) -> Seq<TurnView>
    decreases to - from,
{
    if to <= from || satisfied(out, want) {
        out
    } else {
        match R::says(ls[to - 1]) {
            Some(t) => back::<R>(ls, from, to - 1, want, out.push(t)),
            None => back::<R>(ls, from, to - 1, want, out),
        }
    }
}

/// Where a reader that gives up after so many lines stops.
pub open spec fn reach(n: nat, cap: Option<usize>) -> int {
    match cap {
        Some(c) => if n > c {
            n - c
        } else {
            0
        },
        None => 0,
    }
}

/// The last turns of the lines, oldest first.
pub open spec fn last_said<R: Record>(ls: Seq<Seq<char>>, want: nat, cap: Option<usize>) -> Seq<
    TurnView,
> {
    back::<R>(ls, reach(ls.len(), cap), ls.len() as int, want, Seq::empty()).reverse()
}

/// The turns the other way round.
pub fn reversed(turns: Vec<Turn>) -> (r: Vec<Turn>)
    ensures
        turns_view(r@) == turns_view(turns@).reverse(),
{
    let mut out = turns;
    let ghost found = turns_view(out@);
    let mut rev: Vec<Turn> = Vec::new();
    let m: usize = out.len();
    assert(turns_view(rev@) =~= found.reverse().take(0));
    while out.len() > 0
        invariant
            m == found.len(),
            out@.len() + rev@.len() == m,
            turns_view(out@) == found.take(out@.len() as int),
            turns_view(rev@) == found.reverse().take(rev@.len() as int),
        decreases out@.len(),
    {
        let ghost k = out@.len() - 1;
        assert(turns_view(out@)[k] == out@[k]@);
        if let Some(t) = out.pop() {
            assert(turns_view(out@) =~= found.take(k));
            let ghost was = turns_view(rev@);
            let ghost tv = t@;
            rev.push(t);
            assert(turns_view(rev@) =~= was.push(tv));
            assert(found.reverse().take(rev@.len() as int) =~= was.push(tv));
        }
    }
    assert(found.reverse().take(m as int) =~= found.reverse());
    rev
}

/// The last `want` turns of the lines, oldest first, reading backwards and no
/// further than it takes.
pub fn from_lines<R: Record>(lines: &Vec<String>, want: usize, cap: Option<usize>) -> (r: Vec<Turn>)
    ensures
        turns_view(r@) == last_said::<R>(text::texts(lines@), want as nat, cap),
{
    let ghost ls = text::texts(lines@);
    let n: usize = lines.len();
    assert(ls.len() == n);
    let stop: usize = match cap {
        Some(c) => if n > c {
            n - c
        } else {
            0
        },
        None => 0,
    };
    let mut out: Vec<Turn> = Vec::new();
    let mut to: usize = n;
    assert(turns_view(out@) =~= Seq::empty());
    while to > stop && !enough(&out, want)
        invariant
            stop <= to <= n == lines@.len(),
            ls == text::texts(lines@),
            back::<R>(ls, stop as int, to as int, want as nat, turns_view(out@)) == back::<R>(
                ls,
                stop as int,
                n as int,
                want as nat,
                Seq::empty(),
            ),
        decreases to,
    {
        assert(ls[to - 1] == lines@[to - 1]@);
        if let Some(t) = R::turn_in(&lines[to - 1]) {
            let ghost was = turns_view(out@);
            let ghost tv = t@;
            out.push(t);
            assert(turns_view(out@) =~= was.push(tv));
        }
        to = to - 1;
    }
    reversed(out)
}

/// Everything said in the lines, each with a space behind it.
pub open spec fn prose_in<R: Record>(ls: Seq<Seq<char>>) -> Seq<char>
    decreases ls.len(),
{
    if ls.len() == 0 {
        Seq::empty()
    } else {
        match R::says(ls.last()) {
            Some(t) => prose_in::<R>(ls.drop_last()) + t.text + " "@,
            None => prose_in::<R>(ls.drop_last()),
        }
    }
}

pub fn all_said<R: Record>(whole: &str) -> (r: String)
    ensures
        r@ == prose_in::<R>(text::lines_of(whole@)),
{
    let ls = text::lines(whole);
    let ghost all = text::texts(ls@);
    let mut out = String::new();
    let mut i: usize = 0;
    assert(out@ =~= prose_in::<R>(all.take(0)));
    while i < ls.len()
        invariant
            i <= ls@.len(),
            all == text::texts(ls@),
            out@ == prose_in::<R>(all.take(i as int)),
        decreases ls@.len() - i,
    {
        assert(all.take(i + 1).drop_last() =~= all.take(i as int));
        assert(all.take(i + 1).last() == ls@[i as int]@);
        if let Some(t) = R::turn_in(&ls[i]) {
            out.append(&t.text);
            out.append(" ");
        }
        i = i + 1;
    }
    assert(all.take(all.len() as int) =~= all);
    out
}

// ---------------------------------------------------------------------------
// Reading a file as far as it takes
// ---------------------------------------------------------------------------
/// Where the last `window` bytes of a file begin, and whether that is all of it. A
/// window at or past the file's size reads it whole.
pub fn window_start(size: u64, window: u64) -> (r: (u64, bool))
    ensures
        r.0 == (if size > window {
            size - window
        } else {
            0
        }),
        r.1 == (size <= window),
{
    if size > window {
        (size - window, false)
    } else {
        (0, true)
    }
}

/// The lines of a window of a file. The first line of one that started mid-file is
/// a fragment.
pub open spec fn whole_lines(read: Seq<char>, whole: bool) -> Seq<Seq<char>> {
    let ls = text::lines_of(read);
    if !whole && ls.len() > 0 {
        ls.skip(1)
    } else {
        ls
    }
}

/// The lines of a window of a file, from the first line boundary inside it.
pub fn tail_lines(read: &str, whole: bool) -> (r: Vec<String>)
    ensures
        text::texts(r@) == whole_lines(read@, whole),
{
    let mut ls = text::lines(read);
    let ghost all = text::texts(ls@);
    assert(all.len() == ls@.len());
    if !whole && ls.len() > 0 {
        let rest = ls.split_off(1);
        assert(text::texts(rest@) =~= all.skip(1));
        rest
    } else {
        ls
    }
}

/// Tail windows, tried in order and only as far as needed. Every real session ends
/// inside the first; a long run of trailing tool records escalates; the last covers
/// any transcript worth previewing.
pub open spec fn window_at(i: int) -> Option<u64> {
    if i == 0 {
        Some(0x4_0000u64)
    } else if i == 1 {
        Some(0x40_0000u64)
    } else if i == 2 {
        Some(0x400_0000u64)
    } else {
        None
    }
}

/// How many bytes from the end to read, the `tried`-th time; none once every window
/// has been.
pub fn window(tried: usize) -> (r: Option<u64>)
    ensures
        r == window_at(tried as int),
{
    if tried == 0 {
        Some(0x4_0000)
    } else if tried == 1 {
        Some(0x40_0000)
    } else if tried == 2 {
        Some(0x400_0000)
    } else {
        None
    }
}

/// Has a file gained something since it was read up to `from`? One that shrank is
/// not the same file any more whatever its name says.
pub open spec fn has_grown(from: u64, size: u64) -> bool {
    0 < from < size
}

pub fn grown(from: u64, size: u64) -> (r: bool)
    ensures
        r == has_grown(from, size),
{
    from > 0 && from < size
}

/// A file's prose: `said` is what was read of it, and `reread` says that the place
/// to go on from was inside a character, so that it was read whole after all.
pub open spec fn file_prose_of(size: u64, from: u64, said: Seq<char>, reread: bool) -> ProseView {
    ProseView { fingerprint: size, text: said, whole: reread || !has_grown(from, size) }
}

/// A whole file's prose, or only what it has gained since `from`.
///
/// **Grown**: the new bytes alone were read. **Shrunk**: it was read whole. A place
/// inside a character is also a whole read rather than a failure.
pub fn file_prose(size: u64, from: u64, said: String, reread: bool) -> (r: Prose)
    ensures
        r@ == file_prose_of(size, from, said@, reread),
{
    Prose { fingerprint: size, text: said, whole: reread || !grown(from, size) }
}

// ---------------------------------------------------------------------------
// A title
// ---------------------------------------------------------------------------
/// Control characters as spaces.
pub open spec fn flattened(s: Seq<char>) -> Seq<char> {
    s.map_values(
        |c: char|
            if text::is_control(c) {
                ' '
            } else {
                c
            },
    )
}

/// Runs of spaces as one.
pub open spec fn squeezed(s: Seq<char>) -> Seq<char>
    decreases s.len(),
{
    if s.len() == 0 {
        s
    } else {
        let r = squeezed(s.drop_last());
        if s.last() == ' ' && r.len() > 0 && r.last() == ' ' {
            r
        } else {
            r.push(s.last())
        }
    }
}

pub open spec fn prompt_title(s: Seq<char>) -> Seq<char> {
    let t = text::trimmed(squeezed(flattened(s)));
    if t.len() > 80 {
        t.take(79) + "…"@
    } else {
        t
    }
}

/// A title taken from something somebody typed: one line, single-spaced, and cut to
/// something a row can hold.
pub fn title_from_prompt(s: &str) -> (r: String)
    ensures
        r@ == prompt_title(s@),
{
    let v = chars_of(s);
    let ghost flat = flattened(s@);
    let mut out: Vec<char> = Vec::new();
    let mut i: usize = 0;
    assert(out@ =~= squeezed(flat.take(0)));
    while i < v.len()
        invariant
            i <= v@.len(),
            v@ == s@,
            flat == flattened(s@),
            out@ == squeezed(flat.take(i as int)),
        decreases v@.len() - i,
    {
        assert(flat.take(i + 1).drop_last() =~= flat.take(i as int));
        let c = if control(v[i]) {
            ' '
        } else {
            v[i]
        };
        assert(flat.take(i + 1).last() == c);
        if !(c == ' ' && out.len() > 0 && out[out.len() - 1] == ' ') {
            out.push(c);
        }
        i = i + 1;
    }
    assert(flat.take(flat.len() as int) =~= flat);
    let one = text::text_of(&out);
    let t = trim(&one);
    let w = chars_of(&t);
    if w.len() > 80 {
        let mut cut = slice(&w, 0, 79);
        assert(cut@ =~= t@.take(79));
        cut.append("…");
        cut
    } else {
        t
    }
}

/// A text, where there is one to show.
pub open spec fn shown(s: Seq<char>) -> Option<Seq<char>> {
    if text::trimmed(s).len() > 0 {
        Some(text::trimmed(s))
    } else {
        None
    }
}

/// The text without the space round it, unless there is nothing but space.
pub fn show(s: &str) -> (r: Option<String>)
    ensures
        text::opt_string(r) == shown(s@),
{
    let t = trim(s);
    if t.as_str().is_empty() {
        None
    } else {
        Some(t)
    }
}

/// Everything between two markers, the first time they occur.
pub open spec fn marked(s: Seq<char>, open: Seq<char>, close: Seq<char>) -> Option<Seq<char>> {
    match text::find(s, open) {
        None => None,
        Some(i) => match text::find_from(s, close, i + open.len()) {
            None => None,
            Some(b) => Some(s.subrange(i + open.len(), b)),
        },
    }
}

pub fn between(s: &str, open: &str, close: &str) -> (r: Option<String>)
    ensures
        text::opt_string(r) == marked(s@, open@, close@),
{
    let v = chars_of(s);
    let o = chars_of(open);
    let c = chars_of(close);
    match find_at(&v, &o, 0) {
        None => None,
        Some(i) => {
            let a: usize = i + o.len();
            proof {
                text::lemma_find_from(v@, c@, a as int);
            }
            match find_at(&v, &c, a) {
                None => None,
                Some(b) => Some(slice(&v, a, b)),
            }
        },
    }
}

// ---------------------------------------------------------------------------
// Whichever agent it is
// ---------------------------------------------------------------------------
/// What the program read for one conversation. Each agent's reader looks at its own
/// part of it.
pub struct Store {
    /// The last lines of its transcript.
    pub lines: Vec<String>,
    /// The opening of its file, or all of a chat log, where it could be read.
    pub text: Option<String>,
    /// The file that says where conversations ran.
    pub history: Option<String>,
    /// The names the project directories go by.
    pub projects: Vec<gemini::Project>,
    /// The title and the directory that a database gave.
    pub row: Option<(Cell, Cell)>,
    /// The messages that a database gave, newest first.
    pub messages: Vec<opencode::Message>,
}

pub struct StoreView {
    pub lines: Seq<Seq<char>>,
    pub text: Option<Seq<char>>,
    pub history: Option<Seq<char>>,
    pub projects: Seq<(Seq<char>, Seq<char>)>,
    pub row: Option<(Seq<char>, Seq<char>)>,
    pub messages: Seq<opencode::MessageView>,
}

impl View for Store {
    type V = StoreView;

    open spec fn view(&self) -> StoreView {
        StoreView {
            lines: text::texts(self.lines@),
            text: text::opt_string(self.text),
            history: text::opt_string(self.history),
            projects: gemini::projects_view(self.projects@),
            row: opencode::row_view(self.row),
            messages: opencode::messages_view(self.messages@),
        }
    }
}

fn as_opt(o: &Option<String>) -> (r: Option<&str>)
    ensures
        text::opt(r) == text::opt_string(*o),
{
    match o {
        Some(s) => Some(s.as_str()),
        None => None,
    }
}

/// Every conversation every agent has: the files of the project directories, those
/// below the rollouts, those of the chats, the rows of the database, and the
/// transcripts.
pub open spec fn every(
    agent: Seq<char>,
    projects: Seq<FileView>,
    rollouts: Seq<FileView>,
    chats: Seq<FileView>,
    rows: Seq<Vec<Cell>>,
    transcripts: Seq<FileView>,
) -> Seq<PastView> {
    claude::conversations(agent, projects) + codex::rollouts(rollouts) + gemini::chats(chats)
        + opencode::listed(rows) + agy::all_in(transcripts)
}

/// Every conversation every agent has, unsorted.
///
/// Uncapped on purpose: a month-old conversation is the one you cannot find any
/// other way, and it is also the one a recency cap drops first.
pub fn discover(
    agent: &str,
    projects: &Vec<File>,
    rollouts: &Vec<File>,
    chats: &Vec<File>,
    rows: &Vec<Vec<Cell>>,
    transcripts: &Vec<File>,
) -> (r: Vec<Past>)
    ensures
        pasts_view(r@) == every(
            agent@,
            files_view(projects@),
            files_view(rollouts@),
            files_view(chats@),
            rows@,
            files_view(transcripts@),
        ),
{
    let mut out = claude::discover(agent, projects);
    let ghost a = pasts_view(out@);
    let mut more = codex::discover(rollouts);
    let ghost b = pasts_view(more@);
    out.append(&mut more);
    assert(pasts_view(out@) =~= a + b);
    let mut more = gemini::discover(chats);
    let ghost c = pasts_view(more@);
    out.append(&mut more);
    assert(pasts_view(out@) =~= a + b + c);
    let mut more = opencode::discover(rows);
    let ghost d = pasts_view(more@);
    out.append(&mut more);
    assert(pasts_view(out@) =~= a + b + c + d);
    let mut more = agy::discover(transcripts);
    let ghost e = pasts_view(more@);
    out.append(&mut more);
    assert(pasts_view(out@) =~= a + b + c + d + e);
    out
}

pub open spec fn meta_of(
    agent: Seq<char>,
    which: Seq<char>,
    key: Seq<char>,
    store: StoreView,
) -> MetaView {
    if which == agent {
        claude::meta_of(store.lines)
    } else if which == "codex"@ {
        codex::meta_of(store.text)
    } else if which == "gemini"@ {
        gemini::meta_of(key, store.text, store.projects)
    } else if which == "opencode"@ {
        opencode::meta_of(store.row)
    } else if which == "agy"@ {
        agy::meta_of(key, store.history, store.text)
    } else {
        no_meta()
    }
}

/// The directory, version and title for one conversation. An agent nothing knows
/// about answers empty, since the cache is a file anything could have written.
pub fn meta(agent: &str, which: &str, key: &str, store: &Store) -> (r: Meta)
    ensures
        r@ == meta_of(agent@, which@, key@, store@),
{
    if same(which, agent) {
        claude::meta(&store.lines)
    } else if same(which, "codex") {
        codex::meta(as_opt(&store.text))
    } else if same(which, "gemini") {
        gemini::meta(key, as_opt(&store.text), &store.projects)
    } else if same(which, "opencode") {
        opencode::meta(&store.row)
    } else if same(which, "agy") {
        agy::meta(key, as_opt(&store.history), as_opt(&store.text))
    } else {
        Meta::default()
    }
}

pub open spec fn fingerprint_of(which: Seq<char>, size: Option<u64>, stamp: Option<Cell>) -> Option<
    u64,
> {
    if which == "opencode"@ {
        match stamp {
            Some(c) => Some(opencode::at_least_none(c.as_int())),
            None => None,
        }
    } else {
        size
    }
}

/// What "unchanged since the last pass" means for one conversation: the size of its
/// file, or when its database says it was last updated.
pub fn fingerprint(which: &str, size: Option<u64>, stamp: &Option<Cell>) -> (r: Option<u64>)
    ensures
        r == fingerprint_of(which@, size, *stamp),
{
    if same(which, "opencode") {
        match stamp {
            Some(c) => Some(opencode::fingerprint(c)),
            None => None,
        }
    } else {
        size
    }
}

/// The searchable text in what was read of a file.
pub open spec fn extracted(agent: Seq<char>, which: Seq<char>, read: Seq<char>) -> Option<
    Seq<char>,
> {
    let ls = text::lines_of(read);
    if which == agent {
        Some(prose_in::<claude::Line>(ls))
    } else if which == "codex"@ {
        Some(prose_in::<codex::Line>(ls))
    } else if which == "gemini"@ {
        Some(gemini::turns_prose(gemini::turns_in(read)))
    } else if which == "agy"@ {
        Some(prose_in::<agy::Line>(ls))
    } else {
        None
    }
}

pub open spec fn opt_prose(p: Option<Prose>) -> Option<ProseView> {
    match p {
        Some(p) => Some(p@),
        None => None,
    }
}

/// What one read of a conversation gave: the bytes of a file, or the rows of a store.
#[derive(Debug)]
pub struct Gained {
    /// How long the file is.
    pub size: u64,
    /// What was read of it.
    pub read: String,
    /// Whether that is all of it although it grew.
    pub reread: bool,
    /// When the conversation last said anything, where a database keeps it.
    pub stamp: i64,
    /// Everything in that one, in order.
    pub parts: Vec<Cell>,
}

#[verifier::ext_equal]
pub struct GainedView {
    pub size: u64,
    pub read: Seq<char>,
    pub reread: bool,
    pub stamp: i64,
    pub parts: Seq<Seq<char>>,
}

impl View for Gained {
    type V = GainedView;

    open spec fn view(&self) -> GainedView {
        GainedView {
            size: self.size,
            read: self.read@,
            reread: self.reread,
            stamp: self.stamp,
            parts: opencode::cell_texts(self.parts@),
        }
    }
}

/// The searchable prose of what was read: all that a database holds, and of a file
/// what it gained since `from`.
pub open spec fn prose_of(
    agent: Seq<char>,
    which: Seq<char>,
    gained: GainedView,
    from: u64,
) -> Option<ProseView> {
    if which != agent && which == "opencode"@ {
        Some(opencode::whole_prose(gained.stamp, gained.parts))
    } else {
        match extracted(agent, which, gained.read) {
            Some(t) => Some(file_prose_of(gained.size, from, t, gained.reread)),
            None => None,
        }
    }
}

/// The searchable prose of one conversation, from `from` onwards where the store can
/// do that.
pub fn prose(agent: &str, which: &str, gained: &Gained, from: u64) -> (r: Option<Prose>)
    ensures
        opt_prose(r) == prose_of(agent@, which@, gained@, from),
{
    proof {
        reveal_strlit("codex");
        reveal_strlit("gemini");
        reveal_strlit("opencode");
        reveal_strlit("agy");
        assert("opencode"@.len() == 8);
        assert("codex"@.len() == 5 && "gemini"@.len() == 6 && "agy"@.len() == 3);
    }
    let said = if same(which, agent) {
        claude::extract(&gained.read)
    } else if same(which, "codex") {
        codex::extract(&gained.read)
    } else if same(which, "gemini") {
        gemini::extract(&gained.read)
    } else if same(which, "opencode") {
        return Some(opencode::prose(gained.stamp, &gained.parts));
    } else if same(which, "agy") {
        agy::extract(&gained.read)
    } else {
        return None;
    };
    Some(file_prose(gained.size, from, said, gained.reread))
}

/// The last turns of the agents whose transcripts are lines.
pub open spec fn line_turns(agent: Seq<char>, which: Seq<char>, ls: Seq<Seq<char>>, want: nat) -> Seq<
    TurnView,
> {
    if which == agent {
        last_said::<claude::Line>(ls, want, Some(claude::REACH))
    } else if which == "codex"@ {
        last_said::<codex::Line>(ls, want, None)
    } else if which == "agy"@ {
        last_said::<agy::Line>(ls, want, None)
    } else {
        Seq::empty()
    }
}

fn turns_in_lines(agent: &str, which: &str, lines: &Vec<String>, want: usize) -> (r: Vec<Turn>)
    ensures
        turns_view(r@) == line_turns(agent@, which@, text::texts(lines@), want as nat),
{
    if same(which, agent) {
        claude::turns(lines, want)
    } else if same(which, "codex") {
        codex::turns(lines, want)
    } else if same(which, "agy") {
        agy::turns(lines, want)
    } else {
        let none: Vec<Turn> = Vec::new();
        assert(turns_view(none@) =~= Seq::empty());
        none
    }
}

/// Where reading a tail for turns has got to.
#[derive(Debug, PartialEq)]
pub enum Tail {
    /// Read so many bytes from the end.
    Read(u64),
    /// There are enough of them, or there are no more.
    Done(Vec<Turn>),
}

#[verifier::ext_equal]
pub enum TailView {
    Read(u64),
    Done(Seq<TurnView>),
}

impl View for Tail {
    type V = TailView;

    open spec fn view(&self) -> TailView {
        match self {
            Tail::Read(n) => TailView::Read(*n),
            Tail::Done(v) => TailView::Done(turns_view(v@)),
        }
    }
}

/// What comes of the windows tried so far, of which the last held these lines.
pub open spec fn tail_of_lines(
    tried: int,
    found: Seq<TurnView>,
    whole: bool,
    want: nat,
) -> TailView {
    match window_at(tried) {
        Some(n) => if tried == 0 || (found.len() < want && !whole) {
            TailView::Read(n)
        } else {
            TailView::Done(found)
        },
        None => TailView::Done(found),
    }
}

/// Walk a tail backwards for turns, widening the window until there are enough of
/// them or the whole file has been read: what to read next, or the turns. `lines` are
/// those of the last of the windows that were `tried`, and `whole` says that it was
/// all of the file.
pub fn tail_turns(
    agent: &str,
    which: &str,
    tried: usize,
    lines: &Vec<String>,
    whole: bool,
    want: usize,
) -> (r: Tail)
    ensures
        r@ == tail_of_lines(
            tried as int,
            line_turns(agent@, which@, text::texts(lines@), want as nat),
            whole,
            want as nat,
        ),
{
    let found = turns_in_lines(agent, which, lines, want);
    assert(turns_view(found@).len() == found@.len());
    match window(tried) {
        Some(n) => if tried == 0 || (found.len() < want && !whole) {
            Tail::Read(n)
        } else {
            Tail::Done(found)
        },
        None => Tail::Done(found),
    }
}

pub open spec fn turns_of(agent: Seq<char>, which: Seq<char>, store: StoreView, want: nat) -> Seq<
    TurnView,
> {
    if which == agent {
        line_turns(agent, which, store.lines, want)
    } else if which == "gemini"@ {
        match store.text {
            Some(log) => last_of(gemini::turns_in(log), want),
            None => Seq::empty(),
        }
    } else if which == "opencode"@ {
        opencode::turns_from(store.messages, 0, want, Seq::empty()).reverse()
    } else {
        line_turns(agent, which, store.lines, want)
    }
}

/// The last `want` turns, oldest first.
pub fn turns(agent: &str, which: &str, store: &Store, want: usize) -> (r: Vec<Turn>)
    ensures
        turns_view(r@) == turns_of(agent@, which@, store@, want as nat),
{
    if same(which, agent) {
        turns_in_lines(agent, which, &store.lines, want)
    } else if same(which, "gemini") {
        match &store.text {
            Some(log) => gemini::turns(log, want),
            None => {
                let none: Vec<Turn> = Vec::new();
                assert(turns_view(none@) =~= Seq::empty());
                none
            },
        }
    } else if same(which, "opencode") {
        opencode::turns(&store.messages, want)
    } else {
        turns_in_lines(agent, which, &store.lines, want)
    }
}

pub open spec fn resumed(
    agent: Seq<char>,
    which: Seq<char>,
    key: Seq<char>,
    opening: Option<Seq<char>>,
) -> Result<Seq<char>, Seq<char>> {
    if which == agent {
        Ok(claude::resume_line(agent, key))
    } else if which == "codex"@ {
        codex::resumed(key, opening)
    } else if which == "gemini"@ {
        gemini::resumed(key, opening)
    } else if which == "opencode"@ {
        Ok("command opencode --session "@ + tmux::quoted(key))
    } else if which == "agy"@ {
        agy::resumed(key)
    } else {
        Err("taimux does not know how to resume a "@ + which + " session"@)
    }
}

/// The command that opens this conversation again, or why it cannot be: a tool with
/// nothing to resume by has to say so. `opening` is what its file holds, as far as it
/// was read.
pub fn resume(agent: &str, which: &str, key: &str, opening: Option<&str>) -> (r: Result<
    String,
    String,
>)
    ensures
        tmux::result_texts(r) == resumed(agent@, which@, key@, text::opt(opening)),
{
    if same(which, agent) {
        Ok(claude::resume(agent, key))
    } else if same(which, "codex") {
        codex::resume(key, opening)
    } else if same(which, "gemini") {
        gemini::resume(key, opening)
    } else if same(which, "opencode") {
        Ok(opencode::resume(key))
    } else if same(which, "agy") {
        agy::resume(key)
    } else {
        let mut s = "taimux does not know how to resume a ".to_owned();
        s.append(which);
        s.append(" session");
        Err(s)
    }
}

pub open spec fn transcript_of(which: Seq<char>, key: Seq<char>, is_file: bool) -> Option<
    Seq<char>,
> {
    if which != "opencode"@ && is_file {
        Some(key)
    } else {
        None
    }
}

/// The transcript file behind a conversation, where there is one. A conversation in
/// a database has none.
pub fn transcript(which: &str, key: &str, is_file: bool) -> (r: Option<String>)
    ensures
        text::opt_string(r) == transcript_of(which@, key@, is_file),
{
    if !same(which, "opencode") && is_file {
        Some(key.to_owned())
    } else {
        None
    }
}

// ---------------------------------------------------------------------------
// Laws
// ---------------------------------------------------------------------------
/// A title is one line of at most eighty characters: nothing in it could shift a
/// tab-separated field or break a row.
pub proof fn lemma_a_title_is_one_short_line(s: Seq<char>, i: int)
    ensures
        prompt_title(s).len() <= 80,
        0 <= i < prompt_title(s).len() ==> !text::is_control(prompt_title(s)[i]),
{
    let flat = flattened(s);
    lemma_squeezed(flat);
    let one = squeezed(flat);
    let t = text::trimmed(one);
    reveal_strlit("…");
    text::lemma_trimmed_start(one);
    text::lemma_trimmed_end(text::trimmed_start(one));
    assert forall|k: int| 0 <= k < t.len() implies !text::is_control(#[trigger] t[k]) by {
        let ts = text::trimmed_start(one);
        assert(t[k] == ts[k]);
        assert(ts[k] == one[k + (one.len() - ts.len())]);
    }
}

proof fn lemma_squeezed(s: Seq<char>)
    requires
        forall|i: int| 0 <= i < s.len() ==> !text::is_control(#[trigger] s[i]),
    ensures
        forall|i: int| 0 <= i < squeezed(s).len() ==> !text::is_control(#[trigger] squeezed(s)[i]),
    decreases s.len(),
{
    if s.len() > 0 {
        lemma_squeezed(s.drop_last());
        let r = squeezed(s.drop_last());
        assert forall|i: int| 0 <= i < squeezed(s).len() implies !text::is_control(
            #[trigger] squeezed(s)[i],
        ) by {
            if i < r.len() {
                assert(squeezed(s)[i] == r[i]);
            } else {
                assert(squeezed(s)[i] == s[s.len() - 1]);
            }
        }
    }
}

/// A backwards reader hands back no more than four turns past its quota.
pub proof fn lemma_a_reader_stops<R: Record>(ls: Seq<Seq<char>>, want: nat, cap: Option<usize>)
    ensures
        last_said::<R>(ls, want, cap).len() <= want + 4,
{
    lemma_back_stops::<R>(ls, reach(ls.len(), cap), ls.len() as int, want, Seq::empty());
}

proof fn lemma_back_stops<R: Record>(
    ls: Seq<Seq<char>>,
    from: int,
    to: int,
    want: nat,
    out: Seq<TurnView>,
)
    requires
        out.len() <= want + 4,
    ensures
        back::<R>(ls, from, to, want, out).len() <= want + 4,
    decreases to - from,
{
    if to <= from || satisfied(out, want) {
    } else {
        match R::says(ls[to - 1]) {
            Some(t) => lemma_back_stops::<R>(ls, from, to - 1, want, out.push(t)),
            None => lemma_back_stops::<R>(ls, from, to - 1, want, out),
        }
    }
}

/// Where one of your turns is among the last of a conversation, as far as four past
/// the quota, one is among those that are shown.
pub proof fn lemma_a_question_is_reached(all: Seq<TurnView>, want: nat)
    requires
        yours(
            all.skip(
                if all.len() > want + 4 {
                    all.len() - (want + 4)
                } else {
                    0
                },
            ),
        ),
    ensures
        yours(last_of(all, want)),
{
    let start: int = if all.len() > want {
        all.len() - want
    } else {
        0
    };
    lemma_tail_start(all, start, want);
}

proof fn lemma_tail_start(all: Seq<TurnView>, from: int, want: nat)
    requires
        0 <= from <= all.len(),
        all.len() - from <= want + 4,
        yours(
            all.skip(
                if all.len() > want + 4 {
                    all.len() - (want + 4)
                } else {
                    0
                },
            ),
        ),
    ensures
        yours(all.skip(tail_start(all, from, want))),
    decreases from,
{
    if from > 0 && !yours(all.skip(from)) && all.len() - from < want + 4 {
        lemma_tail_start(all, from - 1, want);
    }
}

/// A conversation is resumed in the agent that held it, by the id that agent knows it by;
/// an agent that is not known resumes nothing.
pub proof fn lemma_a_conversation_is_resumed_in_its_agent(
    agent: Seq<char>,
    which: Seq<char>,
    key: Seq<char>,
    opening: Option<Seq<char>>,
)
    ensures
        resumed(agent, agent, key, opening) == Ok::<Seq<char>, Seq<char>>(
            "command "@ + agent + " --resume "@ + tmux::quoted(key),
        ),
        which != agent && which == "opencode"@ ==> resumed(agent, which, key, opening) == Ok::<
            Seq<char>,
            Seq<char>,
        >("command opencode --session "@ + tmux::quoted(key)),
        which != agent && which == "codex"@ ==> match resumed(agent, which, key, opening) {
            Ok(c) => codex::thread_id(key, opening).len() > 0 && c == "command codex resume "@
                + tmux::quoted(codex::thread_id(key, opening)),
            Err(_) => codex::thread_id(key, opening).len() == 0,
        },
        which != agent && which == "agy"@ ==> match resumed(agent, which, key, opening) {
            Ok(c) => crate::paths::component_above(key, 3).len() > 0 && c == "command agy --conversation "@
                + tmux::quoted(crate::paths::component_above(key, 3)),
            Err(_) => crate::paths::component_above(key, 3).len() == 0,
        },
        which != agent && which != "codex"@ && which != "gemini"@ && which != "opencode"@ && which
            != "agy"@ ==> resumed(agent, which, key, opening) is Err,
{
    reveal_strlit("codex");
    reveal_strlit("gemini");
    reveal_strlit("opencode");
    reveal_strlit("agy");
    assert("codex"@.len() == 5 && "gemini"@.len() == 6 && "opencode"@.len() == 8 && "agy"@.len()
        == 3);
}

/// Everything that was said on the lines, in order.
pub open spec fn all_turns<R: Record>(ls: Seq<Seq<char>>) -> Seq<TurnView>
    decreases ls.len(),
{
    if ls.len() == 0 {
        Seq::empty()
    } else {
        match R::says(ls.last()) {
            Some(t) => all_turns::<R>(ls.drop_last()).push(t),
            None => all_turns::<R>(ls.drop_last()),
        }
    }
}

/// A conversation of no more lines than are wanted is given whole, in the order it was
/// held.
pub proof fn lemma_a_short_conversation_is_given_whole<R: Record>(ls: Seq<Seq<char>>, want: nat)
    requires
        ls.len() <= want,
    ensures
        last_said::<R>(ls, want, None) == all_turns::<R>(ls),
{
    let none = Seq::<TurnView>::empty();
    assert(ls.take(ls.len() as int) =~= ls);
    lemma_back_takes_all::<R>(ls, ls.len() as int, want, none);
    assert(none + all_turns::<R>(ls).reverse() =~= all_turns::<R>(ls).reverse());
    assert(all_turns::<R>(ls).reverse().reverse() =~= all_turns::<R>(ls));
}

proof fn lemma_back_takes_all<R: Record>(
    ls: Seq<Seq<char>>,
    to: int,
    want: nat,
    out: Seq<TurnView>,
)
    requires
        0 <= to <= ls.len(),
        out.len() + to <= want,
    ensures
        back::<R>(ls, 0, to, want, out) == out + all_turns::<R>(ls.take(to)).reverse(),
    decreases to,
{
    if to == 0 {
        assert(ls.take(0) =~= Seq::<Seq<char>>::empty());
        assert(out + all_turns::<R>(ls.take(to)).reverse() =~= out);
    } else {
        let front = ls.take(to - 1);
        assert(ls.take(to).drop_last() =~= front);
        assert(ls.take(to).last() == ls[to - 1]);
        match R::says(ls[to - 1]) {
            Some(t) => {
                lemma_back_takes_all::<R>(ls, to - 1, want, out.push(t));
                assert(out.push(t) + all_turns::<R>(front).reverse() =~= out + all_turns::<R>(
                    front,
                ).push(t).reverse());
            },
            None => {
                lemma_back_takes_all::<R>(ls, to - 1, want, out);
            },
        }
    }
}

/// What is indexed of a conversation holds everything that was said in it.
pub proof fn lemma_the_prose_holds_every_turn<R: Record>(ls: Seq<Seq<char>>, i: int, t: TurnView)
    requires
        0 <= i < ls.len(),
        R::says(ls[i]) == Some(t),
    ensures
        text::has(prose_in::<R>(ls), t.text + " "@),
    decreases ls.len(),
{
    let front = ls.drop_last();
    let before = prose_in::<R>(front);
    let want = t.text + " "@;
    if i == ls.len() - 1 {
        assert(prose_in::<R>(ls) =~= before + want + Seq::<char>::empty());
        text::lemma_has_middle(before, want, Seq::empty());
    } else {
        assert(front[i] == ls[i]);
        lemma_the_prose_holds_every_turn::<R>(front, i, t);
        let k = choose|k: int| text::occurs_at(before, want, k);
        assert(prose_in::<R>(ls).subrange(k, k + want.len()) =~= before.subrange(
            k,
            k + want.len(),
        ));
        assert(text::occurs_at(prose_in::<R>(ls), want, k));
    }
}

/// What a conversation is called, where it was held and which version it ran is asked of
/// the agent that held it, and of an agent that is not known nothing is.
pub proof fn lemma_each_agent_describes_its_own(
    agent: Seq<char>,
    which: Seq<char>,
    key: Seq<char>,
    store: StoreView,
)
    ensures
        meta_of(agent, agent, key, store) == claude::meta_of(store.lines),
        which != agent && which == "codex"@ ==> meta_of(agent, which, key, store)
            == codex::meta_of(store.text),
        which != agent && which == "gemini"@ ==> meta_of(agent, which, key, store)
            == gemini::meta_of(key, store.text, store.projects),
        which != agent && which == "opencode"@ ==> meta_of(agent, which, key, store)
            == opencode::meta_of(store.row),
        which != agent && which == "agy"@ ==> meta_of(agent, which, key, store) == agy::meta_of(
            key,
            store.history,
            store.text,
        ),
        which != agent && which != "codex"@ && which != "gemini"@ && which != "opencode"@ && which
            != "agy"@ ==> meta_of(agent, which, key, store).title.len() == 0 && meta_of(
            agent,
            which,
            key,
            store,
        ).cwd.len() == 0,
{
    reveal_strlit("codex");
    reveal_strlit("gemini");
    reveal_strlit("opencode");
    reveal_strlit("agy");
    assert("codex"@.len() == 5 && "gemini"@.len() == 6 && "opencode"@.len() == 8 && "agy"@.len()
        == 3);
}

/// A file is read from its end in windows that grow, each sixteen times the one before,
/// until enough was said in what was read or there is no more of it.
pub proof fn lemma_a_tail_is_read_in_growing_windows(
    tried: int,
    found: Seq<TurnView>,
    whole: bool,
    want: nat,
)
    requires
        0 <= tried,
    ensures
        tail_of_lines(0, found, whole, want) == TailView::Read(0x4_0000u64),
        tried > 0 && (found.len() >= want || whole) ==> tail_of_lines(tried, found, whole, want)
            == TailView::Done(found),
        tried > 2 ==> tail_of_lines(tried, found, whole, want) == TailView::Done(found),
        0 < tried <= 2 && found.len() < want && !whole ==> match tail_of_lines(
            tried,
            found,
            whole,
            want,
        ) {
            TailView::Read(n) => n == 16 * window_at(tried - 1)->0,
            TailView::Done(_) => false,
        },
{
}

/// What was said since the last reading is told apart from the whole: it is the whole
/// where nothing was read before, where the file has not grown, and where it was read
/// again.
pub proof fn lemma_what_was_gained_is_told_apart(
    size: u64,
    from: u64,
    said: Seq<char>,
    reread: bool,
)
    ensures
        file_prose_of(size, from, said, reread).text == said,
        file_prose_of(size, from, said, reread).fingerprint == size,
        !file_prose_of(size, from, said, reread).whole <==> !reread && 0 < from && from < size,
{
}

/// The conversations of every agent are listed, each under its own agent.
pub proof fn lemma_every_conversation_is_listed(
    agent: Seq<char>,
    projects: Seq<FileView>,
    rollouts: Seq<FileView>,
    chats: Seq<FileView>,
    rows: Seq<Vec<Cell>>,
    transcripts: Seq<FileView>,
    i: int,
)
    ensures
        ({
            let all = every(agent, projects, rollouts, chats, rows, transcripts);
            &&& 0 <= i < projects.len() && crate::paths::ends_in(projects[i].path, "jsonl"@)
                && !projects[i].is_dir ==> exists|k: int|
                0 <= k < all.len() && (#[trigger] all[k]).agent == agent && all[k].key
                    == projects[i].path && all[k].mtime == projects[i].mtime
            &&& 0 <= i < rollouts.len() && crate::paths::ends_in(rollouts[i].path, "jsonl"@)
                && !rollouts[i].is_dir ==> exists|k: int|
                0 <= k < all.len() && (#[trigger] all[k]).agent == "codex"@ && all[k].key
                    == rollouts[i].path && all[k].mtime == rollouts[i].mtime
            &&& 0 <= i < transcripts.len() ==> exists|k: int|
                0 <= k < all.len() && (#[trigger] all[k]).agent == "agy"@ && all[k].key
                    == transcripts[i].path && all[k].mtime == transcripts[i].mtime
        }),
{
    let all = every(agent, projects, rollouts, chats, rows, transcripts);
    let a = claude::conversations(agent, projects);
    let b = codex::rollouts(rollouts);
    let c = gemini::chats(chats);
    let d = opencode::listed(rows);
    let e = agy::all_in(transcripts);
    if 0 <= i < projects.len() && crate::paths::ends_in(projects[i].path, "jsonl"@)
        && !projects[i].is_dir {
        let k = claude::lemma_a_conversation_is_listed(agent, projects, i);
        assert(all[k] == a[k]);
    }
    if 0 <= i < rollouts.len() && crate::paths::ends_in(rollouts[i].path, "jsonl"@)
        && !rollouts[i].is_dir {
        let k = codex::lemma_a_rollout_is_listed(rollouts, i);
        assert(all[a.len() + k] == b[k]);
    }
    if 0 <= i < transcripts.len() {
        assert(all[a.len() + b.len() + c.len() + d.len() + i] == e[i]);
    }
}

/// An agent is spoken of by its name with a capital, and called in full by that and the
/// word behind it.
pub proof fn lemma_what_an_agent_is_called(name: Seq<char>)
    requires
        name.len() > 0,
    ensures
        spoken_name(name).len() == name.len(),
        spoken_name(name).skip(1) == name.skip(1),
        'a' <= name[0] <= 'z' ==> 'A' <= spoken_name(name)[0] <= 'Z' && spoken_name(name)[0] as u32
            + 32 == name[0] as u32,
        proper_name(name) == spoken_name(name) + " Code"@,
{
    assert(spoken_name(name).skip(1) =~= name.skip(1));
}

/// The agents whose conversations are known.
pub proof fn lemma_the_agents_that_are_known(agent: Seq<char>)
    ensures
        known_agents(agent) == seq![agent, "codex"@, "gemini"@, "opencode"@, "agy"@],
        transcript_of("opencode"@, agent, true) is None,
{
}

/// What was last said in a conversation is asked of the agent that held it, from where that
/// agent keeps it.
pub proof fn lemma_each_agent_tells_its_own_turns(
    agent: Seq<char>,
    which: Seq<char>,
    store: StoreView,
    want: nat,
)
    ensures
        turns_of(agent, agent, store, want) == last_said::<claude::Line>(
            store.lines,
            want,
            Some(claude::REACH),
        ),
        which != agent && which == "codex"@ ==> turns_of(agent, which, store, want) == last_said::<
            codex::Line,
        >(store.lines, want, None),
        which != agent && which == "agy"@ ==> turns_of(agent, which, store, want) == last_said::<
            agy::Line,
        >(store.lines, want, None),
        which != agent && which == "gemini"@ && store.text is Some ==> turns_of(
            agent,
            which,
            store,
            want,
        ) == last_of(gemini::turns_in(store.text->0), want),
        which != agent && which == "opencode"@ ==> turns_of(agent, which, store, want)
            == opencode::turns_from(store.messages, 0, want, Seq::empty()).reverse(),
{
    reveal_strlit("codex");
    reveal_strlit("gemini");
    reveal_strlit("opencode");
    reveal_strlit("agy");
    assert("codex"@.len() == 5 && "gemini"@.len() == 6 && "opencode"@.len() == 8 && "agy"@.len()
        == 3);
}

/// Of a conversation of no more turns than are wanted all are given, and of any other the
/// end, with a question in it if there is one within reach.
pub proof fn lemma_the_end_of_a_conversation_is_given(all: Seq<TurnView>, want: nat)
    ensures
        all.len() <= want ==> last_of(all, want) == all,
        last_of(all, want).is_suffix_of(all),
        all.len() > want ==> last_of(all, want).len() >= want,
{
    let from = if all.len() > want {
        all.len() - want
    } else {
        0
    };
    lemma_tail_starts_inside(all, from, want);
    let s = tail_start(all, from, want);
    assert(all.subrange(s, all.len() as int) =~= all.skip(s));
    if all.len() <= want {
        assert(all.skip(0) =~= all);
    }
}

proof fn lemma_tail_starts_inside(all: Seq<TurnView>, from: int, want: nat)
    requires
        0 <= from <= all.len(),
    ensures
        0 <= tail_start(all, from, want) <= from,
    decreases from,
{
    if from > 0 && !yours(all.skip(from)) && all.len() - from < want + 4 {
        lemma_tail_starts_inside(all, from - 1, want);
    }
}

} // verus!
