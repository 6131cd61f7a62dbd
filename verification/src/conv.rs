//! Which conversation a session's pane is on.
//!
//! The rungs, in this order, and the order is the whole design:
//!
//! 1. **The pane map**, written by a `SessionStart` hook. Ranked top because it
//!    is rewritten on every start, resume, clear and compact.
//! 2. **The live argv**, which covers every session a previous restart pass
//!    relaunched.
//! 3. **The pane title**, and then a project with only one recent transcript in
//!    it.
use vstd::prelude::*;

use crate::json;
use crate::order;
use crate::paths;
use crate::table;
use crate::table::Table;
use crate::text;
use crate::text::{
    alnum, chars_of, contains, contains_char, dec, lines, listed, parse_i32, same, slice, split,
    starts_with,
};
use crate::tmux;
use crate::tmux::shell_quote;

verus! {

// ---------------------------------------------------------------------------
// Directories
// ---------------------------------------------------------------------------
/// Where the agent keeps its state: the directory it was told, or one in the home
/// directory.
pub fn claude_dir(agent: &str, config_dir: Option<&str>, home: &str) -> (r: String)
    ensures
        r@ == match config_dir {
            Some(d) => d@,
            None => paths::joined(home@, "."@ + agent@),
        },
{
    match config_dir {
        Some(d) => d.to_owned(),
        None => {
            let mut name = ".".to_owned();
            name.append(agent);
            paths::join(home, &name)
        },
    }
}

/// A working directory, in the shape the agent names its project folders: every
/// character that is not a letter or a digit becomes a dash.
pub open spec fn slug(cwd: Seq<char>) -> Seq<char> {
    cwd.map_values(
        |c: char|
            if text::is_alnum(c) {
                c
            } else {
                '-'
            },
    )
}

pub open spec fn project_dir(claude: Seq<char>, cwd: Seq<char>) -> Seq<char> {
    paths::joined(paths::joined(claude, "projects"@), slug(cwd))
}

/// The folder of a working directory's conversations, under the agent's own.
pub fn project_dir_for(claude: &str, cwd: &str) -> (r: String)
    ensures
        r@ == project_dir(claude@, cwd@),
{
    let v = chars_of(cwd);
    let mut out = String::new();
    let mut i: usize = 0;
    assert(out@ =~= slug(cwd@).take(0));
    while i < v.len()
        invariant
            i <= v@.len(),
            v@ == cwd@,
            out@ == slug(cwd@).take(i as int),
        decreases v@.len() - i,
    {
        let c = if alnum(v[i]) {
            v[i]
        } else {
            '-'
        };
        out.push(c);
        assert(slug(cwd@).take(i + 1) =~= slug(cwd@).take(i as int).push(c));
        i = i + 1;
    }
    assert(slug(cwd@).take(cwd@.len() as int) =~= slug(cwd@));
    let root = paths::join(claude, "projects");
    paths::join(&root, &out)
}

/// A process's argv, as it stands in `/proc`: separated by NUL.
pub fn argv_of(raw: &str) -> (r: Vec<String>)
    ensures
        text::texts(r@) == text::nonempty(text::fields(raw@, '\0')),
{
    let parts = split(raw, '\0');
    text::drop_empty(&parts)
}

// ---------------------------------------------------------------------------
// The argv rungs
// ---------------------------------------------------------------------------
/// Is it a flag rather than a value?
pub open spec fn dashed(s: Seq<char>) -> bool {
    "-"@.is_prefix_of(s)
}

/// The value of the flag at `i`: the argument behind it, unless that is a flag
/// itself.
pub open spec fn value_at(argv: Seq<Seq<char>>, i: int) -> Option<Seq<char>> {
    if 0 <= i && i + 1 < argv.len() && !dashed(argv[i + 1]) {
        Some(argv[i + 1])
    } else {
        None
    }
}

/// The last value that either of two flags has, among the first `n` arguments.
/// The program itself is none of them.
pub open spec fn flag_value(
    argv: Seq<Seq<char>>,
    a: Seq<char>,
    b: Seq<char>,
    n: int,
) -> Option<Seq<char>>
    decreases n,
{
    if n <= 1 || n > argv.len() {
        None
    } else if (argv[n - 1] == a || argv[n - 1] == b) && value_at(argv, n - 1) is Some {
        value_at(argv, n - 1)
    } else {
        flag_value(argv, a, b, n - 1)
    }
}

/// Does a flag stand among the arguments, the program aside?
pub open spec fn flagged(argv: Seq<Seq<char>>, flag: Seq<char>) -> bool {
    exists|i: int| 1 <= i < argv.len() && #[trigger] argv[i] == flag
}

/// The session `attach` names outright, and only as the FIRST argument.
pub open spec fn attached(argv: Seq<Seq<char>>) -> Option<Seq<char>> {
    if argv.len() > 2 && argv[1] == "attach"@ && !dashed(argv[2]) {
        Some(argv[2])
    } else {
        None
    }
}

pub open spec fn session_id(argv: Seq<Seq<char>>) -> Option<Seq<char>> {
    flag_value(argv, "--session-id"@, "--session-id"@, argv.len() as int)
}

/// What the process resumed. A forked session resumes its PARENT, whose own pane
/// is somewhere else entirely, so there the value is dropped.
pub open spec fn resumed(argv: Seq<Seq<char>>) -> Option<Seq<char>> {
    if flagged(argv, "--fork-session"@) {
        None
    } else {
        flag_value(argv, "-r"@, "--resume"@, argv.len() as int)
    }
}

fn dash(s: &str) -> (r: bool)
    ensures
        r == dashed(s@),
{
    starts_with(s, "-")
}

fn value_of_flag(argv: &[String], a: &str, b: &str) -> (r: Option<String>)
    ensures
        text::opt_string(r) == flag_value(text::texts(argv@), a@, b@, argv@.len() as int),
{
    let ghost all = text::texts(argv@);
    let mut n: usize = argv.len();
    let len: usize = n;
    while n > 1
        invariant
            n <= len == argv@.len(),
            all == text::texts(argv@),
            flag_value(all, a@, b@, n as int) == flag_value(all, a@, b@, len as int),
        decreases n,
    {
        assert(all[n - 1] == argv@[n - 1]@);
        if same(&argv[n - 1], a) || same(&argv[n - 1], b) {
            if n < len {
                assert(all[n as int] == argv@[n as int]@);
                if !dash(&argv[n]) {
                    return Some(argv[n].clone());
                }
            }
        }
        n = n - 1;
    }
    None
}

fn has_flag(argv: &[String], flag: &str) -> (r: bool)
    ensures
        r == flagged(text::texts(argv@), flag@),
{
    let ghost all = text::texts(argv@);
    let mut i: usize = 1;
    while i < argv.len()
        invariant
            1 <= i,
            i <= argv@.len() || i == 1,
            all == text::texts(argv@),
            forall|j: int| 1 <= j < i && j < all.len() ==> #[trigger] all[j] != flag@,
        decreases argv@.len() - i,
    {
        assert(all[i as int] == argv@[i as int]@);
        if same(&argv[i], flag) {
            return true;
        }
        i = i + 1;
    }
    false
}

/// What the argv says: the session `attach` names, the one `--session-id` names,
/// and the one `--resume` names.
///
/// A **forked** session is the trap: it runs as
/// `--session-id <new> --fork-session --resume <PARENT transcript>`, writing a
/// brand-new transcript named by `--session-id` while the `--resume` value names
/// the parent. So when `--fork-session` is present the `--resume` value is dropped
/// and the id wins.
///
/// `attach <session-id>` names a session outright, and only as the FIRST
/// argument: a later `attach` is a word somebody typed, not a session.
pub fn from_argv(argv: &[String]) -> (r: (Option<String>, Option<String>, Option<String>))
    ensures
        text::opt_string(r.0) == attached(text::texts(argv@)),
        text::opt_string(r.1) == session_id(text::texts(argv@)),
        text::opt_string(r.2) == resumed(text::texts(argv@)),
{
    let ghost all = text::texts(argv@);
    assert(forall|i: int| 0 <= i < argv@.len() ==> all[i] == argv@[i]@);
    let sid = value_of_flag(argv, "--session-id", "--session-id");
    let res = if has_flag(argv, "--fork-session") {
        None
    } else {
        value_of_flag(argv, "-r", "--resume")
    };
    let att = if argv.len() > 2 && same(&argv[1], "attach") && !dash(&argv[2]) {
        Some(argv[2].clone())
    } else {
        None
    };
    (att, sid, res)
}

// ---------------------------------------------------------------------------
// Transcripts on disk
// ---------------------------------------------------------------------------
/// Does the file's name start with that id, and is it a transcript?
pub open spec fn names_it(id: Seq<char>, path: Seq<char>) -> bool {
    let name = paths::name_of(path);
    id.is_prefix_of(name) && ".jsonl"@.is_suffix_of(name)
}

/// The files among them whose name starts with that id.
pub open spec fn named(id: Seq<char>, files: Seq<Seq<char>>) -> Seq<Seq<char>>
    decreases files.len(),
{
    if files.len() == 0 {
        Seq::empty()
    } else if names_it(id, files.last()) {
        named(id, files.drop_last()).push(files.last())
    } else {
        named(id, files.drop_last())
    }
}

/// The one file an id names. Nothing shaped like a path or a flag is looked up
/// at all, and an id that two files start with names neither.
pub open spec fn one_named(id: Seq<char>, files: Seq<Seq<char>>) -> Option<Seq<char>> {
    if id.len() == 0 || dashed(id) || id.contains('/') || named(id, files).len() != 1 {
        None
    } else {
        Some(named(id, files)[0])
    }
}

/// The transcript a session id names, when exactly one of the files under
/// the agent's projects starts with it.
///
/// Ambiguity is a refusal rather than a guess: a prefix matching two
/// conversations names neither.
pub fn transcript_by_id(id: &str, files: &Vec<String>) -> (r: Option<String>)
    ensures
        text::opt_string(r) == one_named(id@, text::texts(files@)),
{
    if id.is_empty() || dash(id) || contains_char(id, '/') {
        return None;
    }
    let ghost all = text::texts(files@);
    let mut hits: Vec<String> = Vec::new();
    let mut i: usize = 0;
    assert(text::texts(hits@) =~= named(id@, all.take(0)));
    while i < files.len()
        invariant
            i <= files@.len(),
            all == text::texts(files@),
            text::texts(hits@) == named(id@, all.take(i as int)),
        decreases files@.len() - i,
    {
        assert(all.take(i + 1).drop_last() =~= all.take(i as int));
        assert(all.take(i + 1).last() == files@[i as int]@);
        let name = paths::file_name(&files[i]);
        if starts_with(&name, id) && text::ends_with(&name, ".jsonl") {
            let t = files[i].clone();
            proof {
                text::lemma_texts_push(hits@, t);
            }
            hits.push(t);
        }
        i = i + 1;
    }
    assert(all.take(all.len() as int) =~= all);
    assert(text::texts(hits@).len() == hits@.len());
    if hits.len() == 1 {
        assert(text::texts(hits@)[0] == hits@[0]@);
        Some(hits[0].clone())
    } else {
        None
    }
}

/// What the resolver found, and how, so a refusal can say why.
#[derive(Debug, PartialEq, Eq)]
pub struct Resolved {
    pub transcript: String,
    pub why: &'static str,
}

#[verifier::ext_equal]
pub struct ResolvedView {
    pub transcript: Seq<char>,
    pub why: Seq<char>,
}

impl View for Resolved {
    type V = ResolvedView;

    open spec fn view(&self) -> ResolvedView {
        ResolvedView { transcript: self.transcript@, why: self.why@ }
    }
}

pub open spec fn found(transcript: Seq<char>, why: Seq<char>) -> ResolvedView {
    ResolvedView { transcript, why }
}

/// What is known of a pane's session before its conversation is looked for.
pub struct Seen {
    /// The pane map's text, where there is one.
    pub map: Option<String>,
    /// The folder of this working directory's conversations.
    pub project: String,
    /// Is that folder there?
    pub is_dir: bool,
    pub argv: Vec<String>,
    /// Every file one level down in the agent's projects.
    pub projects: Vec<String>,
    /// Those of `wanted_files` that are files.
    pub files: Vec<String>,
}

pub struct SeenView {
    pub map: Option<Seq<char>>,
    pub project: Seq<char>,
    pub is_dir: bool,
    pub argv: Seq<Seq<char>>,
    pub projects: Seq<Seq<char>>,
    pub files: Seq<Seq<char>>,
}

impl View for Seen {
    type V = SeenView;

    open spec fn view(&self) -> SeenView {
        SeenView {
            map: text::opt_string(self.map),
            project: self.project@,
            is_dir: self.is_dir,
            argv: text::texts(self.argv@),
            projects: text::texts(self.projects@),
            files: text::texts(self.files@),
        }
    }
}

/// The file a pane's map is in: named by the pane's number.
pub open spec fn map_file(claude: Seq<char>, pane: Seq<char>) -> Seq<char> {
    paths::joined(paths::joined(claude, "tmux-panes"@), unmarked(pane) + ".json"@)
}

/// A pane id without the marks it opens with.
pub open spec fn unmarked(pane: Seq<char>) -> Seq<char>
    decreases pane.len(),
{
    if pane.len() > 0 && pane[0] == '%' {
        unmarked(pane.skip(1))
    } else {
        pane
    }
}

pub fn pane_number(pane: &str) -> (r: String)
    ensures
        r@ == unmarked(pane@),
{
    let v = chars_of(pane);
    let n: usize = v.len();
    let mut i: usize = 0;
    assert(v@.skip(0) =~= v@);
    while i < n && v[i] == '%'
        invariant
            i <= n == v@.len(),
            unmarked(v@.skip(i as int)) == unmarked(v@),
        decreases n - i,
    {
        assert(v@.skip(i as int)[0] == v@[i as int]);
        assert(v@.skip(i as int).skip(1) =~= v@.skip(i + 1));
        i = i + 1;
    }
    assert(i < n ==> v@.skip(i as int)[0] == v@[i as int]);
    assert(v@.subrange(i as int, n as int) =~= v@.skip(i as int));
    slice(&v, i, n)
}

pub fn pane_map_file(claude: &str, pane: &str) -> (r: String)
    ensures
        r@ == map_file(claude@, pane@),
{
    let dir = paths::join(claude, "tmux-panes");
    let mut name = pane_number(pane);
    name.append(".json");
    paths::join(&dir, &name)
}

/// A string field of the pane map, or the empty one.
pub open spec fn map_field(map: Seq<char>, key: Seq<char>) -> Seq<char> {
    json::or_empty(json::scan_from(map, json::quoted(key), 0))
}

fn map_value(map: &str, key: &str) -> (r: String)
    ensures
        r@ == map_field(map@, key@),
{
    match json::scan(map, key) {
        Some(s) => s,
        None => {
            let none = String::new();
            assert(none@ =~= Seq::<char>::empty());
            none
        },
    }
}

/// The transcript an id or a path in the argv stands for.
pub open spec fn transcript_at(project: Seq<char>, v: Seq<char>) -> Seq<char> {
    if "/"@.is_prefix_of(v) {
        v
    } else {
        paths::joined(project, v + ".jsonl"@)
    }
}

fn transcript_for(project: &str, v: &str) -> (r: String)
    ensures
        r@ == transcript_at(project@, v@),
{
    if starts_with(v, "/") {
        v.to_owned()
    } else {
        let mut name = v.to_owned();
        name.append(".jsonl");
        paths::join(project, &name)
    }
}

/// The files whose presence decides: the one the pane map names, and the two the
/// argv does.
pub open spec fn wanted(map: Option<Seq<char>>, project: Seq<char>, argv: Seq<Seq<char>>) -> Seq<
    Seq<char>,
> {
    (match map {
        Some(m) => seq![map_field(m, "transcript_path"@)],
        None => Seq::empty(),
    }) + (match session_id(argv) {
        Some(v) => seq![transcript_at(project, v)],
        None => Seq::empty(),
    }) + (match resumed(argv) {
        Some(v) => seq![transcript_at(project, v)],
        None => Seq::empty(),
    })
}

pub fn wanted_files(map: Option<&str>, project: &str, argv: &[String]) -> (r: Vec<String>)
    ensures
        text::texts(r@) == wanted(text::opt(map), project@, text::texts(argv@)),
{
    let mut out: Vec<String> = Vec::new();
    if let Some(m) = map {
        out.push(map_value(m, "transcript_path"));
    }
    let (_, sid, res) = from_argv(argv);
    if let Some(v) = sid {
        out.push(transcript_for(project, &v));
    }
    if let Some(v) = res {
        out.push(transcript_for(project, &v));
    }
    assert(text::texts(out@) =~= wanted(text::opt(map), project@, text::texts(argv@)));
    out
}

/// The transcript the pane map hands over: one that is there, written by a session
/// in this very directory.
pub open spec fn mapped(seen: SeenView, cwd: Seq<char>) -> Option<Seq<char>> {
    match seen.map {
        Some(m) => {
            let path = map_field(m, "transcript_path"@);
            if path.len() > 0 && seen.files.contains(path) && map_field(m, "cwd"@) == cwd {
                Some(path)
            } else {
                None
            }
        },
        None => None,
    }
}

/// The transcript a flag's value stands for, where it is there.
pub open spec fn present(seen: SeenView, v: Option<Seq<char>>) -> Option<Seq<char>> {
    match v {
        Some(x) => if seen.files.contains(transcript_at(seen.project, x)) {
            Some(transcript_at(seen.project, x))
        } else {
            None
        },
        None => None,
    }
}

/// The transcript the attached session has, in whatever project it was made.
pub open spec fn attach_names(seen: SeenView) -> Option<Seq<char>> {
    match attached(seen.argv) {
        Some(id) => one_named(id, seen.projects),
        None => None,
    }
}

/// What the pane map and the argv say.
pub open spec fn from_pane(seen: SeenView, cwd: Seq<char>) -> Option<ResolvedView> {
    if let Some(t) = mapped(seen, cwd) {
        Some(found(t, "pane map"@))
    } else if !seen.is_dir || seen.argv.len() == 0 {
        None
    } else if let Some(t) = attach_names(seen) {
        Some(found(t, "attach in argv"@))
    } else if let Some(t) = present(seen, session_id(seen.argv)) {
        Some(found(t, "--session-id in argv"@))
    } else if let Some(t) = present(seen, resumed(seen.argv)) {
        Some(found(t, "--resume in argv"@))
    } else {
        None
    }
}

pub open spec fn opt_resolved(o: Option<Resolved>) -> Option<ResolvedView> {
    match o {
        Some(r) => Some(r@),
        None => None,
    }
}

/// The transcript this pane's session is writing to, or None.
///
/// `cwd` is the session's own working directory, and the pane map is only trusted
/// when it agrees: that check is what stops a nested session (which inherits
/// `$TMUX_PANE` from the session that launched it) handing over its throwaway
/// conversation.
///
/// `attach` is looked up before the two flags because it is the most explicit of
/// the three, and by id, because it is the one shape that can put a pane on a
/// conversation belonging to ANOTHER directory.
pub fn resolve_from_pane(cwd: &str, seen: &Seen) -> (r: Option<Resolved>)
    ensures
        opt_resolved(r) == from_pane(seen@, cwd@),
{
    if let Some(m) = &seen.map {
        let path = map_value(m, "transcript_path");
        let mcwd = map_value(m, "cwd");
        if !path.as_str().is_empty() && listed(&seen.files, &path) && same(&mcwd, cwd) {
            return Some(Resolved { transcript: path, why: "pane map" });
        }
    }
    if !seen.is_dir || seen.argv.len() == 0 {
        return None;
    }
    let (att, sid, res) = from_argv(&seen.argv);
    if let Some(a) = att {
        if let Some(t) = transcript_by_id(&a, &seen.projects) {
            return Some(Resolved { transcript: t, why: "attach in argv" });
        }
    }
    if let Some(v) = sid {
        let p = transcript_for(&seen.project, &v);
        if listed(&seen.files, &p) {
            return Some(Resolved { transcript: p, why: "--session-id in argv" });
        }
    }
    if let Some(v) = res {
        let p = transcript_for(&seen.project, &v);
        if listed(&seen.files, &p) {
            return Some(Resolved { transcript: p, why: "--resume in argv" });
        }
    }
    None
}

// ---------------------------------------------------------------------------
// The title rung
// ---------------------------------------------------------------------------
/// How many of a project's transcripts the title scan will consider. A title
/// match over hundreds of conversations is slow AND more likely to collide.
pub const SCAN_CAP: usize = 12;

/// How far back it looks: a month-old transcript is not what a live pane is
/// talking to.
pub const SCAN_MAX_AGE_DAYS: u64 = 30;

/// A line that records a title.
pub open spec fn titled(line: Seq<char>) -> bool {
    text::has(line, "\"type\":\"custom-title\""@) || text::has(line, "\"type\":\"ai-title\""@)
}

/// The title a line records: the one that was given, or the one that was made up.
pub open spec fn title_on(line: Seq<char>) -> Seq<char> {
    let custom = json::or_empty(json::first_value(line, "customTitle"@));
    if custom.len() == 0 {
        json::or_empty(json::first_value(line, "aiTitle"@))
    } else {
        custom
    }
}

/// The titles of the last `left` title records among the first `to` lines, newest
/// first, each once, behind those that `out` already holds.
pub open spec fn titles_up(ls: Seq<Seq<char>>, to: int, left: nat, out: Seq<Seq<char>>) -> Seq<
    Seq<char>,
>
    decreases to,
{
    if to <= 0 || to > ls.len() {
        out
    } else if !titled(ls[to - 1]) {
        titles_up(ls, to - 1, left, out)
    } else if left == 0 {
        out
    } else {
        let t = title_on(ls[to - 1]);
        titles_up(
            ls,
            to - 1,
            (left - 1) as nat,
            if t.len() > 0 && !out.contains(t) {
                out.push(t)
            } else {
                out
            },
        )
    }
}

pub open spec fn titles(transcript: Seq<char>) -> Seq<Seq<char>> {
    let ls = text::lines_of(transcript);
    titles_up(ls, ls.len() as int, 8, Seq::empty())
}

/// The titles a transcript recorded, newest first, deduplicated.
///
/// Only the last eight title records are read: they interleave for the whole
/// life of a session, so the newest few are the ones a pane could be showing.
pub fn titles_of(transcript: &str) -> (r: Vec<String>)
    ensures
        text::texts(r@) == titles(transcript@),
{
    let ls = lines(transcript);
    let ghost all = text::texts(ls@);
    let mut out: Vec<String> = Vec::new();
    let mut left: u8 = 8;
    let mut to: usize = ls.len();
    assert(text::texts(out@) =~= Seq::<Seq<char>>::empty());
    while to > 0
        invariant
            to <= ls@.len(),
            left <= 8,
            all == text::texts(ls@),
            all == text::lines_of(transcript@),
            titles_up(all, to as int, left as nat, text::texts(out@)) == titles_up(
                all,
                all.len() as int,
                8,
                Seq::empty(),
            ),
        decreases to,
    {
        assert(all[to - 1] == ls@[to - 1]@);
        let line = &ls[to - 1];
        if contains(line, "\"type\":\"custom-title\"") || contains(
            line,
            "\"type\":\"ai-title\"",
        ) {
            if left == 0 {
                return out;
            }
            left = left - 1;
            let custom = json::field(line, "customTitle");
            let t = if custom.as_str().is_empty() {
                json::field(line, "aiTitle")
            } else {
                custom
            };
            if !t.as_str().is_empty() && !listed(&out, &t) {
                proof {
                    text::lemma_texts_push(out@, t);
                }
                out.push(t);
            }
        }
        to = to - 1;
    }
    out
}

/// A text without what it opens with that is neither a letter nor a number.
pub open spec fn from_word(s: Seq<char>) -> Seq<char>
    decreases s.len(),
{
    if s.len() > 0 && !text::alphanumeric(s[0]) {
        from_word(s.skip(1))
    } else {
        s
    }
}

pub open spec fn normal_title(t: Seq<char>) -> Seq<char> {
    text::trimmed_end(from_word(t))
}

/// A title with its leading punctuation and trailing space taken off, so a pane
/// title and a recorded one can be compared at all.
pub fn norm_title(t: &str) -> (r: String)
    ensures
        r@ == normal_title(t@),
{
    let v = chars_of(t);
    let n: usize = v.len();
    let mut i: usize = 0;
    assert(v@.skip(0) =~= v@);
    while i < n && !text::is_alphanumeric(v[i])
        invariant
            i <= n == v@.len(),
            from_word(v@.skip(i as int)) == from_word(v@),
        decreases n - i,
    {
        assert(v@.skip(i as int)[0] == v@[i as int]);
        assert(v@.skip(i as int).skip(1) =~= v@.skip(i + 1));
        i = i + 1;
    }
    assert(i < n ==> v@.skip(i as int)[0] == v@[i as int]);
    assert(v@.subrange(i as int, n as int) =~= v@.skip(i as int));
    let rest = slice(&v, i, n);
    text::trim_end(&rest)
}

/// A file and when it was last written.
pub struct Stamped {
    pub at: i64,
    pub path: String,
}

/// A transcript by its name, and no older than the cutoff.
pub open spec fn recent_enough(f: Stamped, cutoff: Option<i64>) -> bool {
    &&& paths::ends_in(f.path@, "jsonl"@)
    &&& match cutoff {
        Some(c) => f.at >= c,
        None => true,
    }
}

/// The places of those files that are recent enough.
pub open spec fn recent_places(files: Seq<Stamped>, cutoff: Option<i64>) -> Seq<int>
    decreases files.len(),
{
    if files.len() == 0 {
        Seq::empty()
    } else {
        let rest = recent_places(files.drop_last(), cutoff);
        if recent_enough(files.last(), cutoff) {
            rest.push(files.len() - 1)
        } else {
            rest
        }
    }
}

/// The recent transcripts, newest first, and no more than the scan considers. Of
/// two written at the same moment the one listed first comes first.
pub open spec fn recent(files: Seq<Stamped>, cutoff: Option<i64>) -> Seq<Seq<char>> {
    let at = recent_places(files, cutoff);
    let by_age = order::ordered(at.map_values(|p: int| -(files[p].at as int)));
    let all = by_age.map_values(|k: int| files[at[k]].path@);
    if all.len() > SCAN_CAP {
        all.take(SCAN_CAP as int)
    } else {
        all
    }
}

/// The recent transcripts in a project, newest first.
pub fn recent_in(files: &Vec<Stamped>, cutoff: Option<i64>) -> (r: Vec<String>)
    ensures
        text::texts(r@) == recent(files@, cutoff),
{
    let mut at: Vec<usize> = Vec::new();
    let mut keys: Vec<i128> = Vec::new();
    let mut i: usize = 0;
    assert(order::places(at@) =~= recent_places(files@.take(0), cutoff));
    while i < files.len()
        invariant
            i <= files@.len(),
            order::places(at@) == recent_places(files@.take(i as int), cutoff),
            keys@.len() == at@.len(),
            forall|k: int| 0 <= k < at@.len() ==> #[trigger] at@[k] < i,
            forall|k: int| 0 <= k < at@.len() ==> #[trigger] keys@[k] == -(files@[at@[k] as int].at),
        decreases files@.len() - i,
    {
        assert(files@.take(i + 1).drop_last() =~= files@.take(i as int));
        let f = &files[i];
        let fresh = match cutoff {
            Some(c) => f.at >= c,
            None => true,
        };
        if fresh && paths::has_extension(&f.path, "jsonl") {
            let ghost was = order::places(at@);
            at.push(i);
            keys.push(-(f.at as i128));
            assert(order::places(at@) =~= was.push(i as int));
        }
        i = i + 1;
    }
    assert(files@.take(files@.len() as int) =~= files@);
    let by_age = order::order(&keys);
    let ghost ps = recent_places(files@, cutoff);
    assert(order::ints(keys@) =~= ps.map_values(|p: int| -(files@[p].at as int))) by {
        assert forall|k: int| 0 <= k < keys@.len() implies order::ints(keys@)[k] == ps.map_values(
            |p: int| -(files@[p].at as int),
        )[k] by {
            assert(ps[k] == at@[k]);
        }
    }
    let ghost perm = order::places(by_age@);
    let ghost all = perm.map_values(|k: int| files@[ps[k]].path@);
    let mut out: Vec<String> = Vec::new();
    let mut j: usize = 0;
    assert(text::texts(out@) =~= all.take(0));
    while j < by_age.len() && j < SCAN_CAP
        invariant
            j <= by_age@.len(),
            j <= SCAN_CAP,
            perm == order::places(by_age@),
            ps == order::places(at@),
            order::is_order(order::ints(keys@), perm),
            keys@.len() == at@.len(),
            forall|k: int| 0 <= k < at@.len() ==> #[trigger] at@[k] < files@.len(),
            all == perm.map_values(|k: int| files@[ps[k]].path@),
            text::texts(out@) == all.take(j as int),
        decreases by_age@.len() - j,
    {
        let k: usize = by_age[j];
        assert(perm[j as int] == k);
        assert(0 <= perm[j as int] < keys@.len());
        let p: usize = at[k];
        assert(ps[k as int] == p);
        let t = files[p].path.clone();
        proof {
            text::lemma_texts_push(out@, t);
            assert(all.take(j + 1) =~= all.take(j as int).push(t@));
        }
        out.push(t);
        j = j + 1;
    }
    assert(all.len() <= SCAN_CAP ==> all.take(j as int) =~= all);
    out
}

/// Does one title identify the other?
pub open spec fn same_title(
    pane: Seq<char>,
    variants: Seq<Seq<char>>,
    recorded: Seq<char>,
) -> bool {
    &&& recorded.len() >= 8
    &&& pane.contains('⑂') || !recorded.contains('⑂')
    &&& exists|i: int|
        0 <= i < variants.len() && (#[trigger] variants[i]).len() >= 8 && (recorded.is_prefix_of(
            variants[i],
        ) || variants[i].is_prefix_of(recorded))
}

/// Does one title identify the other? Both directions, because a pane title can
/// be truncated OR carry an appended fork marker.
///
/// A fork is a separate session titled "<parent> ⑂ <spawning prompt>", and it
/// inherits the parent's title, so it otherwise prefix-matches the parent's
/// pane. If THIS pane carries no fork marker, a candidate that does is somebody
/// else.
pub fn title_matches(pane_norm: &str, variants: &Vec<String>, recorded: &str) -> (r: bool)
    ensures
        r == same_title(pane_norm@, text::texts(variants@), recorded@),
{
    if recorded.unicode_len() < 8 {
        return false;
    }
    if !contains_char(pane_norm, '⑂') && contains_char(recorded, '⑂') {
        return false;
    }
    let ghost vs = text::texts(variants@);
    let mut i: usize = 0;
    while i < variants.len()
        invariant
            i <= variants@.len(),
            vs == text::texts(variants@),
            recorded@.len() >= 8,
            pane_norm@.contains('⑂') || !recorded@.contains('⑂'),
            forall|j: int|
                0 <= j < i ==> !((#[trigger] vs[j]).len() >= 8 && (recorded@.is_prefix_of(vs[j])
                    || vs[j].is_prefix_of(recorded@))),
        decreases variants@.len() - i,
    {
        assert(vs[i as int] == variants@[i as int]@);
        if variants[i].unicode_len() >= 8 && (starts_with(&variants[i], recorded) || starts_with(
            recorded,
            &variants[i],
        )) {
            return true;
        }
        i = i + 1;
    }
    false
}

pub open spec fn variants_of(pane: Seq<char>) -> Seq<Seq<char>> {
    match text::cut_text(pane, ": "@) {
        Some((_, rest)) => seq![pane, rest],
        None => seq![pane],
    }
}

/// The pane-title variants worth testing: the title as it stands, and without the
/// hook's "<project>: " prefix, since a transcript may only ever have recorded the
/// unprefixed form.
pub fn title_variants(pane_norm: &str) -> (r: Vec<String>)
    ensures
        text::texts(r@) == variants_of(pane_norm@),
{
    let mut v: Vec<String> = Vec::new();
    v.push(pane_norm.to_owned());
    if let Some((_, rest)) = text::split_once_text(pane_norm, ": ") {
        v.push(rest);
    }
    assert(text::texts(v@) =~= variants_of(pane_norm@));
    v
}

/// `0` to `9`, `a` to `f`, or a capital of those.
pub open spec fn is_hex(c: char) -> bool {
    text::is_digit(c) || 0x41 <= c as u32 <= 0x46 || 0x61 <= c as u32 <= 0x66
}

/// The shape of a session id: hexadecimal, with four dashes in their places.
pub open spec fn uuid(s: Seq<char>) -> bool {
    &&& s.len() == 36
    &&& forall|i: int|
        0 <= i < 36 ==> if i == 8 || i == 13 || i == 18 || i == 23 {
            #[trigger] s[i] == '-'
        } else {
            is_hex(s[i])
        }
}

pub fn is_uuid(s: &str) -> (r: bool)
    ensures
        r == uuid(s@),
{
    let v = chars_of(s);
    if v.len() != 36 {
        return false;
    }
    let mut i: usize = 0;
    while i < 36
        invariant
            i <= 36,
            v@ == s@,
            v@.len() == 36,
            forall|j: int|
                0 <= j < i ==> if j == 8 || j == 13 || j == 18 || j == 23 {
                    #[trigger] s@[j] == '-'
                } else {
                    is_hex(s@[j])
                },
        decreases 36 - i,
    {
        let c = v[i];
        let n: u32 = c as u32;
        let ok = if i == 8 || i == 13 || i == 18 || i == 23 {
            c == '-'
        } else {
            text::digit(c) || (0x41 <= n && n <= 0x46) || (0x61 <= n && n <= 0x66)
        };
        if !ok {
            assert(s@[i as int] == c);
            return false;
        }
        i = i + 1;
    }
    true
}

/// The ids that stand directly before a tool-results path, at or after `from`,
/// behind those that `out` already holds.
pub open spec fn ids_from(screen: Seq<char>, from: int, out: Seq<Seq<char>>) -> Seq<Seq<char>>
    decreases screen.len() - from + 1,
{
    match text::find_from(screen, "/tool-results"@, from) {
        Some(i) => if from < 0 {
            out
        } else {
            proof {
                text::lemma_find_from(screen, "/tool-results"@, from);
                reveal_strlit("/tool-results");
            }
            let cand = screen.subrange(i - 36, i);
            ids_from(
                screen,
                i + 13,
                if i >= 36 && uuid(cand) && !out.contains(cand) {
                    out.push(cand)
                } else {
                    out
                },
            )
        },
        None => out,
    }
}

/// The session ids a pane's own scrollback mentions.
///
/// Large tool output is spilled to `projects/<proj>/<session-id>/tool-results/`
/// and that path is printed, so an id on THIS screen is pane-anchored evidence.
/// Only ever used to NARROW an existing title match, never on its own: a session
/// that discusses other sessions has their ids on screen too.
pub fn ids_on_screen(screen: &str) -> (r: Vec<String>)
    ensures
        text::texts(r@) == ids_from(screen@, 0, Seq::empty()),
{
    let v = chars_of(screen);
    let p = chars_of("/tool-results");
    proof {
        reveal_strlit("/tool-results");
    }
    let mut out: Vec<String> = Vec::new();
    let mut from: usize = 0;
    assert(text::texts(out@) =~= Seq::<Seq<char>>::empty());
    loop
        invariant
            v@ == screen@,
            p@ == "/tool-results"@,
            p@.len() == 13,
            from <= v@.len(),
            ids_from(screen@, from as int, text::texts(out@)) == ids_from(
                screen@,
                0,
                Seq::empty(),
            ),
        decreases v@.len() - from,
    {
        proof {
            text::lemma_find_from(v@, p@, from as int);
        }
        match text::find_at(&v, &p, from) {
            None => {
                return out;
            },
            Some(i) => {
                if i >= 36 {
                    let cand = slice(&v, i - 36, i);
                    if is_uuid(&cand) && !listed(&out, &cand) {
                        proof {
                            text::lemma_texts_push(out@, cand);
                        }
                        out.push(cand);
                    }
                }
                from = i + 13;
            },
        }
    }
}

/// A recent transcript and the titles it recorded.
pub struct Recent {
    pub path: String,
    pub titles: Vec<String>,
}

pub struct RecentView {
    pub path: Seq<char>,
    pub titles: Seq<Seq<char>>,
}

impl View for Recent {
    type V = RecentView;

    open spec fn view(&self) -> RecentView {
        RecentView { path: self.path@, titles: text::texts(self.titles@) }
    }
}

pub open spec fn recents_view(v: Seq<Recent>) -> Seq<RecentView> {
    v.map_values(|r: Recent| r@)
}

/// Did the transcript record a title that identifies the pane's?
pub open spec fn records_title(f: RecentView, pane: Seq<char>) -> bool {
    exists|i: int|
        0 <= i < f.titles.len() && same_title(
            pane,
            variants_of(pane),
            normal_title(#[trigger] f.titles[i]),
        )
}

/// The transcripts that did, in order.
pub open spec fn title_hits(files: Seq<RecentView>, pane: Seq<char>) -> Seq<Seq<char>>
    decreases files.len(),
{
    if files.len() == 0 {
        Seq::empty()
    } else {
        let rest = title_hits(files.drop_last(), pane);
        if records_title(files.last(), pane) {
            rest.push(files.last().path)
        } else {
            rest
        }
    }
}

/// Those of the paths whose session's id is on the list.
pub open spec fn narrowed(hits: Seq<Seq<char>>, ids: Seq<Seq<char>>) -> Seq<Seq<char>>
    decreases hits.len(),
{
    if hits.len() == 0 {
        Seq::empty()
    } else if ids.contains(paths::stem(hits.last())) {
        narrowed(hits.drop_last(), ids).push(hits.last())
    } else {
        narrowed(hits.drop_last(), ids)
    }
}

pub open spec fn result_view(r: Result<Resolved, String>) -> Result<ResolvedView, Seq<char>> {
    match r {
        Ok(x) => Ok(x@),
        Err(e) => Err(e@),
    }
}

/// The last rung, and the refusal below it.
pub open spec fn only_one(files: Seq<RecentView>) -> Result<ResolvedView, Seq<char>> {
    if files.len() == 1 {
        Ok(found(files[0].path, "only transcript in project"@))
    } else {
        Err(
            "no pane map, and no title match among "@ + text::decimal(files.len())
                + " recent transcripts"@,
        )
    }
}

/// What the title rung says where it says anything: one transcript with that
/// title, or the one of several that the screen narrows it to, or a refusal.
pub open spec fn by_title(hits: Seq<Seq<char>>, ids: Seq<Seq<char>>) -> Result<
    ResolvedView,
    Seq<char>,
> {
    if hits.len() == 1 {
        Ok(found(hits[0], "title match"@))
    } else if narrowed(hits, ids).len() == 1 {
        Ok(found(narrowed(hits, ids)[0], "title match narrowed by a tool-results path on screen"@))
    } else {
        Err(text::decimal(hits.len()) + " transcripts share this title"@)
    }
}

/// The whole ladder.
pub open spec fn resolution(
    cwd: Seq<char>,
    title: Seq<char>,
    seen: SeenView,
    files: Seq<RecentView>,
    ids: Seq<Seq<char>>,
) -> Result<ResolvedView, Seq<char>> {
    let pane = normal_title(title);
    let hits = title_hits(files, pane);
    if let Some(r) = from_pane(seen, cwd) {
        Ok(r)
    } else if !seen.is_dir {
        Err("no project dir for "@ + cwd)
    } else if pane.len() >= 8 && hits.len() > 0 {
        by_title(hits, ids)
    } else {
        only_one(files)
    }
}

fn narrow(hits: &Vec<String>, ids: &Vec<String>) -> (r: Vec<String>)
    ensures
        text::texts(r@) == narrowed(text::texts(hits@), text::texts(ids@)),
{
    let ghost all = text::texts(hits@);
    let mut out: Vec<String> = Vec::new();
    let mut i: usize = 0;
    assert(text::texts(out@) =~= narrowed(all.take(0), text::texts(ids@)));
    while i < hits.len()
        invariant
            i <= hits@.len(),
            all == text::texts(hits@),
            text::texts(out@) == narrowed(all.take(i as int), text::texts(ids@)),
        decreases hits@.len() - i,
    {
        assert(all.take(i + 1).drop_last() =~= all.take(i as int));
        assert(all.take(i + 1).last() == hits@[i as int]@);
        let s = paths::file_stem(&hits[i]);
        if listed(ids, &s) {
            let t = hits[i].clone();
            proof {
                text::lemma_texts_push(out@, t);
            }
            out.push(t);
        }
        i = i + 1;
    }
    assert(all.take(all.len() as int) =~= all);
    out
}

fn has_title(f: &Recent, pane: &str, variants: &Vec<String>) -> (r: bool)
    requires
        text::texts(variants@) == variants_of(pane@),
    ensures
        r == records_title(f@, pane@),
{
    let ghost ts = text::texts(f.titles@);
    let mut i: usize = 0;
    while i < f.titles.len()
        invariant
            i <= f.titles@.len(),
            ts == text::texts(f.titles@),
            text::texts(variants@) == variants_of(pane@),
            forall|j: int|
                0 <= j < i ==> !same_title(
                    pane@,
                    variants_of(pane@),
                    normal_title(#[trigger] ts[j]),
                ),
        decreases f.titles@.len() - i,
    {
        assert(ts[i as int] == f.titles@[i as int]@);
        let t = norm_title(&f.titles[i]);
        if title_matches(pane, variants, &t) {
            assert(f@.titles[i as int] == ts[i as int]);
            return true;
        }
        i = i + 1;
    }
    false
}

fn hits_of(files: &Vec<Recent>, pane: &str) -> (r: Vec<String>)
    ensures
        text::texts(r@) == title_hits(recents_view(files@), pane@),
{
    let variants = title_variants(pane);
    let ghost all = recents_view(files@);
    let mut out: Vec<String> = Vec::new();
    let mut i: usize = 0;
    assert(text::texts(out@) =~= title_hits(all.take(0), pane@));
    while i < files.len()
        invariant
            i <= files@.len(),
            all == recents_view(files@),
            text::texts(variants@) == variants_of(pane@),
            text::texts(out@) == title_hits(all.take(i as int), pane@),
        decreases files@.len() - i,
    {
        assert(all.take(i + 1).drop_last() =~= all.take(i as int));
        assert(all.take(i + 1).last() == files@[i as int]@);
        if has_title(&files[i], pane, &variants) {
            let t = files[i].path.clone();
            proof {
                text::lemma_texts_push(out@, t);
            }
            out.push(t);
        }
        i = i + 1;
    }
    assert(all.take(all.len() as int) =~= all);
    out
}

/// The whole ladder: the pane map, the argv, the pane title, and a project with
/// only one recent transcript in it.
///
/// `Err` carries why it refused, which is the whole point of a refusal here:
/// restarting the wrong conversation is worse than not restarting.
///
/// `recent` is what `recent_in` lists with the titles each recorded, and `ids`
/// what `ids_on_screen` reads off the pane.
pub fn resolve(
    cwd: &str,
    title: &str,
    seen: &Seen,
    recent: &Vec<Recent>,
    ids: &Vec<String>,
) -> (r: Result<Resolved, String>)
    ensures
        result_view(r) == resolution(
            cwd@,
            title@,
            seen@,
            recents_view(recent@),
            text::texts(ids@),
        ),
{
    if let Some(r) = resolve_from_pane(cwd, seen) {
        return Ok(r);
    }
    if !seen.is_dir {
        let mut e = "no project dir for ".to_owned();
        e.append(cwd);
        return Err(e);
    }
    let pn = norm_title(title);
    let hits = hits_of(recent, &pn);
    let ghost hs = text::texts(hits@);
    let n: usize = hits.len();
    assert(hs.len() == n);
    if pn.unicode_len() >= 8 && n > 0 {
        if n == 1 {
            assert(hs[0] == hits@[0]@);
            return Ok(Resolved { transcript: hits[0].clone(), why: "title match" });
        }
        // Recurring task titles cannot be told apart by title. The pane's
        // scrollback can.
        let few = narrow(&hits, ids);
        assert(text::texts(few@).len() == few@.len());
        if few.len() == 1 {
            assert(text::texts(few@)[0] == few@[0]@);
            return Ok(
                Resolved {
                    transcript: few[0].clone(),
                    why: "title match narrowed by a tool-results path on screen",
                },
            );
        }
        let mut e = dec(n as u64);
        e.append(" transcripts share this title");
        return Err(e);
    }
    let m: usize = recent.len();
    assert(recents_view(recent@).len() == m);
    if m == 1 {
        assert(recents_view(recent@)[0] == recent@[0]@);
        return Ok(
            Resolved { transcript: recent[0].path.clone(), why: "only transcript in project" },
        );
    }
    let mut e = "no pane map, and no title match among ".to_owned();
    let d = dec(m as u64);
    e.append(&d);
    e.append(" recent transcripts");
    Err(e)
}

// ---------------------------------------------------------------------------
// The command that puts a session back
// ---------------------------------------------------------------------------
/// A flag that claims a conversation and takes no value.
pub open spec fn bare_claim(a: Seq<char>) -> bool {
    a == "-c"@ || a == "--continue"@ || a == "--fork-session"@
}

/// A flag that claims a conversation by its value.
pub open spec fn value_claim(a: Seq<char>) -> bool {
    a == "--session-id"@ || a == "-r"@ || a == "--resume"@
}

/// The arguments from `i` on that are replayed: all but the claims on a
/// conversation, and their values with them.
pub open spec fn replayed(argv: Seq<Seq<char>>, i: int) -> Seq<Seq<char>>
    decreases argv.len() - i,
{
    if i >= argv.len() {
        Seq::empty()
    } else if bare_claim(argv[i]) {
        replayed(argv, i + 1)
    } else if value_claim(argv[i]) || (argv[i] == "attach"@ && i == 1) {
        if value_at(argv, i) is Some {
            replayed(argv, i + 2)
        } else if value_claim(argv[i]) {
            replayed(argv, i + 1)
        } else {
            seq![argv[i]] + replayed(argv, i + 1)
        }
    } else {
        seq![argv[i]] + replayed(argv, i + 1)
    }
}

/// Arguments as they go on a command line: each quoted, behind a space.
pub open spec fn spaced(args: Seq<Seq<char>>) -> Seq<char>
    decreases args.len(),
{
    if args.len() == 0 {
        Seq::empty()
    } else {
        spaced(args.drop_last()) + " "@ + tmux::quoted(args.last())
    }
}

/// The command line that puts a session back, on the given conversation.
pub open spec fn command(
    agent: Seq<char>,
    argv: Seq<Seq<char>>,
    transcript: Seq<char>,
    ccwd: Seq<char>,
    panepath: Seq<char>,
) -> Option<Seq<char>> {
    if argv.len() == 0 {
        None
    } else {
        let base = "command "@ + agent + spaced(replayed(argv, 1));
        let cmd = if transcript.len() > 0 {
            base + " --resume "@ + tmux::quoted(transcript)
        } else {
            base
        };
        Some(
            if ccwd != panepath {
                "cd "@ + tmux::quoted(ccwd) + " && "@ + cmd
            } else {
                cmd
            },
        )
    }
}

fn replay(argv: &[String]) -> (r: Vec<String>)
    ensures
        text::texts(r@) == replayed(text::texts(argv@), 1),
{
    let ghost all = text::texts(argv@);
    let mut keep: Vec<String> = Vec::new();
    let mut i: usize = 1;
    let n: usize = argv.len();
    assert(text::texts(keep@) + replayed(all, 1) =~= replayed(all, 1));
    while i < n
        invariant
            1 <= i,
            n == argv@.len(),
            all == text::texts(argv@),
            text::texts(keep@) + replayed(all, i as int) == replayed(all, 1),
        decreases n - i,
    {
        let a = &argv[i];
        assert(all[i as int] == a@);
        assert(i + 1 < n ==> all[i + 1] == argv@[i + 1]@);
        let valued = i + 1 < n && !dash(&argv[i + 1]);
        if same(a, "-c") || same(a, "--continue") || same(a, "--fork-session") {
            i = i + 1;
        } else if same(a, "--session-id") || same(a, "-r") || same(a, "--resume") {
            i = if valued {
                i + 2
            } else {
                i + 1
            };
        } else if i == 1 && valued && same(a, "attach") {
            i = i + 2;
        } else {
            let t = a.clone();
            let ghost before = text::texts(keep@);
            proof {
                text::lemma_texts_push(keep@, t);
            }
            keep.push(t);
            assert(before + (seq![all[i as int]] + replayed(all, i + 1)) =~= before.push(
                all[i as int],
            ) + replayed(all, i + 1));
            i = i + 1;
        }
    }
    assert(text::texts(keep@) + Seq::<Seq<char>>::empty() =~= text::texts(keep@));
    keep
}

/// The command line that puts this pane's session back.
///
/// Everything the live argv carries is replayed EXCEPT the shapes that would
/// answer the same question twice or answer it wrongly:
///
/// - `-c` / `--continue` is a guess wearing the clothes of a resume;
/// - `--fork-session` names the PARENT transcript rather than this pane's;
/// - `--session-id`, `-r` and `--resume` go WITH their values, since the resolved
///   transcript already decides which session this is;
/// - `attach <id>` in the subcommand slot is the same claim in subcommand form.
///
/// It opens with `command`, so no shell alias fires and tmux-resurrect can read the argv
/// back later. A `cd` goes before it only when the session's own directory is not where
/// the pane shell will land.
pub fn build_cmd(
    agent: &str,
    argv: &[String],
    transcript: &str,
    ccwd: &str,
    panepath: &str,
) -> (r: Option<String>)
    ensures
        text::opt_string(r) == command(
            agent@,
            text::texts(argv@),
            transcript@,
            ccwd@,
            panepath@,
        ),
{
    if argv.len() == 0 {
        return None;
    }
    let keep = replay(argv);
    let ghost ks = text::texts(keep@);
    let mut args = String::new();
    let mut i: usize = 0;
    assert(args@ =~= spaced(ks.take(0)));
    while i < keep.len()
        invariant
            i <= keep@.len(),
            ks == text::texts(keep@),
            args@ == spaced(ks.take(i as int)),
        decreases keep@.len() - i,
    {
        assert(ks.take(i + 1).drop_last() =~= ks.take(i as int));
        assert(ks.take(i + 1).last() == keep@[i as int]@);
        args.append(" ");
        let q = shell_quote(&keep[i]);
        args.append(&q);
        i = i + 1;
    }
    assert(ks.take(ks.len() as int) =~= ks);
    let mut cmd = "command ".to_owned();
    cmd.append(agent);
    cmd.append(&args);
    if !transcript.is_empty() {
        cmd.append(" --resume ");
        let q = shell_quote(transcript);
        cmd.append(&q);
    }
    if same(ccwd, panepath) {
        return Some(cmd);
    }
    let mut out = "cd ".to_owned();
    let q = shell_quote(ccwd);
    out.append(&q);
    out.append(" && ");
    out.append(&cmd);
    Some(out)
}

// ---------------------------------------------------------------------------
// One record per session pane
// ---------------------------------------------------------------------------
/// What is known of one pane that has a session process.
pub struct Known {
    /// What the session is doing, in a word.
    pub state: String,
    /// The process's own directory, or nothing where it could not be read.
    pub cwd: String,
    pub found: Result<Resolved, String>,
    pub argv: Vec<String>,
}

pub struct KnownView {
    pub state: Seq<char>,
    pub cwd: Seq<char>,
    pub found: Result<ResolvedView, Seq<char>>,
    pub argv: Seq<Seq<char>>,
}

impl View for Known {
    type V = KnownView;

    open spec fn view(&self) -> KnownView {
        KnownView {
            state: self.state@,
            cwd: self.cwd@,
            found: result_view(self.found),
            argv: text::texts(self.argv@),
        }
    }
}

pub open spec fn knowns_view(v: Seq<Known>) -> Seq<KnownView> {
    v.map_values(|k: Known| k@)
}

/// A row of the pane scan that the resumable agent runs in.
pub open spec fn claude_row(agent: Seq<char>, f: Seq<Seq<char>>) -> bool {
    f.len() >= 7 && f[3] == agent
}

/// The process id a row carries, or 0.
pub open spec fn row_pid(f: Seq<Seq<char>>) -> i32 {
    match text::integer_i32(f[4]) {
        Some(n) => n,
        None => 0,
    }
}

/// A pane to be looked into.
pub struct ClaudePane {
    pub id: String,
    pub cwd: String,
    pub title: String,
    pub pid: i32,
}

pub struct ClaudePaneView {
    pub id: Seq<char>,
    pub cwd: Seq<char>,
    pub title: Seq<char>,
    pub pid: i32,
}

impl View for ClaudePane {
    type V = ClaudePaneView;

    open spec fn view(&self) -> ClaudePaneView {
        ClaudePaneView { id: self.id@, cwd: self.cwd@, title: self.title@, pid: self.pid }
    }
}

/// The agent's panes among the lines that have a session process.
pub open spec fn process_panes(agent: Seq<char>, ls: Seq<Seq<char>>) -> Seq<ClaudePaneView>
    decreases ls.len(),
{
    if ls.len() == 0 {
        Seq::empty()
    } else {
        let rest = process_panes(agent, ls.drop_last());
        let f = text::fields(ls.last(), '\t');
        if claude_row(agent, f) && row_pid(f) != 0 {
            rest.push(ClaudePaneView { id: f[0], cwd: f[2], title: f[6], pid: row_pid(f) })
        } else {
            rest
        }
    }
}

/// The process id a row carries, or 0.
pub fn pid_of(f: &Vec<String>) -> (r: i32)
    requires
        f@.len() >= 7,
    ensures
        r == row_pid(text::texts(f@)),
{
    assert(text::texts(f@)[4] == f@[4]@);
    match parse_i32(&f[4]) {
        Some(n) => n,
        None => 0,
    }
}

/// The agent's panes of a scan that have a session process, in order.
pub fn claude_panes(agent: &str, rows: &str) -> (r: Vec<ClaudePane>)
    ensures
        r@.map_values(|p: ClaudePane| p@) == process_panes(agent@, text::lines_of(rows@)),
        r@.len() == process_panes(agent@, text::lines_of(rows@)).len(),
{
    let ls = lines(rows);
    let ghost all = text::texts(ls@);
    let mut out: Vec<ClaudePane> = Vec::new();
    let mut i: usize = 0;
    assert(out@.map_values(|p: ClaudePane| p@) =~= process_panes(agent@, all.take(0)));
    while i < ls.len()
        invariant
            i <= ls@.len(),
            all == text::texts(ls@),
            out@.map_values(|p: ClaudePane| p@) == process_panes(agent@, all.take(i as int)),
        decreases ls@.len() - i,
    {
        assert(all.take(i + 1).drop_last() =~= all.take(i as int));
        assert(all.take(i + 1).last() == ls@[i as int]@);
        let f = split(&ls[i], '\t');
        let ghost fs = text::texts(f@);
        assert(fs.len() == f@.len());
        if f.len() >= 7 {
            assert(fs[3] == f@[3]@);
            if same(&f[3], agent) {
                let pid: i32 = pid_of(&f);
                if pid != 0 {
                    assert(fs[0] == f@[0]@ && fs[2] == f@[2]@ && fs[6] == f@[6]@);
                    let p = ClaudePane {
                        id: f[0].clone(),
                        cwd: f[2].clone(),
                        title: f[6].clone(),
                        pid,
                    };
                    let ghost before = out@.map_values(|p: ClaudePane| p@);
                    out.push(p);
                    assert(out@.map_values(|p: ClaudePane| p@) =~= before.push(p@));
                }
            }
        }
        i = i + 1;
    }
    assert(all.take(all.len() as int) =~= all);
    out
}

/// The directory a session runs in: its process's own, or the pane's.
pub open spec fn own_cwd(known: KnownView, cwd: Seq<char>) -> Seq<char> {
    if known.cwd.len() == 0 {
        cwd
    } else {
        known.cwd
    }
}

/// The transcript a pane is given: the one it resolved to, unless another pane
/// has claimed it.
pub open spec fn given(known: KnownView, claimed: Map<Seq<char>, Seq<char>>) -> Seq<char> {
    match known.found {
        Ok(r) => if r.transcript.len() > 0 && claimed.dom().contains(r.transcript) {
            Seq::empty()
        } else {
            r.transcript
        },
        Err(_) => Seq::empty(),
    }
}

/// Why it was given that, in words.
pub open spec fn reason(known: KnownView, claimed: Map<Seq<char>, Seq<char>>) -> Seq<char> {
    match known.found {
        Ok(r) => if r.transcript.len() > 0 && claimed.dom().contains(r.transcript) {
            "resolves to the same transcript as "@ + claimed[r.transcript]
        } else {
            r.why
        },
        Err(w) => w,
    }
}

/// Is the pane put back on a conversation?
pub open spec fn resumes(known: KnownView, claimed: Map<Seq<char>, Seq<char>>) -> bool {
    match known.found {
        Ok(r) => r.transcript.len() == 0 || !claimed.dom().contains(r.transcript),
        Err(_) => false,
    }
}

/// One pane's record.
pub open spec fn record(
    agent: Seq<char>,
    f: Seq<Seq<char>>,
    known: KnownView,
    claimed: Map<Seq<char>, Seq<char>>,
) -> Seq<char> {
    let ccwd = own_cwd(known, f[2]);
    let cmd = command(agent, known.argv, given(known, claimed), ccwd, f[2]);
    let status = if cmd is Some && resumes(known, claimed) {
        "resume"@
    } else {
        "unresolved"@
    };
    let why = match cmd {
        Some(_) => reason(known, claimed),
        None => "could not read its argv"@,
    };
    f[0] + "\t"@ + f[1] + "\t"@ + ccwd + "\t"@ + status + "\t"@ + why + ", "@ + known.state
        + "\t"@ + json::or_empty(cmd) + "\n"@
}

/// The record of a pane whose session process was not found.
pub open spec fn no_process(agent: Seq<char>, f: Seq<Seq<char>>) -> Seq<char> {
    f[0] + "\t"@ + f[1] + "\t"@ + f[2] + "\tunresolved\tlooks like "@ + agent
        + " but no session process was found under the pane\t\n"@
}

/// The claims once a pane has been dealt with.
pub open spec fn claims_after(
    f: Seq<Seq<char>>,
    known: KnownView,
    claimed: Map<Seq<char>, Seq<char>>,
) -> Map<Seq<char>, Seq<char>> {
    let t = given(known, claimed);
    if t.len() > 0 {
        claimed.insert(t, f[0])
    } else {
        claimed
    }
}

/// The records of the lines from `i` on, where `k` panes with a process have been
/// dealt with.
pub open spec fn records_from(
    agent: Seq<char>,
    ls: Seq<Seq<char>>,
    i: int,
    known: Seq<KnownView>,
    k: int,
    claimed: Map<Seq<char>, Seq<char>>,
) -> Seq<char>
    decreases ls.len() - i,
{
    if i >= ls.len() {
        Seq::empty()
    } else {
        let f = text::fields(ls[i], '\t');
        if !claude_row(agent, f) {
            records_from(agent, ls, i + 1, known, k, claimed)
        } else if row_pid(f) == 0 {
            no_process(agent, f) + records_from(agent, ls, i + 1, known, k, claimed)
        } else {
            record(agent, f, known[k], claimed) + records_from(
                agent,
                ls,
                i + 1,
                known,
                k + 1,
                claims_after(f, known[k], claimed),
            )
        }
    }
}

fn record_for(agent: &str, f: &Vec<String>, known: &Known, claimed: &mut Table) -> (r: String)
    requires
        f@.len() >= 7,
    ensures
        r@ == record(agent@, text::texts(f@), known@, old(claimed)@),
        final(claimed)@ == claims_after(text::texts(f@), known@, old(claimed)@),
{
    let ghost fs = text::texts(f@);
    assert(fs[0] == f@[0]@ && fs[1] == f@[1]@ && fs[2] == f@[2]@);
    let ghost was = claimed@;
    let ccwd = if known.cwd.as_str().is_empty() {
        f[2].clone()
    } else {
        known.cwd.clone()
    };
    let mut transcript = String::new();
    let mut why = String::new();
    let mut resume = false;
    match &known.found {
        Ok(r) => {
            let first = if r.transcript.as_str().is_empty() {
                None
            } else {
                claimed.get(&r.transcript)
            };
            match first {
                Some(p) => {
                    why = "resolves to the same transcript as ".to_owned();
                    why.append(&p);
                },
                None => {
                    why = r.why.to_owned();
                    transcript = r.transcript.clone();
                    resume = true;
                },
            }
        },
        Err(w) => {
            why = w.clone();
        },
    }
    assert(transcript@ =~= given(known@, was));
    assert(why@ == reason(known@, was));
    assert(resume == resumes(known@, was));
    if !transcript.as_str().is_empty() {
        claimed.insert(transcript.clone(), f[0].clone());
    }
    let cmd = build_cmd(agent, &known.argv, &transcript, &ccwd, &f[2]);
    let mut out = f[0].clone();
    out.append("\t");
    out.append(&f[1]);
    out.append("\t");
    out.append(&ccwd);
    out.append("\t");
    if cmd.is_some() && resume {
        out.append("resume");
    } else {
        out.append("unresolved");
    }
    out.append("\t");
    match &cmd {
        Some(_) => {
            out.append(&why);
        },
        None => {
            out.append("could not read its argv");
        },
    }
    out.append(", ");
    out.append(&known.state);
    out.append("\t");
    match &cmd {
        Some(c) => {
            out.append(c);
        },
        None => {
            let none = String::new();
            assert(none@ =~= Seq::<char>::empty());
            out.append(&none);
        },
    }
    out.append("\n");
    out
}

/// One record per pane of the agent: where it is, whether its conversation could be
/// identified, why, and the command that would put it back.
///
///   pane \t target \t cwd \t resume|unresolved \t <why>, <state> \t <command>
///
/// `known` has what is known of each pane that `claude_panes` lists, in that
/// order. A pane whose agent was detected only by its name carries no process id,
/// so there is no argv to replay; it still gets a record. The second pane to claim
/// a transcript gets a fresh session.
pub fn print_cmds(agent: &str, rows: &str, known: &Vec<Known>) -> (r: String)
    requires
        known@.len() >= process_panes(agent@, text::lines_of(rows@)).len(),
    ensures
        r@ == records_from(
            agent@,
            text::lines_of(rows@),
            0,
            knowns_view(known@),
            0,
            Map::empty(),
        ),
{
    let ls = lines(rows);
    let ghost all = text::texts(ls@);
    let ghost ks = knowns_view(known@);
    let mut out = String::new();
    let mut claimed = Table::new();
    let mut k: usize = 0;
    let mut i: usize = 0;
    let ghost total = records_from(agent@, all, 0, ks, 0, Map::empty());
    assert(out@ + total =~= total);
    assert(all.take(0).len() == 0);
    while i < ls.len()
        invariant
            i <= ls@.len(),
            all == text::texts(ls@),
            ks == knowns_view(known@),
            known.len() >= process_panes(agent@, all).len(),
            k == process_panes(agent@, all.take(i as int)).len(),
            out@ + records_from(agent@, all, i as int, ks, k as int, claimed@) == total,
        decreases ls@.len() - i,
    {
        assert(all[i as int] == ls@[i as int]@);
        assert(all.take(i + 1).drop_last() =~= all.take(i as int));
        assert(all.take(i + 1).last() == ls@[i as int]@);
        proof {
            lemma_process_panes(agent@, all, i + 1);
        }
        let f = split(&ls[i], '\t');
        let ghost fs = text::texts(f@);
        assert(fs.len() == f@.len());
        let ghost before = out@;
        if f.len() >= 7 {
            assert(fs[3] == f@[3]@);
            if same(&f[3], agent) {
                let pid: i32 = pid_of(&f);
                if pid == 0 {
                    assert(fs[0] == f@[0]@ && fs[1] == f@[1]@ && fs[2] == f@[2]@);
                    let mut rec = f[0].clone();
                    rec.append("\t");
                    rec.append(&f[1]);
                    rec.append("\t");
                    rec.append(&f[2]);
                    rec.append("\tunresolved\tlooks like ");
                    rec.append(agent);
                    rec.append(" but no session process was found under the pane\t\n");
                    out.append(&rec);
                    assert(before + (rec@ + records_from(agent@, all, i + 1, ks, k as int, claimed@))
                        =~= out@ + records_from(agent@, all, i + 1, ks, k as int, claimed@));
                } else {
                    let ghost held = claimed@;
                    let rec = record_for(agent, &f, &known[k], &mut claimed);
                    out.append(&rec);
                    assert(ks[k as int] == known@[k as int]@);
                    assert(before + (rec@ + records_from(agent@, all, i + 1, ks, k + 1, claimed@))
                        =~= out@ + records_from(agent@, all, i + 1, ks, k + 1, claimed@));
                    k = k + 1;
                }
            }
        }
        i = i + 1;
    }
    assert(out@ + Seq::<char>::empty() =~= out@);
    out
}

proof fn lemma_process_panes(agent: Seq<char>, ls: Seq<Seq<char>>, n: int)
    requires
        0 <= n <= ls.len(),
    ensures
        process_panes(agent, ls.take(n)).len() <= process_panes(agent, ls).len(),
    decreases ls.len() - n,
{
    if n < ls.len() {
        lemma_process_panes(agent, ls, n + 1);
        assert(ls.take(n + 1).drop_last() =~= ls.take(n));
    } else {
        assert(ls.take(n) =~= ls);
    }
}

// ---------------------------------------------------------------------------
// Laws
// ---------------------------------------------------------------------------
/// No claim on a conversation survives in a replayed command line.
pub proof fn lemma_no_claim_is_replayed(argv: Seq<Seq<char>>, i: int)
    requires
        0 <= i,
    ensures
        forall|k: int|
            0 <= k < replayed(argv, i).len() ==> !bare_claim(#[trigger] replayed(argv, i)[k])
                && !value_claim(replayed(argv, i)[k]),
    decreases argv.len() - i,
{
    if i < argv.len() {
        lemma_no_claim_is_replayed(argv, i + 1);
        if i + 1 < argv.len() {
            lemma_no_claim_is_replayed(argv, i + 2);
        }
        let r = replayed(argv, i);
        reveal_strlit("attach");
        reveal_strlit("-c");
        reveal_strlit("--continue");
        reveal_strlit("--fork-session");
        reveal_strlit("--session-id");
        reveal_strlit("-r");
        reveal_strlit("--resume");
        assert forall|k: int| 0 <= k < r.len() implies !bare_claim(#[trigger] r[k]) && !value_claim(
            r[k],
        ) by {
            assert("attach"@.len() == 6 && "-r"@.len() == 2 && "--resume"@.len() == 8
                && "--session-id"@.len() == 12);
            if bare_claim(argv[i]) {
                assert(r[k] == replayed(argv, i + 1)[k]);
            } else if (value_claim(argv[i]) || (argv[i] == "attach"@ && i == 1)) && value_at(
                argv,
                i,
            ) is Some {
                assert(r[k] == replayed(argv, i + 2)[k]);
            } else if value_claim(argv[i]) {
                assert(r[k] == replayed(argv, i + 1)[k]);
            } else if k > 0 {
                assert(r[k] == replayed(argv, i + 1)[k - 1]);
            } else {
                assert(r[0] == argv[i]);
            }
        }
    }
}

/// The arguments of a session that was put back on a conversation: the agent, what was
/// replayed to it, and the conversation.
pub open spec fn put_back(
    agent: Seq<char>,
    argv: Seq<Seq<char>>,
    transcript: Seq<char>,
) -> Seq<Seq<char>> {
    seq![agent] + replayed(argv, 1) + (if transcript.len() > 0 {
        seq!["--resume"@, transcript]
    } else {
        Seq::empty()
    })
}

/// Would the first arguments that are replayed claim a conversation by a subcommand,
/// once nothing stands before them any more?
pub open spec fn opens_by_attaching(kept: Seq<Seq<char>>) -> bool {
    kept.len() >= 2 && kept[0] == "attach"@ && !dashed(kept[1])
}

proof fn lemma_kept_is_kept(
    agent: Seq<char>,
    argv: Seq<Seq<char>>,
    transcript: Seq<char>,
    i: int,
)
    requires
        !opens_by_attaching(replayed(argv, 1)),
        !dashed(transcript),
        1 <= i <= replayed(argv, 1).len() + 1,
    ensures
        replayed(put_back(agent, argv, transcript), i) == replayed(argv, 1).skip(i - 1),
    decreases replayed(argv, 1).len() + 1 - i,
{
    let kept = replayed(argv, 1);
    let n = kept.len() as int;
    let again = put_back(agent, argv, transcript);
    lemma_no_claim_is_replayed(argv, 1);
    reveal_strlit("attach");
    reveal_strlit("-");
    reveal_strlit("-c");
    reveal_strlit("--continue");
    reveal_strlit("--fork-session");
    reveal_strlit("--resume");
    assert("--resume"@.len() == 8 && "-c"@.len() == 2 && "--continue"@.len() == 10
        && "--fork-session"@.len() == 14 && "attach"@.len() == 6);
    assert("--resume"@.take(1) =~= "-"@);
    assert(dashed("--resume"@));
    if i == n + 1 {
        assert(kept.skip(n) =~= Seq::<Seq<char>>::empty());
        if transcript.len() > 0 {
            assert(again[i] == "--resume"@ && again[i + 1] == transcript);
            assert(again.len() == i + 2);
            assert(value_at(again, i) is Some);
            assert(!bare_claim("--resume"@));
            assert(replayed(again, i + 2) =~= Seq::<Seq<char>>::empty());
            assert(replayed(again, i) == replayed(again, i + 2));
        }
    } else {
        assert(again[i] == kept[i - 1]);
        assert(!bare_claim(kept[i - 1]) && !value_claim(kept[i - 1]));
        lemma_kept_is_kept(agent, argv, transcript, i + 1);
        if i == 1 && again[1] == "attach"@ {
            if n >= 2 {
                assert(again[2] == kept[1]);
            } else if transcript.len() > 0 {
                assert(again[2] == "--resume"@);
            }
            assert(value_at(again, 1) is None);
        }
        assert(seq![kept[i - 1]] + kept.skip(i) =~= kept.skip(i - 1));
    }
}

/// Putting back a session that was put back changes nothing: the command is the same
/// one. Left out is an `attach` that only a claim kept from being the subcommand: with
/// the claim gone, it is one.
pub proof fn lemma_putting_back_twice_changes_nothing(
    agent: Seq<char>,
    argv: Seq<Seq<char>>,
    transcript: Seq<char>,
    ccwd: Seq<char>,
    panepath: Seq<char>,
)
    requires
        argv.len() > 0,
        !opens_by_attaching(replayed(argv, 1)),
        !dashed(transcript),
    ensures
        command(agent, put_back(agent, argv, transcript), transcript, ccwd, panepath) == command(
            agent,
            argv,
            transcript,
            ccwd,
            panepath,
        ),
{
    lemma_kept_is_kept(agent, argv, transcript, 1);
    assert(replayed(argv, 1).skip(0) =~= replayed(argv, 1));
}

/// Does a text go on a command line as it stands?
pub open spec fn bare_word(s: Seq<char>) -> bool {
    tmux::quoted(s) == s
}

proof fn lemma_escaped_is_no_shorter(s: Seq<char>)
    ensures
        tmux::escaped(s).len() >= s.len(),
    decreases s.len(),
{
    if s.len() > 0 {
        reveal_strlit("'\\''");
        lemma_escaped_is_no_shorter(s.skip(1));
    }
}

proof fn lemma_a_bare_word_is_one_word(s: Seq<char>)
    requires
        bare_word(s),
    ensures
        text::words_of(s) == seq![s],
{
    if !(s.len() > 0 && tmux::all_inert(s)) {
        reveal_strlit("'");
        lemma_escaped_is_no_shorter(s);
        assert(tmux::quoted(s).len() >= s.len() + 2);
    }
    assert forall|k: int| 0 <= k < s.len() implies !text::is_space(s[k]) by {
        assert(tmux::inert(s[k]));
    }
    text::lemma_one_word(s);
}

proof fn lemma_spaced_words(open: Seq<char>, args: Seq<Seq<char>>)
    requires
        forall|k: int| 0 <= k < args.len() ==> bare_word(#[trigger] args[k]),
    ensures
        text::words_of(open + spaced(args)) == text::words_of(open) + args,
    decreases args.len(),
{
    if args.len() == 0 {
        assert(open + spaced(args) =~= open);
        assert(text::words_of(open) + args =~= text::words_of(open));
    } else {
        let front = args.drop_last();
        let last = args[args.len() - 1];
        assert forall|k: int| 0 <= k < front.len() implies bare_word(#[trigger] front[k]) by {
            assert(front[k] == args[k]);
        }
        assert(bare_word(last));
        lemma_spaced_words(open, front);
        reveal_strlit(" ");
        assert(open + spaced(args) =~= (open + spaced(front)) + seq![' '] + last);
        text::lemma_words_join(open + spaced(front), last);
        lemma_a_bare_word_is_one_word(last);
        assert(text::words_of(open) + args =~= (text::words_of(open) + front) + seq![last]);
    }
}

proof fn lemma_replayed_are_arguments(argv: Seq<Seq<char>>, i: int)
    requires
        0 <= i,
        forall|k: int| 0 <= k < argv.len() ==> bare_word(#[trigger] argv[k]),
    ensures
        forall|k: int| 0 <= k < replayed(argv, i).len() ==> bare_word(#[trigger] replayed(argv, i)[k]),
    decreases argv.len() - i,
{
    if i < argv.len() {
        lemma_replayed_are_arguments(argv, i + 1);
        if i + 1 < argv.len() {
            lemma_replayed_are_arguments(argv, i + 2);
        }
        let r = replayed(argv, i);
        let one = seq![argv[i]] + replayed(argv, i + 1);
        assert(bare_word(argv[i]));
        assert forall|k: int| 0 <= k < r.len() implies bare_word(#[trigger] r[k]) by {
            if r == one {
                if k > 0 {
                    assert(one[k] == replayed(argv, i + 1)[k - 1]);
                }
            } else if r == replayed(argv, i + 1) {
                assert(r[k] == replayed(argv, i + 1)[k]);
            } else {
                assert(r[k] == replayed(argv, i + 2)[k]);
            }
        }
    }
}

/// The command is read back as its own arguments, behind `command`: where nothing in
/// it needs quoting, its words are those of the session that it puts back. So a command
/// made of the words of a command is that command again. It claims one conversation, by
/// its last two words, and nothing before them claims any.
pub proof fn lemma_a_command_is_read_back(
    agent: Seq<char>,
    argv: Seq<Seq<char>>,
    transcript: Seq<char>,
    w: Seq<char>,
    c: Seq<char>,
)
    requires
        command(agent, argv, transcript, w, w) == Some(c),
        bare_word(agent),
        bare_word(transcript),
        forall|k: int| 0 <= k < argv.len() ==> bare_word(#[trigger] argv[k]),
        !opens_by_attaching(replayed(argv, 1)),
        !dashed(transcript),
    ensures
        text::words_of(c) == seq!["command"@] + put_back(agent, argv, transcript),
        command(agent, text::words_of(c).skip(1), transcript, w, w) == Some(c),
        text::words_of(c)[text::words_of(c).len() - 2] == "--resume"@,
        text::words_of(c).last() == transcript,
        forall|k: int|
            2 <= k < text::words_of(c).len() - 2 ==> !bare_claim(#[trigger] text::words_of(c)[k])
                && !value_claim(text::words_of(c)[k]),
{
    let kept = replayed(argv, 1);
    let open = "command "@ + agent;
    lemma_replayed_are_arguments(argv, 1);
    reveal_strlit("command ");
    reveal_strlit("command");
    reveal_strlit(" --resume ");
    reveal_strlit("--resume");
    assert(forall|k: int| 0 <= k < "command"@.len() ==> !text::is_space("command"@[k]));
    assert(forall|k: int| 0 <= k < "--resume"@.len() ==> !text::is_space("--resume"@[k]));
    text::lemma_one_word("command"@);
    text::lemma_one_word("--resume"@);
    lemma_a_bare_word_is_one_word(agent);
    lemma_a_bare_word_is_one_word(transcript);
    assert(open =~= "command"@ + seq![' '] + agent);
    text::lemma_words_join("command"@, agent);
    lemma_spaced_words(open, kept);
    let base = open + spaced(kept);
    text::lemma_words_join(base, "--resume"@);
    text::lemma_words_join(base + seq![' '] + "--resume"@, transcript);
    if transcript.len() == 0 {
        reveal_strlit("'");
        assert(tmux::quoted(transcript).len() >= 2);
    }
    assert(c =~= base + seq![' '] + "--resume"@ + seq![' '] + transcript);
    let again = put_back(agent, argv, transcript);
    assert(text::words_of(c) =~= seq!["command"@] + again);
    assert(text::words_of(c).skip(1) =~= again);
    lemma_putting_back_twice_changes_nothing(agent, argv, transcript, w, w);
    lemma_no_claim_is_replayed(argv, 1);
    assert forall|k: int| 2 <= k < text::words_of(c).len() - 2 implies !bare_claim(
        #[trigger] text::words_of(c)[k],
    ) && !value_claim(text::words_of(c)[k]) by {
        assert(text::words_of(c)[k] == kept[k - 2]);
    }
}

/// A pane is never given a transcript that another pane has claimed, and one it is
/// given is claimed from then on.
pub proof fn lemma_no_transcript_is_given_twice(
    f: Seq<Seq<char>>,
    known: KnownView,
    claimed: Map<Seq<char>, Seq<char>>,
)
    ensures
        given(known, claimed).len() > 0 ==> !claimed.dom().contains(given(known, claimed)),
        given(known, claimed).len() > 0 ==> claims_after(f, known, claimed).dom().contains(
            given(known, claimed),
        ),
        claimed.dom().subset_of(claims_after(f, known, claimed).dom()),
{
}

/// The command that puts a session back on a conversation ends by resuming it, and the
/// command that puts it back on none resumes nothing: no argument in it does.
pub proof fn lemma_a_command_ends_in_its_conversation(
    agent: Seq<char>,
    argv: Seq<Seq<char>>,
    t: Seq<char>,
    ccwd: Seq<char>,
    panepath: Seq<char>,
)
    requires
        argv.len() > 0,
    ensures
        command(agent, argv, t, ccwd, panepath) is Some,
        t.len() > 0 ==> (" --resume "@ + tmux::quoted(t)).is_suffix_of(
            command(agent, argv, t, ccwd, panepath)->0,
        ),
        t.len() == 0 ==> exists|kept: Seq<Seq<char>>|
            (#[trigger] ("command "@ + agent + spaced(kept))).is_suffix_of(
                command(agent, argv, t, ccwd, panepath)->0,
            ) && forall|k: int|
                0 <= k < kept.len() ==> #[trigger] kept[k] != "--resume"@ && kept[k] != "-r"@
                    && kept[k] != "--session-id"@ && kept[k] != "-c"@ && kept[k] != "--continue"@
                    && kept[k] != "--fork-session"@,
        ccwd == panepath ==> ("command "@ + agent).is_prefix_of(
            command(agent, argv, t, ccwd, panepath)->0,
        ),
        ccwd != panepath ==> ("cd "@ + tmux::quoted(ccwd) + " && command "@ + agent).is_prefix_of(
            command(agent, argv, t, ccwd, panepath)->0,
        ),
{
    let kept = replayed(argv, 1);
    let c = command(agent, argv, t, ccwd, panepath)->0;
    let open = "command "@ + agent;
    let base = open + spaced(kept);
    let tail = " --resume "@ + tmux::quoted(t);
    lemma_no_claim_is_replayed(argv, 1);
    reveal_strlit(" && command ");
    reveal_strlit(" && ");
    reveal_strlit("command ");
    let cd = "cd "@ + tmux::quoted(ccwd) + " && command "@ + agent;
    assert(cd =~= "cd "@ + tmux::quoted(ccwd) + " && "@ + open);
    if t.len() > 0 {
        assert(c.subrange(c.len() - tail.len(), c.len() as int) =~= tail);
    } else {
        assert(c.subrange(c.len() - base.len(), c.len() as int) =~= base);
        assert(("command "@ + agent + spaced(kept)).is_suffix_of(c));
        assert forall|k: int| 0 <= k < kept.len() implies #[trigger] kept[k] != "--resume"@
            && kept[k] != "-r"@ && kept[k] != "--session-id"@ && kept[k] != "-c"@ && kept[k]
            != "--continue"@ && kept[k] != "--fork-session"@ by {
            assert(!bare_claim(kept[k]) && !value_claim(kept[k]));
        }
    }
    if ccwd == panepath {
        assert(c.subrange(0, open.len() as int) =~= open);
    } else {
        assert(c.subrange(0, cd.len() as int) =~= cd);
    }
}

/// A pane whose conversation is known, and that no other pane has claimed, is put back
/// on it: its record says so, and its command ends by resuming that very transcript.
pub proof fn lemma_a_known_conversation_is_resumed(
    agent: Seq<char>,
    f: Seq<Seq<char>>,
    known: KnownView,
    claimed: Map<Seq<char>, Seq<char>>,
    t: Seq<char>,
    why: Seq<char>,
    cwd: Seq<char>,
)
    requires
        known.found == Ok::<ResolvedView, Seq<char>>(ResolvedView { transcript: t, why }),
        t.len() > 0,
        !claimed.dom().contains(t),
        known.argv.len() > 0,
        cwd == (if known.cwd.len() > 0 {
            known.cwd
        } else {
            f[2]
        }),
    ensures
        ({
            let c = command(agent, known.argv, t, cwd, f[2])->0;
            &&& (" --resume "@ + tmux::quoted(t)).is_suffix_of(c)
            &&& record(agent, f, known, claimed) == f[0] + "\t"@ + f[1] + "\t"@ + cwd
                + "\tresume\t"@ + why + ", "@ + known.state + "\t"@ + c + "\n"@
            &&& claims_after(f, known, claimed) == claimed.insert(t, f[0])
        }),
{
    lemma_a_command_ends_in_its_conversation(agent, known.argv, t, cwd, f[2]);
    let c = command(agent, known.argv, t, cwd, f[2])->0;
    reveal_strlit("\t");
    reveal_strlit("resume");
    reveal_strlit("\tresume\t");
    assert("\t"@ + "resume"@ + "\t"@ =~= "\tresume\t"@);
    assert(record(agent, f, known, claimed) =~= f[0] + "\t"@ + f[1] + "\t"@ + cwd
        + "\tresume\t"@ + why + ", "@ + known.state + "\t"@ + c + "\n"@);
}

/// A pane whose conversation another pane has claimed, or is not known, is not put back
/// on any: its record says that it is unresolved and why, its command resumes nothing,
/// and it claims nothing.
pub proof fn lemma_no_other_conversation_is_resumed(
    agent: Seq<char>,
    f: Seq<Seq<char>>,
    known: KnownView,
    claimed: Map<Seq<char>, Seq<char>>,
    why: Seq<char>,
    cwd: Seq<char>,
)
    requires
        known.argv.len() > 0,
        match known.found {
            Ok(r) => r.transcript.len() > 0 && claimed.dom().contains(r.transcript) && why
                == "resolves to the same transcript as "@ + claimed[r.transcript],
            Err(w) => why == w,
        },
        cwd == (if known.cwd.len() > 0 {
            known.cwd
        } else {
            f[2]
        }),
    ensures
        ({
            let c = command(agent, known.argv, Seq::empty(), cwd, f[2])->0;
            &&& record(agent, f, known, claimed) == f[0] + "\t"@ + f[1] + "\t"@ + cwd
                + "\tunresolved\t"@ + why + ", "@ + known.state + "\t"@ + c + "\n"@
            &&& claims_after(f, known, claimed) == claimed
            &&& exists|kept: Seq<Seq<char>>|
                (#[trigger] ("command "@ + agent + spaced(kept))).is_suffix_of(c) && forall|k: int|
                    0 <= k < kept.len() ==> #[trigger] kept[k] != "--resume"@
        }),
{
    lemma_a_command_ends_in_its_conversation(agent, known.argv, Seq::empty(), cwd, f[2]);
    let c = command(agent, known.argv, Seq::empty(), cwd, f[2])->0;
    reveal_strlit("\t");
    reveal_strlit("unresolved");
    reveal_strlit("\tunresolved\t");
    assert("\t"@ + "unresolved"@ + "\t"@ =~= "\tunresolved\t"@);
    assert(given(known, claimed) =~= Seq::<char>::empty());
    assert(record(agent, f, known, claimed) =~= f[0] + "\t"@ + f[1] + "\t"@ + cwd
        + "\tunresolved\t"@ + why + ", "@ + known.state + "\t"@ + c + "\n"@);
    let kept = choose|kept: Seq<Seq<char>>|
        (#[trigger] ("command "@ + agent + spaced(kept))).is_suffix_of(c) && forall|k: int|
            0 <= k < kept.len() ==> #[trigger] kept[k] != "--resume"@ && kept[k] != "-r"@
                && kept[k] != "--session-id"@ && kept[k] != "-c"@ && kept[k] != "--continue"@
                && kept[k] != "--fork-session"@;
    assert(("command "@ + agent + spaced(kept)).is_suffix_of(c));
}

/// Is it the row of a session of the agent that has a process?
pub open spec fn with_process(agent: Seq<char>, f: Seq<Seq<char>>) -> bool {
    &&& f.len() >= 7
    &&& f[3] == agent
    &&& text::integer_i32(f[4]) is Some
    &&& text::integer_i32(f[4]) != Some(0i32)
}

/// How many of the first `n` lines are such rows.
pub open spec fn processes(agent: Seq<char>, ls: Seq<Seq<char>>, n: int) -> int
    decreases n,
{
    if n <= 0 {
        0
    } else {
        processes(agent, ls, n - 1) + (if with_process(agent, text::fields(ls[n - 1], '\t')) {
            1int
        } else {
            0
        })
    }
}

/// Did one of the first `n` lines resolve to that transcript?
pub open spec fn resolved_before(
    agent: Seq<char>,
    ls: Seq<Seq<char>>,
    n: int,
    known: Seq<KnownView>,
    t: Seq<char>,
) -> bool {
    exists|j: int|
        0 <= j < n && with_process(agent, #[trigger] text::fields(ls[j], '\t')) && (
        match known[processes(agent, ls, j)].found {
            Ok(r) => r.transcript == t,
            Err(_) => false,
        })
}

proof fn lemma_records_up_to(
    agent: Seq<char>,
    ls: Seq<Seq<char>>,
    n: int,
    known: Seq<KnownView>,
) -> (r: (Seq<char>, Map<Seq<char>, Seq<char>>))
    requires
        0 <= n <= ls.len(),
    ensures
        records_from(agent, ls, 0, known, 0, Map::empty()) == r.0 + records_from(
            agent,
            ls,
            n,
            known,
            processes(agent, ls, n),
            r.1,
        ),
        forall|t: Seq<char>|
            #[trigger] r.1.dom().contains(t) <==> t.len() > 0 && resolved_before(
                agent,
                ls,
                n,
                known,
                t,
            ),
    decreases n,
{
    let all = records_from(agent, ls, 0, known, 0, Map::empty());
    if n == 0 {
        assert(all =~= Seq::<char>::empty() + all);
        (Seq::empty(), Map::empty())
    } else {
        let (front, claims) = lemma_records_up_to(agent, ls, n - 1, known);
        let f = text::fields(ls[n - 1], '\t');
        let k = processes(agent, ls, n - 1);
        let rest = records_from(agent, ls, n - 1, known, k, claims);
        assert forall|t: Seq<char>| resolved_before(agent, ls, n, known, t) <==> (
        #[trigger] resolved_before(agent, ls, n - 1, known, t) || (with_process(agent, f) && (
        match known[k].found {
            Ok(r) => r.transcript == t,
            Err(_) => false,
        }))) by {
            if resolved_before(agent, ls, n, known, t) {
                let j = choose|j: int|
                    0 <= j < n && with_process(agent, #[trigger] text::fields(ls[j], '\t')) && (
                    match known[processes(agent, ls, j)].found {
                        Ok(r) => r.transcript == t,
                        Err(_) => false,
                    });
                if j < n - 1 {
                    assert(with_process(agent, text::fields(ls[j], '\t')));
                }
            }
        }
        if !claude_row(agent, f) {
            (front, claims)
        } else if row_pid(f) == 0 {
            let line = no_process(agent, f);
            let behind = records_from(agent, ls, n, known, k, claims);
            assert(front + (line + behind) =~= front + line + behind);
            (front + line, claims)
        } else {
            assert(with_process(agent, f));
            let line = record(agent, f, known[k], claims);
            let after = claims_after(f, known[k], claims);
            let behind = records_from(agent, ls, n, known, k + 1, after);
            assert(front + (line + behind) =~= front + line + behind);
            (front + line, after)
        }
    }
}

/// Over a whole list, each conversation is resumed once, in the first pane that resolves
/// to it: the record of that pane ends in the command that resumes the transcript. A later
/// pane that resolves to it is unresolved, and what it is given resumes nothing.
pub proof fn lemma_a_conversation_is_resumed_in_its_first_pane(
    agent: Seq<char>,
    ls: Seq<Seq<char>>,
    i: int,
    known: Seq<KnownView>,
    t: Seq<char>,
    why: Seq<char>,
    cwd: Seq<char>,
)
    requires
        0 <= i < ls.len(),
        with_process(agent, text::fields(ls[i], '\t')),
        t.len() > 0,
        ({
            let k = known[processes(agent, ls, i)];
            &&& k.found == Ok::<ResolvedView, Seq<char>>(ResolvedView { transcript: t, why })
            &&& k.argv.len() > 0
            &&& cwd == (if k.cwd.len() > 0 {
                k.cwd
            } else {
                text::fields(ls[i], '\t')[2]
            })
        }),
    ensures
        ({
            let f = text::fields(ls[i], '\t');
            let k = known[processes(agent, ls, i)];
            let out = records_from(agent, ls, 0, known, 0, Map::empty());
            let resumed = command(agent, k.argv, t, cwd, f[2])->0;
            let bare = command(agent, k.argv, Seq::empty(), cwd, f[2])->0;
            &&& (" --resume "@ + tmux::quoted(t)).is_suffix_of(resumed)
            &&& !resolved_before(agent, ls, i, known, t) ==> text::has(
                out,
                f[0] + "\t"@ + f[1] + "\t"@ + cwd + "\tresume\t"@ + why + ", "@ + k.state + "\t"@
                    + resumed + "\n"@,
            )
            &&& resolved_before(agent, ls, i, known, t) ==> exists|owner: Seq<char>|
                text::has(
                    out,
                    #[trigger] (f[0] + "\t"@ + f[1] + "\t"@ + cwd
                        + "\tunresolved\tresolves to the same transcript as "@ + owner + ", "@
                        + k.state + "\t"@ + bare + "\n"@),
                )
        }),
{
    let f = text::fields(ls[i], '\t');
    let n = processes(agent, ls, i);
    let k = known[n];
    let out = records_from(agent, ls, 0, known, 0, Map::empty());
    let (front, claims) = lemma_records_up_to(agent, ls, i, known);
    lemma_a_command_ends_in_its_conversation(agent, k.argv, t, cwd, f[2]);
    assert(claude_row(agent, f) && row_pid(f) != 0);
    let line = record(agent, f, k, claims);
    let behind = records_from(agent, ls, i + 1, known, n + 1, claims_after(f, k, claims));
    assert(out =~= front + line + behind);
    text::lemma_has_middle(front, line, behind);
    if resolved_before(agent, ls, i, known, t) {
        assert(claims.dom().contains(t));
        let owner = claims[t];
        let bare = command(agent, k.argv, Seq::empty(), cwd, f[2])->0;
        let said = "resolves to the same transcript as "@ + owner;
        lemma_no_other_conversation_is_resumed(agent, f, k, claims, said, cwd);
        reveal_strlit("\tunresolved\t");
        reveal_strlit("resolves to the same transcript as ");
        reveal_strlit("\tunresolved\tresolves to the same transcript as ");
        assert("\tunresolved\t"@ + "resolves to the same transcript as "@
            =~= "\tunresolved\tresolves to the same transcript as "@);
        let want = f[0] + "\t"@ + f[1] + "\t"@ + cwd
            + "\tunresolved\tresolves to the same transcript as "@ + owner + ", "@ + k.state
            + "\t"@ + bare + "\n"@;
        assert(line =~= want);
        assert(text::has(out, want));
    } else {
        assert(!claims.dom().contains(t));
        lemma_a_known_conversation_is_resumed(agent, f, k, claims, t, why, cwd);
    }
}

/// A flag's value is the word behind the last place the flag stands with one.
pub proof fn lemma_the_last_flag_counts(
    argv: Seq<Seq<char>>,
    a: Seq<char>,
    b: Seq<char>,
    n: int,
    i: int,
)
    requires
        1 <= i < n <= argv.len(),
        i + 1 < argv.len(),
        argv[i] == a || argv[i] == b,
        argv[i + 1].len() == 0 || argv[i + 1][0] != '-',
        forall|k: int| i < k < n ==> #[trigger] argv[k] != a && argv[k] != b,
    ensures
        flag_value(argv, a, b, n) == Some(argv[i + 1]),
    decreases n,
{
    reveal_strlit("-");
    if "-"@.is_prefix_of(argv[i + 1]) {
        assert(argv[i + 1][0] == "-"@[0]);
    }
    if i < n - 1 {
        assert(argv[n - 1] != a && argv[n - 1] != b);
        lemma_the_last_flag_counts(argv, a, b, n - 1, i);
    }
}

/// The evidence on a pane is weighed in one order. What its own session recorded comes
/// first, if that was in this directory and is still there; then what its arguments name,
/// an attached session before a session of their own before a resumed one.
pub proof fn lemma_the_order_of_evidence(
    cwd: Seq<char>,
    title: Seq<char>,
    seen: SeenView,
    files: Seq<RecentView>,
    ids: Seq<Seq<char>>,
    t: Seq<char>,
)
    ensures
        ({
            let r = resolution(cwd, title, seen, files, ids);
            let recorded = match seen.map {
                Some(m) => json::or_empty(
                    json::scan_from(m, json::quoted("transcript_path"@), 0),
                ).len() > 0 && seen.files.contains(
                    json::or_empty(json::scan_from(m, json::quoted("transcript_path"@), 0)),
                ) && json::or_empty(json::scan_from(m, json::quoted("cwd"@), 0)) == cwd,
                None => false,
            };
            let argued = seen.is_dir && seen.argv.len() > 0;
            &&& recorded ==> r == Ok::<ResolvedView, Seq<char>>(
                ResolvedView {
                    transcript: json::or_empty(
                        json::scan_from(seen.map->0, json::quoted("transcript_path"@), 0),
                    ),
                    why: "pane map"@,
                },
            )
            &&& !recorded && argued && attach_names(seen) == Some(t) ==> r == Ok::<
                ResolvedView,
                Seq<char>,
            >(ResolvedView { transcript: t, why: "attach in argv"@ })
            &&& !recorded && argued && attach_names(seen) is None && session_id(seen.argv) == Some(
                t,
            ) && seen.files.contains(transcript_at(seen.project, t)) ==> r == Ok::<
                ResolvedView,
                Seq<char>,
            >(
                ResolvedView {
                    transcript: transcript_at(seen.project, t),
                    why: "--session-id in argv"@,
                },
            )
            &&& !recorded && argued && attach_names(seen) is None && session_id(seen.argv) is None
                && resumed(seen.argv) == Some(t) && seen.files.contains(
                transcript_at(seen.project, t),
            ) ==> r == Ok::<ResolvedView, Seq<char>>(
                ResolvedView {
                    transcript: transcript_at(seen.project, t),
                    why: "--resume in argv"@,
                },
            )
            &&& !recorded && !seen.is_dir ==> r == Err::<ResolvedView, Seq<char>>(
                "no project dir for "@ + cwd,
            )
        }),
{
}

/// Without any of that the title decides, where it is long enough to mean something: the
/// one transcript that records it, or the one of several that the screen shows at work.
/// Where none does, the one transcript that there is.
pub proof fn lemma_the_title_decides_last(
    cwd: Seq<char>,
    title: Seq<char>,
    seen: SeenView,
    files: Seq<RecentView>,
    ids: Seq<Seq<char>>,
)
    requires
        from_pane(seen, cwd) is None,
        seen.is_dir,
    ensures
        ({
            let r = resolution(cwd, title, seen, files, ids);
            let pane = normal_title(title);
            let hits = title_hits(files, pane);
            let long = pane.len() >= 8;
            &&& long && hits.len() == 1 ==> r == Ok::<ResolvedView, Seq<char>>(
                ResolvedView { transcript: hits[0], why: "title match"@ },
            )
            &&& long && hits.len() > 1 && narrowed(hits, ids).len() == 1 ==> r is Ok && r->Ok_0.transcript
                == narrowed(hits, ids)[0]
            &&& long && hits.len() > 1 && narrowed(hits, ids).len() != 1 ==> r is Err
            &&& (!long || hits.len() == 0) && files.len() == 1 ==> r == Ok::<
                ResolvedView,
                Seq<char>,
            >(ResolvedView { transcript: files[0].path, why: "only transcript in project"@ })
            &&& (!long || hits.len() == 0) && files.len() != 1 ==> r is Err
        }),
{
}

/// A transcript records a pane's title exactly where one of the titles in it is that one.
pub proof fn lemma_a_hit_records_the_title(files: Seq<RecentView>, pane: Seq<char>, path: Seq<char>)
    ensures
        title_hits(files, pane).contains(path) <==> exists|i: int|
            0 <= i < files.len() && (#[trigger] files[i]).path == path && records_title(
                files[i],
                pane,
            ),
    decreases files.len(),
{
    let all = title_hits(files, pane);
    if files.len() > 0 {
        let front = files.drop_last();
        let rest = title_hits(front, pane);
        lemma_a_hit_records_the_title(front, pane, path);
        if rest.contains(path) {
            let k = choose|k: int| 0 <= k < rest.len() && rest[k] == path;
            assert(all[k] == path);
            let i = choose|i: int|
                0 <= i < front.len() && (#[trigger] front[i]).path == path && records_title(
                    front[i],
                    pane,
                );
            assert(files[i] == front[i]);
        } else {
            if all.contains(path) {
                let k = choose|k: int| 0 <= k < all.len() && all[k] == path;
                if k < rest.len() {
                    assert(rest[k] == path);
                }
                assert(files[files.len() - 1].path == path);
            }
            if exists|i: int|
                0 <= i < files.len() && (#[trigger] files[i]).path == path && records_title(
                    files[i],
                    pane,
                ) {
                let i = choose|i: int|
                    0 <= i < files.len() && (#[trigger] files[i]).path == path && records_title(
                        files[i],
                        pane,
                    );
                if i < front.len() {
                    assert(front[i] == files[i]);
                } else {
                    assert(all.last() == path);
                }
            }
        }
    }
}

/// A title is the same as itself and as what it was cut to, from eight characters on; a
/// shorter one says too little, and a fork's title is not its parent's.
pub proof fn lemma_when_two_titles_are_one(pane: Seq<char>, recorded: Seq<char>)
    ensures
        pane.len() >= 8 && !pane.contains('⑂') ==> same_title(pane, variants_of(pane), pane),
        pane.len() >= 8 && recorded.len() >= 8 && !recorded.contains('⑂') && (
        recorded.is_prefix_of(pane) || pane.is_prefix_of(recorded)) ==> same_title(
            pane,
            variants_of(pane),
            recorded,
        ),
        recorded.len() < 8 ==> !same_title(pane, variants_of(pane), recorded),
        recorded.contains('⑂') && !pane.contains('⑂') ==> !same_title(
            pane,
            variants_of(pane),
            recorded,
        ),
{
    let v = variants_of(pane);
    assert(v[0] == pane);
    assert(pane.subrange(0, pane.len() as int) =~= pane);
}

/// Arguments that claim no conversation are all replayed, in order.
pub proof fn lemma_other_arguments_are_replayed(argv: Seq<Seq<char>>, i: int)
    requires
        1 <= i <= argv.len(),
        forall|k: int|
            i <= k < argv.len() ==> #[trigger] argv[k] != "--resume"@ && argv[k] != "-r"@ && argv[k]
                != "--session-id"@ && argv[k] != "-c"@ && argv[k] != "--continue"@ && argv[k]
                != "--fork-session"@ && argv[k] != "attach"@,
    ensures
        replayed(argv, i) == argv.skip(i),
    decreases argv.len() - i,
{
    if i < argv.len() {
        lemma_other_arguments_are_replayed(argv, i + 1);
        assert(!bare_claim(argv[i]) && !value_claim(argv[i]) && argv[i] != "attach"@);
        assert(seq![argv[i]] + argv.skip(i + 1) =~= argv.skip(i));
    } else {
        assert(argv.skip(i) =~= Seq::<Seq<char>>::empty());
    }
}

/// A directory's transcripts are kept under its own name, with every character that is
/// neither a letter nor a digit as a dash.
pub proof fn lemma_a_directory_is_named_by_dashes(cwd: Seq<char>, i: int)
    requires
        0 <= i < cwd.len(),
    ensures
        slug(cwd).len() == cwd.len(),
        text::is_alnum(cwd[i]) ==> slug(cwd)[i] == cwd[i],
        !text::is_alnum(cwd[i]) ==> slug(cwd)[i] == '-',
{
}

/// What a pane's session recorded is kept in a file named after the pane.
pub proof fn lemma_a_pane_has_its_own_file(dir: Seq<char>, n: Seq<char>)
    requires
        dir.len() > 0,
        dir.last() != '/',
        n.len() > 0,
        n[0] != '%',
        n[0] != '/',
    ensures
        map_file(dir, seq!['%'] + n) == dir + "/tmux-panes/"@ + n + ".json"@,
        project_dir(dir, n) == dir + "/projects/"@ + slug(n),
{
    let pane = seq!['%'] + n;
    reveal_with_fuel(unmarked, 2);
    assert(pane.skip(1) =~= n);
    reveal_strlit("tmux-panes");
    reveal_strlit("projects");
    reveal_strlit("/");
    reveal_strlit("/tmux-panes/");
    reveal_strlit("/projects/");
    let a = dir + "/"@ + "tmux-panes"@;
    let b = dir + "/"@ + "projects"@;
    assert("tmux-panes"@[0] == 't' && "projects"@[0] == 'p');
    assert(a.last() == 's' && b.last() == 's') by {
        assert(a.last() == "tmux-panes"@.last());
        assert(b.last() == "projects"@.last());
    }
    assert((n + ".json"@)[0] == n[0]);
    assert(slug(n)[0] != '/');
    assert("/"@ + "tmux-panes"@ + "/"@ =~= "/tmux-panes/"@);
    assert("/"@ + "projects"@ + "/"@ =~= "/projects/"@);
    assert(map_file(dir, pane) =~= dir + "/tmux-panes/"@ + n + ".json"@);
    assert(project_dir(dir, n) =~= dir + "/projects/"@ + slug(n));
}

/// The titles of a transcript are read from its end: the last one that was recorded comes
/// first.
pub proof fn lemma_the_last_title_comes_first(transcript: Seq<char>, i: int)
    requires
        ({
            let ls = text::lines_of(transcript);
            &&& 0 <= i < ls.len()
            &&& titled(ls[i])
            &&& title_on(ls[i]).len() > 0
            &&& forall|j: int| i < j < ls.len() ==> !titled(#[trigger] ls[j])
        }),
    ensures
        titles(transcript).len() > 0,
        titles(transcript)[0] == title_on(text::lines_of(transcript)[i]),
{
    let ls = text::lines_of(transcript);
    lemma_lines_without_a_title_are_passed(ls, ls.len() as int, i);
    let none = Seq::<Seq<char>>::empty();
    let first = none.push(title_on(ls[i]));
    lemma_titles_are_added_behind(ls, i, 7, first);
}

proof fn lemma_lines_without_a_title_are_passed(ls: Seq<Seq<char>>, to: int, i: int)
    requires
        0 <= i < to <= ls.len(),
        forall|j: int| i < j < to ==> !titled(#[trigger] ls[j]),
    ensures
        titles_up(ls, to, 8, Seq::empty()) == titles_up(ls, i + 1, 8, Seq::empty()),
    decreases to,
{
    if i + 1 < to {
        assert(!titled(ls[to - 1]));
        lemma_lines_without_a_title_are_passed(ls, to - 1, i);
    }
}

proof fn lemma_titles_are_added_behind(
    ls: Seq<Seq<char>>,
    to: int,
    left: nat,
    out: Seq<Seq<char>>,
)
    requires
        out.len() > 0,
    ensures
        titles_up(ls, to, left, out).len() >= out.len(),
        titles_up(ls, to, left, out)[0] == out[0],
    decreases to,
{
    if 0 < to <= ls.len() {
        if !titled(ls[to - 1]) {
            lemma_titles_are_added_behind(ls, to - 1, left, out);
        } else if left > 0 {
            let t = title_on(ls[to - 1]);
            let next = if t.len() > 0 && !out.contains(t) {
                out.push(t)
            } else {
                out
            };
            lemma_titles_are_added_behind(ls, to - 1, (left - 1) as nat, next);
        }
    }
}

/// A title that a person gave outranks one that was found for them, on the line it is on.
pub proof fn lemma_a_given_title_comes_before_a_found_one(line: Seq<char>, t: Seq<char>)
    requires
        t.len() > 0,
    ensures
        json::first_value(line, "customTitle"@) == Some(t) ==> title_on(line) == t,
        json::first_value(line, "customTitle"@) is None && json::first_value(line, "aiTitle"@)
            == Some(t) ==> title_on(line) == t,
        text::has(line, "\"type\":\"custom-title\""@) ==> titled(line),
        text::has(line, "\"type\":\"ai-title\""@) ==> titled(line),
{
}

/// A screen that shows where a tool left its results shows which conversation is at work:
/// the id that stands before that place.
pub proof fn lemma_a_results_path_gives_the_id(before: Seq<char>, id: Seq<char>)
    requires
        uuid(id),
        !text::has(before + id + "/tool-results"@.drop_last(), "/tool-results"@),
    ensures
        ids_from(before + id + "/tool-results"@, 0, Seq::empty()) == seq![id],
{
    let mark = "/tool-results"@;
    let s = before + id + mark;
    let n = before.len() as int + 36;
    reveal_strlit("/tool-results");
    assert(mark.len() == 13);
    assert(s.subrange(n, n + 13) =~= mark);
    assert(text::occurs_at(s, mark, n));
    text::lemma_find_from(s, mark, 0);
    let at = text::find_from(s, mark, 0)->0;
    if at < n {
        let short = before + id + mark.drop_last();
        assert(short.subrange(at, at + 13) =~= s.subrange(at, at + 13));
        assert(text::occurs_at(short, mark, at));
    }
    assert(at == n);
    assert(s.subrange(n - 36, n) =~= id);
    let none = Seq::<Seq<char>>::empty();
    assert(!none.contains(id));
    assert(none.push(id) =~= seq![id]);
    assert(ids_from(s, 0, none) == ids_from(s, n + 13, none.push(id)));
    assert(text::find_from(s, mark, n + 13) is None);
}

/// A row of the agent without a process is on record as unresolved, with the reason and
/// without a command; a row of anything else is not on record.
pub proof fn lemma_a_row_without_a_process_has_no_command(
    agent: Seq<char>,
    line: Seq<char>,
    known: Seq<KnownView>,
)
    ensures
        ({
            let f = text::fields(line, '\t');
            let out = records_from(agent, seq![line], 0, known, 0, Map::empty());
            &&& f.len() < 7 || f[3] != agent ==> out.len() == 0
            &&& f.len() >= 7 && f[3] == agent && !with_process(agent, f) ==> out == f[0] + "\t"@
                + f[1] + "\t"@ + f[2] + "\tunresolved\tlooks like "@ + agent
                + " but no session process was found under the pane\t\n"@
        }),
{
    let f = text::fields(line, '\t');
    let ls = seq![line];
    let none = Map::<Seq<char>, Seq<char>>::empty();
    assert(records_from(agent, ls, 1, known, 0, none) =~= Seq::<char>::empty());
    assert(no_process(agent, f) + records_from(agent, ls, 1, known, 0, none) =~= no_process(
        agent,
        f,
    ));
}

proof fn lemma_recent_places(files: Seq<Stamped>, cutoff: Option<i64>)
    ensures
        forall|k: int|
            0 <= k < recent_places(files, cutoff).len() ==> 0 <= #[trigger] recent_places(
                files,
                cutoff,
            )[k] < files.len() && recent_enough(files[recent_places(files, cutoff)[k]], cutoff),
    decreases files.len(),
{
    if files.len() > 0 {
        let front = files.drop_last();
        lemma_recent_places(front, cutoff);
        let rest = recent_places(front, cutoff);
        let all = recent_places(files, cutoff);
        assert forall|k: int| 0 <= k < all.len() implies 0 <= #[trigger] all[k] < files.len()
            && recent_enough(files[all[k]], cutoff) by {
            if k < rest.len() {
                assert(all[k] == rest[k]);
                assert(front[rest[k]] == files[rest[k]]);
            }
        }
    }
}

/// The transcripts that are looked into are transcripts, are none of them older than was
/// asked for, and are no more than the bound.
pub proof fn lemma_only_recent_transcripts_are_looked_into(
    files: Seq<Stamped>,
    cutoff: Option<i64>,
    k: int,
)
    requires
        0 <= k < recent(files, cutoff).len(),
    ensures
        recent(files, cutoff).len() <= 12,
        exists|i: int|
            0 <= i < files.len() && (#[trigger] files[i]).path@ == recent(files, cutoff)[k]
                && paths::ends_in(files[i].path@, "jsonl"@) && (cutoff is Some ==> files[i].at
                >= cutoff->0),
{
    let at = recent_places(files, cutoff);
    let keys = at.map_values(|p: int| -(files[p].at as int));
    order::lemma_ordered(keys);
    lemma_recent_places(files, cutoff);
    let by_age = order::ordered(keys);
    assert(0 <= by_age[k] < keys.len());
    let i = at[by_age[k]];
    assert(files[i].path@ == recent(files, cutoff)[k]);
    assert(recent_enough(files[i], cutoff));
}

} // verus!
