//! Which tmux panes are running a coding agent.
use vstd::prelude::*;

use crate::agents::Agent;
use crate::hook;
use crate::hook::Entry;
use crate::proc;
use crate::proc::Foreground;
use crate::state;
use crate::state::State;
use crate::text;
use crate::text::{
    chars_of, contains, dec_int, listed, same, slice, split, split_either, stands_at, tail_after,
};

verus! {

// ---------------------------------------------------------------------------
// The agent an argv names
// ---------------------------------------------------------------------------
/// Is it a whole word of the argv, or a whole component of a path in it?
pub open spec fn word_in(argv: Seq<char>, w: Seq<char>) -> bool {
    text::split_on(argv, ' ', '/').contains(w)
}

/// Is it a session that answers a program rather than a person?
pub open spec fn headless(argv: Seq<char>) -> bool {
    ||| text::has(argv, "--output-format"@)
    ||| text::fields(argv, ' ').contains("-p"@)
    ||| text::fields(argv, ' ').contains("--print"@)
}

/// The file that an argv runs: its first word.
pub open spec fn first_word(argv: Seq<char>) -> Seq<char> {
    text::fields(argv, ' ')[0]
}

/// The name a process was started under: its first word, without the path.
pub open spec fn program(argv: Seq<char>) -> Seq<char> {
    text::after_last(first_word(argv), '/')
}

/// Is the agent itself the program that is run, by its name or out of the directory
/// that its versions are kept in?
pub open spec fn runs(agent: Seq<char>, argv: Seq<char>) -> bool {
    ||| program(argv) == agent
    ||| text::has(first_word(argv), "/"@ + agent + "/versions/"@)
}

/// The agent a foreground argv names. A headless run of the agent names none, and
/// neither does what it was asked.
pub open spec fn named_in(agent: Seq<char>, argv: Seq<char>) -> Option<Seq<char>> {
    if argv.len() == 0 || (runs(agent, argv) && headless(argv)) {
        None
    } else if (word_in(argv, agent) || text::has(argv, "/"@ + agent + "/versions/"@)) && !headless(
        argv,
    ) {
        Some(agent)
    } else if word_in(argv, "codex"@) {
        Some("codex"@)
    } else if word_in(argv, "opencode"@) {
        Some("opencode"@)
    } else if word_in(argv, "agy"@) {
        Some("agy"@)
    } else if word_in(argv, "pi"@) {
        Some("pi"@)
    } else if text::has(argv, "gemini"@) {
        Some("gemini"@)
    } else if text::has(argv, "antigravity"@) {
        Some("antigravity"@)
    } else {
        None
    }
}

/// The agent a foreground argv names, or None.
///
/// Headless, SDK and sub-agent invocations are excluded: they are never a
/// pane's foreground, and listing one would offer a jump to a throwaway session.
/// That holds whatever other tool their prompt speaks of. A self-updated agent may be started from a file named after its version, so
/// its directory names it as well as the word does.
pub fn agent_of<'a>(agent: &'a str, argv: &str) -> (r: Option<&'a str>)
    ensures
        text::opt(r) == named_in(agent@, argv@),
{
    if argv.is_empty() {
        return None;
    }
    let parts = split_either(argv, ' ', '/');
    let mut versions = "/".to_owned();
    versions.append(agent);
    versions.append("/versions/");
    let args = split(argv, ' ');
    proof {
        text::lemma_some_field(argv@, ' ');
    }
    assert(text::texts(args@)[0] == args@[0]@);
    let quiet = contains(argv, "--output-format") || listed(&args, "-p") || listed(
        &args,
        "--print",
    );
    if quiet {
        let file = tail_after(&args[0], '/');
        if same(&file, agent) || contains(&args[0], &versions) {
            return None;
        }
    } else if listed(&parts, agent) || contains(argv, &versions) {
        return Some(agent);
    }
    if listed(&parts, "codex") {
        Some("codex")
    } else if listed(&parts, "opencode") {
        Some("opencode")
    } else if listed(&parts, "agy") {
        Some("agy")
    } else if listed(&parts, "pi") {
        Some("pi")
    } else if contains(argv, "gemini") {
        Some("gemini")
    } else if contains(argv, "antigravity") {
        Some("antigravity")
    } else {
        None
    }
}

// ---------------------------------------------------------------------------
// A pane
// ---------------------------------------------------------------------------
/// One row of `tmux list-panes -a`, before the agent join.
#[derive(Debug, Clone)]
pub struct Pane {
    pub tty: String,
    pub id: String,
    pub target: String,
    pub cwd: String,
    pub comm: String,
    pub title: String,
}

#[verifier::ext_equal]
pub struct PaneView {
    pub tty: Seq<char>,
    pub id: Seq<char>,
    pub target: Seq<char>,
    pub cwd: Seq<char>,
    pub comm: Seq<char>,
    pub title: Seq<char>,
}

impl View for Pane {
    type V = PaneView;

    open spec fn view(&self) -> PaneView {
        PaneView {
            tty: self.tty@,
            id: self.id@,
            target: self.target@,
            cwd: self.cwd@,
            comm: self.comm@,
            title: self.title@,
        }
    }
}

pub open spec fn panes_view(v: Seq<Pane>) -> Seq<PaneView> {
    v.map_values(|p: Pane| p@)
}

/// A device's name without the directory it begins with, however often.
pub open spec fn device(s: Seq<char>) -> Seq<char>
    decreases s.len(),
{
    if "/dev/"@.len() > 0 && "/dev/"@.is_prefix_of(s) {
        device(s.skip("/dev/"@.len() as int))
    } else {
        s
    }
}

/// The pane a line of five fields or more describes. Only the title may be
/// missing: tmux drops the trailing field when the title is unset.
pub open spec fn pane_in(line: Seq<char>) -> Option<PaneView> {
    let f = text::fields(line, '\t');
    if f.len() < 5 {
        None
    } else {
        Some(
            PaneView {
                tty: device(f[0]),
                id: f[1],
                target: f[2],
                cwd: f[3],
                comm: f[4],
                title: hook::field_or_empty(f, 5),
            },
        )
    }
}

/// A device's name, without the directory.
pub fn device_name(s: &str) -> (r: String)
    ensures
        r@ == device(s@),
{
    let v = chars_of(s);
    let d = chars_of("/dev/");
    proof {
        reveal_strlit("/dev/");
    }
    let n: usize = v.len();
    let mut i: usize = 0;
    assert(v@.skip(0) =~= v@);
    while n - i >= 5 && stands_at(&v, &d, i)
        invariant
            i <= n == v@.len(),
            d@ == "/dev/"@,
            d@.len() == 5,
            device(v@.skip(i as int)) == device(v@),
        decreases n - i,
    {
        let ghost t = v@.skip(i as int);
        assert(t.subrange(0, 5) =~= v@.subrange(i as int, i + 5));
        assert(d@.is_prefix_of(t));
        assert(t.skip(5) =~= v@.skip(i + 5));
        i = i + 5;
    }
    proof {
        let t = v@.skip(i as int);
        if d@.is_prefix_of(t) {
            assert(t.subrange(0, 5) =~= v@.subrange(i as int, i + 5));
        }
    }
    assert(v@.subrange(i as int, n as int) =~= v@.skip(i as int));
    slice(&v, i, n)
}

impl Pane {
    /// The pane that a line of the scan describes.
    pub fn parse(line: &str) -> (r: Option<Pane>)
        ensures
            match r {
                Some(p) => pane_in(line@) == Some(p@),
                None => pane_in(line@) is None,
            },
    {
        let f = split(line, '\t');
        let ghost fs = text::texts(f@);
        assert(fs.len() == f@.len());
        if f.len() < 5 {
            return None;
        }
        assert(fs[0] == f@[0]@ && fs[1] == f@[1]@ && fs[2] == f@[2]@ && fs[3] == f@[3]@ && fs[4]
            == f@[4]@);
        let title = if f.len() > 5 {
            assert(fs[5] == f@[5]@);
            f[5].clone()
        } else {
            let none = String::new();
            assert(none@ =~= Seq::<char>::empty());
            none
        };
        let tty = device_name(&f[0]);
        Some(
            Pane {
                tty,
                id: f[1].clone(),
                target: f[2].clone(),
                cwd: f[3].clone(),
                comm: f[4].clone(),
                title,
            },
        )
    }
}

// ---------------------------------------------------------------------------
// The join
// ---------------------------------------------------------------------------
/// Does the process run an agent on this tty: by the name it was started under
/// where `exact`, and otherwise by any mention of it?
pub open spec fn runs_agent(agent: Seq<char>, p: proc::ForegroundView, tty: Seq<char>, exact: bool) -> bool {
    p.tty == tty && match named_in(agent, p.argv) {
        Some(a) => !exact || program(p.argv) == a,
        None => false,
    }
}

/// The first process from `i` on that runs an agent on this tty.
pub open spec fn first_agent(
    agent: Seq<char>,
    fg: Seq<proc::ForegroundView>,
    tty: Seq<char>,
    exact: bool,
    i: int,
) -> Option<int>
    decreases fg.len() - i,
{
    if i < 0 || i >= fg.len() {
        None
    } else if runs_agent(agent, fg[i], tty, exact) {
        Some(i)
    } else {
        first_agent(agent, fg, tty, exact, i + 1)
    }
}

/// The process that decides a pane's agent. A launcher can name the agent in its
/// own argv, so one that was started under the agent's name wins over one that
/// merely mentions it.
pub open spec fn deciding(agent: Seq<char>, fg: Seq<proc::ForegroundView>, tty: Seq<char>) -> Option<int> {
    match first_agent(agent, fg, tty, true, 0) {
        Some(i) => Some(i),
        None => first_agent(agent, fg, tty, false, 0),
    }
}

/// Is anything at all in front of this tty?
pub open spec fn tty_seen(fg: Seq<proc::ForegroundView>, tty: Seq<char>) -> bool {
    exists|i: int| 0 <= i < fg.len() && (#[trigger] fg[i]).tty == tty
}

/// A name that is an agent's own.
pub open spec fn agent_word(agent: Seq<char>, s: Seq<char>) -> bool {
    ||| s == agent
    ||| s == "codex"@
    ||| s == "opencode"@
    ||| s == "gemini"@
    ||| s == "antigravity"@
    ||| s == "agy"@
    ||| s == "pi"@
}

/// Agent, process id and argv of a pane. tmux's own word for what runs there
/// counts only when NOTHING was seen in front of the tty: it must not override a
/// deliberate exclusion.
pub open spec fn occupant(agent: Seq<char>, pane: PaneView, fg: Seq<proc::ForegroundView>) -> Option<
    (Seq<char>, i32, Seq<char>),
> {
    match deciding(agent, fg, pane.tty) {
        Some(i) => Some((named_in(agent, fg[i].argv)->0, fg[i].pid, fg[i].argv)),
        None => if !tty_seen(fg, pane.tty) && agent_word(agent, pane.comm) {
            Some((pane.comm, 0i32, "-"@))
        } else {
            None
        },
    }
}

/// A title without the marks it opens with.
pub open spec fn unruled(s: Seq<char>) -> Seq<char>
    decreases s.len(),
{
    if s.len() > 0 && (s[0] == '¯' || s[0] == '‾' || s[0] == '_') {
        unruled(s.skip(1))
    } else {
        s
    }
}

/// The title a row shows.
pub open spec fn shown_title(agent: Seq<char>, title: Seq<char>) -> Seq<char> {
    if agent == "agy"@ {
        let t = text::trimmed_start(unruled(title));
        if t.len() == 0 {
            "✳"@
        } else {
            "✳ "@ + t
        }
    } else {
        title
    }
}

/// The row of a pane that an agent runs in.
pub open spec fn row_of(agent: Seq<char>, pane: PaneView, fg: Seq<proc::ForegroundView>) -> Option<Seq<char>> {
    match occupant(agent, pane, fg) {
        Some((name, pid, argv)) => Some(
            pane.id + "\t"@ + pane.target + "\t"@ + (if pane.cwd.len() == 0 {
                "?"@
            } else {
                pane.cwd
            }) + "\t"@ + name + "\t"@ + text::decimal_int(pid as int) + "\t"@ + argv + "\t"@
                + shown_title(name, pane.title),
        ),
        None => None,
    }
}

proof fn lemma_first_agent(agent: Seq<char>, fg: Seq<proc::ForegroundView>, tty: Seq<char>, exact: bool, i: int)
    requires
        0 <= i,
    ensures
        match first_agent(agent, fg, tty, exact, i) {
            Some(k) => i <= k < fg.len() && runs_agent(agent, fg[k], tty, exact),
            None => forall|k: int| i <= k < fg.len() ==> !runs_agent(agent, #[trigger] fg[k], tty, exact),
        },
    decreases fg.len() - i,
{
    if i < fg.len() && !runs_agent(agent, fg[i], tty, exact) {
        lemma_first_agent(agent, fg, tty, exact, i + 1);
    }
}

fn program_of(argv: &str) -> (r: String)
    ensures
        r@ == program(argv@),
{
    let args = split(argv, ' ');
    assert(text::texts(args@)[0] == args@[0]@);
    text::tail_after(&args[0], '/')
}

fn find_agent<'a>(agent: &'a str, fg: &[Foreground], tty: &str, exact: bool) -> (r: Option<
    (&'a str, usize),
>)
    ensures
        match r {
            Some((a, i)) => first_agent(agent@, proc::foreground_view(fg@), tty@, exact, 0) == Some(i as int)
                && i < fg@.len() && named_in(agent@, fg@[i as int].argv@) == Some(a@),
            None => first_agent(agent@, proc::foreground_view(fg@), tty@, exact, 0) is None,
        },
{
    let ghost all = proc::foreground_view(fg@);
    let mut i: usize = 0;
    while i < fg.len()
        invariant
            i <= fg@.len(),
            all == proc::foreground_view(fg@),
            first_agent(agent@, all, tty@, exact, i as int) == first_agent(agent@, all, tty@, exact, 0),
        decreases fg@.len() - i,
    {
        let p = &fg[i];
        assert(all[i as int] == p@);
        if same(&p.tty, tty) {
            if let Some(a) = agent_of(agent, &p.argv) {
                if !exact {
                    return Some((a, i));
                }
                let name = program_of(&p.argv);
                if same(&name, a) {
                    return Some((a, i));
                }
            }
        }
        i = i + 1;
    }
    None
}

fn seen_in_front(fg: &[Foreground], tty: &str) -> (r: bool)
    ensures
        r == tty_seen(proc::foreground_view(fg@), tty@),
{
    let ghost all = proc::foreground_view(fg@);
    let mut i: usize = 0;
    while i < fg.len()
        invariant
            i <= fg@.len(),
            all == proc::foreground_view(fg@),
            forall|k: int| 0 <= k < i ==> (#[trigger] all[k]).tty != tty@,
        decreases fg@.len() - i,
    {
        assert(all[i as int] == fg@[i as int]@);
        if same(&fg[i].tty, tty) {
            return true;
        }
        i = i + 1;
    }
    false
}

fn is_agent_word(agent: &str, s: &str) -> (r: bool)
    ensures
        r == agent_word(agent@, s@),
{
    same(s, agent) || same(s, "codex") || same(s, "opencode") || same(s, "gemini") || same(
        s,
        "antigravity",
    ) || same(s, "agy") || same(s, "pi")
}

fn find_occupant(agent: &str, pane: &Pane, fg: &[Foreground]) -> (r: Option<(String, i32, String)>)
    ensures
        match r {
            Some((a, pid, argv)) => occupant(agent@, pane@, proc::foreground_view(fg@)) == Some(
                (a@, pid, argv@),
            ),
            None => occupant(agent@, pane@, proc::foreground_view(fg@)) is None,
        },
{
    let ghost all = proc::foreground_view(fg@);
    if let Some((a, i)) = find_agent(agent, fg, &pane.tty, true) {
        assert(all[i as int] == fg@[i as int]@);
        return Some((a.to_owned(), fg[i].pid, fg[i].argv.clone()));
    }
    if let Some((a, i)) = find_agent(agent, fg, &pane.tty, false) {
        assert(all[i as int] == fg@[i as int]@);
        return Some((a.to_owned(), fg[i].pid, fg[i].argv.clone()));
    }
    if !seen_in_front(fg, &pane.tty) && is_agent_word(agent, &pane.comm) {
        return Some((pane.comm.clone(), 0, "-".to_owned()));
    }
    None
}

fn title_shown(agent: &str, title: &str) -> (r: String)
    ensures
        r@ == shown_title(agent@, title@),
{
    if !same(agent, "agy") {
        return title.to_owned();
    }
    let v = chars_of(title);
    let n: usize = v.len();
    let mut i: usize = 0;
    assert(v@.skip(0) =~= v@);
    while i < n && (v[i] == '¯' || v[i] == '‾' || v[i] == '_')
        invariant
            i <= n == v@.len(),
            unruled(v@.skip(i as int)) == unruled(v@),
        decreases n - i,
    {
        assert(v@.skip(i as int)[0] == v@[i as int]);
        assert(v@.skip(i as int).skip(1) =~= v@.skip(i + 1));
        i = i + 1;
    }
    assert(i < n ==> v@.skip(i as int)[0] == v@[i as int]);
    assert(v@.subrange(i as int, n as int) =~= v@.skip(i as int));
    let bare = slice(&v, i, n);
    let t = text::trim_start(&bare);
    if t.as_str().is_empty() {
        return "✳".to_owned();
    }
    let mut out = "✳ ".to_owned();
    out.append(&t);
    out
}

/// The agent row for a pane: `pane_id \t target \t cwd \t agent \t pid \t argv \t title`.
pub fn agent_row(agent: &str, pane: &Pane, fg: &[Foreground]) -> (r: Option<String>)
    ensures
        text::opt_string(r) == row_of(agent@, pane@, proc::foreground_view(fg@)),
{
    match find_occupant(agent, pane, fg) {
        None => None,
        Some((name, pid, argv)) => {
            let mut t = pane.id.clone();
            t.append("\t");
            t.append(&pane.target);
            t.append("\t");
            if pane.cwd.as_str().is_empty() {
                t.append("?");
            } else {
                t.append(&pane.cwd);
            }
            t.append("\t");
            t.append(&name);
            t.append("\t");
            let n = dec_int(pid as i64);
            t.append(&n);
            t.append("\t");
            t.append(&argv);
            t.append("\t");
            let title = title_shown(&name, &pane.title);
            t.append(&title);
            Some(t)
        },
    }
}

// ---------------------------------------------------------------------------
// The rows of a scan
// ---------------------------------------------------------------------------
/// The agent rows of a scan.
pub open spec fn rows_in(agent: Seq<char>, panes: Seq<PaneView>, fg: Seq<proc::ForegroundView>) -> Seq<Seq<char>>
    decreases panes.len(),
{
    if panes.len() == 0 {
        Seq::empty()
    } else {
        let rest = rows_in(agent, panes.drop_last(), fg);
        match row_of(agent, panes.last(), fg) {
            Some(r) => rest.push(r),
            None => rest,
        }
    }
}

fn collect_rows(agent: &str, panes: &Vec<Pane>, fg: &[Foreground]) -> (r: Vec<String>)
    ensures
        text::texts(r@) == rows_in(agent@, panes_view(panes@), proc::foreground_view(fg@)),
{
    let ghost all = panes_view(panes@);
    let ghost front = proc::foreground_view(fg@);
    let mut out: Vec<String> = Vec::new();
    let mut i: usize = 0;
    assert(text::texts(out@) =~= rows_in(agent@, all.take(0), front));
    while i < panes.len()
        invariant
            i <= panes@.len(),
            all == panes_view(panes@),
            front == proc::foreground_view(fg@),
            text::texts(out@) == rows_in(agent@, all.take(i as int), front),
        decreases panes@.len() - i,
    {
        assert(all.take(i + 1).drop_last() =~= all.take(i as int));
        assert(all.take(i + 1).last() == panes@[i as int]@);
        if let Some(row) = agent_row(agent, &panes[i], fg) {
            proof {
                text::lemma_texts_push(out@, row);
            }
            out.push(row);
        }
        i = i + 1;
    }
    assert(all.take(all.len() as int) =~= all);
    out
}

/// The agent row of every pane that has one, line by line.
pub fn agent_rows(agent: &str, panes: &Vec<Pane>, fg: &[Foreground]) -> (r: String)
    ensures
        r@ == text::as_lines(rows_in(agent@, panes_view(panes@), proc::foreground_view(fg@))),
{
    let rows = collect_rows(agent, panes, fg);
    text::end_lines(&rows)
}

/// What was found out about the pane of one agent row.
pub struct Observed {
    /// What is on its screen.
    pub screen: String,
    /// What its session reported, brought up to date.
    pub hook: Option<Entry>,
    /// The version it runs, where that is known.
    pub version: Option<String>,
}

pub struct ObservedView {
    pub screen: Seq<char>,
    pub hook: Option<hook::EntryView>,
    pub version: Option<Seq<char>>,
}

impl View for Observed {
    type V = ObservedView;

    open spec fn view(&self) -> ObservedView {
        ObservedView {
            screen: self.screen@,
            hook: hook::entry_view(self.hook),
            version: text::opt_string(self.version),
        }
    }
}

pub open spec fn observed_view(v: Seq<Observed>) -> Seq<ObservedView> {
    v.map_values(|o: Observed| o@)
}

/// What a session is doing: its own report and its screen, reconciled.
pub open spec fn doing(
    screen: Seq<char>,
    hook: Option<hook::EntryView>,
    spoken: Seq<char>,
) -> State {
    state::merged(
        screen,
        match hook {
            Some(e) => Some(e.state),
            None => None,
        },
        spoken,
    )
}

/// The row the picker reads, from an agent row and what was found out.
pub open spec fn full_row(row: Seq<char>, seen: ObservedView, spoken: Seq<char>) -> Seq<char> {
    let f = text::fields(row, '\t');
    f[0] + "\t"@ + f[1] + "\t"@ + f[2] + "\t"@ + f[3] + "\t"@ + (match seen.version {
        Some(v) => if hook_pid(f) == 0 {
            Seq::empty()
        } else {
            v
        },
        None => Seq::empty(),
    }) + "\t"@ + doing(seen.screen, seen.hook, spoken).word() + "\t"@ + (match seen.hook {
        Some(e) => e.mode,
        None => "-"@,
    }) + "\t"@ + f[6]
}

/// The process id an agent row carries.
pub open spec fn hook_pid(f: Seq<Seq<char>>) -> i32 {
    match text::integer_i32(f[4]) {
        Some(n) => n,
        None => 0,
    }
}

pub open spec fn full_rows(
    rows: Seq<Seq<char>>,
    seen: Seq<ObservedView>,
    spoken: Seq<char>,
) -> Seq<Seq<char>> {
    Seq::new(rows.len(), |i: int| full_row(rows[i], seen[i], spoken))
}

/// What the session in one pane is doing, read exactly as the list reads it.
pub fn state_of(screen: &str, hook: &Option<Entry>, spoken: &str) -> (r: State)
    ensures
        r == doing(screen@, hook::entry_view(*hook), spoken@),
{
    match hook {
        Some(e) => state::merge(screen, Some(e.state.as_str()), spoken),
        None => state::merge(screen, None, spoken),
    }
}

fn list_row(row: &str, seen: &Observed, spoken: &str) -> (r: String)
    requires
        text::fields(row@, '\t').len() >= 7,
    ensures
        r@ == full_row(row@, seen@, spoken@),
{
    let f = split(row, '\t');
    let ghost fs = text::texts(f@);
    assert(fs.len() == f@.len());
    assert(fs[0] == f@[0]@ && fs[1] == f@[1]@ && fs[2] == f@[2]@ && fs[3] == f@[3]@ && fs[4]
        == f@[4]@ && fs[6] == f@[6]@);
    let pid: i32 = match text::parse_i32(&f[4]) {
        Some(n) => n,
        None => 0,
    };
    let none = String::new();
    assert(none@ =~= Seq::<char>::empty());
    let mut t = f[0].clone();
    t.append("\t");
    t.append(&f[1]);
    t.append("\t");
    t.append(&f[2]);
    t.append("\t");
    t.append(&f[3]);
    t.append("\t");
    match &seen.version {
        Some(v) => {
            if pid == 0 {
                t.append(&none);
            } else {
                t.append(v);
            }
        },
        None => {
            t.append(&none);
        },
    }
    t.append("\t");
    let st = state_of(&seen.screen, &seen.hook, spoken);
    t.append(st.as_str());
    t.append("\t");
    match &seen.hook {
        Some(e) => {
            t.append(&e.mode);
        },
        None => {
            t.append("-");
        },
    }
    t.append("\t");
    t.append(&f[6]);
    t
}

proof fn lemma_rows_have_fields(agent: Seq<char>, pane: PaneView, fg: Seq<proc::ForegroundView>)
    ensures
        match row_of(agent, pane, fg) {
            Some(r) => text::fields(r, '\t').len() >= 7,
            None => true,
        },
{
    match occupant(agent, pane, fg) {
        Some((name, pid, argv)) => {
            reveal_strlit("\t");
            assert("\t"@ =~= seq!['\t']);
            let cwd = if pane.cwd.len() == 0 {
                "?"@
            } else {
                pane.cwd
            };
            let n = text::decimal_int(pid as int);
            let t = shown_title(name, pane.title);
            let a = pane.id + seq!['\t'] + pane.target;
            let b = a + seq!['\t'] + cwd;
            let c = b + seq!['\t'] + name;
            let d = c + seq!['\t'] + n;
            let e = d + seq!['\t'] + argv;
            text::lemma_fields_join(pane.id, '\t', pane.target);
            text::lemma_fields_join(a, '\t', cwd);
            text::lemma_fields_join(b, '\t', name);
            text::lemma_fields_join(c, '\t', n);
            text::lemma_fields_join(d, '\t', argv);
            text::lemma_fields_join(e, '\t', t);
            text::lemma_some_field(pane.id, '\t');
            text::lemma_some_field(pane.target, '\t');
            text::lemma_some_field(cwd, '\t');
            text::lemma_some_field(name, '\t');
            text::lemma_some_field(n, '\t');
            text::lemma_some_field(argv, '\t');
            text::lemma_some_field(t, '\t');
        },
        None => {},
    }
}

proof fn lemma_all_rows_have_fields(agent: Seq<char>, panes: Seq<PaneView>, fg: Seq<proc::ForegroundView>)
    ensures
        forall|i: int|
            0 <= i < rows_in(agent, panes, fg).len() ==> text::fields(
                #[trigger] rows_in(agent, panes, fg)[i],
                '\t',
            ).len() >= 7,
    decreases panes.len(),
{
    if panes.len() > 0 {
        lemma_all_rows_have_fields(agent, panes.drop_last(), fg);
        lemma_rows_have_fields(agent, panes.last(), fg);
        let rest = rows_in(agent, panes.drop_last(), fg);
        let all = rows_in(agent, panes, fg);
        assert forall|i: int| 0 <= i < all.len() implies text::fields(
            #[trigger] all[i],
            '\t',
        ).len() >= 7 by {
            if i < rest.len() {
                assert(all[i] == rest[i]);
            }
        }
    }
}

/// The full rows the picker reads, line by line:
///   pane_id \t target \t cwd \t agent \t version \t state \t mode \t title
///
/// `seen` is what was found out about the pane of each agent row, in the order of
/// `agent_rows`. A version that is not known is left empty, and so is that of a
/// pane whose process was not found.
pub fn list_rows(
    agent: &Agent,
    panes: &Vec<Pane>,
    fg: &[Foreground],
    seen: &Vec<Observed>,
) -> (r: String)
    requires
        seen@.len() >= rows_in(agent.name@, panes_view(panes@), proc::foreground_view(fg@)).len(),
    ensures
        r@ == text::as_lines(
            full_rows(
                rows_in(agent.name@, panes_view(panes@), proc::foreground_view(fg@)),
                observed_view(seen@),
                agent.spoken@,
            ),
        ),
{
    let rows = collect_rows(agent.name, panes, fg);
    let ghost all = text::texts(rows@);
    let ghost obs = observed_view(seen@);
    proof {
        lemma_all_rows_have_fields(agent.name@, panes_view(panes@), proc::foreground_view(fg@));
    }
    let mut out: Vec<String> = Vec::new();
    let mut i: usize = 0;
    while i < rows.len()
        invariant
            i <= rows@.len(),
            rows@.len() == all.len(),
            all == text::texts(rows@),
            obs == observed_view(seen@),
            seen@.len() >= all.len(),
            forall|k: int| 0 <= k < all.len() ==> text::fields(#[trigger] all[k], '\t').len() >= 7,
            text::texts(out@) == full_rows(all, obs, agent.spoken@).take(i as int),
        decreases rows@.len() - i,
    {
        assert(all[i as int] == rows@[i as int]@);
        assert(obs[i as int] == seen@[i as int]@);
        let t = list_row(&rows[i], &seen[i], agent.spoken);
        proof {
            text::lemma_texts_push(out@, t);
        }
        out.push(t);
        assert(full_rows(all, obs, agent.spoken@).take(i + 1) =~= full_rows(all, obs, agent.spoken@).take(i as int).push(t@));
        i = i + 1;
    }
    assert(full_rows(all, obs, agent.spoken@).take(all.len() as int) =~= full_rows(all, obs, agent.spoken@));
    text::end_lines(&out)
}

// ---------------------------------------------------------------------------
// Laws
// ---------------------------------------------------------------------------
/// The agent's own process decides over the launcher that leads its group: where a
/// process on the tty was started under an agent's name, the one that decides was.
pub proof fn lemma_the_agent_wins_over_its_launcher(
    agent: Seq<char>,
    fg: Seq<proc::ForegroundView>,
    tty: Seq<char>,
    i: int,
)
    requires
        0 <= i < fg.len(),
        runs_agent(agent, fg[i], tty, true),
    ensures
        match deciding(agent, fg, tty) {
            Some(k) => 0 <= k < fg.len() && runs_agent(agent, fg[k], tty, true),
            None => false,
        },
{
    lemma_first_agent(agent, fg, tty, true, 0);
}

/// A headless run of the agent is no row, whatever its prompt speaks of.
pub proof fn lemma_a_headless_run_names_nothing(agent: Seq<char>, argv: Seq<char>)
    requires
        runs(agent, argv),
        headless(argv),
    ensures
        named_in(agent, argv) is None,
{
}

/// A pane is never given an agent that its own foreground processes were excluded
/// as: where anything is in front of its tty, only such a process can make a row.
pub proof fn lemma_an_exclusion_is_not_overridden(
    agent: Seq<char>,
    pane: PaneView,
    fg: Seq<proc::ForegroundView>,
)
    requires
        tty_seen(fg, pane.tty),
        forall|i: int|
            0 <= i < fg.len() && (#[trigger] fg[i]).tty == pane.tty ==> named_in(agent, fg[i].argv) is None,
    ensures
        row_of(agent, pane, fg) is None,
{
    lemma_first_agent(agent, fg, pane.tty, true, 0);
    lemma_first_agent(agent, fg, pane.tty, false, 0);
}

/// The row of a pane gives its id, its target, its directory, the agent in it, the
/// process, the arguments and the title, each in a field of its own.
pub proof fn lemma_the_fields_of_a_pane(
    agent: Seq<char>,
    pane: PaneView,
    fg: Seq<proc::ForegroundView>,
    name: Seq<char>,
    pid: i32,
    argv: Seq<char>,
)
    requires
        occupant(agent, pane, fg) == Some((name, pid, argv)),
        name != "agy"@,
        text::free_of(pane.id, '\t'),
        text::free_of(pane.target, '\t'),
        text::free_of(pane.cwd, '\t'),
        text::free_of(pane.title, '\t'),
        text::free_of(name, '\t'),
        text::free_of(argv, '\t'),
    ensures
        row_of(agent, pane, fg) is Some,
        text::fields(row_of(agent, pane, fg)->0, '\t') == seq![
            pane.id,
            pane.target,
            if pane.cwd.len() == 0 {
                "?"@
            } else {
                pane.cwd
            },
            name,
            text::decimal_int(pid as int),
            argv,
            pane.title,
        ],
{
    let cwd = if pane.cwd.len() == 0 {
        "?"@
    } else {
        pane.cwd
    };
    let n = text::decimal_int(pid as int);
    let row = row_of(agent, pane, fg)->0;
    text::lemma_decimal_is_read_back(pid as int);
    assert forall|i: int| 0 <= i < n.len() implies n[i] != '\t' by {
        assert(text::is_digit(n[i]) || n[i] == '-');
    }
    reveal_strlit("\t");
    reveal_strlit("?");
    assert("\t"@ =~= seq!['\t']);
    let g = argv + seq!['\t'] + pane.title;
    let f = n + seq!['\t'] + g;
    let d = name + seq!['\t'] + f;
    let c = cwd + seq!['\t'] + d;
    let b = pane.target + seq!['\t'] + c;
    assert(row =~= pane.id + seq!['\t'] + b);
    text::lemma_first_field(pane.id, '\t', b);
    text::lemma_first_field(pane.target, '\t', c);
    text::lemma_first_field(cwd, '\t', d);
    text::lemma_first_field(name, '\t', f);
    text::lemma_first_field(n, '\t', g);
    text::lemma_first_field(argv, '\t', pane.title);
    text::lemma_one_field(pane.title, '\t');
    assert(text::fields(row, '\t') =~= seq![
        pane.id,
        pane.target,
        cwd,
        name,
        n,
        argv,
        pane.title,
    ]);
}

/// The full row of a session keeps what the row of its pane says of where it is and what
/// it is called, and gives in place of the process and its arguments the version it runs,
/// what it is doing and the mode it is in.
pub proof fn lemma_the_fields_of_a_full_row(row: Seq<char>, seen: ObservedView, spoken: Seq<char>)
    requires
        text::fields(row, '\t').len() == 7,
        match seen.version {
            Some(v) => text::free_of(v, '\t'),
            None => true,
        },
        match seen.hook {
            Some(e) => text::free_of(e.mode, '\t'),
            None => true,
        },
    ensures
        ({
            let f = text::fields(row, '\t');
            let st = state::merged(
                seen.screen,
                match seen.hook {
                    Some(e) => Some(e.state),
                    None => None,
                },
                spoken,
            );
            text::fields(full_row(row, seen, spoken), '\t') == seq![
                f[0],
                f[1],
                f[2],
                f[3],
                if seen.version is Some && text::integer_i32(f[4]) is Some && text::integer_i32(f[4])
                    != Some(0i32) {
                    seen.version->0
                } else {
                    Seq::empty()
                },
                match st {
                    State::Input => "input"@,
                    State::Run => "run"@,
                    State::Idle => "idle"@,
                    State::Unknown => "unknown"@,
                },
                match seen.hook {
                    Some(e) => e.mode,
                    None => "-"@,
                },
                f[6],
            ]
        }),
{
    let f = text::fields(row, '\t');
    text::lemma_fields_are_free(row, '\t');
    let ver = if seen.version is Some && text::integer_i32(f[4]) is Some && text::integer_i32(f[4])
        != Some(0i32) {
        seen.version->0
    } else {
        Seq::empty()
    };
    let word = doing(seen.screen, seen.hook, spoken).word();
    let mode = match seen.hook {
        Some(e) => e.mode,
        None => "-"@,
    };
    reveal_strlit("\t");
    reveal_strlit("-");
    reveal_strlit("input");
    reveal_strlit("run");
    reveal_strlit("idle");
    reveal_strlit("unknown");
    assert("\t"@ =~= seq!['\t']);
    assert(text::free_of(f[0], '\t') && text::free_of(f[1], '\t') && text::free_of(f[2], '\t')
        && text::free_of(f[3], '\t') && text::free_of(f[6], '\t'));
    assert(text::free_of(word, '\t'));
    assert(text::free_of(ver, '\t'));
    assert(text::free_of(mode, '\t'));
    lemma_eight_fields(f[0], f[1], f[2], f[3], ver, word, mode, f[6]);
}

proof fn lemma_eight_fields(
    a: Seq<char>,
    b: Seq<char>,
    c: Seq<char>,
    d: Seq<char>,
    e: Seq<char>,
    f: Seq<char>,
    g: Seq<char>,
    h: Seq<char>,
)
    requires
        text::free_of(a, '\t'),
        text::free_of(b, '\t'),
        text::free_of(c, '\t'),
        text::free_of(d, '\t'),
        text::free_of(e, '\t'),
        text::free_of(f, '\t'),
        text::free_of(g, '\t'),
        text::free_of(h, '\t'),
    ensures
        text::fields(
            a + "\t"@ + b + "\t"@ + c + "\t"@ + d + "\t"@ + e + "\t"@ + f + "\t"@ + g + "\t"@ + h,
            '\t',
        ) == seq![a, b, c, d, e, f, g, h],
{
    reveal_strlit("\t");
    let t = "\t"@;
    assert(t =~= seq!['\t']);
    let ab = a + t + b;
    let cd = ab + t + c + t + d;
    let ef = cd + t + e + t + f;
    text::lemma_one_field(a, '\t');
    text::lemma_one_field(b, '\t');
    text::lemma_one_field(c, '\t');
    text::lemma_one_field(d, '\t');
    text::lemma_one_field(e, '\t');
    text::lemma_one_field(f, '\t');
    text::lemma_one_field(g, '\t');
    text::lemma_one_field(h, '\t');
    text::lemma_fields_join(a, '\t', b);
    text::lemma_fields_join(ab, '\t', c);
    text::lemma_fields_join(ab + t + c, '\t', d);
    text::lemma_fields_join(cd, '\t', e);
    text::lemma_fields_join(cd + t + e, '\t', f);
    text::lemma_fields_join(ef, '\t', g);
    text::lemma_fields_join(ef + t + g, '\t', h);
    assert(text::fields(ef + t + g + t + h, '\t') =~= seq![a, b, c, d, e, f, g, h]);
}

/// A process is what its own program says it is: the agent started without a request to
/// print, or else the one of the other agents that its arguments name.
pub proof fn lemma_a_process_is_named_after_its_program(agent: Seq<char>, argv: Seq<char>)
    requires
        argv.len() > 0,
        !text::has(argv, "--output-format"@),
        !text::fields(argv, ' ').contains("-p"@),
        !text::fields(argv, ' ').contains("--print"@),
    ensures
        text::split_on(argv, ' ', '/').contains(agent) ==> named_in(agent, argv) == Some(agent),
        text::has(argv, "/"@ + agent + "/versions/"@) ==> named_in(agent, argv) == Some(agent),
        !text::split_on(argv, ' ', '/').contains(agent) && !text::has(
            argv,
            "/"@ + agent + "/versions/"@,
        ) && text::split_on(argv, ' ', '/').contains("codex"@) ==> named_in(agent, argv) == Some(
            "codex"@,
        ),
        !text::split_on(argv, ' ', '/').contains(agent) && !text::has(
            argv,
            "/"@ + agent + "/versions/"@,
        ) && !text::split_on(argv, ' ', '/').contains("codex"@) && text::split_on(
            argv,
            ' ',
            '/',
        ).contains("opencode"@) ==> named_in(agent, argv) == Some("opencode"@),
        named_in(agent, argv) is Some ==> agent_word(agent, named_in(agent, argv)->0),
{
}

/// The agents that a pane can be known by.
pub proof fn lemma_the_known_agents(agent: Seq<char>)
    ensures
        agent_word(agent, agent),
        agent_word(agent, "codex"@),
        agent_word(agent, "opencode"@),
        agent_word(agent, "gemini"@),
        agent_word(agent, "antigravity"@),
        agent_word(agent, "agy"@),
        agent_word(agent, "pi"@),
{
}

/// A pane is listed exactly where an agent is in it: every such pane has its row, and no
/// row is of any other.
pub proof fn lemma_every_agent_pane_is_listed(
    agent: Seq<char>,
    panes: Seq<PaneView>,
    fg: Seq<proc::ForegroundView>,
    row: Seq<char>,
)
    ensures
        rows_in(agent, panes, fg).contains(row) <==> exists|i: int|
            0 <= i < panes.len() && #[trigger] row_of(agent, panes[i], fg) == Some(row),
    decreases panes.len(),
{
    let all = rows_in(agent, panes, fg);
    if panes.len() > 0 {
        let front = panes.drop_last();
        lemma_every_agent_pane_is_listed(agent, front, fg, row);
        let rest = rows_in(agent, front, fg);
        if rest.contains(row) {
            let k = choose|k: int| 0 <= k < rest.len() && rest[k] == row;
            assert(all[k] == row);
            let i = choose|i: int|
                0 <= i < front.len() && #[trigger] row_of(agent, front[i], fg) == Some(row);
            assert(panes[i] == front[i]);
            assert(row_of(agent, panes[i], fg) == Some(row));
        } else {
            if all.contains(row) {
                let k = choose|k: int| 0 <= k < all.len() && all[k] == row;
                if k < rest.len() {
                    assert(rest[k] == row);
                }
                assert(row_of(agent, panes[panes.len() - 1], fg) == Some(row));
            }
            if exists|i: int|
                0 <= i < panes.len() && #[trigger] row_of(agent, panes[i], fg) == Some(row) {
                let i = choose|i: int|
                    0 <= i < panes.len() && #[trigger] row_of(agent, panes[i], fg) == Some(row);
                if i < front.len() {
                    assert(row_of(agent, front[i], fg) == Some(row));
                } else {
                    assert(all.last() == row);
                }
            }
        }
    }
}

/// The agent in a pane is the first process on its terminal that runs one, and its process
/// and arguments are the ones that are told.
pub proof fn lemma_the_occupant_is_on_the_terminal(
    agent: Seq<char>,
    pane: PaneView,
    fg: Seq<proc::ForegroundView>,
)
    ensures
        match occupant(agent, pane, fg) {
            Some((name, pid, argv)) => {
                ||| exists|i: int|
                    0 <= i < fg.len() && (#[trigger] fg[i]).tty == pane.tty && fg[i].pid == pid
                        && fg[i].argv == argv && named_in(agent, argv) == Some(name)
                ||| name == pane.comm && pid == 0 && argv == "-"@ && forall|i: int|
                    0 <= i < fg.len() ==> (#[trigger] fg[i]).tty != pane.tty
            },
            None => forall|i: int|
                0 <= i < fg.len() && (#[trigger] fg[i]).tty == pane.tty ==> named_in(
                    agent,
                    fg[i].argv,
                ) is None,
        },
{
    lemma_first_agent(agent, fg, pane.tty, true, 0);
    lemma_first_agent(agent, fg, pane.tty, false, 0);
    match deciding(agent, fg, pane.tty) {
        Some(i) => {
            assert(fg[i].tty == pane.tty);
        },
        None => {
            assert forall|i: int|
                0 <= i < fg.len() && (#[trigger] fg[i]).tty == pane.tty implies named_in(
                agent,
                fg[i].argv,
            ) is None by {
                assert(!runs_agent(agent, fg[i], pane.tty, false));
            }
        },
    }
}

/// What tmux says of a pane is read field by field, its terminal without the directory
/// that devices are in.
pub proof fn lemma_a_pane_is_read_field_by_field(line: Seq<char>, tty: Seq<char>)
    requires
        text::fields(line, '\t').len() >= 6,
        text::fields(line, '\t')[0] == "/dev/"@ + tty,
        tty.len() > 0,
        tty[0] != '/',
    ensures
        ({
            let f = text::fields(line, '\t');
            pane_in(line) == Some(
                PaneView { tty, id: f[1], target: f[2], cwd: f[3], comm: f[4], title: f[5] },
            )
        }),
{
    lemma_a_device_is_named_below_dev(tty);
}

/// A device is called by its name below the directory that devices are in.
pub proof fn lemma_a_device_is_named_below_dev(tty: Seq<char>)
    requires
        tty.len() > 0,
        tty[0] != '/',
    ensures
        device("/dev/"@ + tty) == tty,
        device(tty) == tty,
{
    let d = "/dev/"@;
    reveal_strlit("/dev/");
    reveal_with_fuel(device, 2);
    let s = d + tty;
    assert(s.subrange(0, d.len() as int) =~= d);
    assert(s.skip(d.len() as int) =~= tty);
    if d.is_prefix_of(tty) {
        assert(tty[0] == d[0]);
    }
}

} // verus!
