//! What a session reports about itself.
//!
//! The agent runs the hook at the turn boundaries AND after every tool call, per
//! session. What it does is local and stateless: parse a small payload, find the
//! agent process above, write one line. The decision is a function of what was
//! read: `decide` takes it and says what to do to the line.
use vstd::prelude::*;

use crate::json;
use crate::state;
use crate::text;
use crate::text::{chars_of, digit, dec_int, find_at, lines, parse_i32, same, slice, split, trim, words};
use crate::turn::Event;

verus! {

// ---------------------------------------------------------------------------
// Whose hook it is
// ---------------------------------------------------------------------------
/// Does the name a process goes by say that it is an agent? A self-updated agent
/// runs from a binary named after its version, so a digit, a dot and a digit at
/// the front will do.
pub open spec fn agent_name(agent: Seq<char>, comm: Seq<char>) -> bool {
    ||| comm == agent
    ||| comm == "codex"@
    ||| comm == "opencode"@
    ||| comm == "gemini"@
    ||| comm == "antigravity"@
    ||| comm == "agy"@
    ||| comm == "pi"@
    ||| (comm.len() >= 3 && text::is_digit(comm[0]) && comm[1] == '.' && text::is_digit(comm[2]))
}

fn is_agent_comm(agent: &str, comm: &str) -> (r: bool)
    ensures
        r == agent_name(agent@, comm@),
{
    if same(comm, agent) || same(comm, "codex") || same(comm, "opencode") || same(comm, "gemini")
        || same(comm, "antigravity") || same(comm, "agy") || same(comm, "pi") {
        return true;
    }
    let v = chars_of(comm);
    v.len() >= 3 && digit(v[0]) && v[1] == '.' && digit(v[2])
}

/// The value of a flat top-level string field, without a JSON parser. These
/// payloads are flat objects of string fields.
pub fn json_str(payload: &str, key: &str) -> (r: Option<String>)
    ensures
        text::opt_string(r) == json::scan_from(payload@, json::quoted(key@), 0),
{
    json::scan(payload, key)
}

/// A process in the chain above the hook, as far as it could be read.
pub struct Link {
    pub pid: i32,
    /// The name the kernel keeps for it, with whatever space surrounds it.
    pub comm: Option<String>,
    pub parent: Option<i32>,
}

pub struct LinkView {
    pub pid: i32,
    pub comm: Option<Seq<char>>,
    pub parent: Option<i32>,
}

impl View for Link {
    type V = LinkView;

    open spec fn view(&self) -> LinkView {
        LinkView { pid: self.pid, comm: text::opt_string(self.comm), parent: self.parent }
    }
}

pub open spec fn links_view(v: Seq<Link>) -> Seq<LinkView> {
    v.map_values(|l: Link| l@)
}

/// The first link for a process, from `i` on.
pub open spec fn link_of(links: Seq<LinkView>, pid: i32, i: int) -> Option<LinkView>
    decreases links.len() - i,
{
    if i < 0 || i >= links.len() {
        None
    } else if links[i].pid == pid {
        Some(links[i])
    } else {
        link_of(links, pid, i + 1)
    }
}

/// Is the process an agent by its name?
pub open spec fn is_agent(agent: Seq<char>, links: Seq<LinkView>, pid: i32) -> bool {
    match link_of(links, pid, 0) {
        Some(l) => match l.comm {
            Some(c) => agent_name(agent, text::trimmed(c)),
            None => false,
        },
        None => false,
    }
}

pub open spec fn parent_of(links: Seq<LinkView>, pid: i32) -> Option<i32> {
    match link_of(links, pid, 0) {
        Some(l) => l.parent,
        None => None,
    }
}

/// The one agent in a chain of at most `left` processes that starts at `pid`,
/// where `first` was found below it. A second agent, and a chain that cannot be
/// followed, give none.
pub open spec fn sole_agent(
    agent: Seq<char>,
    links: Seq<LinkView>,
    pid: i32,
    first: Option<i32>,
    left: nat,
) -> Option<i32>
    decreases left,
{
    if left == 0 || pid <= 1 {
        first
    } else if is_agent(agent, links, pid) && first is Some {
        None
    } else {
        match parent_of(links, pid) {
            Some(p) => sole_agent(
                agent,
                links,
                p,
                if is_agent(agent, links, pid) {
                    Some(pid)
                } else {
                    first
                },
                (left - 1) as nat,
            ),
            None => None,
        }
    }
}

fn link(links: &Vec<Link>, pid: i32) -> (r: Option<usize>)
    ensures
        match r {
            Some(i) => i < links@.len() && link_of(links_view(links@), pid, 0) == Some(
                links@[i as int]@,
            ),
            None => link_of(links_view(links@), pid, 0) is None,
        },
{
    let ghost all = links_view(links@);
    let mut i: usize = 0;
    while i < links.len()
        invariant
            i <= links@.len(),
            all == links_view(links@),
            link_of(all, pid, i as int) == link_of(all, pid, 0),
        decreases links@.len() - i,
    {
        assert(all[i as int] == links@[i as int]@);
        if links[i].pid == pid {
            return Some(i);
        }
        i = i + 1;
    }
    None
}

/// The agent process this hook was spawned by, walking up from our parent.
///
/// Exactly one agent may appear in the chain. A second one above it means this is
/// a nested session, which inherits the pane from the session that launched it:
/// letting that write would hand the pane's line to a throwaway conversation, and
/// letting it DELETE would wipe a good line on its way out.
pub fn agent_pid(agent: &str, start_ppid: i32, links: &Vec<Link>) -> (r: Option<i32>)
    ensures
        r == sole_agent(agent@, links_view(links@), start_ppid, None, 10),
{
    let ghost all = links_view(links@);
    let mut pid: i32 = start_ppid;
    let mut first: Option<i32> = None;
    let mut left: u8 = 10;
    while left > 0 && pid > 1
        invariant
            all == links_view(links@),
            sole_agent(agent@, all, pid, first, left as nat) == sole_agent(
                agent@,
                all,
                start_ppid,
                None,
                10,
            ),
        decreases left,
    {
        match link(links, pid) {
            None => {
                return None;
            },
            Some(i) => {
                let l = &links[i];
                let named = match &l.comm {
                    Some(c) => {
                        let name = trim(c);
                        is_agent_comm(agent, &name)
                    },
                    None => false,
                };
                assert(named == is_agent(agent@, all, pid));
                if named {
                    if first.is_some() {
                        return None;
                    }
                    first = Some(pid);
                }
                match l.parent {
                    None => {
                        return None;
                    },
                    Some(p) => {
                        pid = p;
                    },
                }
            },
        }
        left = left - 1;
    }
    first
}

/// The processes that a walk of at most `left` steps passes.
pub open spec fn passed(links: Seq<LinkView>, pid: i32, left: nat) -> Seq<i32>
    decreases left,
{
    if left == 0 || pid <= 1 {
        Seq::empty()
    } else {
        seq![pid] + match parent_of(links, pid) {
            Some(p) => passed(links, p, (left - 1) as nat),
            None => Seq::empty(),
        }
    }
}

/// How many of the processes are agents.
pub open spec fn agents_among(agent: Seq<char>, links: Seq<LinkView>, pids: Seq<i32>) -> nat
    decreases pids.len(),
{
    if pids.len() == 0 {
        0
    } else {
        agents_among(agent, links, pids.skip(1)) + (if is_agent(agent, links, pids[0]) {
            1nat
        } else {
            0
        })
    }
}

/// Where an agent is found it is the only one on the way up, and a second agent on
/// the way means that none is.
pub proof fn lemma_a_nested_agent_is_refused(agent: Seq<char>, links: Seq<LinkView>, start: i32)
    ensures
        match sole_agent(agent, links, start, None, 10) {
            Some(a) => is_agent(agent, links, a) && agents_among(agent, links, passed(links, start, 10)) == 1,
            None => true,
        },
        agents_among(agent, links, passed(links, start, 10)) >= 2 ==> sole_agent(agent, links, start, None, 10)
            is None,
{
    lemma_walk(agent, links, start, None, 10);
}

proof fn lemma_walk(agent: Seq<char>, links: Seq<LinkView>, pid: i32, first: Option<i32>, left: nat)
    requires
        match first {
            Some(a) => is_agent(agent, links, a),
            None => true,
        },
    ensures
        match sole_agent(agent, links, pid, first, left) {
            Some(a) => is_agent(agent, links, a) && agents_among(agent, links, passed(links, pid, left)) + (
            if first is Some {
                1nat
            } else {
                0
            }) == 1,
            None => true,
        },
    decreases left,
{
    if left > 0 && pid > 1 {
        let next = if is_agent(agent, links, pid) {
            Some(pid)
        } else {
            first
        };
        match parent_of(links, pid) {
            Some(p) => {
                let rest = passed(links, p, (left - 1) as nat);
                assert((seq![pid] + rest).skip(1) =~= rest);
                lemma_walk(agent, links, p, next, (left - 1) as nat);
            },
            None => {},
        }
    }
}

// ---------------------------------------------------------------------------
// The decision
// ---------------------------------------------------------------------------
/// What a hook event does to the pane's line.
#[derive(Debug, PartialEq, Eq)]
pub enum Action {
    Write(String),
    Remove,
    Nothing,
}

#[verifier::ext_equal]
pub enum ActionView {
    Write(Seq<char>),
    Remove,
    Nothing,
}

impl View for Action {
    type V = ActionView;

    open spec fn view(&self) -> ActionView {
        match self {
            Action::Write(s) => ActionView::Write(s@),
            Action::Remove => ActionView::Remove,
            Action::Nothing => ActionView::Nothing,
        }
    }
}

/// The fields of a hook payload the line depends on.
#[derive(Debug, Default, Clone, Copy)]
pub struct Payload<'a> {
    pub event: &'a str,
    /// `permission_mode`, which not every event carries.
    pub mode: Option<&'a str>,
    /// `agent_id`, present only when a SUBAGENT raised the event. Subagents run in
    /// the background, so their tool calls go on firing after the main thread's
    /// `Stop`.
    pub agent: Option<&'a str>,
    /// `notification_type`, on a `Notification`.
    pub notification: Option<&'a str>,
    /// On `Stop`: whether `background_tasks` listed anything still in flight.
    pub background: bool,
    /// `source` on a `SessionStart`: startup, resume, clear or compact.
    pub source: Option<&'a str>,
}

pub struct PayloadView {
    pub event: Seq<char>,
    pub mode: Option<Seq<char>>,
    pub agent: Option<Seq<char>>,
    pub notification: Option<Seq<char>>,
    pub background: bool,
    pub source: Option<Seq<char>>,
}

impl<'a> View for Payload<'a> {
    type V = PayloadView;

    open spec fn view(&self) -> PayloadView {
        PayloadView {
            event: self.event@,
            mode: text::opt(self.mode),
            agent: text::opt(self.agent),
            notification: text::opt(self.notification),
            background: self.background,
            source: text::opt(self.source),
        }
    }
}

/// The line already on disk.
#[derive(Debug, Clone, Copy)]
pub struct Prev<'a> {
    pub pid: i32,
    pub state: &'a str,
    pub mode: &'a str,
    /// Who raised the dialog an `input` or `ask` line is about: a subagent's id,
    /// or empty for the main thread.
    pub who: &'a str,
}

pub struct PrevView {
    pub pid: i32,
    pub state: Seq<char>,
    pub mode: Seq<char>,
    pub who: Seq<char>,
}

impl<'a> View for Prev<'a> {
    type V = PrevView;

    open spec fn view(&self) -> PrevView {
        PrevView { pid: self.pid, state: self.state@, mode: self.mode@, who: self.who@ }
    }
}

pub open spec fn prev_view(p: Option<&Prev>) -> Option<PrevView> {
    match p {
        Some(q) => Some(q@),
        None => None,
    }
}

/// The old line, where it is about the same process. Only then is what it says any
/// good.
pub open spec fn own(prev: Option<PrevView>, pid: i32) -> Option<PrevView> {
    match prev {
        Some(q) => if q.pid == pid {
            Some(q)
        } else {
            None
        },
        None => None,
    }
}

/// Does the line say that a permission was asked for?
pub open spec fn dialog(q: PrevView) -> bool {
    q.state == "input"@ || q.state == "ask"@
}

/// Does the line say that a turn is in flight, or work that it left?
pub open spec fn mid_turn(q: PrevView) -> bool {
    q.state == "run"@ || q.state == "input"@ || q.state == "ask"@ || q.state == "bg"@
}

/// Does the notification mean that a dialog is on screen?
pub open spec fn shows_dialog(n: Option<Seq<char>>) -> bool {
    ||| n == Some("permission_prompt"@)
    ||| n == Some("elicitation_dialog"@)
    ||| n == Some("elicitation_url_dialog"@)
}

/// The agent a subagent's event names.
pub open spec fn subagent(p: PayloadView) -> Option<Seq<char>> {
    match p.agent {
        Some(a) => if a.len() > 0 {
            Some(a)
        } else {
            None
        },
        None => None,
    }
}

/// The state an event puts the line in, and who it is about; nothing where the
/// event leaves the line alone.
///
/// A compaction inside a turn changes nothing. A tool that has just run is a turn
/// in flight, unless it was a subagent's: that settles only a dialog which the same
/// subagent raised. A notification changes the line only where it says that a
/// dialog is on screen.
pub open spec fn told(p: PayloadView, mine: Option<PrevView>) -> Option<(Seq<char>, Seq<char>)> {
    let none = Seq::<char>::empty();
    if p.event == "SessionStart"@ {
        if p.source == Some("compact"@) && mine is Some && mid_turn(mine->0) {
            None
        } else {
            Some(("idle"@, none))
        }
    } else if p.event == "UserPromptSubmit"@ {
        Some(("run"@, none))
    } else if p.event == "PostToolUse"@ || p.event == "PostToolUseFailure"@ {
        match subagent(p) {
            None => Some(("run"@, none)),
            Some(a) => if mine is Some && dialog(mine->0) && (mine->0).who == a {
                Some(("run"@, none))
            } else {
                None
            },
        }
    } else if p.event == "PermissionRequest"@ {
        Some(
            (
                "input"@,
                match p.agent {
                    Some(a) => a,
                    None => none,
                },
            ),
        )
    } else if p.event == "Notification"@ {
        if shows_dialog(p.notification) {
            Some(
                (
                    "ask"@,
                    if mine is Some && dialog(mine->0) {
                        (mine->0).who
                    } else {
                        none
                    },
                ),
            )
        } else {
            None
        }
    } else if p.event == "Stop"@ {
        Some(
            (
                if p.background {
                    "bg"@
                } else {
                    "idle"@
                },
                none,
            ),
        )
    } else if p.event == "StopFailure"@ {
        Some(("idle"@, none))
    } else {
        None
    }
}

/// The mode the line gets: the event's own, or what an earlier one knew.
pub open spec fn mode_of(p: PayloadView, mine: Option<PrevView>) -> Seq<char> {
    if p.mode is Some && (p.mode->0).len() > 0 {
        p.mode->0
    } else if mine is Some && (mine->0).mode.len() > 0 {
        (mine->0).mode
    } else {
        "-"@
    }
}

/// The line as it is written.
pub open spec fn line_of(pid: i32, state: Seq<char>, mode: Seq<char>, who: Seq<char>) -> Seq<char> {
    let base = text::decimal_int(pid as int) + "\t"@ + state + "\t"@ + mode;
    if who.len() == 0 {
        base + "\n"@
    } else {
        base + "\t"@ + who + "\n"@
    }
}

/// What an event does to the line.
pub open spec fn decided(p: PayloadView, pid: i32, prev: Option<PrevView>) -> ActionView {
    let mine = own(prev, pid);
    if p.event == "SessionEnd"@ {
        if mine is Some {
            ActionView::Remove
        } else {
            ActionView::Nothing
        }
    } else {
        match told(p, mine) {
            Some((state, who)) => ActionView::Write(line_of(pid, state, mode_of(p, mine), who)),
            None => ActionView::Nothing,
        }
    }
}

fn dialog_line(q: &Prev) -> (r: bool)
    ensures
        r == dialog(q@),
{
    same(q.state, "input") || same(q.state, "ask")
}

fn line(pid: i32, state: &str, mode: &str, who: &str) -> (r: String)
    ensures
        r@ == line_of(pid, state@, mode@, who@),
{
    let mut t = dec_int(pid as i64);
    t.append("\t");
    t.append(state);
    t.append("\t");
    t.append(mode);
    if !who.is_empty() {
        t.append("\t");
        t.append(who);
    }
    t.append("\n");
    t
}

/// The decision.
///
/// The line reads one of five states: `run`, `input` (a permission was asked for,
/// which may be answered without anyone seeing it), `ask` (the same, confirmed on
/// screen), `idle`, and `bg` (the turn is over but background work is still in
/// flight and will wake the session again). Ending removes only OUR OWN line, and
/// an event nobody subscribed to changes nothing.
pub fn decide(p: &Payload, pid: i32, prev: Option<&Prev>) -> (r: Action)
    ensures
        r@ == decided(p@, pid, prev_view(prev)),
{
    proof {
        reveal_strlit("SessionEnd");
        reveal_strlit("SessionStart");
        reveal_strlit("UserPromptSubmit");
        reveal_strlit("PostToolUse");
        reveal_strlit("PostToolUseFailure");
        reveal_strlit("PermissionRequest");
        reveal_strlit("Notification");
        reveal_strlit("Stop");
        reveal_strlit("StopFailure");
    }
    let mine: Option<&Prev> = match prev {
        Some(q) => {
            if q.pid == pid {
                Some(q)
            } else {
                None
            }
        },
        None => None,
    };
    let ghost own_line = own(prev_view(prev), pid);
    assert(own_line == prev_view(mine));
    let mut who: &str = "";
    proof {
        reveal_strlit("");
    }
    assert(who@ =~= Seq::<char>::empty());
    let state: &str = if same(p.event, "SessionEnd") {
        return match mine {
            Some(_) => Action::Remove,
            None => Action::Nothing,
        };
    } else if same(p.event, "SessionStart") {
        if let Some(src) = p.source {
            if same(src, "compact") {
                if let Some(q) = mine {
                    if same(q.state, "run") || dialog_line(q) || same(q.state, "bg") {
                        return Action::Nothing;
                    }
                }
            }
        }
        "idle"
    } else if same(p.event, "UserPromptSubmit") {
        "run"
    } else if same(p.event, "PostToolUse") || same(p.event, "PostToolUseFailure") {
        if let Some(a) = p.agent {
            if !a.is_empty() {
                let settles = match mine {
                    Some(q) => dialog_line(q) && same(q.who, a),
                    None => false,
                };
                if !settles {
                    return Action::Nothing;
                }
            }
        }
        "run"
    } else if same(p.event, "PermissionRequest") {
        if let Some(a) = p.agent {
            who = a;
        }
        "input"
    } else if same(p.event, "Notification") {
        let shown = match p.notification {
            Some(n) => same(n, "permission_prompt") || same(n, "elicitation_dialog") || same(
                n,
                "elicitation_url_dialog",
            ),
            None => false,
        };
        assert(shown == shows_dialog(p@.notification));
        if !shown {
            return Action::Nothing;
        }
        if let Some(q) = mine {
            if dialog_line(q) {
                who = q.who;
            }
        }
        "ask"
    } else if same(p.event, "Stop") {
        if p.background {
            "bg"
        } else {
            "idle"
        }
    } else if same(p.event, "StopFailure") {
        "idle"
    } else {
        return Action::Nothing;
    };
    assert(told(p@, own_line) == Some((state@, who@)));
    let mut mode: &str = "-";
    let mut given = false;
    if let Some(m) = p.mode {
        if !m.is_empty() {
            mode = m;
            given = true;
        }
    }
    if !given {
        if let Some(q) = mine {
            if !q.mode.is_empty() {
                mode = q.mode;
            }
        }
    }
    assert(mode@ == mode_of(p@, own_line));
    Action::Write(line(pid, state, mode, who))
}

// ---------------------------------------------------------------------------
// Reading it back
// ---------------------------------------------------------------------------
/// The parent a process's status names.
pub open spec fn ppid_line(ls: Seq<Seq<char>>, i: int) -> Option<i32>
    decreases ls.len() - i,
{
    if i < 0 || i >= ls.len() {
        None
    } else if "PPid:"@.is_prefix_of(ls[i]) {
        let w = text::words_of(ls[i]);
        if w.len() >= 2 {
            text::integer_i32(w[1])
        } else {
            None
        }
    } else {
        ppid_line(ls, i + 1)
    }
}

/// The parent that `/proc/<pid>/status` names.
pub fn read_ppid(status: &str) -> (r: Option<i32>)
    ensures
        r == ppid_line(text::lines_of(status@), 0),
{
    let ls = lines(status);
    let ghost all = text::texts(ls@);
    let mut i: usize = 0;
    while i < ls.len()
        invariant
            i <= ls@.len(),
            all == text::texts(ls@),
            all == text::lines_of(status@),
            ppid_line(all, i as int) == ppid_line(all, 0),
        decreases ls@.len() - i,
    {
        assert(all[i as int] == ls@[i as int]@);
        if text::starts_with(&ls[i], "PPid:") {
            let w = words(&ls[i]);
            assert(text::texts(w@).len() == w@.len());
            if w.len() < 2 {
                return None;
            }
            assert(text::texts(w@)[1] == w@[1]@);
            return parse_i32(&w[1]);
        }
        i = i + 1;
    }
    None
}

/// A field of a line, empty where the line has not so many.
pub open spec fn field_or_empty(f: Seq<Seq<char>>, i: int) -> Seq<char> {
    if 0 <= i < f.len() {
        f[i]
    } else {
        Seq::empty()
    }
}

/// A hook file as it was written: pid, state, mode, who.
pub open spec fn recorded(file: Seq<char>) -> Option<PrevView> {
    let ls = text::lines_of(file);
    if ls.len() == 0 {
        None
    } else {
        let f = text::fields(ls[0], '\t');
        match text::integer_i32(f[0]) {
            Some(pid) => Some(
                PrevView {
                    pid,
                    state: field_or_empty(f, 1),
                    mode: field_or_empty(f, 2),
                    who: field_or_empty(f, 3),
                },
            ),
            None => None,
        }
    }
}

fn field_at(f: &Vec<String>, i: usize) -> (r: String)
    ensures
        r@ == field_or_empty(text::texts(f@), i as int),
{
    if i < f.len() {
        assert(text::texts(f@)[i as int] == f@[i as int]@);
        f[i].clone()
    } else {
        let none = String::new();
        assert(none@ =~= Seq::<char>::empty());
        none
    }
}

/// The first line of a file, in its fields; there is always one.
fn first_fields(file: &str) -> (r: Option<Vec<String>>)
    ensures
        match r {
            Some(f) => text::lines_of(file@).len() > 0 && text::texts(f@) == text::fields(
                text::lines_of(file@)[0],
                '\t',
            ) && f@.len() >= 1,
            None => text::lines_of(file@).len() == 0,
        },
{
    let ls = lines(file);
    assert(text::texts(ls@).len() == ls@.len());
    if ls.len() == 0 {
        return None;
    }
    assert(text::texts(ls@)[0] == ls@[0]@);
    Some(split(&ls[0], '\t'))
}

/// Read the line already on disk as (pid, state, mode, who).
pub fn read_prev(file: &str) -> (r: Option<(i32, String, String, String)>)
    ensures
        match r {
            Some((pid, state, mode, who)) => recorded(file@) == Some(
                PrevView { pid, state: state@, mode: mode@, who: who@ },
            ),
            None => recorded(file@) is None,
        },
{
    match first_fields(file) {
        None => None,
        Some(f) => {
            assert(text::texts(f@)[0] == f@[0]@);
            match parse_i32(&f[0]) {
                Some(pid) => Some((pid, field_at(&f, 1), field_at(&f, 2), field_at(&f, 3))),
                None => None,
            }
        },
    }
}

/// The common fields of a payload.
pub open spec fn head_of(payload: Seq<char>) -> Seq<char> {
    match text::find(payload, "\"tool_input\""@) {
        Some(i) => payload.take(i),
        None => payload,
    }
}

/// The common fields of a payload, which are written before the per-event ones. A
/// tool's own arguments come after them under `tool_input`, and are somebody
/// else's JSON: a tool taking an `agent_id` argument would otherwise make a
/// main-thread call read as a subagent's.
pub fn head(payload: &str) -> (r: String)
    ensures
        r@ == head_of(payload@),
{
    let v = chars_of(payload);
    let p = chars_of("\"tool_input\"");
    match find_at(&v, &p, 0) {
        Some(i) => {
            let t = slice(&v, 0, i);
            assert(t@ =~= payload@.take(i as int));
            t
        },
        None => payload.to_owned(),
    }
}

/// What a payload says, field by field.
pub open spec fn payload_of(payload: Seq<char>, event: Seq<char>) -> PayloadView {
    let common = head_of(payload);
    PayloadView {
        event,
        mode: json::scan_from(common, json::quoted("permission_mode"@), 0),
        agent: json::scan_from(common, json::quoted("agent_id"@), 0),
        notification: if event == "Notification"@ {
            json::scan_from(payload, json::quoted("notification_type"@), 0)
        } else {
            None
        },
        background: event == "Stop"@ && json::array_from(
            payload,
            json::quoted("background_tasks"@),
            0,
        ) == Some(true),
        source: if event == "SessionStart"@ {
            json::scan_from(payload, json::quoted("source"@), 0)
        } else {
            None
        },
    }
}

/// What the hook does about a payload that agent `pid` sent, where `file` is what
/// the pane's line was.
pub open spec fn response(payload: Seq<char>, pid: i32, file: Option<Seq<char>>) -> ActionView {
    match json::scan_from(payload, json::quoted("hook_event_name"@), 0) {
        Some(event) => decided(
            payload_of(payload, event),
            pid,
            match file {
                Some(t) => recorded(t),
                None => None,
            },
        ),
        None => ActionView::Nothing,
    }
}

fn borrow(o: &Option<String>) -> (r: Option<&str>)
    ensures
        text::opt(r) == text::opt_string(*o),
{
    match o {
        Some(s) => Some(s.as_str()),
        None => None,
    }
}

/// The whole hook but for its reading and writing: what is to be done to the
/// pane's line about a payload.
///
/// Each field is looked for only on the event that carries it: this runs after
/// every tool call, and a tool's response can be most of a megabyte.
pub fn respond(payload: &str, pid: i32, file: Option<&str>) -> (r: Action)
    ensures
        r@ == response(payload@, pid, text::opt(file)),
{
    let event = match json_str(payload, "hook_event_name") {
        Some(e) => e,
        None => {
            return Action::Nothing;
        },
    };
    let common = head(payload);
    let mode = json_str(&common, "permission_mode");
    let agent = json_str(&common, "agent_id");
    let notification = if same(&event, "Notification") {
        json_str(payload, "notification_type")
    } else {
        None
    };
    let background = same(&event, "Stop") && match json::array_has_items(
        payload,
        "background_tasks",
    ) {
        Some(b) => b,
        None => false,
    };
    let source = if same(&event, "SessionStart") {
        json_str(payload, "source")
    } else {
        None
    };
    let p = Payload {
        event: event.as_str(),
        mode: borrow(&mode),
        agent: borrow(&agent),
        notification: borrow(&notification),
        background,
        source: borrow(&source),
    };
    let old_line = match file {
        Some(t) => read_prev(t),
        None => None,
    };
    match &old_line {
        Some((q, state, mode, who)) => {
            let prev = Prev { pid: *q, state: state.as_str(), mode: mode.as_str(), who: who.as_str() };
            decide(&p, pid, Some(&prev))
        },
        None => decide(&p, pid, None),
    }
}

/// A hook line as read back: `<agent pid> \t <state> \t <mode> [\t <who>]`.
#[derive(Debug, Clone, PartialEq, Eq)]
pub struct Entry {
    pub state: String,
    pub mode: String,
    /// When the line was written, in epoch milliseconds: what the transcript's
    /// own timestamps are measured against.
    pub at: i64,
}

#[verifier::ext_equal]
pub struct EntryView {
    pub state: Seq<char>,
    pub mode: Seq<char>,
    pub at: i64,
}

impl View for Entry {
    type V = EntryView;

    open spec fn view(&self) -> EntryView {
        EntryView { state: self.state@, mode: self.mode@, at: self.at }
    }
}

pub open spec fn entry_view(e: Option<Entry>) -> Option<EntryView> {
    match e {
        Some(x) => Some(x@),
        None => None,
    }
}

/// What a hook file says of the process, where it is about that process.
pub open spec fn entry_for(file: Seq<char>, at: i64, pid: i32) -> Option<EntryView> {
    let ls = text::lines_of(file);
    let f = text::fields(ls[0], '\t');
    if ls.len() > 0 && f.len() >= 2 && pid != 0 && text::integer_i32(f[0]) == Some(pid) {
        Some(
            EntryView {
                state: f[1],
                mode: if field_or_empty(f, 2).len() > 0 {
                    f[2]
                } else {
                    "-"@
                },
                at,
            },
        )
    } else {
        None
    }
}

/// The hook line a session wrote about itself, as it stands on disk: `file` is
/// what it holds and `at` when it was written.
///
/// The pid is what makes it worth reading. It names the process the line is about,
/// so a line left by an earlier session in that pane, or written by a nested
/// session that inherited it, does not match and is ignored.
pub fn hook_entry(file: &str, at: i64, pid: i32) -> (r: Option<Entry>)
    ensures
        entry_view(r) == entry_for(file@, at, pid),
{
    match first_fields(file) {
        None => None,
        Some(f) => {
            let ghost fs = text::texts(f@);
            assert(fs.len() == f@.len());
            assert(fs[0] == f@[0]@);
            if f.len() < 2 || pid == 0 {
                return None;
            }
            assert(fs[1] == f@[1]@);
            match parse_i32(&f[0]) {
                Some(n) => {
                    if n != pid {
                        return None;
                    }
                    let mode = field_at(&f, 2);
                    let mode = if mode.as_str().is_empty() {
                        "-".to_owned()
                    } else {
                        mode
                    };
                    Some(Entry { state: f[1].clone(), mode, at })
                },
                None => None,
            }
        },
    }
}

/// The hook line, brought up to date by the session's transcript wherever the
/// transcript knows something newer. The one to read; `hook_entry` is the raw line.
///
/// `turn` is the newest record of the transcript that opened or closed a turn, and
/// when that was, where there is one. Mostly it is the interrupt, which fires no
/// hook at all.
pub fn current(entry: Option<Entry>, turn: Option<(Event, i64)>) -> (r: Option<Entry>)
    ensures
        match entry {
            Some(e) => entry_view(r) == Some(
                EntryView { state: state::corrected(e.state@, e.at as int, turn), ..e@ },
            ),
            None => r is None,
        },
{
    match entry {
        Some(e) => {
            let state = state::correct(&e.state, e.at, turn).to_owned();
            Some(Entry { state, mode: e.mode, at: e.at })
        },
        None => None,
    }
}

/// The state a session reported about itself, or None. One busy taxonomy in the
/// tool, not two: a restart reads the same as the list.
pub fn hook_state_of(entry: Option<Entry>, turn: Option<(Event, i64)>) -> (r: Option<String>)
    ensures
        match entry {
            Some(e) => text::opt_string(r) == Some(state::corrected(e.state@, e.at as int, turn)),
            None => r is None,
        },
{
    match current(entry, turn) {
        Some(e) => Some(e.state),
        None => None,
    }
}

// ---------------------------------------------------------------------------
// Laws
// ---------------------------------------------------------------------------
/// A line about another process is as good as none.
pub proof fn lemma_another_process_says_nothing(p: PayloadView, pid: i32, q: PrevView)
    requires
        q.pid != pid,
    ensures
        decided(p, pid, Some(q)) == decided(p, pid, None),
{
}

/// A line is removed at the end of a session alone, and only by the session that it
/// is about.
pub proof fn lemma_ending_removes_only_our_own_line(p: PayloadView, pid: i32, prev: Option<PrevView>)
    ensures
        decided(p, pid, prev) is Remove <==> p.event == "SessionEnd"@ && prev is Some && (
        prev->0).pid == pid,
{
}

/// A tool that a background subagent ran leaves the line alone, unless that same
/// subagent raised the dialog the line is about.
pub proof fn lemma_a_subagent_settles_only_its_own_dialog(
    p: PayloadView,
    pid: i32,
    prev: Option<PrevView>,
)
    requires
        p.event == "PostToolUse"@ || p.event == "PostToolUseFailure"@,
        subagent(p) is Some,
        !(prev is Some && (prev->0).pid == pid && dialog(prev->0) && Some((prev->0).who)
            == subagent(p)),
    ensures
        decided(p, pid, prev) is Nothing,
{
    reveal_strlit("SessionEnd");
    reveal_strlit("SessionStart");
    reveal_strlit("UserPromptSubmit");
    reveal_strlit("PostToolUse");
    reveal_strlit("PostToolUseFailure");
    assert("SessionEnd"@.len() == 10 && "SessionStart"@.len() == 12 && "UserPromptSubmit"@.len()
        == 16 && "PostToolUse"@.len() == 11 && "PostToolUseFailure"@.len() == 18);
}

/// An event that carries no mode keeps the one that an earlier event knew.
pub proof fn lemma_a_known_mode_is_kept(p: PayloadView, pid: i32, q: PrevView)
    requires
        p.mode is None,
        q.pid == pid,
        q.mode.len() > 0,
    ensures
        match decided(p, pid, Some(q)) {
            ActionView::Write(l) => exists|state: Seq<char>, who: Seq<char>|
                l == #[trigger] line_of(pid, state, q.mode, who),
            _ => true,
        },
{
    match told(p, Some(q)) {
        Some((state, who)) => {
            assert(mode_of(p, Some(q)) == q.mode);
            assert(decided(p, pid, Some(q)) is Write ==> decided(p, pid, Some(q))
                == ActionView::Write(line_of(pid, state, q.mode, who)));
        },
        None => {},
    }
}

/// Can the text stand in one field of a line?
pub open spec fn plain(s: Seq<char>) -> bool {
    text::free_of(s, '\t') && text::free_of(s, '\n') && text::free_of(s, '\r')
}

/// What is written is what is read back: a line of plain fields gives back its
/// process, its state, its mode and whom it is about, and its process finds the
/// state and the mode in it.
pub proof fn lemma_a_line_is_read_back(
    pid: i32,
    state: Seq<char>,
    mode: Seq<char>,
    who: Seq<char>,
    at: i64,
)
    requires
        plain(state),
        plain(mode),
        plain(who),
    ensures
        recorded(line_of(pid, state, mode, who)) == Some(PrevView { pid, state, mode, who }),
        pid != 0 && mode.len() > 0 ==> entry_for(line_of(pid, state, mode, who), at, pid) == Some(
            EntryView { state, mode, at },
        ),
{
    let n = text::decimal_int(pid as int);
    text::lemma_decimal_is_read_back(pid as int);
    assert(plain(n)) by {
        assert forall|i: int| 0 <= i < n.len() implies n[i] != '\t' && n[i] != '\n' && n[i]
            != '\r' by {
            assert(text::is_digit(n[i]) || n[i] == '-');
        }
    }
    reveal_strlit("\t");
    reveal_strlit("\n");
    assert("\t"@ =~= seq!['\t']);
    assert("\n"@ =~= seq!['\n']);
    let none = Seq::<char>::empty();
    let tail = if who.len() == 0 {
        mode
    } else {
        mode + seq!['\t'] + who
    };
    let rest = state + seq!['\t'] + tail;
    let l = n + seq!['\t'] + rest;
    assert(line_of(pid, state, mode, who) =~= l + seq!['\n'] + none);
    assert forall|i: int| 0 <= i < l.len() implies l[i] != '\n' && l[i] != '\r' by {
        let a = n.len() as int;
        let b = a + 1 + state.len();
        let c = b + 1 + mode.len();
        if i < a {
            assert(l[i] == n[i]);
        } else if i == a {
            assert(l[i] == '\t');
        } else if i < b {
            assert(l[i] == state[i - a - 1]);
        } else if i == b {
            assert(l[i] == '\t');
        } else if i < c {
            assert(l[i] == mode[i - b - 1]);
        } else if i == c {
            assert(l[i] == '\t');
        } else {
            assert(l[i] == who[i - c - 1]);
        }
    }
    text::lemma_first_line(l, none);
    assert(text::lines_of(l + seq!['\n'] + none)[0] == l);
    text::lemma_first_field(n, '\t', rest);
    text::lemma_first_field(state, '\t', tail);
    if who.len() == 0 {
        text::lemma_one_field(mode, '\t');
        assert(text::fields(l, '\t') =~= seq![n, state, mode]);
        assert(who =~= none);
    } else {
        text::lemma_first_field(mode, '\t', who);
        text::lemma_one_field(who, '\t');
        assert(text::fields(l, '\t') =~= seq![n, state, mode, who]);
    }
}

/// What each event makes of a session, on the line it leaves: a start and an end of a turn
/// leave it idle, a prompt and a tool that ran leave it working, a request for permission
/// leaves it waiting for the one that asked, a dialog that is announced leaves it asking,
/// and a turn that ends while something goes on in the background says so.
pub proof fn lemma_what_each_event_leaves(p: PayloadView, pid: i32, prev: Option<PrevView>)
    ensures
        ({
            let head = text::decimal_int(pid as int);
            let line = decided(p, pid, prev);
            let mode = mode_of(p, own(prev, pid));
            let who = match p.agent {
                Some(a) => a,
                None => Seq::empty(),
            };
            &&& p.event == "UserPromptSubmit"@ ==> line == ActionView::Write(
                head + "\trun\t"@ + mode + "\n"@,
            )
            &&& p.event == "SessionStart"@ && p.source != Some("compact"@) ==> line
                == ActionView::Write(head + "\tidle\t"@ + mode + "\n"@)
            &&& (p.event == "PostToolUse"@ || p.event == "PostToolUseFailure"@) && who.len() == 0
                ==> line == ActionView::Write(head + "\trun\t"@ + mode + "\n"@)
            &&& p.event == "PermissionRequest"@ && who.len() > 0 ==> line == ActionView::Write(
                head + "\tinput\t"@ + mode + "\t"@ + who + "\n"@,
            )
            &&& p.event == "PermissionRequest"@ && who.len() == 0 ==> line == ActionView::Write(
                head + "\tinput\t"@ + mode + "\n"@,
            )
            &&& p.event == "Stop"@ && p.background ==> line == ActionView::Write(
                head + "\tbg\t"@ + mode + "\n"@,
            )
            &&& (p.event == "Stop"@ && !p.background) || p.event == "StopFailure"@ ==> line
                == ActionView::Write(head + "\tidle\t"@ + mode + "\n"@)
            &&& p.event == "Notification"@ && p.notification != Some("permission_prompt"@)
                && p.notification != Some("elicitation_dialog"@) && p.notification != Some(
                "elicitation_url_dialog"@,
            ) ==> line is Nothing
            &&& p.event == "Notification"@ && p.notification == Some("permission_prompt"@)
                && prev is None ==> line == ActionView::Write(head + "\task\t"@ + mode + "\n"@)
        }),
{
    lemma_events_differ();
    let head = text::decimal_int(pid as int);
    let mode = mode_of(p, own(prev, pid));
    reveal_strlit("\t");
    reveal_strlit("run");
    reveal_strlit("\trun\t");
    reveal_strlit("idle");
    reveal_strlit("\tidle\t");
    reveal_strlit("input");
    reveal_strlit("\tinput\t");
    reveal_strlit("bg");
    reveal_strlit("\tbg\t");
    reveal_strlit("ask");
    reveal_strlit("\task\t");
    assert("\t"@ + "run"@ + "\t"@ =~= "\trun\t"@);
    assert("\t"@ + "idle"@ + "\t"@ =~= "\tidle\t"@);
    assert("\t"@ + "input"@ + "\t"@ =~= "\tinput\t"@);
    assert("\t"@ + "bg"@ + "\t"@ =~= "\tbg\t"@);
    assert("\t"@ + "ask"@ + "\t"@ =~= "\task\t"@);
    let nobody = Seq::<char>::empty();
    assert(line_of(pid, "run"@, mode, nobody) =~= head + "\trun\t"@ + mode + "\n"@);
    assert(line_of(pid, "idle"@, mode, nobody) =~= head + "\tidle\t"@ + mode + "\n"@);
    assert(line_of(pid, "bg"@, mode, nobody) =~= head + "\tbg\t"@ + mode + "\n"@);
    assert(line_of(pid, "ask"@, mode, nobody) =~= head + "\task\t"@ + mode + "\n"@);
    let who = match p.agent {
        Some(a) => a,
        None => Seq::empty(),
    };
    if who.len() == 0 {
        assert(who =~= nobody);
        assert(line_of(pid, "input"@, mode, who) =~= head + "\tinput\t"@ + mode + "\n"@);
    } else {
        assert(line_of(pid, "input"@, mode, who) =~= head + "\tinput\t"@ + mode + "\t"@ + who
            + "\n"@);
    }
}

proof fn lemma_events_differ()
    ensures
        "SessionEnd"@.len() == 10,
        "SessionStart"@.len() == 12,
        "UserPromptSubmit"@.len() == 16,
        "PostToolUse"@.len() == 11,
        "PostToolUseFailure"@.len() == 18,
        "PermissionRequest"@.len() == 17,
        "Notification"@.len() == 12,
        "Notification"@ != "SessionStart"@,
        "Stop"@.len() == 4,
        "StopFailure"@.len() == 11,
        "StopFailure"@ != "PostToolUse"@,
{
    reveal_strlit("SessionEnd");
    reveal_strlit("SessionStart");
    reveal_strlit("UserPromptSubmit");
    reveal_strlit("PostToolUse");
    reveal_strlit("PostToolUseFailure");
    reveal_strlit("PermissionRequest");
    reveal_strlit("Notification");
    reveal_strlit("Stop");
    reveal_strlit("StopFailure");
    assert("Notification"@[0] == 'N' && "SessionStart"@[0] == 'S');
    assert("StopFailure"@[0] == 'S' && "PostToolUse"@[0] == 'P');
}

/// A mode that an event carries is the mode of the line; where neither it nor the line
/// before knows one, the line says that there is none.
pub proof fn lemma_the_mode_of_a_line(p: PayloadView, pid: i32, prev: Option<PrevView>)
    ensures
        p.mode is Some && (p.mode->0).len() > 0 ==> mode_of(p, own(prev, pid)) == p.mode->0,
        p.mode is None && prev is None ==> mode_of(p, own(prev, pid)) == "-"@,
        p.mode is None && prev is Some && (prev->0).pid != pid ==> mode_of(p, own(prev, pid))
            == "-"@,
{
}

/// A session that is compacted in the middle of a turn is not said to be idle, and one
/// that is compacted between turns is.
pub proof fn lemma_a_compaction_keeps_a_turn(p: PayloadView, pid: i32, q: PrevView)
    requires
        p.event == "SessionStart"@,
        p.source == Some("compact"@),
        q.pid == pid,
    ensures
        q.state == "run"@ || q.state == "input"@ || q.state == "ask"@ || q.state == "bg"@
            <==> decided(p, pid, Some(q)) is Nothing,
{
    lemma_events_differ();
}

/// The process that speaks for a pane is the one agent above the start: a process that is
/// no agent is passed on the way up, and an agent with nothing above it is the answer.
pub proof fn lemma_the_agent_above_is_found(
    agent: Seq<char>,
    links: Seq<LinkView>,
    pid: i32,
    parent: i32,
    left: nat,
)
    requires
        left > 0,
        pid > 1,
        parent_of(links, pid) == Some(parent),
    ensures
        is_agent(agent, links, pid) && parent == 1 ==> sole_agent(agent, links, pid, None, left)
            == Some(pid),
        !is_agent(agent, links, pid) ==> sole_agent(agent, links, pid, None, left) == sole_agent(
            agent,
            links,
            parent,
            None,
            (left - 1) as nat,
        ),
{
    reveal_with_fuel(sole_agent, 2);
}

/// What a payload is answered is what its own event is: the event is the one it names, the
/// mode is the one it carries, and the line before is the one in the file, where it is this
/// process's.
pub proof fn lemma_a_payload_is_answered_by_its_event(
    payload: Seq<char>,
    pid: i32,
    file: Option<Seq<char>>,
    event: Seq<char>,
    mode: Seq<char>,
)
    requires
        json::scan_from(payload, json::quoted("hook_event_name"@), 0) == Some(event),
        json::scan_from(head_of(payload), json::quoted("permission_mode"@), 0) == Some(mode),
        mode.len() > 0,
    ensures
        ({
            let head = text::decimal_int(pid as int);
            let line = response(payload, pid, file);
            &&& event == "UserPromptSubmit"@ ==> line == ActionView::Write(
                head + "\trun\t"@ + mode + "\n"@,
            )
            &&& event == "StopFailure"@ ==> line == ActionView::Write(
                head + "\tidle\t"@ + mode + "\n"@,
            )
            &&& event == "Stop"@ && json::array_from(
                payload,
                json::quoted("background_tasks"@),
                0,
            ) == Some(true) ==> line == ActionView::Write(head + "\tbg\t"@ + mode + "\n"@)
            &&& event == "Stop"@ && json::array_from(
                payload,
                json::quoted("background_tasks"@),
                0,
            ) != Some(true) ==> line == ActionView::Write(head + "\tidle\t"@ + mode + "\n"@)
            &&& event == "SessionEnd"@ ==> (line is Remove <==> file is Some && recorded(file->0)
                is Some && (recorded(file->0)->0).pid == pid)
        }),
{
    let p = payload_of(payload, event);
    let prev = match file {
        Some(t) => recorded(t),
        None => None,
    };
    lemma_what_each_event_leaves(p, pid, prev);
    lemma_the_mode_of_a_line(p, pid, prev);
    lemma_ending_removes_only_our_own_line(p, pid, prev);
}

/// A payload that names no event is not answered, and what a tool was given is not read
/// for what the payload itself says.
pub proof fn lemma_a_tools_input_is_not_read(before: Seq<char>, input: Seq<char>, pid: i32)
    requires
        !text::has(before + "\"tool_input\""@.drop_last(), "\"tool_input\""@),
    ensures
        head_of(before + "\"tool_input\""@ + input) == before,
        json::scan_from(before, json::quoted("hook_event_name"@), 0) is None ==> response(
            before,
            pid,
            None,
        ) is Nothing,
{
    let q = "\"tool_input\""@;
    let s = before + q + input;
    let n = before.len() as int;
    reveal_strlit("\"tool_input\"");
    assert(s.subrange(n, n + q.len()) =~= q);
    assert(text::occurs_at(s, q, n));
    text::lemma_find_from(s, q, 0);
    let at = text::find_from(s, q, 0)->0;
    if at < n {
        let short = before + q.drop_last();
        assert(short.subrange(at, at + q.len()) =~= s.subrange(at, at + q.len()));
        assert(text::occurs_at(short, q, at));
    }
    assert(s.take(n) =~= before);
}

/// The parent of a process is what the first line on it says.
pub proof fn lemma_the_parent_is_on_its_line(ls: Seq<Seq<char>>, from: int, i: int)
    requires
        0 <= from <= i < ls.len(),
        "PPid:"@.is_prefix_of(ls[i]),
        text::words_of(ls[i]).len() >= 2,
        forall|j: int| from <= j < i ==> !"PPid:"@.is_prefix_of(#[trigger] ls[j]),
    ensures
        ppid_line(ls, from) == text::integer_i32(text::words_of(ls[i])[1]),
    decreases i - from,
{
    if from < i {
        assert(!"PPid:"@.is_prefix_of(ls[from]));
        lemma_the_parent_is_on_its_line(ls, from + 1, i);
    }
}

/// A process is an agent by its name, and so is one that is called by the version it runs.
pub proof fn lemma_what_an_agent_process_is_called(agent: Seq<char>, comm: Seq<char>)
    ensures
        agent_name(agent, agent),
        agent_name(agent, "codex"@) && agent_name(agent, "opencode"@) && agent_name(agent, "gemini"@)
            && agent_name(agent, "antigravity"@) && agent_name(agent, "agy"@) && agent_name(
            agent,
            "pi"@,
        ),
        comm.len() >= 3 && '0' <= comm[0] <= '9' && comm[1] == '.' && '0' <= comm[2] <= '9'
            ==> agent_name(agent, comm),
        comm.len() == 1 && comm != agent ==> !agent_name(agent, comm),
{
    reveal_strlit("codex");
    reveal_strlit("opencode");
    reveal_strlit("gemini");
    reveal_strlit("antigravity");
    reveal_strlit("agy");
    reveal_strlit("pi");
    assert("codex"@.len() == 5 && "opencode"@.len() == 8 && "gemini"@.len() == 6
        && "antigravity"@.len() == 11 && "agy"@.len() == 3 && "pi"@.len() == 2);
}

} // verus!
