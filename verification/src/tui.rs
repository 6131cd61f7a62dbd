//! The picker: which list is on screen, what is said around it, and how it ends.
//!
//! - **The window is sized by the POPUP**, so the rows are fitted to what they are
//!   actually drawn in.
//! - **A paste is text, never an Enter.** A pasted line break arrives inside the
//!   text of one event, and only the first line joins the query.
//! - **Resize is an event**, not a reload.
//!
//! Drawing goes to the terminal and input comes from there too, which leaves stdout
//! carrying exactly one line, the chosen pane id.
use vstd::prelude::*;

use crate::ansi;
use crate::ansi::Line;
use crate::install;
use crate::text;
use crate::text::{blank, lines, same, split, trim, words};

pub mod app;
pub mod filter;
pub mod hold;
pub mod near;
pub mod preview;

verus! {

// ---------------------------------------------------------------------------
// The lists
// ---------------------------------------------------------------------------
/// Which list is on screen. Tab steps round the cycle.
///
/// The first four are the same question asked of the same list, and the last two
/// are not states at all: Outdated asks a different question of it (what is this
/// session RUNNING, rather than what is it doing), and Dead changes what the list
/// IS. So they sit at the far end, in that order.
#[derive(Clone, Copy, PartialEq, Eq, Debug, Structural)]
pub enum Mode {
    All,
    Input,
    Run,
    Idle,
    Outdated,
    Dead,
}

impl Mode {
    pub open spec fn state(self) -> Seq<char> {
        match self {
            Mode::All => ""@,
            Mode::Input => "input"@,
            Mode::Run => "run"@,
            Mode::Idle => "idle"@,
            Mode::Outdated => ""@,
            Mode::Dead => "dead"@,
        }
    }

    pub open spec fn title(self) -> Seq<char> {
        match self {
            Mode::All => "agent sessions"@,
            Mode::Input => "waiting for an answer"@,
            Mode::Run => "working"@,
            Mode::Idle => "idle at the prompt"@,
            Mode::Outdated => "running outdated code"@,
            Mode::Dead => "past sessions"@,
        }
    }

    pub open spec fn word(self) -> Seq<char> {
        match self {
            Mode::All => "all"@,
            Mode::Input => "input"@,
            Mode::Run => "run"@,
            Mode::Idle => "idle"@,
            Mode::Outdated => "outdated"@,
            Mode::Dead => "dead"@,
        }
    }

    /// The state filter this mode passes to the layout; empty means every row.
    ///
    /// Outdated is empty because being behind is not a state: a session waiting,
    /// working or idle can each be running code a self-update has replaced.
    pub fn filter(self) -> (r: &'static str)
        ensures
            r@ == self.state(),
    {
        match self {
            Mode::All => "",
            Mode::Input => "input",
            Mode::Run => "run",
            Mode::Idle => "idle",
            Mode::Outdated => "",
            Mode::Dead => "dead",
        }
    }

    pub fn label(self) -> (r: &'static str)
        ensures
            r@ == self.title(),
    {
        match self {
            Mode::All => "agent sessions",
            Mode::Input => "waiting for an answer",
            Mode::Run => "working",
            Mode::Idle => "idle at the prompt",
            Mode::Outdated => "running outdated code",
            Mode::Dead => "past sessions",
        }
    }

    /// The name this mode is carried across a reopen by. Its own word rather than
    /// the state filter, since Outdated and All share that.
    pub fn key(self) -> (r: &'static str)
        ensures
            r@ == self.word(),
    {
        match self {
            Mode::All => "all",
            Mode::Input => "input",
            Mode::Run => "run",
            Mode::Idle => "idle",
            Mode::Outdated => "outdated",
            Mode::Dead => "dead",
        }
    }

    /// The mode that goes by a word; any other word is the list of all.
    pub fn from_key(k: &str) -> (r: Mode)
        ensures
            r == mode_named(k@),
    {
        if same(k, "input") {
            Mode::Input
        } else if same(k, "run") {
            Mode::Run
        } else if same(k, "idle") {
            Mode::Idle
        } else if same(k, "outdated") {
            Mode::Outdated
        } else if same(k, "dead") {
            Mode::Dead
        } else {
            Mode::All
        }
    }

    /// The place of a mode on the ring that Tab walks.
    pub open spec fn place(self) -> int {
        match self {
            Mode::All => 0,
            Mode::Input => 1,
            Mode::Run => 2,
            Mode::Idle => 3,
            Mode::Outdated => 4,
            Mode::Dead => 5,
        }
    }

    /// Is it a stop worth landing on?
    ///
    /// A stop with nothing that could ever be in it is left OUT rather than
    /// reached and found empty: no record of past sessions, no past stop, and
    /// nothing installed to compare a version against, no outdated stop.
    pub open spec fn on(self, ended: bool, outdated: bool) -> bool {
        match self {
            Mode::Outdated => outdated,
            Mode::Dead => ended,
            _ => true,
        }
    }

    fn is_on(self, ended: bool, outdated: bool) -> (r: bool)
        ensures
            r == self.on(ended, outdated),
    {
        match self {
            Mode::Outdated => outdated,
            Mode::Dead => ended,
            _ => true,
        }
    }

    /// One step round: all, waiting, working, idle, outdated, past, all.
    pub fn next(self, ended: bool, outdated: bool) -> (r: Mode)
        ensures
            r == forward(self, ended, outdated),
    {
        let mut m = after(self);
        if !m.is_on(ended, outdated) {
            m = after(m);
            if !m.is_on(ended, outdated) {
                m = after(m);
            }
        }
        m
    }

    /// The same ring the other way, which is what shift-tab walks.
    pub fn prev(self, ended: bool, outdated: bool) -> (r: Mode)
        ensures
            r == backward(self, ended, outdated),
    {
        let mut m = ahead(self);
        if !m.is_on(ended, outdated) {
            m = ahead(m);
            if !m.is_on(ended, outdated) {
                m = ahead(m);
            }
        }
        m
    }

    /// One step round the ring, forwards or back.
    pub fn step(self, back: bool, ended: bool, outdated: bool) -> (r: Mode)
        ensures
            r == (if back {
                backward(self, ended, outdated)
            } else {
                forward(self, ended, outdated)
            }),
    {
        if back {
            self.prev(ended, outdated)
        } else {
            self.next(ended, outdated)
        }
    }
}

pub open spec fn mode_named(k: Seq<char>) -> Mode {
    if k == "input"@ {
        Mode::Input
    } else if k == "run"@ {
        Mode::Run
    } else if k == "idle"@ {
        Mode::Idle
    } else if k == "outdated"@ {
        Mode::Outdated
    } else if k == "dead"@ {
        Mode::Dead
    } else {
        Mode::All
    }
}

/// The mode at a place of the ring.
pub open spec fn at_place(p: int) -> Mode {
    if p % 6 == 0 {
        Mode::All
    } else if p % 6 == 1 {
        Mode::Input
    } else if p % 6 == 2 {
        Mode::Run
    } else if p % 6 == 3 {
        Mode::Idle
    } else if p % 6 == 4 {
        Mode::Outdated
    } else {
        Mode::Dead
    }
}

/// The next stop behind a place, going up or down by one, that is worth landing on.
/// At most two in a row are not.
pub open spec fn stop_from(p: int, by: int, ended: bool, outdated: bool) -> Mode {
    if at_place(p + by).on(ended, outdated) {
        at_place(p + by)
    } else if at_place(p + 2 * by).on(ended, outdated) {
        at_place(p + 2 * by)
    } else {
        at_place(p + 3 * by)
    }
}

pub open spec fn forward(m: Mode, ended: bool, outdated: bool) -> Mode {
    stop_from(m.place(), 1, ended, outdated)
}

pub open spec fn backward(m: Mode, ended: bool, outdated: bool) -> Mode {
    stop_from(m.place(), -1, ended, outdated)
}

fn after(m: Mode) -> (r: Mode)
    ensures
        r == at_place(m.place() + 1),
{
    match m {
        Mode::All => Mode::Input,
        Mode::Input => Mode::Run,
        Mode::Run => Mode::Idle,
        Mode::Idle => Mode::Outdated,
        Mode::Outdated => Mode::Dead,
        Mode::Dead => Mode::All,
    }
}

fn ahead(m: Mode) -> (r: Mode)
    ensures
        r == at_place(m.place() - 1),
{
    match m {
        Mode::All => Mode::Dead,
        Mode::Input => Mode::All,
        Mode::Run => Mode::Input,
        Mode::Idle => Mode::Run,
        Mode::Outdated => Mode::Idle,
        Mode::Dead => Mode::Outdated,
    }
}

// ---------------------------------------------------------------------------
// What is said around the list
// ---------------------------------------------------------------------------
/// The columns a row is laid out for: the drawn area less the border and less the
/// two the pointer takes.
pub fn row_width(area_width: u16) -> (r: usize)
    ensures
        r == (if area_width >= 4 {
            area_width - 4
        } else {
            0
        }),
{
    if area_width >= 4 {
        (area_width - 4) as usize
    } else {
        0
    }
}

pub open spec fn header_text(
    script: bool,
    ended: bool,
    search_key: bool,
    search_on: bool,
    by_date: Option<bool>,
) -> Seq<char> {
    let a = if ended {
        "enter: switch"@ + "/resume"@
    } else {
        "enter: switch"@
    };
    let b = a + "   tab: filter   ctrl-r: refresh   ctrl-/: preview"@;
    let c = if search_key {
        b + (if search_on {
            "   ctrl-t: search text (on)"@
        } else {
            "   ctrl-t: search text"@
        })
    } else {
        b
    };
    let d = match by_date {
        Some(true) => c + "   ctrl-s: sort by date (on)"@,
        Some(false) => c + "   ctrl-s: sort by date"@,
        None => c,
    };
    if script {
        d + "   ctrl-x: restart   ctrl-o: hand off   f8: restart all outdated"@
    } else {
        d
    }
}

/// What the picker says it can do. Only what is really bound: a header promising a
/// key that does nothing is worse than a shorter one.
///
/// `by_date` is None on every list but the past one, which is the only list with a
/// date to sort by.
pub fn header(
    script: bool,
    ended: bool,
    search_key: bool,
    search_on: bool,
    by_date: Option<bool>,
) -> (r: String)
    ensures
        r@ == header_text(script, ended, search_key, search_on, by_date),
{
    let mut h = "enter: switch".to_owned();
    if ended {
        h.append("/resume");
    }
    h.append("   tab: filter   ctrl-r: refresh   ctrl-/: preview");
    if search_key {
        if search_on {
            h.append("   ctrl-t: search text (on)");
        } else {
            h.append("   ctrl-t: search text");
        }
    }
    if let Some(on) = by_date {
        if on {
            h.append("   ctrl-s: sort by date (on)");
        } else {
            h.append("   ctrl-s: sort by date");
        }
    }
    if script {
        h.append("   ctrl-x: restart   ctrl-o: hand off   f8: restart all outdated");
    }
    h
}

pub open spec fn stamp(version: Seq<char>) -> Seq<char> {
    " taimux "@ + version + " "@
}

/// The bottom-right stamp: which taimux drew this list. It names the tool, so a
/// row's own version and this cannot be confused for each other.
pub fn version_tag(version: &str) -> (r: String)
    ensures
        r@ == stamp(version@),
{
    let mut t = " taimux ".to_owned();
    t.append(version);
    t.append(" ");
    t
}

/// …but only where the bottom border can carry it AND the count, with the two
/// corner characters the border spends whatever else happens. The count is live and
/// read constantly, the stamp is reference read once after an update, so the stamp
/// is what gives way.
pub fn room_for_tag(width: u16, count: &str, version: &str) -> (r: bool)
    ensures
        r == (width >= count@.len() + stamp(version@).len() + 2),
{
    let tag = version_tag(version);
    let need: u128 = count.unicode_len() as u128 + tag.as_str().unicode_len() as u128 + 2;
    width as u128 >= need
}

/// The lines of a note, without the indent.
pub open spec fn note_lines(
    mode: Mode,
    query: Seq<char>,
    scanning: bool,
    nothing_scanned: bool,
    ended: bool,
) -> Seq<Seq<char>> {
    let close = seq![Seq::<char>::empty(), "Esc closes this."@];
    if scanning {
        seq!["Looking for agent sessions…"@] + close
    } else if query.len() > 0 {
        seq!["Nothing matches "@ + query, "ctrl-u clears it."@] + close
    } else if mode == Mode::Dead {
        seq![
            "No past conversations have been found here yet."@,
            "They are remembered as sessions come and go."@,
        ] + close
    } else if nothing_scanned {
        seq![
            "No agent sessions on this machine."@,
            if ended {
                "Nothing is running one. Tab reaches the conversations that ended."@
            } else {
                "Nothing is running one."@
            },
        ] + close
    } else {
        seq![
            "Nothing is "@ + mode.title() + " right now."@,
            "Tab moves on to the next list."@,
        ] + close
    }
}

pub open spec fn indented(v: Seq<Seq<char>>) -> Seq<Seq<char>> {
    v.map_values(|l: Seq<char>| "  "@ + l)
}

/// What to say where the rows would be, when there are none.
///
/// Different silences mean different things: nothing has come back yet, nothing
/// matching what you typed, no past sessions recorded yet, nothing running at all,
/// and nothing in the state you are filtering on.
pub fn empty_note(
    mode: Mode,
    query: &str,
    scanning: bool,
    nothing_scanned: bool,
    ended: bool,
) -> (r: Vec<String>)
    ensures
        text::texts(r@) == indented(note_lines(mode, query@, scanning, nothing_scanned, ended)),
{
    let mut v: Vec<String> = Vec::new();
    if scanning {
        v.push("Looking for agent sessions…".to_owned());
    } else if !query.is_empty() {
        let mut t = "Nothing matches ".to_owned();
        t.append(query);
        v.push(t);
        v.push("ctrl-u clears it.".to_owned());
    } else if mode == Mode::Dead {
        v.push("No past conversations have been found here yet.".to_owned());
        v.push("They are remembered as sessions come and go.".to_owned());
    } else if nothing_scanned {
        v.push("No agent sessions on this machine.".to_owned());
        if ended {
            v.push("Nothing is running one. Tab reaches the conversations that ended.".to_owned());
        } else {
            v.push("Nothing is running one.".to_owned());
        }
    } else {
        let mut t = "Nothing is ".to_owned();
        t.append(mode.label());
        t.append(" right now.");
        v.push(t);
        v.push("Tab moves on to the next list.".to_owned());
    }
    let none = String::new();
    assert(none@ =~= Seq::<char>::empty());
    v.push(none);
    v.push("Esc closes this.".to_owned());
    let ghost plain = note_lines(mode, query@, scanning, nothing_scanned, ended);
    assert(text::texts(v@) =~= plain);
    let mut out: Vec<String> = Vec::new();
    let mut i: usize = 0;
    while i < v.len()
        invariant
            i <= v@.len(),
            plain == text::texts(v@),
            out@.len() == i,
            forall|k: int| 0 <= k < i ==> (#[trigger] out@[k])@ == "  "@ + plain[k],
        decreases v@.len() - i,
    {
        assert(plain[i as int] == v@[i as int]@);
        let mut t = "  ".to_owned();
        t.append(&v[i]);
        out.push(t);
        i = i + 1;
    }
    assert(text::texts(out@) =~= indented(plain));
    out
}

pub open spec fn border(mode: Mode, by_date: bool, live: bool, search: bool, refreshing: bool) -> Seq<
    char,
> {
    let a = " "@ + mode.title();
    let b = if by_date {
        a + " · by date"@
    } else {
        a
    };
    let c = if live {
        b + " · live"@
    } else {
        b
    };
    let d = if search {
        c + " · ⌕"@
    } else {
        c
    };
    let e = if refreshing {
        d + " · refreshing"@
    } else {
        d
    };
    e + " "@
}

/// The border label: which list and in what order, whether the timer and text
/// search are on, and whether a refresh is taking long enough to be worth
/// mentioning.
pub fn label(mode: Mode, by_date: bool, live: bool, search: bool, refreshing: bool) -> (r: String)
    ensures
        r@ == border(mode, by_date, live, search, refreshing),
{
    let mut s = " ".to_owned();
    s.append(mode.label());
    if by_date {
        s.append(" · by date");
    }
    if live {
        s.append(" · live");
    }
    if search {
        s.append(" · ⌕");
    }
    if refreshing {
        s.append(" · refreshing");
    }
    s.append(" ");
    s
}

// ---------------------------------------------------------------------------
// A captured screen
// ---------------------------------------------------------------------------
/// Is there nothing to be seen in the line?
pub open spec fn blank_line(l: Seq<ansi::SpanView>) -> bool {
    forall|i: int| 0 <= i < l.len() ==> text::is_blank((#[trigger] l[i]).content)
}

/// The lines up to the last that shows something.
pub open spec fn without_padding(v: Seq<Seq<ansi::SpanView>>) -> Seq<Seq<ansi::SpanView>>
    decreases v.len(),
{
    if v.len() > 0 && blank_line(v.last()) {
        without_padding(v.drop_last())
    } else {
        v
    }
}

pub open spec fn last_lines(v: Seq<Seq<ansi::SpanView>>, room: nat) -> Seq<Seq<ansi::SpanView>> {
    if v.len() > room {
        v.skip(v.len() - room)
    } else {
        v
    }
}

fn is_blank_line(l: &Line) -> (r: bool)
    ensures
        r == blank_line(l@),
{
    let mut i: usize = 0;
    while i < l.spans.len()
        invariant
            i <= l.spans@.len(),
            forall|k: int| 0 <= k < i ==> text::is_blank((#[trigger] l@[k]).content),
        decreases l.spans@.len() - i,
    {
        assert(l@[i as int] == l.spans@[i as int]@);
        if !blank(&l.spans[i].content) {
            return false;
        }
        i = i + 1;
    }
    true
}

/// The lines of a captured screen, without what it is padded with to the height of
/// its pane.
pub fn unpadded(screen: &str) -> (r: Vec<Line>)
    ensures
        ansi::lines_view(r@) == without_padding(
            ansi::drawn(text::lines_of(screen@), 0, ansi::no_style()),
        ),
{
    let mut v = ansi::to_lines(screen);
    let ghost all = ansi::lines_view(v@);
    assert(all.len() == v@.len());
    let mut n: usize = v.len();
    assert(all.take(n as int) =~= all);
    while n > 0 && is_blank_line(&v[n - 1])
        invariant
            n <= v@.len(),
            all == ansi::lines_view(v@),
            without_padding(all.take(n as int)) == without_padding(all),
        decreases n,
    {
        assert(all.take(n as int).last() == v@[n - 1]@);
        assert(all.take(n as int).drop_last() =~= all.take(n - 1));
        n = n - 1;
    }
    assert(n > 0 ==> all.take(n as int).last() == v@[n - 1]@);
    v.truncate(n);
    assert(ansi::lines_view(v@) =~= all.take(n as int));
    v
}

/// The last `room` lines of a captured screen, which is where what a session is
/// doing lives.
///
/// The trailing blanks come off first: a capture is padded to the pane height, so a
/// tail taken without trimming is all padding.
pub fn tail(screen: &str, room: usize) -> (r: Vec<Line>)
    ensures
        ansi::lines_view(r@) == last_lines(
            without_padding(ansi::drawn(text::lines_of(screen@), 0, ansi::no_style())),
            room as nat,
        ),
{
    let mut v = unpadded(screen);
    let ghost kept = ansi::lines_view(v@);
    let n: usize = v.len();
    assert(kept.len() == n);
    if n > room {
        let out = v.split_off(n - room);
        assert(ansi::lines_view(out@) =~= kept.skip(n - room));
        out
    } else {
        v
    }
}

/// What a paste adds to the query: its first line. A pasted line break arrives as a
/// carriage return, so both are split on.
pub fn pasted(paste: &str) -> (r: String)
    ensures
        r@ == text::split_on(paste@, '\r', '\n')[0],
{
    let parts = text::split_either(paste, '\r', '\n');
    assert(text::texts(parts@)[0] == parts@[0]@);
    parts[0].clone()
}

// ---------------------------------------------------------------------------
// The popup and its client
// ---------------------------------------------------------------------------
/// Our own session, out of `$TMUX`: socket, server pid, session id.
pub fn own_session(tmux: Option<&str>) -> (r: Option<String>)
    ensures
        text::opt_string(r) == (match tmux {
            Some(t) => {
                let f = text::fields(t@, ',');
                if f.len() >= 3 && text::trimmed(f[2]).len() > 0 {
                    Some("$"@ + text::trimmed(f[2]))
                } else {
                    None
                }
            },
            None => None,
        }),
{
    match tmux {
        None => None,
        Some(t) => {
            let f = split(t, ',');
            assert(text::texts(f@).len() == f@.len());
            if f.len() < 3 {
                return None;
            }
            assert(text::texts(f@)[2] == f@[2]@);
            let id = trim(&f[2]);
            if id.as_str().is_empty() {
                return None;
            }
            let mut s = "$".to_owned();
            s.append(&id);
            Some(s)
        },
    }
}

/// The lines that are not blank.
pub open spec fn filled(ls: Seq<Seq<char>>) -> Seq<Seq<char>>
    decreases ls.len(),
{
    if ls.len() == 0 {
        Seq::empty()
    } else if text::is_blank(ls.last()) {
        filled(ls.drop_last())
    } else {
        filled(ls.drop_last()).push(ls.last())
    }
}

pub open spec fn small(s: Seq<char>) -> Option<u16> {
    match text::natural(s) {
        Some(n) => if n <= 0xffff {
            Some(n as u16)
        } else {
            None
        },
        None => None,
    }
}

fn small_number(s: &str) -> (r: Option<u16>)
    ensures
        r == small(s@),
{
    match text::parse_u64(s) {
        Some(n) => {
            if n <= 0xffff {
                Some(n as u16)
            } else {
                None
            }
        },
        None => None,
    }
}

/// The one client of a list: its terminal and its size.
pub open spec fn only_client(listed: Seq<char>) -> Option<(Seq<char>, (u16, u16))> {
    let ls = filled(text::lines_of(listed));
    if ls.len() != 1 {
        None
    } else {
        let w = text::words_of(ls[0]);
        if w.len() < 3 {
            None
        } else {
            match (small(w[1]), small(w[2])) {
                (Some(x), Some(y)) => if x > 0 && y > 0 {
                    Some((w[0], (x, y)))
                } else {
                    None
                },
                _ => None,
            }
        }
    }
}

/// The client this popup is drawn on, and its size, from the list of the clients on
/// our session; None when that cannot be answered without guessing.
///
/// One client on our session is our client. Two, and nothing here can tell which of
/// them the popup belongs to, which is exactly when this must do nothing at all.
pub fn own_client(listed: &str) -> (r: Option<(String, (u16, u16))>)
    ensures
        match r {
            Some((tty, size)) => only_client(listed@) == Some((tty@, size)),
            None => only_client(listed@) is None,
        },
{
    let ls = lines(listed);
    let ghost all = text::texts(ls@);
    let mut kept: Vec<String> = Vec::new();
    let mut i: usize = 0;
    assert(text::texts(kept@) =~= filled(all.take(0)));
    while i < ls.len()
        invariant
            i <= ls@.len(),
            all == text::texts(ls@),
            text::texts(kept@) == filled(all.take(i as int)),
        decreases ls@.len() - i,
    {
        assert(all.take(i + 1).drop_last() =~= all.take(i as int));
        assert(all.take(i + 1).last() == ls@[i as int]@);
        if !blank(&ls[i]) {
            let t = ls[i].clone();
            proof {
                text::lemma_texts_push(kept@, t);
            }
            kept.push(t);
        }
        i = i + 1;
    }
    assert(all.take(all.len() as int) =~= all);
    assert(text::texts(kept@).len() == kept@.len());
    if kept.len() != 1 {
        return None;
    }
    assert(text::texts(kept@)[0] == kept@[0]@);
    let w = words(&kept[0]);
    let ghost ws = text::texts(w@);
    assert(ws.len() == w@.len());
    if w.len() < 3 {
        return None;
    }
    assert(ws[0] == w@[0]@ && ws[1] == w@[1]@ && ws[2] == w@[2]@);
    match (small_number(&w[1]), small_number(&w[2])) {
        (Some(x), Some(y)) => {
            if x > 0 && y > 0 {
                Some((w[0].clone(), (x, y)))
            } else {
                None
            }
        },
        _ => None,
    }
}

/// What a popup can use of a client: its share, less the border it draws.
pub open spec fn usable(size: int, percent: int) -> int {
    if size * percent / 100 >= 2 {
        size * percent / 100 - 2
    } else {
        0
    }
}

pub open spec fn grown(ours: (u16, u16), client: (u16, u16), slack: u16) -> bool {
    let (pw, ph) = install::geometry(client.0 as int);
    usable(client.0 as int, pw as int) > capped(ours.0 + slack) || usable(
        client.1 as int,
        ph as int,
    ) > capped(ours.1 + slack)
}

pub open spec fn capped(n: int) -> int {
    if n > 0xffff {
        0xffff
    } else {
        n
    }
}

fn share(size: u16, percent: u16) -> (r: u16)
    requires
        percent <= 100,
    ensures
        r == usable(size as int, percent as int),
{
    let all: u32 = size as u32;
    let p: u32 = percent as u32;
    assert(0 <= all * p <= 6553500) by (nonlinear_arith)
        requires
            0 <= all <= 65535,
            0 <= p <= 100,
    ;
    let part: u32 = all * p / 100;
    if part >= 2 {
        (part - 2) as u16
    } else {
        0
    }
}

/// Could this popup usefully be bigger than it is?
///
/// tmux SHRINKS a popup to fit a client that got smaller and grows it back up to
/// the size it was asked for, so the only case left over is a terminal that grew
/// PAST that. `slack` keeps it from firing on a rounding difference of a column or
/// two.
pub fn outgrown(ours: (u16, u16), client: (u16, u16), slack: u16) -> (r: bool)
    ensures
        r == grown(ours, client, slack),
{
    let (pw, ph) = install::popup_geometry(client.0 as usize);
    let want_w: u16 = share(client.0, pw);
    let want_h: u16 = share(client.1, ph);
    want_w as u32 > ours.0 as u32 + slack as u32 || want_h as u32 > ours.1 as u32 + slack as u32
}

// ---------------------------------------------------------------------------
// How it is opened and how it ends
// ---------------------------------------------------------------------------
/// Everything the picker has to carry across a reopen, so a resize costs you your
/// popup's geometry and nothing else.
#[derive(Debug, PartialEq, Eq)]
pub struct State {
    pub query: String,
    pub mode: &'static str,
    pub search: bool,
    pub by_date: bool,
    pub preview: bool,
    /// The row the cursor was on, by pane id.
    pub on: String,
    /// The client whose popup this was, so the reopen goes to THAT one rather than
    /// to whichever tmux considers current a moment later.
    pub client: String,
}

#[verifier::ext_equal]
pub struct StateView {
    pub query: Seq<char>,
    pub mode: Seq<char>,
    pub search: bool,
    pub by_date: bool,
    pub preview: bool,
    pub on: Seq<char>,
    pub client: Seq<char>,
}

impl View for State {
    type V = StateView;

    open spec fn view(&self) -> StateView {
        StateView {
            query: self.query@,
            mode: self.mode@,
            search: self.search,
            by_date: self.by_date,
            preview: self.preview,
            on: self.on@,
            client: self.client@,
        }
    }
}

impl Default for State {
    /// An ORDINARY open, which above all means that the preview is ON.
    fn default() -> (r: State)
        ensures
            r.query@.len() == 0,
            r.mode@ == Mode::All.word(),
            !r.search,
            !r.by_date,
            r.preview,
            r.on@.len() == 0,
            r.client@.len() == 0,
    {
        State {
            query: String::new(),
            mode: "all",
            search: false,
            by_date: false,
            preview: true,
            on: String::new(),
            client: String::new(),
        }
    }
}

/// How the picker finished.
#[derive(Debug, PartialEq, Eq)]
pub enum Outcome {
    Chosen(String),
    Aborted,
    /// The terminal grew: reopen at the geometry the binding would use now, with
    /// this state. Only ever returned from a popup that was told it is one.
    Resize(State),
}

// ---------------------------------------------------------------------------
// Laws
// ---------------------------------------------------------------------------
/// A step each way, from any stop that is on, lands back where it started.
pub proof fn lemma_a_step_each_way_comes_back(m: Mode, ended: bool, outdated: bool)
    requires
        m.on(ended, outdated),
    ensures
        backward(forward(m, ended, outdated), ended, outdated) == m,
        forward(backward(m, ended, outdated), ended, outdated) == m,
{
}

/// A step always lands on a stop that is on.
pub proof fn lemma_a_step_lands_on_a_stop(m: Mode, ended: bool, outdated: bool)
    ensures
        forward(m, ended, outdated).on(ended, outdated),
        backward(m, ended, outdated).on(ended, outdated),
{
}

/// A mode comes back from the word it is carried by.
pub proof fn lemma_a_mode_comes_back_from_its_word(m: Mode)
    ensures
        mode_named(m.word()) == m,
{
    reveal_strlit("all");
    reveal_strlit("input");
    reveal_strlit("run");
    reveal_strlit("idle");
    reveal_strlit("outdated");
    reveal_strlit("dead");
    assert("all"@.len() == 3 && "run"@.len() == 3 && "input"@.len() == 5 && "idle"@.len() == 4
        && "dead"@.len() == 4 && "outdated"@.len() == 8);
    assert("all"@[0] == 'a' && "run"@[0] == 'r' && "idle"@[0] == 'i' && "dead"@[0] == 'd');
}

/// A popup at the size its own geometry gives it has not been outgrown.
pub proof fn lemma_a_popup_at_its_size_is_not_outgrown(client: (u16, u16), slack: u16)
    ensures
        ({
            let (pw, ph) = install::geometry(client.0 as int);
            let w = usable(client.0 as int, pw as int);
            let h = usable(client.1 as int, ph as int);
            !grown((w as u16, h as u16), client, slack)
        }),
{
    let (pw, ph) = install::geometry(client.0 as int);
    lemma_usable_bound(client.0 as int, pw as int);
    lemma_usable_bound(client.1 as int, ph as int);
}

proof fn lemma_usable_bound(size: int, percent: int)
    requires
        0 <= size <= 65535,
        0 <= percent <= 100,
    ensures
        0 <= usable(size, percent) <= 65535,
{
    assert(0 <= size * percent <= 6553500) by (nonlinear_arith)
        requires
            0 <= size <= 65535,
            0 <= percent <= 100,
    ;
}

/// Each list is called by what its sessions are doing, and the title above it says the same
/// in words.
pub proof fn lemma_what_each_list_is_called()
    ensures
        Mode::Input.state() == "input"@ && Mode::Input.title() == "waiting for an answer"@,
        Mode::Run.state() == "run"@ && Mode::Run.title() == "working"@,
        Mode::Idle.state() == "idle"@ && Mode::Idle.title() == "idle at the prompt"@,
        Mode::Dead.state() == "dead"@ && Mode::Dead.title() == "past sessions"@,
        Mode::All.state() == ""@ && Mode::All.title() == "agent sessions"@,
        Mode::Outdated.state() == ""@ && Mode::Outdated.title() == "running outdated code"@,
{
}

/// The lists come in one order, and a step goes to the next one that is there: those that
/// wait, those that work, those that are idle, the outdated ones where a version is known,
/// and the past ones where they are kept.
pub proof fn lemma_the_order_of_the_lists(ended: bool, outdated: bool)
    ensures
        forward(Mode::All, ended, outdated) == Mode::Input,
        forward(Mode::Input, ended, outdated) == Mode::Run,
        forward(Mode::Run, ended, outdated) == Mode::Idle,
        forward(Mode::Idle, ended, outdated) == (if outdated {
            Mode::Outdated
        } else if ended {
            Mode::Dead
        } else {
            Mode::All
        }),
        forward(Mode::Outdated, ended, outdated) == (if ended {
            Mode::Dead
        } else {
            Mode::All
        }),
        forward(Mode::Dead, ended, outdated) == Mode::All,
        backward(Mode::Input, ended, outdated) == Mode::All,
        backward(Mode::Run, ended, outdated) == Mode::Input,
        backward(Mode::Idle, ended, outdated) == Mode::Run,
{
}

/// The line of keys names a key exactly where it does something: the search where there is
/// one, the order by date where it can be chosen, and what a script is needed for where
/// there is one.
pub proof fn lemma_the_header_names_the_keys_that_work(
    ended: bool,
    search_key: bool,
    search_on: bool,
    by_date: Option<bool>,
)
    ensures
        header_text(true, ended, search_key, search_on, by_date) == header_text(
            false,
            ended,
            search_key,
            search_on,
            by_date,
        ) + "   ctrl-x: restart   ctrl-o: hand off   f8: restart all outdated"@,
        header_text(false, ended, true, true, None) == header_text(false, ended, false, true, None)
            + "   ctrl-t: search text (on)"@,
        header_text(false, ended, true, false, None) == header_text(
            false,
            ended,
            false,
            false,
            None,
        ) + "   ctrl-t: search text"@,
        header_text(false, ended, search_key, search_on, Some(true)) == header_text(
            false,
            ended,
            search_key,
            search_on,
            None,
        ) + "   ctrl-s: sort by date (on)"@,
        header_text(false, ended, search_key, search_on, Some(false)) == header_text(
            false,
            ended,
            search_key,
            search_on,
            None,
        ) + "   ctrl-s: sort by date"@,
        header_text(false, false, false, false, None)
            == "enter: switch   tab: filter   ctrl-r: refresh   ctrl-/: preview"@,
        header_text(false, true, false, false, None)
            == "enter: switch/resume   tab: filter   ctrl-r: refresh   ctrl-/: preview"@,
{
    reveal_strlit("enter: switch");
    reveal_strlit("/resume");
    reveal_strlit("   tab: filter   ctrl-r: refresh   ctrl-/: preview");
    reveal_strlit("enter: switch   tab: filter   ctrl-r: refresh   ctrl-/: preview");
    reveal_strlit("enter: switch/resume   tab: filter   ctrl-r: refresh   ctrl-/: preview");
    assert("enter: switch"@ + "   tab: filter   ctrl-r: refresh   ctrl-/: preview"@
        =~= "enter: switch   tab: filter   ctrl-r: refresh   ctrl-/: preview"@);
    assert("enter: switch"@ + "/resume"@ + "   tab: filter   ctrl-r: refresh   ctrl-/: preview"@
        =~= "enter: switch/resume   tab: filter   ctrl-r: refresh   ctrl-/: preview"@);
}

/// The border names the list, and behind it each thing that is in force: the order by date,
/// the live list, the search, and a refresh on its way.
pub proof fn lemma_the_border_names_the_list(mode: Mode, by_date: bool, live: bool, search: bool, refreshing: bool)
    ensures
        border(mode, false, false, false, false) == " "@ + mode.title() + " "@,
        border(mode, true, false, false, false) == " "@ + mode.title() + " · by date"@ + " "@,
        border(mode, false, true, false, false) == " "@ + mode.title() + " · live"@ + " "@,
        border(mode, false, false, true, false) == " "@ + mode.title() + " · ⌕"@ + " "@,
        border(mode, false, false, false, true) == " "@ + mode.title() + " · refreshing"@ + " "@,
        (" "@ + mode.title()).is_prefix_of(border(mode, by_date, live, search, refreshing)),
{
    let b = border(mode, by_date, live, search, refreshing);
    let a = " "@ + mode.title();
    assert(b.subrange(0, a.len() as int) =~= a);
}

/// An empty list says why it is empty: that it is still being looked for, that nothing
/// matches, or that there is nothing of its kind; and always how to leave.
pub proof fn lemma_an_empty_list_says_why(
    mode: Mode,
    query: Seq<char>,
    nothing_scanned: bool,
    ended: bool,
    scanning: bool,
)
    ensures
        note_lines(mode, query, true, nothing_scanned, ended)[0] == "Looking for agent sessions…"@,
        query.len() > 0 ==> note_lines(mode, query, false, nothing_scanned, ended)[0]
            == "Nothing matches "@ + query,
        query.len() == 0 && mode != Mode::Dead && !nothing_scanned ==> note_lines(
            mode,
            query,
            false,
            nothing_scanned,
            ended,
        )[0] == "Nothing is "@ + mode.title() + " right now."@,
        query.len() == 0 && mode != Mode::Dead && nothing_scanned ==> note_lines(
            mode,
            query,
            false,
            nothing_scanned,
            ended,
        )[0] == "No agent sessions on this machine."@,
        note_lines(mode, query, scanning, nothing_scanned, ended).last() == "Esc closes this."@,
{
}

/// A popup has been outgrown exactly where the window would now give it more than it has,
/// by more than the slack, across or down.
pub proof fn lemma_when_a_popup_is_outgrown(ours: (u16, u16), client: (u16, u16), slack: u16)
    requires
        ours.0 + slack <= 0xffff,
        ours.1 + slack <= 0xffff,
        client.0 >= 100,
        client.1 >= 3,
    ensures
        grown(ours, client, slack) <==> client.0 * 80 / 100 - 2 > ours.0 + slack || client.1 * 80
            / 100 - 2 > ours.1 + slack,
{
}

/// The client that the picker is on is known where it is the only one, with its terminal
/// and its size; among several it is not guessed.
pub proof fn lemma_only_a_single_client_is_known(listed: Seq<char>, x: u16, y: u16)
    ensures
        filled(text::lines_of(listed)).len() != 1 ==> only_client(listed) is None,
        filled(text::lines_of(listed)).len() == 1 && text::words_of(
            filled(text::lines_of(listed))[0],
        ).len() >= 3 && text::natural(text::words_of(filled(text::lines_of(listed))[0])[1]) == Some(
            x as nat,
        ) && text::natural(text::words_of(filled(text::lines_of(listed))[0])[2]) == Some(y as nat)
            && x > 0 && y > 0 ==> only_client(listed) == Some(
            (text::words_of(filled(text::lines_of(listed))[0])[0], (x, y)),
        ),
        stamp(listed) == " taimux "@ + listed + " "@,
{
}

} // verus!
