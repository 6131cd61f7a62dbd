//! The picker's state, and what each event does to it.
//!
//! Nothing here draws, reads a file or waits: an event changes the state, and what is
//! left to be done outside is handed back as the next step.
use vstd::prelude::*;

use super::filter;
use super::filter::filter as keep;
use super::hold;
use super::hold::{hold as hold_row, hold_restarting, Held};
use super::near;
use super::near::nearest;
use super::preview;
use super::preview::Wanted;
use super::{outgrown, pasted, row_width, Mode, Outcome, State};
use crate::agents;
use crate::agents::Turn;
use crate::ansi;
use crate::ansi::{Line, Span};
use crate::env;
use crate::index;
use crate::index::Query;
use crate::order;
use crate::rows;
use crate::rows::{Input, Row};
use crate::table::Table;
use crate::text;
use crate::text::{chars_of, same, slice, space};

verus! {

/// How soon a second click on the same row reads as a double-click, in milliseconds.
pub const DOUBLE_CLICK: u64 = 400;

/// How long a captured screen is shown before it is captured again, in milliseconds.
/// Short on purpose: a preview is read to see what a session is doing NOW.
pub const PREVIEW_TTL: u64 = 750;

/// …and longer for one that costs asking another host.
pub const REMOTE_TTL: u64 = 3_000;

/// How long a refresh is out before it is worth saying so, in milliseconds.
pub const WORTH_SAYING: u64 = 1_000;

/// Where rows come from, and what does not change while the picker is open.
pub struct Source {
    /// Is there a list of past sessions at all?
    pub ended: bool,
    pub cur: String,
    /// Where the pane the picker was opened from IS, for the case where that pane is
    /// not an agent session: `cur` then matches no row at all and these are what the
    /// cursor is placed by instead. Empty means "not known".
    pub cur_cwd: String,
    pub cur_target: String,
    pub home: String,
    pub newver: String,
    /// The agent that a restart applies to.
    pub agent: String,
    /// The command for the keys that act rather than navigate. Unset means they are
    /// not bound.
    pub script: Option<String>,
    /// Whether this runs in a popup, which may close and reopen itself at a new size.
    pub popup: bool,
    /// May the search of what was said be turned on?
    pub searchable: bool,
    /// Under this many characters a term is in every transcript and a match would say
    /// nothing.
    pub search_min: usize,
    /// What a previous instance was doing when the terminal grew under it.
    pub state: State,
}

pub struct SourceView {
    pub ended: bool,
    pub cur: Seq<char>,
    pub cur_cwd: Seq<char>,
    pub cur_target: Seq<char>,
    pub home: Seq<char>,
    pub newver: Seq<char>,
    pub agent: Seq<char>,
    pub script: Option<Seq<char>>,
    pub popup: bool,
    pub searchable: bool,
    pub search_min: nat,
    pub state: super::StateView,
}

impl View for Source {
    type V = SourceView;

    open spec fn view(&self) -> SourceView {
        SourceView {
            ended: self.ended,
            cur: self.cur@,
            cur_cwd: self.cur_cwd@,
            cur_target: self.cur_target@,
            home: self.home@,
            newver: self.newver@,
            agent: self.agent@,
            script: text::opt_string(self.script),
            popup: self.popup,
            searchable: self.searchable,
            search_min: self.search_min as nat,
            state: self.state@,
        }
    }
}

/// A captured screen and when it was taken.
pub struct Shot {
    pub id: String,
    pub at: u64,
    pub text: String,
}

pub struct App {
    pub src: Source,
    pub mode: Mode,
    /// Typing searches what sessions SAID, not only what their rows show.
    pub search: bool,
    /// Keep the past list newest first while a query filters it. Only that list reads
    /// it, being the only one with a date to go by.
    pub by_date: bool,
    pub preview: bool,
    pub query: String,
    pub width: usize,
    pub tsv: String,
    pub all: Vec<Row>,
    /// The rows the query keeps, by their places among all.
    pub view: Vec<usize>,
    pub sel: usize,
    pub shot: Option<Shot>,
    /// How far the preview is scrolled from its default view, in rows, negative
    /// towards the start of the body.
    pub poff: i64,
    /// The row `poff` was measured against. An offset carried onto another row would
    /// be measured against a different session's screen.
    pub poff_for: String,
    /// When the refresh that is out was asked for.
    pub pending: Option<u64>,
    /// The client as of the last refresh, for the resize check.
    pub client: Option<(String, (u16, u16))>,
    pub restarting: Vec<Held>,
    /// The last left click: its row on screen, and when.
    pub clicked: Option<(u16, u64)>,
    /// Has the first scan come back?
    pub opened: bool,
}

#[verifier::ext_equal]
pub struct AppView {
    pub src: SourceView,
    pub mode: Mode,
    pub search: bool,
    pub by_date: bool,
    pub preview: bool,
    pub query: Seq<char>,
    pub width: nat,
    pub tsv: Seq<char>,
    pub all: Seq<rows::RowView>,
    pub view: Seq<int>,
    pub sel: int,
    pub shot: Option<(Seq<char>, u64, Seq<char>)>,
    pub poff: int,
    pub poff_for: Seq<char>,
    pub pending: Option<u64>,
    pub client: Option<(Seq<char>, (u16, u16))>,
    pub restarting: Seq<hold::HeldView>,
    pub clicked: Option<(u16, u64)>,
    pub opened: bool,
}

pub open spec fn client_view(c: Option<(String, (u16, u16))>) -> Option<(Seq<char>, (u16, u16))> {
    match c {
        Some((tty, size)) => Some((tty@, size)),
        None => None,
    }
}

pub open spec fn shot_view(s: Option<Shot>) -> Option<(Seq<char>, u64, Seq<char>)> {
    match s {
        Some(s) => Some((s.id@, s.at, s.text@)),
        None => None,
    }
}

impl View for App {
    type V = AppView;

    open spec fn view(&self) -> AppView {
        AppView {
            src: self.src@,
            mode: self.mode,
            search: self.search,
            by_date: self.by_date,
            preview: self.preview,
            query: self.query@,
            width: self.width as nat,
            tsv: self.tsv@,
            all: rows::rows_view(self.all@),
            view: order::places(self.view@),
            sel: self.sel as int,
            shot: shot_view(self.shot),
            poff: self.poff as int,
            poff_for: self.poff_for@,
            pending: self.pending,
            client: client_view(self.client),
            restarting: hold::held_view(self.restarting@),
            clicked: self.clicked,
            opened: self.opened,
        }
    }
}

/// Every row of the view is a row there is, and the cursor is on one of them, or at
/// the top of an empty list. No row is too long to be matched.
pub open spec fn sound(a: AppView) -> bool {
    &&& filter::matchable(a.all)
    &&& forall|i: int| 0 <= i < a.view.len() ==> 0 <= #[trigger] a.view[i] < a.all.len()
    &&& if a.view.len() == 0 {
        a.sel == 0
    } else {
        0 <= a.sel < a.view.len()
    }
}

/// The row under the cursor.
pub open spec fn under_cursor(a: AppView) -> Option<rows::RowView> {
    if 0 <= a.sel < a.view.len() {
        Some(a.all[a.view[a.sel]])
    } else {
        None
    }
}

/// Where a pane's row stands in the view, from a place on.
pub open spec fn place_of(all: Seq<rows::RowView>, view: Seq<int>, id: Seq<char>, i: int) -> Option<
    int,
>
    decreases view.len() - i,
{
    if i >= view.len() {
        None
    } else if all[view[i]].pane_id == id {
        Some(i)
    } else {
        place_of(all, view, id, i + 1)
    }
}

/// A cursor no further down than the last row.
pub open spec fn clamped(sel: int, n: nat) -> int {
    if n == 0 {
        0
    } else if sel >= n {
        n - 1
    } else {
        sel
    }
}

/// Is the list on screen in date order, newest first, rather than ranked best match
/// first: the past list, asked to be, and nothing else?
pub open spec fn in_date_order(a: AppView) -> bool {
    a.by_date && a.mode == Mode::Dead
}

/// What the layout is given. The past list is a different list, not this one
/// filtered, so it takes no filter.
pub open spec fn layout_of(
    a: AppView,
    snips: Map<Seq<char>, Seq<char>>,
    ptitles: Map<Seq<char>, Seq<char>>,
) -> rows::InputView {
    rows::InputView {
        cur: a.src.cur,
        width: a.width,
        home: a.src.home,
        newver: a.src.newver,
        agent: a.src.agent,
        only: if a.mode == Mode::Dead {
            ""@
        } else {
            a.mode.state()
        },
        outdated: a.mode == Mode::Outdated,
        query: a.query,
        snips,
        ptitles,
        restarting: a.restarting.map_values(|h: hold::HeldView| h.id),
    }
}

/// The rows as they are laid out now.
pub open spec fn rows_now(
    a: AppView,
    snips: Map<Seq<char>, Seq<char>>,
    ptitles: Map<Seq<char>, Seq<char>>,
) -> Seq<rows::RowView> {
    let input = layout_of(a, snips, ptitles);
    rows::laid_out(rows::items_of(text::lines_of(a.tsv), input), input)
}

/// Other rows shown, with the query applied to them and the cursor back on the same
/// SESSION rather than the same place.
pub open spec fn with_rows_shown(a: AppView, all: Seq<rows::RowView>) -> AppView {
    let view = filter::filtered(all, a.query, in_date_order(a));
    let sel = match under_cursor(a) {
        Some(r) => match place_of(all, view, r.pane_id, 0) {
            Some(i) => i,
            None => 0,
        },
        None => 0,
    };
    AppView { all, view, sel: clamped(sel, view.len()), ..a }
}

/// The rows laid out again and shown.
pub open spec fn rebuilt(
    a: AppView,
    snips: Map<Seq<char>, Seq<char>>,
    ptitles: Map<Seq<char>, Seq<char>>,
) -> AppView {
    with_rows_shown(a, rows_now(a, snips, ptitles))
}

/// The query applied again to the rows there are.
pub open spec fn refiltered(a: AppView) -> AppView {
    let view = filter::filtered(a.all, a.query, in_date_order(a));
    AppView { view, sel: clamped(a.sel, view.len()), ..a }
}

/// What is to be done once an event has been taken.
#[derive(Debug, PartialEq, Eq)]
pub enum Next {
    /// Nothing but to draw again.
    Draw,
    /// Lay the rows out again.
    Rebuild,
    /// Ask for fresh rows.
    Refresh,
    /// Lay the rows out again, and ask for fresh ones.
    RebuildAndRefresh,
    /// Throw away what is thought to be on the terminal, and draw in full.
    Repaint,
    /// Restart this pane's session, whose row is held; then lay the rows out again,
    /// ask for fresh ones, and put the cursor back on it.
    Restart(String),
    /// Carry this conversation into another agent, and put the cursor back on it.
    Handoff(String),
    /// Restart every outdated session; then lay the rows out again and ask for fresh
    /// ones.
    Sweep,
    /// Leave with nothing chosen.
    Leave,
    /// Leave with this row chosen.
    Choose(String),
}

#[verifier::ext_equal]
pub enum NextView {
    Draw,
    Rebuild,
    Refresh,
    RebuildAndRefresh,
    Repaint,
    Restart(Seq<char>),
    Handoff(Seq<char>),
    Sweep,
    Leave,
    Choose(Seq<char>),
}

impl View for Next {
    type V = NextView;

    open spec fn view(&self) -> NextView {
        match self {
            Next::Draw => NextView::Draw,
            Next::Rebuild => NextView::Rebuild,
            Next::Refresh => NextView::Refresh,
            Next::RebuildAndRefresh => NextView::RebuildAndRefresh,
            Next::Repaint => NextView::Repaint,
            Next::Restart(id) => NextView::Restart(id@),
            Next::Handoff(id) => NextView::Handoff(id@),
            Next::Sweep => NextView::Sweep,
            Next::Leave => NextView::Leave,
            Next::Choose(id) => NextView::Choose(id@),
        }
    }
}

/// A state with a changed query: with the search of what was said on, the rows have
/// to be laid out again, since a row that is in the list because of what its session
/// SAID carries the words on it.
pub open spec fn typed(a: AppView, query: Seq<char>) -> (AppView, NextView) {
    let b = AppView { query, ..a };
    if a.search {
        (b, NextView::Rebuild)
    } else {
        (refiltered(b), NextView::Draw)
    }
}

/// A text without its last word and the space behind it.
pub open spec fn without_last_word(q: Seq<char>) -> Seq<char> {
    without_word_end(text::trimmed_end(q))
}

pub open spec fn without_word_end(q: Seq<char>) -> Seq<char>
    decreases q.len(),
{
    if q.len() > 0 && !text::is_space(q.last()) {
        without_word_end(q.drop_last())
    } else {
        q
    }
}

pub open spec fn without_last_char(q: Seq<char>) -> Seq<char> {
    if q.len() > 0 {
        q.drop_last()
    } else {
        q
    }
}

/// The cursor so many rows on, round the ends of the list.
pub open spec fn moved(a: AppView, d: int) -> AppView {
    if a.view.len() == 0 {
        a
    } else {
        AppView { sel: (a.sel + d) % (a.view.len() as int), ..a }
    }
}

pub open spec fn bounded(n: int, last: int) -> int {
    if n < 0 {
        0
    } else if n > last {
        last
    } else {
        n
    }
}

/// The cursor so many screenfuls on, stopping at the ends of the list.
pub open spec fn paged(a: AppView, pages: int, page: nat) -> AppView {
    let step = if page == 0 {
        1int
    } else {
        page as int
    };
    if a.view.len() == 0 {
        a
    } else {
        AppView { sel: bounded(a.sel + pages * step, a.view.len() - 1), ..a }
    }
}

/// The next list round the ring, or the one before it.
pub open spec fn stepped(a: AppView, back: bool) -> AppView {
    let ended = a.src.ended;
    let outdated = a.src.newver.len() > 0;
    AppView {
        mode: if back {
            super::backward(a.mode, ended, outdated)
        } else {
            super::forward(a.mode, ended, outdated)
        },
        ..a
    }
}

/// An offset one up or down, as far as it can be counted.
pub open spec fn offset_by(n: int, d: int) -> int {
    if n + d < i64::MIN {
        i64::MIN as int
    } else if n + d > i64::MAX {
        i64::MAX as int
    } else {
        n + d
    }
}

/// The cursor on a pane, if it is in the view.
pub open spec fn focused(a: AppView, id: Seq<char>) -> AppView {
    match place_of(a.all, a.view, id, 0) {
        Some(i) => AppView { sel: i, ..a },
        None => a,
    }
}

/// A key that was pressed.
#[derive(Clone, Copy, Debug, PartialEq, Eq, Structural)]
pub enum Code {
    Esc,
    Enter,
    Up,
    Down,
    Home,
    End,
    PageUp,
    PageDown,
    Tab,
    BackTab,
    Backspace,
    F(u8),
    Char(char),
    Other,
}

#[derive(Clone, Copy, Debug, PartialEq, Eq, Structural)]
pub struct Key {
    pub code: Code,
    pub ctrl: bool,
    pub alt: bool,
    pub shift: bool,
}

/// What a key held with ctrl does, if it is bound.
pub open spec fn ctrl_key(a: AppView, c: char, now: int) -> Option<(AppView, NextView)> {
    if c == 'c' || c == 'g' || c == 'q' {
        Some((a, NextView::Leave))
    } else if c == 'n' || c == 'j' {
        Some((moved(a, 1), NextView::Draw))
    } else if c == 'p' || c == 'k' {
        Some((moved(a, -1), NextView::Draw))
    } else if c == 'r' {
        Some((a, NextView::Refresh))
    } else if c == 't' && a.src.searchable {
        Some((AppView { search: !a.search, ..a }, NextView::Rebuild))
    } else if c == 's' && a.mode == Mode::Dead {
        Some((AppView { by_date: !a.by_date, ..a }, NextView::Rebuild))
    } else if c == '/' || c == '_' || c == '\u{1f}' {
        Some((AppView { preview: !a.preview, ..a }, NextView::Draw))
    } else if c == 'u' {
        Some(typed(a, Seq::empty()))
    } else if c == 'w' {
        Some(typed(a, without_last_word(a.query)))
    } else if c == 'h' {
        Some(typed(a, without_last_char(a.query)))
    } else if c == 'l' {
        Some((a, NextView::Repaint))
    } else if c == 'x' {
        Some(
            match under_cursor(a) {
                Some(r) => if a.src.script is Some {
                    (
                        AppView {
                            restarting: hold::holding(a.restarting, a.tsv, r.pane_id, now),
                            ..a
                        },
                        NextView::Restart(r.pane_id),
                    )
                } else {
                    (a, NextView::Draw)
                },
                None => (a, NextView::Draw),
            },
        )
    } else if c == 'o' {
        Some(
            match under_cursor(a) {
                Some(r) => if a.src.script is Some {
                    (a, NextView::Handoff(r.pane_id))
                } else {
                    (a, NextView::Draw)
                },
                None => (a, NextView::Draw),
            },
        )
    } else {
        None
    }
}

/// What the keys that type nothing do.
pub open spec fn pressed(a: AppView, k: Key, page: nat, now: int) -> (AppView, NextView) {
    match k.code {
        Code::Esc => (a, NextView::Leave),
        Code::Enter => match under_cursor(a) {
            Some(r) => (a, NextView::Choose(r.pane_id)),
            None => (a, NextView::Leave),
        },
        Code::Up => if k.shift {
            (AppView { poff: offset_by(a.poff, -1), ..a }, NextView::Draw)
        } else {
            (moved(a, -1), NextView::Draw)
        },
        Code::Down => if k.shift {
            (AppView { poff: offset_by(a.poff, 1), ..a }, NextView::Draw)
        } else {
            (moved(a, 1), NextView::Draw)
        },
        Code::Home => (AppView { sel: 0, ..a }, NextView::Draw),
        Code::End => (
            AppView {
                sel: if a.view.len() == 0 {
                    0
                } else {
                    a.view.len() - 1
                },
                ..a
            },
            NextView::Draw,
        ),
        Code::PageDown => (paged(a, 1, page), NextView::Draw),
        Code::PageUp => (paged(a, -1, page), NextView::Draw),
        Code::BackTab => (stepped(a, true), NextView::RebuildAndRefresh),
        Code::Tab => (stepped(a, k.shift), NextView::RebuildAndRefresh),
        Code::Backspace => if k.alt {
            typed(a, without_last_word(a.query))
        } else {
            typed(a, without_last_char(a.query))
        },
        Code::F(n) => if n == 8 && a.src.script is Some {
            (a, NextView::Sweep)
        } else {
            (a, NextView::Draw)
        },
        Code::Char(c) => if k.ctrl {
            match ctrl_key(a, c, now) {
                Some(r) => r,
                None => (a, NextView::Draw),
            }
        } else if k.alt {
            (a, NextView::Draw)
        } else {
            typed(a, a.query.push(c))
        },
        Code::Other => (a, NextView::Draw),
    }
}

/// A left click: the row under the pointer takes the cursor, and a second click on it
/// soon enough chooses it. `top` is where the list begins on screen, and `offset` the
/// first row it shows.
pub open spec fn clicked_at(a: AppView, y: u16, top: u16, offset: nat, now: u64) -> (
    AppView,
    NextView,
) {
    let i = offset + (y - top);
    if y < top || i >= a.view.len() {
        (a, NextView::Draw)
    } else {
        let b = AppView { sel: i, clicked: Some((y, now)), ..a };
        let again = match a.clicked {
            Some((row, at)) => row == y && now - at < DOUBLE_CLICK,
            None => false,
        };
        if again {
            (b, NextView::Choose(a.all[a.view[i]].pane_id))
        } else {
            (b, NextView::Draw)
        }
    }
}

/// What asks for fresh rows next.
#[derive(Clone, Copy, Debug, PartialEq, Eq, Structural)]
pub enum Ask {
    /// Read the list of past sessions, here and now.
    Ended,
    /// Scan, off the loop.
    Scan,
    /// One is out already.
    Waiting,
}

pub open spec fn asked(a: AppView, now: u64) -> (AppView, Ask) {
    if a.mode == Mode::Dead {
        (a, Ask::Ended)
    } else if a.pending is Some {
        (a, Ask::Waiting)
    } else {
        (AppView { pending: Some(now), ..a }, Ask::Scan)
    }
}

/// Fresh rows, with those that are held put back.
pub open spec fn with_rows(a: AppView, tsv: Seq<char>, now: int) -> AppView {
    let restarting = hold::still_held(
        a.restarting,
        hold::panes_in(text::lines_of(tsv)),
        now,
    );
    AppView { tsv: hold::held_in(tsv, restarting), restarting, ..a }
}

/// Is the text long enough to search what was said?
pub open spec fn searching(a: AppView) -> bool {
    a.search && a.query.len() >= a.src.search_min
}

/// The row the cursor opens on.
pub open spec fn opening_on(a: AppView) -> Seq<char> {
    if a.src.state.on.len() == 0 {
        a.src.cur
    } else {
        a.src.state.on
    }
}

/// Is `b` what opening does to `a`: the cursor on the row the picker was opened from,
/// and where that is no row, on the one nearest to it, as far as it is known where
/// that is?
pub open spec fn opens(a: AppView, b: AppView) -> bool {
    let first = place_of(a.all, a.view, opening_on(a), 0);
    let known = a.src.cur_cwd.len() > 0 || a.src.cur_target.len() > 0;
    if a.opened {
        b == a
    } else if first is Some || !known || a.view.len() == 0 {
        b == (AppView { opened: true, ..focused(a, opening_on(a)) })
    } else {
        &&& b == (AppView { opened: true, sel: b.sel, ..a })
        &&& near::is_nearest(
            shown_rows(a),
            a.src.cur_cwd,
            a.src.cur_target,
            b.sel,
        )
    }
}

/// The rows of the view.
pub open spec fn shown_rows(a: AppView) -> Seq<rows::RowView> {
    a.view.map_values(|i: int| a.all[i])
}

/// A row as a line to draw.
pub open spec fn drawn_row(row: rows::RowView) -> Seq<ansi::SpanView> {
    row.cells.map_values(
        |c: rows::CellView|
            ansi::SpanView { content: c.text, style: rows::paint_style(c.paint) },
    )
}

/// A row as a line to draw: each cell in its colour.
pub fn row_line(row: &Row) -> (r: Line)
    ensures
        r@ == drawn_row(row@),
{
    let mut spans: Vec<Span> = Vec::new();
    let mut i: usize = 0;
    while i < row.cells.len()
        invariant
            i <= row.cells@.len(),
            spans@.len() == i,
            forall|k: int| 0 <= k < i ==> (#[trigger] spans@[k])@ == drawn_row(row@)[k],
        decreases row.cells@.len() - i,
    {
        let c = &row.cells[i];
        assert(row@.cells[i as int] == c@);
        spans.push(Span { content: c.text.clone(), style: c.paint.style() });
        i = i + 1;
    }
    let r = Line { spans };
    assert(r@ =~= drawn_row(row@));
    r
}

/// The rows of the past list, where the record of sessions is not turned off.
/// `setting` is what turns it off, and `file` what the record holds.
///
/// There being none is what takes that list out of the ring Tab walks.
pub fn ended_source(setting: Option<&str>, file: Option<&str>, now: i64) -> (r: Option<String>)
    ensures
        text::opt_string(r) == (if text::opt(setting) != Some("0"@) {
            Some(index::dead_list(text::opt(file), now as int))
        } else {
            None
        }),
{
    if env::on(setting) {
        Some(index::dead_rows(file, now))
    } else {
        None
    }
}

impl App {
    /// A picker that is being opened, on a terminal so many columns wide: with
    /// whatever a previous instance was doing when the terminal grew under it.
    pub fn new(src: Source, columns: u16) -> (r: App)
        ensures
            r.src == src,
            r@ == (AppView {
                src: src@,
                mode: super::mode_named(src.state.mode@),
                search: src.state.search,
                by_date: src.state.by_date,
                preview: src.state.preview,
                query: src.state.query@,
                width: if columns >= 4 {
                    (columns - 4) as nat
                } else {
                    0
                },
                tsv: Seq::empty(),
                all: Seq::empty(),
                view: Seq::empty(),
                sel: 0,
                shot: None,
                poff: 0,
                poff_for: Seq::empty(),
                pending: None,
                client: None,
                restarting: Seq::empty(),
                clicked: None,
                opened: false,
            }),
            sound(r@),
    {
        let mode = Mode::from_key(src.state.mode);
        let search = src.state.search;
        let by_date = src.state.by_date;
        let preview = src.state.preview;
        let query = src.state.query.clone();
        let r = App {
            src,
            mode,
            search,
            by_date,
            preview,
            query,
            width: row_width(columns),
            tsv: String::new(),
            all: Vec::new(),
            view: Vec::new(),
            sel: 0,
            shot: None,
            poff: 0,
            poff_for: String::new(),
            pending: None,
            client: None,
            restarting: Vec::new(),
            clicked: None,
            opened: false,
        };
        assert(r@.all =~= Seq::empty());
        assert(r@.view =~= Seq::empty());
        assert(r@.restarting =~= Seq::empty());
        assert(r@.tsv =~= Seq::empty());
        assert(r@.poff_for =~= Seq::empty());
        r
    }

    /// The row under the cursor.
    pub fn selected(&self) -> (r: Option<&Row>)
        requires
            sound(self@),
        ensures
            match r {
                Some(row) => under_cursor(self@) == Some(row@),
                None => under_cursor(self@) is None,
            },
    {
        if self.sel < self.view.len() {
            assert(self@.view[self.sel as int] == self.view@[self.sel as int]);
            assert(self@.all[self.view@[self.sel as int] as int]
                == self.all@[self.view@[self.sel as int] as int]@);
            Some(&self.all[self.view[self.sel]])
        } else {
            None
        }
    }

    /// Whether the list on screen is in date order, newest first, rather than ranked
    /// best match first: the past list, asked to be, and nothing else.
    pub fn dated(&self) -> (r: bool)
        ensures
            r == in_date_order(self@),
    {
        self.by_date && self.mode == Mode::Dead
    }

    fn clamp(&mut self)
        ensures
            final(self)@ == (AppView {
                sel: clamped(old(self)@.sel, old(self)@.view.len()),
                ..old(self)@
            }),
            final(self).src == old(self).src,
    {
        if self.view.len() == 0 {
            self.sel = 0;
        } else if self.sel >= self.view.len() {
            self.sel = self.view.len() - 1;
        }
    }

    fn place_of_pane(&self, id: &str) -> (r: Option<usize>)
        requires
            forall|i: int|
                0 <= i < self@.view.len() ==> 0 <= #[trigger] self@.view[i] < self@.all.len(),
        ensures
            match r {
                Some(i) => place_of(self@.all, self@.view, id@, 0) == Some(i as int) && i
                    < self@.view.len(),
                None => place_of(self@.all, self@.view, id@, 0) is None,
            },
    {
        let ghost a = self@;
        let mut i: usize = 0;
        while i < self.view.len()
            invariant
                i <= self.view@.len(),
                a == self@,
                forall|k: int| 0 <= k < a.view.len() ==> 0 <= #[trigger] a.view[k] < a.all.len(),
                place_of(a.all, a.view, id@, i as int) == place_of(a.all, a.view, id@, 0),
            decreases self.view@.len() - i,
        {
            assert(a.view[i as int] == self.view@[i as int]);
            assert(a.all[self.view@[i as int] as int] == self.all@[self.view@[i as int] as int]@);
            if same(&self.all[self.view[i]].pane_id, id) {
                return Some(i);
            }
            i = i + 1;
        }
        None
    }

    /// The rows as they are to be laid out now.
    fn lay_out(&self, snips: Table, ptitles: Table) -> (r: Vec<Row>)
        ensures
            rows::rows_view(r@) == rows_now(self@, snips@, ptitles@),
    {
        let only: &str = if self.mode == Mode::Dead {
            ""
        } else {
            self.mode.filter()
        };
        let ids = self.held_ids();
        let ghost sv = snips@;
        let ghost pv = ptitles@;
        let input = Input {
            cur: &self.src.cur,
            width: self.width,
            home: &self.src.home,
            newver: &self.src.newver,
            agent: &self.src.agent,
            only,
            outdated: self.mode == Mode::Outdated,
            query: &self.query,
            snips,
            ptitles,
            restarting: ids,
        };
        assert(input@ == layout_of(self@, sv, pv));
        rows::build(&self.tsv, &input)
    }

    /// Show these rows, with the query applied and the cursor back on the same session.
    fn show_rows(&mut self, all: Vec<Row>)
        requires
            sound(old(self)@),
            filter::matchable(rows::rows_view(all@)),
        ensures
            final(self)@ == with_rows_shown(old(self)@, rows::rows_view(all@)),
            final(self).src == old(self).src,
            sound(final(self)@),
    {
        let ghost was = self@;
        let on: Option<String> = match self.selected() {
            Some(r) => Some(r.pane_id.clone()),
            None => None,
        };
        let view = keep(&all, &self.query, self.dated());
        let ghost av = rows::rows_view(all@);
        self.all = all;
        self.view = view;
        assert forall|i: int| 0 <= i < self@.view.len() implies 0 <= #[trigger] self@.view[i]
            < self@.all.len() by {
            assert(self@.view[i] == self.view@[i]);
        }
        self.sel = match on {
            Some(id) => match self.place_of_pane(&id) {
                Some(i) => i,
                None => 0,
            },
            None => 0,
        };
        self.clamp();
        assert(self@ =~= with_rows_shown(was, av));
    }

    /// Re-lay the rows out and re-apply the query, putting the cursor back on the same
    /// SESSION rather than the same place. No row may be longer than the matcher can
    /// take.
    pub fn rebuild(&mut self, snips: Table, ptitles: Table)
        requires
            sound(old(self)@),
            filter::matchable(rows_now(old(self)@, snips@, ptitles@)),
        ensures
            final(self)@ == rebuilt(old(self)@, snips@, ptitles@),
            final(self).src == old(self).src,
            sound(final(self)@),
    {
        let all = self.lay_out(snips, ptitles);
        self.show_rows(all);
    }

    /// The same where it is not known how long the rows will be: where one of them is
    /// longer than the matcher can take, the answer is no and nothing has changed.
    pub fn rebuild_if_matchable(&mut self, snips: Table, ptitles: Table) -> (r: bool)
        requires
            sound(old(self)@),
        ensures
            r == filter::matchable(rows_now(old(self)@, snips@, ptitles@)),
            r ==> final(self)@ == rebuilt(old(self)@, snips@, ptitles@),
            !r ==> final(self)@ == old(self)@,
            final(self).src == old(self).src,
            sound(final(self)@),
    {
        let all = self.lay_out(snips, ptitles);
        if !filter::all_matchable(&all) {
            return false;
        }
        self.show_rows(all);
        true
    }

    fn held_ids(&self) -> (r: Vec<String>)
        ensures
            text::texts(r@) == self@.restarting.map_values(|h: hold::HeldView| h.id),
    {
        let mut ids: Vec<String> = Vec::new();
        let mut i: usize = 0;
        while i < self.restarting.len()
            invariant
                i <= self.restarting@.len(),
                ids@.len() == i,
                forall|k: int| 0 <= k < i ==> (#[trigger] ids@[k])@ == self.restarting@[k].id@,
            decreases self.restarting@.len() - i,
        {
            ids.push(self.restarting[i].id.clone());
            i = i + 1;
        }
        assert(text::texts(ids@) =~= self@.restarting.map_values(|h: hold::HeldView| h.id));
        ids
    }

    fn refilter(&mut self)
        requires
            filter::matchable(old(self)@.all),
        ensures
            final(self)@ == refiltered(old(self)@),
            final(self).src == old(self).src,
            sound(final(self)@),
    {
        let ghost was = self@;
        let view = keep(&self.all, &self.query, self.dated());
        self.view = view;
        assert forall|i: int| 0 <= i < self@.view.len() implies 0 <= #[trigger] self@.view[i]
            < self@.all.len() by {
            assert(self@.view[i] == self.view@[i]);
        }
        self.clamp();
        assert(self@ =~= refiltered(was));
    }

    /// The query changed.
    ///
    /// With text search on the rows have to be laid out again, not just filtered
    /// again. With search off it is only a filter, which is what makes typing into a
    /// picker you merely opened to jump as cheap as it always was.
    pub fn query_changed(&mut self, query: String) -> (r: Next)
        requires
            sound(old(self)@),
        ensures
            (final(self)@, r@) == typed(old(self)@, query@),
            final(self).src == old(self).src,
            sound(final(self)@),
    {
        let ghost was = self@;
        let ghost q = query@;
        self.query = query;
        assert(self@ =~= AppView { query: q, ..was });
        if self.search {
            Next::Rebuild
        } else {
            self.refilter();
            Next::Draw
        }
    }

    /// Drop the last word of the query. The trailing space goes with it, so a query
    /// ending in one loses a whole word rather than just the gap.
    pub fn kill_word(&mut self) -> (r: Next)
        requires
            sound(old(self)@),
        ensures
            (final(self)@, r@) == typed(old(self)@, without_last_word(old(self)@.query)),
            final(self).src == old(self).src,
            sound(final(self)@),
    {
        let t = text::trim_end(&self.query);
        let v = chars_of(&t);
        let mut n: usize = v.len();
        assert(v@.take(n as int) =~= v@);
        while n > 0 && !space(v[n - 1])
            invariant
                n <= v@.len(),
                without_word_end(v@.take(n as int)) == without_word_end(v@),
            decreases n,
        {
            assert(v@.take(n as int).drop_last() =~= v@.take(n - 1));
            n = n - 1;
        }
        assert(n > 0 ==> v@.take(n as int).last() == v@[n - 1]);
        let q = slice(&v, 0, n);
        assert(q@ =~= v@.take(n as int));
        self.query_changed(q)
    }

    fn drop_char(&mut self) -> (r: Next)
        requires
            sound(old(self)@),
        ensures
            (final(self)@, r@) == typed(old(self)@, without_last_char(old(self)@.query)),
            final(self).src == old(self).src,
            sound(final(self)@),
    {
        let v = chars_of(&self.query);
        let n: usize = v.len();
        let q = if n > 0 {
            let q = slice(&v, 0, n - 1);
            assert(q@ =~= self.query@.drop_last());
            q
        } else {
            self.query.clone()
        };
        self.query_changed(q)
    }

    /// Move to the next list, or with `back` to the one before it. Nothing installed
    /// to compare against, and the outdated stop is not in the ring at all.
    pub fn step_mode(&mut self, back: bool) -> (r: Next)
        ensures
            final(self)@ == stepped(old(self)@, back),
            final(self).src == old(self).src,
            r@ == NextView::RebuildAndRefresh,
    {
        let ghost was = self@;
        let outdated = !self.src.newver.as_str().is_empty();
        self.mode = self.mode.step(back, self.src.ended, outdated);
        assert(self@ =~= stepped(was, back));
        Next::RebuildAndRefresh
    }

    /// Put the cursor on a pane, if it is in the list, and say whether it is.
    pub fn focus(&mut self, id: &str) -> (r: bool)
        requires
            sound(old(self)@),
        ensures
            final(self)@ == focused(old(self)@, id@),
            final(self).src == old(self).src,
            r == (place_of(old(self)@.all, old(self)@.view, id@, 0) is Some),
            sound(final(self)@),
    {
        let ghost was = self@;
        match self.place_of_pane(id) {
            Some(i) => {
                self.sel = i;
                assert(self@ =~= focused(was, id@));
                true
            },
            None => false,
        }
    }

    /// Put the cursor on the row nearest the pane the picker was opened from, for when
    /// that pane is not an agent session and so is not a row itself.
    ///
    /// Not knowing where that pane is means not knowing, so the cursor is left where
    /// it is rather than moved on a guess.
    pub fn focus_nearest(&mut self)
        requires
            sound(old(self)@),
        ensures
            final(self)@ == (AppView { sel: final(self)@.sel, ..old(self)@ }),
            final(self).src == old(self).src,
            ({
                let a = old(self)@;
                let known = a.src.cur_cwd.len() > 0 || a.src.cur_target.len() > 0;
                if known && a.view.len() > 0 {
                    near::is_nearest(
                        shown_rows(a),
                        a.src.cur_cwd,
                        a.src.cur_target,
                        final(self)@.sel,
                    )
                } else {
                    final(self)@.sel == a.sel
                }
            }),
            sound(final(self)@),
    {
        let ghost a = self@;
        if self.src.cur_cwd.as_str().is_empty() && self.src.cur_target.as_str().is_empty() {
            return;
        }
        assert forall|i: int| 0 <= i < self.view@.len() implies #[trigger] self.view@[i]
            < self.all@.len() by {
            assert(a.view[i] == self.view@[i]);
        }
        assert(near::seen(a.all, self.view@) =~= shown_rows(a));
        assert(a.view.len() == self.view@.len());
        if let Some(i) = nearest(&self.all, &self.view, &self.src.cur_cwd, &self.src.cur_target) {
            self.sel = i;
        }
    }

    /// The cursor so many rows on, round the ends of the list.
    pub fn move_by(&mut self, d: isize)
        requires
            sound(old(self)@),
        ensures
            final(self)@ == moved(old(self)@, d as int),
            final(self).src == old(self).src,
            sound(final(self)@),
    {
        let ghost was = self@;
        let len: usize = self.view.len();
        assert(was.view.len() == len);
        if len == 0 {
            return;
        }
        let n: i128 = len as i128;
        let to: i128 = if d >= 0 {
            let by: i128 = d as i128 % n;
            proof {
                vstd::arithmetic::div_mod::lemma_add_mod_noop(self.sel as int, d as int, n as int);
                vstd::arithmetic::div_mod::lemma_small_mod(self.sel as nat, n as nat);
            }
            (self.sel as i128 + by) % n
        } else {
            let by: i128 = (-(d as i128)) % n;
            proof {
                vstd::arithmetic::div_mod::lemma_sub_mod_noop(
                    self.sel as int,
                    -(d as int),
                    n as int,
                );
                vstd::arithmetic::div_mod::lemma_small_mod(self.sel as nat, n as nat);
                vstd::arithmetic::div_mod::lemma_mod_add_multiples_vanish(
                    self.sel as int - by as int,
                    n as int,
                );
            }
            (self.sel as i128 - by + n) % n
        };
        self.sel = to as usize;
        assert(self@ =~= moved(was, d as int));
    }

    /// A screenful, and it CLAMPS where `move_by` cycles: a page that wrapped would
    /// sail past the end and land back at the top.
    ///
    /// `page` is the list's drawn height. Zero is possible on a pane too short to draw
    /// a row, and would make the key do nothing.
    pub fn move_page(&mut self, pages: isize, page: usize)
        requires
            sound(old(self)@),
        ensures
            final(self)@ == paged(old(self)@, pages as int, page as nat),
            final(self).src == old(self).src,
            sound(final(self)@),
    {
        let ghost was = self@;
        let len: usize = self.view.len();
        assert(was.view.len() == len);
        if len == 0 {
            return;
        }
        let step: i128 = if page == 0 {
            1
        } else {
            page as i128
        };
        let p: i128 = pages as i128;
        assert(-0x8000_0000_0000_0000 * 0xffff_ffff_ffff_ffff <= p * step
            <= 0x7fff_ffff_ffff_ffff * 0xffff_ffff_ffff_ffff) by (nonlinear_arith)
            requires
                -0x8000_0000_0000_0000 <= p <= 0x7fff_ffff_ffff_ffff,
                1 <= step <= 0xffff_ffff_ffff_ffff,
        ;
        let to: i128 = self.sel as i128 + p * step;
        let last: i128 = len as i128 - 1;
        self.sel = if to < 0 {
            0
        } else if to > last {
            len - 1
        } else {
            to as usize
        };
        assert(self@ =~= paged(was, pages as int, page as nat));
    }

    /// The snippets the query earns, or none. `files` are the contents of the index
    /// files.
    ///
    /// **The "at least so many characters" gate lives here, not in the layout**: under
    /// it a term is in every transcript, and a match would say nothing.
    pub fn snippets(&self, files: &Vec<String>) -> (r: Table)
        ensures
            r@ == (if searching(self@) {
                index::snippets_of(text::texts(files@), index::query_of(self@.query))
            } else {
                Map::empty()
            }),
    {
        if !self.search || self.query.as_str().unicode_len() < self.src.search_min {
            return Table::new();
        }
        let q = Query::new(&self.query);
        index::snippets(&q, files)
    }

    /// Where the words you typed turn up in what a session said, for its preview.
    /// `file` is what its index file holds.
    pub fn hits(&self, file: Option<&str>, want: usize) -> (r: Vec<String>)
        ensures
            text::texts(r@) == (if searching(self@) {
                index::hits_in(
                    text::opt(file),
                    index::query_of(self@.query),
                    want as nat,
                ).map_values(|h: index::HitView| index::one_string(h))
            } else {
                Seq::empty()
            }),
    {
        if !self.search || self.query.as_str().unicode_len() < self.src.search_min {
            let none: Vec<String> = Vec::new();
            assert(text::texts(none@) =~= Seq::empty());
            return none;
        }
        let q = Query::new(&self.query);
        index::preview_match(file, &q, want)
    }

    /// Start holding a pane's row, before the restart takes its session away.
    pub fn hold(&mut self, id: &str, now: u64)
        ensures
            final(self)@ == (AppView {
                restarting: hold::holding(
                    old(self)@.restarting,
                    old(self)@.tsv,
                    id@,
                    now as int,
                ),
                ..old(self)@
            }),
            final(self).src == old(self).src,
    {
        hold_row(&mut self.restarting, &self.tsv, id, now);
    }

    /// What to do for fresh rows. One refresh at a time: they must not stack up on a
    /// machine where they take longer than the interval.
    pub fn start_refresh(&mut self, now: u64) -> (r: Ask)
        ensures
            (final(self)@, r) == asked(old(self)@, now),
            final(self).src == old(self).src,
    {
        if self.mode == Mode::Dead {
            Ask::Ended
        } else if self.pending.is_some() {
            Ask::Waiting
        } else {
            self.pending = Some(now);
            Ask::Scan
        }
    }

    /// Rows that were read here and now.
    pub fn fetch(&mut self, tsv: &str, now: u64)
        ensures
            final(self)@ == with_rows(old(self)@, tsv@, now as int),
            final(self).src == old(self).src,
    {
        let ghost was = self@;
        let rows = hold_restarting(&mut self.restarting, tsv, now);
        self.tsv = rows;
        assert(self@ =~= with_rows(was, tsv@, now as int));
    }

    /// Take a refresh that has landed: its rows, and the client as it saw it.
    pub fn take_refresh(&mut self, tsv: &str, client: Option<(String, (u16, u16))>, now: u64)
        ensures
            final(self)@ == (AppView {
                client: client_view(client),
                pending: None,
                ..with_rows(old(self)@, tsv@, now as int)
            }),
            final(self).src == old(self).src,
    {
        self.fetch(tsv, now);
        self.client = client;
        self.pending = None;
    }

    /// Forget a refresh that will never land, so that the next tick tries again.
    pub fn drop_refresh(&mut self)
        ensures
            final(self)@ == (AppView { pending: None, ..old(self)@ }),
            final(self).src == old(self).src,
    {
        self.pending = None;
    }

    /// Has a refresh been out long enough to be worth saying so on the border? Not from
    /// the first millisecond: every tick would flicker the label.
    pub fn refreshing(&self, now: u64) -> (r: bool)
        ensures
            r == (match self@.pending {
                Some(since) => now - since > WORTH_SAYING,
                None => false,
            }),
    {
        match self.pending {
            Some(since) => now > since && now - since > WORTH_SAYING,
            None => false,
        }
    }

    /// The first rows are on screen: put the cursor on the pane the picker was opened
    /// from, or, where that is no agent session, on the row nearest to it. After a
    /// reopen it goes back where it was instead.
    pub fn open(&mut self)
        requires
            sound(old(self)@),
        ensures
            opens(old(self)@, final(self)@),
            final(self).src == old(self).src,
            sound(final(self)@),
    {
        if self.opened {
            return;
        }
        let ghost was = self@;
        self.opened = true;
        let on = if self.src.state.on.as_str().is_empty() {
            self.src.cur.clone()
        } else {
            self.src.state.on.clone()
        };
        assert(on@ == opening_on(was));
        if !self.focus(&on) {
            self.focus_nearest();
        }
    }

    /// Could this popup usefully be bigger than it is, and may it be reopened?
    pub fn outgrew(&self, ours: (u16, u16), follow: bool) -> (r: bool)
        ensures
            r == (match self@.client {
                Some((_, size)) => follow && super::grown(ours, size, 2),
                None => false,
            }),
    {
        match &self.client {
            Some((_, size)) => follow && outgrown(ours, *size, 2),
            None => false,
        }
    }

    /// The count under the list: how many of the rows the query keeps.
    pub fn count(&self) -> (r: String)
        ensures
            r@ == " "@ + text::decimal(self@.view.len()) + "/"@ + text::decimal(self@.all.len())
                + " "@,
    {
        let mut s = " ".to_owned();
        let n = text::dec(self.view.len() as u64);
        s.append(&n);
        s.append("/");
        let m = text::dec(self.all.len() as u64);
        s.append(&m);
        s.append(" ");
        s
    }

    // -----------------------------------------------------------------------
    // The preview
    // -----------------------------------------------------------------------
    /// What the preview of the row under the cursor is made of. A cursor that has moved
    /// to another row takes no offset with it.
    pub fn wanted(&mut self) -> (r: Option<Wanted>)
        requires
            sound(old(self)@),
        ensures
            match under_cursor(old(self)@) {
                Some(row) => {
                    &&& r is Some
                    &&& r->0@ == preview::wanted_for(row, old(self)@.src.script is Some)
                    &&& final(self)@ == (if old(self)@.poff_for == row.pane_id {
                        old(self)@
                    } else {
                        AppView { poff: 0, poff_for: row.pane_id, ..old(self)@ }
                    })
                },
                None => r is None && final(self)@ == old(self)@,
            },
            final(self).src == old(self).src,
            sound(final(self)@),
    {
        let (w, id) = match self.selected() {
            None => {
                return None;
            },
            Some(row) => (
                preview::wanted(row, self.src.script.is_some()),
                row.pane_id.clone(),
            ),
        };
        if !same(&self.poff_for, &id) {
            self.poff = 0;
            self.poff_for = id;
        }
        Some(w)
    }

    /// Is the screen that was captured of a pane still fresh?
    pub fn fresh(&self, id: &str, ttl: u64, now: u64) -> (r: bool)
        ensures
            r == (match self@.shot {
                Some((of, at, _)) => of == id@ && now - at < ttl,
                None => false,
            }),
    {
        match &self.shot {
            Some(s) => same(&s.id, id) && (now < s.at || now - s.at < ttl),
            None => false,
        }
    }

    /// Keep a screen that was captured.
    pub fn keep_shot(&mut self, id: &str, screen: String, now: u64)
        ensures
            final(self)@ == (AppView { shot: Some((id@, now, screen@)), ..old(self)@ }),
            final(self).src == old(self).src,
    {
        self.shot = Some(Shot { id: id.to_owned(), at: now, text: screen });
    }

    /// The preview for the row under the cursor: its header, its body, and whether the
    /// body's default view sits at the bottom. `hits` is where the words you typed turn
    /// up, `is_file` whether a past conversation's key names a file, and `turns` the
    /// last things said in it.
    pub fn preview(&self, hits: &Vec<String>, is_file: bool, turns: &Vec<Turn>) -> (r: (
        Vec<Line>,
        Vec<Line>,
        bool,
    ))
        requires
            sound(self@),
        ensures
            (ansi::lines_view(r.0@), ansi::lines_view(r.1@), r.2) == previewed(
                self@,
                text::texts(hits@),
                is_file,
                agents::turns_view(turns@),
            ),
    {
        match self.selected() {
            None => {
                let none: Vec<Line> = Vec::new();
                let nobody: Vec<Line> = Vec::new();
                assert(ansi::lines_view(none@) =~= Seq::empty());
                assert(ansi::lines_view(nobody@) =~= Seq::empty());
                (none, nobody, false)
            },
            Some(row) => {
                let head = preview::head(hits, row);
                let w = preview::wanted(row, self.src.script.is_some());
                let screen: &str = match &self.shot {
                    Some(s) => s.text.as_str(),
                    None => "",
                };
                let (body, at_bottom) = preview::body(&w, is_file, turns, screen, self.width);
                (head, body, at_bottom)
            },
        }
    }

    /// The first line of the preview's body to show, in an area so many rows high. The
    /// offset is kept where it was stopped.
    pub fn scroll(&mut self, len: usize, height: u16, at_bottom: bool) -> (r: usize)
        requires
            len <= i64::MAX,
        ensures
            r == preview::first_shown(len as int, height as int, at_bottom, old(self)@.poff),
            final(self)@ == (AppView {
                poff: r - preview::base(len as int, height as int, at_bottom),
                ..old(self)@
            }),
            final(self).src == old(self).src,
    {
        let (start, off) = preview::scroll(len, height, at_bottom, self.poff);
        self.poff = off;
        start
    }

    // -----------------------------------------------------------------------
    // Events
    // -----------------------------------------------------------------------
    /// Pasted text joins the query, as far as its first line goes. It is one event,
    /// carrying its own text, with no way to mistake it for Enter.
    pub fn paste(&mut self, pasted_text: &str) -> (r: Next)
        requires
            sound(old(self)@),
        ensures
            (final(self)@, r@) == typed(
                old(self)@,
                old(self)@.query + text::split_on(pasted_text@, '\r', '\n')[0],
            ),
            final(self).src == old(self).src,
            sound(final(self)@),
    {
        let first = pasted(pasted_text);
        let mut q = self.query.clone();
        q.append(&first);
        self.query_changed(q)
    }

    /// The terminal is another size.
    pub fn resize(&mut self, columns: u16) -> (r: Next)
        ensures
            final(self)@ == (AppView {
                width: if columns >= 4 {
                    (columns - 4) as nat
                } else {
                    0
                },
                ..old(self)@
            }),
            final(self).src == old(self).src,
            r@ == NextView::Rebuild,
    {
        self.width = row_width(columns);
        Next::Rebuild
    }

    /// A left click.
    pub fn click(&mut self, y: u16, top: u16, offset: usize, now: u64) -> (r: Next)
        requires
            sound(old(self)@),
        ensures
            (final(self)@, r@) == clicked_at(old(self)@, y, top, offset as nat, now),
            final(self).src == old(self).src,
            sound(final(self)@),
    {
        let ghost was = self@;
        assert(was.view.len() == self.view@.len());
        if y < top {
            return Next::Draw;
        }
        let i: u128 = offset as u128 + (y - top) as u128;
        if i >= self.view.len() as u128 {
            return Next::Draw;
        }
        let again = match self.clicked {
            Some((row, at)) => row == y && (now < at || now - at < DOUBLE_CLICK),
            None => false,
        };
        self.sel = i as usize;
        self.clicked = Some((y, now));
        if again {
            match self.selected() {
                Some(r) => Next::Choose(r.pane_id.clone()),
                None => Next::Draw,
            }
        } else {
            Next::Draw
        }
    }

    fn ctrl(&mut self, c: char, now: u64) -> (r: Option<Next>)
        requires
            sound(old(self)@),
        ensures
            match r {
                Some(n) => ctrl_key(old(self)@, c, now as int) == Some((final(self)@, n@)),
                None => ctrl_key(old(self)@, c, now as int) is None && final(self)@ == old(self)@,
            },
            final(self).src == old(self).src,
            sound(final(self)@),
    {
        if c == 'c' || c == 'g' || c == 'q' {
            Some(Next::Leave)
        } else if c == 'n' || c == 'j' {
            self.move_by(1);
            Some(Next::Draw)
        } else if c == 'p' || c == 'k' {
            self.move_by(-1);
            Some(Next::Draw)
        } else if c == 'r' {
            Some(Next::Refresh)
        } else if c == 't' && self.src.searchable {
            self.search = !self.search;
            Some(Next::Rebuild)
        } else if c == 's' && self.mode == Mode::Dead {
            self.by_date = !self.by_date;
            Some(Next::Rebuild)
        } else if c == '/' || c == '_' || c == '\u{1f}' {
            self.preview = !self.preview;
            Some(Next::Draw)
        } else if c == 'u' {
            let none = String::new();
            assert(none@ =~= Seq::<char>::empty());
            Some(self.query_changed(none))
        } else if c == 'w' {
            Some(self.kill_word())
        } else if c == 'h' {
            Some(self.drop_char())
        } else if c == 'l' {
            Some(Next::Repaint)
        } else if c == 'x' || c == 'o' {
            let id = match self.selected() {
                Some(r) => r.pane_id.clone(),
                None => {
                    return Some(Next::Draw);
                },
            };
            if self.src.script.is_none() {
                Some(Next::Draw)
            } else if c == 'x' {
                self.hold(&id, now);
                Some(Next::Restart(id))
            } else {
                Some(Next::Handoff(id))
            }
        } else {
            None
        }
    }

    /// A key was pressed. `page` is the height the list was drawn at.
    pub fn press(&mut self, k: Key, page: usize, now: u64) -> (r: Next)
        requires
            sound(old(self)@),
        ensures
            (final(self)@, r@) == pressed(old(self)@, k, page as nat, now as int),
            final(self).src == old(self).src,
            sound(final(self)@),
    {
        match k.code {
            Code::Esc => Next::Leave,
            Code::Enter => match self.selected() {
                Some(r) => Next::Choose(r.pane_id.clone()),
                None => Next::Leave,
            },
            Code::Up => {
                if k.shift {
                    if self.poff > i64::MIN {
                        self.poff = self.poff - 1;
                    }
                } else {
                    self.move_by(-1);
                }
                Next::Draw
            },
            Code::Down => {
                if k.shift {
                    if self.poff < i64::MAX {
                        self.poff = self.poff + 1;
                    }
                } else {
                    self.move_by(1);
                }
                Next::Draw
            },
            Code::Home => {
                self.sel = 0;
                Next::Draw
            },
            Code::End => {
                self.sel = if self.view.len() == 0 {
                    0
                } else {
                    self.view.len() - 1
                };
                Next::Draw
            },
            Code::PageDown => {
                self.move_page(1, page);
                Next::Draw
            },
            Code::PageUp => {
                self.move_page(-1, page);
                Next::Draw
            },
            Code::BackTab => self.step_mode(true),
            Code::Tab => self.step_mode(k.shift),
            Code::Backspace => {
                if k.alt {
                    self.kill_word()
                } else {
                    self.drop_char()
                }
            },
            Code::F(n) => {
                if n == 8 && self.src.script.is_some() {
                    Next::Sweep
                } else {
                    Next::Draw
                }
            },
            Code::Char(c) => {
                if k.ctrl {
                    match self.ctrl(c, now) {
                        Some(n) => n,
                        None => Next::Draw,
                    }
                } else if k.alt {
                    Next::Draw
                } else {
                    let mut q = self.query.clone();
                    q.push(c);
                    self.query_changed(q)
                }
            },
            Code::Other => Next::Draw,
        }
    }

    /// How the picker ended: with a row chosen, with a request to be reopened at
    /// another size, or with neither.
    pub fn outcome(&self, chosen: Option<String>, outgrew: bool) -> (r: Outcome)
        requires
            sound(self@),
        ensures
            match chosen {
                Some(id) => r == Outcome::Chosen(id),
                None => if outgrew {
                    &&& r is Resize
                    &&& carried(self@, r->Resize_0)
                } else {
                    r == Outcome::Aborted
                },
            },
    {
        match chosen {
            Some(id) => Outcome::Chosen(id),
            None => {
                if !outgrew {
                    return Outcome::Aborted;
                }
                let on = match self.selected() {
                    Some(r) => r.pane_id.clone(),
                    None => {
                        let none = String::new();
                        assert(none@ =~= Seq::<char>::empty());
                        none
                    },
                };
                let client = match &self.client {
                    Some((tty, _)) => tty.clone(),
                    None => {
                        let none = String::new();
                        assert(none@ =~= Seq::<char>::empty());
                        none
                    },
                };
                Outcome::Resize(
                    State {
                        query: self.query.clone(),
                        mode: self.mode.key(),
                        search: self.search,
                        by_date: self.by_date,
                        preview: self.preview,
                        on,
                        client,
                    },
                )
            },
        }
    }
}

/// The preview of the row under the cursor.
pub open spec fn previewed(
    a: AppView,
    hits: Seq<Seq<char>>,
    is_file: bool,
    turns: Seq<agents::TurnView>,
) -> (Seq<Seq<ansi::SpanView>>, Seq<Seq<ansi::SpanView>>, bool) {
    match under_cursor(a) {
        None => (Seq::empty(), Seq::empty(), false),
        Some(row) => {
            let (body, at_bottom) = preview::body_of(
                preview::wanted_for(row, a.src.script is Some),
                is_file,
                turns,
                match a.shot {
                    Some((_, _, screen)) => screen,
                    None => ""@,
                },
                a.width as int,
            );
            (preview::head_of(hits, row), body, at_bottom)
        },
    }
}

/// Is it everything that has to be carried across a reopen?
pub open spec fn carried(a: AppView, s: State) -> bool {
    &&& s.query@ == a.query
    &&& s.mode@ == a.mode.word()
    &&& s.search == a.search
    &&& s.by_date == a.by_date
    &&& s.preview == a.preview
    &&& s.on@ == (match under_cursor(a) {
        Some(r) => r.pane_id,
        None => Seq::empty(),
    })
    &&& s.client@ == (match a.client {
        Some((tty, _)) => tty,
        None => Seq::empty(),
    })
}

// ---------------------------------------------------------------------------
// Laws
// ---------------------------------------------------------------------------
/// A row on and a row back is where the cursor was.
pub proof fn lemma_a_row_on_and_back(a: AppView)
    requires
        sound(a),
    ensures
        moved(moved(a, 1), -1) == a,
        moved(moved(a, -1), 1) == a,
{
    let n = a.view.len() as int;
    if n > 0 {
        vstd::arithmetic::div_mod::lemma_small_mod(a.sel as nat, n as nat);
        if a.sel + 1 < n {
            vstd::arithmetic::div_mod::lemma_small_mod((a.sel + 1) as nat, n as nat);
        } else {
            vstd::arithmetic::div_mod::lemma_mod_self_0(n);
            vstd::arithmetic::div_mod::lemma_mod_add_multiples_vanish(-1, n);
            vstd::arithmetic::div_mod::lemma_small_mod((n - 1) as nat, n as nat);
        }
        if a.sel > 0 {
            vstd::arithmetic::div_mod::lemma_small_mod((a.sel - 1) as nat, n as nat);
        } else {
            vstd::arithmetic::div_mod::lemma_mod_add_multiples_vanish(-1, n);
            vstd::arithmetic::div_mod::lemma_small_mod((n - 1) as nat, n as nat);
            vstd::arithmetic::div_mod::lemma_mod_self_0(n);
        }
    }
}

/// Laying the rows out again keeps the cursor on the session it was on, wherever that
/// stands now, as long as it is in the list.
pub proof fn lemma_the_cursor_stays_on_its_session(
    a: AppView,
    snips: Map<Seq<char>, Seq<char>>,
    ptitles: Map<Seq<char>, Seq<char>>,
)
    requires
        under_cursor(a) is Some,
        place_of(
            rebuilt(a, snips, ptitles).all,
            rebuilt(a, snips, ptitles).view,
            under_cursor(a)->0.pane_id,
            0,
        ) is Some,
    ensures
        under_cursor(rebuilt(a, snips, ptitles)) is Some,
        under_cursor(rebuilt(a, snips, ptitles))->0.pane_id == under_cursor(a)->0.pane_id,
{
    let b = rebuilt(a, snips, ptitles);
    lemma_place_of(b.all, b.view, under_cursor(a)->0.pane_id, 0);
}

proof fn lemma_place_of(all: Seq<rows::RowView>, view: Seq<int>, id: Seq<char>, i: int)
    requires
        0 <= i,
    ensures
        match place_of(all, view, id, i) {
            Some(k) => i <= k < view.len() && all[view[k]].pane_id == id,
            None => true,
        },
    decreases view.len() - i,
{
    if i < view.len() && all[view[i]].pane_id != id {
        lemma_place_of(all, view, id, i + 1);
    }
}

/// Nothing typed and nothing pasted ever leaves the picker or chooses a row.
pub proof fn lemma_text_never_chooses(a: AppView, query: Seq<char>)
    ensures
        typed(a, query).1 == NextView::Draw || typed(a, query).1 == NextView::Rebuild,
{
}

/// A row is chosen only with Enter or a second click, and it is the row under the
/// cursor.
pub proof fn lemma_only_enter_chooses(a: AppView, k: Key, page: nat, now: int)
    ensures
        pressed(a, k, page, now).1 is Choose ==> k.code == Code::Enter && under_cursor(a) is Some
            && pressed(a, k, page, now).1->Choose_0 == under_cursor(a)->0.pane_id,
{
}

/// The state a key held with ctrl leaves behind.
pub open spec fn after_ctrl(a: AppView, c: char, now: int) -> AppView {
    match ctrl_key(a, c, now) {
        Some((b, _)) => b,
        None => a,
    }
}

/// A key that toggles, pressed twice, leaves everything as it was.
pub proof fn lemma_a_toggle_undoes_itself(a: AppView, now: int)
    ensures
        a.mode == Mode::Dead ==> after_ctrl(after_ctrl(a, 's', now), 's', now) == a,
        a.src.searchable ==> after_ctrl(after_ctrl(a, 't', now), 't', now) == a,
        after_ctrl(after_ctrl(a, '/', now), '/', now) == a,
{
}

/// A reopened picker does what the one before it was doing.
pub proof fn lemma_a_reopen_carries_everything(a: AppView, s: State)
    requires
        carried(a, s),
    ensures
        super::mode_named(s.mode@) == a.mode,
        s.query@ == a.query,
        s.search == a.search,
        s.by_date == a.by_date,
        s.preview == a.preview,
{
    super::lemma_a_mode_comes_back_from_its_word(a.mode);
}

/// The arrows move the cursor by one row, down and up, and round the ends.
pub proof fn lemma_the_arrows_move_by_one(a: AppView, page: nat, now: int)
    requires
        a.view.len() > 0,
        0 <= a.sel < a.view.len(),
    ensures
        ({
            let down = Key { code: Code::Down, ctrl: false, alt: false, shift: false };
            let up = Key { code: Code::Up, ctrl: false, alt: false, shift: false };
            let n = a.view.len() as int;
            &&& a.sel < n - 1 ==> pressed(a, down, page, now).0 == (AppView { sel: a.sel + 1, ..a })
            &&& a.sel == n - 1 ==> pressed(a, down, page, now).0 == (AppView { sel: 0, ..a })
            &&& a.sel > 0 ==> pressed(a, up, page, now).0 == (AppView { sel: a.sel - 1, ..a })
            &&& a.sel == 0 ==> pressed(a, up, page, now).0 == (AppView { sel: n - 1, ..a })
            &&& pressed(a, down, page, now).1 is Draw
            &&& pressed(a, up, page, now).1 is Draw
        }),
{
    let n = a.view.len() as int;
    assert(a.sel < n - 1 ==> (a.sel + 1) % n == a.sel + 1) by (nonlinear_arith)
        requires
            0 <= a.sel < n,
    ;
    assert(a.sel == n - 1 ==> (a.sel + 1) % n == 0) by (nonlinear_arith)
        requires
            0 <= a.sel < n,
    ;
    assert(a.sel > 0 ==> (a.sel + -1) % n == a.sel - 1) by (nonlinear_arith)
        requires
            0 <= a.sel < n,
    ;
    assert(a.sel == 0 ==> (a.sel + -1) % n == n - 1) by (nonlinear_arith)
        requires
            0 <= a.sel < n,
    ;
}

/// A page moves the cursor by that many rows and stops at the ends; home and end go to
/// them.
pub proof fn lemma_a_page_stops_at_the_ends(a: AppView, k: Key, page: nat, now: int)
    requires
        a.view.len() > 0,
        0 <= a.sel < a.view.len(),
        page > 0,
    ensures
        ({
            let n = a.view.len() as int;
            let b = pressed(a, k, page, now).0;
            &&& k.code is PageDown ==> b.sel == (if a.sel + page < n {
                a.sel + page
            } else {
                n - 1
            })
            &&& k.code is PageUp ==> b.sel == (if a.sel >= page {
                a.sel - page
            } else {
                0
            })
            &&& k.code is Home ==> b.sel == 0
            &&& k.code is End ==> b.sel == n - 1
        }),
{
}

/// What is typed ends the query, what is rubbed out was its last character, and clearing
/// it leaves nothing of it; none of it changes the list that is shown.
pub proof fn lemma_typing_edits_the_query(a: AppView, c: char, page: nat, now: int)
    ensures
        ({
            let plain = Key { code: Code::Char(c), ctrl: false, alt: false, shift: false };
            let back = Key { code: Code::Backspace, ctrl: false, alt: false, shift: false };
            let clear = Key { code: Code::Char('u'), ctrl: true, alt: false, shift: false };
            let b = pressed(a, plain, page, now).0;
            &&& b.query == a.query.push(c)
            &&& b.mode == a.mode && b.all == a.all && b.tsv == a.tsv
            &&& pressed(b, back, page, now).0.query == a.query
            &&& a.query.len() == 0 ==> pressed(a, back, page, now).0.query == a.query
            &&& pressed(a, clear, page, now).0.query.len() == 0
        }),
{
    let plain = Key { code: Code::Char(c), ctrl: false, alt: false, shift: false };
    let b = pressed(a, plain, page, now).0;
    assert(b.query.drop_last() =~= a.query);
}

/// The last word of a query goes whole, and what stands before it stays.
pub proof fn lemma_the_last_word_goes_whole(
    before: Seq<char>,
    word: Seq<char>,
    a: AppView,
    page: nat,
    now: int,
)
    requires
        a.query == before + word,
        before.len() == 0 || text::is_space(before.last()),
        word.len() > 0,
        forall|i: int| 0 <= i < word.len() ==> !text::is_space(#[trigger] word[i]),
    ensures
        pressed(
            a,
            Key { code: Code::Char('w'), ctrl: true, alt: false, shift: false },
            page,
            now,
        ).0.query == before,
        pressed(
            a,
            Key { code: Code::Backspace, ctrl: false, alt: true, shift: false },
            page,
            now,
        ).0.query == before,
{
    let q = before + word;
    assert(q.last() == word[word.len() - 1]);
    assert(text::trimmed_end(q) == q);
    lemma_a_word_end_goes(before, word);
}

proof fn lemma_a_word_end_goes(before: Seq<char>, word: Seq<char>)
    requires
        before.len() == 0 || text::is_space(before.last()),
        forall|i: int| 0 <= i < word.len() ==> !text::is_space(#[trigger] word[i]),
    ensures
        without_word_end(before + word) == before,
    decreases word.len(),
{
    let q = before + word;
    if word.len() == 0 {
        assert(q =~= before);
    } else {
        assert(q.last() == word[word.len() - 1]);
        assert(q.drop_last() =~= before + word.drop_last());
        lemma_a_word_end_goes(before, word.drop_last());
    }
}

/// Each key that acts on a session acts on the one under the cursor: enter goes to it,
/// ctrl-x restarts it, ctrl-o hands it on; and where no session is, none does.
pub proof fn lemma_keys_act_on_the_row_under_the_cursor(a: AppView, page: nat, now: int)
    requires
        a.src.script is Some,
    ensures
        ({
            let enter = Key { code: Code::Enter, ctrl: false, alt: false, shift: false };
            let restart = Key { code: Code::Char('x'), ctrl: true, alt: false, shift: false };
            let hand = Key { code: Code::Char('o'), ctrl: true, alt: false, shift: false };
            let here = 0 <= a.sel < a.view.len();
            let id = a.all[a.view[a.sel]].pane_id;
            &&& here ==> pressed(a, enter, page, now).1 == NextView::Choose(id)
            &&& here ==> pressed(a, restart, page, now).1 == NextView::Restart(id)
            &&& here ==> pressed(a, hand, page, now).1 == NextView::Handoff(id)
            &&& !here ==> pressed(a, enter, page, now).1 is Leave && pressed(
                a,
                restart,
                page,
                now,
            ).1 is Draw && pressed(a, hand, page, now).1 is Draw
        }),
{
}

/// Which key does what else: escape leaves, tab steps through the lists and asks again,
/// f8 sweeps, ctrl-r asks again, ctrl-t turns the search of what was said on and off,
/// ctrl-s the order by date in the list of past sessions, and ctrl-/ the preview.
pub proof fn lemma_what_the_other_keys_do(a: AppView, page: nat, now: int)
    ensures
        ({
            let held = |c: char| Key { code: Code::Char(c), ctrl: true, alt: false, shift: false };
            let bare = |c: Code| Key { code: c, ctrl: false, alt: false, shift: false };
            let outdated = a.src.newver.len() > 0;
            &&& pressed(a, bare(Code::Esc), page, now) == (a, NextView::Leave)
            &&& pressed(a, held('c'), page, now) == (a, NextView::Leave)
            &&& pressed(a, held('r'), page, now) == (a, NextView::Refresh)
            &&& pressed(a, bare(Code::Tab), page, now) == (
                AppView { mode: super::forward(a.mode, a.src.ended, outdated), ..a },
                NextView::RebuildAndRefresh,
            )
            &&& pressed(a, bare(Code::BackTab), page, now) == (
                AppView { mode: super::backward(a.mode, a.src.ended, outdated), ..a },
                NextView::RebuildAndRefresh,
            )
            &&& a.src.script is Some ==> pressed(a, bare(Code::F(8)), page, now) == (
                a,
                NextView::Sweep,
            )
            &&& a.src.searchable ==> pressed(a, held('t'), page, now) == (
                AppView { search: !a.search, ..a },
                NextView::Rebuild,
            )
            &&& a.mode == Mode::Dead ==> pressed(a, held('s'), page, now) == (
                AppView { by_date: !a.by_date, ..a },
                NextView::Rebuild,
            )
            &&& pressed(a, held('/'), page, now) == (
                AppView { preview: !a.preview, ..a },
                NextView::Draw,
            )
        }),
{
}

/// A click puts the cursor on the row it falls on, and on no other; a second one on the
/// same line within the time of a double click goes to that session.
pub proof fn lemma_a_click_lands_on_its_row(
    a: AppView,
    y: u16,
    top: u16,
    offset: nat,
    now: u64,
    again: u64,
)
    requires
        y >= top,
        offset + (y - top) < a.view.len(),
        now <= again,
        again - now < 400,
    ensures
        ({
            let i = offset + (y - top);
            let (b, _) = clicked_at(a, y, top, offset, now);
            let (c, next) = clicked_at(b, y, top, offset, again);
            &&& b.sel == i
            &&& c.sel == i
            &&& next == NextView::Choose(a.all[a.view[i]].pane_id)
            &&& a.clicked is None ==> clicked_at(a, y, top, offset, now).1 is Draw
        }),
{
}

/// Each list holds the rows of its own state: the one of those that wait, the one of those
/// that work, the one of those that are idle; the one of all and the one of what has ended
/// are not narrowed by state, and the one of what is outdated is by its version.
pub proof fn lemma_each_list_has_its_state(
    a: AppView,
    snips: Map<Seq<char>, Seq<char>>,
    ptitles: Map<Seq<char>, Seq<char>>,
)
    ensures
        ({
            let l = layout_of(a, snips, ptitles);
            &&& a.mode == Mode::Input ==> l.only == "input"@
            &&& a.mode == Mode::Run ==> l.only == "run"@
            &&& a.mode == Mode::Idle ==> l.only == "idle"@
            &&& a.mode == Mode::All || a.mode == Mode::Outdated || a.mode == Mode::Dead ==> l.only
                == ""@
            &&& l.outdated == (a.mode == Mode::Outdated)
            &&& l.cur == a.src.cur && l.width == a.width && l.home == a.src.home && l.newver
                == a.src.newver && l.agent == a.src.agent && l.query == a.query && l.snips == snips
                && l.ptitles == ptitles
        }),
{
}

/// The list of past sessions is read and not scanned for, and a scan is not asked for
/// while one is out.
pub proof fn lemma_one_scan_at_a_time(a: AppView, now: u64)
    ensures
        a.mode == Mode::Dead ==> asked(a, now) == (a, Ask::Ended),
        a.mode != Mode::Dead && a.pending is Some ==> asked(a, now) == (a, Ask::Waiting),
        a.mode != Mode::Dead && a.pending is None ==> asked(a, now).1 is Scan && asked(
            a,
            now,
        ).0.pending == Some(now) && asked(asked(a, now).0, now).1 is Waiting,
{
}

/// The picker opens on the pane it was opened from, where that is a session, and after a
/// reopen on the session it was on; it opens once.
pub proof fn lemma_the_picker_opens_where_it_was_called(a: AppView, b: AppView, i: int)
    requires
        opens(a, b),
        !a.opened,
        0 <= i < a.view.len(),
        a.all[a.view[i]].pane_id == (if a.src.state.on.len() == 0 {
            a.src.cur
        } else {
            a.src.state.on
        }),
        forall|j: int|
            0 <= j < i ==> (#[trigger] a.all[a.view[j]]).pane_id != a.all[a.view[i]].pane_id,
    ensures
        b.sel == i,
        b.opened,
        forall|c: AppView| #[trigger] opens(b, c) ==> c == b,
{
    lemma_first_place(a.all, a.view, a.all[a.view[i]].pane_id, 0, i);
}

proof fn lemma_first_place(all: Seq<rows::RowView>, view: Seq<int>, id: Seq<char>, from: int, i: int)
    requires
        0 <= from <= i < view.len(),
        all[view[i]].pane_id == id,
        forall|j: int| from <= j < i ==> (#[trigger] all[view[j]]).pane_id != id,
    ensures
        place_of(all, view, id, from) == Some(i),
    decreases i - from,
{
    if from < i {
        assert(all[view[from]].pane_id != id);
        lemma_first_place(all, view, id, from + 1, i);
    }
}

/// Rows that came in are the rows that are shown, where no restart is in flight.
pub proof fn lemma_new_rows_are_taken(a: AppView, tsv: Seq<char>, now: int)
    requires
        a.restarting.len() == 0,
    ensures
        with_rows(a, tsv, now).tsv == tsv,
        with_rows(a, tsv, now).restarting.len() == 0,
        with_rows(a, tsv, now).query == a.query && with_rows(a, tsv, now).mode == a.mode && with_rows(
            a,
            tsv,
            now,
        ).sel == a.sel,
{
}

/// What was said is searched where that is turned on and enough has been typed.
pub proof fn lemma_when_what_was_said_is_searched(a: AppView)
    ensures
        searching(a) <==> a.search && a.query.len() >= a.src.search_min,
{
}

/// A row is drawn cell by cell, each with its text, in order.
pub proof fn lemma_a_row_is_drawn_cell_by_cell(row: rows::RowView, i: int)
    requires
        0 <= i < row.cells.len(),
    ensures
        drawn_row(row).len() == row.cells.len(),
        drawn_row(row)[i].content == row.cells[i].text,
        drawn_row(row)[i].style == rows::paint_style(row.cells[i].paint),
{
}

/// The preview is of the row under the cursor: its head names that row's place, and where
/// there is no row there is no preview.
pub proof fn lemma_the_preview_is_of_the_row_under_the_cursor(
    a: AppView,
    hits: Seq<Seq<char>>,
    is_file: bool,
    turns: Seq<agents::TurnView>,
)
    ensures
        0 <= a.sel < a.view.len() ==> previewed(a, hits, is_file, turns).0 == preview::head_of(
            hits,
            a.all[a.view[a.sel]],
        ),
        !(0 <= a.sel < a.view.len()) ==> previewed(a, hits, is_file, turns).0.len() == 0
            && previewed(a, hits, is_file, turns).1.len() == 0,
{
}

} // verus!
