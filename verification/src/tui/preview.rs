//! The preview of the row under the cursor: a header saying exactly where the
//! session is, and the body to show under it.
//!
//! The two are built apart so the header can be PINNED while the body scrolls. A
//! live pane's body is anchored at the BOTTOM, because what a session is doing is
//! the last thing on its screen, while a past conversation reads from the top.
use vstd::prelude::*;

use super::unpadded;
use crate::agents;
use crate::agents::Turn;
use crate::ansi;
use crate::ansi::{Color, Line, Modifier, Span, Style};
use crate::index;
use crate::rows;
use crate::rows::Row;
use crate::text;
use crate::text::{same, starts_with, take_chars};
use crate::tmux;

verus! {

// ---------------------------------------------------------------------------
// Lines of text
// ---------------------------------------------------------------------------
pub open spec fn styled(content: Seq<char>, style: Style) -> ansi::SpanView {
    ansi::SpanView { content, style }
}

pub open spec fn coloured(c: Color) -> Style {
    Style { fg: Some(c), ..ansi::no_style() }
}

pub open spec fn dim() -> Style {
    ansi::no_style().with(Modifier { dim: true, ..ansi::no_modifier() })
}

pub open spec fn bold_cyan() -> Style {
    coloured(Color::Cyan).with(Modifier { bold: true, ..ansi::no_modifier() })
}

fn span(content: &str, style: Style) -> (r: Span)
    ensures
        r@ == styled(content@, style),
{
    Span { content: content.to_owned(), style }
}

fn colour(c: Color) -> (r: Style)
    ensures
        r == coloured(c),
{
    Style::default().fg(c)
}

fn dimmed() -> (r: Style)
    ensures
        r == dim(),
{
    let mut m = Modifier::none();
    m.dim = true;
    Style::default().add_modifier(m)
}

fn bright() -> (r: Style)
    ensures
        r == bold_cyan(),
{
    let mut m = Modifier::none();
    m.bold = true;
    Style::default().fg(Color::Cyan).add_modifier(m)
}

fn one(a: Span) -> (r: Line)
    ensures
        r@ == seq![a@],
{
    let mut spans: Vec<Span> = Vec::new();
    let ghost av = a@;
    spans.push(a);
    let r = Line { spans };
    assert(r@ =~= seq![av]);
    r
}

fn two(a: Span, b: Span) -> (r: Line)
    ensures
        r@ == seq![a@, b@],
{
    let mut spans: Vec<Span> = Vec::new();
    let ghost av = a@;
    let ghost bv = b@;
    spans.push(a);
    spans.push(b);
    let r = Line { spans };
    assert(r@ =~= seq![av, bv]);
    r
}

fn three(a: Span, b: Span, c: Span) -> (r: Line)
    ensures
        r@ == seq![a@, b@, c@],
{
    let mut spans: Vec<Span> = Vec::new();
    let ghost av = a@;
    let ghost bv = b@;
    let ghost cv = c@;
    spans.push(a);
    spans.push(b);
    spans.push(c);
    let r = Line { spans };
    assert(r@ =~= seq![av, bv, cv]);
    r
}

fn empty_line() -> (r: Line)
    ensures
        r@ == Seq::<ansi::SpanView>::empty(),
{
    let r = Line { spans: Vec::new() };
    assert(r@ =~= Seq::<ansi::SpanView>::empty());
    r
}

fn push_line(out: &mut Vec<Line>, l: Line)
    ensures
        ansi::lines_view(final(out)@) == ansi::lines_view(old(out)@).push(l@),
{
    let ghost was = ansi::lines_view(out@);
    let ghost lv = l@;
    out.push(l);
    assert(ansi::lines_view(out@) =~= was.push(lv));
}

// ---------------------------------------------------------------------------
// The header
// ---------------------------------------------------------------------------
/// A line for each place the words you typed turn up, and an empty one behind them.
pub open spec fn hit_lines(hits: Seq<Seq<char>>) -> Seq<Seq<ansi::SpanView>> {
    hits.map_values(
        |h: Seq<char>|
            seq![styled("⌕ "@, coloured(Color::Yellow)), styled(h, ansi::no_style())],
    ) + (if hits.len() > 0 {
        seq![Seq::<ansi::SpanView>::empty()]
    } else {
        Seq::empty()
    })
}

/// Exactly where the session is.
pub open spec fn place_lines(target: Seq<char>, cwd: Seq<char>) -> Seq<Seq<ansi::SpanView>> {
    seq![
        seq![
            styled(target, bold_cyan()),
            styled("   "@, ansi::no_style()),
            styled(cwd, dim()),
        ],
        seq![styled(tmux::RULE@, coloured(Color::DarkGray))],
        Seq::empty(),
    ]
}

pub open spec fn head_of(hits: Seq<Seq<char>>, row: rows::RowView) -> Seq<Seq<ansi::SpanView>> {
    hit_lines(hits) + place_lines(row.target, row.cwd)
}

/// The header: where the words you typed turn up in what the session said, and where
/// the session is.
pub fn head(hits: &Vec<String>, row: &Row) -> (r: Vec<Line>)
    ensures
        ansi::lines_view(r@) == head_of(text::texts(hits@), row@),
{
    let ghost hs = text::texts(hits@);
    let mut out: Vec<Line> = Vec::new();
    let mut i: usize = 0;
    while i < hits.len()
        invariant
            i <= hits@.len(),
            hs == text::texts(hits@),
            out@.len() == i,
            forall|k: int| 0 <= k < i ==> (#[trigger] out@[k])@ == hit_lines(hs)[k],
        decreases hits@.len() - i,
    {
        assert(hs[i as int] == hits@[i as int]@);
        let l = two(span("⌕ ", colour(Color::Yellow)), span(&hits[i], Style::default()));
        out.push(l);
        i = i + 1;
    }
    if hits.len() > 0 {
        out.push(empty_line());
    }
    assert(ansi::lines_view(out@) =~= hit_lines(hs));
    let l = three(
        span(&row.target, bright()),
        span("   ", Style::default()),
        span(&row.cwd, dimmed()),
    );
    push_line(&mut out, l);
    push_line(&mut out, one(span(tmux::RULE, colour(Color::DarkGray))));
    push_line(&mut out, empty_line());
    assert(ansi::lines_view(out@) =~= head_of(hs, row@));
    out
}

// ---------------------------------------------------------------------------
// The body
// ---------------------------------------------------------------------------
/// What the body is made of.
#[derive(Debug, PartialEq, Eq)]
pub enum Wanted {
    /// The list of past conversations is still being built.
    Building,
    /// The row names no conversation.
    Unnamed,
    /// The last things said in a past conversation.
    Past { agent: String, key: String },
    /// A session on a host that there is nothing to ask with.
    Unasked { host: String },
    /// The screen of a session on another host, which has to be asked for there.
    Remote { id: String },
    /// The screen of a session here.
    Live { id: String },
}

#[verifier::ext_equal]
pub enum WantedView {
    Building,
    Unnamed,
    Past { agent: Seq<char>, key: Seq<char> },
    Unasked { host: Seq<char> },
    Remote { id: Seq<char> },
    Live { id: Seq<char> },
}

impl View for Wanted {
    type V = WantedView;

    open spec fn view(&self) -> WantedView {
        match self {
            Wanted::Building => WantedView::Building,
            Wanted::Unnamed => WantedView::Unnamed,
            Wanted::Past { agent, key } => WantedView::Past { agent: agent@, key: key@ },
            Wanted::Unasked { host } => WantedView::Unasked { host: host@ },
            Wanted::Remote { id } => WantedView::Remote { id: id@ },
            Wanted::Live { id } => WantedView::Live { id: id@ },
        }
    }
}

/// What the body of a row's preview is made of. A screen can only be captured where
/// the pane IS, so a session on another host renders its own, which takes a script to
/// ask it.
pub open spec fn wanted_for(row: rows::RowView, script: bool) -> WantedView {
    if "dead:"@.is_prefix_of(row.pane_id) {
        if row.pane_id == "dead:!"@ {
            WantedView::Building
        } else {
            match index::past_parts(row.pane_id) {
                Some((agent, key)) => WantedView::Past { agent, key },
                None => WantedView::Unnamed,
            }
        }
    } else if row.host.len() > 0 {
        if script {
            WantedView::Remote { id: row.pane_id }
        } else {
            WantedView::Unasked { host: row.host }
        }
    } else {
        WantedView::Live { id: row.pane_id }
    }
}

pub fn wanted(row: &Row, script: bool) -> (r: Wanted)
    ensures
        r@ == wanted_for(row@, script),
{
    if starts_with(&row.pane_id, "dead:") {
        if same(&row.pane_id, "dead:!") {
            Wanted::Building
        } else {
            match index::split_past_id(&row.pane_id) {
                Some((agent, key)) => Wanted::Past { agent, key },
                None => Wanted::Unnamed,
            }
        }
    } else if !row.host.as_str().is_empty() {
        if script {
            Wanted::Remote { id: row.pane_id.clone() }
        } else {
            Wanted::Unasked { host: row.host.clone() }
        }
    } else {
        Wanted::Live { id: row.pane_id.clone() }
    }
}

/// One line of note.
pub open spec fn note(s: Seq<char>, c: Color) -> Seq<Seq<ansi::SpanView>> {
    seq![seq![styled(s, coloured(c))]]
}

/// Two lines' worth of characters.
pub open spec fn room(width: int) -> int {
    (if width > 20 {
        width
    } else {
        20
    }) * 2
}

pub open spec fn capped(s: Seq<char>, cap: int) -> Seq<char> {
    if s.len() > cap {
        s.take(cap) + "…"@
    } else {
        s
    }
}

/// One turn and an empty line.
pub open spec fn turn_lines(t: agents::TurnView, cap: int) -> Seq<Seq<ansi::SpanView>> {
    let style = if t.you {
        bold_cyan()
    } else {
        dim()
    };
    let mark = if t.you {
        "❯ "@
    } else {
        "  "@
    };
    seq![seq![styled(mark, style), styled(capped(t.text, cap), style)], Seq::empty()]
}

pub open spec fn all_turns(ts: Seq<agents::TurnView>, cap: int) -> Seq<Seq<ansi::SpanView>>
    decreases ts.len(),
{
    if ts.len() == 0 {
        Seq::empty()
    } else {
        all_turns(ts.drop_last(), cap) + turn_lines(ts.last(), cap)
    }
}

/// The last things said, or what stands in for them.
pub open spec fn past_lines(
    key: Seq<char>,
    is_file: bool,
    ts: Seq<agents::TurnView>,
    width: int,
) -> Seq<Seq<ansi::SpanView>> {
    if key.len() > 0 && key[0] == '/' && !is_file {
        note("this conversation is no longer on disk"@, Color::Red)
    } else if ts.len() == 0 {
        note("(nothing was said in this one)"@, Color::DarkGray)
    } else {
        all_turns(ts, room(width))
    }
}

/// The whole of a captured screen, its padding trimmed.
pub open spec fn screen_lines(screen: Seq<char>) -> Seq<Seq<ansi::SpanView>> {
    super::without_padding(ansi::drawn(text::lines_of(screen), 0, ansi::no_style()))
}

/// The body, and whether its default view sits at the bottom.
pub open spec fn body_of(
    w: WantedView,
    is_file: bool,
    ts: Seq<agents::TurnView>,
    screen: Seq<char>,
    width: int,
) -> (Seq<Seq<ansi::SpanView>>, bool) {
    match w {
        WantedView::Building => (note("the list is still being built"@, Color::DarkGray), false),
        WantedView::Unnamed => (
            note("that row does not name a conversation"@, Color::Red),
            false,
        ),
        WantedView::Past { agent, key } => (past_lines(key, is_file, ts, width), false),
        WantedView::Unasked { host } => (
            note("on "@ + host + ": no taimux to ask"@, Color::DarkGray),
            false,
        ),
        WantedView::Remote { id } => (screen_lines(screen), true),
        WantedView::Live { id } => (screen_lines(screen), true),
    }
}

fn noted(s: &str, c: Color) -> (r: Vec<Line>)
    ensures
        ansi::lines_view(r@) == note(s@, c),
{
    let mut out: Vec<Line> = Vec::new();
    assert(ansi::lines_view(out@) =~= Seq::empty());
    push_line(&mut out, one(span(s, colour(c))));
    assert(ansi::lines_view(out@) =~= note(s@, c));
    out
}

fn cap_to(s: &str, width: usize) -> (r: String)
    ensures
        r@ == capped(s@, room(width as int)),
{
    let cap: u128 = if width > 20 {
        width as u128 * 2
    } else {
        40
    };
    let n: usize = s.unicode_len();
    if n as u128 > cap {
        let mut t = take_chars(s, cap as usize);
        t.append("…");
        t
    } else {
        s.to_owned()
    }
}

fn past(key: &str, is_file: bool, turns: &Vec<Turn>, width: usize) -> (r: Vec<Line>)
    ensures
        ansi::lines_view(r@) == past_lines(
            key@,
            is_file,
            agents::turns_view(turns@),
            width as int,
        ),
{
    let ghost ts = agents::turns_view(turns@);
    assert(ts.len() == turns@.len());
    let k = text::chars_of(key);
    if k.len() > 0 && k[0] == '/' && !is_file {
        return noted("this conversation is no longer on disk", Color::Red);
    }
    if turns.len() == 0 {
        return noted("(nothing was said in this one)", Color::DarkGray);
    }
    let ghost cap = room(width as int);
    let mut out: Vec<Line> = Vec::new();
    let mut i: usize = 0;
    assert(ansi::lines_view(out@) =~= all_turns(ts.take(0), cap));
    while i < turns.len()
        invariant
            i <= turns@.len(),
            ts == agents::turns_view(turns@),
            cap == room(width as int),
            ansi::lines_view(out@) == all_turns(ts.take(i as int), cap),
        decreases turns@.len() - i,
    {
        assert(ts.take(i + 1).drop_last() =~= ts.take(i as int));
        assert(ts.take(i + 1).last() == turns@[i as int]@);
        let t = &turns[i];
        let what = cap_to(&t.text, width);
        let style = if t.you {
            bright()
        } else {
            dimmed()
        };
        let mark: &str = if t.you {
            "❯ "
        } else {
            "  "
        };
        let ghost was = ansi::lines_view(out@);
        push_line(&mut out, two(span(mark, style), span(&what, style)));
        push_line(&mut out, empty_line());
        assert(ansi::lines_view(out@) =~= was + turn_lines(t@, cap));
        i = i + 1;
    }
    assert(ts.take(ts.len() as int) =~= ts);
    out
}

/// The body to show, and whether its default view sits at the bottom: `is_file` says
/// whether a past conversation's key names a file, `turns` are the last things said
/// in it, and `screen` is what was captured of a live one.
pub fn body(w: &Wanted, is_file: bool, turns: &Vec<Turn>, screen: &str, width: usize) -> (r: (
    Vec<Line>,
    bool,
))
    ensures
        (ansi::lines_view(r.0@), r.1) == body_of(
            w@,
            is_file,
            agents::turns_view(turns@),
            screen@,
            width as int,
        ),
{
    match w {
        Wanted::Building => (noted("the list is still being built", Color::DarkGray), false),
        Wanted::Unnamed => (noted("that row does not name a conversation", Color::Red), false),
        Wanted::Past { agent: _, key } => (past(key, is_file, turns, width), false),
        Wanted::Unasked { host } => {
            let mut s = "on ".to_owned();
            s.append(host);
            s.append(": no taimux to ask");
            (noted(&s, Color::DarkGray), false)
        },
        Wanted::Remote { id: _ } => (unpadded(screen), true),
        Wanted::Live { id: _ } => (unpadded(screen), true),
    }
}

// ---------------------------------------------------------------------------
// Scrolling
// ---------------------------------------------------------------------------
/// How many lines of a body are past what is shown of it.
pub open spec fn beyond(len: int, height: int) -> int {
    if len > height {
        len - height
    } else {
        0
    }
}

/// Where the body's default view begins.
pub open spec fn base(len: int, height: int, at_bottom: bool) -> int {
    if at_bottom {
        beyond(len, height)
    } else {
        0
    }
}

/// A place no further than the ends.
pub open spec fn clamped(n: int, most: int) -> int {
    if n < 0 {
        0
    } else if n > most {
        most
    } else {
        n
    }
}

/// The first line of the body to show, that many from its default view.
pub open spec fn first_shown(len: int, height: int, at_bottom: bool, off: int) -> int {
    clamped(base(len, height, at_bottom) + off, beyond(len, height))
}

/// Where the window sits in the body, and how far that is from its default view:
/// `off` lines away from it, negative towards the start, no further than either end.
///
/// The offset that is handed back is the one to keep, or it accumulates past the end
/// of the body.
pub fn scroll(len: usize, height: u16, at_bottom: bool, off: i64) -> (r: (usize, i64))
    requires
        len <= i64::MAX,
    ensures
        r.0 == first_shown(len as int, height as int, at_bottom, off as int),
        r.1 == r.0 - base(len as int, height as int, at_bottom),
{
    let h: usize = height as usize;
    let most: usize = if len > h {
        len - h
    } else {
        0
    };
    let from: i64 = if at_bottom {
        most as i64
    } else {
        0
    };
    let want: i128 = from as i128 + off as i128;
    let start: usize = if want < 0 {
        0
    } else if want > most as i128 {
        most
    } else {
        want as usize
    };
    (start, start as i64 - from)
}

/// Scrolling stops at either end: what is shown is always inside the body, and the
/// offset that is kept shows the same lines again.
pub proof fn lemma_scrolling_stops_at_the_ends(len: int, height: int, at_bottom: bool, off: int)
    requires
        0 <= len,
        0 <= height,
    ensures
        0 <= first_shown(len, height, at_bottom, off) <= beyond(len, height),
        first_shown(
            len,
            height,
            at_bottom,
            first_shown(len, height, at_bottom, off) - base(len, height, at_bottom),
        ) == first_shown(len, height, at_bottom, off),
{
}

/// What is previewed of a row is what the row is: a session of this server its own screen,
/// a session of another host that host's answer where it can be asked, and a past
/// conversation what was said in it.
pub proof fn lemma_a_row_is_previewed_as_what_it_is(
    row: rows::RowView,
    script: bool,
    agent: Seq<char>,
    key: Seq<char>,
)
    ensures
        row.pane_id.len() > 0 && row.pane_id[0] == '%' && row.host.len() == 0 ==> wanted_for(
            row,
            script,
        ) == (WantedView::Live { id: row.pane_id }),
        row.pane_id.len() > 0 && row.pane_id[0] != 'd' && row.host.len() > 0 && script
            ==> wanted_for(row, script) == (WantedView::Remote { id: row.pane_id }),
        row.pane_id.len() > 0 && row.pane_id[0] != 'd' && row.host.len() > 0 && !script
            ==> wanted_for(row, script) == (WantedView::Unasked { host: row.host }),
        row.pane_id == index::past(agent, key) && index::past_parts(row.pane_id) == Some(
            (agent, key),
        ) && row.pane_id != "dead:!"@ ==> wanted_for(row, script) == (WantedView::Past {
            agent,
            key,
        }),
{
    reveal_strlit("dead:");
    if "dead:"@.is_prefix_of(row.pane_id) {
        assert(row.pane_id[0] == "dead:"@[0]);
    }
    if row.pane_id == index::past(agent, key) {
        assert(row.pane_id.subrange(0, "dead:"@.len() as int) =~= "dead:"@);
    }
}

/// The preview of a row names where it is: its target and its directory stand on one line
/// of the head, under the hits.
pub proof fn lemma_the_head_names_the_place(hits: Seq<Seq<char>>, row: rows::RowView)
    ensures
        ({
            let head = head_of(hits, row);
            let at = if hits.len() > 0 {
                hits.len() + 1
            } else {
                0
            };
            &&& head.len() == at + 3
            &&& head[at as int][0].content == row.target
            &&& head[at as int][2].content == row.cwd
            &&& forall|i: int|
                0 <= i < hits.len() ==> (#[trigger] head[i]).len() == 2 && head[i][0].content
                    == "⌕ "@ && head[i][1].content == hits[i]
        }),
{
}

/// What was asked and what was answered are told apart by a mark, and each is given whole
/// where it is no longer than twice the width.
pub proof fn lemma_a_turn_is_marked(t: agents::TurnView, width: int)
    requires
        width >= 20,
        t.text.len() <= 2 * width,
    ensures
        ({
            let l = turn_lines(t, room(width));
            &&& l.len() == 2
            &&& l[0].len() == 2
            &&& l[0][0].content == (if t.you {
                "❯ "@
            } else {
                "  "@
            })
            &&& l[0][1].content == t.text
            &&& l[1].len() == 0
        }),
{
}

/// Every turn of a past conversation is in its preview, in order, two lines each.
pub proof fn lemma_every_turn_is_previewed(ts: Seq<agents::TurnView>, cap: int, i: int)
    requires
        0 <= i < ts.len(),
    ensures
        all_turns(ts, cap).len() == 2 * ts.len(),
        all_turns(ts, cap)[2 * i] == turn_lines(ts[i], cap)[0],
    decreases ts.len(),
{
    let front = ts.drop_last();
    lemma_turns_count(front, cap);
    if i < ts.len() - 1 {
        lemma_every_turn_is_previewed(front, cap, i);
        assert(front[i] == ts[i]);
    }
}

proof fn lemma_turns_count(ts: Seq<agents::TurnView>, cap: int)
    ensures
        all_turns(ts, cap).len() == 2 * ts.len(),
    decreases ts.len(),
{
    if ts.len() > 0 {
        lemma_turns_count(ts.drop_last(), cap);
    }
}

/// A preview opens on the end of a screen and on the start of a conversation, and scrolls
/// by one line at a time in between.
pub proof fn lemma_where_a_preview_opens(len: int, height: int, off: int)
    requires
        0 <= height < len,
    ensures
        first_shown(len, height, true, 0) == len - height,
        first_shown(len, height, false, 0) == 0,
        0 <= off < len - height ==> first_shown(len, height, false, off + 1) == first_shown(
            len,
            height,
            false,
            off,
        ) + 1,
        height - len < off <= 0 ==> first_shown(len, height, true, off - 1) == first_shown(
            len,
            height,
            true,
            off,
        ) - 1,
{
}

/// A past conversation that is gone or in which nothing was said says so, and any other is
/// shown by its turns.
pub proof fn lemma_a_past_conversation_is_shown_by_its_turns(
    agent: Seq<char>,
    key: Seq<char>,
    is_file: bool,
    ts: Seq<agents::TurnView>,
    screen: Seq<char>,
    width: int,
)
    ensures
        ({
            let (body, at_bottom) = body_of(
                WantedView::Past { agent, key },
                is_file,
                ts,
                screen,
                width,
            );
            let gone = key.len() > 0 && key[0] == '/' && !is_file;
            &&& !at_bottom
            &&& gone ==> body.len() == 1 && body[0][0].content
                == "this conversation is no longer on disk"@
            &&& !gone && ts.len() == 0 ==> body.len() == 1 && body[0][0].content
                == "(nothing was said in this one)"@
            &&& !gone && ts.len() > 0 ==> body == all_turns(
                ts,
                2 * (if width > 20 {
                    width
                } else {
                    20
                }),
            )
        }),
        ({
            let (body, at_bottom) = body_of(WantedView::Building, is_file, ts, screen, width);
            body[0][0].content == "the list is still being built"@ && !at_bottom
        }),
{
}

/// A session that runs is shown by its screen, from the bottom, here and on another host.
pub proof fn lemma_a_live_session_is_shown_by_its_screen(
    id: Seq<char>,
    is_file: bool,
    ts: Seq<agents::TurnView>,
    screen: Seq<char>,
    width: int,
)
    ensures
        body_of(WantedView::Live { id }, is_file, ts, screen, width) == (screen_lines(screen), true),
        body_of(WantedView::Remote { id }, is_file, ts, screen, width) == (
            screen_lines(screen),
            true,
        ),
{
}

/// A row that names no conversation and a host that cannot be asked say so.
pub proof fn lemma_a_row_without_a_preview_says_so(
    host: Seq<char>,
    is_file: bool,
    ts: Seq<agents::TurnView>,
    screen: Seq<char>,
    width: int,
)
    ensures
        body_of(WantedView::Unnamed, is_file, ts, screen, width).0[0][0].content
            == "that row does not name a conversation"@,
        body_of(WantedView::Unasked { host }, is_file, ts, screen, width).0[0][0].content == "on "@
            + host + ": no taimux to ask"@,
{
}

} // verus!
