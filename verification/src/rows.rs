//! The picker's rows: one line of text per session, laid out in columns.
//!
//! - The summary follows the label directly, because it is what the list is read
//!   for. Everything that only says WHERE a session is (path, agent, version) is
//!   pinned to the right edge, in fixed columns, so it costs the summary no width
//!   and is what a too-long row truncates away.
//! - Every column width is measured over the WHOLE list, never per row. Sizing
//!   the trailing block per row would move the path column by however long that
//!   row's agent happened to be.
//! - The label column has a floor of 15 in a roomy window and a cap of 15 in a
//!   narrow one, and the floor only applies when the list holds real pane labels.
//!
//! Widths are display columns, so a double-width character counts for two.
use unicode_width::UnicodeWidthStr;
use vstd::prelude::*;

use crate::ansi;
use crate::ansi::{Color, Modifier, Style};
use crate::table;
use crate::table::Table;
use crate::text;
use crate::text::{chars_of, contains, lines, listed, same, slice, split, starts_with};

verus! {

// ---------------------------------------------------------------------------
// Paint, cells and rows
// ---------------------------------------------------------------------------
/// The paint a cell carries: the SGR sequence that turns it on, or nothing.
#[derive(Clone, Copy, PartialEq, Eq, Debug)]
pub struct Paint(pub &'static str);

pub const PLAIN: &'static str = "";

/// The label of the pane the picker was opened from.
pub const LABEL_CUR: &'static str = "\x1b[33m";

pub const LABEL_OTHER: &'static str = "\x1b[36m";

/// A session asking for you: the one glyph here worth a colour of its own.
pub const MARK_INPUT: &'static str = "\x1b[1;33m";

/// Working, dimmed, because it wants nothing from you.
pub const MARK_RUN: &'static str = "\x1b[2m";

/// A restart in flight. Cyan rather than the waiting star's bold yellow: it
/// wants nothing from you, it is just not finished.
pub const MARK_RESTART: &'static str = "\x1b[36m";

pub const PATH: &'static str = "\x1b[90m";

/// The permission mode rides on the agent name as brightness rather than taking
/// a column: louder is less supervised.
pub const MODE_ASK: &'static str = "\x1b[35m";

pub const MODE_EDIT: &'static str = "\x1b[95m";

pub const MODE_AUTO: &'static str = "\x1b[1;95m";

/// A session running code a self-update has already replaced. Plain yellow, not
/// the bold yellow of the star, since nothing is being asked of you.
pub const VER_STALE: &'static str = "\x1b[33m";

pub const VER_OK: &'static str = "\x1b[2;35m";

/// Below this a summary says nothing, so the table gives way instead.
pub const MIN_SUMMARY: u128 = 20;

/// The style that a paint stands for.
pub open spec fn paint_style(p: Seq<char>) -> Style {
    let none = ansi::no_style();
    let bold = Modifier { bold: true, ..ansi::no_modifier() };
    let dim = Modifier { dim: true, ..ansi::no_modifier() };
    if p == "\x1b[33m"@ {
        Style { fg: Some(Color::Yellow), ..none }
    } else if p == "\x1b[36m"@ {
        Style { fg: Some(Color::Cyan), ..none }
    } else if p == "\x1b[1;33m"@ {
        Style { fg: Some(Color::Yellow), add_modifier: bold, ..none }
    } else if p == "\x1b[2m"@ {
        Style { add_modifier: dim, ..none }
    } else if p == "\x1b[90m"@ {
        Style { fg: Some(Color::DarkGray), ..none }
    } else if p == "\x1b[35m"@ {
        Style { fg: Some(Color::Magenta), ..none }
    } else if p == "\x1b[95m"@ {
        Style { fg: Some(Color::LightMagenta), ..none }
    } else if p == "\x1b[1;95m"@ {
        Style { fg: Some(Color::LightMagenta), add_modifier: bold, ..none }
    } else if p == "\x1b[2;35m"@ {
        Style { fg: Some(Color::Magenta), add_modifier: dim, ..none }
    } else {
        none
    }
}

impl Paint {
    /// The style that the paint stands for, so that a drawn row need not have its
    /// own escape sequences parsed back.
    pub fn style(self) -> (r: Style)
        ensures
            r == paint_style(self.0@),
    {
        let plain = Style::default();
        let mut bold = Modifier::none();
        bold.bold = true;
        let mut dim = Modifier::none();
        dim.dim = true;
        if same(self.0, "\x1b[33m") {
            plain.fg(Color::Yellow)
        } else if same(self.0, "\x1b[36m") {
            plain.fg(Color::Cyan)
        } else if same(self.0, "\x1b[1;33m") {
            plain.fg(Color::Yellow).add_modifier(bold)
        } else if same(self.0, "\x1b[2m") {
            plain.add_modifier(dim)
        } else if same(self.0, "\x1b[90m") {
            plain.fg(Color::DarkGray)
        } else if same(self.0, "\x1b[35m") {
            plain.fg(Color::Magenta)
        } else if same(self.0, "\x1b[95m") {
            plain.fg(Color::LightMagenta)
        } else if same(self.0, "\x1b[1;95m") {
            plain.fg(Color::LightMagenta).add_modifier(bold)
        } else if same(self.0, "\x1b[2;35m") {
            plain.fg(Color::Magenta).add_modifier(dim)
        } else {
            plain
        }
    }
}

/// The style that is in force behind a text, where it began with none.
pub open spec fn style_behind(s: Seq<char>) -> Style {
    ansi::runs(s, 0, ansi::no_style(), Seq::empty()).1
}

proof fn lemma_code(a: char, b: char)
    requires
        text::is_digit(a),
        text::is_digit(b),
    ensures
        ansi::number(seq![a, b]) == (a as u32 - 0x30) * 10 + (b as u32 - 0x30),
{
    let s = seq![a, b];
    reveal_with_fuel(text::value_of, 3);
    assert(s.drop_last() =~= seq![a]);
    assert(seq![a].drop_last() =~= Seq::<char>::empty());
    assert(text::all_digits(s));
}

proof fn lemma_digit(a: char)
    requires
        text::is_digit(a),
    ensures
        ansi::number(seq![a]) == a as u32 - 0x30,
{
    let s = seq![a];
    reveal_with_fuel(text::value_of, 2);
    assert(s.drop_last() =~= Seq::<char>::empty());
    assert(text::all_digits(s));
}

proof fn lemma_style_of_code(p: Seq<char>, a: char, b: char)
    requires
        text::is_digit(a),
        text::is_digit(b),
        p == seq!['\x1b', '[', a, b, 'm'],
        a != '3' || b != '8',
        a != '4' || b != '8',
    ensures
        style_behind(p) == ansi::one_parameter(
            ansi::no_style(),
            (a as u32 - 0x30) * 10 + (b as u32 - 0x30),
        ),
{
    let none = Seq::<char>::empty();
    let no = Seq::<i32>::empty();
    lemma_code(a, b);
    reveal_with_fuel(ansi::control, 4);
    reveal_with_fuel(ansi::applied, 2);
    reveal_with_fuel(ansi::runs, 2);
    assert(none.push(a) =~= seq![a]);
    assert(seq![a].push(b) =~= seq![a, b]);
    let c = ansi::control(p, 2, no, none, false);
    assert(c.params =~= seq![ansi::number(seq![a, b])]);
}

proof fn lemma_style_of_digit(p: Seq<char>, a: char)
    requires
        text::is_digit(a),
        p == seq!['\x1b', '[', a, 'm'],
    ensures
        style_behind(p) == ansi::one_parameter(ansi::no_style(), a as u32 - 0x30),
{
    let none = Seq::<char>::empty();
    let no = Seq::<i32>::empty();
    lemma_digit(a);
    reveal_with_fuel(ansi::control, 3);
    reveal_with_fuel(ansi::applied, 2);
    reveal_with_fuel(ansi::runs, 2);
    assert(none.push(a) =~= seq![a]);
    let c = ansi::control(p, 2, no, none, false);
    assert(c.params =~= seq![ansi::number(seq![a])]);
}

proof fn lemma_style_of_two(p: Seq<char>, m: char, a: char, b: char)
    requires
        text::is_digit(m),
        text::is_digit(a),
        text::is_digit(b),
        p == seq!['\x1b', '[', m, ';', a, b, 'm'],
        a != '3' || b != '8',
        a != '4' || b != '8',
    ensures
        style_behind(p) == ansi::one_parameter(
            ansi::one_parameter(ansi::no_style(), m as u32 - 0x30),
            (a as u32 - 0x30) * 10 + (b as u32 - 0x30),
        ),
{
    let none = Seq::<char>::empty();
    let no = Seq::<i32>::empty();
    lemma_digit(m);
    lemma_code(a, b);
    reveal_with_fuel(ansi::control, 6);
    reveal_with_fuel(ansi::applied, 3);
    reveal_with_fuel(ansi::runs, 2);
    assert(none.push(m) =~= seq![m]);
    assert(none.push(a) =~= seq![a]);
    assert(seq![a].push(b) =~= seq![a, b]);
    let first = no.push(ansi::number(seq![m]));
    let c = ansi::control(p, 2, no, none, false);
    assert(c.params =~= seq![ansi::number(seq![m]), ansi::number(seq![a, b])]);
}

/// A paint is drawn in the style that its own escape sequence stands for.
pub proof fn lemma_a_paint_means_its_sequence(p: Seq<char>)
    requires
        p == PLAIN@ || p == LABEL_CUR@ || p == LABEL_OTHER@ || p == MARK_INPUT@ || p == MARK_RUN@
            || p == PATH@ || p == MODE_ASK@ || p == MODE_EDIT@ || p == MODE_AUTO@ || p == VER_OK@,
    ensures
        paint_style(p) == style_behind(p),
{
    reveal_strlit("");
    reveal_strlit("\x1b[33m");
    reveal_strlit("\x1b[36m");
    reveal_strlit("\x1b[1;33m");
    reveal_strlit("\x1b[2m");
    reveal_strlit("\x1b[90m");
    reveal_strlit("\x1b[35m");
    reveal_strlit("\x1b[95m");
    reveal_strlit("\x1b[1;95m");
    reveal_strlit("\x1b[2;35m");
    assert("\x1b[33m"@ =~= seq!['\x1b', '[', '3', '3', 'm']);
    assert("\x1b[36m"@ =~= seq!['\x1b', '[', '3', '6', 'm']);
    assert("\x1b[1;33m"@ =~= seq!['\x1b', '[', '1', ';', '3', '3', 'm']);
    assert("\x1b[2m"@ =~= seq!['\x1b', '[', '2', 'm']);
    assert("\x1b[90m"@ =~= seq!['\x1b', '[', '9', '0', 'm']);
    assert("\x1b[35m"@ =~= seq!['\x1b', '[', '3', '5', 'm']);
    assert("\x1b[95m"@ =~= seq!['\x1b', '[', '9', '5', 'm']);
    assert("\x1b[1;95m"@ =~= seq!['\x1b', '[', '1', ';', '9', '5', 'm']);
    assert("\x1b[2;35m"@ =~= seq!['\x1b', '[', '2', ';', '3', '5', 'm']);
    if p.len() == 0 {
    } else if p.len() == 4 {
        lemma_style_of_digit(p, '2');
    } else if p.len() == 5 {
        assert(p[2] == '3' || p[2] == '9');
        lemma_style_of_code(p, p[2], p[3]);
    } else {
        lemma_style_of_two(p, p[2], p[4], p[5]);
    }
}

/// A piece of a row and the paint it is drawn in.
#[derive(Clone, Debug, PartialEq, Eq)]
pub struct Cell {
    pub text: String,
    pub paint: Paint,
}

#[verifier::ext_equal]
pub struct CellView {
    pub text: Seq<char>,
    pub paint: Seq<char>,
}

impl View for Cell {
    type V = CellView;

    open spec fn view(&self) -> CellView {
        CellView { text: self.text@, paint: self.paint.0@ }
    }
}

pub open spec fn cells_view(v: Seq<Cell>) -> Seq<CellView> {
    v.map_values(|c: Cell| c@)
}

pub open spec fn painted(text: Seq<char>, paint: Seq<char>) -> CellView {
    CellView { text, paint }
}

pub fn cell(text: &str, paint: &'static str) -> (r: Cell)
    ensures
        r@ == painted(text@, paint@),
{
    Cell { text: text.to_owned(), paint: Paint(paint) }
}

/// One session's row.
#[derive(Clone, Debug)]
pub struct Row {
    pub cells: Vec<Cell>,
    pub pane_id: String,
    /// Kept unabbreviated and unshortened for the preview header, which has the
    /// room the row does not and wants to say exactly where the session is.
    pub target: String,
    pub cwd: String,
    /// Set for a session on another machine. A screen can only be captured where
    /// the pane is, so the preview has to ask over there rather than locally.
    pub host: String,
    /// When the session last said something, in epoch milliseconds, which is
    /// what the idle and past lists sort on by date. None where nothing tells.
    pub since: Option<i64>,
}

#[verifier::ext_equal]
pub struct RowView {
    pub cells: Seq<CellView>,
    pub pane_id: Seq<char>,
    pub target: Seq<char>,
    pub cwd: Seq<char>,
    pub host: Seq<char>,
    pub since: Option<i64>,
}

impl View for Row {
    type V = RowView;

    open spec fn view(&self) -> RowView {
        RowView {
            cells: cells_view(self.cells@),
            pane_id: self.pane_id@,
            target: self.target@,
            cwd: self.cwd@,
            host: self.host@,
            since: self.since,
        }
    }
}

pub open spec fn rows_view(v: Seq<Row>) -> Seq<RowView> {
    v.map_values(|r: Row| r@)
}

/// One cell as a terminal is sent it: its paint, its text, and a reset.
pub open spec fn ansi_cell(c: CellView) -> Seq<char> {
    if c.paint == PLAIN@ {
        c.text
    } else {
        c.paint + c.text + "\x1b[0m"@
    }
}

pub open spec fn ansi_cells(v: Seq<CellView>) -> Seq<char>
    decreases v.len(),
{
    if v.len() == 0 {
        Seq::empty()
    } else {
        ansi_cells(v.drop_last()) + ansi_cell(v.last())
    }
}

pub open spec fn plain_cells(v: Seq<CellView>) -> Seq<char>
    decreases v.len(),
{
    if v.len() == 0 {
        Seq::empty()
    } else {
        plain_cells(v.drop_last()) + v.last().text
    }
}

impl Row {
    /// The whole line with its colours burned in, a tab, and the pane id.
    pub fn to_ansi(&self) -> (r: String)
        ensures
            r@ == ansi_cells(self@.cells) + "\t"@ + self.pane_id@,
    {
        let mut s = String::new();
        let mut i: usize = 0;
        let ghost v = self@.cells;
        while i < self.cells.len()
            invariant
                i <= self.cells@.len(),
                v == cells_view(self.cells@),
                s@ == ansi_cells(v.take(i as int)),
            decreases self.cells@.len() - i,
        {
            let ghost before = s@;
            assert(v.take(i + 1).drop_last() =~= v.take(i as int));
            assert(v.take(i + 1).last() == self.cells@[i as int]@);
            let c = &self.cells[i];
            if same(c.paint.0, PLAIN) {
                s.append(&c.text);
            } else {
                s.append(c.paint.0);
                s.append(&c.text);
                s.append("\x1b[0m");
                assert(s@ =~= before + ansi_cell(c@));
            }
            i = i + 1;
        }
        assert(v.take(v.len() as int) =~= v);
        s.append("\t");
        s.append(&self.pane_id);
        s
    }

    /// The row with every escape sequence gone, which is what a width assertion
    /// and a fuzzy match both want.
    pub fn plain(&self) -> (r: String)
        ensures
            r@ == plain_cells(self@.cells),
    {
        let mut s = String::new();
        let mut i: usize = 0;
        let ghost v = self@.cells;
        while i < self.cells.len()
            invariant
                i <= self.cells@.len(),
                v == cells_view(self.cells@),
                s@ == plain_cells(v.take(i as int)),
            decreases self.cells@.len() - i,
        {
            assert(v.take(i + 1).drop_last() =~= v.take(i as int));
            assert(v.take(i + 1).last() == self.cells@[i as int]@);
            s.append(&self.cells[i].text);
            i = i + 1;
        }
        assert(v.take(v.len() as int) =~= v);
        s
    }
}

// ---------------------------------------------------------------------------
// Widths
// ---------------------------------------------------------------------------
/// What `UnicodeWidthStr::width` says of a text: the columns it takes.
pub uninterp spec fn columns(s: Seq<char>) -> nat;

/// Is every character of it printable ASCII?
pub open spec fn plain_ascii(s: Seq<char>) -> bool {
    forall|i: int| 0 <= i < s.len() ==> printable(#[trigger] s[i])
}

/// Does a text take as many columns as it has characters, if it is printable ASCII?
pub open spec fn sized(s: Seq<char>) -> bool {
    plain_ascii(s) ==> columns(s) == s.len()
}

/// `UnicodeWidthStr::width`, which depends on the text alone. Of printable ASCII each
/// character takes one column. How many columns another text takes is left to that
/// crate's tables.
#[verifier::external_body]
fn width_of(s: &str) -> (r: usize)
    ensures
        r == columns(s@),
        plain_ascii(s@) ==> r == s@.len(),
{
    UnicodeWidthStr::width(s)
}

/// Display width.
pub fn vlen(s: &str) -> (r: usize)
    ensures
        r == columns(s@),
        plain_ascii(s@) ==> r == s@.len(),
{
    width_of(s)
}

pub open spec fn blanks(n: nat) -> Seq<char> {
    Seq::new(n, |i: int| ' ')
}

fn spaces(n: u128) -> (r: String)
    ensures
        r@ == blanks(n as nat),
{
    let mut out = String::new();
    let mut i: u128 = 0;
    assert(out@ =~= blanks(0));
    while i < n
        invariant
            i <= n,
            out@ == blanks(i as nat),
        decreases n - i,
    {
        out.push(' ');
        i = i + 1;
        assert(out@ =~= blanks(i as nat));
    }
    out
}

pub open spec fn minus(a: nat, b: nat) -> nat {
    if a >= b {
        (a - b) as nat
    } else {
        0
    }
}

pub open spec fn larger(a: nat, b: nat) -> nat {
    if a >= b {
        a
    } else {
        b
    }
}

pub open spec fn smaller(a: nat, b: nat) -> nat {
    if a <= b {
        a
    } else {
        b
    }
}

/// Padded on the right to a column width, never truncated.
pub open spec fn padded(s: Seq<char>, w: nat) -> Seq<char> {
    s + blanks(minus(w, columns(s)))
}

fn pad(s: &str, w: u128) -> (r: String)
    ensures
        r@ == padded(s@, w as nat),
{
    let n: u128 = vlen(s) as u128;
    let mut out = s.to_owned();
    let fill = spaces(if w >= n {
        w - n
    } else {
        0
    });
    out.append(&fill);
    out
}

/// What is left between the summary and the right-hand block. Two columns
/// minimum: a window with no room just trails the tail behind the summary
/// instead of overlapping it.
pub open spec fn gap(width: nat, label: nat, sum: nat, tail: nat) -> nat {
    larger(minus(width, label + 1 + 2 + sum + tail), 2)
}

fn gap_of(width: usize, label: usize, sum: usize, tail: u128) -> (r: u128)
    requires
        tail <= 0x1_0000_0000_0000_0000_0000,
    ensures
        r == gap(width as nat, label as nat, sum as nat, tail as nat),
{
    let used: u128 = label as u128 + 1 + 2 + sum as u128 + tail;
    let w: u128 = width as u128;
    if w > used && w - used > 2 {
        w - used
    } else {
        2
    }
}

/// How much width a summary may have before it starts costing the table.
///
/// `0` means "as much as it likes", which is what an unmeasured window (width 0)
/// and one too narrow to hold a table both get: in the first nothing is being
/// drawn, and in the second there is no arrangement that fits.
pub open spec fn room(width: nat, label: nat, tail: nat) -> nat {
    let left = minus(width, label + 1 + 2 + 2 + tail);
    if width == 0 || left < MIN_SUMMARY {
        0
    } else {
        left
    }
}

fn summary_room(width: usize, label: usize, tail: u128) -> (r: u128)
    requires
        tail <= 0x1_0000_0000_0000_0000_0000,
    ensures
        r == room(width as nat, label as nat, tail as nat),
{
    if width == 0 {
        return 0;
    }
    let chrome: u128 = label as u128 + 1 + 2 + 2 + tail;
    let w: u128 = width as u128;
    if w < chrome || w - chrome < MIN_SUMMARY {
        0
    } else {
        w - chrome
    }
}

/// The characters from `i` on that fit before the ellipsis, with `w` columns
/// already used.
pub open spec fn fitting(s: Seq<char>, room: nat, i: int, w: nat) -> Seq<char>
    decreases s.len() - i,
{
    if i >= s.len() || w + columns(seq![s[i]]) > room - 1 {
        Seq::empty()
    } else {
        seq![s[i]] + fitting(s, room, i + 1, w + columns(seq![s[i]]))
    }
}

/// Cut to a display width, with an ellipsis where it was cut. `0` is no limit.
pub open spec fn fitted(s: Seq<char>, room: nat) -> Seq<char> {
    if room == 0 || columns(s) <= room {
        s
    } else {
        fitting(s, room, 0, 0) + "…"@
    }
}

fn fit(s: &str, room: u128) -> (r: String)
    requires
        room <= 0x1_0000_0000_0000_0000,
    ensures
        r@ == fitted(s@, room as nat),
{
    if room == 0 || vlen(s) as u128 <= room {
        return s.to_owned();
    }
    let v = chars_of(s);
    let mut out = String::new();
    let mut w: u128 = 0;
    let mut i: usize = 0;
    assert(out@ + fitting(v@, room as nat, 0, 0) =~= fitting(v@, room as nat, 0, 0));
    while i < v.len()
        invariant_except_break
            out@ + fitting(v@, room as nat, i as int, w as nat) == fitting(v@, room as nat, 0, 0),
        invariant
            i <= v@.len(),
            0 < room <= 0x1_0000_0000_0000_0000,
            w < room,
        ensures
            out@ == fitting(v@, room as nat, 0, 0),
        decreases v@.len() - i,
    {
        let one = slice(&v, i, i + 1);
        assert(one@ =~= seq![v@[i as int]]);
        let cw: u128 = vlen(&one) as u128;
        if w + cw > room - 1 {
            assert(out@ =~= out@ + fitting(v@, room as nat, i as int, w as nat));
            break;
        }
        let ghost before = out@;
        out.push(v[i]);
        w = w + cw;
        i = i + 1;
        assert(before + (seq![v@[i - 1]] + fitting(v@, room as nat, i as int, w as nat))
            =~= out@ + fitting(v@, room as nat, i as int, w as nat));
        assert(i == v@.len() ==> out@ + fitting(v@, room as nat, i as int, w as nat) =~= out@);
    }
    out.append("…");
    out
}

// ---------------------------------------------------------------------------
// What each part of a row says
// ---------------------------------------------------------------------------
pub open spec fn printable(c: char) -> bool {
    ' ' <= c && c <= '~'
}

/// Where the leading run of characters that are not printable ASCII ends.
pub open spec fn marker_end(s: Seq<char>, i: int) -> int
    decreases s.len() - i,
{
    if i < s.len() && !printable(s[i]) {
        marker_end(s, i + 1)
    } else {
        i
    }
}

/// A title without the marker it leads with: a leading run of characters that
/// are not printable ASCII, then a space or the end. A title that merely opens
/// on such a word keeps it, since the space has to follow the run directly.
pub open spec fn summary(title: Seq<char>) -> Seq<char> {
    let run = marker_end(title, 0);
    if run == 0 {
        title
    } else if run >= title.len() {
        Seq::empty()
    } else if title[run] == ' ' {
        title.skip(run + 1)
    } else {
        title
    }
}

/// Whatever marker the title leads with, taken off so the column can be filled
/// from the STATE instead.
pub fn summary_of(title: &str) -> (r: &str)
    ensures
        r@ == summary(title@),
{
    let v = chars_of(title);
    let mut i: usize = 0;
    while i < v.len() && !(' ' <= v[i] && v[i] <= '~')
        invariant
            i <= v@.len(),
            marker_end(v@, i as int) == marker_end(v@, 0),
        decreases v@.len() - i,
    {
        i = i + 1;
    }
    let n: usize = v.len();
    if i == 0 {
        return title;
    }
    if i >= n {
        let r = title.substring_char(n, n);
        assert(r@ =~= Seq::<char>::empty());
        return r;
    }
    if v[i] == ' ' {
        let r = title.substring_char(i + 1, n);
        assert(r@ =~= title@.skip(i + 1));
        r
    } else {
        title
    }
}

/// The permission mode, in brightness. Ordinary magenta for a session that will
/// stop and ask (default, plan, or nothing known), bright for one applying edits
/// on its own, bold bright for one that asks nothing at all.
pub open spec fn mode_colour(mode: Seq<char>) -> Seq<char> {
    if mode == "acceptEdits"@ {
        MODE_EDIT@
    } else if mode == "bypassPermissions"@ || mode == "auto"@ {
        MODE_AUTO@
    } else {
        MODE_ASK@
    }
}

fn mode_paint(mode: &str) -> (r: &'static str)
    ensures
        r@ == mode_colour(mode@),
{
    if same(mode, "acceptEdits") {
        MODE_EDIT
    } else if same(mode, "bypassPermissions") || same(mode, "auto") {
        MODE_AUTO
    } else {
        MODE_ASK
    }
}

/// Is this row running code a self-update has already replaced, i.e. one a
/// restart applies to?
///
/// Never on another host: `newver` is what THIS box would start. Never on an
/// ENDED session either, however far behind it last ran: there is no process to
/// put back.
///
/// One predicate, two uses: the yellow version on a row, and the outdated list.
pub open spec fn behind(
    resumable: Seq<char>,
    host: Seq<char>,
    agent: Seq<char>,
    v: Seq<char>,
    state: Seq<char>,
    newver: Seq<char>,
) -> bool {
    &&& state != "dead"@
    &&& host.len() == 0
    &&& agent == resumable
    &&& newver.len() > 0
    &&& v.len() > 0
    &&& v != newver
}

fn outdated(
    resumable: &str,
    host: &str,
    agent: &str,
    v: &str,
    state: &str,
    newver: &str,
) -> (r: bool)
    ensures
        r == behind(resumable@, host@, agent@, v@, state@, newver@),
{
    !same(state, "dead") && host.is_empty() && same(agent, resumable) && !newver.is_empty()
        && !v.is_empty() && !same(v, newver)
}

/// The fewest characters, `k` or more, that tell `s` apart from every other name
/// in the list: `s.len() + 1` where nothing does.
pub open spec fn telling(names: Seq<Seq<char>>, s: Seq<char>, k: nat) -> nat
    decreases s.len() + 1 - k,
{
    if k > s.len() {
        s.len() + 1
    } else if clashes(names, s, k) {
        telling(names, s, k + 1)
    } else {
        k
    }
}

/// Does some other name open with the same `k` characters?
pub open spec fn clashes(names: Seq<Seq<char>>, s: Seq<char>, k: nat) -> bool {
    exists|i: int|
        #![trigger names[i]]
        0 <= i < names.len() && names[i] != s && text::first_chars(names[i], k)
            == text::first_chars(s, k)
}

/// A name cut to the fewest letters that still tell it apart from every other
/// name in the list, and to no fewer than the floor.
pub open spec fn short_name(names: Seq<Seq<char>>, s: Seq<char>, floor: nat) -> Seq<char> {
    text::first_chars(s, larger(telling(names, s, 1), floor))
}

fn clash(names: &Vec<String>, s: &str, k: usize) -> (r: bool)
    ensures
        r == clashes(text::texts(names@), s@, k as nat),
{
    let head = text::take_chars(s, k);
    let mut i: usize = 0;
    while i < names.len()
        invariant
            i <= names@.len(),
            head@ == text::first_chars(s@, k as nat),
            forall|j: int|
                0 <= j < i ==> text::texts(names@)[j] == s@ || text::first_chars(
                    #[trigger] text::texts(names@)[j],
                    k as nat,
                ) != head@,
        decreases names@.len() - i,
    {
        if !same(&names[i], s) {
            let other = text::take_chars(&names[i], k);
            if same(&other, &head) {
                assert(text::texts(names@)[i as int] == names@[i as int]@);
                return true;
            }
        }
        i = i + 1;
    }
    false
}

fn shorten(names: &Vec<String>, s: &str, floor: usize) -> (r: String)
    ensures
        r@ == short_name(text::texts(names@), s@, floor as nat),
{
    let len: usize = s.unicode_len();
    let mut k: usize = 1;
    while k <= len && clash(names, s, k)
        invariant
            1 <= k,
            len == s@.len(),
            k <= len || k == 1,
            telling(text::texts(names@), s@, k as nat) == telling(text::texts(names@), s@, 1),
        decreases len + 1 - k,
    {
        if k == len {
            assert(telling(text::texts(names@), s@, k as nat + 1) == len + 1);
            assert(text::first_chars(s@, larger(len as nat + 1, floor as nat)) == s@);
            return s.to_owned();
        }
        k = k + 1;
    }
    if k > len {
        assert(s@.len() == 0);
        assert(text::first_chars(s@, larger(1, floor as nat)) =~= s@);
        return s.to_owned();
    }
    text::take_chars(s, if k >= floor {
        k
    } else {
        floor
    })
}

/// Each name's short form, in the order of the names.
///
/// `minlen` is a floor. Sessions take 1, since you picked those names and they
/// are on screen constantly. Hosts take 2, because a host is the part of a row
/// you are least likely to have in your head.
pub fn abbrev(names: &Vec<String>, minlen: usize) -> (r: Vec<String>)
    ensures
        r@.len() == names@.len(),
        forall|i: int|
            0 <= i < names@.len() ==> (#[trigger] r@[i])@ == short_name(
                text::texts(names@),
                names@[i]@,
                minlen as nat,
            ),
{
    let mut out: Vec<String> = Vec::new();
    let mut i: usize = 0;
    while i < names.len()
        invariant
            i <= names@.len(),
            out@.len() == i,
            forall|j: int|
                0 <= j < i ==> (#[trigger] out@[j])@ == short_name(
                    text::texts(names@),
                    names@[j]@,
                    minlen as nat,
                ),
        decreases names@.len() - i,
    {
        let t = shorten(names, &names[i], minlen);
        out.push(t);
        i = i + 1;
    }
    out
}

/// A path with the home directory at its front folded to `~`. A directory whose name
/// only begins like the home directory's is another one.
pub open spec fn home_folded(cwd: Seq<char>, home: Seq<char>) -> Seq<char> {
    let base = text::without_suffix(home, "/"@);
    if home.len() == 0 {
        cwd
    } else if cwd == home || (cwd.len() > 0 && cwd == base) {
        "~"@
    } else if (base + "/"@).is_prefix_of(cwd) {
        "~"@ + cwd.skip(base.len() as int)
    } else {
        cwd
    }
}

fn fold_home(cwd: &str, home: &str) -> (r: String)
    ensures
        r@ == home_folded(cwd@, home@),
{
    if home.is_empty() {
        return cwd.to_owned();
    }
    let base = text::trim_suffix(home, "/");
    if same(cwd, home) || (!cwd.is_empty() && same(cwd, &base)) {
        return "~".to_owned();
    }
    let mut inside = base.clone();
    inside.append("/");
    if starts_with(cwd, &inside) {
        let v = chars_of(cwd);
        let k: usize = base.unicode_len();
        let n: usize = v.len();
        assert(inside@.len() >= k);
        let rest = slice(&v, k, n);
        assert(rest@ =~= cwd@.skip(k as int));
        let mut t = "~".to_owned();
        t.append(&rest);
        t
    } else {
        cwd.to_owned()
    }
}

/// The last two components of the working directory, with the home directory
/// folded to `~` and a cap of 30 characters, elided from the left because the
/// tail is the part that says which project it is.
pub open spec fn short_path(cwd: Seq<char>, home: Seq<char>) -> Seq<char> {
    let folded = home_folded(cwd, home);
    let parts = text::fields(folded, '/');
    let disp = if parts.len() >= 2 {
        parts[parts.len() - 2] + "/"@ + parts[parts.len() - 1]
    } else {
        folded
    };
    if disp.len() > 30 {
        "…"@ + disp.skip(disp.len() - 29)
    } else {
        disp
    }
}

pub fn path_display(cwd: &str, home: &str) -> (r: String)
    ensures
        r@ == short_path(cwd@, home@),
{
    let folded = fold_home(cwd, home);
    let parts = split(&folded, '/');
    let n: usize = parts.len();
    assert(text::texts(parts@).len() == n);
    let disp: String = if n >= 2 {
        assert(text::texts(parts@)[n - 2] == parts@[n - 2]@);
        assert(text::texts(parts@)[n - 1] == parts@[n - 1]@);
        let mut t = parts[n - 2].clone();
        t.append("/");
        t.append(&parts[n - 1]);
        t
    } else {
        folded
    };
    let v = chars_of(&disp);
    let m: usize = v.len();
    if m > 30 {
        let rest = slice(&v, m - 29, m);
        assert(rest@ =~= disp@.skip(m - 29));
        let mut t = "…".to_owned();
        t.append(&rest);
        t
    } else {
        disp
    }
}

/// Does the text hold every one of the terms, whatever its capitals?
pub open spec fn says(s: Seq<char>, terms: Seq<Seq<char>>) -> bool {
    &&& terms.len() > 0
    &&& forall|i: int|
        0 <= i < terms.len() ==> (#[trigger] terms[i]).len() == 0 || text::has(
            text::lowercase(s),
            terms[i],
        )
}

/// Does the row already show everything that was typed? If it does it needs no
/// explaining, and keeping its path, agent and version is worth more than quoting
/// the query back at it.
///
/// Case-insensitive: the terms arrive folded.
pub fn says_it(s: &str, terms: &Vec<String>) -> (r: bool)
    ensures
        r == says(s@, text::texts(terms@)),
{
    if terms.len() == 0 {
        return false;
    }
    let hay = text::to_lowercase(s);
    let mut i: usize = 0;
    while i < terms.len()
        invariant
            i <= terms@.len(),
            hay@ == text::lowercase(s@),
            forall|j: int|
                0 <= j < i ==> (#[trigger] text::texts(terms@)[j]).len() == 0 || text::has(
                    hay@,
                    text::texts(terms@)[j],
                ),
        decreases terms@.len() - i,
    {
        assert(text::texts(terms@)[i as int] == terms@[i as int]@);
        if !terms[i].as_str().is_empty() && !contains(&hay, &terms[i]) {
            return false;
        }
        i = i + 1;
    }
    true
}

/// A text without the spaces it ends in.
pub open spec fn without_spaces(s: Seq<char>) -> Seq<char>
    decreases s.len(),
{
    if s.len() > 0 && s.last() == ' ' {
        without_spaces(s.drop_last())
    } else {
        s
    }
}

fn trim_spaces(s: &str) -> (r: String)
    ensures
        r@ == without_spaces(s@),
{
    let v = chars_of(s);
    let mut i: usize = v.len();
    assert(v@.take(v@.len() as int) =~= v@);
    while i > 0 && v[i - 1] == ' '
        invariant
            i <= v@.len(),
            without_spaces(v@.take(i as int)) == without_spaces(v@),
        decreases i,
    {
        assert(v@.take(i as int).drop_last() =~= v@.take(i - 1));
        i = i - 1;
    }
    assert(v@.subrange(0, i as int) =~= v@.take(i as int));
    slice(&v, 0, i)
}

/// The cells without the unpainted spaces they end in: the run goes on through
/// any cell that holds nothing else, and stops at a painted one, which ends in a
/// reset.
pub open spec fn trimmed_cells(v: Seq<CellView>) -> Seq<CellView>
    decreases v.len(),
{
    if v.len() == 0 || v.last().paint != PLAIN@ {
        v
    } else {
        let t = without_spaces(v.last().text);
        if t.len() == v.last().text.len() {
            v
        } else if t.len() > 0 {
            v.drop_last().push(painted(t, PLAIN@))
        } else {
            trimmed_cells(v.drop_last())
        }
    }
}

/// Trailing spaces align nothing, so the all-blank remainder a row with no agent
/// or version leaves is trimmed off.
pub fn trim_trailing(cells: &mut Vec<Cell>)
    ensures
        cells_view(final(cells)@) == trimmed_cells(cells_view(old(cells)@)),
{
    let ghost first = cells_view(cells@);
    loop
        invariant
            trimmed_cells(cells_view(cells@)) == trimmed_cells(first),
            first == cells_view(old(cells)@),
        decreases cells@.len(),
    {
        let n: usize = cells.len();
        if n == 0 {
            return;
        }
        let ghost v = cells_view(cells@);
        assert(v.last() == cells@[n - 1]@);
        if !same(cells[n - 1].paint.0, PLAIN) {
            return;
        }
        let t = trim_spaces(&cells[n - 1].text);
        if t.unicode_len() == cells[n - 1].text.unicode_len() {
            return;
        }
        let ghost rest = cells@.drop_last();
        cells.pop();
        assert(cells_view(cells@) =~= v.drop_last());
        if !t.as_str().is_empty() {
            let c = cell(&t, PLAIN);
            let ghost mid = cells@;
            cells.push(c);
            assert(cells_view(cells@) =~= cells_view(mid).push(c@));
            return;
        }
    }
}

// ---------------------------------------------------------------------------
// The list
// ---------------------------------------------------------------------------
/// What the layout is given beside the lines.
#[derive(Default)]
pub struct Input<'a> {
    pub cur: &'a str,
    /// 0 means "unknown", which reads as "do not right-align".
    pub width: usize,
    pub home: &'a str,
    /// What a session started right now would run, so a pane left behind by a
    /// self-update can be told apart from a current one.
    pub newver: &'a str,
    /// The agent that a restart applies to.
    pub agent: &'a str,
    /// One state only, or empty for all.
    pub only: &'a str,
    /// Keep only the rows a restart would act on, i.e. the ones the version
    /// column paints yellow.
    ///
    /// Separate from `only` because being behind is not a STATE: a session
    /// waiting, working or idle can each be behind.
    pub outdated: bool,
    pub query: &'a str,
    /// pane id to the snippet of what that session said, when searching.
    ///
    /// The layout applies whatever it is given. The "at least so many
    /// characters" gate lives in the CALLER: under three characters a term is in
    /// every transcript and a match would say nothing.
    pub snips: Table,
    /// pane id to the title its conversation last recorded, for a pane that
    /// publishes none of its own.
    pub ptitles: Table,
    /// Panes with a restart in flight.
    ///
    /// This paints the marker column and nothing else. In particular it does NOT
    /// touch the state field, which is what keeps such a row where it was.
    pub restarting: Vec<String>,
}

pub struct InputView {
    pub cur: Seq<char>,
    pub width: nat,
    pub home: Seq<char>,
    pub newver: Seq<char>,
    pub agent: Seq<char>,
    pub only: Seq<char>,
    pub outdated: bool,
    pub query: Seq<char>,
    pub snips: Map<Seq<char>, Seq<char>>,
    pub ptitles: Map<Seq<char>, Seq<char>>,
    pub restarting: Seq<Seq<char>>,
}

impl<'a> View for Input<'a> {
    type V = InputView;

    open spec fn view(&self) -> InputView {
        InputView {
            cur: self.cur@,
            width: self.width as nat,
            home: self.home@,
            newver: self.newver@,
            agent: self.agent@,
            only: self.only@,
            outdated: self.outdated,
            query: self.query@,
            snips: self.snips@,
            ptitles: self.ptitles@,
            restarting: text::texts(self.restarting@),
        }
    }
}

/// One input line, before anything is measured.
pub struct ItemView {
    pub id: Seq<char>,
    pub target: Seq<char>,
    pub agent: Seq<char>,
    pub version: Seq<char>,
    pub state: Seq<char>,
    pub mode: Seq<char>,
    pub title: Seq<char>,
    pub host: Seq<char>,
    /// The one row a host that could not answer keeps in the list. Left out of
    /// the shortening and printed whole: the host name IS the message.
    pub note: bool,
    /// The last two components, capped, as the row shows it.
    pub path: Seq<char>,
    /// The whole thing, as the preview header shows it.
    pub cwd: Seq<char>,
    pub session: Seq<char>,
    pub since: Option<i64>,
}

struct Item {
    id: String,
    target: String,
    agent: String,
    version: String,
    state: String,
    mode: String,
    title: String,
    host: String,
    note: bool,
    path: String,
    cwd: String,
    session: String,
    since: Option<i64>,
}

impl View for Item {
    type V = ItemView;

    closed spec fn view(&self) -> ItemView {
        ItemView {
            id: self.id@,
            target: self.target@,
            agent: self.agent@,
            version: self.version@,
            state: self.state@,
            mode: self.mode@,
            title: self.title@,
            host: self.host@,
            note: self.note,
            path: self.path@,
            cwd: self.cwd@,
            session: self.session@,
            since: self.since,
        }
    }
}

spec fn items_view(v: Seq<Item>) -> Seq<ItemView> {
    v.map_values(|i: Item| i@)
}

/// The host a row's id names, and whether the row is a host's note rather than a
/// session.
///
/// An id that does not open on "%" names another host before its first colon.
/// What follows the colon says which kind of row it is: a pane id for a session
/// over there, anything else for a host that could not answer.
pub open spec fn host_and_note(id: Seq<char>) -> (Seq<char>, bool) {
    if id.len() > 0 && id[0] == '%' {
        (Seq::empty(), false)
    } else {
        match text::find_char(id, ':', 0) {
            Some(c) => if c == 0 {
                (Seq::empty(), false)
            } else if c + 1 < id.len() && id[c + 1] == '%' {
                (id.take(c), false)
            } else {
                (Seq::empty(), true)
            },
            None => (Seq::empty(), false),
        }
    }
}

fn host_note(id: &str) -> (r: (String, bool))
    ensures
        (r.0@, r.1) == host_and_note(id@),
{
    let v = chars_of(id);
    let none = String::new();
    assert(none@ =~= Seq::<char>::empty());
    if v.len() > 0 && v[0] == '%' {
        return (none, false);
    }
    match text::find_char_at(&v, ':', 0) {
        None => (none, false),
        Some(c) => {
            let n: usize = v.len();
            if c == 0 {
                (none, false)
            } else if c + 1 < n && v[c + 1] == '%' {
                let h = slice(&v, 0, c);
                assert(h@ =~= id@.take(c as int));
                (h, false)
            } else {
                (none, true)
            }
        },
    }
}

/// The session part of a target: what stands before its first colon.
pub open spec fn session_of(target: Seq<char>) -> Seq<char> {
    match text::find_char(target, ':', 0) {
        Some(c) => if c > 0 {
            target.take(c)
        } else {
            target
        },
        None => target,
    }
}

fn session_part(target: &str) -> (r: String)
    ensures
        r@ == session_of(target@),
        r@.is_prefix_of(target@),
{
    let v = chars_of(target);
    match text::find_char_at(&v, ':', 0) {
        Some(c) => if c > 0 {
            let t = slice(&v, 0, c);
            assert(t@ =~= target@.take(c as int));
            t
        } else {
            target.to_owned()
        },
        None => target.to_owned(),
    }
}

/// Is a line, split into its fields, in the list at all?
pub open spec fn kept(f: Seq<Seq<char>>, input: InputView) -> bool {
    &&& f.len() >= 7
    &&& input.only.len() == 0 || f[5] == input.only
    &&& input.outdated ==> behind(input.agent, host_and_note(f[0]).0, f[3], f[4], f[5], input.newver)
}

/// What a kept line says.
pub open spec fn item_of(f: Seq<Seq<char>>, input: InputView) -> ItemView {
    ItemView {
        id: f[0],
        target: f[1],
        agent: f[3],
        version: f[4],
        state: f[5],
        mode: f[6],
        title: if f.len() > 7 {
            f[7]
        } else {
            Seq::empty()
        },
        host: host_and_note(f[0]).0,
        note: host_and_note(f[0]).1,
        path: short_path(f[2], input.home),
        cwd: f[2],
        session: session_of(f[1]),
        since: if f.len() > 8 {
            text::integer_i64(f[8])
        } else {
            None
        },
    }
}

/// The items of the lines that are kept, in order.
pub open spec fn items_of(lines: Seq<Seq<char>>, input: InputView) -> Seq<ItemView>
    decreases lines.len(),
{
    if lines.len() == 0 {
        Seq::empty()
    } else {
        let rest = items_of(lines.drop_last(), input);
        let f = text::fields(lines.last(), '\t');
        if kept(f, input) {
            rest.push(item_of(f, input))
        } else {
            rest
        }
    }
}

fn read_item(line: &str, input: &Input) -> (r: Option<Item>)
    ensures
        ({
            let f = text::fields(line@, '\t');
            match r {
                Some(it) => kept(f, input@) && it@ == item_of(f, input@) && it.session@.is_prefix_of(
                    it.target@,
                ),
                None => !kept(f, input@),
            }
        }),
{
    let f = split(line, '\t');
    let ghost fs = text::texts(f@);
    assert(fs == text::fields(line@, '\t'));
    let n: usize = f.len();
    assert(fs.len() == n);
    if n < 7 {
        return None;
    }
    assert(forall|i: int| 0 <= i < n ==> fs[i] == f@[i]@);
    if !input.only.is_empty() && !same(&f[5], input.only) {
        return None;
    }
    let (host, note) = host_note(&f[0]);
    if input.outdated && !outdated(input.agent, &host, &f[3], &f[4], &f[5], input.newver) {
        return None;
    }
    let session = session_part(&f[1]);
    let path = path_display(&f[2], input.home);
    let title = if n > 7 {
        f[7].clone()
    } else {
        String::new()
    };
    let since = if n > 8 {
        text::parse_i64(&f[8])
    } else {
        None
    };
    let it = Item {
        id: f[0].clone(),
        target: f[1].clone(),
        agent: f[3].clone(),
        version: f[4].clone(),
        state: f[5].clone(),
        mode: f[6].clone(),
        title,
        host,
        note,
        path,
        cwd: f[2].clone(),
        session,
        since,
    };
    assert(it@.title =~= item_of(fs, input@).title);
    Some(it)
}

fn read_items(lines: &Vec<String>, input: &Input) -> (r: Vec<Item>)
    ensures
        items_view(r@) == items_of(text::texts(lines@), input@),
        forall|i: int| 0 <= i < r@.len() ==> (#[trigger] r@[i]).session@.is_prefix_of(r@[i].target@),
{
    let mut out: Vec<Item> = Vec::new();
    let mut i: usize = 0;
    let ghost ls = text::texts(lines@);
    assert(items_view(out@) =~= items_of(ls.take(0), input@));
    while i < lines.len()
        invariant
            i <= lines@.len(),
            ls == text::texts(lines@),
            items_view(out@) == items_of(ls.take(i as int), input@),
            forall|i: int|
                0 <= i < out@.len() ==> (#[trigger] out@[i]).session@.is_prefix_of(out@[i].target@),
        decreases lines@.len() - i,
    {
        assert(ls.take(i + 1).drop_last() =~= ls.take(i as int));
        assert(ls.take(i + 1).last() == lines@[i as int]@);
        if let Some(it) = read_item(&lines[i], input) {
            let ghost before = out@;
            out.push(it);
            assert(items_view(out@) =~= items_view(before).push(it@));
        }
        i = i + 1;
    }
    assert(ls.take(ls.len() as int) =~= ls);
    out
}

/// The distinct session names of the pane rows, in the order they come.
pub open spec fn session_names(items: Seq<ItemView>) -> Seq<Seq<char>>
    decreases items.len(),
{
    if items.len() == 0 {
        Seq::empty()
    } else {
        let rest = session_names(items.drop_last());
        let it = items.last();
        if !it.note && !rest.contains(it.session) {
            rest.push(it.session)
        } else {
            rest
        }
    }
}

/// The distinct host names, in the order they come.
pub open spec fn host_names(items: Seq<ItemView>) -> Seq<Seq<char>>
    decreases items.len(),
{
    if items.len() == 0 {
        Seq::empty()
    } else {
        let rest = host_names(items.drop_last());
        let it = items.last();
        if it.host.len() > 0 && !rest.contains(it.host) {
            rest.push(it.host)
        } else {
            rest
        }
    }
}

fn names_of(items: &Vec<Item>) -> (r: (Vec<String>, Vec<String>))
    ensures
        text::texts(r.0@) == session_names(items_view(items@)),
        text::texts(r.1@) == host_names(items_view(items@)),
{
    let mut names: Vec<String> = Vec::new();
    let mut hosts: Vec<String> = Vec::new();
    let mut i: usize = 0;
    let ghost v = items_view(items@);
    assert(text::texts(names@) =~= session_names(v.take(0)));
    assert(text::texts(hosts@) =~= host_names(v.take(0)));
    while i < items.len()
        invariant
            i <= items@.len(),
            v == items_view(items@),
            text::texts(names@) == session_names(v.take(i as int)),
            text::texts(hosts@) == host_names(v.take(i as int)),
        decreases items@.len() - i,
    {
        assert(v.take(i + 1).drop_last() =~= v.take(i as int));
        assert(v.take(i + 1).last() == items@[i as int]@);
        let it = &items[i];
        if !it.note && !listed(&names, &it.session) {
            let t = it.session.clone();
            proof {
                text::lemma_texts_push(names@, t);
            }
            names.push(t);
        }
        if !it.host.as_str().is_empty() && !listed(&hosts, &it.host) {
            let t = it.host.clone();
            proof {
                text::lemma_texts_push(hosts@, t);
            }
            hosts.push(t);
        }
        i = i + 1;
    }
    assert(v.take(v.len() as int) =~= v);
    (names, hosts)
}

/// What a row's label says. A narrow window shortens the session and the host to
/// what still tells them apart; the rest of the target stays whole, since two
/// digits are no use truncated.
pub open spec fn label_text(
    it: ItemView,
    names: Seq<Seq<char>>,
    hosts: Seq<Seq<char>>,
    compact: bool,
) -> Seq<char> {
    if it.note {
        it.target
    } else {
        let prefix = if it.host.len() == 0 {
            Seq::empty()
        } else if compact {
            short_name(hosts, it.host, 2) + "/"@
        } else {
            it.host + "/"@
        };
        let body = if compact {
            short_name(names, it.session, 1) + it.target.skip(it.session.len() as int)
        } else {
            it.target
        };
        prefix + body
    }
}

fn label_of(it: &Item, names: &Vec<String>, hosts: &Vec<String>, compact: bool) -> (r: String)
    requires
        it.session@.is_prefix_of(it.target@),
    ensures
        r@ == label_text(it@, text::texts(names@), text::texts(hosts@), compact),
{
    if it.note {
        return it.target.clone();
    }
    let mut out = if it.host.as_str().is_empty() {
        String::new()
    } else if compact {
        let mut t = shorten(hosts, &it.host, 2);
        t.append("/");
        t
    } else {
        let mut t = it.host.clone();
        t.append("/");
        t
    };
    let ghost prefix = out@;
    assert(it.host@.len() == 0 ==> prefix =~= Seq::<char>::empty());
    if compact {
        let mut body = shorten(names, &it.session, 1);
        let v = chars_of(&it.target);
        let k: usize = it.session.unicode_len();
        let n: usize = v.len();
        let rest = slice(&v, k, n);
        assert(rest@ =~= it.target@.skip(k as int));
        body.append(&rest);
        out.append(&body);
    } else {
        out.append(&it.target);
    }
    out
}

/// The widest of the labels, with the two columns the current-pane mark takes.
pub open spec fn widest_label(labels: Seq<Seq<char>>) -> nat
    decreases labels.len(),
{
    if labels.len() == 0 {
        0
    } else {
        larger(widest_label(labels.drop_last()), columns(labels.last()) + 2)
    }
}

pub open spec fn widest(v: Seq<Seq<char>>) -> nat
    decreases v.len(),
{
    if v.len() == 0 {
        0
    } else {
        larger(widest(v.drop_last()), columns(v.last()))
    }
}

pub open spec fn agents_of(items: Seq<ItemView>) -> Seq<Seq<char>> {
    items.map_values(|it: ItemView| it.agent)
}

pub open spec fn versions_of(items: Seq<ItemView>) -> Seq<Seq<char>> {
    items.map_values(|it: ItemView| it.version)
}

pub open spec fn paths_of(items: Seq<ItemView>) -> Seq<Seq<char>> {
    items.map_values(|it: ItemView| it.path)
}

/// The widths every row of one list shares.
pub struct Columns {
    pub label: nat,
    pub path: nat,
    pub agent: nat,
    pub version: nat,
}

impl Columns {
    /// The whole right-hand block.
    pub open spec fn tail(self) -> nat {
        self.path + 1 + self.agent + (if self.version > 0 {
            1 + self.version
        } else {
            0
        })
    }
}

pub open spec fn is_compact(width: nat) -> bool {
    0 < width < 100
}

pub open spec fn labels_of(items: Seq<ItemView>, compact: bool) -> Seq<Seq<char>> {
    items.map_values(
        |it: ItemView| label_text(it, session_names(items), host_names(items), compact),
    )
}

/// The label column is as wide as the widest label in THIS list. A narrow window
/// caps it, since there the label is the column asked to give width back to the
/// summary. A roomy one gets a floor instead, so the column stops jittering as
/// sessions with longer names come and go, and only where the list holds pane
/// labels at all.
pub open spec fn label_column(items: Seq<ItemView>, compact: bool) -> nat {
    let w = widest_label(labels_of(items, compact));
    if compact {
        smaller(w, 15)
    } else if exists|i: int| 0 <= i < items.len() && !(#[trigger] items[i]).note {
        larger(w, 15)
    } else {
        w
    }
}

/// The trailing columns are a TABLE, so their widths come from the whole list
/// too, and the path never takes more than thirty.
pub open spec fn columns_of(items: Seq<ItemView>, width: nat) -> Columns {
    Columns {
        label: label_column(items, is_compact(width)),
        path: smaller(widest(paths_of(items)), 30),
        agent: widest(agents_of(items)),
        version: widest(versions_of(items)),
    }
}

/// The marker column. A restart in flight outranks the state, because during one
/// the state is whatever the screen happened to show as the old session went
/// away.
pub open spec fn marker(restarting: bool, state: Seq<char>) -> Seq<CellView> {
    if restarting {
        seq![painted("↻"@, MARK_RESTART@), painted(" "@, PLAIN@)]
    } else if state == "input"@ {
        seq![painted("✳"@, MARK_INPUT@), painted(" "@, PLAIN@)]
    } else if state == "run"@ {
        seq![painted("◐"@, MARK_RUN@), painted(" "@, PLAIN@)]
    } else {
        seq![painted("  "@, PLAIN@)]
    }
}

/// The agent, right-aligned in its column. A row without one keeps the column.
pub open spec fn agent_cells(it: ItemView, w: nat) -> Seq<CellView> {
    if it.agent.len() == 0 {
        seq![painted(blanks(w), PLAIN@)]
    } else {
        seq![
            painted(blanks(minus(w, columns(it.agent))), PLAIN@),
            painted(it.agent, mode_colour(it.mode)),
        ]
    }
}

/// Yellow means that a restart applies to this row.
pub open spec fn version_colour(it: ItemView, resumable: Seq<char>, newver: Seq<char>) -> Seq<char> {
    if behind(resumable, it.host, it.agent, it.version, it.state, newver) {
        VER_STALE@
    } else {
        VER_OK@
    }
}

/// The version, right-aligned in its column, where the list has that column.
pub open spec fn version_cells(
    it: ItemView,
    w: nat,
    resumable: Seq<char>,
    newver: Seq<char>,
) -> Seq<CellView> {
    if w == 0 {
        Seq::empty()
    } else if it.version.len() == 0 {
        seq![painted(" "@ + blanks(w), PLAIN@)]
    } else {
        seq![
            painted(" "@ + blanks(minus(w, columns(it.version))), PLAIN@),
            painted(it.version, version_colour(it, resumable, newver)),
        ]
    }
}

/// The query as it is searched for: its words, folded.
pub open spec fn terms_of(query: Seq<char>) -> Seq<Seq<char>> {
    text::nonempty(text::split_on(query, ' ', '\t')).map_values(|t: Seq<char>| text::lowercase(t))
}

/// The label as the row shows it: marked where it is the current pane, and padded
/// to the column.
pub open spec fn shown_label(it: ItemView, label: Seq<char>, input: InputView, w: nat) -> Seq<char> {
    padded(
        (if it.id == input.cur {
            "● "@
        } else {
            "  "@
        }) + label,
        w,
    )
}

/// The summary as the row shows it: the title without its marker, or what the
/// conversation calls itself where the pane says nothing, cut to what the table
/// leaves.
pub open spec fn shown_summary(
    it: ItemView,
    plabel: Seq<char>,
    input: InputView,
    cols: Columns,
) -> Seq<char> {
    let own = summary(it.title);
    let sum = if own.len() == 0 && input.ptitles.dom().contains(it.id) {
        input.ptitles[it.id]
    } else {
        own
    };
    fitted(sum, room(input.width, columns(plabel), cols.tail()))
}

/// The snippet a row is given: what its session SAID, unless the row already
/// shows what was typed.
pub open spec fn snippet(
    it: ItemView,
    plabel: Seq<char>,
    sum: Seq<char>,
    input: InputView,
) -> Option<Seq<char>> {
    let shown = plabel + " "@ + sum + " "@ + it.path + " "@ + it.agent + " "@ + it.version;
    if input.snips.dom().contains(it.id) && !says(shown, terms_of(input.query)) {
        Some(input.snips[it.id])
    } else {
        None
    }
}

/// Everything right of the summary.
pub open spec fn tail_cells(
    it: ItemView,
    plabel: Seq<char>,
    sum: Seq<char>,
    input: InputView,
    cols: Columns,
) -> Seq<CellView> {
    match snippet(it, plabel, sum, input) {
        Some(s) => {
            let tail = "⌕ "@ + s;
            seq![
                painted(
                    blanks(gap(input.width, columns(plabel), columns(sum), columns(tail))),
                    PLAIN@,
                ),
                painted(tail, PATH@),
            ]
        },
        None => seq![
            painted(
                blanks(gap(input.width, columns(plabel), columns(sum), cols.tail())),
                PLAIN@,
            ),
            painted(padded(it.path, cols.path), PATH@),
            painted(" "@, PLAIN@),
        ] + agent_cells(it, cols.agent) + version_cells(it, cols.version, input.agent, input.newver),
    }
}

/// The cells that hold anything.
pub open spec fn filled(v: Seq<CellView>) -> Seq<CellView>
    decreases v.len(),
{
    if v.len() == 0 {
        v
    } else if v.last().text.len() == 0 {
        filled(v.drop_last())
    } else {
        filled(v.drop_last()).push(v.last())
    }
}

/// The label as a row shows it.
pub open spec fn label_now(
    it: ItemView,
    label: Seq<char>,
    input: InputView,
    cols: Columns,
) -> Seq<char> {
    shown_label(it, label, input, cols.label)
}

/// The summary as a row shows it.
pub open spec fn summary_now(
    it: ItemView,
    label: Seq<char>,
    input: InputView,
    cols: Columns,
) -> Seq<char> {
    shown_summary(it, label_now(it, label, input, cols), input, cols)
}

/// Are the texts of a row's table as wide as they are long, where they are printable
/// ASCII?
pub open spec fn table_sized(it: ItemView) -> bool {
    sized(it.path) && sized(it.agent) && sized(it.version)
}

/// Is a row in full: all of it printable ASCII but for the marker, with a table and no
/// snippet in its place, room for a summary, and a version that ends the row?
pub open spec fn in_full(items: Seq<ItemView>, input: InputView, i: int) -> bool {
    let it = items[i];
    let cols = columns_of(items, input.width);
    let label = labels_of(items, is_compact(input.width))[i];
    let plabel = label_now(it, label, input, cols);
    let sum = summary_now(it, label, input, cols);
    &&& plain_ascii(plabel) && plain_ascii(sum)
    &&& plain_ascii(it.path) && plain_ascii(it.agent) && plain_ascii(it.version)
    &&& snippet(it, plabel, sum, input) is None
    &&& room(input.width, columns(plabel), cols.tail()) > 0
    &&& it.version.len() > 0
}

/// Does a row end exactly at the right edge, with its path that many columns before it
/// as the table of the whole list takes?
pub open spec fn is_flush(row: RowView, path: Seq<char>, width: nat, tail: nat) -> bool {
    let s = plain_cells(row.cells);
    &&& s.len() == width
    &&& tail <= width
    &&& text::occurs_at(s, path, width - tail)
}

pub open spec fn row_cells(
    it: ItemView,
    label: Seq<char>,
    input: InputView,
    cols: Columns,
) -> Seq<CellView> {
    let plabel = label_now(it, label, input, cols);
    let sum = summary_now(it, label, input, cols);
    let paint = if it.id == input.cur {
        LABEL_CUR@
    } else {
        LABEL_OTHER@
    };
    seq![painted(plabel, paint), painted(" "@, PLAIN@)] + marker(
        input.restarting.contains(it.id),
        it.state,
    ) + seq![painted(sum, PLAIN@)] + tail_cells(it, plabel, sum, input, cols)
}

pub open spec fn row_of(
    it: ItemView,
    label: Seq<char>,
    input: InputView,
    cols: Columns,
) -> RowView {
    RowView {
        cells: filled(trimmed_cells(row_cells(it, label, input, cols))),
        pane_id: it.id,
        target: it.target,
        cwd: it.cwd,
        host: it.host,
        since: it.since,
    }
}

/// The rows of a list of items, each laid out in the list's own columns.
pub open spec fn laid_out(items: Seq<ItemView>, input: InputView) -> Seq<RowView> {
    Seq::new(
        items.len(),
        |i: int|
            row_of(
                items[i],
                labels_of(items, is_compact(input.width))[i],
                input,
                columns_of(items, input.width),
            ),
    )
}

struct Widths {
    label: u128,
    path: u128,
    agent: u128,
    version: u128,
}

impl Widths {
    spec fn cols(self) -> Columns {
        Columns {
            label: self.label as nat,
            path: self.path as nat,
            agent: self.agent as nat,
            version: self.version as nat,
        }
    }

    spec fn bounded(self) -> bool {
        &&& self.label <= 0x1_0000_0000_0000_0002
        &&& self.path <= 30
        &&& self.agent <= 0x1_0000_0000_0000_0000
        &&& self.version <= 0x1_0000_0000_0000_0000
    }

    fn tail(&self) -> (r: u128)
        requires
            self.bounded(),
        ensures
            r == self.cols().tail(),
            r <= 0x1_0000_0000_0000_0000_0000,
    {
        self.path + 1 + self.agent + (if self.version > 0 {
            1 + self.version
        } else {
            0
        })
    }
}

fn measure(items: &Vec<Item>, labels: &Vec<String>, compact: bool) -> (r: Widths)
    requires
        text::texts(labels@) == labels_of(items_view(items@), compact),
    ensures
        r.bounded(),
        r.cols().label == label_column(items_view(items@), compact),
        r.cols().path == smaller(widest(paths_of(items_view(items@))), 30),
        r.cols().agent == widest(agents_of(items_view(items@))),
        r.cols().version == widest(versions_of(items_view(items@))),
        forall|j: int|
            0 <= j < items@.len() ==> table_sized(#[trigger] items_view(items@)[j]),
{
    let ghost v = items_view(items@);
    let ghost ls = text::texts(labels@);
    let mut label: u128 = 0;
    let mut path: u128 = 0;
    let mut agent: u128 = 0;
    let mut version: u128 = 0;
    let mut panes = false;
    let mut i: usize = 0;
    assert(ls.len() == v.len());
    assert(labels@.len() == items@.len());
    while i < items.len()
        invariant
            i <= items@.len(),
            labels@.len() == items@.len(),
            v == items_view(items@),
            ls == text::texts(labels@),
            label == widest_label(ls.take(i as int)),
            path == widest(paths_of(v).take(i as int)),
            agent == widest(agents_of(v).take(i as int)),
            version == widest(versions_of(v).take(i as int)),
            label <= 0x1_0000_0000_0000_0001,
            path <= 0x1_0000_0000_0000_0000,
            agent <= 0x1_0000_0000_0000_0000,
            version <= 0x1_0000_0000_0000_0000,
            panes == exists|j: int| 0 <= j < i && !(#[trigger] v[j]).note,
            forall|j: int| 0 <= j < i ==> table_sized(#[trigger] v[j]),
        decreases items@.len() - i,
    {
        let it = &items[i];
        assert(v[i as int] == it@);
        assert(ls.take(i + 1).drop_last() =~= ls.take(i as int));
        assert(ls.take(i + 1).last() == labels@[i as int]@);
        assert(paths_of(v).take(i + 1).drop_last() =~= paths_of(v).take(i as int));
        assert(agents_of(v).take(i + 1).drop_last() =~= agents_of(v).take(i as int));
        assert(versions_of(v).take(i + 1).drop_last() =~= versions_of(v).take(i as int));
        let lw: u128 = vlen(&labels[i]) as u128 + 2;
        let pw: u128 = vlen(&it.path) as u128;
        let aw: u128 = vlen(&it.agent) as u128;
        let vw: u128 = vlen(&it.version) as u128;
        if lw > label {
            label = lw;
        }
        if pw > path {
            path = pw;
        }
        if aw > agent {
            agent = aw;
        }
        if vw > version {
            version = vw;
        }
        if !it.note {
            panes = true;
        }
        i = i + 1;
    }
    assert(ls.take(ls.len() as int) =~= ls);
    assert(paths_of(v).take(v.len() as int) =~= paths_of(v));
    assert(agents_of(v).take(v.len() as int) =~= agents_of(v));
    assert(versions_of(v).take(v.len() as int) =~= versions_of(v));
    if compact {
        if label > 15 {
            label = 15;
        }
    } else if panes {
        if label < 15 {
            label = 15;
        }
    }
    Widths {
        label,
        path: if path < 30 {
            path
        } else {
            30
        },
        agent,
        version,
    }
}

fn search_terms(query: &str) -> (r: Vec<String>)
    ensures
        text::texts(r@) == terms_of(query@),
{
    let pieces = text::split_either(query, ' ', '\t');
    let words = text::drop_empty(&pieces);
    let mut out: Vec<String> = Vec::new();
    let mut i: usize = 0;
    while i < words.len()
        invariant
            i <= words@.len(),
            out@.len() == i,
            forall|j: int| 0 <= j < i ==> (#[trigger] out@[j])@ == text::lowercase(words@[j]@),
        decreases words@.len() - i,
    {
        let t = text::to_lowercase(&words[i]);
        out.push(t);
        i = i + 1;
    }
    assert(text::texts(words@) == text::nonempty(text::split_on(query@, ' ', '\t')));
    assert(text::texts(out@) =~= terms_of(query@));
    out
}

proof fn lemma_cells_push(v: Seq<Cell>, c: Cell)
    ensures
        cells_view(v.push(c)) == cells_view(v).push(c@),
{
    assert(cells_view(v.push(c)) =~= cells_view(v).push(c@));
}

fn put(cells: &mut Vec<Cell>, text: &str, paint: &'static str)
    ensures
        cells_view(final(cells)@) == cells_view(old(cells)@).push(painted(text@, paint@)),
{
    let c = cell(text, paint);
    proof {
        lemma_cells_push(cells@, c);
    }
    cells.push(c);
}

fn put_marker(cells: &mut Vec<Cell>, restarting: bool, state: &str)
    ensures
        cells_view(final(cells)@) == cells_view(old(cells)@) + marker(restarting, state@),
{
    let ghost before = cells_view(cells@);
    if restarting {
        put(cells, "↻", MARK_RESTART);
        put(cells, " ", PLAIN);
    } else if same(state, "input") {
        put(cells, "✳", MARK_INPUT);
        put(cells, " ", PLAIN);
    } else if same(state, "run") {
        put(cells, "◐", MARK_RUN);
        put(cells, " ", PLAIN);
    } else {
        put(cells, "  ", PLAIN);
    }
    assert(cells_view(cells@) =~= before + marker(restarting, state@));
}

fn put_agent(cells: &mut Vec<Cell>, it: &Item, w: u128)
    ensures
        cells_view(final(cells)@) == cells_view(old(cells)@) + agent_cells(it@, w as nat),
{
    let ghost before = cells_view(cells@);
    if it.agent.as_str().is_empty() {
        let fill = spaces(w);
        put(cells, &fill, PLAIN);
    } else {
        let n: u128 = vlen(&it.agent) as u128;
        let fill = spaces(if w >= n {
            w - n
        } else {
            0
        });
        put(cells, &fill, PLAIN);
        put(cells, &it.agent, mode_paint(&it.mode));
    }
    assert(cells_view(cells@) =~= before + agent_cells(it@, w as nat));
}

fn put_version(cells: &mut Vec<Cell>, it: &Item, w: u128, resumable: &str, newver: &str)
    ensures
        cells_view(final(cells)@) == cells_view(old(cells)@) + version_cells(
            it@,
            w as nat,
            resumable@,
            newver@,
        ),
{
    let ghost before = cells_view(cells@);
    if w > 0 {
        let mut lead = " ".to_owned();
        if it.version.as_str().is_empty() {
            let fill = spaces(w);
            lead.append(&fill);
            put(cells, &lead, PLAIN);
        } else {
            let n: u128 = vlen(&it.version) as u128;
            let fill = spaces(if w >= n {
                w - n
            } else {
                0
            });
            lead.append(&fill);
            put(cells, &lead, PLAIN);
            let paint = if outdated(resumable, &it.host, &it.agent, &it.version, &it.state, newver) {
                VER_STALE
            } else {
                VER_OK
            };
            put(cells, &it.version, paint);
        }
    }
    assert(cells_view(cells@) =~= before + version_cells(it@, w as nat, resumable@, newver@));
}

fn snippet_for(it: &Item, plabel: &str, sum: &str, input: &Input, terms: &Vec<String>) -> (r: Option<
    String,
>)
    requires
        text::texts(terms@) == terms_of(input.query@),
    ensures
        match r {
            Some(s) => snippet(it@, plabel@, sum@, input@) == Some(s@),
            None => snippet(it@, plabel@, sum@, input@) is None,
        },
{
    match input.snips.get(&it.id) {
        None => None,
        Some(s) => {
            let mut shown = plabel.to_owned();
            shown.append(" ");
            shown.append(sum);
            shown.append(" ");
            shown.append(&it.path);
            shown.append(" ");
            shown.append(&it.agent);
            shown.append(" ");
            shown.append(&it.version);
            if says_it(&shown, terms) {
                None
            } else {
                Some(s)
            }
        },
    }
}

fn put_tail(
    cells: &mut Vec<Cell>,
    it: &Item,
    plabel: &str,
    sum: &str,
    input: &Input,
    terms: &Vec<String>,
    w: &Widths,
)
    requires
        w.bounded(),
        text::texts(terms@) == terms_of(input.query@),
    ensures
        cells_view(final(cells)@) == cells_view(old(cells)@) + tail_cells(
            it@,
            plabel@,
            sum@,
            input@,
            w.cols(),
        ),
        sized(plabel@),
        sized(sum@),
{
    let ghost before = cells_view(cells@);
    match snippet_for(it, plabel, sum, input, terms) {
        Some(s) => {
            let mut tail = "⌕ ".to_owned();
            tail.append(&s);
            let n: u128 = gap_of(input.width, vlen(plabel), vlen(sum), vlen(&tail) as u128);
            let fill = spaces(n);
            put(cells, &fill, PLAIN);
            put(cells, &tail, PATH);
        },
        None => {
            let n: u128 = gap_of(input.width, vlen(plabel), vlen(sum), w.tail());
            let fill = spaces(n);
            put(cells, &fill, PLAIN);
            let path = pad(&it.path, w.path);
            put(cells, &path, PATH);
            put(cells, " ", PLAIN);
            let ghost three = cells_view(cells@);
            assert(three =~= before + seq![
                painted(fill@, PLAIN@),
                painted(path@, PATH@),
                painted(" "@, PLAIN@),
            ]);
            put_agent(cells, it, w.agent);
            put_version(cells, it, w.version, input.agent, input.newver);
        },
    }
    assert(cells_view(cells@) =~= before + tail_cells(it@, plabel@, sum@, input@, w.cols()));
}

fn keep_filled(cells: Vec<Cell>) -> (r: Vec<Cell>)
    ensures
        cells_view(r@) == filled(cells_view(cells@)),
{
    let mut out: Vec<Cell> = Vec::new();
    let ghost v = cells_view(cells@);
    let mut i: usize = 0;
    assert(cells_view(out@) =~= filled(v.take(0)));
    while i < cells.len()
        invariant
            i <= cells@.len(),
            v == cells_view(cells@),
            cells_view(out@) == filled(v.take(i as int)),
        decreases cells@.len() - i,
    {
        assert(v.take(i + 1).drop_last() =~= v.take(i as int));
        assert(v.take(i + 1).last() == cells@[i as int]@);
        if !cells[i].text.as_str().is_empty() {
            put(&mut out, &cells[i].text, cells[i].paint.0);
        }
        i = i + 1;
    }
    assert(v.take(v.len() as int) =~= v);
    out
}

fn row_for(it: &Item, label: &str, input: &Input, terms: &Vec<String>, w: &Widths) -> (r: Row)
    requires
        w.bounded(),
        text::texts(terms@) == terms_of(input.query@),
    ensures
        r@ == row_of(it@, label@, input@, w.cols()),
        sized(label_now(it@, label@, input@, w.cols())),
        sized(summary_now(it@, label@, input@, w.cols())),
{
    let is_cur = same(&it.id, input.cur);
    let mut marked = (if is_cur {
        "● "
    } else {
        "  "
    }).to_owned();
    marked.append(label);
    let plabel = pad(&marked, w.label);
    let own = summary_of(&it.title);
    let sum0: String = if own.is_empty() {
        match input.ptitles.get(&it.id) {
            Some(t) => t,
            None => own.to_owned(),
        }
    } else {
        own.to_owned()
    };
    let sum = fit(&sum0, summary_room(input.width, vlen(&plabel), w.tail()));
    let mut cells: Vec<Cell> = Vec::new();
    put(&mut cells, &plabel, if is_cur {
        LABEL_CUR
    } else {
        LABEL_OTHER
    });
    put(&mut cells, " ", PLAIN);
    put_marker(&mut cells, listed(&input.restarting, &it.id), &it.state);
    let ghost lead = cells_view(cells@);
    put(&mut cells, &sum, PLAIN);
    assert(cells_view(cells@) =~= lead + seq![painted(sum@, PLAIN@)]);
    put_tail(&mut cells, it, &plabel, &sum, input, terms, w);
    assert(cells_view(cells@) =~= row_cells(it@, label@, input@, w.cols()));
    trim_trailing(&mut cells);
    let cells = keep_filled(cells);
    Row {
        cells,
        pane_id: it.id.clone(),
        target: it.target.clone(),
        cwd: it.cwd.clone(),
        host: it.host.clone(),
        since: it.since,
    }
}

/// The list, laid out: one row for each line that is kept, in the order of the
/// lines, all in columns measured over the whole list.
pub fn build(tsv: &str, input: &Input) -> (r: Vec<Row>)
    ensures
        rows_view(r@) == laid_out(items_of(text::lines_of(tsv@), input@), input@),
        ({
            let items = items_of(text::lines_of(tsv@), input@);
            forall|i: int|
                0 <= i < r@.len() && in_full(items, input@, i) ==> is_flush(
                    (#[trigger] r@[i])@,
                    items[i].path,
                    input@.width,
                    columns_of(items, input@.width).tail(),
                )
        }),
{
    let terms = search_terms(input.query);
    let ls = lines(tsv);
    let items = read_items(&ls, input);
    let ghost v = items_view(items@);
    let compact = input.width > 0 && input.width < 100;
    let (names, hosts) = names_of(&items);
    let mut labels: Vec<String> = Vec::new();
    let mut i: usize = 0;
    while i < items.len()
        invariant
            i <= items@.len(),
            v == items_view(items@),
            text::texts(names@) == session_names(v),
            text::texts(hosts@) == host_names(v),
            forall|i: int|
                0 <= i < items@.len() ==> (#[trigger] items@[i]).session@.is_prefix_of(
                    items@[i].target@,
                ),
            labels@.len() == i,
            forall|j: int| 0 <= j < i ==> (#[trigger] labels@[j])@ == labels_of(v, compact)[j],
        decreases items@.len() - i,
    {
        let t = label_of(&items[i], &names, &hosts, compact);
        labels.push(t);
        i = i + 1;
    }
    assert(text::texts(labels@) =~= labels_of(v, compact));
    let w = measure(&items, &labels, compact);
    let mut out: Vec<Row> = Vec::new();
    let mut k: usize = 0;
    while k < items.len()
        invariant
            k <= items@.len(),
            v == items_view(items@),
            labels@.len() == items@.len(),
            text::texts(labels@) == labels_of(v, compact),
            compact == is_compact(input@.width),
            text::texts(terms@) == terms_of(input.query@),
            w.bounded(),
            w.cols() == columns_of(v, input@.width),
            out@.len() == k,
            forall|j: int| 0 <= j < k ==> (#[trigger] out@[j])@ == laid_out(v, input@)[j],
            v == items_of(text::lines_of(tsv@), input@),
            forall|j: int| 0 <= j < v.len() ==> table_sized(#[trigger] v[j]),
            forall|j: int|
                0 <= j < k && in_full(v, input@, j) ==> is_flush(
                    (#[trigger] out@[j])@,
                    v[j].path,
                    input@.width,
                    columns_of(v, input@.width).tail(),
                ),
        decreases items@.len() - k,
    {
        assert(text::texts(labels@)[k as int] == labels@[k as int]@);
        let row = row_for(&items[k], &labels[k], input, &terms, &w);
        proof {
            assert(table_sized(v[k as int]));
            if in_full(v, input@, k as int) {
                lemma_paths_are_short(text::lines_of(tsv@), input@);
                lemma_a_full_row_is_flush(v, input@, k as int);
            }
        }
        out.push(row);
        k = k + 1;
    }
    assert(rows_view(out@) =~= laid_out(v, input@));
    out
}

// ---------------------------------------------------------------------------
// Laws
// ---------------------------------------------------------------------------
/// Is it nothing, or one colour sequence: an escape, a bracket, anything without an
/// `m`, and an `m`?
pub open spec fn is_paint(p: Seq<char>) -> bool {
    ||| p.len() == 0
    ||| {
        &&& p.len() >= 3
        &&& p[0] == '\x1b'
        &&& p[1] == '['
        &&& p.last() == 'm'
        &&& text::free_of(p.skip(2).drop_last(), 'm')
    }
}

/// Every paint that a row is drawn in is one.
pub proof fn lemma_the_paints_are_paints()
    ensures
        is_paint(PLAIN@),
        is_paint(LABEL_CUR@),
        is_paint(LABEL_OTHER@),
        is_paint(MARK_INPUT@),
        is_paint(MARK_RUN@),
        is_paint(MARK_RESTART@),
        is_paint(PATH@),
        is_paint(MODE_ASK@),
        is_paint(MODE_EDIT@),
        is_paint(MODE_AUTO@),
        is_paint(VER_STALE@),
        is_paint(VER_OK@),
{
    reveal_strlit("");
    reveal_strlit("\x1b[33m");
    reveal_strlit("\x1b[36m");
    reveal_strlit("\x1b[1;33m");
    reveal_strlit("\x1b[2m");
    reveal_strlit("\x1b[90m");
    reveal_strlit("\x1b[35m");
    reveal_strlit("\x1b[95m");
    reveal_strlit("\x1b[1;95m");
    reveal_strlit("\x1b[2;35m");
}

/// A text without its colour sequences: each begins with an escape and a bracket, and
/// ends at the first `m`. `inside` says that one has begun.
pub open spec fn unpainted(s: Seq<char>, inside: bool) -> Seq<char>
    decreases s.len(),
{
    if s.len() == 0 {
        Seq::empty()
    } else if inside {
        unpainted(s.skip(1), s[0] != 'm')
    } else if s.len() >= 2 && s[0] == '\x1b' && s[1] == '[' {
        unpainted(s.skip(2), true)
    } else {
        seq![s[0]] + unpainted(s.skip(1), false)
    }
}

proof fn lemma_text_is_kept(a: Seq<char>, b: Seq<char>)
    requires
        text::free_of(a, '\x1b'),
    ensures
        unpainted(a + b, false) == a + unpainted(b, false),
    decreases a.len(),
{
    if a.len() == 0 {
        assert(a + b =~= b);
        assert(a + unpainted(b, false) =~= unpainted(b, false));
    } else {
        assert((a + b)[0] == a[0]);
        assert((a + b).skip(1) =~= a.skip(1) + b);
        lemma_text_is_kept(a.skip(1), b);
        assert(a + unpainted(b, false) =~= seq![a[0]] + (a.skip(1) + unpainted(b, false)));
    }
}

proof fn lemma_inside_is_dropped(q: Seq<char>, b: Seq<char>)
    requires
        q.len() > 0,
        q.last() == 'm',
        text::free_of(q.drop_last(), 'm'),
    ensures
        unpainted(q + b, true) == unpainted(b, false),
    decreases q.len(),
{
    assert((q + b)[0] == q[0]);
    assert((q + b).skip(1) =~= q.skip(1) + b);
    if q.len() == 1 {
        assert(q.skip(1) + b =~= b);
    } else {
        assert(q.drop_last()[0] == q[0]);
        let t = q.skip(1).drop_last();
        assert forall|i: int| 0 <= i < t.len() implies t[i] != 'm' by {
            assert(t[i] == q.drop_last()[i + 1]);
        }
        lemma_inside_is_dropped(q.skip(1), b);
    }
}

proof fn lemma_sequence_is_dropped(p: Seq<char>, b: Seq<char>)
    requires
        is_paint(p),
        p.len() > 0,
    ensures
        unpainted(p + b, false) == unpainted(b, false),
{
    assert((p + b)[0] == p[0] && (p + b)[1] == p[1]);
    assert((p + b).skip(2) =~= p.skip(2) + b);
    lemma_inside_is_dropped(p.skip(2), b);
}

proof fn lemma_cells_are_kept(v: Seq<CellView>, rest: Seq<char>)
    requires
        forall|i: int|
            0 <= i < v.len() ==> is_paint((#[trigger] v[i]).paint) && text::free_of(
                v[i].text,
                '\x1b',
            ),
    ensures
        unpainted(ansi_cells(v) + rest, false) == plain_cells(v) + unpainted(rest, false),
    decreases v.len(),
{
    if v.len() == 0 {
        assert(ansi_cells(v) + rest =~= rest);
        assert(plain_cells(v) + unpainted(rest, false) =~= unpainted(rest, false));
    } else {
        let front = v.drop_last();
        let c = v[v.len() - 1];
        assert forall|i: int| 0 <= i < front.len() implies is_paint((#[trigger] front[i]).paint)
            && text::free_of(front[i].text, '\x1b') by {
            assert(front[i] == v[i]);
        }
        assert(ansi_cells(v) + rest =~= ansi_cells(front) + (ansi_cell(c) + rest));
        lemma_cells_are_kept(front, ansi_cell(c) + rest);
        if c.paint == PLAIN@ {
            lemma_text_is_kept(c.text, rest);
        } else {
            let reset = "\x1b[0m"@;
            reveal_strlit("");
            assert(c.paint.len() > 0) by {
                if c.paint.len() == 0 {
                    assert(c.paint =~= PLAIN@);
                }
            }
            reveal_strlit("\x1b[0m");
            assert(is_paint(reset));
            assert(ansi_cell(c) + rest =~= c.paint + (c.text + (reset + rest)));
            lemma_sequence_is_dropped(c.paint, c.text + (reset + rest));
            lemma_text_is_kept(c.text, reset + rest);
            lemma_sequence_is_dropped(reset, rest);
        }
        assert(plain_cells(v) + unpainted(rest, false) =~= plain_cells(front) + (c.text + unpainted(
            rest,
            false,
        )));
    }
}

/// What a terminal is sent of a row is, without the colours, the plain row, a tab and
/// the pane's id, whatever colour sequences its cells are painted with.
pub proof fn lemma_colours_are_all_that_is_added(row: RowView)
    requires
        forall|i: int|
            0 <= i < row.cells.len() ==> is_paint((#[trigger] row.cells[i]).paint) && text::free_of(
                row.cells[i].text,
                '\x1b',
            ),
        text::free_of(row.pane_id, '\x1b'),
    ensures
        unpainted(ansi_cells(row.cells) + "\t"@ + row.pane_id, false) == plain_cells(row.cells)
            + "\t"@ + row.pane_id,
{
    let rest = "\t"@ + row.pane_id;
    reveal_strlit("\t");
    assert(text::free_of(rest, '\x1b'));
    assert(ansi_cells(row.cells) + "\t"@ + row.pane_id =~= ansi_cells(row.cells) + rest);
    lemma_cells_are_kept(row.cells, rest);
    assert(rest + Seq::<char>::empty() =~= rest);
    lemma_text_is_kept(rest, Seq::empty());
    assert(plain_cells(row.cells) + rest =~= plain_cells(row.cells) + "\t"@ + row.pane_id);
}

/// No colour runs on: a painted cell stands between its paint and a reset, right
/// behind the cells before it and right before those that follow.
pub proof fn lemma_a_painted_cell_is_closed(cells: Seq<CellView>, i: int)
    requires
        0 <= i < cells.len(),
    ensures
        ansi_cells(cells) == ansi_cells(cells.take(i)) + ansi_cell(cells[i]) + ansi_cells(
            cells.skip(i + 1),
        ),
        cells[i].paint != PLAIN@ ==> ansi_cell(cells[i]) == cells[i].paint + cells[i].text
            + "\x1b[0m"@,
    decreases cells.len() - i,
{
    let last = cells.len() - 1;
    if i == last {
        assert(cells.take(i) =~= cells.drop_last());
        assert(cells.skip(i + 1) =~= Seq::<CellView>::empty());
        assert(ansi_cells(cells.skip(i + 1)) =~= Seq::<char>::empty());
        assert(ansi_cells(cells) + Seq::<char>::empty() =~= ansi_cells(cells));
    } else {
        let front = cells.drop_last();
        let behind = cells.skip(i + 1);
        lemma_a_painted_cell_is_closed(front, i);
        assert(front.take(i) =~= cells.take(i));
        assert(front.skip(i + 1) =~= behind.drop_last());
        assert(behind.last() == cells.last());
        assert(ansi_cells(cells) =~= ansi_cells(cells.take(i)) + ansi_cell(cells[i]) + ansi_cells(
            behind,
        ));
    }
}

proof fn lemma_widest(v: Seq<Seq<char>>, i: int)
    requires
        0 <= i < v.len(),
    ensures
        columns(v[i]) <= widest(v),
    decreases v.len(),
{
    if i < v.len() - 1 {
        assert(v.drop_last()[i] == v[i]);
        lemma_widest(v.drop_last(), i);
    }
}

/// What the right-hand table takes on one row, its texts by their columns and its
/// blanks by their number.
pub open spec fn table_taken(it: ItemView, cols: Columns) -> nat {
    columns(it.path) + minus(cols.path, columns(it.path)) + 1 + (if it.agent.len() == 0 {
        cols.agent
    } else {
        minus(cols.agent, columns(it.agent)) + columns(it.agent)
    }) + (if cols.version == 0 {
        0
    } else if it.version.len() == 0 {
        1 + cols.version
    } else {
        1 + minus(cols.version, columns(it.version)) + columns(it.version)
    })
}

/// The trailing columns are one table: on every row of a list whose path is no wider
/// than the path column, they take the same room.
pub proof fn lemma_the_table_is_as_wide_on_every_row(items: Seq<ItemView>, width: nat, i: int)
    requires
        0 <= i < items.len(),
        columns(items[i].path) <= columns_of(items, width).path,
    ensures
        table_taken(items[i], columns_of(items, width)) == columns_of(items, width).tail(),
{
    lemma_widest(agents_of(items), i);
    lemma_widest(versions_of(items), i);
    assert(agents_of(items)[i] == items[i].agent);
    assert(versions_of(items)[i] == items[i].version);
}

proof fn lemma_plain_join(a: Seq<CellView>, b: Seq<CellView>)
    ensures
        plain_cells(a + b) == plain_cells(a) + plain_cells(b),
    decreases b.len(),
{
    if b.len() == 0 {
        assert(a + b =~= a);
        assert(plain_cells(a) + plain_cells(b) =~= plain_cells(a));
    } else {
        assert((a + b).drop_last() =~= a + b.drop_last());
        assert((a + b).last() == b.last());
        lemma_plain_join(a, b.drop_last());
        assert(plain_cells(a + b) =~= plain_cells(a) + plain_cells(b));
    }
}

proof fn lemma_plain_one(c: CellView)
    ensures
        plain_cells(seq![c]) == c.text,
{
    assert(seq![c].drop_last() =~= Seq::<CellView>::empty());
    assert(plain_cells(seq![c].drop_last()) =~= Seq::<char>::empty());
    assert(plain_cells(seq![c]) =~= c.text);
}

proof fn lemma_plain_two(c: CellView, d: CellView)
    ensures
        plain_cells(seq![c, d]) == c.text + d.text,
{
    lemma_plain_one(c);
    assert(seq![c, d].drop_last() =~= seq![c]);
}

proof fn lemma_plain_filled(v: Seq<CellView>)
    ensures
        plain_cells(filled(v)) == plain_cells(v),
    decreases v.len(),
{
    if v.len() > 0 {
        lemma_plain_filled(v.drop_last());
        if v.last().text.len() == 0 {
            assert(plain_cells(v) =~= plain_cells(v.drop_last()));
        } else {
            let f = filled(v.drop_last());
            assert(f.push(v.last()).drop_last() =~= f);
        }
    }
}

proof fn lemma_marker_takes_two(restarting: bool, state: Seq<char>)
    ensures
        plain_cells(marker(restarting, state)).len() == 2,
{
    reveal_strlit("↻");
    reveal_strlit("✳");
    reveal_strlit("◐");
    reveal_strlit(" ");
    reveal_strlit("  ");
    lemma_plain_two(painted("↻"@, MARK_RESTART@), painted(" "@, PLAIN@));
    lemma_plain_two(painted("✳"@, MARK_INPUT@), painted(" "@, PLAIN@));
    lemma_plain_two(painted("◐"@, MARK_RUN@), painted(" "@, PLAIN@));
    lemma_plain_one(painted("  "@, PLAIN@));
}

proof fn lemma_paths_are_short(lines: Seq<Seq<char>>, input: InputView)
    ensures
        forall|i: int|
            0 <= i < items_of(lines, input).len() ==> (#[trigger] items_of(lines, input)[i]).path.len()
                <= 30,
    decreases lines.len(),
{
    if lines.len() > 0 {
        lemma_paths_are_short(lines.drop_last(), input);
        reveal_strlit("…");
        let rest = items_of(lines.drop_last(), input);
        let all = items_of(lines, input);
        assert forall|i: int| 0 <= i < all.len() implies (#[trigger] all[i]).path.len() <= 30 by {
            if i < rest.len() {
                assert(all[i] == rest[i]);
            }
        }
    }
}

/// A summary that was not cut is no wider than its room.
proof fn lemma_an_uncut_summary_fits(s: Seq<char>, n: nat)
    requires
        n > 0,
        plain_ascii(fitted(s, n)),
    ensures
        columns(fitted(s, n)) <= n,
{
    if columns(s) > n {
        let cut = fitting(s, n, 0, 0) + "…"@;
        reveal_strlit("…");
        assert(cut.last() == '…');
        assert(printable(cut[cut.len() - 1]));
    }
}

/// The row of a list in printable ASCII is exactly as long as the window is wide, and
/// its path begins where that of every other such row does: before the right edge as
/// far as the table of the whole list takes.
pub proof fn lemma_a_full_row_is_flush(items: Seq<ItemView>, input: InputView, i: int)
    requires
        0 <= i < items.len(),
        in_full(items, input, i),
        items[i].path.len() <= 30,
        table_sized(items[i]),
        ({
            let cols = columns_of(items, input.width);
            let label = labels_of(items, is_compact(input.width))[i];
            sized(label_now(items[i], label, input, cols)) && sized(
                summary_now(items[i], label, input, cols),
            )
        }),
    ensures
        is_flush(
            laid_out(items, input)[i],
            items[i].path,
            input.width,
            columns_of(items, input.width).tail(),
        ),
{
    let it = items[i];
    let cols = columns_of(items, input.width);
    let label = labels_of(items, is_compact(input.width))[i];
    let plabel = label_now(it, label, input, cols);
    let sum = summary_now(it, label, input, cols);
    let width = input.width;
    let tail = cols.tail();
    lemma_widest(paths_of(items), i);
    assert(paths_of(items)[i] == it.path);
    lemma_the_table_is_as_wide_on_every_row(items, width, i);
    let own = summary(it.title);
    let whole = if own.len() == 0 && input.ptitles.dom().contains(it.id) {
        input.ptitles[it.id]
    } else {
        own
    };
    lemma_an_uncut_summary_fits(whole, room(width, columns(plabel), tail));
    lemma_a_row_ends_at_the_edge(width, columns(plabel), columns(sum), tail);
    let n = gap(width, columns(plabel), columns(sum), tail);
    // The row, part by part.
    reveal_strlit(" ");
    let paint = if it.id == input.cur {
        LABEL_CUR@
    } else {
        LABEL_OTHER@
    };
    let a = seq![painted(plabel, paint), painted(" "@, PLAIN@)];
    let b = marker(input.restarting.contains(it.id), it.state);
    let c = seq![painted(sum, PLAIN@)];
    let d = seq![
        painted(blanks(n), PLAIN@),
        painted(padded(it.path, cols.path), PATH@),
        painted(" "@, PLAIN@),
    ];
    let e = agent_cells(it, cols.agent);
    let f = version_cells(it, cols.version, input.agent, input.newver);
    let cells = row_cells(it, label, input, cols);
    assert(cells =~= a + b + c + (d + e + f));
    lemma_plain_two(painted(plabel, paint), painted(" "@, PLAIN@));
    lemma_marker_takes_two(input.restarting.contains(it.id), it.state);
    lemma_plain_one(painted(sum, PLAIN@));
    lemma_plain_two(painted(blanks(n), PLAIN@), painted(padded(it.path, cols.path), PATH@));
    assert(d.drop_last() =~= seq![
        painted(blanks(n), PLAIN@),
        painted(padded(it.path, cols.path), PATH@),
    ]);
    lemma_plain_join(a, b);
    lemma_plain_join(a + b, c);
    lemma_plain_join(d, e);
    lemma_plain_join(d + e, f);
    lemma_plain_join(a + b + c, d + e + f);
    let lead = plain_cells(a + b + c);
    assert(lead.len() == columns(plabel) + 1 + 2 + columns(sum));
    if it.agent.len() == 0 {
        lemma_plain_one(painted(blanks(cols.agent), PLAIN@));
    } else {
        lemma_plain_two(
            painted(blanks(minus(cols.agent, columns(it.agent))), PLAIN@),
            painted(it.agent, mode_colour(it.mode)),
        );
    }
    lemma_widest(versions_of(items), i);
    assert(versions_of(items)[i] == it.version);
    let fill = painted(" "@ + blanks(minus(cols.version, columns(it.version))), PLAIN@);
    let last = painted(it.version, version_colour(it, input.agent, input.newver));
    lemma_plain_two(fill, last);
    let s = plain_cells(cells);
    assert(s.len() == width);
    assert(s.subrange(width - tail, width - tail + it.path.len()) =~= it.path);
    // Nothing is trimmed off: the version is painted, and ends the row.
    assert(cells.last() == last);
    assert(last.paint != PLAIN@) by {
        reveal_strlit("");
        reveal_strlit("\x1b[33m");
        reveal_strlit("\x1b[2;35m");
        assert(PLAIN@.len() == 0);
        assert(VER_STALE@.len() == 5 && VER_OK@.len() == 7);
    }
    assert(trimmed_cells(cells) == cells);
    lemma_plain_filled(cells);
    assert(laid_out(items, input)[i] == row_of(it, label, input, cols));
}

/// Where the summary has room, the table starts that many columns before the right
/// edge as it takes, so the row ends flush with the edge and not behind it. Before the
/// table stand the label, a space, the two columns of the marker, the summary and the
/// gap.
pub proof fn lemma_a_row_ends_at_the_edge(width: nat, label: nat, sum: nat, tail: nat)
    requires
        room(width, label, tail) > 0,
        sum <= room(width, label, tail),
    ensures
        label + 1 + 2 + sum + gap(width, label, sum, tail) + tail == width,
        gap(width, label, sum, tail) >= 2,
{
}

proof fn lemma_telling(names: Seq<Seq<char>>, s: Seq<char>, k: nat)
    requires
        1 <= k,
    ensures
        k <= telling(names, s, k) || telling(names, s, k) == s.len() + 1,
        telling(names, s, k) <= s.len() ==> !clashes(names, s, telling(names, s, k)),
    decreases s.len() + 1 - k,
{
    if k <= s.len() && clashes(names, s, k) {
        lemma_telling(names, s, k + 1);
    }
}

/// Two names of a list are never shortened to the same letters, unless they are the
/// same name.
pub proof fn lemma_short_names_differ(names: Seq<Seq<char>>, i: int, j: int, floor: nat)
    requires
        0 <= i < names.len(),
        0 <= j < names.len(),
        names[i] != names[j],
    ensures
        short_name(names, names[i], floor) != short_name(names, names[j], floor),
{
    let (a, b) = (names[i], names[j]);
    let (ka, kb) = (telling(names, a, 1), telling(names, b, 1));
    lemma_telling(names, a, 1);
    lemma_telling(names, b, 1);
    if short_name(names, a, floor) == short_name(names, b, floor) {
        if ka <= a.len() {
            assert(text::first_chars(a, ka) =~= text::first_chars(
                text::first_chars(a, larger(ka, floor)),
                ka,
            ));
            assert(text::first_chars(b, ka) =~= text::first_chars(a, ka)) by {
                assert(short_name(names, b, floor).len() >= ka);
                assert(text::first_chars(b, ka) =~= text::first_chars(
                    text::first_chars(b, larger(kb, floor)),
                    ka,
                ));
            }
            assert(clashes(names, a, ka));
        } else if kb <= b.len() {
            assert(text::first_chars(b, kb) =~= text::first_chars(
                text::first_chars(b, larger(kb, floor)),
                kb,
            ));
            assert(text::first_chars(a, kb) =~= text::first_chars(b, kb)) by {
                assert(short_name(names, a, floor).len() >= kb);
                assert(text::first_chars(a, kb) =~= text::first_chars(
                    text::first_chars(a, larger(ka, floor)),
                    kb,
                ));
            }
            assert(clashes(names, b, kb));
        } else {
            assert(text::first_chars(a, larger(ka, floor)) =~= a);
            assert(text::first_chars(b, larger(kb, floor)) =~= b);
        }
    }
}

/// The outdated list holds exactly the rows the version column paints yellow:
/// every line that is kept in it is behind, and of two lists that differ in
/// nothing else the outdated one has just those lines of the other that are
/// behind.
pub proof fn lemma_outdated_list_is_the_yellow_rows(f: Seq<Seq<char>>, input: InputView)
    ensures
        ({
            let all = InputView { outdated: false, ..input };
            let only = InputView { outdated: true, ..input };
            kept(f, only) <==> kept(f, all) && version_colour(item_of(f, all), input.agent, input.newver)
                == VER_STALE@
        }),
{
    reveal_strlit("\x1b[33m");
    reveal_strlit("\x1b[2;35m");
    assert(VER_STALE@.len() == 5);
    assert(VER_OK@.len() == 7);
}

/// With nothing installed to compare against, the outdated list is empty.
pub proof fn lemma_nothing_installed_nothing_outdated(lines: Seq<Seq<char>>, input: InputView)
    requires
        input.outdated,
        input.newver.len() == 0,
    ensures
        items_of(lines, input).len() == 0,
    decreases lines.len(),
{
    if lines.len() > 0 {
        lemma_nothing_installed_nothing_outdated(lines.drop_last(), input);
    }
}

/// A restart in flight changes the marker column of its row and nothing else:
/// the same rows come, in the same order, with the same columns.
pub proof fn lemma_restarting_keeps_the_list(
    lines: Seq<Seq<char>>,
    input: InputView,
    restarting: Seq<Seq<char>>,
)
    ensures
        items_of(lines, InputView { restarting, ..input }) == items_of(lines, input),
        ({
            let items = items_of(lines, input);
            let other = InputView { restarting, ..input };
            forall|i: int|
                0 <= i < items.len() ==> (#[trigger] laid_out(items, other)[i]).pane_id
                    == laid_out(items, input)[i].pane_id
        }),
    decreases lines.len(),
{
    if lines.len() > 0 {
        lemma_restarting_keeps_the_list(lines.drop_last(), input, restarting);
    }
}

proof fn lemma_trimming_stops_at_a_paint(a: Seq<CellView>, c: CellView, b: Seq<CellView>) -> (rest:
    Seq<CellView>)
    requires
        c.paint != PLAIN@,
    ensures
        trimmed_cells(a.push(c) + b) == a.push(c) + rest,
    decreases b.len(),
{
    let v = a.push(c) + b;
    if b.len() == 0 {
        assert(v =~= a.push(c));
        assert(a.push(c) + b =~= a.push(c));
        b
    } else {
        assert(v.last() == b.last());
        assert(v.drop_last() =~= a.push(c) + b.drop_last());
        let t = without_spaces(v.last().text);
        if v.last().paint != PLAIN@ || t.len() == v.last().text.len() {
            b
        } else if t.len() > 0 {
            let rest = b.drop_last().push(painted(t, PLAIN@));
            assert(trimmed_cells(v) =~= a.push(c) + rest);
            rest
        } else {
            lemma_trimming_stops_at_a_paint(a, c, b.drop_last())
        }
    }
}

/// The plain row is the label, a space, two characters of marker, the summary, and then
/// whatever stands right of it.
proof fn lemma_a_row_opens_on_its_marker(
    it: ItemView,
    label: Seq<char>,
    input: InputView,
    cols: Columns,
) -> (rest: Seq<char>)
    ensures
        plain_cells(row_of(it, label, input, cols).cells) == label_now(it, label, input, cols) + " "@
            + plain_cells(marker(input.restarting.contains(it.id), it.state)) + summary_now(
            it,
            label,
            input,
            cols,
        ) + rest,
{
    let plabel = label_now(it, label, input, cols);
    let sum = summary_now(it, label, input, cols);
    let paint = if it.id == input.cur {
        LABEL_CUR@
    } else {
        LABEL_OTHER@
    };
    let a = seq![painted(plabel, paint), painted(" "@, PLAIN@)];
    let m = marker(input.restarting.contains(it.id), it.state);
    let c = seq![painted(sum, PLAIN@)];
    let tail = tail_cells(it, plabel, sum, input, cols);
    let cells = row_cells(it, label, input, cols);
    assert(cells =~= a + m + c + tail);
    assert(tail.len() >= 2 && tail[1].paint == PATH@);
    reveal_strlit("");
    reveal_strlit("\x1b[90m");
    assert(PATH@.len() == 5 && PLAIN@.len() == 0);
    let front = (a + m + c).push(tail[0]);
    assert(cells =~= front.push(tail[1]) + tail.skip(2));
    let more = lemma_trimming_stops_at_a_paint(front, tail[1], tail.skip(2));
    let end = seq![tail[0], tail[1]] + more;
    assert(front.push(tail[1]) + more =~= a + m + c + end);
    lemma_plain_filled(trimmed_cells(cells));
    lemma_plain_two(painted(plabel, paint), painted(" "@, PLAIN@));
    lemma_plain_one(painted(sum, PLAIN@));
    lemma_plain_join(a, m);
    lemma_plain_join(a + m, c);
    lemma_plain_join(a + m + c, end);
    assert(plain_cells(row_of(it, label, input, cols).cells) =~= plabel + " "@ + plain_cells(m)
        + sum + plain_cells(end));
    plain_cells(end)
}

/// The marker says what the session is doing. Right behind the label and its space stands
/// a star where it waits for an answer, half a disc where it works, an arrow where it is
/// being restarted, and nothing in any other case; a space follows.
pub proof fn lemma_the_marker_tells_the_state(
    it: ItemView,
    label: Seq<char>,
    input: InputView,
    cols: Columns,
)
    ensures
        ({
            let row = plain_cells(row_of(it, label, input, cols).cells);
            let at = label_now(it, label, input, cols).len() as int;
            let busy = input.restarting.contains(it.id);
            &&& row.len() >= at + 3
            &&& row.take(at) == label_now(it, label, input, cols)
            &&& row[at] == ' '
            &&& row[at + 1] == '✳' <==> !busy && it.state == "input"@
            &&& row[at + 1] == '◐' <==> !busy && it.state == "run"@
            &&& row[at + 1] == '↻' <==> busy
            &&& row[at + 1] == ' ' <==> !busy && it.state != "input"@ && it.state != "run"@
            &&& row[at + 2] == ' '
        }),
{
    let m = plain_cells(marker(input.restarting.contains(it.id), it.state));
    let label_shown = label_now(it, label, input, cols);
    let at = label_shown.len() as int;
    let row = plain_cells(row_of(it, label, input, cols).cells);
    let rest = lemma_a_row_opens_on_its_marker(it, label, input, cols);
    lemma_marker_takes_two(input.restarting.contains(it.id), it.state);
    reveal_strlit("↻");
    reveal_strlit("✳");
    reveal_strlit("◐");
    reveal_strlit(" ");
    reveal_strlit("  ");
    reveal_strlit("input");
    reveal_strlit("run");
    assert("input"@.len() == 5 && "run"@.len() == 3);
    lemma_plain_two(painted("↻"@, MARK_RESTART@), painted(" "@, PLAIN@));
    lemma_plain_two(painted("✳"@, MARK_INPUT@), painted(" "@, PLAIN@));
    lemma_plain_two(painted("◐"@, MARK_RUN@), painted(" "@, PLAIN@));
    lemma_plain_one(painted("  "@, PLAIN@));
    assert(row.take(at) =~= label_shown);
    assert(row[at + 1] == m[0] && row[at + 2] == m[1]);
}

/// Rows that differ in their state alone differ in their marker: waiting, working and
/// idle look different, whatever else is on the row.
pub proof fn lemma_states_look_different(
    it: ItemView,
    label: Seq<char>,
    input: InputView,
    cols: Columns,
    one: Seq<char>,
    other: Seq<char>,
)
    requires
        !input.restarting.contains(it.id),
        one == "input"@ || one == "run"@ || one == "idle"@,
        other == "input"@ || other == "run"@ || other == "idle"@,
        one != other,
    ensures
        ({
            let a = plain_cells(row_of(ItemView { state: one, ..it }, label, input, cols).cells);
            let b = plain_cells(row_of(ItemView { state: other, ..it }, label, input, cols).cells);
            let at = label_now(it, label, input, cols).len() as int;
            &&& a.take(at + 1) == b.take(at + 1)
            &&& a[at + 1] != b[at + 1]
        }),
{
    let first = ItemView { state: one, ..it };
    let second = ItemView { state: other, ..it };
    lemma_the_marker_tells_the_state(first, label, input, cols);
    lemma_the_marker_tells_the_state(second, label, input, cols);
    let a = plain_cells(row_of(first, label, input, cols).cells);
    let b = plain_cells(row_of(second, label, input, cols).cells);
    let at = label_now(it, label, input, cols).len() as int;
    assert(label_now(first, label, input, cols) == label_now(it, label, input, cols));
    assert(label_now(second, label, input, cols) == label_now(it, label, input, cols));
    assert forall|k: int| 0 <= k <= at implies a[k] == b[k] by {
        if k < at {
            assert(a[k] == a.take(at)[k] && b[k] == b.take(at)[k]);
        }
    }
    assert(a.take(at + 1) =~= b.take(at + 1));
    reveal_strlit("input");
    reveal_strlit("run");
    reveal_strlit("idle");
    assert("input"@.len() == 5 && "run"@.len() == 3 && "idle"@.len() == 4);
}

proof fn lemma_filled_join(a: Seq<CellView>, b: Seq<CellView>)
    ensures
        filled(a + b) == filled(a) + filled(b),
    decreases b.len(),
{
    if b.len() == 0 {
        assert(a + b =~= a);
        assert(filled(a) + filled(b) =~= filled(a));
    } else {
        assert((a + b).drop_last() =~= a + b.drop_last());
        assert((a + b).last() == b.last());
        lemma_filled_join(a, b.drop_last());
        assert(filled(a + b) =~= filled(a) + filled(b));
    }
}

proof fn lemma_filled_three(a: CellView, b: CellView, c: CellView)
    requires
        a.text.len() > 0,
        b.text.len() > 0,
        c.text.len() > 0,
    ensures
        filled(seq![a, b, c]) == seq![a, b, c],
{
    assert(seq![a, b, c].drop_last() =~= seq![a, b]);
    assert(seq![a, b].drop_last() =~= seq![a]);
    assert(seq![a].drop_last() =~= Seq::<CellView>::empty());
    assert(filled(seq![a].drop_last()) =~= Seq::<CellView>::empty());
    assert(filled(seq![a]) =~= seq![a]);
    assert(filled(seq![a, b]) =~= seq![a, b]);
    assert(filled(seq![a, b, c]) =~= seq![a, b, c]);
}

/// How a row opens, colours and all: its label, yellow on the pane that the list was opened
/// from and cyan on any other, a space, and the marker, bold yellow where the session
/// waits, dim where it works, and cyan where it is being restarted.
pub proof fn lemma_how_a_row_is_painted(
    it: ItemView,
    label: Seq<char>,
    input: InputView,
    cols: Columns,
)
    ensures
        ({
            let cells = row_of(it, label, input, cols).cells;
            let busy = input.restarting.contains(it.id);
            &&& cells.len() >= 3
            &&& cells[0].text == label_now(it, label, input, cols)
            &&& it.id == input.cur ==> cells[0].paint == "\x1b[33m"@
            &&& it.id != input.cur ==> cells[0].paint == "\x1b[36m"@
            &&& cells[1].text == " "@
            &&& busy ==> cells[2] == (CellView { text: "↻"@, paint: "\x1b[36m"@ })
            &&& !busy && it.state == "input"@ ==> cells[2] == (CellView {
                text: "✳"@,
                paint: "\x1b[1;33m"@,
            })
            &&& !busy && it.state == "run"@ ==> cells[2] == (CellView {
                text: "◐"@,
                paint: "\x1b[2m"@,
            })
            &&& !busy && it.state != "input"@ && it.state != "run"@ ==> cells[2].text == "  "@
        }),
{
    let plabel = label_now(it, label, input, cols);
    let sum = summary_now(it, label, input, cols);
    let paint = if it.id == input.cur {
        LABEL_CUR@
    } else {
        LABEL_OTHER@
    };
    let m = marker(input.restarting.contains(it.id), it.state);
    let tail = tail_cells(it, plabel, sum, input, cols);
    let cells = row_cells(it, label, input, cols);
    let lead = seq![painted(plabel, paint), painted(" "@, PLAIN@), m[0]];
    let between = m.skip(1) + seq![painted(sum, PLAIN@), tail[0]];
    reveal_strlit("");
    reveal_strlit("\x1b[90m");
    assert(PATH@.len() == 5 && PLAIN@.len() == 0);
    assert(tail.len() >= 2 && tail[1].paint == PATH@);
    let front = lead + between;
    assert(cells =~= front.push(tail[1]) + tail.skip(2));
    let more = lemma_trimming_stops_at_a_paint(front, tail[1], tail.skip(2));
    let end = between + seq![tail[1]] + more;
    assert(front.push(tail[1]) + more =~= lead + end);
    reveal_strlit("● ");
    reveal_strlit("  ");
    reveal_strlit(" ");
    reveal_strlit("↻");
    reveal_strlit("✳");
    reveal_strlit("◐");
    reveal_strlit("input");
    reveal_strlit("run");
    assert("input"@.len() == 5 && "run"@.len() == 3);
    assert(plabel.len() >= 2);
    lemma_filled_three(painted(plabel, paint), painted(" "@, PLAIN@), m[0]);
    lemma_filled_join(lead, end);
    assert(row_of(it, label, input, cols).cells =~= lead + filled(end));
}

/// A row that shows no snippet shows where the session is, in which agent and, where the
/// list has that column, in which version; a row that shows one shows it in their place.
pub proof fn lemma_a_row_shows_where_it_is(
    it: ItemView,
    label: Seq<char>,
    input: InputView,
    cols: Columns,
)
    ensures
        ({
            let row = row_of(it, label, input, cols);
            let plain = plain_cells(row.cells);
            let said = snippet(
                it,
                label_now(it, label, input, cols),
                summary_now(it, label, input, cols),
                input,
            );
            &&& said is None ==> text::has(plain, it.path)
            &&& said is None && it.agent.len() > 0 ==> text::has(plain, it.agent)
            &&& said is None && it.version.len() > 0 && cols.version > 0 ==> row.cells.last().text
                == it.version
            &&& said is Some ==> text::has(plain, "⌕ "@ + said->0)
        }),
{
    let plabel = label_now(it, label, input, cols);
    let sum = summary_now(it, label, input, cols);
    let paint = if it.id == input.cur {
        LABEL_CUR@
    } else {
        LABEL_OTHER@
    };
    let lead = seq![painted(plabel, paint), painted(" "@, PLAIN@)] + marker(
        input.restarting.contains(it.id),
        it.state,
    ) + seq![painted(sum, PLAIN@)];
    let tail = tail_cells(it, plabel, sum, input, cols);
    let cells = row_cells(it, label, input, cols);
    reveal_strlit("");
    reveal_strlit("\x1b[90m");
    assert(PATH@.len() == 5 && PLAIN@.len() == 0);
    assert(cells =~= lead + tail);
    lemma_plain_filled(trimmed_cells(cells));
    let k = lead.len() as int + 1;
    assert(cells[k] == tail[1]);
    lemma_a_painted_cell_is_shown(cells, k);
    match snippet(it, plabel, sum, input) {
        Some(s) => {},
        None => {
            let blank = blanks(minus(cols.path, columns(it.path)));
            assert(cells[k].text == it.path + blank);
            lemma_a_part_is_had(plain_cells(trimmed_cells(cells)), it.path, blank);
            if it.agent.len() > 0 {
                let at = lead.len() as int + 4;
                reveal_strlit("\x1b[35m");
                reveal_strlit("\x1b[95m");
                reveal_strlit("\x1b[1;95m");
                assert(MODE_ASK@.len() == 5 && MODE_EDIT@.len() == 5 && MODE_AUTO@.len() == 7);
                assert(tail[4] == painted(it.agent, mode_colour(it.mode)));
                assert(cells[at] == tail[4]);
                lemma_a_painted_cell_is_shown(cells, at);
            }
            if it.version.len() > 0 && cols.version > 0 {
                reveal_strlit("\x1b[33m");
                reveal_strlit("\x1b[2;35m");
                assert(VER_STALE@.len() == 5 && VER_OK@.len() == 7);
                assert(tail.last() == painted(
                    it.version,
                    version_colour(it, input.agent, input.newver),
                ));
                assert(cells.last() == tail.last());
                assert(trimmed_cells(cells) == cells);
                assert(filled(cells).last() == cells.last());
            }
        },
    }
}

proof fn lemma_a_part_is_had(s: Seq<char>, a: Seq<char>, b: Seq<char>)
    requires
        text::has(s, a + b),
    ensures
        text::has(s, a),
{
    let w = a + b;
    let i = choose|i: int| text::occurs_at(s, w, i);
    assert(s.subrange(i, i + a.len()) =~= w.subrange(0, a.len() as int)) by {
        assert forall|k: int| 0 <= k < a.len() implies s[i + k] == w[k] by {
            assert(s.subrange(i, i + w.len())[k] == w[k]);
        }
    }
    assert(w.subrange(0, a.len() as int) =~= a);
    assert(text::occurs_at(s, a, i));
}

proof fn lemma_a_painted_cell_is_shown(cells: Seq<CellView>, k: int)
    requires
        0 <= k < cells.len(),
        cells[k].paint != PLAIN@,
    ensures
        text::has(plain_cells(trimmed_cells(cells)), cells[k].text),
{
    let a = cells.take(k);
    let c = cells[k];
    let b = cells.skip(k + 1);
    assert(cells =~= a.push(c) + b);
    let rest = lemma_trimming_stops_at_a_paint(a, c, b);
    assert(a.push(c) + rest =~= a + seq![c] + rest);
    lemma_plain_join(a + seq![c], rest);
    lemma_plain_join(a, seq![c]);
    lemma_plain_one(c);
    text::lemma_has_middle(plain_cells(a), c.text, plain_cells(rest));
}

/// A version is yellow exactly where a restart would bring the session up to date, and
/// dim otherwise; how far an agent may go on its own shows in the colour of its name.
pub proof fn lemma_what_the_colours_say(it: ItemView, resumable: Seq<char>, newver: Seq<char>)
    ensures
        version_colour(it, resumable, newver) == "\x1b[33m"@ <==> it.state != "dead"@
            && it.host.len() == 0 && it.agent == resumable && newver.len() > 0 && it.version.len()
            > 0 && it.version != newver,
        version_colour(it, resumable, newver) == "\x1b[33m"@ || version_colour(
            it,
            resumable,
            newver,
        ) == "\x1b[2;35m"@,
        mode_colour("acceptEdits"@) == "\x1b[95m"@,
        mode_colour("bypassPermissions"@) == "\x1b[1;95m"@,
        mode_colour("auto"@) == "\x1b[1;95m"@,
        it.mode != "acceptEdits"@ && it.mode != "bypassPermissions"@ && it.mode != "auto"@
            ==> mode_colour(it.mode) == "\x1b[35m"@,
{
    reveal_strlit("\x1b[33m");
    reveal_strlit("\x1b[2;35m");
    assert("\x1b[33m"@.len() == 5 && "\x1b[2;35m"@.len() == 7);
    reveal_strlit("acceptEdits");
    reveal_strlit("bypassPermissions");
    reveal_strlit("auto");
    assert("acceptEdits"@.len() == 11 && "bypassPermissions"@.len() == 17 && "auto"@.len() == 4);
}

/// What the title leads with is not said twice: a title behind a mark and a space is shown
/// without them, and a title that opens on plain text is shown whole.
pub proof fn lemma_a_leading_mark_is_taken_off(mark: Seq<char>, rest: Seq<char>)
    requires
        mark.len() > 0,
        forall|i: int| 0 <= i < mark.len() ==> !printable(#[trigger] mark[i]),
    ensures
        summary(mark + " "@ + rest) == rest,
        rest.len() > 0 && printable(rest[0]) ==> summary(rest) == rest,
{
    reveal_strlit(" ");
    let t = mark + " "@ + rest;
    lemma_mark_ends(mark, " "@ + rest, 0);
    assert(t =~= mark + (" "@ + rest));
    assert(t[mark.len() as int] == ' ');
    assert(t.skip(mark.len() as int + 1) =~= rest);
}

proof fn lemma_mark_ends(mark: Seq<char>, rest: Seq<char>, i: int)
    requires
        0 <= i <= mark.len(),
        forall|k: int| 0 <= k < mark.len() ==> !printable(#[trigger] mark[k]),
        rest.len() > 0,
        printable(rest[0]),
    ensures
        marker_end(mark + rest, i) == mark.len(),
    decreases mark.len() - i,
{
    let t = mark + rest;
    if i < mark.len() {
        assert(t[i] == mark[i]);
        lemma_mark_ends(mark, rest, i + 1);
    } else {
        assert(t[i] == rest[0]);
    }
}

/// A path is shown by its last two components, with the home directory as a tilde; a long
/// one loses its start, and the mark for that takes its place.
pub proof fn lemma_a_path_is_shown_by_its_end(
    front: Seq<char>,
    a: Seq<char>,
    b: Seq<char>,
    home: Seq<char>,
)
    requires
        text::free_of(a, '/'),
        text::free_of(b, '/'),
        home.len() > 0,
        home.last() != '/',
    ensures
        a.len() + b.len() + 1 <= 30 ==> short_path(front + "/"@ + a + "/"@ + b, Seq::empty()) == a
            + "/"@ + b,
        short_path(home, home) == "~"@,
        b.len() <= 28 ==> short_path(home + "/"@ + b, home) == "~/"@ + b,
        short_path(front, home).len() <= 30,
{
    reveal_strlit("/");
    reveal_strlit("~");
    reveal_strlit("~/");
    reveal_strlit("…");
    let slash = "/"@;
    assert(slash =~= seq!['/']);
    let cwd = front + slash + a + slash + b;
    text::lemma_fields_join(front + slash + a, '/', b);
    text::lemma_fields_join(front, '/', a);
    text::lemma_one_field(a, '/');
    text::lemma_one_field(b, '/');
    text::lemma_some_field(front, '/');
    let f = text::fields(cwd, '/');
    assert(f == text::fields(front, '/') + seq![a] + seq![b]);
    assert(f[f.len() - 1] == b && f[f.len() - 2] == a);
    assert(!slash.is_suffix_of(home)) by {
        if slash.is_suffix_of(home) {
            assert(home.subrange(home.len() - 1, home.len() as int)[0] == home.last());
        }
    }
    assert(text::without_suffix(home, slash) == home);
    assert(text::free_of("~"@, '/'));
    text::lemma_one_field("~"@, '/');
    let under = home + slash + b;
    assert(under.len() > home.len());
    assert((home + slash).is_prefix_of(under)) by {
        assert(under.subrange(0, (home + slash).len() as int) =~= home + slash);
    }
    assert(under.skip(home.len() as int) =~= slash + b);
    let folded = "~"@ + (slash + b);
    assert(home_folded(under, home) == folded);
    assert(folded =~= "~"@ + slash + b);
    text::lemma_fields_join("~"@, '/', b);
    assert(text::fields(folded, '/') =~= seq!["~"@, b]);
    assert("~"@ + slash + b =~= "~/"@ + b);
}

/// A row on this server is known by its target, a row on another host by that host and the
/// target on it, where the window leaves the room to say so.
pub proof fn lemma_a_label_names_the_target(
    it: ItemView,
    names: Seq<Seq<char>>,
    hosts: Seq<Seq<char>>,
)
    ensures
        it.note ==> label_text(it, names, hosts, false) == it.target && label_text(
            it,
            names,
            hosts,
            true,
        ) == it.target,
        !it.note && it.host.len() == 0 ==> label_text(it, names, hosts, false) == it.target,
        !it.note && it.host.len() > 0 ==> label_text(it, names, hosts, false) == it.host + "/"@
            + it.target,
{
    assert(Seq::<char>::empty() + it.target =~= it.target);
}

/// Every line that is kept has its row: with its pane, its target and its directory.
pub proof fn lemma_every_kept_line_has_its_row(
    lines: Seq<Seq<char>>,
    input: InputView,
    i: int,
) -> (k: int)
    requires
        0 <= i < lines.len(),
        text::fields(lines[i], '\t').len() >= 7,
        input.only.len() == 0 || text::fields(lines[i], '\t')[5] == input.only,
        !input.outdated,
    ensures
        ({
            let f = text::fields(lines[i], '\t');
            let items = items_of(lines, input);
            let out = laid_out(items, input);
            &&& 0 <= k < items.len()
            &&& out.len() == items.len()
            &&& out[k].pane_id == f[0] && out[k].target == f[1] && out[k].cwd == f[2]
            &&& items[k].agent == f[3] && items[k].version == f[4] && items[k].state == f[5]
                && items[k].mode == f[6]
            &&& f.len() > 7 ==> items[k].title == f[7]
        }),
    decreases lines.len(),
{
    let rest = items_of(lines.drop_last(), input);
    if i == lines.len() - 1 {
        rest.len() as int
    } else {
        assert(lines.drop_last()[i] == lines[i]);
        let k = lemma_every_kept_line_has_its_row(lines.drop_last(), input, i);
        assert(items_of(lines, input)[k] == rest[k]);
        k
    }
}

/// The pane that the list was opened from is marked with a disc, and no other; behind the
/// mark stands the label, and behind that nothing but blanks.
pub proof fn lemma_the_current_pane_is_marked(
    it: ItemView,
    label: Seq<char>,
    input: InputView,
    cols: Columns,
)
    ensures
        ({
            let shown = label_now(it, label, input, cols);
            let n = label.len() as int;
            &&& shown.len() >= n + 2
            &&& shown[0] == '●' <==> it.id == input.cur
            &&& it.id != input.cur ==> shown[0] == ' '
            &&& shown[1] == ' '
            &&& shown.subrange(2, n + 2) == label
            &&& forall|k: int| n + 2 <= k < shown.len() ==> #[trigger] shown[k] == ' '
        }),
{
    reveal_strlit("● ");
    reveal_strlit("  ");
    let shown = label_now(it, label, input, cols);
    assert(shown.subrange(2, label.len() as int + 2) =~= label);
}

/// What a session is about is its title, and where it has none what its conversation is
/// called; it is shown whole where the room is enough, and where the width is not known.
pub proof fn lemma_a_summary_is_the_title(
    it: ItemView,
    label: Seq<char>,
    input: InputView,
    cols: Columns,
)
    ensures
        ({
            let left = room(
                input.width,
                columns(label_now(it, label, input, cols)),
                cols.tail(),
            );
            let own = summary(it.title);
            let shown = summary_now(it, label, input, cols);
            &&& own.len() > 0 && (input.width == 0 || left == 0 || columns(own) <= left) ==> shown
                == own
            &&& own.len() == 0 && input.ptitles.dom().contains(it.id) && (input.width == 0 || left
                == 0 || columns(input.ptitles[it.id]) <= left) ==> shown == input.ptitles[it.id]
            &&& left > 0 && own.len() > 0 && columns(own) > left ==> shown.len() > 0
                && shown.last() == '…'
        }),
{
    reveal_strlit("…");
}

/// A row is given what its session said exactly where something was found there that the
/// row itself does not already show.
pub proof fn lemma_when_a_snippet_is_shown(
    it: ItemView,
    plabel: Seq<char>,
    sum: Seq<char>,
    input: InputView,
)
    ensures
        ({
            let shown = plabel + " "@ + sum + " "@ + it.path + " "@ + it.agent + " "@ + it.version;
            &&& !input.snips.dom().contains(it.id) ==> snippet(it, plabel, sum, input) is None
            &&& input.snips.dom().contains(it.id) && !says(shown, terms_of(input.query))
                ==> snippet(it, plabel, sum, input) == Some(input.snips[it.id])
            &&& says(shown, terms_of(input.query)) ==> snippet(it, plabel, sum, input) is None
        }),
{
}

/// A row's id says which host it is on: none where it is a pane's own id, the host before
/// the colon where a pane's id stands behind it, and otherwise it is that host's note.
pub proof fn lemma_an_id_says_which_host(host: Seq<char>, rest: Seq<char>)
    requires
        host.len() > 0,
        host[0] != '%',
        text::free_of(host, ':'),
        rest.len() > 0,
    ensures
        host_and_note(seq!['%'] + rest) == (Seq::<char>::empty(), false),
        rest[0] == '%' ==> host_and_note(host + seq![':'] + rest) == (host, false),
        rest[0] != '%' ==> host_and_note(host + seq![':'] + rest) == (Seq::<char>::empty(), true),
{
    let id = host + seq![':'] + rest;
    let n = host.len() as int;
    assert((seq!['%'] + rest)[0] == '%');
    text::lemma_find_char(id, ':', 0);
    assert(id[n] == ':');
    let c = text::find_char(id, ':', 0)->0;
    if c < n {
        assert(id[c] == host[c]);
    }
    assert(id[0] == host[0]);
    assert(id[n + 1] == rest[0]);
    assert(id.take(n) =~= host);
}

} // verus!
