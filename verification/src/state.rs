//! What a session is doing, read off its screen.
//!
//! This is the most fragile reading in the tool: it infers what a turn is doing
//! from the *shape* of one line. Every rule has the live screen that forced it
//! quoted in its comment.
//!
//! The screen is the corrective, not the source. The hook line and the transcript
//! say what a session is doing; the screen gets the last word only where it says
//! something positively.
use vstd::prelude::*;

use crate::text;
use crate::text::{
    blank, borrowed, chars_of, contains, contains_char, digit, find_at, lines, same,
    skip_space, starts_with, trim, trim_start,
};
use crate::turn::Event;

verus! {

#[derive(Debug, Clone, Copy, PartialEq, Eq, Structural)]
pub enum State {
    Input,
    Run,
    Idle,
    Unknown,
}

impl State {
    /// The word a state is written as.
    pub open spec fn word(self) -> Seq<char> {
        match self {
            State::Input => "input"@,
            State::Run => "run"@,
            State::Idle => "idle"@,
            State::Unknown => "unknown"@,
        }
    }

    pub fn as_str(self) -> (r: &'static str)
        ensures
            r@ == self.word(),
    {
        match self {
            State::Input => "input",
            State::Run => "run",
            State::Idle => "idle",
            State::Unknown => "unknown",
        }
    }
}

// ---------------------------------------------------------------------------
// Waiting for an answer
// ---------------------------------------------------------------------------
/// The lines without the blank ones they end in. A captured screen is padded to
/// the full pane height, so a dialog four lines up may be twenty from the end.
pub open spec fn without_padding(ls: Seq<Seq<char>>) -> Seq<Seq<char>>
    decreases ls.len(),
{
    if ls.len() > 0 && text::is_blank(ls.last()) {
        without_padding(ls.drop_last())
    } else {
        ls
    }
}

/// The last four lines, trimmed and joined, without the blank ones.
///
/// Joined, because on a narrow enough pane the footer itself wraps: `Esc to` on
/// one line and `cancel` on the next is the same footer.
pub open spec fn footer(ls: Seq<Seq<char>>) -> Seq<char> {
    let tail = if ls.len() > 4 {
        ls.skip(ls.len() - 4)
    } else {
        ls
    };
    text::joined(text::nonempty(tail.map_values(|l: Seq<char>| text::trimmed(l))), " "@)
}

/// A choice in a dialog: `1. Yes`. A digit, then a dot.
pub open spec fn choice(s: Seq<char>) -> bool {
    s.len() >= 2 && text::is_digit(s[0]) && s[1] == '.'
}

/// The lowest of the first `to` lines that carries the prompt glyph.
pub open spec fn lowest_prompt(ls: Seq<Seq<char>>, to: int) -> Option<int>
    decreases to,
{
    if to <= 0 || to > ls.len() {
        None
    } else if ls[to - 1].contains('❯') {
        Some(to - 1)
    } else {
        lowest_prompt(ls, to - 1)
    }
}

/// Does the lowest prompt line hold a numbered choice?
pub open spec fn offers_choice(ls: Seq<Seq<char>>) -> bool {
    match lowest_prompt(ls, ls.len() as int) {
        Some(i) => match text::find(ls[i], "❯ "@) {
            Some(p) => choice(ls[i].skip(p + 2)),
            None => false,
        },
        None => false,
    }
}

/// Is a dialog waiting on this screen?
pub open spec fn asking(screen: Seq<char>) -> bool {
    let ls = without_padding(text::lines_of(screen));
    ||| text::has(footer(ls), "Do you want to proceed?"@)
    ||| text::has(footer(ls), "Esc to cancel"@)
    ||| offers_choice(ls)
}

fn unpadded(ls: Vec<String>) -> (r: Vec<String>)
    ensures
        text::texts(r@) == without_padding(text::texts(ls@)),
{
    let mut v = ls;
    let ghost all = text::texts(v@);
    loop
        invariant
            all == text::texts(ls@),
            without_padding(text::texts(v@)) == without_padding(all),
        decreases v@.len(),
    {
        let n: usize = v.len();
        assert(text::texts(v@).len() == n);
        if n == 0 {
            return v;
        }
        assert(text::texts(v@).last() == v@[n - 1]@);
        if !blank(&v[n - 1]) {
            return v;
        }
        let ghost before = text::texts(v@);
        v.pop();
        assert(text::texts(v@) =~= before.drop_last());
    }
}

fn footer_of(ls: &Vec<String>) -> (r: String)
    ensures
        r@ == footer(text::texts(ls@)),
{
    let n: usize = ls.len();
    let start: usize = if n > 4 {
        n - 4
    } else {
        0
    };
    let ghost all = text::texts(ls@);
    let ghost tail = if n > 4 {
        all.skip(n - 4)
    } else {
        all
    };
    let mut out: Vec<String> = Vec::new();
    let mut i: usize = start;
    while i < n
        invariant
            start <= i <= n,
            n == ls@.len(),
            all == text::texts(ls@),
            tail == if n > 4 {
                all.skip(n - 4)
            } else {
                all
            },
            start == if n > 4 {
                n - 4
            } else {
                0
            },
            out@.len() == i - start,
            forall|j: int| 0 <= j < i - start ==> (#[trigger] out@[j])@ == text::trimmed(tail[j]),
        decreases n - i,
    {
        let t = trim(&ls[i]);
        assert(tail[i - start] == ls@[i as int]@);
        out.push(t);
        i = i + 1;
    }
    assert(text::texts(out@) =~= tail.map_values(|l: Seq<char>| text::trimmed(l)));
    let kept = text::drop_empty(&out);
    text::join(&kept, " ")
}

fn is_choice(v: &Vec<char>, at: usize) -> (r: bool)
    requires
        at <= v@.len(),
    ensures
        r == choice(v@.skip(at as int)),
{
    let n: usize = v.len();
    if n - at < 2 {
        return false;
    }
    assert(v@.skip(at as int)[0] == v@[at as int]);
    assert(v@.skip(at as int)[1] == v@[at + 1]);
    digit(v[at]) && v[at + 1] == '.'
}

fn choice_offered(ls: &Vec<String>) -> (r: bool)
    ensures
        r == offers_choice(text::texts(ls@)),
{
    let ghost all = text::texts(ls@);
    let mut i: usize = ls.len();
    while i > 0
        invariant
            i <= ls@.len(),
            all == text::texts(ls@),
            lowest_prompt(all, i as int) == lowest_prompt(all, all.len() as int),
        decreases i,
    {
        assert(all[i - 1] == ls@[i - 1]@);
        if contains_char(&ls[i - 1], '❯') {
            let v = chars_of(&ls[i - 1]);
            let p = chars_of("❯ ");
            proof {
                reveal_strlit("❯ ");
            }
            return match find_at(&v, &p, 0) {
                Some(at) => is_choice(&v, at + 2),
                None => false,
            };
        }
        i = i - 1;
    }
    false
}

/// Waiting for an answer.
///
/// Two checks, and both earn their place: on a narrow pane the choice list wraps
/// and pushes itself off the bottom, leaving the footer as the only sign, and
/// narrower still the footer wraps too. The footer is read over the last few
/// lines only, joined, and the choice list from the LOWEST prompt line, because
/// both of those strings turn up in ordinary scrollback and a window of lines
/// cannot be trusted.
pub fn awaits_input(screen: &str) -> (r: bool)
    ensures
        r == asking(screen@),
{
    let ls = unpadded(lines(screen));
    let foot = footer_of(&ls);
    contains(&foot, "Do you want to proceed?") || contains(&foot, "Esc to cancel")
        || choice_offered(&ls)
}

// ---------------------------------------------------------------------------
// The prompt box
// ---------------------------------------------------------------------------
/// A rule: the full-width line drawn above and below the prompt box. The top one
/// can carry the session's name, `──── project: title ─`.
pub open spec fn rule(l: Seq<char>) -> bool {
    "──"@.is_prefix_of(text::trimmed_start(l))
}

/// The last of the first `to` lines that is not blank.
pub open spec fn last_filled(ls: Seq<Seq<char>>, to: int) -> Option<int>
    decreases to,
{
    if to <= 0 || to > ls.len() {
        None
    } else if !text::is_blank(ls[to - 1]) {
        Some(to - 1)
    } else {
        last_filled(ls, to - 1)
    }
}

/// Is line `i` a prompt with a rule directly above it, blank lines aside?
pub open spec fn boxed(ls: Seq<Seq<char>>, i: int) -> bool {
    let t = text::trimmed_start(ls[i]);
    &&& t.len() > 0
    &&& t[0] == '❯'
    &&& match last_filled(ls, i) {
        Some(j) => rule(ls[j]),
        None => false,
    }
}

/// The lowest of the first `to` lines that is such a prompt.
pub open spec fn lowest_box(ls: Seq<Seq<char>>, to: int) -> Option<int>
    decreases to,
{
    if to <= 0 || to > ls.len() {
        None
    } else if boxed(ls, to - 1) {
        Some(to - 1)
    } else {
        lowest_box(ls, to - 1)
    }
}

/// The line of the live prompt box, if the screen shows it. A viewport scrolled
/// away says so on its last line and has no box at all.
pub open spec fn box_line(ls: Seq<Seq<char>>) -> Option<int> {
    match last_filled(ls, ls.len() as int) {
        Some(last) => if text::has(ls[last], "(ctrl+End)"@) {
            None
        } else {
            lowest_box(ls, ls.len() as int)
        },
        None => None,
    }
}

fn is_rule(l: &str) -> (r: bool)
    ensures
        r == rule(l@),
{
    let t = trim_start(l);
    starts_with(&t, "──")
}

fn filled_before(ls: &[&str], to: usize) -> (r: Option<usize>)
    requires
        to <= ls@.len(),
    ensures
        match r {
            Some(i) => last_filled(text::views(ls@), to as int) == Some(i as int) && i < to,
            None => last_filled(text::views(ls@), to as int) is None,
        },
{
    let ghost all = text::views(ls@);
    let mut i: usize = to;
    while i > 0
        invariant
            i <= to <= ls@.len(),
            all == text::views(ls@),
            last_filled(all, i as int) == last_filled(all, to as int),
        decreases i,
    {
        assert(all[i - 1] == ls@[i - 1]@);
        if !blank(ls[i - 1]) {
            return Some(i - 1);
        }
        i = i - 1;
    }
    None
}

fn is_boxed(ls: &[&str], i: usize) -> (r: bool)
    requires
        i < ls@.len(),
    ensures
        r == boxed(text::views(ls@), i as int),
{
    let ghost all = text::views(ls@);
    assert(all[i as int] == ls@[i as int]@);
    let t = trim_start(ls[i]);
    let v = chars_of(&t);
    if v.len() == 0 || v[0] != '❯' {
        return false;
    }
    match filled_before(ls, i) {
        Some(j) => {
            assert(all[j as int] == ls@[j as int]@);
            is_rule(ls[j])
        },
        None => false,
    }
}

/// The line of the LIVE prompt box, the one you type into, if the screen shows it.
///
/// Not simply the lowest `❯`, because the conversation shows every prompt you
/// sent with the same glyph in front of it. The box is the one `❯` with a rule
/// directly above it. A scrolled viewport says so on its last line,
/// `N new messages (ctrl+End) ↓` or `Jump to bottom (ctrl+End) ↓`, and has no
/// box at all.
pub fn live_box(lines: &[&str]) -> (r: Option<usize>)
    ensures
        match r {
            Some(i) => box_line(text::views(lines@)) == Some(i as int) && i < lines@.len(),
            None => box_line(text::views(lines@)) is None,
        },
{
    let ghost all = text::views(lines@);
    let n: usize = lines.len();
    match filled_before(lines, n) {
        None => {
            return None;
        },
        Some(last) => {
            assert(all[last as int] == lines@[last as int]@);
            if contains(lines[last], "(ctrl+End)") {
                return None;
            }
        },
    }
    let mut i: usize = n;
    while i > 0
        invariant
            i <= n == lines@.len(),
            all == text::views(lines@),
            lowest_box(all, i as int) == lowest_box(all, n as int),
            box_line(all) == lowest_box(all, n as int),
        decreases i,
    {
        if is_boxed(lines, i - 1) {
            return Some(i - 1);
        }
        i = i - 1;
    }
    None
}

// ---------------------------------------------------------------------------
// The turn line
// ---------------------------------------------------------------------------
/// What the turn line above the prompt box says.
#[derive(Debug, Clone, Copy, PartialEq, Eq, Structural)]
pub enum Turn {
    /// Still going: an ellipsis and a bracketed counter.
    Running,
    /// Over: a duration and a finishing time, and no brackets at all. Or
    /// stopped: the line that says so and asks what to do instead.
    Done,
    /// Over, with work it started still in flight: `✻ Sautéed for 11s · done
    /// 11:39 PM · 1 shell still running`. The session will wake itself when that
    /// work reports back, so as far as the list is concerned it is busy.
    Background,
}

/// Does a counter follow: space, a bracket, and `esc ` or a digit?
pub open spec fn counter(rest: Seq<char>) -> bool {
    let t = text::trimmed_start(rest);
    &&& t.len() > 0
    &&& t[0] == '('
    &&& ("esc "@.is_prefix_of(t.skip(1)) || (t.len() > 1 && text::is_digit(t[1])))
}

/// Still going: `Twisting… (35s · ↓ 1.6k tokens)`, or `(esc to interrupt)`.
pub open spec fn running_line(l: Seq<char>) -> bool {
    exists|i: int| 0 <= i < l.len() && #[trigger] l[i] == '…' && counter(l.skip(i + 1))
}

/// Over: `✻ Crunched for 9m 55s · done 11:07 AM`.
///
/// Both halves are needed. A duration alone is ordinary prose, and the finishing
/// time alone is not a shape anything else writes.
pub open spec fn done_line(l: Seq<char>) -> bool {
    text::has(l, " for "@) && text::has(l, "· done "@)
}

/// Stopped by the user.
pub open spec fn interrupted_line(l: Seq<char>, spoken: Seq<char>) -> bool {
    text::has(l, "Interrupted · What should "@ + spoken + " do instead?"@)
}

/// A text without the spaces and the non-breaking spaces it opens with.
pub open spec fn without_pad(s: Seq<char>) -> Seq<char>
    decreases s.len(),
{
    if s.len() > 0 && (s[0] == ' ' || s[0] == '\u{a0}') {
        without_pad(s.skip(1))
    } else {
        s
    }
}

/// A prompt as the conversation shows it once sent: `❯ fix the tests`.
///
/// It opens a turn, so a turn line ABOVE it belongs to an earlier one. Not a
/// dialog's cursor, and not a slash command, which starts no turn.
pub open spec fn sent_prompt(l: Seq<char>) -> bool {
    let t = text::trimmed_start(l);
    &&& t.len() > 0
    &&& t[0] == '❯'
    &&& {
        let rest = without_pad(t.skip(1));
        rest.len() > 0 && rest[0] != '/' && !choice(rest)
    }
}

/// What one line says of the turn it belongs to. `Some(None)` is a boundary: a
/// prompt, above which every turn line belongs to an earlier turn.
pub open spec fn line_says(l: Seq<char>, spoken: Seq<char>) -> Option<Option<Turn>> {
    if running_line(l) {
        Some(Some(Turn::Running))
    } else if done_line(l) {
        Some(
            Some(
                if text::has(l, " still running"@) {
                    Turn::Background
                } else {
                    Turn::Done
                },
            ),
        )
    } else if interrupted_line(l, spoken) {
        Some(Some(Turn::Done))
    } else if sent_prompt(l) {
        Some(None)
    } else {
        None
    }
}

/// What the lowest telling line says, among the last `left` lines with anything
/// in them of the first `to`.
pub open spec fn lowest_turn(ls: Seq<Seq<char>>, to: int, left: nat, spoken: Seq<char>) -> Option<Turn>
    decreases to,
{
    if to <= 0 || to > ls.len() || left == 0 {
        None
    } else if text::is_blank(ls[to - 1]) {
        lowest_turn(ls, to - 1, left, spoken)
    } else {
        match line_says(ls[to - 1], spoken) {
            Some(t) => t,
            None => lowest_turn(ls, to - 1, (left - 1) as nat, spoken),
        }
    }
}

/// Does the status row under the box say that a turn is running?
pub open spec fn status_runs(ls: Seq<Seq<char>>, from: int) -> bool {
    exists|j: int|
        from <= j < ls.len() && 0 <= j && text::has(#[trigger] ls[j], "esc to interrupt"@)
}

/// What the turn on screen says about itself.
pub open spec fn turn_shown(screen: Seq<char>, spoken: Seq<char>) -> Option<Turn> {
    let ls = text::lines_of(screen);
    match box_line(ls) {
        Some(b) => if status_runs(ls, b + 1) {
            Some(Turn::Running)
        } else {
            lowest_turn(ls, b, 16, spoken)
        },
        None => lowest_turn(ls, ls.len() as int, 16, spoken),
    }
}

fn has_counter(v: &Vec<char>, from: usize) -> (r: bool)
    requires
        from <= v@.len(),
    ensures
        r == counter(v@.skip(from as int)),
{
    let i: usize = skip_space(v, from);
    let ghost t = v@.skip(i as int);
    let n: usize = v.len();
    if i >= n {
        return false;
    }
    assert(t[0] == v@[i as int]);
    if v[i] != '(' {
        return false;
    }
    assert(i + 1 < n ==> t[1] == v@[i + 1]);
    if i + 1 < n && digit(v[i + 1]) {
        return true;
    }
    let esc = chars_of("esc ");
    let r = text::stands_at(v, &esc, i + 1);
    assert(t.skip(1) =~= v@.skip(i + 1));
    proof {
        if r {
            assert(v@.skip(i + 1).subrange(0, esc@.len() as int) =~= v@.subrange(
                i + 1,
                i + 1 + esc@.len(),
            ));
        } else {
            if esc@.is_prefix_of(t.skip(1)) {
                assert(v@.subrange(i + 1, i + 1 + esc@.len()) =~= esc@);
            }
        }
    }
    r
}

fn is_running_line(l: &str) -> (r: bool)
    ensures
        r == running_line(l@),
{
    let v = chars_of(l);
    let mut i: usize = 0;
    while i < v.len()
        invariant
            i <= v@.len(),
            v@ == l@,
            forall|j: int| 0 <= j < i ==> !(#[trigger] l@[j] == '…' && counter(l@.skip(j + 1))),
        decreases v@.len() - i,
    {
        if v[i] == '…' && has_counter(&v, i + 1) {
            assert(l@[i as int] == '…');
            return true;
        }
        i = i + 1;
    }
    false
}

fn is_done_line(l: &str) -> (r: bool)
    ensures
        r == done_line(l@),
{
    contains(l, " for ") && contains(l, "· done ")
}

fn is_interrupted_line(l: &str, spoken: &str) -> (r: bool)
    ensures
        r == interrupted_line(l@, spoken@),
{
    let mut t = "Interrupted · What should ".to_owned();
    t.append(spoken);
    t.append(" do instead?");
    contains(l, &t)
}

fn is_sent_prompt(l: &str) -> (r: bool)
    ensures
        r == sent_prompt(l@),
{
    let t = trim_start(l);
    let v = chars_of(&t);
    let n: usize = v.len();
    if n == 0 || v[0] != '❯' {
        return false;
    }
    let mut i: usize = 1;
    while i < n && (v[i] == ' ' || v[i] == '\u{a0}')
        invariant
            1 <= i <= n == v@.len(),
            without_pad(v@.skip(i as int)) == without_pad(v@.skip(1)),
        decreases n - i,
    {
        assert(v@.skip(i as int)[0] == v@[i as int]);
        assert(v@.skip(i as int).skip(1) =~= v@.skip(i + 1));
        i = i + 1;
    }
    assert(i < n ==> v@.skip(i as int)[0] == v@[i as int]);
    i < n && v[i] != '/' && !is_choice(&v, i)
}

fn what_line_says(l: &str, spoken: &str) -> (r: Option<Option<Turn>>)
    ensures
        r == line_says(l@, spoken@),
{
    if is_running_line(l) {
        Some(Some(Turn::Running))
    } else if is_done_line(l) {
        if contains(l, " still running") {
            Some(Some(Turn::Background))
        } else {
            Some(Some(Turn::Done))
        }
    } else if is_interrupted_line(l, spoken) {
        Some(Some(Turn::Done))
    } else if is_sent_prompt(l) {
        Some(None)
    } else {
        None
    }
}

fn turn_above(ls: &Vec<String>, to: usize, spoken: &str) -> (r: Option<Turn>)
    requires
        to <= ls@.len(),
    ensures
        r == lowest_turn(text::texts(ls@), to as int, 16, spoken@),
{
    let ghost all = text::texts(ls@);
    let mut i: usize = to;
    let mut left: u8 = 16;
    while i > 0 && left > 0
        invariant
            i <= to <= ls@.len(),
            left <= 16,
            all == text::texts(ls@),
            lowest_turn(all, i as int, left as nat, spoken@) == lowest_turn(
                all,
                to as int,
                16,
                spoken@,
            ),
        decreases i,
    {
        assert(all[i - 1] == ls@[i - 1]@);
        if !blank(&ls[i - 1]) {
            match what_line_says(&ls[i - 1], spoken) {
                Some(t) => {
                    return t;
                },
                None => {
                    left = left - 1;
                },
            }
        }
        i = i - 1;
    }
    None
}

/// What the turn on screen says about itself, if anything.
///
/// One turn line is drawn per turn and rewritten in place, from the running shape
/// to the finished one, so the lowest on screen belongs to the most recent turn.
/// Except that no turn line is drawn while a reply is streaming. Two things fix
/// that:
///
/// - the status row under the box reads `esc to interrupt` for as long as a turn
///   runs, where it fits;
/// - a sent prompt is a boundary: a turn line above the newest prompt on screen
///   belongs to an earlier turn, and the one after it has none to show yet.
///
/// Read over the sixteen lines of content above the box rather than the whole
/// capture, because both shapes turn up in ordinary output.
pub fn turn_marker(screen: &str, spoken: &str) -> (r: Option<Turn>)
    ensures
        r == turn_shown(screen@, spoken@),
{
    let ls = lines(screen);
    let refs = borrowed(&ls);
    let n: usize = ls.len();
    match live_box(&refs) {
        Some(b) => {
            let mut j: usize = b + 1;
            while j < n
                invariant
                    b < j <= n == ls@.len(),
                    forall|k: int|
                        b < k < j ==> !text::has(
                            #[trigger] text::texts(ls@)[k],
                            "esc to interrupt"@,
                        ),
                    text::texts(ls@) == text::lines_of(screen@),
                    box_line(text::lines_of(screen@)) == Some(b as int),
                decreases n - j,
            {
                assert(text::texts(ls@)[j as int] == ls@[j as int]@);
                if contains(&ls[j], "esc to interrupt") {
                    return Some(Turn::Running);
                }
                j = j + 1;
            }
            turn_above(&ls, b, spoken)
        },
        None => turn_above(&ls, n, spoken),
    }
}

/// Mid-turn, or waiting on work the turn left running.
pub open spec fn working(screen: Seq<char>, spoken: Seq<char>) -> bool {
    turn_shown(screen, spoken) == Some(Turn::Running) || turn_shown(screen, spoken) == Some(
        Turn::Background,
    )
}

pub fn is_working(screen: &str, spoken: &str) -> (r: bool)
    ensures
        r == working(screen@, spoken@),
{
    match turn_marker(screen, spoken) {
        Some(Turn::Running) => true,
        Some(Turn::Background) => true,
        _ => false,
    }
}

// ---------------------------------------------------------------------------
// The answers
// ---------------------------------------------------------------------------
/// What the screen alone says.
pub open spec fn screen_state(screen: Seq<char>, spoken: Seq<char>) -> State {
    if asking(screen) {
        State::Input
    } else if working(screen, spoken) {
        State::Run
    } else if box_line(text::lines_of(screen)) is Some {
        State::Idle
    } else {
        State::Unknown
    }
}

/// The screen's own answer: a dialog wins over an activity line, since it is the
/// row that wants you. Idle only for a prompt box that is really there; a screen
/// that shows none is `Unknown`, and says nothing either way.
pub fn classify(screen: &str, spoken: &str) -> (r: State)
    ensures
        r == screen_state(screen@, spoken@),
{
    if awaits_input(screen) {
        State::Input
    } else if is_working(screen, spoken) {
        State::Run
    } else {
        let ls = lines(screen);
        let refs = borrowed(&ls);
        if live_box(&refs).is_some() {
            State::Idle
        } else {
            State::Unknown
        }
    }
}

/// What the hook line says once the transcript has been heard.
pub open spec fn corrected(
    hook: Seq<char>,
    hook_at: int,
    turn: Option<(Event, i64)>,
) -> Seq<char> {
    match turn {
        Some((ev, at)) => if at > hook_at {
            match ev {
                Event::Interrupt => "idle"@,
                Event::Over => if hook == "run"@ || hook == "input"@ || hook == "ask"@ {
                    "idle"@
                } else {
                    hook
                },
                Event::Prompt => if hook == "idle"@ || hook == "bg"@ {
                    "run"@
                } else {
                    hook
                },
            }
        } else {
            hook
        },
        None => hook,
    }
}

/// The hook line, brought up to date by the transcript where the transcript is
/// the newer of the two.
///
/// `hook_at` is when the line was written and `turn` the newest record that
/// opened or closed a turn, both in epoch milliseconds. A line newer than that
/// record already knows about it; an older one does not:
///
/// - an **interrupt** after the line ends the turn, whatever the line said. No
///   hook fires for one, so this is the only way the line learns of it;
/// - the **end** of a turn after a line reading `run`, `input` or `ask` means the
///   line missed its `Stop`. After `bg` it is the record that same `Stop` was
///   written alongside, and says nothing new;
/// - a typed **prompt** after a line reading `idle` or `bg` is a turn whose
///   `UserPromptSubmit` never reached the line.
pub fn correct(hook: &str, hook_at: i64, turn: Option<(Event, i64)>) -> (r: &str)
    ensures
        r@ == corrected(hook@, hook_at as int, turn),
{
    match turn {
        Some((ev, at)) => {
            if at > hook_at {
                match ev {
                    Event::Interrupt => "idle",
                    Event::Over => {
                        if same(hook, "run") || same(hook, "input") || same(hook, "ask") {
                            "idle"
                        } else {
                            hook
                        }
                    },
                    Event::Prompt => {
                        if same(hook, "idle") || same(hook, "bg") {
                            "run"
                        } else {
                            hook
                        }
                    },
                }
            } else {
                hook
            }
        },
        None => hook,
    }
}

/// The screen and the hook line, reconciled.
pub open spec fn merged(screen: Seq<char>, hook: Option<Seq<char>>, spoken: Seq<char>) -> State {
    let shown = screen_state(screen, spoken);
    if shown == State::Input {
        State::Input
    } else {
        match hook {
            Some(h) => if h == "ask"@ {
                if shown == State::Idle {
                    State::Idle
                } else if shown == State::Run {
                    State::Run
                } else {
                    State::Input
                }
            } else if h == "input"@ {
                if shown == State::Idle {
                    State::Idle
                } else {
                    State::Run
                }
            } else if h == "idle"@ {
                if shown == State::Run {
                    State::Run
                } else {
                    State::Idle
                }
            } else if h == "run"@ {
                if shown == State::Idle && turn_shown(screen, spoken) == Some(Turn::Done) {
                    State::Idle
                } else {
                    State::Run
                }
            } else if h == "bg"@ {
                State::Run
            } else {
                seen(shown)
            },
            None => seen(shown),
        }
    }
}

/// A screen that could not be read reads as idle.
pub open spec fn seen(shown: State) -> State {
    if shown == State::Unknown {
        State::Idle
    } else {
        shown
    }
}

/// The screen and the hook line, reconciled.
///
/// A dialog ON SCREEN outranks everything: it is the state that must never be
/// wrong and the one the hook cannot close.
///
/// A screen positively showing an idle prompt box, with no dialog over it, is
/// proof a hook `input` or `ask` has gone stale. `ask` is the one line that says
/// **waiting** without the screen, and it gives way to a screen that positively
/// disagrees. A hook `idle` gives way to a turn line counting. A hook `run` gives
/// way to a FINISHED turn line with an idle prompt box under it; the absence of a
/// turn line is not that answer, since a session streaming a reply shows none.
///
/// `bg` reads as working: the turn is over, but work it started is still in
/// flight and the session will wake itself when it reports back.
pub fn merge(screen: &str, hook: Option<&str>, spoken: &str) -> (r: State)
    ensures
        r == merged(screen@, text::opt(hook), spoken@),
{
    let shown = classify(screen, spoken);
    proof {
        reveal_strlit("ask");
        reveal_strlit("input");
        reveal_strlit("idle");
        reveal_strlit("run");
        reveal_strlit("bg");
    }
    if shown == State::Input {
        return State::Input;
    }
    match hook {
        Some(h) => {
            if same(h, "ask") {
                if shown == State::Unknown {
                    return State::Input;
                }
                return shown;
            }
            if same(h, "input") {
                return if shown == State::Idle {
                    State::Idle
                } else {
                    State::Run
                };
            }
            if same(h, "idle") {
                return if shown == State::Run {
                    State::Run
                } else {
                    State::Idle
                };
            }
            if same(h, "run") {
                if shown == State::Idle {
                    return match turn_marker(screen, spoken) {
                        Some(Turn::Done) => State::Idle,
                        _ => State::Run,
                    };
                }
                return State::Run;
            }
            if same(h, "bg") {
                return State::Run;
            }
        },
        None => {},
    }
    if shown == State::Unknown {
        State::Idle
    } else {
        shown
    }
}

// ---------------------------------------------------------------------------
// Laws
// ---------------------------------------------------------------------------
proof fn lemma_blank_tail(ls: Seq<Seq<char>>, more: Seq<Seq<char>>)
    requires
        forall|k: int| 0 <= k < more.len() ==> text::is_blank(#[trigger] more[k]),
    ensures
        without_padding(ls + more) == without_padding(ls),
    decreases more.len(),
{
    if more.len() == 0 {
        assert(ls + more =~= ls);
    } else {
        assert((ls + more).drop_last() =~= ls + more.drop_last());
        assert((ls + more).last() == more.last());
        lemma_blank_tail(ls, more.drop_last());
    }
}

proof fn lemma_lowest_alike(ls: Seq<Seq<char>>, le: Seq<Seq<char>>, to: int)
    requires
        ls.len() == le.len(),
        to <= ls.len(),
        forall|k: int| 0 <= k < ls.len() ==> ((#[trigger] ls[k]).contains('❯') <==> le[k].contains('❯')),
    ensures
        lowest_prompt(ls, to) == lowest_prompt(le, to),
    decreases to,
{
    if to > 0 {
        assert(ls[to - 1].contains('❯') <==> le[to - 1].contains('❯'));
        lemma_lowest_alike(ls, le, to - 1);
    }
}

/// A line says the same choice with and without its carriage return.
proof fn lemma_chomped_chooses_alike(l: Seq<char>)
    ensures
        match (text::find(l, "❯ "@), text::find(text::chomped(l), "❯ "@)) {
            (Some(p), Some(q)) => p == q && choice(l.skip(p + 2)) == choice(
                text::chomped(l).skip(q + 2),
            ),
            (None, None) => true,
            _ => false,
        },
{
    let p = "❯ "@;
    let t = text::chomped(l);
    reveal_strlit("❯ ");
    text::lemma_find_from(l, p, 0);
    text::lemma_find_from(t, p, 0);
    if t != l {
        assert(l =~= t.push('\r'));
        assert forall|i: int| text::occurs_at(l, p, i) <==> text::occurs_at(t, p, i) by {
            if text::occurs_at(l, p, i) {
                assert(l.subrange(i, i + 2)[1] == p[1]);
                assert(l.subrange(i, i + 2) =~= t.subrange(i, i + 2));
            }
            if text::occurs_at(t, p, i) {
                assert(l.subrange(i, i + 2) =~= t.subrange(i, i + 2));
            }
        }
    }
}

proof fn lemma_ended_asks_alike(ls: Seq<Seq<char>>)
    requires
        ls.len() > 0,
        !text::is_blank(ls.last()),
    ensures
        ({
            let le = ls.drop_last().push(text::chomped(ls.last()));
            footer(le) == footer(ls) && offers_choice(le) == offers_choice(ls)
        }),
{
    let last = ls.len() - 1;
    let le = ls.drop_last().push(text::chomped(ls.last()));
    let cut = if ls.len() > 4 {
        ls.len() - 4
    } else {
        0
    };
    text::lemma_chomped_trims_alike(ls.last());
    let trim = |l: Seq<char>| text::trimmed(l);
    assert(ls.skip(0) =~= ls && le.skip(0) =~= le);
    assert(le.skip(cut).map_values(trim) =~= ls.skip(cut).map_values(trim));
    let l = ls.last();
    let t = text::chomped(l);
    if t != l {
        assert(l =~= t.push('\r'));
    }
    if l.contains('❯') {
        let i = choose|i: int| 0 <= i < l.len() && l[i] == '❯';
        assert(t[i] == '❯');
    }
    if t.contains('❯') {
        let i = choose|i: int| 0 <= i < t.len() && t[i] == '❯';
        assert(l[i] == '❯');
    }
    lemma_lowest_alike(ls, le, ls.len() as int);
    lemma_chomped_chooses_alike(l);
    lemma_lowest_place(ls, ls.len() as int);
}

proof fn lemma_lowest_place(ls: Seq<Seq<char>>, to: int)
    requires
        to <= ls.len(),
    ensures
        match lowest_prompt(ls, to) {
            Some(i) => 0 <= i < to,
            None => true,
        },
    decreases to,
{
    if to > 0 {
        lemma_lowest_place(ls, to - 1);
    }
}

/// The blank lines that a capture is padded with neither hide a dialog nor invent
/// one, however many there are.
pub proof fn lemma_padding_changes_nothing(screen: Seq<char>, padding: Seq<char>)
    requires
        text::is_blank(padding),
        padding.len() > 0 ==> padding[0] == '\n',
    ensures
        asking(screen + padding) == asking(screen),
{
    if padding.len() == 0 {
        assert(screen + padding =~= screen);
    } else {
        let more = padding.skip(1);
        let ls = text::lines_of(screen);
        let le = text::lines_of(screen + seq!['\n']);
        assert(screen + padding =~= screen + seq!['\n'] + more);
        text::lemma_lines_join(screen, more);
        text::lemma_blank_lines(more);
        lemma_blank_tail(le, text::lines_of(more));
        text::lemma_ended(screen);
        if screen.len() == 0 || screen.last() == '\n' {
            assert(le.drop_last() =~= ls);
            assert(text::is_blank(le.last()));
        } else {
            text::lemma_chomped_trims_alike(ls.last());
            if text::is_blank(ls.last()) {
                assert(le.drop_last() =~= ls.drop_last());
            } else {
                lemma_ended_asks_alike(ls);
            }
        }
    }
}

/// A dialog on screen beats any hook line, and none at all.
pub proof fn lemma_a_dialog_beats_any_hook(
    screen: Seq<char>,
    hook: Option<Seq<char>>,
    spoken: Seq<char>,
)
    requires
        asking(screen),
    ensures
        merged(screen, hook, spoken) == State::Input,
{
}

/// Waiting is said of nothing else but a dialog on screen, or the one hook line
/// that confirms a dialog where the screen shows neither a box nor a turn.
pub proof fn lemma_waiting_has_two_reasons(
    screen: Seq<char>,
    hook: Option<Seq<char>>,
    spoken: Seq<char>,
)
    requires
        merged(screen, hook, spoken) == State::Input,
    ensures
        asking(screen) || (hook == Some("ask"@) && screen_state(screen, spoken) == State::Unknown),
{
}

/// The answer is always one of the three a reader can act on.
pub proof fn lemma_merged_is_never_unknown(
    screen: Seq<char>,
    hook: Option<Seq<char>>,
    spoken: Seq<char>,
)
    ensures
        merged(screen, hook, spoken) != State::Unknown,
{
}

/// A line newer than the transcript's last record already knows about it.
pub proof fn lemma_a_newer_line_stands(hook: Seq<char>, hook_at: int, ev: Event, at: i64)
    requires
        at <= hook_at,
    ensures
        corrected(hook, hook_at, Some((ev, at))) == hook,
{
}

/// An interrupt after the line ends the turn, whatever the line said.
pub proof fn lemma_an_interrupt_ends_the_turn(hook: Seq<char>, hook_at: int, at: i64)
    requires
        at > hook_at,
    ensures
        corrected(hook, hook_at, Some((Event::Interrupt, at))) == "idle"@,
{
}

/// The last line that is not blank is the one below which all are.
pub proof fn lemma_the_last_filled_line(ls: Seq<Seq<char>>, to: int, i: int)
    requires
        0 <= i < to <= ls.len(),
        !text::is_blank(ls[i]),
        forall|j: int| i < j < to ==> text::is_blank(#[trigger] ls[j]),
    ensures
        last_filled(ls, to) == Some(i),
    decreases to,
{
    if i < to - 1 {
        assert(text::is_blank(ls[to - 1]));
        lemma_the_last_filled_line(ls, to - 1, i);
    }
}

/// Where every line is blank there is none.
pub proof fn lemma_no_filled_line(ls: Seq<Seq<char>>, to: int)
    requires
        0 <= to <= ls.len(),
        forall|j: int| 0 <= j < to ==> text::is_blank(#[trigger] ls[j]),
    ensures
        last_filled(ls, to) is None,
    decreases to,
{
    if to > 0 {
        assert(text::is_blank(ls[to - 1]));
        lemma_no_filled_line(ls, to - 1);
    }
}

/// The lowest prompt is the one with no prompt below it.
pub proof fn lemma_the_lowest_prompt(ls: Seq<Seq<char>>, to: int, i: int)
    requires
        0 <= i < to <= ls.len(),
        ls[i].contains('❯'),
        forall|j: int| i < j < to ==> !(#[trigger] ls[j]).contains('❯'),
    ensures
        lowest_prompt(ls, to) == Some(i),
    decreases to,
{
    if i < to - 1 {
        assert(!ls[to - 1].contains('❯'));
        lemma_the_lowest_prompt(ls, to - 1, i);
    }
}

/// Without a prompt there is no lowest one.
pub proof fn lemma_no_prompt(ls: Seq<Seq<char>>, to: int)
    requires
        0 <= to <= ls.len(),
        forall|j: int| 0 <= j < to ==> !(#[trigger] ls[j]).contains('❯'),
    ensures
        lowest_prompt(ls, to) is None,
    decreases to,
{
    if to > 0 {
        assert(!ls[to - 1].contains('❯'));
        lemma_no_prompt(ls, to - 1);
    }
}

/// What a hook line says is weighed against the screen, where no dialog is on it. A line
/// that says idle yields to a turn on screen alone; one that says a turn is on yields to a
/// box whose last turn is done; one that says work goes on in the background yields to
/// nothing; one that asks yields to a box and to a turn; without a line the screen decides,
/// and a screen that shows nothing is idle.
pub proof fn lemma_a_hook_line_is_weighed_against_the_screen(screen: Seq<char>, spoken: Seq<char>)
    requires
        !asking(screen),
    ensures
        ({
            let shown = screen_state(screen, spoken);
            &&& merged(screen, Some("idle"@), spoken) == State::Run <==> shown == State::Run
            &&& merged(screen, Some("idle"@), spoken) == State::Idle <==> shown != State::Run
            &&& merged(screen, Some("run"@), spoken) == State::Idle <==> shown == State::Idle
                && turn_shown(screen, spoken) == Some(Turn::Done)
            &&& merged(screen, Some("run"@), spoken) != State::Input
            &&& merged(screen, Some("bg"@), spoken) == State::Run
            &&& merged(screen, Some("ask"@), spoken) == State::Input <==> shown == State::Unknown
            &&& merged(screen, Some("ask"@), spoken) == State::Run <==> shown == State::Run
            &&& merged(screen, Some("input"@), spoken) == State::Idle <==> shown == State::Idle
            &&& merged(screen, Some("input"@), spoken) == State::Run <==> shown != State::Idle
            &&& merged(screen, None, spoken) == State::Run <==> shown == State::Run
            &&& merged(screen, None, spoken) == State::Idle <==> shown != State::Run
        }),
{
    reveal_strlit("idle");
    reveal_strlit("run");
    reveal_strlit("bg");
    reveal_strlit("ask");
    reveal_strlit("input");
    assert("idle"@.len() == 4 && "run"@.len() == 3 && "bg"@.len() == 2 && "ask"@.len() == 3
        && "input"@.len() == 5);
    assert("run"@[0] == 'r' && "ask"@[0] == 'a');
}

/// A turn that ends after the line was written ends what the line said of a turn, and
/// leaves a line about work in the background alone; a prompt sent after it starts one
/// where it said there was none.
pub proof fn lemma_an_older_line_is_corrected(hook: Seq<char>, hook_at: int, at: i64)
    requires
        at > hook_at,
    ensures
        hook == "run"@ || hook == "input"@ || hook == "ask"@ ==> corrected(
            hook,
            hook_at,
            Some((Event::Over, at)),
        ) == "idle"@ && corrected(hook, hook_at, Some((Event::Prompt, at))) == hook,
        hook == "idle"@ || hook == "bg"@ ==> corrected(hook, hook_at, Some((Event::Over, at)))
            == hook && corrected(hook, hook_at, Some((Event::Prompt, at))) == "run"@,
        corrected(hook, hook_at, None) == hook,
{
    reveal_strlit("idle");
    reveal_strlit("run");
    reveal_strlit("bg");
    reveal_strlit("ask");
    reveal_strlit("input");
    assert("idle"@.len() == 4 && "run"@.len() == 3 && "bg"@.len() == 2 && "ask"@.len() == 3
        && "input"@.len() == 5);
    assert("run"@[0] == 'r' && "ask"@[0] == 'a');
}

/// A screen whose lowest prompt offers a numbered choice waits for an answer.
pub proof fn lemma_a_numbered_choice_is_a_dialog(
    screen: Seq<char>,
    spoken: Seq<char>,
    i: int,
    head: Seq<char>,
    digit: char,
    tail: Seq<char>,
)
    requires
        ({
            let ls = text::lines_of(screen);
            &&& 0 <= i < ls.len()
            &&& ls[i] == head + "❯ "@ + seq![digit, '.'] + tail
            &&& text::free_of(head, '❯')
            &&& '0' <= digit <= '9'
            &&& forall|j: int| i < j < ls.len() ==> !(#[trigger] ls[j]).contains('❯')
        }),
    ensures
        screen_state(screen, spoken) == State::Input,
{
    let ls = text::lines_of(screen);
    let kept = without_padding(ls);
    reveal_strlit("❯ ");
    let l = ls[i];
    let p = head.len() as int;
    assert(l[p] == '❯' && l[p + 1] == ' ' && l[p + 2] == digit && l[p + 3] == '.');
    assert(l.contains('❯'));
    lemma_padding_keeps_the_filled(ls, i);
    assert forall|j: int| i < j < kept.len() implies !(#[trigger] kept[j]).contains('❯') by {
        assert(kept[j] == ls[j]);
    }
    lemma_the_lowest_prompt(kept, kept.len() as int, i);
    let mark = "❯ "@;
    assert(text::occurs_at(l, mark, p)) by {
        assert(l.subrange(p, p + 2) =~= mark);
    }
    text::lemma_find_from(l, mark, 0);
    let at = text::find_from(l, mark, 0)->0;
    if at < p {
        assert(l.subrange(at, at + 2)[0] == l[at]);
        assert(l[at] == head[at]);
    }
    assert(at == p);
    assert(l.skip(p + 2)[0] == digit && l.skip(p + 2)[1] == '.');
}

proof fn lemma_padding_keeps_the_filled(ls: Seq<Seq<char>>, i: int)
    requires
        0 <= i < ls.len(),
        ls[i].contains('❯'),
    ensures
        i < without_padding(ls).len() <= ls.len(),
        forall|j: int| 0 <= j < without_padding(ls).len() ==> without_padding(ls)[j] == ls[j],
    decreases ls.len(),
{
    if text::is_blank(ls.last()) {
        if i == ls.len() - 1 {
            let k = choose|k: int| 0 <= k < ls[i].len() && ls[i][k] == '❯';
            assert(text::is_space(ls[i][k]));
        } else {
            lemma_padding_keeps_the_filled(ls.drop_last(), i);
            let kept = without_padding(ls);
            assert forall|j: int| 0 <= j < kept.len() implies kept[j] == ls[j] by {
                assert(kept[j] == ls.drop_last()[j]);
            }
        }
    }
}

/// A turn is shown as running where the line above the prompt box counts its seconds, and
/// where the line below the box offers to interrupt; without a dialog the session works.
pub proof fn lemma_a_counter_is_a_turn(screen: Seq<char>, spoken: Seq<char>, b: int, i: int)
    requires
        !asking(screen),
        ({
            let ls = text::lines_of(screen);
            &&& box_line(ls) == Some(b)
            &&& 0 <= i < b
            &&& running_line(ls[i])
            &&& forall|j: int| i < j < b ==> text::is_blank(#[trigger] ls[j])
        }),
    ensures
        screen_state(screen, spoken) == State::Run,
{
    let ls = text::lines_of(screen);
    lemma_box_inside(ls, ls.len() as int);
    lemma_the_nearest_turn(ls, b, i, spoken);
}

proof fn lemma_box_inside(ls: Seq<Seq<char>>, to: int)
    ensures
        match lowest_box(ls, to) {
            Some(b) => 0 <= b < to && to <= ls.len(),
            None => true,
        },
    decreases to,
{
    if 0 < to <= ls.len() && !boxed(ls, to - 1) {
        lemma_box_inside(ls, to - 1);
    }
}

proof fn lemma_the_nearest_turn(ls: Seq<Seq<char>>, to: int, i: int, spoken: Seq<char>)
    requires
        0 <= i < to <= ls.len(),
        !text::is_blank(ls[i]) || running_line(ls[i]),
        line_says(ls[i], spoken) is Some,
        forall|j: int| i < j < to ==> text::is_blank(#[trigger] ls[j]),
    ensures
        !text::is_blank(ls[i]) ==> lowest_turn(ls, to, 16, spoken) == line_says(ls[i], spoken)->0,
        running_line(ls[i]) ==> lowest_turn(ls, to, 16, spoken) == Some(Turn::Running),
    decreases to,
{
    if running_line(ls[i]) {
        let k = choose|k: int| 0 <= k < ls[i].len() && #[trigger] ls[i][k] == '…' && counter(
            ls[i].skip(k + 1),
        );
        assert(!text::is_space('…'));
        assert(!text::is_space(ls[i][k]));
    }
    if i < to - 1 {
        assert(text::is_blank(ls[to - 1]));
        lemma_the_nearest_turn(ls, to - 1, i, spoken);
    }
}

/// A finished turn above the box leaves the session idle, unless something it started
/// still runs, which is work like any other.
pub proof fn lemma_a_finished_turn_is_idle(screen: Seq<char>, spoken: Seq<char>, b: int, i: int)
    requires
        !asking(screen),
        ({
            let ls = text::lines_of(screen);
            &&& box_line(ls) == Some(b)
            &&& !status_runs(ls, b + 1)
            &&& 0 <= i < b
            &&& !text::is_blank(ls[i])
            &&& !running_line(ls[i])
            &&& text::has(ls[i], " for "@) && text::has(ls[i], "· done "@)
            &&& forall|j: int| i < j < b ==> text::is_blank(#[trigger] ls[j])
        }),
    ensures
        screen_state(screen, spoken) == (if text::has(text::lines_of(screen)[i], " still running"@) {
            State::Run
        } else {
            State::Idle
        }),
{
    let ls = text::lines_of(screen);
    lemma_box_inside(ls, ls.len() as int);
    lemma_the_nearest_turn(ls, b, i, spoken);
}

/// The offer to interrupt below the box says that a turn runs, whatever stands above it.
pub proof fn lemma_an_offer_to_interrupt_is_a_turn(
    screen: Seq<char>,
    spoken: Seq<char>,
    b: int,
    j: int,
)
    requires
        !asking(screen),
        box_line(text::lines_of(screen)) == Some(b),
        0 <= b < j < text::lines_of(screen).len(),
        text::has(text::lines_of(screen)[j], "esc to interrupt"@),
    ensures
        screen_state(screen, spoken) == State::Run,
{
}

/// A question or a way out in the last four lines of a screen is a dialog.
pub proof fn lemma_a_question_at_the_bottom_is_a_dialog(
    screen: Seq<char>,
    spoken: Seq<char>,
    i: int,
)
    requires
        ({
            let ls = without_padding(text::lines_of(screen));
            let l = text::trimmed(ls[i]);
            &&& 0 <= i < ls.len()
            &&& ls.len() - 4 <= i
            &&& text::has(l, "Do you want to proceed?"@) || text::has(l, "Esc to cancel"@)
        }),
    ensures
        screen_state(screen, spoken) == State::Input,
{
    let ls = without_padding(text::lines_of(screen));
    let l = text::trimmed(ls[i]);
    reveal_strlit("Do you want to proceed?");
    reveal_strlit("Esc to cancel");
    let p = if text::has(l, "Esc to cancel"@) {
        "Esc to cancel"@
    } else {
        "Do you want to proceed?"@
    };
    assert(p.len() > 0);
    let k = choose|k: int| text::occurs_at(l, p, k);
    assert(l.len() > 0);
    let from = if ls.len() > 4 {
        ls.len() - 4
    } else {
        0
    };
    let tail = if ls.len() > 4 {
        ls.skip(ls.len() - 4)
    } else {
        ls
    };
    let v = tail.map_values(|t: Seq<char>| text::trimmed(t));
    assert(v[i - from] == l);
    assert(v.contains(l));
    text::lemma_only_the_empty_go(v, l);
    let kept = text::nonempty(v);
    let j = choose|j: int| 0 <= j < kept.len() && kept[j] == l;
    let (a, b) = lemma_joined_with(kept, " "@, j);
    let f = footer(ls);
    assert(f == a + l + b);
    let at = a.len() as int + k;
    assert(f.subrange(at, at + p.len()) =~= l.subrange(k, k + p.len()));
    assert(text::occurs_at(f, p, at));
    assert(text::has(f, p));
}

proof fn lemma_joined_with(v: Seq<Seq<char>>, sep: Seq<char>, i: int) -> (r: (Seq<char>, Seq<char>))
    requires
        0 <= i < v.len(),
    ensures
        text::joined(v, sep) == r.0 + v[i] + r.1,
    decreases v.len(),
{
    let none = Seq::<char>::empty();
    if v.len() == 1 {
        assert(text::joined(v, sep) =~= none + v[0] + none);
        (none, none)
    } else if i == v.len() - 1 {
        let a = text::joined(v.drop_last(), sep) + sep;
        assert(text::joined(v, sep) =~= a + v[i] + none);
        (a, none)
    } else {
        let (a, b) = lemma_joined_with(v.drop_last(), sep, i);
        assert(text::joined(v, sep) =~= a + v[i] + (b + sep + v.last()));
        (a, b + sep + v.last())
    }
}

/// A state is written as one word, and each as its own.
pub proof fn lemma_each_state_has_its_word(a: State, b: State)
    ensures
        State::Input.word() == "input"@,
        State::Run.word() == "run"@,
        State::Idle.word() == "idle"@,
        State::Unknown.word() == "unknown"@,
        a != b ==> a.word() != b.word(),
{
    reveal_strlit("input");
    reveal_strlit("run");
    reveal_strlit("idle");
    reveal_strlit("unknown");
    assert("input"@.len() == 5 && "run"@.len() == 3 && "idle"@.len() == 4 && "unknown"@.len() == 7);
}

/// What a line says of a turn: that it runs, where it counts; that it is done, where it says
/// so or was interrupted; and that what it started goes on, where it says that as well.
pub proof fn lemma_what_a_line_says_of_a_turn(l: Seq<char>, spoken: Seq<char>)
    ensures
        text::has(l, "Interrupted · What should "@ + spoken + " do instead?"@) && !running_line(l)
            && !(text::has(l, " for "@) && text::has(l, "· done "@)) ==> line_says(l, spoken)
            == Some(Some(Turn::Done)),
        running_line(l) ==> line_says(l, spoken) == Some(Some(Turn::Running)),
        !running_line(l) && text::has(l, " for "@) && text::has(l, "· done "@) && text::has(
            l,
            " still running"@,
        ) ==> line_says(l, spoken) == Some(Some(Turn::Background)),
{
}

} // verus!
