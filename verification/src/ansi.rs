//! Just enough ANSI to render a captured pane.
//!
//! The preview shows a live agent session, which is nothing but colour, so the
//! capture of a pane with its colours is what has to be drawn. Such a capture
//! holds SGR (`ESC [ ... m`) and nothing else: the cursor movement, scrolling and
//! mode changes a real stream carries have already been applied to the screen it
//! hands back. So this understands SGR, skips any other escape sequence whole, and
//! never has to be right about anything else.
use vstd::prelude::*;

use crate::text;
use crate::text::{chars_of, lines, parse_i32};

verus! {

// ---------------------------------------------------------------------------
// Styles
// ---------------------------------------------------------------------------
#[derive(Clone, Copy, Debug, PartialEq, Eq, Structural)]
pub enum Color {
    Reset,
    Black,
    Red,
    Green,
    Yellow,
    Blue,
    Magenta,
    Cyan,
    Gray,
    DarkGray,
    LightRed,
    LightGreen,
    LightYellow,
    LightBlue,
    LightMagenta,
    LightCyan,
    White,
    Indexed(u8),
    Rgb(u8, u8, u8),
}

/// What a text can be besides coloured.
#[derive(Clone, Copy, Debug, PartialEq, Eq, Structural)]
pub struct Modifier {
    pub bold: bool,
    pub dim: bool,
    pub italic: bool,
    pub underlined: bool,
    pub reversed: bool,
    pub crossed_out: bool,
}

/// How a text is drawn. What is not said is left as it was where it is drawn: no
/// colour, and a modifier that is neither added nor taken away.
#[derive(Clone, Copy, Debug, PartialEq, Eq, Structural)]
pub struct Style {
    pub fg: Option<Color>,
    pub bg: Option<Color>,
    pub add_modifier: Modifier,
    pub sub_modifier: Modifier,
}

pub open spec fn no_modifier() -> Modifier {
    Modifier {
        bold: false,
        dim: false,
        italic: false,
        underlined: false,
        reversed: false,
        crossed_out: false,
    }
}

pub open spec fn no_style() -> Style {
    Style { fg: None, bg: None, add_modifier: no_modifier(), sub_modifier: no_modifier() }
}

pub open spec fn both(a: Modifier, b: Modifier) -> Modifier {
    Modifier {
        bold: a.bold || b.bold,
        dim: a.dim || b.dim,
        italic: a.italic || b.italic,
        underlined: a.underlined || b.underlined,
        reversed: a.reversed || b.reversed,
        crossed_out: a.crossed_out || b.crossed_out,
    }
}

pub open spec fn but(a: Modifier, b: Modifier) -> Modifier {
    Modifier {
        bold: a.bold && !b.bold,
        dim: a.dim && !b.dim,
        italic: a.italic && !b.italic,
        underlined: a.underlined && !b.underlined,
        reversed: a.reversed && !b.reversed,
        crossed_out: a.crossed_out && !b.crossed_out,
    }
}

impl Modifier {
    pub fn none() -> (r: Modifier)
        ensures
            r == no_modifier(),
    {
        Modifier {
            bold: false,
            dim: false,
            italic: false,
            underlined: false,
            reversed: false,
            crossed_out: false,
        }
    }

    fn union(self, other: Modifier) -> (r: Modifier)
        ensures
            r == both(self, other),
    {
        Modifier {
            bold: self.bold || other.bold,
            dim: self.dim || other.dim,
            italic: self.italic || other.italic,
            underlined: self.underlined || other.underlined,
            reversed: self.reversed || other.reversed,
            crossed_out: self.crossed_out || other.crossed_out,
        }
    }

    fn difference(self, other: Modifier) -> (r: Modifier)
        ensures
            r == but(self, other),
    {
        Modifier {
            bold: self.bold && !other.bold,
            dim: self.dim && !other.dim,
            italic: self.italic && !other.italic,
            underlined: self.underlined && !other.underlined,
            reversed: self.reversed && !other.reversed,
            crossed_out: self.crossed_out && !other.crossed_out,
        }
    }
}

impl Style {
    pub open spec fn with(self, m: Modifier) -> Style {
        Style {
            add_modifier: both(self.add_modifier, m),
            sub_modifier: but(self.sub_modifier, m),
            ..self
        }
    }

    pub open spec fn without(self, m: Modifier) -> Style {
        Style {
            add_modifier: but(self.add_modifier, m),
            sub_modifier: both(self.sub_modifier, m),
            ..self
        }
    }

    pub fn add_modifier(self, m: Modifier) -> (r: Style)
        ensures
            r == self.with(m),
    {
        Style {
            fg: self.fg,
            bg: self.bg,
            add_modifier: self.add_modifier.union(m),
            sub_modifier: self.sub_modifier.difference(m),
        }
    }

    pub fn remove_modifier(self, m: Modifier) -> (r: Style)
        ensures
            r == self.without(m),
    {
        Style {
            fg: self.fg,
            bg: self.bg,
            add_modifier: self.add_modifier.difference(m),
            sub_modifier: self.sub_modifier.union(m),
        }
    }

    pub fn fg(self, c: Color) -> (r: Style)
        ensures
            r == (Style { fg: Some(c), ..self }),
    {
        Style {
            fg: Some(c),
            bg: self.bg,
            add_modifier: self.add_modifier,
            sub_modifier: self.sub_modifier,
        }
    }

    pub fn bg(self, c: Color) -> (r: Style)
        ensures
            r == (Style { bg: Some(c), ..self }),
    {
        Style {
            fg: self.fg,
            bg: Some(c),
            add_modifier: self.add_modifier,
            sub_modifier: self.sub_modifier,
        }
    }
}

impl Default for Style {
    fn default() -> (r: Style)
        ensures
            r == no_style(),
    {
        Style {
            fg: None,
            bg: None,
            add_modifier: Modifier::none(),
            sub_modifier: Modifier::none(),
        }
    }
}

// ---------------------------------------------------------------------------
// The parameters of one sequence
// ---------------------------------------------------------------------------
/// One of the eight colours.
pub open spec fn basic_colour(n: int) -> Color {
    if n == 0 {
        Color::Black
    } else if n == 1 {
        Color::Red
    } else if n == 2 {
        Color::Green
    } else if n == 3 {
        Color::Yellow
    } else if n == 4 {
        Color::Blue
    } else if n == 5 {
        Color::Magenta
    } else if n == 6 {
        Color::Cyan
    } else {
        Color::Gray
    }
}

/// One of the eight colours, bright.
pub open spec fn bright_colour(n: int) -> Color {
    if n == 0 {
        Color::DarkGray
    } else if n == 1 {
        Color::LightRed
    } else if n == 2 {
        Color::LightGreen
    } else if n == 3 {
        Color::LightYellow
    } else if n == 4 {
        Color::LightBlue
    } else if n == 5 {
        Color::LightMagenta
    } else if n == 6 {
        Color::LightCyan
    } else {
        Color::White
    }
}

/// The modifier a parameter turns on.
pub open spec fn turns_on(p: int) -> Option<Modifier> {
    if p == 1 {
        Some(Modifier { bold: true, ..no_modifier() })
    } else if p == 2 {
        Some(Modifier { dim: true, ..no_modifier() })
    } else if p == 3 {
        Some(Modifier { italic: true, ..no_modifier() })
    } else if p == 4 {
        Some(Modifier { underlined: true, ..no_modifier() })
    } else if p == 7 {
        Some(Modifier { reversed: true, ..no_modifier() })
    } else if p == 9 {
        Some(Modifier { crossed_out: true, ..no_modifier() })
    } else {
        None
    }
}

/// The modifiers a parameter turns off.
pub open spec fn turns_off(p: int) -> Option<Modifier> {
    if p == 21 || p == 22 {
        Some(Modifier { bold: true, dim: true, ..no_modifier() })
    } else if p == 23 {
        Some(Modifier { italic: true, ..no_modifier() })
    } else if p == 24 {
        Some(Modifier { underlined: true, ..no_modifier() })
    } else if p == 27 {
        Some(Modifier { reversed: true, ..no_modifier() })
    } else if p == 29 {
        Some(Modifier { crossed_out: true, ..no_modifier() })
    } else {
        None
    }
}

/// The colour a parameter sets, of the text where `true` and else of what is
/// behind it.
pub open spec fn sets_colour(p: int) -> Option<(bool, Color)> {
    if 30 <= p <= 37 {
        Some((true, basic_colour(p - 30)))
    } else if p == 39 {
        Some((true, Color::Reset))
    } else if 40 <= p <= 47 {
        Some((false, basic_colour(p - 40)))
    } else if p == 49 {
        Some((false, Color::Reset))
    } else if 90 <= p <= 97 {
        Some((true, bright_colour(p - 90)))
    } else if 100 <= p <= 107 {
        Some((false, bright_colour(p - 100)))
    } else {
        None
    }
}

/// What a parameter does that takes no arguments: the reset, the modifiers and the
/// sixteen colours. Any other changes nothing.
pub open spec fn one_parameter(s: Style, p: int) -> Style {
    if p == 0 {
        no_style()
    } else if turns_on(p) is Some {
        s.with(turns_on(p)->0)
    } else if turns_off(p) is Some {
        s.without(turns_off(p)->0)
    } else if sets_colour(p) is Some {
        coloured(s, (sets_colour(p)->0).0, (sets_colour(p)->0).1)
    } else {
        s
    }
}

pub open spec fn coloured(s: Style, fg: bool, c: Color) -> Style {
    if fg {
        Style { fg: Some(c), ..s }
    } else {
        Style { bg: Some(c), ..s }
    }
}

pub open spec fn index_of(n: i32) -> Color {
    Color::Indexed(
        if n < 0 {
            0
        } else if n > 255 {
            255
        } else {
            n as u8
        },
    )
}

/// A style with the parameters from `i` on applied to it, in order. 38 and 48 take
/// their colour from the parameters that follow: `5;N` for one of the 256,
/// `2;r;g;b` for a true colour. Before anything else they end the sequence.
pub open spec fn applied(s: Style, params: Seq<i32>, i: int) -> Style
    decreases params.len() - i,
{
    if i < 0 || i >= params.len() {
        s
    } else if params[i] == 38 || params[i] == 48 {
        let fg = params[i] == 38;
        if i + 1 < params.len() && params[i + 1] == 5 {
            if i + 2 < params.len() {
                applied(coloured(s, fg, index_of(params[i + 2])), params, i + 3)
            } else {
                s
            }
        } else if i + 1 < params.len() && params[i + 1] == 2 {
            if i + 4 < params.len() {
                let c = Color::Rgb(
                    params[i + 2] as u8,
                    params[i + 3] as u8,
                    params[i + 4] as u8,
                );
                applied(coloured(s, fg, c), params, i + 5)
            } else {
                s
            }
        } else {
            s
        }
    } else {
        applied(one_parameter(s, params[i] as int), params, i + 1)
    }
}

fn basic(n: i32) -> (r: Color)
    ensures
        r == basic_colour(n as int),
{
    match n {
        0 => Color::Black,
        1 => Color::Red,
        2 => Color::Green,
        3 => Color::Yellow,
        4 => Color::Blue,
        5 => Color::Magenta,
        6 => Color::Cyan,
        _ => Color::Gray,
    }
}

fn bright(n: i32) -> (r: Color)
    ensures
        r == bright_colour(n as int),
{
    match n {
        0 => Color::DarkGray,
        1 => Color::LightRed,
        2 => Color::LightGreen,
        3 => Color::LightYellow,
        4 => Color::LightBlue,
        5 => Color::LightMagenta,
        6 => Color::LightCyan,
        _ => Color::White,
    }
}

fn modifier_on(p: i32) -> (r: Option<Modifier>)
    ensures
        r == turns_on(p as int),
{
    let mut m = Modifier::none();
    match p {
        1 => m.bold = true,
        2 => m.dim = true,
        3 => m.italic = true,
        4 => m.underlined = true,
        7 => m.reversed = true,
        9 => m.crossed_out = true,
        _ => {
            return None;
        },
    }
    Some(m)
}

fn modifier_off(p: i32) -> (r: Option<Modifier>)
    ensures
        r == turns_off(p as int),
{
    let mut m = Modifier::none();
    match p {
        21 | 22 => {
            m.bold = true;
            m.dim = true;
        },
        23 => m.italic = true,
        24 => m.underlined = true,
        27 => m.reversed = true,
        29 => m.crossed_out = true,
        _ => {
            return None;
        },
    }
    Some(m)
}

fn colour_set(p: i32) -> (r: Option<(bool, Color)>)
    ensures
        r == sets_colour(p as int),
{
    if 30 <= p && p <= 37 {
        Some((true, basic(p - 30)))
    } else if p == 39 {
        Some((true, Color::Reset))
    } else if 40 <= p && p <= 47 {
        Some((false, basic(p - 40)))
    } else if p == 49 {
        Some((false, Color::Reset))
    } else if 90 <= p && p <= 97 {
        Some((true, bright(p - 90)))
    } else if 100 <= p && p <= 107 {
        Some((false, bright(p - 100)))
    } else {
        None
    }
}

fn apply_one(s: Style, p: i32) -> (r: Style)
    ensures
        r == one_parameter(s, p as int),
{
    if p == 0 {
        return Style::default();
    }
    if let Some(m) = modifier_on(p) {
        return s.add_modifier(m);
    }
    if let Some(m) = modifier_off(p) {
        return s.remove_modifier(m);
    }
    if let Some((fg, c)) = colour_set(p) {
        return colour(s, fg, c);
    }
    s
}

fn colour(s: Style, fg: bool, c: Color) -> (r: Style)
    ensures
        r == coloured(s, fg, c),
{
    if fg {
        s.fg(c)
    } else {
        s.bg(c)
    }
}

/// One SGR sequence: its parameters, applied in order, so that a reset in the
/// middle clears what came before it.
pub fn apply(style: Style, params: &[i32]) -> (r: Style)
    ensures
        r == applied(style, params@, 0),
{
    let mut s = style;
    let n: usize = params.len();
    let mut i: usize = 0;
    while i < n
        invariant
            n == params@.len(),
            applied(s, params@, i as int) == applied(style, params@, 0),
        decreases n - i,
    {
        let p: i32 = params[i];
        if p == 38 || p == 48 {
            let fg = p == 38;
            if n - i > 1 && params[i + 1] == 5 {
                if n - i > 2 {
                    let v: i32 = params[i + 2];
                    let k: u8 = if v < 0 {
                        0
                    } else if v > 255 {
                        255
                    } else {
                        v as u8
                    };
                    s = colour(s, fg, Color::Indexed(k));
                } else {
                    return s;
                }
                i = i + 3;
            } else if n - i > 1 && params[i + 1] == 2 {
                if n - i > 4 {
                    let c = Color::Rgb(
                        #[verifier::truncate] (params[i + 2] as u8),
                        #[verifier::truncate] (params[i + 3] as u8),
                        #[verifier::truncate] (params[i + 4] as u8),
                    );
                    s = colour(s, fg, c);
                } else {
                    return s;
                }
                i = i + 5;
            } else {
                return s;
            }
        } else {
            s = apply_one(s, p);
            i = i + 1;
        }
    }
    s
}

// ---------------------------------------------------------------------------
// A captured screen
// ---------------------------------------------------------------------------
/// A run of text in one style.
#[derive(Clone, Debug, PartialEq, Eq)]
pub struct Span {
    pub content: String,
    pub style: Style,
}

#[verifier::ext_equal]
pub struct SpanView {
    pub content: Seq<char>,
    pub style: Style,
}

impl View for Span {
    type V = SpanView;

    open spec fn view(&self) -> SpanView {
        SpanView { content: self.content@, style: self.style }
    }
}

pub open spec fn spans_view(v: Seq<Span>) -> Seq<SpanView> {
    v.map_values(|s: Span| s@)
}

#[derive(Clone, Debug, PartialEq, Eq)]
pub struct Line {
    pub spans: Vec<Span>,
}

impl View for Line {
    type V = Seq<SpanView>;

    open spec fn view(&self) -> Seq<SpanView> {
        spans_view(self.spans@)
    }
}

pub open spec fn lines_view(v: Seq<Line>) -> Seq<Seq<SpanView>> {
    v.map_values(|l: Line| l@)
}

/// The number a run of digits stands for, where it is one that fits.
pub open spec fn number(digits: Seq<char>) -> i32 {
    match text::integer_i32(digits) {
        Some(n) => n,
        None => 0,
    }
}

/// A control sequence: what its parameters are, whether it is a private one, the
/// byte that ends it and says what it does, and where it ends.
pub struct Control {
    pub params: Seq<i32>,
    pub private: bool,
    pub kind: Option<char>,
    pub end: int,
}

/// A control sequence read from `i` on, with the parameters, the digits and the
/// marker that came before. Its parameter bytes are digits, `;` and `:`, and the
/// private markers; intermediate bytes are passed over; the first other byte ends
/// it.
pub open spec fn control(
    s: Seq<char>,
    i: int,
    params: Seq<i32>,
    digits: Seq<char>,
    private: bool,
) -> Control
    decreases s.len() - i,
{
    let all = if digits.len() > 0 || params.len() == 0 {
        params.push(number(digits))
    } else {
        params
    };
    if i < 0 || i >= s.len() {
        Control { params: all, private, kind: None, end: s.len() as int }
    } else if text::is_digit(s[i]) {
        control(s, i + 1, params, digits.push(s[i]), private)
    } else if s[i] == ';' || s[i] == ':' {
        control(s, i + 1, params.push(number(digits)), Seq::empty(), private)
    } else if s[i] == '?' || s[i] == '<' || s[i] == '=' || s[i] == '>' {
        control(s, i + 1, params, digits, true)
    } else if ' ' <= s[i] <= '/' {
        control(s, i + 1, params, digits, private)
    } else {
        Control { params: all, private, kind: Some(s[i]), end: i + 1 }
    }
}

/// Where a title that is set from `i` on ends: behind the bell or the escape that
/// closes it.
pub open spec fn title_end(s: Seq<char>, i: int) -> int
    decreases s.len() - i,
{
    if i >= s.len() {
        s.len() as int
    } else if s[i] == '\x07' || s[i] == '\x1b' {
        i + 1
    } else {
        title_end(s, i + 1)
    }
}

pub open spec fn run_of(buf: Seq<char>, style: Style) -> Seq<SpanView> {
    if buf.len() == 0 {
        Seq::empty()
    } else {
        seq![SpanView { content: buf, style }]
    }
}

/// The style after a control sequence. Only SGR changes anything.
pub open spec fn styled(style: Style, c: Control) -> Style {
    if c.kind == Some('m') && !c.private {
        applied(style, c.params, 0)
    } else {
        style
    }
}

pub proof fn lemma_control_end(
    s: Seq<char>,
    i: int,
    params: Seq<i32>,
    digits: Seq<char>,
    private: bool,
)
    requires
        0 <= i <= s.len(),
    ensures
        i <= control(s, i, params, digits, private).end <= s.len(),
    decreases s.len() - i,
{
    if i < s.len() {
        if text::is_digit(s[i]) {
            lemma_control_end(s, i + 1, params, digits.push(s[i]), private);
        } else if s[i] == ';' || s[i] == ':' {
            lemma_control_end(s, i + 1, params.push(number(digits)), Seq::empty(), private);
        } else if s[i] == '?' || s[i] == '<' || s[i] == '=' || s[i] == '>' {
            lemma_control_end(s, i + 1, params, digits, true);
        } else if ' ' <= s[i] <= '/' {
            lemma_control_end(s, i + 1, params, digits, private);
        }
    }
}

pub proof fn lemma_title_end(s: Seq<char>, i: int)
    requires
        0 <= i <= s.len(),
    ensures
        i <= title_end(s, i) <= s.len(),
    decreases s.len() - i,
{
    if i < s.len() && s[i] != '\x07' && s[i] != '\x1b' {
        lemma_title_end(s, i + 1);
    }
}

/// The place behind the escape sequence that begins at `i`, and the style then.
pub open spec fn past_escape(s: Seq<char>, i: int, style: Style) -> (int, Style) {
    if i + 1 < s.len() && s[i + 1] == '[' {
        let c = control(s, i + 2, Seq::empty(), Seq::empty(), false);
        (c.end, styled(style, c))
    } else if i + 1 < s.len() && s[i + 1] == ']' {
        (title_end(s, i + 1), style)
    } else if i + 1 < s.len() {
        (i + 2, style)
    } else {
        (i + 1, style)
    }
}

pub proof fn lemma_past_escape(s: Seq<char>, i: int, style: Style)
    requires
        0 <= i < s.len(),
    ensures
        i < past_escape(s, i, style).0 <= s.len(),
{
    if i + 1 < s.len() && s[i + 1] == '[' {
        lemma_control_end(s, i + 2, Seq::empty(), Seq::empty(), false);
    } else if i + 1 < s.len() && s[i + 1] == ']' {
        lemma_title_end(s, i + 1);
    }
}

/// The runs of a line from `i` on, where `buf` has been read since the style last
/// could change, and the style at its end.
pub open spec fn runs(s: Seq<char>, i: int, style: Style, buf: Seq<char>) -> (Seq<SpanView>, Style)
    decreases s.len() - i,
{
    if i < 0 || i >= s.len() {
        (run_of(buf, style), style)
    } else if s[i] != '\x1b' {
        runs(s, i + 1, style, buf.push(s[i]))
    } else {
        proof {
            lemma_past_escape(s, i, style);
        }
        let (next, then_style) = past_escape(s, i, style);
        let rest = runs(s, next, then_style, Seq::empty());
        (run_of(buf, style) + rest.0, rest.1)
    }
}

/// The lines of a screen, each with the style that the one before it ended in.
pub open spec fn drawn(ls: Seq<Seq<char>>, i: int, style: Style) -> Seq<Seq<SpanView>>
    decreases ls.len() - i,
{
    if i < 0 || i >= ls.len() {
        Seq::empty()
    } else {
        let (spans, after) = runs(ls[i], 0, style, Seq::empty());
        seq![spans] + drawn(ls, i + 1, after)
    }
}

fn number_of(digits: &str) -> (r: i32)
    ensures
        r == number(digits@),
{
    match parse_i32(digits) {
        Some(n) => n,
        None => 0,
    }
}

fn read_control(v: &Vec<char>, from: usize) -> (r: (Vec<i32>, bool, Option<char>, usize))
    requires
        from <= v@.len(),
    ensures
        ({
            let c = control(v@, from as int, Seq::empty(), Seq::empty(), false);
            r.0@ == c.params && r.1 == c.private && r.2 == c.kind && r.3 == c.end && from <= r.3
                <= v@.len()
        }),
{
    let ghost whole = control(v@, from as int, Seq::empty(), Seq::empty(), false);
    let mut params: Vec<i32> = Vec::new();
    let mut digits = String::new();
    let mut private = false;
    let mut kind: Option<char> = None;
    let mut i: usize = from;
    assert(digits@ =~= Seq::<char>::empty());
    while i < v.len()
        invariant_except_break
            kind is None,
        invariant
            from <= i <= v@.len(),
            kind is None ==> control(v@, i as int, params@, digits@, private) == whole,
        ensures
            kind is None ==> i == v@.len(),
            kind is Some ==> ({
                let all = if digits@.len() > 0 || params@.len() == 0 {
                    params@.push(number(digits@))
                } else {
                    params@
                };
                whole == (Control { params: all, private, kind, end: i as int })
            }),
        decreases v@.len() - i,
    {
        let c = v[i];
        i = i + 1;
        if text::digit(c) {
            digits.push(c);
        } else if c == ';' || c == ':' {
            params.push(number_of(&digits));
            digits = String::new();
            assert(digits@ =~= Seq::<char>::empty());
        } else if c == '?' || c == '<' || c == '=' || c == '>' {
            private = true;
        } else if ' ' <= c && c <= '/' {
        } else {
            kind = Some(c);
            break;
        }
    }
    if !digits.as_str().is_empty() || params.len() == 0 {
        params.push(number_of(&digits));
    }
    (params, private, kind, i)
}

fn read_title(v: &Vec<char>, from: usize) -> (r: usize)
    requires
        from <= v@.len(),
    ensures
        r == title_end(v@, from as int),
        from <= r <= v@.len(),
{
    let mut i: usize = from;
    while i < v.len()
        invariant
            from <= i <= v@.len(),
            title_end(v@, i as int) == title_end(v@, from as int),
        decreases v@.len() - i,
    {
        if v[i] == '\x07' || v[i] == '\x1b' {
            return i + 1;
        }
        i = i + 1;
    }
    i
}

fn skip_escape(v: &Vec<char>, i: usize, style: Style) -> (r: (usize, Style))
    requires
        i < v@.len(),
    ensures
        (r.0 as int, r.1) == past_escape(v@, i as int, style),
        i < r.0 <= v@.len(),
{
    let n: usize = v.len();
    if n - i > 1 && v[i + 1] == '[' {
        let (params, private, kind, end) = read_control(v, i + 2);
        let sgr = match kind {
            Some(c) => c == 'm' && !private,
            None => false,
        };
        if sgr {
            (end, apply(style, params.as_slice()))
        } else {
            (end, style)
        }
    } else if n - i > 1 && v[i + 1] == ']' {
        (read_title(v, i + 1), style)
    } else if n - i > 1 {
        (i + 2, style)
    } else {
        (i + 1, style)
    }
}

fn end_run(spans: &mut Vec<Span>, buf: String, style: Style)
    ensures
        spans_view(final(spans)@) == spans_view(old(spans)@) + run_of(buf@, style),
{
    let ghost before = spans_view(spans@);
    if buf.as_str().is_empty() {
        assert(before + Seq::<SpanView>::empty() =~= before);
    } else {
        let s = Span { content: buf, style };
        spans.push(s);
        assert(spans_view(spans@) =~= before + seq![s@]);
    }
}

fn line_runs(raw: &str, from: Style) -> (r: (Line, Style))
    ensures
        (r.0@, r.1) == runs(raw@, 0, from, Seq::empty()),
{
    let v = chars_of(raw);
    let mut style = from;
    let mut spans: Vec<Span> = Vec::new();
    let mut buf = String::new();
    let mut i: usize = 0;
    let ghost whole = runs(raw@, 0, from, Seq::empty());
    assert(buf@ =~= Seq::<char>::empty());
    assert(spans_view(spans@) =~= Seq::<SpanView>::empty());
    assert(spans_view(spans@) + whole.0 =~= whole.0);
    while i < v.len()
        invariant
            i <= v@.len(),
            v@ == raw@,
            whole.0 == spans_view(spans@) + runs(raw@, i as int, style, buf@).0,
            whole.1 == runs(raw@, i as int, style, buf@).1,
        decreases v@.len() - i,
    {
        let c = v[i];
        if c != '\x1b' {
            buf.push(c);
            i = i + 1;
        } else {
            let ghost before = spans_view(spans@);
            let ghost read = buf@;
            let ghost was = style;
            let (next, then_style) = skip_escape(&v, i, style);
            end_run(&mut spans, buf, style);
            buf = String::new();
            assert(buf@ =~= Seq::<char>::empty());
            let ghost rest = runs(raw@, next as int, then_style, Seq::empty());
            assert(before + (run_of(read, was) + rest.0) =~= (before + run_of(read, was)) + rest.0);
            style = then_style;
            i = next;
        }
    }
    end_run(&mut spans, buf, style);
    (Line { spans }, style)
}

/// Text into styled lines, carrying the style across line breaks the way a
/// terminal does: a capture can open a colour on one row and close it on the next.
pub fn to_lines(screen: &str) -> (r: Vec<Line>)
    ensures
        lines_view(r@) == drawn(text::lines_of(screen@), 0, no_style()),
{
    let ls = lines(screen);
    let ghost all = text::texts(ls@);
    let ghost whole = drawn(all, 0, no_style());
    let mut out: Vec<Line> = Vec::new();
    let mut style = Style::default();
    let mut i: usize = 0;
    assert(lines_view(out@) + whole =~= whole);
    while i < ls.len()
        invariant
            i <= ls@.len(),
            all == text::texts(ls@),
            whole == lines_view(out@) + drawn(all, i as int, style),
        decreases ls@.len() - i,
    {
        assert(all[i as int] == ls@[i as int]@);
        let (l, after) = line_runs(&ls[i], style);
        let ghost before = lines_view(out@);
        let ghost rest = drawn(all, i + 1, after);
        out.push(l);
        assert(lines_view(out@) =~= before.push(l@));
        assert(before + (seq![l@] + rest) =~= before.push(l@) + rest);
        style = after;
        i = i + 1;
    }
    assert(lines_view(out@) + Seq::<Seq<SpanView>>::empty() =~= lines_view(out@));
    out
}

// ---------------------------------------------------------------------------
// Laws
// ---------------------------------------------------------------------------
/// No escape lands on the screen, and no run is empty.
pub proof fn lemma_no_escape_is_drawn(s: Seq<char>, i: int, style: Style, buf: Seq<char>)
    requires
        0 <= i,
        text::free_of(buf, '\x1b'),
    ensures
        forall|k: int|
            0 <= k < runs(s, i, style, buf).0.len() ==> {
                let run = #[trigger] runs(s, i, style, buf).0[k];
                run.content.len() > 0 && text::free_of(run.content, '\x1b')
            },
    decreases s.len() - i,
{
    if i < s.len() {
        if s[i] != '\x1b' {
            lemma_no_escape_is_drawn(s, i + 1, style, buf.push(s[i]));
        } else {
            lemma_past_escape(s, i, style);
            let (next, then_style) = past_escape(s, i, style);
            lemma_no_escape_is_drawn(s, next, then_style, Seq::empty());
            let rest = runs(s, next, then_style, Seq::empty()).0;
            let all = runs(s, i, style, buf).0;
            assert forall|k: int| 0 <= k < all.len() implies ({
                let run = #[trigger] all[k];
                run.content.len() > 0 && text::free_of(run.content, '\x1b')
            }) by {
                let n = run_of(buf, style).len() as int;
                if k >= n {
                    assert(all[k] == rest[k - n]);
                }
            }
        }
    }
}

/// Text without an escape is drawn as it stands, in the style that was in force.
pub proof fn lemma_plain_text_is_one_run(s: Seq<char>, i: int, style: Style, buf: Seq<char>)
    requires
        0 <= i <= s.len(),
        text::free_of(s, '\x1b'),
    ensures
        runs(s, i, style, buf) == (run_of(buf + s.skip(i), style), style),
    decreases s.len() - i,
{
    if i < s.len() {
        lemma_plain_text_is_one_run(s, i + 1, style, buf.push(s[i]));
        assert(buf.push(s[i]) + s.skip(i + 1) =~= buf + s.skip(i));
    } else {
        assert(buf + s.skip(i) =~= buf);
    }
}

/// Every line of the screen is drawn, the blank ones too.
pub proof fn lemma_every_line_is_drawn(ls: Seq<Seq<char>>, i: int, style: Style)
    requires
        0 <= i <= ls.len(),
    ensures
        drawn(ls, i, style).len() == ls.len() - i,
    decreases ls.len() - i,
{
    if i < ls.len() {
        let (spans, after) = runs(ls[i], 0, style, Seq::empty());
        lemma_every_line_is_drawn(ls, i + 1, after);
    }
}

/// A reset clears whatever came before it.
pub proof fn lemma_a_reset_clears_what_came_before(s: Style, params: Seq<i32>)
    requires
        params.len() > 0,
        params[0] == 0,
    ensures
        applied(s, params, 0) == applied(no_style(), params, 1),
{
}

/// The eight colours have the same order in front and behind, plain and bright.
pub proof fn lemma_the_colours_in_order(n: int)
    requires
        0 <= n < 8,
    ensures
        sets_colour(30 + n) == Some((true, basic_colour(n))),
        sets_colour(40 + n) == Some((false, basic_colour(n))),
        sets_colour(90 + n) == Some((true, bright_colour(n))),
        sets_colour(100 + n) == Some((false, bright_colour(n))),
        sets_colour(39) == Some((true, Color::Reset)),
        sets_colour(49) == Some((false, Color::Reset)),
        n == 0 ==> basic_colour(n) == Color::Black && bright_colour(n) == Color::DarkGray,
        n == 1 ==> basic_colour(n) == Color::Red && bright_colour(n) == Color::LightRed,
        n == 2 ==> basic_colour(n) == Color::Green && bright_colour(n) == Color::LightGreen,
        n == 3 ==> basic_colour(n) == Color::Yellow && bright_colour(n) == Color::LightYellow,
        n == 4 ==> basic_colour(n) == Color::Blue && bright_colour(n) == Color::LightBlue,
        n == 5 ==> basic_colour(n) == Color::Magenta && bright_colour(n) == Color::LightMagenta,
        n == 6 ==> basic_colour(n) == Color::Cyan && bright_colour(n) == Color::LightCyan,
        n == 7 ==> basic_colour(n) == Color::Gray && bright_colour(n) == Color::White,
{
}

/// A modifier that is turned off again is off, whatever was on before, and the others stay
/// as they were.
pub proof fn lemma_a_modifier_goes_off_again(s: Style)
    ensures
        ({
            let on = one_parameter(s, 4);
            let off = one_parameter(on, 24);
            &&& on.add_modifier.underlined && !off.add_modifier.underlined
            &&& off.add_modifier.bold == s.add_modifier.bold && off.fg == s.fg && off.bg == s.bg
        }),
        one_parameter(s, 1).add_modifier.bold && one_parameter(s, 2).add_modifier.dim,
        !one_parameter(one_parameter(s, 1), 22).add_modifier.bold && !one_parameter(
            one_parameter(s, 2),
            22,
        ).add_modifier.dim,
        one_parameter(s, 3).add_modifier.italic && !one_parameter(
            one_parameter(s, 3),
            23,
        ).add_modifier.italic,
        one_parameter(s, 7).add_modifier.reversed && !one_parameter(
            one_parameter(s, 7),
            27,
        ).add_modifier.reversed,
        one_parameter(s, 9).add_modifier.crossed_out && !one_parameter(
            one_parameter(s, 9),
            29,
        ).add_modifier.crossed_out,
        one_parameter(s, 0) == no_style(),
{
}

/// A colour by its number is taken with the numbers that name it, in front or behind, and
/// what follows is read as if it had not been there.
pub proof fn lemma_a_numbered_colour_is_taken_whole(s: Style, params: Seq<i32>, i: int)
    requires
        0 <= i,
        i + 2 < params.len(),
        params[i + 1] == 5,
        0 <= params[i + 2] <= 255,
    ensures
        params[i] == 38 ==> applied(s, params, i) == applied(
            Style { fg: Some(Color::Indexed(params[i + 2] as u8)), ..s },
            params,
            i + 3,
        ),
        params[i] == 48 ==> applied(s, params, i) == applied(
            Style { bg: Some(Color::Indexed(params[i + 2] as u8)), ..s },
            params,
            i + 3,
        ),
{
}

} // verus!
