//! Reading the colours of a captured screen.
use taimux::ansi::{apply, to_lines, Color, Line, Modifier, Style};

fn texts(l: &Line) -> Vec<String> {
    l.spans.iter().map(|s| s.content.to_string()).collect()
}

#[test]
fn plain_text_is_one_span() {
    let l = to_lines("hello");
    assert_eq!(texts(&l[0]), vec!["hello"]);
    assert_eq!(l[0].spans[0].style, Style::default());
}

#[test]
fn a_colour_opens_a_span_and_a_reset_closes_it() {
    let l = to_lines("a\x1b[31mred\x1b[0mb");
    assert_eq!(texts(&l[0]), vec!["a", "red", "b"]);
    assert_eq!(l[0].spans[1].style.fg, Some(Color::Red));
    assert_eq!(l[0].spans[2].style, Style::default());
}

/// The parameters within one sequence are ordered, so a reset in the middle of one has
/// to clear what came before it.
#[test]
fn a_reset_inside_a_sequence_clears_what_preceded_it() {
    let l = to_lines("\x1b[1;33mx\x1b[0;36my");
    assert!(l[0].spans[0].style.add_modifier.bold);
    assert_eq!(l[0].spans[1].style.fg, Some(Color::Cyan));
    assert!(!l[0].spans[1].style.add_modifier.bold);
}

#[test]
fn indexed_and_true_colour_both_land() {
    let l = to_lines("\x1b[38;5;208mo\x1b[38;2;18;52;86mt");
    assert_eq!(l[0].spans[0].style.fg, Some(Color::Indexed(208)));
    assert_eq!(l[0].spans[1].style.fg, Some(Color::Rgb(18, 52, 86)));
}

/// The arguments of a 256-colour sequence must not be read as colours in their own
/// right: `38;5;1` is orange-ish 1, not red then something.
#[test]
fn the_arguments_of_an_extended_colour_are_consumed() {
    let l = to_lines("\x1b[38;5;1;1mx");
    assert_eq!(l[0].spans[0].style.fg, Some(Color::Indexed(1)));
    assert!(l[0].spans[0].style.add_modifier.bold);
}

/// Style carries across a line break, the way a terminal does: a capture can open a
/// colour on one row and close it on the next.
#[test]
fn style_carries_from_one_line_to_the_next() {
    let l = to_lines("\x1b[32mgreen\nstill green\x1b[0m\nplain");
    assert_eq!(l[1].spans[0].style.fg, Some(Color::Green));
    assert_eq!(l[2].spans[0].style, Style::default());
}

/// Anything that is not SGR is dropped rather than printed. A capture should not
/// contain cursor movement, but a pane holding a raw log might.
#[test]
fn a_non_sgr_sequence_is_swallowed_whole() {
    let l = to_lines("a\x1b[2Jb\x1b[?25lc");
    assert_eq!(texts(&l[0]).concat(), "abc");
}

#[test]
fn an_osc_title_does_not_land_on_screen() {
    let l = to_lines("a\x1b]0;a window title\x07b");
    assert_eq!(texts(&l[0]).concat(), "ab");
}

#[test]
fn a_bare_escape_at_the_end_does_not_panic() {
    assert_eq!(to_lines("a\x1b").len(), 1);
    assert_eq!(to_lines("\x1b[").len(), 1);
    assert_eq!(to_lines("\x1b[38;5").len(), 1);
}

/// Blank lines are kept: a captured screen is padded to the pane height, and dropping
/// the empties would close gaps the session actually has.
#[test]
fn blank_lines_survive() {
    assert_eq!(to_lines("a\n\nb").len(), 3);
}

#[test]
fn a_sequence_applies_in_order() {
    let bold = Modifier {
        bold: true,
        ..Modifier::none()
    };
    let s = apply(Style::default(), &[1, 33]);
    assert_eq!(s, Style::default().fg(Color::Yellow).add_modifier(bold));
    assert_eq!(apply(s, &[0]), Style::default());
    assert_eq!(apply(Style::default(), &[97, 104]).fg, Some(Color::White));
    assert_eq!(apply(Style::default(), &[97, 104]).bg, Some(Color::LightBlue));
    assert_eq!(
        apply(Style::default(), &[1, 22]),
        Style::default().add_modifier(bold).remove_modifier(Modifier {
            bold: true,
            dim: true,
            ..Modifier::none()
        })
    );
}
