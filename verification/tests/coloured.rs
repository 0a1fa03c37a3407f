//! Messages on a terminal with colours. The switch for them is one for the whole process, so these
//! tests stand in a file of their own.
use weggli::location::Location;
use weggli::paint::{paint_pieces, render, Ink, Piece};
use weggli::pattern::validate_query;
use weggli::session::describe_unknown_variable;
use weggli::syntax::SyntaxNode;

#[test]
fn inks_select_their_escape_sequences() {
    colored::control::set_override(true);
    assert_eq!(Piece::new(Ink::Plain, "x").paint(), "x");
    assert_eq!(Piece::new(Ink::Red, "x").paint(), "\u{1b}[31mx\u{1b}[0m");
    assert_eq!(Piece::new(Ink::RedBold, "x").paint(), "\u{1b}[1;31mx\u{1b}[0m");
    assert_eq!(Piece::new(Ink::GreenBold, "x").paint(), "\u{1b}[1;32mx\u{1b}[0m");
    assert_eq!(Piece::new(Ink::Yellow, "x").paint(), "\u{1b}[33mx\u{1b}[0m");
    assert_eq!(Piece::new(Ink::Italic, "x").paint(), "\u{1b}[3mx\u{1b}[0m");
    assert_eq!(Piece::new(Ink::RedBoldItalic, "x").paint(), "\u{1b}[1;3;31mx\u{1b}[0m");
}

#[test]
fn empty_text_is_painted_too() {
    colored::control::set_override(true);
    assert_eq!(Piece::new(Ink::Italic, "").paint(), "\u{1b}[3m\u{1b}[0m");
}

#[test]
fn an_inner_reset_is_followed_by_the_ink_again() {
    colored::control::set_override(true);
    assert_eq!(
        Piece::new(Ink::Red, "a\u{1b}[0mb\u{1b}[0m").paint(),
        "\u{1b}[31ma\u{1b}[0m\u{1b}[31mb\u{1b}[0m\u{1b}[31m\u{1b}[0m"
    );
}

#[test]
fn pieces_are_painted_one_by_one() {
    colored::control::set_override(true);
    let pieces = vec![Piece::new(Ink::Yellow, "a"), Piece::new(Ink::Plain, "b")];
    let parts = paint_pieces(&pieces);
    assert_eq!(parts, vec!["\u{1b}[33ma\u{1b}[0m".to_string(), "b".to_string()]);
    assert_eq!(render(&pieces), "\u{1b}[33ma\u{1b}[0mb");
}

#[test]
fn colours_leave_the_visible_text() {
    colored::control::set_override(true);
    let shown = render(&vec![Piece::new(Ink::Red, "ab"), Piece::new(Ink::Italic, "cd")]);
    let visible: String = shown
        .split('\u{1b}')
        .enumerate()
        .map(|(i, part)| if i == 0 { part } else { part.split_once('m').unwrap().1 })
        .collect();
    assert_eq!(visible, "abcd");
}

#[test]
fn faults_are_shown_in_colour() {
    colored::control::set_override(true);
    let fault = SyntaxNode {
        kind: "ERROR".to_string(),
        has_error: true,
        is_error: true,
        is_missing: false,
        start_byte: 1,
        end_byte: 2,
        named_child_count: 0,
        children: vec![],
    };
    let root = SyntaxNode {
        kind: "translation_unit".to_string(),
        has_error: true,
        is_error: false,
        is_missing: false,
        start_byte: 0,
        end_byte: 3,
        named_child_count: 1,
        children: vec![fault],
    };
    assert_eq!(
        validate_query(&root, "a?b", false).err().unwrap(),
        "\u{1b}[1;31mError! Query parsing failed:\u{1b}[0m \u{1b}[3ma\u{1b}[0m\u{1b}[1;3;31m?\u{1b}[0m\u{1b}[3mb\u{1b}[0m"
    );
}

#[test]
fn an_unknown_variable_is_shown_in_red() {
    colored::control::set_override(true);
    let pieces = describe_unknown_variable("$x");
    assert_eq!(
        render(&pieces),
        "'\u{1b}[31m$x\u{1b}[0m' is not a valid query variable"
    );
}

#[test]
fn places_are_shown_in_colour() {
    colored::control::set_override(true);
    let place = Location::SourceFile { path: "src/a.c".to_string() };
    assert_eq!(place.format_with_line(1), "\u{1b}[1;32msrc/a.c\u{1b}[0m:1");
    let place = Location::BinaryFunction { path: "a.out".to_string(), address: 0x401000 };
    assert_eq!(
        place.format_with_line(3),
        "\u{1b}[1;32ma.out\u{1b}[0m: \u{1b}[33m0x401000\u{1b}[0m"
    );
}
