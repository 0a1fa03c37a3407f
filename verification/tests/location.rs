use weggli::location::Location;

#[test]
fn a_source_file_is_shown_with_its_line() {
    let place = Location::SourceFile { path: "src/a.c".to_string() };
    colored::control::set_override(false);
    assert_eq!(place.format_with_line(12), "src/a.c:12");
}

#[test]
fn a_function_is_shown_with_its_address() {
    let place = Location::BinaryFunction { path: "a.out".to_string(), address: 0x401000 };
    colored::control::set_override(false);
    assert_eq!(place.format_with_line(12), "a.out: 0x401000");
}

#[test]
fn a_heading_is_made_of_pieces() {
    let place = Location::SourceFile { path: "x".to_string() };
    let pieces = place.heading_pieces(7);
    assert_eq!(pieces.len(), 2);
    assert_eq!(pieces[1].text, ":7");
}

#[test]
fn places_are_copied() {
    let place = Location::BinaryFunction { path: "a".to_string(), address: 1 };
    assert_eq!(place.clone(), place);
    assert_ne!(place, Location::SourceFile { path: "a".to_string() });
}
