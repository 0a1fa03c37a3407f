use weggli::paint::{join_texts, render, Ink, Piece};

#[test]
fn without_colours_the_text_stays() {
    colored::control::set_override(false);
    let pieces = vec![
        Piece::new(Ink::Red, "Error: "),
        Piece::new(Ink::Plain, "no"),
        Piece::new(Ink::RedBoldItalic, " way"),
    ];
    assert_eq!(render(&pieces), "Error: no way");
}

#[test]
fn texts_are_joined_in_order() {
    assert_eq!(join_texts(&vec![]), "");
    assert_eq!(join_texts(&vec!["a".to_string(), "".to_string(), "bc".to_string()]), "abc");
}
