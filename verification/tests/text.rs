use weggli::text::{
    byte_slice, byte_slice_from, ends_with_char, has_text, line_number, numeral_text, same_text,
    starts_with_char,
};

#[test]
fn decimal_numerals() {
    assert_eq!(numeral_text(0, 10), "0");
    assert_eq!(numeral_text(9, 10), "9");
    assert_eq!(numeral_text(10, 10), "10");
    assert_eq!(numeral_text(1203, 10), "1203");
    assert_eq!(numeral_text(u64::MAX, 10), "18446744073709551615");
}

#[test]
fn hexadecimal_numerals() {
    assert_eq!(numeral_text(0, 16), "0");
    assert_eq!(numeral_text(255, 16), "ff");
    assert_eq!(numeral_text(0x40_1000, 16), "401000");
    assert_eq!(numeral_text(u64::MAX, 16), format!("{:x}", u64::MAX));
}

#[test]
fn texts_are_compared_by_content() {
    assert!(same_text("", ""));
    assert!(same_text("größe", "größe"));
    assert!(!same_text("abc", "abd"));
    assert!(!same_text("abc", "abcd"));
}

#[test]
fn a_list_is_searched_for_a_text() {
    let list = vec!["a".to_string(), "b".to_string()];
    assert!(has_text(&list, "b"));
    assert!(!has_text(&list, "c"));
    assert!(!has_text(&vec![], ""));
}

#[test]
fn first_and_last_character() {
    assert!(starts_with_char("$x", '$'));
    assert!(!starts_with_char("", '$'));
    assert!(!starts_with_char("x$", '$'));
    assert!(ends_with_char("x!", '!'));
    assert!(!ends_with_char("", '!'));
    assert!(ends_with_char("ä", 'ä'));
}

#[test]
fn slices_by_bytes_join_to_the_text() {
    let text = "aäb€c";
    assert_eq!(byte_slice(text, 0, 1), "a");
    assert_eq!(byte_slice(text, 1, 3), "ä");
    assert_eq!(byte_slice(text, 3, 3), "");
    assert_eq!(byte_slice_from(text, 4), "€c");
    assert_eq!(byte_slice_from(text, text.len()), "");
    let joined = format!("{}{}{}", byte_slice(text, 0, 3), byte_slice(text, 3, 7), byte_slice_from(text, 7));
    assert_eq!(joined, text);
}

#[test]
fn lines_are_counted_from_one() {
    assert_eq!(line_number("", 0), 1);
    assert_eq!(line_number("a\nb\nc", 0), 1);
    assert_eq!(line_number("a\nb\nc", 1), 1);
    assert_eq!(line_number("a\nb\nc", 2), 2);
    assert_eq!(line_number("a\nb\nc", 5), 3);
    assert_eq!(line_number("ä\n\nb", 4), 3);
}

#[test]
fn later_places_are_on_later_lines() {
    let source = "int a;\n\nint ä;\nint b;\n";
    let mut last = 1;
    for at in 0..=source.len() {
        if source.is_char_boundary(at) {
            let line = line_number(source, at);
            assert!(last <= line);
            last = line;
        }
    }
    assert_eq!(last, 5);
}
