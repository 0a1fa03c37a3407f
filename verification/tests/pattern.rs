use weggli::pattern::{
    can_show_fault, describe_fault, find_fault, find_fault_from, judge_query,
    parse_search_pattern, propose_braces, propose_semicolon, supports_root, validate_query,
    PatternError, SearchPattern,
};
use weggli::syntax::{Grammars, SyntaxNode};

fn grammars() -> Grammars {
    Grammars { c: tree_sitter_c::language(), cpp: tree_sitter_cpp::language() }
}

fn node(kind: &str, start: usize, end: usize, children: Vec<SyntaxNode>) -> SyntaxNode {
    SyntaxNode {
        kind: kind.to_string(),
        has_error: children.iter().any(|c| c.has_error),
        is_error: false,
        is_missing: false,
        start_byte: start,
        end_byte: end,
        named_child_count: children.len(),
        children,
    }
}

fn error(start: usize, end: usize) -> SyntaxNode {
    SyntaxNode { has_error: true, is_error: true, ..node("ERROR", start, end, vec![]) }
}

fn missing(kind: &str, at: usize) -> SyntaxNode {
    SyntaxNode { has_error: true, is_missing: true, ..node(kind, at, at, vec![]) }
}

fn accepted(pattern: &str, cpp: bool) -> SearchPattern {
    match parse_search_pattern(pattern, cpp, false, &grammars()) {
        Ok(found) => found,
        Err(PatternError::Invalid(message)) => panic!("{}", message),
        Err(_) => panic!("refused"),
    }
}

fn refused(pattern: &str, cpp: bool) -> String {
    match parse_search_pattern(pattern, cpp, false, &grammars()) {
        Err(PatternError::Invalid(message)) => message,
        _ => panic!("not refused"),
    }
}

#[test]
fn supported_root_kinds() {
    for kind in [
        "compound_statement",
        "function_definition",
        "struct_specifier",
        "enum_specifier",
        "union_specifier",
        "class_specifier",
    ] {
        assert!(supports_root(kind));
    }
    assert!(!supports_root("declaration"));
    assert!(!supports_root(""));
    assert!(!supports_root("compound_statement2"));
}

#[test]
fn missing_semicolon_and_braces_are_supplied() {
    assert_eq!(accepted("memcpy(a,b,size)", false).text, "{memcpy(a,b,size);}");
    assert_eq!(accepted("memcpy(_);", false).text, "{memcpy(_);}");
    assert_eq!(accepted("{memcpy(_);}", false).text, "{memcpy(_);}");
}

#[test]
fn sound_patterns_are_left_alone() {
    for pattern in ["{}", "{int x; x = 1;}", "void f() {}", "enum a { B };"] {
        assert_eq!(accepted(pattern, false).text, pattern);
    }
    assert_eq!(accepted("class a { int x; };", true).text, "class a { int x; };");
}

#[test]
fn an_accepted_pattern_is_settled() {
    for pattern in ["memcpy(a,b,size)", "memcpy(_);", "int x;", "x = y + 1"] {
        let once = accepted(pattern, false).text;
        assert_eq!(accepted(&once, false).text, once);
    }
}

#[test]
fn the_tree_belongs_to_the_repaired_text() {
    let found = accepted("memcpy(_);", false);
    assert_eq!(found.root.children[0].kind, "compound_statement");
    assert_eq!(found.tree.root_node().end_byte(), found.text.len());
    assert_eq!(found.root.end_byte, found.text.len());
}

#[test]
fn faulty_patterns_are_refused_with_the_query() {
    colored::control::set_override(false);
    let message = refused("{ x = ( ; }", false);
    assert!(message.starts_with("Error! Query parsing failed: "));
}

#[test]
fn forced_patterns_may_have_errors() {
    let found = parse_search_pattern("{ x = ( ; }", false, true, &grammars()).ok().unwrap();
    assert_eq!(found.text, "{ x = ( ; }");
    assert!(found.root.has_error);
}

#[test]
fn empty_patterns_are_refused() {
    colored::control::set_override(false);
    assert_eq!(refused("", false), "Error: '' is not a supported query root node.");
}

#[test]
fn several_roots_are_refused() {
    colored::control::set_override(false);
    assert_eq!(
        refused("void f() {} void g() {}", false),
        "Error: 'void f() {} void g() {}' query contains multiple root nodes"
    );
}

#[test]
fn the_first_fault_is_found() {
    let siblings = vec![
        node("a", 0, 1, vec![]),
        node("b", 1, 4, vec![node("c", 1, 2, vec![]), error(2, 3), error(3, 4)]),
        error(4, 5),
    ];
    let fault = find_fault(&siblings).unwrap();
    assert_eq!((fault.start_byte, fault.end_byte), (2, 3));
    assert!(find_fault(&vec![node("a", 0, 1, vec![])]).is_none());
    assert!(find_fault(&vec![]).is_none());
}

#[test]
fn a_fault_without_a_place_is_not_found() {
    let root = SyntaxNode { has_error: true, ..node("a", 0, 1, vec![node("b", 0, 1, vec![])]) };
    assert!(find_fault_from(&root).is_none());
    let sound = node("a", 0, 1, vec![error(0, 1)]);
    assert!(find_fault_from(&sound).is_some());
    assert!(find_fault_from(&error(0, 1)).unwrap().is_error);
    assert!(find_fault_from(&node("a", 0, 1, vec![])).is_none());
}

#[test]
fn faults_are_shown_in_the_query() {
    colored::control::set_override(false);
    let root = node("translation_unit", 0, 5, vec![error(2, 3)]);
    assert_eq!(
        validate_query(&root, "ab?cd", false).err().unwrap(),
        "Error! Query parsing failed: ab?cd"
    );
    let root = node("translation_unit", 0, 5, vec![missing(";", 3)]);
    assert_eq!(
        validate_query(&root, "abcde", false).err().unwrap(),
        "Error! Query parsing failed: abc [MISSING ; ] de"
    );
}

#[test]
fn an_error_that_is_nowhere_gets_the_short_message() {
    colored::control::set_override(false);
    let root = SyntaxNode { has_error: true, ..node("translation_unit", 0, 1, vec![]) };
    assert_eq!(
        validate_query(&root, "x", false).err().unwrap(),
        "Error! Query parsing failed:"
    );
    assert_eq!(describe_fault(None, "x").len(), 1);
}

#[test]
fn places_inside_a_character_are_noticed() {
    let root = node("translation_unit", 0, 2, vec![error(1, 2)]);
    assert!(!can_show_fault(&root, "ä", false));
    assert!(can_show_fault(&root, "ä", true));
    assert!(can_show_fault(&root, "ab", false));
    let root = node("translation_unit", 0, 2, vec![error(2, 1)]);
    assert!(!can_show_fault(&root, "ab", false));
    let root = node("translation_unit", 0, 2, vec![error(1, 7)]);
    assert!(!can_show_fault(&root, "ab", false));
}

#[test]
fn queries_are_judged_by_their_first_node() {
    let root = node("translation_unit", 0, 2, vec![node("compound_statement", 0, 2, vec![])]);
    assert_eq!(judge_query(&root, "{}", false).ok().unwrap().kind, "compound_statement");
    let root = node("translation_unit", 0, 2, vec![node("declaration", 0, 2, vec![])]);
    let pieces = judge_query(&root, "x", false).err().unwrap();
    assert_eq!(pieces[0].text, "Error: ");
    assert_eq!(pieces[1].text, "'x' is not a supported query root node.");
    let root = node(
        "translation_unit",
        0,
        4,
        vec![node("compound_statement", 0, 2, vec![]), node("compound_statement", 2, 4, vec![])],
    );
    let pieces = judge_query(&root, "{}{}", false).err().unwrap();
    assert_eq!(pieces[1].text, "'{}{}' query contains multiple root nodes");
}

#[test]
fn repairs_are_proposed_by_what_the_tree_says() {
    let faulty = node("translation_unit", 0, 1, vec![error(0, 1)]);
    assert_eq!(propose_semicolon(&faulty, "x").unwrap(), "x;");
    assert!(propose_semicolon(&faulty, "x;").is_none());
    assert_eq!(propose_semicolon(&faulty, "").unwrap(), ";");
    assert!(propose_braces(&faulty, "x").is_none());
    let sound = node("translation_unit", 0, 2, vec![node("declaration", 0, 2, vec![])]);
    assert!(propose_semicolon(&sound, "x").is_none());
    assert_eq!(propose_braces(&sound, "x;").unwrap(), "{x;}");
    let block = node("translation_unit", 0, 2, vec![node("compound_statement", 0, 2, vec![])]);
    assert!(propose_braces(&block, "{}").is_none());
    assert!(propose_braces(&node("translation_unit", 0, 0, vec![]), "").is_none());
}

#[test]
fn forcing_changes_nothing_for_sound_patterns() {
    for pattern in ["memcpy(a,b,size)", "{}", "int x;"] {
        let forced = parse_search_pattern(pattern, false, true, &grammars()).ok().unwrap();
        assert_eq!(forced.text, accepted(pattern, false).text);
        assert!(!forced.root.has_error);
    }
}

#[test]
fn repairs_only_wrap_the_pattern() {
    for pattern in ["a(b)", "a(b);", "{a(b);}", "x = (", ""] {
        let text = match parse_search_pattern(pattern, false, true, &grammars()) {
            Ok(found) => found.text,
            Err(_) => continue,
        };
        let expected = [
            pattern.to_string(),
            format!("{};", pattern),
            format!("{{{}}}", pattern),
            format!("{{{};}}", pattern),
        ];
        assert!(expected.contains(&text));
    }
}

#[test]
fn semicolon_and_braces_may_be_left_out() {
    for (short, long) in [
        ("memcpy(_);", "{memcpy(_);}"),
        ("memcpy(a,b,size)", "memcpy(a,b,size);"),
        ("memcpy(a,b,size)", "{memcpy(a,b,size);}"),
        ("int x = 1;", "{int x = 1;}"),
    ] {
        assert_eq!(accepted(short, false).text, accepted(long, false).text);
        assert_eq!(accepted(short, true).text, accepted(long, true).text);
    }
}

#[test]
fn refusals_are_alike_without_semicolon_or_braces() {
    colored::control::set_override(false);
    for (short, long) in [("int x; void f() {}", "{int x; void f() {}}"), ("f()", "f();")] {
        for force in [false, true] {
            let a = parse_search_pattern(short, false, force, &grammars());
            let b = parse_search_pattern(long, false, force, &grammars());
            match (a, b) {
                (Ok(a), Ok(b)) => assert_eq!(a.text, b.text),
                (Err(PatternError::Invalid(a)), Err(PatternError::Invalid(b))) => assert_eq!(a, b),
                _ => panic!("{}", short),
            }
        }
    }
}

#[test]
fn patterns_may_hold_any_text() {
    let found = accepted("f(\"größe\")", false);
    assert_eq!(found.text, "{f(\"größe\");}");
    assert_eq!(found.root.end_byte, found.text.len());
}
