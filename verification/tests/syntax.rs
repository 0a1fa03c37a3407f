use weggli::syntax::{parse, read_node, Grammars};

fn grammars() -> Grammars {
    Grammars { c: tree_sitter_c::language(), cpp: tree_sitter_cpp::language() }
}

#[test]
fn a_tree_is_read_into_plain_nodes() {
    let tree = parse("int x;", false, &grammars()).unwrap();
    let root = read_node(tree.root_node());
    assert_eq!(root.kind, "translation_unit");
    assert!(!root.has_error);
    assert_eq!((root.start_byte, root.end_byte), (0, 6));
    assert_eq!(root.named_child_count, 1);
    assert_eq!(root.children.len(), 1);
    let declaration = &root.children[0];
    assert_eq!(declaration.kind, "declaration");
    let kinds: Vec<&str> = declaration.children.iter().map(|n| n.kind.as_str()).collect();
    assert_eq!(kinds, vec!["primitive_type", "identifier", ";"]);
    assert_eq!(declaration.named_child_count, 2);
    assert_eq!((declaration.children[1].start_byte, declaration.children[1].end_byte), (4, 5));
}

#[test]
fn errors_are_marked() {
    let tree = parse("int x = ;", false, &grammars()).unwrap();
    let root = read_node(tree.root_node());
    assert!(root.has_error);
    assert!(!root.is_error);
}

#[test]
fn the_grammar_follows_the_language() {
    let source = "class A { int f() { return 1; } };";
    let as_c = read_node(parse(source, false, &grammars()).unwrap().root_node());
    let as_cpp = read_node(parse(source, true, &grammars()).unwrap().root_node());
    assert!(as_c.has_error || as_c.children[0].kind != "class_specifier");
    assert!(!as_cpp.has_error);
    assert_eq!(as_cpp.children[0].kind, "class_specifier");
}

#[test]
fn any_text_is_read() {
    let source = "/* größe */ int x;";
    for cpp in [false, true] {
        let root = read_node(parse(source, cpp, &grammars()).unwrap().root_node());
        assert_eq!(root.kind, "translation_unit");
        assert_eq!(root.end_byte, source.len());
        assert!(!root.has_error);
    }
}
