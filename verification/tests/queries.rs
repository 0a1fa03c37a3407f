use weggli::queries::{can_compile, ts_query, QueryFailure};
use weggli::syntax::Grammars;

fn grammars() -> Grammars {
    Grammars { c: tree_sitter_c::language(), cpp: tree_sitter_cpp::language() }
}

fn compiled(sexpr: &str) -> tree_sitter::Query {
    assert!(can_compile(sexpr, false, &grammars()), "{}", sexpr);
    match ts_query(sexpr, false, &grammars()) {
        Ok(query) => query,
        Err(failure) => panic!("{}", failure.report()),
    }
}

fn refused(sexpr: &str) -> QueryFailure {
    assert!(can_compile(sexpr, false, &grammars()), "{}", sexpr);
    ts_query(sexpr, false, &grammars()).err().unwrap()
}

#[test]
fn a_sound_query_is_compiled() {
    assert_eq!(compiled("(identifier) @name").capture_names(), &["name".to_string()]);
    assert!(can_compile("((call_expression) @0)", true, &grammars()));
    let query = ts_query("((call_expression) @0)", true, &grammars()).unwrap();
    assert_eq!(query.pattern_count(), 1);
}

#[test]
fn the_grammar_of_a_query_follows_the_language() {
    assert_eq!(refused("(class_specifier)").kind, "NodeType");
    assert!(can_compile("(class_specifier)", true, &grammars()));
    assert!(ts_query("(class_specifier)", true, &grammars()).is_ok());
}

#[test]
fn a_faulty_query_is_reported() {
    let failure = refused("(no_such_node)");
    assert_eq!(failure.kind, "NodeType");
    assert_eq!(failure.message, "no_such_node");
    assert_eq!(failure.sexpr, "(no_such_node)");
    assert_eq!(
        failure.report(),
        "Tree sitter query generation failed: NodeType\n no_such_node\nsexpr: (no_such_node)\nThis is a bug! Can't recover :/\n"
    );
    assert_eq!(refused("(identifier) @a (#eq? @b \"x\")").kind, "Capture");
    assert_eq!(refused("(call_expression nothing: (identifier))").kind, "Field");
    assert_eq!(refused("(identifier (identifier))").kind, "Structure");
}

#[test]
fn a_query_may_break_off() {
    for sexpr in ["(identifier", "(_", "((identifier) @a", "(identifier name", "(call_expression ("] {
        assert_eq!(refused(sexpr).kind, "Syntax", "{}", sexpr);
    }
    assert_eq!(refused("(no_such_node ").kind, "NodeType");
    assert_eq!(refused("(no.such.node").kind, "NodeType");
}

#[test]
fn a_query_may_break_off_in_a_known_name() {
    for sexpr in [
        "(call_expression !function",
        "(identifier) @a (#eq? @a",
        "(identifier) @b @a; x\n(#eq? @a",
        "(expression/identifier",
    ] {
        let kind = refused(sexpr).kind;
        assert!(kind == "Syntax" || kind == "NodeType", "{}", sexpr);
    }
}

#[test]
fn long_texts_are_compiled() {
    let comment = format!("; {}\n", "x (".repeat(100000));
    assert_eq!(compiled(&format!("{}(identifier) @a", comment)).pattern_count(), 1);
    let name = "n".repeat(100000);
    assert_eq!(compiled(&format!("(identifier) @{}", name)).capture_names(), &[name.clone()]);
    assert_eq!(compiled(&" ".repeat(100000)).pattern_count(), 0);
    assert_eq!(refused(&format!("({})", name)).message, name);
}

#[test]
fn labels_may_be_nested() {
    assert_eq!(refused(&format!("{}_", "a:".repeat(999))).kind, "Field");
    let query = format!("(_ {}(identifier))", "function: ".repeat(900));
    compiled(&query);
}

#[test]
fn queries_may_end_in_a_name() {
    assert_eq!(compiled("_").pattern_count(), 1);
    assert_eq!(compiled("[\"if\" \"(\"] @k").capture_names(), &["k".to_string()]);
    assert_eq!(refused("(identifier) name").kind, "Syntax");
    assert_eq!(compiled("").pattern_count(), 0);
}

#[test]
fn queries_may_hold_any_text_in_strings_and_comments() {
    let query = compiled("(identifier) @a ; größe (\n(#eq? @a \"größe\")");
    assert_eq!(query.capture_names(), &["a".to_string()]);
    assert_eq!(refused("\"größe\"").message, "größe");
}

#[test]
fn quantifiers_stand_behind_fixed_patterns() {
    for sexpr in [
        "(identifier)* @a",
        "(call_expression (identifier)?)*",
        "((identifier)? (number_literal))+",
        "[(identifier)? (number_literal)]*",
        "((identifier) (number_literal)?)*",
        "(identifier)* (identifier)?",
        "\"(\"? \"*\"",
        "(identifier) @a? (identifier)?",
    ] {
        compiled(sexpr);
    }
}

#[test]
fn texts_without_an_answer_are_kept_away() {
    for sexpr in [
        "(no_such_node",
        "(größe",
        "(a/no_such_node",
        "(call_expression !no_such_field",
        "(#eq? @a",
        "(identifier) @aa @b? (#eq? @a",
        "(_)**",
        "(_)?*",
        "(_)*?",
        "(_)??",
        "(_)?+",
        "(_)* ; again\n*",
        "(_)* @a *",
        "((_)*)*",
        "((_)? (_)?)+",
        "[(_) (_)?]*",
        "((_)? f: (_)?)*",
        "((#p))",
        "((p?)) @a",
        "[(#p) (_)]",
        "(_ f: (#p))",
        "(_ (#p) .)",
        "\"a\\0\"",
        "\"\0\"",
        "(_) größe",
    ] {
        assert!(!can_compile(sexpr, false, &grammars()), "{}", sexpr);
    }
    assert!(!can_compile(&"_".repeat(32768), false, &grammars()));
    assert!(can_compile(&"_".repeat(32767), false, &grammars()));
    assert!(!can_compile(&"a:".repeat(1000), false, &grammars()));
    assert!(!can_compile(&"(_ a: ".repeat(500), false, &grammars()));
    assert!(!can_compile(&"(".repeat(1000), false, &grammars()));
    assert_eq!(refused(&"(".repeat(999)).kind, "Syntax");
    compiled(&format!("{}_{}", "(_ ".repeat(999), ")".repeat(999)));
}

#[test]
fn texts_that_look_alike_are_answered() {
    for sexpr in [
        "\"(_)**\"",
        "; (_)**",
        "(_) ** ",
        "((#p) (_))",
        "(_ (#p) . (_))",
        "(_ . (_))",
        "(_ (_) .)",
        "(_ (#eq? @a \"\\0\"))",
        ")",
        "]",
        "()",
    ] {
        assert_eq!(can_compile(sexpr, false, &grammars()), sexpr != "(_) ** ", "{}", sexpr);
        if can_compile(sexpr, false, &grammars()) {
            let _ = ts_query(sexpr, false, &grammars());
        }
    }
}

#[test]
fn a_query_failure_is_worded() {
    let failure = QueryFailure {
        kind: "Syntax".to_string(),
        message: "m".to_string(),
        sexpr: "s".to_string(),
    };
    assert_eq!(
        failure.report(),
        "Tree sitter query generation failed: Syntax\n m\nsexpr: s\nThis is a bug! Can't recover :/\n"
    );
}
