use weggli::pattern::PatternError;
use weggli::regexes::process_regexes;
use weggli::session::{
    check_files, check_variables, next_action, parse_search_patterns, unknown_variable,
    PromptAction, PromptEvent,
};
use weggli::syntax::Grammars;

fn list(texts: &[&str]) -> Vec<String> {
    texts.iter().map(|s| s.to_string()).collect()
}

#[test]
fn constraints_have_to_be_on_used_variables() {
    colored::control::set_override(false);
    let constraints = process_regexes(&list(&["a=1", "b=2"])).ok().unwrap();
    assert!(check_variables(&constraints, &vec![list(&["$a", "$b"])]).is_ok());
    assert!(check_variables(&constraints, &vec![list(&["$a"]), list(&["$c", "$b"])]).is_ok());
    assert_eq!(
        check_variables(&constraints, &vec![list(&["$a"])]).unwrap_err(),
        "'$b' is not a valid query variable"
    );
    assert_eq!(unknown_variable(&constraints, &vec![list(&["$b"])]).unwrap(), "$a");
    assert!(unknown_variable(&constraints, &vec![]).is_some());
    let none = process_regexes(&[]).ok().unwrap();
    assert!(check_variables(&none, &vec![]).is_ok());
}

#[test]
fn patterns_are_read_up_to_the_first_fault() {
    colored::control::set_override(false);
    let grammars = Grammars { c: tree_sitter_c::language(), cpp: tree_sitter_cpp::language() };
    let found = parse_search_patterns(&list(&["x = 1;", "{}"]), false, false, &grammars).ok().unwrap();
    assert_eq!(found.len(), 2);
    assert_eq!(found[0].text, "{x = 1;}");
    assert_eq!(found[1].text, "{}");
    match parse_search_patterns(&list(&["{}", "", "void f() {} void g() {}"]), false, false, &grammars) {
        Err(PatternError::Invalid(message)) => {
            assert_eq!(message, "Error: '' is not a supported query root node.")
        }
        _ => panic!("not refused"),
    }
}

#[test]
fn there_has_to_be_a_file() {
    colored::control::set_override(false);
    assert!(check_files(1).is_ok());
    assert_eq!(check_files(0).unwrap_err(), "No files to parse. Exiting...");
}

#[test]
fn the_prompt_is_answered() {
    match next_action(PromptEvent::Line("x".to_string())) {
        PromptAction::Search(pattern) => assert_eq!(pattern, "x"),
        _ => panic!("no search"),
    }
    assert!(matches!(next_action(PromptEvent::EndOfInput), PromptAction::Quit));
    assert!(matches!(next_action(PromptEvent::Nothing), PromptAction::ReportNothing));
}
