use regex::Regex;
use weggli::paint::render;
use weggli::regexes::{
    normalize_variable, process_regexes, read_constraint, split_once_at, RegexError, RegexMap,
};

fn args(list: &[&str]) -> Vec<String> {
    list.iter().map(|s| s.to_string()).collect()
}

#[test]
fn arguments_become_constraints() {
    let map = process_regexes(&args(&["$a=^mem", "b!=^x=y$"])).ok().unwrap();
    let (negative, re) = map.get("$a").unwrap();
    assert!(!negative);
    assert_eq!(re.as_str(), "^mem");
    assert!(re.is_match("memcpy"));
    let (negative, re) = map.get("$b").unwrap();
    assert!(negative);
    assert_eq!(re.as_str(), "^x=y$");
    assert!(map.get("b").is_none());
    assert!(map.get("$c").is_none());
    let mut names = map.variables();
    names.sort();
    assert_eq!(names, args(&["$a", "$b"]));
}

#[test]
fn the_dollar_sign_may_be_left_out() {
    assert_eq!(normalize_variable("x"), normalize_variable("$x"));
    assert_eq!(normalize_variable("x!"), ("$x".to_string(), true));
    assert_eq!(normalize_variable("$x"), ("$x".to_string(), false));
    assert_eq!(normalize_variable(""), ("$".to_string(), false));
    assert_eq!(normalize_variable("!"), ("$".to_string(), true));
    assert_eq!(normalize_variable("x!!"), ("$x!".to_string(), true));
}

#[test]
fn the_last_constraint_on_a_variable_counts() {
    let map = process_regexes(&args(&["a=1", "b=2", "$a!=3"])).ok().unwrap();
    assert_eq!(map.variables().len(), 2);
    let (negative, re) = map.get("$a").unwrap();
    assert!(negative);
    assert_eq!(re.as_str(), "3");
}

#[test]
fn no_arguments_give_an_empty_table() {
    let map = process_regexes(&[]).ok().unwrap();
    assert!(map.variables().is_empty());
    assert!(map.get("$a").is_none());
}

#[test]
fn the_first_faulty_argument_decides() {
    match process_regexes(&args(&["a=1", "nothing", "b=("])) {
        Err(RegexError::InvalidArg(arg)) => assert_eq!(arg, "nothing"),
        _ => panic!("not refused"),
    }
    match process_regexes(&args(&["a=1", "b=(", "nothing"])) {
        Err(RegexError::InvalidRegex(_)) => {}
        _ => panic!("not refused"),
    }
}

#[test]
fn one_argument_is_read() {
    let (name, (negative, re)) = read_constraint("v!=a=b").ok().unwrap();
    assert_eq!((name.as_str(), negative, re.as_str()), ("$v", true, "a=b"));
    assert!(matches!(read_constraint(""), Err(RegexError::InvalidArg(_))));
    assert!(matches!(read_constraint("a=["), Err(RegexError::InvalidRegex(_))));
}

#[test]
fn texts_are_split_at_the_first_sign() {
    assert_eq!(split_once_at("a=b=c", '='), Some(("a", "b=c")));
    assert_eq!(split_once_at("=", '='), Some(("", "")));
    assert_eq!(split_once_at("äöü=", '='), Some(("äöü", "")));
    assert_eq!(split_once_at("abc", '='), None);
}

#[test]
fn a_table_keeps_the_last_entry() {
    let re = |p: &str| Regex::new(p).unwrap();
    let map = RegexMap::new(vec![
        ("$a".to_string(), (false, re("1"))),
        ("$b".to_string(), (true, re("2"))),
        ("$a".to_string(), (true, re("3"))),
    ]);
    assert_eq!(map.variables(), args(&["$a", "$b"]));
    assert_eq!(map.get("$a").unwrap().1.as_str(), "3");
    let copy = map.clone();
    assert_eq!(copy.get("$a").unwrap().1.as_str(), "3");
    assert_eq!(copy.variables(), map.variables());
}

#[test]
fn constraint_errors_are_worded() {
    colored::control::set_override(false);
    let error = process_regexes(&args(&["oops"])).err().unwrap();
    assert_eq!(render(&error.message()), "'oops' is not a valid argument of the form var=regex");
    let error = process_regexes(&args(&["a=("])).err().unwrap();
    let expected = format!("Regex error {}", Regex::new("(").unwrap_err());
    assert_eq!(render(&error.message()), expected);
    let error = RegexError::from(Regex::new("(").unwrap_err());
    assert_eq!(render(&error.message()), expected);
}
