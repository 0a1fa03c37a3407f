use weggli::files::{
    any_match, compile_all, is_hidden, is_wanted, maybe_parse, potential_match, screen_text,
    total_size, FileFilter, FoundFile, WorkItem,
};
use weggli::syntax::Grammars;

fn grammars() -> Grammars {
    Grammars { c: tree_sitter_c::language(), cpp: tree_sitter_cpp::language() }
}

fn list(texts: &[&str]) -> Vec<String> {
    texts.iter().map(|s| s.to_string()).collect()
}

fn file(path: &str, size: u64) -> FoundFile<u32> {
    FoundFile { path: 7, shown: path.to_string(), size }
}

fn paths(files: &[FoundFile<u32>]) -> Vec<&str> {
    files.iter().map(|f| f.shown.as_str()).collect()
}

fn work(identifiers: &[&[&str]]) -> Vec<WorkItem<()>> {
    identifiers.iter().map(|ids| WorkItem { qt: (), identifiers: list(ids) }).collect()
}

#[test]
fn names_with_a_dot_in_front_are_hidden() {
    assert!(is_hidden(Some(".git")));
    assert!(!is_hidden(Some("a.c")));
    assert!(!is_hidden(Some("")));
    assert!(!is_hidden(None));
}

#[test]
fn extensions_choose_files() {
    let wanted = list(&["c", "h"]);
    assert!(is_wanted(false, Some(Some("c")), &wanted));
    assert!(!is_wanted(true, Some(Some("c")), &wanted));
    assert!(!is_wanted(false, Some(Some("cpp")), &wanted));
    assert!(!is_wanted(false, None, &wanted));
    assert!(!is_wanted(false, Some(None), &wanted));
    assert!(is_wanted(false, Some(None), &list(&[""])));
    assert!(is_wanted(false, None, &vec![]));
    assert!(!is_wanted(true, None, &vec![]));
}

#[test]
fn several_expressions_are_compiled() {
    let compiled = compile_all(&list(&["a+", "^b"])).ok().unwrap();
    assert_eq!(compiled[0].as_str(), "a+");
    assert_eq!(compiled[1].as_str(), "^b");
    assert!(any_match(&compiled, "xxa"));
    assert!(!any_match(&compiled, "xxb"));
    assert!(!any_match(&vec![], "x"));
    let error = compile_all(&list(&["a", "(", "["])).err().unwrap();
    assert_eq!(error.to_string(), regex::Regex::new("(").unwrap_err().to_string());
}

#[test]
fn files_are_chosen_by_their_path() {
    let files = || vec![file("src/a.c", 1), file("test/b.c", 2), file("src/test/c.c", 4)];
    let filter = FileFilter::compile(&list(&["test"]), &[]).ok().unwrap();
    assert_eq!(paths(&filter.retain(files())), vec!["src/a.c"]);
    let filter = FileFilter::compile(&[], &list(&["^src", "b"])).ok().unwrap();
    assert_eq!(paths(&filter.retain(files())), vec!["src/a.c", "test/b.c", "src/test/c.c"]);
    let filter = FileFilter::compile(&[], &list(&["^src"])).ok().unwrap();
    assert_eq!(paths(&filter.retain(files())), vec!["src/a.c", "src/test/c.c"]);
    let filter = FileFilter::compile(&list(&["test"]), &list(&["^src"])).ok().unwrap();
    assert!(filter.admits("src/a.c"));
    assert!(!filter.admits("src/test/c.c"));
    assert!(!filter.admits("lib/a.c"));
    let filter = FileFilter::compile(&[], &[]).ok().unwrap();
    assert_eq!(filter.retain(files()).len(), 3);
}

#[test]
fn the_size_counts_files_that_are_left_out() {
    let filter = FileFilter::compile(&list(&["b"]), &[]).ok().unwrap();
    let (kept, total) = filter.collect_files(vec![file("a", 10), file("b", 32)]);
    assert_eq!(paths(&kept), vec!["a"]);
    assert_eq!(kept[0].path, 7);
    assert_eq!(total, 42);
    assert_eq!(total_size::<u32>(&vec![]), 0);
}

#[test]
fn a_faulty_filter_is_refused() {
    let error = FileFilter::compile(&list(&["("]), &list(&["["])).err().unwrap();
    assert_eq!(error.to_string(), regex::Regex::new("(").unwrap_err().to_string());
    let error = FileFilter::compile(&[], &list(&["["])).err().unwrap();
    assert_eq!(error.to_string(), regex::Regex::new("[").unwrap_err().to_string());
}

#[test]
fn sources_are_searched_for_identifiers() {
    let source = "int main() { memcpy(a, b, n); }";
    assert!(potential_match(source, &work(&[&["memcpy", "n"]])));
    assert!(!potential_match(source, &work(&[&["memcpy", "strlen"]])));
    assert!(potential_match(source, &work(&[&["strlen"], &["main"]])));
    assert!(potential_match(source, &work(&[&[]])));
    assert!(!potential_match(source, &work(&[])));
    assert!(potential_match("größe", &work(&[&["öß"]])));
    assert!(!potential_match("", &work(&[&["a"]])));
}

#[test]
fn files_without_the_identifiers_are_not_parsed() {
    let items = work(&[&["strlen"]]);
    let outcome = screen_text("int x;".to_string(), Some(&items), false, &grammars());
    assert!(outcome.ok().unwrap().is_none());
    let items = work(&[&["x"]]);
    let (tree, text) =
        screen_text("int x;".to_string(), Some(&items), false, &grammars()).ok().unwrap().unwrap();
    assert_eq!(text, "int x;");
    assert_eq!(tree.root_node().kind(), "translation_unit");
}

#[test]
fn files_are_read_as_far_as_they_are_text() {
    let none: Option<&[WorkItem<()>]> = None;
    let (tree, text) =
        maybe_parse(Some(b"int x\xff;".to_vec()), none, false, &grammars()).ok().unwrap().unwrap();
    assert_eq!(text, "int x\u{fffd};");
    assert_eq!(tree.root_node().end_byte(), text.len());
    let (_, text) =
        maybe_parse(Some("int ä;".as_bytes().to_vec()), none, false, &grammars()).ok().unwrap().unwrap();
    assert_eq!(text, "int ä;");
    assert!(maybe_parse(None, none, false, &grammars()).ok().unwrap().is_none());
}

#[test]
fn further_expressions_narrow_or_widen() {
    let few = FileFilter::compile(&list(&["a"]), &list(&["b"])).ok().unwrap();
    let more_excluded = FileFilter::compile(&list(&["a", "c"]), &list(&["b"])).ok().unwrap();
    let more_included = FileFilter::compile(&list(&["a"]), &list(&["b", "c"])).ok().unwrap();
    for path in ["a", "b", "c", "ab", "bc", "d"] {
        assert!(!more_excluded.admits(path) || few.admits(path));
        assert!(!few.admits(path) || more_included.admits(path));
    }
    let files = || ["a", "b", "bc", "ab", "cb", "b2"].map(|p| file(p, 3)).into_iter().collect();
    let (kept, total) = few.collect_files(files());
    let (fewer, same_total) = more_excluded.collect_files(files());
    let without_c: Vec<&str> = paths(&kept).into_iter().filter(|p| !p.contains('c')).collect();
    assert_eq!(paths(&fewer), without_c);
    assert_eq!(paths(&fewer), vec!["b", "b2"]);
    assert_eq!((total, same_total), (18, 18));
    assert!(few.admits("bc") && !more_excluded.admits("bc"));
    assert!(!few.admits("c") && more_included.admits("c"));
}
