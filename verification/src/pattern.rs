//! Search patterns: small repairs to what the user typed, and the checks it has to pass.
use tree_sitter::{Language, LanguageError, Tree};
use vstd::prelude::*;
use vstd::utf8::{encode_utf8, is_ascii_chars, is_char_boundary};

use crate::paint::{
    joined, piece_views, plain_parts, render, rendering, two_pieces_say, Ink, Piece,
};
use crate::syntax::{
    language_check, may_read, parse, parsed_syntax, read_node, tree_syntax, Grammars, Syntax,
    SyntaxNode,
};
use crate::text::{
    byte_range, byte_ranges_join, byte_slice, byte_slice_from, ends_with_char, lemma_encode_concat,
    on_boundary, same_text,
};

verus! {

/// The kinds of node that a query can be rooted in.
pub open spec fn is_root_kind(kind: Seq<char>) -> bool {
    ||| kind == "compound_statement"@
    ||| kind == "function_definition"@
    ||| kind == "struct_specifier"@
    ||| kind == "enum_specifier"@
    ||| kind == "union_specifier"@
    ||| kind == "class_specifier"@
}

/// Whether a query can be rooted in a node of this kind.
pub fn supports_root(kind: &str) -> (yes: bool)
    ensures
        yes == is_root_kind(kind@),
{
    same_text(kind, "compound_statement") || same_text(kind, "function_definition") || same_text(
        kind,
        "struct_specifier",
    ) || same_text(kind, "enum_specifier") || same_text(kind, "union_specifier") || same_text(
        kind,
        "class_specifier",
    )
}

/// The contents of a list of nodes.
pub open spec fn node_views(nodes: Seq<SyntaxNode>) -> Seq<Syntax> {
    Seq::new(nodes.len(), |i: int| nodes[i]@)
}

/// The first node, walking down into the first faulty sibling at each level, that is itself an
/// error or was put in by the parser.
pub open spec fn first_fault(siblings: Seq<Syntax>) -> Option<Syntax>
    decreases siblings,
{
    if siblings.len() == 0 {
        None
    } else if !siblings[0].has_error {
        first_fault(siblings.skip(1))
    } else if siblings[0].is_error || siblings[0].is_missing {
        Some(siblings[0])
    } else {
        proof {
            assert(decreases_to!(siblings => siblings[0]));
            assert(decreases_to!(siblings[0] => siblings[0].children));
        }
        first_fault(siblings[0].children)
    }
}

/// Finds the fault to show among siblings.
pub fn find_fault(siblings: &Vec<SyntaxNode>) -> (fault: Option<&SyntaxNode>)
    ensures
        fault is Some <==> first_fault(node_views(siblings@)) is Some,
        fault is Some ==> fault->Some_0@ == first_fault(node_views(siblings@))->Some_0,
    decreases siblings,
{
    let ghost all = node_views(siblings@);
    assert(all.skip(0) == all);
    let mut i: usize = 0;
    while i < siblings.len()
        invariant
            i <= siblings@.len(),
            all == node_views(siblings@),
            first_fault(all) == first_fault(all.skip(i as int)),
        decreases siblings@.len() - i,
    {
        let node = &siblings[i];
        assert(all.skip(i as int)[0] == node@);
        if node.has_error {
            if node.is_error || node.is_missing {
                return Some(node);
            }
            assert(node@.children == node_views(node.children@));
            assert(decreases_to!(siblings => siblings@));
            assert(decreases_to!(siblings@ => siblings@[i as int]));
            assert(decreases_to!(siblings@[i as int] => siblings@[i as int].children));
            return find_fault(&node.children);
        }
        assert(all.skip(i as int).skip(1) == all.skip(i + 1));
        i = i + 1;
    }
    None
}

/// Finds the fault to show in a tree.
pub fn find_fault_from(root: &SyntaxNode) -> (fault: Option<&SyntaxNode>)
    ensures
        fault is Some <==> first_fault(seq![root@]) is Some,
        fault is Some ==> fault->Some_0@ == first_fault(seq![root@])->Some_0,
{
    proof {
        reveal_with_fuel(first_fault, 2);
        assert(seq![root@].skip(1) == Seq::<Syntax>::empty());
    }
    if !root.has_error {
        None
    } else if root.is_error || root.is_missing {
        Some(root)
    } else {
        assert(root@.children == node_views(root.children@));
        find_fault(&root.children)
    }
}

/// Both ends of the node lie between characters of `query`.
pub open spec fn placed_in(node: Syntax, query: Seq<char>) -> bool {
    &&& node.start_byte <= node.end_byte
    &&& on_boundary(query, node.start_byte as int)
    &&& on_boundary(query, node.end_byte as int)
}

/// What is said of a query that does not parse: the query, with the fault picked out in it.
pub open spec fn fault_pieces(fault: Option<Syntax>, query: Seq<char>) -> Seq<(Ink, Seq<char>)> {
    let head = seq![(Ink::RedBold, "Error! Query parsing failed:"@)];
    match fault {
        None => head,
        Some(node) => {
            let from = node.start_byte as int;
            let to = node.end_byte as int;
            let missing = if node.is_missing {
                seq![(Ink::Red, " [MISSING "@), (Ink::RedBold, node.kind), (Ink::Red, " ] "@)]
            } else {
                seq![]
            };
            head + seq![(Ink::Plain, " "@), (Ink::Italic, byte_range(query, 0, from))] + missing
                + seq![
                (Ink::RedBoldItalic, byte_range(query, from, to)),
                (Ink::Italic, byte_range(query, to, encode_utf8(query).len() as int)),
            ]
        },
    }
}

/// Tells where a query does not parse.
pub fn describe_fault(fault: Option<&SyntaxNode>, query: &str) -> (pieces: Vec<Piece>)
    requires
        fault is Some ==> placed_in(fault->Some_0@, query@),
    ensures
        fault is None ==> piece_views(pieces@) == fault_pieces(None, query@),
        fault is Some ==> piece_views(pieces@) == fault_pieces(Some(fault->Some_0@), query@),
{
    let mut pieces: Vec<Piece> = Vec::new();
    pieces.push(Piece::new(Ink::RedBold, "Error! Query parsing failed:"));
    if let Some(node) = fault {
        proof {
            vstd::utf8::encode_utf8_valid_utf8(query@);
            vstd::utf8::is_char_boundary_start_end_of_seq(encode_utf8(query@));
        }
        pieces.push(Piece::new(Ink::Plain, " "));
        pieces.push(Piece::new(Ink::Italic, byte_slice(query, 0, node.start_byte)));
        if node.is_missing {
            pieces.push(Piece::new(Ink::Red, " [MISSING "));
            pieces.push(Piece::new(Ink::RedBold, node.kind.as_str()));
            pieces.push(Piece::new(Ink::Red, " ] "));
        }
        pieces.push(
            Piece::new(Ink::RedBoldItalic, byte_slice(query, node.start_byte, node.end_byte)),
        );
        pieces.push(Piece::new(Ink::Italic, byte_slice_from(query, node.end_byte)));
        assert(piece_views(pieces@) =~= fault_pieces(Some(node@), query@));
    } else {
        assert(piece_views(pieces@) =~= fault_pieces(None, query@));
    }
    pieces
}

/// What is said of a query that `problem` is true of.
pub open spec fn problem_pieces(query: Seq<char>, problem: Seq<char>) -> Seq<(Ink, Seq<char>)> {
    seq![(Ink::Red, "Error: "@), (Ink::Plain, "'"@ + query + problem)]
}

fn describe_problem(query: &str, problem: &str) -> (pieces: Vec<Piece>)
    ensures
        piece_views(pieces@) == problem_pieces(query@, problem@),
{
    let mut text = "'".to_owned();
    text.append(query);
    text.append(problem);
    let mut pieces: Vec<Piece> = Vec::new();
    pieces.push(Piece::new(Ink::Red, "Error: "));
    pieces.push(Piece { ink: Ink::Plain, text });
    assert(piece_views(pieces@) =~= problem_pieces(query@, problem@));
    pieces
}

/// The node that a query is rooted in: the first child of the tree's root.
pub open spec fn query_root(root: Syntax) -> Syntax {
    if root.children.len() > 0 {
        root.children[0]
    } else {
        root
    }
}

/// The root of a query, or what is wrong with it.
pub open spec fn query_verdict(root: Syntax, query: Seq<char>, force: bool) -> Result<
    Syntax,
    Seq<(Ink, Seq<char>)>,
> {
    if root.has_error && !force {
        Err(fault_pieces(first_fault(seq![root]), query))
    } else if root.named_child_count > 1 {
        Err(problem_pieces(query, "' query contains multiple root nodes"@))
    } else if !is_root_kind(query_root(root).kind) {
        Err(problem_pieces(query, "' is not a supported query root node."@))
    } else {
        Ok(query_root(root))
    }
}

/// If a fault is to be shown, its place lies between characters of the query.
pub open spec fn fault_placed(root: Syntax, query: Seq<char>, force: bool) -> bool {
    root.has_error && !force && first_fault(seq![root]) is Some ==> placed_in(
        first_fault(seq![root])->Some_0,
        query,
    )
}

/// Whether the place of a fault that is to be shown lies between characters of the query.
pub fn can_show_fault(root: &SyntaxNode, query: &str, force: bool) -> (yes: bool)
    ensures
        yes == fault_placed(root@, query@, force),
{
    if !root.has_error || force {
        return true;
    }
    match find_fault_from(root) {
        None => true,
        Some(node) => node.start_byte <= node.end_byte && query.is_char_boundary(node.start_byte)
            && query.is_char_boundary(node.end_byte),
    }
}

/// Checks a query: it has to parse, unless `force` is set, and to consist of one node of a
/// supported kind.
pub fn judge_query<'a>(root: &'a SyntaxNode, query: &str, force: bool) -> (verdict: Result<
    &'a SyntaxNode,
    Vec<Piece>,
>)
    requires
        fault_placed(root@, query@, force),
    ensures
        match query_verdict(root@, query@, force) {
            Ok(node) => verdict is Ok && verdict->Ok_0@ == node,
            Err(pieces) => verdict is Err && piece_views(verdict->Err_0@) == pieces,
        },
{
    if root.has_error && !force {
        return Err(describe_fault(find_fault_from(root), query));
    }
    if root.named_child_count > 1 {
        return Err(describe_problem(query, "' query contains multiple root nodes"));
    }
    let node = if root.children.len() > 0 {
        assert(root@.children[0] == root.children@[0]@);
        &root.children[0]
    } else {
        root
    };
    if !supports_root(node.kind.as_str()) {
        return Err(describe_problem(query, "' is not a supported query root node."));
    }
    Ok(node)
}

/// Checks a query and gives the message for a query that fails.
pub fn validate_query<'a>(root: &'a SyntaxNode, query: &str, force: bool) -> (verdict: Result<
    &'a SyntaxNode,
    String,
>)
    requires
        fault_placed(root@, query@, force),
    ensures
        match query_verdict(root@, query@, force) {
            Ok(node) => verdict is Ok && verdict->Ok_0@ == node,
            Err(pieces) => verdict is Err && rendering(pieces, verdict->Err_0@),
        },
{
    match judge_query(root, query, force) {
        Ok(node) => Ok(node),
        Err(pieces) => Err(render(&pieces)),
    }
}

/// A text together with its syntax tree.
pub struct SearchPattern {
    /// The pattern after repairs.
    pub text: String,
    /// Its tree.
    pub tree: Tree,
    /// What the tree holds.
    pub root: SyntaxNode,
}

impl SearchPattern {
    /// `root` tells what the tree holds.
    pub open spec fn fits(self) -> bool {
        tree_syntax(self.tree) == self.root@
    }
}

/// Why there is no search for a pattern.
pub enum PatternError {
    /// The grammar cannot be used.
    Grammar(LanguageError),
    /// The pattern fails the checks; the message tells why.
    Invalid(String),
    /// The pattern does not parse, and the fault begins or ends inside a character.
    Misplaced,
}

/// The pattern with a semicolon behind it, when it does not parse and has none.
pub open spec fn semicolon_candidate(root: Syntax, pattern: Seq<char>) -> Option<Seq<char>> {
    if root.has_error && !(pattern.len() > 0 && pattern.last() == ';') {
        Some(pattern + ";"@)
    } else {
        None
    }
}

/// The pattern in braces, when it parses but begins with a node that no query is rooted in.
pub open spec fn braces_candidate(root: Syntax, pattern: Seq<char>) -> Option<Seq<char>> {
    if !root.has_error && root.children.len() > 0 && !is_root_kind(root.children[0].kind) {
        Some("{"@ + pattern + "}"@)
    } else {
        None
    }
}

/// The candidate where there is one that parses, else the pattern as it is. `reading` tells what
/// the parser finds for each text.
pub open spec fn repaired(
    reading: spec_fn(Seq<char>) -> Syntax,
    pattern: Seq<char>,
    candidate: Option<Seq<char>>,
) -> Seq<char> {
    match candidate {
        Some(text) => if reading(text).has_error {
            pattern
        } else {
            text
        },
        None => pattern,
    }
}

/// `pattern` with a missing semicolon supplied.
pub open spec fn with_semicolon(
    reading: spec_fn(Seq<char>) -> Syntax,
    pattern: Seq<char>,
) -> Seq<char> {
    repaired(reading, pattern, semicolon_candidate(reading(pattern), pattern))
}

/// `pattern` with missing braces supplied.
pub open spec fn with_braces(
    reading: spec_fn(Seq<char>) -> Syntax,
    pattern: Seq<char>,
) -> Seq<char> {
    repaired(reading, pattern, braces_candidate(reading(pattern), pattern))
}

/// `pattern` after both repairs.
pub open spec fn normalized(
    reading: spec_fn(Seq<char>) -> Syntax,
    pattern: Seq<char>,
) -> Seq<char> {
    with_braces(reading, with_semicolon(reading, pattern))
}

/// The candidate, where there is one, is read as the grammar may read it.
pub open spec fn reads_candidate(
    language: Language,
    reading: spec_fn(Seq<char>) -> Syntax,
    candidate: Option<Seq<char>>,
) -> bool {
    match candidate {
        Some(text) => may_read(language, text, reading(text)),
        None => true,
    }
}

/// `reading` reads the pattern, and each repair that is tried, as the grammar may read it.
pub open spec fn reads(
    language: Language,
    reading: spec_fn(Seq<char>) -> Syntax,
    pattern: Seq<char>,
) -> bool {
    let ended = with_semicolon(reading, pattern);
    &&& may_read(language, pattern, reading(pattern))
    &&& reads_candidate(language, reading, semicolon_candidate(reading(pattern), pattern))
    &&& reads_candidate(language, reading, braces_candidate(reading(ended), ended))
}

/// Proposes a semicolon for a pattern that does not parse.
pub fn propose_semicolon(root: &SyntaxNode, pattern: &str) -> (candidate: Option<String>)
    ensures
        match semicolon_candidate(root@, pattern@) {
            Some(text) => candidate is Some && candidate->Some_0@ == text,
            None => candidate is None,
        },
{
    if root.has_error && !ends_with_char(pattern, ';') {
        let mut text = pattern.to_owned();
        text.append(";");
        Some(text)
    } else {
        None
    }
}

/// Proposes braces for a pattern that parses.
pub fn propose_braces(root: &SyntaxNode, pattern: &str) -> (candidate: Option<String>)
    ensures
        match braces_candidate(root@, pattern@) {
            Some(text) => candidate is Some && candidate->Some_0@ == text,
            None => candidate is None,
        },
{
    if !root.has_error && root.children.len() > 0 {
        assert(root@.children[0] == root.children@[0]@);
        if !supports_root(root.children[0].kind.as_str()) {
            let mut text = "{".to_owned();
            text.append(pattern);
            text.append("}");
            return Some(text);
        }
    }
    None
}

/// A text and its syntax.
fn parse_pattern(text: String, is_cpp: bool, grammars: &Grammars) -> (parsed: Result<
    SearchPattern,
    LanguageError,
>)
    requires
        encode_utf8(text@).len() <= u32::MAX,
    ensures
        match language_check(grammars.choice(is_cpp)) {
            Ok(_) => {
                &&& parsed is Ok
                &&& parsed->Ok_0.text@ == text@
                &&& parsed->Ok_0.fits()
                &&& may_read(grammars.choice(is_cpp), text@, parsed->Ok_0.root@)
            },
            Err(e) => parsed == Err::<SearchPattern, LanguageError>(e),
        },
{
    match parse(text.as_str(), is_cpp, grammars) {
        Ok(tree) => {
            let root = read_node(tree.root_node());
            Ok(SearchPattern { text, tree, root })
        },
        Err(e) => Err(e),
    }
}

/// Goes over to a candidate that parses. Also tells what was found for the candidate.
fn try_candidate(
    current: SearchPattern,
    candidate: Option<String>,
    is_cpp: bool,
    grammars: &Grammars,
) -> (tried: (SearchPattern, Ghost<Syntax>))
    requires
        language_check(grammars.choice(is_cpp)) is Ok,
        current.fits(),
        candidate is Some ==> encode_utf8(candidate->Some_0@).len() <= u32::MAX,
    ensures
        tried.0.fits(),
        candidate is Some ==> may_read(
            grammars.choice(is_cpp),
            candidate->Some_0@,
            tried.1@,
        ),
        if candidate is Some && !tried.1@.has_error {
            tried.0.text@ == candidate->Some_0@ && tried.0.root@ == tried.1@
        } else {
            tried.0 == current
        },
{
    match candidate {
        Some(text) => {
            match parse_pattern(text, is_cpp, grammars) {
                Ok(fixed) => {
                    let ghost seen = fixed.root@;
                    if !fixed.root.has_error {
                        (fixed, Ghost(seen))
                    } else {
                        (current, Ghost(seen))
                    }
                },
                Err(_) => (current, Ghost(arbitrary())),
            }
        },
        None => (current, Ghost(arbitrary())),
    }
}

/// What comes of a pattern for which the parser finds what `reading` tells.
pub open spec fn pattern_outcome(
    reading: spec_fn(Seq<char>) -> Syntax,
    pattern: Seq<char>,
    force: bool,
    outcome: Result<SearchPattern, PatternError>,
) -> bool {
    let text = normalized(reading, pattern);
    let root = reading(text);
    if !fault_placed(root, text, force) {
        outcome matches Err(PatternError::Misplaced)
    } else {
        match query_verdict(root, text, force) {
            Ok(_) => {
                &&& outcome matches Ok(found)
                &&& found.text@ == text
                &&& found.root@ == root
                &&& found.fits()
            },
            Err(pieces) => outcome matches Err(PatternError::Invalid(message)) && rendering(
                pieces,
                message@,
            ),
        }
    }
}

/// What comes of a pattern, whatever the parser finds.
pub open spec fn pattern_answered(
    language: Language,
    pattern: Seq<char>,
    force: bool,
    outcome: Result<SearchPattern, PatternError>,
) -> bool {
    match language_check(language) {
        Err(error) => outcome == Err::<SearchPattern, PatternError>(PatternError::Grammar(error)),
        Ok(_) => exists|reading: spec_fn(Seq<char>) -> Syntax| #[trigger]
            reads(language, reading, pattern) && pattern_outcome(reading, pattern, force, outcome),
    }
}

/// The pattern may pass the checks.
pub open spec fn pattern_accepted(language: Language, pattern: Seq<char>, force: bool) -> bool {
    exists|found: SearchPattern| #[trigger]
        pattern_answered(language, pattern, force, Ok(found))
}

/// Repairs a pattern and checks it.
pub fn parse_search_pattern(
    pattern: &str,
    is_cpp: bool,
    force_query: bool,
    grammars: &Grammars,
) -> (outcome: Result<SearchPattern, PatternError>)
    requires
        encode_utf8(pattern@).len() <= u32::MAX - 3,
    ensures
        pattern_answered(grammars.choice(is_cpp), pattern@, force_query, outcome),
{
    proof {
        reveal_strlit(";");
        reveal_strlit("{");
        reveal_strlit("}");
        lemma_encode_concat(pattern@, ";"@);
        lemma_ascii_lengths();
    }
    let first = match parse_pattern(pattern.to_owned(), is_cpp, grammars) {
        Ok(parsed) => parsed,
        Err(e) => return Err(PatternError::Grammar(e)),
    };
    let ghost first_root = first.root@;
    // A query such as 'memcpy(a,b,size)' should work.
    let candidate = propose_semicolon(&first.root, first.text.as_str());
    let (second, Ghost(ended_root)) = try_candidate(first, candidate, is_cpp, grammars);
    let ghost ended = second.text@;
    // So should 'memcpy(_);', which stands for '{memcpy(_);}'.
    let candidate = propose_braces(&second.root, second.text.as_str());
    proof {
        lemma_encode_concat("{"@, ended);
        lemma_encode_concat("{"@ + ended, "}"@);
    }
    let (found, Ghost(braced_root)) = try_candidate(second, candidate, is_cpp, grammars);
    let ghost reading = |text: Seq<char>|
        if text == pattern@ {
            first_root
        } else if text == pattern@ + ";"@ {
            ended_root
        } else {
            braced_root
        };
    proof {
        assert(pattern@ != pattern@ + ";"@);
        assert(("{"@ + ended + "}"@).len() == ended.len() + 2);
        assert(ended == with_semicolon(reading, pattern@));
        assert(found.text@ == normalized(reading, pattern@));
        assert(found.root@ == reading(found.text@));
        assert(reads(grammars.choice(is_cpp), reading, pattern@));
    }
    if !can_show_fault(&found.root, found.text.as_str(), force_query) {
        assert(pattern_outcome(reading, pattern@, force_query, Err(PatternError::Misplaced)));
        return Err(PatternError::Misplaced);
    }
    let rejection = match validate_query(&found.root, found.text.as_str(), force_query) {
        Ok(_) => None,
        Err(message) => Some(message),
    };
    let outcome = match rejection {
        None => Ok(found),
        Some(message) => Err(PatternError::Invalid(message)),
    };
    assert(pattern_outcome(reading, pattern@, force_query, outcome));
    outcome
}

proof fn lemma_ascii_lengths()
    ensures
        encode_utf8(";"@).len() == 1,
        encode_utf8("{"@).len() == 1,
        encode_utf8("}"@).len() == 1,
{
    reveal_strlit(";");
    reveal_strlit("{");
    reveal_strlit("}");
    vstd::utf8::is_ascii_chars_encode_utf8(";"@);
    vstd::utf8::is_ascii_chars_encode_utf8("{"@);
    vstd::utf8::is_ascii_chars_encode_utf8("}"@);
}

/// A pattern that parses and begins with a supported node is left as it is.
pub proof fn sound_patterns_stay(reading: spec_fn(Seq<char>) -> Syntax, pattern: Seq<char>)
    requires
        !reading(pattern).has_error,
        reading(pattern).children.len() > 0 ==> is_root_kind(reading(pattern).children[0].kind),
    ensures
        normalized(reading, pattern) == pattern,
{
}

/// The repairs add a semicolon behind the pattern and braces around it, and change nothing else.
pub proof fn repairs_only_wrap(reading: spec_fn(Seq<char>) -> Syntax, pattern: Seq<char>)
    ensures
        ({
            let text = normalized(reading, pattern);
            ||| text == pattern
            ||| text == pattern + ";"@
            ||| text == "{"@ + pattern + "}"@
            ||| text == "{"@ + (pattern + ";"@) + "}"@
        }),
{
}

/// A pattern that parses still does after the repairs. One that does not parse is left as it is,
/// unless it parses with a semicolon behind it.
pub proof fn repairs_never_break(reading: spec_fn(Seq<char>) -> Syntax, pattern: Seq<char>)
    ensures
        ({
            let text = normalized(reading, pattern);
            &&& !reading(pattern).has_error ==> !reading(text).has_error
            &&& reading(text).has_error ==> text == pattern
            &&& reading(pattern).has_error && !reading(pattern + ";"@).has_error && !(pattern.len()
                > 0 && pattern.last() == ';') ==> !reading(text).has_error
        }),
{
}

/// A pattern that was accepted is not repaired any further.
pub proof fn accepted_patterns_are_settled(
    reading: spec_fn(Seq<char>) -> Syntax,
    pattern: Seq<char>,
    force: bool,
)
    requires
        query_verdict(
            reading(normalized(reading, pattern)),
            normalized(reading, pattern),
            force,
        ) is Ok,
    ensures
        normalized(reading, normalized(reading, pattern)) == normalized(reading, pattern),
{
}

/// The semicolon behind a pattern may be left out: a pattern that parses with it alone comes to
/// the same without it.
pub proof fn semicolon_may_be_left_out(
    reading: spec_fn(Seq<char>) -> Syntax,
    pattern: Seq<char>,
    force: bool,
    outcome: Result<SearchPattern, PatternError>,
)
    requires
        reading(pattern).has_error,
        !(pattern.len() > 0 && pattern.last() == ';'),
        !reading(pattern + ";"@).has_error,
    ensures
        normalized(reading, pattern) == normalized(reading, pattern + ";"@),
        pattern_outcome(reading, pattern, force, outcome) == pattern_outcome(
            reading,
            pattern + ";"@,
            force,
            outcome,
        ),
{
}

/// The braces around a pattern may be left out: a pattern that begins with a node that no query is
/// rooted in, and that parses in braces as one that a query is rooted in, comes to the same without
/// them.
pub proof fn braces_may_be_left_out(
    reading: spec_fn(Seq<char>) -> Syntax,
    pattern: Seq<char>,
    force: bool,
    outcome: Result<SearchPattern, PatternError>,
)
    requires
        !reading(pattern).has_error,
        reading(pattern).children.len() > 0,
        !is_root_kind(reading(pattern).children[0].kind),
        !reading("{"@ + pattern + "}"@).has_error,
        reading("{"@ + pattern + "}"@).children.len() > 0 ==> is_root_kind(
            reading("{"@ + pattern + "}"@).children[0].kind,
        ),
    ensures
        normalized(reading, pattern) == normalized(reading, "{"@ + pattern + "}"@),
        pattern_outcome(reading, pattern, force, outcome) == pattern_outcome(
            reading,
            "{"@ + pattern + "}"@,
            force,
            outcome,
        ),
{
}

proof fn lemma_ascii_reading(
    language: Language,
    first: spec_fn(Seq<char>) -> Syntax,
    second: spec_fn(Seq<char>) -> Syntax,
    text: Seq<char>,
)
    requires
        is_ascii_chars(text),
        may_read(language, text, first(text)),
        may_read(language, text, second(text)),
    ensures
        first(text) == second(text),
{
    assert(first(text) == parsed_syntax(language, text, 0));
}

/// Two outcomes say the same: the same pattern with the same tree, or the same refusal. A message
/// may be coloured in one and plain in the other.
pub open spec fn alike(
    first: Result<SearchPattern, PatternError>,
    second: Result<SearchPattern, PatternError>,
) -> bool {
    match (first, second) {
        (Ok(a), Ok(b)) => a.text@ == b.text@ && a.root@ == b.root@,
        (Err(PatternError::Grammar(a)), Err(PatternError::Grammar(b))) => a == b,
        (Err(PatternError::Invalid(a)), Err(PatternError::Invalid(b))) => same_message(a@, b@),
        (Err(PatternError::Misplaced), Err(PatternError::Misplaced)) => true,
        _ => false,
    }
}

/// Two texts show the same message.
pub open spec fn same_message(a: Seq<char>, b: Seq<char>) -> bool {
    exists|pieces: Seq<(Ink, Seq<char>)>| #[trigger] rendering(pieces, a) && rendering(pieces, b)
}

/// The outcomes for two patterns say the same if the repairs lead to the same text and it is read
/// alike.
proof fn lemma_alike(
    first: spec_fn(Seq<char>) -> Syntax,
    second: spec_fn(Seq<char>) -> Syntax,
    patterns: (Seq<char>, Seq<char>),
    force: bool,
    outcomes: (Result<SearchPattern, PatternError>, Result<SearchPattern, PatternError>),
)
    requires
        normalized(first, patterns.0) == normalized(second, patterns.1),
        first(normalized(first, patterns.0)) == second(normalized(second, patterns.1)),
        pattern_outcome(first, patterns.0, force, outcomes.0),
        pattern_outcome(second, patterns.1, force, outcomes.1),
    ensures
        alike(outcomes.0, outcomes.1),
{
    let text = normalized(first, patterns.0);
    let root = first(text);
    if fault_placed(root, text, force) && query_verdict(root, text, force) is Err {
        let pieces = query_verdict(root, text, force)->Err_0;
        let a = outcomes.0->Err_0->Invalid_0@;
        let b = outcomes.1->Err_0->Invalid_0@;
        assert(rendering(pieces, a) && rendering(pieces, b));
        assert(same_message(a, b));
    }
}

proof fn lemma_ascii_wraps(pattern: Seq<char>)
    requires
        is_ascii_chars(pattern),
    ensures
        is_ascii_chars(pattern + ";"@),
        is_ascii_chars("{"@ + pattern + "}"@),
{
    reveal_strlit(";");
    reveal_strlit("{");
    reveal_strlit("}");
}

/// What comes of an ASCII pattern depends on the grammar and the pattern alone.
pub proof fn ascii_patterns_are_answered_alike(
    language: Language,
    pattern: Seq<char>,
    force: bool,
    first: Result<SearchPattern, PatternError>,
    second: Result<SearchPattern, PatternError>,
)
    requires
        is_ascii_chars(pattern),
        pattern_answered(language, pattern, force, first),
        pattern_answered(language, pattern, force, second),
    ensures
        alike(first, second),
{
    if language_check(language) is Ok {
        let a = choose|a: spec_fn(Seq<char>) -> Syntax| #[trigger]
            reads(language, a, pattern) && pattern_outcome(a, pattern, force, first);
        let b = choose|b: spec_fn(Seq<char>) -> Syntax| #[trigger]
            reads(language, b, pattern) && pattern_outcome(b, pattern, force, second);
        let ended = pattern + ";"@;
        lemma_ascii_wraps(pattern);
        lemma_ascii_wraps(ended);
        lemma_ascii_reading(language, a, b, pattern);
        if semicolon_candidate(a(pattern), pattern) is Some {
            lemma_ascii_reading(language, a, b, ended);
        }
        let text = with_semicolon(a, pattern);
        assert(text == with_semicolon(b, pattern));
        assert(a(text) == b(text));
        if braces_candidate(a(text), text) is Some {
            lemma_ascii_reading(language, a, b, "{"@ + text + "}"@);
        }
        lemma_alike(a, b, (pattern, pattern), force, (first, second));
    }
}

/// The semicolon behind an ASCII pattern may be left out: if the pattern parses with it alone, a
/// call without it is answered like one with it.
pub proof fn calls_without_semicolon_are_answered_alike(
    language: Language,
    pattern: Seq<char>,
    force: bool,
    without: Result<SearchPattern, PatternError>,
    with: Result<SearchPattern, PatternError>,
)
    requires
        is_ascii_chars(pattern),
        parsed_syntax(language, pattern, 0).has_error,
        !(pattern.len() > 0 && pattern.last() == ';'),
        !parsed_syntax(language, pattern + ";"@, 0).has_error,
        pattern_answered(language, pattern, force, without),
        pattern_answered(language, pattern + ";"@, force, with),
    ensures
        alike(without, with),
{
    if language_check(language) is Ok {
        let ended = pattern + ";"@;
        let a = choose|a: spec_fn(Seq<char>) -> Syntax| #[trigger]
            reads(language, a, pattern) && pattern_outcome(a, pattern, force, without);
        let b = choose|b: spec_fn(Seq<char>) -> Syntax| #[trigger]
            reads(language, b, ended) && pattern_outcome(b, ended, force, with);
        lemma_ascii_wraps(pattern);
        lemma_ascii_wraps(ended);
        assert(a(pattern) == parsed_syntax(language, pattern, 0));
        lemma_ascii_reading(language, a, b, ended);
        assert(a(ended) == parsed_syntax(language, ended, 0));
        assert(with_semicolon(a, pattern) == ended);
        assert(with_semicolon(b, ended) == ended);
        if braces_candidate(a(ended), ended) is Some {
            lemma_ascii_reading(language, a, b, "{"@ + ended + "}"@);
        }
        lemma_alike(a, b, (pattern, ended), force, (without, with));
    }
}

/// The braces around an ASCII pattern may be left out: if the pattern parses, begins with a node
/// that no query is rooted in, and parses in braces as one that a query is rooted in, a call
/// without them is answered like one with them.
pub proof fn calls_without_braces_are_answered_alike(
    language: Language,
    pattern: Seq<char>,
    force: bool,
    without: Result<SearchPattern, PatternError>,
    with: Result<SearchPattern, PatternError>,
)
    requires
        is_ascii_chars(pattern),
        !parsed_syntax(language, pattern, 0).has_error,
        parsed_syntax(language, pattern, 0).children.len() > 0,
        !is_root_kind(parsed_syntax(language, pattern, 0).children[0].kind),
        ({
            let braced = parsed_syntax(language, "{"@ + pattern + "}"@, 0);
            !braced.has_error && (braced.children.len() > 0 ==> is_root_kind(
                braced.children[0].kind,
            ))
        }),
        pattern_answered(language, pattern, force, without),
        pattern_answered(language, "{"@ + pattern + "}"@, force, with),
    ensures
        alike(without, with),
{
    if language_check(language) is Ok {
        let braced = "{"@ + pattern + "}"@;
        let a = choose|a: spec_fn(Seq<char>) -> Syntax| #[trigger]
            reads(language, a, pattern) && pattern_outcome(a, pattern, force, without);
        let b = choose|b: spec_fn(Seq<char>) -> Syntax| #[trigger]
            reads(language, b, braced) && pattern_outcome(b, braced, force, with);
        lemma_ascii_wraps(pattern);
        assert(a(pattern) == parsed_syntax(language, pattern, 0));
        assert(with_semicolon(a, pattern) == pattern);
        lemma_ascii_reading(language, a, b, braced);
        assert(b(braced) == parsed_syntax(language, braced, 0));
        lemma_alike(a, b, (pattern, braced), force, (without, with));
    }
}

/// An accepted query is rooted in the first node of its tree, whose kind is a supported one, has
/// no named node beside it, and parses unless it was forced.
pub proof fn accepted_queries_are_sound(root: Syntax, query: Seq<char>, force: bool)
    requires
        query_verdict(root, query, force) is Ok,
    ensures
        query_verdict(root, query, force)->Ok_0 == query_root(root),
        is_root_kind(query_root(root).kind),
        root.named_child_count <= 1,
        force || !root.has_error,
{
}

/// Forcing a query only lifts the rule that it has to parse.
pub proof fn forcing_only_ignores_errors(root: Syntax, query: Seq<char>)
    ensures
        !root.has_error ==> query_verdict(root, query, true) == query_verdict(root, query, false),
        query_verdict(root, query, false) is Ok ==> query_verdict(root, query, true)
            == query_verdict(root, query, false),
{
}

/// Every node that has an error is one itself, or has one below it.
pub open spec fn errors_have_a_place(node: Syntax) -> bool
    decreases node,
{
    &&& node.has_error ==> node.is_error || node.is_missing || exists|i: int|
        0 <= i < node.children.len() && (#[trigger] node.children[i]).has_error
    &&& forall|i: int|
        0 <= i < node.children.len() ==> errors_have_a_place(#[trigger] node.children[i])
}

proof fn lemma_fault_is_found(siblings: Seq<Syntax>)
    requires
        forall|i: int| 0 <= i < siblings.len() ==> errors_have_a_place(#[trigger] siblings[i]),
        exists|i: int| 0 <= i < siblings.len() && (#[trigger] siblings[i]).has_error,
    ensures
        first_fault(siblings) is Some,
        first_fault(siblings)->Some_0.has_error,
        first_fault(siblings)->Some_0.is_error || first_fault(siblings)->Some_0.is_missing,
    decreases siblings,
{
    let node = siblings[0];
    if !node.has_error {
        let k = choose|i: int| 0 <= i < siblings.len() && (#[trigger] siblings[i]).has_error;
        let rest = siblings.skip(1);
        assert(rest[k - 1].has_error);
        assert forall|i: int| 0 <= i < rest.len() implies errors_have_a_place(
            #[trigger] rest[i],
        ) by {
            assert(errors_have_a_place(siblings[i + 1]));
        }
        lemma_fault_is_found(rest);
    } else if !node.is_error && !node.is_missing {
        assert(errors_have_a_place(node));
        assert(decreases_to!(siblings => siblings[0]));
        assert(decreases_to!(siblings[0] => siblings[0].children));
        lemma_fault_is_found(node.children);
    }
}

/// In a tree in which every error has a place, a query that does not parse is told where.
pub proof fn faults_are_found(root: Syntax)
    requires
        root.has_error,
        errors_have_a_place(root),
    ensures
        first_fault(seq![root]) is Some,
        first_fault(seq![root])->Some_0.is_error || first_fault(seq![root])->Some_0.is_missing,
{
    assert(seq![root][0].has_error);
    lemma_fault_is_found(seq![root]);
}

/// The message about a fault that is no missing token quotes the whole query.
pub proof fn fault_message_quotes_query(node: Syntax, query: Seq<char>)
    requires
        placed_in(node, query),
        !node.is_missing,
    ensures
        joined(plain_parts(fault_pieces(Some(node), query)))
            == "Error! Query parsing failed: "@ + query,
{
    reveal_strlit("Error! Query parsing failed:");
    reveal_strlit("Error! Query parsing failed: ");
    reveal_strlit(" ");
    let from = node.start_byte as int;
    let to = node.end_byte as int;
    let end = encode_utf8(query).len() as int;
    byte_ranges_join(query, from, to);
    let head = "Error! Query parsing failed:"@;
    let parts = seq![
        head,
        " "@,
        byte_range(query, 0, from),
        byte_range(query, from, to),
        byte_range(query, to, end),
    ];
    assert(plain_parts(fault_pieces(Some(node), query)) =~= parts);
    reveal_with_fuel(joined, 6);
    assert(parts.drop_last() =~= seq![
        head,
        " "@,
        byte_range(query, 0, from),
        byte_range(query, from, to),
    ]);
    assert(parts.drop_last().drop_last() =~= seq![head, " "@, byte_range(query, 0, from)]);
    assert(parts.drop_last().drop_last().drop_last() =~= seq![head, " "@]);
    assert(parts.drop_last().drop_last().drop_last().drop_last() =~= seq![head]);
    assert(parts.drop_last().drop_last().drop_last().drop_last().drop_last() =~= seq![]);
    assert(joined(parts) =~= head + " "@ + (byte_range(query, 0, from) + byte_range(query, from, to)
        + byte_range(query, to, end)));
    assert(head + " "@ =~= "Error! Query parsing failed: "@);
}

/// The kinds of node that a query can be rooted in are these six.
pub proof fn root_kinds_are_these(kind: Seq<char>)
    ensures
        is_root_kind("compound_statement"@),
        is_root_kind("function_definition"@),
        is_root_kind("struct_specifier"@),
        is_root_kind("enum_specifier"@),
        is_root_kind("union_specifier"@),
        is_root_kind("class_specifier"@),
        is_root_kind(kind) ==> seq![
            "compound_statement"@,
            "function_definition"@,
            "struct_specifier"@,
            "enum_specifier"@,
            "union_specifier"@,
            "class_specifier"@,
        ].contains(kind),
{
    let kinds = seq![
        "compound_statement"@,
        "function_definition"@,
        "struct_specifier"@,
        "enum_specifier"@,
        "union_specifier"@,
        "class_specifier"@,
    ];
    if is_root_kind(kind) {
        assert(kinds[0] == kind || kinds[1] == kind || kinds[2] == kind || kinds[3] == kind
            || kinds[4] == kind || kinds[5] == kind);
    }
}

/// A query is accepted exactly if it parses or is forced, has at most one named node at the top,
/// and begins with a node of a supported kind. That node is its root.
pub proof fn sound_queries_are_accepted(root: Syntax, query: Seq<char>, force: bool)
    ensures
        ({
            let first = if root.children.len() > 0 {
                root.children[0]
            } else {
                root
            };
            if (force || !root.has_error) && root.named_child_count <= 1 && is_root_kind(
                first.kind,
            ) {
                query_verdict(root, query, force) == Ok::<Syntax, Seq<(Ink, Seq<char>)>>(first)
            } else {
                query_verdict(root, query, force) is Err
            }
        }),
{
}

/// What is said of a query that is refused though it parses or is forced: that it has several roots
/// or, if it has not, that its root is not supported. The query is quoted.
pub proof fn refused_queries_are_told_why(root: Syntax, query: Seq<char>, force: bool)
    requires
        force || !root.has_error,
    ensures
        root.named_child_count > 1 ==> query_verdict(root, query, force) is Err && joined(
            plain_parts(query_verdict(root, query, force)->Err_0),
        ) == "Error: "@ + ("'"@ + query + "' query contains multiple root nodes"@),
        root.named_child_count <= 1 && query_verdict(root, query, force) is Err ==> joined(
            plain_parts(query_verdict(root, query, force)->Err_0),
        ) == "Error: "@ + ("'"@ + query + "' is not a supported query root node."@),
        query_verdict(root, query, force) is Err ==> query_verdict(root, query, force)->Err_0[0]
            == (Ink::Red, "Error: "@),
{
    if query_verdict(root, query, force) is Err {
        let pieces = query_verdict(root, query, force)->Err_0;
        two_pieces_say(pieces[0], pieces[1]);
        assert(pieces =~= seq![pieces[0], pieces[1]]);
    }
}

/// A query that parses, or that is forced, is never refused for the place of a fault; one that
/// does not parse is, exactly if the first fault does not lie between characters of the query.
pub proof fn only_faults_can_be_misplaced(root: Syntax, query: Seq<char>, force: bool)
    ensures
        force || !root.has_error ==> fault_placed(root, query, force),
        first_fault(seq![root]) is None ==> fault_placed(root, query, force),
        !force && root.has_error && first_fault(seq![root]) is Some ==> fault_placed(
            root,
            query,
            force,
        ) == {
            let fault = first_fault(seq![root])->Some_0;
            &&& fault.start_byte <= fault.end_byte
            &&& is_char_boundary(encode_utf8(query), fault.start_byte as int)
            &&& is_char_boundary(encode_utf8(query), fault.end_byte as int)
        },
{
}

/// The repairs, case by case. A semicolon is added to a pattern that does not parse and has none,
/// if it then parses. Braces are added to what then parses and begins with a node that no query is
/// rooted in, if it still parses. Otherwise the pattern stays.
pub proof fn repairs_case_by_case(reading: spec_fn(Seq<char>) -> Syntax, pattern: Seq<char>)
    ensures
        ({
            let supplied = reading(pattern).has_error && !(pattern.len() > 0 && pattern.last()
                == ';') && !reading(pattern + ";"@).has_error;
            let ended = if supplied {
                pattern + ";"@
            } else {
                pattern
            };
            let braced = "{"@ + ended + "}"@;
            let wrapped = !reading(ended).has_error && reading(ended).children.len() > 0
                && !is_root_kind(reading(ended).children[0].kind) && !reading(braced).has_error;
            normalized(reading, pattern) == if wrapped {
                braced
            } else {
                ended
            }
        }),
{
}

/// A pattern is accepted exactly if, after the repairs, it parses or is forced, has at most one
/// named node at the top, and begins with a node of a supported kind. What comes back is the
/// repaired text and what was found for it.
pub proof fn sound_patterns_are_accepted(
    reading: spec_fn(Seq<char>) -> Syntax,
    pattern: Seq<char>,
    force: bool,
    outcome: Result<SearchPattern, PatternError>,
)
    requires
        pattern_outcome(reading, pattern, force, outcome),
    ensures
        ({
            let text = normalized(reading, pattern);
            let root = reading(text);
            let first = if root.children.len() > 0 {
                root.children[0]
            } else {
                root
            };
            &&& outcome is Ok <==> (force || !root.has_error) && root.named_child_count <= 1
                && is_root_kind(first.kind)
            &&& outcome is Ok ==> outcome->Ok_0.text@ == text && outcome->Ok_0.root@ == root
                && tree_syntax(outcome->Ok_0.tree) == root
            &&& outcome matches Err(PatternError::Misplaced) ==> root.has_error && !force
            &&& !(outcome matches Err(PatternError::Grammar(_)))
        }),
{
    let text = normalized(reading, pattern);
    sound_queries_are_accepted(reading(text), text, force);
    only_faults_can_be_misplaced(reading(text), text, force);
}

/// An ASCII pattern that parses, has one named node at the top, and begins with a node of a
/// supported kind is accepted as it is.
pub proof fn ascii_patterns_are_accepted(
    language: Language,
    pattern: Seq<char>,
    force: bool,
    outcome: Result<SearchPattern, PatternError>,
)
    requires
        is_ascii_chars(pattern),
        language_check(language) is Ok,
        pattern_answered(language, pattern, force, outcome),
        ({
            let root = parsed_syntax(language, pattern, 0);
            &&& !root.has_error
            &&& root.named_child_count <= 1
            &&& root.children.len() > 0
            &&& is_root_kind(root.children[0].kind)
        }),
    ensures
        outcome is Ok,
        outcome->Ok_0.text@ == pattern,
        outcome->Ok_0.root@ == parsed_syntax(language, pattern, 0),
{
    let reading = choose|reading: spec_fn(Seq<char>) -> Syntax| #[trigger]
        reads(language, reading, pattern) && pattern_outcome(reading, pattern, force, outcome);
    assert(reading(pattern) == parsed_syntax(language, pattern, 0));
    sound_patterns_stay(reading, pattern);
    sound_patterns_are_accepted(reading, pattern, force, outcome);
}

/// All nodes, each before those below it, in the order of the text.
pub open spec fn in_order(siblings: Seq<Syntax>) -> Seq<Syntax>
    decreases siblings,
{
    if siblings.len() == 0 {
        seq![]
    } else {
        proof {
            assert(decreases_to!(siblings => siblings[0]));
            assert(decreases_to!(siblings[0] => siblings[0].children));
        }
        seq![siblings[0]] + in_order(siblings[0].children) + in_order(siblings.skip(1))
    }
}

/// A node is marked as having an error exactly if it is one, or one of its children is so marked.
pub open spec fn rightly_marked(node: Syntax) -> bool
    decreases node,
{
    &&& node.has_error <==> node.is_error || node.is_missing || exists|i: int|
        0 <= i < node.children.len() && (#[trigger] node.children[i]).has_error
    &&& forall|i: int|
        0 <= i < node.children.len() ==> rightly_marked(#[trigger] node.children[i])
}

proof fn lemma_clean_nodes(siblings: Seq<Syntax>)
    requires
        forall|i: int| 0 <= i < siblings.len() ==> rightly_marked(#[trigger] siblings[i]),
        forall|i: int| 0 <= i < siblings.len() ==> !(#[trigger] siblings[i]).has_error,
    ensures
        forall|i: int|
            0 <= i < in_order(siblings).len() ==> !(#[trigger] in_order(siblings)[i]).is_error
                && !in_order(siblings)[i].is_missing,
    decreases siblings,
{
    if siblings.len() > 0 {
        let node = siblings[0];
        let rest = siblings.skip(1);
        assert(rightly_marked(node) && !node.has_error);
        assert forall|i: int| 0 <= i < node.children.len() implies rightly_marked(
            #[trigger] node.children[i],
        ) && !node.children[i].has_error by {}
        assert forall|i: int| 0 <= i < rest.len() implies rightly_marked(#[trigger] rest[i])
            && !rest[i].has_error by {
            assert(rightly_marked(siblings[i + 1]) && !siblings[i + 1].has_error);
        }
        assert(decreases_to!(siblings => siblings[0]));
        assert(decreases_to!(siblings[0] => siblings[0].children));
        lemma_clean_nodes(node.children);
        lemma_clean_nodes(rest);
        let all = in_order(siblings);
        let n = in_order(node.children).len();
        assert forall|i: int| 0 <= i < all.len() implies !(#[trigger] all[i]).is_error
            && !all[i].is_missing by {
            if 0 < i <= n {
                assert(all[i] == in_order(node.children)[i - 1]);
            } else if i > n {
                assert(all[i] == in_order(rest)[i - 1 - n]);
            }
        }
    }
}

/// The fault that is shown stands in the tree at `at`, and there is none before it.
pub open spec fn first_at(siblings: Seq<Syntax>, fault: Syntax, at: int) -> bool {
    &&& 0 <= at < in_order(siblings).len()
    &&& in_order(siblings)[at] == fault
    &&& fault.is_error || fault.is_missing
    &&& forall|i: int|
        0 <= i < at ==> !(#[trigger] in_order(siblings)[i]).is_error && !in_order(
            siblings,
        )[i].is_missing
}

/// In a tree in which errors are rightly marked, the fault that is shown is the first in the order
/// of the text, and there is one exactly if there is an error.
pub proof fn shown_fault_is_the_first(siblings: Seq<Syntax>)
    requires
        forall|i: int| 0 <= i < siblings.len() ==> rightly_marked(#[trigger] siblings[i]),
    ensures
        first_fault(siblings) is Some <==> exists|i: int|
            0 <= i < siblings.len() && (#[trigger] siblings[i]).has_error,
        first_fault(siblings) is Some ==> exists|at: int| #[trigger]
            first_at(siblings, first_fault(siblings)->Some_0, at),
        first_fault(siblings) is None ==> forall|i: int|
            0 <= i < in_order(siblings).len() ==> !(#[trigger] in_order(siblings)[i]).is_error
                && !in_order(siblings)[i].is_missing,
    decreases siblings,
{
    if siblings.len() > 0 {
        let node = siblings[0];
        let rest = siblings.skip(1);
        let all = in_order(siblings);
        let below = in_order(node.children);
        let n = below.len();
        assert(rightly_marked(node));
        assert(decreases_to!(siblings => siblings[0]));
        assert(decreases_to!(siblings[0] => siblings[0].children));
        if !node.has_error {
            assert forall|i: int| 0 <= i < node.children.len() implies rightly_marked(
                #[trigger] node.children[i],
            ) && !node.children[i].has_error by {}
            lemma_clean_nodes(node.children);
            assert forall|i: int| 0 <= i < rest.len() implies rightly_marked(#[trigger] rest[i]) by {
                assert(rightly_marked(siblings[i + 1]));
            }
            shown_fault_is_the_first(rest);
            assert forall|i: int| 0 <= i < n + 1 implies !(#[trigger] all[i]).is_error
                && !all[i].is_missing by {
                if i > 0 {
                    assert(all[i] == below[i - 1]);
                }
            }
            if exists|i: int| 0 <= i < siblings.len() && (#[trigger] siblings[i]).has_error {
                let i = choose|i: int| 0 <= i < siblings.len() && (#[trigger] siblings[i]).has_error;
                assert(rest[i - 1].has_error);
            }
            if first_fault(rest) is Some {
                let fault = first_fault(rest)->Some_0;
                let at = choose|at: int| #[trigger] first_at(rest, fault, at);
                let k = choose|i: int| 0 <= i < rest.len() && (#[trigger] rest[i]).has_error;
                assert(siblings[k + 1].has_error);
                assert(all[at + n + 1] == in_order(rest)[at]);
                assert forall|i: int| 0 <= i < at + n + 1 implies !(#[trigger] all[i]).is_error
                    && !all[i].is_missing by {
                    if i > n {
                        assert(all[i] == in_order(rest)[i - n - 1]);
                    }
                }
                assert(first_fault(siblings) == first_fault(rest));
                assert(first_at(siblings, first_fault(siblings)->Some_0, at + n + 1));
            } else {
                assert forall|i: int| 0 <= i < all.len() implies !(#[trigger] all[i]).is_error
                    && !all[i].is_missing by {
                    if i > n {
                        assert(all[i] == in_order(rest)[i - n - 1]);
                    }
                }
            }
        } else if node.is_error || node.is_missing {
            assert(all[0] == node);
            assert(first_at(siblings, first_fault(siblings)->Some_0, 0));
        } else {
            shown_fault_is_the_first(node.children);
            let fault = first_fault(node.children)->Some_0;
            let at = choose|at: int| #[trigger] first_at(node.children, fault, at);
            assert(all[at + 1] == below[at]);
            assert forall|i: int| 0 <= i < at + 1 implies !(#[trigger] all[i]).is_error
                && !all[i].is_missing by {
                if i > 0 {
                    assert(all[i] == below[i - 1]);
                }
            }
            assert(first_fault(siblings) == first_fault(node.children));
            assert(first_at(siblings, first_fault(siblings)->Some_0, at + 1));
        }
    }
}

/// How a fault is shown: behind the complaint stands the query, with the fault picked out in it. A
/// token that is missing is named where it should be. Without a fault the complaint stands alone.
pub proof fn faults_are_shown_in_place(node: Syntax, query: Seq<char>)
    ensures
        fault_pieces(None, query) == seq![(Ink::RedBold, "Error! Query parsing failed:"@)],
        ({
            let pieces = fault_pieces(Some(node), query);
            let from = node.start_byte as int;
            let to = node.end_byte as int;
            let end = encode_utf8(query).len() as int;
            let n = pieces.len() as int;
            &&& pieces[0] == (Ink::RedBold, "Error! Query parsing failed:"@)
            &&& pieces[1] == (Ink::Plain, " "@)
            &&& pieces[2] == (Ink::Italic, byte_range(query, 0, from))
            &&& pieces[n - 2] == (Ink::RedBoldItalic, byte_range(query, from, to))
            &&& pieces[n - 1] == (Ink::Italic, byte_range(query, to, end))
            &&& !node.is_missing ==> n == 5
            &&& node.is_missing ==> n == 8 && pieces[3] == (Ink::Red, " [MISSING "@) && pieces[4]
                == (Ink::RedBold, node.kind) && pieces[5] == (Ink::Red, " ] "@)
        }),
{
}

} // verus!
