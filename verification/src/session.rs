//! The course of a search: the checks before it starts, and the dialogue with the user.
use vstd::prelude::*;

use crate::paint::{
    joined, joining_appends, piece_views, plain_parts, render, rendering, three_pieces_say, Ink, Piece,
};
use crate::pattern::{
    parse_search_pattern, pattern_accepted, pattern_answered, PatternError, SearchPattern,
};
use crate::regexes::RegexMap;
use crate::syntax::Grammars;
use crate::text::{has_text, views};

verus! {

/// One of the queries uses the variable.
pub open spec fn is_used(variables: Seq<Vec<String>>, name: Seq<char>) -> bool {
    exists|q: int| 0 <= q < variables.len() && views((#[trigger] variables[q])@).contains(name)
}

fn uses_variable(variables: &Vec<Vec<String>>, name: &str) -> (used: bool)
    ensures
        used == is_used(variables@, name@),
{
    let mut q: usize = 0;
    while q < variables.len()
        invariant
            q <= variables@.len(),
            forall|p: int| 0 <= p < q ==> !views((#[trigger] variables@[p])@).contains(name@),
        decreases variables@.len() - q,
    {
        if has_text(&variables[q], name) {
            assert(views(variables@[q as int]@).contains(name@));
            return true;
        }
        q = q + 1;
    }
    false
}

/// Every constraint is on a variable that one of the queries uses.
pub open spec fn constraints_apply(constraints: RegexMap, variables: Seq<Vec<String>>) -> bool {
    forall|name: Seq<char>| #[trigger]
        constraints@.contains_key(name) ==> is_used(variables, name)
}

/// Finds a constraint on a variable that no query uses.
pub fn unknown_variable(constraints: &RegexMap, variables: &Vec<Vec<String>>) -> (unknown: Option<
    String,
>)
    ensures
        unknown is None <==> constraints_apply(*constraints, variables@),
        unknown is Some ==> constraints@.contains_key(unknown->Some_0@) && !is_used(
            variables@,
            unknown->Some_0@,
        ),
{
    let names = constraints.variables();
    let mut i: usize = 0;
    while i < names.len()
        invariant
            i <= names@.len(),
            forall|name: Seq<char>| #[trigger]
                views(names@).contains(name) <==> constraints@.contains_key(name),
            forall|j: int| 0 <= j < i ==> is_used(variables@, #[trigger] views(names@)[j]),
        decreases names@.len() - i,
    {
        if !uses_variable(variables, names[i].as_str()) {
            let name = names[i].clone();
            assert(views(names@)[i as int] == name@);
            assert(views(names@).contains(name@));
            return Some(name);
        }
        i = i + 1;
    }
    assert forall|name: Seq<char>| #[trigger] constraints@.contains_key(name) implies is_used(
        variables@,
        name,
    ) by {
        assert(views(names@).contains(name));
        let j = choose|j: int| 0 <= j < views(names@).len() && views(names@)[j] == name;
        assert(is_used(variables@, views(names@)[j]));
    }
    None
}

/// What is said of a variable that no query uses.
pub open spec fn unknown_variable_pieces(name: Seq<char>) -> Seq<(Ink, Seq<char>)> {
    seq![
        (Ink::Plain, "'"@),
        (Ink::Red, name),
        (Ink::Plain, "' is not a valid query variable"@),
    ]
}

/// Tells of a variable that no query uses.
pub fn describe_unknown_variable(name: &str) -> (pieces: Vec<Piece>)
    ensures
        piece_views(pieces@) == unknown_variable_pieces(name@),
{
    let mut pieces: Vec<Piece> = Vec::new();
    pieces.push(Piece::new(Ink::Plain, "'"));
    pieces.push(Piece::new(Ink::Red, name));
    pieces.push(Piece::new(Ink::Plain, "' is not a valid query variable"));
    assert(piece_views(pieces@) =~= unknown_variable_pieces(name@));
    pieces
}

/// `message` is about `name`, which is constrained, but which no query uses.
pub open spec fn tells_unknown_variable(
    constraints: RegexMap,
    variables: Seq<Vec<String>>,
    name: Seq<char>,
    message: Seq<char>,
) -> bool {
    &&& constraints@.contains_key(name)
    &&& !is_used(variables, name)
    &&& rendering(unknown_variable_pieces(name), message)
}

/// `message` is about a variable that is constrained, but that no query uses.
pub open spec fn reports_unknown_variable(
    constraints: RegexMap,
    variables: Seq<Vec<String>>,
    message: Seq<char>,
) -> bool {
    exists|name: Seq<char>| #[trigger]
        tells_unknown_variable(constraints, variables, name, message)
}

/// Checks that every constraint is on a variable that one of the queries uses.
pub fn check_variables(constraints: &RegexMap, variables: &Vec<Vec<String>>) -> (outcome: Result<
    (),
    String,
>)
    ensures
        match outcome {
            Ok(_) => constraints_apply(*constraints, variables@),
            Err(message) => reports_unknown_variable(*constraints, variables@, message@),
        },
{
    match unknown_variable(constraints, variables) {
        None => Ok(()),
        Some(name) => {
            let message = render(&describe_unknown_variable(name.as_str()));
            assert(tells_unknown_variable(*constraints, variables@, name@, message@));
            Err(message)
        },
    }
}

/// Repairs and checks all patterns, up to the first that is refused.
pub fn parse_search_patterns(
    patterns: &[String],
    is_cpp: bool,
    force_query: bool,
    grammars: &Grammars,
) -> (outcome: Result<Vec<SearchPattern>, PatternError>)
    requires
        forall|k: int|
            0 <= k < patterns@.len() ==> vstd::utf8::encode_utf8(
                (#[trigger] patterns@[k])@,
            ).len() <= u32::MAX - 3,
    ensures
        match outcome {
            Ok(list) => {
                &&& list@.len() == patterns@.len()
                &&& forall|k: int|
                    0 <= k < patterns@.len() ==> pattern_answered(
                        grammars.choice(is_cpp),
                        (#[trigger] patterns@[k])@,
                        force_query,
                        Ok(list@[k]),
                    )
            },
            Err(error) => exists|n: int|
                {
                    &&& 0 <= n < patterns@.len()
                    &&& forall|k: int|
                        0 <= k < n ==> pattern_accepted(
                            grammars.choice(is_cpp),
                            (#[trigger] patterns@[k])@,
                            force_query,
                        )
                    &&& pattern_answered(
                        grammars.choice(is_cpp),
                        (#[trigger] patterns@[n])@,
                        force_query,
                        Err(error),
                    )
                },
        },
{
    let mut list: Vec<SearchPattern> = Vec::new();
    let mut i: usize = 0;
    while i < patterns.len()
        invariant
            i <= patterns@.len(),
            forall|k: int|
                0 <= k < patterns@.len() ==> vstd::utf8::encode_utf8(
                    (#[trigger] patterns@[k])@,
                ).len() <= u32::MAX - 3,
            list@.len() == i,
            forall|k: int|
                0 <= k < i ==> pattern_answered(
                    grammars.choice(is_cpp),
                    (#[trigger] patterns@[k])@,
                    force_query,
                    Ok(list@[k]),
                ),
        decreases patterns@.len() - i,
    {
        match parse_search_pattern(patterns[i].as_str(), is_cpp, force_query, grammars) {
            Ok(pattern) => {
                list.push(pattern);
            },
            Err(error) => {
                assert forall|k: int| 0 <= k < i implies pattern_accepted(
                    grammars.choice(is_cpp),
                    (#[trigger] patterns@[k])@,
                    force_query,
                ) by {
                    assert(pattern_answered(
                        grammars.choice(is_cpp),
                        patterns@[k]@,
                        force_query,
                        Ok(list@[k]),
                    ));
                }
                assert(pattern_answered(
                    grammars.choice(is_cpp),
                    patterns@[i as int]@,
                    force_query,
                    Err(error),
                ));
                return Err(error);
            },
        }
        i = i + 1;
    }
    Ok(list)
}

/// What is said when there is nothing to search.
pub open spec fn no_files_pieces() -> Seq<(Ink, Seq<char>)> {
    seq![(Ink::Red, "No files to parse. Exiting..."@)]
}

/// Checks that there is something to search.
pub fn check_files(num_files: usize) -> (outcome: Result<(), String>)
    ensures
        match outcome {
            Ok(_) => num_files > 0,
            Err(message) => num_files == 0 && rendering(no_files_pieces(), message@),
        },
{
    if num_files > 0 {
        return Ok(());
    }
    let mut pieces: Vec<Piece> = Vec::new();
    pieces.push(Piece::new(Ink::Red, "No files to parse. Exiting..."));
    assert(piece_views(pieces@) =~= no_files_pieces());
    Err(render(&pieces))
}

/// What the user did at the prompt.
pub enum PromptEvent {
    /// A line was entered.
    Line(String),
    /// The input is at its end.
    EndOfInput,
    /// There was no input for another reason.
    Nothing,
}

/// What is to be done next.
pub enum PromptAction {
    /// Search for this pattern, then ask again.
    Search(String),
    /// Say that there was no input, then ask again.
    ReportNothing,
    /// Stop.
    Quit,
}

/// Decides what to do after the user was asked for a pattern.
pub fn next_action(event: PromptEvent) -> (action: PromptAction)
    ensures
        action == match event {
            PromptEvent::Line(pattern) => PromptAction::Search(pattern),
            PromptEvent::EndOfInput => PromptAction::Quit,
            PromptEvent::Nothing => PromptAction::ReportNothing,
        },
{
    match event {
        PromptEvent::Line(pattern) => PromptAction::Search(pattern),
        PromptEvent::EndOfInput => PromptAction::Quit,
        PromptEvent::Nothing => PromptAction::ReportNothing,
    }
}

/// A constraint applies exactly if its variable is one of the variables of some query.
pub proof fn constraints_are_on_variables_of_queries(
    constraints: RegexMap,
    variables: Seq<Vec<String>>,
)
    ensures
        constraints_apply(constraints, variables) <==> forall|name: Seq<char>| #[trigger]
            constraints@.contains_key(name) ==> exists|q: int, i: int|
                0 <= q < variables.len() && 0 <= i < variables[q]@.len() && (
                #[trigger] variables[q]@[i])@ == name,
{
    assert forall|name: Seq<char>| #[trigger] is_used(variables, name) <==> exists|q: int, i: int|
        0 <= q < variables.len() && 0 <= i < variables[q]@.len() && (#[trigger] variables[q]@[i])@
            == name by {
        if is_used(variables, name) {
            let q = choose|q: int|
                0 <= q < variables.len() && views((#[trigger] variables[q])@).contains(name);
            let list = variables[q]@;
            let i = choose|i: int| 0 <= i < views(list).len() && views(list)[i] == name;
            assert(variables[q]@[i]@ == name);
        }
        if exists|q: int, i: int|
            0 <= q < variables.len() && 0 <= i < variables[q]@.len() && (
            #[trigger] variables[q]@[i])@ == name {
            let (q, i) = choose|q: int, i: int|
                0 <= q < variables.len() && 0 <= i < variables[q]@.len() && (
                #[trigger] variables[q]@[i])@ == name;
            assert(views(variables[q]@)[i] == name);
            assert(views(variables[q]@).contains(name));
        }
    }
}

/// What is said of a variable that no query uses, and of nothing to search. The variable is picked
/// out in red.
pub proof fn session_messages_say(name: Seq<char>)
    ensures
        joined(plain_parts(unknown_variable_pieces(name))) == "'"@ + name
            + "' is not a valid query variable"@,
        unknown_variable_pieces(name)[1] == (Ink::Red, name),
        unknown_variable_pieces(name).len() == 3,
        joined(plain_parts(no_files_pieces())) == "No files to parse. Exiting..."@,
        no_files_pieces()[0].0 == Ink::Red,
{
    let pieces = unknown_variable_pieces(name);
    three_pieces_say(pieces[0], pieces[1], pieces[2]);
    assert(pieces =~= seq![pieces[0], pieces[1], pieces[2]]);
    let none = Seq::<Seq<char>>::empty();
    let text = "No files to parse. Exiting..."@;
    joining_appends(none, text);
    assert(plain_parts(no_files_pieces()) =~= none.push(text));
    assert(joined(none) + text =~= text);
}

/// A refusal is about a variable that is constrained, but is none of the variables of any query.
pub proof fn refusals_name_an_unknown_variable(
    constraints: RegexMap,
    variables: Seq<Vec<String>>,
    message: Seq<char>,
)
    requires
        reports_unknown_variable(constraints, variables, message),
    ensures
        exists|name: Seq<char>| #[trigger]
            constraints@.contains_key(name) && rendering(unknown_variable_pieces(name), message)
                && forall|q: int, i: int|
                0 <= q < variables.len() && 0 <= i < variables[q]@.len() ==> (
                #[trigger] variables[q]@[i])@ != name,
        !constraints_apply(constraints, variables),
{
    let name = choose|name: Seq<char>| #[trigger]
        tells_unknown_variable(constraints, variables, name, message);
    assert(constraints@.contains_key(name));
    assert forall|q: int, i: int|
        0 <= q < variables.len() && 0 <= i < variables[q]@.len() implies (
    #[trigger] variables[q]@[i])@ != name by {
        if variables[q]@[i]@ == name {
            assert(views(variables[q]@)[i] == name);
            assert(views(variables[q]@).contains(name));
        }
    }
}

} // verus!
