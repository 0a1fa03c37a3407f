//! Regular expressions that the user gives: constraints on variables, and their table.
use regex::Regex;
use vstd::prelude::*;

use crate::paint::{
    joined, piece_views, plain_parts, three_pieces_say, two_pieces_say, Ink, Piece,
};
use crate::text::{ends_with_char, same_text, starts_with_char, views};

verus! {

/// A compiled regular expression.
#[verifier::external_type_specification]
#[verifier::external_body]
pub struct ExRegex(regex::Regex);

/// What is wrong with a regular expression.
#[verifier::external_type_specification]
#[verifier::external_body]
pub struct ExRegexFault(regex::Error);

/// The outcome of compiling a regular expression.
pub uninterp spec fn compiled(pattern: Seq<char>) -> Result<Regex, regex::Error>;

/// Whether a regular expression matches somewhere in a text.
pub uninterp spec fn regex_finds(re: Regex, text: Seq<char>) -> bool;

/// What a regular expression's error says.
pub uninterp spec fn regex_error_text(error: regex::Error) -> Seq<char>;

/// `Regex::new` compiles a regular expression. Whether it can, and what comes out, depends on the
/// expression alone.
pub assume_specification[ Regex::new ](re: &str) -> (outcome: Result<Regex, regex::Error>)
    ensures
        outcome == compiled(re@),
;

/// `Regex::is_match` tells whether the expression matches somewhere in the text.
pub assume_specification[ Regex::is_match ](re: &Regex, haystack: &str) -> (found: bool)
    ensures
        found == regex_finds(*re, haystack@),
;

/// `Regex::clone` gives the same expression again.
pub assume_specification[ <Regex as Clone>::clone ](re: &Regex) -> (copy: Regex)
    ensures
        copy == *re,
;

/// Writes an error of the crate `regex` out, by its `Display`.
#[verifier::external_body]
fn regex_error_message(error: &regex::Error) -> (text: String)
    ensures
        text@ == regex_error_text(*error),
{
    error.to_string()
}

/// Why the constraints cannot be used.
#[derive(Debug)]
pub enum RegexError {
    /// An argument is not of the form `var=regex`.
    InvalidArg(String),
    /// An expression does not compile.
    InvalidRegex(regex::Error),
}

impl From<regex::Error> for RegexError {
    fn from(err: regex::Error) -> (error: RegexError) {
        RegexError::InvalidRegex(err)
    }
}

impl vstd::std_specs::convert::FromSpecImpl<regex::Error> for RegexError {
    open spec fn obeys_from_spec() -> bool {
        true
    }

    open spec fn from_spec(err: regex::Error) -> RegexError {
        RegexError::InvalidRegex(err)
    }
}

/// A `RegexError` with its texts as sequences.
pub enum ConstraintFault {
    InvalidArg(Seq<char>),
    InvalidRegex(regex::Error),
}

impl View for RegexError {
    type V = ConstraintFault;

    open spec fn view(&self) -> ConstraintFault {
        match *self {
            RegexError::InvalidArg(arg) => ConstraintFault::InvalidArg(arg@),
            RegexError::InvalidRegex(error) => ConstraintFault::InvalidRegex(error),
        }
    }
}

impl RegexError {
    /// What is said of the error.
    pub open spec fn message_pieces(self) -> Seq<(Ink, Seq<char>)> {
        match self {
            RegexError::InvalidArg(arg) => seq![
                (Ink::Plain, "'"@),
                (Ink::Red, arg@),
                (Ink::Plain, "' is not a valid argument of the form var=regex"@),
            ],
            RegexError::InvalidRegex(error) => seq![
                (Ink::Plain, "Regex error "@),
                (Ink::Plain, regex_error_text(error)),
            ],
        }
    }

    /// Tells of the error.
    pub fn message(&self) -> (pieces: Vec<Piece>)
        ensures
            piece_views(pieces@) == self.message_pieces(),
    {
        let mut pieces: Vec<Piece> = Vec::new();
        match self {
            RegexError::InvalidArg(arg) => {
                pieces.push(Piece::new(Ink::Plain, "'"));
                pieces.push(Piece::new(Ink::Red, arg.as_str()));
                pieces.push(
                    Piece::new(Ink::Plain, "' is not a valid argument of the form var=regex"),
                );
            },
            RegexError::InvalidRegex(error) => {
                pieces.push(Piece::new(Ink::Plain, "Regex error "));
                pieces.push(Piece { ink: Ink::Plain, text: regex_error_message(error) });
            },
        }
        assert(piece_views(pieces@) =~= self.message_pieces());
        pieces
    }
}

/// The table that a list of entries stands for: a later entry takes the place of an earlier one
/// for the same variable.
pub open spec fn table(entries: Seq<(String, (bool, Regex))>) -> Map<Seq<char>, (bool, Regex)>
    decreases entries.len(),
{
    if entries.len() == 0 {
        Map::empty()
    } else {
        table(entries.drop_last()).insert(entries.last().0@, entries.last().1)
    }
}

/// No two entries are for the same variable.
pub open spec fn distinct_names(entries: Seq<(String, (bool, Regex))>) -> bool {
    forall|i: int, j: int|
        0 <= i < j < entries.len() ==> (#[trigger] entries[i]).0@ != (#[trigger] entries[j]).0@
}

/// The constraints on variables: for each of them whether it is a negative one, and the
/// expression.
pub struct RegexMap {
    entries: Vec<(String, (bool, Regex))>,
}

impl View for RegexMap {
    type V = Map<Seq<char>, (bool, Regex)>;

    closed spec fn view(&self) -> Map<Seq<char>, (bool, Regex)> {
        table(self.entries@)
    }
}

proof fn lemma_table_domain(entries: Seq<(String, (bool, Regex))>)
    ensures
        forall|name: Seq<char>|
            #![trigger table(entries).contains_key(name)]
            table(entries).contains_key(name) <==> exists|i: int|
                0 <= i < entries.len() && (#[trigger] entries[i]).0@ == name,
    decreases entries.len(),
{
    if entries.len() > 0 {
        let head = entries.drop_last();
        let n = entries.len() - 1;
        lemma_table_domain(head);
        assert forall|name: Seq<char>| #[trigger]
            table(entries).contains_key(name) <==> exists|i: int|
                0 <= i < entries.len() && (#[trigger] entries[i]).0@ == name by {
            if table(entries).contains_key(name) {
                if entries[n].0@ != name {
                    assert(table(head).contains_key(name));
                    let k = choose|i: int| 0 <= i < head.len() && (#[trigger] head[i]).0@ == name;
                    assert(entries[k].0@ == name);
                }
            }
            if exists|i: int| 0 <= i < entries.len() && (#[trigger] entries[i]).0@ == name {
                let k = choose|i: int| 0 <= i < entries.len() && (#[trigger] entries[i]).0@ == name;
                if k < n {
                    assert(head[k].0@ == name);
                    assert(table(head).contains_key(name));
                }
            }
        }
    }
}

proof fn lemma_table_entry(entries: Seq<(String, (bool, Regex))>, k: int)
    requires
        distinct_names(entries),
        0 <= k < entries.len(),
    ensures
        table(entries).contains_key(entries[k].0@),
        table(entries)[entries[k].0@] == entries[k].1,
    decreases entries.len(),
{
    if k < entries.len() - 1 {
        lemma_table_entry(entries.drop_last(), k);
        assert(entries[k].0@ != entries[entries.len() - 1].0@);
    }
}

/// Changing the value of one entry changes the table at its variable alone.
proof fn lemma_table_update(
    entries: Seq<(String, (bool, Regex))>,
    k: int,
    entry: (String, (bool, Regex)),
)
    requires
        distinct_names(entries),
        0 <= k < entries.len(),
        entry.0@ == entries[k].0@,
    ensures
        table(entries.update(k, entry)) == table(entries).insert(entry.0@, entry.1),
    decreases entries.len(),
{
    let head = entries.drop_last();
    let n = entries.len() - 1;
    if k == n {
        assert(entries.update(k, entry).drop_last() == head);
        assert(table(entries.update(k, entry)) =~= table(entries).insert(entry.0@, entry.1));
    } else {
        lemma_table_update(head, k, entry);
        assert(entries.update(k, entry).drop_last() == head.update(k, entry));
        assert(entries[k].0@ != entries[n].0@);
        assert(table(entries.update(k, entry)) =~= table(entries).insert(entry.0@, entry.1));
    }
}

impl RegexMap {
    #[verifier::type_invariant]
    spec fn well_formed(self) -> bool {
        distinct_names(self.entries@)
    }

    /// A table of the given entries. Of two entries for the same variable the later one counts.
    pub fn new(m: Vec<(String, (bool, Regex))>) -> (map: RegexMap)
        ensures
            map@ == table(m@),
    {
        let mut entries: Vec<(String, (bool, Regex))> = Vec::new();
        let ghost all = m@;
        for entry in it: m
            invariant
                it.seq() == all,
                distinct_names(entries@),
                table(entries@) == table(all.take(it.index())),
        {
            assert(all.take(it.index() + 1).drop_last() == all.take(it.index()));
            put(&mut entries, entry);
        }
        assert(all.take(all.len() as int) == all);
        RegexMap { entries }
    }

    /// The variables that are constrained, each of them once.
    pub fn variables(&self) -> (names: Vec<String>)
        ensures
            views(names@).no_duplicates(),
            forall|name: Seq<char>| #[trigger]
                views(names@).contains(name) <==> self@.contains_key(name),
    {
        proof {
            use_type_invariant(self);
            lemma_table_domain(self.entries@);
        }
        let mut names: Vec<String> = Vec::new();
        let mut i: usize = 0;
        while i < self.entries.len()
            invariant
                i <= self.entries@.len(),
                names@.len() == i,
                forall|j: int| 0 <= j < i ==> (#[trigger] names@[j])@ == self.entries@[j].0@,
            decreases self.entries@.len() - i,
        {
            names.push(self.entries[i].0.clone());
            i = i + 1;
        }
        proof {
            let all = views(names@);
            assert forall|a: int, b: int| 0 <= a < all.len() && 0 <= b < all.len() && a != b implies
                all[a] != all[b] by {
                assert(names@[a]@ == self.entries@[a].0@);
                assert(names@[b]@ == self.entries@[b].0@);
            }
            assert forall|name: Seq<char>| #[trigger]
                all.contains(name) <==> self@.contains_key(name) by {
                if all.contains(name) {
                    let k = choose|k: int| 0 <= k < all.len() && all[k] == name;
                    assert(names@[k]@ == self.entries@[k].0@);
                    assert(self.entries@[k].0@ == name);
                }
                if table(self.entries@).contains_key(name) {
                    let k = choose|k: int|
                        0 <= k < self.entries@.len() && (#[trigger] self.entries@[k]).0@ == name;
                    assert(names@[k]@ == name);
                    assert(all[k] == name);
                }
            }
        }
        names
    }

    /// The constraint on a variable, if there is one.
    pub fn get(&self, variable: &str) -> (constraint: Option<(bool, Regex)>)
        ensures
            constraint == if self@.contains_key(variable@) {
                Some(self@[variable@])
            } else {
                None
            },
    {
        proof {
            use_type_invariant(self);
            lemma_table_domain(self.entries@);
        }
        let mut i: usize = 0;
        while i < self.entries.len()
            invariant
                i <= self.entries@.len(),
                distinct_names(self.entries@),
                self@ == table(self.entries@),
                forall|j: int| 0 <= j < i ==> (#[trigger] self.entries@[j]).0@ != variable@,
            decreases self.entries@.len() - i,
        {
            let entry = &self.entries[i];
            if same_text(entry.0.as_str(), variable) {
                proof {
                    lemma_table_entry(self.entries@, i as int);
                }
                return Some((entry.1.0, entry.1.1.clone()));
            }
            i = i + 1;
        }
        None
    }
}

impl Clone for RegexMap {
    fn clone(&self) -> (copy: RegexMap)
        ensures
            copy@ == self@,
    {
        proof {
            use_type_invariant(self);
        }
        let mut entries: Vec<(String, (bool, Regex))> = Vec::new();
        let mut i: usize = 0;
        while i < self.entries.len()
            invariant
                i <= self.entries@.len(),
                entries@ == self.entries@.take(i as int),
            decreases self.entries@.len() - i,
        {
            let entry = &self.entries[i];
            entries.push((entry.0.clone(), (entry.1.0, entry.1.1.clone())));
            assert(entries@ =~= self.entries@.take(i + 1));
            i = i + 1;
        }
        assert(entries@ =~= self.entries@);
        RegexMap { entries }
    }
}

/// Puts an entry in place of the one for the same variable, or at the end.
fn put(entries: &mut Vec<(String, (bool, Regex))>, entry: (String, (bool, Regex)))
    requires
        distinct_names(old(entries)@),
    ensures
        distinct_names(final(entries)@),
        table(final(entries)@) == table(old(entries)@).insert(entry.0@, entry.1),
{
    let mut i: usize = 0;
    while i < entries.len()
        invariant
            i <= entries@.len(),
            entries@ == old(entries)@,
            distinct_names(entries@),
            forall|j: int| 0 <= j < i ==> (#[trigger] entries@[j]).0@ != entry.0@,
        decreases entries@.len() - i,
    {
        if same_text(entries[i].0.as_str(), entry.0.as_str()) {
            proof {
                lemma_table_update(entries@, i as int, entry);
            }
            entries[i] = entry;
            return;
        }
        i = i + 1;
    }
    entries.push(entry);
    assert(entries@.drop_last() == old(entries)@);
}

/// The number of characters before the first `c`, or of all characters if there is none.
pub open spec fn chars_before(text: Seq<char>, c: char) -> nat
    decreases text.len(),
{
    if text.len() == 0 || text[0] == c {
        0
    } else {
        1 + chars_before(text.skip(1), c)
    }
}

/// Where the first `c` stands.
pub proof fn chars_before_finds_first(text: Seq<char>, c: char)
    ensures
        chars_before(text, c) <= text.len(),
        chars_before(text, c) < text.len() ==> text[chars_before(text, c) as int] == c,
        forall|i: int| 0 <= i < chars_before(text, c) ==> text[i] != c,
    decreases text.len(),
{
    if text.len() > 0 && text[0] != c {
        let rest = text.skip(1);
        chars_before_finds_first(rest, c);
        let n = chars_before(rest, c);
        assert(n < rest.len() ==> rest[n as int] == text[n as int + 1]);
        assert forall|i: int| 0 <= i < n + 1 implies text[i] != c by {
            if i > 0 {
                assert(rest[i - 1] == text[i]);
            }
        }
    }
}

proof fn lemma_chars_before_at(text: Seq<char>, c: char, at: int)
    requires
        0 <= at <= text.len(),
        at < text.len() ==> text[at] == c,
        forall|i: int| 0 <= i < at ==> text[i] != c,
    ensures
        chars_before(text, c) == at,
{
    chars_before_finds_first(text, c);
}

/// Splits `text` at the first `c`, which belongs to neither part.
pub fn split_once_at(text: &str, c: char) -> (parts: Option<(&str, &str)>)
    ensures
        ({
            let at = chars_before(text@, c) as int;
            if at < text@.len() {
                &&& parts is Some
                &&& parts->Some_0.0@ == text@.take(at)
                &&& parts->Some_0.1@ == text@.skip(at + 1)
            } else {
                parts is None
            }
        }),
        parts is Some ==> text@ == parts->Some_0.0@.push(c) + parts->Some_0.1@
            && !parts->Some_0.0@.contains(c),
        parts is None ==> !text@.contains(c),
{
    let n = text.unicode_len();
    let mut at: usize = 0;
    while at < n
        invariant
            at <= n == text@.len(),
            forall|i: int| 0 <= i < at ==> text@[i] != c,
        decreases n - at,
    {
        if text.get_char(at) == c {
            proof {
                lemma_chars_before_at(text@, c, at as int);
            }
            let var = text.substring_char(0, at);
            let value = text.substring_char(at + 1, n);
            assert(var@ =~= text@.take(at as int));
            assert(value@ =~= text@.skip(at + 1));
            assert(text@ =~= var@.push(c) + value@);
            return Some((var, value));
        }
        at = at + 1;
    }
    proof {
        lemma_chars_before_at(text@, c, at as int);
    }
    None
}

/// `var` with the dollar sign that a variable begins with.
pub open spec fn with_dollar(var: Seq<char>) -> Seq<char> {
    if var.len() > 0 && var[0] == '$' {
        var
    } else {
        "$"@ + var
    }
}

/// What is left of an argument before the equals sign: the variable, and whether an exclamation
/// mark behind it makes the constraint a negative one.
pub open spec fn constrained_variable(var: Seq<char>) -> (Seq<char>, bool) {
    let name = with_dollar(var);
    if name.last() == '!' {
        (name.drop_last(), true)
    } else {
        (name, false)
    }
}

/// Reads the part of an argument before the equals sign.
pub fn normalize_variable(var: &str) -> (named: (String, bool))
    ensures
        (named.0@, named.1) == constrained_variable(var@),
{
    proof {
        reveal_strlit("$");
    }
    let name = if starts_with_char(var, '$') {
        var.to_owned()
    } else {
        let mut name = "$".to_owned();
        name.append(var);
        name
    };
    let text = name.as_str();
    if ends_with_char(text, '!') {
        let n = text.unicode_len();
        let short = text.substring_char(0, n - 1).to_owned();
        assert(short@ =~= name@.drop_last());
        (short, true)
    } else {
        (name, false)
    }
}

/// The constraint that one argument states.
pub open spec fn constraint(arg: Seq<char>) -> Result<
    (Seq<char>, (bool, Regex)),
    ConstraintFault,
> {
    let at = chars_before(arg, '=') as int;
    if at >= arg.len() {
        Err(ConstraintFault::InvalidArg(arg))
    } else {
        let (name, negative) = constrained_variable(arg.take(at));
        match compiled(arg.skip(at + 1)) {
            Ok(re) => Ok((name, (negative, re))),
            Err(error) => Err(ConstraintFault::InvalidRegex(error)),
        }
    }
}

/// The constraints that the arguments state, or the fault of the first argument that has one.
pub open spec fn constraints(args: Seq<Seq<char>>) -> Result<
    Map<Seq<char>, (bool, Regex)>,
    ConstraintFault,
>
    decreases args.len(),
{
    if args.len() == 0 {
        Ok(Map::empty())
    } else {
        match constraints(args.drop_last()) {
            Err(fault) => Err(fault),
            Ok(map) => match constraint(args.last()) {
                Err(fault) => Err(fault),
                Ok((name, value)) => Ok(map.insert(name, value)),
            },
        }
    }
}

/// Reads one argument.
pub fn read_constraint(arg: &str) -> (outcome: Result<(String, (bool, Regex)), RegexError>)
    ensures
        match constraint(arg@) {
            Ok(c) => outcome is Ok && outcome->Ok_0.0@ == c.0 && outcome->Ok_0.1 == c.1,
            Err(fault) => outcome is Err && outcome->Err_0@ == fault,
        },
{
    proof {
        chars_before_finds_first(arg@, '=');
    }
    match split_once_at(arg, '=') {
        None => Err(RegexError::InvalidArg(arg.to_owned())),
        Some((var, raw_regex)) => {
            let (name, negative) = normalize_variable(var);
            match Regex::new(raw_regex) {
                Ok(re) => Ok((name, (negative, re))),
                Err(error) => Err(RegexError::from(error)),
            }
        },
    }
}

proof fn lemma_fault_stays(args: Seq<Seq<char>>, n: int)
    requires
        0 <= n <= args.len(),
        constraints(args.take(n)) is Err,
    ensures
        constraints(args) == constraints(args.take(n)),
    decreases args.len(),
{
    if n == args.len() {
        assert(args.take(n) == args);
    } else {
        assert(args.drop_last().take(n) == args.take(n));
        lemma_fault_stays(args.drop_last(), n);
    }
}

/// Reads all arguments and compiles their expressions.
pub fn process_regexes(regexes: &[String]) -> (outcome: Result<RegexMap, RegexError>)
    ensures
        match constraints(views(regexes@)) {
            Ok(map) => outcome is Ok && outcome->Ok_0@ == map,
            Err(fault) => outcome is Err && outcome->Err_0@ == fault,
        },
{
    let ghost args = views(regexes@);
    let mut entries: Vec<(String, (bool, Regex))> = Vec::new();
    let mut i: usize = 0;
    while i < regexes.len()
        invariant
            i <= regexes@.len(),
            args == views(regexes@),
            constraints(args.take(i as int)) == Ok::<
                Map<Seq<char>, (bool, Regex)>,
                ConstraintFault,
            >(table(entries@)),
        decreases regexes@.len() - i,
    {
        assert(args.take(i + 1).drop_last() == args.take(i as int));
        assert(args.take(i + 1).last() == regexes@[i as int]@);
        match read_constraint(regexes[i].as_str()) {
            Ok(entry) => {
                let ghost before = entries@;
                entries.push(entry);
                assert(entries@.drop_last() == before);
            },
            Err(error) => {
                proof {
                    lemma_fault_stays(args, i + 1);
                }
                return Err(error);
            },
        }
        i = i + 1;
    }
    assert(args.take(i as int) == args);
    Ok(RegexMap::new(entries))
}

/// The dollar sign in front of a variable may be left out.
pub proof fn dollar_is_optional(var: Seq<char>)
    requires
        !(var.len() > 0 && var[0] == '$'),
    ensures
        constrained_variable(var) == constrained_variable("$"@ + var),
{
    reveal_strlit("$");
    assert(("$"@ + var)[0] == '$');
}

/// An exclamation mark behind a variable makes its constraint a negative one and changes nothing
/// else.
pub proof fn exclamation_mark_negates(var: Seq<char>)
    ensures
        constrained_variable(var.push('!')) == (with_dollar(var), true),
{
    reveal_strlit("$");
    assert(with_dollar(var.push('!')) =~= with_dollar(var).push('!'));
    assert(with_dollar(var).push('!').drop_last() =~= with_dollar(var));
}

/// Every variable of a table that was read from arguments begins with a dollar sign.
pub proof fn constrained_variables_begin_with_dollar(args: Seq<Seq<char>>, name: Seq<char>)
    requires
        constraints(args) is Ok,
        constraints(args)->Ok_0.contains_key(name),
    ensures
        name.len() > 0 && name[0] == '$',
    decreases args.len(),
{
    reveal_strlit("$");
    if args.len() > 0 {
        let head = constraints(args.drop_last())->Ok_0;
        if head.contains_key(name) {
            constrained_variables_begin_with_dollar(args.drop_last(), name);
        } else {
            let arg = args.last();
            let var = arg.take(chars_before(arg, '=') as int);
            assert(with_dollar(var)[0] == '$');
        }
    }
}

/// Arguments are refused exactly when one of them is faulty, and for the first that is.
pub proof fn first_faulty_argument_decides(args: Seq<Seq<char>>, n: int)
    requires
        0 <= n < args.len(),
        forall|i: int| 0 <= i < n ==> constraint(#[trigger] args[i]) is Ok,
    ensures
        constraint(args[n]) is Err ==> constraints(args) is Err && constraints(args)->Err_0
            == constraint(args[n])->Err_0,
        constraint(args[n]) is Ok && n == args.len() - 1 ==> constraints(args) is Ok,
{
    lemma_sound_arguments(args.take(n));
    assert(args.take(n + 1).drop_last() == args.take(n));
    assert(args.take(n + 1).last() == args[n]);
    if constraint(args[n]) is Err {
        lemma_fault_stays(args, n + 1);
    }
    assert(args.take(args.len() as int) == args);
}

proof fn lemma_sound_arguments(args: Seq<Seq<char>>)
    requires
        forall|i: int| 0 <= i < args.len() ==> constraint(#[trigger] args[i]) is Ok,
    ensures
        constraints(args) is Ok,
    decreases args.len(),
{
    if args.len() > 0 {
        assert forall|i: int| 0 <= i < args.drop_last().len() implies constraint(
            #[trigger] args.drop_last()[i],
        ) is Ok by {
            assert(constraint(args[i]) is Ok);
        }
        lemma_sound_arguments(args.drop_last());
        assert(constraint(args[args.len() - 1]) is Ok);
    }
}

/// Of several constraints on a variable the last one counts.
pub proof fn last_constraint_counts(args: Seq<Seq<char>>, n: int)
    requires
        constraints(args) is Ok,
        0 <= n < args.len(),
        forall|i: int|
            n < i < args.len() ==> constraint(#[trigger] args[i])->Ok_0.0 != constraint(
                args[n],
            )->Ok_0.0,
    ensures
        constraint(args[n]) is Ok,
        constraints(args)->Ok_0.contains_key(constraint(args[n])->Ok_0.0),
        constraints(args)->Ok_0[constraint(args[n])->Ok_0.0] == constraint(args[n])->Ok_0.1,
    decreases args.len(),
{
    if n < args.len() - 1 {
        let head = args.drop_last();
        assert(head[n] == args[n]);
        assert forall|i: int| n < i < head.len() implies constraint(#[trigger] head[i])->Ok_0.0
            != constraint(head[n])->Ok_0.0 by {
            assert(head[i] == args[i]);
        }
        last_constraint_counts(head, n);
        assert(constraint(args[args.len() - 1])->Ok_0.0 != constraint(args[n])->Ok_0.0);
    }
}

/// Without an exclamation mark behind it, a variable keeps its name, but for the dollar sign, and
/// its constraint is a positive one.
pub proof fn unmarked_variables_are_positive(var: Seq<char>)
    requires
        !(var.len() > 0 && var.last() == '!'),
    ensures
        constrained_variable(var) == (
            if var.len() > 0 && var[0] == '$' {
                var
            } else {
                "$"@ + var
            },
            false,
        ),
{
    reveal_strlit("$");
    assert(("$"@ + var).last() == if var.len() > 0 {
        var.last()
    } else {
        '$'
    });
}

/// With an exclamation mark behind it, a variable keeps its name, but for the mark and the dollar
/// sign, and its constraint is a negative one.
pub proof fn marked_variables_are_negative(var: Seq<char>)
    ensures
        constrained_variable(var.push('!')) == (
            if var.len() > 0 && var[0] == '$' {
                var
            } else {
                "$"@ + var
            },
            true,
        ),
{
    exclamation_mark_negates(var);
}

/// An argument is read up to its first equals sign: what stands before it names the variable, all
/// that stands behind it is the expression. Without an equals sign there is no constraint.
pub proof fn arguments_are_read_at_the_first_equals_sign(var: Seq<char>, expression: Seq<char>)
    requires
        !var.contains('='),
    ensures
        constraint(var.push('=') + expression) == match compiled(expression) {
            Ok(re) => Ok::<(Seq<char>, (bool, Regex)), ConstraintFault>(
                (constrained_variable(var).0, (constrained_variable(var).1, re)),
            ),
            Err(error) => Err(ConstraintFault::InvalidRegex(error)),
        },
        constraint(var) == Err::<(Seq<char>, (bool, Regex)), ConstraintFault>(
            ConstraintFault::InvalidArg(var),
        ),
{
    let arg = var.push('=') + expression;
    assert forall|i: int| 0 <= i < var.len() implies arg[i] != '=' && var[i] != '=' by {
        assert(var.contains(var[i]));
    }
    lemma_chars_before_at(arg, '=', var.len() as int);
    lemma_chars_before_at(var, '=', var.len() as int);
    assert(arg.take(var.len() as int) =~= var);
    assert(arg.skip(var.len() as int + 1) =~= expression);
}

/// A further argument is read after the others, and its constraint takes the place of an earlier
/// one on the same variable. The constraints on other variables stay.
pub proof fn one_more_argument(args: Seq<Seq<char>>, arg: Seq<char>)
    ensures
        constraints(Seq::<Seq<char>>::empty()) == Ok::<
            Map<Seq<char>, (bool, Regex)>,
            ConstraintFault,
        >(Map::empty()),
        constraints(args) is Err ==> constraints(args.push(arg)) == constraints(args),
        constraints(args) is Ok && constraint(arg) is Err ==> constraints(args.push(arg)) == Err::<
            Map<Seq<char>, (bool, Regex)>,
            ConstraintFault,
        >(constraint(arg)->Err_0),
        constraints(args) is Ok && constraint(arg) is Ok ==> constraints(args.push(arg)) == Ok::<
            Map<Seq<char>, (bool, Regex)>,
            ConstraintFault,
        >(constraints(args)->Ok_0.insert(constraint(arg)->Ok_0.0, constraint(arg)->Ok_0.1)),
{
    assert(args.push(arg).drop_last() =~= args);
}

/// A further entry takes the place of an earlier one for the same variable; the others stay.
pub proof fn one_more_entry(entries: Seq<(String, (bool, Regex))>, entry: (String, (bool, Regex)))
    ensures
        table(Seq::<(String, (bool, Regex))>::empty()) == Map::<Seq<char>, (bool, Regex)>::empty(),
        table(entries.push(entry)) == table(entries).insert(entry.0@, entry.1),
{
    assert(entries.push(entry).drop_last() =~= entries);
}

/// What is said of arguments that cannot be used. The argument is picked out in red.
pub proof fn argument_errors_say(error: RegexError)
    ensures
        match error {
            RegexError::InvalidArg(arg) => {
                &&& joined(plain_parts(error.message_pieces())) == "'"@ + arg@
                    + "' is not a valid argument of the form var=regex"@
                &&& error.message_pieces()[1] == (Ink::Red, arg@)
                &&& error.message_pieces().len() == 3
            },
            RegexError::InvalidRegex(fault) => joined(plain_parts(error.message_pieces()))
                == "Regex error "@ + regex_error_text(fault),
        },
{
    let pieces = error.message_pieces();
    match error {
        RegexError::InvalidArg(arg) => {
            three_pieces_say(pieces[0], pieces[1], pieces[2]);
            assert(pieces =~= seq![pieces[0], pieces[1], pieces[2]]);
        },
        RegexError::InvalidRegex(fault) => {
            two_pieces_say(pieces[0], pieces[1]);
            assert(pieces =~= seq![pieces[0], pieces[1]]);
        },
    }
}

/// An error says as a mathematical value what it holds.
pub proof fn errors_say_what_they_hold(error: RegexError)
    ensures
        error matches RegexError::InvalidArg(arg) ==> error@ == ConstraintFault::InvalidArg(arg@),
        error matches RegexError::InvalidRegex(fault) ==> error@ == ConstraintFault::InvalidRegex(
            fault,
        ),
{
}

} // verus!
