//! Tree queries: texts that are handed to tree-sitter, and a look at them beforehand that keeps
//! away those on which it fails to give an answer.
use tree_sitter::{Language, Query};
use vstd::prelude::*;
use vstd::utf8::encode_utf8;

use crate::syntax::Grammars;
use crate::text::{lemma_chars_at_most_bytes, same_text};

verus! {

/// A compiled tree query.
#[verifier::external_type_specification]
#[verifier::external_body]
pub struct ExQuery(tree_sitter::Query);

/// All that a compiled tree query holds, as a number.
pub uninterp spec fn query_content(query: Query) -> nat;

/// The outcome of compiling `sexpr` to a tree query: what the query holds, or the kind of the error
/// and its message.
pub uninterp spec fn query_outcome(language: Language, sexpr: Seq<char>) -> Result<
    nat,
    (Seq<char>, Seq<char>),
>;

/// The number that a grammar gives to a kind of node, or zero if it has no such kind.
pub uninterp spec fn kind_id(language: Language, kind: Seq<char>, named: bool) -> u16;

/// The number that a grammar gives to a field, if it has it.
pub uninterp spec fn field_id(language: Language, name: Seq<char>) -> Option<u16>;

/// `Language::id_for_node_kind` looks up a kind of node among those of the grammar. It reads the
/// name as C does, so the name must hold no null character. Its length is kept in 32 bits.
pub assume_specification[ Language::id_for_node_kind ](
    language: &Language,
    kind: &str,
    named: bool,
) -> (id: u16)
    requires
        !kind@.contains('\0'),
        encode_utf8(kind@).len() <= u32::MAX,
    ensures
        id == kind_id(*language, kind@, named),
;

/// Calls `Language::field_id_for_name`, which looks up a field among those of the grammar, where
/// they stand in order. It reads the name as C does, so the name must hold no null character. Its
/// length is kept in 32 bits.
#[verifier::external_body]
fn find_field(language: &Language, name: &str) -> (id: Option<u16>)
    requires
        !name@.contains('\0'),
        encode_utf8(name@).len() <= u32::MAX,
    ensures
        id == field_id(*language, name@),
{
    language.field_id_for_name(name)
}

/// Calls `Query::new` and takes the error, if there is one, apart into the name of its kind and
/// its message. Whether there is one, and which, depends on the grammar and the text alone. The
/// texts on which `Query::new` panics or runs on are left out, see `compilable`.
#[verifier::external_body]
fn compile_query(language: Language, sexpr: &str) -> (query: Result<Query, (String, String)>)
    requires
        compilable(language, sexpr@),
    ensures
        match query {
            Ok(q) => query_outcome(language, sexpr@) == Ok::<nat, (Seq<char>, Seq<char>)>(
                query_content(q),
            ),
            Err(e) => query_outcome(language, sexpr@) == Err::<nat, (Seq<char>, Seq<char>)>(
                (e.0@, e.1@),
            ),
        },
{
    match Query::new(language, sexpr) {
        Ok(q) => Ok(q),
        Err(e) => Err((format!("{:?}", e.kind), e.message)),
    }
}

/// What kind of text a character of a tree query stands in.
#[derive(Clone, Copy, Debug, PartialEq, Eq, Structural)]
pub enum QueryMode {
    /// Outside strings and comments.
    Code,
    /// In a string.
    Quoted,
    /// In a string, behind a backslash.
    Escaped,
    /// In a comment, which goes on to the end of the line.
    Comment,
}

/// The word that is being read.
#[derive(Clone, Copy, Debug, PartialEq, Eq, Structural)]
pub enum QueryWord {
    /// There is none.
    Empty,
    /// It consists of letters, digits, underscores and hyphens.
    Plain,
    /// It holds a mark, but ends in none, or in a full stop.
    Mixed,
    /// It ends in a question mark or in an exclamation mark.
    Marked,
}

/// The sign that stands before a word.
#[derive(Clone, Copy, Debug, PartialEq, Eq, Structural)]
pub enum QuerySign {
    Nothing,
    /// An at sign, before the name of a capture.
    Capture,
    /// An exclamation mark, before a field that must not be there.
    Negation,
    /// A slash, before a subtype.
    Subtype,
}

/// A bracket that is open.
#[derive(Clone, Copy, Debug, PartialEq, Eq, Structural)]
pub enum QueryBracket {
    /// A parenthesis with nothing behind it.
    Fresh,
    /// The parenthesis of a node, with its name behind it.
    Named,
    /// A parenthesis around patterns. The whole text counts as one, too.
    Group,
    /// The parenthesis of a predicate.
    Predicate,
    /// A square bracket around alternatives.
    Choice,
}

/// What came last inside a bracket.
#[derive(Clone, Copy, Debug, PartialEq, Eq, Structural)]
pub enum QueryItem {
    Nothing,
    /// A pattern that has to match something.
    Fixed,
    /// A pattern that can be passed over.
    Optional,
    /// A predicate.
    Predicate,
    /// A predicate, and an anchor behind it.
    Anchored,
}

/// A bracket that is open, and what was found in it so far.
#[derive(Clone, Copy, Debug, PartialEq, Eq, Structural)]
pub struct QueryFrame {
    pub bracket: QueryBracket,
    /// A pattern has to stand here, and a predicate is none.
    pub strict: bool,
    /// There is a pattern.
    pub filled: bool,
    /// A pattern before the last item has to match something.
    pub fixed: bool,
    /// What came last.
    pub item: QueryItem,
    /// The name of a field came last.
    pub label: bool,
    /// How deep the bracket is nested.
    pub base: usize,
    /// How deep a pattern is nested that stands here. Each name of a field before it adds to that.
    pub depth: usize,
}

impl QueryFrame {
    /// A bracket with nothing in it.
    pub open spec fn empty(bracket: QueryBracket, strict: bool, depth: usize) -> QueryFrame {
        QueryFrame {
            bracket,
            strict,
            filled: false,
            fixed: false,
            item: QueryItem::Nothing,
            label: false,
            base: depth,
            depth,
        }
    }

    /// Patterns stand directly in the bracket.
    pub open spec fn holds_patterns(self) -> bool {
        match self.bracket {
            QueryBracket::Named | QueryBracket::Group | QueryBracket::Choice => true,
            _ => false,
        }
    }

    /// The bracket with a further item in it.
    pub open spec fn followed_by(self, item: QueryItem) -> QueryFrame {
        QueryFrame {
            filled: self.filled || item == QueryItem::Fixed || item == QueryItem::Optional,
            fixed: self.fixed || self.item == QueryItem::Fixed,
            item,
            label: false,
            depth: self.base,
            ..self
        }
    }

    /// The bracket with a further name of a field in it.
    pub open spec fn labelled(self) -> QueryFrame {
        QueryFrame { label: true, depth: counted(self.depth, NESTING), ..self }
    }

    /// A parenthesis with nothing behind it turns out to be of the given kind.
    pub open spec fn settled(self, bracket: QueryBracket) -> QueryFrame {
        if self.bracket == QueryBracket::Fresh {
            QueryFrame { bracket, ..self }
        } else {
            self
        }
    }

    /// No predicate stands where a pattern has to.
    pub open spec fn is_apt(self) -> bool {
        self.bracket == QueryBracket::Predicate ==> !self.strict
    }

    /// What the closed parenthesis is for the bracket around it. A group can be passed over if
    /// all its patterns can.
    pub open spec fn closed(self) -> QueryItem {
        match self.bracket {
            QueryBracket::Predicate => QueryItem::Predicate,
            QueryBracket::Group => if self.fixed || self.item == QueryItem::Fixed {
                QueryItem::Fixed
            } else {
                QueryItem::Optional
            },
            _ => QueryItem::Fixed,
        }
    }

    /// A parenthesis may be closed: there is a pattern in a group, and no anchor between a
    /// predicate and the end of a node.
    pub open spec fn may_close(self) -> bool {
        match self.bracket {
            QueryBracket::Group => self.filled,
            QueryBracket::Named => self.item != QueryItem::Anchored,
            _ => true,
        }
    }
}

/// What a look at the beginning of a tree query has found.
pub struct QueryScan {
    pub mode: QueryMode,
    pub word: QueryWord,
    pub sign: QuerySign,
    /// The brackets that are open, the text as a whole first.
    pub frames: Seq<QueryFrame>,
    /// How many words, strings and signs there are.
    pub parts: usize,
    /// Nothing was found on which tree-sitter fails to give an answer.
    pub sound: bool,
}

impl QueryScan {
    /// The bracket that was opened last.
    pub open spec fn top(self) -> QueryFrame {
        self.frames.last()
    }

    /// The same with a changed last bracket. A sign that was read no longer counts.
    pub open spec fn with_top(self, top: QueryFrame) -> QueryScan {
        QueryScan {
            sign: QuerySign::Nothing,
            frames: self.frames.drop_last().push(top),
            sound: self.sound && top.is_apt(),
            ..self
        }
    }

    /// A bracket is opened.
    pub open spec fn opened(self, bracket: QueryBracket) -> QueryScan {
        let around = self.top().settled(QueryBracket::Group);
        let strict = around.bracket == QueryBracket::Choice || around.label;
        QueryScan {
            sign: QuerySign::Nothing,
            frames: self.frames.drop_last().push(around).push(
                QueryFrame::empty(bracket, strict, counted(around.depth, NESTING)),
            ),
            sound: self.sound && around.depth < NESTING,
            ..self
        }
    }

    /// The bracket that was opened last is closed, and is `item` for the one around it.
    pub open spec fn closed(self, item: QueryItem) -> QueryScan {
        if self.frames.len() > 1 {
            let outer = self.frames.drop_last();
            QueryScan {
                sign: QuerySign::Nothing,
                frames: outer.drop_last().push(outer.last().followed_by(item)),
                ..self
            }
        } else {
            self
        }
    }

    /// The word, if there is one, has come to its end.
    pub open spec fn word_ended(self) -> QueryScan {
        if self.word == QueryWord::Empty {
            self
        } else {
            let bracket = if self.word == QueryWord::Marked {
                QueryBracket::Predicate
            } else {
                QueryBracket::Named
            };
            QueryScan { word: QueryWord::Empty, ..self.with_top(self.top().settled(bracket)) }
        }
    }

    /// A quantifier stands behind the last pattern. A pattern that can already be passed over
    /// must not have one.
    pub open spec fn quantified(self, optional: bool) -> QueryScan {
        let top = self.top();
        if !top.holds_patterns() {
            self
        } else if top.item == QueryItem::Optional {
            QueryScan { sound: false, ..self }
        } else if top.item == QueryItem::Fixed && optional {
            self.with_top(QueryFrame { item: QueryItem::Optional, ..top })
        } else {
            self
        }
    }

    /// A full stop that is part of no word: an anchor, or the beginning of a predicate.
    pub open spec fn anchored(self) -> QueryScan {
        let top = self.top();
        if top.bracket == QueryBracket::Fresh {
            self.with_top(top.settled(QueryBracket::Predicate))
        } else if top.holds_patterns() && top.item == QueryItem::Predicate {
            self.with_top(QueryFrame { item: QueryItem::Anchored, ..top })
        } else if top.holds_patterns() {
            self.with_top(top.followed_by(QueryItem::Nothing))
        } else {
            self
        }
    }

    /// What a character does that is part of no word.
    pub open spec fn marked(self, c: char) -> QueryScan {
        let top = self.top();
        if c == '"' {
            QueryScan {
                mode: QueryMode::Quoted,
                ..self.with_top(top.settled(QueryBracket::Group))
            }
        } else if c == ';' {
            QueryScan { mode: QueryMode::Comment, ..self }
        } else if c == '(' {
            self.opened(QueryBracket::Fresh)
        } else if c == '[' {
            self.opened(QueryBracket::Choice)
        } else if c == ')' {
            QueryScan {
                sound: self.sound && (self.frames.len() > 1 ==> top.may_close()),
                ..self.closed(top.closed())
            }
        } else if c == ']' {
            self.closed(top.item)
        } else if c == '*' || c == '?' {
            self.quantified(true)
        } else if c == '+' {
            self.quantified(false)
        } else if c == '.' {
            self.anchored()
        } else if c == '#' {
            self.with_top(top.settled(QueryBracket::Predicate))
        } else if c == ':' {
            QueryScan {
                sound: self.sound && top.is_apt() && top.depth < NESTING,
                ..self.with_top(top.labelled())
            }
        } else if c == '@' {
            QueryScan { sign: QuerySign::Capture, ..self }
        } else if c == '!' {
            QueryScan { sign: QuerySign::Negation, ..self }
        } else if c == '/' {
            QueryScan { sign: QuerySign::Subtype, ..self }
        } else {
            self
        }
    }

    /// A further word, string or sign.
    pub open spec fn one_more(self) -> QueryScan {
        QueryScan {
            parts: counted(self.parts, QUERY_PARTS),
            sound: self.sound && self.parts < QUERY_PARTS,
            ..self
        }
    }

    /// What a character does outside strings and comments. There is no telling what a character
    /// outside ASCII does, since that is up to the locale. An underscore by itself is a pattern.
    pub open spec fn in_code(self, c: char) -> QueryScan {
        if c > '\u{7f}' {
            QueryScan { sound: false, ..self }
        } else if c == '_' && self.word == QueryWord::Empty && self.sign == QuerySign::Nothing
            && self.top().holds_patterns() {
            self.one_more().with_top(self.top().followed_by(QueryItem::Fixed))
        } else if is_name_char(c) && self.word == QueryWord::Empty {
            QueryScan { word: QueryWord::Plain, ..self.one_more() }
        } else if self.word != QueryWord::Empty && continues_word(c) {
            QueryScan { word: word_after(self.word, c), ..self }
        } else if is_blank(c) || c == ';' {
            self.word_ended().marked(c)
        } else {
            self.one_more().word_ended().marked(c)
        }
    }

    /// What a character does in a string. A null character, which may be written as a digit
    /// behind a backslash, would end the name of a node too early.
    pub open spec fn in_string(self, c: char) -> QueryScan {
        let top = self.top();
        let null = c == '\0' || (self.mode == QueryMode::Escaped && c == '0');
        let sound = self.sound && (!null || top.bracket == QueryBracket::Predicate);
        if self.mode == QueryMode::Escaped {
            QueryScan { mode: QueryMode::Quoted, sound, ..self }
        } else if c == '\\' {
            QueryScan { mode: QueryMode::Escaped, ..self }
        } else if c == '"' && top.holds_patterns() {
            QueryScan {
                mode: QueryMode::Code,
                ..self.with_top(top.followed_by(QueryItem::Fixed))
            }
        } else if c == '"' {
            QueryScan { mode: QueryMode::Code, ..self }
        } else {
            QueryScan { sound, ..self }
        }
    }

    /// What the next character does.
    pub open spec fn next(self, c: char) -> QueryScan {
        match self.mode {
            QueryMode::Code => self.in_code(c),
            QueryMode::Comment => if c == '\n' {
                QueryScan { mode: QueryMode::Code, ..self }
            } else {
                self
            },
            _ => self.in_string(c),
        }
    }
}

/// How deep patterns may be nested. They are followed on the stack.
pub const NESTING: usize = 1000;

/// How many words, strings and signs there may be. The steps of a query are numbered in 16 bits,
/// and each of these can make two of them.
pub const QUERY_PARTS: usize = 32767;

/// The number behind `n`, up to `most`.
pub open spec fn counted(n: usize, most: usize) -> usize {
    if n < most {
        (n + 1) as usize
    } else {
        n
    }
}

/// A character that parts words.
pub open spec fn is_blank(c: char) -> bool {
    c == ' ' || '\t' <= c <= '\r'
}

/// A character that can be part of a name in a tree query.
pub open spec fn is_name_char(c: char) -> bool {
    ||| 'a' <= c <= 'z'
    ||| 'A' <= c <= 'Z'
    ||| '0' <= c <= '9'
    ||| c == '_'
    ||| c == '-'
}

/// A character that can go on with a word.
pub open spec fn continues_word(c: char) -> bool {
    is_name_char(c) || c == '.' || c == '?' || c == '!'
}

/// The word with a further character.
pub open spec fn word_after(word: QueryWord, c: char) -> QueryWord {
    if c == '?' || c == '!' {
        QueryWord::Marked
    } else if c != '.' && word == QueryWord::Plain {
        QueryWord::Plain
    } else {
        QueryWord::Mixed
    }
}

/// What a look at the text finds.
pub open spec fn query_scan(sexpr: Seq<char>) -> QueryScan
    decreases sexpr.len(),
{
    if sexpr.len() == 0 {
        QueryScan {
            mode: QueryMode::Code,
            word: QueryWord::Empty,
            sign: QuerySign::Nothing,
            frames: seq![QueryFrame::empty(QueryBracket::Group, false, 1)],
            parts: 0,
            sound: true,
        }
    } else {
        query_scan(sexpr.drop_last()).next(sexpr.last())
    }
}

/// The name that a text ends in.
pub open spec fn last_name(text: Seq<char>) -> Seq<char>
    decreases text.len(),
{
    if text.len() == 0 || !is_name_char(text.last()) {
        seq![]
    } else {
        last_name(text.drop_last()).push(text.last())
    }
}

/// The first `at` characters end in the name of a capture, and the name goes on no further.
pub open spec fn captures_at(sexpr: Seq<char>, at: int, name: Seq<char>) -> bool {
    let scan = query_scan(sexpr.take(at));
    &&& 0 <= at < sexpr.len()
    &&& scan.mode == QueryMode::Code
    &&& scan.word == QueryWord::Plain
    &&& scan.sign == QuerySign::Capture
    &&& scan.top().holds_patterns()
    &&& last_name(sexpr.take(at)) == name
    &&& !continues_word(sexpr[at])
}

/// A pattern is captured under the name.
pub open spec fn captures(sexpr: Seq<char>, name: Seq<char>) -> bool {
    exists|at: int| #[trigger] captures_at(sexpr, at, name)
}

/// The text does not break off in an unknown name: that of a node or of a field that must not be
/// there, where the grammar does not have it, or that of a predicate's capture, where there is no
/// such capture.
pub open spec fn breaks_off_soundly(language: Language, sexpr: Seq<char>) -> bool {
    let scan = query_scan(sexpr);
    let name = last_name(sexpr);
    if scan.mode != QueryMode::Code || scan.word != QueryWord::Plain {
        true
    } else if scan.sign == QuerySign::Subtype {
        kind_id(language, name, true) != 0
    } else if scan.top().bracket == QueryBracket::Fresh {
        name == "_"@ || kind_id(language, name, true) != 0
    } else if scan.sign == QuerySign::Negation && scan.top().bracket == QueryBracket::Named {
        field_id(language, name) is Some
    } else if scan.sign == QuerySign::Capture && scan.top().bracket == QueryBracket::Predicate {
        captures(sexpr, name)
    } else {
        true
    }
}

/// `Query::new` gives an answer to the text, and the same one everywhere. It does not where
///
/// - the text breaks off in an unknown name, since it looks for the end of the name and panics;
/// - a quantifier stands behind a pattern that can be passed over, as in `(a)**` or `((a)?)+`,
///   since it goes round in circles there, or reads on behind what it has stored;
/// - a group holds predicates alone, a predicate is an alternative or the value of a field, or an
///   anchor stands between a predicate and the end of a node, since it looks there for a pattern
///   that it has not stored;
/// - a string that stands for a node holds a null character, since it reads on behind a name;
/// - a character outside ASCII stands outside strings and comments, since what it is there is up
///   to the locale;
/// - there are too many parts, patterns are nested too deep, or the length of the text does not fit
///   in 32 bits.
///
/// Other faults are not looked for, so a text is left out also where one stands before such a place.
pub open spec fn compilable(language: Language, sexpr: Seq<char>) -> bool {
    &&& encode_utf8(sexpr).len() <= u32::MAX
    &&& query_scan(sexpr).sound
    &&& breaks_off_soundly(language, sexpr)
}

impl QueryFrame {
    fn new(bracket: QueryBracket, strict: bool, depth: usize) -> (frame: QueryFrame)
        ensures
            frame == QueryFrame::empty(bracket, strict, depth),
    {
        QueryFrame {
            bracket,
            strict,
            filled: false,
            fixed: false,
            item: QueryItem::Nothing,
            label: false,
            base: depth,
            depth,
        }
    }

    fn has_patterns(&self) -> (yes: bool)
        ensures
            yes == self.holds_patterns(),
    {
        self.bracket == QueryBracket::Named || self.bracket == QueryBracket::Group || self.bracket
            == QueryBracket::Choice
    }

    fn add_item(&self, item: QueryItem) -> (frame: QueryFrame)
        ensures
            frame == self.followed_by(item),
    {
        QueryFrame {
            bracket: self.bracket,
            strict: self.strict,
            filled: self.filled || item == QueryItem::Fixed || item == QueryItem::Optional,
            fixed: self.fixed || self.item == QueryItem::Fixed,
            item,
            label: false,
            base: self.base,
            depth: self.base,
        }
    }

    fn add_label(&self) -> (frame: QueryFrame)
        ensures
            frame == self.labelled(),
    {
        let mut frame = *self;
        frame.label = true;
        frame.depth = count(frame.depth, NESTING);
        frame
    }

    fn settle(&self, bracket: QueryBracket) -> (frame: QueryFrame)
        ensures
            frame == self.settled(bracket),
    {
        let mut frame = *self;
        if frame.bracket == QueryBracket::Fresh {
            frame.bracket = bracket;
        }
        frame
    }

    fn close(&self) -> (item: QueryItem)
        ensures
            item == self.closed(),
    {
        match self.bracket {
            QueryBracket::Predicate => QueryItem::Predicate,
            QueryBracket::Group => if self.fixed || self.item == QueryItem::Fixed {
                QueryItem::Fixed
            } else {
                QueryItem::Optional
            },
            _ => QueryItem::Fixed,
        }
    }

    fn can_close(&self) -> (yes: bool)
        ensures
            yes == self.may_close(),
    {
        match self.bracket {
            QueryBracket::Group => self.filled,
            QueryBracket::Named => self.item != QueryItem::Anchored,
            _ => true,
        }
    }
}

/// Looks at a tree query, one character after the other.
struct QueryScanner {
    mode: QueryMode,
    word: QueryWord,
    sign: QuerySign,
    frames: Vec<QueryFrame>,
    parts: usize,
    sound: bool,
}

impl View for QueryScanner {
    type V = QueryScan;

    closed spec fn view(&self) -> QueryScan {
        QueryScan {
            mode: self.mode,
            word: self.word,
            sign: self.sign,
            frames: self.frames@,
            parts: self.parts,
            sound: self.sound,
        }
    }
}

impl QueryScanner {
    fn new() -> (scanner: QueryScanner)
        ensures
            scanner@ == query_scan(seq![]),
    {
        let mut frames: Vec<QueryFrame> = Vec::new();
        frames.push(QueryFrame::new(QueryBracket::Group, false, 1));
        assert(frames@ =~= seq![QueryFrame::empty(QueryBracket::Group, false, 1)]);
        QueryScanner {
            mode: QueryMode::Code,
            word: QueryWord::Empty,
            sign: QuerySign::Nothing,
            frames,
            parts: 0,
            sound: true,
        }
    }

    fn top(&self) -> (frame: QueryFrame)
        requires
            self@.frames.len() > 0,
        ensures
            frame == self@.top(),
    {
        self.frames[self.frames.len() - 1]
    }

    fn set_top(&mut self, top: QueryFrame)
        requires
            old(self)@.frames.len() > 0,
        ensures
            final(self)@ == old(self)@.with_top(top),
            final(self)@.frames.len() > 0,
    {
        let n = self.frames.len();
        self.frames[n - 1] = top;
        self.sign = QuerySign::Nothing;
        self.sound = self.sound && !(top.bracket == QueryBracket::Predicate && top.strict);
        assert(self.frames@ =~= old(self).frames@.drop_last().push(top));
    }

    fn open(&mut self, bracket: QueryBracket)
        requires
            old(self)@.frames.len() > 0,
        ensures
            final(self)@ == old(self)@.opened(bracket),
            final(self)@.frames.len() > 0,
    {
        let n = self.frames.len();
        let around = self.top().settle(QueryBracket::Group);
        let strict = around.bracket == QueryBracket::Choice || around.label;
        self.frames[n - 1] = around;
        self.frames.push(QueryFrame::new(bracket, strict, count(around.depth, NESTING)));
        self.sign = QuerySign::Nothing;
        self.sound = self.sound && around.depth < NESTING;
        assert(self.frames@ =~= old(self).frames@.drop_last().push(around).push(
            QueryFrame::empty(bracket, strict, counted(around.depth, NESTING)),
        ));
    }

    fn close(&mut self, item: QueryItem)
        requires
            old(self)@.frames.len() > 0,
        ensures
            final(self)@ == old(self)@.closed(item),
            final(self)@.frames.len() > 0,
    {
        let n = self.frames.len();
        if n > 1 {
            self.frames.pop();
            let outer = self.frames[n - 2].add_item(item);
            self.frames[n - 2] = outer;
            self.sign = QuerySign::Nothing;
            assert(self.frames@ =~= old(self).frames@.drop_last().drop_last().push(outer));
        }
    }

    fn end_word(&mut self)
        requires
            old(self)@.frames.len() > 0,
        ensures
            final(self)@ == old(self)@.word_ended(),
            final(self)@.frames.len() > 0,
    {
        if self.word != QueryWord::Empty {
            let bracket = if self.word == QueryWord::Marked {
                QueryBracket::Predicate
            } else {
                QueryBracket::Named
            };
            let top = self.top().settle(bracket);
            self.set_top(top);
            self.word = QueryWord::Empty;
        }
    }

    fn quantify(&mut self, optional: bool)
        requires
            old(self)@.frames.len() > 0,
        ensures
            final(self)@ == old(self)@.quantified(optional),
            final(self)@.frames.len() > 0,
    {
        let mut top = self.top();
        if top.has_patterns() {
            if top.item == QueryItem::Optional {
                self.sound = false;
            } else if top.item == QueryItem::Fixed && optional {
                top.item = QueryItem::Optional;
                self.set_top(top);
            }
        }
    }

    fn anchor(&mut self)
        requires
            old(self)@.frames.len() > 0,
        ensures
            final(self)@ == old(self)@.anchored(),
            final(self)@.frames.len() > 0,
    {
        let mut top = self.top();
        if top.bracket == QueryBracket::Fresh {
            self.set_top(top.settle(QueryBracket::Predicate));
        } else if top.has_patterns() {
            if top.item == QueryItem::Predicate {
                top.item = QueryItem::Anchored;
                self.set_top(top);
            } else {
                self.set_top(top.add_item(QueryItem::Nothing));
            }
        }
    }

    fn read_mark(&mut self, c: char)
        requires
            old(self)@.frames.len() > 0,
        ensures
            final(self)@ == old(self)@.marked(c),
            final(self)@.frames.len() > 0,
    {
        let top = self.top();
        match c {
            '"' => {
                self.set_top(top.settle(QueryBracket::Group));
                self.mode = QueryMode::Quoted;
            },
            ';' => {
                self.mode = QueryMode::Comment;
            },
            '(' => self.open(QueryBracket::Fresh),
            '[' => self.open(QueryBracket::Choice),
            ')' => {
                self.sound = self.sound && (self.frames.len() == 1 || top.can_close());
                self.close(top.close());
            },
            ']' => self.close(top.item),
            '*' | '?' => self.quantify(true),
            '+' => self.quantify(false),
            '.' => self.anchor(),
            '#' => self.set_top(top.settle(QueryBracket::Predicate)),
            ':' => {
                self.set_top(top.add_label());
                self.sound = self.sound && top.depth < NESTING;
            },
            '@' => {
                self.sign = QuerySign::Capture;
            },
            '!' => {
                self.sign = QuerySign::Negation;
            },
            '/' => {
                self.sign = QuerySign::Subtype;
            },
            _ => {},
        }
    }

    fn add_part(&mut self)
        ensures
            final(self)@ == old(self)@.one_more(),
    {
        self.sound = self.sound && self.parts < QUERY_PARTS;
        self.parts = count(self.parts, QUERY_PARTS);
    }

    fn read_code(&mut self, c: char)
        requires
            old(self)@.frames.len() > 0,
        ensures
            final(self)@ == old(self)@.in_code(c),
            final(self)@.frames.len() > 0,
    {
        let top = self.top();
        if c > '\u{7f}' {
            self.sound = false;
        } else if c == '_' && self.word == QueryWord::Empty && self.sign == QuerySign::Nothing
            && top.has_patterns() {
            self.add_part();
            self.set_top(top.add_item(QueryItem::Fixed));
        } else if in_name(c) && self.word == QueryWord::Empty {
            self.add_part();
            self.word = QueryWord::Plain;
        } else if self.word != QueryWord::Empty && in_word(c) {
            self.word = if c == '?' || c == '!' {
                QueryWord::Marked
            } else if c != '.' && self.word == QueryWord::Plain {
                QueryWord::Plain
            } else {
                QueryWord::Mixed
            };
        } else {
            if !(c == ' ' || ('\t' <= c && c <= '\r') || c == ';') {
                self.add_part();
            }
            self.end_word();
            self.read_mark(c);
        }
    }

    fn read_string(&mut self, c: char)
        requires
            old(self)@.frames.len() > 0,
        ensures
            final(self)@ == old(self)@.in_string(c),
            final(self)@.frames.len() > 0,
    {
        let top = self.top();
        let escaped = self.mode == QueryMode::Escaped;
        if escaped || (c != '\\' && c != '"') {
            let null = c == '\0' || (escaped && c == '0');
            self.sound = self.sound && (!null || top.bracket == QueryBracket::Predicate);
        }
        if escaped {
            self.mode = QueryMode::Quoted;
        } else if c == '\\' {
            self.mode = QueryMode::Escaped;
        } else if c == '"' {
            if top.has_patterns() {
                self.set_top(top.add_item(QueryItem::Fixed));
            }
            self.mode = QueryMode::Code;
        }
    }

    fn read(&mut self, c: char)
        requires
            old(self)@.frames.len() > 0,
        ensures
            final(self)@ == old(self)@.next(c),
            final(self)@.frames.len() > 0,
    {
        match self.mode {
            QueryMode::Code => self.read_code(c),
            QueryMode::Comment => {
                if c == '\n' {
                    self.mode = QueryMode::Code;
                }
            },
            _ => self.read_string(c),
        }
    }
}

fn count(n: usize, most: usize) -> (next: usize)
    ensures
        next == counted(n, most),
{
    if n < most {
        n + 1
    } else {
        n
    }
}

fn in_word(c: char) -> (yes: bool)
    ensures
        yes == continues_word(c),
{
    in_name(c) || c == '.' || c == '?' || c == '!'
}

fn in_name(c: char) -> (yes: bool)
    ensures
        yes == is_name_char(c),
{
    ('a' <= c && c <= 'z') || ('A' <= c && c <= 'Z') || ('0' <= c && c <= '9') || c == '_' || c
        == '-'
}

fn scan_query(sexpr: &str) -> (scanner: QueryScanner)
    ensures
        scanner@ == query_scan(sexpr@),
        scanner@.frames.len() > 0,
{
    let mut scanner = QueryScanner::new();
    assert(sexpr@.take(0) == Seq::<char>::empty());
    for c in it: sexpr.chars()
        invariant
            it.seq() == sexpr@,
            scanner@ == query_scan(sexpr@.take(it.index())),
            scanner@.frames.len() > 0,
    {
        assert(sexpr@.take(it.index() + 1).drop_last() == sexpr@.take(it.index()));
        scanner.read(c);
    }
    assert(sexpr@.take(sexpr@.len() as int) == sexpr@);
    scanner
}

proof fn lemma_last_name(text: Seq<char>, from: int)
    requires
        0 <= from <= text.len(),
        from > 0 ==> !is_name_char(text[from - 1]),
        forall|i: int| from <= i < text.len() ==> is_name_char(#[trigger] text[i]),
    ensures
        last_name(text) == text.skip(from),
    decreases text.len(),
{
    if from < text.len() {
        assert(is_name_char(text[text.len() - 1]));
        lemma_last_name(text.drop_last(), from);
        assert(text.drop_last().skip(from).push(text.last()) =~= text.skip(from));
    } else {
        assert(text.skip(from) =~= seq![]);
    }
}

/// Cuts off the name that a text ends in.
fn cut_last_name(text: &str) -> (name: &str)
    ensures
        name@ == last_name(text@),
        forall|i: int| 0 <= i < name@.len() ==> is_name_char(#[trigger] name@[i]),
{
    let n = text.unicode_len();
    let mut from: usize = n;
    while from > 0 && in_name(text.get_char(from - 1))
        invariant
            from <= n == text@.len(),
            forall|i: int| from <= i < n ==> is_name_char(#[trigger] text@[i]),
        decreases from,
    {
        from = from - 1;
    }
    proof {
        lemma_last_name(text@, from as int);
    }
    text.substring_char(from, n)
}

/// A name is plain text without null characters.
proof fn lemma_name_is_plain(name: Seq<char>)
    requires
        forall|i: int| 0 <= i < name.len() ==> is_name_char(#[trigger] name[i]),
    ensures
        !name.contains('\0'),
        encode_utf8(name).len() == name.len(),
{
    assert(vstd::utf8::is_ascii_chars(name)) by {
        assert forall|i: int| 0 <= i < name.len() implies '\0' <= #[trigger] name[i] <= '\u{7f}' by {
            assert(is_name_char(name[i]));
        }
    }
    vstd::utf8::is_ascii_chars_encode_utf8(name);
}

/// Whether a pattern is captured under the name.
fn has_capture(sexpr: &str, name: &str) -> (yes: bool)
    ensures
        yes == captures(sexpr@, name@),
{
    let n = sexpr.unicode_len();
    let mut scanner = QueryScanner::new();
    let mut at: usize = 0;
    assert(sexpr@.take(0) == Seq::<char>::empty());
    for c in it: sexpr.chars()
        invariant
            it.seq() == sexpr@,
            at == it.index(),
            n == sexpr@.len(),
            scanner@ == query_scan(sexpr@.take(it.index())),
            scanner@.frames.len() > 0,
            forall|i: int| 0 <= i < it.index() ==> !captures_at(sexpr@, i, name@),
    {
        assert(sexpr@.take(it.index() + 1).drop_last() == sexpr@.take(it.index()));
        if scanner.mode == QueryMode::Code && scanner.word == QueryWord::Plain && scanner.sign
            == QuerySign::Capture && scanner.top().has_patterns() && !in_word(c) {
            let head = sexpr.substring_char(0, at);
            assert(head@ =~= sexpr@.take(at as int));
            if same_text(cut_last_name(head), name) {
                assert(captures_at(sexpr@, at as int, name@));
                return true;
            }
        }
        scanner.read(c);
        at = at + 1;
    }
    false
}

/// Whether a text can be handed to `ts_query`.
pub fn can_compile(sexpr: &str, cpp: bool, grammars: &Grammars) -> (yes: bool)
    ensures
        yes == compilable(grammars.choice(cpp), sexpr@),
{
    if sexpr.as_bytes().len() > u32::MAX as usize {
        return false;
    }
    let scanner = scan_query(sexpr);
    if !scanner.sound {
        return false;
    }
    if scanner.mode != QueryMode::Code || scanner.word != QueryWord::Plain {
        return true;
    }
    let language = grammars.choose_grammar(cpp);
    let name = cut_last_name(sexpr);
    let bracket = scanner.top().bracket;
    proof {
        lemma_chars_at_most_bytes(sexpr@);
        lemma_last_name_is_short(sexpr@);
        lemma_name_is_plain(name@);
    }
    if scanner.sign == QuerySign::Subtype {
        language.id_for_node_kind(name, true) != 0
    } else if bracket == QueryBracket::Fresh {
        same_text(name, "_") || language.id_for_node_kind(name, true) != 0
    } else if scanner.sign == QuerySign::Negation && bracket == QueryBracket::Named {
        find_field(&language, name).is_some()
    } else if scanner.sign == QuerySign::Capture && bracket == QueryBracket::Predicate {
        has_capture(sexpr, name)
    } else {
        true
    }
}

proof fn lemma_last_name_is_short(text: Seq<char>)
    ensures
        last_name(text).len() <= text.len(),
    decreases text.len(),
{
    if text.len() > 0 {
        lemma_last_name_is_short(text.drop_last());
    }
}

/// Why a tree query could not be made.
#[derive(Debug)]
pub struct QueryFailure {
    /// The kind of the error.
    pub kind: String,
    /// What is wrong.
    pub message: String,
    /// The text that was to be compiled.
    pub sexpr: String,
}

impl QueryFailure {
    /// The lines that tell of the failure.
    pub open spec fn report_text(self) -> Seq<char> {
        "Tree sitter query generation failed: "@ + self.kind@ + "\n "@ + self.message@
            + "\nsexpr: "@ + self.sexpr@ + "\nThis is a bug! Can't recover :/\n"@
    }

    /// Tells of the failure.
    pub fn report(&self) -> (text: String)
        ensures
            text@ == self.report_text(),
    {
        let mut text = "Tree sitter query generation failed: ".to_owned();
        text.append(self.kind.as_str());
        text.append("\n ");
        text.append(self.message.as_str());
        text.append("\nsexpr: ");
        text.append(self.sexpr.as_str());
        text.append("\nThis is a bug! Can't recover :/\n");
        text
    }
}

/// Makes a tree query for C or for C++.
pub fn ts_query(sexpr: &str, cpp: bool, grammars: &Grammars) -> (query: Result<
    Query,
    QueryFailure,
>)
    requires
        compilable(grammars.choice(cpp), sexpr@),
    ensures
        match query_outcome(grammars.choice(cpp), sexpr@) {
            Ok(content) => query is Ok && query_content(query->Ok_0) == content,
            Err(e) => {
                &&& query is Err
                &&& query->Err_0.kind@ == e.0
                &&& query->Err_0.message@ == e.1
                &&& query->Err_0.sexpr@ == sexpr@
            },
        },
{
    match compile_query(grammars.choose_grammar(cpp), sexpr) {
        Ok(q) => Ok(q),
        Err((kind, message)) => Err(QueryFailure { kind, message, sexpr: sexpr.to_owned() }),
    }
}

/// The report of a failure quotes the kind of the error, its message and the text, in full.
pub proof fn reports_quote_the_failure(failure: QueryFailure)
    ensures
        failure.report_text() == "Tree sitter query generation failed: "@ + failure.kind@ + "\n "@
            + failure.message@ + "\nsexpr: "@ + failure.sexpr@
            + "\nThis is a bug! Can't recover :/\n"@,
{
}

/// A quantifier may stand behind a pattern exactly if the pattern cannot be passed over yet. Behind
/// an asterisk or a question mark it can.
pub proof fn quantifiers_follow_fixed_patterns(scan: QueryScan, c: char)
    requires
        c == '*' || c == '?' || c == '+',
        scan.mode == QueryMode::Code,
        scan.word == QueryWord::Empty,
        scan.frames.len() > 0,
        scan.parts < QUERY_PARTS,
        scan.top().holds_patterns(),
        scan.top().item == QueryItem::Fixed || scan.top().item == QueryItem::Optional,
    ensures
        scan.next(c).sound == (scan.sound && scan.top().item == QueryItem::Fixed),
        scan.top().item == QueryItem::Fixed ==> scan.next(c).top().item == if c == '+' {
            QueryItem::Fixed
        } else {
            QueryItem::Optional
        },
{
}

} // verus!
