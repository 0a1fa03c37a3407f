//! Syntax trees as plain values, and the calls into tree-sitter that produce them.
use tree_sitter::{Language, LanguageError, Node, Parser, Tree};
use vstd::prelude::*;
use vstd::utf8::{encode_utf8, is_ascii_chars};

verus! {

/// A grammar that tree-sitter can parse with.
#[verifier::external_type_specification]
#[verifier::external_body]
pub struct ExLanguage(tree_sitter::Language);

/// What tree-sitter reports for a grammar that it cannot use.
#[verifier::external_type_specification]
#[verifier::external_body]
pub struct ExLanguageError(tree_sitter::LanguageError);

/// A parsed text.
#[verifier::external_type_specification]
#[verifier::external_body]
pub struct ExTree(tree_sitter::Tree);

/// One node of a parsed text.
#[verifier::external_type_specification]
#[verifier::external_body]
pub struct ExNode<'a>(tree_sitter::Node<'a>);

/// What a node of a syntax tree says about itself and about what is below it.
pub struct Syntax {
    pub kind: Seq<char>,
    pub has_error: bool,
    pub is_error: bool,
    pub is_missing: bool,
    pub start_byte: nat,
    pub end_byte: nat,
    pub named_child_count: nat,
    pub children: Seq<Syntax>,
}

/// A node of a syntax tree, with copies of all that is below it.
#[derive(Debug)]
pub struct SyntaxNode {
    /// The name of the grammar rule.
    pub kind: String,
    /// The node is a syntax error or has one somewhere below it.
    pub has_error: bool,
    /// The node stands for text that fits nowhere.
    pub is_error: bool,
    /// The node stands for a token that was put in to go on after an error.
    pub is_missing: bool,
    /// Where the node's text begins.
    pub start_byte: usize,
    /// Where the node's text ends.
    pub end_byte: usize,
    /// How many of the children stand for a named rule.
    pub named_child_count: usize,
    /// The children, named or not, in the order of the text.
    pub children: Vec<SyntaxNode>,
}

impl SyntaxNode {
    /// The node as a mathematical value.
    pub open spec fn view(&self) -> Syntax
        decreases self,
    {
        Syntax {
            kind: self.kind@,
            has_error: self.has_error,
            is_error: self.is_error,
            is_missing: self.is_missing,
            start_byte: self.start_byte as nat,
            end_byte: self.end_byte as nat,
            named_child_count: self.named_child_count as nat,
            children: Seq::new(
                self.children@.len(),
                |i: int|
                    if 0 <= i < self.children@.len() {
                        self.children@[i].view()
                    } else {
                        arbitrary()
                    },
            ),
        }
    }
}

/// What a node of tree-sitter holds: its own properties and those of all that is below it.
pub uninterp spec fn node_syntax(node: Node<'_>) -> Syntax;

/// What the root of a tree of tree-sitter holds.
pub uninterp spec fn tree_syntax(tree: Tree) -> Syntax;

/// The syntax tree that tree-sitter finds for `source` with the grammar `language`. A grammar may
/// ask the C library about characters; `setting` stands for what the answers depend on, its locale
/// and the width of its wide characters.
pub uninterp spec fn parsed_syntax(language: Language, source: Seq<char>, setting: nat) -> Syntax;

/// `syntax` is what tree-sitter may find for `source`: the tree in some setting. In ASCII text
/// nothing depends on the setting.
pub open spec fn may_read(language: Language, source: Seq<char>, syntax: Syntax) -> bool {
    &&& exists|setting: nat| syntax == #[trigger] parsed_syntax(language, source, setting)
    &&& is_ascii_chars(source) ==> forall|setting: nat|
        syntax == #[trigger] parsed_syntax(language, source, setting)
}

/// What tree-sitter says to a grammar: it can be used, or its format is not supported.
pub uninterp spec fn language_check(language: Language) -> Result<(), LanguageError>;

/// `Tree::root_node` gives the root of the tree.
pub assume_specification[ Tree::root_node ](tree: &Tree) -> (node: Node<'_>)
    ensures
        node_syntax(node) == tree_syntax(*tree),
;

/// `Node::kind` gives the name of the node's rule. The grammar keeps the names as UTF-8.
pub assume_specification<'tree>[ Node::<'tree>::kind ](node: &Node<'tree>) -> (kind: &'static str)
    ensures
        kind@ == node_syntax(*node).kind,
;

/// `Node::has_error` tells whether the node is, or has below it, a syntax error.
pub assume_specification<'tree>[ Node::<'tree>::has_error ](node: &Node<'tree>) -> (yes: bool)
    ensures
        yes == node_syntax(*node).has_error,
;

/// `Node::is_error` tells whether the node itself is a syntax error.
pub assume_specification<'tree>[ Node::<'tree>::is_error ](node: &Node<'tree>) -> (yes: bool)
    ensures
        yes == node_syntax(*node).is_error,
;

/// `Node::is_missing` tells whether the parser put the node in.
pub assume_specification<'tree>[ Node::<'tree>::is_missing ](node: &Node<'tree>) -> (yes: bool)
    ensures
        yes == node_syntax(*node).is_missing,
;

/// `Node::start_byte` gives the offset at which the node begins.
pub assume_specification<'tree>[ Node::<'tree>::start_byte ](node: &Node<'tree>) -> (at: usize)
    ensures
        at == node_syntax(*node).start_byte,
;

/// `Node::end_byte` gives the offset at which the node ends.
pub assume_specification<'tree>[ Node::<'tree>::end_byte ](node: &Node<'tree>) -> (at: usize)
    ensures
        at == node_syntax(*node).end_byte,
;

/// `Node::named_child_count` counts the children that stand for a named rule.
pub assume_specification<'tree>[ Node::<'tree>::named_child_count ](node: &Node<'tree>) -> (n:
    usize)
    ensures
        n == node_syntax(*node).named_child_count,
;

/// `Node::child_count` counts the children.
pub assume_specification<'tree>[ Node::<'tree>::child_count ](node: &Node<'tree>) -> (n: usize)
    ensures
        n == node_syntax(*node).children.len(),
;

/// `Node::child` gives the child with the given index. Nothing is claimed of an index that is
/// too large.
pub assume_specification<'tree>[ Node::<'tree>::child ](node: &Node<'tree>, i: usize) -> (child:
    Option<Node<'tree>>)
    ensures
        i < node_syntax(*node).children.len() ==> child is Some && node_syntax(child->Some_0)
            == node_syntax(*node).children[i as int],
;

/// Gives a new `Parser` the grammar with `Parser::set_language` and hands it the text with
/// `Parser::parse`. The first fails for a grammar whose format is not supported. The second then
/// gives a tree, since the parser has a grammar, no time limit and no way to be cancelled. The
/// tree depends on the grammar, on the text and, where the text is not ASCII, on what the C library
/// says of its characters; which tree comes out there is left open. Offsets are kept in 32 bits,
/// which bounds the text.
#[verifier::external_body]
fn parse_with(language: Language, source: &str) -> (tree: Result<Tree, LanguageError>)
    requires
        encode_utf8(source@).len() <= u32::MAX,
    ensures
        match language_check(language) {
            Ok(_) => {
                &&& tree is Ok
                &&& exists|setting: nat|
                    tree_syntax(tree->Ok_0) == #[trigger] parsed_syntax(language, source@, setting)
                &&& is_ascii_chars(source@) ==> forall|setting: nat|
                    tree_syntax(tree->Ok_0) == #[trigger] parsed_syntax(language, source@, setting)
            },
            Err(e) => tree == Err::<Tree, LanguageError>(e),
        },
{
    let mut parser = Parser::new();
    match parser.set_language(language) {
        Ok(()) => Ok(parser.parse(source, None).unwrap()),
        Err(e) => Err(e),
    }
}

/// Reads a node and all that is below it.
pub fn read_node(node: Node<'_>) -> (out: SyntaxNode)
    ensures
        out@ == node_syntax(node),
    decreases node_syntax(node),
{
    let n = node.child_count();
    let mut children: Vec<SyntaxNode> = Vec::new();
    let mut i: usize = 0;
    while i < n
        invariant
            i <= n,
            n == node_syntax(node).children.len(),
            children@.len() == i,
            forall|j: int|
                0 <= j < i ==> (#[trigger] children@[j])@ == node_syntax(node).children[j],
        decreases n - i,
    {
        let child = node.child(i);
        assert(decreases_to!(node_syntax(node) => node_syntax(node).children[i as int]));
        let child_node = child.unwrap();
        children.push(read_node(child_node));
        i = i + 1;
    }
    let out = SyntaxNode {
        kind: node.kind().to_owned(),
        has_error: node.has_error(),
        is_error: node.is_error(),
        is_missing: node.is_missing(),
        start_byte: node.start_byte(),
        end_byte: node.end_byte(),
        named_child_count: node.named_child_count(),
        children,
    };
    assert(out@.children =~= node_syntax(node).children);
    out
}

/// The grammars to choose from.
#[derive(Clone, Copy)]
pub struct Grammars {
    /// The grammar for C.
    pub c: Language,
    /// The grammar for C++.
    pub cpp: Language,
}

impl Grammars {
    /// The grammar for C++ or for C.
    pub open spec fn choice(self, cpp: bool) -> Language {
        if cpp {
            self.cpp
        } else {
            self.c
        }
    }

    /// The grammar for C++ or for C.
    pub fn choose_grammar(&self, cpp: bool) -> (language: Language)
        ensures
            language == self.choice(cpp),
    {
        if !cpp {
            self.c
        } else {
            self.cpp
        }
    }
}

/// Parses `source` as C or as C++. The tree may hold errors; there is none only when the grammar
/// itself cannot be used.
pub fn parse(source: &str, cpp: bool, grammars: &Grammars) -> (tree: Result<Tree, LanguageError>)
    requires
        encode_utf8(source@).len() <= u32::MAX,
    ensures
        match language_check(grammars.choice(cpp)) {
            Ok(_) => tree is Ok && may_read(
                grammars.choice(cpp),
                source@,
                tree_syntax(tree->Ok_0),
            ),
            Err(e) => tree == Err::<Tree, LanguageError>(e),
        },
{
    parse_with(grammars.choose_grammar(cpp), source)
}

/// Each language has its own grammar.
pub proof fn each_language_has_its_grammar(grammars: Grammars)
    ensures
        grammars.choice(true) == grammars.cpp,
        grammars.choice(false) == grammars.c,
{
}

/// A node says as a mathematical value what its fields say.
pub proof fn nodes_say_what_they_hold(node: SyntaxNode)
    ensures
        node@.kind == node.kind@,
        node@.has_error == node.has_error,
        node@.is_error == node.is_error,
        node@.is_missing == node.is_missing,
        node@.start_byte == node.start_byte,
        node@.end_byte == node.end_byte,
        node@.named_child_count == node.named_child_count,
        node@.children.len() == node.children@.len(),
        forall|i: int|
            0 <= i < node.children@.len() ==> #[trigger] node@.children[i] == node.children@[i]@,
{
}

} // verus!
