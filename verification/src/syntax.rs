//! The parser and query engine that the library drives, and what it reads of
//! their results.
use vstd::prelude::*;
use crate::edit::{describes, splice, InputEdit, Range};
use crate::text::{same_text, texts};
use tree_sitter::{Language, LanguageError, Parser, Query, QueryCursor, QueryError, Tree};
use tree_sitter_traversal::{traverse, Order};

verus! {
/// `Parser` of tree-sitter: the state of a parser. Nothing is read of it.
#[verifier::external_type_specification]
#[verifier::external_body]
pub struct ExParser(tree_sitter::Parser);

/// `Tree` of tree-sitter: a syntax tree. What is read of it goes by
/// `tree_nodes`, `tree_text` and `tree_language`.
#[verifier::external_type_specification]
#[verifier::external_body]
pub struct ExTree(tree_sitter::Tree);

/// `Language` of tree-sitter: a grammar. Nothing is read of it.
#[verifier::external_type_specification]
#[verifier::external_body]
pub struct ExLanguage(tree_sitter::Language);

/// `Query` of tree-sitter: a compiled query. What is read of it goes by
/// `query_language` and `query_text`.
#[verifier::external_type_specification]
#[verifier::external_body]
pub struct ExQuery(tree_sitter::Query);

/// `LanguageError` of tree-sitter. Nothing is read of it.
#[verifier::external_type_specification]
#[verifier::external_body]
pub struct ExLanguageError(tree_sitter::LanguageError);

/// `QueryError` of tree-sitter. Nothing is read of it.
#[verifier::external_type_specification]
#[verifier::external_body]
pub struct ExQueryError(tree_sitter::QueryError);

/// What the library reads of one node of a syntax tree.
#[derive(Clone, Copy, Debug, PartialEq, Eq, Structural)]
pub struct SyntaxNode {
    /// The number that tells this node from every other node of its tree.
    pub id: usize,
    /// The number of the node directly above, if there is one.
    pub parent: Option<usize>,
    /// The bytes of the text that the node covers.
    pub range: Range,
    /// The grammar does not require the node where it stands.
    pub is_extra: bool,
    /// The node stands for text that fits nowhere in the grammar.
    pub is_error: bool,
    /// The node is, or holds somewhere below it, a syntax error.
    pub has_error: bool,
}

/// One node that a query captured: the position of the capture's name among
/// the names of the query, and the node.
#[derive(Clone, Copy, Debug, PartialEq, Eq, Structural)]
pub struct Capture {
    pub index: usize,
    pub node_id: usize,
    pub range: Range,
}

/// One way in which a pattern of a query fits the tree.
#[derive(Debug)]
pub struct QueryMatch {
    pub pattern_index: usize,
    pub captures: Vec<Capture>,
}

/// The nodes of a tree, each after the nodes below it, left to right.
pub uninterp spec fn tree_nodes(tree: Tree) -> Seq<SyntaxNode>;

/// The text that a tree was parsed from.
pub uninterp spec fn tree_text(tree: Tree) -> Seq<u8>;

/// For a tree that was edited since the parser handed it out: the text that
/// it stood for before the edit, and the edit.
pub uninterp spec fn tree_edited(tree: Tree) -> Option<(Seq<u8>, InputEdit)>;

/// Whether the root of a tree is, or holds, a syntax error. The root is the
/// last of the nodes, as each node comes after the nodes below it.
pub open spec fn tree_has_error(tree: Tree) -> bool {
    tree_nodes(tree).len() > 0 && tree_nodes(tree).last().has_error
}

/// The grammar that a tree was parsed with.
pub uninterp spec fn tree_language(tree: Tree) -> Language;

/// Whether the text is a query of the language that compiles.
pub uninterp spec fn query_accepts(language: Language, source: Seq<char>) -> bool;

/// The language that a query was compiled for.
pub uninterp spec fn query_language(query: Query) -> Language;

/// The text that a query was compiled from.
pub uninterp spec fn query_text(query: Query) -> Seq<char>;

/// The matches of the query that `source` reads in `language`, among the
/// nodes of a tree that touch the bytes from `start` up to `end`, in the
/// order in which they are found.
pub uninterp spec fn matches_of(
    language: Language,
    source: Seq<char>,
    tree: Tree,
    start: int,
    end: int,
    code: Seq<u8>,
) -> Seq<QueryMatch>;

/// The number of patterns of the query that `source` reads in `language`.
pub uninterp spec fn pattern_count_of(language: Language, source: Seq<char>) -> usize;

/// The names of the captures of the query that `source` reads in
/// `language`, in the order of their indices.
pub uninterp spec fn capture_names_of(language: Language, source: Seq<char>) -> Seq<Seq<char>>;

/// `Parser::new` of tree-sitter: a parser with no language assigned yet.
pub assume_specification[ Parser::new ]() -> (parser: Parser);

/// `Parser::set_language` of tree-sitter. It fails where the grammar was
/// generated for another version of the parsing library; nothing is claimed
/// of when.
pub assume_specification[ Parser::set_language ](parser: &mut Parser, language: Language) -> (r:
    Result<(), LanguageError>);

/// `Query::new` of tree-sitter: compiles the text for the language, or
/// refuses it where it is no query of the language. The same text fares the
/// same way for the same language, and the query remembers both. The text
/// must end in a line feed: the report of an unknown name that runs to the
/// end of the text would cut the text beyond its end.
pub assume_specification[ Query::new ](language: Language, source: &str) -> (r: Result<
    Query,
    QueryError,
>)
    requires
        source@.len() > 0,
        source@.last() == '\n',
    ensures
        r is Ok <==> query_accepts(language, source@),
        r matches Ok(query) ==> query_language(query) == language && query_text(query) == source@,
;

/// `Tree::language` of tree-sitter: the grammar that the tree was parsed with.
pub assume_specification[ Tree::language ](tree: &Tree) -> (language: Language)
    ensures
        language == tree_language(*tree),
;

/// `Query::pattern_count` of tree-sitter: the number of patterns in the
/// query, which its language and its text decide.
pub assume_specification[ Query::pattern_count ](query: &Query) -> (n: usize)
    ensures
        n == pattern_count_of(query_language(*query), query_text(*query)),
;

/// `edit` sums up a replacement of a stretch of `text` by which `code`
/// comes about.
pub open spec fn leads_to(text: Seq<u8>, edit: InputEdit, code: Seq<u8>) -> bool {
    exists|range: Range, replacement: Seq<u8>|
        range.within(text.len() as int) && #[trigger] describes(edit, text, range, replacement)
            && code == splice(text, range.start_byte as int, range.end_byte as int, replacement)
}

/// The tree was edited, and the edit leads from the text that the tree
/// stood for to `code`.
pub open spec fn edited_to(tree: Tree, code: Seq<u8>) -> bool {
    match tree_edited(tree) {
        Some(made) => leads_to(made.0, made.1, code),
        None => false,
    }
}

/// `Parser::parse` of tree-sitter on a whole text. Whether a tree comes back
/// depends on the parser (a language must be assigned); one that does was
/// parsed from `code`. A tree that is handed on must have been edited to
/// match `code`: the parser takes nodes over from it by the marks that the
/// edit has left, without reading the text at them again.
#[verifier::external_body]
pub(crate) fn parse(parser: &mut Parser, code: &[u8], old_tree: Option<&Tree>) -> (r: Option<Tree>)
    requires
        old_tree matches Some(tree) ==> edited_to(*tree, code@),
    ensures
        r matches Some(tree) ==> tree_text(tree) == code@,
{
    parser.parse(code, old_tree)
}

/// The nodes of two trees agree in all but their numbers: in the stretch
/// they cover and in what they say of extras and errors.
pub open spec fn same_shape(a: Seq<SyntaxNode>, b: Seq<SyntaxNode>) -> bool {
    &&& a.len() == b.len()
    &&& forall|i: int|
        0 <= i < a.len() ==> {
            &&& (#[trigger] a[i]).range == b[i].range
            &&& a[i].is_extra == b[i].is_extra
            &&& a[i].is_error == b[i].is_error
            &&& a[i].has_error == b[i].has_error
        }
}

/// `Tree::clone` of tree-sitter: a copy of the tree. It was parsed from the
/// same text with the same language, and its nodes agree with those of the
/// tree in all but their numbers, which a copy does not keep.
pub assume_specification[ <Tree as Clone>::clone ](tree: &Tree) -> (copy: Tree)
    ensures
        tree_text(copy) == tree_text(*tree),
        tree_language(copy) == tree_language(*tree),
        same_shape(tree_nodes(copy), tree_nodes(*tree)),
;

/// `Tree::edit` of tree-sitter: moves the nodes of the tree as the edit says
/// and marks what the edit touched. Of the tree afterwards only this is
/// claimed: it is a tree that stood for the text of the tree before, edited
/// by `edit`.
#[verifier::external_body]
pub(crate) fn edit_tree(tree: &mut Tree, edit: &InputEdit)
    ensures
        tree_edited(*final(tree)) == Some((tree_text(*old(tree)), *edit)),
{
    tree.edit(
        &tree_sitter::InputEdit {
            start_byte: edit.start_byte,
            old_end_byte: edit.old_end_byte,
            new_end_byte: edit.new_end_byte,
            start_position: tree_sitter::Point::new(edit.start_position.row, edit.start_position.column),
            old_end_position: tree_sitter::Point::new(edit.old_end_position.row, edit.old_end_position.column),
            new_end_position: tree_sitter::Point::new(edit.new_end_position.row, edit.new_end_position.column),
        },
    )
}

/// `Node::has_error` of tree-sitter on `Tree::root_node`: whether the root,
/// which is the node that a walk in post order hands out last, is or holds
/// a syntax error.
#[verifier::external_body]
pub(crate) fn root_has_error(tree: &Tree) -> (b: bool)
    ensures
        b == tree_has_error(*tree),
{
    tree.root_node().has_error()
}

/// `traverse` of tree-sitter-traversal in post order over the whole tree,
/// each node handed out as the facts the library reads of it.
#[verifier::external_body]
pub(crate) fn post_order(tree: &Tree) -> (nodes: Vec<SyntaxNode>)
    ensures
        nodes@ == tree_nodes(*tree),
{
    traverse(tree.walk(), Order::Post).map(|n| SyntaxNode {
        id: n.id(),
        parent: n.parent().map(|p| p.id()),
        range: Range { start_byte: n.start_byte(), end_byte: n.end_byte() },
        is_extra: n.is_extra(),
        is_error: n.is_error(),
        has_error: n.has_error(),
    }).collect()
}

/// `Query::capture_names` of tree-sitter: the names of the captures of the
/// query, in the order of their indices, which its language and its text
/// decide.
#[verifier::external_body]
pub(crate) fn capture_names(query: &Query) -> (names: Vec<String>)
    ensures
        texts(names@) == capture_names_of(query_language(*query), query_text(*query)),
{
    query.capture_names().to_vec()
}

/// `QueryCursor::matches` of tree-sitter from the root of the tree, after
/// `QueryCursor::set_byte_range` with the bytes from `start` up to `end`.
/// The language and the text of the query, the tree, the bytes and the
/// code decide what is found. The code must be the text that the tree was
/// parsed from: a predicate of the query reads the code at the bytes of a
/// node.
#[verifier::external_body]
pub(crate) fn query_matches(query: &Query, tree: &Tree, start: usize, end: usize, code: &[u8]) -> (matches: Vec<QueryMatch>)
    requires
        tree_text(*tree) == code@,
    ensures
        matches@ == matches_of(
            query_language(*query),
            query_text(*query),
            *tree,
            start as int,
            end as int,
            code@,
        ),
{
    let mut cursor = QueryCursor::new();
    cursor.set_byte_range(start..end);
    cursor.matches(query, tree.root_node(), code).map(|m| QueryMatch {
        pattern_index: m.pattern_index,
        captures: m.captures.iter().map(|c| Capture {
            index: c.index as usize,
            node_id: c.node.id(),
            range: Range { start_byte: c.node.start_byte(), end_byte: c.node.end_byte() },
        }).collect(),
    }).collect()
}

/// `language` of tree-sitter-java: the grammar of Java.
#[verifier::external_body]
pub(crate) fn java_language() -> (language: Language) {
    tree_sitter_java::language()
}

/// The name of the one language whose grammar is at hand.
pub const JAVA: &'static str = "java";

/// The grammar of the language of the name, where it is at hand.
pub fn language_for(name: &str) -> (r: Option<Language>)
    ensures
        r is Some <==> name@ == JAVA@,
{
    if same_text(name, JAVA) {
        Some(java_language())
    } else {
        None
    }
}
} // verus!
