//! Syntax trees from the tree-sitter parser for Rust.
//!
//! The parser and the tree it hands out are not verified. What is assumed
//! of them stands in the contracts of `parse_rust`, `node_count`,
//! `open_cursor` and `record_at`; everything else in this module is proved
//! from those.
//!
//! The grammar's scanner asks the C library which characters are letters,
//! digits and spaces, and the answer for a character beyond ASCII goes by
//! the locale of the process. So only of a text of ASCII characters is the
//! tree said to depend on the text alone.

use crate::syntax::{
    assemble, is_listing, records_view, tree_of, NodeRecord, NodeView, RecordView, SyntaxNode,
};
use vstd::prelude::*;
use vstd::utf8::is_ascii_chars;

verus! {

/// Why no syntax tree came out of a source text.
#[derive(Debug, Clone, Copy, PartialEq, Eq, Structural)]
pub enum AnalysisError {
    /// The parser did not accept the grammar of the language.
    GrammarLoad,
    /// The parser gave no tree for the text.
    Parse,
}

impl AnalysisError {
    /// The stage that failed, in words.
    pub fn message(&self) -> (text: &'static str)
        ensures
            text@ == match *self {
                AnalysisError::GrammarLoad => "Failed to load Rust grammar"@,
                AnalysisError::Parse => "Failed to parse source code"@,
            },
    {
        match self {
            AnalysisError::GrammarLoad => "Failed to load Rust grammar",
            AnalysisError::Parse => "Failed to parse source code",
        }
    }
}

/// A syntax tree of the tree-sitter parser.
#[verifier::external_type_specification]
#[verifier::external_body]
pub struct ExTree(tree_sitter::Tree);

/// The error with which the tree-sitter parser refuses a grammar.
#[verifier::external_type_specification]
#[verifier::external_body]
pub struct ExLanguageError(tree_sitter::LanguageError);

/// A cursor of the tree-sitter parser, which walks the nodes of a tree.
#[verifier::external_type_specification]
#[verifier::external_body]
pub struct ExTreeCursor<'cursor>(tree_sitter::TreeCursor<'cursor>);

/// What the parser makes of a source text.
pub enum Parsed {
    /// The parser did not accept the grammar of the language.
    GrammarRefused,
    /// The parser gave no tree.
    NoTree,
    /// The parser gave a tree with these nodes.
    Nodes(Seq<RecordView>),
}

/// The nodes of a tree of the parser, in the order of their descendant
/// index: the root first, each node before its children, the children in
/// source order. Each node stands with its kind, the field name under which
/// its parent holds it, its byte range and the number of nodes above it.
pub uninterp spec fn tree_nodes(tree: tree_sitter::Tree) -> Seq<RecordView>;

/// The nodes of the tree that a cursor walks, in the same order and form.
/// Moving the cursor does not change them.
pub uninterp spec fn cursor_nodes(cursor: tree_sitter::TreeCursor) -> Seq<RecordView>;

/// What a new tree-sitter parser with the grammar of Rust makes of a source
/// text of ASCII characters. Of a text with other characters the name says
/// nothing: no contract applies it to one.
pub uninterp spec fn rust_syntax(code: Seq<char>) -> Parsed;

/// Parses `code` with a new parser for Rust: `Parser::new`, then
/// `Parser::set_language` with `tree_sitter_rust::LANGUAGE`, then
/// `Parser::parse` without an earlier tree. The contract claims that the
/// outcome for a text of ASCII characters depends on the text alone, and
/// gives that outcome its name: the error of `set_language`, the missing
/// tree of `parse`, or the nodes of the tree. Of the outcome for any other
/// text it claims nothing.
#[verifier::external_body]
fn parse_rust(code: &str) -> (outcome: Result<
    Option<tree_sitter::Tree>,
    tree_sitter::LanguageError,
>)
    ensures
        is_ascii_chars(code@) ==> match outcome {
            Ok(Some(tree)) => rust_syntax(code@) == Parsed::Nodes(tree_nodes(tree)),
            Ok(None) => rust_syntax(code@) == Parsed::NoTree,
            Err(_) => rust_syntax(code@) == Parsed::GrammarRefused,
        },
{
    let mut parser = tree_sitter::Parser::new();
    parser.set_language(&tree_sitter_rust::LANGUAGE.into())?;
    Ok(parser.parse(code, None))
}

/// The number of nodes of a tree: `Node::descendant_count` of
/// `Tree::root_node`, which counts the root and all that lies below it.
#[verifier::external_body]
fn node_count(tree: &tree_sitter::Tree) -> (count: usize)
    ensures
        count == tree_nodes(*tree).len(),
{
    tree.root_node().descendant_count()
}

/// A cursor on the root of a tree: `Tree::walk`. The cursor walks the nodes
/// of that tree.
#[verifier::external_body]
fn open_cursor<'tree>(tree: &'tree tree_sitter::Tree) -> (cursor: tree_sitter::TreeCursor<'tree>)
    ensures
        cursor_nodes(cursor) == tree_nodes(*tree),
{
    tree.walk()
}

/// The node with the descendant index `index`: the cursor is moved there
/// with `TreeCursor::goto_descendant`, and the record holds what
/// `Node::kind`, `TreeCursor::field_name`, `Node::start_byte`,
/// `Node::end_byte` and `TreeCursor::depth` say of the node it then stands
/// on. The cursor stays on the same tree.
#[verifier::external_body]
fn record_at(cursor: &mut tree_sitter::TreeCursor, index: usize) -> (record: NodeRecord)
    ensures
        cursor_nodes(*final(cursor)) == cursor_nodes(*old(cursor)),
        index < cursor_nodes(*old(cursor)).len() ==> record@ == cursor_nodes(
            *old(cursor),
        )[index as int],
{
    cursor.goto_descendant(index);
    let node = cursor.node();
    NodeRecord {
        kind: node.kind().to_string(),
        field: cursor.field_name().map(|name| name.to_string()),
        start: node.start_byte(),
        end: node.end_byte(),
        depth: cursor.depth(),
    }
}

/// The nodes of a tree of the parser, as records.
fn read_nodes(tree: &tree_sitter::Tree) -> (records: Vec<NodeRecord>)
    ensures
        records_view(records@) == tree_nodes(*tree),
{
    let count = node_count(tree);
    let mut cursor = open_cursor(tree);
    let mut records: Vec<NodeRecord> = Vec::new();
    let mut index: usize = 0;
    while index < count
        invariant
            index <= count,
            count == tree_nodes(*tree).len(),
            cursor_nodes(cursor) == tree_nodes(*tree),
            records@.len() == index,
            forall|at: int| 0 <= at < index ==> (#[trigger] records@[at])@ == tree_nodes(*tree)[at],
        decreases count - index,
    {
        let record = record_at(&mut cursor, index);
        records.push(record);
        index = index + 1;
    }
    assert(records_view(records@) =~= tree_nodes(*tree));
    records
}

/// The syntax tree of a source text of ASCII characters: the tree whose
/// records are the nodes that the parser gives. There is none where the
/// parser refuses the grammar, gives no tree, or gives nodes that are not
/// the records of a tree.
pub open spec fn parsed_tree(code: Seq<char>) -> Result<NodeView, AnalysisError> {
    match rust_syntax(code) {
        Parsed::GrammarRefused => Err(AnalysisError::GrammarLoad),
        Parsed::NoTree => Err(AnalysisError::Parse),
        Parsed::Nodes(records) => if is_listing(records) {
            Ok(tree_of(records))
        } else {
            Err(AnalysisError::Parse)
        },
    }
}

/// Parses `code` as Rust and hands out its syntax tree. For a text of ASCII
/// characters the outcome is the one that the text has. For a text with
/// other characters the parser may go by the locale of the process, and
/// nothing is said of the tree.
///
/// The tree is built by one call within the other for each level of
/// nesting, so a text that nests deeper than the stack of the thread has
/// room for ends the process.
pub fn syntax_tree(code: &str) -> (tree: Result<SyntaxNode, AnalysisError>)
    ensures
        is_ascii_chars(code@) ==> match tree {
            Ok(root) => parsed_tree(code@) == Ok::<NodeView, AnalysisError>(root@),
            Err(failure) => parsed_tree(code@) == Err::<NodeView, AnalysisError>(failure),
        },
{
    match parse_rust(code) {
        Err(_) => Err(AnalysisError::GrammarLoad),
        Ok(None) => Err(AnalysisError::Parse),
        Ok(Some(tree)) => {
            let records = read_nodes(&tree);
            match assemble(&records) {
                Some(root) => Ok(root),
                None => Err(AnalysisError::Parse),
            }
        },
    }
}

} // verus!
