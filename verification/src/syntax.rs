//! The parser and its queries. Everything here is a thin door to the `tree-sitter`
//! crate: each function hands its arguments to one function of that crate and brings
//! the answer back. What a tree, a node, a cursor or a query answers depends on the
//! value asked alone, so each such answer has a name, and the door says that it gives
//! what the name stands for. A tree remembers the text that it was parsed from, and a
//! query is run on that text only. Nothing else is claimed of the answers; what the
//! library does with them is proved for whatever they are.
use crate::predicate::{Predicate, PredicateArg, Property};
use crate::range::{Point, Range};
use tree_sitter::StreamingIterator;
use vstd::prelude::*;

verus! {

#[verifier::external_type_specification]
#[verifier::external_body]
pub struct ExParser(tree_sitter::Parser);

#[verifier::external_type_specification]
#[verifier::external_body]
pub struct ExLanguage(tree_sitter::Language);

#[verifier::external_type_specification]
#[verifier::external_body]
pub struct ExLanguageError(tree_sitter::LanguageError);

#[verifier::external_type_specification]
#[verifier::external_body]
pub struct ExQuery(tree_sitter::Query);

#[verifier::external_type_specification]
#[verifier::external_body]
pub struct ExTree(tree_sitter::Tree);

#[verifier::external_type_specification]
#[verifier::external_body]
pub struct ExNode<'tree>(tree_sitter::Node<'tree>);

#[verifier::external_type_specification]
#[verifier::external_body]
pub struct ExTreeCursor<'tree>(tree_sitter::TreeCursor<'tree>);

/// A node that a query has captured, with the index of the capture's name.
pub struct CapturedNode<'tree> {
    pub index: u32,
    pub node: tree_sitter::Node<'tree>,
}

/// One match of a query: the index of its pattern and its captured nodes.
pub struct FoundMatch<'tree> {
    pub pattern_index: usize,
    pub captures: Vec<CapturedNode<'tree>>,
}

// The text that a syntax tree was parsed from.
pub uninterp spec fn parsed_text_of(tree: tree_sitter::Tree) -> Seq<u8>;

// The node above a node, where it has one.
pub uninterp spec fn parent_of(node: tree_sitter::Node) -> Option<tree_sitter::Node>;

// The root of a syntax tree.
pub uninterp spec fn root_of(tree: tree_sitter::Tree) -> tree_sitter::Node<'static>;

// A cursor as it is made for a syntax tree: it stands at the root.
pub uninterp spec fn walk_of(tree: tree_sitter::Tree) -> tree_sitter::TreeCursor<'static>;

// The number of nodes below a node, the node itself included.
pub uninterp spec fn descendant_count_of(node: tree_sitter::Node) -> usize;

// A cursor after it has gone to the node with the number `index` of a depth-first walk
// from the node at which it was made.
pub uninterp spec fn moved_to(cursor: tree_sitter::TreeCursor, index: usize) -> tree_sitter::TreeCursor;

// The node at which a cursor stands.
pub uninterp spec fn node_of(cursor: tree_sitter::TreeCursor) -> tree_sitter::Node;

// How deep a cursor stands below the node at which it was made.
pub uninterp spec fn depth_of(cursor: tree_sitter::TreeCursor) -> u32;

// The name of a node's kind.
pub uninterp spec fn kind_of(node: tree_sitter::Node) -> String;

// Whether the grammar names a node.
pub uninterp spec fn named_of(node: tree_sitter::Node) -> bool;

// The number that tells a node apart from the other nodes of its tree.
pub uninterp spec fn id_of(node: tree_sitter::Node) -> usize;

// The span of a node.
pub uninterp spec fn range_of(node: tree_sitter::Node) -> Range;

// The index of a capture name in a query, where the query uses the name.
pub uninterp spec fn capture_index_of(query: tree_sitter::Query, name: Seq<char>) -> Option<u32>;

// The properties that each pattern of a query sets, pattern by pattern.
pub uninterp spec fn properties_of(query: tree_sitter::Query) -> Seq<Vec<Property>>;

// The predicates of each pattern of a query that the parser leaves to its caller,
// pattern by pattern.
pub uninterp spec fn predicates_of(query: tree_sitter::Query) -> Seq<Vec<Predicate>>;

// The matches of a query in a syntax tree and the text it was parsed from, in the order
// in which a new query cursor gives them.
pub uninterp spec fn matches_of(
    query: tree_sitter::Query,
    tree: tree_sitter::Tree,
    source: Seq<u8>,
) -> Seq<FoundMatch<'static>>;

/// `Parser::set_language`: makes `language` the language that `parser` parses. It fails
/// for a language that this version of the parser cannot use.
#[verifier::external_body]
pub(crate) fn parser_set_language(
    parser: &mut tree_sitter::Parser,
    language: &tree_sitter::Language,
) -> (set: Result<(), tree_sitter::LanguageError>) {
    parser.set_language(language)
}

/// `Parser::parse` without an earlier tree: the syntax tree of `source`, or nothing
/// where the parser gives none. A tree that comes back was parsed from `source`; which
/// tree it is, and whether one comes back, is the parser's to say.
#[verifier::external_body]
pub(crate) fn parser_parse(parser: &mut tree_sitter::Parser, source: &[u8]) -> (tree: Option<
    tree_sitter::Tree,
>)
    ensures
        tree matches Some(parsed) ==> parsed_text_of(parsed) == source@,
{
    parser.parse(source, None)
}

/// `Tree::root_node`: the root of a syntax tree, which depends on the tree alone.
#[verifier::external_body]
pub(crate) fn tree_root<'tree>(tree: &'tree tree_sitter::Tree) -> (root: tree_sitter::Node<'tree>)
    ensures
        root == root_of(*tree),
{
    tree.root_node()
}

/// `Tree::walk`: a cursor that stands at the root of a syntax tree. It depends on the
/// tree alone.
#[verifier::external_body]
pub(crate) fn tree_walk<'tree>(tree: &'tree tree_sitter::Tree) -> (cursor: tree_sitter::TreeCursor<
    'tree,
>)
    ensures
        cursor == walk_of(*tree),
{
    tree.walk()
}

/// `Node::descendant_count`: the number of nodes below `node`, itself included. It
/// depends on the node alone.
#[verifier::external_body]
pub(crate) fn node_descendant_count<'tree>(node: &tree_sitter::Node<'tree>) -> (count: usize)
    ensures
        count == descendant_count_of(*node),
{
    node.descendant_count()
}

/// `TreeCursor::goto_descendant`: moves the cursor to the node with the number `index`
/// in a depth-first walk from the node at which the cursor was made. Where the cursor
/// then stands depends on the cursor before and on `index` alone.
#[verifier::external_body]
pub(crate) fn cursor_goto_descendant<'tree>(cursor: &mut tree_sitter::TreeCursor<'tree>, index: usize)
    ensures
        *final(cursor) == moved_to(*old(cursor), index),
{
    cursor.goto_descendant(index)
}

/// `TreeCursor::node`: the node at which the cursor stands, which depends on the
/// cursor alone.
#[verifier::external_body]
pub(crate) fn cursor_node<'tree>(cursor: &tree_sitter::TreeCursor<'tree>) -> (node: tree_sitter::Node<
    'tree,
>)
    ensures
        node == node_of(*cursor),
{
    cursor.node()
}

/// `TreeCursor::depth`: how deep the cursor stands below the node at which it was made.
/// It depends on the cursor alone.
#[verifier::external_body]
pub(crate) fn cursor_depth<'tree>(cursor: &tree_sitter::TreeCursor<'tree>) -> (depth: u32)
    ensures
        depth == depth_of(*cursor),
{
    cursor.depth()
}

/// `Node::kind`: the name of the node's kind in its grammar, which depends on the node
/// alone. The crate reads the name as UTF-8, as generated grammars store it.
#[verifier::external_body]
pub(crate) fn node_kind<'tree>(node: &tree_sitter::Node<'tree>) -> (kind: String)
    ensures
        kind == kind_of(*node),
{
    node.kind().to_string()
}

/// `Node::is_named`: whether the grammar names the node, which depends on the node
/// alone.
#[verifier::external_body]
pub(crate) fn node_is_named<'tree>(node: &tree_sitter::Node<'tree>) -> (named: bool)
    ensures
        named == named_of(*node),
{
    node.is_named()
}

/// `Node::id`: a number that tells the nodes of one tree apart. The node carries it,
/// so it depends on the node alone.
#[verifier::external_body]
pub(crate) fn node_id<'tree>(node: &tree_sitter::Node<'tree>) -> (id: usize)
    ensures
        id == id_of(*node),
{
    node.id()
}

/// `Node::range`: the span of the node, by bytes and by points, which depends on the
/// node alone.
#[verifier::external_body]
pub(crate) fn node_range<'tree>(node: &tree_sitter::Node<'tree>) -> (range: Range)
    ensures
        range == range_of(*node),
{
    let span = node.range();
    Range {
        start_byte: span.start_byte,
        end_byte: span.end_byte,
        start_point: Point { row: span.start_point.row, column: span.start_point.column },
        end_point: Point { row: span.end_point.row, column: span.end_point.column },
    }
}

/// `Node::parent`: the node above `node`, if it has one. It depends on the node alone.
#[verifier::external_body]
pub(crate) fn node_parent<'tree>(node: &tree_sitter::Node<'tree>) -> (parent: Option<
    tree_sitter::Node<'tree>,
>)
    ensures
        parent == parent_of(*node),
{
    node.parent()
}

/// `Query::capture_index_for_name`: the index of a capture name in the query, if the
/// query uses the name. It depends on the query and the name alone.
#[verifier::external_body]
pub(crate) fn query_capture_index(query: &tree_sitter::Query, name: &str) -> (index: Option<u32>)
    ensures
        index == capture_index_of(*query, name@),
{
    query.capture_index_for_name(name)
}

/// `Query::property_settings` for each pattern of the query, in the order of the
/// patterns: the properties that the pattern sets. They depend on the query alone.
#[verifier::external_body]
pub(crate) fn query_properties(query: &tree_sitter::Query) -> (properties: Vec<Vec<Property>>)
    ensures
        properties@ == properties_of(*query),
{
    (0..query.pattern_count()).map(|pattern| {
        query.property_settings(pattern).iter().map(|property| Property {
            key: property.key.to_string(),
            value: property.value.as_ref().map(|value| value.to_string()),
        }).collect()
    }).collect()
}

/// `Query::general_predicates` for each pattern of the query, in the order of the
/// patterns: the predicates that the parser does not evaluate itself. They depend on the
/// query alone.
#[verifier::external_body]
pub(crate) fn query_predicates(query: &tree_sitter::Query) -> (predicates: Vec<Vec<Predicate>>)
    ensures
        predicates@ == predicates_of(*query),
{
    (0..query.pattern_count()).map(|pattern| {
        query.general_predicates(pattern).iter().map(|predicate| Predicate {
            operator: predicate.operator.to_string(),
            args: predicate.args.iter().map(|arg| match arg {
                tree_sitter::QueryPredicateArg::Capture(capture) => PredicateArg::Capture(*capture),
                tree_sitter::QueryPredicateArg::String(text) => PredicateArg::String(text.to_string()),
            }).collect(),
        }).collect()
    }).collect()
}

/// `QueryCursor::matches` of a new cursor from the root of `tree`, walked to its end:
/// the matches of the query in the order in which the cursor gives them. They depend on
/// the query, the tree and the text alone. The cursor reads the text at the spans of the
/// nodes, so `source` must be the text that the tree was parsed from.
#[verifier::external_body]
pub(crate) fn run_query<'tree>(
    query: &tree_sitter::Query,
    tree: &'tree tree_sitter::Tree,
    source: &[u8],
) -> (found: Vec<FoundMatch<'tree>>)
    requires
        parsed_text_of(*tree) == source@,
    ensures
        found@ == matches_of(*query, *tree, source@),
{
    let mut cursor = tree_sitter::QueryCursor::new();
    let mut matches = cursor.matches(query, tree.root_node(), source);
    let mut found = Vec::new();
    while let Some(next) = matches.next() {
        let captures = next.captures().iter().map(|capture| CapturedNode {
            index: capture.index,
            node: capture.node,
        }).collect();
        found.push(FoundMatch { pattern_index: next.pattern_index, captures });
    }
    found
}

} // verus!
