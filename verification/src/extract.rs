//! From a document and a grammar to the regions of the document: parses the document,
//! runs the queries of the grammar, and hands what they find to the extraction.
use crate::grammar::Grammar;
use crate::ignore::{collect_ignore_ranges, ignore_ranges_of, IgnoreCapture, SyntaxNode};
use crate::injections::{
    extract_of, extract_regions, region_views, with_newline, with_newline_of, Capture,
    InjectedRegion, QueryMatch, RegionView,
};
use crate::predicate::{PatternInfo, Predicate, Property};
use crate::range::Range;
use crate::strings::is_utf8;
use crate::syntax::{
    capture_index_of, cursor_depth, cursor_goto_descendant, cursor_node, depth_of,
    descendant_count_of, id_of, kind_of, matches_of, moved_to, named_of, node_descendant_count,
    node_id, node_is_named, node_kind, node_of, node_parent, node_range, parent_of,
    parsed_text_of, parser_parse, parser_set_language, predicates_of, properties_of, query_capture_index, query_predicates,
    query_properties, range_of, root_of, run_query, tree_root, tree_walk, walk_of, CapturedNode,
    FoundMatch,
};
use vstd::prelude::*;
use vstd::utf8::valid_utf8;

verus! {

/// Why the regions of a document could not be found.
#[derive(Clone, Copy, Debug, PartialEq, Eq, Structural)]
pub enum ExtractError {
    /// The document is not valid UTF-8.
    InvalidUtf8,
    /// The parser cannot use the language of the grammar.
    Language,
    /// The parser gave no tree.
    Parse,
}

impl ExtractError {
    /// The error in words.
    pub fn message(&self) -> (text: String)
        ensures
            text@ == match self {
                ExtractError::InvalidUtf8 => "invalid utf-8 sequence in source"@,
                ExtractError::Language => "Incompatible language"@,
                ExtractError::Parse => "Parse returned None"@,
            },
    {
        match self {
            ExtractError::InvalidUtf8 => "invalid utf-8 sequence in source".to_owned(),
            ExtractError::Language => "Incompatible language".to_owned(),
            ExtractError::Parse => "Parse returned None".to_owned(),
        }
    }
}

/// The patterns that two lists describe: at each place the pattern with the properties
/// and the predicates at that place, for as many places as both lists have.
pub open spec fn paired(properties: Seq<Vec<Property>>, predicates: Seq<Vec<Predicate>>) -> Seq<
    PatternInfo,
> {
    Seq::new(
        if properties.len() <= predicates.len() {
            properties.len()
        } else {
            predicates.len()
        },
        |i: int| (PatternInfo { properties: properties[i], predicates: predicates[i] }),
    )
}

/// The patterns that two lists describe, the one by the properties and the other by
/// the predicates of each pattern: at each place the pattern of the properties and the
/// predicates at that place, for as many places as both lists have.
pub fn pair_patterns(properties: Vec<Vec<Property>>, predicates: Vec<Vec<Predicate>>) -> (patterns:
    Vec<PatternInfo>)
    ensures
        patterns@ == paired(properties@, predicates@),
{
    let count = if properties.len() <= predicates.len() {
        properties.len()
    } else {
        predicates.len()
    };
    let ghost held = properties@;
    let ghost asked = predicates@;
    let mut properties = properties;
    let mut predicates = predicates;
    properties.truncate(count);
    predicates.truncate(count);
    let mut reversed: Vec<PatternInfo> = Vec::new();
    while properties.len() > 0
        invariant
            properties.len() == predicates.len(),
            properties.len() + reversed.len() == count,
            count <= held.len(),
            count <= asked.len(),
            properties@ == held.take(properties.len() as int),
            predicates@ == asked.take(predicates.len() as int),
            forall|k: int|
                0 <= k < reversed.len() ==> #[trigger] reversed@[k] == (PatternInfo {
                    properties: held[count - 1 - k],
                    predicates: asked[count - 1 - k],
                }),
        decreases properties.len(),
    {
        let ghost left = properties.len();
        let first = properties.pop();
        let second = predicates.pop();
        proof {
            assert(held.take(left as int).subrange(0, left - 1) =~= held.take(left - 1));
            assert(asked.take(left as int).subrange(0, left - 1) =~= asked.take(left - 1));
        }
        match (first, second) {
            (Some(first), Some(second)) => {
                reversed.push(PatternInfo { properties: first, predicates: second });
            },
            _ => {},
        }
    }
    let mut patterns: Vec<PatternInfo> = Vec::new();
    let ghost turned = reversed@;
    while reversed.len() > 0
        invariant
            turned.len() == count,
            reversed@ == turned.take(reversed.len() as int),
            reversed.len() + patterns.len() == count,
            forall|k: int|
                0 <= k < patterns.len() ==> #[trigger] patterns@[k] == turned[count - 1 - k],
        decreases reversed.len(),
    {
        let ghost left = reversed.len();
        let last = reversed.pop();
        proof {
            assert(turned.take(left as int).subrange(0, left - 1) =~= turned.take(left - 1));
        }
        match last {
            Some(pattern) => {
                patterns.push(pattern);
            },
            None => {},
        }
    }
    proof {
        assert(patterns@ =~= paired(held, asked));
    }
    patterns
}

/// The patterns of a query, in their order: each with the properties that it sets and
/// the predicates that it leaves to its reader.
pub open spec fn patterns_of(query: tree_sitter::Query) -> Seq<PatternInfo> {
    paired(properties_of(query), predicates_of(query))
}

/// The patterns of a query, in their order.
fn query_patterns(query: &tree_sitter::Query) -> (patterns: Vec<PatternInfo>)
    ensures
        patterns@ == patterns_of(*query),
{
    pair_patterns(query_properties(query), query_predicates(query))
}

/// A captured node as the extraction reads it: the index of the capture's name, the
/// span of the node, and the span of its container, which is the node above it or,
/// where there is none, the node itself.
pub open spec fn capture_of<'tree>(captured: CapturedNode<'tree>) -> Capture {
    let range = range_of(captured.node);
    let container = match parent_of(captured.node) {
        Some(parent) => range_of(parent),
        None => range,
    };
    Capture {
        index: captured.index,
        range,
        container_start: container.start_byte,
        container_end: container.end_byte,
    }
}

/// The plain match says what the match of the parser says: the same pattern, and for
/// each captured node, in the same order, its capture as the extraction reads it.
pub open spec fn same_captures<'tree>(plain: QueryMatch, found: FoundMatch<'tree>) -> bool {
    &&& plain.pattern_index == found.pattern_index
    &&& plain.captures.len() == found.captures.len()
    &&& forall|j: int|
        0 <= j < plain.captures.len() ==> #[trigger] plain.captures@[j] == capture_of(
            found.captures@[j],
        )
}

/// The plain matches say, match by match and in the same order, what the matches of
/// the parser say.
pub open spec fn same_matches<'tree>(plain: Seq<QueryMatch>, found: Seq<FoundMatch<'tree>>) -> bool {
    &&& plain.len() == found.len()
    &&& forall|i: int| 0 <= i < plain.len() ==> same_captures(#[trigger] plain[i], found[i])
}

/// The matches of a query as plain values: each captured node with its span and the
/// span of its container, which is its parent or, where it has none, the node itself.
fn plain_matches<'tree>(found: &Vec<FoundMatch<'tree>>) -> (matches: Vec<QueryMatch>)
    ensures
        same_matches(matches@, found@),
{
    let mut matches: Vec<QueryMatch> = Vec::new();
    let mut i: usize = 0;
    while i < found.len()
        invariant
            i <= found.len(),
            matches.len() == i,
            forall|k: int| 0 <= k < i ==> same_captures(#[trigger] matches@[k], found@[k]),
        decreases found.len() - i,
    {
        let mut captures: Vec<Capture> = Vec::new();
        let mut j: usize = 0;
        while j < found[i].captures.len()
            invariant
                i < found.len(),
                j <= found[i as int].captures.len(),
                captures.len() == j,
                forall|k: int|
                    0 <= k < j ==> #[trigger] captures@[k] == capture_of(
                        found[i as int].captures@[k],
                    ),
            decreases found[i as int].captures.len() - j,
        {
            let captured = &found[i].captures[j];
            let range = node_range(&captured.node);
            let container = match node_parent(&captured.node) {
                Some(parent) => node_range(&parent),
                None => range,
            };
            captures.push(
                Capture {
                    index: captured.index,
                    range,
                    container_start: container.start_byte,
                    container_end: container.end_byte,
                },
            );
            j += 1;
        }
        matches.push(QueryMatch { pattern_index: found[i].pattern_index, captures });
        i += 1;
    }
    matches
}

/// The number of nodes of a syntax tree.
pub open spec fn node_count(tree: tree_sitter::Tree) -> usize {
    descendant_count_of(root_of(tree))
}

/// The cursor of a syntax tree after it has gone, from the root, to each of the first
/// `visited` nodes of a depth-first walk in turn.
pub open spec fn walked(tree: tree_sitter::Tree, visited: nat) -> tree_sitter::TreeCursor<'static>
    decreases visited,
{
    if visited == 0 {
        walk_of(tree)
    } else {
        moved_to(walked(tree, (visited - 1) as nat), (visited - 1) as usize)
    }
}

/// The node with the number `place` of a depth-first walk of a syntax tree, as the
/// ignore rules read it.
pub open spec fn node_at(tree: tree_sitter::Tree, place: int) -> SyntaxNode {
    let cursor = walked(tree, (place + 1) as nat);
    SyntaxNode {
        kind: kind_of(node_of(cursor)),
        named: named_of(node_of(cursor)),
        depth: depth_of(cursor) as usize,
        range: range_of(node_of(cursor)),
    }
}

/// The nodes of a syntax tree in the order of a depth-first walk.
pub open spec fn nodes_of(tree: tree_sitter::Tree) -> Seq<SyntaxNode> {
    Seq::new(node_count(tree) as nat, |place: int| node_at(tree, place))
}

/// Beside each node of a syntax tree, in the order of a depth-first walk, the number
/// that tells it apart from the other nodes of the tree.
pub open spec fn ids_of(tree: tree_sitter::Tree) -> Seq<usize> {
    Seq::new(node_count(tree) as nat, |place: int| id_of(node_of(walked(tree, (place + 1) as nat))))
}

/// The nodes of a syntax tree in the order of a depth-first walk, and beside each the
/// number that tells it apart from the other nodes of the tree.
fn syntax_nodes(tree: &tree_sitter::Tree) -> (listed: (Vec<SyntaxNode>, Vec<usize>))
    ensures
        listed.0@ == nodes_of(*tree),
        listed.1@ == ids_of(*tree),
{
    let root = tree_root(tree);
    let count = node_descendant_count(&root);
    let mut cursor = tree_walk(tree);
    let mut nodes: Vec<SyntaxNode> = Vec::new();
    let mut ids: Vec<usize> = Vec::new();
    let mut i: usize = 0;
    while i < count
        invariant
            i <= count,
            count == node_count(*tree),
            cursor == walked(*tree, i as nat),
            nodes.len() == i,
            ids.len() == i,
            forall|k: int| 0 <= k < i ==> #[trigger] nodes@[k] == node_at(*tree, k),
            forall|k: int|
                0 <= k < i ==> #[trigger] ids@[k] == id_of(
                    node_of(walked(*tree, (k + 1) as nat)),
                ),
        decreases count - i,
    {
        cursor_goto_descendant(&mut cursor, i);
        proof {
            assert(cursor == walked(*tree, (i + 1) as nat));
        }
        let node = cursor_node(&cursor);
        nodes.push(
            SyntaxNode {
                kind: node_kind(&node),
                named: node_is_named(&node),
                depth: cursor_depth(&cursor) as usize,
                range: node_range(&node),
            },
        );
        ids.push(node_id(&node));
        i += 1;
    }
    proof {
        assert(nodes@ =~= nodes_of(*tree));
        assert(ids@ =~= ids_of(*tree));
    }
    (nodes, ids)
}

/// The first place from `from` on at which `id` stands in `ids`, or the length of `ids`
/// where it stands at none.
pub open spec fn first_place_from(ids: Seq<usize>, id: usize, from: int) -> int
    decreases ids.len() - from,
{
    if from < 0 || from >= ids.len() {
        ids.len() as int
    } else if ids[from] == id {
        from
    } else {
        first_place_from(ids, id, from + 1)
    }
}

/// The first place at which `id` stands in `ids`, or the length of `ids` where it is
/// not among them.
pub open spec fn first_place(ids: Seq<usize>, id: usize) -> int {
    first_place_from(ids, id, 0)
}

/// The place of `id` in `ids`, or the length of `ids` where it is not among them.
pub fn place_of(ids: &[usize], id: usize) -> (place: usize)
    ensures
        place == first_place(ids@, id),
        place <= ids.len(),
        place < ids.len() ==> ids@[place as int] == id,
        forall|k: int| 0 <= k < place ==> ids@[k] != id,
{
    let mut place: usize = 0;
    while place < ids.len() && ids[place] != id
        invariant
            place <= ids.len(),
            forall|k: int| 0 <= k < place ==> ids@[k] != id,
            first_place(ids@, id) == first_place_from(ids@, id, place as int),
        decreases ids.len() - place,
    {
        place += 1;
    }
    place
}

/// A captured node as a plain value: the index of the capture's name, and the first
/// place of the node's number in `ids`, or the length of `ids` where it is not there.
pub open spec fn plain_capture<'tree>(captured: CapturedNode<'tree>, ids: Seq<usize>) -> IgnoreCapture {
    IgnoreCapture {
        index: captured.index,
        node: first_place(ids, id_of(captured.node)) as usize,
    }
}

/// The first `count` captures of one match as plain values.
pub open spec fn captures_of_match<'tree>(found: FoundMatch<'tree>, ids: Seq<usize>, count: int) -> Seq<
    IgnoreCapture,
> {
    Seq::new(count as nat, |j: int| plain_capture(found.captures@[j], ids))
}

/// The captures of the first `count` matches as plain values: match by match, and
/// within a match in its own order.
pub open spec fn captures_upto<'tree>(found: Seq<FoundMatch<'tree>>, ids: Seq<usize>, count: int) -> Seq<
    IgnoreCapture,
>
    decreases count,
{
    if count <= 0 {
        Seq::empty()
    } else {
        captures_upto(found, ids, count - 1) + captures_of_match(
            found[count - 1],
            ids,
            found[count - 1].captures.len() as int,
        )
    }
}

/// The captures of an ignore query as plain values, each with the place of its node in
/// the list of nodes.
fn ignore_captures<'tree>(found: &Vec<FoundMatch<'tree>>, ids: &[usize]) -> (captures: Vec<
    IgnoreCapture,
>)
    ensures
        captures@ == captures_upto(found@, ids@, found.len() as int),
{
    let mut captures: Vec<IgnoreCapture> = Vec::new();
    let mut i: usize = 0;
    while i < found.len()
        invariant
            i <= found.len(),
            captures@ == captures_upto(found@, ids@, i as int),
        decreases found.len() - i,
    {
        let ghost before = captures@;
        let mut j: usize = 0;
        proof {
            assert(captures@ =~= before + captures_of_match(found@[i as int], ids@, 0));
        }
        while j < found[i].captures.len()
            invariant
                i < found.len(),
                j <= found[i as int].captures.len(),
                captures@ == before + captures_of_match(found@[i as int], ids@, j as int),
            decreases found[i as int].captures.len() - j,
        {
            let captured = &found[i].captures[j];
            captures.push(
                IgnoreCapture { index: captured.index, node: place_of(ids, node_id(&captured.node)) },
            );
            proof {
                assert(captures@ =~= before + captures_of_match(found@[i as int], ids@, j + 1));
            }
            j += 1;
        }
        i += 1;
    }
    captures
}

/// The captures that an ignore query gives in a parsed document, as plain values. A
/// query that uses neither of the capture names `pruner.ignore` and
/// `pruner.ignore.marker` is not run and gives none.
pub open spec fn query_captures_of(
    tree: tree_sitter::Tree,
    source: Seq<u8>,
    query: tree_sitter::Query,
) -> Seq<IgnoreCapture> {
    if capture_index_of(query, "pruner.ignore"@) is None && capture_index_of(
        query,
        "pruner.ignore.marker"@,
    ) is None {
        Seq::empty()
    } else {
        let found = matches_of(query, tree, source);
        captures_upto(found, ids_of(tree), found.len() as int)
    }
}

/// The ignored ranges of a parsed document: what the ignore rules make of the nodes of
/// its tree and, where there is an ignore query, of the captures of that query.
pub open spec fn ignored_of(
    tree: tree_sitter::Tree,
    source: Seq<u8>,
    ignore_query: Option<tree_sitter::Query>,
) -> Seq<Range> {
    match ignore_query {
        Some(query) => ignore_ranges_of(
            nodes_of(tree),
            source,
            query_captures_of(tree, source, query),
            capture_index_of(query, "pruner.ignore"@),
            capture_index_of(query, "pruner.ignore.marker"@),
        ),
        None => ignore_ranges_of(nodes_of(tree), source, Seq::empty(), None, None),
    }
}

/// The ignored ranges of a parsed document: those of its marker comments and those of
/// the ignore query, where the grammar has one that uses the capture names
/// `pruner.ignore` or `pruner.ignore.marker`.
fn ignored_ranges(tree: &tree_sitter::Tree, source: &[u8], ignore_query: &Option<
    tree_sitter::Query,
>) -> (ranges: Vec<Range>)
    requires
        parsed_text_of(*tree) == source@,
    ensures
        ranges@ == ignored_of(*tree, source@, *ignore_query),
{
    let (nodes, ids) = syntax_nodes(tree);
    match ignore_query {
        Some(query) => {
            let target = query_capture_index(query, "pruner.ignore");
            let marker = query_capture_index(query, "pruner.ignore.marker");
            let captures = if target.is_none() && marker.is_none() {
                Vec::new()
            } else {
                ignore_captures(&run_query(query, tree, source), ids.as_slice())
            };
            collect_ignore_ranges(nodes.as_slice(), source, captures.as_slice(), target, marker)
        },
        None => {
            let captures: Vec<IgnoreCapture> = Vec::new();
            collect_ignore_ranges(nodes.as_slice(), source, captures.as_slice(), None, None)
        },
    }
}

/// The regions that the injection query of `grammar` gives in `source`, where `tree` is
/// the syntax tree of the document and `matches` are the matches of the query in it.
///
/// The document is read with a line feed at its end. A query without the capture name
/// `injection.content` gives no region. Else the regions are what the extraction makes
/// of the patterns of the query, its captures `injection.content` and
/// `injection.language`, the matches, and the ignored ranges of the tree.
pub open spec fn tied_regions(
    grammar: Grammar,
    source: Seq<u8>,
    tree: tree_sitter::Tree,
    matches: Seq<QueryMatch>,
) -> Seq<RegionView> {
    let read = with_newline_of(source);
    match capture_index_of(grammar.injections, "injection.content"@) {
        Some(content_index) => extract_of(
            read.0,
            read.1,
            patterns_of(grammar.injections),
            content_index,
            capture_index_of(grammar.injections, "injection.language"@),
            matches,
            ignored_of(tree, read.0, grammar.pruner_ignore),
        ),
        None => Seq::empty(),
    }
}

/// `tree` was parsed from `source` with a line feed at its end, and `matches` say what
/// the injection query of `grammar` finds in it. A query without the capture name
/// `injection.content` is not run, and nothing is asked of `matches`.
pub open spec fn agrees(
    grammar: Grammar,
    source: Seq<u8>,
    tree: tree_sitter::Tree,
    matches: Seq<QueryMatch>,
) -> bool {
    let text = with_newline_of(source).0;
    &&& parsed_text_of(tree) == text
    &&& capture_index_of(grammar.injections, "injection.content"@) is Some ==> same_matches(
        matches,
        matches_of(grammar.injections, tree, text),
    )
}

/// The regions of `source` that the injection query of `grammar` reports.
///
/// The document is parsed with a line feed at its end. It must be valid UTF-8, the
/// parser must accept the language and give a tree; else the error says which of these
/// failed, the first in this order. A query without the capture name
/// `injection.content` reports nothing. Else the regions are those that the extraction
/// makes of the patterns and matches of the query in the tree that the parser gave, and
/// of the ignored ranges of that tree; each lies in `source`.
pub fn extract_language_injections(
    parser: &mut tree_sitter::Parser,
    grammar: &Grammar,
    source: &[u8],
) -> (found: Result<Vec<InjectedRegion>, ExtractError>)
    ensures
        !valid_utf8(with_newline_of(source@).0) ==> found == Err::<
            Vec<InjectedRegion>,
            ExtractError,
        >(ExtractError::InvalidUtf8),
        found matches Err(error) ==> error != ExtractError::InvalidUtf8 || !valid_utf8(
            with_newline_of(source@).0,
        ),
        found matches Ok(regions) ==> {
            &&& forall|i: int|
                0 <= i < regions.len() ==> (#[trigger] regions@[i]).range.well_formed(
                    source.len() as int,
                )
            &&& exists|tree: tree_sitter::Tree, matches: Seq<QueryMatch>|
                agrees(*grammar, source@, tree, matches) && region_views(regions@)
                    == #[trigger] tied_regions(*grammar, source@, tree, matches)
        },
{
    let (text, endpoint) = with_newline(source);
    proof {
        let read = with_newline_of(source@);
        assert(text@ == read.0 && endpoint == read.1);
        assert(endpoint matches Some(end) ==> end.byte == source.len());
        assert(endpoint is None ==> text@.len() == source.len());
        if endpoint is Some {
            assert(text@ == source@ + seq![crate::text::LINE_FEED]);
            crate::text::lemma_point_at_prefix(
                source@,
                seq![crate::text::LINE_FEED],
                source.len() as int,
            );
        }
        assert(crate::injections::endpoint_fits(text@, endpoint));
    }
    if !is_utf8(text.as_slice()) {
        return Err(ExtractError::InvalidUtf8);
    }
    match parser_set_language(parser, &grammar.lang) {
        Ok(_) => {},
        Err(_) => {
            return Err(ExtractError::Language);
        },
    }
    let tree = match parser_parse(parser, text.as_slice()) {
        Some(tree) => tree,
        None => {
            return Err(ExtractError::Parse);
        },
    };
    let language_index = query_capture_index(&grammar.injections, "injection.language");
    let content_index = match query_capture_index(&grammar.injections, "injection.content") {
        Some(index) => index,
        None => {
            let regions: Vec<InjectedRegion> = Vec::new();
            proof {
                let none = Seq::<QueryMatch>::empty();
                assert(agrees(*grammar, source@, tree, none));
                assert(region_views(regions@) =~= tied_regions(*grammar, source@, tree, none));
            }
            return Ok(regions);
        },
    };
    let patterns = query_patterns(&grammar.injections);
    let matches = plain_matches(&run_query(&grammar.injections, &tree, text.as_slice()));
    let ignored = ignored_ranges(&tree, text.as_slice(), &grammar.pruner_ignore);
    let regions = extract_regions(
        text.as_slice(),
        &endpoint,
        patterns.as_slice(),
        content_index,
        language_index,
        matches.as_slice(),
        ignored.as_slice(),
    );
    proof {
        assert(agrees(*grammar, source@, tree, matches@));
        assert(region_views(regions@) == tied_regions(*grammar, source@, tree, matches@));
    }
    Ok(regions)
}

} // verus!
