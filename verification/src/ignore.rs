//! Ignored ranges: the spans of a document in which no region is reported, marked by
//! comments that hold `pruner-ignore` or by the captures of an ignore query.
use crate::predicate::{contains_text, occurs_in};
use crate::range::Range;
use crate::strings::{slice_text, text_of};
use vstd::prelude::*;

verus! {

/// A node of a syntax tree as the ignore rules read it. The nodes of a tree stand in a
/// list in the order of a depth-first walk, parents before children, each with its depth
/// below the root.
#[derive(Clone, Debug, PartialEq, Eq)]
pub struct SyntaxNode {
    /// The name of the node's kind in its grammar.
    pub kind: String,
    /// Whether the grammar names the node, as opposed to a piece of punctuation.
    pub named: bool,
    /// The number of ancestors of the node.
    pub depth: usize,
    /// The span of the node.
    pub range: Range,
}

/// A capture of an ignore query: the index of the capture's name in the query, and the
/// place of the captured node in the list of nodes.
#[derive(Clone, Copy, Debug, PartialEq, Eq, Structural)]
pub struct IgnoreCapture {
    pub index: u32,
    pub node: usize,
}

/// The text that makes a kind of node a comment.
pub open spec fn comment_word() -> Seq<char> {
    "comment"@
}

/// The text that makes a comment an ignore marker.
pub open spec fn marker_word() -> Seq<char> {
    "pruner-ignore"@
}

/// A node whose kind holds the word `comment`.
pub open spec fn is_comment(node: SyntaxNode) -> bool {
    occurs_in(comment_word(), node.kind@)
}

/// A comment whose text in `source` is valid UTF-8 and holds `pruner-ignore`.
pub open spec fn is_marker(node: SyntaxNode, source: Seq<u8>) -> bool {
    is_comment(node) && match text_of(source, node.range) {
        Some(text) => occurs_in(marker_word(), text),
        None => false,
    }
}

/// Tells whether the kind `kind` is that of a comment.
pub fn is_comment_kind(kind: &str) -> (comment: bool)
    ensures
        comment == occurs_in(comment_word(), kind@),
{
    contains_text(kind, "comment")
}

/// Tells whether `node` is a comment.
pub fn is_comment_node(node: &SyntaxNode) -> (comment: bool)
    ensures
        comment == is_comment(*node),
{
    is_comment_kind(node.kind.as_str())
}

/// Tells whether `node` is a comment that holds `pruner-ignore`.
pub fn is_marker_node(node: &SyntaxNode, source: &[u8]) -> (marker: bool)
    ensures
        marker == is_marker(*node, source@),
{
    if !is_comment_node(node) {
        return false;
    }
    match slice_text(source, &node.range) {
        Some(text) => contains_text(text.as_str(), "pruner-ignore"),
        None => false,
    }
}

/// The place of the first node at or after `from` that is a sibling of a node of depth
/// `depth` standing before `from`: nodes that lie deeper are passed over, and a node that
/// lies higher ends the search.
pub open spec fn next_sibling(nodes: Seq<SyntaxNode>, depth: usize, from: int) -> Option<int>
    decreases nodes.len() - from,
{
    if from < 0 || from >= nodes.len() {
        None
    } else if nodes[from].depth < depth {
        None
    } else if nodes[from].depth == depth {
        Some(from)
    } else {
        next_sibling(nodes, depth, from + 1)
    }
}

/// The place of the target of a marker of depth `depth`: the first named sibling at or
/// after `from` that is no comment.
pub open spec fn target_from(nodes: Seq<SyntaxNode>, depth: usize, from: int) -> Option<int>
    decreases nodes.len() - from,
{
    match next_sibling(nodes, depth, from) {
        Some(at) => if from <= at < nodes.len() {
            if nodes[at].named && !is_comment(nodes[at]) {
                Some(at)
            } else {
                target_from(nodes, depth, at + 1)
            }
        } else {
            None
        },
        None => None,
    }
}

/// What a marker at `at` ignores: its own span and, where it has one, the span of its
/// target.
pub open spec fn marker_ranges(nodes: Seq<SyntaxNode>, at: int) -> Seq<Range> {
    match target_from(nodes, nodes[at].depth, at + 1) {
        Some(target) => seq![nodes[at].range, nodes[target].range],
        None => seq![nodes[at].range],
    }
}

/// The spans that the markers among the first `upto` nodes ignore, in the order of the
/// nodes. Only named nodes are looked at.
pub open spec fn comment_ranges_upto(nodes: Seq<SyntaxNode>, source: Seq<u8>, upto: int) -> Seq<
    Range,
>
    decreases upto,
{
    if upto <= 0 {
        Seq::empty()
    } else {
        let before = comment_ranges_upto(nodes, source, upto - 1);
        if nodes[upto - 1].named && is_marker(nodes[upto - 1], source) {
            before + marker_ranges(nodes, upto - 1)
        } else {
            before
        }
    }
}

/// What one capture of an ignore query ignores. A capture named as a target ignores the
/// span of its node. A capture named as a marker ignores what a marker at its node
/// ignores. Both hold of a capture that bears both names; a capture of another name, or
/// of no node of the list, ignores nothing.
pub open spec fn capture_ranges(
    nodes: Seq<SyntaxNode>,
    capture: IgnoreCapture,
    target_index: Option<u32>,
    marker_index: Option<u32>,
) -> Seq<Range> {
    if capture.node >= nodes.len() {
        Seq::empty()
    } else {
        (if target_index == Some(capture.index) {
            seq![nodes[capture.node as int].range]
        } else {
            Seq::empty()
        }) + (if marker_index == Some(capture.index) {
            marker_ranges(nodes, capture.node as int)
        } else {
            Seq::empty()
        })
    }
}

/// The spans that the first `upto` captures of an ignore query ignore.
pub open spec fn query_ranges_upto(
    nodes: Seq<SyntaxNode>,
    captures: Seq<IgnoreCapture>,
    target_index: Option<u32>,
    marker_index: Option<u32>,
    upto: int,
) -> Seq<Range>
    decreases upto,
{
    if upto <= 0 {
        Seq::empty()
    } else {
        query_ranges_upto(nodes, captures, target_index, marker_index, upto - 1) + capture_ranges(
            nodes,
            captures[upto - 1],
            target_index,
            marker_index,
        )
    }
}

/// The ignored ranges of a document: those of its marker comments, then those of the
/// captures of its ignore query.
pub open spec fn ignore_ranges_of(
    nodes: Seq<SyntaxNode>,
    source: Seq<u8>,
    captures: Seq<IgnoreCapture>,
    target_index: Option<u32>,
    marker_index: Option<u32>,
) -> Seq<Range> {
    comment_ranges_upto(nodes, source, nodes.len() as int) + query_ranges_upto(
        nodes,
        captures,
        target_index,
        marker_index,
        captures.len() as int,
    )
}

/// The place of the target of the marker at `at`, if it has one.
fn find_target(nodes: &[SyntaxNode], at: usize) -> (target: Option<usize>)
    requires
        at < nodes.len(),
    ensures
        match target {
            Some(t) => target_from(nodes@, nodes@[at as int].depth, at + 1) == Some(t as int) && t
                < nodes.len(),
            None => target_from(nodes@, nodes@[at as int].depth, at + 1) is None,
        },
{
    let depth = nodes[at].depth;
    let mut from = at + 1;
    while from < nodes.len()
        invariant
            at < from <= nodes.len(),
            depth == nodes@[at as int].depth,
            target_from(nodes@, depth, at + 1) == target_from(nodes@, depth, from as int),
        decreases nodes.len() - from,
    {
        let candidate = &nodes[from];
        if candidate.depth < depth {
            return None;
        }
        if candidate.depth == depth && candidate.named && !is_comment_node(candidate) {
            return Some(from);
        }
        proof {
            lemma_target_skips(nodes@, depth, from as int);
        }
        from += 1;
    }
    None
}

/// A node that is no target and does not end the search is passed over.
proof fn lemma_target_skips(nodes: Seq<SyntaxNode>, depth: usize, from: int)
    requires
        0 <= from < nodes.len(),
        nodes[from].depth >= depth,
        !(nodes[from].depth == depth && nodes[from].named && !is_comment(nodes[from])),
    ensures
        target_from(nodes, depth, from) == target_from(nodes, depth, from + 1),
{
    if nodes[from].depth > depth {
        lemma_sibling_bounds(nodes, depth, from + 1);
    }
}

/// A sibling that is found lies at or after the place where the search began.
proof fn lemma_sibling_bounds(nodes: Seq<SyntaxNode>, depth: usize, from: int)
    requires
        0 <= from,
    ensures
        next_sibling(nodes, depth, from) matches Some(at) ==> from <= at < nodes.len(),
    decreases nodes.len() - from,
{
    if from < nodes.len() && nodes[from].depth > depth {
        lemma_sibling_bounds(nodes, depth, from + 1);
    }
}

/// Appends what a marker at `at` ignores.
fn add_marker(ignore_ranges: &mut Vec<Range>, nodes: &[SyntaxNode], at: usize)
    requires
        at < nodes.len(),
    ensures
        final(ignore_ranges)@ == old(ignore_ranges)@ + marker_ranges(nodes@, at as int),
{
    ignore_ranges.push(nodes[at].range);
    match find_target(nodes, at) {
        Some(target) => {
            ignore_ranges.push(nodes[target].range);
            proof {
                assert(ignore_ranges@ =~= old(ignore_ranges)@ + marker_ranges(nodes@, at as int));
            }
        },
        None => {
            proof {
                assert(ignore_ranges@ =~= old(ignore_ranges)@ + marker_ranges(nodes@, at as int));
            }
        },
    }
}

/// The ignored ranges of a document.
///
/// `nodes` are the nodes of the syntax tree of `source` in the order of a depth-first
/// walk. Every named comment whose text holds `pruner-ignore` gives its own span and the span of the
/// first named sibling after it that is no comment. `captures` are the captures of the
/// ignore query in the order found: one named `target_index` gives the span of its
/// node, one named `marker_index` gives what a marker at its node gives.
pub fn collect_ignore_ranges(
    nodes: &[SyntaxNode],
    source: &[u8],
    captures: &[IgnoreCapture],
    target_index: Option<u32>,
    marker_index: Option<u32>,
) -> (ignore_ranges: Vec<Range>)
    ensures
        ignore_ranges@ == ignore_ranges_of(nodes@, source@, captures@, target_index, marker_index),
{
    let mut ignore_ranges: Vec<Range> = Vec::new();
    let mut i: usize = 0;
    while i < nodes.len()
        invariant
            i <= nodes.len(),
            ignore_ranges@ == comment_ranges_upto(nodes@, source@, i as int),
        decreases nodes.len() - i,
    {
        if nodes[i].named && is_marker_node(&nodes[i], source) {
            add_marker(&mut ignore_ranges, nodes, i);
        }
        i += 1;
    }
    let ghost from_comments = ignore_ranges@;
    let mut j: usize = 0;
    proof {
        assert(ignore_ranges@ =~= from_comments + Seq::<Range>::empty());
    }
    while j < captures.len()
        invariant
            j <= captures.len(),
            ignore_ranges@ == from_comments + query_ranges_upto(
                nodes@,
                captures@,
                target_index,
                marker_index,
                j as int,
            ),
        decreases captures.len() - j,
    {
        let capture = captures[j];
        let ghost before = ignore_ranges@;
        let ghost seen = query_ranges_upto(nodes@, captures@, target_index, marker_index, j as int);
        if capture.node < nodes.len() {
            if is_index(target_index, capture.index) {
                ignore_ranges.push(nodes[capture.node].range);
            }
            let ghost with_target = ignore_ranges@;
            if is_index(marker_index, capture.index) {
                add_marker(&mut ignore_ranges, nodes, capture.node);
            }
            proof {
                assert(ignore_ranges@ =~= before + capture_ranges(
                    nodes@,
                    capture,
                    target_index,
                    marker_index,
                ));
            }
        }
        proof {
            let added = capture_ranges(nodes@, capture, target_index, marker_index);
            assert(ignore_ranges@ =~= before + added);
            assert(from_comments + seen + added =~= from_comments + (seen + added));
        }
        j += 1;
    }
    ignore_ranges
}

/// Tells whether `wanted` names the capture index `index`.
pub fn is_index(wanted: Option<u32>, index: u32) -> (same: bool)
    ensures
        same == (wanted == Some(index)),
{
    match wanted {
        Some(w) => w == index,
        None => false,
    }
}

/// `range` lies inside one of `ignore_ranges`, both ends included.
pub open spec fn is_ignored_by(range: Range, ignore_ranges: Seq<Range>) -> bool {
    exists|i: int| 0 <= i < ignore_ranges.len() && range.inside(#[trigger] ignore_ranges[i])
}

/// Tells whether `range` lies inside an ignored range.
pub fn is_ignored(range: &Range, ignore_ranges: &[Range]) -> (ignored: bool)
    ensures
        ignored == is_ignored_by(*range, ignore_ranges@),
{
    let mut i: usize = 0;
    while i < ignore_ranges.len()
        invariant
            i <= ignore_ranges.len(),
            forall|k: int| 0 <= k < i ==> !range.inside(#[trigger] ignore_ranges@[k]),
        decreases ignore_ranges.len() - i,
    {
        let ignore = &ignore_ranges[i];
        if range.start_byte >= ignore.start_byte && range.end_byte <= ignore.end_byte {
            return true;
        }
        i += 1;
    }
    false
}

} // verus!
