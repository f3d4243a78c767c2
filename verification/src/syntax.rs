//! What the syntax tree of a Devicetree source tells: the matches of the
//! queries that the index is built from, and the node at a position.
//!
//! The tree itself is made by `tree_sitter` with the grammar of
//! `tree_sitter_devicetree`; here its nodes are plain values.

use crate::edit::{columns_of, text_width};
use crate::tracking::{column_of, line_of};
use crate::types::{Position, Range};
use tree_sitter::Query as TreeQuery;
use tree_sitter::{Parser, Point, QueryCursor};
use tree_sitter_devicetree::language;
use vstd::prelude::*;
use vstd::string::*;

verus! {

/// Finds the labels of nodes.
pub const LABELS: &'static str = "(node label: (identifier)@id)";

/// Finds the labels that references name.
pub const REFERENCES: &'static str = "(reference label: (identifier)@id)";

/// Finds the paths of the files that a file is built from.
pub const INCLUDES: &'static str =
    "[(dtsi_include path: (string_literal)@id) (preproc_include path: (string_literal)@id) (preproc_include path: (system_lib_string)@id)]";

/// Finds the names (capture 0) and the values (capture 1) of macros.
pub const DEFINES: &'static str =
    "[(preproc_def name: (identifier)@name value: (preproc_arg)@id) (preproc_function_def name: (identifier)@name parameters: (preproc_params) value: (preproc_arg)@id)]";

/// What is looked for in a syntax tree.
#[derive(Clone, Copy, PartialEq, Eq, Structural, Debug)]
pub enum Query {
    Labels,
    References,
    Includes,
    Defines,
}

impl Query {
    /// The query in the language of `tree_sitter`.
    pub open spec fn source(self) -> Seq<char> {
        match self {
            Query::Labels => LABELS@,
            Query::References => REFERENCES@,
            Query::Includes => INCLUDES@,
            Query::Defines => DEFINES@,
        }
    }

    fn text(self) -> (r: &'static str)
        ensures
            r@ == self.source(),
    {
        match self {
            Query::Labels => LABELS,
            Query::References => REFERENCES,
            Query::Includes => INCLUDES,
            Query::Defines => DEFINES,
        }
    }
}

/// The longest text that is parsed, in bytes of its UTF-8 encoding. The
/// offsets in a syntax tree are 32-bit numbers, and the largest of them stands
/// for no place in a text.
pub const MAX_TEXT_WIDTH: u32 = 0xffff_fffe;

/// Whether `text` is short enough to be parsed.
pub open spec fn is_parsed(text: Seq<char>) -> bool {
    text_width(text) <= MAX_TEXT_WIDTH
}

/// Tells whether `text` is short enough to be parsed.
pub fn can_be_parsed(text: &str) -> (r: bool)
    ensures
        r == is_parsed(text@),
{
    columns_of(text) <= MAX_TEXT_WIDTH
}

/// The part of a text that a node covers, as the syntax tree gives it: the
/// row and the column of its start, then those of its end. The columns count
/// bytes.
#[derive(Clone, Copy, PartialEq, Eq, Structural, Debug)]
pub struct NodeRange(pub usize, pub usize, pub usize, pub usize);

/// A node that a query captured: the number of the capture, the text that
/// the node covers, and where it stands.
#[derive(PartialEq, Eq, Debug)]
pub struct Capture {
    pub index: u32,
    pub text: String,
    pub range: NodeRange,
}

/// What a [`Capture`] stands for.
pub struct CaptureView {
    pub index: u32,
    pub text: Seq<char>,
    pub range: NodeRange,
}

impl DeepView for Capture {
    type V = CaptureView;

    open spec fn deep_view(&self) -> CaptureView {
        CaptureView { index: self.index, text: self.text@, range: self.range }
    }
}

/// A named node of the syntax tree: its kind, the kind of its parent, the
/// text that it covers, and where it stands.
#[derive(PartialEq, Eq, Debug)]
pub struct Node {
    pub kind: String,
    pub parent_kind: Option<String>,
    pub text: String,
    pub range: NodeRange,
}

/// What a [`Node`] stands for.
pub struct NodeView {
    pub kind: Seq<char>,
    pub parent_kind: Option<Seq<char>>,
    pub text: Seq<char>,
    pub range: NodeRange,
}

impl DeepView for Node {
    type V = NodeView;

    open spec fn deep_view(&self) -> NodeView {
        NodeView {
            kind: self.kind@,
            parent_kind: self.parent_kind.deep_view(),
            text: self.text@,
            range: self.range,
        }
    }
}

/// Whether `range` is where `part` stands in `text`: both its ends are the
/// places of characters of `text`, and `part` is what is between them.
pub open spec fn covers(text: Seq<char>, range: NodeRange, part: Seq<char>) -> bool {
    exists|from: int, to: int|
        {
            &&& 0 <= from <= to <= text.len()
            &&& line_of(text, from) == range.0
            &&& column_of(text, from) == range.1
            &&& line_of(text, to) == range.2
            &&& column_of(text, to) == range.3
            &&& part == #[trigger] text.subrange(from, to)
        }
}

/// Whether each capture of `matches` stands in `text` where it says.
pub open spec fn all_cover(text: Seq<char>, matches: Seq<Seq<CaptureView>>) -> bool {
    forall|i: int, k: int|
        0 <= i < matches.len() && 0 <= k < matches[i].len() ==> covers(
            text,
            (#[trigger] matches[i][k]).range,
            matches[i][k].text,
        )
}

/// The matches of `query` in the syntax tree of `text`, each with its
/// captures, in the order in which `tree_sitter` finds them.
pub uninterp spec fn matches_of(text: Seq<char>, query: Seq<char>) -> Seq<Seq<CaptureView>>;

/// The smallest named node of the syntax tree of `text` that spans the given
/// point, as `tree_sitter` finds it.
pub uninterp spec fn node_at_point(text: Seq<char>, row: u32, column: u32) -> Option<NodeView>;

/// Calls `tree_sitter::QueryCursor::matches` on the tree that
/// `tree_sitter::Parser::parse` makes of `text`, and hands out the matches
/// as plain values: of each capture its index, and of its node the text
/// (`Node::utf8_text`) and the range (`Node::range`).
///
/// It is claimed that the matches depend on the text and the query alone, and
/// that the text of a node is what stands between the two points of its range:
/// rows count the line feeds in front of a point, columns the bytes from there
/// on. Only the queries of this module are valid for the grammar.
#[verifier::external_body]
fn query_matches(text: &str, query: &str) -> (r: Vec<Vec<Capture>>)
    requires
        is_parsed(text@),
        exists|known: Query| known.source() == query@,
    ensures
        r.deep_view() == matches_of(text@, query@),
        all_cover(text@, r.deep_view()),
{
    let language = language();
    let mut parser = Parser::new();
    parser.set_language(&language).unwrap();
    let tree = parser.parse(text, None).unwrap();
    let query = TreeQuery::new(&language, query).unwrap();
    let mut cursor = QueryCursor::new();
    let found = cursor.matches(&query, tree.root_node(), text.as_bytes());
    found.map(|m| m.captures.iter().map(|c| {
        let r = c.node.range();
        Capture {
            index: c.index,
            text: c.node.utf8_text(text.as_bytes()).unwrap().to_string(),
            range: NodeRange(r.start_point.row, r.start_point.column, r.end_point.row, r.end_point.column),
        }
    }).collect()).collect()
}

/// Calls `tree_sitter::Node::named_descendant_for_point_range` on the root of
/// the tree that `tree_sitter::Parser::parse` makes of `text`, and hands out
/// the node as plain values: its kind and that of its parent (`Node::kind`,
/// `Node::parent`), its text (`Node::utf8_text`) and its range.
///
/// It is claimed that the node depends on the text and the point alone, and
/// that its text is what stands between the two points of its range, counted
/// in line feeds and bytes.
#[verifier::external_body]
fn named_node(text: &str, row: u32, column: u32) -> (r: Option<Node>)
    requires
        is_parsed(text@),
    ensures
        r.deep_view() == node_at_point(text@, row, column),
        match r {
            Some(node) => covers(text@, node.range, node.text@),
            None => true,
        },
{
    let mut parser = Parser::new();
    parser.set_language(&language()).unwrap();
    let tree = parser.parse(text, None).unwrap();
    let point = Point::new(row as usize, column as usize);
    let node = tree.root_node().named_descendant_for_point_range(point, point)?;
    let r = node.range();
    Some(Node {
        kind: node.kind().to_string(),
        parent_kind: node.parent().map(|parent| parent.kind().to_string()),
        text: node.utf8_text(text.as_bytes()).unwrap().to_string(),
        range: NodeRange(r.start_point.row, r.start_point.column, r.end_point.row, r.end_point.column),
    })
}

/// The matches of `query` in `text`; none where the text is too long to be
/// parsed.
pub open spec fn matches_in(text: Seq<char>, query: Query) -> Seq<Seq<CaptureView>> {
    if is_parsed(text) {
        matches_of(text, query.source())
    } else {
        Seq::empty()
    }
}

/// The node of `text` at `position`; none where the text is too long to be
/// parsed.
pub open spec fn node_in(text: Seq<char>, position: Position) -> Option<NodeView> {
    if is_parsed(text) {
        node_at_point(text, position.line, position.character)
    } else {
        None
    }
}

/// Finds the matches of `query` in `text`.
pub fn find_matches(text: &str, query: Query) -> (r: Vec<Vec<Capture>>)
    ensures
        r.deep_view() == matches_in(text@, query),
        all_cover(text@, r.deep_view()),
{
    if can_be_parsed(text) {
        query_matches(text, query.text())
    } else {
        let none: Vec<Vec<Capture>> = Vec::new();
        assert(none.deep_view() =~= Seq::<Seq<CaptureView>>::empty());
        none
    }
}

/// Finds the smallest named node of `text` at `position`.
pub fn find_node(text: &str, position: Position) -> (r: Option<Node>)
    ensures
        r.deep_view() == node_in(text@, position),
        match r {
            Some(node) => covers(text@, node.range, node.text@),
            None => true,
        },
{
    if can_be_parsed(text) {
        named_node(text, position.line, position.character)
    } else {
        None
    }
}

/// The range of positions that a node covers. Rows and columns past the
/// range of `u32` are cut to their low bits.
pub open spec fn converted_range(range: NodeRange) -> Range {
    Range {
        start: Position {
            line: range.0 as u32,
            character: range.1 as u32,
        },
        end: Position {
            line: range.2 as u32,
            character: range.3 as u32,
        },
    }
}

/// The range of positions that a node covers.
pub fn convert_range(range: &NodeRange) -> (r: Range)
    ensures
        r == converted_range(*range),
{
    Range {
        start: Position {
            line: range.0 as u32,
            character: range.1 as u32,
        },
        end: Position {
            line: range.2 as u32,
            character: range.3 as u32,
        },
    }
}

} // verus!
