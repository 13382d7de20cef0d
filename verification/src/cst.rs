//! The narrow adapter to the Tree-sitter CST: declared opaque types and
//! trusted wrappers from and to plain values. Everything else in the crate is
//! verified against these wrappers' contracts.

use vstd::prelude::*;
use crate::builder::RawCapture;
use tree_sitter::StreamingIterator;

verus! {

#[verifier::external_type_specification]
#[verifier::external_body]
pub struct ExLanguage(tree_sitter::Language);

#[verifier::external_type_specification]
#[verifier::external_body]
pub struct ExParser(tree_sitter::Parser);

#[verifier::external_type_specification]
#[verifier::external_body]
pub struct ExTree(tree_sitter::Tree);

#[verifier::external_type_specification]
#[verifier::external_body]
pub struct ExQuery(tree_sitter::Query);

/// How the CST classifies the smallest node spanning an edit.
#[derive(Clone, Copy, Debug, PartialEq, Eq, Structural)]
pub enum NodeClass {
    /// No node spans the edit.
    Missing,
    /// The spanning node's parent is an error node: the syntax is broken.
    ParentError,
    /// The spanning node is an extra (typically a comment).
    Extra,
    /// An ordinary node.
    Plain,
}

/// Relies on tree_sitter::Parser::new to produce a parser.
#[verifier::external_body]
pub fn parser_new() -> tree_sitter::Parser {
    tree_sitter::Parser::new()
}

/// Relies on tree_sitter::Parser::set_language; true exactly on success.
#[verifier::external_body]
pub fn parser_set_language(p: &mut tree_sitter::Parser, l: &tree_sitter::Language) -> bool {
    p.set_language(l).is_ok()
}

/// Relies on tree_sitter::Parser::parse: parse `text`, reusing `old` for an
/// incremental reparse when given.
#[verifier::external_body]
pub fn parser_parse(
    p: &mut tree_sitter::Parser,
    text: &Vec<u8>,
    old: Option<&tree_sitter::Tree>,
) -> Option<tree_sitter::Tree> {
    p.parse(text.as_slice(), old)
}

/// Relies on tree_sitter::Tree::edit: record a text edit on the tree so the
/// next parse can reuse unchanged parts. Positions are (row, column) pairs.
#[verifier::external_body]
pub fn tree_edit(
    t: &mut tree_sitter::Tree,
    start: usize,
    old_end: usize,
    new_end: usize,
    start_pos: (usize, usize),
    old_end_pos: (usize, usize),
    new_end_pos: (usize, usize),
) {
    t.edit(
        &tree_sitter::InputEdit {
            start_byte: start,
            old_end_byte: old_end,
            new_end_byte: new_end,
            start_position: tree_sitter::Point { row: start_pos.0, column: start_pos.1 },
            old_end_position: tree_sitter::Point { row: old_end_pos.0, column: old_end_pos.1 },
            new_end_position: tree_sitter::Point { row: new_end_pos.0, column: new_end_pos.1 },
        },
    );
}

/// Relies on tree_sitter::Query::new to compile a query.
#[verifier::external_body]
pub fn query_new(l: &tree_sitter::Language, source: &str) -> Option<tree_sitter::Query> {
    tree_sitter::Query::new(l, source).ok()
}

/// Relies on tree_sitter::Query::capture_names, as byte strings.
#[verifier::external_body]
pub fn query_capture_names(q: &tree_sitter::Query) -> Vec<Vec<u8>> {
    q.capture_names().iter().map(|n| n.as_bytes().to_vec()).collect()
}

/// Relies on tree_sitter::QueryCursor::captures: all captures of `q` on the
/// tree, as plain (capture index, byte range) triples, in emission order;
/// restricted to `range` when given.
#[verifier::external_body]
pub fn query_captures(
    q: &tree_sitter::Query,
    t: &tree_sitter::Tree,
    text: &Vec<u8>,
    range: Option<(usize, usize)>,
) -> Vec<RawCapture> {
    let mut cursor = tree_sitter::QueryCursor::new();
    if let Some((lo, hi)) = range {
        cursor.set_byte_range(lo..hi);
    }
    let mut caps = cursor.captures(q, t.root_node(), text.as_slice());
    let mut out = Vec::new();
    while let Some((m, ix)) = caps.next() {
        let cap = m.captures()[*ix];
        out.push(RawCapture { capture_ix: cap.index as usize, start: cap.node.start_byte(), end: cap.node.end_byte() });
    }
    out
}

/// Relies on tree_sitter::Node::descendant_for_byte_range, Node::parent,
/// Node::is_error and Node::is_extra: classify the smallest node spanning
/// `[start, end]`.
#[verifier::external_body]
pub fn node_class_at(t: &tree_sitter::Tree, start: usize, end: usize) -> NodeClass {
    match t.root_node().descendant_for_byte_range(start, end) {
        None => NodeClass::Missing,
        Some(node) => {
            if node.parent().map(|p| p.is_error()).unwrap_or(false) {
                NodeClass::ParentError
            } else if node.is_extra() {
                NodeClass::Extra
            } else {
                NodeClass::Plain
            }
        },
    }
}

/// Relies on tree_sitter::Tree::root_node and Node::{named_child,
/// named_child_count, start_byte, end_byte}: dump every named node of the
/// tree as a plain (start, end, parent index) triple, parents before their
/// children, the root first with no parent.
#[verifier::external_body]
pub fn tree_named_nodes(t: &tree_sitter::Tree) -> Vec<(usize, usize, Option<usize>)> {
    let root = t.root_node();
    let mut out = vec![(root.start_byte(), root.end_byte(), None)];
    let mut work = vec![(root, 0usize)];
    while let Some((node, pix)) = work.pop() {
        for i in 0..node.named_child_count() as u32 {
            if let Some(c) = node.named_child(i) {
                let ix = out.len();
                out.push((c.start_byte(), c.end_byte(), Some(pix)));
                work.push((c, ix));
            }
        }
    }
    out
}

} // verus!
