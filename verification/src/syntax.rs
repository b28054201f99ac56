//! The values of the syntax tree that the model stores but never looks into,
//! and the hash maps of the model.
//!
//! Everything here is a boundary to code outside this crate: the contracts in
//! this file are taken on trust, the rest of the crate is proved from them.

use biome_js_syntax::JsSyntaxNode;
use biome_rowan::TextRange;
use rustc_hash::{FxBuildHasher, FxHashMap};
use vstd::prelude::*;

verus! {

/// `biome_rowan::TextRange`, a span of source text. Its two ends are read
/// through [`range_start`] and [`range_end`].
#[verifier::external_type_specification]
#[verifier::external_body]
pub struct ExTextRange(TextRange);

/// `rustc_hash::FxBuildHasher`, the hasher of every map in the model.
#[verifier::external_type_specification]
#[verifier::external_body]
pub struct ExFxBuildHasher(FxBuildHasher);

/// One node of the syntax tree.
///
/// The node type of `biome_rowan` is generic over a language trait that the
/// verifier cannot take, so the node travels inside this holder. Nothing in
/// the crate looks into it; two holders are equal when they denote the same
/// node of the same tree.
#[verifier::external_body]
#[derive(Debug)]
pub struct JsNode(pub JsSyntaxNode);

/// A span as a pair of offsets, start and end.
pub type Span = (u32, u32);

/// The offset at which a span starts: what `TextRange::start` returns.
pub uninterp spec fn range_start(range: TextRange) -> u32;

/// The offset at which a span ends: what `TextRange::end` returns.
pub uninterp spec fn range_end(range: TextRange) -> u32;

/// What a name index holds: for each name, the binding recorded under it.
pub uninterp spec fn name_index(names: FxHashMap<String, usize>) -> Map<Seq<char>, usize>;

/// What a node index holds: for each span, the node recorded under it.
pub uninterp spec fn node_index(nodes: FxHashMap<TextRange, JsNode>) -> Map<Span, JsNode>;

/// The span that a node covers: what `SyntaxNode::text_range` returns.
pub uninterp spec fn node_span(node: JsNode) -> Span;

/// The two offsets of a span, the form in which the node index is keyed.
pub open spec fn span(range: TextRange) -> Span {
    (range_start(range), range_end(range))
}

/// Calls `TextRange::start` and converts the offset to `u32`, which is
/// lossless.
#[verifier::external_body]
pub(crate) fn start_of(range: &TextRange) -> (offset: u32)
    ensures
        offset == range_start(*range),
{
    range.start().into()
}

/// Calls `TextRange::end` and converts the offset to `u32`, which is lossless.
#[verifier::external_body]
pub(crate) fn end_of(range: &TextRange) -> (offset: u32)
    ensures
        offset == range_end(*range),
{
    range.end().into()
}

/// Calls `SyntaxNode::text_range`: the node's offset in the tree and the
/// length of its text.
#[verifier::external_body]
pub(crate) fn node_range(node: &JsNode) -> (range: TextRange)
    ensures
        span(range) == node_span(*node),
{
    node.0.text_range()
}

/// Calls `SyntaxNode::eq`, which compares the identity of two nodes (the tree
/// they belong to and their offset in it), not their text.
#[verifier::external_body]
pub(crate) fn same_node(a: &JsNode, b: &JsNode) -> (same: bool)
    ensures
        same == (*a == *b),
{
    a.0 == b.0
}

/// Calls `FxHashMap::default`: a map with no entry.
#[verifier::external_body]
pub(crate) fn new_name_index() -> (names: FxHashMap<String, usize>)
    ensures
        forall|name: Seq<char>| !name_index(names).contains_key(name),
{
    FxHashMap::default()
}

/// Calls `HashMap::insert`. Strings hash and compare by their characters,
/// so the entry for these characters is added or replaced and every other
/// entry stays.
#[verifier::external_body]
pub(crate) fn insert_name(names: &mut FxHashMap<String, usize>, name: String, binding: usize)
    ensures
        name_index(*final(names)) == name_index(*old(names)).insert(name@, binding),
{
    names.insert(name, binding);
}

/// Calls `HashMap::get` with a string slice, which a string borrows as and
/// hashes as: the binding recorded under exactly these characters, if there
/// is one.
#[verifier::external_body]
pub(crate) fn lookup_name(names: &FxHashMap<String, usize>, name: &str) -> (found: Option<usize>)
    ensures
        found == (if name_index(*names).contains_key(name@) {
            Some(name_index(*names)[name@])
        } else {
            None
        }),
{
    names.get(name).copied()
}

/// Calls `FxHashMap::default`: a map with no entry.
#[verifier::external_body]
pub(crate) fn new_node_index() -> (nodes: FxHashMap<TextRange, JsNode>)
    ensures
        forall|key: Span| !node_index(nodes).contains_key(key),
{
    FxHashMap::default()
}

/// Calls `HashMap::insert`. Spans hash and compare by their two offsets, so
/// the entry for this span is added or replaced and every other entry stays.
#[verifier::external_body]
pub(crate) fn insert_node(nodes: &mut FxHashMap<TextRange, JsNode>, range: TextRange, node: JsNode)
    ensures
        node_index(*final(nodes)) == node_index(*old(nodes)).insert(span(range), node),
{
    nodes.insert(range, node);
}

/// Calls `HashMap::get`: the node recorded under this span, if there is one.
#[verifier::external_body]
pub(crate) fn node_at<'a>(nodes: &'a FxHashMap<TextRange, JsNode>, range: &TextRange) -> (found:
    Option<&'a JsNode>)
    ensures
        match found {
            Some(node) => node_index(*nodes).contains_key(span(*range)) && *node == node_index(
                *nodes,
            )[span(*range)],
            None => !node_index(*nodes).contains_key(span(*range)),
        },
{
    nodes.get(range)
}

} // verus!
