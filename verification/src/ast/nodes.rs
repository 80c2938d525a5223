//! Typed views of nodes.

use vstd::prelude::*;
use vstd::string::*;

use crate::ast::scalar::Scalar;
use crate::syntax::green::Tree;
use crate::syntax::kind::SyntaxKind;
use crate::syntax::node;
use crate::syntax::node::{SyntaxElement, SyntaxNode, SyntaxToken};
use crate::syntax::path;
use crate::syntax::walk;
use crate::syntax::walk::TextRange;
use crate::text;
use crate::text::{chars_of, chars_slice, find_char, string_of};

verus! {

/// A typed view of the nodes of some kinds.
pub trait AstNode: Sized {
    /// Whether the type stands for such a node.
    spec fn accepts(t: Tree) -> bool;

    /// The node that is viewed.
    spec fn node(&self) -> SyntaxNode;

    /// Whether the view fits the node's kind.
    spec fn fits(&self) -> bool;

    /// The view of a node, if it is of the right kind.
    fn cast(n: SyntaxNode) -> (r: Option<Self>)
        ensures
            match r {
                Some(x) => Self::accepts(n.tree()) && x.node() == n && x.fits(),
                None => !Self::accepts(n.tree()),
            },
    ;

    /// The node that is viewed.
    fn syntax(&self) -> (r: &SyntaxNode)
        ensures
            *r == self.node(),
    ;

    /// Where the text of the node begins and ends.
    fn text_range(&self) -> (r: TextRange)
        requires
            self.node().wf(),
        ensures
            r.start == walk::offset(self.node().whole(), self.node().path@),
            r.end == walk::end_offset(self.node().whole(), self.node().path@),
    {
        self.syntax().text_range()
    }
}

/// The nodes that `T` stands for.
pub open spec fn typed<T: AstNode>() -> spec_fn(Tree) -> bool {
    |t: Tree| t is Node && T::accepts(t)
}

/// Views of the children that `T` stands for, in order.
pub fn typed_children<T: AstNode>(n: &SyntaxNode) -> (r: Vec<T>)
    requires
        n.wf(),
    ensures
        r@.len() == node::places(n.parts(), typed::<T>()).len(),
        forall|i: int|
            0 <= i < r@.len() ==> (#[trigger] r@[i]).fits() && r@[i].node().is_child_of(
                *n,
                node::places(n.parts(), typed::<T>())[i],
            ),
{
    let len = n.len();
    let ghost cs = n.parts();
    let mut r: Vec<T> = Vec::new();
    let mut i: usize = 0;
    assert(cs.take(0) =~= seq![]);
    while i < len
        invariant
            n.wf(),
            i <= len,
            cs == n.parts(),
            len == cs.len(),
            r@.len() == node::places(cs.take(i as int), typed::<T>()).len(),
            forall|j: int|
                0 <= j < r@.len() ==> (#[trigger] r@[j]).fits() && r@[j].node().is_child_of(
                    *n,
                    node::places(cs.take(i as int), typed::<T>())[j],
                ),
        decreases len - i,
    {
        proof {
            assert(cs.take(i + 1).drop_last() =~= cs.take(i as int));
        }
        if let SyntaxElement::Node(c) = n.child_or_token(i) {
            if let Some(x) = T::cast(c) {
                r.push(x);
            }
        }
        i = i + 1;
    }
    assert(cs.take(len as int) =~= cs);
    r
}

/// A view of the child at place `k` among those that `T` stands for.
pub fn nth_typed<T: AstNode>(n: &SyntaxNode, k: usize) -> (r: Option<T>)
    requires
        n.wf(),
    ensures
        nth_is(r, *n, k as int),
{
    let ghost cs = n.parts();
    let len = n.len();
    let mut seen: usize = 0;
    let mut i: usize = 0;
    assert(cs.take(0) =~= seq![]);
    while i < len
        invariant
            n.wf(),
            i <= len,
            cs == n.parts(),
            len == cs.len(),
            seen <= i,
            seen <= k,
            seen == node::places(cs.take(i as int), typed::<T>()).len(),
        decreases len - i,
    {
        proof {
            assert(cs.take(i + 1).drop_last() =~= cs.take(i as int));
        }
        if let SyntaxElement::Node(c) = n.child_or_token(i) {
            if let Some(x) = T::cast(c) {
                if seen == k {
                    proof {
                        lemma_places_prefix(cs, i + 1, typed::<T>());
                        assert(node::places(cs.take(i + 1), typed::<T>())[k as int] == i);
                    }
                    return Some(x);
                }
                seen = seen + 1;
            }
        }
        i = i + 1;
    }
    assert(cs.take(len as int) =~= cs);
    None
}

/// Whether `r` views the child of `n` at place `k` among those that `T` stands
/// for.
pub open spec fn nth_is<T: AstNode>(r: Option<T>, n: SyntaxNode, k: int) -> bool {
    let p = node::places(n.parts(), typed::<T>());
    match r {
        Some(x) => k < p.len() && x.fits() && x.node().is_child_of(n, p[k]),
        None => p.len() <= k,
    }
}

/// The places in the first `i` trees are the first of the places.
proof fn lemma_places_prefix(cs: Seq<Tree>, i: int, f: spec_fn(Tree) -> bool)
    requires
        0 <= i <= cs.len(),
    ensures
        node::places(cs.take(i), f).len() <= node::places(cs, f).len(),
        forall|j: int|
            0 <= j < node::places(cs.take(i), f).len() ==> node::places(cs, f)[j]
                == #[trigger] node::places(cs.take(i), f)[j],
    decreases cs.len(),
{
    if i < cs.len() {
        lemma_places_prefix(cs.drop_last(), i, f);
        assert(cs.drop_last().take(i) =~= cs.take(i));
    } else {
        assert(cs.take(i) =~= cs);
    }
}

/// The whole text.
pub struct Stream(pub SyntaxNode);

impl AstNode for Stream {
    open spec fn accepts(t: Tree) -> bool {
        t.kind() == SyntaxKind::STREAM.code()
    }

    open spec fn node(&self) -> SyntaxNode {
        self.0
    }

    open spec fn fits(&self) -> bool {
        Self::accepts(self.0.tree())
    }

    fn cast(n: SyntaxNode) -> (r: Option<Self>) {
        if n.is(SyntaxKind::STREAM) {
            Some(Stream(n))
        } else {
            None
        }
    }

    fn syntax(&self) -> (r: &SyntaxNode) {
        &self.0
    }
}

/// A document.
pub struct Document(pub SyntaxNode);

impl AstNode for Document {
    open spec fn accepts(t: Tree) -> bool {
        t.kind() == SyntaxKind::DOCUMENT.code()
    }

    open spec fn node(&self) -> SyntaxNode {
        self.0
    }

    open spec fn fits(&self) -> bool {
        Self::accepts(self.0.tree())
    }

    fn cast(n: SyntaxNode) -> (r: Option<Self>) {
        if n.is(SyntaxKind::DOCUMENT) {
            Some(Document(n))
        } else {
            None
        }
    }

    fn syntax(&self) -> (r: &SyntaxNode) {
        &self.0
    }
}

/// The directives before a document.
pub struct Directives(pub SyntaxNode);

impl AstNode for Directives {
    open spec fn accepts(t: Tree) -> bool {
        t.kind() == SyntaxKind::DIRECTIVES.code()
    }

    open spec fn node(&self) -> SyntaxNode {
        self.0
    }

    open spec fn fits(&self) -> bool {
        Self::accepts(self.0.tree())
    }

    fn cast(n: SyntaxNode) -> (r: Option<Self>) {
        if n.is(SyntaxKind::DIRECTIVES) {
            Some(Directives(n))
        } else {
            None
        }
    }

    fn syntax(&self) -> (r: &SyntaxNode) {
        &self.0
    }
}

/// A mapping in block style.
pub struct BlockMapping(pub SyntaxNode);

impl AstNode for BlockMapping {
    open spec fn accepts(t: Tree) -> bool {
        t.kind() == SyntaxKind::BLOCK_MAPPING.code()
    }

    open spec fn node(&self) -> SyntaxNode {
        self.0
    }

    open spec fn fits(&self) -> bool {
        Self::accepts(self.0.tree())
    }

    fn cast(n: SyntaxNode) -> (r: Option<Self>) {
        if n.is(SyntaxKind::BLOCK_MAPPING) {
            Some(BlockMapping(n))
        } else {
            None
        }
    }

    fn syntax(&self) -> (r: &SyntaxNode) {
        &self.0
    }
}

/// An entry of a mapping in block style.
pub struct BlockMappingEntry(pub SyntaxNode);

impl AstNode for BlockMappingEntry {
    open spec fn accepts(t: Tree) -> bool {
        t.kind() == SyntaxKind::BLOCK_MAPPING_ENTRY.code()
    }

    open spec fn node(&self) -> SyntaxNode {
        self.0
    }

    open spec fn fits(&self) -> bool {
        Self::accepts(self.0.tree())
    }

    fn cast(n: SyntaxNode) -> (r: Option<Self>) {
        if n.is(SyntaxKind::BLOCK_MAPPING_ENTRY) {
            Some(BlockMappingEntry(n))
        } else {
            None
        }
    }

    fn syntax(&self) -> (r: &SyntaxNode) {
        &self.0
    }
}

/// A sequence in block style.
pub struct BlockSequence(pub SyntaxNode);

impl AstNode for BlockSequence {
    open spec fn accepts(t: Tree) -> bool {
        t.kind() == SyntaxKind::BLOCK_SEQUENCE.code()
    }

    open spec fn node(&self) -> SyntaxNode {
        self.0
    }

    open spec fn fits(&self) -> bool {
        Self::accepts(self.0.tree())
    }

    fn cast(n: SyntaxNode) -> (r: Option<Self>) {
        if n.is(SyntaxKind::BLOCK_SEQUENCE) {
            Some(BlockSequence(n))
        } else {
            None
        }
    }

    fn syntax(&self) -> (r: &SyntaxNode) {
        &self.0
    }
}

/// An entry of a sequence in block style.
pub struct BlockSequenceEntry(pub SyntaxNode);

impl AstNode for BlockSequenceEntry {
    open spec fn accepts(t: Tree) -> bool {
        t.kind() == SyntaxKind::BLOCK_SEQUENCE_ENTRY.code()
    }

    open spec fn node(&self) -> SyntaxNode {
        self.0
    }

    open spec fn fits(&self) -> bool {
        Self::accepts(self.0.tree())
    }

    fn cast(n: SyntaxNode) -> (r: Option<Self>) {
        if n.is(SyntaxKind::BLOCK_SEQUENCE_ENTRY) {
            Some(BlockSequenceEntry(n))
        } else {
            None
        }
    }

    fn syntax(&self) -> (r: &SyntaxNode) {
        &self.0
    }
}

/// A mapping in flow style.
pub struct FlowMapping(pub SyntaxNode);

impl AstNode for FlowMapping {
    open spec fn accepts(t: Tree) -> bool {
        t.kind() == SyntaxKind::FLOW_MAPPING.code()
    }

    open spec fn node(&self) -> SyntaxNode {
        self.0
    }

    open spec fn fits(&self) -> bool {
        Self::accepts(self.0.tree())
    }

    fn cast(n: SyntaxNode) -> (r: Option<Self>) {
        if n.is(SyntaxKind::FLOW_MAPPING) {
            Some(FlowMapping(n))
        } else {
            None
        }
    }

    fn syntax(&self) -> (r: &SyntaxNode) {
        &self.0
    }
}

/// An entry of a mapping in flow style.
pub struct FlowMappingEntry(pub SyntaxNode);

impl AstNode for FlowMappingEntry {
    open spec fn accepts(t: Tree) -> bool {
        t.kind() == SyntaxKind::FLOW_MAPPING_ENTRY.code()
    }

    open spec fn node(&self) -> SyntaxNode {
        self.0
    }

    open spec fn fits(&self) -> bool {
        Self::accepts(self.0.tree())
    }

    fn cast(n: SyntaxNode) -> (r: Option<Self>) {
        if n.is(SyntaxKind::FLOW_MAPPING_ENTRY) {
            Some(FlowMappingEntry(n))
        } else {
            None
        }
    }

    fn syntax(&self) -> (r: &SyntaxNode) {
        &self.0
    }
}

/// A sequence in flow style.
pub struct FlowSequence(pub SyntaxNode);

impl AstNode for FlowSequence {
    open spec fn accepts(t: Tree) -> bool {
        t.kind() == SyntaxKind::FLOW_SEQUENCE.code()
    }

    open spec fn node(&self) -> SyntaxNode {
        self.0
    }

    open spec fn fits(&self) -> bool {
        Self::accepts(self.0.tree())
    }

    fn cast(n: SyntaxNode) -> (r: Option<Self>) {
        if n.is(SyntaxKind::FLOW_SEQUENCE) {
            Some(FlowSequence(n))
        } else {
            None
        }
    }

    fn syntax(&self) -> (r: &SyntaxNode) {
        &self.0
    }
}

/// An entry of a sequence in flow style.
pub struct FlowSequenceEntry(pub SyntaxNode);

impl AstNode for FlowSequenceEntry {
    open spec fn accepts(t: Tree) -> bool {
        t.kind() == SyntaxKind::FLOW_SEQUENCE_ENTRY.code()
    }

    open spec fn node(&self) -> SyntaxNode {
        self.0
    }

    open spec fn fits(&self) -> bool {
        Self::accepts(self.0.tree())
    }

    fn cast(n: SyntaxNode) -> (r: Option<Self>) {
        if n.is(SyntaxKind::FLOW_SEQUENCE_ENTRY) {
            Some(FlowSequenceEntry(n))
        } else {
            None
        }
    }

    fn syntax(&self) -> (r: &SyntaxNode) {
        &self.0
    }
}

/// An alias.
pub struct AliasNode(pub SyntaxNode);

impl AstNode for AliasNode {
    open spec fn accepts(t: Tree) -> bool {
        t.kind() == SyntaxKind::ALIAS_NODE.code()
    }

    open spec fn node(&self) -> SyntaxNode {
        self.0
    }

    open spec fn fits(&self) -> bool {
        Self::accepts(self.0.tree())
    }

    fn cast(n: SyntaxNode) -> (r: Option<Self>) {
        if n.is(SyntaxKind::ALIAS_NODE) {
            Some(AliasNode(n))
        } else {
            None
        }
    }

    fn syntax(&self) -> (r: &SyntaxNode) {
        &self.0
    }
}

/// The properties of a node: an anchor, a tag.
pub struct NodeProperties(pub SyntaxNode);

impl AstNode for NodeProperties {
    open spec fn accepts(t: Tree) -> bool {
        t.kind() == SyntaxKind::NODE_PROPERTIES.code()
    }

    open spec fn node(&self) -> SyntaxNode {
        self.0
    }

    open spec fn fits(&self) -> bool {
        Self::accepts(self.0.tree())
    }

    fn cast(n: SyntaxNode) -> (r: Option<Self>) {
        if n.is(SyntaxKind::NODE_PROPERTIES) {
            Some(NodeProperties(n))
        } else {
            None
        }
    }

    fn syntax(&self) -> (r: &SyntaxNode) {
        &self.0
    }
}

/// A value.
pub enum Node {
    BlockMapping(BlockMapping),
    BlockSequence(BlockSequence),
    FlowMapping(FlowMapping),
    FlowSequence(FlowSequence),
    Scalar(Scalar),
    Alias(AliasNode),
}

/// Whether a tree is that of a value.
pub open spec fn is_value(t: Tree) -> bool {
    ||| BlockMapping::accepts(t)
    ||| BlockSequence::accepts(t)
    ||| FlowMapping::accepts(t)
    ||| FlowSequence::accepts(t)
    ||| Scalar::accepts(t)
    ||| AliasNode::accepts(t)
}

impl AstNode for Node {
    open spec fn accepts(t: Tree) -> bool {
        is_value(t)
    }

    open spec fn node(&self) -> SyntaxNode {
        match self {
            Node::BlockMapping(x) => x.0,
            Node::BlockSequence(x) => x.0,
            Node::FlowMapping(x) => x.0,
            Node::FlowSequence(x) => x.0,
            Node::Scalar(x) => x.0,
            Node::Alias(x) => x.0,
        }
    }

    open spec fn fits(&self) -> bool {
        match self {
            Node::BlockMapping(x) => x.fits(),
            Node::BlockSequence(x) => x.fits(),
            Node::FlowMapping(x) => x.fits(),
            Node::FlowSequence(x) => x.fits(),
            Node::Scalar(x) => x.fits(),
            Node::Alias(x) => x.fits(),
        }
    }

    fn cast(n: SyntaxNode) -> (r: Option<Self>) {
        if n.is(SyntaxKind::BLOCK_MAPPING) {
            Some(Node::BlockMapping(BlockMapping(n)))
        } else if n.is(SyntaxKind::BLOCK_SEQUENCE) {
            Some(Node::BlockSequence(BlockSequence(n)))
        } else if n.is(SyntaxKind::FLOW_MAPPING) {
            Some(Node::FlowMapping(FlowMapping(n)))
        } else if n.is(SyntaxKind::FLOW_SEQUENCE) {
            Some(Node::FlowSequence(FlowSequence(n)))
        } else if n.is(SyntaxKind::SCALAR) || n.is(SyntaxKind::NULL_SCALAR) {
            Some(Node::Scalar(Scalar(n)))
        } else if n.is(SyntaxKind::ALIAS_NODE) {
            Some(Node::Alias(AliasNode(n)))
        } else {
            None
        }
    }

    fn syntax(&self) -> (r: &SyntaxNode) {
        match self {
            Node::BlockMapping(x) => &x.0,
            Node::BlockSequence(x) => &x.0,
            Node::FlowMapping(x) => &x.0,
            Node::FlowSequence(x) => &x.0,
            Node::Scalar(x) => &x.0,
            Node::Alias(x) => &x.0,
        }
    }
}

/// Whether `r` is the first token of kind `k` among the children of `n`.
pub open spec fn first_token_is(r: Option<SyntaxToken>, n: SyntaxNode, k: SyntaxKind) -> bool {
    match node::place_from(n.parts(), 0, node::tokens_of(k)) {
        Some(i) => r is Some && r->0.is_child_of(n, i),
        None => r is None,
    }
}

/// Whether `r` views the children of `n` that `T` stands for, in order.
pub open spec fn all_typed<T: AstNode>(r: Seq<T>, n: SyntaxNode) -> bool {
    let p = node::places(n.parts(), typed::<T>());
    &&& r.len() == p.len()
    &&& forall|i: int|
        0 <= i < r.len() ==> (#[trigger] r[i]).fits() && r[i].node().is_child_of(n, p[i])
}

/// Where the properties of the child at `i` stand: before it, with only trivia
/// between.
pub open spec fn properties_place(cs: Seq<Tree>, i: int) -> Option<int>
    decreases i,
{
    if i <= 0 {
        None
    } else if cs[i - 1].is_trivia() {
        properties_place(cs, i - 1)
    } else if cs[i - 1].is_node_of(SyntaxKind::NODE_PROPERTIES) {
        Some(i - 1)
    } else {
        None
    }
}

/// The node that holds `n`, where there is one.
pub open spec fn holder(n: SyntaxNode) -> Tree {
    path::tree_at(n.whole(), n.path@.drop_last())->0
}

/// Whether `r` views the properties of `n`.
pub open spec fn properties_are(r: Option<NodeProperties>, n: SyntaxNode) -> bool {
    let at = properties_place(holder(n).children(), n.path@.last() as int);
    if n.path@.len() == 0 {
        r is None
    } else {
        match r {
            Some(x) => {
                &&& at is Some
                &&& x.fits()
                &&& x.0.wf()
                &&& x.0.whole() == n.whole()
                &&& x.0.path@ == n.path@.drop_last().push(at->0 as usize)
                &&& x.0.tree() == holder(n).children()[at->0]
            },
            None => at is None,
        }
    }
}

/// The properties that stand before a node. They are no child of the node.
pub fn preceding_properties(n: &SyntaxNode) -> (r: Option<NodeProperties>)
    requires
        n.wf(),
    ensures
        properties_are(r, *n),
{
    let parent = match n.parent() {
        Some(p) => p,
        None => {
            return None;
        },
    };
    let index = n.index();
    let ghost cs = parent.parts();
    let mut i = index;
    while i > 0
        invariant
            parent.wf(),
            cs == parent.parts(),
            i <= index < cs.len(),
            properties_place(cs, i as int) == properties_place(cs, index as int),
            n.path@.len() > 0,
            parent.path@ == n.path@.drop_last(),
            parent.whole() == n.whole(),
            cs == holder(*n).children(),
            index == n.path@.last(),
        decreases i,
    {
        match parent.child_or_token(i - 1) {
            SyntaxElement::Token(t) => {
                if !t.is_trivia() {
                    return None;
                }
            },
            SyntaxElement::Node(p) => {
                return NodeProperties::cast(p);
            },
        }
        i = i - 1;
    }
    None
}

impl Stream {
    /// The documents, in order.
    pub fn documents(&self) -> (r: Vec<Document>)
        requires
            self.0.wf(),
        ensures
            all_typed(r@, self.0),
    {
        typed_children(&self.0)
    }

    /// How many documents there are.
    pub fn len(&self) -> (r: usize)
        requires
            self.0.wf(),
        ensures
            r == node::places(self.0.parts(), typed::<Document>()).len(),
    {
        self.documents().len()
    }

    /// Whether there is no document.
    pub fn is_empty(&self) -> (r: bool)
        requires
            self.0.wf(),
        ensures
            r == (node::places(self.0.parts(), typed::<Document>()).len() == 0),
    {
        self.len() == 0
    }
}

impl Document {
    /// The directives in the document.
    pub fn directives(&self) -> (r: Option<Directives>)
        requires
            self.0.wf(),
        ensures
            nth_is(r, self.0, 0),
    {
        nth_typed(&self.0, 0)
    }

    /// The `---` that begins the document.
    pub fn directives_end_token(&self) -> (r: Option<SyntaxToken>)
        requires
            self.0.wf(),
        ensures
            first_token_is(r, self.0, SyntaxKind::DIRECTIVES_END),
    {
        self.0.first_child_token(SyntaxKind::DIRECTIVES_END)
    }

    /// The `...` that ends the document.
    pub fn document_end_token(&self) -> (r: Option<SyntaxToken>)
        requires
            self.0.wf(),
        ensures
            first_token_is(r, self.0, SyntaxKind::DOCUMENT_END),
    {
        self.0.first_child_token(SyntaxKind::DOCUMENT_END)
    }

    /// The value of the document.
    pub fn root_node(&self) -> (r: Option<Node>)
        requires
            self.0.wf(),
        ensures
            nth_is(r, self.0, 0),
    {
        nth_typed(&self.0, 0)
    }
}

impl Directives {
    /// The directives, in order.
    pub fn directives(&self) -> (r: Vec<SyntaxToken>)
        requires
            self.0.wf(),
        ensures
            r@.len() == node::places(
                self.0.parts(),
                node::tokens_of(SyntaxKind::DIRECTIVE),
            ).len(),
            forall|i: int|
                0 <= i < r@.len() ==> (#[trigger] r@[i]).is_child_of(
                    self.0,
                    node::places(self.0.parts(), node::tokens_of(SyntaxKind::DIRECTIVE))[i],
                ),
    {
        self.0.child_tokens(SyntaxKind::DIRECTIVE)
    }
}

impl BlockMapping {
    /// The entries, in order.
    pub fn entries(&self) -> (r: Vec<BlockMappingEntry>)
        requires
            self.0.wf(),
        ensures
            all_typed(r@, self.0),
    {
        typed_children(&self.0)
    }

    /// The properties that stand before the node.
    pub fn properties(&self) -> (r: Option<NodeProperties>)
        requires
            self.0.wf(),
        ensures
            properties_are(r, self.0),
    {
        preceding_properties(&self.0)
    }
}

impl BlockMappingEntry {
    /// The `?` of an explicit entry.
    pub fn question_token(&self) -> (r: Option<SyntaxToken>)
        requires
            self.0.wf(),
        ensures
            first_token_is(r, self.0, SyntaxKind::QUESTION),
    {
        self.0.first_child_token(SyntaxKind::QUESTION)
    }

    /// The key.
    pub fn key(&self) -> (r: Option<Node>)
        requires
            self.0.wf(),
        ensures
            nth_is(r, self.0, 0),
    {
        nth_typed(&self.0, 0)
    }

    /// The `:`.
    pub fn colon_token(&self) -> (r: Option<SyntaxToken>)
        requires
            self.0.wf(),
        ensures
            first_token_is(r, self.0, SyntaxKind::COLON),
    {
        self.0.first_child_token(SyntaxKind::COLON)
    }

    /// The value.
    pub fn value(&self) -> (r: Option<Node>)
        requires
            self.0.wf(),
        ensures
            nth_is(r, self.0, 1),
    {
        nth_typed(&self.0, 1)
    }
}

impl BlockSequence {
    /// The entries, in order.
    pub fn entries(&self) -> (r: Vec<BlockSequenceEntry>)
        requires
            self.0.wf(),
        ensures
            all_typed(r@, self.0),
    {
        typed_children(&self.0)
    }

    /// The properties that stand before the node.
    pub fn properties(&self) -> (r: Option<NodeProperties>)
        requires
            self.0.wf(),
        ensures
            properties_are(r, self.0),
    {
        preceding_properties(&self.0)
    }
}

impl BlockSequenceEntry {
    /// The `-`.
    pub fn dash_token(&self) -> (r: Option<SyntaxToken>)
        requires
            self.0.wf(),
        ensures
            first_token_is(r, self.0, SyntaxKind::DASH),
    {
        self.0.first_child_token(SyntaxKind::DASH)
    }

    /// The value.
    pub fn value(&self) -> (r: Option<Node>)
        requires
            self.0.wf(),
        ensures
            nth_is(r, self.0, 0),
    {
        nth_typed(&self.0, 0)
    }
}

impl FlowMapping {
    /// The `{`.
    pub fn l_brace(&self) -> (r: Option<SyntaxToken>)
        requires
            self.0.wf(),
        ensures
            first_token_is(r, self.0, SyntaxKind::L_BRACE),
    {
        self.0.first_child_token(SyntaxKind::L_BRACE)
    }

    /// The `}`.
    pub fn r_brace(&self) -> (r: Option<SyntaxToken>)
        requires
            self.0.wf(),
        ensures
            first_token_is(r, self.0, SyntaxKind::R_BRACE),
    {
        self.0.first_child_token(SyntaxKind::R_BRACE)
    }

    /// The entries, in order.
    pub fn entries(&self) -> (r: Vec<FlowMappingEntry>)
        requires
            self.0.wf(),
        ensures
            all_typed(r@, self.0),
    {
        typed_children(&self.0)
    }

    /// The properties that stand before the node.
    pub fn properties(&self) -> (r: Option<NodeProperties>)
        requires
            self.0.wf(),
        ensures
            properties_are(r, self.0),
    {
        preceding_properties(&self.0)
    }
}

impl FlowMappingEntry {
    /// The `?` of an explicit entry.
    pub fn question_token(&self) -> (r: Option<SyntaxToken>)
        requires
            self.0.wf(),
        ensures
            first_token_is(r, self.0, SyntaxKind::QUESTION),
    {
        self.0.first_child_token(SyntaxKind::QUESTION)
    }

    /// The key.
    pub fn key(&self) -> (r: Option<Node>)
        requires
            self.0.wf(),
        ensures
            nth_is(r, self.0, 0),
    {
        nth_typed(&self.0, 0)
    }

    /// The `:`.
    pub fn colon_token(&self) -> (r: Option<SyntaxToken>)
        requires
            self.0.wf(),
        ensures
            first_token_is(r, self.0, SyntaxKind::COLON),
    {
        self.0.first_child_token(SyntaxKind::COLON)
    }

    /// The value.
    pub fn value(&self) -> (r: Option<Node>)
        requires
            self.0.wf(),
        ensures
            nth_is(r, self.0, 1),
    {
        nth_typed(&self.0, 1)
    }
}

impl FlowSequence {
    /// The `[`.
    pub fn l_bracket(&self) -> (r: Option<SyntaxToken>)
        requires
            self.0.wf(),
        ensures
            first_token_is(r, self.0, SyntaxKind::L_BRACKET),
    {
        self.0.first_child_token(SyntaxKind::L_BRACKET)
    }

    /// The `]`.
    pub fn r_bracket(&self) -> (r: Option<SyntaxToken>)
        requires
            self.0.wf(),
        ensures
            first_token_is(r, self.0, SyntaxKind::R_BRACKET),
    {
        self.0.first_child_token(SyntaxKind::R_BRACKET)
    }

    /// The entries, in order.
    pub fn entries(&self) -> (r: Vec<FlowSequenceEntry>)
        requires
            self.0.wf(),
        ensures
            all_typed(r@, self.0),
    {
        typed_children(&self.0)
    }

    /// The properties that stand before the node.
    pub fn properties(&self) -> (r: Option<NodeProperties>)
        requires
            self.0.wf(),
        ensures
            properties_are(r, self.0),
    {
        preceding_properties(&self.0)
    }
}

impl FlowSequenceEntry {
    /// The value.
    pub fn value(&self) -> (r: Option<Node>)
        requires
            self.0.wf(),
        ensures
            nth_is(r, self.0, 0),
    {
        nth_typed(&self.0, 0)
    }
}

/// `s` without the one `c` it begins with.
pub open spec fn without_leading(s: Seq<char>, c: char) -> Seq<char> {
    if s.len() > 0 && s[0] == c {
        s.skip(1)
    } else {
        s
    }
}

/// A text without the one `c` it begins with.
fn strip_leading(s: &str, c: char) -> (r: String)
    ensures
        r@ == without_leading(s@, c),
{
    let v = chars_of(s);
    let start: usize = if v.len() > 0 && v[0] == c {
        1
    } else {
        0
    };
    let rest = chars_slice(&v, start, v.len());
    assert(rest@ =~= without_leading(v@, c));
    string_of(&rest)
}

/// The text of the first token of kind `k` among `cs`.
pub open spec fn first_text(cs: Seq<Tree>, k: SyntaxKind) -> Option<Seq<char>> {
    match node::place_from(cs, 0, node::tokens_of(k)) {
        Some(i) => Some(cs[i].text()),
        None => None,
    }
}

impl AliasNode {
    /// The token of the alias.
    pub fn alias_token(&self) -> (r: Option<SyntaxToken>)
        requires
            self.0.wf(),
        ensures
            first_token_is(r, self.0, SyntaxKind::ALIAS),
    {
        self.0.first_child_token(SyntaxKind::ALIAS)
    }

    /// The properties that stand before the node.
    pub fn properties(&self) -> (r: Option<NodeProperties>)
        requires
            self.0.wf(),
        ensures
            properties_are(r, self.0),
    {
        preceding_properties(&self.0)
    }

    /// The name that the alias refers to: the text behind the `*`.
    pub fn name(&self) -> (r: Option<String>)
        requires
            self.0.wf(),
        ensures
            match first_text(self.0.parts(), SyntaxKind::ALIAS) {
                Some(s) => r is Some && r->0@ == without_leading(s, '*'),
                None => r is None,
            },
    {
        match self.alias_token() {
            Some(t) => Some(strip_leading(t.text(), '*')),
            None => None,
        }
    }
}

impl NodeProperties {
    /// The anchor.
    pub fn anchor(&self) -> (r: Option<SyntaxToken>)
        requires
            self.0.wf(),
        ensures
            first_token_is(r, self.0, SyntaxKind::ANCHOR),
    {
        self.0.first_child_token(SyntaxKind::ANCHOR)
    }

    /// The tag.
    pub fn tag(&self) -> (r: Option<SyntaxToken>)
        requires
            self.0.wf(),
        ensures
            first_token_is(r, self.0, SyntaxKind::TAG),
    {
        self.0.first_child_token(SyntaxKind::TAG)
    }

    /// The name of the anchor: the text behind the `&`.
    pub fn anchor_name(&self) -> (r: Option<String>)
        requires
            self.0.wf(),
        ensures
            match first_text(self.0.parts(), SyntaxKind::ANCHOR) {
                Some(s) => r is Some && r->0@ == without_leading(s, '&'),
                None => r is None,
            },
    {
        match self.anchor() {
            Some(t) => Some(strip_leading(t.text(), '&')),
            None => None,
        }
    }

    /// The tag, by its form.
    pub fn tag_value(&self) -> (r: Option<Tag>)
        requires
            self.0.wf(),
        ensures
            match first_text(self.0.parts(), SyntaxKind::TAG) {
                Some(s) => r is Some && r->0@ == tag_form(s),
                None => r is None,
            },
    {
        match self.tag() {
            Some(t) => Some(Tag::parse(t.text())),
            None => None,
        }
    }

    /// The anchor and the tag, in the order in which they stand.
    pub fn properties_in_order(&self) -> (r: Vec<SyntaxToken>)
        requires
            self.0.wf(),
        ensures
            r@.len() == node::places(self.0.parts(), property_tokens()).len(),
            forall|i: int|
                0 <= i < r@.len() ==> (#[trigger] r@[i]).is_child_of(
                    self.0,
                    node::places(self.0.parts(), property_tokens())[i],
                ),
    {
        let n = &self.0;
        let len = n.len();
        let ghost cs = n.parts();
        let mut r: Vec<SyntaxToken> = Vec::new();
        let mut i: usize = 0;
        assert(cs.take(0) =~= seq![]);
        while i < len
            invariant
                n.wf(),
                *n == self.0,
                i <= len,
                cs == n.parts(),
                len == cs.len(),
                r@.len() == node::places(cs.take(i as int), property_tokens()).len(),
                forall|j: int|
                    0 <= j < r@.len() ==> (#[trigger] r@[j]).is_child_of(
                        *n,
                        node::places(cs.take(i as int), property_tokens())[j],
                    ),
            decreases len - i,
        {
            proof {
                assert(cs.take(i + 1).drop_last() =~= cs.take(i as int));
            }
            if let SyntaxElement::Token(t) = n.child_or_token(i) {
                if t.is(SyntaxKind::ANCHOR) || t.is(SyntaxKind::TAG) {
                    r.push(t);
                }
            }
            i = i + 1;
        }
        assert(cs.take(len as int) =~= cs);
        r
    }
}

/// Anchors and tags.
pub open spec fn property_tokens() -> spec_fn(Tree) -> bool {
    |t: Tree| t.is_token_of(SyntaxKind::ANCHOR) || t.is_token_of(SyntaxKind::TAG)
}

impl Node {
    /// The properties that stand before the value. An alias has none: it is
    /// complete by itself.
    pub fn properties(&self) -> (r: Option<NodeProperties>)
        requires
            self.node().wf(),
        ensures
            if *self is Alias {
                r is None
            } else {
                properties_are(r, self.node())
            },
    {
        match self {
            Node::Alias(_) => None,
            _ => preceding_properties(self.syntax()),
        }
    }
}

/// A tag, by its form.
#[derive(Debug, Clone, PartialEq, Eq)]
pub enum Tag {
    /// `!`: the non-specific tag.
    NonSpecific,
    /// `!<URI>`: a verbatim tag.
    Verbatim(String),
    /// `!!name`: a shorthand with the secondary handle.
    Secondary(String),
    /// `!handle!suffix`: a shorthand with a named handle.
    Handle { handle: String, suffix: String },
    /// `!suffix`: a shorthand with the primary handle.
    Primary(String),
    /// No form of a tag, such as `!!!`.
    Unknown(String),
}

/// A tag, as a mathematical value.
pub enum TagForm {
    NonSpecific,
    Verbatim(Seq<char>),
    Secondary(Seq<char>),
    Handle { handle: Seq<char>, suffix: Seq<char> },
    Primary(Seq<char>),
    Unknown(Seq<char>),
}

impl View for Tag {
    type V = TagForm;

    open spec fn view(&self) -> TagForm {
        match self {
            Tag::NonSpecific => TagForm::NonSpecific,
            Tag::Verbatim(s) => TagForm::Verbatim(s@),
            Tag::Secondary(s) => TagForm::Secondary(s@),
            Tag::Handle { handle, suffix } => TagForm::Handle {
                handle: handle@,
                suffix: suffix@,
            },
            Tag::Primary(s) => TagForm::Primary(s@),
            Tag::Unknown(s) => TagForm::Unknown(s@),
        }
    }
}

/// The form of a tag's text.
pub open spec fn tag_form(s: Seq<char>) -> TagForm {
    let n = s.len() as int;
    if n == 0 || s[0] != '!' {
        TagForm::Unknown(s)
    } else if n == 1 {
        TagForm::NonSpecific
    } else if s[1] == '<' {
        if n > 2 && s.last() == '>' {
            TagForm::Verbatim(s.subrange(2, n - 1))
        } else {
            TagForm::Unknown(s)
        }
    } else if s[1] == '!' {
        if n > 2 && s[2] == '!' {
            TagForm::Unknown(s)
        } else {
            TagForm::Secondary(s.skip(2))
        }
    } else {
        let b = text::find_from(s, '!', 1);
        if b < n {
            TagForm::Handle { handle: s.subrange(1, b), suffix: s.skip(b + 1) }
        } else {
            TagForm::Primary(s.skip(1))
        }
    }
}

impl Tag {
    /// The form of a tag's text.
    pub fn parse(raw: &str) -> (r: Tag)
        ensures
            r@ == tag_form(raw@),
    {
        let v = chars_of(raw);
        let n = v.len();
        if n == 0 || v[0] != '!' {
            return Tag::Unknown(string_of(&v));
        }
        if n == 1 {
            return Tag::NonSpecific;
        }
        if v[1] == '<' {
            if n > 2 && v[n - 1] == '>' {
                return Tag::Verbatim(string_of(&chars_slice(&v, 2, n - 1)));
            }
            return Tag::Unknown(string_of(&v));
        }
        if v[1] == '!' {
            if n > 2 && v[2] == '!' {
                return Tag::Unknown(string_of(&v));
            }
            let rest = chars_slice(&v, 2, n);
            assert(rest@ =~= v@.skip(2));
            return Tag::Secondary(string_of(&rest));
        }
        proof {
            text::lemma_find_from(v@, '!', 1);
        }
        let b = find_char(&v, '!', 1);
        if b < n {
            let rest = chars_slice(&v, b + 1, n);
            assert(rest@ =~= v@.skip(b + 1));
            return Tag::Handle {
                handle: string_of(&chars_slice(&v, 1, b)),
                suffix: string_of(&rest),
            };
        }
        let rest = chars_slice(&v, 1, n);
        assert(rest@ =~= v@.skip(1));
        Tag::Primary(string_of(&rest))
    }
}

} // verus!
