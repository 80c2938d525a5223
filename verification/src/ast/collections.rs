//! Mappings and sequences of either style.

use vstd::prelude::*;
use vstd::string::*;

use crate::ast::nodes;
use crate::ast::nodes::{
    nth_typed, AstNode, BlockMapping, BlockSequence, FlowMapping, FlowSequence, Node,
};
use crate::ast::scalar;
use crate::ast::scalar::Scalar;
use crate::syntax::green::Tree;
use crate::syntax::kind::SyntaxKind;
use crate::syntax::node;
use crate::syntax::node::{SyntaxElement, SyntaxNode};
use crate::text::same_text;

verus! {

/// The places of the values among the children of an entry.
pub open spec fn value_places(e: Tree) -> Seq<int> {
    node::places(e.children(), nodes::typed::<Node>())
}

/// Whether `x` is the value at place `k` in the entry at `i` of `n`.
pub open spec fn value_at(x: Node, n: SyntaxNode, i: int, k: int) -> bool {
    let e = n.parts()[i];
    let p = value_places(e);
    &&& k < p.len()
    &&& x.fits()
    &&& x.node().wf()
    &&& x.node().whole() == n.whole()
    &&& x.node().path@ == n.path@.push(i as usize).push(p[k] as usize)
    &&& 0 <= p[k] <= usize::MAX
    &&& x.node().tree() == e.children()[p[k]]
}

/// Whether `r` is the value at place `k` in the entry at `i` of `n`, or nothing
/// where there is none.
pub open spec fn maybe_value_at(r: Option<Node>, n: SyntaxNode, i: int, k: int) -> bool {
    match r {
        Some(x) => value_at(x, n, i, k),
        None => value_places(n.parts()[i]).len() <= k,
    }
}

/// The entries of kind `kind` that hold a value.
pub open spec fn holding(kind: SyntaxKind) -> spec_fn(Tree) -> bool {
    |t: Tree| t.is_node_of(kind) && value_places(t).len() > 0
}

/// The entries of kind `kind` that hold two values: a key and its value.
pub open spec fn paired(kind: SyntaxKind) -> spec_fn(Tree) -> bool {
    |t: Tree| t.is_node_of(kind) && value_places(t).len() > 1
}

/// The key of an entry, where it is a scalar that stands for a string.
pub open spec fn key_text(e: Tree) -> Option<Seq<char>> {
    let p = value_places(e);
    if p.len() > 0 && Scalar::accepts(e.children()[p[0]]) {
        match scalar::scalar_text(e.children()[p[0]].children()) {
            Ok(s) => Some(s),
            Err(_) => None,
        }
    } else {
        None
    }
}

/// The entries of kind `kind` with the key `key`.
pub open spec fn keyed(kind: SyntaxKind, key: Seq<char>) -> spec_fn(Tree) -> bool {
    |t: Tree| t.is_node_of(kind) && key_text(t) == Some(key)
}

/// The keys of the entries of kind `kind` among `cs`.
pub open spec fn keys_of(cs: Seq<Tree>, kind: SyntaxKind) -> Seq<Seq<char>>
    decreases cs.len(),
{
    if cs.len() == 0 {
        seq![]
    } else {
        let r = keys_of(cs.drop_last(), kind);
        if cs.last().is_node_of(kind) && key_text(cs.last()) is Some {
            r.push(key_text(cs.last())->0)
        } else {
            r
        }
    }
}

/// The value at place `k` in the entry at `i`.
pub(crate) fn entry_value(n: &SyntaxNode, i: usize, k: usize) -> (r: Option<Node>)
    requires
        n.wf(),
        i < n.parts().len(),
        n.parts()[i as int] is Node,
    ensures
        maybe_value_at(r, *n, i as int, k as int),
{
    proof {
        node::lemma_places(n.parts()[i as int].children(), nodes::typed::<Node>());
    }
    match n.child_or_token(i) {
        SyntaxElement::Node(e) => nth_typed::<Node>(&e, k),
        SyntaxElement::Token(_) => None,
    }
}

/// The key of the entry at `i`, where it is a scalar that stands for a string.
fn entry_key_text(n: &SyntaxNode, i: usize) -> (r: Option<String>)
    requires
        n.wf(),
        i < n.parts().len(),
        n.parts()[i as int] is Node,
    ensures
        match key_text(n.parts()[i as int]) {
            Some(s) => r is Some && r->0@ == s,
            None => r is None,
        },
{
    match entry_value(n, i, 0) {
        Some(Node::Scalar(s)) => match s.decoded_token() {
            Ok(t) => Some(t),
            Err(_) => None,
        },
        _ => None,
    }
}

/// Whether the child at `i` is a node of kind `kind`.
pub(crate) fn is_entry(n: &SyntaxNode, i: usize, kind: SyntaxKind) -> (r: bool)
    requires
        n.wf(),
        i < n.parts().len(),
    ensures
        r == n.parts()[i as int].is_node_of(kind),
{
    match n.child_or_token(i) {
        SyntaxElement::Node(e) => e.is(kind),
        SyntaxElement::Token(_) => false,
    }
}

/// How many children of kind `kind` there are.
pub(crate) fn count_entries(n: &SyntaxNode, kind: SyntaxKind) -> (r: usize)
    requires
        n.wf(),
    ensures
        r == node::places(n.parts(), node::nodes_of(kind)).len(),
{
    let len = n.len();
    let ghost cs = n.parts();
    let mut r: usize = 0;
    let mut i: usize = 0;
    assert(cs.take(0) =~= seq![]);
    while i < len
        invariant
            n.wf(),
            cs == n.parts(),
            i <= len,
            len == cs.len(),
            r <= i,
            r == node::places(cs.take(i as int), node::nodes_of(kind)).len(),
        decreases len - i,
    {
        assert(cs.take(i + 1).drop_last() =~= cs.take(i as int));
        if is_entry(n, i, kind) {
            r = r + 1;
        }
        i = i + 1;
    }
    assert(cs.take(len as int) =~= cs);
    r
}

/// Whether `r` are the keys and values of the entries of kind `kind`.
pub open spec fn pairs_of(
    r: Seq<(Node, Option<Node>)>,
    n: SyntaxNode,
    kind: SyntaxKind,
) -> bool {
    let p = node::places(n.parts(), holding(kind));
    &&& r.len() == p.len()
    &&& forall|j: int|
        0 <= j < r.len() ==> value_at((#[trigger] r[j]).0, n, p[j], 0) && maybe_value_at(
            r[j].1,
            n,
            p[j],
            1,
        )
}

/// The keys and values of the entries of kind `kind`.
fn entry_pairs(n: &SyntaxNode, kind: SyntaxKind) -> (r: Vec<(Node, Option<Node>)>)
    requires
        n.wf(),
    ensures
        pairs_of(r@, *n, kind),
{
    let len = n.len();
    let ghost cs = n.parts();
    let mut r: Vec<(Node, Option<Node>)> = Vec::new();
    let mut i: usize = 0;
    assert(cs.take(0) =~= seq![]);
    while i < len
        invariant
            n.wf(),
            cs == n.parts(),
            i <= len,
            len == cs.len(),
            r@.len() == node::places(cs.take(i as int), holding(kind)).len(),
            forall|j: int|
                0 <= j < r@.len() ==> value_at(
                    (#[trigger] r@[j]).0,
                    *n,
                    node::places(cs.take(i as int), holding(kind))[j],
                    0,
                ) && maybe_value_at(
                    r@[j].1,
                    *n,
                    node::places(cs.take(i as int), holding(kind))[j],
                    1,
                ),
        decreases len - i,
    {
        assert(cs.take(i + 1).drop_last() =~= cs.take(i as int));
        if is_entry(n, i, kind) {
            if let Some(k) = entry_value(n, i, 0) {
                r.push((k, entry_value(n, i, 1)));
            }
        }
        i = i + 1;
    }
    assert(cs.take(len as int) =~= cs);
    r
}

/// The value of the first entry with the key `key`.
fn find_value(n: &SyntaxNode, kind: SyntaxKind, key: &str) -> (r: Option<Node>)
    requires
        n.wf(),
    ensures
        value_of_key(r, *n, kind, key@),
{
    let len = n.len();
    let mut i: usize = 0;
    while i < len
        invariant
            n.wf(),
            i <= len,
            len == n.parts().len(),
            node::place_from(n.parts(), i as int, keyed(kind, key@)) == node::place_from(
                n.parts(),
                0,
                keyed(kind, key@),
            ),
        decreases len - i,
    {
        if is_entry(n, i, kind) {
            if let Some(s) = entry_key_text(n, i) {
                if same_text(s.as_str(), key) {
                    return entry_value(n, i, 1);
                }
            }
        }
        i = i + 1;
    }
    None
}

/// Whether `r` is the value of the first entry with the key `key`, or nothing
/// where there is none.
pub open spec fn value_of_key(
    r: Option<Node>,
    n: SyntaxNode,
    kind: SyntaxKind,
    key: Seq<char>,
) -> bool {
    match node::place_from(n.parts(), 0, keyed(kind, key)) {
        Some(i) => maybe_value_at(r, n, i, 1),
        None => r is None,
    }
}

/// The keys of the entries of kind `kind`.
fn entry_keys(n: &SyntaxNode, kind: SyntaxKind) -> (r: Vec<String>)
    requires
        n.wf(),
    ensures
        texts_are(r@, keys_of(n.parts(), kind)),
{
    let len = n.len();
    let ghost cs = n.parts();
    let mut r: Vec<String> = Vec::new();
    let mut i: usize = 0;
    assert(cs.take(0) =~= seq![]);
    while i < len
        invariant
            n.wf(),
            cs == n.parts(),
            i <= len,
            len == cs.len(),
            texts_are(r@, keys_of(cs.take(i as int), kind)),
        decreases len - i,
    {
        assert(cs.take(i + 1).drop_last() =~= cs.take(i as int));
        if is_entry(n, i, kind) {
            if let Some(s) = entry_key_text(n, i) {
                r.push(s);
            }
        }
        i = i + 1;
    }
    assert(cs.take(len as int) =~= cs);
    r
}

/// Whether strings have these contents.
pub open spec fn texts_are(r: Seq<String>, s: Seq<Seq<char>>) -> bool {
    &&& r.len() == s.len()
    &&& forall|i: int| 0 <= i < r.len() ==> (#[trigger] r[i])@ == s[i]
}

/// Whether `r` are the values at place `k` in the entries of `n` where `f`
/// holds.
pub open spec fn values_are(
    r: Seq<Node>,
    n: SyntaxNode,
    f: spec_fn(Tree) -> bool,
    k: int,
) -> bool {
    let p = node::places(n.parts(), f);
    &&& r.len() == p.len()
    &&& forall|j: int| 0 <= j < r.len() ==> value_at(#[trigger] r[j], n, p[j], k)
}

/// The values of the entries of kind `kind`; an entry without one is skipped.
fn entry_values(n: &SyntaxNode, kind: SyntaxKind) -> (r: Vec<Node>)
    requires
        n.wf(),
    ensures
        values_are(r@, *n, paired(kind), 1),
{
    let len = n.len();
    let ghost cs = n.parts();
    let mut r: Vec<Node> = Vec::new();
    let mut i: usize = 0;
    assert(cs.take(0) =~= seq![]);
    while i < len
        invariant
            n.wf(),
            cs == n.parts(),
            i <= len,
            len == cs.len(),
            r@.len() == node::places(cs.take(i as int), paired(kind)).len(),
            forall|j: int|
                0 <= j < r@.len() ==> value_at(
                    #[trigger] r@[j],
                    *n,
                    node::places(cs.take(i as int), paired(kind))[j],
                    1,
                ),
        decreases len - i,
    {
        assert(cs.take(i + 1).drop_last() =~= cs.take(i as int));
        if is_entry(n, i, kind) {
            if let Some(x) = entry_value(n, i, 1) {
                r.push(x);
            }
        }
        i = i + 1;
    }
    assert(cs.take(len as int) =~= cs);
    r
}

/// The items of the entries of kind `kind`.
fn entry_items(n: &SyntaxNode, kind: SyntaxKind) -> (r: Vec<Node>)
    requires
        n.wf(),
    ensures
        values_are(r@, *n, holding(kind), 0),
{
    let len = n.len();
    let ghost cs = n.parts();
    let mut r: Vec<Node> = Vec::new();
    let mut i: usize = 0;
    assert(cs.take(0) =~= seq![]);
    while i < len
        invariant
            n.wf(),
            cs == n.parts(),
            i <= len,
            len == cs.len(),
            r@.len() == node::places(cs.take(i as int), holding(kind)).len(),
            forall|j: int|
                0 <= j < r@.len() ==> value_at(
                    #[trigger] r@[j],
                    *n,
                    node::places(cs.take(i as int), holding(kind))[j],
                    0,
                ),
        decreases len - i,
    {
        assert(cs.take(i + 1).drop_last() =~= cs.take(i as int));
        if is_entry(n, i, kind) {
            if let Some(x) = entry_value(n, i, 0) {
                r.push(x);
            }
        }
        i = i + 1;
    }
    assert(cs.take(len as int) =~= cs);
    r
}

/// A mapping of either style.
pub trait Mapping {
    /// The mapping's node.
    spec fn mapping_node(&self) -> SyntaxNode;

    /// The kind of its entries.
    spec fn entry_kind(&self) -> SyntaxKind;

    /// The number of entries, those without a value among them.
    fn len(&self) -> (r: usize)
        requires
            self.mapping_node().wf(),
        ensures
            r == node::places(
                self.mapping_node().parts(),
                node::nodes_of(self.entry_kind()),
            ).len(),
    ;

    /// Whether there is no entry.
    fn is_empty(&self) -> (r: bool)
        requires
            self.mapping_node().wf(),
        ensures
            r == (node::places(
                self.mapping_node().parts(),
                node::nodes_of(self.entry_kind()),
            ).len() == 0),
    ;

    /// The keys and values, in order. A value is missing only where there is no
    /// colon; an empty one is a null.
    fn pairs(&self) -> (r: Vec<(Node, Option<Node>)>)
        requires
            self.mapping_node().wf(),
        ensures
            pairs_of(r@, self.mapping_node(), self.entry_kind()),
    ;

    /// The value of the first entry whose key stands for `key`.
    fn get(&self, key: &str) -> (r: Option<Node>)
        requires
            self.mapping_node().wf(),
        ensures
            value_of_key(r, self.mapping_node(), self.entry_kind(), key@),
    ;

    /// The keys that stand for a string, in order.
    fn keys(&self) -> (r: Vec<String>)
        requires
            self.mapping_node().wf(),
        ensures
            texts_are(r@, keys_of(self.mapping_node().parts(), self.entry_kind())),
    ;

    /// The values, in order.
    fn values(&self) -> (r: Vec<Node>)
        requires
            self.mapping_node().wf(),
        ensures
            values_are(r@, self.mapping_node(), paired(self.entry_kind()), 1),
    ;
}

/// A sequence of either style.
pub trait Sequence {
    /// The sequence's node.
    spec fn sequence_node(&self) -> SyntaxNode;

    /// The kind of its entries.
    spec fn item_kind(&self) -> SyntaxKind;

    /// The number of entries.
    fn len(&self) -> (r: usize)
        requires
            self.sequence_node().wf(),
        ensures
            r == node::places(
                self.sequence_node().parts(),
                node::nodes_of(self.item_kind()),
            ).len(),
    ;

    /// Whether there is no entry.
    fn is_empty(&self) -> (r: bool)
        requires
            self.sequence_node().wf(),
        ensures
            r == (node::places(
                self.sequence_node().parts(),
                node::nodes_of(self.item_kind()),
            ).len() == 0),
    ;

    /// The items, in order.
    fn iter(&self) -> (r: Vec<Node>)
        requires
            self.sequence_node().wf(),
        ensures
            values_are(r@, self.sequence_node(), holding(self.item_kind()), 0),
    ;
}

impl Mapping for BlockMapping {
    open spec fn mapping_node(&self) -> SyntaxNode {
        self.0
    }

    open spec fn entry_kind(&self) -> SyntaxKind {
        SyntaxKind::BLOCK_MAPPING_ENTRY
    }

    fn len(&self) -> (r: usize) {
        count_entries(&self.0, SyntaxKind::BLOCK_MAPPING_ENTRY)
    }

    fn is_empty(&self) -> (r: bool) {
        count_entries(&self.0, SyntaxKind::BLOCK_MAPPING_ENTRY) == 0
    }

    fn pairs(&self) -> (r: Vec<(Node, Option<Node>)>) {
        entry_pairs(&self.0, SyntaxKind::BLOCK_MAPPING_ENTRY)
    }

    fn get(&self, key: &str) -> (r: Option<Node>) {
        find_value(&self.0, SyntaxKind::BLOCK_MAPPING_ENTRY, key)
    }

    fn keys(&self) -> (r: Vec<String>) {
        entry_keys(&self.0, SyntaxKind::BLOCK_MAPPING_ENTRY)
    }

    fn values(&self) -> (r: Vec<Node>) {
        entry_values(&self.0, SyntaxKind::BLOCK_MAPPING_ENTRY)
    }
}

impl Mapping for FlowMapping {
    open spec fn mapping_node(&self) -> SyntaxNode {
        self.0
    }

    open spec fn entry_kind(&self) -> SyntaxKind {
        SyntaxKind::FLOW_MAPPING_ENTRY
    }

    fn len(&self) -> (r: usize) {
        count_entries(&self.0, SyntaxKind::FLOW_MAPPING_ENTRY)
    }

    fn is_empty(&self) -> (r: bool) {
        count_entries(&self.0, SyntaxKind::FLOW_MAPPING_ENTRY) == 0
    }

    fn pairs(&self) -> (r: Vec<(Node, Option<Node>)>) {
        entry_pairs(&self.0, SyntaxKind::FLOW_MAPPING_ENTRY)
    }

    fn get(&self, key: &str) -> (r: Option<Node>) {
        find_value(&self.0, SyntaxKind::FLOW_MAPPING_ENTRY, key)
    }

    fn keys(&self) -> (r: Vec<String>) {
        entry_keys(&self.0, SyntaxKind::FLOW_MAPPING_ENTRY)
    }

    fn values(&self) -> (r: Vec<Node>) {
        entry_values(&self.0, SyntaxKind::FLOW_MAPPING_ENTRY)
    }
}

/// A mapping of one of the styles.
pub struct AnyMapping<'a> {
    pub node: &'a SyntaxNode,
    pub kind: SyntaxKind,
}

impl Mapping for AnyMapping<'_> {
    open spec fn mapping_node(&self) -> SyntaxNode {
        *self.node
    }

    open spec fn entry_kind(&self) -> SyntaxKind {
        self.kind
    }

    fn len(&self) -> (r: usize) {
        count_entries(self.node, self.kind)
    }

    fn is_empty(&self) -> (r: bool) {
        count_entries(self.node, self.kind) == 0
    }

    fn pairs(&self) -> (r: Vec<(Node, Option<Node>)>) {
        entry_pairs(self.node, self.kind)
    }

    fn get(&self, key: &str) -> (r: Option<Node>) {
        find_value(self.node, self.kind, key)
    }

    fn keys(&self) -> (r: Vec<String>) {
        entry_keys(self.node, self.kind)
    }

    fn values(&self) -> (r: Vec<Node>) {
        entry_values(self.node, self.kind)
    }
}

impl Sequence for BlockSequence {
    open spec fn sequence_node(&self) -> SyntaxNode {
        self.0
    }

    open spec fn item_kind(&self) -> SyntaxKind {
        SyntaxKind::BLOCK_SEQUENCE_ENTRY
    }

    fn len(&self) -> (r: usize) {
        count_entries(&self.0, SyntaxKind::BLOCK_SEQUENCE_ENTRY)
    }

    fn is_empty(&self) -> (r: bool) {
        count_entries(&self.0, SyntaxKind::BLOCK_SEQUENCE_ENTRY) == 0
    }

    fn iter(&self) -> (r: Vec<Node>) {
        entry_items(&self.0, SyntaxKind::BLOCK_SEQUENCE_ENTRY)
    }
}

impl Sequence for FlowSequence {
    open spec fn sequence_node(&self) -> SyntaxNode {
        self.0
    }

    open spec fn item_kind(&self) -> SyntaxKind {
        SyntaxKind::FLOW_SEQUENCE_ENTRY
    }

    fn len(&self) -> (r: usize) {
        count_entries(&self.0, SyntaxKind::FLOW_SEQUENCE_ENTRY)
    }

    fn is_empty(&self) -> (r: bool) {
        count_entries(&self.0, SyntaxKind::FLOW_SEQUENCE_ENTRY) == 0
    }

    fn iter(&self) -> (r: Vec<Node>) {
        entry_items(&self.0, SyntaxKind::FLOW_SEQUENCE_ENTRY)
    }
}

/// A sequence of one of the styles.
pub struct AnySequence<'a> {
    pub node: &'a SyntaxNode,
    pub kind: SyntaxKind,
}

impl Sequence for AnySequence<'_> {
    open spec fn sequence_node(&self) -> SyntaxNode {
        *self.node
    }

    open spec fn item_kind(&self) -> SyntaxKind {
        self.kind
    }

    fn len(&self) -> (r: usize) {
        count_entries(self.node, self.kind)
    }

    fn is_empty(&self) -> (r: bool) {
        count_entries(self.node, self.kind) == 0
    }

    fn iter(&self) -> (r: Vec<Node>) {
        entry_items(self.node, self.kind)
    }
}

impl Node {
    /// This value as a mapping, if it is one of either style.
    pub fn as_mapping(&self) -> (r: Option<AnyMapping<'_>>)
        ensures
            match *self {
                Node::BlockMapping(x) => r is Some && r->0.mapping_node() == x.0
                    && r->0.entry_kind() == SyntaxKind::BLOCK_MAPPING_ENTRY,
                Node::FlowMapping(x) => r is Some && r->0.mapping_node() == x.0
                    && r->0.entry_kind() == SyntaxKind::FLOW_MAPPING_ENTRY,
                _ => r is None,
            },
    {
        match self {
            Node::BlockMapping(x) => Some(
                AnyMapping { node: &x.0, kind: SyntaxKind::BLOCK_MAPPING_ENTRY },
            ),
            Node::FlowMapping(x) => Some(
                AnyMapping { node: &x.0, kind: SyntaxKind::FLOW_MAPPING_ENTRY },
            ),
            _ => None,
        }
    }

    /// This value as a sequence, if it is one of either style.
    pub fn as_sequence(&self) -> (r: Option<AnySequence<'_>>)
        ensures
            match *self {
                Node::BlockSequence(x) => r is Some && r->0.sequence_node() == x.0
                    && r->0.item_kind() == SyntaxKind::BLOCK_SEQUENCE_ENTRY,
                Node::FlowSequence(x) => r is Some && r->0.sequence_node() == x.0
                    && r->0.item_kind() == SyntaxKind::FLOW_SEQUENCE_ENTRY,
                _ => r is None,
            },
    {
        match self {
            Node::BlockSequence(x) => Some(
                AnySequence { node: &x.0, kind: SyntaxKind::BLOCK_SEQUENCE_ENTRY },
            ),
            Node::FlowSequence(x) => Some(
                AnySequence { node: &x.0, kind: SyntaxKind::FLOW_SEQUENCE_ENTRY },
            ),
            _ => None,
        }
    }
}

} // verus!
