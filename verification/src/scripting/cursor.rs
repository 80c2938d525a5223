//! Typed cursors: what a script holds of a tree.
//!
//! A step resolves at once against the tree, and says why where there is
//! nothing at its end.

use core::ops::Range;

use vstd::prelude::*;
use vstd::string::*;

use crate::ast::collections;
use crate::ast::collections::{entry_value, is_entry, AnyMapping, AnySequence, Mapping, Sequence};
use crate::ast::nodes;
use crate::ast::nodes::{nth_typed, AstNode, Document, Node, Stream};
use crate::ast::scalar;
use crate::ast::scalar::Scalar;
use crate::ast::value::{Value, ValueModel};
use crate::ast::decode;
use crate::ast::decode::DecodeFault;
use crate::syntax::green::{emit_node, Tree};
use crate::syntax::kind;
use crate::syntax::kind::SyntaxKind;
use crate::syntax::node;
use crate::syntax::node::{SyntaxElement, SyntaxNode};
use crate::syntax::path;
use crate::syntax::tree::SyntaxTree;
use crate::syntax::walk;
use crate::text;
use crate::text::{chars_of, int_chars, same_text, string_of};

verus! {

/// The cursor of an empty document.
pub struct NullCursor;

/// Points at a mapping of either style.
pub struct MappingCursor {
    pub node: SyntaxNode,
}

/// Points at a sequence of either style.
pub struct SequenceCursor {
    pub node: SyntaxNode,
}

/// Points at a scalar.
pub struct ScalarCursor {
    pub node: SyntaxNode,
}

/// Points at the whole stream.
pub struct StreamCursor {
    pub node: SyntaxNode,
}

/// A cursor of some type.
pub enum Cursor {
    Null(NullCursor),
    Mapping(MappingCursor),
    Sequence(SequenceCursor),
    Scalar(ScalarCursor),
    Stream(StreamCursor),
    /// A message in place of a cursor, for a value that has none.
    Message(String),
}

/// An entry of a mapping: the key as a string, the value, and the key's node.
pub struct MapEntry {
    pub key: String,
    pub value: Cursor,
    pub key_node: SyntaxNode,
}

/// Whether `n` is the node at the end of `path` in `whole`.
pub open spec fn stands(n: SyntaxNode, whole: Tree, path: Seq<usize>) -> bool {
    n.wf() && n.whole() == whole && n.path@ == path
}

/// Whether `t` is a mapping of either style.
pub open spec fn is_mapping(t: Tree) -> bool {
    t.kind() == SyntaxKind::BLOCK_MAPPING.code() || t.kind() == SyntaxKind::FLOW_MAPPING.code()
}

/// Whether `t` is a sequence of either style.
pub open spec fn is_sequence(t: Tree) -> bool {
    t.kind() == SyntaxKind::BLOCK_SEQUENCE.code() || t.kind() == SyntaxKind::FLOW_SEQUENCE.code()
}

/// The kind of the entries of a mapping.
pub open spec fn entry_kind(t: Tree) -> SyntaxKind {
    if t.kind() == SyntaxKind::BLOCK_MAPPING.code() {
        SyntaxKind::BLOCK_MAPPING_ENTRY
    } else {
        SyntaxKind::FLOW_MAPPING_ENTRY
    }
}

/// The kind of the entries of a sequence.
pub open spec fn item_kind(t: Tree) -> SyntaxKind {
    if t.kind() == SyntaxKind::BLOCK_SEQUENCE.code() {
        SyntaxKind::BLOCK_SEQUENCE_ENTRY
    } else {
        SyntaxKind::FLOW_SEQUENCE_ENTRY
    }
}

/// Whether a node is looked at as a scalar: it is one, or an alias.
pub open spec fn is_leaf(t: Tree) -> bool {
    t.kind() == SyntaxKind::SCALAR.code() || t.kind() == SyntaxKind::ALIAS_NODE.code()
}

/// Whether `c` is the cursor of the value at the end of `path` in `whole`. An
/// implicit null has a message in place of a cursor.
pub open spec fn cursor_at(c: Cursor, whole: Tree, path: Seq<usize>) -> bool {
    let t = path::tree_at(whole, path)->0;
    if is_mapping(t) {
        c is Mapping && stands(c->Mapping_0.node, whole, path)
    } else if is_sequence(t) {
        c is Sequence && stands(c->Sequence_0.node, whole, path)
    } else if is_leaf(t) {
        c is Scalar && stands(c->Scalar_0.node, whole, path)
    } else {
        c is Message && c->Message_0@ == "unexpected node kind: "@ + kind::kind_of(
            t.kind(),
        )->0.name()
    }
}

/// A message with a text behind it.
pub(crate) fn message(head: &str, tail: &str) -> (r: String)
    ensures
        r@ == head@ + tail@,
{
    let mut r = string_of(&chars_of(head));
    r.push_str(tail);
    r
}

/// The cursor of a node.
pub fn cursor_for(n: SyntaxNode) -> (r: Cursor)
    requires
        n.wf(),
        kind::kind_of(n.tree().kind()) is Some,
    ensures
        cursor_at(r, n.whole(), n.path@),
{
    if n.is(SyntaxKind::BLOCK_MAPPING) || n.is(SyntaxKind::FLOW_MAPPING) {
        Cursor::Mapping(MappingCursor { node: n })
    } else if n.is(SyntaxKind::BLOCK_SEQUENCE) || n.is(SyntaxKind::FLOW_SEQUENCE) {
        Cursor::Sequence(SequenceCursor { node: n })
    } else if n.is(SyntaxKind::SCALAR) || n.is(SyntaxKind::ALIAS_NODE) {
        Cursor::Scalar(ScalarCursor { node: n })
    } else {
        Cursor::Message(message("unexpected node kind: ", n.kind().as_str()))
    }
}

/// The cursor of a value.
fn cursor_of(x: &Node) -> (r: Cursor)
    requires
        x.fits(),
        x.node().wf(),
    ensures
        cursor_at(r, x.node().whole(), x.node().path@),
{
    broadcast use kind::lemma_kind_round_trip;

    cursor_for(x.syntax().handle())
}

/// The cursors of values.
fn cursors_of(v: &Vec<Node>) -> (r: Vec<Cursor>)
    requires
        forall|i: int| 0 <= i < v@.len() ==> (#[trigger] v@[i]).fits() && v@[i].node().wf(),
    ensures
        r@.len() == v@.len(),
        forall|i: int|
            0 <= i < r@.len() ==> cursor_at(
                #[trigger] r@[i],
                v@[i].node().whole(),
                v@[i].node().path@,
            ),
{
    let mut r: Vec<Cursor> = Vec::new();
    let mut i: usize = 0;
    while i < v.len()
        invariant
            i <= v@.len(),
            r@.len() == i,
            forall|j: int| 0 <= j < v@.len() ==> (#[trigger] v@[j]).fits() && v@[j].node().wf(),
            forall|j: int|
                0 <= j < r@.len() ==> cursor_at(
                    #[trigger] r@[j],
                    v@[j].node().whole(),
                    v@[j].node().path@,
                ),
        decreases v@.len() - i,
    {
        r.push(cursor_of(&v[i]));
        i = i + 1;
    }
    r
}

/// The byte span of a node.
fn span_of(n: &SyntaxNode) -> (r: Range<usize>)
    requires
        n.wf(),
    ensures
        r.start == walk::offset(n.whole(), n.path@),
        r.end == walk::end_offset(n.whole(), n.path@),
{
    let range = n.text_range();
    Range { start: range.start, end: range.end }
}

/// The text of the tree that a node stands in.
fn source_of(n: &SyntaxNode) -> (r: String)
    ensures
        r@ == n.whole().text(),
{
    let mut out = String::new();
    emit_node(&n.root, &mut out);
    assert(Seq::<char>::empty() + n.whole().text() =~= n.whole().text());
    out
}

/// Whether `r` is the byte span of the node at the end of `path`.
pub open spec fn span_is(r: Range<usize>, whole: Tree, path: Seq<usize>) -> bool {
    r.start == walk::offset(whole, path) && r.end == walk::end_offset(whole, path)
}

/// The path of the value at place `k` in the entry at `i` of the node at `path`.
pub open spec fn value_path(whole: Tree, path: Seq<usize>, i: int, k: int) -> Seq<usize> {
    let e = path::tree_at(whole, path)->0.children()[i];
    path.push(i as usize).push(collections::value_places(e)[k] as usize)
}

impl Cursor {
    /// Whether the cursor points where its type says.
    pub open spec fn wf(self) -> bool {
        match self {
            Cursor::Null(_) => true,
            Cursor::Mapping(c) => c.wf(),
            Cursor::Sequence(c) => c.wf(),
            Cursor::Scalar(c) => c.wf(),
            Cursor::Stream(c) => c.wf(),
            Cursor::Message(_) => true,
        }
    }

    /// The byte span of what the cursor points at; the start of the text for an
    /// empty document, and nothing for a message.
    pub fn span(&self) -> (r: Option<Range<usize>>)
        requires
            self.wf(),
        ensures
            match *self {
                Cursor::Null(_) => r is Some && r->0.start == 0 && r->0.end == 0,
                Cursor::Mapping(c) => r is Some && span_is(r->0, c.node.whole(), c.node.path@),
                Cursor::Sequence(c) => r is Some && span_is(r->0, c.node.whole(), c.node.path@),
                Cursor::Scalar(c) => r is Some && span_is(r->0, c.node.whole(), c.node.path@),
                Cursor::Stream(c) => r is Some && span_is(r->0, c.node.whole(), c.node.path@),
                Cursor::Message(_) => r is None,
            },
    {
        match self {
            Cursor::Null(_) => Some(Range { start: 0, end: 0 }),
            Cursor::Mapping(c) => Some(span_of(&c.node)),
            Cursor::Sequence(c) => Some(span_of(&c.node)),
            Cursor::Scalar(c) => Some(span_of(&c.node)),
            Cursor::Stream(c) => Some(span_of(&c.node)),
            Cursor::Message(_) => None,
        }
    }
}

impl MapEntry {
    /// The byte span of the key.
    pub fn key_span(&self) -> (r: Range<usize>)
        requires
            self.key_node.wf(),
        ensures
            span_is(r, self.key_node.whole(), self.key_node.path@),
    {
        span_of(&self.key_node)
    }

    /// The byte span of the value.
    pub fn value_span(&self) -> (r: Option<Range<usize>>)
        requires
            self.value.wf(),
        ensures
            r is None <==> self.value is Message,
            match self.value {
                Cursor::Mapping(c) => span_is(r->0, c.node.whole(), c.node.path@),
                Cursor::Sequence(c) => span_is(r->0, c.node.whole(), c.node.path@),
                Cursor::Scalar(c) => span_is(r->0, c.node.whole(), c.node.path@),
                Cursor::Stream(c) => span_is(r->0, c.node.whole(), c.node.path@),
                Cursor::Null(_) => r->0.start == 0 && r->0.end == 0,
                Cursor::Message(_) => true,
            },
    {
        self.value.span()
    }

    /// The source of the whole tree.
    pub fn tree_source(&self) -> (r: String)
        ensures
            r@ == self.key_node.whole().text(),
    {
        source_of(&self.key_node)
    }

    /// A cursor at the key.
    pub fn key_cursor(&self) -> (r: Cursor)
        requires
            self.key_node.wf(),
            kind::kind_of(self.key_node.tree().kind()) is Some,
        ensures
            cursor_at(r, self.key_node.whole(), self.key_node.path@),
    {
        cursor_for(self.key_node.handle())
    }
}

/// Entries of kind `kind` with a key that stands for a string, and a value.
pub open spec fn readable(kind: SyntaxKind) -> spec_fn(Tree) -> bool {
    |t: Tree|
        t.is_node_of(kind) && collections::key_text(t) is Some && collections::value_places(t).len()
            > 1
}

/// Whether `e` is the entry at `i` of the mapping at `path`.
pub open spec fn entry_at(e: MapEntry, whole: Tree, path: Seq<usize>, i: int) -> bool {
    &&& collections::key_text(path::tree_at(whole, path)->0.children()[i]) == Some(e.key@)
    &&& stands(e.key_node, whole, value_path(whole, path, i, 0))
    &&& cursor_at(e.value, whole, value_path(whole, path, i, 1))
}

/// The entry with the key `key`, by its place.
pub open spec fn key_place(t: Tree, key: Seq<char>) -> Option<int> {
    node::place_from(t.children(), 0, collections::keyed(entry_kind(t), key))
}

/// Where the first entry with the key `key` is, and whether it has a value.
pub open spec fn has_value(t: Tree, key: Seq<char>) -> bool {
    key_place(t, key) is Some && collections::value_places(t.children()[key_place(t, key)->0]).len()
        > 1
}

impl MappingCursor {
    /// The cursor points at a mapping.
    pub open spec fn wf(self) -> bool {
        self.node.wf() && is_mapping(self.node.tree())
    }

    /// The mapping.
    fn mapping(&self) -> (r: AnyMapping<'_>)
        ensures
            r.mapping_node() == self.node,
            r.entry_kind() == entry_kind(self.node.tree()),
    {
        AnyMapping {
            node: &self.node,
            kind: if self.node.is(SyntaxKind::BLOCK_MAPPING) {
                SyntaxKind::BLOCK_MAPPING_ENTRY
            } else {
                SyntaxKind::FLOW_MAPPING_ENTRY
            },
        }
    }

    /// The byte span of the mapping.
    pub fn node_span(&self) -> (r: Range<usize>)
        requires
            self.wf(),
        ensures
            span_is(r, self.node.whole(), self.node.path@),
    {
        span_of(&self.node)
    }

    /// The source of the whole tree.
    pub fn tree_source(&self) -> (r: String)
        ensures
            r@ == self.node.whole().text(),
    {
        source_of(&self.node)
    }

    /// The number of entries.
    pub fn len(&self) -> (r: usize)
        requires
            self.wf(),
        ensures
            r == node::places(
                self.node.parts(),
                node::nodes_of(entry_kind(self.node.tree())),
            ).len(),
    {
        self.mapping().len()
    }

    /// The source of the mapping.
    pub fn to_text(&self) -> (r: String)
        ensures
            r@ == self.node.tree().text(),
    {
        self.node.text()
    }

    /// The keys, as strings.
    pub fn keys(&self) -> (r: Vec<String>)
        requires
            self.wf(),
        ensures
            collections::texts_are(
                r@,
                collections::keys_of(self.node.parts(), entry_kind(self.node.tree())),
            ),
    {
        self.mapping().keys()
    }

    /// Cursors at the values; an entry without one is skipped.
    pub fn values(&self) -> (r: Vec<Cursor>)
        requires
            self.wf(),
        ensures
            ({
                let p = node::places(
                    self.node.parts(),
                    collections::paired(entry_kind(self.node.tree())),
                );
                &&& r@.len() == p.len()
                &&& forall|j: int|
                    0 <= j < r@.len() ==> cursor_at(
                        #[trigger] r@[j],
                        self.node.whole(),
                        value_path(self.node.whole(), self.node.path@, p[j], 1),
                    )
            }),
    {
        let v = self.mapping().values();
        let ghost p = node::places(
            self.node.parts(),
            collections::paired(entry_kind(self.node.tree())),
        );
        assert forall|i: int| 0 <= i < v@.len() implies (#[trigger] v@[i]).fits()
            && v@[i].node().wf() by {
            assert(collections::value_at(v@[i], self.node, p[i], 1));
        }
        let r = cursors_of(&v);
        assert forall|j: int| 0 <= j < r@.len() implies cursor_at(
            #[trigger] r@[j],
            self.node.whole(),
            value_path(self.node.whole(), self.node.path@, p[j], 1),
        ) by {
            assert(collections::value_at(v@[j], self.node, p[j], 1));
        }
        r
    }

    /// The node of the key that stands for `key`.
    pub fn key_node(&self, key: &str) -> (r: Option<SyntaxNode>)
        requires
            self.wf(),
        ensures
            match key_place(self.node.tree(), key@) {
                Some(i) => r is Some && stands(
                    r->0,
                    self.node.whole(),
                    value_path(self.node.whole(), self.node.path@, i, 0),
                ) && Scalar::accepts(r->0.tree()) && scalar::scalar_text(r->0.parts()) == Ok::<
                    Seq<char>,
                    DecodeFault,
                >(key@),
                None => r is None,
            },
    {
        let len = self.node.len();
        let kind = self.mapping().kind;
        let mut i: usize = 0;
        while i < len
            invariant
                self.wf(),
                i <= len,
                len == self.node.parts().len(),
                kind == entry_kind(self.node.tree()),
                node::place_from(
                    self.node.parts(),
                    i as int,
                    collections::keyed(kind, key@),
                ) == key_place(self.node.tree(), key@),
            decreases len - i,
        {
            if is_entry(&self.node, i, kind) {
                if let Some(Node::Scalar(s)) = entry_value(&self.node, i, 0) {
                    if let Ok(t) = s.decoded_token() {
                        if same_text(t.as_str(), key) {
                            return Some(s.0);
                        }
                    }
                }
            }
            i = i + 1;
        }
        None
    }

    /// The node of the value of `key`.
    fn value_node(&self, key: &str) -> (r: Option<Node>)
        requires
            self.wf(),
        ensures
            r is Some <==> has_value(self.node.tree(), key@),
            r is Some ==> r->0.fits() && stands(
                r->0.node(),
                self.node.whole(),
                value_path(
                    self.node.whole(),
                    self.node.path@,
                    key_place(self.node.tree(), key@)->0,
                    1,
                ),
            ),
    {
        self.mapping().get(key)
    }

    /// The byte span of the key that stands for `key`.
    pub fn key_token_span(&self, key: &str) -> (r: Option<Range<usize>>)
        requires
            self.wf(),
        ensures
            match key_place(self.node.tree(), key@) {
                Some(i) => r is Some && span_is(
                    r->0,
                    self.node.whole(),
                    value_path(self.node.whole(), self.node.path@, i, 0),
                ),
                None => r is None,
            },
    {
        match self.key_node(key) {
            Some(n) => Some(span_of(&n)),
            None => None,
        }
    }

    /// The byte span of the value of `key`.
    pub fn value_node_span(&self, key: &str) -> (r: Option<Range<usize>>)
        requires
            self.wf(),
        ensures
            r is Some <==> has_value(self.node.tree(), key@),
            r is Some ==> span_is(
                r->0,
                self.node.whole(),
                value_path(
                    self.node.whole(),
                    self.node.path@,
                    key_place(self.node.tree(), key@)->0,
                    1,
                ),
            ),
    {
        match self.value_node(key) {
            Some(n) => Some(span_of(n.syntax())),
            None => None,
        }
    }

    /// A cursor at the value of `key`.
    pub fn get_by_key(&self, key: &str) -> (r: Result<Cursor, String>)
        requires
            self.wf(),
        ensures
            match r {
                Ok(c) => has_value(self.node.tree(), key@) && cursor_at(
                    c,
                    self.node.whole(),
                    value_path(
                        self.node.whole(),
                        self.node.path@,
                        key_place(self.node.tree(), key@)->0,
                        1,
                    ),
                ),
                Err(e) => !has_value(self.node.tree(), key@) && e@ == "key not found: "@ + key@,
            },
    {
        match self.value_node(key) {
            Some(n) => Ok(cursor_of(&n)),
            None => Err(message("key not found: ", key)),
        }
    }

    /// Whether `key` has a value.
    pub fn contains(&self, key: &str) -> (r: bool)
        requires
            self.wf(),
        ensures
            r == has_value(self.node.tree(), key@),
    {
        self.value_node(key).is_some()
    }

    /// The entries, in order. One whose key stands for no string, or that has no
    /// value, is skipped.
    pub fn entries(&self) -> (r: Vec<MapEntry>)
        requires
            self.wf(),
        ensures
            ({
                let p = node::places(self.node.parts(), readable(entry_kind(self.node.tree())));
                &&& r@.len() == p.len()
                &&& forall|j: int|
                    0 <= j < r@.len() ==> entry_at(
                        #[trigger] r@[j],
                        self.node.whole(),
                        self.node.path@,
                        p[j],
                    )
            }),
    {
        let len = self.node.len();
        let kind = self.mapping().kind;
        let ghost cs = self.node.parts();
        let mut r: Vec<MapEntry> = Vec::new();
        let mut i: usize = 0;
        assert(cs.take(0) =~= seq![]);
        while i < len
            invariant
                self.wf(),
                i <= len,
                cs == self.node.parts(),
                len == cs.len(),
                kind == entry_kind(self.node.tree()),
                r@.len() == node::places(cs.take(i as int), readable(kind)).len(),
                forall|j: int|
                    0 <= j < r@.len() ==> entry_at(
                        #[trigger] r@[j],
                        self.node.whole(),
                        self.node.path@,
                        node::places(cs.take(i as int), readable(kind))[j],
                    ),
            decreases len - i,
        {
            assert(cs.take(i + 1).drop_last() =~= cs.take(i as int));
            if is_entry(&self.node, i, kind) {
                if let Some(Node::Scalar(s)) = entry_value(&self.node, i, 0) {
                    if let Ok(key) = s.decoded_token() {
                        if let Some(v) = entry_value(&self.node, i, 1) {
                            r.push(MapEntry { key, value: cursor_of(&v), key_node: s.0 });
                        }
                    }
                }
            }
            i = i + 1;
        }
        assert(cs.take(len as int) =~= cs);
        r
    }
}


/// The places of the items of a sequence.
pub open spec fn item_places(t: Tree) -> Seq<int> {
    node::places(t.children(), collections::holding(item_kind(t)))
}

/// The item at place `j` of a sequence.
pub open spec fn item(t: Tree, j: int) -> Tree {
    let e = t.children()[item_places(t)[j]];
    e.children()[collections::value_places(e)[0]]
}

/// What kinds of items are asked for.
#[derive(Debug, Clone, Copy, PartialEq, Eq, Structural)]
pub enum ItemKind {
    Mapping,
    Sequence,
    Scalar,
}

/// Whether an item is of the kind that is asked for.
pub open spec fn item_matches(t: Tree, k: ItemKind) -> bool {
    match k {
        ItemKind::Mapping => is_mapping(t),
        ItemKind::Sequence => is_sequence(t),
        ItemKind::Scalar => is_leaf(t),
    }
}

/// The places, among the first `n` items, of those of a kind.
pub open spec fn matching_items(t: Tree, k: ItemKind, n: int) -> Seq<int>
    decreases n,
{
    if n <= 0 {
        seq![]
    } else {
        let r = matching_items(t, k, n - 1);
        if item_matches(item(t, n - 1), k) {
            r.push(n - 1)
        } else {
            r
        }
    }
}

impl SequenceCursor {
    /// The cursor points at a sequence.
    pub open spec fn wf(self) -> bool {
        self.node.wf() && is_sequence(self.node.tree())
    }

    /// The path of the item at place `j`.
    pub open spec fn item_path(self, j: int) -> Seq<usize> {
        value_path(self.node.whole(), self.node.path@, item_places(self.node.tree())[j], 0)
    }

    /// The sequence.
    fn sequence(&self) -> (r: AnySequence<'_>)
        ensures
            r.sequence_node() == self.node,
            r.item_kind() == item_kind(self.node.tree()),
    {
        AnySequence {
            node: &self.node,
            kind: if self.node.is(SyntaxKind::BLOCK_SEQUENCE) {
                SyntaxKind::BLOCK_SEQUENCE_ENTRY
            } else {
                SyntaxKind::FLOW_SEQUENCE_ENTRY
            },
        }
    }

    /// The byte span of the sequence.
    pub fn node_span(&self) -> (r: Range<usize>)
        requires
            self.wf(),
        ensures
            span_is(r, self.node.whole(), self.node.path@),
    {
        span_of(&self.node)
    }

    /// The source of the whole tree.
    pub fn tree_source(&self) -> (r: String)
        ensures
            r@ == self.node.whole().text(),
    {
        source_of(&self.node)
    }

    /// The number of entries.
    pub fn len(&self) -> (r: usize)
        requires
            self.wf(),
        ensures
            r == node::places(
                self.node.parts(),
                node::nodes_of(item_kind(self.node.tree())),
            ).len(),
    {
        self.sequence().len()
    }

    /// The source of the sequence.
    pub fn to_text(&self) -> (r: String)
        ensures
            r@ == self.node.tree().text(),
    {
        self.node.text()
    }

    /// The items.
    fn items(&self) -> (r: Vec<Node>)
        requires
            self.wf(),
        ensures
            r@.len() == item_places(self.node.tree()).len(),
            forall|j: int|
                0 <= j < r@.len() ==> (#[trigger] r@[j]).fits() && stands(
                    r@[j].node(),
                    self.node.whole(),
                    self.item_path(j),
                ) && r@[j].node().tree() == item(self.node.tree(), j),
    {
        let r = self.sequence().iter();
        let ghost p = item_places(self.node.tree());
        assert forall|j: int| 0 <= j < r@.len() implies (#[trigger] r@[j]).fits() && stands(
            r@[j].node(),
            self.node.whole(),
            self.item_path(j),
        ) && r@[j].node().tree() == item(self.node.tree(), j) by {
            assert(collections::value_at(r@[j], self.node, p[j], 0));
        }
        r
    }

    /// Cursors at the items, in order.
    pub fn cursors(&self) -> (r: Vec<Cursor>)
        requires
            self.wf(),
        ensures
            r@.len() == item_places(self.node.tree()).len(),
            forall|j: int|
                0 <= j < r@.len() ==> cursor_at(
                    #[trigger] r@[j],
                    self.node.whole(),
                    self.item_path(j),
                ),
    {
        let v = self.items();
        let r = cursors_of(&v);
        assert forall|j: int| 0 <= j < r@.len() implies cursor_at(
            #[trigger] r@[j],
            self.node.whole(),
            self.item_path(j),
        ) by {
            assert(v@[j].fits());
        }
        r
    }

    /// A cursor at the item at `i`.
    pub fn get_by_index(&self, i: i64) -> (r: Result<Cursor, String>)
        requires
            self.wf(),
        ensures
            match r {
                Ok(c) => 0 <= i < item_places(self.node.tree()).len() && cursor_at(
                    c,
                    self.node.whole(),
                    self.item_path(i as int),
                ),
                Err(e) => if i < 0 {
                    e@ == "negative index: "@ + text::int_text(i as int)
                } else {
                    &&& i >= item_places(self.node.tree()).len()
                    &&& e@ == "index out of range: "@ + text::int_text(i as int)
                },
            },
    {
        if i < 0 {
            return Err(message("negative index: ", string_of(&int_chars(i)).as_str()));
        }
        let v = self.items();
        if i as u64 >= v.len() as u64 {
            return Err(message("index out of range: ", string_of(&int_chars(i)).as_str()));
        }
        Ok(cursor_of(&v[i as usize]))
    }

    /// Cursors at the items of a kind, in order.
    pub fn items_of_kind(&self, k: ItemKind) -> (r: Vec<Cursor>)
        requires
            self.wf(),
        ensures
            ({
                let t = self.node.tree();
                let p = matching_items(t, k, item_places(t).len() as int);
                &&& r@.len() == p.len()
                &&& forall|j: int|
                    0 <= j < r@.len() ==> cursor_at(
                        #[trigger] r@[j],
                        self.node.whole(),
                        self.item_path(p[j]),
                    )
            }),
    {
        let v = self.items();
        let ghost t = self.node.tree();
        let mut r: Vec<Cursor> = Vec::new();
        let mut i: usize = 0;
        while i < v.len()
            invariant
                i <= v@.len(),
                t == self.node.tree(),
                v@.len() == item_places(t).len(),
                forall|j: int|
                    0 <= j < v@.len() ==> (#[trigger] v@[j]).fits() && stands(
                        v@[j].node(),
                        self.node.whole(),
                        self.item_path(j),
                    ) && v@[j].node().tree() == item(t, j),
                r@.len() == matching_items(t, k, i as int).len(),
                forall|j: int|
                    0 <= j < r@.len() ==> cursor_at(
                        #[trigger] r@[j],
                        self.node.whole(),
                        self.item_path(matching_items(t, k, i as int)[j]),
                    ),
            decreases v@.len() - i,
        {
            let n = v[i].syntax();
            let hit = match k {
                ItemKind::Mapping => n.is(SyntaxKind::BLOCK_MAPPING) || n.is(
                    SyntaxKind::FLOW_MAPPING,
                ),
                ItemKind::Sequence => n.is(SyntaxKind::BLOCK_SEQUENCE) || n.is(
                    SyntaxKind::FLOW_SEQUENCE,
                ),
                ItemKind::Scalar => n.is(SyntaxKind::SCALAR) || n.is(SyntaxKind::ALIAS_NODE),
            };
            assert(hit == item_matches(item(t, i as int), k));
            if hit {
                r.push(cursor_of(&v[i]));
            }
            i = i + 1;
        }
        r
    }

    /// Cursors at the items that are mappings.
    pub fn mappings(&self) -> (r: Vec<Cursor>)
        requires
            self.wf(),
        ensures
            self.are_items(r@, ItemKind::Mapping),
    {
        self.items_of_kind(ItemKind::Mapping)
    }

    /// Cursors at the items that are sequences.
    pub fn sequences(&self) -> (r: Vec<Cursor>)
        requires
            self.wf(),
        ensures
            self.are_items(r@, ItemKind::Sequence),
    {
        self.items_of_kind(ItemKind::Sequence)
    }

    /// Cursors at the items that are scalars.
    pub fn scalars(&self) -> (r: Vec<Cursor>)
        requires
            self.wf(),
        ensures
            self.are_items(r@, ItemKind::Scalar),
    {
        self.items_of_kind(ItemKind::Scalar)
    }

    /// Whether `r` are cursors at the items of a kind, in order.
    pub open spec fn are_items(self, r: Seq<Cursor>, k: ItemKind) -> bool {
        let t = self.node.tree();
        let p = matching_items(t, k, item_places(t).len() as int);
        &&& r.len() == p.len()
        &&& forall|j: int|
            0 <= j < r.len() ==> cursor_at(
                #[trigger] r[j],
                self.node.whole(),
                self.item_path(p[j]),
            )
    }
}

impl ScalarCursor {
    /// The cursor points at a scalar.
    pub open spec fn wf(self) -> bool {
        self.node.wf() && is_leaf(self.node.tree())
    }

    /// The byte span of the scalar.
    pub fn node_span(&self) -> (r: Range<usize>)
        requires
            self.wf(),
        ensures
            span_is(r, self.node.whole(), self.node.path@),
    {
        span_of(&self.node)
    }

    /// The source of the whole tree.
    pub fn tree_source(&self) -> (r: String)
        ensures
            r@ == self.node.whole().text(),
    {
        source_of(&self.node)
    }

    /// The source of the scalar.
    pub fn to_text(&self) -> (r: String)
        ensures
            r@ == self.node.tree().text(),
    {
        self.node.text()
    }

    /// The value of the scalar. That of an alias is its text.
    pub fn read(&self) -> (r: Result<Value, String>)
        requires
            self.wf(),
        ensures
            match (
                r,
                leaf_value(
                    self.node.tree(),
                    scalar::break_behind(self.node.whole(), self.node.path@),
                ),
            ) {
                (Ok(v), Ok(m)) => v@ == m,
                (Err(e), Err(f)) => e@ == "decode error: "@ + decode::fault_text(f),
                _ => false,
            },
    {
        broadcast use kind::lemma_kind_round_trip;

        if self.node.is(SyntaxKind::ALIAS_NODE) {
            return Ok(Value::String(self.node.text()));
        }
        match Scalar(self.node.handle()).to_value() {
            Ok(v) => Ok(v),
            Err(e) => Err(message("decode error: ", e.to_text().as_str())),
        }
    }
}

/// What a scalar or an alias is read as; `broken` says whether a line break stands
/// right behind it.
pub open spec fn leaf_value(t: Tree, broken: bool) -> Result<ValueModel, DecodeFault> {
    if t.kind() == SyntaxKind::ALIAS_NODE.code() {
        Ok(ValueModel::Text(t.text()))
    } else {
        scalar::scalar_value_in(t, broken)
    }
}

/// The places of the documents of a stream.
pub open spec fn document_places(t: Tree) -> Seq<int> {
    node::places(t.children(), nodes::typed::<Document>())
}

/// The places of the values of a document.
pub open spec fn root_places(d: Tree) -> Seq<int> {
    node::places(d.children(), nodes::typed::<Node>())
}

/// The documents with a value.
pub open spec fn full_documents() -> spec_fn(Tree) -> bool {
    |t: Tree| t is Node && Document::accepts(t) && root_places(t).len() > 0
}

/// The path of the value of the document at `i` of the node at `path`.
pub open spec fn root_path(whole: Tree, path: Seq<usize>, i: int) -> Seq<usize> {
    let d = path::tree_at(whole, path)->0.children()[i];
    path.push(i as usize).push(root_places(d)[0] as usize)
}

impl StreamCursor {
    /// The cursor points at a stream.
    pub open spec fn wf(self) -> bool {
        self.node.wf() && self.node.tree().kind() == SyntaxKind::STREAM.code()
    }

    /// The byte span of the stream.
    pub fn node_span(&self) -> (r: Range<usize>)
        requires
            self.wf(),
        ensures
            span_is(r, self.node.whole(), self.node.path@),
    {
        span_of(&self.node)
    }

    /// The source of the whole tree.
    pub fn tree_source(&self) -> (r: String)
        ensures
            r@ == self.node.whole().text(),
    {
        source_of(&self.node)
    }

    /// The source of the stream.
    pub fn to_text(&self) -> (r: String)
        ensures
            r@ == self.node.tree().text(),
    {
        self.node.text()
    }

    /// The number of documents.
    pub fn len(&self) -> (r: usize)
        requires
            self.wf(),
        ensures
            r == document_places(self.node.tree()).len(),
    {
        Stream(self.node.handle()).len()
    }

    /// A cursor at the value of the document at `i`.
    pub fn get_by_index(&self, i: i64) -> (r: Result<Cursor, String>)
        requires
            self.wf(),
        ensures
            ({
                let t = self.node.tree();
                let p = document_places(t);
                match r {
                    Ok(c) => 0 <= i < p.len() && root_places(t.children()[p[i as int]]).len() > 0
                        && cursor_at(
                        c,
                        self.node.whole(),
                        root_path(self.node.whole(), self.node.path@, p[i as int]),
                    ),
                    Err(e) => if i < 0 {
                        e@ == "negative index: "@ + text::int_text(i as int)
                    } else if i >= p.len() {
                        e@ == "document index out of range: "@ + text::int_text(i as int)
                    } else {
                        &&& root_places(t.children()[p[i as int]]).len() == 0
                        &&& e@ == "document "@ + text::int_text(i as int) + " is empty"@
                    },
                }
            }),
    {
        if i < 0 {
            return Err(message("negative index: ", string_of(&int_chars(i)).as_str()));
        }
        let docs = Stream(self.node.handle()).documents();
        if i as u64 >= docs.len() as u64 {
            return Err(
                message("document index out of range: ", string_of(&int_chars(i)).as_str()),
            );
        }
        assert(docs@[i as int].fits());
        match docs[i as usize].root_node() {
            Some(n) => Ok(cursor_of(&n)),
            None => {
                let head = message("document ", string_of(&int_chars(i)).as_str());
                Err(message(head.as_str(), " is empty"))
            },
        }
    }

    /// Cursors at the values of the documents; one without a value is skipped.
    pub fn cursors(&self) -> (r: Vec<Cursor>)
        requires
            self.wf(),
        ensures
            ({
                let p = node::places(self.node.parts(), full_documents());
                &&& r@.len() == p.len()
                &&& forall|j: int|
                    0 <= j < r@.len() ==> cursor_at(
                        #[trigger] r@[j],
                        self.node.whole(),
                        root_path(self.node.whole(), self.node.path@, p[j]),
                    )
            }),
    {
        let len = self.node.len();
        let ghost cs = self.node.parts();
        let mut r: Vec<Cursor> = Vec::new();
        let mut i: usize = 0;
        assert(cs.take(0) =~= seq![]);
        while i < len
            invariant
                self.wf(),
                i <= len,
                cs == self.node.parts(),
                len == cs.len(),
                r@.len() == node::places(cs.take(i as int), full_documents()).len(),
                forall|j: int|
                    0 <= j < r@.len() ==> cursor_at(
                        #[trigger] r@[j],
                        self.node.whole(),
                        root_path(
                            self.node.whole(),
                            self.node.path@,
                            node::places(cs.take(i as int), full_documents())[j],
                        ),
                    ),
            decreases len - i,
        {
            assert(cs.take(i + 1).drop_last() =~= cs.take(i as int));
            if let SyntaxElement::Node(c) = self.node.child_or_token(i) {
                if let Some(doc) = Document::cast(c) {
                    if let Some(n) = doc.root_node() {
                        r.push(cursor_of(&n));
                    }
                }
            }
            i = i + 1;
        }
        assert(cs.take(len as int) =~= cs);
        r
    }
}

/// The cursor at the value of the first document of a tree; the null cursor where
/// there is none.
pub fn root_cursor(tree: &SyntaxTree) -> (r: Cursor)
    requires
        tree.wf(),
    ensures
        ({
            let t = tree@;
            let p = document_places(t);
            if t.kind() == SyntaxKind::STREAM.code() && p.len() > 0 && root_places(
                t.children()[p[0]],
            ).len() > 0 {
                cursor_at(r, t, root_path(t, seq![], p[0]))
            } else {
                r is Null
            }
        }),
{
    let ghost t = tree@;
    proof {
        assert(tree.root.path@ =~= seq![]);
    }
    if tree.root.is(SyntaxKind::STREAM) {
        if let Some(doc) = nth_typed::<Document>(&tree.root, 0) {
            if let Some(n) = doc.root_node() {
                return cursor_of(&n);
            }
        }
    }
    Cursor::Null(NullCursor)
}

/// The cursor at a whole tree.
pub fn stream_cursor(tree: &SyntaxTree) -> (r: StreamCursor)
    requires
        tree.wf(),
        tree@.kind() == SyntaxKind::STREAM.code(),
    ensures
        r.wf(),
        stands(r.node, tree@, seq![]),
{
    assert(tree.root.path@ =~= seq![]);
    StreamCursor { node: tree.root.handle() }
}

} // verus!
