//! Comments on streams, documents and entries, and entries of either style.

use vstd::prelude::*;
use vstd::string::*;

use crate::ast::comment;
use crate::ast::comment::{
    clear_trailing, read_leading, read_trailing, write_leading, write_leading_guarded,
    write_trailing,
};
use crate::ast::nodes;
use crate::ast::nodes::{
    nth_typed, AstNode, BlockMappingEntry, BlockSequenceEntry, Document, FlowMappingEntry,
    FlowSequenceEntry, Node, Stream,
};
use crate::ast::trivia;
use crate::syntax::green::{Tree, MAX_LEN};
use crate::syntax::kind::SyntaxKind;
use crate::syntax::node;
use crate::syntax::node::{SyntaxElement, SyntaxNode, SyntaxToken};
use crate::syntax::path;
use crate::syntax::tree::SyntaxTree;
use crate::text::{chars_of, string_of};

verus! {

/// Whether a document begins with `---`.
pub open spec fn explicit_document(t: Tree) -> bool {
    node::place_from(t.children(), 0, node::tokens_of(SyntaxKind::DIRECTIVES_END)) is Some
}

/// The first document of a stream.
pub open spec fn first_document(t: Tree) -> Option<int> {
    let p = node::places(t.children(), nodes::typed::<Document>());
    if p.len() > 0 {
        Some(p[0])
    } else {
        None
    }
}

/// The leading comment of the stream at `path`: that before the `---` of its
/// first document. Without a `---` the comment belongs to the document.
pub open spec fn stream_comment(whole: Tree, path: Seq<usize>) -> Seq<char> {
    let t = path::tree_at(whole, path)->0;
    match first_document(t) {
        Some(i) => if explicit_document(t.children()[i]) {
            comment::leading_text(whole, path.push(i as usize))
        } else {
            seq![]
        },
        None => seq![],
    }
}

/// The node that the leading comment of the document at `path` stands before:
/// behind a `---` its value, else the document.
pub open spec fn document_anchor(whole: Tree, path: Seq<usize>) -> Seq<usize> {
    let t = path::tree_at(whole, path)->0;
    let p = node::places(t.children(), nodes::typed::<Node>());
    if explicit_document(t) && p.len() > 0 {
        path.push(p[0] as usize)
    } else {
        path
    }
}

impl Stream {
    /// The comment before the `---` of the first document.
    pub fn leading_comment(&self) -> (r: String)
        requires
            self.0.wf(),
        ensures
            r@ == stream_comment(self.0.whole(), self.0.path@),
    {
        if let Some(doc) = nth_typed::<Document>(&self.0, 0) {
            if doc.directives_end_token().is_some() {
                return read_leading(&doc.0);
            }
        }
        let r = String::new();
        assert(r@ =~= seq![]);
        r
    }

    /// Sets the comment before the `---` of the first document, or clears it.
    /// Without a `---` there is no room for it.
    pub fn set_leading_comment(&self, tree: &mut SyntaxTree, text: Option<&str>) -> (r: Result<
        (),
        String,
    >)
        requires
            old(tree).wf(),
            self.0.wf(),
            self.0.whole() == old(tree)@,
            match first_document(self.0.tree()) {
                Some(i) => path::tree_len(
                    comment::with_leading(
                        old(tree)@,
                        self.0.path@.push(i as usize),
                        comment::opt_view(text),
                    ),
                ) <= MAX_LEN,
                None => true,
            },
        ensures
            final(tree).wf(),
            match first_document(self.0.tree()) {
                Some(i) => if explicit_document(self.0.parts()[i]) {
                    r is Ok && final(tree)@ == comment::with_leading(
                        old(tree)@,
                        self.0.path@.push(i as usize),
                        comment::opt_view(text),
                    )
                } else {
                    r is Err && r->Err_0@ == no_stream_room() && final(tree)@ == old(tree)@
                },
                None => r is Err && r->Err_0@ == "stream has no documents"@ && final(tree)@
                    == old(tree)@,
            },
    {
        let doc = match nth_typed::<Document>(&self.0, 0) {
            Some(d) => d,
            None => {
                return Err(string_of(&chars_of("stream has no documents")));
            },
        };
        if doc.directives_end_token().is_none() {
            return Err(
                string_of(
                    &chars_of(
                        "stream has no explicit `---` marker; the top-of-file comment belongs to the first document (use `d.set_comment(...)`)",
                    ),
                ),
            );
        }
        write_leading(tree, &doc.0, text);
        Ok(())
    }
}

/// Why a stream has no leading comment of its own.
pub open spec fn no_stream_room() -> Seq<char> {
    "stream has no explicit `---` marker; the top-of-file comment belongs to the first document (use `d.set_comment(...)`)"@
}

impl Document {
    /// The node that the leading comment stands before, behind a `---`.
    fn leading_comment_inner_anchor(&self) -> (r: Option<SyntaxNode>)
        requires
            self.0.wf(),
        ensures
            match r {
                Some(n) => n.wf() && n.whole() == self.0.whole() && n.path@ == document_anchor(
                    self.0.whole(),
                    self.0.path@,
                ),
                None => document_anchor(self.0.whole(), self.0.path@) == self.0.path@,
            },
    {
        if self.directives_end_token().is_none() {
            return None;
        }
        match nth_typed::<Node>(&self.0, 0) {
            Some(n) => Some(n.syntax().handle()),
            None => None,
        }
    }

    /// The leading comment: behind a `---` that before the value, else that
    /// before the document.
    pub fn leading_comment(&self) -> (r: String)
        requires
            self.0.wf(),
        ensures
            r@ == comment::leading_text(
                self.0.whole(),
                document_anchor(self.0.whole(), self.0.path@),
            ),
    {
        match self.leading_comment_inner_anchor() {
            Some(n) => read_leading(&n),
            None => read_leading(&self.0),
        }
    }

    /// Sets the leading comment, or clears it.
    pub fn set_leading_comment(&self, tree: &mut SyntaxTree, text: Option<&str>)
        requires
            old(tree).wf(),
            self.0.wf(),
            self.0.whole() == old(tree)@,
            path::tree_len(
                comment::with_leading(
                    old(tree)@,
                    document_anchor(old(tree)@, self.0.path@),
                    comment::opt_view(text),
                ),
            ) <= MAX_LEN,
        ensures
            final(tree).wf(),
            final(tree)@ == comment::with_leading(
                old(tree)@,
                document_anchor(old(tree)@, self.0.path@),
                comment::opt_view(text),
            ),
    {
        match self.leading_comment_inner_anchor() {
            Some(n) => write_leading(tree, &n, text),
            None => write_leading(tree, &self.0, text),
        }
    }
}

/// For the first entry of a block sequence that is the value of a block mapping
/// entry, the sequence: the comment above the entry stands before the sequence.
pub open spec fn outer_anchor(whole: Tree, path: Seq<usize>) -> Option<Seq<usize>> {
    if path.len() < 2 {
        None
    } else {
        let up = path.drop_last();
        let s = path::tree_at(whole, up)->0;
        let outer = path::tree_at(whole, up.drop_last())->0;
        if s.is_node_of(SyntaxKind::BLOCK_SEQUENCE) && node::place_from(
            s.children(),
            0,
            node::nodes_of(SyntaxKind::BLOCK_SEQUENCE_ENTRY),
        ) == Some(path.last() as int) && outer.is_node_of(SyntaxKind::BLOCK_MAPPING_ENTRY) {
            Some(up)
        } else {
            None
        }
    }
}

/// The node whose leading comment is that of the sequence entry at `path`: the
/// sequence where the comment stands before it, else the entry.
pub open spec fn item_anchor(whole: Tree, path: Seq<usize>) -> Seq<usize> {
    match outer_anchor(whole, path) {
        Some(q) => if comment::leading_text(whole, path).len() == 0 && comment::leading_text(
            whole,
            q,
        ).len() > 0 {
            q
        } else {
            path
        },
        None => path,
    }
}

impl BlockSequenceEntry {
    /// The trivia before the entry.
    pub fn leading_trivia(&self) -> (r: Vec<SyntaxToken>)
        requires
            self.0.wf(),
        ensures
            trivia::tokens_at(
                r@,
                self.0.whole(),
                trivia::leading_places(self.0.whole(), self.0.path@),
            ),
    {
        trivia::leading_trivia(&self.0)
    }

    /// The trivia at the end of the entry.
    pub fn trailing_trivia(&self) -> (r: Vec<SyntaxToken>)
        requires
            self.0.wf(),
        ensures
            trivia::tokens_at(
                r@,
                self.0.whole(),
                trivia::trailing_places(self.0.whole(), self.0.path@),
            ),
    {
        trivia::trailing_trivia(&self.0)
    }

    /// The sequence, for its first entry, where it is the value of a block
    /// mapping entry.
    fn first_element_outer_anchor(&self) -> (r: Option<SyntaxNode>)
        requires
            self.0.wf(),
            self.fits(),
        ensures
            match outer_anchor(self.0.whole(), self.0.path@) {
                Some(q) => r is Some && r->0.wf() && r->0.whole() == self.0.whole()
                    && r->0.path@ == q,
                None => r is None,
            },
    {
        let s = match self.0.parent() {
            Some(p) => p,
            None => {
                return None;
            },
        };
        let outer = match s.parent() {
            Some(p) => p,
            None => {
                return None;
            },
        };
        if !s.is(SyntaxKind::BLOCK_SEQUENCE) || !outer.is(SyntaxKind::BLOCK_MAPPING_ENTRY) {
            return None;
        }
        let index = self.0.index();
        let ghost cs = s.parts();
        let ghost f = node::nodes_of(SyntaxKind::BLOCK_SEQUENCE_ENTRY);
        let len = s.len();
        let mut i: usize = 0;
        while i < len
            invariant
                s.wf(),
                cs == s.parts(),
                len == cs.len(),
                i <= len,
                f == node::nodes_of(SyntaxKind::BLOCK_SEQUENCE_ENTRY),
                node::place_from(cs, i as int, f) == node::place_from(cs, 0, f),
                self.0.path@.len() >= 2,
                s.whole() == self.0.whole(),
                s.path@ == self.0.path@.drop_last(),
                index == self.0.path@.last(),
                cs == path::tree_at(self.0.whole(), self.0.path@.drop_last())->0.children(),
                path::tree_at(self.0.whole(), self.0.path@.drop_last())->0.is_node_of(
                    SyntaxKind::BLOCK_SEQUENCE,
                ),
                path::tree_at(self.0.whole(), self.0.path@.drop_last().drop_last())->0.is_node_of(
                    SyntaxKind::BLOCK_MAPPING_ENTRY,
                ),
            decreases len - i,
        {
            if let SyntaxElement::Node(c) = s.child_or_token(i) {
                if c.is(SyntaxKind::BLOCK_SEQUENCE_ENTRY) {
                    if i == index {
                        return Some(s);
                    }
                    return None;
                }
            }
            i = i + 1;
        }
        None
    }

    /// The leading comment. Above the first entry it may stand before the
    /// sequence, in the entry of the mapping around it.
    pub fn leading_comment(&self) -> (r: String)
        requires
            self.0.wf(),
            self.fits(),
        ensures
            r@ == comment::leading_text(
                self.0.whole(),
                item_anchor(self.0.whole(), self.0.path@),
            ),
    {
        let direct = read_leading(&self.0);
        if chars_of(direct.as_str()).len() > 0 {
            return direct;
        }
        if let Some(outer) = self.first_element_outer_anchor() {
            let r = read_leading(&outer);
            if chars_of(r.as_str()).len() > 0 {
                return r;
            }
        }
        direct
    }

    /// Sets the leading comment, or clears it, where it stands.
    pub fn set_leading_comment(&self, tree: &mut SyntaxTree, text: Option<&str>) -> (r: Result<
        (),
        String,
    >)
        requires
            old(tree).wf(),
            self.0.wf(),
            self.fits(),
            self.0.whole() == old(tree)@,
            path::tree_len(
                comment::with_leading(
                    old(tree)@,
                    item_anchor(old(tree)@, self.0.path@),
                    comment::opt_view(text),
                ),
            ) <= MAX_LEN,
        ensures
            comment::leading_written(
                r,
                *old(tree),
                *final(tree),
                item_anchor(old(tree)@, self.0.path@),
                comment::opt_view(text),
            ),
    {
        let direct = read_leading(&self.0);
        if chars_of(direct.as_str()).len() == 0 {
            if let Some(outer) = self.first_element_outer_anchor() {
                let there = read_leading(&outer);
                if chars_of(there.as_str()).len() > 0 {
                    return write_leading_guarded(tree, &outer, text);
                }
            }
        }
        write_leading_guarded(tree, &self.0, text)
    }
}

/// An entry of a mapping or sequence of either style. Entries of sequences have
/// no key.
pub trait Entry {
    /// The entry's node.
    spec fn entry_node(&self) -> SyntaxNode;

    /// The node that its leading comment stands before.
    spec fn comment_anchor(&self, whole: Tree) -> Seq<usize>;

    /// Which of the values in the entry is its key, if one is.
    spec fn key_index(&self) -> Option<int>;

    /// Which of the values in the entry is its value.
    spec fn value_index(&self) -> int;

    /// Whether the entry is of the right kind, and stands in its tree.
    spec fn ready(&self) -> bool;

    /// The key.
    fn key(&self) -> (r: Option<Node>)
        requires
            self.ready(),
        ensures
            match self.key_index() {
                Some(k) => nodes::nth_is(r, self.entry_node(), k),
                None => r is None,
            },
    ;

    /// The value.
    fn value(&self) -> (r: Option<Node>)
        requires
            self.ready(),
        ensures
            nodes::nth_is(r, self.entry_node(), self.value_index()),
    ;

    /// The leading comment.
    fn leading_comment(&self) -> (r: String)
        requires
            self.ready(),
        ensures
            r@ == comment::leading_text(
                self.entry_node().whole(),
                self.comment_anchor(self.entry_node().whole()),
            ),
    ;

    /// Sets the leading comment, or clears it.
    fn set_leading_comment(&self, tree: &mut SyntaxTree, text: Option<&str>) -> (r: Result<
        (),
        String,
    >)
        requires
            old(tree).wf(),
            self.ready(),
            self.entry_node().whole() == old(tree)@,
            path::tree_len(
                comment::with_leading(
                    old(tree)@,
                    self.comment_anchor(old(tree)@),
                    comment::opt_view(text),
                ),
            ) <= MAX_LEN,
        ensures
            comment::leading_written(
                r,
                *old(tree),
                *final(tree),
                self.comment_anchor(old(tree)@),
                comment::opt_view(text),
            ),
    ;

    /// The trailing comment.
    fn trailing_comment(&self) -> (r: String)
        requires
            self.ready(),
        ensures
            r@ == comment::trailing_text(self.entry_node().whole(), self.entry_node().path@),
    ;

    /// Sets the trailing comment.
    fn set_trailing_comment(&self, tree: &mut SyntaxTree, text: &str) -> (r: Result<(), String>)
        requires
            old(tree).wf(),
            self.ready(),
            self.entry_node().whole() == old(tree)@,
            path::tree_len(
                comment::with_trailing(old(tree)@, self.entry_node().path@, Some(text@)),
            ) <= MAX_LEN,
        ensures
            comment::trailing_written(
                r,
                *old(tree),
                *final(tree),
                self.entry_node().path@,
                text@,
            ),
    ;

    /// Takes the trailing comment away.
    fn clear_trailing_comment(&self, tree: &mut SyntaxTree)
        requires
            old(tree).wf(),
            self.ready(),
            self.entry_node().whole() == old(tree)@,
            path::tree_len(
                comment::with_trailing(old(tree)@, self.entry_node().path@, None),
            ) <= MAX_LEN,
        ensures
            final(tree).wf(),
            final(tree)@ == comment::with_trailing(old(tree)@, self.entry_node().path@, None),
    ;
}

impl BlockMappingEntry {
    /// The trivia before the entry.
    pub fn leading_trivia(&self) -> (r: Vec<SyntaxToken>)
        requires
            self.0.wf(),
        ensures
            trivia::tokens_at(
                r@,
                self.0.whole(),
                trivia::leading_places(self.0.whole(), self.0.path@),
            ),
    {
        trivia::leading_trivia(&self.0)
    }

    /// The trivia at the end of the entry.
    pub fn trailing_trivia(&self) -> (r: Vec<SyntaxToken>)
        requires
            self.0.wf(),
        ensures
            trivia::tokens_at(
                r@,
                self.0.whole(),
                trivia::trailing_places(self.0.whole(), self.0.path@),
            ),
    {
        trivia::trailing_trivia(&self.0)
    }

    /// The leading comment.
    pub fn leading_comment(&self) -> (r: String)
        requires
            self.0.wf(),
        ensures
            r@ == comment::leading_text(self.0.whole(), self.0.path@),
    {
        read_leading(&self.0)
    }

    /// Sets the leading comment, or clears it.
    pub fn set_leading_comment(&self, tree: &mut SyntaxTree, text: Option<&str>) -> (r: Result<
        (),
        String,
    >)
        requires
            old(tree).wf(),
            self.0.wf(),
            self.0.whole() == old(tree)@,
            path::tree_len(
                comment::with_leading(old(tree)@, self.0.path@, comment::opt_view(text)),
            ) <= MAX_LEN,
        ensures
            comment::leading_written(
                r,
                *old(tree),
                *final(tree),
                self.0.path@,
                comment::opt_view(text),
            ),
    {
        write_leading_guarded(tree, &self.0, text)
    }

    /// The trailing comment.
    pub fn trailing_comment(&self) -> (r: String)
        requires
            self.0.wf(),
        ensures
            r@ == comment::trailing_text(self.0.whole(), self.0.path@),
    {
        read_trailing(&self.0)
    }

    /// Sets the trailing comment.
    pub fn set_trailing_comment(&self, tree: &mut SyntaxTree, text: &str) -> (r: Result<(), String>)
        requires
            old(tree).wf(),
            self.0.wf(),
            self.0.whole() == old(tree)@,
            path::tree_len(comment::with_trailing(old(tree)@, self.0.path@, Some(text@)))
                <= MAX_LEN,
        ensures
            comment::trailing_written(r, *old(tree), *final(tree), self.0.path@, text@),
    {
        write_trailing(tree, &self.0, text)
    }

    /// Takes the trailing comment away.
    pub fn clear_trailing_comment(&self, tree: &mut SyntaxTree)
        requires
            old(tree).wf(),
            self.0.wf(),
            self.0.whole() == old(tree)@,
            path::tree_len(comment::with_trailing(old(tree)@, self.0.path@, None)) <= MAX_LEN,
        ensures
            final(tree).wf(),
            final(tree)@ == comment::with_trailing(old(tree)@, self.0.path@, None),
    {
        clear_trailing(tree, &self.0)
    }
}

impl BlockSequenceEntry {
    /// The trailing comment.
    pub fn trailing_comment(&self) -> (r: String)
        requires
            self.0.wf(),
        ensures
            r@ == comment::trailing_text(self.0.whole(), self.0.path@),
    {
        read_trailing(&self.0)
    }

    /// Sets the trailing comment.
    pub fn set_trailing_comment(&self, tree: &mut SyntaxTree, text: &str) -> (r: Result<(), String>)
        requires
            old(tree).wf(),
            self.0.wf(),
            self.0.whole() == old(tree)@,
            path::tree_len(comment::with_trailing(old(tree)@, self.0.path@, Some(text@)))
                <= MAX_LEN,
        ensures
            comment::trailing_written(r, *old(tree), *final(tree), self.0.path@, text@),
    {
        write_trailing(tree, &self.0, text)
    }

    /// Takes the trailing comment away.
    pub fn clear_trailing_comment(&self, tree: &mut SyntaxTree)
        requires
            old(tree).wf(),
            self.0.wf(),
            self.0.whole() == old(tree)@,
            path::tree_len(comment::with_trailing(old(tree)@, self.0.path@, None)) <= MAX_LEN,
        ensures
            final(tree).wf(),
            final(tree)@ == comment::with_trailing(old(tree)@, self.0.path@, None),
    {
        clear_trailing(tree, &self.0)
    }
}

impl FlowMappingEntry {
    /// The leading comment.
    pub fn leading_comment(&self) -> (r: String)
        requires
            self.0.wf(),
        ensures
            r@ == comment::leading_text(self.0.whole(), self.0.path@),
    {
        read_leading(&self.0)
    }

    /// Sets the leading comment, or clears it.
    pub fn set_leading_comment(&self, tree: &mut SyntaxTree, text: Option<&str>) -> (r: Result<
        (),
        String,
    >)
        requires
            old(tree).wf(),
            self.0.wf(),
            self.0.whole() == old(tree)@,
            path::tree_len(
                comment::with_leading(old(tree)@, self.0.path@, comment::opt_view(text)),
            ) <= MAX_LEN,
        ensures
            comment::leading_written(
                r,
                *old(tree),
                *final(tree),
                self.0.path@,
                comment::opt_view(text),
            ),
    {
        write_leading_guarded(tree, &self.0, text)
    }

    /// The trailing comment.
    pub fn trailing_comment(&self) -> (r: String)
        requires
            self.0.wf(),
        ensures
            r@ == comment::trailing_text(self.0.whole(), self.0.path@),
    {
        read_trailing(&self.0)
    }

    /// Sets the trailing comment.
    pub fn set_trailing_comment(&self, tree: &mut SyntaxTree, text: &str) -> (r: Result<(), String>)
        requires
            old(tree).wf(),
            self.0.wf(),
            self.0.whole() == old(tree)@,
            path::tree_len(comment::with_trailing(old(tree)@, self.0.path@, Some(text@)))
                <= MAX_LEN,
        ensures
            comment::trailing_written(r, *old(tree), *final(tree), self.0.path@, text@),
    {
        write_trailing(tree, &self.0, text)
    }

    /// Takes the trailing comment away.
    pub fn clear_trailing_comment(&self, tree: &mut SyntaxTree)
        requires
            old(tree).wf(),
            self.0.wf(),
            self.0.whole() == old(tree)@,
            path::tree_len(comment::with_trailing(old(tree)@, self.0.path@, None)) <= MAX_LEN,
        ensures
            final(tree).wf(),
            final(tree)@ == comment::with_trailing(old(tree)@, self.0.path@, None),
    {
        clear_trailing(tree, &self.0)
    }
}

impl FlowSequenceEntry {
    /// The leading comment.
    pub fn leading_comment(&self) -> (r: String)
        requires
            self.0.wf(),
        ensures
            r@ == comment::leading_text(self.0.whole(), self.0.path@),
    {
        read_leading(&self.0)
    }

    /// Sets the leading comment, or clears it.
    pub fn set_leading_comment(&self, tree: &mut SyntaxTree, text: Option<&str>) -> (r: Result<
        (),
        String,
    >)
        requires
            old(tree).wf(),
            self.0.wf(),
            self.0.whole() == old(tree)@,
            path::tree_len(
                comment::with_leading(old(tree)@, self.0.path@, comment::opt_view(text)),
            ) <= MAX_LEN,
        ensures
            comment::leading_written(
                r,
                *old(tree),
                *final(tree),
                self.0.path@,
                comment::opt_view(text),
            ),
    {
        write_leading_guarded(tree, &self.0, text)
    }

    /// The trailing comment.
    pub fn trailing_comment(&self) -> (r: String)
        requires
            self.0.wf(),
        ensures
            r@ == comment::trailing_text(self.0.whole(), self.0.path@),
    {
        read_trailing(&self.0)
    }

    /// Sets the trailing comment.
    pub fn set_trailing_comment(&self, tree: &mut SyntaxTree, text: &str) -> (r: Result<(), String>)
        requires
            old(tree).wf(),
            self.0.wf(),
            self.0.whole() == old(tree)@,
            path::tree_len(comment::with_trailing(old(tree)@, self.0.path@, Some(text@)))
                <= MAX_LEN,
        ensures
            comment::trailing_written(r, *old(tree), *final(tree), self.0.path@, text@),
    {
        write_trailing(tree, &self.0, text)
    }

    /// Takes the trailing comment away.
    pub fn clear_trailing_comment(&self, tree: &mut SyntaxTree)
        requires
            old(tree).wf(),
            self.0.wf(),
            self.0.whole() == old(tree)@,
            path::tree_len(comment::with_trailing(old(tree)@, self.0.path@, None)) <= MAX_LEN,
        ensures
            final(tree).wf(),
            final(tree)@ == comment::with_trailing(old(tree)@, self.0.path@, None),
    {
        clear_trailing(tree, &self.0)
    }
}

impl Entry for BlockMappingEntry {
    open spec fn entry_node(&self) -> SyntaxNode {
        self.0
    }

    open spec fn comment_anchor(&self, whole: Tree) -> Seq<usize> {
        self.0.path@
    }

    open spec fn key_index(&self) -> Option<int> {
        Some(0)
    }

    open spec fn value_index(&self) -> int {
        1
    }

    open spec fn ready(&self) -> bool {
        self.0.wf() && self.fits()
    }

    fn key(&self) -> (r: Option<Node>) {
        nth_typed(&self.0, 0)
    }

    fn value(&self) -> (r: Option<Node>) {
        nth_typed(&self.0, 1)
    }

    fn leading_comment(&self) -> (r: String) {
        BlockMappingEntry::leading_comment(self)
    }

    fn set_leading_comment(&self, tree: &mut SyntaxTree, text: Option<&str>) -> (r: Result<
        (),
        String,
    >) {
        BlockMappingEntry::set_leading_comment(self, tree, text)
    }

    fn trailing_comment(&self) -> (r: String) {
        BlockMappingEntry::trailing_comment(self)
    }

    fn set_trailing_comment(&self, tree: &mut SyntaxTree, text: &str) -> (r: Result<(), String>) {
        BlockMappingEntry::set_trailing_comment(self, tree, text)
    }

    fn clear_trailing_comment(&self, tree: &mut SyntaxTree) {
        BlockMappingEntry::clear_trailing_comment(self, tree)
    }
}

impl Entry for BlockSequenceEntry {
    open spec fn entry_node(&self) -> SyntaxNode {
        self.0
    }

    open spec fn comment_anchor(&self, whole: Tree) -> Seq<usize> {
        item_anchor(whole, self.0.path@)
    }

    open spec fn key_index(&self) -> Option<int> {
        None
    }

    open spec fn value_index(&self) -> int {
        0
    }

    open spec fn ready(&self) -> bool {
        self.0.wf() && self.fits()
    }

    fn key(&self) -> (r: Option<Node>) {
        None
    }

    fn value(&self) -> (r: Option<Node>) {
        nth_typed(&self.0, 0)
    }

    fn leading_comment(&self) -> (r: String) {
        BlockSequenceEntry::leading_comment(self)
    }

    fn set_leading_comment(&self, tree: &mut SyntaxTree, text: Option<&str>) -> (r: Result<
        (),
        String,
    >) {
        BlockSequenceEntry::set_leading_comment(self, tree, text)
    }

    fn trailing_comment(&self) -> (r: String) {
        BlockSequenceEntry::trailing_comment(self)
    }

    fn set_trailing_comment(&self, tree: &mut SyntaxTree, text: &str) -> (r: Result<(), String>) {
        BlockSequenceEntry::set_trailing_comment(self, tree, text)
    }

    fn clear_trailing_comment(&self, tree: &mut SyntaxTree) {
        BlockSequenceEntry::clear_trailing_comment(self, tree)
    }
}

impl Entry for FlowMappingEntry {
    open spec fn entry_node(&self) -> SyntaxNode {
        self.0
    }

    open spec fn comment_anchor(&self, whole: Tree) -> Seq<usize> {
        self.0.path@
    }

    open spec fn key_index(&self) -> Option<int> {
        Some(0)
    }

    open spec fn value_index(&self) -> int {
        1
    }

    open spec fn ready(&self) -> bool {
        self.0.wf() && self.fits()
    }

    fn key(&self) -> (r: Option<Node>) {
        nth_typed(&self.0, 0)
    }

    fn value(&self) -> (r: Option<Node>) {
        nth_typed(&self.0, 1)
    }

    fn leading_comment(&self) -> (r: String) {
        FlowMappingEntry::leading_comment(self)
    }

    fn set_leading_comment(&self, tree: &mut SyntaxTree, text: Option<&str>) -> (r: Result<
        (),
        String,
    >) {
        FlowMappingEntry::set_leading_comment(self, tree, text)
    }

    fn trailing_comment(&self) -> (r: String) {
        FlowMappingEntry::trailing_comment(self)
    }

    fn set_trailing_comment(&self, tree: &mut SyntaxTree, text: &str) -> (r: Result<(), String>) {
        FlowMappingEntry::set_trailing_comment(self, tree, text)
    }

    fn clear_trailing_comment(&self, tree: &mut SyntaxTree) {
        FlowMappingEntry::clear_trailing_comment(self, tree)
    }
}

impl Entry for FlowSequenceEntry {
    open spec fn entry_node(&self) -> SyntaxNode {
        self.0
    }

    open spec fn comment_anchor(&self, whole: Tree) -> Seq<usize> {
        self.0.path@
    }

    open spec fn key_index(&self) -> Option<int> {
        None
    }

    open spec fn value_index(&self) -> int {
        0
    }

    open spec fn ready(&self) -> bool {
        self.0.wf() && self.fits()
    }

    fn key(&self) -> (r: Option<Node>) {
        None
    }

    fn value(&self) -> (r: Option<Node>) {
        nth_typed(&self.0, 0)
    }

    fn leading_comment(&self) -> (r: String) {
        FlowSequenceEntry::leading_comment(self)
    }

    fn set_leading_comment(&self, tree: &mut SyntaxTree, text: Option<&str>) -> (r: Result<
        (),
        String,
    >) {
        FlowSequenceEntry::set_leading_comment(self, tree, text)
    }

    fn trailing_comment(&self) -> (r: String) {
        FlowSequenceEntry::trailing_comment(self)
    }

    fn set_trailing_comment(&self, tree: &mut SyntaxTree, text: &str) -> (r: Result<(), String>) {
        FlowSequenceEntry::set_trailing_comment(self, tree, text)
    }

    fn clear_trailing_comment(&self, tree: &mut SyntaxTree) {
        FlowSequenceEntry::clear_trailing_comment(self, tree)
    }
}

} // verus!
