//! Comments by cursor: a cursor's comments are those of the entry or document
//! that it stands in. In a flow collection there are none.

use vstd::prelude::*;
use vstd::string::*;

use crate::ast;
use crate::ast::entries;
use crate::ast::nodes::{AstNode, BlockMappingEntry, BlockSequenceEntry, Document};
use crate::syntax::green::{Tree, MAX_LEN};
use crate::syntax::kind::SyntaxKind;
use crate::syntax::node::SyntaxNode;
use crate::syntax::path;
use crate::syntax::tree::SyntaxTree;
use crate::text::{chars_of, string_of};

verus! {

/// What carries the comments of a cursor.
pub enum Anchor {
    MapEntry(BlockMappingEntry),
    SeqEntry(BlockSequenceEntry),
    Doc(Document),
}

/// What carries the comments of a place, by its path.
pub enum AnchorPlace {
    MapEntry(Seq<usize>),
    SeqEntry(Seq<usize>),
    Doc(Seq<usize>),
}

/// The innermost block entry or document that the node at `path` stands in, or
/// is; nothing where a flow collection comes first.
pub open spec fn anchor_place(whole: Tree, path: Seq<usize>) -> Option<AnchorPlace>
    decreases path.len(),
{
    let k = path::tree_at(whole, path)->0.kind();
    if k == SyntaxKind::BLOCK_MAPPING_ENTRY.code() {
        Some(AnchorPlace::MapEntry(path))
    } else if k == SyntaxKind::BLOCK_SEQUENCE_ENTRY.code() {
        Some(AnchorPlace::SeqEntry(path))
    } else if k == SyntaxKind::DOCUMENT.code() {
        Some(AnchorPlace::Doc(path))
    } else if k == SyntaxKind::FLOW_MAPPING.code() || k == SyntaxKind::FLOW_SEQUENCE.code() || k
        == SyntaxKind::FLOW_MAPPING_ENTRY.code() || k == SyntaxKind::FLOW_SEQUENCE_ENTRY.code() {
        None
    } else if path.len() == 0 {
        None
    } else {
        anchor_place(whole, path.drop_last())
    }
}

impl Anchor {
    /// Whether this is what stands at a place of the tree `whole`.
    pub open spec fn stands_at(self, whole: Tree, p: AnchorPlace) -> bool {
        match (self, p) {
            (Anchor::MapEntry(e), AnchorPlace::MapEntry(q)) => e.0.wf() && e.fits()
                && e.0.whole() == whole && e.0.path@ == q,
            (Anchor::SeqEntry(e), AnchorPlace::SeqEntry(q)) => e.0.wf() && e.fits()
                && e.0.whole() == whole && e.0.path@ == q,
            (Anchor::Doc(d), AnchorPlace::Doc(q)) => d.0.wf() && d.fits() && d.0.whole() == whole
                && d.0.path@ == q,
            _ => false,
        }
    }

    /// What carries the comments of a cursor's node.
    pub fn find(n: &SyntaxNode) -> (r: Option<Anchor>)
        requires
            n.wf(),
        ensures
            match anchor_place(n.whole(), n.path@) {
                Some(p) => r is Some && r->0.stands_at(n.whole(), p),
                None => r is None,
            },
        decreases n.path@.len(),
    {
        if n.is(SyntaxKind::BLOCK_MAPPING_ENTRY) {
            return Some(Anchor::MapEntry(BlockMappingEntry(n.handle())));
        }
        if n.is(SyntaxKind::BLOCK_SEQUENCE_ENTRY) {
            return Some(Anchor::SeqEntry(BlockSequenceEntry(n.handle())));
        }
        if n.is(SyntaxKind::DOCUMENT) {
            return Some(Anchor::Doc(Document(n.handle())));
        }
        if n.is(SyntaxKind::FLOW_MAPPING) || n.is(SyntaxKind::FLOW_SEQUENCE) || n.is(
            SyntaxKind::FLOW_MAPPING_ENTRY,
        ) || n.is(SyntaxKind::FLOW_SEQUENCE_ENTRY) {
            return None;
        }
        match n.parent() {
            Some(p) => Anchor::find(&p),
            None => None,
        }
    }
}

/// The node that the leading comment of a place stands before.
pub open spec fn leading_place(whole: Tree, p: AnchorPlace) -> Seq<usize> {
    match p {
        AnchorPlace::MapEntry(q) => q,
        AnchorPlace::SeqEntry(q) => entries::item_anchor(whole, q),
        AnchorPlace::Doc(q) => entries::document_anchor(whole, q),
    }
}

/// The leading comment of the cursor at `path`.
pub open spec fn cursor_comment(whole: Tree, path: Seq<usize>) -> Seq<char> {
    match anchor_place(whole, path) {
        Some(p) => ast::comment::leading_text(whole, leading_place(whole, p)),
        None => seq![],
    }
}

/// The trailing comment of the cursor at `path`; a document has none.
pub open spec fn cursor_trailing(whole: Tree, path: Seq<usize>) -> Seq<char> {
    match anchor_place(whole, path) {
        Some(AnchorPlace::MapEntry(q)) => ast::comment::trailing_text(whole, q),
        Some(AnchorPlace::SeqEntry(q)) => ast::comment::trailing_text(whole, q),
        _ => seq![],
    }
}

/// Whether the tree is no longer than a tree can be once the leading comment of
/// the cursor at `path` is set to `text`.
pub open spec fn leading_fits(whole: Tree, path: Seq<usize>, text: Option<Seq<char>>) -> bool {
    match anchor_place(whole, path) {
        Some(p) => path::tree_len(
            ast::comment::with_leading(whole, leading_place(whole, p), text),
        ) <= MAX_LEN,
        None => true,
    }
}

/// Whether the tree is no longer than a tree can be once the trailing comment of
/// the cursor at `path` is set to `text`.
pub open spec fn trailing_fits(whole: Tree, path: Seq<usize>, text: Option<Seq<char>>) -> bool {
    match anchor_place(whole, path) {
        Some(AnchorPlace::MapEntry(q)) => path::tree_len(
            ast::comment::with_trailing(whole, q, text),
        ) <= MAX_LEN,
        Some(AnchorPlace::SeqEntry(q)) => path::tree_len(
            ast::comment::with_trailing(whole, q, text),
        ) <= MAX_LEN,
        _ => true,
    }
}

/// An empty text.
fn empty() -> (r: String)
    ensures
        r@ == Seq::<char>::empty(),
{
    let r = String::new();
    assert(r@ =~= Seq::<char>::empty());
    r
}

/// The leading comment of a cursor's node.
pub fn read_leading(n: &SyntaxNode) -> (r: String)
    requires
        n.wf(),
    ensures
        r@ == cursor_comment(n.whole(), n.path@),
{
    match Anchor::find(n) {
        Some(Anchor::MapEntry(e)) => e.leading_comment(),
        Some(Anchor::SeqEntry(e)) => e.leading_comment(),
        Some(Anchor::Doc(d)) => d.leading_comment(),
        None => empty(),
    }
}

/// Sets the leading comment of a cursor's node. In a flow collection there is no
/// room for it.
pub fn write_leading(tree: &mut SyntaxTree, n: &SyntaxNode, text: &str) -> (r: Result<(), String>)
    requires
        old(tree).wf(),
        n.wf(),
        n.whole() == old(tree)@,
        leading_fits(old(tree)@, n.path@, Some(text@)),
    ensures
        match anchor_place(old(tree)@, n.path@) {
            Some(AnchorPlace::Doc(q)) => final(tree).wf() && r is Ok && final(tree)@
                == ast::comment::with_leading(
                old(tree)@,
                entries::document_anchor(old(tree)@, q),
                Some(text@),
            ),
            Some(p) => ast::comment::leading_written(
                r,
                *old(tree),
                *final(tree),
                leading_place(old(tree)@, p),
                Some(text@),
            ),
            None => final(tree).wf() && final(tree)@ == old(tree)@ && r is Err && r->Err_0@
                == "cannot attach a comment inside a flow-style mapping or sequence; convert to block form first"@,
        },
{
    match Anchor::find(n) {
        Some(Anchor::MapEntry(e)) => e.set_leading_comment(tree, Some(text)),
        Some(Anchor::SeqEntry(e)) => e.set_leading_comment(tree, Some(text)),
        Some(Anchor::Doc(d)) => {
            d.set_leading_comment(tree, Some(text));
            Ok(())
        },
        None => Err(
            string_of(
                &chars_of(
                    "cannot attach a comment inside a flow-style mapping or sequence; convert to block form first",
                ),
            ),
        ),
    }
}

/// Takes the leading comment of a cursor's node away.
pub fn clear_leading(tree: &mut SyntaxTree, n: &SyntaxNode)
    requires
        old(tree).wf(),
        n.wf(),
        n.whole() == old(tree)@,
        leading_fits(old(tree)@, n.path@, None),
    ensures
        final(tree).wf(),
        final(tree)@ == (match anchor_place(old(tree)@, n.path@) {
            Some(p) => ast::comment::with_leading(
                old(tree)@,
                leading_place(old(tree)@, p),
                None,
            ),
            None => old(tree)@,
        }),
{
    match Anchor::find(n) {
        Some(Anchor::MapEntry(e)) => {
            let _ = e.set_leading_comment(tree, None);
        },
        Some(Anchor::SeqEntry(e)) => {
            let _ = e.set_leading_comment(tree, None);
        },
        Some(Anchor::Doc(d)) => d.set_leading_comment(tree, None),
        None => {},
    }
}

/// The trailing comment of a cursor's node.
pub fn read_trailing(n: &SyntaxNode) -> (r: String)
    requires
        n.wf(),
    ensures
        r@ == cursor_trailing(n.whole(), n.path@),
{
    match Anchor::find(n) {
        Some(Anchor::MapEntry(e)) => e.trailing_comment(),
        Some(Anchor::SeqEntry(e)) => e.trailing_comment(),
        _ => empty(),
    }
}

/// Sets the trailing comment of a cursor's node.
pub fn write_trailing(tree: &mut SyntaxTree, n: &SyntaxNode, text: &str) -> (r: Result<(), String>)
    requires
        old(tree).wf(),
        n.wf(),
        n.whole() == old(tree)@,
        trailing_fits(old(tree)@, n.path@, Some(text@)),
    ensures
        match anchor_place(old(tree)@, n.path@) {
            Some(AnchorPlace::MapEntry(q)) => ast::comment::trailing_written(
                r,
                *old(tree),
                *final(tree),
                q,
                text@,
            ),
            Some(AnchorPlace::SeqEntry(q)) => ast::comment::trailing_written(
                r,
                *old(tree),
                *final(tree),
                q,
                text@,
            ),
            Some(AnchorPlace::Doc(_)) => final(tree).wf() && final(tree)@ == old(tree)@ && r is Err
                && r->Err_0@ == "documents cannot carry a same-line trailing comment"@,
            None => final(tree).wf() && final(tree)@ == old(tree)@ && r is Err && r->Err_0@
                == "cannot attach a trailing comment inside a flow-style mapping or sequence"@,
        },
{
    match Anchor::find(n) {
        Some(Anchor::MapEntry(e)) => e.set_trailing_comment(tree, text),
        Some(Anchor::SeqEntry(e)) => e.set_trailing_comment(tree, text),
        Some(Anchor::Doc(_)) => Err(
            string_of(&chars_of("documents cannot carry a same-line trailing comment")),
        ),
        None => Err(
            string_of(
                &chars_of(
                    "cannot attach a trailing comment inside a flow-style mapping or sequence",
                ),
            ),
        ),
    }
}

/// Takes the trailing comment of a cursor's node away.
pub fn clear_trailing(tree: &mut SyntaxTree, n: &SyntaxNode)
    requires
        old(tree).wf(),
        n.wf(),
        n.whole() == old(tree)@,
        trailing_fits(old(tree)@, n.path@, None),
    ensures
        final(tree).wf(),
        final(tree)@ == (match anchor_place(old(tree)@, n.path@) {
            Some(AnchorPlace::MapEntry(q)) => ast::comment::with_trailing(old(tree)@, q, None),
            Some(AnchorPlace::SeqEntry(q)) => ast::comment::with_trailing(old(tree)@, q, None),
            _ => old(tree)@,
        }),
{
    match Anchor::find(n) {
        Some(Anchor::MapEntry(e)) => e.clear_trailing_comment(tree),
        Some(Anchor::SeqEntry(e)) => e.clear_trailing_comment(tree),
        _ => {},
    }
}

} // verus!
