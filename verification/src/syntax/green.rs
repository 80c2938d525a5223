//! Green trees: what the immutable nodes and tokens of `rowan` hold, and what
//! its tree builder does.

use vstd::prelude::*;
use vstd::string::*;
use vstd::utf8::*;

use crate::syntax::kind::SyntaxKind;
use crate::text;

verus! {

// ---- The model ----

/// What a green node or token holds.
#[verifier::ext_equal]
pub enum Tree {
    Token { kind: u16, text: Seq<char> },
    Node { kind: u16, children: Seq<Tree> },
}

impl Tree {
    /// The number of the kind.
    pub open spec fn kind(self) -> u16 {
        match self {
            Tree::Token { kind, .. } => kind,
            Tree::Node { kind, .. } => kind,
        }
    }

    /// The children; a token has none.
    pub open spec fn children(self) -> Seq<Tree> {
        match self {
            Tree::Token { .. } => seq![],
            Tree::Node { children, .. } => children,
        }
    }

    /// Whether this is a node of kind `k`.
    pub open spec fn is_node_of(self, k: SyntaxKind) -> bool {
        self is Node && self.kind() == k.code()
    }

    /// Whether this is a token of kind `k`.
    pub open spec fn is_token_of(self, k: SyntaxKind) -> bool {
        self is Token && self.kind() == k.code()
    }

    /// Whether this is a token of whitespace, a line break or a comment.
    pub open spec fn is_trivia(self) -> bool {
        self.is_token_of(SyntaxKind::WHITESPACE) || self.is_token_of(SyntaxKind::NEWLINE)
            || self.is_token_of(SyntaxKind::COMMENT)
    }

    /// The text that the tree stands for: that of its tokens, in order.
    pub open spec fn text(self) -> Seq<char>
        decreases self,
    {
        match self {
            Tree::Token { text, .. } => text,
            Tree::Node { children, .. } => trees_text(children),
        }
    }
}

/// The text of trees in a row.
pub open spec fn trees_text(ts: Seq<Tree>) -> Seq<char>
    decreases ts,
{
    if ts.len() == 0 {
        seq![]
    } else {
        trees_text(ts.drop_last()) + ts.last().text()
    }
}

/// The length of the text of trees in a row, in bytes.
pub open spec fn trees_len(ts: Seq<Tree>) -> nat {
    encode_utf8(trees_text(ts)).len()
}

/// The longest text that a tree of `rowan` can hold, in bytes.
pub const MAX_LEN: usize = 0xffff_ffff;

/// Trees in two rows have the text of the first row, then that of the second.
pub proof fn lemma_trees_text_add(a: Seq<Tree>, b: Seq<Tree>)
    ensures
        trees_text(a + b) == trees_text(a) + trees_text(b),
    decreases b.len(),
{
    if b.len() == 0 {
        assert(a + b =~= a);
        assert(trees_text(a) + trees_text(b) =~= trees_text(a));
    } else {
        lemma_trees_text_add(a, b.drop_last());
        assert((a + b).drop_last() =~= a + b.drop_last());
        assert((a + b).last() == b.last());
        assert(trees_text(a + b) =~= trees_text(a) + trees_text(b));
    }
}

/// The text of one tree in a row is its own.
pub proof fn lemma_trees_text_one(t: Tree)
    ensures
        trees_text(seq![t]) == t.text(),
{
    assert(seq![t].drop_last() =~= seq![]);
    assert(trees_text(seq![]) =~= Seq::<char>::empty());
    assert(seq![t].last() == t);
    assert(trees_text(seq![t]) =~= t.text());
}

/// One more tree in a row adds its text.
pub proof fn lemma_trees_text_push(ts: Seq<Tree>, i: int)
    requires
        0 <= i < ts.len(),
    ensures
        trees_text(ts.take(i + 1)) == trees_text(ts.take(i)) + ts[i].text(),
{
    assert(ts.take(i + 1).drop_last() =~= ts.take(i));
    assert(ts.take(i + 1).last() == ts[i]);
}

/// The text of a part of a row is no longer than that of the row.
pub proof fn lemma_trees_len_part(ts: Seq<Tree>, a: int, b: int)
    requires
        0 <= a <= b <= ts.len(),
    ensures
        trees_len(ts.subrange(a, b)) <= trees_len(ts),
{
    let x = ts.subrange(0, a);
    let y = ts.subrange(a, b);
    let z = ts.subrange(b, ts.len() as int);
    assert(ts =~= x + y + z);
    lemma_trees_text_add(x + y, z);
    lemma_trees_text_add(x, y);
    text::lemma_encode_add(trees_text(x + y), trees_text(z));
    text::lemma_encode_add(trees_text(x), trees_text(y));
}

// ---- Green nodes and tokens ----

#[verifier::external_type_specification]
#[verifier::external_body]
pub struct ExGreenNode(rowan::GreenNode);

#[verifier::external_type_specification]
#[verifier::external_body]
pub struct ExGreenToken(rowan::GreenToken);

/// The number of a green node's kind.
pub uninterp spec fn node_kind_of(n: rowan::GreenNode) -> u16;

/// The children of a green node.
pub uninterp spec fn node_children_of(n: rowan::GreenNode) -> Seq<Tree>;

/// The number of a green token's kind.
pub uninterp spec fn token_kind_of(t: rowan::GreenToken) -> u16;

/// The text of a green token.
pub uninterp spec fn token_text_of(t: rowan::GreenToken) -> Seq<char>;

/// The tree of a green node.
pub open spec fn node_tree(n: rowan::GreenNode) -> Tree {
    Tree::Node { kind: node_kind_of(n), children: node_children_of(n) }
}

/// The tree of a green token.
pub open spec fn token_tree(t: rowan::GreenToken) -> Tree {
    Tree::Token { kind: token_kind_of(t), text: token_text_of(t) }
}

/// A green node or token.
pub enum GreenElement {
    Node(rowan::GreenNode),
    Token(rowan::GreenToken),
}

impl View for GreenElement {
    type V = Tree;

    open spec fn view(&self) -> Tree {
        match self {
            GreenElement::Node(n) => node_tree(*n),
            GreenElement::Token(t) => token_tree(*t),
        }
    }
}

/// The trees of green elements in a row.
pub open spec fn element_trees(v: Seq<GreenElement>) -> Seq<Tree> {
    Seq::new(v.len(), |i: int| v[i]@)
}

/// `GreenNodeData::kind`: the number of the node's kind.
#[verifier::external_body]
pub(crate) fn node_kind(n: &rowan::GreenNode) -> (r: u16)
    ensures
        r == node_kind_of(*n),
{
    n.kind().0
}

/// `GreenNodeData::children`, its length: how many children the node has.
#[verifier::external_body]
pub(crate) fn node_len(n: &rowan::GreenNode) -> (r: usize)
    ensures
        r == node_children_of(*n).len(),
{
    n.children().len()
}

/// `GreenNodeData::children`, the item at `i`: that child of the node.
#[verifier::external_body]
pub(crate) fn node_child(n: &rowan::GreenNode, i: usize) -> (r: GreenElement)
    requires
        i < node_children_of(*n).len(),
    ensures
        r@ == node_children_of(*n)[i as int],
{
    match n.children().nth(i).unwrap() {
        rowan::NodeOrToken::Node(c) => GreenElement::Node(c.to_owned()),
        rowan::NodeOrToken::Token(c) => GreenElement::Token(c.to_owned()),
    }
}

/// `GreenNode::new`: the node has this kind and these children. The lengths of
/// their texts are added up in 32 bits.
#[verifier::external_body]
pub(crate) fn node_new(kind: u16, children: Vec<GreenElement>) -> (r: rowan::GreenNode)
    requires
        trees_len(element_trees(children@)) <= MAX_LEN,
    ensures
        node_kind_of(r) == kind,
        node_children_of(r) == element_trees(children@),
{
    rowan::GreenNode::new(
        rowan::SyntaxKind(kind),
        children.into_iter().map(
            |c|
                match c {
                    GreenElement::Node(n) => rowan::NodeOrToken::Node(n),
                    GreenElement::Token(t) => rowan::NodeOrToken::Token(t),
                },
        ),
    )
}

/// `GreenNode::clone`: the copy holds the same.
#[verifier::external_body]
pub(crate) fn node_clone(n: &rowan::GreenNode) -> (r: rowan::GreenNode)
    ensures
        node_kind_of(r) == node_kind_of(*n),
        node_children_of(r) == node_children_of(*n),
{
    n.clone()
}

/// `GreenTokenData::kind`: the number of the token's kind.
#[verifier::external_body]
pub(crate) fn token_kind(t: &rowan::GreenToken) -> (r: u16)
    ensures
        r == token_kind_of(*t),
{
    t.kind().0
}

/// `GreenTokenData::text`: the token's text.
#[verifier::external_body]
pub(crate) fn token_text(t: &rowan::GreenToken) -> (r: &str)
    ensures
        r@ == token_text_of(*t),
{
    t.text()
}

/// `GreenToken::new`: the token has this kind and this text.
#[verifier::external_body]
pub(crate) fn token_new(kind: u16, text: &str) -> (r: rowan::GreenToken)
    ensures
        token_kind_of(r) == kind,
        token_text_of(r) == text@,
{
    rowan::GreenToken::new(rowan::SyntaxKind(kind), text)
}

/// `GreenToken::clone`: the copy holds the same.
#[verifier::external_body]
pub(crate) fn token_clone(t: &rowan::GreenToken) -> (r: rowan::GreenToken)
    ensures
        token_kind_of(r) == token_kind_of(*t),
        token_text_of(r) == token_text_of(*t),
{
    t.clone()
}

// ---- The builder ----

#[verifier::external_type_specification]
#[verifier::external_body]
pub struct ExGreenNodeBuilder<'cache>(rowan::GreenNodeBuilder<'cache>);

#[verifier::external_type_specification]
#[verifier::external_body]
pub struct ExCheckpoint(rowan::Checkpoint);

/// The nodes that a builder has open, outermost first: the number of each
/// one's kind, and where its children begin.
pub uninterp spec fn builder_parents(b: rowan::GreenNodeBuilder<'_>) -> Seq<(u16, nat)>;

/// The finished trees of a builder that no finished node holds.
pub uninterp spec fn builder_children(b: rowan::GreenNodeBuilder<'_>) -> Seq<Tree>;

/// How many finished trees there were at a checkpoint.
pub uninterp spec fn checkpoint_of(c: rowan::Checkpoint) -> nat;

/// `GreenNodeBuilder::new`: nothing is open and nothing finished.
#[verifier::external_body]
pub(crate) fn builder_new() -> (r: rowan::GreenNodeBuilder<'static>)
    ensures
        builder_parents(r) == Seq::<(u16, nat)>::empty(),
        builder_children(r) == Seq::<Tree>::empty(),
{
    rowan::GreenNodeBuilder::new()
}

/// `GreenNodeBuilder::token`: one more finished tree, the token.
#[verifier::external_body]
pub(crate) fn builder_token(b: &mut rowan::GreenNodeBuilder<'static>, kind: u16, text: &str)
    ensures
        builder_parents(*final(b)) == builder_parents(*old(b)),
        builder_children(*final(b)) == builder_children(*old(b)).push(
            (Tree::Token { kind, text: text@ }),
        ),
{
    b.token(rowan::SyntaxKind(kind), text)
}

/// `GreenNodeBuilder::start_node`: one more open node, whose children begin
/// here.
#[verifier::external_body]
pub(crate) fn builder_start(b: &mut rowan::GreenNodeBuilder<'static>, kind: u16)
    ensures
        builder_parents(*final(b)) == builder_parents(*old(b)).push(
            (kind, builder_children(*old(b)).len()),
        ),
        builder_children(*final(b)) == builder_children(*old(b)),
{
    b.start_node(rowan::SyntaxKind(kind))
}

/// `GreenNodeBuilder::checkpoint`: the checkpoint is here.
#[verifier::external_body]
pub(crate) fn builder_checkpoint(b: &rowan::GreenNodeBuilder<'static>) -> (r: rowan::Checkpoint)
    ensures
        checkpoint_of(r) == builder_children(*b).len(),
{
    b.checkpoint()
}

/// `GreenNodeBuilder::start_node_at`: one more open node, whose children begin
/// at the checkpoint. The checkpoint must not lie behind the finished trees nor
/// before the children of the innermost open node.
#[verifier::external_body]
pub(crate) fn builder_start_at(
    b: &mut rowan::GreenNodeBuilder<'static>,
    checkpoint: rowan::Checkpoint,
    kind: u16,
)
    requires
        checkpoint_of(checkpoint) <= builder_children(*old(b)).len(),
        builder_parents(*old(b)).len() > 0 ==> checkpoint_of(checkpoint) >= builder_parents(
            *old(b),
        ).last().1,
    ensures
        builder_parents(*final(b)) == builder_parents(*old(b)).push(
            (kind, checkpoint_of(checkpoint)),
        ),
        builder_children(*final(b)) == builder_children(*old(b)),
{
    b.start_node_at(checkpoint, rowan::SyntaxKind(kind))
}

/// `GreenNodeBuilder::finish_node`: the innermost open node is finished, with
/// the trees from where its children begin. The lengths of their texts are
/// added up in 32 bits.
#[verifier::external_body]
pub(crate) fn builder_finish_node(b: &mut rowan::GreenNodeBuilder<'static>)
    requires
        builder_parents(*old(b)).len() > 0,
        builder_parents(*old(b)).last().1 <= builder_children(*old(b)).len(),
        trees_len(
            builder_children(*old(b)).skip(builder_parents(*old(b)).last().1 as int),
        ) <= MAX_LEN,
    ensures
        builder_parents(*final(b)) == builder_parents(*old(b)).drop_last(),
        builder_children(*final(b)) == builder_children(*old(b)).take(
            builder_parents(*old(b)).last().1 as int,
        ).push(
            (Tree::Node {
                kind: builder_parents(*old(b)).last().0,
                children: builder_children(*old(b)).skip(
                    builder_parents(*old(b)).last().1 as int,
                ),
            }),
        ),
{
    b.finish_node()
}

/// `GreenNodeBuilder::finish`: the one finished tree, which must be a node.
#[verifier::external_body]
pub(crate) fn builder_finish(b: rowan::GreenNodeBuilder<'static>) -> (r: rowan::GreenNode)
    requires
        builder_children(b).len() == 1,
        builder_children(b)[0] is Node,
    ensures
        node_kind_of(r) == builder_children(b)[0].kind(),
        node_children_of(r) == builder_children(b)[0].children(),
{
    b.finish()
}

// ---- Reading a green tree ----

/// Appends the text of the node's tokens.
pub(crate) fn emit_node(n: &rowan::GreenNode, out: &mut String)
    ensures
        final(out)@ == old(out)@ + node_tree(*n).text(),
    decreases node_tree(*n),
{
    let len = node_len(n);
    let ghost cs = node_children_of(*n);
    let mut i: usize = 0;
    assert(cs.take(0) =~= seq![]);
    assert(out@ =~= old(out)@ + trees_text(cs.take(0)));
    while i < len
        invariant
            i <= len,
            len == cs.len(),
            cs == node_children_of(*n),
            out@ == old(out)@ + trees_text(cs.take(i as int)),
        decreases len - i,
    {
        let ghost before = out@;
        let child = node_child(n, i);
        let ghost tree = node_tree(*n);
        assert(tree->Node_children == cs);
        assert(decreases_to!(tree => tree->Node_children));
        assert(decreases_to!(cs => cs[i as int]));
        match child {
            GreenElement::Node(c) => {
                assert(cs[i as int] == node_tree(c));
                emit_node(&c, out);
            },
            GreenElement::Token(t) => {
                assert(cs[i as int] == token_tree(t));
                out.push_str(token_text(&t));
            },
        }
        assert(out@ == before + cs[i as int].text());
        proof {
            lemma_trees_text_push(cs, i as int);
        }
        assert(out@ =~= old(out)@ + trees_text(cs.take(i + 1)));
        i = i + 1;
    }
    assert(cs.take(len as int) =~= cs);
}

// ---- Room ----

/// The text of more trees is longer by theirs.
proof fn lemma_len_push(ts: Seq<Tree>, i: int)
    requires
        0 <= i < ts.len(),
    ensures
        trees_len(ts.take(i + 1)) == trees_len(ts.take(i)) + encode_utf8(ts[i].text()).len(),
        trees_len(ts.take(i + 1)) <= trees_len(ts),
{
    lemma_trees_text_push(ts, i);
    text::lemma_encode_add(trees_text(ts.take(i)), ts[i].text());
    lemma_trees_len_part(ts, 0, i + 1);
    assert(ts.subrange(0, i + 1) =~= ts.take(i + 1));
}

/// What is left of `room` bytes behind the text of a node; nothing where it does
/// not fit.
fn room_behind(n: &rowan::GreenNode, room: usize) -> (r: Option<usize>)
    ensures
        match r {
            Some(x) => x + encode_utf8(node_tree(*n).text()).len() == room,
            None => encode_utf8(node_tree(*n).text()).len() > room,
        },
    decreases node_tree(*n),
{
    let ghost tree = node_tree(*n);
    let ghost cs = node_children_of(*n);
    let len = node_len(n);
    let mut left = room;
    let mut i: usize = 0;
    assert(cs.take(0) =~= seq![]);
    assert(trees_len(cs.take(0)) == 0);
    while i < len
        invariant
            tree == node_tree(*n),
            cs == node_children_of(*n),
            len == cs.len(),
            i <= len,
            left + trees_len(cs.take(i as int)) == room,
        decreases len - i,
    {
        proof {
            lemma_len_push(cs, i as int);
            assert(tree->Node_children == cs);
            assert(decreases_to!(tree => tree->Node_children));
            assert(decreases_to!(cs => cs[i as int]));
        }
        match node_child(n, i) {
            GreenElement::Node(c) => match room_behind(&c, left) {
                Some(x) => {
                    left = x;
                },
                None => {
                    return None;
                },
            },
            GreenElement::Token(t) => {
                let k = token_text(&t).as_bytes().len();
                if k > left {
                    return None;
                }
                left = left - k;
            },
        }
        i = i + 1;
    }
    assert(cs.take(len as int) =~= cs);
    Some(left)
}

/// Whether the text of elements in a row is no longer than that of a node can be.
pub(crate) fn row_fits(v: &Vec<GreenElement>) -> (r: bool)
    ensures
        r == (trees_len(element_trees(v@)) <= MAX_LEN),
{
    let ghost ts = element_trees(v@);
    let mut left: usize = MAX_LEN;
    let mut i: usize = 0;
    assert(ts.take(0) =~= seq![]);
    assert(trees_len(ts.take(0)) == 0);
    while i < v.len()
        invariant
            ts == element_trees(v@),
            i <= v@.len(),
            left + trees_len(ts.take(i as int)) == MAX_LEN,
        decreases v@.len() - i,
    {
        proof {
            lemma_len_push(ts, i as int);
        }
        match &v[i] {
            GreenElement::Node(c) => match room_behind(c, left) {
                Some(x) => {
                    left = x;
                },
                None => {
                    return false;
                },
            },
            GreenElement::Token(t) => {
                let k = token_text(t).as_bytes().len();
                if k > left {
                    return false;
                }
                left = left - k;
            },
        }
        i = i + 1;
    }
    assert(ts.take(v@.len() as int) =~= ts);
    true
}

} // verus!
