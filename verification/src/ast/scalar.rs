//! Scalars.

use vstd::prelude::*;
use vstd::string::*;
use vstd::utf8::*;

use crate::ast::decode;
use crate::ast::decode::{
    decode_block, decode_double_quoted, decode_plain, decode_single_quoted, keeps_line_breaks,
    BlockStyle, DecodeError, DecodeFault,
};
use crate::ast::nodes;
use crate::ast::nodes::{preceding_properties, AstNode, NodeProperties};
use crate::ast::value;
use crate::ast::value::{infer_plain, Value, ValueModel};
use crate::fixers::trim;
use crate::fixers::trim::first_token_kind;
use crate::syntax::green::Tree;
use crate::syntax::kind::SyntaxKind;
use crate::syntax::node;
use crate::syntax::node::{SyntaxElement, SyntaxNode, SyntaxToken};
use crate::syntax::path;
use crate::text::{chars_of, string_of};

verus! {

/// A scalar, or the stand-in for an implicit null.
pub struct Scalar(pub SyntaxNode);

impl AstNode for Scalar {
    open spec fn accepts(t: Tree) -> bool {
        t.kind() == SyntaxKind::SCALAR.code() || t.kind() == SyntaxKind::NULL_SCALAR.code()
    }

    open spec fn node(&self) -> SyntaxNode {
        self.0
    }

    open spec fn fits(&self) -> bool {
        Self::accepts(self.0.tree())
    }

    fn cast(n: SyntaxNode) -> (r: Option<Self>) {
        if n.is(SyntaxKind::SCALAR) || n.is(SyntaxKind::NULL_SCALAR) {
            Some(Scalar(n))
        } else {
            None
        }
    }

    fn syntax(&self) -> (r: &SyntaxNode) {
        &self.0
    }
}

/// How a scalar is written.
#[derive(Debug, Clone, Copy, PartialEq, Eq, Structural)]
pub enum ScalarStyle {
    Plain,
    SingleQuoted,
    DoubleQuoted,
    Literal,
    Folded,
}

/// The style of a value token, by its kind.
pub open spec fn token_style(t: Tree) -> Option<ScalarStyle> {
    if t.is_token_of(SyntaxKind::PLAIN_SCALAR) {
        Some(ScalarStyle::Plain)
    } else if t.is_token_of(SyntaxKind::SINGLE_QUOTED_SCALAR) {
        Some(ScalarStyle::SingleQuoted)
    } else if t.is_token_of(SyntaxKind::DOUBLE_QUOTED_SCALAR) {
        Some(ScalarStyle::DoubleQuoted)
    } else if t.is_token_of(SyntaxKind::LITERAL_SCALAR) {
        Some(ScalarStyle::Literal)
    } else if t.is_token_of(SyntaxKind::FOLDED_SCALAR) {
        Some(ScalarStyle::Folded)
    } else {
        None
    }
}

/// The tokens that hold the value of a scalar.
pub open spec fn value_tokens() -> spec_fn(Tree) -> bool {
    |t: Tree| token_style(t) is Some
}

/// The token that holds the value of a scalar with the children `cs`.
pub open spec fn value_token_of(cs: Seq<Tree>) -> Option<Tree> {
    match node::place_from(cs, 0, value_tokens()) {
        Some(i) => Some(cs[i]),
        None => None,
    }
}

/// What a value token stands for.
pub open spec fn token_value(t: Tree) -> Result<Seq<char>, DecodeFault> {
    match token_style(t) {
        Some(ScalarStyle::Plain) => Ok(decode::folded_text(t.text())),
        Some(ScalarStyle::SingleQuoted) => decode::single_quoted_value(t.text()),
        Some(ScalarStyle::DoubleQuoted) => decode::double_quoted_value(encode_utf8(t.text())),
        Some(ScalarStyle::Literal) => decode::block_value(t.text(), BlockStyle::Literal),
        Some(ScalarStyle::Folded) => decode::block_value(t.text(), BlockStyle::Folded),
        None => Err(DecodeFault::Empty),
    }
}

/// The string that a scalar with the children `cs` stands for.
pub open spec fn scalar_text(cs: Seq<Tree>) -> Result<Seq<char>, DecodeFault> {
    match value_token_of(cs) {
        Some(t) => token_value(t),
        None => Err(DecodeFault::Empty),
    }
}

// ---- The line break behind a scalar ----

/// Whether a tree begins with a line break.
pub open spec fn begins_broken(t: Tree) -> bool {
    trim::first_kind(t) == Some(SyntaxKind::NEWLINE.code())
}

/// Whether a line break stands right behind the child at `i`; `broken` says whether
/// one does behind the node.
pub open spec fn broken_after(cs: Seq<Tree>, i: int, broken: bool) -> bool {
    if i + 1 < cs.len() {
        begins_broken(cs[i + 1])
    } else {
        broken
    }
}

/// Whether a line break stands right behind the tree at `path`.
pub open spec fn break_behind(whole: Tree, path: Seq<usize>) -> bool
    decreases path.len(),
{
    if path.len() == 0 {
        false
    } else {
        let up = path.drop_last();
        broken_after(
            path::tree_at(whole, up)->0.children(),
            path.last() as int,
            break_behind(whole, up),
        )
    }
}

/// Whether a line break stands right behind what is two levels down.
pub proof fn lemma_break_behind(whole: Tree, path: Seq<usize>, i: usize, k: usize)
    requires
        path::tree_at(whole, path) is Some,
        i < path::tree_at(whole, path)->0.children().len(),
    ensures
        ({
            let cs = path::tree_at(whole, path)->0.children();
            &&& break_behind(whole, path.push(i)) == broken_after(
                cs,
                i as int,
                break_behind(whole, path),
            )
            &&& break_behind(whole, path.push(i).push(k)) == broken_after(
                cs[i as int].children(),
                k as int,
                broken_after(cs, i as int, break_behind(whole, path)),
            )
        }),
{
    assert(path.push(i).drop_last() =~= path);
    assert(path.push(i).push(k).drop_last() =~= path.push(i));
}

/// A value token with all that it stands for: the last line break of a block scalar
/// that keeps its line breaks stands behind its token, where anything follows.
pub open spec fn token_in(t: Tree, broken: bool) -> Tree {
    if broken && (t.is_token_of(SyntaxKind::LITERAL_SCALAR) || t.is_token_of(
        SyntaxKind::FOLDED_SCALAR,
    )) && decode::keeps_breaks(t.text()) {
        Tree::Token { kind: t.kind(), text: t.text().push('\n') }
    } else {
        t
    }
}

/// The string that a scalar with the children `cs` stands for; `broken` says whether
/// a line break stands right behind it.
pub open spec fn scalar_text_in(cs: Seq<Tree>, broken: bool) -> Result<Seq<char>, DecodeFault> {
    match value_token_of(cs) {
        Some(t) => token_value(token_in(t, broken)),
        None => Err(DecodeFault::Empty),
    }
}

/// The value of a scalar; `broken` says whether a line break stands right behind it.
/// A type is inferred for plain scalars alone.
pub open spec fn scalar_value_in(t: Tree, broken: bool) -> Result<ValueModel, DecodeFault> {
    if t.kind() == SyntaxKind::NULL_SCALAR.code() {
        Ok(ValueModel::Null)
    } else {
        match scalar_text_in(t.children(), broken) {
            Ok(s) => if token_style(value_token_of(t.children())->0) == Some(ScalarStyle::Plain) {
                Ok(value::inferred(s))
            } else {
                Ok(ValueModel::Text(s))
            },
            Err(e) => Err(e),
        }
    }
}

/// Whether a line break stands right behind a node.
fn has_break_behind(n: &SyntaxNode) -> (r: bool)
    requires
        n.wf(),
    ensures
        r == break_behind(n.whole(), n.path@),
    decreases n.path@.len(),
{
    match n.parent() {
        None => false,
        Some(p) => {
            let i = n.index();
            let len = p.len();
            if i < len && i + 1 < len {
                match p.child_or_token(i + 1) {
                    SyntaxElement::Node(c) => match first_token_kind(&c.green) {
                        Some(k) => k == SyntaxKind::NEWLINE.raw(),
                        None => false,
                    },
                    SyntaxElement::Token(t) => t.is(SyntaxKind::NEWLINE),
                }
            } else {
                has_break_behind(&p)
            }
        },
    }
}

/// The value of a scalar by its token alone.
pub open spec fn scalar_value(t: Tree) -> Result<ValueModel, DecodeFault> {
    if t.kind() == SyntaxKind::NULL_SCALAR.code() {
        Ok(ValueModel::Null)
    } else {
        match scalar_text(t.children()) {
            Ok(s) => if token_style(value_token_of(t.children())->0) == Some(ScalarStyle::Plain) {
                Ok(value::inferred(s))
            } else {
                Ok(ValueModel::Text(s))
            },
            Err(e) => Err(e),
        }
    }
}

impl SyntaxToken {
    /// The style of a value token.
    pub fn scalar_style(&self) -> (r: Option<ScalarStyle>)
        ensures
            r == token_style(self.tree()),
    {
        if self.is(SyntaxKind::PLAIN_SCALAR) {
            Some(ScalarStyle::Plain)
        } else if self.is(SyntaxKind::SINGLE_QUOTED_SCALAR) {
            Some(ScalarStyle::SingleQuoted)
        } else if self.is(SyntaxKind::DOUBLE_QUOTED_SCALAR) {
            Some(ScalarStyle::DoubleQuoted)
        } else if self.is(SyntaxKind::LITERAL_SCALAR) {
            Some(ScalarStyle::Literal)
        } else if self.is(SyntaxKind::FOLDED_SCALAR) {
            Some(ScalarStyle::Folded)
        } else {
            None
        }
    }
}

impl Scalar {
    /// Whether this is the stand-in for an implicit null.
    pub fn is_null(&self) -> (r: bool)
        ensures
            r == (self.0.tree().kind() == SyntaxKind::NULL_SCALAR.code()),
    {
        self.0.is(SyntaxKind::NULL_SCALAR)
    }

    /// The token that holds the value.
    pub fn value_token(&self) -> (r: Option<SyntaxToken>)
        requires
            self.0.wf(),
        ensures
            match node::place_from(self.0.parts(), 0, value_tokens()) {
                Some(i) => r is Some && r->0.is_child_of(self.0, i) && value_tokens()(
                    r->0.tree(),
                ),
                None => r is None,
            },
    {
        let len = self.0.len();
        let mut i: usize = 0;
        while i < len
            invariant
                self.0.wf(),
                i <= len,
                len == self.0.parts().len(),
                node::place_from(self.0.parts(), i as int, value_tokens()) == node::place_from(
                    self.0.parts(),
                    0,
                    value_tokens(),
                ),
            decreases len - i,
        {
            if let SyntaxElement::Token(t) = self.0.child_or_token(i) {
                if t.scalar_style().is_some() {
                    return Some(t);
                }
            }
            i = i + 1;
        }
        None
    }

    /// How the scalar is written.
    pub fn style(&self) -> (r: Option<ScalarStyle>)
        requires
            self.0.wf(),
        ensures
            r == (match value_token_of(self.0.parts()) {
                Some(t) => token_style(t),
                None => None,
            }),
    {
        match self.value_token() {
            Some(t) => t.scalar_style(),
            None => None,
        }
    }

    /// The scalar as it is written.
    pub fn raw_text(&self) -> (r: Option<String>)
        requires
            self.0.wf(),
        ensures
            match value_token_of(self.0.parts()) {
                Some(t) => r is Some && r->0@ == t.text(),
                None => r is None,
            },
    {
        match self.value_token() {
            Some(t) => Some(string_of(&chars_of(t.text()))),
            None => None,
        }
    }

    /// The properties that stand before the scalar.
    pub fn properties(&self) -> (r: Option<NodeProperties>)
        requires
            self.0.wf(),
        ensures
            nodes::properties_are(r, self.0),
    {
        preceding_properties(&self.0)
    }

    /// The string that the scalar stands for. A block scalar that keeps its line
    /// breaks keeps the one behind its token too.
    pub fn decoded(&self) -> (r: Result<String, DecodeError>)
        requires
            self.0.wf(),
        ensures
            decode::decodes_to(
                r,
                scalar_text_in(self.0.parts(), break_behind(self.0.whole(), self.0.path@)),
            ),
    {
        if let Some(token) = self.value_token() {
            let block = token.is(SyntaxKind::LITERAL_SCALAR) || token.is(
                SyntaxKind::FOLDED_SCALAR,
            );
            if block && keeps_line_breaks(token.text()) && has_break_behind(&self.0) {
                let mut raw = string_of(&chars_of(token.text()));
                raw.push('\n');
                let style = if token.is(SyntaxKind::LITERAL_SCALAR) {
                    BlockStyle::Literal
                } else {
                    BlockStyle::Folded
                };
                return decode_block(raw.as_str(), style);
            }
        }
        self.decoded_token()
    }

    /// The string that the token of the scalar stands for.
    pub fn decoded_token(&self) -> (r: Result<String, DecodeError>)
        requires
            self.0.wf(),
        ensures
            decode::decodes_to(r, scalar_text(self.0.parts())),
    {
        let token = match self.value_token() {
            Some(t) => t,
            None => {
                return Err(DecodeError::Empty);
            },
        };
        match token.scalar_style() {
            Some(ScalarStyle::Plain) => Ok(decode_plain(token.text())),
            Some(ScalarStyle::SingleQuoted) => decode_single_quoted(token.text()),
            Some(ScalarStyle::DoubleQuoted) => decode_double_quoted(token.text()),
            Some(ScalarStyle::Literal) => decode_block(token.text(), BlockStyle::Literal),
            Some(ScalarStyle::Folded) => decode_block(token.text(), BlockStyle::Folded),
            None => Err(DecodeError::Empty),
        }
    }

    /// The value of the scalar by the YAML 1.2 Core schema. Quoted and block
    /// scalars are always strings.
    pub fn to_value(&self) -> (r: Result<Value, DecodeError>)
        requires
            self.0.wf(),
        ensures
            match (
                r,
                scalar_value_in(self.0.tree(), break_behind(self.0.whole(), self.0.path@)),
            ) {
                (Ok(v), Ok(m)) => v@ == m,
                (Err(e), Err(f)) => e@ == f,
                _ => false,
            },
    {
        if self.is_null() {
            return Ok(Value::Null);
        }
        let style = match self.style() {
            Some(s) => s,
            None => {
                return Err(DecodeError::Empty);
            },
        };
        let decoded = match self.decoded() {
            Ok(s) => s,
            Err(e) => {
                return Err(e);
            },
        };
        match style {
            ScalarStyle::Plain => Ok(infer_plain(decoded.as_str())),
            _ => Ok(Value::String(decoded)),
        }
    }
}

} // verus!
