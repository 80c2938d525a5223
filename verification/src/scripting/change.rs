//! What scripts change: scalars, keys and whole streams.

use vstd::prelude::*;
use vstd::string::*;

use crate::ast::comment;
use crate::ast::entries;
use crate::ast::nodes::Stream;
use crate::ast::scalar;
use crate::ast::scalar::Scalar;
use crate::edit::make::{mk_node, mk_token};
use crate::edit::{apply_edit, TreeEdit};
use crate::fixers;
use crate::fixers::indent;
use crate::fixers::indent::try_reindent;
use crate::fixers::scalars;
use crate::fixers::scalars::{fix_token, try_rule, ScalarRule};
use crate::fixers::trim;
use crate::fixers::trim::try_trim_trailing_whitespace;
use crate::lexer;
use crate::lexer::as_single_quoted;
use crate::scripting::cursor;
use crate::scripting::cursor::{MappingCursor, ScalarCursor, StreamCursor};
use crate::scripting::quote;
use crate::scripting::quote::{yaml_quote_if_needed, yaml_scalar_text, Written};
use crate::syntax::green;
use crate::syntax::green::{GreenElement, Tree, MAX_LEN};
use crate::syntax::kind;
use crate::syntax::kind::SyntaxKind;
use crate::syntax::node;
use crate::syntax::node::{SyntaxNode, SyntaxToken};
use crate::syntax::path;
use crate::syntax::tree::SyntaxTree;
use crate::text::{chars_of, string_of};

verus! {

/// The token that holds a text: quoted where the text stands in quotes.
pub open spec fn token_for(s: Seq<char>) -> Tree {
    Tree::Token {
        kind: if s.len() > 0 && s[0] == '\'' && s.last() == '\'' {
            SyntaxKind::SINGLE_QUOTED_SCALAR.code()
        } else {
            SyntaxKind::PLAIN_SCALAR.code()
        },
        text: s,
    }
}

/// A scalar that holds one token.
pub open spec fn scalar_of(t: Tree) -> Tree {
    Tree::Node { kind: SyntaxKind::SCALAR.code(), children: seq![t] }
}

/// The place of the token that holds the value of a scalar.
pub open spec fn value_place(t: Tree) -> Option<int> {
    node::place_from(t.children(), 0, scalar::value_tokens())
}

/// The scalar `t` with the text `s`: its token is swapped where the kind stays,
/// else the scalar is made anew.
pub open spec fn rewritten(t: Tree, s: Seq<char>) -> Tree {
    let i = value_place(t)->0;
    if t.children()[i].kind() == token_for(s).kind() {
        path::with_children(t, path::spliced(t.children(), i, i + 1, seq![token_for(s)]))
    } else {
        scalar_of(token_for(s))
    }
}

/// The tree with the scalar at `path` rewritten.
pub open spec fn with_text(whole: Tree, path: Seq<usize>, s: Seq<char>) -> Tree {
    path::replaced(whole, path, rewritten(path::tree_at(whole, path)->0, s))
}

/// Replaces a node by a scalar that holds one token.
fn put_scalar(tree: &mut SyntaxTree, n: &SyntaxNode, token: rowan::GreenToken)
    requires
        old(tree).wf(),
        n.wf(),
        n.whole() == old(tree)@,
        n.tree().kind() == SyntaxKind::SCALAR.code(),
        path::tree_len(
            path::replaced(old(tree)@, n.path@, scalar_of(green::token_tree(token))),
        ) <= MAX_LEN,
    ensures
        final(tree).wf(),
        final(tree)@ == path::replaced(
            old(tree)@,
            n.path@,
            scalar_of(green::token_tree(token)),
        ),
{
    let mut v: Vec<GreenElement> = Vec::new();
    v.push(GreenElement::Token(token));
    assert(green::element_trees(v@) =~= seq![green::token_tree(token)]);
    proof {
        path::lemma_replaced_len(old(tree)@, n.path@, scalar_of(green::token_tree(token)));
    }
    let new = mk_node(SyntaxKind::SCALAR, v);
    apply_edit(tree, TreeEdit::ReplaceNode { target: n.handle(), new });
}

/// Puts a text in the place of a scalar's value.
fn put_text(tree: &mut SyntaxTree, n: &SyntaxNode, token: SyntaxToken, s: &str)
    requires
        old(tree).wf(),
        n.wf(),
        n.whole() == old(tree)@,
        n.tree().kind() == SyntaxKind::SCALAR.code(),
        value_place(n.tree()) is Some,
        token.is_child_of(*n, value_place(n.tree())->0),
        path::tree_len(with_text(old(tree)@, n.path@, s@)) <= MAX_LEN,
    ensures
        final(tree).wf(),
        final(tree)@ == with_text(old(tree)@, n.path@, s@),
{
    let v = chars_of(s);
    let quoted = v.len() > 0 && v[0] == '\'' && v[v.len() - 1] == '\'';
    let kind = if quoted {
        SyntaxKind::SINGLE_QUOTED_SCALAR
    } else {
        SyntaxKind::PLAIN_SCALAR
    };
    let new = mk_token(kind, s);
    assert(green::token_tree(new) == token_for(s@));
    if token.is(kind) {
        apply_edit(tree, TreeEdit::ReplaceToken { target: token, new });
    } else {
        put_scalar(tree, n, new);
    }
}

/// The token that holds the value of a scalar; an alias has none.
pub open spec fn own_token(t: Tree) -> Option<Tree> {
    if t.kind() == SyntaxKind::ALIAS_NODE.code() {
        None
    } else {
        scalar::value_token_of(t.children())
    }
}

/// The token that a scalar has once its quotes are dropped, where they can be.
pub open spec fn unquoted_token(t: Tree) -> Option<Tree> {
    match own_token(t) {
        Some(x) => scalars::new_token(ScalarRule::Unquote, x, false),
        None => None,
    }
}

/// The token that a scalar has once it stands in single quotes, where it can.
pub open spec fn single_quoted_token(t: Tree) -> Option<Tree> {
    match own_token(t) {
        Some(x) => if x.is_token_of(SyntaxKind::PLAIN_SCALAR) {
            if scalars::quotable(x.text()) {
                Some(
                    Tree::Token {
                        kind: SyntaxKind::SINGLE_QUOTED_SCALAR.code(),
                        text: lexer::single_quoted(x.text()),
                    },
                )
            } else {
                None
            }
        } else {
            scalars::new_token(ScalarRule::SingleQuotes, x, false)
        },
        None => None,
    }
}

/// The tree with the scalar at `path` made of the token `t`, or as it is where
/// there is none.
pub open spec fn remade(whole: Tree, path: Seq<usize>, t: Option<Tree>) -> Tree {
    match t {
        Some(x) => path::replaced(whole, path, scalar_of(x)),
        None => whole,
    }
}

impl ScalarCursor {
    /// Replaces the value of the scalar.
    pub fn write(&self, tree: &mut SyntaxTree, value: &Written) -> (r: Result<(), String>)
        requires
            old(tree).wf(),
            self.wf(),
            self.node.whole() == old(tree)@,
            quote::written_text(*value) is Some && own_token(self.node.tree()) is Some
                ==> path::tree_len(
                with_text(old(tree)@, self.node.path@, quote::written_text(*value)->0),
            ) <= MAX_LEN,
        ensures
            final(tree).wf(),
            match quote::written_text(*value) {
                Some(s) => if self.node.tree().kind() == SyntaxKind::ALIAS_NODE.code() {
                    r is Err && r->Err_0@ == "not a scalar"@ && final(tree)@ == old(tree)@
                } else if value_place(self.node.tree()) is Some {
                    r is Ok && final(tree)@ == with_text(old(tree)@, self.node.path@, s)
                } else {
                    r is Err && r->Err_0@ == "scalar has no value token"@ && final(tree)@
                        == old(tree)@
                },
                None => r is Err && r->Err_0@ == "cannot write this value as a YAML scalar"@
                    && final(tree)@ == old(tree)@,
            },
    {
        let s = match yaml_scalar_text(value) {
            Some(s) => s,
            None => {
                return Err(string_of(&chars_of("cannot write this value as a YAML scalar")));
            },
        };
        match self.own_value_token() {
            Ok(Some(token)) => {
                put_text(tree, &self.node, token, s.as_str());
                Ok(())
            },
            Ok(None) => Err(string_of(&chars_of("scalar has no value token"))),
            Err(e) => Err(e),
        }
    }

    /// The token that holds the value; an alias is no scalar.
    fn own_value_token(&self) -> (r: Result<Option<SyntaxToken>, String>)
        requires
            self.wf(),
        ensures
            match r {
                Ok(t) => self.node.tree().kind() == SyntaxKind::SCALAR.code() && match value_place(
                    self.node.tree(),
                ) {
                    Some(i) => t is Some && t->0.is_child_of(self.node, i) && own_token(
                        self.node.tree(),
                    ) == Some(t->0.tree()),
                    None => t is None && own_token(self.node.tree()) is None,
                },
                Err(e) => self.node.tree().kind() == SyntaxKind::ALIAS_NODE.code() && e@
                    == "not a scalar"@,
            },
    {
        broadcast use kind::lemma_kind_round_trip;

        if self.node.is(SyntaxKind::ALIAS_NODE) {
            return Err(string_of(&chars_of("not a scalar")));
        }
        Ok(Scalar(self.node.handle()).value_token())
    }

    /// Drops the quotes of the scalar, and says whether that could be done.
    pub fn try_make_unquoted(&self, tree: &mut SyntaxTree) -> (r: bool)
        requires
            old(tree).wf(),
            self.wf(),
            self.node.whole() == old(tree)@,
            path::tree_len(
                remade(old(tree)@, self.node.path@, unquoted_token(self.node.tree())),
            ) <= MAX_LEN,
        ensures
            final(tree).wf(),
            r == unquoted_token(self.node.tree()) is Some,
            final(tree)@ == remade(
                old(tree)@,
                self.node.path@,
                unquoted_token(self.node.tree()),
            ),
    {
        if let Ok(Some(token)) = self.own_value_token() {
            if let Some(new) = fix_token(ScalarRule::Unquote, &token.green, false) {
                put_scalar(tree, &self.node, new);
                return true;
            }
        }
        false
    }

    /// Drops the quotes of the scalar.
    pub fn make_unquoted(&self, tree: &mut SyntaxTree) -> (r: Result<(), String>)
        requires
            old(tree).wf(),
            self.wf(),
            self.node.whole() == old(tree)@,
            path::tree_len(
                remade(old(tree)@, self.node.path@, unquoted_token(self.node.tree())),
            ) <= MAX_LEN,
        ensures
            final(tree).wf(),
            r is Ok <==> unquoted_token(self.node.tree()) is Some,
            r is Err ==> r->Err_0@ == "scalar cannot be represented as an unquoted value"@,
            final(tree)@ == remade(
                old(tree)@,
                self.node.path@,
                unquoted_token(self.node.tree()),
            ),
    {
        if self.try_make_unquoted(tree) {
            Ok(())
        } else {
            Err(string_of(&chars_of("scalar cannot be represented as an unquoted value")))
        }
    }

    /// Puts the scalar in single quotes, and says whether that could be done.
    pub fn try_make_single_quoted(&self, tree: &mut SyntaxTree) -> (r: bool)
        requires
            old(tree).wf(),
            self.wf(),
            self.node.whole() == old(tree)@,
            path::tree_len(
                remade(old(tree)@, self.node.path@, single_quoted_token(self.node.tree())),
            ) <= MAX_LEN,
        ensures
            final(tree).wf(),
            r == single_quoted_token(self.node.tree()) is Some,
            final(tree)@ == remade(
                old(tree)@,
                self.node.path@,
                single_quoted_token(self.node.tree()),
            ),
    {
        let token = match self.own_value_token() {
            Ok(Some(t)) => t,
            _ => {
                return false;
            },
        };
        if token.is(SyntaxKind::PLAIN_SCALAR) {
            if let Some(s) = as_single_quoted(token.text()) {
                let new = mk_token(SyntaxKind::SINGLE_QUOTED_SCALAR, s.as_str());
                put_scalar(tree, &self.node, new);
                return true;
            }
            return false;
        }
        if let Some(new) = fix_token(ScalarRule::SingleQuotes, &token.green, false) {
            put_scalar(tree, &self.node, new);
            return true;
        }
        false
    }

    /// Puts the scalar in single quotes.
    pub fn make_single_quoted(&self, tree: &mut SyntaxTree) -> (r: Result<(), String>)
        requires
            old(tree).wf(),
            self.wf(),
            self.node.whole() == old(tree)@,
            path::tree_len(
                remade(old(tree)@, self.node.path@, single_quoted_token(self.node.tree())),
            ) <= MAX_LEN,
        ensures
            final(tree).wf(),
            r is Ok <==> single_quoted_token(self.node.tree()) is Some,
            r is Err ==> r->Err_0@ == "scalar cannot be represented as a single-quoted value"@,
            final(tree)@ == remade(
                old(tree)@,
                self.node.path@,
                single_quoted_token(self.node.tree()),
            ),
    {
        if self.try_make_single_quoted(tree) {
            Ok(())
        } else {
            Err(string_of(&chars_of("scalar cannot be represented as a single-quoted value")))
        }
    }
}

/// Where the key `key` of the mapping at `path` stands.
pub open spec fn key_path(whole: Tree, path: Seq<usize>, key: Seq<char>) -> Seq<usize> {
    let t = path::tree_at(whole, path)->0;
    cursor::value_path(whole, path, cursor::key_place(t, key)->0, 0)
}

/// Whether `t` is a plain scalar.
pub open spec fn is_plain(t: Tree) -> bool {
    &&& t.is_node_of(SyntaxKind::SCALAR)
    &&& match scalar::value_token_of(t.children()) {
        Some(x) => x.is_token_of(SyntaxKind::PLAIN_SCALAR),
        None => false,
    }
}

/// Whether the key `key` of the mapping at `path` is there and is a plain scalar.
pub open spec fn has_plain_key(whole: Tree, path: Seq<usize>, key: Seq<char>) -> bool {
    &&& cursor::key_place(path::tree_at(whole, path)->0, key) is Some
    &&& is_plain(path::tree_at(whole, key_path(whole, path, key))->0)
}

/// The tree once the key `old_key` of the mapping at `path` is renamed.
pub open spec fn renamed(
    whole: Tree,
    path: Seq<usize>,
    old_key: Seq<char>,
    new_key: Seq<char>,
) -> Tree {
    if has_plain_key(whole, path, old_key) {
        with_text(
            whole,
            key_path(whole, path, old_key),
            quote::quoted_if_needed(new_key),
        )
    } else {
        whole
    }
}

impl MappingCursor {
    /// Renames the first key that stands for `old_key`, and says whether there is
    /// one. It is an error where that key is not a plain scalar.
    pub fn rename_key(&self, tree: &mut SyntaxTree, old_key: &str, new_key: &str) -> (r: Result<
        bool,
        String,
    >)
        requires
            old(tree).wf(),
            self.wf(),
            self.node.whole() == old(tree)@,
            path::tree_len(
                renamed(old(tree)@, self.node.path@, old_key@, new_key@),
            ) <= MAX_LEN,
        ensures
            final(tree).wf(),
            match r {
                Ok(found) => found == has_plain_key(old(tree)@, self.node.path@, old_key@) && found
                    == cursor::key_place(self.node.tree(), old_key@) is Some,
                Err(e) => e@ == "key is not a plain scalar"@ && cursor::key_place(
                    self.node.tree(),
                    old_key@,
                ) is Some && !has_plain_key(old(tree)@, self.node.path@, old_key@),
            },
            final(tree)@ == renamed(old(tree)@, self.node.path@, old_key@, new_key@),
    {
        let key = match self.key_node(old_key) {
            Some(k) => k,
            None => {
                return Ok(false);
            },
        };
        if key.is(SyntaxKind::SCALAR) {
            if let Some(token) = Scalar(key.handle()).value_token() {
                if token.is(SyntaxKind::PLAIN_SCALAR) {
                    let s = yaml_quote_if_needed(new_key);
                    put_text(tree, &key, token, s.as_str());
                    return Ok(true);
                }
            }
        }
        Err(string_of(&chars_of("key is not a plain scalar")))
    }
}

/// The tree that a rule makes of `t`.
pub open spec fn ruled(rule: ScalarRule, t: Tree) -> Tree {
    scalars::scalars_fixed(rule, t, false).trees[0]
}

/// The tree without whitespace at the ends of lines.
pub open spec fn trimmed(t: Tree) -> Tree {
    trim::tree_trimmed(t, None).trees[0]
}

/// Whether what trimming makes of a tree fits.
pub open spec fn trim_fits(t: Tree) -> bool {
    fixers::fits(trim::tree_trimmed(t, None))
}

/// The tree with words and numbers of YAML 1.1 made safe: booleans, octals, then
/// sexagesimals.
pub open spec fn safe_words(t: Tree) -> Tree {
    ruled(
        ScalarRule::QuoteSexagesimal,
        ruled(ScalarRule::QuoteOctal, ruled(ScalarRule::Yaml12Bool, t)),
    )
}

impl StreamCursor {
    /// The comment before the first `---`.
    pub fn comment(&self) -> (r: String)
        requires
            self.wf(),
        ensures
            r@ == entries::stream_comment(self.node.whole(), self.node.path@),
    {
        Stream(self.node.handle()).leading_comment()
    }

    /// Sets the comment before the first `---`, or clears it.
    pub fn set_comment(&self, tree: &mut SyntaxTree, text: Option<&str>) -> (r: Result<(), String>)
        requires
            old(tree).wf(),
            self.wf(),
            self.node.whole() == old(tree)@,
            match entries::first_document(self.node.tree()) {
                Some(i) => path::tree_len(
                    comment::with_leading(
                        old(tree)@,
                        self.node.path@.push(i as usize),
                        comment::opt_view(text),
                    ),
                ) <= MAX_LEN,
                None => true,
            },
        ensures
            final(tree).wf(),
            match entries::first_document(self.node.tree()) {
                Some(i) => if entries::explicit_document(self.node.parts()[i]) {
                    r is Ok && final(tree)@ == comment::with_leading(
                        old(tree)@,
                        self.node.path@.push(i as usize),
                        comment::opt_view(text),
                    )
                } else {
                    r is Err && r->Err_0@ == entries::no_stream_room() && final(tree)@
                        == old(tree)@
                },
                None => r is Err && r->Err_0@ == "stream has no documents"@ && final(tree)@
                    == old(tree)@,
            },
    {
        Stream(self.node.handle()).set_leading_comment(tree, text)
    }
}

/// The tree once it is formatted: its indentation is fixed, whitespace at the ends
/// of lines is gone, and plain scalars that are boolean words of YAML 1.1 are in
/// quotes.
pub open spec fn formatted(t: Tree) -> Tree {
    ruled(ScalarRule::QuoteBool, trimmed(indent::reindented(t)))
}

/// Whether what each step of formatting makes of a tree fits.
pub open spec fn fmt_fits(t: Tree) -> bool {
    &&& indent::reindent_fits(t)
    &&& trim_fits(indent::reindented(t))
    &&& scalars::rule_fits(ScalarRule::QuoteBool, trimmed(indent::reindented(t)))
}

/// Formats a tree, where what comes out fits, and says whether it did: indentation,
/// then the ends of lines, then boolean words of YAML 1.1.
pub fn try_fmt(tree: &mut SyntaxTree) -> (r: bool)
    requires
        old(tree).wf(),
    ensures
        final(tree).wf(),
        r == fmt_fits(old(tree)@),
        final(tree)@ == if r {
            formatted(old(tree)@)
        } else {
            old(tree)@
        },
{
    let before = tree.root.handle();
    if try_reindent(tree).is_none() {
        return false;
    }
    if try_trim_trailing_whitespace(tree).is_none() || try_rule(
        tree,
        ScalarRule::QuoteBool,
    ).is_none() {
        tree.set_root(before);
        return false;
    }
    true
}

/// Formats a tree: indentation, then the ends of lines, then boolean words of
/// YAML 1.1.
pub fn stream_fmt(tree: &mut SyntaxTree)
    requires
        old(tree).wf(),
        fmt_fits(old(tree)@),
    ensures
        final(tree).wf(),
        final(tree)@ == formatted(old(tree)@),
{
    indent::reindent(tree);
    trim::trim_trailing_whitespace(tree);
    scalars::quote_yaml_1_1_bool(tree);
}

/// Whether what each step of making words safe makes of a tree fits.
pub open spec fn fix_fits(t: Tree) -> bool {
    let a = ruled(ScalarRule::Yaml12Bool, t);
    &&& scalars::rule_fits(ScalarRule::Yaml12Bool, t)
    &&& scalars::rule_fits(ScalarRule::QuoteOctal, a)
    &&& scalars::rule_fits(ScalarRule::QuoteSexagesimal, ruled(ScalarRule::QuoteOctal, a))
}

/// Makes words and numbers of YAML 1.1 safe, where what comes out fits, and says
/// whether it did.
pub fn try_fix(tree: &mut SyntaxTree) -> (r: bool)
    requires
        old(tree).wf(),
    ensures
        final(tree).wf(),
        r == fix_fits(old(tree)@),
        final(tree)@ == if r {
            safe_words(old(tree)@)
        } else {
            old(tree)@
        },
{
    let before = tree.root.handle();
    if try_rule(tree, ScalarRule::Yaml12Bool).is_none() {
        return false;
    }
    if try_rule(tree, ScalarRule::QuoteOctal).is_none() || try_rule(
        tree,
        ScalarRule::QuoteSexagesimal,
    ).is_none() {
        tree.set_root(before);
        return false;
    }
    true
}

/// Makes words and numbers of YAML 1.1 safe.
pub fn stream_fix(tree: &mut SyntaxTree)
    requires
        old(tree).wf(),
        fix_fits(old(tree)@),
    ensures
        final(tree).wf(),
        final(tree)@ == safe_words(old(tree)@),
{
    scalars::yaml11_bool_to_yaml12_bool(tree);
    scalars::yaml11_octal_to_quoted(tree);
    scalars::yaml11_sexagesimal_to_quoted(tree);
}

} // verus!
