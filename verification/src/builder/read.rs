//! From a tree to the values of its documents.

use vstd::prelude::*;
use vstd::string::*;

use crate::ast::collections;
use crate::ast::collections::{entry_value, is_entry};
use crate::ast::decode;
use crate::ast::nodes;
use crate::ast::nodes::{
    AstNode, BlockMapping, BlockSequence, Document, FlowMapping, FlowSequence, Node, Stream,
};
use crate::ast::scalar;
use crate::ast::scalar::Scalar;
use crate::ast::value::{Value, ValueModel};
use crate::builder;
use crate::builder::{Yaml, YamlModel};
use crate::syntax::green::Tree;
use crate::syntax::kind::SyntaxKind;
use crate::syntax::node;
use crate::syntax::node::{SyntaxElement, SyntaxNode};
use crate::syntax::path;
use crate::syntax::tree::SyntaxTree;
use crate::text::{chars_of, string_of};

verus! {

/// The value of a scalar; here and below `broken` says whether a line break stands
/// right behind.
pub open spec fn scalar_model(t: Tree, broken: bool) -> Result<YamlModel, Seq<char>> {
    match scalar::scalar_value_in(t, broken) {
        Ok(ValueModel::Null) => Ok(YamlModel::Null),
        Ok(ValueModel::Bool(b)) => Ok(YamlModel::Bool(b)),
        Ok(ValueModel::Int(n)) => Ok(YamlModel::Int(n)),
        Ok(ValueModel::Float(f)) => Ok(YamlModel::Float(f)),
        Ok(ValueModel::Text(s)) => Ok(YamlModel::Str(s)),
        Err(f) => Err("scalar decode error: "@ + decode::fault_text(f)),
    }
}

/// The key of an entry whose key is `t`.
pub open spec fn key_model(t: Tree) -> Result<Seq<char>, Seq<char>> {
    if Scalar::accepts(t) {
        match scalar::scalar_text(t.children()) {
            Ok(s) => Ok(s),
            Err(f) => Err("mapping key decode error: "@ + decode::fault_text(f)),
        }
    } else {
        Err("non-scalar mapping keys are not supported"@)
    }
}

/// The value of a node, or why it has none.
pub open spec fn node_model(t: Tree, broken: bool) -> Result<YamlModel, Seq<char>>
    decreases t,
{
    match t {
        Tree::Token { .. } => Err("alias nodes are not supported"@),
        Tree::Node { children, .. } => if Scalar::accepts(t) {
            scalar_model(t, broken)
        } else if BlockSequence::accepts(t) || FlowSequence::accepts(t) {
            match items_model(children, item_kind(t), broken) {
                Ok(items) => Ok(YamlModel::List(items)),
                Err(e) => Err(e),
            }
        } else if BlockMapping::accepts(t) || FlowMapping::accepts(t) {
            match pairs_model(children, pair_kind(t), broken) {
                Ok(pairs) => Ok(YamlModel::Dict(pairs)),
                Err(e) => Err(e),
            }
        } else {
            Err("alias nodes are not supported"@)
        },
    }
}

/// The kind of the entries of a sequence.
pub open spec fn item_kind(t: Tree) -> SyntaxKind {
    if BlockSequence::accepts(t) {
        SyntaxKind::BLOCK_SEQUENCE_ENTRY
    } else {
        SyntaxKind::FLOW_SEQUENCE_ENTRY
    }
}

/// The kind of the entries of a mapping.
pub open spec fn pair_kind(t: Tree) -> SyntaxKind {
    if BlockMapping::accepts(t) {
        SyntaxKind::BLOCK_MAPPING_ENTRY
    } else {
        SyntaxKind::FLOW_MAPPING_ENTRY
    }
}

/// The items of the entries of kind `kind`, or why the first of them has none.
pub open spec fn items_model(cs: Seq<Tree>, kind: SyntaxKind, broken: bool) -> Result<
    Seq<YamlModel>,
    Seq<char>,
>
    decreases cs,
{
    if cs.len() == 0 {
        Ok(seq![])
    } else {
        match items_model(cs.drop_last(), kind, scalar::begins_broken(cs.last())) {
            Ok(r) => if collections::holding(kind)(cs.last()) {
                proof {
                    node::lemma_places(cs.last().children(), nodes::typed::<Node>());
                }
                let p = collections::value_places(cs.last());
                match node_model(
                    cs.last().children()[p[0]],
                    scalar::broken_after(cs.last().children(), p[0], broken),
                ) {
                    Ok(m) => Ok(r.push(m)),
                    Err(e) => Err(e),
                }
            } else {
                Ok(r)
            },
            Err(e) => Err(e),
        }
    }
}

/// The keys and values of the entries of kind `kind`, or why the first of them
/// has none.
pub open spec fn pairs_model(cs: Seq<Tree>, kind: SyntaxKind, broken: bool) -> Result<
    Seq<(Seq<char>, YamlModel)>,
    Seq<char>,
>
    decreases cs,
{
    if cs.len() == 0 {
        Ok(seq![])
    } else {
        match pairs_model(cs.drop_last(), kind, scalar::begins_broken(cs.last())) {
            Ok(r) => if collections::holding(kind)(cs.last()) {
                proof {
                    node::lemma_places(cs.last().children(), nodes::typed::<Node>());
                }
                let p = collections::value_places(cs.last());
                match key_model(cs.last().children()[p[0]]) {
                    Ok(k) => if p.len() > 1 {
                        match node_model(
                            cs.last().children()[p[1]],
                            scalar::broken_after(cs.last().children(), p[1], broken),
                        ) {
                            Ok(m) => Ok(r.push((k, m))),
                            Err(e) => Err(e),
                        }
                    } else {
                        Ok(r.push((k, YamlModel::Null)))
                    },
                    Err(e) => Err(e),
                }
            } else {
                Ok(r)
            },
            Err(e) => Err(e),
        }
    }
}

/// The value of a document; an empty one is null.
pub open spec fn document_model(t: Tree, broken: bool) -> Result<YamlModel, Seq<char>> {
    let p = node::places(t.children(), nodes::typed::<Node>());
    if p.len() > 0 {
        node_model(t.children()[p[0]], scalar::broken_after(t.children(), p[0], broken))
    } else {
        Ok(YamlModel::Null)
    }
}

/// The values of the documents among `cs`, or why the first of them has none.
pub open spec fn documents_model(cs: Seq<Tree>, broken: bool) -> Result<
    Seq<YamlModel>,
    Seq<char>,
>
    decreases cs.len(),
{
    if cs.len() == 0 {
        Ok(seq![])
    } else {
        match documents_model(cs.drop_last(), scalar::begins_broken(cs.last())) {
            Ok(r) => if nodes::typed::<Document>()(cs.last()) {
                match document_model(cs.last(), broken) {
                    Ok(m) => Ok(r.push(m)),
                    Err(e) => Err(e),
                }
            } else {
                Ok(r)
            },
            Err(e) => Err(e),
        }
    }
}

/// The value of the only document of a tree.
pub open spec fn single_model(t: Tree) -> Result<YamlModel, Seq<char>> {
    let p = node::places(t.children(), nodes::typed::<Document>());
    if !Stream::accepts(t) {
        Err("not a YAML stream"@)
    } else if p.len() == 0 {
        Ok(YamlModel::Null)
    } else if p.len() > 1 {
        Err("multi-document streams are not supported"@)
    } else {
        document_model(t.children()[p[0]], scalar::broken_after(t.children(), p[0], false))
    }
}

/// Whether a result is the one that the model says.
pub open spec fn reads_as(
    r: Result<Yaml, String>,
    m: Result<YamlModel, Seq<char>>,
) -> bool {
    match (r, m) {
        (Ok(y), Ok(v)) => y.model() == v,
        (Err(e), Err(f)) => e@ == f,
        _ => false,
    }
}

/// An error message with an error in words behind it.
fn message(head: &str, tail: &str) -> (r: String)
    ensures
        r@ == head@ + tail@,
{
    let mut out = string_of(&chars_of(head));
    out.push_str(tail);
    out
}

/// The value of a scalar.
fn from_scalar(s: &Scalar) -> (r: Result<Yaml, String>)
    requires
        s.0.wf(),
    ensures
        reads_as(
            r,
            scalar_model(s.0.tree(), scalar::break_behind(s.0.whole(), s.0.path@)),
        ),
{
    match s.to_value() {
        Ok(Value::Null) => Ok(Yaml::Null),
        Ok(Value::Bool(b)) => Ok(Yaml::Bool(b)),
        Ok(Value::Int(n)) => Ok(Yaml::Int(n)),
        Ok(Value::Float(f)) => Ok(Yaml::Float(f)),
        Ok(Value::String(t)) => Ok(Yaml::Str(t)),
        Err(e) => Err(message("scalar decode error: ", e.to_text().as_str())),
    }
}

/// The key that a node stands for.
fn from_key(key: &Node) -> (r: Result<String, String>)
    requires
        key.fits(),
        key.node().wf(),
    ensures
        match (r, key_model(key.node().tree())) {
            (Ok(s), Ok(k)) => s@ == k,
            (Err(e), Err(f)) => e@ == f,
            _ => false,
        },
{
    match key {
        Node::Scalar(s) => match s.decoded_token() {
            Ok(t) => Ok(t),
            Err(e) => Err(message("mapping key decode error: ", e.to_text().as_str())),
        },
        _ => Err(string_of(&chars_of("non-scalar mapping keys are not supported"))),
    }
}

/// The value of a node.
fn from_node(n: &Node) -> (r: Result<Yaml, String>)
    requires
        n.fits(),
        n.node().wf(),
    ensures
        reads_as(
            r,
            node_model(
                n.node().tree(),
                scalar::break_behind(n.node().whole(), n.node().path@),
            ),
        ),
    decreases n.node().tree(),
{
    let ghost t = n.node().tree();
    match n {
        Node::Scalar(s) => from_scalar(s),
        Node::BlockSequence(x) => from_items(&x.0, SyntaxKind::BLOCK_SEQUENCE_ENTRY),
        Node::FlowSequence(x) => from_items(&x.0, SyntaxKind::FLOW_SEQUENCE_ENTRY),
        Node::BlockMapping(x) => from_pairs(&x.0, SyntaxKind::BLOCK_MAPPING_ENTRY),
        Node::FlowMapping(x) => from_pairs(&x.0, SyntaxKind::FLOW_MAPPING_ENTRY),
        Node::Alias(_) => Err(string_of(&chars_of("alias nodes are not supported"))),
    }
}

/// The value of a sequence.
fn from_items(n: &SyntaxNode, kind: SyntaxKind) -> (r: Result<Yaml, String>)
    requires
        n.wf(),
    ensures
        match (
            r,
            items_model(n.parts(), kind, scalar::break_behind(n.whole(), n.path@)),
        ) {
            (Ok(y), Ok(v)) => y.model() == YamlModel::List(v),
            (Err(e), Err(f)) => e@ == f,
            _ => false,
        },
    decreases n.parts(),
{
    let len = n.len();
    let ghost cs = n.parts();
    let ghost broken = scalar::break_behind(n.whole(), n.path@);
    let mut items: Vec<Yaml> = Vec::new();
    let mut i: usize = 0;
    assert(cs.take(0) =~= seq![]);
    while i < len
        invariant
            n.wf(),
            cs == n.parts(),
            broken == scalar::break_behind(n.whole(), n.path@),
            i <= len,
            len == cs.len(),
            items_model(
                cs.take(i as int),
                kind,
                scalar::broken_after(cs, i - 1, broken),
            ) == Ok::<Seq<YamlModel>, Seq<char>>(
                builder::models(items@),
            ),
        decreases len - i,
    {
        proof {
            assert(cs.take(i + 1).drop_last() =~= cs.take(i as int));
            assert(decreases_to!(cs => cs[i as int]));
        }
        if is_entry(n, i, kind) {
            if let Some(x) = entry_value(n, i, 0) {
                proof {
                    node::lemma_places(cs[i as int].children(), nodes::typed::<Node>());
                    let e = cs[i as int];
                    assert(decreases_to!(e => e->Node_children));
                    let p = collections::value_places(e)[0];
                    assert(decreases_to!(e->Node_children => e->Node_children[p]));
                    scalar::lemma_break_behind(n.whole(), n.path@, i, p as usize);
                }
                match from_node(&x) {
                    Ok(y) => {
                        let ghost before = items@;
                        items.push(y);
                        assert(items@.drop_last() =~= before);
                    },
                    Err(e) => {
                        proof {
                            lemma_items_fail(cs, i + 1, kind, broken);
                        }
                        return Err(e);
                    },
                }
            }
        }
        i = i + 1;
    }
    assert(cs.take(len as int) =~= cs);
    Ok(Yaml::List(items))
}

/// Where the first items have no values, all the items have none.
proof fn lemma_items_fail(cs: Seq<Tree>, n: int, kind: SyntaxKind, broken: bool)
    requires
        0 < n <= cs.len(),
        items_model(cs.take(n), kind, scalar::broken_after(cs, n - 1, broken)) is Err,
    ensures
        items_model(cs, kind, broken) == items_model(
            cs.take(n),
            kind,
            scalar::broken_after(cs, n - 1, broken),
        ),
    decreases cs.len(),
{
    if n < cs.len() {
        assert(cs.drop_last().take(n) =~= cs.take(n));
        lemma_items_fail(cs.drop_last(), n, kind, scalar::begins_broken(cs.last()));
    } else {
        assert(cs.take(n) =~= cs);
    }
}

/// Where the first pairs have no values, all the pairs have none.
proof fn lemma_pairs_fail(cs: Seq<Tree>, n: int, kind: SyntaxKind, broken: bool)
    requires
        0 < n <= cs.len(),
        pairs_model(cs.take(n), kind, scalar::broken_after(cs, n - 1, broken)) is Err,
    ensures
        pairs_model(cs, kind, broken) == pairs_model(
            cs.take(n),
            kind,
            scalar::broken_after(cs, n - 1, broken),
        ),
    decreases cs.len(),
{
    if n < cs.len() {
        assert(cs.drop_last().take(n) =~= cs.take(n));
        lemma_pairs_fail(cs.drop_last(), n, kind, scalar::begins_broken(cs.last()));
    } else {
        assert(cs.take(n) =~= cs);
    }
}

/// Where the first documents have no values, all the documents have none.
proof fn lemma_documents_fail(cs: Seq<Tree>, n: int, broken: bool)
    requires
        0 < n <= cs.len(),
        documents_model(cs.take(n), scalar::broken_after(cs, n - 1, broken)) is Err,
    ensures
        documents_model(cs, broken) == documents_model(
            cs.take(n),
            scalar::broken_after(cs, n - 1, broken),
        ),
    decreases cs.len(),
{
    if n < cs.len() {
        assert(cs.drop_last().take(n) =~= cs.take(n));
        lemma_documents_fail(cs.drop_last(), n, scalar::begins_broken(cs.last()));
    } else {
        assert(cs.take(n) =~= cs);
    }
}

/// The value of a mapping.
fn from_pairs(n: &SyntaxNode, kind: SyntaxKind) -> (r: Result<Yaml, String>)
    requires
        n.wf(),
    ensures
        match (
            r,
            pairs_model(n.parts(), kind, scalar::break_behind(n.whole(), n.path@)),
        ) {
            (Ok(y), Ok(v)) => y.model() == YamlModel::Dict(v),
            (Err(e), Err(f)) => e@ == f,
            _ => false,
        },
    decreases n.parts(),
{
    let len = n.len();
    let ghost cs = n.parts();
    let ghost broken = scalar::break_behind(n.whole(), n.path@);
    let mut pairs: Vec<(String, Yaml)> = Vec::new();
    let mut i: usize = 0;
    assert(cs.take(0) =~= seq![]);
    while i < len
        invariant
            n.wf(),
            cs == n.parts(),
            broken == scalar::break_behind(n.whole(), n.path@),
            i <= len,
            len == cs.len(),
            pairs_model(
                cs.take(i as int),
                kind,
                scalar::broken_after(cs, i - 1, broken),
            ) == Ok::<
                Seq<(Seq<char>, YamlModel)>,
                Seq<char>,
            >(builder::pair_models(pairs@)),
        decreases len - i,
    {
        proof {
            assert(cs.take(i + 1).drop_last() =~= cs.take(i as int));
            assert(decreases_to!(cs => cs[i as int]));
        }
        if is_entry(n, i, kind) {
            if let Some(k) = entry_value(n, i, 0) {
                proof {
                    node::lemma_places(cs[i as int].children(), nodes::typed::<Node>());
                }
                let key = match from_key(&k) {
                    Ok(s) => s,
                    Err(e) => {
                        proof {
                            lemma_pairs_fail(cs, i + 1, kind, broken);
                        }
                        return Err(e);
                    },
                };
                let value = match entry_value(n, i, 1) {
                    Some(v) => {
                        proof {
                            let e = cs[i as int];
                            assert(decreases_to!(e => e->Node_children));
                            let p = collections::value_places(e)[1];
                            assert(decreases_to!(e->Node_children => e->Node_children[p]));
                            scalar::lemma_break_behind(n.whole(), n.path@, i, p as usize);
                        }
                        match from_node(&v) {
                            Ok(y) => y,
                            Err(e) => {
                                proof {
                                    lemma_pairs_fail(cs, i + 1, kind, broken);
                                }
                                return Err(e);
                            },
                        }
                    },
                    None => Yaml::Null,
                };
                let ghost before = pairs@;
                pairs.push((key, value));
                assert(pairs@.drop_last() =~= before);
                assert(pairs@.last() == (key, value));
                assert(builder::pair_models(pairs@) == builder::pair_models(before).push(
                    (key@, value.model()),
                ));
            }
        }
        i = i + 1;
    }
    assert(cs.take(len as int) =~= cs);
    Ok(Yaml::Dict(pairs))
}

/// The value of a document.
fn doc_value(doc: &Document) -> (r: Result<Yaml, String>)
    requires
        doc.0.wf(),
    ensures
        reads_as(
            r,
            document_model(doc.0.tree(), scalar::break_behind(doc.0.whole(), doc.0.path@)),
        ),
{
    match doc.root_node() {
        Some(n) => {
            assert(n.node().path@.drop_last() =~= doc.0.path@);
            from_node(&n)
        },
        None => Ok(Yaml::Null),
    }
}

impl Yaml {
    /// The value of the only document of a tree; null where there is none.
    pub fn from_tree(tree: &SyntaxTree) -> (r: Result<Yaml, String>)
        requires
            tree.wf(),
        ensures
            reads_as(r, single_model(tree@)),
    {
        let stream = match Stream::cast(tree.root().handle()) {
            Some(s) => s,
            None => {
                return Err(string_of(&chars_of("not a YAML stream")));
            },
        };
        let docs = stream.documents();
        if docs.len() == 0 {
            return Ok(Yaml::Null);
        }
        if docs.len() > 1 {
            return Err(string_of(&chars_of("multi-document streams are not supported")));
        }
        let doc = &docs[0];
        proof {
            let whole = tree@;
            assert(doc.0.path@.drop_last() =~= Seq::<usize>::empty());
            assert(path::tree_at(whole, Seq::empty()) == Some(whole));
            assert(!scalar::break_behind(whole, Seq::empty()));
        }
        doc_value(doc)
    }

    /// The values of all documents of a tree, in order.
    pub fn from_stream(tree: &SyntaxTree) -> (r: Result<Vec<Yaml>, String>)
        requires
            tree.wf(),
        ensures
            if !Stream::accepts(tree@) {
                r is Err && r->Err_0@ == "not a YAML stream"@
            } else {
                match (r, documents_model(tree@.children(), false)) {
                    (Ok(v), Ok(m)) => builder::models(v@) == m,
                    (Err(e), Err(f)) => e@ == f,
                    _ => false,
                }
            },
    {
        let stream = match Stream::cast(tree.root().handle()) {
            Some(s) => s,
            None => {
                return Err(string_of(&chars_of("not a YAML stream")));
            },
        };
        let n = &stream.0;
        let len = n.len();
        let ghost cs = n.parts();
        let mut values: Vec<Yaml> = Vec::new();
        let mut i: usize = 0;
        assert(cs.take(0) =~= seq![]);
        while i < len
            invariant
                n.wf(),
                cs == n.parts(),
                i <= len,
                len == cs.len(),
                cs == tree@.children(),
                n.whole() == tree@,
                n.path@.len() == 0,
                Stream::accepts(tree@),
                documents_model(cs.take(i as int), scalar::broken_after(cs, i - 1, false)) == Ok::<
                    Seq<YamlModel>,
                    Seq<char>,
                >(builder::models(values@)),
            decreases len - i,
        {
            proof {
                assert(cs.take(i + 1).drop_last() =~= cs.take(i as int));
            }
            if let SyntaxElement::Node(c) = n.child_or_token(i) {
                if let Some(doc) = Document::cast(c) {
                    proof {
                        assert(n.path@ =~= Seq::<usize>::empty());
                        assert(doc.0.path@.drop_last() =~= n.path@);
                        assert(path::tree_at(tree@, n.path@) == Some(tree@));
                        assert(!scalar::break_behind(tree@, n.path@));
                    }
                    match doc_value(&doc) {
                        Ok(y) => {
                            let ghost before = values@;
                            values.push(y);
                            assert(values@.drop_last() =~= before);
                        },
                        Err(e) => {
                            proof {
                                lemma_documents_fail(cs, i + 1, false);
                            }
                            return Err(e);
                        },
                    }
                }
            }
            i = i + 1;
        }
        assert(cs.take(len as int) =~= cs);
        Ok(values)
    }
}

} // verus!
