//! Values that were written as documents of one text are read back from it.

use vstd::prelude::*;
use vstd::utf8::*;

use crate::ast::nodes;
use crate::ast::nodes::{Document, Node};
use crate::ast::scalar;
use crate::builder;
use crate::builder::read;
use crate::builder::YamlModel;
use crate::grammar;
use crate::grammar::Parsed;
use crate::laws::gathering;
use crate::laws::layout;
use crate::laws::standing;
use crate::laws::surviving;
use crate::syntax::green::Tree;
use crate::syntax::kind::SyntaxKind;

verus! {

broadcast use vstd::utf8::encode_utf8_valid_utf8;

/// Whether all values are read back as documents.
pub open spec fn tame_documents(docs: Seq<YamlModel>) -> bool {
    forall|i: int|
        0 <= i < docs.len() ==> surviving::is_tame(#[trigger] docs[i]) && 2 * builder::depth(
            docs[i],
        ) <= usize::MAX
}

/// The text of the documents from `i` on, each behind a marker.
pub open spec fn rest_text(docs: Seq<YamlModel>, i: int) -> Seq<char>
    decreases docs.len() - i,
{
    if 0 <= i < docs.len() {
        seq!['-'] + (seq!['-'] + (seq!['-'] + (seq!['\n'] + (layout::body(layout::two(), docs[i], 0) + (seq!['\n']
            + rest_text(docs, i + 1))))))
    } else {
        seq![]
    }
}

/// One document more.
proof fn lemma_rest_grows(docs: Seq<YamlModel>, i: int)
    requires
        1 <= i < docs.len(),
    ensures
        rest_text(docs, i) == rest_text(docs.drop_last(), i) + rest_text(docs, docs.len() - 1),
    decreases docs.len() - i,
{
    let ds = docs.drop_last();
    let last = rest_text(docs, docs.len() - 1);
    if i == docs.len() - 1 {
        assert(rest_text(ds, i) + last =~= last);
    } else {
        lemma_rest_grows(docs, i + 1);
        assert(ds[i] == docs[i]);
        assert(rest_text(docs, i) =~= rest_text(ds, i) + last);
    }
}

/// The text of documents is that of the first and the others behind their markers.
proof fn lemma_multi_text(docs: Seq<YamlModel>)
    requires
        docs.len() > 0,
        tame_documents(docs),
    ensures
        builder::multi_text(docs) == layout::body(layout::two(), docs[0], 0) + (seq!['\n'] + rest_text(docs, 1)),
    decreases docs.len(),
{
    let n = docs.len() - 1;
    surviving::lemma_body_end(layout::two(), docs[n], 0);
    layout::lemma_yaml_text(docs[n]);
    let b = layout::body(layout::two(), docs[0], 0);
    if n == 0 {
        assert(builder::multi_text(docs) =~= b + (seq!['\n'] + rest_text(docs, 1)));
    } else {
        let ds = docs.drop_last();
        assert forall|i: int| 0 <= i < ds.len() implies surviving::is_tame(#[trigger] ds[i]) && 2 * builder::depth(ds[i]) <= usize::MAX by {
            assert(ds[i] == docs[i]);
        }
        lemma_multi_text(ds);
        assert(ds[0] == docs[0]);
        lemma_rest_grows(docs, 1);
        reveal_strlit("---\n");
        let last = layout::body(layout::two(), docs[n], 0);
        assert("---\n"@ =~= seq!['-', '-', '-', '\n']);
        assert(rest_text(docs, n + 1) =~= seq![]);
        assert(rest_text(docs, n) =~= "---\n"@ + (last + seq!['\n']));
        assert(docs.last() == docs[n]);
        assert(builder::multi_text(docs) =~= builder::multi_text(ds) + ("---\n"@ + (last + seq![
            '\n',
        ])));
        assert(builder::multi_text(docs) =~= b + (seq!['\n'] + rest_text(docs, 1)));
    }
}

/// Documents one behind another.
proof fn lemma_documents_add(a: Seq<Tree>, b: Seq<Tree>, x: Seq<YamlModel>, y: Seq<YamlModel>)
    requires
        gathering::documents_are(a, x),
        gathering::documents_are(b, y),
    ensures
        gathering::documents_are(a + b, x + y),
{
    assert forall|br: bool| #[trigger]
        read::documents_model(a + b, br) == Ok::<Seq<YamlModel>, Seq<char>>(x + y) by {
        lemma_documents_add_at(a, b, x, y, br);
    }
}

/// Documents one behind another, with what is behind them.
proof fn lemma_documents_add_at(
    a: Seq<Tree>,
    b: Seq<Tree>,
    x: Seq<YamlModel>,
    y: Seq<YamlModel>,
    br: bool,
)
    requires
        gathering::documents_are(a, x),
        read::documents_model(b, br) == Ok::<Seq<YamlModel>, Seq<char>>(y),
    ensures
        read::documents_model(a + b, br) == Ok::<Seq<YamlModel>, Seq<char>>(x + y),
    decreases b.len(),
{
    if b.len() == 0 {
        assert(a + b =~= a);
        assert(x + y =~= x);
    } else {
        let c = b.drop_last();
        assert((a + b).drop_last() =~= a + c);
        let next = scalar::begins_broken(b.last());
        assert(read::documents_model(c, next) is Ok);
        let z = read::documents_model(c, next)->Ok_0;
        lemma_documents_add_at(a, c, x, z, next);
        if nodes::typed::<Document>()(b.last()) {
            assert(x + y =~= (x + z).push(y.last()));
        }
    }
}

/// What a document and what follows it stand for.
proof fn lemma_document_model(r: Parsed, len: int, m: YamlModel, tail: Seq<Tree>)
    requires
        gathering::yields(r, len, m),
        gathering::all_tokens(tail),
    ensures
        gathering::documents_are(
            seq![Tree::Node { kind: SyntaxKind::DOCUMENT.code(), children: r.elems }] + tail,
            seq![m],
        ),
{
    let d = Tree::Node { kind: SyntaxKind::DOCUMENT.code(), children: r.elems };
    let ds = r.elems;
    assert forall|i: int|
        0 <= i < ds.len() && i != ds.len() - 1 implies !nodes::typed::<Node>()(#[trigger] ds[i]) by {
        assert(r.elems.drop_last()[i] is Token);
    }
    gathering::lemma_one_place(ds, nodes::typed::<Node>(), ds.len() - 1);
    let one = seq![d];
    let none = Seq::<YamlModel>::empty();
    assert(one.drop_last() =~= seq![]);
    assert(gathering::documents_are(one.drop_last(), none));
    assert(none.push(m) =~= seq![m]);
    assert(one.last() == d);
    assert forall|b: bool| #[trigger]
        read::documents_model(one, b) == Ok::<Seq<YamlModel>, Seq<char>>(seq![m]) by {
        assert(read::documents_model(one.drop_last(), scalar::begins_broken(d)) == Ok::<
            Seq<YamlModel>,
            Seq<char>,
        >(none));
        let k = ds.len() - 1;
        assert(read::node_model(ds[k], scalar::broken_after(ds, k, b)) is Ok);
    }
    lemma_no_documents(tail);
    lemma_documents_add(one, tail, seq![m], none);
    assert(seq![m] + none =~= seq![m]);
}

/// Tokens are no documents.
proof fn lemma_no_documents(ts: Seq<Tree>)
    requires
        gathering::all_tokens(ts),
    ensures
        gathering::documents_are(ts, seq![]),
    decreases ts.len(),
{
    if ts.len() > 0 {
        let us = ts.drop_last();
        assert forall|i: int| 0 <= i < us.len() implies #[trigger] us[i] is Token by {
            assert(us[i] == ts[i]);
        }
        lemma_no_documents(us);
        assert(ts[ts.len() - 1] is Token);
        assert forall|b: bool| #[trigger]
            read::documents_model(ts, b) == Ok::<Seq<YamlModel>, Seq<char>>(seq![]) by {
            assert(read::documents_model(us, scalar::begins_broken(ts.last())) is Ok);
        }
    }
}

/// The end of a document: what is left of its last line.
proof fn lemma_document_end(s: Seq<u8>, pos: int, e: int, r: Parsed, len: int, m: YamlModel)
    requires
        standing::closed(s, e, 0),
        gathering::yields(r, len, m),
        pos + len == e || (pos + len == e + 1 && standing::marker_below(s, e)),
    ensures
        ({
            let d = grammar::document_end(s, pos, grammar::wrap(SyntaxKind::DOCUMENT, r));
            &&& d.fault is None
            &&& d.len == e + 1 - pos
            &&& gathering::documents_are(d.elems, seq![m])
        }),
{
    if standing::marker_below(s, e) {
        standing::lemma_marker_below(s, e);
    } else {
        assert(standing::last_line(s, e));
        standing::lemma_last_line(s, e);
    }
    assert(!grammar::end_marker(s, e + 1)) by {
        reveal(grammar::line_marker);
    }
    let d = grammar::wrap(SyntaxKind::DOCUMENT, r);
    let t = grammar::trivia(s, pos + d.len);
    assert(gathering::all_tokens(t.elems));
    lemma_document_model(r, len, m, t.elems);
    assert(grammar::document_end(s, pos, d) == grammar::cat(d, t));
}

/// What follows a document: nothing, or the next.
proof fn lemma_next(s: Seq<u8>, e: int, docs: Seq<YamlModel>, i: int)
    requires
        0 <= i <= docs.len(),
        standing::stands(s, e, seq!['\n'] + rest_text(docs, i)),
        e + standing::size(seq!['\n'] + rest_text(docs, i)) == s.len(),
    ensures
        standing::feed_at(s, e),
        standing::stands(s, e + 1, rest_text(docs, i)),
        standing::size(seq!['\n'] + rest_text(docs, i)) == 1 + standing::size(rest_text(docs, i)),
        i == docs.len() ==> standing::last_line(s, e),
        i < docs.len() ==> standing::marker_below(s, e) && standing::stands(
            s,
            e + 5,
            layout::body(layout::two(), docs[i], 0) + (seq!['\n'] + rest_text(docs, i + 1)),
        ) && standing::size(rest_text(docs, i)) == 4 + standing::size(
            layout::body(layout::two(), docs[i], 0) + (seq!['\n'] + rest_text(docs, i + 1)),
        ),
        standing::closed(s, e, 0),
{
    standing::lemma_first(s, e, '\n', rest_text(docs, i));
    if i < docs.len() {
        let c = layout::body(layout::two(), docs[i], 0) + (seq!['\n'] + rest_text(docs, i + 1));
        standing::lemma_first(s, e + 1, '-', seq!['-'] + (seq!['-'] + (seq!['\n'] + c)));
        standing::lemma_first(s, e + 2, '-', seq!['-'] + (seq!['\n'] + c));
        standing::lemma_first(s, e + 3, '-', seq!['\n'] + c);
        standing::lemma_first(s, e + 4, '\n', c);
    } else {
        assert(standing::size(Seq::<char>::empty()) == 0);
    }
}

/// The body of a document, and where it ends.
proof fn lemma_body(s: Seq<u8>, a: int, docs: Seq<YamlModel>, i: int)
    requires
        0 <= i < docs.len(),
        tame_documents(docs),
        a == 0 || standing::feed_at(s, a - 1),
        standing::stands(s, a, layout::body(layout::two(), docs[i], 0) + (seq!['\n'] + rest_text(docs, i + 1))),
        a + standing::size(layout::body(layout::two(), docs[i], 0) + (seq!['\n'] + rest_text(docs, i + 1)))
            == s.len(),
    ensures
        ({
            let e = a + standing::size(layout::body(layout::two(), docs[i], 0));
            let r = grammar::document_body(s, a);
            &&& gathering::yields(r, r.len as int, docs[i])
            &&& a + r.len == e || (a + r.len == e + 1 && standing::marker_below(s, e))
            &&& standing::closed(s, e, 0)
            &&& standing::stands(s, e, seq!['\n'] + rest_text(docs, i + 1))
            &&& e + standing::size(seq!['\n'] + rest_text(docs, i + 1)) == s.len()
            &&& 0 <= a < s.len()
            &&& !grammar::any_marker(s, a)
            &&& !grammar::at(s, a, SyntaxKind::BOM)
            &&& !grammar::at(s, a, SyntaxKind::DIRECTIVE)
            &&& grammar::trivia(s, a) == grammar::none()
        }),
{
    let m = docs[i];
    let b = layout::body(layout::two(), m, 0);
    standing::lemma_parts(s, a, b, seq!['\n'] + rest_text(docs, i + 1));
    let e = a + standing::size(b);
    lemma_next(s, e, docs, i + 1);
    surviving::lemma_document_start(layout::two(), s, a, m);
    surviving::lemma_document_node(layout::two(), s, a, m);
    assert(standing::line_at(s, a, 0));
    standing::lemma_line(s, a, 0);
    reveal(grammar::document_body);
}

/// The documents behind the first.
proof fn lemma_more_documents(s: Seq<u8>, p: int, docs: Seq<YamlModel>, i: int)
    requires
        1 <= i <= docs.len(),
        tame_documents(docs),
        1 <= p,
        standing::stands(s, p - 1, seq!['\n'] + rest_text(docs, i)),
        p - 1 + standing::size(seq!['\n'] + rest_text(docs, i)) == s.len(),
    ensures
        grammar::documents(s, p, false).fault is None,
        gathering::documents_are(grammar::documents(s, p, false).elems, docs.skip(i)),
    decreases docs.len() - i,
{
    reveal(grammar::documents);
    lemma_next(s, p - 1, docs, i);
    if i == docs.len() {
        assert(docs.skip(i) =~= seq![]);
        assert(grammar::documents(s, p, false) == grammar::none());
    } else {
        let m = docs[i];
        let a = p + 4;
        standing::lemma_marker_below(s, p - 1);
        lemma_body(s, a, docs, i);
        let e = a + standing::size(layout::body(layout::two(), m, 0));
        lemma_later_document(s, p, e, m);
        let d = grammar::document(s, p, false);
        lemma_more_documents(s, e + 1, docs, i + 1);
        let rest = grammar::documents(s, e + 1, false);
        assert(p + d.len == e + 1);
        assert(grammar::documents(s, p, false) == grammar::cat(d, rest));
        lemma_documents_add(d.elems, rest.elems, seq![m], docs.skip(i + 1));
        assert(seq![m] + docs.skip(i + 1) =~= docs.skip(i));
    }
}

/// A document behind a marker.
proof fn lemma_later_document(s: Seq<u8>, p: int, e: int, m: YamlModel)
    requires
        grammar::start_marker(s, p),
        !grammar::at(s, p, SyntaxKind::DIRECTIVE),
        standing::feed_at(s, p + 3),
        grammar::trivia(s, p + 4) == grammar::none(),
        standing::closed(s, e, 0),
        p + 4 <= e,
        ({
            let r = grammar::document_body(s, p + 4);
            &&& gathering::yields(r, r.len as int, m)
            &&& p + 4 + r.len == e || (p + 4 + r.len == e + 1 && standing::marker_below(s, e))
        }),
    ensures
        ({
            let d = grammar::document(s, p, false);
            &&& d.fault is None
            &&& d.len == e + 1 - p
            &&& gathering::documents_are(d.elems, seq![m])
        }),
{
    reveal(grammar::document);
    let r = grammar::document_body(s, p + 4);
    let k = grammar::token(s, p, SyntaxKind::DIRECTIVES_END, 3);
    let nl = standing::break_token(s, p + 3);
    assert(grammar::trivia(s, p + 3) == nl) by {
        reveal(grammar::trivia);
        standing::lemma_break(s, p + 3);
        surviving::lemma_behind_none(nl);
    }
    let t = grammar::cat(k, nl);
    assert(gathering::all_tokens(t.elems));
    surviving::lemma_behind_token(t, r, r.len as int, m);
    let b = grammar::cat(t, r);
    lemma_document_end(s, p, e, b, b.len as int, m);
    surviving::lemma_behind_none(
        grammar::document_end(s, p, grammar::wrap(SyntaxKind::DOCUMENT, b)),
    );
}

/// Values that were written as documents of one text and are read back from it are
/// the same. The text has no error. Left out are the values that would not be read
/// back each from a text of its own.
pub proof fn lemma_documents_survive(docs: Seq<YamlModel>)
    requires
        tame_documents(docs),
    ensures
        ({
            let r = grammar::stream(encode_utf8(builder::multi_text(docs)));
            &&& r.fault is None
            &&& r.elems.len() == 1
            &&& r.elems[0].is_node_of(SyntaxKind::STREAM)
            &&& gathering::documents_are(r.elems[0].children(), docs)
        }),
{
    let s = encode_utf8(builder::multi_text(docs));
    if docs.len() == 0 {
        assert(grammar::trivia(s, 0) == grammar::none()) by {
            reveal(grammar::trivia);
        }
        assert(grammar::documents(s, 0, true) == grammar::none()) by {
            reveal(grammar::documents);
        }
        surviving::lemma_behind_none(grammar::none());
        assert(grammar::stream(s).elems[0].children() =~= seq![]);
        assert(docs =~= seq![]);
    } else {
        lemma_multi_text(docs);
        assert(s.subrange(0, s.len() as int) =~= s);
        lemma_body(s, 0, docs, 0);
        let m = docs[0];
        let e = standing::size(layout::body(layout::two(), m, 0));
        let r = grammar::document_body(s, 0);
        lemma_document_end(s, 0, e, r, r.len as int, m);
        let d = grammar::document(s, 0, true);
        assert(d == grammar::document_end(s, 0, grammar::wrap(SyntaxKind::DOCUMENT, r))) by {
            reveal(grammar::document);
        }
        lemma_more_documents(s, e + 1, docs, 1);
        let rest = grammar::documents(s, e + 1, false);
        let all = grammar::cat(d, rest);
        assert(grammar::documents(s, 0, true) == all) by {
            reveal(grammar::documents);
        }
        lemma_documents_add(d.elems, rest.elems, seq![m], docs.skip(1));
        assert(seq![m] + docs.skip(1) =~= docs);
        surviving::lemma_behind_none(grammar::none());
        surviving::lemma_behind_none(all);
        assert(grammar::stream(s) == grammar::wrap(SyntaxKind::STREAM, all));
    }
}

} // verus!
