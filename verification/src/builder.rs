//! Values, their canonical YAML text, and the way back from a tree.

pub mod read;

use vstd::prelude::*;
use vstd::string::*;
use vstd::utf8::*;

use crate::ast::decode;
use crate::ast::value;
use crate::ast::value::{infer_plain, FloatModel, FloatValue, Value};
use crate::debug;
use crate::debug::escape;
use crate::grammar;
use crate::laws::surviving;
use crate::lexer;
use crate::parser::parse_recover;
use crate::syntax::known;
use crate::syntax::green::MAX_LEN;
use crate::syntax::tree::SyntaxTree;
use crate::text;
use crate::text::{
    chars_of, finds_pair, has_char, int_chars, push_chars, push_spaces, string_of,
};

verus! {

/// A YAML value. The keys of a mapping are strings.
#[derive(Debug, PartialEq, Eq)]
pub enum Yaml {
    Null,
    Bool(bool),
    Int(i64),
    Float(FloatValue),
    Str(String),
    List(Vec<Yaml>),
    Dict(Vec<(String, Yaml)>),
}

/// A YAML value, as a mathematical value.
pub enum YamlModel {
    Null,
    Bool(bool),
    Int(int),
    Float(FloatModel),
    Str(Seq<char>),
    List(Seq<YamlModel>),
    Dict(Seq<(Seq<char>, YamlModel)>),
}

impl Yaml {
    /// The value.
    pub open spec fn model(self) -> YamlModel
        decreases self,
    {
        match self {
            Yaml::Null => YamlModel::Null,
            Yaml::Bool(b) => YamlModel::Bool(b),
            Yaml::Int(n) => YamlModel::Int(n as int),
            Yaml::Float(f) => YamlModel::Float(f@),
            Yaml::Str(s) => YamlModel::Str(s@),
            Yaml::List(v) => YamlModel::List(models(v@)),
            Yaml::Dict(v) => YamlModel::Dict(pair_models(v@)),
        }
    }
}

/// The values of items in a row.
pub open spec fn models(v: Seq<Yaml>) -> Seq<YamlModel>
    decreases v,
{
    if v.len() == 0 {
        seq![]
    } else {
        models(v.drop_last()).push(v.last().model())
    }
}

/// The keys and values of pairs in a row.
pub open spec fn pair_models(v: Seq<(String, Yaml)>) -> Seq<(Seq<char>, YamlModel)>
    decreases v,
{
    if v.len() == 0 {
        seq![]
    } else {
        pair_models(v.drop_last()).push((v.last().0@, v.last().1.model()))
    }
}

proof fn lemma_models(v: Seq<Yaml>)
    ensures
        models(v).len() == v.len(),
        forall|i: int| 0 <= i < v.len() ==> models(v)[i] == (#[trigger] v[i]).model(),
    decreases v.len(),
{
    if v.len() > 0 {
        lemma_models(v.drop_last());
        assert forall|i: int| 0 <= i < v.len() implies models(v)[i] == (
        #[trigger] v[i]).model() by {
            if i < v.len() - 1 {
                assert(v.drop_last()[i] == v[i]);
            }
        }
    }
}

proof fn lemma_pair_models(v: Seq<(String, Yaml)>)
    ensures
        pair_models(v).len() == v.len(),
        forall|i: int|
            0 <= i < v.len() ==> pair_models(v)[i] == ((#[trigger] v[i]).0@, v[i].1.model()),
    decreases v.len(),
{
    if v.len() > 0 {
        lemma_pair_models(v.drop_last());
        assert forall|i: int| 0 <= i < v.len() implies pair_models(v)[i] == (
            (#[trigger] v[i]).0@,
            v[i].1.model(),
        ) by {
            if i < v.len() - 1 {
                assert(v.drop_last()[i] == v[i]);
            }
        }
    }
}

// ---- The text of scalars ----

/// Characters that a plain scalar cannot begin with.
pub open spec fn leading_indicator(c: char) -> bool {
    c == '-' || c == '?' || c == ':' || c == ',' || c == '[' || c == ']' || c == '{' || c == '}'
        || c == '#' || c == '&' || c == '*' || c == '!' || c == '|' || c == '>' || c == '\''
        || c == '"' || c == '%' || c == '@' || c == '`' || c == ' '
}

/// Whether a string written plain would be read as something else, or not at
/// all.
pub open spec fn needs_quotes(s: Seq<char>) -> bool {
    ||| s.len() == 0
    ||| !(value::inferred(s) is Text)
    ||| leading_indicator(s[0])
    ||| s.last() == ' '
    ||| s.contains('\n')
    ||| s.contains('\t')
    ||| text::has_pair(s, ':', ' ')
    ||| s.last() == ':'
    ||| text::has_pair(s, ' ', '#')
    ||| s.contains('\r')
    ||| s[0] == '\u{feff}'
    ||| ends_document(s)
}

/// Whether a text on a line of its own looks like the end of a document.
pub open spec fn ends_document(s: Seq<char>) -> bool {
    s.len() >= 3 && s[0] == '.' && s[1] == '.' && s[2] == '.' && (s.len() == 3 || s[3] == ' ')
}

/// A string as a scalar: plain where it can be, else in single quotes.
pub open spec fn quoted(s: Seq<char>) -> Seq<char> {
    if needs_quotes(s) {
        lexer::single_quoted(s)
    } else {
        s
    }
}

/// Whether single quotes keep a text: it is one line, and has no space or tab at
/// either end.
pub open spec fn quotes_keep(s: Seq<char>) -> bool {
    &&& !s.contains('\n')
    &&& !s.contains('\r')
    &&& s.len() > 0 ==> !decode::is_blank_char(s[0]) && !decode::is_blank_char(s.last())
}

/// The text of a string: as a scalar, with escapes in double quotes where single
/// quotes do not keep it.
pub open spec fn string_text(s: Seq<char>) -> Seq<char> {
    if quotes_keep(s) {
        quoted(s)
    } else {
        debug::escaped(s)
    }
}

/// A floating-point number as a scalar that is read as one.
pub open spec fn float_text(f: FloatModel) -> Seq<char> {
    match f {
        FloatModel::NotANumber => ".nan"@,
        FloatModel::Infinity => ".inf"@,
        FloatModel::NegInfinity => "-.inf"@,
        FloatModel::Decimal(s) => if s.contains('.') || s.contains('e') || s.contains('E') {
            s
        } else {
            s + ".0"@
        },
    }
}

/// Whether a string must be quoted.
pub fn needs_quoting(s: &str) -> (r: bool)
    ensures
        r == needs_quotes(s@),
{
    let v = chars_of(s);
    let n = v.len();
    if n == 0 {
        return true;
    }
    match infer_plain(s) {
        Value::String(_) => {},
        _ => {
            return true;
        },
    }
    let c = v[0];
    if c == '-' || c == '?' || c == ':' || c == ',' || c == '[' || c == ']' || c == '{' || c == '}'
        || c == '#' || c == '&' || c == '*' || c == '!' || c == '|' || c == '>' || c == '\''
        || c == '"' || c == '%' || c == '@' || c == '`' || c == ' ' {
        return true;
    }
    v[n - 1] == ' ' || has_char(&v, '\n') || has_char(&v, '\t') || finds_pair(&v, ':', ' ') || v[n
        - 1] == ':' || finds_pair(&v, ' ', '#') || has_char(&v, '\r') || c == '\u{feff}' || (n >= 3
        && c == '.' && v[1] == '.' && v[2] == '.' && (n == 3 || v[3] == ' '))
}

/// A text in single quotes, with each quote in it doubled.
pub fn single_quote(s: &str) -> (r: Vec<char>)
    ensures
        r@ == lexer::single_quoted(s@),
{
    let v = chars_of(s);
    let mut out: Vec<char> = Vec::new();
    out.push('\'');
    let mut i: usize = 0;
    assert(out@ + lexer::doubled_quotes(s@, 0) =~= seq!['\''] + lexer::doubled_quotes(s@, 0));
    while i < v.len()
        invariant
            v@ == s@,
            i <= v@.len(),
            out@ + lexer::doubled_quotes(s@, i as int) == seq!['\''] + lexer::doubled_quotes(s@, 0),
        decreases v@.len() - i,
    {
        let ghost before = out@;
        let ghost rest = lexer::doubled_quotes(s@, i + 1);
        let c = v[i];
        if c == '\'' {
            out.push('\'');
        }
        out.push(c);
        assert(out@ + rest =~= before + lexer::doubled_quotes(s@, i as int));
        i = i + 1;
    }
    out.push('\'');
    assert(out@ =~= lexer::single_quoted(s@));
    out
}

/// A string as a scalar.
pub fn quote_scalar(s: &str) -> (r: Vec<char>)
    ensures
        r@ == quoted(s@),
{
    if needs_quoting(s) {
        single_quote(s)
    } else {
        chars_of(s)
    }
}

/// The text of a string.
pub fn write_string(s: &str) -> (r: Vec<char>)
    ensures
        r@ == string_text(s@),
{
    let v = chars_of(s);
    let n = v.len();
    let blank_end = n > 0 && (v[0] == ' ' || v[0] == '\t' || v[n - 1] == ' ' || v[n - 1] == '\t');
    if has_char(&v, '\n') || has_char(&v, '\r') || blank_end {
        chars_of(escape(s).as_str())
    } else {
        quote_scalar(s)
    }
}

/// A floating-point number as a scalar.
pub fn format_float(f: &FloatValue) -> (r: Vec<char>)
    ensures
        r@ == float_text(f@),
{
    match f {
        FloatValue::NotANumber => chars_of(".nan"),
        FloatValue::Infinity => chars_of(".inf"),
        FloatValue::NegInfinity => chars_of("-.inf"),
        FloatValue::Decimal(s) => {
            let mut v = chars_of(s.as_str());
            if !(has_char(&v, '.') || has_char(&v, 'e') || has_char(&v, 'E')) {
                push_chars(&mut v, &chars_of(".0"));
            }
            v
        },
    }
}

// ---- The text of values ----

/// Whether a text ends in a line feed.
pub open spec fn at_line_start(out: Seq<char>) -> bool {
    out.len() > 0 && out.last() == '\n'
}

/// What an entry at place `i` begins with: its indentation, where it begins a
/// line.
pub open spec fn entry_start(out: Seq<char>, i: int, indent: int) -> Seq<char> {
    if i > 0 || at_line_start(out) {
        out + text::spaces(indent)
    } else {
        out
    }
}

/// How deep collections are nested in a value.
pub open spec fn depth(m: YamlModel) -> nat
    decreases m,
{
    match m {
        YamlModel::List(items) => 1 + list_depth(items),
        YamlModel::Dict(pairs) => 1 + dict_depth(pairs),
        _ => 0,
    }
}

/// How deep collections are nested in the items.
pub open spec fn list_depth(items: Seq<YamlModel>) -> nat
    decreases items,
{
    if items.len() == 0 {
        0
    } else {
        let a = list_depth(items.drop_last());
        let b = depth(items.last());
        if a < b {
            b
        } else {
            a
        }
    }
}

/// How deep collections are nested in the values.
pub open spec fn dict_depth(pairs: Seq<(Seq<char>, YamlModel)>) -> nat
    decreases pairs,
{
    if pairs.len() == 0 {
        0
    } else {
        let a = dict_depth(pairs.drop_last());
        let b = depth(pairs.last().1);
        if a < b {
            b
        } else {
            a
        }
    }
}

pub(crate) proof fn lemma_list_depth(items: Seq<YamlModel>, i: int)
    requires
        0 <= i < items.len(),
    ensures
        depth(items[i]) <= list_depth(items),
    decreases items.len(),
{
    if i < items.len() - 1 {
        lemma_list_depth(items.drop_last(), i);
    }
}

pub(crate) proof fn lemma_dict_depth(pairs: Seq<(Seq<char>, YamlModel)>, i: int)
    requires
        0 <= i < pairs.len(),
    ensures
        depth(pairs[i].1) <= dict_depth(pairs),
    decreases pairs.len(),
{
    if i < pairs.len() - 1 {
        lemma_dict_depth(pairs.drop_last(), i);
    }
}

/// `out` with a value behind it. Nested lines are indented by `indent`.
pub open spec fn node_text(m: YamlModel, indent: int, out: Seq<char>) -> Seq<char>
    decreases m, 3nat, 0nat,
{
    match m {
        YamlModel::Null => out + "null"@,
        YamlModel::Bool(b) => out + if b {
            "true"@
        } else {
            "false"@
        },
        YamlModel::Int(n) => out + text::int_text(n),
        YamlModel::Float(f) => out + float_text(f),
        YamlModel::Str(s) => out + string_text(s),
        YamlModel::List(items) => list_text(items, indent, out),
        YamlModel::Dict(pairs) => dict_text(pairs, indent, out),
    }
}

/// `out` with a sequence behind it, whose dashes are indented by `indent`.
pub open spec fn list_text(items: Seq<YamlModel>, indent: int, out: Seq<char>) -> Seq<char>
    decreases items, 2nat, 0nat,
{
    if items.len() == 0 {
        out + "[]"@
    } else {
        list_lines(items, 0, indent, out).drop_last()
    }
}

/// `out` with the lines of the items from `i` on behind it.
pub open spec fn list_lines(items: Seq<YamlModel>, i: int, indent: int, out: Seq<char>) -> Seq<
    char,
>
    decreases items, 1nat, items.len() - i,
{
    if !(0 <= i < items.len()) {
        out
    } else {
        let start = entry_start(out, i, indent).push('-');
        list_lines(items, i + 1, indent, item_text(items[i], indent, start).push('\n'))
    }
}

/// `out` with an item of a sequence behind it: the first entry of a mapping
/// stands beside the dash.
pub open spec fn item_text(m: YamlModel, indent: int, out: Seq<char>) -> Seq<char>
    decreases m, 5nat, 0nat,
{
    match m {
        YamlModel::Dict(pairs) if pairs.len() > 0 => dict_text(pairs, indent + 2, out.push(' ')),
        _ => child_text(m, indent, out),
    }
}

/// `out` with a mapping behind it, whose keys are indented by `indent`.
pub open spec fn dict_text(
    pairs: Seq<(Seq<char>, YamlModel)>,
    indent: int,
    out: Seq<char>,
) -> Seq<char>
    decreases pairs, 2nat, 0nat,
{
    if pairs.len() == 0 {
        out + "{}"@
    } else {
        dict_lines(pairs, 0, indent, out).drop_last()
    }
}

/// `out` with the lines of the pairs from `i` on behind it.
pub open spec fn dict_lines(
    pairs: Seq<(Seq<char>, YamlModel)>,
    i: int,
    indent: int,
    out: Seq<char>,
) -> Seq<char>
    decreases pairs, 1nat, pairs.len() - i,
{
    if !(0 <= i < pairs.len()) {
        out
    } else {
        let start = (entry_start(out, i, indent) + string_text(pairs[i].0)).push(':');
        dict_lines(pairs, i + 1, indent, child_text(pairs[i].1, indent, start).push('\n'))
    }
}

/// `out` with the value of an entry behind it: a collection on the lines
/// below, all else on the same line.
pub open spec fn child_text(m: YamlModel, indent: int, out: Seq<char>) -> Seq<char>
    decreases m, 4nat, 0nat,
{
    match m {
        YamlModel::List(items) if items.len() > 0 => list_text(
            items,
            indent + 2,
            out.push('\n') + text::spaces(indent + 2),
        ),
        YamlModel::Dict(pairs) if pairs.len() > 0 => dict_text(
            pairs,
            indent + 2,
            out.push('\n') + text::spaces(indent + 2),
        ),
        _ => node_text(m, indent + 2, out.push(' ')),
    }
}

/// The canonical text of a value.
pub open spec fn yaml_text(m: YamlModel) -> Seq<char> {
    let s = node_text(m, 0, seq![]);
    if at_line_start(s) {
        s
    } else {
        s.push('\n')
    }
}

/// The canonical text of documents from `i` on, behind `out`.
pub open spec fn multi_text(docs: Seq<YamlModel>) -> Seq<char>
    decreases docs.len(),
{
    if docs.len() == 0 {
        seq![]
    } else if docs.len() == 1 {
        yaml_text(docs[0])
    } else {
        multi_text(docs.drop_last()) + "---\n"@ + yaml_text(docs.last())
    }
}

/// Appends a value.
fn write_node(node: &Yaml, indent: usize, out: &mut Vec<char>)
    requires
        indent + 2 * depth(node.model()) + 2 <= usize::MAX,
    ensures
        final(out)@ == node_text(node.model(), indent as int, old(out)@),
    decreases *node, 3nat,
{
    match node {
        Yaml::Null => push_chars(out, &chars_of("null")),
        Yaml::Bool(b) => push_chars(
            out,
            &chars_of(
                if *b {
                    "true"
                } else {
                    "false"
                },
            ),
        ),
        Yaml::Int(n) => push_chars(out, &int_chars(*n)),
        Yaml::Float(f) => push_chars(out, &format_float(f)),
        Yaml::Str(s) => push_chars(out, &write_string(s.as_str())),
        Yaml::List(items) => write_seq(items, indent, out),
        Yaml::Dict(pairs) => write_map(pairs, indent, out),
    }
}

/// Appends what an entry begins with.
fn start_entry(i: usize, indent: usize, out: &mut Vec<char>)
    ensures
        final(out)@ == entry_start(old(out)@, i as int, indent as int),
{
    let n = out.len();
    if i > 0 || (n > 0 && out[n - 1] == '\n') {
        push_spaces(out, indent);
    }
}

/// Appends a sequence.
fn write_seq(items: &Vec<Yaml>, indent: usize, out: &mut Vec<char>)
    requires
        indent + 2 * (list_depth(models(items@)) + 1) + 2 <= usize::MAX,
    ensures
        final(out)@ == list_text(models(items@), indent as int, old(out)@),
    decreases *items, 2nat,
{
    if items.len() == 0 {
        push_chars(out, &chars_of("[]"));
        return;
    }
    let ghost ms = models(items@);
    let ghost goal = list_lines(ms, 0, indent as int, out@);
    proof {
        lemma_models(items@);
    }
    let mut i: usize = 0;
    while i < items.len()
        invariant
            ms == models(items@),
            ms.len() == items@.len(),
            forall|j: int| 0 <= j < items@.len() ==> ms[j] == (#[trigger] items@[j]).model(),
            i <= items@.len(),
            i > 0 ==> out@.len() > 0,
            indent + 2 * (list_depth(ms) + 1) + 2 <= usize::MAX,
            list_lines(ms, i as int, indent as int, out@) == goal,
        decreases items@.len() - i,
    {
        proof {
            lemma_list_depth(ms, i as int);
            assert(ms[i as int] == items@[i as int].model());
            assert(decreases_to!(*items => items@));
            assert(decreases_to!(items@ => items@[i as int]));
        }
        start_entry(i, indent, out);
        out.push('-');
        let ghost start = out@;
        let item = &items[i];
        let mut beside = false;
        if let Yaml::Dict(pairs) = item {
            proof {
                lemma_pair_models(pairs@);
            }
            if pairs.len() > 0 {
                beside = true;
                out.push(' ');
                write_map(pairs, indent + 2, out);
            }
        }
        if !beside {
            write_block_child(item, indent, out);
        }
        assert(out@ == item_text(ms[i as int], indent as int, start));
        out.push('\n');
        i = i + 1;
    }
    out.pop();
    assert(out@ =~= goal.drop_last());
}

/// Appends a mapping.
fn write_map(pairs: &Vec<(String, Yaml)>, indent: usize, out: &mut Vec<char>)
    requires
        indent + 2 * (dict_depth(pair_models(pairs@)) + 1) + 2 <= usize::MAX,
    ensures
        final(out)@ == dict_text(pair_models(pairs@), indent as int, old(out)@),
    decreases *pairs, 2nat,
{
    if pairs.len() == 0 {
        push_chars(out, &chars_of("{}"));
        return;
    }
    let ghost ms = pair_models(pairs@);
    let ghost goal = dict_lines(ms, 0, indent as int, out@);
    proof {
        lemma_pair_models(pairs@);
    }
    let mut i: usize = 0;
    while i < pairs.len()
        invariant
            ms == pair_models(pairs@),
            ms.len() == pairs@.len(),
            forall|j: int|
                0 <= j < pairs@.len() ==> ms[j] == ((#[trigger] pairs@[j]).0@, pairs@[j].1.model()),
            i <= pairs@.len(),
            i > 0 ==> out@.len() > 0,
            indent + 2 * (dict_depth(ms) + 1) + 2 <= usize::MAX,
            dict_lines(ms, i as int, indent as int, out@) == goal,
        decreases pairs@.len() - i,
    {
        proof {
            lemma_dict_depth(ms, i as int);
            assert(ms[i as int] == (pairs@[i as int].0@, pairs@[i as int].1.model()));
            assert(decreases_to!(*pairs => pairs@));
            assert(decreases_to!(pairs@ => pairs@[i as int]));
            assert(decreases_to!(pairs@[i as int] => pairs@[i as int].1));
        }
        start_entry(i, indent, out);
        push_chars(out, &write_string(pairs[i].0.as_str()));
        out.push(':');
        write_block_child(&pairs[i].1, indent, out);
        out.push('\n');
        i = i + 1;
    }
    out.pop();
    assert(out@ =~= goal.drop_last());
}

/// Appends the value of an entry.
fn write_block_child(value: &Yaml, indent: usize, out: &mut Vec<char>)
    requires
        indent + 2 * depth(value.model()) + 4 <= usize::MAX,
    ensures
        final(out)@ == child_text(value.model(), indent as int, old(out)@),
    decreases *value, 4nat,
{
    if let Yaml::List(items) = value {
        proof {
            lemma_models(items@);
        }
        if items.len() > 0 {
            out.push('\n');
            push_spaces(out, indent + 2);
            write_seq(items, indent + 2, out);
            return;
        }
    }
    if let Yaml::Dict(pairs) = value {
        proof {
            lemma_pair_models(pairs@);
        }
        if pairs.len() > 0 {
            out.push('\n');
            push_spaces(out, indent + 2);
            write_map(pairs, indent + 2, out);
            return;
        }
    }
    out.push(' ');
    write_node(value, indent + 2, out);
}

impl Yaml {
    /// The canonical text of the value, which ends in a line feed. The
    /// indentation of the deepest lines must fit a machine word.
    pub fn to_yaml_string(&self) -> (r: String)
        requires
            2 * depth(self.model()) + 2 <= usize::MAX,
        ensures
            r@ == yaml_text(self.model()),
            r@.len() > 0 && r@.last() == '\n',
    {
        let mut out: Vec<char> = Vec::new();
        write_node(self, 0, &mut out);
        assert(Seq::<char>::empty() =~= seq![]);
        let n = out.len();
        if !(n > 0 && out[n - 1] == '\n') {
            out.push('\n');
        }
        string_of(&out)
    }

    /// The tree of the value's canonical text. Every value has one but those with
    /// a decimal that is written in other words than those of a number.
    pub fn build(&self) -> (r: SyntaxTree)
        requires
            2 * depth(self.model()) + 2 <= usize::MAX,
            encode_utf8(yaml_text(self.model())).len() <= MAX_LEN,
            surviving::is_tame(self.model()) || grammar::stream(
                encode_utf8(yaml_text(self.model())),
            ).fault is None,
        ensures
            r.wf(),
            r@.text() == yaml_text(self.model()),
            seq![r@] == grammar::stream(encode_utf8(yaml_text(self.model()))).elems,
            known::known(r@),
            surviving::is_tame(self.model()) ==> read::single_model(r@) == Ok::<
                YamlModel,
                Seq<char>,
            >(self.model()),
    {
        proof {
            if surviving::is_tame(self.model()) {
                surviving::lemma_value_survives(self.model());
            }
        }
        let text = self.to_yaml_string();
        let (tree, _) = parse_recover(text.as_str());
        tree
    }

    /// The canonical text of documents, with `---` between them.
    pub fn to_multi_string(docs: &Vec<Yaml>) -> (r: String)
        requires
            forall|i: int|
                0 <= i < docs@.len() ==> 2 * depth((#[trigger] docs@[i]).model()) + 2
                    <= usize::MAX,
        ensures
            r@ == multi_text(models(docs@)),
    {
        let mut out: Vec<char> = Vec::new();
        let mut i: usize = 0;
        proof {
            lemma_models(docs@);
            assert(docs@.take(0) =~= seq![]);
            assert(out@ =~= multi_text(models(docs@.take(0))));
        }
        while i < docs.len()
            invariant
                forall|j: int|
                    0 <= j < docs@.len() ==> 2 * depth((#[trigger] docs@[j]).model()) + 2
                        <= usize::MAX,
                i <= docs@.len(),
                out@ == multi_text(models(docs@.take(i as int))),
            decreases docs@.len() - i,
        {
            proof {
                let a = docs@.take(i as int);
                let b = docs@.take(i + 1);
                assert(b.drop_last() =~= a);
                assert(b.last() == docs@[i as int]);
                assert(models(b).drop_last() =~= models(a));
                lemma_models(a);
                lemma_models(b);
            }
            if i > 0 {
                push_chars(&mut out, &chars_of("---\n"));
            }
            let text = docs[i].to_yaml_string();
            push_chars(&mut out, &chars_of(text.as_str()));
            i = i + 1;
            assert(out@ =~= multi_text(models(docs@.take(i as int))));
        }
        assert(docs@.take(docs@.len() as int) =~= docs@);
        string_of(&out)
    }
}

} // verus!
