//! The kinds of tokens and nodes of a YAML syntax tree.

use vstd::prelude::*;

verus! {

/// The kind of a token or of a node. The tokens come first, the nodes after
/// them; `__LAST` closes the list and is neither.
#[allow(non_camel_case_types)]
#[derive(Debug, Clone, Copy, PartialEq, Eq, PartialOrd, Ord, Hash, Structural)]
pub enum SyntaxKind {
    WHITESPACE,
    NEWLINE,
    COMMENT,
    BOM,
    PLAIN_SCALAR,
    SINGLE_QUOTED_SCALAR,
    DOUBLE_QUOTED_SCALAR,
    LITERAL_SCALAR,
    FOLDED_SCALAR,
    COLON,
    DASH,
    QUESTION,
    COMMA,
    L_BRACKET,
    R_BRACKET,
    L_BRACE,
    R_BRACE,
    ANCHOR,
    ALIAS,
    TAG,
    DIRECTIVE,
    DIRECTIVES_END,
    DOCUMENT_END,
    ERROR,
    STREAM,
    DOCUMENT,
    DIRECTIVES,
    BLOCK_MAPPING,
    BLOCK_MAPPING_ENTRY,
    BLOCK_SEQUENCE,
    BLOCK_SEQUENCE_ENTRY,
    FLOW_MAPPING,
    FLOW_MAPPING_ENTRY,
    FLOW_SEQUENCE,
    FLOW_SEQUENCE_ENTRY,
    SCALAR,
    /// Zero-width node standing for an implicit null value. It carries no
    /// tokens and so adds nothing to the emitted text.
    NULL_SCALAR,
    ALIAS_NODE,
    NODE_PROPERTIES,
    __LAST,
}

impl SyntaxKind {
    /// The number of this kind in a green tree: its place in the list.
    pub open spec fn code(self) -> u16 {
        match self {
            SyntaxKind::WHITESPACE => 0,
            SyntaxKind::NEWLINE => 1,
            SyntaxKind::COMMENT => 2,
            SyntaxKind::BOM => 3,
            SyntaxKind::PLAIN_SCALAR => 4,
            SyntaxKind::SINGLE_QUOTED_SCALAR => 5,
            SyntaxKind::DOUBLE_QUOTED_SCALAR => 6,
            SyntaxKind::LITERAL_SCALAR => 7,
            SyntaxKind::FOLDED_SCALAR => 8,
            SyntaxKind::COLON => 9,
            SyntaxKind::DASH => 10,
            SyntaxKind::QUESTION => 11,
            SyntaxKind::COMMA => 12,
            SyntaxKind::L_BRACKET => 13,
            SyntaxKind::R_BRACKET => 14,
            SyntaxKind::L_BRACE => 15,
            SyntaxKind::R_BRACE => 16,
            SyntaxKind::ANCHOR => 17,
            SyntaxKind::ALIAS => 18,
            SyntaxKind::TAG => 19,
            SyntaxKind::DIRECTIVE => 20,
            SyntaxKind::DIRECTIVES_END => 21,
            SyntaxKind::DOCUMENT_END => 22,
            SyntaxKind::ERROR => 23,
            SyntaxKind::STREAM => 24,
            SyntaxKind::DOCUMENT => 25,
            SyntaxKind::DIRECTIVES => 26,
            SyntaxKind::BLOCK_MAPPING => 27,
            SyntaxKind::BLOCK_MAPPING_ENTRY => 28,
            SyntaxKind::BLOCK_SEQUENCE => 29,
            SyntaxKind::BLOCK_SEQUENCE_ENTRY => 30,
            SyntaxKind::FLOW_MAPPING => 31,
            SyntaxKind::FLOW_MAPPING_ENTRY => 32,
            SyntaxKind::FLOW_SEQUENCE => 33,
            SyntaxKind::FLOW_SEQUENCE_ENTRY => 34,
            SyntaxKind::SCALAR => 35,
            SyntaxKind::NULL_SCALAR => 36,
            SyntaxKind::ALIAS_NODE => 37,
            SyntaxKind::NODE_PROPERTIES => 38,
            SyntaxKind::__LAST => 39,
        }
    }

    /// Whether tokens of this kind are skipped between meaningful tokens.
    pub open spec fn spec_is_trivia(self) -> bool {
        self == SyntaxKind::WHITESPACE || self == SyntaxKind::NEWLINE || self == SyntaxKind::COMMENT
    }

    /// Whether tokens of this kind are skipped between meaningful tokens.
    pub fn is_trivia(self) -> (r: bool)
        ensures
            r == self.spec_is_trivia(),
    {
        matches!(self, SyntaxKind::WHITESPACE | SyntaxKind::NEWLINE | SyntaxKind::COMMENT)
    }

    /// Whether this is the kind of a token: it stands before `STREAM`.
    pub fn is_token(self) -> (r: bool)
        ensures
            r == (self.code() < SyntaxKind::STREAM.code()),
    {
        self.raw() < SyntaxKind::STREAM.raw()
    }

    /// Whether this is the kind of a node: it stands at `STREAM` or after it,
    /// and is not `__LAST`.
    pub fn is_node(self) -> (r: bool)
        ensures
            r == (SyntaxKind::STREAM.code() <= self.code() < SyntaxKind::__LAST.code()),
    {
        !self.is_token() && self != SyntaxKind::__LAST
    }

    /// The number of this kind in a green tree.
    pub fn raw(self) -> (r: u16)
        ensures
            r == self.code(),
    {
        match self {
            SyntaxKind::WHITESPACE => 0,
            SyntaxKind::NEWLINE => 1,
            SyntaxKind::COMMENT => 2,
            SyntaxKind::BOM => 3,
            SyntaxKind::PLAIN_SCALAR => 4,
            SyntaxKind::SINGLE_QUOTED_SCALAR => 5,
            SyntaxKind::DOUBLE_QUOTED_SCALAR => 6,
            SyntaxKind::LITERAL_SCALAR => 7,
            SyntaxKind::FOLDED_SCALAR => 8,
            SyntaxKind::COLON => 9,
            SyntaxKind::DASH => 10,
            SyntaxKind::QUESTION => 11,
            SyntaxKind::COMMA => 12,
            SyntaxKind::L_BRACKET => 13,
            SyntaxKind::R_BRACKET => 14,
            SyntaxKind::L_BRACE => 15,
            SyntaxKind::R_BRACE => 16,
            SyntaxKind::ANCHOR => 17,
            SyntaxKind::ALIAS => 18,
            SyntaxKind::TAG => 19,
            SyntaxKind::DIRECTIVE => 20,
            SyntaxKind::DIRECTIVES_END => 21,
            SyntaxKind::DOCUMENT_END => 22,
            SyntaxKind::ERROR => 23,
            SyntaxKind::STREAM => 24,
            SyntaxKind::DOCUMENT => 25,
            SyntaxKind::DIRECTIVES => 26,
            SyntaxKind::BLOCK_MAPPING => 27,
            SyntaxKind::BLOCK_MAPPING_ENTRY => 28,
            SyntaxKind::BLOCK_SEQUENCE => 29,
            SyntaxKind::BLOCK_SEQUENCE_ENTRY => 30,
            SyntaxKind::FLOW_MAPPING => 31,
            SyntaxKind::FLOW_MAPPING_ENTRY => 32,
            SyntaxKind::FLOW_SEQUENCE => 33,
            SyntaxKind::FLOW_SEQUENCE_ENTRY => 34,
            SyntaxKind::SCALAR => 35,
            SyntaxKind::NULL_SCALAR => 36,
            SyntaxKind::ALIAS_NODE => 37,
            SyntaxKind::NODE_PROPERTIES => 38,
            SyntaxKind::__LAST => 39,
        }
    }

    /// The name of this kind.
    #[verifier::opaque]
    pub open spec fn name(self) -> Seq<char> {
        match self {
            SyntaxKind::WHITESPACE => "WHITESPACE"@,
            SyntaxKind::NEWLINE => "NEWLINE"@,
            SyntaxKind::COMMENT => "COMMENT"@,
            SyntaxKind::BOM => "BOM"@,
            SyntaxKind::PLAIN_SCALAR => "PLAIN_SCALAR"@,
            SyntaxKind::SINGLE_QUOTED_SCALAR => "SINGLE_QUOTED_SCALAR"@,
            SyntaxKind::DOUBLE_QUOTED_SCALAR => "DOUBLE_QUOTED_SCALAR"@,
            SyntaxKind::LITERAL_SCALAR => "LITERAL_SCALAR"@,
            SyntaxKind::FOLDED_SCALAR => "FOLDED_SCALAR"@,
            SyntaxKind::COLON => "COLON"@,
            SyntaxKind::DASH => "DASH"@,
            SyntaxKind::QUESTION => "QUESTION"@,
            SyntaxKind::COMMA => "COMMA"@,
            SyntaxKind::L_BRACKET => "L_BRACKET"@,
            SyntaxKind::R_BRACKET => "R_BRACKET"@,
            SyntaxKind::L_BRACE => "L_BRACE"@,
            SyntaxKind::R_BRACE => "R_BRACE"@,
            SyntaxKind::ANCHOR => "ANCHOR"@,
            SyntaxKind::ALIAS => "ALIAS"@,
            SyntaxKind::TAG => "TAG"@,
            SyntaxKind::DIRECTIVE => "DIRECTIVE"@,
            SyntaxKind::DIRECTIVES_END => "DIRECTIVES_END"@,
            SyntaxKind::DOCUMENT_END => "DOCUMENT_END"@,
            SyntaxKind::ERROR => "ERROR"@,
            SyntaxKind::STREAM => "STREAM"@,
            SyntaxKind::DOCUMENT => "DOCUMENT"@,
            SyntaxKind::DIRECTIVES => "DIRECTIVES"@,
            SyntaxKind::BLOCK_MAPPING => "BLOCK_MAPPING"@,
            SyntaxKind::BLOCK_MAPPING_ENTRY => "BLOCK_MAPPING_ENTRY"@,
            SyntaxKind::BLOCK_SEQUENCE => "BLOCK_SEQUENCE"@,
            SyntaxKind::BLOCK_SEQUENCE_ENTRY => "BLOCK_SEQUENCE_ENTRY"@,
            SyntaxKind::FLOW_MAPPING => "FLOW_MAPPING"@,
            SyntaxKind::FLOW_MAPPING_ENTRY => "FLOW_MAPPING_ENTRY"@,
            SyntaxKind::FLOW_SEQUENCE => "FLOW_SEQUENCE"@,
            SyntaxKind::FLOW_SEQUENCE_ENTRY => "FLOW_SEQUENCE_ENTRY"@,
            SyntaxKind::SCALAR => "SCALAR"@,
            SyntaxKind::NULL_SCALAR => "NULL_SCALAR"@,
            SyntaxKind::ALIAS_NODE => "ALIAS_NODE"@,
            SyntaxKind::NODE_PROPERTIES => "NODE_PROPERTIES"@,
            SyntaxKind::__LAST => "__LAST"@,
        }
    }

    /// The name of this kind, as its `Debug` form shows it.
    pub fn as_str(self) -> (r: &'static str)
        ensures
            r@ == self.name(),
    {
        proof {
            reveal(SyntaxKind::name);
        }
        match self {
            SyntaxKind::WHITESPACE => "WHITESPACE",
            SyntaxKind::NEWLINE => "NEWLINE",
            SyntaxKind::COMMENT => "COMMENT",
            SyntaxKind::BOM => "BOM",
            SyntaxKind::PLAIN_SCALAR => "PLAIN_SCALAR",
            SyntaxKind::SINGLE_QUOTED_SCALAR => "SINGLE_QUOTED_SCALAR",
            SyntaxKind::DOUBLE_QUOTED_SCALAR => "DOUBLE_QUOTED_SCALAR",
            SyntaxKind::LITERAL_SCALAR => "LITERAL_SCALAR",
            SyntaxKind::FOLDED_SCALAR => "FOLDED_SCALAR",
            SyntaxKind::COLON => "COLON",
            SyntaxKind::DASH => "DASH",
            SyntaxKind::QUESTION => "QUESTION",
            SyntaxKind::COMMA => "COMMA",
            SyntaxKind::L_BRACKET => "L_BRACKET",
            SyntaxKind::R_BRACKET => "R_BRACKET",
            SyntaxKind::L_BRACE => "L_BRACE",
            SyntaxKind::R_BRACE => "R_BRACE",
            SyntaxKind::ANCHOR => "ANCHOR",
            SyntaxKind::ALIAS => "ALIAS",
            SyntaxKind::TAG => "TAG",
            SyntaxKind::DIRECTIVE => "DIRECTIVE",
            SyntaxKind::DIRECTIVES_END => "DIRECTIVES_END",
            SyntaxKind::DOCUMENT_END => "DOCUMENT_END",
            SyntaxKind::ERROR => "ERROR",
            SyntaxKind::STREAM => "STREAM",
            SyntaxKind::DOCUMENT => "DOCUMENT",
            SyntaxKind::DIRECTIVES => "DIRECTIVES",
            SyntaxKind::BLOCK_MAPPING => "BLOCK_MAPPING",
            SyntaxKind::BLOCK_MAPPING_ENTRY => "BLOCK_MAPPING_ENTRY",
            SyntaxKind::BLOCK_SEQUENCE => "BLOCK_SEQUENCE",
            SyntaxKind::BLOCK_SEQUENCE_ENTRY => "BLOCK_SEQUENCE_ENTRY",
            SyntaxKind::FLOW_MAPPING => "FLOW_MAPPING",
            SyntaxKind::FLOW_MAPPING_ENTRY => "FLOW_MAPPING_ENTRY",
            SyntaxKind::FLOW_SEQUENCE => "FLOW_SEQUENCE",
            SyntaxKind::FLOW_SEQUENCE_ENTRY => "FLOW_SEQUENCE_ENTRY",
            SyntaxKind::SCALAR => "SCALAR",
            SyntaxKind::NULL_SCALAR => "NULL_SCALAR",
            SyntaxKind::ALIAS_NODE => "ALIAS_NODE",
            SyntaxKind::NODE_PROPERTIES => "NODE_PROPERTIES",
            SyntaxKind::__LAST => "__LAST",
        }
    }
}

/// The kind that a number stands for.
pub open spec fn kind_of(raw: u16) -> Option<SyntaxKind> {
    match raw {
        0 => Some(SyntaxKind::WHITESPACE),
        1 => Some(SyntaxKind::NEWLINE),
        2 => Some(SyntaxKind::COMMENT),
        3 => Some(SyntaxKind::BOM),
        4 => Some(SyntaxKind::PLAIN_SCALAR),
        5 => Some(SyntaxKind::SINGLE_QUOTED_SCALAR),
        6 => Some(SyntaxKind::DOUBLE_QUOTED_SCALAR),
        7 => Some(SyntaxKind::LITERAL_SCALAR),
        8 => Some(SyntaxKind::FOLDED_SCALAR),
        9 => Some(SyntaxKind::COLON),
        10 => Some(SyntaxKind::DASH),
        11 => Some(SyntaxKind::QUESTION),
        12 => Some(SyntaxKind::COMMA),
        13 => Some(SyntaxKind::L_BRACKET),
        14 => Some(SyntaxKind::R_BRACKET),
        15 => Some(SyntaxKind::L_BRACE),
        16 => Some(SyntaxKind::R_BRACE),
        17 => Some(SyntaxKind::ANCHOR),
        18 => Some(SyntaxKind::ALIAS),
        19 => Some(SyntaxKind::TAG),
        20 => Some(SyntaxKind::DIRECTIVE),
        21 => Some(SyntaxKind::DIRECTIVES_END),
        22 => Some(SyntaxKind::DOCUMENT_END),
        23 => Some(SyntaxKind::ERROR),
        24 => Some(SyntaxKind::STREAM),
        25 => Some(SyntaxKind::DOCUMENT),
        26 => Some(SyntaxKind::DIRECTIVES),
        27 => Some(SyntaxKind::BLOCK_MAPPING),
        28 => Some(SyntaxKind::BLOCK_MAPPING_ENTRY),
        29 => Some(SyntaxKind::BLOCK_SEQUENCE),
        30 => Some(SyntaxKind::BLOCK_SEQUENCE_ENTRY),
        31 => Some(SyntaxKind::FLOW_MAPPING),
        32 => Some(SyntaxKind::FLOW_MAPPING_ENTRY),
        33 => Some(SyntaxKind::FLOW_SEQUENCE),
        34 => Some(SyntaxKind::FLOW_SEQUENCE_ENTRY),
        35 => Some(SyntaxKind::SCALAR),
        36 => Some(SyntaxKind::NULL_SCALAR),
        37 => Some(SyntaxKind::ALIAS_NODE),
        38 => Some(SyntaxKind::NODE_PROPERTIES),
        39 => Some(SyntaxKind::__LAST),
        _ => None,
    }
}

/// The language of the trees: how its kinds are numbered.
#[derive(Debug, Clone, Copy, PartialEq, Eq, PartialOrd, Ord, Hash)]
pub struct YamlLang;

impl YamlLang {
    /// The kind with the number `raw`, or `None` where there is no such kind.
    pub fn kind_from_raw(raw: u16) -> (r: Option<SyntaxKind>)
        ensures
            r == kind_of(raw),
    {
        match raw {
            0 => Some(SyntaxKind::WHITESPACE),
            1 => Some(SyntaxKind::NEWLINE),
            2 => Some(SyntaxKind::COMMENT),
            3 => Some(SyntaxKind::BOM),
            4 => Some(SyntaxKind::PLAIN_SCALAR),
            5 => Some(SyntaxKind::SINGLE_QUOTED_SCALAR),
            6 => Some(SyntaxKind::DOUBLE_QUOTED_SCALAR),
            7 => Some(SyntaxKind::LITERAL_SCALAR),
            8 => Some(SyntaxKind::FOLDED_SCALAR),
            9 => Some(SyntaxKind::COLON),
            10 => Some(SyntaxKind::DASH),
            11 => Some(SyntaxKind::QUESTION),
            12 => Some(SyntaxKind::COMMA),
            13 => Some(SyntaxKind::L_BRACKET),
            14 => Some(SyntaxKind::R_BRACKET),
            15 => Some(SyntaxKind::L_BRACE),
            16 => Some(SyntaxKind::R_BRACE),
            17 => Some(SyntaxKind::ANCHOR),
            18 => Some(SyntaxKind::ALIAS),
            19 => Some(SyntaxKind::TAG),
            20 => Some(SyntaxKind::DIRECTIVE),
            21 => Some(SyntaxKind::DIRECTIVES_END),
            22 => Some(SyntaxKind::DOCUMENT_END),
            23 => Some(SyntaxKind::ERROR),
            24 => Some(SyntaxKind::STREAM),
            25 => Some(SyntaxKind::DOCUMENT),
            26 => Some(SyntaxKind::DIRECTIVES),
            27 => Some(SyntaxKind::BLOCK_MAPPING),
            28 => Some(SyntaxKind::BLOCK_MAPPING_ENTRY),
            29 => Some(SyntaxKind::BLOCK_SEQUENCE),
            30 => Some(SyntaxKind::BLOCK_SEQUENCE_ENTRY),
            31 => Some(SyntaxKind::FLOW_MAPPING),
            32 => Some(SyntaxKind::FLOW_MAPPING_ENTRY),
            33 => Some(SyntaxKind::FLOW_SEQUENCE),
            34 => Some(SyntaxKind::FLOW_SEQUENCE_ENTRY),
            35 => Some(SyntaxKind::SCALAR),
            36 => Some(SyntaxKind::NULL_SCALAR),
            37 => Some(SyntaxKind::ALIAS_NODE),
            38 => Some(SyntaxKind::NODE_PROPERTIES),
            39 => Some(SyntaxKind::__LAST),
            _ => None,
        }
    }

    /// The number of `kind`.
    pub fn kind_to_raw(kind: SyntaxKind) -> (r: u16)
        ensures
            r == kind.code(),
    {
        kind.raw()
    }
}

/// Numbering a kind and reading the number back gives the kind.
pub broadcast proof fn lemma_kind_round_trip(kind: SyntaxKind)
    ensures
        kind_of(#[trigger] kind.code()) == Some(kind),
{
}

/// A number that stands for a kind is the number of that kind.
pub proof fn lemma_raw_round_trip(raw: u16)
    ensures
        kind_of(raw) is Some ==> kind_of(raw)->0.code() == raw,
{
}

} // verus!
