//! A file that a script works on. Reading and parsing wait until the script
//! first asks for the document.

use vstd::prelude::*;
use vstd::string::*;
use vstd::utf8::*;

use crate::grammar;
use crate::parser::parse;
use crate::scripting::cursor::message;
use crate::syntax::green::MAX_LEN;
use crate::syntax::tree::SyntaxTree;
use crate::text;
use crate::text::{chars_of, same_text, string_of};

verus! {

/// A file: its path as it is shown, its text once it was read, and its tree once
/// it was parsed.
pub struct YamlFile {
    pub path: String,
    pub source: Option<String>,
    pub tree: Option<SyntaxTree>,
}

/// The text of an optional string.
pub open spec fn opt_text(s: Option<String>) -> Option<Seq<char>> {
    match s {
        Some(s) => Some(s@),
        None => None,
    }
}

/// Whether reading is owed: nothing was read yet.
pub open spec fn unread(f: YamlFile) -> bool {
    f.source is None
}

impl YamlFile {
    /// The tree, where there is one, is well-formed.
    pub open spec fn wf(self) -> bool {
        self.tree is Some ==> self.tree->0.wf()
    }

    /// A file with its text.
    pub fn new(path: String, source: String) -> (r: YamlFile)
        ensures
            r.wf(),
            r.path == path,
            r.source == Some(source),
            r.tree is None,
    {
        YamlFile { path, source: Some(source), tree: None }
    }

    /// A file that is read when it is first asked for.
    pub fn lazy(path: String) -> (r: YamlFile)
        ensures
            r.wf(),
            r.path == path,
            r.source is None,
            r.tree is None,
    {
        YamlFile { path, source: None, tree: None }
    }

    /// Whether the text has yet to be read.
    pub fn needs_source(&self) -> (r: bool)
        ensures
            r == unread(*self),
    {
        self.source.is_none()
    }

    /// Keeps the text that was read, unless there is one.
    pub fn supply_source(&mut self, source: String)
        requires
            old(self).wf(),
        ensures
            final(self).wf(),
            final(self).path == old(self).path,
            final(self).tree == old(self).tree,
            final(self).source == (if old(self).source is Some {
                old(self).source
            } else {
                Some(source)
            }),
    {
        if self.source.is_none() {
            self.source = Some(source);
        }
    }

    /// Parses the text, unless there is a tree.
    pub fn ensure_parsed(&mut self) -> (r: Result<(), String>)
        requires
            old(self).wf(),
            old(self).source is Some ==> encode_utf8(old(self).source->0@).len() <= MAX_LEN,
        ensures
            final(self).wf(),
            final(self).path == old(self).path,
            final(self).source == old(self).source,
            match (old(self).tree, old(self).source) {
                (Some(_), _) => r is Ok && final(self).tree == old(self).tree,
                (None, None) => r is Err && final(self).tree is None && r->Err_0@ == "file "@
                    + old(self).path@ + " has no source available"@,
                (None, Some(s)) => match grammar::stream(encode_utf8(s@)).fault {
                    None => r is Ok && final(self).tree is Some && seq![final(self).tree->0@]
                        == grammar::stream(encode_utf8(s@)).elems && final(self).tree->0@.text()
                        == s@,
                    Some(f) => r is Err && final(self).tree is None && r->Err_0@
                        == "parse error in "@ + old(self).path@ + ": "@ + f.message
                        + " at byte "@ + text::decimal(f.offset as nat),
                },
            },
    {
        if self.tree.is_some() {
            return Ok(());
        }
        let parsed = match &self.source {
            Some(s) => parse(s.as_str()),
            None => {
                let head = message("file ", self.path.as_str());
                return Err(message(head.as_str(), " has no source available"));
            },
        };
        match parsed {
            Ok(t) => {
                self.tree = Some(t);
                Ok(())
            },
            Err(e) => {
                let mut r = message("parse error in ", self.path.as_str());
                r.push_str(": ");
                let ghost head = r@;
                r.push_str(e.to_text().as_str());
                assert(r@ =~= head + e@.message + " at byte "@ + text::decimal(e@.offset as nat));
                Err(r)
            },
        }
    }

    /// The path as it is shown.
    pub fn path_str(&self) -> (r: &str)
        ensures
            r@ == self.path@,
    {
        self.path.as_str()
    }

    /// The text as it was read.
    pub fn source_snapshot(&self) -> (r: Option<String>)
        ensures
            opt_text(r) == opt_text(self.source),
    {
        match &self.source {
            Some(s) => Some(string_of(&chars_of(s.as_str()))),
            None => None,
        }
    }

    /// The text of the tree as it is now.
    pub fn take_new_source(&self) -> (r: Option<String>)
        ensures
            match self.tree {
                Some(t) => r is Some && r->0@ == t@.text(),
                None => r is None,
            },
    {
        match &self.tree {
            Some(t) => Some(t.emit()),
            None => None,
        }
    }

    /// Whether the file was parsed and its tree no longer has the text that was
    /// read.
    pub fn changed(&self) -> (r: bool)
        ensures
            r == (self.tree is Some && self.source is Some && self.tree->0@.text()
                != self.source->0@),
    {
        match (&self.tree, &self.source) {
            (Some(t), Some(s)) => !same_text(t.emit().as_str(), s.as_str()),
            _ => false,
        }
    }
}

} // verus!
