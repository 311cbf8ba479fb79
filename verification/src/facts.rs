//! The facts vocabulary, shared by every language and every rule.
//!
//! A language publishes facts for each file (definitions with their fields,
//! type references, directives, schema roots); the workspace view adds the
//! `path` of every definition and reference. Rules, native or sandboxed,
//! read this vocabulary and report [`Finding`]s.

use vstd::prelude::*;

verus! {

#[derive(Debug)]
pub struct FieldFact {
    pub name: String,
    pub span: [u32; 2],
    pub named_type: Option<String>,
    pub required: bool,
    pub directives: Vec<String>,
    pub subject: String,
}

#[derive(Debug)]
pub struct DefFact {
    pub kind: String,
    pub name: String,
    pub span: [u32; 2],
    pub subject: String,
    pub fields: Vec<FieldFact>,
    pub implements: Vec<String>,
    pub union_members: Vec<String>,
    pub enum_values: Vec<String>,
    pub directives: Vec<String>,
    /// Present only in the workspace (merged) view.
    pub path: Option<String>,
}

#[derive(Debug)]
pub struct UseFact {
    pub name: String,
    pub span: [u32; 2],
    /// Present only in the workspace (merged) view.
    pub path: Option<String>,
}

/// Facts for one file (the workspace view adds a `path` on defs and uses).
#[derive(Debug)]
pub struct Facts {
    pub defs: Vec<DefFact>,
    pub uses: Vec<UseFact>,
    pub directives_defined: Vec<String>,
    pub directives_used: Vec<String>,
    pub has_entry_block: bool,
    pub roots: Vec<(String, String)>,
}

impl Default for Facts {
    fn default() -> (r: Facts)
        ensures
            r.defs@.len() == 0,
            r.uses@.len() == 0,
            r.directives_defined@.len() == 0,
            r.directives_used@.len() == 0,
            !r.has_entry_block,
            r.roots@.len() == 0,
    {
        Facts {
            defs: Vec::new(),
            uses: Vec::new(),
            directives_defined: Vec::new(),
            directives_used: Vec::new(),
            has_entry_block: false,
            roots: Vec::new(),
        }
    }
}

/// A parse error a language module reports.
#[derive(Debug)]
pub struct GuestError {
    pub message: String,
    pub span: [u32; 2],
}

/// One finding of a rule module (`rule_id` defaults to the rule's own id
/// host-side, and so does `severity`).
#[derive(Debug)]
pub struct Finding {
    pub rule_id: Option<String>,
    pub severity: Option<String>,
    pub message: String,
    pub span: [u32; 2],
    pub subject: Option<String>,
    pub path: Option<String>,
}

impl Finding {
    /// A finding on `path` with `message` at `span` = `[start, end]` bytes.
    pub fn at(path: String, message: String, span: [u32; 2]) -> (r: Finding)
        ensures
            r.path == Some(path),
            r.message == message,
            r.span == span,
            r.rule_id is None,
            r.severity is None,
            r.subject is None,
    {
        Finding { rule_id: None, severity: None, message, span, subject: None, path: Some(path) }
    }

    /// Stable subject id for TODO baselines (`type:User.field:name`).
    pub fn subject(self, subject: String) -> (r: Finding)
        ensures
            r.subject == Some(subject),
            r.rule_id == self.rule_id,
            r.severity == self.severity,
            r.message == self.message,
            r.span == self.span,
            r.path == self.path,
    {
        let mut f = self;
        f.subject = Some(subject);
        f
    }

    /// Per-finding severity override (`error`, `warning` or `info`).
    pub fn severity(self, severity: String) -> (r: Finding)
        ensures
            r.severity == Some(severity),
            r.rule_id == self.rule_id,
            r.subject == self.subject,
            r.message == self.message,
            r.span == self.span,
            r.path == self.path,
    {
        let mut f = self;
        f.severity = Some(severity);
        f
    }
}

} // verus!

verus! {

pub struct FieldFactV {
    pub name: Seq<char>,
    pub span: (u32, u32),
    pub named_type: Option<Seq<char>>,
    pub required: bool,
    pub directives: Seq<Seq<char>>,
    pub subject: Seq<char>,
}

pub struct DefFactV {
    pub kind: Seq<char>,
    pub name: Seq<char>,
    pub span: (u32, u32),
    pub subject: Seq<char>,
    pub fields: Seq<FieldFactV>,
    pub implements: Seq<Seq<char>>,
    pub union_members: Seq<Seq<char>>,
    pub enum_values: Seq<Seq<char>>,
    pub directives: Seq<Seq<char>>,
    pub path: Option<Seq<char>>,
}

pub struct UseFactV {
    pub name: Seq<char>,
    pub span: (u32, u32),
    pub path: Option<Seq<char>>,
}

pub struct FactsV {
    pub defs: Seq<DefFactV>,
    pub uses: Seq<UseFactV>,
    pub directives_defined: Seq<Seq<char>>,
    pub directives_used: Seq<Seq<char>>,
    pub has_entry_block: bool,
    pub roots: Seq<(Seq<char>, Seq<char>)>,
}

pub open spec fn strs(s: Seq<String>) -> Seq<Seq<char>> {
    s.map_values(|x: String| x@)
}

pub open spec fn opt_text(o: Option<String>) -> Option<Seq<char>> {
    match o {
        Some(x) => Some(x@),
        None => None,
    }
}

pub open spec fn pair(a: [u32; 2]) -> (u32, u32) {
    (a@[0], a@[1])
}

impl FieldFact {
    pub open spec fn view(&self) -> FieldFactV {
        FieldFactV {
            name: self.name@,
            span: pair(self.span),
            named_type: opt_text(self.named_type),
            required: self.required,
            directives: strs(self.directives@),
            subject: self.subject@,
        }
    }
}

impl DefFact {
    pub open spec fn view(&self) -> DefFactV {
        DefFactV {
            kind: self.kind@,
            name: self.name@,
            span: pair(self.span),
            subject: self.subject@,
            fields: self.fields@.map_values(|f: FieldFact| f@),
            implements: strs(self.implements@),
            union_members: strs(self.union_members@),
            enum_values: strs(self.enum_values@),
            directives: strs(self.directives@),
            path: opt_text(self.path),
        }
    }
}

impl UseFact {
    pub open spec fn view(&self) -> UseFactV {
        UseFactV { name: self.name@, span: pair(self.span), path: opt_text(self.path) }
    }
}

pub open spec fn def_fact_views(s: Seq<DefFact>) -> Seq<DefFactV> {
    s.map_values(|d: DefFact| d@)
}

pub open spec fn use_fact_views(s: Seq<UseFact>) -> Seq<UseFactV> {
    s.map_values(|u: UseFact| u@)
}

pub open spec fn pair_views(s: Seq<(String, String)>) -> Seq<(Seq<char>, Seq<char>)> {
    s.map_values(|p: (String, String)| (p.0@, p.1@))
}

impl Facts {
    pub open spec fn view(&self) -> FactsV {
        FactsV {
            defs: def_fact_views(self.defs@),
            uses: use_fact_views(self.uses@),
            directives_defined: strs(self.directives_defined@),
            directives_used: strs(self.directives_used@),
            has_entry_block: self.has_entry_block,
            roots: pair_views(self.roots@),
        }
    }
}

pub struct FindingV {
    pub rule_id: Option<Seq<char>>,
    pub severity: Option<Seq<char>>,
    pub message: Seq<char>,
    pub span: (u32, u32),
    pub subject: Option<Seq<char>>,
    pub path: Option<Seq<char>>,
}

impl Finding {
    pub open spec fn view(&self) -> FindingV {
        FindingV {
            rule_id: opt_text(self.rule_id),
            severity: opt_text(self.severity),
            message: self.message@,
            span: pair(self.span),
            subject: opt_text(self.subject),
            path: opt_text(self.path),
        }
    }
}

pub open spec fn finding_views(s: Seq<Finding>) -> Seq<FindingV> {
    s.map_values(|f: Finding| f@)
}

/// A finding on `path` at `span` with `message` and `subject`.
pub open spec fn finding_at(path: Seq<char>, message: Seq<char>, span: (u32, u32), subject: Seq<char>) -> FindingV {
    FindingV { rule_id: None, severity: None, message, span, subject: Some(subject), path: Some(path) }
}

/// The framed result a guest export returns for a JSON text: its UTF-8
/// bytes after their little-endian `u32` length.
pub fn write_json(json: &str) -> (r: Vec<u8>)
    requires
        vstd::utf8::encode_utf8(json@).len() <= u32::MAX,
    ensures
        r@ == crate::wasm::session::framed(vstd::utf8::encode_utf8(json@)),
{
    let b = json.as_bytes();
    crate::wasm::session::frame(b)
}

} // verus!
