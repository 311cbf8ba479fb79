//! The GraphQL language plugin: parses `.graphql` / `.gql` files and builds
//! the capabilities rules read.
//!
//! Capabilities:
//!   - `graphql.ast` (file)      — the typed `Document` (native rules)
//!   - `graphql.facts` (file)    — the facts view (WASM rules)
//!   - `graphql.schema` (wks)    — the typed `SchemaModel` (native rules)
//!   - `graphql.workspace` (wks) — the cross-file facts view (WASM rules)

use crate::diagnostic::{Diagnostic, SourceId};
use crate::facts::Facts;
use crate::graphql::ast::{DefV, Document};
use crate::graphql::facts::{file_facts, file_facts_spec, workspace_facts, workspace_facts_spec};
use crate::graphql::lexer::fits_source;
use crate::graphql::model::{all_defs, build_model, doc_views, models, SchemaModel};
use crate::graphql::parser::{parse_document_spec, parse_error_diag, parse_for};
use crate::plugin::{Capability, CapabilityScope};
use vstd::prelude::*;

verus! {

/// At most this many parse errors are kept per file.
pub const MAX_PARSE_ERRORS: usize = 50;

/// What parsing one file yields: the document, its parse errors (at most
/// `MAX_PARSE_ERRORS`), and its facts view.
pub struct ParsedGraphql {
    pub doc: Document,
    pub errors: Vec<Diagnostic>,
    pub facts: Facts,
}

/// The GraphQL language plugin.
pub struct GraphqlPlugin;

/// A source is parsed when its byte offsets fit `u32` spans.
pub open spec fn parsable(text: Seq<char>) -> bool {
    fits_source(text)
}

impl GraphqlPlugin {
    pub fn id(&self) -> (r: &'static str)
        ensures
            r@ == "graphql"@,
    {
        "graphql"
    }

    pub fn describe(&self) -> (r: &'static str)
        ensures
            r@ == "GraphQL SDL parser, AST and facts model (crate omni-graphql)"@,
    {
        "GraphQL SDL parser, AST and facts model (crate omni-graphql)"
    }

    /// The file extensions the plugin claims.
    pub fn extensions(&self) -> (r: Vec<&'static str>)
        ensures
            r@.len() == 2,
            r@[0]@ == "graphql"@,
            r@[1]@ == "gql"@,
    {
        let mut v: Vec<&'static str> = Vec::new();
        v.push("graphql");
        v.push("gql");
        v
    }

    pub fn capabilities(&self) -> (r: Vec<Capability>)
        ensures
            r@.len() == 4,
            r@[0].name@ == "graphql.ast"@ && r@[0].scope == CapabilityScope::File,
            r@[1].name@ == "graphql.facts"@ && r@[1].scope == CapabilityScope::File,
            r@[2].name@ == "graphql.schema"@ && r@[2].scope == CapabilityScope::Workspace,
            r@[3].name@ == "graphql.workspace"@ && r@[3].scope == CapabilityScope::Workspace,
    {
        let mut v: Vec<Capability> = Vec::new();
        v.push(Capability { name: "graphql.ast", scope: CapabilityScope::File });
        v.push(Capability { name: "graphql.facts", scope: CapabilityScope::File });
        v.push(Capability { name: "graphql.schema", scope: CapabilityScope::Workspace });
        v.push(Capability { name: "graphql.workspace", scope: CapabilityScope::Workspace });
        v
    }

    /// Parse one SDL file: its document, its first `MAX_PARSE_ERRORS` parse
    /// errors, and its facts. Files parse independently; cross-file linking
    /// happens in `build_workspace`. `None` when the source is too long for
    /// `u32` offsets (the engine holds no such source).
    pub fn parse_file(&self, source_id: SourceId, text: &str) -> (r: Option<ParsedGraphql>)
        ensures
            r is Some <==> parsable(text@),
            r matches Some(p) ==> {
                let (doc, errs) = parse_document_spec(text@);
                &&& p.doc@ == doc
                &&& p.errors@.len() == if errs.len() < 50 { errs.len() } else { 50 }
                &&& forall|i: int| 0 <= i < p.errors@.len() ==> parse_error_diag(source_id, errs[i], #[trigger] p.errors@[i])
                &&& p.facts@ == file_facts_spec(doc)
            },
    {
        if text.as_bytes().len() >= 0xFFFF_FFF0 {
            return None;
        }
        let (doc, mut errors) = parse_for(source_id, text);
        errors.truncate(MAX_PARSE_ERRORS);
        let facts = file_facts(&doc);
        Some(ParsedGraphql { doc, errors, facts })
    }

    /// The workspace capabilities: the schema model of every parsed document
    /// and its cross-file facts view (`path_of` gives each file's path).
    pub fn build_workspace(&self, docs: &Vec<(SourceId, &Document)>, path_of: &Vec<(SourceId, String)>) -> (r: (SchemaModel, Facts))
        ensures
            r.0.wf(),
            models(r.0, all_defs(doc_views(docs@))),
            r.1@ == workspace_facts_spec(r.0, path_of@),
    {
        let model = build_model(docs);
        let facts = workspace_facts(&model, path_of);
        (model, facts)
    }
}

} // verus!
