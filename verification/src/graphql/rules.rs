//! The GraphQL rules. File rules read the parsed documents (`graphql.ast`);
//! workspace rules read the schema model (`graphql.schema`). Each rule gives
//! its metadata and the findings it reports, in the order it reports them.

use crate::diagnostic::{diag, diag_views, plain_diag, DiagV, Diagnostic, RelatedSpan, RelatedV, Severity, SourceId, Span};
use crate::graphql::ast::{Def, DefKind, DefV, Document, FieldV};
use crate::graphql::model::{all_defs, builtin, def_ref_views, doc_views, flat_defs, is_builtin, SchemaModel, TypeEntry};
use crate::plugin::RuleMeta;
use crate::text::{chars_of, decimal, is_alnum_c, is_lower_c, is_upper_c, push_decimal, push_str, string_of};
use vstd::prelude::*;

verus! {

// ---------------------------------------------------------------------------
// Naming conventions
// ---------------------------------------------------------------------------

/// A character that may follow the first one in a conventional name.
pub open spec fn word_char(c: char) -> bool {
    is_alnum_c(c) || c == '_'
}

/// PascalCase: an ASCII upper-case letter, then ASCII letters, digits and `_`.
pub open spec fn pascal(s: Seq<char>) -> bool {
    &&& s.len() > 0
    &&& is_upper_c(s[0])
    &&& forall|i: int| 1 <= i < s.len() ==> word_char(#[trigger] s[i])
}

/// camelCase: an ASCII lower-case letter, then ASCII letters, digits and `_`.
pub open spec fn camel(s: Seq<char>) -> bool {
    &&& s.len() > 0
    &&& is_lower_c(s[0])
    &&& forall|i: int| 1 <= i < s.len() ==> word_char(#[trigger] s[i])
}

fn word_tail(v: &Vec<char>) -> (r: bool)
    ensures
        r == forall|i: int| 1 <= i < v@.len() ==> word_char(#[trigger] v@[i]),
{
    let mut i: usize = 1;
    while i < v.len()
        invariant
            1 <= i,
            forall|j: int| 1 <= j < i && j < v@.len() ==> word_char(#[trigger] v@[j]),
        decreases v@.len() - i,
    {
        let c = v[i];
        let ok = ('a' <= c && c <= 'z') || ('A' <= c && c <= 'Z') || ('0' <= c && c <= '9') || c == '_';
        if !ok {
            assert(!word_char(v@[i as int]));
            return false;
        }
        i = i + 1;
    }
    true
}

pub fn is_pascal_case(s: &str) -> (r: bool)
    ensures
        r == pascal(s@),
{
    let v = chars_of(s);
    if v.len() == 0 {
        return false;
    }
    let c = v[0];
    if !('A' <= c && c <= 'Z') {
        return false;
    }
    word_tail(&v)
}

pub fn is_camel_case(s: &str) -> (r: bool)
    ensures
        r == camel(s@),
{
    let v = chars_of(s);
    if v.len() == 0 {
        return false;
    }
    let c = v[0];
    if !('a' <= c && c <= 'z') {
        return false;
    }
    word_tail(&v)
}

// ---------------------------------------------------------------------------
// File rules
// ---------------------------------------------------------------------------

/// What a per-definition check reports over all definitions, in order.
pub open spec fn over_defs(defs: Seq<(SourceId, DefV)>, f: spec_fn(SourceId, DefV) -> Seq<DiagV>) -> Seq<DiagV>
    decreases defs.len(),
{
    if defs.len() == 0 {
        seq![]
    } else {
        over_defs(defs.drop_last(), f) + f(defs.last().0, defs.last().1)
    }
}

proof fn lemma_over_defs_step(defs: Seq<(SourceId, DefV)>, i: int, f: spec_fn(SourceId, DefV) -> Seq<DiagV>)
    requires
        0 <= i < defs.len(),
    ensures
        over_defs(defs.subrange(0, i + 1), f) == over_defs(defs.subrange(0, i), f) + f(defs[i].0, defs[i].1),
{
    assert(defs.subrange(0, i + 1).drop_last() =~= defs.subrange(0, i));
}

/// `type:` followed by the name: the subject of a definition.
pub open spec fn type_subject(name: Seq<char>) -> Seq<char> {
    "type:"@ + name
}

fn type_subject_of(name: &String) -> (r: String)
    ensures
        r@ == type_subject(name@),
{
    let mut s = string_of("type:");
    push_str(&mut s, name.as_str());
    s
}

/// `pre`, the name, then `post`.
fn wrap_name(pre: &str, name: &str, post: &str) -> (r: String)
    ensures
        r@ == pre@ + name@ + post@,
{
    let mut s = string_of(pre);
    push_str(&mut s, name);
    push_str(&mut s, post);
    s
}

/// The emptiness finding of one definition, if any.
pub open spec fn empty_finding(s: SourceId, d: DefV) -> Seq<DiagV> {
    let id = "graphql/no-empty-type"@;
    if Def::fielded(d.kind) && d.fields.len() == 0 {
        seq![plain_diag(id, Severity::Error, s, d.name_span, "type `"@ + d.name + "` is empty; it must define at least one field"@, Some(type_subject(d.name)))]
    } else if d.kind == DefKind::Union && d.union_members.len() == 0 {
        seq![plain_diag(id, Severity::Error, s, d.name_span, "union `"@ + d.name + "` is empty; it must have at least one member"@, Some(type_subject(d.name)))]
    } else if d.kind == DefKind::Enum && d.enum_values.len() == 0 {
        seq![plain_diag(id, Severity::Error, s, d.name_span, "enum `"@ + d.name + "` is empty; it must have at least one value"@, Some(type_subject(d.name)))]
    } else {
        seq![]
    }
}

/// The naming finding of one definition, if any (schema blocks and
/// directive definitions are not types and are left out).
pub open spec fn pascal_finding(s: SourceId, d: DefV) -> Seq<DiagV> {
    if d.kind == DefKind::Schema || d.kind == DefKind::Directive || pascal(d.name) {
        seq![]
    } else {
        seq![plain_diag("graphql/type-name-pascal"@, Severity::Warning, s, d.name_span, "type name `"@ + d.name + "` must be PascalCase"@, Some(type_subject(d.name)))]
    }
}

/// The naming findings of the fields of one definition, in order.
pub open spec fn camel_fields(s: SourceId, owner: Seq<char>, fields: Seq<FieldV>) -> Seq<DiagV>
    decreases fields.len(),
{
    if fields.len() == 0 {
        seq![]
    } else {
        let f = fields.last();
        camel_fields(s, owner, fields.drop_last()) + if camel(f.name) {
            seq![]
        } else {
            seq![plain_diag(
                "graphql/field-name-camel"@,
                Severity::Warning,
                s,
                f.name_span,
                "field name `"@ + f.name + "` on `"@ + owner + "` must be camelCase"@,
                Some(type_subject(owner) + ".field:"@ + f.name),
            )]
        }
    }
}

pub open spec fn camel_finding(s: SourceId, d: DefV) -> Seq<DiagV> {
    if Def::fielded(d.kind) {
        camel_fields(s, d.name, d.fields)
    } else {
        seq![]
    }
}

fn empty_def_findings(s: SourceId, d: &Def) -> (r: Vec<Diagnostic>)
    ensures
        diag_views(r@) == empty_finding(s, d@),
{
    let mut out: Vec<Diagnostic> = Vec::new();
    let msg: Option<String> = if d.is_fielded() && d.fields.len() == 0 {
        Some(wrap_name("type `", d.name.as_str(), "` is empty; it must define at least one field"))
    } else if d.kind == DefKind::Union && d.union_members.len() == 0 {
        Some(wrap_name("union `", d.name.as_str(), "` is empty; it must have at least one member"))
    } else if d.kind == DefKind::Enum && d.enum_values.len() == 0 {
        Some(wrap_name("enum `", d.name.as_str(), "` is empty; it must have at least one value"))
    } else {
        None
    };
    match msg {
        Some(m) => {
            out.push(diag("graphql/no-empty-type", Severity::Error, s, d.name_span, m, Some(type_subject_of(&d.name))));
        },
        None => {},
    }
    assert(diag_views(out@) =~= empty_finding(s, d@));
    out
}

fn pascal_def_findings(s: SourceId, d: &Def) -> (r: Vec<Diagnostic>)
    ensures
        diag_views(r@) == pascal_finding(s, d@),
{
    let mut out: Vec<Diagnostic> = Vec::new();
    if d.kind != DefKind::Schema && d.kind != DefKind::Directive && !is_pascal_case(d.name.as_str()) {
        let m = wrap_name("type name `", d.name.as_str(), "` must be PascalCase");
        out.push(diag("graphql/type-name-pascal", Severity::Warning, s, d.name_span, m, Some(type_subject_of(&d.name))));
    }
    assert(diag_views(out@) =~= pascal_finding(s, d@));
    out
}

fn camel_def_findings(s: SourceId, d: &Def) -> (r: Vec<Diagnostic>)
    ensures
        diag_views(r@) == camel_finding(s, d@),
{
    let mut out: Vec<Diagnostic> = Vec::new();
    if !d.is_fielded() {
        assert(diag_views(out@) =~= camel_finding(s, d@));
        return out;
    }
    let ghost fs = d@.fields;
    let mut k: usize = 0;
    assert(fs.subrange(0, 0) =~= Seq::<FieldV>::empty());
    while k < d.fields.len()
        invariant
            k <= d.fields@.len(),
            fs == d@.fields,
            fs.len() == d.fields@.len(),
            diag_views(out@) == camel_fields(s, d@.name, fs.subrange(0, k as int)),
        decreases d.fields@.len() - k,
    {
        let f = &d.fields[k];
        assert(fs[k as int] == f@);
        assert(fs.subrange(0, k + 1).drop_last() =~= fs.subrange(0, k as int));
        let ghost before = diag_views(out@);
        if !is_camel_case(f.name.as_str()) {
            let mut m = wrap_name("field name `", f.name.as_str(), "` on `");
            push_str(&mut m, d.name.as_str());
            push_str(&mut m, "` must be camelCase");
            let mut subject = type_subject_of(&d.name);
            push_str(&mut subject, ".field:");
            push_str(&mut subject, f.name.as_str());
            let x = diag("graphql/field-name-camel", Severity::Warning, s, f.name_span, m, Some(subject));
            out.push(x);
            assert(diag_views(out@) =~= before.push(x@));
        }
        assert(diag_views(out@) =~= camel_fields(s, d@.name, fs.subrange(0, k + 1)));
        k = k + 1;
    }
    assert(fs.subrange(0, k as int) =~= fs);
    out
}

/// `graphql/no-empty-type`: object, interface, input, union and enum
/// definitions must not be empty.
pub struct NoEmptyType;

/// `graphql/type-name-pascal`: definition names must be PascalCase.
pub struct TypeNamePascal;

/// `graphql/field-name-camel`: field names of objects, interfaces and inputs
/// must be camelCase.
pub struct FieldNameCamel;

impl NoEmptyType {
    pub fn meta(&self) -> (r: RuleMeta)
        ensures
            r.id@ == "graphql/no-empty-type"@,
            r.default_severity == Severity::Error,
            r.requires@ == "graphql.ast"@,
            r.description@ == "Object, interface, input and union definitions must not be empty."@,
    {
        RuleMeta {
            id: "graphql/no-empty-type",
            description: "Object, interface, input and union definitions must not be empty.",
            default_severity: Severity::Error,
            requires: "graphql.ast",
        }
    }

    /// The findings over the documents, in file and definition order.
    pub fn run(&self, docs: &Vec<(SourceId, &Document)>) -> (r: Vec<Diagnostic>)
        ensures
            diag_views(r@) == over_defs(all_defs(doc_views(docs@)), |s: SourceId, d: DefV| empty_finding(s, d)),
    {
        let defs = flat_defs(docs);
        let ghost f = |s: SourceId, d: DefV| empty_finding(s, d);
        let ghost v = def_ref_views(defs@);
        let mut out: Vec<Diagnostic> = Vec::new();
        let mut i: usize = 0;
        assert(v.subrange(0, 0) =~= Seq::<(SourceId, DefV)>::empty());
        while i < defs.len()
            invariant
                i <= defs@.len(),
                v == def_ref_views(defs@),
                forall|a: SourceId, b: DefV| #[trigger] f(a, b) == empty_finding(a, b),
                diag_views(out@) == over_defs(v.subrange(0, i as int), f),
            decreases defs@.len() - i,
        {
            let (s, d) = defs[i];
            let mut more = empty_def_findings(s, d);
            proof {
                lemma_over_defs_step(v, i as int, f);
                assert(v[i as int] == (s, d@));
                assert(f(s, d@) == empty_finding(s, d@));
            }
            let ghost before = out@;
            let ghost added = more@;
            out.append(&mut more);
            assert(out@ =~= before + added);
            assert(diag_views(out@) =~= diag_views(before) + diag_views(added));
            i = i + 1;
        }
        assert(v.subrange(0, i as int) =~= v);
        out
    }
}

impl TypeNamePascal {
    pub fn meta(&self) -> (r: RuleMeta)
        ensures
            r.id@ == "graphql/type-name-pascal"@,
            r.default_severity == Severity::Warning,
            r.requires@ == "graphql.ast"@,
            r.description@ == "Type names must be PascalCase."@,
    {
        RuleMeta {
            id: "graphql/type-name-pascal",
            description: "Type names must be PascalCase.",
            default_severity: Severity::Warning,
            requires: "graphql.ast",
        }
    }

    /// The findings over the documents, in file and definition order.
    pub fn run(&self, docs: &Vec<(SourceId, &Document)>) -> (r: Vec<Diagnostic>)
        ensures
            diag_views(r@) == over_defs(all_defs(doc_views(docs@)), |s: SourceId, d: DefV| pascal_finding(s, d)),
    {
        let defs = flat_defs(docs);
        let ghost f = |s: SourceId, d: DefV| pascal_finding(s, d);
        let ghost v = def_ref_views(defs@);
        let mut out: Vec<Diagnostic> = Vec::new();
        let mut i: usize = 0;
        assert(v.subrange(0, 0) =~= Seq::<(SourceId, DefV)>::empty());
        while i < defs.len()
            invariant
                i <= defs@.len(),
                v == def_ref_views(defs@),
                forall|a: SourceId, b: DefV| #[trigger] f(a, b) == pascal_finding(a, b),
                diag_views(out@) == over_defs(v.subrange(0, i as int), f),
            decreases defs@.len() - i,
        {
            let (s, d) = defs[i];
            let mut more = pascal_def_findings(s, d);
            proof {
                lemma_over_defs_step(v, i as int, f);
                assert(v[i as int] == (s, d@));
                assert(f(s, d@) == pascal_finding(s, d@));
            }
            let ghost before = out@;
            let ghost added = more@;
            out.append(&mut more);
            assert(out@ =~= before + added);
            assert(diag_views(out@) =~= diag_views(before) + diag_views(added));
            i = i + 1;
        }
        assert(v.subrange(0, i as int) =~= v);
        out
    }
}

impl FieldNameCamel {
    pub fn meta(&self) -> (r: RuleMeta)
        ensures
            r.id@ == "graphql/field-name-camel"@,
            r.default_severity == Severity::Warning,
            r.requires@ == "graphql.ast"@,
            r.description@ == "Field names must be camelCase."@,
    {
        RuleMeta {
            id: "graphql/field-name-camel",
            description: "Field names must be camelCase.",
            default_severity: Severity::Warning,
            requires: "graphql.ast",
        }
    }

    /// The findings over the documents, in file, definition and field order.
    pub fn run(&self, docs: &Vec<(SourceId, &Document)>) -> (r: Vec<Diagnostic>)
        ensures
            diag_views(r@) == over_defs(all_defs(doc_views(docs@)), |s: SourceId, d: DefV| camel_finding(s, d)),
    {
        let defs = flat_defs(docs);
        let ghost f = |s: SourceId, d: DefV| camel_finding(s, d);
        let ghost v = def_ref_views(defs@);
        let mut out: Vec<Diagnostic> = Vec::new();
        let mut i: usize = 0;
        assert(v.subrange(0, 0) =~= Seq::<(SourceId, DefV)>::empty());
        while i < defs.len()
            invariant
                i <= defs@.len(),
                v == def_ref_views(defs@),
                forall|a: SourceId, b: DefV| #[trigger] f(a, b) == camel_finding(a, b),
                diag_views(out@) == over_defs(v.subrange(0, i as int), f),
            decreases defs@.len() - i,
        {
            let (s, d) = defs[i];
            let mut more = camel_def_findings(s, d);
            proof {
                lemma_over_defs_step(v, i as int, f);
                assert(v[i as int] == (s, d@));
                assert(f(s, d@) == camel_finding(s, d@));
            }
            let ghost before = out@;
            let ghost added = more@;
            out.append(&mut more);
            assert(out@ =~= before + added);
            assert(diag_views(out@) =~= diag_views(before) + diag_views(added));
            i = i + 1;
        }
        assert(v.subrange(0, i as int) =~= v);
        out
    }
}

// ---------------------------------------------------------------------------
// Workspace rules
// ---------------------------------------------------------------------------

/// The file recorded for the `i`-th reference to `n`.
pub open spec fn use_source(m: SchemaModel, n: Seq<char>, i: int) -> SourceId {
    match m.used_files.spec_get(n) {
        Some(fs) => fs[i],
        None => SourceId(0),
    }
}

/// The findings for references to types that are neither built in nor
/// defined: one per reference, in name order, then reference order.
pub open spec fn undefined_findings(used: Seq<(String, Vec<Span>)>, m: SchemaModel) -> Seq<DiagV>
    decreases used.len(),
{
    if used.len() == 0 {
        seq![]
    } else {
        let name = used.last().0@;
        let spans = used.last().1@;
        undefined_findings(used.drop_last(), m) + if builtin(name) || m.types.spec_get(name) is Some {
            seq![]
        } else {
            Seq::new(
                spans.len(),
                |i: int|
                    plain_diag(
                        "graphql/no-undefined-type"@,
                        Severity::Error,
                        use_source(m, name, i),
                        spans[i],
                        "type `"@ + name + "` is used but not defined in the schema"@,
                        Some("type-ref:"@ + name),
                    ),
            )
        }
    }
}

/// The root type of each root operation (the last one given for it).
pub open spec fn root_names(roots: Seq<(String, Vec<String>)>) -> Seq<Seq<char>> {
    roots.map_values(|p: (String, Vec<String>)| p.1@.last()@)
}

/// The findings for defined types that are neither roots nor referenced:
/// one per definition.
pub open spec fn unused_type_findings(types: Seq<(String, Vec<TypeEntry>)>, m: SchemaModel) -> Seq<DiagV>
    decreases types.len(),
{
    if types.len() == 0 {
        seq![]
    } else {
        let name = types.last().0@;
        let es = types.last().1@;
        unused_type_findings(types.drop_last(), m) + if root_names(m.roots.entries@).contains(name) || name == "schema"@
            || m.used.spec_get(name) is Some {
            seq![]
        } else {
            Seq::new(
                es.len(),
                |k: int|
                    plain_diag(
                        "graphql/no-unused-type"@,
                        Severity::Info,
                        es[k].source,
                        es[k].name_span,
                        "type `"@ + name + "` is defined but never referenced"@,
                        Some(type_subject(name)),
                    ),
            )
        }
    }
}

/// The file of the first definition in name order (file 0 when there is none).
pub open spec fn first_source(m: SchemaModel) -> SourceId {
    if m.types.entries@.len() > 0 && m.types.entries@[0].1@.len() > 0 {
        m.types.entries@[0].1@[0].source
    } else {
        SourceId(0)
    }
}

/// Directives that the language defines itself.
pub open spec fn standard_directive(d: Seq<char>) -> bool {
    d == "skip"@ || d == "include"@ || d == "deprecated"@
}

/// The findings for defined directives never applied to a field.
pub open spec fn unused_directive_findings(ds: Seq<Seq<char>>, m: SchemaModel) -> Seq<DiagV>
    decreases ds.len(),
{
    if ds.len() == 0 {
        seq![]
    } else {
        let d = ds.last();
        unused_directive_findings(ds.drop_last(), m) + if m.used_directives.contains(d) || standard_directive(d) {
            seq![]
        } else {
            seq![plain_diag(
                "graphql/no-unused-type"@,
                Severity::Info,
                first_source(m),
                Span { start: 0, end: 0 },
                "directive `@"@ + d + "` is defined but never applied"@,
                Some("directive:"@ + d),
            )]
        }
    }
}

/// Unused types and directives; nothing without a schema block (the roots
/// would then be a guess).
pub open spec fn unused_findings(m: SchemaModel) -> Seq<DiagV> {
    if !m.has_schema_block {
        seq![]
    } else {
        unused_type_findings(m.types.entries@, m) + unused_directive_findings(crate::names::name_views(m.defined_directives.names@), m)
    }
}

/// The findings for required input fields marked `@deprecated`, in field order.
pub open spec fn deprecated_fields(e: TypeEntry, fields: Seq<crate::graphql::model::FieldEntry>) -> Seq<DiagV>
    decreases fields.len(),
{
    if fields.len() == 0 {
        seq![]
    } else {
        let f = fields.last();
        deprecated_fields(e, fields.drop_last()) + if f.required && crate::names::name_views(f.directives@).contains("deprecated"@) {
            seq![plain_diag(
                "graphql/deprecated-required-input"@,
                Severity::Error,
                e.source,
                f.name_span,
                "input field `"@ + e.name@ + "."@ + f.name@ + " "@ + f.named_type@ + "` is required so it cannot be deprecated"@,
                Some(f.subject@),
            )]
        } else {
            seq![]
        }
    }
}

pub open spec fn deprecated_entries(es: Seq<TypeEntry>) -> Seq<DiagV>
    decreases es.len(),
{
    if es.len() == 0 {
        seq![]
    } else {
        let e = es.last();
        deprecated_entries(es.drop_last()) + if e.kind == DefKind::Input {
            deprecated_fields(e, e.fields@)
        } else {
            seq![]
        }
    }
}

pub open spec fn deprecated_findings(types: Seq<(String, Vec<TypeEntry>)>) -> Seq<DiagV>
    decreases types.len(),
{
    if types.len() == 0 {
        seq![]
    } else {
        deprecated_findings(types.drop_last()) + deprecated_entries(types.last().1@)
    }
}

/// One finding per repeated definition of a name, at the first definition,
/// with the repeat as related location.
pub open spec fn duplicate_findings(types: Seq<(String, Vec<TypeEntry>)>) -> Seq<DiagV>
    decreases types.len(),
{
    if types.len() == 0 {
        seq![]
    } else {
        let name = types.last().0@;
        let es = types.last().1@;
        duplicate_findings(types.drop_last()) + if es.len() < 2 {
            seq![]
        } else {
            Seq::new(
                (es.len() - 1) as nat,
                |k: int|
                    DiagV {
                        rule_id: "graphql/duplicate-type"@,
                        severity: Severity::Error,
                        message: "type `"@ + name + "` is defined "@ + decimal(es.len()) + " times in the schema"@,
                        source_id: es[0].source,
                        span: es[0].name_span,
                        related: seq![RelatedV { message: "`"@ + name + "` also defined here"@, source_id: es[k + 1].source, span: es[k + 1].name_span }],
                        subject: Some(type_subject(name)),
                    },
            )
        }
    }
}

/// `graphql/no-undefined-type`: every referenced type must be defined.
pub struct NoUndefinedType;

/// `graphql/no-unused-type`: defined types never referenced (and not schema
/// roots) are dead code, and so are directives never applied.
pub struct NoUnusedType;

/// `graphql/deprecated-required-input`: required input fields must not be
/// deprecated.
pub struct DeprecatedRequiredInput;

/// `graphql/duplicate-type`: a type must be defined only once.
pub struct DuplicateType;

impl NoUndefinedType {
    pub fn meta(&self) -> (r: RuleMeta)
        ensures
            r.id@ == "graphql/no-undefined-type"@,
            r.default_severity == Severity::Error,
            r.requires@ == "graphql.schema"@,
            r.description@ == "Referenced types must be defined in the schema."@,
    {
        RuleMeta {
            id: "graphql/no-undefined-type",
            description: "Referenced types must be defined in the schema.",
            default_severity: Severity::Error,
            requires: "graphql.schema",
        }
    }

    pub fn run(&self, model: &SchemaModel) -> (r: Vec<Diagnostic>)
        requires
            model.wf(),
        ensures
            diag_views(r@) == undefined_findings(model.used.entries@, *model),
    {
        let mut out: Vec<Diagnostic> = Vec::new();
        let ghost all = model.used.entries@;
        let mut i: usize = 0;
        while i < model.used.entries.len()
            invariant
                i <= all.len(),
                all == model.used.entries@,
                model.wf(),
                diag_views(out@) == undefined_findings(all.subrange(0, i as int), *model),
            decreases all.len() - i,
        {
            let name = &model.used.entries[i].0;
            let spans = &model.used.entries[i].1;
            proof {
                crate::names::lemma_items_under_at(all, i as int);
                assert(model.used.spec_get(name@) == Some(spans@));
                assert(all.subrange(0, i + 1).drop_last() =~= all.subrange(0, i as int));
            }
            let ghost before = diag_views(out@);
            if !is_builtin(name.as_str()) && model.types.get(name.as_str()).is_none() {
                let ghost part = Seq::new(
                    spans@.len(),
                    |q: int|
                        plain_diag(
                            "graphql/no-undefined-type"@,
                            Severity::Error,
                            use_source(*model, name@, q),
                            spans@[q],
                            "type `"@ + name@ + "` is used but not defined in the schema"@,
                            Some("type-ref:"@ + name@),
                        ),
                );
                if let Some(fs) = model.used_files.get(name.as_str()) {
                    let mut j: usize = 0;
                    while j < spans.len()
                        invariant
                            j <= spans@.len(),
                            fs@.len() == spans@.len(),
                            model.used_files.spec_get(name@) == Some(fs@),
                            part.len() == spans@.len(),
                            forall|q: int| 0 <= q < spans@.len() ==> #[trigger] part[q] == plain_diag(
                                "graphql/no-undefined-type"@,
                                Severity::Error,
                                use_source(*model, name@, q),
                                spans@[q],
                                "type `"@ + name@ + "` is used but not defined in the schema"@,
                                Some("type-ref:"@ + name@),
                            ),
                            diag_views(out@) == before + part.subrange(0, j as int),
                        decreases spans@.len() - j,
                    {
                        let m = wrap_name("type `", name.as_str(), "` is used but not defined in the schema");
                        let mut subject = string_of("type-ref:");
                        push_str(&mut subject, name.as_str());
                        let x = diag("graphql/no-undefined-type", Severity::Error, fs[j], spans[j], m, Some(subject));
                        let ghost b2 = diag_views(out@);
                        out.push(x);
                        assert(diag_views(out@) =~= b2.push(x@));
                        assert(x@ == part[j as int]);
                        assert(diag_views(out@) =~= before + part.subrange(0, j + 1));
                        j = j + 1;
                    }
                    assert(part.subrange(0, j as int) =~= part);
                }
            } else {
                assert(diag_views(out@) =~= before + Seq::<DiagV>::empty());
            }
            i = i + 1;
        }
        assert(all.subrange(0, i as int) =~= all);
        out
    }
}

fn root_type_names(model: &SchemaModel) -> (r: Vec<String>)
    requires
        model.wf(),
    ensures
        crate::names::name_views(r@) == root_names(model.roots.entries@),
{
    let mut r: Vec<String> = Vec::new();
    let mut i: usize = 0;
    while i < model.roots.entries.len()
        invariant
            i <= model.roots.entries@.len(),
            model.wf(),
            crate::names::name_views(r@) == root_names(model.roots.entries@.subrange(0, i as int)),
        decreases model.roots.entries@.len() - i,
    {
        let vs = &model.roots.entries[i].1;
        assert(model.roots.entries@[i as int].1@.len() > 0);
        let last = vs[vs.len() - 1].clone();
        let ghost before = crate::names::name_views(r@);
        r.push(last);
        assert(crate::names::name_views(r@) =~= before.push(vs@.last()@));
        assert(root_names(model.roots.entries@.subrange(0, i + 1)) =~= root_names(model.roots.entries@.subrange(0, i as int)).push(vs@.last()@));
        i = i + 1;
    }
    assert(model.roots.entries@.subrange(0, i as int) =~= model.roots.entries@);
    r
}

fn contains_name(v: &Vec<String>, n: &str) -> (r: bool)
    ensures
        r == crate::names::name_views(v@).contains(n@),
{
    let mut k: usize = 0;
    while k < v.len()
        invariant
            k <= v@.len(),
            forall|j: int| 0 <= j < k ==> (#[trigger] v@[j])@ != n@,
        decreases v@.len() - k,
    {
        if crate::text::str_eq(v[k].as_str(), n) {
            assert(crate::names::name_views(v@)[k as int] == n@);
            return true;
        }
        k = k + 1;
    }
    assert(!crate::names::name_views(v@).contains(n@)) by {
        if crate::names::name_views(v@).contains(n@) {
            let j = choose|j: int| 0 <= j < crate::names::name_views(v@).len() && crate::names::name_views(v@)[j] == n@;
            assert(v@[j]@ == n@);
        }
    }
    false
}

fn first_source_of(model: &SchemaModel) -> (r: SourceId)
    ensures
        r == first_source(*model),
{
    if model.types.entries.len() > 0 && model.types.entries[0].1.len() > 0 {
        model.types.entries[0].1[0].source
    } else {
        SourceId(0)
    }
}

impl NoUnusedType {
    pub fn meta(&self) -> (r: RuleMeta)
        ensures
            r.id@ == "graphql/no-unused-type"@,
            r.default_severity == Severity::Info,
            r.requires@ == "graphql.schema"@,
            r.description@ == "Types not referenced anywhere and not schema roots are dead code."@,
    {
        RuleMeta {
            id: "graphql/no-unused-type",
            description: "Types not referenced anywhere and not schema roots are dead code.",
            default_severity: Severity::Info,
            requires: "graphql.schema",
        }
    }

    pub fn run(&self, model: &SchemaModel) -> (r: Vec<Diagnostic>)
        requires
            model.wf(),
        ensures
            diag_views(r@) == unused_findings(*model),
    {
        let mut out: Vec<Diagnostic> = Vec::new();
        if !model.has_schema_block {
            assert(diag_views(out@) =~= Seq::<DiagV>::empty());
            return out;
        }
        let roots = root_type_names(model);
        let ghost all = model.types.entries@;
        let mut i: usize = 0;
        while i < model.types.entries.len()
            invariant
                i <= all.len(),
                all == model.types.entries@,
                model.wf(),
                crate::names::name_views(roots@) == root_names(model.roots.entries@),
                diag_views(out@) == unused_type_findings(all.subrange(0, i as int), *model),
            decreases all.len() - i,
        {
            let name = &model.types.entries[i].0;
            let es = &model.types.entries[i].1;
            proof {
                assert(all.subrange(0, i + 1).drop_last() =~= all.subrange(0, i as int));
            }
            let ghost before = diag_views(out@);
            let skip = contains_name(&roots, name.as_str()) || crate::text::str_eq(name.as_str(), "schema")
                || model.used.get(name.as_str()).is_some();
            if !skip {
                let ghost part = Seq::new(
                    es@.len(),
                    |k: int|
                        plain_diag(
                            "graphql/no-unused-type"@,
                            Severity::Info,
                            es@[k].source,
                            es@[k].name_span,
                            "type `"@ + name@ + "` is defined but never referenced"@,
                            Some(type_subject(name@)),
                        ),
                );
                let mut j: usize = 0;
                while j < es.len()
                    invariant
                        j <= es@.len(),
                        part.len() == es@.len(),
                        forall|q: int| 0 <= q < es@.len() ==> #[trigger] part[q] == plain_diag(
                            "graphql/no-unused-type"@,
                            Severity::Info,
                            es@[q].source,
                            es@[q].name_span,
                            "type `"@ + name@ + "` is defined but never referenced"@,
                            Some(type_subject(name@)),
                        ),
                        diag_views(out@) == before + part.subrange(0, j as int),
                    decreases es@.len() - j,
                {
                    let m = wrap_name("type `", name.as_str(), "` is defined but never referenced");
                    let x = diag("graphql/no-unused-type", Severity::Info, es[j].source, es[j].name_span, m, Some(type_subject_of(name)));
                    let ghost b2 = diag_views(out@);
                    out.push(x);
                    assert(diag_views(out@) =~= b2.push(x@));
                    assert(x@ == part[j as int]);
                    assert(diag_views(out@) =~= before + part.subrange(0, j + 1));
                    j = j + 1;
                }
                assert(part.subrange(0, j as int) =~= part);
            } else {
                assert(diag_views(out@) =~= before + Seq::<DiagV>::empty());
            }
            i = i + 1;
        }
        assert(all.subrange(0, i as int) =~= all);
        let ghost mid = diag_views(out@);
        let first = first_source_of(model);
        let ds = &model.defined_directives.names;
        let ghost dv = crate::names::name_views(ds@);
        let mut k: usize = 0;
        while k < ds.len()
            invariant
                k <= ds@.len(),
                dv == crate::names::name_views(ds@),
                first == first_source(*model),
                diag_views(out@) == mid + unused_directive_findings(dv.subrange(0, k as int), *model),
            decreases ds@.len() - k,
        {
            let d = &ds[k];
            assert(dv[k as int] == d@);
            assert(dv.subrange(0, k + 1).drop_last() =~= dv.subrange(0, k as int));
            let ghost before = diag_views(out@);
            let standard = crate::text::str_eq(d.as_str(), "skip") || crate::text::str_eq(d.as_str(), "include")
                || crate::text::str_eq(d.as_str(), "deprecated");
            if !model.used_directives.has(d.as_str()) && !standard {
                let m = wrap_name("directive `@", d.as_str(), "` is defined but never applied");
                let mut subject = string_of("directive:");
                push_str(&mut subject, d.as_str());
                let x = diag("graphql/no-unused-type", Severity::Info, first, Span::new(0, 0), m, Some(subject));
                out.push(x);
                assert(diag_views(out@) =~= before.push(x@));
            }
            assert(diag_views(out@) =~= mid + unused_directive_findings(dv.subrange(0, k + 1), *model));
            k = k + 1;
        }
        assert(dv.subrange(0, k as int) =~= dv);
        out
    }
}

fn deprecated_entry_findings(e: &TypeEntry) -> (r: Vec<Diagnostic>)
    ensures
        diag_views(r@) == (if e.kind == DefKind::Input { deprecated_fields(*e, e.fields@) } else { seq![] }),
{
    let mut out: Vec<Diagnostic> = Vec::new();
    if e.kind != DefKind::Input {
        assert(diag_views(out@) =~= Seq::<DiagV>::empty());
        return out;
    }
    let ghost fs = e.fields@;
    let mut k: usize = 0;
    while k < e.fields.len()
        invariant
            k <= fs.len(),
            fs == e.fields@,
            e.kind == DefKind::Input,
            diag_views(out@) == deprecated_fields(*e, fs.subrange(0, k as int)),
        decreases fs.len() - k,
    {
        let f = &e.fields[k];
        assert(fs.subrange(0, k + 1).drop_last() =~= fs.subrange(0, k as int));
        let ghost before = diag_views(out@);
        if f.required && contains_name(&f.directives, "deprecated") {
            let mut m = wrap_name("input field `", e.name.as_str(), ".");
            push_str(&mut m, f.name.as_str());
            push_str(&mut m, " ");
            push_str(&mut m, f.named_type.as_str());
            push_str(&mut m, "` is required so it cannot be deprecated");
            let x = diag("graphql/deprecated-required-input", Severity::Error, e.source, f.name_span, m, Some(f.subject.clone()));
            out.push(x);
            assert(diag_views(out@) =~= before.push(x@));
        }
        assert(diag_views(out@) =~= deprecated_fields(*e, fs.subrange(0, k + 1)));
        k = k + 1;
    }
    assert(fs.subrange(0, k as int) =~= fs);
    out
}

impl DeprecatedRequiredInput {
    pub fn meta(&self) -> (r: RuleMeta)
        ensures
            r.id@ == "graphql/deprecated-required-input"@,
            r.default_severity == Severity::Error,
            r.requires@ == "graphql.schema"@,
            r.description@ == "Required input fields must not be deprecated."@,
    {
        RuleMeta {
            id: "graphql/deprecated-required-input",
            description: "Required input fields must not be deprecated.",
            default_severity: Severity::Error,
            requires: "graphql.schema",
        }
    }

    pub fn run(&self, model: &SchemaModel) -> (r: Vec<Diagnostic>)
        ensures
            diag_views(r@) == deprecated_findings(model.types.entries@),
    {
        let mut out: Vec<Diagnostic> = Vec::new();
        let ghost all = model.types.entries@;
        let mut i: usize = 0;
        while i < model.types.entries.len()
            invariant
                i <= all.len(),
                all == model.types.entries@,
                diag_views(out@) == deprecated_findings(all.subrange(0, i as int)),
            decreases all.len() - i,
        {
            let es = &model.types.entries[i].1;
            assert(all.subrange(0, i + 1).drop_last() =~= all.subrange(0, i as int));
            let ghost mid = diag_views(out@);
            let mut j: usize = 0;
            while j < es.len()
                invariant
                    j <= es@.len(),
                    diag_views(out@) == mid + deprecated_entries(es@.subrange(0, j as int)),
                decreases es@.len() - j,
            {
                assert(es@.subrange(0, j + 1).drop_last() =~= es@.subrange(0, j as int));
                let ghost before = out@;
                let mut more = deprecated_entry_findings(&es[j]);
                let ghost added = more@;
                out.append(&mut more);
                assert(out@ =~= before + added);
                assert(diag_views(out@) =~= diag_views(before) + diag_views(added));
                j = j + 1;
            }
            assert(es@.subrange(0, j as int) =~= es@);
            i = i + 1;
        }
        assert(all.subrange(0, i as int) =~= all);
        out
    }
}

impl DuplicateType {
    pub fn meta(&self) -> (r: RuleMeta)
        ensures
            r.id@ == "graphql/duplicate-type"@,
            r.default_severity == Severity::Error,
            r.requires@ == "graphql.schema"@,
            r.description@ == "Type names must be unique across the schema."@,
    {
        RuleMeta {
            id: "graphql/duplicate-type",
            description: "Type names must be unique across the schema.",
            default_severity: Severity::Error,
            requires: "graphql.schema",
        }
    }

    pub fn run(&self, model: &SchemaModel) -> (r: Vec<Diagnostic>)
        ensures
            diag_views(r@) == duplicate_findings(model.types.entries@),
    {
        let mut out: Vec<Diagnostic> = Vec::new();
        let ghost all = model.types.entries@;
        let mut i: usize = 0;
        while i < model.types.entries.len()
            invariant
                i <= all.len(),
                all == model.types.entries@,
                diag_views(out@) == duplicate_findings(all.subrange(0, i as int)),
            decreases all.len() - i,
        {
            let name = &model.types.entries[i].0;
            let es = &model.types.entries[i].1;
            assert(all.subrange(0, i + 1).drop_last() =~= all.subrange(0, i as int));
            let ghost before = diag_views(out@);
            if es.len() >= 2 {
                let ghost n = es@.len();
                let ghost part = Seq::new(
                    (n - 1) as nat,
                    |k: int|
                        DiagV {
                            rule_id: "graphql/duplicate-type"@,
                            severity: Severity::Error,
                            message: "type `"@ + name@ + "` is defined "@ + decimal(n) + " times in the schema"@,
                            source_id: es@[0].source,
                            span: es@[0].name_span,
                            related: seq![RelatedV { message: "`"@ + name@ + "` also defined here"@, source_id: es@[k + 1].source, span: es@[k + 1].name_span }],
                            subject: Some(type_subject(name@)),
                        },
                );
                let mut j: usize = 1;
                while j < es.len()
                    invariant
                        1 <= j <= es@.len(),
                        n == es@.len(),
                        n >= 2,
                        part.len() == n - 1,
                        forall|q: int| 0 <= q < n - 1 ==> #[trigger] part[q] == (DiagV {
                            rule_id: "graphql/duplicate-type"@,
                            severity: Severity::Error,
                            message: "type `"@ + name@ + "` is defined "@ + decimal(n) + " times in the schema"@,
                            source_id: es@[0].source,
                            span: es@[0].name_span,
                            related: seq![RelatedV { message: "`"@ + name@ + "` also defined here"@, source_id: es@[q + 1].source, span: es@[q + 1].name_span }],
                            subject: Some(type_subject(name@)),
                        }),
                        diag_views(out@) == before + part.subrange(0, j - 1),
                    decreases es@.len() - j,
                {
                    let mut m = wrap_name("type `", name.as_str(), "` is defined ");
                    push_decimal(&mut m, es.len() as u64);
                    push_str(&mut m, " times in the schema");
                    let rel = RelatedSpan {
                        message: wrap_name("`", name.as_str(), "` also defined here"),
                        source_id: es[j].source,
                        span: es[j].name_span,
                    };
                    let mut related: Vec<RelatedSpan> = Vec::new();
                    related.push(rel);
                    let x = Diagnostic {
                        rule_id: string_of("graphql/duplicate-type"),
                        severity: Severity::Error,
                        message: m,
                        source_id: es[0].source,
                        span: es[0].name_span,
                        related,
                        subject: Some(type_subject_of(name)),
                    };
                    assert(x@.related =~= seq![rel@]);
                    assert(x@ == part[j - 1]);
                    let ghost b2 = diag_views(out@);
                    out.push(x);
                    assert(diag_views(out@) =~= b2.push(x@));
                    assert(diag_views(out@) =~= before + part.subrange(0, j as int));
                    j = j + 1;
                }
                assert(part.subrange(0, j - 1) =~= part);
            } else {
                assert(diag_views(out@) =~= before + Seq::<DiagV>::empty());
            }
            i = i + 1;
        }
        assert(all.subrange(0, i as int) =~= all);
        out
    }
}


// ---------------------------------------------------------------------------
// What the rules report, over every input
// ---------------------------------------------------------------------------

proof fn lemma_camel_fields_at(s: SourceId, owner: Seq<char>, fields: Seq<FieldV>, fi: int) -> (k: int)
    requires
        0 <= fi < fields.len(),
        !camel(fields[fi].name),
    ensures
        0 <= k < camel_fields(s, owner, fields).len(),
        camel_fields(s, owner, fields)[k].rule_id == "graphql/field-name-camel"@,
        camel_fields(s, owner, fields)[k].span == fields[fi].name_span,
        camel_fields(s, owner, fields)[k].subject == Some("type:"@ + owner + ".field:"@ + fields[fi].name),
    decreases fields.len(),
{
    let before = camel_fields(s, owner, fields.drop_last());
    if fi == fields.len() - 1 {
        before.len() as int
    } else {
        assert(fields.drop_last()[fi] == fields[fi]);
        let k = lemma_camel_fields_at(s, owner, fields.drop_last(), fi);
        assert(camel_fields(s, owner, fields)[k] == before[k]);
        k
    }
}

/// Every field of an object, interface or input definition whose name is
/// not camelCase yields a `graphql/field-name-camel` finding at the field's
/// name, with subject `type:<definition>.field:<field>`.
pub proof fn law_camel_flags_every_field(s: SourceId, d: DefV, fi: int) -> (k: int)
    requires
        d.kind == DefKind::Object || d.kind == DefKind::Interface || d.kind == DefKind::Input,
        0 <= fi < d.fields.len(),
        !camel(d.fields[fi].name),
    ensures
        0 <= k < camel_finding(s, d).len(),
        camel_finding(s, d)[k].rule_id == "graphql/field-name-camel"@,
        camel_finding(s, d)[k].source_id == s,
        camel_finding(s, d)[k].span == d.fields[fi].name_span,
        camel_finding(s, d)[k].subject == Some("type:"@ + d.name + ".field:"@ + d.fields[fi].name),
{
    let k = lemma_camel_fields_at(s, d.name, d.fields, fi);
    lemma_camel_fields_source(s, d.name, d.fields, k);
    k
}

proof fn lemma_camel_fields_source(s: SourceId, owner: Seq<char>, fields: Seq<FieldV>, k: int)
    requires
        0 <= k < camel_fields(s, owner, fields).len(),
    ensures
        camel_fields(s, owner, fields)[k].source_id == s,
    decreases fields.len(),
{
    if fields.len() > 0 {
        let before = camel_fields(s, owner, fields.drop_last());
        if k < before.len() {
            lemma_camel_fields_source(s, owner, fields.drop_last(), k);
            assert(camel_fields(s, owner, fields)[k] == before[k]);
        }
    }
}

proof fn lemma_camel_fields_from(s: SourceId, owner: Seq<char>, fields: Seq<FieldV>, k: int) -> (fi: int)
    requires
        0 <= k < camel_fields(s, owner, fields).len(),
    ensures
        0 <= fi < fields.len(),
        !camel(fields[fi].name),
        camel_fields(s, owner, fields)[k].span == fields[fi].name_span,
        camel_fields(s, owner, fields)[k].subject == Some("type:"@ + owner + ".field:"@ + fields[fi].name),
    decreases fields.len(),
{
    let before = camel_fields(s, owner, fields.drop_last());
    if k < before.len() {
        let fi = lemma_camel_fields_from(s, owner, fields.drop_last(), k);
        assert(camel_fields(s, owner, fields)[k] == before[k]);
        assert(fields.drop_last()[fi] == fields[fi]);
        fi
    } else {
        (fields.len() - 1) as int
    }
}

/// A field-name-camel finding is about a field, not camelCase, of an
/// object, interface or input definition.
pub proof fn law_camel_findings_are_bad_fields(s: SourceId, d: DefV, k: int) -> (fi: int)
    requires
        0 <= k < camel_finding(s, d).len(),
    ensures
        d.kind == DefKind::Object || d.kind == DefKind::Interface || d.kind == DefKind::Input,
        0 <= fi < d.fields.len(),
        !camel(d.fields[fi].name),
        camel_finding(s, d)[k].span == d.fields[fi].name_span,
        camel_finding(s, d)[k].subject == Some("type:"@ + d.name + ".field:"@ + d.fields[fi].name),
{
    lemma_camel_fields_from(s, d.name, d.fields, k)
}

/// A no-undefined-type finding names a type that is used, not defined, and
/// none of the built-in scalars `String`, `Int`, `Float`, `Boolean` and `ID`.
pub proof fn law_undefined_findings_are_undefined_types(used: Seq<(String, Vec<Span>)>, m: SchemaModel, k: int) -> (i: int)
    requires
        0 <= k < undefined_findings(used, m).len(),
    ensures
        0 <= i < used.len(),
        undefined_findings(used, m)[k].rule_id == "graphql/no-undefined-type"@,
        undefined_findings(used, m)[k].subject == Some("type-ref:"@ + used[i].0@),
        used[i].0@ != "String"@ && used[i].0@ != "Int"@ && used[i].0@ != "Float"@ && used[i].0@ != "Boolean"@
            && used[i].0@ != "ID"@,
        m.types.spec_get(used[i].0@) is None,
    decreases used.len(),
{
    let before = undefined_findings(used.drop_last(), m);
    if k < before.len() {
        let i = law_undefined_findings_are_undefined_types(used.drop_last(), m, k);
        assert(undefined_findings(used, m)[k] == before[k]);
        assert(used.drop_last()[i] == used[i]);
        i
    } else {
        (used.len() - 1) as int
    }
}

/// Every reference to a type that is neither built in (`String`, `Int`,
/// `Float`, `Boolean`, `ID`) nor defined yields a no-undefined-type finding
/// at that reference.
pub proof fn law_undefined_types_are_reported(used: Seq<(String, Vec<Span>)>, m: SchemaModel, i: int, j: int) -> (k: int)
    requires
        0 <= i < used.len(),
        0 <= j < used[i].1@.len(),
        used[i].0@ != "String"@ && used[i].0@ != "Int"@ && used[i].0@ != "Float"@ && used[i].0@ != "Boolean"@
            && used[i].0@ != "ID"@,
        m.types.spec_get(used[i].0@) is None,
    ensures
        0 <= k < undefined_findings(used, m).len(),
        undefined_findings(used, m)[k].rule_id == "graphql/no-undefined-type"@,
        undefined_findings(used, m)[k].span == used[i].1@[j],
        undefined_findings(used, m)[k].subject == Some("type-ref:"@ + used[i].0@),
    decreases used.len(),
{
    let before = undefined_findings(used.drop_last(), m);
    if i < used.len() - 1 {
        assert(used.drop_last()[i] == used[i]);
        let k = law_undefined_types_are_reported(used.drop_last(), m, i, j);
        assert(undefined_findings(used, m)[k] == before[k]);
        k
    } else {
        before.len() + j
    }
}

} // verus!
