//! Cross-file GraphQL schema semantic model.
//!
//! Built once per workspace from all parsed documents: which types are
//! referenced (and where), which are defined (and where), which directives
//! are defined and applied, and the schema roots, so workspace rules do not
//! re-scan files.

use crate::diagnostic::{SourceId, Span};
use crate::graphql::ast::{Def, DefKind, DefV, Document, FieldDef, FieldV, TypeRefV};
use crate::names::{ListMap, NameSet, name_views};
use crate::text::{push_str, str_eq, string_of};
use vstd::prelude::*;

verus! {

/// Built-in scalar names that can be used without a definition.
pub open spec fn builtin(n: Seq<char>) -> bool {
    n == "String"@ || n == "Int"@ || n == "Float"@ || n == "Boolean"@ || n == "ID"@
}

pub fn is_builtin(n: &str) -> (r: bool)
    ensures
        r == builtin(n@),
{
    str_eq(n, "String") || str_eq(n, "Int") || str_eq(n, "Float") || str_eq(n, "Boolean") || str_eq(n, "ID")
}

#[derive(Debug)]
pub struct FieldEntry {
    pub name: String,
    pub name_span: Span,
    pub span: Span,
    pub named_type: String,
    pub required: bool,
    pub directives: Vec<String>,
    /// Stable subject id for TODO baselines (`type:User.field:name`).
    pub subject: String,
}

#[derive(Debug)]
pub struct TypeEntry {
    pub kind: DefKind,
    pub name: String,
    pub source: SourceId,
    pub name_span: Span,
    /// Populated for Object/Interface/Input.
    pub fields: Vec<FieldEntry>,
    pub implements: NameSet,
    pub union_members: Vec<String>,
    pub enum_values: Vec<String>,
    pub directives: Vec<String>,
}

/// Workspace model, published under capability `graphql.schema`.
#[derive(Debug)]
pub struct SchemaModel {
    /// Type name -> definition(s) (duplicates preserved across files).
    pub types: ListMap<TypeEntry>,
    /// Types referenced anywhere, with the span of each reference.
    pub used: ListMap<Span>,
    /// The file of each reference, parallel to `used`.
    pub used_files: ListMap<SourceId>,
    /// Directives applied to fields via `@name`.
    pub used_directives: NameSet,
    /// Defined directive names.
    pub defined_directives: NameSet,
    /// True when a `schema { ... }` block exists anywhere.
    pub has_schema_block: bool,
    /// Root operation names, e.g. `query` -> the root types given for it (the
    /// last one counts).
    pub roots: ListMap<String>,
}

pub struct FieldEntryV {
    pub name: Seq<char>,
    pub name_span: Span,
    pub span: Span,
    pub named_type: Seq<char>,
    pub required: bool,
    pub directives: Seq<Seq<char>>,
    pub subject: Seq<char>,
}

impl FieldEntry {
    pub open spec fn view(&self) -> FieldEntryV {
        FieldEntryV {
            name: self.name@,
            name_span: self.name_span,
            span: self.span,
            named_type: self.named_type@,
            required: self.required,
            directives: name_views(self.directives@),
            subject: self.subject@,
        }
    }
}

/// The entry of a field of type `named_type`.
pub open spec fn field_entry_v(f: FieldV, named_type: Seq<char>) -> FieldEntryV {
    FieldEntryV {
        name: f.name,
        name_span: f.name_span,
        span: f.span,
        named_type: f.ty.named,
        required: f.ty.non_null,
        directives: f.directives.map_values(|d: crate::graphql::ast::DirV| d.name),
        subject: "type:"@ + named_type + ".field:"@ + f.name,
    }
}

/// `e` records the definition `d` found in `source`.
pub open spec fn entry_records(e: TypeEntry, source: SourceId, d: DefV) -> bool {
    &&& e.kind == d.kind
    &&& e.name@ == d.name
    &&& e.source == source
    &&& e.name_span == d.name_span
    &&& e.fields@.len() == d.fields.len()
    &&& forall|k: int| 0 <= k < d.fields.len() ==> (#[trigger] e.fields@[k])@ == field_entry_v(d.fields[k], d.name)
    &&& e.implements.wf()
    &&& forall|n: Seq<char>| #[trigger] e.implements.contains(n) <==> d.implements.contains(n)
    &&& name_views(e.union_members@) == d.union_members
    &&& name_views(e.enum_values@) == d.enum_values
    &&& name_views(e.directives@) == d.directives.map_values(|x: crate::graphql::ast::DirV| x.name)
}

// ---------------------------------------------------------------------------
// What the documents contribute, in order
// ---------------------------------------------------------------------------

/// All definitions of the documents, with their file, in order.
pub open spec fn all_defs(docs: Seq<(SourceId, Seq<DefV>)>) -> Seq<(SourceId, DefV)>
    decreases docs.len(),
{
    if docs.len() == 0 {
        seq![]
    } else {
        all_defs(docs.drop_last()) + docs.last().1.map_values(|d: DefV| (docs.last().0, d))
    }
}

/// A reference to a type: name, span, file.
pub type UseV = (Seq<char>, Span, SourceId);

pub open spec fn type_use(t: TypeRefV, s: SourceId) -> Seq<UseV> {
    if builtin(t.named) {
        seq![]
    } else {
        seq![(t.named, t.named_span, s)]
    }
}

pub open spec fn cat_uses(parts: Seq<Seq<UseV>>) -> Seq<UseV>
    decreases parts.len(),
{
    if parts.len() == 0 {
        seq![]
    } else {
        cat_uses(parts.drop_last()) + parts.last()
    }
}

/// References of one field: its type, then its arguments' types (built-in
/// scalars left out).
pub open spec fn field_uses(f: FieldV, s: SourceId) -> Seq<UseV> {
    type_use(f.ty, s) + cat_uses(f.args.map_values(|a: crate::graphql::ast::ArgV| type_use(a.ty, s)))
}

/// References a definition makes: schema root types, field and argument
/// types (built-in scalars left out), implemented interfaces and union
/// members (at the definition's name).
pub open spec fn def_uses(s: SourceId, d: DefV) -> Seq<UseV> {
    let roots = if d.kind == DefKind::Schema {
        cat_uses(d.root_ops.map_values(|p: (Seq<char>, TypeRefV)| type_use(p.1, s)))
    } else {
        seq![]
    };
    roots + cat_uses(d.fields.map_values(|f: FieldV| field_uses(f, s))) + d.implements.map_values(
        |n: Seq<char>| (n, d.name_span, s),
    ) + d.union_members.map_values(|n: Seq<char>| (n, d.name_span, s))
}

pub open spec fn uses_of(defs: Seq<(SourceId, DefV)>) -> Seq<UseV>
    decreases defs.len(),
{
    if defs.len() == 0 {
        seq![]
    } else {
        uses_of(defs.drop_last()) + def_uses(defs.last().0, defs.last().1)
    }
}

/// The spans of the references to `n`, in order.
pub open spec fn spans_of(u: Seq<UseV>, n: Seq<char>) -> Seq<Span>
    decreases u.len(),
{
    if u.len() == 0 {
        seq![]
    } else if u.last().0 == n {
        spans_of(u.drop_last(), n).push(u.last().1)
    } else {
        spans_of(u.drop_last(), n)
    }
}

/// The files of the references to `n`, in order.
pub open spec fn files_of(u: Seq<UseV>, n: Seq<char>) -> Seq<SourceId>
    decreases u.len(),
{
    if u.len() == 0 {
        seq![]
    } else if u.last().0 == n {
        files_of(u.drop_last(), n).push(u.last().2)
    } else {
        files_of(u.drop_last(), n)
    }
}

/// The definitions named `n`, with their files, in order.
pub open spec fn defs_named(defs: Seq<(SourceId, DefV)>, n: Seq<char>) -> Seq<(SourceId, DefV)>
    decreases defs.len(),
{
    if defs.len() == 0 {
        seq![]
    } else if defs.last().1.name == n {
        defs_named(defs.drop_last(), n).push(defs.last())
    } else {
        defs_named(defs.drop_last(), n)
    }
}

/// The directive names applied to fields.
pub open spec fn field_directive_used(defs: Seq<(SourceId, DefV)>, n: Seq<char>) -> bool {
    exists|i: int, k: int, j: int|
        0 <= i < defs.len() && 0 <= k < defs[i].1.fields.len() && 0 <= j < defs[i].1.fields[k].directives.len()
            && #[trigger] defs[i].1.fields[k].directives[j].name == n
}

pub open spec fn directive_defined(defs: Seq<(SourceId, DefV)>, n: Seq<char>) -> bool {
    exists|i: int| 0 <= i < defs.len() && (#[trigger] defs[i]).1.kind == DefKind::Directive && defs[i].1.name == n
}

pub open spec fn has_schema(defs: Seq<(SourceId, DefV)>) -> bool {
    exists|i: int| 0 <= i < defs.len() && (#[trigger] defs[i]).1.kind == DefKind::Schema
}

/// Root operations `(op, root type)` of the schema blocks, in order.
pub open spec fn roots_of(defs: Seq<(SourceId, DefV)>) -> Seq<(Seq<char>, Seq<char>)>
    decreases defs.len(),
{
    if defs.len() == 0 {
        seq![]
    } else {
        let d = defs.last().1;
        roots_of(defs.drop_last()) + if d.kind == DefKind::Schema {
            d.root_ops.map_values(|p: (Seq<char>, TypeRefV)| (p.0, p.1.named))
        } else {
            seq![]
        }
    }
}

/// The root types given for operation `op`, in order.
pub open spec fn roots_for(r: Seq<(Seq<char>, Seq<char>)>, op: Seq<char>) -> Seq<Seq<char>>
    decreases r.len(),
{
    if r.len() == 0 {
        seq![]
    } else if r.last().0 == op {
        roots_for(r.drop_last(), op).push(r.last().1)
    } else {
        roots_for(r.drop_last(), op)
    }
}

pub open spec fn opt_name_views(o: Option<Seq<String>>) -> Option<Seq<Seq<char>>> {
    match o {
        Some(s) => Some(name_views(s)),
        None => None,
    }
}

pub open spec fn nonempty<T>(s: Seq<T>) -> Option<Seq<T>> {
    if s.len() == 0 {
        None
    } else {
        Some(s)
    }
}

} // verus!

verus! {

pub open spec fn doc_views(docs: Seq<(SourceId, &Document)>) -> Seq<(SourceId, Seq<DefV>)> {
    docs.map_values(|p: (SourceId, &Document)| (p.0, p.1@))
}

pub open spec fn def_ref_views(v: Seq<(SourceId, &Def)>) -> Seq<(SourceId, DefV)> {
    v.map_values(|p: (SourceId, &Def)| (p.0, p.1@))
}

/// The definitions of the documents with their files, in order.
pub(crate) fn flat_defs<'a>(docs: &Vec<(SourceId, &'a Document)>) -> (r: Vec<(SourceId, &'a Def)>)
    ensures
        def_ref_views(r@) == all_defs(doc_views(docs@)),
{
    let mut out: Vec<(SourceId, &'a Def)> = Vec::new();
    let mut i: usize = 0;
    assert(def_ref_views(out@) =~= all_defs(doc_views(docs@).subrange(0, 0)));
    while i < docs.len()
        invariant
            i <= docs@.len(),
            def_ref_views(out@) == all_defs(doc_views(docs@).subrange(0, i as int)),
        decreases docs@.len() - i,
    {
        let (src, doc) = docs[i];
        let ghost start = def_ref_views(out@);
        let mut j: usize = 0;
        while j < doc.defs.len()
            invariant
                j <= doc.defs@.len(),
                def_ref_views(out@) == start + doc@.subrange(0, j as int).map_values(|d: DefV| (src, d)),
            decreases doc.defs@.len() - j,
        {
            let ghost before = def_ref_views(out@);
            out.push((src, &doc.defs[j]));
            assert(def_ref_views(out@) =~= before.push((src, doc.defs@[j as int]@)));
            assert(doc@.subrange(0, j + 1).map_values(|d: DefV| (src, d)) =~= doc@.subrange(0, j as int).map_values(
                |d: DefV| (src, d),
            ).push((src, doc@[j as int])));
            j = j + 1;
        }
        proof {
            assert(doc@.subrange(0, j as int) =~= doc@);
            assert(doc_views(docs@).subrange(0, i + 1).drop_last() =~= doc_views(docs@).subrange(0, i as int));
            assert(doc_views(docs@)[i as int] == (src, doc@));
        }
        i = i + 1;
    }
    assert(doc_views(docs@).subrange(0, docs@.len() as int) =~= doc_views(docs@));
    out
}

fn field_entry(f: &FieldDef, type_named: &str) -> (r: FieldEntry)
    ensures
        r@ == field_entry_v(f@, type_named@),
{
    let mut subject = string_of("type:");
    push_str(&mut subject, type_named);
    push_str(&mut subject, ".field:");
    push_str(&mut subject, f.name.as_str());
    let mut directives: Vec<String> = Vec::new();
    let mut k: usize = 0;
    while k < f.directives.len()
        invariant
            k <= f.directives@.len(),
            name_views(directives@) == f@.directives.subrange(0, k as int).map_values(|d: crate::graphql::ast::DirV| d.name),
        decreases f.directives@.len() - k,
    {
        let ghost before = name_views(directives@);
        directives.push(f.directives[k].name.clone());
        assert(name_views(directives@) =~= before.push(f@.directives[k as int].name));
        assert(name_views(directives@) =~= f@.directives.subrange(0, k + 1).map_values(|d: crate::graphql::ast::DirV| d.name));
        k = k + 1;
    }
    assert(f@.directives.subrange(0, k as int) =~= f@.directives);
    let r = FieldEntry {
        name: f.name.clone(),
        name_span: f.name_span,
        span: f.span,
        named_type: f.ty.named.clone(),
        required: f.ty.is_required(),
        directives,
        subject,
    };
    assert(r@.subject =~= field_entry_v(f@, type_named@).subject);
    r
}

fn copy_names(v: &Vec<String>) -> (r: Vec<String>)
    ensures
        name_views(r@) == name_views(v@),
{
    let c = crate::text::copy_strings(v);
    assert(name_views(c@) =~= name_views(v@));
    c
}

fn type_entry(source: SourceId, d: &Def) -> (r: TypeEntry)
    ensures
        entry_records(r, source, d@),
{
    let mut fields: Vec<FieldEntry> = Vec::new();
    let mut k: usize = 0;
    while k < d.fields.len()
        invariant
            k <= d.fields@.len(),
            fields@.len() == k,
            forall|q: int| 0 <= q < k ==> (#[trigger] fields@[q])@ == field_entry_v(d@.fields[q], d@.name),
        decreases d.fields@.len() - k,
    {
        fields.push(field_entry(&d.fields[k], d.name.as_str()));
        k = k + 1;
    }
    let mut implements = NameSet::new();
    let mut j: usize = 0;
    while j < d.implements.len()
        invariant
            j <= d.implements@.len(),
            implements.wf(),
            forall|n: Seq<char>| #[trigger] implements.contains(n) <==> d@.implements.subrange(0, j as int).contains(n),
        decreases d.implements@.len() - j,
    {
        implements.insert(d.implements[j].as_str());
        proof {
            assert forall|n: Seq<char>| #[trigger] implements.contains(n) <==> d@.implements.subrange(0, j + 1).contains(n) by {
                if d@.implements.subrange(0, j + 1).contains(n) && n != d@.implements[j as int] {
                    let q = choose|q: int| 0 <= q < j + 1 && #[trigger] d@.implements.subrange(0, j + 1)[q] == n;
                    assert(d@.implements.subrange(0, j as int)[q] == n);
                }
                if d@.implements.subrange(0, j as int).contains(n) {
                    let q = choose|q: int| 0 <= q < j && #[trigger] d@.implements.subrange(0, j as int)[q] == n;
                    assert(d@.implements.subrange(0, j + 1)[q] == n);
                }
                if n == d@.implements[j as int] {
                    assert(d@.implements.subrange(0, j + 1)[j as int] == n);
                }
            }
        }
        j = j + 1;
    }
    assert(d@.implements.subrange(0, j as int) =~= d@.implements);
    let mut directives: Vec<String> = Vec::new();
    let mut q: usize = 0;
    while q < d.directives.len()
        invariant
            q <= d.directives@.len(),
            name_views(directives@) == d@.directives.subrange(0, q as int).map_values(|x: crate::graphql::ast::DirV| x.name),
        decreases d.directives@.len() - q,
    {
        let ghost before2 = name_views(directives@);
        directives.push(d.directives[q].name.clone());
        assert(name_views(directives@) =~= before2.push(d@.directives[q as int].name));
        assert(name_views(directives@) =~= d@.directives.subrange(0, q + 1).map_values(|x: crate::graphql::ast::DirV| x.name));
        q = q + 1;
    }
    assert(d@.directives.subrange(0, q as int) =~= d@.directives);
    let r = TypeEntry {
        kind: d.kind,
        name: d.name.clone(),
        source,
        name_span: d.name_span,
        fields,
        implements,
        union_members: copy_names(&d.union_members),
        enum_values: copy_names(&d.enum_values),
        directives,
    };
    assert(name_views(r.union_members@) =~= d@.union_members);
    assert(name_views(r.enum_values@) =~= d@.enum_values);
    r
}

} // verus!

verus! {

/// The recorded references agree with the references `u`.
pub open spec fn uses_match(used: ListMap<Span>, files: ListMap<SourceId>, u: Seq<UseV>) -> bool {
    &&& used.wf()
    &&& files.wf()
    &&& forall|n: Seq<char>| #[trigger] used.spec_get(n) == nonempty(spans_of(u, n))
    &&& forall|n: Seq<char>| #[trigger] files.spec_get(n) == nonempty(files_of(u, n))
}

fn record_use(used: &mut ListMap<Span>, files: &mut ListMap<SourceId>, n: &str, sp: Span, src: SourceId, Ghost(u): Ghost<Seq<UseV>>)
    requires
        uses_match(*old(used), *old(files), u),
    ensures
        uses_match(*final(used), *final(files), u.push((n@, sp, src))),
{
    used.push(n, sp);
    files.push(n, src);
    proof {
        let u2 = u.push((n@, sp, src));
        assert(u2.drop_last() =~= u);
        assert forall|k: Seq<char>| #[trigger] used.spec_get(k) == nonempty(spans_of(u2, k)) by {
        }
        assert forall|k: Seq<char>| #[trigger] files.spec_get(k) == nonempty(files_of(u2, k)) by {
        }
    }
}

fn record_type_use(used: &mut ListMap<Span>, files: &mut ListMap<SourceId>, t: &crate::graphql::ast::TypeRef, src: SourceId, Ghost(u): Ghost<Seq<UseV>>)
    requires
        uses_match(*old(used), *old(files), u),
    ensures
        uses_match(*final(used), *final(files), u + type_use(t@, src)),
{
    if !is_builtin(t.named.as_str()) {
        record_use(used, files, t.named.as_str(), t.named_span, src, Ghost(u));
        assert(u + type_use(t@, src) =~= u.push((t@.named, t@.named_span, src)));
    } else {
        assert(u + type_use(t@, src) =~= u);
    }
}

fn record_def_uses(used: &mut ListMap<Span>, files: &mut ListMap<SourceId>, src: SourceId, d: &Def, Ghost(u0): Ghost<Seq<UseV>>)
    requires
        uses_match(*old(used), *old(files), u0),
    ensures
        uses_match(*final(used), *final(files), u0 + def_uses(src, d@)),
{
    let ghost dv = d@;
    let ghost roots_part = if dv.kind == DefKind::Schema {
        cat_uses(dv.root_ops.map_values(|p: (Seq<char>, TypeRefV)| type_use(p.1, src)))
    } else {
        seq![]
    };
    let ghost fields_part = cat_uses(dv.fields.map_values(|f: FieldV| field_uses(f, src)));
    let ghost impl_part = dv.implements.map_values(|n: Seq<char>| (n, dv.name_span, src));
    let ghost member_part = dv.union_members.map_values(|n: Seq<char>| (n, dv.name_span, src));
    let ghost mut u = u0;
    // schema root types
    if d.kind == DefKind::Schema {
        let ghost parts = dv.root_ops.map_values(|p: (Seq<char>, TypeRefV)| type_use(p.1, src));
        let mut k: usize = 0;
        assert(cat_uses(parts.subrange(0, 0)) =~= seq![]);
        assert(u0 + seq![] =~= u0);
        while k < d.root_ops.len()
            invariant
                k <= d.root_ops@.len(),
                dv == d@,
                parts == dv.root_ops.map_values(|p: (Seq<char>, TypeRefV)| type_use(p.1, src)),
                u == u0 + cat_uses(parts.subrange(0, k as int)),
                uses_match(*used, *files, u),
            decreases d.root_ops@.len() - k,
        {
            record_type_use(used, files, &d.root_ops[k].1, src, Ghost(u));
            proof {
                assert(parts.subrange(0, k + 1).drop_last() =~= parts.subrange(0, k as int));
                assert(parts[k as int] == type_use(d.root_ops@[k as int].1@, src));
                u = u + type_use(d.root_ops@[k as int].1@, src);
                assert(u =~= u0 + cat_uses(parts.subrange(0, k + 1)));
            }
            k = k + 1;
        }
        assert(parts.subrange(0, k as int) =~= parts);
    } else {
        assert(u0 + roots_part =~= u0);
    }
    let ghost u1 = u;
    assert(u1 == u0 + roots_part);
    // field and argument types
    let ghost fparts = dv.fields.map_values(|f: FieldV| field_uses(f, src));
    let mut k: usize = 0;
    assert(cat_uses(fparts.subrange(0, 0)) =~= seq![]);
    assert(u1 + seq![] =~= u1);
    while k < d.fields.len()
        invariant
            k <= d.fields@.len(),
            dv == d@,
            fparts == dv.fields.map_values(|f: FieldV| field_uses(f, src)),
            u == u1 + cat_uses(fparts.subrange(0, k as int)),
            uses_match(*used, *files, u),
        decreases d.fields@.len() - k,
    {
        let f = &d.fields[k];
        let ghost fstart = u;
        record_type_use(used, files, &f.ty, src, Ghost(u));
        proof {
            u = u + type_use(f.ty@, src);
        }
        let ghost aparts = f@.args.map_values(|a: crate::graphql::ast::ArgV| type_use(a.ty, src));
        let ghost u_after_ty = u;
        let mut a: usize = 0;
        assert(cat_uses(aparts.subrange(0, 0)) =~= seq![]);
        assert(u_after_ty + seq![] =~= u_after_ty);
        while a < f.args.len()
            invariant
                a <= f.args@.len(),
                aparts == f@.args.map_values(|x: crate::graphql::ast::ArgV| type_use(x.ty, src)),
                u == u_after_ty + cat_uses(aparts.subrange(0, a as int)),
                uses_match(*used, *files, u),
            decreases f.args@.len() - a,
        {
            record_type_use(used, files, &f.args[a].ty, src, Ghost(u));
            proof {
                assert(aparts.subrange(0, a + 1).drop_last() =~= aparts.subrange(0, a as int));
                assert(aparts[a as int] == type_use(f.args@[a as int].ty@, src));
                u = u + type_use(f.args@[a as int].ty@, src);
                assert(u =~= u_after_ty + cat_uses(aparts.subrange(0, a + 1)));
            }
            a = a + 1;
        }
        proof {
            assert(aparts.subrange(0, a as int) =~= aparts);
            assert(fparts[k as int] == field_uses(f@, src));
            assert(u =~= fstart + field_uses(f@, src));
            assert(fparts.subrange(0, k + 1).drop_last() =~= fparts.subrange(0, k as int));
            assert(u =~= u1 + cat_uses(fparts.subrange(0, k + 1)));
        }
        k = k + 1;
    }
    assert(fparts.subrange(0, k as int) =~= fparts);
    let ghost u2 = u;
    // implemented interfaces
    let mut k: usize = 0;
    while k < d.implements.len()
        invariant
            k <= d.implements@.len(),
            dv == d@,
            u == u2 + dv.implements.subrange(0, k as int).map_values(|n: Seq<char>| (n, dv.name_span, src)),
            uses_match(*used, *files, u),
        decreases d.implements@.len() - k,
    {
        record_use(used, files, d.implements[k].as_str(), d.name_span, src, Ghost(u));
        proof {
            u = u.push((dv.implements[k as int], dv.name_span, src));
            assert(u =~= u2 + dv.implements.subrange(0, k + 1).map_values(|n: Seq<char>| (n, dv.name_span, src)));
        }
        k = k + 1;
    }
    assert(dv.implements.subrange(0, k as int) =~= dv.implements);
    let ghost u3 = u;
    // union members
    let mut k: usize = 0;
    while k < d.union_members.len()
        invariant
            k <= d.union_members@.len(),
            dv == d@,
            u == u3 + dv.union_members.subrange(0, k as int).map_values(|n: Seq<char>| (n, dv.name_span, src)),
            uses_match(*used, *files, u),
        decreases d.union_members@.len() - k,
    {
        record_use(used, files, d.union_members[k].as_str(), d.name_span, src, Ghost(u));
        proof {
            u = u.push((dv.union_members[k as int], dv.name_span, src));
            assert(u =~= u3 + dv.union_members.subrange(0, k + 1).map_values(|n: Seq<char>| (n, dv.name_span, src)));
        }
        k = k + 1;
    }
    assert(dv.union_members.subrange(0, k as int) =~= dv.union_members);
    assert(u =~= u0 + def_uses(src, dv));
}

} // verus!

verus! {

/// The type entries recorded under `n` are those of the definitions named `n`.
pub open spec fn types_match(m: ListMap<TypeEntry>, defs: Seq<(SourceId, DefV)>, n: Seq<char>) -> bool {
    let dn = defs_named(defs, n);
    match m.spec_get(n) {
        Some(es) => es.len() == dn.len() && dn.len() > 0 && forall|k: int|
            0 <= k < es.len() ==> entry_records(#[trigger] es[k], dn[k].0, dn[k].1),
        None => dn.len() == 0,
    }
}

fn types_from(defs: &Vec<(SourceId, &Def)>) -> (r: ListMap<TypeEntry>)
    ensures
        r.wf(),
        forall|n: Seq<char>| #[trigger] types_match(r, def_ref_views(defs@), n),
{
    let mut m: ListMap<TypeEntry> = ListMap::new();
    let mut i: usize = 0;
    let ghost dv = def_ref_views(defs@);
    assert forall|n: Seq<char>| #[trigger] types_match(m, dv.subrange(0, 0), n) by {
        assert(dv.subrange(0, 0).len() == 0);
    }
    while i < defs.len()
        invariant
            i <= defs@.len(),
            dv == def_ref_views(defs@),
            m.wf(),
            forall|n: Seq<char>| #[trigger] types_match(m, dv.subrange(0, i as int), n),
        decreases defs@.len() - i,
    {
        let (src, d) = defs[i];
        let e = type_entry(src, d);
        let ghost old_m = m;
        m.push(d.name.as_str(), e);
        proof {
            let pre = dv.subrange(0, i as int);
            let post = dv.subrange(0, i + 1);
            assert(post.drop_last() =~= pre);
            assert(post.last() == (src, d@));
            assert forall|n: Seq<char>| #[trigger] types_match(m, post, n) by {
                assert(types_match(old_m, pre, n));
                if n == d@.name {
                    let dn = defs_named(pre, n);
                    assert(defs_named(post, n) == dn.push((src, d@)));
                    match old_m.spec_get(n) {
                        Some(es) => {
                            let es2 = es.push(e);
                            assert forall|k: int| 0 <= k < es2.len() implies entry_records(#[trigger] es2[k], defs_named(post, n)[k].0, defs_named(post, n)[k].1) by {
                                if k < es.len() {
                                    assert(es2[k] == es[k]);
                                }
                            }
                        },
                        None => {
                            assert(Seq::<TypeEntry>::empty().push(e)[0] == e);
                        },
                    }
                } else {
                    assert(defs_named(post, n) == defs_named(pre, n));
                }
            }
        }
        i = i + 1;
    }
    assert(dv.subrange(0, i as int) =~= dv);
    m
}

fn uses_from(defs: &Vec<(SourceId, &Def)>) -> (r: (ListMap<Span>, ListMap<SourceId>))
    ensures
        uses_match(r.0, r.1, uses_of(def_ref_views(defs@))),
{
    let mut used: ListMap<Span> = ListMap::new();
    let mut files: ListMap<SourceId> = ListMap::new();
    let ghost dv = def_ref_views(defs@);
    let mut i: usize = 0;
    assert(uses_of(dv.subrange(0, 0)) =~= seq![]);
    while i < defs.len()
        invariant
            i <= defs@.len(),
            dv == def_ref_views(defs@),
            uses_match(used, files, uses_of(dv.subrange(0, i as int))),
        decreases defs@.len() - i,
    {
        let (src, d) = defs[i];
        record_def_uses(&mut used, &mut files, src, d, Ghost(uses_of(dv.subrange(0, i as int))));
        proof {
            assert(dv.subrange(0, i + 1).drop_last() =~= dv.subrange(0, i as int));
            assert(dv.subrange(0, i + 1).last() == (src, d@));
        }
        i = i + 1;
    }
    assert(dv.subrange(0, i as int) =~= dv);
    (used, files)
}

fn field_directives_from(defs: &Vec<(SourceId, &Def)>) -> (r: NameSet)
    ensures
        r.wf(),
        forall|n: Seq<char>| #[trigger] r.contains(n) <==> field_directive_used(def_ref_views(defs@), n),
{
    let mut set = NameSet::new();
    let ghost dv = def_ref_views(defs@);
    let mut i: usize = 0;
    while i < defs.len()
        invariant
            i <= defs@.len(),
            dv == def_ref_views(defs@),
            set.wf(),
            forall|n: Seq<char>| #[trigger] set.contains(n) <==> field_directive_used(dv.subrange(0, i as int), n),
        decreases defs@.len() - i,
    {
        let (src, d) = defs[i];
        let mut k: usize = 0;
        while k < d.fields.len()
            invariant
                k <= d.fields@.len(),
                i < dv.len(),
                dv == def_ref_views(defs@),
                dv[i as int] == (src, d@),
                set.wf(),
                forall|n: Seq<char>| #[trigger] set.contains(n) <==> (field_directive_used(dv.subrange(0, i as int), n)
                    || exists|q: int, j: int| 0 <= q < k && 0 <= j < d@.fields[q].directives.len() && #[trigger] d@.fields[q].directives[j].name == n),
            decreases d.fields@.len() - k,
        {
            let f = &d.fields[k];
            let mut j: usize = 0;
            while j < f.directives.len()
                invariant
                    j <= f.directives@.len(),
                    k < d@.fields.len(),
                    d@.fields[k as int] == f@,
                    set.wf(),
                    forall|n: Seq<char>| #[trigger] set.contains(n) <==> (field_directive_used(dv.subrange(0, i as int), n)
                        || (exists|q: int, j2: int| 0 <= q < k && 0 <= j2 < d@.fields[q].directives.len() && #[trigger] d@.fields[q].directives[j2].name == n)
                        || (exists|j2: int| 0 <= j2 < j && #[trigger] f@.directives[j2].name == n)),
                decreases f.directives@.len() - j,
            {
                set.insert(f.directives[j].name.as_str());
                proof {
                    assert forall|n: Seq<char>| #[trigger] set.contains(n) <==> (field_directive_used(dv.subrange(0, i as int), n)
                        || (exists|q: int, j2: int| 0 <= q < k && 0 <= j2 < d@.fields[q].directives.len() && #[trigger] d@.fields[q].directives[j2].name == n)
                        || (exists|j2: int| 0 <= j2 < j + 1 && #[trigger] f@.directives[j2].name == n)) by {
                        if n == f@.directives[j as int].name {
                        }
                        if exists|j2: int| 0 <= j2 < j + 1 && #[trigger] f@.directives[j2].name == n {
                            let j2 = choose|j2: int| 0 <= j2 < j + 1 && #[trigger] f@.directives[j2].name == n;
                            if j2 < j {
                            }
                        }
                    }
                }
                j = j + 1;
            }
            proof {
                assert forall|n: Seq<char>| #[trigger] set.contains(n) <==> (field_directive_used(dv.subrange(0, i as int), n)
                    || exists|q: int, j2: int| 0 <= q < k + 1 && 0 <= j2 < d@.fields[q].directives.len() && #[trigger] d@.fields[q].directives[j2].name == n) by {
                    if exists|q: int, j2: int| 0 <= q < k + 1 && 0 <= j2 < d@.fields[q].directives.len() && #[trigger] d@.fields[q].directives[j2].name == n {
                        let (q, j2) = choose|q: int, j2: int| 0 <= q < k + 1 && 0 <= j2 < d@.fields[q].directives.len() && #[trigger] d@.fields[q].directives[j2].name == n;
                        if q == k {
                            assert(f@.directives[j2].name == n);
                        }
                    }
                    if exists|j2: int| 0 <= j2 < j && #[trigger] f@.directives[j2].name == n {
                        let j2 = choose|j2: int| 0 <= j2 < j && #[trigger] f@.directives[j2].name == n;
                        assert(d@.fields[k as int].directives[j2].name == n);
                    }
                }
            }
            k = k + 1;
        }
        proof {
            let pre = dv.subrange(0, i as int);
            let post = dv.subrange(0, i + 1);
            assert forall|n: Seq<char>| #[trigger] set.contains(n) <==> field_directive_used(post, n) by {
                if field_directive_used(post, n) {
                    let (a, q, j2) = choose|a: int, q: int, j2: int|
                        0 <= a < post.len() && 0 <= q < post[a].1.fields.len() && 0 <= j2 < post[a].1.fields[q].directives.len()
                            && #[trigger] post[a].1.fields[q].directives[j2].name == n;
                    if a < i {
                        assert(pre[a] == post[a]);
                        assert(field_directive_used(pre, n));
                    } else {
                        assert(post[a] == (src, d@));
                        assert(d@.fields[q].directives[j2].name == n);
                    }
                }
                if field_directive_used(pre, n) {
                    let (a, q, j2) = choose|a: int, q: int, j2: int|
                        0 <= a < pre.len() && 0 <= q < pre[a].1.fields.len() && 0 <= j2 < pre[a].1.fields[q].directives.len()
                            && #[trigger] pre[a].1.fields[q].directives[j2].name == n;
                    assert(post[a] == pre[a]);
                    assert(post[a].1.fields[q].directives[j2].name == n);
                }
                if exists|q: int, j2: int| 0 <= q < d@.fields.len() && 0 <= j2 < d@.fields[q].directives.len() && #[trigger] d@.fields[q].directives[j2].name == n {
                    let (q, j2) = choose|q: int, j2: int| 0 <= q < d@.fields.len() && 0 <= j2 < d@.fields[q].directives.len() && #[trigger] d@.fields[q].directives[j2].name == n;
                    assert(post[i as int] == (src, d@));
                    assert(post[i as int].1.fields[q].directives[j2].name == n);
                }
            }
        }
        i = i + 1;
    }
    assert(dv.subrange(0, i as int) =~= dv);
    set
}

fn defined_directives_from(defs: &Vec<(SourceId, &Def)>) -> (r: NameSet)
    ensures
        r.wf(),
        forall|n: Seq<char>| #[trigger] r.contains(n) <==> directive_defined(def_ref_views(defs@), n),
{
    let mut set = NameSet::new();
    let ghost dv = def_ref_views(defs@);
    let mut i: usize = 0;
    while i < defs.len()
        invariant
            i <= defs@.len(),
            dv == def_ref_views(defs@),
            set.wf(),
            forall|n: Seq<char>| #[trigger] set.contains(n) <==> directive_defined(dv.subrange(0, i as int), n),
        decreases defs@.len() - i,
    {
        let (src, d) = defs[i];
        if d.kind == DefKind::Directive {
            set.insert(d.name.as_str());
        }
        proof {
            let pre = dv.subrange(0, i as int);
            let post = dv.subrange(0, i + 1);
            assert(post[i as int] == (src, d@));
            assert forall|n: Seq<char>| #[trigger] set.contains(n) <==> directive_defined(post, n) by {
                if directive_defined(post, n) {
                    let a = choose|a: int| 0 <= a < post.len() && (#[trigger] post[a]).1.kind == DefKind::Directive && post[a].1.name == n;
                    if a < i {
                        assert(pre[a] == post[a]);
                    }
                }
                if directive_defined(pre, n) {
                    let a = choose|a: int| 0 <= a < pre.len() && (#[trigger] pre[a]).1.kind == DefKind::Directive && pre[a].1.name == n;
                    assert(post[a] == pre[a]);
                }
            }
        }
        i = i + 1;
    }
    assert(dv.subrange(0, i as int) =~= dv);
    set
}

fn roots_from(defs: &Vec<(SourceId, &Def)>) -> (r: (bool, ListMap<String>))
    ensures
        r.0 == has_schema(def_ref_views(defs@)),
        r.1.wf(),
        forall|op: Seq<char>| #[trigger] opt_name_views(r.1.spec_get(op)) == nonempty(roots_for(roots_of(def_ref_views(defs@)), op)),
{
    let mut has = false;
    let mut roots: ListMap<String> = ListMap::new();
    let ghost dv = def_ref_views(defs@);
    let mut i: usize = 0;
    assert(roots_of(dv.subrange(0, 0)) =~= seq![]);
    while i < defs.len()
        invariant
            i <= defs@.len(),
            dv == def_ref_views(defs@),
            has == has_schema(dv.subrange(0, i as int)),
            roots.wf(),
            forall|op: Seq<char>| #[trigger] opt_name_views(roots.spec_get(op)) == nonempty(roots_for(roots_of(dv.subrange(0, i as int)), op)),
        decreases defs@.len() - i,
    {
        let (src, d) = defs[i];
        let ghost pre = dv.subrange(0, i as int);
        let ghost post = dv.subrange(0, i + 1);
        proof {
            assert(post.drop_last() =~= pre);
            assert(post[i as int] == (src, d@));
        }
        let ghost base = roots_of(pre);
        if d.kind == DefKind::Schema {
            has = true;
            let ghost ops = d@.root_ops.map_values(|p: (Seq<char>, TypeRefV)| (p.0, p.1.named));
            let mut k: usize = 0;
            assert(base + ops.subrange(0, 0) =~= base);
            while k < d.root_ops.len()
                invariant
                    k <= d.root_ops@.len(),
                    ops == d@.root_ops.map_values(|p: (Seq<char>, TypeRefV)| (p.0, p.1.named)),
                    roots.wf(),
                    forall|op: Seq<char>| #[trigger] opt_name_views(roots.spec_get(op)) == nonempty(roots_for(base + ops.subrange(0, k as int), op)),
                decreases d.root_ops@.len() - k,
            {
                let ghost old_roots = roots;
                roots.push(d.root_ops[k].0.as_str(), d.root_ops[k].1.named.clone());
                proof {
                    let cur = base + ops.subrange(0, k as int);
                    let nxt = base + ops.subrange(0, k + 1);
                    assert(nxt =~= cur.push(ops[k as int]));
                    assert(nxt.drop_last() =~= cur);
                    assert forall|op: Seq<char>| #[trigger] opt_name_views(roots.spec_get(op)) == nonempty(roots_for(nxt, op)) by {
                        assert(opt_name_views(old_roots.spec_get(op)) == nonempty(roots_for(cur, op)));
                        if op == d@.root_ops[k as int].0 {
                            match old_roots.spec_get(op) {
                                Some(s) => {
                                    assert(name_views(s.push(d.root_ops@[k as int].1.named)) =~= name_views(s).push(ops[k as int].1));
                                },
                                None => {
                                    assert(name_views(Seq::<String>::empty().push(d.root_ops@[k as int].1.named)) =~= seq![ops[k as int].1]);
                                    assert(roots_for(cur, op) =~= seq![]);
                                    assert(seq![ops[k as int].1] =~= Seq::<Seq<char>>::empty().push(ops[k as int].1));
                                },
                            }
                        }
                    }
                }
                k = k + 1;
            }
            assert(ops.subrange(0, k as int) =~= ops);
            proof {
                assert(roots_of(post) == base + ops);
                assert(has_schema(post)) by {
                    assert(post[i as int].1.kind == DefKind::Schema);
                }
            }
        } else {
            proof {
                assert(roots_of(post) =~= base);
                assert(has_schema(post) == has_schema(pre)) by {
                    if has_schema(post) {
                        let a = choose|a: int| 0 <= a < post.len() && (#[trigger] post[a]).1.kind == DefKind::Schema;
                        if a < i {
                            assert(pre[a] == post[a]);
                        }
                    }
                    if has_schema(pre) {
                        let a = choose|a: int| 0 <= a < pre.len() && (#[trigger] pre[a]).1.kind == DefKind::Schema;
                        assert(post[a] == pre[a]);
                    }
                }
            }
        }
        proof {
            if d.kind == DefKind::Schema {
                assert(has_schema(post));
            }
        }
        i = i + 1;
    }
    assert(dv.subrange(0, i as int) =~= dv);
    (has, roots)
}

/// Build the schema model of the documents `(file, document)`.
impl SchemaModel {
    /// The model's own consistency: every map and set in text order, each
    /// recorded reference with its file, each root operation with at least
    /// one root type.
    pub open spec fn wf(&self) -> bool {
        &&& self.types.wf()
        &&& self.used.wf()
        &&& self.used_files.wf()
        &&& self.used_directives.wf()
        &&& self.defined_directives.wf()
        &&& self.roots.wf()
        &&& forall|n: Seq<char>| #[trigger] self.used.spec_get(n) is Some ==> parallel(self.used.spec_get(n), self.used_files.spec_get(n))
        &&& forall|k: int| 0 <= k < self.roots.entries@.len() ==> (#[trigger] self.roots.entries@[k]).1@.len() > 0
    }
}

/// A file is recorded for each span.
pub open spec fn parallel(spans: Option<Seq<Span>>, files: Option<Seq<SourceId>>) -> bool {
    match (spans, files) {
        (Some(s), Some(f)) => s.len() == f.len(),
        _ => false,
    }
}

proof fn lemma_spans_files_len(u: Seq<UseV>, n: Seq<char>)
    ensures
        spans_of(u, n).len() == files_of(u, n).len(),
    decreases u.len(),
{
    if u.len() > 0 {
        lemma_spans_files_len(u.drop_last(), n);
    }
}

/// `m` is the model of the definitions `defs`: each name's definitions in
/// order, each type's references in order with their files, the directives
/// applied and defined, whether a schema block exists, and the root types
/// given for each operation.
pub open spec fn models(m: SchemaModel, defs: Seq<(SourceId, DefV)>) -> bool {
    &&& forall|n: Seq<char>| #[trigger] types_match(m.types, defs, n)
    &&& uses_match(m.used, m.used_files, uses_of(defs))
    &&& forall|n: Seq<char>| #[trigger] m.used_directives.contains(n) <==> field_directive_used(defs, n)
    &&& forall|n: Seq<char>| #[trigger] m.defined_directives.contains(n) <==> directive_defined(defs, n)
    &&& m.has_schema_block == has_schema(defs)
    &&& forall|op: Seq<char>| #[trigger] opt_name_views(m.roots.spec_get(op)) == nonempty(roots_for(roots_of(defs), op))
}

pub fn build_model(docs: &Vec<(SourceId, &Document)>) -> (r: SchemaModel)
    ensures
        r.wf(),
        models(r, all_defs(doc_views(docs@))),
{
    let defs = flat_defs(docs);
    let types = types_from(&defs);
    let (used, used_files) = uses_from(&defs);
    let used_directives = field_directives_from(&defs);
    let defined_directives = defined_directives_from(&defs);
    let (has_schema_block, roots) = roots_from(&defs);
    let r = SchemaModel { types, used, used_files, used_directives, defined_directives, has_schema_block, roots };
    proof {
        let u = uses_of(all_defs(doc_views(docs@)));
        assert forall|n: Seq<char>| #[trigger] r.used.spec_get(n) is Some implies parallel(r.used.spec_get(n), r.used_files.spec_get(n)) by {
            lemma_spans_files_len(u, n);
        }
        assert forall|k: int| 0 <= k < r.roots.entries@.len() implies (#[trigger] r.roots.entries@[k]).1@.len() > 0 by {
            crate::names::lemma_items_under_at(r.roots.entries@, k);
            let op = r.roots.entries@[k].0@;
            assert(opt_name_views(r.roots.spec_get(op)) == nonempty(roots_for(roots_of(all_defs(doc_views(docs@))), op)));
            assert(name_views(r.roots.entries@[k].1@).len() == r.roots.entries@[k].1@.len());
        }
    }
    r
}


// ---------------------------------------------------------------------------
// What the model records of argument types
// ---------------------------------------------------------------------------

proof fn lemma_cat_at(parts: Seq<Seq<UseV>>, k: int, j: int) -> (idx: int)
    requires
        0 <= k < parts.len(),
        0 <= j < parts[k].len(),
    ensures
        0 <= idx < cat_uses(parts).len(),
        cat_uses(parts)[idx] == parts[k][j],
    decreases parts.len(),
{
    let pre = cat_uses(parts.drop_last());
    if k == parts.len() - 1 {
        pre.len() + j
    } else {
        assert(parts.drop_last()[k] == parts[k]);
        lemma_cat_at(parts.drop_last(), k, j)
    }
}

proof fn lemma_uses_of_at(defs: Seq<(SourceId, DefV)>, i: int, j: int) -> (idx: int)
    requires
        0 <= i < defs.len(),
        0 <= j < def_uses(defs[i].0, defs[i].1).len(),
    ensures
        0 <= idx < uses_of(defs).len(),
        uses_of(defs)[idx] == def_uses(defs[i].0, defs[i].1)[j],
    decreases defs.len(),
{
    let pre = uses_of(defs.drop_last());
    if i == defs.len() - 1 {
        pre.len() + j
    } else {
        assert(defs.drop_last()[i] == defs[i]);
        lemma_uses_of_at(defs.drop_last(), i, j)
    }
}

proof fn lemma_spans_at(u: Seq<UseV>, idx: int) -> (j: int)
    requires
        0 <= idx < u.len(),
    ensures
        0 <= j < spans_of(u, u[idx].0).len(),
        j < files_of(u, u[idx].0).len(),
        spans_of(u, u[idx].0)[j] == u[idx].1,
        files_of(u, u[idx].0)[j] == u[idx].2,
    decreases u.len(),
{
    let n = u[idx].0;
    lemma_spans_files_len(u.drop_last(), n);
    lemma_spans_files_len(u, n);
    if idx == u.len() - 1 {
        spans_of(u.drop_last(), n).len() as int
    } else {
        assert(u.drop_last()[idx] == u[idx]);
        lemma_spans_at(u.drop_last(), idx)
    }
}

/// Every type a field argument names, unless it is a built-in scalar
/// (`String`, `Int`, `Float`, `Boolean`, `ID`), is among the model's used
/// types, recorded with the span of the argument's type name and the file of
/// its definition.
pub proof fn law_argument_types_are_used(m: SchemaModel, defs: Seq<(SourceId, DefV)>, i: int, fk: int, ak: int) -> (j: int)
    requires
        models(m, defs),
        0 <= i < defs.len(),
        0 <= fk < defs[i].1.fields.len(),
        0 <= ak < defs[i].1.fields[fk].args.len(),
        ({
            let n = defs[i].1.fields[fk].args[ak].ty.named;
            n != "String"@ && n != "Int"@ && n != "Float"@ && n != "Boolean"@ && n != "ID"@
        }),
    ensures
        ({
            let a = defs[i].1.fields[fk].args[ak];
            &&& m.used.spec_get(a.ty.named) matches Some(sp) && 0 <= j < sp.len() && sp[j] == a.ty.named_span
            &&& m.used_files.spec_get(a.ty.named) matches Some(fs) && 0 <= j < fs.len() && fs[j] == defs[i].0
        }),
{
    let src = defs[i].0;
    let d = defs[i].1;
    let f = d.fields[fk];
    let a = f.args[ak];
    let x = (a.ty.named, a.ty.named_span, src);
    assert(!builtin(a.ty.named));
    let aparts = f.args.map_values(|b: crate::graphql::ast::ArgV| type_use(b.ty, src));
    assert(aparts[ak] == seq![x]);
    let i1 = lemma_cat_at(aparts, ak, 0);
    let tu = type_use(f.ty, src);
    assert(field_uses(f, src) == tu + cat_uses(aparts));
    assert(field_uses(f, src)[tu.len() + i1] == x);
    let fparts = d.fields.map_values(|g: FieldV| field_uses(g, src));
    assert(fparts[fk] == field_uses(f, src));
    let i2 = lemma_cat_at(fparts, fk, tu.len() + i1);
    let roots = if d.kind == DefKind::Schema {
        cat_uses(d.root_ops.map_values(|p: (Seq<char>, TypeRefV)| type_use(p.1, src)))
    } else {
        seq![]
    };
    let du = def_uses(src, d);
    assert(du[roots.len() + i2] == x);
    let i3 = lemma_uses_of_at(defs, i, roots.len() + i2);
    let u = uses_of(defs);
    assert(u[i3] == x);
    let j = lemma_spans_at(u, i3);
    j
}


/// Every type a field names, unless it is a built-in scalar (`String`,
/// `Int`, `Float`, `Boolean`, `ID`), is among the model's used types,
/// recorded with the span of the type name and the file of its definition.
pub proof fn law_field_types_are_used(m: SchemaModel, defs: Seq<(SourceId, DefV)>, i: int, fk: int) -> (j: int)
    requires
        models(m, defs),
        0 <= i < defs.len(),
        0 <= fk < defs[i].1.fields.len(),
        ({
            let n = defs[i].1.fields[fk].ty.named;
            n != "String"@ && n != "Int"@ && n != "Float"@ && n != "Boolean"@ && n != "ID"@
        }),
    ensures
        ({
            let ty = defs[i].1.fields[fk].ty;
            &&& m.used.spec_get(ty.named) matches Some(sp) && 0 <= j < sp.len() && sp[j] == ty.named_span
            &&& m.used_files.spec_get(ty.named) matches Some(fs) && 0 <= j < fs.len() && fs[j] == defs[i].0
        }),
{
    let src = defs[i].0;
    let d = defs[i].1;
    let f = d.fields[fk];
    let x = (f.ty.named, f.ty.named_span, src);
    assert(!builtin(f.ty.named));
    let aparts = f.args.map_values(|b: crate::graphql::ast::ArgV| type_use(b.ty, src));
    assert(field_uses(f, src) == type_use(f.ty, src) + cat_uses(aparts));
    assert(field_uses(f, src)[0] == x);
    let fparts = d.fields.map_values(|g: FieldV| field_uses(g, src));
    assert(fparts[fk] == field_uses(f, src));
    let i2 = lemma_cat_at(fparts, fk, 0);
    let roots = if d.kind == DefKind::Schema {
        cat_uses(d.root_ops.map_values(|p: (Seq<char>, TypeRefV)| type_use(p.1, src)))
    } else {
        seq![]
    };
    let du = def_uses(src, d);
    assert(du[roots.len() + i2] == x);
    let i3 = lemma_uses_of_at(defs, i, roots.len() + i2);
    lemma_spans_at(uses_of(defs), i3)
}

/// Every interface a definition implements is among the model's used types,
/// recorded at the definition's name in its file.
pub proof fn law_implemented_interfaces_are_used(m: SchemaModel, defs: Seq<(SourceId, DefV)>, i: int, k: int) -> (j: int)
    requires
        models(m, defs),
        0 <= i < defs.len(),
        0 <= k < defs[i].1.implements.len(),
    ensures
        ({
            let n = defs[i].1.implements[k];
            &&& m.used.spec_get(n) matches Some(sp) && 0 <= j < sp.len() && sp[j] == defs[i].1.name_span
            &&& m.used_files.spec_get(n) matches Some(fs) && 0 <= j < fs.len() && fs[j] == defs[i].0
        }),
{
    let src = defs[i].0;
    let d = defs[i].1;
    let roots = if d.kind == DefKind::Schema {
        cat_uses(d.root_ops.map_values(|p: (Seq<char>, TypeRefV)| type_use(p.1, src)))
    } else {
        seq![]
    };
    let fu = cat_uses(d.fields.map_values(|f: FieldV| field_uses(f, src)));
    let du = def_uses(src, d);
    assert(du[roots.len() + fu.len() + k] == (d.implements[k], d.name_span, src));
    let i3 = lemma_uses_of_at(defs, i, roots.len() + fu.len() + k);
    lemma_spans_at(uses_of(defs), i3)
}

} // verus!
