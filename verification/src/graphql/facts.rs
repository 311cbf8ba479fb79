//! The facts view of GraphQL SDL.
//!
//! Facts are the language-agnostic hand-off between an AST plugin and
//! independently authored rules: the GraphQL plugin publishes them per file
//! (`graphql.facts`) and for the workspace (`graphql.workspace`, with the
//! path of every definition and reference), so a rule written against this
//! vocabulary runs over any GraphQL AST provider.

use crate::diagnostic::{SourceId, Span};
use crate::facts::{
    def_fact_views, opt_text, pair_views, strs, use_fact_views, DefFact, DefFactV, FactsV, FieldFact,
    FieldFactV, Facts, UseFact, UseFactV,
};
use crate::graphql::ast::{ArgV, Def, DefKind, DefV, DirV, Document, FieldDef, FieldV, TypeRef, TypeRefV};
use crate::graphql::model::{builtin, is_builtin, FieldEntry, SchemaModel, TypeEntry};
use crate::names::{items_under, ListMap};
use crate::text::{push_str, string_of};
use vstd::prelude::*;

verus! {

/// Stable wire name of a definition kind.
pub open spec fn kind_name(kind: DefKind) -> Seq<char> {
    match kind {
        DefKind::Schema => "schema"@,
        DefKind::Scalar => "scalar"@,
        DefKind::Object => "object"@,
        DefKind::Interface => "interface"@,
        DefKind::Input => "input"@,
        DefKind::Enum => "enum"@,
        DefKind::Union => "union"@,
        DefKind::Directive => "directive"@,
    }
}

pub fn kind_str(kind: DefKind) -> (r: &'static str)
    ensures
        r@ == kind_name(kind),
{
    match kind {
        DefKind::Schema => "schema",
        DefKind::Scalar => "scalar",
        DefKind::Object => "object",
        DefKind::Interface => "interface",
        DefKind::Input => "input",
        DefKind::Enum => "enum",
        DefKind::Union => "union",
        DefKind::Directive => "directive",
    }
}

pub open spec fn cat<T>(parts: Seq<Seq<T>>) -> Seq<T>
    decreases parts.len(),
{
    if parts.len() == 0 {
        seq![]
    } else {
        cat(parts.drop_last()) + parts.last()
    }
}

pub open spec fn span_pair(s: Span) -> (u32, u32) {
    (s.start, s.end)
}

pub open spec fn dir_names(s: Seq<DirV>) -> Seq<Seq<char>> {
    s.map_values(|d: DirV| d.name)
}

pub open spec fn field_fact_v(def_name: Seq<char>, f: FieldV) -> FieldFactV {
    FieldFactV {
        name: f.name,
        span: span_pair(f.name_span),
        named_type: Some(f.ty.named),
        required: f.ty.non_null,
        directives: dir_names(f.directives),
        subject: "type:"@ + def_name + ".field:"@ + f.name,
    }
}

pub open spec fn def_fact_v(d: DefV) -> DefFactV {
    DefFactV {
        kind: kind_name(d.kind),
        name: d.name,
        span: span_pair(d.name_span),
        subject: "type:"@ + d.name,
        fields: d.fields.map_values(|f: FieldV| field_fact_v(d.name, f)),
        implements: d.implements,
        union_members: d.union_members,
        enum_values: d.enum_values,
        directives: dir_names(d.directives),
        path: None,
    }
}

pub open spec fn use_v(name: Seq<char>, span: Span) -> UseFactV {
    UseFactV { name, span: span_pair(span), path: None }
}

/// A reference to a type, unless it is a built-in scalar.
pub open spec fn type_use_fact(t: TypeRefV) -> Seq<UseFactV> {
    if builtin(t.named) {
        seq![]
    } else {
        seq![use_v(t.named, t.named_span)]
    }
}

pub open spec fn field_use_facts(f: FieldV) -> Seq<UseFactV> {
    type_use_fact(f.ty) + cat(f.args.map_values(|a: ArgV| type_use_fact(a.ty)))
}

/// The references of one definition: schema root types, field and argument
/// types, implemented interfaces (built-in scalars left out), union members.
pub open spec fn file_uses(d: DefV) -> Seq<UseFactV> {
    let roots = if d.kind == DefKind::Schema {
        cat(d.root_ops.map_values(|p: (Seq<char>, TypeRefV)| type_use_fact(p.1)))
    } else {
        seq![]
    };
    let impls = cat(
        d.implements.map_values(
            |n: Seq<char>|
                if builtin(n) {
                    Seq::<UseFactV>::empty()
                } else {
                    seq![use_v(n, d.name_span)]
                },
        ),
    );
    roots + cat(d.fields.map_values(|f: FieldV| field_use_facts(f))) + impls + d.union_members.map_values(
        |n: Seq<char>| use_v(n, d.name_span),
    )
}

/// The directives a definition applies: those on its fields, then its own.
pub open spec fn file_dirs_used(d: DefV) -> Seq<Seq<char>> {
    cat(d.fields.map_values(|f: FieldV| dir_names(f.directives))) + dir_names(d.directives)
}

pub open spec fn root_pairs(d: DefV) -> Seq<(Seq<char>, Seq<char>)> {
    if d.kind == DefKind::Schema {
        d.root_ops.map_values(|p: (Seq<char>, TypeRefV)| (p.0, p.1.named))
    } else {
        seq![]
    }
}

/// The facts of a document's definitions.
pub open spec fn file_facts_spec(defs: Seq<DefV>) -> FactsV
    decreases defs.len(),
{
    if defs.len() == 0 {
        FactsV {
            defs: seq![],
            uses: seq![],
            directives_defined: seq![],
            directives_used: seq![],
            has_entry_block: false,
            roots: seq![],
        }
    } else {
        let p = file_facts_spec(defs.drop_last());
        let d = defs.last();
        FactsV {
            defs: p.defs.push(def_fact_v(d)),
            uses: p.uses + file_uses(d),
            directives_defined: p.directives_defined + if d.kind == DefKind::Directive {
                seq![d.name]
            } else {
                seq![]
            },
            directives_used: p.directives_used + file_dirs_used(d),
            has_entry_block: p.has_entry_block || d.kind == DefKind::Schema,
            roots: p.roots + root_pairs(d),
        }
    }
}

fn dir_name_list(ds: &Vec<crate::graphql::ast::AppliedDirective>) -> (r: Vec<String>)
    ensures
        strs(r@) == dir_names(crate::graphql::ast::dir_views(ds@)),
{
    let mut out: Vec<String> = Vec::new();
    let mut k: usize = 0;
    while k < ds.len()
        invariant
            k <= ds@.len(),
            strs(out@) == dir_names(crate::graphql::ast::dir_views(ds@)).subrange(0, k as int),
        decreases ds@.len() - k,
    {
        let ghost before = strs(out@);
        out.push(ds[k].name.clone());
        assert(strs(out@) =~= before.push(ds@[k as int].name@));
        assert(strs(out@) =~= dir_names(crate::graphql::ast::dir_views(ds@)).subrange(0, k + 1));
        k = k + 1;
    }
    assert(dir_names(crate::graphql::ast::dir_views(ds@)).subrange(0, k as int) =~= dir_names(
        crate::graphql::ast::dir_views(ds@),
    ));
    out
}

fn field_fact(def_name: &str, f: &FieldDef) -> (r: FieldFact)
    ensures
        r@ == field_fact_v(def_name@, f@),
{
    let mut subject = string_of("type:");
    push_str(&mut subject, def_name);
    push_str(&mut subject, ".field:");
    push_str(&mut subject, f.name.as_str());
    let r = FieldFact {
        name: f.name.clone(),
        span: [f.name_span.start, f.name_span.end],
        named_type: Some(f.ty.named.clone()),
        required: f.ty.is_required(),
        directives: dir_name_list(&f.directives),
        subject,
    };
    assert(r@.subject =~= field_fact_v(def_name@, f@).subject);
    r
}

fn def_fact(d: &Def) -> (r: DefFact)
    ensures
        r@ == def_fact_v(d@),
{
    let mut fields: Vec<FieldFact> = Vec::new();
    let mut k: usize = 0;
    while k < d.fields.len()
        invariant
            k <= d.fields@.len(),
            fields@.map_values(|f: FieldFact| f@) == d@.fields.subrange(0, k as int).map_values(|f: FieldV| field_fact_v(d@.name, f)),
        decreases d.fields@.len() - k,
    {
        let x = field_fact(d.name.as_str(), &d.fields[k]);
        let ghost before = fields@.map_values(|f: FieldFact| f@);
        fields.push(x);
        assert(fields@.map_values(|f: FieldFact| f@) =~= before.push(x@));
        assert(fields@.map_values(|f: FieldFact| f@) =~= d@.fields.subrange(0, k + 1).map_values(|f: FieldV| field_fact_v(d@.name, f)));
        k = k + 1;
    }
    assert(d@.fields.subrange(0, k as int) =~= d@.fields);
    let mut subject = string_of("type:");
    push_str(&mut subject, d.name.as_str());
    let r = DefFact {
        kind: string_of(kind_str(d.kind)),
        name: d.name.clone(),
        span: [d.name_span.start, d.name_span.end],
        subject,
        fields,
        implements: crate::text::copy_strings(&d.implements),
        union_members: crate::text::copy_strings(&d.union_members),
        enum_values: crate::text::copy_strings(&d.enum_values),
        directives: dir_name_list(&d.directives),
        path: None,
    };
    assert(r@.implements =~= d@.implements);
    assert(r@.union_members =~= d@.union_members);
    assert(r@.enum_values =~= d@.enum_values);
    r
}

fn push_use(uses: &mut Vec<UseFact>, name: &String, span: Span)
    ensures
        use_fact_views(final(uses)@) == use_fact_views(old(uses)@).push(use_v(name@, span)),
{
    let u = UseFact { name: name.clone(), span: [span.start, span.end], path: None };
    uses.push(u);
    assert(use_fact_views(uses@) =~= use_fact_views(old(uses)@).push(use_v(name@, span)));
}

fn push_type_use(uses: &mut Vec<UseFact>, t: &TypeRef)
    ensures
        use_fact_views(final(uses)@) == use_fact_views(old(uses)@) + type_use_fact(t@),
{
    if !is_builtin(t.named.as_str()) {
        push_use(uses, &t.named, t.named_span);
        assert(use_fact_views(old(uses)@).push(use_v(t@.named, t@.named_span)) =~= use_fact_views(old(uses)@) + type_use_fact(t@));
    } else {
        assert(use_fact_views(old(uses)@) + type_use_fact(t@) =~= use_fact_views(old(uses)@));
    }
}

fn push_def_uses(uses: &mut Vec<UseFact>, d: &Def)
    ensures
        use_fact_views(final(uses)@) == use_fact_views(old(uses)@) + file_uses(d@),
{
    let ghost dv = d@;
    let ghost u0 = use_fact_views(uses@);
    if d.kind == DefKind::Schema {
        let ghost parts = dv.root_ops.map_values(|p: (Seq<char>, TypeRefV)| type_use_fact(p.1));
        let mut k: usize = 0;
        assert(u0 + cat(parts.subrange(0, 0)) =~= u0);
        while k < d.root_ops.len()
            invariant
                k <= d.root_ops@.len(),
                dv == d@,
                parts == dv.root_ops.map_values(|p: (Seq<char>, TypeRefV)| type_use_fact(p.1)),
                use_fact_views(uses@) == u0 + cat(parts.subrange(0, k as int)),
            decreases d.root_ops@.len() - k,
        {
            push_type_use(uses, &d.root_ops[k].1);
            assert(parts.subrange(0, k + 1).drop_last() =~= parts.subrange(0, k as int));
            assert(use_fact_views(uses@) =~= u0 + cat(parts.subrange(0, k + 1)));
            k = k + 1;
        }
        assert(parts.subrange(0, k as int) =~= parts);
    }
    let ghost u1 = use_fact_views(uses@);
    let ghost fparts = dv.fields.map_values(|f: FieldV| field_use_facts(f));
    let mut k: usize = 0;
    assert(u1 + cat(fparts.subrange(0, 0)) =~= u1);
    while k < d.fields.len()
        invariant
            k <= d.fields@.len(),
            dv == d@,
            fparts == dv.fields.map_values(|f: FieldV| field_use_facts(f)),
            use_fact_views(uses@) == u1 + cat(fparts.subrange(0, k as int)),
        decreases d.fields@.len() - k,
    {
        let f = &d.fields[k];
        let ghost fstart = use_fact_views(uses@);
        push_type_use(uses, &f.ty);
        let ghost aparts = f@.args.map_values(|a: ArgV| type_use_fact(a.ty));
        let ghost after_ty = use_fact_views(uses@);
        let mut a: usize = 0;
        assert(after_ty + cat(aparts.subrange(0, 0)) =~= after_ty);
        while a < f.args.len()
            invariant
                a <= f.args@.len(),
                aparts == f@.args.map_values(|x: ArgV| type_use_fact(x.ty)),
                use_fact_views(uses@) == after_ty + cat(aparts.subrange(0, a as int)),
            decreases f.args@.len() - a,
        {
            push_type_use(uses, &f.args[a].ty);
            assert(aparts.subrange(0, a + 1).drop_last() =~= aparts.subrange(0, a as int));
            assert(use_fact_views(uses@) =~= after_ty + cat(aparts.subrange(0, a + 1)));
            a = a + 1;
        }
        assert(aparts.subrange(0, a as int) =~= aparts);
        assert(use_fact_views(uses@) =~= fstart + field_use_facts(f@));
        assert(fparts.subrange(0, k + 1).drop_last() =~= fparts.subrange(0, k as int));
        assert(use_fact_views(uses@) =~= u1 + cat(fparts.subrange(0, k + 1)));
        k = k + 1;
    }
    assert(fparts.subrange(0, k as int) =~= fparts);
    let ghost u2 = use_fact_views(uses@);
    let ghost iparts = dv.implements.map_values(
        |n: Seq<char>|
            if builtin(n) {
                Seq::<UseFactV>::empty()
            } else {
                seq![use_v(n, dv.name_span)]
            },
    );
    let mut k: usize = 0;
    assert(u2 + cat(iparts.subrange(0, 0)) =~= u2);
    while k < d.implements.len()
        invariant
            k <= d.implements@.len(),
            dv == d@,
            iparts == dv.implements.map_values(
                |n: Seq<char>|
                    if builtin(n) {
                        Seq::<UseFactV>::empty()
                    } else {
                        seq![use_v(n, dv.name_span)]
                    },
            ),
            use_fact_views(uses@) == u2 + cat(iparts.subrange(0, k as int)),
        decreases d.implements@.len() - k,
    {
        assert(iparts.subrange(0, k + 1).drop_last() =~= iparts.subrange(0, k as int));
        if !is_builtin(d.implements[k].as_str()) {
            push_use(uses, &d.implements[k], d.name_span);
            assert(use_fact_views(uses@) =~= u2 + cat(iparts.subrange(0, k + 1)));
        } else {
            assert(use_fact_views(uses@) =~= u2 + cat(iparts.subrange(0, k + 1)));
        }
        k = k + 1;
    }
    assert(iparts.subrange(0, k as int) =~= iparts);
    let ghost u3 = use_fact_views(uses@);
    let mut k: usize = 0;
    while k < d.union_members.len()
        invariant
            k <= d.union_members@.len(),
            dv == d@,
            use_fact_views(uses@) == u3 + dv.union_members.subrange(0, k as int).map_values(|n: Seq<char>| use_v(n, dv.name_span)),
        decreases d.union_members@.len() - k,
    {
        push_use(uses, &d.union_members[k], d.name_span);
        assert(use_fact_views(uses@) =~= u3 + dv.union_members.subrange(0, k + 1).map_values(|n: Seq<char>| use_v(n, dv.name_span)));
        k = k + 1;
    }
    assert(dv.union_members.subrange(0, k as int) =~= dv.union_members);
    assert(use_fact_views(uses@) =~= u0 + file_uses(dv));
}

fn push_dirs_used(du: &mut Vec<String>, d: &Def)
    ensures
        strs(final(du)@) == strs(old(du)@) + file_dirs_used(d@),
{
    let ghost dv = d@;
    let ghost s0 = strs(du@);
    let ghost parts = dv.fields.map_values(|f: FieldV| dir_names(f.directives));
    let mut k: usize = 0;
    assert(s0 + cat(parts.subrange(0, 0)) =~= s0);
    while k < d.fields.len()
        invariant
            k <= d.fields@.len(),
            dv == d@,
            parts == dv.fields.map_values(|f: FieldV| dir_names(f.directives)),
            strs(du@) == s0 + cat(parts.subrange(0, k as int)),
        decreases d.fields@.len() - k,
    {
        let mut names = dir_name_list(&d.fields[k].directives);
        let ghost before = strs(du@);
        let ghost nv = strs(names@);
        du.append(&mut names);
        assert(strs(du@) =~= before + nv);
        assert(parts.subrange(0, k + 1).drop_last() =~= parts.subrange(0, k as int));
        assert(strs(du@) =~= s0 + cat(parts.subrange(0, k + 1)));
        k = k + 1;
    }
    assert(parts.subrange(0, k as int) =~= parts);
    let mut own = dir_name_list(&d.directives);
    let ghost before = strs(du@);
    let ghost ov = strs(own@);
    du.append(&mut own);
    assert(strs(du@) =~= before + ov);
    assert(strs(du@) =~= s0 + file_dirs_used(dv));
}

/// Facts for one document (no paths: the workspace view adds those).
pub fn file_facts(doc: &Document) -> (r: Facts)
    ensures
        r@ == file_facts_spec(doc@),
{
    let mut defs: Vec<DefFact> = Vec::new();
    let mut uses: Vec<UseFact> = Vec::new();
    let mut directives_defined: Vec<String> = Vec::new();
    let mut directives_used: Vec<String> = Vec::new();
    let mut has_entry_block = false;
    let mut roots: Vec<(String, String)> = Vec::new();
    let mut i: usize = 0;
    assert(doc@.subrange(0, 0) =~= Seq::<DefV>::empty());
    assert(def_fact_views(defs@) =~= seq![]);
    assert(use_fact_views(uses@) =~= seq![]);
    assert(strs(directives_defined@) =~= seq![]);
    assert(strs(directives_used@) =~= seq![]);
    assert(pair_views(roots@) =~= seq![]);
    while i < doc.defs.len()
        invariant
            i <= doc.defs@.len(),
            (FactsV {
                defs: def_fact_views(defs@),
                uses: use_fact_views(uses@),
                directives_defined: strs(directives_defined@),
                directives_used: strs(directives_used@),
                has_entry_block,
                roots: pair_views(roots@),
            }) == file_facts_spec(doc@.subrange(0, i as int)),
        decreases doc.defs@.len() - i,
    {
        let d = &doc.defs[i];
        let ghost prefix = doc@.subrange(0, i + 1);
        assert(prefix.drop_last() =~= doc@.subrange(0, i as int));
        assert(prefix.last() == d@);
        if d.kind == DefKind::Directive {
            let ghost before = strs(directives_defined@);
            directives_defined.push(d.name.clone());
            assert(strs(directives_defined@) =~= before + seq![d@.name]);
        } else {
            assert(strs(directives_defined@) =~= strs(directives_defined@) + Seq::<Seq<char>>::empty());
        }
        if d.kind == DefKind::Schema {
            has_entry_block = true;
            let mut k: usize = 0;
            let ghost r0 = pair_views(roots@);
            while k < d.root_ops.len()
                invariant
                    k <= d.root_ops@.len(),
                    pair_views(roots@) == r0 + d@.root_ops.subrange(0, k as int).map_values(|p: (Seq<char>, TypeRefV)| (p.0, p.1.named)),
                decreases d.root_ops@.len() - k,
            {
                let ghost before = pair_views(roots@);
                roots.push((d.root_ops[k].0.clone(), d.root_ops[k].1.named.clone()));
                assert(pair_views(roots@) =~= before.push((d@.root_ops[k as int].0, d@.root_ops[k as int].1.named)));
                assert(pair_views(roots@) =~= r0 + d@.root_ops.subrange(0, k + 1).map_values(|p: (Seq<char>, TypeRefV)| (p.0, p.1.named)));
                k = k + 1;
            }
            assert(d@.root_ops.subrange(0, k as int) =~= d@.root_ops);
        } else {
            assert(pair_views(roots@) =~= pair_views(roots@) + root_pairs(d@));
        }
        push_def_uses(&mut uses, d);
        push_dirs_used(&mut directives_used, d);
        let f = def_fact(d);
        let ghost before = def_fact_views(defs@);
        defs.push(f);
        assert(def_fact_views(defs@) =~= before.push(def_fact_v(d@)));
        i = i + 1;
    }
    assert(doc@.subrange(0, i as int) =~= doc@);
    Facts { defs, uses, directives_defined, directives_used, has_entry_block, roots }
}

} // verus!

verus! {

/// The path recorded for a file id (the first entry with that id), or
/// nothing.
pub open spec fn path_for(path_of: Seq<(SourceId, String)>, id: SourceId) -> Seq<char>
    decreases path_of.len(),
{
    if path_of.len() == 0 {
        Seq::<char>::empty()
    } else if path_of[0].0 == id {
        path_of[0].1@
    } else {
        path_for(path_of.drop_first(), id)
    }
}

fn path_of_id(path_of: &Vec<(SourceId, String)>, id: SourceId) -> (r: String)
    ensures
        r@ == path_for(path_of@, id),
{
    let mut i: usize = 0;
    assert(path_of@.skip(0) =~= path_of@);
    while i < path_of.len()
        invariant
            i <= path_of@.len(),
            path_for(path_of@, id) == path_for(path_of@.skip(i as int), id),
        decreases path_of@.len() - i,
    {
        assert(path_of@.skip(i as int).drop_first() =~= path_of@.skip(i + 1));
        if path_of[i].0 == id {
            return path_of[i].1.clone();
        }
        i = i + 1;
    }
    String::new()
}

pub open spec fn entry_field_fact(f: FieldEntry) -> FieldFactV {
    FieldFactV {
        name: f.name@,
        span: span_pair(f.name_span),
        named_type: Some(f.named_type@),
        required: f.required,
        directives: strs(f.directives@),
        subject: f.subject@,
    }
}

/// The workspace fact of a type entry found at `path`.
pub open spec fn entry_fact(e: TypeEntry, path: Seq<char>) -> DefFactV {
    DefFactV {
        kind: kind_name(e.kind),
        name: e.name@,
        span: span_pair(e.name_span),
        subject: "type:"@ + e.name@,
        fields: e.fields@.map_values(|f: FieldEntry| entry_field_fact(f)),
        implements: strs(e.implements.names@),
        union_members: strs(e.union_members@),
        enum_values: strs(e.enum_values@),
        directives: strs(e.directives@),
        path: Some(path),
    }
}

/// The definitions of the workspace view: every type entry, by type name in
/// text order, then in the order recorded.
pub open spec fn ws_defs(types: Seq<(String, Vec<TypeEntry>)>, path_of: Seq<(SourceId, String)>) -> Seq<DefFactV>
    decreases types.len(),
{
    if types.len() == 0 {
        seq![]
    } else {
        ws_defs(types.drop_last(), path_of) + types.last().1@.map_values(|e: TypeEntry| entry_fact(e, path_for(path_of, e.source)))
    }
}

/// The file of the `i`-th reference to `name`, or id 0.
pub open spec fn use_file(files: ListMap<SourceId>, name: Seq<char>, i: int) -> SourceId {
    match files.spec_get(name) {
        Some(fs) => if 0 <= i < fs.len() {
            fs[i]
        } else {
            SourceId(0)
        },
        None => SourceId(0),
    }
}

/// The references of the workspace view: by type name in text order, then
/// in the order recorded, each with the path of its file.
pub open spec fn ws_uses(used: Seq<(String, Vec<Span>)>, files: ListMap<SourceId>, path_of: Seq<(SourceId, String)>) -> Seq<UseFactV>
    decreases used.len(),
{
    if used.len() == 0 {
        seq![]
    } else {
        let (name, spans) = used.last();
        ws_uses(used.drop_last(), files, path_of) + Seq::new(
            spans@.len(),
            |i: int| UseFactV { name: name@, span: span_pair(spans@[i]), path: Some(path_for(path_of, use_file(files, name@, i))) },
        )
    }
}

/// The root operations, each with the root type given last.
pub open spec fn ws_roots(roots: Seq<(String, Vec<String>)>) -> Seq<(Seq<char>, Seq<char>)> {
    roots.map_values(|p: (String, Vec<String>)| (p.0@, p.1@.last()@))
}

/// The cross-file facts (`graphql.workspace`): the file vocabulary with the
/// path of every definition and reference, computed from the schema model.
pub open spec fn workspace_facts_spec(m: SchemaModel, path_of: Seq<(SourceId, String)>) -> FactsV {
    FactsV {
        defs: ws_defs(m.types.entries@, path_of),
        uses: ws_uses(m.used.entries@, m.used_files, path_of),
        directives_defined: strs(m.defined_directives.names@),
        directives_used: strs(m.used_directives.names@),
        has_entry_block: m.has_schema_block,
        roots: ws_roots(m.roots.entries@),
    }
}

fn entry_def_fact(e: &TypeEntry, path: String) -> (r: DefFact)
    ensures
        r@ == entry_fact(*e, path@),
{
    let mut fields: Vec<FieldFact> = Vec::new();
    let mut k: usize = 0;
    while k < e.fields.len()
        invariant
            k <= e.fields@.len(),
            fields@.map_values(|f: FieldFact| f@) == e.fields@.subrange(0, k as int).map_values(|f: FieldEntry| entry_field_fact(f)),
        decreases e.fields@.len() - k,
    {
        let f = &e.fields[k];
        let x = FieldFact {
            name: f.name.clone(),
            span: [f.name_span.start, f.name_span.end],
            named_type: Some(f.named_type.clone()),
            required: f.required,
            directives: crate::text::copy_strings(&f.directives),
            subject: f.subject.clone(),
        };
        assert(x@.directives =~= strs(f.directives@));
        let ghost before = fields@.map_values(|f: FieldFact| f@);
        fields.push(x);
        assert(fields@.map_values(|f: FieldFact| f@) =~= before.push(x@));
        assert(fields@.map_values(|f: FieldFact| f@) =~= e.fields@.subrange(0, k + 1).map_values(|f: FieldEntry| entry_field_fact(f)));
        k = k + 1;
    }
    assert(e.fields@.subrange(0, k as int) =~= e.fields@);
    let mut subject = string_of("type:");
    push_str(&mut subject, e.name.as_str());
    let r = DefFact {
        kind: string_of(kind_str(e.kind)),
        name: e.name.clone(),
        span: [e.name_span.start, e.name_span.end],
        subject,
        fields,
        implements: crate::text::copy_strings(&e.implements.names),
        union_members: crate::text::copy_strings(&e.union_members),
        enum_values: crate::text::copy_strings(&e.enum_values),
        directives: crate::text::copy_strings(&e.directives),
        path: Some(path),
    };
    assert(r@.implements =~= strs(e.implements.names@));
    assert(r@.union_members =~= strs(e.union_members@));
    assert(r@.enum_values =~= strs(e.enum_values@));
    assert(r@.directives =~= strs(e.directives@));
    r
}

fn list_get_file(files: &ListMap<SourceId>, name: &String, i: usize) -> (r: SourceId)
    ensures
        r == use_file(*files, name@, i as int),
{
    let mut k: usize = 0;
    assert(files.entries@.skip(0) =~= files.entries@);
    while k < files.entries.len()
        invariant
            k <= files.entries@.len(),
            items_under(files.entries@, name@) == items_under(files.entries@.skip(k as int), name@),
        decreases files.entries@.len() - k,
    {
        assert(files.entries@.skip(k as int).drop_first() =~= files.entries@.skip(k + 1));
        if files.entries[k].0 == *name {
            let fs = &files.entries[k].1;
            if i < fs.len() {
                return fs[i];
            } else {
                return SourceId(0);
            }
        }
        k = k + 1;
    }
    SourceId(0)
}

/// The cross-file facts of the schema model; `path_of` gives each file's
/// path (an unknown file gets an empty path).
pub fn workspace_facts(model: &SchemaModel, path_of: &Vec<(SourceId, String)>) -> (r: Facts)
    requires
        model.wf(),
    ensures
        r@ == workspace_facts_spec(*model, path_of@),
{
    let mut defs: Vec<DefFact> = Vec::new();
    let mut i: usize = 0;
    assert(def_fact_views(defs@) =~= ws_defs(model.types.entries@.subrange(0, 0), path_of@));
    while i < model.types.entries.len()
        invariant
            i <= model.types.entries@.len(),
            def_fact_views(defs@) == ws_defs(model.types.entries@.subrange(0, i as int), path_of@),
        decreases model.types.entries@.len() - i,
    {
        let es = &model.types.entries[i].1;
        let ghost d0 = def_fact_views(defs@);
        let mut j: usize = 0;
        while j < es.len()
            invariant
                j <= es@.len(),
                def_fact_views(defs@) == d0 + es@.subrange(0, j as int).map_values(|e: TypeEntry| entry_fact(e, path_for(path_of@, e.source))),
            decreases es@.len() - j,
        {
            let p = path_of_id(path_of, es[j].source);
            let f = entry_def_fact(&es[j], p);
            let ghost before = def_fact_views(defs@);
            defs.push(f);
            assert(def_fact_views(defs@) =~= before.push(f@));
            assert(def_fact_views(defs@) =~= d0 + es@.subrange(0, j + 1).map_values(|e: TypeEntry| entry_fact(e, path_for(path_of@, e.source))));
            j = j + 1;
        }
        assert(es@.subrange(0, j as int) =~= es@);
        assert(model.types.entries@.subrange(0, i + 1).drop_last() =~= model.types.entries@.subrange(0, i as int));
        i = i + 1;
    }
    assert(model.types.entries@.subrange(0, i as int) =~= model.types.entries@);
    let mut uses: Vec<UseFact> = Vec::new();
    let mut i: usize = 0;
    assert(use_fact_views(uses@) =~= ws_uses(model.used.entries@.subrange(0, 0), model.used_files, path_of@));
    while i < model.used.entries.len()
        invariant
            i <= model.used.entries@.len(),
            use_fact_views(uses@) == ws_uses(model.used.entries@.subrange(0, i as int), model.used_files, path_of@),
        decreases model.used.entries@.len() - i,
    {
        let name = &model.used.entries[i].0;
        let spans = &model.used.entries[i].1;
        let ghost u0 = use_fact_views(uses@);
        let ghost part = Seq::new(
            spans@.len(),
            |q: int| UseFactV { name: name@, span: span_pair(spans@[q]), path: Some(path_for(path_of@, use_file(model.used_files, name@, q))) },
        );
        let mut j: usize = 0;
        while j < spans.len()
            invariant
                j <= spans@.len(),
                part == Seq::new(
                    spans@.len(),
                    |q: int| UseFactV { name: name@, span: span_pair(spans@[q]), path: Some(path_for(path_of@, use_file(model.used_files, name@, q))) },
                ),
                use_fact_views(uses@) == u0 + part.subrange(0, j as int),
            decreases spans@.len() - j,
        {
            let src = list_get_file(&model.used_files, name, j);
            let p = path_of_id(path_of, src);
            let sp = spans[j];
            let u = UseFact { name: name.clone(), span: [sp.start, sp.end], path: Some(p) };
            let ghost before = use_fact_views(uses@);
            uses.push(u);
            assert(use_fact_views(uses@) =~= before.push(u@));
            assert(use_fact_views(uses@) =~= u0 + part.subrange(0, j + 1));
            j = j + 1;
        }
        assert(part.subrange(0, j as int) =~= part);
        assert(model.used.entries@.subrange(0, i + 1).drop_last() =~= model.used.entries@.subrange(0, i as int));
        assert(model.used.entries@.subrange(0, i + 1).last() == model.used.entries@[i as int]);
        i = i + 1;
    }
    assert(model.used.entries@.subrange(0, i as int) =~= model.used.entries@);
    let mut roots: Vec<(String, String)> = Vec::new();
    let mut i: usize = 0;
    while i < model.roots.entries.len()
        invariant
            i <= model.roots.entries@.len(),
            forall|k: int| 0 <= k < model.roots.entries@.len() ==> (#[trigger] model.roots.entries@[k]).1@.len() > 0,
            pair_views(roots@) == ws_roots(model.roots.entries@.subrange(0, i as int)),
        decreases model.roots.entries@.len() - i,
    {
        let vs = &model.roots.entries[i].1;
        assert(model.roots.entries@[i as int].1@.len() > 0);
        let last = vs[vs.len() - 1].clone();
        let ghost before = pair_views(roots@);
        roots.push((model.roots.entries[i].0.clone(), last));
        assert(pair_views(roots@) =~= before.push((model.roots.entries@[i as int].0@, vs@.last()@)));
        assert(model.roots.entries@.subrange(0, i + 1) =~= model.roots.entries@.subrange(0, i as int).push(model.roots.entries@[i as int]));
        assert(ws_roots(model.roots.entries@.subrange(0, i + 1)) =~= ws_roots(model.roots.entries@.subrange(0, i as int)).push((model.roots.entries@[i as int].0@, vs@.last()@)));
        i = i + 1;
    }
    assert(model.roots.entries@.subrange(0, i as int) =~= model.roots.entries@);
    let r = Facts {
        defs,
        uses,
        directives_defined: crate::text::copy_strings(&model.defined_directives.names),
        directives_used: crate::text::copy_strings(&model.used_directives.names),
        has_entry_block: model.has_schema_block,
        roots,
    };
    assert(r@.directives_defined =~= strs(model.defined_directives.names@));
    assert(r@.directives_used =~= strs(model.used_directives.names@));
    r
}

} // verus!
