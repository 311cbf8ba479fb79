//! Typed AST for the subset of GraphQL SDL the library models, with the
//! mathematical views the parser's specification is written over.

use crate::diagnostic::Span;
use vstd::prelude::*;

verus! {

#[derive(Clone, Copy, Debug, PartialEq, Eq, Structural)]
pub enum DefKind {
    Schema,
    Scalar,
    Object,
    Interface,
    Input,
    Enum,
    Union,
    Directive,
}

#[derive(Debug)]
pub struct FieldDef {
    pub name: String,
    pub name_span: Span,
    pub span: Span,
    pub ty: TypeRef,
    pub args: Vec<ArgDef>,
    pub directives: Vec<AppliedDirective>,
}

#[derive(Debug)]
pub struct ArgDef {
    pub name: String,
    pub ty: TypeRef,
    pub has_default: bool,
}

#[derive(Debug)]
pub struct AppliedDirective {
    pub name: String,
    pub name_span: Span,
}

#[derive(Debug)]
pub struct TypeRef {
    /// Named inner type name.
    pub named: String,
    /// Span of the whole type expression.
    pub span: Span,
    /// Span of the named type itself.
    pub named_span: Span,
    /// Outer non-null (`!` at the end).
    pub non_null: bool,
}

#[derive(Debug)]
pub struct Def {
    pub kind: DefKind,
    pub name: String,
    pub name_span: Span,
    pub span: Span,
    /// Object/Interface/Input fields.
    pub fields: Vec<FieldDef>,
    /// Interfaces an object/interface implements.
    pub implements: Vec<String>,
    /// Union members.
    pub union_members: Vec<String>,
    /// Enum values.
    pub enum_values: Vec<String>,
    /// Applied directives at def level.
    pub directives: Vec<AppliedDirective>,
    /// Schema root operation map, e.g. `query` -> `Query`.
    pub root_ops: Vec<(String, TypeRef)>,
}

/// The parsed SDL document.
#[derive(Debug)]
pub struct Document {
    pub defs: Vec<Def>,
}

// ---------------------------------------------------------------------------
// Views
// ---------------------------------------------------------------------------

pub struct TypeRefV {
    pub named: Seq<char>,
    pub span: Span,
    pub named_span: Span,
    pub non_null: bool,
}

pub struct ArgV {
    pub name: Seq<char>,
    pub ty: TypeRefV,
    pub has_default: bool,
}

pub struct DirV {
    pub name: Seq<char>,
    pub name_span: Span,
}

pub struct FieldV {
    pub name: Seq<char>,
    pub name_span: Span,
    pub span: Span,
    pub ty: TypeRefV,
    pub args: Seq<ArgV>,
    pub directives: Seq<DirV>,
}

pub struct DefV {
    pub kind: DefKind,
    pub name: Seq<char>,
    pub name_span: Span,
    pub span: Span,
    pub fields: Seq<FieldV>,
    pub implements: Seq<Seq<char>>,
    pub union_members: Seq<Seq<char>>,
    pub enum_values: Seq<Seq<char>>,
    pub directives: Seq<DirV>,
    pub root_ops: Seq<(Seq<char>, TypeRefV)>,
}

impl TypeRef {
    pub open spec fn view(&self) -> TypeRefV {
        TypeRefV { named: self.named@, span: self.span, named_span: self.named_span, non_null: self.non_null }
    }

    pub fn is_required(&self) -> (r: bool)
        ensures
            r == self.non_null,
    {
        self.non_null
    }
}

impl ArgDef {
    pub open spec fn view(&self) -> ArgV {
        ArgV { name: self.name@, ty: self.ty@, has_default: self.has_default }
    }
}

impl AppliedDirective {
    pub open spec fn view(&self) -> DirV {
        DirV { name: self.name@, name_span: self.name_span }
    }
}

pub open spec fn arg_views(s: Seq<ArgDef>) -> Seq<ArgV> {
    s.map_values(|a: ArgDef| a@)
}

pub open spec fn dir_views(s: Seq<AppliedDirective>) -> Seq<DirV> {
    s.map_values(|d: AppliedDirective| d@)
}

impl FieldDef {
    pub open spec fn view(&self) -> FieldV {
        FieldV {
            name: self.name@,
            name_span: self.name_span,
            span: self.span,
            ty: self.ty@,
            args: arg_views(self.args@),
            directives: dir_views(self.directives@),
        }
    }
}

pub open spec fn field_views(s: Seq<FieldDef>) -> Seq<FieldV> {
    s.map_values(|f: FieldDef| f@)
}

pub open spec fn root_op_views(s: Seq<(String, TypeRef)>) -> Seq<(Seq<char>, TypeRefV)> {
    s.map_values(|p: (String, TypeRef)| (p.0@, p.1@))
}

pub open spec fn name_views(s: Seq<String>) -> Seq<Seq<char>> {
    s.map_values(|n: String| n@)
}

impl Def {
    pub open spec fn view(&self) -> DefV {
        DefV {
            kind: self.kind,
            name: self.name@,
            name_span: self.name_span,
            span: self.span,
            fields: field_views(self.fields@),
            implements: name_views(self.implements@),
            union_members: name_views(self.union_members@),
            enum_values: name_views(self.enum_values@),
            directives: dir_views(self.directives@),
            root_ops: root_op_views(self.root_ops@),
        }
    }

    /// Object, interface and input definitions carry fields.
    pub open spec fn fielded(kind: DefKind) -> bool {
        kind == DefKind::Object || kind == DefKind::Interface || kind == DefKind::Input
    }

    pub fn is_fielded(&self) -> (r: bool)
        ensures
            r == Def::fielded(self.kind),
    {
        match self.kind {
            DefKind::Object | DefKind::Interface | DefKind::Input => true,
            _ => false,
        }
    }
}

pub open spec fn def_views(s: Seq<Def>) -> Seq<DefV> {
    s.map_values(|d: Def| d@)
}

impl Document {
    pub open spec fn view(&self) -> Seq<DefV> {
        def_views(self.defs@)
    }

    pub fn new() -> (r: Document)
        ensures
            r@ == Seq::<DefV>::empty(),
    {
        let r = Document { defs: Vec::new() };
        assert(r@ =~= Seq::<DefV>::empty());
        r
    }
}

impl Default for Document {
    fn default() -> (r: Document)
        ensures
            r@ == Seq::<DefV>::empty(),
    {
        Document::new()
    }
}

/// A definition with only a kind, a name and a start span.
pub fn simple_def(kind: DefKind, name: String, start: Span) -> (r: Def)
    ensures
        r@ == simple_def_v(kind, name@, start),
{
    let r = Def {
        kind,
        name,
        name_span: start,
        span: start,
        fields: Vec::new(),
        implements: Vec::new(),
        union_members: Vec::new(),
        enum_values: Vec::new(),
        directives: Vec::new(),
        root_ops: Vec::new(),
    };
    assert(r@.fields =~= Seq::<FieldV>::empty());
    assert(r@.implements =~= Seq::<Seq<char>>::empty());
    assert(r@.union_members =~= Seq::<Seq<char>>::empty());
    assert(r@.enum_values =~= Seq::<Seq<char>>::empty());
    assert(r@.directives =~= Seq::<DirV>::empty());
    assert(r@.root_ops =~= Seq::<(Seq<char>, TypeRefV)>::empty());
    r
}

pub open spec fn simple_def_v(kind: DefKind, name: Seq<char>, start: Span) -> DefV {
    DefV {
        kind,
        name,
        name_span: start,
        span: start,
        fields: seq![],
        implements: seq![],
        union_members: seq![],
        enum_values: seq![],
        directives: seq![],
        root_ops: seq![],
    }
}

} // verus!
