//! Parser for GraphQL SDL (type system definitions).
//!
//! Tolerant: on a local failure an error is recorded and parsing resumes at
//! the next type keyword so the rest of the file still lints.
//!
//! The specification below describes the parser as a function of the token
//! sequence: each spec function takes the tokens and a parser state (or a
//! token position) and gives the state after that piece of the grammar.
//! Positions only ever move forward; a loop in the specification goes on only
//! from a position past the one it started from.

use crate::diagnostic::{Diagnostic, RelatedSpan, Severity, SourceId, Span};
use crate::graphql::ast::{arg_views, dir_views, field_views, def_views, name_views, root_op_views, ArgDef, ArgV, AppliedDirective, Def, DefKind, DefV, DirV, Document, FieldDef, FieldV, TypeRef, TypeRefV, simple_def, simple_def_v};
use crate::graphql::lexer::{fits_source, lex_spec, tokenize, LexError, LexErrV, TokKind, TokV, Token, tok_views, err_views};
use crate::text::{push_str, str_eq, string_of};
use vstd::prelude::*;

verus! {

#[derive(Debug)]
pub struct ParseError {
    pub message: String,
    pub span: Span,
}

pub struct PErrV {
    pub message: Seq<char>,
    pub span: Span,
}

impl ParseError {
    pub open spec fn view(&self) -> PErrV {
        PErrV { message: self.message@, span: self.span }
    }
}

pub open spec fn perr_views(s: Seq<ParseError>) -> Seq<PErrV> {
    s.map_values(|e: ParseError| e@)
}

/// The parser's state: position in the tokens, definitions so far, errors so
/// far, and the fields collected for the fielded definition being parsed.
#[verifier::ext_equal]
pub struct PS {
    pub pos: int,
    pub defs: Seq<DefV>,
    pub errs: Seq<PErrV>,
    pub pending: Seq<FieldV>,
}

// ---------------------------------------------------------------------------
// Tokens and small helpers
// ---------------------------------------------------------------------------

pub open spec fn text_at(t: Seq<TokV>, p: int) -> Seq<char> {
    t[p].3
}

pub open spec fn name_at(t: Seq<TokV>, p: int) -> bool {
    t[p].0 == TokKind::Name
}

pub open spec fn span_at(t: Seq<TokV>, p: int) -> Span {
    Span { start: t[p].1 as u32, end: t[p].2 as u32 }
}

/// The keywords that begin a type-system definition (`schema` and `extend`
/// are handled apart).
pub open spec fn is_type_keyword(s: Seq<char>) -> bool {
    s == "type"@ || s == "interface"@ || s == "input"@ || s == "enum"@ || s == "union"@ || s
        == "scalar"@ || s == "directive"@
}

/// The span an error "here" is reported at: the current token, else an
/// empty span at the end of the last token, else `0..0`.
pub open spec fn err_span(t: Seq<TokV>, p: int) -> Span {
    if 0 <= p < t.len() {
        span_at(t, p)
    } else if t.len() > 0 {
        Span { start: t.last().2 as u32, end: t.last().2 as u32 }
    } else {
        Span { start: 0, end: 0 }
    }
}

pub open spec fn at(s: PS, p: int) -> PS {
    PS { pos: p, defs: s.defs, errs: s.errs, pending: s.pending }
}

pub open spec fn push_err(s: PS, message: Seq<char>, span: Span) -> PS {
    PS { pos: s.pos, defs: s.defs, errs: s.errs.push(PErrV { message, span }), pending: s.pending }
}

pub open spec fn err_here(t: Seq<TokV>, s: PS, message: Seq<char>) -> PS {
    push_err(s, message, err_span(t, s.pos))
}

pub open spec fn push_def(s: PS, d: DefV) -> PS {
    PS { pos: s.pos, defs: s.defs.push(d), errs: s.errs, pending: s.pending }
}

pub open spec fn opt_view(o: Option<String>) -> Option<Seq<char>> {
    match o {
        Some(x) => Some(x@),
        None => None,
    }
}

pub open spec fn name_or(n: Option<Seq<char>>, dflt: Seq<char>) -> Seq<char> {
    match n {
        Some(x) => x,
        None => dflt,
    }
}

/// A GraphQL name: an ASCII letter or `_`, then ASCII letters, digits or `_`.
pub open spec fn valid_name_spec(s: Seq<char>) -> bool {
    &&& s.len() > 0
    &&& (('a' <= s[0] <= 'z') || ('A' <= s[0] <= 'Z') || s[0] == '_')
    &&& forall|i: int|
        1 <= i < s.len() ==> (('a' <= #[trigger] s[i] <= 'z') || ('A' <= s[i] <= 'Z') || ('0' <= s[i]
            <= '9') || s[i] == '_')
}

pub open spec fn dunder(s: Seq<char>) -> bool {
    s.len() >= 2 && s[0] == '_' && s[1] == '_'
}

// ---------------------------------------------------------------------------
// Skipping
// ---------------------------------------------------------------------------

/// Skip a balanced `open`/`close` region starting at `p`: consumes tokens
/// until the `close` that matches the first `open`; a `close` seen before any
/// `open` is consumed and ends the skip.
pub open spec fn skip_balanced(t: Seq<TokV>, p: int, open: Seq<char>, close: Seq<char>, depth: nat, seen: bool) -> int
    decreases t.len() - p,
{
    if p >= t.len() {
        p
    } else if text_at(t, p) == open {
        skip_balanced(t, p + 1, open, close, depth + 1, true)
    } else if text_at(t, p) == close {
        if !seen {
            p + 1
        } else {
            let d: nat = if depth > 0 { (depth - 1) as nat } else { 0 };
            if d == 0 {
                p + 1
            } else {
                skip_balanced(t, p + 1, open, close, d, seen)
            }
        }
    } else {
        skip_balanced(t, p + 1, open, close, depth, seen)
    }
}

/// Consume one value literal (enough for SDL defaults).
pub open spec fn skip_value(t: Seq<TokV>, p: int) -> int {
    if p >= t.len() {
        p
    } else if text_at(t, p) == "["@ {
        skip_balanced(t, p, "["@, "]"@, 0, false)
    } else if text_at(t, p) == "{"@ {
        skip_balanced(t, p, "{"@, "}"@, 0, false)
    } else {
        p + 1
    }
}

/// Applied directives `@name(args...)` from `p`, appended to `acc`.
pub open spec fn directives_from(t: Seq<TokV>, p: int, acc: Seq<DirV>) -> (int, Seq<DirV>)
    decreases t.len() - p,
{
    if p >= t.len() || text_at(t, p) != "@"@ {
        (p, acc)
    } else if p + 1 >= t.len() {
        (p + 1, acc)
    } else {
        let n = p + 1;
        let q = if n + 1 < t.len() && text_at(t, n + 1) == "("@ {
            skip_balanced(t, n + 1, "("@, ")"@, 0, false)
        } else {
            n + 1
        };
        let last_end = t[q - 1].2;
        let end = if t[n].2 >= last_end { t[n].2 } else { last_end };
        let d = DirV { name: t[n].3, name_span: Span { start: t[n].1 as u32, end: end as u32 } };
        if p < q <= t.len() {
            directives_from(t, q, acc.push(d))
        } else {
            (q, acc.push(d))
        }
    }
}

/// Trailing `= value` defaults and stray `!` after a type; also says whether
/// a default was seen.
pub open spec fn defaults_from(t: Seq<TokV>, p: int, seen: bool) -> (int, bool)
    decreases t.len() - p,
{
    if p >= t.len() {
        (p, seen)
    } else if text_at(t, p) == "="@ {
        let q = skip_value(t, p + 1);
        if p < q <= t.len() {
            defaults_from(t, q, true)
        } else {
            (q, true)
        }
    } else if text_at(t, p) == "!"@ {
        defaults_from(t, p + 1, seen)
    } else {
        (p, seen)
    }
}

// ---------------------------------------------------------------------------
// Type references
// ---------------------------------------------------------------------------

pub struct TRS {
    pub pos: int,
    pub non_null: bool,
    pub start: Option<int>,
    pub end: int,
    pub named: Seq<char>,
    pub named_span: Span,
}

pub open spec fn first_start(st: TRS, s: int) -> Option<int> {
    if st.start is None {
        Some(s)
    } else {
        st.start
    }
}

/// `[`, `!`, `]` up to and including the named type. `non_null` tracks
/// whether the last token taken so far is `!`.
pub open spec fn type_head(t: Seq<TokV>, st: TRS) -> TRS
    decreases t.len() - st.pos,
{
    let p = st.pos;
    if p >= t.len() {
        st
    } else if text_at(t, p) == "["@ {
        type_head(t, TRS { pos: p + 1, non_null: false, start: first_start(st, t[p].1), end: t[p].2, ..st })
    } else if text_at(t, p) == "!"@ {
        type_head(t, TRS { pos: p + 1, non_null: true, end: t[p].2, ..st })
    } else if text_at(t, p) == "]"@ {
        type_head(t, TRS { pos: p + 1, non_null: false, end: t[p].2, ..st })
    } else if name_at(t, p) {
        TRS {
            pos: p + 1,
            non_null: false,
            start: first_start(st, t[p].1),
            end: t[p].2,
            named: t[p].3,
            named_span: span_at(t, p),
            ..st
        }
    } else {
        st
    }
}

/// `]` and `!` after the named type; the type is non-null only when its
/// last token is `!` (the outer `!`).
pub open spec fn type_tail(t: Seq<TokV>, st: TRS) -> TRS
    decreases t.len() - st.pos,
{
    let p = st.pos;
    if p >= t.len() {
        st
    } else if text_at(t, p) == "]"@ {
        type_tail(t, TRS { pos: p + 1, non_null: false, end: t[p].2, ..st })
    } else if text_at(t, p) == "!"@ {
        type_tail(t, TRS { pos: p + 1, non_null: true, end: t[p].2, ..st })
    } else {
        st
    }
}

/// A type reference from `p`: the position after it and its view.
pub open spec fn type_ref(t: Seq<TokV>, p: int) -> (int, TypeRefV) {
    let init = TRS { pos: p, non_null: false, start: None, end: 0, named: seq![], named_span: Span { start: 0, end: 0 } };
    let r = type_tail(t, type_head(t, init));
    let start: int = match r.start {
        Some(s) => s,
        None => 0,
    };
    (r.pos, TypeRefV { named: r.named, span: Span { start: start as u32, end: r.end as u32 }, named_span: r.named_span, non_null: r.non_null })
}

// ---------------------------------------------------------------------------
// Fields and arguments
// ---------------------------------------------------------------------------

/// One argument definition `name: Type = default @dirs` from `p`.
pub open spec fn input_value(t: Seq<TokV>, p: int) -> (int, Option<ArgV>) {
    if p >= t.len() {
        (p, None)
    } else {
        let name = t[p].3;
        let p1 = p + 1;
        let p2 = if p1 < t.len() && text_at(t, p1) == ":"@ { p1 + 1 } else { p1 };
        let (p3, ty) = type_ref(t, p2);
        let (p4, has_default) = defaults_from(t, p3, false);
        let (p5, _dirs) = directives_from(t, p4, seq![]);
        (p5, Some(ArgV { name, ty, has_default }))
    }
}

/// Argument definitions up to and including `)`, appended to `acc`.
pub open spec fn args_from(t: Seq<TokV>, p: int, acc: Seq<ArgV>) -> (int, Seq<ArgV>)
    decreases t.len() - p,
{
    if p >= t.len() {
        (p, acc)
    } else if text_at(t, p) == ")"@ {
        (p + 1, acc)
    } else {
        let (q, a) = input_value(t, p);
        let acc2 = match a {
            Some(x) => acc.push(x),
            None => acc,
        };
        let q2 = if q == p { p + 1 } else { q };
        if p < q2 <= t.len() {
            args_from(t, q2, acc2)
        } else {
            (q2, acc2)
        }
    }
}

/// One field `name(args): Type @dirs` at the state's position; the field
/// joins the pending fields unless its type is missing.
pub open spec fn parse_field(t: Seq<TokV>, s: PS) -> PS {
    let p = s.pos;
    if p >= t.len() {
        s
    } else {
        let name = t[p].3;
        let name_span = span_at(t, p);
        let p1 = p + 1;
        let (p2, args) = if p1 < t.len() && text_at(t, p1) == "("@ {
            args_from(t, p1 + 1, seq![])
        } else {
            (p1, seq![])
        };
        if p2 >= t.len() {
            err_here(t, at(s, p2), "field `"@ + name + "` is missing a type"@)
        } else if text_at(t, p2) != ":"@ {
            err_here(t, at(s, p2), "expected `:` after field `"@ + name + "`"@)
        } else {
            let (p3, ty) = type_ref(t, p2 + 1);
            let (p4, dirs) = directives_from(t, p3, seq![]);
            let end = if dirs.len() > 0 { dirs.last().name_span.end } else { ty.span.end };
            let (p5, _d) = defaults_from(t, p4, false);
            let s1 = at(s, p5);
            let s2 = if !valid_name_spec(name) && !dunder(name) {
                err_here(t, s1, "field name `"@ + name + "` is not a valid GraphQL name"@)
            } else {
                s1
            };
            let f = FieldV { name, name_span, span: Span { start: name_span.start, end }, ty, args, directives: dirs };
            PS { pos: s2.pos, defs: s2.defs, errs: s2.errs, pending: s2.pending.push(f) }
        }
    }
}

// ---------------------------------------------------------------------------
// Fielded definitions: type, interface, input
// ---------------------------------------------------------------------------

/// Interface names after `implements`, separated by `&`.
pub open spec fn implements_from(t: Seq<TokV>, p: int, acc: Seq<Seq<char>>) -> (int, Seq<Seq<char>>)
    decreases t.len() - p,
{
    if p >= t.len() {
        (p, acc)
    } else if text_at(t, p) == "&"@ {
        implements_from(t, p + 1, acc)
    } else if name_at(t, p) && text_at(t, p) != "{"@ {
        implements_from(t, p + 1, acc.push(t[p].3))
    } else {
        (p, acc)
    }
}

/// `implements ...` clauses and applied directives before a field block.
pub open spec fn heads_from(t: Seq<TokV>, p: int, impls: Seq<Seq<char>>, dirs: Seq<DirV>) -> (int, Seq<Seq<char>>, Seq<DirV>)
    decreases t.len() - p,
{
    if p >= t.len() {
        (p, impls, dirs)
    } else if text_at(t, p) == "implements"@ {
        let (q, impls2) = implements_from(t, p + 1, impls);
        if p < q <= t.len() {
            heads_from(t, q, impls2, dirs)
        } else {
            (q, impls2, dirs)
        }
    } else if text_at(t, p) == "@"@ {
        let (q, ds) = directives_from(t, p, seq![]);
        if p < q <= t.len() {
            heads_from(t, q, impls, dirs + ds)
        } else {
            (q, impls, dirs + ds)
        }
    } else {
        (p, impls, dirs)
    }
}

/// The fields of a block, after its `{`, up to and including `}`. A type
/// keyword inside the block means it was left unclosed: it is reported and
/// left for the definition loop.
pub open spec fn field_block(t: Seq<TokV>, s: PS, name: Option<Seq<char>>) -> PS
    decreases t.len() - s.pos,
{
    let p = s.pos;
    if p >= t.len() {
        s
    } else if text_at(t, p) == "}"@ {
        at(s, p + 1)
    } else if name_at(t, p) && is_type_keyword(t[p].3) {
        push_err(
            s,
            "`"@ + name_or(name, "definition"@) + "` block is not closed: found `"@ + t[p].3
                + "` where `}` was expected"@,
            span_at(t, p),
        )
    } else {
        let s1 = parse_field(t, s);
        let q = if s1.pos == p { p + 1 } else { s1.pos };
        if p < q <= t.len() {
            field_block(t, at(s1, q), name)
        } else {
            at(s1, q)
        }
    }
}

pub open spec fn fielded_kind(kw: Seq<char>) -> DefKind {
    if kw == "type"@ {
        DefKind::Object
    } else if kw == "interface"@ {
        DefKind::Interface
    } else {
        DefKind::Input
    }
}

/// The result of `expect_name`: the next token when it is a name, else an
/// error and no name.
pub open spec fn expect_name(t: Seq<TokV>, s: PS) -> (PS, Option<Seq<char>>) {
    let p = s.pos;
    if 0 <= p < t.len() && name_at(t, p) {
        (at(s, p + 1), Some(t[p].3))
    } else if 0 <= p < t.len() {
        (push_err(s, "expected a name, found `"@ + t[p].3 + "`"@, span_at(t, p)), None)
    } else {
        (push_err(s, "unexpected end of file"@, Span { start: 0, end: 0 }), None)
    }
}

/// `type|interface|input Name implements ... @dirs { fields }` after its
/// keyword `kw`, which started at `start`. A definition without a name is
/// not recorded, and then its fields stay pending.
pub open spec fn parse_fielded(t: Seq<TokV>, s: PS, kw: Seq<char>, start: Span) -> PS {
    let kind = fielded_kind(kw);
    let (s1, name) = expect_name(t, s);
    let (p2, impls, dirs) = heads_from(t, s1.pos, seq![], seq![]);
    let s2 = at(s1, p2);
    let s3 = if p2 < t.len() {
        if text_at(t, p2) == "{"@ {
            field_block(t, at(s2, p2 + 1), name)
        } else if !(name_at(t, p2) && is_type_keyword(t[p2].3)) {
            let e = err_here(t, s2, "expected `{` to begin "@ + kw + " `"@ + name_or(name, "?"@) + "`"@);
            at(e, e.pos + 1)
        } else {
            s2
        }
    } else {
        s2
    };
    match name {
        Some(n) => {
            let d = DefV {
                kind,
                name: n,
                name_span: start,
                span: start,
                fields: s3.pending,
                implements: impls,
                union_members: seq![],
                enum_values: seq![],
                directives: dirs,
                root_ops: seq![],
            };
            PS { pos: s3.pos, defs: s3.defs.push(d), errs: s3.errs, pending: seq![] }
        },
        None => s3,
    }
}

/// The interface names of a run of tokens: every token's text but the `&`
/// separators, in order.
pub open spec fn interface_names(run: Seq<TokV>) -> Seq<Seq<char>> {
    run.filter(|x: TokV| x.3 != "&"@).map_values(|x: TokV| x.3)
}

/// A token that may stand in an `implements` list: `&` or a name other
/// than `{`.
pub open spec fn in_implements_list(t: Seq<TokV>, k: int) -> bool {
    text_at(t, k) == "&"@ || (name_at(t, k) && text_at(t, k) != "{"@)
}

proof fn lemma_implements_run(t: Seq<TokV>, p: int, q: int, acc: Seq<Seq<char>>)
    requires
        0 <= p <= q <= t.len(),
        forall|k: int| p <= k < q ==> #[trigger] in_implements_list(t, k),
        q == t.len() || !in_implements_list(t, q),
    ensures
        implements_from(t, p, acc) == (q, acc + interface_names(t.subrange(p, q))),
    decreases q - p,
{
    let f = |x: TokV| x.3 != "&"@;
    let g = |x: TokV| x.3;
    if p == q {
        reveal(Seq::filter);
        assert(t.subrange(p, q).filter(f) =~= Seq::<TokV>::empty());
        assert(acc + interface_names(t.subrange(p, q)) =~= acc);
    } else {
        assert(in_implements_list(t, p));
        let rest = t.subrange(p + 1, q);
        assert(t.subrange(p, q) =~= seq![t[p]] + rest);
        rest.lemma_filter_prepend(t[p], f);
        if text_at(t, p) == "&"@ {
            lemma_implements_run(t, p + 1, q, acc);
            assert(interface_names(t.subrange(p, q)) =~= interface_names(rest));
        } else {
            lemma_implements_run(t, p + 1, q, acc.push(t[p].3));
            assert(t.subrange(p, q).filter(f) =~= seq![t[p]] + rest.filter(f));
            assert(interface_names(t.subrange(p, q)) =~= seq![t[p].3] + interface_names(rest));
            assert(acc.push(t[p].3) + interface_names(rest) =~= acc + interface_names(t.subrange(p, q)));
        }
    }
}

/// A definition `Name implements I1 & I2 ... {` records as the interfaces it
/// implements exactly the names between `implements` and `{`, in order,
/// with the `&` separators left out.
pub proof fn law_implements_lists_every_interface(t: Seq<TokV>, s: PS, kw: Seq<char>, start: Span, q: int)
    requires
        0 <= s.pos,
        s.pos + 2 <= q < t.len(),
        name_at(t, s.pos),
        text_at(t, s.pos + 1) == "implements"@,
        forall|k: int| s.pos + 2 <= k < q ==> #[trigger] in_implements_list(t, k),
        text_at(t, q) == "{"@,
    ensures
        parse_fielded(t, s, kw, start).defs.len() > 0,
        parse_fielded(t, s, kw, start).defs.last().name == t[s.pos].3,
        parse_fielded(t, s, kw, start).defs.last().implements == interface_names(t.subrange(s.pos + 2, q)),
{
    reveal_strlit("{");
    reveal_strlit("&");
    reveal_strlit("@");
    reveal_strlit("implements");
    assert("{"@[0] != "&"@[0]);
    assert("{"@ != "&"@);
    assert("{"@.len() != "implements"@.len());
    assert("{"@[0] != "@"@[0]);
    assert(!in_implements_list(t, q));
    lemma_implements_run(t, s.pos + 2, q, seq![]);
    assert(seq![] + interface_names(t.subrange(s.pos + 2, q)) =~= interface_names(t.subrange(s.pos + 2, q)));
    assert(text_at(t, q) != "implements"@);
    assert(text_at(t, q) != "@"@);
    let names = interface_names(t.subrange(s.pos + 2, q));
    assert(heads_from(t, q, names, seq![]) == (q, names, Seq::<DirV>::empty()));
    assert(heads_from(t, s.pos + 1, seq![], seq![]) == (q, names, Seq::<DirV>::empty()));
}

// ---------------------------------------------------------------------------
// Other definitions
// ---------------------------------------------------------------------------

/// Enum values of one `{ ... }` block, after its `{`, up to and including `}`.
pub open spec fn enum_body(t: Seq<TokV>, p: int, vals: Seq<Seq<char>>) -> (int, Seq<Seq<char>>)
    decreases t.len() - p,
{
    if p >= t.len() {
        (p, vals)
    } else if text_at(t, p) == "}"@ {
        (p + 1, vals)
    } else {
        let vals2 = if name_at(t, p) { vals.push(t[p].3) } else { vals };
        let (q, _d) = directives_from(t, p + 1, seq![]);
        if p < q <= t.len() {
            enum_body(t, q, vals2)
        } else {
            (q, vals2)
        }
    }
}

/// Applied directives and value blocks of an enum.
pub open spec fn enum_from(t: Seq<TokV>, p: int, vals: Seq<Seq<char>>, dirs: Seq<DirV>) -> (int, Seq<Seq<char>>, Seq<DirV>)
    decreases t.len() - p,
{
    if p >= t.len() {
        (p, vals, dirs)
    } else if text_at(t, p) == "@"@ {
        let (q, ds) = directives_from(t, p, seq![]);
        if p < q <= t.len() {
            enum_from(t, q, vals, dirs + ds)
        } else {
            (q, vals, dirs + ds)
        }
    } else if text_at(t, p) != "{"@ {
        (p, vals, dirs)
    } else {
        let (q, vals2) = enum_body(t, p + 1, vals);
        if p < q <= t.len() {
            enum_from(t, q, vals2, dirs)
        } else {
            (q, vals2, dirs)
        }
    }
}

pub open spec fn parse_enum(t: Seq<TokV>, s: PS, start: Span) -> PS {
    let (s1, name) = expect_name(t, s);
    let (p2, vals, dirs) = enum_from(t, s1.pos, seq![], seq![]);
    let s2 = at(s1, p2);
    match name {
        Some(n) => push_def(
            s2,
            DefV {
                kind: DefKind::Enum,
                name: n,
                name_span: start,
                span: start,
                fields: seq![],
                implements: seq![],
                union_members: seq![],
                enum_values: vals,
                directives: dirs,
                root_ops: seq![],
            },
        ),
        None => s2,
    }
}

/// Union members: names (other than type keywords) separated by `=` and `|`.
pub open spec fn members_from(t: Seq<TokV>, p: int, acc: Seq<Seq<char>>) -> (int, Seq<Seq<char>>)
    decreases t.len() - p,
{
    if p >= t.len() {
        (p, acc)
    } else if text_at(t, p) == "="@ || text_at(t, p) == "|"@ {
        members_from(t, p + 1, acc)
    } else if name_at(t, p) && !is_type_keyword(t[p].3) {
        members_from(t, p + 1, acc.push(t[p].3))
    } else {
        (p, acc)
    }
}

pub open spec fn parse_union(t: Seq<TokV>, s: PS, start: Span) -> PS {
    let (s1, name) = expect_name(t, s);
    let (p2, members) = members_from(t, s1.pos, seq![]);
    let (p3, _d) = directives_from(t, p2, seq![]);
    let s3 = at(s1, p3);
    match name {
        Some(n) => push_def(
            s3,
            DefV {
                kind: DefKind::Union,
                name: n,
                name_span: start,
                span: start,
                fields: seq![],
                implements: seq![],
                union_members: members,
                enum_values: seq![],
                directives: seq![],
                root_ops: seq![],
            },
        ),
        None => s3,
    }
}

/// The rest of a directive definition: argument lists, `repeatable`, `on`,
/// locations; it stops at the first other punctuation.
pub open spec fn directive_rest(t: Seq<TokV>, p: int) -> int
    decreases t.len() - p,
{
    if p >= t.len() {
        p
    } else if text_at(t, p) == "("@ {
        let q = skip_balanced(t, p, "("@, ")"@, 0, false);
        if p < q <= t.len() {
            directive_rest(t, q)
        } else {
            q
        }
    } else if text_at(t, p) == "repeatable"@ || text_at(t, p) == "on"@ || text_at(t, p) == "|"@ {
        directive_rest(t, p + 1)
    } else if t[p].0 == TokKind::Punct {
        p
    } else {
        directive_rest(t, p + 1)
    }
}

pub open spec fn parse_directive_def(t: Seq<TokV>, s: PS, start: Span) -> PS {
    let p = s.pos;
    let (s1, name) = if p < t.len() && text_at(t, p) == "@"@ {
        expect_name(t, at(s, p + 1))
    } else {
        (s, None)
    };
    let s2 = at(s1, directive_rest(t, s1.pos));
    match name {
        Some(n) => push_def(s2, simple_def_v(DefKind::Directive, n, start)),
        None => s2,
    }
}

pub open spec fn parse_scalar(t: Seq<TokV>, s: PS, start: Span) -> PS {
    let (s1, name) = expect_name(t, s);
    let (p2, _d) = directives_from(t, s1.pos, seq![]);
    let s2 = at(s1, p2);
    match name {
        Some(n) => push_def(s2, simple_def_v(DefKind::Scalar, n, start)),
        None => s2,
    }
}

/// Root operations `op: Type` of one `{ ... }` block, after its `{`, up to
/// and including `}`.
pub open spec fn schema_ops(t: Seq<TokV>, p: int, ops: Seq<(Seq<char>, TypeRefV)>) -> (int, Seq<(Seq<char>, TypeRefV)>)
    decreases t.len() - p,
{
    if p >= t.len() {
        (p, ops)
    } else if text_at(t, p) == "}"@ {
        (p + 1, ops)
    } else {
        let op = t[p].3;
        let p1 = p + 1;
        let p2 = if p1 < t.len() && text_at(t, p1) == ":"@ { p1 + 1 } else { p1 };
        let (p3, ty) = type_ref(t, p2);
        if p < p3 <= t.len() {
            schema_ops(t, p3, ops.push((op, ty)))
        } else {
            (p3, ops.push((op, ty)))
        }
    }
}

pub open spec fn schema_blocks(t: Seq<TokV>, p: int, ops: Seq<(Seq<char>, TypeRefV)>) -> (int, Seq<(Seq<char>, TypeRefV)>)
    decreases t.len() - p,
{
    if p >= t.len() || text_at(t, p) != "{"@ {
        (p, ops)
    } else {
        let (q, ops2) = schema_ops(t, p + 1, ops);
        if p < q <= t.len() {
            schema_blocks(t, q, ops2)
        } else {
            (q, ops2)
        }
    }
}

pub open spec fn parse_schema(t: Seq<TokV>, s: PS, start: Span) -> PS {
    let (p1, _d) = directives_from(t, s.pos, seq![]);
    let (p2, ops) = schema_blocks(t, p1, seq![]);
    push_def(
        at(s, p2),
        DefV {
            kind: DefKind::Schema,
            name: "schema"@,
            name_span: start,
            span: start,
            fields: seq![],
            implements: seq![],
            union_members: seq![],
            enum_values: seq![],
            directives: seq![],
            root_ops: ops,
        },
    )
}

pub open spec fn parse_extend(t: Seq<TokV>, s: PS) -> PS {
    let p = s.pos;
    if p >= t.len() || !name_at(t, p) {
        s
    } else {
        let kw = t[p].3;
        let s1 = at(s, p + 1);
        let sp = span_at(t, p);
        if kw == "type"@ || kw == "interface"@ || kw == "input"@ {
            parse_fielded(t, s1, kw, sp)
        } else if kw == "enum"@ {
            parse_enum(t, s1, sp)
        } else {
            push_err(s1, "cannot extend `"@ + kw + "` in SDL subset"@, sp)
        }
    }
}

/// Skip a damaged definition up to the next type keyword or `extend`; a
/// brace block in it is skipped whole.
pub open spec fn skip_to_definition(t: Seq<TokV>, p: int) -> int
    decreases t.len() - p,
{
    if p >= t.len() {
        p
    } else if (name_at(t, p) && is_type_keyword(t[p].3)) || text_at(t, p) == "extend"@ {
        p
    } else {
        let q = if text_at(t, p) == "{"@ {
            skip_balanced(t, p + 1, "{"@, "}"@, 0, false)
        } else {
            p + 1
        };
        if p < q <= t.len() {
            skip_to_definition(t, q)
        } else {
            q
        }
    }
}

/// One definition at the state's position.
pub open spec fn parse_definition(t: Seq<TokV>, s: PS) -> PS {
    let p = s.pos;
    if p >= t.len() {
        s
    } else if !name_at(t, p) {
        at(s, p + 1)
    } else {
        let sp = span_at(t, p);
        let kw = t[p].3;
        let s1 = at(s, p + 1);
        if kw == "schema"@ {
            parse_schema(t, s1, sp)
        } else if kw == "scalar"@ {
            parse_scalar(t, s1, sp)
        } else if kw == "type"@ || kw == "interface"@ || kw == "input"@ {
            parse_fielded(t, s1, kw, sp)
        } else if kw == "enum"@ {
            parse_enum(t, s1, sp)
        } else if kw == "union"@ {
            parse_union(t, s1, sp)
        } else if kw == "directive"@ {
            parse_directive_def(t, s1, sp)
        } else if kw == "extend"@ {
            parse_extend(t, s1)
        } else {
            let e = err_here(t, s1, "expected a type definition keyword, found `"@ + kw + "`"@);
            at(e, skip_to_definition(t, e.pos))
        }
    }
}

/// Definitions until the end of the tokens; a definition that consumes
/// nothing is stepped over by one token.
pub open spec fn parse_all(t: Seq<TokV>, s: PS) -> PS
    decreases t.len() - s.pos,
{
    if s.pos >= t.len() {
        s
    } else {
        let s1 = parse_definition(t, s);
        let q = if s1.pos == s.pos { s.pos + 1 } else { s1.pos };
        if s.pos < q <= t.len() {
            parse_all(t, at(s1, q))
        } else {
            at(s1, q)
        }
    }
}

pub open spec fn initial() -> PS {
    PS { pos: 0, defs: seq![], errs: seq![], pending: seq![] }
}

/// The lexical errors as parse errors.
pub open spec fn lex_errs_as_parse(es: Seq<LexErrV>) -> Seq<PErrV> {
    es.map_values(|e: LexErrV| PErrV { message: e.0, span: Span { start: e.1 as u32, end: e.2 as u32 } })
}


// ---------------------------------------------------------------------------
// Executable parser: token helpers
// ---------------------------------------------------------------------------

fn text_is(toks: &Vec<Token>, p: usize, s: &str) -> (r: bool)
    requires
        p < toks@.len(),
    ensures
        r == (text_at(tok_views(toks@), p as int) == s@),
{
    str_eq(toks[p].text.as_str(), s)
}

fn is_name(toks: &Vec<Token>, p: usize) -> (r: bool)
    requires
        p < toks@.len(),
    ensures
        r == name_at(tok_views(toks@), p as int),
{
    toks[p].kind == TokKind::Name
}

fn tok_span(toks: &Vec<Token>, p: usize) -> (r: Span)
    requires
        p < toks@.len(),
    ensures
        r == span_at(tok_views(toks@), p as int),
{
    Span::new(toks[p].span.0, toks[p].span.1)
}

fn is_type_keyword_str(s: &str) -> (r: bool)
    ensures
        r == is_type_keyword(s@),
{
    str_eq(s, "type") || str_eq(s, "interface") || str_eq(s, "input") || str_eq(s, "enum") || str_eq(s, "union")
        || str_eq(s, "scalar") || str_eq(s, "directive")
}

fn text_of(toks: &Vec<Token>, p: usize) -> (r: String)
    requires
        p < toks@.len(),
    ensures
        r@ == text_at(tok_views(toks@), p as int),
{
    toks[p].text.clone()
}

// ---------------------------------------------------------------------------
// Executable parser: skipping
// ---------------------------------------------------------------------------

fn skip_balanced_at(toks: &Vec<Token>, p: usize, open: &str, close: &str) -> (r: usize)
    requires
        p <= toks@.len(),
    ensures
        r == skip_balanced(tok_views(toks@), p as int, open@, close@, 0, false),
        p <= r <= toks@.len(),
        p < toks@.len() ==> p < r,
{
    let ghost t = tok_views(toks@);
    let mut i = p;
    let mut depth: usize = 0;
    let mut seen = false;
    while i < toks.len()
        invariant
            p <= i <= toks@.len(),
            depth <= i,
            t == tok_views(toks@),
            i == p ==> depth == 0 && !seen,
            skip_balanced(t, p as int, open@, close@, 0, false) == skip_balanced(
                t,
                i as int,
                open@,
                close@,
                depth as nat,
                seen,
            ),
        decreases toks@.len() - i,
    {
        let is_open = text_is(toks, i, open);
        let is_close = text_is(toks, i, close);
        i = i + 1;
        if is_open {
            seen = true;
            depth = depth + 1;
        } else if is_close {
            if !seen {
                return i;
            }
            depth = if depth > 0 { depth - 1 } else { 0 };
            if depth == 0 {
                return i;
            }
        }
    }
    i
}

fn skip_value_at(toks: &Vec<Token>, p: usize) -> (r: usize)
    requires
        p <= toks@.len(),
    ensures
        r == skip_value(tok_views(toks@), p as int),
        p <= r <= toks@.len(),
        p < toks@.len() ==> p < r,
{
    if p >= toks.len() {
        p
    } else if text_is(toks, p, "[") {
        skip_balanced_at(toks, p, "[", "]")
    } else if text_is(toks, p, "{") {
        skip_balanced_at(toks, p, "{", "}")
    } else {
        p + 1
    }
}

/// Consume applied directives `@name(args...)`, returning them.
fn directives_at(toks: &Vec<Token>, p: usize) -> (r: (usize, Vec<AppliedDirective>))
    requires
        p <= toks@.len(),
    ensures
        (r.0 as int, dir_views(r.1@)) == directives_from(tok_views(toks@), p as int, seq![]),
        p <= r.0 <= toks@.len(),
        p < toks@.len() && text_at(tok_views(toks@), p as int) == "@"@ ==> p < r.0,
{
    let ghost t = tok_views(toks@);
    let mut i = p;
    let mut out: Vec<AppliedDirective> = Vec::new();
    assert(dir_views(out@) =~= seq![]);
    while i < toks.len() && text_is(toks, i, "@")
        invariant
            p <= i <= toks@.len(),
            t == tok_views(toks@),
            directives_from(t, p as int, seq![]) == directives_from(t, i as int, dir_views(out@)),
        decreases toks@.len() - i,
    {
        i = i + 1;
        if i >= toks.len() {
            return (i, out);
        }
        let n = i;
        i = i + 1;
        if i < toks.len() && text_is(toks, i, "(") {
            i = skip_balanced_at(toks, i, "(", ")");
        }
        let last_end = toks[i - 1].span.1;
        let ne = toks[n].span.1;
        let end = if ne >= last_end { ne } else { last_end };
        let d = AppliedDirective { name: text_of(toks, n), name_span: Span::new(toks[n].span.0, end) };
        let ghost before = dir_views(out@);
        out.push(d);
        assert(dir_views(out@) =~= before.push(d@));
    }
    (i, out)
}

fn defaults_at(toks: &Vec<Token>, p: usize) -> (r: (usize, bool))
    requires
        p <= toks@.len(),
    ensures
        (r.0 as int, r.1) == defaults_from(tok_views(toks@), p as int, false),
        p <= r.0 <= toks@.len(),
{
    let ghost t = tok_views(toks@);
    let mut i = p;
    let mut seen = false;
    while i < toks.len()
        invariant
            p <= i <= toks@.len(),
            t == tok_views(toks@),
            defaults_from(t, p as int, false) == defaults_from(t, i as int, seen),
        decreases toks@.len() - i,
    {
        if text_is(toks, i, "=") {
            seen = true;
            i = skip_value_at(toks, i + 1);
        } else if text_is(toks, i, "!") {
            i = i + 1;
        } else {
            return (i, seen);
        }
    }
    (i, seen)
}

// ---------------------------------------------------------------------------
// Executable parser: type references, arguments
// ---------------------------------------------------------------------------

fn type_ref_at(toks: &Vec<Token>, p: usize) -> (r: (usize, TypeRef))
    requires
        p <= toks@.len(),
    ensures
        (r.0 as int, r.1@) == type_ref(tok_views(toks@), p as int),
        p <= r.0 <= toks@.len(),
{
    let ghost t = tok_views(toks@);
    let ghost init = TRS { pos: p as int, non_null: false, start: None, end: 0, named: seq![], named_span: Span { start: 0, end: 0 } };
    let mut i = p;
    let mut non_null = false;
    let mut start: Option<u32> = None;
    let mut end: u32 = 0;
    let mut named = String::new();
    let mut named_span = Span::new(0, 0);
    let ghost mut st = init;
    // `[`, `!`, `]` and the named type
    while i < toks.len()
        invariant_except_break
            type_head(t, init) == type_head(t, st),
        invariant
            p <= i <= toks@.len(),
            t == tok_views(toks@),
            st == (TRS { pos: i as int, non_null, start: match start { Some(x) => Some(x as int), None => None }, end: end as int, named: named@, named_span }),
        ensures
            type_head(t, init) == st,
        decreases toks@.len() - i,
    {
        if text_is(toks, i, "[") {
            if start.is_none() {
                start = Some(toks[i].span.0);
            }
            non_null = false;
            end = toks[i].span.1;
            i = i + 1;
        } else if text_is(toks, i, "!") {
            non_null = true;
            end = toks[i].span.1;
            i = i + 1;
        } else if text_is(toks, i, "]") {
            non_null = false;
            end = toks[i].span.1;
            i = i + 1;
        } else if is_name(toks, i) {
            non_null = false;
            named = text_of(toks, i);
            named_span = tok_span(toks, i);
            if start.is_none() {
                start = Some(toks[i].span.0);
            }
            end = toks[i].span.1;
            i = i + 1;
            proof {
                st = TRS { pos: i as int, non_null, start: match start { Some(x) => Some(x as int), None => None }, end: end as int, named: named@, named_span };
            }
            break;
        } else {
            break;
        }
        proof {
            st = TRS { pos: i as int, non_null, start: match start { Some(x) => Some(x as int), None => None }, end: end as int, named: named@, named_span };
        }
    }
    let ghost mid = st;
    assert(type_head(t, init) == mid);
    // `]` and `!` after the name
    while i < toks.len()
        invariant
            p <= i <= toks@.len(),
            t == tok_views(toks@),
            st == (TRS { pos: i as int, non_null, start: match start { Some(x) => Some(x as int), None => None }, end: end as int, named: named@, named_span }),
            type_tail(t, mid) == type_tail(t, st),
        ensures
            type_tail(t, mid) == st,
        decreases toks@.len() - i,
    {
        if text_is(toks, i, "]") {
            non_null = false;
            end = toks[i].span.1;
            i = i + 1;
        } else if text_is(toks, i, "!") {
            non_null = true;
            end = toks[i].span.1;
            i = i + 1;
        } else {
            break;
        }
        proof {
            st = TRS { pos: i as int, non_null, start: match start { Some(x) => Some(x as int), None => None }, end: end as int, named: named@, named_span };
        }
    }
    let s0 = match start {
        Some(x) => x,
        None => 0,
    };
    (i, TypeRef { named, span: Span::new(s0, end), named_span, non_null })
}


fn input_value_at(toks: &Vec<Token>, p: usize) -> (r: (usize, Option<ArgDef>))
    requires
        p <= toks@.len(),
    ensures
        r.0 as int == input_value(tok_views(toks@), p as int).0,
        match r.1 {
            Some(a) => input_value(tok_views(toks@), p as int).1 == Some(a@),
            None => input_value(tok_views(toks@), p as int).1 is None,
        },
        p <= r.0 <= toks@.len(),
        p < toks@.len() ==> p < r.0,
{
    if p >= toks.len() {
        return (p, None);
    }
    let name = text_of(toks, p);
    let mut i = p + 1;
    if i < toks.len() && text_is(toks, i, ":") {
        i = i + 1;
    }
    let (i3, ty) = type_ref_at(toks, i);
    let (i4, has_default) = defaults_at(toks, i3);
    let (i5, _dirs) = directives_at(toks, i4);
    (i5, Some(ArgDef { name, ty, has_default }))
}

fn args_at(toks: &Vec<Token>, p: usize) -> (r: (usize, Vec<ArgDef>))
    requires
        p <= toks@.len(),
    ensures
        (r.0 as int, arg_views(r.1@)) == args_from(tok_views(toks@), p as int, seq![]),
        p <= r.0 <= toks@.len(),
{
    let ghost t = tok_views(toks@);
    let mut i = p;
    let mut out: Vec<ArgDef> = Vec::new();
    assert(arg_views(out@) =~= seq![]);
    while i < toks.len()
        invariant
            p <= i <= toks@.len(),
            t == tok_views(toks@),
            args_from(t, p as int, seq![]) == args_from(t, i as int, arg_views(out@)),
        decreases toks@.len() - i,
    {
        if text_is(toks, i, ")") {
            return (i + 1, out);
        }
        let before = i;
        let (q, a) = input_value_at(toks, i);
        let ghost prev = arg_views(out@);
        match a {
            Some(x) => {
                let ghost xv = x@;
                out.push(x);
                assert(arg_views(out@) =~= prev.push(xv));
            },
            None => {},
        }
        i = if q == before { before + 1 } else { q };
    }
    (i, out)
}

// ---------------------------------------------------------------------------
// Executable parser: state
// ---------------------------------------------------------------------------

struct Parser {
    pos: usize,
    doc: Document,
    errors: Vec<ParseError>,
    /// Fields being collected for the current fielded definition.
    pending_def_fields: Vec<FieldDef>,
}

impl Parser {
    spec fn view(&self) -> PS {
        PS {
            pos: self.pos as int,
            defs: self.doc@,
            errs: perr_views(self.errors@),
            pending: field_views(self.pending_def_fields@),
        }
    }

    fn push_error(&mut self, message: String, span: Span)
        ensures
            final(self)@ == push_err(old(self)@, message@, span),
    {
        let ghost prev = perr_views(self.errors@);
        let e = ParseError { message, span };
        let ghost ev = e@;
        self.errors.push(e);
        assert(perr_views(self.errors@) =~= prev.push(ev));
    }

    fn err_here(&mut self, toks: &Vec<Token>, message: String)
        ensures
            final(self)@ == err_here(tok_views(toks@), old(self)@, message@),
    {
        let span = if self.pos < toks.len() {
            tok_span(toks, self.pos)
        } else if toks.len() > 0 {
            let e = toks[toks.len() - 1].span.1;
            Span::new(e, e)
        } else {
            Span::new(0, 0)
        };
        self.push_error(message, span);
    }

    fn push_def(&mut self, d: Def)
        ensures
            final(self)@ == push_def(old(self)@, d@),
    {
        let ghost prev = self.doc@;
        let ghost dv = d@;
        self.doc.defs.push(d);
        assert(self.doc@ =~= prev.push(dv));
    }

    fn expect_name(&mut self, toks: &Vec<Token>) -> (r: Option<String>)
        requires
            old(self).pos <= toks@.len(),
        ensures
            final(self)@ == expect_name(tok_views(toks@), old(self)@).0,
            match r {
                Some(n) => expect_name(tok_views(toks@), old(self)@).1 == Some(n@),
                None => expect_name(tok_views(toks@), old(self)@).1 is None,
            },
            old(self).pos <= final(self).pos <= toks@.len(),
    {
        if self.pos < toks.len() {
            if is_name(toks, self.pos) {
                let text = text_of(toks, self.pos);
                self.pos = self.pos + 1;
                Some(text)
            } else {
                let mut msg = string_of("expected a name, found `");
                push_str(&mut msg, toks[self.pos].text.as_str());
                push_str(&mut msg, "`");
                let span = tok_span(toks, self.pos);
                self.push_error(msg, span);
                None
            }
        } else {
            self.push_error(string_of("unexpected end of file"), Span::new(0, 0));
            None
        }
    }

    fn parse_field(&mut self, toks: &Vec<Token>)
        requires
            old(self).pos <= toks@.len(),
        ensures
            final(self)@ == parse_field(tok_views(toks@), old(self)@),
            old(self).pos <= final(self).pos <= toks@.len(),
    {
        let ghost t = tok_views(toks@);
        let p = self.pos;
        if p >= toks.len() {
            return;
        }
        let name = text_of(toks, p);
        let name_span = tok_span(toks, p);
        let p1 = p + 1;
        let (p2, args) = if p1 < toks.len() && text_is(toks, p1, "(") {
            args_at(toks, p1 + 1)
        } else {
            let v: Vec<ArgDef> = Vec::new();
            assert(arg_views(v@) =~= seq![]);
            (p1, v)
        };
        self.pos = p2;
        if p2 >= toks.len() {
            let mut msg = string_of("field `");
            push_str(&mut msg, name.as_str());
            push_str(&mut msg, "` is missing a type");
            self.err_here(toks, msg);
            return;
        }
        if !text_is(toks, p2, ":") {
            let mut msg = string_of("expected `:` after field `");
            push_str(&mut msg, name.as_str());
            push_str(&mut msg, "`");
            self.err_here(toks, msg);
            return;
        }
        let (p3, ty) = type_ref_at(toks, p2 + 1);
        let (p4, directives) = directives_at(toks, p3);
        let end = if directives.len() > 0 {
            directives[directives.len() - 1].name_span.end
        } else {
            ty.span.end
        };
        let (p5, _d) = defaults_at(toks, p4);
        self.pos = p5;
        if !valid_name(name.as_str()) && !is_dunder(name.as_str()) {
            let mut msg = string_of("field name `");
            push_str(&mut msg, name.as_str());
            push_str(&mut msg, "` is not a valid GraphQL name");
            self.err_here(toks, msg);
        }
        let f = FieldDef { name, name_span, span: Span::new(name_span.start, end), ty, args, directives };
        let ghost fv = f@;
        let ghost prev = field_views(self.pending_def_fields@);
        self.pending_def_fields.push(f);
        assert(field_views(self.pending_def_fields@) =~= prev.push(fv));
    }
}

/// Whether `name` is a valid GraphQL name.
pub fn valid_name(name: &str) -> (r: bool)
    ensures
        r == valid_name_spec(name@),
{
    let cs = crate::text::chars_of(name);
    if cs.len() == 0 {
        return false;
    }
    let c0 = cs[0];
    if !(('a' <= c0 && c0 <= 'z') || ('A' <= c0 && c0 <= 'Z') || c0 == '_') {
        return false;
    }
    let mut i: usize = 1;
    while i < cs.len()
        invariant
            1 <= i <= cs@.len(),
            cs@ == name@,
            forall|k: int|
                1 <= k < i ==> (('a' <= #[trigger] cs@[k] <= 'z') || ('A' <= cs@[k] <= 'Z') || ('0' <= cs@[k]
                    <= '9') || cs@[k] == '_'),
        decreases cs@.len() - i,
    {
        let c = cs[i];
        if !(('a' <= c && c <= 'z') || ('A' <= c && c <= 'Z') || ('0' <= c && c <= '9') || c == '_') {
            return false;
        }
        i = i + 1;
    }
    true
}

fn is_dunder(name: &str) -> (r: bool)
    ensures
        r == dunder(name@),
{
    let cs = crate::text::chars_of(name);
    cs.len() >= 2 && cs[0] == '_' && cs[1] == '_'
}


fn implements_at(toks: &Vec<Token>, p: usize, acc: &mut Vec<String>) -> (r: usize)
    requires
        p <= toks@.len(),
    ensures
        (r as int, name_views(final(acc)@)) == implements_from(tok_views(toks@), p as int, name_views(old(acc)@)),
        p <= r <= toks@.len(),
{
    let ghost t = tok_views(toks@);
    let mut i = p;
    while i < toks.len()
        invariant
            p <= i <= toks@.len(),
            t == tok_views(toks@),
            implements_from(t, p as int, name_views(old(acc)@)) == implements_from(t, i as int, name_views(acc@)),
        decreases toks@.len() - i,
    {
        if text_is(toks, i, "&") {
            i = i + 1;
        } else if is_name(toks, i) && !text_is(toks, i, "{") {
            let ghost prev = name_views(acc@);
            acc.push(text_of(toks, i));
            assert(name_views(acc@) =~= prev.push(t[i as int].3));
            i = i + 1;
        } else {
            return i;
        }
    }
    i
}

fn heads_at(toks: &Vec<Token>, p: usize, impls: &mut Vec<String>, dirs: &mut Vec<AppliedDirective>) -> (r: usize)
    requires
        p <= toks@.len(),
    ensures
        (r as int, name_views(final(impls)@), dir_views(final(dirs)@)) == heads_from(
            tok_views(toks@),
            p as int,
            name_views(old(impls)@),
            dir_views(old(dirs)@),
        ),
        p <= r <= toks@.len(),
{
    let ghost t = tok_views(toks@);
    let mut i = p;
    while i < toks.len()
        invariant
            p <= i <= toks@.len(),
            t == tok_views(toks@),
            heads_from(t, p as int, name_views(old(impls)@), dir_views(old(dirs)@)) == heads_from(
                t,
                i as int,
                name_views(impls@),
                dir_views(dirs@),
            ),
        decreases toks@.len() - i,
    {
        if text_is(toks, i, "implements") {
            i = implements_at(toks, i + 1, impls);
        } else if text_is(toks, i, "@") {
            let ghost before = i;
            let (q, mut ds) = directives_at(toks, i);
            let ghost prev = dir_views(dirs@);
            let ghost dsv = dir_views(ds@);
            dirs.append(&mut ds);
            assert(dir_views(dirs@) =~= prev + dsv);
            i = q;
            assert(i > before);
        } else {
            return i;
        }
    }
    i
}

impl Parser {
    fn field_block(&mut self, toks: &Vec<Token>, name: &Option<String>)
        requires
            old(self).pos <= toks@.len(),
        ensures
            final(self)@ == field_block(tok_views(toks@), old(self)@, opt_view(*name)),
            old(self).pos <= final(self).pos <= toks@.len(),
    {
        let ghost t = tok_views(toks@);
        let ghost nv = opt_view(*name);
        let ghost start = self@;
        while self.pos < toks.len()
            invariant_except_break
                field_block(t, start, nv) == field_block(t, self@, nv),
            invariant
                start.pos <= self.pos <= toks@.len(),
                t == tok_views(toks@),
                nv == opt_view(*name),
            ensures
                field_block(t, start, nv) == self@,
            decreases toks@.len() - self.pos,
        {
            let p = self.pos;
            if text_is(toks, p, "}") {
                self.pos = p + 1;
                break;
            }
            if is_name(toks, p) && is_type_keyword_str(toks[p].text.as_str()) {
                let mut msg = string_of("`");
                match name {
                    Some(n) => push_str(&mut msg, n.as_str()),
                    None => push_str(&mut msg, "definition"),
                }
                push_str(&mut msg, "` block is not closed: found `");
                push_str(&mut msg, toks[p].text.as_str());
                push_str(&mut msg, "` where `}` was expected");
                let span = tok_span(toks, p);
                self.push_error(msg, span);
                break;
            }
            self.parse_field(toks);
            if self.pos == p {
                self.pos = p + 1;
            }
        }
    }

    fn parse_fielded(&mut self, toks: &Vec<Token>, kw: &str, start: Span)
        requires
            old(self).pos <= toks@.len(),
        ensures
            final(self)@ == parse_fielded(tok_views(toks@), old(self)@, kw@, start),
            old(self).pos <= final(self).pos <= toks@.len(),
    {
        let ghost t = tok_views(toks@);
        let kind = if str_eq(kw, "type") {
            DefKind::Object
        } else if str_eq(kw, "interface") {
            DefKind::Interface
        } else {
            DefKind::Input
        };
        let name = self.expect_name(toks);
        let mut implements: Vec<String> = Vec::new();
        let mut directives: Vec<AppliedDirective> = Vec::new();
        assert(name_views(implements@) =~= seq![]);
        assert(dir_views(directives@) =~= seq![]);
        let p2 = heads_at(toks, self.pos, &mut implements, &mut directives);
        self.pos = p2;
        if p2 < toks.len() {
            if text_is(toks, p2, "{") {
                self.pos = p2 + 1;
                self.field_block(toks, &name);
            } else if !(is_name(toks, p2) && is_type_keyword_str(toks[p2].text.as_str())) {
                let mut msg = string_of("expected `{` to begin ");
                push_str(&mut msg, kw);
                push_str(&mut msg, " `");
                match &name {
                    Some(n) => push_str(&mut msg, n.as_str()),
                    None => push_str(&mut msg, "?"),
                }
                push_str(&mut msg, "`");
                self.err_here(toks, msg);
                self.pos = self.pos + 1;
            }
        }
        match name {
            Some(n) => {
                let mut fields: Vec<FieldDef> = Vec::new();
                std::mem::swap(&mut fields, &mut self.pending_def_fields);
                let d = Def {
                    kind,
                    name: n,
                    name_span: start,
                    span: start,
                    fields,
                    implements,
                    union_members: Vec::new(),
                    enum_values: Vec::new(),
                    directives,
                    root_ops: Vec::new(),
                };
                assert(d@.union_members =~= seq![]);
                assert(d@.enum_values =~= seq![]);
                assert(d@.root_ops =~= seq![]);
                assert(field_views(self.pending_def_fields@) =~= seq![]);
                self.push_def(d);
            },
            None => {},
        }
    }
}


fn enum_body_at(toks: &Vec<Token>, p: usize, vals: &mut Vec<String>) -> (r: usize)
    requires
        p <= toks@.len(),
    ensures
        (r as int, name_views(final(vals)@)) == enum_body(tok_views(toks@), p as int, name_views(old(vals)@)),
        p <= r <= toks@.len(),
{
    let ghost t = tok_views(toks@);
    let mut i = p;
    while i < toks.len()
        invariant
            p <= i <= toks@.len(),
            t == tok_views(toks@),
            enum_body(t, p as int, name_views(old(vals)@)) == enum_body(t, i as int, name_views(vals@)),
        decreases toks@.len() - i,
    {
        if text_is(toks, i, "}") {
            return i + 1;
        }
        if is_name(toks, i) {
            let ghost prev = name_views(vals@);
            vals.push(text_of(toks, i));
            assert(name_views(vals@) =~= prev.push(t[i as int].3));
        }
        let (q, _d) = directives_at(toks, i + 1);
        i = q;
    }
    i
}

fn enum_at(toks: &Vec<Token>, p: usize, vals: &mut Vec<String>, dirs: &mut Vec<AppliedDirective>) -> (r: usize)
    requires
        p <= toks@.len(),
    ensures
        (r as int, name_views(final(vals)@), dir_views(final(dirs)@)) == enum_from(
            tok_views(toks@),
            p as int,
            name_views(old(vals)@),
            dir_views(old(dirs)@),
        ),
        p <= r <= toks@.len(),
{
    let ghost t = tok_views(toks@);
    let mut i = p;
    while i < toks.len()
        invariant
            p <= i <= toks@.len(),
            t == tok_views(toks@),
            enum_from(t, p as int, name_views(old(vals)@), dir_views(old(dirs)@)) == enum_from(
                t,
                i as int,
                name_views(vals@),
                dir_views(dirs@),
            ),
        decreases toks@.len() - i,
    {
        if text_is(toks, i, "@") {
            let (q, mut ds) = directives_at(toks, i);
            let ghost prev = dir_views(dirs@);
            let ghost dsv = dir_views(ds@);
            dirs.append(&mut ds);
            assert(dir_views(dirs@) =~= prev + dsv);
            i = q;
        } else if !text_is(toks, i, "{") {
            return i;
        } else {
            i = enum_body_at(toks, i + 1, vals);
        }
    }
    i
}

fn members_at(toks: &Vec<Token>, p: usize, acc: &mut Vec<String>) -> (r: usize)
    requires
        p <= toks@.len(),
    ensures
        (r as int, name_views(final(acc)@)) == members_from(tok_views(toks@), p as int, name_views(old(acc)@)),
        p <= r <= toks@.len(),
{
    let ghost t = tok_views(toks@);
    let mut i = p;
    while i < toks.len()
        invariant
            p <= i <= toks@.len(),
            t == tok_views(toks@),
            members_from(t, p as int, name_views(old(acc)@)) == members_from(t, i as int, name_views(acc@)),
        decreases toks@.len() - i,
    {
        if text_is(toks, i, "=") || text_is(toks, i, "|") {
            i = i + 1;
        } else if is_name(toks, i) && !is_type_keyword_str(toks[i].text.as_str()) {
            let ghost prev = name_views(acc@);
            acc.push(text_of(toks, i));
            assert(name_views(acc@) =~= prev.push(t[i as int].3));
            i = i + 1;
        } else {
            return i;
        }
    }
    i
}

fn directive_rest_at(toks: &Vec<Token>, p: usize) -> (r: usize)
    requires
        p <= toks@.len(),
    ensures
        r as int == directive_rest(tok_views(toks@), p as int),
        p <= r <= toks@.len(),
{
    let ghost t = tok_views(toks@);
    let mut i = p;
    while i < toks.len()
        invariant
            p <= i <= toks@.len(),
            t == tok_views(toks@),
            directive_rest(t, p as int) == directive_rest(t, i as int),
        decreases toks@.len() - i,
    {
        if text_is(toks, i, "(") {
            i = skip_balanced_at(toks, i, "(", ")");
        } else if text_is(toks, i, "repeatable") || text_is(toks, i, "on") || text_is(toks, i, "|") {
            i = i + 1;
        } else if toks[i].kind == TokKind::Punct {
            return i;
        } else {
            i = i + 1;
        }
    }
    i
}

fn schema_ops_at(toks: &Vec<Token>, p: usize, ops: &mut Vec<(String, TypeRef)>) -> (r: usize)
    requires
        p <= toks@.len(),
    ensures
        (r as int, root_op_views(final(ops)@)) == schema_ops(tok_views(toks@), p as int, root_op_views(old(ops)@)),
        p <= r <= toks@.len(),
{
    let ghost t = tok_views(toks@);
    let mut i = p;
    while i < toks.len()
        invariant
            p <= i <= toks@.len(),
            t == tok_views(toks@),
            schema_ops(t, p as int, root_op_views(old(ops)@)) == schema_ops(t, i as int, root_op_views(ops@)),
        decreases toks@.len() - i,
    {
        if text_is(toks, i, "}") {
            return i + 1;
        }
        let op = text_of(toks, i);
        let mut j = i + 1;
        if j < toks.len() && text_is(toks, j, ":") {
            j = j + 1;
        }
        let (q, ty) = type_ref_at(toks, j);
        let ghost prev = root_op_views(ops@);
        let ghost item = (op@, ty@);
        ops.push((op, ty));
        assert(root_op_views(ops@) =~= prev.push(item));
        i = q;
    }
    i
}

fn schema_blocks_at(toks: &Vec<Token>, p: usize, ops: &mut Vec<(String, TypeRef)>) -> (r: usize)
    requires
        p <= toks@.len(),
    ensures
        (r as int, root_op_views(final(ops)@)) == schema_blocks(tok_views(toks@), p as int, root_op_views(old(ops)@)),
        p <= r <= toks@.len(),
{
    let ghost t = tok_views(toks@);
    let mut i = p;
    while i < toks.len() && text_is(toks, i, "{")
        invariant
            p <= i <= toks@.len(),
            t == tok_views(toks@),
            schema_blocks(t, p as int, root_op_views(old(ops)@)) == schema_blocks(t, i as int, root_op_views(ops@)),
        decreases toks@.len() - i,
    {
        i = schema_ops_at(toks, i + 1, ops);
    }
    i
}

fn skip_to_definition_at(toks: &Vec<Token>, p: usize) -> (r: usize)
    requires
        p <= toks@.len(),
    ensures
        r as int == skip_to_definition(tok_views(toks@), p as int),
        p <= r <= toks@.len(),
{
    let ghost t = tok_views(toks@);
    let mut i = p;
    while i < toks.len()
        invariant
            p <= i <= toks@.len(),
            t == tok_views(toks@),
            skip_to_definition(t, p as int) == skip_to_definition(t, i as int),
        decreases toks@.len() - i,
    {
        if (is_name(toks, i) && is_type_keyword_str(toks[i].text.as_str())) || text_is(toks, i, "extend") {
            return i;
        }
        let brace = text_is(toks, i, "{");
        i = i + 1;
        if brace {
            i = skip_balanced_at(toks, i, "{", "}");
        }
    }
    i
}

impl Parser {
    fn parse_enum(&mut self, toks: &Vec<Token>, start: Span)
        requires
            old(self).pos <= toks@.len(),
        ensures
            final(self)@ == parse_enum(tok_views(toks@), old(self)@, start),
            old(self).pos <= final(self).pos <= toks@.len(),
    {
        let name = self.expect_name(toks);
        let mut values: Vec<String> = Vec::new();
        let mut directives: Vec<AppliedDirective> = Vec::new();
        assert(name_views(values@) =~= seq![]);
        assert(dir_views(directives@) =~= seq![]);
        self.pos = enum_at(toks, self.pos, &mut values, &mut directives);
        match name {
            Some(n) => {
                let d = Def {
                    kind: DefKind::Enum,
                    name: n,
                    name_span: start,
                    span: start,
                    fields: Vec::new(),
                    implements: Vec::new(),
                    union_members: Vec::new(),
                    enum_values: values,
                    directives,
                    root_ops: Vec::new(),
                };
                assert(d@.fields =~= seq![]);
                assert(d@.implements =~= seq![]);
                assert(d@.union_members =~= seq![]);
                assert(d@.root_ops =~= seq![]);
                self.push_def(d);
            },
            None => {},
        }
    }

    fn parse_union(&mut self, toks: &Vec<Token>, start: Span)
        requires
            old(self).pos <= toks@.len(),
        ensures
            final(self)@ == parse_union(tok_views(toks@), old(self)@, start),
            old(self).pos <= final(self).pos <= toks@.len(),
    {
        let name = self.expect_name(toks);
        let mut members: Vec<String> = Vec::new();
        assert(name_views(members@) =~= seq![]);
        let p2 = members_at(toks, self.pos, &mut members);
        let (p3, _d) = directives_at(toks, p2);
        self.pos = p3;
        match name {
            Some(n) => {
                let d = Def {
                    kind: DefKind::Union,
                    name: n,
                    name_span: start,
                    span: start,
                    fields: Vec::new(),
                    implements: Vec::new(),
                    union_members: members,
                    enum_values: Vec::new(),
                    directives: Vec::new(),
                    root_ops: Vec::new(),
                };
                assert(d@.fields =~= seq![]);
                assert(d@.implements =~= seq![]);
                assert(d@.enum_values =~= seq![]);
                assert(d@.directives =~= seq![]);
                assert(d@.root_ops =~= seq![]);
                self.push_def(d);
            },
            None => {},
        }
    }

    fn parse_directive_def(&mut self, toks: &Vec<Token>, start: Span)
        requires
            old(self).pos <= toks@.len(),
        ensures
            final(self)@ == parse_directive_def(tok_views(toks@), old(self)@, start),
            old(self).pos <= final(self).pos <= toks@.len(),
    {
        let mut name: Option<String> = None;
        if self.pos < toks.len() && text_is(toks, self.pos, "@") {
            self.pos = self.pos + 1;
            name = self.expect_name(toks);
        }
        self.pos = directive_rest_at(toks, self.pos);
        match name {
            Some(n) => self.push_def(simple_def(DefKind::Directive, n, start)),
            None => {},
        }
    }

    fn parse_scalar(&mut self, toks: &Vec<Token>, start: Span)
        requires
            old(self).pos <= toks@.len(),
        ensures
            final(self)@ == parse_scalar(tok_views(toks@), old(self)@, start),
            old(self).pos <= final(self).pos <= toks@.len(),
    {
        let name = self.expect_name(toks);
        let (p2, _d) = directives_at(toks, self.pos);
        self.pos = p2;
        match name {
            Some(n) => self.push_def(simple_def(DefKind::Scalar, n, start)),
            None => {},
        }
    }

    fn parse_schema(&mut self, toks: &Vec<Token>, start: Span)
        requires
            old(self).pos <= toks@.len(),
        ensures
            final(self)@ == parse_schema(tok_views(toks@), old(self)@, start),
            old(self).pos <= final(self).pos <= toks@.len(),
    {
        let (p1, _d) = directives_at(toks, self.pos);
        let mut ops: Vec<(String, TypeRef)> = Vec::new();
        assert(root_op_views(ops@) =~= seq![]);
        self.pos = schema_blocks_at(toks, p1, &mut ops);
        let d = Def {
            kind: DefKind::Schema,
            name: string_of("schema"),
            name_span: start,
            span: start,
            fields: Vec::new(),
            implements: Vec::new(),
            union_members: Vec::new(),
            enum_values: Vec::new(),
            directives: Vec::new(),
            root_ops: ops,
        };
        assert(d@.fields =~= seq![]);
        assert(d@.implements =~= seq![]);
        assert(d@.union_members =~= seq![]);
        assert(d@.enum_values =~= seq![]);
        assert(d@.directives =~= seq![]);
        self.push_def(d);
    }

    fn parse_extend(&mut self, toks: &Vec<Token>)
        requires
            old(self).pos <= toks@.len(),
        ensures
            final(self)@ == parse_extend(tok_views(toks@), old(self)@),
            old(self).pos <= final(self).pos <= toks@.len(),
    {
        let p = self.pos;
        if p >= toks.len() || !is_name(toks, p) {
            return;
        }
        let sp = tok_span(toks, p);
        self.pos = p + 1;
        let kw = toks[p].text.as_str();
        if str_eq(kw, "type") || str_eq(kw, "interface") || str_eq(kw, "input") {
            self.parse_fielded(toks, kw, sp);
        } else if str_eq(kw, "enum") {
            self.parse_enum(toks, sp);
        } else {
            let mut msg = string_of("cannot extend `");
            push_str(&mut msg, kw);
            push_str(&mut msg, "` in SDL subset");
            self.push_error(msg, sp);
        }
    }

    fn parse_definition(&mut self, toks: &Vec<Token>)
        requires
            old(self).pos <= toks@.len(),
        ensures
            final(self)@ == parse_definition(tok_views(toks@), old(self)@),
            old(self).pos <= final(self).pos <= toks@.len(),
    {
        let p = self.pos;
        if p >= toks.len() {
            return;
        }
        if !is_name(toks, p) {
            self.pos = p + 1;
            return;
        }
        let sp = tok_span(toks, p);
        let kw = toks[p].text.as_str();
        self.pos = p + 1;
        if str_eq(kw, "schema") {
            self.parse_schema(toks, sp);
        } else if str_eq(kw, "scalar") {
            self.parse_scalar(toks, sp);
        } else if str_eq(kw, "type") || str_eq(kw, "interface") || str_eq(kw, "input") {
            self.parse_fielded(toks, kw, sp);
        } else if str_eq(kw, "enum") {
            self.parse_enum(toks, sp);
        } else if str_eq(kw, "union") {
            self.parse_union(toks, sp);
        } else if str_eq(kw, "directive") {
            self.parse_directive_def(toks, sp);
        } else if str_eq(kw, "extend") {
            self.parse_extend(toks);
        } else {
            let mut msg = string_of("expected a type definition keyword, found `");
            push_str(&mut msg, kw);
            push_str(&mut msg, "`");
            self.err_here(toks, msg);
            self.pos = skip_to_definition_at(toks, self.pos);
        }
    }

    fn parse(&mut self, toks: &Vec<Token>)
        requires
            old(self).pos <= toks@.len(),
        ensures
            final(self)@ == parse_all(tok_views(toks@), old(self)@),
    {
        let ghost t = tok_views(toks@);
        let ghost start = self@;
        while self.pos < toks.len()
            invariant
                self.pos <= toks@.len(),
                t == tok_views(toks@),
                parse_all(t, start) == parse_all(t, self@),
            decreases toks@.len() - self.pos,
        {
            let before = self.pos;
            self.parse_definition(toks);
            if self.pos == before {
                self.pos = before + 1;
            }
        }
    }
}

/// The outcome of parsing a document's tokens `t`: its definitions and errors.
pub open spec fn parse_tokens(t: Seq<TokV>) -> (Seq<DefV>, Seq<PErrV>) {
    let f = parse_all(t, initial());
    (f.defs, f.errs)
}

/// What `parse_document` gives for `src`: on lexical errors an empty
/// document and those errors; else the parse of the tokens.
pub open spec fn parse_document_spec(src: Seq<char>) -> (Seq<DefV>, Seq<PErrV>) {
    let (toks, lerrs) = lex_spec(src);
    if lerrs.len() > 0 {
        (seq![], lex_errs_as_parse(lerrs))
    } else {
        parse_tokens(toks)
    }
}

/// A source the tokenizer rejects parses to no definition, and its parse
/// errors are its lexical errors, one for one, with their messages and spans.
pub proof fn law_lex_errors_end_the_parse(src: Seq<char>)
    requires
        lex_spec(src).1.len() > 0,
    ensures
        parse_document_spec(src).0.len() == 0,
        parse_document_spec(src).1.len() == lex_spec(src).1.len(),
        forall|k: int|
            0 <= k < lex_spec(src).1.len() ==> #[trigger] parse_document_spec(src).1[k] == (PErrV {
                message: lex_spec(src).1[k].0,
                span: Span { start: lex_spec(src).1[k].1 as u32, end: lex_spec(src).1[k].2 as u32 },
            }),
{
}

/// Parse an SDL document. Lexical errors end the parse with an empty
/// document; otherwise every definition that parses is kept and the errors
/// of the damaged ones are listed.
pub fn parse_document(src: &str) -> (r: (Document, Vec<ParseError>))
    requires
        fits_source(src@),
    ensures
        (r.0@, perr_views(r.1@)) == parse_document_spec(src@),
{
    match tokenize(src) {
        Err(lex_errors) => {
            let mut errs: Vec<ParseError> = Vec::new();
            let mut i: usize = 0;
            let ghost le = err_views(lex_errors@);
            while i < lex_errors.len()
                invariant
                    i <= lex_errors@.len(),
                    le == err_views(lex_errors@),
                    perr_views(errs@) == lex_errs_as_parse(le).subrange(0, i as int),
                decreases lex_errors@.len() - i,
            {
                let e = &lex_errors[i];
                let pe = ParseError { message: e.message.clone(), span: Span::new(e.span.0, e.span.1) };
                let ghost prev = perr_views(errs@);
                let ghost pv = pe@;
                errs.push(pe);
                assert(perr_views(errs@) =~= prev.push(pv));
                assert(lex_errs_as_parse(le).subrange(0, i + 1) =~= lex_errs_as_parse(le).subrange(0, i as int).push(pv));
                i = i + 1;
            }
            assert(lex_errs_as_parse(le).subrange(0, i as int) =~= lex_errs_as_parse(le));
            (Document::new(), errs)
        },
        Ok(toks) => {
            let mut p = Parser { pos: 0, doc: Document::new(), errors: Vec::new(), pending_def_fields: Vec::new() };
            assert(p@ =~= initial());
            p.parse(&toks);
            (p.doc, p.errors)
        },
    }
}

/// Parse errors as diagnostics under the rule id `graphql/parse-error`.
pub open spec fn parse_error_diag(source_id: SourceId, e: PErrV, d: Diagnostic) -> bool {
    &&& d.rule_id@ == "graphql/parse-error"@
    &&& d.severity == Severity::Error
    &&& d.message@ == e.message
    &&& d.source_id == source_id
    &&& d.span == e.span
    &&& d.related@.len() == 0
    &&& d.subject is None
}

/// Parse a document for one source file, with its errors as diagnostics.
pub fn parse_for(source_id: SourceId, src: &str) -> (r: (Document, Vec<Diagnostic>))
    requires
        fits_source(src@),
    ensures
        r.0@ == parse_document_spec(src@).0,
        r.1@.len() == parse_document_spec(src@).1.len(),
        forall|i: int|
            0 <= i < r.1@.len() ==> parse_error_diag(source_id, parse_document_spec(src@).1[i], #[trigger] r.1@[i]),
{
    let (doc, errors) = parse_document(src);
    let ghost ev = perr_views(errors@);
    let mut diags: Vec<Diagnostic> = Vec::new();
    let mut i: usize = 0;
    while i < errors.len()
        invariant
            i <= errors@.len(),
            ev == perr_views(errors@),
            diags@.len() == i,
            forall|k: int| 0 <= k < i ==> parse_error_diag(source_id, ev[k], #[trigger] diags@[k]),
        decreases errors@.len() - i,
    {
        let e = &errors[i];
        let d = Diagnostic {
            rule_id: string_of("graphql/parse-error"),
            severity: Severity::Error,
            message: e.message.clone(),
            source_id,
            span: e.span,
            related: Vec::new(),
            subject: None,
        };
        diags.push(d);
        i = i + 1;
    }
    (doc, diags)
}

} // verus!
