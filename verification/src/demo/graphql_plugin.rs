//! The demo GraphQL plugin module: a smaller scanner than the AST module's,
//! its file rule (`demo-gql/no-empty-type`), and its workspace pass
//! (undefined, duplicate and unused types over every file's facts).
//!
//! The scanner reads the UTF-8 bytes of the source and reports findings with
//! the plugin's rule ids and severities. It gives up (the module traps) when
//! the bytes it would quote of an unknown token (up to twelve) do not form
//! whole characters.

use crate::demo::graphql_ast::{
    ascii_string, ascii_text, at, empty_facts, field_subject, lemma_run_end, name_at, name_end, new_def, quote_bytes,
    quote_end, run_end, scan_view, skip_trivia, subject_of, trivia_end, type_ref, type_ref_at, ScanV,
};
use crate::demo::rules::{
    def_names, defs_with_paths, fielded_kind, file_views, flat_defs, flat_uses, named, names_contain, no_undefined_type,
    undefined_findings, uses_with_paths, wrap,
};
use crate::facts::{
    def_fact_views, finding_at, finding_views, use_fact_views, DefFact, DefFactV, Facts, FactsV, FieldFact, FieldFactV, Finding,
    FindingV, GuestError, UseFact, UseFactV,
};
use crate::graphql::model::{builtin, is_builtin};
use crate::text::{copy_opt_string, push_str, str_eq, string_of, utf8_str};
use crate::wasm::plugin::{guest_error_views, GuestErrorV};
use vstd::prelude::*;
use vstd::utf8::{decode_utf8, encode_utf8, valid_utf8};

verus! {

// ---------------------------------------------------------------------------
// The scanner, as a function of the bytes
// ---------------------------------------------------------------------------

/// Where the rest of a line from `i` ends: at the next `{` or `\n`.
pub open spec fn rest_end(b: Seq<u8>, i: int) -> int {
    run_end(b, i, |c: u8| c != 123u8 && c != 10u8)
}

/// `type`, `interface` or `input` at `k`: a definition when a name follows;
/// its body's fields then go to it.
pub open spec fn plugin_def_step(b: Seq<u8>, k: int, word: Seq<char>, s: ScanV) -> ScanV {
    let kind = if word == "type"@ { "object"@ } else { word };
    let t = trivia_end(b, k);
    match name_at(b, t) {
        None => ScanV { i: t, ..s },
        Some(ne) => ScanV {
            i: ne,
            facts: FactsV {
                defs: s.facts.defs.push(new_def(kind, ascii_text(b.subrange(t, ne)), (t as u32, ne as u32), seq![])),
                ..s.facts
            },
            open: true,
            ..s
        },
    }
}

/// `enum`, `union`, `scalar`, `directive` or `extend` at `k`: the rest of the
/// line is passed over; a named scalar is recorded (with no span).
pub open spec fn swallow_step(b: Seq<u8>, k: int, word: Seq<char>, s: ScanV) -> ScanV {
    let t = trivia_end(b, k);
    let (p, defs) = match name_at(b, t) {
        Some(ne) => (
            ne,
            if word == "scalar"@ {
                s.facts.defs.push(new_def("scalar"@, ascii_text(b.subrange(t, ne)), (0u32, 0u32), seq![]))
            } else {
                s.facts.defs
            },
        ),
        None => (t, s.facts.defs),
    };
    ScanV { i: rest_end(b, p), facts: FactsV { defs, ..s.facts }, open: false, ..s }
}

/// A name at `start..k` that is no keyword: inside a definition's body and
/// followed (after spaces and tabs) by `:`, a field whose type reference is
/// read after the `:` and the spaces and tabs that follow it.
pub open spec fn field_step(b: Seq<u8>, start: int, k: int, word: Seq<char>, s: ScanV) -> ScanV {
    let defs = s.facts.defs;
    if !s.open || defs.len() == 0 {
        ScanV { i: k, ..s }
    } else {
        let t = run_end(b, k, |c: u8| c == 32u8 || c == 9u8);
        if !at(b, t, 58u8) {
            ScanV { i: t, ..s }
        } else {
            let (named, ts, te, req) = type_ref_at(b, run_end(b, t + 1, |c: u8| c == 32u8 || c == 9u8));
            let d = defs.last();
            let field = FieldFactV {
                name: word,
                span: (start as u32, k as u32),
                named_type: Some(named),
                required: req,
                directives: seq![],
                subject: "type:"@ + d.name + ".field:"@ + word,
            };
            ScanV {
                i: te,
                facts: FactsV {
                    defs: defs.update(defs.len() - 1, DefFactV { fields: d.fields.push(field), ..d }),
                    uses: if builtin(named) {
                        s.facts.uses
                    } else {
                        s.facts.uses.push(UseFactV { name: named, span: (ts as u32, te as u32), path: None })
                    },
                    ..s.facts
                },
                ..s
            }
        }
    }
}

pub open spec fn swallowed_keyword(w: Seq<char>) -> bool {
    w == "enum"@ || w == "union"@ || w == "scalar"@ || w == "directive"@ || w == "extend"@
}

/// One token at `j` (after the trivia); `None` when the scanner gives up.
pub open spec fn plugin_token_step(b: Seq<u8>, j: int, s: ScanV) -> Option<ScanV> {
    if b[j] == 123u8 {
        Some(ScanV { i: j + 1, ..s })
    } else if b[j] == 125u8 {
        Some(ScanV { i: j + 1, open: false, ..s })
    } else {
        match name_at(b, j) {
            None => {
                let e = quote_end(b, j);
                if !valid_utf8(b.subrange(j, e)) {
                    None
                } else {
                    Some(ScanV {
                        i: j + 1,
                        errors: s.errors.push(GuestErrorV {
                            message: "cannot identify token near `"@ + decode_utf8(b.subrange(j, e)) + "`"@,
                            span: [j as u32, (j + 1) as u32],
                        }),
                        ..s
                    })
                }
            },
            Some(k) => {
                let word = ascii_text(b.subrange(j, k));
                if word == "schema"@ {
                    let t = trivia_end(b, k);
                    let i2 = if !at(b, t, 123u8) {
                        t
                    } else if at(b, t + 1, 125u8) {
                        t + 2
                    } else {
                        t + 1
                    };
                    Some(ScanV { i: i2, facts: FactsV { has_entry_block: true, ..s.facts }, ..s })
                } else if word == "type"@ || word == "interface"@ || word == "input"@ {
                    Some(plugin_def_step(b, k, word, s))
                } else if swallowed_keyword(word) {
                    Some(swallow_step(b, k, word, s))
                } else {
                    Some(field_step(b, j, k, word, s))
                }
            },
        }
    }
}

/// The facts and parse errors of the tokens from `s.i` on.
pub open spec fn plugin_scan_from(b: Seq<u8>, s: ScanV) -> Option<(FactsV, Seq<GuestErrorV>)>
    decreases b.len() - s.i,
{
    let j = trivia_end(b, s.i);
    if s.i < 0 || j >= b.len() {
        Some((s.facts, s.errors))
    } else {
        match plugin_token_step(b, j, s) {
            None => None,
            Some(t) => {
                proof {
                    crate::demo::graphql_ast::lemma_trivia_end(b, s.i);
                    lemma_plugin_token_progress(b, j, s);
                }
                plugin_scan_from(b, t)
            },
        }
    }
}

/// Every token moves the plugin's scan forward, and no further than the end
/// of the bytes.
pub proof fn lemma_plugin_token_progress(b: Seq<u8>, j: int, s: ScanV)
    requires
        0 <= s.i <= j < b.len(),
    ensures
        plugin_token_step(b, j, s) matches Some(t) ==> s.i < t.i <= b.len(),
{
    if b[j] != 123u8 && b[j] != 125u8 {
        match name_at(b, j) {
            None => {},
            Some(k) => {
                let p = |c: u8| crate::demo::graphql_ast::name_byte(c);
                lemma_run_end(b, j, p);
                assert(run_end(b, j, p) == run_end(b, j + 1, p));
                lemma_run_end(b, j + 1, p);
                let word = ascii_text(b.subrange(j, k));
                let t = trivia_end(b, k);
                crate::demo::graphql_ast::lemma_trivia_end(b, k);
                if word == "schema"@ {
                } else if word == "type"@ || word == "interface"@ || word == "input"@ {
                    match name_at(b, t) {
                        Some(ne) => {
                            lemma_run_end(b, t, p);
                        },
                        None => {},
                    }
                } else if swallowed_keyword(word) {
                    let q = |c: u8| c != 123u8 && c != 10u8;
                    match name_at(b, t) {
                        Some(ne) => {
                            lemma_run_end(b, t, p);
                            lemma_run_end(b, ne, q);
                        },
                        None => {
                            lemma_run_end(b, t, q);
                        },
                    }
                    assert(rest_end(b, match name_at(b, t) { Some(ne) => ne, None => t }) == run_end(b, match name_at(b, t) { Some(ne) => ne, None => t }, q));
                } else {
                    let sp = |c: u8| c == 32u8 || c == 9u8;
                    lemma_run_end(b, k, sp);
                    let tt = run_end(b, k, sp);
                    if at(b, tt, 58u8) {
                        lemma_run_end(b, tt + 1, sp);
                        lemma_run_end(b, run_end(b, tt + 1, sp), |c: u8| crate::demo::graphql_ast::type_byte(c));
                    }
                }
            },
        }
    }
}

/// What the plugin's scanner makes of a source: its facts and parse errors,
/// or `None` when it gives up.
pub open spec fn plugin_scan_spec(src: Seq<char>) -> Option<(FactsV, Seq<GuestErrorV>)> {
    plugin_scan_from(encode_utf8(src), ScanV { i: 0, facts: empty_facts(), errors: seq![], open: false })
}

// ---------------------------------------------------------------------------
// The scanner
// ---------------------------------------------------------------------------

fn plugin_def_exec(b: &[u8], k: usize, word: &String, facts: &mut Facts, open: &mut bool) -> (r: usize)
    requires
        k <= b@.len(),
        b@.len() < 0xFFFF_FFF0,
    ensures
        forall|errs: Seq<GuestError>|
            #![auto]
            scan_view(r as int, *final(facts), errs, *final(open)) == plugin_def_step(
                b@,
                k as int,
                word@,
                scan_view(k as int, *old(facts), errs, *old(open)),
            ),
        k <= r <= b@.len(),
{
    let kind = if str_eq(word.as_str(), "type") {
        string_of("object")
    } else {
        word.clone()
    };
    let t = skip_trivia(b, k);
    let ne = match name_end(b, t) {
        None => {
            return t;
        },
        Some(ne) => ne,
    };
    let name = ascii_string(b, t, ne);
    let d = DefFact {
        kind,
        name: name.clone(),
        span: [t as u32, ne as u32],
        subject: subject_of(&name),
        fields: Vec::new(),
        implements: Vec::new(),
        union_members: Vec::new(),
        enum_values: Vec::new(),
        directives: Vec::new(),
        path: None,
    };
    assert(crate::facts::pair(d.span) == (t as u32, ne as u32));
    assert(d@ =~= new_def(d.kind@, name@, (t as u32, ne as u32), seq![])) by {
        assert(d@.fields =~= Seq::<FieldFactV>::empty());
        assert(d@.implements =~= Seq::<Seq<char>>::empty());
        assert(d@.union_members =~= Seq::<Seq<char>>::empty());
        assert(d@.enum_values =~= Seq::<Seq<char>>::empty());
        assert(d@.directives =~= Seq::<Seq<char>>::empty());
    }
    let ghost before = def_fact_views(facts.defs@);
    facts.defs.push(d);
    assert(def_fact_views(facts.defs@) =~= before.push(d@));
    *open = true;
    ne
}

fn swallow_exec(b: &[u8], k: usize, word: &String, facts: &mut Facts, open: &mut bool) -> (r: usize)
    requires
        k <= b@.len(),
        b@.len() < 0xFFFF_FFF0,
    ensures
        forall|errs: Seq<GuestError>|
            #![auto]
            scan_view(r as int, *final(facts), errs, *final(open)) == swallow_step(
                b@,
                k as int,
                word@,
                scan_view(k as int, *old(facts), errs, *old(open)),
            ),
        k <= r <= b@.len(),
{
    let t = skip_trivia(b, k);
    let p = match name_end(b, t) {
        Some(ne) => {
            if str_eq(word.as_str(), "scalar") {
                let name = ascii_string(b, t, ne);
                let d = DefFact {
                    kind: string_of("scalar"),
                    name: name.clone(),
                    span: [0, 0],
                    subject: subject_of(&name),
                    fields: Vec::new(),
                    implements: Vec::new(),
                    union_members: Vec::new(),
                    enum_values: Vec::new(),
                    directives: Vec::new(),
                    path: None,
                };
                assert(crate::facts::pair(d.span) == (0u32, 0u32));
                assert(d@ =~= new_def("scalar"@, name@, (0u32, 0u32), seq![])) by {
                    assert(d@.fields =~= Seq::<FieldFactV>::empty());
                    assert(d@.implements =~= Seq::<Seq<char>>::empty());
                    assert(d@.union_members =~= Seq::<Seq<char>>::empty());
                    assert(d@.enum_values =~= Seq::<Seq<char>>::empty());
                    assert(d@.directives =~= Seq::<Seq<char>>::empty());
                }
                let ghost before = def_fact_views(facts.defs@);
                facts.defs.push(d);
                assert(def_fact_views(facts.defs@) =~= before.push(d@));
            }
            ne
        },
        None => t,
    };
    let ghost q = |c: u8| c != 123u8 && c != 10u8;
    proof {
        lemma_run_end(b@, p as int, q);
    }
    let mut e = p;
    while e < b.len() && b[e] != 123 && b[e] != 10
        invariant
            p <= e <= b@.len(),
            forall|c: u8| #[trigger] q(c) == (c != 123u8 && c != 10u8),
            run_end(b@, p as int, q) == run_end(b@, e as int, q),
        decreases b@.len() - e,
    {
        e = e + 1;
    }
    *open = false;
    e
}

fn field_exec(b: &[u8], start: usize, k: usize, word: &String, facts: &mut Facts, open: &mut bool) -> (r: usize)
    requires
        start < k <= b@.len(),
        b@.len() < 0xFFFF_FFF0,
    ensures
        forall|errs: Seq<GuestError>|
            #![auto]
            field_step(b@, start as int, k as int, word@, scan_view(k as int, *old(facts), errs, *old(open)))
                == scan_view(r as int, *final(facts), errs, *final(open)),
        k <= r <= b@.len(),
{
    if !*open || facts.defs.len() == 0 {
        return k;
    }
    let ghost sp = |c: u8| c == 32u8 || c == 9u8;
    proof {
        lemma_run_end(b@, k as int, sp);
    }
    let mut t = k;
    while t < b.len() && (b[t] == 32 || b[t] == 9)
        invariant
            k <= t <= b@.len(),
            forall|c: u8| #[trigger] sp(c) == (c == 32u8 || c == 9u8),
            run_end(b@, k as int, sp) == run_end(b@, t as int, sp),
        decreases b@.len() - t,
    {
        t = t + 1;
    }
    if !(t < b.len() && b[t] == 58) {
        return t;
    }
    proof {
        lemma_run_end(b@, t + 1, sp);
    }
    let mut ts = t + 1;
    while ts < b.len() && (b[ts] == 32 || b[ts] == 9)
        invariant
            t < ts <= b@.len(),
            forall|c: u8| #[trigger] sp(c) == (c == 32u8 || c == 9u8),
            run_end(b@, t + 1, sp) == run_end(b@, ts as int, sp),
        decreases b@.len() - ts,
    {
        ts = ts + 1;
    }
    let ghost defs0 = facts.defs@;
    let mut d = match facts.defs.pop() {
        Some(d) => d,
        None => {
            return k;
        },
    };
    assert(d == defs0.last());
    assert(facts.defs@ =~= defs0.drop_last());
    let (named, te, req) = type_ref(b, ts);
    let subject = field_subject(&d.name, word);
    let field = FieldFact {
        name: word.clone(),
        span: [start as u32, k as u32],
        named_type: Some(named.clone()),
        required: req,
        directives: Vec::new(),
        subject,
    };
    assert(field@.directives =~= Seq::<Seq<char>>::empty());
    assert(crate::facts::pair(field.span) == (start as u32, k as u32));
    let ghost fv = field@;
    let ghost fs0 = d@.fields;
    d.fields.push(field);
    assert(d@.fields =~= fs0.push(fv));
    let ghost nd = d@;
    facts.defs.push(d);
    assert(def_fact_views(facts.defs@) =~= def_fact_views(defs0).update(defs0.len() - 1, nd));
    if !is_builtin(named.as_str()) {
        let u = UseFact { name: named, span: [ts as u32, te as u32], path: None };
        assert(crate::facts::pair(u.span) == (ts as u32, te as u32));
        let ghost before = use_fact_views(facts.uses@);
        facts.uses.push(u);
        assert(use_fact_views(facts.uses@) =~= before.push(u@));
    }
    te
}

fn plugin_token_exec(b: &[u8], j: usize, facts: &mut Facts, errors: &mut Vec<GuestError>, open: &mut bool, Ghost(i0): Ghost<int>) -> (r: Option<usize>)
    requires
        j < b@.len(),
        b@.len() < 0xFFFF_FFF0,
    ensures
        match r {
            Some(x) => plugin_token_step(b@, j as int, scan_view(i0, *old(facts), old(errors)@, *old(open))) == Some(
                scan_view(x as int, *final(facts), final(errors)@, *final(open)),
            ) && x <= b@.len(),
            None => plugin_token_step(b@, j as int, scan_view(i0, *old(facts), old(errors)@, *old(open))) is None,
        },
{
    if b[j] == 123 {
        return Some(j + 1);
    }
    if b[j] == 125 {
        *open = false;
        return Some(j + 1);
    }
    match name_end(b, j) {
        None => {
            let e = if j + 12 <= b.len() { j + 12 } else { b.len() };
            let v = quote_bytes(b, j, e);
            match utf8_str(v.as_slice()) {
                None => None,
                Some(q) => {
                    let mut m = string_of("cannot identify token near `");
                    push_str(&mut m, q);
                    push_str(&mut m, "`");
                    let er = GuestError { message: m, span: [j as u32, (j + 1) as u32] };
                    let ghost before = guest_error_views(errors@);
                    errors.push(er);
                    assert(guest_error_views(errors@) =~= before.push(er@));
                    Some(j + 1)
                },
            }
        },
        Some(k) => {
            let word = ascii_string(b, j, k);
            if str_eq(word.as_str(), "schema") {
                let t = skip_trivia(b, k);
                let i2 = if !(t < b.len() && b[t] == 123) {
                    t
                } else if t + 1 < b.len() && b[t + 1] == 125 {
                    t + 2
                } else {
                    t + 1
                };
                facts.has_entry_block = true;
                return Some(i2);
            }
            if str_eq(word.as_str(), "type") || str_eq(word.as_str(), "interface") || str_eq(word.as_str(), "input") {
                let x = plugin_def_exec(b, k, &word, facts, open);
                assert(scan_view(x as int, *facts, errors@, *open) == plugin_def_step(b@, k as int, word@, scan_view(k as int, *old(facts), errors@, *old(open))));
                return Some(x);
            }
            if str_eq(word.as_str(), "enum") || str_eq(word.as_str(), "union") || str_eq(word.as_str(), "scalar")
                || str_eq(word.as_str(), "directive") || str_eq(word.as_str(), "extend") {
                let x = swallow_exec(b, k, &word, facts, open);
                assert(scan_view(x as int, *facts, errors@, *open) == swallow_step(b@, k as int, word@, scan_view(k as int, *old(facts), errors@, *old(open))));
                return Some(x);
            }
            let x = field_exec(b, j, k, &word, facts, open);
            assert(field_step(b@, j as int, k as int, word@, scan_view(k as int, *old(facts), errors@, *old(open)))
                == scan_view(x as int, *facts, errors@, *open));
            Some(x)
        },
    }
}

/// Scan one SDL document into its facts and parse errors; `None` when the
/// scanner gives up (see the module documentation).
pub fn scan_sdl(src: &str) -> (r: Option<(Facts, Vec<GuestError>)>)
    requires
        crate::graphql::lexer::fits_source(src@),
    ensures
        match (r, plugin_scan_spec(src@)) {
            (Some((f, e)), Some((sf, se))) => f@ == sf && guest_error_views(e@) == se,
            (None, None) => true,
            _ => false,
        },
{
    let b = src.as_bytes();
    let mut facts = Facts::default();
    let mut errors: Vec<GuestError> = Vec::new();
    let mut open = false;
    let mut i: usize = 0;
    assert(scan_view(0, facts, errors@, open) == (ScanV { i: 0, facts: empty_facts(), errors: seq![], open: false })) by {
        assert(facts@.defs =~= Seq::<DefFactV>::empty());
        assert(facts@.uses =~= Seq::<UseFactV>::empty());
        assert(facts@.directives_defined =~= Seq::<Seq<char>>::empty());
        assert(facts@.directives_used =~= Seq::<Seq<char>>::empty());
        assert(facts@.roots =~= Seq::<(Seq<char>, Seq<char>)>::empty());
        assert(guest_error_views(errors@) =~= Seq::<GuestErrorV>::empty());
    }
    loop
        invariant
            i <= b@.len(),
            b@ == encode_utf8(src@),
            b@.len() < 0xFFFF_FFF0,
            plugin_scan_spec(src@) == plugin_scan_from(b@, scan_view(i as int, facts, errors@, open)),
        decreases b@.len() - i,
    {
        let j = skip_trivia(b, i);
        if j >= b.len() {
            return Some((facts, errors));
        }
        let ghost old_facts = facts;
        let ghost old_errors = errors@;
        let ghost old_open = open;
        match plugin_token_exec(b, j, &mut facts, &mut errors, &mut open, Ghost(i as int)) {
            None => {
                return None;
            },
            Some(x) => {
                proof {
                    crate::demo::graphql_ast::lemma_trivia_end(b@, i as int);
                    lemma_plugin_token_progress(b@, j as int, scan_view(i as int, old_facts, old_errors, old_open));
                }
                i = x;
            },
        }
    }
}

// ---------------------------------------------------------------------------
// Findings
// ---------------------------------------------------------------------------

/// A finding under the plugin's rule id `rule_id`, graded `severity`.
pub open spec fn tagged(f: FindingV, rule_id: Seq<char>, severity: Seq<char>) -> FindingV {
    FindingV { rule_id: Some(rule_id), severity: Some(severity), ..f }
}

pub open spec fn tag_all(s: Seq<FindingV>, rule_id: Seq<char>, severity: Seq<char>) -> Seq<FindingV> {
    s.map_values(|f: FindingV| tagged(f, rule_id, severity))
}

fn copy_finding(f: &Finding) -> (r: Finding)
    ensures
        r@ == f@,
{
    Finding {
        rule_id: copy_opt_string(&f.rule_id),
        severity: copy_opt_string(&f.severity),
        message: f.message.clone(),
        span: f.span,
        subject: copy_opt_string(&f.subject),
        path: copy_opt_string(&f.path),
    }
}

fn tag(f: Finding, rule_id: &str, severity: &str) -> (r: Finding)
    ensures
        r@ == tagged(f@, rule_id@, severity@),
{
    Finding { rule_id: Some(string_of(rule_id)), severity: Some(string_of(severity)), ..f }
}

/// `demo-gql/no-empty-type` on one parsed file: object, interface and input
/// definitions without fields.
pub open spec fn empty_reports(path: Seq<char>, defs: Seq<DefFactV>) -> Seq<FindingV>
    decreases defs.len(),
{
    if defs.len() == 0 {
        seq![]
    } else {
        let d = defs.last();
        empty_reports(path, defs.drop_last()) + if fielded_kind(d.kind) && d.fields.len() == 0 {
            seq![
                tagged(
                    finding_at(path, "type `"@ + d.name + "` is empty; it must define at least one field"@, d.span, d.subject),
                    "demo-gql/no-empty-type"@,
                    "error"@,
                ),
            ]
        } else {
            seq![]
        }
    }
}

/// The findings the plugin reports while parsing the file at `path`.
pub fn parse_findings(path: &str, facts: &Facts) -> (r: Vec<Finding>)
    ensures
        finding_views(r@) == empty_reports(path@, facts@.defs),
{
    let ghost dv = facts@.defs;
    let mut out: Vec<Finding> = Vec::new();
    let mut j: usize = 0;
    assert(dv.subrange(0, 0) =~= Seq::<DefFactV>::empty());
    while j < facts.defs.len()
        invariant
            j <= facts.defs@.len(),
            dv == facts@.defs,
            finding_views(out@) == empty_reports(path@, dv.subrange(0, j as int)),
        decreases facts.defs@.len() - j,
    {
        let d = &facts.defs[j];
        assert(dv[j as int] == d@);
        assert(dv.subrange(0, j + 1).drop_last() =~= dv.subrange(0, j as int));
        let ghost before = finding_views(out@);
        let fielded = str_eq(d.kind.as_str(), "object") || str_eq(d.kind.as_str(), "interface") || str_eq(d.kind.as_str(), "input");
        if fielded && d.fields.len() == 0 {
            let m = wrap("type `", d.name.as_str(), "` is empty; it must define at least one field");
            let f = tag(Finding::at(string_of(path), m, d.span).subject(d.subject.clone()), "demo-gql/no-empty-type", "error");
            out.push(f);
            assert(finding_views(out@) =~= before.push(f@));
        }
        j = j + 1;
    }
    assert(dv.subrange(0, j as int) =~= dv);
    out
}

/// `demo-gql/duplicate-type` of the workspace pass, from definition `k` on,
/// with `seen` definitions counted as first ones so far: a definition is
/// reported when one of the first `seen` definitions (by position) has its
/// name, and counted otherwise.
pub open spec fn dup_from(defs: Seq<(Seq<char>, DefFactV)>, k: int, seen: int) -> Seq<FindingV>
    decreases defs.len() - k,
{
    if k < 0 || k >= defs.len() {
        seq![]
    } else {
        let (p, d) = defs[k];
        if def_names(defs.subrange(0, seen)).contains(d.name) {
            seq![
                tagged(
                    finding_at(p, "type `"@ + d.name + "` is defined more than once in the schema"@, d.span, "type:"@ + d.name),
                    "demo-gql/duplicate-type"@,
                    "error"@,
                ),
            ] + dup_from(defs, k + 1, seen)
        } else {
            dup_from(defs, k + 1, seen + 1)
        }
    }
}

/// `demo-gql/no-unused-type` of the workspace pass: definitions neither
/// referenced nor a schema root.
pub open spec fn plugin_unused(defs: Seq<(Seq<char>, DefFactV)>, used: Seq<Seq<char>>, roots: Seq<Seq<char>>) -> Seq<FindingV>
    decreases defs.len(),
{
    if defs.len() == 0 {
        seq![]
    } else {
        let (p, d) = defs.last();
        plugin_unused(defs.drop_last(), used, roots) + if !named(used, d.name) && !named(roots, d.name) {
            seq![
                tagged(
                    finding_at(p, "type `"@ + d.name + "` is defined but never referenced"@, d.span, "type:"@ + d.name),
                    "demo-gql/no-unused-type"@,
                    "info"@,
                ),
            ]
        } else {
            seq![]
        }
    }
}

/// The root types every file's schema block names, in order.
pub open spec fn all_roots(files: Seq<(Seq<char>, FactsV)>) -> Seq<Seq<char>>
    decreases files.len(),
{
    if files.len() == 0 {
        seq![]
    } else {
        all_roots(files.drop_last()) + files.last().1.roots.map_values(|r: (Seq<char>, Seq<char>)| r.1)
    }
}

pub open spec fn any_entry(files: Seq<(Seq<char>, FactsV)>) -> bool {
    exists|i: int| 0 <= i < files.len() && (#[trigger] files[i]).1.has_entry_block
}

/// The workspace pass over every file's facts: undefined references, then
/// duplicate definitions, then (once a file has a schema block) unused
/// definitions.
pub open spec fn plugin_workspace_spec(files: Seq<(Seq<char>, FactsV)>) -> Seq<FindingV> {
    let defs = defs_with_paths(files);
    let uses = uses_with_paths(files);
    tag_all(undefined_findings(uses, def_names(defs)), "demo-gql/no-undefined-type"@, "error"@) + dup_from(defs, 0, 0) + if any_entry(
        files,
    ) {
        plugin_unused(defs, uses.map_values(|u: (Seq<char>, UseFactV)| u.1.name), all_roots(files))
    } else {
        seq![]
    }
}

fn duplicate_pass(defs: &Vec<(String, &DefFact)>) -> (r: Vec<Finding>)
    ensures
        finding_views(r@) == dup_from(defs@.map_values(|p: (String, &DefFact)| (p.0@, p.1@)), 0, 0),
{
    let ghost dv = defs@.map_values(|p: (String, &DefFact)| (p.0@, p.1@));
    let mut out: Vec<Finding> = Vec::new();
    let mut prefix: Vec<String> = Vec::new();
    let mut seen: usize = 0;
    let mut k: usize = 0;
    assert(def_names(dv.subrange(0, 0)) =~= Seq::<Seq<char>>::empty());
    assert(crate::facts::strs(prefix@) =~= Seq::<Seq<char>>::empty());
    while k < defs.len()
        invariant
            seen <= k <= defs@.len(),
            dv == defs@.map_values(|p: (String, &DefFact)| (p.0@, p.1@)),
            crate::facts::strs(prefix@) == def_names(dv.subrange(0, seen as int)),
            finding_views(out@) + dup_from(dv, k as int, seen as int) == dup_from(dv, 0, 0),
        decreases defs@.len() - k,
    {
        let (path, d) = (&defs[k].0, defs[k].1);
        assert(dv[k as int] == (path@, d@));
        let ghost before = finding_views(out@);
        if names_contain(&prefix, d.name.as_str()) {
            let m = wrap("type `", d.name.as_str(), "` is defined more than once in the schema");
            let f = tag(Finding::at(path.clone(), m, d.span).subject(subject_of(&d.name)), "demo-gql/duplicate-type", "error");
            out.push(f);
            assert(finding_views(out@) =~= before.push(f@));
            assert(finding_views(out@) + dup_from(dv, k + 1, seen as int) =~= before + dup_from(dv, k as int, seen as int));
        } else {
            let ghost pb = crate::facts::strs(prefix@);
            prefix.push(defs[seen].1.name.clone());
            assert(crate::facts::strs(prefix@) =~= pb.push(dv[seen as int].1.name));
            assert(def_names(dv.subrange(0, seen + 1)) =~= def_names(dv.subrange(0, seen as int)).push(dv[seen as int].1.name));
            seen = seen + 1;
        }
        k = k + 1;
    }
    assert(finding_views(out@) =~= finding_views(out@) + Seq::<FindingV>::empty());
    out
}

/// The plugin's workspace pass over every file's facts (`(path, facts)`
/// pairs in the order the engine hands them over).
pub fn workspace_findings(files: &Vec<(String, Facts)>) -> (r: Vec<Finding>)
    ensures
        finding_views(r@) == plugin_workspace_spec(file_views(files@)),
{
    let ghost fv = file_views(files@);
    let ghost defs_v = defs_with_paths(fv);
    let ghost uses_v = uses_with_paths(fv);
    let undefined = no_undefined_type(files);
    let ghost uf = finding_views(undefined@);
    let mut out: Vec<Finding> = Vec::new();
    let mut i: usize = 0;
    while i < undefined.len()
        invariant
            i <= undefined@.len(),
            uf == finding_views(undefined@),
            finding_views(out@) == tag_all(uf.subrange(0, i as int), "demo-gql/no-undefined-type"@, "error"@),
        decreases undefined@.len() - i,
    {
        let f = tag(copy_finding(&undefined[i]), "demo-gql/no-undefined-type", "error");
        let ghost before = finding_views(out@);
        out.push(f);
        assert(finding_views(out@) =~= before.push(f@));
        assert(tag_all(uf.subrange(0, i + 1), "demo-gql/no-undefined-type"@, "error"@) =~= tag_all(
            uf.subrange(0, i as int),
            "demo-gql/no-undefined-type"@,
            "error"@,
        ).push(tagged(uf[i as int], "demo-gql/no-undefined-type"@, "error"@)));
        i = i + 1;
    }
    assert(uf.subrange(0, i as int) =~= uf);
    let defs = flat_defs(files);
    let ghost before_dup = out@;
    let mut dups = duplicate_pass(&defs);
    let ghost dup_added = dups@;
    out.append(&mut dups);
    assert(finding_views(out@) =~= finding_views(before_dup) + finding_views(dup_added));
    let mut entry = false;
    let mut q: usize = 0;
    while q < files.len()
        invariant
            q <= files@.len(),
            fv == file_views(files@),
            entry == exists|x: int| 0 <= x < q && (#[trigger] fv[x]).1.has_entry_block,
        decreases files@.len() - q,
    {
        assert(fv[q as int].1.has_entry_block == files[q as int].1.has_entry_block);
        if files[q].1.has_entry_block {
            entry = true;
        }
        q = q + 1;
    }
    assert(entry == any_entry(fv));
    if !entry {
        assert(finding_views(out@) =~= plugin_workspace_spec(fv));
        return out;
    }
    let uses = flat_uses(files);
    let ghost uv = uses@.map_values(|p: (String, &UseFact)| (p.0@, p.1@));
    let mut used: Vec<String> = Vec::new();
    let mut k: usize = 0;
    while k < uses.len()
        invariant
            k <= uses@.len(),
            uv == uses@.map_values(|p: (String, &UseFact)| (p.0@, p.1@)),
            crate::facts::strs(used@) == uv.subrange(0, k as int).map_values(|u: (Seq<char>, UseFactV)| u.1.name),
        decreases uses@.len() - k,
    {
        let ghost b0 = crate::facts::strs(used@);
        used.push(uses[k].1.name.clone());
        assert(crate::facts::strs(used@) =~= b0.push(uv[k as int].1.name));
        assert(uv.subrange(0, k + 1).map_values(|u: (Seq<char>, UseFactV)| u.1.name) =~= uv.subrange(0, k as int).map_values(
            |u: (Seq<char>, UseFactV)| u.1.name,
        ).push(uv[k as int].1.name));
        k = k + 1;
    }
    assert(uv.subrange(0, k as int) =~= uv);
    let mut roots: Vec<String> = Vec::new();
    let mut f: usize = 0;
    assert(fv.subrange(0, 0) =~= Seq::<(Seq<char>, FactsV)>::empty());
    while f < files.len()
        invariant
            f <= files@.len(),
            fv == file_views(files@),
            crate::facts::strs(roots@) == all_roots(fv.subrange(0, f as int)),
        decreases files@.len() - f,
    {
        let rs = &files[f].1.roots;
        assert(fv[f as int].1.roots == crate::facts::pair_views(rs@));
        let ghost base = crate::facts::strs(roots@);
        let mut g: usize = 0;
        while g < rs.len()
            invariant
                f < files@.len(),
                g <= rs@.len(),
                *rs == files@[f as int].1.roots,
                fv == file_views(files@),
                crate::facts::strs(roots@) == base + fv[f as int].1.roots.subrange(0, g as int).map_values(
                    |r: (Seq<char>, Seq<char>)| r.1,
                ),
            decreases rs@.len() - g,
        {
            let ghost b0 = crate::facts::strs(roots@);
            roots.push(rs[g].1.clone());
            assert(crate::facts::strs(roots@) =~= b0.push(rs@[g as int].1@));
            assert(fv[f as int].1.roots.subrange(0, g + 1).map_values(|r: (Seq<char>, Seq<char>)| r.1) =~= fv[f as int].1.roots.subrange(
                0,
                g as int,
            ).map_values(|r: (Seq<char>, Seq<char>)| r.1).push(rs@[g as int].1@));
            g = g + 1;
        }
        proof {
            assert(fv.subrange(0, f + 1).drop_last() =~= fv.subrange(0, f as int));
            assert(fv[f as int].1.roots.subrange(0, g as int) =~= fv[f as int].1.roots);
        }
        f = f + 1;
    }
    assert(fv.subrange(0, f as int) =~= fv);
    let ghost dv = defs@.map_values(|p: (String, &DefFact)| (p.0@, p.1@));
    let ghost used_v = crate::facts::strs(used@);
    let ghost roots_v = crate::facts::strs(roots@);
    let ghost head = finding_views(out@);
    let mut k: usize = 0;
    assert(dv.subrange(0, 0) =~= Seq::<(Seq<char>, DefFactV)>::empty());
    while k < defs.len()
        invariant
            k <= defs@.len(),
            dv == defs@.map_values(|p: (String, &DefFact)| (p.0@, p.1@)),
            used_v == crate::facts::strs(used@),
            roots_v == crate::facts::strs(roots@),
            finding_views(out@) == head + plugin_unused(dv.subrange(0, k as int), used_v, roots_v),
        decreases defs@.len() - k,
    {
        let (path, d) = (&defs[k].0, defs[k].1);
        assert(dv[k as int] == (path@, d@));
        assert(dv.subrange(0, k + 1).drop_last() =~= dv.subrange(0, k as int));
        let ghost before = finding_views(out@);
        if !names_contain(&used, d.name.as_str()) && !names_contain(&roots, d.name.as_str()) {
            let m = wrap("type `", d.name.as_str(), "` is defined but never referenced");
            let x = tag(Finding::at(path.clone(), m, d.span).subject(subject_of(&d.name)), "demo-gql/no-unused-type", "info");
            out.push(x);
            assert(finding_views(out@) =~= before.push(x@));
        }
        k = k + 1;
    }
    assert(dv.subrange(0, k as int) =~= dv);
    out
}

} // verus!
