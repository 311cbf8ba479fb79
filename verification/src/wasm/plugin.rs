//! Language AST modules: metadata validation, what the engine publishes for
//! them, their parse errors as diagnostics, and the host-side merge of
//! per-file facts into the cross-file view.

use crate::diagnostic::{diag, diag_views, plain_diag, DiagV, Diagnostic, Severity, SourceId, Span};
use crate::facts::GuestError;
use crate::plugin::CapabilityScope;
use crate::registry::{debug_quoted, debug_str};
use crate::text::{chars_of, is_lower_c, lower_seq, lower_string, push_str, str_eq, string_of};
use crate::wasm::session::span_of;
use vstd::prelude::*;

verus! {

/// Language module metadata (`omni_plugin_meta`).
#[derive(Debug)]
pub struct PluginMeta {
    pub id: String,
    pub name: Option<String>,
    pub extensions: Vec<String>,
    pub capabilities: Vec<MetaCapability>,
}

/// A capability a language module declares; `scope` is `file` or `workspace`.
#[derive(Debug)]
pub struct MetaCapability {
    pub name: String,
    pub scope: String,
}

// ---------------------------------------------------------------------------
// Text helpers
// ---------------------------------------------------------------------------

/// `s` ends with `suffix`.
pub open spec fn ends_with(s: Seq<char>, suffix: Seq<char>) -> bool {
    s.len() >= suffix.len() && s.subrange(s.len() - suffix.len(), s.len() as int) == suffix
}

pub fn str_ends_with(s: &str, suffix: &str) -> (r: bool)
    ensures
        r == ends_with(s@, suffix@),
{
    let a = chars_of(s);
    let b = chars_of(suffix);
    if a.len() < b.len() {
        return false;
    }
    let off = a.len() - b.len();
    let mut i: usize = 0;
    while i < b.len()
        invariant
            a@ == s@,
            b@ == suffix@,
            off + b@.len() == a@.len(),
            a@.len() == a.len(),
            b@.len() == b.len(),
            i <= b@.len(),
            forall|j: int| 0 <= j < i ==> a@[off + j] == b@[j],
        decreases b@.len() - i,
    {
        if a[off + i] != b[i] {
            assert(a@.subrange(off as int, a@.len() as int)[i as int] == a@[off + i]);
            assert(a@.subrange(off as int, a@.len() as int)[i as int] != b@[i as int]);
            return false;
        }
        i = i + 1;
    }
    assert(a@.subrange(off as int, a@.len() as int) =~= b@);
    true
}

/// A module id: lower-case ASCII letters and `-`, at least one character.
pub open spec fn kebab_id(s: Seq<char>) -> bool {
    s.len() > 0 && forall|i: int| 0 <= i < s.len() ==> is_lower_c(#[trigger] s[i]) || s[i] == '-'
}

fn is_kebab_id(s: &str) -> (r: bool)
    ensures
        r == kebab_id(s@),
{
    let v = chars_of(s);
    if v.len() == 0 {
        return false;
    }
    let mut i: usize = 0;
    while i < v.len()
        invariant
            v@ == s@,
            i <= v@.len(),
            forall|j: int| 0 <= j < i ==> is_lower_c(#[trigger] v@[j]) || v@[j] == '-',
        decreases v@.len() - i,
    {
        let c = v[i];
        if !(('a' <= c && c <= 'z') || c == '-') {
            assert(!(is_lower_c(v@[i as int]) || v@[i as int] == '-'));
            return false;
        }
        i = i + 1;
    }
    true
}

/// A file capability named `<language>.facts`.
pub open spec fn facts_cap(c: MetaCapability) -> bool {
    c.scope@ == "file"@ && ends_with(c.name@, ".facts"@)
}

/// A workspace capability named `<language>.workspace`.
pub open spec fn workspace_cap(c: MetaCapability) -> bool {
    c.scope@ == "workspace"@ && ends_with(c.name@, ".workspace"@)
}

fn is_facts_cap(c: &MetaCapability) -> (r: bool)
    ensures
        r == facts_cap(*c),
{
    str_eq(c.scope.as_str(), "file") && str_ends_with(c.name.as_str(), ".facts")
}

fn is_workspace_cap(c: &MetaCapability) -> (r: bool)
    ensures
        r == workspace_cap(*c),
{
    str_eq(c.scope.as_str(), "workspace") && str_ends_with(c.name.as_str(), ".workspace")
}

// ---------------------------------------------------------------------------
// Metadata validation
// ---------------------------------------------------------------------------

pub open spec fn invalid_module_id_message(path: Seq<char>, id: Seq<char>) -> Seq<char> {
    "language module `"@ + path + "` declares an invalid id "@ + debug_quoted(id) + " (use lowercase kebab)"@
}

pub open spec fn missing_facts_message(path: Seq<char>) -> Seq<char> {
    "language module `"@ + path + "` must declare a file capability named `<language>.facts`"@
}

/// What loading a language module at `path` makes of its metadata: its id
/// must be lower-case kebab, and it must declare a file capability named
/// `<language>.facts`.
pub open spec fn plugin_meta_check(path: Seq<char>, meta: PluginMeta) -> Result<(), Seq<char>> {
    if !kebab_id(meta.id@) {
        Err(invalid_module_id_message(path, meta.id@))
    } else if !(exists|i: int| 0 <= i < meta.capabilities@.len() && facts_cap(#[trigger] meta.capabilities@[i])) {
        Err(missing_facts_message(path))
    } else {
        Ok(())
    }
}

pub fn validate_plugin_meta(path: &str, meta: &PluginMeta) -> (r: Result<(), String>)
    ensures
        match (r, plugin_meta_check(path@, *meta)) {
            (Ok(_), Ok(_)) => true,
            (Err(m), Err(e)) => m@ == e,
            _ => false,
        },
{
    if !is_kebab_id(meta.id.as_str()) {
        let mut m = string_of("language module `");
        push_str(&mut m, path);
        push_str(&mut m, "` declares an invalid id ");
        let q = debug_str(meta.id.as_str());
        push_str(&mut m, q.as_str());
        push_str(&mut m, " (use lowercase kebab)");
        return Err(m);
    }
    let mut i: usize = 0;
    while i < meta.capabilities.len()
        invariant
            i <= meta.capabilities@.len(),
            kebab_id(meta.id@),
            forall|j: int| 0 <= j < i ==> !facts_cap(#[trigger] meta.capabilities@[j]),
        decreases meta.capabilities@.len() - i,
    {
        if is_facts_cap(&meta.capabilities[i]) {
            assert(facts_cap(meta.capabilities@[i as int]));
            return Ok(());
        }
        i = i + 1;
    }
    let mut m = string_of("language module `");
    push_str(&mut m, path);
    push_str(&mut m, "` must declare a file capability named `<language>.facts`");
    Err(m)
}

// ---------------------------------------------------------------------------
// What the engine sees of a language module
// ---------------------------------------------------------------------------

/// The module's description: its name (else its id) and what it is.
pub open spec fn describe_spec(meta: PluginMeta) -> Seq<char> {
    (match meta.name {
        Some(n) => n@,
        None => meta.id@,
    }) + " (sandboxed WASM language module, fuel-metered)"@
}

pub fn describe_module(meta: &PluginMeta) -> (r: String)
    ensures
        r@ == describe_spec(*meta),
{
    let mut s = match &meta.name {
        Some(n) => n.clone(),
        None => meta.id.clone(),
    };
    push_str(&mut s, " (sandboxed WASM language module, fuel-metered)");
    s
}

/// The number of leading `.` characters of `s`.
pub open spec fn leading_dots(s: Seq<char>) -> nat
    decreases s.len(),
{
    if s.len() > 0 && s[0] == '.' {
        1 + leading_dots(s.drop_first())
    } else {
        0
    }
}

/// An extension as the engine matches it: without leading dots, in ASCII
/// lower case.
pub open spec fn normal_extension(e: Seq<char>) -> Seq<char> {
    lower_seq(e.skip(leading_dots(e) as int))
}

proof fn lemma_leading_dots(s: Seq<char>, i: int)
    requires
        0 <= i <= s.len(),
        forall|j: int| 0 <= j < i ==> s[j] == '.',
    ensures
        leading_dots(s) == i + leading_dots(s.skip(i)),
    decreases i,
{
    if i > 0 {
        assert(s[0] == '.');
        assert(s.drop_first().skip(i - 1) =~= s.skip(i));
        assert forall|j: int| 0 <= j < i - 1 implies s.drop_first()[j] == '.' by {
            assert(s.drop_first()[j] == s[j + 1]);
        }
        lemma_leading_dots(s.drop_first(), i - 1);
    } else {
        assert(s.skip(0) =~= s);
    }
}

fn normalize_extension(e: &String) -> (r: String)
    ensures
        r@ == normal_extension(e@),
{
    let v = chars_of(e.as_str());
    let mut i: usize = 0;
    while i < v.len() && v[i] == '.'
        invariant
            i <= v@.len(),
            forall|j: int| 0 <= j < i ==> v@[j] == '.',
        decreases v@.len() - i,
    {
        i = i + 1;
    }
    proof {
        lemma_leading_dots(v@, i as int);
        assert(leading_dots(v@.skip(i as int)) == 0);
        assert(v@.subrange(i as int, v@.len() as int) =~= v@.skip(i as int));
    }
    lower_string(&v, i, v.len())
}

/// The extensions the module claims, as the engine matches them.
pub fn module_extensions(meta: &PluginMeta) -> (r: Vec<String>)
    ensures
        r@.len() == meta.extensions@.len(),
        forall|i: int| 0 <= i < r@.len() ==> (#[trigger] r@[i])@ == normal_extension(meta.extensions@[i]@),
{
    let mut out: Vec<String> = Vec::new();
    let mut i: usize = 0;
    while i < meta.extensions.len()
        invariant
            i <= meta.extensions@.len(),
            out@.len() == i,
            forall|j: int| 0 <= j < i ==> (#[trigger] out@[j])@ == normal_extension(meta.extensions@[j]@),
        decreases meta.extensions@.len() - i,
    {
        out.push(normalize_extension(&meta.extensions[i]));
        i = i + 1;
    }
    out
}

/// The scope a declared capability has: `workspace`, else file.
pub open spec fn scope_of(c: MetaCapability) -> CapabilityScope {
    if c.scope@ == "workspace"@ {
        CapabilityScope::Workspace
    } else {
        CapabilityScope::File
    }
}

/// The module's capabilities, in declaration order.
pub fn module_capabilities(meta: &PluginMeta) -> (r: Vec<(String, CapabilityScope)>)
    ensures
        r@.len() == meta.capabilities@.len(),
        forall|i: int| 0 <= i < r@.len() ==> (#[trigger] r@[i]).0@ == meta.capabilities@[i].name@ && r@[i].1 == scope_of(
            meta.capabilities@[i],
        ),
{
    let mut out: Vec<(String, CapabilityScope)> = Vec::new();
    let mut i: usize = 0;
    while i < meta.capabilities.len()
        invariant
            i <= meta.capabilities@.len(),
            out@.len() == i,
            forall|j: int| 0 <= j < i ==> (#[trigger] out@[j]).0@ == meta.capabilities@[j].name@ && out@[j].1 == scope_of(
                meta.capabilities@[j],
            ),
        decreases meta.capabilities@.len() - i,
    {
        let c = &meta.capabilities[i];
        let scope = if str_eq(c.scope.as_str(), "workspace") {
            CapabilityScope::Workspace
        } else {
            CapabilityScope::File
        };
        out.push((c.name.clone(), scope));
        i = i + 1;
    }
    out
}

/// The names of the declared capabilities that satisfy `p`, in order.
pub open spec fn caps_where(caps: Seq<MetaCapability>, p: spec_fn(MetaCapability) -> bool) -> Seq<Seq<char>>
    decreases caps.len(),
{
    if caps.len() == 0 {
        seq![]
    } else {
        caps_where(caps.drop_last(), p) + if p(caps.last()) {
            seq![caps.last().name@]
        } else {
            seq![]
        }
    }
}

/// The file capabilities named `<language>.facts`: the parsed facts are
/// published under each of them.
pub fn facts_capabilities(meta: &PluginMeta) -> (r: Vec<String>)
    ensures
        crate::text::views(r@) == caps_where(meta.capabilities@, |c: MetaCapability| facts_cap(c)),
{
    let ghost caps = meta.capabilities@;
    let ghost p = |c: MetaCapability| facts_cap(c);
    let mut out: Vec<String> = Vec::new();
    let mut i: usize = 0;
    while i < meta.capabilities.len()
        invariant
            i <= caps.len(),
            caps == meta.capabilities@,
            forall|c: MetaCapability| #[trigger] p(c) == facts_cap(c),
            crate::text::views(out@) == caps_where(caps.subrange(0, i as int), p),
        decreases caps.len() - i,
    {
        assert(caps.subrange(0, i + 1).drop_last() =~= caps.subrange(0, i as int));
        let ghost before = crate::text::views(out@);
        if is_facts_cap(&meta.capabilities[i]) {
            out.push(meta.capabilities[i].name.clone());
            assert(crate::text::views(out@) =~= before.push(caps[i as int].name@));
        }
        assert(crate::text::views(out@) =~= caps_where(caps.subrange(0, i + 1), p));
        i = i + 1;
    }
    assert(caps.subrange(0, i as int) =~= caps);
    out
}

/// The workspace capabilities named `<language>.workspace`: the cross-file
/// facts are published under each of them.
pub fn workspace_capabilities(meta: &PluginMeta) -> (r: Vec<String>)
    ensures
        crate::text::views(r@) == caps_where(meta.capabilities@, |c: MetaCapability| workspace_cap(c)),
{
    let ghost caps = meta.capabilities@;
    let ghost p = |c: MetaCapability| workspace_cap(c);
    let mut out: Vec<String> = Vec::new();
    let mut i: usize = 0;
    while i < meta.capabilities.len()
        invariant
            i <= caps.len(),
            caps == meta.capabilities@,
            forall|c: MetaCapability| #[trigger] p(c) == workspace_cap(c),
            crate::text::views(out@) == caps_where(caps.subrange(0, i as int), p),
        decreases caps.len() - i,
    {
        assert(caps.subrange(0, i + 1).drop_last() =~= caps.subrange(0, i as int));
        let ghost before = crate::text::views(out@);
        if is_workspace_cap(&meta.capabilities[i]) {
            out.push(meta.capabilities[i].name.clone());
            assert(crate::text::views(out@) =~= before.push(caps[i as int].name@));
        }
        assert(crate::text::views(out@) =~= caps_where(caps.subrange(0, i + 1), p));
        i = i + 1;
    }
    assert(caps.subrange(0, i as int) =~= caps);
    out
}

// ---------------------------------------------------------------------------
// Parse errors
// ---------------------------------------------------------------------------

pub struct GuestErrorV {
    pub message: Seq<char>,
    pub span: [u32; 2],
}

impl GuestError {
    pub open spec fn view(&self) -> GuestErrorV {
        GuestErrorV { message: self.message@, span: self.span }
    }
}

pub open spec fn guest_error_views(s: Seq<GuestError>) -> Seq<GuestErrorV> {
    s.map_values(|e: GuestError| e@)
}

/// The parse errors of a file: those in the facts document, then those the
/// guest streamed, at most 50.
pub fn merge_parse_errors(in_facts: Vec<GuestError>, streamed: Vec<GuestError>) -> (r: Vec<GuestError>)
    ensures
        ({
            let all = guest_error_views(in_facts@) + guest_error_views(streamed@);
            guest_error_views(r@) == all.subrange(0, if all.len() < 50 { all.len() as int } else { 50 })
        }),
{
    let mut errors = in_facts;
    let mut more = streamed;
    let ghost a = errors@;
    let ghost b = more@;
    errors.append(&mut more);
    assert(errors@ =~= a + b);
    let ghost full = errors@;
    errors.truncate(50);
    assert(guest_error_views(full) =~= guest_error_views(a) + guest_error_views(b));
    assert(guest_error_views(errors@) =~= guest_error_views(full).subrange(0, if full.len() < 50 { full.len() as int } else { 50 }));
    r_identity(errors)
}

fn r_identity(v: Vec<GuestError>) -> (r: Vec<GuestError>)
    ensures
        r@ == v@,
{
    v
}

/// The diagnostic of one parse error of module `id`: a warning under
/// `<id>/parse-error` (an empty message reads `parse error`).
pub open spec fn parse_error_of(id: Seq<char>, source_id: SourceId, e: GuestErrorV) -> DiagV {
    plain_diag(
        id + "/parse-error"@,
        Severity::Warning,
        source_id,
        Span { start: e.span[0], end: if e.span[1] >= e.span[0] { e.span[1] } else { e.span[0] } },
        if e.message.len() == 0 { "parse error"@ } else { e.message },
        None,
    )
}

/// The diagnostic of a module failure on the file at `path`.
pub open spec fn module_failure_of(id: Seq<char>, source_id: SourceId, path: Seq<char>, err: Seq<char>) -> DiagV {
    plain_diag(
        id + "/error"@,
        Severity::Error,
        source_id,
        Span { start: 0, end: 0 },
        "wasm language module failed on "@ + path + ": "@ + err,
        None,
    )
}

/// The errors of parsing the file at `path` with module `id`: its parse
/// errors, or the module's failure.
pub fn parse_diagnostics(id: &str, source_id: SourceId, path: &str, outcome: Result<Vec<GuestError>, String>) -> (r: Vec<Diagnostic>)
    ensures
        match outcome {
            Ok(errs) => diag_views(r@) == guest_error_views(errs@).map_values(|e: GuestErrorV| parse_error_of(id@, source_id, e)),
            Err(m) => diag_views(r@) == seq![module_failure_of(id@, source_id, path@, m@)],
        },
{
    let mut out: Vec<Diagnostic> = Vec::new();
    match outcome {
        Ok(errs) => {
            let mut i: usize = 0;
            while i < errs.len()
                invariant
                    i <= errs@.len(),
                    diag_views(out@) == guest_error_views(errs@).subrange(0, i as int).map_values(
                        |e: GuestErrorV| parse_error_of(id@, source_id, e),
                    ),
                decreases errs@.len() - i,
            {
                let e = &errs[i];
                let mut rid = string_of(id);
                push_str(&mut rid, "/parse-error");
                let msg = if e.message.as_str().unicode_len() == 0 {
                    string_of("parse error")
                } else {
                    e.message.clone()
                };
                proof {
                    if e.message@.len() == 0 {
                        assert(e.message@ =~= Seq::<char>::empty());
                    }
                }
                let x = diag(rid.as_str(), Severity::Warning, source_id, span_of(e.span), msg, None);
                let ghost before = diag_views(out@);
                out.push(x);
                assert(diag_views(out@) =~= before.push(x@));
                assert(x@ == parse_error_of(id@, source_id, errs@[i as int]@));
                assert(guest_error_views(errs@).subrange(0, i + 1) =~= guest_error_views(errs@).subrange(0, i as int).push(errs@[i as int]@));
                i = i + 1;
            }
            assert(guest_error_views(errs@).subrange(0, i as int) =~= guest_error_views(errs@));
        },
        Err(m) => {
            let mut rid = string_of(id);
            push_str(&mut rid, "/error");
            let mut msg = string_of("wasm language module failed on ");
            push_str(&mut msg, path);
            push_str(&mut msg, ": ");
            push_str(&mut msg, m.as_str());
            let x = diag(rid.as_str(), Severity::Error, source_id, Span::new(0, 0), msg, None);
            out.push(x);
            assert(diag_views(out@) =~= seq![x@]);
        },
    }
    out
}

} // verus!
