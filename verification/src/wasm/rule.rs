//! Rule pack modules: one `.wasm` ships a bundle of rules, each registered
//! and configured individually like a native rule. This module validates a
//! pack's metadata when it loads, and turns what a pack reports for one of
//! its rules into that rule's diagnostics.

use crate::diagnostic::{diag, diag_views, plain_diag, DiagV, Diagnostic, Severity, SourceId, Span};
use crate::registry::{debug_quoted, debug_str, namespace_of, rule_namespace};
use crate::text::{chars_of, is_digit_c, is_lower_c, push_str, str_eq, string_from_chars, string_of};
use crate::wasm::session::{clamp_span, clamped, span_of, GuestFinding, MAX_REPORTED_FINDINGS};
use vstd::prelude::*;

verus! {

/// Rule pack metadata (`omni_pack_meta`).
#[derive(Debug)]
pub struct RulePackMeta {
    /// Namespace of every rule in the pack, e.g. `acme`.
    pub namespace: String,
    pub name: Option<String>,
    pub description: Option<String>,
    /// Facts capability the whole pack reads: `<language>.facts` or
    /// `<language>.workspace`.
    pub requires: String,
    /// Every rule the pack contributes, graded by the pack author.
    pub rules: Vec<PackRuleDef>,
}

#[derive(Debug)]
pub struct PackRuleDef {
    /// Full rule id, `<namespace>/<rule-name>`: what config keys.
    pub id: String,
    pub description: String,
    /// The pack author's default (`error`, `warning`, `info`; `off` = opt-in).
    pub severity: Option<String>,
}

/// Single-rule module metadata (`omni_rule_meta`).
#[derive(Debug)]
pub struct RuleModuleMeta {
    pub id: String,
    pub description: String,
    pub severity: Option<String>,
    pub requires: String,
}

/// One finding a rule module returns or streams.
#[derive(Debug)]
pub struct RuleFinding {
    pub rule_id: Option<String>,
    pub severity: Option<String>,
    pub message: String,
    pub span: [u32; 2],
    pub subject: Option<String>,
    /// Workspace-relative path of the offending file.
    pub path: Option<String>,
}

pub open spec fn opt_view(o: Option<String>) -> Option<Seq<char>> {
    match o {
        Some(s) => Some(s@),
        None => None,
    }
}

fn copy_opt(o: &Option<String>) -> (r: Option<String>)
    ensures
        opt_view(r) == opt_view(*o),
{
    match o {
        Some(s) => Some(s.clone()),
        None => None,
    }
}

/// A finding streamed through `omni_report`, as a rule finding.
pub fn guest_to_rule_finding(f: &GuestFinding) -> (r: RuleFinding)
    ensures
        opt_view(r.rule_id) == opt_view(f.rule_id),
        opt_view(r.severity) == opt_view(f.severity),
        r.message@ == f.message@,
        r.span == f.span,
        opt_view(r.subject) == opt_view(f.subject),
        opt_view(r.path) == opt_view(f.path),
{
    RuleFinding {
        rule_id: copy_opt(&f.rule_id),
        severity: copy_opt(&f.severity),
        message: f.message.clone(),
        span: f.span,
        subject: copy_opt(&f.subject),
        path: copy_opt(&f.path),
    }
}

// ---------------------------------------------------------------------------
// Names
// ---------------------------------------------------------------------------

/// Lower-case kebab: a lower-case ASCII letter or digit first, then
/// lower-case ASCII letters, digits and `-`.
pub open spec fn lower_kebab(s: Seq<char>) -> bool {
    &&& s.len() > 0
    &&& (is_lower_c(s[0]) || is_digit_c(s[0]))
    &&& forall|i: int| 0 <= i < s.len() ==> is_lower_c(#[trigger] s[i]) || is_digit_c(s[i]) || s[i] == '-'
}

fn is_lower_kebab(s: &str) -> (r: bool)
    ensures
        r == lower_kebab(s@),
{
    let v = chars_of(s);
    if v.len() == 0 {
        return false;
    }
    let c0 = v[0];
    if !(('a' <= c0 && c0 <= 'z') || ('0' <= c0 && c0 <= '9')) {
        return false;
    }
    let mut i: usize = 0;
    while i < v.len()
        invariant
            v@ == s@,
            i <= v@.len(),
            forall|j: int| 0 <= j < i ==> is_lower_c(#[trigger] v@[j]) || is_digit_c(v@[j]) || v@[j] == '-',
        decreases v@.len() - i,
    {
        let c = v[i];
        if !(('a' <= c && c <= 'z') || ('0' <= c && c <= '9') || c == '-') {
            assert(!(is_lower_c(v@[i as int]) || is_digit_c(v@[i as int]) || v@[i as int] == '-'));
            return false;
        }
        i = i + 1;
    }
    true
}

/// A pack namespace is lower-case kebab.
pub fn valid_pack_namespace(ns: &str) -> (r: bool)
    ensures
        r == lower_kebab(ns@),
{
    is_lower_kebab(ns)
}

/// The name part of a rule id is lower-case kebab.
pub fn valid_rule_name(name: &str) -> (r: bool)
    ensures
        r == lower_kebab(name@),
{
    is_lower_kebab(name)
}

/// The part of `s` before its first `c`, when it has one.
pub open spec fn before_first(s: Seq<char>, c: char) -> Option<Seq<char>> {
    if exists|k: int| 0 <= k < s.len() && s[k] == c {
        Some(s.subrange(0, choose|k: int| 0 <= k < s.len() && s[k] == c && forall|j: int| 0 <= j < k ==> s[j] != c))
    } else {
        None
    }
}

fn split_first(s: &str, c: char) -> (r: Option<String>)
    ensures
        opt_view(r) == before_first(s@, c),
{
    let cs = chars_of(s);
    let mut i: usize = 0;
    while i < cs.len() && cs[i] != c
        invariant
            i <= cs@.len(),
            cs@ == s@,
            forall|j: int| 0 <= j < i ==> cs@[j] != c,
        decreases cs@.len() - i,
    {
        i = i + 1;
    }
    if i == cs.len() {
        return None;
    }
    proof {
        let k = choose|k: int| 0 <= k < s@.len() && s@[k] == c && forall|j: int| 0 <= j < k ==> s@[j] != c;
        assert(s@[i as int] == c);
        assert(k == i) by {
            if k < i {
                assert(cs@[k] != c);
            }
        }
    }
    Some(string_from_chars(&cs, 0, i))
}

/// The `language` a run envelope names for a pack: its facts capability up
/// to the first `.`.
pub fn envelope_language(facts_cap: &str) -> (r: String)
    ensures
        r@ == match before_first(facts_cap@, '.') {
            Some(p) => p,
            None => facts_cap@,
        },
{
    match split_first(facts_cap, '.') {
        Some(p) => p,
        None => string_of(facts_cap),
    }
}

/// The name part of a rule id: after its first `/`.
pub open spec fn name_part(id: Seq<char>) -> Seq<char> {
    id.subrange((namespace_of(id).len() + 1) as int, id.len() as int)
}

/// `id` is named under namespace `ns`, with a lower-case kebab name.
pub open spec fn id_in_namespace(id: Seq<char>, ns: Seq<char>) -> bool {
    &&& id.contains('/')
    &&& namespace_of(id) == ns
    &&& lower_kebab(name_part(id))
}

proof fn lemma_namespace_prefix(id: Seq<char>)
    requires
        id.contains('/'),
    ensures
        namespace_of(id).len() < id.len(),
        id[namespace_of(id).len() as int] == '/',
        namespace_of(id) == id.subrange(0, namespace_of(id).len() as int),
{
    let w = choose|w: int| 0 <= w < id.len() && id[w] == '/';
    lemma_first_index(id, w);
}

proof fn lemma_first_index(s: Seq<char>, w: int)
    requires
        0 <= w < s.len(),
        s[w] == '/',
    ensures
        exists|k: int| 0 <= k < s.len() && s[k] == '/' && forall|j: int| 0 <= j < k ==> s[j] != '/',
    decreases w,
{
    if exists|j: int| 0 <= j < w && s[j] == '/' {
        let j = choose|j: int| 0 <= j < w && s[j] == '/';
        lemma_first_index(s, j);
    } else {
        assert(forall|j: int| 0 <= j < w ==> s[j] != '/');
    }
}

fn rule_in_namespace(id: &str, ns: &str) -> (r: bool)
    ensures
        r == id_in_namespace(id@, ns@),
{
    let cs = chars_of(id);
    let mut i: usize = 0;
    while i < cs.len() && cs[i] != '/'
        invariant
            i <= cs@.len(),
            cs@ == id@,
            forall|j: int| 0 <= j < i ==> cs@[j] != '/',
        decreases cs@.len() - i,
    {
        i = i + 1;
    }
    if i == cs.len() {
        assert(!id@.contains('/')) by {
            if id@.contains('/') {
                let j = choose|j: int| 0 <= j < id@.len() && id@[j] == '/';
                assert(cs@[j] != '/');
            }
        }
        return false;
    }
    assert(id@.contains('/')) by {
        assert(id@[i as int] == '/');
    }
    let head = rule_namespace(id);
    proof {
        lemma_namespace_prefix(id@);
        assert(namespace_of(id@).len() == i) by {
            let n = namespace_of(id@).len() as int;
            if n < i {
                assert(cs@[n] != '/');
            }
            if n > i {
                let k = choose|k: int| 0 <= k < id@.len() && id@[k] == '/' && forall|j: int| 0 <= j < k ==> id@[j] != '/';
                assert(id@.subrange(0, k).len() == n);
                assert(id@[i as int] == '/');
            }
        }
    }
    let tail = string_from_chars(&cs, i + 1, cs.len());
    str_eq(head.as_str(), ns) && is_lower_kebab(tail.as_str())
}

// ---------------------------------------------------------------------------
// Loading a pack
// ---------------------------------------------------------------------------

/// The metadata export a module is probed through: the pack export when
/// present, else the single-rule one.
pub open spec fn meta_export_spec(path: Seq<char>, has_pack_meta: bool, has_single: bool) -> Result<Seq<char>, Seq<char>> {
    if has_pack_meta {
        Ok("omni_pack_meta"@)
    } else if has_single {
        Ok("omni_rule_meta"@)
    } else {
        Err("rule pack `"@ + path + "` exports neither `omni_pack_meta` (bundle) nor `omni_rule_meta` (single rule)"@)
    }
}

pub fn choose_meta_export(path: &str, has_pack_meta: bool, has_single: bool) -> (r: Result<&'static str, String>)
    ensures
        match (r, meta_export_spec(path@, has_pack_meta, has_single)) {
            (Ok(a), Ok(b)) => a@ == b,
            (Err(m), Err(e)) => m@ == e,
            _ => false,
        },
{
    if has_pack_meta {
        Ok("omni_pack_meta")
    } else if has_single {
        Ok("omni_rule_meta")
    } else {
        let mut m = string_of("rule pack `");
        push_str(&mut m, path);
        push_str(&mut m, "` exports neither `omni_pack_meta` (bundle) nor `omni_rule_meta` (single rule)");
        Err(m)
    }
}

/// A single-rule module as a pack of that one rule, namespaced by its id.
pub fn single_to_pack(single: &RuleModuleMeta) -> (r: RulePackMeta)
    ensures
        r.namespace@ == namespace_of(single.id@),
        r.name is None,
        opt_view(r.description) == Some(single.description@),
        r.requires@ == single.requires@,
        r.rules@.len() == 1,
        r.rules@[0].id@ == single.id@,
        r.rules@[0].description@ == single.description@,
        opt_view(r.rules@[0].severity) == opt_view(single.severity),
{
    let mut rules: Vec<PackRuleDef> = Vec::new();
    rules.push(PackRuleDef { id: single.id.clone(), description: single.description.clone(), severity: copy_opt(&single.severity) });
    RulePackMeta {
        namespace: rule_namespace(single.id.as_str()),
        name: None,
        description: Some(single.description.clone()),
        requires: single.requires.clone(),
        rules,
    }
}

pub open spec fn invalid_requires_message(path: Seq<char>, req: Seq<char>) -> Seq<char> {
    "rule pack `"@ + path + "` has invalid `requires` "@ + debug_quoted(req)
        + " (use `<language>.facts` or `<language>.workspace`)"@
}

/// The language a pack reads: the part of `requires` before its first `.`,
/// else the whole of it; `None` when that is empty.
pub open spec fn language_of(req: Seq<char>) -> Option<Seq<char>> {
    let l = match before_first(req, '.') {
        Some(p) => p,
        None => req,
    };
    if l.len() == 0 {
        None
    } else {
        Some(l)
    }
}

/// The first rule of `rules` whose id is not named under `ns`.
pub open spec fn first_bad_rule(rules: Seq<PackRuleDef>, ns: Seq<char>) -> Option<Seq<char>>
    decreases rules.len(),
{
    if rules.len() == 0 {
        None
    } else if !id_in_namespace(rules[0].id@, ns) {
        Some(rules[0].id@)
    } else {
        first_bad_rule(rules.drop_first(), ns)
    }
}

/// What loading a pack at `path` makes of its metadata: its `requires` must
/// be `<language>.facts` or `<language>.workspace`, its namespace lower-case
/// kebab, and it must contribute rules, each named under its namespace. On
/// success: the pack's facts and workspace capabilities.
pub open spec fn pack_check(path: Seq<char>, meta: RulePackMeta) -> Result<(Seq<char>, Seq<char>), Seq<char>> {
    match language_of(meta.requires@) {
        None => Err(invalid_requires_message(path, meta.requires@)),
        Some(lang) => if meta.requires@ != lang + ".facts"@ && meta.requires@ != lang + ".workspace"@ {
            Err(invalid_requires_message(path, meta.requires@))
        } else if !lower_kebab(meta.namespace@) {
            Err("rule pack `"@ + path + "` declares an invalid namespace "@ + debug_quoted(meta.namespace@) + " (lowercase kebab)"@)
        } else if meta.rules@.len() == 0 {
            Err("rule pack `"@ + path + "` contributes no rules"@)
        } else {
            match first_bad_rule(meta.rules@, meta.namespace@) {
                Some(id) => Err(
                    "rule pack `"@ + path + "` contributes invalid rule id "@ + debug_quoted(id)
                        + " (ids must be named under the pack namespace `"@ + meta.namespace@ + "`, lowercase kebab)"@,
                ),
                None => Ok((lang + ".facts"@, lang + ".workspace"@)),
            }
        },
    }
}

fn requires_error(path: &str, req: &str) -> (r: String)
    ensures
        r@ == invalid_requires_message(path@, req@),
{
    let mut m = string_of("rule pack `");
    push_str(&mut m, path);
    push_str(&mut m, "` has invalid `requires` ");
    let q = debug_str(req);
    push_str(&mut m, q.as_str());
    push_str(&mut m, " (use `<language>.facts` or `<language>.workspace`)");
    m
}

/// Validate a pack's metadata; on success, its facts and workspace
/// capabilities.
#[verifier::rlimit(40)]
pub fn validate_pack(path: &str, meta: &RulePackMeta) -> (r: Result<(String, String), String>)
    ensures
        match (r, pack_check(path@, *meta)) {
            (Ok((f, w)), Ok((sf, sw))) => f@ == sf && w@ == sw,
            (Err(m), Err(e)) => m@ == e,
            _ => false,
        },
{
    let lang = match split_first(meta.requires.as_str(), '.') {
        Some(p) => p,
        None => meta.requires.clone(),
    };
    if lang.as_str().unicode_len() == 0 {
        return Err(requires_error(path, meta.requires.as_str()));
    }
    let mut facts = lang.clone();
    push_str(&mut facts, ".facts");
    let mut ws = lang.clone();
    push_str(&mut ws, ".workspace");
    if !str_eq(meta.requires.as_str(), facts.as_str()) && !str_eq(meta.requires.as_str(), ws.as_str()) {
        return Err(requires_error(path, meta.requires.as_str()));
    }
    if !valid_pack_namespace(meta.namespace.as_str()) {
        let mut m = string_of("rule pack `");
        push_str(&mut m, path);
        push_str(&mut m, "` declares an invalid namespace ");
        let q = debug_str(meta.namespace.as_str());
        push_str(&mut m, q.as_str());
        push_str(&mut m, " (lowercase kebab)");
        return Err(m);
    }
    if meta.rules.len() == 0 {
        let mut m = string_of("rule pack `");
        push_str(&mut m, path);
        push_str(&mut m, "` contributes no rules");
        return Err(m);
    }
    let ghost rules = meta.rules@;
    let mut i: usize = 0;
    assert(rules.skip(0) =~= rules);
    while i < meta.rules.len()
        invariant
            i <= rules.len(),
            rules == meta.rules@,
            rules.len() > 0,
            language_of(meta.requires@) == Some(lang@),
            facts@ == lang@ + ".facts"@,
            ws@ == lang@ + ".workspace"@,
            meta.requires@ == facts@ || meta.requires@ == ws@,
            lower_kebab(meta.namespace@),
            first_bad_rule(rules, meta.namespace@) == first_bad_rule(rules.skip(i as int), meta.namespace@),
        decreases rules.len() - i,
    {
        assert(rules.skip(i as int)[0] == rules[i as int]);
        assert(rules.skip(i as int).drop_first() =~= rules.skip(i + 1));
        let id = &meta.rules[i].id;
        if !rule_in_namespace(id.as_str(), meta.namespace.as_str()) {
            let mut m = string_of("rule pack `");
            push_str(&mut m, path);
            push_str(&mut m, "` contributes invalid rule id ");
            let q = debug_str(id.as_str());
            push_str(&mut m, q.as_str());
            push_str(&mut m, " (ids must be named under the pack namespace `");
            push_str(&mut m, meta.namespace.as_str());
            push_str(&mut m, "`, lowercase kebab)");
            return Err(m);
        }
        i = i + 1;
    }
    Ok((facts, ws))
}

// ---------------------------------------------------------------------------
// One rule of a pack
// ---------------------------------------------------------------------------

/// A rule's default severity: what the pack grades it, else warning.
pub open spec fn default_severity_of(s: Option<String>) -> Severity {
    match s {
        Some(t) => match Severity::parse_spec(t@) {
            Some(v) => v,
            None => Severity::Warning,
        },
        None => Severity::Warning,
    }
}

pub fn rule_default_severity(rule: &PackRuleDef) -> (r: Severity)
    ensures
        r == default_severity_of(rule.severity),
{
    match &rule.severity {
        Some(t) => match Severity::parse(t.as_str()) {
            Some(v) => v,
            None => Severity::Warning,
        },
        None => Severity::Warning,
    }
}

/// What the engine knows while turning one rule's reported findings into
/// diagnostics.
pub struct RuleRun {
    /// The rule's id; only findings under it are kept.
    pub rule_id: String,
    pub default_severity: Severity,
    /// The one file of the run, when there is exactly one.
    pub only_path: Option<String>,
    /// The file a finding without a known file is placed in.
    pub fallback: SourceId,
    /// Each parsed file's path and id.
    pub paths: Vec<(String, SourceId)>,
    /// The pack module's path, for messages.
    pub module_file: String,
}

/// The one file of a rule run: the path of the only file handed to the
/// module, or none when there are several (or none).
pub fn only_path_of(paths: &Vec<String>) -> (r: Option<String>)
    ensures
        paths@.len() == 1 ==> (r matches Some(p) && p@ == paths@[0]@),
        paths@.len() != 1 ==> r is None,
{
    if paths.len() == 1 {
        Some(paths[0].clone())
    } else {
        None
    }
}

/// The id of the first file with path `p`.
pub open spec fn lookup(paths: Seq<(String, SourceId)>, p: Seq<char>) -> Option<SourceId>
    decreases paths.len(),
{
    if paths.len() == 0 {
        None
    } else if paths[0].0@ == p {
        Some(paths[0].1)
    } else {
        lookup(paths.drop_first(), p)
    }
}

fn lookup_path(paths: &Vec<(String, SourceId)>, p: &str) -> (r: Option<SourceId>)
    ensures
        r == lookup(paths@, p@),
{
    let mut i: usize = 0;
    assert(paths@.skip(0) =~= paths@);
    while i < paths.len()
        invariant
            i <= paths@.len(),
            lookup(paths@, p@) == lookup(paths@.skip(i as int), p@),
        decreases paths@.len() - i,
    {
        assert(paths@.skip(i as int).drop_first() =~= paths@.skip(i + 1));
        if str_eq(paths[i].0.as_str(), p) {
            return Some(paths[i].1);
        }
        i = i + 1;
    }
    None
}

/// The severity of a finding: its own when it names one other than `off`,
/// else the rule's default.
pub open spec fn finding_severity(s: Option<String>, default: Severity) -> Severity {
    match s {
        Some(t) => match Severity::parse_spec(t@) {
            Some(v) => if v != Severity::Off { v } else { default },
            None => default,
        },
        None => default,
    }
}

/// What one reported finding becomes: nothing when it names another rule;
/// an error when it names an unknown file; else the rule's diagnostic in its
/// file (a finding without a path goes to the run's only file, else to the
/// fallback file).
pub open spec fn finding_output(run: RuleRun, f: RuleFinding) -> Seq<DiagV> {
    let reported = match f.rule_id {
        Some(r) => r@,
        None => run.rule_id@,
    };
    let sp = clamped(f.span);
    let span = Span { start: sp[0], end: if sp[1] >= sp[0] { sp[1] } else { sp[0] } };
    let path = match f.path {
        Some(p) => p@,
        None => Seq::<char>::empty(),
    };
    let d = |source: SourceId|
        plain_diag(
            run.rule_id@,
            finding_severity(f.severity, run.default_severity),
            source,
            span,
            f.message@,
            opt_view(f.subject),
        );
    if reported != run.rule_id@ {
        seq![]
    } else if path.len() == 0 {
        let source = match run.only_path {
            Some(op) => match lookup(run.paths@, op@) {
                Some(id) => id,
                None => run.fallback,
            },
            None => run.fallback,
        };
        seq![d(source)]
    } else {
        match lookup(run.paths@, path) {
            Some(id) => seq![d(id)],
            None => seq![plain_diag(
                run.rule_id@,
                Severity::Error,
                run.fallback,
                Span { start: 0, end: 0 },
                "rule reported a finding for unknown path `"@ + path + "` (module: "@ + run.module_file@ + ")"@,
                None,
            )],
        }
    }
}

/// What the findings of one run become, in order (at most
/// `MAX_REPORTED_FINDINGS` findings are read).
pub open spec fn run_outputs(run: RuleRun, fs: Seq<RuleFinding>) -> Seq<DiagV>
    decreases fs.len(),
{
    if fs.len() == 0 {
        seq![]
    } else {
        run_outputs(run, fs.drop_last()) + finding_output(run, fs.last())
    }
}

pub open spec fn capped(fs: Seq<RuleFinding>) -> Seq<RuleFinding> {
    if fs.len() <= MAX_REPORTED_FINDINGS {
        fs
    } else {
        fs.subrange(0, MAX_REPORTED_FINDINGS as int)
    }
}

fn finding_diagnostics(run: &RuleRun, f: &RuleFinding) -> (r: Vec<Diagnostic>)
    ensures
        diag_views(r@) == finding_output(*run, *f),
{
    let mut out: Vec<Diagnostic> = Vec::new();
    let same = match &f.rule_id {
        Some(r) => str_eq(r.as_str(), run.rule_id.as_str()),
        None => true,
    };
    if !same {
        assert(diag_views(out@) =~= finding_output(*run, *f));
        return out;
    }
    let severity = match &f.severity {
        Some(t) => match Severity::parse(t.as_str()) {
            Some(v) => if v != Severity::Off { v } else { run.default_severity },
            None => run.default_severity,
        },
        None => run.default_severity,
    };
    let span = span_of(clamp_span(f.span));
    let path: String = match &f.path {
        Some(p) => p.clone(),
        None => String::new(),
    };
    let source = if path.as_str().unicode_len() == 0 {
        match &run.only_path {
            Some(op) => match lookup_path(&run.paths, op.as_str()) {
                Some(id) => id,
                None => run.fallback,
            },
            None => run.fallback,
        }
    } else {
        match lookup_path(&run.paths, path.as_str()) {
            Some(id) => id,
            None => {
                let mut m = string_of("rule reported a finding for unknown path `");
                push_str(&mut m, path.as_str());
                push_str(&mut m, "` (module: ");
                push_str(&mut m, run.module_file.as_str());
                push_str(&mut m, ")");
                let x = diag(run.rule_id.as_str(), Severity::Error, run.fallback, Span::new(0, 0), m, None);
                out.push(x);
                assert(diag_views(out@) =~= seq![x@]);
                return out;
            },
        }
    };
    let x = diag(run.rule_id.as_str(), severity, source, span, f.message.clone(), copy_opt(&f.subject));
    out.push(x);
    assert(diag_views(out@) =~= seq![x@]);
    out
}

/// The diagnostics of one rule from what its pack reported (streamed
/// findings first, then returned ones), in order.
pub fn rule_diagnostics(run: &RuleRun, findings: &Vec<RuleFinding>) -> (r: Vec<Diagnostic>)
    ensures
        diag_views(r@) == run_outputs(*run, capped(findings@)),
{
    let n = if findings.len() <= MAX_REPORTED_FINDINGS { findings.len() } else { MAX_REPORTED_FINDINGS };
    let ghost fs = capped(findings@);
    assert(fs.len() == n);
    let mut out: Vec<Diagnostic> = Vec::new();
    let mut i: usize = 0;
    assert(fs.subrange(0, 0) =~= Seq::<RuleFinding>::empty());
    while i < n
        invariant
            i <= n,
            n == fs.len(),
            n <= findings@.len(),
            fs == capped(findings@),
            diag_views(out@) == run_outputs(*run, fs.subrange(0, i as int)),
        decreases n - i,
    {
        assert(fs[i as int] == findings@[i as int]);
        assert(fs.subrange(0, i + 1).drop_last() =~= fs.subrange(0, i as int));
        let ghost before = out@;
        let mut more = finding_diagnostics(run, &findings[i]);
        let ghost added = more@;
        out.append(&mut more);
        assert(out@ =~= before + added);
        assert(diag_views(out@) =~= diag_views(before) + diag_views(added));
        i = i + 1;
    }
    assert(fs.subrange(0, i as int) =~= fs);
    out
}

/// The diagnostic of a pack that failed while running one of its rules.
pub fn pack_failure(run: &RuleRun, err: &str) -> (r: Diagnostic)
    ensures
        r@ == plain_diag(
            run.rule_id@,
            Severity::Error,
            run.fallback,
            Span { start: 0, end: 0 },
            "rule pack failed: "@ + err@ + " (module: "@ + run.module_file@ + ")"@,
            None,
        ),
{
    let mut m = string_of("rule pack failed: ");
    push_str(&mut m, err);
    push_str(&mut m, " (module: ");
    push_str(&mut m, run.module_file.as_str());
    push_str(&mut m, ")");
    diag(run.rule_id.as_str(), Severity::Error, run.fallback, Span::new(0, 0), m, None)
}

} // verus!
