//! Run finalisation: the decisions of a check run after the rules have run.
//!
//! The engine gathers rule findings, plugin findings, workspace findings and
//! parse errors; this module applies config (rules turned off, severity
//! overrides), resolves paths to sources, locates findings, orders them,
//! drops findings under inline suppression markers, classifies the rest
//! against the baseline, totals them and decides the exit code.

use crate::baseline::{Baseline, BaselineEntry, BaselinePair, BaselineMatch, PairBudget, PairKey, Reportable, SeverityTotals, count_severities, severities, SuppressMarkers, suppresses, is_suppressed};
use crate::config::{RuleDirective, RuleDirectives};
use crate::diagnostic::{Diagnostic, Located, PathDiagnostic, Severity, SourceId, Span};
use crate::plugin::{Capability, CapabilityScope, RuleMeta};
use crate::registry::{PluginInfo, plugin_by_extension, plugin_for};
use crate::source::{SourceFile, clamp, line_index, line_start};
use crate::text::{chars_of, hex_fixed, lossy_utf8, push_char, push_hex_fixed, push_str, string_from_chars};
use vstd::prelude::*;
use vstd::utf8::*;

verus! {

/// Process exit codes: `0` clean (or all findings baselined), `1` findings,
/// `2` config/usage error, `3` internal failure.
#[derive(Clone, Copy, Debug, PartialEq, Eq, Structural)]
pub enum ExitCode {
    Clean,
    Findings,
    Config,
    Internal,
}

impl ExitCode {
    pub open spec fn spec_code(self) -> i32 {
        match self {
            ExitCode::Clean => 0,
            ExitCode::Findings => 1,
            ExitCode::Config => 2,
            ExitCode::Internal => 3,
        }
    }

    /// The process exit status.
    pub fn code(self) -> (r: i32)
        ensures
            r == self.spec_code(),
    {
        match self {
            ExitCode::Clean => 0,
            ExitCode::Findings => 1,
            ExitCode::Config => 2,
            ExitCode::Internal => 3,
        }
    }
}

/// The outcome of a check: with no findings the run is clean; with
/// `--max-warnings N` it is clean when no error remains and at most `N`
/// warnings do; otherwise findings fail it.
pub open spec fn exit_policy(findings: nat, totals: SeverityTotals, max_warnings: Option<usize>) -> ExitCode {
    if findings == 0 {
        ExitCode::Clean
    } else {
        match max_warnings {
            Some(limit) => if totals.error == 0 && totals.warning <= limit {
                ExitCode::Clean
            } else {
                ExitCode::Findings
            },
            None => ExitCode::Findings,
        }
    }
}

pub fn exit_code(findings: usize, totals: &SeverityTotals, max_warnings: Option<usize>) -> (r: ExitCode)
    ensures
        r == exit_policy(findings as nat, *totals, max_warnings),
{
    if findings == 0 {
        ExitCode::Clean
    } else {
        match max_warnings {
            Some(limit) => {
                if totals.error == 0 && totals.warning <= limit {
                    ExitCode::Clean
                } else {
                    ExitCode::Findings
                }
            },
            None => ExitCode::Findings,
        }
    }
}

// ---------------------------------------------------------------------------
// Fingerprints
// ---------------------------------------------------------------------------

pub open spec fn fnv_offset() -> u64 {
    0xcbf29ce484222325u64
}

pub open spec fn fnv_prime() -> u64 {
    0x100000001b3u64
}

/// 64-bit FNV-1a of a byte sequence.
pub open spec fn fnv1a(b: Seq<u8>) -> u64
    decreases b.len(),
{
    if b.len() == 0 {
        fnv_offset()
    } else {
        (fnv1a(b.drop_last()) ^ (b.last() as u64)).wrapping_mul(fnv_prime())
    }
}

/// The text hashed into a fingerprint: the subject (or nothing), `|`, and
/// the first 96 characters of the span's text.
pub open spec fn fingerprint_input(subject: Option<Seq<char>>, text: Seq<char>) -> Seq<char> {
    let head = match subject {
        Some(s) => s,
        None => Seq::<char>::empty(),
    };
    let n = if text.len() < 96 { text.len() as int } else { 96 };
    head.push('|') + text.subrange(0, n)
}

/// Bounded, stable fingerprint for baseline identity: FNV-1a of the
/// fingerprint input, as 16 lower-case hexadecimal digits.
pub open spec fn fingerprint_spec(b: Seq<u8>, span: Span, subject: Option<Seq<char>>) -> Seq<char> {
    let text = lossy_utf8(b.subrange(clamp(b, span.start as int) as int, clamp(b, span.end as int) as int));
    hex_fixed(fnv1a(encode_utf8(fingerprint_input(subject, text))) as nat, 16)
}

fn fnv1a_of(b: &[u8]) -> (r: u64)
    ensures
        r == fnv1a(b@),
{
    let mut h: u64 = 0xcbf29ce484222325;
    let mut i: usize = 0;
    while i < b.len()
        invariant
            i <= b@.len(),
            h == fnv1a(b@.subrange(0, i as int)),
        decreases b@.len() - i,
    {
        assert(b@.subrange(0, i + 1).drop_last() =~= b@.subrange(0, i as int));
        h = (h ^ (b[i] as u64)).wrapping_mul(0x100000001b3);
        i = i + 1;
    }
    assert(b@.subrange(0, b@.len() as int) =~= b@);
    h
}

/// Fingerprint of a finding: its subject when present, else nothing, then
/// `|` and the first 96 characters of its span's text, hashed. Line shifts
/// keep it; edits of the span's text change it.
pub fn fingerprint(source: &SourceFile, span: Span, subject: Option<&str>) -> (r: String)
    requires
        clamp(source.bytes@, span.start as int) <= clamp(source.bytes@, span.end as int),
    ensures
        r@ == fingerprint_spec(
            source.bytes@,
            span,
            match subject {
                Some(s) => Some(s@),
                None => None,
            },
        ),
{
    let mut input = String::new();
    match subject {
        Some(s) => push_str(&mut input, s),
        None => {},
    }
    push_char(&mut input, '|');
    let text = source.span_text(span);
    let cs = chars_of(text.as_str());
    let n = if cs.len() < 96 { cs.len() } else { 96 };
    let head = string_from_chars(&cs, 0, n);
    push_str(&mut input, head.as_str());
    let h = fnv1a_of(input.as_str().as_bytes());
    let mut out = String::new();
    push_hex_fixed(&mut out, h, 16);
    assert(out@ =~= hex_fixed(h as nat, 16));
    out
}

// ---------------------------------------------------------------------------
// Severities
// ---------------------------------------------------------------------------

/// The first rule meta with the given id.
pub open spec fn meta_for(metas: Seq<RuleMeta>, id: Seq<char>) -> Option<RuleMeta>
    decreases metas.len(),
{
    if metas.len() == 0 {
        None
    } else if metas[0].id@ == id {
        Some(metas[0])
    } else {
        meta_for(metas.drop_first(), id)
    }
}

/// `off` is never a finding severity: a finding that would carry it is
/// reported at warning, the grade of a rule given none.
pub open spec fn finding_severity(s: Severity) -> Severity {
    if s == Severity::Off {
        Severity::Warning
    } else {
        s
    }
}

pub fn finding_severity_of(s: Severity) -> (r: Severity)
    ensures
        r == finding_severity(s),
{
    match s {
        Severity::Off => Severity::Warning,
        _ => s,
    }
}

/// The effective severity of a registered rule's findings: a config
/// override, else its default, as a finding severity (a rule graded `off`
/// that config opts in without a severity reports at warning); `None` for an
/// id no registered rule has.
pub open spec fn rule_severity(metas: Seq<RuleMeta>, rules: RuleDirectives, id: Seq<char>) -> Option<Severity> {
    match meta_for(metas, id) {
        Some(m) => Some(
            finding_severity(
                match rules.spec_get(id) {
                    Some(RuleDirective::On(Some(s))) => s,
                    _ => m.default_severity,
                },
            ),
        ),
        None => None,
    }
}

pub fn rule_severity_of(metas: &Vec<RuleMeta>, rules: &RuleDirectives, id: &str) -> (r: Option<Severity>)
    ensures
        r == rule_severity(metas@, *rules, id@),
{
    let mut i: usize = 0;
    assert(metas@.skip(0) =~= metas@);
    while i < metas.len()
        invariant
            i <= metas@.len(),
            meta_for(metas@, id@) == meta_for(metas@.skip(i as int), id@),
        decreases metas@.len() - i,
    {
        assert(metas@.skip(i as int).drop_first() =~= metas@.skip(i + 1));
        if crate::text::str_eq(metas[i].id, id) {
            let sev = match rules.get(id) {
                Some(RuleDirective::On(Some(s))) => s,
                _ => metas[i].default_severity,
            };
            return Some(finding_severity_of(sev));
        }
        i = i + 1;
    }
    None
}

/// `d` with severity `s`.
pub open spec fn with_severity(d: Diagnostic, s: Severity) -> Diagnostic {
    Diagnostic { severity: s, ..d }
}

/// `d` with its rule's effective severity when its rule is registered, else
/// with its own severity as a finding severity.
pub open spec fn overridden(metas: Seq<RuleMeta>, rules: RuleDirectives, d: Diagnostic) -> Diagnostic {
    match rule_severity(metas, rules, d.rule_id@) {
        Some(s) => with_severity(d, s),
        None => with_severity(d, finding_severity(d.severity)),
    }
}

fn override_severity(metas: &Vec<RuleMeta>, rules: &RuleDirectives, d: Diagnostic) -> (r: Diagnostic)
    ensures
        r == overridden(metas@, *rules, d),
{
    let mut d = d;
    match rule_severity_of(metas, rules, d.rule_id.as_str()) {
        Some(s) => {
            d.severity = s;
        },
        None => {
            d.severity = finding_severity_of(d.severity);
        },
    }
    d
}

// ---------------------------------------------------------------------------
// Sources
// ---------------------------------------------------------------------------

/// Index of the last source with the given id (a map built from the list
/// keeps the last).
pub open spec fn source_index(sources: Seq<SourceFile>, id: SourceId) -> Option<int>
    decreases sources.len(),
{
    if sources.len() == 0 {
        None
    } else if sources.last().id == id {
        Some(sources.len() - 1)
    } else {
        source_index(sources.drop_last(), id)
    }
}

proof fn lemma_source_index(sources: Seq<SourceFile>, id: SourceId)
    ensures
        source_index(sources, id) matches Some(i) ==> 0 <= i < sources.len() && sources[i].id == id,
    decreases sources.len(),
{
    if sources.len() > 0 {
        lemma_source_index(sources.drop_last(), id);
    }
}

pub(crate) fn find_source(sources: &Vec<SourceFile>, id: SourceId) -> (r: Option<usize>)
    ensures
        opt_int(r) == source_index(sources@, id),
        r matches Some(i) ==> i < sources@.len(),
{
    let mut i = sources.len();
    assert(sources@.subrange(0, i as int) =~= sources@);
    while i > 0
        invariant
            i <= sources@.len(),
            source_index(sources@, id) == source_index(sources@.subrange(0, i as int), id),
        decreases i,
    {
        assert(sources@.subrange(0, i as int).drop_last() =~= sources@.subrange(0, i - 1));
        if sources[i - 1].id == id {
            return Some(i - 1);
        }
        i = i - 1;
    }
    None
}

pub open spec fn opt_int(o: Option<usize>) -> Option<int> {
    match o {
        Some(i) => Some(i as int),
        None => None,
    }
}

/// Index of the last source with the given path.
pub open spec fn path_index(sources: Seq<SourceFile>, path: Seq<char>) -> Option<int>
    decreases sources.len(),
{
    if sources.len() == 0 {
        None
    } else if sources.last().path@ == path {
        Some(sources.len() - 1)
    } else {
        path_index(sources.drop_last(), path)
    }
}

/// The source id a workspace finding's path resolves to: the source with
/// that path; an unknown path falls back to the first source (so the finding
/// still renders), or to id 0 when there is none.
pub open spec fn path_source_id(sources: Seq<SourceFile>, path: Seq<char>) -> SourceId {
    match path_index(sources, path) {
        Some(i) => sources[i].id,
        None => if sources.len() > 0 {
            sources[0].id
        } else {
            SourceId(0)
        },
    }
}

fn source_id_for_path(sources: &Vec<SourceFile>, path: &str) -> (r: SourceId)
    ensures
        r == path_source_id(sources@, path@),
{
    let mut i = sources.len();
    assert(sources@.subrange(0, i as int) =~= sources@);
    while i > 0
        invariant
            i <= sources@.len(),
            path_index(sources@, path@) == path_index(sources@.subrange(0, i as int), path@),
        decreases i,
    {
        assert(sources@.subrange(0, i as int).drop_last() =~= sources@.subrange(0, i - 1));
        if crate::text::str_eq(sources[i - 1].path.as_str(), path) {
            proof {
                lemma_path_index(sources@, path@);
            }
            return sources[i - 1].id;
        }
        i = i - 1;
    }
    if sources.len() > 0 {
        sources[0].id
    } else {
        SourceId(0)
    }
}

proof fn lemma_path_index(sources: Seq<SourceFile>, path: Seq<char>)
    ensures
        path_index(sources, path) matches Some(i) ==> 0 <= i < sources.len() && sources[i].path@ == path,
    decreases sources.len(),
{
    if sources.len() > 0 {
        lemma_path_index(sources.drop_last(), path);
    }
}

// ---------------------------------------------------------------------------
// Gathering findings
// ---------------------------------------------------------------------------

/// Findings a plugin reported while parsing: those of rules turned off are
/// dropped, the rest take their rule's effective severity.
pub open spec fn kept_plugin_findings(metas: Seq<RuleMeta>, rules: RuleDirectives, s: Seq<Diagnostic>) -> Seq<Diagnostic>
    decreases s.len(),
{
    if s.len() == 0 {
        seq![]
    } else {
        let rest = kept_plugin_findings(metas, rules, s.drop_last());
        if rules.spec_get(s.last().rule_id@) == Some(RuleDirective::Off) {
            rest
        } else {
            rest.push(overridden(metas, rules, s.last()))
        }
    }
}

pub fn plugin_findings(metas: &Vec<RuleMeta>, rules: &RuleDirectives, found: Vec<Diagnostic>) -> (r: Vec<Diagnostic>)
    ensures
        r@ == kept_plugin_findings(metas@, *rules, found@),
{
    let mut rest = found;
    let ghost all = rest@;
    let mut out: Vec<Diagnostic> = Vec::new();
    while rest.len() > 0
        invariant
            rest@.len() <= all.len(),
            rest@ == all.subrange(all.len() - rest@.len(), all.len() as int),
            out@ == kept_plugin_findings(metas@, *rules, all.subrange(0, all.len() - rest@.len())),
        decreases rest@.len(),
    {
        let ghost k = all.len() - rest@.len();
        let d = rest.remove(0);
        proof {
            assert(all.subrange(0, k + 1).drop_last() =~= all.subrange(0, k));
            assert(rest@ =~= all.subrange(k + 1, all.len() as int));
        }
        if !rules.is_off(d.rule_id.as_str()) {
            let d2 = override_severity(metas, rules, d);
            out.push(d2);
        }
    }
    assert(all.subrange(0, all.len() as int) =~= all);
    out
}

/// The severity a workspace finding ends with: its rule's effective
/// severity when the rule is registered; else error for a finding without a
/// path, and its own severity otherwise.
pub open spec fn ws_severity(metas: Seq<RuleMeta>, rules: RuleDirectives, pd: PathDiagnostic) -> Severity {
    match rule_severity(metas, rules, pd.diag.rule_id@) {
        Some(s) => s,
        None => if pd.path@.len() == 0 {
            Severity::Error
        } else {
            pd.diag.severity
        },
    }
}

/// `d` is the workspace finding `pd` resolved against the sources.
pub open spec fn ws_resolved(sources: Seq<SourceFile>, metas: Seq<RuleMeta>, rules: RuleDirectives, pd: PathDiagnostic, d: Diagnostic) -> bool {
    let sid = path_source_id(sources, pd.path@);
    &&& d.rule_id == pd.diag.rule_id
    &&& d.severity == ws_severity(metas, rules, pd)
    &&& d.message == pd.diag.message
    &&& d.source_id == sid
    &&& d.span == pd.diag.span
    &&& d.subject == pd.diag.subject
    &&& d.related@.len() == pd.diag.related@.len()
    &&& forall|i: int|
        0 <= i < pd.diag.related@.len() ==> (#[trigger] d.related@[i]) == (crate::diagnostic::RelatedSpan {
            message: pd.diag.related@[i].message,
            source_id: sid,
            span: pd.diag.related@[i].span,
        })
}

/// The workspace findings whose rule is not turned off.
pub open spec fn kept_ws(rules: RuleDirectives, s: Seq<PathDiagnostic>) -> Seq<PathDiagnostic>
    decreases s.len(),
{
    if s.len() == 0 {
        seq![]
    } else {
        let rest = kept_ws(rules, s.drop_last());
        if rules.spec_get(s.last().diag.rule_id@) == Some(RuleDirective::Off) {
            rest
        } else {
            rest.push(s.last())
        }
    }
}

/// Workspace findings (addressed by path): those of rules turned off are
/// dropped; the rest are resolved to sources and take their severity.
pub fn workspace_findings(
    sources: &Vec<SourceFile>,
    metas: &Vec<RuleMeta>,
    rules: &RuleDirectives,
    found: Vec<PathDiagnostic>,
) -> (r: Vec<Diagnostic>)
    ensures
        r@.len() == kept_ws(*rules, found@).len(),
        forall|k: int| 0 <= k < r@.len() ==> ws_resolved(sources@, metas@, *rules, kept_ws(*rules, found@)[k], #[trigger] r@[k]),
{
    let mut rest = found;
    let ghost all = rest@;
    let mut out: Vec<Diagnostic> = Vec::new();
    while rest.len() > 0
        invariant
            rest@.len() <= all.len(),
            rest@ == all.subrange(all.len() - rest@.len(), all.len() as int),
            out@.len() == kept_ws(*rules, all.subrange(0, all.len() - rest@.len())).len(),
            forall|k: int|
                0 <= k < out@.len() ==> ws_resolved(
                    sources@,
                    metas@,
                    *rules,
                    kept_ws(*rules, all.subrange(0, all.len() - rest@.len()))[k],
                    #[trigger] out@[k],
                ),
        decreases rest@.len(),
    {
        let ghost k = all.len() - rest@.len();
        let ghost before = out@;
        let pd = rest.remove(0);
        proof {
            assert(all.subrange(0, k + 1).drop_last() =~= all.subrange(0, k));
            assert(rest@ =~= all.subrange(k + 1, all.len() as int));
            assert(all.subrange(0, k + 1).last() == pd);
        }
        if !rules.is_off(pd.diag.rule_id.as_str()) {
            let ghost pdv = pd;
            let sid = source_id_for_path(sources, pd.path.as_str());
            let empty_path = pd.path.as_str().is_empty();
            let sev = rule_severity_of(metas, rules, pd.diag.rule_id.as_str());
            let mut d = pd.diag.into_diagnostic(sid);
            if empty_path {
                d.severity = Severity::Error;
            }
            match sev {
                Some(s) => {
                    d.severity = s;
                },
                None => {},
            }
            out.push(d);
            proof {
                assert(ws_resolved(sources@, metas@, *rules, pdv, out@.last()));
                assert forall|q: int| 0 <= q < out@.len() implies ws_resolved(
                    sources@,
                    metas@,
                    *rules,
                    kept_ws(*rules, all.subrange(0, k + 1))[q],
                    #[trigger] out@[q],
                ) by {
                    if q < out@.len() - 1 {
                        assert(out@[q] == before[q]);
                    }
                }
            }
        }
    }
    assert(all.subrange(0, all.len() as int) =~= all);
    out
}

/// Parse errors are reported at error severity.
pub fn parse_error_findings(errs: Vec<Diagnostic>) -> (r: Vec<Diagnostic>)
    ensures
        r@ == errs@.map_values(|d: Diagnostic| with_severity(d, Severity::Error)),
{
    let mut rest = errs;
    let ghost all = rest@;
    let mut out: Vec<Diagnostic> = Vec::new();
    while rest.len() > 0
        invariant
            rest@.len() <= all.len(),
            rest@ == all.subrange(all.len() - rest@.len(), all.len() as int),
            out@ == all.subrange(0, all.len() - rest@.len()).map_values(|d: Diagnostic| with_severity(d, Severity::Error)),
        decreases rest@.len(),
    {
        let ghost k = all.len() - rest@.len();
        let mut d = rest.remove(0);
        proof {
            assert(rest@ =~= all.subrange(k + 1, all.len() as int));
        }
        d.severity = Severity::Error;
        out.push(d);
        assert(out@ =~= all.subrange(0, k + 1).map_values(|d: Diagnostic| with_severity(d, Severity::Error)));
    }
    assert(all.subrange(0, all.len() as int) =~= all);
    out
}

// ---------------------------------------------------------------------------
// Locating
// ---------------------------------------------------------------------------

/// `d` can be located: its source is known, well formed, and the column of
/// its start fits.
pub open spec fn locatable(sources: Seq<SourceFile>, d: Diagnostic) -> bool {
    match source_index(sources, d.source_id) {
        Some(i) => {
            let b = sources[i].bytes@;
            &&& sources[i].wf()
            &&& d.span.start - line_start(b, d.span.start as int) + 1 <= u32::MAX
        },
        None => false,
    }
}

/// A finding located in its source, with its rule's effective severity.
pub open spec fn reportable_of(sources: Seq<SourceFile>, metas: Seq<RuleMeta>, rules: RuleDirectives, d: Diagnostic) -> Reportable {
    let src = sources[source_index(sources, d.source_id).unwrap()];
    let b = src.bytes@;
    Reportable {
        located: Located {
            path: src.path,
            line: (line_index(b, d.span.start as int) + 1) as u32,
            column: (d.span.start - line_start(b, d.span.start as int) + 1) as u32,
        },
        path: src.path,
        diag: overridden(metas, rules, d),
    }
}

pub fn locate_findings(
    sources: &Vec<SourceFile>,
    metas: &Vec<RuleMeta>,
    rules: &RuleDirectives,
    diags: Vec<Diagnostic>,
) -> (r: Vec<Reportable>)
    requires
        forall|k: int| 0 <= k < diags@.len() ==> locatable(sources@, #[trigger] diags@[k]),
    ensures
        r@ == diags@.map_values(|d: Diagnostic| reportable_of(sources@, metas@, *rules, d)),
{
    let mut rest = diags;
    let ghost all = rest@;
    let mut out: Vec<Reportable> = Vec::new();
    while rest.len() > 0
        invariant
            rest@.len() <= all.len(),
            rest@ == all.subrange(all.len() - rest@.len(), all.len() as int),
            forall|k: int| 0 <= k < all.len() ==> locatable(sources@, #[trigger] all[k]),
            out@ == all.subrange(0, all.len() - rest@.len()).map_values(
                |d: Diagnostic| reportable_of(sources@, metas@, *rules, d),
            ),
        decreases rest@.len(),
    {
        let ghost k = all.len() - rest@.len();
        let d = rest.remove(0);
        proof {
            assert(rest@ =~= all.subrange(k + 1, all.len() as int));
            assert(locatable(sources@, all[k]));
            lemma_source_index(sources@, d.source_id);
        }
        let idx = find_source(sources, d.source_id).unwrap();
        let src = &sources[idx];
        let located = src.locate(d.span);
        let path = src.path.clone();
        let diag = override_severity(metas, rules, d);
        let r = Reportable { located, path, diag };
        out.push(r);
        assert(out@ =~= all.subrange(0, k + 1).map_values(
            |d: Diagnostic| reportable_of(sources@, metas@, *rules, d),
        ));
    }
    assert(all.subrange(0, all.len() as int) =~= all);
    out
}

// ---------------------------------------------------------------------------
// Ordering
// ---------------------------------------------------------------------------

/// Lexicographic order of texts, by code point.
pub open spec fn text_lt(a: Seq<char>, b: Seq<char>) -> bool
    decreases a.len(),
{
    if a.len() == 0 {
        b.len() > 0
    } else if b.len() == 0 {
        false
    } else if a[0] != b[0] {
        a[0] < b[0]
    } else {
        text_lt(a.drop_first(), b.drop_first())
    }
}

/// `text_lt` is irreflexive.
pub proof fn lemma_text_lt_irrefl(a: Seq<char>)
    ensures
        !text_lt(a, a),
    decreases a.len(),
{
    if a.len() > 0 {
        lemma_text_lt_irrefl(a.drop_first());
    }
}

/// Two different texts are ordered one way or the other, never both.
pub proof fn lemma_text_lt_total(a: Seq<char>, b: Seq<char>)
    ensures
        a != b ==> (text_lt(a, b) || text_lt(b, a)),
        !(text_lt(a, b) && text_lt(b, a)),
    decreases a.len(),
{
    if a.len() > 0 && b.len() > 0 && a[0] == b[0] {
        lemma_text_lt_total(a.drop_first(), b.drop_first());
        if a.drop_first() == b.drop_first() {
            assert(a =~= seq![a[0]] + a.drop_first());
            assert(b =~= seq![b[0]] + b.drop_first());
        }
    } else if a.len() == 0 && b.len() == 0 {
        assert(a =~= b);
    }
}

/// `text_lt` is transitive.
pub proof fn lemma_text_lt_trans(a: Seq<char>, b: Seq<char>, c: Seq<char>)
    requires
        text_lt(a, b),
        text_lt(b, c),
    ensures
        text_lt(a, c),
    decreases a.len(),
{
    if a.len() > 0 && b.len() > 0 && c.len() > 0 && a[0] == b[0] && b[0] == c[0] {
        lemma_text_lt_trans(a.drop_first(), b.drop_first(), c.drop_first());
    }
}

/// Report order: path, then line, then column, then rule id.
pub open spec fn report_lt(a: Reportable, b: Reportable) -> bool {
    ||| text_lt(a.path@, b.path@)
    ||| a.path@ == b.path@ && a.located.line < b.located.line
    ||| a.path@ == b.path@ && a.located.line == b.located.line && a.located.column < b.located.column
    ||| a.path@ == b.path@ && a.located.line == b.located.line && a.located.column == b.located.column
        && text_lt(a.diag.rule_id@, b.diag.rule_id@)
}

/// `x` inserted into `s` after every element it does not precede.
pub open spec fn insert_sorted(s: Seq<Reportable>, x: Reportable) -> Seq<Reportable>
    decreases s.len(),
{
    if s.len() == 0 {
        seq![x]
    } else if report_lt(x, s.last()) {
        insert_sorted(s.drop_last(), x).push(s.last())
    } else {
        s.push(x)
    }
}

/// The stable sort of `s` in report order.
pub open spec fn sort_reports(s: Seq<Reportable>) -> Seq<Reportable>
    decreases s.len(),
{
    if s.len() == 0 {
        seq![]
    } else {
        insert_sorted(sort_reports(s.drop_last()), s.last())
    }
}

fn text_less(a: &str, b: &str) -> (r: bool)
    ensures
        r == text_lt(a@, b@),
{
    let x = chars_of(a);
    let y = chars_of(b);
    let mut i: usize = 0;
    assert(x@.skip(0) =~= x@);
    assert(y@.skip(0) =~= y@);
    while i < x.len() && i < y.len() && x[i] == y[i]
        invariant
            i <= x@.len(),
            i <= y@.len(),
            text_lt(a@, b@) == text_lt(x@.skip(i as int), y@.skip(i as int)),
            x@ == a@,
            y@ == b@,
        decreases x@.len() - i,
    {
        assert(x@.skip(i as int).drop_first() =~= x@.skip(i + 1));
        assert(y@.skip(i as int).drop_first() =~= y@.skip(i + 1));
        i = i + 1;
    }
    if i == x.len() {
        i < y.len()
    } else if i == y.len() {
        false
    } else {
        x[i] < y[i]
    }
}

/// Whether `a` precedes `b` in text order.
pub fn text_less_pub(a: &str, b: &str) -> (r: bool)
    ensures
        r == text_lt(a@, b@),
{
    text_less(a, b)
}

fn report_less(a: &Reportable, b: &Reportable) -> (r: bool)
    ensures
        r == report_lt(*a, *b),
{
    if text_less(a.path.as_str(), b.path.as_str()) {
        return true;
    }
    if !crate::text::str_eq(a.path.as_str(), b.path.as_str()) {
        return false;
    }
    if a.located.line != b.located.line {
        return a.located.line < b.located.line;
    }
    if a.located.column != b.located.column {
        return a.located.column < b.located.column;
    }
    text_less(a.diag.rule_id.as_str(), b.diag.rule_id.as_str())
}

proof fn lemma_insert_sorted(s: Seq<Reportable>, x: Reportable, j: int)
    requires
        0 <= j <= s.len(),
        forall|k: int| j <= k < s.len() ==> report_lt(x, #[trigger] s[k]),
        j > 0 ==> !report_lt(x, s[j - 1]),
    ensures
        insert_sorted(s, x) == s.insert(j, x),
    decreases s.len(),
{
    if s.len() == 0 {
        assert(s.insert(j, x) =~= seq![x]);
    } else if j == s.len() {
        assert(s.insert(j, x) =~= s.push(x));
    } else {
        assert(report_lt(x, s[s.len() - 1]));
        lemma_insert_sorted(s.drop_last(), x, j);
        assert(s.drop_last().insert(j, x).push(s.last()) =~= s.insert(j, x));
    }
}

/// Order findings by path, line, column and rule id, keeping the order of
/// findings that tie.
pub fn sort_findings(items: Vec<Reportable>) -> (r: Vec<Reportable>)
    ensures
        r@ == sort_reports(items@),
{
    let mut rest = items;
    let ghost all = rest@;
    let mut out: Vec<Reportable> = Vec::new();
    while rest.len() > 0
        invariant
            rest@.len() <= all.len(),
            rest@ == all.subrange(all.len() - rest@.len(), all.len() as int),
            out@ == sort_reports(all.subrange(0, all.len() - rest@.len())),
        decreases rest@.len(),
    {
        let ghost k = all.len() - rest@.len();
        let x = rest.remove(0);
        proof {
            assert(rest@ =~= all.subrange(k + 1, all.len() as int));
            assert(all.subrange(0, k + 1).drop_last() =~= all.subrange(0, k));
        }
        let mut j = out.len();
        while j > 0 && report_less(&x, &out[j - 1])
            invariant
                j <= out@.len(),
                forall|q: int| j <= q < out@.len() ==> report_lt(x, #[trigger] out@[q]),
            decreases j,
        {
            j = j - 1;
        }
        proof {
            lemma_insert_sorted(out@, x, j as int);
        }
        out.insert(j, x);
    }
    assert(all.subrange(0, all.len() as int) =~= all);
    out
}

// ---------------------------------------------------------------------------
// Inline suppression
// ---------------------------------------------------------------------------

/// The text of a source as the engine reads it: its bytes decoded, or
/// nothing when they are not UTF-8.
pub open spec fn source_text(src: SourceFile) -> Seq<char> {
    if valid_utf8(src.bytes@) {
        decode_utf8(src.bytes@)
    } else {
        Seq::<char>::empty()
    }
}

/// The suppression markers of a text.
pub open spec fn markers_of(text: Seq<char>) -> Seq<(int, Seq<Seq<char>>)> {
    crate::baseline::markers_from(crate::baseline::lines_from(text, 0), 0, seq![])
}

/// The first marker for `line` suppresses `rule`: it names no rule, or this
/// one.
pub open spec fn view_suppresses(m: Seq<(int, Seq<Seq<char>>)>, line: int, rule: Seq<char>) -> bool {
    exists|i: int|
        0 <= i < m.len() && (#[trigger] m[i]).0 == line && (forall|j: int| 0 <= j < i ==> m[j].0 != line) && (
        m[i].1.len() == 0 || exists|k: int| 0 <= k < m[i].1.len() && m[i].1[k] == rule)
}

/// A finding under an inline `omni-lint-disable-next-line` marker of its file.
pub open spec fn is_marked(sources: Seq<SourceFile>, r: Reportable) -> bool {
    let src = sources[source_index(sources, r.diag.source_id).unwrap()];
    view_suppresses(markers_of(source_text(src)), r.located.line as int, r.diag.rule_id@)
}

/// The findings not under a marker.
pub open spec fn unmarked(sources: Seq<SourceFile>, s: Seq<Reportable>) -> Seq<Reportable>
    decreases s.len(),
{
    if s.len() == 0 {
        seq![]
    } else {
        let rest = unmarked(sources, s.drop_last());
        if is_marked(sources, s.last()) {
            rest
        } else {
            rest.push(s.last())
        }
    }
}

proof fn lemma_encode_at_least(s: Seq<char>)
    ensures
        encode_utf8(s).len() >= s.len(),
    decreases s.len(),
{
    if s.len() > 0 {
        lemma_encode_at_least(s.drop_first());
    }
}

/// The markers of each source, in order.
pub fn source_markers(sources: &Vec<SourceFile>) -> (r: Vec<SuppressMarkers>)
    requires
        forall|k: int| 0 <= k < sources@.len() ==> (#[trigger] sources@[k]).bytes@.len() < 0xFFFF_FFF0,
    ensures
        r@.len() == sources@.len(),
        forall|k: int| 0 <= k < r@.len() ==> (#[trigger] r@[k]).spec_view() == markers_of(source_text(sources@[k])),
{
    let mut out: Vec<SuppressMarkers> = Vec::new();
    let mut i: usize = 0;
    while i < sources.len()
        invariant
            i <= sources@.len(),
            out@.len() == i,
            forall|k: int| 0 <= k < sources@.len() ==> (#[trigger] sources@[k]).bytes@.len() < 0xFFFF_FFF0,
            forall|k: int| 0 <= k < i ==> (#[trigger] out@[k]).spec_view() == markers_of(source_text(sources@[k])),
        decreases sources@.len() - i,
    {
        let text = sources[i].text();
        proof {
            lemma_encode_at_least(text@);
            if valid_utf8(sources@[i as int].bytes@) {
                vstd::utf8::decode_utf8_encode_utf8(sources@[i as int].bytes@);
            }
        }
        assert(text@.len() < 0xFFFF_FFF0);
        let m = crate::baseline::parse_suppress_markers(text);
        out.push(m);
        i = i + 1;
    }
    out
}

fn marked(r: &Reportable, markers: &SuppressMarkers) -> (b: bool)
    ensures
        b == view_suppresses(markers.spec_view(), r.located.line as int, r.diag.rule_id@),
{
    let b = is_suppressed(r.located.line, r.diag.rule_id.as_str(), markers);
    let ghost m = markers.spec_view();
    let ghost line = r.located.line;
    let ghost rule = r.diag.rule_id@;
    proof {
        if b {
            let i = choose|i: int|
                0 <= i < markers.entries@.len() && (#[trigger] markers.entries@[i]).line == line && (
                forall|j: int| 0 <= j < i ==> markers.entries@[j].line != line) && suppresses(
                    markers.entries@[i],
                    rule,
                );
            assert(m[i].0 == line);
            assert forall|j: int| 0 <= j < i implies m[j].0 != line by {
                assert(markers.entries@[j].line != line);
            }
            if markers.entries@[i].rules@.len() != 0 {
                let q = choose|q: int|
                    0 <= q < markers.entries@[i].rules@.len() && markers.entries@[i].rules@[q]@ == rule;
                assert(m[i].1[q] == markers.entries@[i].rules@[q]@);
            }
        } else {
            assert forall|i: int|
                0 <= i < m.len() && (#[trigger] m[i]).0 == line && (forall|j: int| 0 <= j < i ==> m[j].0 != line)
                implies !(m[i].1.len() == 0 || exists|k: int| 0 <= k < m[i].1.len() && m[i].1[k] == rule) by {
                assert(markers.entries@[i].line == line);
                assert forall|j: int| 0 <= j < i implies markers.entries@[j].line != line by {
                    assert(m[j].0 != line);
                }
                assert(!suppresses(markers.entries@[i], rule));
                if exists|k: int| 0 <= k < m[i].1.len() && m[i].1[k] == rule {
                    let k = choose|k: int| 0 <= k < m[i].1.len() && m[i].1[k] == rule;
                    assert(markers.entries@[i].rules@[k]@ == m[i].1[k]);
                }
            }
        }
    }
    b
}

/// Drop the findings on lines an inline marker suppresses for their rule.
pub fn drop_marked(sources: &Vec<SourceFile>, markers: &Vec<SuppressMarkers>, items: Vec<Reportable>) -> (r: Vec<Reportable>)
    requires
        markers@.len() == sources@.len(),
        forall|k: int| 0 <= k < markers@.len() ==> (#[trigger] markers@[k]).spec_view() == markers_of(source_text(sources@[k])),
        forall|k: int| 0 <= k < items@.len() ==> source_index(sources@, (#[trigger] items@[k]).diag.source_id) is Some,
    ensures
        r@ == unmarked(sources@, items@),
{
    let mut rest = items;
    let ghost all = rest@;
    let mut out: Vec<Reportable> = Vec::new();
    while rest.len() > 0
        invariant
            rest@.len() <= all.len(),
            rest@ == all.subrange(all.len() - rest@.len(), all.len() as int),
            out@ == unmarked(sources@, all.subrange(0, all.len() - rest@.len())),
            markers@.len() == sources@.len(),
            forall|k: int| 0 <= k < markers@.len() ==> (#[trigger] markers@[k]).spec_view() == markers_of(source_text(sources@[k])),
            forall|k: int| 0 <= k < all.len() ==> source_index(sources@, (#[trigger] all[k]).diag.source_id) is Some,
        decreases rest@.len(),
    {
        let ghost k = all.len() - rest@.len();
        let x = rest.remove(0);
        proof {
            assert(rest@ =~= all.subrange(k + 1, all.len() as int));
            assert(all.subrange(0, k + 1).drop_last() =~= all.subrange(0, k));
            assert(source_index(sources@, all[k].diag.source_id) is Some);
            lemma_source_index(sources@, x.diag.source_id);
        }
        let idx = find_source(sources, x.diag.source_id).unwrap();
        if !marked(&x, &markers[idx]) {
            out.push(x);
        }
    }
    assert(all.subrange(0, all.len() as int) =~= all);
    out
}

// ---------------------------------------------------------------------------
// Baseline classification
// ---------------------------------------------------------------------------

/// What `Baseline::classify` decides for one finding, and the pair budget
/// after it.
pub open spec fn classify_outcome(b: Baseline, d: Diagnostic, path: Seq<char>, fp: Seq<char>, budget: Map<PairKey, u64>) -> (bool, Map<PairKey, u64>) {
    if b.subject_match(d, path) is Some || b.fingerprint_match(d, path, fp) is Some {
        (true, budget)
    } else {
        let left = b.budget_before(budget, d.rule_id@, path);
        (left > 0, budget.insert((d.rule_id@, path), if left > 0 { (left - 1) as u64 } else { 0 }))
    }
}

/// The fingerprint of a reportable in its source.
pub open spec fn report_fingerprint(sources: Seq<SourceFile>, r: Reportable) -> Seq<char> {
    let src = sources[source_index(sources, r.diag.source_id).unwrap()];
    fingerprint_spec(src.bytes@, r.diag.span, crate::graphql::parser::opt_view(r.diag.subject))
}

/// Findings not covered by the baseline, how many were covered, and the pair
/// budget after them; without a baseline every finding is new.
pub open spec fn baseline_pass(b: Option<Baseline>, sources: Seq<SourceFile>, s: Seq<Reportable>) -> (Seq<Reportable>, nat, Map<PairKey, u64>)
    decreases s.len(),
{
    if s.len() == 0 {
        (seq![], 0, Map::empty())
    } else {
        let (kept, n, budget) = baseline_pass(b, sources, s.drop_last());
        let r = s.last();
        match b {
            Some(base) => {
                let (covered, budget2) = classify_outcome(base, r.diag, r.path@, report_fingerprint(sources, r), budget);
                if covered {
                    (kept, n + 1, budget2)
                } else {
                    (kept.push(r), n, budget2)
                }
            },
            None => (kept.push(r), n, budget),
        }
    }
}

/// The fingerprint of a finding can be taken: its source is known and its
/// span does not end before it starts.
pub open spec fn fingerprintable(sources: Seq<SourceFile>, r: Reportable) -> bool {
    match source_index(sources, r.diag.source_id) {
        Some(i) => clamp(sources[i].bytes@, r.diag.span.start as int) <= clamp(sources[i].bytes@, r.diag.span.end as int),
        None => false,
    }
}

fn covered_by(b: &Baseline, sources: &Vec<SourceFile>, x: &Reportable, budget: &mut PairBudget) -> (r: bool)
    requires
        old(budget).wf(),
        fingerprintable(sources@, *x),
    ensures
        final(budget).wf(),
        (r, final(budget)@) == classify_outcome(*b, x.diag, x.path@, report_fingerprint(sources@, *x), old(budget)@),
{
    proof {
        lemma_source_index(sources@, x.diag.source_id);
    }
    let idx = find_source(sources, x.diag.source_id).unwrap();
    let subject = match &x.diag.subject {
        Some(s) => Some(s.as_str()),
        None => None,
    };
    let fp = fingerprint(&sources[idx], x.diag.span, subject);
    assert(fp@ == report_fingerprint(sources@, *x));
    let m = b.classify(&x.diag, x.path.as_str(), fp.as_str(), budget);
    match m {
        BaselineMatch::Baselined(_) => true,
        BaselineMatch::New => false,
    }
}

/// Classify findings against the baseline, in order; a finding it covers is
/// counted, the others are kept.
pub fn apply_baseline(baseline: &Option<Baseline>, sources: &Vec<SourceFile>, items: Vec<Reportable>) -> (r: (Vec<Reportable>, usize))
    requires
        baseline is Some ==> forall|k: int| 0 <= k < items@.len() ==> fingerprintable(sources@, #[trigger] items@[k]),
    ensures
        r.0@ == baseline_pass(*baseline, sources@, items@).0,
        r.1 as nat == baseline_pass(*baseline, sources@, items@).1,
{
    let mut rest = items;
    let ghost all = rest@;
    let mut out: Vec<Reportable> = Vec::new();
    let mut covered: usize = 0;
    let mut budget = PairBudget::new();
    let n0 = rest.len();
    assert(all.len() == n0);
    while rest.len() > 0
        invariant
            rest@.len() <= all.len(),
            rest@ == all.subrange(all.len() - rest@.len(), all.len() as int),
            budget.wf(),
            (out@, covered as nat, budget@) == baseline_pass(*baseline, sources@, all.subrange(0, all.len() - rest@.len())),
            covered <= all.len() - rest@.len(),
            all.len() <= usize::MAX,
            baseline is Some ==> forall|k: int| 0 <= k < all.len() ==> fingerprintable(sources@, #[trigger] all[k]),
        decreases rest@.len(),
    {
        let ghost k = all.len() - rest@.len();
        let x = rest.remove(0);
        proof {
            assert(rest@ =~= all.subrange(k + 1, all.len() as int));
            assert(all.subrange(0, k + 1).drop_last() =~= all.subrange(0, k));
        }
        match baseline {
            Some(b) => {
                proof {
                    assert(fingerprintable(sources@, all[k]));
                }
                if covered_by(b, sources, &x, &mut budget) {
                    covered = covered + 1;
                } else {
                    out.push(x);
                }
            },
            None => {
                out.push(x);
            },
        }
    }
    assert(all.subrange(0, all.len() as int) =~= all);
    (out, covered)
}

// ---------------------------------------------------------------------------
// The whole finalisation
// ---------------------------------------------------------------------------

#[derive(Debug)]
pub struct RunResult {
    /// Findings not covered by the baseline.
    pub findings: Vec<Reportable>,
    /// Parse errors (always reported as findings, never baselined); kept
    /// empty, as they are folded into `findings`.
    pub parse_errors: Vec<Reportable>,
    pub files: usize,
    /// Findings covered by the baseline.
    pub baselined: usize,
    pub totals: SeverityTotals,
}

/// The findings a run reports and how many the baseline covered: located,
/// ordered, without marked lines, classified against the baseline.
pub open spec fn final_findings(
    diags: Seq<Diagnostic>,
    metas: Seq<RuleMeta>,
    rules: RuleDirectives,
    sources: Seq<SourceFile>,
    baseline: Option<Baseline>,
) -> (Seq<Reportable>, nat) {
    let located = diags.map_values(|d: Diagnostic| reportable_of(sources, metas, rules, d));
    let kept = unmarked(sources, sort_reports(located));
    let r = baseline_pass(baseline, sources, kept);
    (r.0, r.1)
}

proof fn lemma_insert_all(s: Seq<Reportable>, x: Reportable, p: spec_fn(Reportable) -> bool)
    requires
        forall|k: int| 0 <= k < s.len() ==> p(#[trigger] s[k]),
        p(x),
    ensures
        forall|k: int| 0 <= k < insert_sorted(s, x).len() ==> p(#[trigger] insert_sorted(s, x)[k]),
    decreases s.len(),
{
    if s.len() > 0 && report_lt(x, s.last()) {
        lemma_insert_all(s.drop_last(), x, p);
        let t = insert_sorted(s.drop_last(), x);
        assert forall|k: int| 0 <= k < t.push(s.last()).len() implies p(#[trigger] t.push(s.last())[k]) by {
            if k < t.len() {
                assert(p(t[k]));
            } else {
                assert(p(s[s.len() - 1]));
            }
        }
    } else if s.len() > 0 {
        assert forall|k: int| 0 <= k < s.push(x).len() implies p(#[trigger] s.push(x)[k]) by {
            if k < s.len() {
                assert(p(s[k]));
            }
        }
    }
}

proof fn lemma_sort_all(s: Seq<Reportable>, p: spec_fn(Reportable) -> bool)
    requires
        forall|k: int| 0 <= k < s.len() ==> p(#[trigger] s[k]),
    ensures
        forall|k: int| 0 <= k < sort_reports(s).len() ==> p(#[trigger] sort_reports(s)[k]),
    decreases s.len(),
{
    if s.len() > 0 {
        assert forall|k: int| 0 <= k < s.drop_last().len() implies p(#[trigger] s.drop_last()[k]) by {
            assert(p(s[k]));
        }
        lemma_sort_all(s.drop_last(), p);
        assert(p(s[s.len() - 1]));
        lemma_insert_all(sort_reports(s.drop_last()), s.last(), p);
    }
}

proof fn lemma_unmarked_all(sources: Seq<SourceFile>, s: Seq<Reportable>, p: spec_fn(Reportable) -> bool)
    requires
        forall|k: int| 0 <= k < s.len() ==> p(#[trigger] s[k]),
    ensures
        forall|k: int| 0 <= k < unmarked(sources, s).len() ==> p(#[trigger] unmarked(sources, s)[k]),
    decreases s.len(),
{
    if s.len() > 0 {
        assert forall|k: int| 0 <= k < s.drop_last().len() implies p(#[trigger] s.drop_last()[k]) by {
            assert(p(s[k]));
        }
        lemma_unmarked_all(sources, s.drop_last(), p);
        let rest = unmarked(sources, s.drop_last());
        if !is_marked(sources, s.last()) {
            assert forall|k: int| 0 <= k < rest.push(s.last()).len() implies p(#[trigger] rest.push(s.last())[k]) by {
                if k < rest.len() {
                    assert(p(rest[k]));
                } else {
                    assert(p(s[s.len() - 1]));
                }
            }
        }
    }
}

/// Finish a run: locate the gathered findings, order them, drop those on
/// marked lines, classify the rest against the baseline and total them.
pub fn finalize(
    diags: Vec<Diagnostic>,
    files: usize,
    metas: &Vec<RuleMeta>,
    rules: &RuleDirectives,
    sources: &Vec<SourceFile>,
    baseline: &Option<Baseline>,
) -> (r: RunResult)
    requires
        forall|k: int| 0 <= k < diags@.len() ==> locatable(sources@, #[trigger] diags@[k]),
        forall|k: int| 0 <= k < sources@.len() ==> (#[trigger] sources@[k]).bytes@.len() < 0xFFFF_FFF0,
        baseline is Some ==> forall|k: int|
            0 <= k < diags@.len() ==> match source_index(sources@, (#[trigger] diags@[k]).source_id) {
                Some(i) => clamp(sources@[i].bytes@, diags@[k].span.start as int) <= clamp(
                    sources@[i].bytes@,
                    diags@[k].span.end as int,
                ),
                None => false,
            },
    ensures
        r.findings@ == final_findings(diags@, metas@, *rules, sources@, *baseline).0,
        r.baselined as nat == final_findings(diags@, metas@, *rules, sources@, *baseline).1,
        r.totals.counts(severities(r.findings@)),
        r.files == files,
        r.parse_errors@.len() == 0,
{
    let ghost d0 = diags@;
    let located = locate_findings(sources, metas, rules, diags);
    let ghost pk = |x: Reportable| source_index(sources@, x.diag.source_id) is Some && (baseline is Some ==> fingerprintable(sources@, x));
    proof {
        assert forall|k: int| 0 <= k < located@.len() implies pk(#[trigger] located@[k]) by {
            assert(locatable(sources@, d0[k]));
            assert(located@[k] == reportable_of(sources@, metas@, *rules, d0[k]));
        }
    }
    let sorted = sort_findings(located);
    proof {
        lemma_sort_all(located@, pk);
    }
    let markers = source_markers(sources);
    let kept = drop_marked(sources, &markers, sorted);
    proof {
        lemma_unmarked_all(sources@, sorted@, pk);
    }
    let (findings, baselined) = apply_baseline(baseline, sources, kept);
    let totals = count_severities(findings.as_slice());
    RunResult { findings, parse_errors: Vec::new(), files, baselined, totals }
}

// ---------------------------------------------------------------------------
// Planning a run
// ---------------------------------------------------------------------------

pub open spec fn names(s: Seq<String>) -> Seq<Seq<char>> {
    s.map_values(|x: String| x@)
}

/// The plugins a run needs, as indices into `plugins`: for each source in
/// order, the plugin that parses its extension, each plugin id once.
pub open spec fn chosen_plugins(plugins: Seq<PluginInfo>, exts: Seq<Option<Seq<char>>>, prefer: Option<Seq<char>>) -> Seq<int>
    decreases exts.len(),
{
    if exts.len() == 0 {
        seq![]
    } else {
        let before = chosen_plugins(plugins, exts.drop_last(), prefer);
        match exts.last() {
            Some(e) => match plugin_for(plugins, e, prefer) {
                Some(i) => if exists|k: int| 0 <= k < before.len() && plugins[before[k]].id@ == plugins[i].id@ {
                    before
                } else {
                    before.push(i)
                },
                None => before,
            },
            None => before,
        }
    }
}

pub open spec fn opt_views(s: Seq<Option<String>>) -> Seq<Option<Seq<char>>> {
    s.map_values(|o: Option<String>| crate::graphql::parser::opt_view(o))
}

pub fn choose_plugins(plugins: &Vec<PluginInfo>, exts: &Vec<Option<String>>, prefer: Option<&str>) -> (r: Vec<usize>)
    ensures
        r@.map_values(|i: usize| i as int) == chosen_plugins(plugins@, opt_views(exts@), match prefer { Some(p) => Some(p@), None => None }),
{
    let ghost pv = match prefer { Some(p) => Some(p@), None => None };
    let mut out: Vec<usize> = Vec::new();
    let mut i: usize = 0;
    while i < exts.len()
        invariant
            i <= exts@.len(),
            pv == match prefer { Some(p) => Some(p@), None => None },
            out@.map_values(|i: usize| i as int) == chosen_plugins(plugins@, opt_views(exts@).subrange(0, i as int), pv),
            forall|k: int| 0 <= k < out@.len() ==> out@[k] < plugins@.len(),
        decreases exts@.len() - i,
    {
        let ghost before = out@.map_values(|i: usize| i as int);
        assert(opt_views(exts@).subrange(0, i + 1).drop_last() =~= opt_views(exts@).subrange(0, i as int));
        match &exts[i] {
            Some(e) => {
                match plugin_by_extension(plugins, e.as_str(), prefer) {
                    Some(p) => {
                        proof {
                            crate::registry::lemma_plugin_for_bound(plugins@, e@, pv);
                        }
                        let mut seen = false;
                        let mut k: usize = 0;
                        while k < out.len()
                            invariant
                                k <= out@.len(),
                                p < plugins@.len(),
                                forall|q: int| 0 <= q < out@.len() ==> out@[q] < plugins@.len(),
                                seen == exists|q: int| 0 <= q < k && plugins@[out@[q] as int].id@ == plugins@[p as int].id@,
                            decreases out@.len() - k,
                        {
                            if plugins[out[k]].id == plugins[p].id {
                                seen = true;
                            }
                            k = k + 1;
                        }
                        proof {
                            assert(seen == exists|q: int| 0 <= q < before.len() && plugins@[before[q]].id@ == plugins@[p as int].id@) by {
                                if seen {
                                    let q = choose|q: int| 0 <= q < out@.len() && plugins@[out@[q] as int].id@ == plugins@[p as int].id@;
                                    assert(before[q] == out@[q] as int);
                                }
                                if exists|q: int| 0 <= q < before.len() && plugins@[before[q]].id@ == plugins@[p as int].id@ {
                                    let q = choose|q: int| 0 <= q < before.len() && plugins@[before[q]].id@ == plugins@[p as int].id@;
                                    assert(before[q] == out@[q] as int);
                                }
                            }
                        }
                        if !seen {
                            out.push(p);
                            assert(out@.map_values(|i: usize| i as int) =~= before.push(p as int));
                        }
                    },
                    None => {},
                }
            },
            None => {},
        }
        i = i + 1;
    }
    assert(opt_views(exts@).subrange(0, exts@.len() as int) =~= opt_views(exts@));
    out
}

/// A rule is enabled unless config turns it off; a rule graded `off` by
/// default is enabled only once config opts in (any directive that is not
/// `off`).
pub open spec fn enabled(meta: RuleMeta, rules: RuleDirectives) -> bool {
    match rules.spec_get(meta.id@) {
        Some(RuleDirective::Off) => false,
        Some(RuleDirective::On(_)) => true,
        None => meta.default_severity != Severity::Off,
    }
}

pub fn rule_enabled(meta: &RuleMeta, rules: &RuleDirectives) -> (r: bool)
    ensures
        r == enabled(*meta, *rules),
{
    match rules.get(meta.id) {
        Some(RuleDirective::Off) => false,
        Some(RuleDirective::On(_)) => true,
        None => match meta.default_severity {
            Severity::Off => false,
            _ => true,
        },
    }
}

/// The capabilities the enabled rules read, in rule order.
pub open spec fn needed_caps(metas: Seq<RuleMeta>, rules: RuleDirectives) -> Seq<Seq<char>>
    decreases metas.len(),
{
    if metas.len() == 0 {
        seq![]
    } else {
        let before = needed_caps(metas.drop_last(), rules);
        let m = metas.last();
        if enabled(m, rules) && m.requires@.len() > 0 {
            before.push(m.requires@)
        } else {
            before
        }
    }
}

pub fn needed_capabilities(metas: &Vec<RuleMeta>, rules: &RuleDirectives) -> (r: Vec<String>)
    ensures
        names(r@) == needed_caps(metas@, *rules),
{
    let mut out: Vec<String> = Vec::new();
    let mut i: usize = 0;
    while i < metas.len()
        invariant
            i <= metas@.len(),
            names(out@) == needed_caps(metas@.subrange(0, i as int), *rules),
        decreases metas@.len() - i,
    {
        assert(metas@.subrange(0, i + 1).drop_last() =~= metas@.subrange(0, i as int));
        let m = &metas[i];
        if rule_enabled(m, rules) && !m.requires.is_empty() {
            let ghost before = names(out@);
            out.push(string_of_str(m.requires));
            assert(names(out@) =~= before.push(m.requires@));
        }
        i = i + 1;
    }
    assert(metas@.subrange(0, metas@.len() as int) =~= metas@);
    out
}

fn string_of_str(s: &str) -> (r: String)
    ensures
        r@ == s@,
{
    crate::text::string_of(s)
}

/// A plugin's workspace pass is wanted when it declares a workspace-scoped
/// capability that an enabled rule reads.
pub open spec fn wants_workspace_spec(p: PluginInfo, needed: Seq<Seq<char>>) -> bool {
    exists|k: int|
        0 <= k < p.capabilities@.len() && (#[trigger] p.capabilities@[k]).scope == CapabilityScope::Workspace
            && needed.contains(p.capabilities@[k].name@)
}

fn contains_name(v: &Vec<String>, name: &str) -> (r: bool)
    ensures
        r == names(v@).contains(name@),
{
    let mut i: usize = 0;
    while i < v.len()
        invariant
            i <= v@.len(),
            forall|k: int| 0 <= k < i ==> v@[k]@ != name@,
        decreases v@.len() - i,
    {
        if crate::text::str_eq(v[i].as_str(), name) {
            assert(names(v@)[i as int] == name@);
            return true;
        }
        i = i + 1;
    }
    proof {
        if names(v@).contains(name@) {
            let k = choose|k: int| 0 <= k < names(v@).len() && names(v@)[k] == name@;
            assert(v@[k]@ == name@);
        }
    }
    false
}

pub fn wants_workspace(p: &PluginInfo, needed: &Vec<String>) -> (r: bool)
    ensures
        r == wants_workspace_spec(*p, names(needed@)),
{
    let mut k: usize = 0;
    while k < p.capabilities.len()
        invariant
            k <= p.capabilities@.len(),
            forall|j: int|
                0 <= j < k ==> !((#[trigger] p.capabilities@[j]).scope == CapabilityScope::Workspace && names(needed@).contains(
                    p.capabilities@[j].name@,
                )),
        decreases p.capabilities@.len() - k,
    {
        let c = &p.capabilities[k];
        if c.scope == CapabilityScope::Workspace && contains_name(needed, c.name) {
            return true;
        }
        k = k + 1;
    }
    false
}

/// The names of the file-scoped capabilities among `caps`.
pub open spec fn file_caps_of(caps: Seq<Capability>) -> Seq<Seq<char>>
    decreases caps.len(),
{
    if caps.len() == 0 {
        seq![]
    } else {
        let before = file_caps_of(caps.drop_last());
        if caps.last().scope == CapabilityScope::File {
            before.push(caps.last().name@)
        } else {
            before
        }
    }
}

/// The file-scoped capabilities of the chosen plugins, in order.
pub open spec fn file_caps(chosen: Seq<PluginInfo>) -> Seq<Seq<char>>
    decreases chosen.len(),
{
    if chosen.len() == 0 {
        seq![]
    } else {
        file_caps(chosen.drop_last()) + file_caps_of(chosen.last().capabilities@)
    }
}

/// The capabilities available to rules: what the workspace passes built,
/// then the file-scoped capabilities of the chosen plugins.
pub fn available_capabilities(ws_keys: Vec<String>, chosen: &Vec<PluginInfo>) -> (r: Vec<String>)
    ensures
        names(r@) == names(ws_keys@) + file_caps(chosen@),
{
    let mut out = ws_keys;
    let ghost keys = names(out@);
    let mut i: usize = 0;
    while i < chosen.len()
        invariant
            i <= chosen@.len(),
            names(out@) == keys + file_caps(chosen@.subrange(0, i as int)),
        decreases chosen@.len() - i,
    {
        let caps = &chosen[i].capabilities;
        let ghost mid = names(out@);
        let mut k: usize = 0;
        while k < caps.len()
            invariant
                k <= caps@.len(),
                names(out@) == mid + file_caps_of(caps@.subrange(0, k as int)),
            decreases caps@.len() - k,
        {
            assert(caps@.subrange(0, k + 1).drop_last() =~= caps@.subrange(0, k as int));
            if caps[k].scope == CapabilityScope::File {
                let ghost before = names(out@);
                out.push(string_of_str(caps[k].name));
                assert(names(out@) =~= before.push(caps@[k as int].name@));
            }
            k = k + 1;
        }
        assert(caps@.subrange(0, caps@.len() as int) =~= caps@);
        assert(chosen@.subrange(0, i + 1).drop_last() =~= chosen@.subrange(0, i as int));
        assert(names(out@) =~= keys + file_caps(chosen@.subrange(0, i + 1)));
        i = i + 1;
    }
    assert(chosen@.subrange(0, chosen@.len() as int) =~= chosen@);
    out
}

/// A rule runs when it is enabled and the capability it reads, if any, is
/// available.
pub open spec fn rule_runs_spec(meta: RuleMeta, rules: RuleDirectives, available: Seq<Seq<char>>) -> bool {
    enabled(meta, rules) && (meta.requires@.len() == 0 || available.contains(meta.requires@))
}

pub fn rule_runs(meta: &RuleMeta, rules: &RuleDirectives, available: &Vec<String>) -> (r: bool)
    ensures
        r == rule_runs_spec(*meta, *rules, names(available@)),
{
    rule_enabled(meta, rules) && (meta.requires.is_empty() || contains_name(available, meta.requires))
}

/// A rule's finding is kept only under the rule's own id (a rule cannot
/// emit findings for another rule).
pub fn emitted_by(meta: &RuleMeta, d: &Diagnostic) -> (r: bool)
    ensures
        r == (d.rule_id@ == meta.id@),
{
    crate::text::str_eq(d.rule_id.as_str(), meta.id)
}

/// Plugins with a workspace-scoped capability get their workspace pass.
pub fn has_workspace_capability(p: &PluginInfo) -> (r: bool)
    ensures
        r == exists|k: int| 0 <= k < p.capabilities@.len() && (#[trigger] p.capabilities@[k]).scope == CapabilityScope::Workspace,
{
    let mut k: usize = 0;
    while k < p.capabilities.len()
        invariant
            k <= p.capabilities@.len(),
            forall|j: int| 0 <= j < k ==> (#[trigger] p.capabilities@[j]).scope != CapabilityScope::Workspace,
        decreases p.capabilities@.len() - k,
    {
        if p.capabilities[k].scope == CapabilityScope::Workspace {
            return true;
        }
        k = k + 1;
    }
    false
}

// ---------------------------------------------------------------------------
// Recording and pruning the baseline
// ---------------------------------------------------------------------------

/// The identity of a baseline entry: rule id, path, subject, fingerprint.
pub type EntryKey = (Seq<char>, Seq<char>, Option<Seq<char>>, Seq<char>);

pub open spec fn entry_key(e: BaselineEntry) -> EntryKey {
    (e.rule_id@, e.path@, crate::graphql::parser::opt_view(e.subject), e.fingerprint@)
}

pub open spec fn live_key(k: (String, String, Option<String>, String)) -> EntryKey {
    (k.0@, k.1@, crate::graphql::parser::opt_view(k.2), k.3@)
}

pub open spec fn is_live(live: Seq<(String, String, Option<String>, String)>, e: BaselineEntry) -> bool {
    exists|i: int| 0 <= i < live.len() && live_key(#[trigger] live[i]) == entry_key(e)
}

/// The entries whose finding is still live, in order.
pub open spec fn live_entries(live: Seq<(String, String, Option<String>, String)>, s: Seq<BaselineEntry>) -> Seq<BaselineEntry>
    decreases s.len(),
{
    if s.len() == 0 {
        seq![]
    } else {
        let before = live_entries(live, s.drop_last());
        if is_live(live, s.last()) {
            before.push(s.last())
        } else {
            before
        }
    }
}

fn opt_str_eq(a: &Option<String>, b: &Option<String>) -> (r: bool)
    ensures
        r == (crate::graphql::parser::opt_view(*a) == crate::graphql::parser::opt_view(*b)),
{
    match (a, b) {
        (Some(x), Some(y)) => crate::text::str_eq(x.as_str(), y.as_str()),
        (None, None) => true,
        _ => false,
    }
}

fn live_contains(live: &Vec<(String, String, Option<String>, String)>, e: &BaselineEntry) -> (r: bool)
    ensures
        r == is_live(live@, *e),
{
    let mut i: usize = 0;
    while i < live.len()
        invariant
            i <= live@.len(),
            forall|j: int| 0 <= j < i ==> live_key(#[trigger] live@[j]) != entry_key(*e),
        decreases live@.len() - i,
    {
        let k = &live[i];
        if crate::text::str_eq(k.0.as_str(), e.rule_id.as_str()) && crate::text::str_eq(k.1.as_str(), e.path.as_str())
            && opt_str_eq(&k.2, &e.subject) && crate::text::str_eq(k.3.as_str(), e.fingerprint.as_str()) {
            assert(live_key(live@[i as int]) == entry_key(*e));
            return true;
        }
        i = i + 1;
    }
    false
}

/// Prune: drop baseline entries no longer present in the tree. `live` holds
/// (rule id, path, subject, fingerprint) of every current finding. The pair
/// budgets and the timestamp are kept; the count of dropped entries is
/// returned with the result.
pub fn prune(baseline: Baseline, live: &Vec<(String, String, Option<String>, String)>) -> (r: (Baseline, usize))
    ensures
        r.0.entries@ == live_entries(live@, baseline.entries@),
        r.0.generated_at == baseline.generated_at,
        r.0.pairs@ == baseline.pairs@,
        r.1 == baseline.entries@.len() - r.0.entries@.len(),
{
    let Baseline { generated_at, entries, pairs } = baseline;
    let total = entries.len();
    let mut rest = entries;
    let ghost all = rest@;
    let mut kept: Vec<BaselineEntry> = Vec::new();
    while rest.len() > 0
        invariant
            rest@.len() <= all.len(),
            rest@ == all.subrange(all.len() - rest@.len(), all.len() as int),
            kept@ == live_entries(live@, all.subrange(0, all.len() - rest@.len())),
            kept@.len() <= all.len() - rest@.len(),
        decreases rest@.len(),
    {
        let ghost k = all.len() - rest@.len();
        let e = rest.remove(0);
        proof {
            assert(rest@ =~= all.subrange(k + 1, all.len() as int));
            assert(all.subrange(0, k + 1).drop_last() =~= all.subrange(0, k));
        }
        if live_contains(live, &e) {
            kept.push(e);
        }
    }
    assert(all.subrange(0, all.len() as int) =~= all);
    let removed = total - kept.len();
    (Baseline { generated_at, entries: kept, pairs }, removed)
}

/// A baseline entry as text.
pub struct EntryV {
    pub rule_id: Seq<char>,
    pub path: Seq<char>,
    pub subject: Option<Seq<char>>,
    pub line: u32,
    pub fingerprint: Seq<char>,
}

pub open spec fn entry_view(e: BaselineEntry) -> EntryV {
    EntryV {
        rule_id: e.rule_id@,
        path: e.path@,
        subject: crate::graphql::parser::opt_view(e.subject),
        line: e.line,
        fingerprint: e.fingerprint@,
    }
}

pub open spec fn entry_views(s: Seq<BaselineEntry>) -> Seq<EntryV> {
    s.map_values(|e: BaselineEntry| entry_view(e))
}

/// Baseline order: path, then line, then rule id.
pub open spec fn entry_lt(a: EntryV, b: EntryV) -> bool {
    ||| text_lt(a.path, b.path)
    ||| a.path == b.path && a.line < b.line
    ||| a.path == b.path && a.line == b.line && text_lt(a.rule_id, b.rule_id)
}

pub open spec fn insert_entry(s: Seq<EntryV>, x: EntryV) -> Seq<EntryV>
    decreases s.len(),
{
    if s.len() == 0 {
        seq![x]
    } else if entry_lt(x, s.last()) {
        insert_entry(s.drop_last(), x).push(s.last())
    } else {
        s.push(x)
    }
}

/// The stable sort of entries in baseline order.
pub open spec fn sort_entries(s: Seq<EntryV>) -> Seq<EntryV>
    decreases s.len(),
{
    if s.len() == 0 {
        seq![]
    } else {
        insert_entry(sort_entries(s.drop_last()), s.last())
    }
}

proof fn lemma_insert_entry(s: Seq<EntryV>, x: EntryV, j: int)
    requires
        0 <= j <= s.len(),
        forall|k: int| j <= k < s.len() ==> entry_lt(x, #[trigger] s[k]),
        j > 0 ==> !entry_lt(x, s[j - 1]),
    ensures
        insert_entry(s, x) == s.insert(j, x),
    decreases s.len(),
{
    if s.len() == 0 {
        assert(s.insert(j, x) =~= seq![x]);
    } else if j == s.len() {
        assert(s.insert(j, x) =~= s.push(x));
    } else {
        assert(entry_lt(x, s[s.len() - 1]));
        lemma_insert_entry(s.drop_last(), x, j);
        assert(s.drop_last().insert(j, x).push(s.last()) =~= s.insert(j, x));
    }
}

fn entry_less(a: &BaselineEntry, b: &BaselineEntry) -> (r: bool)
    ensures
        r == entry_lt(entry_view(*a), entry_view(*b)),
{
    if text_less(a.path.as_str(), b.path.as_str()) {
        return true;
    }
    if !crate::text::str_eq(a.path.as_str(), b.path.as_str()) {
        return false;
    }
    if a.line != b.line {
        return a.line < b.line;
    }
    text_less(a.rule_id.as_str(), b.rule_id.as_str())
}

/// The baseline entry recording a finding: its rule, path, subject, line
/// and fingerprint.
pub open spec fn entry_for(sources: Seq<SourceFile>, r: Reportable) -> EntryV {
    EntryV {
        rule_id: r.diag.rule_id@,
        path: r.path@,
        subject: crate::graphql::parser::opt_view(r.diag.subject),
        line: r.located.line,
        fingerprint: report_fingerprint(sources, r),
    }
}

pub open spec fn unsorted_entries(sources: Seq<SourceFile>, s: Seq<Reportable>) -> Seq<EntryV> {
    s.map_values(|r: Reportable| entry_for(sources, r))
}

/// Entries for every finding of a run (TODO generate), in baseline order.
pub fn baseline_entries(sources: &Vec<SourceFile>, findings: &Vec<Reportable>) -> (r: Vec<BaselineEntry>)
    requires
        forall|k: int| 0 <= k < findings@.len() ==> fingerprintable(sources@, #[trigger] findings@[k]),
    ensures
        entry_views(r@) == sort_entries(unsorted_entries(sources@, findings@)),
{
    let mut out: Vec<BaselineEntry> = Vec::new();
    let mut i: usize = 0;
    assert(entry_views(out@) =~= sort_entries(unsorted_entries(sources@, findings@.subrange(0, 0))));
    while i < findings.len()
        invariant
            i <= findings@.len(),
            forall|k: int| 0 <= k < findings@.len() ==> fingerprintable(sources@, #[trigger] findings@[k]),
            entry_views(out@) == sort_entries(unsorted_entries(sources@, findings@.subrange(0, i as int))),
        decreases findings@.len() - i,
    {
        let r = &findings[i];
        proof {
            assert(fingerprintable(sources@, findings@[i as int]));
            lemma_source_index(sources@, r.diag.source_id);
        }
        let idx = find_source(sources, r.diag.source_id).unwrap();
        let subject = match &r.diag.subject {
            Some(s) => Some(s.as_str()),
            None => None,
        };
        let fp = fingerprint(&sources[idx], r.diag.span, subject);
        let e = BaselineEntry {
            rule_id: r.diag.rule_id.clone(),
            path: r.path.clone(),
            subject: crate::text::copy_opt_string(&r.diag.subject),
            line: r.located.line,
            fingerprint: fp,
        };
        let ghost ev = entry_view(e);
        assert(ev == entry_for(sources@, *r));
        let ghost before = entry_views(out@);
        let mut j = out.len();
        while j > 0 && entry_less(&e, &out[j - 1])
            invariant
                j <= out@.len(),
                before == entry_views(out@),
                ev == entry_view(e),
                forall|q: int| j <= q < out@.len() ==> entry_lt(ev, #[trigger] before[q]),
            decreases j,
        {
            j = j - 1;
        }
        proof {
            lemma_insert_entry(before, ev, j as int);
            assert(unsorted_entries(sources@, findings@.subrange(0, i + 1)) =~= unsorted_entries(sources@, findings@.subrange(0, i as int)).push(ev));
            assert(unsorted_entries(sources@, findings@.subrange(0, i + 1)).drop_last() =~= unsorted_entries(sources@, findings@.subrange(0, i as int)));
        }
        out.insert(j, e);
        assert(entry_views(out@) =~= before.insert(j as int, ev));
        i = i + 1;
    }
    assert(findings@.subrange(0, findings@.len() as int) =~= findings@);
    out
}

} // verus!
