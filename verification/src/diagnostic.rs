//! Span, Severity and Diagnostic: the shared contracts every plugin and rule uses.

use vstd::prelude::*;

verus! {

/// Severity of a diagnostic. Order matters: it ranks severities
/// (`Info < Warning < Error < Off`).
#[derive(Clone, Copy, Debug, PartialEq, Eq, Structural, PartialOrd, Ord, Hash)]
pub enum Severity {
    Info,
    Warning,
    Error,
    /// Rule-meta only: the rule is registered but disabled by default. Never
    /// a finding severity; users opt in per rule in `omni-lint.toml`.
    Off,
}

impl Severity {
    /// The stable wire name of a severity.
    pub open spec fn name(self) -> Seq<char> {
        match self {
            Severity::Info => "info"@,
            Severity::Warning => "warning"@,
            Severity::Error => "error"@,
            Severity::Off => "off"@,
        }
    }

    pub fn as_str(self) -> (s: &'static str)
        ensures
            s@ == self.name(),
    {
        match self {
            Severity::Info => "info",
            Severity::Warning => "warning",
            Severity::Error => "error",
            Severity::Off => "off",
        }
    }

    /// The severity a config or guest string names; `warn` is an alias of
    /// `warning`.
    pub open spec fn parse_spec(s: Seq<char>) -> Option<Severity> {
        if s == "info"@ {
            Some(Severity::Info)
        } else if s == "warning"@ || s == "warn"@ {
            Some(Severity::Warning)
        } else if s == "error"@ {
            Some(Severity::Error)
        } else if s == "off"@ {
            Some(Severity::Off)
        } else {
            None
        }
    }

    pub fn parse(s: &str) -> (r: Option<Severity>)
        ensures
            r == Self::parse_spec(s@),
    {
        if crate::text::str_eq(s, "info") {
            Some(Severity::Info)
        } else if crate::text::str_eq(s, "warning") || crate::text::str_eq(s, "warn") {
            Some(Severity::Warning)
        } else if crate::text::str_eq(s, "error") {
            Some(Severity::Error)
        } else if crate::text::str_eq(s, "off") {
            Some(Severity::Off)
        } else {
            None
        }
    }
}

/// A byte-offset half-open range `[start, end)` within a source file.
#[derive(Clone, Copy, Debug, PartialEq, Eq, Structural)]
pub struct Span {
    pub start: u32,
    pub end: u32,
}

impl Span {
    pub fn new(start: u32, end: u32) -> (r: Span)
        ensures
            r.start == start,
            r.end == end,
    {
        Span { start, end }
    }

    /// The smallest span from the earlier start to the later end.
    pub fn merge(self, other: Span) -> (r: Span)
        ensures
            r.start == if self.start <= other.start { self.start } else { other.start },
            r.end == if self.end >= other.end { self.end } else { other.end },
    {
        let start = if self.start <= other.start { self.start } else { other.start };
        let end = if self.end >= other.end { self.end } else { other.end };
        Span::new(start, end)
    }
}

/// A resolved location for reporting.
#[derive(Clone, Debug, PartialEq, Eq)]
pub struct Located {
    /// Path as the user knows it (usually relative to the lint root).
    pub path: String,
    /// 1-based line.
    pub line: u32,
    /// 1-based, byte-based column.
    pub column: u32,
}

/// Opaque per-file id handed out by the engine.
#[derive(Clone, Copy, Debug, PartialEq, Eq, Structural, Hash, PartialOrd, Ord)]
pub struct SourceId(pub u32);

/// An additional related location attached to a diagnostic.
#[derive(Clone, Debug, PartialEq, Eq)]
pub struct RelatedSpan {
    pub message: String,
    pub source_id: SourceId,
    pub span: Span,
}

/// A related span attached to a [`PartialDiagnostic`], addressed by relative path.
#[derive(Clone, Debug, PartialEq, Eq)]
pub struct RelatedPathSpan {
    pub message: String,
    pub path: String,
    pub span: Span,
}

/// A finding emitted by a rule. Spans are file-relative byte offsets.
#[derive(Clone, Debug)]
pub struct Diagnostic {
    pub rule_id: String,
    pub severity: Severity,
    pub message: String,
    pub source_id: SourceId,
    pub span: Span,
    pub related: Vec<RelatedSpan>,
    /// Stable domain-defined subject identity, used for TODO baselines
    /// (e.g. `type:User.field:name`).
    pub subject: Option<String>,
}

/// A finding carrying a relative path instead of a resolved `SourceId`.
#[derive(Clone, Debug)]
pub struct PartialDiagnostic {
    pub rule_id: String,
    pub severity: Severity,
    pub message: String,
    pub span: Span,
    pub subject: Option<String>,
    pub related: Vec<RelatedPathSpan>,
}

/// A [`PartialDiagnostic`] keyed by relative path.
#[derive(Clone, Debug)]
pub struct PathDiagnostic {
    pub path: String,
    pub diag: PartialDiagnostic,
}

impl RelatedSpan {
    pub fn duplicate(&self) -> (r: RelatedSpan)
        ensures
            r == *self,
    {
        RelatedSpan { message: self.message.clone(), source_id: self.source_id, span: self.span }
    }
}

pub fn duplicate_related(v: &Vec<RelatedSpan>) -> (r: Vec<RelatedSpan>)
    ensures
        r@ == v@,
{
    let mut r: Vec<RelatedSpan> = Vec::new();
    let mut i: usize = 0;
    while i < v.len()
        invariant
            i <= v.len(),
            r@ == v@.subrange(0, i as int),
        decreases v.len() - i,
    {
        r.push(v[i].duplicate());
        assert(v@.subrange(0, i + 1) == v@.subrange(0, i as int).push(v@[i as int]));
        i = i + 1;
    }
    assert(v@.subrange(0, v.len() as int) == v@);
    r
}

impl Diagnostic {
    /// Field-wise equality (the related spans compared as sequences).
    pub open spec fn same(self, other: Diagnostic) -> bool {
        &&& self.rule_id == other.rule_id
        &&& self.severity == other.severity
        &&& self.message == other.message
        &&& self.source_id == other.source_id
        &&& self.span == other.span
        &&& self.related@ == other.related@
        &&& self.subject == other.subject
    }

    /// A field-for-field copy.
    pub fn duplicate(&self) -> (r: Diagnostic)
        ensures
            r.same(*self),
    {
        Diagnostic {
            rule_id: self.rule_id.clone(),
            severity: self.severity,
            message: self.message.clone(),
            source_id: self.source_id,
            span: self.span,
            related: duplicate_related(&self.related),
            subject: crate::text::copy_opt_string(&self.subject),
        }
    }

    /// `r` is this diagnostic keyed by `path`: its own fields, and its
    /// related spans with their message and span and an empty path.
    pub open spec fn partial_is(self, path: String, r: PathDiagnostic) -> bool {
        &&& r.path == path
        &&& r.diag.rule_id == self.rule_id
        &&& r.diag.severity == self.severity
        &&& r.diag.message == self.message
        &&& r.diag.span == self.span
        &&& r.diag.subject == self.subject
        &&& r.diag.related.len() == self.related.len()
        &&& forall|i: int|
            0 <= i < self.related.len() ==> {
                &&& (#[trigger] r.diag.related@[i]).message == self.related@[i].message
                &&& r.diag.related@[i].path@ == Seq::<char>::empty()
                &&& r.diag.related@[i].span == self.related@[i].span
            }
    }

    /// Represent this diagnostic as a partial one keyed by relative path;
    /// related spans keep their message and span and get an empty path.
    pub fn to_partial(self, path: String) -> (r: PathDiagnostic)
        ensures
            self.partial_is(path, r),
    {
        let Diagnostic { rule_id, severity, message, source_id: _, span, related, subject } = self;
        let mut out: Vec<RelatedPathSpan> = Vec::new();
        let mut i: usize = 0;
        while i < related.len()
            invariant
                i <= related.len(),
                out.len() == i,
                forall|j: int|
                    0 <= j < i ==> {
                        &&& (#[trigger] out@[j]).message == related@[j].message
                        &&& out@[j].path@ == Seq::<char>::empty()
                        &&& out@[j].span == related@[j].span
                    },
            decreases related.len() - i,
        {
            out.push(
                RelatedPathSpan {
                    message: related[i].message.clone(),
                    path: String::new(),
                    span: related[i].span,
                },
            );
            i = i + 1;
        }
        PathDiagnostic {
            path,
            diag: PartialDiagnostic { rule_id, severity, message, span, subject, related: out },
        }
    }
}

/// Keying a diagnostic by a path and resolving it back against its own
/// source gives the same diagnostic, when its related spans lie in that
/// source.
pub proof fn law_partial_round_trip(d: Diagnostic, path: String, pd: PathDiagnostic, r: Diagnostic)
    requires
        forall|i: int| 0 <= i < d.related@.len() ==> (#[trigger] d.related@[i]).source_id == d.source_id,
        d.partial_is(path, pd),
        pd.diag.resolved_is(d.source_id, r),
    ensures
        pd.path == path,
        r.same(d),
{
    assert(r.related@ =~= d.related@) by {
        assert forall|i: int| 0 <= i < d.related@.len() implies r.related@[i] == d.related@[i] by {
            assert(pd.diag.related@[i].message == d.related@[i].message);
        }
    }
}

impl PartialDiagnostic {
    /// `r` is this diagnostic resolved against `source_id`, its related
    /// spans placed in the same source.
    pub open spec fn resolved_is(self, source_id: SourceId, r: Diagnostic) -> bool {
        &&& r.rule_id == self.rule_id
        &&& r.severity == self.severity
        &&& r.message == self.message
        &&& r.source_id == source_id
        &&& r.span == self.span
        &&& r.subject == self.subject
        &&& r.related.len() == self.related.len()
        &&& forall|i: int|
            0 <= i < self.related.len() ==> (#[trigger] r.related@[i]) == (RelatedSpan {
                message: self.related@[i].message,
                source_id,
                span: self.related@[i].span,
            })
    }

    /// Resolve to a full diagnostic against a source id; related spans are
    /// placed in the same source.
    pub fn into_diagnostic(self, source_id: SourceId) -> (r: Diagnostic)
        ensures
            self.resolved_is(source_id, r),
    {
        let PartialDiagnostic { rule_id, severity, message, span, subject, related } = self;
        let mut out: Vec<RelatedSpan> = Vec::new();
        let mut i: usize = 0;
        while i < related.len()
            invariant
                i <= related.len(),
                out.len() == i,
                forall|j: int|
                    0 <= j < i ==> (#[trigger] out@[j]) == (RelatedSpan {
                        message: related@[j].message,
                        source_id,
                        span: related@[j].span,
                    }),
            decreases related.len() - i,
        {
            out.push(
                RelatedSpan {
                    message: related[i].message.clone(),
                    source_id,
                    span: related[i].span,
                },
            );
            i = i + 1;
        }
        Diagnostic { rule_id, severity, message, source_id, span, subject, related: out }
    }
}

/// A related span as values.
pub struct RelatedV {
    pub message: Seq<char>,
    pub source_id: SourceId,
    pub span: Span,
}

/// A diagnostic as values.
pub struct DiagV {
    pub rule_id: Seq<char>,
    pub severity: Severity,
    pub message: Seq<char>,
    pub source_id: SourceId,
    pub span: Span,
    pub related: Seq<RelatedV>,
    pub subject: Option<Seq<char>>,
}

impl RelatedSpan {
    pub open spec fn view(&self) -> RelatedV {
        RelatedV { message: self.message@, source_id: self.source_id, span: self.span }
    }
}

impl Diagnostic {
    pub open spec fn view(&self) -> DiagV {
        DiagV {
            rule_id: self.rule_id@,
            severity: self.severity,
            message: self.message@,
            source_id: self.source_id,
            span: self.span,
            related: self.related@.map_values(|r: RelatedSpan| r@),
            subject: match self.subject {
                Some(s) => Some(s@),
                None => None,
            },
        }
    }
}

pub open spec fn diag_views(s: Seq<Diagnostic>) -> Seq<DiagV> {
    s.map_values(|d: Diagnostic| d@)
}

/// A diagnostic with no related spans.
pub open spec fn plain_diag(rule_id: Seq<char>, severity: Severity, source_id: SourceId, span: Span, message: Seq<char>, subject: Option<Seq<char>>) -> DiagV {
    DiagV { rule_id, severity, message, source_id, span, related: seq![], subject }
}

/// Build a diagnostic with no related spans.
pub fn diag(rule_id: &str, severity: Severity, source_id: SourceId, span: Span, message: String, subject: Option<String>) -> (r: Diagnostic)
    ensures
        r@ == plain_diag(
            rule_id@,
            severity,
            source_id,
            span,
            message@,
            match subject {
                Some(s) => Some(s@),
                None => None,
            },
        ),
{
    let r = Diagnostic {
        rule_id: crate::text::string_of(rule_id),
        severity,
        message,
        source_id,
        span,
        related: Vec::new(),
        subject,
    };
    assert(r@.related =~= seq![]);
    r
}

/// A parse or engine-level error.
#[derive(Clone, Debug)]
pub struct EngineError {
    pub kind: EngineErrorKind,
    pub message: String,
    pub source_id: Option<SourceId>,
    pub span: Option<Span>,
}

#[derive(Clone, Copy, Debug, PartialEq, Eq, Structural)]
pub enum EngineErrorKind {
    /// Input failed to parse; treated like findings (exit 1).
    Parse,
    /// Configuration is wrong; exit 2.
    Config,
    /// Plugin/infrastructure failure; exit 3.
    Plugin,
}

/// Sink rules emit into. Engine-provided.
pub trait Sink {
    fn emit(&self, diag: Diagnostic);
}

} // verus!
