//! Diagnostic rendering: compact text, and the records of the JSON report.
//!
//! JSON is the structured format for tooling; text is the human default.

use crate::baseline::Reportable;
use crate::diagnostic::Severity;
use crate::source::{line_end, line_index, line_start, SourceFile};
use crate::text::{decimal, push_char, push_decimal, push_str};
use vstd::prelude::*;
use vstd::utf8::*;

verus! {

#[derive(Clone, Copy, Debug, PartialEq, Eq, Structural)]
pub enum OutputFormat {
    Text,
    Json,
}

impl OutputFormat {
    pub open spec fn parse_spec(s: Seq<char>) -> Option<OutputFormat> {
        if s == "text"@ {
            Some(OutputFormat::Text)
        } else if s == "json"@ {
            Some(OutputFormat::Json)
        } else {
            None
        }
    }

    pub fn parse(s: &str) -> (r: Option<OutputFormat>)
        ensures
            r == OutputFormat::parse_spec(s@),
    {
        if crate::text::str_eq(s, "text") {
            Some(OutputFormat::Text)
        } else if crate::text::str_eq(s, "json") {
            Some(OutputFormat::Json)
        } else {
            None
        }
    }
}

/// A related location of a finding, resolved for the JSON report.
#[derive(Clone, Debug)]
pub struct RelatedJson {
    pub message: String,
    pub path: String,
    pub line: u32,
    pub column: u32,
}

/// One finding of the JSON report.
#[derive(Clone, Debug)]
pub struct DiagnosticJson {
    pub rule_id: String,
    pub severity: String,
    pub path: String,
    pub line: u32,
    pub column: u32,
    pub message: String,
    /// Left out of the JSON when absent.
    pub subject: Option<String>,
    /// Left out of the JSON when empty.
    pub related: Vec<RelatedJson>,
}

/// The JSON report: file count, findings, and stable totals per severity.
#[derive(Clone, Debug)]
pub struct ReportJson {
    pub files: usize,
    pub findings: Vec<DiagnosticJson>,
    pub totals: crate::baseline::SeverityTotals,
}

/// The totals as a report lists them: each severity with at least one
/// finding and its count, in severity order (info, warning, error, off).
pub open spec fn total_entries_spec(t: crate::baseline::SeverityTotals) -> Seq<(Severity, usize)> {
    let all = seq![(Severity::Info, t.info), (Severity::Warning, t.warning), (Severity::Error, t.error), (Severity::Off, t.off)];
    all.filter(|e: (Severity, usize)| e.1 > 0)
}

pub fn total_entries(t: &crate::baseline::SeverityTotals) -> (r: Vec<(Severity, usize)>)
    ensures
        r@ == total_entries_spec(*t),
{
    let all = [(Severity::Info, t.info), (Severity::Warning, t.warning), (Severity::Error, t.error), (Severity::Off, t.off)];
    let ghost s = seq![(Severity::Info, t.info), (Severity::Warning, t.warning), (Severity::Error, t.error), (Severity::Off, t.off)];
    assert(all@ == s);
    let mut out: Vec<(Severity, usize)> = Vec::new();
    let mut i: usize = 0;
    assert(s.take(0) =~= Seq::<(Severity, usize)>::empty());
    proof {
        reveal(Seq::filter);
    }
    while i < 4
        invariant
            i <= 4,
            all@ == s,
            s.len() == 4,
            out@ == s.take(i as int).filter(|e: (Severity, usize)| e.1 > 0),
        decreases 4 - i,
    {
        proof {
            reveal(Seq::filter);
            assert(s.take(i + 1).drop_last() =~= s.take(i as int));
            assert(s.take(i + 1).last() == s[i as int]);
        }
        if all[i].1 > 0 {
            out.push(all[i]);
        }
        i = i + 1;
    }
    assert(s.take(4) =~= s);
    out
}

// ---------------------------------------------------------------------------
// Text rendering
// ---------------------------------------------------------------------------

/// `n` copies of `c`.
pub open spec fn repeat(c: char, n: nat) -> Seq<char> {
    Seq::new(n, |i: int| c)
}

/// `s` right-aligned in a field of width 4 (as `{:>4}` pads).
pub open spec fn pad4(s: Seq<char>) -> Seq<char> {
    if s.len() >= 4 {
        s
    } else {
        repeat(' ', (4 - s.len()) as nat) + s
    }
}

/// Number of leading space or tab bytes.
pub open spec fn leading_blanks(b: Seq<u8>) -> nat
    decreases b.len(),
{
    if b.len() > 0 && (b[0] == 32u8 || b[0] == 9u8) {
        1 + leading_blanks(b.drop_first())
    } else {
        0
    }
}

/// The first line of a text finding: `path:line:col: severity [rule]: message`.
pub open spec fn header_text(r: Reportable) -> Seq<char> {
    r.located.path@ + ":"@ + decimal(r.located.line as nat) + ":"@ + decimal(r.located.column as nat)
        + ": "@ + r.diag.severity.name() + " ["@ + r.diag.rule_id@ + "]: "@ + r.diag.message@ + "\n"@
}

/// The text of the line holding `offset`, as `line_text` returns it.
pub open spec fn line_text_of(b: Seq<u8>, offset: int) -> Seq<char> {
    let part = b.subrange(line_start(b, offset) as int, line_end(b, offset));
    if valid_utf8(part) {
        decode_utf8(part)
    } else {
        Seq::<char>::empty()
    }
}

/// The two excerpt lines under a finding: the source line with its number,
/// then carets under the span (indentation before the line's text is not
/// counted in the caret column).
pub open spec fn excerpt_text(r: Reportable, b: Seq<u8>) -> Seq<char> {
    let start = r.diag.span.start as int;
    let end = if r.diag.span.end >= r.diag.span.start { r.diag.span.end as int } else { start };
    let text = line_text_of(b, start);
    let d = start - line_start(b, start);
    let lead = leading_blanks(encode_utf8(text)) as int;
    let col = if lead < d { d - lead } else { 0 };
    let len = if end - start > 1 { end - start } else { 1 };
    excerpt_of(text, (line_index(b, start) + 1) as nat, col as nat, len as nat)
}

/// A finding in text form: the header line, then an excerpt when the line
/// holding the span's start is non-empty text.
pub open spec fn format_text_spec(r: Reportable, b: Seq<u8>) -> Seq<char> {
    let text = line_text_of(b, r.diag.span.start as int);
    if text.len() == 0 {
        header_text(r)
    } else {
        header_text(r) + excerpt_text(r, b)
    }
}

fn push_repeat(s: &mut String, c: char, n: u32)
    ensures
        final(s)@ == old(s)@ + repeat(c, n as nat),
{
    let mut i: u32 = 0;
    while i < n
        invariant
            i <= n,
            s@ == old(s)@ + repeat(c, i as nat),
        decreases n - i,
    {
        push_char(s, c);
        assert(old(s)@ + repeat(c, (i + 1) as nat) =~= (old(s)@ + repeat(c, i as nat)).push(c));
        i = i + 1;
    }
}

fn count_leading_blanks(b: &[u8]) -> (r: usize)
    ensures
        r == leading_blanks(b@),
{
    let mut i: usize = 0;
    assert(b@.subrange(0, b@.len() as int) =~= b@);
    while i < b.len() && (b[i] == 32 || b[i] == 9)
        invariant
            i <= b@.len(),
            leading_blanks(b@) == i + leading_blanks(b@.subrange(i as int, b@.len() as int)),
        decreases b.len() - i,
    {
        assert(b@.subrange(i as int, b@.len() as int).drop_first() =~= b@.subrange(i + 1, b@.len() as int));
        i = i + 1;
    }
    i
}

proof fn lemma_decimal_width(n: nat)
    ensures
        decimal(n).len() >= 1,
        n < 10 ==> decimal(n).len() == 1,
        10 <= n < 100 ==> decimal(n).len() == 2,
        100 <= n < 1000 ==> decimal(n).len() == 3,
        1000 <= n ==> decimal(n).len() >= 4,
    decreases n,
{
    if n >= 10 {
        lemma_decimal_width(n / 10);
    }
}

fn header(report: &Reportable) -> (r: String)
    ensures
        r@ == header_text(*report),
{
    let loc = &report.located;
    let mut out = String::new();
    push_str(&mut out, loc.path.as_str());
    push_str(&mut out, ":");
    push_decimal(&mut out, loc.line as u64);
    push_str(&mut out, ":");
    push_decimal(&mut out, loc.column as u64);
    push_str(&mut out, ": ");
    push_str(&mut out, report.diag.severity.as_str());
    push_str(&mut out, " [");
    push_str(&mut out, report.diag.rule_id.as_str());
    push_str(&mut out, "]: ");
    push_str(&mut out, report.diag.message.as_str());
    push_str(&mut out, "\n");
    assert(out@ =~= header_text(*report));
    out
}

/// The excerpt lines for a line of text `text` numbered `line_no`.
pub open spec fn excerpt_of(text: Seq<char>, line_no: nat, col: nat, len: nat) -> Seq<char> {
    "   |\n"@ + pad4(decimal(line_no)) + " | "@ + text + "\n"@ + "   | "@ + repeat(' ', col)
        + repeat('^', len) + "\n"@
}

#[verifier::rlimit(30)]
fn push_excerpt(out: &mut String, text: &str, line_no: u32, col: u32, len: u32)
    ensures
        final(out)@ == old(out)@ + excerpt_of(text@, line_no as nat, col as nat, len as nat),
{
    push_str(out, "   |\n");
    proof {
        lemma_decimal_width(line_no as nat);
    }
    let pad: u32 = if line_no < 10 {
        3
    } else if line_no < 100 {
        2
    } else if line_no < 1000 {
        1
    } else {
        0
    };
    push_repeat(out, ' ', pad);
    push_decimal(out, line_no as u64);
    assert(repeat(' ', pad as nat) + decimal(line_no as nat) =~= pad4(decimal(line_no as nat)));
    push_str(out, " | ");
    push_str(out, text);
    push_str(out, "\n");
    push_str(out, "   | ");
    push_repeat(out, ' ', col);
    push_repeat(out, '^', len);
    push_str(out, "\n");
    assert(out@ =~= old(out)@ + excerpt_of(text@, line_no as nat, col as nat, len as nat));
}

/// Render one finding as text, with a source excerpt under it.
pub fn format_text(report: &Reportable, source: &SourceFile) -> (r: String)
    requires
        source.wf(),
    ensures
        r@ == format_text_spec(*report, source.bytes@),
{
    let mut out = header(report);
    let (line_text, line_no) = source.line_text(report.diag.span.start);
    if !line_text.is_empty() {
        let ls = source.line_span_start(report.diag.span.start);
        let start = report.diag.span.start;
        let end = if report.diag.span.end >= start { report.diag.span.end } else { start };
        let leading = count_leading_blanks(line_text.as_bytes());
        let d = start - ls;
        let caret_col = if leading < d as usize { d - leading as u32 } else { 0 };
        let caret_len = if end - start > 1 { end - start } else { 1 };
        push_excerpt(&mut out, line_text, line_no, caret_col, caret_len);
    }
    out
}

// ---------------------------------------------------------------------------
// The JSON report
// ---------------------------------------------------------------------------

/// Where a related span is: its file's path, 1-based line and column; an
/// unknown file gives an empty path and zeros.
pub open spec fn related_place(sources: Seq<SourceFile>, rel: crate::diagnostic::RelatedSpan) -> (Seq<char>, u32, u32) {
    match crate::runner::source_index(sources, rel.source_id) {
        Some(i) => {
            let b = sources[i].bytes@;
            let st = rel.span.start as int;
            (sources[i].path@, (line_index(b, st) + 1) as u32, (st - line_start(b, st) + 1) as u32)
        },
        None => (Seq::<char>::empty(), 0u32, 0u32),
    }
}

/// A related span can be located: its file (when known) is well formed and
/// its column fits.
pub open spec fn related_locatable(sources: Seq<SourceFile>, rel: crate::diagnostic::RelatedSpan) -> bool {
    match crate::runner::source_index(sources, rel.source_id) {
        Some(i) => sources[i].wf() && rel.span.start - line_start(sources[i].bytes@, rel.span.start as int) + 1 <= u32::MAX,
        None => true,
    }
}

/// The JSON record of one finding matches it.
pub open spec fn json_of(sources: Seq<SourceFile>, r: Reportable, j: DiagnosticJson) -> bool {
    &&& j.rule_id@ == r.diag.rule_id@
    &&& j.severity@ == r.diag.severity.name()
    &&& j.path@ == r.path@
    &&& j.line == r.located.line
    &&& j.column == r.located.column
    &&& j.message@ == r.diag.message@
    &&& crate::graphql::parser::opt_view(j.subject) == crate::graphql::parser::opt_view(r.diag.subject)
    &&& j.related@.len() == r.diag.related@.len()
    &&& forall|k: int|
        0 <= k < j.related@.len() ==> {
            let (p, l, c) = related_place(sources, r.diag.related@[k]);
            &&& (#[trigger] j.related@[k]).message@ == r.diag.related@[k].message@
            &&& j.related@[k].path@ == p
            &&& j.related@[k].line == l
            &&& j.related@[k].column == c
        }
}

fn finding_json(r: &Reportable, sources: &Vec<SourceFile>) -> (j: DiagnosticJson)
    requires
        forall|k: int| 0 <= k < r.diag.related@.len() ==> related_locatable(sources@, #[trigger] r.diag.related@[k]),
    ensures
        json_of(sources@, *r, j),
{
    let mut related: Vec<RelatedJson> = Vec::new();
    let mut k: usize = 0;
    while k < r.diag.related.len()
        invariant
            k <= r.diag.related@.len(),
            forall|q: int| 0 <= q < r.diag.related@.len() ==> related_locatable(sources@, #[trigger] r.diag.related@[q]),
            related@.len() == k,
            forall|q: int|
                0 <= q < k ==> {
                    let (p, l, c) = related_place(sources@, r.diag.related@[q]);
                    &&& (#[trigger] related@[q]).message@ == r.diag.related@[q].message@
                    &&& related@[q].path@ == p
                    &&& related@[q].line == l
                    &&& related@[q].column == c
                },
        decreases r.diag.related@.len() - k,
    {
        let rel = &r.diag.related[k];
        assert(related_locatable(sources@, r.diag.related@[k as int]));
        let x = match crate::runner::find_source(sources, rel.source_id) {
            Some(i) => {
                let loc = sources[i].locate(rel.span);
                RelatedJson { message: rel.message.clone(), path: loc.path, line: loc.line, column: loc.column }
            },
            None => RelatedJson { message: rel.message.clone(), path: String::new(), line: 0, column: 0 },
        };
        related.push(x);
        k = k + 1;
    }
    let subject = crate::text::copy_opt_string(&r.diag.subject);
    DiagnosticJson {
        rule_id: r.diag.rule_id.clone(),
        severity: crate::text::string_of(r.diag.severity.as_str()),
        path: r.path.clone(),
        line: r.located.line,
        column: r.located.column,
        message: r.diag.message.clone(),
        subject,
        related,
    }
}

/// The JSON report of a run: the file count, each finding as a record (its
/// related spans located in their files), and the totals.
pub fn report_json(files: usize, items: &Vec<Reportable>, sources: &Vec<SourceFile>, totals: crate::baseline::SeverityTotals) -> (r: ReportJson)
    requires
        forall|i: int, k: int|
            0 <= i < items@.len() && 0 <= k < items@[i].diag.related@.len() ==> related_locatable(
                sources@,
                #[trigger] items@[i].diag.related@[k],
            ),
    ensures
        r.files == files,
        r.totals == totals,
        r.findings@.len() == items@.len(),
        forall|i: int| 0 <= i < items@.len() ==> json_of(sources@, items@[i], #[trigger] r.findings@[i]),
{
    let mut findings: Vec<DiagnosticJson> = Vec::new();
    let mut i: usize = 0;
    while i < items.len()
        invariant
            i <= items@.len(),
            forall|a: int, k: int|
                0 <= a < items@.len() && 0 <= k < items@[a].diag.related@.len() ==> related_locatable(
                    sources@,
                    #[trigger] items@[a].diag.related@[k],
                ),
            findings@.len() == i,
            forall|q: int| 0 <= q < i ==> json_of(sources@, items@[q], #[trigger] findings@[q]),
        decreases items@.len() - i,
    {
        let j = finding_json(&items[i], sources);
        findings.push(j);
        i = i + 1;
    }
    ReportJson { files, findings, totals }
}

} // verus!
