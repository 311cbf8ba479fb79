//! Command-line decisions: argument parsing, config validation against the
//! loaded ruleset, and the lines the CLI prints.

use crate::config::RuleDirectives;
use crate::diagnostic::Severity;
use crate::plugin::RuleMeta;
use crate::registry::debug_quoted;
use crate::report::OutputFormat;
use crate::runner::{ExitCode, text_lt};
use crate::text::{chars_of, decimal, push_decimal, push_str, str_eq, string_of};
use vstd::prelude::*;

verus! {

#[derive(Clone, Copy, Debug, PartialEq, Eq, Structural)]
pub enum UsageKind {
    Check,
    TodoGenerate,
    TodoPrune,
    ListRules,
    Help,
    Version,
}

/// What the command line asks for.
#[derive(Debug)]
pub struct Usage {
    pub kind: UsageKind,
    pub positional: Vec<String>,
    pub format: OutputFormat,
    /// `--max-warnings N`: exit 0 when only warnings remain and their count
    /// is at most `N`. None: any finding fails the run.
    pub max_warnings: Option<usize>,
    /// `--pairs` (todo generate only): record per-(rule, path) budgets
    /// instead of per-finding identities.
    pub pairs: bool,
}

pub struct UsageV {
    pub kind: UsageKind,
    pub positional: Seq<Seq<char>>,
    pub format: OutputFormat,
    pub max_warnings: Option<usize>,
    pub pairs: bool,
}

impl Usage {
    pub open spec fn view(&self) -> UsageV {
        UsageV {
            kind: self.kind,
            positional: crate::text::views(self.positional@),
            format: self.format,
            max_warnings: self.max_warnings,
            pairs: self.pairs,
        }
    }
}

// ---------------------------------------------------------------------------
// Counts
// ---------------------------------------------------------------------------

pub open spec fn is_digit(c: char) -> bool {
    '0' <= c <= '9'
}

/// The value of a run of decimal digits.
pub open spec fn digits_value(s: Seq<char>) -> nat
    decreases s.len(),
{
    if s.len() == 0 {
        0
    } else {
        digits_value(s.drop_last()) * 10 + ((s.last() as u32) - 48) as nat
    }
}

/// A count as `usize::from_str` reads it: an optional `+`, then one or more
/// decimal digits, whose value fits in `usize`.
pub open spec fn parse_count(s: Seq<char>) -> Option<usize> {
    let d = count_digits(s);
    if d.len() > 0 && all_digits(d) && digits_value(d) <= usize::MAX {
        Some(digits_value(d) as usize)
    } else {
        None
    }
}

/// The digits of a count: without a leading `+`.
pub open spec fn count_digits(s: Seq<char>) -> Seq<char> {
    if s.len() > 0 && s[0] == '+' {
        s.drop_first()
    } else {
        s
    }
}

pub open spec fn all_digits(d: Seq<char>) -> bool {
    forall|i: int| 0 <= i < d.len() ==> is_digit(#[trigger] d[i])
}

pub fn parse_count_of(s: &str) -> (r: Option<usize>)
    ensures
        r == parse_count(s@),
{
    let cs = chars_of(s);
    let start: usize = if cs.len() > 0 && cs[0] == '+' { 1 } else { 0 };
    let ghost d = count_digits(s@);
    assert(d =~= cs@.subrange(start as int, cs@.len() as int));
    if start >= cs.len() {
        return None;
    }
    let mut v: usize = 0;
    let mut i = start;
    while i < cs.len()
        invariant
            start <= i <= cs@.len(),
            cs@ == s@,
            d == count_digits(s@),
            d.len() > 0,
            d == cs@.subrange(start as int, cs@.len() as int),
            forall|k: int| start <= k < i ==> is_digit(#[trigger] cs@[k]),
            v as nat == digits_value(cs@.subrange(start as int, i as int)),
        decreases cs@.len() - i,
    {
        let c = cs[i];
        if !('0' <= c && c <= '9') {
            proof {
                assert(!is_digit(d[i - start]));
                assert(!all_digits(d));
            }
            return None;
        }
        let digit = (c as u32 - 48) as usize;
        assert(cs@.subrange(start as int, i + 1).drop_last() =~= cs@.subrange(start as int, i as int));
        match v.checked_mul(10) {
            Some(m) => match m.checked_add(digit) {
                Some(n) => {
                    v = n;
                },
                None => {
                    proof {
                        if all_digits(d) {
                            lemma_digits_grow(d, i - start + 1);
                            assert(d.subrange(0, i - start + 1) =~= cs@.subrange(start as int, i + 1));
                        }
                    }
                    return None;
                },
            },
            None => {
                proof {
                    if all_digits(d) {
                        lemma_digits_grow(d, i - start + 1);
                        assert(d.subrange(0, i - start + 1) =~= cs@.subrange(start as int, i + 1));
                    }
                }
                return None;
            },
        }
        i = i + 1;
    }
    proof {
        assert forall|k: int| 0 <= k < d.len() implies is_digit(#[trigger] d[k]) by {
            assert(d[k] == cs@[start + k]);
        }
        assert(all_digits(d));
        assert(cs@.subrange(start as int, cs@.len() as int) =~= d);
    }
    Some(v)
}

/// The value of a digit prefix never exceeds the value of the whole.
proof fn lemma_digits_grow(d: Seq<char>, n: int)
    requires
        0 <= n <= d.len(),
        forall|i: int| 0 <= i < d.len() ==> is_digit(#[trigger] d[i]),
    ensures
        digits_value(d.subrange(0, n)) <= digits_value(d),
    decreases d.len() - n,
{
    if n < d.len() {
        lemma_digits_grow(d, n + 1);
        assert(d.subrange(0, n + 1).drop_last() =~= d.subrange(0, n));
    } else {
        assert(d.subrange(0, n) =~= d);
    }
}

// ---------------------------------------------------------------------------
// Arguments
// ---------------------------------------------------------------------------

/// Parsing state: the command so far, positional arguments, format, budget,
/// pair mode.
pub struct ArgState {
    pub kind: Option<UsageKind>,
    pub positional: Seq<Seq<char>>,
    pub format: Option<OutputFormat>,
    pub max_warnings: Option<usize>,
    pub pairs: bool,
}

pub open spec fn finish(st: ArgState) -> UsageV {
    UsageV {
        kind: match st.kind {
            Some(k) => k,
            None => UsageKind::Check,
        },
        positional: st.positional,
        format: match st.format {
            Some(f) => f,
            None => OutputFormat::Text,
        },
        max_warnings: st.max_warnings,
        pairs: st.pairs,
    }
}

pub open spec fn only(kind: UsageKind) -> UsageV {
    UsageV { kind, positional: seq![], format: OutputFormat::Text, max_warnings: None, pairs: false }
}

pub open spec fn format_error(v: Seq<char>) -> Seq<char> {
    "unknown output format \""@ + v + "\" (text, json)"@
}

pub open spec fn count_error(v: Seq<char>) -> Seq<char> {
    "--max-warnings must be a count, got "@ + debug_quoted(v)
}

pub open spec fn starts_with(s: Seq<char>, p: Seq<char>) -> bool {
    s.len() >= p.len() && s.subrange(0, p.len() as int) == p
}

/// The command line from argument `i` on.
pub open spec fn parse_from(args: Seq<Seq<char>>, i: int, st: ArgState) -> Result<UsageV, (Seq<char>, ExitCode)>
    decreases args.len() - i,
{
    if i < 0 || i >= args.len() {
        Ok(finish(st))
    } else {
        let a = args[i];
        if a == "--help"@ || a == "-h"@ {
            Ok(only(UsageKind::Help))
        } else if a == "--version"@ || a == "-V"@ {
            Ok(only(UsageKind::Version))
        } else if a == "--format"@ || a == "-f"@ {
            if i + 1 >= args.len() {
                Err(("--format needs a value"@, ExitCode::Config))
            } else {
                match OutputFormat::parse_spec(args[i + 1]) {
                    Some(f) => parse_from(args, i + 2, ArgState { format: Some(f), ..st }),
                    None => Err((format_error(args[i + 1]), ExitCode::Config)),
                }
            }
        } else if a == "--format=json"@ {
            parse_from(args, i + 1, ArgState { format: Some(OutputFormat::Json), ..st })
        } else if a == "--format=text"@ {
            parse_from(args, i + 1, ArgState { format: Some(OutputFormat::Text), ..st })
        } else if a == "--"@ {
            parse_from(args, i + 1, st)
        } else if a == "--pairs"@ {
            parse_from(args, i + 1, ArgState { pairs: true, ..st })
        } else if a == "--max-warnings"@ {
            if i + 1 >= args.len() {
                Err(("--max-warnings needs a count"@, ExitCode::Config))
            } else {
                match parse_count(args[i + 1]) {
                    Some(n) => parse_from(args, i + 2, ArgState { max_warnings: Some(n), ..st }),
                    None => Err((count_error(args[i + 1]), ExitCode::Config)),
                }
            }
        } else if starts_with(a, "--max-warnings="@) {
            let v = a.subrange(15, a.len() as int);
            match parse_count(v) {
                Some(n) => parse_from(args, i + 1, ArgState { max_warnings: Some(n), ..st }),
                None => Err((count_error(v), ExitCode::Config)),
            }
        } else if starts_with(a, "-"@) && a != "-"@ {
            Err(("unknown argument "@ + debug_quoted(a) + "; use `-h` for usage"@, ExitCode::Config))
        } else if (a == "check"@ || a == "todo"@ || a == "list-rules"@) && st.kind is None {
            if a == "todo"@ {
                if i + 1 < args.len() && args[i + 1] == "generate"@ {
                    parse_from(args, i + 2, ArgState { kind: Some(UsageKind::TodoGenerate), ..st })
                } else if i + 1 < args.len() && args[i + 1] == "prune"@ {
                    parse_from(args, i + 2, ArgState { kind: Some(UsageKind::TodoPrune), ..st })
                } else {
                    Err(("todo requires `generate` or `prune`"@, ExitCode::Config))
                }
            } else if a == "check"@ {
                parse_from(args, i + 1, ArgState { kind: Some(UsageKind::Check), ..st })
            } else {
                parse_from(args, i + 1, ArgState { kind: Some(UsageKind::ListRules), ..st })
            }
        } else {
            parse_from(args, i + 1, ArgState { positional: st.positional.push(a), ..st })
        }
    }
}

pub open spec fn parse_args_spec(args: Seq<Seq<char>>) -> Result<UsageV, (Seq<char>, ExitCode)> {
    parse_from(args, 0, ArgState { kind: None, positional: seq![], format: None, max_warnings: None, pairs: false })
}

fn has_prefix(s: &str, p: &str) -> (r: bool)
    ensures
        r == starts_with(s@, p@),
{
    let a = chars_of(s);
    let b = chars_of(p);
    if a.len() < b.len() {
        return false;
    }
    let mut i: usize = 0;
    while i < b.len()
        invariant
            i <= b@.len() <= a@.len(),
            a@ == s@,
            b@ == p@,
            forall|k: int| 0 <= k < i ==> a@[k] == b@[k],
        decreases b@.len() - i,
    {
        if a[i] != b[i] {
            assert(s@.subrange(0, p@.len() as int)[i as int] != p@[i as int]);
            return false;
        }
        i = i + 1;
    }
    assert(s@.subrange(0, p@.len() as int) =~= p@);
    true
}

fn debug_text(s: &str) -> (r: String)
    ensures
        r@ == debug_quoted(s@),
{
    crate::registry::debug_str(s)
}

pub open spec fn state_of(kind: Option<UsageKind>, positional: Seq<String>, format: Option<OutputFormat>, max_warnings: Option<usize>, pairs: bool) -> ArgState {
    ArgState { kind, positional: crate::text::views(positional), format, max_warnings, pairs }
}

fn usage_only(kind: UsageKind) -> (r: Usage)
    ensures
        r@ == only(kind),
{
    let r = Usage { kind, positional: Vec::new(), format: OutputFormat::Text, max_warnings: None, pairs: false };
    assert(r@.positional =~= seq![]);
    r
}

/// Parse the command line (program name excluded). Errors carry the message
/// and the exit code (configuration errors: 2).
pub fn parse_args(args: &Vec<String>) -> (r: Result<Usage, (String, ExitCode)>)
    ensures
        match r {
            Ok(u) => parse_args_spec(crate::text::views(args@)) == Ok::<UsageV, (Seq<char>, ExitCode)>(u@),
            Err((m, c)) => parse_args_spec(crate::text::views(args@)) == Err::<UsageV, (Seq<char>, ExitCode)>((m@, c)),
        },
{
    let ghost av = crate::text::views(args@);
    let mut kind: Option<UsageKind> = None;
    let mut positional: Vec<String> = Vec::new();
    let mut format: Option<OutputFormat> = None;
    let mut max_warnings: Option<usize> = None;
    let mut pairs = false;
    let mut i: usize = 0;
    assert(crate::text::views(positional@) =~= seq![]);
    while i < args.len()
        invariant
            i <= args@.len(),
            av == crate::text::views(args@),
            parse_args_spec(av) == parse_from(av, i as int, state_of(kind, positional@, format, max_warnings, pairs)),
        decreases args@.len() - i,
    {
        let a = args[i].as_str();
        if str_eq(a, "--help") || str_eq(a, "-h") {
            return Ok(usage_only(UsageKind::Help));
        } else if str_eq(a, "--version") || str_eq(a, "-V") {
            return Ok(usage_only(UsageKind::Version));
        } else if str_eq(a, "--format") || str_eq(a, "-f") {
            if i + 1 >= args.len() {
                return Err((string_of("--format needs a value"), ExitCode::Config));
            }
            let v = args[i + 1].as_str();
            match OutputFormat::parse(v) {
                Some(f) => {
                    format = Some(f);
                },
                None => {
                    let mut m = string_of("unknown output format \"");
                    push_str(&mut m, v);
                    push_str(&mut m, "\" (text, json)");
                    assert(m@ =~= format_error(av[i + 1]));
                    return Err((m, ExitCode::Config));
                },
            }
            i = i + 2;
        } else if str_eq(a, "--format=json") {
            format = Some(OutputFormat::Json);
            i = i + 1;
        } else if str_eq(a, "--format=text") {
            format = Some(OutputFormat::Text);
            i = i + 1;
        } else if str_eq(a, "--") {
            i = i + 1;
        } else if str_eq(a, "--pairs") {
            pairs = true;
            i = i + 1;
        } else if str_eq(a, "--max-warnings") {
            if i + 1 >= args.len() {
                return Err((string_of("--max-warnings needs a count"), ExitCode::Config));
            }
            let v = args[i + 1].as_str();
            match parse_count_of(v) {
                Some(n) => {
                    max_warnings = Some(n);
                },
                None => {
                    let mut m = string_of("--max-warnings must be a count, got ");
                    let q = debug_text(v);
                    push_str(&mut m, q.as_str());
                    assert(m@ =~= count_error(av[i + 1]));
                    return Err((m, ExitCode::Config));
                },
            }
            i = i + 2;
        } else if has_prefix(a, "--max-warnings=") {
            let cs = chars_of(a);
            proof {
                reveal_strlit("--max-warnings=");
            }
            let v = crate::text::string_from_chars(&cs, 15, cs.len());
            match parse_count_of(v.as_str()) {
                Some(n) => {
                    max_warnings = Some(n);
                },
                None => {
                    let mut m = string_of("--max-warnings must be a count, got ");
                    let q = debug_text(v.as_str());
                    push_str(&mut m, q.as_str());
                    assert(m@ =~= count_error(av[i as int].subrange(15, av[i as int].len() as int)));
                    return Err((m, ExitCode::Config));
                },
            }
            i = i + 1;
        } else if has_prefix(a, "-") && !str_eq(a, "-") {
            let mut m = string_of("unknown argument ");
            let q = debug_text(a);
            push_str(&mut m, q.as_str());
            push_str(&mut m, "; use `-h` for usage");
            return Err((m, ExitCode::Config));
        } else if (str_eq(a, "check") || str_eq(a, "todo") || str_eq(a, "list-rules")) && kind.is_none() {
            if str_eq(a, "todo") {
                if i + 1 < args.len() && str_eq(args[i + 1].as_str(), "generate") {
                    kind = Some(UsageKind::TodoGenerate);
                } else if i + 1 < args.len() && str_eq(args[i + 1].as_str(), "prune") {
                    kind = Some(UsageKind::TodoPrune);
                } else {
                    return Err((string_of("todo requires `generate` or `prune`"), ExitCode::Config));
                }
                i = i + 2;
            } else if str_eq(a, "check") {
                kind = Some(UsageKind::Check);
                i = i + 1;
            } else {
                kind = Some(UsageKind::ListRules);
                i = i + 1;
            }
        } else {
            let ghost before = crate::text::views(positional@);
            positional.push(args[i].clone());
            assert(crate::text::views(positional@) =~= before.push(av[i as int]));
            i = i + 1;
        }
    }
    let u = Usage {
        kind: match kind {
            Some(k) => k,
            None => UsageKind::Check,
        },
        positional,
        format: match format {
            Some(f) => f,
            None => OutputFormat::Text,
        },
        max_warnings,
        pairs,
    };
    Ok(u)
}

// ---------------------------------------------------------------------------
// Config validation and printed lines
// ---------------------------------------------------------------------------

pub open spec fn registered(ids: Seq<String>, id: Seq<char>) -> bool {
    exists|k: int| 0 <= k < ids.len() && ids[k]@ == id
}

/// A configured rule id no registered rule has.
pub open spec fn unknown_at(cfg: RuleDirectives, ids: Seq<String>, k: int) -> bool {
    0 <= k < cfg.entries@.len() && !registered(ids, cfg.entries@[k].0@)
}

pub open spec fn unknown_rule_message(id: Seq<char>) -> Seq<char> {
    "unknown rule \""@ + id + "\" in config; run `omni-lint list-rules` for the registered set"@
}

fn is_registered(ids: &Vec<String>, id: &str) -> (r: bool)
    ensures
        r == registered(ids@, id@),
{
    let mut i: usize = 0;
    while i < ids.len()
        invariant
            i <= ids@.len(),
            forall|k: int| 0 <= k < i ==> ids@[k]@ != id@,
        decreases ids@.len() - i,
    {
        if str_eq(ids[i].as_str(), id) {
            return true;
        }
        i = i + 1;
    }
    false
}

/// Config validation: a configured rule id that no registered rule has is a
/// configuration error. The error names the first unknown id in text order.
pub fn unknown_rule_error(cfg: &RuleDirectives, ids: &Vec<String>) -> (r: Option<String>)
    ensures
        r is None <==> forall|k: int| 0 <= k < cfg.entries@.len() ==> !unknown_at(*cfg, ids@, k),
        r matches Some(m) ==> exists|k: int|
            unknown_at(*cfg, ids@, k) && m@ == unknown_rule_message(cfg.entries@[k].0@) && forall|j: int|
                unknown_at(*cfg, ids@, j) ==> !text_lt(cfg.entries@[j].0@, cfg.entries@[k].0@),
{
    let mut best: Option<usize> = None;
    let mut i: usize = 0;
    while i < cfg.entries.len()
        invariant
            i <= cfg.entries@.len(),
            best is None <==> forall|k: int| 0 <= k < i ==> !unknown_at(*cfg, ids@, k),
            best matches Some(b) ==> b < i && unknown_at(*cfg, ids@, b as int) && forall|j: int|
                0 <= j < i && unknown_at(*cfg, ids@, j) ==> !text_lt(cfg.entries@[j].0@, cfg.entries@[b as int].0@),
        decreases cfg.entries@.len() - i,
    {
        let id = cfg.entries[i].0.as_str();
        if !is_registered(ids, id) {
            assert(unknown_at(*cfg, ids@, i as int));
            match best {
                None => {
                    proof {
                        lemma_text_lt_irrefl(cfg.entries@[i as int].0@);
                    }
                    best = Some(i);
                },
                Some(b) => {
                    if crate::runner::text_less_pub(id, cfg.entries[b].0.as_str()) {
                        proof {
                            lemma_text_lt_order(cfg.entries@[i as int].0@, cfg.entries@[b as int].0@);
                            assert forall|j: int| 0 <= j < i + 1 && unknown_at(*cfg, ids@, j) implies !text_lt(
                                cfg.entries@[j].0@,
                                cfg.entries@[i as int].0@,
                            ) by {
                                if j < i {
                                    assert(!text_lt(cfg.entries@[j].0@, cfg.entries@[b as int].0@));
                                    lemma_text_lt_trans_neg(cfg.entries@[j].0@, cfg.entries@[i as int].0@, cfg.entries@[b as int].0@);
                                } else {
                                    lemma_text_lt_irrefl(cfg.entries@[i as int].0@);
                                }
                            }
                        }
                        best = Some(i);
                    }
                },
            }
        } else {
            assert(!unknown_at(*cfg, ids@, i as int));
        }
        i = i + 1;
    }
    match best {
        None => None,
        Some(b) => {
            let mut m = string_of("unknown rule \"");
            push_str(&mut m, cfg.entries[b].0.as_str());
            push_str(&mut m, "\" in config; run `omni-lint list-rules` for the registered set");
            assert(m@ =~= unknown_rule_message(cfg.entries@[b as int].0@));
            Some(m)
        },
    }
}

proof fn lemma_text_lt_irrefl(a: Seq<char>)
    ensures
        !text_lt(a, a),
    decreases a.len(),
{
    if a.len() > 0 {
        lemma_text_lt_irrefl(a.drop_first());
    }
}

/// `text_lt` is asymmetric.
proof fn lemma_text_lt_order(a: Seq<char>, b: Seq<char>)
    ensures
        text_lt(a, b) ==> !text_lt(b, a),
    decreases a.len(),
{
    if a.len() > 0 && b.len() > 0 && a[0] == b[0] {
        lemma_text_lt_order(a.drop_first(), b.drop_first());
    }
}

/// If `a` does not precede `c` and `b` precedes `c`, then `a` does not precede `b`.
proof fn lemma_text_lt_trans_neg(a: Seq<char>, b: Seq<char>, c: Seq<char>)
    requires
        !text_lt(a, c),
        text_lt(b, c),
    ensures
        !text_lt(a, b),
    decreases a.len(),
{
    if a.len() > 0 && b.len() > 0 && c.len() > 0 && a[0] == b[0] && b[0] == c[0] {
        lemma_text_lt_trans_neg(a.drop_first(), b.drop_first(), c.drop_first());
    }
}

/// The closing line of a text report: files, findings, baselined.
pub open spec fn summary_text(files: nat, findings: nat, baselined: nat) -> Seq<char> {
    decimal(files) + ": "@ + decimal(findings) + " "@ + (if findings == 1 && baselined == 0 {
        "finding"@
    } else {
        "findings"@
    }) + ", "@ + decimal(baselined) + " baselined."@
}

pub fn summary_line(files: usize, findings: usize, baselined: usize) -> (r: String)
    ensures
        r@ == summary_text(files as nat, findings as nat, baselined as nat),
{
    let mut s = String::new();
    push_decimal(&mut s, files as u64);
    push_str(&mut s, ": ");
    push_decimal(&mut s, findings as u64);
    push_str(&mut s, " ");
    if findings == 1 && baselined == 0 {
        push_str(&mut s, "finding");
    } else {
        push_str(&mut s, "findings");
    }
    push_str(&mut s, ", ");
    push_decimal(&mut s, baselined as u64);
    push_str(&mut s, " baselined.");
    assert(s@ =~= summary_text(files as nat, findings as nat, baselined as nat));
    s
}

/// One line of `list-rules`: id, description, default severity, and the
/// capability read (`-` for none).
pub open spec fn rule_line_text(m: RuleMeta) -> Seq<char> {
    m.id@ + ": "@ + m.description@ + " (default severity: "@ + m.default_severity.name() + ", reads: "@ + (if m.requires@.len()
        == 0 {
        "-"@
    } else {
        m.requires@
    }) + ")"@
}

pub fn rule_line(m: &RuleMeta) -> (r: String)
    ensures
        r@ == rule_line_text(*m),
{
    let mut s = string_of(m.id);
    push_str(&mut s, ": ");
    push_str(&mut s, m.description);
    push_str(&mut s, " (default severity: ");
    push_str(&mut s, m.default_severity.as_str());
    push_str(&mut s, ", reads: ");
    if m.requires.is_empty() {
        push_str(&mut s, "-");
    } else {
        push_str(&mut s, m.requires);
    }
    push_str(&mut s, ")");
    assert(s@ =~= rule_line_text(*m));
    s
}

/// What `todo prune` reports.
pub open spec fn pruned_text(removed: nat) -> Seq<char> {
    "pruned "@ + decimal(removed) + " stale baseline entr"@ + if removed == 1 { "y"@ } else { "ies"@ }
}

pub fn pruned_line(removed: usize) -> (r: String)
    ensures
        r@ == pruned_text(removed as nat),
{
    let mut s = string_of("pruned ");
    push_decimal(&mut s, removed as u64);
    push_str(&mut s, " stale baseline entr");
    if removed == 1 {
        push_str(&mut s, "y");
    } else {
        push_str(&mut s, "ies");
    }
    assert(s@ =~= pruned_text(removed as nat));
    s
}

/// What `todo generate` reports.
pub open spec fn recorded_text(count: nat, pairs: bool, path: Seq<char>) -> Seq<char> {
    "recorded "@ + decimal(count) + " findings "@ + (if pairs {
        "as (rule, path) pairs"@
    } else {
        "with per-finding identity"@
    }) + " in "@ + path
}

pub fn recorded_line(count: usize, pairs: bool, path: &str) -> (r: String)
    ensures
        r@ == recorded_text(count as nat, pairs, path@),
{
    let mut s = string_of("recorded ");
    push_decimal(&mut s, count as u64);
    push_str(&mut s, " findings ");
    if pairs {
        push_str(&mut s, "as (rule, path) pairs");
    } else {
        push_str(&mut s, "with per-finding identity");
    }
    push_str(&mut s, " in ");
    push_str(&mut s, path);
    assert(s@ =~= recorded_text(count as nat, pairs, path@));
    s
}

} // verus!
