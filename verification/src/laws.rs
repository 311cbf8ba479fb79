//! Properties of the library as a whole: what the baseline promises, what
//! the exit policy and pruning keep, what the sandbox contract guarantees of
//! guest output, how the rules' findings are shaped, and what a run reports
//! (in order, without marked, baselined or turned-off findings).

use crate::baseline::{entry_of, recorded_count, Baseline, BaselineEntry, BaselinePair, PairKey};
use crate::diagnostic::{DiagV, Diagnostic, Severity};
use crate::baseline::SeverityTotals;
use crate::runner::{entry_key, exit_policy, is_live, live_entries, live_key, ExitCode};
use crate::wasm::merge::{add_new, LeafV};
use crate::wasm::rule::{finding_output, run_outputs, RuleFinding, RuleRun};
use crate::wasm::session::{clamped, MAX_SPAN_OFFSET};
use crate::graphql::model::SchemaModel;
use crate::graphql::rules::unused_findings;
use crate::baseline::Reportable;
use crate::runner::{insert_sorted, lemma_text_lt_irrefl, lemma_text_lt_total, lemma_text_lt_trans, report_lt, sort_reports, text_lt};
use crate::runner::{baseline_pass, final_findings, is_marked, rule_runs_spec, unmarked};
use crate::runner::{kept_plugin_findings, kept_ws, report_fingerprint, reportable_of, with_severity, ws_resolved};
use crate::runner::{meta_for, rule_severity, fingerprint_spec};
use crate::source::clamp;
use crate::diagnostic::Span;
use crate::diagnostic::PathDiagnostic;
use crate::config::RuleDirective;
use crate::source::SourceFile;
use crate::plugin::RuleMeta;
use crate::config::RuleDirectives;
use vstd::prelude::*;

verus! {

// ---------------------------------------------------------------------------
// Baselines
// ---------------------------------------------------------------------------

/// A baseline generated from the current findings covers every one of them:
/// each finding matches its own entry, by subject identity or else by its
/// fingerprint, so a committed baseline makes the existing tree pass.
pub proof fn law_generated_baseline_covers_its_findings(b: Baseline, found: Seq<(Diagnostic, String, u32, String)>, i: int)
    requires
        b.entries@.len() == found.len(),
        forall|k: int| 0 <= k < found.len() ==> #[trigger] b.entries@[k] == entry_of(found[k].0, found[k].1, found[k].2, found[k].3),
        0 <= i < found.len(),
    ensures
        b.subject_match(found[i].0, found[i].1@) is Some || b.fingerprint_match(found[i].0, found[i].1@, found[i].3@) is Some,
{
    let e = b.entries@[i];
    assert(e == entry_of(found[i].0, found[i].1, found[i].2, found[i].3));
    if b.subject_match(found[i].0, found[i].1@) is None {
        assert(crate::baseline::fingerprint_hit(b.entries@[i], found[i].0, found[i].1@, found[i].3@));
    }
}

/// Matching by subject identity does not depend on the finding's text or
/// line: an entry recording the finding's rule, path and subject covers it
/// however the surrounding file changed.
pub proof fn law_subject_identity_survives_edits(b: Baseline, d: Diagnostic, path: Seq<char>, i: int)
    requires
        0 <= i < b.entries@.len(),
        b.entries@[i].rule_id@ == d.rule_id@,
        b.entries@[i].path@ == path,
        b.entries@[i].subject matches Some(s) && d.subject matches Some(t) && s@ == t@,
    ensures
        b.subject_match(d, path) is Some,
{
    assert(crate::baseline::subject_hit(b.entries@[i], d, path));
}

/// A finding whose rule and path the baseline never recorded (no entry, no
/// pair budget, nothing drawn this run) is reported: a baseline never hides
/// new violations.
pub proof fn law_unrecorded_finding_is_new(b: Baseline, budget: Map<PairKey, u64>, d: Diagnostic, path: Seq<char>, fp: Seq<char>)
    requires
        forall|k: int| 0 <= k < b.entries@.len() ==> !((#[trigger] b.entries@[k]).rule_id@ == d.rule_id@ && b.entries@[k].path@ == path),
        forall|k: int| 0 <= k < b.pairs@.len() ==> !((#[trigger] b.pairs@[k]).rule_id@ == d.rule_id@ && b.pairs@[k].path@ == path),
        !budget.contains_key((d.rule_id@, path)),
    ensures
        b.subject_match(d, path) is None,
        b.fingerprint_match(d, path, fp) is None,
        b.budget_before(budget, d.rule_id@, path) == 0,
{
    lemma_recorded_absent(b.pairs@, d.rule_id@, path);
    assert(!(exists|k: int| 0 <= k < b.entries@.len() && crate::baseline::subject_hit(b.entries@[k], d, path)));
    assert(!(exists|k: int| 0 <= k < b.entries@.len() && crate::baseline::fingerprint_hit(b.entries@[k], d, path, fp)));
}

/// Among indices below `n`, a smallest one with `p`, given one with `p`.
proof fn lemma_least_index(p: spec_fn(int) -> bool, n: int, w: int)
    requires
        0 <= w < n,
        p(w),
    ensures
        exists|i: int| 0 <= i < n && #[trigger] p(i) && forall|j: int| 0 <= j < i ==> !#[trigger] p(j),
    decreases w,
{
    if exists|j: int| 0 <= j < w && #[trigger] p(j) {
        let j = choose|j: int| 0 <= j < w && #[trigger] p(j);
        lemma_least_index(p, n, j);
    } else {
        assert(0 <= w < n && p(w) && forall|j: int| 0 <= j < w ==> !#[trigger] p(j));
    }
}

/// A baseline matches a finding by the first entry that records it: by
/// subject identity when some entry does, and by fingerprint when some entry
/// does; no match when no entry records it.
pub proof fn law_match_is_the_first_recording_entry(b: Baseline, d: Diagnostic, path: Seq<char>, fp: Seq<char>)
    ensures
        b.subject_match(d, path) is None <==> forall|k: int|
            0 <= k < b.entries@.len() ==> !crate::baseline::subject_hit(#[trigger] b.entries@[k], d, path),
        b.subject_match(d, path) matches Some(i) ==> 0 <= i < b.entries@.len() && crate::baseline::subject_hit(
            b.entries@[i],
            d,
            path,
        ) && forall|j: int| 0 <= j < i ==> !crate::baseline::subject_hit(#[trigger] b.entries@[j], d, path),
        b.fingerprint_match(d, path, fp) is None <==> forall|k: int|
            0 <= k < b.entries@.len() ==> !crate::baseline::fingerprint_hit(#[trigger] b.entries@[k], d, path, fp),
        b.fingerprint_match(d, path, fp) matches Some(i) ==> 0 <= i < b.entries@.len() && crate::baseline::fingerprint_hit(
            b.entries@[i],
            d,
            path,
            fp,
        ) && forall|j: int| 0 <= j < i ==> !crate::baseline::fingerprint_hit(#[trigger] b.entries@[j], d, path, fp),
{
    let n = b.entries@.len() as int;
    let ps = |i: int| 0 <= i < n && crate::baseline::subject_hit(b.entries@[i], d, path);
    let pf = |i: int| 0 <= i < n && crate::baseline::fingerprint_hit(b.entries@[i], d, path, fp);
    if exists|i: int| 0 <= i < n && crate::baseline::subject_hit(b.entries@[i], d, path) {
        let w = choose|i: int| 0 <= i < n && crate::baseline::subject_hit(b.entries@[i], d, path);
        assert(ps(w));
        lemma_least_index(ps, n, w);
        let m = choose|i: int| 0 <= i < n && #[trigger] ps(i) && forall|j: int| 0 <= j < i ==> !#[trigger] ps(j);
        assert(0 <= m < n && crate::baseline::subject_hit(b.entries@[m], d, path) && forall|j: int|
            0 <= j < m ==> !crate::baseline::subject_hit(b.entries@[j], d, path)) by {
            assert forall|j: int| 0 <= j < m implies !crate::baseline::subject_hit(b.entries@[j], d, path) by {
                assert(!ps(j));
            }
        }
    }
    if exists|i: int| 0 <= i < n && crate::baseline::fingerprint_hit(b.entries@[i], d, path, fp) {
        let w = choose|i: int| 0 <= i < n && crate::baseline::fingerprint_hit(b.entries@[i], d, path, fp);
        assert(pf(w));
        lemma_least_index(pf, n, w);
        let m = choose|i: int| 0 <= i < n && #[trigger] pf(i) && forall|j: int| 0 <= j < i ==> !#[trigger] pf(j);
        assert(0 <= m < n && crate::baseline::fingerprint_hit(b.entries@[m], d, path, fp) && forall|j: int|
            0 <= j < m ==> !crate::baseline::fingerprint_hit(b.entries@[j], d, path, fp)) by {
            assert forall|j: int| 0 <= j < m implies !crate::baseline::fingerprint_hit(b.entries@[j], d, path, fp) by {
                assert(!pf(j));
            }
        }
    }
}

proof fn lemma_recorded_absent(pairs: Seq<BaselinePair>, rule: Seq<char>, path: Seq<char>)
    requires
        forall|k: int| 0 <= k < pairs.len() ==> !((#[trigger] pairs[k]).rule_id@ == rule && pairs[k].path@ == path),
    ensures
        recorded_count(pairs, rule, path) == 0,
    decreases pairs.len(),
{
    if pairs.len() > 0 {
        assert(!(pairs[0].rule_id@ == rule && pairs[0].path@ == path));
        assert forall|k: int| 0 <= k < pairs.drop_first().len() implies !((#[trigger] pairs.drop_first()[k]).rule_id@ == rule
            && pairs.drop_first()[k].path@ == path) by {
            assert(pairs.drop_first()[k] == pairs[k + 1]);
        }
        lemma_recorded_absent(pairs.drop_first(), rule, path);
    }
}

/// Pruning keeps exactly the entries whose finding is still live, in order:
/// what it keeps is live, and a baseline whose every entry is live (right
/// after `todo generate`) loses nothing.
pub proof fn law_prune_keeps_live_entries(live: Seq<(String, String, Option<String>, String)>, s: Seq<BaselineEntry>)
    ensures
        forall|k: int| 0 <= k < live_entries(live, s).len() ==> is_live(live, #[trigger] live_entries(live, s)[k]),
        live_entries(live, s).len() <= s.len(),
        (forall|k: int| 0 <= k < s.len() ==> is_live(live, #[trigger] s[k])) ==> live_entries(live, s) == s,
    decreases s.len(),
{
    if s.len() > 0 {
        law_prune_keeps_live_entries(live, s.drop_last());
        let before = live_entries(live, s.drop_last());
        if is_live(live, s.last()) {
            assert forall|k: int| 0 <= k < before.push(s.last()).len() implies is_live(live, #[trigger] before.push(s.last())[k]) by {
                if k < before.len() {
                    assert(before.push(s.last())[k] == before[k]);
                }
            }
        }
        if forall|k: int| 0 <= k < s.len() ==> is_live(live, #[trigger] s[k]) {
            assert forall|k: int| 0 <= k < s.drop_last().len() implies is_live(live, #[trigger] s.drop_last()[k]) by {
                assert(s.drop_last()[k] == s[k]);
            }
            assert(is_live(live, s[s.len() - 1]));
            assert(live_entries(live, s) == before.push(s.last()));
            assert(before.push(s.last()) =~= s);
        }
    }
}

/// Pruning twice keeps what pruning once kept.
pub proof fn law_prune_is_idempotent(live: Seq<(String, String, Option<String>, String)>, s: Seq<BaselineEntry>)
    ensures
        live_entries(live, live_entries(live, s)) == live_entries(live, s),
{
    law_prune_keeps_live_entries(live, s);
    law_prune_keeps_live_entries(live, live_entries(live, s));
}

/// A fingerprint reads only the subject and the bytes under the span: the
/// same text under the span gives the same fingerprint wherever it stands,
/// so findings keep their fingerprint when the lines around them shift.
pub proof fn law_fingerprint_ignores_position(b1: Seq<u8>, s1: Span, b2: Seq<u8>, s2: Span, subject: Option<Seq<char>>)
    requires
        b1.subrange(clamp(b1, s1.start as int) as int, clamp(b1, s1.end as int) as int) == b2.subrange(
            clamp(b2, s2.start as int) as int,
            clamp(b2, s2.end as int) as int,
        ),
    ensures
        fingerprint_spec(b1, s1, subject) == fingerprint_spec(b2, s2, subject),
{
}

// ---------------------------------------------------------------------------
// Exit policy
// ---------------------------------------------------------------------------

/// Without `--max-warnings`, a run exits clean exactly when nothing is left
/// to report; with it, a remaining error always fails the run, and warnings
/// within the limit alone never do.
pub proof fn law_exit_policy(findings: nat, totals: SeverityTotals, limit: usize)
    ensures
        (exit_policy(findings, totals, None) == ExitCode::Clean) <==> findings == 0,
        exit_policy(findings, totals, None) == ExitCode::Clean || exit_policy(findings, totals, None) == ExitCode::Findings,
        findings > 0 && totals.error > 0 ==> exit_policy(findings, totals, Some(limit)) == ExitCode::Findings,
        totals.error == 0 && totals.warning <= limit ==> exit_policy(findings, totals, Some(limit)) == ExitCode::Clean,
        exit_policy(findings, totals, None).spec_code() == if findings == 0 { 0i32 } else { 1i32 },
{
}

// ---------------------------------------------------------------------------
// Severities
// ---------------------------------------------------------------------------

/// A severity's wire name reads back as that severity.
pub proof fn law_severity_name_round_trip(s: Severity)
    ensures
        Severity::parse_spec(s.name()) == Some(s),
{
    reveal_strlit("info");
    reveal_strlit("warning");
    reveal_strlit("warn");
    reveal_strlit("error");
    reveal_strlit("off");
    assert("info"@.len() == 4 && "warning"@.len() == 7 && "warn"@.len() == 4 && "error"@.len() == 5 && "off"@.len() == 3);
    match s {
        Severity::Info => {},
        Severity::Warning => {
            assert("warning"@ != "info"@);
        },
        Severity::Error => {
            assert("error"@ != "info"@);
            assert("error"@ != "warning"@);
            assert("error"@[0] != "warn"@[0]);
        },
        Severity::Off => {
            assert("off"@ != "info"@);
            assert("off"@[0] != "warn"@[0]);
            assert("off"@ != "warning"@);
            assert("off"@ != "error"@);
        },
    }
}

// ---------------------------------------------------------------------------
// The sandbox contract
// ---------------------------------------------------------------------------

/// Clamping a guest span keeps it inside the engine's bounds (start no later
/// than end, both at most `MAX_SPAN_OFFSET`), leaves a span already inside
/// them unchanged, and so is idempotent.
pub proof fn law_clamp_span(sp: [u32; 2])
    ensures
        clamped(sp)[0] <= clamped(sp)[1] <= MAX_SPAN_OFFSET,
        sp[0] <= sp[1] <= MAX_SPAN_OFFSET ==> clamped(sp) == sp,
        clamped(clamped(sp)) == clamped(sp),
{
    assert(clamped(clamped(sp)) =~= clamped(sp));
    if sp[0] <= sp[1] <= MAX_SPAN_OFFSET {
        assert(clamped(sp) =~= sp);
    }
}

/// A rule pack can only report under the rule it is run for, within clamped
/// spans: every diagnostic of a run carries the run's rule id and a span
/// inside the engine's bounds.
pub proof fn law_pack_reports_only_its_rule(run: RuleRun, fs: Seq<RuleFinding>)
    ensures
        forall|k: int| 0 <= k < run_outputs(run, fs).len() ==> {
            &&& (#[trigger] run_outputs(run, fs)[k]).rule_id == run.rule_id@
            &&& run_outputs(run, fs)[k].span.start <= run_outputs(run, fs)[k].span.end <= MAX_SPAN_OFFSET
        },
    decreases fs.len(),
{
    if fs.len() > 0 {
        law_pack_reports_only_its_rule(run, fs.drop_last());
        let a = run_outputs(run, fs.drop_last());
        let b = finding_output(run, fs.last());
        law_clamp_span(fs.last().span);
        assert forall|k: int| 0 <= k < (a + b).len() implies {
            &&& (#[trigger] (a + b)[k]).rule_id == run.rule_id@
            &&& (a + b)[k].span.start <= (a + b)[k].span.end <= MAX_SPAN_OFFSET
        } by {
            if k < a.len() {
                assert((a + b)[k] == a[k]);
            } else {
                assert((a + b)[k] == b[k - a.len()]);
            }
        }
    }
}

/// The merged directive lists hold each directive once: adding values to a
/// list without repeats keeps it without repeats, and every added value is
/// then present.
pub proof fn law_merge_adds_each_value_once(acc: Seq<LeafV>, items: Seq<LeafV>)
    requires
        acc.no_duplicates(),
    ensures
        add_new(acc, items).no_duplicates(),
        forall|k: int| 0 <= k < items.len() ==> add_new(acc, items).contains(#[trigger] items[k]),
        forall|k: int| 0 <= k < acc.len() ==> add_new(acc, items).contains(#[trigger] acc[k]),
    decreases items.len(),
{
    if items.len() > 0 {
        law_merge_adds_each_value_once(acc, items.drop_last());
        let a = add_new(acc, items.drop_last());
        let x = items.last();
        if !a.contains(x) {
            assert forall|i: int, j: int| 0 <= i < j < a.push(x).len() implies a.push(x)[i] != a.push(x)[j] by {
                if j == a.len() {
                    assert(a.push(x)[i] == a[i]);
                }
            }
            assert forall|k: int| 0 <= k < items.len() implies a.push(x).contains(#[trigger] items[k]) by {
                if k < items.len() - 1 {
                    assert(items[k] == items.drop_last()[k]);
                    let j = choose|j: int| 0 <= j < a.len() && a[j] == items[k];
                    assert(a.push(x)[j] == items[k]);
                } else {
                    assert(a.push(x)[a.len() as int] == x);
                }
            }
            assert forall|k: int| 0 <= k < acc.len() implies a.push(x).contains(#[trigger] acc[k]) by {
                let j = choose|j: int| 0 <= j < a.len() && a[j] == acc[k];
                assert(a.push(x)[j] == acc[k]);
            }
        } else {
            assert forall|k: int| 0 <= k < items.len() implies a.contains(#[trigger] items[k]) by {
                if k < items.len() - 1 {
                    assert(items[k] == items.drop_last()[k]);
                }
            }
        }
    }
}

// ---------------------------------------------------------------------------
// GraphQL rules
// ---------------------------------------------------------------------------

/// Unused-type detection stays silent without a `schema` block: the roots
/// would then be a guess.
pub proof fn law_unused_needs_schema_block(m: SchemaModel)
    requires
        !m.has_schema_block,
    ensures
        unused_findings(m).len() == 0,
{
}

// ---------------------------------------------------------------------------
// Report order
// ---------------------------------------------------------------------------

/// No later finding sorts before an earlier one.
pub open spec fn in_report_order(s: Seq<Reportable>) -> bool {
    forall|i: int, j: int| 0 <= i < j < s.len() ==> !report_lt(#[trigger] s[j], #[trigger] s[i])
}

proof fn lemma_text_cases(a: Seq<char>, b: Seq<char>, c: Seq<char>)
    ensures
        a == b || text_lt(a, b) || text_lt(b, a),
        !(text_lt(a, b) && text_lt(b, a)),
        !text_lt(a, a),
        text_lt(a, b) && text_lt(b, c) ==> text_lt(a, c),
{
    lemma_text_lt_total(a, b);
    lemma_text_lt_irrefl(a);
    if text_lt(a, b) && text_lt(b, c) {
        lemma_text_lt_trans(a, b, c);
    }
}

proof fn lemma_report_lt_facts(a: Reportable, b: Reportable, c: Reportable)
    ensures
        report_lt(a, b) ==> !report_lt(b, a),
        report_lt(a, c) ==> report_lt(a, b) || report_lt(b, c),
{
    lemma_text_cases(a.path@, b.path@, c.path@);
    lemma_text_cases(b.path@, c.path@, a.path@);
    lemma_text_cases(c.path@, a.path@, b.path@);
    lemma_text_cases(a.path@, c.path@, b.path@);
    lemma_text_cases(b.path@, a.path@, c.path@);
    lemma_text_cases(c.path@, b.path@, a.path@);
    let (x, y, z) = (a.diag.rule_id@, b.diag.rule_id@, c.diag.rule_id@);
    lemma_text_cases(x, y, z);
    lemma_text_cases(y, z, x);
    lemma_text_cases(z, x, y);
    lemma_text_cases(x, z, y);
    lemma_text_cases(y, x, z);
    lemma_text_cases(z, y, x);
}

proof fn lemma_insert_sorted_order(s: Seq<Reportable>, x: Reportable)
    requires
        in_report_order(s),
    ensures
        in_report_order(insert_sorted(s, x)),
        insert_sorted(s, x).to_multiset() == s.to_multiset().insert(x),
    decreases s.len(),
{
    broadcast use vstd::seq_lib::group_to_multiset_ensures;
    if s.len() == 0 {
        assert(insert_sorted(s, x) =~= seq![x]);
        assert(seq![x] =~= Seq::<Reportable>::empty().push(x));
    } else if report_lt(x, s.last()) {
        let l = s.last();
        let d = s.drop_last();
        assert(in_report_order(d)) by {
            assert forall|i: int, j: int| 0 <= i < j < d.len() implies !report_lt(#[trigger] d[j], #[trigger] d[i]) by {
                assert(d[i] == s[i] && d[j] == s[j]);
            }
        }
        lemma_insert_sorted_order(d, x);
        let t = insert_sorted(d, x);
        let p = |e: Reportable| !report_lt(l, e);
        assert forall|k: int| 0 <= k < d.len() implies p(#[trigger] d[k]) by {
            assert(d[k] == s[k]);
            assert(s[s.len() - 1] == l);
        }
        lemma_report_lt_facts(x, l, l);
        assert(p(x));
        lemma_insert_all_pub(d, x, p);
        assert forall|i: int, j: int| 0 <= i < j < t.push(l).len() implies !report_lt(#[trigger] t.push(l)[j], #[trigger] t.push(l)[i]) by {
            if j == t.len() {
                assert(t.push(l)[i] == t[i]);
                assert(p(t[i]));
            } else {
                assert(t.push(l)[i] == t[i] && t.push(l)[j] == t[j]);
            }
        }
        assert(s =~= d.push(l));
        assert(t.push(l).to_multiset() =~= s.to_multiset().insert(x));
    } else {
        assert forall|i: int, j: int| 0 <= i < j < s.push(x).len() implies !report_lt(#[trigger] s.push(x)[j], #[trigger] s.push(x)[i]) by {
            if j == s.len() {
                assert(s.push(x)[i] == s[i]);
                if i < s.len() - 1 {
                    assert(!report_lt(s[s.len() - 1], s[i]));
                    lemma_report_lt_facts(x, s[s.len() - 1], s[i]);
                }
            } else {
                assert(s.push(x)[i] == s[i] && s.push(x)[j] == s[j]);
            }
        }
    }
}

proof fn lemma_insert_all_pub(s: Seq<Reportable>, x: Reportable, p: spec_fn(Reportable) -> bool)
    requires
        forall|k: int| 0 <= k < s.len() ==> p(#[trigger] s[k]),
        p(x),
    ensures
        forall|k: int| 0 <= k < insert_sorted(s, x).len() ==> p(#[trigger] insert_sorted(s, x)[k]),
    decreases s.len(),
{
    if s.len() > 0 && report_lt(x, s.last()) {
        assert forall|k: int| 0 <= k < s.drop_last().len() implies p(#[trigger] s.drop_last()[k]) by {
            assert(s.drop_last()[k] == s[k]);
        }
        lemma_insert_all_pub(s.drop_last(), x, p);
        let t = insert_sorted(s.drop_last(), x);
        assert forall|k: int| 0 <= k < t.push(s.last()).len() implies p(#[trigger] t.push(s.last())[k]) by {
            if k < t.len() {
                assert(t.push(s.last())[k] == t[k]);
            } else {
                assert(p(s[s.len() - 1]));
            }
        }
    } else if s.len() > 0 {
        assert forall|k: int| 0 <= k < s.push(x).len() implies p(#[trigger] s.push(x)[k]) by {
            if k < s.len() {
                assert(s.push(x)[k] == s[k]);
            }
        }
    } else {
        assert(insert_sorted(s, x) =~= seq![x]);
    }
}

/// Reported findings come out in report order (path, line, column, rule id)
/// and are exactly the findings that went in: sorting neither loses nor
/// invents one.
pub proof fn law_sorted_findings(s: Seq<Reportable>)
    ensures
        in_report_order(sort_reports(s)),
        sort_reports(s).to_multiset() == s.to_multiset(),
    decreases s.len(),
{
    broadcast use vstd::seq_lib::group_to_multiset_ensures;
    if s.len() == 0 {
        assert(sort_reports(s) =~= Seq::<Reportable>::empty());
    } else {
        law_sorted_findings(s.drop_last());
        lemma_insert_sorted_order(sort_reports(s.drop_last()), s.last());
        assert(s =~= s.drop_last().push(s.last()));
    }
}

// ---------------------------------------------------------------------------
// Pair budgets (the ratchet granularity)
// ---------------------------------------------------------------------------

/// The run's budgets after `k` findings of the pair `(rule, path)` matched no
/// entry and drew on the pair's budget (as `classify` updates them).
pub open spec fn budget_after(b: Baseline, rule: Seq<char>, path: Seq<char>, k: nat) -> Map<PairKey, u64>
    decreases k,
{
    if k == 0 {
        Map::empty()
    } else {
        let prev = budget_after(b, rule, path, (k - 1) as nat);
        let left = b.budget_before(prev, rule, path);
        prev.insert((rule, path), if left > 0 { (left - 1) as u64 } else { 0 })
    }
}

/// A recorded pair count suppresses exactly that many findings of the pair,
/// in order of appearance; every finding beyond it is reported.
pub proof fn law_pair_budget_ratchet(b: Baseline, rule: Seq<char>, path: Seq<char>, k: nat)
    ensures
        b.budget_before(budget_after(b, rule, path, k), rule, path) > 0 <==> k < recorded_count(b.pairs@, rule, path),
        b.budget_before(budget_after(b, rule, path, k), rule, path) == if k < recorded_count(b.pairs@, rule, path) {
            recorded_count(b.pairs@, rule, path) - k
        } else {
            0
        },
    decreases k,
{
    if k > 0 {
        law_pair_budget_ratchet(b, rule, path, (k - 1) as nat);
    }
}

// ---------------------------------------------------------------------------
// Suppression markers
// ---------------------------------------------------------------------------

proof fn lemma_unmarked_clear(sources: Seq<SourceFile>, s: Seq<Reportable>)
    ensures
        forall|k: int| 0 <= k < unmarked(sources, s).len() ==> !is_marked(sources, #[trigger] unmarked(sources, s)[k]),
    decreases s.len(),
{
    if s.len() > 0 {
        lemma_unmarked_clear(sources, s.drop_last());
        let rest = unmarked(sources, s.drop_last());
        if !is_marked(sources, s.last()) {
            assert forall|k: int| 0 <= k < rest.push(s.last()).len() implies !is_marked(sources, #[trigger] rest.push(s.last())[k]) by {
                if k < rest.len() {
                    assert(rest.push(s.last())[k] == rest[k]);
                }
            }
        }
    }
}

proof fn lemma_baseline_pass_keeps_from(b: Option<Baseline>, sources: Seq<SourceFile>, s: Seq<Reportable>)
    ensures
        forall|k: int| 0 <= k < baseline_pass(b, sources, s).0.len() ==> s.contains(#[trigger] baseline_pass(b, sources, s).0[k]),
    decreases s.len(),
{
    if s.len() > 0 {
        lemma_baseline_pass_keeps_from(b, sources, s.drop_last());
        let kept = baseline_pass(b, sources, s.drop_last()).0;
        assert forall|k: int| 0 <= k < kept.len() implies s.contains(#[trigger] kept[k]) by {
            let j = choose|j: int| 0 <= j < s.drop_last().len() && s.drop_last()[j] == kept[k];
            assert(s[j] == kept[k]);
        }
        assert(s[s.len() - 1] == s.last());
    }
}

/// A finding under a suppression marker for its rule never reaches the
/// report, whatever the baseline.
pub proof fn law_suppressed_findings_never_reported(
    diags: Seq<Diagnostic>,
    metas: Seq<RuleMeta>,
    rules: RuleDirectives,
    sources: Seq<SourceFile>,
    baseline: Option<Baseline>,
    k: int,
)
    requires
        0 <= k < final_findings(diags, metas, rules, sources, baseline).0.len(),
    ensures
        !is_marked(sources, final_findings(diags, metas, rules, sources, baseline).0[k]),
{
    let located = diags.map_values(|d: Diagnostic| crate::runner::reportable_of(sources, metas, rules, d));
    let kept = unmarked(sources, sort_reports(located));
    lemma_unmarked_clear(sources, sort_reports(located));
    lemma_baseline_pass_keeps_from(baseline, sources, kept);
    let x = final_findings(diags, metas, rules, sources, baseline).0[k];
    assert(kept.contains(x));
    let j = choose|j: int| 0 <= j < kept.len() && kept[j] == x;
    assert(!is_marked(sources, kept[j]));
}

// ---------------------------------------------------------------------------
// Off-by-default rules
// ---------------------------------------------------------------------------

/// A rule its pack grades `off` is registered but stays silent until config
/// opts in: without a directive it never runs, and with any directive other
/// than `off` it runs wherever its capability is available.
pub proof fn law_off_by_default_needs_opt_in(meta: RuleMeta, rules: RuleDirectives, available: Seq<Seq<char>>)
    requires
        meta.default_severity == Severity::Off,
    ensures
        rules.spec_get(meta.id@) is None ==> !rule_runs_spec(meta, rules, available),
        rules.spec_get(meta.id@) matches Some(RuleDirective::On(_)) ==> (rule_runs_spec(meta, rules, available) <==> (
        meta.requires@.len() == 0 || available.contains(meta.requires@))),
{
}

// ---------------------------------------------------------------------------
// A run end to end
// ---------------------------------------------------------------------------

proof fn lemma_order_prefix(s: Seq<Reportable>)
    requires
        in_report_order(s),
        s.len() > 0,
    ensures
        in_report_order(s.drop_last()),
{
    let t = s.drop_last();
    assert forall|i: int, j: int| 0 <= i < j < t.len() implies !report_lt(#[trigger] t[j], #[trigger] t[i]) by {
        assert(t[i] == s[i] && t[j] == s[j]);
    }
}

/// Appending to an ordered sequence something no earlier element of `s`
/// comes after keeps it ordered.
proof fn lemma_order_push(s: Seq<Reportable>, rest: Seq<Reportable>)
    requires
        in_report_order(s),
        s.len() > 0,
        in_report_order(rest),
        forall|k: int| 0 <= k < rest.len() ==> s.drop_last().contains(#[trigger] rest[k]),
    ensures
        in_report_order(rest.push(s.last())),
{
    let t = rest.push(s.last());
    assert forall|i: int, j: int| 0 <= i < j < t.len() implies !report_lt(#[trigger] t[j], #[trigger] t[i]) by {
        if j < rest.len() {
            assert(t[i] == rest[i] && t[j] == rest[j]);
        } else {
            assert(t[i] == rest[i]);
            assert(s.drop_last().contains(rest[i]));
            let q = choose|q: int| 0 <= q < s.drop_last().len() && s.drop_last()[q] == rest[i];
            assert(s[q] == rest[i]);
            assert(t[j] == s[s.len() - 1]);
        }
    }
}

proof fn lemma_unmarked_order(sources: Seq<SourceFile>, s: Seq<Reportable>)
    requires
        in_report_order(s),
    ensures
        in_report_order(unmarked(sources, s)),
    decreases s.len(),
{
    if s.len() > 0 {
        lemma_order_prefix(s);
        lemma_unmarked_order(sources, s.drop_last());
        lemma_unmarked_from(sources, s.drop_last());
        if !is_marked(sources, s.last()) {
            lemma_order_push(s, unmarked(sources, s.drop_last()));
        }
    }
}

proof fn lemma_baseline_pass_order(b: Option<Baseline>, sources: Seq<SourceFile>, s: Seq<Reportable>)
    requires
        in_report_order(s),
    ensures
        in_report_order(baseline_pass(b, sources, s).0),
    decreases s.len(),
{
    if s.len() > 0 {
        lemma_order_prefix(s);
        lemma_baseline_pass_order(b, sources, s.drop_last());
        lemma_baseline_pass_keeps_from(b, sources, s.drop_last());
        let rest = baseline_pass(b, sources, s.drop_last()).0;
        if baseline_pass(b, sources, s).0 != rest {
            lemma_order_push(s, rest);
        }
    }
}

/// A run reports its findings in report order (path, line, column, rule id):
/// dropping marked lines and baselined findings keeps the order sorting made.
pub proof fn law_run_reports_in_order(
    diags: Seq<Diagnostic>,
    metas: Seq<RuleMeta>,
    rules: RuleDirectives,
    sources: Seq<SourceFile>,
    baseline: Option<Baseline>,
)
    ensures
        in_report_order(final_findings(diags, metas, rules, sources, baseline).0),
{
    let located = diags.map_values(|d: Diagnostic| reportable_of(sources, metas, rules, d));
    law_sorted_findings(located);
    lemma_unmarked_order(sources, sort_reports(located));
    lemma_baseline_pass_order(baseline, sources, unmarked(sources, sort_reports(located)));
}

proof fn lemma_baseline_pass_uncovered(b: Baseline, sources: Seq<SourceFile>, s: Seq<Reportable>)
    ensures
        forall|k: int|
            0 <= k < baseline_pass(Some(b), sources, s).0.len() ==> {
                let x = #[trigger] baseline_pass(Some(b), sources, s).0[k];
                &&& b.subject_match(x.diag, x.path@) is None
                &&& b.fingerprint_match(x.diag, x.path@, report_fingerprint(sources, x)) is None
            },
    decreases s.len(),
{
    if s.len() > 0 {
        lemma_baseline_pass_uncovered(b, sources, s.drop_last());
        let rest = baseline_pass(Some(b), sources, s.drop_last()).0;
        let all = baseline_pass(Some(b), sources, s).0;
        if all != rest {
            assert forall|k: int| 0 <= k < all.len() implies {
                let x = #[trigger] all[k];
                &&& b.subject_match(x.diag, x.path@) is None
                &&& b.fingerprint_match(x.diag, x.path@, report_fingerprint(sources, x)) is None
            } by {
                if k < rest.len() {
                    assert(all[k] == rest[k]);
                }
            }
        }
    }
}

/// A finding the baseline records, by subject identity or by fingerprint,
/// never reaches the report.
pub proof fn law_baselined_findings_never_reported(
    diags: Seq<Diagnostic>,
    metas: Seq<RuleMeta>,
    rules: RuleDirectives,
    sources: Seq<SourceFile>,
    b: Baseline,
    k: int,
)
    requires
        0 <= k < final_findings(diags, metas, rules, sources, Some(b)).0.len(),
    ensures
        ({
            let x = final_findings(diags, metas, rules, sources, Some(b)).0[k];
            &&& b.subject_match(x.diag, x.path@) is None
            &&& b.fingerprint_match(x.diag, x.path@, report_fingerprint(sources, x)) is None
        }),
{
    let located = diags.map_values(|d: Diagnostic| reportable_of(sources, metas, rules, d));
    lemma_baseline_pass_uncovered(b, sources, unmarked(sources, sort_reports(located)));
}

proof fn lemma_kept_plugin_not_off(metas: Seq<RuleMeta>, rules: RuleDirectives, s: Seq<Diagnostic>)
    ensures
        forall|k: int| 0 <= k < kept_plugin_findings(metas, rules, s).len()
            ==> rules.spec_get((#[trigger] kept_plugin_findings(metas, rules, s)[k]).rule_id@) != Some(RuleDirective::Off),
    decreases s.len(),
{
    if s.len() > 0 {
        lemma_kept_plugin_not_off(metas, rules, s.drop_last());
        let rest = kept_plugin_findings(metas, rules, s.drop_last());
        let all = kept_plugin_findings(metas, rules, s);
        assert forall|k: int| 0 <= k < all.len() implies rules.spec_get((#[trigger] all[k]).rule_id@) != Some(RuleDirective::Off) by {
            if k < rest.len() {
                assert(all[k] == rest[k]);
            }
        }
    }
}

proof fn lemma_kept_ws_not_off(rules: RuleDirectives, s: Seq<PathDiagnostic>)
    ensures
        forall|k: int| 0 <= k < kept_ws(rules, s).len()
            ==> rules.spec_get((#[trigger] kept_ws(rules, s)[k]).diag.rule_id@) != Some(RuleDirective::Off),
    decreases s.len(),
{
    if s.len() > 0 {
        lemma_kept_ws_not_off(rules, s.drop_last());
        let rest = kept_ws(rules, s.drop_last());
        let all = kept_ws(rules, s);
        assert forall|k: int| 0 <= k < all.len() implies rules.spec_get((#[trigger] all[k]).diag.rule_id@) != Some(RuleDirective::Off) by {
            if k < rest.len() {
                assert(all[k] == rest[k]);
            }
        }
    }
}

/// The findings a run gathers before it finishes, in the order it gathers
/// them: those of the rules that ran (each with its rule), those plugins
/// reported while parsing as `plugin_findings` keeps them, those of the
/// workspace passes as `workspace_findings` gave them, and the parse errors
/// as `parse_error_findings` gives them.
pub open spec fn gathered(
    ran: Seq<(RuleMeta, Diagnostic)>,
    metas: Seq<RuleMeta>,
    rules: RuleDirectives,
    parsed: Seq<Diagnostic>,
    ws: Seq<Diagnostic>,
    errs: Seq<Diagnostic>,
) -> Seq<Diagnostic> {
    ran.map_values(|p: (RuleMeta, Diagnostic)| p.1) + kept_plugin_findings(metas, rules, parsed) + ws + errs.map_values(
        |d: Diagnostic| with_severity(d, Severity::Error),
    )
}

/// No finding of a rule that config turns `off` reaches the report. Rules
/// run only when `rule_runs` allows it (so a rule graded `off` by default
/// contributes only once config opts in) and keep only findings under their
/// own id; plugin and workspace findings of rules turned off are dropped.
/// Parse errors are reported whatever the config says of their ids, so the
/// law holds when none of them is turned off.
pub proof fn law_off_rules_never_reported(
    ran: Seq<(RuleMeta, Diagnostic)>,
    available: Seq<Seq<char>>,
    metas: Seq<RuleMeta>,
    rules: RuleDirectives,
    parsed: Seq<Diagnostic>,
    ws_found: Seq<PathDiagnostic>,
    ws: Seq<Diagnostic>,
    errs: Seq<Diagnostic>,
    sources: Seq<SourceFile>,
    baseline: Option<Baseline>,
    k: int,
)
    requires
        forall|i: int| 0 <= i < ran.len() ==> rule_runs_spec((#[trigger] ran[i]).0, rules, available) && ran[i].1.rule_id@ == ran[i].0.id@,
        ws.len() == kept_ws(rules, ws_found).len(),
        forall|i: int| 0 <= i < ws.len() ==> ws_resolved(sources, metas, rules, kept_ws(rules, ws_found)[i], #[trigger] ws[i]),
        forall|i: int| 0 <= i < errs.len() ==> rules.spec_get((#[trigger] errs[i]).rule_id@) != Some(RuleDirective::Off),
        0 <= k < final_findings(gathered(ran, metas, rules, parsed, ws, errs), metas, rules, sources, baseline).0.len(),
    ensures
        ({
            let diags = gathered(ran, metas, rules, parsed, ws, errs);
            let x = final_findings(diags, metas, rules, sources, baseline).0[k];
            &&& rules.spec_get(x.diag.rule_id@) != Some(RuleDirective::Off)
            &&& exists|j: int| 0 <= j < diags.len() && x == reportable_of(sources, metas, rules, #[trigger] diags[j])
        }),
{
    broadcast use vstd::seq_lib::group_to_multiset_ensures;
    let diags = gathered(ran, metas, rules, parsed, ws, errs);
    let located = diags.map_values(|d: Diagnostic| reportable_of(sources, metas, rules, d));
    let sorted = sort_reports(located);
    let kept = unmarked(sources, sorted);
    let x = final_findings(diags, metas, rules, sources, baseline).0[k];
    lemma_baseline_pass_keeps_from(baseline, sources, kept);
    assert(kept.contains(x));
    lemma_unmarked_from(sources, sorted);
    assert(sorted.contains(x));
    law_sorted_findings(located);
    assert(sorted.to_multiset().count(x) > 0);
    assert(located.contains(x));
    let j = choose|j: int| 0 <= j < located.len() && located[j] == x;
    assert(x == reportable_of(sources, metas, rules, diags[j]));
    assert(x.diag.rule_id == diags[j].rule_id);
    let a = ran.map_values(|p: (RuleMeta, Diagnostic)| p.1);
    let pk = kept_plugin_findings(metas, rules, parsed);
    let e = errs.map_values(|d: Diagnostic| with_severity(d, Severity::Error));
    lemma_kept_plugin_not_off(metas, rules, parsed);
    lemma_kept_ws_not_off(rules, ws_found);
    if j < a.len() {
        assert(diags[j] == ran[j].1);
        assert(rule_runs_spec(ran[j].0, rules, available));
    } else if j < a.len() + pk.len() {
        assert(diags[j] == pk[j - a.len()]);
    } else if j < a.len() + pk.len() + ws.len() {
        let i = j - a.len() - pk.len();
        assert(diags[j] == ws[i]);
        assert(ws_resolved(sources, metas, rules, kept_ws(rules, ws_found)[i], ws[i]));
    } else {
        let i = j - a.len() - pk.len() - ws.len();
        assert(diags[j] == e[i]);
        assert(e[i].rule_id == errs[i].rule_id);
    }
}

/// Elements that `unmarked` keeps come from its input.
proof fn lemma_unmarked_from(sources: Seq<SourceFile>, s: Seq<Reportable>)
    ensures
        forall|k: int| 0 <= k < unmarked(sources, s).len() ==> s.contains(#[trigger] unmarked(sources, s)[k]),
    decreases s.len(),
{
    if s.len() > 0 {
        lemma_unmarked_from(sources, s.drop_last());
        let rest = unmarked(sources, s.drop_last());
        let all = unmarked(sources, s);
        assert forall|k: int| 0 <= k < all.len() implies s.contains(#[trigger] all[k]) by {
            if k < rest.len() {
                assert(all[k] == rest[k]);
                let q = choose|q: int| 0 <= q < s.drop_last().len() && s.drop_last()[q] == rest[k];
                assert(s[q] == rest[k]);
            } else {
                assert(s[s.len() - 1] == all[k]);
            }
        }
    }
}

/// `off` is never a finding severity: no reported finding carries it.
pub proof fn law_no_finding_reports_off(
    diags: Seq<Diagnostic>,
    metas: Seq<RuleMeta>,
    rules: RuleDirectives,
    sources: Seq<SourceFile>,
    baseline: Option<Baseline>,
    k: int,
)
    requires
        0 <= k < final_findings(diags, metas, rules, sources, baseline).0.len(),
    ensures
        final_findings(diags, metas, rules, sources, baseline).0[k].diag.severity != Severity::Off,
{
    broadcast use vstd::seq_lib::group_to_multiset_ensures;
    let located = diags.map_values(|d: Diagnostic| reportable_of(sources, metas, rules, d));
    let sorted = sort_reports(located);
    let kept = unmarked(sources, sorted);
    let x = final_findings(diags, metas, rules, sources, baseline).0[k];
    lemma_baseline_pass_keeps_from(baseline, sources, kept);
    assert(kept.contains(x));
    lemma_unmarked_from(sources, sorted);
    assert(sorted.contains(x));
    law_sorted_findings(located);
    assert(sorted.to_multiset().count(x) > 0);
    assert(located.contains(x));
    let j = choose|j: int| 0 <= j < located.len() && located[j] == x;
    assert(x == reportable_of(sources, metas, rules, diags[j]));
}

/// A rule graded `off` that config opts in without a severity reports at
/// warning; with a severity, at that severity (warning in place of `off`).
pub proof fn law_opted_in_off_rule_reports_at_warning(metas: Seq<RuleMeta>, rules: RuleDirectives, meta: RuleMeta)
    requires
        meta_for(metas, meta.id@) == Some(meta),
        meta.default_severity == Severity::Off,
    ensures
        rules.spec_get(meta.id@) == Some(RuleDirective::On(None)) ==> rule_severity(metas, rules, meta.id@) == Some(
            Severity::Warning,
        ),
        rules.spec_get(meta.id@) matches Some(RuleDirective::On(Some(s))) ==> rule_severity(metas, rules, meta.id@)
            == Some(if s == Severity::Off { Severity::Warning } else { s }),
{
}

} // verus!
