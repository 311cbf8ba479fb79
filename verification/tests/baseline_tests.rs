use omni_lint::baseline::{
    is_suppressed, parse_suppress_markers, Baseline, BaselineEntry, BaselineMatch, BaselinePair,
    PairBudget,
};
use omni_lint::diagnostic::{Diagnostic, Severity, SourceId, Span};

fn d(rule: &str, subject: Option<&str>, sp: Span) -> Diagnostic {
    Diagnostic {
        rule_id: rule.into(),
        severity: Severity::Warning,
        message: "msg".into(),
        source_id: SourceId(0),
        span: sp,
        related: vec![],
        subject: subject.map(|s| s.to_string()),
    }
}

fn d2(rule: &str) -> Diagnostic {
    Diagnostic {
        rule_id: rule.into(),
        severity: Severity::Warning,
        message: "m".into(),
        source_id: SourceId(0),
        span: Span::new(0, 1),
        related: vec![],
        subject: Some("subject".into()),
    }
}

#[test]
fn baseline_subject_identity_matches() {
    let b = Baseline {
        entries: vec![BaselineEntry {
            rule_id: "graphql/no-empty-type".into(),
            path: "a.graphql".into(),
            subject: Some("type:User.field:name".into()),
            line: 3,
            fingerprint: "deadbeef".into(),
        }],
        ..Default::default()
    };
    // Same subject: baselined even with a different fingerprint.
    let m = b.classify(
        &d("graphql/no-empty-type", Some("type:User.field:name"), Span::new(0, 4)),
        "a.graphql",
        "ffff",
        &mut PairBudget::new(),
    );
    assert!(matches!(m, BaselineMatch::Baselined(_)));
    // Different subject: new.
    let m = b.classify(
        &d("graphql/no-empty-type", Some("type:User.field:other"), Span::new(0, 4)),
        "a.graphql",
        "ffff",
        &mut PairBudget::new(),
    );
    assert!(matches!(m, BaselineMatch::New));
}

#[test]
fn baseline_fingerprint_fallback_matches() {
    let b = Baseline {
        entries: vec![BaselineEntry {
            rule_id: "r/x".into(),
            path: "a.rs".into(),
            subject: None,
            line: 3,
            fingerprint: "ffff".into(),
        }],
        ..Default::default()
    };
    let m = b.classify(&d("r/x", None, Span::new(0, 4)), "a.rs", "ffff", &mut PairBudget::new());
    assert!(matches!(m, BaselineMatch::Baselined(_)));
    let m = b.classify(&d("r/x", None, Span::new(0, 4)), "a.rs", "eeee", &mut PairBudget::new());
    assert!(matches!(m, BaselineMatch::New));
}

#[test]
fn suppress_markers_parse_and_match() {
    let src = "keep(1)\n# omni-lint-disable-next-line\ndropped(2)\n# omni-lint-disable-next-line rule/a rule/b\nkept(3)\n";
    let markers = parse_suppress_markers(src);
    assert_eq!(markers.len(), 2);
    // line 3: all rules suppressed
    assert!(is_suppressed(3, "any/rule", &markers));
    // line 5: only the two named rules suppressed
    assert!(is_suppressed(5, "rule/a", &markers));
    assert!(is_suppressed(5, "rule/b", &markers));
    assert!(!is_suppressed(5, "rule/c", &markers));
    assert!(!is_suppressed(1, "rule/a", &markers));
}

#[test]
fn pair_budget_suppresses_then_re_flags_excess() {
    let b = Baseline {
        pairs: vec![BaselinePair { rule_id: "ex/rule".into(), path: "f.x".into(), count: 2 }],
        ..Default::default()
    };
    let mut budget = PairBudget::new();
    // first two suppressed (ratchet fills the recorded backlog)
    assert!(matches!(b.classify(&d2("ex/rule"), "f.x", "fp", &mut budget), BaselineMatch::Baselined(_)));
    assert!(matches!(b.classify(&d2("ex/rule"), "f.x", "fp", &mut budget), BaselineMatch::Baselined(_)));
    // third one re-flags: over-baseline growth is never hidden
    assert!(matches!(b.classify(&d2("ex/rule"), "f.x", "fp", &mut budget), BaselineMatch::New));
    // a different pair keeps its own budget
    assert!(matches!(b.classify(&d2("ex/rule"), "g.y", "fp", &mut budget), BaselineMatch::New));
}

#[test]
fn unknown_rule_errors_are_distinct_from_findings() {
    // Config errors route to exit 2 via the CLI; this pins the shape.
    assert_ne!(omni_lint::runner::ExitCode::Config, omni_lint::runner::ExitCode::Findings);
    assert_eq!(omni_lint::runner::ExitCode::Config.code(), 2);
    assert_eq!(omni_lint::runner::ExitCode::Findings.code(), 1);
}

#[test]
fn suppress_marker_all_covers_every_rule() {
    let src = "a\n// omni-lint-disable-next-line all\nb\n  # omni-lint-disable-next-line x/y,z/w\nc\n";
    let markers = parse_suppress_markers(src);
    assert_eq!(markers.len(), 2);
    assert!(is_suppressed(3, "any/rule", &markers));
    assert!(is_suppressed(5, "x/y", &markers));
    assert!(is_suppressed(5, "z/w", &markers));
    assert!(!is_suppressed(5, "q/q", &markers));
    assert!(!is_suppressed(4, "x/y", &markers));
}

#[test]
fn suppress_marker_all_is_the_empty_id_list() {
    let markers = parse_suppress_markers("# omni-lint-disable-next-line all\nx\n");
    assert_eq!(markers.entries.len(), 1);
    assert_eq!(markers.entries[0].line, 2);
    assert!(markers.entries[0].rules.is_empty());
    assert!(is_suppressed(2, "any/rule", &markers));
    assert!(!is_suppressed(1, "any/rule", &markers));
    // `all` among other ids still means every rule
    let mixed = parse_suppress_markers("x\n// omni-lint-disable-next-line a/b all\ny\n");
    assert!(mixed.entries[0].rules.is_empty());
    assert!(is_suppressed(3, "c/d", &mixed));
}

#[test]
fn suppress_marker_ids_are_kept_once() {
    let markers = parse_suppress_markers("# omni-lint-disable-next-line b/b a/a,b/b  a/a\nx\n");
    assert_eq!(markers.entries[0].rules, vec!["b/b".to_string(), "a/a".to_string()]);
    assert!(is_suppressed(2, "a/a", &markers));
    assert!(!is_suppressed(2, "c/c", &markers));
}

#[test]
fn epoch_stamps_are_the_seconds_in_decimal() {
    assert_eq!(omni_lint::baseline::epoch_stamp_of(0), "epoch-0");
    assert_eq!(omni_lint::baseline::epoch_stamp_of(1_700_000_000), "epoch-1700000000");
    let now = omni_lint::baseline::now_iso();
    assert!(now.starts_with("epoch-"));
    assert!(now.len() > 6 && now[6..].chars().all(|c| c.is_ascii_digit()));
}
