use omni_lint::baseline::{Baseline, BaselineEntry, Reportable, SeverityTotals};
use omni_lint::cli::{parse_args, pruned_line, recorded_line, rule_line, summary_line, unknown_rule_error, UsageKind};
use omni_lint::config::{Config, RuleDirective, RuleDirectives, TomlTable, TomlValue};
use omni_lint::diagnostic::{Diagnostic, Located, Severity, SourceId, Span};
use omni_lint::discovery::{extension_wanted, is_skipped_name, order_sources};
use omni_lint::plugin::{Capability, CapabilityScope, RuleMeta};
use omni_lint::registry::{check_rule_id, plugin_by_extension, rule_namespace, PluginInfo};
use omni_lint::report::{format_text, report_json, OutputFormat};
use omni_lint::runner::{
    choose_plugins, exit_code, finalize, fingerprint, needed_capabilities, prune, rule_runs, ExitCode,
};
use omni_lint::source::{extension_of, SourceFile};
use omni_lint::todo::pair_counts;

fn src(id: u32, path: &str, text: &str) -> SourceFile {
    SourceFile::new(SourceId(id), path.to_string(), text.as_bytes().to_vec())
}

fn diag(rule: &str, severity: Severity, source: u32, start: u32, end: u32, subject: Option<&str>) -> Diagnostic {
    Diagnostic {
        rule_id: rule.to_string(),
        severity,
        message: "m".to_string(),
        source_id: SourceId(source),
        span: Span::new(start, end),
        related: Vec::new(),
        subject: subject.map(|s| s.to_string()),
    }
}

fn strings(v: &[&str]) -> Vec<String> {
    v.iter().map(|s| s.to_string()).collect()
}

fn meta(id: &'static str, requires: &'static str) -> RuleMeta {
    RuleMeta { id, description: "d", default_severity: Severity::Warning, requires }
}

fn totals(info: usize, warning: usize, error: usize) -> SeverityTotals {
    SeverityTotals { info, warning, error, off: 0 }
}

#[test]
fn source_locates_lines_and_columns() {
    let s = src(1, "a.graphql", "type A {}\n  bad line here\n");
    assert_eq!(s.locate(Span::new(12, 15)), Located { path: "a.graphql".to_string(), line: 2, column: 3 });
    assert_eq!(s.locate(Span::new(0, 1)), Located { path: "a.graphql".to_string(), line: 1, column: 1 });
    assert_eq!(s.line_text(12), ("  bad line here", 2));
    assert_eq!(s.line_span_start(12), 10);
    assert_eq!(s.span_text(Span::new(12, 15)), "bad");
    assert_eq!(s.span_text(Span::new(30, 40)), "", "spans are clamped to the file");
    assert_eq!(s.text(), "type A {}\n  bad line here\n");
    assert_eq!(s.extension().as_deref(), Some("graphql"));
    let bad = SourceFile::new(SourceId(2), "x.bin".to_string(), vec![0xff, 0xfe]);
    assert_eq!(bad.text(), "", "invalid UTF-8 reads as empty text");
}

#[test]
fn extensions_are_lowercased_without_the_dot() {
    assert_eq!(extension_of("dir/X.GQL").as_deref(), Some("gql"));
    assert_eq!(extension_of("a.tar.gz").as_deref(), Some("gz"));
    assert_eq!(extension_of("Makefile"), None);
    assert_eq!(extension_of(".hidden"), None);
}

#[test]
fn fingerprint_hashes_subject_and_span_text() {
    let s = src(0, "a.txt", "hello world");
    assert_eq!(fingerprint(&s, Span::new(0, 5), None), "175a75897fe41489");
    assert_eq!(fingerprint(&s, Span::new(0, 5), Some("type:A")), "31ed5277fa191a18");
    assert_eq!(fingerprint(&s, Span::new(20, 30), None), "af63f14c8602103b");
}

#[test]
fn exit_codes_follow_findings_and_the_warning_budget() {
    assert_eq!(exit_code(0, &totals(0, 0, 0), None), ExitCode::Clean);
    assert_eq!(exit_code(2, &totals(0, 2, 0), None), ExitCode::Findings);
    assert_eq!(exit_code(2, &totals(0, 2, 0), Some(2)), ExitCode::Clean);
    assert_eq!(exit_code(1, &totals(0, 3, 0), Some(2)), ExitCode::Findings);
    assert_eq!(exit_code(3, &totals(0, 2, 1), Some(999)), ExitCode::Findings, "errors are never budgeted");
    assert_eq!(exit_code(1, &totals(1, 0, 0), Some(0)), ExitCode::Clean);
    assert_eq!(ExitCode::Internal.code(), 3);
    assert_eq!(ExitCode::Clean.code(), 0);
}

#[test]
fn command_lines_parse() {
    let u = parse_args(&strings(&["check", "dir", "--format=json", "--max-warnings=3", "--pairs"])).expect("parses");
    assert_eq!(u.kind, UsageKind::Check);
    assert_eq!(u.positional, strings(&["dir"]));
    assert_eq!(u.format, OutputFormat::Json);
    assert_eq!(u.max_warnings, Some(3));
    assert!(u.pairs);

    let u = parse_args(&strings(&["todo", "prune", "-f", "text", "--max-warnings", "+7", "--", "root"])).expect("parses");
    assert_eq!(u.kind, UsageKind::TodoPrune);
    assert_eq!(u.format, OutputFormat::Text);
    assert_eq!(u.max_warnings, Some(7));
    assert_eq!(u.positional, strings(&["root"]));

    let u = parse_args(&strings(&[])).expect("parses");
    assert_eq!(u.kind, UsageKind::Check);
    assert!(u.positional.is_empty());
    assert_eq!(parse_args(&strings(&["list-rules", "-h"])).expect("parses").kind, UsageKind::Help);
    assert_eq!(parse_args(&strings(&["-V"])).expect("parses").kind, UsageKind::Version);
    assert_eq!(parse_args(&strings(&["todo", "generate"])).expect("parses").kind, UsageKind::TodoGenerate);
    let u = parse_args(&strings(&["check", "list-rules"])).expect("parses");
    assert_eq!(u.positional, strings(&["list-rules"]), "a second command word is a root");
}

#[test]
fn command_line_errors_are_config_errors() {
    let err = |args: &[&str]| parse_args(&strings(args)).err().expect("refused");
    assert_eq!(err(&["--format", "xml"]), ("unknown output format \"xml\" (text, json)".to_string(), ExitCode::Config));
    assert_eq!(err(&["--format"]), ("--format needs a value".to_string(), ExitCode::Config));
    assert_eq!(err(&["--max-warnings"]), ("--max-warnings needs a count".to_string(), ExitCode::Config));
    assert_eq!(err(&["--max-warnings", "abc"]), ("--max-warnings must be a count, got \"abc\"".to_string(), ExitCode::Config));
    assert_eq!(err(&["--max-warnings=-1"]), ("--max-warnings must be a count, got \"-1\"".to_string(), ExitCode::Config));
    assert_eq!(err(&["-x"]), ("unknown argument \"-x\"; use `-h` for usage".to_string(), ExitCode::Config));
    assert_eq!(err(&["todo"]), ("todo requires `generate` or `prune`".to_string(), ExitCode::Config));
    assert_eq!(err(&["todo", "list"]), ("todo requires `generate` or `prune`".to_string(), ExitCode::Config));
}

#[test]
fn report_lines() {
    assert_eq!(summary_line(3, 1, 0), "3: 1 finding, 0 baselined.");
    assert_eq!(summary_line(3, 1, 2), "3: 1 findings, 2 baselined.");
    assert_eq!(summary_line(1, 0, 0), "1: 0 findings, 0 baselined.");
    assert_eq!(pruned_line(1), "pruned 1 stale baseline entry");
    assert_eq!(pruned_line(2), "pruned 2 stale baseline entries");
    assert_eq!(recorded_line(5, false, "b.json"), "recorded 5 findings with per-finding identity in b.json");
    assert_eq!(recorded_line(2, true, "b.json"), "recorded 2 findings as (rule, path) pairs in b.json");
    let m = RuleMeta { id: "a/b", description: "Desc.", default_severity: Severity::Error, requires: "x.facts" };
    assert_eq!(rule_line(&m), "a/b: Desc. (default severity: error, reads: x.facts)");
    let m = RuleMeta { id: "a/c", description: "Other.", default_severity: Severity::Info, requires: "" };
    assert_eq!(rule_line(&m), "a/c: Other. (default severity: info, reads: -)");
}

#[test]
fn unknown_rules_in_config_are_named() {
    let mut rules = RuleDirectives::new();
    rules.insert("z/late".to_string(), RuleDirective::Off);
    rules.insert("a/known".to_string(), RuleDirective::On(None));
    rules.insert("b/early".to_string(), RuleDirective::On(Some(Severity::Info)));
    let ids = strings(&["a/known"]);
    assert_eq!(
        unknown_rule_error(&rules, &ids).as_deref(),
        Some("unknown rule \"b/early\" in config; run `omni-lint list-rules` for the registered set")
    );
    assert_eq!(unknown_rule_error(&rules, &strings(&["a/known", "b/early", "z/late"])), None);
    assert!(rules.is_off("z/late"));
    assert_eq!(rules.get("b/early"), Some(RuleDirective::On(Some(Severity::Info))));
    assert_eq!(rules.get("none/here"), None);
}

#[test]
fn rule_ids_are_checked_at_registration() {
    assert_eq!(
        check_rule_id("bad", &Vec::new()),
        Err("rule id \"bad\" is invalid: use `namespace/rule-name` (lowercase kebab)".to_string())
    );
    assert_eq!(
        check_rule_id("a/b", &strings(&["x/y", "a/b"])),
        Err("rule `a/b` is already registered; two rules from different origins cannot share an id".to_string())
    );
    assert_eq!(check_rule_id("a/c", &strings(&["a/b"])), Ok(()));
    assert_eq!(rule_namespace("demo-gql/no-empty-type"), "demo-gql");
}

fn plugins() -> Vec<PluginInfo> {
    vec![
        PluginInfo {
            id: "graphql".to_string(),
            extensions: strings(&["graphql", "gql"]),
            capabilities: vec![
                Capability { name: "graphql.ast", scope: CapabilityScope::File },
                Capability { name: "graphql.schema", scope: CapabilityScope::Workspace },
            ],
        },
        PluginInfo {
            id: "demo-gql".to_string(),
            extensions: strings(&["graphql"]),
            capabilities: vec![Capability { name: "graphql.facts", scope: CapabilityScope::File }],
        },
    ]
}

#[test]
fn plugins_are_chosen_by_extension_and_preference() {
    let ps = plugins();
    assert_eq!(plugin_by_extension(&ps, "graphql", None), Some(0));
    assert_eq!(plugin_by_extension(&ps, "graphql", Some("demo-gql")), Some(1));
    assert_eq!(plugin_by_extension(&ps, "gql", Some("demo-gql")), Some(0));
    assert_eq!(plugin_by_extension(&ps, "graphql", Some("nope")), Some(0));
    assert_eq!(plugin_by_extension(&ps, "txt", None), None);
    let exts = vec![Some("graphql".to_string()), Some("gql".to_string()), None, Some("txt".to_string())];
    assert_eq!(choose_plugins(&ps, &exts, None), vec![0]);
    assert_eq!(choose_plugins(&ps, &exts, Some("demo-gql")), vec![1, 0]);
}

#[test]
fn capabilities_decide_what_runs() {
    let metas = vec![meta("a/ws", "graphql.schema"), meta("b/none", ""), meta("c/off", "other.facts"), meta("d/ws2", "graphql.schema")];
    let mut rules = RuleDirectives::new();
    rules.insert("c/off".to_string(), RuleDirective::Off);
    let mut needed = needed_capabilities(&metas, &rules);
    needed.sort();
    needed.dedup();
    assert_eq!(needed, strings(&["graphql.schema"]));
    let available = strings(&["graphql.ast"]);
    assert!(rule_runs(&meta("x/y", "graphql.ast"), &rules, &available));
    assert!(rule_runs(&meta("x/z", ""), &rules, &available));
    assert!(!rule_runs(&meta("x/w", "graphql.schema"), &rules, &available));
    assert!(!rule_runs(&meta("c/off", "graphql.ast"), &rules, &available));
}

fn table(entries: Vec<(&str, TomlValue)>) -> TomlTable {
    TomlTable { entries: entries.into_iter().map(|(k, v)| (k.to_string(), v)).collect() }
}

fn text(s: &str) -> TomlValue {
    TomlValue::Str(s.to_string())
}

#[test]
fn config_reads_rules_targets_and_options() {
    let raw = table(vec![
        (
            "rules",
            TomlValue::Table(table(vec![
                ("a/b", TomlValue::Table(table(vec![("enabled", TomlValue::Bool(false)), ("severity", text("error"))]))),
                ("c/d", TomlValue::Table(table(vec![("enabled", text("warn"))]))),
                ("e/f", TomlValue::Table(table(vec![("severity", text("info"))]))),
                ("g/h", TomlValue::Table(table(vec![]))),
            ])),
        ),
        ("targets", TomlValue::Table(table(vec![("extensions", TomlValue::Array(vec![text(".GraphQL"), text("gql")]))]))),
        ("ignore", text("generated")),
        ("baseline", text("b.json")),
        ("prefer", text("demo-gql")),
        ("plugins", TomlValue::Table(table(vec![("graphql", TomlValue::Table(table(vec![("strict", TomlValue::Bool(true))])))]))),
    ]);
    let cfg = Config::from_table(raw).expect("valid");
    assert_eq!(cfg.rules.get("a/b"), Some(RuleDirective::Off));
    assert_eq!(cfg.rules.get("c/d"), Some(RuleDirective::On(Some(Severity::Warning))));
    assert_eq!(cfg.rules.get("e/f"), Some(RuleDirective::On(Some(Severity::Info))));
    assert_eq!(cfg.rules.get("g/h"), Some(RuleDirective::On(None)));
    assert_eq!(cfg.extensions, Some(strings(&["graphql", "gql"])));
    assert_eq!(cfg.ignore, strings(&["generated"]));
    assert_eq!(cfg.baseline.as_deref(), Some("b.json"));
    assert_eq!(cfg.prefer.as_deref(), Some("demo-gql"));
    assert_eq!(cfg.plugins.len(), 1);
    assert_eq!(cfg.plugins[0].0, "graphql");
    assert!(cfg.is_ignored("generated/x.graphql"));
    assert!(cfg.is_ignored("src/generated/a.graphql"));
    assert!(!cfg.is_ignored("gen/a.graphql"));
}

#[test]
fn config_errors_name_the_offending_key() {
    let rule = |v: TomlValue| table(vec![("rules", TomlValue::Table(table(vec![("x/y", v)])))]);
    let err = |raw: TomlTable| Config::from_table(raw).err().expect("refused");
    assert_eq!(err(rule(TomlValue::Int(3))), "[rules.\"x/y\"] must be a table");
    assert_eq!(err(rule(TomlValue::Table(table(vec![("severity", TomlValue::Int(1))])))), "severity for rule \"x/y\" must be a string");
    assert_eq!(err(rule(TomlValue::Table(table(vec![("severity", text("loud"))])))), "unknown severity \"loud\" for rule \"x/y\"");
    assert_eq!(err(rule(TomlValue::Table(table(vec![("enabled", text("loud"))])))), "unknown severity \"loud\" for rule \"x/y\"");
    assert_eq!(err(table(vec![("ignore", TomlValue::Int(5))])), "ignore must be a string or array of strings");
    assert_eq!(err(table(vec![("ignore", TomlValue::Array(vec![TomlValue::Int(1)]))])), "ignore entries must be strings");
    assert_eq!(
        err(table(vec![("targets", TomlValue::Table(table(vec![("extensions", TomlValue::Array(vec![TomlValue::Bool(true)]))])))])),
        "[targets] extensions must be strings"
    );
    assert_eq!(err(table(vec![("plugins", TomlValue::Table(table(vec![("graphql", TomlValue::Int(1))])))])), "[plugins.graphql] must be a table");
}

#[test]
fn ignore_globs_anchor_anywhere() {
    let cfg = Config::from_table(table(vec![("ignore", TomlValue::Array(vec![text("*.gql"), text("vendor/")]))])).expect("valid");
    assert!(cfg.is_ignored("a/b.gql"));
    assert!(cfg.is_ignored("b.gql"));
    assert!(cfg.is_ignored("x/vendor/y.graphql"));
    assert!(!cfg.is_ignored("b.graphql"));
    let none = Config::from_table(table(vec![])).expect("valid");
    assert!(!none.is_ignored("anything"));
}

fn reportable(s: &SourceFile, d: Diagnostic) -> Reportable {
    let located = s.locate(d.span);
    Reportable { diag: d, path: s.path.clone(), located }
}

#[test]
fn text_report_quotes_the_line_with_a_caret() {
    let s = src(1, "a.graphql", "type A {}\n  bad line here\n");
    let r = reportable(&s, diag("r/x", Severity::Warning, 1, 12, 15, None));
    assert_eq!(format_text(&r, &s), "a.graphql:2:3: warning [r/x]: m\n   |\n   2 |   bad line here\n   | ^^^\n");
    let r = reportable(&s, diag("r/x", Severity::Error, 1, 5, 5, None));
    assert_eq!(format_text(&r, &s), "a.graphql:1:6: error [r/x]: m\n   |\n   1 | type A {}\n   |      ^\n");
}

#[test]
fn json_report_carries_locations() {
    let s = src(1, "a.graphql", "type A {}\n  bad line here\n");
    let items = vec![reportable(&s, diag("r/x", Severity::Warning, 1, 12, 15, Some("type:A")))];
    let j = report_json(1, &items, &vec![src(1, "a.graphql", "type A {}\n  bad line here\n")], totals(0, 1, 0));
    assert_eq!(j.files, 1);
    assert_eq!(j.findings.len(), 1);
    let f = &j.findings[0];
    assert_eq!((f.rule_id.as_str(), f.severity.as_str(), f.path.as_str(), f.line, f.column), ("r/x", "warning", "a.graphql", 2, 3));
    assert_eq!(f.subject.as_deref(), Some("type:A"));
    assert!(f.related.is_empty());
}

#[test]
fn pair_counts_group_entries_by_rule_and_path() {
    let e = |rule: &str, path: &str| BaselineEntry {
        rule_id: rule.to_string(),
        path: path.to_string(),
        subject: None,
        line: 1,
        fingerprint: "f".to_string(),
    };
    let pairs = pair_counts(&vec![e("r/b", "a"), e("r/a", "z"), e("r/b", "a"), e("r/a", "b")]);
    let got: Vec<(&str, &str, u64)> = pairs.iter().map(|p| (p.rule_id.as_str(), p.path.as_str(), p.count)).collect();
    assert_eq!(got, vec![("r/a", "b", 1), ("r/a", "z", 1), ("r/b", "a", 2)]);
}

#[test]
fn prune_keeps_live_entries() {
    let entry = |rule: &str, subject: Option<&str>, fp: &str| BaselineEntry {
        rule_id: rule.to_string(),
        path: "a.graphql".to_string(),
        subject: subject.map(|s| s.to_string()),
        line: 1,
        fingerprint: fp.to_string(),
    };
    let b = Baseline {
        generated_at: Some("then".to_string()),
        entries: vec![entry("r/x", Some("type:A"), "f1"), entry("r/x", Some("type:B"), "f2")],
        pairs: Vec::new(),
    };
    let live = vec![("r/x".to_string(), "a.graphql".to_string(), Some("type:A".to_string()), "f1".to_string())];
    let (kept, removed) = prune(b, &live);
    assert_eq!(removed, 1);
    assert_eq!(kept.entries.len(), 1);
    assert_eq!(kept.entries[0].subject.as_deref(), Some("type:A"));
    assert_eq!(kept.generated_at.as_deref(), Some("then"));
}

#[test]
fn finalize_orders_suppresses_and_baselines() {
    let sources = vec![
        src(0, "b.graphql", "type B {}\n# omni-lint-disable-next-line r/x\ntype C {}\n"),
        src(1, "a.graphql", "type A {}\n"),
    ];
    let metas = vec![meta("r/x", ""), RuleMeta { id: "r/y", description: "d", default_severity: Severity::Error, requires: "" }];
    let rules = RuleDirectives::new();
    let diags = vec![
        diag("r/x", Severity::Warning, 0, 48, 49, Some("type:C")),
        diag("r/y", Severity::Error, 0, 5, 6, Some("type:B")),
        diag("r/x", Severity::Warning, 1, 5, 6, Some("type:A")),
    ];
    let r = finalize(diags, 2, &metas, &rules, &sources, &None);
    let got: Vec<(&str, &str, u32)> = r.findings.iter().map(|f| (f.path.as_str(), f.diag.rule_id.as_str(), f.located.line)).collect();
    assert_eq!(got, vec![("a.graphql", "r/x", 1), ("b.graphql", "r/y", 1)], "the marked line is dropped, the rest sorted by path");
    assert_eq!((r.totals.warning, r.totals.error), (1, 1));
    assert_eq!(r.files, 2);
    assert_eq!(r.baselined, 0);

    let baseline = Baseline {
        generated_at: None,
        entries: vec![BaselineEntry {
            rule_id: "r/y".to_string(),
            path: "b.graphql".to_string(),
            subject: Some("type:B".to_string()),
            line: 9,
            fingerprint: "x".to_string(),
        }],
        pairs: Vec::new(),
    };
    let diags = vec![diag("r/y", Severity::Error, 0, 5, 6, Some("type:B")), diag("r/x", Severity::Warning, 1, 5, 6, Some("type:A"))];
    let r = finalize(diags, 2, &metas, &rules, &sources, &Some(baseline));
    assert_eq!(r.baselined, 1);
    assert_eq!(r.findings.len(), 1);
    assert_eq!(r.findings[0].diag.rule_id, "r/x");
    assert_eq!((r.totals.warning, r.totals.error), (1, 0));
}

#[test]
fn severity_names_read_back() {
    for s in [Severity::Info, Severity::Warning, Severity::Error, Severity::Off] {
        assert_eq!(Severity::parse(s.as_str()), Some(s));
    }
    assert_eq!(Severity::Warning.as_str(), "warning");
    assert_eq!(Severity::parse("warn"), Some(Severity::Warning));
    assert_eq!(Severity::parse("loud"), None);
    assert_eq!(OutputFormat::parse("json"), Some(OutputFormat::Json));
    assert_eq!(OutputFormat::parse("xml"), None);
}

#[test]
fn guest_results_are_length_framed() {
    assert_eq!(omni_lint::facts::write_json("[]"), vec![2, 0, 0, 0, b'[', b']']);
    assert_eq!(omni_lint::facts::write_json(""), vec![0, 0, 0, 0]);
}

#[test]
fn discovery_skips_and_filters() {
    assert!(is_skipped_name(".git"));
    assert!(is_skipped_name(".github"));
    assert!(is_skipped_name("node_modules"));
    assert!(is_skipped_name("target"));
    assert!(!is_skipped_name("targets"));
    assert!(!is_skipped_name("git"));
    let plugins = strings(&["graphql", "gql"]);
    let configured = strings(&["txt"]);
    assert!(extension_wanted(Some("gql"), Some(&plugins), Some(&configured)));
    assert!(!extension_wanted(Some("txt"), Some(&plugins), Some(&configured)), "the plugins' extensions decide when given");
    assert!(extension_wanted(Some("txt"), None, Some(&configured)));
    assert!(!extension_wanted(Some("md"), None, Some(&configured)));
    assert!(extension_wanted(Some("md"), None, None));
    assert!(!extension_wanted(None, None, None), "files without an extension are never linted");
    let ordered = order_sources(vec![src(0, "b/x.graphql", ""), src(1, "a.graphql", ""), src(2, "b/a.graphql", "")]);
    let got: Vec<(u32, &str)> = ordered.iter().map(|s| (s.id.0, s.path.as_str())).collect();
    assert_eq!(got, vec![(1, "a.graphql"), (2, "b/a.graphql"), (0, "b/x.graphql")]);
}

#[test]
fn rules_graded_off_wait_for_an_opt_in() {
    let quiet = RuleMeta { id: "p/quiet", description: "d", default_severity: Severity::Off, requires: "" };
    let none = RuleDirectives::new();
    assert!(!rule_runs(&quiet, &none, &Vec::new()), "silent until config opts in");
    let mut opted = RuleDirectives::new();
    opted.insert("p/quiet".to_string(), RuleDirective::On(None));
    assert!(rule_runs(&quiet, &opted, &Vec::new()));
    let mut graded = RuleDirectives::new();
    graded.insert("p/quiet".to_string(), RuleDirective::On(Some(Severity::Warning)));
    assert!(rule_runs(&quiet, &graded, &Vec::new()));
    let needs = RuleMeta { id: "p/ws", description: "d", default_severity: Severity::Off, requires: "x.workspace" };
    assert!(needed_capabilities(&vec![needs], &none).is_empty(), "an idle rule needs no workspace");
}

#[test]
fn extensions_follow_the_unix_path_rules() {
    assert_eq!(extension_of("dir/X.GQL/").as_deref(), Some("gql"));
    assert_eq!(extension_of("foo.txt/.").as_deref(), Some("txt"));
    assert_eq!(extension_of("x.y/..").as_deref(), None);
    assert_eq!(extension_of("a.").as_deref(), Some(""));
    assert_eq!(extension_of("..x").as_deref(), Some("x"));
    assert_eq!(extension_of("a.b\\c").as_deref(), Some("b\\c"));
    assert_eq!(extension_of("d.ir/file").as_deref(), None);
    assert_eq!(extension_of(""), None);
    assert_eq!(extension_of("/"), None);
}

#[test]
fn report_totals_list_nonzero_severities_in_order() {
    let t = omni_lint::baseline::SeverityTotals { info: 2, warning: 0, error: 1, off: 0 };
    assert_eq!(omni_lint::report::total_entries(&t), vec![(omni_lint::diagnostic::Severity::Info, 2), (omni_lint::diagnostic::Severity::Error, 1)]);
    let none = omni_lint::baseline::SeverityTotals { info: 0, warning: 0, error: 0, off: 0 };
    assert!(omni_lint::report::total_entries(&none).is_empty());
}

#[test]
fn findings_of_rules_turned_off_never_reach_the_report() {
    let sources = vec![src(0, "a.graphql", "type A {}\ntype B {}\n")];
    let metas = vec![meta("r/on", ""), meta("r/off", "")];
    let mut rules = RuleDirectives::new();
    rules.insert("r/off".to_string(), RuleDirective::Off);
    assert!(!rule_runs(&meta("r/off", ""), &rules, &Vec::new()));
    let parsed = vec![
        diag("r/off", Severity::Warning, 0, 10, 11, None),
        diag("r/on", Severity::Error, 0, 15, 16, None),
        diag("r/on", Severity::Error, 0, 5, 6, None),
    ];
    let kept = omni_lint::runner::plugin_findings(&metas, &rules, parsed);
    let r = finalize(kept, 1, &metas, &rules, &sources, &None);
    let got: Vec<(&str, u32, u32, Severity)> =
        r.findings.iter().map(|f| (f.diag.rule_id.as_str(), f.located.line, f.located.column, f.diag.severity)).collect();
    assert_eq!(got, vec![("r/on", 1, 6, Severity::Warning), ("r/on", 2, 6, Severity::Warning)]);
}

#[test]
fn token_spans_follow_each_other() {
    let toks = omni_lint::graphql::lexer::tokenize("type A { x: [B!]! } # c\n\"s\"").expect("lexes");
    for w in toks.windows(2) {
        assert!(w[0].span.0 < w[0].span.1 && w[0].span.1 <= w[1].span.0);
    }
    assert_eq!(toks.last().map(|t| t.span), Some((24, 27)));
}

#[test]
fn opted_in_off_rule_reports_at_warning() {
    let sources = vec![src(0, "a.graphql", "type A {}\n")];
    let metas = vec![RuleMeta { id: "p/quiet", description: "d", default_severity: Severity::Off, requires: "" }];
    let mut rules = RuleDirectives::new();
    rules.insert("p/quiet".to_string(), RuleDirective::On(None));
    assert!(rule_runs(&metas[0], &rules, &Vec::new()));
    let r = finalize(
        vec![diag("p/quiet", Severity::Off, 0, 5, 6, None), diag("x/unknown", Severity::Off, 0, 0, 1, None)],
        1,
        &metas,
        &rules,
        &sources,
        &None,
    );
    let sev: Vec<Severity> = r.findings.iter().map(|f| f.diag.severity).collect();
    assert_eq!(sev, vec![Severity::Warning, Severity::Warning]);
    assert_eq!((r.totals.warning, r.totals.off), (2, 0));
    let mut graded = RuleDirectives::new();
    graded.insert("p/quiet".to_string(), RuleDirective::On(Some(Severity::Error)));
    let r = finalize(vec![diag("p/quiet", Severity::Off, 0, 5, 6, None)], 1, &metas, &graded, &sources, &None);
    assert_eq!(r.findings[0].diag.severity, Severity::Error);
}

#[test]
fn config_reads_from_toml_text() {
    let text = "ignore = [\"generated/\"]\nprefer = \"graphql\"\n\n[rules.\"acme/no-bar\"]\nenabled = true\n\n[rules.\"a/b\"]\nenabled = false\n\n[rules.\"c/d\"]\nseverity = \"warn\"\n\n[targets]\nextensions = [\".GraphQL\"]\n";
    let cfg = Config::from_str(text).expect("valid");
    assert_eq!(cfg.rules.get("acme/no-bar"), Some(RuleDirective::On(None)));
    assert_eq!(cfg.rules.get("a/b"), Some(RuleDirective::Off));
    assert_eq!(cfg.rules.get("c/d"), Some(RuleDirective::On(Some(Severity::Warning))));
    assert_eq!(cfg.extensions, Some(vec!["graphql".to_string()]));
    assert_eq!(cfg.ignore, vec!["generated/".to_string()]);
    assert_eq!(cfg.prefer.as_deref(), Some("graphql"));
    assert!(cfg.is_ignored("generated/x.graphql"));

    let bad = Config::from_str("[rules\nx = ").err().expect("not toml");
    assert!(bad.starts_with("parse omni-lint.toml: "), "{bad}");
    let refused = Config::from_str("[rules]\n\"x/y\" = 3\n").err().expect("refused");
    assert_eq!(refused, "[rules.\"x/y\"] must be a table");
}

#[test]
fn limits_text_sets_fuel() {
    let fuel = |t: &str| omni_lint::wasm::session::limits_from_text(t).fuel;
    let default = omni_lint::wasm::session::directory_limits(None).fuel;
    assert_eq!(fuel("fuel = 5000\n"), Some(5000));
    assert_eq!(fuel("fuel = -3\n"), Some(0));
    assert_eq!(fuel("fuel = \"many\"\n"), default);
    assert_eq!(fuel("fuel = [\n"), default);
    assert_eq!(fuel(""), default);
}

#[test]
fn partial_diagnostic_round_trips() {
    let mut d = diag("r/x", Severity::Error, 3, 4, 9, Some("type:A"));
    d.related = vec![omni_lint::diagnostic::RelatedSpan { message: "see".to_string(), source_id: SourceId(3), span: Span::new(1, 2) }];
    let pd = d.duplicate().to_partial("a.graphql".to_string());
    assert_eq!(pd.path, "a.graphql");
    let back = pd.diag.into_diagnostic(SourceId(3));
    assert_eq!(back.rule_id, d.rule_id);
    assert_eq!(back.span, d.span);
    assert_eq!(back.subject, d.subject);
    assert_eq!(back.related.len(), 1);
    assert_eq!((back.related[0].message.as_str(), back.related[0].source_id, back.related[0].span), ("see", SourceId(3), Span::new(1, 2)));
}

#[test]
fn fingerprint_follows_the_text_not_the_line() {
    let before = src(0, "a.graphql", "type A {}\n");
    let after = src(0, "a.graphql", "\n\n# moved\ntype A {}\n");
    assert_eq!(fingerprint(&before, Span::new(0, 9), Some("type:A")), fingerprint(&after, Span::new(10, 19), Some("type:A")));
}
