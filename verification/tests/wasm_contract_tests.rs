use omni_lint::diagnostic::{Severity, SourceId};
use omni_lint::facts::GuestError;
use omni_lint::wasm::merge::{merge_facts, FileFacts, JsonItem, JsonLeaf};
use omni_lint::wasm::plugin::{
    describe_module, facts_capabilities, merge_parse_errors, module_capabilities, module_extensions,
    parse_diagnostics, validate_plugin_meta, workspace_capabilities, MetaCapability, PluginMeta,
};
use omni_lint::wasm::rule::{
    choose_meta_export, envelope_language, guest_to_rule_finding, pack_failure, rule_default_severity, rule_diagnostics,
    single_to_pack, valid_pack_namespace, valid_rule_name, validate_pack, PackRuleDef, RuleFinding,
    RuleModuleMeta, RulePackMeta, RuleRun,
};
use omni_lint::wasm::session::{
    accept_report, check_input_size, clamp_span, directory_limits, frame, normalize_limits, result_length, slice_range,
    span_of, unframe, GuestFinding, WasmLimits, DEFAULT_FUEL, MAX_RESULT_BYTES, MAX_SPAN_OFFSET,
};
use omni_lint::plugin::CapabilityScope;

fn cap(name: &str, scope: &str) -> MetaCapability {
    MetaCapability { name: name.into(), scope: scope.into() }
}

fn meta(id: &str, caps: Vec<MetaCapability>) -> PluginMeta {
    PluginMeta { id: id.into(), name: None, extensions: vec![".GraphQL".into(), "gql".into()], capabilities: caps }
}

#[test]
fn limits_default_to_metered_fuel() {
    assert_eq!(normalize_limits(WasmLimits::default()).fuel, Some(DEFAULT_FUEL));
    assert_eq!(normalize_limits(WasmLimits { fuel: Some(7) }).fuel, Some(7));
}

#[test]
fn spans_are_clamped() {
    assert_eq!(clamp_span([5, 3]), [5, 5]);
    assert_eq!(clamp_span([u32::MAX, u32::MAX]), [MAX_SPAN_OFFSET, MAX_SPAN_OFFSET]);
    assert_eq!(clamp_span([2, 9]), [2, 9]);
    let s = span_of([4, 1]);
    assert_eq!((s.start, s.end), (4, 4));
}

#[test]
fn frames_round_trip() {
    let body = b"{\"id\":\"x\"}".to_vec();
    let f = frame(&body);
    assert_eq!(&f[..4], &[10, 0, 0, 0]);
    assert_eq!(unframe(&f), Some(body));
    assert_eq!(unframe(&[3, 0, 0, 0, 1]), None);
    assert_eq!(result_length("omni_rule_run", [1, 1, 0, 0]), Ok(257));
    assert_eq!(
        result_length("omni_rule_run", [1, 0, 0, 5]),
        Err("omni_rule_run returned an oversized buffer (83886081 bytes)".to_string())
    );
    assert!(check_input_size(MAX_RESULT_BYTES).is_ok());
    assert_eq!(check_input_size(MAX_RESULT_BYTES + 1), Err("input too large for the guest contract".to_string()));
}

#[test]
fn guest_buffers_are_bounds_checked() {
    assert_eq!(slice_range(4, 6, 10), Ok((4, 10)));
    assert_eq!(slice_range(-1, 6, 10), Err("negative buffer".to_string()));
    assert_eq!(slice_range(8, 6, 10), Err("buffer 8..14 exceeds guest memory 10".to_string()));
}

#[test]
fn streamed_reports_are_capped_and_clamped() {
    let f = GuestFinding { rule_id: None, severity: None, message: "m".into(), span: [9, 2], subject: None, path: None };
    let g = accept_report(0, f).expect("accepted");
    assert_eq!(g.span, [9, 9]);
    let f = GuestFinding { rule_id: None, severity: None, message: "m".into(), span: [0, 0], subject: None, path: None };
    assert_eq!(accept_report(100_000, f).err(), Some("guest reported findings over limit".to_string()));
}

#[test]
fn language_module_meta_is_validated() {
    assert!(validate_plugin_meta("p.wasm", &meta("demo-gql", vec![cap("graphql.facts", "file")])).is_ok());
    assert_eq!(
        validate_plugin_meta("p.wasm", &meta("Demo", vec![cap("graphql.facts", "file")])),
        Err("language module `p.wasm` declares an invalid id \"Demo\" (use lowercase kebab)".to_string())
    );
    assert_eq!(
        validate_plugin_meta("p.wasm", &meta("demo", vec![cap("graphql.facts", "workspace")])),
        Err("language module `p.wasm` must declare a file capability named `<language>.facts`".to_string())
    );
}

#[test]
fn language_module_as_the_engine_sees_it() {
    let m = meta("demo-gql", vec![cap("graphql.facts", "file"), cap("graphql.workspace", "workspace"), cap("x.other", "file")]);
    assert_eq!(module_extensions(&m), vec!["graphql".to_string(), "gql".to_string()]);
    let caps = module_capabilities(&m);
    assert_eq!(caps[1], ("graphql.workspace".to_string(), CapabilityScope::Workspace));
    assert_eq!(caps[2].1, CapabilityScope::File);
    assert_eq!(facts_capabilities(&m), vec!["graphql.facts".to_string()]);
    assert_eq!(workspace_capabilities(&m), vec!["graphql.workspace".to_string()]);
    assert_eq!(describe_module(&m), "demo-gql (sandboxed WASM language module, fuel-metered)");
}

#[test]
fn guest_parse_errors_become_warnings() {
    let errs = vec![GuestError { message: String::new(), span: [3, 1] }, GuestError { message: "bad".into(), span: [0, 2] }];
    let ds = parse_diagnostics("demo-gql", SourceId(5), "a.graphql", Ok(errs));
    assert_eq!(ds.len(), 2);
    assert_eq!(ds[0].rule_id, "demo-gql/parse-error");
    assert_eq!(ds[0].message, "parse error");
    assert_eq!(ds[0].severity, Severity::Warning);
    assert_eq!((ds[0].span.start, ds[0].span.end), (3, 3));
    assert_eq!(ds[1].message, "bad");
    let ds = parse_diagnostics("demo-gql", SourceId(5), "a.graphql", Err("trap".into()));
    assert_eq!(ds.len(), 1);
    assert_eq!(ds[0].rule_id, "demo-gql/error");
    assert_eq!(ds[0].message, "wasm language module failed on a.graphql: trap");
    let many: Vec<GuestError> = (0..40).map(|i| GuestError { message: format!("e{i}"), span: [0, 0] }).collect();
    let more: Vec<GuestError> = (0..40).map(|i| GuestError { message: format!("s{i}"), span: [0, 0] }).collect();
    let merged = merge_parse_errors(many, more);
    assert_eq!(merged.len(), 50);
    assert_eq!(merged[40].message, "s0");
}

#[test]
fn rule_pack_meta_is_validated() {
    let rule = |id: &str| PackRuleDef { id: id.into(), description: "d".into(), severity: None };
    let pack = |ns: &str, req: &str, rules: Vec<PackRuleDef>| RulePackMeta {
        namespace: ns.into(),
        name: None,
        description: None,
        requires: req.into(),
        rules,
    };
    assert_eq!(
        validate_pack("r.wasm", &pack("acme", "graphql.facts", vec![rule("acme/no-empty-type")])),
        Ok(("graphql.facts".to_string(), "graphql.workspace".to_string()))
    );
    assert_eq!(
        validate_pack("r.wasm", &pack("acme", "graphql.workspace", vec![rule("acme/x")])),
        Ok(("graphql.facts".to_string(), "graphql.workspace".to_string()))
    );
    assert_eq!(
        validate_pack("r.wasm", &pack("acme", "graphql.ast", vec![rule("acme/x")])),
        Err("rule pack `r.wasm` has invalid `requires` \"graphql.ast\" (use `<language>.facts` or `<language>.workspace`)".to_string())
    );
    assert_eq!(
        validate_pack("r.wasm", &pack("Acme", "graphql.facts", vec![rule("Acme/x")])),
        Err("rule pack `r.wasm` declares an invalid namespace \"Acme\" (lowercase kebab)".to_string())
    );
    assert_eq!(
        validate_pack("r.wasm", &pack("acme", "graphql.facts", vec![])),
        Err("rule pack `r.wasm` contributes no rules".to_string())
    );
    assert_eq!(
        validate_pack("r.wasm", &pack("acme", "graphql.facts", vec![rule("acme/ok"), rule("other/x")])),
        Err("rule pack `r.wasm` contributes invalid rule id \"other/x\" (ids must be named under the pack namespace `acme`, lowercase kebab)".to_string())
    );
    assert!(valid_pack_namespace("demo-gql"));
    assert!(!valid_pack_namespace("-x"));
    assert!(valid_rule_name("no-empty-type"));
    assert!(!valid_rule_name(""));
    assert_eq!(choose_meta_export("r.wasm", false, true), Ok("omni_rule_meta"));
    assert_eq!(
        choose_meta_export("r.wasm", false, false),
        Err("rule pack `r.wasm` exports neither `omni_pack_meta` (bundle) nor `omni_rule_meta` (single rule)".to_string())
    );
}

#[test]
fn single_rule_module_is_a_pack_of_one() {
    let s = RuleModuleMeta {
        id: "demo-gql/no-empty-type".into(),
        description: "desc".into(),
        severity: Some("off".into()),
        requires: "graphql.facts".into(),
    };
    let p = single_to_pack(&s);
    assert_eq!(p.namespace, "demo-gql");
    assert_eq!(p.rules.len(), 1);
    assert_eq!(p.rules[0].id, "demo-gql/no-empty-type");
    assert_eq!(rule_default_severity(&p.rules[0]), Severity::Off);
    let r = PackRuleDef { id: "a/b".into(), description: String::new(), severity: Some("bogus".into()) };
    assert_eq!(rule_default_severity(&r), Severity::Warning);
}

fn finding(rule: Option<&str>, sev: Option<&str>, path: Option<&str>) -> RuleFinding {
    RuleFinding {
        rule_id: rule.map(|s| s.to_string()),
        severity: sev.map(|s| s.to_string()),
        message: "msg".into(),
        span: [4, 2],
        subject: Some("type:X".into()),
        path: path.map(|s| s.to_string()),
    }
}

#[test]
fn pack_findings_become_the_rules_diagnostics() {
    let run = RuleRun {
        rule_id: "acme/r".into(),
        default_severity: Severity::Error,
        only_path: None,
        fallback: SourceId(1),
        paths: vec![("a.graphql".into(), SourceId(1)), ("b.graphql".into(), SourceId(2))],
        module_file: "rules/acme.wasm".into(),
    };
    let fs = vec![
        finding(None, None, Some("b.graphql")),
        finding(Some("other/rule"), None, Some("b.graphql")),
        finding(Some("acme/r"), Some("info"), Some("a.graphql")),
        finding(None, Some("off"), None),
        finding(None, None, Some("zzz.graphql")),
    ];
    let ds = rule_diagnostics(&run, &fs);
    assert_eq!(ds.len(), 4);
    assert!(ds.iter().all(|d| d.rule_id == "acme/r"));
    assert_eq!((ds[0].source_id, ds[0].severity), (SourceId(2), Severity::Error));
    assert_eq!((ds[0].span.start, ds[0].span.end), (4, 4));
    assert_eq!((ds[1].source_id, ds[1].severity), (SourceId(1), Severity::Info));
    assert_eq!((ds[2].source_id, ds[2].severity), (SourceId(1), Severity::Error));
    assert_eq!(ds[3].message, "rule reported a finding for unknown path `zzz.graphql` (module: rules/acme.wasm)");
    assert_eq!(ds[3].subject, None);
    let f = pack_failure(&run, "trap");
    assert_eq!(f.message, "rule pack failed: trap (module: rules/acme.wasm)");
    let g = GuestFinding { rule_id: Some("a/b".into()), severity: None, message: "m".into(), span: [1, 2], subject: None, path: None };
    let r = guest_to_rule_finding(&g);
    assert_eq!(r.rule_id.as_deref(), Some("a/b"));
    assert_eq!(r.span, [1, 2]);
}

#[test]
fn a_finding_without_a_path_goes_to_the_only_file() {
    let run = RuleRun {
        rule_id: "acme/r".into(),
        default_severity: Severity::Warning,
        only_path: Some("b.graphql".into()),
        fallback: SourceId(1),
        paths: vec![("a.graphql".into(), SourceId(1)), ("b.graphql".into(), SourceId(2))],
        module_file: "m".into(),
    };
    let ds = rule_diagnostics(&run, &vec![finding(None, None, None)]);
    assert_eq!(ds[0].source_id, SourceId(2));
}

fn obj(pairs: &[(&str, &str)]) -> JsonItem {
    JsonItem::Object(pairs.iter().map(|(k, v)| (k.to_string(), JsonLeaf::Str(v.to_string()))).collect())
}

#[test]
fn merged_facts_carry_paths_and_deduplicate_directives() {
    let a = FileFacts {
        path: "a.graphql".into(),
        defs: Some(vec![obj(&[("name", "A"), ("path", "stale")])]),
        uses: Some(vec![obj(&[("name", "B")]), JsonItem::Other(JsonLeaf::Text("1".into()))]),
        directives_defined: Some(vec![JsonLeaf::Str("d1".into()), JsonLeaf::Str("d1".into())]),
        directives_used: None,
        has_entry_block: Some(false),
        roots: Some(vec![JsonLeaf::Text("[\"query\",\"A\"]".into())]),
    };
    let b = FileFacts {
        path: "b.graphql".into(),
        defs: Some(vec![obj(&[("name", "B")])]),
        uses: None,
        directives_defined: Some(vec![JsonLeaf::Str("d2".into()), JsonLeaf::Str("d1".into())]),
        directives_used: Some(vec![JsonLeaf::Str("d2".into())]),
        has_entry_block: Some(true),
        roots: None,
    };
    let m = merge_facts(&vec![a, b]);
    assert_eq!(m.defs.len(), 2);
    match &m.defs[0] {
        JsonItem::Object(es) => {
            assert_eq!(es.len(), 2);
            assert_eq!(es[1].0, "path");
            match &es[1].1 {
                JsonLeaf::Str(p) => assert_eq!(p, "a.graphql"),
                _ => panic!("path must be a string"),
            }
        }
        _ => panic!("defs stay objects"),
    }
    match &m.defs[1] {
        JsonItem::Object(es) => assert_eq!(es[1].0, "path"),
        _ => panic!("defs stay objects"),
    }
    assert_eq!(m.uses.len(), 2);
    let names: Vec<String> = m
        .directives_defined
        .iter()
        .map(|l| match l {
            JsonLeaf::Str(s) => s.clone(),
            JsonLeaf::Text(t) => t.clone(),
        })
        .collect();
    assert_eq!(names, vec!["d1".to_string(), "d2".to_string()]);
    assert_eq!(m.directives_used.len(), 1);
    assert!(m.has_entry_block);
    assert_eq!(m.roots.len(), 1);
}

#[test]
fn directory_limits_read_the_configured_fuel() {
    assert_eq!(directory_limits(None).fuel, Some(DEFAULT_FUEL));
    assert_eq!(directory_limits(Some(10)).fuel, Some(10));
    assert_eq!(directory_limits(Some(-5)).fuel, Some(0));
}

#[test]
fn envelope_language_is_the_capability_prefix() {
    assert_eq!(envelope_language("graphql.facts"), "graphql");
    assert_eq!(envelope_language("a.b.c"), "a");
    assert_eq!(envelope_language("plain"), "plain");
}

#[test]
fn only_path_is_set_for_a_single_file() {
    assert_eq!(omni_lint::wasm::rule::only_path_of(&vec!["a.graphql".to_string()]).as_deref(), Some("a.graphql"));
    assert_eq!(omni_lint::wasm::rule::only_path_of(&vec!["a.graphql".to_string(), "b.graphql".to_string()]), None);
    assert_eq!(omni_lint::wasm::rule::only_path_of(&Vec::new()), None);
}
