use omni_lint::demo::graphql_plugin::{parse_findings, scan_sdl, workspace_findings};
use omni_lint::demo::rules::{duplicate_type, no_empty_type, no_undefined_type, no_unused_type, pack_run};
use omni_lint::facts::{DefFact, Facts, FieldFact, Finding, UseFact};

fn def(kind: &str, name: &str, span: [u32; 2], fields: usize, path: Option<&str>) -> DefFact {
    DefFact {
        kind: kind.to_string(),
        name: name.to_string(),
        span,
        subject: format!("type:{name}"),
        fields: (0..fields)
            .map(|i| FieldFact {
                name: format!("f{i}"),
                span: [0, 1],
                named_type: Some("String".to_string()),
                required: false,
                directives: Vec::new(),
                subject: format!("type:{name}.field:f{i}"),
            })
            .collect(),
        implements: Vec::new(),
        union_members: Vec::new(),
        enum_values: Vec::new(),
        directives: Vec::new(),
        path: path.map(|p| p.to_string()),
    }
}

fn use_of(name: &str, span: [u32; 2]) -> UseFact {
    UseFact { name: name.to_string(), span, path: None }
}

fn facts(defs: Vec<DefFact>, uses: Vec<UseFact>, entry: bool, roots: Vec<(&str, &str)>) -> Facts {
    Facts {
        defs,
        uses,
        directives_defined: Vec::new(),
        directives_used: Vec::new(),
        has_entry_block: entry,
        roots: roots.into_iter().map(|(k, v)| (k.to_string(), v.to_string())).collect(),
    }
}

fn summary(f: &Finding) -> (Option<&str>, Option<&str>, &str, [u32; 2], Option<&str>, Option<&str>) {
    (
        f.rule_id.as_deref(),
        f.severity.as_deref(),
        f.message.as_str(),
        f.span,
        f.subject.as_deref(),
        f.path.as_deref(),
    )
}

#[test]
fn pack_workspace_rule_flags_unused_type() {
    let ws = facts(
        vec![
            def("object", "QueryRoot", [30, 39], 0, Some("schema/entry.graphql")),
            def("object", "Lonely", [40, 46], 0, Some("schema/entry.graphql")),
        ],
        Vec::new(),
        true,
        vec![("query", "QueryRoot")],
    );
    let fallback = "schema/entry.graphql".to_string();
    let findings = no_unused_type(Some(&ws), Some(&fallback));
    assert_eq!(findings.len(), 1, "Lonely must be flagged");
    assert_eq!(findings[0].subject.as_deref(), Some("type:Lonely"));
}

#[test]
fn unused_type_needs_an_entry_block_and_a_place() {
    let mut ws = facts(vec![def("object", "Lonely", [1, 2], 0, None)], Vec::new(), false, Vec::new());
    assert!(no_unused_type(Some(&ws), None).is_empty());
    ws.has_entry_block = true;
    assert!(no_unused_type(Some(&ws), None).is_empty(), "no path and no fallback: nowhere to report");
    let fallback = "first.graphql".to_string();
    let found = no_unused_type(Some(&ws), Some(&fallback));
    assert_eq!(found[0].path.as_deref(), Some("first.graphql"));
    assert_eq!(found[0].message, "type `Lonely` is defined but never referenced");
    assert!(no_unused_type(None, Some(&fallback)).is_empty());
}

#[test]
fn empty_type_rule_honours_the_allow_list() {
    let files = vec![(
        "a.graphql".to_string(),
        facts(
            vec![
                def("object", "Empty", [5, 10], 0, None),
                def("object", "Allowed", [20, 27], 0, None),
                def("input", "Full", [30, 34], 1, None),
                def("union", "U", [40, 41], 0, None),
            ],
            Vec::new(),
            false,
            Vec::new(),
        ),
    )];
    let found = no_empty_type(&files, &vec!["Allowed".to_string()]);
    assert_eq!(found.len(), 1);
    assert_eq!(
        summary(&found[0]),
        (
            None,
            None,
            "type `Empty` is empty; it must define at least one field",
            [5, 10],
            Some("type:Empty"),
            Some("a.graphql")
        )
    );
}

#[test]
fn undefined_and_duplicate_rules_over_files() {
    let files = vec![
        (
            "a.graphql".to_string(),
            facts(vec![def("object", "X", [1, 2], 1, None), def("object", "X", [3, 4], 1, None)], vec![use_of("Y", [7, 8])], false, Vec::new()),
        ),
        (
            "b.graphql".to_string(),
            facts(vec![def("object", "Y", [1, 2], 1, None), def("object", "Y", [5, 6], 1, None)], vec![use_of("Z", [9, 10])], false, Vec::new()),
        ),
    ];
    let undefined = no_undefined_type(&files);
    assert_eq!(undefined.len(), 1);
    assert_eq!(
        summary(&undefined[0]),
        (None, None, "type `Z` is used but not defined in the schema", [9, 10], Some("type-ref:Z"), Some("b.graphql"))
    );
    let dups = duplicate_type(&files, &vec!["X".to_string()]);
    assert_eq!(dups.len(), 1, "X is ignored; the second Y is flagged");
    assert_eq!(
        summary(&dups[0]),
        (None, None, "type `Y` is defined more than once in the schema", [5, 6], Some("type:Y"), Some("b.graphql"))
    );
}

#[test]
fn pack_run_dispatches_on_the_requested_rules() {
    let files = vec![(
        "a.graphql".to_string(),
        facts(vec![def("object", "X", [1, 2], 1, None), def("object", "X", [3, 4], 1, None)], vec![use_of("Q", [7, 8])], false, Vec::new()),
    )];
    let rules = vec![
        ("demo-gql/duplicate-type".to_string(), Vec::new()),
        ("demo-gql/no-undefined-type".to_string(), Vec::new()),
        ("demo-gql/not-in-the-pack".to_string(), Vec::new()),
    ];
    let (returned, streamed) = pack_run(&rules, &files, None);
    assert_eq!(returned.len(), 1);
    assert_eq!(returned[0].subject.as_deref(), Some("type-ref:Q"));
    assert_eq!(streamed.len(), 1);
    assert_eq!(streamed[0].span, [3, 4]);
    let (returned, streamed) = pack_run(&vec![("demo-gql/duplicate-type".to_string(), vec!["X".to_string()])], &files, None);
    assert!(returned.is_empty() && streamed.is_empty());
}

#[test]
fn plugin_scanner_reads_definitions_and_fields() {
    let src = "type User {\n  name: String!\n  posts: [Post!]!\n}\ntype Empty {}\nscalar Date\n";
    let (facts, errors) = scan_sdl(src).expect("scans");
    assert!(errors.is_empty());
    let defs: Vec<(&str, &str, [u32; 2], usize)> =
        facts.defs.iter().map(|d| (d.kind.as_str(), d.name.as_str(), d.span, d.fields.len())).collect();
    assert_eq!(defs, vec![("object", "User", [5, 9], 2), ("object", "Empty", [53, 58], 0), ("scalar", "Date", [0, 0], 0)]);
    let user = &facts.defs[0];
    assert_eq!(user.fields[0].name, "name");
    assert_eq!(user.fields[0].span, [14, 18]);
    assert_eq!(user.fields[0].named_type.as_deref(), Some("String"));
    assert!(user.fields[0].required);
    assert_eq!(user.fields[1].span, [30, 35]);
    assert_eq!(user.fields[1].named_type.as_deref(), Some("Post"));
    assert_eq!(user.fields[1].subject, "type:User.field:posts");
    let uses: Vec<(&str, [u32; 2])> = facts.uses.iter().map(|u| (u.name.as_str(), u.span)).collect();
    assert_eq!(uses, vec![("Post", [37, 45])]);
    assert!(!facts.has_entry_block);

    let found = parse_findings("s.graphql", &facts);
    assert_eq!(found.len(), 1);
    assert_eq!(
        summary(&found[0]),
        (
            Some("demo-gql/no-empty-type"),
            Some("error"),
            "type `Empty` is empty; it must define at least one field",
            [53, 58],
            Some("type:Empty"),
            Some("s.graphql")
        )
    );
}

#[test]
fn plugin_scanner_schema_block_and_stray_tokens() {
    let (facts, errors) = scan_sdl("schema {\n  query: Query\n}").expect("scans");
    assert!(facts.has_entry_block);
    assert!(facts.roots.is_empty());
    assert_eq!(errors.len(), 1);
    assert_eq!(errors[0].message, "cannot identify token near `: Query\n}`");
    assert_eq!(errors[0].span, [16, 17]);
}

#[test]
fn plugin_scanner_reads_the_type_right_after_a_colon() {
    let (facts, errors) = scan_sdl("type A {\n  b:Int\n  c(arg: X): Y\n}").expect("scans");
    let fields: Vec<(&str, Option<&str>, bool)> =
        facts.defs[0].fields.iter().map(|f| (f.name.as_str(), f.named_type.as_deref(), f.required)).collect();
    assert_eq!(fields, vec![("b", Some("Int"), false), ("arg", Some("X"), false)]);
    let uses: Vec<(&str, [u32; 2])> = facts.uses.iter().map(|u| (u.name.as_str(), u.span)).collect();
    assert_eq!(uses, vec![("X", [26, 27])]);
    let messages: Vec<&str> = errors.iter().map(|e| e.message.as_str()).collect();
    assert_eq!(
        messages,
        vec![
            "cannot identify token near `(arg: X): Y\n`",
            "cannot identify token near `): Y\n}`",
            "cannot identify token near `: Y\n}`"
        ]
    );
}

#[test]
fn plugin_scanner_skips_spaces_and_tabs_after_a_colon() {
    let (facts, errors) = scan_sdl("type A {\n  b:  Int\n  c:\tFoo!\n}").expect("scans");
    assert!(errors.is_empty());
    let fields: Vec<(&str, [u32; 2], Option<&str>, bool)> =
        facts.defs[0].fields.iter().map(|f| (f.name.as_str(), f.span, f.named_type.as_deref(), f.required)).collect();
    assert_eq!(fields, vec![("b", [11, 12], Some("Int"), false), ("c", [21, 22], Some("Foo"), true)]);
    let uses: Vec<(&str, [u32; 2])> = facts.uses.iter().map(|u| (u.name.as_str(), u.span)).collect();
    assert_eq!(uses, vec![("Foo", [24, 28])]);
}

#[test]
fn plugin_scanner_traps_only_on_split_characters() {
    assert!(scan_sdl("\u{e9}").is_none(), "a stray two-byte character");
    assert!(scan_sdl("").expect("empty source").0.defs.is_empty());
    // a colon at the very end: a field with an empty type name
    let (facts, errors) = scan_sdl("type A { x:").expect("scans");
    assert!(errors.is_empty());
    assert_eq!(facts.defs[0].fields[0].named_type.as_deref(), Some(""));
    let uses: Vec<(&str, [u32; 2])> = facts.uses.iter().map(|u| (u.name.as_str(), u.span)).collect();
    assert_eq!(uses, vec![("", [11, 11])]);
}

#[test]
fn plugin_workspace_pass() {
    let files = vec![
        (
            "a.graphql".to_string(),
            facts(
                vec![def("object", "A", [5, 6], 1, None), def("object", "A", [20, 21], 1, None), def("object", "B", [30, 31], 1, None)],
                vec![use_of("C", [40, 41]), use_of("B", [50, 51])],
                false,
                Vec::new(),
            ),
        ),
        (
            "b.graphql".to_string(),
            facts(
                vec![def("object", "B", [5, 6], 1, None), def("object", "D", [10, 11], 1, None)],
                Vec::new(),
                true,
                vec![("query", "A")],
            ),
        ),
    ];
    let found = workspace_findings(&files);
    let got: Vec<_> = found.iter().map(summary).collect();
    assert_eq!(
        got,
        vec![
            (
                Some("demo-gql/no-undefined-type"),
                Some("error"),
                "type `C` is used but not defined in the schema",
                [40, 41],
                Some("type-ref:C"),
                Some("a.graphql")
            ),
            (
                Some("demo-gql/duplicate-type"),
                Some("error"),
                "type `A` is defined more than once in the schema",
                [20, 21],
                Some("type:A"),
                Some("a.graphql")
            ),
            (
                Some("demo-gql/no-unused-type"),
                Some("info"),
                "type `D` is defined but never referenced",
                [10, 11],
                Some("type:D"),
                Some("b.graphql")
            ),
        ]
    );
    let mut no_entry = files;
    no_entry[1].1.has_entry_block = false;
    assert_eq!(workspace_findings(&no_entry).len(), 2, "unused types only once a schema block exists");
}
