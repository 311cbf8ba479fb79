use omni_lint::diagnostic::{Diagnostic, Severity, SourceId};
use omni_lint::graphql::ast::Document;
use omni_lint::graphql::model::build_model;
use omni_lint::graphql::parser::parse_document;
use omni_lint::graphql::plugin::GraphqlPlugin;
use omni_lint::graphql::rules::{
    is_camel_case, is_pascal_case, DeprecatedRequiredInput, DuplicateType, FieldNameCamel, NoEmptyType,
    NoUndefinedType, NoUnusedType, TypeNamePascal,
};

fn doc(src: &str) -> Document {
    let (d, errs) = parse_document(src);
    assert!(errs.is_empty(), "{errs:?}");
    d
}

fn ids(v: &[Diagnostic]) -> Vec<String> {
    v.iter().map(|d| d.rule_id.clone()).collect()
}

#[test]
fn naming_conventions() {
    assert!(is_pascal_case("User"));
    assert!(is_pascal_case("User_2"));
    assert!(!is_pascal_case("user"));
    assert!(!is_pascal_case(""));
    assert!(!is_pascal_case("Us-er"));
    assert!(is_camel_case("firstName"));
    assert!(!is_camel_case("FirstName"));
    assert!(!is_camel_case("first-name"));
    assert!(!is_camel_case(""));
}

#[test]
fn empty_definitions_are_reported_with_their_kind() {
    let d = doc("type A {}\nunion U = \nenum E {}\ntype B { x: Int }\nscalar S\n");
    let docs = vec![(SourceId(7), &d)];
    let found = NoEmptyType.run(&docs);
    let msgs: Vec<String> = found.iter().map(|d| d.message.clone()).collect();
    assert_eq!(
        msgs,
        vec![
            "type `A` is empty; it must define at least one field".to_string(),
            "union `U` is empty; it must have at least one member".to_string(),
            "enum `E` is empty; it must have at least one value".to_string(),
        ]
    );
    assert!(found.iter().all(|f| f.rule_id == "graphql/no-empty-type" && f.severity == Severity::Error));
    assert!(found.iter().all(|f| f.source_id == SourceId(7)));
    assert_eq!(found[0].subject.as_deref(), Some("type:A"));
    assert_eq!(NoEmptyType.meta().id, "graphql/no-empty-type");
}

#[test]
fn type_and_field_names_follow_conventions() {
    let d = doc("type user { Name: String ok: Int }\nschema { query: user }\n");
    let docs = vec![(SourceId(1), &d)];
    let t = TypeNamePascal.run(&docs);
    assert_eq!(t.len(), 1);
    assert_eq!(t[0].message, "type name `user` must be PascalCase");
    assert_eq!(t[0].severity, Severity::Warning);
    let f = FieldNameCamel.run(&docs);
    assert_eq!(f.len(), 1);
    assert_eq!(f[0].message, "field name `Name` on `user` must be camelCase");
    assert_eq!(f[0].subject.as_deref(), Some("type:user.field:Name"));
}

#[test]
fn undefined_types_are_reported_per_reference() {
    let a = doc("type Query { u: User p: Post q: Post }\n");
    let b = doc("type User { id: ID }\n");
    let docs = vec![(SourceId(1), &a), (SourceId(2), &b)];
    let m = build_model(&docs);
    let found = NoUndefinedType.run(&m);
    assert_eq!(found.len(), 2);
    assert!(found.iter().all(|f| f.message == "type `Post` is used but not defined in the schema"));
    assert!(found.iter().all(|f| f.source_id == SourceId(1)));
    assert_eq!(found[0].subject.as_deref(), Some("type-ref:Post"));
    assert!(found[0].span.start < found[1].span.start);
}

#[test]
fn unused_types_need_a_schema_block() {
    let a = doc("type Query { x: Int }\ntype Lonely { y: Int }\ndirective @unusedDir on FIELD_DEFINITION\n");
    let docs = vec![(SourceId(3), &a)];
    let m = build_model(&docs);
    assert!(NoUnusedType.run(&m).is_empty());
    let b = doc("schema { query: Query }\ntype Query { x: Int }\ntype Lonely { y: Int }\ndirective @unusedDir on FIELD_DEFINITION\n");
    let docs = vec![(SourceId(3), &b)];
    let m = build_model(&docs);
    let found = NoUnusedType.run(&m);
    let msgs: Vec<String> = found.iter().map(|d| d.message.clone()).collect();
    assert_eq!(
        msgs,
        vec![
            "type `Lonely` is defined but never referenced".to_string(),
            "type `unusedDir` is defined but never referenced".to_string(),
            "directive `@unusedDir` is defined but never applied".to_string(),
        ]
    );
    assert_eq!(found[0].severity, Severity::Info);
    assert_eq!(found[2].subject.as_deref(), Some("directive:unusedDir"));
    assert_eq!(found[2].source_id, SourceId(3));
}

#[test]
fn deprecated_required_inputs_are_errors() {
    let a = doc("input In { a: String! @deprecated b: String @deprecated c: Int! }\n");
    let docs = vec![(SourceId(4), &a)];
    let m = build_model(&docs);
    let found = DeprecatedRequiredInput.run(&m);
    assert_eq!(found.len(), 1);
    assert_eq!(found[0].message, "input field `In.a String` is required so it cannot be deprecated");
    assert_eq!(found[0].subject.as_deref(), Some("type:In.field:a"));
    assert_eq!(ids(&found), vec!["graphql/deprecated-required-input".to_string()]);
}

#[test]
fn duplicates_point_at_the_first_definition() {
    let a = doc("type User { a: Int }\n");
    let b = doc("type User { b: Int }\n");
    let c = doc("type User { c: Int }\n");
    let docs = vec![(SourceId(1), &a), (SourceId(2), &b), (SourceId(3), &c)];
    let m = build_model(&docs);
    let found = DuplicateType.run(&m);
    assert_eq!(found.len(), 2);
    assert!(found.iter().all(|f| f.message == "type `User` is defined 3 times in the schema"));
    assert!(found.iter().all(|f| f.source_id == SourceId(1)));
    assert_eq!(found[0].related.len(), 1);
    assert_eq!(found[0].related[0].source_id, SourceId(2));
    assert_eq!(found[1].related[0].source_id, SourceId(3));
    assert_eq!(found[0].related[0].message, "`User` also defined here");
}

#[test]
fn plugin_describes_itself_and_parses_files() {
    let p = GraphqlPlugin;
    assert_eq!(p.id(), "graphql");
    assert_eq!(p.extensions(), vec!["graphql", "gql"]);
    let caps = p.capabilities();
    assert_eq!(caps.len(), 4);
    assert_eq!(caps[0].name, "graphql.ast");
    assert_eq!(caps[3].name, "graphql.workspace");
    let parsed = p.parse_file(SourceId(9), "type A { x: Int }\ntype {\n").expect("parses");
    assert_eq!(parsed.doc.defs.len(), 1);
    assert!(!parsed.errors.is_empty());
    assert!(parsed.errors.iter().all(|e| e.rule_id == "graphql/parse-error" && e.source_id == SourceId(9)));
    assert_eq!(parsed.facts.defs.len(), 1);
    assert_eq!(parsed.facts.defs[0].name, "A");
    // a bare `-` is a one-byte name token at the top level: a parse error, not a hang
    let signed = p.parse_file(SourceId(9), "type A { x: Int }\n-\n").expect("parses");
    assert_eq!(signed.doc.defs.len(), 1);
    assert_eq!(signed.errors.len(), 1);
    assert_eq!(signed.errors[0].rule_id, "graphql/parse-error");
    assert_eq!(signed.errors[0].message, "expected a type definition keyword, found `-`");
    assert_eq!((signed.errors[0].span.start, signed.errors[0].span.end), (19, 19));
}

#[test]
fn parse_errors_are_capped() {
    let mut src = String::new();
    for _ in 0..80 {
        src.push_str("type {\n");
    }
    let parsed = GraphqlPlugin.parse_file(SourceId(1), &src).expect("parses");
    assert!(parsed.errors.len() <= 50);
}

#[test]
fn workspace_view_carries_paths() {
    let a = doc("schema { query: Q }\ntype Q { u: U }\n");
    let b = doc("type U { id: ID }\n");
    let docs = vec![(SourceId(1), &a), (SourceId(2), &b)];
    let paths = vec![(SourceId(1), "a.graphql".to_string()), (SourceId(2), "b.graphql".to_string())];
    let (model, facts) = GraphqlPlugin.build_workspace(&docs, &paths);
    assert!(model.has_schema_block);
    assert!(facts.has_entry_block);
    let q = facts.defs.iter().find(|d| d.name == "Q").expect("Q");
    assert_eq!(q.path.as_deref(), Some("a.graphql"));
    let u = facts.uses.iter().find(|u| u.name == "U").expect("use of U");
    assert_eq!(u.path.as_deref(), Some("a.graphql"));
    assert_eq!(facts.roots, vec![("query".to_string(), "Q".to_string())]);
}
