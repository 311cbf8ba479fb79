use omni_lint::demo::graphql_ast::scan_document;

#[test]
fn language_module_facts_for_entry_block() {
    let src = "schema {\n  query: QueryRoot\n}\ntype QueryRoot { x: String }\ntype Lonely { y: String }\n";
    let (facts, _errors) = scan_document(src).expect("parses");
    assert_eq!(facts.has_entry_block, true, "schema block must set has_entry_block");
    assert!(!facts.roots.is_empty(), "roots captured");
}

#[test]
fn scanner_reads_definitions_fields_and_uses() {
    let src = "type User @key(fields: \"id\") implements Node & Named {\n  id: ID!\n  posts: [Post!]! @deprecated\n}\nenum Color { RED GREEN }\nunion U = A | B\nscalar Date\ndirective @key on OBJECT\n";
    let (facts, errors) = scan_document(src).expect("scans");
    assert!(errors.is_empty(), "{errors:?}");
    let names: Vec<&str> = facts.defs.iter().map(|d| d.name.as_str()).collect();
    assert_eq!(names, vec!["User", "Color", "U", "Date"]);
    let user = &facts.defs[0];
    assert_eq!(user.kind, "object");
    assert_eq!(user.implements, vec!["Node".to_string(), "Named".to_string()]);
    assert_eq!(user.directives, vec!["key".to_string()]);
    assert_eq!(user.fields.len(), 2);
    assert_eq!(user.fields[0].named_type.as_deref(), Some("ID"));
    assert!(user.fields[0].required);
    assert_eq!(user.fields[1].named_type.as_deref(), Some("Post"));
    assert_eq!(user.fields[1].directives, vec!["deprecated".to_string()]);
    assert_eq!(user.fields[1].subject, "type:User.field:posts");
    assert_eq!(facts.defs[1].enum_values, vec!["RED".to_string(), "GREEN".to_string()]);
    assert_eq!(facts.defs[2].union_members, vec!["A".to_string(), "B".to_string()]);
    let uses: Vec<&str> = facts.uses.iter().map(|u| u.name.as_str()).collect();
    assert_eq!(uses, vec!["Node", "Named", "Post", "A", "B"]);
    assert_eq!(facts.directives_defined, vec!["key".to_string()]);
    assert_eq!(facts.directives_used, vec!["key".to_string(), "deprecated".to_string()]);
    assert!(!facts.has_entry_block);
}

#[test]
fn scanner_reports_what_it_cannot_identify() {
    let (_, errors) = scan_document("type A { x: Int }\n$oops\ntype\n").expect("scans");
    assert_eq!(errors.len(), 2);
    assert_eq!(errors[0].message, "cannot identify token near `$oops\ntype\n`");
    assert_eq!(errors[0].span, [18, 19]);
    assert_eq!(errors[1].message, "`type` without a name");
}

#[test]
fn scanner_gives_up_on_split_characters() {
    // a quote would cut the two-byte `é` in half
    assert!(scan_document("type A {}\n!\u{e9}\u{e9}\u{e9}\u{e9}\u{e9}\u{e9}").is_none());
}
