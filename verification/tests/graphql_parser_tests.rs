use omni_lint::graphql::ast::DefKind;
use omni_lint::graphql::lexer::{tokenize, TokKind};
use omni_lint::graphql::parser::parse_document;

#[test]
fn parses_basic_object() {
    let (doc, errs) = parse_document("type User {\n  name: String!\n  posts: [Post!]!\n}");
    assert!(errs.is_empty(), "{errs:?}");
    assert_eq!(doc.defs.len(), 1);
    let def = &doc.defs[0];
    assert_eq!(def.kind, DefKind::Object);
    assert_eq!(def.name, "User");
    assert_eq!(def.fields.len(), 2);
    assert_eq!(def.fields[0].ty.named, "String");
    assert!(def.fields[0].ty.non_null);
    assert_eq!(def.fields[1].ty.named, "Post");
}

#[test]
fn parses_directives_applied() {
    let (doc, errs) = parse_document(
        "input CreatePostInput {\n  old: String @deprecated(reason: \"old\")\n  req: String!\n}",
    );
    assert!(errs.is_empty(), "{errs:?}");
    let def = &doc.defs[0];
    assert_eq!(def.kind, DefKind::Input);
    assert_eq!(def.fields[0].directives.len(), 1);
    assert_eq!(def.fields[0].directives[0].name, "deprecated");
    assert!(def.fields[1].ty.non_null);
}

#[test]
fn recovers_when_block_is_unclosed() {
    // Unclosed `type Broken` block: the next definition still parses.
    let (doc, errs) = parse_document("type Broken {\n  name: String\n\ntype Ok {\n  x: Int\n}\n");
    assert_eq!(doc.defs.iter().find(|d| d.name == "Ok").map(|d| d.fields.len()), Some(1));
    assert!(errs.len() >= 1, "an unclosed field block must report a diagnostic");
}

#[test]
fn parses_union_and_enum() {
    let (doc, errs) = parse_document("union Search = User | Post\nenum Status { ACTIVE INACTIVE }");
    assert!(errs.is_empty(), "{errs:?}");
    assert_eq!(doc.defs[0].union_members, vec!["User", "Post"]);
    assert_eq!(doc.defs[1].enum_values, vec!["ACTIVE", "INACTIVE"]);
}

#[test]
fn parses_schema_block() {
    let (doc, errs) = parse_document("schema {\n  query: QueryRoot\n}");
    assert!(errs.is_empty(), "{errs:?}");
    let schema = &doc.defs[0];
    assert_eq!(schema.root_ops.len(), 1);
    assert_eq!(schema.root_ops[0].0, "query");
    assert_eq!(schema.root_ops[0].1.named, "QueryRoot");
}

#[test]
fn inner_bang_of_a_list_is_not_outer_non_null() {
    let (doc, errs) = parse_document("type A {\n  xs: [B!]\n  ys: [B!]!\n  zs: [B]\n}");
    assert!(errs.is_empty(), "{errs:?}");
    let fields = &doc.defs[0].fields;
    assert_eq!(fields[0].ty.named, "B");
    assert!(!fields[0].ty.non_null);
    assert!(fields[1].ty.non_null);
    assert!(!fields[2].ty.non_null);
    assert_eq!((fields[0].ty.span.start, fields[0].ty.span.end), (15, 19));
}

#[test]
fn block_string_is_one_token() {
    let src = "\"\"\"a\nb\"\"\"";
    let toks = tokenize(src).expect("lexes");
    assert_eq!(toks.len(), 1);
    assert_eq!(toks[0].kind, TokKind::StringLit);
    assert_eq!(toks[0].span, (0, 9));
    assert_eq!(toks[0].text, src);
}

#[test]
fn block_string_description_before_a_type() {
    let (doc, errs) = parse_document("\"\"\"\nA user.\n\"\"\"\ntype User { id: ID }");
    assert!(errs.is_empty(), "{errs:?}");
    assert_eq!(doc.defs.len(), 1);
    assert_eq!(doc.defs[0].name, "User");
}

#[test]
fn unterminated_block_string_runs_to_the_end() {
    let toks = tokenize("\"\"\"abc").expect("lexes");
    assert_eq!(toks.len(), 1);
    assert_eq!(toks[0].span, (0, 6));
}

#[test]
fn signed_numbers_lex_as_names() {
    let toks = tokenize("x: -1.5e3 +2 -").expect("lexes");
    let texts: Vec<&str> = toks.iter().map(|t| t.text.as_str()).collect();
    assert_eq!(texts, vec!["x", ":", "-1.5e3", "+2", "-"]);
    assert!(toks[2..].iter().all(|t| t.kind == TokKind::Name));
    assert_eq!(toks[4].span, (13, 14));
}

#[test]
fn unterminated_string_is_a_lex_error() {
    let errs = tokenize("\"abc\ntype").expect_err("unterminated");
    assert_eq!(errs.len(), 1);
    assert_eq!(errs[0].message, "unterminated string literal");
    assert_eq!(errs[0].span, (0, 4));
    let (doc, perrs) = parse_document("\"abc\ntype");
    assert!(doc.defs.is_empty());
    assert_eq!(perrs.len(), 1);
    assert_eq!(perrs[0].message, "unterminated string literal");
    assert_eq!((perrs[0].span.start, perrs[0].span.end), (0, 4));
}

#[test]
fn ascii_token_texts_are_their_source_slices() {
    let src = "type A @key(f: \"x\") { b: [C!]! ...on }";
    let toks = tokenize(src).expect("lexes");
    for t in &toks {
        assert_eq!(t.text, &src[t.span.0 as usize..t.span.1 as usize]);
    }
    assert_eq!(toks.len(), 20);
}
