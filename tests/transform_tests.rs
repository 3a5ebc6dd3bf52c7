use skillsync::transform::{generate_toml, parse_frontmatter};

#[test]
fn test_parse_frontmatter_with_description() {
    let content = "---\nname: test\ndescription: Test skill\n---\n\n# Content\nTest content";
    let (frontmatter, stripped) = parse_frontmatter(content);

    assert_eq!(frontmatter.description, Some("Test skill".to_string()));
    assert_eq!(stripped, "# Content\nTest content");
}

#[test]
fn test_parse_frontmatter_no_frontmatter() {
    let content = "# Content\nNo frontmatter here";
    let (frontmatter, stripped) = parse_frontmatter(content);

    assert_eq!(frontmatter.description, None);
    assert_eq!(stripped, content);
}

#[test]
fn test_parse_frontmatter_with_quotes() {
    let content = "---\ndescription: \"Quoted description\"\n---\nContent";
    let (frontmatter, stripped) = parse_frontmatter(content);

    assert_eq!(
        frontmatter.description,
        Some("Quoted description".to_string())
    );
    assert_eq!(stripped, "Content");
}

#[test]
fn test_generate_toml_with_description() {
    let toml = generate_toml(Some("My skill".to_string()), "Test content");

    assert!(toml.contains("description = \"My skill\""));
    assert!(toml.contains("prompt = '''"));
    assert!(toml.contains("Test content"));
}

#[test]
fn test_generate_toml_without_description() {
    let toml = generate_toml(None, "Test content");

    assert!(toml.contains("description = \"Custom skill\""));
    assert!(toml.contains("prompt = '''"));
    assert!(toml.contains("Test content"));
}

#[test]
fn generate_toml_exact_layout() {
    let toml = generate_toml(Some("d".to_string()), "line one\nline two");
    assert_eq!(
        toml,
        "description = \"d\"\nprompt = '''\nline one\nline two\n'''\n"
    );
}

#[test]
fn generate_toml_escapes_backslash_before_quote() {
    let toml = generate_toml(Some("a\\b \"c\"".to_string()), "x");
    assert!(toml.starts_with("description = \"a\\\\b \\\"c\\\"\"\n"));
}

#[test]
fn escaped_description_reads_back_through_a_toml_parser() {
    let description = "Review \"design\" at C:\\path\\ and \\\" too";
    let doc = generate_toml(Some(description.to_string()), "Body with ''quotes'' and \\ backslash");
    let value: toml::Value = toml::from_str(&doc).expect("valid TOML");
    assert_eq!(value.get("description").unwrap().as_str().unwrap(), description);
    assert_eq!(
        value.get("prompt").unwrap().as_str().unwrap(),
        "Body with ''quotes'' and \\ backslash\n"
    );
}

#[test]
fn unterminated_block_is_no_metadata() {
    let content = "---\ndescription: X\nBody";
    let (frontmatter, stripped) = parse_frontmatter(content);
    assert_eq!(frontmatter.description, None);
    assert_eq!(stripped, content);
}

#[test]
fn last_description_line_wins() {
    let content = "---\ndescription: first\n  description:   'second'  \n---\nBody";
    let (frontmatter, stripped) = parse_frontmatter(content);
    assert_eq!(frontmatter.description, Some("second".to_string()));
    assert_eq!(stripped, "Body");
}

#[test]
fn only_one_matching_quote_layer_is_stripped() {
    let (fm, _) = parse_frontmatter("---\ndescription: \"\"two\"\"\n---\n");
    assert_eq!(fm.description, Some("\"two\"".to_string()));
    let (fm, _) = parse_frontmatter("---\ndescription: \"mixed'\n---\n");
    assert_eq!(fm.description, Some("\"mixed'".to_string()));
}

#[test]
fn block_without_description_gives_none() {
    let (fm, body) = parse_frontmatter("---\nname: n\n---\nBody");
    assert_eq!(fm.description, None);
    assert_eq!(body, "Body");
}

#[test]
fn only_one_blank_separator_line_is_consumed() {
    let (_, body) = parse_frontmatter("---\n---\n\n\nBody\n");
    assert_eq!(body, "\nBody");
}

#[test]
fn crlf_lines_are_recognised() {
    let (fm, body) = parse_frontmatter("---\r\ndescription: D\r\n---\r\nBody\r\nMore\r\n");
    assert_eq!(fm.description, Some("D".to_string()));
    assert_eq!(body, "Body\nMore");
}

#[test]
fn empty_document_has_no_metadata() {
    let (fm, body) = parse_frontmatter("");
    assert_eq!(fm.description, None);
    assert_eq!(body, "");
}

#[test]
fn rendered_body_holds_no_delimiter_line() {
    let content = "---\ndescription: Deploy\n---\n\nRun deployment.\n";
    let (fm, body) = parse_frontmatter(content);
    let doc = generate_toml(fm.description, &body);
    assert!(!doc.contains("---"));
    let value: toml::Value = toml::from_str(&doc).expect("valid TOML");
    assert_eq!(value.get("prompt").unwrap().as_str().unwrap(), "Run deployment.\n");
}
