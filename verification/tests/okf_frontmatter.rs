use daw::okf::frontmatter::{join_document, split_document, Frontmatter};

#[test]
fn parse_basic_fields() {
    let fm = Frontmatter::parse("type: Business Concept\ntitle: foo\ndescription: hi");
    assert_eq!(fm.get("type"), Some("Business Concept"));
    assert_eq!(fm.get("title"), Some("foo"));
    assert_eq!(fm.get("description"), Some("hi"));
    assert!(fm.get("missing").is_none());
}

#[test]
fn set_updates_and_inserts() {
    let mut fm = Frontmatter::new();
    fm.set("title", "a");
    fm.set("title", "b");
    assert_eq!(fm.get("title"), Some("b"));
    assert_eq!(fm.entries.len(), 1);
    fm.set("type", "X");
    assert_eq!(fm.entries.len(), 2);
}

#[test]
fn parse_ignores_blank_and_comments() {
    let fm = Frontmatter::parse("\n# a comment\ntitle: keep\n");
    assert_eq!(fm.entries.len(), 1);
    assert_eq!(fm.get("title"), Some("keep"));
}

#[test]
fn serialize_roundtrip() {
    let mut fm = Frontmatter::new();
    fm.set("type", "T");
    fm.set("title", "n");
    let s = fm.serialize();
    assert!(s.starts_with("---\n"));
    assert!(s.ends_with("---\n"));
    assert!(s.contains("type: T"));
    let body = &s["---\n".len()..s.len() - "---\n".len()];
    let parsed = Frontmatter::parse(body);
    assert_eq!(parsed.get("type"), Some("T"));
    assert_eq!(parsed.get("title"), Some("n"));
}

#[test]
fn serialize_empty_is_empty() {
    assert!(Frontmatter::new().serialize().is_empty());
}

#[test]
fn split_with_frontmatter() {
    let doc = "---\ntype: T\ntitle: x\n---\n\n# Heading\nbody";
    let (fm, body) = split_document(doc);
    let fm = fm.unwrap();
    assert_eq!(fm.get("type"), Some("T"));
    assert!(body.contains("# Heading"));
    assert!(body.contains("body"));
    assert!(!body.contains("type:"));
}

#[test]
fn split_without_frontmatter() {
    let doc = "# Just body\nline";
    let (fm, body) = split_document(doc);
    assert!(fm.is_none());
    assert_eq!(body, doc);
}

#[test]
fn split_unclosed_frontmatter() {
    let doc = "---\ntype: T\nbody without close";
    let (fm, _body) = split_document(doc);
    assert!(fm.is_none());
}

#[test]
fn join_roundtrip_preserves_body() {
    let mut fm = Frontmatter::new();
    fm.set("type", "T");
    let body = "# H\ncontent";
    let doc = join_document(Some(&fm), body);
    let (fm2, body2) = split_document(&doc);
    assert_eq!(fm2.unwrap().get("type"), Some("T"));
    assert_eq!(body2, body);
}

#[test]
fn preserves_unknown_fields() {
    let fm = Frontmatter::parse("type: T\ncustom_field: hello");
    let s = fm.serialize();
    assert!(s.contains("custom_field: hello"));
}

#[test]
fn serialize_exact_text() {
    let mut fm = Frontmatter::new();
    fm.set("type", "T");
    fm.set("title", "n");
    assert_eq!(fm.serialize(), "---\ntype: T\ntitle: n\n---\n");
}

#[test]
fn join_without_frontmatter_is_body() {
    assert_eq!(join_document(None, "# H\nx"), "# H\nx");
    assert_eq!(join_document(Some(&Frontmatter::new()), "# H\nx"), "# H\nx");
}

#[test]
fn carriage_return_inside_values_round_trips() {
    let mut fm = Frontmatter::new();
    fm.set("title", "a\rb");
    fm.set("k\rey", "v");
    let s = fm.serialize();
    let parsed = Frontmatter::parse(&s["---\n".len()..s.len() - "---\n".len()]);
    assert_eq!(parsed.get("title"), Some("a\rb"));
    assert_eq!(parsed.get("k\rey"), Some("v"));
    assert_eq!(parsed.entries.len(), 2);
    let (fm2, body2) = split_document(&join_document(Some(&fm), "# H\ncontent"));
    assert_eq!(fm2.unwrap().get("title"), Some("a\rb"));
    assert_eq!(body2, "# H\ncontent");
}
