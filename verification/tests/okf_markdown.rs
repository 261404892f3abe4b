use daw::okf::markdown::{deduplicate, extract_block, extract_headings, upsert_block};

#[test]
fn extract_block_found() {
    let doc = "# A\nx\n# B\ny";
    assert_eq!(extract_block(doc, "A"), Some("x".to_string()));
    assert_eq!(extract_block(doc, "B"), Some("y".to_string()));
}

#[test]
fn extract_block_case_insensitive() {
    let doc = "## 业务描述\ncontent";
    assert_eq!(extract_block(doc, "业务描述"), Some("content".to_string()));
    assert_eq!(extract_block(doc, "业 务 描述"), None);
}

#[test]
fn extract_block_missing() {
    assert_eq!(extract_block("# A\nx", "Z"), None);
}

#[test]
fn extract_block_stops_at_next_heading() {
    let doc = "# A\nline1\n## sub\nline2\n# B\nline3";
    let block = extract_block(doc, "A").unwrap();
    assert!(block.contains("line1"));
    assert!(!block.contains("line3"));
}

#[test]
fn extract_block_keeps_deeper_subheadings() {
    let doc = "# A\nline1\n## sub\nline2\n# B\nline3";
    assert_eq!(extract_block(doc, "A"), Some("line1\n## sub\nline2".to_string()));
    assert_eq!(extract_block(doc, "sub"), Some("line2".to_string()));
    assert_eq!(extract_block("## X\na\n### y\nb\n## Z\nc", "x"), Some("a\n### y\nb".to_string()));
    assert_eq!(extract_block("## X\na\n# Top\nb", "X"), Some("a".to_string()));
    assert_eq!(extract_block("### deep\n  a  \n#### deeper\nb", "deep"), Some("a  \n#### deeper\nb".to_string()));
}

#[test]
fn extract_headings_level2_skips_frontmatter() {
    let doc = "---\ntitle: x\n---\n\n## 业务描述\nbody\n## 组织架构\nbody2";
    let hs = extract_headings(doc, 2);
    assert_eq!(hs, vec!["业务描述".to_string(), "组织架构".to_string()]);
}

#[test]
fn extract_headings_no_frontmatter() {
    let hs = extract_headings("## A\n## B", 2);
    assert_eq!(hs, vec!["A".to_string(), "B".to_string()]);
}

#[test]
fn extract_headings_level_filter() {
    let doc = "# one\n## two\n### three";
    assert_eq!(extract_headings(doc, 2), vec!["two".to_string()]);
}

#[test]
fn deduplicate_keeps_first_block() {
    let doc = "# A\nfirst\n# A\nsecond";
    let dedup = deduplicate(doc);
    assert!(dedup.contains("first"));
    assert!(!dedup.contains("second"));
}

#[test]
fn deduplicate_preserves_frontmatter() {
    let doc = "---\ntype: T\n# A\n---\n# A\nkeep";
    let dedup = deduplicate(doc);
    assert!(dedup.contains("type: T"));
}

#[test]
fn deduplicate_distinct_headings_kept() {
    let doc = "# A\nx\n# B\ny";
    let dedup = deduplicate(doc);
    assert!(dedup.contains("x"));
    assert!(dedup.contains("y"));
}

#[test]
fn upsert_replaces_existing_block() {
    let body = "# A\nold\n# B\nkeep";
    let out = upsert_block(body, "A", "new", 1);
    assert!(out.contains("new"));
    assert!(!out.contains("old"));
    assert!(out.contains("keep"));
}

#[test]
fn upsert_appends_when_missing() {
    let body = "# A\nx";
    let out = upsert_block(body, "关联关系", "rel content", 1);
    assert!(out.contains("# A"));
    assert!(out.contains("# 关联关系"));
    assert!(out.contains("rel content"));
}

#[test]
fn upsert_appends_level2_for_concepts() {
    let out = upsert_block("", "业务描述", "desc", 2);
    assert!(out.contains("## 业务描述"));
    assert!(out.contains("desc"));
}

#[test]
fn upsert_case_insensitive_match() {
    let body = "## 业务描述\nold";
    let out = upsert_block(body, "业务描述", "new", 2);
    assert!(out.contains("new"));
    assert!(!out.contains("old"));
}

#[test]
fn upsert_exact_layouts() {
    assert_eq!(upsert_block("# A\nold\n# B\nkeep", "a", "new", 1), "# A\nnew\n# B\nkeep");
    assert_eq!(upsert_block("# A\nx", "B", "y", 1), "# A\nx\n\n# B\ny");
    assert_eq!(upsert_block("", "H", "c", 2), "## H\nc");
}

#[test]
fn read_back_after_upsert() {
    let out = upsert_block("# A\nx\n# B\ny", "B", "fresh", 1);
    assert_eq!(extract_block(&out, "B"), Some("fresh".to_string()));
    assert_eq!(extract_block(&out, "A"), Some("x".to_string()));
}

#[test]
fn deduplicate_exact_text() {
    assert_eq!(deduplicate("# A\n1\n# a\n2\n# B\n3"), "# A\n1\n# B\n3");
}

#[test]
fn upsert_then_extract_any_body() {
    let body = "# A\r\r\nold\n# A\nold2\n# B\nb";
    let out = upsert_block(body, "a", "new", 1);
    assert_eq!(out, "# A\r\nnew\n# A\nnew\n# B\nb");
    assert_eq!(extract_block(&out, "a"), Some("new".to_string()));
    let fresh = upsert_block("text\n", "Notes", "  n1\nn2\n", 2);
    assert_eq!(extract_block(&fresh, "notes"), Some("n1\nn2".to_string()));
    // a deeper heading right after the block stays part of what is read
    let nested = upsert_block("# A\nx\n## sub\ny", "A", "c", 1);
    assert_eq!(nested, "# A\nc\n## sub\ny");
    assert_eq!(extract_block(&nested, "A"), Some("c\n## sub\ny".to_string()));
}
