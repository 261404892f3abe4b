use daw::okf::model::{Category, Scope};
use daw::okf::paths::OkfPaths;
use daw::okf::store::{
    parse_semantics_from_content, read, read_body, table_skeleton, view_skeleton,
};

#[test]
fn parse_semantics_extracts_title_columns_relations() {
    let doc = "---\ntype: DuckDB Table\ntitle: 订单表\n---\n\n# 字段 Schema\n| 字段名 | 物理类型 | 业务释义 | 数据约束 |\n|---|---|---|---|\n| `order_id` | BIGINT | 订单编号 | NOT NULL |\n\n# 关联关系\n- order_id 关联 users.user_id\n";
    let (title, cols, rels) = parse_semantics_from_content(doc);
    assert_eq!(title.as_deref(), Some("订单表"));
    assert_eq!(cols.get("order_id").map(|s| s.as_str()), Some("订单编号"));
    assert!(rels.iter().any(|r| r.contains("users.user_id")));
}

#[test]
fn later_row_for_a_column_wins() {
    let doc = "# Column Schema\n| `a` | INT | first | |\n| a | INT | second | |\n| b | INT |  | |\n";
    let (title, cols, rels) = parse_semantics_from_content(doc);
    assert!(title.is_none());
    assert_eq!(cols.len(), 1);
    assert_eq!(cols.get("a").map(|s| s.as_str()), Some("second"));
    assert!(rels.is_empty());
}

fn paths() -> OkfPaths {
    OkfPaths::new("/r".to_string())
}

#[test]
fn write_creates_then_updates() {
    let p = paths();
    let plan = daw::okf::store::write(&p, "ws", Category::Concept, "co", "业务描述", "first", None, None, "2026-08-14T00:00:00Z");
    assert!(plan.outcome.created);
    assert_eq!(plan.outcome.scope, Scope::Global);
    let raw = plan.document.clone();
    assert!(raw.contains("type: Business Concept"));
    assert!(raw.contains("created_at: 2026-08-14"));
    assert!(raw.contains("updated_at: 2026-08-14"));
    assert!(raw.contains("## 业务描述"));
    assert!(raw.contains("first"));
    let plan2 = daw::okf::store::write(&p, "ws", Category::Concept, "co", "业务描述", "second", None, Some(&raw), "2026-08-15T00:00:00Z");
    assert!(!plan2.outcome.created);
    assert!(plan2.document.contains("second"));
    assert!(!plan2.document.contains("first"));
    assert_eq!(plan2.commit_msg, "Update OKF: concepts/co");
}

#[test]
fn write_updates_description_when_provided() {
    let p = paths();
    let one = daw::okf::store::write(&p, "ws", Category::Concept, "c", "h", "body", Some("desc1"), None, "t1").document;
    let two = daw::okf::store::write(&p, "ws", Category::Concept, "c", "h", "body2", Some("desc2"), Some(&one), "t2").document;
    assert!(two.contains("description: desc2"));
    assert!(!two.contains("desc1"));
}

#[test]
fn write_preserves_created_at_on_update() {
    let p = paths();
    let one = daw::okf::store::write(&p, "ws", Category::Concept, "c", "h", "b", None, None, "t1").document;
    let two = daw::okf::store::write(&p, "ws", Category::Concept, "c", "h2", "b2", None, Some(&one), "t2").document;
    assert_eq!(two.matches("created_at:").count(), 1);
    assert!(two.contains("created_at: t1"));
    assert!(two.contains("updated_at: t2"));
}

#[test]
fn read_all_returns_whole_file() {
    let p = paths();
    let doc = daw::okf::store::write(&p, "ws", Category::Concept, "c", "业务描述", "content", None, None, "t").document;
    let o = read(&p, "ws", Category::Concept, "c", "all", Some(&doc)).unwrap();
    assert!(o.content.contains("type: Business Concept"));
    assert!(o.content.contains("业务描述"));
}

#[test]
fn read_specific_heading() {
    let p = paths();
    let doc = daw::okf::store::write(&p, "ws", Category::Concept, "c", "业务描述", "the-desc", None, None, "t").document;
    let o = read(&p, "ws", Category::Concept, "c", "业务描述", Some(&doc)).unwrap();
    assert_eq!(o.content, "the-desc");
}

#[test]
fn read_missing_file_errors() {
    let p = paths();
    let err = read(&p, "ws", Category::Concept, "nope", "all", None).unwrap_err();
    assert!(err.contains("文件不存在"));
}

#[test]
fn read_missing_heading_errors() {
    assert_eq!(read_body("# A\nx", "B"), Err("未找到标题为 'B' 的板块".to_string()));
    assert_eq!(read_body("# A\nx", "ALL"), Ok("# A\nx".to_string()));
    assert_eq!(read_body("# A\nx", "  "), Ok("# A\nx".to_string()));
}

#[test]
fn ensure_table_skeleton_idempotent() {
    let cols = vec![
        ("id".to_string(), "BIGINT".to_string(), false),
        ("name".to_string(), "VARCHAR".to_string(), true),
    ];
    let raw = table_skeleton("t", &cols, Some(100), "ts");
    assert!(raw.contains("行数估算: 100"));
    assert!(raw.contains("`id`"));
    assert!(raw.contains("| `id` | BIGINT |  | NOT NULL |"));
    assert!(raw.contains("| `name` | VARCHAR |  |  |"));
    assert!(table_skeleton("t", &cols, None, "ts").contains("行数估算: 未知"));
    assert!(table_skeleton("t", &cols, Some(-5), "ts").contains("行数估算: -5"));
}

#[test]
fn skeleton_semantics_read_back() {
    let raw = table_skeleton("orders", &[], None, "ts");
    let (title, cols, rels) = parse_semantics_from_content(&raw);
    assert_eq!(title.as_deref(), Some("orders 物理数据表"));
    assert_eq!(cols.len(), 0);
    assert_eq!(rels.len(), 1);
}

#[test]
fn view_skeleton_text() {
    let raw = view_skeleton("v", "SELECT 1", "ts");
    assert_eq!(
        raw,
        "---\ntype: DuckDB View\ntitle: v 逻辑视图\ncreated_at: ts\nupdated_at: ts\n---\n\n# 视图 SQL 定义\n```sql\nSELECT 1\n```\n"
    );
}

#[test]
fn read_after_update_gives_block_back() {
    let p = paths();
    let one = daw::okf::store::write(&p, "ws", Category::Concept, "c", "口径", "旧口径", None, None, "t1").document;
    let two = daw::okf::store::write(&p, "ws", Category::Concept, "c", "其他", "别的内容", None, Some(&one), "t2").document;
    let three = daw::okf::store::write(&p, "ws", Category::Concept, "c", "口径", "新口径\n第二行\n", None, Some(&two), "t3").document;
    let o = read(&p, "ws", Category::Concept, "c", "口径", Some(&three)).unwrap();
    assert_eq!(o.content, "新口径\n第二行");
    let other = read(&p, "ws", Category::Concept, "c", "其他", Some(&three)).unwrap();
    assert_eq!(other.content, "别的内容");
}
