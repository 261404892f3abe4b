use daw::model::TableRegistryEntry;
use daw::okf::model::Category;
use daw::okf::paths::OkfPaths;
use daw::okf::store::{delete, doc_file, ColumnMap};
use daw::okf::{FixedClock, Okf};
use daw::okf_files::{
    block_dir, block_file, get_okf_memory_summary, parse_column_semantics, read_block_content,
    read_okf_block, update_table_status, write_okf_block, write_table_okf, write_view_okf,
    BlockSource,
};

fn entry(local: &str, conn: &str) -> TableRegistryEntry {
    TableRegistryEntry {
        id: "1".into(),
        workspace_path: "ws".into(),
        connection_name: conn.into(),
        local_name: local.into(),
        remote_schema: "public".into(),
        remote_table: local.into(),
        db_type: "postgres".into(),
        db_product: "pg".into(),
        db_mode: "standard".into(),
        table_type: "native".into(),
        access_mode: "catalog".into(),
        status: "available".into(),
        unavailable_reason: None,
        last_explored: None,
        kind: "table".into(),
    }
}

#[test]
fn block_write_creates_a_stub_document() {
    let doc = write_okf_block("concepts", "co", "业务描述", "我们做零售", None);
    assert_eq!(
        doc,
        "---\ntype: Business Concept\ntitle: co\ndescription: 自动初始化的 OKF 文档\n---\n\n## 业务描述\n我们做零售"
    );
    let doc = write_okf_block("tables", "t", "备注", "x", None);
    assert!(doc.starts_with("---\ntype: DuckDB Table\n"));
    assert!(doc.ends_with("\n\n# 备注\nx"));
    let doc = write_okf_block("users/default", "u", "背景", "y", None);
    assert!(doc.contains("type: User Profile"));
}

#[test]
fn block_write_replaces_an_existing_block() {
    let doc = write_okf_block("views", "v", "a", "new", Some("# A\nold\nolder\n# B\nkeep"));
    assert_eq!(doc, "# A\nnew\n# B\nkeep");
}

#[test]
fn block_write_drops_repeated_blocks() {
    let doc = write_okf_block("views", "v", "c", "z", Some("# A\none\n# a\ntwo"));
    assert_eq!(doc, "# A\none\n# c\nz");
}

#[test]
fn block_targets() {
    assert_eq!(block_dir("/w", Ok("/h".to_string()), "concepts").unwrap(), "/h/okf");
    assert_eq!(block_dir("/w", Ok("/h".to_string()), "users/default").unwrap(), "/h/okf");
    assert_eq!(block_dir("/w", Err("no home".to_string()), "users").unwrap_err(), "no home");
    assert_eq!(block_dir("/w", Err("no home".to_string()), "tables").unwrap(), "/w/okf");
    assert_eq!(block_file("/w/okf", "tables", "t"), "/w/okf/tables/t.md");
}

#[test]
fn block_read_sources() {
    match read_okf_block("/w", Ok("/h".to_string()), "workspace", "index").unwrap() {
        BlockSource::Index { path, scope } => {
            assert_eq!(path, "/w/okf/index.md");
            assert_eq!(scope, "工作区");
        }
        other => panic!("unexpected {other:?}"),
    }
    assert_eq!(
        read_okf_block("/w", Err("x".to_string()), "global", "index").unwrap_err(),
        "全局 OKF 目录不可用: x"
    );
    assert!(read_okf_block("/w", Ok("/h".to_string()), "", "index").unwrap_err().contains("空字符串已废弃"));
    assert_eq!(
        read_okf_block("/w", Ok("/h".to_string()), "concepts", "c").unwrap(),
        BlockSource::Files { candidates: vec!["/w/okf/concepts/c.md".to_string(), "/h/okf/concepts/c.md".to_string()] }
    );
    assert_eq!(
        read_okf_block("/w", Ok("/h".to_string()), "views", "t").unwrap(),
        BlockSource::Files {
            candidates: vec![
                "/w/okf/views/t.md".to_string(),
                "/w/okf/tables/t.md".to_string(),
                "/w/okf/views/t.md".to_string(),
                "/w/okf/sources/t.md".to_string(),
            ]
        }
    );
    assert_eq!(
        read_okf_block("/w", Ok("/h".to_string()), "pipelines/specific", "p").unwrap(),
        BlockSource::Files { candidates: vec!["/w/okf/pipelines/specific/p.md".to_string()] }
    );
}

#[test]
fn block_read_results() {
    assert_eq!(read_block_content(Some("# A\n  x \n# B"), "/f", "a").unwrap(), "x");
    assert_eq!(read_block_content(Some("# A\nx"), "/f", "b").unwrap_err(), "未找到标题为 'b' 的板块");
    assert_eq!(read_block_content(None, "/w/okf/t.md", "a").unwrap_err(), "文件不存在: \"/w/okf/t.md\"");
}

#[test]
fn status_of_a_new_table() {
    let doc = update_table_status(None, "t", "available", None, "T");
    assert_eq!(
        doc,
        "---\ntype: DuckDB Table\ntitle: t\nstatus: available\nunavailable_reason: \nlast_explored: T\n---\n\n# 字段 Schema\n（待探索）\n"
    );
}

#[test]
fn status_fields_are_replaced_in_the_frontmatter_only() {
    let doc = update_table_status(
        Some("---\ntitle: t\nStatus: old\nlast_explored: 1\n---\nstatus: body\n---\nx"),
        "t",
        "unavailable_temporary",
        Some("timeout"),
        "T",
    );
    assert_eq!(
        doc,
        "---\ntitle: t\nstatus: unavailable_temporary\nunavailable_reason: timeout\nlast_explored: T\n---\nstatus: body\n---\nx"
    );
}

#[test]
fn column_semantics_read_the_title_field_loosely() {
    let doc = "---\nTitle: 订单\n---\n# 字段 Schema\n| `id` | INT | 编号 | |\n# 关联关系\n* id 关联 u.id\n";
    let (title, cols, rels) = parse_column_semantics(doc);
    assert_eq!(title.as_deref(), Some("订单"));
    assert_eq!(cols.get("id").map(|s| s.as_str()), Some("编号"));
    assert_eq!(rels, vec!["id 关联 u.id"]);
}

#[test]
fn memory_summary_lists_tables_and_recipes() {
    let sem = (None, ColumnMap { entries: vec![("a".to_string(), "甲".to_string())] }, vec!["x 关联 y".to_string()]);
    let mut e2 = entry("t2", "db2");
    e2.access_mode = "pushdown".into();
    e2.status = "unavailable_permanent".into();
    e2.unavailable_reason = Some("权限".into());
    let none = (None, ColumnMap { entries: Vec::new() }, Vec::new());
    let s = get_okf_memory_summary(&[(entry("t1", "db1"), sem), (e2, none)], &["fix".to_string()]);
    assert_eq!(
        s,
        "# 工作区数据记忆\n以下是你之前探索过的表和知识，直接继承使用，无需重复探索：\n\n- ✅ `t1` (db1)\n  字段释义: `a`: 甲\n  关联: - x 关联 y\n- ❌ `t2` (db2) [pushdown] — 不可用: 权限\n\n# 排障记录\n- fix"
    );
    assert_eq!(get_okf_memory_summary(&[], &[]), "");
}

#[test]
fn legacy_table_and_view_documents() {
    let t = write_table_okf("t", &[("id".to_string(), "INT".to_string(), false)], Some(5), "T");
    assert_eq!(
        t,
        "---\ntype: DuckDB Table\ntitle: t 物理数据表\ntimestamp: T\n---\n\n# 物理画像\n- 行数估算: 5\n\n# 字段 Schema\n| 字段名 | 物理类型 | 业务释义 | 数据约束 |\n|---|---|---|---|\n| `id` | INT |  | NOT NULL |\n\n# 关联关系\n- 暂无关联表（请手动编辑，例如 `- customer_id 关联 customers 表的 customer_id`）。\n"
    );
    let v = write_view_okf("v", "SELECT 1", "T");
    assert_eq!(v, "---\ntype: DuckDB View\ntitle: v 逻辑视图\ntimestamp: T\n---\n\n# 视图 SQL 定义\n```sql\nSELECT 1\n```\n");
}

#[test]
fn delete_removes_table_file() {
    let paths = OkfPaths::new("/r".to_string());
    let okf = Okf::new(paths.clone(), FixedClock("2026-08-14T00:00:00Z".to_string()));
    let (file, _doc) = okf.ensure_table_skeleton("ws", "t", &[], None, false).unwrap();
    let plan = delete(&paths, "ws", "t");
    assert!(plan.files.contains(&file));
    assert_eq!(plan.files[0], doc_file(&paths, "ws", Category::Table, "t"));
    assert_eq!(plan.commit_msg, "Delete OKF: t");
}

#[test]
fn facade_stamps_writes_with_its_clock() {
    let okf = Okf::new(OkfPaths::new("/r".to_string()), FixedClock("2026-08-14T00:00:00Z".to_string()));
    let plan = okf.write("ws", Category::Concept, "co", "业务描述", "body", Some("d"), None);
    assert!(plan.outcome.created);
    assert!(plan.document.contains("created_at: 2026-08-14T00:00:00Z"));
    assert_eq!(plan.outcome.file_path, okf.knowledge_file("ws", Category::Concept, "co"));
    assert!(okf.ensure_view_skeleton("ws", "v", "SELECT 1", true).is_none());
    let (_, doc) = okf.ensure_view_skeleton("ws", "v", "SELECT 1", false).unwrap();
    assert!(doc.contains("SELECT 1"));
    let (title, cols, rels) = okf.column_semantics(None);
    assert!(title.is_none() && cols.len() == 0 && rels.is_empty());
    let read = okf.read("ws", Category::Concept, "co", "业务描述", Some(&plan.document)).unwrap();
    assert_eq!(read.content, "body");
}

#[test]
fn block_read_after_write_in_single_file_layout() {
    let one = write_okf_block("concepts", "gmv", "定义", "成交总额", None);
    assert_eq!(read_block_content(Some(&one), "gmv", "定义"), Ok("成交总额".to_string()));
    let two = write_okf_block("concepts", "gmv", "口径", "含退款\n", Some(&one));
    let three = write_okf_block("concepts", "gmv", "定义", "成交总额（新）", Some(&two));
    assert_eq!(read_block_content(Some(&three), "gmv", "定义"), Ok("成交总额（新）".to_string()));
    assert_eq!(read_block_content(Some(&three), "gmv", "口径"), Ok("含退款".to_string()));
}
