use daw::usage::estimate_tokens;
use daw::model::TableRegistryEntry;
use daw::okf::catalog::{
    block_table_tokens, duplicate_section, list_table_token, outline, render_registered_tables,
    render_selections, search, summary, KnowledgeDirs, TableNotes,
};
use daw::okf::model::Category;
use daw::okf::paths::OkfPaths;


const TS: &str = "2026-08-14T00:00:00Z";

/// A stand-in token estimate: one token per non-ASCII character, one per
/// four ASCII characters (rounded up).
fn empty_dirs() -> KnowledgeDirs {
    KnowledgeDirs {
        concepts: Vec::new(),
        users: Vec::new(),
        selections: Vec::new(),
        views: Vec::new(),
        sources: Vec::new(),
        recipes: Vec::new(),
    }
}

/// The document a write of `heading`/`content` creates.
fn doc(category: Category, name: &str, heading: &str, content: &str, desc: Option<&str>) -> String {
    let p = OkfPaths::new("/r".to_string());
    daw::okf::store::write(&p, "ws", category, name, heading, content, desc, None, TS).document
}

/// The document after a second write into an existing one.
fn doc_again(prev: &str, category: Category, name: &str, heading: &str, content: &str) -> String {
    let p = OkfPaths::new("/r".to_string());
    daw::okf::store::write(&p, "ws", category, name, heading, content, None, Some(prev), TS).document
}

/// Selection notes are written like any other knowledge document; their
/// frontmatter type does not matter to the outline.
const SELECTION: Category = Category::Recipe;

fn entry(local: &str, conn: &str, last: Option<i64>) -> TableRegistryEntry {
    TableRegistryEntry {
        id: "1".into(),
        workspace_path: "ws".into(),
        connection_name: conn.into(),
        local_name: local.into(),
        remote_schema: "public".into(),
        remote_table: "orders".into(),
        db_type: "postgres".into(),
        db_product: "pg".into(),
        db_mode: "standard".into(),
        table_type: "native".into(),
        access_mode: "catalog".into(),
        status: "available".into(),
        unavailable_reason: None,
        last_explored: last,
        kind: "table".into(),
    }
}

fn no_notes() -> TableNotes {
    TableNotes { columns: Vec::new(), relations: Vec::new() }
}

#[test]
fn summary_lists_global_concept_and_recipe() {
    let mut d = empty_dirs();
    d.concepts.push(("company".into(), Some(doc(Category::Concept, "company", "业务描述", "我们是做零售的", None))));
    d.recipes.push(("date_parse".into(), Some(doc(Category::Recipe, "date_parse", "解决方案", "用 to_date 解析", None))));

    let s = summary(&d, &[], &estimate_tokens);
    assert!(s.contains("# 知识库大纲"));
    assert!(s.contains("## 全局知识"));
    assert!(s.contains("### 业务概念 (concepts/) · 1"));
    assert!(s.contains("company"));
    assert!(s.contains("## 工作区知识"));
    assert!(s.contains("### 排障配方 (pipelines/specific/) · 1"));
    assert!(s.contains("date_parse"));
}

#[test]
fn summary_renders_table_with_status_and_semantics() {
    let notes = TableNotes {
        columns: vec![("order_id".to_string(), "订单编号".to_string())],
        relations: Vec::new(),
    };
    let s = summary(&empty_dirs(), &[(entry("v_orders", "myshop", None), notes)], &estimate_tokens);
    assert!(s.contains("### 已注册表 · 1"));
    assert!(s.contains("✅ `v_orders` (别名 db_myshop)"));
    assert!(s.contains("订单编号"));
}

#[test]
fn search_finds_keyword_across_scopes() {
    let global = vec![("concepts/co.md".to_string(), doc(Category::Concept, "co", "业务描述", "特别关键词 ALPHA", None))];
    let hits = search("alpha", &global, &[]);
    assert_eq!(hits.len(), 1);
    assert!(hits[0].rel_path.contains("全局"));
    assert!(hits[0].preview.contains("ALPHA"));
}

#[test]
fn search_no_hit_returns_empty() {
    let hits = search("不存在的东西", &[], &[]);
    assert!(hits.is_empty());
}

#[test]
fn outline_shows_full_metadata_per_entry() {
    let mut d = empty_dirs();
    d.concepts.push(("co".into(), Some(doc(Category::Concept, "co", "业务描述", "body", Some("一句话描述")))));
    d.recipes.push(("fix".into(), Some(doc(Category::Recipe, "fix", "解决方案", "用 to_date", Some("日期解析排障")))));

    let s = outline(&d, &[]);
    assert!(s.contains("**co**"));
    assert!(s.contains("类型: Business Concept"));
    assert!(s.contains("描述: 一句话描述"));
    assert!(s.contains("创建: 2026-08-14"));
    assert!(s.contains("更新: 2026-08-14"));
    assert!(s.contains("板块: 业务描述"));
    assert!(s.contains("**fix**"));
    assert!(s.contains("类型: Recipe"));
    assert!(s.contains("描述: 日期解析排障"));
}

#[test]
fn summary_and_outline_flag_duplicate_concepts() {
    let mut d = empty_dirs();
    d.concepts.push((
        "org_consult_center".into(),
        Some(doc(Category::Concept, "org_consult_center", "业务描述", "a", Some("咨询中心组织架构权威版本"))),
    ));
    d.concepts.push((
        "consult_center_org".into(),
        Some(doc(Category::Concept, "consult_center_org", "业务描述", "b", Some("咨询中心组织架构旧快照"))),
    ));

    for s in [summary(&d, &[], &estimate_tokens), outline(&d, &[])] {
        assert!(s.contains("疑似重复知识"), "missing dup section in: {s}");
        assert!(s.contains("concepts: consult_center_org ≈ org_consult_center"));
    }
}

#[test]
fn no_duplicates_no_section() {
    let mut d = empty_dirs();
    d.concepts.push((
        "company_profile".into(),
        Some(doc(Category::Concept, "company_profile", "业务描述", "公司背景", Some("公司主营业务背景"))),
    ));
    d.recipes.push((
        "date_parse".into(),
        Some(doc(Category::Recipe, "date_parse", "解决方案", "用 to_date 解析", Some("日期解析排障配方"))),
    ));

    let s = summary(&d, &[], &estimate_tokens);
    assert!(!s.contains("疑似重复知识"));
}

#[test]
fn registered_tables_respect_token_budget() {
    let mk = |n: usize, last: i64| {
        let mut e = entry(&format!("v_t{n}"), "db", Some(last));
        e.id = format!("t{n}");
        e.remote_table = format!("t{n}");
        (e, no_notes())
    };
    // One hot table (largest last_explored) and twenty cold ones.
    let mut entries = vec![mk(0, 100)];
    for n in 1..21 {
        entries.push(mk(n, 1));
    }
    let out = render_registered_tables(&entries, 20, &estimate_tokens);
    assert!(out.contains("`v_t0` (别名 db_db)"));
    assert!(out.contains("另有 20 张表"));
    assert!(out.contains("v_t1、v_t10、v_t11、v_t12"));
    assert!(!out.contains("v_t13"));
    assert!(estimate_tokens(&out) < 150);
}

#[test]
fn summary_renders_selections_with_tables() {
    let one = doc(
        SELECTION,
        "sales_analysis",
        "首选表",
        "- [[v_orders_daily]] @demo — 订单日汇总，口径稳定\n- [[v_orders_sum]] @demo — 品牌口径汇总",
        None,
    );
    let two = doc_again(&one, SELECTION, "sales_analysis", "交叉验证表", "- [[v_orders_detail]] @demo — 明细互证");
    let mut d = empty_dirs();
    d.selections.push(("sales_analysis".into(), Some(two)));

    let s = summary(&d, &[], &estimate_tokens);
    assert!(s.contains("### 选表经验 (selections/) · 1"));
    assert!(s.contains("- sales_analysis — 首选 [[v_orders_daily]]、[[v_orders_sum]]；交叉验证 [[v_orders_detail]]"));
}

#[test]
fn selections_without_blocks_fall_back_to_desc() {
    let mut d = empty_dirs();
    d.selections.push(("draft".into(), Some(doc(SELECTION, "draft", "适用问题", "还没填表的草稿", Some("占位经验")))));

    let s = summary(&d, &[], &estimate_tokens);
    assert!(s.contains("### 选表经验 (selections/) · 1"));
    assert!(s.contains("- draft — 占位经验"));
    assert!(!s.contains("首选 ["));
}

#[test]
fn selections_respect_token_budget() {
    let mut docs: Vec<(String, Option<String>)> = Vec::new();
    for n in 0..10 {
        let name = format!("topic_{n:02}");
        let body = format!("- [[v_some_rather_long_table_name_{n}]] @demo — 说明文字较长会消耗预算");
        docs.push((name.clone(), Some(doc(SELECTION, &name, "首选表", &body, None))));
    }
    let out = render_selections(&docs, 20, &estimate_tokens);
    assert!(out.contains("首选 [[v_some_rather_long_table_name_0]]"));
    assert!(out.contains("另有 9 条选表经验"));
    assert!(estimate_tokens(&out) < 150);
}

// ---------------------------------------------------------------------------

#[test]
fn list_line_tokens() {
    assert_eq!(list_table_token("  - [[ v_orders ]] @demo — x").as_deref(), Some("v_orders"));
    assert_eq!(list_table_token("- `dim_user` 维表").as_deref(), Some("dim_user"));
    assert_eq!(list_table_token("- [[]] then `v_b`").as_deref(), None);
    assert_eq!(list_table_token("* [[v_a]]"), None);
    assert_eq!(list_table_token("- plain text"), None);
}

#[test]
fn block_tokens_dedupe_and_stop_at_three() {
    let content = "## 首选表\n- [[a]]\n- [[a]]\n- `b`\n- [[c]]\n- [[d]]\n## 其他\n- [[e]]\n";
    assert_eq!(block_table_tokens(content, "首选表"), vec!["a", "b", "c"]);
    assert!(block_table_tokens(content, "交叉验证表").is_empty());
}

#[test]
fn search_ranks_by_tokens_found_in_one_line() {
    let global = vec![("concepts/a.md".to_string(), "x\nalpha only\ny".to_string())];
    let ws = vec![
        ("views/b.md".to_string(), "first\nALPHA and Beta here\nthird\nfourth\nfifth\nsixth".to_string()),
        ("views/c.md".to_string(), "nothing".to_string()),
    ];
    let hits = search("alpha  beta", &global, &ws);
    assert_eq!(hits.len(), 2);
    assert_eq!(hits[0].rel_path, "[工作区] views/b.md");
    assert_eq!(hits[0].preview, "first\nALPHA and Beta here\nthird\nfourth\nfifth");
    assert_eq!(hits[1].rel_path, "[全局] concepts/a.md");
    assert_eq!(hits[1].preview, "x\nalpha only\ny");
    assert!(search("   ", &global, &ws).is_empty());
}

#[test]
fn search_keeps_scan_order_on_ties() {
    let ws = vec![
        ("b.md".to_string(), "key".to_string()),
        ("a.md".to_string(), "KEY".to_string()),
    ];
    let hits = search("key", &[], &ws);
    assert_eq!(hits[0].rel_path, "[工作区] b.md");
    assert_eq!(hits[1].rel_path, "[工作区] a.md");
}

#[test]
fn few_left_over_tables_keep_their_status_lines() {
    let mut entries = Vec::new();
    for n in 0..3 {
        entries.push((entry(&format!("t{n}"), "db", Some(10 - n as i64)), no_notes()));
    }
    entries[2].0.access_mode = "pushdown".into();
    entries[2].0.status = "unavailable_temporary".into();
    entries[2].0.unavailable_reason = Some("超时".into());
    let out = render_registered_tables(&entries, 0, &estimate_tokens);
    assert_eq!(
        out,
        "### 已注册表 · 3\n- ✅ `t0` (别名 db_db)\n- ✅ `t1` (别名 db_db)\n- ⚠️ `t2` (别名 db_db) [下推表·禁直查] — 不可用: 超时\n"
    );
}

#[test]
fn duplicates_section_empty_without_groups() {
    assert_eq!(duplicate_section(&empty_dirs()), "");
}

#[test]
fn outline_lists_tables_in_given_order_with_notes() {
    let notes = TableNotes {
        columns: vec![("a".to_string(), "甲".to_string()), ("b".to_string(), String::new())],
        relations: vec!["- `a` → [[t2]].`id` (N:1)".to_string()],
    };
    let mut e = entry("t1", "my-db", None);
    e.access_mode = "pushdown".into();
    let s = outline(&empty_dirs(), &[(e, notes)]);
    assert_eq!(
        s,
        "# 知识库大纲\n\n## 工作区知识\n### 已注册表 · 1\n- ✅ `t1` (别名 db_my_db) [pushdown]\n  字段释义: `a`: 甲\n  关联: - `a` → [[t2]].`id` (N:1)"
    );
}

#[test]
fn outline_and_summary_empty_without_knowledge() {
    assert_eq!(outline(&empty_dirs(), &[]), "");
    assert_eq!(summary(&empty_dirs(), &[], &estimate_tokens), "");
}

#[test]
fn date_needs_ten_bytes() {
    let mut d = empty_dirs();
    d.users.push(("u".into(), Some("---\ntype: User\ncreated_at: 2026-8-1\nupdated_at: 2026-08-01T09:00\n---\n".to_string())));
    d.users.push(("x".into(), None));
    let s = outline(&d, &[]);
    assert!(s.contains("- **u**\n  类型: User | 创建:  更新: 2026-08-01"));
    assert!(!s.contains("**x**"));
}
