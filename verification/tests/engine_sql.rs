use daw::duckdb::attach::{build_attach_sql, build_pg_conn_str, workspace_attach_alias};
use daw::duckdb::execute::{capped_query, is_truncated, rows_kept, parse_trailing_limit, query_error, QUERY_TIMEOUT_SECS};
use daw::model::DataSourceConfig;

fn source(db_type: &str, ssl: &str) -> DataSourceConfig {
    DataSourceConfig {
        id: "1".to_string(),
        name: "my shop".to_string(),
        db_type: db_type.to_string(),
        host: "h".to_string(),
        port: 5432,
        database_name: "d'b".to_string(),
        username: "u".to_string(),
        password: "p".to_string(),
        ssl_mode: ssl.to_string(),
        created_at: 0,
        db_product: "postgresql".to_string(),
        db_mode: "standard".to_string(),
    }
}

#[test]
fn aliases_keep_only_word_characters() {
    assert_eq!(workspace_attach_alias("my shop-1"), "db_my_shop_1");
    assert_eq!(workspace_attach_alias("数据"), "db___");
    assert_eq!(workspace_attach_alias(""), "db_");
}

#[test]
fn attach_statements_per_engine() {
    assert_eq!(
        build_attach_sql(&source("sqlite", "disable"), "db_x"),
        "ATTACH 'd''b' AS db_x (TYPE sqlite);"
    );
    assert_eq!(
        build_attach_sql(&source("postgres", "require"), "db_x"),
        "ATTACH 'host=h port=5432 dbname=d'b user=u password=p sslmode=require' AS db_x (TYPE postgres);"
    );
    assert_eq!(
        build_attach_sql(&source("mysql", "disable"), "db_x"),
        "ATTACH 'host=h port=5432 database=d'b user=u password=p' AS db_x (TYPE mysql);"
    );
    assert_eq!(build_pg_conn_str(&source("postgres", "disable")), "host=h port=5432 dbname=d'b user=u password=p");
}

#[test]
fn trailing_limits() {
    assert_eq!(parse_trailing_limit("SELECT * FROM t LIMIT 10;"), Some(10));
    assert_eq!(parse_trailing_limit("select * from t limit 5 offset 20 ;; "), Some(5));
    assert_eq!(parse_trailing_limit("SELECT * FROM t LIMIT +7"), Some(7));
    assert_eq!(parse_trailing_limit("SELECT * FROM t LIMIT x"), None);
    assert_eq!(parse_trailing_limit("SELECT * FROM t LIMIT 99999999999999999999"), None);
    assert_eq!(parse_trailing_limit("SELECT 1"), None);
    assert_eq!(parse_trailing_limit(""), None);
}

#[test]
fn attach_plan_loads_then_attaches() {
    let r = daw::model::DataSourceConfig {
        id: "1".into(),
        name: "my shop".into(),
        db_type: "sqlite".into(),
        host: String::new(),
        port: 0,
        database_name: "/d/it's.db".into(),
        username: String::new(),
        password: String::new(),
        ssl_mode: "disable".into(),
        created_at: 0,
        db_product: "unknown".into(),
        db_mode: "unknown".into(),
    };
    let p = daw::duckdb::attach::attach_plan(&r);
    assert_eq!(p.alias, "db_my_shop");
    assert_eq!(p.load_sql, "LOAD sqlite;");
    assert_eq!(p.install_sql, "INSTALL sqlite;");
    assert_eq!(p.attach_sql, "ATTACH '/d/it''s.db' AS db_my_shop (TYPE sqlite);");
    assert_eq!(daw::duckdb::attach::detach_sql("my-shop"), "DETACH db_my_shop;");
}

#[test]
fn capped_query_wraps_unless_own_limit_fits() {
    assert_eq!(capped_query("  SELECT * FROM t;; ", Some(100)), "SELECT * FROM (SELECT * FROM t) AS _q LIMIT 101");
    assert_eq!(capped_query("SELECT * FROM t LIMIT 10;", Some(100)), "SELECT * FROM t LIMIT 10");
    assert_eq!(
        capped_query("SELECT * FROM t LIMIT 500", Some(100)),
        "SELECT * FROM (SELECT * FROM t LIMIT 500) AS _q LIMIT 101"
    );
    assert_eq!(capped_query(" SELECT 1; ", None), "SELECT 1");
}

#[test]
fn truncation_and_timeout_errors() {
    assert!(!is_truncated(Some(100), 100));
    assert!(is_truncated(Some(100), 101));
    assert!(!is_truncated(Some(100), 99));
    assert_eq!(rows_kept(Some(100), 101), 100);
    assert_eq!(rows_kept(Some(100), 100), 100);
    assert_eq!(rows_kept(None, 7), 7);
    assert!(!is_truncated(None, 1_000_000));
    assert_eq!(query_error("INTERRUPT: Interrupted!", QUERY_TIMEOUT_SECS), "查询超时已被自动中断（当前限制为 60 秒）。");
    assert_eq!(query_error("Catalog Error: no table", 60), "Catalog Error: no table");
}
