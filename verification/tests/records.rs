use daw::brand::{data_uri, logo_data_uri, logo_file, logo_mime, BrandConfig};
use daw::db::{
    get_aioa_dir, get_db_path, get_legacy_db_path, get_legacy_dir, legacy_db_move, legacy_dir_move, log_query_sql, SqlParam,
};
use daw::model::{LogFilter, LogLevel, TraceLevel};
use daw::oa::models::LeaveStatus;
use daw::okf_files::{get_okf_dir, parse_okf_block_from_content, parse_yaml_field};
use std::path::{Path, PathBuf};

#[test]
fn log_levels_round_trip() {
    for l in [LogLevel::Debug, LogLevel::Info, LogLevel::Warn, LogLevel::Error] {
        assert_eq!(LogLevel::from_db_str(l.as_str()), l);
    }
    assert_eq!(LogLevel::from_db_str("verbose"), LogLevel::Info);
    assert_eq!(LogLevel::from_tracing(&TraceLevel::Trace), LogLevel::Debug);
    assert_eq!(LogLevel::from_tracing(&TraceLevel::Warn), LogLevel::Warn);
}

#[test]
fn leave_status_round_trip() {
    for s in [LeaveStatus::Pending, LeaveStatus::Approved, LeaveStatus::Rejected] {
        assert_eq!(LeaveStatus::from_db_str(s.as_str()), s);
    }
    assert_eq!(LeaveStatus::from_db_str("?"), LeaveStatus::Pending);
}

#[test]
fn brand_defaults_and_logos() {
    let b = BrandConfig::default();
    assert_eq!(b.app_name, "Daw");
    assert_eq!(b.home.task.label, "日常任务");
    assert_eq!(logo_file(&b, "light"), "");
    assert_eq!(logo_mime("a.JPG"), "image/jpeg");
    assert_eq!(logo_mime("a.jpeg"), "image/jpeg");
    assert_eq!(logo_mime("jpg"), "image/png");
    assert_eq!(logo_mime("a.png"), "image/png");
    assert_eq!(data_uri("image/png", "QUJD"), "data:image/png;base64,QUJD");
    assert_eq!(logo_data_uri("x.png", b"ABC"), "data:image/png;base64,QUJD");
    assert_eq!(logo_data_uri("x.jpg", b"AB"), "data:image/jpeg;base64,QUI=");
}

#[test]
fn app_directories() {
    assert_eq!(PathBuf::from(get_aioa_dir(Some("/h".to_string())).unwrap()), Path::new("/h").join(".daw"));
    assert_eq!(PathBuf::from(get_db_path(Some("/h".to_string())).unwrap()), Path::new("/h").join(".daw").join("daw.db"));
    assert_eq!(get_db_path(None), Err("Could not resolve home directory".to_string()));
    assert_eq!(PathBuf::from(get_okf_dir("/ws")), Path::new("/ws").join("okf"));
}

#[test]
fn log_query_statement() {
    let f = LogFilter {
        categories: Some(vec!["agent".to_string(), "sql".to_string()]),
        levels: None,
        from_ts: Some(5),
        to_ts: None,
        keyword: Some("  boom ".to_string()),
        limit: 0,
        offset: -3,
    };
    let (sql, params) = log_query_sql(&f);
    assert!(sql.contains("FROM logs WHERE category IN (?,?) AND ts >= ? AND LOWER(message) LIKE LOWER(?)\n"));
    assert_eq!(
        params,
        vec![
            SqlParam::Text("agent".to_string()),
            SqlParam::Text("sql".to_string()),
            SqlParam::Int(5),
            SqlParam::Text("%boom%".to_string()),
            SqlParam::Int(200),
            SqlParam::Int(0),
        ]
    );
    let (sql2, params2) = log_query_sql(&LogFilter::default());
    assert!(!sql2.contains("WHERE"));
    assert_eq!(params2, vec![SqlParam::Int(200), SqlParam::Int(0)]);
}

#[test]
fn yaml_fields_and_blocks() {
    let doc = "intro: no\n---\nTitle : Hello: world \n---\ntitle: after";
    assert_eq!(parse_yaml_field(doc, "title"), Some("Hello: world".to_string()));
    assert_eq!(parse_yaml_field(doc, "intro"), None);
    assert_eq!(parse_okf_block_from_content("# A\n x \n# B", "a"), Some("x".to_string()));
}

#[test]
fn employee_lookup_needs_exactly_one_match() {
    assert_eq!(daw::oa::models::employee_lookup("张三", 1), Ok(()));
    assert_eq!(daw::oa::models::employee_lookup("张三", 0), Err("未找到员工「张三」".to_string()));
    assert_eq!(
        daw::oa::models::employee_lookup("张三", 2),
        Err("员工「张三」存在重名，请补充部门或工号以澄清".to_string())
    );
}

#[test]
fn older_data_moves_over_once() {
    assert_eq!(PathBuf::from(get_legacy_dir("/h")), Path::new("/h").join(".aioa"));
    let m = legacy_dir_move("/h", true, false).unwrap();
    assert_eq!((PathBuf::from(m.0), PathBuf::from(m.1)), (Path::new("/h").join(".aioa"), Path::new("/h").join(".daw")));
    assert_eq!(legacy_dir_move("/h", true, true), None);
    assert_eq!(legacy_dir_move("/h", false, false), None);
    assert_eq!(PathBuf::from(get_legacy_db_path("/h/.daw")), Path::new("/h/.daw").join("aioa.db"));
    let d = legacy_db_move("/h/.daw", true, false).unwrap();
    assert_eq!(PathBuf::from(d.1), Path::new("/h/.daw").join("daw.db"));
    assert_eq!(legacy_db_move("/h/.daw", false, false), None);
    assert_eq!(legacy_db_move("/h/.daw", true, true), None);
}
