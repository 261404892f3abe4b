use daw::duckdb::steps::{
    attach_start, attach_step, extension_step, lake_load_start, lake_load_step, AttachPhase, EngineAction, ExtPhase,
    ExtStep, LakeLoadPhase,
};
use daw::model::DataSourceConfig;

fn sqlite_source() -> DataSourceConfig {
    DataSourceConfig {
        id: "1".to_string(),
        name: "my shop".to_string(),
        db_type: "sqlite".to_string(),
        host: String::new(),
        port: 0,
        database_name: "/data/a.db".to_string(),
        username: String::new(),
        password: String::new(),
        ssl_mode: "disable".to_string(),
        created_at: 0,
        db_product: "sqlite".to_string(),
        db_mode: "standard".to_string(),
    }
}

fn ok() -> Result<(), String> {
    Ok(())
}

fn err(e: &str) -> Result<(), String> {
    Err(e.to_string())
}

#[test]
fn extension_load_then_install_then_load() {
    assert!(matches!(extension_step(ExtPhase::Loading, ok(), "x"), ExtStep::Loaded));
    match extension_step(ExtPhase::Loading, err("no"), "x") {
        ExtStep::Send(p, q) => {
            assert_eq!(p, ExtPhase::Installing);
            assert_eq!(q, "INSTALL x;");
        }
        _ => panic!("expected INSTALL"),
    }
    match extension_step(ExtPhase::Installing, err("offline"), "x") {
        ExtStep::Send(p, q) => {
            assert_eq!(p, ExtPhase::Reloading);
            assert_eq!(q, "LOAD x;");
        }
        _ => panic!("expected LOAD"),
    }
    match extension_step(ExtPhase::Reloading, err("still no"), "x") {
        ExtStep::Failed(e) => assert_eq!(e, "still no"),
        _ => panic!("expected failure"),
    }
}

#[test]
fn attach_run_with_a_missing_driver() {
    let r = sqlite_source();
    let (mut phase, first) = attach_start(&r);
    assert_eq!(first, "LOAD sqlite;");
    let answers = [err("not installed"), ok(), ok()];
    let mut sent = vec![first];
    for a in answers {
        match attach_step(phase, a, &r) {
            EngineAction::Run(p, q) => {
                phase = p;
                sent.push(q);
            }
            EngineAction::Finish(_) => panic!("finished early"),
        }
    }
    assert_eq!(phase, AttachPhase::Attaching);
    assert_eq!(sent, vec!["LOAD sqlite;", "INSTALL sqlite;", "LOAD sqlite;", "ATTACH '/data/a.db' AS db_my_shop (TYPE sqlite);"]);
    assert!(matches!(attach_step(phase, ok(), &r), EngineAction::Finish(Ok(()))));
}

#[test]
fn attach_errors() {
    let r = sqlite_source();
    match attach_step(AttachPhase::Driver(ExtPhase::Reloading), err("boom"), &r) {
        EngineAction::Finish(Err(e)) => assert_eq!(e, "加载 sqlite 驱动失败: boom"),
        _ => panic!("expected a driver error"),
    }
    match attach_step(AttachPhase::Attaching, err("refused"), &r) {
        EngineAction::Finish(Err(e)) => assert_eq!(e, "连接数据源 my shop 失败: refused"),
        _ => panic!("expected an attach error"),
    }
}

#[test]
fn lake_extensions_in_order() {
    let (phase, first) = lake_load_start();
    assert_eq!(phase, LakeLoadPhase::Ducklake(ExtPhase::Loading));
    assert_eq!(first, "LOAD ducklake;");
    match lake_load_step(phase, ok()) {
        EngineAction::Run(p, q) => {
            assert_eq!(p, LakeLoadPhase::Sqlite(ExtPhase::Loading));
            assert_eq!(q, "LOAD sqlite;");
        }
        _ => panic!("expected LOAD sqlite"),
    }
    match lake_load_step(LakeLoadPhase::Ducklake(ExtPhase::Reloading), err("e1")) {
        EngineAction::Finish(Err(e)) => {
            assert_eq!(e, "无法加载 ducklake 扩展。首次运行需要联网下载该扩展。\n原始错误: e1")
        }
        _ => panic!("expected ducklake error"),
    }
    match lake_load_step(LakeLoadPhase::Sqlite(ExtPhase::Reloading), err("e2")) {
        EngineAction::Finish(Err(e)) => assert_eq!(e, "无法加载 sqlite 扩展: e2"),
        _ => panic!("expected sqlite error"),
    }
    assert!(matches!(lake_load_step(LakeLoadPhase::Sqlite(ExtPhase::Loading), ok()), EngineAction::Finish(Ok(()))));
    match lake_load_step(LakeLoadPhase::Sqlite(ExtPhase::Installing), err("ignored")) {
        EngineAction::Run(p, q) => {
            assert_eq!(p, LakeLoadPhase::Sqlite(ExtPhase::Reloading));
            assert_eq!(q, "LOAD sqlite;");
        }
        _ => panic!("expected LOAD sqlite"),
    }
}
