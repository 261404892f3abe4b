use daw::duckdb::lake::{attach_recovery, catalog_wal, lake_attach_sql, lake_paths, rebuild_failed, LakeRecovery};

#[test]
fn lake_lives_under_hidden_directory() {
    let (lake, catalog, data) = lake_paths("/ws/demo");
    assert_eq!(lake, "/ws/demo/.lake");
    assert_eq!(catalog, "/ws/demo/.lake/lake.sqlite");
    assert_eq!(data, "/ws/demo/.lake/lake_data");
}

#[test]
fn attach_statement_uses_forward_slashes() {
    assert_eq!(
        lake_attach_sql("C:\\ws\\.lake\\lake.sqlite", "C:\\ws\\.lake\\lake_data"),
        "ATTACH 'ducklake:sqlite:C:/ws/.lake/lake.sqlite' AS lake (DATA_PATH 'C:/ws/.lake/lake_data/');"
    );
    assert_eq!(catalog_wal("C:\\x\\lake.sqlite"), "C:/x/lake.sqlite.wal");
}

#[test]
fn snapshot_mismatch_is_reported_untouched() {
    assert_eq!(
        attach_recovery("checkpoint iteration does not match", "/ws/.lake/lake.sqlite"),
        LakeRecovery::Fail(
            "DuckLake catalog 快照不一致（可能数据文件缺失）: checkpoint iteration does not match。已保留 catalog 未做破坏性恢复，请检查 /ws/.lake/lake.sqlite 与 lake_data 目录。"
                .to_string()
        )
    );
}

#[test]
fn wal_trouble_drops_the_log() {
    assert_eq!(attach_recovery("Failure while replaying WAL file", "/c"), LakeRecovery::DropWal);
}

#[test]
fn other_attach_errors_are_reported() {
    assert_eq!(attach_recovery("disk full", "/c"), LakeRecovery::Fail("ATTACH ducklake 失败: disk full".to_string()));
    assert_eq!(rebuild_failed("boom"), "ATTACH ducklake 失败（已尝试重建 lake store）: boom");
}
