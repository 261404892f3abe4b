//! A workspace's lakehouse: where its catalog and data live, the statement
//! that attaches it, and how a failed attach is recovered from.

use vstd::prelude::*;

use crate::okf::paths::{path_join, path_joined};
use crate::text::{chars_of, contains, push_str, str_contains, string_from};

verus! {

/// The lake directory (`.lake`), the catalog file (`lake.sqlite`, SQLite
/// backend) and the data directory (`lake_data`) of a workspace directory.
pub fn lake_paths(ws_dir: &str) -> (r: (String, String, String))
    ensures
        r.0@ == path_joined(ws_dir@, ".lake"@),
        r.1@ == path_joined(path_joined(ws_dir@, ".lake"@), "lake.sqlite"@),
        r.2@ == path_joined(path_joined(ws_dir@, ".lake"@), "lake_data"@),
{
    let lake = path_join(ws_dir, ".lake");
    let catalog = path_join(lake.as_str(), "lake.sqlite");
    let data = path_join(lake.as_str(), "lake_data");
    (lake, catalog, data)
}

/// A path with `\` turned into `/`, as the engine wants inside SQL.
pub open spec fn forward_slashes(p: Seq<char>) -> Seq<char> {
    Seq::new(p.len(), |i: int| if p[i] == '\\' { '/' } else { p[i] })
}

fn push_forward(out: &mut Vec<char>, p: &str)
    ensures
        final(out)@ == old(out)@ + forward_slashes(p@),
{
    let v = chars_of(p);
    let ghost start = out@;
    let mut k: usize = 0;
    while k < v.len()
        invariant
            v@ == p@,
            k <= v.len(),
            out@ == start + forward_slashes(p@.take(k as int)),
        decreases v.len() - k,
    {
        let c = v[k];
        out.push(if c == '\\' { '/' } else { c });
        proof {
            assert(forward_slashes(p@.take(k + 1)) =~= forward_slashes(p@.take(k as int)).push(
                if p@[k as int] == '\\' { '/' } else { p@[k as int] },
            ));
        }
        k = k + 1;
    }
    proof {
        assert(p@.take(v.len() as int) =~= p@);
    }
}

/// The statement that attaches a lake with this catalog and data directory
/// and names it `lake`.
pub open spec fn lake_attach_spec(catalog: Seq<char>, data_dir: Seq<char>) -> Seq<char> {
    "ATTACH 'ducklake:sqlite:"@ + forward_slashes(catalog) + "' AS lake (DATA_PATH '"@ + forward_slashes(data_dir)
        + "/');"@
}

pub fn lake_attach_sql(catalog: &str, data_dir: &str) -> (r: String)
    ensures
        r@ == lake_attach_spec(catalog@, data_dir@),
{
    let mut out: Vec<char> = Vec::new();
    push_str(&mut out, "ATTACH 'ducklake:sqlite:");
    push_forward(&mut out, catalog);
    push_str(&mut out, "' AS lake (DATA_PATH '");
    push_forward(&mut out, data_dir);
    push_str(&mut out, "/');");
    string_from(out.as_slice())
}

/// The write-ahead log beside a catalog: its path (forward slashes) and
/// `.wal`.
pub fn catalog_wal(catalog: &str) -> (r: String)
    ensures
        r@ == forward_slashes(catalog@) + ".wal"@,
{
    let mut out: Vec<char> = Vec::new();
    push_forward(&mut out, catalog);
    push_str(&mut out, ".wal");
    string_from(out.as_slice())
}

/// What follows a failed attach of a lake.
#[derive(Debug, Clone, PartialEq, Eq)]
pub enum LakeRecovery {
    /// Give up with this error.
    Fail(String),
    /// Remove the stale write-ahead log of the catalog and attach again.
    DropWal,
}

/// How the first failed attach is handled: an inconsistent snapshot is
/// reported and nothing is touched; an error that is not about the
/// write-ahead log is reported; a write-ahead log problem drops the log.
pub open spec fn recovery_spec(msg: Seq<char>, catalog: Seq<char>) -> Option<Seq<char>> {
    if contains(msg, "iteration does not match"@) || contains(msg, "checkpoint iteration"@) {
        Some("DuckLake catalog 快照不一致（可能数据文件缺失）: "@ + msg + "。已保留 catalog 未做破坏性恢复，请检查 "@ + catalog
            + " 与 lake_data 目录。"@)
    } else if !contains(msg, "WAL"@) {
        Some("ATTACH ducklake 失败: "@ + msg)
    } else {
        None
    }
}

pub fn attach_recovery(msg: &str, catalog: &str) -> (r: LakeRecovery)
    ensures
        match recovery_spec(msg@, catalog@) {
            Some(e) => r matches LakeRecovery::Fail(x) && x@ == e,
            None => r is DropWal,
        },
{
    let m = chars_of(msg);
    if str_contains(&m, "iteration does not match") || str_contains(&m, "checkpoint iteration") {
        let mut out: Vec<char> = Vec::new();
        push_str(&mut out, "DuckLake catalog 快照不一致（可能数据文件缺失）: ");
        push_str(&mut out, msg);
        push_str(&mut out, "。已保留 catalog 未做破坏性恢复，请检查 ");
        push_str(&mut out, catalog);
        push_str(&mut out, " 与 lake_data 目录。");
        return LakeRecovery::Fail(string_from(out.as_slice()));
    }
    if !str_contains(&m, "WAL") {
        let mut out: Vec<char> = Vec::new();
        push_str(&mut out, "ATTACH ducklake 失败: ");
        push_str(&mut out, msg);
        return LakeRecovery::Fail(string_from(out.as_slice()));
    }
    LakeRecovery::DropWal
}

/// The error when the attach still fails after the lake was rebuilt.
pub fn rebuild_failed(e: &str) -> (r: String)
    ensures
        r@ == "ATTACH ducklake 失败（已尝试重建 lake store）: "@ + e@,
{
    let mut out: Vec<char> = Vec::new();
    push_str(&mut out, "ATTACH ducklake 失败（已尝试重建 lake store）: ");
    push_str(&mut out, e);
    string_from(out.as_slice())
}

} // verus!
