//! The order of statements sent to the engine when an extension is needed:
//! `LOAD` it, and when that fails `INSTALL` it and `LOAD` it again; then
//! attach a data source, or load the lake's second extension. Each function
//! takes the engine's answer to the last statement and gives the next step;
//! the caller sends the statements and hands back the answers.

use vstd::prelude::*;

use crate::duckdb::attach::{alias_spec, attach_sql_spec, build_attach_sql, workspace_attach_alias};
use crate::model::DataSourceConfig;
use crate::text::{push_str, string_from};

verus! {

/// Where loading an extension stands: its `LOAD` was sent; after a failed
/// one, its `INSTALL`; then the second `LOAD`.
#[derive(PartialEq, Eq, Structural, Clone, Copy, Debug)]
pub enum ExtPhase {
    Loading,
    Installing,
    Reloading,
}

/// Statements left at most before loading ends, from a phase.
pub open spec fn ext_rank(p: ExtPhase) -> nat {
    match p {
        ExtPhase::Loading => 2,
        ExtPhase::Installing => 1,
        ExtPhase::Reloading => 0,
    }
}

/// The next step of loading an extension: a statement to send and the
/// phase it leads to, the extension loaded, or the error of the second
/// `LOAD`.
pub enum ExtStep {
    Send(ExtPhase, String),
    Loaded,
    Failed(String),
}

fn statement(verb: &str, ext: &str) -> (s: String)
    ensures
        s@ == verb@ + ext@ + ";"@,
{
    let mut out: Vec<char> = Vec::new();
    push_str(&mut out, verb);
    push_str(&mut out, ext);
    push_str(&mut out, ";");
    string_from(out.as_slice())
}

/// The step after the engine answered the statement of `phase` while
/// loading `ext`: a failed first `LOAD` leads to `INSTALL`, whose answer is
/// not looked at, and then to a second `LOAD`, whose error ends the loading.
pub fn extension_step(phase: ExtPhase, answer: Result<(), String>, ext: &str) -> (s: ExtStep)
    ensures
        match phase {
            ExtPhase::Loading => match answer {
                Ok(_) => s is Loaded,
                Err(_) => s matches ExtStep::Send(np, q) && np == ExtPhase::Installing && q@ == "INSTALL "@ + ext@ + ";"@,
            },
            ExtPhase::Installing => s matches ExtStep::Send(np, q) && np == ExtPhase::Reloading && q@ == "LOAD "@ + ext@
                + ";"@,
            ExtPhase::Reloading => match answer {
                Ok(_) => s is Loaded,
                Err(e) => s matches ExtStep::Failed(x) && x@ == e@,
            },
        },
        s matches ExtStep::Send(np, _) ==> ext_rank(np) < ext_rank(phase),
{
    match phase {
        ExtPhase::Loading => match answer {
            Ok(_) => ExtStep::Loaded,
            Err(_) => ExtStep::Send(ExtPhase::Installing, statement("INSTALL ", ext)),
        },
        ExtPhase::Installing => ExtStep::Send(ExtPhase::Reloading, statement("LOAD ", ext)),
        ExtPhase::Reloading => match answer {
            Ok(_) => ExtStep::Loaded,
            Err(e) => ExtStep::Failed(e),
        },
    }
}

/// Where attaching a data source stands: loading its driver, or its
/// `ATTACH` sent.
#[derive(PartialEq, Eq, Structural, Clone, Copy, Debug)]
pub enum AttachPhase {
    Driver(ExtPhase),
    Attaching,
}

/// Statements left at most before attaching ends, from a phase.
pub open spec fn attach_rank(p: AttachPhase) -> nat {
    match p {
        AttachPhase::Driver(e) => ext_rank(e) + 1,
        AttachPhase::Attaching => 0,
    }
}

/// What to do next: send a statement (and be in the phase it leads to), or
/// stop with the result of the whole run.
pub enum EngineAction<P> {
    Run(P, String),
    Finish(Result<(), String>),
}

/// The first statement of attaching `r`: `LOAD` its driver.
pub fn attach_start(r: &DataSourceConfig) -> (a: (AttachPhase, String))
    ensures
        a.0 == AttachPhase::Driver(ExtPhase::Loading),
        a.1@ == "LOAD "@ + r.db_type@ + ";"@,
{
    (AttachPhase::Driver(ExtPhase::Loading), statement("LOAD ", r.db_type.as_str()))
}

/// The step after the engine answered the statement of `phase` while
/// attaching `r`: the driver is loaded as [`extension_step`] says, then the
/// source is attached under its alias; a driver that does not load, or an
/// `ATTACH` that fails, ends the run with its error.
pub fn attach_step(phase: AttachPhase, answer: Result<(), String>, r: &DataSourceConfig) -> (a: EngineAction<AttachPhase>)
    ensures
        match phase {
            AttachPhase::Driver(ExtPhase::Loading) => match answer {
                Ok(_) => a matches EngineAction::Run(np, q) && np == AttachPhase::Attaching && q@ == attach_sql_spec(
                    *r,
                    alias_spec(r.name@),
                ),
                Err(_) => a matches EngineAction::Run(np, q) && np == AttachPhase::Driver(ExtPhase::Installing) && q@
                    == "INSTALL "@ + r.db_type@ + ";"@,
            },
            AttachPhase::Driver(ExtPhase::Installing) => a matches EngineAction::Run(np, q) && np == AttachPhase::Driver(
                ExtPhase::Reloading,
            ) && q@ == "LOAD "@ + r.db_type@ + ";"@,
            AttachPhase::Driver(ExtPhase::Reloading) => match answer {
                Ok(_) => a matches EngineAction::Run(np, q) && np == AttachPhase::Attaching && q@ == attach_sql_spec(
                    *r,
                    alias_spec(r.name@),
                ),
                Err(e) => a matches EngineAction::Finish(Err(x)) && x@ == "加载 "@ + r.db_type@ + " 驱动失败: "@ + e@,
            },
            AttachPhase::Attaching => match answer {
                Ok(_) => a matches EngineAction::Finish(Ok(_)),
                Err(e) => a matches EngineAction::Finish(Err(x)) && x@ == "连接数据源 "@ + r.name@ + " 失败: "@ + e@,
            },
        },
        a matches EngineAction::Run(np, _) ==> attach_rank(np) < attach_rank(phase),
        a matches EngineAction::Run(np, _) && np == AttachPhase::Attaching ==> answer is Ok,
{
    match phase {
        AttachPhase::Driver(p) => match extension_step(p, answer, r.db_type.as_str()) {
            ExtStep::Send(np, q) => EngineAction::Run(AttachPhase::Driver(np), q),
            ExtStep::Loaded => {
                let alias = workspace_attach_alias(r.name.as_str());
                EngineAction::Run(AttachPhase::Attaching, build_attach_sql(r, alias.as_str()))
            },
            ExtStep::Failed(e) => {
                let mut out: Vec<char> = Vec::new();
                push_str(&mut out, "加载 ");
                push_str(&mut out, r.db_type.as_str());
                push_str(&mut out, " 驱动失败: ");
                push_str(&mut out, e.as_str());
                EngineAction::Finish(Err(string_from(out.as_slice())))
            },
        },
        AttachPhase::Attaching => match answer {
            Ok(_) => EngineAction::Finish(Ok(())),
            Err(e) => {
                let mut out: Vec<char> = Vec::new();
                push_str(&mut out, "连接数据源 ");
                push_str(&mut out, r.name.as_str());
                push_str(&mut out, " 失败: ");
                push_str(&mut out, e.as_str());
                EngineAction::Finish(Err(string_from(out.as_slice())))
            },
        },
    }
}

/// Where loading the lake's extensions stands: `ducklake`, then `sqlite`
/// (the lake's catalog backend).
#[derive(PartialEq, Eq, Structural, Clone, Copy, Debug)]
pub enum LakeLoadPhase {
    Ducklake(ExtPhase),
    Sqlite(ExtPhase),
}

/// Statements left at most before the lake's loading ends, from a phase.
pub open spec fn lake_rank(p: LakeLoadPhase) -> nat {
    match p {
        LakeLoadPhase::Ducklake(e) => ext_rank(e) + 3,
        LakeLoadPhase::Sqlite(e) => ext_rank(e),
    }
}

/// The first statement of loading the lake's extensions.
pub fn lake_load_start() -> (a: (LakeLoadPhase, String))
    ensures
        a.0 == LakeLoadPhase::Ducklake(ExtPhase::Loading),
        a.1@ == "LOAD ducklake;"@,
{
    let q = statement("LOAD ", "ducklake");
    proof {
        reveal_strlit("LOAD ");
        reveal_strlit("ducklake");
        reveal_strlit(";");
        reveal_strlit("LOAD ducklake;");
        assert(q@ =~= "LOAD ducklake;"@);
    }
    (LakeLoadPhase::Ducklake(ExtPhase::Loading), q)
}

/// The step after the engine answered the statement of `phase` while
/// loading the lake's extensions: `ducklake` as [`extension_step`] says,
/// then `sqlite` alike; either failing ends the run with its own message.
pub fn lake_load_step(phase: LakeLoadPhase, answer: Result<(), String>) -> (a: EngineAction<LakeLoadPhase>)
    ensures
        match phase {
            LakeLoadPhase::Ducklake(ExtPhase::Loading) => match answer {
                Ok(_) => a matches EngineAction::Run(np, q) && np == LakeLoadPhase::Sqlite(ExtPhase::Loading) && q@
                    == "LOAD sqlite;"@,
                Err(_) => a matches EngineAction::Run(np, q) && np == LakeLoadPhase::Ducklake(ExtPhase::Installing) && q@
                    == "INSTALL ducklake;"@,
            },
            LakeLoadPhase::Ducklake(ExtPhase::Installing) => a matches EngineAction::Run(np, q) && np
                == LakeLoadPhase::Ducklake(ExtPhase::Reloading) && q@ == "LOAD ducklake;"@,
            LakeLoadPhase::Ducklake(ExtPhase::Reloading) => match answer {
                Ok(_) => a matches EngineAction::Run(np, q) && np == LakeLoadPhase::Sqlite(ExtPhase::Loading) && q@
                    == "LOAD sqlite;"@,
                Err(e) => a matches EngineAction::Finish(Err(x)) && x@ == "无法加载 ducklake 扩展。首次运行需要联网下载该扩展。\n原始错误: "@
                    + e@,
            },
            LakeLoadPhase::Sqlite(ExtPhase::Loading) => match answer {
                Ok(_) => a matches EngineAction::Finish(Ok(_)),
                Err(_) => a matches EngineAction::Run(np, q) && np == LakeLoadPhase::Sqlite(ExtPhase::Installing) && q@
                    == "INSTALL sqlite;"@,
            },
            LakeLoadPhase::Sqlite(ExtPhase::Installing) => a matches EngineAction::Run(np, q) && np
                == LakeLoadPhase::Sqlite(ExtPhase::Reloading) && q@ == "LOAD sqlite;"@,
            LakeLoadPhase::Sqlite(ExtPhase::Reloading) => match answer {
                Ok(_) => a matches EngineAction::Finish(Ok(_)),
                Err(e) => a matches EngineAction::Finish(Err(x)) && x@ == "无法加载 sqlite 扩展: "@ + e@,
            },
        },
        a matches EngineAction::Run(np, _) ==> lake_rank(np) < lake_rank(phase),
{
    proof {
        reveal_strlit("LOAD ");
        reveal_strlit("INSTALL ");
        reveal_strlit("ducklake");
        reveal_strlit("sqlite");
        reveal_strlit(";");
        reveal_strlit("LOAD sqlite;");
        reveal_strlit("INSTALL sqlite;");
        reveal_strlit("LOAD ducklake;");
        reveal_strlit("INSTALL ducklake;");
        assert("LOAD "@ + "sqlite"@ + ";"@ =~= "LOAD sqlite;"@);
        assert("INSTALL "@ + "sqlite"@ + ";"@ =~= "INSTALL sqlite;"@);
        assert("LOAD "@ + "ducklake"@ + ";"@ =~= "LOAD ducklake;"@);
        assert("INSTALL "@ + "ducklake"@ + ";"@ =~= "INSTALL ducklake;"@);
    }
    match phase {
        LakeLoadPhase::Ducklake(p) => match extension_step(p, answer, "ducklake") {
            ExtStep::Send(np, q) => EngineAction::Run(LakeLoadPhase::Ducklake(np), q),
            ExtStep::Loaded => EngineAction::Run(LakeLoadPhase::Sqlite(ExtPhase::Loading), statement("LOAD ", "sqlite")),
            ExtStep::Failed(e) => {
                let mut out: Vec<char> = Vec::new();
                push_str(&mut out, "无法加载 ducklake 扩展。首次运行需要联网下载该扩展。\n原始错误: ");
                push_str(&mut out, e.as_str());
                EngineAction::Finish(Err(string_from(out.as_slice())))
            },
        },
        LakeLoadPhase::Sqlite(p) => match extension_step(p, answer, "sqlite") {
            ExtStep::Send(np, q) => EngineAction::Run(LakeLoadPhase::Sqlite(np), q),
            ExtStep::Loaded => EngineAction::Finish(Ok(())),
            ExtStep::Failed(e) => {
                let mut out: Vec<char> = Vec::new();
                push_str(&mut out, "无法加载 sqlite 扩展: ");
                push_str(&mut out, e.as_str());
                EngineAction::Finish(Err(string_from(out.as_slice())))
            },
        },
    }
}

} // verus!
