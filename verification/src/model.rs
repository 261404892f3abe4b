//! Records shared with the front end: data-source connections, the table
//! registry, and the levels and filters of the unified log.

use vstd::prelude::*;

use crate::text::str_eq;

verus! {

/// An external data-source connection.
#[derive(Debug, Clone)]
pub struct DataSourceConfig {
    pub id: String,
    /// Display name; also the source of the catalog alias (`db_<safe>`).
    pub name: String,
    /// `postgres`, `mysql` or `sqlite`.
    pub db_type: String,
    pub host: String,
    pub port: i32,
    /// For sqlite: the local file path.
    pub database_name: String,
    pub username: String,
    pub password: String,
    pub ssl_mode: String,
    /// Creation time (Unix ms).
    pub created_at: i64,
    /// `postgresql`, `hologres`, `oceanbase` or `unknown`.
    pub db_product: String,
    /// `standard`, `external` or `unknown`.
    pub db_mode: String,
}

/// Technical metadata of a registered remote table.
#[derive(Debug, Clone)]
pub struct TableRegistryEntry {
    pub id: String,
    pub workspace_path: String,
    pub connection_name: String,
    pub local_name: String,
    pub remote_schema: String,
    pub remote_table: String,
    pub db_type: String,
    pub db_product: String,
    pub db_mode: String,
    /// `native` or `foreign`.
    pub table_type: String,
    /// `catalog` or `pushdown`.
    pub access_mode: String,
    /// `available`, `unavailable_permanent` or `unavailable_temporary`.
    pub status: String,
    pub unavailable_reason: Option<String>,
    pub last_explored: Option<i64>,
    /// `table` or `view`.
    pub kind: String,
}

/// Severity of a log record.
#[derive(Debug, Clone, Copy, PartialEq, Eq, Structural)]
pub enum LogLevel {
    Debug,
    Info,
    Warn,
    Error,
}

/// The levels of the tracing framework that events are emitted at.
#[derive(Debug, Clone, Copy, PartialEq, Eq, Structural)]
pub enum TraceLevel {
    Error,
    Warn,
    Info,
    Debug,
    Trace,
}

/// Text stored for a level.
pub open spec fn level_text(l: LogLevel) -> Seq<char> {
    match l {
        LogLevel::Debug => "debug"@,
        LogLevel::Info => "info"@,
        LogLevel::Warn => "warn"@,
        LogLevel::Error => "error"@,
    }
}

/// Level stored as a text; unknown texts read as `Info`.
pub open spec fn level_named(s: Seq<char>) -> LogLevel {
    if s == "debug"@ {
        LogLevel::Debug
    } else if s == "warn"@ {
        LogLevel::Warn
    } else if s == "error"@ {
        LogLevel::Error
    } else {
        LogLevel::Info
    }
}

impl LogLevel {
    /// The coarse level of a tracing level (trace and debug read as debug).
    pub fn from_tracing(level: &TraceLevel) -> (r: Self)
        ensures
            r == match *level {
                TraceLevel::Error => LogLevel::Error,
                TraceLevel::Warn => LogLevel::Warn,
                TraceLevel::Info => LogLevel::Info,
                _ => LogLevel::Debug,
            },
    {
        match *level {
            TraceLevel::Error => LogLevel::Error,
            TraceLevel::Warn => LogLevel::Warn,
            TraceLevel::Info => LogLevel::Info,
            _ => LogLevel::Debug,
        }
    }

    /// Lowercase text stored in the `logs.level` column.
    pub fn as_str(&self) -> (r: &'static str)
        ensures
            r@ == level_text(*self),
    {
        match self {
            LogLevel::Debug => "debug",
            LogLevel::Info => "info",
            LogLevel::Warn => "warn",
            LogLevel::Error => "error",
        }
    }

    /// Level of a stored text; unknown texts read as `Info`.
    pub fn from_db_str(s: &str) -> (r: Self)
        ensures
            r == level_named(s@),
    {
        if str_eq(s, "debug") {
            LogLevel::Debug
        } else if str_eq(s, "warn") {
            LogLevel::Warn
        } else if str_eq(s, "error") {
            LogLevel::Error
        } else {
            LogLevel::Info
        }
    }
}

/// Law: a level read back from the text it is stored as is the same level.
pub proof fn lemma_level_roundtrip(l: LogLevel)
    ensures
        level_named(level_text(l)) == l,
{
    reveal_strlit("debug");
    reveal_strlit("info");
    reveal_strlit("warn");
    reveal_strlit("error");
    assert("info"@[0] != "debug"@[0] && "info"@[0] != "warn"@[0] && "info"@[0] != "error"@[0]);
    assert("warn"@[0] != "debug"@[0] && "error"@[0] != "debug"@[0] && "error"@[0] != "warn"@[0]);
}

/// Filter of a log query; `None` leaves a dimension unconstrained.
#[derive(Debug, Clone)]
pub struct LogFilter {
    /// Any of these categories.
    pub categories: Option<Vec<String>>,
    /// Any of these levels.
    pub levels: Option<Vec<String>>,
    /// Inclusive lower bound (Unix ms).
    pub from_ts: Option<i64>,
    /// Inclusive upper bound (Unix ms).
    pub to_ts: Option<i64>,
    /// Substring of the message, case ignored.
    pub keyword: Option<String>,
    /// Page size (0 or less: the default page).
    pub limit: i64,
    /// Page offset.
    pub offset: i64,
}

impl Default for LogFilter {
    fn default() -> (r: Self)
        ensures
            r.categories is None,
            r.levels is None,
            r.from_ts is None,
            r.to_ts is None,
            r.keyword is None,
            r.limit == 0,
            r.offset == 0,
    {
        LogFilter {
            categories: None,
            levels: None,
            from_ts: None,
            to_ts: None,
            keyword: None,
            limit: 0,
            offset: 0,
        }
    }
}

} // verus!
