//! Attaching external databases: catalog aliases and `ATTACH` statements.

use vstd::prelude::*;

use crate::model::DataSourceConfig;
use crate::text::{chars_of, decimal, push_i64, push_str, str_eq, string_from};

verus! {

/// `char::is_ascii_alphanumeric`.
pub open spec fn is_alnum(c: char) -> bool {
    ('0' <= c && c <= '9') || ('a' <= c && c <= 'z') || ('A' <= c && c <= 'Z')
}

/// A character allowed in a catalog alias, or `_` in its place.
pub open spec fn alias_char(c: char) -> char {
    if is_alnum(c) || c == '_' { c } else { '_' }
}

/// Catalog alias of a connection name: `db_` and the name with every
/// character other than ASCII letters, digits and `_` replaced by `_`.
pub open spec fn alias_spec(name: Seq<char>) -> Seq<char> {
    "db_"@ + Seq::new(name.len(), |i: int| alias_char(name[i]))
}

/// The catalog alias of a connection name (see [`alias_spec`]); it holds
/// only ASCII letters, digits and `_`.
pub fn workspace_attach_alias(name: &str) -> (r: String)
    ensures
        r@ == alias_spec(name@),
        forall|i: int| 0 <= i < r@.len() ==> is_alnum(#[trigger] r@[i]) || r@[i] == '_',
{
    let v = chars_of(name);
    let mut out: Vec<char> = Vec::new();
    push_str(&mut out, "db_");
    proof {
        reveal_strlit("db_");
    }
    let mut k: usize = 0;
    while k < v.len()
        invariant
            k <= v.len(),
            out@ == "db_"@ + Seq::new(k as nat, |i: int| alias_char(v@[i])),
            "db_"@ == seq!['d', 'b', '_'],
        decreases v.len() - k,
    {
        let c = v[k];
        let ok = ('0' <= c && c <= '9') || ('a' <= c && c <= 'z') || ('A' <= c && c <= 'Z') || c == '_';
        out.push(if ok { c } else { '_' });
        proof {
            assert(out@ =~= "db_"@ + Seq::new((k + 1) as nat, |i: int| alias_char(v@[i])));
        }
        k = k + 1;
    }
    proof {
        assert(out@ =~= alias_spec(name@));
        assert forall|i: int| 0 <= i < out@.len() implies is_alnum(#[trigger] out@[i]) || out@[i] == '_' by {
            if i >= 3 {
                assert(out@[i] == alias_char(v@[i - 3]));
            }
        }
    }
    string_from(out.as_slice())
}

/// `s` with each `'` doubled (a SQL string literal's body).
pub open spec fn sql_escaped(s: Seq<char>) -> Seq<char>
    decreases s.len(),
{
    if s.len() == 0 {
        Seq::empty()
    } else {
        sql_escaped(s.drop_last()) + (if s.last() == '\'' { seq!['\'', '\''] } else { seq![s.last()] })
    }
}

fn push_escaped(out: &mut Vec<char>, s: &str)
    ensures
        final(out)@ == old(out)@ + sql_escaped(s@),
{
    let v = chars_of(s);
    let mut k: usize = 0;
    while k < v.len()
        invariant
            k <= v.len(),
            v@ == s@,
            out@ == old(out)@ + sql_escaped(v@.take(k as int)),
        decreases v.len() - k,
    {
        proof {
            assert(v@.take(k + 1).drop_last() =~= v@.take(k as int));
        }
        if v[k] == '\'' {
            out.push('\'');
            out.push('\'');
        } else {
            out.push(v[k]);
        }
        k = k + 1;
    }
    proof {
        assert(v@.take(v@.len() as int) =~= v@);
    }
}

/// The libpq-style connection string of a postgres source.
pub open spec fn pg_conn_spec(r: DataSourceConfig) -> Seq<char> {
    "host="@ + r.host@ + " port="@ + decimal(r.port as int) + " dbname="@ + r.database_name@ + " user="@
        + r.username@ + " password="@ + r.password@ + (if r.ssl_mode@ != "disable"@ {
        " sslmode="@ + r.ssl_mode@
    } else {
        Seq::empty()
    })
}

fn push_pg_conn(out: &mut Vec<char>, r: &DataSourceConfig)
    ensures
        final(out)@ == old(out)@ + pg_conn_spec(*r),
{
    push_str(out, "host=");
    push_str(out, r.host.as_str());
    push_str(out, " port=");
    push_i64(out, r.port as i64);
    push_str(out, " dbname=");
    push_str(out, r.database_name.as_str());
    push_str(out, " user=");
    push_str(out, r.username.as_str());
    push_str(out, " password=");
    push_str(out, r.password.as_str());
    if !str_eq(r.ssl_mode.as_str(), "disable") {
        push_str(out, " sslmode=");
        push_str(out, r.ssl_mode.as_str());
    }
}

/// Connection string for `postgres_query` (the same as in `ATTACH`).
pub fn build_pg_conn_str(r: &DataSourceConfig) -> (s: String)
    ensures
        s@ == pg_conn_spec(*r),
{
    let mut out: Vec<char> = Vec::new();
    push_pg_conn(&mut out, r);
    string_from(out.as_slice())
}

/// The `ATTACH` statement of a source under `alias`.
pub open spec fn attach_sql_spec(r: DataSourceConfig, alias: Seq<char>) -> Seq<char> {
    if r.db_type@ == "sqlite"@ {
        "ATTACH '"@ + sql_escaped(r.database_name@) + "' AS "@ + alias + " (TYPE sqlite);"@
    } else if r.db_type@ == "postgres"@ {
        "ATTACH '"@ + pg_conn_spec(r) + "' AS "@ + alias + " (TYPE postgres);"@
    } else {
        "ATTACH 'host="@ + r.host@ + " port="@ + decimal(r.port as int) + " database="@ + r.database_name@
            + " user="@ + r.username@ + " password="@ + r.password@ + "' AS "@ + alias + " (TYPE mysql);"@
    }
}

/// Builds the `ATTACH` statement of a source (credentials inline: `ATTACH`
/// takes no bound parameters).
pub fn build_attach_sql(r: &DataSourceConfig, alias: &str) -> (s: String)
    ensures
        s@ == attach_sql_spec(*r, alias@),
{
    let mut out: Vec<char> = Vec::new();
    if str_eq(r.db_type.as_str(), "sqlite") {
        push_str(&mut out, "ATTACH '");
        push_escaped(&mut out, r.database_name.as_str());
        push_str(&mut out, "' AS ");
        push_str(&mut out, alias);
        push_str(&mut out, " (TYPE sqlite);");
    } else if str_eq(r.db_type.as_str(), "postgres") {
        push_str(&mut out, "ATTACH '");
        push_pg_conn(&mut out, r);
        push_str(&mut out, "' AS ");
        push_str(&mut out, alias);
        push_str(&mut out, " (TYPE postgres);");
    } else {
        push_str(&mut out, "ATTACH 'host=");
        push_str(&mut out, r.host.as_str());
        push_str(&mut out, " port=");
        push_i64(&mut out, r.port as i64);
        push_str(&mut out, " database=");
        push_str(&mut out, r.database_name.as_str());
        push_str(&mut out, " user=");
        push_str(&mut out, r.username.as_str());
        push_str(&mut out, " password=");
        push_str(&mut out, r.password.as_str());
        push_str(&mut out, "' AS ");
        push_str(&mut out, alias);
        push_str(&mut out, " (TYPE mysql);");
    }
    string_from(out.as_slice())
}

/// The statements that attach one data source: load its driver (on failure,
/// install it and load again), then attach it under its alias.
pub struct AttachPlan {
    pub alias: String,
    pub load_sql: String,
    pub install_sql: String,
    pub attach_sql: String,
}

/// The statements attaching `r` (see [`AttachPlan`]).
pub fn attach_plan(r: &DataSourceConfig) -> (p: AttachPlan)
    ensures
        p.alias@ == alias_spec(r.name@),
        p.load_sql@ == "LOAD "@ + r.db_type@ + ";"@,
        p.install_sql@ == "INSTALL "@ + r.db_type@ + ";"@,
        p.attach_sql@ == attach_sql_spec(*r, alias_spec(r.name@)),
{
    let alias = workspace_attach_alias(r.name.as_str());
    let mut load: Vec<char> = Vec::new();
    push_str(&mut load, "LOAD ");
    push_str(&mut load, r.db_type.as_str());
    push_str(&mut load, ";");
    let mut install: Vec<char> = Vec::new();
    push_str(&mut install, "INSTALL ");
    push_str(&mut install, r.db_type.as_str());
    push_str(&mut install, ";");
    let attach_sql = build_attach_sql(r, alias.as_str());
    AttachPlan { alias, load_sql: string_from(load.as_slice()), install_sql: string_from(install.as_slice()), attach_sql }
}

/// `DETACH <alias>;` for the data source named `name`.
pub fn detach_sql(name: &str) -> (s: String)
    ensures
        s@ == "DETACH "@ + alias_spec(name@) + ";"@,
{
    let alias = workspace_attach_alias(name);
    let mut out: Vec<char> = Vec::new();
    push_str(&mut out, "DETACH ");
    push_str(&mut out, alias.as_str());
    push_str(&mut out, ";");
    string_from(out.as_slice())
}

} // verus!
