//! Global metadata store: where it lives, and the statement that queries the
//! unified log.

use vstd::prelude::*;

use crate::model::{DataSourceConfig, LogFilter};
use crate::okf::paths::{path_join, path_joined};
use crate::text::{join, push_slice, push_str, str_eq, string_from, trim, trim_bounds, chars_of};

verus! {

/// The application directory `<home>/.daw`, given the home directory the
/// environment names (`HOME`, else `USERPROFILE`).
pub fn get_aioa_dir(home: Option<String>) -> (r: Result<String, String>)
    ensures
        match home {
            Some(h) => r matches Ok(p) && p@ == path_joined(h@, ".daw"@),
            None => r matches Err(e) && e@ == "Could not resolve home directory"@,
        },
{
    match home {
        Some(h) => Ok(path_join(h.as_str(), ".daw")),
        None => Err("Could not resolve home directory".to_owned()),
    }
}

/// The metadata database file `<app dir>/daw.db`.
pub fn get_db_path(home: Option<String>) -> (r: Result<String, String>)
    ensures
        match home {
            Some(h) => r matches Ok(p) && p@ == path_joined(path_joined(h@, ".daw"@), "daw.db"@),
            None => r matches Err(e) && e@ == "Could not resolve home directory"@,
        },
{
    match get_aioa_dir(home) {
        Ok(d) => Ok(path_join(d.as_str(), "daw.db")),
        Err(e) => Err(e),
    }
}

/// The application directory of older versions, `<home>/.aioa`.
pub fn get_legacy_dir(home: &str) -> (r: String)
    ensures
        r@ == path_joined(home@, ".aioa"@),
{
    path_join(home, ".aioa")
}

/// The move that carries an older version's data over on first start: its
/// directory `<home>/.aioa` becomes `<home>/.daw` when it exists and the new
/// one does not yet; otherwise nothing moves.
pub fn legacy_dir_move(home: &str, old_exists: bool, new_exists: bool) -> (r: Option<(String, String)>)
    ensures
        match r {
            Some(m) => old_exists && !new_exists && m.0@ == path_joined(home@, ".aioa"@) && m.1@ == path_joined(
                home@,
                ".daw"@,
            ),
            None => !old_exists || new_exists,
        },
{
    if old_exists && !new_exists {
        Some((path_join(home, ".aioa"), path_join(home, ".daw")))
    } else {
        None
    }
}

/// The database file of older versions inside the application directory,
/// `<app dir>/aioa.db`.
pub fn get_legacy_db_path(app_dir: &str) -> (r: String)
    ensures
        r@ == path_joined(app_dir@, "aioa.db"@),
{
    path_join(app_dir, "aioa.db")
}

/// The rename of an older version's database inside the application
/// directory: `aioa.db` becomes `daw.db` when it is there and the new file
/// is not; otherwise nothing moves.
pub fn legacy_db_move(app_dir: &str, old_exists: bool, new_exists: bool) -> (r: Option<(String, String)>)
    ensures
        match r {
            Some(m) => old_exists && !new_exists && m.0@ == path_joined(app_dir@, "aioa.db"@) && m.1@ == path_joined(
                app_dir@,
                "daw.db"@,
            ),
            None => !old_exists || new_exists,
        },
{
    if old_exists && !new_exists {
        Some((path_join(app_dir, "aioa.db"), path_join(app_dir, "daw.db")))
    } else {
        None
    }
}

/// Milliseconds since the Unix epoch now (`SystemTime::now()`, zero before
/// the epoch). It depends on the time of the call, so nothing is stated of
/// it.
#[verifier::external_body]
pub fn now_ms() -> (r: i64) {
    std::time::SystemTime::now().duration_since(std::time::UNIX_EPOCH).unwrap_or_default().as_millis() as i64
}

/// The first connection with this name.
pub fn get_workspace_db_connection_by_name<'a>(conns: &'a [DataSourceConfig], name: &str) -> (r: Option<&'a DataSourceConfig>)
    ensures
        match r {
            Some(c) => exists|i: int| 0 <= i < conns@.len() && conns@[i] == *c && c.name@ == name@
                && forall|j: int| 0 <= j < i ==> (#[trigger] conns@[j]).name@ != name@,
            None => forall|j: int| 0 <= j < conns@.len() ==> (#[trigger] conns@[j]).name@ != name@,
        },
{
    let mut k: usize = 0;
    while k < conns.len()
        invariant
            k <= conns.len(),
            forall|j: int| 0 <= j < k ==> (#[trigger] conns@[j]).name@ != name@,
        decreases conns.len() - k,
    {
        if str_eq(conns[k].name.as_str(), name) {
            return Some(&conns[k]);
        }
        k = k + 1;
    }
    None
}

// ---------------------------------------------------------------------------
// log queries
// ---------------------------------------------------------------------------

/// A bound parameter of a statement.
#[derive(Debug, Clone, PartialEq, Eq)]
pub enum SqlParam {
    Text(String),
    Int(i64),
}

pub open spec fn param_view(p: SqlParam) -> (bool, Seq<char>, int) {
    match p {
        SqlParam::Text(s) => (true, s@, 0),
        SqlParam::Int(i) => (false, Seq::empty(), i as int),
    }
}

pub open spec fn params_view(v: Seq<SqlParam>) -> Seq<(bool, Seq<char>, int)> {
    Seq::new(v.len(), |i: int| param_view(v[i]))
}

/// `n` placeholders `?` joined by commas.
pub open spec fn placeholders(n: nat) -> Seq<char>
    decreases n,
{
    if n == 0 {
        Seq::empty()
    } else if n == 1 {
        seq!['?']
    } else {
        placeholders((n - 1) as nat) + seq![',', '?']
    }
}

pub open spec fn text_params(v: Seq<String>) -> Seq<(bool, Seq<char>, int)> {
    Seq::new(v.len(), |i: int| (true, v[i]@, 0int))
}

/// Conditions of a log query and their parameters, in order: categories,
/// levels, lower and upper time bounds, keyword (trimmed, non-blank,
/// matched case-insensitively as a substring).
pub open spec fn log_conditions(f: LogFilter) -> (Seq<Seq<char>>, Seq<(bool, Seq<char>, int)>) {
    let c1: (Seq<Seq<char>>, Seq<(bool, Seq<char>, int)>) = match f.categories {
        Some(cats) => if cats@.len() > 0 {
            (seq!["category IN ("@ + placeholders(cats@.len()) + ")"@], text_params(cats@))
        } else {
            (Seq::empty(), Seq::empty())
        },
        None => (Seq::empty(), Seq::empty()),
    };
    let c2: (Seq<Seq<char>>, Seq<(bool, Seq<char>, int)>) = match f.levels {
        Some(ls) => if ls@.len() > 0 {
            (c1.0.push("level IN ("@ + placeholders(ls@.len()) + ")"@), c1.1 + text_params(ls@))
        } else {
            c1
        },
        None => c1,
    };
    let c3: (Seq<Seq<char>>, Seq<(bool, Seq<char>, int)>) = match f.from_ts {
        Some(t) => (c2.0.push("ts >= ?"@), c2.1.push((false, Seq::empty(), t as int))),
        None => c2,
    };
    let c4: (Seq<Seq<char>>, Seq<(bool, Seq<char>, int)>) = match f.to_ts {
        Some(t) => (c3.0.push("ts <= ?"@), c3.1.push((false, Seq::empty(), t as int))),
        None => c3,
    };
    match f.keyword {
        Some(k) => if trim(k@).len() > 0 {
            (c4.0.push("LOWER(message) LIKE LOWER(?)"@), c4.1.push((true, seq!['%'] + trim(k@) + seq!['%'], 0int)))
        } else {
            c4
        },
        None => c4,
    }
}

/// The statement of a log query, newest first: the conditions joined by
/// `AND` after `WHERE` (no `WHERE` without conditions), then the page size
/// (200 when not positive) and the offset (at least 0) as the last two
/// parameters.
pub open spec fn log_query_spec(f: LogFilter) -> (Seq<char>, Seq<(bool, Seq<char>, int)>) {
    let (conds, ps) = log_conditions(f);
    let where_clause = if conds.len() == 0 { Seq::empty() } else { "WHERE "@ + join(conds, " AND "@) };
    let limit: int = if f.limit <= 0 { 200 } else { f.limit as int };
    let offset: int = if f.offset < 0 { 0 } else { f.offset as int };
    (
        "SELECT id, ts, level, category, message, detail, workspace, task_id\n         FROM logs "@ + where_clause
            + "\n         ORDER BY ts DESC, id DESC\n         LIMIT ? OFFSET ?"@,
        ps.push((false, Seq::empty(), limit)).push((false, Seq::empty(), offset)),
    )
}

fn push_placeholders(out: &mut Vec<char>, n: usize)
    requires
        n > 0,
    ensures
        final(out)@ == old(out)@ + placeholders(n as nat),
{
    out.push('?');
    let mut k: usize = 1;
    while k < n
        invariant
            1 <= k <= n,
            out@ == old(out)@ + placeholders(k as nat),
        decreases n - k,
    {
        out.push(',');
        out.push('?');
        proof {
            assert(placeholders((k + 1) as nat) == placeholders(k as nat) + seq![',', '?']);
            assert(out@ =~= old(out)@ + placeholders((k + 1) as nat));
        }
        k = k + 1;
    }
}

fn push_text_params(ps: &mut Vec<SqlParam>, v: &Vec<String>)
    ensures
        params_view(final(ps)@) == params_view(old(ps)@) + text_params(v@),
{
    let mut k: usize = 0;
    while k < v.len()
        invariant
            k <= v.len(),
            params_view(ps@) == params_view(old(ps)@) + text_params(v@.take(k as int)),
        decreases v.len() - k,
    {
        let ghost before = ps@;
        ps.push(SqlParam::Text(v[k].clone()));
        proof {
            assert(params_view(ps@) =~= params_view(before).push((true, v@[k as int]@, 0int)));
            assert(text_params(v@.take(k + 1)) =~= text_params(v@.take(k as int)).push((true, v@[k as int]@, 0int)));
            assert(params_view(ps@) =~= params_view(old(ps)@) + text_params(v@.take(k + 1)));
        }
        k = k + 1;
    }
    proof {
        assert(v@.take(v@.len() as int) =~= v@);
    }
}

fn push_int(ps: &mut Vec<SqlParam>, i: i64)
    ensures
        params_view(final(ps)@) == params_view(old(ps)@).push((false, Seq::empty(), i as int)),
{
    let ghost before = ps@;
    ps.push(SqlParam::Int(i));
    proof {
        assert(params_view(ps@) =~= params_view(before).push((false, Seq::empty(), i as int)));
    }
}

fn view_strings(v: &Vec<Vec<char>>) -> (r: Ghost<Seq<Seq<char>>>)
    ensures
        r@ == crate::text::views(v@),
{
    Ghost(crate::text::views(v@))
}

/// Statement and parameters of a log query (see [`log_query_spec`]).
#[verifier::spinoff_prover]
#[verifier::rlimit(60)]
pub fn log_query_sql(filter: &LogFilter) -> (r: (String, Vec<SqlParam>))
    ensures
        r.0@ == log_query_spec(*filter).0,
        params_view(r.1@) == log_query_spec(*filter).1,
{
    let ghost f = *filter;
    let mut conds: Vec<Vec<char>> = Vec::new();
    let mut ps: Vec<SqlParam> = Vec::new();
    let ghost cs = log_conditions(f);
    match &filter.categories {
        Some(cats) => {
            if cats.len() > 0 {
                let mut c: Vec<char> = Vec::new();
                push_str(&mut c, "category IN (");
                push_placeholders(&mut c, cats.len());
                push_str(&mut c, ")");
                conds.push(c);
                push_text_params(&mut ps, cats);
            }
        },
        None => {},
    }
    proof {
        assert(crate::text::views(conds@) =~= log_conditions_upto(f, 1).0);
        assert(params_view(ps@) =~= log_conditions_upto(f, 1).1);
    }
    match &filter.levels {
        Some(ls) => {
            if ls.len() > 0 {
                let mut c: Vec<char> = Vec::new();
                push_str(&mut c, "level IN (");
                push_placeholders(&mut c, ls.len());
                push_str(&mut c, ")");
                let ghost before = conds@;
                conds.push(c);
                proof {
                    assert(crate::text::views(conds@) =~= crate::text::views(before).push(c@));
                }
                push_text_params(&mut ps, ls);
            }
        },
        None => {},
    }
    proof {
        assert(crate::text::views(conds@) =~= log_conditions_upto(f, 2).0);
        assert(params_view(ps@) =~= log_conditions_upto(f, 2).1);
    }
    match filter.from_ts {
        Some(t) => {
            let ghost before = conds@;
            conds.push(chars_of("ts >= ?"));
            proof {
                assert(crate::text::views(conds@) =~= crate::text::views(before).push("ts >= ?"@));
            }
            push_int(&mut ps, t);
        },
        None => {},
    }
    match filter.to_ts {
        Some(t) => {
            let ghost before = conds@;
            conds.push(chars_of("ts <= ?"));
            proof {
                assert(crate::text::views(conds@) =~= crate::text::views(before).push("ts <= ?"@));
            }
            push_int(&mut ps, t);
        },
        None => {},
    }
    proof {
        assert(crate::text::views(conds@) =~= log_conditions_upto(f, 4).0);
        assert(params_view(ps@) =~= log_conditions_upto(f, 4).1);
    }
    match &filter.keyword {
        Some(k) => {
            let kv = chars_of(k.as_str());
            let (a, b) = trim_bounds(&kv, 0, kv.len());
            proof {
                assert(kv@.subrange(0, kv@.len() as int) =~= kv@);
            }
            if a < b {
                let ghost before = conds@;
                conds.push(chars_of("LOWER(message) LIKE LOWER(?)"));
                proof {
                    assert(crate::text::views(conds@) =~= crate::text::views(before).push("LOWER(message) LIKE LOWER(?)"@));
                }
                let mut pat: Vec<char> = Vec::new();
                pat.push('%');
                crate::text::push_range(&mut pat, &kv, a, b);
                pat.push('%');
                assert(pat@ =~= seq!['%'] + trim(k@) + seq!['%']);
                let ghost pb = ps@;
                ps.push(SqlParam::Text(string_from(pat.as_slice())));
                proof {
                    assert(params_view(ps@) =~= params_view(pb).push((true, seq!['%'] + trim(k@) + seq!['%'], 0int)));
                }
            }
        },
        None => {},
    }
    proof {
        assert(crate::text::views(conds@) =~= cs.0);
        assert(params_view(ps@) =~= cs.1);
    }
    let mut sql: Vec<char> = Vec::new();
    push_str(&mut sql, "SELECT id, ts, level, category, message, detail, workspace, task_id\n         FROM logs ");
    if conds.len() > 0 {
        push_str(&mut sql, "WHERE ");
        let sep = chars_of(" AND ");
        let mut k: usize = 0;
        let ghost pre = sql@;
        proof {
            assert(crate::text::views(conds@).take(0).len() == 0);
        }
        while k < conds.len()
            invariant
                k <= conds.len(),
                sep@ == " AND "@,
                sql@ == pre + join(crate::text::views(conds@).take(k as int), " AND "@),
            decreases conds.len() - k,
        {
            let ghost before = sql@;
            proof {
                crate::text::lemma_join_push(crate::text::views(conds@).take(k as int), conds@[k as int]@, " AND "@);
                assert(crate::text::views(conds@).take(k + 1) =~= crate::text::views(conds@).take(k as int).push(conds@[k as int]@));
            }
            if k > 0 {
                push_slice(&mut sql, sep.as_slice());
            }
            push_slice(&mut sql, conds[k].as_slice());
            proof {
                if k == 0 {
                    assert(crate::text::views(conds@).take(0) =~= Seq::<Seq<char>>::empty());
                }
            }
            k = k + 1;
        }
        proof {
            assert(crate::text::views(conds@).take(conds@.len() as int) =~= crate::text::views(conds@));
        }
    }
    push_str(&mut sql, "\n         ORDER BY ts DESC, id DESC\n         LIMIT ? OFFSET ?");
    let limit = if filter.limit <= 0 { 200 } else { filter.limit };
    let offset = if filter.offset < 0 { 0 } else { filter.offset };
    push_int(&mut ps, limit);
    push_int(&mut ps, offset);
    (string_from(sql.as_slice()), ps)
}

/// The conditions of [`log_conditions`] up to the `n`-th filter dimension.
pub open spec fn log_conditions_upto(f: LogFilter, n: int) -> (Seq<Seq<char>>, Seq<(bool, Seq<char>, int)>) {
    let c1: (Seq<Seq<char>>, Seq<(bool, Seq<char>, int)>) = match f.categories {
        Some(cats) => if cats@.len() > 0 {
            (seq!["category IN ("@ + placeholders(cats@.len()) + ")"@], text_params(cats@))
        } else {
            (Seq::empty(), Seq::empty())
        },
        None => (Seq::empty(), Seq::empty()),
    };
    let c2: (Seq<Seq<char>>, Seq<(bool, Seq<char>, int)>) = match f.levels {
        Some(ls) => if ls@.len() > 0 {
            (c1.0.push("level IN ("@ + placeholders(ls@.len()) + ")"@), c1.1 + text_params(ls@))
        } else {
            c1
        },
        None => c1,
    };
    let c3: (Seq<Seq<char>>, Seq<(bool, Seq<char>, int)>) = match f.from_ts {
        Some(t) => (c2.0.push("ts >= ?"@), c2.1.push((false, Seq::empty(), t as int))),
        None => c2,
    };
    let c4: (Seq<Seq<char>>, Seq<(bool, Seq<char>, int)>) = match f.to_ts {
        Some(t) => (c3.0.push("ts <= ?"@), c3.1.push((false, Seq::empty(), t as int))),
        None => c3,
    };
    if n <= 1 { c1 } else if n <= 2 { c2 } else { c4 }
}

} // verus!
