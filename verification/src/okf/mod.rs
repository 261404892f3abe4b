//! The Open Knowledge Format: YAML-frontmatter + Markdown knowledge documents,
//! their model, paths, storage rules, similarity and catalog rendering.

pub mod catalog;
pub mod frontmatter;
pub mod markdown;
pub mod model;
pub mod paths;
pub mod rewrite;
pub mod similarity;
pub mod store;

use vstd::prelude::*;

use crate::model::TableRegistryEntry;
use crate::okf::catalog::{KnowledgeDirs, TableNotes};
use crate::okf::model::{Category, ColumnInfo, OkfReadOutcome, SearchHit};
use crate::okf::paths::OkfPaths;
use crate::okf::similarity::SimilarCandidate;
use crate::okf::store::{doc_path, ColumnSemantics, ColumnMap, WritePlan};

verus! {

/// The text of an optional string.
pub open spec fn opt_text(o: Option<&str>) -> Option<Seq<char>> {
    match o {
        Some(x) => Some(x@),
        None => None,
    }
}

/// Stamps knowledge writes with the current time.
pub trait Clock {
    fn now_ts(&self) -> String;
}

/// The system clock: the current UTC time, `YYYY-MM-DDTHH:MM:SSZ`.
pub struct SystemClock;

impl Clock for SystemClock {
    fn now_ts(&self) -> (r: String)
        ensures
            exists|secs: int| 0 <= secs && r@ == #[trigger] crate::dates::utc_timestamp_text(secs),
    {
        crate::dates::current_timestamp()
    }
}

/// A clock stopped at a given timestamp.
pub struct FixedClock(pub String);

impl Clock for FixedClock {
    fn now_ts(&self) -> (r: String)
        ensures
            r@ == self.0@,
    {
        self.0.clone()
    }
}

/// The knowledge base's entry point: where its files live and the clock that
/// stamps writes. Reading and writing the files, and versioning them, is
/// the caller's part; everything decided about them is here.
pub struct Okf<C: Clock> {
    pub paths: OkfPaths,
    pub clock: C,
}

impl Okf<SystemClock> {
    /// A knowledge base under `paths`, stamped by the system clock.
    pub fn with_paths(paths: OkfPaths) -> (r: Self)
        ensures
            r.paths == paths,
    {
        Okf { paths, clock: SystemClock }
    }
}

impl<C: Clock> Okf<C> {
    /// A knowledge base under `paths`, stamped by `clock`.
    pub fn new(paths: OkfPaths, clock: C) -> (r: Self)
        ensures
            r.paths == paths,
            r.clock == clock,
    {
        Okf { paths, clock }
    }

    /// The file that holds a piece of knowledge (whether it exists is what
    /// `knowledge_exists` asks of the file system).
    pub fn knowledge_file(&self, ws: &str, category: Category, name: &str) -> (r: String)
        ensures
            r@ == doc_path(self.paths.app_root@, ws@, category, name@),
    {
        crate::okf::store::doc_file(&self.paths, ws, category, name)
    }

    /// A read of `heading` (see [`crate::okf::store::read`]), given the
    /// file's content (`None`: no such file).
    pub fn read(&self, ws: &str, category: Category, name: &str, heading: &str, file_content: Option<&str>) -> (r: Result<OkfReadOutcome, String>)
        ensures
            match file_content {
                None => r matches Err(e) && e@ == "文件不存在: "@ + doc_path(self.paths.app_root@, ws@, category, name@),
                Some(c) => match crate::okf::store::read_spec(c@, heading@) {
                    Ok(b) => r matches Ok(o) && o.content@ == b && o.scope == crate::okf::model::category_scope(category)
                        && o.file_path@ == doc_path(self.paths.app_root@, ws@, category, name@),
                    Err(e) => r matches Err(x) && x@ == e,
                },
            },
    {
        crate::okf::store::read(&self.paths, ws, category, name, heading, file_content)
    }

    /// The write of `content` under `heading` (see
    /// [`crate::okf::store::write`]), stamped by the clock, given the file's
    /// current content (`None`: not created yet).
    pub fn write(
        &self,
        ws: &str,
        category: Category,
        name: &str,
        heading: &str,
        content: &str,
        description: Option<&str>,
        existing: Option<&str>,
    ) -> (r: WritePlan)
        ensures
            r.outcome.created == existing.is_none(),
            r.outcome.scope == crate::okf::model::category_scope(category),
            r.outcome.file_path@ == doc_path(self.paths.app_root@, ws@, category, name@),
            exists|ts: Seq<char>|
                r.document@ == #[trigger] crate::okf::store::written_spec(
                    opt_text(existing),
                    category,
                    name@,
                    heading@,
                    content@,
                    opt_text(description),
                    ts,
                ),
            r.repo_root@ == crate::okf::store::repo_path(self.paths.app_root@, ws@, crate::okf::model::category_scope(category)),
    {
        let ts = self.clock.now_ts();
        crate::okf::store::write(&self.paths, ws, category, name, heading, content, description, existing, ts.as_str())
    }

    /// The entries of a category's directory that may duplicate a new entry
    /// (see [`crate::okf::similarity::find_similar_in_dir`]).
    pub fn find_similar(&self, entries: &[(String, String)], name: &str, description: Option<&str>) -> (r: Vec<SimilarCandidate>)
        ensures
            exists|sorted: Seq<(Seq<char>, Seq<char>)>|
                #[trigger] crate::okf::similarity::stably_sorted_by_name(sorted, crate::okf::similarity::entry_views(entries@))
                && crate::okf::similarity::stably_sorted_desc(
                    crate::okf::similarity::cand_views(r@),
                    crate::okf::similarity::candidates_spec(
                        crate::okf::similarity::neutralized(sorted),
                        name@,
                        match description { Some(d) => d@, None => Seq::empty() },
                    ),
                ),
    {
        crate::okf::similarity::find_similar_in_dir(entries, name, description)
    }

    /// The skeleton of a table's document when the table is explored for the
    /// first time: its file and content; `None` when the file exists (its
    /// notes are kept).
    pub fn ensure_table_skeleton(
        &self,
        ws: &str,
        table: &str,
        columns: &[ColumnInfo],
        row_count: Option<i64>,
        exists: bool,
    ) -> (r: Option<(String, String)>)
        ensures
            exists <==> r is None,
            r matches Some(x) ==> x.0@ == doc_path(self.paths.app_root@, ws@, Category::Table, table@)
                && exists|ts: Seq<char>| x.1@ == #[trigger] crate::okf::frontmatter::joined(
                    Some(crate::okf::store::skeleton_entries(Category::Table, table@ + " 物理数据表"@, ts)),
                    crate::okf::store::table_body(columns@, row_count),
                ),
    {
        if exists {
            return None;
        }
        let ts = self.clock.now_ts();
        let file = crate::okf::store::doc_file(&self.paths, ws, Category::Table, table);
        Some((file, crate::okf::store::table_skeleton(table, columns, row_count, ts.as_str())))
    }

    /// The skeleton of a view's document (its SQL) when first seen; `None`
    /// when the file exists.
    pub fn ensure_view_skeleton(&self, ws: &str, view: &str, sql: &str, exists: bool) -> (r: Option<(String, String)>)
        ensures
            exists <==> r is None,
            r matches Some(x) ==> x.0@ == doc_path(self.paths.app_root@, ws@, Category::View, view@)
                && exists|ts: Seq<char>| x.1@ == #[trigger] crate::okf::frontmatter::joined(
                    Some(crate::okf::store::skeleton_entries(Category::View, view@ + " 逻辑视图"@, ts)),
                    "# 视图 SQL 定义\n```sql\n"@ + sql@ + "\n```\n"@,
                ),
    {
        if exists {
            return None;
        }
        let ts = self.clock.now_ts();
        let file = crate::okf::store::doc_file(&self.paths, ws, Category::View, view);
        Some((file, crate::okf::store::view_skeleton(view, sql, ts.as_str())))
    }

    /// A table's column semantics from its document's content (`None`: no
    /// document under tables, views or sources): nothing without one.
    pub fn column_semantics(&self, content: Option<&str>) -> (r: ColumnSemantics)
        ensures
            match content {
                None => r.0 is None && r.1@.len() == 0 && r.2@.len() == 0,
                Some(c) => (match crate::okf::store::title_of(c@) {
                    Some(t) => r.0 matches Some(x) && x@ == t,
                    None => r.0 is None,
                }) && r.1@ == crate::okf::store::sem_scan(crate::text::lines(c@)).cols
                    && crate::okf::store::string_views(r.2@) == crate::okf::store::sem_scan(crate::text::lines(c@)).rels,
            },
    {
        match content {
            Some(c) => crate::okf::store::parse_semantics_from_content(c),
            None => (None, ColumnMap::new(), Vec::new()),
        }
    }

    /// The knowledge outline for the preamble (see
    /// [`crate::okf::catalog::summary`]), its budgets counted with
    /// [`crate::usage::estimate_tokens`].
    pub fn catalog_summary(&self, dirs: &KnowledgeDirs, tables: &[(TableRegistryEntry, TableNotes)]) -> (r: String)
        ensures
            crate::okf::catalog::summary_listed(
                crate::usage::estimate_tokens,
                crate::okf::catalog::dir_list(*dirs),
                tables@,
                r@,
            ),
    {
        crate::okf::catalog::summary(dirs, tables, &crate::usage::estimate_tokens)
    }

    /// The outline with every entry's metadata (see
    /// [`crate::okf::catalog::outline`]).
    pub fn catalog_outline(&self, dirs: &KnowledgeDirs, tables: &[(TableRegistryEntry, TableNotes)]) -> (r: String)
        ensures
            crate::okf::catalog::outline_listed(crate::okf::catalog::dir_list(*dirs), tables@, r@),
    {
        crate::okf::catalog::outline(dirs, tables)
    }

    /// Full-text search (see [`crate::okf::catalog::search`]).
    pub fn search(&self, query: &str, global: &[(String, String)], workspace: &[(String, String)]) -> (r: Vec<SearchHit>)
        ensures
            crate::okf::catalog::hits_sorted(
                crate::okf::catalog::hit_views(r@),
                crate::okf::catalog::search_hits(
                    query@,
                    crate::okf::catalog::doc_views(global@),
                    crate::okf::catalog::doc_views(workspace@),
                ),
            ),
    {
        crate::okf::catalog::search(query, global, workspace)
    }
}

} // verus!
