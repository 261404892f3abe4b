//! Heading-block access to knowledge files by directory and category name:
//! the OKF directory of a workspace, block extraction and de-duplication, and
//! single frontmatter fields.

use vstd::prelude::*;

use crate::okf::frontmatter::fence;
use crate::okf::markdown::{block_of, deduplicate, deduplicate_chars, deduplicated, extract_block, level_prefix, prefix_of_level, scan_upsert, upsert_scan};
use crate::okf::paths::{path_join, path_joined};
use crate::text::{char_index, chars_of, eq_ignore_ascii_case, eq_ignore_case_at, line_ranges, lines, range_texts, ranges_in, string_of_range, trim, trim_bounds, has_prefix_at, join, push_joined, push_slice, push_str, starts_with, string_from, lowercase_chars, unicode_lower};
use crate::okf::frontmatter::{fence_at, Entries};
use crate::model::TableRegistryEntry;
use crate::okf::model::{status_icon, status_named, ColumnInfo, TableStatus};
use crate::okf::store::{scan_semantics, sem_scan, string_views, table_body, table_body_text, ColumnMap, ColumnSemantics};

verus! {

/// OKF directory of a workspace: `<ws_path>/okf`.
pub fn get_okf_dir(ws_path: &str) -> (r: String)
    ensures
        r@ == path_joined(ws_path@, "okf"@),
{
    path_join(ws_path, "okf")
}

/// Global OKF directory `<app dir>/okf`, given the application directory
/// lookup; its error is passed on.
pub fn get_global_okf_dir(app_dir: Result<String, String>) -> (r: Result<String, String>)
    ensures
        match app_dir {
            Ok(d) => r matches Ok(p) && p@ == path_joined(d@, "okf"@),
            Err(e) => r == Err::<String, String>(e),
        },
{
    match app_dir {
        Ok(d) => Ok(path_join(d.as_str(), "okf")),
        Err(e) => Err(e),
    }
}

/// The text block under a heading (see [`block_of`]).
pub fn parse_okf_block_from_content(content: &str, heading: &str) -> (r: Option<String>)
    ensures
        match block_of(content@, heading@) {
            Some(b) => r matches Some(x) && x@ == b,
            None => r is None,
        },
{
    extract_block(content, heading)
}

/// Removes repeated heading blocks outside the frontmatter (see
/// [`deduplicated`]).
pub fn deduplicate_markdown(content: &str) -> (r: String)
    ensures
        r@ == deduplicated(content@),
{
    deduplicate(content)
}

/// The value of `field` on a frontmatter line `t` (trimmed): the text after
/// the first `:`, trimmed, when the text before it is the field name
/// (ASCII case ignored).
pub open spec fn field_value(t: Seq<char>, field: Seq<char>) -> Option<Seq<char>> {
    let i = char_index(t, ':');
    if i >= 0 && eq_ignore_ascii_case(trim(t.take(i)), field) {
        Some(trim(t.skip(i + 1)))
    } else {
        None
    }
}

/// Scan for a frontmatter field: lines before the first `---` are skipped,
/// the second `---` ends the search.
pub open spec fn yaml_field_scan(ls: Seq<Seq<char>>, field: Seq<char>, in_yaml: bool) -> Option<Seq<char>>
    decreases ls.len(),
{
    if ls.len() == 0 {
        None
    } else {
        let t = trim(ls[0]);
        if t == fence() {
            if in_yaml {
                None
            } else {
                yaml_field_scan(ls.drop_first(), field, true)
            }
        } else if in_yaml && field_value(t, field) is Some {
            field_value(t, field)
        } else {
            yaml_field_scan(ls.drop_first(), field, in_yaml)
        }
    }
}

/// The value of a single frontmatter field, if the frontmatter has it.
pub fn parse_yaml_field(content: &str, field: &str) -> (r: Option<String>)
    ensures
        match yaml_field_scan(lines(content@), field@, false) {
            Some(v) => r matches Some(x) && x@ == v,
            None => r is None,
        },
{
    let sv = chars_of(content);
    let s = &sv;
    let fv = chars_of(field);
    let r = line_ranges(s);
    let ghost ls = range_texts(s@, r@);
    let mut in_yaml = false;
    let mut k: usize = 0;
    proof {
        assert(ls.skip(0) =~= ls);
    }
    while k < r.len()
        invariant
            k <= r.len(),
            ranges_in(s@, r@),
            ls == range_texts(s@, r@),
            ls == lines(content@),
            fv@ == field@,
            yaml_field_scan(ls, field@, false) == yaml_field_scan(ls.skip(k as int), field@, in_yaml),
        decreases r.len() - k,
    {
        let (lo, hi) = r[k];
        proof {
            assert(r@[k as int].0 <= r@[k as int].1 <= s@.len());
            assert(ls.skip(k as int)[0] == s@.subrange(lo as int, hi as int));
            assert(ls.skip(k as int).drop_first() =~= ls.skip(k + 1));
        }
        let (a, b) = trim_bounds(s, lo, hi);
        let ghost t = s@.subrange(a as int, b as int);
        if fence_at(s, lo, hi) {
            if in_yaml {
                return None;
            }
            in_yaml = true;
        } else if in_yaml {
            let mut c = a;
            while c < b && s[c] != ':'
                invariant
                    a <= c <= b <= s.len(),
                    forall|j: int| a <= j < c ==> s@[j] != ':',
                decreases b - c,
            {
                c = c + 1;
            }
            if c < b {
                proof {
                    crate::text::lemma_char_index_found(t, ':', c - a);
                    assert(t.take(c - a) =~= s@.subrange(a as int, c as int));
                    assert(t.skip(c - a + 1) =~= s@.subrange(c + 1, b as int));
                }
                let (ka, kb) = trim_bounds(s, a, c);
                if eq_ignore_case_at(s, ka, kb, fv.as_slice()) {
                    let (va, vb) = trim_bounds(s, c + 1, b);
                    return Some(string_of_range(s, va, vb));
                }
            } else {
                proof {
                    crate::text::lemma_char_index_none(t, ':');
                }
            }
        }
        k = k + 1;
    }
    None
}

// ---------------------------------------------------------------------------
// block writes
// ---------------------------------------------------------------------------

/// Whether a category's files live in the global knowledge base (concepts
/// and users) rather than the workspace's.
pub open spec fn category_is_global(category: Seq<char>) -> bool {
    category == "concepts"@ || starts_with(category, "users"@)
}

/// The frontmatter `type` of a new file of a category.
pub open spec fn block_doc_type(category: Seq<char>) -> Seq<char> {
    if category == "concepts"@ {
        "Business Concept"@
    } else if starts_with(category, "users"@) {
        "User Profile"@
    } else if category == "tables"@ {
        "DuckDB Table"@
    } else if category == "views"@ {
        "DuckDB View"@
    } else if category == "sources"@ {
        "Data Source"@
    } else {
        "Concept"@
    }
}

/// The document a block write starts from when the file does not exist.
pub open spec fn stub_document(doc_type: Seq<char>, name: Seq<char>) -> Seq<char> {
    "---\ntype: "@ + doc_type + "\ntitle: "@ + name + "\ndescription: 自动初始化的 OKF 文档\n---\n"@
}

/// The lines after writing block `c` under heading `h`: the block replaced
/// where a heading matches, else a blank line, a new heading of `level` and
/// `c` appended.
pub open spec fn block_written_lines(content: Seq<char>, h: Seq<char>, c: Seq<char>, level: nat) -> Seq<Seq<char>> {
    let st = upsert_scan(lines(content), h, c);
    if st.written {
        st.out
    } else {
        st.out.push(Seq::empty()).push(level_prefix(level) + h).push(c)
    }
}

/// The file content after a block write: the existing content (or the stub
/// of a new file) with the block written (second-level headings for
/// concepts, first-level otherwise), repeated heading blocks removed.
pub open spec fn block_written(category: Seq<char>, name: Seq<char>, heading: Seq<char>, content: Seq<char>, existing: Option<Seq<char>>) -> Seq<char> {
    let base = match existing {
        Some(x) => x,
        None => stub_document(block_doc_type(category), name),
    };
    let level: nat = if category == "concepts"@ {
        2
    } else {
        1
    };
    deduplicated(join(block_written_lines(base, heading, content, level), seq!['\n']))
}

/// The OKF directory a block write of `category` goes to: the global one
/// (from the application directory lookup, whose error is passed on) for
/// concepts and users, the workspace's otherwise.
pub fn block_dir(ws_path: &str, app_dir: Result<String, String>, category: &str) -> (r: Result<String, String>)
    ensures
        category_is_global(category@) ==> match app_dir {
            Ok(d) => r matches Ok(p) && p@ == path_joined(d@, "okf"@),
            Err(e) => r == Err::<String, String>(e),
        },
        !category_is_global(category@) ==> (r matches Ok(p) && p@ == path_joined(ws_path@, "okf"@)),
{
    let cv = chars_of(category);
    let users = chars_of("users");
    let global = crate::text::str_eq(category, "concepts") || has_prefix_at(&cv, 0, cv.len(), users.as_slice());
    proof {
        assert(cv@.subrange(0, cv@.len() as int) =~= cv@);
    }
    if global {
        get_global_okf_dir(app_dir)
    } else {
        Ok(get_okf_dir(ws_path))
    }
}

/// The file of a block write: `<okf dir>/<category>/<name>.md`.
pub fn block_file(okf_dir: &str, category: &str, name: &str) -> (r: String)
    ensures
        r@ == path_joined(path_joined(okf_dir@, category@), name@ + ".md"@),
{
    let d = path_join(okf_dir, category);
    let mut f: Vec<char> = Vec::new();
    push_str(&mut f, name);
    push_str(&mut f, ".md");
    let fname = string_from(f.as_slice());
    path_join(d.as_str(), fname.as_str())
}

fn doc_type_of(category: &str) -> (r: &'static str)
    ensures
        r@ == block_doc_type(category@),
{
    let cv = chars_of(category);
    let users = chars_of("users");
    proof {
        assert(cv@.subrange(0, cv@.len() as int) =~= cv@);
    }
    if crate::text::str_eq(category, "concepts") {
        "Business Concept"
    } else if has_prefix_at(&cv, 0, cv.len(), users.as_slice()) {
        "User Profile"
    } else if crate::text::str_eq(category, "tables") {
        "DuckDB Table"
    } else if crate::text::str_eq(category, "views") {
        "DuckDB View"
    } else if crate::text::str_eq(category, "sources") {
        "Data Source"
    } else {
        "Concept"
    }
}

/// Writes `new_content` under `heading` into a file's content (`None`: the
/// file does not exist yet); see [`block_written`].
pub fn write_okf_block(category: &str, name: &str, heading: &str, new_content: &str, existing: Option<&str>) -> (r: String)
    ensures
        r@ == block_written(category@, name@, heading@, new_content@, match existing {
            Some(x) => Some(x@),
            None => None,
        }),
{
    let base: Vec<char> = match existing {
        Some(x) => chars_of(x),
        None => {
            let mut b: Vec<char> = Vec::new();
            push_str(&mut b, "---\ntype: ");
            push_str(&mut b, doc_type_of(category));
            push_str(&mut b, "\ntitle: ");
            push_str(&mut b, name);
            push_str(&mut b, "\ndescription: 自动初始化的 OKF 文档\n---\n");
            proof {
                assert(b@ =~= stub_document(block_doc_type(category@), name@));
            }
            b
        },
    };
    let h = chars_of(heading);
    let c = chars_of(new_content);
    let nl = ['\n'];
    proof {
        assert(nl@ =~= seq!['\n']);
    }
    let (mut buf, count, _last_empty, written) = scan_upsert(&base, h.as_slice(), c.as_slice());
    let ghost mut outl: Seq<Seq<char>> = upsert_scan(lines(base@), heading@, new_content@).out;
    if !written {
        let level: usize = if crate::text::str_eq(category, "concepts") { 2 } else { 1 };
        let empty: Vec<char> = Vec::new();
        push_joined(&mut buf, count, empty.as_slice(), &nl, Ghost(outl));
        proof { outl = outl.push(Seq::empty()); }
        let mut head = prefix_of_level(level);
        push_slice(&mut head, h.as_slice());
        push_joined(&mut buf, true, head.as_slice(), &nl, Ghost(outl));
        proof { outl = outl.push(level_prefix(level as nat) + h@); }
        push_joined(&mut buf, true, c.as_slice(), &nl, Ghost(outl));
        proof { outl = outl.push(c@); }
    }
    deduplicate_chars(&buf)
}

// ---------------------------------------------------------------------------
// block reads
// ---------------------------------------------------------------------------

/// Where a block read looks.
#[derive(Debug, Clone, PartialEq, Eq)]
pub enum BlockSource {
    /// The whole `index.md` of a scope (`工作区` or `全局`), heading ignored.
    Index { path: String, scope: String },
    /// The first of these files that exists; the first one is the file asked
    /// for, the rest are fallbacks.
    Files { candidates: Vec<String> },
}

/// The fallbacks of a category: the global file for concepts and users; the
/// workspace's tables, views and sources files for those three.
pub open spec fn read_candidates(okf: Seq<char>, global: Option<Seq<char>>, category: Seq<char>, name: Seq<char>) -> Seq<Seq<char>> {
    let f = name + ".md"@;
    let requested = seq![path_joined(path_joined(okf, category), f)];
    let g: Seq<Seq<char>> = if category_is_global(category) {
        match global {
            Some(gd) => seq![path_joined(path_joined(gd, category), f)],
            None => Seq::empty(),
        }
    } else {
        Seq::empty()
    };
    let w: Seq<Seq<char>> = if category == "tables"@ || category == "views"@ || category == "sources"@ {
        seq![
            path_joined(path_joined(okf, "tables"@), f),
            path_joined(path_joined(okf, "views"@), f),
            path_joined(path_joined(okf, "sources"@), f),
        ]
    } else {
        Seq::empty()
    };
    requested + g + w
}

/// Where a block read of `category`/`name` looks, given the workspace and the
/// application directory lookup: the index of a scope for `workspace` or
/// `global` with `name` `index`; an error for the retired empty category
/// with `index`; otherwise the file asked for and its fallbacks.
pub fn read_okf_block(ws_path: &str, app_dir: Result<String, String>, category: &str, name: &str) -> (r: Result<BlockSource, String>)
    ensures
        name@ == "index"@ && category@ == "workspace"@ ==> (r matches Ok(BlockSource::Index { path, scope })
            && path@ == path_joined(path_joined(ws_path@, "okf"@), "index.md"@) && scope@ == "工作区"@),
        name@ == "index"@ && category@ == "global"@ ==> match app_dir {
            Ok(d) => r matches Ok(BlockSource::Index { path, scope })
                && path@ == path_joined(path_joined(d@, "okf"@), "index.md"@) && scope@ == "全局"@,
            Err(e) => r matches Err(x) && x@ == "全局 OKF 目录不可用: "@ + e@,
        },
        name@ == "index"@ && category@.len() == 0 ==> (r matches Err(x)
            && x@ == "读取索引需显式指定 category=\"workspace\" 或 \"global\"（空字符串已废弃）。"@),
        !(name@ == "index"@ && (category@ == "workspace"@ || category@ == "global"@ || category@.len() == 0)) ==>
            (r matches Ok(BlockSource::Files { candidates }) && crate::okf::store::string_views(candidates@) == read_candidates(
                path_joined(ws_path@, "okf"@),
                match app_dir {
                    Ok(d) => Some(path_joined(d@, "okf"@)),
                    Err(_) => None,
                },
                category@,
                name@,
            )),
{
    proof {
        reveal_strlit("workspace");
        reveal_strlit("global");
    }
    let is_index = crate::text::str_eq(name, "index");
    if is_index && crate::text::str_eq(category, "workspace") {
        let okf = get_okf_dir(ws_path);
        return Ok(BlockSource::Index { path: path_join(okf.as_str(), "index.md"), scope: "工作区".to_owned() });
    }
    if is_index && crate::text::str_eq(category, "global") {
        return match get_global_okf_dir(app_dir) {
            Ok(g) => Ok(BlockSource::Index { path: path_join(g.as_str(), "index.md"), scope: "全局".to_owned() }),
            Err(e) => {
                let mut m: Vec<char> = Vec::new();
                push_str(&mut m, "全局 OKF 目录不可用: ");
                push_str(&mut m, e.as_str());
                Err(string_from(m.as_slice()))
            },
        };
    }
    if is_index && category.is_empty() {
        return Err("读取索引需显式指定 category=\"workspace\" 或 \"global\"（空字符串已废弃）。".to_owned());
    }
    let okf = get_okf_dir(ws_path);
    let global = match get_global_okf_dir(app_dir) {
        Ok(g) => Some(g),
        Err(_) => None,
    };
    let mut f: Vec<char> = Vec::new();
    push_str(&mut f, name);
    push_str(&mut f, ".md");
    let fname = string_from(f.as_slice());
    let mut out: Vec<String> = Vec::new();
    out.push(path_join(path_join(okf.as_str(), category).as_str(), fname.as_str()));
    let ghost mut acc: Seq<Seq<char>> = seq![path_joined(path_joined(okf@, category@), fname@)];
    proof {
        assert(crate::okf::store::string_views(out@) =~= acc);
    }
    let cv = chars_of(category);
    let users = chars_of("users");
    proof {
        assert(cv@.subrange(0, cv@.len() as int) =~= cv@);
    }
    if crate::text::str_eq(category, "concepts") || has_prefix_at(&cv, 0, cv.len(), users.as_slice()) {
        match &global {
            Some(g) => {
                out.push(path_join(path_join(g.as_str(), category).as_str(), fname.as_str()));
                proof {
                    acc = acc.push(path_joined(path_joined(g@, category@), fname@));
                    assert(crate::okf::store::string_views(out@) =~= acc);
                }
            },
            None => {},
        }
    }
    if crate::text::str_eq(category, "tables") || crate::text::str_eq(category, "views") || crate::text::str_eq(category, "sources") {
        out.push(path_join(path_join(okf.as_str(), "tables").as_str(), fname.as_str()));
        out.push(path_join(path_join(okf.as_str(), "views").as_str(), fname.as_str()));
        out.push(path_join(path_join(okf.as_str(), "sources").as_str(), fname.as_str()));
        proof {
            acc = acc.push(path_joined(path_joined(okf@, "tables"@), fname@));
            acc = acc.push(path_joined(path_joined(okf@, "views"@), fname@));
            acc = acc.push(path_joined(path_joined(okf@, "sources"@), fname@));
            assert(crate::okf::store::string_views(out@) =~= acc);
        }
    }
    proof {
        assert(fname@ =~= name@ + ".md"@);
        let gopt: Option<Seq<char>> = match global { Some(g) => Some(g@), None => None };
        assert(acc =~= read_candidates(okf@, gopt, category@, name@));
    }
    Ok(BlockSource::Files { candidates: out })
}

/// The result of a block read from the content of the file found (`None`:
/// none of the candidates exists, the first being `requested`).
pub fn read_block_content(content: Option<&str>, requested: &str, heading: &str) -> (r: Result<String, String>)
    ensures
        match content {
            None => r matches Err(x) && x@ == "文件不存在: \""@ + requested@ + "\""@,
            Some(c) => match block_of(c@, heading@) {
                Some(b) => r matches Ok(x) && x@ == b,
                None => r matches Err(x) && x@ == "未找到标题为 '"@ + heading@ + "' 的板块"@,
            },
        },
{
    match content {
        None => {
            let mut m: Vec<char> = Vec::new();
            push_str(&mut m, "文件不存在: \"");
            push_str(&mut m, requested);
            push_str(&mut m, "\"");
            Err(string_from(m.as_slice()))
        },
        Some(c) => match parse_okf_block_from_content(c, heading) {
            Some(b) => Ok(b),
            None => {
                let mut m: Vec<char> = Vec::new();
                push_str(&mut m, "未找到标题为 '");
                push_str(&mut m, heading);
                push_str(&mut m, "' 的板块");
                Err(string_from(m.as_slice()))
            },
        },
    }
}

// ---------------------------------------------------------------------------
// table and view documents
// ---------------------------------------------------------------------------

/// The column semantics of a table document: the frontmatter `title` (see
/// [`parse_yaml_field`]), the column comments and the relations (see
/// [`crate::okf::store::sem_scan`]).
pub fn parse_column_semantics(content: &str) -> (r: ColumnSemantics)
    ensures
        match yaml_field_scan(lines(content@), "title"@, false) {
            Some(v) => r.0 matches Some(x) && x@ == v,
            None => r.0 is None,
        },
        r.1@ == sem_scan(lines(content@)).cols,
        string_views(r.2@) == sem_scan(lines(content@)).rels,
{
    let title = parse_yaml_field(content, "title");
    let (cols, rels) = scan_semantics(content);
    (title, cols, rels)
}

/// A table's document as first written: a frontmatter with type, title and
/// timestamp, then the skeleton body.
pub open spec fn table_doc(table: Seq<char>, columns: Seq<ColumnInfo>, row_count: Option<i64>, ts: Seq<char>) -> Seq<char> {
    "---\ntype: DuckDB Table\ntitle: "@ + table + " 物理数据表\ntimestamp: "@ + ts + "\n---\n\n"@ + table_body(columns, row_count)
}

/// The document of a newly explored table (see [`table_doc`]).
pub fn write_table_okf(table_name: &str, columns: &[ColumnInfo], row_count: Option<i64>, ts: &str) -> (r: String)
    ensures
        r@ == table_doc(table_name@, columns@, row_count, ts@),
{
    let mut out: Vec<char> = Vec::new();
    push_str(&mut out, "---\ntype: DuckDB Table\ntitle: ");
    push_str(&mut out, table_name);
    push_str(&mut out, " 物理数据表\ntimestamp: ");
    push_str(&mut out, ts);
    push_str(&mut out, "\n---\n\n");
    let body = table_body_text(columns, row_count);
    push_str(&mut out, body.as_str());
    proof {
        assert(out@ =~= table_doc(table_name@, columns@, row_count, ts@));
    }
    string_from(out.as_slice())
}

/// A view's document as first written: type, title and timestamp, then its
/// SQL.
pub open spec fn view_doc(view: Seq<char>, sql: Seq<char>, ts: Seq<char>) -> Seq<char> {
    "---\ntype: DuckDB View\ntitle: "@ + view + " 逻辑视图\ntimestamp: "@ + ts + "\n---\n\n# 视图 SQL 定义\n```sql\n"@ + sql
        + "\n```\n"@
}

/// The document of a newly registered view (see [`view_doc`]).
pub fn write_view_okf(view_name: &str, select_sql: &str, ts: &str) -> (r: String)
    ensures
        r@ == view_doc(view_name@, select_sql@, ts@),
{
    let mut out: Vec<char> = Vec::new();
    push_str(&mut out, "---\ntype: DuckDB View\ntitle: ");
    push_str(&mut out, view_name);
    push_str(&mut out, " 逻辑视图\ntimestamp: ");
    push_str(&mut out, ts);
    push_str(&mut out, "\n---\n\n# 视图 SQL 定义\n```sql\n");
    push_str(&mut out, select_sql);
    push_str(&mut out, "\n```\n");
    proof {
        assert(out@ =~= view_doc(view_name@, select_sql@, ts@));
    }
    string_from(out.as_slice())
}

// ---------------------------------------------------------------------------
// table status
// ---------------------------------------------------------------------------

/// The three status fields, in the order they are written.
pub open spec fn status_fields(status: Seq<char>, reason: Seq<char>, ts: Seq<char>) -> Seq<Seq<char>> {
    seq!["status: "@ + status, "unavailable_reason: "@ + reason, "last_explored: "@ + ts]
}

/// A (lower-cased) frontmatter line that sets one of the status fields.
pub open spec fn is_status_line(low: Seq<char>) -> bool {
    starts_with(low, "status:"@) || starts_with(low, "unavailable_reason:"@) || starts_with(low, "last_explored:"@)
}

/// Scan state of a status update.
pub struct StatusScan {
    pub out: Seq<Seq<char>>,
    pub in_yaml: bool,
    pub yaml_end: bool,
}

/// One line of a status update: inside the first frontmatter the old status
/// fields are dropped, and the new ones go just before its closing fence.
pub open spec fn status_step(st: StatusScan, line: Seq<char>, fields: Seq<Seq<char>>) -> StatusScan {
    let t = trim(line);
    if t == fence() {
        if !st.yaml_end && st.in_yaml {
            StatusScan { out: st.out + fields + seq![line], in_yaml: false, yaml_end: true }
        } else if !st.yaml_end {
            StatusScan { out: st.out.push(line), in_yaml: true, yaml_end: false }
        } else {
            StatusScan { out: st.out.push(line), ..st }
        }
    } else if st.in_yaml && is_status_line(unicode_lower(t)) {
        st
    } else {
        StatusScan { out: st.out.push(line), ..st }
    }
}

pub open spec fn status_scan(ls: Seq<Seq<char>>, fields: Seq<Seq<char>>) -> StatusScan
    decreases ls.len(),
{
    if ls.len() == 0 {
        StatusScan { out: Seq::empty(), in_yaml: false, yaml_end: false }
    } else {
        status_step(status_scan(ls.drop_last(), fields), ls.last(), fields)
    }
}

/// A table's document after a status update: a new document with the status
/// fields when there is none, else the existing one with its status fields
/// replaced (see [`status_step`]).
pub open spec fn status_updated(existing: Option<Seq<char>>, table: Seq<char>, status: Seq<char>, reason: Seq<char>, ts: Seq<char>) -> Seq<char> {
    match existing {
        None => "---\ntype: DuckDB Table\ntitle: "@ + table + "\nstatus: "@ + status + "\nunavailable_reason: "@ + reason
            + "\nlast_explored: "@ + ts + "\n---\n\n# 字段 Schema\n（待探索）\n"@,
        Some(c) => join(status_scan(lines(c), status_fields(status, reason, ts)).out, seq!['\n']),
    }
}

/// The document of a table after recording its exploration status (`reason`
/// is empty when absent; `ts` is the time of the update).
#[verifier::rlimit(40)]
pub fn update_table_status(existing: Option<&str>, table_name: &str, status: &str, reason: Option<&str>, ts: &str) -> (r: String)
    ensures
        r@ == status_updated(
            match existing { Some(x) => Some(x@), None => None },
            table_name@,
            status@,
            match reason { Some(x) => x@, None => Seq::empty() },
            ts@,
        ),
{
    let reason_text: &str = match reason {
        Some(x) => x,
        None => "",
    };
    proof {
        reveal_strlit("");
    }
    let content = match existing {
        None => {
            let mut out: Vec<char> = Vec::new();
            push_str(&mut out, "---\ntype: DuckDB Table\ntitle: ");
            push_str(&mut out, table_name);
            push_str(&mut out, "\nstatus: ");
            push_str(&mut out, status);
            push_str(&mut out, "\nunavailable_reason: ");
            push_str(&mut out, reason_text);
            push_str(&mut out, "\nlast_explored: ");
            push_str(&mut out, ts);
            push_str(&mut out, "\n---\n\n# 字段 Schema\n（待探索）\n");
            proof {
                assert(out@ =~= status_updated(None, table_name@, status@, reason_text@, ts@));
            }
            return string_from(out.as_slice());
        },
        Some(c) => c,
    };
    let mut f0: Vec<char> = Vec::new();
    push_str(&mut f0, "status: ");
    push_str(&mut f0, status);
    let mut f1: Vec<char> = Vec::new();
    push_str(&mut f1, "unavailable_reason: ");
    push_str(&mut f1, reason_text);
    let mut f2: Vec<char> = Vec::new();
    push_str(&mut f2, "last_explored: ");
    push_str(&mut f2, ts);
    let ghost fields = status_fields(status@, reason_text@, ts@);
    proof {
        assert(fields[0] == f0@ && fields[1] == f1@ && fields[2] == f2@);
    }
    let s = chars_of(content);
    let rs = line_ranges(&s);
    let ghost ls = range_texts(s@, rs@);
    let nl = ['\n'];
    let p_status = chars_of("status:");
    let p_reason = chars_of("unavailable_reason:");
    let p_last = chars_of("last_explored:");
    proof {
        assert(nl@ =~= seq!['\n']);
    }
    let mut buf: Vec<char> = Vec::new();
    let mut count = false;
    let mut in_yaml = false;
    let mut yaml_end = false;
    let ghost mut outl: Seq<Seq<char>> = Seq::empty();
    let mut k: usize = 0;
    while k < rs.len()
        invariant
            k <= rs.len(),
            ranges_in(s@, rs@),
            ls == range_texts(s@, rs@),
            nl@ == seq!['\n'],
            p_status@ == "status:"@,
            p_reason@ == "unavailable_reason:"@,
            p_last@ == "last_explored:"@,
            fields == status_fields(status@, reason_text@, ts@),
            fields[0] == f0@ && fields[1] == f1@ && fields[2] == f2@,
            fields.len() == 3,
            status_scan(ls.take(k as int), fields) == (StatusScan { out: outl, in_yaml, yaml_end }),
            buf@ == join(outl, seq!['\n']),
            count == (outl.len() > 0),
        decreases rs.len() - k,
    {
        let (lo, hi) = rs[k];
        proof {
            assert(rs@[k as int].0 <= rs@[k as int].1 <= s@.len());
            assert(ls.take(k + 1).drop_last() =~= ls.take(k as int));
            assert(ls.take(k + 1).last() == s@.subrange(lo as int, hi as int));
        }
        let ghost line = s@.subrange(lo as int, hi as int);
        let mut lv: Vec<char> = Vec::new();
        crate::text::push_range(&mut lv, &s, lo, hi);
        assert(lv@ =~= line);
        let (a, b) = trim_bounds(&s, lo, hi);
        if fence_at(&s, lo, hi) {
            if !yaml_end && in_yaml {
                let ghost o0 = outl;
                push_joined(&mut buf, count, f0.as_slice(), &nl, Ghost(outl));
                proof { outl = outl.push(f0@); }
                push_joined(&mut buf, true, f1.as_slice(), &nl, Ghost(outl));
                proof { outl = outl.push(f1@); }
                push_joined(&mut buf, true, f2.as_slice(), &nl, Ghost(outl));
                proof { outl = outl.push(f2@); }
                push_joined(&mut buf, true, lv.as_slice(), &nl, Ghost(outl));
                proof {
                    outl = outl.push(line);
                    assert(fields =~= seq![f0@, f1@, f2@]);
                    assert(outl =~= o0 + fields + seq![line]);
                }
                in_yaml = false;
                yaml_end = true;
            } else {
                push_joined(&mut buf, count, lv.as_slice(), &nl, Ghost(outl));
                proof { outl = outl.push(line); }
                if !yaml_end {
                    in_yaml = true;
                }
            }
            count = true;
        } else {
            let mut skip = false;
            if in_yaml {
                let mut tv: Vec<char> = Vec::new();
                crate::text::push_range(&mut tv, &s, a, b);
                let low = lowercase_chars(tv.as_slice());
                proof {
                    assert(tv@ =~= trim(line));
                    assert(low@.subrange(0, low@.len() as int) =~= low@);
                }
                skip = has_prefix_at(&low, 0, low.len(), p_status.as_slice())
                    || has_prefix_at(&low, 0, low.len(), p_reason.as_slice())
                    || has_prefix_at(&low, 0, low.len(), p_last.as_slice());
            }
            if !skip {
                push_joined(&mut buf, count, lv.as_slice(), &nl, Ghost(outl));
                proof { outl = outl.push(line); }
                count = true;
            }
        }
        k = k + 1;
    }
    proof {
        assert(ls.take(rs@.len() as int) =~= ls);
        assert(ls == lines(content@));
    }
    string_from(buf.as_slice())
}

// ---------------------------------------------------------------------------
// workspace memory
// ---------------------------------------------------------------------------

/// `` `name`: comment`` for each commented column.
pub open spec fn comment_parts(cols: Entries) -> Seq<Seq<char>> {
    Seq::new(cols.len(), |i: int| "`"@ + cols[i].0 + "`: "@ + cols[i].1)
}

/// `- r` for each relation.
pub open spec fn relation_parts(rels: Seq<Seq<char>>) -> Seq<Seq<char>> {
    Seq::new(rels.len(), |i: int| "- "@ + rels[i])
}

/// A table's block in the workspace memory: status icon, local name and
/// connection, the pushdown mark, the reason when unavailable, then its
/// column comments and relations on lines of their own.
pub open spec fn memory_block(e: TableRegistryEntry, cols: Entries, rels: Seq<Seq<char>>) -> Seq<char> {
    memory_head(e) + (if cols.len() > 0 {
        "\n  字段释义: "@ + join(comment_parts(cols), "; "@)
    } else {
        Seq::empty()
    }) + (if rels.len() > 0 {
        "\n  关联: "@ + join(relation_parts(rels), " "@)
    } else {
        Seq::empty()
    })
}

pub open spec fn memory_blocks(tables: Seq<(TableRegistryEntry, ColumnSemantics)>) -> Seq<Seq<char>> {
    Seq::new(tables.len(), |i: int| memory_block(tables[i].0, tables[i].1.1@, string_views(tables[i].1.2@)))
}

pub open spec fn recipe_lines(names: Seq<Seq<char>>) -> Seq<char>
    decreases names.len(),
{
    if names.len() == 0 {
        Seq::empty()
    } else {
        recipe_lines(names.drop_last()) + "- "@ + names.last() + "\n"@
    }
}

/// The workspace memory injected into the preamble: the registered tables
/// with their semantics, then the recipe names, trimmed.
pub open spec fn memory_text(tables: Seq<(TableRegistryEntry, ColumnSemantics)>, recipes: Seq<Seq<char>>) -> Seq<char> {
    let t = if tables.len() > 0 {
        "# 工作区数据记忆\n以下是你之前探索过的表和知识，直接继承使用，无需重复探索：\n\n"@ + join(memory_blocks(tables), seq!['\n'])
            + "\n\n"@
    } else {
        Seq::empty()
    };
    let p = if recipes.len() > 0 {
        "# 排障记录\n"@ + recipe_lines(recipes) + "\n"@
    } else {
        Seq::empty()
    };
    trim(t + p)
}

/// The head of a memory block: icon, names, mark and reason.
pub open spec fn memory_head(e: TableRegistryEntry) -> Seq<char> {
    let icon = status_icon(status_named(e.status@));
    let mode = if e.access_mode@ == "pushdown"@ {
        " [pushdown]"@
    } else {
        Seq::empty()
    };
    let reason = if e.status@ != "available"@ {
        match e.unavailable_reason {
            Some(r) => " — 不可用: "@ + r@,
            None => Seq::empty(),
        }
    } else {
        Seq::empty()
    };
    "- "@ + icon + " `"@ + e.local_name@ + "` ("@ + e.connection_name@ + ")"@ + mode + reason
}

fn push_memory_head(out: &mut Vec<char>, e: &TableRegistryEntry)
    ensures
        final(out)@ == old(out)@ + memory_head(*e),
{
    let icon = TableStatus::from_str(e.status.as_str()).icon();
    push_str(out, "- ");
    push_str(out, icon);
    push_str(out, " `");
    push_str(out, e.local_name.as_str());
    push_str(out, "` (");
    push_str(out, e.connection_name.as_str());
    push_str(out, ")");
    let ghost m0 = out@;
    if crate::text::str_eq(e.access_mode.as_str(), "pushdown") {
        push_str(out, " [pushdown]");
    }
    let ghost m1 = out@;
    if !crate::text::str_eq(e.status.as_str(), "available") {
        match &e.unavailable_reason {
            Some(r) => {
                push_str(out, " — 不可用: ");
                push_str(out, r.as_str());
            },
            None => {},
        }
    }
    proof {
        let mode = if e.access_mode@ == "pushdown"@ { " [pushdown]"@ } else { Seq::<char>::empty() };
        assert(m1 =~= m0 + mode);
        assert(final(out)@ =~= old(out)@ + memory_head(*e));
    }
}

fn push_comments(out: &mut Vec<char>, cols: &ColumnMap)
    ensures
        final(out)@ == old(out)@ + (if cols@.len() > 0 {
            "\n  字段释义: "@ + join(comment_parts(cols@), "; "@)
        } else {
            Seq::empty()
        }),
{
    let es = &cols.entries;
    proof {
        assert(cols@.len() == es@.len());
    }
    if es.len() > 0 {
        push_str(out, "\n  字段释义: ");
        let sep = chars_of("; ");
        let mut j: Vec<char> = Vec::new();
        let ghost parts = comment_parts(cols@);
        let mut k: usize = 0;
        while k < es.len()
            invariant
                k <= es.len(),
                es@ == cols.entries@,
                cols@.len() == es@.len(),
                sep@ == "; "@,
                parts == comment_parts(cols@),
                j@ == join(parts.take(k as int), "; "@),
            decreases es.len() - k,
        {
            let mut x: Vec<char> = Vec::new();
            push_str(&mut x, "`");
            push_str(&mut x, es[k].0.as_str());
            push_str(&mut x, "`: ");
            push_str(&mut x, es[k].1.as_str());
            proof {
                assert(cols@[k as int] == (es@[k as int].0@, es@[k as int].1@));
                assert(x@ =~= parts[k as int]);
            }
            push_joined(&mut j, k > 0, x.as_slice(), sep.as_slice(), Ghost(parts.take(k as int)));
            proof {
                assert(parts.take(k as int).push(x@) =~= parts.take(k + 1));
            }
            k = k + 1;
        }
        proof {
            assert(parts.take(es@.len() as int) =~= parts);
        }
        push_slice(out, j.as_slice());
    } else {
        proof {
            assert(final(out)@ =~= old(out)@);
        }
    }
}

fn push_relations(out: &mut Vec<char>, rels: &Vec<String>)
    ensures
        final(out)@ == old(out)@ + (if rels@.len() > 0 {
            "\n  关联: "@ + join(relation_parts(string_views(rels@)), " "@)
        } else {
            Seq::empty()
        }),
{
    if rels.len() > 0 {
        push_str(out, "\n  关联: ");
        let sep = chars_of(" ");
        let mut j: Vec<char> = Vec::new();
        let ghost parts = relation_parts(string_views(rels@));
        let mut k: usize = 0;
        while k < rels.len()
            invariant
                k <= rels.len(),
                sep@ == " "@,
                parts == relation_parts(string_views(rels@)),
                j@ == join(parts.take(k as int), " "@),
            decreases rels.len() - k,
        {
            let mut x: Vec<char> = Vec::new();
            push_str(&mut x, "- ");
            push_str(&mut x, rels[k].as_str());
            proof {
                assert(x@ =~= parts[k as int]);
            }
            push_joined(&mut j, k > 0, x.as_slice(), sep.as_slice(), Ghost(parts.take(k as int)));
            proof {
                assert(parts.take(k as int).push(x@) =~= parts.take(k + 1));
            }
            k = k + 1;
        }
        proof {
            assert(parts.take(rels@.len() as int) =~= parts);
        }
        push_slice(out, j.as_slice());
    } else {
        proof {
            assert(final(out)@ =~= old(out)@);
        }
    }
}

fn push_memory_block(out: &mut Vec<char>, e: &TableRegistryEntry, sem: &ColumnSemantics)
    ensures
        final(out)@ == old(out)@ + memory_block(*e, sem.1@, string_views(sem.2@)),
{
    push_memory_head(out, e);
    push_comments(out, &sem.1);
    push_relations(out, &sem.2);
    proof {
        assert(final(out)@ =~= old(out)@ + memory_block(*e, sem.1@, string_views(sem.2@)));
    }
}

/// The workspace memory (see [`memory_text`]): `tables` pairs each
/// registered table with its column semantics, in registry order (the
/// comments in their document order); `recipes` names the recipe files.
pub fn get_okf_memory_summary(tables: &[(TableRegistryEntry, ColumnSemantics)], recipes: &[String]) -> (r: String)
    ensures
        r@ == memory_text(tables@, string_views(recipes@)),
{
    let mut out: Vec<char> = Vec::new();
    if tables.len() > 0 {
        push_str(&mut out, "# 工作区数据记忆\n以下是你之前探索过的表和知识，直接继承使用，无需重复探索：\n\n");
        let ghost start = out@;
        let ghost blocks = memory_blocks(tables@);
        let nl = ['\n'];
        proof {
            assert(nl@ =~= seq!['\n']);
        }
        let mut j: Vec<char> = Vec::new();
        let mut k: usize = 0;
        while k < tables.len()
            invariant
                k <= tables.len(),
                nl@ == seq!['\n'],
                blocks == memory_blocks(tables@),
                j@ == join(blocks.take(k as int), seq!['\n']),
            decreases tables.len() - k,
        {
            let mut x: Vec<char> = Vec::new();
            push_memory_block(&mut x, &tables[k].0, &tables[k].1);
            proof {
                assert(x@ =~= blocks[k as int]);
            }
            push_joined(&mut j, k > 0, x.as_slice(), &nl, Ghost(blocks.take(k as int)));
            proof {
                assert(blocks.take(k as int).push(x@) =~= blocks.take(k + 1));
            }
            k = k + 1;
        }
        proof {
            assert(blocks.take(tables@.len() as int) =~= blocks);
        }
        push_slice(&mut out, j.as_slice());
        push_str(&mut out, "\n\n");
    }
    let ghost t = out@;
    if recipes.len() > 0 {
        push_str(&mut out, "# 排障记录\n");
        let ghost start = out@;
        let ghost names = string_views(recipes@);
        let mut k: usize = 0;
        while k < recipes.len()
            invariant
                k <= recipes.len(),
                names == string_views(recipes@),
                out@ == start + recipe_lines(names.take(k as int)),
            decreases recipes.len() - k,
        {
            push_str(&mut out, "- ");
            push_str(&mut out, recipes[k].as_str());
            push_str(&mut out, "\n");
            proof {
                assert(names.take(k + 1).drop_last() =~= names.take(k as int));
                assert(names.take(k + 1).last() == recipes@[k as int]@);
                assert(out@ =~= start + recipe_lines(names.take(k + 1)));
            }
            k = k + 1;
        }
        proof {
            assert(names.take(recipes@.len() as int) =~= names);
        }
        push_str(&mut out, "\n");
    }
    proof {
        let pp = if recipes@.len() > 0 {
            "# 排障记录\n"@ + recipe_lines(string_views(recipes@)) + "\n"@
        } else {
            Seq::<char>::empty()
        };
        let tt = if tables@.len() > 0 {
            "# 工作区数据记忆\n以下是你之前探索过的表和知识，直接继承使用，无需重复探索：\n\n"@ + join(memory_blocks(tables@), seq!['\n'])
                + "\n\n"@
        } else {
            Seq::<char>::empty()
        };
        assert(t =~= tt);
        assert(out@ =~= tt + pp);
    }
    let (a, b) = trim_bounds(&out, 0, out.len());
    proof {
        assert(out@.subrange(0, out@.len() as int) =~= out@);
    }
    string_of_range(&out, a, b)
}

} // verus!
