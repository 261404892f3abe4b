//! OKF document storage rules: where a document lives, what a write makes of
//! an existing file, the table and view skeletons, and the column semantics
//! read back from a table document. The file system itself is driven by the
//! caller; every function here computes on the texts it is given.

use vstd::prelude::*;

use crate::okf::frontmatter::{join_document, joined, key_index, lemma_key_index, lemma_key_index_absent, lemma_key_index_at, lookup, set_entry, split_document, split_spec, Entries, Frontmatter};
use crate::okf::markdown::{block_of, deduplicate, extract_block, deduplicated, upsert_block, upserted_lines};
use crate::okf::model::{category_dir as category_subdir, category_doc_type, category_scope, Category, ColumnInfo, OkfReadOutcome, OkfWriteOutcome, Scope};
use crate::okf::paths::{dir_under, path_join, path_joined, OkfPaths};
use crate::okf::markdown::{level_prefix, heading_matches};

use crate::text::{is_plain_line, is_ws};
use crate::text::{chars_of, contains, contains_in, line_ranges, range_is, range_texts, ranges_in, split_on, split_ranges, strip_both, strip_bounds, string_of_range, trim, trim_bounds, lines, strip_leading, eq_ignore_ascii_case, join, push_str, push_i64, decimal, string_from};

verus! {

// ---------------------------------------------------------------------------
// column map
// ---------------------------------------------------------------------------

/// Column name → business meaning, in first-insertion order; inserting an
/// existing column replaces its meaning.
#[derive(Debug, Clone, PartialEq, Eq)]
pub struct ColumnMap {
    pub entries: Vec<(String, String)>,
}

impl View for ColumnMap {
    type V = Entries;

    open spec fn view(&self) -> Entries {
        Seq::new(self.entries@.len(), |i: int| (self.entries@[i].0@, self.entries@[i].1@))
    }
}

impl ColumnMap {
    /// An empty map.
    pub fn new() -> (r: Self)
        ensures
            r@ == Seq::<(Seq<char>, Seq<char>)>::empty(),
    {
        let r = ColumnMap { entries: Vec::new() };
        assert(r@ =~= Seq::<(Seq<char>, Seq<char>)>::empty());
        r
    }

    /// Number of columns.
    pub fn len(&self) -> (n: usize)
        ensures
            n == self@.len(),
    {
        self.entries.len()
    }

    fn position(&self, key: &str) -> (r: Option<usize>)
        ensures
            match r {
                Some(i) => key_index(self@, key@) == i as int,
                None => key_index(self@, key@) == -1,
            },
    {
        let k = key.to_owned();
        let mut i: usize = 0;
        while i < self.entries.len()
            invariant
                i <= self.entries.len(),
                k@ == key@,
                forall|j: int| 0 <= j < i ==> self@[j].0 != key@,
            decreases self.entries.len() - i,
        {
            if self.entries[i].0 == k {
                proof {
                    lemma_key_index_at(self@, key@, i as int);
                }
                return Some(i);
            }
            i = i + 1;
        }
        proof {
            lemma_key_index_absent(self@, key@);
        }
        None
    }

    /// The meaning recorded for a column.
    pub fn get(&self, key: &str) -> (r: Option<&String>)
        ensures
            match r {
                Some(v) => lookup(self@, key@) == Some(v@),
                None => lookup(self@, key@).is_none(),
            },
    {
        proof {
            lemma_key_index(self@, key@);
        }
        match self.position(key) {
            Some(i) => Some(&self.entries[i].1),
            None => None,
        }
    }

    /// Records `val` for `key`, replacing an earlier meaning.
    pub fn insert(&mut self, key: String, val: String)
        ensures
            final(self)@ == set_entry(old(self)@, key@, val@),
    {
        proof {
            lemma_key_index(self@, key@);
        }
        match self.position(key.as_str()) {
            Some(i) => {
                let ghost before = self@;
                let k = self.entries[i].0.clone();
                self.entries.set(i, (k, val));
                proof {
                    assert(self@ =~= before.update(i as int, (key@, val@)));
                }
            },
            None => {
                let ghost before = self@;
                self.entries.push((key, val));
                proof {
                    assert(self@ =~= before.push((key@, val@)));
                }
            },
        }
    }
}

/// What a table document says of itself: its title, its column meanings,
/// and its relationship lines.
pub type ColumnSemantics = (Option<String>, ColumnMap, Vec<String>);

// ---------------------------------------------------------------------------
// semantics of a table document
// ---------------------------------------------------------------------------

/// State of the scan over a document's lines.
pub struct SemScan {
    pub heading: Seq<char>,
    pub cols: Entries,
    pub rels: Seq<Seq<char>>,
}

/// A heading line (after trimming): starts with `#`.
pub open spec fn is_heading_line(t: Seq<char>) -> bool {
    t.len() > 0 && t[0] == '#'
}

/// Headings under which the column table stands.
pub open spec fn is_schema_heading(h: Seq<char>) -> bool {
    h == "字段 Schema"@ || h == "Column Schema"@
}

/// Headings under which the relationship list stands.
pub open spec fn is_relation_heading(h: Seq<char>) -> bool {
    h == "关联关系"@ || h == "Relationships"@
}

/// A data row of the column table: a `|` line that is neither the rule line
/// nor the header line.
pub open spec fn is_schema_row(t: Seq<char>) -> bool {
    &&& t.len() > 0
    &&& t[0] == '|'
    &&& !contains(t, "---|---"@)
    &&& !contains(t, "字段名"@)
    &&& !contains(t, "Column"@)
}

/// `(column, meaning)` of a column-table row: the second and fourth cells,
/// trimmed, the column without its backticks; both must be non-empty.
pub open spec fn row_entry(t: Seq<char>) -> Option<(Seq<char>, Seq<char>)> {
    let parts = split_on(t, '|');
    if is_schema_row(t) && parts.len() >= 4 {
        let name = trim(strip_both(trim(parts[1]), '`'));
        let meaning = trim(parts[3]);
        if name.len() > 0 && meaning.len() > 0 {
            Some((name, meaning))
        } else {
            None
        }
    } else {
        None
    }
}

/// Leading `-`, `*` and spaces removed.
pub open spec fn strip_bullets(s: Seq<char>) -> Seq<char>
    decreases s.len(),
{
    if s.len() > 0 && (s[0] == '-' || s[0] == '*' || s[0] == ' ') {
        strip_bullets(s.drop_first())
    } else {
        s
    }
}

/// The relationship a list line states, without its bullet.
pub open spec fn relation_entry(t: Seq<char>) -> Option<Seq<char>> {
    if t.len() > 0 && (t[0] == '-' || t[0] == '*') && strip_bullets(t).len() > 0 {
        Some(strip_bullets(t))
    } else {
        None
    }
}

/// One line of the scan.
pub open spec fn sem_step(st: SemScan, line: Seq<char>) -> SemScan {
    let t = trim(line);
    if is_heading_line(t) {
        SemScan { heading: trim(strip_leading(t, '#')), cols: st.cols, rels: st.rels }
    } else if is_schema_heading(st.heading) {
        match row_entry(t) {
            Some(e) => SemScan {
                heading: st.heading,
                cols: set_entry(st.cols, e.0, e.1),
                rels: st.rels,
            },
            None => st,
        }
    } else if is_relation_heading(st.heading) {
        match relation_entry(t) {
            Some(r) => SemScan { heading: st.heading, cols: st.cols, rels: st.rels.push(r) },
            None => st,
        }
    } else {
        st
    }
}

pub open spec fn sem_scan(ls: Seq<Seq<char>>) -> SemScan
    decreases ls.len(),
{
    if ls.len() == 0 {
        SemScan { heading: Seq::empty(), cols: Seq::empty(), rels: Seq::empty() }
    } else {
        sem_step(sem_scan(ls.drop_last()), ls.last())
    }
}

/// The title in a document's frontmatter.
pub open spec fn title_of(content: Seq<char>) -> Option<Seq<char>> {
    match split_spec(content).0 {
        Some(e) => lookup(e, "title"@),
        None => None,
    }
}

pub open spec fn string_views(v: Seq<String>) -> Seq<Seq<char>> {
    Seq::new(v.len(), |i: int| v[i]@)
}

/// Bounds of `strip_bullets(s[lo..hi])`.
fn bullet_bounds(s: &Vec<char>, lo: usize, hi: usize) -> (a: usize)
    requires
        lo <= hi <= s.len(),
    ensures
        lo <= a <= hi,
        s@.subrange(a as int, hi as int) == strip_bullets(s@.subrange(lo as int, hi as int)),
{
    let mut a = lo;
    while a < hi && (s[a] == '-' || s[a] == '*' || s[a] == ' ')
        invariant
            lo <= a <= hi <= s.len(),
            strip_bullets(s@.subrange(lo as int, hi as int)) == strip_bullets(
                s@.subrange(a as int, hi as int),
            ),
        decreases hi - a,
    {
        assert(s@.subrange(a as int, hi as int).drop_first() =~= s@.subrange(a + 1, hi as int));
        a = a + 1;
    }
    a
}

/// The column entry of the trimmed line `s[a..b]`.
fn row_entry_at(s: &Vec<char>, a: usize, b: usize) -> (r: Option<(String, String)>)
    requires
        a <= b <= s.len(),
    ensures
        match row_entry(s@.subrange(a as int, b as int)) {
            Some(e) => r matches Some(x) && x.0@ == e.0 && x.1@ == e.1,
            None => r is None,
        },
{
    let ghost t = s@.subrange(a as int, b as int);
    if !(a < b && s[a] == '|') {
        return None;
    }
    let rule = chars_of("---|---");
    let head = chars_of("字段名");
    let col = chars_of("Column");
    if contains_in(s, a, b, rule.as_slice()) || contains_in(s, a, b, head.as_slice())
        || contains_in(s, a, b, col.as_slice()) {
        return None;
    }
    let parts = split_ranges(s, a, b, '|');
    if parts.len() < 4 {
        return None;
    }
    let (p1a, p1b) = parts[1];
    let (p3a, p3b) = parts[3];
    proof {
        assert(parts@[1].0 <= parts@[1].1 <= s@.len());
        assert(parts@[3].0 <= parts@[3].1 <= s@.len());
        assert(range_texts(s@, parts@)[1] == s@.subrange(p1a as int, p1b as int));
        assert(range_texts(s@, parts@)[3] == s@.subrange(p3a as int, p3b as int));
    }
    let (n1, n2) = trim_bounds(s, p1a, p1b);
    let (n3, n4) = strip_bounds(s, n1, n2, '`');
    let (n5, n6) = trim_bounds(s, n3, n4);
    let (m1, m2) = trim_bounds(s, p3a, p3b);
    if n5 == n6 || m1 == m2 {
        return None;
    }
    Some((string_of_range(s, n5, n6), string_of_range(s, m1, m2)))
}

/// The relationship of the trimmed line `s[a..b]`.
fn relation_at(s: &Vec<char>, a: usize, b: usize) -> (r: Option<String>)
    requires
        a <= b <= s.len(),
    ensures
        match relation_entry(s@.subrange(a as int, b as int)) {
            Some(x) => r matches Some(y) && y@ == x,
            None => r is None,
        },
{
    if !(a < b && (s[a] == '-' || s[a] == '*')) {
        return None;
    }
    let c = bullet_bounds(s, a, b);
    if c == b {
        return None;
    }
    Some(string_of_range(s, c, b))
}

/// Title, column meanings and relationships of a table or view document:
/// the frontmatter `title`; the rows of the table under a `字段 Schema` /
/// `Column Schema` heading (a later row for the same column wins); the
/// bullet lines under a `关联关系` / `Relationships` heading.
#[verifier::rlimit(30)]
pub fn parse_semantics_from_content(content: &str) -> (r: ColumnSemantics)
    ensures
        match title_of(content@) {
            Some(t) => r.0 matches Some(x) && x@ == t,
            None => r.0 is None,
        },
        r.1@ == sem_scan(lines(content@)).cols,
        string_views(r.2@) == sem_scan(lines(content@)).rels,
{
    let (fm, _body) = split_document(content);
    let title = match fm {
        Some(f) => match f.get("title") {
            Some(t) => Some(t.to_owned()),
            None => None,
        },
        None => None,
    };
    let (cols, rels) = scan_semantics(content);
    (title, cols, rels)
}

/// The column comments and relations of a table document (see
/// [`sem_scan`]).
pub fn scan_semantics(content: &str) -> (r: (ColumnMap, Vec<String>))
    ensures
        r.0@ == sem_scan(lines(content@)).cols,
        string_views(r.1@) == sem_scan(lines(content@)).rels,
{
    let sv = chars_of(content);
    let s = &sv;
    let r = line_ranges(s);
    let ghost ls = range_texts(s@, r@);
    let mut ha: usize = 0;
    let mut hb: usize = 0;
    let mut cols = ColumnMap::new();
    let mut rels: Vec<String> = Vec::new();
    let mut k: usize = 0;
    proof {
        assert(ls.take(0) =~= Seq::<Seq<char>>::empty());
        assert(string_views(rels@) =~= Seq::<Seq<char>>::empty());
    }
    while k < r.len()
        invariant
            ranges_in(s@, r@),
            ls == range_texts(s@, r@),
            ls == lines(content@),
            s@ == content@,
            k <= r.len(),
            ha <= hb <= s.len(),
            sem_scan(ls.take(k as int)).heading == s@.subrange(ha as int, hb as int),
            sem_scan(ls.take(k as int)).cols == cols@,
            sem_scan(ls.take(k as int)).rels == string_views(rels@),
        decreases r.len() - k,
    {
        let (lo, hi) = r[k];
        proof {
            assert(r@[k as int].0 <= r@[k as int].1 <= s@.len());
            assert(ls.take(k + 1).drop_last() =~= ls.take(k as int));
            assert(ls.take(k + 1).last() == s@.subrange(lo as int, hi as int));
        }
        let (a, b) = trim_bounds(s, lo, hi);
        let ghost t = s@.subrange(a as int, b as int);
        if a < b && s[a] == '#' {
            let mut c = a;
            while c < b && s[c] == '#'
                invariant
                    a <= c <= b <= s.len(),
                    strip_leading(t, '#') == strip_leading(s@.subrange(c as int, b as int), '#'),
                    t == s@.subrange(a as int, b as int),
                decreases b - c,
            {
                assert(s@.subrange(c as int, b as int).drop_first() =~= s@.subrange(
                    c + 1,
                    b as int,
                ));
                c = c + 1;
            }
            proof {
                let u = s@.subrange(c as int, b as int);
                assert(!(u.len() > 0 && u[0] == '#'));
            }
            let (x, y) = trim_bounds(s, c, b);
            ha = x;
            hb = y;
        } else if range_is(s, ha, hb, "字段 Schema") || range_is(s, ha, hb, "Column Schema") {
            match row_entry_at(s, a, b) {
                Some(e) => {
                    cols.insert(e.0, e.1);
                },
                None => {},
            }
        } else if range_is(s, ha, hb, "关联关系") || range_is(s, ha, hb, "Relationships") {
            match relation_at(s, a, b) {
                Some(x) => {
                    let ghost before = rels@;
                    rels.push(x);
                    proof {
                        assert(string_views(rels@) =~= string_views(before).push(x@));
                    }
                },
                None => {},
            }
        }
        k = k + 1;
    }
    proof {
        assert(ls.take(r.len() as int) =~= ls);
    }
    (cols, rels)
}

// ---------------------------------------------------------------------------
// where documents live
// ---------------------------------------------------------------------------

/// Directory of a category (in its own scope).
pub open spec fn category_path(root: Seq<char>, ws: Seq<char>, c: Category) -> Seq<char> {
    path_joined(
        match category_scope(c) {
            Scope::Global => path_joined(root, "okf"@),
            Scope::Workspace => path_joined(dir_under(root, ws), "okf"@),
        },
        category_subdir(c),
    )
}

/// File of a document: `<category dir>/<name>.md`.
pub open spec fn doc_path(root: Seq<char>, ws: Seq<char>, c: Category, name: Seq<char>) -> Seq<char> {
    path_joined(category_path(root, ws, c), name + ".md"@)
}

/// Repository root that versions a scope.
pub open spec fn repo_path(root: Seq<char>, ws: Seq<char>, scope: Scope) -> Seq<char> {
    match scope {
        Scope::Global => path_joined(root, "okf"@),
        Scope::Workspace => path_joined(dir_under(root, ws), "okf"@),
    }
}

/// What deleting a workspace object's knowledge touches: the table, view and
/// source files of that name (each removed if it exists), versioned in the
/// workspace repository with one message.
pub struct DeletePlan {
    pub repo_root: String,
    pub files: Vec<String>,
    pub commit_msg: String,
}

/// The delete of `name`'s table, view and source documents in a workspace
/// (see [`DeletePlan`]).
pub fn delete(paths: &OkfPaths, ws: &str, name: &str) -> (r: DeletePlan)
    ensures
        string_views(r.files@) == seq![
            doc_path(paths.app_root@, ws@, Category::Table, name@),
            doc_path(paths.app_root@, ws@, Category::View, name@),
            doc_path(paths.app_root@, ws@, Category::Source, name@),
        ],
        r.repo_root@ == repo_path(paths.app_root@, ws@, Scope::Workspace),
        r.commit_msg@ == "Delete OKF: "@ + name@,
{
    let mut files: Vec<String> = Vec::new();
    files.push(doc_file(paths, ws, Category::Table, name));
    files.push(doc_file(paths, ws, Category::View, name));
    files.push(doc_file(paths, ws, Category::Source, name));
    let mut m: Vec<char> = Vec::new();
    push_str(&mut m, "Delete OKF: ");
    push_str(&mut m, name);
    let plan = DeletePlan { repo_root: repo_root(paths, ws, Scope::Workspace), files, commit_msg: string_from(m.as_slice()) };
    proof {
        assert(string_views(plan.files@) =~= seq![
            doc_path(paths.app_root@, ws@, Category::Table, name@),
            doc_path(paths.app_root@, ws@, Category::View, name@),
            doc_path(paths.app_root@, ws@, Category::Source, name@),
        ]);
    }
    plan
}

/// Directory of a category (in its own scope).
pub fn category_dir(paths: &OkfPaths, ws: &str, category: Category) -> (r: String)
    ensures
        r@ == category_path(paths.app_root@, ws@, category),
{
    paths.category_dir(category.scope(), ws, category)
}

/// File of a document.
pub fn doc_file(paths: &OkfPaths, ws: &str, category: Category, name: &str) -> (r: String)
    ensures
        r@ == doc_path(paths.app_root@, ws@, category, name@),
{
    let dir = category_dir(paths, ws, category);
    let mut f: Vec<char> = Vec::new();
    push_str(&mut f, name);
    push_str(&mut f, ".md");
    let fname = string_from(f.as_slice());
    path_join(dir.as_str(), fname.as_str())
}

/// Repository root that versions a scope.
pub fn repo_root(paths: &OkfPaths, ws: &str, scope: Scope) -> (r: String)
    ensures
        r@ == repo_path(paths.app_root@, ws@, scope),
{
    match scope {
        Scope::Global => paths.global_okf_dir(),
        Scope::Workspace => paths.workspace_okf_dir(ws),
    }
}

// ---------------------------------------------------------------------------
// read
// ---------------------------------------------------------------------------

/// Whether a read asks for the whole document (`all`, any ASCII case, or a
/// blank heading).
pub open spec fn wants_whole(heading: Seq<char>) -> bool {
    eq_ignore_ascii_case(heading, "all"@) || trim(heading).len() == 0
}

/// What a read of `heading` gives from a document's content.
pub open spec fn read_spec(content: Seq<char>, heading: Seq<char>) -> Result<Seq<char>, Seq<char>> {
    if wants_whole(heading) {
        Ok(content)
    } else {
        match block_of(content, heading) {
            Some(b) => Ok(b),
            None => Err("未找到标题为 '"@ + heading + "' 的板块"@),
        }
    }
}

/// The part of a document a read returns: all of it, or one heading's block.
pub fn read_body(content: &str, heading: &str) -> (r: Result<String, String>)
    ensures
        match read_spec(content@, heading@) {
            Ok(b) => r matches Ok(x) && x@ == b,
            Err(e) => r matches Err(x) && x@ == e,
        },
{
    let h = chars_of(heading);
    let all = chars_of("all");
    let whole = crate::text::eq_ignore_case_at(&h, 0, h.len(), all.as_slice());
    let (a, b) = trim_bounds(&h, 0, h.len());
    proof {
        assert(h@.subrange(0, h@.len() as int) =~= h@);
    }
    if whole || a == b {
        return Ok(content.to_owned());
    }
    match extract_block(content, heading) {
        Some(x) => Ok(x),
        None => {
            let mut e: Vec<char> = Vec::new();
            push_str(&mut e, "未找到标题为 '");
            push_str(&mut e, heading);
            push_str(&mut e, "' 的板块");
            Err(string_from(e.as_slice()))
        },
    }
}

/// Reads a document whose file held `file_content` (`None`: no such file).
pub fn read(paths: &OkfPaths, ws: &str, category: Category, name: &str, heading: &str, file_content: Option<&str>) -> (r: Result<OkfReadOutcome, String>)
    ensures
        match file_content {
            None => r matches Err(e) && e@ == "文件不存在: "@ + doc_path(paths.app_root@, ws@, category, name@),
            Some(c) => match read_spec(c@, heading@) {
                Ok(b) => r matches Ok(o) && o.content@ == b && o.scope == category_scope(category)
                    && o.file_path@ == doc_path(paths.app_root@, ws@, category, name@),
                Err(e) => r matches Err(x) && x@ == e,
            },
        },
{
    let file = doc_file(paths, ws, category, name);
    match file_content {
        None => {
            let mut e: Vec<char> = Vec::new();
            push_str(&mut e, "文件不存在: ");
            push_str(&mut e, file.as_str());
            Err(string_from(e.as_slice()))
        },
        Some(c) => match read_body(c, heading) {
            Ok(body) => Ok(OkfReadOutcome { scope: category.scope(), file_path: file, content: body }),
            Err(e) => Err(e),
        },
    }
}

// ---------------------------------------------------------------------------
// write
// ---------------------------------------------------------------------------

/// Frontmatter of a newly created document.
pub open spec fn new_entries(c: Category, name: Seq<char>, description: Option<Seq<char>>, ts: Seq<char>) -> Entries {
    let e0 = set_entry(Seq::empty(), "type"@, category_doc_type(c));
    let e1 = set_entry(e0, "title"@, name);
    let e2 = set_entry(e1, "description"@, match description { Some(d) => d, None => Seq::empty() });
    let e3 = set_entry(e2, "created_at"@, ts);
    set_entry(e3, "updated_at"@, ts)
}

/// Frontmatter of an updated document: `updated_at` refreshed, and the
/// description replaced when one is given.
pub open spec fn updated_entries(old: Option<Entries>, description: Option<Seq<char>>, ts: Seq<char>) -> Entries {
    let e = set_entry(match old { Some(o) => o, None => Seq::empty() }, "updated_at"@, ts);
    match description {
        Some(d) => set_entry(e, "description"@, d),
        None => e,
    }
}

/// Heading level of new blocks: concepts use `##`, the others `#`.
pub open spec fn block_level(c: Category) -> nat {
    if c == Category::Concept { 2 } else { 1 }
}

/// The document a write leaves: the frontmatter (new, or the old one
/// updated) over the old body with `heading`'s block set to `content` and
/// repeated blocks removed.
pub open spec fn written_spec(
    existing: Option<Seq<char>>,
    c: Category,
    name: Seq<char>,
    heading: Seq<char>,
    content: Seq<char>,
    description: Option<Seq<char>>,
    ts: Seq<char>,
) -> Seq<char> {
    let fm = match existing {
        None => new_entries(c, name, description, ts),
        Some(raw) => updated_entries(split_spec(raw).0, description, ts),
    };
    let body = match existing {
        None => Seq::empty(),
        Some(raw) => split_spec(raw).1,
    };
    let upserted = join(upserted_lines(body, heading, content, block_level(c)), seq!['\n']);
    joined(Some(fm), deduplicated(upserted))
}

/// The document text a write produces from the file's current content
/// (`None`: the file does not exist yet) and the timestamp `ts`.
pub fn written_document(
    existing: Option<&str>,
    category: Category,
    name: &str,
    heading: &str,
    content: &str,
    description: Option<&str>,
    ts: &str,
) -> (r: String)
    ensures
        r@ == written_spec(
            match existing { Some(x) => Some(x@), None => None },
            category,
            name@,
            heading@,
            content@,
            match description { Some(d) => Some(d@), None => None },
            ts@,
        ),
{
    let (fm, body) = match existing {
        None => {
            let mut f = Frontmatter::new();
            f.set("type", category.doc_type());
            f.set("title", name);
            let d = match description {
                Some(d) => d,
                None => "",
            };
            proof {
                assert(description is None ==> d@ == Seq::<char>::empty()) by {
                    reveal_strlit("");
                }
            }
            f.set("description", d);
            f.set("created_at", ts);
            f.set("updated_at", ts);
            (f, String::new())
        },
        Some(raw) => {
            let (fm_opt, body) = split_document(raw);
            let mut f = match fm_opt {
                Some(f) => f,
                None => Frontmatter::new(),
            };
            f.set("updated_at", ts);
            match description {
                Some(d) => f.set("description", d),
                None => {},
            }
            (f, body)
        },
    };
    let level: usize = match category {
        Category::Concept => 2,
        _ => 1,
    };
    let up = upsert_block(body.as_str(), heading, content, level);
    let dd = deduplicate(up.as_str());
    join_document(Some(&fm), dd.as_str())
}

/// What a write does: the document text to store at `outcome.file_path`,
/// and the repository root and message of the version commit.
pub struct WritePlan {
    pub outcome: OkfWriteOutcome,
    pub document: String,
    pub repo_root: String,
    pub commit_msg: String,
}

/// Plans a write of `new_content` under `heading`, given the file's current
/// content (`None`: not created yet) and the clock's timestamp.
pub fn write(
    paths: &OkfPaths,
    ws: &str,
    category: Category,
    name: &str,
    heading: &str,
    new_content: &str,
    description: Option<&str>,
    existing: Option<&str>,
    ts: &str,
) -> (r: WritePlan)
    ensures
        r.outcome.created == existing.is_none(),
        r.outcome.scope == category_scope(category),
        r.outcome.file_path@ == doc_path(paths.app_root@, ws@, category, name@),
        r.document@ == written_spec(
            match existing { Some(x) => Some(x@), None => None },
            category,
            name@,
            heading@,
            new_content@,
            match description { Some(d) => Some(d@), None => None },
            ts@,
        ),
        r.repo_root@ == repo_path(paths.app_root@, ws@, category_scope(category)),
        r.commit_msg@ == "Update OKF: "@ + category_subdir(category) + "/"@ + name@,
{
    let file = doc_file(paths, ws, category, name);
    let document = written_document(existing, category, name, heading, new_content, description, ts);
    let scope = category.scope();
    let root = repo_root(paths, ws, scope);
    let mut m: Vec<char> = Vec::new();
    push_str(&mut m, "Update OKF: ");
    push_str(&mut m, category.dir());
    push_str(&mut m, "/");
    push_str(&mut m, name);
    WritePlan {
        outcome: OkfWriteOutcome { scope, file_path: file, created: existing.is_none() },
        document,
        repo_root: root,
        commit_msg: string_from(m.as_slice()),
    }
}

// ---------------------------------------------------------------------------
// skeletons
// ---------------------------------------------------------------------------

/// Frontmatter of a skeleton document.
pub open spec fn skeleton_entries(c: Category, title: Seq<char>, ts: Seq<char>) -> Entries {
    let e0 = set_entry(Seq::empty(), "type"@, category_doc_type(c));
    let e1 = set_entry(e0, "title"@, title);
    let e2 = set_entry(e1, "created_at"@, ts);
    set_entry(e2, "updated_at"@, ts)
}

/// One row of the skeleton's column table.
pub open spec fn column_row(name: Seq<char>, ty: Seq<char>, nullable: bool) -> Seq<char> {
    "| `"@ + name + "` | "@ + ty + " |  | "@ + (if nullable { ""@ } else { "NOT NULL"@ }) + " |\n"@
}

pub open spec fn column_rows(cols: Seq<ColumnInfo>) -> Seq<char>
    decreases cols.len(),
{
    if cols.len() == 0 {
        Seq::empty()
    } else {
        column_rows(cols.drop_last()) + column_row(cols.last().0@, cols.last().1@, cols.last().2)
    }
}

/// Body of a table skeleton.
pub open spec fn table_body(cols: Seq<ColumnInfo>, row_count: Option<i64>) -> Seq<char> {
    "# 物理画像\n- 行数估算: "@
        + (match row_count { Some(c) => decimal(c as int), None => "未知"@ })
        + "\n\n# 字段 Schema\n"@
        + "| 字段名 | 物理类型 | 业务释义 | 数据约束 |\n|---|---|---|---|\n"@
        + column_rows(cols)
        + "\n# 关联关系\n- 暂无关联表（请手动编辑，例如 `- customer_id 关联 customers 表的 customer_id`）。\n"@
}

/// The body of a table skeleton (see [`table_body`]).
pub fn table_body_text(columns: &[ColumnInfo], row_count: Option<i64>) -> (r: String)
    ensures
        r@ == table_body(columns@, row_count),
{
    let mut b: Vec<char> = Vec::new();
    push_str(&mut b, "# 物理画像\n- 行数估算: ");
    match row_count {
        Some(c) => push_i64(&mut b, c),
        None => push_str(&mut b, "未知"),
    }
    push_str(&mut b, "\n\n# 字段 Schema\n");
    push_str(&mut b, "| 字段名 | 物理类型 | 业务释义 | 数据约束 |\n|---|---|---|---|\n");
    let ghost pre = b@;
    let mut k: usize = 0;
    while k < columns.len()
        invariant
            k <= columns.len(),
            b@ == pre + column_rows(columns@.take(k as int)),
        decreases columns.len() - k,
    {
        let (name, ty, nullable) = &columns[k];
        push_str(&mut b, "| `");
        push_str(&mut b, name.as_str());
        push_str(&mut b, "` | ");
        push_str(&mut b, ty.as_str());
        push_str(&mut b, " |  | ");
        if *nullable {
            push_str(&mut b, "");
        } else {
            push_str(&mut b, "NOT NULL");
        }
        push_str(&mut b, " |\n");
        proof {
            assert(columns@.take(k + 1).drop_last() =~= columns@.take(k as int));
            assert(columns@.take(k + 1).last() == columns@[k as int]);
        }
        k = k + 1;
    }
    proof {
        assert(columns@.take(columns@.len() as int) =~= columns@);
    }
    push_str(&mut b, "\n# 关联关系\n- 暂无关联表（请手动编辑，例如 `- customer_id 关联 customers 表的 customer_id`）。\n");
    string_from(b.as_slice())
}

/// The skeleton written for a newly explored table.
pub fn table_skeleton(table: &str, columns: &[ColumnInfo], row_count: Option<i64>, ts: &str) -> (r: String)
    ensures
        r@ == joined(
            Some(skeleton_entries(Category::Table, table@ + " 物理数据表"@, ts@)),
            table_body(columns@, row_count),
        ),
{
    let mut fm = Frontmatter::new();
    fm.set("type", Category::Table.doc_type());
    let mut t: Vec<char> = Vec::new();
    push_str(&mut t, table);
    push_str(&mut t, " 物理数据表");
    let title = string_from(t.as_slice());
    fm.set("title", title.as_str());
    fm.set("created_at", ts);
    fm.set("updated_at", ts);

    let body = table_body_text(columns, row_count);
    join_document(Some(&fm), body.as_str())
}

/// The skeleton written for a newly created view.
pub fn view_skeleton(view: &str, sql: &str, ts: &str) -> (r: String)
    ensures
        r@ == joined(
            Some(skeleton_entries(Category::View, view@ + " 逻辑视图"@, ts@)),
            "# 视图 SQL 定义\n```sql\n"@ + sql@ + "\n```\n"@,
        ),
{
    let mut fm = Frontmatter::new();
    fm.set("type", Category::View.doc_type());
    let mut t: Vec<char> = Vec::new();
    push_str(&mut t, view);
    push_str(&mut t, " 逻辑视图");
    let title = string_from(t.as_slice());
    fm.set("title", title.as_str());
    fm.set("created_at", ts);
    fm.set("updated_at", ts);
    let mut b: Vec<char> = Vec::new();
    push_str(&mut b, "# 视图 SQL 定义\n```sql\n");
    push_str(&mut b, sql);
    push_str(&mut b, "\n```\n");
    let body = string_from(b.as_slice());
    join_document(Some(&fm), body.as_str())
}

// ---------------------------------------------------------------------------
// read after write
// ---------------------------------------------------------------------------

/// Text without line breaks.
pub open spec fn no_breaks(s: Seq<char>) -> bool {
    forall|i: int| 0 <= i < s.len() ==> #[trigger] s[i] != '\n' && s[i] != '\r'
}

/// A text a heading line can be made of: non-empty, trimmed, without `\n`,
/// not starting with `#`.
pub open spec fn heading_name(h: Seq<char>) -> bool {
    &&& h.len() > 0
    &&& trim(h) == h
    &&& forall|i: int| 0 <= i < h.len() ==> #[trigger] h[i] != '\n'
    &&& h[0] != '#'
}

/// A heading a block can be written under and read back by: non-empty,
/// trimmed, on one line, not starting with `#`, and not `all`.
pub open spec fn readable_heading(h: Seq<char>) -> bool {
    &&& h.len() > 0
    &&& trim(h) == h
    &&& no_breaks(h)
    &&& h[0] != '#'
    &&& !eq_ignore_ascii_case(h, "all"@)
}

proof fn lemma_trim_fixed(x: Seq<char>)
    requires
        x.len() > 0,
        !crate::text::is_ws(x[0]),
        !crate::text::is_ws(x.last()),
    ensures
        trim(x) == x,
{
    assert(crate::text::ltrim(x) == x);
}

proof fn lemma_strip_hashes(n: nat, h: Seq<char>)
    requires
        h.len() > 0,
        h[0] != '#',
    ensures
        strip_leading(crate::okf::markdown::level_prefix(n) + h, '#') == seq![' '] + h,
    decreases n,
{
    let x = crate::okf::markdown::level_prefix(n) + h;
    if n == 0 {
        assert(crate::okf::markdown::level_prefix(0) =~= seq![' ']);
        assert(x[0] == ' ');
        assert(x =~= seq![' '] + h);
    } else {
        assert(x[0] == '#');
        assert(x.drop_first() =~= crate::okf::markdown::level_prefix((n - 1) as nat) + h);
        lemma_strip_hashes((n - 1) as nat, h);
    }
}

/// The heading line a block is appended under matches its heading, and its
/// text is the heading.
pub(crate) proof fn lemma_new_heading_matches(level: nat, h: Seq<char>)
    requires
        level >= 1,
        heading_name(h),
    ensures
        crate::okf::markdown::heading_matches(crate::okf::markdown::level_prefix(level) + h, h),
        crate::okf::markdown::heading_text(crate::okf::markdown::level_prefix(level) + h) == h,
        crate::text::is_plain_line(crate::okf::markdown::level_prefix(level) + h),
        crate::okf::markdown::heading_level(crate::okf::markdown::level_prefix(level) + h) == level as int,
{
    let hl = crate::okf::markdown::level_prefix(level) + h;
    assert(hl[0] == '#');
    assert(hl.last() == h.last());
    lemma_trimmed_ends(h);
    lemma_trim_fixed(hl);
    lemma_strip_hashes(level, h);
    let sp = seq![' '] + h;
    assert(sp.drop_first() =~= h);
    assert(crate::text::ltrim(sp) == crate::text::ltrim(h));
    assert(crate::text::ltrim(h) == h);
    assert(trim(sp) == h);
    assert forall|i: int| 0 <= i < hl.len() implies #[trigger] hl[i] != '\n' by {
        if i > level as int {
            assert(hl[i] == h[i - level - 1]);
        }
    }
}

proof fn lemma_trimmed_ends(h: Seq<char>)
    requires
        h.len() > 0,
        trim(h) == h,
    ensures
        !crate::text::is_ws(h[0]),
        !crate::text::is_ws(h.last()),
{
    crate::text::lemma_ltrim_len(h);
    lemma_rtrim_shorter(crate::text::ltrim(h));
    if crate::text::is_ws(h[0]) {
        crate::text::lemma_ltrim_len(h.drop_first());
        assert(crate::text::ltrim(h) == crate::text::ltrim(h.drop_first()));
    }
    assert(crate::text::ltrim(h) == h);
    if crate::text::is_ws(h.last()) {
        lemma_rtrim_shorter(h.drop_last());
    }
}

proof fn lemma_rtrim_shorter(x: Seq<char>)
    ensures
        crate::text::rtrim(x).len() <= x.len(),
    decreases x.len(),
{
    if x.len() > 0 && crate::text::is_ws(x.last()) {
        lemma_rtrim_shorter(x.drop_last());
    }
}

pub(crate) proof fn lemma_doc_type_plain(c: Category)
    ensures
        no_breaks(category_doc_type(c)),
        category_doc_type(c).len() > 0,
{
    reveal_strlit("Business Concept");
    reveal_strlit("User Profile");
    reveal_strlit("DuckDB Table");
    reveal_strlit("DuckDB View");
    reveal_strlit("Data Source");
    reveal_strlit("Recipe");
}

} // verus!
