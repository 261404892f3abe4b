//! OKF data model: scopes, categories, table status and operation outcomes.

use vstd::prelude::*;

use crate::text::{chars_of, same_chars, trim, trim_bounds};

verus! {

/// Where a piece of knowledge lives.
#[derive(Debug, Clone, Copy, PartialEq, Eq, Hash)]
pub enum Scope {
    Global,
    Workspace,
}

impl Scope {
    /// Display label.
    pub fn label(self) -> (r: &'static str)
        ensures
            r@ == (match self {
                Scope::Global => "全局"@,
                Scope::Workspace => "工作区"@,
            }),
    {
        match self {
            Scope::Global => "全局",
            Scope::Workspace => "工作区",
        }
    }
}

/// Knowledge category: decides the subdirectory, the frontmatter `type` and
/// the default scope.
#[derive(Debug, Clone, Copy, PartialEq, Eq, Hash)]
pub enum Category {
    Concept,
    User,
    Table,
    View,
    Source,
    Recipe,
}

/// Directory of a category under an OKF root.
pub open spec fn category_dir(c: Category) -> Seq<char> {
    match c {
        Category::Concept => "concepts"@,
        Category::User => "users"@,
        Category::Table => "tables"@,
        Category::View => "views"@,
        Category::Source => "sources"@,
        Category::Recipe => "pipelines/specific"@,
    }
}

/// Frontmatter `type` of a category.
pub open spec fn category_doc_type(c: Category) -> Seq<char> {
    match c {
        Category::Concept => "Business Concept"@,
        Category::User => "User Profile"@,
        Category::Table => "DuckDB Table"@,
        Category::View => "DuckDB View"@,
        Category::Source => "Data Source"@,
        Category::Recipe => "Recipe"@,
    }
}

/// Default scope of a category: concepts and users are global.
pub open spec fn category_scope(c: Category) -> Scope {
    match c {
        Category::Concept | Category::User => Scope::Global,
        _ => Scope::Workspace,
    }
}

/// The category named by a (trimmed) tool-level string.
pub open spec fn category_named(t: Seq<char>) -> Option<Category> {
    if t == "concepts"@ {
        Some(Category::Concept)
    } else if t == "users"@ || t == "users/default"@ {
        Some(Category::User)
    } else if t == "tables"@ {
        Some(Category::Table)
    } else if t == "views"@ {
        Some(Category::View)
    } else if t == "sources"@ {
        Some(Category::Source)
    } else if t == "pipelines/specific"@ || t == "pipelines"@ {
        Some(Category::Recipe)
    } else {
        None
    }
}

/// Whether the buffer holds the characters of `lit`.
pub fn chars_eq_str(v: &Vec<char>, lit: &str) -> (b: bool)
    ensures
        b == (v@ == lit@),
{
    let l = chars_of(lit);
    same_chars(v.as_slice(), l.as_slice())
}

impl Category {
    /// Default scope (concepts/users global, the rest per workspace).
    pub fn scope(self) -> (r: Scope)
        ensures
            r == category_scope(self),
    {
        match self {
            Category::Concept | Category::User => Scope::Global,
            _ => Scope::Workspace,
        }
    }

    /// Subdirectory under the OKF root.
    pub fn dir(self) -> (r: &'static str)
        ensures
            r@ == category_dir(self),
    {
        match self {
            Category::Concept => "concepts",
            Category::User => "users",
            Category::Table => "tables",
            Category::View => "views",
            Category::Source => "sources",
            Category::Recipe => "pipelines/specific",
        }
    }

    /// Frontmatter `type` value.
    pub fn doc_type(self) -> (r: &'static str)
        ensures
            r@ == category_doc_type(self),
    {
        match self {
            Category::Concept => "Business Concept",
            Category::User => "User Profile",
            Category::Table => "DuckDB Table",
            Category::View => "DuckDB View",
            Category::Source => "Data Source",
            Category::Recipe => "Recipe",
        }
    }

    /// Parses a tool-level category string (surrounding whitespace ignored);
    /// unknown names give `None`.
    pub fn from_str(s: &str) -> (r: Option<Category>)
        ensures
            r == category_named(trim(s@)),
    {
        let v = chars_of(s);
        let (a, b) = trim_bounds(&v, 0, v.len());
        let mut t: Vec<char> = Vec::new();
        crate::text::push_range(&mut t, &v, a, b);
        proof {
            assert(v@.subrange(0, v@.len() as int) =~= v@);
            assert(t@ =~= trim(s@));
        }
        if chars_eq_str(&t, "concepts") {
            Some(Category::Concept)
        } else if chars_eq_str(&t, "users") || chars_eq_str(&t, "users/default") {
            Some(Category::User)
        } else if chars_eq_str(&t, "tables") {
            Some(Category::Table)
        } else if chars_eq_str(&t, "views") {
            Some(Category::View)
        } else if chars_eq_str(&t, "sources") {
            Some(Category::Source)
        } else if chars_eq_str(&t, "pipelines/specific") || chars_eq_str(&t, "pipelines") {
            Some(Category::Recipe)
        } else {
            None
        }
    }
}

/// Exploration status of a registered table.
#[derive(Debug, Clone, Copy, PartialEq, Eq)]
pub enum TableStatus {
    Available,
    UnavailablePermanent,
    UnavailableTemporary,
    Unknown,
}

/// The status a stored status string names.
pub open spec fn status_named(s: Seq<char>) -> TableStatus {
    if s == "available"@ {
        TableStatus::Available
    } else if s == "unavailable_permanent"@ {
        TableStatus::UnavailablePermanent
    } else if s == "unavailable_temporary"@ {
        TableStatus::UnavailableTemporary
    } else {
        TableStatus::Unknown
    }
}

/// Icon of a status.
pub open spec fn status_icon(t: TableStatus) -> Seq<char> {
    match t {
        TableStatus::Available => "✅"@,
        TableStatus::UnavailablePermanent => "❌"@,
        TableStatus::UnavailableTemporary => "⚠️"@,
        TableStatus::Unknown => "❓"@,
    }
}

impl TableStatus {
    /// Parses a stored status string; anything unrecognized is `Unknown`.
    pub fn from_str(s: &str) -> (r: TableStatus)
        ensures
            r == status_named(s@),
    {
        let v = chars_of(s);
        if chars_eq_str(&v, "available") {
            TableStatus::Available
        } else if chars_eq_str(&v, "unavailable_permanent") {
            TableStatus::UnavailablePermanent
        } else if chars_eq_str(&v, "unavailable_temporary") {
            TableStatus::UnavailableTemporary
        } else {
            TableStatus::Unknown
        }
    }

    /// Icon shown in the catalog.
    pub fn icon(self) -> (r: &'static str)
        ensures
            r@ == status_icon(self),
    {
        match self {
            TableStatus::Available => "✅",
            TableStatus::UnavailablePermanent => "❌",
            TableStatus::UnavailableTemporary => "⚠️",
            TableStatus::Unknown => "❓",
        }
    }
}

/// A column of a table: `(name, physical type, nullable)`.
pub type ColumnInfo = (String, String, bool);

/// Result of a knowledge read.
#[derive(Debug, Clone)]
pub struct OkfReadOutcome {
    pub scope: Scope,
    pub file_path: String,
    pub content: String,
}

/// Result of a knowledge write.
#[derive(Debug, Clone)]
pub struct OkfWriteOutcome {
    pub scope: Scope,
    pub file_path: String,
    pub created: bool,
}

/// A search hit; `rel_path` reads like `[全局] concepts/foo.md`.
#[derive(Debug, Clone)]
pub struct SearchHit {
    pub rel_path: String,
    pub preview: String,
}

/// Law: parsing a category's own directory name gives the category back.
pub proof fn lemma_category_dir_roundtrip(c: Category)
    ensures
        category_named(trim(category_dir(c))) == Some(c),
{
    reveal_strlit("concepts");
    reveal_strlit("users");
    reveal_strlit("users/default");
    reveal_strlit("tables");
    reveal_strlit("views");
    reveal_strlit("sources");
    reveal_strlit("pipelines/specific");
    reveal_strlit("pipelines");
    let d = category_dir(c);
    assert(!(d.len() > 0 && crate::text::is_ws(d[0])));
    assert(crate::text::ltrim(d) == d);
    assert(!(d.len() > 0 && crate::text::is_ws(d.last())));
    assert(trim(d) == d);
}

} // verus!
