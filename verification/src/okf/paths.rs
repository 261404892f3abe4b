//! OKF path resolution under an injectable application root.

use vstd::prelude::*;

use crate::okf::model::{category_dir, Category, Scope};

verus! {

/// What `Path::join` gives for a base path and a part (a part that is itself
/// absolute replaces the base; the separator is the platform's).
pub uninterp spec fn path_joined(base: Seq<char>, part: Seq<char>) -> Seq<char>;

/// What `Path::is_absolute` says of a path (platform rules).
pub uninterp spec fn path_absolute(p: Seq<char>) -> bool;

/// `Path::new(base).join(part)`, as text.
#[verifier::external_body]
pub(crate) fn path_join(base: &str, part: &str) -> (r: String)
    ensures
        r@ == path_joined(base@, part@),
{
    std::path::Path::new(base).join(part).to_string_lossy().into_owned()
}

/// `Path::new(p).is_absolute()`.
#[verifier::external_body]
pub(crate) fn path_is_absolute(p: &str) -> (b: bool)
    ensures
        b == path_absolute(p@),
{
    std::path::Path::new(p).is_absolute()
}

/// A workspace key resolved under `root`: absolute paths stand as given,
/// relative keys are joined under the root.
pub open spec fn dir_under(root: Seq<char>, ws: Seq<char>) -> Seq<char> {
    if path_absolute(ws) {
        ws
    } else {
        path_joined(root, ws)
    }
}

/// OKF path root (production: the app data dir; tests: a temp dir).
#[derive(Debug, Clone)]
pub struct OkfPaths {
    pub app_root: String,
}

impl OkfPaths {
    pub fn new(app_root: String) -> (r: Self)
        ensures
            r.app_root == app_root,
    {
        OkfPaths { app_root }
    }

    /// Global OKF directory: `<root>/okf`.
    pub fn global_okf_dir(&self) -> (r: String)
        ensures
            r@ == path_joined(self.app_root@, "okf"@),
    {
        path_join(self.app_root.as_str(), "okf")
    }

    /// Workspace OKF directory: `<resolved ws dir>/okf`.
    pub fn workspace_okf_dir(&self, ws: &str) -> (r: String)
        ensures
            r@ == path_joined(dir_under(self.app_root@, ws@), "okf"@),
    {
        let d = resolve_dir_under(self.app_root.as_str(), ws);
        path_join(d.as_str(), "okf")
    }

    /// Directory of a category in a scope.
    pub fn category_dir(&self, scope: Scope, ws: &str, category: Category) -> (r: String)
        ensures
            r@ == path_joined(
                match scope {
                    Scope::Global => path_joined(self.app_root@, "okf"@),
                    Scope::Workspace => path_joined(dir_under(self.app_root@, ws@), "okf"@),
                },
                category_dir(category),
            ),
    {
        let base = match scope {
            Scope::Global => self.global_okf_dir(),
            Scope::Workspace => self.workspace_okf_dir(ws),
        };
        path_join(base.as_str(), category.dir())
    }
}

/// Resolves `ws` (relative key or absolute path) to a workspace directory.
pub fn resolve_dir_under(root: &str, ws: &str) -> (r: String)
    ensures
        r@ == dir_under(root@, ws@),
{
    if path_is_absolute(ws) {
        ws.to_owned()
    } else {
        path_join(root, ws)
    }
}

/// Resolves a `workspaces.path` value: absolute paths stand as given without
/// consulting the app dir; relative keys go under the app dir, whose lookup
/// error is passed on.
pub fn resolve_workspace_dir(path: &str, app_dir: Result<String, String>) -> (r: Result<String, String>)
    ensures
        path_absolute(path@) ==> (r matches Ok(p) && p@ == path@),
        !path_absolute(path@) ==> match app_dir {
            Ok(d) => (r matches Ok(p) && p@ == path_joined(d@, path@)),
            Err(e) => r == Err::<String, String>(e),
        },
{
    if path_is_absolute(path) {
        return Ok(path.to_owned());
    }
    match app_dir {
        Ok(d) => Ok(path_join(d.as_str(), path)),
        Err(e) => Err(e),
    }
}

} // verus!
