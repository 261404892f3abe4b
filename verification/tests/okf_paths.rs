use std::path::{Path, PathBuf};

use daw::okf::model::{Category, Scope};
use daw::okf::paths::{resolve_dir_under, resolve_workspace_dir, OkfPaths};

#[test]
fn relative_key_joined_under_root() {
    assert_eq!(
        PathBuf::from(resolve_dir_under("ROOT", "DefaultProject")),
        Path::new("ROOT").join("DefaultProject")
    );
}

#[test]
fn absolute_path_passthrough() {
    let abs = "/custom/ws";
    assert!(Path::new(&resolve_dir_under("ROOT", abs)).is_absolute());
}

#[test]
fn workspace_okf_dir_appends_okf() {
    let paths = OkfPaths::new("ROOT".to_string());
    let dir = paths.workspace_okf_dir("DefaultProject");
    assert_eq!(PathBuf::from(dir), Path::new("ROOT").join("DefaultProject").join("okf"));
}

#[test]
fn category_dir_global_vs_workspace() {
    let paths = OkfPaths::new("ROOT".to_string());
    assert_eq!(
        PathBuf::from(paths.category_dir(Scope::Global, "ws", Category::Concept)),
        Path::new("ROOT").join("okf").join("concepts")
    );
    assert_eq!(
        PathBuf::from(paths.category_dir(Scope::Workspace, "ws", Category::Table)),
        Path::new("ROOT").join("ws").join("okf").join("tables")
    );
}

#[test]
fn workspace_dir_resolution() {
    assert_eq!(resolve_workspace_dir("/abs/ws", Err("no home".to_string())), Ok("/abs/ws".to_string()));
    assert_eq!(resolve_workspace_dir("rel", Err("no home".to_string())), Err("no home".to_string()));
    assert_eq!(
        PathBuf::from(resolve_workspace_dir("rel", Ok("/home/u/.daw".to_string())).unwrap()),
        Path::new("/home/u/.daw").join("rel")
    );
}
