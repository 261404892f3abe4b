use daw::files::{is_shown, read_directory, resolve_path, FileItem};

fn item(name: &str, is_dir: bool) -> FileItem {
    FileItem { name: name.to_string(), path: format!("/w/{name}"), is_dir }
}

#[test]
fn folders_first_then_by_name() {
    let entries = vec![
        item("b.txt", false),
        item(".git", true),
        item("zeta", true),
        item("daw.db", false),
        item("a.txt", false),
        item("alpha", true),
        item("oa.db", false),
    ];
    let names: Vec<String> = read_directory(&entries).into_iter().map(|f| f.name).collect();
    assert_eq!(names, vec!["alpha", "zeta", "a.txt", "b.txt"]);
}

#[test]
fn hidden_names() {
    assert!(!is_shown(".env"));
    assert!(!is_shown("daw.db"));
    assert!(is_shown("daw.db.bak"));
    assert!(is_shown("notes.md"));
    assert!(read_directory(&[]).is_empty());
}

#[test]
fn paths_resolve_under_home_or_app_dir() {
    let home = Some("/home/u".to_string());
    let app = || Ok::<String, String>("/home/u/.daw".to_string());
    assert_eq!(resolve_path("~", home.clone(), app()).unwrap(), "/home/u");
    assert_eq!(resolve_path("~/proj", home.clone(), app()).unwrap(), "/home/u/proj");
    assert_eq!(resolve_path("~/proj", None, app()).unwrap_err(), "Could not find home directory");
    assert_eq!(resolve_path("/abs/dir", None, Err("x".to_string())).unwrap(), "/abs/dir");
    assert_eq!(resolve_path("DefaultProject", None, app()).unwrap(), "/home/u/.daw/DefaultProject");
    assert_eq!(resolve_path("DefaultProject", None, Err("no home".to_string())).unwrap_err(), "no home");
}
