use daw::okf::model::{Category, Scope, TableStatus};

#[test]
fn category_scope_and_paths() {
    assert_eq!(Category::Concept.scope(), Scope::Global);
    assert_eq!(Category::User.scope(), Scope::Global);
    assert_eq!(Category::Table.scope(), Scope::Workspace);
    assert_eq!(Category::Recipe.scope(), Scope::Workspace);
    assert_eq!(Category::Recipe.dir(), "pipelines/specific");
    assert_eq!(Category::View.doc_type(), "DuckDB View");
}

#[test]
fn category_from_str_roundtrip() {
    assert_eq!(Category::from_str("concepts"), Some(Category::Concept));
    assert_eq!(Category::from_str("users/default"), Some(Category::User));
    assert_eq!(Category::from_str("pipelines/specific"), Some(Category::Recipe));
    assert_eq!(Category::from_str("  views "), Some(Category::View));
    assert_eq!(Category::from_str("nope"), None);
}

#[test]
fn scope_labels() {
    assert_eq!(Scope::Global.label(), "全局");
    assert_eq!(Scope::Workspace.label(), "工作区");
}

#[test]
fn table_status_icons() {
    assert_eq!(TableStatus::from_str("available").icon(), "✅");
    assert_eq!(TableStatus::from_str("unavailable_permanent").icon(), "❌");
    assert_eq!(TableStatus::from_str("unavailable_temporary").icon(), "⚠️");
    assert_eq!(TableStatus::from_str("garbage").icon(), "❓");
}

#[test]
fn every_category_parses_back_from_its_dir() {
    for c in [Category::Concept, Category::User, Category::Table, Category::View, Category::Source, Category::Recipe] {
        assert_eq!(Category::from_str(c.dir()), Some(c));
    }
}
