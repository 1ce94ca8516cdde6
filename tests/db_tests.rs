use hyprink::db::Store;
use hyprink::template::{Hooks, Target, Template, TemplateManifest};

fn create_test_template(name: &str) -> Template {
    Template {
        manifest: TemplateManifest {
            name: name.to_string(),
            version: "1.0.0".to_string(),
            authors: vec!["Test".to_string()],
            description: "Test template".to_string(),
            repository: None,
            license: None,
            ignored: false,
        },
        targets: vec![Target {
            target: "~/.config/test".to_string(),
            content: "test content".to_string(),
        }],
        files: vec![],
        hooks: Hooks::default(),
    }
}

fn store_path() -> String {
    "/tmp/hyprink-test/store.bin".to_string()
}

#[test]
fn test_store_new_empty() {
    let store = Store::new(store_path());
    assert!(store.list().is_empty());
}

#[test]
fn test_store_add_template() {
    let mut store = Store::new(store_path());
    let tpl = create_test_template("test-tpl");
    store.add(tpl).unwrap();
    assert_eq!(store.list().len(), 1);
    assert_eq!(store.list()[0].manifest.name, "test-tpl");
}

#[test]
fn test_store_remove_template() {
    let mut store = Store::new(store_path());
    store.add(create_test_template("to-remove")).unwrap();
    let removed = store.remove("to-remove");
    assert!(removed.is_some());
    assert_eq!(removed.unwrap().manifest.name, "to-remove");
    assert!(store.list().is_empty());
}

#[test]
fn test_store_remove_nonexistent() {
    let mut store = Store::new(store_path());
    let removed = store.remove("does-not-exist");
    assert!(removed.is_none());
}

#[test]
fn test_store_clear() {
    let mut store = Store::new(store_path());
    store.add(create_test_template("tpl1")).unwrap();
    store.add(create_test_template("tpl2")).unwrap();
    store.add(create_test_template("tpl3")).unwrap();
    assert_eq!(store.list().len(), 3);
    store.clear();
    assert!(store.list().is_empty());
}

#[test]
fn test_store_set_ignored() {
    let mut store = Store::new(store_path());
    store.add(create_test_template("ignorable")).unwrap();
    assert!(!store.list()[0].manifest.ignored);
    let result = store.set_ignored("ignorable", true).unwrap();
    assert!(result);
    assert!(store.list()[0].manifest.ignored);
    let result = store.set_ignored("ignorable", false).unwrap();
    assert!(result);
    assert!(!store.list()[0].manifest.ignored);
}

#[test]
fn test_store_set_ignored_nonexistent() {
    let mut store = Store::new(store_path());
    let result = store.set_ignored("does-not-exist", true).unwrap();
    assert!(!result);
}

#[test]
fn test_store_list_sorted() {
    let mut store = Store::new(store_path());
    store.add(create_test_template("zebra")).unwrap();
    store.add(create_test_template("alpha")).unwrap();
    store.add(create_test_template("middle")).unwrap();
    let list = store.list();
    assert_eq!(list[0].manifest.name, "alpha");
    assert_eq!(list[1].manifest.name, "middle");
    assert_eq!(list[2].manifest.name, "zebra");
}

#[test]
fn test_store_iter() {
    let mut store = Store::new(store_path());
    store.add(create_test_template("iter1")).unwrap();
    store.add(create_test_template("iter2")).unwrap();
    let count = store.iter().count();
    assert_eq!(count, 2);
}

#[test]
fn test_store_overwrite_template() {
    let mut store = Store::new(store_path());
    let mut tpl1 = create_test_template("same-name");
    tpl1.manifest.version = "1.0.0".to_string();
    store.add(tpl1).unwrap();
    let mut tpl2 = create_test_template("same-name");
    tpl2.manifest.version = "2.0.0".to_string();
    store.add(tpl2).unwrap();
    assert_eq!(store.list().len(), 1);
    assert_eq!(store.list()[0].manifest.version, "2.0.0");
}

#[test]
fn upsert_replaces_every_field() {
    let mut store = Store::new(store_path());
    store.add(create_test_template("a")).unwrap();
    store.add(create_test_template("b")).unwrap();
    let mut replacement = create_test_template("a");
    replacement.manifest.description = "second".to_string();
    replacement.targets = vec![];
    replacement.hooks.reload = Some("true".to_string());
    store.add(replacement).unwrap();
    let list = store.list();
    assert_eq!(list.len(), 2);
    assert_eq!(list[0].manifest.description, "second");
    assert!(list[0].targets.is_empty());
    assert_eq!(list[0].hooks.reload.as_deref(), Some("true"));
}

#[test]
fn listing_is_sorted_whatever_the_insertion_order() {
    let mut store = Store::new(store_path());
    for name in ["delta", "Beta", "alpha", "beta", "alphabet", "", "Ω"] {
        store.add(create_test_template(name)).unwrap();
    }
    let names: Vec<&str> = store.list().iter().map(|t| t.manifest.name.as_str()).collect();
    let mut expected = names.clone();
    expected.sort();
    expected.dedup();
    assert_eq!(names, expected);
    assert_eq!(names, vec!["", "Beta", "alpha", "alphabet", "beta", "delta", "Ω"]);
}

#[test]
fn removal_returns_value_and_shrinks_by_one() {
    let mut store = Store::new(store_path());
    store.add(create_test_template("x")).unwrap();
    store.add(create_test_template("y")).unwrap();
    let removed = store.remove("x").unwrap();
    assert_eq!(removed.manifest.version, "1.0.0");
    assert_eq!(store.list().len(), 1);
    assert!(store.remove("x").is_none());
    assert_eq!(store.list().len(), 1);
}

#[test]
fn rebuilding_from_listing_gives_same_store() {
    let mut store = Store::new(store_path());
    store.add(create_test_template("two")).unwrap();
    store.add(create_test_template("one")).unwrap();
    let copies: Vec<Template> = store.list().into_iter().cloned().collect();
    let rebuilt = Store::from_templates(store.path().to_string(), copies);
    let a: Vec<&str> = store.list().iter().map(|t| t.manifest.name.as_str()).collect();
    let b: Vec<&str> = rebuilt.list().iter().map(|t| t.manifest.name.as_str()).collect();
    assert_eq!(a, b);
    assert_eq!(rebuilt.path(), "/tmp/hyprink-test/store.bin");
}
