use hyprink::commands::{list_command, ListCommands, ListOutcome};
use hyprink::db::Store;
use hyprink::markup::{parse_structure, strip_tags};
use hyprink::template::{Hooks, Template, TemplateManifest};

fn template(name: &str) -> Template {
    Template {
        manifest: TemplateManifest {
            name: name.to_string(),
            version: "1".to_string(),
            authors: vec![],
            description: String::new(),
            repository: None,
            license: None,
            ignored: false,
        },
        targets: vec![],
        files: vec![],
        hooks: Hooks::default(),
    }
}

#[test]
fn strip_tags_removes_markup() {
    assert_eq!(strip_tags("applying <primary>core</primary> now"), "applying core now");
    assert_eq!(strip_tags("a < b"), "a < b");
    assert_eq!(strip_tags("<bold>x"), "x");
    assert_eq!(strip_tags(""), "");
    assert_eq!(strip_tags("1 <2> 3 < 4"), "1  3 < 4");
}

#[test]
fn parse_structure_splits_placeholders() {
    assert_eq!(parse_structure("{tag} {msg}"), vec!["{tag}", " ", "{msg}"]);
    assert_eq!(parse_structure("[{scope}]{icon}"), vec!["[", "{scope}", "]", "{icon}"]);
    assert_eq!(parse_structure("{nope}"), vec!["{nope}"]);
    assert!(parse_structure("").is_empty());
}

#[test]
fn list_commands_change_the_store() {
    let mut db = Store::new("/tmp/s.bin".to_string());
    assert_eq!(list_command(&mut db, &ListCommands::Clear), ListOutcome::AlreadyEmpty);
    db.add(template("a")).unwrap();
    db.add(template("b")).unwrap();
    assert_eq!(list_command(&mut db, &ListCommands::Disable { name: "a".to_string() }), ListOutcome::Toggled);
    assert!(db.list()[0].manifest.ignored);
    assert_eq!(list_command(&mut db, &ListCommands::Enable { name: "a".to_string() }), ListOutcome::Toggled);
    assert!(!db.list()[0].manifest.ignored);
    assert_eq!(list_command(&mut db, &ListCommands::Enable { name: "zz".to_string() }), ListOutcome::NotFound);
    assert_eq!(list_command(&mut db, &ListCommands::Clear), ListOutcome::Cleared(2));
    assert!(db.list().is_empty());
}
