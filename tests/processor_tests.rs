use hyprink::config::{
    Config, IconsSection, LayoutSection, LoggingConfig, RetentionConfig, StructureConfig, TagConfig,
    ThemeSection,
};
use hyprink::db::Store;
use hyprink::processor::{active_icons, apply_queue, execute, hook_outcome, render_jobs, ApplySummary};
use hyprink::strmap::StrMap;
use hyprink::template::{Hooks, Target, Template, TemplateManifest};

fn mock_config(active: &str) -> Config {
    Config {
        theme: ThemeSection {
            name: "test".into(),
            active_icons: active.into(),
            colors: StrMap::new(),
            fonts: StrMap::new(),
        },
        icons: IconsSection {
            nerdfont: StrMap::from_pairs(vec![("ok".to_string(), "N".to_string())]),
            ascii: StrMap::from_pairs(vec![("ok".to_string(), "+".to_string())]),
        },
        layout: LayoutSection {
            tag: TagConfig {
                prefix: "[".into(),
                suffix: "]".into(),
                transform: "none".into(),
                min_width: 0,
                alignment: "left".into(),
            },
            labels: StrMap::new(),
            structure: StructureConfig { terminal: "".into(), file: "".into() },
            logging: LoggingConfig {
                base_dir: "".into(),
                path_structure: "".into(),
                filename_structure: "".into(),
                timestamp_format: "".into(),
                write_by_default: false,
                app_name: "test".into(),
                retention: RetentionConfig::default(),
            },
        },
    }
}

fn template(name: &str, reload: Option<&str>, ignored: bool) -> Template {
    Template {
        manifest: TemplateManifest {
            name: name.to_string(),
            version: "0.1".to_string(),
            authors: vec!["test".to_string()],
            description: "test".to_string(),
            repository: None,
            license: None,
            ignored,
        },
        targets: vec![],
        files: vec![],
        hooks: Hooks { reload: reload.map(|s| s.to_string()) },
    }
}

#[test]
fn batch_counts_hook_failures() {
    let mut store = Store::new("/tmp/s.bin".to_string());
    store.add(template("a", None, false)).unwrap();
    store.add(template("b", Some("false"), false)).unwrap();
    store.add(template("c", None, false)).unwrap();
    let queue = apply_queue(&store);
    assert_eq!(queue.len(), 3);
    let outcomes: Vec<bool> = vec![
        hook_outcome(queue[0], None),
        hook_outcome(queue[1], Some(false)),
        hook_outcome(queue[2], None),
    ];
    let summary = execute(&store, &outcomes);
    assert_eq!(summary, ApplySummary { applied: 3, skipped: 0, hook_failures: 1 });
}

#[test]
fn ignored_templates_are_skipped() {
    let mut store = Store::new("/tmp/s.bin".to_string());
    store.add(template("keep", None, false)).unwrap();
    store.add(template("off", Some("false"), true)).unwrap();
    let queue = apply_queue(&store);
    assert_eq!(queue.len(), 1);
    assert_eq!(queue[0].manifest.name, "keep");
    let summary = execute(&store, &vec![true]);
    assert_eq!(summary, ApplySummary { applied: 1, skipped: 1, hook_failures: 0 });
}

#[test]
fn hook_outcome_reports_exit_status() {
    let with_hook = template("h", Some("true"), false);
    let without = template("n", None, false);
    assert!(hook_outcome(&with_hook, Some(true)));
    assert!(!hook_outcome(&with_hook, Some(false)));
    assert!(hook_outcome(&without, None));
}

#[test]
fn render_jobs_cover_targets_then_files() {
    let mut t = template("r", None, false);
    t.targets = vec![Target { target: "~/.config/a".to_string(), content: "A".to_string() }];
    t.files = vec![
        Target { target: "/path/one".to_string(), content: "1".to_string() },
        Target { target: "/path/two".to_string(), content: "2".to_string() },
    ];
    let jobs = render_jobs(&t, Some("/home/me")).unwrap();
    let got: Vec<(&str, &str)> = jobs.iter().map(|j| (j.path.as_str(), j.content.as_str())).collect();
    assert_eq!(got, vec![("/home/me/.config/a", "A"), ("/path/one", "1"), ("/path/two", "2")]);
    assert!(render_jobs(&t, None).is_none());
}

#[test]
fn icon_set_follows_theme() {
    let n = mock_config("nerdfont");
    assert_eq!(active_icons(&n).get("ok").map(|s| s.as_str()), Some("N"));
    let a = mock_config("anything");
    assert_eq!(active_icons(&a).get("ok").map(|s| s.as_str()), Some("+"));
}
