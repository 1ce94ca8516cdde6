use hyprink::config::{
    cache_file, default_app_name, expand_home, is_cache_fresh, reads_cache, Mtime, RetentionConfig,
};

#[test]
fn test_retention_config_defaults() {
    let retention = RetentionConfig::default();
    assert_eq!(retention.max_age_days, 30);
    assert!(retention.max_total_size.is_none());
    assert_eq!(retention.compress_after_days, Some(7));
}

#[test]
fn test_cache_file_returns_path() {
    let file = cache_file("/home/user/.cache/hyprink");
    assert!(file.contains("config.bin"));
}

#[test]
fn cache_file_joins_with_one_separator() {
    assert_eq!(cache_file("/var/cache/hyprink"), "/var/cache/hyprink/config.bin");
    assert_eq!(cache_file("/var/cache/hyprink/"), "/var/cache/hyprink/config.bin");
    assert_eq!(cache_file(""), "config.bin");
}

#[test]
fn default_app_name_is_hyprink() {
    assert_eq!(default_app_name(), "hyprink");
}

#[test]
fn fresh_when_every_input_is_older() {
    assert!(is_cache_fresh(&Mtime::At(100), &Mtime::At(50), &Mtime::At(90), &vec![Mtime::At(10), Mtime::At(100)]));
    assert!(is_cache_fresh(&Mtime::At(100), &Mtime::Absent, &Mtime::Absent, &vec![]));
}

#[test]
fn touched_source_makes_cache_stale() {
    assert!(!is_cache_fresh(&Mtime::At(100), &Mtime::At(50), &Mtime::At(101), &vec![]));
    assert!(!reads_cache(false, &Mtime::At(100), &Mtime::At(50), &Mtime::At(101), &vec![]));
}

#[test]
fn newer_executable_or_override_makes_cache_stale() {
    assert!(!is_cache_fresh(&Mtime::At(100), &Mtime::At(200), &Mtime::At(1), &vec![]));
    assert!(!is_cache_fresh(&Mtime::At(100), &Mtime::At(1), &Mtime::At(1), &vec![Mtime::At(5), Mtime::At(150)]));
}

#[test]
fn unreadable_times_are_not_fresh() {
    assert!(!is_cache_fresh(&Mtime::Absent, &Mtime::At(1), &Mtime::At(1), &vec![]));
    assert!(!is_cache_fresh(&Mtime::Unknown, &Mtime::At(1), &Mtime::At(1), &vec![]));
    assert!(!is_cache_fresh(&Mtime::At(100), &Mtime::Unknown, &Mtime::At(1), &vec![]));
    assert!(!is_cache_fresh(&Mtime::At(100), &Mtime::At(1), &Mtime::Unknown, &vec![]));
    assert!(!is_cache_fresh(&Mtime::At(100), &Mtime::At(1), &Mtime::At(1), &vec![Mtime::Unknown]));
}

#[test]
fn forced_load_never_reads_cache() {
    assert!(reads_cache(false, &Mtime::At(100), &Mtime::At(1), &Mtime::At(1), &vec![]));
    assert!(!reads_cache(true, &Mtime::At(100), &Mtime::At(1), &Mtime::At(1), &vec![]));
}

#[test]
fn home_expansion_only_for_leading_tilde() {
    assert_eq!(expand_home("~/.config/x", Some("/home/u")), Some("/home/u/.config/x".to_string()));
    assert_eq!(expand_home("/etc/x~y", Some("/home/u")), Some("/etc/x~y".to_string()));
    assert_eq!(expand_home("~/a~b", Some("/h")), Some("/h/a~b".to_string()));
    assert_eq!(expand_home("~/x", None), None);
    assert_eq!(expand_home("/x", None), Some("/x".to_string()));
}
