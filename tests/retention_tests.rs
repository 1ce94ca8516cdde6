use hyprink::config::RetentionConfig;
use hyprink::retention::{
    age_days, cleanup_plan, cleanup_report, format_size, parse_size, plan_eviction, scale_decimal,
    sort_oldest_first, stats, CleanupOptions, LogFile,
};

const MB: u64 = 1024 * 1024;

fn file(path: &str, size: u64, age_days: u64) -> LogFile {
    LogFile { path: path.to_string(), size, age_days }
}

fn paths(files: &[LogFile], plan: &[usize]) -> Vec<String> {
    plan.iter().map(|&i| files[i].path.clone()).collect()
}

#[test]
fn age_threshold_evicts_only_older_files() {
    let files = vec![file("a.log", 1, 5), file("b.log", 1, 10), file("c.log", 1, 40)];
    let mut retention = RetentionConfig::default();
    retention.max_age_days = 30;
    let plan = cleanup_plan(&retention, &CleanupOptions::default(), &files);
    assert_eq!(paths(&files, &plan), vec!["c.log".to_string()]);
}

#[test]
fn size_threshold_evicts_oldest_until_under_limit() {
    let files = vec![file("one.log", 10 * MB, 1), file("two.log", 10 * MB, 2), file("three.log", 10 * MB, 3)];
    let options = CleanupOptions { max_total_size: Some("15M".to_string()), ..CleanupOptions::default() };
    let plan = cleanup_plan(&RetentionConfig::default(), &options, &files);
    assert_eq!(paths(&files, &plan), vec!["three.log".to_string(), "two.log".to_string()]);
    let kept: u64 = (0..files.len()).filter(|i| !plan.contains(i)).map(|i| files[i].size).sum();
    assert!(kept <= 15 * MB);
    assert_eq!(kept, 10 * MB);
}

#[test]
fn size_pass_only_sees_age_survivors() {
    let files = vec![file("new.log", 8, 1), file("mid.log", 8, 2), file("old.log", 100, 50)];
    let plan = plan_eviction(&files, 30, Some(10), false);
    assert_eq!(paths(&files, &plan), vec!["old.log".to_string(), "mid.log".to_string()]);
}

#[test]
fn option_overrides_beat_configuration() {
    let files = vec![file("a.log", 1, 5), file("b.log", 1, 10)];
    let mut retention = RetentionConfig::default();
    retention.max_total_size = Some("1".to_string());
    let options = CleanupOptions { max_age_days: Some(7), max_total_size: Some("1K".to_string()), ..CleanupOptions::default() };
    let plan = cleanup_plan(&retention, &options, &files);
    assert_eq!(paths(&files, &plan), vec!["b.log".to_string()]);
}

#[test]
fn delete_all_evicts_everything_oldest_first() {
    let files = vec![file("a.log", 1, 2), file("b.log", 1, 9), file("c.log", 1, 2)];
    let options = CleanupOptions { delete_all: true, ..CleanupOptions::default() };
    let plan = cleanup_plan(&RetentionConfig::default(), &options, &files);
    assert_eq!(paths(&files, &plan), vec!["b.log".to_string(), "a.log".to_string(), "c.log".to_string()]);
}

#[test]
fn dry_run_reports_what_a_real_sweep_deletes() {
    let files = vec![file("x.log", 3, 100), file("y.log", 5, 1), file("z.log", 7, 60)];
    let plan = plan_eviction(&files, 30, Some(4), false);
    let dry = cleanup_report(&files, &plan, true, &vec![]);
    let real = cleanup_report(&files, &plan, false, &vec![true; plan.len()]);
    assert_eq!(dry.would_delete, real.deleted);
    assert_eq!(dry.would_free, real.freed);
    assert!(dry.deleted.is_empty() && dry.freed == 0);
    assert!(real.would_delete.is_empty() && real.would_free == 0);
    assert_eq!(real.deleted, vec!["x.log".to_string(), "z.log".to_string(), "y.log".to_string()]);
    assert_eq!(real.freed, 15);
}

#[test]
fn failed_removals_are_not_reported() {
    let files = vec![file("x.log", 3, 100), file("z.log", 7, 60)];
    let plan = plan_eviction(&files, 30, None, false);
    let real = cleanup_report(&files, &plan, false, &vec![false, true]);
    assert_eq!(real.deleted, vec!["z.log".to_string()]);
    assert_eq!(real.freed, 7);
}

#[test]
fn sort_is_stable_and_oldest_first() {
    let files = vec![file("a", 0, 1), file("b", 0, 3), file("c", 0, 1), file("d", 0, 3)];
    assert_eq!(sort_oldest_first(&files), vec![1, 3, 0, 2]);
    assert!(sort_oldest_first(&vec![]).is_empty());
}

#[test]
fn parse_size_units() {
    assert_eq!(parse_size("500M"), Some(500 * MB));
    assert_eq!(parse_size("1G"), Some(1024 * MB));
    assert_eq!(parse_size("1GB"), Some(1024 * MB));
    assert_eq!(parse_size(" 2 kb "), Some(2048));
    assert_eq!(parse_size("1.5K"), Some(1536));
    assert_eq!(parse_size("10"), Some(10));
    assert_eq!(parse_size("1GG"), Some(1024 * MB));
}

#[test]
fn parse_size_rejects() {
    assert_eq!(parse_size("abc"), None);
    assert_eq!(parse_size("5B"), None);
    assert_eq!(parse_size(""), None);
    assert_eq!(parse_size("."), None);
    assert_eq!(parse_size("1.2.3M"), None);
}

#[test]
fn scale_decimal_rounds_down() {
    assert_eq!(scale_decimal("0.5", 3), Some(1));
    assert_eq!(scale_decimal("2.", 1024), Some(2048));
    assert_eq!(scale_decimal(".25", 1024), Some(256));
    assert_eq!(scale_decimal("99999999999999999999", 1), None);
}

#[test]
fn format_size_units() {
    assert_eq!(format_size(0), "0 B");
    assert_eq!(format_size(1023), "1023 B");
    assert_eq!(format_size(1024), "1.00 KB");
    assert_eq!(format_size(1536), "1.50 KB");
    assert_eq!(format_size(MB), "1.00 MB");
    assert_eq!(format_size(1536 * MB), "1.50 GB");
}

#[test]
fn format_size_matches_float_formatting() {
    for bytes in [1152u64, 1153, 2047, 10 * MB + 5, 3 * 1024 * MB + 123456, 5 * MB - 1] {
        let expected = if bytes >= 1024 * MB {
            format!("{:.2} GB", bytes as f64 / (1024.0 * 1024.0 * 1024.0))
        } else if bytes >= MB {
            format!("{:.2} MB", bytes as f64 / (1024.0 * 1024.0))
        } else {
            format!("{:.2} KB", bytes as f64 / 1024.0)
        };
        assert_eq!(format_size(bytes), expected);
    }
}

#[test]
fn stats_of_files() {
    let files = vec![file("a", 1, 5), file("b", 2, 10), file("c", 3, 10), file("d", 4, 1), file("e", 5, 1)];
    let s = stats(&files);
    assert_eq!(s.total_files, 5);
    assert_eq!(s.total_size, 15);
    assert_eq!(s.oldest_file.as_deref(), Some("c"));
    assert_eq!(s.newest_file.as_deref(), Some("d"));
    assert_eq!(s.files_by_age[1], ("b".to_string(), 2, 10));
    let empty = stats(&vec![]);
    assert_eq!(empty.total_files, 0);
    assert!(empty.oldest_file.is_none() && empty.newest_file.is_none());
}

#[test]
fn age_in_whole_days() {
    let day: u128 = 86_400_000_000_000;
    assert_eq!(age_days(10 * day, Some(3 * day + day / 2)), 6);
    assert_eq!(age_days(10 * day, Some(10 * day)), 0);
    assert_eq!(age_days(day, Some(2 * day)), 0);
    assert_eq!(age_days(day, None), 0);
}
