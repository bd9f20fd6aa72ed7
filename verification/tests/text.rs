use acme_disk_use::logger::{format_line, format_timestamp};
use acme_disk_use::{get_default_cache_path, CacheLocation};

#[test]
fn test_default_cache_path() {
    let default_path = get_default_cache_path(None, Some("/home/user".to_string()));

    // Should end with cache.bin
    assert!(default_path.file_name.ends_with("cache.bin"));

    // Should be different from just "cache.bin" unless we're in fallback mode
    assert!(default_path.base.starts_with('/') || default_path.file_name.ends_with("cache.bin"));
}

#[test]
fn the_cache_directory_of_the_environment_comes_first() {
    let CacheLocation { base, below, file_name, create_dir } =
        get_default_cache_path(Some("/var/cache".to_string()), Some("/home/user".to_string()));
    assert_eq!(base, "/var/cache");
    assert!(below.is_empty());
    assert_eq!(file_name, "cache.bin");
    assert!(!create_dir);
}

#[test]
fn the_home_directory_comes_second() {
    let CacheLocation { base, below, file_name, create_dir } =
        get_default_cache_path(None, Some("/home/user".to_string()));
    assert_eq!(base, "/home/user");
    assert_eq!(below, vec![".cache".to_string(), "acme-disk-use".to_string()]);
    assert_eq!(file_name, "cache.bin");
    assert!(!create_dir);
}

#[test]
fn without_a_home_the_cache_lies_under_the_working_directory() {
    let CacheLocation { base, below, file_name, create_dir } = get_default_cache_path(None, None);
    assert_eq!(base, "./.cache/acme-disk-use");
    assert!(below.is_empty());
    assert_eq!(file_name, "cache.bin");
    assert!(create_dir);
}

#[test]
fn timestamps_are_shown_in_seconds() {
    assert_eq!(format_timestamp(0), "timestamp:0");
    assert_eq!(format_timestamp(1700000000), "timestamp:1700000000");
    assert_eq!(format_timestamp(u64::MAX), "timestamp:18446744073709551615");
}

#[test]
fn a_log_line_holds_time_level_and_message() {
    assert_eq!(format_line(42, "INFO", "scan done"), "[timestamp:42] INFO - scan done");
    assert_eq!(format_line(7, "WARN", ""), "[timestamp:7] WARN - ");
}
