use bookmark_shelf::config::{bookmark_dir_under, config_file_under, default_bookmark_dir, Config};

#[test]
fn test_default_concurrency() {
    assert_eq!(Config::default().checker.concurrency, 20);
}

#[test]
fn test_default_timeout() {
    assert_eq!(Config::default().checker.timeout_secs, 10);
}

#[test]
fn test_default_follow_redirects() {
    assert!(Config::default().checker.follow_redirects);
}

#[test]
fn test_default_bookmark_dir_is_in_app_data() {
    let dir = Config::default().general.bookmark_dir;
    // Must be inside the platform app-data directory, not just ~/bookmarks
    assert!(
        dir.contains("bookmark-shelf") && dir.ends_with("bookmarks"),
        "expected '.../bookmark-shelf/bookmarks', got '{dir}'"
    );
}

#[test]
fn default_bookmark_dir_ends_with_app_folder() {
    assert!(default_bookmark_dir().ends_with("bookmark-shelf/bookmarks"));
}

#[test]
fn bookmark_dir_under_given_base() {
    assert_eq!(
        bookmark_dir_under(Some("/Users/alice/Library/Application Support".to_string()), '/'),
        "/Users/alice/Library/Application Support/bookmark-shelf/bookmarks"
    );
    assert_eq!(bookmark_dir_under(Some("/data/".to_string()), '/'), "/data/bookmark-shelf/bookmarks");
}

#[test]
fn bookmark_dir_under_fallback_base() {
    assert_eq!(bookmark_dir_under(None, '/'), "./bookmark-shelf/bookmarks");
}

#[test]
fn config_file_under_given_base() {
    assert_eq!(
        config_file_under(Some("/home/alice/.config".to_string()), '/'),
        "/home/alice/.config/bookmark-shelf/config.toml"
    );
    assert_eq!(config_file_under(None, '/'), "./bookmark-shelf/config.toml");
}

#[test]
fn config_path_is_in_app_folder() {
    assert!(Config::config_path().ends_with("bookmark-shelf/config.toml"));
}

#[test]
fn bookmark_dir_under_windows_base() {
    assert_eq!(
        bookmark_dir_under(Some("C:\\Users\\alice\\AppData\\Roaming".to_string()), '\\'),
        "C:\\Users\\alice\\AppData\\Roaming\\bookmark-shelf\\bookmarks"
    );
    assert_eq!(config_file_under(None, '\\'), ".\\bookmark-shelf\\config.toml");
}
