use bookmark_shelf::checker::{
    canonical, collect_recursive, collect_urls, failure_result, response_result, CheckStatus,
};
use bookmark_shelf::fs::{FsEntry, Unreadable};

fn url_file(title: &str, url: &str) -> FsEntry {
    FsEntry {
        name: format!("{}.url", title),
        is_dir: false,
        is_file: true,
        listed: true,
        modified: 0,
        content: Some(format!("[InternetShortcut]\nURL={}\n", url)),
        children: vec![],
    }
}

fn plain_file(name: &str, content: Option<&str>) -> FsEntry {
    FsEntry {
        name: name.to_string(),
        is_dir: false,
        is_file: true,
        listed: true,
        modified: 0,
        content: content.map(|c| c.to_string()),
        children: vec![],
    }
}

fn folder(name: &str, children: Vec<FsEntry>) -> FsEntry {
    FsEntry {
        name: name.to_string(),
        is_dir: true,
        is_file: false,
        listed: true,
        modified: 0,
        content: None,
        children,
    }
}

#[test]
fn test_collect_flat() {
    let entries = vec![url_file("foo", "https://foo.com"), url_file("bar", "https://bar.com")];

    let mut items = Vec::new();
    collect_recursive(&entries, &mut items).unwrap();
    assert_eq!(items.len(), 2);
    let urls: Vec<_> = items.iter().map(|(_, u)| u.as_str()).collect();
    assert!(urls.contains(&"https://foo.com"));
    assert!(urls.contains(&"https://bar.com"));
}

#[test]
fn test_collect_recursive_subdirs() {
    let entries = vec![
        folder("sub", vec![url_file("deep", "https://deep.com")]),
        url_file("root", "https://root.com"),
    ];

    let mut items = Vec::new();
    collect_recursive(&entries, &mut items).unwrap();
    assert_eq!(items.len(), 2);
}

#[test]
fn test_collect_skips_files_without_url_key() {
    let entries = vec![plain_file("broken.url", Some("not a url file\n"))];

    let mut items = Vec::new();
    collect_recursive(&entries, &mut items).unwrap();
    assert_eq!(items.len(), 0);
}

#[test]
fn test_collect_ignores_non_url_files() {
    let entries = vec![plain_file("readme.txt", None), plain_file("image.png", None)];

    let mut items = Vec::new();
    collect_recursive(&entries, &mut items).unwrap();
    assert_eq!(items.len(), 0);
}

#[test]
fn collect_gives_stem_and_url_in_listing_order() {
    let entries = vec![
        url_file("zeta", "https://z.example"),
        folder("dir", vec![url_file("a.b", "  https://ab.example  ")]),
        url_file("alpha", "https://a.example"),
    ];
    let items = collect_urls(&entries).unwrap();
    assert_eq!(
        items,
        vec![
            ("zeta".to_string(), "https://z.example".to_string()),
            ("a.b".to_string(), "  https://ab.example".to_string()),
            ("alpha".to_string(), "https://a.example".to_string()),
        ]
    );
}

#[test]
fn collect_takes_first_url_line_only() {
    let entries =
        vec![plain_file("x.url", Some("[InternetShortcut]\r\n URL=https://one \r\nURL=https://two\n"))];
    let items = collect_urls(&entries).unwrap();
    assert_eq!(items, vec![("x".to_string(), "https://one".to_string())]);
}

#[test]
fn collect_dotfile_named_url_is_not_a_bookmark() {
    let entries = vec![plain_file(".url", Some("URL=https://hidden\n"))];
    assert_eq!(collect_urls(&entries).unwrap().len(), 0);
}

#[test]
fn collect_unreadable_shortcut_is_an_error() {
    let entries = vec![plain_file("gone.url", None)];
    assert_eq!(collect_urls(&entries), Err(Unreadable));
}

#[test]
fn collect_unlisted_directory_is_an_error() {
    let mut d = folder("locked", vec![]);
    d.listed = false;
    assert_eq!(collect_urls(&vec![d]), Err(Unreadable));
}

#[test]
fn canonical_strips_trailing_slashes() {
    assert_eq!(canonical("https://a.com/"), "https://a.com");
    assert_eq!(canonical("https://a.com///"), "https://a.com");
    assert_eq!(canonical("https://a.com/x"), "https://a.com/x");
    assert_eq!(canonical(""), "");
    assert_eq!(canonical("///"), "");
}

#[test]
fn response_200_same_url_is_ok() {
    let r = response_result("t".into(), "https://a.com".into(), 200, "https://a.com/".into());
    assert_eq!(r.status, CheckStatus::Okay);
    assert!(r.final_url.is_none());
    assert!(r.error.is_none());
    assert_eq!(r.title, "t");
    assert_eq!(r.url, "https://a.com");
}

#[test]
fn response_elsewhere_is_redirect() {
    let r = response_result("t".into(), "http://a.com".into(), 301, "https://b.com/".into());
    assert_eq!(r.status, CheckStatus::Redirect);
    assert_eq!(r.final_url.as_deref(), Some("https://b.com/"));
    assert!(r.error.is_none());
}

#[test]
fn response_404_is_broken() {
    let r = response_result("gone".into(), "https://a.com".into(), 404, "https://a.com".into());
    assert_eq!(r.status, CheckStatus::Broken);
    assert_eq!(r.error.as_deref(), Some("HTTP 404"));
    assert!(r.final_url.is_none());
}

#[test]
fn response_500_and_199_are_broken() {
    let r = response_result("e".into(), "https://a.com".into(), 500, "https://b.com".into());
    assert_eq!(r.status, CheckStatus::Broken);
    assert_eq!(r.error.as_deref(), Some("HTTP 500"));
    let r = response_result("e".into(), "https://a.com".into(), 199, "https://a.com".into());
    assert_eq!(r.status, CheckStatus::Broken);
    assert_eq!(r.error.as_deref(), Some("HTTP 199"));
    let r = response_result("e".into(), "https://a.com".into(), 400, "https://a.com".into());
    assert_eq!(r.error.as_deref(), Some("HTTP 400"));
}

#[test]
fn response_399_is_not_broken() {
    let r = response_result("e".into(), "https://a.com".into(), 399, "https://a.com".into());
    assert_eq!(r.status, CheckStatus::Okay);
}

#[test]
fn failure_timeout_and_error() {
    let r = failure_result("t".into(), "u".into(), true, "whatever".into());
    assert_eq!(r.status, CheckStatus::Timeout);
    assert_eq!(r.error.as_deref(), Some("Timeout"));
    assert!(r.final_url.is_none());
    let r = failure_result("t".into(), "u".into(), false, "connection refused".into());
    assert_eq!(r.status, CheckStatus::Error);
    assert_eq!(r.error.as_deref(), Some("connection refused"));
}

#[test]
fn canonical_is_idempotent() {
    for u in ["https://a.com//", "x/", "", "/"] {
        assert_eq!(canonical(canonical(u)), canonical(u));
    }
}
