use bookmark_shelf::exporter::{export_document, html_escape};
use bookmark_shelf::fs::{FsEntry, Unreadable};

fn url_file(name: &str, content: &str, modified: i64) -> FsEntry {
    FsEntry {
        name: name.to_string(),
        is_dir: false,
        is_file: true,
        listed: true,
        modified,
        content: Some(content.to_string()),
        children: vec![],
    }
}

fn folder(name: &str, children: Vec<FsEntry>, modified: i64) -> FsEntry {
    FsEntry {
        name: name.to_string(),
        is_dir: true,
        is_file: false,
        listed: true,
        modified,
        content: None,
        children,
    }
}

// root/
//   Engineering/
//     Rust.url
//     GitHub.url
//   Example.url
fn make_dir_tree() -> Vec<FsEntry> {
    vec![
        folder(
            "Engineering",
            vec![
                url_file("Rust.url", "[InternetShortcut]\nURL=https://rust-lang.org\n", 1),
                url_file("GitHub.url", "[InternetShortcut]\nURL=https://github.com\n", 2),
            ],
            3,
        ),
        url_file("Example.url", "[InternetShortcut]\nURL=https://example.com\n", 4),
    ]
}

#[test]
fn test_export_doctype_and_structure() {
    let (html, _) = export_document(make_dir_tree()).unwrap();
    assert!(html.starts_with("<!DOCTYPE NETSCAPE-Bookmark-file-1>"));
    assert!(html.contains("<DL>"));
    assert!(html.contains("</DL>"));
}

#[test]
fn test_export_stats() {
    let (_, stats) = export_document(make_dir_tree()).unwrap();
    assert_eq!(stats.folders, 1);
    assert_eq!(stats.bookmarks, 3);
}

#[test]
fn test_export_contains_all_urls() {
    let (html, _) = export_document(make_dir_tree()).unwrap();

    assert!(html.contains("https://rust-lang.org"), "rust url missing");
    assert!(html.contains("https://github.com"), "github url missing");
    assert!(html.contains("https://example.com"), "example url missing");
    assert!(html.contains("Engineering"), "folder name missing");
    assert!(html.contains("Rust"), "bookmark title missing");
}

#[test]
fn test_export_empty_dir_no_crash() {
    let (_, stats) = export_document(vec![]).unwrap();
    assert_eq!(stats.bookmarks, 0);
    assert_eq!(stats.folders, 0);
}

#[test]
fn test_export_url_file_without_url_key_skipped() {
    let entries = vec![url_file("bad.url", "not a url file content\n", 0)];
    let (_, stats) = export_document(entries).unwrap();
    assert_eq!(stats.bookmarks, 0);
}

#[test]
fn test_html_escape_ampersand() {
    assert_eq!(html_escape("a&b"), "a&amp;b");
}

#[test]
fn test_html_escape_brackets() {
    assert_eq!(html_escape("<script>"), "&lt;script&gt;");
}

#[test]
fn test_html_escape_quote() {
    assert_eq!(html_escape("say \"hi\""), "say &quot;hi&quot;");
}

#[test]
fn test_html_escape_no_change_plain() {
    assert_eq!(html_escape("hello world"), "hello world");
}

#[test]
fn html_escape_does_not_escape_twice() {
    assert_eq!(html_escape("&amp;"), "&amp;amp;");
    assert_eq!(html_escape(""), "");
}

#[test]
fn export_exact_document() {
    let (html, _) = export_document(make_dir_tree()).unwrap();
    let expected = "<!DOCTYPE NETSCAPE-Bookmark-file-1>\n\
<!-- This is an automatically generated file.\n\
It will be read and overwritten.\n\
DO NOT EDIT! -->\n\
<META HTTP-EQUIV=\"Content-Type\" CONTENT=\"text/html; charset=UTF-8\">\n\
<meta http-equiv=\"Content-Security-Policy\"\n\
content=\"default-src 'self'; script-src 'none'; img-src * data:\">\n\
<TITLE>Bookmarks</TITLE>\n\
<H1>Bookmarks</H1>\n\
<DL><p>\n    <DT><H3 ADD_DATE=\"3\">Engineering</H3>\n    <DL><p>\n        <DT><A HREF=\"https://github.com\" ADD_DATE=\"2\">GitHub</A>\n        <DT><A HREF=\"https://rust-lang.org\" ADD_DATE=\"1\">Rust</A>\n    </DL><p>\n    <DT><A HREF=\"https://example.com\" ADD_DATE=\"4\">Example</A>\n</DL><p>\n";
    assert_eq!(html, expected);
}

#[test]
fn export_sorts_by_code_point_and_escapes() {
    let entries = vec![
        url_file("b.url", "URL=https://b.com/?x=1&y=<2>\n", -5),
        url_file("B.url", "URL=https://B.com\n", 0),
        url_file("a\"q.url.url", "URL=https://a.com\n", 7),
        url_file("notes.txt", "URL=https://ignored.com\n", 0),
    ];
    let (html, stats) = export_document(entries).unwrap();
    assert_eq!(stats.bookmarks, 3);
    let body: Vec<&str> = html.lines().skip(10).collect();
    assert_eq!(body[0], "    <DT><A HREF=\"https://B.com\" ADD_DATE=\"0\">B</A>");
    assert_eq!(body[1], "    <DT><A HREF=\"https://a.com\" ADD_DATE=\"7\">a&quot;q</A>");
    assert_eq!(
        body[2],
        "    <DT><A HREF=\"https://b.com/?x=1&amp;y=&lt;2&gt;\" ADD_DATE=\"-5\">b</A>"
    );
    assert_eq!(body[3], "</DL><p>");
}

#[test]
fn export_unreadable_shortcut_is_an_error() {
    let mut f = url_file("gone.url", "", 0);
    f.content = None;
    assert_eq!(export_document(vec![f]).err(), Some(Unreadable));
}

#[test]
fn export_nested_folder_indentation_and_count() {
    let entries = vec![folder("A", vec![folder("B", vec![], 9)], 8)];
    let (html, stats) = export_document(entries).unwrap();
    assert_eq!(stats.folders, 2);
    assert!(html.contains("        <DT><H3 ADD_DATE=\"9\">B</H3>\n        <DL><p>\n        </DL><p>\n"));
}

#[test]
fn escaped_text_has_no_markup() {
    let out = html_escape("<a href=\"x\">Tom & Jerry</a> &lt;");
    assert!(!out.contains('<') && !out.contains('>') && !out.contains('"'));
    for (i, _) in out.match_indices('&') {
        let rest = &out[i..];
        assert!(
            rest.starts_with("&amp;")
                || rest.starts_with("&lt;")
                || rest.starts_with("&gt;")
                || rest.starts_with("&quot;")
        );
    }
    assert_eq!(
        out,
        "&lt;a href=&quot;x&quot;&gt;Tom &amp; Jerry&lt;/a&gt; &amp;lt;"
    );
}
