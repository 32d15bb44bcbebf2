use bookmark_shelf::importer::{
    candidate_path, count_plan, import_plan, join_path_string, sanitize_name, settle, unique_path,
    NameStep, PlanEntry,
};
use bookmark_shelf::shortcut::shortcut_content;

const SIMPLE_HTML: &str = r#"<!DOCTYPE NETSCAPE-Bookmark-file-1>
<META HTTP-EQUIV="Content-Type" CONTENT="text/html; charset=UTF-8">
<TITLE>Bookmarks</TITLE><H1>Bookmarks</H1>
<DL><p>
    <DT><H3>Engineering</H3>
    <DL><p>
        <DT><A HREF="https://rust-lang.org">The Rust Language</A>
        <DT><A HREF="https://github.com">GitHub</A>
    </DL><p>
    <DT><A HREF="https://example.com">Example Site</A>
</DL><p>"#;

const NESTED_HTML: &str = r#"<!DOCTYPE NETSCAPE-Bookmark-file-1>
<DL><p>
    <DT><H3>A</H3>
    <DL><p>
        <DT><H3>B</H3>
        <DL><p>
            <DT><H3>C</H3>
            <DL><p>
                <DT><A HREF="https://deep.example.com">Deep</A>
            </DL><p>
        </DL><p>
    </DL><p>
</DL><p>"#;

const DIRTY_HTML: &str = r#"<!DOCTYPE NETSCAPE-Bookmark-file-1>
<DL><p>
    <DT><A HREF="https://a.com">title/with:slash*and?more"chars<>|</A>
    <DT><A HREF="https://b.com">  leading trailing spaces  </A>
    <DT><A HREF="">no url bookmark</A>
    <DT><H3>  </H3>
</DL><p>"#;

/// The paths (relative, `/`-separated) that materializing a plan without collisions
/// creates, folders with a trailing `/`.
fn paths(plan: &[PlanEntry], prefix: &str, out: &mut Vec<String>) {
    for e in plan {
        match e {
            PlanEntry::Folder { name, entries } => {
                out.push(format!("{prefix}{name}/"));
                paths(entries, &format!("{prefix}{name}/"), out);
            }
            PlanEntry::Bookmark { name, .. } => out.push(format!("{prefix}{name}.url")),
        }
    }
}

fn all_paths(plan: &[PlanEntry]) -> Vec<String> {
    let mut out = Vec::new();
    paths(plan, "", &mut out);
    out
}

fn url_of(plan: &[PlanEntry], title: &str) -> Option<String> {
    plan.iter().find_map(|e| match e {
        PlanEntry::Bookmark { name, url } if name == title => Some(url.clone()),
        _ => None,
    })
}

#[test]
fn test_flat_and_nested_import() {
    let plan = import_plan(SIMPLE_HTML).unwrap();
    let stats = count_plan(&plan);

    assert_eq!(stats.folders, 1);
    assert_eq!(stats.bookmarks, 3);
    let p = all_paths(&plan);
    assert!(p.contains(&"Engineering/".to_string()));
    assert!(p.contains(&"Engineering/The Rust Language.url".to_string()));
    assert!(p.contains(&"Engineering/GitHub.url".to_string()));
    assert!(p.contains(&"Example Site.url".to_string()));
}

#[test]
fn test_url_file_content() {
    let plan = import_plan(SIMPLE_HTML).unwrap();
    let url = url_of(&plan, "Example Site").unwrap();
    let content = shortcut_content(&url);
    assert!(content.contains("URL=https://example.com"));
}

#[test]
fn test_three_level_nesting() {
    let plan = import_plan(NESTED_HTML).unwrap();
    let stats = count_plan(&plan);

    assert_eq!(stats.folders, 3);
    assert_eq!(stats.bookmarks, 1);
    assert!(all_paths(&plan).contains(&"A/B/C/Deep.url".to_string()));
}

#[test]
fn test_dirty_titles_sanitized() {
    let plan = import_plan(DIRTY_HTML).unwrap();
    let stats = count_plan(&plan);

    // 2 valid bookmarks (empty URL and blank folder name skipped)
    assert_eq!(stats.bookmarks, 2);
    assert_eq!(stats.folders, 0);

    for name in all_paths(&plan) {
        for ch in ['\\', ':', '*', '?', '"', '<', '>', '|'] {
            assert!(!name.contains(ch), "forbidden char {ch:?} in {name}");
        }
        assert!(!name.trim_end_matches('/').contains('/'), "slash in {name}");
    }
}

#[test]
fn test_empty_html_no_panic() {
    let plan = import_plan("<html><body></body></html>").unwrap();
    let stats = count_plan(&plan);
    assert_eq!(stats.bookmarks, 0);
    assert_eq!(stats.folders, 0);
}

#[test]
fn test_sanitize_name_forbidden_chars() {
    let forbidden = ['/', '\\', ':', '*', '?', '"', '<', '>', '|'];
    for ch in forbidden {
        let input = format!("pre{ch}post");
        let result = sanitize_name(&input);
        assert_eq!(result, "pre_post", "char {ch:?} should be replaced");
    }
}

#[test]
fn test_sanitize_name_truncates_at_200() {
    let long = "a".repeat(300);
    assert_eq!(sanitize_name(&long).len(), 200);
}

#[test]
fn test_sanitize_name_trims_whitespace() {
    assert_eq!(sanitize_name("  hello  "), "hello");
    assert_eq!(sanitize_name("\ttab\t"), "tab");
}

#[test]
fn sanitize_cuts_at_200_characters() {
    // Two-byte characters: 150 of them are within the limit and kept whole.
    let s = "é".repeat(150);
    assert_eq!(sanitize_name(&s), s);
    let s = "é".repeat(250);
    let r = sanitize_name(&s);
    assert_eq!(r.chars().count(), 200);
    assert_eq!(r, "é".repeat(200));
}

#[test]
fn sanitize_keeps_wide_titles() {
    // 70 three-byte characters (210 bytes) are 70 characters: kept whole.
    let s = "あ".repeat(70);
    assert_eq!(sanitize_name(&s), s);
    let s = "あ".repeat(201);
    assert_eq!(sanitize_name(&s), "あ".repeat(200));
}

#[test]
fn sanitize_trims_after_replacing() {
    assert_eq!(sanitize_name(" a/b "), "a_b");
    assert_eq!(sanitize_name("\u{3000}full width space\u{3000}"), "full width space");
    assert_eq!(sanitize_name("   "), "");
}

#[test]
fn import_title_falls_back_to_url() {
    let html = "<DL><p><DT><A HREF=\"https://x.com/a?b\">  </A></DL>";
    let plan = import_plan(html).unwrap();
    assert_eq!(all_paths(&plan), vec!["https___x.com_a_b.url".to_string()]);
}

#[test]
fn import_decodes_entities_in_titles_and_urls() {
    let html = "<DL><p><DT><A HREF=\"https://b.com/?a=1&amp;b=2\">Q&amp;A Site</A></DL>";
    let plan = import_plan(html).unwrap();
    assert_eq!(url_of(&plan, "Q&A Site").as_deref(), Some("https://b.com/?a=1&b=2"));
}

#[test]
fn import_keeps_wide_title() {
    let title = "あ".repeat(70);
    let html = format!("<DL><p><DT><A HREF=\"https://a.com\">{title}</A></DL><p>");
    let plan = import_plan(&html).unwrap();
    assert_eq!(all_paths(&plan), vec![format!("{title}.url")]);
    let stats = count_plan(&plan);
    assert_eq!(stats.bookmarks, 1);
}

#[test]
fn import_blank_folder_keeps_its_bookmarks() {
    let html = "<DL><p>\n<DT><H3>  </H3>\n<DL><p>\n<DT><A HREF=\"https://x.com\">X</A>\n</DL><p>\n</DL><p>";
    let plan = import_plan(html).unwrap();
    assert_eq!(all_paths(&plan), vec!["X.url".to_string()]);
    assert_eq!(url_of(&plan, "X").as_deref(), Some("https://x.com"));
    let stats = count_plan(&plan);
    assert_eq!(stats.folders, 0);
    assert_eq!(stats.bookmarks, 1);
}

#[test]
fn candidate_paths() {
    assert_eq!(candidate_path("/tmp/d", "dup", 1, false, '/'), "/tmp/d/dup.url");
    assert_eq!(candidate_path("/tmp/d/", "dup", 2, false, '/'), "/tmp/d/dup (2).url");
    assert_eq!(candidate_path("/tmp/d", "Work", 12, true, '/'), "/tmp/d/Work (12)");
    assert_eq!(candidate_path("", "x", 1, true, '/'), "x");
}

#[test]
fn join_path_as_posix() {
    assert_eq!(join_path_string("a", "b", '/'), "a/b");
    assert_eq!(join_path_string("a/", "b", '/'), "a/b");
    assert_eq!(join_path_string("", "b", '/'), "b");
    assert_eq!(join_path_string("a", "/b", '/'), "/b");
}

#[test]
fn join_path_with_windows_separator() {
    assert_eq!(join_path_string("C:\\Users\\a", "b", '\\'), "C:\\Users\\a\\b");
    assert_eq!(join_path_string("C:\\Users\\a\\", "b", '\\'), "C:\\Users\\a\\b");
    assert_eq!(join_path_string("C:/Users/a/", "b", '\\'), "C:/Users/a/b");
    assert_eq!(
        candidate_path("C:\\d", "dup", 2, false, '\\'),
        "C:\\d\\dup (2).url"
    );
}

#[test]
fn test_unique_path_avoids_collision() {
    // `src` exists in the crate's directory, where tests run; `src (2)` does not.
    let p2 = unique_path(".", "src", true).unwrap();
    assert_eq!(p2, "./src (2)");

    let fresh = unique_path("./no-such-directory-here", "dup", false).unwrap();
    assert_eq!(fresh, "./no-such-directory-here/dup.url");

    // With `dup.url` taken, the next candidate is `dup (2).url`; with that taken too,
    // `dup (3).url`.
    assert_eq!(settle(1, true), NameStep::Next(2));
    assert_eq!(candidate_path(".", "dup", 2, false, '/'), "./dup (2).url");
    assert_eq!(settle(2, false), NameStep::Use(2));
    assert_eq!(settle(2, true), NameStep::Next(3));
    assert_eq!(candidate_path(".", "dup", 3, false, '/'), "./dup (3).url");
    assert_eq!(settle(3, false), NameStep::Use(3));
}

#[test]
fn settle_steps() {
    assert_eq!(settle(1, false), NameStep::Use(1));
    assert_eq!(settle(5, true), NameStep::Next(6));
    assert_eq!(settle(2147483647, true), NameStep::Exhausted);
    assert_eq!(settle(2147483647, false), NameStep::Use(2147483647));
    assert_eq!(candidate_path("/d", "Engineering", 2, true, '/'), "/d/Engineering (2)");
}
