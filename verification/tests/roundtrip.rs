//! Import HTML → plan → directory tree → export HTML: no bookmark lost.
use bookmark_shelf::exporter::export_document;
use bookmark_shelf::fs::FsEntry;
use bookmark_shelf::importer::{import_plan, PlanEntry};
use bookmark_shelf::shortcut::shortcut_content;

/// The directory entries that writing a plan into an empty directory creates.
fn realize(plan: &[PlanEntry]) -> Vec<FsEntry> {
    plan.iter()
        .map(|e| match e {
            PlanEntry::Folder { name, entries } => FsEntry {
                name: name.clone(),
                is_dir: true,
                is_file: false,
                listed: true,
                modified: 1,
                content: None,
                children: realize(entries),
            },
            PlanEntry::Bookmark { name, url } => FsEntry {
                name: format!("{name}.url"),
                is_dir: false,
                is_file: true,
                listed: true,
                modified: 1,
                content: Some(shortcut_content(url)),
                children: vec![],
            },
        })
        .collect()
}

fn has_path(entries: &[FsEntry], path: &str) -> bool {
    match path.split_once('/') {
        None => entries.iter().any(|e| e.name == path),
        Some((head, rest)) => entries
            .iter()
            .any(|e| e.name == head && e.is_dir && has_path(&e.children, rest)),
    }
}

fn import_then_export(html: &str) -> (Vec<FsEntry>, String) {
    let plan = import_plan(html).unwrap();
    let dir = realize(&plan);
    let (exported, _) = export_document(realize(&plan)).unwrap();
    (dir, exported)
}

#[test]
fn roundtrip_all_urls_preserved() {
    let html = r#"<!DOCTYPE NETSCAPE-Bookmark-file-1>
<DL><p>
    <DT><A HREF="https://rust-lang.org">Rust</A>
    <DT><A HREF="https://github.com">GitHub</A>
    <DT><A HREF="https://example.com">Example</A>
</DL><p>"#;

    let (_dir, exported) = import_then_export(html);

    for url in &["https://rust-lang.org", "https://github.com", "https://example.com"] {
        assert!(exported.contains(url), "missing URL: {url}");
    }
}

#[test]
fn roundtrip_nested_folders_preserved() {
    let html = r#"<!DOCTYPE NETSCAPE-Bookmark-file-1>
<DL><p>
    <DT><H3>Level1</H3>
    <DL><p>
        <DT><H3>Level2</H3>
        <DL><p>
            <DT><A HREF="https://deep.example.com">Deep</A>
        </DL><p>
    </DL><p>
</DL><p>"#;

    let (dir, exported) = import_then_export(html);

    // Directory structure is correct
    assert!(has_path(&dir, "Level1/Level2/Deep.url"));

    // Exported HTML contains all the right pieces
    assert!(exported.contains("Level1"), "folder Level1 missing from export");
    assert!(exported.contains("Level2"), "folder Level2 missing from export");
    assert!(exported.contains("https://deep.example.com"), "URL missing from export");
}

#[test]
fn roundtrip_dirty_titles_survive() {
    // Titles with forbidden filesystem chars should be sanitized and still round-trip
    let html = r#"<!DOCTYPE NETSCAPE-Bookmark-file-1>
<DL><p>
    <DT><A HREF="https://a.com">C++ / Rust: The Book</A>
    <DT><A HREF="https://b.com">Q&amp;A Site</A>
</DL><p>"#;

    let (_dir, exported) = import_then_export(html);

    assert!(exported.contains("https://a.com"), "a.com URL missing");
    assert!(exported.contains("https://b.com"), "b.com URL missing");
}

#[test]
fn roundtrip_no_bookmark_loss() {
    let urls: Vec<String> = (1..=20).map(|i| format!("https://site{i}.example.com")).collect();

    let items: String = urls
        .iter()
        .enumerate()
        .map(|(i, u)| format!("    <DT><A HREF=\"{u}\">Site {i}</A>\n"))
        .collect();

    let html = format!("<!DOCTYPE NETSCAPE-Bookmark-file-1>\n<DL><p>\n{}</DL><p>", items);

    let (_dir, exported) = import_then_export(&html);

    for url in &urls {
        assert!(exported.contains(url.as_str()), "lost URL: {url}");
    }
}

#[test]
fn roundtrip_empty_export_is_valid_html() {
    let (content, _) = export_document(vec![]).unwrap();

    assert!(content.contains("<!DOCTYPE NETSCAPE-Bookmark-file-1>"));
    assert!(content.contains("<DL>"));
    assert!(content.contains("</DL>"));
}

#[test]
fn roundtrip_mixed_folders_and_bookmarks() {
    let html = r#"<!DOCTYPE NETSCAPE-Bookmark-file-1>
<DL><p>
    <DT><H3>Work</H3>
    <DL><p>
        <DT><A HREF="https://work1.com">Work1</A>
        <DT><A HREF="https://work2.com">Work2</A>
    </DL><p>
    <DT><H3>Personal</H3>
    <DL><p>
        <DT><A HREF="https://personal1.com">Personal1</A>
    </DL><p>
    <DT><A HREF="https://root.com">Root Bookmark</A>
</DL><p>"#;

    let (dir, exported) = import_then_export(html);

    // Structure on disk
    assert!(dir.iter().any(|e| e.name == "Work" && e.is_dir));
    assert!(dir.iter().any(|e| e.name == "Personal" && e.is_dir));
    assert!(has_path(&dir, "Work/Work1.url"));
    assert!(has_path(&dir, "Personal/Personal1.url"));
    assert!(has_path(&dir, "Root Bookmark.url"));

    // All URLs survive export
    for url in &["https://work1.com", "https://work2.com", "https://personal1.com", "https://root.com"] {
        assert!(exported.contains(url), "missing: {url}");
    }
}

#[test]
fn roundtrip_counts_match() {
    let html = r#"<DL><p>
    <DT><H3>Work</H3>
    <DL><p><DT><A HREF="https://w.com">W</A></DL><p>
    <DT><A HREF="https://r.com">R</A>
    <DT><A HREF="https://q.com/?a&amp;b">Q &amp; A</A>
</DL><p>"#;
    let plan = import_plan(html).unwrap();
    let stats = bookmark_shelf::importer::count_plan(&plan);
    let (exported, estats) = export_document(realize(&plan)).unwrap();
    assert_eq!((stats.folders, stats.bookmarks), (estats.folders, estats.bookmarks));
    assert!(exported.contains("<DT><A HREF=\"https://q.com/?a&amp;b\""));
}
