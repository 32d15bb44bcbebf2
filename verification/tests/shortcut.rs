use bookmark_shelf::shortcut::{shortcut_content, shortcut_url};
use bookmark_shelf::tree::{dir_node, read_url};
use bookmark_shelf::fs::FsEntry;

#[test]
fn shortcut_content_format() {
    assert_eq!(shortcut_content("https://x.com"), "[InternetShortcut]\nURL=https://x.com\n");
}

#[test]
fn shortcut_roundtrip_trims_trailing_whitespace() {
    for url in ["https://x.com", "https://x.com/a b", "  lead", "tail  ", ""] {
        let back = shortcut_url(&shortcut_content(url));
        assert_eq!(back.as_deref(), Some(url.trim_end()));
    }
}

#[test]
fn shortcut_url_missing_key() {
    assert_eq!(shortcut_url("[InternetShortcut]\nICONINDEX=0\n"), None);
    assert_eq!(shortcut_url(""), None);
    assert_eq!(shortcut_url("xURL=a\n  URL=b  \n"), Some("b".to_string()));
}

#[test]
fn tree_view_url_strips_repeated_keys() {
    assert_eq!(read_url(&Some("URL=URL=x\n".to_string())), "x");
    assert_eq!(read_url(&None), "");
    assert_eq!(read_url(&Some("nothing".to_string())), "");
}

fn entry(name: &str, is_dir: bool, content: Option<&str>, children: Vec<FsEntry>) -> FsEntry {
    FsEntry {
        name: name.to_string(),
        is_dir,
        is_file: !is_dir,
        listed: true,
        modified: 0,
        content: content.map(|c| c.to_string()),
        children,
    }
}

#[test]
fn tree_view_folders_first_then_by_name() {
    let root = entry(
        "shelf",
        true,
        None,
        vec![
            entry("b.url", false, Some("URL=https://b\n"), vec![]),
            entry("z", true, None, vec![]),
            entry("a.url", false, None, vec![]),
            entry("notes.txt", false, None, vec![]),
            entry("m", true, None, vec![entry("in.url", false, Some("URL=https://in\n"), vec![])]),
        ],
    );
    let t = dir_node(root, "/home/u/shelf".to_string(), '/').unwrap();
    assert!(t.is_folder);
    assert_eq!(t.name, "shelf");
    let names: Vec<&str> = t.children.iter().map(|c| c.name.as_str()).collect();
    assert_eq!(names, vec!["m", "z", "a", "b"]);
    assert_eq!(t.children[0].path, "/home/u/shelf/m");
    assert_eq!(t.children[0].children[0].path, "/home/u/shelf/m/in.url");
    assert_eq!(t.children[0].children[0].url, "https://in");
    assert_eq!(t.children[2].url, "");
    assert_eq!(t.children[3].url, "https://b");
    assert!(!t.children[3].is_folder);
}

#[test]
fn tree_view_skips_other_files() {
    assert!(dir_node(entry("readme.txt", false, None, vec![]), "readme.txt".to_string(), '/').is_none());
    let mut locked = entry("locked", true, None, vec![]);
    locked.listed = false;
    assert!(dir_node(locked, "locked".to_string(), '/').is_none());
}
