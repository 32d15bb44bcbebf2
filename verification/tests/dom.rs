use bookmark_shelf::dom::{build_tree, text_of, FlatNode, NodeKind};
use bookmark_shelf::importer::{plan_from_records, ImportError, PlanEntry};

fn element(name: &str, href: Option<&str>, kids: usize) -> FlatNode {
    FlatNode {
        kind: NodeKind::Element,
        name: name.to_string(),
        href: href.map(|h| h.to_string()),
        text: String::new(),
        kids,
    }
}

fn text(t: &str) -> FlatNode {
    FlatNode { kind: NodeKind::Text, name: String::new(), href: None, text: t.to_string(), kids: 0 }
}

/// `<dl><dt><a href="https://x.com">X <b>Y</b></a></dt></dl>` in document order.
fn records() -> Vec<FlatNode> {
    vec![
        element("dl", None, 1),
        element("dt", None, 1),
        element("a", Some("https://x.com"), 2),
        text("X "),
        element("b", None, 1),
        text("Y"),
    ]
}

#[test]
fn build_tree_rebuilds_nesting() {
    let t = build_tree(&records()).unwrap();
    assert_eq!(t.name, "dl");
    assert_eq!(t.children.len(), 1);
    let a = &t.children[0].children[0];
    assert_eq!(a.href.as_deref(), Some("https://x.com"));
    assert_eq!(text_of(a), "X Y");
}

#[test]
fn build_tree_refuses_incomplete_records() {
    let mut r = records();
    r.pop();
    assert!(build_tree(&r).is_none());
    let mut r = records();
    r.push(text("extra"));
    assert!(build_tree(&r).is_none());
    assert!(build_tree(&vec![]).is_none());
}

#[test]
fn plan_from_records_of_one_bookmark() {
    let plan = plan_from_records(&records()).unwrap();
    assert_eq!(plan.len(), 1);
    match &plan[0] {
        PlanEntry::Bookmark { name, url } => {
            assert_eq!(name, "X Y");
            assert_eq!(url, "https://x.com");
        }
        PlanEntry::Folder { .. } => panic!("expected a bookmark"),
    }
}

#[test]
fn plan_from_records_without_list_is_empty() {
    assert_eq!(plan_from_records(&vec![]).map(|p| p.len()), Ok(0));
}

#[test]
fn plan_from_records_malformed() {
    let r = vec![element("dl", None, 3), text("only one")];
    assert_eq!(plan_from_records(&r).err(), Some(ImportError::Malformed));
}

#[test]
fn folder_name_from_first_heading_and_nested_list() {
    // <dl><dt><h3>Work</h3><dl><dt><a href="u">W</a></dt></dl></dt><dt><h3> </h3></dt></dl>
    let r = vec![
        element("dl", None, 2),
        element("dt", None, 2),
        element("h3", None, 1),
        text("Work"),
        element("dl", None, 1),
        element("dt", None, 1),
        element("a", Some("u"), 1),
        text("W"),
        element("dt", None, 1),
        element("h3", None, 1),
        text(" "),
    ];
    let plan = plan_from_records(&r).unwrap();
    assert_eq!(plan.len(), 1);
    match &plan[0] {
        PlanEntry::Folder { name, entries } => {
            assert_eq!(name, "Work");
            assert_eq!(entries.len(), 1);
        }
        PlanEntry::Bookmark { .. } => panic!("expected a folder"),
    }
}
