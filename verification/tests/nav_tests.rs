use blorg::wiki::PageInfo;
use blorg::wiki::Wiki;
use blorg::Page;

fn info(title: &str, slug: &str, body: &str) -> PageInfo {
    PageInfo {
        title: title.to_string(),
        slug: slug.to_string(),
        markdown_content: body.to_string(),
        sidebar_markdown_content: String::new(),
    }
}

#[test]
fn scenario_nav_expands_active_branch() {
    let mut w = Wiki::new();
    let root = w.populate_default_root();
    let a = w
        .create_child_and_insert(Some(root), info("A", "a", "a"))
        .unwrap();
    let b = w.create_child_and_insert(Some(a), info("B", "b", "b")).unwrap();
    let _c = w.create_child_and_insert(Some(b), info("C", "c", "c")).unwrap();
    let nav = Page::build_nav_element(&w.pages, "a/b");
    let expected = "<ul><li><a href=\"/pages/\">/</a><ul><li>\u{2514}\u{2500}\u{2500}<a href=\"/pages/a/\">a/</a><ul><li>&nbsp;&nbsp;&nbsp;\u{2514}\u{2500}\u{2500}<a href=\"/pages/a/b/\">b/</a><ul><li>&nbsp;&nbsp;&nbsp;&nbsp;&nbsp;&nbsp;\u{2514}\u{2500}\u{2500}<a href=\"/pages/a/b/c\">c</a></li></ul></li></ul></li></ul></li></ul>";
    assert_eq!(nav, expected);
    // the subtree of a/b/c stays collapsed: its link is a leaf, with no
    // nested list after it
    assert!(nav.contains("<a href=\"/pages/a/b/c\">c</a></li>"));
    assert!(!nav.contains("<a href=\"/pages/a/b/c\">c</a><ul>"));
}

#[test]
fn nav_collapses_sibling_branches() {
    let mut w = Wiki::new();
    let root = w.populate_default_root();
    let a = w
        .create_child_and_insert(Some(root), info("A", "a", "a"))
        .unwrap();
    let _ab = w.create_child_and_insert(Some(a), info("AB", "b", "b")).unwrap();
    let x = w
        .create_child_and_insert(Some(root), info("X", "x", "x"))
        .unwrap();
    let _xy = w.create_child_and_insert(Some(x), info("XY", "y", "y")).unwrap();
    let nav = Page::build_nav_element(&w.pages, "a/b");
    // the active branch through a is expanded down to b
    assert!(nav.contains("<a href=\"/pages/a/\">a/</a><ul>"));
    assert!(nav.contains("<a href=\"/pages/a/b\">b</a>"));
    // the sibling branch through x stays a collapsed link: no nested list,
    // and its child y is nowhere in the output
    assert!(nav.contains("<a href=\"/pages/x/\">x/</a></li>"));
    assert!(!nav.contains("<a href=\"/pages/x/\">x/</a><ul>"));
    assert!(!nav.contains(">y<"));
    // a has a later sibling, so its connector is a branch, not a corner
    assert!(nav.contains("<li>\u{251c}\u{2500}\u{2500}<a href=\"/pages/a/\">a/</a>"));
    assert!(nav.contains("<li>\u{2514}\u{2500}\u{2500}<a href=\"/pages/x/\">x/</a>"));
}

#[test]
fn nav_for_root_shows_children_collapsed() {
    let mut w = Wiki::new();
    let root = w.populate_default_root();
    let a = w
        .create_child_and_insert(Some(root), info("A", "a", "a"))
        .unwrap();
    let _ab = w.create_child_and_insert(Some(a), info("AB", "b", "b")).unwrap();
    let nav = Page::build_nav_element(&w.pages, "");
    // the root is expanded, its child subtree is not
    assert!(nav.starts_with("<ul><li><a href=\"/pages/\">/</a><ul>"));
    assert!(nav.contains("<a href=\"/pages/a/\">a/</a></li>"));
    assert!(!nav.contains("<a href=\"/pages/a/\">a/</a><ul>"));
}
