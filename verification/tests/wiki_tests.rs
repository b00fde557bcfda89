use blorg::page_store::WikiError;
use blorg::revision_log::RevisionLog;
use blorg::wiki::get_latest_revision;
use blorg::wiki::PageInfo;
use blorg::wiki::Wiki;
use blorg::Page;

fn info(title: &str, slug: &str, body: &str, sidebar: &str) -> PageInfo {
    PageInfo {
        title: title.to_string(),
        slug: slug.to_string(),
        markdown_content: body.to_string(),
        sidebar_markdown_content: sidebar.to_string(),
    }
}

#[test]
fn scenario_create_and_resolve() {
    let mut w = Wiki::new();
    let root = w.populate_default_root();
    let id = w
        .create_child_and_insert(Some(root), info("Intro", "intro", "hello", ""))
        .unwrap();
    let page = Page::from_path(&w.pages, "intro").unwrap();
    assert_eq!(page.id, id);
    assert_eq!(page.title, "Intro");
    assert_eq!(page.slug, "intro");
    assert_eq!(page.parent_id, Some(root));
}

#[test]
fn root_path_is_empty() {
    let mut w = Wiki::new();
    let root = w.populate_default_root();
    assert_eq!(blorg::path_codec::id2path(&w.pages, root).unwrap(), "");
    let page = Page::from_path(&w.pages, "").unwrap();
    assert_eq!(page.id, root);
}

#[test]
fn path_round_trip() {
    let mut w = Wiki::new();
    let root = w.populate_default_root();
    let a = w
        .create_child_and_insert(Some(root), info("A", "a", "a body", ""))
        .unwrap();
    let b = w
        .create_child_and_insert(Some(a), info("B", "b", "b body", ""))
        .unwrap();
    let c = w
        .create_child_and_insert(Some(b), info("C", "c", "c body", ""))
        .unwrap();
    for id in [root, a, b, c] {
        let path = blorg::path_codec::id2path(&w.pages, id).unwrap();
        let page = Page::from_path(&w.pages, path.as_str()).unwrap();
        assert_eq!(page.id, id);
    }
    assert_eq!(blorg::path_codec::id2path(&w.pages, b).unwrap(), "a/b");
    assert_eq!(blorg::path_codec::id2path(&w.pages, c).unwrap(), "a/b/c");
}

#[test]
fn scenario_edit_revisions() {
    let mut w = Wiki::new();
    let root = w.populate_default_root();
    let id = w
        .create_child_and_insert(Some(root), info("Intro", "intro", "v1", ""))
        .unwrap();
    w.edit_and_update("intro", info("Intro", "intro", "v2", ""))
        .unwrap();
    let latest = w.revisions.get_nth_revision(id, None).unwrap();
    assert_eq!(latest.markdown_content, "v2");
    let first = w.revisions.get_nth_revision(id, Some(0)).unwrap();
    assert_eq!(first.markdown_content, "v1");
    assert!(w.revisions.is_latest(Some(1), id));
    assert!(!w.revisions.is_latest(Some(0), id));
    assert!(w.revisions.is_latest(None, id));
}

#[test]
fn append_is_monotonic() {
    let mut log = RevisionLog::new();
    let r1 = log.append(7, "one".to_string(), "".to_string());
    let r2 = log.append(7, "two".to_string(), "".to_string());
    let r3 = log.append(7, "three".to_string(), "".to_string());
    assert!(r1.unix_time <= r2.unix_time && r2.unix_time <= r3.unix_time);
    assert_eq!(log.get_nth_revision(7, None).unwrap().markdown_content, "three");
    assert_eq!(log.get_nth_revision(7, Some(0)).unwrap().markdown_content, "one");
    assert_eq!(log.get_nth_revision(7, Some(1)).unwrap().markdown_content, "two");
    assert!(log.is_latest(Some(2), 7));
    assert!(!log.is_latest(Some(0), 7));
    assert!(!log.is_latest(Some(1), 7));
    assert!(log.is_latest(None, 7));
}

#[test]
fn delete_cascades_everywhere() {
    let mut w = Wiki::new();
    let root = w.populate_default_root();
    let a = w
        .create_child_and_insert(Some(root), info("A", "a", "a body", ""))
        .unwrap();
    let b = w
        .create_child_and_insert(Some(a), info("B", "b", "b body", ""))
        .unwrap();
    let c = w
        .create_child_and_insert(Some(b), info("C", "c", "c body", ""))
        .unwrap();
    let x = w
        .create_child_and_insert(Some(root), info("X", "x", "x body", ""))
        .unwrap();
    w.delete("a/b").unwrap();
    // b and c are gone from every store; a and x survive
    assert!(matches!(
        Page::from_path(&w.pages, "a/b"),
        Err(WikiError::PageNotFound)
    ));
    assert!(matches!(
        Page::from_path(&w.pages, "a/b/c"),
        Err(WikiError::PageNotFound)
    ));
    assert!(Page::from_path(&w.pages, "a").is_ok());
    assert!(Page::from_path(&w.pages, "x").is_ok());
    for gone in [b, c] {
        assert!(matches!(
            w.revisions.get_nth_revision(gone, None),
            Err(WikiError::RevisionNotFound)
        ));
        assert!(w.search.run_search("body").iter().all(|h| h.id != gone));
    }
    assert!(w.revisions.get_nth_revision(a, None).is_ok());
    assert!(w.revisions.get_nth_revision(x, None).is_ok());
}

#[test]
fn root_delete_forbidden() {
    let mut w = Wiki::new();
    let root = w.populate_default_root();
    let a = w
        .create_child_and_insert(Some(root), info("A", "a", "a body", ""))
        .unwrap();
    let pages_before = w.pages.len();
    let revs_before = w.revisions.len();
    let search_before = w.search.len();
    assert!(matches!(
        w.delete(""),
        Err(WikiError::RootDeletionForbidden)
    ));
    assert_eq!(w.pages.len(), pages_before);
    assert_eq!(w.revisions.len(), revs_before);
    assert_eq!(w.search.len(), search_before);
    assert!(Page::from_path(&w.pages, "a").is_ok());
    let _ = a;
}

#[test]
fn create_root_via_create_child() {
    let mut w = Wiki::new();
    let root = w
        .create_child_and_insert(None, info("Root", "", "Default root", ""))
        .unwrap();
    assert_eq!(blorg::path_codec::id2path(&w.pages, root).unwrap(), "");
    // a second parentless page is refused
    assert!(matches!(
        w.create_child_and_insert(None, info("Again", "", "body", "")),
        Err(WikiError::PageNotFound)
    ));
}

#[test]
fn slug_validation_errors() {
    let mut w = Wiki::new();
    let root = w.populate_default_root();
    assert!(matches!(
        w.create_child_and_insert(Some(root), info("Bad", "bad slug!", "b", "")),
        Err(WikiError::SlugInvalid)
    ));
    assert!(matches!(
        w.create_child_and_insert(Some(root), info("Empty", "", "b", "")),
        Err(WikiError::SlugInvalid)
    ));
    w.create_child_and_insert(Some(root), info("A", "a", "b", ""))
        .unwrap();
    assert!(matches!(
        w.create_child_and_insert(Some(root), info("A again", "a", "b", "")),
        Err(WikiError::SlugConflict)
    ));
    assert!(matches!(
        w.create_child_and_insert(Some(12345), info("Nowhere", "nw", "b", "")),
        Err(WikiError::PageNotFound)
    ));
}

#[test]
fn revision_not_found() {
    let log = RevisionLog::new();
    assert!(matches!(
        log.get_nth_revision(3, None),
        Err(WikiError::RevisionNotFound)
    ));
    let mut log = RevisionLog::new();
    log.append(3, "one".to_string(), "".to_string());
    assert!(matches!(
        log.get_nth_revision(3, Some(1)),
        Err(WikiError::RevisionNotFound)
    ));
    assert!(!log.is_latest(Some(1), 3));
}

#[test]
fn delete_nth_revision_removes_one() {
    let mut log = RevisionLog::new();
    log.append(4, "one".to_string(), "".to_string());
    log.append(4, "two".to_string(), "".to_string());
    log.append(9, "other".to_string(), "".to_string());
    log.delete_nth_revision(4, Some(0)).unwrap();
    assert_eq!(log.get_nth_revision(4, Some(0)).unwrap().markdown_content, "two");
    assert!(matches!(
        log.get_nth_revision(4, Some(1)),
        Err(WikiError::RevisionNotFound)
    ));
    assert_eq!(log.get_nth_revision(9, None).unwrap().markdown_content, "other");
    assert!(matches!(
        log.delete_nth_revision(4, Some(5)),
        Err(WikiError::RevisionNotFound)
    ));
}

#[test]
fn markdown_is_rendered() {
    let mut w = Wiki::new();
    let root = w.populate_default_root();
    let id = w
        .create_child_and_insert(Some(root), info("Intro", "intro", "hello *world*", ""))
        .unwrap();
    let rev = get_latest_revision(id, &w.revisions).unwrap();
    assert_eq!(rev.html_content, "<p>hello <em>world</em></p>\n");
    assert_eq!(rev.markdown_content, "hello *world*");
    // strikethrough extension is enabled
    let mut w2 = Wiki::new();
    let root2 = w2.populate_default_root();
    let id2 = w2
        .create_child_and_insert(Some(root2), info("S", "s", "~~gone~~", ""))
        .unwrap();
    let rev2 = get_latest_revision(id2, &w2.revisions).unwrap();
    assert_eq!(rev2.html_content, "<p><del>gone</del></p>\n");
}

#[test]
fn download_markdown_keeps_sidebar_verbatim() {
    let bar = "-".repeat(80);
    let title = "T".to_string();
    let body = "body text".to_string();
    // an empty sidebar is appended as-is: the document ends after the
    // blank lines, with no placeholder
    let doc = blorg::util::download_markdown(&title, &body, &"".to_string());
    assert_eq!(doc, format!("# T\n{bar}\n\nbody text\n\n{bar}\n\n"));
    let doc2 = blorg::util::download_markdown(&title, &body, &"notes".to_string());
    assert_eq!(doc2, format!("# T\n{bar}\n\nbody text\n\n{bar}\n\nnotes"));
    // the placeholder variant differs exactly on the empty-sidebar input
    let raw = blorg::util::page2raw(&title, &body, &"".to_string());
    assert_ne!(doc, raw);
}

#[test]
fn page2raw_format() {
    let bar = "-".repeat(80);
    let title = "T".to_string();
    let body = "body text".to_string();
    let sidebar = "notes".to_string();
    let raw = blorg::util::page2raw(&title, &body, &sidebar);
    assert_eq!(raw, format!("# T\n{bar}\n\nbody text\n\n{bar}\n\nnotes"));
    let raw2 = blorg::util::page2raw(&title, &body, &"".to_string());
    assert_eq!(
        raw2,
        format!("# T\n{bar}\n\nbody text\n\n{bar}\n\nThis page without sidenotes.")
    );
}

#[test]
fn init_with_defaults_bootstraps() {
    let mut w = Wiki::new();
    w.init_with_defaults();
    assert_eq!(w.pages.len(), 1);
    assert_eq!(w.revisions.len(), 1);
    assert_eq!(w.search.len(), 1);
    let root = Page::from_path(&w.pages, "").unwrap();
    assert_eq!(root.title, "Root");
    let rev = get_latest_revision(root.id, &w.revisions).unwrap();
    assert_eq!(rev.markdown_content, "Default root");
    // a second init is a no-op
    w.init_with_defaults();
    assert_eq!(w.pages.len(), 1);
    assert_eq!(w.revisions.len(), 1);
}

#[test]
fn rebuild_repopulates_search() {
    let mut w = Wiki::new();
    let root = w.populate_default_root();
    w.create_child_and_insert(Some(root), info("A", "a", "alpha text", ""))
        .unwrap();
    let before = w.search.run_search("alpha").len();
    assert_eq!(before, 1);
    w.populate_with_revisions();
    assert_eq!(w.search.run_search("alpha").len(), 1);
    assert_eq!(w.search.len(), 2);
}

#[test]
fn edges_projection_matches_store() {
    let mut w = Wiki::new();
    let root = w.populate_default_root();
    let a = w
        .create_child_and_insert(Some(root), info("A", "a", "a body", ""))
        .unwrap();
    let edges = w.pages.all_edges();
    assert_eq!(edges.len(), 2);
    assert_eq!(edges[0], (root, None, "".to_string()));
    assert_eq!(edges[1], (a, Some(root), "a".to_string()));
}

#[test]
fn edit_slug_conflict_rejected() {
    let mut w = Wiki::new();
    let root = w.populate_default_root();
    w.create_child_and_insert(Some(root), info("A", "a", "a body", ""))
        .unwrap();
    w.create_child_and_insert(Some(root), info("B", "b", "b body", ""))
        .unwrap();
    assert!(matches!(
        w.edit_and_update("b", info("B", "a", "b body", "")),
        Err(WikiError::SlugConflict)
    ));
    // the rejected edit changed nothing
    assert!(Page::from_path(&w.pages, "b").is_ok());
    assert!(matches!(
        w.edit_and_update("nowhere", info("X", "x", "x", "")),
        Err(WikiError::PageNotFound)
    ));
}

#[test]
fn edit_can_move_page_by_slug() {
    let mut w = Wiki::new();
    let root = w.populate_default_root();
    let id = w
        .create_child_and_insert(Some(root), info("A", "a", "a body", ""))
        .unwrap();
    w.edit_and_update("a", info("A2", "a2", "new body", ""))
        .unwrap();
    assert!(matches!(
        Page::from_path(&w.pages, "a"),
        Err(WikiError::PageNotFound)
    ));
    let moved = Page::from_path(&w.pages, "a2").unwrap();
    assert_eq!(moved.id, id);
    assert_eq!(moved.title, "A2");
    // the search row follows the slug change
    let hits = w.search.run_search("body");
    assert!(hits.iter().any(|h| h.id == id && h.path == "a2"));
}

#[test]
fn revisions_of_page_in_order() {
    let mut log = RevisionLog::new();
    log.append(1, "first".to_string(), "s1".to_string());
    log.append(2, "noise".to_string(), "".to_string());
    log.append(1, "second".to_string(), "s2".to_string());
    let revs = log.revs_of_page(1);
    assert_eq!(revs.len(), 2);
    assert_eq!(revs[0].markdown_content, "first");
    assert_eq!(revs[0].sidebar_markdown_content, "s1");
    assert_eq!(revs[1].markdown_content, "second");
    assert!(revs[0].id != revs[1].id);
}
