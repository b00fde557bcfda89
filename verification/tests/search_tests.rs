use blorg::wiki::PageInfo;
use blorg::wiki::Wiki;

fn info(title: &str, slug: &str, body: &str, sidebar: &str) -> PageInfo {
    PageInfo {
        title: title.to_string(),
        slug: slug.to_string(),
        markdown_content: body.to_string(),
        sidebar_markdown_content: sidebar.to_string(),
    }
}

#[test]
fn scenario_search_follows_edits() {
    let mut w = Wiki::new();
    let root = w.populate_default_root();
    let id = w
        .create_child_and_insert(Some(root), info("Intro", "intro", "a gadget here", ""))
        .unwrap();
    let hits = w.search.run_search("gadget");
    assert_eq!(hits.len(), 1);
    assert_eq!(hits[0].id, id);
    assert_eq!(hits[0].path, "intro");
    w.edit_and_update("intro", info("Intro", "intro", "nothing special", ""))
        .unwrap();
    assert_eq!(w.search.run_search("gadget").len(), 0);
    assert_eq!(w.search.run_search("special").len(), 1);
}

#[test]
fn search_highlights_match() {
    let mut w = Wiki::new();
    let root = w.populate_default_root();
    w.create_child_and_insert(Some(root), info("Intro", "intro", "a gadget here", ""))
        .unwrap();
    let hits = w.search.run_search("gadget");
    assert_eq!(hits.len(), 1);
    assert_eq!(
        hits[0].markdown_content,
        "a <span class=\"highlight\">gadget</span> here"
    );
    // the title held no match and is short, so it comes back whole
    assert_eq!(hits[0].title, "Intro");
}

#[test]
fn search_is_case_insensitive_and_whole_token() {
    let mut w = Wiki::new();
    let root = w.populate_default_root();
    w.create_child_and_insert(Some(root), info("Intro", "intro", "a Gadget here", ""))
        .unwrap();
    assert_eq!(w.search.run_search("GADGET").len(), 1);
    // "gadget" only occurs as a whole token, so a different token misses
    assert_eq!(w.search.run_search("gadgets").len(), 0);
    // every query token must match somewhere
    assert_eq!(w.search.run_search("gadget here").len(), 1);
    assert_eq!(w.search.run_search("gadget missing").len(), 0);
}

#[test]
fn search_empty_query_matches_nothing() {
    let mut w = Wiki::new();
    let root = w.populate_default_root();
    w.create_child_and_insert(Some(root), info("Intro", "intro", "text", ""))
        .unwrap();
    assert_eq!(w.search.run_search("").len(), 0);
    assert_eq!(w.search.run_search("...!!!").len(), 0);
}

#[test]
fn search_matches_title_and_sidebar_too() {
    let mut w = Wiki::new();
    let root = w.populate_default_root();
    w.create_child_and_insert(Some(root), info("Gadget page", "g", "plain", "side remark"))
        .unwrap();
    assert_eq!(w.search.run_search("gadget").len(), 1);
    assert_eq!(w.search.run_search("remark").len(), 1);
}

#[test]
fn long_field_is_truncated_with_ellipsis() {
    let mut w = Wiki::new();
    let root = w.populate_default_root();
    let long = "x".repeat(100);
    w.create_child_and_insert(Some(root), info("Long", "long", &format!("{long} gadget {long}"), ""))
        .unwrap();
    let hits = w.search.run_search("gadget");
    assert_eq!(hits.len(), 1);
    let body = &hits[0].markdown_content;
    assert!(body.starts_with("..."));
    assert!(body.ends_with("..."));
    assert!(body.contains("<span class=\"highlight\">gadget</span>"));
    // a non-matching long field collapses to its first 64 characters
    let title = &hits[0].title;
    assert_eq!(title, "Long");
}
