use gpp_core::albums::{
    generate_share_token, generate_token, normalize_path, parent_of, sort_as_tree, title_from_path,
};
use gpp_core::error::Error;
use gpp_core::model::Album;

fn album(path: &str, sort_order: Option<i64>) -> Album {
    Album {
        id: 0,
        path: path.to_string(),
        parent_path: parent_of(path),
        title: title_from_path(path),
        description: None,
        date: None,
        token: generate_token(),
        password: None,
        share_token: None,
        sort: "date-desc".to_string(),
        style: "single-column".to_string(),
        cover_filename: None,
        is_collection: false,
        hidden: false,
        allow_download: false,
        proofing: false,
        sort_order,
        tags: Vec::new(),
        body: None,
    }
}

fn paths(albums: &[Album]) -> Vec<String> {
    albums.iter().map(|a| a.path.clone()).collect()
}

#[test]
fn normalizes_paths() {
    assert_eq!(normalize_path("2026/Weddings/Ana").unwrap(), "2026/weddings/ana");
    assert_eq!(normalize_path("/a/b/").unwrap(), "a/b");
    assert!(normalize_path("../etc").is_err());
    assert!(normalize_path("").is_err());
}

#[test]
fn a_refused_path_is_named_in_the_error() {
    match normalize_path("a/../b") {
        Err(Error::InvalidPath(p)) => assert_eq!(p, "a/../b"),
        other => panic!("expected InvalidPath, got {other:?}"),
    }
    assert!(normalize_path("a/\0/b").is_err());
    assert_eq!(normalize_path(" 2026 / ./ Ana ").unwrap(), "2026/ana");
}

#[test]
fn derives_title_from_slug() {
    let path = "2026/ana-i-ivan";
    assert_eq!(title_from_path(path), "Ana i ivan");
    assert_eq!(parent_of(path).as_deref(), Some("2026"));
    assert!(!generate_token().is_empty());
}

#[test]
fn titles_and_parents_at_the_edges() {
    assert_eq!(title_from_path("under_score-and-dash"), "Under score and dash");
    assert_eq!(title_from_path("2026/"), "");
    assert_eq!(parent_of("top"), None);
    assert_eq!(parent_of("a/b/c").as_deref(), Some("a/b"));
}

#[test]
fn share_tokens_are_random_and_urlsafe() {
    let a = generate_share_token();
    let b = generate_share_token();
    assert_ne!(a, b);
    assert!(a.len() >= 20);
    assert!(a.chars().all(|c| c.is_ascii_alphanumeric() || c == '-' || c == '_'));
}

#[test]
fn share_tokens_are_twenty_two_characters() {
    for _ in 0..8 {
        assert_eq!(generate_share_token().len(), 22);
    }
}

#[test]
fn album_tokens_are_twelve_lowercase_hex_digits() {
    let t = generate_token();
    assert_eq!(t.len(), 12);
    assert!(t.chars().all(|c| c.is_ascii_digit() || ('a'..='f').contains(&c)));
    assert_ne!(generate_token(), generate_token());
}

#[test]
fn albums_come_back_in_tree_order() {
    // Created out of order, and named so that a title sort would scatter
    // them: "Ana" sorts before "Weddings", though it lives inside it.
    let mut albums = vec![
        album("2026/weddings/ana-ivan", None),
        album("2026/weddings", None),
        album("2026", None),
        album("2025/zeta", None),
        album("2025", None),
    ];
    sort_as_tree(&mut albums);
    assert_eq!(
        paths(&albums),
        vec!["2025", "2025/zeta", "2026", "2026/weddings", "2026/weddings/ana-ivan"],
        "every parent must come immediately before its children"
    );
}

#[test]
fn sort_order_ranks_siblings_without_breaking_the_tree() {
    let mut albums = vec![album("b", Some(1)), album("b/child", None), album("a", None)];
    sort_as_tree(&mut albums);
    assert_eq!(paths(&albums), vec!["b", "b/child", "a"]);
}

#[test]
fn sibling_order_drives_listing() {
    let mut albums = vec![album("b", None), album("a", None)];
    sort_as_tree(&mut albums);
    assert_eq!(albums[0].path, "a");
    let mut albums = vec![album("a", Some(1)), album("b", Some(0))];
    sort_as_tree(&mut albums);
    assert_eq!(albums[0].path, "b");
}

#[test]
fn a_gap_in_the_tree_sorts_under_its_own_slug() {
    // "x" has no album of its own; its child still sorts by the segment.
    let mut albums = vec![album("x/child", None), album("b", None), album("a", None)];
    sort_as_tree(&mut albums);
    assert_eq!(paths(&albums), vec!["a", "b", "x/child"]);
}

#[test]
fn albums_at_one_path_keep_the_order_they_came_in() {
    let mut first = album("same", None);
    first.id = 1;
    let mut second = album("same", None);
    second.id = 2;
    let mut albums = vec![first, album("a", None), second];
    sort_as_tree(&mut albums);
    let ids: Vec<i64> = albums.iter().filter(|a| a.path == "same").map(|a| a.id).collect();
    assert_eq!(ids, vec![1, 2]);
    assert_eq!(albums[0].path, "a");
}

#[test]
fn a_branch_stays_together_however_its_siblings_are_titled() {
    // "b/inner" would sort between "a" and "b" by title alone; the walk is
    // depth-first, so everything under "a" comes before "b" starts.
    let mut albums = vec![
        album("b/inner", None),
        album("b", None),
        album("a/zz", None),
        album("a", Some(5)),
        album("a/aa", None),
        album("c", Some(0)),
    ];
    sort_as_tree(&mut albums);
    assert_eq!(paths(&albums), vec!["c", "a", "a/aa", "a/zz", "b", "b/inner"]);
}

#[test]
fn a_normal_path_comes_back_unchanged() {
    for p in ["2026/weddings/ana-ivan", "a", "x y/z"] {
        assert_eq!(normalize_path(p).unwrap(), p);
    }
    let once = normalize_path(" /2026//Weddings/./Ana-Ivan/ ").unwrap();
    assert_eq!(once, "2026/weddings/ana-ivan");
    assert_eq!(normalize_path(&once).unwrap(), once);
}
