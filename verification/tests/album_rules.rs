use gpp_core::album_rules::{
    album_title, apply_update, check_add_photos, check_move, collection_chain, holds, moved_path, reordered_ids, stored_tags,
};
use gpp_core::albums::{parent_of, title_from_path, AlbumUpdate};
use gpp_core::error::Error;
use gpp_core::model::Album;

/// An album as the catalog creates it at `path`, with no settings of its own.
fn created(path: &str) -> Album {
    Album {
        id: 7,
        path: path.into(),
        parent_path: parent_of(path),
        title: title_from_path(path),
        description: None,
        date: None,
        token: "0123456789ab".into(),
        password: None,
        share_token: None,
        sort: "date-desc".into(),
        style: "single-column".into(),
        cover_filename: None,
        is_collection: false,
        hidden: false,
        allow_download: false,
        proofing: false,
        sort_order: None,
        tags: vec![],
        body: None,
    }
}

fn names(order: &[i64]) -> Vec<&'static str> {
    order
        .iter()
        .map(|id| match id {
            1 => "one.jpg",
            2 => "two.jpg",
            3 => "three.jpg",
            4 => "four.jpg",
            _ => "?",
        })
        .collect()
}

#[test]
fn moves_album_with_descendants() {
    assert_eq!(moved_path("2026/ana", "2027/ana-ivan", "2026/ana").as_deref(), Some("2027/ana-ivan"));
    let child = moved_path("2026/ana", "2027/ana-ivan", "2026/ana/day2").unwrap();
    assert_eq!(child, "2027/ana-ivan/day2");
    assert_eq!(parent_of(&child).as_deref(), Some("2027/ana-ivan"));
    assert_eq!(moved_path("2026/ana", "2027/ana-ivan", "2026"), None, "the folder above stays");
}

#[test]
fn moving_an_album_with_an_underscore_leaves_its_neighbours_where_they_are() {
    assert_eq!(moved_path("a_b", "moved", "a_b/mine").as_deref(), Some("moved/mine"), "its own child came along");
    assert_eq!(
        moved_path("a_b", "moved", "axb/theirs"),
        None,
        "an unrelated album must not be dragged along by a wildcard match"
    );
    assert_eq!(moved_path("a_b", "moved", "axb"), None);
}

#[test]
fn a_sibling_sharing_a_prefix_is_not_a_descendant() {
    assert_eq!(moved_path("a", "z", "ab"), None);
    assert_eq!(moved_path("a", "z", "ab/c"), None);
    assert_eq!(moved_path("a", "z", "a/b/c").as_deref(), Some("z/b/c"));
}

#[test]
fn moving_back_restores_every_path() {
    for old in ["2026/ana", "2026/ana/day2", "2026/ana/day2/ceremony"] {
        let there = moved_path("2026/ana", "2027/x", old).unwrap();
        let back = moved_path("2027/x", "2026/ana", &there).unwrap();
        assert_eq!(back, old);
    }
}

#[test]
fn refuses_move_into_self() {
    assert!(check_move("a", "a/b", true, false).is_err());
    match check_move("a", "a/b", true, false) {
        Err(Error::InvalidPath(m)) => assert_eq!(m, "cannot move a inside itself"),
        other => panic!("unexpected: {other:?}"),
    }
}

#[test]
fn a_move_needs_the_album_and_a_free_target() {
    assert!(matches!(check_move("a", "b", false, false), Err(Error::AlbumNotFound(p)) if p == "a"));
    assert!(matches!(check_move("a", "b", true, true), Err(Error::AlbumExists(p)) if p == "b"));
    assert!(matches!(check_move("a", "a", true, true), Err(Error::AlbumExists(_))));
    assert!(check_move("a", "ab", true, false).is_ok());
    assert!(check_move("a/b", "a", true, false).is_ok(), "moving up out of a folder is fine");
}

#[test]
fn reordering_part_of_an_album_moves_the_rest_behind_it() {
    let order = reordered_ids(&[3], &[1, 2, 3]);
    assert_eq!(names(&order), vec!["three.jpg", "one.jpg", "two.jpg"]);
}

#[test]
fn a_partial_reorder_preserves_the_arrangement_of_what_it_does_not_name() {
    let reversed = reordered_ids(&[4, 3, 2, 1], &[1, 2, 3, 4]);
    assert_eq!(reversed, vec![4, 3, 2, 1]);
    let order = reordered_ids(&[2], &reversed);
    assert_eq!(names(&order), vec!["two.jpg", "four.jpg", "three.jpg", "one.jpg"]);
}

#[test]
fn naming_the_current_order_changes_nothing() {
    assert_eq!(reordered_ids(&[5, 9, 2], &[5, 9, 2]), vec![5, 9, 2]);
    assert_eq!(reordered_ids(&[], &[5, 9, 2]), vec![5, 9, 2]);
    assert_eq!(reordered_ids(&[1], &[]), vec![1]);
}

#[test]
fn holds_finds_an_id() {
    assert!(holds(&[4, 5, 6], 5));
    assert!(!holds(&[4, 5, 6], 7));
    assert!(!holds(&[], 7));
}

#[test]
fn tags_are_trimmed_deduplicated_and_sorted() {
    let given: Vec<String> = vec![" wedding", "wedding", "", "   ", "ljeto", "Zagreb", "ljeto "]
        .into_iter()
        .map(String::from)
        .collect();
    assert_eq!(stored_tags(&given), vec!["Zagreb", "ljeto", "wedding"]);
    assert!(stored_tags(&[]).is_empty());
}

#[test]
fn update_merges_and_clears() {
    let album = created("a");
    assert_eq!(album.title, "A");

    let updated = apply_update(
        &album,
        &AlbumUpdate {
            description: Some(Some("hello".into())),
            password: Some(Some("secret".into())),
            proofing: Some(true),
            tags: Some(vec!["wedding".into(), "ljeto".into()]),
            ..Default::default()
        },
        None,
    );
    assert_eq!(updated.description.as_deref(), Some("hello"));
    assert!(updated.is_locked());
    assert!(updated.proofing);
    assert_eq!(updated.tags, vec!["ljeto", "wedding"]);

    // A partial update must not disturb untouched fields...
    let again = apply_update(
        &updated,
        &AlbumUpdate {
            title: Some("New Title".into()),
            ..Default::default()
        },
        None,
    );
    assert_eq!(again.title, "New Title");
    assert_eq!(again.description.as_deref(), Some("hello"), "kept");
    assert!(again.proofing, "kept");

    // ...and Some(None) explicitly clears.
    let cleared = apply_update(
        &again,
        &AlbumUpdate {
            password: Some(None),
            ..Default::default()
        },
        None,
    );
    assert!(cleared.password.is_none());
    assert!(!cleared.is_locked());
}

#[test]
fn an_empty_update_changes_nothing() {
    let mut album = created("2026/ana");
    album.tags = vec!["b".into(), "a".into()];
    album.cover_filename = Some("x.jpg".into());
    let same = apply_update(&album, &AlbumUpdate::default(), Some("ignored.jpg".into()));
    assert_eq!(format!("{same:?}"), format!("{album:?}"));
}

#[test]
fn the_cover_follows_the_photo_the_update_names() {
    let album = created("a");
    let set = apply_update(
        &album,
        &AlbumUpdate { cover_photo_id: Some(Some(3)), ..Default::default() },
        Some("three.jpg".into()),
    );
    assert_eq!(set.cover_filename.as_deref(), Some("three.jpg"));
    let cleared = apply_update(
        &set,
        &AlbumUpdate { cover_photo_id: Some(None), ..Default::default() },
        Some("three.jpg".into()),
    );
    assert_eq!(cleared.cover_filename, None);
}

#[test]
fn a_blank_title_falls_back_to_the_path() {
    assert_eq!(album_title(&None, "2026/ana-i-ivan"), "Ana i ivan");
    assert_eq!(album_title(&Some("   ".into()), "2026/ana-i-ivan"), "Ana i ivan");
    assert_eq!(album_title(&Some(" Ana ".into()), "2026/x"), " Ana ", "kept as given");
}

#[test]
fn creating_a_deep_album_creates_the_folders_above_it() {
    let chain = collection_chain("2026/weddings/ana-ivan", &[]).unwrap();
    assert_eq!(chain, vec!["2026", "2026/weddings"]);
    let weddings = &chain[1];
    assert_eq!(parent_of(weddings).as_deref(), Some("2026"));
    assert_eq!(album_title(&None, weddings), "Weddings");

    // A sibling reuses the same folders.
    let existing: Vec<String> = ["2026", "2026/weddings", "2026/weddings/ana-ivan"]
        .iter()
        .map(|s| s.to_string())
        .collect();
    assert!(collection_chain("2026/weddings/mia-luka", &existing).unwrap().is_empty());

    // Moving into a new branch creates that branch too.
    assert_eq!(
        collection_chain("2027/spring/mia-luka", &existing).unwrap(),
        vec!["2027", "2027/spring"]
    );
    assert_eq!(collection_chain("/2026/Weddings/X/", &[]).unwrap(), vec!["2026", "2026/weddings"]);
    assert!(collection_chain("../etc", &[]).is_err());
}

#[test]
fn photos_cannot_be_added_to_a_folder_of_albums() {
    let err = check_add_photos("2026/weddings", true).unwrap_err();
    assert!(err.message().contains("folder of albums"), "unhelpful error: {}", err.message());
    assert_eq!(
        err.message(),
        "2026/weddings is a folder of albums — put the photos in an album inside it"
    );
    assert!(check_add_photos("2026/weddings/ana-ivan", false).is_ok());
}
