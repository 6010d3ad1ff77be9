use gpp_core::full::{
    full_key, full_originals, is_direct_child_of, is_full_key, merge_photo_metadata, split_full_key,
    LocalPhotoMeta, PulledEdits, PulledPhotoMeta, FULL_PREFIX, METADATA_FILENAME,
};
use gpp_core::model::Flag;

fn pair(a: &str, b: &str) -> Option<(String, String)> {
    Some((a.to_string(), b.to_string()))
}

#[test]
fn the_prefix_is_recognised_only_on_segment_boundaries() {
    assert!(is_full_key("__gpp_full__"));
    assert!(is_full_key("__gpp_full__/2026/ana/a.raw"));
    assert!(!is_full_key("__gpp_full__extra/x"));
    assert!(!is_full_key("2026/__gpp_full__/x"), "only a leading prefix is reserved");
}

#[test]
fn full_keys_split_into_album_and_filename() {
    assert_eq!(split_full_key("__gpp_full__/2026/ana/a.raw"), pair("2026/ana", "a.raw"));
    assert_eq!(split_full_key("__gpp_full__/a"), None, "no album/file split");
    assert_eq!(split_full_key("__gpp_full__"), None);
    assert_eq!(split_full_key("2026/ana/a.raw"), None);
}

#[test]
fn a_full_key_splits_back_into_what_made_it() {
    let k = full_key("2026/ana", METADATA_FILENAME);
    assert_eq!(k, "__gpp_full__/2026/ana/album.gpp.json");
    assert!(k.starts_with(FULL_PREFIX));
    assert!(is_full_key(&k));
    assert_eq!(split_full_key(&k), pair("2026/ana", "album.gpp.json"));
    assert_eq!(split_full_key("__gpp_full__//x"), None);
    assert_eq!(split_full_key("__gpp_full__/a/"), None);
}

#[test]
fn direct_children_only() {
    assert!(is_direct_child_of("2026/ana", "2026/ana/a.jpg"));
    assert!(!is_direct_child_of("2026/ana", "2026/ana/day2/a.jpg"));
    assert!(!is_direct_child_of("2026/ana", "2026/anabel/a.jpg"));
    assert!(!is_direct_child_of("2026/ana", "2026/ana"));
}

fn local() -> LocalPhotoMeta {
    LocalPhotoMeta { rating: 0, flag: Flag::Unflagged, color_label: None, tags: vec![], has_edits: false }
}

fn pulled() -> PulledPhotoMeta {
    PulledPhotoMeta {
        rating: 4,
        flag: "pick".into(),
        color_label: Some("red".into()),
        tags: vec!["bride".into()],
        edits: Some(PulledEdits { is_empty: false, same_as_local: false }),
    }
}

#[test]
fn a_new_photo_takes_everything_pulled() {
    let m = merge_photo_metadata("a/x.jpg", &local(), &pulled());
    assert_eq!(m.set_rating, Some(4));
    assert_eq!(m.set_flag, Some(Flag::Pick));
    assert_eq!(m.set_color_label.as_deref(), Some("red"));
    assert_eq!(m.set_tags, Some(vec!["bride".to_string()]));
    assert!(m.set_edits);
    assert!(m.conflicts.is_empty());
}

#[test]
fn fields_set_on_both_sides_conflict_and_stay() {
    let mine = LocalPhotoMeta {
        rating: 2,
        flag: Flag::Reject,
        color_label: Some("blue".into()),
        tags: vec!["groom".into()],
        has_edits: true,
    };
    let m = merge_photo_metadata("a/x.jpg", &mine, &pulled());
    assert_eq!(m.set_rating, None);
    assert_eq!(m.set_flag, None);
    assert_eq!(m.set_color_label, None);
    assert_eq!(m.set_tags, None);
    assert!(!m.set_edits);
    assert_eq!(
        m.conflicts,
        vec![
            "a/x.jpg: rating differs on both sides",
            "a/x.jpg: flag differs on both sides",
            "a/x.jpg: color label differs on both sides",
            "a/x.jpg: tags differs on both sides",
            "a/x.jpg: develop stack differs on both sides",
        ]
    );
}

#[test]
fn agreeing_sides_and_defaults_change_nothing() {
    let mine = LocalPhotoMeta {
        rating: 4,
        flag: Flag::Pick,
        color_label: Some("red".into()),
        tags: vec!["bride".into()],
        has_edits: true,
    };
    let mut same = pulled();
    same.edits = Some(PulledEdits { is_empty: false, same_as_local: true });
    let m = merge_photo_metadata("r", &mine, &same);
    assert!(m.conflicts.is_empty());
    let nothing = PulledPhotoMeta { rating: 0, flag: "none".into(), color_label: None, tags: vec![], edits: None };
    let m = merge_photo_metadata("r", &local(), &nothing);
    assert_eq!(m.set_rating, None);
    assert_eq!(m.set_flag, None);
    assert!(!m.set_edits && m.conflicts.is_empty());
}

fn member(album: &str, rel: &str, filename: &str, hash: &str) -> (String, String, String, String) {
    (album.into(), rel.into(), filename.into(), hash.into())
}

#[test]
fn the_first_photo_keeps_a_filename_in_full_scope() {
    let members = vec![
        member("2026/ana", "cards/a/IMG_1.jpg", "IMG_1.jpg", "h1"),
        member("2026/ana", "cards/b/IMG_1.jpg", "IMG_1.jpg", "h2"),
        member("2026/ana", "cards/a/album.gpp.json", "album.gpp.json", "h3"),
        member("2026/ana", "cards/a/IMG_2.jpg", "IMG_2.jpg", "h4"),
        member("2026/mia", "cards/b/IMG_1.jpg", "IMG_1.jpg", "h2"),
    ];
    let out = full_originals(&members);
    assert_eq!(
        out.entries,
        vec![
            ("__gpp_full__/2026/ana/IMG_1.jpg".to_string(), "h1".to_string(), "cards/a/IMG_1.jpg".to_string()),
            ("__gpp_full__/2026/ana/IMG_2.jpg".to_string(), "h4".to_string(), "cards/a/IMG_2.jpg".to_string()),
            ("__gpp_full__/2026/mia/IMG_1.jpg".to_string(), "h2".to_string(), "cards/b/IMG_1.jpg".to_string()),
        ]
    );
    assert_eq!(
        out.duplicates,
        vec![
            (
                "cards/b/IMG_1.jpg".to_string(),
                "another photo already publishes __gpp_full__/2026/ana/IMG_1.jpg in full scope".to_string()
            ),
            (
                "cards/a/album.gpp.json".to_string(),
                "'album.gpp.json' is reserved for the metadata document".to_string()
            ),
        ]
    );
    assert!(full_originals(&[]).entries.is_empty());
}
