use gpp_core::model::Album;
use gpp_core::publish::{parse_frontmatter, render_frontmatter};
use gpp_core::remote::{
    adopted_album, adopted_update, album_listing, local_entry, server_entry, tracking_of,
    ancestors_of, at_or_under, is_direct_child, may_adopt_media,
    merged_conflicts, photo_order_ids, shallowest_first, is_metadata_file, pull_step, record_pull,
    PullOutcome, PullStep,
};
use gpp_core::sync::{Action, SyncDirection, SyncScopeKind};

#[test]
fn ancestors_are_the_folders_above_a_path() {
    assert_eq!(ancestors_of("2026/weddings/ana"), vec!["2026", "2026/weddings"]);
    assert!(ancestors_of("top").is_empty());
    assert!(ancestors_of("").is_empty());
    assert_eq!(ancestors_of("/a//b/c/"), vec!["a", "a/b"]);
}

#[test]
fn under_means_itself_or_below_a_segment_boundary() {
    assert!(at_or_under("2026", "2026"));
    assert!(at_or_under("2026", "2026/ana"));
    assert!(!at_or_under("2026", "2026-old/ana"));
    assert!(!at_or_under("2026/ana", "2026"));
}

#[test]
fn parents_come_before_children() {
    let mut paths = vec![
        "2026/weddings/ana".to_string(),
        "b".to_string(),
        "2026".to_string(),
        "2026/weddings".to_string(),
        "a".to_string(),
    ];
    shallowest_first(&mut paths);
    assert_eq!(paths, vec!["2026", "a", "b", "2026/weddings", "2026/weddings/ana"]);
}

#[test]
fn a_full_subscription_keeps_gallery_pixels_out_of_the_library() {
    let roots = vec!["2026".to_string()];
    assert!(!may_adopt_media(SyncScopeKind::Web, &roots, "2026/ana"));
    assert!(!may_adopt_media(SyncScopeKind::Web, &roots, "2026"));
    assert!(may_adopt_media(SyncScopeKind::Web, &roots, "2025/x"));
    assert!(!may_adopt_media(SyncScopeKind::Full, &[], "2025/x"));
}

#[test]
fn conflicts_list_files_then_metadata() {
    let m = merged_conflicts(vec!["a".into()], vec!["b".into(), "c".into()]);
    assert_eq!(m, vec!["a", "b", "c"]);
    assert!(is_direct_child("a", "a/x.jpg"));
    assert!(!is_direct_child("a", "a/b/x.jpg"));
}

#[test]
fn a_pulled_album_takes_the_servers_settings() {
    let on_server = Album {
        id: 1,
        path: "2026/ana".into(),
        parent_path: Some("2026".into()),
        title: "Ana & Ivan".into(),
        description: None,
        date: Some("2026-06-01".into()),
        token: "srv-token".into(),
        password: Some("pw".into()),
        share_token: None,
        sort: "custom".into(),
        style: "grid".into(),
        cover_filename: None,
        is_collection: false,
        hidden: true,
        allow_download: false,
        proofing: false,
        sort_order: Some(3),
        tags: vec!["b".into(), "a".into()],
        body: None,
    };
    let parsed = parse_frontmatter(&render_frontmatter(&on_server, &[]));
    let new = adopted_album("2026/ana", Some(&parsed));
    assert_eq!(new.path, "2026/ana");
    assert_eq!(new.title.as_deref(), Some("Ana & Ivan"));
    assert_eq!(new.date.as_deref(), Some("2026-06-01"));
    assert!(!new.is_collection);

    let update = adopted_update(&parsed);
    assert_eq!(update.title.as_deref(), Some("Ana & Ivan"));
    assert_eq!(update.token.as_deref(), Some("srv-token"), "the access cookie names this id");
    assert_eq!(update.password, Some(Some("pw".to_string())));
    assert_eq!(update.share_token, Some(None), "absent on the server clears it here");
    assert_eq!(update.description, Some(None));
    assert_eq!(update.hidden, Some(true));
    assert_eq!(update.proofing, Some(false));
    assert_eq!(update.sort_order, Some(Some(3)));
    assert_eq!(update.tags, Some(vec!["b".to_string(), "a".to_string()]));
    assert_eq!(update.sort.as_deref(), Some("custom"));
    assert!(update.cover_photo_id.is_none() && update.body.is_none());

    let bare = adopted_update(&parse_frontmatter("---\ntitle: \"X\"\n---\n"));
    assert_eq!(bare.sort, None, "a missing sort keeps the local one");
    assert_eq!(bare.tags, Some(vec![]), "but the tag set is replaced");
}

#[test]
fn an_album_with_no_settings_file_is_created_bare() {
    let new = adopted_album("2026", None);
    assert_eq!(new.path, "2026");
    assert!(new.title.is_none() && new.description.is_none() && new.date.is_none());
    assert!(!new.is_collection);
}

#[test]
fn the_servers_photo_order_finds_heic_frames_by_their_published_name() {
    let own = vec![
        (10, "a.jpg".to_string()),
        (11, "b.HEIC".to_string()),
        (12, "c.jpg".to_string()),
    ];
    let names: Vec<String> = ["c.jpg", "b.jpg", "gone.jpg", "a.jpg"]
        .iter()
        .map(|s| s.to_string())
        .collect();
    assert_eq!(photo_order_ids(&own, &names), vec![12, 11, 10]);
    let old_style = vec!["b.HEIC".to_string()];
    assert_eq!(photo_order_ids(&own, &old_style), vec![11], "the library name still works");
    assert!(photo_order_ids(&own, &[]).is_empty());
}

fn local_album(path: &str, title: &str) -> Album {
    Album {
        id: 1,
        path: path.into(),
        parent_path: None,
        title: title.into(),
        description: None,
        date: None,
        token: "t".into(),
        password: None,
        share_token: None,
        sort: "date-desc".into(),
        style: "grid".into(),
        cover_filename: None,
        is_collection: false,
        hidden: false,
        allow_download: false,
        proofing: false,
        sort_order: None,
        tags: vec![],
        body: None,
    }
}

#[test]
fn the_listing_shows_each_album_once_sorted_by_path() {
    let subs = vec![("2026/ana".to_string(), SyncDirection::Both)];
    let parsed = parse_frontmatter("---\ntitle: \"Ana\"\n---\n");
    let server = vec![
        server_entry("2026/mia", 4, None, false, tracking_of(&subs, "2026/mia")),
        server_entry("2026/ana", 12, Some(&parsed), true, tracking_of(&subs, "2026/ana")),
    ];
    let local = vec![
        local_entry(&local_album("2026/ana", "Ana here"), tracking_of(&subs, "2026/ana")),
        local_entry(&local_album("2025/old", "Old"), None),
    ];
    let listing = album_listing(server, local);
    let paths: Vec<&str> = listing.iter().map(|a| a.path.as_str()).collect();
    assert_eq!(paths, vec!["2025/old", "2026/ana", "2026/mia"]);

    let ana = &listing[1];
    assert!(ana.local && ana.remote, "on both sides, listed as the server has it");
    assert_eq!(ana.title.as_deref(), Some("Ana"));
    assert_eq!(ana.file_count, 12);
    assert_eq!(ana.tracking, Some(SyncDirection::Both));
    assert_eq!(ana.depth, 1);

    let old = &listing[0];
    assert!(old.local && !old.remote);
    assert_eq!(old.title.as_deref(), Some("Old"));
    assert_eq!(old.file_count, 0);
    assert_eq!(old.tracking, None);

    let mia = &listing[2];
    assert!(!mia.local && mia.remote);
    assert_eq!(mia.title, None, "an unreadable index.md gives no title");
}

#[test]
fn tracking_is_read_from_the_first_subscription_naming_the_path() {
    let subs = vec![
        ("a".to_string(), SyncDirection::Push),
        ("a".to_string(), SyncDirection::Pull),
    ];
    assert_eq!(tracking_of(&subs, "a"), Some(SyncDirection::Push));
    assert_eq!(tracking_of(&subs, "b"), None);
}

#[test]
fn a_web_pull_never_writes_over_a_library_original() {
    // The server's version of a photo the library already holds goes to the
    // published tree only, and the original is named.
    let s = pull_step(false, true, true, false, Action::Pull, true, true);
    assert_eq!(s, PullStep::Fetch { library: false, published: true, keep_original: true, metadata_doc: false });
    // Where the library has none, the media becomes its original.
    let s = pull_step(false, true, true, false, Action::Pull, true, false);
    assert_eq!(s, PullStep::Fetch { library: true, published: true, keep_original: false, metadata_doc: false });
    // Under a full-scope subscription the gallery's pixels never stand in.
    let s = pull_step(false, true, true, false, Action::Pull, false, false);
    assert_eq!(s, PullStep::Fetch { library: false, published: true, keep_original: false, metadata_doc: false });
}

#[test]
fn a_pull_sorts_each_planned_path() {
    assert_eq!(pull_step(false, false, false, false, Action::Pull, true, false), PullStep::Ignore, "a sub-album's file");
    assert_eq!(pull_step(false, false, true, false, Action::Pull, true, false), PullStep::Reject);
    // Metadata in conflict is adopted; media in conflict is reported.
    assert_eq!(
        pull_step(false, true, true, true, Action::Conflict, true, true),
        PullStep::Fetch { library: false, published: true, keep_original: false, metadata_doc: false }
    );
    assert_eq!(pull_step(false, true, true, false, Action::Conflict, true, true), PullStep::Conflict);
    assert_eq!(pull_step(false, true, true, false, Action::ForgetState, true, true), PullStep::Settle);
    assert_eq!(pull_step(false, true, true, false, Action::Skip, true, true), PullStep::Unchanged);
}

#[test]
fn a_full_pull_keeps_every_original_it_finds() {
    assert_eq!(pull_step(true, true, true, false, Action::Pull, false, true), PullStep::KeepOriginal);
    assert_eq!(pull_step(true, true, true, false, Action::Conflict, false, false), PullStep::KeepOriginal);
    assert_eq!(
        pull_step(true, true, true, false, Action::Pull, false, false),
        PullStep::Fetch { library: true, published: false, keep_original: false, metadata_doc: false }
    );
    assert_eq!(
        pull_step(true, true, true, true, Action::Conflict, false, true),
        PullStep::Fetch { library: false, published: false, keep_original: false, metadata_doc: true }
    );
    assert_eq!(pull_step(true, true, false, false, Action::Pull, false, false), PullStep::Reject, "no album/file split");
    assert_eq!(pull_step(true, false, true, false, Action::Pull, false, false), PullStep::Reject);
}

#[test]
fn metadata_files_are_named_per_scope() {
    assert!(is_metadata_file(false, "index.md"));
    assert!(is_metadata_file(false, "body.md"));
    assert!(!is_metadata_file(false, "album.gpp.json"));
    assert!(is_metadata_file(true, "album.gpp.json"));
    assert!(!is_metadata_file(true, "index.md"));
    assert!(!is_metadata_file(false, "a.jpg"));
}

#[test]
fn each_pull_step_lands_in_its_place_in_the_outcome() {
    let mut out = PullOutcome::default();
    record_pull(&mut out, "a/x.jpg", PullStep::Fetch { library: false, published: true, keep_original: true, metadata_doc: false });
    record_pull(&mut out, "a/y.jpg", PullStep::Conflict);
    record_pull(&mut out, "../z", PullStep::Reject);
    record_pull(&mut out, "a/w.jpg", PullStep::Unchanged);
    record_pull(&mut out, "a/v.jpg", PullStep::Settle);
    record_pull(&mut out, "__gpp_full__/a/album.gpp.json", PullStep::Fetch { library: false, published: false, keep_original: false, metadata_doc: true });
    record_pull(&mut out, "__gpp_full__/a/r.raw", PullStep::KeepOriginal);
    record_pull(&mut out, "a/b/u.jpg", PullStep::Ignore);
    assert_eq!(out.files_pulled, 1);
    assert_eq!(out.kept_originals, vec!["a/x.jpg", "__gpp_full__/a/r.raw"]);
    assert_eq!(out.conflicts, vec!["a/y.jpg"]);
    assert_eq!(out.rejected, vec!["../z"]);
    assert_eq!(out.skipped_unchanged, 2);
}
