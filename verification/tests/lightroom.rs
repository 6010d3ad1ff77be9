use gpp_core::model::Flag;
use gpp_core::lightroom::{
    album_target, path_catalog_id, staged_copy_name, collection_album, collection_kind, dest_subdir_of, deleted_collections, image_keywords, keyword_names, lr_fill,
    CREATION_COLLECTION, CREATION_SET, CREATION_SMART, free_suffixed_path, resolve_target,
    suffixed_collision_text, TargetPlan, SMART_NOTE,
    collection_paths, collection_wanted, copy_in_rel, rel_from_root, matches_pattern, merges_into_existing, plan_root,
    root_mode, safe_segment, source_path, suffixed_path, LrCollectionKind, LrImportOptions,
    LrPlacement, LrRootPlacement, MergePolicy, RootPlan,
    catalogue_kind, deleted_images, follow_up, image_step, placement_of, tally, ImageStep, LrImportReport,
    Placement, Writes, resolve_images,
};
use gpp_core::model::PhotoKind;

#[test]
fn glob_patterns_match_the_way_the_help_says() {
    assert!(matches_pattern("weddings/ana", "weddings/ana"));
    assert!(matches_pattern("Weddings/Ana", "weddings/ana"), "case-blind");
    assert!(matches_pattern("weddings/ana", "weddings/*"));
    assert!(matches_pattern("weddings/ana", "*ana"));
    assert!(matches_pattern("abab", "*ab"), "a lazy matcher gets this wrong");
    assert!(!matches_pattern("weddings/ana", "events/*"));
    assert!(!matches_pattern("weddings", "weddings/*"));
}

#[test]
fn a_star_alone_matches_everything() {
    assert!(matches_pattern("", "*"));
    assert!(matches_pattern("anything/at all", "*"));
    assert!(!matches_pattern("a", ""));
    assert!(matches_pattern("", ""));
}

#[test]
fn segments_are_made_safe() {
    assert_eq!(safe_segment("Best of 2026"), "Best of 2026");
    assert_eq!(safe_segment("a/b\\c"), "a-b-c");
    assert_eq!(safe_segment(".."), "_..");
    assert_eq!(safe_segment("  "), "_");
    assert_eq!(safe_segment(".hidden"), "_.hidden");
}

#[test]
fn collection_paths_walk_the_sets_and_stop_at_a_cycle() {
    let cols = vec![
        (1, "Weddings".to_string(), None),
        (2, "Ana".to_string(), Some(1)),
        (3, "Loop A".to_string(), Some(4)),
        (4, "Loop B".to_string(), Some(3)),
        (5, "Orphan".to_string(), Some(99)),
    ];
    let paths = collection_paths(&cols);
    assert_eq!(paths[0], (1, "weddings".to_string()));
    assert_eq!(paths[1], (2, "weddings/ana".to_string()));
    assert_eq!(paths[2], (3, "loop a/loop b/loop a".to_string()));
    assert_eq!(paths[4], (5, "orphan".to_string()));
}

#[test]
fn a_set_is_wanted_when_something_under_it_is() {
    let all = vec!["weddings".to_string(), "weddings/ana".to_string(), "events".to_string()];
    let wanted = vec!["weddings/a*".to_string()];
    assert!(collection_wanted("weddings/ana", false, &all, &wanted));
    assert!(collection_wanted("weddings", true, &all, &wanted));
    assert!(!collection_wanted("weddings", false, &all, &wanted));
    assert!(!collection_wanted("events", true, &all, &wanted));
}

#[test]
fn a_root_override_beats_the_runs_mode() {
    let mut opts = LrImportOptions::default();
    assert_eq!(root_mode(&opts, 7), LrPlacement::Auto);
    opts.mode = LrPlacement::Copy;
    opts.roots = Some(vec![
        LrRootPlacement { root_id: 7, mode: LrPlacement::InPlace },
        LrRootPlacement { root_id: 7, mode: LrPlacement::Reference },
    ]);
    assert_eq!(root_mode(&opts, 7), LrPlacement::Reference);
    assert_eq!(root_mode(&opts, 8), LrPlacement::Copy);
}

#[test]
fn placements_follow_the_mode_and_the_sources() {
    assert_eq!(plan_root(LrPlacement::Auto, Some(3)), RootPlan::InSource(3));
    assert_eq!(plan_root(LrPlacement::Auto, None), RootPlan::CopyIn);
    assert_eq!(plan_root(LrPlacement::Copy, Some(3)), RootPlan::CopyIn);
    assert_eq!(plan_root(LrPlacement::InPlace, None), RootPlan::Register);
    assert_eq!(plan_root(LrPlacement::Reference, None), RootPlan::Register);
    assert_eq!(plan_root(LrPlacement::Reference, Some(1)), RootPlan::InSource(1));
}

#[test]
fn collisions_merge_or_suffix_by_policy() {
    assert!(merges_into_existing(MergePolicy::Merge, true));
    assert!(!merges_into_existing(MergePolicy::Suffix, false));
    assert!(merges_into_existing(MergePolicy::Auto, false));
    assert!(!merges_into_existing(MergePolicy::Auto, true));
    assert_eq!(suffixed_path("best", 1), "best-lr");
    assert_eq!(suffixed_path("best", 2), "best-lr-2");
    assert_eq!(suffixed_path("best", 17), "best-lr-17");
}

#[test]
fn source_paths_join_root_and_path_from_root() {
    assert_eq!(source_path("/Volumes/NAS/", "2019/shoot/a.jpg"), "/Volumes/NAS/2019/shoot/a.jpg");
    assert_eq!(source_path("/p", "//x//y"), "/p/x/y");
    assert_eq!(source_path("/p///", "a"), "/p/a");
    assert_eq!(LrCollectionKind::CollectionSet.as_str(), "set");
    assert_eq!(LrCollectionKind::Smart.as_str(), "smart");
}

#[test]
fn image_paths_and_copy_destinations() {
    assert_eq!(rel_from_root("/2019/shoot/", "a.jpg"), "2019/shoot/a.jpg");
    assert_eq!(rel_from_root("", "a.jpg"), "a.jpg");
    assert_eq!(rel_from_root("///", "a.jpg"), "a.jpg");
    assert_eq!(copy_in_rel("lr", "My Photos", "2019//.shoot/a.jpg"), "lr/My Photos/2019/_.shoot/a.jpg");
    assert_eq!(copy_in_rel("lr", "", "a.jpg"), "lr/_/a.jpg");
}

#[test]
fn a_collection_renamed_in_lightroom_renames_its_album_here() {
    let d = resolve_target(
        "Ana and Ivan",
        "weddings/ana and ivan",
        Some("weddings/ana ivan"),
        true,
        false,
        true,
    );
    assert!(d.conflict.is_none(), "{:?}", d.conflict);
    assert_eq!(
        d.plan,
        TargetPlan::Follow { from: "weddings/ana ivan".into(), to: "weddings/ana and ivan".into() }
    );
}

#[test]
fn renamed_on_both_sides_is_a_reported_conflict_and_nothing_moves() {
    let d = resolve_target(
        "Ana and Ivan",
        "weddings/ana and ivan",
        Some("weddings/ana ivan"),
        false,
        false,
        true,
    );
    assert_eq!(d.plan, TargetPlan::Skip);
    let c = d.conflict.unwrap();
    assert!(c.contains("Ana and Ivan"), "the conflict must name the collection: {c}");
    assert_eq!(
        c,
        "collection \"Ana and Ivan\": renamed in Lightroom to weddings/ana and ivan and renamed or deleted here (album weddings/ana ivan is gone) — nothing changed"
    );
}

#[test]
fn a_linked_album_deleted_here_is_not_recreated() {
    let d = resolve_target("Picks", "picks", Some("picks"), false, false, true);
    assert_eq!(d.plan, TargetPlan::Skip);
    assert_eq!(
        d.conflict.as_deref(),
        Some("collection \"Picks\": its album picks was deleted here — not recreated")
    );
    let kept = resolve_target("Picks", "picks", Some("picks"), true, true, true);
    assert_eq!(kept.plan, TargetPlan::Linked("picks".into()));
    assert!(kept.conflict.is_none() && kept.collision.is_none());
}

#[test]
fn a_rename_onto_a_taken_path_stays_where_it_is() {
    let d = resolve_target("New", "a/new", Some("a/old"), true, true, true);
    assert_eq!(d.plan, TargetPlan::Linked("a/old".into()));
    assert_eq!(
        d.conflict.as_deref(),
        Some("collection \"New\": renamed in Lightroom to a/new, but an album already sits there — left at a/old")
    );
    let relinked = resolve_target("New", "a/new", Some("a/old"), false, true, true);
    assert_eq!(relinked.plan, TargetPlan::Relink("a/new".into()));
}

#[test]
fn collision_policies_merge_or_suffix_an_existing_album() {
    let taken = vec!["weddings".to_string(), "weddings/ana ivan".to_string()];
    // Suffix: the existing album is left alone and a `-lr` sibling is made.
    let suffix = resolve_target(
        "Ana Ivan",
        "weddings/ana ivan",
        None,
        false,
        true,
        merges_into_existing(MergePolicy::Suffix, false),
    );
    assert_eq!(suffix.plan, TargetPlan::Suffix);
    let free = free_suffixed_path("weddings/ana ivan", &taken).unwrap();
    assert_eq!(free, "weddings/ana ivan-lr");
    let line = suffixed_collision_text("weddings/ana ivan", &free, "Ana Ivan");
    assert!(line.contains("-lr"), "{line}");
    assert_eq!(line, "weddings/ana ivan already exists — created weddings/ana ivan-lr for \"Ana Ivan\"");

    // Merge: the members land in the existing album.
    let merge = resolve_target(
        "Ana Ivan",
        "weddings/ana ivan",
        None,
        false,
        true,
        merges_into_existing(MergePolicy::Merge, false),
    );
    assert_eq!(merge.plan, TargetPlan::Merge("weddings/ana ivan".into()));
    assert_eq!(
        merge.collision.as_deref(),
        Some("weddings/ana ivan already exists — merged \"Ana Ivan\" into it")
    );
}

#[test]
fn the_auto_policy_suffixes_only_against_another_catalogs_album() {
    let hand_made = resolve_target("X", "x", None, false, true, merges_into_existing(MergePolicy::Auto, false));
    assert_eq!(hand_made.plan, TargetPlan::Merge("x".into()));
    let foreign = resolve_target("X", "x", None, false, true, merges_into_existing(MergePolicy::Auto, true));
    assert_eq!(foreign.plan, TargetPlan::Suffix);
    let fresh = resolve_target("X", "x", None, false, false, true);
    assert_eq!(fresh.plan, TargetPlan::Fresh("x".into()));
    // The suffixed album is the `-lr` sibling, and the report says so.
    let taken = vec!["weddings/ana ivan".to_string()];
    let suffixed = free_suffixed_path("weddings/ana ivan", &taken).unwrap();
    assert_eq!(suffixed, "weddings/ana ivan-lr");
    let line = suffixed_collision_text("weddings/ana ivan", &suffixed, "Ana Ivan");
    assert!(line.contains("-lr"), "{line}");
}

#[test]
fn suffixes_count_up_past_taken_ones() {
    let taken = vec!["a-lr".to_string(), "a-lr-2".to_string()];
    assert_eq!(free_suffixed_path("a", &taken).unwrap(), "a-lr-3");
    let all: Vec<String> = (1..1000)
        .map(|n| if n == 1 { "a-lr".to_string() } else { format!("a-lr-{n}") })
        .collect();
    match free_suffixed_path("a", &all) {
        Err(e) => assert_eq!(e.message(), "no free album path near a-lr — a thousand suffixes are taken"),
        Ok(p) => panic!("found {p}"),
    }
}

#[test]
fn lightroom_side_deletions_are_reported_never_propagated() {
    let links = vec![(2, "weddings/ana ivan".to_string()), (3, "best of 2026".to_string())];
    let report = deleted_collections(&links, &[1, 2]);
    assert_eq!(report, vec!["album best of 2026 (its Lightroom collection was deleted; kept here)"]);
    assert!(report.iter().any(|d| d.contains("best of 2026")));
    assert!(deleted_collections(&links, &[2, 3]).is_empty());
    // Image 1000 is gone from the catalog; its photo is named, and kept.
    let image_links = vec![
        (1000, 7, Some("shoot-a/a1.jpg".to_string())),
        (1001, 8, Some("shoot-a/a2.jpg".to_string())),
        (1002, 9, None),
    ];
    let gone = deleted_images(&image_links, &[1001]);
    assert!(gone.iter().any(|d| d.contains("a1.jpg")), "the deleted image must be named: {gone:?}");
    assert_eq!(gone, vec!["shoot-a/a1.jpg (deleted in Lightroom; kept here)", "photo #9 (deleted in Lightroom; kept here)"]);
}

#[test]
fn collections_become_albums_of_their_kind() {
    let set = collection_album("weddings", "Weddings", LrCollectionKind::CollectionSet);
    assert!(set.is_collection && set.description.is_none());
    assert_eq!(set.title.as_deref(), Some("Weddings"));
    let smart = collection_album("best of 2026", "Best of 2026", LrCollectionKind::Smart);
    assert!(!smart.is_collection);
    assert_eq!(smart.description.as_deref(), Some(SMART_NOTE));
    let plain = collection_album("weddings/ana ivan", "Ana Ivan", LrCollectionKind::Collection);
    assert_eq!(plain.path, "weddings/ana ivan");
    assert!(!plain.is_collection && plain.description.is_none());
}

#[test]
fn lightroom_values_fill_only_what_was_never_set_here() {
    let fresh = lr_fill(0, Flag::Unflagged, &None, 4, Flag::Pick, &Some("Red".into()));
    assert_eq!(fresh.rating, Some(4));
    assert_eq!(fresh.flag, Some(Flag::Pick));
    assert_eq!(fresh.color_label.as_deref(), Some("Red"));

    let by_hand = lr_fill(2, Flag::Reject, &Some("Blue".into()), 5, Flag::Pick, &Some("Red".into()));
    assert_eq!(by_hand.rating, None, "a hand-set rating stays");
    assert_eq!(by_hand.flag, None);
    assert_eq!(by_hand.color_label, None);

    assert_eq!(lr_fill(0, Flag::Unflagged, &None, 9, Flag::Unflagged, &None).rating, Some(5));
    let nothing = lr_fill(0, Flag::Unflagged, &None, 0, Flag::Unflagged, &None);
    assert!(nothing.rating.is_none() && nothing.flag.is_none() && nothing.color_label.is_none());
}

#[test]
fn collection_kinds_come_from_the_creation_id() {
    assert_eq!(collection_kind(Some(CREATION_COLLECTION), "a"), Ok(LrCollectionKind::Collection));
    assert_eq!(collection_kind(Some("com.adobe.ag.library.group"), "a"), Ok(LrCollectionKind::CollectionSet));
    assert_eq!(collection_kind(Some(CREATION_SMART), "a"), Ok(LrCollectionKind::Smart));
    assert_eq!(CREATION_SET, "com.adobe.ag.library.group");
    assert_eq!(
        collection_kind(Some("com.adobe.ag.publish"), "Flickr"),
        Err("collection \"Flickr\" has an unrecognised creationId (com.adobe.ag.publish) — skipped".to_string())
    );
    assert_eq!(
        collection_kind(None, "x"),
        Err("collection \"x\" has an unrecognised creationId (none) — skipped".to_string())
    );
}

fn kw(id: i64, name: Option<&str>, parent: Option<i64>) -> (i64, Option<String>, Option<i64>) {
    (id, name.map(String::from), parent)
}

#[test]
fn a_keyword_tags_with_its_own_name_and_each_ancestors() {
    let nodes = vec![
        kw(1, None, None),
        kw(2, Some("Places"), Some(1)),
        kw(3, Some(" Zagreb "), Some(2)),
        kw(4, Some("Wedding"), Some(1)),
        kw(5, Some("loop"), Some(6)),
        kw(6, Some("Back"), Some(5)),
    ];
    assert_eq!(keyword_names(&nodes, 3), vec!["zagreb", "places"], "the nameless root is left out");
    assert_eq!(keyword_names(&nodes, 4), vec!["wedding"]);
    assert_eq!(keyword_names(&nodes, 5), vec!["loop", "back"], "a cycle stops the walk");
    assert!(keyword_names(&nodes, 99).is_empty());

    let links = vec![(3, 100), (4, 100), (2, 100), (4, 200)];
    assert_eq!(image_keywords(&nodes, &links, 100), vec!["zagreb", "places", "wedding"]);
    assert_eq!(image_keywords(&nodes, &links, 200), vec!["wedding"]);
    assert!(image_keywords(&nodes, &links, 300).is_empty());
}

#[test]
fn a_prefix_and_dest_subdir_steer_where_things_land() {
    let dest = dest_subdir_of(&Some("from-lightroom".into()));
    assert_eq!(dest, "from-lightroom");
    assert_eq!(copy_in_rel(&dest, "shoot-b", "b1.jpg"), "from-lightroom/shoot-b/b1.jpg");
    assert_eq!(dest_subdir_of(&None), "lr");
    assert_eq!(dest_subdir_of(&Some("../x".into())), "_..-x", "made a safe, visible segment");
    assert_eq!(
        album_target(&Some("Lightroom".into()), "weddings/ana ivan").unwrap(),
        "lightroom/weddings/ana ivan"
    );
    assert_eq!(album_target(&None, "weddings/ana ivan").unwrap(), "weddings/ana ivan");
    assert!(album_target(&Some("../up".into()), "x").is_err());
}

#[test]
fn catalog_names_come_from_the_hash_of_its_path() {
    let p = "/Users/ana/Pictures/Lightroom/Catalog.lrcat";
    let hex = blake3::hash(p.as_bytes()).to_hex().to_string();
    assert_eq!(staged_copy_name(p), format!("{}.lrcat", &hex[..16]));
    assert_eq!(path_catalog_id(p), format!("path-{hex}"));
    assert_ne!(staged_copy_name(p), staged_copy_name("/elsewhere/Catalog.lrcat"));
}

fn step(
    linked: Option<i64>,
    root: Option<(String, Placement)>,
    on_disk: bool,
    owner: Option<i64>,
    in_source: Option<String>,
    dest_exists: bool,
    dest_same: bool,
) -> ImageStep {
    image_step(linked, &root, on_disk, owner, &in_source, 1, "lr", "2026/a.jpg", dest_exists, dest_same, 500)
}

#[test]
fn each_image_gets_its_decision() {
    let copy = Some(("Photos".to_string(), Placement::CopyIn));
    assert_eq!(step(Some(4), copy.clone(), false, None, None, false, false), ImageStep::Resync(4));
    assert_eq!(step(None, None, true, None, None, false, false), ImageStep::SkipMissing);
    assert_eq!(step(None, copy.clone(), false, None, None, false, false), ImageStep::SkipMissing);
    assert_eq!(step(None, copy.clone(), true, Some(9), None, false, false), ImageStep::LinkExisting(9));
    assert_eq!(
        step(None, copy.clone(), true, None, None, false, false),
        ImageStep::Copy { rel: "lr/Photos/2026/a.jpg".into(), new_bytes: Some(500) }
    );
    assert_eq!(
        step(None, copy.clone(), true, None, None, true, true),
        ImageStep::Copy { rel: "lr/Photos/2026/a.jpg".into(), new_bytes: None }
    );
    assert_eq!(
        step(None, copy, true, None, None, true, false),
        ImageStep::Conflict(
            "2026/a.jpg: lr/Photos/2026/a.jpg already exists in the library with different bytes — not overwritten, photo skipped".into()
        )
    );
    let nas = Some(("NAS".to_string(), Placement::InSource(3)));
    assert_eq!(
        step(None, nas.clone(), true, Some(9), Some("x/2026/a.jpg".into()), false, false),
        ImageStep::InPlace { rel: "x/2026/a.jpg".into(), source: 3, referenced: true },
        "bytes catalogued elsewhere do not stop an in-place file"
    );
    assert_eq!(
        step(None, nas, true, None, None, false, false),
        ImageStep::Conflict("2026/a.jpg: its file is not under the source it was placed in — skipped".into())
    );
    let primary = Some(("Lib".to_string(), Placement::InSource(1)));
    assert_eq!(
        step(None, primary, true, None, Some("2026/a.jpg".into()), false, false),
        ImageStep::InPlace { rel: "2026/a.jpg".into(), source: 1, referenced: false }
    );
    let would = Some(("Far".to_string(), Placement::WouldReference));
    assert_eq!(
        step(None, would, true, None, None, false, false),
        ImageStep::InPlace { rel: "2026/a.jpg".into(), source: 1, referenced: true }
    );
}

#[test]
fn a_rerun_over_linked_images_adds_no_photo() {
    let mut rep = LrImportReport::default();
    for id in [4, 5, 6] {
        let s = step(Some(id), Some(("Photos".to_string(), Placement::CopyIn)), true, None, None, false, false);
        assert_eq!(s, ImageStep::Resync(id));
        tally(&mut rep, &s, false, 0);
    }
    assert_eq!(rep.photos_copied + rep.photos_linked_existing + rep.photos_in_place, 0);
    assert_eq!(rep.bytes_copied, 0);
    assert!(rep.conflicts.is_empty());
}

#[test]
fn a_dry_run_counts_the_same_and_writes_nothing() {
    let steps = vec![
        ImageStep::Copy { rel: "lr/a".into(), new_bytes: Some(10) },
        ImageStep::InPlace { rel: "b".into(), source: 3, referenced: true },
        ImageStep::LinkExisting(2),
        ImageStep::SkipMissing,
        ImageStep::Conflict("c: clash".into()),
        ImageStep::Resync(7),
    ];
    let mut dry = LrImportReport::default();
    let mut real = LrImportReport::default();
    for s in &steps {
        tally(&mut dry, s, true, 2);
        tally(&mut real, s, false, 1);
        assert_eq!(follow_up(s, true), Writes { copy_file: false, catalogue: false, link: false, metadata: false });
    }
    for r in [&dry, &real] {
        assert_eq!(r.photos_copied, 1);
        assert_eq!(r.photos_in_place, 1);
        assert_eq!(r.photos_referenced, 1);
        assert_eq!(r.photos_linked_existing, 1);
        assert_eq!(r.skipped_missing_files, 1);
        assert_eq!(r.bytes_copied, 10);
        assert_eq!(r.conflicts, vec!["c: clash"]);
    }
    assert_eq!(dry.tags_added, 4, "forecast for the two new photos");
    assert_eq!(real.tags_added, 4, "written for the four that carry metadata");
    assert_eq!(
        follow_up(&steps[0], false),
        Writes { copy_file: true, catalogue: true, link: true, metadata: true }
    );
    assert_eq!(follow_up(&steps[5], false), Writes { copy_file: false, catalogue: false, link: false, metadata: true });
    assert_eq!(follow_up(&steps[4], false), Writes { copy_file: false, catalogue: false, link: false, metadata: false });
}

#[test]
fn a_root_to_register_is_only_reported_on_a_dry_run() {
    assert_eq!(placement_of(RootPlan::Register, true, None), Placement::WouldReference);
    assert_eq!(placement_of(RootPlan::Register, false, Some(5)), Placement::InSource(5));
    assert_eq!(placement_of(RootPlan::Register, false, None), Placement::CopyIn);
    assert_eq!(placement_of(RootPlan::InSource(2), false, None), Placement::InSource(2));
    assert_eq!(placement_of(RootPlan::CopyIn, true, Some(5)), Placement::CopyIn);
}

#[test]
fn an_unimportable_file_is_named() {
    assert_eq!(catalogue_kind("/x/a.JPG", "a.JPG"), Ok(PhotoKind::Photo));
    assert_eq!(
        catalogue_kind("/x/a.txt", "2026/a.txt"),
        Err("2026/a.txt: not a file format this app imports — skipped".to_string())
    );
}

#[test]
fn images_are_joined_to_their_files_and_absences_counted() {
    let images = vec![(1000, Some(10)), (1001, Some(11)), (1002, None), (1003, Some(99)), (1004, Some(12))];
    let files = vec![
        (10, 1, "a1.jpg".to_string()),
        (11, 2, "b.jpg".to_string()),
        (12, 3, "c.jpg".to_string()),
    ];
    let folders = vec![(1, 7, "/shoot-a/".to_string()), (2, 8, "".to_string())];
    let (found, missing) = resolve_images(&images, &files, &folders);
    assert_eq!(found, vec![(1000, 7, "shoot-a/a1.jpg".to_string()), (1001, 8, "b.jpg".to_string())]);
    assert_eq!(missing, 3, "no root file, an unknown file, an unknown folder");
}
