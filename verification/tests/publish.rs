use gpp_core::model::{Album, Flag, PhotoKind};
use gpp_core::publish::{
    album_dir, parse_frontmatter, prune_plan, published_filename, render_frontmatter,
    split_filename_collisions, yaml_kv, yaml_scalar, ParsedFrontmatter, PublishOptions,
    PublishResult, FRONTMATTER_FIELDS, needs_transcode, publish_step, record_photo, PublishStep,
    body_step, recorded_with_body, BodyStep,
};

/// The gallery's zod schema, transcribed. If the app starts emitting a key
/// the site doesn't accept, this fails.
const SITE_SCHEMA_KEYS: &[&str] = &[
    "title", "description", "date", "token", "password", "shareToken",
    "allowAnonymous", "sort", "photoOrder", "style", "thumbnail", "tags",
    "isCollection", "order", "hidden", "allowDownload", "proofing",
];

fn album(path: &str) -> Album {
    Album {
        id: 1,
        path: path.into(),
        parent_path: None,
        title: "T".into(),
        description: None,
        date: None,
        token: "tok".into(),
        password: None,
        share_token: None,
        sort: "date-desc".into(),
        style: "grid".into(),
        cover_filename: None,
        is_collection: false,
        hidden: false,
        allow_download: false,
        proofing: false,
        sort_order: None,
        tags: vec![],
        body: None,
    }
}

#[test]
fn emitted_fields_are_a_subset_of_the_site_schema() {
    for field in FRONTMATTER_FIELDS {
        assert!(
            SITE_SCHEMA_KEYS.contains(&field),
            "'{field}' is not in the gallery content schema"
        );
    }
}

#[test]
fn yaml_scalars_are_escaped() {
    assert_eq!(yaml_scalar("plain"), "\"plain\"");
    assert_eq!(yaml_scalar("has: colon"), "\"has: colon\"");
    assert_eq!(yaml_scalar("say \"hi\""), "\"say \\\"hi\\\"\"");
    assert_eq!(yaml_scalar("back\\slash"), "\"back\\\\slash\"");
    // A title that would otherwise parse as a boolean stays a string.
    assert_eq!(yaml_scalar("yes"), "\"yes\"");
}

#[test]
fn control_characters_are_written_as_hex_escapes() {
    assert_eq!(yaml_scalar("a\u{1b}b"), "\"a\\x1bb\"");
    assert_eq!(yaml_scalar("a\u{7f}"), "\"a\\x7f\"");
    assert_eq!(yaml_scalar("l1\nl2\tx\ry"), "\"l1\\nl2\\tx\\ry\"");
}

#[test]
fn a_control_character_cannot_reach_the_frontmatter_raw() {
    for (name, value) in [
        ("a NUL", "Ana\u{0}Ivan"),
        ("a bell", "Ana\u{7}Ivan"),
        ("an escape", "Ana\u{1b}[31mIvan"),
        ("a vertical tab", "Ana\u{b}Ivan"),
        ("a carriage return", "Ana\rIvan"),
        ("DEL", "Ana\u{7f}Ivan"),
    ] {
        let rendered = yaml_scalar(value);
        assert!(
            !rendered.chars().any(|c| (c as u32) < 0x20 || c == '\u{7f}'),
            "{name} reached the frontmatter raw: {rendered:?}"
        );
    }
}

#[test]
fn every_escape_this_module_writes_is_one_it_can_read_back() {
    for value in [
        "Ana\u{0}Ivan",
        "Ana\u{7}Ivan",
        "Ana\rIvan",
        "Ana\tIvan",
        "Ana\nIvan",
        "Ana\u{7f}Ivan",
        r"C:\new\photos",
        "say \"hi\"",
    ] {
        let rendered = format!("---\n{}---\n", yaml_kv("title", value));
        assert_eq!(
            parse_frontmatter(&rendered).title.as_deref(),
            Some(value),
            "round trip of {value:?}"
        );
    }
}

#[test]
fn round_trips_what_we_render() {
    let album = Album {
        id: 1,
        path: "2026/ana".into(),
        parent_path: Some("2026".into()),
        title: "Ana & Ivan: \"the\" day".into(),
        description: Some("Zagreb, lipanj".into()),
        date: Some("2026-06-14".into()),
        token: "abc123".into(),
        password: Some("tajna".into()),
        share_token: Some("SHARE_xyz".into()),
        sort: "custom".into(),
        style: "grid".into(),
        cover_filename: Some("a.jpg".into()),
        is_collection: false,
        hidden: true,
        allow_download: true,
        proofing: true,
        sort_order: Some(3),
        tags: vec!["wedding".into(), "ljeto".into()],
        body: None,
    };
    let photos = vec!["a.jpg".to_string()];

    let rendered = render_frontmatter(&album, &photos);
    let parsed = parse_frontmatter(&rendered);

    assert_eq!(parsed.title.as_deref(), Some("Ana & Ivan: \"the\" day"));
    assert_eq!(parsed.description.as_deref(), Some("Zagreb, lipanj"));
    assert_eq!(parsed.date.as_deref(), Some("2026-06-14"));
    assert_eq!(parsed.token.as_deref(), Some("abc123"));
    assert_eq!(parsed.password.as_deref(), Some("tajna"));
    assert_eq!(parsed.share_token.as_deref(), Some("SHARE_xyz"));
    assert_eq!(parsed.sort.as_deref(), Some("custom"));
    assert_eq!(parsed.style.as_deref(), Some("grid"));
    assert_eq!(parsed.thumbnail.as_deref(), Some("a.jpg"));
    // Rendering preserves the order it is given; the DB is what sorts.
    assert_eq!(parsed.tags, vec!["wedding", "ljeto"]);
    assert_eq!(parsed.photo_order, vec!["a.jpg"]);
    assert!(parsed.hidden);
    assert!(parsed.allow_download);
    assert!(parsed.proofing);
    assert!(!parsed.is_collection);
    assert_eq!(parsed.order, Some(3));
}

#[test]
fn handles_minimal_and_malformed_input() {
    let minimal = parse_frontmatter("---\ntitle: \"X\"\n---\n");
    assert_eq!(minimal.title.as_deref(), Some("X"));
    assert!(minimal.tags.is_empty());

    assert_eq!(parse_frontmatter(""), ParsedFrontmatter::default());
    assert_eq!(parse_frontmatter("no fences here"), ParsedFrontmatter::default());
}

#[test]
fn a_backslash_in_a_field_survives_the_round_trip() {
    for value in [r"C:\new\photos", r"a\nb", r"a\b", "say \"hi\"", "plain"] {
        let rendered = format!("---\n{}---\n", yaml_kv("title", value));
        assert_eq!(
            parse_frontmatter(&rendered).title.as_deref(),
            Some(value),
            "round trip of {value:?}"
        );
    }
}

#[test]
fn accepts_js_yaml_single_quoted_scalars() {
    let p = parse_frontmatter("---\ntitle: 'Ana: the day'\npassword: 'tajna lozinka'\n---\n");
    assert_eq!(p.title.as_deref(), Some("Ana: the day"));
    assert_eq!(p.password.as_deref(), Some("tajna lozinka"));

    let doubled = parse_frontmatter("---\ntitle: 'it''s the day'\n---\n");
    assert_eq!(doubled.title.as_deref(), Some("it's the day"));

    // And the double-quoted style this module writes is unaffected.
    let ours = parse_frontmatter("---\ntitle: \"it's 'quoted'\"\n---\n");
    assert_eq!(ours.title.as_deref(), Some("it's 'quoted'"));
}

#[test]
fn accepts_unquoted_scalars() {
    let p = parse_frontmatter("---\ntitle: Plain Title\nsort: name\n---\n");
    assert_eq!(p.title.as_deref(), Some("Plain Title"));
    assert_eq!(p.sort.as_deref(), Some("name"));
}

#[test]
fn flags_and_order_read_only_their_own_spelling() {
    let p = parse_frontmatter("---\nhidden: yes\nproofing: true\norder: -7\nunknown: x\n---\n");
    assert!(!p.hidden);
    assert!(p.proofing);
    assert_eq!(p.order, Some(-7));
    let q = parse_frontmatter("---\norder: 99999999999999999999\n---\n");
    assert_eq!(q.order, None);
}

#[test]
fn heif_frames_publish_as_jpeg() {
    assert_eq!(published_filename("IMG_1.HEIC"), "IMG_1.jpg");
    assert_eq!(published_filename("a.b.heif"), "a.b.jpg");
    assert_eq!(published_filename("a.jpg"), "a.jpg");
    assert_eq!(published_filename("noext"), "noext");
}

#[test]
fn a_heic_cover_is_named_by_its_published_name() {
    let mut a = album("a");
    a.cover_filename = Some("x.heic".into());
    let index = render_frontmatter(&a, &["x.heic".to_string()]);
    assert!(index.contains("thumbnail: \"x.jpg\"\n"), "{index}");
    a.cover_filename = Some("not-here.jpg".into());
    let index = render_frontmatter(&a, &["x.heic".to_string()]);
    assert!(!index.contains("thumbnail:"));
}

#[test]
fn custom_sort_lists_the_published_names_in_album_order() {
    let mut a = album("a");
    a.sort = "custom".into();
    let index = render_frontmatter(&a, &["2.jpg".to_string(), "1.heic".to_string()]);
    let block = index.split("photoOrder:\n").nth(1).unwrap();
    let lines: Vec<&str> = block.lines().take(2).collect();
    assert_eq!(lines, vec!["  - \"2.jpg\"", "  - \"1.jpg\""]);
    a.sort = "date-desc".into();
    assert!(!render_frontmatter(&a, &["2.jpg".to_string()]).contains("photoOrder"));
}

#[test]
fn blank_optional_fields_are_left_out() {
    let mut a = album("a");
    a.description = Some("   ".into());
    a.password = Some(" tajna ".into());
    let index = render_frontmatter(&a, &[]);
    assert!(!index.contains("description:"));
    assert!(index.contains("password: \"tajna\"\n"));
    assert_eq!(
        index,
        "---\ntitle: \"T\"\ntoken: \"tok\"\npassword: \"tajna\"\nsort: \"date-desc\"\nstyle: \"grid\"\n---\n"
    );
}

#[test]
fn same_named_photos_are_reported_not_merged() {
    let selected = vec![
        ("cardA/DSC_0001.jpg".to_string(), "DSC_0001.jpg".to_string()),
        ("cardB/DSC_0001.jpg".to_string(), "DSC_0001.jpg".to_string()),
        ("cardA/DSC_0002.jpg".to_string(), "DSC_0002.jpg".to_string()),
    ];
    let (kept, collisions) = split_filename_collisions("a", &selected);
    assert_eq!(kept, vec![0, 2]);
    assert_eq!(collisions.len(), 1);
    assert_eq!(collisions[0].dest, "a/DSC_0001.jpg");
    assert_eq!(
        collisions[0].sources,
        vec!["cardA/DSC_0001.jpg".to_string(), "cardB/DSC_0001.jpg".to_string()]
    );
}

#[test]
fn collisions_come_ordered_by_name() {
    let selected = vec![
        ("x/z.jpg".to_string(), "z.jpg".to_string()),
        ("y/z.jpg".to_string(), "z.jpg".to_string()),
        ("x/b.heic".to_string(), "b.heic".to_string()),
        ("y/b.jpg".to_string(), "b.jpg".to_string()),
        ("w/z.jpg".to_string(), "z.jpg".to_string()),
    ];
    let (kept, collisions) = split_filename_collisions("al", &selected);
    assert_eq!(kept, vec![0, 2]);
    let dests: Vec<&str> = collisions.iter().map(|c| c.dest.as_str()).collect();
    assert_eq!(dests, vec!["al/b.jpg", "al/z.jpg"]);
    assert_eq!(collisions[1].sources, vec!["x/z.jpg", "y/z.jpg", "w/z.jpg"]);
}

#[test]
fn a_missing_photo_only_spares_itself_from_the_prune() {
    let recorded = vec!["gone.jpg".to_string(), "keep.jpg".to_string(), "my-gone.jpg".to_string()];
    let current = vec!["keep.jpg".to_string()];
    let missing = vec!["a/my-gone.jpg".to_string()];
    let (removed, record) = prune_plan("a", &recorded, &current, &missing);
    assert_eq!(removed, vec!["a/gone.jpg".to_string()]);
    let mut record = record;
    record.sort();
    assert_eq!(record, vec!["keep.jpg".to_string(), "my-gone.jpg".to_string()]);
}

#[test]
fn files_nobody_recorded_are_never_pruned() {
    let (removed, _) = prune_plan("a", &[], &["x.jpg".to_string()], &[]);
    assert!(removed.is_empty());
}

#[test]
fn the_default_publish_skips_rejects_and_raw() {
    let o = PublishOptions::default();
    assert_eq!(o.min_rating, None);
    assert!(o.exclude_rejected && o.copy_photos);
    assert!(o.selects(PhotoKind::Photo, Flag::Unflagged, 0));
    assert!(o.selects(PhotoKind::Video, Flag::Pick, 0));
    assert!(!o.selects(PhotoKind::Photo, Flag::Reject, 5));
    assert!(!o.selects(PhotoKind::Raw, Flag::Pick, 5));
    let strict = PublishOptions { min_rating: Some(3), exclude_rejected: false, copy_photos: true };
    assert!(!strict.selects(PhotoKind::Photo, Flag::Pick, 2));
    assert!(strict.selects(PhotoKind::Photo, Flag::Reject, 3));
}

#[test]
fn album_dirs_sit_under_the_destination() {
    assert_eq!(album_dir("/site/albums", "2026/ana"), "/site/albums/2026/ana");
    assert_eq!(album_dir("/site/albums/", "x"), "/site/albums/x");
    let r = PublishResult::default();
    assert!(r.written.is_empty() && r.collisions.is_empty());
}

fn file(path: &str, hash: &str) -> (Vec<String>, String) {
    (path.split('/').map(|s| s.to_string()).collect(), hash.to_string())
}

#[test]
fn manifest_skips_server_owned_meta() {
    let m = gpp_core::publish::manifest_of(&[
        file("a/index.md", "h1"),
        file("a/.meta/proofing/x.json", "h2"),
        file(".hidden", "h3"),
    ]);
    assert_eq!(m, vec![("a/index.md".to_string(), "h1".to_string())]);
    assert!(!m.iter().any(|(k, _)| k.contains(".meta")));
}

#[test]
fn the_manifest_is_ordered_by_path_and_keeps_the_last_hash() {
    let m = gpp_core::publish::manifest_of(&[
        file("b/2.jpg", "x"),
        file("a/index.md", "y"),
        file("b/1.jpg", "z"),
        file("a/index.md", "w"),
    ]);
    let keys: Vec<&str> = m.iter().map(|(k, _)| k.as_str()).collect();
    assert_eq!(keys, vec!["a/index.md", "b/1.jpg", "b/2.jpg"]);
    assert_eq!(m[0].1, "w");
}

#[test]
fn each_photo_ships_skips_or_is_named() {
    // Never decoded: not shipped.
    assert_eq!(publish_step(PhotoKind::Photo, None, None, Some(false), true, false, true), PublishStep::Unrenderable);
    // A video has no dimensions to record and still ships.
    assert_eq!(publish_step(PhotoKind::Video, None, None, Some(false), true, false, true), PublishStep::Copy);
    // Developing failed: unrenderable where the original is there, missing where it is not.
    assert_eq!(publish_step(PhotoKind::Photo, Some(10), Some(10), None, true, false, false), PublishStep::Unrenderable);
    assert_eq!(publish_step(PhotoKind::Photo, Some(10), Some(10), None, false, false, false), PublishStep::Missing);
    assert_eq!(publish_step(PhotoKind::Photo, Some(10), Some(10), Some(true), true, true, true), PublishStep::Skip);
    assert_eq!(publish_step(PhotoKind::Photo, Some(10), Some(10), Some(false), false, false, false), PublishStep::Missing);
    assert_eq!(publish_step(PhotoKind::Photo, Some(10), None, Some(true), true, false, true), PublishStep::Copy);
}

#[test]
fn only_an_undeveloped_heif_is_transcoded() {
    assert!(needs_transcode("a.HEIC", false));
    assert!(!needs_transcode("a.HEIC", true), "a developed frame is already a JPEG");
    assert!(!needs_transcode("a.jpg", false));
}

#[test]
fn each_photo_step_is_recorded() {
    let mut r = PublishResult::default();
    record_photo(&mut r, "2026/ana", "shoot/a.jpg", "a.jpg", PublishStep::Copy, 120);
    record_photo(&mut r, "2026/ana", "shoot/b.jpg", "b.jpg", PublishStep::Skip, 0);
    record_photo(&mut r, "2026/ana", "shoot/c.jpg", "c.jpg", PublishStep::Missing, 0);
    record_photo(&mut r, "2026/ana", "shoot/d.heic", "d.jpg", PublishStep::Unrenderable, 0);
    assert_eq!(r.written, vec!["2026/ana/a.jpg", "2026/ana/b.jpg"]);
    assert_eq!(r.photos_copied, 1);
    assert_eq!(r.photos_skipped, 1);
    assert_eq!(r.bytes_copied, 120);
    assert_eq!(r.missing, vec!["shoot/c.jpg"]);
    assert_eq!(r.unrenderable, vec!["shoot/d.heic"]);
}

#[test]
fn body_is_written_and_removed() {
    // Prose is written, trimmed, and recorded as this library's.
    let none: Vec<String> = Vec::new();
    assert_eq!(body_step(&Some("  # Hello \n".into()), &none), BodyStep::Write("# Hello".into()));
    let recorded = recorded_with_body(vec!["a.jpg".to_string()], true);
    assert_eq!(recorded, vec!["a.jpg", "body.md"]);
    // Cleared: the file it wrote goes.
    assert_eq!(body_step(&None, &recorded), BodyStep::Remove);
    assert_eq!(body_step(&Some("   ".into()), &recorded), BodyStep::Remove);
    // A body.md this library never wrote is someone else's, and stays.
    assert_eq!(body_step(&None, &vec!["a.jpg".to_string()]), BodyStep::Leave);
    assert_eq!(recorded_with_body(vec!["a.jpg".to_string()], false), vec!["a.jpg"]);
}
