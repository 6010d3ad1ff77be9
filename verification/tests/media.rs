use gpp_core::media::{
    classify, is_heif, lqip_data_uri, normalize_exif_datetime, swap_for_orientation, thumb_path,
    NullRawDecoder, RawDecoder, THUMB_SIZES,
};
use gpp_core::model::{camera_label, Flag, PhotoKind};

#[test]
fn classifies_by_extension() {
    assert_eq!(classify("a.JPG"), Some(PhotoKind::Photo));
    assert_eq!(classify("a.cr3"), Some(PhotoKind::Raw));
    assert_eq!(classify("a.mp4"), Some(PhotoKind::Video));
    assert_eq!(classify("a.txt"), None);
    assert_eq!(classify("noext"), None);
}

#[test]
fn a_dotfile_has_no_extension() {
    assert_eq!(classify(".jpg"), None);
    assert_eq!(classify("dir.jpg/file"), None);
    assert_eq!(classify("/cards/a.HEIC"), Some(PhotoKind::Photo));
}

#[test]
fn normalizes_exif_dates() {
    assert_eq!(
        normalize_exif_datetime("2026:06:14 10:30:00").as_deref(),
        Some("2026-06-14T10:30:00")
    );
    assert_eq!(normalize_exif_datetime("0000:00:00 00:00:00"), None);
    assert_eq!(normalize_exif_datetime("garbage"), None);
}

#[test]
fn thumb_paths_are_sharded() {
    let p = thumb_path("/t", "abcdef", "small");
    assert_eq!(p, "/t/ab/abcdef_small.jpg");
}

#[test]
fn thumb_sizes_are_named_smallest_first() {
    assert_eq!(THUMB_SIZES.map(|(n, _)| n), ["small", "medium", "large"]);
    assert_eq!(thumb_path("/t", "a", "large"), "/t/a/a_large.jpg");
}

#[test]
fn null_raw_decoder_declines() {
    let d = NullRawDecoder;
    assert!(!d.supports("cr3"));
    assert!(d.embedded_preview("x.cr3").unwrap().is_none());
}

#[test]
fn sideways_orientations_swap_the_axes() {
    assert_eq!(swap_for_orientation(100, 50, Some(6)), (50, 100));
    assert_eq!(swap_for_orientation(100, 50, Some(8)), (50, 100));
    assert_eq!(swap_for_orientation(100, 50, Some(3)), (100, 50));
    assert_eq!(swap_for_orientation(100, 50, None), (100, 50));
}

#[test]
fn heif_is_told_by_extension() {
    let c = |s: &str| s.chars().collect::<Vec<char>>();
    assert!(is_heif(&c("a.HEIC")));
    assert!(is_heif(&c("x/y.heif")));
    assert!(!is_heif(&c("a.jpg")));
    assert!(!is_heif(&c("heic")));
}

#[test]
fn the_placeholder_is_a_padded_base64_jpeg_uri() {
    assert_eq!(lqip_data_uri(&[0xff, 0xd8, 0xff]), "data:image/jpeg;base64,/9j/");
    assert_eq!(lqip_data_uri(b"M"), "data:image/jpeg;base64,TQ==");
    assert_eq!(lqip_data_uri(b""), "data:image/jpeg;base64,");
}

#[test]
fn flags_round_trip_through_their_stored_names() {
    for f in [Flag::Unflagged, Flag::Pick, Flag::Reject] {
        assert_eq!(Flag::parse(f.as_str()), f);
    }
    assert_eq!(Flag::Unflagged.as_str(), "none");
    assert_eq!(Flag::parse("bogus"), Flag::Unflagged);
    for k in [PhotoKind::Photo, PhotoKind::Raw, PhotoKind::Video] {
        assert_eq!(PhotoKind::parse(k.as_str()), k);
    }
}

#[test]
fn camera_labels_join_make_and_model() {
    assert_eq!(camera_label(Some("NIKON"), Some("Z 6")).as_deref(), Some("NIKON Z 6"));
    assert_eq!(camera_label(None, Some(" X100V ")).as_deref(), Some("X100V"));
    assert_eq!(camera_label(Some("  "), None), None);
    assert_eq!(camera_label(None, None), None);
}
