use gpp_core::error::Error;
use gpp_core::import::{content_hash, scan_dir, summarize, to_rel, unchanged, FileOutcome};

#[test]
fn an_unchanged_file_is_passed_over_unless_forced() {
    assert!(unchanged(false, Some((1200, 55)), 1200, 55));
    assert!(!unchanged(true, Some((1200, 55)), 1200, 55), "force re-reads everything");
    assert!(!unchanged(false, Some((1200, 55)), 1201, 55), "a new size is a change");
    assert!(!unchanged(false, Some((1200, 55)), 1200, 56), "a new mtime is a change");
    assert!(!unchanged(false, None, 1200, 55), "never catalogued");
}

#[test]
fn the_summary_counts_each_kind_of_outcome() {
    let outcomes = vec![
        FileOutcome::Written { was_known: false, same_bytes_elsewhere: false },
        FileOutcome::Unchanged,
        FileOutcome::Failed { rel_path: "a/broken.jpg".into(), message: "truncated".into() },
        FileOutcome::Written { was_known: false, same_bytes_elsewhere: true },
        FileOutcome::Written { was_known: true, same_bytes_elsewhere: true },
        FileOutcome::Unchanged,
        FileOutcome::Failed { rel_path: "b/x.cr3".into(), message: "unreadable".into() },
    ];
    let s = summarize(&outcomes);
    assert_eq!(s.imported, 2, "a duplicate is still a new row");
    assert_eq!(s.duplicates, 1);
    assert_eq!(s.updated, 1);
    assert_eq!(s.skipped, 2);
    assert_eq!(
        s.failed,
        vec![
            ("a/broken.jpg".to_string(), "truncated".to_string()),
            ("b/x.cr3".to_string(), "unreadable".to_string()),
        ]
    );
    assert_eq!(s.copied_in, 0);
    assert!(!s.cancelled && s.undecodable.is_empty() && s.copied_into.is_none());
}

#[test]
fn an_empty_run_reports_nothing() {
    let s = summarize(&[]);
    assert_eq!((s.imported, s.duplicates, s.updated, s.skipped), (0, 0, 0, 0));
    assert!(s.failed.is_empty());
}

#[test]
fn content_hashes_are_blake3_hex() {
    let bytes = b"the negative";
    assert_eq!(content_hash(bytes), blake3::hash(bytes).to_hex().to_string());
    assert_eq!(content_hash(&[]).len(), 64);
    assert_ne!(content_hash(b"a"), content_hash(b"b"));
}

#[test]
fn a_scan_stays_inside_the_library() {
    assert_eq!(scan_dir("/lib", "2026/shoot").unwrap(), "/lib/2026/shoot");
    assert_eq!(scan_dir("/lib", "/lib/2026").unwrap(), "/lib/2026");
    assert_eq!(scan_dir("/lib/", "a").unwrap(), "/lib/a");
    match scan_dir("/lib", "/elsewhere") {
        Err(Error::InvalidPath(p)) => assert_eq!(p, "/elsewhere"),
        other => panic!("{other:?}"),
    }
    assert!(scan_dir("/lib", "/library").is_err(), "a prefix of the text is not a folder above");
}

#[test]
fn files_get_library_relative_paths() {
    assert_eq!(to_rel("/lib", "/lib/2026/a.jpg").as_deref(), Some("2026/a.jpg"));
    assert_eq!(to_rel("/lib/", "/lib//2026/./a.jpg").as_deref(), Some("2026/a.jpg"));
    assert_eq!(to_rel("/lib", "/lib").as_deref(), Some(""));
    assert_eq!(to_rel("/lib", "/other/a.jpg"), None);
    assert_eq!(to_rel("/lib", "/libx/a.jpg"), None);
}
