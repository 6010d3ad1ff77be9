use gpp_core::error::Error;
use gpp_core::import::{is_hidden, ImportOptions};

#[test]
fn errors_read_as_a_person_would_want() {
    assert_eq!(Error::InvalidPath("../x".into()).message(), "invalid path: ../x");
    assert_eq!(
        Error::SourceOffline { name: "NAS".into(), path: "/Volumes/NAS".into() }.message(),
        "source 'NAS' is not available (expected at /Volumes/NAS)"
    );
    assert_eq!(Error::other("boom").message(), "boom");
}

#[test]
fn dotfiles_are_walked_past() {
    assert!(is_hidden("/lib/.gpp"));
    assert!(is_hidden(".DS_Store"));
    assert!(!is_hidden("/lib/a.jpg"));
    assert!(!is_hidden("/"));
    let o = ImportOptions::default();
    assert!(o.recursive && o.generate_thumbnails && !o.force);
}
