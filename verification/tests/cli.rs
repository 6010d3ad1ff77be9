use gpp_core::cli::{direction_from, has, opt, parse_ids, placement_from, positional, scope_from, collision_from, collections_from};
use gpp_core::error::Error;
use gpp_core::lightroom::{LrPlacement, MergePolicy};
use gpp_core::sync::{SyncDirection, SyncScopeKind};

fn args(list: &[&str]) -> Vec<String> {
    list.iter().map(|s| s.to_string()).collect()
}

#[test]
fn options_take_the_next_argument() {
    let a = args(&["--library", "/lib", "--json"]);
    assert_eq!(opt(&a, "--library").as_deref(), Some("/lib"));
    assert_eq!(opt(&a, "--json"), None);
    assert_eq!(opt(&a, "--missing"), None);
    assert!(has(&a, "--json"));
    assert!(!has(&a, "--force"));
}

#[test]
fn the_positional_argument_skips_flags_and_their_values() {
    assert_eq!(positional(&args(&["--library", "/lib", "12,14"])).as_deref(), Some("12,14"));
    assert_eq!(positional(&args(&["--force", "dir"])).as_deref(), Some("dir"));
    assert_eq!(positional(&args(&["--library", "/lib"])), None);
    assert_eq!(positional(&args(&["--library"])), None);
}

#[test]
fn photo_ids_come_from_a_comma_list() {
    assert_eq!(parse_ids(&args(&["12, 14,x,15"])).unwrap(), vec![12, 14, 15]);
    match parse_ids(&args(&["--json"])) {
        Err(Error::Other(m)) => assert_eq!(m, "expected one or more photo ids"),
        other => panic!("{other:?}"),
    }
    match parse_ids(&args(&["x,y"])) {
        Err(Error::Other(m)) => assert_eq!(m, "no valid photo ids given"),
        other => panic!("{other:?}"),
    }
}

#[test]
fn choices_are_read_or_refused_by_name() {
    assert_eq!(direction_from(&args(&["--pull"])), SyncDirection::Pull);
    assert_eq!(direction_from(&args(&["--pull", "--push"])), SyncDirection::Push);
    assert_eq!(direction_from(&args(&[])), SyncDirection::Both);
    assert_eq!(scope_from(&args(&["--scope", "full"])).unwrap(), Some(SyncScopeKind::Full));
    assert_eq!(scope_from(&args(&[])).unwrap(), None);
    match scope_from(&args(&["--scope", "all"])) {
        Err(Error::Other(m)) => assert_eq!(m, "--scope wants web or full, not 'all'"),
        other => panic!("{other:?}"),
    }
    assert_eq!(placement_from(&args(&["--mode", "in-place"])).unwrap(), LrPlacement::InPlace);
    assert_eq!(placement_from(&args(&[])).unwrap(), LrPlacement::Auto);
    assert!(placement_from(&args(&["--mode", "move"])).is_err());
}

#[test]
fn the_collision_policy_comes_from_its_flag() {
    assert_eq!(collision_from(&args(&["x.lrcat"])).unwrap(), MergePolicy::Auto);
    assert_eq!(collision_from(&args(&["--collision", "merge"])).unwrap(), MergePolicy::Merge);
    assert_eq!(collision_from(&args(&["--collision", "suffix"])).unwrap(), MergePolicy::Suffix);
    match collision_from(&args(&["--collision", "both"])) {
        Err(e) => assert_eq!(e.message(), "--collision wants merge or suffix, not 'both'"),
        Ok(p) => panic!("accepted {p:?}"),
    }
}

#[test]
fn collection_patterns_are_split_on_commas_and_trimmed() {
    assert_eq!(
        collections_from(&args(&["--collections", "weddings/*, best of 2026 ,x"])),
        Some(vec!["weddings/*".to_string(), "best of 2026".to_string(), "x".to_string()])
    );
    assert_eq!(collections_from(&args(&["--dry-run"])), None);
}
