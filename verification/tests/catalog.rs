use gpp_core::catalog::{
    like_literal, matches_text, photo_query, search_rows, prefixed_photo_cols, resolve_under, root_display_name, SqlArg,
};
use gpp_core::model::{Flag, PhotoFilter, PhotoSort};

#[test]
fn resolve_rejects_traversal() {
    let root = "/tmp/lib";
    assert!(resolve_under(root, "a/b.jpg").is_ok());
    assert!(resolve_under(root, "../etc/passwd").is_err());
    assert!(resolve_under(root, "a/../../etc").is_err());
    assert!(resolve_under(root, "/etc/passwd").is_err());
    assert!(resolve_under(root, "a\0b").is_err());
}

#[test]
fn resolving_skips_empty_and_dot_segments() {
    assert_eq!(resolve_under("/tmp/lib", "a//./b.jpg").unwrap(), "/tmp/lib/a/b.jpg");
    assert_eq!(resolve_under("/tmp/lib", "").unwrap(), "/tmp/lib");
    assert!(resolve_under("/tmp/lib", "\\x").is_err());
    assert_eq!(resolve_under("/tmp/lib/", "a").unwrap(), "/tmp/lib/a");
}

#[test]
fn like_wildcards_are_quoted() {
    assert_eq!(like_literal("DSC_0042"), "DSC\\_0042");
    assert_eq!(like_literal("100% crop"), "100\\% crop");
    assert_eq!(like_literal("back\\slash"), "back\\\\slash");
    assert_eq!(like_literal("plain"), "plain");
}

#[test]
fn photo_columns_take_the_alias() {
    let cols = prefixed_photo_cols("p");
    assert!(cols.starts_with("p.id, p.rel_path, p.filename"));
    assert!(cols.ends_with("p.imported_at, p.source_id"));
}

#[test]
fn album_order_without_an_album_names_no_album_column() {
    let q = photo_query(&PhotoFilter { sort: PhotoSort::AlbumOrder, ..Default::default() });
    assert!(!q.sql.contains("ap.position"));
    assert!(q.sql.ends_with(" ORDER BY p.filename ASC"));
    let q = photo_query(&PhotoFilter {
        sort: PhotoSort::AlbumOrder,
        album_path: Some("a".into()),
        ..Default::default()
    });
    assert!(q.sql.contains(" JOIN album_photos ap ON ap.photo_id = p.id"));
    assert!(q.sql.ends_with(" ORDER BY ap.position ASC, p.filename ASC"));
}

#[test]
fn search_text_is_matched_over_the_rows_not_in_sql() {
    let q = photo_query(&PhotoFilter {
        text: Some("DSC_0042".into()),
        limit: Some(10),
        offset: Some(2),
        ..Default::default()
    });
    assert!(q.args.is_empty());
    assert!(!q.sql.contains("LIKE"));
    assert!(!q.sql.contains("LIMIT"), "the cap applies after the search");
}

fn rows(names: &[&str]) -> Vec<(String, Option<String>, Option<String>)> {
    names.iter().map(|n| (n.to_string(), None, None)).collect()
}

#[test]
fn a_wildcard_in_a_filename_is_searched_for_literally() {
    let r = rows(&["DSC_0042.jpg", "DSCF0042.jpg", "DSC-0042.jpg", "100% crop.jpg", "back\\slash.jpg"]);
    assert_eq!(search_rows("DSC_0042", &r, None, None), vec![0]);
    assert_eq!(search_rows("%", &r, None, None), vec![3]);
    assert_eq!(search_rows("back\\slash", &r, None, None), vec![4]);
}

#[test]
fn search_folds_case_beyond_ascii() {
    let r = rows(&["ČAS.jpg", "čas-2.jpg", "other.jpg"]);
    assert_eq!(search_rows("čas", &r, None, None), vec![0, 1]);
    assert_eq!(search_rows("ČAS", &r, None, None), vec![0, 1]);
    assert!(matches_text("film x-t", "a.jpg", &Some("FUJIFILM".into()), &Some("X-T5".into())));
    assert!(matches_text("x-t5", "a.jpg", &None, &Some("X-T5".into())));
    assert!(!matches_text("canon", "a.jpg", &Some("FUJIFILM".into()), &None));
}

#[test]
fn the_row_cap_applies_to_the_matches() {
    let r = rows(&["a1", "b", "a2", "a3", "a4"]);
    assert_eq!(search_rows("a", &r, Some(2), Some(1)), vec![2, 3]);
    assert_eq!(search_rows("a", &r, Some(10), None), vec![0, 2, 3, 4]);
    assert_eq!(search_rows("a", &r, Some(2), Some(9)), Vec::<usize>::new());
    assert_eq!(search_rows("a", &r, None, Some(2)), vec![0, 2, 3, 4], "an offset needs a limit");
}

#[test]
fn conditions_are_anded_in_order_with_their_values() {
    let q = photo_query(&PhotoFilter {
        min_rating: Some(3),
        flag: Some(Flag::Pick),
        captured_to: Some("2026-06-14".into()),
        limit: Some(50),
        offset: Some(100),
        ..Default::default()
    });
    assert!(q.sql.contains(" WHERE p.rating >= ? AND p.flag = ? AND p.captured_at <= ?"));
    assert!(q.sql.ends_with(" LIMIT 50 OFFSET 100"));
    let values: Vec<String> = q
        .args
        .iter()
        .map(|a| match a {
            SqlArg::Text(t) => t.clone(),
            SqlArg::Int(i) => i.to_string(),
        })
        .collect();
    assert_eq!(values, vec!["3", "pick", "2026-06-14T23:59:59Z"]);
    let q = photo_query(&PhotoFilter { offset: Some(5), ..Default::default() });
    assert!(!q.sql.contains("OFFSET"));
    assert!(q.args.is_empty());
    assert!(!q.sql.contains("WHERE"));
}

#[test]
fn roots_are_named_by_their_last_folder() {
    assert_eq!(root_display_name("/Volumes/NAS/Photos"), "Photos");
    assert_eq!(root_display_name("/"), "/");
    assert_eq!(root_display_name("/a/b/"), "b");
}
