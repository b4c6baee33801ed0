use grf_patcher::patch_list::{
    contains_index, filter_unapplied_patches, manifest_from_response, parse_patch_list,
    record_applied, sort_patches, LocalCache, PatchListError,
};

#[test]
fn parses_basic_lines() {
    let list = parse_patch_list("0 a.zip\n1 b.zip\n");
    assert_eq!(list.len(), 2);
    assert_eq!(list[0].index, 0);
    assert_eq!(list[0].filename, "a.zip");
    assert_eq!(list[1].index, 1);
    assert_eq!(list[1].filename, "b.zip");
}

#[test]
fn skips_blank_comment_and_malformed_lines() {
    let body = "// header comment\n# another\n\n   \nnot-a-number x.zip\n7 good.zip\n";
    let list = parse_patch_list(body);
    assert_eq!(list.len(), 1);
    assert_eq!(list[0].index, 7);
    assert_eq!(list[0].filename, "good.zip");
}

#[test]
fn single_token_line_gets_positional_index() {
    let list = parse_patch_list("first.zip\n5 named.zip\nthird.zip\n");
    assert_eq!(list.len(), 3);
    assert_eq!(list[0].index, 0);
    assert_eq!(list[0].filename, "first.zip");
    assert_eq!(list[1].index, 5);
    assert_eq!(list[2].index, 2);
    assert_eq!(list[2].filename, "third.zip");
}

#[test]
fn parses_options() {
    let list = parse_patch_list(
        "3 p.zip target=other.grf extract=true hash=cafe size=1234 future=ignored\n",
    );
    assert_eq!(list.len(), 1);
    let p = &list[0];
    assert_eq!(p.target_grf.as_deref(), Some("other.grf"));
    assert!(p.force_extract);
    assert_eq!(p.hash.as_deref(), Some("cafe"));
    assert_eq!(p.size, Some(1234));
}

#[test]
fn malformed_option_values_are_tolerated() {
    let list = parse_patch_list("1 p.zip extract=no size=abc plain\n");
    assert_eq!(list.len(), 1);
    assert!(!list[0].force_extract);
    assert_eq!(list[0].size, None);
}

#[test]
fn plus_prefixed_index_is_accepted() {
    let list = parse_patch_list("+5 p.zip\n+ bad.zip\n");
    assert_eq!(list.len(), 1);
    assert_eq!(list[0].index, 5);
    assert_eq!(list[0].filename, "p.zip");
}

#[test]
fn overflowing_index_skips_the_line() {
    let list = parse_patch_list("4294967296 too-big.zip\n4294967295 max.zip\n");
    assert_eq!(list.len(), 1);
    assert_eq!(list[0].index, u32::MAX);
}

#[test]
fn sorts_by_index_stably() {
    let list = parse_patch_list("2 c.zip\n1 b.zip\n1 b2.zip\n0 a.zip\n");
    let sorted = sort_patches(list);
    let names: Vec<&str> = sorted.iter().map(|p| p.filename.as_str()).collect();
    assert_eq!(names, vec!["a.zip", "b.zip", "b2.zip", "c.zip"]);
}

#[test]
fn response_404_is_an_empty_list() {
    let r = manifest_from_response(404, "ignored\n0 a.zip").unwrap();
    assert!(r.is_empty());
}

#[test]
fn response_failure_is_an_error() {
    let e = manifest_from_response(500, "").unwrap_err();
    assert!(matches!(e, PatchListError::ManifestFetch(500)));
}

#[test]
fn response_success_is_parsed_and_sorted() {
    let r = manifest_from_response(200, "1 b.zip\n0 a.zip").unwrap();
    assert_eq!(r.len(), 2);
    assert_eq!(r[0].filename, "a.zip");
    assert_eq!(r[1].filename, "b.zip");
}

#[test]
fn filters_applied_patches() {
    let list = manifest_from_response(200, "0 a.zip\n1 b.zip\n2 c.zip").unwrap();
    let mut cache = LocalCache::default();
    record_applied(&mut cache, 0);
    record_applied(&mut cache, 2);
    let left = filter_unapplied_patches(&list, &cache);
    assert_eq!(left.len(), 1);
    assert_eq!(left[0].filename, "b.zip");
}

#[test]
fn cache_records_monotonically() {
    let mut cache = LocalCache::default();
    assert_eq!(cache.last_patch_id, 0);
    assert!(cache.installed_patches.is_empty());
    record_applied(&mut cache, 5);
    record_applied(&mut cache, 2);
    record_applied(&mut cache, 5);
    assert_eq!(cache.last_patch_id, 5);
    assert_eq!(cache.installed_patches, vec![5, 2]);
    assert!(contains_index(&cache.installed_patches, 2));
    assert!(!contains_index(&cache.installed_patches, 3));
}
