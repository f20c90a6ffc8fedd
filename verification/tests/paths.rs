use mobile_zipper::paths::{
    common_root_folder, entry_path, normalize_entries, normalize_path, strip_common_prefix,
};

#[test]
fn path_normalization_removes_empty_segments() {
    assert_eq!(
        normalize_path("my-folder//nested/./a.txt"),
        "my-folder/nested/a.txt"
    );
}

#[test]
fn strip_common_prefix_when_same_root() {
    let root = common_root_folder(&[
        "photos/2025/img1.jpg".to_string(),
        "photos/2025/img2.jpg".to_string(),
    ]);

    assert_eq!(root.as_deref(), Some("photos"));
    assert_eq!(
        strip_common_prefix("photos/2025/img1.jpg", root.as_deref()),
        "2025/img1.jpg"
    );
}

#[test]
fn keep_paths_when_multiple_roots() {
    let root = common_root_folder(&["a/file1.txt".to_string(), "b/file2.txt".to_string()]);
    assert_eq!(root, None);
}

#[test]
fn backslashes_become_slashes() {
    assert_eq!(normalize_path("dir\\sub\\\\file.txt"), "dir/sub/file.txt");
}

#[test]
fn leading_and_trailing_separators_vanish() {
    assert_eq!(normalize_path("/./a/b/"), "a/b");
    assert_eq!(normalize_path("./"), "");
    assert_eq!(normalize_path(""), "");
    assert_eq!(normalize_path(".hidden/..x"), ".hidden/..x");
}

#[test]
fn normalizing_twice_changes_nothing() {
    let once = normalize_path("x//./y\\z/");
    assert_eq!(normalize_path(&once), once);
}

#[test]
fn no_root_for_empty_list_or_empty_first_segment() {
    assert_eq!(common_root_folder(&[]), None);
    assert_eq!(common_root_folder(&["/a".to_string(), "/b".to_string()]), None);
    assert_eq!(common_root_folder(&["a/x".to_string(), "".to_string()]), None);
}

#[test]
fn single_file_root_is_its_first_segment() {
    assert_eq!(common_root_folder(&["solo.txt".to_string()]).as_deref(), Some("solo.txt"));
    assert_eq!(
        common_root_folder(&["r/a".to_string(), "r".to_string()]).as_deref(),
        Some("r")
    );
}

#[test]
fn strip_needs_separator_after_prefix() {
    assert_eq!(strip_common_prefix("photosx/a.jpg", Some("photos")), "photosx/a.jpg");
    assert_eq!(strip_common_prefix("photos", Some("photos")), "photos");
    assert_eq!(strip_common_prefix("photos/a.jpg", None), "photos/a.jpg");
}

#[test]
fn strip_removes_one_level_only() {
    assert_eq!(strip_common_prefix("photos/photos/a.jpg", Some("photos")), "photos/a.jpg");
}

#[test]
fn entries_lose_shared_root_and_keep_payloads() {
    let entries = vec![
        ("trip//day1/./a.jpg".to_string(), 1u32),
        ("trip\\day2\\b.jpg".to_string(), 2u32),
        ("trip/trip/c.jpg".to_string(), 3u32),
    ];
    let out = normalize_entries(entries);
    assert_eq!(
        out,
        vec![
            ("day1/a.jpg".to_string(), 1u32),
            ("day2/b.jpg".to_string(), 2u32),
            ("trip/c.jpg".to_string(), 3u32),
        ]
    );
}

#[test]
fn entries_with_different_roots_are_only_normalized() {
    let entries = vec![("a//x.txt".to_string(), 'a'), ("b/./y.txt".to_string(), 'b')];
    let out = normalize_entries(entries);
    assert_eq!(out, vec![("a/x.txt".to_string(), 'a'), ("b/y.txt".to_string(), 'b')]);
}

#[test]
fn entry_path_falls_back_to_name() {
    assert_eq!(entry_path(String::new(), "a.txt".to_string()), "a.txt");
    assert_eq!(entry_path("d/a.txt".to_string(), "a.txt".to_string()), "d/a.txt");
}
