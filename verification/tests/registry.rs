use fs2iso::collect::{ascii_upper, join_image_path, NameRegistry};

#[test]
fn registry_rejects_root_fold_collision() {
    let mut registry = NameRegistry::default();
    registry.reserve("", "readme.TXT", "a/readme.TXT").unwrap();
    let err = registry
        .reserve("", "readme.txt", "b/readme.txt")
        .unwrap_err()
        .message();
    assert!(err.contains("duplicate root name"), "{}", err);
}

#[test]
fn registry_rejects_nested_fold_collision() {
    let mut registry = NameRegistry::default();
    registry.reserve("sub", "X.TXT", "a/sub/X.TXT").unwrap();
    let err = registry
        .reserve("sub", "x.txt", "b/sub/x.txt")
        .unwrap_err()
        .message();
    assert!(err.contains("duplicate image name"), "{}", err);
    assert!(err.contains("directory 'sub'"), "{}", err);
}

#[test]
fn registry_rejects_dir_name_collisions_too() {
    let mut registry = NameRegistry::default();
    registry.reserve("", "Tools", "a/Tools").unwrap();
    let err = registry.reserve("", "tools", "b/tools").unwrap_err().message();
    assert!(err.contains("duplicate root name"), "{}", err);
}

#[test]
fn registry_allows_same_name_in_different_dirs() {
    let mut registry = NameRegistry::default();
    registry.reserve("a", "x.txt", "a/x.txt").unwrap();
    registry.reserve("b", "X.TXT", "b/X.TXT").unwrap();
}

#[test]
fn collisions_name_both_sources() {
    let mut registry = NameRegistry::new();
    registry.reserve("", "a", "\"x/a\"").unwrap();
    assert_eq!(
        registry.reserve("", "A", "\"y/A\"").unwrap_err().message(),
        "duplicate root name 'A' from \"x/a\" and \"y/A\""
    );
    registry.reserve("d", "b", "\"x/d/b\"").unwrap();
    assert_eq!(
        registry.reserve("d", "B", "\"y/d/B\"").unwrap_err().message(),
        "duplicate image name 'B' in directory 'd': collides with 'b' from \"x/d/b\" \
         (ISO9660/FAT names are case-insensitive)"
    );
}

#[test]
fn folding_leaves_other_letters() {
    assert_eq!(ascii_upper("aZ9_é固"), "AZ9_é固");
}

#[test]
fn image_paths_use_slashes() {
    assert_eq!(join_image_path("", "a"), "a");
    assert_eq!(join_image_path("a/b", "c"), "a/b/c");
}
