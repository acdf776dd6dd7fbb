use fs2iso::esp::{
    build_esp, build_esp_with_dirs, check_space, validate_dirs, validate_entries, EspError,
};
use std::io::{Cursor, Read};

fn entry(name: &str) -> (String, Vec<u8>) {
    (name.to_string(), b"content".to_vec())
}

#[test]
fn rejects_case_fold_duplicates_in_same_dir() {
    let err = build_esp(&vec![entry("A.TXT"), entry("a.txt")])
        .unwrap_err()
        .message();
    assert!(err.contains("case-insensitive"), "{}", err);
    // Directories fold too: `A/x` and `a/X` share one real FAT dir.
    let err = build_esp(&vec![entry("A/x.TXT"), entry("a/X.txt")])
        .unwrap_err()
        .message();
    assert!(err.contains("duplicate name"), "{}", err);
}

#[test]
fn allows_case_distinct_names_in_distinct_dirs() {
    build_esp(&vec![entry("dir/x.TXT"), entry("other/x.txt")]).unwrap();
}

#[test]
fn rejects_forbidden_characters() {
    let err = build_esp(&vec![entry("bad:name.txt")]).unwrap_err().message();
    assert!(err.contains("bad:name.txt"), "{}", err);
    assert!(build_esp(&vec![entry("star*name")]).is_err());
}

#[test]
fn rejects_unrepresentable_edges() {
    // trailing dot / space and empty components are FAT-hostile
    assert!(build_esp(&vec![entry("tail.")]).is_err());
    assert!(build_esp(&vec![entry("tail ")]).is_err());
    assert!(build_esp(&vec![entry("")]).is_err());
    assert!(build_esp(&vec![entry("/abs")]).is_err());
    assert!(build_esp(&vec![entry("a//b")]).is_err());
}

fn read_back(image: Vec<u8>, path: &str) -> Vec<u8> {
    let fs = fatfs::FileSystem::new(Cursor::new(image), fatfs::FsOptions::new()).unwrap();
    let root = fs.root_dir();
    let mut file = root.open_file(path).unwrap();
    let mut bytes = Vec::new();
    file.read_to_end(&mut bytes).unwrap();
    bytes
}

fn names_in(image: Vec<u8>, path: &str) -> Vec<String> {
    let fs = fatfs::FileSystem::new(Cursor::new(image), fatfs::FsOptions::new()).unwrap();
    let root = fs.root_dir();
    let dir = if path.is_empty() { root } else { root.open_dir(path).unwrap() };
    let mut names: Vec<String> = dir
        .iter()
        .map(|e| e.unwrap().file_name())
        .filter(|n| n != "." && n != "..")
        .collect();
    names.sort();
    names
}

#[test]
fn container_holds_the_payload() {
    let long: Vec<u8> = (0..70_000u32).map(|i| (i * 7 % 251) as u8).collect();
    let entries = vec![
        ("readme.txt".to_string(), b"hello\n".to_vec()),
        ("EFI/BOOT/BOOTX64.EFI".to_string(), long.clone()),
        ("EFI/BOOT/a long name.cfg".to_string(), b"x=1".to_vec()),
        ("固件/更新.bin".to_string(), vec![1, 2, 3]),
    ];
    let image = build_esp(&entries).unwrap();
    assert_eq!(image.len() % 512, 0);
    assert_eq!(&image[510..512], &[0x55, 0xaa]);
    for (path, content) in &entries {
        assert_eq!(&read_back(image.clone(), path), content, "{}", path);
    }
    assert_eq!(names_in(image.clone(), ""), ["EFI", "readme.txt", "固件"]);
    assert_eq!(names_in(image, "EFI/BOOT"), ["BOOTX64.EFI", "a long name.cfg"]);
}

#[test]
fn numbered_names_beside_short_ones() {
    let entries = vec![
        ("LONGFI~1.TXT".to_string(), b"one".to_vec()),
        ("short.txt".to_string(), b"two".to_vec()),
        ("dir~2/a long name indeed.txt".to_string(), b"three".to_vec()),
        ("dir~2/another long name.txt".to_string(), b"four".to_vec()),
    ];
    let image = build_esp(&entries).unwrap();
    for (path, content) in &entries {
        assert_eq!(&read_back(image.clone(), path), content, "{}", path);
    }
    assert_eq!(names_in(image, ""), ["LONGFI~1.TXT", "dir~2", "short.txt"]);
}

#[test]
fn small_payloads_get_the_smallest_container() {
    let image = build_esp(&vec![entry("a")]).unwrap();
    assert_eq!(image.len(), 0x10_0000);
}

#[test]
fn containers_grow_with_the_payload() {
    let image = build_esp(&vec![("a".to_string(), vec![7u8; 0x20_0000])]).unwrap();
    assert!(image.len() > 0x20_0000);
    assert_eq!(read_back(image, "a"), vec![7u8; 0x20_0000]);
}

#[test]
fn nothing_to_pack() {
    assert_eq!(
        build_esp(&vec![]).unwrap_err().message(),
        "nothing to pack into the FAT container"
    );
    assert!(build_esp(&vec![("a".to_string(), vec![])]).is_err());
}

#[test]
fn a_file_is_no_directory() {
    assert!(build_esp(&vec![entry("a"), entry("a/b")]).is_err());
}

#[test]
fn validation_alone() {
    assert!(validate_entries(&vec![entry("a/b"), entry("a/c"), entry("b")]).is_ok());
    let err = validate_entries(&vec![entry("a/B"), entry("A/b")])
        .unwrap_err()
        .message();
    assert!(err.contains("duplicate name"), "{}", err);
    assert!(validate_entries(&vec![entry("a\u{1}b")]).is_err());
}

#[test]
fn directories_without_files_are_there() {
    let dirs = vec!["a/b/c".to_string(), "docs".to_string(), "a".to_string()];
    let entries = vec![entry("docs/readme.txt"), entry("top")];
    let image = build_esp_with_dirs(&dirs, &entries).unwrap();
    assert_eq!(names_in(image.clone(), ""), ["a", "docs", "top"]);
    assert_eq!(names_in(image.clone(), "a"), ["b"]);
    assert_eq!(names_in(image.clone(), "a/b"), ["c"]);
    assert_eq!(names_in(image.clone(), "a/b/c"), Vec::<String>::new());
    assert_eq!(names_in(image, "docs"), ["readme.txt"]);
}

#[test]
fn directories_are_checked_too() {
    let entries = vec![entry("a")];
    for (dir, text) in [
        ("", "empty or trailing-slash component"),
        ("x/", "empty or trailing-slash component"),
        ("/x", "empty path component"),
        ("x//y", "empty path component"),
        ("x/y?", "is not allowed in FAT names"),
        ("x./y", "FAT cannot represent"),
    ] {
        let dirs = vec!["fine".to_string(), dir.to_string()];
        let err = build_esp_with_dirs(&dirs, &entries).unwrap_err().message();
        assert!(err.contains(text), "{}", err);
        assert!(validate_dirs(&dirs).is_err());
    }
    assert!(validate_dirs(&vec!["a".to_string(), "A".to_string()]).is_ok());
    // a directory where a file is
    let err = build_esp_with_dirs(&vec!["a/b".to_string()], &entries).unwrap_err();
    assert!(
        matches!(&err, EspError::CreateDir { component, path, .. } if component == "a" && path == "a/b"),
        "{:?}",
        err
    );
}

#[test]
fn space_is_counted_in_clusters() {
    assert!(check_space(10, 512, 5120).is_ok());
    assert!(check_space(0, 0, 0).is_ok());
    let err = check_space(10, 512, 5121).unwrap_err();
    assert!(matches!(err, EspError::Sizing { free: 5120, payload: 5121 }));
    assert!(check_space(u32::MAX, u32::MAX, u64::MAX as u128).is_err());
}

#[test]
fn tildes_in_long_names() {
    let entries = vec![
        ("setup~1-final.tar.gz".to_string(), b"one".to_vec()),
        ("read me first.txt".to_string(), b"two".to_vec()),
    ];
    let image = build_esp(&entries).unwrap();
    for (path, content) in &entries {
        assert_eq!(&read_back(image.clone(), path), content, "{}", path);
    }
    assert_eq!(names_in(image, ""), ["read me first.txt", "setup~1-final.tar.gz"]);
}

#[test]
fn names_like_short_names_of_others() {
    // "long-name" gets the short name LONG-N~1, or the next one that is free
    for names in [
        ["A~1", "long-name"],
        ["long-name", "A~1"],
        ["LONG-N~1", "long-name"],
        ["long-name", "LONG-N~1.TXT"],
        ["LO12AB~1", "long-name"],
        ["another name.text", "ANOTHE~1.TXT"],
    ] {
        let entries: Vec<(String, Vec<u8>)> =
            names.iter().map(|n| (format!("d/{}", n), n.as_bytes().to_vec())).collect();
        let image = build_esp(&entries).unwrap();
        for (path, content) in &entries {
            assert_eq!(&read_back(image.clone(), path), content, "{:?}", names);
        }
        assert_eq!(names_in(image, "d").len(), 2, "{:?}", names);
    }
}

/// The path that the container refuses because another entry is found there.
fn taken(entries: &Vec<(String, Vec<u8>)>) -> String {
    match build_esp(entries).unwrap_err() {
        EspError::CreateFile { path, cause } => {
            assert!(cause.starts_with("another entry is found under this name"), "{}", cause);
            path
        }
        EspError::CreateDir { component, path, cause } => {
            assert!(cause.starts_with("another entry is found under this name"), "{}", cause);
            format!("{} of {}", component, path)
        }
        other => panic!("{:?}", other),
    }
}

#[test]
fn names_taken_by_others_are_refused() {
    // the short name of "long-name" is LONG-N~1
    assert_eq!(taken(&vec![entry("long-name"), entry("LONG-N~1")]), "LONG-N~1");
    assert_eq!(taken(&vec![entry("d/long-name"), entry("d/LONG-N~1")]), "d/LONG-N~1");
    assert_eq!(taken(&vec![entry("long-name/x"), entry("LONG-N~1")]), "LONG-N~1");
    assert_eq!(
        taken(&vec![entry("long-name"), entry("LONG-N~1/x")]),
        "LONG-N~1 of LONG-N~1/x"
    );
    assert_eq!(
        taken(&vec![entry("long-name/x"), entry("LONG-N~1/y")]),
        "LONG-N~1 of LONG-N~1/y"
    );
    // one directory cannot be two
    assert_eq!(taken(&vec![entry("A/x"), entry("a/y")]), "a of a/y");
    // a path is a file or a directory
    assert_eq!(taken(&vec![entry("a/b"), entry("a")]), "a");
    assert_eq!(taken(&vec![entry("a"), entry("a/b")]), "a of a/b");
    let err = build_esp_with_dirs(&vec!["LONG-N~1".to_string()], &vec![entry("long-name")]);
    assert!(matches!(err, Err(EspError::CreateDir { path, .. }) if path == "LONG-N~1"));
}

#[test]
fn letters_that_differ_in_case_only() {
    for (one, other) in [("É.txt", "é.txt"), ("Я", "я"), ("dir/Ω", "dir/ω")] {
        assert!(build_esp(&vec![entry(one), entry(other)]).is_err(), "{}", one);
    }
    build_esp(&vec![entry("a/É"), entry("b/é")]).unwrap();
}

#[test]
fn names_that_only_look_taken() {
    // the short name of "LONGNAME1.TXT" is LONGNA~1.TXT
    let entries = vec![
        ("LONGNAME1.TXT".to_string(), b"one".to_vec()),
        ("LONGNA~2.TXT".to_string(), b"two".to_vec()),
    ];
    let image = build_esp(&entries).unwrap();
    for (path, content) in &entries {
        assert_eq!(&read_back(image.clone(), path), content, "{}", path);
    }
    assert_eq!(names_in(image, "").len(), 2);
}

#[test]
fn names_that_end_like_the_filling() {
    for name in ["a\u{FFFF}", "d/a\u{FFFF}", "a\u{FFFF}/b"] {
        assert!(
            matches!(
                build_esp(&vec![entry(name)]),
                Err(EspError::BadCharacter { bad: '\u{FFFF}', .. })
            ),
            "{:?}",
            name
        );
    }
    assert!(build_esp_with_dirs(&vec!["a\u{FFFF}".to_string()], &vec![entry("b")]).is_err());
    let image = build_esp(&vec![entry("a\u{FFFF}b")]).unwrap();
    assert_eq!(names_in(image, ""), vec!["a\u{FFFF}b".to_string()]);
}

#[test]
fn directories_without_files_have_room() {
    let mut dirs: Vec<String> = vec!["tree".to_string()];
    for i in 0..320 {
        dirs.push(format!("tree/{}", i));
    }
    let entries = vec![("a".to_string(), vec![7u8; 20_000_000])];
    let image = build_esp_with_dirs(&dirs, &entries).unwrap();
    assert_eq!(names_in(image.clone(), "tree").len(), 320);
    // "tree" has no file below it either: 33 KiB for each, the file and the slack
    assert_eq!(image.len(), (321 * 33_792 + 20_000_000 + 524_288 + 511) / 512 * 512);
    // directories with files below them take no more
    let dirs = vec!["x".to_string(), "x/y".to_string()];
    let entries = vec![("x/y/z".to_string(), vec![1u8; 600_000])];
    assert_eq!(
        build_esp_with_dirs(&dirs, &entries).unwrap().len(),
        build_esp(&entries).unwrap().len()
    );
}

#[test]
fn dotted_and_hidden_names() {
    let entries = vec![
        (".abc".to_string(), b"one".to_vec()),
        ("~1.ABC".to_string(), b"two".to_vec()),
        ("a.b.c".to_string(), b"three".to_vec()),
        ("Straße".to_string(), b"four".to_vec()),
    ];
    let image = build_esp(&entries).unwrap();
    for (path, content) in &entries {
        assert_eq!(&read_back(image.clone(), path), content, "{}", path);
    }
    assert_eq!(names_in(image, "").len(), 4);
}
