use fs2iso::names::{
    base_dir_id, base_file_id, joliet_id, sanitize_label, try_base_dir_id, try_base_file_id,
    try_joliet_id, IdSet, BASE_NAME_MAX, JOLIET_MAX,
};

fn base(name: &str) -> String {
    let mut used = IdSet::new();
    String::from_utf8(base_file_id(name, &mut used)).unwrap()
}

fn joliet(name: &str, used: &mut IdSet) -> String {
    let id = joliet_id(name, used);
    let units: Vec<u16> = id
        .chunks_exact(2)
        .map(|c| u16::from_be_bytes([c[0], c[1]]))
        .collect();
    String::from_utf16(&units).unwrap()
}

#[test]
fn simple() {
    assert_eq!(base("readme.txt"), "README.TXT;1");
    assert_eq!(base("BOOTX64.EFI"), "BOOTX64.EFI;1");
    assert_eq!(base("startup.nsh"), "STARTUP.NSH;1");
}

#[test]
fn spaces_and_symbols() {
    // space + '(' are adjacent => double underscore
    assert_eq!(base("my long name (x).efi"), "MY_LONG_NAME__X_.EFI;1");
    assert_eq!(base("a.b.c"), "A_B.C;1");
}

#[test]
fn chinese_falls_back() {
    let id = base("固件更新.bin");
    // UTF-8: each CJK char is 3 bytes => run of '_' (byte-wise mapping)
    assert!(id.starts_with('_'));
    assert!(id.ends_with(".BIN;1"));
    // joliet keeps it intact
    let mut used = IdSet::new();
    let j = joliet_id("固件更新.bin", &mut used);
    let s = String::from_utf16(
        &j.chunks_exact(2)
            .map(|c| u16::from_be_bytes([c[0], c[1]]))
            .collect::<Vec<_>>(),
    )
    .unwrap();
    assert_eq!(s, "固件更新.bin");
}

#[test]
fn hidden_file() {
    assert_eq!(base(".profile"), "_PROFILE;1");
}

#[test]
fn long_name_truncated() {
    let id = base("this_is_a_very_long_file_name_that_should_be_cut.efi");
    assert!(id.len() <= BASE_NAME_MAX + 3); // + ";1"
    assert!(id.ends_with(".EFI;1") || id.ends_with(";1"));
}

#[test]
fn case_collision_unique() {
    let mut used = IdSet::new();
    let a = base_file_id("Readme.TXT", &mut used);
    let b = base_file_id("readme.txt", &mut used);
    assert_ne!(a, b);
    assert!(a.starts_with(b"README.TXT;1"));
    assert_eq!(b, b"README_1.TXT;1");
}

#[test]
fn label() {
    assert_eq!(sanitize_label("my iso 2024!"), "MY_ISO_2024_");
    assert_eq!(sanitize_label("中文标签"), "____________");
    assert_eq!(sanitize_label(""), "FS2ISO");
}

#[test]
fn joliet_len_cap() {
    let mut used = IdSet::new();
    let long = "x".repeat(100);
    let id = joliet_id(&long, &mut used);
    assert!(id.len() <= JOLIET_MAX * 2);
}

#[test]
fn label_keeps_32_characters_and_stays() {
    let once = sanitize_label("a-b c.d/0123456789_ABCDEFGHIJKLMNOPQRSTUVWXYZ");
    assert_eq!(once, "A_B_C_D_0123456789_ABCDEFGHIJKLM");
    assert_eq!(once.len(), 32);
    assert_eq!(sanitize_label(&once), once);
}

#[test]
fn directory_identifiers_have_no_version() {
    let mut used = IdSet::new();
    assert_eq!(base_dir_id("efi tools", &mut used), b"EFI_TOOLS");
    assert_eq!(base_dir_id("EFI_TOOLS", &mut used), b"EFI_TOOLS_1");
    assert_eq!(base_dir_id("Efi?Tools", &mut used), b"EFI_TOOLS_2");
    assert!(used.contains(b"EFI_TOOLS_1"));
    assert!(!used.contains(b"EFI_TOOLS_3"));
}

#[test]
fn suffixes_fit_in_long_identifiers() {
    let mut used = IdSet::new();
    let name = "A".repeat(30);
    assert_eq!(base_dir_id(&name, &mut used), name.as_bytes());
    assert_eq!(base_dir_id(&name, &mut used), ("A".repeat(28) + "_1").as_bytes());
    assert_eq!(base_dir_id(&name, &mut used), ("A".repeat(28) + "_2").as_bytes());
    let mut used = IdSet::new();
    let file = "b".repeat(40) + ".txt";
    assert_eq!(base_file_id(&file, &mut used), ("B".repeat(26) + ".TXT;1").as_bytes());
    assert_eq!(base_file_id(&file, &mut used), ("B".repeat(24) + "_1.TXT;1").as_bytes());
}

#[test]
fn many_equal_names_get_identifiers() {
    let mut used = IdSet::new();
    let name = "same name, and a long one at that.config".to_string();
    let mut ids: Vec<Vec<u8>> = (0..300).map(|_| base_file_id(&name, &mut used)).collect();
    assert_eq!(ids[299], b"SAME_NAME__AND_A_LO_299.CONFIG;1");
    ids.sort();
    ids.dedup();
    assert_eq!(ids.len(), 300);
    let mut used = IdSet::new();
    let mut ids: Vec<Vec<u8>> =
        (0..300).map(|_| joliet_id(&"长".repeat(80), &mut used)).collect();
    ids.sort();
    ids.dedup();
    assert_eq!(ids.len(), 300);
}

#[test]
fn joliet_duplicates_get_a_suffix() {
    let mut used = IdSet::new();
    assert_eq!(joliet("a.txt", &mut used), "a.txt");
    assert_eq!(joliet("A.TXT", &mut used), "A.TXT");
    let again = joliet("a.txt", &mut used);
    assert_ne!(again, "a.txt");
    assert_eq!(again, joliet_again());
}

fn joliet_again() -> String {
    let mut used = IdSet::new();
    joliet("a.txt", &mut used);
    joliet("a.txt", &mut used)
}

#[test]
fn joliet_replaces_forbidden_characters() {
    let mut used = IdSet::new();
    assert_eq!(joliet("a*b:c;d?e", &mut used), "a_b_c;d_e");
}

#[test]
fn trying_finds_an_identifier() {
    let mut used = IdSet::new();
    assert_eq!(try_base_dir_id("Sub", &mut used), Some(b"SUB".to_vec()));
    assert_eq!(try_base_file_id("a.b", &mut used), Some(b"A.B;1".to_vec()));
    assert_eq!(try_joliet_id("x", &mut used), Some(vec![0, b'x']));
}
