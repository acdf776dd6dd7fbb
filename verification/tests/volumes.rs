//! Gathering a tree, planning its volume, rendering it and reading it back.
use std::collections::HashMap;
use std::path::PathBuf;

use fs2iso::artifacts::{hide_engine_artifacts, is_artifact, try_hide_engine_artifacts, HideError};
use fs2iso::collect::{Entry, Step};
use fs2iso::gather::{GatherError, Gatherer, Kind};
use fs2iso::iso_fix::{conform, try_conform, ConformError};
use fs2iso::layout::{assign_lbas, can_lay_out, dirs_by_level, dirs_dfs, files_in_order, Ns, SECTOR};
use fs2iso::render::{entry_word_sum, path_entry_bytes, render_image};
use fs2iso::tree::{assign_ids, dfs_all, iso_path_of, try_assign_ids, Tree};

/// Files with their contents, directories without.
fn nodes() -> Vec<(&'static str, Option<&'static [u8]>)> {
    vec![
        ("in", None),
        ("in/readme.txt", Some(b"hello\n")),
        ("in/README.TXT", Some(b"other\n")),
        ("in/efi", None),
        ("in/efi/boot", None),
        ("in/efi/boot/bootx64.efi", Some(b"MZ")),
        ("in/efi/固件.bin", Some(b"\x01\x02\x03")),
        ("in/empty", None),
    ]
}

fn entry(path: &str) -> Entry {
    Entry {
        name: path.rsplit('/').next().unwrap().to_string(),
        path: PathBuf::from(path),
        shown: format!("{:?}", path),
    }
}

fn gather(
    nodes: &[(&str, Option<&[u8]>)],
    inputs: &[&str],
    flat: bool,
) -> Result<Tree, GatherError> {
    let mut g = Gatherer::new(flat);
    for input in inputs {
        let there = nodes.iter().any(|(p, _)| p == input);
        let mut next = g.input(entry(input), there)?;
        while next.1 != Step::Input {
            let at = next.0.path().to_str().unwrap().to_string();
            next = match next.1 {
                Step::Stat => {
                    let kind = match nodes.iter().find(|(p, _)| *p == at).unwrap().1 {
                        Some(content) => Kind::File(content.len() as u64),
                        None => Kind::Dir,
                    };
                    next.0.stated(kind, 1_709_210_096)?
                }
                Step::Resolve => next.0.resolved(at.into_bytes())?,
                _ => {
                    let prefix = format!("{}/", at);
                    let list: Vec<Entry> = nodes
                        .iter()
                        .rev()
                        .filter(|(p, _)| {
                            p.strip_prefix(&prefix).map_or(false, |n| !n.contains('/'))
                        })
                        .map(|(p, _)| entry(p))
                        .collect();
                    next.0.listed(list)?
                }
            };
        }
        g = next.0;
    }
    g.finish()
}

fn names_of(t: &Tree, list: &[usize]) -> Vec<String> {
    list.iter().map(|&i| t.arena[i].name.clone()).collect()
}

#[test]
fn gathering_sorts_by_name() {
    let t = gather(&nodes(), &["in"], false).unwrap();
    assert_eq!(t.root, 0);
    assert_eq!(
        names_of(&t, &dfs_all(&t)),
        ["ROOT", "in", "README.TXT", "efi", "boot", "bootx64.efi", "固件.bin", "empty", "readme.txt"]
    );
    let flat = gather(&nodes(), &["in"], true).unwrap();
    assert_eq!(
        names_of(&flat, &flat.arena[0].children),
        ["README.TXT", "efi", "empty", "readme.txt"]
    );
    for &c in &flat.arena[0].children {
        assert_eq!(flat.arena[c].parent, 0);
    }
}

#[test]
fn gathering_fails() {
    let e = gather(&nodes(), &["out"], false).err().unwrap();
    assert_eq!(e.message(), "input does not exist: \"out\"");
    let e = gather(&nodes(), &[], false).err().unwrap();
    assert_eq!(e.message(), "no payload given");
    let e = gather(&nodes(), &["in/empty"], true).err().unwrap();
    assert!(matches!(e, GatherError::NoPayload));
    let e = gather(&nodes(), &["in/efi", "in/efi"], false).err().unwrap();
    assert_eq!(
        e.message(),
        "duplicate root entry name \"efi\" (two inputs map to the same ISO path)"
    );
}

#[test]
fn gathering_refuses_odd_entries() {
    let (g, step) = Gatherer::new(false).input(entry("in/x"), true).unwrap();
    assert_eq!(step, Step::Stat);
    let e = g.stated(Kind::Other, 0).err().unwrap();
    assert_eq!(
        e.message(),
        "unsupported file type (not a regular file or directory): \"in/x\""
    );
    let (g, _) = Gatherer::new(false).input(entry("in/x"), true).unwrap();
    let e = g.stated(Kind::File(0x1_0000_0000), 0).err().unwrap();
    assert_eq!(e.message(), "file too large for ISO9660 (max 4 GiB): \"in/x\"");
}

#[test]
fn gathering_notices_loops() {
    let (g, _) = Gatherer::new(false).input(entry("d"), true).unwrap();
    let (g, step) = g.stated(Kind::Dir, 0).unwrap();
    assert_eq!(step, Step::Resolve);
    let (g, step) = g.resolved(b"/d".to_vec()).unwrap();
    assert_eq!(step, Step::List);
    let (g, step) = g.listed(vec![entry("d/link")]).unwrap();
    assert_eq!(step, Step::Stat);
    let (g, _) = g.stated(Kind::Dir, 0).unwrap();
    let e = g.resolved(b"/d".to_vec()).err().unwrap();
    assert_eq!(e.message(), "directory loop detected at \"d/link\"");
}

#[test]
fn gathering_ends_at_a_depth() {
    let (mut g, mut step) = Gatherer::new(false).input(entry("d"), true).unwrap();
    for level in 0..100u32 {
        assert_eq!(step, Step::Stat);
        let next = match g.stated(Kind::Dir, 0) {
            Ok((g, _)) => {
                let (g, _) = g.resolved(level.to_be_bytes().to_vec()).unwrap();
                g.listed(vec![entry("d/d")])
            }
            Err(e) => Err(e),
        };
        match next {
            Ok(n) => {
                g = n.0;
                step = n.1;
            }
            Err(e) => {
                assert_eq!(e.message(), "directory nesting too deep at \"d/d\"");
                assert_eq!(level, 64);
                return;
            }
        }
    }
    unreachable!()
}

#[test]
fn identifiers_are_distinct_in_a_directory() {
    let mut t = gather(&nodes(), &["in"], true).unwrap();
    assign_ids(&mut t);
    let ids: Vec<Vec<u8>> = t.arena[0]
        .children
        .iter()
        .map(|&c| t.arena[c].base_id.clone())
        .collect();
    assert_eq!(
        ids,
        [
            b"README.TXT;1".to_vec(),
            b"EFI".to_vec(),
            b"EMPTY".to_vec(),
            b"README_1.TXT;1".to_vec()
        ]
    );
    let efi = t.arena[0].children[1];
    let boot = t.arena[efi].children[0];
    assert_eq!(t.arena[boot].joliet_id, b"\0b\0o\0o\0t");
}

#[test]
fn paths_are_in_lower_case() {
    let t = gather(&nodes(), &["in"], true).unwrap();
    let efi = t.arena[0].children[1];
    let boot = t.arena[efi].children[0];
    let file = t.arena[boot].children[0];
    assert_eq!(iso_path_of(&t, file), "efi/boot/bootx64.efi");
    assert_eq!(iso_path_of(&t, t.arena[0].children[0]), "readme.txt");
    assert_eq!(iso_path_of(&t, t.root), "");
}

#[test]
fn listing_order_makes_no_difference_to_identifiers() {
    let ids = |reversed: bool| {
        let mut t = gather(&nodes(), &["in"], true).unwrap();
        if reversed {
            for n in t.arena.iter_mut() {
                n.children.reverse();
            }
        }
        assign_ids(&mut t);
        let ids: Vec<(Vec<u8>, Vec<u8>)> =
            t.arena.iter().map(|n| (n.base_id.clone(), n.joliet_id.clone())).collect();
        ids
    };
    assert_eq!(ids(false), ids(true));
}

#[test]
fn long_siblings_get_distinct_identifiers() {
    let a = "d/".to_string() + &"a".repeat(40) + "1";
    let b = "d/".to_string() + &"a".repeat(40) + "2";
    let c = "d/".to_string() + &"a".repeat(40) + "3";
    let nodes: Vec<(&str, Option<&[u8]>)> =
        vec![("d", None), (&a, None), (&b, None), (&c, None)];
    let mut t = gather(&nodes, &["d"], false).unwrap();
    assign_ids(&mut t);
    let d = t.arena[0].children[0];
    let ids: Vec<String> = t.arena[d]
        .children
        .iter()
        .map(|&c| String::from_utf8(t.arena[c].base_id.clone()).unwrap())
        .collect();
    assert_eq!(ids, ["A".repeat(30), "A".repeat(28) + "_1", "A".repeat(28) + "_2"]);
}

#[test]
fn orders_of_directories_and_files() {
    let mut t = gather(&nodes(), &["in"], true).unwrap();
    assert!(try_assign_ids(&mut t));
    assert_eq!(names_of(&t, &dirs_dfs(&t, Ns::Base)), ["ROOT", "efi", "boot", "empty"]);
    assert_eq!(names_of(&t, &dirs_by_level(&t, Ns::Base)), ["ROOT", "efi", "empty", "boot"]);
    assert_eq!(
        names_of(&t, &files_in_order(&t)),
        ["README.TXT", "readme.txt", "固件.bin", "bootx64.efi"]
    );
}

// ---------------------------------------------------------------------------
// rendering and reading back
// ---------------------------------------------------------------------------

fn u32_at(b: &[u8], o: usize) -> u32 {
    u32::from_le_bytes([b[o], b[o + 1], b[o + 2], b[o + 3]])
}

fn records(img: &[u8], lba: u32, len: u32) -> Vec<(Vec<u8>, bool, u32, u32)> {
    let start = lba as usize * SECTOR;
    let mut out = Vec::new();
    for sector in 0..len as usize / SECTOR {
        let mut at = start + sector * SECTOR;
        let end = at + SECTOR;
        while at < end && img[at] != 0 {
            let n = img[at] as usize;
            assert_eq!(n % 2, 0, "records have an even length");
            assert!(at + n <= end, "no record straddles a sector boundary");
            let id = img[at + 33..at + 33 + img[at + 32] as usize].to_vec();
            assert_eq!(u32_at(img, at + 2).to_be_bytes(), img[at + 6..at + 10]);
            out.push((id, img[at + 25] & 2 != 0, u32_at(img, at + 2), u32_at(img, at + 10)));
            at += n;
        }
    }
    out
}

fn walk(
    img: &[u8],
    lba: u32,
    len: u32,
    prefix: &[u8],
    out: &mut HashMap<Vec<u8>, Option<Vec<u8>>>,
) {
    for (i, (id, dir, ext, size)) in records(img, lba, len).into_iter().enumerate() {
        if i < 2 {
            assert!(dir);
            assert_eq!(id, [i as u8]);
            if i == 0 {
                assert_eq!((ext, size), (lba, len));
            }
            continue;
        }
        let mut path = prefix.to_vec();
        path.push(b'/');
        path.extend_from_slice(&id);
        if dir {
            out.insert(path.clone(), None);
            walk(img, ext, size, &path, out);
        } else {
            let start = ext as usize * SECTOR;
            out.insert(path, Some(img[start..start + size as usize].to_vec()));
        }
    }
}

fn rendered(boot: bool, joliet: bool) -> (Tree, Vec<u8>) {
    let nodes = nodes();
    let mut t = gather(&nodes, &["in"], true).unwrap();
    assign_ids(&mut t);
    let efi = t.arena[0].children[1];
    let boot_dir = t.arena[efi].children[0];
    let boot = if boot { Some(t.arena[boot_dir].children[0]) } else { None };
    assert!(can_lay_out(&t, boot, joliet));
    let plan = assign_lbas(&mut t, boot, joliet).unwrap();
    let contents: Vec<Vec<u8>> = files_in_order(&t)
        .iter()
        .map(|&f| {
            let src = t.arena[f].src.as_ref().unwrap().to_str().unwrap();
            nodes.iter().find(|(p, _)| *p == src).unwrap().1.unwrap().to_vec()
        })
        .collect();
    let img = render_image(&t, &plan, boot, joliet, b"TOOLS", 1_709_210_096, &contents).unwrap();
    assert_eq!(img.len(), plan.total_sectors as usize * SECTOR);
    (t, img)
}

fn tree_at(img: &[u8], descriptor: usize) -> HashMap<Vec<u8>, Option<Vec<u8>>> {
    let o = descriptor * SECTOR;
    let mut out = HashMap::new();
    walk(img, u32_at(img, o + 158), u32_at(img, o + 166), b"", &mut out);
    out
}

#[test]
fn volumes_read_back() {
    let (_, img) = rendered(true, true);
    assert!(img[..16 * SECTOR].iter().all(|&b| b == 0));
    let base = tree_at(&img, 16);
    assert_eq!(base.len(), 7);
    assert_eq!(base[&b"/README.TXT;1"[..]], Some(b"other\n".to_vec()));
    assert_eq!(base[&b"/README_1.TXT;1"[..]], Some(b"hello\n".to_vec()));
    assert_eq!(base[&b"/EFI/BOOT/BOOTX64.EFI;1"[..]], Some(b"MZ".to_vec()));
    assert_eq!(base[&b"/EMPTY"[..]], None);
    let joliet = tree_at(&img, 17);
    assert_eq!(joliet.len(), 7);
    assert_eq!(joliet[&b"/\0e\0f\0i/V\xfaN\xf6\0.\0b\0i\0n"[..]], Some(vec![1, 2, 3]));
}

#[test]
fn large_directories_span_sectors() {
    let paths: Vec<String> = (0..150).map(|i| format!("d/file number {:03}.txt", i)).collect();
    let mut nodes: Vec<(&str, Option<&[u8]>)> = vec![("d", None)];
    for p in &paths {
        nodes.push((p, Some(p.as_bytes())));
    }
    let mut t = gather(&nodes, &["d"], false).unwrap();
    assign_ids(&mut t);
    let plan = assign_lbas(&mut t, None, true).unwrap();
    let d = t.arena[0].children[0];
    assert!(t.arena[d].sectors > 1 && t.arena[d].jol_sectors > t.arena[d].sectors);
    let contents: Vec<Vec<u8>> = paths.iter().map(|p| p.as_bytes().to_vec()).collect();
    let img = render_image(&t, &plan, None, true, b"X", 0, &contents).unwrap();
    assert_eq!(tree_at(&img, 16).len(), 151);
    let joliet = tree_at(&img, 17);
    assert_eq!(joliet.len(), 151);
    // no two pieces share a sector
    let mut pieces: Vec<(u32, u32)> = Vec::new();
    for n in &t.arena {
        if n.is_dir {
            pieces.push((n.base_lba, n.sectors));
            pieces.push((n.jol_lba, n.jol_sectors));
        } else {
            pieces.push((n.base_lba, 1));
        }
    }
    pieces.sort();
    for pair in pieces.windows(2) {
        assert!(pair[0].0 + pair[0].1 <= pair[1].0);
    }
    let last = pieces[pieces.len() - 1];
    assert_eq!(last.0 + last.1, plan.total_sectors);
}

#[test]
fn descriptors_stand_in_order() {
    let (t, img) = rendered(true, true);
    for (lba, kind) in [(16usize, 1u8), (17, 2), (18, 0), (19, 255)] {
        assert_eq!(img[lba * SECTOR], kind);
        assert_eq!(&img[lba * SECTOR + 1..lba * SECTOR + 6], b"CD001");
    }
    assert_eq!(&img[16 * SECTOR + 40..16 * SECTOR + 46], b"TOOLS ");
    assert_eq!(&img[16 * SECTOR + 813..16 * SECTOR + 829], b"2024022912345600");
    assert_eq!(&img[17 * SECTOR + 88..17 * SECTOR + 97], b"%/@%/C%/E");
    // El Torito
    let catalog = u32_at(&img, 18 * SECTOR + 71) as usize;
    assert_eq!(catalog, 20);
    let entry = &img[catalog * SECTOR..catalog * SECTOR + 32];
    assert_eq!(entry_word_sum(entry) % 65536, 0);
    let efi = t.arena[0].children[1];
    let file = t.arena[t.arena[efi].children[0]].children[0];
    assert_eq!(u32_at(&img, catalog * SECTOR + 40), t.arena[file].base_lba);
}

#[test]
fn plain_volumes_have_two_descriptors() {
    let (_, img) = rendered(false, false);
    assert_eq!(img[16 * SECTOR], 1);
    assert_eq!(img[17 * SECTOR], 255);
    assert_eq!(tree_at(&img, 16).len(), 7);
}

#[test]
fn path_tables_list_directories_by_level() {
    let (_, img) = rendered(false, true);
    let o = 16 * SECTOR;
    let size = u32_at(&img, o + 132) as usize;
    let at = u32_at(&img, o + 140) as usize * SECTOR;
    let table = &img[at..at + size];
    let mut entries = Vec::new();
    let mut i = 0;
    while i < size {
        let n = table[i] as usize;
        entries.push((
            table[i + 8..i + 8 + n].to_vec(),
            u16::from_le_bytes([table[i + 6], table[i + 7]]),
        ));
        i += 8 + n + n % 2;
    }
    assert_eq!(
        entries,
        [
            (b"".to_vec(), 1),
            (b"EFI".to_vec(), 1),
            (b"EMPTY".to_vec(), 1),
            (b"BOOT".to_vec(), 2)
        ]
    );
    assert_eq!(path_entry_bytes(b"EFI", 0x0102, 1, false), b"\x03\0\x02\x01\0\0\x01\0EFI\0");
    assert_eq!(path_entry_bytes(b"BOOT", 0x0102, 2, true), b"\x04\0\0\0\x01\x02\0\x02BOOT");
}

#[test]
fn path_tables_agree_but_for_the_byte_order() {
    let (t, img) = rendered(false, true);
    for descriptor in [16usize, 17] {
        let o = descriptor * SECTOR;
        let size = u32_at(&img, o + 132) as usize;
        let l = u32_at(&img, o + 140) as usize * SECTOR;
        let m = u32::from_be_bytes(img[o + 148..o + 152].try_into().unwrap()) as usize * SECTOR;
        let (little, big) = (&img[l..l + size], &img[m..m + size]);
        let mut i = 0;
        let mut places = Vec::new();
        while i < size {
            let n = little[i] as usize;
            let end = i + 8 + n + n % 2;
            assert_eq!(little[i..i + 2], big[i..i + 2]);
            let mut numbers = big[i + 2..i + 8].to_vec();
            numbers[..4].reverse();
            numbers[4..].reverse();
            assert_eq!(little[i + 2..i + 8], numbers[..]);
            assert_eq!(little[i + 8..end], big[i + 8..end]);
            places.push(u32_at(little, i + 2));
            i = end;
        }
        assert_eq!(i, size);
        let ns = if descriptor == 16 { Ns::Base } else { Ns::Jol };
        let expected: Vec<u32> = dirs_by_level(&t, ns)
            .iter()
            .map(|&d| if descriptor == 16 { t.arena[d].base_lba } else { t.arena[d].jol_lba })
            .collect();
        assert_eq!(places, expected);
    }
}

#[test]
fn files_are_padded_with_zeros() {
    let (t, img) = rendered(true, true);
    for &f in &files_in_order(&t) {
        let start = t.arena[f].base_lba as usize * SECTOR;
        let size = t.arena[f].size as usize;
        assert!(size > 0 && size < SECTOR);
        assert!(img[start..start + size].iter().any(|&b| b != 0));
        assert!(img[start + size..start + SECTOR].iter().all(|&b| b == 0));
    }
}

#[test]
fn directory_blocks_list_children_by_identifier() {
    let (t, img) = rendered(false, true);
    for &d in &dirs_dfs(&t, Ns::Base) {
        let node = &t.arena[d];
        let list = records(&img, node.base_lba, node.sectors * SECTOR as u32);
        assert_eq!(list.len(), node.children.len() + 2);
        assert_eq!(list[0].0, [0]);
        assert_eq!(list[1].0, [1]);
        let up = &t.arena[if d == t.root { d } else { node.parent }];
        assert_eq!(list[1].2, up.base_lba);
        for pair in list[2..].windows(2) {
            assert!(pair[0].0 < pair[1].0);
        }
        for &c in &node.children {
            let child = &t.arena[c];
            let len = if child.is_dir { child.sectors * SECTOR as u32 } else { child.size as u32 };
            assert!(list.contains(&(
                child.base_id.clone(),
                child.is_dir,
                child.base_lba,
                len
            )));
        }
    }
}

#[test]
fn changed_files_are_noticed() {
    let mut t = gather(&nodes(), &["in/readme.txt"], false).unwrap();
    assign_ids(&mut t);
    let plan = assign_lbas(&mut t, None, true).unwrap();
    let e = render_image(&t, &plan, None, true, b"X", 0, &vec![b"longer than it was".to_vec()])
        .unwrap_err();
    assert_eq!(
        e.message("\"in/readme.txt\""),
        "file \"in/readme.txt\" changed size while packing (was 6, now 18)"
    );
}

// ---------------------------------------------------------------------------
// passes over finished images
// ---------------------------------------------------------------------------

#[test]
fn artifacts_have_two_names() {
    assert!(is_artifact("esp.img", true));
    assert!(is_artifact("boot.catalog", true));
    assert!(!is_artifact("ESP.IMG", true));
    assert!(is_artifact("ESP.IMG", false));
    assert!(!is_artifact("readme.txt", false));
}

fn with_artifact(joliet: bool) -> Vec<u8> {
    let nodes: Vec<(&'static str, Option<&'static [u8]>)> =
        vec![("esp.img", Some(b"fat")), ("other.img", Some(b"x"))];
    let mut t = gather(&nodes, &["esp.img", "other.img"], false).unwrap();
    assign_ids(&mut t);
    let plan = assign_lbas(&mut t, None, joliet).unwrap();
    let contents = vec![b"fat".to_vec(), b"x".to_vec()];
    render_image(&t, &plan, None, joliet, b"X", 0, &contents).unwrap()
}

#[test]
fn hiding_sets_one_bit_in_each_namespace() {
    let mut before = with_artifact(true);
    // the escape sequence of a descriptor of Joliet level 3 alone
    before[17 * SECTOR + 88..17 * SECTOR + 97].copy_from_slice(b"%/E\0\0\0\0\0\0");
    let mut after = before.clone();
    hide_engine_artifacts(&mut after).unwrap();
    let changed: Vec<usize> = (0..before.len()).filter(|&i| before[i] != after[i]).collect();
    assert_eq!(changed.len(), 2);
    for i in changed {
        assert_eq!(after[i], before[i] | 1);
        assert_eq!(i % SECTOR, 2 * 34 + 25);
    }
    let mut base_only = with_artifact(false);
    assert!(try_hide_engine_artifacts(&mut base_only).is_ok());
}

#[test]
fn hiding_fails() {
    let (_, img) = rendered(false, true);
    let mut copy = img.clone();
    let e = try_hide_engine_artifacts(&mut copy).unwrap_err();
    assert!(matches!(e, HideError::NoneFound));
    assert_eq!(
        e.message("\"o.iso\""),
        "internal: expected to hide engine artifacts in \"o.iso\", none found"
    );
    assert_eq!(copy, img);
    let mut short = img[..16 * SECTOR].to_vec();
    let e = try_hide_engine_artifacts(&mut short).unwrap_err();
    assert_eq!(e.message(""), "failed to fill whole buffer");
    // the root record says how long its identifier is
    let mut broken = with_artifact(false);
    let root = u32_at(&broken, 16 * SECTOR + 158) as usize * SECTOR;
    broken[root] = 34;
    broken[root + 32] = 200;
    let e = try_hide_engine_artifacts(&mut broken).unwrap_err();
    assert!(matches!(e, HideError::BadRecord));
}

#[test]
fn conforming_appends_path_tables() {
    let (_, img) = rendered(true, true);
    let out = conform(&img, true).unwrap();
    assert_eq!(out.len(), img.len() + 2 * SECTOR);
    let o = 16 * SECTOR;
    let total = (out.len() / SECTOR) as u32;
    assert_eq!(u32_at(&out, o + 80), total);
    assert_eq!(out[o + 84..o + 88], total.to_be_bytes());
    let l = u32_at(&out, o + 140) as usize;
    assert_eq!(l, img.len() / SECTOR);
    assert_eq!(out[o + 148..o + 152], (l as u32 + 1).to_be_bytes());
    assert_eq!(u32_at(&out, o + 132), 8 + 12 + 14 + 12);
    assert_eq!(&out[l * SECTOR + 8 + 8..l * SECTOR + 8 + 11], b"EFI");
    // everything but descriptor and catalog is untouched
    assert_eq!(out[21 * SECTOR..img.len()], img[21 * SECTOR..]);
    assert_eq!(tree_at(&out, 16), tree_at(&img, 16));
}

#[test]
fn conforming_reads_directories_of_many_sectors() {
    let paths: Vec<String> = (0..120).map(|i| format!("d/directory number {:03}", i)).collect();
    let mut nodes: Vec<(&str, Option<&[u8]>)> = vec![("d", None)];
    for p in &paths {
        nodes.push((p, None));
    }
    let mut t = gather(&nodes, &["d"], false).unwrap();
    assign_ids(&mut t);
    let plan = assign_lbas(&mut t, None, false).unwrap();
    assert!(t.arena[t.arena[0].children[0]].sectors > 2);
    let img = render_image(&t, &plan, None, false, b"X", 0, &vec![]).unwrap();
    let out = conform(&img, false).unwrap();
    let o = 16 * SECTOR;
    let size = u32_at(&out, o + 132) as usize;
    let at = u32_at(&out, o + 140) as usize * SECTOR;
    let mut i = 0;
    let mut names = Vec::new();
    while i < size {
        let n = out[at + i] as usize;
        names.push(out[at + i + 8..at + i + 8 + n].to_vec());
        i += 8 + n + n % 2;
    }
    assert_eq!(names.len(), 122);
    assert_eq!(names[121], b"DIRECTORY_NUMBER_119");
}

#[test]
fn conforming_fails_where_the_walk_stops_first() {
    let (t, img) = rendered(false, false);
    let by_name = |name: &str| t.arena.iter().find(|n| n.name == name).unwrap().base_lba;
    let (efi, empty) = (by_name("efi"), by_name("empty"));
    // "efi" lists itself in place of "boot", and "empty" has a broken record
    let mut both = img.clone();
    let at = efi as usize * SECTOR + 2 * 34;
    both[at + 2..at + 6].copy_from_slice(&efi.to_le_bytes());
    both[empty as usize * SECTOR + 32] = 200;
    assert_eq!(try_conform(&both, false).unwrap_err(), ConformError::TooDeep);
    // the other way round
    let mut both = img.clone();
    both[efi as usize * SECTOR + 32] = 200;
    let root = u32_at(&img, 16 * SECTOR + 158) as usize * SECTOR;
    let mut at = root;
    while &img[at + 33..at + 38] != b"EMPTY" {
        at += img[at] as usize;
    }
    both[at + 2..at + 6].copy_from_slice(&((root / SECTOR) as u32).to_le_bytes());
    assert_eq!(try_conform(&both, false).unwrap_err(), ConformError::BadRecord);
}

#[test]
fn conforming_turns_the_catalog_to_efi() {
    let (_, mut img) = rendered(true, true);
    let catalog = 20 * SECTOR;
    img[catalog + 1] = 0;
    let out = conform(&img, true).unwrap();
    assert_eq!(out[catalog + 1], 0xef);
    assert_eq!(entry_word_sum(&out[catalog..catalog + 32]) % 65536, 0);
    let plain = conform(&img, false).unwrap();
    assert_eq!(plain[catalog + 1], 0);
}

#[test]
fn conforming_fails() {
    let e = try_conform(&vec![0u8; 17 * SECTOR], false).unwrap_err();
    assert_eq!(e, ConformError::NoPvd);
    assert_eq!(e.message("o.iso"), "o.iso: PVD not found at sector 16");
    let (_, img) = rendered(false, false);
    // a directory that lists itself as its child
    let mut looped = img.clone();
    let root = u32_at(&img, 16 * SECTOR + 158);
    let at = root as usize * SECTOR + 2 * 34;
    looped[at + 2..at + 6].copy_from_slice(&root.to_le_bytes());
    looped[at + 10..at + 14].copy_from_slice(&(SECTOR as u32).to_le_bytes());
    looped[at + 25] = 2;
    assert_eq!(try_conform(&looped, false).unwrap_err(), ConformError::TooDeep);
    // the volume ends before its descriptor
    let mut small = img.clone();
    small[16 * SECTOR + 80..16 * SECTOR + 84].copy_from_slice(&3u32.to_le_bytes());
    assert_eq!(try_conform(&small, false).unwrap_err(), ConformError::BadSize);
    // a record too short for its identifier
    let mut broken = img.clone();
    broken[root as usize * SECTOR + 32] = 200;
    assert_eq!(try_conform(&broken, false).unwrap_err(), ConformError::BadRecord);
}
