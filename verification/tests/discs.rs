//! Whole builds over a file system in memory, read back with a minimal
//! ISO 9660 reader (base and Joliet trees, file contents, El Torito boot
//! entries, hidden flags).
use std::collections::{BTreeMap, HashMap};
use std::io::Cursor;
use std::path::PathBuf;

use fs2iso::collect::{CollectedPayload, Collector, Entry, ImageNode, Step};
use fs2iso::image::{BuildError, BuildSummary, ImageSettings, Options};
use fs2iso::job::{Build, Stage};
use fs2iso::paths::{input_name, output_stem};
use hadris_cd::{Directory, FileEntry, FileTree, OpticalImageOptions, OpticalImageWriter, UdfOptions};
use hadris_iso::boot::options::{BootEntryOptions, BootOptions};
use hadris_iso::boot::EmulationType;

const SECTOR_BYTES: usize = 2048;

/// Files with their contents, directories without.
struct Disk {
    nodes: BTreeMap<String, Option<Vec<u8>>>,
}

impl Disk {
    fn new() -> Disk {
        let mut disk = Disk { nodes: BTreeMap::new() };
        disk.mkdir("/w");
        disk.mkdir("/w/pkg");
        disk
    }

    fn mkdir(&mut self, path: &str) {
        let parts: Vec<&str> = path.split('/').skip(1).collect();
        for i in 1..=parts.len() {
            let dir = format!("/{}", parts[..i].join("/"));
            self.nodes.entry(dir).or_insert(None);
        }
    }

    fn file(&mut self, relative_path: &str, data: &[u8]) {
        self.put(&format!("/w/pkg/{}", relative_path), data);
    }

    fn put(&mut self, path: &str, data: &[u8]) {
        let (parent, _) = path.rsplit_once('/').unwrap();
        self.mkdir(parent);
        self.nodes.insert(path.to_string(), Some(data.to_vec()));
    }

    fn is_dir(&self, path: &str) -> bool {
        self.nodes[path].is_none()
    }

    fn read(&self, path: &str) -> Vec<u8> {
        self.nodes[path].clone().unwrap()
    }

    fn list(&self, path: &str) -> Vec<Entry> {
        let prefix = format!("{}/", path);
        let mut entries = Vec::new();
        for key in self.nodes.keys().rev() {
            if let Some(name) = key.strip_prefix(&prefix) {
                if !name.contains('/') {
                    entries.push(Entry {
                        name: name.to_string(),
                        path: PathBuf::from(key),
                        shown: format!("{:?}", key),
                    });
                }
            }
        }
        entries
    }
}

fn text_of(path: &PathBuf) -> String {
    path.to_str().unwrap().to_string()
}

fn collect(disk: &Disk, inputs: &[&str], flat: bool) -> Result<CollectedPayload, String> {
    let mut walk = Collector::new(flat);
    for input in inputs {
        let dir = disk.is_dir(input);
        let len = if dir { 0 } else { disk.read(input).len() as u64 };
        let shown = format!("{:?}", input);
        let mut next = walk
            .input(PathBuf::from(input), shown, input_name(input), dir, len)
            .map_err(|e| e.message())?;
        while next.1 != Step::Input {
            let at = text_of(next.0.path());
            let step = match next.1 {
                Step::Resolve => next.0.resolved(at.into_bytes()),
                Step::List => next.0.listed(disk.list(&at)),
                _ => {
                    let dir = disk.is_dir(&at);
                    let len = if dir { 0 } else { disk.read(&at).len() as u64 };
                    next.0.stated(dir, len)
                }
            };
            next = step.map_err(|e| e.message())?;
        }
        walk = next.0;
    }
    walk.finish().map_err(|e| e.message())
}

fn directory_of(disk: &Disk, payload: &CollectedPayload, dir: usize, name: &str) -> Directory {
    let mut directory = Directory::new(name);
    for entry in &payload.dirs[dir].entries {
        match entry.node {
            ImageNode::File(record) => {
                let source = text_of(&payload.records[record].source_path);
                directory.add_file(FileEntry::from_buffer(entry.name.clone(), disk.read(&source)));
            }
            ImageNode::Dir(sub) => {
                directory.add_subdir(directory_of(disk, payload, sub, &entry.name));
            }
        }
    }
    directory
}

fn write_image(disk: &Disk, build: &Build, settings: ImageSettings) -> Result<Vec<u8>, String> {
    let mut root = directory_of(disk, &build.payload, 0, "");
    if let Some(container) = &build.container {
        root.add_file(FileEntry::from_buffer("esp.img", container.clone()));
    }
    root.sort();
    let options = OpticalImageOptions {
        volume_id: settings.volume_id,
        udf: UdfOptions { enabled: settings.udf, ..Default::default() },
        boot: settings.boot.map(|boot| BootOptions {
            write_boot_catalog: boot.write_catalog,
            default: BootEntryOptions {
                load_size: None,
                boot_image_path: boot.image_path,
                boot_info_table: boot.boot_info_table,
                grub2_boot_info: boot.grub2_boot_info,
                emulation: EmulationType::NoEmulation,
            },
            entries: Vec::new(),
        }),
        ..OpticalImageOptions::default()
    };
    OpticalImageWriter::create(Cursor::new(Vec::new()), FileTree { root }, options)
        .map(|cursor| cursor.into_inner())
        .map_err(|e| e.to_string())
}

fn build_iso(
    disk: &mut Disk,
    output: &str,
    inputs: &[&str],
    options: Options,
) -> Result<BuildSummary, BuildError> {
    let flat = options.flat;
    let shown = format!("{:?}", output);
    let mut build = Build::new(inputs.len(), options, &shown, output_stem(output))?;
    let mut temporary = String::new();
    loop {
        build = match &build.stage {
            Stage::Collect => build.collected(collect(disk, inputs, flat)),
            Stage::Output => build.output_resolved(Ok(output.as_bytes().to_vec())),
            Stage::Source => {
                let next = build.resolved.len();
                let source = text_of(&build.payload.records[next].source_path);
                build.source_resolved(Ok(source.into_bytes()))
            }
            Stage::Read => {
                let next = build.entries.len();
                let source = text_of(&build.payload.records[next].source_path);
                build.read(Ok(disk.read(&source)))
            }
            Stage::Probe(_) => {
                let (parent, name) = output.rsplit_once('/').unwrap();
                temporary = format!("{}/{}", parent, build.candidate(Some(name), 1));
                let taken = disk.nodes.contains_key(&temporary);
                build.probed(taken, &format!("{:?}", temporary))
            }
            Stage::Create => {
                disk.put(&temporary, b"");
                build.created(Ok(()))
            }
            Stage::Write => {
                let settings = build.settings();
                let outcome = write_image(disk, &build, settings);
                build.written(outcome.map(|image| disk.put(&temporary, &image)))
            }
            Stage::Load => build.loaded(Ok(disk.read(&temporary))),
            Stage::Store => {
                disk.put(&temporary, &build.image);
                build.stored(Ok(()))
            }
            Stage::Measure => build.measured(Some(disk.read(&temporary).len() as u64)),
            Stage::Look => build.looked(disk.nodes.contains_key(output)),
            Stage::Remove => {
                disk.nodes.remove(output);
                build.removed(Ok(()))
            }
            Stage::Rename => {
                let image = disk.nodes.remove(&temporary).unwrap().unwrap();
                disk.put(output, &image);
                build.renamed(Ok(()))
            }
            Stage::Discard(_) => {
                disk.nodes.remove(&temporary);
                build.discarded()
            }
            Stage::Done | Stage::Failed(_) => return build.finish(),
        };
    }
}

fn sorted_payload(disk: &mut Disk) -> Vec<(String, Vec<u8>)> {
    let big = vec![0xabu8; 5000];
    let mut files: Vec<(String, Vec<u8>)> = Vec::new();
    for (relative_path, data) in [
        ("readme.txt", &b"hello readme\n"[..]),
        (".hidden", b"dot file\n"),
        ("a.b.c", b"dots\n"),
        ("固件更新 2024.txt", "中文内容\n".as_bytes()),
        ("empty.bin", b""),
        ("big file (payload).dat", &big),
        ("scripts/update.nsh", b"echo updating\r\n"),
        ("scripts/tools/diskpart.nsh", b"echo disk\n"),
        ("sub dir/deeper/x.Y", b"deep\n"),
    ] {
        disk.file(relative_path, data);
        files.push((relative_path.to_string(), data.to_vec()));
    }
    disk.mkdir("/w/pkg/scripts/tools/empty dir");
    files.sort();
    files
}

// ---------------------------------------------------------------------------
// minimal independent ISO 9660 reader (base + Joliet namespaces)
// ---------------------------------------------------------------------------

fn u32_le(b: &[u8], off: usize) -> u32 {
    u32::from_le_bytes([b[off], b[off + 1], b[off + 2], b[off + 3]])
}

struct DirectoryRecord {
    identifier: Vec<u8>,
    flags: u8,
    is_directory: bool,
    extent: u32,
    data_length: u32,
}

fn directory_records(img: &[u8], lba: u32, data_length: u32) -> Vec<DirectoryRecord> {
    let start = lba as usize * SECTOR_BYTES;
    let end = (start + data_length as usize).min(img.len());
    let mut records = Vec::new();
    let mut offset = start;
    while offset + 33 <= end {
        let record_length = img[offset] as usize;
        if record_length == 0 || offset + record_length > end {
            break;
        }
        let record = &img[offset..offset + record_length];
        let identifier_length = record[32] as usize;
        records.push(DirectoryRecord {
            identifier: record[33..33 + identifier_length].to_vec(),
            flags: record[25],
            is_directory: record[25] & 0x02 != 0,
            extent: u32_le(record, 2),
            data_length: u32_le(record, 10),
        });
        offset += record_length;
    }
    records
}

fn decode_identifier(identifier: &[u8], joliet: bool) -> Option<String> {
    if identifier.is_empty() || identifier == [0x00] || identifier == [0x01] {
        return None;
    }
    if !joliet {
        let name = identifier.split(|&byte| byte == b';').next().unwrap();
        if name.is_empty() {
            return None;
        }
        return Some(String::from_utf8_lossy(name).into_owned());
    }
    let units: Vec<u16> = identifier
        .chunks_exact(2)
        .map(|pair| u16::from_be_bytes([pair[0], pair[1]]))
        .collect();
    Some(String::from_utf16_lossy(&units))
}

fn visit(
    img: &[u8],
    joliet: bool,
    lba: u32,
    data_length: u32,
    prefix: &str,
    out: &mut HashMap<String, (bool, u64, u32)>,
) {
    for record in directory_records(img, lba, data_length) {
        let Some(name) = decode_identifier(&record.identifier, joliet) else {
            continue;
        };
        let relative_path = if prefix.is_empty() { name } else { format!("{}/{}", prefix, name) };
        out.insert(
            relative_path.clone(),
            (record.is_directory, record.data_length as u64, record.extent),
        );
        if record.is_directory {
            visit(img, joliet, record.extent, record.data_length, &relative_path, out);
        }
    }
}

/// One namespace: path -> (is_dir, size, extent). The root directory record
/// stands at offset 156 of the descriptor.
fn walk(img: &[u8], desc_off: usize, joliet: bool) -> HashMap<String, (bool, u64, u32)> {
    let mut out = HashMap::new();
    let root_lba = u32_le(img, desc_off + 156 + 2);
    let root_len = u32_le(img, desc_off + 156 + 10);
    visit(img, joliet, root_lba, root_len, "", &mut out);
    out
}

struct Image {
    img: Vec<u8>,
    primary_lba: usize,
    supplementary_lbas: Vec<usize>,
    boot_descriptor_lba: Option<usize>,
}

fn parse_image(img: Vec<u8>) -> Image {
    let mut primary = 0;
    let mut supplementary = Vec::new();
    let mut boot = None;
    for lba in 16..(img.len() / SECTOR_BYTES).saturating_sub(1) {
        let sector = &img[lba * SECTOR_BYTES..(lba + 1) * SECTOR_BYTES];
        if sector[0] == 255 {
            break;
        }
        if &sector[1..6] != b"CD001" {
            continue;
        }
        match sector[0] {
            1 => primary = lba,
            2 => supplementary.push(lba),
            0 => boot = Some(lba),
            _ => {}
        }
    }
    Image {
        img,
        primary_lba: primary,
        supplementary_lbas: supplementary,
        boot_descriptor_lba: boot,
    }
}

fn joliet_lba(image: &Image) -> Option<usize> {
    image.supplementary_lbas.iter().copied().find(|lba| {
        let sec = &image.img[lba * SECTOR_BYTES..lba * SECTOR_BYTES + SECTOR_BYTES];
        sec[88] == b'%' && sec[89] == b'/' && sec[90] == b'E'
    })
}

fn content(img: &[u8], extent: u32, size: u64) -> Vec<u8> {
    if size == 0 {
        return Vec::new();
    }
    let start = extent as usize * SECTOR_BYTES;
    img[start..start + size as usize].to_vec()
}

fn list_fat_files(fat_bytes: Vec<u8>) -> Vec<String> {
    let filesystem =
        fatfs::FileSystem::new(Cursor::new(fat_bytes), fatfs::FsOptions::new()).unwrap();
    let mut files = Vec::new();
    let mut pending = vec![String::new()];
    while let Some(prefix) = pending.pop() {
        let mut directory = filesystem.root_dir();
        for component in prefix.split('/') {
            if !component.is_empty() {
                directory = directory.open_dir(component).unwrap();
            }
        }
        for entry in directory.iter() {
            let entry = entry.unwrap();
            let name = entry.file_name();
            if name == "." || name == ".." {
                continue;
            }
            let relative_path =
                if prefix.is_empty() { name.clone() } else { format!("{}/{}", prefix, name) };
            if entry.is_dir() {
                pending.push(relative_path);
            } else {
                files.push(relative_path.to_uppercase());
            }
        }
    }
    files
}

fn root_record_flags(
    image: &Image,
    descriptor_offset: usize,
    target: &str,
    joliet: bool,
) -> Option<u8> {
    let descriptor = &image.img[descriptor_offset..descriptor_offset + SECTOR_BYTES];
    let root_lba = u32_le(descriptor, 156 + 2);
    let root_length = u32_le(descriptor, 156 + 10);
    let wanted = if joliet { target.to_string() } else { target.to_uppercase() };
    directory_records(&image.img, root_lba, root_length)
        .iter()
        .find_map(|record| {
            let name = decode_identifier(&record.identifier, joliet)?;
            if name == wanted {
                Some(record.flags)
            } else {
                None
            }
        })
}

/// El Torito boot entries: (media_type, load_rba).
fn boot_entries(image: &Image) -> Vec<(u8, u32)> {
    let Some(b) = image.boot_descriptor_lba else {
        return vec![];
    };
    let vd = &image.img[b * SECTOR_BYTES..(b + 1) * SECTOR_BYTES];
    let catalog = u32_le(vd, 71) as usize;
    let sec = &image.img[catalog * SECTOR_BYTES..(catalog + 1) * SECTOR_BYTES];
    let mut out = Vec::new();
    for i in (32..SECTOR_BYTES).step_by(32) {
        let block = &sec[i..i + 32];
        if block[0] == 0x88 {
            out.push((block[1], u32_le(block, 8)));
        }
    }
    out
}

// ---------------------------------------------------------------------------
// tests
// ---------------------------------------------------------------------------

#[test]
fn default_keep_parent_packs_esp() {
    let mut disk = Disk::new();
    let payload = sorted_payload(&mut disk);
    disk.file("EFI/BOOT/BOOTX64.EFI", b"a user-provided efi\n"); // treated as plain data
    let sum = build_iso(&mut disk, "/w/out.iso", &["/w/pkg"], Options::default()).unwrap();
    assert!(sum.bootable);
    assert_eq!(sum.files, payload.len() as u64 + 1);

    let image = parse_image(disk.read("/w/out.iso"));
    let joliet_tree = walk(&image.img, joliet_lba(&image).unwrap() * SECTOR_BYTES, true);

    // data tree: payload under pkg/, plus engine artifacts
    let mut expected: Vec<(String, Vec<u8>)> = payload
        .iter()
        .map(|(relative_path, data)| (format!("pkg/{}", relative_path), data.clone()))
        .collect();
    expected.push((
        "pkg/EFI/BOOT/BOOTX64.EFI".to_string(),
        b"a user-provided efi\n".to_vec(),
    ));
    for (relative_path, data) in &expected {
        let (_, size, ext) = joliet_tree
            .get(relative_path)
            .copied()
            .unwrap_or_else(|| panic!("missing in joliet: {}", relative_path));
        assert_eq!(size, data.len() as u64, "size of {}", relative_path);
        assert_eq!(&content(&image.img, ext, size), data, "content of {}", relative_path);
    }
    let jfiles: Vec<String> = joliet_tree
        .iter()
        .filter(|(_, (is_directory, _, _))| !*is_directory)
        .map(|(relative_path, _)| relative_path.clone())
        .filter(|k| k != "boot.catalog" && k != "esp.img")
        .collect();
    assert_eq!(jfiles.len(), expected.len(), "{:?}", jfiles);

    // El Torito points at esp.img
    let (_, esp_size, esp_ext) = joliet_tree.get("esp.img").copied().expect("esp.img present");
    assert!(esp_size > 0);
    assert_eq!(&content(&image.img, esp_ext, esp_size)[510..512], &[0x55, 0xAA]);
    assert!(
        boot_entries(&image).iter().any(|(m, rba)| *m == 0 && *rba == esp_ext),
        "El Torito entry at esp.img"
    );

    // Engine artifacts are hidden in both namespaces (bit 0 of the flags); the
    // user's own files are not.
    for artifact in ["esp.img", "boot.catalog"] {
        let base_flags =
            root_record_flags(&image, image.primary_lba * SECTOR_BYTES, artifact, false)
                .expect("artifact in base tree");
        assert_eq!(base_flags & 1, 1, "{} hidden in base tree", artifact);
        let jol_flags = root_record_flags(
            &image,
            joliet_lba(&image).unwrap() * SECTOR_BYTES,
            artifact,
            true,
        )
        .expect("artifact in joliet tree");
        assert_eq!(jol_flags & 1, 1, "{} hidden in joliet tree", artifact);
    }
    let pkg = root_record_flags(&image, joliet_lba(&image).unwrap() * SECTOR_BYTES, "pkg", true);
    assert_eq!(pkg.unwrap() & 1, 0);

    // FAT read-back: esp.img == payload, verbatim, no additions
    let esp_bytes = content(&image.img, esp_ext, esp_size);
    let mut actual = list_fat_files(esp_bytes);
    let mut want: Vec<String> = expected
        .iter()
        .map(|(relative_path, _)| relative_path.to_uppercase())
        .collect();
    want.sort();
    actual.sort();
    assert_eq!(actual, want, "esp.img mirrors payload exactly (no injected files)");
    assert_eq!(sum.label, "OUT");
}

#[test]
fn empty_directories_are_in_the_container() {
    let mut disk = Disk::new();
    sorted_payload(&mut disk);
    build_iso(&mut disk, "/w/out.iso", &["/w/pkg"], Options::default()).unwrap();
    let image = parse_image(disk.read("/w/out.iso"));
    let joliet_tree = walk(&image.img, joliet_lba(&image).unwrap() * SECTOR_BYTES, true);
    assert!(joliet_tree["pkg/scripts/tools/empty dir"].0);
    let (_, size, ext) = joliet_tree["esp.img"];
    let bytes = content(&image.img, ext, size);
    let filesystem = fatfs::FileSystem::new(Cursor::new(bytes), fatfs::FsOptions::new()).unwrap();
    let root = filesystem.root_dir();
    assert!(root.open_dir("pkg/scripts/tools/empty dir").is_ok());
    assert!(root.open_dir("pkg/sub dir/deeper").is_ok());
    assert!(root.open_dir("pkg/no such dir").is_err());
}

#[test]
fn flat_packs_esp_at_root() {
    let mut disk = Disk::new();
    let payload = sorted_payload(&mut disk);
    let opts = Options { flat: true, ..Options::default() };
    let sum = build_iso(&mut disk, "/w/out.iso", &["/w/pkg"], opts).unwrap();
    assert!(sum.bootable);

    let image = parse_image(disk.read("/w/out.iso"));
    let joliet_tree = walk(&image.img, joliet_lba(&image).unwrap() * SECTOR_BYTES, true);
    let (_, esp_size, esp_ext) = joliet_tree.get("esp.img").copied().expect("esp.img present");
    let esp_bytes = content(&image.img, esp_ext, esp_size);
    let mut actual = list_fat_files(esp_bytes);
    let mut want: Vec<String> = payload
        .iter()
        .map(|(relative_path, _)| relative_path.to_uppercase())
        .collect();
    want.sort();
    actual.sort();
    assert_eq!(actual, want, "flat esp.img mirrors payload at root");
}

#[test]
fn no_eltorito_is_plain_data_disc() {
    let mut disk = Disk::new();
    let payload = sorted_payload(&mut disk);
    let opts = Options { flat: true, no_eltorito: true, ..Options::default() };
    let sum = build_iso(&mut disk, "/w/out.iso", &["/w/pkg"], opts).unwrap();
    assert!(!sum.bootable);
    let image = parse_image(disk.read("/w/out.iso"));
    let joliet_tree = walk(&image.img, joliet_lba(&image).unwrap() * SECTOR_BYTES, true);
    assert!(!joliet_tree.contains_key("esp.img"), "no esp.img on --no-eltorito");
    assert!(boot_entries(&image).is_empty());
    let files: Vec<String> = joliet_tree
        .iter()
        .filter(|(_, (is_directory, _, _))| !*is_directory)
        .map(|(relative_path, _)| relative_path.clone())
        .collect();
    assert_eq!(files.len(), payload.len(), "{:?}", files);
    for (relative_path, data) in &payload {
        let (_, size, ext) = joliet_tree
            .get(relative_path)
            .copied()
            .unwrap_or_else(|| panic!("missing {}", relative_path));
        assert_eq!(size, data.len() as u64);
        assert_eq!(&content(&image.img, ext, size), data, "content of {}", relative_path);
    }
}

#[test]
fn error_paths() {
    let mut disk = Disk::new();
    sorted_payload(&mut disk);
    let before = disk.nodes.clone();

    let err = build_iso(&mut disk, "/w/pkg/readme.txt", &["/w/pkg"], Options::default())
        .unwrap_err()
        .message();
    assert!(err.contains("would overwrite"), "{}", err);
    assert!(disk.nodes == before);

    disk.file("a/same.txt", b"1");
    disk.file("b/same.TXT", b"2"); // same folded name
    let opts = Options { flat: true, no_eltorito: true, ..Options::default() };
    let err = build_iso(&mut disk, "/w/out.iso", &["/w/pkg/a", "/w/pkg/b"], opts)
        .unwrap_err()
        .message();
    assert!(err.contains("duplicate root name"), "{}", err);
}

#[test]
fn case_fold_collision_inside_merged_dir_rejected() {
    let mut disk = Disk::new();
    disk.file("a/sub/X.TXT", b"1");
    disk.file("b/sub/x.txt", b"2");
    let opts = Options { flat: true, no_eltorito: true, ..Options::default() };
    let err = build_iso(&mut disk, "/w/out.iso", &["/w/pkg/a", "/w/pkg/b"], opts)
        .unwrap_err()
        .message();
    assert!(err.contains("duplicate"), "{}", err);
    assert!(err.contains("sub"), "{}", err);
}

#[test]
fn label_and_summary() {
    let mut disk = Disk::new();
    sorted_payload(&mut disk);
    let opts = Options {
        flat: true,
        label: Some("My Tools 2024!".to_string()),
        no_eltorito: true,
    };
    let sum = build_iso(&mut disk, "/w/out.iso", &["/w/pkg"], opts).unwrap();
    assert_eq!(sum.label, "MY_TOOLS_2024_");
    assert_eq!(sum.files, 9);
    assert!(sum.dirs >= 4, "dirs counted: {}", sum.dirs);
    assert!(sum.sectors > 0);
    assert_eq!(
        disk.read("/w/out.iso").len() as u64,
        sum.sectors * SECTOR_BYTES as u64
    );
}

#[test]
fn a_standing_output_is_replaced() {
    let mut disk = Disk::new();
    disk.file("a.txt", b"a");
    disk.put("/w/out.iso", b"old");
    disk.put("/w/out.iso.tmp-1", b"not mine");
    build_iso(&mut disk, "/w/out.iso", &["/w/pkg/a.txt"], Options::default()).unwrap();
    assert!(disk.read("/w/out.iso").len() > 2048 * 17);
    assert_eq!(disk.read("/w/out.iso.tmp-1"), b"not mine");
    assert!(!disk.nodes.contains_key("/w/out.iso.tmp-1-1"));
}

#[test]
fn reserved_names_fail_before_anything_is_written() {
    let mut disk = Disk::new();
    disk.file("boot.CATALOG", b"a");
    let before = disk.nodes.clone();
    let opts = Options { flat: true, ..Options::default() };
    let err = build_iso(&mut disk, "/w/out.iso", &["/w/pkg"], opts).unwrap_err();
    assert!(matches!(err, BuildError::ReservedArtifact(ref name) if name == "boot.CATALOG"));
    assert!(disk.nodes == before);
}

#[test]
fn no_inputs_and_no_files() {
    let mut disk = Disk::new();
    let err = build_iso(&mut disk, "/w/out.iso", &[], Options::default()).unwrap_err();
    assert!(matches!(err, BuildError::NoInputs));
    let err = build_iso(&mut disk, "/w/out.iso", &["/w/pkg"], Options::default()).unwrap_err();
    assert_eq!(err.message(), "no files found in the inputs");
}
