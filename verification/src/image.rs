//! Building an image: what is asked for, what is decided on the way, what is
//! reported.
//!
//! Every payload file and directory is packed into a FAT container (`esp.img`)
//! that the El Torito boot entry points at, and kept in the ISO 9660 (+Joliet)
//! data tree as well. Without El Torito the image is a plain data disc.
use vstd::prelude::*;
use vstd::utf8::encode_utf8;
use crate::collect::{ascii_upper, fold, CollectedPayload, PayloadView, RecordView};
use crate::esp::{build_esp_with_dirs, container_made, esp_text, texts, EspError};
use crate::names::{becomes, label_of, labels_read_back, sanitize_label};
use crate::paths::{output_stem, path_stem, portable_path};
use crate::text::{
    ascii_chars, decimal, decimal_reads_back, lowercase, push_number, str_eq, to_lowercase,
};

verus! {

/// What is asked for.
pub struct Options {
    /// Volume label; derived from the name of the output where there is none.
    pub label: Option<String>,
    /// Merge the contents of directory inputs into the root.
    pub flat: bool,
    /// Make a plain data disc without FAT container and El Torito entry.
    pub no_eltorito: bool,
}

impl Default for Options {
    fn default() -> (o: Options)
        ensures
            o.label is None,
            !o.flat,
            !o.no_eltorito,
    {
        Options { label: None, flat: false, no_eltorito: false }
    }
}

/// What was built.
#[derive(Debug)]
pub struct BuildSummary {
    pub label: String,
    pub dirs: u64,
    pub files: u64,
    pub payload_bytes: u64,
    pub sectors: u64,
    /// Whether the disc carries a FAT container with an El Torito entry.
    pub bootable: bool,
}

/// Why an image could not be built. Paths stand here as messages show them.
#[derive(Debug)]
pub enum BuildError {
    NoInputs,
    Collection(String),
    OutputPath(String),
    OutputConflict(String),
    ReservedArtifact(String),
    PayloadRead { path: String, message: String },
    ImageBuild(String),
    OutputCreate { path: String, message: String },
    OutputFinalize { path: String, message: String },
    ArtifactPatch(String),
}

/// The text of an error.
pub open spec fn build_text(e: BuildError) -> Seq<char> {
    match e {
        BuildError::NoInputs => "no input paths given"@,
        BuildError::Collection(message) => message@,
        BuildError::OutputPath(message) => message@,
        BuildError::OutputConflict(path) => "output image "@ + path@
            + " would overwrite a payload file"@,
        BuildError::ReservedArtifact(name) => "payload contains a root-level file named '"@ + name@
            + "', which is reserved for an engine artifact (esp.img / boot.catalog); rename it"@,
        BuildError::PayloadRead { path, message } => "cannot read "@ + path@ + ": "@ + message@,
        BuildError::ImageBuild(message) => "image build failed: "@ + message@,
        BuildError::OutputCreate { path, message } => "cannot create "@ + path@ + ": "@ + message@,
        BuildError::OutputFinalize { path, message } => "cannot finalize "@ + path@ + ": "@
            + message@,
        BuildError::ArtifactPatch(message) => message@,
    }
}

fn about(what: &str, path: &String, message: &String) -> (m: String)
    ensures
        m@ == what@ + path@ + ": "@ + message@,
{
    let mut m: String = what.to_string();
    m.append(path.as_str());
    m.append(": ");
    m.append(message.as_str());
    m
}

impl BuildError {
    /// The message for a user.
    pub fn message(&self) -> (m: String)
        ensures
            m@ == build_text(*self),
    {
        match self {
            BuildError::NoInputs => "no input paths given".to_string(),
            BuildError::Collection(message) => message.clone(),
            BuildError::OutputPath(message) => message.clone(),
            BuildError::OutputConflict(path) => {
                let mut m: String = "output image ".to_string();
                m.append(path.as_str());
                m.append(" would overwrite a payload file");
                m
            },
            BuildError::ReservedArtifact(name) => {
                let mut m: String = "payload contains a root-level file named '".to_string();
                m.append(name.as_str());
                m.append(
                    "', which is reserved for an engine artifact (esp.img / boot.catalog); rename it",
                );
                m
            },
            BuildError::PayloadRead { path, message } => about("cannot read ", path, message),
            BuildError::ImageBuild(message) => {
                let mut m: String = "image build failed: ".to_string();
                m.append(message.as_str());
                m
            },
            BuildError::OutputCreate { path, message } => about("cannot create ", path, message),
            BuildError::OutputFinalize { path, message } => about(
                "cannot finalize ",
                path,
                message,
            ),
            BuildError::ArtifactPatch(message) => message.clone(),
        }
    }
}

// ---------------------------------------------------------------------------
// labels and names
// ---------------------------------------------------------------------------

/// The label of a volume: the one asked for, else the stem of the output,
/// else "FS2ISO"; cleaned.
pub open spec fn label_for(stem: Option<Seq<char>>, requested: Option<Seq<char>>) -> Seq<char> {
    match requested {
        Some(r) => label_of(encode_utf8(r)),
        None => match stem {
            Some(s) => label_of(encode_utf8(s)),
            None => "FS2ISO"@,
        },
    }
}

/// The label of a volume whose output has the given stem.
pub fn label_from(stem: Option<&str>, requested: Option<&str>) -> (label: String)
    ensures
        label@ == label_for(
            match stem {
                Some(s) => Some(s@),
                None => None,
            },
            match requested {
                Some(r) => Some(r@),
                None => None,
            },
        ),
{
    match requested {
        Some(r) => sanitize_label(r),
        None => match stem {
            Some(s) => sanitize_label(s),
            None => "FS2ISO".to_string(),
        },
    }
}

/// The label of a volume: the one asked for, else one made from the name of
/// the output, else "FS2ISO". What the name of a path is, where it is not the
/// same on every host, is left open.
pub fn resolve_label(output: &str, requested: Option<&str>) -> (label: String)
    ensures
        requested matches Some(r) ==> label@ == label_for(None, Some(r@)),
        requested is None ==> exists|stem: Option<Seq<char>>|
            {
                &&& label@ == #[trigger] label_for(stem, None)
                &&& portable_path(output@) ==> stem == path_stem(output@)
            },
{
    let stem: Option<String> = output_stem(output);
    let ghost found = match &stem {
        Some(s) => Some(s@),
        None => None,
    };
    let label: String = match &stem {
        Some(s) => label_from(Some(s.as_str()), requested),
        None => label_from(None, requested),
    };
    assert(requested is None ==> label@ == label_for(found, None));
    label
}

/// Whether a path is that of an artifact at the root, where ASCII case does
/// not count.
pub open spec fn is_reserved(path: Seq<char>) -> bool {
    fold(path) == fold("esp.img"@) || fold(path) == fold("boot.catalog"@)
}

/// The path of the first record that is reserved for an artifact.
pub open spec fn first_reserved(records: Seq<RecordView>) -> Option<Seq<char>>
    decreases records.len(),
{
    if records.len() == 0 {
        None
    } else {
        match first_reserved(records.drop_last()) {
            Some(p) => Some(p),
            None => if is_reserved(records.last().relative_path) {
                Some(records.last().relative_path)
            } else {
                None
            },
        }
    }
}

proof fn first_reserved_stays(records: Seq<RecordView>, n: int)
    requires
        0 <= n <= records.len(),
    ensures
        first_reserved(records.take(n)) matches Some(p) ==> first_reserved(records) == Some(p),
    decreases records.len() - n,
{
    if n < records.len() {
        assert(records.take(n + 1).drop_last() =~= records.take(n));
        first_reserved_stays(records, n + 1);
    } else {
        assert(records.take(n) =~= records);
    }
}

/// Refuses a payload with a file at the root whose name the engine needs for
/// an artifact of its own.
pub fn validate_artifact_names(payload: &CollectedPayload) -> (r: Result<(), BuildError>)
    ensures
        match first_reserved(payload@.records) {
            None => r is Ok,
            Some(p) => r matches Err(BuildError::ReservedArtifact(name)) && name@ == p,
        },
{
    let esp: String = ascii_upper("esp.img");
    let catalog: String = ascii_upper("boot.catalog");
    let ghost all = payload@.records;
    let n: usize = payload.records.len();
    let mut i: usize = 0;
    assert(all.take(0) =~= Seq::<RecordView>::empty());
    while i < n
        invariant
            n == payload.records@.len(),
            i <= n,
            all == payload@.records,
            esp@ == fold("esp.img"@),
            catalog@ == fold("boot.catalog"@),
            first_reserved(all.take(i as int)) is None,
        decreases n - i,
    {
        let path: &String = &payload.records[i].relative_path;
        let folded: String = ascii_upper(path.as_str());
        proof {
            assert(all[i as int].relative_path == path@);
            assert(all.take(i + 1).drop_last() =~= all.take(i as int));
            assert(all.take(i + 1).last() == all[i as int]);
            first_reserved_stays(all, i + 1);
        }
        if str_eq(folded.as_str(), esp.as_str()) || str_eq(folded.as_str(), catalog.as_str()) {
            return Err(BuildError::ReservedArtifact(path.clone()));
        }
        i += 1;
    }
    assert(all.take(n as int) =~= all);
    Ok(())
}

/// The name of a temporary file beside the output: the name of the output (or
/// a fixed one), ".tmp-", the process, and from the second attempt on "-" and
/// the attempt.
pub open spec fn temporary_text(name: Option<Seq<char>>, process: u32, attempt: u32) -> Seq<char> {
    let base = match name {
        Some(n) => n,
        None => "fs2iso-output"@,
    };
    let first = base + ".tmp-"@ + ascii_chars(decimal(process as nat));
    if attempt == 0 {
        first
    } else {
        first + "-"@ + ascii_chars(decimal(attempt as nat))
    }
}

/// The name of the temporary file to try at the given attempt.
pub fn temporary_name(name: Option<&str>, process: u32, attempt: u32) -> (r: String)
    ensures
        r@ == temporary_text(
            match name {
                Some(n) => Some(n@),
                None => None,
            },
            process,
            attempt,
        ),
{
    let mut r: String = match name {
        Some(n) => n.to_string(),
        None => "fs2iso-output".to_string(),
    };
    r.append(".tmp-");
    push_number(&mut r, process as u128);
    if attempt > 0 {
        r.append("-");
        push_number(&mut r, attempt as u128);
    }
    r
}

/// Whether a file extension is one of an image ("iso" or "img" in any case).
pub fn is_image_extension(extension: &str) -> (r: bool)
    ensures
        r == (lowercase(extension@) == "iso"@ || lowercase(extension@) == "img"@),
{
    let lower: String = to_lowercase(extension);
    str_eq(lower.as_str(), "iso") || str_eq(lower.as_str(), "img")
}

/// Whole sectors of an image of `len` bytes.
pub fn sectors_in(len: u64) -> (n: u64)
    ensures
        n == len / 2048,
{
    len / 2048
}

// ---------------------------------------------------------------------------
// decisions
// ---------------------------------------------------------------------------

/// How the boot image is entered in the boot catalog.
pub struct BootSettings {
    /// The file that is booted from.
    pub image_path: String,
    /// Whether the catalog is a file of the disc.
    pub write_catalog: bool,
    /// Sectors to load; all of them where nothing is said.
    pub load_size: Option<u16>,
    pub boot_info_table: bool,
    pub grub2_boot_info: bool,
    /// Whether the boot image is presented as a disk of its own.
    pub emulation: bool,
    /// Further boot entries.
    pub more_entries: usize,
}

/// What the image writer is told.
pub struct ImageSettings {
    pub volume_id: String,
    pub udf: bool,
    pub boot: Option<BootSettings>,
}

/// The settings of an image: no UDF and, on a bootable disc, a single boot
/// entry without emulation for the FAT container. A second entry would make
/// firmware show the container twice.
pub fn image_settings(label: &str, bootable: bool) -> (s: ImageSettings)
    ensures
        s.volume_id@ == label@,
        !s.udf,
        bootable == (s.boot is Some),
        s.boot matches Some(b) ==> {
            &&& b.image_path@ == "esp.img"@
            &&& b.write_catalog
            &&& b.load_size is None
            &&& !b.boot_info_table
            &&& !b.grub2_boot_info
            &&& !b.emulation
            &&& b.more_entries == 0
        },
{
    ImageSettings {
        volume_id: label.to_string(),
        udf: false,
        boot: if bootable {
            Some(
                BootSettings {
                    image_path: "esp.img".to_string(),
                    write_catalog: true,
                    load_size: None,
                    boot_info_table: false,
                    grub2_boot_info: false,
                    emulation: false,
                    more_entries: 0,
                },
            )
        } else {
            None
        },
    }
}

/// Decides on the image of a payload: its label, and whether it is bootable. A
/// bootable one must not hold files that are named like the artifacts.
pub fn plan_image(payload: &CollectedPayload, options: &Options, stem: Option<&str>) -> (r:
    Result<(String, bool), BuildError>)
    ensures
        match r {
            Ok((label, bootable)) => {
                &&& bootable == !options.no_eltorito
                &&& bootable ==> first_reserved(payload@.records) is None
                &&& label@ == label_for(
                    match stem {
                        Some(s) => Some(s@),
                        None => None,
                    },
                    match options.label {
                        Some(l) => Some(l@),
                        None => None,
                    },
                )
            },
            Err(e) => {
                &&& !options.no_eltorito
                &&& first_reserved(payload@.records) matches Some(p)
                &&& e matches BuildError::ReservedArtifact(name) && name@ == p
            },
        },
{
    let label: String = match &options.label {
        Some(l) => label_from(stem, Some(l.as_str())),
        None => label_from(stem, None),
    };
    let bootable: bool = !options.no_eltorito;
    if bootable {
        if let Err(e) = validate_artifact_names(payload) {
            return Err(e);
        }
    }
    Ok((label, bootable))
}

/// A file that could not be read, as messages show it, and why.
pub struct ReadFault {
    pub path: String,
    pub message: String,
}

/// The paths of the payload's directories, but for the root, which every
/// volume has.
pub open spec fn dirs_of(payload: PayloadView) -> Seq<Seq<char>> {
    if payload.dirs.len() == 0 {
        Seq::empty()
    } else {
        Seq::new((payload.dirs.len() - 1) as nat, |i: int| payload.dirs[i + 1].path)
    }
}

/// The paths of the payload's directories.
fn dir_paths(payload: &CollectedPayload) -> (r: Vec<String>)
    ensures
        texts(r@) == dirs_of(payload@),
{
    let mut r: Vec<String> = Vec::new();
    let n: usize = payload.dirs.len();
    let mut i: usize = 1;
    while i < n
        invariant
            n == payload.dirs@.len(),
            i <= n || i == 1,
            i >= 1,
            r@.len() == i - 1,
            forall|j: int|
                0 <= j < i - 1 ==> (#[trigger] r@[j])@ == payload.dirs@[j + 1].path@,
        decreases n - i,
    {
        r.push(payload.dirs[i].path.clone());
        i += 1;
    }
    assert forall|j: int| 0 <= j < r@.len() implies #[trigger] texts(r@)[j] == dirs_of(
        payload@,
    )[j] by {
        assert(payload@.dirs[j + 1] == payload.dirs@[j + 1]@);
        assert(r@[j]@ == payload.dirs@[j + 1].path@);
    }
    assert(texts(r@) =~= dirs_of(payload@));
    r
}

/// The FAT container of a payload: its files, and its directories, those
/// without files too.
pub fn build_container(payload: &CollectedPayload, entries: &Vec<(String, Vec<u8>)>) -> (r: Result<
    Vec<u8>,
    BuildError,
>)
    ensures
        exists|made: Result<Vec<u8>, EspError>|
            container_made(dirs_of(payload@), entries@, made) && match (r, made) {
                (Ok(image), Ok(m)) => image == m,
                (Err(e), Err(x)) => e matches BuildError::ImageBuild(message) && message@
                    == esp_text(x),
                _ => false,
            },
{
    let dirs: Vec<String> = dir_paths(payload);
    let made = build_esp_with_dirs(&dirs, entries);
    assert(container_made(dirs_of(payload@), entries@, made));
    match made {
        Ok(image) => Ok(image),
        Err(x) => Err(BuildError::ImageBuild(x.message())),
    }
}

/// What is reported of a finished image.
pub fn summarize(payload: &CollectedPayload, label: String, bootable: bool, sectors: u64) -> (s:
    BuildSummary)
    ensures
        s.label == label,
        s.dirs == payload@.directory_count,
        s.files == payload@.records.len(),
        s.payload_bytes == payload@.payload_bytes,
        s.sectors == sectors,
        s.bootable == bootable,
{
    BuildSummary {
        label,
        dirs: payload.directory_count,
        files: payload.records.len() as u64,
        payload_bytes: payload.payload_bytes,
        sectors,
        bootable,
    }
}

// ---------------------------------------------------------------------------
// what the names say
// ---------------------------------------------------------------------------

/// Whether two texts are the same but for the case of ASCII letters.
pub open spec fn same_but_case(a: Seq<char>, b: Seq<char>) -> bool {
    &&& a.len() == b.len()
    &&& forall|i: int|
        0 <= i < a.len() ==> {
            ||| #[trigger] a[i] == b[i]
            ||| 97 <= a[i] as int <= 122 && b[i] as int == a[i] as int - 32
            ||| 97 <= b[i] as int <= 122 && a[i] as int == b[i] as int - 32
        }
}

/// Folding tells names apart exactly where they differ in more than the case of
/// ASCII letters.
pub proof fn folding_ignores_case_only(a: Seq<char>, b: Seq<char>)
    ensures
        fold(a) == fold(b) <==> same_but_case(a, b),
{
    if fold(a) == fold(b) {
        assert(fold(a).len() == a.len());
        assert(fold(b).len() == b.len());
        assert forall|i: int| 0 <= i < a.len() implies {
            ||| #[trigger] a[i] == b[i]
            ||| 97 <= a[i] as int <= 122 && b[i] as int == a[i] as int - 32
            ||| 97 <= b[i] as int <= 122 && a[i] as int == b[i] as int - 32
        } by {
            assert(fold(a)[i] == fold(b)[i]);
        }
    }
    if same_but_case(a, b) {
        assert forall|i: int| 0 <= i < a.len() implies #[trigger] fold(a)[i] == fold(b)[i] by {
            assert(a[i] == a[i]);
        }
        assert(fold(a) =~= fold(b));
    }
}

/// The names reserved for artifacts are "esp.img" and "boot.catalog", in any
/// case.
pub proof fn artifact_names_are_reserved(path: Seq<char>)
    ensures
        is_reserved(path) <==> same_but_case(path, seq!['e', 's', 'p', '.', 'i', 'm', 'g'])
            || same_but_case(
            path,
            seq!['b', 'o', 'o', 't', '.', 'c', 'a', 't', 'a', 'l', 'o', 'g'],
        ),
{
    reveal_strlit("esp.img");
    reveal_strlit("boot.catalog");
    assert("esp.img"@ =~= seq!['e', 's', 'p', '.', 'i', 'm', 'g']);
    assert("boot.catalog"@ =~= seq![
        'b',
        'o',
        'o',
        't',
        '.',
        'c',
        'a',
        't',
        'a',
        'l',
        'o',
        'g',
    ]);
    folding_ignores_case_only(path, "esp.img"@);
    folding_ignores_case_only(path, "boot.catalog"@);
}

/// Whether none of the first `n` records has a reserved path.
pub open spec fn none_reserved(records: Seq<RecordView>, n: int) -> bool {
    forall|i: int| 0 <= i < n ==> !is_reserved((#[trigger] records[i]).relative_path)
}

/// A payload is refused for its first file with a reserved path, and not
/// without one.
pub proof fn first_reserved_is_first(records: Seq<RecordView>)
    ensures
        match first_reserved(records) {
            None => none_reserved(records, records.len() as int),
            Some(p) => is_reserved(p) && exists|i: int|
                0 <= i < records.len() && (#[trigger] records[i]).relative_path == p
                    && none_reserved(records, i),
        },
    decreases records.len(),
{
    if records.len() > 0 {
        let less = records.drop_last();
        let n = less.len() as int;
        first_reserved_is_first(less);
        assert(forall|i: int| 0 <= i < n ==> #[trigger] less[i] == records[i]);
        match first_reserved(less) {
            Some(p) => {
                let i = choose|i: int|
                    0 <= i < less.len() && (#[trigger] less[i]).relative_path == p
                        && none_reserved(less, i);
                assert(records[i].relative_path == p);
                assert(none_reserved(records, i)) by {
                    assert(forall|j: int| 0 <= j < i ==> #[trigger] records[j] == less[j]);
                }
            },
            None => {
                assert(none_reserved(records, n)) by {
                    assert(forall|j: int| 0 <= j < n ==> #[trigger] records[j] == less[j]);
                }
                assert(records[n].relative_path == records.last().relative_path);
            },
        }
    }
}

/// The label of a volume is made of the one asked for, whatever the output is
/// called; else of the stem of the output; and is "FS2ISO" without either. It
/// holds 32 characters at most: the letters of what it is made of in upper
/// case, its digits and '_', and '_' for everything else.
pub proof fn labels_are_made_of(stem: Option<Seq<char>>, requested: Option<Seq<char>>)
    ensures
        ({
            let label = label_for(stem, requested);
            let raw = match requested {
                Some(r) => encode_utf8(r),
                None => match stem {
                    Some(s) => encode_utf8(s),
                    None => Seq::empty(),
                },
            };
            if raw.len() == 0 {
                label == seq!['F', 'S', '2', 'I', 'S', 'O']
            } else {
                &&& label.len() == if raw.len() <= 32 {
                    raw.len() as int
                } else {
                    32
                }
                &&& forall|i: int|
                    0 <= i < label.len() ==> (#[trigger] label[i] as int) < 128 && becomes(
                        raw[i],
                        label[i] as u8,
                    )
            }
        }),
{
    let raw = match requested {
        Some(r) => encode_utf8(r),
        None => match stem {
            Some(s) => encode_utf8(s),
            None => Seq::empty(),
        },
    };
    reveal_strlit("FS2ISO");
    assert("FS2ISO"@ =~= seq!['F', 'S', '2', 'I', 'S', 'O']);
    labels_read_back(raw);
}

/// The temporary file of an output is named after it, and no two attempts of
/// one process use the same name.
pub proof fn temporary_names_differ(name: Option<Seq<char>>, process: u32, a: u32, b: u32)
    ensures
        name matches Some(n) ==> n.is_prefix_of(temporary_text(name, process, a))
            && temporary_text(name, process, a).len() > n.len(),
        a != b ==> temporary_text(name, process, a) != temporary_text(name, process, b),
{
    let base = match name {
        Some(n) => n,
        None => "fs2iso-output"@,
    };
    let first = base + ".tmp-"@ + ascii_chars(decimal(process as nat));
    reveal_strlit(".tmp-");
    reveal_strlit("-");
    let s = temporary_text(name, process, a);
    let t = temporary_text(name, process, b);
    if let Some(n) = name {
        assert(n =~= s.take(n.len() as int));
    }
    decimal_reads_back(a as nat);
    decimal_reads_back(b as nat);
    if a != b && s == t {
        let n = first.len() as int;
        if a == 0 {
            assert(s.len() == n);
            assert(t.len() > n);
        } else if b == 0 {
            assert(t.len() == n);
            assert(s.len() > n);
        } else {
            let x = ascii_chars(decimal(a as nat));
            let y = ascii_chars(decimal(b as nat));
            assert(s.skip(n + 1) =~= x);
            assert(t.skip(n + 1) =~= y);
            assert(decimal(a as nat).len() == x.len());
            assert forall|i: int| 0 <= i < x.len() implies #[trigger] decimal(a as nat)[i]
                == decimal(b as nat)[i] by {
                assert(x[i] == y[i]);
                assert(x[i] as int == decimal(a as nat)[i]);
                assert(y[i] as int == decimal(b as nat)[i]);
            }
            assert(decimal(a as nat) =~= decimal(b as nat));
        }
    }
}

/// No two processes use the same temporary name for an output, at whatever
/// attempts.
pub proof fn processes_use_different_names(
    name: Option<Seq<char>>,
    p: u32,
    q: u32,
    a: u32,
    b: u32,
)
    requires
        p != q,
    ensures
        temporary_text(name, p, a) != temporary_text(name, q, b),
{
    if temporary_text(name, p, a) == temporary_text(name, q, b) {
        if decimal(p as nat).len() <= decimal(q as nat).len() {
            shorter_number_ends(name, p, q, a, b);
        } else {
            shorter_number_ends(name, q, p, b, a);
        }
    }
}

proof fn shorter_number_ends(name: Option<Seq<char>>, p: u32, q: u32, a: u32, b: u32)
    requires
        decimal(p as nat).len() <= decimal(q as nat).len(),
        temporary_text(name, p, a) == temporary_text(name, q, b),
    ensures
        p == q,
{
    let base = match name {
        Some(n) => n,
        None => "fs2iso-output"@,
    };
    let start = (base + ".tmp-"@).len() as int;
    let x = decimal(p as nat);
    let y = decimal(q as nat);
    let s = temporary_text(name, p, a);
    let t = temporary_text(name, q, b);
    reveal_strlit("-");
    decimal_reads_back(p as nat);
    decimal_reads_back(q as nat);
    assert forall|i: int| 0 <= i < x.len() implies #[trigger] x[i] == y[i] by {
        assert(s[start + i] == ascii_chars(x)[i]);
        assert(t[start + i] == ascii_chars(y)[i]);
        assert(ascii_chars(x)[i] as int == x[i]);
        assert(ascii_chars(y)[i] as int == y[i]);
    }
    let n = x.len() as int;
    if n < y.len() {
        assert(t[start + n] == ascii_chars(y)[n]);
        assert(ascii_chars(y)[n] as int == y[n]);
        assert(a > 0);
        assert(s[start + n] == '-');
    }
    assert(x =~= y);
}

} // verus!
