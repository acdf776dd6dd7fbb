//! Hiding the engine's own files (`esp.img`, `boot.catalog`) in the directory
//! trees of a finished image.
//!
//! The volume descriptors are searched for the primary one (base namespace)
//! and the Joliet one (escape sequence "%/E"). In the root directory of each,
//! bit 0 of the flags of every record that names an artifact is set. Hidden
//! files stay readable; ordinary listings skip them.
use vstd::prelude::*;
use crate::bytes::{le32_at, read_u32_le};
use crate::layout::SECTOR;
use crate::names::be_units;
use crate::text::{
    from_utf16_lossy, from_utf8_lossy, lossy_utf16, lossy_utf8, str_eq, to_uppercase, uppercase, utf16,
};

verus! {

/// Offset of the root directory record in a volume descriptor.
pub const ROOT_RECORD: usize = 156;

/// Offset of the flags in a directory record.
pub const RECORD_FLAGS: usize = 25;

// ---------------------------------------------------------------------------
// names of records
// ---------------------------------------------------------------------------

/// A byte string read as UTF-16BE units; an odd byte at the end is left out.
pub open spec fn units_of(id: Seq<u8>) -> Seq<u16> {
    Seq::new(id.len() / 2, |i: int| (256 * id[2 * i] + id[2 * i + 1]) as u16)
}

/// The bytes before the first ';'.
pub open spec fn before_version(id: Seq<u8>) -> Seq<u8>
    decreases id.len(),
{
    if id.len() == 0 || id[0] == 59 {
        Seq::empty()
    } else {
        seq![id[0]] + before_version(id.drop_first())
    }
}

/// The name of a record: Joliet identifiers are UTF-16BE, base identifiers are
/// taken in upper case and without their version.
pub open spec fn name_of(id: Seq<u8>, joliet: bool) -> Seq<char> {
    if joliet {
        lossy_utf16(units_of(id))
    } else {
        uppercase(lossy_utf8(before_version(id)))
    }
}

/// Whether a name is that of an artifact.
pub open spec fn artifact_name(name: Seq<char>, joliet: bool) -> bool {
    if joliet {
        name == "esp.img"@ || name == "boot.catalog"@
    } else {
        name == "ESP.IMG"@ || name == "BOOT.CATALOG"@
    }
}

/// Whether a name is that of an artifact, in the form of a namespace.
pub fn is_artifact(name: &str, joliet: bool) -> (r: bool)
    ensures
        r == artifact_name(name@, joliet),
{
    if joliet {
        str_eq(name, "esp.img") || str_eq(name, "boot.catalog")
    } else {
        str_eq(name, "ESP.IMG") || str_eq(name, "BOOT.CATALOG")
    }
}

/// The length of `before_version` and its prefix property.
proof fn before_version_prefix(id: Seq<u8>, n: int)
    requires
        0 <= n <= id.len(),
        forall|i: int| 0 <= i < n ==> id[i] != 59,
        n < id.len() ==> id[n] == 59,
    ensures
        before_version(id) == id.take(n),
    decreases n,
{
    if n == 0 {
        assert(id.take(0) =~= Seq::<u8>::empty());
    } else {
        before_version_prefix(id.drop_first(), n - 1);
        assert(id.take(n) =~= seq![id[0]] + id.drop_first().take(n - 1));
    }
}

/// Decodes an identifier to a name.
fn record_name(id: &[u8], joliet: bool) -> (name: String)
    ensures
        name@ == name_of(id@, joliet),
{
    let n: usize = id.len();
    if joliet {
        let mut units: Vec<u16> = Vec::new();
        let mut i: usize = 0;
        while i < n / 2
            invariant
                n == id@.len(),
                i <= n / 2,
                units@ =~= units_of(id@).take(i as int),
            decreases n / 2 - i,
        {
            units.push(256 * (id[2 * i] as u16) + id[2 * i + 1] as u16);
            i += 1;
        }
        assert(units@ =~= units_of(id@));
        from_utf16_lossy(units.as_slice())
    } else {
        let mut i: usize = 0;
        while i < n && id[i] != 59
            invariant
                n == id@.len(),
                i <= n,
                forall|j: int| 0 <= j < i ==> id@[j] != 59,
            decreases n - i,
        {
            i += 1;
        }
        proof {
            before_version_prefix(id@, i as int);
            assert(id@.subrange(0, i as int) =~= id@.take(i as int));
        }
        let text: String = from_utf8_lossy(vstd::slice::slice_subrange(id, 0, i));
        to_uppercase(text.as_str())
    }
}

// ---------------------------------------------------------------------------
// directory records
// ---------------------------------------------------------------------------

/// The identifier of the record at `off`.
pub open spec fn id_at(data: Seq<u8>, off: int) -> Seq<u8> {
    data.subrange(off + 33, off + 33 + data[off + 32])
}

/// The record at `off` holds its identifier.
pub open spec fn sound_at(data: Seq<u8>, off: int) -> bool {
    33 + data[off + 32] <= data[off]
}

/// Where the records of a directory go on behind `off`: behind the record
/// there, or in the next sector where there is none; `None` where they end.
pub open spec fn next_record(data: Seq<u8>, off: int) -> Option<int> {
    if off < 0 || off + 34 > data.len() {
        None
    } else if data[off] == 0 {
        Some((off / SECTOR as int + 1) * SECTOR)
    } else if off + data[off] > data.len() {
        None
    } else {
        Some(off + data[off])
    }
}

/// The offsets, from `off` on, of the records of a directory.
pub open spec fn record_offsets(data: Seq<u8>, off: int) -> Seq<int>
    decreases data.len() + SECTOR - off,
{
    match next_record(data, off) {
        None => Seq::empty(),
        Some(next) => if data[off] == 0 {
            record_offsets(data, next)
        } else {
            seq![off] + record_offsets(data, next)
        },
    }
}

/// All records of a directory hold their identifiers.
pub open spec fn records_sound(data: Seq<u8>) -> bool {
    forall|i: int|
        0 <= i < record_offsets(data, 0).len() ==> sound_at(
            data,
            #[trigger] record_offsets(data, 0)[i],
        )
}

/// Whether the record at `off` names an artifact.
pub open spec fn artifact_at(data: Seq<u8>, joliet: bool, off: int) -> bool {
    artifact_name(name_of(id_at(data, off), joliet), joliet)
}

/// The offsets among `offs` whose records name an artifact.
pub open spec fn artifacts_among(data: Seq<u8>, joliet: bool, offs: Seq<int>) -> Seq<int>
    decreases offs.len(),
{
    if offs.len() == 0 {
        Seq::empty()
    } else if artifact_at(data, joliet, offs.last()) {
        artifacts_among(data, joliet, offs.drop_last()).push(offs.last())
    } else {
        artifacts_among(data, joliet, offs.drop_last())
    }
}

/// The offsets of the records of a directory that name an artifact.
pub open spec fn artifact_offsets(data: Seq<u8>, joliet: bool) -> Seq<int> {
    artifacts_among(data, joliet, record_offsets(data, 0))
}

/// The offsets of the records of a directory; `None` where one of them does
/// not hold its identifier.
fn find_records(data: &[u8]) -> (r: Option<Vec<usize>>)
    ensures
        r matches Some(offs) ==> records_sound(data@) && offs@.map_values(|o: usize| o as int)
            == record_offsets(data@, 0) && forall|i: int|
            0 <= i < offs@.len() ==> (#[trigger] offs@[i]) + 34 <= data@.len() && sound_at(
                data@,
                offs@[i] as int,
            ) && offs@[i] + data@[offs@[i] as int] <= data@.len(),
        r is None ==> !records_sound(data@),
{
    let n: usize = data.len();
    let ghost all = record_offsets(data@, 0);
    let mut offs: Vec<usize> = Vec::new();
    let mut off: usize = 0;
    assert(offs@.map_values(|o: usize| o as int) + record_offsets(data@, 0) =~= all);
    while off <= n && n - off >= 34
        invariant
            n == data@.len(),
            all == record_offsets(data@, 0),
            all == offs@.map_values(|o: usize| o as int) + record_offsets(data@, off as int),
            forall|i: int|
                0 <= i < offs@.len() ==> (#[trigger] offs@[i]) + 34 <= n && sound_at(
                    data@,
                    offs@[i] as int,
                ) && offs@[i] + data@[offs@[i] as int] <= n,
        ensures
            all == offs@.map_values(|o: usize| o as int),
        decreases n + 2048 - off,
    {
        let len: usize = data[off] as usize;
        let ghost before = offs@.map_values(|o: usize| o as int);
        let ghost rest = record_offsets(data@, off as int);
        if len == 0 {
            assert(off / SECTOR <= n / SECTOR);
            if n - off < SECTOR - off % SECTOR {
                assert(next_record(data@, off as int) == Some((off as int / 2048 + 1) * 2048));
                assert(record_offsets(data@, (off as int / 2048 + 1) * 2048) =~= Seq::<
                    int,
                >::empty());
                break;
            }
            off = off + (SECTOR - off % SECTOR);
        } else {
            if len > n - off {
                break;
            }
            assert(rest == seq![off as int] + record_offsets(data@, off + len));
            if 33 + data[off + 32] as usize > len {
                proof {
                    assert(all[offs@.len() as int] == off);
                    assert(!sound_at(data@, record_offsets(data@, 0)[offs@.len() as int]));
                }
                return None;
            }
            offs.push(off);
            proof {
                let now = offs@.map_values(|o: usize| o as int);
                assert(now =~= before.push(off as int));
                assert(now + record_offsets(data@, off + len) =~= before + rest);
            }
            off += len;
        }
    }
    proof {
        assert forall|i: int| 0 <= i < record_offsets(data@, 0).len() implies sound_at(
            data@,
            #[trigger] record_offsets(data@, 0)[i],
        ) by {
            assert(record_offsets(data@, 0)[i] == offs@[i]);
        }
    }
    Some(offs)
}

// ---------------------------------------------------------------------------
// the pass over an image
// ---------------------------------------------------------------------------

/// Why the artifacts of an image could not be hidden.
#[derive(Debug, Clone, Copy, PartialEq, Eq, Structural)]
pub enum HideError {
    /// The image ends before its descriptors or before a root directory.
    Truncated,
    /// A record of a root directory does not hold its identifier.
    BadRecord,
    /// No record names an artifact.
    NoneFound,
}

/// The sectors of the descriptors of the two namespaces.
pub struct Descriptors {
    pub primary: Option<int>,
    pub joliet: Option<int>,
}

/// Whether "CD001" stands behind the type of the descriptor at `o`.
pub open spec fn signature_at(image: Seq<u8>, o: int) -> bool {
    image[o + 1] == 67 && image[o + 2] == 68 && image[o + 3] == 48 && image[o + 4] == 48 && image[o
        + 5] == 49
}

/// Whether the descriptor at `o` has the Joliet escape sequence "%/E".
pub open spec fn joliet_escape_at(image: Seq<u8>, o: int) -> bool {
    image[o + 88] == 37 && image[o + 89] == 47 && image[o + 90] == 69
}

/// What is known after the descriptor in sector `lba`: the last primary
/// descriptor and the first Joliet one.
pub open spec fn note_descriptor(image: Seq<u8>, lba: int, found: Descriptors) -> Descriptors {
    let o = lba * SECTOR;
    if !signature_at(image, o) {
        found
    } else if image[o] == 1 {
        Descriptors { primary: Some(lba), ..found }
    } else if image[o] == 2 && joliet_escape_at(image, o) && found.joliet is None {
        Descriptors { joliet: Some(lba), ..found }
    } else {
        found
    }
}

/// The descriptors from sector `lba` to the terminator, or `None` where the
/// image ends before it.
pub open spec fn scan(image: Seq<u8>, lba: int, found: Descriptors) -> Option<Descriptors>
    decreases image.len() - lba * SECTOR,
{
    if lba < 0 || (lba + 1) * SECTOR > image.len() {
        None
    } else if image[lba * SECTOR] == 255 {
        Some(found)
    } else {
        scan(image, lba + 1, note_descriptor(image, lba, found))
    }
}

/// First byte of the root directory of the descriptor in sector `lba`.
pub open spec fn root_start(image: Seq<u8>, lba: int) -> int {
    le32_at(image, lba * SECTOR + ROOT_RECORD + 2) * SECTOR
}

/// Byte length of the root directory of the descriptor in sector `lba`.
pub open spec fn root_len(image: Seq<u8>, lba: int) -> int {
    le32_at(image, lba * SECTOR + ROOT_RECORD + 10)
}

/// Whether the root directory lies within the image.
pub open spec fn root_within(image: Seq<u8>, lba: int) -> bool {
    root_len(image, lba) == 0 || root_start(image, lba) + root_len(image, lba) <= image.len()
}

/// The root directory of the descriptor in sector `lba`.
pub open spec fn root_data(image: Seq<u8>, lba: int) -> Seq<u8> {
    if root_len(image, lba) == 0 {
        Seq::empty()
    } else {
        image.subrange(root_start(image, lba), root_start(image, lba) + root_len(image, lba))
    }
}

/// The image with the hidden bit set in the flags of the records at `offs` of
/// the directory that starts at `start`.
pub open spec fn with_hidden(image: Seq<u8>, start: int, offs: Seq<int>) -> Seq<u8> {
    Seq::new(
        image.len(),
        |i: int|
            if offs.contains(i - start - RECORD_FLAGS) {
                image[i] | 1
            } else {
                image[i]
            },
    )
}

/// Hiding the artifacts of one namespace: the image, and how many were hidden.
pub open spec fn hide_tree(image: Seq<u8>, lba: int, joliet: bool) -> (Seq<u8>, Result<int, HideError>) {
    let offs = artifact_offsets(root_data(image, lba), joliet);
    if !root_within(image, lba) {
        (image, Err(HideError::Truncated))
    } else if !records_sound(root_data(image, lba)) {
        (image, Err(HideError::BadRecord))
    } else {
        (with_hidden(image, root_start(image, lba), offs), Ok(offs.len() as int))
    }
}

/// Hiding the artifacts of a namespace that may be missing.
pub open spec fn hide_in(image: Seq<u8>, lba: Option<int>, joliet: bool) -> (Seq<u8>, Result<
    int,
    HideError,
>) {
    match lba {
        Some(n) => hide_tree(image, n, joliet),
        None => (image, Ok(0)),
    }
}

/// Hiding the artifacts of an image, first in the base namespace, then in the
/// Joliet namespace.
pub open spec fn hiding(image: Seq<u8>) -> (Seq<u8>, Result<(), HideError>) {
    match scan(image, 16, Descriptors { primary: None, joliet: None }) {
        None => (image, Err(HideError::Truncated)),
        Some(found) => {
            let (base, base_count) = hide_in(image, found.primary, false);
            match base_count {
                Err(x) => (base, Err(x)),
                Ok(n) => {
                    let (both, joliet_count) = hide_in(base, found.joliet, true);
                    match joliet_count {
                        Err(x) => (both, Err(x)),
                        Ok(m) => if n + m == 0 {
                            (both, Err(HideError::NoneFound))
                        } else {
                            (both, Ok(()))
                        },
                    }
                },
            }
        },
    }
}

/// The offset of a sector, where the image holds all of it.
fn sector_offset(image: &Vec<u8>, lba: u64) -> (r: Option<usize>)
    ensures
        r matches Some(o) ==> o == lba * SECTOR && (lba + 1) * SECTOR <= image@.len(),
        r is None ==> (lba + 1) * SECTOR > image@.len(),
{
    let n: u64 = image.len() as u64;
    if lba >= n / SECTOR as u64 {
        None
    } else {
        Some((lba * SECTOR as u64) as usize)
    }
}

/// Finds the descriptors of the two namespaces; `None` where the image ends
/// before the terminator.
fn find_descriptors(image: &Vec<u8>) -> (r: Option<(Option<u64>, Option<u64>)>)
    ensures
        match (r, scan(image@, 16, (Descriptors { primary: None, joliet: None }))) {
            (None, None) => true,
            (Some(x), Some(found)) => {
                &&& found.primary == match x.0 {
                    Some(n) => Some(n as int),
                    None => None,
                }
                &&& found.joliet == match x.1 {
                    Some(n) => Some(n as int),
                    None => None,
                }
                &&& x.0 matches Some(n) ==> (n + 1) * SECTOR <= image@.len()
                &&& x.1 matches Some(n) ==> (n + 1) * SECTOR <= image@.len()
            },
            _ => false,
        },
{
    let mut primary: Option<u64> = None;
    let mut joliet: Option<u64> = None;
    let mut lba: u64 = 16;
    let ghost all = scan(image@, 16, Descriptors { primary: None, joliet: None });
    loop
        invariant
            lba >= 16,
            all == scan(
                image@,
                lba as int,
                (Descriptors {
                    primary: match primary {
                        Some(n) => Some(n as int),
                        None => None,
                    },
                    joliet: match joliet {
                        Some(n) => Some(n as int),
                        None => None,
                    },
                }),
            ),
            all == scan(image@, 16, (Descriptors { primary: None, joliet: None })),
            primary matches Some(n) ==> (n + 1) * SECTOR <= image@.len(),
            joliet matches Some(n) ==> (n + 1) * SECTOR <= image@.len(),
        decreases image@.len() - lba * SECTOR,
    {
        let o: usize = match sector_offset(image, lba) {
            Some(o) => o,
            None => {
                return None;
            },
        };
        assert(image.len() >= o + SECTOR);
        if image[o] == 255 {
            return Some((primary, joliet));
        }
        if image[o + 1] == 67 && image[o + 2] == 68 && image[o + 3] == 48 && image[o + 4] == 48
            && image[o + 5] == 49 {
            if image[o] == 1 {
                primary = Some(lba);
            } else if image[o] == 2 && image[o + 88] == 37 && image[o + 89] == 47 && image[o + 90]
                == 69 && joliet.is_none() {
                joliet = Some(lba);
            }
        }
        lba += 1;
    }
}

/// Sets the hidden flag on every root-directory record that names an
/// artifact, in the namespace of the descriptor in sector `lba`. Gives the
/// number of records.
fn hide_artifacts_in_tree(image: &mut Vec<u8>, lba: u64, joliet: bool) -> (r: Result<
    usize,
    HideError,
>)
    requires
        (lba + 1) * SECTOR <= old(image)@.len(),
    ensures
        final(image)@ == hide_tree(old(image)@, lba as int, joliet).0,
        match (r, hide_tree(old(image)@, lba as int, joliet).1) {
            (Ok(n), Ok(m)) => n == m,
            (Err(x), Err(y)) => x == y,
            _ => false,
        },
{
    let ghost had = image@;
    let size: usize = image.len();
    assert((lba + 1) * SECTOR == lba * 2048 + 2048);
    let o: usize = (lba * 2048) as usize;
    let extent: u32 = read_u32_le(image.as_slice(), o + ROOT_RECORD + 2);
    let len: u32 = read_u32_le(image.as_slice(), o + ROOT_RECORD + 10);
    if len == 0 {
        assert(record_offsets(Seq::<u8>::empty(), 0) =~= Seq::<int>::empty());
        assert(image@ =~= with_hidden(had, root_start(had, lba as int), Seq::<int>::empty()));
        return Ok(0);
    }
    let start64: u64 = extent as u64 * SECTOR as u64;
    if start64 + len as u64 > size as u64 {
        return Err(HideError::Truncated);
    }
    let start: usize = start64 as usize;
    let ghost data = root_data(had, lba as int);
    let offs: Vec<usize> = match find_records(
        vstd::slice::slice_subrange(image.as_slice(), start, start + len as usize),
    ) {
        Some(offs) => offs,
        None => {
            return Err(HideError::BadRecord);
        },
    };
    let ghost all = record_offsets(data, 0);
    let count: usize = offs.len();
    let mut hidden: usize = 0;
    let mut i: usize = 0;
    proof {
        assert(all.take(0) =~= Seq::<int>::empty());
        assert(image@ =~= with_hidden(had, start as int, artifacts_among(data, joliet, all.take(0))));
        offsets_apart(data, 0);
    }
    while i < count
        invariant
            size == image@.len(),
            start + len <= size,
            had.len() == size,
            data == had.subrange(start as int, start + len),
            count == offs@.len(),
            i <= count,
            all == record_offsets(data, 0),
            all == offs@.map_values(|x: usize| x as int),
            forall|j: int|
                0 <= j < offs@.len() ==> (#[trigger] offs@[j]) + 34 <= data.len() && sound_at(
                    data,
                    offs@[j] as int,
                ) && offs@[j] + data[offs@[j] as int] <= data.len(),
            apart(data, all),
            image@ == with_hidden(had, start as int, artifacts_among(data, joliet, all.take(i as int))),
            hidden == artifacts_among(data, joliet, all.take(i as int)).len(),
            hidden <= i,
        decreases count - i,
    {
        let off: usize = offs[i];
        let ghost found = artifacts_among(data, joliet, all.take(i as int));
        proof {
            assert(all[i as int] == off);
            assert(all.take(i + 1).drop_last() =~= all.take(i as int));
            assert(all.take(i + 1).last() == off);
            record_kept(had, start as int, data, joliet, all, i as int);
        }
        let id_len: usize = image[start + off + 32] as usize;
        let id: &[u8] = vstd::slice::slice_subrange(
            image.as_slice(),
            start + off + 33,
            start + off + 33 + id_len,
        );
        assert(id@ =~= id_at(data, off as int));
        let name: String = record_name(id, joliet);
        if is_artifact(name.as_str(), joliet) {
            let flags: usize = start + off + RECORD_FLAGS;
            image.set(flags, image[flags] | 1);
            hidden += 1;
            proof {
                let longer = found.push(off as int);
                assert(artifacts_among(data, joliet, all.take(i + 1)) == longer);
                assert forall|k: int| 0 <= k < size implies #[trigger] image@[k] == with_hidden(
                    had,
                    start as int,
                    longer,
                )[k] by {
                    let x = k - start - RECORD_FLAGS;
                    assert(longer.contains(x) <==> found.contains(x) || x == off) by {
                        if found.contains(x) {
                            let m = choose|m: int| 0 <= m < found.len() && found[m] == x;
                            assert(longer[m] == x);
                        }
                        assert(longer[found.len() as int] == off);
                        if longer.contains(x) && x != off {
                            let m = choose|m: int| 0 <= m < longer.len() && longer[m] == x;
                            assert(found[m] == x);
                        }
                    }
                    let b = had[k];
                    assert((b | 1) | 1 == b | 1) by (bit_vector);
                }
                assert(image@ =~= with_hidden(had, start as int, longer));
            }
        }
        i += 1;
    }
    assert(all.take(count as int) =~= all);
    Ok(hidden)
}

/// Records do not overlap: each ends before the next one starts.
spec fn apart(data: Seq<u8>, offs: Seq<int>) -> bool {
    forall|i: int, j: int|
        0 <= i < j < offs.len() ==> (#[trigger] offs[i]) + data[offs[i]] <= #[trigger] offs[j]
}

proof fn offsets_apart(data: Seq<u8>, off: int)
    ensures
        apart(data, record_offsets(data, off)),
        forall|i: int|
            0 <= i < record_offsets(data, off).len() ==> off <= (#[trigger] record_offsets(
                data,
                off,
            )[i]),
    decreases data.len() + SECTOR - off,
{
    match next_record(data, off) {
        None => {},
        Some(next) => {
            offsets_apart(data, next);
            let rest = record_offsets(data, next);
            if data[off] != 0 {
                let all = seq![off] + rest;
                assert forall|i: int, j: int| 0 <= i < j < all.len() implies (#[trigger] all[i])
                    + data[all[i]] <= #[trigger] all[j] by {
                    if i > 0 {
                        assert(rest[i - 1] + data[rest[i - 1]] <= rest[j - 1]);
                    } else {
                        assert(next <= rest[j - 1]);
                    }
                }
            }
        },
    }
}

/// Setting flags of earlier records leaves identifier and length of a record
/// as they were.
proof fn record_kept(
    had: Seq<u8>,
    start: int,
    data: Seq<u8>,
    joliet: bool,
    all: Seq<int>,
    i: int,
)
    requires
        0 <= start,
        start + data.len() <= had.len(),
        data == had.subrange(start, start + data.len()),
        apart(data, all),
        0 <= i < all.len(),
        forall|j: int|
            0 <= j < all.len() ==> 0 <= (#[trigger] all[j]) && all[j] + 34 <= data.len() && sound_at(
                data,
                all[j],
            ) && all[j] + data[all[j]] <= data.len(),
    ensures
        ({
            let now = with_hidden(had, start, artifacts_among(data, joliet, all.take(i)));
            &&& now[start + all[i] + 32] == data[all[i] + 32]
            &&& now.subrange(start + all[i] + 33, start + all[i] + 33 + data[all[i] + 32]) == id_at(
                data,
                all[i],
            )
        }),
{
    let found = artifacts_among(data, joliet, all.take(i));
    let now = with_hidden(had, start, found);
    let off = all[i];
    artifacts_are_among(data, joliet, all.take(i));
    assert forall|k: int| off + 26 <= k < off + data[off] implies now[start + k] == data[k] by {
        let x = k - RECORD_FLAGS;
        if found.contains(x) {
            assert(all.take(i).contains(x));
            let j = choose|j: int| 0 <= j < i && all.take(i)[j] == x;
            assert(all[j] + data[all[j]] <= all[i]);
            assert(sound_at(data, all[j]));
        }
    }
    assert(now.subrange(start + off + 33, start + off + 33 + data[off + 32]) =~= id_at(data, off));
}

proof fn artifacts_are_among(data: Seq<u8>, joliet: bool, offs: Seq<int>)
    ensures
        forall|x: int| #[trigger]
            artifacts_among(data, joliet, offs).contains(x) <==> offs.contains(x) && artifact_at(
                data,
                joliet,
                x,
            ),
    decreases offs.len(),
{
    let found = artifacts_among(data, joliet, offs);
    if offs.len() > 0 {
        let init = offs.drop_last();
        let head = artifacts_among(data, joliet, init);
        artifacts_are_among(data, joliet, init);
        assert forall|x: int| #[trigger] found.contains(x) <==> offs.contains(x) && artifact_at(
            data,
            joliet,
            x,
        ) by {
            if found.contains(x) {
                let i = choose|i: int| 0 <= i < found.len() && found[i] == x;
                if i < head.len() {
                    assert(head[i] == x);
                    assert(head.contains(x));
                    let j = choose|j: int| 0 <= j < init.len() && init[j] == x;
                    assert(offs[j] == x);
                } else {
                    assert(offs[offs.len() - 1] == x);
                }
            }
            if offs.contains(x) && artifact_at(data, joliet, x) {
                let j = choose|j: int| 0 <= j < offs.len() && offs[j] == x;
                if j < init.len() {
                    assert(init[j] == x);
                    assert(init.contains(x));
                    assert(head.contains(x));
                    let i = choose|i: int| 0 <= i < head.len() && head[i] == x;
                    assert(found[i] == x);
                } else {
                    assert(found[head.len() as int] == x);
                }
            }
        }
    }
}

/// Marks the artifacts hidden in both namespaces of a finished image.
pub fn try_hide_engine_artifacts(image: &mut Vec<u8>) -> (r: Result<(), HideError>)
    ensures
        final(image)@ == hiding(old(image)@).0,
        r == hiding(old(image)@).1,
{
    let (primary, joliet): (Option<u64>, Option<u64>) = match find_descriptors(image) {
        Some(found) => found,
        None => {
            return Err(HideError::Truncated);
        },
    };
    let base_count: usize = match primary {
        Some(lba) => match hide_artifacts_in_tree(image, lba, false) {
            Ok(n) => n,
            Err(x) => {
                return Err(x);
            },
        },
        None => 0,
    };
    let joliet_count: usize = match joliet {
        Some(lba) => match hide_artifacts_in_tree(image, lba, true) {
            Ok(n) => n,
            Err(x) => {
                return Err(x);
            },
        },
        None => 0,
    };
    if base_count == 0 && joliet_count == 0 {
        return Err(HideError::NoneFound);
    }
    Ok(())
}

/// Marks the artifacts hidden in both namespaces of a finished image whose
/// root-directory records hold their identifiers.
pub fn hide_engine_artifacts(image: &mut Vec<u8>) -> (r: Result<(), HideError>)
    requires
        hiding(old(image)@).1 != Err::<(), HideError>(HideError::BadRecord),
    ensures
        final(image)@ == hiding(old(image)@).0,
        r == hiding(old(image)@).1,
{
    try_hide_engine_artifacts(image)
}

impl HideError {
    /// The text of an error; `shown` is the image as messages show it.
    pub open spec fn text(self, shown: Seq<char>) -> Seq<char> {
        match self {
            HideError::Truncated => "failed to fill whole buffer"@,
            HideError::BadRecord => "directory record too short for its identifier"@,
            HideError::NoneFound => "internal: expected to hide engine artifacts in "@ + shown
                + ", none found"@,
        }
    }

    /// The message for a user; `shown` is the image as messages show it.
    pub fn message(&self, shown: &str) -> (m: String)
        ensures
            m@ == self.text(shown@),
    {
        match self {
            HideError::Truncated => "failed to fill whole buffer".to_string(),
            HideError::BadRecord => "directory record too short for its identifier".to_string(),
            HideError::NoneFound => {
                let mut m: String = "internal: expected to hide engine artifacts in ".to_string();
                m.append(shown);
                m.append(", none found");
                m
            },
        }
    }
}

/// Hiding one namespace changes nothing but flags of its artifacts, and sets
/// the hidden bit there.
proof fn hide_in_changes(image: Seq<u8>, lba: Option<int>, joliet: bool)
    ensures
        ({
            let (now, r) = hide_in(image, lba, joliet);
            &&& now.len() == image.len()
            &&& forall|i: int|
                0 <= i < image.len() ==> now[i] == (#[trigger] image[i]) || {
                    &&& now[i] == image[i] | 1
                    &&& lba is Some
                    &&& flags_of_artifact(image, lba->0, joliet, i)
                }
            &&& r is Ok && lba is Some ==> forall|i: int|
                0 <= i < image.len() && #[trigger] flags_of_artifact(image, lba->0, joliet, i)
                    ==> now[i] == image[i] | 1
        }),
{
}

/// Whether byte `i` holds the flags of a root-directory record that names an
/// artifact.
pub open spec fn flags_of_artifact(image: Seq<u8>, lba: int, joliet: bool, i: int) -> bool {
    artifact_offsets(root_data(image, lba), joliet).contains(
        i - root_start(image, lba) - RECORD_FLAGS,
    )
}

/// Hiding leaves the length of an image and every byte but the flags of
/// artifact records as they were, and changes no bit but the hidden bit there.
pub proof fn hiding_changes_flags_only(image: Seq<u8>, i: int)
    requires
        0 <= i < image.len(),
    ensures
        hiding(image).0.len() == image.len(),
        hiding(image).0[i] == image[i] || {
            &&& hiding(image).0[i] == image[i] | 1
            &&& scan(image, 16, (Descriptors { primary: None, joliet: None })) matches Some(found)
                && {
                ||| found.primary matches Some(n) && flags_of_artifact(image, n, false, i)
                ||| found.joliet matches Some(n) && flags_of_artifact(
                    hide_in(image, found.primary, false).0,
                    n,
                    true,
                    i,
                )
            }
        },
{
    if let Some(found) = scan(image, 16, Descriptors { primary: None, joliet: None }) {
        let base = hide_in(image, found.primary, false).0;
        hide_in_changes(image, found.primary, false);
        hide_in_changes(base, found.joliet, true);
        let b = image[i];
        assert((b | 1) | 1 == b | 1) by (bit_vector);
        assert(base[i] == image[i] || base[i] == image[i] | 1);
    }
}

/// After hiding, the hidden bit is set in the flags of every root-directory
/// record that names an artifact, in the base and in the Joliet namespace.
pub proof fn hiding_sets_the_bit(image: Seq<u8>, i: int)
    requires
        0 <= i < image.len(),
        hiding(image).1 is Ok,
        scan(image, 16, (Descriptors { primary: None, joliet: None })) matches Some(found) && {
            ||| found.primary matches Some(n) && flags_of_artifact(image, n, false, i)
            ||| found.joliet matches Some(n) && flags_of_artifact(
                hide_in(image, found.primary, false).0,
                n,
                true,
                i,
            )
        },
    ensures
        hiding(image).0[i] & 1 == 1,
{
    if let Some(found) = scan(image, 16, Descriptors { primary: None, joliet: None }) {
        let base = hide_in(image, found.primary, false).0;
        hide_in_changes(image, found.primary, false);
        hide_in_changes(base, found.joliet, true);
        let now = hiding(image).0;
        let a = image[i];
        let b = base[i];
        assert(now == hide_in(base, found.joliet, true).0);
        assert((a | 1) & 1 == 1) by (bit_vector);
        assert((b | 1) & 1 == 1) by (bit_vector);
        assert(now[i] == b || now[i] == b | 1);
    }
}

/// The identifier that the engine gives `name` in the Joliet tree decodes to
/// that name.
pub proof fn joliet_identifier_decodes(name: Seq<char>)
    ensures
        units_of(be_units(utf16(name))) == utf16(name),
{
    units_round_trip(utf16(name));
}

proof fn units_round_trip(units: Seq<u16>)
    ensures
        units_of(be_units(units)) == units,
        be_units(units).len() == 2 * units.len(),
    decreases units.len(),
{
    if units.len() > 0 {
        let init = units.drop_last();
        units_round_trip(init);
        let b = be_units(units);
        let u = units.last() as int;
        assert(b == be_units(init) + seq![(u / 256 % 256) as u8, (u % 256) as u8]);
        assert forall|i: int| 0 <= i < units.len() implies units_of(b)[i] == units[i] by {
            if i < init.len() {
                assert(units_of(be_units(init))[i] == init[i]);
                assert(b[2 * i] == be_units(init)[2 * i]);
                assert(b[2 * i + 1] == be_units(init)[2 * i + 1]);
            } else {
                assert(b[2 * i] == (u / 256 % 256) as u8);
                assert(b[2 * i + 1] == (u % 256) as u8);
            }
        }
        assert(units_of(b) =~= units);
    } else {
        assert(units_of(be_units(units)) =~= units);
    }
}

} // verus!
