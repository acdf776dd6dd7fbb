//! Making a finished image conform to ISO 9660.
//!
//! Some writers leave the big-endian copies of the numbers in the primary
//! volume descriptor at zero and write no path tables. This pass appends path
//! tables made from the directory records, and patches the descriptor: volume
//! fields in both byte orders, the places of the path tables, the number of
//! sectors. Directory blocks and file contents stay as they are.
use vstd::prelude::*;
use crate::artifacts::signature_at;
use crate::bytes::{
    append, append_fill, be32, be32_bytes, both16, both16_bytes, both32, both32_bytes, ceil_div, ceil_div_spec,
    le16, le16_bytes, le32, le32_at, le32_bytes, low32, put, read_u32_le, splice,
};
use crate::layout::SECTOR;
use crate::order::{bytes_eq, sort_by_keys, sort_items, sort_items_facts};
use crate::render::{entry_word_sum, path_entry, path_entry_bytes, stands_at, word_sum};

verus! {

/// The deepest level of directories below the root.
pub const DEPTH_MAX: usize = 64;

// ---------------------------------------------------------------------------
// directories of an image
// ---------------------------------------------------------------------------

/// The offsets, from `pos` on, of the records of a directory that ends at
/// `end`. Where there is a zero in place of a length, they go on in the next
/// sector.
pub open spec fn raw_offsets(img: Seq<u8>, pos: int, end: int) -> Seq<int>
    decreases end + SECTOR - pos,
{
    if pos < 0 || pos + 33 > end {
        Seq::empty()
    } else if img[pos] == 0 {
        raw_offsets(img, (pos / SECTOR as int + 1) * SECTOR, end)
    } else if pos + img[pos] > end {
        Seq::empty()
    } else {
        seq![pos] + raw_offsets(img, pos + img[pos], end)
    }
}

/// The end of a directory that starts in sector `lba`; an image that ends
/// earlier cuts it off.
pub open spec fn dir_end(img: Seq<u8>, lba: u32, len: u32) -> int {
    if lba * SECTOR + len <= img.len() {
        lba * SECTOR + len
    } else {
        img.len() as int
    }
}

/// The offsets of the records of a directory.
pub open spec fn records_of(img: Seq<u8>, lba: u32, len: u32) -> Seq<int> {
    raw_offsets(img, lba * SECTOR, dir_end(img, lba, len))
}

/// The record at `o` holds its identifier.
pub open spec fn holds_id(img: Seq<u8>, o: int) -> bool {
    33 + img[o + 32] <= img[o]
}

/// The records of a directory hold their identifiers.
pub open spec fn dir_sound(img: Seq<u8>, lba: u32, len: u32) -> bool {
    forall|i: int|
        0 <= i < records_of(img, lba, len).len() ==> holds_id(
            img,
            #[trigger] records_of(img, lba, len)[i],
        )
}

/// The identifier of the record at `o`.
pub open spec fn raw_id(img: Seq<u8>, o: int) -> Seq<u8> {
    img.subrange(o + 33, o + 33 + img[o + 32])
}

/// Whether the record at `o` is that of a subdirectory: a directory, and
/// neither the directory itself nor its parent.
pub open spec fn is_subdir(img: Seq<u8>, o: int) -> bool {
    img[o + 25] & 2 != 0 && raw_id(img, o) != seq![0u8] && raw_id(img, o) != seq![1u8]
}

/// A directory of a path table: its identifier, where it lies, and the number
/// of its parent.
#[verifier::ext_equal]
pub struct TableDirView {
    pub id: Seq<u8>,
    pub lba: u32,
    pub len: u32,
    pub up: nat,
}

/// The subdirectories among the records at `offs`, under parent number `up`.
pub open spec fn subdirs_at(img: Seq<u8>, offs: Seq<int>, up: nat) -> Seq<TableDirView>
    decreases offs.len(),
{
    if offs.len() == 0 {
        Seq::empty()
    } else {
        let o = offs.last();
        let head = subdirs_at(img, offs.drop_last(), up);
        if is_subdir(img, o) {
            head.push(
                TableDirView {
                    id: raw_id(img, o),
                    lba: le32_at(img, o + 2) as u32,
                    len: le32_at(img, o + 10) as u32,
                    up,
                },
            )
        } else {
            head
        }
    }
}

/// The identifiers of a list of directories by position.
pub open spec fn ids_of(dirs: Seq<TableDirView>) -> spec_fn(usize) -> Seq<u8> {
    |i: usize| dirs[i as int].id
}

/// The positions of a list.
pub open spec fn positions(n: nat) -> Seq<usize> {
    Seq::new(n, |i: int| i as usize)
}

/// Directories in ascending order of their identifiers.
pub open spec fn sort_dirs(dirs: Seq<TableDirView>) -> Seq<TableDirView> {
    sort_items(positions(dirs.len()), ids_of(dirs)).map_values(|i: usize| dirs[i as int])
}

/// The subdirectories of a directory with number `no`, by identifier.
pub open spec fn kids_of(img: Seq<u8>, d: TableDirView, no: nat) -> Seq<TableDirView> {
    sort_dirs(subdirs_at(img, records_of(img, d.lba, d.len), no))
}

/// The level below `level`, whose directories are numbered from `first` on.
pub open spec fn level_below(img: Seq<u8>, level: Seq<TableDirView>, first: nat) -> Seq<
    TableDirView,
>
    decreases level.len(),
{
    if level.len() == 0 {
        Seq::empty()
    } else {
        level_below(img, level.drop_last(), first) + kids_of(
            img,
            level.last(),
            (first + level.len() - 1) as nat,
        )
    }
}

/// All directories from `level` down, level by level; `None` where more than
/// `fuel` levels follow.
pub open spec fn levels_from(
    img: Seq<u8>,
    level: Seq<TableDirView>,
    first: nat,
    fuel: nat,
) -> Option<Seq<TableDirView>>
    decreases fuel,
{
    if level.len() == 0 {
        Some(Seq::empty())
    } else if fuel == 0 {
        None
    } else {
        match levels_from(
            img,
            level_below(img, level, first),
            first + level.len(),
            (fuel - 1) as nat,
        ) {
            None => None,
            Some(rest) => Some(level + rest),
        }
    }
}

/// The records of the directories of a level, and of `fuel - 1` levels below
/// it, hold their identifiers.
spec fn levels_sound(
    img: Seq<u8>,
    level: Seq<TableDirView>,
    first: nat,
    fuel: nat,
) -> bool
    decreases fuel,
{
    if level.len() == 0 || fuel == 0 {
        true
    } else {
        &&& forall|i: int|
            0 <= i < level.len() ==> dir_sound(img, (#[trigger] level[i]).lba, level[i].len)
        &&& levels_sound(
            img,
            level_below(img, level, first),
            first + level.len(),
            (fuel - 1) as nat,
        )
    }
}

/// What stops the walk down from a directory that may have `fuel` levels: no
/// level is left for it, one of its records does not hold its identifier, or
/// the first trouble below it.
pub open spec fn dir_trouble(img: Seq<u8>, lba: u32, len: u32, fuel: nat) -> Option<ConformError>
    decreases fuel, 0nat,
{
    if fuel == 0 {
        Some(ConformError::TooDeep)
    } else if !dir_sound(img, lba, len) {
        Some(ConformError::BadRecord)
    } else {
        list_trouble(img, subdirs_at(img, records_of(img, lba, len), 1), (fuel - 1) as nat)
    }
}

/// What stops the walk down from the first of the given directories that it
/// stops in.
pub open spec fn list_trouble(img: Seq<u8>, dirs: Seq<TableDirView>, fuel: nat) -> Option<
    ConformError,
>
    decreases fuel, dirs.len() + 1,
{
    if dirs.len() == 0 {
        None
    } else {
        match list_trouble(img, dirs.drop_last(), fuel) {
            Some(x) => Some(x),
            None => dir_trouble(img, dirs.last().lba, dirs.last().len, fuel),
        }
    }
}

/// The root directory as the first entry of a path table, its own parent.
pub open spec fn root_level(lba: u32, len: u32) -> Seq<TableDirView> {
    seq![TableDirView { id: Seq::empty(), lba, len, up: 1 }]
}

/// The bytes of the path table of a list of directories.
pub open spec fn table_of(dirs: Seq<TableDirView>, big: bool) -> Seq<u8>
    decreases dirs.len(),
{
    if dirs.len() == 0 {
        Seq::empty()
    } else {
        table_of(dirs.drop_last(), big) + path_entry(
            dirs.last().id,
            dirs.last().lba as int,
            dirs.last().up as int,
            big,
        )
    }
}

/// A directory of a path table.
pub struct TableDir {
    /// Identifier as stored in the directory record, empty for the root.
    pub id: Vec<u8>,
    pub lba: u32,
    pub len: u32,
    /// Number of the parent.
    pub up: u128,
}

impl View for TableDir {
    type V = TableDirView;

    open spec fn view(&self) -> TableDirView {
        TableDirView { id: self.id@, lba: self.lba, len: self.len, up: self.up as nat }
    }
}

/// Directories as values.
pub open spec fn dir_views(dirs: Seq<TableDir>) -> Seq<TableDirView> {
    dirs.map_values(|d: TableDir| d@)
}

/// The offsets of the records of a directory; `None` where one of them does
/// not hold its identifier.
fn raw_records(img: &Vec<u8>, lba: u32, len: u32) -> (r: Option<Vec<usize>>)
    ensures
        r matches Some(offs) ==> dir_sound(img@, lba, len) && offs@.map_values(|o: usize| o as int)
            == records_of(img@, lba, len) && forall|i: int|
            0 <= i < offs@.len() ==> (#[trigger] offs@[i]) + 33 <= img@.len() && holds_id(
                img@,
                offs@[i] as int,
            ) && offs@[i] + img@[offs@[i] as int] <= img@.len(),
        r is None ==> !dir_sound(img@, lba, len),
{
    let size: usize = img.len();
    let start: u64 = lba as u64 * SECTOR as u64;
    let mut offs: Vec<usize> = Vec::new();
    let ghost all = records_of(img@, lba, len);
    if start > size as u64 {
        assert(all =~= Seq::<int>::empty());
        assert(offs@.map_values(|o: usize| o as int) =~= all);
        return Some(offs);
    }
    let end: usize = if len as u64 <= size as u64 - start {
        (start + len as u64) as usize
    } else {
        size
    };
    let mut pos: usize = start as usize;
    assert(offs@.map_values(|o: usize| o as int) + all =~= all);
    while pos <= end && end - pos >= 33
        invariant
            end <= size,
            size == img@.len(),
            end == dir_end(img@, lba, len),
            all == records_of(img@, lba, len),
            all == offs@.map_values(|o: usize| o as int) + raw_offsets(
                img@,
                pos as int,
                end as int,
            ),
            forall|i: int|
                0 <= i < offs@.len() ==> (#[trigger] offs@[i]) + 33 <= size && holds_id(
                    img@,
                    offs@[i] as int,
                ) && offs@[i] + img@[offs@[i] as int] <= size,
        ensures
            all == offs@.map_values(|o: usize| o as int),
        decreases end - pos,
    {
        let n: usize = img[pos] as usize;
        let ghost before = offs@.map_values(|o: usize| o as int);
        let ghost rest = raw_offsets(img@, pos as int, end as int);
        if n == 0 {
            let to_next: usize = SECTOR - pos % SECTOR;
            assert((pos / SECTOR + 1) * SECTOR == pos + to_next);
            if to_next > end - pos {
                assert(before + raw_offsets(img@, pos + to_next, end as int) =~= before);
                break;
            }
            pos += to_next;
            continue;
        }
        if n > end - pos {
            break;
        }
        assert(rest == seq![pos as int] + raw_offsets(img@, pos + n, end as int));
        if 33 + img[pos + 32] as usize > n {
            proof {
                assert(all[offs@.len() as int] == pos);
                assert(!holds_id(img@, records_of(img@, lba, len)[offs@.len() as int]));
            }
            return None;
        }
        offs.push(pos);
        proof {
            let now = offs@.map_values(|o: usize| o as int);
            assert(now =~= before.push(pos as int));
            assert(now + raw_offsets(img@, pos + n, end as int) =~= before + rest);
        }
        pos += n;
    }
    proof {
        assert forall|i: int| 0 <= i < records_of(img@, lba, len).len() implies holds_id(
            img@,
            #[trigger] records_of(img@, lba, len)[i],
        ) by {
            assert(records_of(img@, lba, len)[i] == offs@[i]);
        }
    }
    Some(offs)
}

/// The subdirectories of a directory in the order of its records; `None` where
/// a record does not hold its identifier.
fn subdirs_unsorted(img: &Vec<u8>, lba: u32, len: u32, up: u128) -> (r: Option<Vec<TableDir>>)
    ensures
        r matches Some(dirs) ==> dir_sound(img@, lba, len) && dir_views(dirs@) == subdirs_at(
            img@,
            records_of(img@, lba, len),
            up as nat,
        ),
        r is None ==> !dir_sound(img@, lba, len),
{
    let offs: Vec<usize> = match raw_records(img, lba, len) {
        Some(offs) => offs,
        None => {
            return None;
        },
    };
    let ghost all = records_of(img@, lba, len);
    let dot: [u8; 1] = [0];
    let dotdot: [u8; 1] = [1];
    assert(dot@ =~= seq![0u8]);
    assert(dotdot@ =~= seq![1u8]);
    let size: usize = img.len();
    let count: usize = offs.len();
    let mut dirs: Vec<TableDir> = Vec::new();
    let mut i: usize = 0;
    assert(all.take(0) =~= Seq::<int>::empty());
    assert(dir_views(dirs@) =~= Seq::<TableDirView>::empty());
    while i < count
        invariant
            size == img@.len(),
            count == offs@.len(),
            i <= count,
            all == offs@.map_values(|o: usize| o as int),
            dot@ == seq![0u8],
            dotdot@ == seq![1u8],
            forall|j: int|
                0 <= j < offs@.len() ==> (#[trigger] offs@[j]) + 33 <= size && holds_id(
                    img@,
                    offs@[j] as int,
                ) && offs@[j] + img@[offs@[j] as int] <= size,
            dir_views(dirs@) == subdirs_at(img@, all.take(i as int), up as nat),
        decreases count - i,
    {
        let pos: usize = offs[i];
        proof {
            assert(all[i as int] == pos);
            assert(all.take(i + 1).drop_last() =~= all.take(i as int));
            assert(all.take(i + 1).last() == pos);
        }
        let id_len: usize = img[pos + 32] as usize;
        let id: &[u8] = vstd::slice::slice_subrange(img.as_slice(), pos + 33, pos + 33 + id_len);
        if img[pos + 25] & 2 != 0 && !bytes_eq(id, &dot) && !bytes_eq(id, &dotdot) {
            let mut own: Vec<u8> = Vec::new();
            append(&mut own, id);
            assert(own@ =~= raw_id(img@, pos as int));
            let d: TableDir = TableDir {
                id: own,
                lba: read_u32_le(img.as_slice(), pos + 2),
                len: read_u32_le(img.as_slice(), pos + 10),
                up,
            };
            assert(dir_views(dirs@.push(d)) =~= dir_views(dirs@).push(d@));
            dirs.push(d);
        }
        i += 1;
    }
    assert(all.take(count as int) =~= all);
    Some(dirs)
}

/// Copies a directory.
fn copy_dir(d: &TableDir) -> (c: TableDir)
    ensures
        c@ == d@,
{
    let mut id: Vec<u8> = Vec::new();
    append(&mut id, d.id.as_slice());
    assert(id@ =~= d.id@);
    TableDir { id, lba: d.lba, len: d.len, up: d.up }
}

/// Directories in ascending order of their identifiers.
fn sorted_dirs(dirs: &Vec<TableDir>) -> (out: Vec<TableDir>)
    ensures
        dir_views(out@) == sort_dirs(dir_views(dirs@)),
{
    let n: usize = dirs.len();
    let ghost v = dir_views(dirs@);
    let mut items: Vec<usize> = Vec::new();
    let mut keys: Vec<&[u8]> = Vec::new();
    let mut i: usize = 0;
    while i < n
        invariant
            n == dirs@.len(),
            i <= n,
            v == dir_views(dirs@),
            items@ =~= positions(i as nat),
            keys@.len() == i,
            forall|j: int| 0 <= j < i ==> ids_of(v)(items@[j]) == (#[trigger] keys@[j])@,
        decreases n - i,
    {
        items.push(i);
        keys.push(dirs[i].id.as_slice());
        i += 1;
    }
    let order: Vec<usize> = sort_by_keys(&items, &keys, Ghost(ids_of(v)));
    proof {
        sort_items_facts(items@, ids_of(v));
        assert forall|j: int| 0 <= j < order@.len() implies #[trigger] order@[j] < n by {
            assert(order@.contains(order@[j]));
            assert(items@.contains(order@[j]));
        }
    }
    let mut out: Vec<TableDir> = Vec::new();
    let mut j: usize = 0;
    let count: usize = order.len();
    while j < count
        invariant
            n == dirs@.len(),
            v == dir_views(dirs@),
            count == order@.len(),
            j <= count,
            forall|k: int| 0 <= k < order@.len() ==> #[trigger] order@[k] < n,
            order@ == sort_items(positions(v.len()), ids_of(v)),
            dir_views(out@) =~= sort_dirs(v).take(j as int),
        decreases count - j,
    {
        let d: TableDir = copy_dir(&dirs[order[j]]);
        assert(dir_views(out@.push(d)) =~= dir_views(out@).push(d@));
        out.push(d);
        j += 1;
    }
    assert(sort_dirs(v).take(count as int) =~= sort_dirs(v));
    out
}

/// The level below a level whose records hold their identifiers.
fn next_level(img: &Vec<u8>, level: &Vec<TableDir>, first: u128) -> (out: Vec<TableDir>)
    requires
        first + level@.len() <= u128::MAX,
        forall|i: int|
            0 <= i < level@.len() ==> dir_sound(
                img@,
                (#[trigger] dir_views(level@)[i]).lba,
                dir_views(level@)[i].len,
            ),
    ensures
        dir_views(out@) == level_below(img@, dir_views(level@), first as nat),
{
    let n: usize = level.len();
    let ghost v = dir_views(level@);
    let mut out: Vec<TableDir> = Vec::new();
    let mut i: usize = 0;
    assert(v.take(0) =~= Seq::<TableDirView>::empty());
    assert(dir_views(out@) =~= Seq::<TableDirView>::empty());
    while i < n
        invariant
            n == level@.len(),
            i <= n,
            first + n <= u128::MAX,
            v == dir_views(level@),
            dir_views(out@) == level_below(img@, v.take(i as int), first as nat),
            forall|j: int| 0 <= j < n ==> dir_sound(img@, (#[trigger] v[j]).lba, v[j].len),
        decreases n - i,
    {
        let d: &TableDir = &level[i];
        assert(v[i as int] == d@);
        let kids: Vec<TableDir> = subdirs_unsorted(img, d.lba, d.len, first + i as u128).unwrap();
        let mut sorted: Vec<TableDir> = sorted_dirs(&kids);
        let ghost before = out@;
        let ghost more = sorted@;
        out.append(&mut sorted);
        proof {
            assert(dir_views(out@) =~= dir_views(before) + dir_views(more));
            assert(v.take(i + 1).drop_last() =~= v.take(i as int));
            assert(v.take(i + 1).last() == d@);
        }
        i += 1;
    }
    assert(v.take(n as int) =~= v);
    out
}

/// Why an image could not be made to conform.
#[derive(Debug, Clone, Copy, PartialEq, Eq, Structural)]
pub enum ConformError {
    /// No primary volume descriptor in sector 16.
    NoPvd,
    /// Directories nest deeper than path tables are made for.
    TooDeep,
    /// A directory record does not hold its identifier.
    BadRecord,
    /// The volume ends before its descriptor, or has no 32-bit size.
    BadSize,
    /// The boot catalog lies outside the volume.
    BadCatalog,
}

/// No trouble in a list is no trouble in any of its directories.
proof fn no_trouble_in_list(img: Seq<u8>, dirs: Seq<TableDirView>, fuel: nat, i: int)
    requires
        list_trouble(img, dirs, fuel) is None,
        0 <= i < dirs.len(),
    ensures
        dir_trouble(img, dirs[i].lba, dirs[i].len, fuel) is None,
    decreases dirs.len(),
{
    if i < dirs.len() - 1 {
        no_trouble_in_list(img, dirs.drop_last(), fuel, i);
    }
}

proof fn trouble_stays(img: Seq<u8>, dirs: Seq<TableDirView>, fuel: nat, n: int)
    requires
        0 <= n <= dirs.len(),
    ensures
        list_trouble(img, dirs.take(n), fuel) matches Some(x) ==> list_trouble(img, dirs, fuel)
            == Some(x),
    decreases dirs.len() - n,
{
    if n < dirs.len() {
        assert(dirs.take(n + 1).drop_last() =~= dirs.take(n));
        trouble_stays(img, dirs, fuel, n + 1);
    } else {
        assert(dirs.take(n) =~= dirs);
    }
}

/// The number of the parent makes no difference to where subdirectories lie.
proof fn subdirs_lie_the_same(img: Seq<u8>, offs: Seq<int>, a: nat, b: nat)
    ensures
        subdirs_at(img, offs, a).len() == subdirs_at(img, offs, b).len(),
        forall|i: int|
            0 <= i < subdirs_at(img, offs, a).len() ==> (#[trigger] subdirs_at(img, offs, a)[i]).lba
                == subdirs_at(img, offs, b)[i].lba && subdirs_at(img, offs, a)[i].len == subdirs_at(
                img,
                offs,
                b,
            )[i].len,
    decreases offs.len(),
{
    if offs.len() > 0 {
        subdirs_lie_the_same(img, offs.drop_last(), a, b);
    }
}

/// No directory of a level stops the walk.
spec fn level_walked(img: Seq<u8>, level: Seq<TableDirView>, fuel: nat) -> bool {
    forall|i: int|
        0 <= i < level.len() ==> dir_trouble(
            img,
            (#[trigger] level[i]).lba,
            level[i].len,
            fuel,
        ) is None
}

proof fn kids_are_walked(img: Seq<u8>, d: TableDirView, no: nat, fuel: nat)
    requires
        fuel > 0,
        dir_trouble(img, d.lba, d.len, fuel) is None,
    ensures
        level_walked(img, kids_of(img, d, no), (fuel - 1) as nat),
{
    let offs = records_of(img, d.lba, d.len);
    let plain = subdirs_at(img, offs, 1);
    let own = subdirs_at(img, offs, no);
    let kids = kids_of(img, d, no);
    subdirs_lie_the_same(img, offs, no, 1);
    let order = sort_items(positions(own.len()), ids_of(own));
    sort_items_facts(positions(own.len()), ids_of(own));
    assert forall|i: int| 0 <= i < kids.len() implies dir_trouble(
        img,
        (#[trigger] kids[i]).lba,
        kids[i].len,
        (fuel - 1) as nat,
    ) is None by {
        assert(order.contains(order[i]));
        assert(positions(own.len()).contains(order[i]));
        let j = order[i] as int;
        assert(kids[i] == own[j]);
        no_trouble_in_list(img, plain, (fuel - 1) as nat, j);
    }
}

proof fn level_below_is_walked(img: Seq<u8>, level: Seq<TableDirView>, first: nat, fuel: nat)
    requires
        fuel > 0,
        level_walked(img, level, fuel),
    ensures
        level_walked(img, level_below(img, level, first), (fuel - 1) as nat),
    decreases level.len(),
{
    if level.len() > 0 {
        let less = level.drop_last();
        assert forall|i: int| 0 <= i < less.len() implies dir_trouble(
            img,
            (#[trigger] less[i]).lba,
            less[i].len,
            fuel,
        ) is None by {
            assert(less[i] == level[i]);
        }
        level_below_is_walked(img, less, first, fuel);
        let d = level[level.len() - 1];
        kids_are_walked(img, d, (first + level.len() - 1) as nat, fuel);
    }
}

/// Where nothing stops the walk, all records hold their identifiers and the
/// levels end.
proof fn walked_levels_end(img: Seq<u8>, level: Seq<TableDirView>, first: nat, fuel: nat)
    requires
        level_walked(img, level, fuel),
    ensures
        levels_sound(img, level, first, fuel),
        levels_from(img, level, first, fuel) is Some,
    decreases fuel,
{
    if level.len() > 0 {
        assert(dir_trouble(img, level[0].lba, level[0].len, fuel) is None);
        level_below_is_walked(img, level, first, fuel);
        walked_levels_end(
            img,
            level_below(img, level, first),
            first + level.len(),
            (fuel - 1) as nat,
        );
        assert forall|i: int| 0 <= i < level.len() implies dir_sound(
            img,
            (#[trigger] level[i]).lba,
            level[i].len,
        ) by {
            assert(dir_trouble(img, level[i].lba, level[i].len, fuel) is None);
        }
    }
}

/// Walks down from a directory, depth first, and gives what stops the walk.
fn check_dir(img: &Vec<u8>, lba: u32, len: u32, fuel: usize) -> (r: Option<ConformError>)
    ensures
        r == dir_trouble(img@, lba, len, fuel as nat),
    decreases fuel,
{
    if fuel == 0 {
        return Some(ConformError::TooDeep);
    }
    let kids: Vec<TableDir> = match subdirs_unsorted(img, lba, len, 1) {
        Some(kids) => kids,
        None => {
            return Some(ConformError::BadRecord);
        },
    };
    let ghost v = dir_views(kids@);
    let n: usize = kids.len();
    let mut i: usize = 0;
    assert(v.take(0) =~= Seq::<TableDirView>::empty());
    while i < n
        invariant
            n == kids@.len(),
            i <= n,
            fuel > 0,
            v == dir_views(kids@),
            dir_trouble(img@, lba, len, fuel as nat) == list_trouble(img@, v, (fuel - 1) as nat),
            list_trouble(img@, v.take(i as int), (fuel - 1) as nat) is None,
        decreases n - i,
    {
        proof {
            assert(v[i as int] == kids@[i as int]@);
            assert(v.take(i + 1).drop_last() =~= v.take(i as int));
            assert(v.take(i + 1).last() == v[i as int]);
            trouble_stays(img@, v, (fuel - 1) as nat, i + 1);
        }
        if let Some(x) = check_dir(img, kids[i].lba, kids[i].len, fuel - 1) {
            return Some(x);
        }
        i += 1;
    }
    assert(v.take(n as int) =~= v);
    None
}

/// All directories below the root, level by level, where nothing stops the
/// walk down from the root.
fn build(img: &Vec<u8>, lba: u32, len: u32) -> (r: Result<Vec<TableDir>, ConformError>)
    ensures
        match (r, dir_trouble(img@, lba, len, 65)) {
            (Ok(dirs), None) => levels_from(img@, root_level(lba, len), 1, 65) == Some(
                dir_views(dirs@),
            ),
            (Err(x), Some(y)) => x == y,
            _ => false,
        },
{
    let ghost root = root_level(lba, len);
    if let Some(x) = check_dir(img, lba, len, DEPTH_MAX + 1) {
        return Err(x);
    }
    proof {
        walked_levels_end(img@, root, 1, 65);
    }
    let mut out: Vec<TableDir> = Vec::new();
    let mut level: Vec<TableDir> = Vec::new();
    level.push(TableDir { id: Vec::new(), lba, len, up: 1 });
    let mut first: u128 = 1;
    let mut depth: usize = 0;
    proof {
        assert(dir_views(level@) =~= root);
        assert(dir_views(out@) =~= Seq::<TableDirView>::empty());
        if let Some(rest) = levels_from(img@, root, 1, 65) {
            assert(dir_views(out@) + rest =~= rest);
        }
    }
    while level.len() > 0
        invariant
            depth <= 65,
            first <= 1 + depth * 0x1_0000_0000_0000_0000,
            root == root_level(lba, len),
            levels_from(img@, root, 1, 65) is Some,
            levels_sound(img@, dir_views(level@), first as nat, (65 - depth) as nat),
            levels_from(img@, root, 1, 65) == match levels_from(
                img@,
                dir_views(level@),
                first as nat,
                (65 - depth) as nat,
            ) {
                None => None,
                Some(rest) => Some(dir_views(out@) + rest),
            },
        decreases 65 - depth,
    {
        assert(depth < 65);
        let count: usize = level.len();
        let below: Vec<TableDir> = next_level(img, &level, first);
        let ghost before = out@;
        let ghost v = dir_views(level@);
        let ghost more = level@;
        out.append(&mut level);
        proof {
            assert(dir_views(out@) =~= dir_views(before) + dir_views(more));
            if let Some(rest) = levels_from(
                img@,
                dir_views(below@),
                (first + count) as nat,
                (65 - depth - 1) as nat,
            ) {
                assert(dir_views(before) + (v + rest) =~= dir_views(out@) + rest);
            }
        }
        first += count as u128;
        depth += 1;
        level = below;
    }
    proof {
        assert(dir_views(out@) + Seq::<TableDirView>::empty() =~= dir_views(out@));
    }
    Ok(out)
}

/// The little- and the big-endian path table of a list of directories.
fn path_table_bytes(dirs: &Vec<TableDir>) -> (r: (Vec<u8>, Vec<u8>))
    ensures
        r.0@ == table_of(dir_views(dirs@), false),
        r.1@ == table_of(dir_views(dirs@), true),
        r.0@.len() == r.1@.len(),
{
    let ghost v = dir_views(dirs@);
    let n: usize = dirs.len();
    let mut l: Vec<u8> = Vec::new();
    let mut m: Vec<u8> = Vec::new();
    let mut i: usize = 0;
    assert(v.take(0) =~= Seq::<TableDirView>::empty());
    while i < n
        invariant
            n == dirs@.len(),
            i <= n,
            v == dir_views(dirs@),
            l@ == table_of(v.take(i as int), false),
            m@ == table_of(v.take(i as int), true),
            l@.len() == m@.len(),
        decreases n - i,
    {
        let d: &TableDir = &dirs[i];
        proof {
            assert(v.take(i + 1).drop_last() =~= v.take(i as int));
            assert(v.take(i + 1).last() == d@);
        }
        let l_entry: Vec<u8> = path_entry_bytes(d.id.as_slice(), d.lba, d.up, false);
        let m_entry: Vec<u8> = path_entry_bytes(d.id.as_slice(), d.lba, d.up, true);
        append(&mut l, l_entry.as_slice());
        append(&mut m, m_entry.as_slice());
        i += 1;
    }
    assert(v.take(n as int) =~= v);
    (l, m)
}

// ---------------------------------------------------------------------------
// the pass over an image
// ---------------------------------------------------------------------------

/// First byte of the primary volume descriptor.
pub const PVD: usize = 32768;

/// `img` cut or filled with zeros to `n` bytes.
pub open spec fn resized(img: Seq<u8>, n: nat) -> Seq<u8> {
    Seq::new(
        n,
        |i: int|
            if i < img.len() {
                img[i]
            } else {
                0u8
            },
    )
}

/// The image with the fields of the primary descriptor set.
pub open spec fn with_pvd(b: Seq<u8>, total: int, table_len: int, l_lba: int, m_lba: int) -> Seq<
    u8,
> {
    let b1 = splice(b, PVD + 80, both32_bytes(total));
    let b2 = splice(b1, PVD + 120, both16_bytes(1));
    let b3 = splice(b2, PVD + 124, both16_bytes(1));
    let b4 = splice(b3, PVD + 128, both16_bytes(SECTOR as int));
    let b5 = splice(b4, PVD + 132, both32_bytes(table_len));
    let b6 = splice(b5, PVD + 140, le32(l_lba));
    splice(b6, PVD + 148, be32(m_lba))
}

/// Whether sector `lba` holds a boot record descriptor.
pub open spec fn boot_record_at(b: Seq<u8>, lba: int) -> bool {
    b[lba * SECTOR] == 0 && signature_at(b, lba * SECTOR)
}

/// The first boot record descriptor in the sectors from `lba` to `end`.
pub open spec fn find_boot_record(b: Seq<u8>, lba: int, end: int) -> Option<int>
    decreases end - lba,
{
    if lba >= end {
        None
    } else if boot_record_at(b, lba) {
        Some(lba)
    } else {
        find_boot_record(b, lba + 1, end)
    }
}

/// The checksum of a 32-byte validation entry: what brings the sum of its
/// words to 0 modulo 2^16.
pub open spec fn entry_checksum(entry: Seq<u8>) -> int {
    (0x1_0000 - word_sum(splice(entry, 28, le16(0)), 16) % 0x1_0000) % 0x1_0000
}

/// The validation entry at `o` moved from platform 0 to EFI, with its checksum
/// made anew; any other entry stays as it is.
pub open spec fn with_efi(b: Seq<u8>, o: int) -> Seq<u8> {
    if b[o] == 1 && b[o + 1] == 0 {
        let c = b.update(o + 1, 0xEFu8);
        splice(c, o + 28, le16(entry_checksum(c.subrange(o, o + 32))))
    } else {
        b
    }
}

/// The bytes of the conforming image, before the boot catalog is looked at.
pub open spec fn with_tables(img: Seq<u8>, l: Seq<u8>, m: Seq<u8>) -> Seq<u8> {
    let old_total = le32_at(img, PVD + 80);
    let table = ceil_div_spec(l.len() as int, SECTOR as int);
    let total = old_total + 2 * table;
    let grown = resized(img, (total * SECTOR) as nat);
    let tables = splice(splice(grown, old_total * SECTOR, l), (old_total + table) * SECTOR, m);
    with_pvd(tables, total, l.len() as int, old_total, old_total + table)
}

/// The conforming image, given its path tables.
pub open spec fn with_boot(b: Seq<u8>, old_total: int, want_efi: bool) -> Result<
    Seq<u8>,
    ConformError,
> {
    if !want_efi {
        Ok(b)
    } else {
        match find_boot_record(b, 16, old_total) {
            None => Ok(b),
            Some(lba) => {
                let catalog = le32_at(b, lba * SECTOR + 71) * SECTOR;
                if catalog + 32 > b.len() {
                    Err(ConformError::BadCatalog)
                } else {
                    Ok(with_efi(b, catalog))
                }
            },
        }
    }
}

/// Whether the volume with its path tables has a size that can be recorded,
/// and holds its descriptor.
pub open spec fn size_fits(old_total: int, table_len: int) -> bool {
    let total = old_total + 2 * ceil_div_spec(table_len, SECTOR as int);
    17 <= total <= u32::MAX && total * SECTOR <= usize::MAX
}

/// The image that the pass makes.
pub open spec fn conformed(img: Seq<u8>, want_efi: bool) -> Result<Seq<u8>, ConformError> {
    let lba = le32_at(img, PVD + 158) as u32;
    let len = le32_at(img, PVD + 166) as u32;
    if img.len() < PVD + SECTOR || !signature_at(img, PVD as int) {
        Err(ConformError::NoPvd)
    } else {
        match dir_trouble(img, lba, len, 65) {
            Some(x) => Err(x),
            None => {
                let dirs = levels_from(img, root_level(lba, len), 1, 65)->0;
                let l = table_of(dirs, false);
                let old_total = le32_at(img, PVD + 80);
                if !size_fits(old_total, l.len() as int) {
                    Err(ConformError::BadSize)
                } else {
                    with_boot(with_tables(img, l, table_of(dirs, true)), old_total, want_efi)
                }
            },
        }
    }
}

/// Where nothing stops the walk down from the root, the levels end.
pub proof fn walked_tree_is_listed(img: Seq<u8>, lba: u32, len: u32)
    requires
        dir_trouble(img, lba, len, 65) is None,
    ensures
        levels_from(img, root_level(lba, len), 1, 65) is Some,
{
    walked_levels_end(img, root_level(lba, len), 1, 65);
}

/// `img` cut or filled with zeros to `n` bytes.
fn resize_image(img: &Vec<u8>, n: usize) -> (out: Vec<u8>)
    ensures
        out@ == resized(img@, n as nat),
{
    let size: usize = img.len();
    let mut out: Vec<u8> = Vec::new();
    append(&mut out, img.as_slice());
    if size > n {
        out.truncate(n);
    } else {
        append_fill(&mut out, n - size, 0);
    }
    assert(out@ =~= resized(img@, n as nat));
    out
}

/// Sets the fields of the primary descriptor.
fn patch_pvd(b: &mut Vec<u8>, total: u32, table_len: u32, l_lba: u32, m_lba: u32)
    requires
        old(b)@.len() >= PVD + SECTOR,
    ensures
        final(b)@ == with_pvd(
            old(b)@,
            total as int,
            table_len as int,
            l_lba as int,
            m_lba as int,
        ),
{
    both32(b, PVD + 80, total);
    both16(b, PVD + 120, 1);
    both16(b, PVD + 124, 1);
    both16(b, PVD + 128, SECTOR as u16);
    both32(b, PVD + 132, table_len);
    put(b, PVD + 140, &le32_bytes(l_lba));
    put(b, PVD + 148, &be32_bytes(m_lba));
}

/// The first boot record descriptor in the sectors from 16 to `end`.
fn first_boot_record(b: &Vec<u8>, end: u32) -> (r: Option<u32>)
    requires
        end * SECTOR <= b@.len(),
    ensures
        match (r, find_boot_record(b@, 16, end as int)) {
            (None, None) => true,
            (Some(x), Some(y)) => x == y && x < end,
            _ => false,
        },
{
    let size: usize = b.len();
    let mut lba: u32 = 16;
    while lba < end
        invariant
            size == b@.len(),
            16 <= lba,
            end * SECTOR <= size,
            lba <= end || lba == 16,
            find_boot_record(b@, 16, end as int) == find_boot_record(b@, lba as int, end as int),
        decreases end - lba,
    {
        assert((lba + 1) * SECTOR <= end * SECTOR) by (nonlinear_arith)
            requires
                lba + 1 <= end,
        ;
        let o: usize = (lba as u64 * SECTOR as u64) as usize;
        if b[o] == 0 && b[o + 1] == 67 && b[o + 2] == 68 && b[o + 3] == 48 && b[o + 4] == 48 && b[o
            + 5] == 49 {
            return Some(lba);
        }
        lba += 1;
    }
    None
}

/// Moves the validation entry at `o` from platform 0 to EFI and makes its
/// checksum anew.
fn force_efi(b: &mut Vec<u8>, o: usize)
    requires
        o + 32 <= old(b)@.len(),
    ensures
        final(b)@ == with_efi(old(b)@, o as int),
{
    assert(b.len() <= usize::MAX);
    if b[o] == 1 && b[o + 1] == 0 {
        b.set(o + 1, 0xEF);
        let ghost c = b@;
        let mut entry: Vec<u8> = Vec::new();
        append(&mut entry, vstd::slice::slice_subrange(b.as_slice(), o, o + 32));
        assert(entry@ =~= c.subrange(o as int, o + 32));
        put(&mut entry, 28, &le16_bytes(0));
        let sum: u32 = entry_word_sum(entry.as_slice());
        let checksum: u16 = ((0x1_0000 - sum % 0x1_0000) % 0x1_0000) as u16;
        put(b, o + 28, &le16_bytes(checksum));
    }
}

/// Appends both path tables and patches the primary descriptor; `None` where
/// the size of the volume cannot be recorded.
fn append_tables(img: &Vec<u8>, old_total: u32, l: &Vec<u8>, m: &Vec<u8>) -> (r: Option<Vec<u8>>)
    requires
        img@.len() >= PVD + SECTOR,
        old_total == le32_at(img@, PVD + 80),
        l@.len() == m@.len(),
    ensures
        r is Some <==> size_fits(old_total as int, l@.len() as int),
        r matches Some(out) ==> out@ == with_tables(img@, l@, m@) && out@.len() >= old_total
            * SECTOR,
{
    let len: usize = l.len();
    let table: u64 = ceil_div(len as u64, SECTOR as u64);
    if table > u32::MAX as u64 {
        return None;
    }
    let total: u64 = old_total as u64 + 2 * table;
    if total < 17 || total > u32::MAX as u64 || total * SECTOR as u64 > usize::MAX as u64 {
        return None;
    }
    assert(len <= table * SECTOR);
    let l_at: usize = (old_total as u64 * SECTOR as u64) as usize;
    let m_at: usize = ((old_total as u64 + table) * SECTOR as u64) as usize;
    let mut out: Vec<u8> = resize_image(img, (total * SECTOR as u64) as usize);
    put(&mut out, l_at, l.as_slice());
    put(&mut out, m_at, m.as_slice());
    proof {
        low32(len as int);
    }
    patch_pvd(
        &mut out,
        total as u32,
        (len as u64 % 0x1_0000_0000) as u32,
        old_total,
        (old_total as u64 + table) as u32,
    );
    assert(both32_bytes(len as int % 0x1_0000_0000) == both32_bytes(len as int));
    Some(out)
}

/// Patches the boot catalog where that is wanted and there is one.
fn patch_boot(out: Vec<u8>, old_total: u32, want_efi: bool) -> (r: Result<Vec<u8>, ConformError>)
    requires
        out@.len() >= old_total * SECTOR,
    ensures
        match (r, with_boot(out@, old_total as int, want_efi)) {
            (Ok(o), Ok(b)) => o@ == b,
            (Err(x), Err(y)) => x == y,
            _ => false,
        },
{
    let mut out = out;
    if want_efi {
        if let Some(lba) = first_boot_record(&out, old_total) {
            let whole: usize = out.len();
            assert((lba + 1) * SECTOR <= old_total * SECTOR) by (nonlinear_arith)
                requires
                    lba + 1 <= old_total,
            ;
            let o: usize = (lba as u64 * SECTOR as u64) as usize;
            let catalog: u64 = read_u32_le(out.as_slice(), o + 71) as u64 * SECTOR as u64;
            if catalog + 32 > whole as u64 {
                return Err(ConformError::BadCatalog);
            }
            force_efi(&mut out, catalog as usize);
        }
    }
    Ok(out)
}

/// Appends path tables to an image and patches its primary descriptor. With
/// `want_efi`, the validation entry of the boot catalog is moved from platform
/// 0 to EFI.
pub fn try_conform(img: &Vec<u8>, want_efi: bool) -> (r: Result<Vec<u8>, ConformError>)
    ensures
        match (r, conformed(img@, want_efi)) {
            (Ok(out), Ok(b)) => out@ == b,
            (Err(x), Err(y)) => x == y,
            _ => false,
        },
{
    let size: usize = img.len();
    if size < PVD + SECTOR {
        return Err(ConformError::NoPvd);
    }
    if !(img[PVD + 1] == 67 && img[PVD + 2] == 68 && img[PVD + 3] == 48 && img[PVD + 4] == 48
        && img[PVD + 5] == 49) {
        return Err(ConformError::NoPvd);
    }
    let root_lba: u32 = read_u32_le(img.as_slice(), PVD + 158);
    let root_len: u32 = read_u32_le(img.as_slice(), PVD + 166);
    let dirs: Vec<TableDir> = match build(img, root_lba, root_len) {
        Ok(dirs) => dirs,
        Err(x) => {
            return Err(x);
        },
    };
    let (l, m): (Vec<u8>, Vec<u8>) = path_table_bytes(&dirs);
    let old_total: u32 = read_u32_le(img.as_slice(), PVD + 80);
    match append_tables(img, old_total, &l, &m) {
        Some(out) => patch_boot(out, old_total, want_efi),
        None => Err(ConformError::BadSize),
    }
}

/// Appends path tables to an image and patches its primary descriptor, where
/// the directory records hold their identifiers and the recorded sizes and the
/// boot catalog lie within the volume.
pub fn conform(img: &Vec<u8>, want_efi: bool) -> (r: Result<Vec<u8>, ConformError>)
    requires
        conformed(img@, want_efi) matches Err(x) ==> x == ConformError::NoPvd || x
            == ConformError::TooDeep,
    ensures
        match (r, conformed(img@, want_efi)) {
            (Ok(out), Ok(b)) => out@ == b,
            (Err(x), Err(y)) => x == y,
            _ => false,
        },
{
    try_conform(img, want_efi)
}

impl ConformError {
    /// The message for a user; `shown` is the image as messages show it.
    pub fn message(&self, shown: &str) -> (m: String)
        ensures
            m@ == match self {
                ConformError::NoPvd => shown@ + ": PVD not found at sector 16"@,
                ConformError::TooDeep => "directory nesting too deep for path tables"@,
                ConformError::BadRecord => "directory record too short for its identifier"@,
                ConformError::BadSize => "volume size out of range"@,
                ConformError::BadCatalog => "boot catalog outside the volume"@,
            },
    {
        match self {
            ConformError::NoPvd => {
                let mut m: String = shown.to_string();
                m.append(": PVD not found at sector 16");
                m
            },
            ConformError::TooDeep => "directory nesting too deep for path tables".to_string(),
            ConformError::BadRecord => "directory record too short for its identifier".to_string(),
            ConformError::BadSize => "volume size out of range".to_string(),
            ConformError::BadCatalog => "boot catalog outside the volume".to_string(),
        }
    }
}

// ---------------------------------------------------------------------------
// what the pass keeps and what it brings
// ---------------------------------------------------------------------------

proof fn words_but_one(entry: Seq<u8>, ck: int)
    requires
        entry.len() == 32,
        0 <= ck < 65536,
    ensures
        word_sum(splice(entry, 28, le16(ck)), 16) == word_sum(splice(entry, 28, le16(0)), 16) + ck,
{
    let a = splice(entry, 28, le16(ck));
    let b = splice(entry, 28, le16(0));
    same_words(a, b, 14);
    reveal_with_fuel(word_sum, 3);
}

proof fn same_words(a: Seq<u8>, b: Seq<u8>, n: nat)
    requires
        forall|i: int| 0 <= i < 2 * n ==> a[i] == b[i],
    ensures
        word_sum(a, n) == word_sum(b, n),
    decreases n,
{
    if n > 0 {
        same_words(a, b, (n - 1) as nat);
        assert(a[2 * (n - 1)] == b[2 * (n - 1)]);
        assert(a[2 * (n - 1) + 1] == b[2 * (n - 1) + 1]);
    }
}

/// A validation entry moved to EFI names the EFI platform, and its words sum
/// to 0 modulo 2^16.
pub proof fn efi_entry_sums_to_zero(b: Seq<u8>, o: int)
    requires
        0 <= o,
        o + 32 <= b.len(),
        b[o] == 1,
        b[o + 1] == 0,
    ensures
        with_efi(b, o)[o + 1] == 0xEF,
        word_sum(with_efi(b, o).subrange(o, o + 32), 16) % 0x1_0000 == 0,
{
    let c = b.update(o + 1, 0xEFu8);
    let entry = c.subrange(o, o + 32);
    let ck = entry_checksum(entry);
    words_but_one(entry, ck);
    assert(with_efi(b, o).subrange(o, o + 32) =~= splice(entry, 28, le16(ck)));
}

/// Whether byte `i` belongs to a field of the primary descriptor that the pass
/// sets.
pub open spec fn pvd_field(i: int) -> bool {
    ||| PVD + 80 <= i < PVD + 88
    ||| PVD + 120 <= i < PVD + 144
    ||| PVD + 148 <= i < PVD + 152
}

/// The image with path tables keeps every byte of the old volume but the
/// fields of the primary descriptor.
pub proof fn tables_keep_volume(img: Seq<u8>, l: Seq<u8>, m: Seq<u8>, i: int)
    requires
        img.len() >= PVD + SECTOR,
        l.len() == m.len(),
        size_fits(le32_at(img, PVD + 80), l.len() as int),
        0 <= i < le32_at(img, PVD + 80) * SECTOR,
        i < img.len(),
        !pvd_field(i),
    ensures
        with_tables(img, l, m)[i] == img[i],
        with_tables(img, l, m).len() == (le32_at(img, PVD + 80) + 2 * ceil_div_spec(
            l.len() as int,
            SECTOR as int,
        )) * SECTOR,
{
    let table = ceil_div_spec(l.len() as int, SECTOR as int);
    assert(0 <= table);
}

/// The image with path tables has the recorded number of sectors, and holds
/// the little-endian table behind the old volume and the big-endian one behind
/// that, where the descriptor says.
pub proof fn tables_are_appended(img: Seq<u8>, l: Seq<u8>, m: Seq<u8>)
    requires
        img.len() >= PVD + SECTOR,
        l.len() == m.len(),
        le32_at(img, PVD + 80) >= 17,
        size_fits(le32_at(img, PVD + 80), l.len() as int),
    ensures
        ({
            let old_total = le32_at(img, PVD + 80);
            let table = ceil_div_spec(l.len() as int, SECTOR as int);
            let out = with_tables(img, l, m);
            &&& out.len() == (old_total + 2 * table) * SECTOR
            &&& stands_at(out, old_total, l)
            &&& stands_at(out, old_total + table, m)
            &&& out.subrange(PVD + 80, PVD + 88) == both32_bytes(old_total + 2 * table)
            &&& out.subrange(PVD + 132, PVD + 140) == both32_bytes(l.len() as int)
            &&& out.subrange(PVD + 140, PVD + 144) == le32(old_total)
            &&& out.subrange(PVD + 148, PVD + 152) == be32(old_total + table)
        }),
{
    let old_total = le32_at(img, PVD + 80);
    let table = ceil_div_spec(l.len() as int, SECTOR as int);
    let total = old_total + 2 * table;
    let grown = resized(img, (total * SECTOR) as nat);
    assert(l.len() <= table * SECTOR);
    assert(old_total * SECTOR + 2 * (table * SECTOR) == total * SECTOR);
    splices_stand(grown, old_total * SECTOR, l, (old_total + table) * SECTOR, m);
    let tables = splice(splice(grown, old_total * SECTOR, l), (old_total + table) * SECTOR, m);
    pvd_is_patched(tables, total, l.len() as int, old_total, old_total + table);
    pvd_keeps_rest(
        tables,
        total,
        l.len() as int,
        old_total,
        old_total + table,
        old_total * SECTOR,
        l.len() as int,
    );
    pvd_keeps_rest(
        tables,
        total,
        l.len() as int,
        old_total,
        old_total + table,
        (old_total + table) * SECTOR,
        m.len() as int,
    );
}

/// Two parts that do not overlap both stand where they were put.
proof fn splices_stand(b: Seq<u8>, o: int, l: Seq<u8>, p: int, m: Seq<u8>)
    requires
        0 <= o,
        o + l.len() <= p,
        p + m.len() <= b.len(),
    ensures
        splice(splice(b, o, l), p, m).subrange(o, o + l.len()) == l,
        splice(splice(b, o, l), p, m).subrange(p, p + m.len()) == m,
        splice(splice(b, o, l), p, m).len() == b.len(),
{
    let c = splice(splice(b, o, l), p, m);
    assert(c.subrange(o, o + l.len()) =~= l);
    assert(c.subrange(p, p + m.len()) =~= m);
}

/// The fields of the primary descriptor stand where they were put.
proof fn pvd_is_patched(b: Seq<u8>, total: int, len: int, l_lba: int, m_lba: int)
    requires
        b.len() >= PVD + SECTOR,
    ensures
        ({
            let out = with_pvd(b, total, len, l_lba, m_lba);
            &&& out.len() == b.len()
            &&& out.subrange(PVD + 80, PVD + 88) == both32_bytes(total)
            &&& out.subrange(PVD + 132, PVD + 140) == both32_bytes(len)
            &&& out.subrange(PVD + 140, PVD + 144) == le32(l_lba)
            &&& out.subrange(PVD + 148, PVD + 152) == be32(m_lba)
        }),
{
    let out = with_pvd(b, total, len, l_lba, m_lba);
    assert(out.subrange(PVD + 80, PVD + 88) =~= both32_bytes(total));
    assert(out.subrange(PVD + 132, PVD + 140) =~= both32_bytes(len));
    assert(out.subrange(PVD + 140, PVD + 144) =~= le32(l_lba));
    assert(out.subrange(PVD + 148, PVD + 152) =~= be32(m_lba));
}

/// What lies behind the primary descriptor stays as it is.
proof fn pvd_keeps_rest(
    b: Seq<u8>,
    total: int,
    len: int,
    l_lba: int,
    m_lba: int,
    o: int,
    n: int,
)
    requires
        PVD + SECTOR <= o,
        0 <= n,
        o + n <= b.len(),
    ensures
        with_pvd(b, total, len, l_lba, m_lba).subrange(o, o + n) == b.subrange(o, o + n),
{
    assert(with_pvd(b, total, len, l_lba, m_lba).subrange(o, o + n) =~= b.subrange(o, o + n));
}

/// Moving a validation entry to EFI changes nothing outside that entry.
pub proof fn efi_changes_entry_only(b: Seq<u8>, o: int, i: int)
    requires
        0 <= o,
        o + 32 <= b.len(),
        0 <= i < b.len(),
        i < o || o + 32 <= i,
    ensures
        with_efi(b, o).len() == b.len(),
        with_efi(b, o)[i] == b[i],
{
}

/// The tables of an image have one length, whatever their byte order.
pub proof fn tables_have_one_length(dirs: Seq<TableDirView>)
    ensures
        table_of(dirs, false).len() == table_of(dirs, true).len(),
    decreases dirs.len(),
{
    if dirs.len() > 0 {
        tables_have_one_length(dirs.drop_last());
    }
}

/// Directory blocks and file contents stay as they are: a conforming image
/// keeps every byte of the old volume that is neither a patched field of the
/// primary descriptor nor part of the validation entry of the boot catalog.
pub proof fn conforming_keeps_contents(img: Seq<u8>, want_efi: bool, i: int)
    requires
        conformed(img, want_efi) is Ok,
        0 <= i < le32_at(img, PVD + 80) * SECTOR,
        i < img.len(),
        !pvd_field(i),
        want_efi ==> {
            let dirs = levels_from(
                img,
                root_level(le32_at(img, PVD + 158) as u32, le32_at(img, PVD + 166) as u32),
                1,
                65,
            )->0;
            let b = with_tables(img, table_of(dirs, false), table_of(dirs, true));
            find_boot_record(b, 16, le32_at(img, PVD + 80)) matches Some(lba) ==> {
                let catalog = le32_at(b, lba * SECTOR + 71) * SECTOR;
                i < catalog || catalog + 32 <= i
            }
        },
    ensures
        conformed(img, want_efi)->Ok_0[i] == img[i],
{
    let dirs = levels_from(
        img,
        root_level(le32_at(img, PVD + 158) as u32, le32_at(img, PVD + 166) as u32),
        1,
        65,
    )->0;
    let l = table_of(dirs, false);
    let m = table_of(dirs, true);
    let b = with_tables(img, l, m);
    tables_have_one_length(dirs);
    tables_keep_volume(img, l, m, i);
    if want_efi {
        if let Some(lba) = find_boot_record(b, 16, le32_at(img, PVD + 80)) {
            efi_changes_entry_only(b, le32_at(b, lba * SECTOR + 71) * SECTOR, i);
        }
    }
}

} // verus!
