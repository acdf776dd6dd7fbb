//! The bytes of a planned volume.
use vstd::prelude::*;
use crate::bytes::{
    append, append_fill, be16, be16_bytes, be32, be32_bytes, both16_bytes, both32_bytes, ceil_div_spec, fill, le16,
    le16_bytes, le16_at, le32, le32_bytes, low16, low32, low_byte, zeros,
};
use crate::layout::{
    children_sorted, dir_levels_facts, dir_order_facts, dir_order_up, dirs_by_level, dirs_dfs, dot_id, dotdot_id,
    file_order_facts, files_in_order, layout_fits, ns_id, pack_from, pack_from_grows, placed_at, places,
    planned_extent, planned_extents, record_len, sum_over, sum_over_prefix, table_sectors,
    ImagePlan, Ns, Places, PtInfo, SECTOR,
};
use crate::order::sort_items_facts;
use crate::text::{ascii_chars, decimal, push_number};
use crate::timeutil::{
    iso_record_date, iso_volume_date_digits, record_date, utc_year, volume_date,
};
use crate::tree::{Extent, Tree, TreeView};

verus! {

// ---------------------------------------------------------------------------
// directory records
// ---------------------------------------------------------------------------

/// A directory record: 33 bytes, the identifier, and padding to an even length.
pub open spec fn record_bytes(
    extent: u32,
    data_len: u32,
    is_dir: bool,
    mtime: u64,
    id: Seq<u8>,
) -> Seq<u8> {
    seq![low_byte(record_len(id)), 0u8] + both32_bytes(extent as int) + both32_bytes(
        data_len as int,
    ) + record_date(mtime) + seq![
        if is_dir {
            2u8
        } else {
            0u8
        },
        0u8,
        0u8,
    ] + both16_bytes(1) + seq![low_byte(id.len() as int)] + id + zeros((id.len() + 1) % 2)
}

/// The low byte of a length.
fn byte_of(n: usize) -> (b: u8)
    ensures
        b == low_byte(n as int),
{
    (n % 256) as u8
}

/// One directory record (33-byte base, identifier, even padding).
fn make_record(extent: u32, data_len: u32, is_dir: bool, mtime: u64, id: &[u8]) -> (r: Vec<u8>)
    requires
        record_len(id@) <= SECTOR,
    ensures
        r@ == record_bytes(extent, data_len, is_dir, mtime, id@),
        r@.len() == record_len(id@),
{
    let n: usize = id.len();
    let total: usize = 33 + n + (n + 1) % 2;
    let mut r: Vec<u8> = Vec::new();
    r.push(byte_of(total));
    r.push(0);
    append(&mut r, &le32_bytes(extent));
    append(&mut r, &be32_bytes(extent));
    append(&mut r, &le32_bytes(data_len));
    append(&mut r, &be32_bytes(data_len));
    append(&mut r, &iso_record_date(mtime));
    r.push(
        if is_dir {
            2
        } else {
            0
        },
    );
    r.push(0);
    r.push(0);
    append(&mut r, &le16_bytes(1));
    append(&mut r, &be16_bytes(1));
    r.push(byte_of(n));
    append(&mut r, id);
    append_fill(&mut r, (n + 1) % 2, 0);
    assert(r@ =~= record_bytes(extent, data_len, is_dir, mtime, id@));
    r
}

/// `b` with zeros up to the next sector boundary.
pub open spec fn pad_sector(b: Seq<u8>) -> Seq<u8> {
    b + zeros(((SECTOR - b.len() as int % SECTOR as int) % SECTOR as int) as nat)
}

/// `b` with `rec` behind it, in a fresh sector where it would straddle a
/// sector boundary.
pub open spec fn place_record(b: Seq<u8>, rec: Seq<u8>) -> Seq<u8> {
    if b.len() as int % SECTOR as int + rec.len() > SECTOR {
        pad_sector(b) + rec
    } else {
        b + rec
    }
}

/// The given records behind each other, none across a sector boundary.
pub open spec fn pack_records(recs: Seq<Seq<u8>>) -> Seq<u8>
    decreases recs.len(),
{
    if recs.len() == 0 {
        Seq::empty()
    } else {
        place_record(pack_records(recs.drop_last()), recs.last())
    }
}

impl Extent {
    /// The first sector in a namespace.
    pub open spec fn lba(self, ns: Ns) -> u32 {
        if ns == Ns::Base {
            self.base_lba
        } else {
            self.jol_lba
        }
    }

    /// The sectors of the directory block in a namespace.
    pub open spec fn block(self, ns: Ns) -> u32 {
        if ns == Ns::Base {
            self.sectors
        } else {
            self.jol_sectors
        }
    }

    /// The byte length of the directory block in a namespace.
    pub open spec fn block_bytes(self, ns: Ns) -> int {
        self.block(ns) * SECTOR
    }
}

/// The record of child `c` in the block of its directory.
pub open spec fn child_record(v: TreeView, e: Seq<Extent>, c: usize, ns: Ns) -> Seq<u8> {
    let node = v.nodes[c as int];
    if node.is_dir {
        record_bytes(
            e[c as int].lba(ns),
            e[c as int].block_bytes(ns) as u32,
            true,
            node.mtime,
            v.id(c, ns),
        )
    } else {
        record_bytes(
            e[c as int].base_lba,
            (node.size % 0x1_0000_0000) as u32,
            false,
            node.mtime,
            v.id(c, ns),
        )
    }
}

/// The record of directory `d` under the given identifier.
pub open spec fn link_record(v: TreeView, e: Seq<Extent>, d: usize, ns: Ns, id: Seq<u8>) -> Seq<
    u8,
> {
    record_bytes(
        e[d as int].lba(ns),
        e[d as int].block_bytes(ns) as u32,
        true,
        v.nodes[d as int].mtime,
        id,
    )
}

/// The directory whose record stands under ".." in directory `d`.
pub open spec fn up_dir(v: TreeView, d: usize) -> usize {
    if d == v.root {
        d
    } else {
        v.nodes[d as int].parent
    }
}

/// The records of directory `d`: itself, its parent, its children by identifier.
pub open spec fn dir_records(v: TreeView, e: Seq<Extent>, d: usize, ns: Ns) -> Seq<Seq<u8>> {
    seq![
        link_record(v, e, d, ns, dot_id()),
        link_record(v, e, up_dir(v, d), ns, dotdot_id()),
    ] + v.sorted_kids(d, ns).map_values(|c: usize| child_record(v, e, c, ns))
}

/// The directory blocks of a namespace, as a function.
pub open spec fn dir_block(v: TreeView, e: Seq<Extent>, ns: Ns) -> spec_fn(usize) -> Seq<u8> {
    |d: usize| pad_sector(pack_records(dir_records(v, e, d, ns)))
}

/// What the block of directory `d` can be built from: byte lengths that fit
/// their field, and records that fit in a sector.
pub open spec fn block_fits(v: TreeView, e: Seq<Extent>, d: usize, ns: Ns) -> bool {
    &&& e[d as int].block_bytes(ns) <= u32::MAX
    &&& e[up_dir(v, d) as int].block_bytes(ns) <= u32::MAX
    &&& forall|c: usize| #[trigger]
        v.kids(d).contains(c) ==> record_len(v.id(c, ns)) <= SECTOR && (v.nodes[c as int].is_dir
            ==> e[c as int].block_bytes(ns) <= u32::MAX)
}

fn dir_ns_lba(t: &Tree, d: usize, ns: Ns) -> (lba: u32)
    requires
        d < t.arena@.len(),
    ensures
        lba == t.extents()[d as int].lba(ns),
{
    if ns == Ns::Base {
        t.arena[d].base_lba
    } else {
        t.arena[d].jol_lba
    }
}

fn dir_ns_sectors(t: &Tree, d: usize, ns: Ns) -> (sectors: u32)
    requires
        d < t.arena@.len(),
    ensures
        sectors == t.extents()[d as int].block(ns),
{
    if ns == Ns::Base {
        t.arena[d].sectors
    } else {
        t.arena[d].jol_sectors
    }
}

/// Pads `buf` with zeros up to the next sector boundary.
fn pad_to_sector(buf: &mut Vec<u8>)
    ensures
        final(buf)@ == pad_sector(old(buf)@),
{
    let n: usize = buf.len() % SECTOR;
    append_fill(buf, (SECTOR - n) % SECTOR, 0);
}

/// Puts a record behind the others, in a fresh sector where it would straddle
/// a sector boundary.
fn push_record(buf: &mut Vec<u8>, rec: &Vec<u8>)
    requires
        rec@.len() <= SECTOR,
    ensures
        final(buf)@ == place_record(old(buf)@, rec@),
{
    if buf.len() % SECTOR + rec.len() > SECTOR {
        pad_to_sector(buf);
    }
    append(buf, rec.as_slice());
}

/// The full padded block of directory `d` in namespace `ns`.
fn render_dir_block(t: &Tree, d: usize, ns: Ns) -> (buf: Vec<u8>)
    requires
        d < t.arena@.len(),
        up_dir(t@, d) < t.arena@.len(),
        forall|c: usize| #[trigger] t@.kids(d).contains(c) ==> c < t.arena@.len(),
        block_fits(t@, t.extents(), d, ns),
    ensures
        buf@ == dir_block(t@, t.extents(), ns)(d),
{
    let ghost v = t@;
    let ghost e = t.extents();
    let ghost recs = dir_records(v, e, d, ns);
    assert forall|i: int| 0 <= i < v.kids(d).len() implies #[trigger] v.kids(d)[i]
        < t.arena@.len() by {
        assert(v.kids(d).contains(v.kids(d)[i]));
    }
    let kids: Vec<usize> = children_sorted(t, d, ns);
    let up: usize = if d == t.root {
        d
    } else {
        t.arena[d].parent
    };
    let mut buf: Vec<u8> = Vec::new();
    let dot: [u8; 1] = [0];
    let dotdot: [u8; 1] = [1];
    assert(dot@ =~= dot_id());
    assert(dotdot@ =~= dotdot_id());
    let self_rec: Vec<u8> = make_record(
        dir_ns_lba(t, d, ns),
        dir_ns_sectors(t, d, ns) * SECTOR as u32,
        true,
        t.arena[d].mtime,
        &dot,
    );
    push_record(&mut buf, &self_rec);
    let up_rec: Vec<u8> = make_record(
        dir_ns_lba(t, up, ns),
        dir_ns_sectors(t, up, ns) * SECTOR as u32,
        true,
        t.arena[up].mtime,
        &dotdot,
    );
    push_record(&mut buf, &up_rec);
    proof {
        reveal_with_fuel(pack_records, 3);
        assert(recs.take(2).drop_last() =~= seq![recs[0]]);
        assert(recs.take(2).drop_last().drop_last() =~= Seq::<Seq<u8>>::empty());
        sort_items_facts(v.kids(d), v.ids(ns));
    }
    let count: usize = kids.len();
    let mut i: usize = 0;
    while i < count
        invariant
            count == kids@.len(),
            i <= count,
            v == t@,
            e == t.extents(),
            recs == dir_records(v, e, d, ns),
            kids@ == v.sorted_kids(d, ns),
            forall|c: usize| kids@.contains(c) <==> #[trigger] v.kids(d).contains(c),
            forall|c: usize| #[trigger] v.kids(d).contains(c) ==> c < t.arena@.len(),
            block_fits(v, e, d, ns),
            buf@ == pack_records(recs.take(i + 2)),
        decreases count - i,
    {
        let c: usize = kids[i];
        assert(kids@.contains(c));
        assert(v.kids(d).contains(c));
        let rec: Vec<u8> = if t.arena[c].is_dir {
            make_record(
                dir_ns_lba(t, c, ns),
                dir_ns_sectors(t, c, ns) * SECTOR as u32,
                true,
                t.arena[c].mtime,
                ns_id(t, c, ns),
            )
        } else {
            make_record(
                t.arena[c].base_lba,
                (t.arena[c].size % 0x1_0000_0000) as u32,
                false,
                t.arena[c].mtime,
                ns_id(t, c, ns),
            )
        };
        assert(rec@ == recs[i + 2]);
        push_record(&mut buf, &rec);
        assert(recs.take(i + 3).drop_last() =~= recs.take(i + 2));
        assert(recs.take(i + 3).last() == recs[i + 2]);
        i += 1;
    }
    assert(recs.take(count + 2) =~= recs);
    pad_to_sector(&mut buf);
    buf
}

/// Record `j` has the given length and fits in a sector.
pub open spec fn len_fits(recs: Seq<Seq<u8>>, lens: Seq<int>, j: int) -> bool {
    recs[j].len() == lens[j] && 0 < lens[j] <= SECTOR
}

/// All records have the given lengths and fit in a sector.
pub open spec fn lens_fit(recs: Seq<Seq<u8>>, lens: Seq<int>) -> bool {
    &&& lens.len() == recs.len()
    &&& forall|j: int| 0 <= j < recs.len() ==> #[trigger] len_fits(recs, lens, j)
}

/// The sectors and the bytes used of the last one after packing `i` records.
proof fn pack_progress(recs: Seq<Seq<u8>>, lens: Seq<int>, i: int) -> (r: (int, int))
    requires
        0 <= i <= recs.len(),
        lens_fit(recs, lens),
    ensures
        pack_records(recs.take(i)).len() == (r.0 - 1) * SECTOR + r.1,
        r.0 >= 1,
        i == 0 ==> r.0 == 1 && r.1 == 0,
        i > 0 ==> 0 < r.1 <= SECTOR,
        pack_from(lens.skip(i), r.0, r.1) == pack_from(lens, 1, 0),
    decreases i,
{
    if i == 0 {
        assert(lens.skip(0) =~= lens);
        assert(recs.take(0) =~= Seq::<Seq<u8>>::empty());
        (1, 0)
    } else {
        let (s, u) = pack_progress(recs, lens, i - 1);
        let b = pack_records(recs.take(i - 1));
        let rec = recs[i - 1];
        assert(len_fits(recs, lens, i - 1));
        assert(recs.take(i).drop_last() =~= recs.take(i - 1));
        assert(recs.take(i).last() == rec);
        assert(pack_records(recs.take(i)) == place_record(b, rec));
        assert(lens.skip(i - 1)[0] == rec.len());
        assert(lens.skip(i - 1).drop_first() =~= lens.skip(i));
        assert(b.len() as int % SECTOR as int == if u == SECTOR {
            0
        } else {
            u
        });
        if u + rec.len() > SECTOR {
            assert(place_record(b, rec).len() == s * SECTOR + rec.len());
            (s + 1, rec.len() as int)
        } else {
            (s, u + rec.len())
        }
    }
}

/// A packed and padded block has as many sectors as its records take.
pub proof fn packed_len(recs: Seq<Seq<u8>>, lens: Seq<int>)
    requires
        recs.len() > 0,
        lens_fit(recs, lens),
    ensures
        pad_sector(pack_records(recs)).len() == pack_from(lens, 1, 0) * SECTOR,
{
    let (s, u) = pack_progress(recs, lens, recs.len() as int);
    assert(recs.take(recs.len() as int) =~= recs);
    assert(lens.skip(recs.len() as int) =~= Seq::<int>::empty());
    let n = pack_records(recs).len() as int;
    assert(n % SECTOR as int == if u == SECTOR {
        0
    } else {
        u
    });
}

/// `rec` stands in `b` from byte `o` on, inside one sector.
pub open spec fn in_one_sector(b: Seq<u8>, o: int, rec: Seq<u8>) -> bool {
    &&& 0 <= o
    &&& o + rec.len() <= b.len()
    &&& b.subrange(o, o + rec.len()) == rec
    &&& o / SECTOR as int == (o + rec.len() - 1) / SECTOR as int
}

/// No packed record straddles a sector boundary.
pub proof fn records_stay_in_sectors(recs: Seq<Seq<u8>>, i: int)
    requires
        0 <= i < recs.len(),
        forall|j: int| 0 <= j < recs.len() ==> 0 < (#[trigger] recs[j]).len() <= SECTOR,
    ensures
        exists|o: int| in_one_sector(pack_records(recs), o, recs[i]),
    decreases recs.len(),
{
    let before = pack_records(recs.drop_last());
    let b = pack_records(recs);
    if i < recs.len() - 1 {
        let less = recs.drop_last();
        assert forall|j: int| 0 <= j < less.len() implies 0 < (#[trigger] less[j]).len()
            <= SECTOR by {
            assert(less[j] == recs[j]);
        }
        records_stay_in_sectors(less, i);
        let o = choose|o: int| in_one_sector(before, o, less[i]);
        assert(b.subrange(o, o + recs[i].len()) =~= before.subrange(o, o + recs[i].len()));
        assert(in_one_sector(b, o, recs[i]));
    } else {
        let rec = recs.last();
        assert(recs[i] == rec);
        let o = b.len() - rec.len();
        assert(b.subrange(o, o + rec.len()) =~= rec);
        assert(in_one_sector(b, o, rec));
    }
}

/// The block of a directory has as many sectors as planned for it.
pub proof fn dir_block_len(v: TreeView, e: Seq<Extent>, d: usize, ns: Ns)
    requires
        block_fits(v, e, d, ns),
    ensures
        dir_block(v, e, ns)(d).len() == v.block_sectors(ns)(d) * SECTOR,
{
    let recs = dir_records(v, e, d, ns);
    let lens = v.record_lens(d, ns);
    sort_items_facts(v.kids(d), v.ids(ns));
    let kids = v.sorted_kids(d, ns);
    assert forall|j: int| 0 <= j < recs.len() implies #[trigger] len_fits(recs, lens, j) by {
        if j >= 2 {
            assert(kids.contains(kids[j - 2]));
            assert(v.kids(d).contains(kids[j - 2]));
            assert(recs[j] == child_record(v, e, kids[j - 2], ns));
        }
    }
    packed_len(recs, lens);
}

// ---------------------------------------------------------------------------
// path tables
// ---------------------------------------------------------------------------

/// The identifier of a directory in a path table; the root has an empty one.
pub open spec fn table_id(v: TreeView, d: usize, ns: Ns) -> Seq<u8> {
    if d == v.root {
        Seq::empty()
    } else {
        v.id(d, ns)
    }
}

/// The number of a directory in the path table of a namespace, counted from 1.
pub open spec fn table_number(v: TreeView, d: usize, ns: Ns) -> int {
    v.dir_levels(ns).index_of(d) + 1
}

/// A path-table entry: identifier length, a zero byte, first sector, number of
/// the parent, identifier, padding to an even length.
pub open spec fn path_entry(id: Seq<u8>, lba: int, up: int, big: bool) -> Seq<u8> {
    seq![low_byte(id.len() as int), 0u8] + (if big {
        be32(lba) + be16(up)
    } else {
        le32(lba) + le16(up)
    }) + id + zeros(id.len() % 2)
}

/// The path-table entry of a directory.
pub open spec fn table_entry(v: TreeView, e: Seq<Extent>, d: usize, ns: Ns, big: bool) -> Seq<u8> {
    path_entry(
        table_id(v, d, ns),
        e[d as int].lba(ns) as int,
        table_number(v, up_dir(v, d), ns),
        big,
    )
}

/// The entries of a path table, as a function.
pub open spec fn table_entries(v: TreeView, e: Seq<Extent>, ns: Ns, big: bool) -> spec_fn(
    usize,
) -> Seq<u8> {
    |d: usize| table_entry(v, e, d, ns, big)
}

/// The byte strings of the nodes of a list, joined.
pub open spec fn join(s: Seq<usize>, f: spec_fn(usize) -> Seq<u8>) -> Seq<u8>
    decreases s.len(),
{
    if s.len() == 0 {
        Seq::empty()
    } else {
        join(s.drop_last(), f) + f(s.last())
    }
}

/// One path table of a namespace: the directories level by level, grouped by
/// parent, by identifier.
pub open spec fn path_table(v: TreeView, e: Seq<Extent>, ns: Ns, big: bool) -> Seq<u8> {
    join(v.dir_levels(ns), table_entries(v, e, ns, big))
}

/// Joining one more byte string puts it behind the others.
pub proof fn join_next(s: Seq<usize>, f: spec_fn(usize) -> Seq<u8>, i: int)
    requires
        0 <= i < s.len(),
    ensures
        join(s.take(i + 1), f) == join(s.take(i), f) + f(s[i]),
{
    assert(s.take(i + 1).drop_last() =~= s.take(i));
    assert(s.take(i + 1).last() == s[i]);
}

/// The length of joined byte strings is the sum of their lengths.
pub proof fn join_len(s: Seq<usize>, f: spec_fn(usize) -> Seq<u8>, len: spec_fn(usize) -> int)
    requires
        forall|i: int| 0 <= i < s.len() ==> f(#[trigger] s[i]).len() == len(s[i]),
    ensures
        join(s, f).len() == sum_over(s, len),
    decreases s.len(),
{
    if s.len() > 0 {
        assert(f(s[s.len() - 1]).len() == len(s[s.len() - 1]));
        assert(forall|i: int| 0 <= i < s.drop_last().len() ==> s.drop_last()[i] == s[i]);
        join_len(s.drop_last(), f, len);
    }
}

/// A path table has the planned size, in either byte order.
pub proof fn path_table_size_as_planned(v: TreeView, e: Seq<Extent>, ns: Ns, big: bool)
    ensures
        path_table(v, e, ns, big).len() == v.path_table_len(ns),
{
    join_len(v.dir_levels(ns), table_entries(v, e, ns, big), v.entry_len(ns));
}

/// The numbers of the directories, by node: position in the level order,
/// counted from 1.
fn table_numbers(t: &Tree, order: &Vec<usize>, ns: Ns) -> (numbers: Vec<usize>)
    requires
        t@.wf(),
        order@ == t@.dir_levels(ns),
    ensures
        numbers@.len() == t.arena@.len(),
        forall|i: int|
            0 <= i < order@.len() ==> numbers@[(#[trigger] order@[i]) as int] == i + 1,
{
    let mut numbers: Vec<usize> = vec![0usize; t.arena.len()];
    let count: usize = order.len();
    let mut i: usize = 0;
    proof {
        dir_levels_facts(t@, ns);
    }
    while i < count
        invariant
            count == order@.len(),
            i <= count,
            order@.no_duplicates(),
            forall|j: int| 0 <= j < order@.len() ==> (#[trigger] order@[j]) < t.arena@.len(),
            numbers@.len() == t.arena@.len(),
            forall|j: int|
                0 <= j < i ==> numbers@[(#[trigger] order@[j]) as int] == j + 1,
        decreases count - i,
    {
        let d: usize = order[i];
        assert(forall|j: int| 0 <= j < i ==> (#[trigger] order@[j]) != d);
        i += 1;
        numbers.set(d, i);
    }
    numbers
}

/// One path-table entry, in either byte order.
pub fn path_entry_bytes(id: &[u8], lba: u32, up: u128, big: bool) -> (b: Vec<u8>)
    ensures
        b@ == path_entry(id@, lba as int, up as int, big),
{
    let n: usize = id.len();
    let parent16: u16 = (up % 65536) as u16;
    proof {
        low16(up as int);
    }
    let mut b: Vec<u8> = Vec::new();
    b.push(byte_of(n));
    b.push(0);
    if big {
        append(&mut b, &be32_bytes(lba));
        append(&mut b, &be16_bytes(parent16));
    } else {
        append(&mut b, &le32_bytes(lba));
        append(&mut b, &le16_bytes(parent16));
    }
    append(&mut b, id);
    append_fill(&mut b, n % 2, 0);
    assert(b@ =~= path_entry(id@, lba as int, up as int, big));
    b
}

/// The path-table entry of a directory, in either byte order.
fn table_entry_bytes(t: &Tree, d: usize, ns: Ns, big: bool, up_number: usize) -> (b: Vec<u8>)
    requires
        d < t.arena@.len(),
        up_number == table_number(t@, up_dir(t@, d), ns),
    ensures
        b@ == table_entry(t@, t.extents(), d, ns, big),
{
    let none: [u8; 0] = [];
    assert(none@ =~= Seq::<u8>::empty());
    let id: &[u8] = if d == t.root {
        &none
    } else {
        ns_id(t, d, ns)
    };
    path_entry_bytes(id, dir_ns_lba(t, d, ns), up_number as u128, big)
}

/// Renders the little- and the big-endian path table of a namespace.
fn path_table_bytes(t: &Tree, ns: Ns) -> (r: (Vec<u8>, Vec<u8>))
    requires
        t@.wf(),
    ensures
        r.0@ == path_table(t@, t.extents(), ns, false),
        r.1@ == path_table(t@, t.extents(), ns, true),
{
    let ghost v = t@;
    let ghost e = t.extents();
    let order: Vec<usize> = dirs_by_level(t, ns);
    let numbers: Vec<usize> = table_numbers(t, &order, ns);
    let count: usize = order.len();
    let mut l: Vec<u8> = Vec::new();
    let mut m: Vec<u8> = Vec::new();
    let mut i: usize = 0;
    proof {
        dir_levels_facts(v, ns);
        assert(order@.take(0) =~= Seq::<usize>::empty());
    }
    while i < count
        invariant
            count == order@.len(),
            i <= count,
            v == t@,
            e == t.extents(),
            order@ == v.dir_levels(ns),
            order@.no_duplicates(),
            order@[0] == v.root,
            forall|j: int| 0 <= j < order@.len() ==> (#[trigger] order@[j]) < t.arena@.len(),
            forall|j: int|
                1 <= j < order@.len() ==> (#[trigger] order@[j]) != v.root && exists|k: int|
                    0 <= k < j && order@[k] == v.nodes[order@[j] as int].parent,
            numbers@.len() == t.arena@.len(),
            forall|j: int|
                0 <= j < order@.len() ==> numbers@[(#[trigger] order@[j]) as int] == j + 1,
            l@ == join(order@.take(i as int), table_entries(v, e, ns, false)),
            m@ == join(order@.take(i as int), table_entries(v, e, ns, true)),
        decreases count - i,
    {
        let d: usize = order[i];
        let up: usize = if d == t.root {
            d
        } else {
            t.arena[d].parent
        };
        proof {
            if i == 0 {
                assert(order@[0] == up);
            } else {
                assert(order@[i as int] != v.root);
            }
            let k = choose|k: int| 0 <= k <= i && order@[k] == up;
            assert(order@[k] == up);
            assert(order@.index_of(up) == k);
            assert(numbers@[order@[k] as int] == k + 1);
        }
        let l_entry: Vec<u8> = table_entry_bytes(t, d, ns, false, numbers[up]);
        let m_entry: Vec<u8> = table_entry_bytes(t, d, ns, true, numbers[up]);
        append(&mut l, l_entry.as_slice());
        append(&mut m, m_entry.as_slice());
        proof {
            join_next(order@, table_entries(v, e, ns, false), i as int);
            join_next(order@, table_entries(v, e, ns, true), i as int);
        }
        i += 1;
    }
    assert(order@.take(count as int) =~= order@);
    (l, m)
}

// ---------------------------------------------------------------------------
// descriptors
// ---------------------------------------------------------------------------

/// The start of every volume descriptor: type, "CD001", version 1.
pub open spec fn vd_header(vd_type: u8) -> Seq<u8> {
    seq![vd_type, 67u8, 68u8, 48u8, 48u8, 49u8, 1u8]
}

/// "FS2ISO"
pub open spec fn system_name() -> Seq<u8> {
    seq![70u8, 83u8, 50u8, 73u8, 83u8, 79u8]
}

/// A primary or supplementary volume descriptor.
pub open spec fn volume_descriptor(
    vd_type: u8,
    volume_id: Seq<u8>,
    escapes: Seq<u8>,
    root_record: Seq<u8>,
    pt: PtInfo,
    total_sectors: u32,
    now: u64,
) -> Seq<u8> {
    vd_header(vd_type) + seq![0u8] + system_name() + fill(26, 32) + volume_id + zeros(8)
        + both32_bytes(total_sectors as int) + escapes + both16_bytes(1) + both16_bytes(1)
        + both16_bytes(SECTOR as int) + both32_bytes(pt.size as int) + le32(pt.le_lba as int)
        + zeros(4) + be32(pt.be_lba as int) + zeros(4) + root_record + fill(623, 32) + volume_date(
        now,
    ) + zeros(1) + volume_date(now) + zeros(1) + zeros(34) + seq![1u8] + zeros(1166)
}

/// The volume identifier of the primary descriptor: 32 bytes, filled with
/// spaces.
pub open spec fn base_volume_id(label: Seq<u8>) -> Seq<u8> {
    Seq::new(
        32,
        |i: int|
            if i < label.len() {
                label[i]
            } else {
                32u8
            },
    )
}

/// The volume identifier of the Joliet descriptor: at most 16 characters in
/// UTF-16BE, filled with zeros.
pub open spec fn joliet_volume_id(label: Seq<u8>) -> Seq<u8> {
    Seq::new(
        32,
        |i: int|
            if i % 2 == 1 && i / 2 < label.len() {
                label[i / 2]
            } else {
                0u8
            },
    )
}

/// The escape sequences of the three Joliet levels: "%/@%/C%/E".
pub open spec fn joliet_escapes() -> Seq<u8> {
    seq![37u8, 47u8, 64u8, 37u8, 47u8, 67u8, 37u8, 47u8, 69u8] + zeros(23)
}

/// The volume descriptor of one namespace of a tree.
pub open spec fn namespace_descriptor(
    v: TreeView,
    e: Seq<Extent>,
    ns: Ns,
    label: Seq<u8>,
    pt: PtInfo,
    total_sectors: u32,
    now: u64,
) -> Seq<u8> {
    let root = link_record(v, e, v.root, ns, dot_id());
    if ns == Ns::Base {
        volume_descriptor(1, base_volume_id(label), zeros(32), root, pt, total_sectors, now)
    } else {
        volume_descriptor(2, joliet_volume_id(label), joliet_escapes(), root, pt, total_sectors, now)
    }
}

/// The El Torito boot record: "EL TORITO SPECIFICATION" and the sector of the
/// boot catalog.
pub open spec fn boot_record(catalog_lba: u32) -> Seq<u8> {
    vd_header(0) + el_torito() + zeros(9) + zeros(32) + le32(catalog_lba as int) + zeros(1973)
}

/// "EL TORITO SPECIFICATION"
pub open spec fn el_torito() -> Seq<u8> {
    seq![
        69u8,
        76u8,
        32u8,
        84u8,
        79u8,
        82u8,
        73u8,
        84u8,
        79u8,
        32u8,
        83u8,
        80u8,
        69u8,
        67u8,
        73u8,
        70u8,
        73u8,
        67u8,
        65u8,
        84u8,
        73u8,
        79u8,
        78u8,
    ]
}

/// The end of the descriptor set.
pub open spec fn terminator_bytes() -> Seq<u8> {
    vd_header(255) + zeros(2041)
}

/// The sum of the first `n` 16-bit little-endian words of `b`.
pub open spec fn word_sum(b: Seq<u8>, n: nat) -> int
    decreases n,
{
    if n == 0 {
        0
    } else {
        word_sum(b, (n - 1) as nat) + le16_at(b, 2 * (n - 1))
    }
}

/// A validation entry (platform EFI) with the given checksum.
pub open spec fn validation_entry(checksum: int) -> Seq<u8> {
    seq![1u8, 239u8, 0u8, 0u8] + system_name() + zeros(18) + le16(checksum) + seq![85u8, 170u8]
}

/// The checksum of the validation entry: what brings the sum of its words to 0
/// modulo 2^16.
pub open spec fn validation_checksum() -> int {
    (0x1_0000 - word_sum(validation_entry(0), 16) % 0x1_0000) % 0x1_0000
}

/// Virtual 512-byte sectors of a boot image, at most 65535.
pub open spec fn load_count(boot_size: u64) -> int {
    let n = (boot_size + 511) / 512;
    if n <= 65535 {
        n
    } else {
        65535
    }
}

/// The El Torito boot catalog: the validation entry and a bootable entry
/// without emulation.
pub open spec fn boot_catalog_bytes(boot_lba: u32, boot_size: u64) -> Seq<u8> {
    validation_entry(validation_checksum()) + seq![136u8, 0u8, 0u8, 0u8, 0u8, 0u8] + le16(
        load_count(boot_size),
    ) + le32(boot_lba as int) + zeros(2004)
}

proof fn validation_sums(ck: int)
    requires
        0 <= ck < 65536,
    ensures
        word_sum(validation_entry(ck), 16) == 0x2_8521 + ck,
{
    let b = validation_entry(ck);
    assert(b.len() == 32);
    reveal_with_fuel(word_sum, 17);
    assert(le16_at(b, 0) == 0xEF01);
    assert(le16_at(b, 2) == 0);
    assert(le16_at(b, 4) == 0x5346);
    assert(le16_at(b, 6) == 0x4932);
    assert(le16_at(b, 8) == 0x4F53);
    assert(forall|i: int| 10 <= i < 28 ==> b[i] == 0);
    assert(le16_at(b, 28) == ck);
    assert(le16_at(b, 30) == 0xAA55);
}

/// The words of the validation entry of the boot catalog sum to 0 modulo 2^16.
pub proof fn catalog_checksum_is_zero(boot_lba: u32, boot_size: u64)
    ensures
        word_sum(boot_catalog_bytes(boot_lba, boot_size).take(32), 16) % 0x1_0000 == 0,
        boot_catalog_bytes(boot_lba, boot_size).len() == SECTOR,
{
    validation_sums(0);
    validation_sums(validation_checksum());
    assert(boot_catalog_bytes(boot_lba, boot_size).take(32) =~= validation_entry(
        validation_checksum(),
    ));
}

proof fn volume_descriptor_len(
    vd_type: u8,
    volume_id: Seq<u8>,
    escapes: Seq<u8>,
    root_record: Seq<u8>,
    pt: PtInfo,
    total_sectors: u32,
    now: u64,
)
    requires
        volume_id.len() == 32,
        escapes.len() == 32,
        root_record.len() == 34,
    ensures
        volume_descriptor(vd_type, volume_id, escapes, root_record, pt, total_sectors, now).len()
            == SECTOR,
{
}

/// Every volume descriptor fills one sector.
pub proof fn descriptor_len(
    v: TreeView,
    e: Seq<Extent>,
    ns: Ns,
    label: Seq<u8>,
    pt: PtInfo,
    total_sectors: u32,
    now: u64,
)
    ensures
        namespace_descriptor(v, e, ns, label, pt, total_sectors, now).len() == SECTOR,
{
    let root = link_record(v, e, v.root, ns, dot_id());
    assert(root.len() == 34);
    if ns == Ns::Base {
        volume_descriptor_len(1, base_volume_id(label), zeros(32), root, pt, total_sectors, now);
    } else {
        assert(joliet_escapes().len() == 32);
        volume_descriptor_len(
            2,
            joliet_volume_id(label),
            joliet_escapes(),
            root,
            pt,
            total_sectors,
            now,
        );
    }
}

/// The boot record fills one sector.
pub proof fn boot_record_len(catalog_lba: u32)
    ensures
        boot_record(catalog_lba).len() == SECTOR,
{
}

/// The terminator fills one sector.
pub proof fn terminator_len()
    ensures
        terminator_bytes().len() == SECTOR,
{
}

fn push_vd_header(buf: &mut Vec<u8>, vd_type: u8)
    ensures
        final(buf)@ == old(buf)@ + vd_header(vd_type),
{
    let header: [u8; 7] = [vd_type, 67, 68, 48, 48, 49, 1];
    assert(header@ =~= vd_header(vd_type));
    append(buf, &header);
}

fn push_system_name(buf: &mut Vec<u8>)
    ensures
        final(buf)@ == old(buf)@ + system_name(),
{
    let name: [u8; 6] = [70, 83, 50, 73, 83, 79];
    assert(name@ =~= system_name());
    append(buf, &name);
}

/// The shared part of the primary and the supplementary descriptor.
fn fill_vd_core(
    vd_type: u8,
    volume_id: &Vec<u8>,
    escapes: &Vec<u8>,
    root_record: &Vec<u8>,
    pt: PtInfo,
    total_sectors: u32,
    now: u64,
) -> (buf: Vec<u8>)
    requires
        utc_year(now) <= 9999,
    ensures
        buf@ == volume_descriptor(
            vd_type,
            volume_id@,
            escapes@,
            root_record@,
            pt,
            total_sectors,
            now,
        ),
{
    let date: [u8; 16] = iso_volume_date_digits(now);
    let one: [u8; 1] = [1];
    let flags: [u8; 1] = [0];
    assert(one@ =~= seq![1u8]);
    assert(flags@ =~= seq![0u8]);
    proof {
        low32(pt.size as int);
    }
    let mut buf: Vec<u8> = Vec::new();
    push_vd_header(&mut buf, vd_type);
    append(&mut buf, &flags);
    push_system_name(&mut buf);
    append_fill(&mut buf, 26, 32);
    append(&mut buf, volume_id.as_slice());
    append_fill(&mut buf, 8, 0);
    push_both32(&mut buf, total_sectors);
    append(&mut buf, escapes.as_slice());
    push_both16(&mut buf, 1);
    push_both16(&mut buf, 1);
    push_both16(&mut buf, SECTOR as u16);
    push_both32(&mut buf, (pt.size as u64 % 0x1_0000_0000) as u32);
    append(&mut buf, &le32_bytes(pt.le_lba));
    append_fill(&mut buf, 4, 0);
    append(&mut buf, &be32_bytes(pt.be_lba));
    append_fill(&mut buf, 4, 0);
    append(&mut buf, root_record.as_slice());
    append_fill(&mut buf, 623, 32);
    append(&mut buf, &date);
    append_fill(&mut buf, 1, 0);
    append(&mut buf, &date);
    append_fill(&mut buf, 1, 0);
    append_fill(&mut buf, 34, 0);
    append(&mut buf, &one);
    append_fill(&mut buf, 1166, 0);
    assert(buf@ =~= Seq::<u8>::empty() + volume_descriptor(
        vd_type,
        volume_id@,
        escapes@,
        root_record@,
        pt,
        total_sectors,
        now,
    ));
    buf
}

fn push_both16(buf: &mut Vec<u8>, x: u16)
    ensures
        final(buf)@ == old(buf)@ + both16_bytes(x as int),
{
    let ghost before = buf@;
    append(buf, &le16_bytes(x));
    append(buf, &be16_bytes(x));
    assert(buf@ =~= before + both16_bytes(x as int));
}

fn push_both32(buf: &mut Vec<u8>, x: u32)
    ensures
        final(buf)@ == old(buf)@ + both32_bytes(x as int),
{
    let ghost before = buf@;
    append(buf, &le32_bytes(x));
    append(buf, &be32_bytes(x));
    assert(buf@ =~= before + both32_bytes(x as int));
}

/// The volume descriptor of one namespace.
fn build_vd(
    label: &[u8],
    t: &Tree,
    ns: Ns,
    pt: PtInfo,
    total_sectors: u32,
    now: u64,
) -> (buf: Vec<u8>)
    requires
        t.root < t.arena@.len(),
        t.extents()[t.root as int].block_bytes(ns) <= u32::MAX,
        utc_year(now) <= 9999,
    ensures
        buf@ == namespace_descriptor(t@, t.extents(), ns, label@, pt, total_sectors, now),
{
    let dot: [u8; 1] = [0];
    assert(dot@ =~= dot_id());
    let root: Vec<u8> = make_record(
        dir_ns_lba(t, t.root, ns),
        dir_ns_sectors(t, t.root, ns) * SECTOR as u32,
        true,
        t.arena[t.root].mtime,
        &dot,
    );
    let mut volume_id: Vec<u8> = Vec::new();
    let n: usize = label.len();
    let mut i: usize = 0;
    if ns == Ns::Base {
        while i < 32
            invariant
                n == label@.len(),
                i <= 32,
                volume_id@ =~= base_volume_id(label@).take(i as int),
            decreases 32 - i,
        {
            volume_id.push(
                if i < n {
                    label[i]
                } else {
                    32
                },
            );
            i += 1;
        }
        let mut escapes: Vec<u8> = Vec::new();
        append_fill(&mut escapes, 32, 0);
        assert(volume_id@ =~= base_volume_id(label@));
        assert(escapes@ =~= zeros(32));
        fill_vd_core(1, &volume_id, &escapes, &root, pt, total_sectors, now)
    } else {
        while i < 32
            invariant
                n == label@.len(),
                i <= 32,
                volume_id@ =~= joliet_volume_id(label@).take(i as int),
            decreases 32 - i,
        {
            volume_id.push(
                if i % 2 == 1 && i / 2 < n {
                    label[i / 2]
                } else {
                    0
                },
            );
            i += 1;
        }
        let levels: [u8; 9] = [37, 47, 64, 37, 47, 67, 37, 47, 69];
        let mut escapes: Vec<u8> = Vec::new();
        append(&mut escapes, &levels);
        append_fill(&mut escapes, 23, 0);
        assert(volume_id@ =~= joliet_volume_id(label@));
        assert(escapes@ =~= joliet_escapes());
        fill_vd_core(2, &volume_id, &escapes, &root, pt, total_sectors, now)
    }
}

/// The boot record descriptor.
fn boot_record_vd(catalog_lba: u32) -> (buf: Vec<u8>)
    ensures
        buf@ == boot_record(catalog_lba),
{
    let name: [u8; 23] = [
        69,
        76,
        32,
        84,
        79,
        82,
        73,
        84,
        79,
        32,
        83,
        80,
        69,
        67,
        73,
        70,
        73,
        67,
        65,
        84,
        73,
        79,
        78,
    ];
    assert(name@ =~= el_torito());
    let mut buf: Vec<u8> = Vec::new();
    push_vd_header(&mut buf, 0);
    append(&mut buf, &name);
    append_fill(&mut buf, 9, 0);
    append_fill(&mut buf, 32, 0);
    append(&mut buf, &le32_bytes(catalog_lba));
    append_fill(&mut buf, 1973, 0);
    assert(buf@ =~= boot_record(catalog_lba));
    buf
}

/// The descriptor set terminator.
fn terminator() -> (buf: Vec<u8>)
    ensures
        buf@ == terminator_bytes(),
{
    let mut buf: Vec<u8> = Vec::new();
    push_vd_header(&mut buf, 255);
    append_fill(&mut buf, 2041, 0);
    assert(buf@ =~= terminator_bytes());
    buf
}

/// The sum of the 16-bit little-endian words of a 32-byte entry.
pub fn entry_word_sum(b: &[u8]) -> (sum: u32)
    requires
        b@.len() >= 32,
    ensures
        sum == word_sum(b@, 16),
{
    let mut sum: u32 = 0;
    let mut i: usize = 0;
    while i < 16
        invariant
            b@.len() >= 32,
            i <= 16,
            sum == word_sum(b@, i as nat),
            sum <= i * 65535,
        decreases 16 - i,
    {
        sum += b[2 * i] as u32 + 256 * (b[2 * i + 1] as u32);
        i += 1;
    }
    sum
}

fn validation(checksum: u16) -> (buf: Vec<u8>)
    ensures
        buf@ == validation_entry(checksum as int),
{
    let head: [u8; 4] = [1, 239, 0, 0];
    let key: [u8; 2] = [85, 170];
    let mut buf: Vec<u8> = Vec::new();
    append(&mut buf, &head);
    push_system_name(&mut buf);
    append_fill(&mut buf, 18, 0);
    append(&mut buf, &le16_bytes(checksum));
    append(&mut buf, &key);
    assert(buf@ =~= validation_entry(checksum as int));
    buf
}

/// The El Torito boot catalog: validation entry (platform EFI) and initial entry.
fn boot_catalog(boot_lba: u32, boot_size: u64) -> (buf: Vec<u8>)
    ensures
        buf@ == boot_catalog_bytes(boot_lba, boot_size),
{
    let blank: Vec<u8> = validation(0);
    let sum: u32 = entry_word_sum(blank.as_slice());
    let checksum: u16 = ((0x1_0000 - sum % 0x1_0000) % 0x1_0000) as u16;
    let count: u64 = boot_size / 512 + (if boot_size % 512 > 0 {
        1
    } else {
        0
    });
    let count16: u16 = if count <= 65535 {
        count as u16
    } else {
        65535
    };
    let entry: [u8; 6] = [136, 0, 0, 0, 0, 0];
    let mut buf: Vec<u8> = validation(checksum);
    append(&mut buf, &entry);
    append(&mut buf, &le16_bytes(count16));
    append(&mut buf, &le32_bytes(boot_lba));
    append_fill(&mut buf, 2004, 0);
    assert(count16 == load_count(boot_size));
    assert(buf@ =~= boot_catalog_bytes(boot_lba, boot_size));
    buf
}

// ---------------------------------------------------------------------------
// the image
// ---------------------------------------------------------------------------

/// Both path tables of a namespace, each padded to whole sectors.
pub open spec fn tables_bytes(v: TreeView, e: Seq<Extent>, ns: Ns) -> Seq<u8> {
    pad_sector(path_table(v, e, ns, false)) + pad_sector(path_table(v, e, ns, true))
}

/// The directory blocks of a namespace.
pub open spec fn blocks_bytes(v: TreeView, e: Seq<Extent>, ns: Ns) -> Seq<u8> {
    join(v.dir_order(ns), dir_block(v, e, ns))
}

/// File contents behind each other, each padded to whole sectors.
pub open spec fn contents_bytes(contents: Seq<Vec<u8>>) -> Seq<u8>
    decreases contents.len(),
{
    if contents.len() == 0 {
        Seq::empty()
    } else {
        contents_bytes(contents.drop_last()) + pad_sector(contents.last()@)
    }
}

/// `b` where the condition holds, nothing otherwise.
pub open spec fn optional(present: bool, b: Seq<u8>) -> Seq<u8> {
    if present {
        b
    } else {
        Seq::empty()
    }
}

/// The system area and the descriptors of a volume, up to the boot catalog.
#[verifier::opaque]
pub open spec fn descriptors_bytes(
    v: TreeView,
    e: Seq<Extent>,
    plan: ImagePlan,
    boot: Option<usize>,
    joliet: bool,
    label: Seq<u8>,
    now: u64,
) -> Seq<u8> {
    zeros(32768) + namespace_descriptor(
        v,
        e,
        Ns::Base,
        label,
        plan.pt_base,
        plan.total_sectors,
        now,
    ) + optional(
        joliet,
        namespace_descriptor(v, e, Ns::Jol, label, plan.pt_jol, plan.total_sectors, now),
    ) + optional(boot is Some, boot_record(plan.catalog_lba)) + terminator_bytes() + optional(
        boot is Some,
        boot_catalog_bytes(e[boot->0 as int].base_lba, v.nodes[boot->0 as int].size),
    )
}

/// The whole volume: descriptors, path tables, directory blocks, file contents.
pub open spec fn image_bytes(
    v: TreeView,
    e: Seq<Extent>,
    plan: ImagePlan,
    boot: Option<usize>,
    joliet: bool,
    label: Seq<u8>,
    now: u64,
    contents: Seq<Vec<u8>>,
) -> Seq<u8> {
    descriptors_bytes(v, e, plan, boot, joliet, label, now) + tables_bytes(v, e, Ns::Base)
        + optional(joliet, tables_bytes(v, e, Ns::Jol)) + blocks_bytes(v, e, Ns::Base) + optional(
        joliet,
        blocks_bytes(v, e, Ns::Jol),
    ) + contents_bytes(contents)
}

/// Whether every directory block of a namespace can be built.
pub open spec fn blocks_fit(v: TreeView, e: Seq<Extent>, ns: Ns) -> bool {
    forall|d: usize| #[trigger] v.dir_order(ns).contains(d) ==> block_fits(v, e, d, ns)
}

/// A file whose contents do not have the size the volume was planned for.
#[derive(Debug)]
pub struct SizeChanged {
    /// The node of the file.
    pub node: usize,
    /// The planned size.
    pub was: u64,
    /// The size of the contents.
    pub now: u64,
}

impl SizeChanged {
    /// The message for a user; `shown` is the file as messages show it.
    pub fn message(&self, shown: &str) -> (m: String)
        ensures
            m@ == "file "@ + shown@ + " changed size while packing (was "@ + ascii_chars(
                decimal(self.was as nat),
            ) + ", now "@ + ascii_chars(decimal(self.now as nat)) + ")"@,
    {
        let mut m: String = "file ".to_string();
        m.append(shown);
        m.append(" changed size while packing (was ");
        push_number(&mut m, self.was as u128);
        m.append(", now ");
        push_number(&mut m, self.now as u128);
        m.append(")");
        m
    }
}

/// The contents at position `i` have the planned size.
pub open spec fn size_kept(v: TreeView, contents: Seq<Vec<u8>>, i: int) -> bool {
    contents[i]@.len() == v.nodes[v.file_order()[i] as int].size
}

/// The directory blocks of a namespace.
fn render_blocks(t: &Tree, ns: Ns) -> (buf: Vec<u8>)
    requires
        t@.wf(),
        blocks_fit(t@, t.extents(), ns),
    ensures
        buf@ == blocks_bytes(t@, t.extents(), ns),
{
    let ghost v = t@;
    let ghost e = t.extents();
    let ghost f = dir_block(v, e, ns);
    let order: Vec<usize> = dirs_dfs(t, ns);
    let count: usize = order.len();
    let mut buf: Vec<u8> = Vec::new();
    let mut i: usize = 0;
    proof {
        dir_order_facts(v, ns);
        dir_order_parents(v, ns);
        assert(order@.take(0) =~= Seq::<usize>::empty());
    }
    while i < count
        invariant
            count == order@.len(),
            i <= count,
            v == t@,
            e == t.extents(),
            f == dir_block(v, e, ns),
            order@ == v.dir_order(ns),
            blocks_fit(v, e, ns),
            forall|d: usize| #[trigger] order@.contains(d) ==> d < t.arena@.len() && up_dir(v, d)
                < t.arena@.len(),
            forall|d: usize, c: usize|
                order@.contains(d) && #[trigger] v.kids(d).contains(c) ==> c < t.arena@.len(),
            buf@ == join(order@.take(i as int), f),
        decreases count - i,
    {
        let d: usize = order[i];
        assert(order@.contains(d));
        let block: Vec<u8> = render_dir_block(t, d, ns);
        append(&mut buf, block.as_slice());
        proof {
            join_next(order@, f, i as int);
        }
        i += 1;
    }
    assert(order@.take(count as int) =~= order@);
    buf
}

/// Both padded path tables of a namespace.
fn render_tables(t: &Tree, ns: Ns) -> (buf: Vec<u8>)
    requires
        t@.wf(),
    ensures
        buf@ == tables_bytes(t@, t.extents(), ns),
{
    let (mut l, mut m): (Vec<u8>, Vec<u8>) = path_table_bytes(t, ns);
    pad_to_sector(&mut l);
    pad_to_sector(&mut m);
    append(&mut l, m.as_slice());
    l
}

/// The system area and the descriptors, up to the boot catalog.
fn render_descriptors(
    t: &Tree,
    plan: &ImagePlan,
    boot: Option<usize>,
    use_joliet: bool,
    label: &[u8],
    now: u64,
) -> (buf: Vec<u8>)
    requires
        t.root < t.arena@.len(),
        t.extents()[t.root as int].block_bytes(Ns::Base) <= u32::MAX,
        use_joliet ==> t.extents()[t.root as int].block_bytes(Ns::Jol) <= u32::MAX,
        boot matches Some(b) ==> b < t.arena@.len(),
        utc_year(now) <= 9999,
    ensures
        buf@ == descriptors_bytes(t@, t.extents(), *plan, boot, use_joliet, label@, now),
{
    let mut buf: Vec<u8> = Vec::new();
    append_fill(&mut buf, 32768, 0);
    let pvd: Vec<u8> = build_vd(label, t, Ns::Base, plan.pt_base, plan.total_sectors, now);
    append(&mut buf, pvd.as_slice());
    if use_joliet {
        let svd: Vec<u8> = build_vd(label, t, Ns::Jol, plan.pt_jol, plan.total_sectors, now);
        append(&mut buf, svd.as_slice());
    }
    if boot.is_some() {
        let record: Vec<u8> = boot_record_vd(plan.catalog_lba);
        append(&mut buf, record.as_slice());
    }
    let end: Vec<u8> = terminator();
    append(&mut buf, end.as_slice());
    if let Some(node) = boot {
        let catalog: Vec<u8> = boot_catalog(t.arena[node].base_lba, t.arena[node].size);
        append(&mut buf, catalog.as_slice());
    }
    reveal(descriptors_bytes);
    assert(buf@ =~= descriptors_bytes(t@, t.extents(), *plan, boot, use_joliet, label@, now));
    buf
}

/// Renders a planned volume. `contents` holds the contents of the files in the
/// order in which they lie on the volume.
pub fn render_image(
    t: &Tree,
    plan: &ImagePlan,
    boot: Option<usize>,
    use_joliet: bool,
    label_ascii: &[u8],
    now: u64,
    contents: &Vec<Vec<u8>>,
) -> (r: Result<Vec<u8>, SizeChanged>)
    requires
        t@.wf(),
        blocks_fit(t@, t.extents(), Ns::Base),
        use_joliet ==> blocks_fit(t@, t.extents(), Ns::Jol),
        boot matches Some(b) ==> b < t.arena@.len(),
        utc_year(now) <= 9999,
        contents@.len() == t@.file_order().len(),
    ensures
        match r {
            Ok(image) => {
                &&& forall|i: int| 0 <= i < contents@.len() ==> #[trigger] size_kept(
                    t@,
                    contents@,
                    i,
                )
                &&& image@ == image_bytes(
                    t@,
                    t.extents(),
                    *plan,
                    boot,
                    use_joliet,
                    label_ascii@,
                    now,
                    contents@,
                )
            },
            Err(x) => exists|i: int|
                {
                    &&& 0 <= i < contents@.len()
                    &&& !(#[trigger] size_kept(t@, contents@, i))
                    &&& forall|j: int| 0 <= j < i ==> #[trigger] size_kept(t@, contents@, j)
                    &&& x.node == t@.file_order()[i]
                    &&& x.was == t@.nodes[x.node as int].size
                    &&& x.now == contents@[i]@.len()
                },
        },
{
    let ghost v = t@;
    let ghost e = t.extents();
    proof {
        dir_order_facts(v, Ns::Base);
        dir_order_facts(v, Ns::Jol);
        assert(v.dir_order(Ns::Base).contains(v.root));
        assert(v.dir_order(Ns::Jol).contains(v.root));
    }
    let mut image: Vec<u8> = render_descriptors(t, plan, boot, use_joliet, label_ascii, now);
    let base_tables: Vec<u8> = render_tables(t, Ns::Base);
    append(&mut image, base_tables.as_slice());
    if use_joliet {
        let tables: Vec<u8> = render_tables(t, Ns::Jol);
        append(&mut image, tables.as_slice());
    }
    let base_blocks: Vec<u8> = render_blocks(t, Ns::Base);
    append(&mut image, base_blocks.as_slice());
    if use_joliet {
        let blocks: Vec<u8> = render_blocks(t, Ns::Jol);
        append(&mut image, blocks.as_slice());
    }
    let ghost head = image@;
    let files: Vec<usize> = files_in_order(t);
    let count: usize = files.len();
    let mut i: usize = 0;
    proof {
        file_order_facts(v);
        assert(contents@.take(0) =~= Seq::<Vec<u8>>::empty());
        assert(head + contents_bytes(contents@.take(0)) =~= head);
    }
    while i < count
        invariant
            count == files@.len(),
            count == contents@.len(),
            i <= count,
            v == t@,
            files@ == v.file_order(),
            forall|c: usize| #[trigger] files@.contains(c) ==> c < t.arena@.len(),
            forall|j: int| 0 <= j < i ==> #[trigger] size_kept(v, contents@, j),
            image@ == head + contents_bytes(contents@.take(i as int)),
        decreases count - i,
    {
        let node: usize = files[i];
        assert(files@.contains(node));
        let was: u64 = t.arena[node].size;
        let copied: u64 = contents[i].len() as u64;
        if copied != was {
            assert(!size_kept(v, contents@, i as int));
            return Err(SizeChanged { node, was, now: copied });
        }
        let mut content: Vec<u8> = Vec::new();
        append(&mut content, contents[i].as_slice());
        pad_to_sector(&mut content);
        append(&mut image, content.as_slice());
        proof {
            assert(content@ =~= pad_sector(contents@[i as int]@));
            assert(contents@.take(i + 1).drop_last() =~= contents@.take(i as int));
            assert(contents@.take(i + 1).last() == contents@[i as int]);
            assert(image@ =~= head + contents_bytes(contents@.take(i + 1)));
        }
        i += 1;
    }
    proof {
        assert(contents@.take(count as int) =~= contents@);
        assert(image@ =~= image_bytes(
            v,
            e,
            *plan,
            boot,
            use_joliet,
            label_ascii@,
            now,
            contents@,
        ));
    }
    Ok(image)
}

/// The parent of every listed directory is a node of the tree.
proof fn dir_order_parents(v: TreeView, ns: Ns)
    requires
        v.wf(),
    ensures
        forall|d: usize| #[trigger]
            v.dir_order(ns).contains(d) ==> up_dir(v, d) < v.nodes.len(),
{
    assert forall|d: usize| #[trigger] v.dir_order(ns).contains(d) implies up_dir(v, d)
        < v.nodes.len() by {
        dir_order_facts(v, ns);
        if d != v.root {
            dir_order_up(v, ns, d);
        }
    }
}

// ---------------------------------------------------------------------------
// what lies where
// ---------------------------------------------------------------------------

/// Whether a tree carries the places of its plan.
pub open spec fn planned(
    v: TreeView,
    e: Seq<Extent>,
    plan: ImagePlan,
    boot: bool,
    joliet: bool,
    had: Seq<Extent>,
) -> bool {
    &&& v.wf()
    &&& v.nodes.len() <= usize::MAX
    &&& had.len() == v.nodes.len()
    &&& layout_fits(v, boot, joliet)
    &&& plan.describes(v, boot, joliet)
    &&& e == planned_extents(v, boot, joliet, had)
    &&& blocks_fit(v, e, Ns::Base)
    &&& joliet ==> blocks_fit(v, e, Ns::Jol)
}

/// The contents have the planned sizes.
pub open spec fn sizes_kept(v: TreeView, contents: Seq<Vec<u8>>) -> bool {
    &&& contents.len() == v.file_order().len()
    &&& forall|i: int| 0 <= i < contents.len() ==> #[trigger] size_kept(v, contents, i)
}

/// `part` stands in `b` from sector `lba` on.
pub open spec fn stands_at(b: Seq<u8>, lba: int, part: Seq<u8>) -> bool {
    &&& 0 <= lba
    &&& lba * SECTOR + part.len() <= b.len()
    &&& b.subrange(lba * SECTOR, lba * SECTOR + part.len()) == part
}

proof fn stands_between(pre: Seq<u8>, part: Seq<u8>, post: Seq<u8>, lba: int)
    requires
        pre.len() == lba * SECTOR,
    ensures
        stands_at(pre + part + post, lba, part),
{
    assert((pre + part + post).subrange(lba * SECTOR, lba * SECTOR + part.len()) =~= part);
}

/// What stands in a part stands in the whole.
pub proof fn stands_within(b: Seq<u8>, lba: int, part: Seq<u8>, inner: int, sub: Seq<u8>)
    requires
        stands_at(b, lba, part),
        stands_at(part, inner, sub),
    ensures
        stands_at(b, lba + inner, sub),
{
    assert(b.subrange((lba + inner) * SECTOR, (lba + inner) * SECTOR + sub.len()) =~= part.subrange(
        inner * SECTOR,
        inner * SECTOR + sub.len(),
    ));
}

proof fn sum_over_scaled(
    s: Seq<usize>,
    f: spec_fn(usize) -> Seq<u8>,
    sectors: spec_fn(usize) -> int,
)
    requires
        forall|i: int| 0 <= i < s.len() ==> f(#[trigger] s[i]).len() == sectors(s[i]) * SECTOR,
    ensures
        join(s, f).len() == sum_over(s, sectors) * SECTOR,
    decreases s.len(),
{
    if s.len() > 0 {
        assert(f(s[s.len() - 1]).len() == sectors(s[s.len() - 1]) * SECTOR);
        assert(forall|i: int| 0 <= i < s.drop_last().len() ==> s.drop_last()[i] == s[i]);
        sum_over_scaled(s.drop_last(), f, sectors);
    }
}

/// In joined blocks of whole sectors every block starts where the sectors of
/// those before it end.
proof fn join_places(
    s: Seq<usize>,
    f: spec_fn(usize) -> Seq<u8>,
    sectors: spec_fn(usize) -> int,
    i: int,
)
    requires
        0 <= i < s.len(),
        forall|j: int| 0 <= j < s.len() ==> f(#[trigger] s[j]).len() == sectors(s[j]) * SECTOR,
    ensures
        stands_at(join(s, f), sum_over(s.take(i), sectors), f(s[i])),
    decreases s.len(),
{
    let init = s.drop_last();
    assert(forall|j: int| 0 <= j < init.len() ==> init[j] == s[j]);
    sum_over_scaled(init, f, sectors);
    if i == s.len() - 1 {
        assert(s.take(i) =~= init);
        stands_between(join(init, f), f(s[i]), Seq::empty(), sum_over(init, sectors));
        assert(join(init, f) + f(s[i]) + Seq::<u8>::empty() =~= join(s, f));
    } else {
        join_places(init, f, sectors, i);
        assert(init.take(i) =~= s.take(i));
        stands_between(Seq::empty(), join(init, f), f(s.last()), 0);
        assert(Seq::<u8>::empty() + join(init, f) + f(s.last()) =~= join(s, f));
        stands_within(join(s, f), 0, join(init, f), sum_over(s.take(i), sectors), f(s[i]));
    }
}

/// Padding goes to whole sectors and keeps what is there.
pub proof fn pad_sector_len(b: Seq<u8>)
    ensures
        pad_sector(b).len() == ceil_div_spec(b.len() as int, SECTOR as int) * SECTOR,
        pad_sector(b).take(b.len() as int) == b,
{
    assert(pad_sector(b).take(b.len() as int) =~= b);
}

/// The padded contents of file `i` start where the sectors of those before it
/// end.
pub proof fn contents_places(v: TreeView, contents: Seq<Vec<u8>>, n: int, i: int)
    requires
        sizes_kept(v, contents),
        0 <= n <= contents.len(),
        0 <= i <= n,
    ensures
        contents_bytes(contents.take(n)).len() == sum_over(
            v.file_order().take(n),
            v.content_sectors(),
        ) * SECTOR,
        i < n ==> stands_at(
            contents_bytes(contents.take(n)),
            sum_over(v.file_order().take(i), v.content_sectors()),
            pad_sector(contents[i]@),
        ),
    decreases n,
{
    let order = v.file_order();
    let f = v.content_sectors();
    if n == 0 {
        assert(contents.take(0) =~= Seq::<Vec<u8>>::empty());
        assert(order.take(0) =~= Seq::<usize>::empty());
    } else {
        let last = contents[n - 1]@;
        assert(size_kept(v, contents, n - 1));
        assert(contents.take(n).drop_last() =~= contents.take(n - 1));
        assert(contents.take(n).last() == contents[n - 1]);
        assert(order.take(n).drop_last() =~= order.take(n - 1));
        assert(order.take(n).last() == order[n - 1]);
        pad_sector_len(last);
        let head = contents_bytes(contents.take(n - 1));
        let all = contents_bytes(contents.take(n));
        assert(all == head + pad_sector(last));
        if i < n - 1 {
            contents_places(v, contents, n - 1, i);
            stands_between(Seq::empty(), head, pad_sector(last), 0);
            assert(Seq::<u8>::empty() + head + pad_sector(last) =~= all);
            stands_within(all, 0, head, sum_over(order.take(i), f), pad_sector(contents[i]@));
        } else {
            contents_places(v, contents, n - 1, n - 1);
            if i == n - 1 {
                stands_between(head, pad_sector(last), Seq::empty(), sum_over(order.take(i), f));
                assert(head + pad_sector(last) + Seq::<u8>::empty() =~= all);
            }
        }
    }
}

proof fn table_len(v: TreeView, e: Seq<Extent>, ns: Ns, big: bool)
    requires
        v.wf(),
    ensures
        pad_sector(path_table(v, e, ns, big)).len() == table_sectors(v.path_table_len(ns)) * SECTOR,
        path_table(v, e, ns, big).len() == v.path_table_len(ns),
{
    path_table_size_as_planned(v, e, ns, big);
    pad_sector_len(path_table(v, e, ns, big));
    dir_levels_facts(v, ns);
    let order = v.dir_levels(ns);
    let f = v.entry_len(ns);
    assert(forall|j: int| 0 <= j < order.len() ==> f(#[trigger] order[j]) >= 8);
    sum_over_prefix(order, f, 1);
    assert(order.take(1).drop_last() =~= Seq::<usize>::empty());
    reveal_with_fuel(sum_over, 2);
    assert(sum_over(order.take(1), f) == f(order[0]));
}

proof fn blocks_len(v: TreeView, e: Seq<Extent>, ns: Ns)
    requires
        blocks_fit(v, e, ns),
    ensures
        blocks_bytes(v, e, ns).len() == sum_over(v.dir_order(ns), v.block_sectors(ns)) * SECTOR,
        forall|i: int|
            0 <= i < v.dir_order(ns).len() ==> dir_block(v, e, ns)(
                #[trigger] v.dir_order(ns)[i],
            ).len() == v.block_sectors(ns)(v.dir_order(ns)[i]) * SECTOR,
{
    let order = v.dir_order(ns);
    assert forall|i: int| 0 <= i < order.len() implies dir_block(v, e, ns)(
        #[trigger] order[i],
    ).len() == v.block_sectors(ns)(order[i]) * SECTOR by {
        assert(order.contains(order[i]));
        dir_block_len(v, e, order[i], ns);
    }
    sum_over_scaled(order, dir_block(v, e, ns), v.block_sectors(ns));
}

proof fn descriptors_len(
    v: TreeView,
    e: Seq<Extent>,
    plan: ImagePlan,
    boot: Option<usize>,
    joliet: bool,
    label: Seq<u8>,
    now: u64,
)
    ensures
        descriptors_bytes(v, e, plan, boot, joliet, label, now).len() == places(
            v,
            boot is Some,
            joliet,
        ).base_le * SECTOR,
{
    reveal(descriptors_bytes);
    descriptor_len(v, e, Ns::Base, label, plan.pt_base, plan.total_sectors, now);
    descriptor_len(v, e, Ns::Jol, label, plan.pt_jol, plan.total_sectors, now);
    boot_record_len(plan.catalog_lba);
    terminator_len();
    catalog_checksum_is_zero(e[boot->0 as int].base_lba, v.nodes[boot->0 as int].size);
}

/// The path tables, the directory blocks and the file contents each start at
/// their planned sector, and the image ends with the last one.
pub proof fn parts_stand_as_planned(
    v: TreeView,
    e: Seq<Extent>,
    plan: ImagePlan,
    boot: Option<usize>,
    joliet: bool,
    label: Seq<u8>,
    now: u64,
    contents: Seq<Vec<u8>>,
    had: Seq<Extent>,
)
    requires
        planned(v, e, plan, boot is Some, joliet, had),
        sizes_kept(v, contents),
    ensures
        ({
            let p = places(v, boot is Some, joliet);
            let image = image_bytes(v, e, plan, boot, joliet, label, now, contents);
            &&& image.len() == plan.total_sectors * SECTOR
            &&& stands_at(image, p.base_le, pad_sector(path_table(v, e, Ns::Base, false)))
            &&& stands_at(image, p.base_be, pad_sector(path_table(v, e, Ns::Base, true)))
            &&& joliet ==> stands_at(
                image,
                p.jol_le,
                pad_sector(path_table(v, e, Ns::Jol, false)),
            )
            &&& joliet ==> stands_at(image, p.jol_be, pad_sector(path_table(v, e, Ns::Jol, true)))
            &&& stands_at(image, p.dirs, blocks_bytes(v, e, Ns::Base))
            &&& joliet ==> stands_at(image, p.jol_dirs, blocks_bytes(v, e, Ns::Jol))
            &&& stands_at(image, p.files, contents_bytes(contents))
        }),
{
    let p = places(v, boot is Some, joliet);
    let image = image_bytes(v, e, plan, boot, joliet, label, now, contents);
    let d = descriptors_bytes(v, e, plan, boot, joliet, label, now);
    let bl = pad_sector(path_table(v, e, Ns::Base, false));
    let bm = pad_sector(path_table(v, e, Ns::Base, true));
    let jl = optional(joliet, pad_sector(path_table(v, e, Ns::Jol, false)));
    let jm = optional(joliet, pad_sector(path_table(v, e, Ns::Jol, true)));
    let b = blocks_bytes(v, e, Ns::Base);
    let j = optional(joliet, blocks_bytes(v, e, Ns::Jol));
    let c = contents_bytes(contents);
    descriptors_len(v, e, plan, boot, joliet, label, now);
    table_len(v, e, Ns::Base, false);
    table_len(v, e, Ns::Base, true);
    table_len(v, e, Ns::Jol, false);
    table_len(v, e, Ns::Jol, true);
    blocks_len(v, e, Ns::Base);
    if joliet {
        blocks_len(v, e, Ns::Jol);
    }
    contents_places(v, contents, contents.len() as int, 0);
    assert(contents.take(contents.len() as int) =~= contents);
    assert(v.file_order().take(contents.len() as int) =~= v.file_order());
    image_in_parts(v, e, plan, boot, joliet, label, now, contents);
    assert(image == d + bl + bm + jl + jm + b + j + c);
    parts_in_row(d, bl, bm, jl, jm, b, j, c, p);
}

proof fn image_in_parts(
    v: TreeView,
    e: Seq<Extent>,
    plan: ImagePlan,
    boot: Option<usize>,
    joliet: bool,
    label: Seq<u8>,
    now: u64,
    contents: Seq<Vec<u8>>,
)
    ensures
        image_bytes(v, e, plan, boot, joliet, label, now, contents) == descriptors_bytes(
            v,
            e,
            plan,
            boot,
            joliet,
            label,
            now,
        ) + pad_sector(path_table(v, e, Ns::Base, false)) + pad_sector(
            path_table(v, e, Ns::Base, true),
        ) + optional(joliet, pad_sector(path_table(v, e, Ns::Jol, false))) + optional(
            joliet,
            pad_sector(path_table(v, e, Ns::Jol, true)),
        ) + blocks_bytes(v, e, Ns::Base) + optional(joliet, blocks_bytes(v, e, Ns::Jol))
            + contents_bytes(contents),
{
    let d = descriptors_bytes(v, e, plan, boot, joliet, label, now);
    let bl = pad_sector(path_table(v, e, Ns::Base, false));
    let bm = pad_sector(path_table(v, e, Ns::Base, true));
    let jl = optional(joliet, pad_sector(path_table(v, e, Ns::Jol, false)));
    let jm = optional(joliet, pad_sector(path_table(v, e, Ns::Jol, true)));
    let jt = optional(joliet, tables_bytes(v, e, Ns::Jol));
    assert(jt =~= jl + jm);
    assert(d + (bl + bm) + jt =~= d + bl + bm + jl + jm);
}

proof fn parts_in_row(
    d: Seq<u8>,
    bl: Seq<u8>,
    bm: Seq<u8>,
    jl: Seq<u8>,
    jm: Seq<u8>,
    b: Seq<u8>,
    j: Seq<u8>,
    c: Seq<u8>,
    p: Places,
)
    requires
        d.len() == p.base_le * SECTOR,
        bl.len() == (p.base_be - p.base_le) * SECTOR,
        bm.len() == (p.jol_le - p.base_be) * SECTOR,
        jl.len() == (p.jol_be - p.jol_le) * SECTOR,
        jm.len() == (p.dirs - p.jol_be) * SECTOR,
        b.len() == (p.jol_dirs - p.dirs) * SECTOR,
        j.len() == (p.files - p.jol_dirs) * SECTOR,
        c.len() == (p.total - p.files) * SECTOR,
    ensures
        ({
            let all = d + bl + bm + jl + jm + b + j + c;
            &&& all.len() == p.total * SECTOR
            &&& stands_at(all, p.base_le, bl)
            &&& stands_at(all, p.base_be, bm)
            &&& stands_at(all, p.jol_le, jl)
            &&& stands_at(all, p.jol_be, jm)
            &&& stands_at(all, p.dirs, b)
            &&& stands_at(all, p.jol_dirs, j)
            &&& stands_at(all, p.files, c)
        }),
{
    let all = d + bl + bm + jl + jm + b + j + c;
    assert(all.subrange(p.base_le * SECTOR, p.base_le * SECTOR + bl.len()) =~= bl);
    assert(all.subrange(p.base_be * SECTOR, p.base_be * SECTOR + bm.len()) =~= bm);
    assert(all.subrange(p.jol_le * SECTOR, p.jol_le * SECTOR + jl.len()) =~= jl);
    assert(all.subrange(p.jol_be * SECTOR, p.jol_be * SECTOR + jm.len()) =~= jm);
    assert(all.subrange(p.dirs * SECTOR, p.dirs * SECTOR + b.len()) =~= b);
    assert(all.subrange(p.jol_dirs * SECTOR, p.jol_dirs * SECTOR + j.len()) =~= j);
    assert(all.subrange(p.files * SECTOR, p.files * SECTOR + c.len()) =~= c);
}

/// The block of every directory stands at the sector, and has the length, that
/// the tree records for it.
pub proof fn dir_block_in_place(
    v: TreeView,
    e: Seq<Extent>,
    plan: ImagePlan,
    boot: Option<usize>,
    joliet: bool,
    label: Seq<u8>,
    now: u64,
    contents: Seq<Vec<u8>>,
    had: Seq<Extent>,
    ns: Ns,
    d: usize,
)
    requires
        planned(v, e, plan, boot is Some, joliet, had),
        sizes_kept(v, contents),
        v.dir_order(ns).contains(d),
        ns == Ns::Jol ==> joliet,
    ensures
        stands_at(
            image_bytes(v, e, plan, boot, joliet, label, now, contents),
            e[d as int].lba(ns) as int,
            dir_block(v, e, ns)(d),
        ),
        dir_block(v, e, ns)(d).len() == e[d as int].block(ns) * SECTOR,
{
    let p = places(v, boot is Some, joliet);
    let image = image_bytes(v, e, plan, boot, joliet, label, now, contents);
    let order = v.dir_order(ns);
    let f = dir_block(v, e, ns);
    let sectors = v.block_sectors(ns);
    let start = if ns == Ns::Base {
        p.dirs
    } else {
        p.jol_dirs
    };
    let i = order.index_of(d);
    assert(order[i] == d);
    dir_order_facts(v, ns);
    parts_stand_as_planned(v, e, plan, boot, joliet, label, now, contents, had);
    blocks_len(v, e, ns);
    join_places(order, f, sectors, i);
    stands_within(image, start, join(order, f), sum_over(order.take(i), sectors), f(d));
    placed_dir(v, e, plan, boot is Some, joliet, had, ns, d);
}

/// The sectors that a planned tree records for a directory.
pub proof fn placed_dir(
    v: TreeView,
    e: Seq<Extent>,
    plan: ImagePlan,
    boot: bool,
    joliet: bool,
    had: Seq<Extent>,
    ns: Ns,
    d: usize,
)
    requires
        planned(v, e, plan, boot, joliet, had),
        v.dir_order(ns).contains(d),
        ns == Ns::Jol ==> joliet,
    ensures
        e[d as int].lba(ns) == (if ns == Ns::Base {
            places(v, boot, joliet).dirs
        } else {
            places(v, boot, joliet).jol_dirs
        }) + sum_over(v.dir_order(ns).take(v.dir_order(ns).index_of(d)), v.block_sectors(ns)),
        e[d as int].block(ns) == v.block_sectors(ns)(d),
{
    reveal(placed_at);
    let order = v.dir_order(ns);
    let sectors = v.block_sectors(ns);
    let i = order.index_of(d);
    assert(order[i] == d);
    dir_order_facts(v, ns);
    assert(e[d as int] == planned_extent(v, boot, joliet, d, had[d as int]));
    block_counts_positive(v, Ns::Base);
    block_counts_positive(v, Ns::Jol);
    content_counts_natural(v);
    sum_over_prefix(v.dir_order(Ns::Base), v.block_sectors(Ns::Base), 0);
    sum_over_prefix(v.dir_order(Ns::Jol), v.block_sectors(Ns::Jol), 0);
    sum_over_prefix(v.file_order(), v.content_sectors(), 0);
    sum_over_prefix(order, sectors, i);
    sum_over_prefix(order, sectors, i + 1);
    assert(order.take(i + 1).drop_last() =~= order.take(i));
    assert(order.take(i + 1).last() == d);
    assert(sum_over(order.take(i + 1), sectors) == sum_over(order.take(i), sectors) + sectors(d));
    sum_over_prefix(order.take(i), sectors, 0);
    tables_natural(v);
}

proof fn tables_natural(v: TreeView)
    ensures
        table_sectors(v.path_table_len(Ns::Base)) >= 1,
        table_sectors(v.path_table_len(Ns::Jol)) >= 1,
{
}

proof fn block_counts_positive(v: TreeView, ns: Ns)
    ensures
        forall|i: int|
            0 <= i < v.dir_order(ns).len() ==> v.block_sectors(ns)(#[trigger] v.dir_order(ns)[i])
                >= 1,
{
    assert forall|i: int| 0 <= i < v.dir_order(ns).len() implies v.block_sectors(ns)(
        #[trigger] v.dir_order(ns)[i],
    ) >= 1 by {
        pack_from_grows(v.record_lens(v.dir_order(ns)[i], ns), 1, 0);
    }
}

proof fn content_counts_natural(v: TreeView)
    ensures
        forall|i: int|
            0 <= i < v.file_order().len() ==> v.content_sectors()(#[trigger] v.file_order()[i])
                >= 0,
{
}

/// The contents of every file stand at the sector that the tree records for
/// it.
pub proof fn file_in_place(
    v: TreeView,
    e: Seq<Extent>,
    plan: ImagePlan,
    boot: Option<usize>,
    joliet: bool,
    label: Seq<u8>,
    now: u64,
    contents: Seq<Vec<u8>>,
    had: Seq<Extent>,
    i: int,
)
    requires
        planned(v, e, plan, boot is Some, joliet, had),
        sizes_kept(v, contents),
        0 <= i < contents.len(),
    ensures
        stands_at(
            image_bytes(v, e, plan, boot, joliet, label, now, contents),
            e[v.file_order()[i] as int].base_lba as int,
            contents[i]@,
        ),
{
    let p = places(v, boot is Some, joliet);
    let image = image_bytes(v, e, plan, boot, joliet, label, now, contents);
    let order = v.file_order();
    let at = sum_over(order.take(i), v.content_sectors());
    parts_stand_as_planned(v, e, plan, boot, joliet, label, now, contents, had);
    contents_places(v, contents, contents.len() as int, i);
    assert(contents.take(contents.len() as int) =~= contents);
    stands_within(image, p.files, contents_bytes(contents), at, pad_sector(contents[i]@));
    pad_sector_len(contents[i]@);
    let lba = p.files + at;
    assert(image.subrange(lba * SECTOR, lba * SECTOR + contents[i]@.len()) =~= image.subrange(
        lba * SECTOR,
        lba * SECTOR + pad_sector(contents[i]@).len(),
    ).take(contents[i]@.len() as int));
    placed_file(v, e, plan, boot is Some, joliet, had, i);
}

/// The sector that a planned tree records for a file.
pub proof fn placed_file(
    v: TreeView,
    e: Seq<Extent>,
    plan: ImagePlan,
    boot: bool,
    joliet: bool,
    had: Seq<Extent>,
    i: int,
)
    requires
        planned(v, e, plan, boot, joliet, had),
        0 <= i < v.file_order().len(),
    ensures
        e[v.file_order()[i] as int].base_lba == places(v, boot, joliet).files + sum_over(
            v.file_order().take(i),
            v.content_sectors(),
        ),
{
    reveal(placed_at);
    let order = v.file_order();
    let c = order[i];
    file_order_facts(v);
    dir_order_facts(v, Ns::Base);
    assert(order.contains(c));
    assert(order.index_of(c) == i);
    assert(e[c as int] == planned_extent(v, boot, joliet, c, had[c as int]));
    block_counts_positive(v, Ns::Base);
    block_counts_positive(v, Ns::Jol);
    content_counts_natural(v);
    sum_over_prefix(v.dir_order(Ns::Base), v.block_sectors(Ns::Base), 0);
    sum_over_prefix(v.dir_order(Ns::Jol), v.block_sectors(Ns::Jol), 0);
    sum_over_prefix(order, v.content_sectors(), i);
    tables_natural(v);
}

/// The descriptors stand in the first sectors behind the system area: the
/// primary one in sector 16, the others where the plan says.
pub proof fn descriptors_in_place(
    v: TreeView,
    e: Seq<Extent>,
    plan: ImagePlan,
    boot: Option<usize>,
    joliet: bool,
    label: Seq<u8>,
    now: u64,
    contents: Seq<Vec<u8>>,
)
    requires
        plan.describes(v, boot is Some, joliet),
    ensures
        ({
            let image = image_bytes(v, e, plan, boot, joliet, label, now, contents);
            let total = plan.total_sectors;
            &&& stands_at(
                image,
                16,
                namespace_descriptor(v, e, Ns::Base, label, plan.pt_base, total, now),
            )
            &&& joliet ==> stands_at(
                image,
                plan.svd_lba as int,
                namespace_descriptor(v, e, Ns::Jol, label, plan.pt_jol, total, now),
            )
            &&& boot is Some ==> stands_at(
                image,
                plan.boot_rec_lba as int,
                boot_record(plan.catalog_lba),
            )
            &&& stands_at(image, plan.term_lba as int, terminator_bytes())
            &&& boot is Some ==> stands_at(
                image,
                plan.catalog_lba as int,
                boot_catalog_bytes(e[boot->0 as int].base_lba, v.nodes[boot->0 as int].size),
            )
        }),
{
    let image = image_bytes(v, e, plan, boot, joliet, label, now, contents);
    let all = descriptors_bytes(v, e, plan, boot, joliet, label, now);
    let total = plan.total_sectors;
    let z = zeros(32768);
    let pvd = namespace_descriptor(v, e, Ns::Base, label, plan.pt_base, total, now);
    let svd = optional(
        joliet,
        namespace_descriptor(v, e, Ns::Jol, label, plan.pt_jol, total, now),
    );
    let rec = optional(boot is Some, boot_record(plan.catalog_lba));
    let end = terminator_bytes();
    let cat = optional(
        boot is Some,
        boot_catalog_bytes(e[boot->0 as int].base_lba, v.nodes[boot->0 as int].size),
    );
    assert(all == z + pvd + svd + rec + end + cat) by {
        reveal(descriptors_bytes);
    }
    descriptor_len(v, e, Ns::Base, label, plan.pt_base, total, now);
    descriptor_len(v, e, Ns::Jol, label, plan.pt_jol, total, now);
    boot_record_len(plan.catalog_lba);
    terminator_len();
    catalog_checksum_is_zero(e[boot->0 as int].base_lba, v.nodes[boot->0 as int].size);
    descriptors_in_row(z, pvd, svd, rec, end, cat, Seq::empty());
    assert(z + pvd + svd + rec + end + cat + Seq::<u8>::empty() =~= all);
    descriptors_lead(v, e, plan, boot, joliet, label, now, contents);
    stands_within(image, 0, all, 16, pvd);
    if joliet {
        stands_within(image, 0, all, plan.svd_lba as int, svd);
    }
    if boot is Some {
        stands_within(image, 0, all, plan.boot_rec_lba as int, rec);
        stands_within(image, 0, all, plan.catalog_lba as int, cat);
    }
    stands_within(image, 0, all, plan.term_lba as int, end);
}

/// An image starts with its system area and its descriptors.
pub proof fn descriptors_lead(
    v: TreeView,
    e: Seq<Extent>,
    plan: ImagePlan,
    boot: Option<usize>,
    joliet: bool,
    label: Seq<u8>,
    now: u64,
    contents: Seq<Vec<u8>>,
)
    ensures
        stands_at(
            image_bytes(v, e, plan, boot, joliet, label, now, contents),
            0,
            descriptors_bytes(v, e, plan, boot, joliet, label, now),
        ),
{
    leads(
        descriptors_bytes(v, e, plan, boot, joliet, label, now),
        tables_bytes(v, e, Ns::Base),
        optional(joliet, tables_bytes(v, e, Ns::Jol)),
        blocks_bytes(v, e, Ns::Base),
        optional(joliet, blocks_bytes(v, e, Ns::Jol)),
        contents_bytes(contents),
    );
}

proof fn leads(a: Seq<u8>, b: Seq<u8>, c: Seq<u8>, d: Seq<u8>, f: Seq<u8>, g: Seq<u8>)
    ensures
        stands_at(a + b + c + d + f + g, 0, a),
{
    assert((a + b + c + d + f + g).subrange(0, a.len() as int) =~= a);
}

proof fn descriptors_in_row(
    z: Seq<u8>,
    pvd: Seq<u8>,
    svd: Seq<u8>,
    rec: Seq<u8>,
    end: Seq<u8>,
    cat: Seq<u8>,
    rest: Seq<u8>,
)
    requires
        z.len() == 16 * SECTOR,
        pvd.len() == SECTOR,
        svd.len() == 0 || svd.len() == SECTOR,
        rec.len() == 0 || rec.len() == SECTOR,
        end.len() == SECTOR,
    ensures
        ({
            let all = z + pvd + svd + rec + end + cat + rest;
            let s = if svd.len() == 0 {
                0int
            } else {
                1
            };
            let r = if rec.len() == 0 {
                0int
            } else {
                1
            };
            &&& stands_at(all, 16, pvd)
            &&& stands_at(all, 17, svd)
            &&& stands_at(all, 17 + s, rec)
            &&& stands_at(all, 17 + s + r, end)
            &&& stands_at(all, 18 + s + r, cat)
        }),
{
    let all = z + pvd + svd + rec + end + cat + rest;
    let s = if svd.len() == 0 {
        0int
    } else {
        1
    };
    let r = if rec.len() == 0 {
        0int
    } else {
        1
    };
    assert(all.subrange(16 * SECTOR, 16 * SECTOR + pvd.len()) =~= pvd);
    assert(all.subrange(17 * SECTOR, 17 * SECTOR + svd.len()) =~= svd);
    assert(all.subrange((17 + s) * SECTOR, (17 + s) * SECTOR + rec.len()) =~= rec);
    assert(all.subrange((17 + s + r) * SECTOR, (17 + s + r) * SECTOR + end.len()) =~= end);
    assert(all.subrange((18 + s + r) * SECTOR, (18 + s + r) * SECTOR + cat.len()) =~= cat);
}

} // verus!
