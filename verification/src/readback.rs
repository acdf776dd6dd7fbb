//! What a reader finds on a rendered volume: the contents of the files, the
//! records of the directories, the entries of the path tables.
use vstd::prelude::*;
use crate::bytes::{
    be16, be16_at, be32, be32_at, both16_bytes, both32_bytes, fill, le16, le16_at, le32, le32_at,
    le32_round_trip, low32, low_byte, zeros,
};
use crate::layout::{
    dir_levels_facts, dir_order_facts, dir_order_up, dot_id, dotdot_id, layout_fits,
    orders_are_complete, pack_from_grows, places, planned_extent, planned_extents, record_len,
    sum_over, ImagePlan, Ns, PtInfo, SECTOR,
};
use crate::order::{ascending, sort_items_facts, sort_items_no_duplicates};
use crate::render::{
    base_volume_id, block_fits, blocks_fit, boot_catalog_bytes, boot_record, boot_record_len,
    catalog_checksum_is_zero, child_record, contents_bytes, contents_places, descriptor_len,
    descriptors_bytes, descriptors_in_place, descriptors_lead, dir_block, dir_block_in_place,
    dir_block_len, dir_records, el_torito, file_in_place, image_bytes, join, join_len,
    join_next, joliet_escapes, joliet_volume_id, link_record, load_count, namespace_descriptor,
    pack_records, pad_sector, pad_sector_len, parts_stand_as_planned, path_entry, path_table,
    path_table_size_as_planned, place_record, placed_dir, placed_file, planned, record_bytes,
    size_kept, sizes_kept, stands_at, stands_within, table_entries, table_id, table_number,
    terminator_bytes, terminator_len, up_dir, validation_checksum, validation_entry,
    volume_descriptor, word_sum,
};
use crate::timeutil::{record_date, volume_date};
use crate::tree::{
    ids_are_short, reachable_facts, reachable_parent, with_ids_keeps_shape, Extent, TreeView,
};

verus! {

// ---------------------------------------------------------------------------
// plans
// ---------------------------------------------------------------------------

/// Whether the directory blocks of a namespace have byte lengths of 32 bits,
/// and the lengths of their records fit in a byte.
pub open spec fn blocks_small(v: TreeView, ns: Ns) -> bool {
    forall|d: usize| #[trigger]
        v.dir_order(ns).contains(d) ==> v.block_sectors(ns)(d) <= 0x1F_FFFF && lengths_fit(
            v,
            d,
            ns,
        )
}

/// A tree whose nodes have been given their places is planned.
pub proof fn placed_tree_is_planned(
    v: TreeView,
    plan: ImagePlan,
    boot: bool,
    joliet: bool,
    had: Seq<Extent>,
)
    requires
        v.wf(),
        v.nodes.len() <= usize::MAX,
        had.len() == v.nodes.len(),
        layout_fits(v, boot, joliet),
        plan.describes(v, boot, joliet),
        blocks_small(v, Ns::Base),
        joliet ==> blocks_small(v, Ns::Jol),
    ensures
        planned(v, planned_extents(v, boot, joliet, had), plan, boot, joliet, had),
{
    small_blocks_fit(v, boot, joliet, had, Ns::Base);
    if joliet {
        small_blocks_fit(v, boot, joliet, had, Ns::Jol);
    }
}

proof fn small_blocks_fit(v: TreeView, boot: bool, joliet: bool, had: Seq<Extent>, ns: Ns)
    requires
        v.wf(),
        v.nodes.len() <= usize::MAX,
        had.len() == v.nodes.len(),
        blocks_small(v, ns),
        ns == Ns::Jol ==> joliet,
    ensures
        blocks_fit(v, planned_extents(v, boot, joliet, had), ns),
{
    let e = planned_extents(v, boot, joliet, had);
    let order = v.dir_order(ns);
    dir_order_facts(v, ns);
    assert forall|d: usize| #[trigger] order.contains(d) implies e[d as int].block_bytes(ns)
        <= u32::MAX by {
        pack_from_grows(v.record_lens(d, ns), 1, 0);
        assert(e[d as int] == planned_extent(v, boot, joliet, d, had[d as int]));
        assert(e[d as int].block(ns) == v.block_sectors(ns)(d));
    }
    assert forall|d: usize| #[trigger] order.contains(d) implies block_fits(v, e, d, ns) by {
        if d != v.root {
            dir_order_up(v, ns, d);
        }
        assert(order.contains(up_dir(v, d)));
        assert forall|c: usize| #[trigger] v.kids(d).contains(c) implies record_len(v.id(c, ns))
            <= SECTOR && (v.nodes[c as int].is_dir ==> e[c as int].block_bytes(ns) <= u32::MAX) by {
            assert(record_len(v.id(c, ns)) <= 255);
            if v.nodes[c as int].is_dir {
                assert(order.contains(c));
            }
        }
    }
}

// ---------------------------------------------------------------------------
// files
// ---------------------------------------------------------------------------

/// A planned volume has the planned length and starts with an empty system
/// area of sixteen sectors.
pub proof fn image_length_and_system_area(
    v: TreeView,
    e: Seq<Extent>,
    plan: ImagePlan,
    boot: Option<usize>,
    joliet: bool,
    label: Seq<u8>,
    now: u64,
    contents: Seq<Vec<u8>>,
    had: Seq<Extent>,
)
    requires
        planned(v, e, plan, boot is Some, joliet, had),
        sizes_kept(v, contents),
    ensures
        ({
            let image = image_bytes(v, e, plan, boot, joliet, label, now, contents);
            &&& image.len() == plan.total_sectors * 2048
            &&& image.len() >= 16 * 2048
            &&& forall|k: int| 0 <= k < 16 * 2048 ==> #[trigger] image[k] == 0
        }),
{
    let image = image_bytes(v, e, plan, boot, joliet, label, now, contents);
    let d = descriptors_bytes(v, e, plan, boot, joliet, label, now);
    parts_stand_as_planned(v, e, plan, boot, joliet, label, now, contents, had);
    system_area_is_empty(v, e, plan, boot, joliet, label, now);
    descriptors_lead(v, e, plan, boot, joliet, label, now, contents);
    assert forall|k: int| 0 <= k < 16 * 2048 implies #[trigger] image[k] == 0 by {
        assert(image.subrange(0, d.len() as int)[k] == d[k]);
    }
}

proof fn system_area_is_empty(
    v: TreeView,
    e: Seq<Extent>,
    plan: ImagePlan,
    boot: Option<usize>,
    joliet: bool,
    label: Seq<u8>,
    now: u64,
)
    ensures
        ({
            let d = descriptors_bytes(v, e, plan, boot, joliet, label, now);
            d.len() >= 32768 && forall|k: int| 0 <= k < 32768 ==> #[trigger] d[k] == 0
        }),
{
    reveal(descriptors_bytes);
}

/// The contents of every file stand at the sector that the tree records for
/// it, and the rest of the last sector is zero.
pub proof fn file_is_padded(
    v: TreeView,
    e: Seq<Extent>,
    plan: ImagePlan,
    boot: Option<usize>,
    joliet: bool,
    label: Seq<u8>,
    now: u64,
    contents: Seq<Vec<u8>>,
    had: Seq<Extent>,
    i: int,
)
    requires
        planned(v, e, plan, boot is Some, joliet, had),
        sizes_kept(v, contents),
        0 <= i < contents.len(),
    ensures
        ({
            let image = image_bytes(v, e, plan, boot, joliet, label, now, contents);
            let start = e[v.file_order()[i] as int].base_lba * 2048;
            let size = v.nodes[v.file_order()[i] as int].size;
            let end = start + (size + 2047) / 2048 * 2048;
            &&& contents[i]@.len() == size
            &&& end <= image.len()
            &&& forall|k: int| 0 <= k < size ==> #[trigger] image[start + k] == contents[i]@[k]
            &&& forall|k: int| start + size <= k < end ==> #[trigger] image[k] == 0
        }),
{
    let image = image_bytes(v, e, plan, boot, joliet, label, now, contents);
    let p = places(v, boot is Some, joliet);
    let at = sum_over(v.file_order().take(i), v.content_sectors());
    let c = contents[i]@;
    let padded = pad_sector(c);
    parts_stand_as_planned(v, e, plan, boot, joliet, label, now, contents, had);
    contents_places(v, contents, contents.len() as int, i);
    assert(contents.take(contents.len() as int) =~= contents);
    stands_within(image, p.files, contents_bytes(contents), at, padded);
    pad_sector_len(c);
    placed_file(v, e, plan, boot is Some, joliet, had, i);
    assert(size_kept(v, contents, i));
    let lba = p.files + at;
    let start = e[v.file_order()[i] as int].base_lba * 2048;
    assert(start == lba * SECTOR);
    let size = c.len() as int;
    let end = start + (size + 2047) / 2048 * 2048;
    assert(padded.len() == end - start);
    assert forall|k: int| 0 <= k < size implies #[trigger] image[start + k] == c[k] by {
        assert(image.subrange(start, end)[k] == padded[k]);
        assert(padded.take(size)[k] == c[k]);
    }
    assert forall|k: int| start + size <= k < end implies #[trigger] image[k] == 0 by {
        assert(image.subrange(start, end)[k - start] == padded[k - start]);
    }
}

/// Files follow each other without a sector between them, in as many sectors as
/// they need, and the last one ends the volume.
#[verifier::spinoff_prover]
#[verifier::rlimit(60)]
pub proof fn files_follow_each_other(
    v: TreeView,
    e: Seq<Extent>,
    plan: ImagePlan,
    boot: Option<usize>,
    joliet: bool,
    label: Seq<u8>,
    now: u64,
    contents: Seq<Vec<u8>>,
    had: Seq<Extent>,
    i: int,
)
    requires
        planned(v, e, plan, boot is Some, joliet, had),
        sizes_kept(v, contents),
        0 <= i < contents.len(),
    ensures
        ({
            let image = image_bytes(v, e, plan, boot, joliet, label, now, contents);
            let order = v.file_order();
            let end = e[order[i] as int].base_lba + (contents[i]@.len() as int + 2047) / 2048;
            end * 2048 == if i + 1 < contents.len() {
                e[order[i + 1] as int].base_lba * 2048
            } else {
                image.len() as int
            }
        }),
{
    let order = v.file_order();
    let n = contents.len() as int;
    let p = places(v, boot is Some, joliet);
    placed_file(v, e, plan, boot is Some, joliet, had, i);
    assert(size_kept(v, contents, i));
    assert(order.take(i + 1).drop_last() =~= order.take(i));
    assert(order.take(i + 1).last() == order[i]);
    if i + 1 < n {
        placed_file(v, e, plan, boot is Some, joliet, had, i + 1);
    } else {
        assert(order.take(n) =~= order);
    }
    parts_stand_as_planned(v, e, plan, boot, joliet, label, now, contents, had);
}

/// Contents are taken where they have as many bytes as their file had, and not
/// otherwise.
pub proof fn sizes_are_compared(v: TreeView, contents: Seq<Vec<u8>>, i: int)
    ensures
        size_kept(v, contents, i) <==> contents[i]@.len()
            == v.nodes[v.file_order()[i] as int].size,
{
}

/// Padding fills up the last sector, and adds no other.
pub proof fn padding_is_least(b: Seq<u8>)
    ensures
        pad_sector(b).len() % 2048 == 0,
        b.len() <= pad_sector(b).len() < b.len() + 2048,
        b.is_prefix_of(pad_sector(b)),
        forall|i: int| b.len() <= i < pad_sector(b).len() ==> #[trigger] pad_sector(b)[i] == 0,
{
    pad_sector_len(b);
    assert(b =~= pad_sector(b).take(b.len() as int));
}

// ---------------------------------------------------------------------------
// directories
// ---------------------------------------------------------------------------

/// The first byte of the next sector.
pub open spec fn next_sector(pos: int) -> int {
    (pos / 2048 + 1) * 2048
}

/// The records of a directory block from `pos` on, as a reader walks them: the
/// first byte of a record is its length, and where it is zero the walk goes on
/// with the next sector.
pub open spec fn records_in(b: Seq<u8>, pos: int) -> Seq<Seq<u8>>
    decreases b.len() + 2048 - pos,
{
    if pos < 0 || pos >= b.len() {
        Seq::empty()
    } else if b[pos] == 0 {
        records_in(b, next_sector(pos))
    } else if pos + b[pos] > b.len() {
        Seq::empty()
    } else {
        seq![b.subrange(pos, pos + b[pos])] + records_in(b, pos + b[pos])
    }
}

/// The identifier in a directory record.
pub open spec fn record_id(rec: Seq<u8>) -> Seq<u8> {
    rec.subrange(33, 33 + rec[32])
}

/// A record says so many bytes from that sector on, in both byte orders, and
/// whether it is a directory.
pub open spec fn record_says(rec: Seq<u8>, lba: int, len: int, is_dir: bool) -> bool {
    &&& le32_at(rec, 2) == lba
    &&& be32_at(rec, 6) == lba
    &&& le32_at(rec, 10) == len
    &&& be32_at(rec, 14) == len
    &&& rec[25] == if is_dir {
        2u8
    } else {
        0u8
    }
}

/// Whether the length of every child's record fits in a byte.
pub open spec fn lengths_fit(v: TreeView, d: usize, ns: Ns) -> bool {
    forall|c: usize| #[trigger] v.kids(d).contains(c) ==> record_len(v.id(c, ns)) <= 255
}

/// Whether a byte string starts with its own length.
spec fn tells_length(rec: Seq<u8>) -> bool {
    0 < rec.len() <= 255 && rec[0] == rec.len()
}

#[verifier::spinoff_prover]
#[verifier::rlimit(60)]
proof fn record_facts(extent: u32, data_len: u32, is_dir: bool, mtime: u64, id: Seq<u8>)
    requires
        record_len(id) <= 255,
    ensures
        ({
            let rec = record_bytes(extent, data_len, is_dir, mtime, id);
            &&& tells_length(rec)
            &&& rec.len() == record_len(id)
            &&& record_id(rec) == id
            &&& record_says(rec, extent as int, data_len as int, is_dir)
        }),
{
    both32_read_back(extent);
    both32_read_back(data_len);
    record_parts(
        seq![low_byte(record_len(id)), 0u8],
        both32_bytes(extent as int),
        both32_bytes(data_len as int),
        record_date(mtime),
        seq![
            if is_dir {
                2u8
            } else {
                0u8
            },
            0u8,
            0u8,
        ],
        both16_bytes(1),
        seq![low_byte(id.len() as int)],
        id,
        zeros((id.len() + 1) % 2),
        extent as int,
        data_len as int,
        is_dir,
    );
}

proof fn both32_read_back(x: u32)
    ensures
        le32_at(both32_bytes(x as int), 0) == x,
        be32_at(both32_bytes(x as int), 4) == x,
        both32_bytes(x as int).len() == 8,
{
    le32_round_trip(x);
}

/// Where the parts of a record lie.
proof fn record_parts(
    h: Seq<u8>,
    a: Seq<u8>,
    b: Seq<u8>,
    t: Seq<u8>,
    k: Seq<u8>,
    s: Seq<u8>,
    n: Seq<u8>,
    id: Seq<u8>,
    z: Seq<u8>,
    lba: int,
    len: int,
    is_dir: bool,
)
    requires
        h.len() == 2,
        a.len() == 8,
        b.len() == 8,
        t.len() == 7,
        k.len() == 3,
        s.len() == 4,
        n.len() == 1,
        h[0] == 33 + id.len() + z.len(),
        n[0] == id.len(),
        le32_at(a, 0) == lba,
        be32_at(a, 4) == lba,
        le32_at(b, 0) == len,
        be32_at(b, 4) == len,
        k[0] == if is_dir {
            2u8
        } else {
            0u8
        },
    ensures
        ({
            let rec = h + a + b + t + k + s + n + id + z;
            &&& tells_length(rec)
            &&& rec.len() == 33 + id.len() + z.len()
            &&& record_id(rec) == id
            &&& record_says(rec, lba, len, is_dir)
        }),
{
    let rec = h + a + b + t + k + s + n + id + z;
    assert(rec.subrange(2, 10) =~= a);
    assert(rec.subrange(10, 18) =~= b);
    assert(rec.subrange(33, 33 + id.len() as int) =~= id);
    assert(forall|i: int| 0 <= i < 8 ==> #[trigger] rec.subrange(2, 10)[i] == rec[i + 2]);
    assert(forall|i: int| 0 <= i < 8 ==> #[trigger] rec.subrange(10, 18)[i] == rec[i + 10]);
}

proof fn packed_prefix(recs: Seq<Seq<u8>>, i: int)
    requires
        0 <= i <= recs.len(),
    ensures
        pack_records(recs.take(i)).is_prefix_of(pack_records(recs)),
    decreases recs.len(),
{
    if i == recs.len() {
        assert(recs.take(i) =~= recs);
        let b = pack_records(recs);
        assert(b =~= b.subrange(0, b.len() as int));
    } else {
        let less = recs.drop_last();
        packed_prefix(less, i);
        assert(less.take(i) =~= recs.take(i));
        let a = pack_records(recs.take(i));
        let b = pack_records(less);
        let c = pack_records(recs);
        assert(a =~= c.subrange(0, a.len() as int)) by {
            assert(a =~= b.subrange(0, a.len() as int));
            assert(forall|k: int| 0 <= k < b.len() ==> c[k] == b[k]);
        }
    }
}

/// A record that stands at `pos` is read there.
proof fn record_is_read(b: Seq<u8>, pos: int, rec: Seq<u8>)
    requires
        tells_length(rec),
        0 <= pos,
        pos + rec.len() <= b.len(),
        b.subrange(pos, pos + rec.len()) == rec,
    ensures
        records_in(b, pos) == seq![rec] + records_in(b, pos + rec.len()),
{
    assert(b[pos] == b.subrange(pos, pos + rec.len())[0]);
}

/// Where a record is placed: right behind the others, or behind zeros in the
/// next sector.
proof fn record_is_placed(head: Seq<u8>, rec: Seq<u8>)
    requires
        tells_length(rec),
    ensures
        ({
            let more = place_record(head, rec);
            let at = more.len() - rec.len();
            &&& more.subrange(at, more.len() as int) == rec
            &&& at != head.len() ==> {
                &&& head.len() < at
                &&& more[head.len() as int] == 0
                &&& next_sector(head.len() as int) == at
            }
        }),
{
    let more = place_record(head, rec);
    let at = more.len() - rec.len();
    assert(more.subrange(at, more.len() as int) =~= rec);
    if at != head.len() {
        let n = head.len() as int;
        assert(n % 2048 > 0);
        assert(at == n + (2048 - n % 2048));
        assert(more[n] == 0);
    }
}

/// Walking a packed block from behind its first `i` records gives the others.
proof fn walk_from(recs: Seq<Seq<u8>>, i: int)
    requires
        0 <= i <= recs.len(),
        forall|j: int| 0 <= j < recs.len() ==> tells_length(#[trigger] recs[j]),
    ensures
        records_in(
            pad_sector(pack_records(recs)),
            pack_records(recs.take(i)).len() as int,
        ) == recs.skip(i),
    decreases recs.len() - i,
{
    let all = pack_records(recs);
    let b = pad_sector(all);
    let head = pack_records(recs.take(i));
    let pos = head.len() as int;
    if i == recs.len() {
        assert(recs.take(i) =~= recs);
        walk_ends(all);
        assert(recs.skip(i) =~= Seq::<Seq<u8>>::empty());
    } else {
        let rec = recs[i];
        let more = pack_records(recs.take(i + 1));
        let at = more.len() - rec.len();
        assert(recs.take(i + 1).drop_last() =~= recs.take(i));
        assert(recs.take(i + 1).last() == rec);
        assert(more == place_record(head, rec));
        record_is_placed(head, rec);
        packed_prefix(recs, i + 1);
        prefix_is_padded(more, all);
        assert(b.subrange(at, at + rec.len()) =~= b.take(more.len() as int).subrange(
            at,
            more.len() as int,
        ));
        record_is_read(b, at, rec);
        walk_from(recs, i + 1);
        if at != pos {
            assert(b[pos] == b.take(more.len() as int)[pos]);
        }
        assert(recs.skip(i) =~= seq![rec] + recs.skip(i + 1));
    }
}

/// Behind the last record the walk ends.
proof fn walk_ends(all: Seq<u8>)
    ensures
        records_in(pad_sector(all), all.len() as int) == Seq::<Seq<u8>>::empty(),
{
    let b = pad_sector(all);
    let n = all.len() as int;
    if n < b.len() {
        assert(b[n] == 0);
        assert(n % 2048 > 0);
        assert(b.len() == n + (2048 - n % 2048));
        assert(next_sector(n) == b.len());
        assert(records_in(b, next_sector(n)) == Seq::<Seq<u8>>::empty());
    }
}

proof fn prefix_is_padded(more: Seq<u8>, all: Seq<u8>)
    requires
        more.is_prefix_of(all),
    ensures
        more.len() <= pad_sector(all).len(),
        pad_sector(all).take(more.len() as int) == more,
{
    assert(pad_sector(all).take(more.len() as int) =~= all.subrange(0, more.len() as int));
}

/// A record reads as that of an entry.
pub open spec fn record_reads(
    rec: Seq<u8>,
    id: Seq<u8>,
    lba: int,
    len: int,
    is_dir: bool,
) -> bool {
    record_id(rec) == id && record_says(rec, lba, len, is_dir)
}

/// A record reads as that of child `c`: where its block lies in the namespace,
/// or its contents, and how many bytes they have.
pub open spec fn child_reads(v: TreeView, e: Seq<Extent>, ns: Ns, c: usize, rec: Seq<u8>) -> bool {
    if v.nodes[c as int].is_dir {
        record_reads(
            rec,
            v.id(c, ns),
            e[c as int].lba(ns) as int,
            e[c as int].block(ns) * 2048,
            true,
        )
    } else {
        record_reads(
            rec,
            v.id(c, ns),
            e[c as int].base_lba as int,
            v.nodes[c as int].size as int % 0x1_0000_0000,
            false,
        )
    }
}

/// Records list directory `d`: its record of itself, its record of its parent
/// (the root is its own), and one record for each child, in ascending order of
/// the identifiers.
pub open spec fn lists_children(
    v: TreeView,
    e: Seq<Extent>,
    d: usize,
    ns: Ns,
    recs: Seq<Seq<u8>>,
) -> bool {
    let kids = v.sorted_kids(d, ns);
    let up = up_dir(v, d);
    &&& recs.len() == kids.len() + 2
    &&& record_reads(
        recs[0],
        seq![0u8],
        e[d as int].lba(ns) as int,
        e[d as int].block(ns) * 2048,
        true,
    )
    &&& record_reads(
        recs[1],
        seq![1u8],
        e[up as int].lba(ns) as int,
        e[up as int].block(ns) * 2048,
        true,
    )
    &&& forall|i: int|
        0 <= i < kids.len() ==> child_reads(v, e, ns, #[trigger] kids[i], recs[i + 2])
    &&& kids.len() == v.kids(d).len()
    &&& kids.no_duplicates()
    &&& forall|x: usize| #[trigger] kids.contains(x) <==> v.kids(d).contains(x)
    &&& ascending(kids, v.ids(ns))
}

/// Walking the block of a directory by the length bytes gives its records.
pub proof fn block_lists_children(v: TreeView, e: Seq<Extent>, d: usize, ns: Ns)
    requires
        v.wf(),
        v.reachable().contains(d),
        block_fits(v, e, d, ns),
        lengths_fit(v, d, ns),
    ensures
        dir_block(v, e, ns)(d).len() == v.block_sectors(ns)(d) * 2048,
        lists_children(v, e, d, ns, records_in(dir_block(v, e, ns)(d), 0)),
{
    sorted_kids_facts(v, d, ns);
    dir_block_len(v, e, d, ns);
    block_is_walked(v, e, d, ns);
    links_read(v, e, d, ns);
    children_read(v, e, d, ns);
}

/// The children of a directory in the order of their identifiers.
proof fn sorted_kids_facts(v: TreeView, d: usize, ns: Ns)
    requires
        v.wf(),
        v.reachable().contains(d),
    ensures
        v.sorted_kids(d, ns).len() == v.kids(d).len(),
        v.sorted_kids(d, ns).no_duplicates(),
        forall|x: usize| #[trigger]
            v.sorted_kids(d, ns).contains(x) <==> v.kids(d).contains(x),
        ascending(v.sorted_kids(d, ns), v.ids(ns)),
{
    reachable_facts(v);
    sort_items_facts(v.kids(d), v.ids(ns));
    sort_items_no_duplicates(v.kids(d), v.ids(ns));
}

/// The first two records of a directory.
proof fn links_read(v: TreeView, e: Seq<Extent>, d: usize, ns: Ns)
    requires
        block_fits(v, e, d, ns),
    ensures
        dir_records(v, e, d, ns).len() == v.sorted_kids(d, ns).len() + 2,
        record_reads(
            dir_records(v, e, d, ns)[0],
            seq![0u8],
            e[d as int].lba(ns) as int,
            e[d as int].block(ns) * 2048,
            true,
        ),
        record_reads(
            dir_records(v, e, d, ns)[1],
            seq![1u8],
            e[up_dir(v, d) as int].lba(ns) as int,
            e[up_dir(v, d) as int].block(ns) * 2048,
            true,
        ),
{
    let recs = dir_records(v, e, d, ns);
    let up = up_dir(v, d);
    assert(recs[0] == link_record(v, e, d, ns, dot_id()));
    assert(recs[1] == link_record(v, e, up, ns, dotdot_id()));
    link_record_facts(v, e, d, ns, dot_id());
    link_record_facts(v, e, up, ns, dotdot_id());
}

/// The other records of a directory.
proof fn children_read(v: TreeView, e: Seq<Extent>, d: usize, ns: Ns)
    requires
        block_fits(v, e, d, ns),
        lengths_fit(v, d, ns),
    ensures
        forall|i: int|
            0 <= i < v.sorted_kids(d, ns).len() ==> child_reads(
                v,
                e,
                ns,
                #[trigger] v.sorted_kids(d, ns)[i],
                dir_records(v, e, d, ns)[i + 2],
            ),
{
    let recs = dir_records(v, e, d, ns);
    let kids = v.sorted_kids(d, ns);
    assert forall|i: int| 0 <= i < kids.len() implies child_reads(
        v,
        e,
        ns,
        #[trigger] kids[i],
        recs[i + 2],
    ) by {
        child_record_facts(v, e, d, ns, i);
        assert(recs[i + 2] == child_record(v, e, kids[i], ns));
    }
}

/// In a planned tree, the block of every directory has as many bytes as its
/// recorded sectors, and walking it by the length bytes gives its records.
pub proof fn planned_block_reads_back(
    v: TreeView,
    e: Seq<Extent>,
    plan: ImagePlan,
    boot: bool,
    joliet: bool,
    had: Seq<Extent>,
    ns: Ns,
    d: usize,
)
    requires
        planned(v, e, plan, boot, joliet, had),
        v.reachable().contains(d),
        v.nodes[d as int].is_dir,
        ns == Ns::Jol ==> joliet,
        lengths_fit(v, d, ns),
    ensures
        dir_block(v, e, ns)(d).len() == 2048 * e[d as int].block(ns),
        lists_children(v, e, d, ns, records_in(dir_block(v, e, ns)(d), 0)),
{
    orders_are_complete(v, ns, d);
    placed_dir(v, e, plan, boot, joliet, had, ns, d);
    block_lists_children(v, e, d, ns);
}

/// The block of every directory of a planned volume is read from where the
/// tree records it, and lists the directory.
pub proof fn directory_reads_back(
    v: TreeView,
    e: Seq<Extent>,
    plan: ImagePlan,
    boot: Option<usize>,
    joliet: bool,
    label: Seq<u8>,
    now: u64,
    contents: Seq<Vec<u8>>,
    had: Seq<Extent>,
    ns: Ns,
    d: usize,
)
    requires
        planned(v, e, plan, boot is Some, joliet, had),
        sizes_kept(v, contents),
        v.reachable().contains(d),
        v.nodes[d as int].is_dir,
        ns == Ns::Jol ==> joliet,
        lengths_fit(v, d, ns),
    ensures
        ({
            let image = image_bytes(v, e, plan, boot, joliet, label, now, contents);
            let start = e[d as int].lba(ns) * 2048;
            let end = start + e[d as int].block(ns) * 2048;
            &&& end <= image.len()
            &&& image.subrange(start, end) == dir_block(v, e, ns)(d)
            &&& lists_children(v, e, d, ns, records_in(image.subrange(start, end), 0))
        }),
{
    orders_are_complete(v, ns, d);
    dir_block_in_place(v, e, plan, boot, joliet, label, now, contents, had, ns, d);
    block_lists_children(v, e, d, ns);
}

/// Walking the block of a directory gives its records.
proof fn block_is_walked(v: TreeView, e: Seq<Extent>, d: usize, ns: Ns)
    requires
        block_fits(v, e, d, ns),
        lengths_fit(v, d, ns),
    ensures
        records_in(dir_block(v, e, ns)(d), 0) == dir_records(v, e, d, ns),
{
    let recs = dir_records(v, e, d, ns);
    let kids = v.sorted_kids(d, ns);
    let up = up_dir(v, d);
    sort_items_facts(v.kids(d), v.ids(ns));
    assert forall|j: int| 0 <= j < recs.len() implies tells_length(#[trigger] recs[j]) by {
        if j >= 2 {
            child_record_facts(v, e, d, ns, j - 2);
            assert(recs[j] == child_record(v, e, kids[j - 2], ns));
        } else if j == 0 {
            link_record_facts(v, e, d, ns, dot_id());
        } else {
            link_record_facts(v, e, up, ns, dotdot_id());
        }
    }
    walk_from(recs, 0);
    assert(recs.take(0) =~= Seq::<Seq<u8>>::empty());
    assert(recs.skip(0) =~= recs);
}

proof fn link_record_facts(v: TreeView, e: Seq<Extent>, d: usize, ns: Ns, id: Seq<u8>)
    requires
        e[d as int].block_bytes(ns) <= u32::MAX,
        id.len() == 1,
    ensures
        ({
            let rec = link_record(v, e, d, ns, id);
            &&& tells_length(rec)
            &&& record_id(rec) == id
            &&& record_says(
                rec,
                e[d as int].lba(ns) as int,
                e[d as int].block(ns) * 2048,
                true,
            )
        }),
{
    record_facts(
        e[d as int].lba(ns),
        e[d as int].block_bytes(ns) as u32,
        true,
        v.nodes[d as int].mtime,
        id,
    );
}

/// With the identifiers that a tree is given, every record's length fits in a
/// byte.
pub proof fn given_ids_fit(v: TreeView, d: usize, ns: Ns)
    requires
        v.wf(),
        v.assignable(),
        v.nodes.len() <= usize::MAX,
        v.reachable().contains(d),
    ensures
        lengths_fit(v.with_ids(), d, ns),
{
    let w = v.with_ids();
    reachable_facts(v);
    with_ids_keeps_shape(v);
    assert forall|c: usize| #[trigger] w.kids(d).contains(c) implies record_len(w.id(c, ns))
        <= 255 by {
        assert(w.nodes[d as int].children == v.nodes[d as int].children);
        assert(v.kids(d).contains(c));
        ids_are_short(v, c);
    }
}

proof fn child_record_facts(v: TreeView, e: Seq<Extent>, d: usize, ns: Ns, i: int)
    requires
        block_fits(v, e, d, ns),
        lengths_fit(v, d, ns),
        0 <= i < v.sorted_kids(d, ns).len(),
    ensures
        ({
            let c = v.sorted_kids(d, ns)[i];
            let rec = child_record(v, e, c, ns);
            &&& tells_length(rec)
            &&& record_id(rec) == v.id(c, ns)
            &&& v.nodes[c as int].is_dir ==> record_says(
                rec,
                e[c as int].lba(ns) as int,
                e[c as int].block(ns) * 2048,
                true,
            )
            &&& !v.nodes[c as int].is_dir ==> record_says(
                rec,
                e[c as int].base_lba as int,
                v.nodes[c as int].size as int % 0x1_0000_0000,
                false,
            )
        }),
{
    let kids = v.sorted_kids(d, ns);
    let c = kids[i];
    let node = v.nodes[c as int];
    sort_items_facts(v.kids(d), v.ids(ns));
    assert(kids.contains(c));
    assert(v.kids(d).contains(c));
    if node.is_dir {
        record_facts(
            e[c as int].lba(ns),
            e[c as int].block_bytes(ns) as u32,
            true,
            node.mtime,
            v.id(c, ns),
        );
    } else {
        record_facts(
            e[c as int].base_lba,
            (node.size % 0x1_0000_0000) as u32,
            false,
            node.mtime,
            v.id(c, ns),
        );
    }
}

// ---------------------------------------------------------------------------
// path tables
// ---------------------------------------------------------------------------

/// Where entry `i` of a path table starts.
pub open spec fn entry_start(v: TreeView, ns: Ns, i: int) -> int {
    sum_over(v.dir_levels(ns).take(i), v.entry_len(ns))
}

/// An entry of a path table reads from byte `o` on: the length of the
/// identifier, a zero byte, a sector, the number of the parent, the identifier,
/// and a zero byte where that makes the length even.
pub open spec fn entry_reads(
    b: Seq<u8>,
    o: int,
    id: Seq<u8>,
    lba: int,
    up: int,
    big: bool,
) -> bool {
    let n = id.len() as int;
    &&& 0 <= o
    &&& o + 8 + n + n % 2 <= b.len()
    &&& b[o] == n % 256
    &&& b[o + 1] == 0
    &&& lba == if big {
        be32_at(b, o + 2)
    } else {
        le32_at(b, o + 2)
    }
    &&& up == if big {
        be16_at(b, o + 6)
    } else {
        le16_at(b, o + 6)
    }
    &&& b.subrange(o + 8, o + 8 + n) == id
    &&& n % 2 == 1 ==> b[o + 8 + n] == 0
}

/// The parent number that the entry of a directory holds.
pub open spec fn parent_number(v: TreeView, d: usize, ns: Ns) -> int {
    table_number(v, up_dir(v, d), ns) % 65536
}

/// Entry `i` of the two path tables reads the same but for the byte order.
pub open spec fn entries_agree(v: TreeView, e: Seq<Extent>, ns: Ns, i: int) -> bool {
    let d = v.dir_levels(ns)[i];
    let o = entry_start(v, ns, i);
    let id = table_id(v, d, ns);
    let lba = e[d as int].lba(ns) as int;
    let up = parent_number(v, d, ns);
    &&& entry_reads(path_table(v, e, ns, false), o, id, lba, up, false)
    &&& entry_reads(path_table(v, e, ns, true), o, id, lba, up, true)
    &&& entry_start(v, ns, i + 1) == o + 8 + id.len() + id.len() % 2
}

/// The two path tables of a namespace have the planned length and agree entry
/// by entry but for the byte order of the two numbers. The entries follow each
/// other from the first byte to the last.
pub proof fn path_tables_agree(v: TreeView, e: Seq<Extent>, ns: Ns)
    ensures
        path_table(v, e, ns, false).len() == v.path_table_len(ns),
        path_table(v, e, ns, true).len() == v.path_table_len(ns),
        entry_start(v, ns, 0) == 0,
        entry_start(v, ns, v.dir_levels(ns).len() as int) == v.path_table_len(ns),
        forall|i: int| 0 <= i < v.dir_levels(ns).len() ==> #[trigger] entries_agree(v, e, ns, i),
{
    path_table_size_as_planned(v, e, ns, false);
    path_table_size_as_planned(v, e, ns, true);
    let order = v.dir_levels(ns);
    assert(order.take(0) =~= Seq::<usize>::empty());
    assert(order.take(order.len() as int) =~= order);
    assert forall|i: int| 0 <= i < order.len() implies #[trigger] entries_agree(v, e, ns, i) by {
        entry_is_read(v, e, ns, i);
    }
}

/// With fewer than 65536 directories, the parent number is the place of the
/// parent in the table, counted from 1.
pub proof fn parent_numbers_fit(v: TreeView, ns: Ns, i: int)
    requires
        v.wf(),
        v.dir_levels(ns).len() < 65536,
        0 <= i < v.dir_levels(ns).len(),
    ensures
        ({
            let d = v.dir_levels(ns)[i];
            let up = parent_number(v, d, ns);
            &&& 1 <= up <= v.dir_levels(ns).len()
            &&& v.dir_levels(ns)[up - 1] == up_dir(v, d)
        }),
{
    dir_levels_facts(v, ns);
    let order = v.dir_levels(ns);
    let d = order[i];
    let up = up_dir(v, d);
    if i == 0 {
        assert(order[0] == up);
    }
    assert(order.contains(up));
    assert(order[order.index_of(up)] == up);
}

proof fn entry_is_read(v: TreeView, e: Seq<Extent>, ns: Ns, i: int)
    requires
        0 <= i < v.dir_levels(ns).len(),
    ensures
        entries_agree(v, e, ns, i),
{
    let d = v.dir_levels(ns)[i];
    let o = entry_start(v, ns, i);
    let l = path_table(v, e, ns, false);
    let m = path_table(v, e, ns, true);
    let id = table_id(v, d, ns);
    let up = table_number(v, up_dir(v, d), ns);
    let lba = e[d as int].lba(ns) as int;
    entry_in_table(v, e, ns, false, i);
    entry_in_table(v, e, ns, true, i);
    let x = path_entry(id, lba, up, false);
    let y = path_entry(id, lba, up, true);
    entry_fields(id, e[d as int].lba(ns), up);
    fields_in_table(l, m, o, x, y, id.len() as int);
}

/// The fields of an entry stand in the table.
proof fn fields_in_table(l: Seq<u8>, m: Seq<u8>, o: int, x: Seq<u8>, y: Seq<u8>, n: int)
    requires
        0 <= o,
        0 <= n,
        8 + n <= x.len(),
        y.len() == x.len(),
        o + x.len() <= l.len(),
        o + x.len() <= m.len(),
        l.subrange(o, o + x.len()) == x,
        m.subrange(o, o + x.len()) == y,
    ensures
        l[o] == x[0],
        m[o] == y[0],
        l[o + 1] == x[1],
        m[o + 1] == y[1],
        le32_at(l, o + 2) == le32_at(x, 2),
        be32_at(m, o + 2) == be32_at(y, 2),
        le16_at(l, o + 6) == le16_at(x, 6),
        be16_at(m, o + 6) == be16_at(y, 6),
        l.subrange(o + 8, o + 8 + n) == x.subrange(8, 8 + n),
        m.subrange(o + 8, o + 8 + n) == y.subrange(8, 8 + n),
        8 + n < x.len() ==> l[o + 8 + n] == x[8 + n] && m[o + 8 + n] == y[8 + n],
{
    let a = l.subrange(o, o + x.len());
    let b = m.subrange(o, o + x.len());
    assert(forall|k: int| 0 <= k < x.len() ==> #[trigger] a[k] == l[o + k]);
    assert(forall|k: int| 0 <= k < x.len() ==> #[trigger] b[k] == m[o + k]);
    assert(l.subrange(o + 8, o + 8 + n) =~= a.subrange(8, 8 + n));
    assert(m.subrange(o + 8, o + 8 + n) =~= b.subrange(8, 8 + n));
}

proof fn entry_fields(id: Seq<u8>, lba: u32, up: int)
    ensures
        ({
            let x = path_entry(id, lba as int, up, false);
            let y = path_entry(id, lba as int, up, true);
            &&& x.len() == 8 + id.len() + id.len() % 2
            &&& y.len() == x.len()
            &&& x[0] == id.len() % 256
            &&& y[0] == x[0]
            &&& x[1] == 0 && y[1] == 0
            &&& le32_at(x, 2) == lba
            &&& be32_at(y, 2) == lba
            &&& le16_at(x, 6) == up % 65536
            &&& be16_at(y, 6) == up % 65536
            &&& x.subrange(8, 8 + id.len() as int) == id
            &&& y.subrange(8, 8 + id.len() as int) == id
            &&& id.len() % 2 == 1 ==> x[8 + id.len() as int] == 0 && y[8 + id.len() as int] == 0
        }),
{
    le32_round_trip(lba);
    low16_read_back(up);
    entry_parts(
        seq![low_byte(id.len() as int), 0u8],
        le32(lba as int),
        le16(up),
        be32(lba as int),
        be16(up),
        id,
        zeros(id.len() % 2),
    );
}

proof fn low16_read_back(x: int)
    ensures
        le16_at(le16(x), 0) == x % 65536,
        be16_at(be16(x), 0) == x % 65536,
{
    let q = x / 65536;
    let r = x % 65536;
    assert(x == 65536 * q + r);
    assert(x / 256 == 256 * q + r / 256);
    assert(x / 256 % 256 == r / 256);
    assert(x % 256 == r % 256);
}

/// Where the parts of an entry lie, in either byte order.
proof fn entry_parts(
    h: Seq<u8>,
    a: Seq<u8>,
    c: Seq<u8>,
    b: Seq<u8>,
    d: Seq<u8>,
    id: Seq<u8>,
    z: Seq<u8>,
)
    requires
        h.len() == 2,
        a.len() == 4,
        b.len() == 4,
        c.len() == 2,
        d.len() == 2,
    ensures
        ({
            let x = h + (a + c) + id + z;
            let y = h + (b + d) + id + z;
            &&& x.len() == 8 + id.len() + z.len()
            &&& y.len() == x.len()
            &&& x[0] == h[0] && y[0] == h[0]
            &&& x[1] == h[1] && y[1] == h[1]
            &&& le32_at(x, 2) == le32_at(a, 0)
            &&& be32_at(y, 2) == be32_at(b, 0)
            &&& le16_at(x, 6) == le16_at(c, 0)
            &&& be16_at(y, 6) == be16_at(d, 0)
            &&& x.subrange(8, 8 + id.len() as int) == id
            &&& y.subrange(8, 8 + id.len() as int) == id
            &&& z.len() > 0 ==> x[8 + id.len() as int] == z[0] && y[8 + id.len() as int] == z[0]
        }),
{
    let x = h + (a + c) + id + z;
    let y = h + (b + d) + id + z;
    assert(x.subrange(8, 8 + id.len() as int) =~= id);
    assert(y.subrange(8, 8 + id.len() as int) =~= id);
}

proof fn entry_in_table(v: TreeView, e: Seq<Extent>, ns: Ns, big: bool, i: int)
    requires
        0 <= i < v.dir_levels(ns).len(),
    ensures
        ({
            let b = path_table(v, e, ns, big);
            let d = v.dir_levels(ns)[i];
            let o = entry_start(v, ns, i);
            let end = entry_start(v, ns, i + 1);
            &&& 0 <= o <= end <= b.len()
            &&& b.subrange(o, end) == table_entries(v, e, ns, big)(d)
        }),
{
    let order = v.dir_levels(ns);
    let f = table_entries(v, e, ns, big);
    let len = v.entry_len(ns);
    assert forall|j: int| 0 <= j < order.len() implies f(#[trigger] order[j]).len() == len(
        order[j],
    ) by {}
    join_len(order.take(i), f, len);
    join_len(order.take(i + 1), f, len);
    join_next(order, f, i);
    join_prefix(order, f, i + 1);
    let a = join(order.take(i), f);
    let c = join(order.take(i + 1), f);
    let b = join(order, f);
    assert(b.subrange(a.len() as int, c.len() as int) =~= f(order[i])) by {
        assert(c =~= b.subrange(0, c.len() as int));
        assert forall|k: int| 0 <= k < f(order[i]).len() implies b[a.len() + k] == #[trigger] f(
            order[i],
        )[k] by {
            assert(c[a.len() + k] == f(order[i])[k]);
            assert(b.subrange(0, c.len() as int)[a.len() + k] == b[a.len() + k]);
        }
    }
}

proof fn join_prefix(s: Seq<usize>, f: spec_fn(usize) -> Seq<u8>, i: int)
    requires
        0 <= i <= s.len(),
    ensures
        join(s.take(i), f).is_prefix_of(join(s, f)),
    decreases s.len() - i,
{
    if i == s.len() {
        assert(s.take(i) =~= s);
        let b = join(s, f);
        assert(b =~= b.subrange(0, b.len() as int));
    } else {
        join_prefix(s, f, i + 1);
        join_next(s, f, i);
        let a = join(s.take(i), f);
        let c = join(s.take(i + 1), f);
        let b = join(s, f);
        assert(a =~= b.subrange(0, a.len() as int)) by {
            assert(c =~= b.subrange(0, c.len() as int));
            assert forall|k: int| 0 <= k < a.len() implies a[k] == b[k] by {
                assert(c[k] == a[k]);
                assert(b.subrange(0, c.len() as int)[k] == b[k]);
            }
        }
    }
}

// ---------------------------------------------------------------------------
// the other fields of records
// ---------------------------------------------------------------------------

/// A record tells when its entry was changed; it has no extended attributes, is
/// not interleaved, and lies on the first volume.
pub open spec fn record_dated(rec: Seq<u8>, mtime: u64) -> bool {
    &&& rec.subrange(18, 25) == record_date(mtime)
    &&& rec[1] == 0
    &&& rec[26] == 0
    &&& rec[27] == 0
    &&& le16_at(rec, 28) == 1
    &&& be16_at(rec, 30) == 1
}

/// The records of a directory tell when the directory, its parent and each of
/// its children were changed. Each has an even length.
#[verifier::spinoff_prover]
#[verifier::rlimit(60)]
pub proof fn records_are_dated(v: TreeView, e: Seq<Extent>, d: usize, ns: Ns)
    requires
        v.wf(),
        v.reachable().contains(d),
        block_fits(v, e, d, ns),
        lengths_fit(v, d, ns),
    ensures
        ({
            let recs = records_in(dir_block(v, e, ns)(d), 0);
            let kids = v.sorted_kids(d, ns);
            &&& recs.len() == kids.len() + 2
            &&& record_dated(recs[0], v.nodes[d as int].mtime)
            &&& record_dated(recs[1], v.nodes[up_dir(v, d) as int].mtime)
            &&& forall|i: int|
                0 <= i < kids.len() ==> record_dated(
                    recs[i + 2],
                    v.nodes[#[trigger] kids[i] as int].mtime,
                )
            &&& forall|i: int| 0 <= i < recs.len() ==> (#[trigger] recs[i]).len() % 2 == 0
        }),
{
    let recs = records_in(dir_block(v, e, ns)(d), 0);
    let kids = v.sorted_kids(d, ns);
    block_is_walked(v, e, d, ns);
    let up = up_dir(v, d);
    record_is_dated(
        e[d as int].lba(ns),
        e[d as int].block_bytes(ns) as u32,
        true,
        v.nodes[d as int].mtime,
        dot_id(),
    );
    record_is_dated(
        e[up as int].lba(ns),
        e[up as int].block_bytes(ns) as u32,
        true,
        v.nodes[up as int].mtime,
        dotdot_id(),
    );
    assert forall|i: int| 0 <= i < kids.len() implies record_dated(
        recs[i + 2],
        v.nodes[#[trigger] kids[i] as int].mtime,
    ) && recs[i + 2].len() % 2 == 0 by {
        child_is_dated(v, e, kids[i], ns);
        assert(recs[i + 2] == child_record(v, e, kids[i], ns));
    }
    assert forall|i: int| 0 <= i < recs.len() implies (#[trigger] recs[i]).len() % 2 == 0 by {
        if i >= 2 {
            let j = i - 2;
            assert(record_dated(recs[j + 2], v.nodes[kids[j] as int].mtime));
        }
    }
}

proof fn child_is_dated(v: TreeView, e: Seq<Extent>, c: usize, ns: Ns)
    ensures
        record_dated(child_record(v, e, c, ns), v.nodes[c as int].mtime),
        child_record(v, e, c, ns).len() % 2 == 0,
{
    let node = v.nodes[c as int];
    if node.is_dir {
        record_is_dated(
            e[c as int].lba(ns),
            e[c as int].block_bytes(ns) as u32,
            true,
            node.mtime,
            v.id(c, ns),
        );
    } else {
        record_is_dated(
            e[c as int].base_lba,
            (node.size % 0x1_0000_0000) as u32,
            false,
            node.mtime,
            v.id(c, ns),
        );
    }
}

proof fn record_is_dated(extent: u32, data_len: u32, is_dir: bool, mtime: u64, id: Seq<u8>)
    ensures
        record_dated(record_bytes(extent, data_len, is_dir, mtime, id), mtime),
        record_bytes(extent, data_len, is_dir, mtime, id).len() % 2 == 0,
{
    let h = seq![low_byte(record_len(id)), 0u8];
    let a = both32_bytes(extent as int);
    let b = both32_bytes(data_len as int);
    let t = record_date(mtime);
    let k = seq![
        if is_dir {
            2u8
        } else {
            0u8
        },
        0u8,
        0u8,
    ];
    let s = both16_bytes(1);
    let n = seq![low_byte(id.len() as int)];
    low16_read_back(1);
    fields_lie(h, a, b, t, k, s, n + id + zeros((id.len() + 1) % 2));
    let rec = record_bytes(extent, data_len, is_dir, mtime, id);
    assert(rec =~= h + a + b + t + k + s + (n + id + zeros((id.len() + 1) % 2)));
    assert(s[0] == 1 && s[1] == 0 && s[2] == 0 && s[3] == 1);
}

proof fn fields_lie(
    h: Seq<u8>,
    a: Seq<u8>,
    b: Seq<u8>,
    t: Seq<u8>,
    k: Seq<u8>,
    s: Seq<u8>,
    rest: Seq<u8>,
)
    requires
        h.len() == 2,
        a.len() == 8,
        b.len() == 8,
        t.len() == 7,
        k.len() == 3,
        s.len() == 4,
    ensures
        ({
            let rec = h + a + b + t + k + s + rest;
            &&& rec.len() == 32 + rest.len()
            &&& rec.subrange(18, 25) == t
            &&& rec[1] == h[1]
            &&& rec[26] == k[1]
            &&& rec[27] == k[2]
            &&& rec[28] == s[0] && rec[29] == s[1] && rec[30] == s[2] && rec[31] == s[3]
        }),
{
    let rec = h + a + b + t + k + s + rest;
    assert(rec.subrange(18, 25) =~= t);
}

/// A record follows the one before it where it fits in what is left of the
/// sector of 2048 bytes, and else starts the next sector, with zeros in between.
/// What stands before it stays.
pub proof fn records_are_packed(recs: Seq<Seq<u8>>, rec: Seq<u8>)
    requires
        rec.len() <= 2048,
    ensures
        ({
            let had = pack_records(recs);
            let now = pack_records(recs.push(rec));
            let n = had.len() as int;
            let at = if n % 2048 + rec.len() <= 2048 {
                n
            } else {
                n - n % 2048 + 2048
            };
            &&& now.len() == at + rec.len()
            &&& forall|i: int| 0 <= i < n ==> #[trigger] now[i] == had[i]
            &&& forall|i: int| n <= i < at ==> #[trigger] now[i] == 0
            &&& now.subrange(at, at + rec.len()) == rec
        }),
{
    let had = pack_records(recs);
    let now = pack_records(recs.push(rec));
    let n = had.len() as int;
    assert(recs.push(rec).drop_last() =~= recs);
    if n % 2048 + rec.len() <= 2048 {
        assert(now.subrange(n, n + rec.len()) =~= rec);
    } else {
        padding_is_least(had);
        pad_sector_len(had);
        let at = n - n % 2048 + 2048;
        assert(now.subrange(at, at + rec.len()) =~= rec);
    }
}

/// The directory whose record stands under ".." is the one that lists the
/// directory, and the root for the root itself.
pub proof fn parents_are_told(v: TreeView, d: usize)
    requires
        v.wf(),
        v.reachable().contains(d),
    ensures
        d == v.root ==> up_dir(v, d) == v.root,
        d != v.root ==> v.kids(up_dir(v, d)).contains(d) && v.reachable().contains(up_dir(v, d)),
{
    if d != v.root {
        reachable_parent(v, d);
    }
}

/// In a path table the root comes first and has an empty identifier; every other
/// directory has the identifier of its node, and its parent number is the place,
/// counted from 1, of the directory that lists it.
pub proof fn tables_name_directories(v: TreeView, ns: Ns, i: int)
    requires
        v.wf(),
        v.dir_levels(ns).len() < 65536,
        0 <= i < v.dir_levels(ns).len(),
    ensures
        ({
            let order = v.dir_levels(ns);
            let node = v.nodes[order[i] as int];
            let up = parent_number(v, order[i], ns);
            &&& order[0] == v.root
            &&& table_id(v, order[0], ns) == Seq::<u8>::empty()
            &&& i == 0 ==> up == 1
            &&& i > 0 ==> table_id(v, order[i], ns) == if ns == Ns::Base {
                node.base_id
            } else {
                node.joliet_id
            }
            &&& i > 0 ==> 1 <= up <= i && order[up - 1] == node.parent
        }),
{
    let order = v.dir_levels(ns);
    dir_levels_facts(v, ns);
    parent_numbers_fit(v, ns, i);
    if i > 0 {
        let j = choose|j: int| 0 <= j < i && order[j] == v.nodes[order[i] as int].parent;
        let up = parent_number(v, order[i], ns);
        assert(order[up - 1] == order[j]);
    }
}

// ---------------------------------------------------------------------------
// descriptors
// ---------------------------------------------------------------------------

/// A sector reads as a volume descriptor of the given kind: "CD001" and version
/// 1; in both byte orders the sectors of the volume, one volume in the set, the
/// first one, 2048 bytes in a block and the bytes of a path table; the sectors
/// of the little- and of the big-endian path table, and no second ones.
pub open spec fn volume_reads(b: Seq<u8>, kind: u8, total: int, size: int, l: int, m: int) -> bool {
    &&& b.len() == 2048
    &&& b[0] == kind
    &&& b[1] == 67 && b[2] == 68 && b[3] == 48 && b[4] == 48 && b[5] == 49
    &&& b[6] == 1
    &&& b[7] == 0
    &&& le32_at(b, 80) == total && be32_at(b, 84) == total
    &&& le16_at(b, 120) == 1 && be16_at(b, 122) == 1
    &&& le16_at(b, 124) == 1 && be16_at(b, 126) == 1
    &&& le16_at(b, 128) == 2048 && be16_at(b, 130) == 2048
    &&& le32_at(b, 132) == size && be32_at(b, 136) == size
    &&& le32_at(b, 140) == l && be32_at(b, 148) == m
    &&& le32_at(b, 144) == 0 && be32_at(b, 152) == 0
}

/// The rest of a volume descriptor: "FS2ISO" and spaces for the system, the
/// record of the root directory, spaces for the names of files and people, the
/// date of making twice with no offset from UTC, no date of expiry or effect,
/// and structure version 1.
pub open spec fn volume_filled(b: Seq<u8>, root: Seq<u8>, date: Seq<u8>) -> bool {
    &&& b.subrange(8, 14) == seq![70u8, 83, 50, 73, 83, 79]
    &&& forall|i: int| 14 <= i < 40 ==> #[trigger] b[i] == 32
    &&& forall|i: int| 72 <= i < 80 ==> #[trigger] b[i] == 0
    &&& b.subrange(156, 190) == root
    &&& forall|i: int| 190 <= i < 813 ==> #[trigger] b[i] == 32
    &&& b.subrange(813, 829) == date
    &&& b[829] == 0
    &&& b.subrange(830, 846) == date
    &&& forall|i: int| 846 <= i < 881 ==> #[trigger] b[i] == 0
    &&& b[881] == 1
    &&& forall|i: int| 882 <= i < 2048 ==> #[trigger] b[i] == 0
}

#[verifier::spinoff_prover]
#[verifier::rlimit(60)]
proof fn volume_head_parts(
    a: Seq<u8>,
    s: Seq<u8>,
    v: Seq<u8>,
    t: Seq<u8>,
    x: Seq<u8>,
    k: Seq<u8>,
    p: Seq<u8>,
    rest: Seq<u8>,
)
    requires
        a.len() == 8,
        s.len() == 32,
        v.len() == 32,
        t.len() == 8,
        x.len() == 32,
        k.len() == 12,
        p.len() == 24,
        rest.len() == 1892,
    ensures
        ({
            let b = a + s + v + zeros(8) + t + x + k + p + rest;
            &&& b.len() == 2048
            &&& b.subrange(0, 8) == a
            &&& b.subrange(8, 40) == s
            &&& b.subrange(40, 72) == v
            &&& forall|i: int| 72 <= i < 80 ==> #[trigger] b[i] == 0
            &&& b.subrange(80, 88) == t
            &&& b.subrange(88, 120) == x
            &&& b.subrange(120, 132) == k
            &&& b.subrange(132, 156) == p
            &&& b.subrange(156, 2048) == rest
        }),
{
    let b = a + s + v + zeros(8) + t + x + k + p + rest;
    assert(b.subrange(0, 8) =~= a);
    assert(b.subrange(8, 40) =~= s);
    assert(b.subrange(40, 72) =~= v);
    assert(b.subrange(80, 88) =~= t);
    assert(b.subrange(88, 120) =~= x);
    assert(b.subrange(120, 132) =~= k);
    assert(b.subrange(132, 156) =~= p);
    assert(b.subrange(156, 2048) =~= rest);
}

#[verifier::spinoff_prover]
#[verifier::rlimit(60)]
proof fn volume_tail_parts(root: Seq<u8>, date: Seq<u8>)
    requires
        root.len() == 34,
        date.len() == 16,
    ensures
        ({
            let b = root + fill(623, 32) + date + zeros(1) + date + zeros(1) + zeros(34)
                + seq![1u8] + zeros(1166);
            &&& b.len() == 1892
            &&& b.subrange(0, 34) == root
            &&& forall|i: int| 34 <= i < 657 ==> #[trigger] b[i] == 32
            &&& b.subrange(657, 673) == date
            &&& b[673] == 0
            &&& b.subrange(674, 690) == date
            &&& forall|i: int| 690 <= i < 725 ==> #[trigger] b[i] == 0
            &&& b[725] == 1
            &&& forall|i: int| 726 <= i < 1892 ==> #[trigger] b[i] == 0
        }),
{
    let b = root + fill(623, 32) + date + zeros(1) + date + zeros(1) + zeros(34) + seq![1u8]
        + zeros(1166);
    assert(b.subrange(0, 34) =~= root);
    assert(b.subrange(657, 673) =~= date);
    assert(b.subrange(674, 690) =~= date);
}

proof fn wide_read_back(x: int)
    requires
        0 <= x,
    ensures
        le32(x).len() == 4,
        be32(x).len() == 4,
        le32_at(le32(x), 0) == x % 0x1_0000_0000,
        be32_at(be32(x), 0) == x % 0x1_0000_0000,
{
    low32(x);
    le32_round_trip((x % 0x1_0000_0000) as u32);
}

#[verifier::spinoff_prover]
#[verifier::rlimit(60)]
proof fn sector_fields_read(b: Seq<u8>, total: u32, size: int, l: u32, m: u32)
    requires
        b.len() == 2048,
        0 <= size,
        b.subrange(80, 88) == both32_bytes(total as int),
        b.subrange(120, 132) == both16_bytes(1) + both16_bytes(1) + both16_bytes(2048),
        b.subrange(132, 156) == both32_bytes(size) + le32(l as int) + zeros(4) + be32(m as int)
            + zeros(4),
    ensures
        le32_at(b, 80) == total && be32_at(b, 84) == total,
        le16_at(b, 120) == 1 && be16_at(b, 122) == 1,
        le16_at(b, 124) == 1 && be16_at(b, 126) == 1,
        le16_at(b, 128) == 2048 && be16_at(b, 130) == 2048,
        le32_at(b, 132) == size % 0x1_0000_0000 && be32_at(b, 136) == size % 0x1_0000_0000,
        le32_at(b, 140) == l && be32_at(b, 148) == m,
        le32_at(b, 144) == 0 && be32_at(b, 152) == 0,
{
    both32_read_back(total);
    wide_read_back(size);
    le32_round_trip(l);
    le32_round_trip(m);
    low16_read_back(1);
    low16_read_back(2048);
    let t = b.subrange(80, 88);
    let k = b.subrange(120, 132);
    let p = b.subrange(132, 156);
    assert forall|i: int| 0 <= i < 8 implies #[trigger] t[i] == b[80 + i] by {}
    assert forall|i: int| 0 <= i < 12 implies #[trigger] k[i] == b[120 + i] by {}
    assert forall|i: int| 0 <= i < 24 implies #[trigger] p[i] == b[132 + i] by {}
    assert(k.subrange(0, 2) =~= le16(1));
    assert(k.subrange(2, 4) =~= be16(1));
    assert(k.subrange(4, 6) =~= le16(1));
    assert(k.subrange(6, 8) =~= be16(1));
    assert(k.subrange(8, 10) =~= le16(2048));
    assert(k.subrange(10, 12) =~= be16(2048));
    assert(p.subrange(0, 4) =~= le32(size));
    assert(p.subrange(4, 8) =~= be32(size));
    assert(p.subrange(8, 12) =~= le32(l as int));
    assert(p.subrange(12, 16) =~= zeros(4));
    assert(p.subrange(16, 20) =~= be32(m as int));
    assert(p.subrange(20, 24) =~= zeros(4));
    field_moves(k, 0);
    field_moves(k, 4);
    field_moves(k, 8);
    wide_field_moves(p, 0);
    wide_field_moves(p, 8);
    wide_field_moves(p, 16);
}

/// A 16-bit field reads the same in a part.
proof fn field_moves(k: Seq<u8>, o: int)
    requires
        0 <= o,
        o + 4 <= k.len(),
    ensures
        le16_at(k, o) == le16_at(k.subrange(o, o + 2), 0),
        be16_at(k, o + 2) == be16_at(k.subrange(o + 2, o + 4), 0),
{
}

/// A 32-bit field reads the same in a part.
proof fn wide_field_moves(k: Seq<u8>, o: int)
    requires
        0 <= o,
        o + 8 <= k.len(),
    ensures
        le32_at(k, o) == le32_at(k.subrange(o, o + 4), 0),
        be32_at(k, o) == be32_at(k.subrange(o, o + 4), 0),
        le32_at(k, o + 4) == le32_at(k.subrange(o + 4, o + 8), 0),
        be32_at(k, o + 4) == be32_at(k.subrange(o + 4, o + 8), 0),
{
}

#[verifier::spinoff_prover]
#[verifier::rlimit(60)]
proof fn volume_descriptor_reads(
    kind: u8,
    volume_id: Seq<u8>,
    escapes: Seq<u8>,
    root: Seq<u8>,
    pt: PtInfo,
    total: u32,
    now: u64,
)
    requires
        volume_id.len() == 32,
        escapes.len() == 32,
        root.len() == 34,
    ensures
        ({
            let b = volume_descriptor(kind, volume_id, escapes, root, pt, total, now);
            &&& volume_reads(
                b,
                kind,
                total as int,
                pt.size as int % 0x1_0000_0000,
                pt.le_lba as int,
                pt.be_lba as int,
            )
            &&& volume_filled(b, root, volume_date(now))
            &&& b.subrange(40, 72) == volume_id
            &&& b.subrange(88, 120) == escapes
        }),
{
    let date = volume_date(now);
    let b = volume_descriptor(kind, volume_id, escapes, root, pt, total, now);
    let a = seq![kind, 67u8, 68u8, 48u8, 48u8, 49u8, 1u8, 0u8];
    let s = seq![70u8, 83, 50, 73, 83, 79] + fill(26, 32);
    let t = both32_bytes(total as int);
    let k = both16_bytes(1) + both16_bytes(1) + both16_bytes(2048);
    let p = both32_bytes(pt.size as int) + le32(pt.le_lba as int) + zeros(4) + be32(
        pt.be_lba as int,
    ) + zeros(4);
    let rest = root + fill(623, 32) + date + zeros(1) + date + zeros(1) + zeros(34) + seq![1u8]
        + zeros(1166);
    volume_tail_parts(root, date);
    volume_head_parts(a, s, volume_id, t, escapes, k, p, rest);
    assert(b =~= a + s + volume_id + zeros(8) + t + escapes + k + p + rest);
    sector_fields_read(b, total, pt.size as int, pt.le_lba, pt.be_lba);
    let head = b.subrange(0, 8);
    assert forall|i: int| 0 <= i < 8 implies #[trigger] head[i] == b[i] by {}
    let system = b.subrange(8, 40);
    assert forall|i: int| 0 <= i < 32 implies #[trigger] system[i] == b[i + 8] by {}
    assert(b.subrange(8, 14) =~= seq![70u8, 83, 50, 73, 83, 79]) by {
        assert(system.subrange(0, 6) =~= seq![70u8, 83, 50, 73, 83, 79]);
    }
    assert forall|i: int| 14 <= i < 40 implies #[trigger] b[i] == 32 by {
        assert(system[i - 8] == 32);
    }
    tail_in_sector(b, rest, root, date);
}

proof fn tail_in_sector(b: Seq<u8>, rest: Seq<u8>, root: Seq<u8>, date: Seq<u8>)
    requires
        b.len() == 2048,
        root.len() == 34,
        date.len() == 16,
        b.subrange(156, 2048) == rest,
        rest.subrange(0, 34) == root,
        forall|i: int| 34 <= i < 657 ==> #[trigger] rest[i] == 32,
        rest.subrange(657, 673) == date,
        rest[673] == 0,
        rest.subrange(674, 690) == date,
        forall|i: int| 690 <= i < 725 ==> #[trigger] rest[i] == 0,
        rest[725] == 1,
        forall|i: int| 726 <= i < 1892 ==> #[trigger] rest[i] == 0,
    ensures
        b.subrange(156, 190) == root,
        forall|i: int| 190 <= i < 813 ==> #[trigger] b[i] == 32,
        b.subrange(813, 829) == date,
        b[829] == 0,
        b.subrange(830, 846) == date,
        forall|i: int| 846 <= i < 881 ==> #[trigger] b[i] == 0,
        b[881] == 1,
        forall|i: int| 882 <= i < 2048 ==> #[trigger] b[i] == 0,
{
    assert forall|i: int| 156 <= i < 2048 implies #[trigger] b[i] == rest[i - 156] by {}
    assert(b.subrange(156, 190) =~= rest.subrange(0, 34));
    assert(b.subrange(813, 829) =~= rest.subrange(657, 673));
    assert(b.subrange(830, 846) =~= rest.subrange(674, 690));
}

/// The sector `lba` of an image.
pub open spec fn sector_of(image: Seq<u8>, lba: int) -> Seq<u8> {
    image.subrange(lba * 2048, lba * 2048 + 2048)
}

/// What a primary descriptor tells.
#[verifier::spinoff_prover]
#[verifier::rlimit(60)]
proof fn base_volume_reads(
    v: TreeView,
    e: Seq<Extent>,
    plan: ImagePlan,
    boot: bool,
    joliet: bool,
    had: Seq<Extent>,
    label: Seq<u8>,
    now: u64,
)
    requires
        planned(v, e, plan, boot, joliet, had),
    ensures
        ({
            let b = namespace_descriptor(
                v,
                e,
                Ns::Base,
                label,
                plan.pt_base,
                plan.total_sectors,
                now,
            );
            let root = b.subrange(156, 190);
            &&& volume_reads(
                b,
                1,
                plan.total_sectors as int,
                plan.pt_base.size as int % 0x1_0000_0000,
                plan.pt_base.le_lba as int,
                plan.pt_base.be_lba as int,
            )
            &&& volume_filled(b, root, volume_date(now))
            &&& root[0] == 34
            &&& record_reads(
                root,
                seq![0u8],
                e[v.root as int].base_lba as int,
                e[v.root as int].sectors * 2048,
                true,
            )
            &&& forall|i: int|
                0 <= i < 32 ==> #[trigger] b[40 + i] == if i < label.len() {
                    label[i]
                } else {
                    32
                }
            &&& forall|i: int| 88 <= i < 120 ==> #[trigger] b[i] == 0
        }),
{
    let b = namespace_descriptor(v, e, Ns::Base, label, plan.pt_base, plan.total_sectors, now);
    let root = link_record(v, e, v.root, Ns::Base, dot_id());
    root_link(v, e, plan, boot, joliet, had, Ns::Base);
    assert(base_volume_id(label).len() == 32);
    volume_descriptor_reads(
        1,
        base_volume_id(label),
        zeros(32),
        root,
        plan.pt_base,
        plan.total_sectors,
        now,
    );
    base_name_reads(b, label);
}

/// The label in a primary descriptor, and no escape sequences.
proof fn base_name_reads(b: Seq<u8>, label: Seq<u8>)
    requires
        b.len() == 2048,
        b.subrange(40, 72) == base_volume_id(label),
        b.subrange(88, 120) == zeros(32),
    ensures
        forall|i: int|
            0 <= i < 32 ==> #[trigger] b[40 + i] == if i < label.len() {
                label[i]
            } else {
                32
            },
        forall|i: int| 88 <= i < 120 ==> #[trigger] b[i] == 0,
{
    let id = b.subrange(40, 72);
    assert forall|i: int| 0 <= i < 32 implies #[trigger] b[40 + i] == if i < label.len() {
        label[i]
    } else {
        32
    } by {
        assert(id[i] == b[40 + i]);
    }
    let escapes = b.subrange(88, 120);
    assert forall|i: int| 88 <= i < 120 implies #[trigger] b[i] == 0 by {
        assert(escapes[i - 88] == b[i]);
    }
}

/// The primary descriptor of a planned volume stands in sector 16: it tells the
/// sectors of the image, the label filled up with spaces, the root directory of
/// the base namespace, when the image was made, and where its path tables lie.
#[verifier::spinoff_prover]
#[verifier::rlimit(60)]
pub proof fn primary_descriptor_reads_back(
    v: TreeView,
    e: Seq<Extent>,
    plan: ImagePlan,
    boot: Option<usize>,
    joliet: bool,
    label: Seq<u8>,
    now: u64,
    contents: Seq<Vec<u8>>,
    had: Seq<Extent>,
)
    requires
        planned(v, e, plan, boot is Some, joliet, had),
        sizes_kept(v, contents),
    ensures
        ({
            let image = image_bytes(v, e, plan, boot, joliet, label, now, contents);
            let b = sector_of(image, 16);
            let root = b.subrange(156, 190);
            let l = le32_at(b, 140) * 2048;
            let m = be32_at(b, 148) * 2048;
            let table = path_table(v, e, Ns::Base, false);
            &&& 17 * 2048 <= image.len()
            &&& volume_reads(
                b,
                1,
                image.len() as int / 2048,
                table.len() as int % 0x1_0000_0000,
                l / 2048,
                m / 2048,
            )
            &&& volume_filled(b, root, volume_date(now))
            &&& root[0] == 34
            &&& record_reads(
                root,
                seq![0u8],
                e[v.root as int].base_lba as int,
                e[v.root as int].sectors * 2048,
                true,
            )
            &&& forall|i: int|
                0 <= i < 32 ==> #[trigger] b[40 + i] == if i < label.len() {
                    label[i]
                } else {
                    32
                }
            &&& forall|i: int| 88 <= i < 120 ==> #[trigger] b[i] == 0
            &&& l + table.len() <= image.len()
            &&& image.subrange(l, l + table.len()) == table
            &&& m + table.len() <= image.len()
            &&& image.subrange(m, m + table.len()) == path_table(v, e, Ns::Base, true)
        }),
{
    let image = image_bytes(v, e, plan, boot, joliet, label, now, contents);
    let d = namespace_descriptor(v, e, Ns::Base, label, plan.pt_base, plan.total_sectors, now);
    let b = sector_of(image, 16);
    descriptors_in_place(v, e, plan, boot, joliet, label, now, contents);
    parts_stand_as_planned(v, e, plan, boot, joliet, label, now, contents, had);
    descriptor_len(v, e, Ns::Base, label, plan.pt_base, plan.total_sectors, now);
    assert(b == d);
    base_volume_reads(v, e, plan, boot is Some, joliet, had, label, now);
    path_table_size_as_planned(v, e, Ns::Base, false);
    path_table_size_as_planned(v, e, Ns::Base, true);
    table_stands(image, plan.pt_base.le_lba as int, path_table(v, e, Ns::Base, false));
    table_stands(image, plan.pt_base.be_lba as int, path_table(v, e, Ns::Base, true));
}

/// What stands in whole sectors stands there without its padding.
proof fn table_stands(image: Seq<u8>, lba: int, table: Seq<u8>)
    requires
        stands_at(image, lba, pad_sector(table)),
    ensures
        lba * 2048 + table.len() <= image.len(),
        image.subrange(lba * 2048, lba * 2048 + table.len()) == table,
{
    let padded = pad_sector(table);
    let part = image.subrange(lba * 2048, lba * 2048 + padded.len());
    assert(image.subrange(lba * 2048, lba * 2048 + table.len()) =~= part.take(table.len() as int));
    pad_sector_len(table);
}

/// The record of the root directory in a descriptor.
proof fn root_link(
    v: TreeView,
    e: Seq<Extent>,
    plan: ImagePlan,
    boot: bool,
    joliet: bool,
    had: Seq<Extent>,
    ns: Ns,
)
    requires
        planned(v, e, plan, boot, joliet, had),
        ns == Ns::Jol ==> joliet,
    ensures
        ({
            let root = link_record(v, e, v.root, ns, dot_id());
            &&& root.len() == 34
            &&& root[0] == 34
            &&& record_reads(
                root,
                seq![0u8],
                e[v.root as int].lba(ns) as int,
                e[v.root as int].block(ns) * 2048,
                true,
            )
        }),
{
    dir_order_facts(v, ns);
    assert(v.dir_order(ns).contains(v.root));
    link_record_facts(v, e, v.root, ns, dot_id());
    record_facts(
        e[v.root as int].lba(ns),
        e[v.root as int].block_bytes(ns) as u32,
        true,
        v.nodes[v.root as int].mtime,
        dot_id(),
    );
}

/// The label and the escape sequences in a Joliet descriptor.
proof fn joliet_name_reads(b: Seq<u8>, label: Seq<u8>)
    requires
        b.len() == 2048,
        b.subrange(40, 72) == joliet_volume_id(label),
        b.subrange(88, 120) == joliet_escapes(),
    ensures
        forall|i: int|
            0 <= i < 16 ==> #[trigger] be16_at(b, 40 + 2 * i) == if i < label.len() {
                label[i] as int
            } else {
                0
            },
        b.subrange(88, 97) == seq![37u8, 47, 64, 37, 47, 67, 37, 47, 69],
        forall|i: int| 97 <= i < 120 ==> #[trigger] b[i] == 0,
{
    let id = b.subrange(40, 72);
    assert forall|i: int| 0 <= i < 16 implies #[trigger] be16_at(b, 40 + 2 * i) == if i
        < label.len() {
        label[i] as int
    } else {
        0
    } by {
        assert(id[2 * i] == b[40 + 2 * i]);
        assert(id[2 * i + 1] == b[40 + 2 * i + 1]);
    }
    let escapes = b.subrange(88, 120);
    assert(b.subrange(88, 97) =~= escapes.subrange(0, 9));
    assert(escapes.subrange(0, 9) =~= seq![37u8, 47, 64, 37, 47, 67, 37, 47, 69]);
    assert forall|i: int| 97 <= i < 120 implies #[trigger] b[i] == 0 by {
        assert(escapes[i - 88] == b[i]);
    }
}

/// What a Joliet descriptor tells.
#[verifier::spinoff_prover]
#[verifier::rlimit(60)]
proof fn joliet_volume_reads(
    v: TreeView,
    e: Seq<Extent>,
    plan: ImagePlan,
    boot: bool,
    had: Seq<Extent>,
    label: Seq<u8>,
    now: u64,
)
    requires
        planned(v, e, plan, boot, true, had),
    ensures
        ({
            let b = namespace_descriptor(
                v,
                e,
                Ns::Jol,
                label,
                plan.pt_jol,
                plan.total_sectors,
                now,
            );
            let root = b.subrange(156, 190);
            &&& volume_reads(
                b,
                2,
                plan.total_sectors as int,
                plan.pt_jol.size as int % 0x1_0000_0000,
                plan.pt_jol.le_lba as int,
                plan.pt_jol.be_lba as int,
            )
            &&& volume_filled(b, root, volume_date(now))
            &&& root[0] == 34
            &&& record_reads(
                root,
                seq![0u8],
                e[v.root as int].jol_lba as int,
                e[v.root as int].jol_sectors * 2048,
                true,
            )
            &&& forall|i: int|
                0 <= i < 16 ==> #[trigger] be16_at(b, 40 + 2 * i) == if i < label.len() {
                    label[i] as int
                } else {
                    0
                }
            &&& b.subrange(88, 97) == seq![37u8, 47, 64, 37, 47, 67, 37, 47, 69]
            &&& forall|i: int| 97 <= i < 120 ==> #[trigger] b[i] == 0
        }),
{
    let b = namespace_descriptor(v, e, Ns::Jol, label, plan.pt_jol, plan.total_sectors, now);
    let root = link_record(v, e, v.root, Ns::Jol, dot_id());
    root_link(v, e, plan, boot, true, had, Ns::Jol);
    assert(joliet_volume_id(label).len() == 32);
    assert(joliet_escapes().len() == 32);
    volume_descriptor_reads(
        2,
        joliet_volume_id(label),
        joliet_escapes(),
        root,
        plan.pt_jol,
        plan.total_sectors,
        now,
    );
    joliet_name_reads(b, label);
}

/// The Joliet descriptor of a planned volume stands in sector 17: it carries
/// the escape sequences "%/@%/C%/E", the label with two bytes for each
/// character, and tells of the Joliet root directory and path tables what the
/// primary one tells of the base namespace.
#[verifier::spinoff_prover]
#[verifier::rlimit(60)]
pub proof fn joliet_descriptor_reads_back(
    v: TreeView,
    e: Seq<Extent>,
    plan: ImagePlan,
    boot: Option<usize>,
    label: Seq<u8>,
    now: u64,
    contents: Seq<Vec<u8>>,
    had: Seq<Extent>,
)
    requires
        planned(v, e, plan, boot is Some, true, had),
        sizes_kept(v, contents),
    ensures
        ({
            let image = image_bytes(v, e, plan, boot, true, label, now, contents);
            let b = sector_of(image, 17);
            let root = b.subrange(156, 190);
            let l = le32_at(b, 140) * 2048;
            let m = be32_at(b, 148) * 2048;
            let table = path_table(v, e, Ns::Jol, false);
            &&& 18 * 2048 <= image.len()
            &&& volume_reads(
                b,
                2,
                image.len() as int / 2048,
                table.len() as int % 0x1_0000_0000,
                l / 2048,
                m / 2048,
            )
            &&& volume_filled(b, root, volume_date(now))
            &&& root[0] == 34
            &&& record_reads(
                root,
                seq![0u8],
                e[v.root as int].jol_lba as int,
                e[v.root as int].jol_sectors * 2048,
                true,
            )
            &&& forall|i: int|
                0 <= i < 16 ==> #[trigger] be16_at(b, 40 + 2 * i) == if i < label.len() {
                    label[i] as int
                } else {
                    0
                }
            &&& b.subrange(88, 97) == seq![37u8, 47, 64, 37, 47, 67, 37, 47, 69]
            &&& forall|i: int| 97 <= i < 120 ==> #[trigger] b[i] == 0
            &&& l + table.len() <= image.len()
            &&& image.subrange(l, l + table.len()) == table
            &&& m + table.len() <= image.len()
            &&& image.subrange(m, m + table.len()) == path_table(v, e, Ns::Jol, true)
        }),
{
    let image = image_bytes(v, e, plan, boot, true, label, now, contents);
    let d = namespace_descriptor(v, e, Ns::Jol, label, plan.pt_jol, plan.total_sectors, now);
    let b = sector_of(image, 17);
    descriptors_in_place(v, e, plan, boot, true, label, now, contents);
    parts_stand_as_planned(v, e, plan, boot, true, label, now, contents, had);
    descriptor_len(v, e, Ns::Jol, label, plan.pt_jol, plan.total_sectors, now);
    assert(b == d);
    joliet_volume_reads(v, e, plan, boot is Some, had, label, now);
    path_table_size_as_planned(v, e, Ns::Jol, false);
    path_table_size_as_planned(v, e, Ns::Jol, true);
    table_stands(image, plan.pt_jol.le_lba as int, path_table(v, e, Ns::Jol, false));
    table_stands(image, plan.pt_jol.be_lba as int, path_table(v, e, Ns::Jol, true));
}

/// The first 16 sectors of a volume are zero.
pub proof fn system_area_is_zero(
    v: TreeView,
    e: Seq<Extent>,
    plan: ImagePlan,
    boot: Option<usize>,
    joliet: bool,
    label: Seq<u8>,
    now: u64,
    contents: Seq<Vec<u8>>,
)
    ensures
        ({
            let image = image_bytes(v, e, plan, boot, joliet, label, now, contents);
            &&& image.len() >= 32768
            &&& forall|i: int| 0 <= i < 32768 ==> #[trigger] image[i] == 0
        }),
{
    reveal(descriptors_bytes);
}

/// One for what is there, and nothing for what is not.
pub open spec fn one_if(there: bool) -> int {
    if there {
        1
    } else {
        0
    }
}

/// The descriptors of a planned volume end with a terminator: behind the
/// primary one, the Joliet one and the boot record, where there are such.
#[verifier::spinoff_prover]
#[verifier::rlimit(60)]
pub proof fn terminator_reads_back(
    v: TreeView,
    e: Seq<Extent>,
    plan: ImagePlan,
    boot: Option<usize>,
    joliet: bool,
    label: Seq<u8>,
    now: u64,
    contents: Seq<Vec<u8>>,
    had: Seq<Extent>,
)
    requires
        planned(v, e, plan, boot is Some, joliet, had),
        sizes_kept(v, contents),
    ensures
        ({
            let image = image_bytes(v, e, plan, boot, joliet, label, now, contents);
            let at = 17 + one_if(joliet) + one_if(boot is Some);
            let b = sector_of(image, at);
            &&& (at + 1) * 2048 <= image.len()
            &&& b.subrange(0, 7) == seq![255u8, 67, 68, 48, 48, 49, 1]
            &&& forall|i: int| 7 <= i < 2048 ==> #[trigger] b[i] == 0
        }),
{
    let image = image_bytes(v, e, plan, boot, joliet, label, now, contents);
    descriptors_in_place(v, e, plan, boot, joliet, label, now, contents);
    terminator_len();
    terminator_reads();
    assert(plan.term_lba == 17 + one_if(joliet) + one_if(boot is Some));
    let b = sector_of(image, plan.term_lba as int);
    assert(b == terminator_bytes());
}

proof fn terminator_reads()
    ensures
        terminator_bytes().subrange(0, 7) == seq![255u8, 67, 68, 48, 48, 49, 1],
        forall|i: int| 7 <= i < 2048 ==> #[trigger] terminator_bytes()[i] == 0,
{
    assert(terminator_bytes().subrange(0, 7) =~= seq![255u8, 67, 68, 48, 48, 49, 1]);
}

/// A bootable volume is found bootable: behind the primary and the Joliet
/// descriptor stands a boot record with the name "EL TORITO SPECIFICATION" and
/// the sector of the boot catalog. The catalog starts with a validation entry
/// for the EFI platform, whose 16-bit words sum to 0 modulo 2^16 and whose key
/// bytes are 55 AA. Its initial entry is bootable without emulation, counts the
/// 512-byte sectors of the boot file, at most 65535, and names the sector where
/// the contents of that file stand. The rest of the catalog is zero.
#[verifier::spinoff_prover]
#[verifier::rlimit(60)]
pub proof fn boot_entry_reads_back(
    v: TreeView,
    e: Seq<Extent>,
    plan: ImagePlan,
    joliet: bool,
    label: Seq<u8>,
    now: u64,
    contents: Seq<Vec<u8>>,
    had: Seq<Extent>,
    n: usize,
    i: int,
)
    requires
        planned(v, e, plan, true, joliet, had),
        sizes_kept(v, contents),
        0 <= i < contents.len(),
        n == v.file_order()[i],
    ensures
        ({
            let image = image_bytes(v, e, plan, Some(n), joliet, label, now, contents);
            let r = sector_of(image, 17 + one_if(joliet));
            let at = le32_at(r, 71);
            let c = sector_of(image, at);
            let count = le16_at(c, 38);
            let lba = le32_at(c, 40);
            let size = contents[i]@.len() as int;
            &&& r.subrange(0, 7) == seq![0u8, 67, 68, 48, 48, 49, 1]
            &&& r.subrange(7, 30) == seq![
                69u8,
                76,
                32,
                84,
                79,
                82,
                73,
                84,
                79,
                32,
                83,
                80,
                69,
                67,
                73,
                70,
                73,
                67,
                65,
                84,
                73,
                79,
                78,
            ]
            &&& forall|k: int| 30 <= k < 71 || 75 <= k < 2048 ==> #[trigger] r[k] == 0
            &&& at == plan.catalog_lba
            &&& (at + 1) * 2048 <= image.len()
            &&& c[0] == 1 && c[1] == 0xEF && c[30] == 0x55 && c[31] == 0xAA
            &&& c.subrange(4, 10) == seq![70u8, 83, 50, 73, 83, 79]
            &&& (le16_at(c, 0) + le16_at(c, 2) + le16_at(c, 4) + le16_at(c, 6) + le16_at(c, 8)
                + le16_at(c, 10) + le16_at(c, 12) + le16_at(c, 14) + le16_at(c, 16) + le16_at(
                c,
                18,
            ) + le16_at(c, 20) + le16_at(c, 22) + le16_at(c, 24) + le16_at(c, 26) + le16_at(c, 28)
                + le16_at(c, 30)) % 0x1_0000 == 0
            &&& c[32] == 0x88
            &&& c[33] == 0
            &&& forall|k: int| 34 <= k < 38 || 44 <= k < 2048 ==> #[trigger] c[k] == 0
            &&& if size <= 65535 * 512 {
                (count - 1) * 512 < size <= count * 512
            } else {
                count == 65535
            }
            &&& lba == e[n as int].base_lba
            &&& lba * 2048 + size <= image.len()
            &&& image.subrange(lba * 2048, lba * 2048 + size) == contents[i]@
        }),
{
    let image = image_bytes(v, e, plan, Some(n), joliet, label, now, contents);
    let size = v.nodes[n as int].size;
    let lba = e[n as int].base_lba;
    descriptors_in_place(v, e, plan, Some(n), joliet, label, now, contents);
    boot_record_len(plan.catalog_lba);
    catalog_checksum_is_zero(lba, size);
    assert(plan.boot_rec_lba == 17 + one_if(joliet));
    let r = sector_of(image, plan.boot_rec_lba as int);
    let c = sector_of(image, plan.catalog_lba as int);
    assert(r == boot_record(plan.catalog_lba));
    assert(c == boot_catalog_bytes(lba, size));
    boot_record_reads(plan.catalog_lba);
    catalog_reads(lba, size);
    file_in_place(v, e, plan, Some(n), joliet, label, now, contents, had, i);
    assert(size_kept(v, contents, i));
}

proof fn boot_record_reads(catalog: u32)
    ensures
        ({
            let r = boot_record(catalog);
            &&& r.subrange(0, 7) == seq![0u8, 67, 68, 48, 48, 49, 1]
            &&& r.subrange(7, 30) == seq![
                69u8,
                76,
                32,
                84,
                79,
                82,
                73,
                84,
                79,
                32,
                83,
                80,
                69,
                67,
                73,
                70,
                73,
                67,
                65,
                84,
                73,
                79,
                78,
            ]
            &&& forall|k: int| 30 <= k < 71 || 75 <= k < 2048 ==> #[trigger] r[k] == 0
            &&& le32_at(r, 71) == catalog
        }),
{
    let r = boot_record(catalog);
    le32_round_trip(catalog);
    assert(r.subrange(0, 7) =~= seq![0u8, 67, 68, 48, 48, 49, 1]);
    assert(r.subrange(7, 30) =~= el_torito());
    let field = r.subrange(71, 75);
    assert(field =~= le32(catalog as int));
    assert forall|k: int| 0 <= k < 4 implies #[trigger] field[k] == r[71 + k] by {}
}

#[verifier::spinoff_prover]
#[verifier::rlimit(60)]
proof fn catalog_reads(lba: u32, size: u64)
    ensures
        ({
            let c = boot_catalog_bytes(lba, size);
            let count = le16_at(c, 38);
            &&& c.len() == 2048
            &&& c[0] == 1 && c[1] == 0xEF && c[30] == 0x55 && c[31] == 0xAA
            &&& c.subrange(4, 10) == seq![70u8, 83, 50, 73, 83, 79]
            &&& (le16_at(c, 0) + le16_at(c, 2) + le16_at(c, 4) + le16_at(c, 6) + le16_at(c, 8)
                + le16_at(c, 10) + le16_at(c, 12) + le16_at(c, 14) + le16_at(c, 16) + le16_at(
                c,
                18,
            ) + le16_at(c, 20) + le16_at(c, 22) + le16_at(c, 24) + le16_at(c, 26) + le16_at(c, 28)
                + le16_at(c, 30)) % 0x1_0000 == 0
            &&& c[32] == 0x88
            &&& c[33] == 0
            &&& forall|k: int| 34 <= k < 38 || 44 <= k < 2048 ==> #[trigger] c[k] == 0
            &&& if size <= 65535 * 512 {
                (count - 1) * 512 < size <= count * 512
            } else {
                count == 65535
            }
            &&& le32_at(c, 40) == lba
        }),
{
    let c = boot_catalog_bytes(lba, size);
    let check = validation_entry(validation_checksum());
    let n = load_count(size);
    catalog_checksum_is_zero(lba, size);
    assert(check.len() == 32);
    assert(c.take(32) =~= check);
    assert(c.subrange(4, 10) =~= seq![70u8, 83, 50, 73, 83, 79]);
    catalog_words(c);
    low16_read_back(n);
    le32_round_trip(lba);
    let counted = c.subrange(38, 40);
    assert(counted =~= le16(n));
    assert(counted[0] == c[38] && counted[1] == c[39]);
    let start = c.subrange(40, 44);
    assert(start =~= le32(lba as int));
    assert forall|k: int| 0 <= k < 4 implies #[trigger] start[k] == c[40 + k] by {}
    assert(0 <= n <= 65535);
}

proof fn catalog_words(c: Seq<u8>)
    requires
        c.len() >= 32,
        word_sum(c.take(32), 16) % 0x1_0000 == 0,
    ensures
        (le16_at(c, 0) + le16_at(c, 2) + le16_at(c, 4) + le16_at(c, 6) + le16_at(c, 8) + le16_at(
            c,
            10,
        ) + le16_at(c, 12) + le16_at(c, 14) + le16_at(c, 16) + le16_at(c, 18) + le16_at(c, 20)
            + le16_at(c, 22) + le16_at(c, 24) + le16_at(c, 26) + le16_at(c, 28) + le16_at(c, 30))
            % 0x1_0000 == 0,
{
    let b = c.take(32);
    reveal_with_fuel(word_sum, 17);
    assert forall|k: int| 0 <= k < 31 implies #[trigger] le16_at(b, k) == le16_at(c, k) by {}
}

} // verus!
