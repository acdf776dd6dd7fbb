//! What the path tables of a conforming image tell of its directories.
use vstd::prelude::*;
use crate::bytes::{
    be16, be16_at, be32, be32_at, both16_bytes, both32_bytes, ceil_div_spec, le16, le16_at, le32,
    le32_at, le32_round_trip, low16, low32, low_byte, numbers_are_spread, quotients_are_rounded_up,
};
use crate::iso_fix::{
    boot_record_at, conformed, dir_end, dir_trouble, efi_changes_entry_only,
    efi_entry_sums_to_zero, find_boot_record, holds_id, ids_of, is_subdir, kids_of, level_below, levels_from,
    list_trouble, positions, raw_offsets, records_of, root_level, size_fits, subdirs_at, table_of,
    tables_are_appended, tables_have_one_length, with_efi, with_tables, ConformError, TableDirView,
};
use crate::order::{lex_le, sort_items, sort_items_facts};
use crate::readback::entry_reads;
use crate::render::{path_entry, word_sum};

verus! {

// ---------------------------------------------------------------------------
// records of a directory
// ---------------------------------------------------------------------------

/// Whether a reader of the directory from `start` to `end` stands at these
/// offsets one after the other: at each there is room for 33 bytes; it goes on
/// behind a record by the length that its first byte tells, which does not lead
/// past the end, and to the next sector of 2048 bytes where that byte is zero.
pub open spec fn steps(img: Seq<u8>, start: int, end: int, at: Seq<int>) -> bool {
    &&& at.len() > 0
    &&& at[0] == start
    &&& forall|i: int|
        0 <= i < at.len() ==> (#[trigger] at[i]) + 33 <= end && at[i] + img[at[i]] <= end
    &&& forall|i: int, j: int|
        0 <= i < at.len() - 1 && j == i + 1 ==> #[trigger] at[j] == if img[#[trigger] at[i]] == 0 {
            at[i] - at[i] % 2048 + 2048
        } else {
            at[i] + img[at[i]]
        }
}

/// Whether a reader of a directory comes to a record at `o`.
pub open spec fn comes_to(img: Seq<u8>, start: int, end: int, o: int) -> bool {
    exists|at: Seq<int>| #[trigger] steps(img, start, end, at) && at.last() == o && img[o] != 0
}

/// The records of a directory are those that a reader comes to.
pub proof fn records_are_walked(img: Seq<u8>, start: int, end: int, o: int)
    requires
        0 <= start,
    ensures
        raw_offsets(img, start, end).contains(o) <==> comes_to(img, start, end, o),
{
    if raw_offsets(img, start, end).contains(o) {
        offsets_are_walked(img, start, end, o);
    }
    if comes_to(img, start, end, o) {
        let at = choose|at: Seq<int>| #[trigger]
            steps(img, start, end, at) && at.last() == o && img[o] != 0;
        walked_is_offset(img, start, end, at);
    }
}

proof fn offsets_are_walked(img: Seq<u8>, pos: int, end: int, o: int)
    requires
        0 <= pos,
        raw_offsets(img, pos, end).contains(o),
    ensures
        comes_to(img, pos, end, o),
    decreases end + 2048 - pos,
{
    let all = raw_offsets(img, pos, end);
    let next = if img[pos] == 0 {
        (pos / 2048 + 1) * 2048
    } else {
        pos + img[pos]
    };
    if img[pos] != 0 && all[0] == o {
        assert(steps(img, pos, end, seq![pos]));
        assert(seq![pos].last() == o);
    } else {
        let rest = raw_offsets(img, next, end);
        assert(rest.contains(o)) by {
            let k = choose|k: int| 0 <= k < all.len() && all[k] == o;
            if img[pos] != 0 {
                assert(all == seq![pos] + rest);
                assert(rest[k - 1] == o);
            }
        }
        offsets_are_walked(img, next, end, o);
        let at = choose|at: Seq<int>| #[trigger]
            steps(img, next, end, at) && at.last() == o && img[o] != 0;
        let more = seq![pos] + at;
        assert(next == if img[pos] == 0 {
            pos - pos % 2048 + 2048
        } else {
            pos + img[pos]
        });
        assert forall|i: int| 0 <= i < more.len() implies (#[trigger] more[i]) + 33 <= end && more[i]
            + img[more[i]] <= end by {
            if i > 0 {
                assert(more[i] == at[i - 1]);
            }
        }
        assert forall|i: int, j: int| 0 <= i < more.len() - 1 && j == i + 1 implies #[trigger] more[j]
            == if img[#[trigger] more[i]] == 0 {
            more[i] - more[i] % 2048 + 2048
        } else {
            more[i] + img[more[i]]
        } by {
            assert(more[j] == at[j - 1]);
            if i > 0 {
                assert(more[i] == at[i - 1]);
            }
        }
        assert(steps(img, pos, end, more));
        assert(more.last() == o);
    }
}

proof fn walked_is_offset(img: Seq<u8>, start: int, end: int, at: Seq<int>)
    requires
        0 <= start,
        steps(img, start, end, at),
        img[at.last()] != 0,
    ensures
        raw_offsets(img, start, end).contains(at.last()),
    decreases at.len(),
{
    let all = raw_offsets(img, start, end);
    assert(at[0] + 33 <= end);
    if at.len() == 1 {
        assert(all[0] == start);
    } else {
        let rest = at.drop_first();
        let next = at[1];
        assert(at[1] == if img[at[0]] == 0 {
            at[0] - at[0] % 2048 + 2048
        } else {
            at[0] + img[at[0]]
        });
        assert forall|i: int| 0 <= i < rest.len() implies (#[trigger] rest[i]) + 33 <= end && rest[i]
            + img[rest[i]] <= end by {
            assert(rest[i] == at[i + 1]);
        }
        assert forall|i: int, j: int| 0 <= i < rest.len() - 1 && j == i + 1 implies #[trigger] rest[j]
            == if img[#[trigger] rest[i]] == 0 {
            rest[i] - rest[i] % 2048 + 2048
        } else {
            rest[i] + img[rest[i]]
        } by {
            assert(rest[i] == at[i + 1]);
            assert(rest[j] == at[j + 1]);
        }
        assert(steps(img, next, end, rest));
        walked_is_offset(img, next, end, rest);
        let less = raw_offsets(img, next, end);
        let k = choose|k: int| 0 <= k < less.len() && less[k] == at.last();
        if img[start] == 0 {
            assert(all == less);
        } else {
            assert(all == seq![start] + less);
            assert(all[k + 1] == at.last());
        }
    }
}

// ---------------------------------------------------------------------------
// the list of directories
// ---------------------------------------------------------------------------

/// Whether the record at `o` is that of directory `d`: a directory, neither the
/// directory itself nor its parent, with this identifier, extent and length.
pub open spec fn names_dir(img: Seq<u8>, o: int, d: TableDirView) -> bool {
    &&& img[o + 25] & 2 != 0
    &&& d.id == img.subrange(o + 33, o + 33 + img[o + 32])
    &&& d.id != seq![0u8]
    &&& d.id != seq![1u8]
    &&& d.lba == img[o + 2] + 256 * img[o + 3] + 65536 * img[o + 4] + 16777216 * img[o + 5]
    &&& d.len == img[o + 10] + 256 * img[o + 11] + 65536 * img[o + 12] + 16777216 * img[o + 13]
}

/// Whether directory `d` lists a record of directory `sub`.
pub open spec fn lists_dir(img: Seq<u8>, d: TableDirView, sub: TableDirView) -> bool {
    exists|k: int|
        0 <= k < records_of(img, d.lba, d.len).len() && names_dir(
            img,
            #[trigger] records_of(img, d.lba, d.len)[k],
            sub,
        )
}

proof fn subdirs_are_named(img: Seq<u8>, offs: Seq<int>, up: nat, i: int) -> (k: int)
    requires
        0 <= i < subdirs_at(img, offs, up).len(),
    ensures
        subdirs_at(img, offs, up)[i].up == up,
        0 <= k < offs.len(),
        names_dir(img, offs[k], subdirs_at(img, offs, up)[i]),
    decreases offs.len(),
{
    let less = subdirs_at(img, offs.drop_last(), up);
    if i < less.len() {
        let k = subdirs_are_named(img, offs.drop_last(), up, i);
        assert(offs.drop_last()[k] == offs[k]);
        k
    } else {
        offs.len() - 1
    }
}

proof fn kids_facts(img: Seq<u8>, d: TableDirView, no: nat)
    ensures
        forall|i: int|
            0 <= i < kids_of(img, d, no).len() ==> (#[trigger] kids_of(img, d, no)[i]).up == no
                && lists_dir(img, d, kids_of(img, d, no)[i]),
        forall|i: int, j: int|
            0 <= i <= j < kids_of(img, d, no).len() ==> lex_le(
                (#[trigger] kids_of(img, d, no)[i]).id,
                (#[trigger] kids_of(img, d, no)[j]).id,
            ),
        kids_of(img, d, no).to_multiset() == subdirs_at(
            img,
            records_of(img, d.lba, d.len),
            no,
        ).to_multiset(),
{
    let offs = records_of(img, d.lba, d.len);
    let own = subdirs_at(img, offs, no);
    let kids = kids_of(img, d, no);
    let order = sort_items(positions(own.len()), ids_of(own));
    few_records(img, d.lba * 2048, dir_end(img, d.lba, d.len));
    few_subdirs(img, offs, no);
    sort_items_facts(positions(own.len()), ids_of(own));
    assert forall|i: int| 0 <= i < kids.len() implies (#[trigger] kids[i]).up == no && lists_dir(
        img,
        d,
        kids[i],
    ) by {
        assert(order.contains(order[i]));
        assert(positions(own.len()).contains(order[i]));
        let j = order[i] as int;
        assert(kids[i] == own[j]);
        let k = subdirs_are_named(img, offs, no, j);
        assert(names_dir(img, records_of(img, d.lba, d.len)[k], kids[i]));
    }
    assert forall|i: int, j: int| 0 <= i <= j < kids.len() implies lex_le(
        (#[trigger] kids[i]).id,
        (#[trigger] kids[j]).id,
    ) by {
        assert(kids[i] == own[order[i] as int]);
        assert(kids[j] == own[order[j] as int]);
        assert(lex_le(ids_of(own)(order[i]), ids_of(own)(order[j])));
    }
    assert(positions(own.len()).map_values(|i: usize| own[i as int]) =~= own);
    same_items_map(order, positions(own.len()), |i: usize| own[i as int]);
}

/// A directory has no more records than bytes.
proof fn few_records(img: Seq<u8>, pos: int, end: int)
    ensures
        raw_offsets(img, pos, end).len() == 0 || raw_offsets(img, pos, end).len() <= end - pos,
    decreases end + 2048 - pos,
{
    if !(pos < 0 || pos + 33 > end) {
        if img[pos] == 0 {
            few_records(img, (pos / 2048 + 1) * 2048, end);
        } else if pos + img[pos] <= end {
            few_records(img, pos + img[pos], end);
        }
    }
}

proof fn few_subdirs(img: Seq<u8>, offs: Seq<int>, up: nat)
    ensures
        subdirs_at(img, offs, up).len() <= offs.len(),
    decreases offs.len(),
{
    if offs.len() > 0 {
        few_subdirs(img, offs.drop_last(), up);
    }
}

/// What becomes of the same items is the same.
proof fn same_items_map<A, B>(a: Seq<A>, b: Seq<A>, f: spec_fn(A) -> B)
    requires
        a.to_multiset() == b.to_multiset(),
    ensures
        a.map_values(f).to_multiset() == b.map_values(f).to_multiset(),
    decreases a.len(),
{
    broadcast use vstd::seq_lib::group_to_multiset_ensures;

    assert(a.len() == a.to_multiset().len());
    assert(b.len() == b.to_multiset().len());
    if a.len() == 0 {
        assert(a.map_values(f) =~= b.map_values(f));
    } else {
        let x = a.last();
        let d = a.drop_last();
        assert(a =~= d.push(x));
        assert(b.to_multiset().count(x) > 0);
        let i = choose|i: int| 0 <= i < b.len() && b[i] == x;
        let r = b.remove(i);
        assert(r.to_multiset() =~= d.to_multiset());
        same_items_map(d, r, f);
        assert(a.map_values(f) =~= d.map_values(f).push(f(x)));
        assert(r.map_values(f) =~= b.map_values(f).remove(i));
        assert(b.map_values(f).to_multiset() =~= r.map_values(f).to_multiset().insert(f(x)));
    }
}

/// The directories of a list under parent number `up`.
pub open spec fn under(list: Seq<TableDirView>, up: int) -> Seq<TableDirView> {
    list.filter(|d: TableDirView| d.up == up)
}

proof fn all_under(list: Seq<TableDirView>, up: int)
    ensures
        (forall|i: int| 0 <= i < list.len() ==> (#[trigger] list[i]).up == up) ==> under(list, up)
            == list,
        (forall|i: int| 0 <= i < list.len() ==> (#[trigger] list[i]).up != up) ==> under(list, up)
            == Seq::<TableDirView>::empty(),
    decreases list.len(),
{
    reveal(Seq::filter);
    if list.len() > 0 {
        let less = list.drop_last();
        all_under(less, up);
        assert(list =~= less.push(list.last()));
        assert(forall|i: int| 0 <= i < less.len() ==> #[trigger] less[i] == list[i]);
    }
}

proof fn under_joins(a: Seq<TableDirView>, b: Seq<TableDirView>, up: int)
    ensures
        under(a + b, up) == under(a, up) + under(b, up),
{
    Seq::filter_distributes_over_add(a, b, |d: TableDirView| d.up == up);
}

/// Whether directories stand in the order of a path table: by the number of the
/// parent, and under one parent by identifier.
pub open spec fn in_table_order(list: Seq<TableDirView>) -> bool {
    forall|i: int, j: int|
        0 <= i <= j < list.len() ==> (#[trigger] list[i]).up <= (#[trigger] list[j]).up && (
        list[i].up == list[j].up ==> lex_le(list[i].id, list[j].id))
}

/// Whether the directories of `list` from `n` on are listed by the directory
/// of their parent number, where `dirs` are numbered from `first` on.
spec fn listed_by(
    img: Seq<u8>,
    dirs: Seq<TableDirView>,
    list: Seq<TableDirView>,
    first: int,
    n: int,
) -> bool {
    forall|i: int| n <= i < list.len() ==> #[trigger] listed_at(img, dirs, list[i], first, i)
}

/// Whether a directory at place `i` is listed by one of `dirs` before it.
spec fn listed_at(
    img: Seq<u8>,
    dirs: Seq<TableDirView>,
    d: TableDirView,
    first: int,
    i: int,
) -> bool {
    &&& first <= d.up < first + dirs.len()
    &&& lists_dir(img, dirs[d.up - first], d)
}

/// Whether the directories under each of `dirs` in `list` are its own.
spec fn own_under(img: Seq<u8>, dirs: Seq<TableDirView>, list: Seq<TableDirView>, first: int) -> bool {
    forall|p: int|
        #![trigger dirs[p]]
        0 <= p < dirs.len() ==> under(list, first + p) == kids_of(
            img,
            dirs[p],
            (first + p) as nat,
        )
}

/// Whether the parent numbers of `list` lie from `a` up to `b`.
spec fn ups_within(list: Seq<TableDirView>, a: int, b: int) -> bool {
    forall|i: int| 0 <= i < list.len() ==> a <= (#[trigger] list[i]).up < b
}

proof fn orders_join(a: Seq<TableDirView>, b: Seq<TableDirView>, k: int)
    requires
        in_table_order(a),
        in_table_order(b),
        forall|i: int| 0 <= i < a.len() ==> (#[trigger] a[i]).up < k,
        forall|i: int| 0 <= i < b.len() ==> k <= (#[trigger] b[i]).up,
    ensures
        in_table_order(a + b),
{
    let c = a + b;
    assert forall|i: int, j: int| 0 <= i <= j < c.len() implies (#[trigger] c[i]).up <= (
    #[trigger] c[j]).up && (c[i].up == c[j].up ==> lex_le(c[i].id, c[j].id)) by {
        if j < a.len() {
            assert(c[i] == a[i] && c[j] == a[j]);
        } else {
            assert(c[j] == b[j - a.len()]);
            if i < a.len() {
                assert(c[i] == a[i]);
            } else {
                assert(c[i] == b[i - a.len()]);
            }
        }
    }
}

/// Joining lists whose parent numbers differ keeps what stands under a number.
proof fn own_under_joins(
    img: Seq<u8>,
    x: Seq<TableDirView>,
    y: Seq<TableDirView>,
    a: Seq<TableDirView>,
    b: Seq<TableDirView>,
    first: int,
)
    requires
        own_under(img, x, a, first),
        own_under(img, y, b, first + x.len()),
        ups_within(a, first, first + x.len()),
        forall|i: int| 0 <= i < b.len() ==> first + x.len() <= (#[trigger] b[i]).up,
    ensures
        own_under(img, x + y, a + b, first),
{
    let d = x + y;
    assert forall|p: int| #![trigger d[p]] 0 <= p < d.len() implies under(a + b, first + p)
        == kids_of(img, d[p], (first + p) as nat) by {
        under_joins(a, b, first + p);
        if p < x.len() {
            all_under(b, first + p);
            assert(d[p] == x[p]);
            let found = under(a, first + p);
            assert(found + Seq::<TableDirView>::empty() =~= found);
        } else {
            all_under(a, first + p);
            let q = p - x.len();
            assert(d[p] == y[q]);
            assert(under(b, first + x.len() + q) == kids_of(
                img,
                y[q],
                (first + x.len() + q) as nat,
            ));
            let found = under(b, first + p);
            assert(Seq::<TableDirView>::empty() + found =~= found);
        }
    }
}

/// The subdirectories of one directory as a level of their own.
proof fn kids_as_level(img: Seq<u8>, d: TableDirView, no: nat)
    ensures
        is_below(img, seq![d], kids_of(img, d, no), no as int),
{
    let kids = kids_of(img, d, no);
    reveal(is_below);
    kids_facts(img, d, no);
    all_under(kids, no as int);
    assert forall|i: int| 0 <= i < kids.len() implies #[trigger] listed_at(
        img,
        seq![d],
        kids[i],
        no as int,
        i,
    ) by {
        assert(kids[i].up == no);
    }
}

/// Joining lists keeps that their directories are listed.
proof fn listed_by_joins(
    img: Seq<u8>,
    x: Seq<TableDirView>,
    y: Seq<TableDirView>,
    a: Seq<TableDirView>,
    b: Seq<TableDirView>,
    first: int,
)
    requires
        listed_by(img, x, a, first, 0),
        listed_by(img, y, b, first + x.len(), 0),
    ensures
        listed_by(img, x + y, a + b, first, 0),
{
    let c = a + b;
    let d = x + y;
    assert forall|i: int| 0 <= i < c.len() implies #[trigger] listed_at(img, d, c[i], first, i) by {
        if i < a.len() {
            assert(c[i] == a[i]);
            assert(listed_at(img, x, a[i], first, i));
            assert(d[a[i].up - first] == x[a[i].up - first]);
        } else {
            let j = i - a.len();
            assert(c[i] == b[j]);
            assert(listed_at(img, y, b[j], first + x.len(), j));
            assert(d[b[j].up - first] == y[b[j].up - (first + x.len())]);
        }
    }
}

/// Whether `below` is the level below `level`, numbered from `first` on.
#[verifier::opaque]
spec fn is_below(img: Seq<u8>, level: Seq<TableDirView>, below: Seq<TableDirView>, first: int) -> bool {
    &&& in_table_order(below)
    &&& listed_by(img, level, below, first, 0)
    &&& ups_within(below, first, first + level.len())
    &&& own_under(img, level, below, first)
}

proof fn levels_join(
    img: Seq<u8>,
    x: Seq<TableDirView>,
    y: Seq<TableDirView>,
    a: Seq<TableDirView>,
    b: Seq<TableDirView>,
    first: int,
)
    requires
        is_below(img, x, a, first),
        is_below(img, y, b, first + x.len()),
    ensures
        is_below(img, x + y, a + b, first),
{
    reveal(is_below);
    orders_join(a, b, first + x.len());
    listed_by_joins(img, x, y, a, b, first);
    own_under_joins(img, x, y, a, b, first);
    let c = a + b;
    assert forall|i: int| 0 <= i < c.len() implies first <= (#[trigger] c[i]).up < first + (x
        + y).len() by {
        assert(listed_at(img, x + y, c[i], first, i));
    }
}

proof fn level_below_facts(img: Seq<u8>, level: Seq<TableDirView>, first: nat)
    ensures
        is_below(img, level, level_below(img, level, first), first as int),
    decreases level.len(),
{
    if level.len() == 0 {
        reveal(is_below);
    } else {
        let less = level.drop_last();
        let d = level.last();
        let no = (first + level.len() - 1) as nat;
        level_below_facts(img, less, first);
        kids_as_level(img, d, no);
        levels_join(
            img,
            less,
            seq![d],
            level_below(img, less, first),
            kids_of(img, d, no),
            first as int,
        );
        assert(level =~= less + seq![d]);
    }
}

/// Whether `list` is `level` and all levels below it, numbered from `first` on.
#[verifier::opaque]
spec fn is_level_and_below(
    img: Seq<u8>,
    level: Seq<TableDirView>,
    list: Seq<TableDirView>,
    first: int,
) -> bool {
    let n = level.len() as int;
    &&& n <= list.len()
    &&& list.take(n) == level
    &&& in_table_order(list.skip(n))
    &&& all_listed(img, list, n, first)
    &&& own_under(img, list, list.skip(n), first)
}

/// Whether every directory from place `n` on is listed by one before it.
spec fn all_listed(img: Seq<u8>, list: Seq<TableDirView>, n: int, first: int) -> bool {
    forall|i: int|
        n <= i < list.len() ==> #[trigger] listed_at(img, list.take(i), list[i], first, i)
}

proof fn all_listed_joins(
    img: Seq<u8>,
    level: Seq<TableDirView>,
    below: Seq<TableDirView>,
    rest: Seq<TableDirView>,
    first: int,
)
    requires
        listed_by(img, level, below, first, 0),
        below.len() <= rest.len(),
        rest.take(below.len() as int) == below,
        all_listed(img, rest, below.len() as int, first + level.len()),
    ensures
        all_listed(img, level + rest, level.len() as int, first),
{
    let list = level + rest;
    let n = level.len() as int;
    let m = below.len() as int;
    assert forall|i: int| n <= i < list.len() implies #[trigger] listed_at(
        img,
        list.take(i),
        list[i],
        first,
        i,
    ) by {
        let j = i - n;
        let d = rest[j];
        assert(list[i] == d);
        if j < m {
            assert(d == rest.take(m)[j]);
            assert(listed_at(img, level, below[j], first, j));
            assert(list.take(i)[d.up - first] == level[d.up - first]);
        } else {
            assert(listed_at(img, rest.take(j), d, first + n, j));
            assert(list.take(i)[d.up - first] == rest.take(j)[d.up - (first + n)]);
        }
    }
}

proof fn level_joins(
    img: Seq<u8>,
    level: Seq<TableDirView>,
    below: Seq<TableDirView>,
    rest: Seq<TableDirView>,
    first: int,
)
    requires
        is_below(img, level, below, first),
        is_level_and_below(img, below, rest, first + level.len()),
    ensures
        is_level_and_below(img, level, level + rest, first),
{
    reveal(is_below);
    reveal(is_level_and_below);
    let list = level + rest;
    let n = level.len() as int;
    let m = below.len() as int;
    let deep = rest.skip(m);
    assert(list.take(n) =~= level);
    assert(list.skip(n) =~= rest);
    assert(rest =~= below + deep);
    assert forall|i: int| 0 <= i < deep.len() implies first + n <= (#[trigger] deep[i]).up by {
        assert(deep[i] == rest[m + i]);
        assert(listed_at(img, rest.take(m + i), rest[m + i], first + n, m + i));
    }
    all_listed_joins(img, level, below, rest, first);
    orders_join(below, deep, first + n);
    own_under_joins(img, level, rest, below, deep, first);
}

proof fn levels_facts(img: Seq<u8>, level: Seq<TableDirView>, first: nat, fuel: nat)
    requires
        levels_from(img, level, first, fuel) is Some,
    ensures
        is_level_and_below(img, level, levels_from(img, level, first, fuel)->0, first as int),
    decreases fuel,
{
    if level.len() > 0 {
        let below = level_below(img, level, first);
        let second = first + level.len();
        level_below_facts(img, level, first);
        levels_facts(img, below, second, (fuel - 1) as nat);
        level_joins(
            img,
            level,
            below,
            levels_from(img, below, second, (fuel - 1) as nat)->0,
            first as int,
        );
    } else {
        reveal(is_level_and_below);
        assert(Seq::<TableDirView>::empty().take(0) =~= level);
    }
}

/// In the list of the directories of an image, the root comes first and is its
/// own parent. Every other directory has the number of a directory before it,
/// and that directory lists its record: a directory with this identifier,
/// extent and length.
pub proof fn parents_list_their_directories(img: Seq<u8>, lba: u32, len: u32, i: int)
    requires
        levels_from(img, root_level(lba, len), 1, 65) matches Some(list) && 0 <= i < list.len(),
    ensures
        ({
            let list = levels_from(img, root_level(lba, len), 1, 65)->0;
            &&& list[0].id == Seq::<u8>::empty()
            &&& list[0].lba == lba
            &&& list[0].len == len
            &&& list[0].up == 1
            &&& i > 0 ==> 1 <= list[i].up <= i && lists_dir(img, list[list[i].up - 1], list[i])
        }),
{
    let root = root_level(lba, len);
    levels_facts(img, root, 1, 65);
    reveal(is_level_and_below);
    let list = levels_from(img, root, 1, 65)->0;
    assert(list.take(1)[0] == list[0]);
    if i > 0 {
        assert(listed_at(img, list.take(i), list[i], 1, i));
        assert(list.take(i)[list[i].up - 1] == list[list[i].up - 1]);
    }
}

/// The directories under a parent in the list are those whose records the
/// parent lists, each as often as it is listed.
pub proof fn listed_directories_are_numbered(img: Seq<u8>, lba: u32, len: u32, p: int)
    requires
        levels_from(img, root_level(lba, len), 1, 65) matches Some(list) && 0 <= p < list.len(),
    ensures
        ({
            let list = levels_from(img, root_level(lba, len), 1, 65)->0;
            list.skip(1).filter(|d: TableDirView| d.up == p + 1).to_multiset() == records_of(
                img,
                list[p].lba,
                list[p].len,
            ).filter(
                |o: int|
                    img[o + 25] & 2 != 0 && img.subrange(o + 33, o + 33 + img[o + 32])
                        != seq![0u8] && img.subrange(o + 33, o + 33 + img[o + 32]) != seq![1u8],
            ).map_values(
                |o: int|
                    (TableDirView {
                        id: img.subrange(o + 33, o + 33 + img[o + 32]),
                        lba: (img[o + 2] + 256 * img[o + 3] + 65536 * img[o + 4] + 16777216 * img[o
                            + 5]) as u32,
                        len: (img[o + 10] + 256 * img[o + 11] + 65536 * img[o + 12] + 16777216
                            * img[o + 13]) as u32,
                        up: (p + 1) as nat,
                    }),
            ).to_multiset()
        }),
{
    let root = root_level(lba, len);
    levels_facts(img, root, 1, 65);
    reveal(is_level_and_below);
    let list = levels_from(img, root, 1, 65)->0;
    let d = list[p];
    let no = (p + 1) as nat;
    kids_facts(img, d, no);
    assert(under(list.skip(1), 1 + p) == kids_of(img, d, (1 + p) as nat));
    subdirs_are_filtered(img, records_of(img, d.lba, d.len), no);
}

proof fn subdirs_are_filtered(img: Seq<u8>, offs: Seq<int>, up: nat)
    ensures
        subdirs_at(img, offs, up) == offs.filter(
            |o: int|
                img[o + 25] & 2 != 0 && img.subrange(o + 33, o + 33 + img[o + 32]) != seq![0u8]
                    && img.subrange(o + 33, o + 33 + img[o + 32]) != seq![1u8],
        ).map_values(
            |o: int|
                (TableDirView {
                    id: img.subrange(o + 33, o + 33 + img[o + 32]),
                    lba: (img[o + 2] + 256 * img[o + 3] + 65536 * img[o + 4] + 16777216 * img[o
                        + 5]) as u32,
                    len: (img[o + 10] + 256 * img[o + 11] + 65536 * img[o + 12] + 16777216 * img[o
                        + 13]) as u32,
                    up,
                }),
        ),
    decreases offs.len(),
{
    reveal(Seq::filter);
    let pick = |o: int|
        img[o + 25] & 2 != 0 && img.subrange(o + 33, o + 33 + img[o + 32]) != seq![0u8]
            && img.subrange(o + 33, o + 33 + img[o + 32]) != seq![1u8];
    let dir = |o: int|
        (TableDirView {
            id: img.subrange(o + 33, o + 33 + img[o + 32]),
            lba: (img[o + 2] + 256 * img[o + 3] + 65536 * img[o + 4] + 16777216 * img[o + 5]) as u32,
            len: (img[o + 10] + 256 * img[o + 11] + 65536 * img[o + 12] + 16777216 * img[o
                + 13]) as u32,
            up,
        });
    if offs.len() > 0 {
        let less = offs.drop_last();
        let o = offs.last();
        subdirs_are_filtered(img, less, up);
        assert(is_subdir(img, o) == pick(o));
        if pick(o) {
            assert(offs.filter(pick) == less.filter(pick).push(o));
            assert(offs.filter(pick).map_values(dir) =~= less.filter(pick).map_values(dir).push(
                dir(o),
            ));
        }
    } else {
        assert(offs.filter(pick).map_values(dir) =~= Seq::<TableDirView>::empty());
    }
}

/// The directories behind the root stand in the order of a path table.
pub proof fn directories_are_in_order(img: Seq<u8>, lba: u32, len: u32)
    requires
        levels_from(img, root_level(lba, len), 1, 65) is Some,
    ensures
        in_table_order((levels_from(img, root_level(lba, len), 1, 65)->0).skip(1)),
{
    levels_facts(img, root_level(lba, len), 1, 65);
    reveal(is_level_and_below);
}

// ---------------------------------------------------------------------------
// depth
// ---------------------------------------------------------------------------

/// Whether each directory of a chain lists the next one.
pub open spec fn nested(img: Seq<u8>, chain: Seq<TableDirView>) -> bool {
    forall|i: int, j: int|
        0 <= i < chain.len() - 1 && j == i + 1 ==> lists_dir(
            img,
            #[trigger] chain[i],
            #[trigger] chain[j],
        )
}

/// The walk down from the root is stopped where a chain of directories leads
/// more than 64 levels below it; and where it is stopped for the depth, there
/// is such a chain.
pub proof fn deep_trees_are_refused(img: Seq<u8>, root: TableDirView)
    ensures
        (exists|chain: Seq<TableDirView>| #[trigger]
            nested(img, chain) && chain.len() == 66 && chain[0] == root) ==> dir_trouble(
            img,
            root.lba,
            root.len,
            65,
        ) is Some,
        dir_trouble(img, root.lba, root.len, 65) == Some(ConformError::TooDeep) ==> exists|
            chain: Seq<TableDirView>,
        | #[trigger]
            nested(img, chain) && chain.len() == 66 && chain[0] == root,
{
    if exists|chain: Seq<TableDirView>| #[trigger]
        nested(img, chain) && chain.len() == 66 && chain[0] == root {
        let chain = choose|chain: Seq<TableDirView>| #[trigger]
            nested(img, chain) && chain.len() == 66 && chain[0] == root;
        chain_stops(img, chain, 65);
    }
    if dir_trouble(img, root.lba, root.len, 65) == Some(ConformError::TooDeep) {
        let chain = stop_has_chain(img, root, 65);
        assert(nested(img, chain) && chain.len() == 66 && chain[0] == root);
    }
}

proof fn chain_stops(img: Seq<u8>, chain: Seq<TableDirView>, fuel: nat)
    requires
        nested(img, chain),
        chain.len() == fuel + 1,
    ensures
        dir_trouble(img, chain[0].lba, chain[0].len, fuel) is Some,
    decreases fuel,
{
    if fuel > 0 {
        let d = chain[0];
        let sub = chain[1];
        let rest = chain.drop_first();
        assert forall|i: int, j: int| 0 <= i < rest.len() - 1 && j == i + 1 implies lists_dir(
            img,
            #[trigger] rest[i],
            #[trigger] rest[j],
        ) by {
            assert(rest[i] == chain[i + 1]);
            assert(rest[j] == chain[j + 1]);
        }
        chain_stops(img, rest, (fuel - 1) as nat);
        assert(lists_dir(img, chain[0], chain[1]));
        let offs = records_of(img, d.lba, d.len);
        let k = choose|k: int| 0 <= k < offs.len() && names_dir(img, #[trigger] offs[k], sub);
        let own = subdirs_at(img, offs, 1);
        let i = subdir_of_record(img, offs, 1, k);
        if list_trouble(img, own, (fuel - 1) as nat) is None {
            trouble_is_told(img, own, (fuel - 1) as nat, i);
        }
    }
}

proof fn subdir_of_record(img: Seq<u8>, offs: Seq<int>, up: nat, k: int) -> (i: int)
    requires
        0 <= k < offs.len(),
        is_subdir(img, offs[k]),
    ensures
        0 <= i < subdirs_at(img, offs, up).len(),
        names_dir(img, offs[k], subdirs_at(img, offs, up)[i]),
    decreases offs.len(),
{
    if k < offs.len() - 1 {
        assert(offs.drop_last()[k] == offs[k]);
        subdir_of_record(img, offs.drop_last(), up, k)
    } else {
        subdirs_at(img, offs, up).len() - 1
    }
}

proof fn trouble_is_told(img: Seq<u8>, dirs: Seq<TableDirView>, fuel: nat, i: int)
    requires
        list_trouble(img, dirs, fuel) is None,
        0 <= i < dirs.len(),
    ensures
        dir_trouble(img, dirs[i].lba, dirs[i].len, fuel) is None,
    decreases dirs.len(),
{
    if i < dirs.len() - 1 {
        trouble_is_told(img, dirs.drop_last(), fuel, i);
    }
}

proof fn trouble_has_place(img: Seq<u8>, dirs: Seq<TableDirView>, fuel: nat) -> (i: int)
    requires
        list_trouble(img, dirs, fuel) is Some,
    ensures
        0 <= i < dirs.len(),
        dir_trouble(img, dirs[i].lba, dirs[i].len, fuel) == list_trouble(img, dirs, fuel),
    decreases dirs.len(),
{
    if list_trouble(img, dirs.drop_last(), fuel) is Some {
        trouble_has_place(img, dirs.drop_last(), fuel)
    } else {
        dirs.len() - 1
    }
}

proof fn stop_has_chain(img: Seq<u8>, d: TableDirView, fuel: nat) -> (chain: Seq<TableDirView>)
    requires
        dir_trouble(img, d.lba, d.len, fuel) == Some(ConformError::TooDeep),
    ensures
        nested(img, chain),
        chain.len() == fuel + 1,
        chain[0] == d,
    decreases fuel,
{
    if fuel == 0 {
        seq![d]
    } else {
        let offs = records_of(img, d.lba, d.len);
        let own = subdirs_at(img, offs, 1);
        let i = trouble_has_place(img, own, (fuel - 1) as nat);
        let k = subdirs_are_named(img, offs, 1, i);
        let rest = stop_has_chain(img, own[i], (fuel - 1) as nat);
        let chain = seq![d] + rest;
        assert(names_dir(img, records_of(img, d.lba, d.len)[k], own[i]));
        assert(lists_dir(img, d, own[i]));
        assert forall|i: int, j: int| 0 <= i < chain.len() - 1 && j == i + 1 implies lists_dir(
            img,
            #[trigger] chain[i],
            #[trigger] chain[j],
        ) by {
            assert(chain[j] == rest[i]);
            if i > 0 {
                assert(chain[i] == rest[i - 1]);
            }
        }
        chain
    }
}

// ---------------------------------------------------------------------------
// the bytes of the tables
// ---------------------------------------------------------------------------

/// Where the entry of directory `i` starts in a path table: each entry has 8
/// bytes and an identifier, filled up to an even number.
pub open spec fn entry_offset(dirs: Seq<TableDirView>, i: int) -> int
    decreases i,
{
    if i <= 0 {
        0
    } else {
        entry_offset(dirs, i - 1) + 8 + dirs[i - 1].id.len() + dirs[i - 1].id.len() % 2
    }
}

/// The path table of a list of directories holds an entry for each of them, one
/// behind the other, with its identifier, sector and the number of its parent,
/// and nothing else.
pub proof fn tables_read_back(dirs: Seq<TableDirView>, i: int, big: bool)
    requires
        0 <= i < dirs.len(),
    ensures
        table_of(dirs, big).len() == entry_offset(dirs, dirs.len() as int),
        entry_reads(
            table_of(dirs, big),
            entry_offset(dirs, i),
            dirs[i].id,
            dirs[i].lba as int,
            dirs[i].up as int % 65536,
            big,
        ),
    decreases dirs.len(),
{
    let less = dirs.drop_last();
    let d = dirs.last();
    let head = table_of(less, big);
    let entry = path_entry(d.id, d.lba as int, d.up as int, big);
    let b = table_of(dirs, big);
    table_len(dirs, big);
    table_len(less, big);
    same_offsets(less, dirs, dirs.len() - 1);
    assert(b == head + entry);
    if i == dirs.len() - 1 {
        entry_is_read(d.id, d.lba, d.up, big);
        let o = head.len() as int;
        assert(b.subrange(o, o + entry.len()) =~= entry);
        entry_moves(b, o, entry, d.id, d.lba as int, d.up as int % 65536, big);
    } else {
        tables_read_back(less, i, big);
        same_offsets(less, dirs, i);
        assert(b.subrange(0, head.len() as int) =~= head);
        reading_stays(
            head,
            b,
            entry_offset(dirs, i),
            dirs[i].id,
            dirs[i].lba as int,
            dirs[i].up as int % 65536,
            big,
        );
    }
}

proof fn table_len(dirs: Seq<TableDirView>, big: bool)
    ensures
        table_of(dirs, big).len() == entry_offset(dirs, dirs.len() as int),
    decreases dirs.len(),
{
    if dirs.len() > 0 {
        table_len(dirs.drop_last(), big);
        same_offsets(dirs.drop_last(), dirs, dirs.len() - 1);
    }
}

proof fn same_offsets(a: Seq<TableDirView>, b: Seq<TableDirView>, i: int)
    requires
        0 <= i <= a.len(),
        i <= b.len(),
        forall|j: int| 0 <= j < i ==> a[j] == b[j],
    ensures
        entry_offset(a, i) == entry_offset(b, i),
        0 <= entry_offset(a, i),
    decreases i,
{
    if i > 0 {
        same_offsets(a, b, i - 1);
    }
}

proof fn entry_is_read(id: Seq<u8>, lba: u32, up: nat, big: bool)
    ensures
        entry_reads(path_entry(id, lba as int, up as int, big), 0, id, lba as int, up as int
            % 65536, big),
        path_entry(id, lba as int, up as int, big).len() == 8 + id.len() + id.len() % 2,
{
    let e = path_entry(id, lba as int, up as int, big);
    let x = lba as int;
    let y = up as int;
    le32_round_trip(lba);
    low16(y);
    let mid = if big {
        be32(x) + be16(y)
    } else {
        le32(x) + le16(y)
    };
    assert(e.subrange(2, 8) =~= mid);
    let at = e.subrange(2, 8);
    assert(at[0] == e[2] && at[1] == e[3] && at[2] == e[4] && at[3] == e[5] && at[4] == e[6] && at[5]
        == e[7]);
    assert(low_byte(y) + 256 * low_byte(y / 256) == y % 65536);
    assert(e.subrange(8, 8 + id.len() as int) =~= id);
}

proof fn entry_moves(
    b: Seq<u8>,
    o: int,
    entry: Seq<u8>,
    id: Seq<u8>,
    lba: int,
    up: int,
    big: bool,
)
    requires
        0 <= o,
        o + entry.len() <= b.len(),
        b.subrange(o, o + entry.len()) == entry,
        entry_reads(entry, 0, id, lba, up, big),
    ensures
        entry_reads(b, o, id, lba, up, big),
{
    assert forall|k: int| 0 <= k < entry.len() implies #[trigger] entry[k] == b[o + k] by {}
    let n = id.len() as int;
    assert(b.subrange(o + 8, o + 8 + n) =~= entry.subrange(8, 8 + n));
    assert(entry[0] == b[o + 0]);
    if n % 2 == 1 {
        assert(entry[8 + n] == b[o + (8 + n)]);
    }
}

proof fn reading_stays(
    a: Seq<u8>,
    b: Seq<u8>,
    o: int,
    id: Seq<u8>,
    lba: int,
    up: int,
    big: bool,
)
    requires
        a.len() <= b.len(),
        b.subrange(0, a.len() as int) == a,
        entry_reads(a, o, id, lba, up, big),
    ensures
        entry_reads(b, o, id, lba, up, big),
{
    assert forall|k: int| 0 <= k < a.len() implies #[trigger] a[k] == b[k] by {
        assert(b.subrange(0, a.len() as int)[k] == b[k]);
    }
    let n = id.len() as int;
    assert(b.subrange(o + 8, o + 8 + n) =~= a.subrange(o + 8, o + 8 + n));
}

// ---------------------------------------------------------------------------
// the conforming image
// ---------------------------------------------------------------------------

/// The directories of an image, as its primary descriptor tells where the root
/// lies.
pub open spec fn directories(img: Seq<u8>) -> Seq<TableDirView> {
    levels_from(
        img,
        root_level(le32_at(img, 32926) as u32, le32_at(img, 32934) as u32),
        1,
        65,
    )->0
}

/// The fields of a primary descriptor: in both byte orders the sectors of the
/// volume, one volume in the set, the first one, 2048 bytes in a sector and the
/// bytes of a path table; the sectors of the little- and the big-endian table.
pub open spec fn fields_tell(out: Seq<u8>, total: int, size: int, l: int, m: int) -> bool {
    &&& le32_at(out, 32848) == total && be32_at(out, 32852) == total
    &&& le16_at(out, 32888) == 1 && be16_at(out, 32890) == 1
    &&& le16_at(out, 32892) == 1 && be16_at(out, 32894) == 1
    &&& le16_at(out, 32896) == 2048 && be16_at(out, 32898) == 2048
    &&& le32_at(out, 32900) == size && be32_at(out, 32904) == size
    &&& le32_at(out, 32908) == l
    &&& be32_at(out, 32916) == m
}

/// A conforming image tells its own length in sectors, and has the path tables
/// of its directories behind the old volume, one in each byte order, where its
/// primary descriptor tells.
pub proof fn conforming_images_read_back(img: Seq<u8>, want_efi: bool)
    requires
        conformed(img, want_efi) is Ok,
        le32_at(img, 32848) >= 17,
        want_efi ==> {
            let b = with_tables(
                img,
                table_of(directories(img), false),
                table_of(directories(img), true),
            );
            find_boot_record(b, 16, le32_at(img, 32848)) matches Some(lba) ==> le32_at(
                b,
                lba * 2048 + 71,
            ) < le32_at(img, 32848)
        },
    ensures
        ({
            let out = conformed(img, want_efi)->Ok_0;
            let old = le32_at(img, 32848);
            let list = directories(img);
            let size = entry_offset(list, list.len() as int);
            let m = be32_at(out, 32916);
            &&& fields_tell(out, out.len() as int / 2048, size % 0x1_0000_0000, old, m)
            &&& out.len() % 2048 == 0
            &&& old * 2048 + size <= m * 2048
            &&& m * 2048 + size <= out.len()
            &&& out.subrange(old * 2048, old * 2048 + size) == table_of(list, false)
            &&& out.subrange(m * 2048, m * 2048 + size) == table_of(list, true)
        }),
{
    let list = directories(img);
    let l = table_of(list, false);
    let m = table_of(list, true);
    let old = le32_at(img, 32848);
    let b = with_tables(img, l, m);
    let out = conformed(img, want_efi)->Ok_0;
    let table = ceil_div_spec(l.len() as int, 2048);
    let size = l.len() as int;
    tables_have_one_length(list);
    table_len(list, false);
    tables_are_appended(img, l, m);
    quotients_are_rounded_up(size, 2048);
    descriptor_is_patched(img, l, m);
    let catalog = if want_efi && find_boot_record(b, 16, old) is Some {
        le32_at(b, find_boot_record(b, 16, old)->0 * 2048 + 71)
    } else {
        0
    };
    assert(out.len() == b.len() && forall|i: int|
        0 <= i < b.len() && !(catalog * 2048 <= i < catalog * 2048 + 32) ==> out[i] == b[i]) by {
        if want_efi && find_boot_record(b, 16, old) is Some {
            assert forall|i: int|
                0 <= i < b.len() && !(catalog * 2048 <= i < catalog * 2048 + 32) implies out[i]
                == b[i] by {
                efi_changes_entry_only(b, catalog * 2048, i);
            }
            efi_changes_entry_only(b, catalog * 2048, catalog * 2048 + 32);
        }
    }
    descriptor_stays(b, out, catalog, old + 2 * table, size % 0x1_0000_0000, old, old + table);
    assert(out.subrange(old * 2048, old * 2048 + size) =~= b.subrange(
        old * 2048,
        old * 2048 + size,
    ));
    let at = (old + table) * 2048;
    assert(out.subrange(at, at + size) =~= b.subrange(at, at + size));
}

/// A change of the first 32 bytes of a sector leaves the fields of the primary
/// descriptor alone.
proof fn descriptor_stays(
    b: Seq<u8>,
    out: Seq<u8>,
    sector: int,
    total: int,
    size: int,
    l: int,
    m: int,
)
    requires
        b.len() >= 34816,
        fields_tell(b, total, size, l, m),
        forall|i: int|
            0 <= i < b.len() && !(sector * 2048 <= i < sector * 2048 + 32) ==> out[i] == b[i],
    ensures
        fields_tell(out, total, size, l, m),
{
    assert forall|i: int| 32848 <= i < 32920 implies out[i] == b[i] by {
        assert(!(sector * 2048 <= i < sector * 2048 + 32));
    }
}

proof fn descriptor_is_patched(img: Seq<u8>, l: Seq<u8>, m: Seq<u8>)
    requires
        img.len() >= 34816,
        l.len() == m.len(),
        le32_at(img, 32848) >= 17,
        size_fits(le32_at(img, 32848), l.len() as int),
    ensures
        ({
            let old = le32_at(img, 32848);
            let table = ceil_div_spec(l.len() as int, 2048);
            fields_tell(
                with_tables(img, l, m),
                old + 2 * table,
                l.len() as int % 0x1_0000_0000,
                old,
                old + table,
            )
        }),
{
    let old = le32_at(img, 32848);
    let table = ceil_div_spec(l.len() as int, 2048);
    let out = with_tables(img, l, m);
    let size = l.len() as int;
    tables_are_appended(img, l, m);
    quotients_are_rounded_up(size, 2048);
    low32(size);
    numbers_are_spread(old);
    numbers_are_spread(old + table);
    numbers_are_spread(old + 2 * table);
    numbers_are_spread(size % 0x1_0000_0000);
    double_field_reads(out, 32848, old + 2 * table);
    double_field_reads(out, 32900, size % 0x1_0000_0000);
    let a = out.subrange(32908, 32912);
    assert(a[0] == out[32908] && a[1] == out[32909] && a[2] == out[32910] && a[3] == out[32911]);
    let b = out.subrange(32916, 32920);
    assert(b[0] == out[32916] && b[1] == out[32917] && b[2] == out[32918] && b[3] == out[32919]);
    middle_is_patched(img, l, m);
}

proof fn double_field_reads(out: Seq<u8>, o: int, v: int)
    requires
        0 <= o,
        o + 8 <= out.len(),
        out.subrange(o, o + 8) == both32_bytes(v),
        0 <= v < 0x1_0000_0000,
    ensures
        le32_at(out, o) == v,
        be32_at(out, o + 4) == v,
{
    numbers_are_spread(v);
    let a = out.subrange(o, o + 8);
    assert forall|k: int| 0 <= k < 8 implies #[trigger] a[k] == out[o + k] by {}
    assert(a[0] == out[o]);
    let l = le32(v);
    let b = be32(v);
    assert(a[0] == l[0] && a[1] == l[1] && a[2] == l[2] && a[3] == l[3]);
    assert(a[4] == b[0] && a[5] == b[1] && a[6] == b[2] && a[7] == b[3]);
}

proof fn middle_is_patched(img: Seq<u8>, l: Seq<u8>, m: Seq<u8>)
    requires
        img.len() >= 34816,
        le32_at(img, 32848) >= 17,
    ensures
        ({
            let out = with_tables(img, l, m);
            &&& le16_at(out, 32888) == 1 && be16_at(out, 32890) == 1
            &&& le16_at(out, 32892) == 1 && be16_at(out, 32894) == 1
            &&& le16_at(out, 32896) == 2048 && be16_at(out, 32898) == 2048
        }),
{
    let out = with_tables(img, l, m);
    quotients_are_rounded_up(l.len() as int, 2048);
    assert(out.len() >= 34816);
    let one = both16_bytes(1);
    let block = both16_bytes(2048);
    assert(one =~= seq![1u8, 0u8, 0u8, 1u8]);
    assert(block =~= seq![0u8, 8u8, 8u8, 0u8]);
    assert(out[32888] == one[0] && out[32889] == one[1] && out[32890] == one[2] && out[32891]
        == one[3]);
    assert(out[32892] == one[0] && out[32893] == one[1] && out[32894] == one[2] && out[32895]
        == one[3]);
    assert(out[32896] == block[0] && out[32897] == block[1] && out[32898] == block[2] && out[32899]
        == block[3]);
}

/// A validation entry moved to EFI has platform 0xEF, and its 16-bit words sum
/// to 0 modulo 2^16. Only the platform and the checksum change, and an entry
/// that is not one of platform 0 stays as it is.
pub proof fn efi_entries_are_valid(b: Seq<u8>, o: int)
    requires
        0 <= o,
        o + 32 <= b.len(),
    ensures
        ({
            let c = with_efi(b, o);
            if b[o] == 1 && b[o + 1] == 0 {
                &&& c.len() == b.len()
                &&& c[o + 1] == 0xEF
                &&& forall|i: int|
                    0 <= i < b.len() && i != o + 1 && i != o + 28 && i != o + 29 ==> #[trigger] c[i]
                        == b[i]
                &&& (le16_at(c, o) + le16_at(c, o + 2) + le16_at(c, o + 4) + le16_at(c, o + 6)
                    + le16_at(c, o + 8) + le16_at(c, o + 10) + le16_at(c, o + 12) + le16_at(
                    c,
                    o + 14,
                ) + le16_at(c, o + 16) + le16_at(c, o + 18) + le16_at(c, o + 20) + le16_at(c, o + 22)
                    + le16_at(c, o + 24) + le16_at(c, o + 26) + le16_at(c, o + 28) + le16_at(
                    c,
                    o + 30,
                )) % 0x1_0000 == 0
            } else {
                c == b
            }
        }),
{
    if b[o] == 1 && b[o + 1] == 0 {
        let c = with_efi(b, o);
        efi_entry_sums_to_zero(b, o);
        let e = c.subrange(o, o + 32);
        reveal_with_fuel(word_sum, 17);
        assert forall|k: int| 0 <= k < 31 implies #[trigger] le16_at(e, k) == le16_at(c, o + k) by {}
    }
}

/// The image with path tables has the bytes of the image, and zeros behind its
/// end, but for the fields of the primary descriptor and the two tables.
pub proof fn tables_change_nothing_else(img: Seq<u8>, l: Seq<u8>, m: Seq<u8>, i: int)
    requires
        img.len() >= 34816,
        l.len() == m.len(),
        size_fits(le32_at(img, 32848), l.len() as int),
        0 <= i < with_tables(img, l, m).len(),
        !(32848 <= i < 32856) && !(32888 <= i < 32912) && !(32916 <= i < 32920),
        ({
            let old = le32_at(img, 32848) * 2048;
            let big = old + (l.len() + 2047) / 2048 * 2048;
            !(old <= i < old + l.len()) && !(big <= i < big + l.len())
        }),
    ensures
        with_tables(img, l, m)[i] == if i < img.len() {
            img[i]
        } else {
            0u8
        },
{
    quotients_are_rounded_up(l.len() as int, 2048);
}

/// With `want_efi`, an image whose boot record names a catalog of which the
/// first 32 bytes do not lie within the image is refused for that, and no other
/// is. In an image that is not refused no validation entry of platform 0 is
/// left there.
pub proof fn catalogs_lie_within(img: Seq<u8>, want_efi: bool)
    ensures
        ({
            let list = directories(img);
            let b = with_tables(img, table_of(list, false), table_of(list, true));
            let boot = find_boot_record(b, 16, le32_at(img, 32848));
            let at = le32_at(b, boot->0 * 2048 + 71) * 2048;
            match conformed(img, want_efi) {
                Ok(out) => {
                    &&& out.len() == b.len()
                    &&& !want_efi || boot is None ==> out == b
                    &&& want_efi && boot is Some ==> at + 32 <= out.len() && !(out[at] == 1 && out[at
                        + 1] == 0)
                },
                Err(x) => x == ConformError::BadCatalog ==> want_efi && boot is Some && at + 32
                    > b.len(),
            }
        }),
{
    let list = directories(img);
    let b = with_tables(img, table_of(list, false), table_of(list, true));
    let boot = find_boot_record(b, 16, le32_at(img, 32848));
    let at = le32_at(b, boot->0 * 2048 + 71) * 2048;
    trouble_is_no_catalog(
        img,
        le32_at(img, 32926) as u32,
        le32_at(img, 32934) as u32,
        Seq::empty(),
        65,
    );
    if conformed(img, want_efi) is Ok && want_efi && boot is Some {
        efi_entries_are_valid(b, at);
    }
}

/// The walk down is stopped by the depth or by a record, not by a catalog.
proof fn trouble_is_no_catalog(
    img: Seq<u8>,
    lba: u32,
    len: u32,
    dirs: Seq<TableDirView>,
    fuel: nat,
)
    ensures
        dir_trouble(img, lba, len, fuel) != Some(ConformError::BadCatalog),
        list_trouble(img, dirs, fuel) != Some(ConformError::BadCatalog),
    decreases fuel, dirs.len(),
{
    if dirs.len() > 0 {
        trouble_is_no_catalog(img, dirs.last().lba, dirs.last().len, dirs.drop_last(), fuel);
    }
    if fuel > 0 {
        let below = subdirs_at(img, records_of(img, lba, len), 1);
        trouble_is_no_catalog(img, lba, len, below, (fuel - 1) as nat);
    }
}

/// The boot record of a volume is its first descriptor from sector 16 on with
/// type 0 and "CD001".
pub proof fn boot_records_are_found(b: Seq<u8>, lba: int, end: int)
    ensures
        match find_boot_record(b, lba, end) {
            Some(k) => lba <= k < end && is_boot_record(b, k) && forall|j: int|
                lba <= j < k ==> !#[trigger] is_boot_record(b, j),
            None => forall|j: int| lba <= j < end ==> !#[trigger] is_boot_record(b, j),
        },
    decreases end - lba,
{
    if lba < end {
        assert(is_boot_record(b, lba) == boot_record_at(b, lba));
        if !boot_record_at(b, lba) {
            boot_records_are_found(b, lba + 1, end);
        }
    }
}

/// Whether a sector holds a boot record.
pub open spec fn is_boot_record(b: Seq<u8>, k: int) -> bool {
    &&& b[k * 2048] == 0
    &&& b[k * 2048 + 1] == 67 && b[k * 2048 + 2] == 68 && b[k * 2048 + 3] == 48 && b[k * 2048 + 4]
        == 48 && b[k * 2048 + 5] == 49
}

/// An image without a primary descriptor, "CD001" in sector 16, is refused for
/// that, and no other is.
pub proof fn descriptors_are_demanded(img: Seq<u8>, want_efi: bool)
    ensures
        conformed(img, want_efi) == Err::<Seq<u8>, ConformError>(ConformError::NoPvd) <==> (
        img.len() < 34816 || img[32769] != 67 || img[32770] != 68 || img[32771] != 48 || img[32772]
            != 48 || img[32773] != 49),
{
    no_descriptor_is_not_told(
        img,
        le32_at(img, 32926) as u32,
        le32_at(img, 32934) as u32,
        65,
    );
}

proof fn no_descriptor_is_not_told(img: Seq<u8>, lba: u32, len: u32, fuel: nat)
    ensures
        dir_trouble(img, lba, len, fuel) != Some(ConformError::NoPvd),
    decreases fuel,
{
    if fuel > 0 {
        let own = subdirs_at(img, records_of(img, lba, len), 1);
        if list_trouble(img, own, (fuel - 1) as nat) is Some {
            let i = trouble_has_place(img, own, (fuel - 1) as nat);
            no_descriptor_is_not_told(img, own[i].lba, own[i].len, (fuel - 1) as nat);
        }
    }
}

/// A record is refused as too short where it does not hold the 33 bytes before
/// its identifier and the identifier, and a directory for the first such record
/// of it.
pub proof fn short_records_are_refused(img: Seq<u8>, lba: u32, len: u32, fuel: nat)
    requires
        fuel > 0,
    ensures
        (exists|k: int|
            0 <= k < records_of(img, lba, len).len() && img[#[trigger] records_of(img, lba, len)[k]]
                < 33 + img[records_of(img, lba, len)[k] + 32]) ==> dir_trouble(
            img,
            lba,
            len,
            fuel,
        ) == Some(ConformError::BadRecord),
        dir_trouble(img, lba, len, fuel) is None ==> forall|k: int|
            0 <= k < records_of(img, lba, len).len() ==> img[#[trigger] records_of(
                img,
                lba,
                len,
            )[k]] >= 33 + img[records_of(img, lba, len)[k] + 32],
{
    let offs = records_of(img, lba, len);
    if exists|k: int| 0 <= k < offs.len() && img[#[trigger] offs[k]] < 33 + img[offs[k] + 32] {
        let k = choose|k: int|
            0 <= k < offs.len() && img[#[trigger] offs[k]] < 33 + img[offs[k] + 32];
        assert(!holds_id(img, records_of(img, lba, len)[k]));
    }
}

/// A volume with its path tables is refused for its size where it has fewer
/// than 17 sectors or more than a 32-bit number tells, and for no other size on
/// a machine that can hold it.
pub proof fn volume_sizes_are_bounded(old: int, size: int)
    requires
        0 <= size,
    ensures
        size_fits(old, size) <==> {
            let total = old + 2 * ((size + 2047) / 2048);
            17 <= total < 0x1_0000_0000 && total * 2048 <= usize::MAX
        },
{
}

} // verus!
