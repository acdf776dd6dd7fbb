//! Which files a walk over a file system that does not change has gathered:
//! every file below the inputs, and no other.
use vstd::prelude::*;
use std::path::PathBuf;
use vstd::utf8::encode_utf8;
use crate::collect::{
    entry_names, reserving, sort_entries, EntryView, Failure, NameKey, NameOwner, PayloadView,
    RecordView, WalkView,
};
use crate::collected::{
    add_contents, add_entries, add_input, add_inputs, ends_by, gathered, walked, Disk, Gathered,
    Input,
};
use crate::image::{folding_ignores_case_only, same_but_case};
use crate::order::{lex_le, sort_items_facts};

verus! {

/// What a walk takes from a listing is a permutation of it, in ascending order
/// of the names in UTF-8.
pub proof fn listings_are_sorted(s: Seq<EntryView>)
    ensures
        sort_entries(s).to_multiset() == s.to_multiset(),
        sort_entries(s).len() == s.len(),
        forall|e: EntryView| sort_entries(s).contains(e) <==> s.contains(e),
        forall|i: int, j: int|
            0 <= i <= j < s.len() ==> lex_le(
                encode_utf8((#[trigger] sort_entries(s)[i]).name),
                encode_utf8((#[trigger] sort_entries(s)[j]).name),
            ),
{
    sort_items_facts(s, entry_names());
    assert forall|i: int, j: int| 0 <= i <= j < s.len() implies lex_le(
        encode_utf8((#[trigger] sort_entries(s)[i]).name),
        encode_utf8((#[trigger] sort_entries(s)[j]).name),
    ) by {
        assert(lex_le(
            entry_names()(sort_entries(s)[i]),
            entry_names()(sort_entries(s)[j]),
        ));
    }
}

/// Whether a chain of entries leads down from a directory: the first stands in
/// its listing, and each of the others in the listing of the one before it,
/// which is a directory.
pub open spec fn leads(disk: Disk, path: PathBuf, chain: Seq<EntryView>) -> bool
    decreases chain.len(),
{
    &&& chain.len() > 0
    &&& (disk.list)(path).contains(chain[0])
    &&& chain.len() > 1 ==> (disk.is_dir)(chain[0].path) && leads(
        disk,
        chain[0].path,
        chain.drop_first(),
    )
}

/// Where a chain of entries leads to in the image: the names behind each other,
/// with '/' between them.
pub open spec fn place(dir: Seq<char>, chain: Seq<EntryView>) -> Seq<char>
    decreases chain.len(),
{
    if chain.len() == 0 {
        dir
    } else if dir.len() == 0 {
        place(chain[0].name, chain.drop_first())
    } else {
        place(dir + seq!['/'] + chain[0].name, chain.drop_first())
    }
}

/// Whether a chain leads down from a directory to a file.
pub open spec fn leads_to_file(disk: Disk, path: PathBuf, chain: Seq<EntryView>) -> bool {
    leads(disk, path, chain) && !(disk.is_dir)(chain.last().path)
}

/// The bytes of the files of records.
pub open spec fn bytes_of(disk: Disk, records: Seq<RecordView>) -> int
    decreases records.len(),
{
    if records.len() == 0 {
        0
    } else {
        bytes_of(disk, records.drop_last()) + (disk.len)(records.last().source_path)
    }
}

/// Whether `h` has all that `g` has: directories keep their paths, records
/// stay, and bytes are counted for each new one.
spec fn grew(disk: Disk, g: PayloadView, h: PayloadView) -> bool {
    &&& g.dirs.len() <= h.dirs.len()
    &&& forall|d: int| 0 <= d < g.dirs.len() ==> (#[trigger] h.dirs[d]).path == g.dirs[d].path
    &&& g.records.len() <= h.records.len()
    &&& forall|r: int| 0 <= r < g.records.len() ==> #[trigger] h.records[r] == g.records[r]
    &&& h.payload_bytes - bytes_of(disk, h.records) == g.payload_bytes - bytes_of(disk, g.records)
    &&& h.dirs.len() - h.directory_count == g.dirs.len() - g.directory_count
}

proof fn grew_further(disk: Disk, a: PayloadView, b: PayloadView, c: PayloadView)
    requires
        grew(disk, a, b),
        grew(disk, b, c),
    ensures
        grew(disk, a, c),
{
    assert forall|d: int| 0 <= d < a.dirs.len() implies (#[trigger] c.dirs[d]).path
        == a.dirs[d].path by {
        assert(b.dirs[d].path == a.dirs[d].path);
    }
    assert forall|r: int| 0 <= r < a.records.len() implies #[trigger] c.records[r]
        == a.records[r] by {
        assert(b.records[r] == a.records[r]);
    }
}

proof fn file_grows(disk: Disk, g: PayloadView, dir: int, name: Seq<char>, path: PathBuf)
    requires
        0 <= dir < g.dirs.len(),
    ensures
        ({
            let h = g.with_file(dir, name, path, (disk.len)(path));
            &&& grew(disk, g, h)
            &&& h.records.len() == g.records.len() + 1
            &&& h.records.last().source_path == path
            &&& h.records.last().relative_path == if g.dirs[dir].path.len() == 0 {
                name
            } else {
                g.dirs[dir].path + seq!['/'] + name
            }
            &&& h.dirs.len() == g.dirs.len()
        }),
{
    let h = g.with_file(dir, name, path, (disk.len)(path));
    assert(h.records.drop_last() =~= g.records);
}

proof fn dir_grows(disk: Disk, g: PayloadView, dir: int, name: Seq<char>)
    requires
        0 <= dir < g.dirs.len(),
    ensures
        ({
            let h = g.with_dir(dir, name);
            &&& grew(disk, g, h)
            &&& h.records == g.records
            &&& h.dirs.len() == g.dirs.len() + 1
            &&& h.dirs.last().path == if g.dirs[dir].path.len() == 0 {
                name
            } else {
                g.dirs[dir].path + seq!['/'] + name
            }
        }),
{
}

/// What one entry of a listing comes to.
spec fn add_one(
    disk: Disk,
    g: Gathered,
    dir: usize,
    e: EntryView,
    above: Seq<Seq<u8>>,
) -> Result<Gathered, Failure> {
    match reserving(g.names, g.payload.dirs[dir as int].path, e.name, e.shown) {
        Err(f) => Err(f),
        Ok(names) => if (disk.is_dir)(e.path) {
            add_contents(
                disk,
                Gathered { names, payload: g.payload.with_dir(dir as int, e.name) },
                g.payload.dirs.len() as usize,
                e.path,
                e.shown,
                above,
            )
        } else {
            Ok(
                Gathered {
                    names,
                    payload: g.payload.with_file(
                        dir as int,
                        e.name,
                        e.path,
                        (disk.len)(e.path),
                    ),
                },
            )
        },
    }
}

/// Directories are never taken away.
proof fn contents_keep_dirs(
    disk: Disk,
    g: Gathered,
    dir: usize,
    path: PathBuf,
    shown: Seq<char>,
    above: Seq<Seq<u8>>,
)
    requires
        add_contents(disk, g, dir, path, shown, above) is Ok,
        dir < g.payload.dirs.len(),
    ensures
        g.payload.dirs.len() <= add_contents(
            disk,
            g,
            dir,
            path,
            shown,
            above,
        )->Ok_0.payload.dirs.len(),
    decreases 66 - above.len(), 0nat,
{
    let canonical = (disk.resolve)(path);
    entries_keep_dirs(disk, g, dir, sort_entries((disk.list)(path)), above.push(canonical));
}

proof fn entries_keep_dirs(
    disk: Disk,
    g: Gathered,
    dir: usize,
    rest: Seq<EntryView>,
    above: Seq<Seq<u8>>,
)
    requires
        add_entries(disk, g, dir, rest, above) is Ok,
        dir < g.payload.dirs.len(),
        above.len() <= 65,
    ensures
        g.payload.dirs.len() <= add_entries(disk, g, dir, rest, above)->Ok_0.payload.dirs.len(),
        rest.len() > 0 ==> add_one(disk, g, dir, rest[0], above) is Ok && g.payload.dirs.len()
            <= add_one(disk, g, dir, rest[0], above)->Ok_0.payload.dirs.len() && add_entries(
            disk,
            add_one(disk, g, dir, rest[0], above)->Ok_0,
            dir,
            rest.drop_first(),
            above,
        ) == add_entries(disk, g, dir, rest, above) && add_one(
            disk,
            g,
            dir,
            rest[0],
            above,
        )->Ok_0.payload.dirs.len() <= add_entries(disk, g, dir, rest, above)->Ok_0.payload.dirs.len(),
    decreases 66 - above.len(), rest.len(),
{
    if rest.len() > 0 {
        let e = rest[0];
        let names = reserving(g.names, g.payload.dirs[dir as int].path, e.name, e.shown)->Ok_0;
        let mid = add_one(disk, g, dir, e, above)->Ok_0;
        if (disk.is_dir)(e.path) {
            assert((g.payload.dirs.len() as usize) < g.payload.dirs.len() + 1);
            contents_keep_dirs(
                disk,
                Gathered { names, payload: g.payload.with_dir(dir as int, e.name) },
                g.payload.dirs.len() as usize,
                e.path,
                e.shown,
                above,
            );
        }
        entries_keep_dirs(disk, mid, dir, rest.drop_first(), above);
    }
}

proof fn contents_grow(
    disk: Disk,
    g: Gathered,
    dir: usize,
    path: PathBuf,
    shown: Seq<char>,
    above: Seq<Seq<u8>>,
)
    requires
        add_contents(disk, g, dir, path, shown, above) matches Ok(h) && h.payload.dirs.len()
            <= usize::MAX,
        dir < g.payload.dirs.len(),
    ensures
        grew(disk, g.payload, add_contents(disk, g, dir, path, shown, above)->Ok_0.payload),
    decreases 66 - above.len(), 0nat,
{
    let canonical = (disk.resolve)(path);
    entries_grow(disk, g, dir, sort_entries((disk.list)(path)), above.push(canonical));
}

proof fn one_grows(disk: Disk, g: Gathered, dir: usize, e: EntryView, above: Seq<Seq<u8>>)
    requires
        add_one(disk, g, dir, e, above) matches Ok(h) && h.payload.dirs.len() <= usize::MAX,
        dir < g.payload.dirs.len(),
        above.len() <= 65,
    ensures
        grew(disk, g.payload, add_one(disk, g, dir, e, above)->Ok_0.payload),
    decreases 66 - above.len(), 1nat,
{
    let names = reserving(g.names, g.payload.dirs[dir as int].path, e.name, e.shown)->Ok_0;
    if (disk.is_dir)(e.path) {
        let inner = Gathered { names, payload: g.payload.with_dir(dir as int, e.name) };
        let next = g.payload.dirs.len() as usize;
        dir_grows(disk, g.payload, dir as int, e.name);
        contents_keep_dirs(disk, inner, next, e.path, e.shown, above);
        contents_grow(disk, inner, next, e.path, e.shown, above);
        grew_further(
            disk,
            g.payload,
            inner.payload,
            add_one(disk, g, dir, e, above)->Ok_0.payload,
        );
    } else {
        file_grows(disk, g.payload, dir as int, e.name, e.path);
    }
}

proof fn entries_grow(
    disk: Disk,
    g: Gathered,
    dir: usize,
    rest: Seq<EntryView>,
    above: Seq<Seq<u8>>,
)
    requires
        add_entries(disk, g, dir, rest, above) matches Ok(h) && h.payload.dirs.len() <= usize::MAX,
        dir < g.payload.dirs.len(),
        above.len() <= 65,
    ensures
        grew(disk, g.payload, add_entries(disk, g, dir, rest, above)->Ok_0.payload),
    decreases 66 - above.len(), rest.len() + 1,
{
    if rest.len() > 0 {
        entries_keep_dirs(disk, g, dir, rest, above);
        let mid = add_one(disk, g, dir, rest[0], above)->Ok_0;
        one_grows(disk, g, dir, rest[0], above);
        entries_grow(disk, mid, dir, rest.drop_first(), above);
        grew_further(
            disk,
            g.payload,
            mid.payload,
            add_entries(disk, g, dir, rest, above)->Ok_0.payload,
        );
    }
}

/// Whether a payload has a record of a file.
pub open spec fn records_file(p: PayloadView, path: Seq<char>, source: PathBuf) -> bool {
    exists|r: int|
        0 <= r < p.records.len() && (#[trigger] p.records[r]).source_path == source
            && p.records[r].relative_path == path
}

/// Whether the image has a directory besides its root with a path.
pub open spec fn has_dir(p: PayloadView, path: Seq<char>) -> bool {
    exists|d: int| 0 < d < p.dirs.len() && (#[trigger] p.dirs[d]).path == path
}

/// Whether a payload has what a chain leads to.
spec fn has_end(disk: Disk, p: PayloadView, dir: Seq<char>, chain: Seq<EntryView>) -> bool {
    if (disk.is_dir)(chain.last().path) {
        has_dir(p, place(dir, chain))
    } else {
        records_file(p, place(dir, chain), chain.last().path)
    }
}

proof fn has_file_still(disk: Disk, p: PayloadView, q: PayloadView, path: Seq<char>, source: PathBuf)
    requires
        records_file(p, path, source),
        grew(disk, p, q),
    ensures
        records_file(q, path, source),
{
    let r = choose|r: int|
        0 <= r < p.records.len() && (#[trigger] p.records[r]).source_path == source
            && p.records[r].relative_path == path;
    assert(q.records[r] == p.records[r]);
}

proof fn has_dir_still(disk: Disk, p: PayloadView, q: PayloadView, path: Seq<char>)
    requires
        has_dir(p, path),
        grew(disk, p, q),
    ensures
        has_dir(q, path),
{
    let d = choose|d: int| 0 < d < p.dirs.len() && (#[trigger] p.dirs[d]).path == path;
    assert(q.dirs[d].path == p.dirs[d].path);
}

proof fn has_end_still(
    disk: Disk,
    p: PayloadView,
    q: PayloadView,
    dir: Seq<char>,
    chain: Seq<EntryView>,
)
    requires
        has_end(disk, p, dir, chain),
        grew(disk, p, q),
    ensures
        has_end(disk, q, dir, chain),
{
    if (disk.is_dir)(chain.last().path) {
        has_dir_still(disk, p, q, place(dir, chain));
    } else {
        has_file_still(disk, p, q, place(dir, chain), chain.last().path);
    }
}

/// A chain of one entry leads to the name of the entry in the directory.
proof fn place_of_one(dir: Seq<char>, chain: Seq<EntryView>)
    requires
        chain.len() == 1,
    ensures
        place(dir, chain) == if dir.len() == 0 {
            chain[0].name
        } else {
            dir + seq!['/'] + chain[0].name
        },
{
    reveal_with_fuel(place, 2);
}

proof fn contents_are_found(
    disk: Disk,
    g: Gathered,
    dir: usize,
    path: PathBuf,
    shown: Seq<char>,
    above: Seq<Seq<u8>>,
    chain: Seq<EntryView>,
)
    requires
        add_contents(disk, g, dir, path, shown, above) matches Ok(h) && h.payload.dirs.len()
            <= usize::MAX,
        dir < g.payload.dirs.len(),
        leads(disk, path, chain),
    ensures
        has_end(
            disk,
            add_contents(disk, g, dir, path, shown, above)->Ok_0.payload,
            g.payload.dirs[dir as int].path,
            chain,
        ),
    decreases 66 - above.len(), 0nat,
{
    let canonical = (disk.resolve)(path);
    listings_are_sorted((disk.list)(path));
    entries_are_found(
        disk,
        g,
        dir,
        sort_entries((disk.list)(path)),
        above.push(canonical),
        chain,
    );
}

/// Whether a chain leads on from one of the entries of a listing.
spec fn leads_on(disk: Disk, rest: Seq<EntryView>, chain: Seq<EntryView>) -> bool {
    &&& chain.len() > 0
    &&& rest.contains(chain[0])
    &&& chain.len() > 1 ==> (disk.is_dir)(chain[0].path) && leads(
        disk,
        chain[0].path,
        chain.drop_first(),
    )
}

proof fn one_is_found(
    disk: Disk,
    g: Gathered,
    dir: usize,
    e: EntryView,
    above: Seq<Seq<u8>>,
    chain: Seq<EntryView>,
)
    requires
        add_one(disk, g, dir, e, above) matches Ok(h) && h.payload.dirs.len() <= usize::MAX,
        dir < g.payload.dirs.len(),
        above.len() <= 65,
        leads_on(disk, seq![e], chain),
    ensures
        has_end(
            disk,
            add_one(disk, g, dir, e, above)->Ok_0.payload,
            g.payload.dirs[dir as int].path,
            chain,
        ),
    decreases 66 - above.len(), 1nat,
{
    let mid = add_one(disk, g, dir, e, above)->Ok_0;
    let here = g.payload.dirs[dir as int].path;
    let names = reserving(g.names, here, e.name, e.shown)->Ok_0;
    assert(chain[0] == e);
    if chain.len() == 1 {
        assert(chain.last() == e);
        place_of_one(here, chain);
    }
    if (disk.is_dir)(e.path) {
        let inner = Gathered { names, payload: g.payload.with_dir(dir as int, e.name) };
        let next = g.payload.dirs.len() as usize;
        dir_grows(disk, g.payload, dir as int, e.name);
        contents_keep_dirs(disk, inner, next, e.path, e.shown, above);
        if chain.len() == 1 {
            contents_grow(disk, inner, next, e.path, e.shown, above);
            assert(mid.payload.dirs[next as int].path == place(here, chain));
        } else {
            let below = chain.drop_first();
            assert(below.last() == chain.last());
            contents_are_found(disk, inner, next, e.path, e.shown, above, below);
            assert(place(inner.payload.dirs[next as int].path, below) == place(here, chain));
        }
    } else {
        file_grows(disk, g.payload, dir as int, e.name, e.path);
        let r = g.payload.records.len() as int;
        assert(mid.payload.records[r].source_path == chain.last().path);
    }
}

proof fn entries_are_found(
    disk: Disk,
    g: Gathered,
    dir: usize,
    rest: Seq<EntryView>,
    above: Seq<Seq<u8>>,
    chain: Seq<EntryView>,
)
    requires
        add_entries(disk, g, dir, rest, above) matches Ok(h) && h.payload.dirs.len() <= usize::MAX,
        dir < g.payload.dirs.len(),
        above.len() <= 65,
        leads_on(disk, rest, chain),
    ensures
        has_end(
            disk,
            add_entries(disk, g, dir, rest, above)->Ok_0.payload,
            g.payload.dirs[dir as int].path,
            chain,
        ),
    decreases 66 - above.len(), rest.len() + 1,
{
    let e = rest[0];
    let h = add_entries(disk, g, dir, rest, above)->Ok_0;
    entries_keep_dirs(disk, g, dir, rest, above);
    let mid = add_one(disk, g, dir, e, above)->Ok_0;
    one_grows(disk, g, dir, e, above);
    entries_grow(disk, mid, dir, rest.drop_first(), above);
    let here = g.payload.dirs[dir as int].path;
    if e == chain[0] {
        assert(seq![e][0] == chain[0]);
        one_is_found(disk, g, dir, e, above, chain);
        has_end_still(disk, mid.payload, h.payload, here, chain);
    } else {
        let k = choose|k: int| 0 <= k < rest.len() && rest[k] == chain[0];
        assert(rest.drop_first()[k - 1] == chain[0]);
        entries_are_found(disk, mid, dir, rest.drop_first(), above, chain);
        assert(mid.payload.dirs[dir as int].path == here);
    }
}

// ---------------------------------------------------------------------------
// nothing else is gathered
// ---------------------------------------------------------------------------

/// Whether a record is that of a file that a chain leads to.
spec fn record_from(
    disk: Disk,
    rest: Seq<EntryView>,
    dir: Seq<char>,
    rec: RecordView,
    chain: Seq<EntryView>,
) -> bool {
    &&& leads_on(disk, rest, chain)
    &&& !(disk.is_dir)(chain.last().path)
    &&& rec.source_path == chain.last().path
    &&& rec.relative_path == place(dir, chain)
}

proof fn contents_are_all(
    disk: Disk,
    g: Gathered,
    dir: usize,
    path: PathBuf,
    shown: Seq<char>,
    above: Seq<Seq<u8>>,
    r: int,
) -> (chain: Seq<EntryView>)
    requires
        add_contents(disk, g, dir, path, shown, above) matches Ok(h) && h.payload.dirs.len()
            <= usize::MAX && g.payload.records.len() <= r < h.payload.records.len(),
        dir < g.payload.dirs.len(),
    ensures
        record_from(
            disk,
            (disk.list)(path),
            g.payload.dirs[dir as int].path,
            add_contents(disk, g, dir, path, shown, above)->Ok_0.payload.records[r],
            chain,
        ),
        leads(disk, path, chain),
    decreases 66 - above.len(), 0nat,
{
    let canonical = (disk.resolve)(path);
    listings_are_sorted((disk.list)(path));
    entries_are_all(disk, g, dir, sort_entries((disk.list)(path)), above.push(canonical), r)
}

proof fn one_is_all(
    disk: Disk,
    g: Gathered,
    dir: usize,
    e: EntryView,
    above: Seq<Seq<u8>>,
    r: int,
) -> (chain: Seq<EntryView>)
    requires
        add_one(disk, g, dir, e, above) matches Ok(h) && h.payload.dirs.len() <= usize::MAX
            && g.payload.records.len() <= r < h.payload.records.len(),
        dir < g.payload.dirs.len(),
        above.len() <= 65,
    ensures
        record_from(
            disk,
            seq![e],
            g.payload.dirs[dir as int].path,
            add_one(disk, g, dir, e, above)->Ok_0.payload.records[r],
            chain,
        ),
    decreases 66 - above.len(), 1nat,
{
    let mid = add_one(disk, g, dir, e, above)->Ok_0;
    let here = g.payload.dirs[dir as int].path;
    let names = reserving(g.names, here, e.name, e.shown)->Ok_0;
    assert(seq![e][0] == e);
    if (disk.is_dir)(e.path) {
        let inner = Gathered { names, payload: g.payload.with_dir(dir as int, e.name) };
        let next = g.payload.dirs.len() as usize;
        dir_grows(disk, g.payload, dir as int, e.name);
        contents_keep_dirs(disk, inner, next, e.path, e.shown, above);
        let below = contents_are_all(disk, inner, next, e.path, e.shown, above, r);
        let chain = seq![e] + below;
        assert(chain.drop_first() =~= below);
        assert(chain.last() == below.last());
        chain
    } else {
        file_grows(disk, g.payload, dir as int, e.name, e.path);
        let chain = seq![e];
        place_of_one(here, chain);
        chain
    }
}

proof fn entries_are_all(
    disk: Disk,
    g: Gathered,
    dir: usize,
    rest: Seq<EntryView>,
    above: Seq<Seq<u8>>,
    r: int,
) -> (chain: Seq<EntryView>)
    requires
        add_entries(disk, g, dir, rest, above) matches Ok(h) && h.payload.dirs.len() <= usize::MAX
            && g.payload.records.len() <= r < h.payload.records.len(),
        dir < g.payload.dirs.len(),
        above.len() <= 65,
    ensures
        record_from(
            disk,
            rest,
            g.payload.dirs[dir as int].path,
            add_entries(disk, g, dir, rest, above)->Ok_0.payload.records[r],
            chain,
        ),
    decreases 66 - above.len(), rest.len() + 1,
{
    let e = rest[0];
    let h = add_entries(disk, g, dir, rest, above)->Ok_0;
    entries_keep_dirs(disk, g, dir, rest, above);
    let mid = add_one(disk, g, dir, e, above)->Ok_0;
    one_grows(disk, g, dir, e, above);
    entries_grow(disk, mid, dir, rest.drop_first(), above);
    if r < mid.payload.records.len() {
        let chain = one_is_all(disk, g, dir, e, above, r);
        assert(h.payload.records[r] == mid.payload.records[r]);
        assert(chain[0] == e);
        assert(rest.contains(chain[0]));
        chain
    } else {
        let chain = entries_are_all(disk, mid, dir, rest.drop_first(), above, r);
        let k = choose|k: int| 0 <= k < rest.drop_first().len() && rest.drop_first()[k] == chain[0];
        assert(rest[k + 1] == chain[0]);
        assert(mid.payload.dirs[dir as int].path == g.payload.dirs[dir as int].path);
        chain
    }
}

// ---------------------------------------------------------------------------
// inputs
// ---------------------------------------------------------------------------

/// The path that the contents of a directory input have in the image: its name,
/// or that of the root where `flat` is set or it has no name of its own.
pub open spec fn input_dir(flat: bool, input: Input) -> Seq<char> {
    match input.name {
        Some(n) => if flat || n == seq!['.'] || n == seq!['.', '.'] {
            Seq::empty()
        } else {
            n
        },
        None => Seq::empty(),
    }
}

/// Whether a file lies in an input, and where it goes in the image: a file
/// input to the root under its name; a file below a directory input to the
/// place that the names on the way give it.
pub open spec fn lies_in(
    disk: Disk,
    flat: bool,
    input: Input,
    path: Seq<char>,
    source: PathBuf,
) -> bool {
    if (disk.is_dir)(input.path) {
        exists|chain: Seq<EntryView>| #[trigger]
            leads_to_file(disk, input.path, chain) && source == chain.last().path && path == place(
                input_dir(flat, input),
                chain,
            )
    } else {
        source == input.path && input.name == Some(path)
    }
}

/// What an input comes to below the root: the contents of a directory.
proof fn input_is_contents(disk: Disk, g: Gathered, flat: bool, input: Input) -> (r: (
    Gathered,
    usize,
))
    requires
        add_input(disk, g, flat, input) is Ok,
        (disk.is_dir)(input.path),
        g.payload.dirs.len() > 0,
        g.payload.dirs[0].path.len() == 0,
        g.payload.dirs.len() < usize::MAX,
    ensures
        add_input(disk, g, flat, input) == add_contents(
            disk,
            r.0,
            r.1,
            input.path,
            input.shown,
            Seq::empty(),
        ),
        grew(disk, g.payload, r.0.payload),
        r.0.payload.records == g.payload.records,
        r.1 < r.0.payload.dirs.len(),
        r.0.payload.dirs[r.1 as int].path == input_dir(flat, input),
{
    reveal_strlit(".");
    reveal_strlit("..");
    assert("."@ =~= seq!['.']);
    assert(".."@ =~= seq!['.', '.']);
    let root = g.payload.dirs[0].path;
    assert(root =~= Seq::<char>::empty());
    if flat || input.name is None || input.name == Some("."@) || input.name == Some(".."@) {
        (g, 0)
    } else {
        let n = input.name->0;
        let names = reserving(g.names, root, n, input.shown)->Ok_0;
        dir_grows(disk, g.payload, 0, n);
        (
            Gathered { names, payload: g.payload.with_dir(0, n) },
            g.payload.dirs.len() as usize,
        )
    }
}

proof fn input_keeps_dirs(disk: Disk, g: Gathered, flat: bool, input: Input)
    requires
        add_input(disk, g, flat, input) is Ok,
        g.payload.dirs.len() > 0,
    ensures
        g.payload.dirs.len() <= add_input(disk, g, flat, input)->Ok_0.payload.dirs.len(),
{
    let root = g.payload.dirs[0].path;
    if (disk.is_dir)(input.path) {
        if flat || input.name is None || input.name == Some("."@) || input.name == Some(".."@) {
            contents_keep_dirs(disk, g, 0, input.path, input.shown, Seq::empty());
        } else {
            let n = input.name->0;
            let names = reserving(g.names, root, n, input.shown)->Ok_0;
            let inner = Gathered { names, payload: g.payload.with_dir(0, n) };
            assert((g.payload.dirs.len() as usize) < g.payload.dirs.len() + 1);
            contents_keep_dirs(
                disk,
                inner,
                g.payload.dirs.len() as usize,
                input.path,
                input.shown,
                Seq::empty(),
            );
        }
    }
}

proof fn inputs_keep_dirs(disk: Disk, g: Gathered, flat: bool, inputs: Seq<Input>)
    requires
        add_inputs(disk, g, flat, inputs) is Ok,
        g.payload.dirs.len() > 0,
    ensures
        g.payload.dirs.len() <= add_inputs(disk, g, flat, inputs)->Ok_0.payload.dirs.len(),
        inputs.len() > 0 ==> ({
            let less = add_inputs(disk, g, flat, inputs.drop_last());
            &&& less is Ok
            &&& g.payload.dirs.len() <= less->Ok_0.payload.dirs.len()
            &&& less->Ok_0.payload.dirs.len() <= add_inputs(
                disk,
                g,
                flat,
                inputs,
            )->Ok_0.payload.dirs.len()
        }),
    decreases inputs.len(),
{
    if inputs.len() > 0 {
        inputs_keep_dirs(disk, g, flat, inputs.drop_last());
        let less = add_inputs(disk, g, flat, inputs.drop_last())->Ok_0;
        input_keeps_dirs(disk, less, flat, inputs.last());
    }
}

proof fn input_grows(disk: Disk, g: Gathered, flat: bool, input: Input)
    requires
        add_input(disk, g, flat, input) matches Ok(h) && h.payload.dirs.len() < usize::MAX,
        g.payload.dirs.len() > 0,
        g.payload.dirs[0].path.len() == 0,
    ensures
        grew(disk, g.payload, add_input(disk, g, flat, input)->Ok_0.payload),
{
    input_keeps_dirs(disk, g, flat, input);
    if (disk.is_dir)(input.path) {
        let (inner, dir) = input_is_contents(disk, g, flat, input);
        contents_grow(disk, inner, dir, input.path, input.shown, Seq::empty());
        grew_further(
            disk,
            g.payload,
            inner.payload,
            add_input(disk, g, flat, input)->Ok_0.payload,
        );
    } else {
        file_grows(disk, g.payload, 0, input.name->0, input.path);
    }
}

/// What is gathered from inputs: the root stays, and what was there before.
proof fn inputs_grow(disk: Disk, g: Gathered, flat: bool, inputs: Seq<Input>)
    requires
        add_inputs(disk, g, flat, inputs) matches Ok(h) && h.payload.dirs.len() < usize::MAX,
        g.payload.dirs.len() > 0,
        g.payload.dirs[0].path.len() == 0,
    ensures
        grew(disk, g.payload, add_inputs(disk, g, flat, inputs)->Ok_0.payload),
        inputs.len() > 0 ==> ({
            let less = add_inputs(disk, g, flat, inputs.drop_last())->Ok_0;
            let h = add_inputs(disk, g, flat, inputs)->Ok_0;
            &&& add_inputs(disk, g, flat, inputs.drop_last()) is Ok
            &&& add_input(disk, less, flat, inputs.last()) == Ok::<Gathered, Failure>(h)
            &&& less.payload.dirs.len() <= h.payload.dirs.len()
            &&& less.payload.dirs.len() > 0
            &&& less.payload.dirs[0].path.len() == 0
            &&& grew(disk, less.payload, h.payload)
        }),
    decreases inputs.len(),
{
    if inputs.len() > 0 {
        let input = inputs.last();
        inputs_keep_dirs(disk, g, flat, inputs);
        let less = add_inputs(disk, g, flat, inputs.drop_last())->Ok_0;
        let h = add_inputs(disk, g, flat, inputs)->Ok_0;
        inputs_grow(disk, g, flat, inputs.drop_last());
        assert(less.payload.dirs[0].path == g.payload.dirs[0].path);
        input_grows(disk, less, flat, input);
        grew_further(disk, g.payload, less.payload, h.payload);
    }
}

proof fn input_is_found(
    disk: Disk,
    g: Gathered,
    flat: bool,
    input: Input,
    path: Seq<char>,
    source: PathBuf,
)
    requires
        add_input(disk, g, flat, input) matches Ok(h) && h.payload.dirs.len() < usize::MAX,
        g.payload.dirs.len() > 0,
        g.payload.dirs[0].path.len() == 0,
        lies_in(disk, flat, input, path, source),
    ensures
        records_file(add_input(disk, g, flat, input)->Ok_0.payload, path, source),
{
    let h = add_input(disk, g, flat, input)->Ok_0;
    input_keeps_dirs(disk, g, flat, input);
    if (disk.is_dir)(input.path) {
        let (inner, dir) = input_is_contents(disk, g, flat, input);
        let chain = choose|chain: Seq<EntryView>| #[trigger]
            leads_to_file(disk, input.path, chain) && source == chain.last().path && path == place(
                input_dir(flat, input),
                chain,
            );
        contents_are_found(disk, inner, dir, input.path, input.shown, Seq::empty(), chain);
    } else {
        file_grows(disk, g.payload, 0, path, input.path);
        let r = g.payload.records.len() as int;
        assert(h.payload.records[r].source_path == source);
    }
}

proof fn inputs_are_found(
    disk: Disk,
    g: Gathered,
    flat: bool,
    inputs: Seq<Input>,
    k: int,
    path: Seq<char>,
    source: PathBuf,
)
    requires
        add_inputs(disk, g, flat, inputs) matches Ok(h) && h.payload.dirs.len() < usize::MAX,
        g.payload.dirs.len() > 0,
        g.payload.dirs[0].path.len() == 0,
        0 <= k < inputs.len(),
        lies_in(disk, flat, inputs[k], path, source),
    ensures
        records_file(add_inputs(disk, g, flat, inputs)->Ok_0.payload, path, source),
    decreases inputs.len(),
{
    inputs_grow(disk, g, flat, inputs);
    let less = add_inputs(disk, g, flat, inputs.drop_last())->Ok_0;
    let h = add_inputs(disk, g, flat, inputs)->Ok_0;
    if k == inputs.len() - 1 {
        input_is_found(disk, less, flat, inputs.last(), path, source);
    } else {
        assert(inputs.drop_last()[k] == inputs[k]);
        inputs_are_found(disk, g, flat, inputs.drop_last(), k, path, source);
        has_file_still(disk, less.payload, h.payload, path, source);
    }
}

proof fn inputs_are_all(disk: Disk, g: Gathered, flat: bool, inputs: Seq<Input>, r: int) -> (k: int)
    requires
        add_inputs(disk, g, flat, inputs) matches Ok(h) && h.payload.dirs.len() < usize::MAX
            && g.payload.records.len() <= r < h.payload.records.len(),
        g.payload.dirs.len() > 0,
        g.payload.dirs[0].path.len() == 0,
    ensures
        0 <= k < inputs.len(),
        ({
            let rec = add_inputs(disk, g, flat, inputs)->Ok_0.payload.records[r];
            lies_in(disk, flat, inputs[k], rec.relative_path, rec.source_path)
        }),
    decreases inputs.len(),
{
    inputs_grow(disk, g, flat, inputs);
    let less = add_inputs(disk, g, flat, inputs.drop_last())->Ok_0;
    let h = add_inputs(disk, g, flat, inputs)->Ok_0;
    if r < less.payload.records.len() {
        assert(h.payload.records[r] == less.payload.records[r]);
        let k = inputs_are_all(disk, g, flat, inputs.drop_last(), r);
        assert(inputs.drop_last()[k] == inputs[k]);
        k
    } else {
        let input = inputs.last();
        if (disk.is_dir)(input.path) {
            let (inner, dir) = input_is_contents(disk, less, flat, input);
            let chain = contents_are_all(
                disk,
                inner,
                dir,
                input.path,
                input.shown,
                Seq::empty(),
                r,
            );
            assert(leads_to_file(disk, input.path, chain));
        } else {
            file_grows(disk, less.payload, 0, input.name->0, input.path);
        }
        inputs.len() - 1
    }
}

/// After a walk over a file system that does not change there is a record for
/// every file that lies in one of the inputs, with its place in the image and
/// its source.
pub proof fn every_file_is_recorded(
    disk: Disk,
    flat: bool,
    inputs: Seq<Input>,
    n: nat,
    k: int,
    path: Seq<char>,
    source: PathBuf,
)
    requires
        ends_by(disk, flat, inputs, n),
        walked(disk, WalkView::start(flat), inputs, n) matches Ok(w) && w.payload.dirs.len()
            < usize::MAX,
        0 <= k < inputs.len(),
        lies_in(disk, flat, inputs[k], path, source),
    ensures
        exists|r: int|
            #![trigger (walked(disk, WalkView::start(flat), inputs, n)->Ok_0).payload.records[r]]
            ({
                let p = (walked(disk, WalkView::start(flat), inputs, n)->Ok_0).payload;
                &&& 0 <= r < p.records.len()
                &&& p.records[r].relative_path == path
                &&& p.records[r].source_path == source
            }),
{
    inputs_are_found(disk, gathered(WalkView::start(flat)), flat, inputs, k, path, source);
    let p = (walked(disk, WalkView::start(flat), inputs, n)->Ok_0).payload;
    let r = choose|r: int|
        0 <= r < p.records.len() && (#[trigger] p.records[r]).source_path == source
            && p.records[r].relative_path == path;
    assert(p.records[r].relative_path == path);
}

/// Every record of such a walk is that of a file that lies in one of the
/// inputs.
pub proof fn only_files_are_recorded(
    disk: Disk,
    flat: bool,
    inputs: Seq<Input>,
    n: nat,
    r: int,
)
    requires
        ends_by(disk, flat, inputs, n),
        walked(disk, WalkView::start(flat), inputs, n) matches Ok(w) && w.payload.dirs.len()
            < usize::MAX && 0 <= r < w.payload.records.len(),
    ensures
        exists|k: int|
            0 <= k < inputs.len() && lies_in(
                disk,
                flat,
                #[trigger] inputs[k],
                (walked(
                    disk,
                    WalkView::start(flat),
                    inputs,
                    n,
                )->Ok_0).payload.records[r].relative_path,
                (walked(
                    disk,
                    WalkView::start(flat),
                    inputs,
                    n,
                )->Ok_0).payload.records[r].source_path,
            ),
{
    let k = inputs_are_all(disk, gathered(WalkView::start(flat)), flat, inputs, r);
    assert(inputs[k] == inputs[k]);
}

/// Such a walk has counted the bytes of every file that it has a record of, and
/// every directory of the image but the root.
pub proof fn payload_is_counted(disk: Disk, flat: bool, inputs: Seq<Input>, n: nat)
    requires
        ends_by(disk, flat, inputs, n),
        walked(disk, WalkView::start(flat), inputs, n) matches Ok(w) && w.payload.dirs.len()
            < usize::MAX,
    ensures
        ({
            let p = (walked(disk, WalkView::start(flat), inputs, n)->Ok_0).payload;
            &&& p.payload_bytes == bytes_of(disk, p.records)
            &&& p.directory_count == p.dirs.len() - 1
        }),
{
    inputs_grow(disk, gathered(WalkView::start(flat)), flat, inputs);
}

/// Every directory below a directory input has its directory in the image, also
/// where it holds no files.
pub proof fn every_directory_is_made(
    disk: Disk,
    flat: bool,
    inputs: Seq<Input>,
    n: nat,
    k: int,
    chain: Seq<EntryView>,
)
    requires
        ends_by(disk, flat, inputs, n),
        walked(disk, WalkView::start(flat), inputs, n) matches Ok(w) && w.payload.dirs.len()
            < usize::MAX,
        0 <= k < inputs.len(),
        (disk.is_dir)(inputs[k].path),
        leads(disk, inputs[k].path, chain),
        (disk.is_dir)(chain.last().path),
    ensures
        has_dir(
            (walked(disk, WalkView::start(flat), inputs, n)->Ok_0).payload,
            place(input_dir(flat, inputs[k]), chain),
        ),
{
    directories_are_found(disk, gathered(WalkView::start(flat)), flat, inputs, k, chain);
}

proof fn directories_are_found(
    disk: Disk,
    g: Gathered,
    flat: bool,
    inputs: Seq<Input>,
    k: int,
    chain: Seq<EntryView>,
)
    requires
        add_inputs(disk, g, flat, inputs) matches Ok(h) && h.payload.dirs.len() < usize::MAX,
        g.payload.dirs.len() > 0,
        g.payload.dirs[0].path.len() == 0,
        0 <= k < inputs.len(),
        (disk.is_dir)(inputs[k].path),
        leads(disk, inputs[k].path, chain),
        (disk.is_dir)(chain.last().path),
    ensures
        has_dir(
            add_inputs(disk, g, flat, inputs)->Ok_0.payload,
            place(input_dir(flat, inputs[k]), chain),
        ),
    decreases inputs.len(),
{
    inputs_grow(disk, g, flat, inputs);
    let less = add_inputs(disk, g, flat, inputs.drop_last())->Ok_0;
    let h = add_inputs(disk, g, flat, inputs)->Ok_0;
    if k == inputs.len() - 1 {
        let input = inputs.last();
        let (inner, dir) = input_is_contents(disk, less, flat, input);
        contents_are_found(disk, inner, dir, input.path, input.shown, Seq::empty(), chain);
    } else {
        assert(inputs.drop_last()[k] == inputs[k]);
        directories_are_found(disk, g, flat, inputs.drop_last(), k, chain);
        has_dir_still(
            disk,
            less.payload,
            h.payload,
            place(input_dir(flat, inputs[k]), chain),
        );
    }
}

// ---------------------------------------------------------------------------
// what is refused
// ---------------------------------------------------------------------------

/// Two entries of one directory of the image collide where their names differ
/// in the case of ASCII letters only, and in no other case; entries of other
/// directories do not collide with them. The failure tells of both: at the root
/// their sources, elsewhere the directory and the entry that came first.
pub proof fn names_collide_without_case(
    names: Map<NameKey, NameOwner>,
    dir: Seq<char>,
    a: Seq<char>,
    source: Seq<char>,
    other: Seq<char>,
    b: Seq<char>,
    second: Seq<char>,
)
    requires
        reserving(names, dir, a, source) is Ok,
        reserving(names, other, b, second) is Ok,
    ensures
        ({
            let r = reserving(reserving(names, dir, a, source)->Ok_0, other, b, second);
            &&& r is Err <==> dir == other && same_but_case(a, b)
            &&& r is Err && dir.len() == 0 ==> r->Err_0 == (Failure::DuplicateRoot {
                name: b,
                previous: source,
                source: second,
            })
            &&& r is Err && dir.len() > 0 ==> r->Err_0 == (Failure::DuplicateName {
                name: b,
                dir,
                previous_name: a,
                previous: source,
            })
        }),
{
    folding_ignores_case_only(a, b);
}

/// A chain of directories more than 64 levels below a directory input is
/// refused.
pub proof fn deep_inputs_are_refused(
    disk: Disk,
    g: Gathered,
    dir: usize,
    path: PathBuf,
    shown: Seq<char>,
    above: Seq<Seq<u8>>,
    chain: Seq<EntryView>,
)
    requires
        dir < g.payload.dirs.len(),
        chain.len() > 0 ==> leads(disk, path, chain) && (disk.is_dir)(chain.last().path),
        above.len() + chain.len() > 64,
    ensures
        add_contents(disk, g, dir, path, shown, above) is Err,
    decreases chain.len(), 1nat, 0nat,
{
    if above.len() <= 64 && add_contents(disk, g, dir, path, shown, above) is Ok {
        let canonical = (disk.resolve)(path);
        listings_are_sorted((disk.list)(path));
        deep_entries_are_refused(
            disk,
            g,
            dir,
            sort_entries((disk.list)(path)),
            above.push(canonical),
            chain,
        );
    }
}

proof fn deep_entries_are_refused(
    disk: Disk,
    g: Gathered,
    dir: usize,
    rest: Seq<EntryView>,
    above: Seq<Seq<u8>>,
    chain: Seq<EntryView>,
)
    requires
        dir < g.payload.dirs.len(),
        leads_on(disk, rest, chain),
        (disk.is_dir)(chain.last().path),
        above.len() + chain.len() > 65,
        above.len() <= 65,
    ensures
        add_entries(disk, g, dir, rest, above) is Err,
    decreases chain.len(), 0nat, rest.len(),
{
    if add_entries(disk, g, dir, rest, above) is Ok {
        let e = rest[0];
        entries_keep_dirs(disk, g, dir, rest, above);
        let mid = add_one(disk, g, dir, e, above)->Ok_0;
        if e == chain[0] {
            let below = chain.drop_first();
            let names = reserving(g.names, g.payload.dirs[dir as int].path, e.name, e.shown)->Ok_0;
            assert(chain.len() == 1 ==> chain.last() == e);
            assert(chain.len() > 1 ==> below.last() == chain.last());
            assert((g.payload.dirs.len() as usize) < g.payload.dirs.len() + 1);
            deep_inputs_are_refused(
                disk,
                Gathered { names, payload: g.payload.with_dir(dir as int, e.name) },
                g.payload.dirs.len() as usize,
                e.path,
                e.shown,
                above,
                below,
            );
        } else {
            let k = choose|k: int| 0 <= k < rest.len() && rest[k] == chain[0];
            assert(rest.drop_first()[k - 1] == chain[0]);
            deep_entries_are_refused(disk, mid, dir, rest.drop_first(), above, chain);
        }
    }
}

/// What the directories of a chain resolve to, from a directory down.
pub open spec fn resolved_along(disk: Disk, path: PathBuf, chain: Seq<EntryView>) -> Seq<Seq<u8>> {
    seq![(disk.resolve)(path)] + chain.map_values(|e: EntryView| (disk.resolve)(e.path))
}

/// Whether a chain of directories leads down to one that resolves to the same
/// as one above it.
pub open spec fn closes_cycle(
    disk: Disk,
    path: PathBuf,
    above: Seq<Seq<u8>>,
    chain: Seq<EntryView>,
) -> bool {
    let all = above + resolved_along(disk, path, chain);
    &&& chain.len() > 0 ==> leads(disk, path, chain) && (disk.is_dir)(chain.last().path)
    &&& all.drop_last().contains(all.last())
}

/// Whether a chain of directories leads down more than 64 levels.
pub open spec fn leads_too_deep(
    disk: Disk,
    path: PathBuf,
    above: Seq<Seq<u8>>,
    chain: Seq<EntryView>,
) -> bool {
    &&& chain.len() > 0 ==> leads(disk, path, chain) && (disk.is_dir)(chain.last().path)
    &&& above.len() + chain.len() > 64
}

/// A directory input is refused as too deep only where a chain of directories
/// leads more than 64 levels down, and for a cycle only where one leads to a
/// directory that resolves to the same as one above it.
pub proof fn refused_inputs_have_causes(
    disk: Disk,
    g: Gathered,
    dir: usize,
    path: PathBuf,
    shown: Seq<char>,
    above: Seq<Seq<u8>>,
)
    ensures
        match add_contents(disk, g, dir, path, shown, above) {
            Err(Failure::TooDeep { .. }) => exists|chain: Seq<EntryView>| #[trigger]
                leads_too_deep(disk, path, above, chain),
            Err(Failure::Cycle { .. }) => exists|chain: Seq<EntryView>| #[trigger]
                closes_cycle(disk, path, above, chain),
            _ => true,
        },
    decreases 66 - above.len(), 0nat,
{
    let canonical = (disk.resolve)(path);
    let none = Seq::<EntryView>::empty();
    if above.len() > 64 {
        assert(leads_too_deep(disk, path, above, none));
    } else if above.contains(canonical) {
        let all = above + resolved_along(disk, path, none);
        assert(all =~= above.push(canonical));
        assert(all.drop_last() =~= above);
        assert(closes_cycle(disk, path, above, none));
    } else {
        let rest = sort_entries((disk.list)(path));
        listings_are_sorted((disk.list)(path));
        let deeper = above.push(canonical);
        refused_entries_have_causes(disk, g, dir, rest, deeper);
        match add_entries(disk, g, dir, rest, deeper) {
            Err(Failure::TooDeep { .. }) => {
                let (e, chain) = choose|e: EntryView, chain: Seq<EntryView>|
                    rest.contains(e) && (disk.is_dir)(e.path) && #[trigger] leads_too_deep(
                        disk,
                        e.path,
                        deeper,
                        chain,
                    );
                let whole = seq![e] + chain;
                assert(whole.drop_first() =~= chain);
                assert(leads_too_deep(disk, path, above, whole));
            },
            Err(Failure::Cycle { .. }) => {
                let (e, chain) = choose|e: EntryView, chain: Seq<EntryView>|
                    rest.contains(e) && (disk.is_dir)(e.path) && #[trigger] closes_cycle(
                        disk,
                        e.path,
                        deeper,
                        chain,
                    );
                let whole = seq![e] + chain;
                assert(whole.drop_first() =~= chain);
                assert(above + resolved_along(disk, path, whole) =~= deeper + resolved_along(
                    disk,
                    e.path,
                    chain,
                ));
                assert(closes_cycle(disk, path, above, whole));
            },
            _ => {},
        }
    }
}

proof fn refused_entries_have_causes(
    disk: Disk,
    g: Gathered,
    dir: usize,
    rest: Seq<EntryView>,
    above: Seq<Seq<u8>>,
)
    requires
        above.len() <= 65,
    ensures
        match add_entries(disk, g, dir, rest, above) {
            Err(Failure::TooDeep { .. }) => exists|e: EntryView, chain: Seq<EntryView>|
                rest.contains(e) && (disk.is_dir)(e.path) && #[trigger] leads_too_deep(
                    disk,
                    e.path,
                    above,
                    chain,
                ),
            Err(Failure::Cycle { .. }) => exists|e: EntryView, chain: Seq<EntryView>|
                rest.contains(e) && (disk.is_dir)(e.path) && #[trigger] closes_cycle(
                    disk,
                    e.path,
                    above,
                    chain,
                ),
            _ => true,
        },
    decreases 66 - above.len(), rest.len() + 1,
{
    if rest.len() > 0 {
        let e = rest[0];
        let r = add_entries(disk, g, dir, rest, above);
        assert(rest.contains(e));
        match add_one(disk, g, dir, e, above) {
            Err(f) => {
                assert(r == Err::<Gathered, Failure>(f));
                if let Ok(names) = reserving(
                    g.names,
                    g.payload.dirs[dir as int].path,
                    e.name,
                    e.shown,
                ) {
                    refused_inputs_have_causes(
                        disk,
                        Gathered { names, payload: g.payload.with_dir(dir as int, e.name) },
                        g.payload.dirs.len() as usize,
                        e.path,
                        e.shown,
                        above,
                    );
                }
            },
            Ok(mid) => {
                let less = rest.drop_first();
                refused_entries_have_causes(disk, mid, dir, less, above);
                assert(r == add_entries(disk, mid, dir, less, above));
                assert forall|x: EntryView| less.contains(x) implies rest.contains(x) by {
                    let i = choose|i: int| 0 <= i < less.len() && less[i] == x;
                    assert(rest[i + 1] == x);
                }
            },
        }
    }
}

/// A chain of directories that leads to one that resolves to the same as one
/// above it is refused.
pub proof fn cycles_are_refused(
    disk: Disk,
    g: Gathered,
    dir: usize,
    path: PathBuf,
    shown: Seq<char>,
    above: Seq<Seq<u8>>,
    chain: Seq<EntryView>,
)
    requires
        dir < g.payload.dirs.len(),
        closes_cycle(disk, path, above, chain),
    ensures
        add_contents(disk, g, dir, path, shown, above) is Err,
    decreases chain.len(), 1nat, 0nat,
{
    let canonical = (disk.resolve)(path);
    if above.len() <= 64 && add_contents(disk, g, dir, path, shown, above) is Ok {
        let all = above + resolved_along(disk, path, chain);
        if chain.len() == 0 {
            assert(all.drop_last() =~= above);
            assert(all.last() == canonical);
        } else {
            listings_are_sorted((disk.list)(path));
            let deeper = above.push(canonical);
            let below = chain.drop_first();
            assert(all =~= deeper + resolved_along(disk, chain[0].path, below));
            cyclic_entries_are_refused(
                disk,
                g,
                dir,
                sort_entries((disk.list)(path)),
                deeper,
                chain,
            );
        }
    }
}

proof fn cyclic_entries_are_refused(
    disk: Disk,
    g: Gathered,
    dir: usize,
    rest: Seq<EntryView>,
    above: Seq<Seq<u8>>,
    chain: Seq<EntryView>,
)
    requires
        dir < g.payload.dirs.len(),
        leads_on(disk, rest, chain),
        (disk.is_dir)(chain.last().path),
        ({
            let all = above + resolved_along(disk, chain[0].path, chain.drop_first());
            all.drop_last().contains(all.last())
        }),
        above.len() <= 65,
    ensures
        add_entries(disk, g, dir, rest, above) is Err,
    decreases chain.len(), 0nat, rest.len(),
{
    if add_entries(disk, g, dir, rest, above) is Ok {
        let e = rest[0];
        entries_keep_dirs(disk, g, dir, rest, above);
        let mid = add_one(disk, g, dir, e, above)->Ok_0;
        if e == chain[0] {
            let below = chain.drop_first();
            let names = reserving(g.names, g.payload.dirs[dir as int].path, e.name, e.shown)->Ok_0;
            assert(chain.len() == 1 ==> chain.last() == e);
            assert(chain.len() > 1 ==> below.last() == chain.last());
            assert((g.payload.dirs.len() as usize) < g.payload.dirs.len() + 1);
            assert(closes_cycle(disk, e.path, above, below));
            cycles_are_refused(
                disk,
                Gathered { names, payload: g.payload.with_dir(dir as int, e.name) },
                g.payload.dirs.len() as usize,
                e.path,
                e.shown,
                above,
                below,
            );
        } else {
            let k = choose|k: int| 0 <= k < rest.len() && rest[k] == chain[0];
            assert(rest.drop_first()[k - 1] == chain[0]);
            cyclic_entries_are_refused(disk, mid, dir, rest.drop_first(), above, chain);
        }
    }
}

} // verus!
