//! What a gathered tree holds, where the file system does not change meanwhile:
//! a mirror of what lies below the inputs.
use vstd::prelude::*;
use vstd::utf8::encode_utf8;
use crate::census::listings_are_sorted;
use crate::collect::{sort_entries, EntryView};
use crate::gather::{dir_node, GatherView, Kind, Trouble};
use crate::gathered::{
    collect_input, collect_inputs, collect_into, collect_kids, ends_by, walked, with_children, Disk,
};
use crate::order::{lex_le, sort_items_facts};
use crate::tree::{NodeView, TreeView};

verus! {

/// Whether node `n`, with all that lies below it, mirrors an entry of the file
/// system, within nodes below `end` and `fuel` levels: a file has its name,
/// source, size (4 GiB less a byte at most) and time; a directory its name and
/// time, and a child for each entry that it lists, in the order of their names.
pub open spec fn mirrors(
    disk: Disk,
    nodes: Seq<NodeView>,
    n: int,
    end: int,
    e: EntryView,
    fuel: nat,
) -> bool
    decreases fuel,
{
    let node = nodes[n];
    let order = sort_entries((disk.list)(e.path));
    &&& 0 < n < end
    &&& node.name == e.name
    &&& node.mtime == (disk.mtime)(e.path)
    &&& match (disk.kind)(e.path) {
        Kind::File(size) => {
            &&& !node.is_dir
            &&& node.src == Some(e.path)
            &&& node.size == size
            &&& size <= 4 * 1024 * 1024 * 1024 - 1
            &&& node.children.len() == 0
        },
        Kind::Dir => {
            &&& node.is_dir
            &&& node.src is None
            &&& fuel > 0
            &&& node.children.len() == order.len()
            &&& forall|i: int|
                0 <= i < node.children.len() ==> n < #[trigger] node.children[i]
            &&& forall|i: int|
                0 <= i < order.len() ==> mirrors(
                    disk,
                    nodes,
                    node.children[i] as int,
                    end,
                    #[trigger] order[i],
                    (fuel - 1) as nat,
                )
        },
        Kind::Other => false,
    }
}

/// Whether nodes from `a` on, and below `b`, are the same but for their parents.
spec fn same_between(x: Seq<NodeView>, y: Seq<NodeView>, a: int, b: int) -> bool {
    forall|i: int|
        a <= i < b ==> (#[trigger] y[i]) == (NodeView { parent: y[i].parent, ..x[i] })
}

/// What lies below a node stays what it is where only parents, nodes before it
/// or nodes behind `end` change.
proof fn mirrors_still(
    disk: Disk,
    x: Seq<NodeView>,
    y: Seq<NodeView>,
    n: int,
    end: int,
    more: int,
    e: EntryView,
    fuel: nat,
    room: nat,
)
    requires
        mirrors(disk, x, n, end, e, fuel),
        same_between(x, y, n, end),
        end <= more,
        fuel <= room,
    ensures
        mirrors(disk, y, n, more, e, room),
    decreases fuel,
{
    assert(y[n] == (NodeView { parent: y[n].parent, ..x[n] }));
    if let Kind::Dir = (disk.kind)(e.path) {
        let kids = x[n].children;
        let order = sort_entries((disk.list)(e.path));
        assert forall|i: int| 0 <= i < order.len() implies mirrors(
            disk,
            y,
            kids[i] as int,
            more,
            #[trigger] order[i],
            (room - 1) as nat,
        ) by {
            mirrors_still(
                disk,
                x,
                y,
                kids[i] as int,
                end,
                more,
                order[i],
                (fuel - 1) as nat,
                (room - 1) as nat,
            );
        }
    }
}

/// Whether nodes were only added.
spec fn extends(x: Seq<NodeView>, y: Seq<NodeView>) -> bool {
    &&& x.len() <= y.len()
    &&& forall|i: int| 0 <= i < x.len() ==> #[trigger] y[i] == x[i]
}

proof fn entry_is_mirrored(
    disk: Disk,
    nodes: Seq<NodeView>,
    parent: usize,
    e: EntryView,
    above: Seq<Seq<u8>>,
)
    requires
        collect_into(disk, nodes, parent, e, above) matches Ok(r) && r.0.len() <= usize::MAX,
        nodes.len() > 0,
        in_range(nodes),
    ensures
        ({
            let r = collect_into(disk, nodes, parent, e, above)->Ok_0;
            &&& extends(nodes, r.0)
            &&& r.1 == nodes.len()
            &&& r.1 < r.0.len()
            &&& mirrors(disk, r.0, r.1 as int, r.0.len() as int, e, (65 - above.len()) as nat)
        }),
    decreases 66 - above.len(), 0nat,
{
    entry_keeps_nodes(disk, nodes, parent, e, above);
    let mtime = (disk.mtime)(e.path);
    let index = nodes.len() as usize;
    let r = collect_into(disk, nodes, parent, e, above)->Ok_0;
    if let Kind::Dir = (disk.kind)(e.path) {
        let canonical = (disk.resolve)(e.path);
        let list = (disk.list)(e.path);
        let order = sort_entries(list);
        let fresh = nodes.push(dir_node(e.name, mtime, parent));
        listings_are_sorted(list);
        assert(in_range(fresh)) by {
            assert forall|i: int| 0 <= i < fresh.len() implies all_below(
                (#[trigger] fresh[i]).children,
                fresh.len(),
            ) by {
                if i < nodes.len() {
                    assert(all_below(nodes[i].children, nodes.len()));
                }
            }
        }
        kids_keep_nodes(disk, fresh, index, order, Seq::empty(), above.push(canonical));
        kids_are_mirrored(disk, fresh, index, order, Seq::empty(), above.push(canonical));
        let (all, kids) = collect_kids(
            disk,
            fresh,
            index,
            order,
            Seq::empty(),
            above.push(canonical),
        )->Ok_0;
        let done = with_children(all, index, kids);
        assert(r.0 == done);
        assert(kids.skip(0) =~= kids);
        assert forall|i: int| 0 <= i < kids.len() implies index < #[trigger] kids[i] by {
            assert(kids.skip(0)[i] == kids[i]);
        }
        assert forall|i: int| 0 <= i < order.len() implies mirrors(
            disk,
            done,
            done[index as int].children[i] as int,
            done.len() as int,
            #[trigger] order[i],
            (65 - above.len() - 1) as nat,
        ) by {
            assert(kids.skip(0)[i] == kids[i]);
            mirrors_still(
                disk,
                all,
                done,
                kids[i] as int,
                all.len() as int,
                done.len() as int,
                order[i],
                (64 - above.len()) as nat,
                (64 - above.len()) as nat,
            );
        }
        assert forall|i: int| 0 <= i < nodes.len() implies #[trigger] done[i] == nodes[i] by {
            assert(all[i] == fresh[i]);
        }
        assert(all[index as int] == fresh[index as int]);
    }
}

/// Whether the children of all nodes are nodes.
spec fn in_range(nodes: Seq<NodeView>) -> bool {
    forall|i: int| 0 <= i < nodes.len() ==> all_below((#[trigger] nodes[i]).children, nodes.len())
}

/// Whether all items are below a bound.
spec fn all_below(list: Seq<usize>, end: nat) -> bool {
    forall|j: int| 0 <= j < list.len() ==> (#[trigger] list[j]) < end
}

/// Gathering an entry adds at least one node.
proof fn entry_keeps_nodes(
    disk: Disk,
    nodes: Seq<NodeView>,
    parent: usize,
    e: EntryView,
    above: Seq<Seq<u8>>,
)
    requires
        collect_into(disk, nodes, parent, e, above) is Ok,
        in_range(nodes),
    ensures
        ({
            let r = collect_into(disk, nodes, parent, e, above)->Ok_0;
            &&& nodes.len() < r.0.len()
            &&& r.1 < r.0.len()
            &&& in_range(r.0)
        }),
    decreases 66 - above.len(), 0nat,
{
    assert((nodes.len() as usize) < nodes.len() + 1);
    if let Kind::Dir = (disk.kind)(e.path) {
        let canonical = (disk.resolve)(e.path);
        let index = nodes.len() as usize;
        let fresh = nodes.push(dir_node(e.name, (disk.mtime)(e.path), parent));
        let order = sort_entries((disk.list)(e.path));
        assert(in_range(fresh)) by {
            assert forall|i: int| 0 <= i < fresh.len() implies all_below(
                (#[trigger] fresh[i]).children,
                fresh.len(),
            ) by {
                if i < nodes.len() {
                    assert(all_below(nodes[i].children, nodes.len()));
                }
            }
        }
        kids_keep_nodes(disk, fresh, index, order, Seq::empty(), above.push(canonical));
    } else {
        let r = (collect_into(disk, nodes, parent, e, above)->Ok_0).0;
        assert forall|i: int| 0 <= i < r.len() implies all_below(
            (#[trigger] r[i]).children,
            r.len(),
        ) by {
            if i < nodes.len() {
                assert(all_below(nodes[i].children, nodes.len()));
            }
        }
    }
}

proof fn kids_keep_nodes(
    disk: Disk,
    nodes: Seq<NodeView>,
    parent: usize,
    rest: Seq<EntryView>,
    kids: Seq<usize>,
    above: Seq<Seq<u8>>,
)
    requires
        collect_kids(disk, nodes, parent, rest, kids, above) is Ok,
        above.len() <= 65,
        in_range(nodes),
        all_below(kids, nodes.len()),
    ensures
        ({
            let r = collect_kids(disk, nodes, parent, rest, kids, above)->Ok_0;
            &&& nodes.len() <= r.0.len()
            &&& in_range(r.0)
            &&& all_below(r.1, r.0.len())
        }),
        rest.len() > 0 ==> collect_into(disk, nodes, parent, rest[0], above) is Ok && nodes.len()
            < (collect_into(disk, nodes, parent, rest[0], above)->Ok_0).0.len() && (collect_into(
            disk,
            nodes,
            parent,
            rest[0],
            above,
        )->Ok_0).0.len() <= (collect_kids(disk, nodes, parent, rest, kids, above)->Ok_0).0.len(),
    decreases 66 - above.len(), rest.len(),
{
    if rest.len() > 0 {
        entry_keeps_nodes(disk, nodes, parent, rest[0], above);
        let (all, n) = collect_into(disk, nodes, parent, rest[0], above)->Ok_0;
        assert(all_below(kids.push(n), all.len()));
        kids_keep_nodes(disk, all, parent, rest.drop_first(), kids.push(n), above);
    }
}

proof fn kids_are_mirrored(
    disk: Disk,
    nodes: Seq<NodeView>,
    parent: usize,
    rest: Seq<EntryView>,
    kids: Seq<usize>,
    above: Seq<Seq<u8>>,
)
    requires
        collect_kids(disk, nodes, parent, rest, kids, above) matches Ok(r) && r.0.len()
            <= usize::MAX,
        nodes.len() > 0,
        above.len() <= 65,
        in_range(nodes),
        all_below(kids, nodes.len()),
    ensures
        ({
            let (all, list) = collect_kids(disk, nodes, parent, rest, kids, above)->Ok_0;
            &&& extends(nodes, all)
            &&& list.len() == kids.len() + rest.len()
            &&& list.take(kids.len() as int) == kids
            &&& forall|i: int|
                0 <= i < rest.len() ==> nodes.len() <= #[trigger] list.skip(kids.len() as int)[i]
            &&& forall|i: int|
                0 <= i < rest.len() ==> mirrors(
                    disk,
                    all,
                    list.skip(kids.len() as int)[i] as int,
                    all.len() as int,
                    #[trigger] rest[i],
                    (65 - above.len()) as nat,
                )
        }),
    decreases 66 - above.len(), rest.len() + 1,
{
    if rest.len() == 0 {
        assert(kids.take(kids.len() as int) =~= kids);
    } else {
        kids_keep_nodes(disk, nodes, parent, rest, kids, above);
        entry_keeps_nodes(disk, nodes, parent, rest[0], above);
        entry_is_mirrored(disk, nodes, parent, rest[0], above);
        let (mid, n) = collect_into(disk, nodes, parent, rest[0], above)->Ok_0;
        let more = kids.push(n);
        let less = rest.drop_first();
        kids_are_mirrored(disk, mid, parent, less, more, above);
        let (all, list) = collect_kids(disk, nodes, parent, rest, kids, above)->Ok_0;
        let k = kids.len() as int;
        assert(list.take(k) =~= list.take(k + 1).take(k));
        assert(more.take(k) =~= kids);
        let fuel = (65 - above.len()) as nat;
        assert forall|i: int| 0 <= i < rest.len() implies nodes.len() <= #[trigger] list.skip(k)[i] by {
            if i == 0 {
                assert(list.take(k + 1)[k] == list[k]);
            } else {
                assert(list.skip(k + 1)[i - 1] == list.skip(k)[i]);
            }
        }
        assert forall|i: int| 0 <= i < rest.len() implies mirrors(
            disk,
            all,
            list.skip(k)[i] as int,
            all.len() as int,
            #[trigger] rest[i],
            fuel,
        ) by {
            if i == 0 {
                assert(list.skip(k)[0] == list[k]);
                assert(list.take(k + 1)[k] == list[k]);
                mirrors_still(
                    disk,
                    mid,
                    all,
                    n as int,
                    mid.len() as int,
                    all.len() as int,
                    rest[0],
                    fuel,
                    fuel,
                );
            } else {
                assert(less[i - 1] == rest[i]);
                assert(list.skip(k + 1)[i - 1] == list.skip(k)[i]);
            }
        }
    }
}

// ---------------------------------------------------------------------------
// inputs
// ---------------------------------------------------------------------------

/// What inputs put at the root: each of them, and with `flat` in place of a
/// directory what it lists.
pub open spec fn tops(disk: Disk, flat: bool, inputs: Seq<EntryView>) -> Seq<EntryView>
    decreases inputs.len(),
{
    if inputs.len() == 0 {
        Seq::empty()
    } else {
        let e = inputs.last();
        let less = tops(disk, flat, inputs.drop_last());
        if flat && (disk.kind)(e.path) is Dir {
            less + sort_entries((disk.list)(e.path))
        } else {
            less.push(e)
        }
    }
}

/// Whether the root has a mirror of each of the entries, one after the other.
spec fn roots_mirror(disk: Disk, w: GatherView, list: Seq<EntryView>) -> bool {
    &&& w.roots.len() == list.len()
    &&& forall|i: int|
        0 <= i < list.len() ==> mirrors(
            disk,
            w.nodes,
            w.roots[i] as int,
            w.nodes.len() as int,
            #[trigger] list[i],
            65,
        )
}

proof fn roots_are_added(w: GatherView, kids: Seq<usize>)
    requires
        w.add_roots(kids) is Ok,
        in_range(w.nodes),
        all_below(kids, w.nodes.len()),
    ensures
        ({
            let x = w.add_roots(kids)->Ok_0;
            &&& in_range(x.nodes)
            &&& x.roots == w.roots + kids
            &&& x.flat == w.flat
            &&& x.nodes.len() == w.nodes.len()
            &&& same_between(w.nodes, x.nodes, 0, w.nodes.len() as int)
        }),
    decreases kids.len(),
{
    if kids.len() == 0 {
        assert(w.roots + kids =~= w.roots);
    } else {
        let less = kids.drop_last();
        assert forall|j: int| 0 <= j < less.len() implies (#[trigger] less[j]) < w.nodes.len() by {
            assert(less[j] == kids[j]);
        }
        roots_are_added(w, less);
        let y = w.add_roots(less)->Ok_0;
        let x = w.add_roots(kids)->Ok_0;
        let k = kids.last();
        assert(w.roots + kids =~= (w.roots + less).push(k));
        assert forall|i: int| 0 <= i < w.nodes.len() implies (#[trigger] x.nodes[i]) == (NodeView {
            parent: x.nodes[i].parent,
            ..w.nodes[i]
        }) by {
            assert(y.nodes[i] == (NodeView { parent: y.nodes[i].parent, ..w.nodes[i] }));
        }
        assert forall|i: int| 0 <= i < x.nodes.len() implies all_below(
            (#[trigger] x.nodes[i]).children,
            x.nodes.len(),
        ) by {
            assert(all_below(y.nodes[i].children, y.nodes.len()));
        }
    }
}

proof fn input_is_mirrored(disk: Disk, w: GatherView, e: EntryView, list: Seq<EntryView>)
    requires
        collect_input(disk, w, e) matches Ok(x) && x.nodes.len() <= usize::MAX,
        w.nodes.len() > 0,
        in_range(w.nodes),
        roots_mirror(disk, w, list),
    ensures
        ({
            let x = collect_input(disk, w, e)->Ok_0;
            &&& x.flat == w.flat
            &&& x.nodes.len() > w.nodes.len()
            &&& in_range(x.nodes)
            &&& roots_mirror(
                disk,
                x,
                if w.flat && (disk.kind)(e.path) is Dir {
                    list + sort_entries((disk.list)(e.path))
                } else {
                    list.push(e)
                },
            )
        }),
{
    let x = collect_input(disk, w, e)->Ok_0;
    let (nodes, n) = collect_into(disk, w.nodes, 0, e, Seq::empty())->Ok_0;
    let mid = GatherView { nodes, ..w };
    let merged = w.flat && (disk.kind)(e.path) is Dir;
    let order = sort_entries((disk.list)(e.path));
    let kids = if w.flat && nodes[n as int].is_dir {
        nodes[n as int].children
    } else {
        seq![n]
    };
    let size = nodes.len() as int;
    entry_keeps_nodes(disk, w.nodes, 0, e, Seq::empty());
    assert(all_below(nodes[n as int].children, nodes.len()));
    assert(all_below(seq![n], nodes.len()));
    if w.flat && nodes[n as int].is_dir {
        roots_are_added(GatherView { dropped: mid.dropped.insert(n), ..mid }, kids);
    } else {
        roots_are_added(mid, kids);
    }
    entry_is_mirrored(disk, w.nodes, 0, e, Seq::empty());
    assert(x.nodes.len() == size);
    assert(x.roots == w.roots + kids);
    let more = if merged {
        list + order
    } else {
        list.push(e)
    };
    assert forall|i: int| 0 <= i < more.len() implies mirrors(
        disk,
        x.nodes,
        x.roots[i] as int,
        size,
        #[trigger] more[i],
        65,
    ) by {
        if i < list.len() {
            assert(more[i] == list[i]);
            mirrors_still(
                disk,
                w.nodes,
                nodes,
                w.roots[i] as int,
                w.nodes.len() as int,
                size,
                list[i],
                65,
                65,
            );
            mirrors_still(disk, nodes, x.nodes, w.roots[i] as int, size, size, list[i], 65, 65);
        } else if merged {
            let j = i - list.len();
            assert(more[i] == order[j]);
            assert(x.roots[i] == kids[j]);
            mirrors_still(disk, nodes, x.nodes, kids[j] as int, size, size, order[j], 64, 65);
        } else {
            assert(x.roots[i] == n);
            mirrors_still(disk, nodes, x.nodes, n as int, size, size, e, 65, 65);
        }
    }
}

proof fn inputs_keep_nodes(disk: Disk, w: GatherView, inputs: Seq<EntryView>)
    requires
        collect_inputs(disk, w, inputs) is Ok,
        in_range(w.nodes),
    ensures
        w.nodes.len() <= (collect_inputs(disk, w, inputs)->Ok_0).nodes.len(),
        in_range((collect_inputs(disk, w, inputs)->Ok_0).nodes),
        inputs.len() > 0 ==> collect_inputs(disk, w, inputs.drop_last()) is Ok && w.nodes.len() <= (
        collect_inputs(disk, w, inputs.drop_last())->Ok_0).nodes.len() && (collect_inputs(
            disk,
            w,
            inputs.drop_last(),
        )->Ok_0).nodes.len() <= (collect_inputs(disk, w, inputs)->Ok_0).nodes.len(),
    decreases inputs.len(),
{
    if inputs.len() > 0 {
        inputs_keep_nodes(disk, w, inputs.drop_last());
        let less = collect_inputs(disk, w, inputs.drop_last())->Ok_0;
        let e = inputs.last();
        entry_keeps_nodes(disk, less.nodes, 0, e, Seq::empty());
        let (nodes, n) = collect_into(disk, less.nodes, 0, e, Seq::empty())->Ok_0;
        let mid = GatherView { nodes, ..less };
        assert(all_below(nodes[n as int].children, nodes.len()));
        assert(all_below(seq![n], nodes.len()));
        if mid.flat && nodes[n as int].is_dir {
            roots_are_added(
                GatherView { dropped: mid.dropped.insert(n), ..mid },
                nodes[n as int].children,
            );
        } else {
            roots_are_added(mid, seq![n]);
        }
    }
}

proof fn inputs_are_mirrored(disk: Disk, flat: bool, inputs: Seq<EntryView>)
    requires
        collect_inputs(disk, GatherView::start(flat), inputs) matches Ok(w) && w.nodes.len()
            <= usize::MAX,
    ensures
        ({
            let w = collect_inputs(disk, GatherView::start(flat), inputs)->Ok_0;
            &&& w.flat == flat
            &&& w.nodes.len() > 0
            &&& in_range(w.nodes)
            &&& roots_mirror(disk, w, tops(disk, flat, inputs))
        }),
    decreases inputs.len(),
{
    if inputs.len() > 0 {
        inputs_keep_nodes(disk, GatherView::start(flat), inputs);
        inputs_are_mirrored(disk, flat, inputs.drop_last());
        let less = collect_inputs(disk, GatherView::start(flat), inputs.drop_last())->Ok_0;
        input_is_mirrored(disk, less, inputs.last(), tops(disk, flat, inputs.drop_last()));
    }
}

proof fn roots_are_nodes(disk: Disk, w: GatherView, list: Seq<EntryView>, x: usize)
    requires
        roots_mirror(disk, w, list),
        w.roots.contains(x),
    ensures
        0 < x < w.nodes.len(),
{
    let i = choose|i: int| 0 <= i < w.roots.len() && w.roots[i] == x;
    assert(mirrors(disk, w.nodes, w.roots[i] as int, w.nodes.len() as int, list[i], 65));
}

/// The gathered tree mirrors the inputs: its root lists, in ascending order of
/// their names, a mirror of each input with all that lies below it, or with
/// `flat` in place of a directory of each entry of it.
pub proof fn gathered_trees_mirror_inputs(disk: Disk, flat: bool, inputs: Seq<EntryView>, n: nat)
    requires
        ends_by(disk, flat, inputs, n),
        walked(disk, GatherView::start(flat), inputs, n) matches Ok(w) && w.nodes.len()
            <= usize::MAX,
    ensures
        ({
            let w = walked(disk, GatherView::start(flat), inputs, n)->Ok_0;
            let t = w.finished();
            let list = tops(disk, flat, inputs);
            &&& t.root == 0
            &&& t.nodes.len() == w.nodes.len()
            &&& t.kids(0).to_multiset() == w.roots.to_multiset()
            &&& forall|i: int, j: int|
                0 <= i <= j < t.kids(0).len() ==> lex_le(
                    encode_utf8(t.nodes[#[trigger] t.kids(0)[i] as int].name),
                    encode_utf8(t.nodes[#[trigger] t.kids(0)[j] as int].name),
                )
            &&& w.roots.len() == list.len()
            &&& forall|i: int|
                0 <= i < list.len() ==> mirrors(
                    disk,
                    t.nodes,
                    w.roots[i] as int,
                    t.nodes.len() as int,
                    #[trigger] list[i],
                    65,
                )
        }),
{
    let w = walked(disk, GatherView::start(flat), inputs, n)->Ok_0;
    let t = w.finished();
    let list = tops(disk, flat, inputs);
    let all = TreeView { nodes: w.nodes, root: 0 };
    inputs_are_mirrored(disk, flat, inputs);
    sort_items_facts(w.roots, all.name_bytes());
    let kids = t.kids(0);
    assert forall|i: int, j: int| 0 <= i <= j < kids.len() implies lex_le(
        encode_utf8(t.nodes[#[trigger] kids[i] as int].name),
        encode_utf8(t.nodes[#[trigger] kids[j] as int].name),
    ) by {
        assert(lex_le(all.name_bytes()(kids[i]), all.name_bytes()(kids[j])));
        assert(w.roots.contains(kids[i])) by {
            assert(kids.contains(kids[i]));
        }
        assert(w.roots.contains(kids[j])) by {
            assert(kids.contains(kids[j]));
        }
        roots_are_nodes(disk, w, list, kids[i]);
        roots_are_nodes(disk, w, list, kids[j]);
    }
    assert forall|i: int| 0 <= i < list.len() implies mirrors(
        disk,
        t.nodes,
        w.roots[i] as int,
        t.nodes.len() as int,
        #[trigger] list[i],
        65,
    ) by {
        let size = w.nodes.len() as int;
        mirrors_still(disk, w.nodes, t.nodes, w.roots[i] as int, size, size, list[i], 65, 65);
    }
}

// ---------------------------------------------------------------------------
// what is refused
// ---------------------------------------------------------------------------

/// Whether a chain of entries leads down from an entry, each listed by the one
/// before it.
pub open spec fn reaches(disk: Disk, e: EntryView, chain: Seq<EntryView>) -> bool
    decreases chain.len(),
{
    chain.len() == 0 || {
        &&& (disk.kind)(e.path) is Dir
        &&& (disk.list)(e.path).contains(chain[0])
        &&& reaches(disk, chain[0], chain.drop_first())
    }
}

/// Where a chain of entries ends.
pub open spec fn end_of(e: EntryView, chain: Seq<EntryView>) -> EntryView {
    if chain.len() == 0 {
        e
    } else {
        chain.last()
    }
}

/// Whether what a chain of entries leads to is the cause of a trouble: an entry
/// more than 64 levels down, a file of 4 GiB or more, what is neither file nor
/// directory, or a directory that resolves to the same as one above it.
pub open spec fn causes(
    disk: Disk,
    e: EntryView,
    above: Seq<Seq<u8>>,
    chain: Seq<EntryView>,
    x: Trouble,
) -> bool {
    let end = end_of(e, chain);
    let all = above + (seq![(disk.resolve)(e.path)] + chain.map_values(
        |y: EntryView| (disk.resolve)(y.path),
    ));
    &&& reaches(disk, e, chain)
    &&& match x {
        Trouble::TooDeep { path } => path == end.shown && above.len() + chain.len() > 64,
        Trouble::TooLarge { file } => {
            &&& file == end.shown
            &&& (disk.kind)(end.path) matches Kind::File(size)
            &&& size >= 4 * 1024 * 1024 * 1024
        },
        Trouble::Unsupported { path } => path == end.shown && (disk.kind)(end.path) is Other,
        Trouble::Loop { dir } => dir == end.shown && (disk.kind)(end.path) is Dir
            && all.drop_last().contains(all.last()),
        _ => false,
    }
}

/// An input is refused only for what a chain of entries leads to: for its depth,
/// its size, its kind, or for a loop.
pub proof fn refused_entries_have_causes(
    disk: Disk,
    nodes: Seq<NodeView>,
    parent: usize,
    e: EntryView,
    above: Seq<Seq<u8>>,
)
    ensures
        collect_into(disk, nodes, parent, e, above) matches Err(x) ==> exists|
            chain: Seq<EntryView>,
        | #[trigger]
            causes(disk, e, above, chain, x),
    decreases 66 - above.len(), 0nat,
{
    let none = Seq::<EntryView>::empty();
    let canonical = (disk.resolve)(e.path);
    if let Err(x) = collect_into(disk, nodes, parent, e, above) {
        let all = above + (seq![canonical] + none.map_values(
            |y: EntryView| (disk.resolve)(y.path),
        ));
        assert(all =~= above.push(canonical));
        assert(all.drop_last() =~= above);
        if above.len() <= 64 && (disk.kind)(e.path) is Dir && !above.contains(canonical) {
            let list = (disk.list)(e.path);
            let rest = sort_entries(list);
            let deeper = above.push(canonical);
            let fresh = nodes.push(dir_node(e.name, (disk.mtime)(e.path), parent));
            let index = nodes.len() as usize;
            listings_are_sorted(list);
            refused_kids_have_causes(disk, fresh, index, rest, Seq::empty(), deeper);
            let (k, chain) = choose|k: EntryView, chain: Seq<EntryView>|
                rest.contains(k) && #[trigger] causes(disk, k, deeper, chain, x);
            let whole = seq![k] + chain;
            assert(whole.drop_first() =~= chain);
            assert(above + (seq![canonical] + whole.map_values(
                |y: EntryView| (disk.resolve)(y.path),
            )) =~= deeper + (seq![(disk.resolve)(k.path)] + chain.map_values(
                |y: EntryView| (disk.resolve)(y.path),
            )));
            assert(causes(disk, e, above, whole, x));
        } else {
            assert(causes(disk, e, above, none, x));
        }
    }
}

proof fn refused_kids_have_causes(
    disk: Disk,
    nodes: Seq<NodeView>,
    parent: usize,
    rest: Seq<EntryView>,
    kids: Seq<usize>,
    above: Seq<Seq<u8>>,
)
    requires
        above.len() <= 65,
    ensures
        collect_kids(disk, nodes, parent, rest, kids, above) matches Err(x) ==> exists|
            k: EntryView,
            chain: Seq<EntryView>,
        |
            rest.contains(k) && #[trigger] causes(disk, k, above, chain, x),
    decreases 66 - above.len(), rest.len() + 1,
{
    if rest.len() > 0 {
        let e = rest[0];
        assert(rest.contains(e));
        refused_entries_have_causes(disk, nodes, parent, e, above);
        if let Ok((all, n)) = collect_into(disk, nodes, parent, e, above) {
            let less = rest.drop_first();
            refused_kids_have_causes(disk, all, parent, less, kids.push(n), above);
            assert forall|y: EntryView| less.contains(y) implies rest.contains(y) by {
                let i = choose|i: int| 0 <= i < less.len() && less[i] == y;
                assert(rest[i + 1] == y);
            }
        }
    }
}

/// An entry of the root is refused where another entry there has its name, and
/// for nothing else.
pub proof fn root_names_are_distinct(w: GatherView, k: usize)
    requires
        k < w.nodes.len(),
    ensures
        w.add_root(k) is Err <==> exists|i: int|
            0 <= i < w.roots.len() && (#[trigger] w.nodes[w.roots[i] as int]).name
                == w.nodes[k as int].name,
{
}

} // verus!
