//! Layout of an ISO 9660 (+Joliet, +El Torito) volume.
//!
//! All addresses count 2048-byte sectors:
//!
//! | sectors | content                                                    |
//! |---------|------------------------------------------------------------|
//! | 0..16   | system area (zeros)                                        |
//! | 16      | primary volume descriptor                                  |
//! | next    | supplementary volume descriptor (Joliet), optional         |
//! | next    | boot record descriptor (El Torito), optional               |
//! | next    | descriptor set terminator                                  |
//! | next    | El Torito boot catalog, optional                           |
//! | next    | path tables: base L, base M, Joliet L, Joliet M            |
//! | next    | directory blocks of the base namespace                     |
//! | next    | directory blocks of the Joliet namespace                   |
//! | next    | file contents, each padded to a whole sector               |
use vstd::prelude::*;
use crate::bytes::{ceil_div, ceil_div_spec};
use crate::order::{
    ascending, lex_le, sort_by_keys, sort_items, sort_items_facts, sort_items_no_duplicates,
};
use crate::tree::{reachable_facts, reachable_induction, Extent, Tree, TreeView};
use crate::walk::{
    all_live, ancestor, at_depth, climbs, forest, level_order, level_order_by_parent,
    level_order_closed, level_order_members, level_order_parents, preorder, preorder_closed,
    preorder_depth_first, preorder_lister, preorder_lists, preorder_members, preorder_no_duplicates,
    preorder_step, successors, successors_by_parent, successors_level, successors_members,
};

verus! {

/// Bytes of a sector.
pub const SECTOR: usize = 2048;

/// The two namespaces of a volume.
#[derive(Clone, Copy, PartialEq, Eq, Debug, Structural)]
pub enum Ns {
    Base,
    Jol,
}

/// Where the path tables of one namespace lie.
#[derive(Clone, Copy)]
pub struct PtInfo {
    /// First sector of the little-endian table.
    pub le_lba: u32,
    /// First sector of the big-endian table.
    pub be_lba: u32,
    /// Byte size of one table, without padding.
    pub size: usize,
}

/// Where the fixed structures of a volume lie; 0 where one is left out.
pub struct ImagePlan {
    pub svd_lba: u32,
    pub boot_rec_lba: u32,
    pub catalog_lba: u32,
    pub term_lba: u32,
    pub pt_base: PtInfo,
    pub pt_jol: PtInfo,
    pub total_sectors: u32,
}

// ---------------------------------------------------------------------------
// orders
// ---------------------------------------------------------------------------

impl TreeView {
    /// The identifier of node `n` in a namespace.
    pub open spec fn id(self, n: usize, ns: Ns) -> Seq<u8> {
        if ns == Ns::Base {
            self.nodes[n as int].base_id
        } else {
            self.nodes[n as int].joliet_id
        }
    }

    /// The identifiers of a namespace as a function.
    pub open spec fn ids(self, ns: Ns) -> spec_fn(usize) -> Seq<u8> {
        |n: usize| self.id(n, ns)
    }

    /// The children of `d` in ascending order of their identifiers.
    pub open spec fn sorted_kids(self, d: usize, ns: Ns) -> Seq<usize> {
        sort_items(self.kids(d), self.ids(ns))
    }

    /// The nodes of a list that are directories (`dirs`) or files.
    pub open spec fn only(self, s: Seq<usize>, dirs: bool) -> Seq<usize>
        decreases s.len(),
    {
        if s.len() == 0 {
            s
        } else if self.nodes[s.last() as int].is_dir == dirs {
            self.only(s.drop_last(), dirs).push(s.last())
        } else {
            self.only(s.drop_last(), dirs)
        }
    }

    /// The subdirectories of a directory, by identifier.
    pub open spec fn subdirs(self, ns: Ns) -> spec_fn(usize) -> Seq<usize> {
        |d: usize| self.only(self.sorted_kids(d, ns), true)
    }

    /// The files of a directory, by base identifier.
    pub open spec fn files(self) -> spec_fn(usize) -> Seq<usize> {
        |d: usize| self.only(self.sorted_kids(d, Ns::Base), false)
    }

    /// All directories, each directly followed by what lies below it.
    pub open spec fn dir_order(self, ns: Ns) -> Seq<usize> {
        preorder(self.subdirs(ns), seq![self.root], self.nodes.len())
    }

    /// All directories, level by level.
    pub open spec fn dir_levels(self, ns: Ns) -> Seq<usize> {
        level_order(self.subdirs(ns), seq![self.root], self.nodes.len())
    }

    /// All files, in the order of their directories.
    pub open spec fn file_order(self) -> Seq<usize> {
        successors(self.files(), self.dir_order(Ns::Base))
    }
}

proof fn only_facts(v: TreeView, s: Seq<usize>, dirs: bool)
    ensures
        forall|c: usize| #[trigger]
            v.only(s, dirs).contains(c) <==> s.contains(c) && v.nodes[c as int].is_dir == dirs,
        s.no_duplicates() ==> v.only(s, dirs).no_duplicates(),
        v.only(s, dirs).len() <= s.len(),
    decreases s.len(),
{
    let r = v.only(s, dirs);
    if s.len() > 0 {
        let init = s.drop_last();
        let head = v.only(init, dirs);
        only_facts(v, init, dirs);
        assert(s =~= init.push(s.last()));
        let keep = v.nodes[s.last() as int].is_dir == dirs;
        assert forall|c: usize| #[trigger] r.contains(c) <==> s.contains(c)
            && v.nodes[c as int].is_dir == dirs by {
            if r.contains(c) {
                let i = choose|i: int| 0 <= i < r.len() && r[i] == c;
                if i < head.len() {
                    assert(head[i] == c);
                    assert(head.contains(c));
                    let j = choose|j: int| 0 <= j < init.len() && init[j] == c;
                    assert(s[j] == c);
                } else {
                    assert(s[s.len() - 1] == c);
                }
            }
            if s.contains(c) && v.nodes[c as int].is_dir == dirs {
                let j = choose|j: int| 0 <= j < s.len() && s[j] == c;
                if j < init.len() {
                    assert(init[j] == c);
                    assert(init.contains(c));
                    assert(head.contains(c));
                    let i = choose|i: int| 0 <= i < head.len() && head[i] == c;
                    assert(r[i] == c);
                } else {
                    assert(keep);
                    assert(r[head.len() as int] == c);
                }
            }
        }
        if s.no_duplicates() && keep {
            assert(init.no_duplicates());
            assert forall|i: int, j: int| 0 <= i < j < r.len() implies r[i] != r[j] by {
                if j < head.len() {
                    assert(head[i] != head[j]);
                } else {
                    assert(head.contains(head[i]));
                    assert(init.contains(head[i]));
                    let k = choose|k: int| 0 <= k < init.len() && init[k] == head[i];
                    assert(s[k] != s[s.len() - 1]);
                }
            }
        } else if s.no_duplicates() {
            assert(init.no_duplicates());
        }
    }
}

/// The directories of a well-formed tree form a tree under `subdirs`.
proof fn dir_forest(v: TreeView, live: Set<usize>, depth: spec_fn(usize) -> nat, ns: Ns) -> (dirs:
    Set<usize>)
    requires
        v.shaped(live, depth),
    ensures
        dirs == live.filter(|d: usize| v.nodes[d as int].is_dir),
        dirs.contains(v.root),
        forest(v.subdirs(ns), v.parents(), dirs, depth, v.nodes.len()),
        forall|d: usize, c: usize|
            live.contains(d) && #[trigger] v.subdirs(ns)(d).contains(c) ==> v.kids(d).contains(c)
                && v.nodes[c as int].is_dir,
        forall|d: usize, c: usize|
            live.contains(d) && #[trigger] v.kids(d).contains(c) && v.nodes[c as int].is_dir
                ==> v.subdirs(ns)(d).contains(c),
{
    let dirs = live.filter(|d: usize| v.nodes[d as int].is_dir);
    let next = v.subdirs(ns);
    assert forall|d: usize, c: usize| live.contains(d) implies (#[trigger] next(d).contains(c)
        <==> v.kids(d).contains(c) && v.nodes[c as int].is_dir) by {
        sort_items_facts(v.kids(d), v.ids(ns));
        only_facts(v, v.sorted_kids(d, ns), true);
        assert(v.sorted_kids(d, ns).contains(c) <==> v.kids(d).contains(c));
    }
    assert forall|d: usize| #[trigger] dirs.contains(d) implies depth(d) < v.nodes.len() && next(
        d,
    ).no_duplicates() by {
        assert(live.contains(d));
        assert(v.next()(d).no_duplicates());
        sort_items_no_duplicates(v.kids(d), v.ids(ns));
        only_facts(v, v.sorted_kids(d, ns), true);
    }
    assert forall|d: usize, c: usize|
        dirs.contains(d) && #[trigger] next(d).contains(c) implies dirs.contains(c) && depth(c)
        == depth(d) + 1 && v.parents()(c) == d by {
        assert(live.contains(d));
        assert(v.next()(d).contains(c));
    }
    assert forall|d: usize, c: usize|
        live.contains(d) && #[trigger] v.kids(d).contains(c) && v.nodes[c as int].is_dir implies
        v.subdirs(ns)(d).contains(c) by {
        assert(next(d).contains(c) <==> v.kids(d).contains(c) && v.nodes[c as int].is_dir);
    }
    dirs
}

/// What the order of the directories lists: the root and every subdirectory
/// of a listed directory, directories only, nothing twice.
pub proof fn dir_order_facts(v: TreeView, ns: Ns)
    requires
        v.wf(),
    ensures
        v.dir_order(ns).no_duplicates(),
        v.dir_order(ns).contains(v.root),
        forall|d: usize| #[trigger]
            v.dir_order(ns).contains(d) ==> d < v.nodes.len() && v.nodes[d as int].is_dir && v.kids(
                d,
            ).no_duplicates(),
        forall|d: usize, c: usize|
            v.dir_order(ns).contains(d) && #[trigger] v.kids(d).contains(c) ==> {
                &&& c < v.nodes.len()
                &&& v.nodes[c as int].parent == d
                &&& c != v.root
                &&& v.nodes[c as int].is_dir ==> v.dir_order(ns).contains(c)
            },
{
    let (live, depth) = choose|live: Set<usize>, depth: spec_fn(usize) -> nat|
        v.shaped(live, depth);
    let n = v.nodes.len();
    let dirs = dir_forest(v, live, depth, ns);
    let next = v.subdirs(ns);
    let ds = seq![v.root];
    let order = v.dir_order(ns);
    assert(all_live(dirs, ds));
    assert(at_depth(depth, ds, 0));
    preorder_no_duplicates(next, v.parents(), dirs, depth, n, ds, n, 0);
    assert(ds[0] == v.root);
    preorder_lists(next, ds, n, v.root);
    assert forall|d: usize| #[trigger] order.contains(d) implies dirs.contains(d) by {
        preorder_members(next, v.parents(), dirs, depth, n, ds, n, 0, d);
    }
    assert forall|d: usize| #[trigger] order.contains(d) implies d < v.nodes.len()
        && v.nodes[d as int].is_dir && v.kids(d).no_duplicates() by {
        assert(dirs.contains(d));
        assert(live.contains(d));
        assert(v.next()(d).no_duplicates());
    }
    assert forall|d: usize, c: usize|
        order.contains(d) && #[trigger] v.kids(d).contains(c) implies c < v.nodes.len()
        && v.nodes[c as int].parent == d && c != v.root && (v.nodes[c as int].is_dir
        ==> order.contains(c)) by {
        assert(live.contains(d));
        assert(v.next()(d).contains(c));
        assert(live.contains(c));
        assert(v.parents()(c) == d);
        if v.nodes[c as int].is_dir {
            let i = choose|i: int| 0 <= i < order.len() && order[i] == d;
            assert(next(d).contains(c));
            preorder_closed(next, v.parents(), dirs, depth, n, ds, n, i, c);
        }
    }
}

/// The parent of every listed directory but the root is listed.
pub proof fn dir_order_up(v: TreeView, ns: Ns, d: usize)
    requires
        v.wf(),
        v.dir_order(ns).contains(d),
        d != v.root,
    ensures
        v.dir_order(ns).contains(v.nodes[d as int].parent),
        v.kids(v.nodes[d as int].parent).contains(d),
{
    let order = v.dir_order(ns);
    let next = v.subdirs(ns);
    preorder_lister(next, seq![v.root], v.nodes.len(), d);
    let p = choose|p: usize| order.contains(p) && #[trigger] next(p).contains(d);
    dir_order_facts(v, ns);
    sort_items_facts(v.kids(p), v.ids(ns));
    only_facts(v, v.sorted_kids(p, ns), true);
    assert(v.sorted_kids(p, ns).contains(d));
    assert(v.kids(p).contains(d));
}

/// What the order of the files lists: the files of the listed directories, and
/// nothing twice.
pub proof fn file_order_facts(v: TreeView)
    requires
        v.wf(),
    ensures
        v.file_order().no_duplicates(),
        forall|c: usize| #[trigger]
            v.file_order().contains(c) ==> c < v.nodes.len() && !v.nodes[c as int].is_dir
                && v.dir_order(Ns::Base).contains(v.nodes[c as int].parent) && v.kids(
                v.nodes[c as int].parent,
            ).contains(c),
        forall|d: usize, c: usize|
            v.dir_order(Ns::Base).contains(d) && #[trigger] v.kids(d).contains(c)
                && !v.nodes[c as int].is_dir ==> v.file_order().contains(c),
{
    let order = v.dir_order(Ns::Base);
    dir_order_facts(v, Ns::Base);
    let next = v.files();
    assert forall|d: usize, c: usize| #[trigger] next(d).contains(c) <==> v.kids(d).contains(c)
        && !v.nodes[c as int].is_dir by {
        sort_items_facts(v.kids(d), v.ids(Ns::Base));
        only_facts(v, v.sorted_kids(d, Ns::Base), false);
        assert(v.sorted_kids(d, Ns::Base).contains(c) <==> v.kids(d).contains(c));
    }
    assert forall|i: int| 0 <= i < order.len() implies (#[trigger] next(
        order[i],
    )).no_duplicates() by {
        assert(order.contains(order[i]));
        sort_items_no_duplicates(v.kids(order[i]), v.ids(Ns::Base));
        only_facts(v, v.sorted_kids(order[i], Ns::Base), false);
    }
    assert forall|i: int, c: int|
        0 <= i < order.len() && 0 <= c < next(order[i]).len() implies v.parents()(
        #[trigger] next(order[i])[c],
    ) == order[i] by {
        let k = next(order[i])[c];
        assert(next(order[i]).contains(k));
        assert(order.contains(order[i]));
        assert(v.kids(order[i]).contains(k));
    }
    listed_once(next, v.parents(), order);
    assert forall|c: usize| #[trigger] v.file_order().contains(c) implies c < v.nodes.len()
        && !v.nodes[c as int].is_dir && order.contains(v.nodes[c as int].parent) && v.kids(
        v.nodes[c as int].parent,
    ).contains(c) by {
        successors_members(next, order, c);
        let i = choose|i: int| 0 <= i < order.len() && (#[trigger] next(order[i])).contains(c);
        assert(order.contains(order[i]));
        assert(v.kids(order[i]).contains(c));
    }
    assert forall|d: usize, c: usize|
        order.contains(d) && #[trigger] v.kids(d).contains(c)
            && !v.nodes[c as int].is_dir implies v.file_order().contains(c) by {
        let i = choose|i: int| 0 <= i < order.len() && order[i] == d;
        assert(next(order[i]).contains(c));
        successors_members(next, order, c);
    }
}

/// Lists without repetitions, joined, hold nothing twice if every item names
/// the list it comes from.
proof fn listed_once(
    next: spec_fn(usize) -> Seq<usize>,
    parent: spec_fn(usize) -> usize,
    ds: Seq<usize>,
)
    requires
        ds.no_duplicates(),
        forall|i: int| 0 <= i < ds.len() ==> (#[trigger] next(ds[i])).no_duplicates(),
        forall|i: int, c: int|
            0 <= i < ds.len() && 0 <= c < next(ds[i]).len() ==> parent(#[trigger] next(ds[i])[c])
                == ds[i],
    ensures
        successors(next, ds).no_duplicates(),
    decreases ds.len(),
{
    if ds.len() > 0 {
        let init = ds.drop_last();
        let head = successors(next, init);
        let tail = next(ds.last());
        let all = successors(next, ds);
        assert(forall|i: int| 0 <= i < init.len() ==> init[i] == ds[i]);
        listed_once(next, parent, init);
        assert(next(ds[ds.len() - 1]).no_duplicates());
        assert forall|i: int, j: int| 0 <= i < j < all.len() implies all[i] != all[j] by {
            if j < head.len() {
                assert(head[i] != head[j]);
            } else if i >= head.len() {
                assert(tail[i - head.len()] != tail[j - head.len()]);
            } else {
                assert(head.contains(head[i]));
                successors_members(next, init, head[i]);
                let k = choose|k: int|
                    0 <= k < init.len() && (#[trigger] next(init[k])).contains(head[i]);
                let from = next(init[k]);
                let m = choose|m: int| 0 <= m < from.len() && from[m] == head[i];
                assert(parent(next(ds[k])[m]) == ds[k]);
                assert(parent(next(ds[ds.len() - 1])[j - head.len()]) == ds[ds.len() - 1]);
            }
        }
    }
}

/// The identifier of a node in a namespace.
pub fn ns_id(t: &Tree, n: usize, ns: Ns) -> (id: &[u8])
    requires
        n < t.arena@.len(),
    ensures
        id@ == t@.id(n, ns),
{
    if ns == Ns::Base {
        t.arena[n].base_id.as_slice()
    } else {
        t.arena[n].joliet_id.as_slice()
    }
}

/// The children of directory `d` sorted by their identifier in namespace `ns`.
pub fn children_sorted(t: &Tree, d: usize, ns: Ns) -> (kids: Vec<usize>)
    requires
        d < t.arena@.len(),
        forall|i: int| 0 <= i < t@.kids(d).len() ==> #[trigger] t@.kids(d)[i] < t.arena@.len(),
    ensures
        kids@ == t@.sorted_kids(d, ns),
{
    let kids: &Vec<usize> = &t.arena[d].children;
    let n: usize = kids.len();
    let mut keys: Vec<&[u8]> = Vec::new();
    let mut i: usize = 0;
    assert(kids@ == t@.kids(d));
    while i < n
        invariant
            n == kids@.len(),
            i <= n,
            kids@ == t@.kids(d),
            forall|j: int| 0 <= j < t@.kids(d).len() ==> #[trigger] t@.kids(d)[j] < t.arena@.len(),
            keys@.len() == i,
            forall|j: int| 0 <= j < i ==> t@.ids(ns)(kids@[j]) == (#[trigger] keys@[j])@,
        decreases n - i,
    {
        assert(t@.kids(d)[i as int] < t.arena@.len());
        keys.push(ns_id(t, kids[i], ns));
        i += 1;
    }
    sort_by_keys(kids, &keys, Ghost(t@.ids(ns)))
}

/// The nodes of `list` that are directories (`dirs`) or files.
fn only_nodes(t: &Tree, list: &Vec<usize>, dirs: bool) -> (out: Vec<usize>)
    requires
        forall|i: int| 0 <= i < list@.len() ==> #[trigger] list@[i] < t.arena@.len(),
    ensures
        out@ == t@.only(list@, dirs),
{
    let n: usize = list.len();
    let mut out: Vec<usize> = Vec::new();
    let mut i: usize = 0;
    assert(t@.only(list@.take(0), dirs) =~= Seq::<usize>::empty());
    while i < n
        invariant
            n == list@.len(),
            i <= n,
            forall|j: int| 0 <= j < n ==> #[trigger] list@[j] < t.arena@.len(),
            out@ == t@.only(list@.take(i as int), dirs),
        decreases n - i,
    {
        assert(list@.take(i + 1).drop_last() =~= list@.take(i as int));
        assert(list@.take(i + 1).last() == list@[i as int]);
        if t.arena[list[i]].is_dir == dirs {
            out.push(list[i]);
        }
        i += 1;
    }
    assert(list@.take(n as int) =~= list@);
    out
}

/// The subdirectories (`dirs`) or the files of directory `d`, by identifier.
fn sorted_part(t: &Tree, d: usize, ns: Ns, dirs: bool) -> (out: Vec<usize>)
    requires
        d < t.arena@.len(),
        forall|c: usize| #[trigger] t@.kids(d).contains(c) ==> c < t.arena@.len(),
    ensures
        out@ == t@.only(t@.sorted_kids(d, ns), dirs),
{
    assert forall|i: int| 0 <= i < t@.kids(d).len() implies #[trigger] t@.kids(d)[i]
        < t.arena@.len() by {
        assert(t@.kids(d).contains(t@.kids(d)[i]));
    }
    let kids: Vec<usize> = children_sorted(t, d, ns);
    proof {
        sort_items_facts(t@.kids(d), t@.ids(ns));
        assert forall|i: int| 0 <= i < kids@.len() implies #[trigger] kids@[i] < t.arena@.len() by {
            assert(kids@.contains(kids@[i]));
            assert(t@.kids(d).contains(kids@[i]));
        }
    }
    only_nodes(t, &kids, dirs)
}

/// All directories in preorder, subdirectories by identifier.
pub fn dirs_dfs(t: &Tree, ns: Ns) -> (out: Vec<usize>)
    requires
        t@.wf(),
    ensures
        out@ == t@.dir_order(ns),
{
    let ghost v = t@;
    let ghost n = v.nodes.len();
    let ghost next = v.subdirs(ns);
    let ghost (live, depth) = choose|live: Set<usize>, depth: spec_fn(usize) -> nat|
        v.shaped(live, depth);
    let ghost mut dirs: Set<usize> = Set::empty();
    proof {
        dirs = dir_forest(v, live, depth, ns);
    }
    let mut out: Vec<usize> = Vec::new();
    let mut stack: Vec<usize> = Vec::new();
    stack.push(t.root);
    assert(stack@.reverse() =~= seq![v.root]);
    assert(out@ + preorder(next, stack@.reverse(), n) =~= v.dir_order(ns));
    while stack.len() > 0
        invariant
            v == t@,
            n == v.nodes.len(),
            next == v.subdirs(ns),
            v.shaped(live, depth),
            dirs == live.filter(|d: usize| v.nodes[d as int].is_dir),
            forest(next, v.parents(), dirs, depth, n),
            all_live(dirs, stack@.reverse()),
            out@ + preorder(next, stack@.reverse(), n) == v.dir_order(ns),
        decreases preorder(next, stack@.reverse(), n).len(),
    {
        let ghost todo = stack@.reverse();
        let d: usize = stack.pop().unwrap();
        proof {
            assert(todo[0] == d);
            assert(dirs.contains(d));
            assert(live.contains(d));
            preorder_step(next, v.parents(), dirs, depth, n, todo);
            assert forall|c: usize| #[trigger] v.kids(d).contains(c) implies c < t.arena@.len() by {
                assert(v.next()(d).contains(c));
                assert(live.contains(c));
            }
        }
        out.push(d);
        let ghost rest = stack@;
        let kids: Vec<usize> = sorted_part(t, d, ns, true);
        assert(kids@ == next(d));
        let count: usize = kids.len();
        let mut i: usize = count;
        while i > 0
            invariant
                i <= count,
                count == kids@.len(),
                stack@ == rest + kids@.skip(i as int).reverse(),
            decreases i,
        {
            i -= 1;
            stack.push(kids[i]);
            assert(kids@.skip(i as int).reverse() =~= kids@.skip(i + 1).reverse().push(
                kids@[i as int],
            ));
        }
        proof {
            assert(kids@.skip(0) =~= kids@);
            assert(rest.reverse() =~= todo.drop_first());
            assert(stack@.reverse() =~= next(todo[0]) + todo.drop_first());
            let tail = preorder(next, stack@.reverse(), n);
            assert(out@ + tail =~= v.dir_order(ns));
        }
    }
    proof {
        assert(stack@.reverse() =~= Seq::<usize>::empty());
        assert(out@ =~= out@ + preorder(next, stack@.reverse(), n));
    }
    out
}

/// All directories level by level, subdirectories by identifier.
pub fn dirs_by_level(t: &Tree, ns: Ns) -> (out: Vec<usize>)
    requires
        t@.wf(),
    ensures
        out@ == t@.dir_levels(ns),
{
    let ghost v = t@;
    let ghost n = v.nodes.len();
    let ghost next = v.subdirs(ns);
    let ghost (live, depth) = choose|live: Set<usize>, depth: spec_fn(usize) -> nat|
        v.shaped(live, depth);
    let ghost mut dirs: Set<usize> = Set::empty();
    let ghost mut fuel: nat = n;
    proof {
        dirs = dir_forest(v, live, depth, ns);
    }
    let mut out: Vec<usize> = Vec::new();
    let mut level: Vec<usize> = Vec::new();
    level.push(t.root);
    assert(level@ =~= seq![v.root]);
    assert(out@ + level_order(next, level@, fuel) =~= v.dir_levels(ns));
    while level.len() > 0
        invariant
            v == t@,
            n == v.nodes.len(),
            next == v.subdirs(ns),
            v.shaped(live, depth),
            dirs == live.filter(|d: usize| v.nodes[d as int].is_dir),
            forest(next, v.parents(), dirs, depth, n),
            fuel <= n,
            all_live(dirs, level@),
            at_depth(depth, level@, (n - fuel) as nat),
            level@.no_duplicates(),
            out@ + level_order(next, level@, fuel) == v.dir_levels(ns),
        decreases fuel,
    {
        let count: usize = level.len();
        let mut deeper: Vec<usize> = Vec::new();
        let mut i: usize = 0;
        let ghost before = out@;
        assert(dirs.contains(level@[0]));
        assert(successors(next, level@.take(0)) =~= Seq::<usize>::empty());
        assert(before + level@.take(0) =~= before);
        while i < count
            invariant
                v == t@,
                next == v.subdirs(ns),
                v.shaped(live, depth),
                dirs == live.filter(|d: usize| v.nodes[d as int].is_dir),
                all_live(dirs, level@),
                i <= count,
                count == level@.len(),
                out@ == before + level@.take(i as int),
                deeper@ == successors(next, level@.take(i as int)),
            decreases count - i,
        {
            let p: usize = level[i];
            proof {
                assert(dirs.contains(level@[i as int]));
                assert(live.contains(p));
                assert forall|c: usize| #[trigger] v.kids(p).contains(c) implies c
                    < t.arena@.len() by {
                    assert(v.next()(p).contains(c));
                    assert(live.contains(c));
                }
            }
            out.push(p);
            let mut kids: Vec<usize> = sorted_part(t, p, ns, true);
            assert(kids@ == next(p));
            deeper.append(&mut kids);
            proof {
                let longer = level@.take(i + 1);
                assert(longer.drop_last() =~= level@.take(i as int));
                assert(longer.last() == p);
                assert(out@ =~= before + longer);
            }
            i += 1;
        }
        proof {
            assert(level@.take(count as int) =~= level@);
            successors_level(next, v.parents(), dirs, depth, n, level@, (n - fuel) as nat);
            assert(fuel > 0);
            let tail = level_order(next, deeper@, (fuel - 1) as nat);
            assert(before + (level@ + tail) =~= out@ + tail);
            fuel = (fuel - 1) as nat;
        }
        level = deeper;
    }
    assert(out@ + level_order(next, level@, fuel) =~= out@);
    out
}

/// All files, directory by directory in preorder.
pub fn files_in_order(t: &Tree) -> (out: Vec<usize>)
    requires
        t@.wf(),
    ensures
        out@ == t@.file_order(),
{
    let order: Vec<usize> = dirs_dfs(t, Ns::Base);
    let ghost next = t@.files();
    let count: usize = order.len();
    let mut out: Vec<usize> = Vec::new();
    let mut i: usize = 0;
    proof {
        dir_order_facts(t@, Ns::Base);
        assert(successors(next, order@.take(0)) =~= Seq::<usize>::empty());
    }
    while i < count
        invariant
            count == order@.len(),
            i <= count,
            order@ == t@.dir_order(Ns::Base),
            forall|d: usize| #[trigger] order@.contains(d) ==> d < t.arena@.len(),
            forall|d: usize, c: usize|
                order@.contains(d) && #[trigger] t@.kids(d).contains(c) ==> c < t.arena@.len(),
            next == t@.files(),
            out@ == successors(next, order@.take(i as int)),
        decreases count - i,
    {
        let d: usize = order[i];
        assert(order@.contains(d));
        let mut files: Vec<usize> = sorted_part(t, d, Ns::Base, false);
        assert(files@ == next(d));
        out.append(&mut files);
        proof {
            let longer = order@.take(i + 1);
            assert(longer.drop_last() =~= order@.take(i as int));
            assert(longer.last() == d);
        }
        i += 1;
    }
    assert(order@.take(count as int) =~= order@);
    out
}

// ---------------------------------------------------------------------------
// sizes
// ---------------------------------------------------------------------------

/// Byte length of the directory record of an identifier: 33 bytes, the
/// identifier, and a zero byte where that makes the length even.
pub open spec fn record_len(id: Seq<u8>) -> int {
    33 + id.len() as int + (id.len() as int + 1) % 2
}

/// Sectors taken by records of the given lengths, where `used` bytes of the
/// last of `sectors` sectors are taken already. A record that does not fit in
/// the rest of a sector starts a new one; at a record longer than a sector the
/// count ends with one more sector.
pub open spec fn pack_from(lens: Seq<int>, sectors: int, used: int) -> int
    decreases lens.len(),
{
    if lens.len() == 0 {
        sectors
    } else if lens[0] > SECTOR {
        sectors + 1
    } else if used + lens[0] > SECTOR {
        pack_from(lens.drop_first(), sectors + 1, lens[0])
    } else {
        pack_from(lens.drop_first(), sectors, used + lens[0])
    }
}

/// The identifier of a directory's record of itself.
pub open spec fn dot_id() -> Seq<u8> {
    seq![0u8]
}

/// The identifier of a directory's record of its parent.
pub open spec fn dotdot_id() -> Seq<u8> {
    seq![1u8]
}

/// The sum of `f` over a list of nodes.
pub open spec fn sum_over(s: Seq<usize>, f: spec_fn(usize) -> int) -> int
    decreases s.len(),
{
    if s.len() == 0 {
        0
    } else {
        sum_over(s.drop_last(), f) + f(s.last())
    }
}

/// Sectors of a path table of `size` bytes; even an empty table has one.
pub open spec fn table_sectors(size: int) -> int {
    if size <= SECTOR {
        1
    } else {
        ceil_div_spec(size, SECTOR as int)
    }
}

impl TreeView {
    /// The lengths of the records of directory `d`: itself, its parent, its
    /// children.
    pub open spec fn record_lens(self, d: usize, ns: Ns) -> Seq<int> {
        seq![record_len(dot_id()), record_len(dotdot_id())] + self.sorted_kids(d, ns).map_values(
            |c: usize| record_len(self.id(c, ns)),
        )
    }

    /// Sectors of the block of a directory, as a function.
    pub open spec fn block_sectors(self, ns: Ns) -> spec_fn(usize) -> int {
        |d: usize| pack_from(self.record_lens(d, ns), 1, 0)
    }

    /// Sectors of the contents of a file, as a function.
    pub open spec fn content_sectors(self) -> spec_fn(usize) -> int {
        |c: usize| ceil_div_spec(self.nodes[c as int].size as int, SECTOR as int)
    }

    /// Byte size of the path-table entry of a directory, as a function. The
    /// root has an empty identifier.
    pub open spec fn entry_len(self, ns: Ns) -> spec_fn(usize) -> int {
        |d: usize|
            if d == self.root {
                8int
            } else {
                8 + self.id(d, ns).len() as int + self.id(d, ns).len() as int % 2
            }
    }

    /// Byte size of one path table of a namespace.
    pub open spec fn path_table_len(self, ns: Ns) -> int {
        sum_over(self.dir_levels(ns), self.entry_len(ns))
    }
}

/// Byte length of the directory record of an identifier of `n` bytes.
fn rec_len(n: usize) -> (len: u128)
    ensures
        len == 33 + n + (n + 1) % 2,
{
    33 + n as u128 + (n as u128 + 1) % 2
}

/// The number of sectors needed to pack records of the given lengths. Records
/// never straddle a sector boundary; a directory always occupies at least one
/// sector.
fn pack_sectors(lens: &Vec<u128>) -> (sectors: u64)
    ensures
        sectors == pack_from(lens@.map_values(|l: u128| l as int), 1, 0),
        sectors >= 1,
{
    let n: usize = lens.len();
    let ghost all = lens@.map_values(|l: u128| l as int);
    let mut sectors: u64 = 1;
    let mut used: u64 = 0;
    let mut i: usize = 0;
    assert(all.skip(0) =~= all);
    while i < n
        invariant
            n == lens@.len(),
            i <= n,
            all == lens@.map_values(|l: u128| l as int),
            1 <= sectors,
            sectors <= i || sectors == 1,
            i == 0 ==> used == 0,
            used <= SECTOR,
            pack_from(all.skip(i as int), sectors as int, used as int) == pack_from(all, 1, 0),
        decreases n - i,
    {
        let l: u128 = lens[i];
        assert(all.skip(i as int)[0] == l);
        assert(all.skip(i as int).drop_first() =~= all.skip(i + 1));
        if l > SECTOR as u128 {
            return sectors + 1;
        }
        if used + l as u64 > SECTOR as u64 {
            sectors += 1;
            used = l as u64;
        } else {
            used += l as u64;
        }
        i += 1;
    }
    sectors
}

/// Sectors of the block of directory `d`.
fn dir_block_sectors(t: &Tree, d: usize, ns: Ns) -> (sectors: u64)
    requires
        d < t.arena@.len(),
        forall|c: usize| #[trigger] t@.kids(d).contains(c) ==> c < t.arena@.len(),
    ensures
        sectors == t@.block_sectors(ns)(d),
        sectors >= 1,
{
    assert forall|i: int| 0 <= i < t@.kids(d).len() implies #[trigger] t@.kids(d)[i]
        < t.arena@.len() by {
        assert(t@.kids(d).contains(t@.kids(d)[i]));
    }
    let kids: Vec<usize> = children_sorted(t, d, ns);
    let mut lens: Vec<u128> = Vec::new();
    lens.push(rec_len(1));
    lens.push(rec_len(1));
    let ghost want = t@.record_lens(d, ns);
    let count: usize = kids.len();
    let mut i: usize = 0;
    proof {
        sort_items_facts(t@.kids(d), t@.ids(ns));
    }
    while i < count
        invariant
            count == kids@.len(),
            i <= count,
            kids@ == t@.sorted_kids(d, ns),
            forall|c: usize| #[trigger] t@.kids(d).contains(c) ==> c < t.arena@.len(),
            forall|c: usize| kids@.contains(c) <==> #[trigger] t@.kids(d).contains(c),
            want == t@.record_lens(d, ns),
            lens@.len() == i + 2,
            forall|j: int| 0 <= j < i + 2 ==> (#[trigger] lens@[j]) as int == want[j],
        decreases count - i,
    {
        assert(kids@.contains(kids@[i as int]));
        assert(t@.kids(d).contains(kids@[i as int]));
        lens.push(rec_len(ns_id(t, kids[i], ns).len()));
        i += 1;
    }
    assert(lens@.map_values(|l: u128| l as int) =~= want);
    pack_sectors(&lens)
}

/// The sum over a prefix is at most the sum over the whole list, where no
/// summand is negative.
pub proof fn sum_over_prefix(s: Seq<usize>, f: spec_fn(usize) -> int, i: int)
    requires
        0 <= i <= s.len(),
        forall|j: int| 0 <= j < s.len() ==> f(#[trigger] s[j]) >= 0,
    ensures
        0 <= sum_over(s.take(i), f) <= sum_over(s, f),
    decreases s.len(),
{
    if i == s.len() {
        assert(s.take(i) =~= s);
        if i > 0 {
            sum_over_prefix(s.drop_last(), f, i - 1);
            assert(f(s[s.len() - 1]) >= 0);
        }
    } else {
        sum_over_prefix(s.drop_last(), f, i);
        assert(s.drop_last().take(i) =~= s.take(i));
        assert(f(s[s.len() - 1]) >= 0);
    }
}

proof fn sum_over_next(s: Seq<usize>, f: spec_fn(usize) -> int, i: int)
    requires
        0 <= i < s.len(),
    ensures
        sum_over(s.take(i + 1), f) == sum_over(s.take(i), f) + f(s[i]),
{
    assert(s.take(i + 1).drop_last() =~= s.take(i));
    assert(s.take(i + 1).last() == s[i]);
}

/// Byte size of one path table (the same for the little- and the big-endian
/// table), or `None` where it does not fit in memory.
fn path_table_size(t: &Tree, ns: Ns) -> (size: Option<usize>)
    requires
        t@.wf(),
    ensures
        size matches Some(n) ==> n == t@.path_table_len(ns),
        size is None ==> t@.path_table_len(ns) > usize::MAX,
{
    let order: Vec<usize> = dirs_by_level(t, ns);
    let ghost f = t@.entry_len(ns);
    let count: usize = order.len();
    let mut size: u128 = 0;
    let mut i: usize = 0;
    proof {
        dir_levels_facts(t@, ns);
        assert(order@.take(0) =~= Seq::<usize>::empty());
    }
    while i < count
        invariant
            count == order@.len(),
            i <= count,
            f == t@.entry_len(ns),
            forall|j: int| 0 <= j < count ==> (#[trigger] order@[j]) < t.arena@.len(),
            size == sum_over(order@.take(i as int), f),
            size <= usize::MAX,
            order@ == t@.dir_levels(ns),
        decreases count - i,
    {
        let d: usize = order[i];
        let n: usize = ns_id(t, d, ns).len();
        if d == t.root {
            size += 8;
        } else {
            size += 8 + n as u128 + n as u128 % 2;
        }
        proof {
            sum_over_next(order@, f, i as int);
        }
        i += 1;
        if size > usize::MAX as u128 {
            proof {
                assert(forall|j: int| 0 <= j < order@.len() ==> f(#[trigger] order@[j]) >= 0);
                sum_over_prefix(order@, f, i as int);
            }
            return None;
        }
    }
    assert(order@.take(count as int) =~= order@);
    Some(size as usize)
}

/// What the level order of the directories lists: the root first, behind it
/// every directory with its parent before it, nothing twice.
pub proof fn dir_levels_facts(v: TreeView, ns: Ns)
    requires
        v.wf(),
    ensures
        v.dir_levels(ns).len() > 0,
        v.dir_levels(ns)[0] == v.root,
        v.dir_levels(ns).no_duplicates(),
        forall|i: int|
            0 <= i < v.dir_levels(ns).len() ==> (#[trigger] v.dir_levels(ns)[i]) < v.nodes.len()
                && v.nodes[v.dir_levels(ns)[i] as int].is_dir,
        forall|i: int|
            1 <= i < v.dir_levels(ns).len() ==> (#[trigger] v.dir_levels(ns)[i]) != v.root
                && exists|j: int|
                0 <= j < i && v.dir_levels(ns)[j] == v.nodes[v.dir_levels(ns)[i] as int].parent,
        forall|d: usize, c: usize|
            v.dir_levels(ns).contains(d) && #[trigger] v.kids(d).contains(c)
                && v.nodes[c as int].is_dir ==> v.dir_levels(ns).contains(c),
{
    let (live, depth) = choose|live: Set<usize>, depth: spec_fn(usize) -> nat|
        v.shaped(live, depth);
    let n = v.nodes.len();
    let dirs = dir_forest(v, live, depth, ns);
    let next = v.subdirs(ns);
    let level = seq![v.root];
    let order = v.dir_levels(ns);
    assert(all_live(dirs, level));
    assert(at_depth(depth, level, 0));
    level_order_members(next, v.parents(), dirs, depth, n, level, n, 0);
    assert(order == level + level_order(next, successors(next, level), (n - 1) as nat));
    assert(order[0] == v.root);
    assert forall|i: int| 0 <= i < order.len() implies (#[trigger] order[i]) < n
        && v.nodes[order[i] as int].is_dir by {
        assert(dirs.contains(order[i]));
        assert(live.contains(order[i]));
    }
    assert forall|i: int| 1 <= i < order.len() implies (#[trigger] order[i]) != v.root
        && exists|j: int| 0 <= j < i && order[j] == v.nodes[order[i] as int].parent by {
        let j = level_order_parents(next, v.parents(), dirs, depth, n, level, n, 0, i);
        assert(order[j] == v.parents()(order[i]));
        assert(order[0] != order[i]);
    }
    assert forall|d: usize, c: usize|
        order.contains(d) && #[trigger] v.kids(d).contains(c)
            && v.nodes[c as int].is_dir implies order.contains(c) by {
        let i = choose|i: int| 0 <= i < order.len() && order[i] == d;
        assert(dirs.contains(order[i]));
        assert(live.contains(d));
        assert(next(d).contains(c));
        let j = level_order_closed(next, v.parents(), dirs, depth, n, level, n, 0, i, c);
    }
}

/// Both orders of the directories list every directory of the tree, and the
/// order of the files lists every file.
pub proof fn orders_are_complete(v: TreeView, ns: Ns, x: usize)
    requires
        v.wf(),
        v.reachable().contains(x),
    ensures
        v.nodes[x as int].is_dir ==> v.dir_order(ns).contains(x) && v.dir_levels(ns).contains(x),
        !v.nodes[x as int].is_dir ==> v.file_order().contains(x),
{
    let s = Set::new(
        |d: usize|
            {
                &&& v.nodes[d as int].is_dir ==> v.dir_order(ns).contains(d) && v.dir_order(
                    Ns::Base,
                ).contains(d) && v.dir_levels(ns).contains(d)
                &&& !v.nodes[d as int].is_dir ==> v.file_order().contains(d)
            },
    );
    reachable_facts(v);
    dir_order_facts(v, ns);
    dir_order_facts(v, Ns::Base);
    dir_levels_facts(v, ns);
    file_order_facts(v);
    assert(v.dir_levels(ns).contains(v.dir_levels(ns)[0]));
    assert(s.contains(v.root));
    assert forall|d: usize, c: usize|
        s.contains(d) && v.reachable().contains(d) && #[trigger] v.kids(d).contains(
            c,
        ) implies s.contains(c) by {
        assert(v.kids(d).len() > 0);
        assert(v.nodes[d as int].is_dir);
    }
    reachable_induction(v, s, x);
}

// ---------------------------------------------------------------------------
// the plan
// ---------------------------------------------------------------------------

/// The first sectors of everything on a volume.
pub struct Places {
    pub svd: int,
    pub boot_rec: int,
    pub term: int,
    pub catalog: int,
    pub base_le: int,
    pub base_be: int,
    pub jol_le: int,
    pub jol_be: int,
    pub dirs: int,
    pub jol_dirs: int,
    pub files: int,
    pub total: int,
}

/// Where everything on the volume of a tree lies. A structure that is left
/// out takes no sector.
pub open spec fn places(v: TreeView, boot: bool, joliet: bool) -> Places {
    let one_boot = if boot {
        1int
    } else {
        0
    };
    let one_jol = if joliet {
        1int
    } else {
        0
    };
    let base_table = table_sectors(v.path_table_len(Ns::Base));
    let jol_table = if joliet {
        table_sectors(v.path_table_len(Ns::Jol))
    } else {
        0
    };
    let svd = 17int;
    let boot_rec = svd + one_jol;
    let term = boot_rec + one_boot;
    let catalog = term + 1;
    let base_le = catalog + one_boot;
    let base_be = base_le + base_table;
    let jol_le = base_be + base_table;
    let jol_be = jol_le + jol_table;
    let dirs = jol_be + jol_table;
    let jol_dirs = dirs + sum_over(v.dir_order(Ns::Base), v.block_sectors(Ns::Base));
    let files = jol_dirs + if joliet {
        sum_over(v.dir_order(Ns::Jol), v.block_sectors(Ns::Jol))
    } else {
        0
    };
    let total = files + sum_over(v.file_order(), v.content_sectors());
    Places {
        svd,
        boot_rec,
        term,
        catalog,
        base_le,
        base_be,
        jol_le,
        jol_be,
        dirs,
        jol_dirs,
        files,
        total,
    }
}

/// Whether sector addresses and path-table sizes stay within their types.
pub open spec fn layout_fits(v: TreeView, boot: bool, joliet: bool) -> bool {
    &&& v.path_table_len(Ns::Base) <= usize::MAX
    &&& joliet ==> v.path_table_len(Ns::Jol) <= usize::MAX
    &&& places(v, boot, joliet).total <= u32::MAX
}

impl ImagePlan {
    /// Whether this is the plan of the volume of a tree.
    pub open spec fn describes(&self, v: TreeView, boot: bool, joliet: bool) -> bool {
        let p = places(v, boot, joliet);
        &&& self.svd_lba == if joliet {
            p.svd
        } else {
            0
        }
        &&& self.boot_rec_lba == if boot {
            p.boot_rec
        } else {
            0
        }
        &&& self.term_lba == p.term
        &&& self.catalog_lba == if boot {
            p.catalog
        } else {
            0
        }
        &&& self.pt_base.le_lba == p.base_le
        &&& self.pt_base.be_lba == p.base_be
        &&& self.pt_base.size == v.path_table_len(Ns::Base)
        &&& self.pt_jol.le_lba == if joliet {
            p.jol_le
        } else {
            0
        }
        &&& self.pt_jol.be_lba == if joliet {
            p.jol_be
        } else {
            0
        }
        &&& self.pt_jol.size == if joliet {
            v.path_table_len(Ns::Jol)
        } else {
            0
        }
        &&& self.total_sectors == p.total
    }
}

/// The first sector of `x` where the nodes of `order` follow each other from
/// sector `start` on, each with as many sectors as `sectors` says.
#[verifier::opaque]
pub open spec fn placed_at(
    order: Seq<usize>,
    start: int,
    sectors: spec_fn(usize) -> int,
    x: usize,
) -> int {
    start + sum_over(order.take(order.index_of(x)), sectors)
}

/// Where node `x` lies, given the first sectors of the parts of the volume;
/// what has no place there keeps the extent it had.
pub open spec fn extent_at(v: TreeView, joliet: bool, p: Places, x: usize, had: Extent) -> Extent {
    let dirs = v.dir_order(Ns::Base);
    let jol_dirs = v.dir_order(Ns::Jol);
    let files = v.file_order();
    Extent {
        base_lba: if dirs.contains(x) {
            placed_at(dirs, p.dirs, v.block_sectors(Ns::Base), x) as u32
        } else if files.contains(x) {
            placed_at(files, p.files, v.content_sectors(), x) as u32
        } else {
            had.base_lba
        },
        sectors: if dirs.contains(x) {
            v.block_sectors(Ns::Base)(x) as u32
        } else {
            had.sectors
        },
        jol_lba: if joliet && jol_dirs.contains(x) {
            placed_at(jol_dirs, p.jol_dirs, v.block_sectors(Ns::Jol), x) as u32
        } else {
            had.jol_lba
        },
        jol_sectors: if joliet && jol_dirs.contains(x) {
            v.block_sectors(Ns::Jol)(x) as u32
        } else {
            had.jol_sectors
        },
    }
}

/// Where node `x` lies on the volume of a tree.
pub open spec fn planned_extent(
    v: TreeView,
    boot: bool,
    joliet: bool,
    x: usize,
    had: Extent,
) -> Extent {
    extent_at(v, joliet, places(v, boot, joliet), x, had)
}

/// The extents of all nodes after planning.
pub open spec fn planned_extents(
    v: TreeView,
    boot: bool,
    joliet: bool,
    had: Seq<Extent>,
) -> Seq<Extent> {
    Seq::new(v.nodes.len(), |i: int| planned_extent(v, boot, joliet, i as usize, had[i]))
}

/// Nodes that follow each other on the volume, with their places.
struct Run {
    order: Vec<usize>,
    counts: Vec<u32>,
    starts: Vec<u32>,
}

impl Run {
    /// The run places `order` from `start` on, with `sectors` for each node.
    spec fn places(&self, order: Seq<usize>, start: int, sectors: spec_fn(usize) -> int) -> bool {
        &&& self.order@ == order
        &&& self.counts@.len() == order.len()
        &&& self.starts@.len() == order.len()
        &&& forall|i: int|
            0 <= i < order.len() ==> (#[trigger] self.counts@[i]) as int == sectors(order[i])
        &&& forall|i: int|
            0 <= i < order.len() ==> (#[trigger] self.starts@[i]) as int == start + sum_over(
                order.take(i),
                sectors,
            )
    }
}

/// Places the nodes of `order` one after the other. Gives the run and the
/// sector behind it, or `None` where that sector has no 32-bit address.
fn run_of(
    order: Vec<usize>,
    counts: &Vec<u64>,
    start: u64,
    Ghost(sectors): Ghost<spec_fn(usize) -> int>,
) -> (r: Option<(Run, u64)>)
    requires
        counts@.len() == order@.len(),
        forall|i: int| 0 <= i < order@.len() ==> counts@[i] as int == sectors(#[trigger] order@[i]),
    ensures
        r matches Some((run, end)) ==> run.places(order@, start as int, sectors) && end == start
            + sum_over(order@, sectors) && end <= u32::MAX,
        r is None ==> start + sum_over(order@, sectors) > u32::MAX,
        sum_over(order@, sectors) >= 0,
{
    let n: usize = order.len();
    let mut short: Vec<u32> = Vec::new();
    let mut starts: Vec<u32> = Vec::new();
    let mut next: u64 = start;
    let mut i: usize = 0;
    proof {
        sum_over_prefix(order@, sectors, 0);
        assert(order@.take(0) =~= Seq::<usize>::empty());
    }
    if start > u32::MAX as u64 {
        return None;
    }
    while i < n
        invariant
            n == order@.len(),
            n == counts@.len(),
            i <= n,
            forall|j: int|
                0 <= j < n ==> counts@[j] as int == sectors(#[trigger] order@[j]),
            next == start + sum_over(order@.take(i as int), sectors),
            next <= u32::MAX,
            short@.len() == i,
            starts@.len() == i,
            forall|j: int|
                0 <= j < i ==> (#[trigger] short@[j]) as int == sectors(order@[j]),
            forall|j: int|
                0 <= j < i ==> (#[trigger] starts@[j]) as int == start + sum_over(
                    order@.take(j),
                    sectors,
                ),
        decreases n - i,
    {
        assert(counts@[i as int] as int == sectors(order@[i as int]));
        let count: u64 = counts[i];
        proof {
            sum_over_next(order@, sectors, i as int);
            sum_over_prefix(order@, sectors, i + 1);
            sum_over_prefix(order@, sectors, i as int);
        }
        if count > u32::MAX as u64 - next {
            return None;
        }
        short.push(count as u32);
        starts.push(next as u32);
        next += count;
        i += 1;
    }
    assert(order@.take(n as int) =~= order@);
    Some((Run { order, counts: short, starts }, next))
}

/// Sectors of the blocks of the given directories.
fn block_counts(t: &Tree, order: &Vec<usize>, ns: Ns) -> (counts: Vec<u64>)
    requires
        t@.wf(),
        order@ == t@.dir_order(ns),
    ensures
        counts@.len() == order@.len(),
        forall|i: int|
            0 <= i < order@.len() ==> counts@[i] as int == t@.block_sectors(ns)(
                #[trigger] order@[i],
            ),
{
    let n: usize = order.len();
    let mut counts: Vec<u64> = Vec::new();
    let mut i: usize = 0;
    proof {
        dir_order_facts(t@, ns);
    }
    while i < n
        invariant
            n == order@.len(),
            i <= n,
            order@ == t@.dir_order(ns),
            forall|d: usize| #[trigger] order@.contains(d) ==> d < t.arena@.len(),
            forall|d: usize, c: usize|
                order@.contains(d) && #[trigger] t@.kids(d).contains(c) ==> c < t.arena@.len(),
            counts@.len() == i,
            forall|j: int|
                0 <= j < i ==> counts@[j] as int == t@.block_sectors(ns)(#[trigger] order@[j]),
        decreases n - i,
    {
        assert(order@.contains(order@[i as int]));
        counts.push(dir_block_sectors(t, order[i], ns));
        i += 1;
    }
    counts
}

/// Sectors of the contents of the given files.
fn content_counts(t: &Tree, order: &Vec<usize>) -> (counts: Vec<u64>)
    requires
        t@.wf(),
        order@ == t@.file_order(),
    ensures
        counts@.len() == order@.len(),
        forall|i: int|
            0 <= i < order@.len() ==> counts@[i] as int == t@.content_sectors()(
                #[trigger] order@[i],
            ),
{
    let n: usize = order.len();
    let mut counts: Vec<u64> = Vec::new();
    let mut i: usize = 0;
    proof {
        file_order_facts(t@);
    }
    while i < n
        invariant
            n == order@.len(),
            i <= n,
            order@ == t@.file_order(),
            forall|c: usize| #[trigger] order@.contains(c) ==> c < t.arena@.len(),
            counts@.len() == i,
            forall|j: int|
                0 <= j < i ==> counts@[j] as int == t@.content_sectors()(#[trigger] order@[j]),
        decreases n - i,
    {
        assert(order@.contains(order@[i as int]));
        counts.push(ceil_div(t.arena[order[i]].size, SECTOR as u64));
        i += 1;
    }
    counts
}

/// Sectors of a path table of `size` bytes.
fn sectors_of_table(size: usize) -> (n: u64)
    ensures
        n == table_sectors(size as int),
        n >= 1,
{
    if size <= SECTOR {
        1
    } else {
        let n: u64 = ceil_div(size as u64, SECTOR as u64);
        n
    }
}

/// A whole layout: the plan and the places of all nodes.
struct Layout {
    plan: ImagePlan,
    dirs: Run,
    jol_dirs: Option<Run>,
    files: Run,
}

impl Layout {
    spec fn describes(&self, v: TreeView, boot: bool, joliet: bool) -> bool {
        let p = places(v, boot, joliet);
        &&& self.plan.describes(v, boot, joliet)
        &&& self.dirs.places(v.dir_order(Ns::Base), p.dirs, v.block_sectors(Ns::Base))
        &&& joliet == (self.jol_dirs is Some)
        &&& joliet ==> self.jol_dirs->0.places(
            v.dir_order(Ns::Jol),
            p.jol_dirs,
            v.block_sectors(Ns::Jol),
        )
        &&& self.files.places(v.file_order(), p.files, v.content_sectors())
    }
}

/// The plan from its parts.
fn plan_from(
    boot: bool,
    joliet: bool,
    base_size: usize,
    jol_size: usize,
    total: u32,
    Ghost(v): Ghost<TreeView>,
) -> (plan: ImagePlan)
    requires
        base_size == v.path_table_len(Ns::Base),
        jol_size == if joliet {
            v.path_table_len(Ns::Jol)
        } else {
            0
        },
        total == places(v, boot, joliet).total,
        places(v, boot, joliet).dirs <= total,
    ensures
        plan.describes(v, boot, joliet),
{
    let svd: u32 = 17;
    let boot_rec: u32 = if joliet {
        18
    } else {
        17
    };
    let term: u32 = if boot {
        boot_rec + 1
    } else {
        boot_rec
    };
    let catalog: u32 = term + 1;
    let base_le: u64 = if boot {
        catalog as u64 + 1
    } else {
        catalog as u64
    };
    let base_table: u64 = sectors_of_table(base_size);
    let ghost p = places(v, boot, joliet);
    assert(p.base_be == base_le + base_table);
    assert(p.jol_le == p.base_be + base_table);
    assert(p.jol_be >= p.jol_le && p.dirs >= p.jol_be);
    let base_be: u64 = base_le + base_table;
    let jol_le: u64 = base_be + base_table;
    let jol_be: u64 = if joliet {
        jol_le + sectors_of_table(jol_size)
    } else {
        jol_le
    };
    ImagePlan {
        svd_lba: if joliet {
            svd
        } else {
            0
        },
        boot_rec_lba: if boot {
            boot_rec
        } else {
            0
        },
        catalog_lba: if boot {
            catalog
        } else {
            0
        },
        term_lba: term,
        pt_base: PtInfo { le_lba: base_le as u32, be_lba: base_be as u32, size: base_size },
        pt_jol: PtInfo {
            le_lba: if joliet {
                jol_le as u32
            } else {
                0
            },
            be_lba: if joliet {
                jol_be as u32
            } else {
                0
            },
            size: jol_size,
        },
        total_sectors: total,
    }
}

/// The first sector of the directory blocks, or `None` where the path tables
/// alone leave the address range.
fn first_block(boot: bool, joliet: bool, base_size: usize, jol_size: usize) -> (start: Option<u64>)
    ensures
        start matches Some(n) ==> n == first_block_at(
            boot,
            joliet,
            base_size as int,
            jol_size as int,
        ),
        start is None ==> first_block_at(boot, joliet, base_size as int, jol_size as int)
            > u32::MAX,
{
    let base_table: u64 = sectors_of_table(base_size);
    let jol_table: u64 = if joliet {
        sectors_of_table(jol_size)
    } else {
        0
    };
    if base_table > u32::MAX as u64 || jol_table > u32::MAX as u64 {
        return None;
    }
    let fixed: u64 = 18 + (if joliet {
        1
    } else {
        0
    }) + (if boot {
        2
    } else {
        0
    });
    Some(fixed + 2 * base_table + 2 * jol_table)
}

spec fn first_block_at(boot: bool, joliet: bool, base_size: int, jol_size: int) -> int {
    18 + (if joliet {
        1int
    } else {
        0
    }) + (if boot {
        2int
    } else {
        0
    }) + 2 * table_sectors(base_size) + (if joliet {
        2 * table_sectors(jol_size)
    } else {
        0
    })
}

/// Lays out the volume of a tree; `None` where it does not fit.
fn lay_out(t: &Tree, boot: bool, joliet: bool) -> (r: Option<Layout>)
    requires
        t@.wf(),
    ensures
        r matches Some(l) ==> layout_fits(t@, boot, joliet) && l.describes(t@, boot, joliet),
        r is None ==> !layout_fits(t@, boot, joliet),
{
    let ghost v = t@;
    let ghost p = places(v, boot, joliet);
    let dirs: Vec<usize> = dirs_dfs(t, Ns::Base);
    let dir_counts: Vec<u64> = block_counts(t, &dirs, Ns::Base);
    let files: Vec<usize> = files_in_order(t);
    let file_counts: Vec<u64> = content_counts(t, &files);
    let jol: Vec<usize> = dirs_dfs(t, Ns::Jol);
    let jol_counts: Vec<u64> = block_counts(t, &jol, Ns::Jol);
    proof {
        sums_are_naturals(dirs@, v.block_sectors(Ns::Base), dir_counts@);
        sums_are_naturals(jol@, v.block_sectors(Ns::Jol), jol_counts@);
        sums_are_naturals(files@, v.content_sectors(), file_counts@);
    }
    let base_size: usize = match path_table_size(t, Ns::Base) {
        Some(n) => n,
        None => {
            return None;
        },
    };
    let jol_size: usize = if joliet {
        match path_table_size(t, Ns::Jol) {
            Some(n) => n,
            None => {
                return None;
            },
        }
    } else {
        0
    };
    assert(p.dirs == first_block_at(boot, joliet, base_size as int, jol_size as int));
    let start: u64 = match first_block(boot, joliet, base_size, jol_size) {
        Some(n) => n,
        None => {
            return None;
        },
    };
    let (dir_run, jol_start): (Run, u64) = match run_of(
        dirs,
        &dir_counts,
        start,
        Ghost(v.block_sectors(Ns::Base)),
    ) {
        Some(x) => x,
        None => {
            return None;
        },
    };
    let (jol_run, file_start): (Option<Run>, u64) = if joliet {
        match run_of(jol, &jol_counts, jol_start, Ghost(v.block_sectors(Ns::Jol))) {
            Some((run, end)) => (Some(run), end),
            None => {
                return None;
            },
        }
    } else {
        (None, jol_start)
    };
    let (file_run, total): (Run, u64) = match run_of(
        files,
        &file_counts,
        file_start,
        Ghost(v.content_sectors()),
    ) {
        Some(x) => x,
        None => {
            return None;
        },
    };
    let plan: ImagePlan = plan_from(boot, joliet, base_size, jol_size, total as u32, Ghost(v));
    Some(Layout { plan, dirs: dir_run, jol_dirs: jol_run, files: file_run })
}

proof fn sums_are_naturals(order: Seq<usize>, f: spec_fn(usize) -> int, counts: Seq<u64>)
    requires
        counts.len() == order.len(),
        forall|i: int| 0 <= i < order.len() ==> counts[i] as int == f(#[trigger] order[i]),
    ensures
        sum_over(order, f) >= 0,
{
    sum_over_prefix(order, f, 0);
}

/// Whether the volume of a tree can be laid out: all sector addresses fit in
/// 32 bits.
pub fn can_lay_out(t: &Tree, boot: Option<usize>, use_joliet: bool) -> (r: bool)
    requires
        t@.wf(),
    ensures
        r == layout_fits(t@, boot is Some, use_joliet),
{
    lay_out(t, boot.is_some(), use_joliet).is_some()
}

/// Enters the places of directories.
fn enter_dirs(t: &mut Tree, run: &Run, ns: Ns)
    requires
        run.counts@.len() == run.order@.len(),
        run.starts@.len() == run.order@.len(),
        run.order@.no_duplicates(),
        forall|i: int| 0 <= i < run.order@.len() ==> #[trigger] run.order@[i] < old(t).arena@.len(),
    ensures
        final(t)@ == old(t)@,
        final(t).arena@.len() == old(t).arena@.len(),
        forall|i: int|
            0 <= i < run.order@.len() ==> final(t).extents()[(#[trigger] run.order@[i]) as int]
                == with_place(
                old(t).extents()[run.order@[i] as int],
                run.starts@[i],
                run.counts@[i],
                ns,
            ),
        forall|x: usize|
            x < old(t).arena@.len() && !(#[trigger] run.order@.contains(x))
                ==> final(t).extents()[x as int] == old(t).extents()[x as int],
{
    let n: usize = run.order.len();
    let mut i: usize = 0;
    let ghost v = t@;
    let ghost had = t.extents();
    while i < n
        invariant
            n == run.order@.len(),
            n == run.counts@.len(),
            n == run.starts@.len(),
            i <= n,
            run.order@.no_duplicates(),
            forall|j: int| 0 <= j < n ==> #[trigger] run.order@[j] < t.arena@.len(),
            t@ == v,
            had.len() == t.arena@.len(),
            forall|j: int|
                0 <= j < i ==> t.extents()[(#[trigger] run.order@[j]) as int] == with_place(
                    had[run.order@[j] as int],
                    run.starts@[j],
                    run.counts@[j],
                    ns,
                ),
            forall|x: usize|
                x < had.len() && !(#[trigger] run.order@.take(i as int).contains(x))
                    ==> t.extents()[x as int] == had[x as int],
        decreases n - i,
    {
        let d: usize = run.order[i];
        let ghost before = t.extents();
        assert(!run.order@.take(i as int).contains(d));
        if ns == Ns::Base {
            t.arena[d].base_lba = run.starts[i];
            t.arena[d].sectors = run.counts[i];
        } else {
            t.arena[d].jol_lba = run.starts[i];
            t.arena[d].jol_sectors = run.counts[i];
        }
        proof {
            assert(t@.nodes =~= v.nodes);
            let now = t.extents();
            assert(forall|x: int| 0 <= x < had.len() && x != d ==> now[x] == before[x]);
            assert forall|x: usize|
                x < had.len() && !(#[trigger] run.order@.take(i + 1).contains(x)) implies now[x as int]
                == had[x as int] by {
                let longer = run.order@.take(i + 1);
                assert(longer[i as int] == d);
                if run.order@.take(i as int).contains(x) {
                    let k = choose|k: int|
                        0 <= k < i && run.order@.take(i as int)[k] == x;
                    assert(longer[k] == x);
                }
            }
        }
        i += 1;
    }
    assert(run.order@.take(n as int) =~= run.order@);
}

/// An extent with a new place in one namespace.
pub open spec fn with_place(e: Extent, lba: u32, sectors: u32, ns: Ns) -> Extent {
    if ns == Ns::Base {
        Extent { base_lba: lba, sectors, ..e }
    } else {
        Extent { jol_lba: lba, jol_sectors: sectors, ..e }
    }
}

/// Enters the places of files.
fn enter_files(t: &mut Tree, run: &Run)
    requires
        run.starts@.len() == run.order@.len(),
        run.order@.no_duplicates(),
        forall|i: int| 0 <= i < run.order@.len() ==> #[trigger] run.order@[i] < old(t).arena@.len(),
    ensures
        final(t)@ == old(t)@,
        final(t).arena@.len() == old(t).arena@.len(),
        forall|i: int|
            0 <= i < run.order@.len() ==> final(t).extents()[(#[trigger] run.order@[i]) as int] == (
            Extent { base_lba: run.starts@[i], ..old(t).extents()[run.order@[i] as int] }),
        forall|x: usize|
            x < old(t).arena@.len() && !(#[trigger] run.order@.contains(x))
                ==> final(t).extents()[x as int] == old(t).extents()[x as int],
{
    let n: usize = run.order.len();
    let mut i: usize = 0;
    let ghost v = t@;
    let ghost had = t.extents();
    while i < n
        invariant
            n == run.order@.len(),
            n == run.starts@.len(),
            i <= n,
            run.order@.no_duplicates(),
            forall|j: int| 0 <= j < n ==> #[trigger] run.order@[j] < t.arena@.len(),
            t@ == v,
            had.len() == t.arena@.len(),
            forall|j: int|
                0 <= j < i ==> t.extents()[(#[trigger] run.order@[j]) as int] == (Extent {
                    base_lba: run.starts@[j],
                    ..had[run.order@[j] as int]
                }),
            forall|x: usize|
                x < had.len() && !(#[trigger] run.order@.take(i as int).contains(x))
                    ==> t.extents()[x as int] == had[x as int],
        decreases n - i,
    {
        let c: usize = run.order[i];
        let ghost before = t.extents();
        assert(!run.order@.take(i as int).contains(c));
        t.arena[c].base_lba = run.starts[i];
        proof {
            assert(t@.nodes =~= v.nodes);
            let now = t.extents();
            assert(forall|x: int| 0 <= x < had.len() && x != c ==> now[x] == before[x]);
            assert forall|x: usize|
                x < had.len() && !(#[trigger] run.order@.take(i + 1).contains(x)) implies now[x as int]
                == had[x as int] by {
                let longer = run.order@.take(i + 1);
                assert(longer[i as int] == c);
                if run.order@.take(i as int).contains(x) {
                    let k = choose|k: int|
                        0 <= k < i && run.order@.take(i as int)[k] == x;
                    assert(longer[k] == x);
                }
            }
        }
        i += 1;
    }
    assert(run.order@.take(n as int) =~= run.order@);
}

/// Plans the volume of a tree: fixes where every structure, directory block
/// and file lies, and enters the places in the tree.
pub fn assign_lbas(t: &mut Tree, boot: Option<usize>, use_joliet: bool) -> (plan: Result<
    ImagePlan,
    String,
>)
    requires
        old(t)@.wf(),
        layout_fits(old(t)@, boot is Some, use_joliet),
    ensures
        final(t)@ == old(t)@,
        final(t).extents() == planned_extents(
            old(t)@,
            boot is Some,
            use_joliet,
            old(t).extents(),
        ),
        plan matches Ok(p) && p.describes(old(t)@, boot is Some, use_joliet),
{
    let ghost v = t@;
    let ghost had = t.extents();
    let layout: Layout = lay_out(t, boot.is_some(), use_joliet).unwrap();
    proof {
        dir_order_facts(v, Ns::Base);
        dir_order_facts(v, Ns::Jol);
        file_order_facts(v);
        in_range(v.dir_order(Ns::Base), v.nodes.len());
        in_range(v.dir_order(Ns::Jol), v.nodes.len());
        in_range(v.file_order(), v.nodes.len());
    }
    enter_dirs(t, &layout.dirs, Ns::Base);
    let ghost with_dirs = t.extents();
    match &layout.jol_dirs {
        Some(run) => {
            enter_dirs(t, run, Ns::Jol);
        },
        None => {},
    }
    let ghost with_jol = t.extents();
    enter_files(t, &layout.files);
    assert(t.arena.len() <= usize::MAX);
    proof {
        entered(v, boot is Some, use_joliet, layout, had, with_dirs, with_jol, t.extents());
    }
    Ok(layout.plan)
}

/// Entering the runs of a layout one after the other gives the planned extents.
proof fn entered(
    v: TreeView,
    boot: bool,
    joliet: bool,
    layout: Layout,
    had: Seq<Extent>,
    with_dirs: Seq<Extent>,
    with_jol: Seq<Extent>,
    all: Seq<Extent>,
)
    requires
        v.wf(),
        v.nodes.len() <= usize::MAX,
        layout.describes(v, boot, joliet),
        had.len() == v.nodes.len(),
        with_dirs.len() == v.nodes.len(),
        with_jol.len() == v.nodes.len(),
        all.len() == v.nodes.len(),
        forall|i: int|
            0 <= i < layout.dirs.order@.len() ==> with_dirs[(
            #[trigger] layout.dirs.order@[i]) as int] == with_place(
                had[layout.dirs.order@[i] as int],
                layout.dirs.starts@[i],
                layout.dirs.counts@[i],
                Ns::Base,
            ),
        forall|x: usize|
            x < had.len() && !(#[trigger] layout.dirs.order@.contains(x)) ==> with_dirs[x as int]
                == had[x as int],
        joliet ==> {
            let run = layout.jol_dirs->0;
            &&& forall|i: int|
                0 <= i < run.order@.len() ==> with_jol[(#[trigger] run.order@[i]) as int]
                    == with_place(
                    with_dirs[run.order@[i] as int],
                    run.starts@[i],
                    run.counts@[i],
                    Ns::Jol,
                )
            &&& forall|x: usize|
                x < had.len() && !(#[trigger] run.order@.contains(x)) ==> with_jol[x as int]
                    == with_dirs[x as int]
        },
        !joliet ==> with_jol == with_dirs,
        forall|i: int|
            0 <= i < layout.files.order@.len() ==> all[(
            #[trigger] layout.files.order@[i]) as int] == (Extent {
                base_lba: layout.files.starts@[i],
                ..with_jol[layout.files.order@[i] as int]
            }),
        forall|x: usize|
            x < had.len() && !(#[trigger] layout.files.order@.contains(x)) ==> all[x as int]
                == with_jol[x as int],
    ensures
        all == planned_extents(v, boot, joliet, had),
{
    let want = planned_extents(v, boot, joliet, had);
    let p = places(v, boot, joliet);
    assert forall|i: int| 0 <= i < v.nodes.len() implies #[trigger] all[i] == want[i] by {
        let x = i as usize;
        assert(want[i] == planned_extent(v, boot, joliet, x, had[i]));
        entered_at(
            v,
            joliet,
            p,
            layout.dirs,
            layout.jol_dirs,
            layout.files,
            x,
            had[i],
            with_dirs[i],
            with_jol[i],
            all[i],
        );
    }
    assert(all =~= want);
}

proof fn entered_at(
    v: TreeView,
    joliet: bool,
    p: Places,
    dirs: Run,
    jol_dirs: Option<Run>,
    files: Run,
    x: usize,
    had: Extent,
    with_dirs: Extent,
    with_jol: Extent,
    all: Extent,
)
    requires
        v.wf(),
        dirs.places(v.dir_order(Ns::Base), p.dirs, v.block_sectors(Ns::Base)),
        joliet == (jol_dirs is Some),
        joliet ==> jol_dirs->0.places(v.dir_order(Ns::Jol), p.jol_dirs, v.block_sectors(Ns::Jol)),
        files.places(v.file_order(), p.files, v.content_sectors()),
        forall|k: int|
            0 <= k < dirs.order@.len() && #[trigger] dirs.order@[k] == x ==> with_dirs
                == with_place(had, dirs.starts@[k], dirs.counts@[k], Ns::Base),
        !dirs.order@.contains(x) ==> with_dirs == had,
        joliet ==> forall|k: int|
            0 <= k < jol_dirs->0.order@.len() && #[trigger] jol_dirs->0.order@[k] == x ==> with_jol
                == with_place(
                with_dirs,
                jol_dirs->0.starts@[k],
                jol_dirs->0.counts@[k],
                Ns::Jol,
            ),
        !joliet || !jol_dirs->0.order@.contains(x) ==> with_jol == with_dirs,
        forall|k: int|
            0 <= k < files.order@.len() && #[trigger] files.order@[k] == x ==> all == (Extent {
                base_lba: files.starts@[k],
                ..with_jol
            }),
        !files.order@.contains(x) ==> all == with_jol,
    ensures
        all == extent_at(v, joliet, p, x, had),
{
    if v.dir_order(Ns::Base).contains(x) {
        let k = run_entry(dirs, v.dir_order(Ns::Base), p.dirs, v.block_sectors(Ns::Base), x);
        if v.file_order().contains(x) {
            dir_order_facts(v, Ns::Base);
            file_order_facts(v);
        }
    }
    if joliet && v.dir_order(Ns::Jol).contains(x) {
        let k = run_entry(
            jol_dirs->0,
            v.dir_order(Ns::Jol),
            p.jol_dirs,
            v.block_sectors(Ns::Jol),
            x,
        );
    }
    if v.file_order().contains(x) {
        let k = run_entry(files, v.file_order(), p.files, v.content_sectors(), x);
    }
}

proof fn run_entry(
    run: Run,
    order: Seq<usize>,
    start: int,
    sectors: spec_fn(usize) -> int,
    x: usize,
) -> (k: int)
    requires
        run.places(order, start, sectors),
        order.contains(x),
    ensures
        0 <= k < run.order@.len(),
        run.order@[k] == x,
        run.starts@[k] as int == placed_at(order, start, sectors, x),
        run.counts@[k] as int == sectors(x),
{
    reveal(placed_at);
    order.index_of(x)
}

proof fn in_range(order: Seq<usize>, n: nat)
    requires
        forall|d: usize| #[trigger] order.contains(d) ==> d < n,
    ensures
        forall|i: int| 0 <= i < order.len() ==> #[trigger] order[i] < n,
{
    assert forall|i: int| 0 <= i < order.len() implies #[trigger] order[i] < n by {
        assert(order.contains(order[i]));
    }
}

/// A piece of a volume that belongs to a node: its directory block in a
/// namespace, or the contents of a file.
pub enum Piece {
    Block(Ns, usize),
    Contents(usize),
}

/// Whether a volume has the piece.
pub open spec fn has_piece(v: TreeView, joliet: bool, k: Piece) -> bool {
    match k {
        Piece::Block(ns, d) => (ns == Ns::Base || joliet) && v.dir_order(ns).contains(d),
        Piece::Contents(c) => v.file_order().contains(c),
    }
}

/// The first sector of a piece.
pub open spec fn piece_start(v: TreeView, boot: bool, joliet: bool, k: Piece) -> int {
    let p = places(v, boot, joliet);
    match k {
        Piece::Block(ns, d) => placed_at(
            v.dir_order(ns),
            if ns == Ns::Base {
                p.dirs
            } else {
                p.jol_dirs
            },
            v.block_sectors(ns),
            d,
        ),
        Piece::Contents(c) => placed_at(v.file_order(), p.files, v.content_sectors(), c),
    }
}

/// The sectors of a piece.
pub open spec fn piece_sectors(v: TreeView, k: Piece) -> int {
    match k {
        Piece::Block(ns, d) => v.block_sectors(ns)(d),
        Piece::Contents(c) => v.content_sectors()(c),
    }
}

proof fn placed_within(order: Seq<usize>, start: int, sectors: spec_fn(usize) -> int, x: usize)
    requires
        order.contains(x),
        forall|j: int| 0 <= j < order.len() ==> sectors(#[trigger] order[j]) >= 0,
    ensures
        start <= placed_at(order, start, sectors, x),
        placed_at(order, start, sectors, x) + sectors(x) <= start + sum_over(order, sectors),
{
    reveal(placed_at);
    let i = order.index_of(x);
    sum_over_prefix(order, sectors, i);
    sum_over_prefix(order, sectors, i + 1);
    sum_over_next(order, sectors, i);
}

proof fn placed_apart(
    order: Seq<usize>,
    start: int,
    sectors: spec_fn(usize) -> int,
    x: usize,
    y: usize,
)
    requires
        order.contains(x),
        order.contains(y),
        order.index_of(x) < order.index_of(y),
        forall|j: int| 0 <= j < order.len() ==> sectors(#[trigger] order[j]) >= 0,
    ensures
        placed_at(order, start, sectors, x) + sectors(x) <= placed_at(order, start, sectors, y),
{
    reveal(placed_at);
    let i = order.index_of(x);
    let k = order.index_of(y);
    let upto = order.take(k);
    assert forall|j: int| 0 <= j < upto.len() implies sectors(#[trigger] upto[j]) >= 0 by {
        assert(upto[j] == order[j]);
    }
    sum_over_prefix(upto, sectors, i + 1);
    assert(upto.take(i + 1) =~= order.take(i + 1));
    sum_over_next(order, sectors, i);
}

/// Packing records takes no sectors away.
pub proof fn pack_from_grows(lens: Seq<int>, sectors: int, used: int)
    ensures
        pack_from(lens, sectors, used) >= sectors,
    decreases lens.len(),
{
    if lens.len() > 0 && lens[0] <= SECTOR {
        if used + lens[0] > SECTOR {
            pack_from_grows(lens.drop_first(), sectors + 1, lens[0]);
        } else {
            pack_from_grows(lens.drop_first(), sectors, used + lens[0]);
        }
    }
}

proof fn sectors_not_negative(v: TreeView)
    ensures
        forall|ns: Ns, d: usize| #[trigger] v.block_sectors(ns)(d) >= 1,
        forall|c: usize| #[trigger] v.content_sectors()(c) >= 0,
{
    assert forall|ns: Ns, d: usize| #[trigger] v.block_sectors(ns)(d) >= 1 by {
        pack_from_grows(v.record_lens(d, ns), 1, 0);
    }
}

/// The bounds of the part of a volume that holds a piece.
spec fn part_of(v: TreeView, boot: bool, joliet: bool, k: Piece) -> (int, int) {
    let p = places(v, boot, joliet);
    match k {
        Piece::Block(Ns::Base, _) => (p.dirs, p.jol_dirs),
        Piece::Block(Ns::Jol, _) => (p.jol_dirs, p.files),
        Piece::Contents(_) => (p.files, p.total),
    }
}

proof fn within_part(v: TreeView, boot: bool, joliet: bool, k: Piece)
    requires
        has_piece(v, joliet, k),
    ensures
        part_of(v, boot, joliet, k).0 <= piece_start(v, boot, joliet, k),
        piece_start(v, boot, joliet, k) + piece_sectors(v, k) <= part_of(v, boot, joliet, k).1,
        places(v, boot, joliet).dirs <= places(v, boot, joliet).jol_dirs,
        places(v, boot, joliet).jol_dirs <= places(v, boot, joliet).files,
        places(v, boot, joliet).files <= places(v, boot, joliet).total,
{
    let p = places(v, boot, joliet);
    sectors_not_negative(v);
    let base = v.dir_order(Ns::Base);
    let jol = v.dir_order(Ns::Jol);
    let files = v.file_order();
    assert forall|j: int| 0 <= j < base.len() implies v.block_sectors(Ns::Base)(#[trigger] base[j])
        >= 0 by {}
    assert forall|j: int| 0 <= j < jol.len() implies v.block_sectors(Ns::Jol)(#[trigger] jol[j])
        >= 0 by {}
    sum_over_prefix(base, v.block_sectors(Ns::Base), 0);
    sum_over_prefix(jol, v.block_sectors(Ns::Jol), 0);
    sum_over_prefix(files, v.content_sectors(), 0);
    match k {
        Piece::Block(Ns::Base, d) => {
            placed_within(base, p.dirs, v.block_sectors(Ns::Base), d);
        },
        Piece::Block(Ns::Jol, d) => {
            placed_within(jol, p.jol_dirs, v.block_sectors(Ns::Jol), d);
        },
        Piece::Contents(c) => {
            placed_within(files, p.files, v.content_sectors(), c);
        },
    }
}

/// A piece lies behind the path tables and before the end of the volume.
pub proof fn piece_lies_on_volume(v: TreeView, boot: bool, joliet: bool, k: Piece)
    requires
        has_piece(v, joliet, k),
    ensures
        places(v, boot, joliet).dirs <= piece_start(v, boot, joliet, k),
        piece_start(v, boot, joliet, k) + piece_sectors(v, k) <= places(v, boot, joliet).total,
{
    within_part(v, boot, joliet, k);
}

/// No two pieces of a volume share a sector.
pub proof fn pieces_are_disjoint(v: TreeView, boot: bool, joliet: bool, k: Piece, l: Piece)
    requires
        has_piece(v, joliet, k),
        has_piece(v, joliet, l),
        k != l,
    ensures
        ({
            let a = piece_start(v, boot, joliet, k);
            let b = piece_start(v, boot, joliet, l);
            a + piece_sectors(v, k) <= b || b + piece_sectors(v, l) <= a
        }),
{
    let p = places(v, boot, joliet);
    sectors_not_negative(v);
    let files = v.file_order();
    match (k, l) {
        (Piece::Block(m, x), Piece::Block(n, y)) if m == n => {
            let start = if m == Ns::Base {
                p.dirs
            } else {
                p.jol_dirs
            };
            assert forall|j: int| 0 <= j < v.dir_order(m).len() implies v.block_sectors(m)(
                #[trigger] v.dir_order(m)[j],
            ) >= 0 by {}
            if v.dir_order(m).index_of(x) < v.dir_order(m).index_of(y) {
                placed_apart(v.dir_order(m), start, v.block_sectors(m), x, y);
            } else {
                placed_apart(v.dir_order(m), start, v.block_sectors(m), y, x);
            }
        },
        (Piece::Contents(x), Piece::Contents(y)) => {
            if files.index_of(x) < files.index_of(y) {
                placed_apart(files, p.files, v.content_sectors(), x, y);
            } else {
                placed_apart(files, p.files, v.content_sectors(), y, x);
            }
        },
        _ => {
            within_part(v, boot, joliet, k);
            within_part(v, boot, joliet, l);
        },
    }
}

/// The node a piece belongs to.
pub open spec fn piece_node(k: Piece) -> usize {
    match k {
        Piece::Block(_, d) => d,
        Piece::Contents(c) => c,
    }
}

/// The extents of a planned tree say where the pieces lie.
pub proof fn extents_name_pieces(v: TreeView, boot: bool, joliet: bool, k: Piece, had: Extent)
    requires
        v.wf(),
        layout_fits(v, boot, joliet),
        has_piece(v, joliet, k),
    ensures
        ({
            let e = planned_extent(v, boot, joliet, piece_node(k), had);
            match k {
                Piece::Block(Ns::Base, _) => {
                    &&& e.base_lba == piece_start(v, boot, joliet, k)
                    &&& e.sectors == piece_sectors(v, k)
                },
                Piece::Block(Ns::Jol, _) => {
                    &&& e.jol_lba == piece_start(v, boot, joliet, k)
                    &&& e.jol_sectors == piece_sectors(v, k)
                },
                Piece::Contents(_) => e.base_lba == piece_start(v, boot, joliet, k),
            }
        }),
{
    piece_lies_on_volume(v, boot, joliet, k);
    sectors_not_negative(v);
    dir_order_facts(v, Ns::Base);
    file_order_facts(v);
}

/// Directories stand in a path table in the order of their parents, and those
/// of one parent in ascending order of their identifiers.
pub proof fn tables_are_in_order(v: TreeView, ns: Ns)
    requires
        v.wf(),
    ensures
        ({
            let order = v.dir_levels(ns);
            forall|i: int, j: int, a: int, b: int|
                #![trigger order[i], order[j], order[a], order[b]]
                1 <= i <= j < order.len() && 0 <= a < order.len() && 0 <= b < order.len()
                    && order[a] == v.nodes[order[i] as int].parent && order[b]
                    == v.nodes[order[j] as int].parent ==> a <= b && (a == b ==> lex_le(
                    v.id(order[i], ns),
                    v.id(order[j], ns),
                ))
        }),
{
    let (live, depth) = choose|live: Set<usize>, depth: spec_fn(usize) -> nat|
        v.shaped(live, depth);
    let n = v.nodes.len();
    let dirs = dir_forest(v, live, depth, ns);
    let next = v.subdirs(ns);
    let level = seq![v.root];
    let order = v.dir_levels(ns);
    assert(all_live(dirs, level));
    assert(at_depth(depth, level, 0));
    assert forall|d: usize| #[trigger] dirs.contains(d) implies ascending(next(d), v.ids(ns)) by {
        sort_items_facts(v.kids(d), v.ids(ns));
        only_ascends(v, v.sorted_kids(d, ns), true, v.ids(ns));
    }
    level_order_by_parent(next, v.parents(), v.ids(ns), dirs, depth, n, level, n, 0);
    dir_levels_facts(v, ns);
    assert forall|i: int, j: int, a: int, b: int|
        #![trigger order[i], order[j], order[a], order[b]]
        1 <= i <= j < order.len() && 0 <= a < order.len() && 0 <= b < order.len() && order[a]
            == v.nodes[order[i] as int].parent && order[b]
            == v.nodes[order[j] as int].parent implies a <= b && (a == b ==> lex_le(
        v.id(order[i], ns),
        v.id(order[j], ns),
    )) by {
        assert(order[a] == v.parents()(order[i]) && order[b] == v.parents()(order[j]));
        assert(v.ids(ns)(order[i]) == v.id(order[i], ns));
        assert(v.ids(ns)(order[j]) == v.id(order[j], ns));
    }
}

/// The blocks of the directories lie depth first: that of the root comes first,
/// each other one behind that of its parent or of a directory below its parent,
/// and those of one parent in ascending order of their identifiers.
pub proof fn directories_lie_depth_first(v: TreeView, ns: Ns)
    requires
        v.wf(),
    ensures
        ({
            let order = v.dir_order(ns);
            &&& order.len() > 0 && order[0] == v.root
            &&& forall|i: int, j: int|
                #![trigger order[i], order[j]]
                0 <= i && j == i + 1 && j < order.len() ==> climbs(
                    v.parents(),
                    order[i],
                    v.nodes[order[j] as int].parent,
                )
            &&& forall|i: int, j: int|
                #![trigger order[i], order[j]]
                1 <= i <= j < order.len() && v.nodes[order[i] as int].parent
                    == v.nodes[order[j] as int].parent ==> lex_le(
                    v.id(order[i], ns),
                    v.id(order[j], ns),
                )
        }),
{
    let (live, depth) = choose|live: Set<usize>, depth: spec_fn(usize) -> nat|
        v.shaped(live, depth);
    let n = v.nodes.len();
    let dirs = dir_forest(v, live, depth, ns);
    let next = v.subdirs(ns);
    let order = v.dir_order(ns);
    let kids = next(v.root);
    assert(dirs.contains(v.root));
    assert(live.contains(v.root));
    assert forall|d: usize| #[trigger] dirs.contains(d) implies ascending(next(d), v.ids(ns)) by {
        sort_items_facts(v.kids(d), v.ids(ns));
        only_ascends(v, v.sorted_kids(d, ns), true, v.ids(ns));
    }
    assert forall|i: int| 0 <= i < kids.len() implies dirs.contains(#[trigger] kids[i]) && depth(
        kids[i],
    ) == depth(v.root) + 1 && v.parents()(kids[i]) == v.root by {
        assert(kids.contains(kids[i]));
    }
    let below = preorder(next, kids, (n - 1) as nat);
    preorder_depth_first(
        next,
        v.parents(),
        v.ids(ns),
        dirs,
        depth,
        n,
        kids,
        (n - 1) as nat,
        v.root,
    );
    let none = preorder(next, seq![v.root].drop_first(), n);
    assert(none.len() == 0);
    assert(order =~= seq![v.root] + below);
    assert(order[0] == v.root);
    assert forall|i: int| 1 <= i < order.len() implies #[trigger] order[i] == below[i - 1] by {}
    dir_order_facts(v, ns);
    assert forall|i: int| 0 <= i < order.len() implies v.parents()(#[trigger] order[i])
        == v.nodes[order[i] as int].parent by {
        assert(order.contains(order[i]));
    }
    assert forall|i: int, j: int|
        #![trigger order[i], order[j]]
        0 <= i && j == i + 1 && j < order.len() implies climbs(
        v.parents(),
        order[i],
        v.nodes[order[j] as int].parent,
    ) by {
        assert(order[j] == below[j - 1]);
        if i == 0 {
            assert(ancestor(v.parents(), v.root, 0) == v.root);
        } else {
            assert(order[i] == below[i - 1]);
        }
    }
    assert forall|i: int, j: int|
        #![trigger order[i], order[j]]
        1 <= i <= j < order.len() && v.nodes[order[i] as int].parent
            == v.nodes[order[j] as int].parent implies lex_le(
        v.id(order[i], ns),
        v.id(order[j], ns),
    ) by {
        assert(order[i] == below[i - 1] && order[j] == below[j - 1]);
        assert(v.parents()(order[i]) == v.parents()(order[j]));
        assert(v.ids(ns)(order[i]) == v.id(order[i], ns));
        assert(v.ids(ns)(order[j]) == v.id(order[j], ns));
    }
}

/// The contents of the files lie in the order of their directories, and those
/// of one directory in ascending order of their base identifiers.
pub proof fn files_lie_by_directory(v: TreeView)
    requires
        v.wf(),
    ensures
        ({
            let dirs = v.dir_order(Ns::Base);
            let order = v.file_order();
            forall|i: int, j: int, a: int, b: int|
                #![trigger order[i], order[j], dirs[a], dirs[b]]
                0 <= i <= j < order.len() && 0 <= a < dirs.len() && 0 <= b < dirs.len() && dirs[a]
                    == v.nodes[order[i] as int].parent && dirs[b] == v.nodes[order[j] as int].parent
                    ==> a <= b && (a == b ==> lex_le(
                    v.nodes[order[i] as int].base_id,
                    v.nodes[order[j] as int].base_id,
                ))
        }),
{
    let (live, depth) = choose|live: Set<usize>, depth: spec_fn(usize) -> nat|
        v.shaped(live, depth);
    let n = v.nodes.len();
    let next = v.files();
    let dirs = v.dir_order(Ns::Base);
    let order = v.file_order();
    let key = v.ids(Ns::Base);
    dir_order_facts(v, Ns::Base);
    file_order_facts(v);
    assert forall|d: usize, c: usize| live.contains(d) && #[trigger] next(d).contains(c) implies {
        &&& live.contains(c)
        &&& depth(c) == depth(d) + 1
        &&& v.parents()(c) == d
    } by {
        sort_items_facts(v.kids(d), key);
        only_facts(v, v.sorted_kids(d, Ns::Base), false);
        assert(v.sorted_kids(d, Ns::Base).contains(c));
        assert(v.next()(d).contains(c));
    }
    assert forall|d: usize| #[trigger] live.contains(d) implies depth(d) < n && next(
        d,
    ).no_duplicates() && ascending(next(d), key) by {
        assert(v.next()(d).no_duplicates());
        sort_items_facts(v.kids(d), key);
        sort_items_no_duplicates(v.kids(d), key);
        only_facts(v, v.sorted_kids(d, Ns::Base), false);
        only_ascends(v, v.sorted_kids(d, Ns::Base), false, key);
    }
    let some = dir_forest(v, live, depth, Ns::Base);
    assert forall|i: int| 0 <= i < dirs.len() implies live.contains(#[trigger] dirs[i]) by {
        assert(dirs.contains(dirs[i]));
        assert(all_live(some, seq![v.root]));
        assert(at_depth(depth, seq![v.root], 0));
        preorder_members(
            v.subdirs(Ns::Base),
            v.parents(),
            some,
            depth,
            n,
            seq![v.root],
            n,
            0,
            dirs[i],
        );
    }
    successors_by_parent(next, v.parents(), key, live, depth, n, dirs);
    assert forall|i: int, j: int, a: int, b: int|
        #![trigger order[i], order[j], dirs[a], dirs[b]]
        0 <= i <= j < order.len() && 0 <= a < dirs.len() && 0 <= b < dirs.len() && dirs[a]
            == v.nodes[order[i] as int].parent && dirs[b]
            == v.nodes[order[j] as int].parent implies a <= b && (a == b ==> lex_le(
        v.nodes[order[i] as int].base_id,
        v.nodes[order[j] as int].base_id,
    )) by {
        assert(order.contains(order[i]) && order.contains(order[j]));
        assert(v.parents()(order[i]) == dirs[a] && v.parents()(order[j]) == dirs[b]);
        assert(key(order[i]) == v.nodes[order[i] as int].base_id);
        assert(key(order[j]) == v.nodes[order[j] as int].base_id);
    }
}

/// Whether `t` sectors of 2048 bytes hold `size` bytes, and no fewer do; there
/// is one at least.
pub open spec fn just_holds(t: int, size: int) -> bool {
    1 <= t && size <= t * 2048 && (t > 1 ==> (t - 1) * 2048 < size)
}

/// The parts of a volume follow each other without a sector between them: the
/// descriptors from sector 16 on, the boot catalog, the path tables, the blocks
/// of the directories and the contents of the files.
pub proof fn parts_follow_each_other(v: TreeView, boot: bool, joliet: bool)
    ensures
        ({
            let p = places(v, boot, joliet);
            &&& p.svd == 17
            &&& p.boot_rec == if joliet {
                18int
            } else {
                17
            }
            &&& p.term == if boot {
                p.boot_rec + 1
            } else {
                p.boot_rec
            }
            &&& p.catalog == p.term + 1
            &&& p.base_le == if boot {
                p.catalog + 1
            } else {
                p.catalog
            }
            &&& just_holds(p.base_be - p.base_le, v.path_table_len(Ns::Base))
            &&& p.jol_le - p.base_be == p.base_be - p.base_le
            &&& joliet ==> just_holds(p.jol_be - p.jol_le, v.path_table_len(Ns::Jol))
            &&& !joliet ==> p.dirs == p.jol_le
            &&& p.dirs - p.jol_be == p.jol_be - p.jol_le
            &&& p.jol_dirs - p.dirs == sum_over(v.dir_order(Ns::Base), v.block_sectors(Ns::Base))
            &&& joliet ==> p.files - p.jol_dirs == sum_over(
                v.dir_order(Ns::Jol),
                v.block_sectors(Ns::Jol),
            )
            &&& !joliet ==> p.files == p.jol_dirs
            &&& p.total - p.files == sum_over(v.file_order(), v.content_sectors())
        }),
{
}

/// A volume is laid out where all its sectors have 32-bit numbers and the lengths
/// of its path tables fit in a machine word, and not otherwise.
pub proof fn volumes_have_short_addresses(v: TreeView, boot: bool, joliet: bool)
    ensures
        layout_fits(v, boot, joliet) <==> {
            &&& places(v, boot, joliet).total < 0x1_0000_0000
            &&& v.path_table_len(Ns::Base) <= usize::MAX
            &&& joliet ==> v.path_table_len(Ns::Jol) <= usize::MAX
        },
{
}

/// What is left of a list in ascending order is in ascending order.
proof fn only_ascends(v: TreeView, s: Seq<usize>, dirs: bool, key: spec_fn(usize) -> Seq<u8>)
    requires
        ascending(s, key),
    ensures
        ascending(v.only(s, dirs), key),
    decreases s.len(),
{
    if s.len() > 0 {
        let less = s.drop_last();
        assert(ascending(less, key)) by {
            assert forall|i: int, j: int| 0 <= i <= j < less.len() implies lex_le(
                key(less[i]),
                key(less[j]),
            ) by {
                assert(lex_le(key(s[i]), key(s[j])));
            }
        }
        only_ascends(v, less, dirs, key);
        only_facts(v, less, dirs);
        let some = v.only(less, dirs);
        let all = v.only(s, dirs);
        let last = s.len() - 1;
        assert forall|i: int, j: int| 0 <= i <= j < all.len() implies lex_le(
            key(all[i]),
            key(all[j]),
        ) by {
            if j < some.len() {
                assert(lex_le(key(some[i]), key(some[j])));
            } else if i < some.len() {
                assert(some.contains(some[i]));
                assert(less.contains(some[i]));
                let k = choose|k: int| 0 <= k < less.len() && less[k] == some[i];
                assert(s[k] == some[i]);
                assert(lex_le(key(s[k]), key(s[last])));
            } else {
                assert(lex_le(key(s[last]), key(s[last])));
            }
        }
    }
}

} // verus!
