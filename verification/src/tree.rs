//! The payload as an arena of nodes.
use vstd::prelude::*;
use std::path::PathBuf;
use vstd::utf8::{encode_utf8, encode_utf8_decode_utf8};
use crate::bytes::append;
use crate::names::{
    base_candidates, base_id, base_id_is_found, base_id_len, joliet_candidates, joliet_name,
    joliet_name_is_found, joliet_name_len, try_base_dir_id, try_base_file_id, try_joliet_id,
    unique_id_is_free, IdSet,
};
use crate::order::{
    ascending_is_unique, lex_le, sort_by_keys, sort_items, sort_items_facts, sort_items_no_duplicates,
};
use crate::text::{lowercase, to_lowercase};
use crate::walk::{
    all_live, at_depth, forest, preorder, preorder_closed, preorder_lister, preorder_lists, preorder_members,
    preorder_no_duplicates, preorder_step,
};

verus! {

/// A file or directory of the volume.
pub struct Node {
    /// Original file name.
    pub name: String,
    pub is_dir: bool,
    /// Source path for regular files.
    pub src: Option<PathBuf>,
    pub size: u64,
    /// Modification time in Unix seconds (UTC), 0 when unknown.
    pub mtime: u64,
    pub parent: usize,
    pub children: Vec<usize>,
    /// Base-tree identifier (uppercase, files carry ";1").
    pub base_id: Vec<u8>,
    /// Joliet identifier (UTF-16BE of the original name, no version).
    pub joliet_id: Vec<u8>,
    /// First sector of the directory block (directories) or of the contents (files).
    pub base_lba: u32,
    /// First sector of the Joliet directory block (directories only).
    pub jol_lba: u32,
    /// Sectors of the directory block (directories only).
    pub sectors: u32,
    /// Sectors of the Joliet directory block (directories only).
    pub jol_sectors: u32,
}

/// The nodes of a volume and the index of its root directory.
pub struct Tree {
    pub arena: Vec<Node>,
    pub root: usize,
}

/// A node without its place on the volume.
#[verifier::ext_equal]
pub struct NodeView {
    pub name: Seq<char>,
    pub is_dir: bool,
    pub src: Option<PathBuf>,
    pub size: u64,
    pub mtime: u64,
    pub parent: usize,
    pub children: Seq<usize>,
    pub base_id: Seq<u8>,
    pub joliet_id: Seq<u8>,
}

/// The place of a node on the volume.
pub struct Extent {
    pub base_lba: u32,
    pub jol_lba: u32,
    pub sectors: u32,
    pub jol_sectors: u32,
}

/// A tree without the places of its nodes on the volume.
#[verifier::ext_equal]
pub struct TreeView {
    pub nodes: Seq<NodeView>,
    pub root: usize,
}

impl View for Node {
    type V = NodeView;

    open spec fn view(&self) -> NodeView {
        NodeView {
            name: self.name@,
            is_dir: self.is_dir,
            src: self.src,
            size: self.size,
            mtime: self.mtime,
            parent: self.parent,
            children: self.children@,
            base_id: self.base_id@,
            joliet_id: self.joliet_id@,
        }
    }
}

impl Node {
    /// Where the node lies on the volume.
    pub open spec fn extent(&self) -> Extent {
        Extent {
            base_lba: self.base_lba,
            jol_lba: self.jol_lba,
            sectors: self.sectors,
            jol_sectors: self.jol_sectors,
        }
    }
}

impl View for Tree {
    type V = TreeView;

    open spec fn view(&self) -> TreeView {
        TreeView { nodes: Seq::new(self.arena@.len(), |i: int| self.arena@[i]@), root: self.root }
    }
}

impl Tree {
    /// Where the nodes lie on the volume.
    pub open spec fn extents(&self) -> Seq<Extent> {
        Seq::new(self.arena@.len(), |i: int| self.arena@[i].extent())
    }
}

impl TreeView {
    /// The children of node `d`, in stored order.
    pub open spec fn kids(self, d: usize) -> Seq<usize> {
        if d < self.nodes.len() {
            self.nodes[d as int].children
        } else {
            Seq::empty()
        }
    }

    /// The child lists as a function.
    pub open spec fn next(self) -> spec_fn(usize) -> Seq<usize> {
        |d: usize| self.kids(d)
    }

    /// The parent links as a function.
    pub open spec fn parents(self) -> spec_fn(usize) -> usize {
        |d: usize|
            if d < self.nodes.len() {
                self.nodes[d as int].parent
            } else {
                0
            }
    }

    /// The nodes in `live`, each at the given depth below the root, form one
    /// tree whose inner nodes are directories.
    pub open spec fn shaped(self, live: Set<usize>, depth: spec_fn(usize) -> nat) -> bool {
        &&& self.root < self.nodes.len()
        &&& self.nodes[self.root as int].is_dir
        &&& live.contains(self.root)
        &&& depth(self.root) == 0
        &&& forall|d: usize| #[trigger] live.contains(d) ==> d < self.nodes.len()
        &&& forall|d: usize| #[trigger]
            live.contains(d) && !self.nodes[d as int].is_dir ==> self.kids(d).len() == 0
        &&& forest(self.next(), self.parents(), live, depth, self.nodes.len())
    }

    /// The child lists reachable from the root form a tree: every reachable
    /// node is listed once, names the listing node as its parent, and only
    /// directories list children.
    pub open spec fn wf(self) -> bool {
        exists|live: Set<usize>, depth: spec_fn(usize) -> nat| self.shaped(live, depth)
    }

    /// All nodes reachable from the root, parents before their children.
    pub open spec fn reachable(self) -> Seq<usize> {
        preorder(self.next(), seq![self.root], self.nodes.len())
    }
}

/// What `reachable` lists: the root, the children of every listed node behind
/// that node, nothing twice, and valid indices only.
pub proof fn reachable_facts(t: TreeView)
    requires
        t.wf(),
    ensures
        t.reachable().no_duplicates(),
        t.reachable().contains(t.root),
        forall|i: int| 0 <= i < t.reachable().len() ==> (#[trigger] t.reachable()[i])
            < t.nodes.len(),
        forall|d: usize, c: usize|
            t.reachable().contains(d) && #[trigger] t.kids(d).contains(c) ==> {
                &&& t.reachable().contains(c)
                &&& t.nodes[c as int].parent == d
                &&& c != t.root
            },
        forall|d: usize| #[trigger]
            t.reachable().contains(d) ==> d < t.nodes.len() && t.kids(d).no_duplicates() && (
            !t.nodes[d as int].is_dir ==> t.kids(d).len() == 0),
{
    let (live, depth) = choose|live: Set<usize>, depth: spec_fn(usize) -> nat|
        t.shaped(live, depth);
    let n = t.nodes.len();
    let next = t.next();
    let parent = t.parents();
    let ds = seq![t.root];
    let order = t.reachable();
    assert(all_live(live, ds));
    assert(at_depth(depth, ds, 0));
    preorder_no_duplicates(next, parent, live, depth, n, ds, n, 0);
    assert(ds[0] == t.root);
    preorder_lists(next, ds, n, t.root);
    assert forall|d: usize| #[trigger] order.contains(d) implies live.contains(d) by {
        preorder_members(next, parent, live, depth, n, ds, n, 0, d);
    }
    assert forall|i: int| 0 <= i < order.len() implies (#[trigger] order[i]) < n by {
        assert(order.contains(order[i]));
    }
    assert forall|d: usize, c: usize|
        order.contains(d) && #[trigger] t.kids(d).contains(c) implies order.contains(c)
        && t.nodes[c as int].parent == d && c != t.root by {
        let i = choose|i: int| 0 <= i < order.len() && order[i] == d;
        assert(next(d).contains(c));
        preorder_closed(next, parent, live, depth, n, ds, n, i, c);
        assert(parent(c) == d);
        assert(depth(c) == depth(d) + 1);
    }
    assert forall|d: usize| #[trigger] order.contains(d) implies d < t.nodes.len() && t.kids(
        d,
    ).no_duplicates() by {
        assert(live.contains(d));
        assert(next(d).no_duplicates());
    }
}

/// Every reachable node but the root is a child of a reachable node that stands
/// before it.
pub proof fn reachable_parent(t: TreeView, x: usize)
    requires
        t.wf(),
        t.reachable().contains(x),
        x != t.root,
    ensures
        t.reachable().contains(t.nodes[x as int].parent),
        t.kids(t.nodes[x as int].parent).contains(x),
{
    let (live, depth) = choose|live: Set<usize>, depth: spec_fn(usize) -> nat|
        t.shaped(live, depth);
    let order = t.reachable();
    preorder_lister(t.next(), seq![t.root], t.nodes.len(), x);
    let d = choose|d: usize| order.contains(d) && t.next()(d).contains(x);
    reachable_facts(t);
    assert(t.kids(d).contains(x));
}

/// What holds of the root, and of the children of every reachable node of
/// which it holds, holds of every reachable node.
pub proof fn reachable_induction(t: TreeView, s: Set<usize>, x: usize)
    requires
        t.wf(),
        s.contains(t.root),
        forall|d: usize, c: usize|
            s.contains(d) && t.reachable().contains(d) && #[trigger] t.kids(d).contains(c)
                ==> s.contains(c),
        t.reachable().contains(x),
    ensures
        s.contains(x),
{
    let (live, depth) = choose|live: Set<usize>, depth: spec_fn(usize) -> nat|
        t.shaped(live, depth);
    induction_by_depth(t, live, depth, s, x);
}

proof fn induction_by_depth(
    t: TreeView,
    live: Set<usize>,
    depth: spec_fn(usize) -> nat,
    s: Set<usize>,
    x: usize,
)
    requires
        t.shaped(live, depth),
        s.contains(t.root),
        forall|d: usize, c: usize|
            s.contains(d) && t.reachable().contains(d) && #[trigger] t.kids(d).contains(c)
                ==> s.contains(c),
        t.reachable().contains(x),
    ensures
        s.contains(x),
    decreases depth(x),
{
    if x != t.root {
        let ds = seq![t.root];
        let n = t.nodes.len();
        assert(all_live(live, ds));
        assert(at_depth(depth, ds, 0));
        reachable_parent(t, x);
        let p = t.nodes[x as int].parent;
        preorder_members(t.next(), t.parents(), live, depth, n, ds, n, 0, p);
        assert(t.next()(p).contains(x));
        assert(depth(x) == depth(p) + 1);
        induction_by_depth(t, live, depth, s, p);
    }
}

/// All nodes below the root, parents before their children, children in
/// stored order.
pub fn dfs_all(t: &Tree) -> (out: Vec<usize>)
    requires
        t@.wf(),
    ensures
        out@ == t@.reachable(),
{
    let ghost v = t@;
    let ghost n = v.nodes.len();
    let ghost (live, depth) = choose|live: Set<usize>, depth: spec_fn(usize) -> nat|
        v.shaped(live, depth);
    let mut out: Vec<usize> = Vec::new();
    let mut stack: Vec<usize> = Vec::new();
    stack.push(t.root);
    assert(stack@.reverse() =~= seq![v.root]);
    assert(out@ + preorder(v.next(), stack@.reverse(), n) =~= v.reachable());
    while stack.len() > 0
        invariant
            v == t@,
            n == v.nodes.len(),
            v.shaped(live, depth),
            all_live(live, stack@.reverse()),
            out@ + preorder(v.next(), stack@.reverse(), n) == v.reachable(),
        decreases preorder(v.next(), stack@.reverse(), n).len(),
    {
        let ghost todo = stack@.reverse();
        let node: usize = stack.pop().unwrap();
        proof {
            assert(todo[0] == node);
            assert(live.contains(node));
            preorder_step(v.next(), v.parents(), live, depth, n, todo);
        }
        out.push(node);
        let ghost rest = stack@;
        let kids: &Vec<usize> = &t.arena[node].children;
        assert(kids@ == v.kids(node));
        let count: usize = kids.len();
        let mut i: usize = count;
        while i > 0
            invariant
                i <= count,
                count == kids@.len(),
                stack@ == rest + kids@.skip(i as int).reverse(),
            decreases i,
        {
            i -= 1;
            stack.push(kids[i]);
            assert(kids@.skip(i as int).reverse() =~= kids@.skip(i + 1).reverse().push(
                kids@[i as int],
            ));
        }
        proof {
            assert(kids@.skip(0) =~= kids@);
            assert(rest.reverse() =~= todo.drop_first());
            assert(stack@.reverse() =~= kids@ + rest.reverse());
            let tail = preorder(v.next(), stack@.reverse(), n);
            assert(stack@.reverse() =~= v.next()(todo[0]) + todo.drop_first());
            assert(out@ + tail =~= v.reachable());
        }
    }
    proof {
        assert(stack@.reverse() =~= Seq::<usize>::empty());
        assert(out@ =~= out@ + preorder(v.next(), stack@.reverse(), n));
    }
    out
}

// ---------------------------------------------------------------------------
// identifiers
// ---------------------------------------------------------------------------

impl TreeView {
    /// The names in UTF-8, as a function.
    pub open spec fn name_bytes(self) -> spec_fn(usize) -> Seq<u8> {
        |n: usize| encode_utf8(self.nodes[n as int].name)
    }

    /// The children of `d` in ascending order of their names.
    pub open spec fn kids_by_name(self, d: usize) -> Seq<usize> {
        sort_items(self.kids(d), self.name_bytes())
    }

    /// The base identifiers that the nodes of `list` get one after the other,
    /// each different from those before it.
    pub open spec fn base_ids(self, list: Seq<usize>) -> Option<Seq<Seq<u8>>>
        decreases list.len(),
    {
        if list.len() == 0 {
            Some(Seq::empty())
        } else {
            let node = self.nodes[list.last() as int];
            match self.base_ids(list.drop_last()) {
                None => None,
                Some(ids) => match base_id(node.name, !node.is_dir, ids.to_set()) {
                    None => None,
                    Some(id) => Some(ids.push(id)),
                },
            }
        }
    }

    /// The Joliet identifiers that the nodes of `list` get one after the
    /// other, each different from those before it.
    pub open spec fn joliet_ids(self, list: Seq<usize>) -> Option<Seq<Seq<u8>>>
        decreases list.len(),
    {
        if list.len() == 0 {
            Some(Seq::empty())
        } else {
            let node = self.nodes[list.last() as int];
            match self.joliet_ids(list.drop_last()) {
                None => None,
                Some(ids) => match joliet_name(node.name, ids.to_set()) {
                    None => None,
                    Some(id) => Some(ids.push(id)),
                },
            }
        }
    }

    /// Whether the children of `d` can all get identifiers.
    pub open spec fn kids_assignable(self, d: usize) -> bool {
        self.base_ids(self.kids_by_name(d)) is Some && self.joliet_ids(self.kids_by_name(d)) is Some
    }

    /// Whether every reachable node can get identifiers.
    pub open spec fn assignable(self) -> bool {
        forall|d: usize| #[trigger] self.reachable().contains(d) ==> self.kids_assignable(d)
    }

    /// Node `x` with the identifiers it gets among its siblings.
    pub open spec fn node_with_ids(self, x: usize) -> NodeView {
        let node = self.nodes[x as int];
        if self.reachable().contains(x) && x != self.root {
            let list = self.kids_by_name(node.parent);
            let k = list.index_of(x);
            NodeView {
                base_id: self.base_ids(list)->0[k],
                joliet_id: self.joliet_ids(list)->0[k],
                ..node
            }
        } else {
            node
        }
    }

    /// The tree with identifiers for all reachable nodes but the root.
    pub open spec fn with_ids(self) -> TreeView {
        TreeView {
            nodes: Seq::new(self.nodes.len(), |i: int| self.node_with_ids(i as usize)),
            root: self.root,
        }
    }
}

proof fn to_set_push(s: Seq<Seq<u8>>, x: Seq<u8>)
    ensures
        s.push(x).to_set() == s.to_set().insert(x),
{
    assert forall|y: Seq<u8>| s.push(x).to_set().contains(y) <==> s.to_set().insert(x).contains(
        y,
    ) by {
        if s.contains(y) {
            let i = choose|i: int| 0 <= i < s.len() && s[i] == y;
            assert(s.push(x)[i] == y);
        }
        assert(s.push(x)[s.len() as int] == x);
        if s.push(x).contains(y) {
            let i = choose|i: int| 0 <= i < s.push(x).len() && s.push(x)[i] == y;
            if i < s.len() {
                assert(s[i] == y);
            }
        }
    }
    assert(s.push(x).to_set() =~= s.to_set().insert(x));
}

/// Identifiers given one after the other are distinct, one for each node.
pub proof fn ids_distinct(v: TreeView, list: Seq<usize>)
    ensures
        v.base_ids(list) matches Some(ids) ==> ids.len() == list.len() && ids.no_duplicates(),
        v.joliet_ids(list) matches Some(ids) ==> ids.len() == list.len() && ids.no_duplicates(),
    decreases list.len(),
{
    if list.len() > 0 {
        ids_distinct(v, list.drop_last());
        let node = v.nodes[list.last() as int];
        if let Some(ids) = v.base_ids(list.drop_last()) {
            unique_id_is_free(
                base_candidates(encode_utf8(node.name), !node.is_dir),
                ids.to_set(),
            );
            if let Some(all) = v.base_ids(list) {
                assert(!ids.contains(all.last()));
                assert forall|i: int, j: int| 0 <= i < j < all.len() implies all[i] != all[j] by {
                    assert(ids.contains(ids[i]));
                }
            }
        }
        if let Some(ids) = v.joliet_ids(list.drop_last()) {
            unique_id_is_free(joliet_candidates(node.name), ids.to_set());
            if let Some(all) = v.joliet_ids(list) {
                assert(!ids.contains(all.last()));
                assert forall|i: int, j: int| 0 <= i < j < all.len() implies all[i] != all[j] by {
                    assert(ids.contains(ids[i]));
                }
            }
        }
    }
}

/// A prefix of a list that can get identifiers gets the same ones.
proof fn ids_prefix(v: TreeView, list: Seq<usize>, n: int)
    requires
        0 <= n <= list.len(),
    ensures
        v.base_ids(list.take(n)) is None ==> v.base_ids(list) is None,
        v.joliet_ids(list.take(n)) is None ==> v.joliet_ids(list) is None,
    decreases list.len() - n,
{
    if n < list.len() {
        assert(list.take(n + 1).drop_last() =~= list.take(n));
        ids_prefix(v, list, n + 1);
    } else {
        assert(list.take(n) =~= list);
    }
}

/// In a tree with identifiers, no two children of a directory share a base or
/// a Joliet identifier.
pub proof fn siblings_have_distinct_ids(v: TreeView, d: usize, a: usize, b: usize)
    requires
        v.wf(),
        v.assignable(),
        v.nodes.len() <= usize::MAX,
        v.reachable().contains(d),
        v.kids(d).contains(a),
        v.kids(d).contains(b),
        a != b,
    ensures
        v.with_ids().nodes[a as int].base_id != v.with_ids().nodes[b as int].base_id,
        v.with_ids().nodes[a as int].joliet_id != v.with_ids().nodes[b as int].joliet_id,
{
    reachable_facts(v);
    let list = v.kids_by_name(d);
    sort_items_facts(v.kids(d), v.name_bytes());
    ids_distinct(v, list);
    assert(v.kids_assignable(d));
    assert(list.contains(a) && list.contains(b));
    let i = list.index_of(a);
    let j = list.index_of(b);
    assert(list[i] == a && list[j] == b);
    assert(v.with_ids().nodes[a as int] == v.node_with_ids(a));
    assert(v.with_ids().nodes[b as int] == v.node_with_ids(b));
}

/// The identifiers of the children of one directory.
struct KidIds {
    list: Vec<usize>,
    base: Vec<Vec<u8>>,
    joliet: Vec<Vec<u8>>,
}

/// Byte strings as sequences.
pub open spec fn views(s: Seq<Vec<u8>>) -> Seq<Seq<u8>> {
    s.map_values(|x: Vec<u8>| x@)
}

impl KidIds {
    spec fn of(&self, v: TreeView, d: usize) -> bool {
        &&& self.list@ == v.kids_by_name(d)
        &&& v.base_ids(self.list@) == Some(views(self.base@))
        &&& v.joliet_ids(self.list@) == Some(views(self.joliet@))
        &&& self.base@.len() == self.list@.len()
        &&& self.joliet@.len() == self.list@.len()
    }
}

/// The children of directory `d` sorted by name.
fn sorted_by_name(t: &Tree, d: usize) -> (list: Vec<usize>)
    requires
        d < t.arena@.len(),
        forall|c: usize| #[trigger] t@.kids(d).contains(c) ==> c < t.arena@.len(),
    ensures
        list@ == t@.kids_by_name(d),
{
    let kids: &Vec<usize> = &t.arena[d].children;
    let n: usize = kids.len();
    let mut keys: Vec<&[u8]> = Vec::new();
    let mut i: usize = 0;
    assert(kids@ == t@.kids(d));
    while i < n
        invariant
            n == kids@.len(),
            i <= n,
            kids@ == t@.kids(d),
            forall|c: usize| #[trigger] t@.kids(d).contains(c) ==> c < t.arena@.len(),
            keys@.len() == i,
            forall|j: int| 0 <= j < i ==> t@.name_bytes()(kids@[j]) == (#[trigger] keys@[j])@,
        decreases n - i,
    {
        assert(t@.kids(d).contains(kids@[i as int]));
        keys.push(t.arena[kids[i]].name.as_str().as_bytes());
        i += 1;
    }
    sort_by_keys(kids, &keys, Ghost(t@.name_bytes()))
}

/// The identifiers of the children of `d`, in the order of their names; `None`
/// where a child finds all its candidates taken.
fn kid_ids(t: &Tree, d: usize) -> (r: Option<KidIds>)
    requires
        d < t.arena@.len(),
        forall|c: usize| #[trigger] t@.kids(d).contains(c) ==> c < t.arena@.len(),
    ensures
        r matches Some(k) ==> k.of(t@, d) && t@.kids_assignable(d),
        r is None ==> !t@.kids_assignable(d),
{
    let ghost v = t@;
    let list: Vec<usize> = sorted_by_name(t, d);
    proof {
        sort_items_facts(v.kids(d), v.name_bytes());
    }
    let n: usize = list.len();
    let mut base_used: IdSet = IdSet::new();
    let mut joliet_used: IdSet = IdSet::new();
    let mut base: Vec<Vec<u8>> = Vec::new();
    let mut joliet: Vec<Vec<u8>> = Vec::new();
    let mut i: usize = 0;
    proof {
        assert(list@.take(0) =~= Seq::<usize>::empty());
        assert(views(base@) =~= Seq::<Seq<u8>>::empty());
        assert(views(base@).to_set() =~= Set::<Seq<u8>>::empty());
    }
    while i < n
        invariant
            v == t@,
            n == list@.len(),
            i <= n,
            list@ == v.kids_by_name(d),
            forall|c: usize| list@.contains(c) <==> #[trigger] v.kids(d).contains(c),
            forall|c: usize| #[trigger] v.kids(d).contains(c) ==> c < t.arena@.len(),
            base@.len() == i,
            joliet@.len() == i,
            v.base_ids(list@.take(i as int)) == Some(views(base@)),
            v.joliet_ids(list@.take(i as int)) == Some(views(joliet@)),
            base_used@ == views(base@).to_set(),
            joliet_used@ == views(joliet@).to_set(),
        decreases n - i,
    {
        let k: usize = list[i];
        proof {
            assert(list@.contains(k));
            assert(v.kids(d).contains(k));
            assert(list@.take(i + 1).drop_last() =~= list@.take(i as int));
            assert(list@.take(i + 1).last() == k);
            ids_prefix(v, list@, i + 1);
        }
        let name: &str = t.arena[k].name.as_str();
        let base_id: Option<Vec<u8>> = if t.arena[k].is_dir {
            try_base_dir_id(name, &mut base_used)
        } else {
            try_base_file_id(name, &mut base_used)
        };
        let joliet_id: Option<Vec<u8>> = try_joliet_id(name, &mut joliet_used);
        match (base_id, joliet_id) {
            (Some(b), Some(j)) => {
                proof {
                    to_set_push(views(base@), b@);
                    to_set_push(views(joliet@), j@);
                    assert(views(base@.push(b)) =~= views(base@).push(b@));
                    assert(views(joliet@.push(j)) =~= views(joliet@).push(j@));
                }
                base.push(b);
                joliet.push(j);
            },
            _ => {
                return None;
            },
        }
        i += 1;
    }
    assert(list@.take(n as int) =~= list@);
    Some(KidIds { list, base, joliet })
}

/// A copy of a byte string.
fn copied(b: &Vec<u8>) -> (c: Vec<u8>)
    ensures
        c@ == b@,
{
    let mut c: Vec<u8> = Vec::new();
    append(&mut c, b.as_slice());
    assert(c@ =~= b@);
    c
}

/// Writes the identifiers of the children of `d` into the tree.
fn enter_ids(t: &mut Tree, ids: &KidIds, Ghost(v): Ghost<TreeView>, Ghost(d): Ghost<usize>)
    requires
        v.wf(),
        ids.of(v, d),
        v.reachable().contains(d),
        old(t).arena@.len() == v.nodes.len(),
        forall|c: usize| #[trigger] v.kids(d).contains(c) ==> old(t)@.nodes[c as int]
            == v.nodes[c as int],
    ensures
        final(t)@.root == old(t)@.root,
        final(t).extents() == old(t).extents(),
        final(t).arena@.len() == v.nodes.len(),
        forall|x: usize|
            x < v.nodes.len() ==> #[trigger] final(t)@.nodes[x as int] == if v.kids(d).contains(x) {
                v.node_with_ids(x)
            } else {
                old(t)@.nodes[x as int]
            },
{
    let n: usize = ids.list.len();
    let ghost had = t@;
    let ghost places = t.extents();
    let mut i: usize = 0;
    proof {
        reachable_facts(v);
        sort_items_facts(v.kids(d), v.name_bytes());
        sort_items_no_duplicates(v.kids(d), v.name_bytes());
        assert(forall|x: usize| !ids.list@.take(0).contains(x));
    }
    while i < n
        invariant
            n == ids.list@.len(),
            i <= n,
            v.wf(),
            ids.of(v, d),
            v.reachable().contains(d),
            ids.list@.no_duplicates(),
            forall|c: usize| ids.list@.contains(c) <==> #[trigger] v.kids(d).contains(c),
            forall|c: usize| #[trigger]
                v.kids(d).contains(c) ==> c < v.nodes.len() && v.nodes[c as int].parent == d && c
                    != v.root && v.reachable().contains(c),
            forall|c: usize| #[trigger]
                v.kids(d).contains(c) ==> had.nodes[c as int] == v.nodes[c as int],
            t@.root == had.root,
            t.extents() == places,
            t.arena@.len() == v.nodes.len(),
            forall|x: usize|
                x < v.nodes.len() ==> #[trigger] t@.nodes[x as int] == if ids.list@.take(
                    i as int,
                ).contains(x) {
                    v.node_with_ids(x)
                } else {
                    had.nodes[x as int]
                },
        decreases n - i,
    {
        let k: usize = ids.list[i];
        let ghost before = t@;
        let ghost done = ids.list@.take(i as int);
        proof {
            assert(ids.list@.contains(k));
            assert(v.kids(d).contains(k));
            assert(!done.contains(k));
            assert(before.nodes[k as int] == v.nodes[k as int]);
        }
        t.arena[k].base_id = copied(&ids.base[i]);
        t.arena[k].joliet_id = copied(&ids.joliet[i]);
        proof {
            assert(ids.list@.index_of(k) == i);
            assert(views(ids.base@)[i as int] == ids.base@[i as int]@);
            assert(views(ids.joliet@)[i as int] == ids.joliet@[i as int]@);
            assert(t@.nodes[k as int] == v.node_with_ids(k));
            assert(t.extents() =~= places);
            let longer = ids.list@.take(i + 1);
            assert forall|x: usize| x < v.nodes.len() implies #[trigger] t@.nodes[x as int]
                == if longer.contains(x) {
                v.node_with_ids(x)
            } else {
                had.nodes[x as int]
            } by {
                assert(longer[i as int] == k);
                if x != k {
                    assert(t@.nodes[x as int] == before.nodes[x as int]);
                    if done.contains(x) {
                        let m = choose|m: int| 0 <= m < done.len() && done[m] == x;
                        assert(longer[m] == x);
                    }
                    if longer.contains(x) {
                        let m = choose|m: int| 0 <= m < longer.len() && longer[m] == x;
                        assert(done[m] == x);
                    }
                }
            }
        }
        i += 1;
    }
    assert(ids.list@.take(n as int) =~= ids.list@);
}

/// The identifiers of the children of every reachable node; `None` where a
/// node finds all its candidates taken.
fn all_kid_ids(t: &Tree, order: &Vec<usize>) -> (r: Option<Vec<KidIds>>)
    requires
        t@.wf(),
        order@ == t@.reachable(),
    ensures
        r matches Some(all) ==> {
            &&& t@.assignable()
            &&& all@.len() == order@.len()
            &&& forall|i: int| 0 <= i < all@.len() ==> (#[trigger] all@[i]).of(t@, order@[i])
        },
        r is None ==> !t@.assignable(),
{
    let n: usize = order.len();
    let mut all: Vec<KidIds> = Vec::new();
    let mut i: usize = 0;
    proof {
        reachable_facts(t@);
    }
    while i < n
        invariant
            n == order@.len(),
            i <= n,
            order@ == t@.reachable(),
            forall|d: usize| #[trigger] order@.contains(d) ==> d < t.arena@.len(),
            forall|d: usize, c: usize|
                order@.contains(d) && #[trigger] t@.kids(d).contains(c) ==> order@.contains(c),
            all@.len() == i,
            forall|j: int| 0 <= j < i ==> (#[trigger] all@[j]).of(t@, order@[j]),
            forall|j: int| 0 <= j < i ==> t@.kids_assignable(#[trigger] order@[j]),
        decreases n - i,
    {
        let d: usize = order[i];
        assert(order@.contains(d));
        match kid_ids(t, d) {
            Some(ids) => {
                all.push(ids);
            },
            None => {
                return None;
            },
        }
        i += 1;
    }
    assert(t@.assignable());
    Some(all)
}

/// Gives every entry inside every directory its base and Joliet identifier.
/// Where some entry finds all its candidates taken, nothing changes and the
/// result is `false`.
pub fn try_assign_ids(t: &mut Tree) -> (done: bool)
    requires
        old(t)@.wf(),
    ensures
        done == old(t)@.assignable(),
        done ==> final(t)@ == old(t)@.with_ids() && final(t).extents() == old(t).extents(),
        !done ==> *final(t) == *old(t),
{
    let ghost v = t@;
    let ghost places = t.extents();
    let order: Vec<usize> = dfs_all(t);
    let all: Vec<KidIds> = match all_kid_ids(t, &order) {
        Some(all) => all,
        None => {
            return false;
        },
    };
    let n: usize = order.len();
    let mut i: usize = 0;
    proof {
        reachable_facts(v);
    }
    while i < n
        invariant
            n == order@.len(),
            i <= n,
            v.wf(),
            order@ == v.reachable(),
            order@.no_duplicates(),
            all@.len() == n,
            forall|j: int| 0 <= j < n ==> (#[trigger] all@[j]).of(v, order@[j]),
            forall|d: usize, c: usize|
                order@.contains(d) && #[trigger] v.kids(d).contains(c) ==> c < v.nodes.len()
                    && v.nodes[c as int].parent == d,
            t@.root == v.root,
            t.extents() == places,
            t.arena@.len() == v.nodes.len(),
            forall|x: usize|
                x < v.nodes.len() ==> #[trigger] t@.nodes[x as int] == if listed(
                    v,
                    order@.take(i as int),
                    x,
                ) {
                    v.node_with_ids(x)
                } else {
                    v.nodes[x as int]
                },
        decreases n - i,
    {
        let ghost d = order@[i as int];
        let ghost before = t@;
        let ghost shorter = order@.take(i as int);
        let ghost longer = order@.take(i + 1);
        proof {
            assert(order@.contains(d));
            assert(!shorter.contains(d));
            assert forall|c: usize| #[trigger] v.kids(d).contains(c) implies before.nodes[c as int]
                == v.nodes[c as int] by {
                assert(v.nodes[c as int].parent == d);
            }
        }
        enter_ids(t, &all[i], Ghost(v), Ghost(d));
        proof {
            assert forall|x: usize| x < v.nodes.len() implies #[trigger] t@.nodes[x as int]
                == if listed(v, longer, x) {
                v.node_with_ids(x)
            } else {
                v.nodes[x as int]
            } by {
                let up = v.nodes[x as int].parent;
                assert(longer[i as int] == d);
                if shorter.contains(up) {
                    let m = choose|m: int| 0 <= m < shorter.len() && shorter[m] == up;
                    assert(longer[m] == up);
                }
                if longer.contains(up) && up != d {
                    let m = choose|m: int| 0 <= m < longer.len() && longer[m] == up;
                    assert(shorter[m] == up);
                }
            }
        }
        i += 1;
    }
    assert(t.arena.len() <= usize::MAX);
    proof {
        assert(order@.take(n as int) =~= order@);
        assert forall|i: int| 0 <= i < v.nodes.len() implies t@.nodes[i] == v.with_ids().nodes[i] by {
            let x = i as usize;
            assert(t@.nodes[x as int] == if listed(v, order@, x) {
                v.node_with_ids(x)
            } else {
                v.nodes[x as int]
            });
            if order@.contains(x) && x != v.root {
                reachable_parent(v, x);
            } else if listed(v, order@, x) {
                reachable_facts(v);
            }
        }
        assert(t@.nodes =~= v.with_ids().nodes);
    }
    true
}

/// Whether `x` is listed as a child by its parent, which is one of `ds`.
pub open spec fn listed(v: TreeView, ds: Seq<usize>, x: usize) -> bool {
    ds.contains(v.nodes[x as int].parent) && v.kids(v.nodes[x as int].parent).contains(x)
}

/// Gives every entry inside every directory its base and Joliet identifier.
pub fn assign_ids(t: &mut Tree)
    requires
        old(t)@.wf(),
        old(t)@.assignable(),
    ensures
        final(t)@ == old(t)@.with_ids(),
        final(t).extents() == old(t).extents(),
{
    try_assign_ids(t);
}

/// Giving identifiers changes nothing but the identifiers: the tree stays
/// well-formed, with the same nodes below the root.
pub proof fn with_ids_keeps_shape(v: TreeView)
    requires
        v.wf(),
        v.nodes.len() <= usize::MAX,
    ensures
        v.with_ids().wf(),
        v.with_ids().reachable() == v.reachable(),
        forall|i: int|
            0 <= i < v.nodes.len() ==> (#[trigger] v.with_ids().nodes[i]) == (NodeView {
                base_id: v.with_ids().nodes[i].base_id,
                joliet_id: v.with_ids().nodes[i].joliet_id,
                ..v.nodes[i]
            }),
{
    let w = v.with_ids();
    assert forall|i: int| 0 <= i < v.nodes.len() implies (#[trigger] w.nodes[i]) == (NodeView {
        base_id: w.nodes[i].base_id,
        joliet_id: w.nodes[i].joliet_id,
        ..v.nodes[i]
    }) by {
        assert(w.nodes[i] == v.node_with_ids(i as usize));
    }
    same_shape(v, w);
}

/// Trees that differ in names, identifiers, sizes and times only have the same
/// shape.
pub proof fn same_shape(v: TreeView, w: TreeView)
    requires
        v.wf(),
        w.root == v.root,
        w.nodes.len() == v.nodes.len(),
        forall|i: int|
            0 <= i < v.nodes.len() ==> (#[trigger] w.nodes[i]).children == v.nodes[i].children
                && w.nodes[i].parent == v.nodes[i].parent && w.nodes[i].is_dir
                == v.nodes[i].is_dir,
    ensures
        w.wf(),
        w.reachable() == v.reachable(),
{
    let (live, depth) = choose|live: Set<usize>, depth: spec_fn(usize) -> nat|
        v.shaped(live, depth);
    assert(w.next() =~= v.next());
    assert(w.parents() =~= v.parents());
    assert forall|d: usize| #[trigger] live.contains(d) && !w.nodes[d as int].is_dir implies w.kids(
        d,
    ).len() == 0 by {
        assert(d < v.nodes.len());
    }
    assert(w.shaped(live, depth));
}

/// Identifiers are short enough that every directory record has at most 162
/// bytes: base identifiers have at most 32, Joliet identifiers at most 128.
pub proof fn ids_are_short(v: TreeView, x: usize)
    requires
        v.wf(),
        v.assignable(),
        v.nodes.len() <= usize::MAX,
        v.reachable().contains(x),
        x != v.root,
    ensures
        v.with_ids().nodes[x as int].base_id.len() <= 32,
        v.with_ids().nodes[x as int].joliet_id.len() <= 128,
{
    let d = v.nodes[x as int].parent;
    reachable_parent(v, x);
    reachable_facts(v);
    let list = v.kids_by_name(d);
    sort_items_facts(v.kids(d), v.name_bytes());
    assert(list.contains(x));
    let k = list.index_of(x);
    assert(v.kids_assignable(d));
    ids_short_in(v, list, k);
    assert(v.with_ids().nodes[x as int] == v.node_with_ids(x));
}

proof fn ids_short_in(v: TreeView, list: Seq<usize>, k: int)
    requires
        0 <= k < list.len(),
        v.base_ids(list) is Some,
        v.joliet_ids(list) is Some,
    ensures
        v.base_ids(list)->0[k].len() <= 32,
        v.joliet_ids(list)->0[k].len() <= 128,
    decreases list.len(),
{
    let init = list.drop_last();
    ids_distinct(v, init);
    if k < init.len() {
        ids_short_in(v, init, k);
    } else {
        let node = v.nodes[list.last() as int];
        base_id_len(node.name, !node.is_dir, v.base_ids(init)->0.to_set());
        joliet_name_len(node.name, v.joliet_ids(init)->0.to_set());
    }
}

/// A list that is not too long gets identifiers.
proof fn ids_are_found(v: TreeView, list: Seq<usize>)
    requires
        list.len() <= 100_000,
    ensures
        v.base_ids(list) is Some,
        v.joliet_ids(list) is Some,
    decreases list.len(),
{
    if list.len() > 0 {
        let less = list.drop_last();
        let node = v.nodes[list.last() as int];
        ids_are_found(v, less);
        ids_distinct(v, less);
        let base = v.base_ids(less)->0;
        let joliet = v.joliet_ids(less)->0;
        vstd::seq_lib::seq_to_set_is_finite(base);
        vstd::seq_lib::seq_to_set_is_finite(joliet);
        base.lemma_cardinality_of_set();
        joliet.lemma_cardinality_of_set();
        base_id_is_found(node.name, !node.is_dir, base.to_set());
        joliet_name_is_found(node.name, joliet.to_set());
    }
}

/// A tree whose directories have at most 100000 entries each gets identifiers.
pub proof fn small_directories_get_ids(v: TreeView)
    requires
        forall|d: usize| #[trigger] v.reachable().contains(d) ==> v.kids(d).len() <= 100_000,
    ensures
        v.assignable(),
{
    assert forall|d: usize| #[trigger] v.reachable().contains(d) implies v.kids_assignable(d) by {
        sort_items_facts(v.kids(d), v.name_bytes());
        ids_are_found(v, v.kids_by_name(d));
    }
}

/// Whether two trees differ in the order of their child lists only.
pub open spec fn reordered(v: TreeView, w: TreeView) -> bool {
    &&& w.root == v.root
    &&& w.nodes.len() == v.nodes.len()
    &&& forall|i: int|
        0 <= i < v.nodes.len() ==> {
            &&& (#[trigger] w.nodes[i]) == (NodeView {
                children: w.nodes[i].children,
                ..v.nodes[i]
            })
            &&& w.nodes[i].children.to_multiset() == v.nodes[i].children.to_multiset()
        }
}

/// Whether no two entries of a directory have the same name.
pub open spec fn names_distinct(v: TreeView) -> bool {
    forall|d: usize, a: usize, b: usize|
        v.reachable().contains(d) && #[trigger] v.kids(d).contains(a) && #[trigger] v.kids(
            d,
        ).contains(b) && a != b ==> v.nodes[a as int].name != v.nodes[b as int].name
}

proof fn same_kids(v: TreeView, w: TreeView, d: usize)
    requires
        reordered(v, w),
        v.nodes.len() <= usize::MAX,
    ensures
        forall|c: usize| #[trigger] w.kids(d).contains(c) <==> v.kids(d).contains(c),
        v.kids(d).no_duplicates() ==> w.kids(d).no_duplicates(),
        w.kids(d).len() == v.kids(d).len(),
{
    broadcast use vstd::seq_lib::group_to_multiset_ensures;

    if d < v.nodes.len() {
        let a = v.kids(d);
        let b = w.kids(d);
        assert(w.nodes[d as int].children.to_multiset() == v.nodes[d as int].children.to_multiset());
        assert forall|c: usize| #[trigger] b.contains(c) <==> a.contains(c) by {
            assert(b.contains(c) <==> b.to_multiset().count(c) > 0);
            assert(a.contains(c) <==> a.to_multiset().count(c) > 0);
        }
        assert(a.len() == a.to_multiset().len());
        assert(b.len() == b.to_multiset().len());
        if a.no_duplicates() {
            a.lemma_multiset_has_no_duplicates();
            b.lemma_multiset_has_no_duplicates_conv();
        }
    }
}

proof fn reordered_shape(
    v: TreeView,
    w: TreeView,
    live: Set<usize>,
    depth: spec_fn(usize) -> nat,
)
    requires
        reordered(v, w),
        v.shaped(live, depth),
        v.nodes.len() <= usize::MAX,
    ensures
        w.shaped(live, depth),
{
    assert(w.parents() =~= v.parents()) by {
        assert forall|d: usize| #[trigger] w.parents()(d) == v.parents()(d) by {
            if d < v.nodes.len() {
                assert(w.nodes[d as int].parent == v.nodes[d as int].parent);
            }
        }
    }
    assert forall|d: usize| #[trigger] live.contains(d) implies depth(d) < w.nodes.len()
        && w.next()(d).no_duplicates() by {
        same_kids(v, w, d);
        assert(v.next()(d).no_duplicates());
    }
    assert forall|d: usize, c: usize|
        live.contains(d) && #[trigger] w.next()(d).contains(c) implies live.contains(c) && depth(c)
        == depth(d) + 1 && w.parents()(c) == d by {
        same_kids(v, w, d);
        assert(w.kids(d).contains(c));
        assert(v.next()(d).contains(c));
    }
    assert forall|d: usize| #[trigger] live.contains(d) && !w.nodes[d as int].is_dir implies w.kids(
        d,
    ).len() == 0 by {
        same_kids(v, w, d);
    }
}

/// What is reachable stays so.
proof fn reordered_reaches(v: TreeView, w: TreeView, x: usize)
    requires
        reordered(v, w),
        v.wf(),
        w.wf(),
        v.nodes.len() <= usize::MAX,
        v.reachable().contains(x),
    ensures
        w.reachable().contains(x),
{
    let s = Set::new(|d: usize| w.reachable().contains(d));
    reachable_facts(w);
    assert forall|d: usize, c: usize|
        s.contains(d) && v.reachable().contains(d) && #[trigger] v.kids(d).contains(
            c,
        ) implies s.contains(c) by {
        same_kids(v, w, d);
        assert(w.kids(d).contains(c));
    }
    reachable_induction(v, s, x);
}

/// Identifiers depend on names and kinds only.
proof fn same_ids(v: TreeView, w: TreeView, list: Seq<usize>)
    requires
        reordered(v, w),
        forall|i: int| 0 <= i < list.len() ==> (#[trigger] list[i]) < v.nodes.len(),
    ensures
        w.base_ids(list) == v.base_ids(list),
        w.joliet_ids(list) == v.joliet_ids(list),
    decreases list.len(),
{
    if list.len() > 0 {
        let less = list.drop_last();
        assert(forall|i: int| 0 <= i < less.len() ==> less[i] == list[i]);
        same_ids(v, w, less);
        assert(list[list.len() - 1] < v.nodes.len());
        assert(w.nodes[list.last() as int].name == v.nodes[list.last() as int].name);
    }
}

/// The entries of a directory come in the same order of names.
proof fn reordered_sorts(v: TreeView, w: TreeView, d: usize)
    requires
        reordered(v, w),
        v.wf(),
        w.wf(),
        v.nodes.len() <= usize::MAX,
        names_distinct(v),
        v.reachable().contains(d),
    ensures
        w.kids_by_name(d) == v.kids_by_name(d),
        forall|i: int|
            0 <= i < v.kids_by_name(d).len() ==> (#[trigger] v.kids_by_name(d)[i])
                < v.nodes.len(),
{
    let a = v.kids_by_name(d);
    let b = w.kids_by_name(d);
    let key = v.name_bytes();
    reachable_facts(v);
    same_kids(v, w, d);
    sort_items_facts(v.kids(d), key);
    sort_items_facts(w.kids(d), w.name_bytes());
    sort_items_no_duplicates(v.kids(d), key);
    sort_items_no_duplicates(w.kids(d), w.name_bytes());
    assert forall|i: int| 0 <= i < a.len() implies (#[trigger] a[i]) < v.nodes.len() by {
        assert(a.contains(a[i]));
        assert(v.kids(d).contains(a[i]));
    }
    assert forall|i: int, j: int| 0 <= i <= j < b.len() implies lex_le(key(b[i]), key(b[j])) by {
        assert(b.contains(b[i]) && b.contains(b[j]));
        assert(w.kids(d).contains(b[i]) && w.kids(d).contains(b[j]));
        assert(w.nodes[b[i] as int].name == v.nodes[b[i] as int].name);
        assert(w.nodes[b[j] as int].name == v.nodes[b[j] as int].name);
        assert(lex_le(w.name_bytes()(b[i]), w.name_bytes()(b[j])));
    }
    assert forall|x: usize, y: usize|
        a.contains(x) && a.contains(y) && key(x) == key(y) implies x == y by {
        encode_utf8_decode_utf8(v.nodes[x as int].name);
        encode_utf8_decode_utf8(v.nodes[y as int].name);
        assert(v.kids(d).contains(x) && v.kids(d).contains(y));
    }
    assert forall|x: usize| a.contains(x) <==> b.contains(x) by {
        assert(w.kids(d).contains(x) <==> v.kids(d).contains(x));
    }
    ascending_is_unique(a, b, key);
}

/// The order in which a directory lists its entries makes no difference to the
/// identifiers, where their names are distinct.
pub proof fn ids_ignore_listing_order(v: TreeView, w: TreeView, x: usize)
    requires
        reordered(v, w),
        v.wf(),
        v.nodes.len() <= usize::MAX,
        names_distinct(v),
        x < v.nodes.len(),
    ensures
        w.wf(),
        w.assignable() == v.assignable(),
        w.with_ids().nodes[x as int].base_id == v.with_ids().nodes[x as int].base_id,
        w.with_ids().nodes[x as int].joliet_id == v.with_ids().nodes[x as int].joliet_id,
{
    let (live, depth) = choose|live: Set<usize>, depth: spec_fn(usize) -> nat|
        v.shaped(live, depth);
    reordered_shape(v, w, live, depth);
    assert(w.wf());
    assert(reordered(w, v)) by {
        assert forall|i: int| 0 <= i < v.nodes.len() implies (#[trigger] v.nodes[i]) == (NodeView {
            children: v.nodes[i].children,
            ..w.nodes[i]
        }) && v.nodes[i].children.to_multiset() == w.nodes[i].children.to_multiset() by {
            assert(w.nodes[i] == (NodeView { children: w.nodes[i].children, ..v.nodes[i] }));
        }
    }
    assert forall|d: usize| #[trigger] w.reachable().contains(d) <==> v.reachable().contains(d) by {
        if v.reachable().contains(d) {
            reordered_reaches(v, w, d);
        }
        if w.reachable().contains(d) {
            reordered_reaches(w, v, d);
        }
    }
    assert forall|d: usize| #[trigger] v.reachable().contains(d) implies w.kids_assignable(d)
        == v.kids_assignable(d) && w.reachable().contains(d) by {
        reordered_sorts(v, w, d);
        same_ids(v, w, v.kids_by_name(d));
    }
    assert(w.assignable() == v.assignable()) by {
        if v.assignable() {
            assert forall|d: usize| #[trigger] w.reachable().contains(d) implies w.kids_assignable(
                d,
            ) by {
                assert(v.reachable().contains(d));
            }
        }
        if w.assignable() {
            assert forall|d: usize| #[trigger] v.reachable().contains(d) implies v.kids_assignable(
                d,
            ) by {
                assert(w.reachable().contains(d));
            }
        }
    }
    assert(v.with_ids().nodes[x as int] == v.node_with_ids(x));
    assert(w.with_ids().nodes[x as int] == w.node_with_ids(x));
    assert(w.nodes[x as int] == (NodeView {
        children: w.nodes[x as int].children,
        ..v.nodes[x as int]
    }));
    if v.reachable().contains(x) && x != v.root {
        reachable_parent(v, x);
        let d = v.nodes[x as int].parent;
        reordered_sorts(v, w, d);
        same_ids(v, w, v.kids_by_name(d));
    }
}

// ---------------------------------------------------------------------------
// paths
// ---------------------------------------------------------------------------

impl TreeView {
    /// Whether the chain of parents from node `n` ends here: at the root, or at
    /// a node without parent.
    pub open spec fn chain_ends(self, n: usize) -> bool {
        n == self.root || self.nodes[n as int].parent == usize::MAX
    }

    /// Whether the chain of parents from node `n` ends within `fuel` steps.
    pub open spec fn chained(self, n: usize, fuel: nat) -> bool
        decreases fuel,
    {
        &&& n < self.nodes.len()
        &&& self.chain_ends(n) || (fuel > 0 && self.chained(
            self.nodes[n as int].parent,
            (fuel - 1) as nat,
        ))
    }

    /// Whether node `n` stands at the top of a path: in the root, or in no
    /// directory.
    pub open spec fn at_top(self, n: usize) -> bool {
        self.nodes[n as int].parent == self.root || self.nodes[n as int].parent == usize::MAX
    }

    /// The lowercase names below the root down to node `n`, joined with '/';
    /// nothing for the root itself.
    pub open spec fn chain_path(self, n: usize, fuel: nat) -> Seq<char>
        decreases fuel,
    {
        let name = lowercase(self.nodes[n as int].name);
        if n == self.root {
            Seq::empty()
        } else if self.at_top(n) || fuel == 0 {
            name
        } else {
            self.chain_path(self.nodes[n as int].parent, (fuel - 1) as nat) + seq!['/'] + name
        }
    }
}

/// From every reachable node the chain of parents ends, at the root.
pub proof fn reachable_is_chained(v: TreeView, x: usize)
    requires
        v.wf(),
        v.reachable().contains(x),
    ensures
        v.chained(x, v.nodes.len()),
{
    let (live, depth) = choose|live: Set<usize>, depth: spec_fn(usize) -> nat|
        v.shaped(live, depth);
    chained_by_depth(v, live, depth, x);
    chained_longer(v, x, depth(x), v.nodes.len());
}

proof fn chained_by_depth(
    v: TreeView,
    live: Set<usize>,
    depth: spec_fn(usize) -> nat,
    x: usize,
)
    requires
        v.shaped(live, depth),
        v.reachable().contains(x),
    ensures
        v.chained(x, depth(x)),
        depth(x) < v.nodes.len(),
    decreases depth(x),
{
    let ds = seq![v.root];
    assert(all_live(live, ds));
    assert(at_depth(depth, ds, 0));
    preorder_members(
        v.next(),
        v.parents(),
        live,
        depth,
        v.nodes.len(),
        ds,
        v.nodes.len(),
        0,
        x,
    );
    if x != v.root {
        reachable_parent(v, x);
        let p = v.nodes[x as int].parent;
        preorder_members(
            v.next(),
            v.parents(),
            live,
            depth,
            v.nodes.len(),
            ds,
            v.nodes.len(),
            0,
            p,
        );
        assert(v.next()(p).contains(x));
        assert(depth(x) == depth(p) + 1);
        chained_by_depth(v, live, depth, p);
    }
}

proof fn chained_longer(v: TreeView, x: usize, f: nat, g: nat)
    requires
        v.chained(x, f),
        f <= g,
    ensures
        v.chained(x, g),
    decreases f,
{
    if !v.chain_ends(x) {
        chained_longer(v, v.nodes[x as int].parent, (f - 1) as nat, (g - 1) as nat);
    }
}

/// The path of a node relative to the root of the volume, in lower case: the
/// names below the root down to the node, joined with '/'. The root has an
/// empty path.
pub fn iso_path_of(t: &Tree, node: usize) -> (path: String)
    requires
        t@.chained(node, t@.nodes.len()),
    ensures
        path@ == t@.chain_path(node, t@.nodes.len()),
{
    let ghost v = t@;
    let ghost all = v.chain_path(node, v.nodes.len());
    if node == t.root {
        let path: String = String::new();
        assert(path@ =~= all);
        return path;
    }
    let ghost mut fuel: nat = v.nodes.len();
    let mut n: usize = node;
    let mut path: String = to_lowercase(t.arena[n].name.as_str());
    assert(v.nodes[n as int] == t.arena@[n as int]@);
    while t.arena[n].parent != t.root && t.arena[n].parent != usize::MAX
        invariant
            v == t@,
            n != t.root,
            v.chained(n, fuel),
            v.at_top(n) ==> all == path@,
            !v.at_top(n) ==> fuel > 0 && all == v.chain_path(
                v.nodes[n as int].parent,
                (fuel - 1) as nat,
            ) + seq!['/'] + path@,
        ensures
            all == path@,
        decreases fuel,
    {
        let ghost below = path@;
        assert(v.nodes[n as int] == t.arena@[n as int]@);
        assert(!v.chain_ends(n));
        assert(v.chained(v.nodes[n as int].parent, (fuel - 1) as nat));
        n = t.arena[n].parent;
        proof {
            fuel = (fuel - 1) as nat;
        }
        let mut longer: String = to_lowercase(t.arena[n].name.as_str());
        let ghost name = longer@;
        longer.push('/');
        longer.append(path.as_str());
        path = longer;
        proof {
            assert(path@ =~= name + seq!['/'] + below);
            if !v.at_top(n) {
                let up = v.chain_path(v.nodes[n as int].parent, (fuel - 1) as nat);
                assert(up + seq!['/'] + name + seq!['/'] + below =~= up + seq!['/'] + path@);
            }
        }
    }
    assert(v.nodes[n as int] == t.arena@[n as int]@);
    path
}

// ---------------------------------------------------------------------------
// what identifiers and paths are made of
// ---------------------------------------------------------------------------

/// The children of a directory get their identifiers in ascending order of
/// their names: each gets that of its name where those of the children before
/// it are taken, and no others.
pub proof fn children_are_named_in_turn(v: TreeView, d: usize, k: int)
    requires
        v.wf(),
        v.assignable(),
        v.nodes.len() <= usize::MAX,
        v.reachable().contains(d),
        0 <= k < v.kids_by_name(d).len(),
    ensures
        ({
            let list = v.kids_by_name(d);
            let x = v.nodes[list[k] as int];
            let w = v.with_ids();
            &&& base_id(
                x.name,
                !x.is_dir,
                Set::new(
                    |s: Seq<u8>| exists|j: int| 0 <= j < k && w.nodes[list[j] as int].base_id == s,
                ),
            ) == Some(w.nodes[list[k] as int].base_id)
            &&& joliet_name(
                x.name,
                Set::new(
                    |s: Seq<u8>|
                        exists|j: int| 0 <= j < k && w.nodes[list[j] as int].joliet_id == s,
                ),
            ) == Some(w.nodes[list[k] as int].joliet_id)
            &&& list.to_multiset() == v.kids(d).to_multiset()
            &&& forall|i: int, j: int|
                #![trigger list[i], list[j]]
                0 <= i <= j < list.len() ==> lex_le(
                    encode_utf8(v.nodes[list[i] as int].name),
                    encode_utf8(v.nodes[list[j] as int].name),
                )
        }),
{
    let list = v.kids_by_name(d);
    let w = v.with_ids();
    reachable_facts(v);
    assert forall|i: int, j: int|
        #![trigger list[i], list[j]]
        0 <= i <= j < list.len() implies lex_le(
        encode_utf8(v.nodes[list[i] as int].name),
        encode_utf8(v.nodes[list[j] as int].name),
    ) by {
        sort_items_facts(v.kids(d), v.name_bytes());
        assert(lex_le(v.name_bytes()(list[i]), v.name_bytes()(list[j])));
    }
    sort_items_facts(v.kids(d), v.name_bytes());
    sort_items_no_duplicates(v.kids(d), v.name_bytes());
    assert(v.kids_assignable(d));
    ids_in_turn(v, list, k);
    let base = v.base_ids(list)->0;
    let joliet = v.joliet_ids(list)->0;
    assert forall|j: int| 0 <= j < list.len() implies w.nodes[#[trigger] list[j] as int].base_id
        == base[j] && w.nodes[list[j] as int].joliet_id == joliet[j] by {
        assert(list.contains(list[j]));
        assert(v.kids(d).contains(list[j]));
        assert(list.index_of(list[j]) == j);
        assert(w.nodes[list[j] as int] == v.node_with_ids(list[j]));
    }
    let taken = base.take(k).to_set();
    assert(taken =~= Set::new(
        |s: Seq<u8>| exists|j: int| 0 <= j < k && w.nodes[list[j] as int].base_id == s,
    )) by {
        assert forall|s: Seq<u8>| taken.contains(s) <==> exists|j: int|
            0 <= j < k && w.nodes[list[j] as int].base_id == s by {
            if taken.contains(s) {
                let j = choose|j: int| 0 <= j < base.take(k).len() && base.take(k)[j] == s;
                assert(w.nodes[list[j] as int].base_id == s);
            }
            if exists|j: int| 0 <= j < k && w.nodes[list[j] as int].base_id == s {
                let j = choose|j: int| 0 <= j < k && w.nodes[list[j] as int].base_id == s;
                assert(base.take(k)[j] == s);
            }
        }
    }
    let jol_taken = joliet.take(k).to_set();
    assert(jol_taken =~= Set::new(
        |s: Seq<u8>| exists|j: int| 0 <= j < k && w.nodes[list[j] as int].joliet_id == s,
    )) by {
        assert forall|s: Seq<u8>| jol_taken.contains(s) <==> exists|j: int|
            0 <= j < k && w.nodes[list[j] as int].joliet_id == s by {
            if jol_taken.contains(s) {
                let j = choose|j: int| 0 <= j < joliet.take(k).len() && joliet.take(k)[j] == s;
                assert(w.nodes[list[j] as int].joliet_id == s);
            }
            if exists|j: int| 0 <= j < k && w.nodes[list[j] as int].joliet_id == s {
                let j = choose|j: int| 0 <= j < k && w.nodes[list[j] as int].joliet_id == s;
                assert(joliet.take(k)[j] == s);
            }
        }
    }
}

proof fn ids_in_turn(v: TreeView, list: Seq<usize>, k: int)
    requires
        v.base_ids(list) is Some,
        v.joliet_ids(list) is Some,
        0 <= k < list.len(),
    ensures
        ({
            let x = v.nodes[list[k] as int];
            let base = v.base_ids(list)->0;
            let joliet = v.joliet_ids(list)->0;
            &&& base.len() == list.len()
            &&& joliet.len() == list.len()
            &&& base_id(x.name, !x.is_dir, base.take(k).to_set()) == Some(base[k])
            &&& joliet_name(x.name, joliet.take(k).to_set()) == Some(joliet[k])
        }),
    decreases list.len(),
{
    let less = list.drop_last();
    ids_distinct(v, list);
    ids_distinct(v, less);
    let base = v.base_ids(list)->0;
    let joliet = v.joliet_ids(list)->0;
    let some = v.base_ids(less)->0;
    let jol_some = v.joliet_ids(less)->0;
    if k < less.len() {
        ids_in_turn(v, less, k);
        assert(base.take(k) =~= some.take(k));
        assert(joliet.take(k) =~= jol_some.take(k));
    } else {
        assert(base.take(k) =~= some);
        assert(joliet.take(k) =~= jol_some);
    }
}

/// The path of an entry is that of its directory, '/' and its name in lower
/// case; an entry of the root has its name alone, and the root nothing.
pub proof fn paths_are_joined(v: TreeView, x: usize)
    requires
        v.wf(),
        v.nodes.len() <= usize::MAX,
        v.reachable().contains(x),
    ensures
        ({
            let n = v.nodes.len();
            let p = v.nodes[x as int].parent;
            let name = lowercase(v.nodes[x as int].name);
            v.chain_path(x, n) == if x == v.root {
                Seq::empty()
            } else if p == v.root {
                name
            } else {
                v.chain_path(p, n) + seq!['/'] + name
            }
        }),
{
    let n = v.nodes.len();
    reachable_is_chained(v, x);
    if x != v.root {
        let p = v.nodes[x as int].parent;
        reachable_parent(v, x);
        reachable_facts(v);
        if p != v.root {
            assert(v.reachable().contains(p));
            reachable_is_chained(v, p);
            assert(p < n);
            path_needs_no_more(v, p, (n - 1) as nat, n);
        }
    }
}

/// Where more than as many steps as there are parents can be taken, the path of
/// a node does not change.
proof fn path_needs_no_more(v: TreeView, x: usize, f: nat, g: nat)
    requires
        v.chained(x, f),
        f <= g,
    ensures
        v.chain_path(x, f) == v.chain_path(x, g),
    decreases f,
{
    if x != v.root && !v.at_top(x) {
        path_needs_no_more(v, v.nodes[x as int].parent, (f - 1) as nat, (g - 1) as nat);
    }
}

} // verus!
