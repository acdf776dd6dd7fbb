//! Gathering the payload from the file system into a [`Tree`].
//!
//!  * A file input becomes a file at the root.
//!  * A directory input becomes a directory at the root or, with `flat`, its
//!    contents are merged into the root.
//!  * Two entries of the root with the same name are an error.
//!
//! The file system is read by the caller: a [`Gatherer`] says what it needs to
//! know next and takes the answer.
use vstd::prelude::*;
use std::path::PathBuf;
use crate::collect::{
    entry_views, reversed, sort_entries, sorted_entries, Entry, EntryView, Step, NESTING_MAX,
};
use crate::order::{bytes_eq, sort_by_keys, sort_items, sort_items_facts, sort_items_no_duplicates};
use crate::text::{debug_text, quoted, str_eq};
use crate::tree::{Extent, Node, NodeView, Tree, TreeView};

verus! {

/// The largest file of a volume.
pub const FILE_MAX: u64 = 0xffff_ffff;

/// What an entry of the file system is.
#[derive(Clone, Copy, PartialEq, Eq, Debug, Structural)]
pub enum Kind {
    Dir,
    /// A regular file and its size.
    File(u64),
    Other,
}

/// Why the payload could not be gathered. Paths stand here as messages show
/// them.
#[derive(Debug)]
pub enum GatherError {
    MissingInput { input: String },
    TooDeep { path: String },
    Loop { dir: String },
    TooLarge { file: String },
    Unsupported { path: String },
    DuplicateRoot { name: String },
    NoPayload,
}

/// A [`GatherError`] as a value.
pub enum Trouble {
    MissingInput { input: Seq<char> },
    TooDeep { path: Seq<char> },
    Loop { dir: Seq<char> },
    TooLarge { file: Seq<char> },
    Unsupported { path: Seq<char> },
    DuplicateRoot { name: Seq<char> },
    NoPayload,
}

impl View for GatherError {
    type V = Trouble;

    open spec fn view(&self) -> Trouble {
        match self {
            GatherError::MissingInput { input } => Trouble::MissingInput { input: input@ },
            GatherError::TooDeep { path } => Trouble::TooDeep { path: path@ },
            GatherError::Loop { dir } => Trouble::Loop { dir: dir@ },
            GatherError::TooLarge { file } => Trouble::TooLarge { file: file@ },
            GatherError::Unsupported { path } => Trouble::Unsupported { path: path@ },
            GatherError::DuplicateRoot { name } => Trouble::DuplicateRoot { name: name@ },
            GatherError::NoPayload => Trouble::NoPayload,
        }
    }
}

/// The text of a trouble.
pub open spec fn trouble_text(x: Trouble) -> Seq<char> {
    match x {
        Trouble::MissingInput { input } => "input does not exist: "@ + input,
        Trouble::TooDeep { path } => "directory nesting too deep at "@ + path,
        Trouble::Loop { dir } => "directory loop detected at "@ + dir,
        Trouble::TooLarge { file } => "file too large for ISO9660 (max 4 GiB): "@ + file,
        Trouble::Unsupported { path } =>
            "unsupported file type (not a regular file or directory): "@ + path,
        Trouble::DuplicateRoot { name } => "duplicate root entry name "@ + quoted(name)
            + " (two inputs map to the same ISO path)"@,
        Trouble::NoPayload => "no payload given"@,
    }
}

impl GatherError {
    /// The message for a user.
    pub fn message(&self) -> (m: String)
        ensures
            m@ == trouble_text(self@),
    {
        match self {
            GatherError::MissingInput { input } => {
                let mut m: String = "input does not exist: ".to_string();
                m.append(input.as_str());
                m
            },
            GatherError::TooDeep { path } => {
                let mut m: String = "directory nesting too deep at ".to_string();
                m.append(path.as_str());
                m
            },
            GatherError::Loop { dir } => {
                let mut m: String = "directory loop detected at ".to_string();
                m.append(dir.as_str());
                m
            },
            GatherError::TooLarge { file } => {
                let mut m: String = "file too large for ISO9660 (max 4 GiB): ".to_string();
                m.append(file.as_str());
                m
            },
            GatherError::Unsupported { path } => {
                let mut m: String =
                    "unsupported file type (not a regular file or directory): ".to_string();
                m.append(path.as_str());
                m
            },
            GatherError::DuplicateRoot { name } => {
                let mut m: String = "duplicate root entry name ".to_string();
                m.append(debug_text(name.as_str()).as_str());
                m.append(" (two inputs map to the same ISO path)");
                m
            },
            GatherError::NoPayload => "no payload given".to_string(),
        }
    }
}

// ---------------------------------------------------------------------------
// the state
// ---------------------------------------------------------------------------

/// A directory whose entries are being gathered: its node, what it resolves
/// to, the entries that are left, and the nodes of those gathered.
#[verifier::ext_equal]
pub struct OpenDir {
    pub node: usize,
    pub canonical: Seq<u8>,
    pub rest: Seq<EntryView>,
    pub kids: Seq<usize>,
}

/// The state of a [`Gatherer`]: the nodes, those at the root, the directories
/// from the input down to the current one, and the entry that something has to
/// be known of: what it is (`current`), what it resolves to (`found`), what it
/// lists (`opened`). `dropped` holds the directories whose contents were merged
/// into the root.
#[verifier::ext_equal]
pub struct GatherView {
    pub flat: bool,
    pub nodes: Seq<NodeView>,
    pub roots: Seq<usize>,
    pub stack: Seq<OpenDir>,
    pub current: Option<EntryView>,
    pub found: Option<(EntryView, u64)>,
    pub opened: Option<(usize, Seq<u8>, PathBuf)>,
    pub dropped: Set<usize>,
}

/// The node of a file.
pub open spec fn file_node(e: EntryView, size: u64, mtime: u64, parent: usize) -> NodeView {
    NodeView {
        name: e.name,
        is_dir: false,
        src: Some(e.path),
        size,
        mtime,
        parent,
        children: Seq::empty(),
        base_id: Seq::empty(),
        joliet_id: Seq::empty(),
    }
}

/// The node of a directory.
pub open spec fn dir_node(name: Seq<char>, mtime: u64, parent: usize) -> NodeView {
    NodeView {
        name,
        is_dir: true,
        src: None,
        size: 0,
        mtime,
        parent,
        children: Seq::empty(),
        base_id: Seq::empty(),
        joliet_id: Seq::empty(),
    }
}

impl GatherView {
    /// The state before the first input: a root and nothing else.
    pub open spec fn start(flat: bool) -> GatherView {
        GatherView {
            flat,
            nodes: seq![dir_node("ROOT"@, 0, 0)],
            roots: Seq::empty(),
            stack: Seq::empty(),
            current: None,
            found: None,
            opened: None,
            dropped: Set::empty(),
        }
    }

    /// What has to be known next.
    pub open spec fn step(self) -> Step {
        if self.current is Some {
            Step::Stat
        } else if self.found is Some {
            Step::Resolve
        } else if self.opened is Some {
            Step::List
        } else {
            Step::Input
        }
    }

    /// The node of the directory that the current entry lies in.
    pub open spec fn here(self) -> usize {
        if self.stack.len() == 0 {
            0
        } else {
            self.stack.last().node
        }
    }

    /// Puts node `k` at the root, unless the root has an entry of that name.
    pub open spec fn add_root(self, k: usize) -> Result<GatherView, Trouble> {
        let name = self.nodes[k as int].name;
        if exists|i: int|
            0 <= i < self.roots.len() && (#[trigger] self.nodes[self.roots[i] as int]).name
                == name {
            Err(Trouble::DuplicateRoot { name })
        } else {
            Ok(
                GatherView {
                    nodes: self.nodes.update(
                        k as int,
                        NodeView { parent: 0, ..self.nodes[k as int] },
                    ),
                    roots: self.roots.push(k),
                    ..self
                },
            )
        }
    }

    /// Puts nodes at the root one after the other.
    pub open spec fn add_roots(self, kids: Seq<usize>) -> Result<GatherView, Trouble>
        decreases kids.len(),
    {
        if kids.len() == 0 {
            Ok(self)
        } else {
            match self.add_roots(kids.drop_last()) {
                Err(x) => Err(x),
                Ok(w) => w.add_root(kids.last()),
            }
        }
    }

    /// Puts the node of an input in its place: with `flat` the children of a
    /// directory go to the root, anything else goes there itself.
    pub open spec fn place(self, d: usize) -> Result<GatherView, Trouble> {
        if self.flat && self.nodes[d as int].is_dir {
            GatherView { dropped: self.dropped.insert(d), ..self }.add_roots(
                self.nodes[d as int].children,
            )
        } else {
            self.add_roots(seq![d])
        }
    }

    /// Goes on to the next entry. A directory without entries left gets its
    /// children and becomes a child itself; the node of an input is put in its
    /// place.
    pub open spec fn advance(self) -> Result<GatherView, Trouble>
        decreases self.stack.len(),
    {
        if self.stack.len() == 0 {
            Ok(self)
        } else {
            let top = self.stack.last();
            let below = self.stack.drop_last();
            if top.rest.len() > 0 {
                if self.stack.len() > NESTING_MAX {
                    Err(Trouble::TooDeep { path: top.rest[0].shown })
                } else {
                    Ok(
                        GatherView {
                            stack: below.push(OpenDir { rest: top.rest.drop_first(), ..top }),
                            current: Some(top.rest[0]),
                            ..self
                        },
                    )
                }
            } else {
                let nodes = self.nodes.update(
                    top.node as int,
                    NodeView { children: top.kids, ..self.nodes[top.node as int] },
                );
                if below.len() == 0 {
                    GatherView { nodes, stack: below, ..self }.place(top.node)
                } else {
                    let up = below.last();
                    let stack = below.drop_last().push(
                        OpenDir { kids: up.kids.push(top.node), ..up },
                    );
                    GatherView { nodes, stack, ..self }.advance()
                }
            }
        }
    }

    /// A finished node: a child of the current directory, or an input.
    pub open spec fn done(self, n: usize) -> Result<GatherView, Trouble> {
        if self.stack.len() == 0 {
            self.place(n)
        } else {
            let top = self.stack.last();
            let stack = self.stack.drop_last().push(OpenDir { kids: top.kids.push(n), ..top });
            GatherView { stack, ..self }.advance()
        }
    }

    /// Takes the next input.
    pub open spec fn input(self, e: EntryView, exists_there: bool) -> Result<GatherView, Trouble> {
        if !exists_there {
            Err(Trouble::MissingInput { input: e.shown })
        } else {
            Ok(GatherView { current: Some(e), ..self })
        }
    }

    /// Takes what the current entry is.
    pub open spec fn stated(self, kind: Kind, mtime: u64) -> Result<GatherView, Trouble> {
        let e = self.current->0;
        let w = GatherView { current: None, ..self };
        match kind {
            Kind::Dir => Ok(GatherView { found: Some((e, mtime)), ..w }),
            Kind::File(size) => if size > FILE_MAX {
                Err(Trouble::TooLarge { file: e.shown })
            } else {
                GatherView {
                    nodes: w.nodes.push(file_node(e, size, mtime, w.here())),
                    ..w
                }.done(w.nodes.len() as usize)
            },
            Kind::Other => Err(Trouble::Unsupported { path: e.shown }),
        }
    }

    /// Takes what the directory found resolves to. A directory that is open
    /// already closes a loop.
    pub open spec fn resolved(self, canonical: Seq<u8>) -> Result<GatherView, Trouble> {
        let (e, mtime) = self.found->0;
        if exists|i: int|
            0 <= i < self.stack.len() && (#[trigger] self.stack[i]).canonical == canonical {
            Err(Trouble::Loop { dir: e.shown })
        } else {
            Ok(
                GatherView {
                    nodes: self.nodes.push(dir_node(e.name, mtime, self.here())),
                    found: None,
                    opened: Some((self.nodes.len() as usize, canonical, e.path)),
                    ..self
                },
            )
        }
    }

    /// Takes the entries of the opened directory.
    pub open spec fn listed(self, entries: Seq<EntryView>) -> Result<GatherView, Trouble> {
        let (node, canonical, _) = self.opened->0;
        GatherView {
            stack: self.stack.push(
                OpenDir { node, canonical, rest: sort_entries(entries), kids: Seq::empty() },
            ),
            opened: None,
            ..self
        }.advance()
    }

    /// The tree: the root lists its entries by name.
    pub open spec fn finished(self) -> TreeView {
        let all = TreeView { nodes: self.nodes, root: 0 };
        TreeView {
            nodes: self.nodes.update(
                0,
                NodeView {
                    children: sort_items(self.roots, all.name_bytes()),
                    ..self.nodes[0]
                },
            ),
            root: 0,
        }
    }
}

// ---------------------------------------------------------------------------
// the invariant
// ---------------------------------------------------------------------------

/// Every item is greater than those before it.
pub open spec fn increasing(s: Seq<usize>) -> bool {
    forall|i: int, j: int| 0 <= i < j < s.len() ==> #[trigger] s[i] < #[trigger] s[j]
}

impl GatherView {
    /// The nodes of `list` lie in directory `p`, in ascending order, below
    /// `bound`.
    pub open spec fn kids_ok(self, list: Seq<usize>, p: usize, bound: int) -> bool {
        &&& increasing(list)
        &&& forall|i: int|
            0 <= i < list.len() ==> {
                let c = #[trigger] list[i];
                &&& 0 < c < bound
                &&& c < self.nodes.len()
                &&& self.nodes[c as int].parent == p
                &&& !self.dropped.contains(c)
            }
    }

    /// Node `i` comes after its parent; only directories list children, and
    /// what they list lies in them, unless they were merged into the root.
    pub open spec fn node_ok(self, i: int) -> bool {
        let node = self.nodes[i];
        &&& i > 0 ==> node.parent < i
        &&& !node.is_dir ==> node.children.len() == 0
        &&& !self.dropped.contains(i as usize) ==> self.kids_ok(
            node.children,
            i as usize,
            self.nodes.len() as int,
        )
    }

    /// The first node behind those listed by open directory `i`.
    pub open spec fn bound(self, i: int) -> int {
        if i + 1 < self.stack.len() {
            self.stack[i + 1].node as int
        } else {
            match self.opened {
                Some((n, _, _)) => n as int,
                None => self.nodes.len() as int,
            }
        }
    }

    /// Node `n` is a directory without children yet, in directory `p`.
    pub open spec fn fresh_dir(self, n: usize, p: usize) -> bool {
        &&& 0 < n < self.nodes.len()
        &&& self.nodes[n as int].is_dir
        &&& self.nodes[n as int].children.len() == 0
        &&& self.nodes[n as int].parent == p
        &&& !self.dropped.contains(n)
    }

    /// Open directory `i` lies in the one before it, and what it has listed so
    /// far lies in it.
    pub open spec fn open_ok(self, i: int) -> bool {
        let d = self.stack[i];
        &&& self.fresh_dir(
            d.node,
            if i == 0 {
                0
            } else {
                self.stack[i - 1].node
            },
        )
        &&& self.kids_ok(d.kids, d.node, self.bound(i))
    }

    /// The invariant on nodes, roots and open directories.
    pub open spec fn sound(self) -> bool {
        &&& 0 < self.nodes.len() <= usize::MAX
        &&& self.nodes[0].is_dir
        &&& self.nodes[0].children.len() == 0
        &&& !self.dropped.contains(0)
        &&& forall|x: usize| #[trigger] self.dropped.contains(x) ==> x < self.nodes.len()
        &&& forall|i: int| 0 <= i < self.nodes.len() ==> #[trigger] self.node_ok(i)
        &&& self.kids_ok(self.roots, 0, self.bound(-1))
        &&& forall|i: int| 0 <= i < self.stack.len() ==> #[trigger] self.open_ok(i)
        &&& self.opened matches Some((n, _, _)) ==> self.fresh_dir(n, self.here())
        &&& self.roots_differ()
    }

    /// No two entries of the root have the same name.
    pub open spec fn roots_differ(self) -> bool {
        forall|i: int, j: int|
            0 <= i < j < self.roots.len() ==> (#[trigger] self.nodes[self.roots[i] as int]).name
                != (#[trigger] self.nodes[self.roots[j] as int]).name
    }

    /// The invariant: at most one thing has to be known next, and nothing only
    /// where no directory is open.
    pub open spec fn wf(self) -> bool {
        &&& self.sound()
        &&& self.current is Some ==> self.found is None && self.opened is None
        &&& self.found is Some ==> self.opened is None
        &&& self.current is None && self.found is None && self.opened is None ==> self.stack.len()
            == 0
    }

    /// Nothing has to be known.
    pub open spec fn settled(self) -> bool {
        self.current is None && self.found is None && self.opened is None
    }
}

/// A new node in the current directory keeps the invariant.
proof fn push_sound(w: GatherView, node: NodeView)
    requires
        w.sound(),
        w.opened is None,
        w.nodes.len() < usize::MAX,
        node.parent == w.here(),
        node.children.len() == 0,
    ensures
        ({
            let n = w.nodes.len();
            let x = GatherView { nodes: w.nodes.push(node), ..w };
            &&& forall|i: int| 0 <= i < x.nodes.len() ==> #[trigger] x.node_ok(i)
            &&& w.kids_ok(w.roots, 0, w.bound(-1))
            &&& x.kids_ok(x.roots, 0, w.bound(-1))
            &&& forall|i: int|
                0 <= i < x.stack.len() ==> (#[trigger] x.stack[i]).node < n && x.fresh_dir(
                    x.stack[i].node,
                    if i == 0 {
                        0
                    } else {
                        x.stack[i - 1].node
                    },
                ) && x.kids_ok(x.stack[i].kids, x.stack[i].node, w.bound(i))
            &&& !w.dropped.contains(n as usize)
        }),
{
    let n = w.nodes.len();
    let x = GatherView { nodes: w.nodes.push(node), ..w };
    if w.stack.len() > 0 {
        assert(w.open_ok(w.stack.len() - 1));
    }
    assert forall|i: int| 0 <= i < x.nodes.len() implies #[trigger] x.node_ok(i) by {
        if i < n {
            assert(w.node_ok(i));
        }
    }
    assert forall|i: int| 0 <= i < x.stack.len() implies (#[trigger] x.stack[i]).node < n
        && x.fresh_dir(
        x.stack[i].node,
        if i == 0 {
            0
        } else {
            x.stack[i - 1].node
        },
    ) && x.kids_ok(x.stack[i].kids, x.stack[i].node, w.bound(i)) by {
        assert(w.open_ok(i));
    }
}

/// Node `k` may go to the root: it lies there or in a directory merged into
/// it, and comes behind all entries of the root.
spec fn can_be_root(w: GatherView, k: usize) -> bool {
    &&& 0 < k < w.nodes.len()
    &&& !w.dropped.contains(k)
    &&& w.nodes[k as int].parent == 0 || w.dropped.contains(w.nodes[k as int].parent)
    &&& forall|i: int| 0 <= i < w.roots.len() ==> #[trigger] w.roots[i] < k
}

proof fn add_root_sound(w: GatherView, k: usize)
    requires
        w.sound(),
        w.stack.len() == 0,
        w.settled(),
        can_be_root(w, k),
    ensures
        w.add_root(k) matches Ok(x) ==> {
            &&& x.sound()
            &&& x.stack.len() == 0
            &&& x.settled()
            &&& x.dropped == w.dropped
            &&& x.roots == w.roots.push(k)
            &&& x.nodes.len() == w.nodes.len()
            &&& forall|j: int|
                0 <= j < w.nodes.len() && j != k ==> #[trigger] x.nodes[j] == w.nodes[j]
        },
{
    if let Ok(x) = w.add_root(k) {
        let n = w.nodes.len();
        assert forall|i: int| 0 <= i < x.nodes.len() implies #[trigger] x.node_ok(i) by {
            assert(w.node_ok(i));
            if !w.dropped.contains(i as usize) {
                let list = w.nodes[i].children;
                assert(x.nodes[i].children == list);
                assert forall|j: int| 0 <= j < list.len() implies {
                    let c = #[trigger] list[j];
                    &&& 0 < c < n
                    &&& x.nodes[c as int].parent == i
                    &&& !x.dropped.contains(c)
                } by {
                    assert(w.nodes[list[j] as int].parent == i);
                }
            }
        }
        assert forall|i: int| 0 <= i < x.roots.len() implies {
            let c = #[trigger] x.roots[i];
            &&& 0 < c < n
            &&& x.nodes[c as int].parent == 0
            &&& !x.dropped.contains(c)
        } by {
            if i < w.roots.len() {
                assert(w.roots[i] < k);
            }
        }
        assert(increasing(x.roots));
    }
}

/// Nodes of one list may go to the root one after the other.
proof fn add_roots_sound(w: GatherView, kids: Seq<usize>)
    requires
        w.sound(),
        w.stack.len() == 0,
        w.settled(),
        increasing(kids),
        forall|i: int| 0 <= i < kids.len() ==> can_be_root(w, #[trigger] kids[i]),
    ensures
        w.add_roots(kids) matches Ok(x) ==> {
            &&& x.sound()
            &&& x.stack.len() == 0
            &&& x.settled()
            &&& x.dropped == w.dropped
            &&& x.nodes.len() == w.nodes.len()
            &&& x.roots == w.roots + kids
            &&& forall|j: int|
                0 <= j < w.nodes.len() && !kids.contains(j as usize)
                    ==> #[trigger] x.nodes[j] == w.nodes[j]
        },
    decreases kids.len(),
{
    if kids.len() == 0 {
        assert(w.roots + kids =~= w.roots);
    } else {
        let init = kids.drop_last();
        let k = kids.last();
        assert(forall|i: int| 0 <= i < init.len() ==> init[i] == kids[i]);
        add_roots_sound(w, init);
        if let Ok(y) = w.add_roots(init) {
            assert(can_be_root(w, kids[kids.len() - 1]));
            assert(!init.contains(k)) by {
                if init.contains(k) {
                    let i = choose|i: int| 0 <= i < init.len() && init[i] == k;
                    assert(kids[i] < kids[kids.len() - 1]);
                }
            }
            assert(y.nodes[k as int] == w.nodes[k as int]);
            assert forall|i: int| 0 <= i < y.roots.len() implies #[trigger] y.roots[i] < k by {
                if i >= w.roots.len() {
                    assert(y.roots[i] == kids[i - w.roots.len()]);
                }
            }
            assert(can_be_root(y, k));
            add_root_sound(y, k);
            if let Ok(x) = y.add_root(k) {
                assert(x.roots =~= w.roots + kids);
                assert forall|j: int|
                    0 <= j < w.nodes.len() && !kids.contains(
                        j as usize,
                    ) implies #[trigger] x.nodes[j] == w.nodes[j] by {
                    assert(kids[kids.len() - 1] == k);
                    if init.contains(j as usize) {
                        let i = choose|i: int| 0 <= i < init.len() && init[i] == j as usize;
                        assert(kids[i] == j as usize);
                    }
                    assert(y.nodes[j] == w.nodes[j]);
                }
            }
        }
    }
}

/// Placing the node of an input keeps the invariant.
proof fn place_sound(w: GatherView, d: usize)
    requires
        w.sound(),
        w.stack.len() == 0,
        w.settled(),
        0 < d < w.nodes.len(),
        w.nodes[d as int].parent == 0,
        !w.dropped.contains(d),
        forall|i: int| 0 <= i < w.roots.len() ==> #[trigger] w.roots[i] < d,
    ensures
        w.place(d) matches Ok(x) ==> x.wf() && x.settled(),
{
    if w.flat && w.nodes[d as int].is_dir {
        let y = GatherView { dropped: w.dropped.insert(d), ..w };
        let kids = w.nodes[d as int].children;
        assert(w.node_ok(d as int));
        assert forall|i: int| 0 <= i < y.nodes.len() implies #[trigger] y.node_ok(i) by {
            assert(w.node_ok(i));
            if !y.dropped.contains(i as usize) {
                let list = w.nodes[i].children;
                assert forall|j: int| 0 <= j < list.len() implies {
                    let c = #[trigger] list[j];
                    &&& 0 < c < y.nodes.len()
                    &&& y.nodes[c as int].parent == i
                    &&& !y.dropped.contains(c)
                } by {
                    assert(w.nodes[list[j] as int].parent == i);
                    if list[j] == d {
                        assert(i == 0);
                    }
                }
            }
        }
        assert(y.kids_ok(y.roots, 0, y.bound(-1))) by {
            assert(w.kids_ok(w.roots, 0, w.bound(-1)));
        }
        assert(y.sound());
        assert forall|i: int| 0 <= i < kids.len() implies can_be_root(y, #[trigger] kids[i]) by {
            let c = kids[i];
            assert(w.nodes[c as int].parent == d);
            assert(w.node_ok(c as int));
            assert forall|j: int| 0 <= j < y.roots.len() implies #[trigger] y.roots[j] < c by {
                assert(w.roots[j] < d);
            }
        }
        add_roots_sound(y, kids);
    } else {
        let one = seq![d];
        assert forall|i: int| 0 <= i < one.len() implies can_be_root(w, #[trigger] one[i]) by {}
        add_roots_sound(w, one);
    }
}

/// Closing the innermost directory keeps the invariant: it gets its children
/// and becomes the last child of the directory around it.
proof fn close_sound(w: GatherView)
    requires
        w.sound(),
        w.settled(),
        w.stack.len() > 0,
        w.stack.last().rest.len() == 0,
    ensures
        ({
            let top = w.stack.last();
            let below = w.stack.drop_last();
            let nodes = w.nodes.update(
                top.node as int,
                NodeView { children: top.kids, ..w.nodes[top.node as int] },
            );
            if below.len() == 0 {
                let x = GatherView { nodes, stack: below, ..w };
                &&& x.sound()
                &&& x.nodes[top.node as int].parent == 0
                &&& forall|i: int| 0 <= i < x.roots.len() ==> #[trigger] x.roots[i] < top.node
            } else {
                let up = below.last();
                let stack = below.drop_last().push(OpenDir { kids: up.kids.push(top.node), ..up });
                GatherView { nodes, stack, ..w }.sound()
            }
        }),
{
    let n = w.stack.len();
    let top = w.stack.last();
    let below = w.stack.drop_last();
    let nodes = w.nodes.update(
        top.node as int,
        NodeView { children: top.kids, ..w.nodes[top.node as int] },
    );
    assert(w.open_ok(n - 1));
    let stack = if below.len() == 0 {
        below
    } else {
        below.drop_last().push(OpenDir { kids: below.last().kids.push(top.node), ..below.last() })
    };
    let x = GatherView { nodes, stack, ..w };
    assert forall|i: int| 0 <= i < x.nodes.len() implies #[trigger] x.node_ok(i) by {
        assert(w.node_ok(i));
        if i == top.node {
            assert(x.nodes[i].children == top.kids);
        }
    }
    assert(w.kids_ok(w.roots, 0, w.bound(-1)));
    assert(w.bound(-1) == w.stack[0].node);
    if below.len() == 0 {
        assert(w.stack[0] == top);
    } else {
        let up = below.last();
        assert(w.open_ok(n - 2));
        assert(up == w.stack[n - 2]);
        assert(x.bound(-1) == w.bound(-1));
        assert forall|i: int| 0 <= i < x.stack.len() implies #[trigger] x.open_ok(i) by {
            assert(w.open_ok(i));
            assert(w.stack[i].node != top.node) by {
                stack_ascends(w, i, n - 1);
            }
            if i == n - 2 {
                let kids = up.kids.push(top.node);
                assert(x.stack[i].kids == kids);
                assert(increasing(kids));
            } else {
                assert(x.bound(i) == w.bound(i));
            }
        }
    }
}

/// Inner directories come later in the arena.
proof fn stack_ascends(w: GatherView, i: int, j: int)
    requires
        w.sound(),
        0 <= i < j < w.stack.len(),
    ensures
        w.stack[i].node < w.stack[j].node,
    decreases j - i,
{
    assert(w.open_ok(j));
    assert(w.node_ok(w.stack[j].node as int));
    if i < j - 1 {
        stack_ascends(w, i, j - 1);
    }
}

/// Going on to the next entry keeps the invariant.
proof fn advance_wf(w: GatherView)
    requires
        w.sound(),
        w.settled(),
    ensures
        w.advance() matches Ok(x) ==> x.wf(),
    decreases w.stack.len(),
{
    if w.stack.len() > 0 {
        let top = w.stack.last();
        let below = w.stack.drop_last();
        if top.rest.len() > 0 {
            if let Ok(x) = w.advance() {
                assert forall|i: int| 0 <= i < x.stack.len() implies #[trigger] x.open_ok(i) by {
                    assert(w.open_ok(i));
                    assert(x.bound(i) == w.bound(i));
                }
                assert(x.bound(-1) == w.bound(-1));
                assert forall|i: int| 0 <= i < x.nodes.len() implies #[trigger] x.node_ok(i) by {
                    assert(w.node_ok(i));
                }
            }
        } else {
            close_sound(w);
            let nodes = w.nodes.update(
                top.node as int,
                NodeView { children: top.kids, ..w.nodes[top.node as int] },
            );
            assert(w.open_ok(w.stack.len() - 1));
            if below.len() == 0 {
                place_sound(GatherView { nodes, stack: below, ..w }, top.node);
            } else {
                let up = below.last();
                let stack = below.drop_last().push(OpenDir { kids: up.kids.push(top.node), ..up });
                advance_wf(GatherView { nodes, stack, ..w });
            }
        }
    }
}

proof fn stated_wf(w: GatherView, kind: Kind, mtime: u64)
    requires
        w.wf(),
        w.current is Some,
        w.nodes.len() < usize::MAX,
    ensures
        w.stated(kind, mtime) matches Ok(x) ==> x.wf(),
{
    let e = w.current->0;
    let y = GatherView { current: None, ..w };
    assert(y.sound()) by {
        same_sound(w, y);
    }
    match kind {
        Kind::Dir => {
            same_sound(w, GatherView { found: Some((e, mtime)), ..y });
        },
        Kind::File(size) => {
            if size <= FILE_MAX {
                let node = file_node(e, size, mtime, y.here());
                let n = y.nodes.len() as usize;
                push_sound(y, node);
                let x = GatherView { nodes: y.nodes.push(node), ..y };
                if y.stack.len() == 0 {
                    assert(x.kids_ok(x.roots, 0, y.bound(-1)));
                    assert(x.sound());
                    place_sound(x, n);
                } else {
                    let top = x.stack.last();
                    let stack = x.stack.drop_last().push(OpenDir { kids: top.kids.push(n), ..top });
                    let z = GatherView { stack, ..x };
                    child_sound(y, node);
                    advance_wf(z);
                }
            }
        },
        Kind::Other => {},
    }
}

/// The invariant on nodes, roots and open directories does not depend on the
/// current entry.
proof fn same_sound(w: GatherView, x: GatherView)
    requires
        w.sound(),
        x.nodes == w.nodes,
        x.roots == w.roots,
        x.stack == w.stack,
        x.opened == w.opened,
        x.dropped == w.dropped,
    ensures
        x.sound(),
{
    assert forall|i: int| 0 <= i < x.nodes.len() implies #[trigger] x.node_ok(i) by {
        assert(w.node_ok(i));
    }
    assert forall|i: int| 0 <= i < x.stack.len() implies #[trigger] x.open_ok(i) by {
        assert(w.open_ok(i));
        assert(x.bound(i) == w.bound(i));
    }
    assert(x.bound(-1) == w.bound(-1));
}

proof fn resolved_wf(w: GatherView, canonical: Seq<u8>)
    requires
        w.wf(),
        w.found is Some,
        w.nodes.len() < usize::MAX,
    ensures
        w.resolved(canonical) matches Ok(x) ==> x.wf(),
{
    if let Ok(x) = w.resolved(canonical) {
        let (e, mtime) = w.found->0;
        let node = dir_node(e.name, mtime, w.here());
        let n = w.nodes.len();
        push_sound(w, node);
        let y = GatherView { nodes: w.nodes.push(node), ..w };
        assert forall|i: int| 0 <= i < x.nodes.len() implies #[trigger] x.node_ok(i) by {
            assert(y.node_ok(i));
        }
        assert forall|i: int| 0 <= i < x.stack.len() implies #[trigger] x.open_ok(i) by {
            assert(w.open_ok(i));
            assert(y.stack[i].node < n);
            assert(x.bound(i) == w.bound(i));
        }
        assert(x.bound(-1) == w.bound(-1));
        assert(y.kids_ok(y.roots, 0, w.bound(-1)));
        if w.stack.len() > 0 {
            assert(w.open_ok(w.stack.len() - 1));
        }
    }
}

/// Opening a directory to gather its entries keeps the invariant.
proof fn listed_sound(w: GatherView, entries: Seq<EntryView>)
    requires
        w.wf(),
        w.opened is Some,
    ensures
        ({
            let (node, canonical, _) = w.opened->0;
            let frame = OpenDir {
                node,
                canonical,
                rest: sort_entries(entries),
                kids: Seq::empty(),
            };
            GatherView { stack: w.stack.push(frame), opened: None, ..w }.sound()
        }),
{
    let (node, canonical, _) = w.opened->0;
    let frame = OpenDir { node, canonical, rest: sort_entries(entries), kids: Seq::empty() };
    let x = GatherView { stack: w.stack.push(frame), opened: None, ..w };
    assert forall|i: int| 0 <= i < x.nodes.len() implies #[trigger] x.node_ok(i) by {
        assert(w.node_ok(i));
    }
    assert forall|i: int| 0 <= i < x.stack.len() implies #[trigger] x.open_ok(i) by {
        if i < w.stack.len() {
            assert(w.open_ok(i));
            assert(x.bound(i) == w.bound(i));
        }
    }
    assert(x.bound(-1) == w.bound(-1));
}

/// The number of steps from a node to the root.
spec fn depth_of(nodes: Seq<NodeView>, i: int) -> nat
    decreases i,
{
    if i <= 0 || nodes[i].parent >= i {
        0
    } else {
        depth_of(nodes, nodes[i].parent as int) + 1
    }
}

proof fn depth_is_small(nodes: Seq<NodeView>, i: int)
    requires
        0 <= i,
    ensures
        depth_of(nodes, i) <= i,
    decreases i,
{
    if i > 0 && nodes[i].parent < i {
        depth_is_small(nodes, nodes[i].parent as int);
    }
}

/// No two entries of the root of the gathered tree have the same name.
pub proof fn gathered_roots_differ(w: GatherView)
    requires
        w.wf(),
        w.settled(),
    ensures
        root_names_differ(w.finished()),
{
    let t = w.finished();
    let key = TreeView { nodes: w.nodes, root: 0 }.name_bytes();
    let kids = t.kids(0);
    assert(w.bound(-1) == w.nodes.len());
    assert(w.kids_ok(w.roots, 0, w.nodes.len() as int));
    assert(w.roots.no_duplicates());
    sort_items_facts(w.roots, key);
    sort_items_no_duplicates(w.roots, key);
    assert forall|i: int, j: int| 0 <= i < j < kids.len() implies (
    #[trigger] t.nodes[kids[i] as int]).name != (#[trigger] t.nodes[kids[j] as int]).name by {
        assert(kids.contains(kids[i]) && kids.contains(kids[j]));
        assert(w.roots.contains(kids[i]) && w.roots.contains(kids[j]));
        let a = choose|a: int| 0 <= a < w.roots.len() && w.roots[a] == kids[i];
        let b = choose|b: int| 0 <= b < w.roots.len() && w.roots[b] == kids[j];
        assert(kids[i] != kids[j]);
        assert(w.nodes[w.roots[a] as int].name != w.nodes[w.roots[b] as int].name);
    }
}

/// Whether no two entries of the root of a tree have the same name.
pub open spec fn root_names_differ(t: TreeView) -> bool {
    let kids = t.kids(t.root);
    forall|i: int, j: int|
        0 <= i < j < kids.len() ==> (#[trigger] t.nodes[kids[i] as int]).name != (
        #[trigger] t.nodes[kids[j] as int]).name
}

/// The gathered tree is well-formed.
pub proof fn gathered_tree_wf(w: GatherView)
    requires
        w.wf(),
        w.settled(),
    ensures
        w.finished().wf(),
{
    let t = w.finished();
    let n = w.nodes.len();
    let all = TreeView { nodes: w.nodes, root: 0 };
    let key = all.name_bytes();
    let live = Set::new(|i: usize| i < n && !w.dropped.contains(i));
    let depth = |i: usize| depth_of(w.nodes, i as int);
    assert(w.bound(-1) == n);
    assert(w.kids_ok(w.roots, 0, n as int));
    assert(w.roots.no_duplicates());
    sort_items_facts(w.roots, key);
    sort_items_no_duplicates(w.roots, key);
    let next = t.next();
    assert forall|d: usize| #[trigger] live.contains(d) implies depth(d) < n && next(
        d,
    ).no_duplicates() by {
        depth_is_small(w.nodes, d as int);
        assert(w.node_ok(d as int));
        if d > 0 {
            assert(next(d) == w.nodes[d as int].children);
            assert(increasing(next(d)));
        }
    }
    assert forall|d: usize, c: usize|
        live.contains(d) && #[trigger] next(d).contains(c) implies live.contains(c) && depth(c)
        == depth(d) + 1 && t.parents()(c) == d by {
        if d == 0 {
            assert(w.roots.contains(c));
            let i = choose|i: int| 0 <= i < w.roots.len() && w.roots[i] == c;
            assert(w.nodes[w.roots[i] as int].parent == 0);
        } else {
            assert(w.node_ok(d as int));
            let list = w.nodes[d as int].children;
            assert(next(d) == list);
            let i = choose|i: int| 0 <= i < list.len() && list[i] == c;
            assert(w.nodes[list[i] as int].parent == d);
        }
        assert(w.node_ok(c as int));
    }
    assert forall|d: usize| #[trigger]
        live.contains(d) && !t.nodes[d as int].is_dir implies t.kids(d).len() == 0 by {
        assert(w.node_ok(d as int));
    }
    assert(depth(0) == 0);
    assert(t.shaped(live, depth));
}

// ---------------------------------------------------------------------------
// the gatherer
// ---------------------------------------------------------------------------

struct OpenFrame {
    node: usize,
    canonical: Vec<u8>,
    // last entry first
    rest: Vec<Entry>,
    kids: Vec<usize>,
}

impl View for OpenFrame {
    type V = OpenDir;

    closed spec fn view(&self) -> OpenDir {
        OpenDir {
            node: self.node,
            canonical: self.canonical@,
            rest: entry_views(self.rest@).reverse(),
            kids: self.kids@,
        }
    }
}

/// Gathers a payload. It says what it needs to know next ([`Step`]); the
/// answers are given with `input`, `stated`, `resolved` and `listed`. An error
/// ends the gathering.
pub struct Gatherer {
    flat: bool,
    arena: Vec<Node>,
    roots: Vec<usize>,
    stack: Vec<OpenFrame>,
    current: Option<Entry>,
    found: Option<(Entry, u64)>,
    opened: Option<(usize, Vec<u8>, PathBuf)>,
    dropped: Ghost<Set<usize>>,
}

/// Nodes as values.
pub open spec fn node_views(s: Seq<Node>) -> Seq<NodeView> {
    s.map_values(|n: Node| n@)
}

impl View for Gatherer {
    type V = GatherView;

    closed spec fn view(&self) -> GatherView {
        GatherView {
            flat: self.flat,
            nodes: node_views(self.arena@),
            roots: self.roots@,
            stack: self.stack@.map_values(|f: OpenFrame| f@),
            current: match self.current {
                Some(e) => Some(e@),
                None => None,
            },
            found: match self.found {
                Some((e, mtime)) => Some((e@, mtime)),
                None => None,
            },
            opened: match self.opened {
                Some((n, canonical, path)) => Some((n, canonical@, path)),
                None => None,
            },
            dropped: self.dropped@,
        }
    }
}

/// An answer leads to the state given, or to the trouble given.
pub open spec fn comes_to(
    r: Result<(Gatherer, Step), GatherError>,
    want: Result<GatherView, Trouble>,
) -> bool {
    match (r, want) {
        (Ok((g, step)), Ok(w)) => g.wf() && g@ == w && step == w.step(),
        (Err(e), Err(x)) => e@ == x,
        _ => false,
    }
}

/// A node of a directory without children.
fn new_dir(name: String, mtime: u64, parent: usize) -> (n: Node)
    ensures
        n@ == dir_node(name@, mtime, parent),
        n.extent() == no_extent(),
{
    let n = Node {
        name,
        is_dir: true,
        src: None,
        size: 0,
        mtime,
        parent,
        children: Vec::new(),
        base_id: Vec::new(),
        joliet_id: Vec::new(),
        base_lba: 0,
        jol_lba: 0,
        sectors: 0,
        jol_sectors: 0,
    };
    assert(n@ =~= dir_node(n.name@, mtime, parent));
    n
}

/// A node of a file.
fn new_file(name: String, path: PathBuf, size: u64, mtime: u64, parent: usize) -> (n: Node)
    ensures
        n@ == file_node(EntryView { name: name@, path, shown: Seq::empty() }, size, mtime, parent),
        n.extent() == no_extent(),
{
    let n = Node {
        name,
        is_dir: false,
        src: Some(path),
        size,
        mtime,
        parent,
        children: Vec::new(),
        base_id: Vec::new(),
        joliet_id: Vec::new(),
        base_lba: 0,
        jol_lba: 0,
        sectors: 0,
        jol_sectors: 0,
    };
    assert(n@ =~= file_node(
        EntryView { name: n.name@, path, shown: Seq::empty() },
        size,
        mtime,
        parent,
    ));
    n
}

/// No place on a volume yet.
pub open spec fn no_extent() -> Extent {
    Extent { base_lba: 0, jol_lba: 0, sectors: 0, jol_sectors: 0 }
}

/// A copy of a list of nodes.
fn copied(list: &Vec<usize>) -> (c: Vec<usize>)
    ensures
        c@ == list@,
{
    let n: usize = list.len();
    let mut c: Vec<usize> = Vec::new();
    let mut i: usize = 0;
    while i < n
        invariant
            n == list@.len(),
            i <= n,
            c@ =~= list@.take(i as int),
        decreases n - i,
    {
        c.push(list[i]);
        i += 1;
    }
    c
}

impl Gatherer {
    /// The invariant of a gatherer.
    pub closed spec fn wf(&self) -> bool {
        &&& self@.wf()
        &&& forall|i: int|
            0 <= i < self.arena@.len() ==> (#[trigger] self.arena@[i]).extent() == no_extent()
    }

    spec fn unplaced(&self) -> bool {
        forall|i: int|
            0 <= i < self.arena@.len() ==> (#[trigger] self.arena@[i]).extent() == no_extent()
    }

    /// A gatherer before its first input.
    pub fn new(flat: bool) -> (g: Gatherer)
        ensures
            g.wf(),
            g@ == GatherView::start(flat),
            g@.step() == Step::Input,
    {
        let root: Node = new_dir("ROOT".to_string(), 0, 0);
        let mut arena: Vec<Node> = Vec::new();
        arena.push(root);
        let g = Gatherer {
            flat,
            arena,
            roots: Vec::new(),
            stack: Vec::new(),
            current: None,
            found: None,
            opened: None,
            dropped: Ghost(Set::empty()),
        };
        assert(g@ =~= GatherView::start(flat));
        assert(g@.node_ok(0));
        g
    }

    /// The path of the entry that something has to be known of.
    pub fn path(&self) -> (p: &PathBuf)
        requires
            self@.step() != Step::Input,
        ensures
            self@.step() == Step::Stat ==> *p == self@.current->0.path,
            self@.step() == Step::Resolve ==> *p == (self@.found->0).0.path,
            self@.step() == Step::List ==> *p == (self@.opened->0).2,
    {
        match &self.current {
            Some(e) => &e.path,
            None => match &self.found {
                Some(x) => &x.0.path,
                None => &self.opened.as_ref().unwrap().2,
            },
        }
    }

    /// Puts node `k` at the root, unless the root has an entry of that name.
    fn add_root(&mut self, k: usize) -> (r: Result<(), GatherError>)
        requires
            k < old(self).arena@.len(),
            old(self).unplaced(),
            forall|i: int|
                0 <= i < old(self).roots@.len() ==> #[trigger] old(self).roots@[i]
                    < old(self).arena@.len(),
        ensures
            match (r, old(self)@.add_root(k)) {
                (Ok(_), Ok(w)) => final(self)@ == w && final(self).unplaced(),
                (Err(e), Err(x)) => e@ == x,
                _ => false,
            },
    {
        let ghost start = self@;
        let n: usize = self.roots.len();
        let mut i: usize = 0;
        while i < n
            invariant
                n == self.roots@.len(),
                i <= n,
                k < self.arena@.len(),
                *self == *old(self),
                start == self@,
                forall|j: int|
                    0 <= j < self.roots@.len() ==> #[trigger] self.roots@[j] < self.arena@.len(),
                forall|j: int|
                    0 <= j < i ==> (#[trigger] start.nodes[start.roots[j] as int]).name
                        != start.nodes[k as int].name,
            decreases n - i,
        {
            let root: usize = self.roots[i];
            assert(start.nodes[root as int] == self.arena@[root as int]@);
            assert(start.nodes[k as int] == self.arena@[k as int]@);
            if str_eq(self.arena[root].name.as_str(), self.arena[k].name.as_str()) {
                assert(start.nodes[start.roots[i as int] as int].name
                    == start.nodes[k as int].name);
                return Err(GatherError::DuplicateRoot { name: self.arena[k].name.clone() });
            }
            i += 1;
        }
        self.arena[k].parent = 0;
        self.roots.push(k);
        proof {
            let want = start.add_root(k)->Ok_0;
            assert(self@.nodes =~= want.nodes);
            assert(self@ =~= want);
        }
        Ok(())
    }

    /// Puts the node of an input in its place.
    fn place(self, d: usize) -> (r: Result<(Gatherer, Step), GatherError>)
        requires
            self.unplaced(),
            self@.sound(),
            self@.settled(),
            self@.stack.len() == 0,
            0 < d < self@.nodes.len(),
            self@.nodes[d as int].parent == 0,
            !self@.dropped.contains(d),
            forall|i: int| 0 <= i < self@.roots.len() ==> #[trigger] self@.roots[i] < d,
        ensures
            comes_to(r, self@.place(d)),
    {
        let mut g = self;
        let ghost start = g@;
        proof {
            place_sound(start, d);
            assert(start.node_ok(d as int));
        }
        let mut kids: Vec<usize> = Vec::new();
        assert(start.nodes[d as int] == g.arena@[d as int]@);
        if g.flat && g.arena[d].is_dir {
            kids = copied(&g.arena[d].children);
            g.dropped = Ghost(g.dropped@.insert(d));
        } else {
            kids.push(d);
            assert(kids@ =~= seq![d]);
        }
        let ghost w = g@;
        let n: usize = kids.len();
        let mut i: usize = 0;
        proof {
            assert(kids@.take(0) =~= Seq::<usize>::empty());
            assert(start.place(d) == w.add_roots(kids@));
            assert forall|j: int| 0 <= j < kids@.len() implies #[trigger] kids@[j]
                < start.nodes.len() by {}
        }
        while i < n
            invariant
                n == kids@.len(),
                i <= n,
                start == self@,
                start.place(d) == w.add_roots(kids@),
                w.add_roots(kids@.take(i as int)) == Ok::<GatherView, Trouble>(g@),
                g.unplaced(),
                g.arena@.len() == start.nodes.len(),
                forall|j: int| 0 <= j < kids@.len() ==> #[trigger] kids@[j] < start.nodes.len(),
                forall|j: int|
                    0 <= j < g.roots@.len() ==> #[trigger] g.roots@[j] < g.arena@.len(),
            decreases n - i,
        {
            let k: usize = kids[i];
            proof {
                assert(kids@.take(i + 1).drop_last() =~= kids@.take(i as int));
                assert(kids@.take(i + 1).last() == k);
                add_roots_fail_early(w, kids@, i + 1);
            }
            let ghost before = g@;
            if let Err(x) = g.add_root(k) {
                return Err(x);
            }
            proof {
                assert(g@.nodes.len() == before.nodes.len());
                assert(g@.roots == before.roots.push(k));
            }
            i += 1;
        }
        assert(kids@.take(n as int) =~= kids@);
        Ok((g, Step::Input))
    }
}

impl Gatherer {
    /// Goes on to the next entry.
    fn advance(self) -> (r: Result<(Gatherer, Step), GatherError>)
        requires
            self.unplaced(),
            self@.sound(),
            self@.settled(),
        ensures
            comes_to(r, self@.advance()),
    {
        let mut g = self;
        let ghost start = g@;
        proof {
            advance_wf(start);
        }
        while g.stack.len() > 0
            invariant
                g.unplaced(),
                g@.sound(),
                g@.settled(),
                start == self@,
                start.advance() matches Ok(x) ==> x.wf(),
                start.advance() == g@.advance(),
            decreases g.stack@.len(),
        {
            let ghost before = g@;
            let depth: usize = g.stack.len();
            let mut top: OpenFrame = g.stack.pop().unwrap();
            proof {
                assert(before.stack.last() == top@);
                assert(before.open_ok(depth - 1));
                assert(g@.stack =~= before.stack.drop_last());
            }
            let ghost entries = top.rest@;
            match top.rest.pop() {
                Some(e) => {
                    proof {
                        assert(entry_views(entries).reverse()[0] == e@);
                        assert(entry_views(top.rest@).reverse() =~= entry_views(
                            entries,
                        ).reverse().drop_first());
                    }
                    if depth > NESTING_MAX {
                        return Err(GatherError::TooDeep { path: e.shown });
                    }
                    g.stack.push(top);
                    g.current = Some(e);
                    proof {
                        assert(g@.stack =~= before.stack.drop_last().push(top@));
                        assert(g@ =~= before.advance()->Ok_0);
                    }
                    return Ok((g, Step::Stat));
                },
                None => {
                    proof {
                        assert(before.stack.last().rest.len() == 0);
                        close_sound(before);
                    }
                    let ghost below = g@;
                    let node: usize = top.node;
                    let ghost kids = top.kids@;
                    g.arena[node].children = top.kids;
                    proof {
                        assert(g@.nodes =~= before.nodes.update(
                            node as int,
                            NodeView { children: kids, ..before.nodes[node as int] },
                        ));
                        assert(g@.stack =~= below.stack);
                    }
                    let n: usize = g.stack.len();
                    if n == 0 {
                        assert(g@ =~= GatherView {
                            nodes: g@.nodes,
                            stack: before.stack.drop_last(),
                            ..before
                        });
                        return g.place(node);
                    }
                    let mut up: OpenFrame = g.stack.pop().unwrap();
                    let ghost had = up@;
                    up.kids.push(node);
                    g.stack.push(up);
                    proof {
                        assert(below.stack.last() == had);
                        assert(up@.kids =~= had.kids.push(node));
                        assert(g@.stack =~= below.stack.drop_last().push(
                            OpenDir { kids: had.kids.push(node), ..had },
                        ));
                    }
                },
            }
        }
        assert(g@.stack.len() == 0);
        Ok((g, Step::Input))
    }

    /// Takes the next input; `exists_there` tells whether its path exists.
    pub fn input(self, e: Entry, exists_there: bool) -> (r: Result<(Gatherer, Step), GatherError>)
        requires
            self.wf(),
            self@.step() == Step::Input,
        ensures
            comes_to(r, self@.input(e@, exists_there)),
    {
        let mut g = self;
        let ghost start = g@;
        if !exists_there {
            return Err(GatherError::MissingInput { input: e.shown });
        }
        g.current = Some(e);
        proof {
            same_sound(start, g@);
            assert(g@ =~= start.input(e@, true)->Ok_0);
        }
        Ok((g, Step::Stat))
    }

    /// Takes what the current entry is, and when it was last changed (Unix
    /// seconds, 0 when unknown).
    pub fn stated(self, kind: Kind, mtime: u64) -> (r: Result<(Gatherer, Step), GatherError>)
        requires
            self.wf(),
            self@.step() == Step::Stat,
        ensures
            comes_to(r, self@.stated(kind, mtime)),
    {
        let mut g = self;
        let ghost start = g@;
        let e: Entry = g.current.take().unwrap();
        let ghost w = g@;
        proof {
            assert(w =~= GatherView { current: None, ..start });
            same_sound(start, w);
        }
        match kind {
            Kind::Dir => {
                proof {
                    same_sound(start, GatherView { found: Some((e@, mtime)), ..w });
                }
                g.found = Some((e, mtime));
                assert(g@ =~= start.stated(kind, mtime)->Ok_0);
                Ok((g, Step::Resolve))
            },
            Kind::File(size) => {
                if size > FILE_MAX {
                    return Err(GatherError::TooLarge { file: e.shown });
                }
                let n: usize = g.arena.len();
                let depth: usize = g.stack.len();
                let parent: usize = if depth == 0 {
                    0
                } else {
                    g.stack[depth - 1].node
                };
                let ghost entry = e@;
                let node: Node = new_file(e.name, e.path, size, mtime, parent);
                g.arena.push(node);
                proof {
                    assert(parent == w.here());
                    assert(node@ == file_node(entry, size, mtime, parent));
                    assert(g@.nodes =~= w.nodes.push(node@));
                    assert(g.arena.len() <= usize::MAX);
                    stated_wf(start, kind, mtime);
                    push_sound(w, node@);
                }
                let ghost x = g@;
                if depth == 0 {
                    proof {
                        assert(x.kids_ok(x.roots, 0, w.bound(-1)));
                        assert(x.sound());
                    }
                    return g.place(n);
                }
                let mut top: OpenFrame = g.stack.pop().unwrap();
                let ghost had = top@;
                top.kids.push(n);
                g.stack.push(top);
                proof {
                    assert(x.stack.last() == had);
                    assert(top@.kids =~= had.kids.push(n));
                    assert(g@.stack =~= x.stack.drop_last().push(
                        OpenDir { kids: had.kids.push(n), ..had },
                    ));
                    child_sound(w, node@);
                }
                g.advance()
            },
            Kind::Other => Err(GatherError::Unsupported { path: e.shown }),
        }
    }

    /// Takes what the directory found resolves to.
    pub fn resolved(self, canonical: Vec<u8>) -> (r: Result<(Gatherer, Step), GatherError>)
        requires
            self.wf(),
            self@.step() == Step::Resolve,
        ensures
            comes_to(r, self@.resolved(canonical@)),
    {
        let mut g = self;
        let ghost start = g@;
        let (e, mtime): (Entry, u64) = g.found.take().unwrap();
        let n: usize = g.stack.len();
        let mut i: usize = 0;
        while i < n
            invariant
                n == g.stack@.len(),
                i <= n,
                start == self@,
                start.stack == g.stack@.map_values(|f: OpenFrame| f@),
                start.found == Some((e@, mtime)),
                forall|j: int|
                    0 <= j < i ==> (#[trigger] start.stack[j]).canonical != canonical@,
            decreases n - i,
        {
            assert(start.stack[i as int] == g.stack@[i as int]@);
            if bytes_eq(g.stack[i].canonical.as_slice(), canonical.as_slice()) {
                return Err(GatherError::Loop { dir: e.shown });
            }
            i += 1;
        }
        let parent: usize = if n == 0 {
            0
        } else {
            g.stack[n - 1].node
        };
        let index: usize = g.arena.len();
        let node: Node = new_dir(e.name, mtime, parent);
        g.arena.push(node);
        g.opened = Some((index, canonical, e.path));
        proof {
            assert(parent == start.here());
            assert(g@.nodes =~= start.nodes.push(node@));
            assert(g.arena.len() <= usize::MAX);
            resolved_wf(start, canonical@);
            assert(g@ =~= start.resolved(canonical@)->Ok_0);
        }
        Ok((g, Step::List))
    }

    /// Takes the entries of the opened directory.
    pub fn listed(self, entries: Vec<Entry>) -> (r: Result<(Gatherer, Step), GatherError>)
        requires
            self.wf(),
            self@.step() == Step::List,
        ensures
            comes_to(r, self@.listed(entry_views(entries@))),
    {
        let mut g = self;
        let ghost start = g@;
        let opened: (usize, Vec<u8>, PathBuf) = g.opened.take().unwrap();
        let sorted: Vec<Entry> = sorted_entries(entries);
        let rest: Vec<Entry> = reversed(sorted);
        let frame = OpenFrame { node: opened.0, canonical: opened.1, rest, kids: Vec::new() };
        g.stack.push(frame);
        proof {
            let all = sort_entries(entry_views(entries@));
            assert(entry_views(rest@).reverse() =~= all);
            assert(frame@.kids =~= Seq::<usize>::empty());
            assert(g@.stack =~= start.stack.push(frame@));
            listed_sound(start, entry_views(entries@));
        }
        g.advance()
    }

    /// The tree, when all inputs have been taken: its root lists its entries
    /// by name. An error where there are none.
    pub fn finish(self) -> (r: Result<Tree, GatherError>)
        requires
            self.wf(),
            self@.step() == Step::Input,
        ensures
            match r {
                Ok(t) => {
                    &&& self@.roots.len() > 0
                    &&& t@ == self@.finished()
                    &&& t@.wf()
                    &&& root_names_differ(t@)
                    &&& forall|i: int|
                        0 <= i < t.extents().len() ==> #[trigger] t.extents()[i] == no_extent()
                },
                Err(e) => e@ == Trouble::NoPayload && self@.roots.len() == 0,
            },
    {
        let mut g = self;
        let ghost start = g@;
        let n: usize = g.roots.len();
        if n == 0 {
            return Err(GatherError::NoPayload);
        }
        let ghost all = TreeView { nodes: start.nodes, root: 0 };
        proof {
            gathered_tree_wf(start);
            gathered_roots_differ(start);
            assert(start.bound(-1) == start.nodes.len());
        }
        let sorted: Vec<usize> = {
            let mut keys: Vec<&[u8]> = Vec::new();
            let mut i: usize = 0;
            while i < n
                invariant
                    n == g.roots@.len(),
                    i <= n,
                    start == g@,
                    all == (TreeView { nodes: start.nodes, root: 0 }),
                    start.kids_ok(start.roots, 0, start.nodes.len() as int),
                    keys@.len() == i,
                    forall|j: int|
                        0 <= j < i ==> all.name_bytes()(g.roots@[j]) == (#[trigger] keys@[j])@,
                decreases n - i,
            {
                let k: usize = g.roots[i];
                assert(start.roots[i as int] == k);
                assert(start.nodes[k as int] == g.arena@[k as int]@);
                keys.push(g.arena[k].name.as_str().as_bytes());
                i += 1;
            }
            sort_by_keys(&g.roots, &keys, Ghost(all.name_bytes()))
        };
        g.arena[0].children = sorted;
        let t = Tree { arena: g.arena, root: 0 };
        proof {
            assert(t@.nodes =~= start.finished().nodes);
        }
        Ok(t)
    }
}

/// A new file in the current directory keeps the invariant.
proof fn child_sound(w: GatherView, node: NodeView)
    requires
        w.sound(),
        w.settled(),
        w.stack.len() > 0,
        w.nodes.len() < usize::MAX,
        node.parent == w.here(),
        node.children.len() == 0,
    ensures
        ({
            let n = w.nodes.len() as usize;
            let top = w.stack.last();
            let stack = w.stack.drop_last().push(OpenDir { kids: top.kids.push(n), ..top });
            GatherView { nodes: w.nodes.push(node), stack, ..w }.sound()
        }),
{
    let n = w.nodes.len() as usize;
    let top = w.stack.last();
    push_sound(w, node);
    let x = GatherView { nodes: w.nodes.push(node), ..w };
    let stack = w.stack.drop_last().push(OpenDir { kids: top.kids.push(n), ..top });
    let z = GatherView { stack, ..x };
    assert(w.open_ok(w.stack.len() - 1));
    assert forall|i: int| 0 <= i < z.nodes.len() implies #[trigger] z.node_ok(i) by {
        assert(x.node_ok(i));
    }
    assert forall|i: int| 0 <= i < z.stack.len() implies #[trigger] z.open_ok(i) by {
        assert(w.open_ok(i));
        assert(x.stack[i].node < n);
        if i == z.stack.len() - 1 {
            assert(w.bound(i) == n);
            assert(increasing(top.kids.push(n)));
        } else {
            assert(z.bound(i) == w.bound(i));
        }
    }
    assert(z.bound(-1) == w.bound(-1));
}

proof fn add_roots_fail_early(w: GatherView, kids: Seq<usize>, n: int)
    requires
        0 <= n <= kids.len(),
    ensures
        w.add_roots(kids.take(n)) matches Err(x) ==> w.add_roots(kids) == Err::<
            GatherView,
            Trouble,
        >(x),
    decreases kids.len() - n,
{
    if n < kids.len() {
        assert(kids.take(n + 1).drop_last() =~= kids.take(n));
        add_roots_fail_early(w, kids, n + 1);
    } else {
        assert(kids.take(n) =~= kids);
    }
}

} // verus!
