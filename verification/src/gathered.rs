//! What the walk of a [`Gatherer`](crate::gather::Gatherer) comes to, where
//! the file system does not change meanwhile: the same as a recursion over its
//! directories.
use vstd::prelude::*;
use std::path::PathBuf;
use crate::collect::{sort_entries, EntryView, Step, NESTING_MAX};
use crate::gather::{dir_node, file_node, GatherView, Kind, OpenDir, Trouble, FILE_MAX};
use crate::runs::{after, comes_to, comes_to_further, comes_to_itself, comes_to_next, comes_to_rest};
use crate::tree::NodeView;

verus! {

/// A file system that does not change: which paths there are, what a path is
/// and resolves to, when it was modified, and what a directory lists.
pub struct Disk {
    pub exists_at: spec_fn(PathBuf) -> bool,
    pub kind: spec_fn(PathBuf) -> Kind,
    pub mtime: spec_fn(PathBuf) -> u64,
    pub resolve: spec_fn(PathBuf) -> Seq<u8>,
    pub list: spec_fn(PathBuf) -> Seq<EntryView>,
}

/// Gathers an entry of directory `parent`, with all that lies below it. Gives
/// the nodes and the one of the entry. `above` is what the source directories
/// around it resolve to.
pub open spec fn collect_into(
    disk: Disk,
    nodes: Seq<NodeView>,
    parent: usize,
    e: EntryView,
    above: Seq<Seq<u8>>,
) -> Result<(Seq<NodeView>, usize), Trouble>
    decreases NESTING_MAX + 2 - above.len(), 0nat,
{
    let mtime = (disk.mtime)(e.path);
    let index = nodes.len() as usize;
    if above.len() > NESTING_MAX {
        Err(Trouble::TooDeep { path: e.shown })
    } else {
        match (disk.kind)(e.path) {
            Kind::Other => Err(Trouble::Unsupported { path: e.shown }),
            Kind::File(size) => if size > FILE_MAX {
                Err(Trouble::TooLarge { file: e.shown })
            } else {
                Ok((nodes.push(file_node(e, size, mtime, parent)), index))
            },
            Kind::Dir => {
                let canonical = (disk.resolve)(e.path);
                if above.contains(canonical) {
                    Err(Trouble::Loop { dir: e.shown })
                } else {
                    match collect_kids(
                        disk,
                        nodes.push(dir_node(e.name, mtime, parent)),
                        index,
                        sort_entries((disk.list)(e.path)),
                        Seq::empty(),
                        above.push(canonical),
                    ) {
                        Err(x) => Err(x),
                        Ok((all, kids)) => Ok((with_children(all, index, kids), index)),
                    }
                }
            },
        }
    }
}

/// Gathers entries of directory `parent` one after the other, behind `kids`.
pub open spec fn collect_kids(
    disk: Disk,
    nodes: Seq<NodeView>,
    parent: usize,
    rest: Seq<EntryView>,
    kids: Seq<usize>,
    above: Seq<Seq<u8>>,
) -> Result<(Seq<NodeView>, Seq<usize>), Trouble>
    decreases NESTING_MAX + 2 - above.len(), rest.len(),
{
    if rest.len() == 0 {
        Ok((nodes, kids))
    } else {
        match collect_into(disk, nodes, parent, rest[0], above) {
            Err(x) => Err(x),
            Ok((all, n)) => collect_kids(
                disk,
                all,
                parent,
                rest.drop_first(),
                kids.push(n),
                above,
            ),
        }
    }
}

/// The nodes with the children of one of them entered.
pub open spec fn with_children(nodes: Seq<NodeView>, node: usize, kids: Seq<usize>) -> Seq<
    NodeView,
> {
    nodes.update(node as int, NodeView { children: kids, ..nodes[node as int] })
}

/// Gathers an input and puts it in its place.
pub open spec fn collect_input(disk: Disk, w: GatherView, e: EntryView) -> Result<
    GatherView,
    Trouble,
> {
    if !(disk.exists_at)(e.path) {
        Err(Trouble::MissingInput { input: e.shown })
    } else {
        match collect_into(disk, w.nodes, 0, e, Seq::empty()) {
            Err(x) => Err(x),
            Ok((nodes, n)) => GatherView { nodes, ..w }.place(n),
        }
    }
}

/// Gathers inputs one after the other.
pub open spec fn collect_inputs(disk: Disk, w: GatherView, inputs: Seq<EntryView>) -> Result<
    GatherView,
    Trouble,
>
    decreases inputs.len(),
{
    if inputs.len() == 0 {
        Ok(w)
    } else {
        match collect_inputs(disk, w, inputs.drop_last()) {
            Err(x) => Err(x),
            Ok(x) => collect_input(disk, x, inputs.last()),
        }
    }
}

// ---------------------------------------------------------------------------
// the walk over the same file system
// ---------------------------------------------------------------------------

/// The next outcome of a walk over a file system; nothing where the next input
/// is due.
pub open spec fn answers(disk: Disk) -> spec_fn(GatherView) -> Option<Result<GatherView, Trouble>> {
    |w: GatherView|
        match w.step() {
            Step::Input => None,
            Step::Stat => {
                let path = w.current->0.path;
                Some(w.stated((disk.kind)(path), (disk.mtime)(path)))
            },
            Step::Resolve => Some(w.resolved((disk.resolve)((w.found->0).0.path))),
            Step::List => Some(w.listed((disk.list)((w.opened->0).2))),
        }
}

/// The walk through all inputs, with at most `n` answers to each.
pub open spec fn walked(disk: Disk, w: GatherView, inputs: Seq<EntryView>, n: nat) -> Result<
    GatherView,
    Trouble,
>
    decreases inputs.len(),
{
    if inputs.len() == 0 {
        Ok(w)
    } else {
        match walked(disk, w, inputs.drop_last(), n) {
            Err(x) => Err(x),
            Ok(x) => after(answers(disk), given(disk, x, inputs.last()), n),
        }
    }
}

/// The walk with one more input.
pub open spec fn given(disk: Disk, w: GatherView, e: EntryView) -> Result<GatherView, Trouble> {
    w.input(e, (disk.exists_at)(e.path))
}

/// What the source directories in progress resolve to.
pub open spec fn canonicals(w: GatherView) -> Seq<Seq<u8>> {
    w.stack.map_values(|d: OpenDir| d.canonical)
}

/// Nothing is due but the next input, or the next entry of an open directory.
spec fn idle(w: GatherView) -> bool {
    w.current is None && w.found is None && w.opened is None
}

/// The walk with the entry finished, or failed.
#[verifier::opaque]
spec fn finishes(w: GatherView, r: Result<(Seq<NodeView>, usize), Trouble>) -> Result<
    GatherView,
    Trouble,
> {
    match r {
        Err(x) => Err(x),
        Ok((nodes, n)) => GatherView { nodes, ..w }.done(n),
    }
}

/// The walk with all entries of the innermost open directory gathered, or
/// failed.
#[verifier::opaque]
spec fn empties(w: GatherView, r: Result<(Seq<NodeView>, Seq<usize>), Trouble>) -> Result<
    GatherView,
    Trouble,
> {
    match r {
        Err(x) => Err(x),
        Ok((nodes, kids)) => {
            let top = OpenDir { rest: Seq::empty(), kids, ..w.stack.last() };
            GatherView { nodes, stack: w.stack.drop_last().push(top), ..w }.advance()
        },
    }
}

/// The walk with `e` as the current entry comes to what the recursion gathers.
spec fn entry_comes(disk: Disk, w: GatherView, e: EntryView) -> bool {
    comes_to(
        answers(disk),
        Ok(GatherView { current: Some(e), ..w }),
        finishes(w, collect_into(disk, w.nodes, w.here(), e, canonicals(w))),
    )
}

proof fn one_entry_leads(disk: Disk, w: GatherView, e: EntryView)
    requires
        idle(w),
        w.stack.len() <= NESTING_MAX,
    ensures
        entry_comes(disk, w, e),
    decreases NESTING_MAX + 2 - w.stack.len(), 0nat,
{
    reveal(finishes);
    reveal(empties);
    let asks = GatherView { current: Some(e), ..w };
    let above = canonicals(w);
    let mtime = (disk.mtime)(e.path);
    comes_to_next(answers(disk), asks, answers(disk)(asks)->0);
    assert(GatherView { current: None, ..asks } == w);
    if let Kind::Dir = (disk.kind)(e.path) {
        let canonical = (disk.resolve)(e.path);
        let x = GatherView { found: Some((e, mtime)), ..w };
        assert(answers(disk)(asks)->0 == Ok::<GatherView, Trouble>(x));
        comes_to_next(answers(disk), x, answers(disk)(x)->0);
        comes_to_further(answers(disk), Ok(asks), Ok(x), answers(disk)(x)->0);
        assert(above.contains(canonical) <==> exists|i: int|
            0 <= i < w.stack.len() && (#[trigger] w.stack[i]).canonical == canonical) by {
            if above.contains(canonical) {
                let i = choose|i: int| 0 <= i < above.len() && above[i] == canonical;
                assert(w.stack[i].canonical == canonical);
            }
            if exists|i: int|
                0 <= i < w.stack.len() && (#[trigger] w.stack[i]).canonical == canonical {
                let i = choose|i: int|
                    0 <= i < w.stack.len() && (#[trigger] w.stack[i]).canonical == canonical;
                assert(above[i] == canonical);
            }
        }
        if !above.contains(canonical) {
            let index = w.nodes.len() as usize;
            let nodes = w.nodes.push(dir_node(e.name, mtime, w.here()));
            let y = GatherView { nodes, opened: Some((index, canonical, e.path)), ..w };
            assert(answers(disk)(x)->0 == Ok::<GatherView, Trouble>(y));
            comes_to_next(answers(disk), y, answers(disk)(y)->0);
            let frame = OpenDir {
                node: index,
                canonical,
                rest: sort_entries((disk.list)(e.path)),
                kids: Seq::empty(),
            };
            let z = GatherView { nodes, stack: w.stack.push(frame), ..w };
            assert(answers(disk)(y)->0 == z.advance());
            comes_to_further(answers(disk), Ok(asks), Ok(y), z.advance());
            kids_lead(disk, z);
            assert(canonicals(z) =~= above.push(canonical));
            let r = collect_kids(
                disk,
                nodes,
                index,
                frame.rest,
                Seq::empty(),
                above.push(canonical),
            );
            comes_to_further(answers(disk), Ok(asks), z.advance(), empties(z, r));
            if let Ok((all, kids)) = r {
                let last = GatherView {
                    nodes: all,
                    stack: z.stack.drop_last().push(
                        OpenDir { rest: Seq::empty(), kids, ..z.stack.last() },
                    ),
                    ..z
                };
                assert(last.stack.drop_last() =~= w.stack);
                assert(last.advance() == GatherView {
                    nodes: with_children(all, index, kids),
                    ..w
                }.done(index));
            }
        }
    }
}

/// The walk with the first entry left out of the innermost open directory.
spec fn shortened(w: GatherView) -> GatherView {
    let top = w.stack.last();
    let shorter = OpenDir { rest: top.rest.drop_first(), ..top };
    GatherView { stack: w.stack.drop_last().push(shorter), ..w }
}

/// The walk with one more child in the innermost open directory.
spec fn enlarged(w: GatherView, nodes: Seq<NodeView>, n: usize) -> GatherView {
    let top = w.stack.last();
    let more = OpenDir { kids: top.kids.push(n), ..top };
    GatherView { nodes, stack: w.stack.drop_last().push(more), ..w }
}

proof fn next_entry(w: GatherView)
    requires
        idle(w),
        0 < w.stack.len() <= NESTING_MAX,
        w.stack.last().rest.len() > 0,
    ensures
        w.advance() == Ok::<GatherView, Trouble>(
            (GatherView { current: Some(w.stack.last().rest[0]), ..shortened(w) }),
        ),
        idle(shortened(w)),
        shortened(w).stack.len() == w.stack.len(),
        shortened(w).here() == w.stack.last().node,
        shortened(w).nodes == w.nodes,
        canonicals(shortened(w)) == canonicals(w),
{
    assert(canonicals(shortened(w)) =~= canonicals(w));
}

proof fn entry_done(w: GatherView, nodes: Seq<NodeView>, n: usize)
    requires
        idle(w),
        w.stack.len() > 0,
    ensures
        finishes(w, Ok((nodes, n))) == enlarged(w, nodes, n).advance(),
        idle(enlarged(w, nodes, n)),
        enlarged(w, nodes, n).stack.len() == w.stack.len(),
        canonicals(enlarged(w, nodes, n)) == canonicals(w),
{
    reveal(finishes);
    assert(canonicals(enlarged(w, nodes, n)) =~= canonicals(w));
}

proof fn empties_alike(w: GatherView, nodes: Seq<NodeView>, n: usize, r: Result<
    (Seq<NodeView>, Seq<usize>),
    Trouble,
>)
    requires
        w.stack.len() > 0,
    ensures
        empties(enlarged(shortened(w), nodes, n), r) == empties(w, r),
{
    reveal(empties);
    let z = enlarged(shortened(w), nodes, n);
    assert(z.stack.drop_last() =~= w.stack.drop_last());
    if let Ok((all, kids)) = r {
        assert(OpenDir { rest: Seq::empty(), kids, ..z.stack.last() } == OpenDir {
            rest: Seq::empty(),
            kids,
            ..w.stack.last()
        });
    }
}

proof fn nothing_left(w: GatherView)
    requires
        w.stack.len() > 0,
        w.stack.last().rest.len() == 0,
    ensures
        empties(w, Ok((w.nodes, w.stack.last().kids))) == w.advance(),
{
    reveal(empties);
    let top = w.stack.last();
    assert(top.rest =~= Seq::<EntryView>::empty());
    assert(w.stack.drop_last().push(top) =~= w.stack);
}

proof fn kids_lead(disk: Disk, w: GatherView)
    requires
        idle(w),
        0 < w.stack.len() <= NESTING_MAX + 1,
    ensures
        ({
            let top = w.stack.last();
            comes_to(
                answers(disk),
                w.advance(),
                empties(
                    w,
                    collect_kids(disk, w.nodes, top.node, top.rest, top.kids, canonicals(w)),
                ),
            )
        }),
    decreases NESTING_MAX + 2 - w.stack.len(), w.stack.last().rest.len(),
{
    let top = w.stack.last();
    let above = canonicals(w);
    if top.rest.len() == 0 {
        nothing_left(w);
        comes_to_itself(answers(disk), w.advance());
    } else if w.stack.len() > NESTING_MAX {
        assert(w.advance() == Err::<GatherView, Trouble>(
            Trouble::TooDeep { path: top.rest[0].shown },
        ));
        reveal(empties);
        comes_to_itself(answers(disk), w.advance());
    } else {
        let e = top.rest[0];
        let x = shortened(w);
        next_entry(w);
        one_entry_leads(disk, x, e);
        let r = collect_into(disk, w.nodes, top.node, e, above);
        match r {
            Err(f) => {
                assert(finishes(x, r) == Err::<GatherView, Trouble>(f)) by {
                    reveal(finishes);
                }
                assert(empties(w, Err(f)) == Err::<GatherView, Trouble>(f)) by {
                    reveal(empties);
                }
            },
            Ok((all, n)) => {
                let z = enlarged(x, all, n);
                entry_done(x, all, n);
                kids_lead(disk, z);
                let s = collect_kids(
                    disk,
                    all,
                    top.node,
                    top.rest.drop_first(),
                    top.kids.push(n),
                    above,
                );
                empties_alike(w, all, n, s);
                comes_to_further(answers(disk), w.advance(), z.advance(), empties(w, s));
            },
        }
    }
}

/// Putting nodes at the root leaves open what is open.
proof fn roots_keep_idle(w: GatherView, kids: Seq<usize>)
    ensures
        w.add_roots(kids) matches Ok(x) ==> {
            &&& x.current == w.current
            &&& x.found == w.found
            &&& x.opened == w.opened
            &&& x.stack == w.stack
        },
    decreases kids.len(),
{
    if kids.len() > 0 {
        roots_keep_idle(w, kids.drop_last());
    }
}

/// Between two inputs.
pub open spec fn between_inputs(w: GatherView) -> bool {
    w.current is None && w.found is None && w.opened is None && w.stack.len() == 0
}

proof fn input_ends(disk: Disk, w: GatherView, e: EntryView) -> (n: nat)
    requires
        between_inputs(w),
    ensures
        collect_input(disk, w, e) matches Ok(x) ==> between_inputs(x),
        forall|k: nat|
            k >= n ==> #[trigger] after(answers(disk), given(disk, w, e), k) == collect_input(
                disk,
                w,
                e,
            ),
{
    reveal(finishes);
    let r = collect_into(disk, w.nodes, 0, e, Seq::empty());
    assert(canonicals(w) =~= Seq::<Seq<u8>>::empty());
    if (disk.exists_at)(e.path) {
        one_entry_leads(disk, w, e);
        assert(finishes(w, r) == collect_input(disk, w, e));
        if let Ok((nodes, d)) = r {
            let x = GatherView { nodes, ..w };
            roots_keep_idle(
                GatherView { dropped: x.dropped.insert(d), ..x },
                x.nodes[d as int].children,
            );
            roots_keep_idle(x, seq![d]);
        }
    } else {
        comes_to_itself(answers(disk), given(disk, w, e));
    }
    comes_to_rest(answers(disk), given(disk, w, e), collect_input(disk, w, e))
}

/// From `n` answers to each input on, the walk comes to what the recursion
/// gathers, or to its failure.
pub open spec fn ends_by(disk: Disk, flat: bool, inputs: Seq<EntryView>, n: nat) -> bool {
    forall|k: nat|
        k >= n ==> #[trigger] walked(disk, GatherView::start(flat), inputs, k) == collect_inputs(
            disk,
            GatherView::start(flat),
            inputs,
        )
}

proof fn inputs_end(disk: Disk, flat: bool, inputs: Seq<EntryView>) -> (n: nat)
    ensures
        collect_inputs(disk, GatherView::start(flat), inputs) matches Ok(x) ==> between_inputs(x),
        ends_by(disk, flat, inputs, n),
    decreases inputs.len(),
{
    let start = GatherView::start(flat);
    if inputs.len() == 0 {
        0
    } else {
        let less = inputs.drop_last();
        let a = inputs_end(disk, flat, less);
        match collect_inputs(disk, start, less) {
            Err(x) => {
                assert forall|k: nat| k >= a implies #[trigger] walked(disk, start, inputs, k)
                    == collect_inputs(disk, start, inputs) by {
                    assert(walked(disk, start, less, k) == Err::<GatherView, Trouble>(x));
                }
                a
            },
            Ok(w) => {
                let b = input_ends(disk, w, inputs.last());
                assert forall|k: nat| k >= a + b implies #[trigger] walked(
                    disk,
                    start,
                    inputs,
                    k,
                ) == collect_inputs(disk, start, inputs) by {
                    assert(walked(disk, start, less, k) == Ok::<GatherView, Trouble>(w));
                    assert(after(answers(disk), given(disk, w, inputs.last()), k)
                        == collect_input(disk, w, inputs.last()));
                }
                a + b
            },
        }
    }
}

/// The walk through all inputs ends, and comes to what the recursion over the
/// directories gathers, or to its failure.
pub proof fn walk_is_recursion(disk: Disk, flat: bool, inputs: Seq<EntryView>)
    ensures
        exists|n: nat| ends_by(disk, flat, inputs, n),
{
    let n = inputs_end(disk, flat, inputs);
}

} // verus!
