//! What the walk of a [`Collector`](crate::collect::Collector) comes to, where
//! the file system does not change meanwhile: the same as a recursion over its
//! directories.
use vstd::prelude::*;
use std::path::PathBuf;
use crate::collect::{
    reserving, sort_entries, EntryView, Failure, FrameView, NameKey, NameOwner, PayloadView,
    PendingView, Step, WalkView, NESTING_MAX,
};
use crate::runs::{after, comes_to, comes_to_further, comes_to_itself, comes_to_next, comes_to_rest};

verus! {

/// A file system that does not change: what a path resolves to, what a
/// directory lists, which paths are directories, and how long files are.
pub struct Disk {
    pub resolve: spec_fn(PathBuf) -> Seq<u8>,
    pub list: spec_fn(PathBuf) -> Seq<EntryView>,
    pub is_dir: spec_fn(PathBuf) -> bool,
    pub len: spec_fn(PathBuf) -> int,
}

/// The names taken and the payload so far.
#[verifier::ext_equal]
pub struct Gathered {
    pub names: Map<NameKey, NameOwner>,
    pub payload: PayloadView,
}

/// Adds the contents of the source directory `path` to directory `dir` of the
/// image. `above` is what the source directories around it resolve to.
pub open spec fn add_contents(
    disk: Disk,
    g: Gathered,
    dir: usize,
    path: PathBuf,
    shown: Seq<char>,
    above: Seq<Seq<u8>>,
) -> Result<Gathered, Failure>
    decreases NESTING_MAX + 2 - above.len(), 0nat,
{
    let canonical = (disk.resolve)(path);
    if above.len() > NESTING_MAX {
        Err(Failure::TooDeep { dir: shown })
    } else if above.contains(canonical) {
        Err(Failure::Cycle { dir: shown })
    } else {
        add_entries(disk, g, dir, sort_entries((disk.list)(path)), above.push(canonical))
    }
}

/// Adds entries of a source directory to directory `dir` of the image, one
/// after the other.
pub open spec fn add_entries(
    disk: Disk,
    g: Gathered,
    dir: usize,
    rest: Seq<EntryView>,
    above: Seq<Seq<u8>>,
) -> Result<Gathered, Failure>
    decreases NESTING_MAX + 2 - above.len(), rest.len(),
{
    if rest.len() == 0 {
        Ok(g)
    } else {
        let e = rest[0];
        match reserving(g.names, g.payload.dirs[dir as int].path, e.name, e.shown) {
            Err(f) => Err(f),
            Ok(names) => {
                let added = if (disk.is_dir)(e.path) {
                    add_contents(
                        disk,
                        Gathered { names, payload: g.payload.with_dir(dir as int, e.name) },
                        g.payload.dirs.len() as usize,
                        e.path,
                        e.shown,
                        above,
                    )
                } else {
                    let len = (disk.len)(e.path);
                    Ok(
                        Gathered {
                            names,
                            payload: g.payload.with_file(dir as int, e.name, e.path, len),
                        },
                    )
                };
                match added {
                    Err(f) => Err(f),
                    Ok(h) => add_entries(disk, h, dir, rest.drop_first(), above),
                }
            },
        }
    }
}

/// An input: its path, as it is and as messages show it, and its name, where
/// it has one.
pub struct Input {
    pub path: PathBuf,
    pub shown: Seq<char>,
    pub name: Option<Seq<char>>,
}

/// Adds an input: a file at the root; the contents of a directory, in a
/// directory of its name or, with `flat` and where it has none, at the root.
pub open spec fn add_input(disk: Disk, g: Gathered, flat: bool, input: Input) -> Result<
    Gathered,
    Failure,
> {
    let root = g.payload.dirs[0].path;
    if !(disk.is_dir)(input.path) {
        match input.name {
            None => Err(Failure::BadInput { input: input.shown }),
            Some(n) => match reserving(g.names, root, n, input.shown) {
                Err(f) => Err(f),
                Ok(names) => {
                    let len = (disk.len)(input.path);
                    Ok(Gathered { names, payload: g.payload.with_file(0, n, input.path, len) })
                },
            },
        }
    } else if flat || input.name is None || input.name == Some("."@) || input.name == Some(".."@) {
        add_contents(disk, g, 0, input.path, input.shown, Seq::empty())
    } else {
        let n = input.name->0;
        match reserving(g.names, root, n, input.shown) {
            Err(f) => Err(f),
            Ok(names) => add_contents(
                disk,
                Gathered { names, payload: g.payload.with_dir(0, n) },
                g.payload.dirs.len() as usize,
                input.path,
                input.shown,
                Seq::empty(),
            ),
        }
    }
}

/// Adds inputs one after the other.
pub open spec fn add_inputs(disk: Disk, g: Gathered, flat: bool, inputs: Seq<Input>) -> Result<
    Gathered,
    Failure,
>
    decreases inputs.len(),
{
    if inputs.len() == 0 {
        Ok(g)
    } else {
        match add_inputs(disk, g, flat, inputs.drop_last()) {
            Err(f) => Err(f),
            Ok(h) => add_input(disk, h, flat, inputs.last()),
        }
    }
}

// ---------------------------------------------------------------------------
// the walk over the same file system
// ---------------------------------------------------------------------------

/// The next outcome of a walk over a file system; nothing where the next input
/// is due.
pub open spec fn answers(disk: Disk) -> spec_fn(WalkView) -> Option<Result<WalkView, Failure>> {
    |w: WalkView|
        match w.step() {
            Step::Input => None,
            Step::Resolve => Some(w.resolved((disk.resolve)(w.pending->0.path))),
            Step::List => Some(w.listed((disk.list)(w.pending->0.path))),
            Step::Stat => {
                let path = w.current->0.path;
                Some(w.stated((disk.is_dir)(path), (disk.len)(path)))
            },
        }
}

/// The walk through all inputs, with at most `n` answers to each.
pub open spec fn walked(disk: Disk, w: WalkView, inputs: Seq<Input>, n: nat) -> Result<
    WalkView,
    Failure,
>
    decreases inputs.len(),
{
    if inputs.len() == 0 {
        Ok(w)
    } else {
        match walked(disk, w, inputs.drop_last(), n) {
            Err(f) => Err(f),
            Ok(x) => after(answers(disk), given(disk, x, inputs.last()), n),
        }
    }
}

/// The walk with one more input.
pub open spec fn given(disk: Disk, w: WalkView, input: Input) -> Result<WalkView, Failure> {
    w.input(
        input.path,
        input.shown,
        input.name,
        (disk.is_dir)(input.path),
        (disk.len)(input.path),
    )
}

/// What the source directories in progress resolve to.
pub open spec fn canonicals(w: WalkView) -> Seq<Seq<u8>> {
    w.stack.map_values(|f: FrameView| f.canonical)
}

/// What a walk has gathered.
pub open spec fn gathered(w: WalkView) -> Gathered {
    Gathered { names: w.names, payload: w.payload }
}

/// A walk with something else gathered.
spec fn with_gathered(w: WalkView, g: Gathered) -> WalkView {
    WalkView { names: g.names, payload: g.payload, ..w }
}

/// The walk goes on where nothing is pending, or has failed.
spec fn goes_on(w: WalkView, r: Result<Gathered, Failure>) -> Result<WalkView, Failure> {
    match r {
        Ok(g) => with_gathered(w, g).advance(),
        Err(f) => Err(f),
    }
}

proof fn contents_lead(disk: Disk, w: WalkView)
    requires
        w.current is None,
        w.pending matches Some(p) && p.canonical is None,
        w.stack.len() <= NESTING_MAX,
    ensures
        ({
            let p = w.pending->0;
            comes_to(answers(disk),
                Ok(w),
                goes_on(
                    WalkView { pending: None, ..w },
                    add_contents(disk, gathered(w), p.dir, p.path, p.shown, canonicals(w)),
                ),
            )
        }),
    decreases NESTING_MAX + 2 - w.stack.len(), 0nat,
{
    let p = w.pending->0;
    let above = canonicals(w);
    let canonical = (disk.resolve)(p.path);
    let idle = WalkView { pending: None, ..w };
    comes_to_next(answers(disk), w, answers(disk)(w)->0);
    assert(above.contains(canonical) <==> exists|i: int|
        0 <= i < w.stack.len() && w.stack[i].canonical == canonical) by {
        if above.contains(canonical) {
            let i = choose|i: int| 0 <= i < above.len() && above[i] == canonical;
            assert(w.stack[i].canonical == canonical);
        }
        if exists|i: int| 0 <= i < w.stack.len() && w.stack[i].canonical == canonical {
            let i = choose|i: int| 0 <= i < w.stack.len() && w.stack[i].canonical == canonical;
            assert(above[i] == canonical);
        }
    }
    if !above.contains(canonical) {
        let x = WalkView {
            pending: Some(PendingView { canonical: Some(canonical), ..p }),
            ..w
        };
        assert(answers(disk)(w)->0 == Ok::<WalkView, Failure>(x));
        comes_to_next(answers(disk), x, answers(disk)(x)->0);
        let frame = FrameView {
            dir: p.dir,
            canonical,
            rest: sort_entries((disk.list)(p.path)),
        };
        let y = WalkView { stack: w.stack.push(frame), pending: None, ..w };
        assert(answers(disk)(x)->0 == y.advance());
        comes_to_further(answers(disk), Ok(w), Ok(x), y.advance());
        entries_lead(disk, y);
        assert(canonicals(y) =~= above.push(canonical));
        assert(y.stack.drop_last() =~= w.stack);
        let r = add_entries(disk, gathered(w), p.dir, frame.rest, above.push(canonical));
        assert(goes_on(WalkView { stack: y.stack.drop_last(), ..y }, r) == goes_on(idle, r));
        comes_to_further(answers(disk), Ok(w), y.advance(), goes_on(idle, r));
    }
}

proof fn entries_lead(disk: Disk, w: WalkView)
    requires
        w.current is None,
        w.pending is None,
        0 < w.stack.len() <= NESTING_MAX + 1,
    ensures
        ({
            let top = w.stack.last();
            comes_to(answers(disk),
                w.advance(),
                goes_on(
                    WalkView { stack: w.stack.drop_last(), ..w },
                    add_entries(disk, gathered(w), top.dir, top.rest, canonicals(w)),
                ),
            )
        }),
    decreases NESTING_MAX + 2 - w.stack.len(), w.stack.last().rest.len(),
{
    let top = w.stack.last();
    let above = canonicals(w);
    let below = WalkView { stack: w.stack.drop_last(), ..w };
    if top.rest.len() == 0 {
        assert(with_gathered(below, gathered(w)) == below);
        comes_to_itself(answers(disk), w.advance());
    } else {
        let e = top.rest[0];
        let shorter = FrameView { rest: top.rest.drop_first(), ..top };
        let stack = w.stack.drop_last().push(shorter);
        match reserving(w.names, w.payload.dirs[top.dir as int].path, e.name, e.shown) {
            Err(f) => {
                comes_to_itself(answers(disk), w.advance());
            },
            Ok(names) => {
                let x = WalkView { names, stack, current: Some(e), ..w };
                assert(w.advance() == Ok::<WalkView, Failure>(x));
                comes_to_next(answers(disk), x, answers(disk)(x)->0);
                assert(stack.last() == shorter);
                assert(stack.drop_last() =~= w.stack.drop_last());
                assert forall|i: int| 0 <= i < stack.len() implies stack[i].canonical
                    == w.stack[i].canonical by {}
                if (disk.is_dir)(e.path) {
                    let g = Gathered {
                        names,
                        payload: w.payload.with_dir(top.dir as int, e.name),
                    };
                    let next = w.payload.dirs.len() as usize;
                    let y = WalkView { names, payload: g.payload, stack, ..w };
                    let r = add_contents(disk, g, next, e.path, e.shown, above);
                    assert(canonicals(y) =~= above);
                    if stack.len() <= NESTING_MAX {
                        let z = WalkView {
                            pending: Some(
                                PendingView {
                                    dir: next,
                                    path: e.path,
                                    shown: e.shown,
                                    canonical: None,
                                },
                            ),
                            ..y
                        };
                        assert(answers(disk)(x)->0 == Ok::<WalkView, Failure>(z));
                        contents_lead(disk, z);
                        assert(WalkView { pending: None, ..z } == y);
                        assert(canonicals(z) =~= above);
                        comes_to_further(answers(disk), Ok(x), Ok(z), goes_on(y, r));
                        if let Ok(h) = r {
                            let v = with_gathered(y, h);
                            entries_lead(disk, v);
                            assert(canonicals(v) =~= above);
                            let s = add_entries(disk, h, top.dir, shorter.rest, above);
                            assert(WalkView { stack: v.stack.drop_last(), ..v } == with_gathered(
                                below,
                                h,
                            ));
                            assert(goes_on(WalkView { stack: v.stack.drop_last(), ..v }, s)
                                == goes_on(below, s));
                            comes_to_further(answers(disk), Ok(x), v.advance(), goes_on(below, s));
                        }
                    } else {
                        assert(answers(disk)(x)->0 == Err::<WalkView, Failure>(
                            Failure::TooDeep { dir: e.shown },
                        ));
                    }
                } else {
                    let payload = w.payload.with_file(
                        top.dir as int,
                        e.name,
                        e.path,
                        (disk.len)(e.path),
                    );
                    let y = WalkView { names, payload, stack, ..w };
                    assert(answers(disk)(x)->0 == y.advance());
                    entries_lead(disk, y);
                    assert(canonicals(y) =~= above);
                    let s = add_entries(disk, gathered(y), top.dir, shorter.rest, above);
                    assert(goes_on(WalkView { stack: y.stack.drop_last(), ..y }, s) == goes_on(
                        below,
                        s,
                    ));
                    comes_to_further(answers(disk), Ok(x), y.advance(), goes_on(below, s));
                }
            },
        }
    }
}

/// A walk between two inputs that has gathered `g`.
pub open spec fn between_inputs(flat: bool, g: Gathered) -> WalkView {
    WalkView {
        flat,
        names: g.names,
        payload: g.payload,
        stack: Seq::empty(),
        pending: None,
        current: None,
    }
}

/// The walk that comes of what was gathered, or of a failure.
pub open spec fn outcome(flat: bool, r: Result<Gathered, Failure>) -> Result<WalkView, Failure> {
    match r {
        Ok(g) => Ok(between_inputs(flat, g)),
        Err(f) => Err(f),
    }
}

proof fn input_leads(disk: Disk, flat: bool, g: Gathered, input: Input)
    ensures
        comes_to(answers(disk),
            given(disk, between_inputs(flat, g), input),
            outcome(flat, add_input(disk, g, flat, input)),
        ),
{
    let w = between_inputs(flat, g);
    assert(canonicals(w) =~= Seq::<Seq<u8>>::empty());
    let root = g.payload.dirs[0].path;
    let merged = flat || input.name is None || input.name == Some("."@) || input.name == Some(
        ".."@,
    );
    if !(disk.is_dir)(input.path) {
        comes_to_itself(answers(disk), given(disk, w, input));
    } else if merged {
        let p = PendingView {
            dir: 0,
            path: input.path,
            shown: input.shown,
            canonical: None,
        };
        let z = WalkView { pending: Some(p), ..w };
        contents_lead(disk, z);
        assert(canonicals(z) =~= Seq::<Seq<u8>>::empty());
        assert(WalkView { pending: None, ..z } == w);
        let r = add_contents(disk, g, 0, input.path, input.shown, Seq::empty());
        assert(goes_on(w, r) == outcome(flat, r));
    } else {
        let n = input.name->0;
        match reserving(g.names, root, n, input.shown) {
            Err(f) => {
                comes_to_itself(answers(disk), given(disk, w, input));
            },
            Ok(names) => {
                let h = Gathered { names, payload: g.payload.with_dir(0, n) };
                let p = PendingView {
                    dir: g.payload.dirs.len() as usize,
                    path: input.path,
                    shown: input.shown,
                    canonical: None,
                };
                let z = WalkView { pending: Some(p), ..between_inputs(flat, h) };
                contents_lead(disk, z);
                assert(canonicals(z) =~= Seq::<Seq<u8>>::empty());
                assert(WalkView { pending: None, ..z } == between_inputs(flat, h));
                let r = add_contents(disk, h, p.dir, input.path, input.shown, Seq::empty());
                assert(goes_on(between_inputs(flat, h), r) == outcome(flat, r));
            },
        }
    }
}

/// Enough answers for an input are as good as more.
proof fn input_ends(disk: Disk, flat: bool, g: Gathered, input: Input) -> (n: nat)
    ensures
        forall|k: nat|
            k >= n ==> #[trigger] after(answers(disk), given(disk, between_inputs(flat, g), input), k)
                == outcome(flat, add_input(disk, g, flat, input)),
{
    input_leads(disk, flat, g, input);
    comes_to_rest(
        answers(disk),
        given(disk, between_inputs(flat, g), input),
        outcome(flat, add_input(disk, g, flat, input)),
    )
}

/// From `n` answers to each input on, the walk comes to what the recursion
/// gathers, or to its failure.
pub open spec fn ends_by(disk: Disk, flat: bool, inputs: Seq<Input>, n: nat) -> bool {
    forall|k: nat|
        k >= n ==> #[trigger] walked(disk, WalkView::start(flat), inputs, k) == outcome(
            flat,
            add_inputs(disk, gathered(WalkView::start(flat)), flat, inputs),
        )
}

/// The number of answers from which on a walk does not change any more.
proof fn inputs_end(disk: Disk, flat: bool, inputs: Seq<Input>) -> (n: nat)
    ensures
        ends_by(disk, flat, inputs, n),
    decreases inputs.len(),
{
    let start = WalkView::start(flat);
    if inputs.len() == 0 {
        0
    } else {
        let less = inputs.drop_last();
        let a = inputs_end(disk, flat, less);
        match add_inputs(disk, gathered(start), flat, less) {
            Err(f) => {
                assert forall|k: nat| k >= a implies #[trigger] walked(disk, start, inputs, k)
                    == outcome(flat, add_inputs(disk, gathered(start), flat, inputs)) by {
                    assert(walked(disk, start, less, k) == Err::<WalkView, Failure>(f));
                }
                a
            },
            Ok(g) => {
                let b = input_ends(disk, flat, g, inputs.last());
                let n = a + b;
                assert forall|k: nat| k >= n implies #[trigger] walked(disk, start, inputs, k)
                    == outcome(flat, add_inputs(disk, gathered(start), flat, inputs)) by {
                    assert(walked(disk, start, less, k) == Ok::<WalkView, Failure>(
                        between_inputs(flat, g),
                    ));
                    assert(after(answers(disk), given(disk, between_inputs(flat, g), inputs.last()), k)
                        == outcome(flat, add_input(disk, g, flat, inputs.last())));
                }
                n
            },
        }
    }
}

/// The walk through all inputs ends, and comes to what the recursion over the
/// directories gathers, or to its failure.
pub proof fn walk_is_recursion(disk: Disk, flat: bool, inputs: Seq<Input>)
    ensures
        exists|n: nat| ends_by(disk, flat, inputs, n),
{
    let n = inputs_end(disk, flat, inputs);
}

} // verus!
