//! Orders in which the nodes of a tree are visited.
//!
//! A tree is given by the function that lists the successors of a node.
//! Every traversal carries a bound on the number of levels it follows; on a
//! tree whose depth stays below the bound the bound does not matter.
use vstd::prelude::*;
use crate::order::{ascending, lex_le};

verus! {

/// The nodes below the list `ds`, parents before their children: each node of
/// the list, directly followed by everything below it.
pub open spec fn preorder(
    next: spec_fn(usize) -> Seq<usize>,
    ds: Seq<usize>,
    fuel: nat,
) -> Seq<usize>
    decreases fuel, ds.len(),
{
    if fuel == 0 || ds.len() == 0 {
        Seq::empty()
    } else {
        seq![ds[0]] + preorder(next, next(ds[0]), (fuel - 1) as nat) + preorder(
            next,
            ds.drop_first(),
            fuel,
        )
    }
}

/// The successors of all nodes of a list, in the order of the list.
pub open spec fn successors(next: spec_fn(usize) -> Seq<usize>, ds: Seq<usize>) -> Seq<usize>
    decreases ds.len(),
{
    if ds.len() == 0 {
        Seq::empty()
    } else {
        successors(next, ds.drop_last()) + next(ds.last())
    }
}

/// The nodes below the list `level`, level by level.
pub open spec fn level_order(
    next: spec_fn(usize) -> Seq<usize>,
    level: Seq<usize>,
    fuel: nat,
) -> Seq<usize>
    decreases fuel,
{
    if fuel == 0 || level.len() == 0 {
        Seq::empty()
    } else {
        level + level_order(next, successors(next, level), (fuel - 1) as nat)
    }
}

/// The node reached from `x` by `k` steps to the parent.
pub open spec fn ancestor(parent: spec_fn(usize) -> usize, x: usize, k: nat) -> usize
    decreases k,
{
    if k == 0 {
        x
    } else {
        parent(ancestor(parent, x, (k - 1) as nat))
    }
}

/// The nodes of `live` form trees: the successors of a live node are live,
/// one level deeper, listed once, and name that node as their parent; `depth`
/// stays below `n`.
pub open spec fn forest(
    next: spec_fn(usize) -> Seq<usize>,
    parent: spec_fn(usize) -> usize,
    live: Set<usize>,
    depth: spec_fn(usize) -> nat,
    n: nat,
) -> bool {
    &&& forall|d: usize| #[trigger] live.contains(d) ==> depth(d) < n && next(d).no_duplicates()
    &&& forall|d: usize, c: usize|
        live.contains(d) && #[trigger] next(d).contains(c) ==> live.contains(c) && depth(c) == depth(
            d,
        ) + 1 && parent(c) == d
}

/// Every node of a list is live.
pub open spec fn all_live(live: Set<usize>, ds: Seq<usize>) -> bool {
    forall|i: int| 0 <= i < ds.len() ==> live.contains(#[trigger] ds[i])
}

/// Every node of a list has depth `k`.
pub open spec fn at_depth(depth: spec_fn(usize) -> nat, ds: Seq<usize>, k: nat) -> bool {
    forall|i: int| 0 <= i < ds.len() ==> depth(#[trigger] ds[i]) == k
}

/// Two bounds above the depth of a forest give the same preorder.
pub proof fn preorder_fuel(
    next: spec_fn(usize) -> Seq<usize>,
    parent: spec_fn(usize) -> usize,
    live: Set<usize>,
    depth: spec_fn(usize) -> nat,
    n: nat,
    ds: Seq<usize>,
    f: nat,
    g: nat,
)
    requires
        forest(next, parent, live, depth, n),
        all_live(live, ds),
        forall|i: int| 0 <= i < ds.len() ==> f + depth(#[trigger] ds[i]) >= n,
        forall|i: int| 0 <= i < ds.len() ==> g + depth(#[trigger] ds[i]) >= n,
    ensures
        preorder(next, ds, f) == preorder(next, ds, g),
    decreases f, ds.len(),
{
    if ds.len() > 0 {
        let d = ds[0];
        assert(live.contains(d));
        let kids = next(d);
        let rest = ds.drop_first();
        assert(forall|i: int| 0 <= i < rest.len() ==> rest[i] == ds[i + 1]);
        if f > 0 && g > 0 {
            assert forall|i: int| 0 <= i < kids.len() implies live.contains(#[trigger] kids[i])
                && depth(kids[i]) == depth(d) + 1 by {
                assert(kids.contains(kids[i]));
            }
            preorder_fuel(next, parent, live, depth, n, kids, (f - 1) as nat, (g - 1) as nat);
            preorder_fuel(next, parent, live, depth, n, rest, f, g);
        }
    }
}

/// The preorder of a list of nodes falls apart into that of its parts.
pub proof fn preorder_append(
    next: spec_fn(usize) -> Seq<usize>,
    a: Seq<usize>,
    b: Seq<usize>,
    f: nat,
)
    ensures
        preorder(next, a + b, f) == preorder(next, a, f) + preorder(next, b, f),
    decreases a.len(),
{
    if f == 0 {
        assert(preorder(next, a, f) + preorder(next, b, f) =~= Seq::<usize>::empty());
    } else if a.len() == 0 {
        assert(a + b =~= b);
        assert(preorder(next, a, f) + preorder(next, b, f) =~= preorder(next, b, f));
    } else {
        preorder_append(next, a.drop_first(), b, f);
        assert((a + b).drop_first() =~= a.drop_first() + b);
        assert((a + b)[0] == a[0]);
        let below = seq![a[0]] + preorder(next, next(a[0]), (f - 1) as nat);
        assert(preorder(next, a + b, f) =~= below + preorder(next, a.drop_first() + b, f));
        assert(preorder(next, a, f) =~= below + preorder(next, a.drop_first(), f));
        assert(preorder(next, a + b, f) =~= preorder(next, a, f) + preorder(next, b, f));
    }
}

/// Visiting the first node of a list replaces it by its successors.
pub proof fn preorder_step(
    next: spec_fn(usize) -> Seq<usize>,
    parent: spec_fn(usize) -> usize,
    live: Set<usize>,
    depth: spec_fn(usize) -> nat,
    n: nat,
    ds: Seq<usize>,
)
    requires
        forest(next, parent, live, depth, n),
        all_live(live, ds),
        ds.len() > 0,
    ensures
        preorder(next, ds, n) == seq![ds[0]] + preorder(next, next(ds[0]) + ds.drop_first(), n),
        all_live(live, next(ds[0]) + ds.drop_first()),
{
    let d = ds[0];
    assert(live.contains(d));
    let kids = next(d);
    let rest = ds.drop_first();
    assert(forall|i: int| 0 <= i < rest.len() ==> rest[i] == ds[i + 1]);
    assert forall|i: int| 0 <= i < kids.len() implies live.contains(#[trigger] kids[i]) && depth(
        kids[i],
    ) == depth(d) + 1 by {
        assert(kids.contains(kids[i]));
    }
    preorder_fuel(next, parent, live, depth, n, kids, (n - 1) as nat, n);
    preorder_append(next, kids, rest, n);
    assert(preorder(next, ds, n) =~= seq![d] + (preorder(next, kids, n) + preorder(
        next,
        rest,
        n,
    )));
}

/// Every visited node is live and lies below a node of the list.
pub proof fn preorder_members(
    next: spec_fn(usize) -> Seq<usize>,
    parent: spec_fn(usize) -> usize,
    live: Set<usize>,
    depth: spec_fn(usize) -> nat,
    n: nat,
    ds: Seq<usize>,
    f: nat,
    k: nat,
    x: usize,
)
    requires
        forest(next, parent, live, depth, n),
        all_live(live, ds),
        at_depth(depth, ds, k),
        preorder(next, ds, f).contains(x),
    ensures
        live.contains(x),
        depth(x) >= k,
        ds.contains(ancestor(parent, x, (depth(x) - k) as nat)),
    decreases f, ds.len(),
{
    let order = preorder(next, ds, f);
    let i = choose|i: int| 0 <= i < order.len() && order[i] == x;
    let d = ds[0];
    assert(live.contains(d));
    let kids = next(d);
    let rest = ds.drop_first();
    let below = preorder(next, kids, (f - 1) as nat);
    if i == 0 {
        assert(x == d);
        assert(ancestor(parent, x, 0) == x);
    } else if i < 1 + below.len() {
        assert(below[i - 1] == x);
        assert forall|j: int| 0 <= j < kids.len() implies live.contains(#[trigger] kids[j])
            && depth(kids[j]) == k + 1 by {
            assert(kids.contains(kids[j]));
        }
        preorder_members(next, parent, live, depth, n, kids, (f - 1) as nat, k + 1, x);
        let a = ancestor(parent, x, (depth(x) - (k + 1)) as nat);
        assert(kids.contains(a));
        assert(parent(a) == d);
    } else {
        let after = preorder(next, rest, f);
        assert(after[i - 1 - below.len()] == x);
        assert(forall|j: int| 0 <= j < rest.len() ==> rest[j] == ds[j + 1]);
        preorder_members(next, parent, live, depth, n, rest, f, k, x);
        let a = ancestor(parent, x, (depth(x) - k) as nat);
        let j = choose|j: int| 0 <= j < rest.len() && rest[j] == a;
        assert(ds[j + 1] == a);
    }
}

/// Nothing is visited twice.
pub proof fn preorder_no_duplicates(
    next: spec_fn(usize) -> Seq<usize>,
    parent: spec_fn(usize) -> usize,
    live: Set<usize>,
    depth: spec_fn(usize) -> nat,
    n: nat,
    ds: Seq<usize>,
    f: nat,
    k: nat,
)
    requires
        forest(next, parent, live, depth, n),
        all_live(live, ds),
        at_depth(depth, ds, k),
        ds.no_duplicates(),
    ensures
        preorder(next, ds, f).no_duplicates(),
    decreases f, ds.len(),
{
    if f > 0 && ds.len() > 0 {
        let d = ds[0];
        assert(live.contains(d));
        let kids = next(d);
        let rest = ds.drop_first();
        assert(forall|j: int| 0 <= j < rest.len() ==> rest[j] == ds[j + 1]);
        assert forall|j: int| 0 <= j < kids.len() implies live.contains(#[trigger] kids[j])
            && depth(kids[j]) == k + 1 by {
            assert(kids.contains(kids[j]));
        }
        let below = preorder(next, kids, (f - 1) as nat);
        let after = preorder(next, rest, f);
        preorder_no_duplicates(next, parent, live, depth, n, kids, (f - 1) as nat, k + 1);
        preorder_no_duplicates(next, parent, live, depth, n, rest, f, k);
        assert forall|x: usize| below.contains(x) implies depth(x) > k && ancestor(
            parent,
            x,
            (depth(x) - k) as nat,
        ) == d by {
            preorder_members(next, parent, live, depth, n, kids, (f - 1) as nat, k + 1, x);
            let a = ancestor(parent, x, (depth(x) - (k + 1)) as nat);
            assert(kids.contains(a));
            assert(parent(a) == d);
        }
        assert forall|x: usize| after.contains(x) implies depth(x) >= k && ancestor(
            parent,
            x,
            (depth(x) - k) as nat,
        ) != d by {
            preorder_members(next, parent, live, depth, n, rest, f, k, x);
            let a = ancestor(parent, x, (depth(x) - k) as nat);
            let j = choose|j: int| 0 <= j < rest.len() && rest[j] == a;
            assert(ds[j + 1] == a);
        }
        assert(ancestor(parent, d, 0) == d);
        let order = preorder(next, ds, f);
        assert(order == seq![d] + below + after);
        assert forall|i: int, j: int| 0 <= i < j < order.len() implies order[i] != order[j] by {
            if i == 0 {
                if j < 1 + below.len() {
                    assert(below.contains(below[j - 1]));
                } else {
                    assert(after.contains(after[j - 1 - below.len()]));
                }
            } else if j < 1 + below.len() {
                assert(below[i - 1] != below[j - 1]);
            } else if i < 1 + below.len() {
                assert(below.contains(below[i - 1]));
                assert(after.contains(after[j - 1 - below.len()]));
            } else {
                assert(after[i - 1 - below.len()] != after[j - 1 - below.len()]);
            }
        }
    }
}

/// The successors of every visited node are visited, after it.
pub proof fn preorder_closed(
    next: spec_fn(usize) -> Seq<usize>,
    parent: spec_fn(usize) -> usize,
    live: Set<usize>,
    depth: spec_fn(usize) -> nat,
    n: nat,
    ds: Seq<usize>,
    f: nat,
    i: int,
    c: usize,
)
    requires
        forest(next, parent, live, depth, n),
        all_live(live, ds),
        forall|i: int| 0 <= i < ds.len() ==> f + depth(#[trigger] ds[i]) >= n,
        0 <= i < preorder(next, ds, f).len(),
        next(preorder(next, ds, f)[i]).contains(c),
    ensures
        exists|j: int| i < j < preorder(next, ds, f).len() && preorder(next, ds, f)[j] == c,
    decreases f, ds.len(),
{
    let order = preorder(next, ds, f);
    let d = ds[0];
    assert(live.contains(d));
    let kids = next(d);
    let rest = ds.drop_first();
    let below = preorder(next, kids, (f - 1) as nat);
    let after = preorder(next, rest, f);
    assert(order == seq![d] + below + after);
    assert forall|j: int| 0 <= j < kids.len() implies live.contains(#[trigger] kids[j]) && depth(
        kids[j],
    ) == depth(d) + 1 by {
        assert(kids.contains(kids[j]));
    }
    assert(forall|j: int| 0 <= j < rest.len() ==> rest[j] == ds[j + 1]);
    if i == 0 {
        preorder_lists(next, kids, (f - 1) as nat, c);
        let j = choose|j: int| 0 <= j < below.len() && below[j] == c;
        assert(order[j + 1] == c);
    } else if i < 1 + below.len() {
        assert(below[i - 1] == order[i]);
        preorder_closed(next, parent, live, depth, n, kids, (f - 1) as nat, i - 1, c);
        let j = choose|j: int| i - 1 < j < below.len() && below[j] == c;
        assert(order[j + 1] == c);
    } else {
        let s = 1 + below.len() as int;
        assert(after[i - s] == order[i]);
        preorder_closed(next, parent, live, depth, n, rest, f, i - s, c);
        let j = choose|j: int| i - s < j < after.len() && after[j] == c;
        assert(order[j + s] == c);
    }
}

/// Every node of the list itself is visited.
pub proof fn preorder_lists(
    next: spec_fn(usize) -> Seq<usize>,
    ds: Seq<usize>,
    f: nat,
    x: usize,
)
    requires
        f > 0,
        ds.contains(x),
    ensures
        preorder(next, ds, f).contains(x),
    decreases ds.len(),
{
    let order = preorder(next, ds, f);
    let rest = ds.drop_first();
    let below = preorder(next, next(ds[0]), (f - 1) as nat);
    let after = preorder(next, rest, f);
    assert(order == seq![ds[0]] + below + after);
    let i = choose|i: int| 0 <= i < ds.len() && ds[i] == x;
    if i == 0 {
        assert(order[0] == x);
    } else {
        assert(rest[i - 1] == x);
        preorder_lists(next, rest, f, x);
        let j = choose|j: int| 0 <= j < after.len() && after[j] == x;
        assert(order[1 + below.len() + j] == x);
    }
}

/// Every visited node is on the list or a successor of a visited node.
pub proof fn preorder_lister(
    next: spec_fn(usize) -> Seq<usize>,
    ds: Seq<usize>,
    f: nat,
    x: usize,
)
    requires
        preorder(next, ds, f).contains(x),
    ensures
        ds.contains(x) || exists|d: usize|
            preorder(next, ds, f).contains(d) && #[trigger] next(d).contains(x),
    decreases f, ds.len(),
{
    let order = preorder(next, ds, f);
    let rest = ds.drop_first();
    let below = preorder(next, next(ds[0]), (f - 1) as nat);
    let after = preorder(next, rest, f);
    assert(order == seq![ds[0]] + below + after);
    assert(order[0] == ds[0]);
    let i = choose|i: int| 0 <= i < order.len() && order[i] == x;
    if i == 0 {
        assert(ds[0] == x);
    } else if i < 1 + below.len() {
        assert(below[i - 1] == x);
        preorder_lister(next, next(ds[0]), (f - 1) as nat, x);
        if !next(ds[0]).contains(x) {
            let d = choose|d: usize| below.contains(d) && #[trigger] next(d).contains(x);
            let j = choose|j: int| 0 <= j < below.len() && below[j] == d;
            assert(order[j + 1] == d);
        }
    } else {
        assert(after[i - 1 - below.len()] == x);
        preorder_lister(next, rest, f, x);
        if rest.contains(x) {
            let j = choose|j: int| 0 <= j < rest.len() && rest[j] == x;
            assert(ds[j + 1] == x);
        } else {
            let d = choose|d: usize| after.contains(d) && #[trigger] next(d).contains(x);
            let j = choose|j: int| 0 <= j < after.len() && after[j] == d;
            assert(order[1 + below.len() + j] == d);
        }
    }
}

// ---------------------------------------------------------------------------
// level by level
// ---------------------------------------------------------------------------

/// A node is a successor of a list exactly if some node of the list has it as
/// a successor.
pub proof fn successors_members(
    next: spec_fn(usize) -> Seq<usize>,
    ds: Seq<usize>,
    c: usize,
)
    ensures
        successors(next, ds).contains(c) <==> exists|i: int|
            0 <= i < ds.len() && (#[trigger] next(ds[i])).contains(c),
    decreases ds.len(),
{
    if ds.len() == 0 {
    } else {
        let init = ds.drop_last();
        let head = successors(next, init);
        let tail = next(ds.last());
        successors_members(next, init, c);
        assert(successors(next, ds) == head + tail);
        if successors(next, ds).contains(c) {
            let i = choose|i: int| 0 <= i < (head + tail).len() && (head + tail)[i] == c;
            if i < head.len() {
                assert(head[i] == c);
                let j = choose|j: int| 0 <= j < init.len() && (#[trigger] next(init[j])).contains(c);
                assert(next(ds[j]).contains(c));
            } else {
                assert(tail[i - head.len()] == c);
                assert(next(ds[ds.len() - 1]).contains(c));
            }
        }
        if exists|i: int| 0 <= i < ds.len() && (#[trigger] next(ds[i])).contains(c) {
            let i = choose|i: int| 0 <= i < ds.len() && (#[trigger] next(ds[i])).contains(c);
            if i < init.len() {
                assert(next(init[i]).contains(c));
                let j = choose|j: int| 0 <= j < head.len() && head[j] == c;
                assert((head + tail)[j] == c);
            } else {
                let j = choose|j: int| 0 <= j < tail.len() && tail[j] == c;
                assert((head + tail)[head.len() + j] == c);
            }
        }
    }
}

/// The successors of one level of a forest are live, one level deeper and
/// listed once.
pub proof fn successors_level(
    next: spec_fn(usize) -> Seq<usize>,
    parent: spec_fn(usize) -> usize,
    live: Set<usize>,
    depth: spec_fn(usize) -> nat,
    n: nat,
    ds: Seq<usize>,
    k: nat,
)
    requires
        forest(next, parent, live, depth, n),
        all_live(live, ds),
        at_depth(depth, ds, k),
        ds.no_duplicates(),
    ensures
        all_live(live, successors(next, ds)),
        at_depth(depth, successors(next, ds), k + 1),
        successors(next, ds).no_duplicates(),
        forall|c: usize| #[trigger]
            successors(next, ds).contains(c) ==> ds.contains(parent(c)),
    decreases ds.len(),
{
    let all = successors(next, ds);
    assert forall|c: usize| #[trigger] all.contains(c) implies live.contains(c) && depth(c) == k + 1
        && ds.contains(parent(c)) by {
        successors_members(next, ds, c);
        let i = choose|i: int| 0 <= i < ds.len() && (#[trigger] next(ds[i])).contains(c);
        assert(live.contains(ds[i]));
        assert(ds.contains(ds[i]));
    }
    assert forall|i: int| 0 <= i < all.len() implies live.contains(#[trigger] all[i]) && depth(
        all[i],
    ) == k + 1 by {
        assert(all.contains(all[i]));
    }
    if ds.len() > 0 {
        let init = ds.drop_last();
        let head = successors(next, init);
        let tail = next(ds.last());
        assert(live.contains(ds[ds.len() - 1]));
        successors_level(next, parent, live, depth, n, init, k);
        assert forall|i: int, j: int| 0 <= i < j < all.len() implies all[i] != all[j] by {
            if j < head.len() {
                assert(head[i] != head[j]);
            } else if i >= head.len() {
                assert(tail[i - head.len()] != tail[j - head.len()]);
            } else {
                assert(head.contains(head[i]));
                assert(init.contains(parent(head[i])));
                let m = choose|m: int| 0 <= m < init.len() && init[m] == parent(head[i]);
                assert(ds[m] == parent(head[i]));
                assert(tail.contains(tail[j - head.len()]));
                assert(parent(tail[j - head.len()]) == ds.last());
            }
        }
    }
}

/// Every node of a level order is live and lies at or below the first level.
pub proof fn level_order_members(
    next: spec_fn(usize) -> Seq<usize>,
    parent: spec_fn(usize) -> usize,
    live: Set<usize>,
    depth: spec_fn(usize) -> nat,
    n: nat,
    level: Seq<usize>,
    f: nat,
    k: nat,
)
    requires
        forest(next, parent, live, depth, n),
        all_live(live, level),
        at_depth(depth, level, k),
        level.no_duplicates(),
    ensures
        forall|i: int|
            0 <= i < level_order(next, level, f).len() ==> {
                &&& live.contains(#[trigger] level_order(next, level, f)[i])
                &&& depth(level_order(next, level, f)[i]) >= k
            },
        level_order(next, level, f).no_duplicates(),
    decreases f,
{
    if f > 0 && level.len() > 0 {
        let deeper = successors(next, level);
        successors_level(next, parent, live, depth, n, level, k);
        level_order_members(next, parent, live, depth, n, deeper, (f - 1) as nat, k + 1);
        let tail = level_order(next, deeper, (f - 1) as nat);
        let order = level_order(next, level, f);
        assert(order == level + tail);
        assert forall|i: int| 0 <= i < order.len() implies live.contains(#[trigger] order[i])
            && depth(order[i]) >= k by {
            if i < level.len() {
                assert(order[i] == level[i]);
            } else {
                assert(order[i] == tail[i - level.len()]);
            }
        }
        assert forall|i: int, j: int| 0 <= i < j < order.len() implies order[i] != order[j] by {
            if j < level.len() {
                assert(level[i] != level[j]);
            } else if i >= level.len() {
                assert(tail[i - level.len()] != tail[j - level.len()]);
            } else {
                assert(depth(level[i]) == k);
                assert(depth(tail[j - level.len()]) >= k + 1);
            }
        }
    }
}

/// In a level order the parent of every node behind the first level stands
/// before that node.
pub proof fn level_order_parents(
    next: spec_fn(usize) -> Seq<usize>,
    parent: spec_fn(usize) -> usize,
    live: Set<usize>,
    depth: spec_fn(usize) -> nat,
    n: nat,
    level: Seq<usize>,
    f: nat,
    k: nat,
    i: int,
) -> (j: int)
    requires
        forest(next, parent, live, depth, n),
        all_live(live, level),
        at_depth(depth, level, k),
        level.no_duplicates(),
        level.len() <= i < level_order(next, level, f).len(),
    ensures
        0 <= j < i,
        level_order(next, level, f)[j] == parent(level_order(next, level, f)[i]),
    decreases f,
{
    let deeper = successors(next, level);
    successors_level(next, parent, live, depth, n, level, k);
    let tail = level_order(next, deeper, (f - 1) as nat);
    let order = level_order(next, level, f);
    assert(order == level + tail);
    let s = level.len() as int;
    if i - s < deeper.len() {
        assert(tail[i - s] == deeper[i - s]);
        assert(deeper.contains(deeper[i - s]));
        let j = choose|j: int| 0 <= j < level.len() && level[j] == parent(deeper[i - s]);
        assert(order[j] == parent(order[i]));
        j
    } else {
        let j = level_order_parents(
            next,
            parent,
            live,
            depth,
            n,
            deeper,
            (f - 1) as nat,
            k + 1,
            i - s,
        );
        assert(order[j + s] == tail[j]);
        j + s
    }
}

/// The successors of every node of a level order stand in it, behind that node.
pub proof fn level_order_closed(
    next: spec_fn(usize) -> Seq<usize>,
    parent: spec_fn(usize) -> usize,
    live: Set<usize>,
    depth: spec_fn(usize) -> nat,
    n: nat,
    level: Seq<usize>,
    f: nat,
    k: nat,
    i: int,
    c: usize,
) -> (j: int)
    requires
        forest(next, parent, live, depth, n),
        all_live(live, level),
        at_depth(depth, level, k),
        level.no_duplicates(),
        f + k >= n,
        0 <= i < level_order(next, level, f).len(),
        next(level_order(next, level, f)[i]).contains(c),
    ensures
        i < j < level_order(next, level, f).len(),
        level_order(next, level, f)[j] == c,
    decreases f,
{
    let deeper = successors(next, level);
    successors_level(next, parent, live, depth, n, level, k);
    let tail = level_order(next, deeper, (f - 1) as nat);
    let order = level_order(next, level, f);
    assert(order == level + tail);
    let s = level.len() as int;
    if i < s {
        assert(next(level[i]).contains(c));
        successors_members(next, level, c);
        let j = choose|j: int| 0 <= j < deeper.len() && deeper[j] == c;
        assert(live.contains(deeper[j]));
        assert(depth(deeper[j]) == k + 1);
        assert(f - 1 > 0);
        assert(tail[j] == c);
        assert(order[s + j] == c);
        s + j
    } else {
        assert(order[i] == tail[i - s]);
        let j = level_order_closed(
            next,
            parent,
            live,
            depth,
            n,
            deeper,
            (f - 1) as nat,
            k + 1,
            i - s,
            c,
        );
        assert(order[s + j] == tail[j]);
        s + j
    }
}

// ---------------------------------------------------------------------------
// the order of a level order
// ---------------------------------------------------------------------------

/// Whether, from place `from` on, nodes stand in the order of their parents in
/// `ds`, and those of one parent in ascending order of their keys.
pub open spec fn by_parent(
    parent: spec_fn(usize) -> usize,
    key: spec_fn(usize) -> Seq<u8>,
    ds: Seq<usize>,
    list: Seq<usize>,
    from: int,
) -> bool {
    forall|i: int, j: int, a: int, b: int|
        #![trigger list[i], list[j], ds[a], ds[b]]
        from <= i <= j < list.len() && 0 <= a < ds.len() && 0 <= b < ds.len() && ds[a] == parent(
            list[i],
        ) && ds[b] == parent(list[j]) ==> a <= b && (a == b ==> lex_le(key(list[i]), key(list[j])))
}

/// The successors of the nodes of a list stand in the order of these, and those
/// of one node in the order in which it lists them.
pub proof fn successors_by_parent(
    next: spec_fn(usize) -> Seq<usize>,
    parent: spec_fn(usize) -> usize,
    key: spec_fn(usize) -> Seq<u8>,
    live: Set<usize>,
    depth: spec_fn(usize) -> nat,
    n: nat,
    ds: Seq<usize>,
)
    requires
        forest(next, parent, live, depth, n),
        all_live(live, ds),
        ds.no_duplicates(),
        forall|d: usize| #[trigger] live.contains(d) ==> ascending(next(d), key),
    ensures
        by_parent(parent, key, ds, successors(next, ds), 0),
    decreases ds.len(),
{
    if ds.len() > 0 {
        let init = ds.drop_last();
        let head = successors(next, init);
        let last = ds.last();
        let tail = next(last);
        let all = successors(next, ds);
        assert(all_live(live, init)) by {
            assert forall|i: int| 0 <= i < init.len() implies live.contains(#[trigger] init[i]) by {
                assert(init[i] == ds[i]);
            }
        }
        successors_by_parent(next, parent, key, live, depth, n, init);
        assert(live.contains(ds[ds.len() - 1]));
        assert forall|i: int, j: int, a: int, b: int|
            #![trigger all[i], all[j], ds[a], ds[b]]
            0 <= i <= j < all.len() && 0 <= a < ds.len() && 0 <= b < ds.len() && ds[a] == parent(
                all[i],
            ) && ds[b] == parent(all[j]) implies a <= b && (a == b ==> lex_le(
            key(all[i]),
            key(all[j]),
        )) by {
            let m = ds.len() - 1;
            if i < head.len() {
                let x = head_parent(next, parent, live, depth, n, init, i);
                assert(all[i] == head[i]);
                assert(ds[x] == ds[a]);
                assert(x == a);
                assert(init[a] == ds[a]);
            } else {
                assert(all[i] == tail[i - head.len()]);
                assert(tail.contains(tail[i - head.len()]));
                assert(parent(all[i]) == last);
                assert(ds[m] == ds[a]);
                assert(a == m);
            }
            if j < head.len() {
                let y = head_parent(next, parent, live, depth, n, init, j);
                assert(all[j] == head[j]);
                assert(ds[y] == ds[b]);
                assert(y == b);
                assert(init[b] == ds[b]);
                assert(by_parent(parent, key, init, head, 0));
                assert(head[i] == all[i] && head[j] == all[j]);
            } else {
                assert(all[j] == tail[j - head.len()]);
                assert(tail.contains(tail[j - head.len()]));
                assert(parent(all[j]) == last);
                assert(ds[m] == ds[b]);
                assert(b == m);
                if a == b {
                    assert(lex_le(key(tail[i - head.len()]), key(tail[j - head.len()])));
                }
            }
        }
    }
}

/// The parent of a successor stands in the list.
proof fn head_parent(
    next: spec_fn(usize) -> Seq<usize>,
    parent: spec_fn(usize) -> usize,
    live: Set<usize>,
    depth: spec_fn(usize) -> nat,
    n: nat,
    ds: Seq<usize>,
    i: int,
) -> (x: int)
    requires
        forest(next, parent, live, depth, n),
        all_live(live, ds),
        0 <= i < successors(next, ds).len(),
    ensures
        0 <= x < ds.len(),
        ds[x] == parent(successors(next, ds)[i]),
{
    let c = successors(next, ds)[i];
    assert(successors(next, ds).contains(c));
    successors_members(next, ds, c);
    let x = choose|x: int| 0 <= x < ds.len() && (#[trigger] next(ds[x])).contains(c);
    assert(live.contains(ds[x]));
    x
}

/// In a level order, nodes behind the first level stand in the order of their
/// parents, and those of one parent in the order in which it lists them.
pub proof fn level_order_by_parent(
    next: spec_fn(usize) -> Seq<usize>,
    parent: spec_fn(usize) -> usize,
    key: spec_fn(usize) -> Seq<u8>,
    live: Set<usize>,
    depth: spec_fn(usize) -> nat,
    n: nat,
    level: Seq<usize>,
    f: nat,
    k: nat,
)
    requires
        forest(next, parent, live, depth, n),
        all_live(live, level),
        at_depth(depth, level, k),
        level.no_duplicates(),
        forall|d: usize| #[trigger] live.contains(d) ==> ascending(next(d), key),
    ensures
        by_parent(
            parent,
            key,
            level_order(next, level, f),
            level_order(next, level, f),
            level.len() as int,
        ),
    decreases f,
{
    if f > 0 && level.len() > 0 {
        let deeper = successors(next, level);
        let tail = level_order(next, deeper, (f - 1) as nat);
        let order = level_order(next, level, f);
        let s = level.len() as int;
        successors_level(next, parent, live, depth, n, level, k);
        successors_by_parent(next, parent, key, live, depth, n, level);
        level_order_by_parent(next, parent, key, live, depth, n, deeper, (f - 1) as nat, k + 1);
        level_order_members(next, parent, live, depth, n, level, f, k);
        assert(order == level + tail);
        assert forall|i: int, j: int, a: int, b: int|
            #![trigger order[i], order[j], order[a], order[b]]
            s <= i <= j < order.len() && 0 <= a < order.len() && 0 <= b < order.len() && order[a]
                == parent(order[i]) && order[b] == parent(order[j]) implies a <= b && (a == b
            ==> lex_le(key(order[i]), key(order[j]))) by {
            let p = i - s;
            let q = j - s;
            assert(order[i] == tail[p] && order[j] == tail[q]);
            if p < deeper.len() {
                assert(tail[p] == deeper[p]);
                let x = head_parent(next, parent, live, depth, n, level, p);
                assert(order[x] == level[x]);
                assert(x == a);
            } else {
                let x = level_order_parents(
                    next,
                    parent,
                    live,
                    depth,
                    n,
                    deeper,
                    (f - 1) as nat,
                    k + 1,
                    p,
                );
                assert(order[x + s] == tail[x]);
                assert(x + s == a);
            }
            if q < deeper.len() {
                assert(tail[q] == deeper[q]);
                let y = head_parent(next, parent, live, depth, n, level, q);
                assert(order[y] == level[y]);
                assert(y == b);
                assert(level[a] == parent(deeper[p]) && level[b] == parent(deeper[q]));
                assert(by_parent(parent, key, level, deeper, 0));
            } else {
                let y = level_order_parents(
                    next,
                    parent,
                    live,
                    depth,
                    n,
                    deeper,
                    (f - 1) as nat,
                    k + 1,
                    q,
                );
                assert(order[y + s] == tail[y]);
                assert(y + s == b);
                if p >= deeper.len() {
                    assert(tail[a - s] == parent(tail[p]) && tail[b - s] == parent(tail[q]));
                }
            }
        }
    }
}

// ---------------------------------------------------------------------------
// the order of a preorder
// ---------------------------------------------------------------------------

/// Whether a node lies below `p`, or is `p`.
pub open spec fn climbs(parent: spec_fn(usize) -> usize, x: usize, p: usize) -> bool {
    exists|k: nat| #[trigger] ancestor(parent, x, k) == p
}

/// Whether nodes stand depth first: each is a successor of the node before it,
/// or of one that this lies below; and the successors of one node stand in
/// ascending order of their keys.
pub open spec fn depth_first(
    parent: spec_fn(usize) -> usize,
    key: spec_fn(usize) -> Seq<u8>,
    order: Seq<usize>,
) -> bool {
    &&& forall|i: int, j: int|
        #![trigger order[i], order[j]]
        0 <= i && j == i + 1 && j < order.len() ==> climbs(parent, order[i], parent(order[j]))
    &&& forall|i: int, j: int|
        #![trigger order[i], order[j]]
        0 <= i <= j < order.len() && parent(order[i]) == parent(order[j]) ==> lex_le(
            key(order[i]),
            key(order[j]),
        )
}

proof fn ancestor_of_parent(parent: spec_fn(usize) -> usize, x: usize, k: nat)
    ensures
        ancestor(parent, x, k + 1) == ancestor(parent, parent(x), k),
    decreases k,
{
    if k > 0 {
        ancestor_of_parent(parent, x, (k - 1) as nat);
    } else {
        assert(ancestor(parent, x, 0) == x);
        assert(ancestor(parent, x, 1) == parent(ancestor(parent, x, 0)));
    }
}

/// The preorder of the successors of a node stands depth first.
#[verifier::spinoff_prover]
#[verifier::rlimit(40)]
pub proof fn preorder_depth_first(
    next: spec_fn(usize) -> Seq<usize>,
    parent: spec_fn(usize) -> usize,
    key: spec_fn(usize) -> Seq<u8>,
    live: Set<usize>,
    depth: spec_fn(usize) -> nat,
    n: nat,
    ds: Seq<usize>,
    f: nat,
    p: usize,
)
    requires
        forest(next, parent, live, depth, n),
        all_live(live, ds),
        at_depth(depth, ds, depth(p) + 1),
        ds.no_duplicates(),
        ascending(ds, key),
        live.contains(p),
        forall|i: int| 0 <= i < ds.len() ==> parent(#[trigger] ds[i]) == p,
        forall|d: usize| #[trigger] live.contains(d) ==> ascending(next(d), key),
    ensures
        depth_first(parent, key, preorder(next, ds, f)),
        preorder(next, ds, f).len() > 0 ==> parent(preorder(next, ds, f)[0]) == p,
        forall|i: int|
            0 <= i < preorder(next, ds, f).len() ==> {
                let x = #[trigger] preorder(next, ds, f)[i];
                &&& climbs(parent, x, p)
                &&& depth(x) > depth(p)
                &&& depth(x) == depth(parent(x)) + 1
            },
    decreases f, ds.len(),
{
    let order = preorder(next, ds, f);
    if f > 0 && ds.len() > 0 {
        let d = ds[0];
        assert(live.contains(d));
        let k = depth(p) + 1;
        let kids = next(d);
        let rest = ds.drop_first();
        assert(forall|j: int| 0 <= j < rest.len() ==> #[trigger] rest[j] == ds[j + 1]);
        assert forall|j: int| 0 <= j < kids.len() implies live.contains(#[trigger] kids[j])
            && depth(kids[j]) == k + 1 && parent(kids[j]) == d by {
            assert(kids.contains(kids[j]));
        }
        assert(ascending(rest, key)) by {
            assert forall|i: int, j: int| 0 <= i <= j < rest.len() implies lex_le(
                key(rest[i]),
                key(rest[j]),
            ) by {
                assert(lex_le(key(ds[i + 1]), key(ds[j + 1])));
            }
        }
        let below = preorder(next, kids, (f - 1) as nat);
        let after = preorder(next, rest, f);
        preorder_depth_first(next, parent, key, live, depth, n, kids, (f - 1) as nat, d);
        preorder_depth_first(next, parent, key, live, depth, n, rest, f, p);
        let b = below.len() as int;
        assert(order == seq![d] + below + after);
        assert(order[0] == d);
        assert forall|i: int| 0 <= i < b implies #[trigger] order[i + 1] == below[i] by {}
        assert forall|i: int| 0 <= i < after.len() implies #[trigger] order[i + 1 + b] == after[i] by {}
        assert(ancestor(parent, d, 0) == d);
        assert(ancestor(parent, d, 1) == p) by {
            ancestor_of_parent(parent, d, 0);
            assert(ancestor(parent, p, 0) == p);
        }
        assert forall|x: usize| below.contains(x) implies climbs(parent, x, p) && depth(x) > k
            && ancestor(parent, x, (depth(x) - k) as nat) == d by {
            let i = choose|i: int| 0 <= i < below.len() && below[i] == x;
            assert(climbs(parent, below[i], d));
            let m = choose|m: nat| #[trigger] ancestor(parent, x, m) == d;
            assert(ancestor(parent, x, m + 1) == p);
            preorder_members(next, parent, live, depth, n, kids, (f - 1) as nat, k + 1, x);
            let a = ancestor(parent, x, (depth(x) - (k + 1)) as nat);
            assert(kids.contains(a));
            assert(parent(a) == d);
        }
        assert forall|i: int| 0 <= i < order.len() implies {
            let x = #[trigger] order[i];
            &&& climbs(parent, x, p)
            &&& depth(x) > depth(p)
            &&& depth(x) == depth(parent(x)) + 1
        } by {
            if 0 < i <= b {
                assert(order[i] == below[i - 1]);
                assert(below.contains(below[i - 1]));
            } else if i > b {
                assert(order[i] == after[i - 1 - b]);
            }
        }
        assert forall|i: int, j: int|
            #![trigger order[i], order[j]]
            0 <= i && j == i + 1 && j < order.len() implies climbs(
            parent,
            order[i],
            parent(order[j]),
        ) by {
            if j <= b {
                assert(order[j] == below[j - 1]);
                if i > 0 {
                    assert(order[i] == below[i - 1]);
                }
            } else {
                assert(order[j] == after[j - 1 - b]);
                if i > b {
                    assert(order[i] == after[i - 1 - b]);
                } else if i > 0 {
                    assert(order[i] == below[i - 1]);
                    assert(below.contains(below[i - 1]));
                }
            }
        }
        assert forall|i: int, j: int|
            #![trigger order[i], order[j]]
            0 <= i <= j < order.len() && parent(order[i]) == parent(order[j]) implies lex_le(
            key(order[i]),
            key(order[j]),
        ) by {
            if j == 0 {
                assert(lex_le(key(ds[0]), key(ds[0])));
            } else if j <= b {
                assert(order[j] == below[j - 1]);
                assert(below.contains(below[j - 1]));
                if i > 0 {
                    assert(order[i] == below[i - 1]);
                }
            } else if i > b {
                assert(order[i] == after[i - 1 - b]);
                assert(order[j] == after[j - 1 - b]);
            } else {
                let x = order[i];
                let y = order[j];
                assert(y == after[j - 1 - b]);
                assert(after.contains(y));
                assert(depth(x) == depth(y));
                preorder_members(next, parent, live, depth, n, rest, f, k, y);
                let m = (depth(y) - k) as nat;
                let a = ancestor(parent, y, m);
                let q = choose|q: int| 0 <= q < rest.len() && rest[q] == a;
                assert(ds[q + 1] == a);
                assert(a != d);
                if i > 0 {
                    assert(x == below[i - 1]);
                    assert(below.contains(x));
                    ancestor_of_parent(parent, x, (m - 1) as nat);
                    ancestor_of_parent(parent, y, (m - 1) as nat);
                } else {
                    assert(m == 0);
                    assert(a == y);
                    assert(lex_le(key(ds[0]), key(ds[q + 1])));
                }
            }
        }
    }
}

} // verus!
