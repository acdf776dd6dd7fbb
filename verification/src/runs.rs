//! Runs of state machines that ask and are answered: what an outcome comes to
//! after some more answers.
use vstd::prelude::*;

verus! {

/// What at most `n` answers more make of an outcome. `answer` is the next
/// outcome of a state, or `None` where the state asks for nothing.
pub open spec fn after<S, F>(
    answer: spec_fn(S) -> Option<Result<S, F>>,
    r: Result<S, F>,
    n: nat,
) -> Result<S, F>
    decreases n,
{
    match r {
        Err(f) => Err(f),
        Ok(s) => if n == 0 {
            r
        } else {
            match answer(s) {
                None => r,
                Some(next) => after(answer, next, (n - 1) as nat),
            }
        },
    }
}

/// From `a`, `n` answers lead to `b`.
pub open spec fn leads<S, F>(
    answer: spec_fn(S) -> Option<Result<S, F>>,
    a: Result<S, F>,
    n: nat,
    b: Result<S, F>,
) -> bool {
    forall|m: nat| after(answer, a, n + m) == #[trigger] after(answer, b, m)
}

/// From `a`, some number of answers leads to `b`.
pub open spec fn comes_to<S, F>(
    answer: spec_fn(S) -> Option<Result<S, F>>,
    a: Result<S, F>,
    b: Result<S, F>,
) -> bool {
    exists|n: nat| leads(answer, a, n, b)
}

/// Every outcome comes to itself.
pub proof fn comes_to_itself<S, F>(
    answer: spec_fn(S) -> Option<Result<S, F>>,
    a: Result<S, F>,
)
    ensures
        comes_to(answer, a, a),
{
    assert(leads(answer, a, 0, a));
}

/// A state comes to its next outcome.
pub proof fn comes_to_next<S, F>(
    answer: spec_fn(S) -> Option<Result<S, F>>,
    s: S,
    next: Result<S, F>,
)
    requires
        answer(s) == Some(next),
    ensures
        comes_to(answer, Ok(s), next),
{
    assert forall|m: nat|
        after(answer, Ok::<S, F>(s), 1 + m) == #[trigger] after(answer, next, m) by {
        assert(((1 + m) - 1) as nat == m);
    }
    assert(leads(answer, Ok(s), 1, next));
}

/// What comes to something comes to all that it comes to.
pub proof fn comes_to_further<S, F>(
    answer: spec_fn(S) -> Option<Result<S, F>>,
    a: Result<S, F>,
    b: Result<S, F>,
    c: Result<S, F>,
)
    requires
        comes_to(answer, a, b),
        comes_to(answer, b, c),
    ensures
        comes_to(answer, a, c),
{
    let n = choose|n: nat| leads(answer, a, n, b);
    let k = choose|k: nat| leads(answer, b, k, c);
    assert forall|m: nat| after(answer, a, (n + k) + m) == #[trigger] after(answer, c, m) by {
        assert(after(answer, a, n + (k + m)) == after(answer, b, k + m));
        assert(after(answer, b, k + m) == after(answer, c, m));
        assert((n + k) + m == n + (k + m));
    }
    assert(leads(answer, a, n + k, c));
}

/// Where the end asks for nothing, enough answers are as good as more.
pub proof fn comes_to_rest<S, F>(
    answer: spec_fn(S) -> Option<Result<S, F>>,
    a: Result<S, F>,
    b: Result<S, F>,
) -> (n: nat)
    requires
        comes_to(answer, a, b),
        b matches Ok(s) ==> answer(s) is None,
    ensures
        forall|k: nat| k >= n ==> #[trigger] after(answer, a, k) == b,
{
    let n = choose|n: nat| leads(answer, a, n, b);
    assert forall|k: nat| k >= n implies #[trigger] after(answer, a, k) == b by {
        let m = (k - n) as nat;
        assert(after(answer, a, n + m) == after(answer, b, m));
    }
    n
}

} // verus!
