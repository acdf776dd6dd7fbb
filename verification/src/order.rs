//! Lexicographic order of byte strings, and stable sorting by such keys.
use vstd::prelude::*;

verus! {

/// `a` comes before `b`, or is equal to it, in lexicographic byte order.
pub open spec fn lex_le(a: Seq<u8>, b: Seq<u8>) -> bool
    decreases a.len(),
{
    if a.len() == 0 {
        true
    } else if b.len() == 0 {
        false
    } else if a[0] != b[0] {
        a[0] < b[0]
    } else {
        lex_le(a.drop_first(), b.drop_first())
    }
}

/// The lexicographic order is total.
pub proof fn lex_total(a: Seq<u8>, b: Seq<u8>)
    ensures
        lex_le(a, b) || lex_le(b, a),
    decreases a.len(),
{
    if a.len() > 0 && b.len() > 0 && a[0] == b[0] {
        lex_total(a.drop_first(), b.drop_first());
    }
}

/// The lexicographic order is transitive.
pub proof fn lex_transitive(a: Seq<u8>, b: Seq<u8>, c: Seq<u8>)
    requires
        lex_le(a, b),
        lex_le(b, c),
    ensures
        lex_le(a, c),
    decreases a.len(),
{
    if a.len() > 0 && b.len() > 0 && c.len() > 0 && a[0] == b[0] && b[0] == c[0] {
        lex_transitive(a.drop_first(), b.drop_first(), c.drop_first());
    }
}

/// Byte strings that come before each other are equal.
pub proof fn lex_antisymmetric(a: Seq<u8>, b: Seq<u8>)
    requires
        lex_le(a, b),
        lex_le(b, a),
    ensures
        a == b,
    decreases a.len(),
{
    if a.len() > 0 {
        lex_antisymmetric(a.drop_first(), b.drop_first());
        assert(a =~= seq![a[0]] + a.drop_first());
        assert(b =~= seq![b[0]] + b.drop_first());
    } else {
        assert(b =~= a);
    }
}

/// The first byte that differs decides.
pub proof fn lex_by_first_difference(a: Seq<u8>, b: Seq<u8>, k: int)
    requires
        0 <= k < a.len(),
        k < b.len(),
        forall|i: int| 0 <= i < k ==> #[trigger] a[i] == b[i],
        a[k] < b[k],
    ensures
        lex_le(a, b),
        a != b,
    decreases k,
{
    if k > 0 {
        assert(a[0] == b[0]);
        let s = a.drop_first();
        let t = b.drop_first();
        assert forall|i: int| 0 <= i < k - 1 implies #[trigger] s[i] == t[i] by {
            assert(a[i + 1] == b[i + 1]);
        }
        lex_by_first_difference(s, t, k - 1);
    }
}

proof fn lex_after_common_prefix(a: Seq<u8>, b: Seq<u8>, n: int)
    requires
        0 <= n <= a.len(),
        n <= b.len(),
        a.take(n) == b.take(n),
    ensures
        lex_le(a, b) == lex_le(a.skip(n), b.skip(n)),
    decreases n,
{
    if n == 0 {
        assert(a.skip(0) =~= a);
        assert(b.skip(0) =~= b);
    } else {
        assert(a[0] == a.take(n)[0]);
        assert(b[0] == b.take(n)[0]);
        let a1 = a.drop_first();
        let b1 = b.drop_first();
        assert(a1.take(n - 1) =~= a.take(n).skip(1));
        assert(b1.take(n - 1) =~= b.take(n).skip(1));
        lex_after_common_prefix(a1, b1, n - 1);
        assert(a1.skip(n - 1) =~= a.skip(n));
        assert(b1.skip(n - 1) =~= b.skip(n));
    }
}

/// Whether `a` comes before `b`, or is equal to it.
pub fn bytes_le(a: &[u8], b: &[u8]) -> (r: bool)
    ensures
        r == lex_le(a@, b@),
{
    let n: usize = a.len();
    let m: usize = b.len();
    let mut i: usize = 0;
    while i < n && i < m
        invariant
            n == a@.len(),
            m == b@.len(),
            i <= n,
            i <= m,
            a@.take(i as int) == b@.take(i as int),
        decreases n - i,
    {
        if a[i] != b[i] {
            proof {
                lex_after_common_prefix(a@, b@, i as int);
            }
            return a[i] < b[i];
        }
        assert(a@.take(i + 1) =~= a@.take(i as int).push(a@[i as int]));
        assert(b@.take(i + 1) =~= b@.take(i as int).push(b@[i as int]));
        i += 1;
    }
    proof {
        lex_after_common_prefix(a@, b@, i as int);
    }
    i == n
}

/// Whether two byte strings are equal.
pub fn bytes_eq(a: &[u8], b: &[u8]) -> (r: bool)
    ensures
        r == (a@ == b@),
{
    if a.len() != b.len() {
        return false;
    }
    let n: usize = a.len();
    let mut i: usize = 0;
    while i < n
        invariant
            n == a@.len(),
            n == b@.len(),
            i <= n,
            forall|j: int| 0 <= j < i ==> a@[j] == b@[j],
        decreases n - i,
    {
        if a[i] != b[i] {
            return false;
        }
        i += 1;
    }
    assert(a@ =~= b@);
    true
}

// ---------------------------------------------------------------------------
// stable sorting
// ---------------------------------------------------------------------------

/// `s` with `x` placed behind the last item whose key is not above the key
/// of `x`.
pub open spec fn place_item<T>(s: Seq<T>, x: T, key: spec_fn(T) -> Seq<u8>) -> Seq<T>
    decreases s.len(),
{
    if s.len() == 0 || lex_le(key(s.last()), key(x)) {
        s.push(x)
    } else {
        place_item(s.drop_last(), x, key).push(s.last())
    }
}

/// The items of `s` in ascending order of their keys; items with equal keys
/// keep their order.
pub open spec fn sort_items<T>(s: Seq<T>, key: spec_fn(T) -> Seq<u8>) -> Seq<T>
    decreases s.len(),
{
    if s.len() == 0 {
        s
    } else {
        place_item(sort_items(s.drop_last(), key), s.last(), key)
    }
}

/// No item stands before one with a smaller key.
pub open spec fn ascending<T>(s: Seq<T>, key: spec_fn(T) -> Seq<u8>) -> bool {
    forall|i: int, j: int| 0 <= i <= j < s.len() ==> lex_le(key(s[i]), key(s[j]))
}

/// Where an item is placed: at the position behind which all keys are above
/// its own.
pub proof fn place_item_at<T>(s: Seq<T>, x: T, key: spec_fn(T) -> Seq<u8>, p: int)
    requires
        0 <= p <= s.len(),
        p == 0 || lex_le(key(s[p - 1]), key(x)),
        forall|j: int| p <= j < s.len() ==> !lex_le(key(s[j]), key(x)),
    ensures
        place_item(s, x, key) == s.insert(p, x),
    decreases s.len(),
{
    if p == s.len() {
        assert(s.insert(p, x) =~= s.push(x));
    } else {
        place_item_at(s.drop_last(), x, key, p);
        assert(s.drop_last().insert(p, x).push(s.last()) =~= s.insert(p, x));
    }
}

proof fn place_item_facts<T>(s: Seq<T>, x: T, key: spec_fn(T) -> Seq<u8>)
    ensures
        place_item(s, x, key).to_multiset() == s.to_multiset().insert(x),
        place_item(s, x, key).len() == s.len() + 1,
        ascending(s, key) ==> ascending(place_item(s, x, key), key),
        forall|y: T|
            place_item(s, x, key).contains(y) <==> s.contains(y) || y == x,
    decreases s.len(),
{
    broadcast use vstd::seq_lib::group_to_multiset_ensures;

    if s.len() == 0 || lex_le(key(s.last()), key(x)) {
        if ascending(s, key) {
            let r = s.push(x);
            assert forall|i: int, j: int| 0 <= i <= j < r.len() implies lex_le(
                key(r[i]),
                key(r[j]),
            ) by {
                if i == j {
                    lex_total(key(r[i]), key(r[i]));
                } else if j == s.len() {
                    lex_transitive(key(s[i]), key(s.last()), key(x));
                }
            }
        }
    } else {
        let d = s.drop_last();
        let q = place_item(d, x, key);
        place_item_facts(d, x, key);
        let r = q.push(s.last());
        assert(s =~= d.push(s.last()));
        assert(r.to_multiset() == q.to_multiset().insert(s.last()));
        assert(s.to_multiset() == d.to_multiset().insert(s.last()));
        assert(r.to_multiset() =~= s.to_multiset().insert(x));
        if ascending(s, key) {
            assert(ascending(d, key));
            lex_total(key(x), key(s.last()));
            assert forall|i: int, j: int| 0 <= i <= j < r.len() implies lex_le(
                key(r[i]),
                key(r[j]),
            ) by {
                if i == j {
                    lex_total(key(r[i]), key(r[i]));
                } else if j == q.len() {
                    assert(q.contains(q[i]));
                    if d.contains(q[i]) {
                        let k = choose|k: int| 0 <= k < d.len() && d[k] == q[i];
                        assert(s[k] == q[i]);
                        assert(lex_le(key(s[k]), key(s[s.len() - 1])));
                    }
                }
            }
        }
    }
    let r = place_item(s, x, key);
    assert forall|y: T| r.contains(y) <==> s.contains(y) || y == x by {
        assert(r.contains(y) <==> r.to_multiset().count(y) > 0);
        assert(s.contains(y) <==> s.to_multiset().count(y) > 0);
    }
}

/// Sorting keeps every item and puts the items in ascending order.
pub proof fn sort_items_facts<T>(s: Seq<T>, key: spec_fn(T) -> Seq<u8>)
    ensures
        sort_items(s, key).to_multiset() == s.to_multiset(),
        sort_items(s, key).len() == s.len(),
        ascending(sort_items(s, key), key),
        forall|y: T| sort_items(s, key).contains(y) <==> s.contains(y),
    decreases s.len(),
{
    broadcast use vstd::seq_lib::group_to_multiset_ensures;

    if s.len() > 0 {
        let d = s.drop_last();
        sort_items_facts(d, key);
        place_item_facts(sort_items(d, key), s.last(), key);
        assert(s =~= d.push(s.last()));
    }
    let r = sort_items(s, key);
    assert forall|y: T| r.contains(y) <==> s.contains(y) by {
        assert(r.contains(y) <==> r.to_multiset().count(y) > 0);
        assert(s.contains(y) <==> s.to_multiset().count(y) > 0);
    }
}

/// Sorting a list without repetitions gives one without repetitions.
pub proof fn sort_items_no_duplicates<T>(s: Seq<T>, key: spec_fn(T) -> Seq<u8>)
    requires
        s.no_duplicates(),
    ensures
        sort_items(s, key).no_duplicates(),
{
    sort_items_facts(s, key);
    s.lemma_multiset_has_no_duplicates();
    sort_items(s, key).lemma_multiset_has_no_duplicates_conv();
}

/// There is one way to put items with distinct keys in ascending order.
pub proof fn ascending_is_unique<T>(s: Seq<T>, t: Seq<T>, key: spec_fn(T) -> Seq<u8>)
    requires
        s.no_duplicates(),
        t.no_duplicates(),
        forall|x: T| s.contains(x) <==> t.contains(x),
        forall|x: T, y: T| s.contains(x) && s.contains(y) && key(x) == key(y) ==> x == y,
        ascending(s, key),
        ascending(t, key),
    ensures
        s == t,
    decreases s.len(),
{
    if s.len() == 0 {
        if t.len() > 0 {
            assert(t.contains(t[0]));
        }
        assert(s =~= t);
    } else {
        assert(s.contains(s[0]));
        let x = s.last();
        assert(s.contains(x));
        let y = t.last();
        assert(t.contains(y));
        let i = choose|i: int| 0 <= i < s.len() && s[i] == y;
        let j = choose|j: int| 0 <= j < t.len() && t[j] == x;
        assert(lex_le(key(s[i]), key(s[s.len() - 1])));
        assert(lex_le(key(t[j]), key(t[t.len() - 1])));
        lex_antisymmetric(key(x), key(y));
        assert(x == y);
        let a = s.drop_last();
        let b = t.drop_last();
        assert forall|z: T| a.contains(z) <==> b.contains(z) by {
            if a.contains(z) {
                let k = choose|k: int| 0 <= k < a.len() && a[k] == z;
                assert(s[k] == z);
                assert(s.contains(z));
                assert(t.contains(z));
                let m = choose|m: int| 0 <= m < t.len() && t[m] == z;
                assert(b[m] == z);
            }
            if b.contains(z) {
                let k = choose|k: int| 0 <= k < b.len() && b[k] == z;
                assert(t[k] == z);
                assert(t.contains(z));
                assert(s.contains(z));
                let m = choose|m: int| 0 <= m < s.len() && s[m] == z;
                assert(a[m] == z);
            }
        }
        assert forall|u: T, w: T| a.contains(u) && a.contains(w) && key(u) == key(w) implies u
            == w by {
            let k = choose|k: int| 0 <= k < a.len() && a[k] == u;
            let m = choose|m: int| 0 <= m < a.len() && a[m] == w;
            assert(s[k] == u && s[m] == w);
            assert(s.contains(u) && s.contains(w));
        }
        ascending_is_unique(a, b, key);
        assert(s =~= a.push(x));
        assert(t =~= b.push(y));
    }
}

/// Sorts `items` by the byte strings in `keys`, stably. The key of
/// `items[i]` is `keys[i]`.
pub fn sort_by_keys(
    items: &Vec<usize>,
    keys: &Vec<&[u8]>,
    Ghost(key): Ghost<spec_fn(usize) -> Seq<u8>>,
) -> (out: Vec<usize>)
    requires
        items@.len() == keys@.len(),
        forall|i: int| 0 <= i < items@.len() ==> key(items@[i]) == (#[trigger] keys@[i])@,
    ensures
        out@ == sort_items(items@, key),
{
    let n: usize = items.len();
    let mut out: Vec<usize> = Vec::new();
    let mut out_keys: Vec<&[u8]> = Vec::new();
    let mut i: usize = 0;
    assert(items@.take(0) =~= Seq::<usize>::empty());
    assert(out@ =~= items@.take(0));
    while i < n
        invariant
            n == items@.len(),
            n == keys@.len(),
            i <= n,
            forall|j: int| 0 <= j < n ==> key(items@[j]) == (#[trigger] keys@[j])@,
            out@.len() == i,
            out_keys@.len() == i,
            out@ == sort_items(items@.take(i as int), key),
            forall|j: int| 0 <= j < i ==> key(out@[j]) == (#[trigger] out_keys@[j])@,
        decreases n - i,
    {
        let x: usize = items[i];
        let x_key: &[u8] = keys[i];
        let mut p: usize = i;
        while p > 0 && !bytes_le(out_keys[p - 1], x_key)
            invariant
                p <= i,
                out@.len() == i,
                out_keys@.len() == i,
                forall|j: int| 0 <= j < i ==> key(out@[j]) == (#[trigger] out_keys@[j])@,
                key(x) == x_key@,
                forall|j: int| p <= j < i ==> !lex_le(key(out@[j]), key(x)),
            ensures
                p <= i,
                p == 0 || lex_le(key(out@[p - 1]), key(x)),
                forall|j: int| p <= j < i ==> !lex_le(key(out@[j]), key(x)),
            decreases p,
        {
            p -= 1;
        }
        let ghost before = out@;
        let ghost before_keys = out_keys@;
        out.insert(p, x);
        out_keys.insert(p, x_key);
        proof {
            place_item_at(before, x, key, p as int);
            let longer = items@.take(i + 1);
            assert(longer.drop_last() =~= items@.take(i as int));
            assert(longer.last() == x);
            assert forall|j: int| 0 <= j < i + 1 implies key(out@[j]) == (
            #[trigger] out_keys@[j])@ by {
                if j < p {
                    assert(out_keys@[j] == before_keys[j]);
                } else if j > p {
                    assert(out_keys@[j] == before_keys[j - 1]);
                }
            }
        }
        i += 1;
    }
    assert(items@.take(n as int) =~= items@);
    out
}

/// What another string continues comes before it.
pub proof fn lex_prefix_first(a: Seq<u8>, b: Seq<u8>)
    ensures
        lex_le(a, a + b),
        b.len() > 0 ==> !lex_le(a + b, a),
    decreases a.len(),
{
    if a.len() > 0 {
        assert((a + b).drop_first() =~= a.drop_first() + b);
        lex_prefix_first(a.drop_first(), b);
    } else {
        assert(a + b =~= b);
    }
}

/// Sorting is stable: the items with one key stand in the order that they had.
pub proof fn sorting_is_stable<T>(s: Seq<T>, key: spec_fn(T) -> Seq<u8>, k: Seq<u8>)
    ensures
        sort_items(s, key).filter(|x: T| key(x) == k) == s.filter(|x: T| key(x) == k),
    decreases s.len(),
{
    reveal(Seq::filter);
    if s.len() > 0 {
        sorting_is_stable(s.drop_last(), key, k);
        placing_is_stable(sort_items(s.drop_last(), key), s.last(), key, k);
    }
}

proof fn placing_is_stable<T>(s: Seq<T>, x: T, key: spec_fn(T) -> Seq<u8>, k: Seq<u8>)
    ensures
        place_item(s, x, key).filter(|y: T| key(y) == k) == if key(x) == k {
            s.filter(|y: T| key(y) == k).push(x)
        } else {
            s.filter(|y: T| key(y) == k)
        },
    decreases s.len(),
{
    reveal(Seq::filter);
    let r = place_item(s, x, key);
    if s.len() == 0 || lex_le(key(s.last()), key(x)) {
        assert(s.push(x).drop_last() =~= s);
    } else {
        let less = place_item(s.drop_last(), x, key);
        placing_is_stable(s.drop_last(), x, key, k);
        assert(r.drop_last() =~= less);
        assert(r.last() == s.last());
        lex_total(key(x), key(x));
    }
}

} // verus!
