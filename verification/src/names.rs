//! ISO 9660 and Joliet identifiers.
//!
//! Every entry has a name in two namespaces:
//!  * the base tree: uppercase d-characters (A-Z 0-9 _), extension split at
//!    the last dot, at most 30 characters, files carry a ";1" version;
//!  * the Joliet tree: the original name in UTF-16BE, at most 64 units, no
//!    version.
use vstd::prelude::*;
use vstd::utf8::{encode_utf8, is_ascii_chars, is_ascii_chars_encode_utf8};
use crate::bytes::{append, be16, be16_bytes};
use crate::order::bytes_eq;
use crate::text::{
    char_units, decimal, decimal_digits, decimal_is_injective, decimal_len, encode_utf16, utf16,
};

verus! {

/// Longest base name, with dot and extension.
pub const BASE_NAME_MAX: usize = 30;

/// Longest extension of a base name.
pub const BASE_EXT_MAX: usize = 12;

/// Longest Joliet name in UTF-16 units.
pub const JOLIET_MAX: usize = 64;

/// The last number tried to make an identifier unique.
pub const LAST_SUFFIX: u64 = 100_000;

// ---------------------------------------------------------------------------
// sets of identifiers
// ---------------------------------------------------------------------------

/// The identifiers taken in one directory.
pub struct IdSet {
    ids: Vec<Vec<u8>>,
}

impl View for IdSet {
    type V = Set<Seq<u8>>;

    closed spec fn view(&self) -> Set<Seq<u8>> {
        Set::new(|s: Seq<u8>| exists|i: int| 0 <= i < self.ids@.len() && self.ids@[i]@ == s)
    }
}

impl IdSet {
    /// The empty set.
    pub fn new() -> (s: IdSet)
        ensures
            s@ == Set::<Seq<u8>>::empty(),
    {
        let s = IdSet { ids: Vec::new() };
        assert(s@ =~= Set::<Seq<u8>>::empty());
        s
    }

    /// Whether an identifier is taken.
    pub fn contains(&self, id: &[u8]) -> (r: bool)
        ensures
            r == self@.contains(id@),
    {
        let n: usize = self.ids.len();
        let mut i: usize = 0;
        while i < n
            invariant
                n == self.ids@.len(),
                i <= n,
                forall|j: int| 0 <= j < i ==> self.ids@[j]@ != id@,
            decreases n - i,
        {
            if bytes_eq(self.ids[i].as_slice(), id) {
                return true;
            }
            i += 1;
        }
        false
    }

    /// Takes an identifier; tells whether it was free.
    pub fn insert(&mut self, id: Vec<u8>) -> (fresh: bool)
        ensures
            fresh == !old(self)@.contains(id@),
            final(self)@ == old(self)@.insert(id@),
    {
        let ghost before = self@;
        let ghost new_id = id@;
        if self.contains(id.as_slice()) {
            assert(before.insert(new_id) =~= before);
            false
        } else {
            let ghost ids = self.ids@;
            self.ids.push(id);
            proof {
                assert forall|s: Seq<u8>| self@.contains(s) <==> before.insert(new_id).contains(
                    s,
                ) by {
                    if before.contains(s) {
                        let i = choose|i: int| 0 <= i < ids.len() && ids[i]@ == s;
                        assert(self.ids@[i]@ == s);
                    }
                    assert(self.ids@[ids.len() as int]@ == new_id);
                    if self@.contains(s) {
                        let i = choose|i: int|
                            0 <= i < self.ids@.len() && self.ids@[i]@ == s;
                        if i < ids.len() {
                            assert(ids[i]@ == s);
                        }
                    }
                }
                assert(self@ =~= before.insert(new_id));
            }
            true
        }
    }
}

/// The first number from `k` on, up to the last one tried, whose candidate is
/// not taken.
pub open spec fn first_free(
    candidate: spec_fn(nat) -> Seq<u8>,
    used: Set<Seq<u8>>,
    k: nat,
) -> Option<nat>
    decreases LAST_SUFFIX + 1 - k,
{
    if k > LAST_SUFFIX {
        None
    } else if !used.contains(candidate(k)) {
        Some(k)
    } else {
        first_free(candidate, used, k + 1)
    }
}

/// The identifier that a name gets where `used` is taken: the first candidate
/// that is free.
pub open spec fn unique_id(candidate: spec_fn(nat) -> Seq<u8>, used: Set<Seq<u8>>) -> Option<
    Seq<u8>,
> {
    match first_free(candidate, used, 0) {
        Some(k) => Some(candidate(k)),
        None => None,
    }
}

proof fn first_free_is_free(candidate: spec_fn(nat) -> Seq<u8>, used: Set<Seq<u8>>, k: nat)
    ensures
        first_free(candidate, used, k) matches Some(n) ==> k <= n <= LAST_SUFFIX && !used.contains(
            candidate(n),
        ),
    decreases LAST_SUFFIX + 1 - k,
{
    if k <= LAST_SUFFIX && used.contains(candidate(k)) {
        first_free_is_free(candidate, used, k + 1);
    }
}

/// A name never gets an identifier that is taken.
pub proof fn unique_id_is_free(candidate: spec_fn(nat) -> Seq<u8>, used: Set<Seq<u8>>)
    ensures
        unique_id(candidate, used) matches Some(id) ==> !used.contains(id),
{
    first_free_is_free(candidate, used, 0);
}

/// The first `n` numbered candidates as a set.
spec fn first_candidates(candidate: spec_fn(nat) -> Seq<u8>, n: nat) -> Set<Seq<u8>>
    decreases n,
{
    if n == 0 {
        Set::empty()
    } else {
        first_candidates(candidate, (n - 1) as nat).insert(candidate(n))
    }
}

/// Whether no two numbered candidates are the same.
spec fn numbers_tell(candidate: spec_fn(nat) -> Seq<u8>) -> bool {
    forall|j: nat, k: nat|
        0 < j <= LAST_SUFFIX && 0 < k <= LAST_SUFFIX && #[trigger] candidate(j)
            == #[trigger] candidate(k) ==> j == k
}

proof fn first_candidates_len(candidate: spec_fn(nat) -> Seq<u8>, n: nat)
    requires
        n <= LAST_SUFFIX,
        numbers_tell(candidate),
    ensures
        first_candidates(candidate, n).finite(),
        first_candidates(candidate, n).len() == n,
        forall|x: Seq<u8>| #[trigger]
            first_candidates(candidate, n).contains(x) ==> exists|k: nat|
                0 < k <= n && x == #[trigger] candidate(k),
    decreases n,
{
    if n > 0 {
        let less = first_candidates(candidate, (n - 1) as nat);
        first_candidates_len(candidate, (n - 1) as nat);
        if less.contains(candidate(n)) {
            let k = choose|k: nat| 0 < k <= n - 1 && candidate(n) == #[trigger] candidate(k);
            assert(candidate(k) == candidate(n));
        }
        assert forall|x: Seq<u8>| #[trigger]
            first_candidates(candidate, n).contains(x) implies exists|k: nat|
            0 < k <= n && x == #[trigger] candidate(k) by {
            if x != candidate(n) {
                let k = choose|k: nat| 0 < k <= n - 1 && x == #[trigger] candidate(k);
                assert(x == candidate(k));
            }
        }
    }
}

proof fn none_free(candidate: spec_fn(nat) -> Seq<u8>, used: Set<Seq<u8>>, from: nat, k: nat)
    requires
        first_free(candidate, used, from) is None,
        from <= k <= LAST_SUFFIX,
    ensures
        used.contains(candidate(k)),
    decreases LAST_SUFFIX + 1 - from,
{
    if from < k {
        none_free(candidate, used, from + 1, k);
    }
}

/// Where fewer identifiers are taken than there are numbers, one is free.
proof fn one_is_free(candidate: spec_fn(nat) -> Seq<u8>, used: Set<Seq<u8>>)
    requires
        numbers_tell(candidate),
        used.finite(),
        used.len() < LAST_SUFFIX,
    ensures
        unique_id(candidate, used) is Some,
{
    if first_free(candidate, used, 0) is None {
        let n = LAST_SUFFIX as nat;
        let all = first_candidates(candidate, n);
        first_candidates_len(candidate, n);
        assert forall|x: Seq<u8>| all.contains(x) implies used.contains(x) by {
            let k = choose|k: nat| 0 < k <= n && x == #[trigger] candidate(k);
            none_free(candidate, used, 0, k);
        }
        vstd::set_lib::lemma_len_subset(all, used);
    }
}

/// What stands behind the last mark can be told.
proof fn behind_last_mark<T>(a: Seq<T>, b: Seq<T>, mark: T, x: Seq<T>, y: Seq<T>)
    requires
        a.push(mark) + x == b.push(mark) + y,
        forall|i: int| 0 <= i < x.len() ==> #[trigger] x[i] != mark,
        forall|i: int| 0 <= i < y.len() ==> #[trigger] y[i] != mark,
    ensures
        x == y,
{
    let p = a.push(mark);
    let q = b.push(mark);
    let s = p + x;
    let t = q + y;
    let m = a.len() as int;
    let n = b.len() as int;
    assert(s == t);
    assert(p.len() == m + 1 && q.len() == n + 1);
    assert(s.len() == m + 1 + x.len());
    assert(t.len() == n + 1 + y.len());
    assert(p[m] == mark && q[n] == mark);
    assert(s[m] == p[m]);
    assert(t[n] == q[n]);
    if m < n {
        assert(s[n] == x[n - (m + 1)]);
    } else if n < m {
        assert(t[m] == y[m - (n + 1)]);
    } else {
        assert(x =~= s.skip(m + 1));
        assert(y =~= t.skip(m + 1));
    }
}

// ---------------------------------------------------------------------------
// base identifiers
// ---------------------------------------------------------------------------

/// The d-character for a byte: uppercase letters, digits and '_'; '_' for
/// everything else.
pub open spec fn d_char(b: u8) -> u8 {
    if 97 <= b <= 122 {
        (b - 32) as u8
    } else if 65 <= b <= 90 || 48 <= b <= 57 {
        b
    } else {
        95
    }
}

/// The d-characters of a byte string.
pub open spec fn d_chars(b: Seq<u8>) -> Seq<u8> {
    b.map_values(|x: u8| d_char(x))
}

/// The position of the last '.', or -1.
pub open spec fn last_dot(b: Seq<u8>) -> int
    decreases b.len(),
{
    if b.len() == 0 {
        -1
    } else if b.last() == 46 {
        b.len() - 1
    } else {
        last_dot(b.drop_last())
    }
}

/// Whether a name has an extension: a dot that is neither in front nor at the
/// end; a name with a leading dot has none.
pub open spec fn has_ext(b: Seq<u8>) -> bool {
    b.len() > 0 && b[0] != 46 && 0 < last_dot(b) && last_dot(b) + 1 < b.len()
}

/// The part of a name before the extension.
pub open spec fn stem_of(b: Seq<u8>) -> Seq<u8> {
    if has_ext(b) {
        b.take(last_dot(b))
    } else {
        b
    }
}

/// The extension of a name, without the dot.
pub open spec fn ext_of(b: Seq<u8>) -> Seq<u8> {
    if has_ext(b) {
        b.skip(last_dot(b) + 1)
    } else {
        Seq::empty()
    }
}

/// At most `max` bytes of `s`, but at least one.
pub open spec fn cut(s: Seq<u8>, max: int) -> Seq<u8> {
    if s.len() <= max {
        s
    } else if max <= 0 {
        seq![95u8]
    } else {
        s.take(max)
    }
}

/// The bytes left for the stem beside an extension.
pub open spec fn stem_room(ext: Seq<u8>) -> int {
    if ext.len() == 0 {
        BASE_NAME_MAX as int
    } else if ext.len() <= BASE_EXT_MAX {
        BASE_NAME_MAX - 1 - ext.len()
    } else {
        BASE_NAME_MAX - 1 - BASE_EXT_MAX
    }
}

/// A base name of at most 30 bytes from a stem and an extension.
pub open spec fn base_name(stem: Seq<u8>, ext: Seq<u8>) -> Seq<u8> {
    if ext.len() == 0 {
        cut(stem, BASE_NAME_MAX as int)
    } else {
        cut(stem, stem_room(ext)).push(46) + cut(ext, BASE_EXT_MAX as int)
    }
}

/// A stem with "_k" behind it, cut before the suffix so that both fit in
/// `room` bytes.
pub open spec fn numbered_stem(stem: Seq<u8>, k: nat, room: int) -> Seq<u8> {
    let suffix = seq![95u8] + decimal(k);
    let left = room - suffix.len();
    if stem.len() <= left {
        stem + suffix
    } else {
        stem.take(left) + suffix
    }
}

/// The candidates for the base identifier of a name: with nothing added, and
/// with "_1", "_2" and so on behind the stem, which makes room for them.
pub open spec fn base_candidates(name: Seq<u8>, is_file: bool) -> spec_fn(nat) -> Seq<u8> {
    |k: nat|
        {
            let stem0 = d_chars(
                if is_file {
                    stem_of(name)
                } else {
                    name
                },
            );
            let ext = d_chars(
                if is_file {
                    ext_of(name)
                } else {
                    Seq::empty()
                },
            );
            let stem = if k == 0 {
                stem0
            } else {
                numbered_stem(stem0, k, stem_room(ext))
            };
            if is_file {
                base_name(stem, ext) + seq![59u8, 49u8]
            } else {
                base_name(stem, ext)
            }
        }
}

/// The base identifier of a name where `used` is taken.
pub open spec fn base_id(name: Seq<char>, is_file: bool, used: Set<Seq<u8>>) -> Option<Seq<u8>> {
    unique_id(base_candidates(encode_utf8(name), is_file), used)
}

/// Base identifiers have at most 30 bytes, and the version of a file.
pub proof fn base_id_len(name: Seq<char>, is_file: bool, used: Set<Seq<u8>>)
    ensures
        base_id(name, is_file, used) matches Some(id) ==> id.len() <= BASE_NAME_MAX + (
        if is_file {
            2int
        } else {
            0
        }),
{
}

/// Base identifiers hold d-characters only, but for the dot before the
/// extension and the version of a file.
pub proof fn base_id_chars(name: Seq<char>, is_file: bool, used: Set<Seq<u8>>)
    ensures
        base_id(name, is_file, used) matches Some(id) ==> forall|i: int|
            0 <= i < id.len() ==> {
                ||| 65 <= #[trigger] id[i] <= 90
                ||| 48 <= id[i] <= 57
                ||| id[i] == 95
                ||| is_file && (id[i] == 46 || id[i] == 59)
            },
{
    let candidate = base_candidates(encode_utf8(name), is_file);
    first_free_is_free(candidate, used, 0);
    if let Some(k) = first_free(candidate, used, 0) {
        suffix_fits(k);
        let id = candidate(k);
        assert forall|i: int| 0 <= i < id.len() implies {
            ||| 65 <= #[trigger] id[i] <= 90
            ||| 48 <= id[i] <= 57
            ||| id[i] == 95
            ||| is_file && (id[i] == 46 || id[i] == 59)
        } by {}
    }
}

/// A numbered base candidate: something, '_', the number, and what is the same
/// for all numbers.
proof fn base_candidate_form(name: Seq<u8>, is_file: bool, k: nat) -> (r: (Seq<u8>, Seq<u8>))
    requires
        0 < k <= LAST_SUFFIX,
    ensures
        base_candidates(name, is_file)(k) == r.0.push(95) + decimal(k) + r.1,
        r.1 == base_tail(name, is_file),
        ({
            let stem0 = d_chars(
                if is_file {
                    stem_of(name)
                } else {
                    name
                },
            );
            let ext = d_chars(
                if is_file {
                    ext_of(name)
                } else {
                    Seq::empty()
                },
            );
            let left = stem_room(ext) - 1 - decimal(k).len();
            r.0 == if stem0.len() <= left {
                stem0
            } else {
                stem0.take(left)
            }
        }),
{
    let stem0 = d_chars(
        if is_file {
            stem_of(name)
        } else {
            name
        },
    );
    let ext = d_chars(
        if is_file {
            ext_of(name)
        } else {
            Seq::empty()
        },
    );
    suffix_fits(k);
    let suffix = seq![95u8] + decimal(k);
    let room = stem_room(ext);
    let left = room - suffix.len();
    let head = if stem0.len() <= left {
        stem0
    } else {
        stem0.take(left)
    };
    let stem = numbered_stem(stem0, k, room);
    assert(stem == head + suffix);
    assert(stem.len() <= room);
    let tail = base_tail(name, is_file);
    assert(base_candidates(name, is_file)(k) =~= head.push(95) + decimal(k) + tail);
    (head, tail)
}

/// What stands behind the stem of a base candidate: the extension, and the
/// version of a file.
spec fn base_tail(name: Seq<u8>, is_file: bool) -> Seq<u8> {
    let ext = d_chars(
        if is_file {
            ext_of(name)
        } else {
            Seq::empty()
        },
    );
    let dotted = if ext.len() == 0 {
        Seq::empty()
    } else {
        seq![46u8] + cut(ext, BASE_EXT_MAX as int)
    };
    if is_file {
        dotted + seq![59u8, 49u8]
    } else {
        dotted
    }
}

proof fn base_numbers_tell(name: Seq<u8>, is_file: bool)
    ensures
        numbers_tell(base_candidates(name, is_file)),
{
    let candidate = base_candidates(name, is_file);
    assert forall|j: nat, k: nat|
        0 < j <= LAST_SUFFIX && 0 < k <= LAST_SUFFIX && #[trigger] candidate(j)
            == #[trigger] candidate(k) implies j == k by {
        let (a, tail) = base_candidate_form(name, is_file, j);
        let (b, _) = base_candidate_form(name, is_file, k);
        suffix_fits(j);
        suffix_fits(k);
        let s = a.push(95) + decimal(j);
        let t = b.push(95) + decimal(k);
        assert(s =~= candidate(j).take(candidate(j).len() - tail.len()));
        assert(t =~= candidate(k).take(candidate(k).len() - tail.len()));
        behind_last_mark(a, b, 95u8, decimal(j), decimal(k));
        decimal_is_injective(j, k);
    }
}

/// Every name gets a base identifier, as long as fewer than 100000 are taken.
pub proof fn base_id_is_found(name: Seq<char>, is_file: bool, used: Set<Seq<u8>>)
    requires
        used.finite(),
        used.len() < 100_000,
    ensures
        base_id(name, is_file, used) is Some,
{
    base_numbers_tell(encode_utf8(name), is_file);
    one_is_free(base_candidates(encode_utf8(name), is_file), used);
}

/// Maps a byte to its d-character.
fn d_map(b: u8) -> (d: u8)
    ensures
        d == d_char(b),
{
    if 97 <= b && b <= 122 {
        b - 32
    } else if (65 <= b && b <= 90) || (48 <= b && b <= 57) {
        b
    } else {
        95
    }
}

fn d_map_all(b: &[u8], from: usize, to: usize) -> (d: Vec<u8>)
    requires
        from <= to <= b@.len(),
    ensures
        d@ == d_chars(b@.subrange(from as int, to as int)),
{
    let mut d: Vec<u8> = Vec::new();
    let mut i: usize = from;
    while i < to
        invariant
            from <= i <= to <= b@.len(),
            d@ =~= d_chars(b@.subrange(from as int, i as int)),
        decreases to - i,
    {
        d.push(d_map(b[i]));
        i += 1;
    }
    d
}

/// Where a name splits into stem and extension: the position of the dot.
fn split_ext(b: &[u8]) -> (at: Option<usize>)
    ensures
        at is Some <==> has_ext(b@),
        at matches Some(i) ==> i == last_dot(b@),
{
    let n: usize = b.len();
    if n == 0 || b[0] == 46 {
        return None;
    }
    let mut i: usize = n;
    assert(b@.take(n as int) =~= b@);
    while i > 0
        invariant
            i <= n,
            n == b@.len(),
            n > 0,
            b@[0] != 46,
            last_dot(b@.take(i as int)) == last_dot(b@),
        decreases i,
    {
        assert(b@.take(i as int).drop_last() =~= b@.take(i - 1));
        assert(b@.take(i as int).last() == b@[i - 1]);
        if b[i - 1] == 46 {
            if i - 1 > 0 && i < n {
                return Some(i - 1);
            }
            return None;
        }
        i -= 1;
    }
    None
}

/// Cuts to `max` bytes while keeping at least one.
fn trunc_at_least1(s: &mut Vec<u8>, max: usize)
    ensures
        final(s)@ == cut(old(s)@, max as int),
{
    if s.len() > max {
        s.truncate(max);
        if max == 0 {
            s.push(95);
        }
        assert(s@ =~= cut(old(s)@, max as int));
    }
}

/// Composes a base name of at most 30 bytes from a stem and an extension.
fn compose30(stem: &Vec<u8>, ext: &Vec<u8>) -> (name: Vec<u8>)
    ensures
        name@ == base_name(stem@, ext@),
{
    let mut name: Vec<u8> = Vec::new();
    append(&mut name, stem.as_slice());
    assert(name@ =~= stem@);
    if ext.len() == 0 {
        trunc_at_least1(&mut name, BASE_NAME_MAX);
        return name;
    }
    let mut short: Vec<u8> = Vec::new();
    append(&mut short, ext.as_slice());
    assert(short@ =~= ext@);
    trunc_at_least1(&mut short, BASE_EXT_MAX);
    trunc_at_least1(&mut name, BASE_NAME_MAX - 1 - short.len());
    name.push(46);
    append(&mut name, short.as_slice());
    name
}

/// The digits of a suffix.
proof fn suffix_fits(k: nat)
    requires
        k <= LAST_SUFFIX,
    ensures
        1 <= decimal(k).len() <= 6,
        forall|i: int| 0 <= i < decimal(k).len() ==> 48 <= #[trigger] decimal(k)[i] <= 57,
{
    vstd::arithmetic::power::lemma_pow0(10);
    reveal_with_fuel(vstd::arithmetic::power::pow, 7);
    decimal_len(k, 5);
}

/// The base identifier of `name` that is still free in `used`, which takes it
/// up; `None` where every candidate is taken.
fn base_id_impl(name: &str, is_file: bool, used: &mut IdSet) -> (id: Option<Vec<u8>>)
    ensures
        base_id(name@, is_file, old(used)@) is None ==> id is None && final(used)@ == old(used)@,
        base_id(name@, is_file, old(used)@) matches Some(x) ==> id matches Some(y) && y@ == x
            && final(used)@ == old(used)@.insert(x),
{
    let bytes: &[u8] = name.as_bytes();
    let n: usize = bytes.len();
    let ghost candidate = base_candidates(bytes@, is_file);
    let split: Option<usize> = if is_file {
        split_ext(bytes)
    } else {
        None
    };
    let (stem_end, ext_start): (usize, usize) = match split {
        Some(i) => (i, i + 1),
        None => (n, n),
    };
    let stem0: Vec<u8> = d_map_all(bytes, 0, stem_end);
    let ext0: Vec<u8> = d_map_all(bytes, ext_start, n);
    let room: usize = if ext0.len() == 0 {
        BASE_NAME_MAX
    } else if ext0.len() <= BASE_EXT_MAX {
        BASE_NAME_MAX - 1 - ext0.len()
    } else {
        BASE_NAME_MAX - 1 - BASE_EXT_MAX
    };
    proof {
        if is_file && has_ext(bytes@) {
            assert(bytes@.subrange(0, stem_end as int) =~= stem_of(bytes@));
            assert(bytes@.subrange(ext_start as int, n as int) =~= ext_of(bytes@));
        } else {
            assert(bytes@.subrange(0, n as int) =~= bytes@);
            assert(bytes@.subrange(n as int, n as int) =~= Seq::<u8>::empty());
        }
    }
    let mut k: u64 = 0;
    while k <= LAST_SUFFIX
        invariant
            k <= LAST_SUFFIX + 1,
            bytes@ == encode_utf8(name@),
            candidate == base_candidates(bytes@, is_file),
            stem0@ == d_chars(
                if is_file {
                    stem_of(bytes@)
                } else {
                    bytes@
                },
            ),
            ext0@ == d_chars(
                if is_file {
                    ext_of(bytes@)
                } else {
                    Seq::empty()
                },
            ),
            room == stem_room(ext0@),
            used@ == old(used)@,
            first_free(candidate, used@, k as nat) == first_free(candidate, used@, 0),
        decreases LAST_SUFFIX + 1 - k,
    {
        let mut stem: Vec<u8> = Vec::new();
        append(&mut stem, stem0.as_slice());
        assert(stem@ =~= stem0@);
        if k > 0 {
            let digits: Vec<u8> = decimal_digits(k as u128);
            proof {
                suffix_fits(k as nat);
            }
            let left: usize = room - 1 - digits.len();
            if stem.len() > left {
                stem.truncate(left);
            }
            stem.push(95);
            append(&mut stem, digits.as_slice());
            assert(stem@ =~= numbered_stem(stem0@, k as nat, room as int));
        }
        let mut id: Vec<u8> = compose30(&stem, &ext0);
        if is_file {
            let version: [u8; 2] = [59, 49];
            assert(version@ =~= seq![59u8, 49u8]);
            append(&mut id, &version);
        }
        assert(id@ == candidate(k as nat));
        let mut taken: Vec<u8> = Vec::new();
        append(&mut taken, id.as_slice());
        assert(taken@ =~= id@);
        if !used.contains(id.as_slice()) {
            used.insert(taken);
            return Some(id);
        }
        k += 1;
    }
    None
}

/// The base identifier, without version, of a directory; `None` where all
/// candidates are taken.
pub fn try_base_dir_id(name: &str, used: &mut IdSet) -> (id: Option<Vec<u8>>)
    ensures
        base_id(name@, false, old(used)@) is None ==> id is None && final(used)@ == old(used)@,
        base_id(name@, false, old(used)@) matches Some(x) ==> id matches Some(y) && y@ == x
            && final(used)@ == old(used)@.insert(x),
{
    base_id_impl(name, false, used)
}

/// The base identifier, with the version ";1", of a file; `None` where all
/// candidates are taken.
pub fn try_base_file_id(name: &str, used: &mut IdSet) -> (id: Option<Vec<u8>>)
    ensures
        base_id(name@, true, old(used)@) is None ==> id is None && final(used)@ == old(used)@,
        base_id(name@, true, old(used)@) matches Some(x) ==> id matches Some(y) && y@ == x
            && final(used)@ == old(used)@.insert(x),
{
    base_id_impl(name, true, used)
}

/// The base identifier, without version, of a directory.
pub fn base_dir_id(name: &str, used: &mut IdSet) -> (id: Vec<u8>)
    requires
        base_id(name@, false, old(used)@) is Some,
    ensures
        Some(id@) == base_id(name@, false, old(used)@),
        !old(used)@.contains(id@),
        final(used)@ == old(used)@.insert(id@),
{
    proof {
        unique_id_is_free(base_candidates(encode_utf8(name@), false), used@);
    }
    try_base_dir_id(name, used).unwrap()
}

/// The base identifier, with the version ";1", of a file.
pub fn base_file_id(name: &str, used: &mut IdSet) -> (id: Vec<u8>)
    requires
        base_id(name@, true, old(used)@) is Some,
    ensures
        Some(id@) == base_id(name@, true, old(used)@),
        !old(used)@.contains(id@),
        final(used)@ == old(used)@.insert(id@),
{
    proof {
        unique_id_is_free(base_candidates(encode_utf8(name@), true), used@);
    }
    try_base_file_id(name, used).unwrap()
}

// ---------------------------------------------------------------------------
// what becomes of a name
// ---------------------------------------------------------------------------

/// Whether `d` is what a byte of a name becomes: a letter a to z the letter 32
/// below it; A to Z, digits and '_' themselves; everything else '_'.
pub open spec fn becomes(b: u8, d: u8) -> bool {
    if 97 <= b <= 122 {
        d + 32 == b
    } else if 65 <= b <= 90 || 48 <= b <= 57 || b == 95 {
        d == b
    } else {
        d == 95
    }
}

/// Whether `to` holds what the first bytes of `from` become, at most `max`.
pub open spec fn becomes_up_to(from: Seq<u8>, to: Seq<u8>, max: int) -> bool {
    &&& to.len() == if from.len() <= max {
        from.len() as int
    } else {
        max
    }
    &&& forall|i: int| 0 <= i < to.len() ==> becomes(from[i], #[trigger] to[i])
}

/// A directory whose name is free has its name for a base identifier: 30 bytes
/// at most, in upper case, and '_' for what is neither letter nor digit.
pub proof fn free_directory_names(name: Seq<char>, used: Set<Seq<u8>>)
    ensures
        base_id(name, false, Set::empty()) matches Some(id) && becomes_up_to(
            encode_utf8(name),
            id,
            30,
        ) && (!used.contains(id) ==> base_id(name, false, used) == Some(id)),
{
    let b = encode_utf8(name);
    let candidate = base_candidates(b, false);
    free_at_once(candidate, used);
    assert(d_chars(Seq::<u8>::empty()).len() == 0);
    assert(candidate(0) == cut(d_chars(b), 30));
}

/// A file whose name has no extension is named as a directory, with ";1" behind
/// it: a name without a dot, with one in front, or whose last dot ends it.
pub proof fn free_names_without_extension(name: Seq<char>, used: Set<Seq<u8>>)
    requires
        ({
            let b = encode_utf8(name);
            ||| forall|i: int| 0 <= i < b.len() ==> #[trigger] b[i] != 46
            ||| b.len() > 0 && (b[0] == 46 || b.last() == 46)
        }),
    ensures
        base_id(name, true, Set::empty()) matches Some(id) && id.len() >= 2 && becomes_up_to(
            encode_utf8(name),
            id.take(id.len() - 2),
            30,
        ) && id[id.len() - 2] == 59 && id.last() == 49 && (!used.contains(id) ==> base_id(
            name,
            true,
            used,
        ) == Some(id)),
{
    let b = encode_utf8(name);
    let candidate = base_candidates(b, true);
    free_at_once(candidate, used);
    last_dot_is_last(b);
    assert(!has_ext(b));
    assert(d_chars(Seq::<u8>::empty()).len() == 0);
    let plain = cut(d_chars(b), 30);
    assert(candidate(0) == plain + seq![59u8, 49u8]);
    assert(candidate(0).take(candidate(0).len() - 2) =~= plain);
}

/// Whether an identifier is made of a stem up to `s`, a dot, an extension and
/// ";1": at most 12 bytes of the extension, and of the stem what then fits in 30
/// bytes.
pub open spec fn made_of(id: Seq<u8>, s: int, stem: Seq<u8>, ext: Seq<u8>) -> bool {
    let e = id.len() - 2;
    &&& 0 < s < e
    &&& id[s] == 46
    &&& becomes_up_to(ext, id.subrange(s + 1, e), 12)
    &&& becomes_up_to(stem, id.take(s), 30 - (e - s))
    &&& id[e] == 59
    &&& id[e + 1] == 49
}

/// A file with an extension behind the last dot of its name is named by the
/// stem, '.', at most 12 bytes of the extension, and ";1". The stem is cut so
/// that there are 30 bytes at most before ";1".
pub proof fn free_names_with_extension(name: Seq<char>, dot: int, used: Set<Seq<u8>>)
    requires
        ({
            let b = encode_utf8(name);
            &&& 0 < dot < b.len() - 1
            &&& b[0] != 46
            &&& b[dot] == 46
            &&& forall|i: int| dot < i < b.len() ==> #[trigger] b[i] != 46
        }),
    ensures
        ({
            let b = encode_utf8(name);
            let id = base_id(name, true, Set::empty())->0;
            &&& base_id(name, true, Set::empty()) is Some
            &&& exists|s: int| #[trigger] made_of(id, s, b.take(dot), b.skip(dot + 1))
            &&& !used.contains(id) ==> base_id(name, true, used) == Some(id)
        }),
{
    let b = encode_utf8(name);
    let candidate = base_candidates(b, true);
    free_at_once(candidate, used);
    last_dot_is_last(b);
    assert(last_dot(b) == dot);
    let stem = d_chars(b.take(dot));
    let ext = d_chars(b.skip(dot + 1));
    let y = cut(ext, 12);
    let x = cut(stem, stem_room(ext));
    let id = candidate(0);
    assert(id == x.push(46) + y + seq![59u8, 49u8]);
    let s = x.len() as int;
    let e = id.len() - 2;
    assert(id[s] == 46);
    assert(id.subrange(s + 1, e) =~= y);
    assert(id.take(s) =~= x);
    assert(30 - (e - s) == stem_room(ext));
    assert(becomes_up_to(b.skip(dot + 1), y, 12));
    assert(becomes_up_to(b.take(dot), x, stem_room(ext)));
    assert(made_of(id, s, b.take(dot), b.skip(dot + 1)));
}

proof fn free_at_once(candidate: spec_fn(nat) -> Seq<u8>, used: Set<Seq<u8>>)
    ensures
        unique_id(candidate, Set::empty()) == Some(candidate(0)),
        !used.contains(candidate(0)) ==> unique_id(candidate, used) == Some(candidate(0)),
{
}

proof fn last_dot_is_last(b: Seq<u8>)
    ensures
        -1 <= last_dot(b) < b.len(),
        last_dot(b) >= 0 ==> b[last_dot(b)] == 46,
        forall|i: int| last_dot(b) < i < b.len() ==> #[trigger] b[i] != 46,
    decreases b.len(),
{
    if b.len() > 0 && b.last() != 46 {
        last_dot_is_last(b.drop_last());
        assert forall|i: int| last_dot(b) < i < b.len() implies #[trigger] b[i] != 46 by {
            if i < b.len() - 1 {
                assert(b.drop_last()[i] == b[i]);
            }
        }
    }
}

/// Whether a text holds ASCII letters, digits and '_' only.
pub open spec fn plain_word(s: Seq<char>) -> bool {
    forall|i: int|
        0 <= i < s.len() ==> ('a' <= #[trigger] s[i] <= 'z' || 'A' <= s[i] <= 'Z' || '0' <= s[i]
            <= '9' || s[i] == '_')
}

/// The bytes of an ASCII text, with the letter 32 below for each of a to z.
pub open spec fn capital_bytes(s: Seq<char>) -> Seq<u8> {
    Seq::new(
        s.len(),
        |i: int|
            if 'a' <= s[i] <= 'z' {
                (s[i] as int - 32) as u8
            } else {
                s[i] as u8
            },
    )
}

/// A name of letters, digits and '_', of 30 characters at most, keeps every
/// character where it is free: in upper case, with ";1" behind it for a file.
pub proof fn plain_words_are_kept(name: Seq<char>, used: Set<Seq<u8>>)
    requires
        name.len() <= 30,
        plain_word(name),
    ensures
        !used.contains(capital_bytes(name)) ==> base_id(name, false, used) == Some(
            capital_bytes(name),
        ),
        !used.contains(capital_bytes(name) + seq![59u8, 49u8]) ==> base_id(name, true, used)
            == Some(capital_bytes(name) + seq![59u8, 49u8]),
{
    assert(is_ascii_chars(name));
    is_ascii_chars_encode_utf8(name);
    let b = encode_utf8(name);
    free_directory_names(name, used);
    let id = base_id(name, false, Set::empty())->0;
    assert(id =~= capital_bytes(name)) by {
        assert forall|i: int| 0 <= i < id.len() implies id[i] == #[trigger] capital_bytes(
            name,
        )[i] by {
            assert(becomes(b[i], id[i]));
            assert(b[i] == name[i] as u8);
        }
    }
    assert forall|i: int| 0 <= i < b.len() implies #[trigger] b[i] != 46 by {
        assert(b[i] == name[i] as u8);
    }
    free_names_without_extension(name, used);
    let file_id = base_id(name, true, Set::empty())->0;
    let head = file_id.take(file_id.len() - 2);
    assert(head =~= capital_bytes(name)) by {
        assert forall|i: int| 0 <= i < head.len() implies head[i] == #[trigger] capital_bytes(
            name,
        )[i] by {
            assert(becomes(b[i], head[i]));
            assert(b[i] == name[i] as u8);
        }
    }
    assert(file_id =~= capital_bytes(name) + seq![59u8, 49u8]);
}

/// A file name of a stem, a dot and an extension, both of letters, digits and
/// '_', keeps every character where it is free and is not too long: in upper
/// case, with ";1" behind it.
pub proof fn plain_names_are_kept(stem: Seq<char>, ext: Seq<char>, used: Set<Seq<u8>>)
    requires
        plain_word(stem),
        plain_word(ext),
        0 < stem.len(),
        0 < ext.len() <= 12,
        stem.len() + 1 + ext.len() <= 30,
        !used.contains(capital_bytes(stem).push(46) + capital_bytes(ext) + seq![59u8, 49u8]),
    ensures
        base_id(stem.push('.') + ext, true, used) == Some(
            capital_bytes(stem).push(46) + capital_bytes(ext) + seq![59u8, 49u8],
        ),
{
    let name = stem.push('.') + ext;
    let dot = stem.len() as int;
    let b = encode_utf8(name);
    assert forall|i: int| 0 <= i < name.len() implies (#[trigger] name[i] as u32) < 128 by {
        if i < dot {
            assert(name[i] == stem[i]);
        } else if i > dot {
            assert(name[i] == ext[i - dot - 1]);
        }
    }
    assert(is_ascii_chars(name));
    is_ascii_chars_encode_utf8(name);
    assert(b[0] == stem[0] as u8);
    assert(b[dot] == '.' as u8);
    assert forall|i: int| dot < i < b.len() implies #[trigger] b[i] != 46 by {
        assert(b[i] == ext[i - dot - 1] as u8);
    }
    free_names_with_extension(name, dot, used);
    let id = base_id(name, true, Set::empty())->0;
    let s = choose|s: int| #[trigger] made_of(id, s, b.take(dot), b.skip(dot + 1));
    let e = id.len() - 2;
    let y = id.subrange(s + 1, e);
    let x = id.take(s);
    assert(y.len() == ext.len());
    assert(x.len() == stem.len());
    assert(y =~= capital_bytes(ext)) by {
        assert forall|i: int| 0 <= i < y.len() implies y[i] == #[trigger] capital_bytes(
            ext,
        )[i] by {
            assert(becomes(b.skip(dot + 1)[i], y[i]));
            assert(b.skip(dot + 1)[i] == ext[i] as u8);
        }
    }
    assert(x =~= capital_bytes(stem)) by {
        assert forall|i: int| 0 <= i < x.len() implies x[i] == #[trigger] capital_bytes(
            stem,
        )[i] by {
            assert(becomes(b.take(dot)[i], x[i]));
            assert(b.take(dot)[i] == stem[i] as u8);
        }
    }
    assert(id =~= x.push(46) + y + seq![59u8, 49u8]);
}

/// Whether `at` is where the stem of an identifier ends: at the first dot or
/// ';', or at the end.
pub open spec fn stem_ends(id: Seq<u8>, at: int) -> bool {
    &&& 0 <= at <= id.len()
    &&& forall|i: int| 0 <= i < at ==> #[trigger] id[i] != 46 && id[i] != 59
    &&& at < id.len() ==> id[at] == 46 || id[at] == 59
}

/// An identifier with "_k" put in before position `at`, where as many bytes
/// stay in front of it as fit in 30, and the version of a file.
pub open spec fn numbered_at(plain: Seq<u8>, at: int, is_file: bool, k: nat) -> Seq<u8> {
    let max = if is_file {
        32int
    } else {
        30
    };
    let mark = seq![95u8] + decimal(k);
    let room = max - mark.len() - (plain.len() - at);
    plain.take(
        if at <= room {
            at
        } else {
            room
        },
    ) + mark + plain.skip(at)
}

/// Where the plain identifier is taken, "_1", "_2" and so on go before the dot
/// or the ";1", whichever comes first, and the first free one of these is
/// taken. Only where all of them up to "_100000" are taken is there none.
pub proof fn taken_names_are_numbered(
    name: Seq<char>,
    is_file: bool,
    used: Set<Seq<u8>>,
    at: int,
    k: nat,
)
    requires
        base_id(name, is_file, Set::empty()) matches Some(plain) && stem_ends(plain, at)
            && used.contains(plain),
        1 <= k <= 100_001,
        ({
            let plain = base_id(name, is_file, Set::empty())->0;
            &&& forall|j: nat|
                1 <= j < k ==> used.contains(#[trigger] numbered_at(plain, at, is_file, j))
            &&& k <= 100_000 ==> !used.contains(numbered_at(plain, at, is_file, k))
        }),
    ensures
        base_id(name, is_file, used) == if k <= 100_000 {
            Some(numbered_at(base_id(name, is_file, Set::empty())->0, at, is_file, k))
        } else {
            None
        },
{
    let b = encode_utf8(name);
    let candidate = base_candidates(b, is_file);
    let plain = base_id(name, is_file, Set::empty())->0;
    free_at_once(candidate, used);
    assert forall|j: nat| 0 <= j < k implies used.contains(#[trigger] candidate(j)) by {
        if j > 0 {
            candidate_is_numbered(b, is_file, at, j);
            assert(used.contains(numbered_at(plain, at, is_file, j)));
        }
    }
    if k <= 100_000 {
        candidate_is_numbered(b, is_file, at, k);
        first_free_is_first(candidate, used, 0, k);
    } else {
        all_are_taken(candidate, used, 0);
    }
}

proof fn first_free_is_first(
    candidate: spec_fn(nat) -> Seq<u8>,
    used: Set<Seq<u8>>,
    from: nat,
    k: nat,
)
    requires
        from <= k <= 100_000,
        forall|j: nat| from <= j < k ==> used.contains(#[trigger] candidate(j)),
        !used.contains(candidate(k)),
    ensures
        first_free(candidate, used, from) == Some(k),
    decreases k - from,
{
    if from < k {
        assert(used.contains(candidate(from)));
        first_free_is_first(candidate, used, from + 1, k);
    }
}

proof fn all_are_taken(candidate: spec_fn(nat) -> Seq<u8>, used: Set<Seq<u8>>, from: nat)
    requires
        forall|j: nat| from <= j <= 100_000 ==> used.contains(#[trigger] candidate(j)),
    ensures
        first_free(candidate, used, from) is None,
    decreases 100_001 - from,
{
    if from <= 100_000 {
        assert(used.contains(candidate(from)));
        all_are_taken(candidate, used, from + 1);
    }
}

/// A plain base identifier is the stem and what stands behind it.
proof fn plain_is_stem_and_tail(b: Seq<u8>, is_file: bool, stem0: Seq<u8>, ext: Seq<u8>)
    requires
        stem0 == d_chars(
            if is_file {
                stem_of(b)
            } else {
                b
            },
        ),
        ext == d_chars(
            if is_file {
                ext_of(b)
            } else {
                Seq::empty()
            },
        ),
    ensures
        base_candidates(b, is_file)(0) == cut(stem0, stem_room(ext)) + base_tail(b, is_file),
        base_tail(b, is_file).len() == (if is_file {
            32int
        } else {
            30
        }) - stem_room(ext),
        base_tail(b, is_file).len() > 0 ==> base_tail(b, is_file)[0] == 46 || base_tail(
            b,
            is_file,
        )[0] == 59,
        17 <= stem_room(ext) <= 30,
        stem_ends(cut(stem0, stem_room(ext)), cut(stem0, stem_room(ext)).len() as int),
{
    let head = cut(stem0, stem_room(ext));
    assert(base_candidates(b, is_file)(0) =~= head + base_tail(b, is_file));
    assert forall|i: int| 0 <= i < head.len() implies #[trigger] head[i] != 46 && head[i] != 59 by {
        assert(head[i] == stem0[i]);
    }
}

/// The stem of a base identifier ends where the dot or the version starts.
proof fn stem_ends_before_tail(head: Seq<u8>, tail: Seq<u8>, at: int)
    requires
        stem_ends(head + tail, at),
        stem_ends(head, head.len() as int),
        tail.len() > 0 ==> tail[0] == 46 || tail[0] == 59,
    ensures
        at == head.len(),
{
    let plain = head + tail;
    if at < head.len() {
        assert(plain[at] == head[at]);
    }
    if at > head.len() {
        assert(plain[head.len() as int] == tail[0]);
    }
}

proof fn candidate_is_numbered(b: Seq<u8>, is_file: bool, at: int, k: nat)
    requires
        1 <= k <= 100_000,
        stem_ends(base_candidates(b, is_file)(0), at),
    ensures
        base_candidates(b, is_file)(k) == numbered_at(
            base_candidates(b, is_file)(0),
            at,
            is_file,
            k,
        ),
{
    let stem0 = d_chars(
        if is_file {
            stem_of(b)
        } else {
            b
        },
    );
    let ext = d_chars(
        if is_file {
            ext_of(b)
        } else {
            Seq::empty()
        },
    );
    let plain = base_candidates(b, is_file)(0);
    let room = stem_room(ext);
    let head = cut(stem0, room);
    let tail = base_tail(b, is_file);
    let (short, _) = base_candidate_form(b, is_file, k);
    plain_is_stem_and_tail(b, is_file, stem0, ext);
    stem_ends_before_tail(head, tail, at);
    suffix_fits(k);
    let mark = seq![95u8] + decimal(k);
    let left = room - mark.len();
    assert(plain.skip(at) =~= tail);
    let kept = plain.take(
        if at <= left {
            at
        } else {
            left
        },
    );
    assert(short =~= kept);
    assert(short.push(95) + decimal(k) + tail =~= kept + mark + tail);
}

// ---------------------------------------------------------------------------
// Joliet identifiers
// ---------------------------------------------------------------------------

/// Whether a UTF-16 unit is allowed in a Joliet name: no control character and
/// none of `/ \ : * ? " < > |`.
pub open spec fn joliet_allowed(u: u16) -> bool {
    !(u <= 0x1F || u == 0x2F || u == 0x5C || u == 0x3A || u == 0x2A || u == 0x3F || u == 0x22 || u
        == 0x3C || u == 0x3E || u == 0x7C || 0x7F <= u <= 0x9F)
}

/// The units of a text with '_' in place of every forbidden one.
pub open spec fn joliet_units(units: Seq<u16>) -> Seq<u16> {
    units.map_values(
        |u: u16|
            if joliet_allowed(u) {
                u
            } else {
                95u16
            },
    )
}

/// Whether a unit is the first half of a surrogate pair.
pub open spec fn high_surrogate(u: u16) -> bool {
    0xD800 <= u < 0xDC00
}

/// At most `max` units, without a dangling high surrogate at the end.
pub open spec fn cut_units(units: Seq<u16>, max: int) -> Seq<u16> {
    let head = if units.len() <= max {
        units
    } else {
        units.take(max)
    };
    if head.len() > 0 && high_surrogate(head.last()) {
        head.drop_last()
    } else {
        head
    }
}

/// UTF-16 units in big-endian bytes.
pub open spec fn be_units(units: Seq<u16>) -> Seq<u8>
    decreases units.len(),
{
    if units.len() == 0 {
        Seq::empty()
    } else {
        be_units(units.drop_last()) + be16(units.last() as int)
    }
}

/// The suffix that makes a Joliet name unique: '_' and a number.
pub open spec fn joliet_suffix(k: nat) -> Seq<u16> {
    seq![95u16] + decimal(k).map_values(|d: u8| d as u16)
}

/// The candidates for the Joliet identifier of a name: with nothing added, and
/// with "_1", "_2" and so on within 64 units.
pub open spec fn joliet_candidates(name: Seq<char>) -> spec_fn(nat) -> Seq<u8> {
    |k: nat|
        {
            let units = joliet_units(utf16(name));
            if k == 0 {
                be_units(cut_units(units, JOLIET_MAX as int))
            } else {
                let suffix = joliet_suffix(k);
                be_units(cut_units(units, JOLIET_MAX - suffix.len()) + suffix)
            }
        }
}

/// The Joliet identifier of a name where `used` is taken.
pub open spec fn joliet_name(name: Seq<char>, used: Set<Seq<u8>>) -> Option<Seq<u8>> {
    unique_id(joliet_candidates(name), used)
}

proof fn be_units_len(units: Seq<u16>)
    ensures
        be_units(units).len() == 2 * units.len(),
    decreases units.len(),
{
    if units.len() > 0 {
        be_units_len(units.drop_last());
    }
}

/// Joliet identifiers have at most 64 units, two bytes each.
pub proof fn joliet_name_len(name: Seq<char>, used: Set<Seq<u8>>)
    ensures
        joliet_name(name, used) matches Some(id) ==> id.len() <= 2 * JOLIET_MAX && id.len() % 2
            == 0,
{
    let candidate = joliet_candidates(name);
    first_free_is_free(candidate, used, 0);
    if let Some(k) = first_free(candidate, used, 0) {
        let units = joliet_units(utf16(name));
        if k == 0 {
            be_units_len(cut_units(units, JOLIET_MAX as int));
        } else {
            suffix_len(k);
            let suffix = joliet_suffix(k);
            be_units_len(cut_units(units, JOLIET_MAX - suffix.len()) + suffix);
        }
    }
}

proof fn suffix_len(k: nat)
    requires
        k <= LAST_SUFFIX,
    ensures
        2 <= joliet_suffix(k).len() <= 7,
        forall|i: int| 0 <= i < decimal(k).len() ==> 48 <= #[trigger] decimal(k)[i] <= 57,
{
    vstd::arithmetic::power::lemma_pow0(10);
    reveal_with_fuel(vstd::arithmetic::power::pow, 7);
    decimal_len(k, 5);
}

/// No text ends with half a character.
proof fn ends_whole(name: Seq<char>)
    ensures
        utf16(name).len() > 0 ==> !high_surrogate(utf16(name).last()),
{
    if name.len() > 0 {
        let c = name.last();
        vstd::utf8::char_is_scalar(c);
        assert(utf16(name).last() == char_units(c).last());
    }
}

/// A name that Joliet allows as it is, and that is free, becomes its
/// identifier unchanged.
pub proof fn joliet_keeps_plain_names(name: Seq<char>, used: Set<Seq<u8>>)
    requires
        utf16(name).len() <= JOLIET_MAX,
        forall|i: int|
            0 <= i < utf16(name).len() ==> joliet_allowed(#[trigger] utf16(name)[i]),
        !used.contains(be_units(utf16(name))),
    ensures
        joliet_name(name, used) == Some(be_units(utf16(name))),
{
    assert(joliet_units(utf16(name)) =~= utf16(name));
    ends_whole(name);
    assert(cut_units(utf16(name), JOLIET_MAX as int) == utf16(name));
    assert(joliet_candidates(name)(0) == be_units(utf16(name)));
}

proof fn be_units_injective(a: Seq<u16>, b: Seq<u16>)
    requires
        be_units(a) == be_units(b),
    ensures
        a == b,
    decreases a.len(),
{
    be_units_len(a);
    be_units_len(b);
    if a.len() == 0 {
        assert(a =~= b);
    } else {
        let s = be_units(a);
        let n = s.len() as int;
        be_units_len(a.drop_last());
        be_units_len(b.drop_last());
        assert(be_units(a.drop_last()) =~= s.take(n - 2));
        assert(be_units(b.drop_last()) =~= s.take(n - 2));
        be_units_injective(a.drop_last(), b.drop_last());
        assert(be16(a.last() as int) =~= s.skip(n - 2));
        assert(be16(b.last() as int) =~= s.skip(n - 2));
        same_unit(a.last(), b.last());
        assert(a =~= a.drop_last().push(a.last()));
        assert(b =~= b.drop_last().push(b.last()));
    }
}

proof fn same_unit(x: u16, y: u16)
    requires
        be16(x as int) == be16(y as int),
    ensures
        x == y,
{
    let a = be16(x as int);
    let b = be16(y as int);
    assert(a[0] == b[0] && a[1] == b[1]);
    assert(a[0] == x as int / 256 && b[0] == y as int / 256);
}

proof fn joliet_numbers_tell(name: Seq<char>)
    ensures
        numbers_tell(joliet_candidates(name)),
{
    let candidate = joliet_candidates(name);
    let units = joliet_units(utf16(name));
    assert forall|j: nat, k: nat|
        0 < j <= LAST_SUFFIX && 0 < k <= LAST_SUFFIX && #[trigger] candidate(j)
            == #[trigger] candidate(k) implies j == k by {
        let a = cut_units(units, JOLIET_MAX - joliet_suffix(j).len());
        let b = cut_units(units, JOLIET_MAX - joliet_suffix(k).len());
        suffix_len(j);
        suffix_len(k);
        be_units_injective(a + joliet_suffix(j), b + joliet_suffix(k));
        let x = decimal(j).map_values(|d: u8| d as u16);
        let y = decimal(k).map_values(|d: u8| d as u16);
        assert(a + joliet_suffix(j) =~= a.push(95u16) + x);
        assert(b + joliet_suffix(k) =~= b.push(95u16) + y);
        behind_last_mark(a, b, 95u16, x, y);
        assert(decimal(j) =~= decimal(k)) by {
            assert forall|i: int| 0 <= i < decimal(j).len() implies decimal(j)[i] == decimal(
                k,
            )[i] by {
                assert(x[i] == y[i]);
            }
        }
        decimal_is_injective(j, k);
    }
}

/// Every name gets a Joliet identifier, as long as fewer than 100000 are
/// taken.
pub proof fn joliet_name_is_found(name: Seq<char>, used: Set<Seq<u8>>)
    requires
        used.finite(),
        used.len() < 100_000,
    ensures
        joliet_name(name, used) is Some,
{
    joliet_numbers_tell(name);
    one_is_free(joliet_candidates(name), used);
}

/// Whether a UTF-16 unit is allowed in a Joliet name.
fn joliet_ok(u: u16) -> (r: bool)
    ensures
        r == joliet_allowed(u),
{
    !(u <= 0x1F || u == 0x2F || u == 0x5C || u == 0x3A || u == 0x2A || u == 0x3F || u == 0x22 || u
        == 0x3C || u == 0x3E || u == 0x7C || (0x7F <= u && u <= 0x9F))
}

/// The allowed units of a name, at most `max` of them. A high surrogate left
/// at the end by the cut is dropped.
fn joliet_encode(s: &str, max: usize) -> (out: Vec<u16>)
    requires
        max > 0,
    ensures
        out@ == cut_units(joliet_units(utf16(s@)), max as int),
{
    let units: Vec<u16> = encode_utf16(s);
    let n: usize = units.len();
    let mut out: Vec<u16> = Vec::new();
    let mut i: usize = 0;
    while i < n && i < max
        invariant
            n == units@.len(),
            i <= n,
            i <= max,
            out@ =~= joliet_units(units@).take(i as int),
        decreases n - i,
    {
        let u: u16 = units[i];
        out.push(
            if joliet_ok(u) {
                u
            } else {
                95
            },
        );
        i += 1;
    }
    let len: usize = out.len();
    if len > 0 {
        let last: u16 = out[len - 1];
        if 0xD800 <= last && last < 0xDC00 {
            out.pop();
        }
    }
    assert(out@ =~= cut_units(joliet_units(units@), max as int));
    out
}

/// UTF-16 units in big-endian bytes.
fn units_to_bytes(units: &Vec<u16>) -> (out: Vec<u8>)
    ensures
        out@ == be_units(units@),
{
    let n: usize = units.len();
    let mut out: Vec<u8> = Vec::new();
    let mut i: usize = 0;
    assert(units@.take(0) =~= Seq::<u16>::empty());
    while i < n
        invariant
            n == units@.len(),
            i <= n,
            out@ == be_units(units@.take(i as int)),
        decreases n - i,
    {
        assert(units@.take(i + 1).drop_last() =~= units@.take(i as int));
        assert(units@.take(i + 1).last() == units@[i as int]);
        append(&mut out, &be16_bytes(units[i]));
        i += 1;
    }
    assert(units@.take(n as int) =~= units@);
    out
}

/// The Joliet identifier (no version) of `name` that is still free in `used`,
/// which takes it up; `None` where every candidate is taken.
pub fn try_joliet_id(name: &str, used: &mut IdSet) -> (id: Option<Vec<u8>>)
    ensures
        joliet_name(name@, old(used)@) is None ==> id is None && final(used)@ == old(used)@,
        joliet_name(name@, old(used)@) matches Some(x) ==> id matches Some(y) && y@ == x
            && final(used)@ == old(used)@.insert(x),
{
    let ghost candidate = joliet_candidates(name@);
    let mut k: u64 = 0;
    while k <= LAST_SUFFIX
        invariant
            k <= LAST_SUFFIX + 1,
            candidate == joliet_candidates(name@),
            used@ == old(used)@,
            first_free(candidate, used@, k as nat) == first_free(candidate, used@, 0),
        decreases LAST_SUFFIX + 1 - k,
    {
        let id: Vec<u8> = if k == 0 {
            let units: Vec<u16> = joliet_encode(name, JOLIET_MAX);
            units_to_bytes(&units)
        } else {
            proof {
                suffix_len(k as nat);
            }
            let digits: Vec<u8> = decimal_digits(k as u128);
            let count: usize = digits.len();
            let mut units: Vec<u16> = joliet_encode(name, JOLIET_MAX - 1 - count);
            let ghost head = units@;
            units.push(95);
            let mut i: usize = 0;
            while i < count
                invariant
                    count == digits@.len(),
                    i <= count,
                    digits@ == decimal(k as nat),
                    units@ =~= head + joliet_suffix(k as nat).take(i + 1),
                decreases count - i,
            {
                units.push(digits[i] as u16);
                i += 1;
            }
            assert(joliet_suffix(k as nat).take(count + 1) =~= joliet_suffix(k as nat));
            units_to_bytes(&units)
        };
        assert(id@ == candidate(k as nat));
        let mut taken: Vec<u8> = Vec::new();
        append(&mut taken, id.as_slice());
        assert(taken@ =~= id@);
        if !used.contains(id.as_slice()) {
            used.insert(taken);
            return Some(id);
        }
        k += 1;
    }
    None
}

/// The Joliet identifier (no version) of a name. `used` is shared between the
/// directories and files of one parent directory.
pub fn joliet_id(name: &str, used: &mut IdSet) -> (id: Vec<u8>)
    requires
        joliet_name(name@, old(used)@) is Some,
    ensures
        Some(id@) == joliet_name(name@, old(used)@),
        !old(used)@.contains(id@),
        final(used)@ == old(used)@.insert(id@),
{
    proof {
        unique_id_is_free(joliet_candidates(name@), used@);
    }
    try_joliet_id(name, used).unwrap()
}

/// Whether `d` is what a unit of a name becomes: '_' for a control character
/// and for each of `/ \\ : * ? " < > |`, and itself otherwise.
pub open spec fn unit_becomes(u: u16, d: int) -> bool {
    if u < 32 || 127 <= u < 160 || u == 47 || u == 92 || u == 58 || u == 42 || u == 63 || u == 34
        || u == 60 || u == 62 || u == 124 {
        d == 95
    } else {
        d == u
    }
}

/// What tells the `k`-th identifier of a name: '_' and the digits of `k`, and
/// nothing for the plain one.
pub open spec fn number_mark(k: nat) -> Seq<u8> {
    if k == 0 {
        Seq::empty()
    } else {
        seq![95u8] + decimal(k)
    }
}

/// How many units of a name are kept where there is room for `room`: one less
/// where the cut would leave half a character.
pub open spec fn units_kept(units: Seq<u16>, room: int) -> int {
    if units.len() <= room {
        units.len() as int
    } else if 0xD800 <= units[room - 1] < 0xDC00 {
        room - 1
    } else {
        room
    }
}

/// Whether an identifier holds, in big-endian units, what the first units of a
/// name become and then the mark of `k`, within 64 units.
pub open spec fn reads_as_joliet(units: Seq<u16>, id: Seq<u8>, k: nat) -> bool {
    let m = units_kept(units, 64 - number_mark(k).len());
    &&& id.len() == 2 * (m + number_mark(k).len())
    &&& forall|i: int|
        0 <= i < m ==> unit_becomes(#[trigger] units[i], 256 * id[2 * i] + id[2 * i + 1])
    &&& forall|i: int|
        0 <= i < number_mark(k).len() ==> 256 * id[2 * (m + i)] + id[2 * (m + i) + 1]
            == #[trigger] number_mark(k)[i]
}

/// Whether every identifier of a name with a number below `end` is taken.
pub open spec fn joliet_taken(units: Seq<u16>, used: Set<Seq<u8>>, end: int) -> bool {
    forall|j: nat, x: Seq<u8>|
        j < end && #[trigger] reads_as_joliet(units, x, j) ==> used.contains(x)
}

/// The Joliet identifier of a name is the name itself in UTF-16, where that is
/// free; else it has the first number that makes it free, up to 100000.
pub proof fn joliet_names_read_back(name: Seq<char>, used: Set<Seq<u8>>)
    ensures
        match joliet_name(name, used) {
            Some(id) => !used.contains(id) && exists|k: nat|
                k <= 100_000 && #[trigger] reads_as_joliet(utf16(name), id, k) && joliet_taken(
                    utf16(name),
                    used,
                    k as int,
                ),
            None => joliet_taken(utf16(name), used, 100_001),
        },
{
    let candidate = joliet_candidates(name);
    let units = utf16(name);
    first_free_is_free(candidate, used, 0);
    let found = first_free(candidate, used, 0);
    let end = match found {
        Some(k) => k as int,
        None => 100_001,
    };
    assert forall|j: nat, x: Seq<u8>| j < end && #[trigger] reads_as_joliet(units, x, j) implies used.contains(
        x,
    ) by {
        taken_before(candidate, used, 0, j);
        candidate_reads(name, j);
        readings_agree(units, x, candidate(j), j);
    }
    assert(joliet_taken(units, used, end));
    match found {
        Some(k) => {
            candidate_reads(name, k);
            let id = joliet_name(name, used)->0;
            assert(id == candidate(k));
            assert(reads_as_joliet(units, id, k) && joliet_taken(units, used, k as int));
        },
        None => {
            assert(joliet_name(name, used) is None);
        },
    }
}

proof fn taken_before(candidate: spec_fn(nat) -> Seq<u8>, used: Set<Seq<u8>>, from: nat, j: nat)
    requires
        from <= j <= 100_000,
        first_free(candidate, used, from) matches Some(k) ==> j < k,
    ensures
        used.contains(candidate(j)),
    decreases j - from,
{
    if from < j {
        taken_before(candidate, used, from + 1, j);
    }
}

proof fn candidate_reads(name: Seq<char>, k: nat)
    requires
        k <= 100_000,
    ensures
        reads_as_joliet(utf16(name), joliet_candidates(name)(k), k),
{
    let raw = utf16(name);
    let units = joliet_units(raw);
    let id = joliet_candidates(name)(k);
    ends_whole(name);
    suffix_len(k);
    let suffix = if k == 0 {
        Seq::<u16>::empty()
    } else {
        joliet_suffix(k)
    };
    let mark = number_mark(k);
    let room = 64 - suffix.len();
    let head = cut_units(units, room);
    let whole = head + suffix;
    assert(head + Seq::<u16>::empty() =~= head);
    assert(id == be_units(whole));
    be_units_len(whole);
    assert(units.len() == raw.len());
    if raw.len() > 0 {
        assert(units.last() == raw.last() || units.last() == 95);
    }
    if raw.len() > room {
        assert(units.take(room).last() == units[room - 1]);
        assert(units[room - 1] == raw[room - 1] || units[room - 1] == 95);
    }
    assert(suffix.len() == mark.len());
    let m = units_kept(raw, 64 - number_mark(k).len());
    assert(m == head.len());
    assert(id.len() == 2 * (m + number_mark(k).len()));
    assert forall|i: int| 0 <= i < m implies unit_becomes(
        #[trigger] raw[i],
        256 * id[2 * i] + id[2 * i + 1],
    ) by {
        be_units_at(whole, i);
        assert(whole[i] == head[i]);
        assert(head[i] == units[i]);
    }
    assert forall|i: int| 0 <= i < number_mark(k).len() implies 256 * id[2 * (m + i)] + id[2 * (m
        + i) + 1] == #[trigger] number_mark(k)[i] by {
        be_units_at(whole, m + i);
        assert(whole[m + i] == suffix[i]);
        assert(suffix[i] == mark[i]);
    }
    assert(reads_as_joliet(raw, id, k));
}

proof fn be_units_at(units: Seq<u16>, i: int)
    requires
        0 <= i < units.len(),
    ensures
        be_units(units).len() == 2 * units.len(),
        256 * be_units(units)[2 * i] + be_units(units)[2 * i + 1] == units[i],
    decreases units.len(),
{
    be_units_len(units);
    be_units_len(units.drop_last());
    let before = be_units(units.drop_last());
    let x = units.last() as int;
    if i < units.len() - 1 {
        be_units_at(units.drop_last(), i);
        assert(be_units(units)[2 * i] == before[2 * i]);
        assert(be_units(units)[2 * i + 1] == before[2 * i + 1]);
    } else {
        assert(be_units(units)[2 * i] == be16(x)[0]);
        assert(be_units(units)[2 * i + 1] == be16(x)[1]);
        assert(256 * be16(x)[0] + be16(x)[1] == x);
    }
}

proof fn readings_agree(units: Seq<u16>, x: Seq<u8>, y: Seq<u8>, k: nat)
    requires
        reads_as_joliet(units, x, k),
        reads_as_joliet(units, y, k),
        k <= 100_000,
    ensures
        x == y,
{
    suffix_len(k);
    let mark = number_mark(k);
    let m = units_kept(units, 64 - mark.len());
    assert forall|i: int| 0 <= i < x.len() implies x[i] == y[i] by {
        let h = i / 2;
        assert(i == 2 * h || i == 2 * h + 1);
        if h < m {
            assert(unit_becomes(units[h], 256 * x[2 * h] + x[2 * h + 1]));
            assert(unit_becomes(units[h], 256 * y[2 * h] + y[2 * h + 1]));
            assert(x[2 * h] == y[2 * h] && x[2 * h + 1] == y[2 * h + 1]);
        } else {
            let t = h - m;
            assert(mark[t] == mark[t]);
            assert(256 * x[2 * (m + t)] + x[2 * (m + t) + 1] == mark[t]);
            assert(256 * y[2 * (m + t)] + y[2 * (m + t) + 1] == mark[t]);
        }
    }
    assert(x =~= y);
}

// ---------------------------------------------------------------------------
// labels
// ---------------------------------------------------------------------------

/// The character of a volume label for a byte: letters in upper case, digits,
/// and '_' for everything else.
pub open spec fn label_char(b: u8) -> char {
    d_char(b) as char
}

/// The label made from raw bytes: at most 32 characters, "FS2ISO" where there
/// are none.
pub open spec fn label_of(raw: Seq<u8>) -> Seq<char> {
    if raw.len() == 0 {
        "FS2ISO"@
    } else if raw.len() <= 32 {
        raw.map_values(|b: u8| label_char(b))
    } else {
        raw.take(32).map_values(|b: u8| label_char(b))
    }
}

/// Cleans a volume label: ASCII letters (in upper case) and digits are kept,
/// every other byte becomes '_'; at most 32 characters.
pub fn sanitize_label(raw: &str) -> (out: String)
    ensures
        out@ == label_of(encode_utf8(raw@)),
{
    let bytes: &[u8] = raw.as_bytes();
    let n: usize = bytes.len();
    if n == 0 {
        return "FS2ISO".to_string();
    }
    let mut out: String = String::new();
    let mut i: usize = 0;
    while i < n && i < 32
        invariant
            n == bytes@.len(),
            i <= n,
            i <= 32,
            out@ =~= bytes@.take(i as int).map_values(|b: u8| label_char(b)),
        decreases n - i,
    {
        out.push(d_map(bytes[i]) as char);
        i += 1;
    }
    assert(bytes@.take(n as int) =~= bytes@);
    out
}

/// Whether a character can stand in a label.
pub open spec fn label_safe(c: char) -> bool {
    48 <= c as int <= 57 || 65 <= c as int <= 90 || c as int == 95
}

/// A label has 1 to 32 characters: upper-case ASCII letters, digits and '_'.
pub proof fn label_is_clean(raw: Seq<u8>)
    ensures
        1 <= label_of(raw).len() <= 32,
        forall|i: int| 0 <= i < label_of(raw).len() ==> label_safe(#[trigger] label_of(raw)[i]),
{
    reveal_strlit("FS2ISO");
}

/// Cleaning a label again changes nothing.
pub proof fn label_stays(raw: Seq<u8>)
    ensures
        label_of(encode_utf8(label_of(raw))) == label_of(raw),
{
    let label = label_of(raw);
    label_is_clean(raw);
    assert(is_ascii_chars(label));
    is_ascii_chars_encode_utf8(label);
    let again = encode_utf8(label);
    assert forall|i: int| 0 <= i < label.len() implies label_char(again[i]) == #[trigger] label[i] by {
        assert(label_safe(label[i]));
    }
    assert(again.map_values(|b: u8| label_char(b)) =~= label);
}

/// A label holds what the bytes become, 32 at most: letters in upper case,
/// digits and '_', and '_' for everything else. Without any it is "FS2ISO".
pub proof fn labels_read_back(raw: Seq<u8>)
    ensures
        raw.len() == 0 ==> label_of(raw) == seq!['F', 'S', '2', 'I', 'S', 'O'],
        raw.len() > 0 ==> label_of(raw).len() == if raw.len() <= 32 {
            raw.len() as int
        } else {
            32
        },
        raw.len() > 0 ==> forall|i: int|
            0 <= i < label_of(raw).len() ==> (#[trigger] label_of(raw)[i] as int) < 128 && becomes(
                raw[i],
                label_of(raw)[i] as u8,
            ),
{
    reveal_strlit("FS2ISO");
    if raw.len() == 0 {
        assert(label_of(raw) =~= seq!['F', 'S', '2', 'I', 'S', 'O']);
    }
}

} // verus!
