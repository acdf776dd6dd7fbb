//! Which records are hidden in a finished image: those of the engine's own
//! files in the root directories of the volume descriptors.
use vstd::prelude::*;
use crate::artifacts::{
    artifact_at, artifact_offsets, artifacts_among, before_version, hide_in, hide_tree, hiding,
    id_at, joliet_escape_at, next_record, note_descriptor, record_offsets, records_sound, root_data,
    root_len, root_start, root_within, scan, signature_at, sound_at, units_of, Descriptors,
    HideError,
};
use crate::text::{lossy_utf16, lossy_utf8, uppercase};

verus! {

// ---------------------------------------------------------------------------
// records of a directory
// ---------------------------------------------------------------------------

/// Whether a reader of a directory stands at these offsets one after the other:
/// at each there is room for 34 bytes; it goes on behind a record by the length
/// that its first byte tells, which does not lead past the end, and to the next
/// sector of 2048 bytes where that byte is zero.
pub open spec fn reads_on(data: Seq<u8>, start: int, at: Seq<int>) -> bool {
    &&& at.len() > 0
    &&& at[0] == start
    &&& forall|i: int|
        0 <= i < at.len() ==> (#[trigger] at[i]) + 34 <= data.len() && at[i] + data[at[i]]
            <= data.len()
    &&& forall|i: int, j: int|
        0 <= i < at.len() - 1 && j == i + 1 ==> #[trigger] at[j] == if data[#[trigger] at[i]] == 0 {
            at[i] - at[i] % 2048 + 2048
        } else {
            at[i] + data[at[i]]
        }
}

/// Whether a reader of a directory comes to a record at `o`.
pub open spec fn reader_finds(data: Seq<u8>, start: int, o: int) -> bool {
    exists|at: Seq<int>| #[trigger] reads_on(data, start, at) && at.last() == o && data[o] != 0
}

/// The records looked at are those that a reader of the directory comes to.
pub proof fn all_records_are_looked_at(data: Seq<u8>, o: int)
    ensures
        record_offsets(data, 0).contains(o) <==> reader_finds(data, 0, o),
{
    if record_offsets(data, 0).contains(o) {
        offsets_are_found(data, 0, o);
    }
    if reader_finds(data, 0, o) {
        let at = choose|at: Seq<int>| #[trigger]
            reads_on(data, 0, at) && at.last() == o && data[o] != 0;
        found_is_offset(data, 0, at);
    }
}

proof fn offsets_are_found(data: Seq<u8>, pos: int, o: int)
    requires
        0 <= pos,
        record_offsets(data, pos).contains(o),
    ensures
        reader_finds(data, pos, o),
    decreases data.len() + 2048 - pos,
{
    let all = record_offsets(data, pos);
    let next = next_record(data, pos)->0;
    if data[pos] != 0 && all[0] == o {
        assert(reads_on(data, pos, seq![pos]));
        assert(seq![pos].last() == o);
    } else {
        let rest = record_offsets(data, next);
        assert(rest.contains(o)) by {
            let k = choose|k: int| 0 <= k < all.len() && all[k] == o;
            if data[pos] != 0 {
                assert(all == seq![pos] + rest);
                assert(rest[k - 1] == o);
            }
        }
        offsets_are_found(data, next, o);
        let at = choose|at: Seq<int>| #[trigger]
            reads_on(data, next, at) && at.last() == o && data[o] != 0;
        let more = seq![pos] + at;
        assert(next == if data[pos] == 0 {
            pos - pos % 2048 + 2048
        } else {
            pos + data[pos]
        });
        assert forall|i: int| 0 <= i < more.len() implies (#[trigger] more[i]) + 34 <= data.len()
            && more[i] + data[more[i]] <= data.len() by {
            if i > 0 {
                assert(more[i] == at[i - 1]);
            }
        }
        assert forall|i: int, j: int| 0 <= i < more.len() - 1 && j == i + 1 implies #[trigger] more[j]
            == if data[#[trigger] more[i]] == 0 {
            more[i] - more[i] % 2048 + 2048
        } else {
            more[i] + data[more[i]]
        } by {
            assert(more[j] == at[j - 1]);
            if i > 0 {
                assert(more[i] == at[i - 1]);
            }
        }
        assert(reads_on(data, pos, more));
        assert(more.last() == o);
    }
}

proof fn found_is_offset(data: Seq<u8>, start: int, at: Seq<int>)
    requires
        0 <= start,
        reads_on(data, start, at),
        data[at.last()] != 0,
    ensures
        record_offsets(data, start).contains(at.last()),
    decreases at.len(),
{
    let all = record_offsets(data, start);
    assert(at[0] + 34 <= data.len());
    if at.len() == 1 {
        assert(all[0] == start);
    } else {
        let rest = at.drop_first();
        let next = at[1];
        assert(at[1] == if data[at[0]] == 0 {
            at[0] - at[0] % 2048 + 2048
        } else {
            at[0] + data[at[0]]
        });
        assert forall|i: int| 0 <= i < rest.len() implies (#[trigger] rest[i]) + 34 <= data.len()
            && rest[i] + data[rest[i]] <= data.len() by {
            assert(rest[i] == at[i + 1]);
        }
        assert forall|i: int, j: int| 0 <= i < rest.len() - 1 && j == i + 1 implies #[trigger] rest[j]
            == if data[#[trigger] rest[i]] == 0 {
            rest[i] - rest[i] % 2048 + 2048
        } else {
            rest[i] + data[rest[i]]
        } by {
            assert(rest[i] == at[i + 1]);
            assert(rest[j] == at[j + 1]);
        }
        assert(reads_on(data, next, rest));
        found_is_offset(data, next, rest);
        let less = record_offsets(data, next);
        assert(next_record(data, start) == Some(next));
        let k = choose|k: int| 0 <= k < less.len() && less[k] == at.last();
        if data[start] == 0 {
            assert(all == less);
        } else {
            assert(all == seq![start] + less);
            assert(all[k + 1] == at.last());
        }
    }
}

// ---------------------------------------------------------------------------
// names
// ---------------------------------------------------------------------------

/// Whether the identifier of the record at `o` reads "esp.img" or
/// "boot.catalog" in UTF-16.
pub open spec fn names_artifact_joliet(data: Seq<u8>, o: int) -> bool {
    let n = data[o + 32] as int;
    let name = lossy_utf16(
        Seq::new(
            (n / 2) as nat,
            |i: int| (256 * data[o + 33 + 2 * i] + data[o + 34 + 2 * i]) as u16,
        ),
    );
    ||| name == seq!['e', 's', 'p', '.', 'i', 'm', 'g']
    ||| name == seq!['b', 'o', 'o', 't', '.', 'c', 'a', 't', 'a', 'l', 'o', 'g']
}

/// Whether the identifier of the record at `o` reads, up to the first ';' and in
/// upper case, "ESP.IMG" or "BOOT.CATALOG".
pub open spec fn names_artifact_base(data: Seq<u8>, o: int, end: int) -> bool {
    let name = uppercase(lossy_utf8(data.subrange(o + 33, end)));
    ||| name == seq!['E', 'S', 'P', '.', 'I', 'M', 'G']
    ||| name == seq!['B', 'O', 'O', 'T', '.', 'C', 'A', 'T', 'A', 'L', 'O', 'G']
}

/// The records that are hidden in a Joliet directory are those named "esp.img"
/// and "boot.catalog".
pub proof fn hidden_in_joliet(data: Seq<u8>, o: int)
    requires
        record_offsets(data, 0).contains(o),
        o + 33 + data[o + 32] <= data.len(),
    ensures
        artifact_offsets(data, true).contains(o) <==> names_artifact_joliet(data, o),
{
    reveal_strlit("esp.img");
    reveal_strlit("boot.catalog");
    among_are_artifacts(data, true, record_offsets(data, 0), o);
    assert("esp.img"@ =~= seq!['e', 's', 'p', '.', 'i', 'm', 'g']);
    assert("boot.catalog"@ =~= seq![
        'b',
        'o',
        'o',
        't',
        '.',
        'c',
        'a',
        't',
        'a',
        'l',
        'o',
        'g',
    ]);
    let n = data[o + 32] as int;
    let units = Seq::new(
        (n / 2) as nat,
        |i: int| (256 * data[o + 33 + 2 * i] + data[o + 34 + 2 * i]) as u16,
    );
    record_is_within(data, 0, o);
    assert(units_of(id_at(data, o)) =~= units);
}

/// The records that are hidden in a base directory are those named "ESP.IMG"
/// and "BOOT.CATALOG" in any case, whatever their version.
pub proof fn hidden_in_base(data: Seq<u8>, o: int, end: int)
    requires
        record_offsets(data, 0).contains(o),
        o + 33 <= end <= o + 33 + data[o + 32],
        forall|i: int| o + 33 <= i < end ==> #[trigger] data[i] != 59,
        end < o + 33 + data[o + 32] ==> data[end] == 59,
        o + 33 + data[o + 32] <= data.len(),
    ensures
        artifact_offsets(data, false).contains(o) <==> names_artifact_base(data, o, end),
{
    reveal_strlit("ESP.IMG");
    reveal_strlit("BOOT.CATALOG");
    among_are_artifacts(data, false, record_offsets(data, 0), o);
    assert("ESP.IMG"@ =~= seq!['E', 'S', 'P', '.', 'I', 'M', 'G']);
    assert("BOOT.CATALOG"@ =~= seq![
        'B',
        'O',
        'O',
        'T',
        '.',
        'C',
        'A',
        'T',
        'A',
        'L',
        'O',
        'G',
    ]);
    record_is_within(data, 0, o);
    let id = id_at(data, o);
    version_is_cut(id, end - o - 33);
    assert(id.take(end - o - 33) =~= data.subrange(o + 33, end));
}

proof fn version_is_cut(id: Seq<u8>, n: int)
    requires
        0 <= n <= id.len(),
        forall|i: int| 0 <= i < n ==> #[trigger] id[i] != 59,
        n < id.len() ==> id[n] == 59,
    ensures
        before_version(id) == id.take(n),
    decreases n,
{
    if n == 0 {
        assert(id.take(0) =~= Seq::<u8>::empty());
    } else {
        let rest = id.drop_first();
        assert forall|i: int| 0 <= i < n - 1 implies #[trigger] rest[i] != 59 by {
            assert(rest[i] == id[i + 1]);
        }
        version_is_cut(rest, n - 1);
        assert(id[0] != 59);
        assert(id.take(n) =~= seq![id[0]] + rest.take(n - 1));
    }
}

proof fn record_is_within(data: Seq<u8>, off: int, o: int)
    requires
        record_offsets(data, off).contains(o),
    ensures
        0 <= o,
        o + 34 <= data.len(),
    decreases data.len() + 2048 - off,
{
    let all = record_offsets(data, off);
    let k = choose|k: int| 0 <= k < all.len() && all[k] == o;
    let next = next_record(data, off)->0;
    if data[off] == 0 {
        record_is_within(data, next, o);
    } else if k > 0 {
        let rest = record_offsets(data, next);
        assert(all == seq![off] + rest);
        assert(rest[k - 1] == o);
        record_is_within(data, next, o);
    }
}

proof fn among_are_artifacts(data: Seq<u8>, joliet: bool, offs: Seq<int>, o: int)
    requires
        offs.contains(o),
    ensures
        artifacts_among(data, joliet, offs).contains(o) <==> artifact_at(data, joliet, o),
    decreases offs.len(),
{
    among_are_offsets(data, joliet, offs, o);
    let k = choose|k: int| 0 <= k < offs.len() && offs[k] == o;
    let less = artifacts_among(data, joliet, offs.drop_last());
    let all = artifacts_among(data, joliet, offs);
    if k < offs.len() - 1 {
        assert(offs.drop_last()[k] == o);
        among_are_artifacts(data, joliet, offs.drop_last(), o);
        if less.contains(o) {
            let i = choose|i: int| 0 <= i < less.len() && less[i] == o;
            assert(all[i] == o);
        }
    } else if artifact_at(data, joliet, o) {
        assert(all[all.len() - 1] == o);
    }
}

proof fn among_are_offsets(data: Seq<u8>, joliet: bool, offs: Seq<int>, o: int)
    ensures
        artifacts_among(data, joliet, offs).contains(o) ==> artifact_at(data, joliet, o)
            && offs.contains(o),
    decreases offs.len(),
{
    if offs.len() > 0 {
        among_are_offsets(data, joliet, offs.drop_last(), o);
        let less = artifacts_among(data, joliet, offs.drop_last());
        let all = artifacts_among(data, joliet, offs);
        if all.contains(o) {
            let i = choose|i: int| 0 <= i < all.len() && all[i] == o;
            if i < less.len() {
                assert(less[i] == o);
                let k = choose|k: int| 0 <= k < offs.drop_last().len() && offs.drop_last()[k] == o;
                assert(offs[k] == o);
            } else {
                assert(offs[offs.len() - 1] == o);
            }
        }
    }
}

// ---------------------------------------------------------------------------
// descriptors
// ---------------------------------------------------------------------------

/// Whether a sector starts with a descriptor of the given type.
pub open spec fn descriptor_at(image: Seq<u8>, k: int, kind: u8) -> bool {
    let o = k * 2048;
    image[o] == kind && image[o + 1] == 67 && image[o + 2] == 68 && image[o + 3] == 48 && image[o
        + 4] == 48 && image[o + 5] == 49
}

/// Whether a sector holds a supplementary descriptor with "%/E".
pub open spec fn joliet_at(image: Seq<u8>, k: int) -> bool {
    descriptor_at(image, k, 2) && image[k * 2048 + 88] == 37 && image[k * 2048 + 89] == 47 && image[k
        * 2048 + 90] == 69
}

/// Whether the descriptors from sector `a` on end with sector `t`: the first
/// that starts with 255.
pub open spec fn ends_at(image: Seq<u8>, a: int, t: int) -> bool {
    &&& a <= t
    &&& (t + 1) * 2048 <= image.len()
    &&& image[t * 2048] == 255
    &&& forall|k: int| a <= k < t ==> #[trigger] image[k * 2048] != 255
}

/// The descriptors found are the last primary and the first Joliet one, from
/// sector 16 on and before the sector that ends them; where no sector does,
/// none are.
pub proof fn descriptors_are_scanned(image: Seq<u8>)
    ensures
        match scan(image, 16, (Descriptors { primary: None, joliet: None })) {
            None => forall|t: int| !#[trigger] ends_at(image, 16, t),
            Some(found) => exists|t: int| #[trigger]
                ends_at(image, 16, t) && primary_is(image, 16, t, found.primary, None) && joliet_is(
                    image,
                    16,
                    t,
                    found.joliet,
                    None,
                ),
        },
{
    scan_finds(image, 16, Descriptors { primary: None, joliet: None });
}

/// Whether `p` is the last primary descriptor in the sectors from `a` to `t`,
/// or `before` where there is none.
pub open spec fn primary_is(
    image: Seq<u8>,
    a: int,
    t: int,
    p: Option<int>,
    before: Option<int>,
) -> bool {
    ||| p matches Some(k) && a <= k < t && descriptor_at(image, k, 1) && forall|j: int|
        k < j < t ==> !#[trigger] descriptor_at(image, j, 1)
    ||| p == before && forall|j: int| a <= j < t ==> !#[trigger] descriptor_at(image, j, 1)
}

/// Whether `p` is the first Joliet descriptor in the sectors from `a` to `t`,
/// where there was none before.
pub open spec fn joliet_is(
    image: Seq<u8>,
    a: int,
    t: int,
    p: Option<int>,
    before: Option<int>,
) -> bool {
    if before is Some {
        p == before
    } else {
        match p {
            Some(k) => a <= k < t && joliet_at(image, k) && forall|j: int|
                a <= j < k ==> !#[trigger] joliet_at(image, j),
            None => forall|j: int| a <= j < t ==> !#[trigger] joliet_at(image, j),
        }
    }
}

proof fn scan_finds(image: Seq<u8>, lba: int, found: Descriptors)
    requires
        0 <= lba,
    ensures
        match scan(image, lba, found) {
            None => forall|t: int| !#[trigger] ends_at(image, lba, t),
            Some(all) => exists|t: int| #[trigger]
                ends_at(image, lba, t) && primary_is(
                    image,
                    lba,
                    t,
                    all.primary,
                    found.primary,
                ) && joliet_is(image, lba, t, all.joliet, found.joliet),
        },
    decreases image.len() - lba * 2048,
{
    if (lba + 1) * 2048 > image.len() {
        assert forall|t: int| !#[trigger] ends_at(image, lba, t) by {}
    } else if image[lba * 2048] == 255 {
        assert(ends_at(image, lba, lba));
    } else {
        let next = note_descriptor(image, lba, found);
        scan_finds(image, lba + 1, next);
        assert(signature_at(image, lba * 2048) && image[lba * 2048] == 1 <==> descriptor_at(
            image,
            lba,
            1,
        ));
        assert(signature_at(image, lba * 2048) && image[lba * 2048] == 2 && joliet_escape_at(
            image,
            lba * 2048,
        ) <==> joliet_at(image, lba));
        match scan(image, lba, found) {
            None => {
                assert forall|t: int| !#[trigger] ends_at(image, lba, t) by {
                    if ends_at(image, lba, t) {
                        assert(t != lba);
                        assert(ends_at(image, lba + 1, t));
                    }
                }
            },
            Some(all) => {
                let t = choose|t: int| #[trigger]
                    ends_at(image, lba + 1, t) && primary_is(
                        image,
                        lba + 1,
                        t,
                        all.primary,
                        next.primary,
                    ) && joliet_is(image, lba + 1, t, all.joliet, next.joliet);
                assert(ends_at(image, lba, t));
                assert(primary_is(image, lba, t, all.primary, found.primary));
                assert(joliet_is(image, lba, t, all.joliet, found.joliet));
            },
        }
    }
}

// ---------------------------------------------------------------------------
// what comes of it
// ---------------------------------------------------------------------------

/// The number in the four bytes at `o`, the lowest first.
pub open spec fn number_at(b: Seq<u8>, o: int) -> int {
    b[o] + 256 * b[o + 1] + 65536 * b[o + 2] + 16777216 * b[o + 3]
}

/// The root directory of a descriptor lies where its record says: at the sector
/// that bytes 158 to 161 of the descriptor tell, as long as bytes 166 to 169
/// tell.
pub proof fn roots_are_looked_up(image: Seq<u8>, k: int)
    ensures
        ({
            let start = 2048 * number_at(image, 2048 * k + 158);
            let len = number_at(image, 2048 * k + 166);
            let data = root_data(image, k);
            &&& root_within(image, k) <==> len == 0 || start + len <= image.len()
            &&& root_within(image, k) ==> data.len() == len
            &&& root_within(image, k) ==> forall|i: int|
                0 <= i < len ==> #[trigger] data[i] == image[start + i]
        }),
{
    assert(root_len(image, k) == number_at(image, 2048 * k + 166));
    assert(root_start(image, k) == 2048 * number_at(image, 2048 * k + 158));
}

/// Hiding in one namespace sets the lowest bit of byte 25 of every record found
/// that names an artifact, and changes nothing else. It fails, and changes
/// nothing, exactly where the root directory does not lie within the image or
/// where one of its records is too short for its identifier.
pub proof fn flags_are_marked(image: Seq<u8>, k: int, joliet: bool, i: int)
    requires
        0 <= i < image.len(),
    ensures
        ({
            let (now, r) = hide_tree(image, k, joliet);
            let start = 2048 * number_at(image, 2048 * k + 158);
            let len = number_at(image, 2048 * k + 166);
            let data = root_data(image, k);
            let found = artifact_offsets(data, joliet);
            &&& now.len() == image.len()
            &&& r is Ok && found.contains(i - start - 25) ==> now[i] == image[i] | 1
            &&& r is Ok && !found.contains(i - start - 25) ==> now[i] == image[i]
            &&& r is Err ==> now == image
            &&& r matches Ok(n) ==> n == found.len()
            &&& r == Err::<int, HideError>(HideError::Truncated) <==> len > 0 && start + len
                > image.len()
            &&& r == Err::<int, HideError>(HideError::BadRecord) <==> (len == 0 || start + len
                <= image.len()) && exists|o: int| #[trigger]
                record_offsets(data, 0).contains(o) && 33 + data[o + 32] > data[o]
        }),
{
    roots_are_looked_up(image, k);
    let data = root_data(image, k);
    let offs = record_offsets(data, 0);
    if !records_sound(data) {
        let x = choose|x: int| 0 <= x < offs.len() && !sound_at(data, #[trigger] offs[x]);
        assert(offs.contains(offs[x]));
    } else {
        assert forall|o: int| #[trigger] offs.contains(o) implies 33 + data[o + 32] <= data[o] by {
            let x = choose|x: int| 0 <= x < offs.len() && offs[x] == o;
            assert(sound_at(data, offs[x]));
        }
    }
    if image.len() > 0 {
        assert(number_at(image, 2048 * k + 166) >= 0);
    }
}

/// Hiding succeeds where an artifact was found in one of the namespaces, fails
/// with nothing changed where there is none in either, and otherwise fails
/// because the descriptors do not end or a namespace cannot be gone through.
pub proof fn hiding_has_an_outcome(image: Seq<u8>)
    ensures
        ({
            let (now, r) = hiding(image);
            match scan(image, 16, (Descriptors { primary: None, joliet: None })) {
                None => now == image && r == Err::<(), HideError>(HideError::Truncated),
                Some(found) => {
                    let base = match found.primary {
                        Some(k) => hide_tree(image, k, false).0,
                        None => image,
                    };
                    let in_base = found.primary matches Some(k) && artifact_offsets(
                        root_data(image, k),
                        false,
                    ).len() > 0;
                    let in_joliet = found.joliet matches Some(k) && artifact_offsets(
                        root_data(base, k),
                        true,
                    ).len() > 0;
                    &&& r is Ok ==> in_base || in_joliet
                    &&& r == Err::<(), HideError>(HideError::NoneFound) ==> !in_base && !in_joliet
                        && now == image
                    &&& r is Err && r != Err::<(), HideError>(HideError::NoneFound) ==> {
                        ||| found.primary matches Some(k) && hide_tree(image, k, false).1 is Err
                            && now == image
                        ||| found.joliet matches Some(k) && hide_tree(base, k, true).1 is Err
                            && now == base
                    }
                },
            }
        }),
{
    if let Some(found) = scan(image, 16, Descriptors { primary: None, joliet: None }) {
        if hiding(image).1 == Err::<(), HideError>(HideError::NoneFound) {
            let base = hide_in(image, found.primary, false).0;
            if let Some(k) = found.primary {
                assert(artifact_offsets(root_data(image, k), false).len() == 0);
                assert(base =~= image);
            }
            if let Some(k) = found.joliet {
                assert(artifact_offsets(root_data(base, k), true).len() == 0);
                assert(hide_in(base, found.joliet, true).0 =~= base);
            }
        }
    }
}

} // verus!
