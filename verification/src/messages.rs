//! What the messages of errors tell: every path, name, number and cause that an
//! error carries.
use vstd::prelude::*;
use crate::artifacts::HideError;
use crate::collect::{failure_text, Failure};
use crate::esp::{esp_text, EspError};
use crate::gather::{trouble_text, Trouble};
use crate::image::{build_text, BuildError};
use crate::text::{ascii_chars, decimal, quoted, quoted_char};

verus! {

/// Whether `part` stands in `m` from position `i` on.
pub open spec fn stands(m: Seq<char>, part: Seq<char>, i: int) -> bool {
    0 <= i && i + part.len() <= m.len() && m.subrange(i, i + part.len()) == part
}

/// Whether the given texts stand in `m` at the given positions, one behind the
/// other.
pub open spec fn stand_at(m: Seq<char>, parts: Seq<Seq<char>>, at: Seq<int>) -> bool {
    &&& at.len() == parts.len()
    &&& forall|k: int| 0 <= k < parts.len() ==> stands(m, #[trigger] parts[k], at[k])
    &&& forall|k: int, l: int|
        0 <= k < l < parts.len() ==> #[trigger] at[k] + parts[k].len() <= #[trigger] at[l]
}

/// Whether `m` tells the given texts, one behind the other.
pub open spec fn tells(m: Seq<char>, parts: Seq<Seq<char>>) -> bool {
    exists|at: Seq<int>| #[trigger] stand_at(m, parts, at)
}

/// Texts with words before, between and behind them.
spec fn woven(words: Seq<Seq<char>>, parts: Seq<Seq<char>>) -> Seq<char>
    decreases parts.len(),
{
    if parts.len() == 0 {
        words[0]
    } else {
        woven(words.drop_last(), parts.drop_last()) + parts.last() + words.last()
    }
}

proof fn woven_tells(words: Seq<Seq<char>>, parts: Seq<Seq<char>>)
    requires
        words.len() == parts.len() + 1,
    ensures
        tells(woven(words, parts), parts),
    decreases parts.len(),
{
    let m = woven(words, parts);
    if parts.len() == 0 {
        assert(stand_at(m, parts, Seq::empty()));
    } else {
        let less = parts.drop_last();
        let had = woven(words.drop_last(), less);
        woven_tells(words.drop_last(), less);
        let at = choose|at: Seq<int>| #[trigger] stand_at(had, less, at);
        let n = less.len() as int;
        let now = at.push(had.len() as int);
        assert forall|k: int| 0 <= k < parts.len() implies stands(m, #[trigger] parts[k], now[k]) by {
            if k < n {
                assert(stands(had, less[k], at[k]));
                assert(m.subrange(at[k], at[k] + parts[k].len()) =~= had.subrange(
                    at[k],
                    at[k] + parts[k].len(),
                ));
            } else {
                let end = had.len() as int + parts[k].len();
                assert(m.subrange(had.len() as int, end) =~= parts[k]);
            }
        }
        assert forall|k: int, l: int| 0 <= k < l < parts.len() implies #[trigger] now[k]
            + parts[k].len() <= #[trigger] now[l] by {
            assert(stands(had, less[k], at[k]));
            if l < n {
                assert(at[k] + less[k].len() <= at[l]);
            }
        }
        assert(stand_at(m, parts, now));
    }
}

/// The messages of the payload walk tell the names and paths at fault.
pub proof fn failures_tell(f: Failure)
    ensures
        match f {
            Failure::DuplicateRoot { name, previous, source } => tells(
                failure_text(f),
                seq![name, previous, source],
            ),
            Failure::DuplicateName { name, dir, previous_name, previous } => tells(
                failure_text(f),
                seq![name, dir, previous_name, previous],
            ),
            Failure::TooDeep { dir } => tells(failure_text(f), seq![dir]),
            Failure::Cycle { dir } => tells(failure_text(f), seq![dir]),
            Failure::BadInput { input } => tells(failure_text(f), seq![input]),
            Failure::NoFiles => true,
        },
{
    reveal_with_fuel(woven, 6);
    let none = Seq::<char>::empty();
    let m = failure_text(f);
    match f {
        Failure::DuplicateRoot { name, previous, source } => {
            let words = seq!["duplicate root name '"@, "' from "@, " and "@, none];
            let parts = seq![name, previous, source];
            woven_tells(words, parts);
            assert(m =~= woven(words, parts));
        },
        Failure::DuplicateName { name, dir, previous_name, previous } => {
            let words = seq![
                "duplicate image name '"@,
                "' in directory '"@,
                "': collides with '"@,
                "' from "@,
                " (ISO9660/FAT names are case-insensitive)"@,
            ];
            let parts = seq![name, dir, previous_name, previous];
            woven_tells(words, parts);
            assert(m =~= woven(words, parts));
        },
        Failure::TooDeep { dir } => {
            let words = seq!["directory nesting too deep under "@, " (possible link cycle?)"@];
            woven_tells(words, seq![dir]);
            assert(m =~= woven(words, seq![dir]));
        },
        Failure::Cycle { dir } => {
            let words = seq!["directory cycle detected at "@, " (re-entered a junction/link)"@];
            woven_tells(words, seq![dir]);
            assert(m =~= woven(words, seq![dir]));
        },
        Failure::BadInput { input } => {
            let words = seq!["bad input path "@, none];
            woven_tells(words, seq![input]);
            assert(m =~= woven(words, seq![input]));
        },
        Failure::NoFiles => {},
    }
}

/// The messages of the walk that gathers a tree tell the path or name at fault.
pub proof fn troubles_tell(x: Trouble)
    ensures
        match x {
            Trouble::MissingInput { input } => tells(trouble_text(x), seq![input]),
            Trouble::TooDeep { path } => tells(trouble_text(x), seq![path]),
            Trouble::Loop { dir } => tells(trouble_text(x), seq![dir]),
            Trouble::TooLarge { file } => tells(trouble_text(x), seq![file]),
            Trouble::Unsupported { path } => tells(trouble_text(x), seq![path]),
            Trouble::DuplicateRoot { name } => tells(trouble_text(x), seq![quoted(name)]),
            Trouble::NoPayload => true,
        },
{
    reveal_with_fuel(woven, 3);
    let none = Seq::<char>::empty();
    let m = trouble_text(x);
    match x {
        Trouble::MissingInput { input } => {
            let words = seq!["input does not exist: "@, none];
            woven_tells(words, seq![input]);
            assert(m =~= woven(words, seq![input]));
        },
        Trouble::TooDeep { path } => {
            let words = seq!["directory nesting too deep at "@, none];
            woven_tells(words, seq![path]);
            assert(m =~= woven(words, seq![path]));
        },
        Trouble::Loop { dir } => {
            let words = seq!["directory loop detected at "@, none];
            woven_tells(words, seq![dir]);
            assert(m =~= woven(words, seq![dir]));
        },
        Trouble::TooLarge { file } => {
            let words = seq!["file too large for ISO9660 (max 4 GiB): "@, none];
            woven_tells(words, seq![file]);
            assert(m =~= woven(words, seq![file]));
        },
        Trouble::Unsupported { path } => {
            let words = seq![
                "unsupported file type (not a regular file or directory): "@,
                none,
            ];
            woven_tells(words, seq![path]);
            assert(m =~= woven(words, seq![path]));
        },
        Trouble::DuplicateRoot { name } => {
            let words = seq![
                "duplicate root entry name "@,
                " (two inputs map to the same ISO path)"@,
            ];
            woven_tells(words, seq![quoted(name)]);
            assert(m =~= woven(words, seq![quoted(name)]));
        },
        Trouble::NoPayload => {},
    }
}

/// The messages of the FAT container tell the paths and names at fault, the
/// bytes in question and the cause.
pub proof fn container_errors_tell(e: EspError)
    ensures
        match e {
            EspError::Empty => true,
            EspError::EmptyLeaf { path } => tells(esp_text(e), seq![quoted(path@)]),
            EspError::EmptyComponent { path } => tells(esp_text(e), seq![quoted(path@)]),
            EspError::BadCharacter { path, bad, component } => tells(
                esp_text(e),
                seq![quoted(path@), quoted_char(bad), quoted(component@)],
            ),
            EspError::BadEdge { path, component } => tells(
                esp_text(e),
                seq![quoted(path@), quoted(component@)],
            ),
            EspError::Duplicate { leaf, dir, previous } => tells(
                esp_text(e),
                seq![quoted(leaf@), dir@, quoted(previous@)],
            ),
            EspError::TooLarge { payload } => tells(
                esp_text(e),
                seq![ascii_chars(decimal(payload as nat))],
            ),
            EspError::Format { cause } => tells(esp_text(e), seq![cause@]),
            EspError::Open { cause } => tells(esp_text(e), seq![cause@]),
            EspError::Stats { cause } => tells(esp_text(e), seq![cause@]),
            EspError::Sizing { free, payload } => tells(
                esp_text(e),
                seq![ascii_chars(decimal(free as nat)), ascii_chars(decimal(payload as nat))],
            ),
            EspError::CreateDir { component, path, cause } => tells(
                esp_text(e),
                seq![quoted(component@), quoted(path@), cause@],
            ),
            EspError::CreateFile { path, cause } => tells(
                esp_text(e),
                seq![quoted(path@), cause@],
            ),
            EspError::Write { path, cause } => tells(esp_text(e), seq![quoted(path@), cause@]),
            EspError::Flush { path, cause } => tells(esp_text(e), seq![quoted(path@), cause@]),
        },
{
    reveal_with_fuel(woven, 5);
    let none = Seq::<char>::empty();
    let m = esp_text(e);
    match e {
        EspError::Empty => {},
        EspError::EmptyLeaf { path } => {
            let words = seq![
                "bad path "@,
                " in FAT container: empty or trailing-slash component"@,
            ];
            woven_tells(words, seq![quoted(path@)]);
            assert(m =~= woven(words, seq![quoted(path@)]));
        },
        EspError::EmptyComponent { path } => {
            let words = seq!["bad path "@, " in FAT container: empty path component"@];
            woven_tells(words, seq![quoted(path@)]);
            assert(m =~= woven(words, seq![quoted(path@)]));
        },
        EspError::BadCharacter { path, bad, component } => {
            let words = seq![
                "cannot pack "@,
                " into the FAT container: character "@,
                " in "@,
                " is not allowed in FAT names"@,
            ];
            let parts = seq![quoted(path@), quoted_char(bad), quoted(component@)];
            woven_tells(words, parts);
            assert(m =~= woven(words, parts));
        },
        EspError::BadEdge { path, component } => {
            let words = seq![
                "cannot pack "@,
                " into the FAT container: "@,
                " starts/ends with a space or ends with a dot, which FAT cannot represent"@,
            ];
            let parts = seq![quoted(path@), quoted(component@)];
            woven_tells(words, parts);
            assert(m =~= woven(words, parts));
        },
        EspError::Duplicate { leaf, dir, previous } => {
            let root = dir@.len() == 0;
            let words = seq![
                "duplicate name "@,
                " in "@ + if root {
                    "the FAT container root"@
                } else {
                    "FAT directory '"@
                },
                (if root {
                    none
                } else {
                    "'"@
                }) + ": collides with "@,
                " (FAT names are case-insensitive; rename one of the payload files)"@,
            ];
            let parts = seq![quoted(leaf@), dir@, quoted(previous@)];
            woven_tells(words, parts);
            assert(m =~= woven(words, parts));
        },
        EspError::TooLarge { payload } => {
            let words = seq!["payload too large for the FAT container ("@, " bytes > 4 GiB)"@];
            let parts = seq![ascii_chars(decimal(payload as nat))];
            woven_tells(words, parts);
            assert(m =~= woven(words, parts));
        },
        EspError::Format { cause } => {
            woven_tells(seq!["FAT format failed: "@, none], seq![cause@]);
            assert(m =~= woven(seq!["FAT format failed: "@, none], seq![cause@]));
        },
        EspError::Open { cause } => {
            woven_tells(seq!["FAT open failed: "@, none], seq![cause@]);
            assert(m =~= woven(seq!["FAT open failed: "@, none], seq![cause@]));
        },
        EspError::Stats { cause } => {
            woven_tells(seq!["FAT stats failed: "@, none], seq![cause@]);
            assert(m =~= woven(seq!["FAT stats failed: "@, none], seq![cause@]));
        },
        EspError::Sizing { free, payload } => {
            let words = seq![
                "internal sizing error: FAT volume free space ("@,
                " B) < payload ("@,
                " B); increase FORMATTING_SLACK_BYTES in src/esp.rs"@,
            ];
            let parts = seq![
                ascii_chars(decimal(free as nat)),
                ascii_chars(decimal(payload as nat)),
            ];
            woven_tells(words, parts);
            assert(m =~= woven(words, parts));
        },
        EspError::CreateDir { component, path, cause } => {
            let words = seq!["cannot create directory "@, " for "@, ": "@, none];
            let parts = seq![quoted(component@), quoted(path@), cause@];
            woven_tells(words, parts);
            assert(m =~= woven(words, parts));
        },
        EspError::CreateFile { path, cause } => {
            let words = seq!["cannot create "@, " in FAT container: "@, none];
            woven_tells(words, seq![quoted(path@), cause@]);
            assert(m =~= woven(words, seq![quoted(path@), cause@]));
        },
        EspError::Write { path, cause } => {
            let words = seq!["cannot write "@, " in FAT container: "@, none];
            woven_tells(words, seq![quoted(path@), cause@]);
            assert(m =~= woven(words, seq![quoted(path@), cause@]));
        },
        EspError::Flush { path, cause } => {
            let words = seq!["cannot flush "@, " in FAT container: "@, none];
            woven_tells(words, seq![quoted(path@), cause@]);
            assert(m =~= woven(words, seq![quoted(path@), cause@]));
        },
    }
}

/// The messages of a build tell the path or name at fault and the cause; what a
/// walk or the patching says goes to the user as it is.
pub proof fn build_errors_tell(e: BuildError)
    ensures
        match e {
            BuildError::NoInputs => true,
            BuildError::Collection(message) => build_text(e) == message@,
            BuildError::OutputPath(message) => build_text(e) == message@,
            BuildError::OutputConflict(path) => tells(build_text(e), seq![path@]),
            BuildError::ReservedArtifact(name) => tells(build_text(e), seq![name@]),
            BuildError::PayloadRead { path, message } => tells(
                build_text(e),
                seq![path@, message@],
            ),
            BuildError::ImageBuild(message) => tells(build_text(e), seq![message@]),
            BuildError::OutputCreate { path, message } => tells(
                build_text(e),
                seq![path@, message@],
            ),
            BuildError::OutputFinalize { path, message } => tells(
                build_text(e),
                seq![path@, message@],
            ),
            BuildError::ArtifactPatch(message) => build_text(e) == message@,
        },
{
    reveal_with_fuel(woven, 4);
    let none = Seq::<char>::empty();
    let m = build_text(e);
    match e {
        BuildError::OutputConflict(path) => {
            let words = seq!["output image "@, " would overwrite a payload file"@];
            woven_tells(words, seq![path@]);
            assert(m =~= woven(words, seq![path@]));
        },
        BuildError::ReservedArtifact(name) => {
            let words = seq![
                "payload contains a root-level file named '"@,
                "', which is reserved for an engine artifact (esp.img / boot.catalog); rename it"@,
            ];
            woven_tells(words, seq![name@]);
            assert(m =~= woven(words, seq![name@]));
        },
        BuildError::PayloadRead { path, message } => {
            woven_tells(seq!["cannot read "@, ": "@, none], seq![path@, message@]);
            assert(m =~= woven(seq!["cannot read "@, ": "@, none], seq![path@, message@]));
        },
        BuildError::ImageBuild(message) => {
            woven_tells(seq!["image build failed: "@, none], seq![message@]);
            assert(m =~= woven(seq!["image build failed: "@, none], seq![message@]));
        },
        BuildError::OutputCreate { path, message } => {
            woven_tells(seq!["cannot create "@, ": "@, none], seq![path@, message@]);
            assert(m =~= woven(seq!["cannot create "@, ": "@, none], seq![path@, message@]));
        },
        BuildError::OutputFinalize { path, message } => {
            woven_tells(seq!["cannot finalize "@, ": "@, none], seq![path@, message@]);
            assert(m =~= woven(seq!["cannot finalize "@, ": "@, none], seq![path@, message@]));
        },
        _ => {},
    }
}

/// Where nothing was found to hide, the message tells the image.
pub proof fn hide_errors_tell(shown: Seq<char>)
    ensures
        tells(HideError::NoneFound.text(shown), seq![shown]),
{
    reveal_with_fuel(woven, 3);
    let words = seq!["internal: expected to hide engine artifacts in "@, ", none found"@];
    woven_tells(words, seq![shown]);
    assert(HideError::NoneFound.text(shown) =~= woven(words, seq![shown]));
}

} // verus!
