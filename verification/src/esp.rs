//! The FAT container (`esp.img`).
//!
//! Every payload file and directory goes in here as it is (original names,
//! original structure). The El Torito boot record points at the container, so
//! that firmware exposes it as a FAT volume.
//!
//! The image is sized to the payload: FAT16 up to 2 GiB, FAT32 above, at least
//! 1 MiB, at most 4 GiB.
//!
//! FAT finds entries without regard to case, and by the short names that it
//! generates. A file or directory that would be taken for another entry is an
//! error: nothing is merged or overwritten.
use vstd::prelude::*;
use crate::bytes::{ceil_div_spec, quotients_are_rounded_up, zeroed, zeros};
use crate::collect::{ascii_upper, fold};
use crate::fat::{
    fat_finds, fat_format, fat_makes_dir, fat_puts_file, fat_space, fat_tree, format_image,
    free_space, fresh_path, has_dir, has_dir_at, has_file, has_place, make_dir, mistaken,
    open_image, plain_name, plain_tree, put_file, told_apart, FatTree, PutFault,
};
use crate::image::{folding_ignores_case_only, same_but_case};
use crate::paths::{last_slash, leaf_of, parent_of};
use crate::text::{
    ascii_chars, ascii_upper_char, debug_char, debug_text, decimal, push_number, quoted, quoted_char,
    str_eq,
};

verus! {

/// Smallest image.
pub const MINIMUM_IMAGE_BYTES: u64 = 0x10_0000;

/// Room for FAT tables, root directory and other overhead.
pub const FORMATTING_SLACK_BYTES: u64 = 0x8_0000;

/// Room for a directory that no file lies in: a cluster of the largest size,
/// and its entry in another directory.
pub const DIRECTORY_BYTES: u64 = 0x8400;

/// Above this size the volume is FAT32.
pub const FAT32_THRESHOLD_BYTES: u64 = 0x8000_0000;

/// Largest image.
pub const MAXIMUM_IMAGE_BYTES: u64 = 0x1_0000_0000;

// ---------------------------------------------------------------------------
// paths
// ---------------------------------------------------------------------------

/// The components of a path: the texts between its '/' characters.
pub open spec fn components(path: Seq<char>) -> Seq<Seq<char>>
    decreases path.len(),
{
    if path.len() == 0 {
        seq![Seq::empty()]
    } else {
        let init = components(path.drop_last());
        if path.last() == '/' {
            init.push(Seq::empty())
        } else {
            init.drop_last().push(init.last().push(path.last()))
        }
    }
}

/// Characters that FAT names do not hold: `" * / : < > ? \ |` and controls.
pub open spec fn forbidden(c: char) -> bool {
    ||| c == '"' || c == '*' || c == '/' || c == ':' || c == '<' || c == '>' || c == '?' || c
        == '\\' || c == '|'
    ||| (c as u32) < 0x20
    ||| c as u32 == 0x7F
}

/// The first forbidden character of a name.
pub open spec fn first_forbidden(name: Seq<char>) -> Option<char>
    decreases name.len(),
{
    if name.len() == 0 {
        None
    } else {
        match first_forbidden(name.drop_last()) {
            Some(c) => Some(c),
            None => if forbidden(name.last()) {
                Some(name.last())
            } else {
                None
            },
        }
    }
}

/// Whether a name starts or ends with a space, or ends with a dot.
pub open spec fn bad_edge(name: Seq<char>) -> bool {
    name.len() > 0 && (name[0] == ' ' || name.last() == ' ' || name.last() == '.')
}

/// What is wrong with a payload path.
pub enum Fault {
    EmptyLeaf { path: Seq<char> },
    EmptyComponent { path: Seq<char> },
    BadCharacter { path: Seq<char>, bad: char, component: Seq<char> },
    BadEdge { path: Seq<char>, component: Seq<char> },
    Duplicate { leaf: Seq<char>, dir: Seq<char>, previous: Seq<char> },
}

/// What is wrong with one component of a path. At the end of a name, the
/// noncharacter U+FFFF is lost among those that fill up FAT names.
pub open spec fn component_fault(path: Seq<char>, component: Seq<char>) -> Option<Fault> {
    match first_forbidden(component) {
        Some(bad) => Some(Fault::BadCharacter { path, bad, component }),
        None => if component.len() > 0 && component.last() == '\u{FFFF}' {
            Some(Fault::BadCharacter { path, bad: '\u{FFFF}', component })
        } else if bad_edge(component) {
            Some(Fault::BadEdge { path, component })
        } else {
            None
        },
    }
}

/// What is wrong with the first of the components that has a fault.
pub open spec fn first_component_fault(path: Seq<char>, list: Seq<Seq<char>>) -> Option<Fault>
    decreases list.len(),
{
    if list.len() == 0 {
        None
    } else {
        match first_component_fault(path, list.drop_last()) {
            Some(f) => Some(f),
            None => component_fault(path, list.last()),
        }
    }
}

/// The first of the `n` paths before it that lies in the same place as `path`,
/// where ASCII case does not count.
pub open spec fn earlier_twin(paths: Seq<Seq<char>>, n: int, path: Seq<char>) -> Option<Seq<char>>
    decreases n,
{
    if n <= 0 {
        None
    } else {
        match earlier_twin(paths, n - 1, path) {
            Some(q) => Some(q),
            None => {
                let q = paths[n - 1];
                if fold(parent_of(q)) == fold(parent_of(path)) && fold(leaf_of(q)) == fold(
                    leaf_of(path),
                ) {
                    Some(q)
                } else {
                    None
                }
            },
        }
    }
}

/// What is wrong with the names of a path.
pub open spec fn name_fault(path: Seq<char>) -> Option<Fault> {
    let list = components(path);
    if list.last().len() == 0 {
        Some(Fault::EmptyLeaf { path })
    } else if exists|j: int| 0 <= j < list.len() - 1 && (#[trigger] list[j]).len() == 0 {
        Some(Fault::EmptyComponent { path })
    } else {
        first_component_fault(path, list)
    }
}

/// What is wrong with path `i` of a payload, given that nothing is wrong with
/// those before it.
pub open spec fn path_fault(paths: Seq<Seq<char>>, i: int) -> Option<Fault> {
    let path = paths[i];
    match name_fault(path) {
        Some(f) => Some(f),
        None => match earlier_twin(paths, i, path) {
            Some(q) => Some(
                Fault::Duplicate {
                    leaf: leaf_of(path),
                    dir: parent_of(path),
                    previous: leaf_of(q),
                },
            ),
            None => None,
        },
    }
}

/// What is wrong with the first of the first `n` directories that has a fault.
pub open spec fn first_dir_fault(dirs: Seq<Seq<char>>, n: int) -> Option<Fault>
    decreases n,
{
    if n <= 0 {
        None
    } else {
        match first_dir_fault(dirs, n - 1) {
            Some(f) => Some(f),
            None => name_fault(dirs[n - 1]),
        }
    }
}

/// What is wrong with the first of the first `n` paths that has a fault.
pub open spec fn first_fault(paths: Seq<Seq<char>>, n: int) -> Option<Fault>
    decreases n,
{
    if n <= 0 {
        None
    } else {
        match first_fault(paths, n - 1) {
            Some(f) => Some(f),
            None => path_fault(paths, n - 1),
        }
    }
}

/// The components of a path joined with '/' are the path: the last one is its
/// leaf, the others are those of its directory.
proof fn components_split(path: Seq<char>)
    ensures
        components(path).len() > 0,
        components(path).last() == leaf_of(path),
        last_slash(path) >= 0 ==> components(path).drop_last() == components(parent_of(path)),
        last_slash(path) < 0 ==> components(path).len() == 1,
        -1 <= last_slash(path) < path.len(),
    decreases path.len(),
{
    if path.len() == 0 {
        assert(leaf_of(path) =~= Seq::<char>::empty());
    } else {
        let init = path.drop_last();
        components_split(init);
        if path.last() == '/' {
            assert(leaf_of(path) =~= Seq::<char>::empty());
            assert(components(path).drop_last() =~= components(init));
            assert(parent_of(path) =~= init);
        } else {
            assert(leaf_of(path) =~= leaf_of(init).push(path.last()));
            assert(components(path).drop_last() =~= components(init).drop_last());
            if last_slash(path) >= 0 {
                assert(parent_of(path) =~= parent_of(init));
            }
        }
    }
}

/// Why the FAT container could not be built.
#[derive(Debug)]
pub enum EspError {
    /// There is no content.
    Empty,
    /// A path ends with '/' or is empty.
    EmptyLeaf { path: String },
    /// A path has an empty directory name.
    EmptyComponent { path: String },
    /// A name holds a character that FAT forbids.
    BadCharacter { path: String, bad: char, component: String },
    /// A name starts or ends with a space, or ends with a dot.
    BadEdge { path: String, component: String },
    /// Two paths differ in case only.
    Duplicate { leaf: String, dir: String, previous: String },
    /// The container would be too large.
    TooLarge { payload: u128 },
    Format { cause: String },
    Open { cause: String },
    Stats { cause: String },
    /// The formatted volume has too little free space.
    Sizing { free: u64, payload: u128 },
    CreateDir { component: String, path: String, cause: String },
    CreateFile { path: String, cause: String },
    Write { path: String, cause: String },
    Flush { path: String, cause: String },
}

impl EspError {
    /// Whether this is the error of a path fault.
    pub open spec fn tells(&self, f: Fault) -> bool {
        match (self, f) {
            (EspError::EmptyLeaf { path }, Fault::EmptyLeaf { path: p }) => path@ == p,
            (EspError::EmptyComponent { path }, Fault::EmptyComponent { path: p }) => path@ == p,
            (
                EspError::BadCharacter { path, bad, component },
                Fault::BadCharacter { path: p, bad: b, component: c },
            ) => path@ == p && bad == b && component@ == c,
            (EspError::BadEdge { path, component }, Fault::BadEdge { path: p, component: c }) =>
                path@ == p && component@ == c,
            (
                EspError::Duplicate { leaf, dir, previous },
                Fault::Duplicate { leaf: l, dir: d, previous: q },
            ) => leaf@ == l && dir@ == d && previous@ == q,
            _ => false,
        }
    }
}

/// The text of an error.
pub open spec fn esp_text(e: EspError) -> Seq<char> {
    match e {
        EspError::Empty => "nothing to pack into the FAT container"@,
        EspError::EmptyLeaf { path } => "bad path "@ + quoted(path@)
            + " in FAT container: empty or trailing-slash component"@,
        EspError::EmptyComponent { path } => "bad path "@ + quoted(path@)
            + " in FAT container: empty path component"@,
        EspError::BadCharacter { path, bad, component } => "cannot pack "@ + quoted(path@)
            + " into the FAT container: character "@ + quoted_char(bad) + " in "@ + quoted(
            component@,
        ) + " is not allowed in FAT names"@,
        EspError::BadEdge { path, component } => "cannot pack "@ + quoted(path@)
            + " into the FAT container: "@ + quoted(component@)
            + " starts/ends with a space or ends with a dot, which FAT cannot represent"@,
        EspError::Duplicate { leaf, dir, previous } => "duplicate name "@ + quoted(leaf@) + " in "@
            + (if dir@.len() == 0 {
            "the FAT container root"@
        } else {
            "FAT directory '"@ + dir@ + "'"@
        }) + ": collides with "@ + quoted(previous@)
            + " (FAT names are case-insensitive; rename one of the payload files)"@,
        EspError::TooLarge { payload } => "payload too large for the FAT container ("@
            + ascii_chars(decimal(payload as nat)) + " bytes > 4 GiB)"@,
        EspError::Format { cause } => "FAT format failed: "@ + cause@,
        EspError::Open { cause } => "FAT open failed: "@ + cause@,
        EspError::Stats { cause } => "FAT stats failed: "@ + cause@,
        EspError::Sizing { free, payload } => "internal sizing error: FAT volume free space ("@
            + ascii_chars(decimal(free as nat)) + " B) < payload ("@ + ascii_chars(
            decimal(payload as nat),
        ) + " B); increase FORMATTING_SLACK_BYTES in src/esp.rs"@,
        EspError::CreateDir { component, path, cause } => "cannot create directory "@ + quoted(
            component@,
        ) + " for "@ + quoted(path@) + ": "@ + cause@,
        EspError::CreateFile { path, cause } => "cannot create "@ + quoted(path@)
            + " in FAT container: "@ + cause@,
        EspError::Write { path, cause } => "cannot write "@ + quoted(path@)
            + " in FAT container: "@ + cause@,
        EspError::Flush { path, cause } => "cannot flush "@ + quoted(path@)
            + " in FAT container: "@ + cause@,
    }
}

impl EspError {
    /// The message for a user.
    pub fn message(&self) -> (m: String)
        ensures
            m@ == esp_text(*self),
    {
        match self {
            EspError::Empty => "nothing to pack into the FAT container".to_string(),
            EspError::EmptyLeaf { path } => {
                let mut m: String = "bad path ".to_string();
                m.append(debug_text(path.as_str()).as_str());
                m.append(" in FAT container: empty or trailing-slash component");
                m
            },
            EspError::EmptyComponent { path } => {
                let mut m: String = "bad path ".to_string();
                m.append(debug_text(path.as_str()).as_str());
                m.append(" in FAT container: empty path component");
                m
            },
            EspError::BadCharacter { path, bad, component } => {
                let mut m: String = "cannot pack ".to_string();
                m.append(debug_text(path.as_str()).as_str());
                m.append(" into the FAT container: character ");
                m.append(debug_char(*bad).as_str());
                m.append(" in ");
                m.append(debug_text(component.as_str()).as_str());
                m.append(" is not allowed in FAT names");
                m
            },
            EspError::BadEdge { path, component } => {
                let mut m: String = "cannot pack ".to_string();
                m.append(debug_text(path.as_str()).as_str());
                m.append(" into the FAT container: ");
                m.append(debug_text(component.as_str()).as_str());
                m.append(
                    " starts/ends with a space or ends with a dot, which FAT cannot represent",
                );
                m
            },
            EspError::Duplicate { leaf, dir, previous } => {
                let mut m: String = "duplicate name ".to_string();
                m.append(debug_text(leaf.as_str()).as_str());
                m.append(" in ");
                let ghost head = m@;
                let place: String = place_text(dir.as_str());
                m.append(place.as_str());
                m.append(": collides with ");
                m.append(debug_text(previous.as_str()).as_str());
                m.append(" (FAT names are case-insensitive; rename one of the payload files)");
                m
            },
            EspError::TooLarge { payload } => {
                let mut m: String = "payload too large for the FAT container (".to_string();
                push_number(&mut m, *payload);
                m.append(" bytes > 4 GiB)");
                m
            },
            EspError::Format { cause } => {
                let mut m: String = "FAT format failed: ".to_string();
                m.append(cause.as_str());
                m
            },
            EspError::Open { cause } => {
                let mut m: String = "FAT open failed: ".to_string();
                m.append(cause.as_str());
                m
            },
            EspError::Stats { cause } => {
                let mut m: String = "FAT stats failed: ".to_string();
                m.append(cause.as_str());
                m
            },
            EspError::Sizing { free, payload } => {
                let mut m: String = "internal sizing error: FAT volume free space (".to_string();
                push_number(&mut m, *free as u128);
                m.append(" B) < payload (");
                push_number(&mut m, *payload);
                m.append(" B); increase FORMATTING_SLACK_BYTES in src/esp.rs");
                m
            },
            EspError::CreateDir { component, path, cause } => {
                let mut m: String = "cannot create directory ".to_string();
                m.append(debug_text(component.as_str()).as_str());
                m.append(" for ");
                m.append(debug_text(path.as_str()).as_str());
                m.append(": ");
                m.append(cause.as_str());
                m
            },
            EspError::CreateFile { path, cause } => fault_text("cannot create ", path, cause),
            EspError::Write { path, cause } => fault_text("cannot write ", path, cause),
            EspError::Flush { path, cause } => fault_text("cannot flush ", path, cause),
        }
    }
}

fn fault_text(what: &str, path: &String, cause: &String) -> (m: String)
    ensures
        m@ == what@ + quoted(path@) + " in FAT container: "@ + cause@,
{
    let mut m: String = what.to_string();
    m.append(debug_text(path.as_str()).as_str());
    m.append(" in FAT container: ");
    m.append(cause.as_str());
    m
}

fn place_text(dir: &str) -> (m: String)
    ensures
        m@ == if dir@.len() == 0 {
            "the FAT container root"@
        } else {
            "FAT directory '"@ + dir@ + "'"@
        },
{
    proof {
        reveal_strlit("");
        if dir@.len() == 0 {
            assert(dir@ =~= ""@);
        }
    }
    if str_eq(dir, "") {
        "the FAT container root".to_string()
    } else {
        let mut m: String = "FAT directory '".to_string();
        m.append(dir);
        m.append("'");
        m
    }
}

// ---------------------------------------------------------------------------
// checking the paths
// ---------------------------------------------------------------------------

/// Texts as values.
pub open spec fn texts(s: Seq<String>) -> Seq<Seq<char>> {
    s.map_values(|x: String| x@)
}

/// The paths of a payload.
pub open spec fn paths_of(entries: Seq<(String, Vec<u8>)>) -> Seq<Seq<char>> {
    entries.map_values(|e: (String, Vec<u8>)| e.0@)
}

/// The components of a path.
fn split_components(path: &str) -> (list: Vec<String>)
    ensures
        texts(list@) == components(path@),
        list@.len() > 0,
{
    let mut done: Vec<String> = Vec::new();
    let mut last: String = String::new();
    assert(path@.take(0) =~= Seq::<char>::empty());
    assert(texts(done@).push(last@) =~= components(path@.take(0)));
    for c in iter: path.chars()
        invariant
            iter.seq() == path@,
            texts(done@).push(last@) == components(path@.take(iter.index() as int)),
    {
        let ghost before = texts(done@).push(last@);
        proof {
            let i = iter.index() as int;
            assert(path@.take(i + 1).drop_last() =~= path@.take(i));
            assert(path@.take(i + 1).last() == c);
            assert(before.drop_last() =~= texts(done@));
        }
        if c == '/' {
            let ghost had = done@;
            let ghost piece = last@;
            done.push(last);
            last = String::new();
            proof {
                assert(texts(done@) =~= texts(had).push(piece));
                assert(texts(done@).push(last@) =~= before.push(Seq::<char>::empty()));
            }
        } else {
            last.push(c);
            assert(texts(done@).push(last@) =~= before.drop_last().push(before.last().push(c)));
        }
    }
    assert(path@.take(path@.len() as int) =~= path@);
    let ghost had = done@;
    let ghost piece = last@;
    done.push(last);
    assert(texts(done@) =~= texts(had).push(piece));
    done
}

/// The directory and the last component of a path.
fn split_leaf(path: &str) -> (r: (String, String))
    ensures
        r.0@ == parent_of(path@),
        r.1@ == leaf_of(path@),
{
    let mut prefix: String = String::new();
    let mut dir: String = String::new();
    let mut leaf: String = String::new();
    proof {
        assert(path@.take(0) =~= Seq::<char>::empty());
        assert(leaf_of(path@.take(0)) =~= Seq::<char>::empty());
        assert(parent_of(path@.take(0)) =~= Seq::<char>::empty());
    }
    for c in iter: path.chars()
        invariant
            iter.seq() == path@,
            prefix@ == path@.take(iter.index() as int),
            dir@ == parent_of(path@.take(iter.index() as int)),
            leaf@ == leaf_of(path@.take(iter.index() as int)),
    {
        proof {
            let i = iter.index() as int;
            let shorter = path@.take(i);
            let longer = path@.take(i + 1);
            assert(longer.drop_last() =~= shorter);
            assert(longer.last() == c);
            components_split(shorter);
            if c == '/' {
                assert(parent_of(longer) =~= shorter);
                assert(leaf_of(longer) =~= Seq::<char>::empty());
            } else {
                assert(parent_of(longer) =~= parent_of(shorter));
                assert(leaf_of(longer) =~= leaf_of(shorter).push(c));
            }
        }
        if c == '/' {
            dir = prefix.clone();
            leaf = String::new();
        } else {
            leaf.push(c);
        }
        prefix.push(c);
        assert(prefix@ =~= path@.take(iter.index() as int + 1));
    }
    assert(path@.take(path@.len() as int) =~= path@);
    (dir, leaf)
}

/// The first forbidden character of a name.
fn find_forbidden(name: &str) -> (r: Option<char>)
    ensures
        r == first_forbidden(name@),
{
    let mut found: Option<char> = None;
    assert(name@.take(0) =~= Seq::<char>::empty());
    for c in iter: name.chars()
        invariant
            iter.seq() == name@,
            found == first_forbidden(name@.take(iter.index() as int)),
    {
        proof {
            let i = iter.index() as int;
            assert(name@.take(i + 1).drop_last() =~= name@.take(i));
            assert(name@.take(i + 1).last() == c);
        }
        if found.is_none() && (c == '"' || c == '*' || c == '/' || c == ':' || c == '<' || c == '>'
            || c == '?' || c == '\\' || c == '|' || (c as u32) < 0x20 || c as u32 == 0x7F) {
            found = Some(c);
        }
    }
    assert(name@.take(name@.len() as int) =~= name@);
    found
}

/// Whether a name starts or ends with a space, or ends with a dot.
fn has_bad_edge(name: &str) -> (r: bool)
    ensures
        r == bad_edge(name@),
{
    let mut first: Option<char> = None;
    let mut last: Option<char> = None;
    for c in iter: name.chars()
        invariant
            iter.seq() == name@,
            iter.index() == 0 ==> first is None && last is None,
            iter.index() > 0 ==> first == Some(name@[0]) && last == Some(
                name@[iter.index() - 1],
            ),
    {
        if first.is_none() {
            first = Some(c);
        }
        last = Some(c);
    }
    match (first, last) {
        (Some(a), Some(z)) => a == ' ' || z == ' ' || z == '.',
        _ => false,
    }
}

/// Whether a name ends with the noncharacter that fills up FAT names.
fn ends_with_filling(name: &str) -> (r: bool)
    ensures
        r == (name@.len() > 0 && name@.last() == '\u{FFFF}'),
{
    let mut last: Option<char> = None;
    for c in iter: name.chars()
        invariant
            iter.seq() == name@,
            iter.index() == 0 ==> last is None,
            iter.index() > 0 ==> last == Some(name@[iter.index() - 1]),
    {
        last = Some(c);
    }
    match last {
        Some(z) => z == '\u{FFFF}',
        None => false,
    }
}

/// Checks one component of a path.
fn check_component(path: &str, component: &String) -> (r: Result<(), EspError>)
    ensures
        match (r, component_fault(path@, component@)) {
            (Ok(_), None) => true,
            (Err(e), Some(f)) => e.tells(f),
            _ => false,
        },
{
    match find_forbidden(component.as_str()) {
        Some(bad) => Err(
            EspError::BadCharacter { path: path.to_string(), bad, component: component.clone() },
        ),
        None => {
            if ends_with_filling(component.as_str()) {
                Err(
                    EspError::BadCharacter {
                        path: path.to_string(),
                        bad: '\u{FFFF}',
                        component: component.clone(),
                    },
                )
            } else if has_bad_edge(component.as_str()) {
                Err(EspError::BadEdge { path: path.to_string(), component: component.clone() })
            } else {
                Ok(())
            }
        },
    }
}

/// Checks the components of a path.
fn check_components(path: &str) -> (r: Result<(), EspError>)
    ensures
        match (r, name_fault(path@)) {
            (Ok(_), None) => true,
            (Err(e), Some(f)) => e.tells(f),
            _ => false,
        },
{
    let list: Vec<String> = split_components(path);
    let ghost v = components(path@);
    let n: usize = list.len();
    proof {
        reveal_strlit("");
        assert(v[n - 1] == list@[n - 1]@);
        if v.last().len() == 0 {
            assert(v.last() =~= ""@);
        }
    }
    if str_eq(list[n - 1].as_str(), "") {
        return Err(EspError::EmptyLeaf { path: path.to_string() });
    }
    let mut i: usize = 0;
    while i < n - 1
        invariant
            n == list@.len(),
            n > 0,
            i <= n - 1,
            v == components(path@),
            v == texts(list@),
            v.last().len() > 0,
            ""@.len() == 0,
            forall|j: int| 0 <= j < i ==> (#[trigger] v[j]).len() > 0,
        decreases n - i,
    {
        assert(v[i as int] == list@[i as int]@);
        if str_eq(list[i].as_str(), "") {
            return Err(EspError::EmptyComponent { path: path.to_string() });
        }
        proof {
            if v[i as int].len() == 0 {
                assert(v[i as int] =~= ""@);
            }
        }
        i += 1;
    }
    let mut k: usize = 0;
    assert(v.take(0) =~= Seq::<Seq<char>>::empty());
    while k < n
        invariant
            n == list@.len(),
            n > 0,
            k <= n,
            v == components(path@),
            v == texts(list@),
            v.last().len() > 0,
            forall|j: int| 0 <= j < n - 1 ==> (#[trigger] v[j]).len() > 0,
            first_component_fault(path@, v.take(k as int)) is None,
        decreases n - k,
    {
        assert(v[k as int] == list@[k as int]@);
        assert(v.take(k + 1).drop_last() =~= v.take(k as int));
        assert(v.take(k + 1).last() == v[k as int]);
        if let Err(e) = check_component(path, &list[k]) {
            proof {
                component_fault_stays(path@, v, k + 1);
            }
            return Err(e);
        }
        k += 1;
    }
    assert(v.take(n as int) =~= v);
    Ok(())
}

proof fn component_fault_stays(path: Seq<char>, list: Seq<Seq<char>>, n: int)
    requires
        0 <= n <= list.len(),
    ensures
        first_component_fault(path, list.take(n)) matches Some(f) ==> first_component_fault(
            path,
            list,
        ) == Some(f),
    decreases list.len() - n,
{
    if n < list.len() {
        assert(list.take(n + 1).drop_last() =~= list.take(n));
        component_fault_stays(path, list, n + 1);
    } else {
        assert(list.take(n) =~= list);
    }
}

/// A path as the check for duplicates sees it.
struct Place {
    dir: String,
    name: String,
    leaf: String,
}

impl Place {
    spec fn of(&self, path: Seq<char>) -> bool {
        &&& self.dir@ == fold(parent_of(path))
        &&& self.name@ == fold(leaf_of(path))
        &&& self.leaf@ == leaf_of(path)
    }
}

proof fn twin_found(paths: Seq<Seq<char>>, j: int, n: int, path: Seq<char>)
    requires
        0 <= j < n,
        earlier_twin(paths, j, path) is None,
        fold(parent_of(paths[j])) == fold(parent_of(path)),
        fold(leaf_of(paths[j])) == fold(leaf_of(path)),
    ensures
        earlier_twin(paths, n, path) == Some(paths[j]),
    decreases n,
{
    if n > j + 1 {
        twin_found(paths, j, n - 1, path);
    }
}

proof fn fault_stays(paths: Seq<Seq<char>>, i: int, n: int)
    requires
        0 <= i <= n,
    ensures
        first_fault(paths, i) matches Some(f) ==> first_fault(paths, n) == Some(f),
    decreases n - i,
{
    if i < n {
        fault_stays(paths, i, n - 1);
    }
}

/// Checks every path up front: components that FAT cannot hold, and two paths
/// that differ in case only.
pub fn validate_entries(entries: &Vec<(String, Vec<u8>)>) -> (r: Result<(), EspError>)
    ensures
        match (r, first_fault(paths_of(entries@), entries@.len() as int)) {
            (Ok(_), None) => true,
            (Err(e), Some(f)) => e.tells(f),
            _ => false,
        },
{
    let ghost paths = paths_of(entries@);
    let n: usize = entries.len();
    let mut places: Vec<Place> = Vec::new();
    let mut i: usize = 0;
    while i < n
        invariant
            n == entries@.len(),
            i <= n,
            paths == paths_of(entries@),
            first_fault(paths, i as int) is None,
            places@.len() == i,
            forall|j: int| 0 <= j < i ==> (#[trigger] places@[j]).of(paths[j]),
        decreases n - i,
    {
        let path: &str = entries[i].0.as_str();
        proof {
            assert(paths[i as int] == path@);
            fault_stays(paths, i + 1, n as int);
            components_split(path@);
        }
        if let Err(e) = check_components(path) {
            return Err(e);
        }
        let (dir, leaf): (String, String) = split_leaf(path);
        let place = Place { dir: ascii_upper(dir.as_str()), name: ascii_upper(leaf.as_str()), leaf };
        let mut j: usize = 0;
        while j < i
            invariant
                j <= i,
                i <= n,
                n == entries@.len(),
                places@.len() == i,
                paths == paths_of(entries@),
                paths[i as int] == path@,
                place.of(path@),
                dir@ == parent_of(path@),
                forall|k: int| 0 <= k < i ==> (#[trigger] places@[k]).of(paths[k]),
                earlier_twin(paths, j as int, path@) is None,
                first_fault(paths, i as int) is None,
                name_fault(path@) is None,
                first_fault(paths, i + 1) matches Some(f) ==> first_fault(paths, n as int)
                    == Some(f),
            decreases i - j,
        {
            let other: &Place = &places[j];
            assert(other.of(paths[j as int]));
            if str_eq(other.dir.as_str(), place.dir.as_str()) && str_eq(
                other.name.as_str(),
                place.name.as_str(),
            ) {
                proof {
                    twin_found(paths, j as int, i as int, path@);
                }
                return Err(
                    EspError::Duplicate {
                        leaf: place.leaf.clone(),
                        dir,
                        previous: other.leaf.clone(),
                    },
                );
            }
            j += 1;
        }
        places.push(place);
        i += 1;
    }
    Ok(())
}

proof fn dir_fault_stays(dirs: Seq<Seq<char>>, i: int, n: int)
    requires
        0 <= i <= n,
    ensures
        first_dir_fault(dirs, i) matches Some(f) ==> first_dir_fault(dirs, n) == Some(f),
    decreases n - i,
{
    if i < n {
        dir_fault_stays(dirs, i, n - 1);
    }
}

/// Checks the names of every directory.
pub fn validate_dirs(dirs: &Vec<String>) -> (r: Result<(), EspError>)
    ensures
        match (r, first_dir_fault(texts(dirs@), dirs@.len() as int)) {
            (Ok(_), None) => true,
            (Err(e), Some(f)) => e.tells(f),
            _ => false,
        },
{
    let ghost paths = texts(dirs@);
    let n: usize = dirs.len();
    let mut i: usize = 0;
    while i < n
        invariant
            n == dirs@.len(),
            i <= n,
            paths == texts(dirs@),
            first_dir_fault(paths, i as int) is None,
        decreases n - i,
    {
        proof {
            assert(paths[i as int] == dirs@[i as int]@);
            dir_fault_stays(paths, i + 1, n as int);
        }
        if let Err(e) = check_components(dirs[i].as_str()) {
            return Err(e);
        }
        i += 1;
    }
    Ok(())
}

// ---------------------------------------------------------------------------
// the container
// ---------------------------------------------------------------------------

/// The bytes of all files.
pub open spec fn content_total(entries: Seq<(String, Vec<u8>)>) -> int
    decreases entries.len(),
{
    if entries.len() == 0 {
        0
    } else {
        content_total(entries.drop_last()) + entries.last().1@.len()
    }
}

/// The size of the container for so many bytes: with room for the tables, in
/// whole 512-byte sectors, at least the smallest image.
pub open spec fn container_size(total: int) -> int {
    let size = ceil_div_spec(total + FORMATTING_SLACK_BYTES, 512) * 512;
    if size < MINIMUM_IMAGE_BYTES {
        MINIMUM_IMAGE_BYTES as int
    } else {
        size
    }
}

/// Whether a container of this size can be built.
pub open spec fn size_allowed(size: int) -> bool {
    size <= MAXIMUM_IMAGE_BYTES && size <= usize::MAX
}

/// The label of the volume: "FS2ISO_EFI!".
pub open spec fn volume_label() -> Seq<u8> {
    seq![70u8, 83, 50, 73, 83, 79, 95, 69, 70, 73, 33]
}

/// The empty volume that the container starts from; `None` where formatting
/// fails.
pub open spec fn empty_volume(size: int) -> Option<Seq<u8>> {
    fat_format(zeros(size as nat), size > FAT32_THRESHOLD_BYTES, volume_label())
}

/// The free bytes of a volume.
pub open spec fn free_bytes(volume: Seq<u8>) -> int {
    fat_space(volume).0 * fat_space(volume).1
}

/// Whether `p` is the path of a directory that `path` lies in.
pub open spec fn is_dir_of(p: Seq<char>, path: Seq<char>) -> bool {
    p.len() < path.len() && path[p.len() as int] == '/' && p == path.take(p.len() as int)
}

/// Whether a file of a payload lies in a directory.
pub open spec fn has_file_below(paths: Seq<Seq<char>>, d: Seq<char>) -> bool {
    exists|i: int| 0 <= i < paths.len() && #[trigger] is_dir_of(d, paths[i])
}

/// The number of directories, among the first `n`, that no file lies in.
pub open spec fn bare_dirs(dirs: Seq<Seq<char>>, paths: Seq<Seq<char>>, n: int) -> int
    decreases n,
{
    if n <= 0 {
        0
    } else if has_file_below(paths, dirs[n - 1]) {
        bare_dirs(dirs, paths, n - 1)
    } else {
        bare_dirs(dirs, paths, n - 1) + 1
    }
}

/// The bytes that a container is sized for: all files, and room for the
/// directories that no file lies in.
pub open spec fn needed_bytes(dirs: Seq<Seq<char>>, entries: Seq<(String, Vec<u8>)>) -> int {
    content_total(entries) + bare_dirs(dirs, paths_of(entries), dirs.len() as int)
        * DIRECTORY_BYTES
}

/// The paths of a payload: files, and directories that are there on their own
/// account.
pub struct Paths {
    pub files: Seq<Seq<char>>,
    pub dirs: Seq<Seq<char>>,
}

/// Whether `p` is directory `d` or a directory that it lies in.
pub open spec fn is_dir_at(p: Seq<char>, d: Seq<char>) -> bool {
    p == d || is_dir_of(p, d)
}

/// Whether `p` is a directory of the payload.
pub open spec fn is_dir_in(ps: Paths, p: Seq<char>) -> bool {
    ||| exists|i: int| 0 <= i < ps.files.len() && #[trigger] is_dir_of(p, ps.files[i])
    ||| exists|j: int| 0 <= j < ps.dirs.len() && #[trigger] is_dir_at(p, ps.dirs[j])
}

/// Whether `p` is a file or a directory of the payload.
pub open spec fn in_payload(ps: Paths, p: Seq<char>) -> bool {
    ps.files.contains(p) || is_dir_in(ps, p)
}

/// The paths of a list of files and a list of directories.
pub open spec fn payload_paths(dirs: Seq<Seq<char>>, entries: Seq<(String, Vec<u8>)>) -> Paths {
    Paths { files: paths_of(entries), dirs }
}

/// A tree with the directories of `path` whose names end before position `k`.
pub open spec fn with_dirs(t: FatTree, path: Seq<char>, k: int) -> FatTree
    decreases k,
{
    if k <= 0 {
        t
    } else {
        let less = with_dirs(t, path, k - 1);
        if path[k - 1] == '/' {
            less.insert(path.take(k - 1), None)
        } else {
            less
        }
    }
}

/// The tree of the first `n` files of a payload: the files and the directories
/// that they lie in.
pub open spec fn payload_tree(entries: Seq<(String, Vec<u8>)>, n: int) -> FatTree
    decreases n,
{
    if n <= 0 {
        Map::empty()
    } else {
        let path = entries[n - 1].0@;
        with_dirs(payload_tree(entries, n - 1), path, path.len() as int).insert(
            path,
            Some(entries[n - 1].1@),
        )
    }
}

/// The tree of a payload: that of its files, and its first `m` directories.
pub open spec fn whole_tree(
    dirs: Seq<Seq<char>>,
    entries: Seq<(String, Vec<u8>)>,
    m: int,
) -> FatTree
    decreases m,
{
    if m <= 0 {
        payload_tree(entries, entries.len() as int)
    } else {
        let d = dirs[m - 1];
        with_dirs(whole_tree(dirs, entries, m - 1), d.push('/'), d.len() as int + 1)
    }
}

/// Whether the directories of a path, made one after the other, are each there
/// already or not taken by a file.
spec fn dirs_clear(t: FatTree, path: Seq<char>) -> bool {
    forall|k: int|
        0 <= k < path.len() && #[trigger] path[k] == '/' ==> clear_dir(
            with_dirs(t, path, k),
            path.take(k),
        )
}

spec fn clear_dir(t: FatTree, d: Seq<char>) -> bool {
    has_dir_at(t, d) || !t.dom().contains(d)
}

/// Whether file `i` of a payload and its directories take no place that is
/// taken by the files before it.
spec fn entry_clear(entries: Seq<(String, Vec<u8>)>, i: int) -> bool {
    let t = payload_tree(entries, i);
    let path = entries[i].0@;
    &&& path.len() > 0
    &&& path[0] != '/'
    &&& dirs_clear(t, path)
    &&& !with_dirs(t, path, path.len() as int).dom().contains(path)
}

/// Whether directory `j` of a payload takes no place that is taken by a file.
spec fn own_dir_clear(dirs: Seq<Seq<char>>, entries: Seq<(String, Vec<u8>)>, j: int) -> bool {
    &&& dirs[j].len() > 0
    &&& dirs[j][0] != '/'
    &&& dirs_clear(whole_tree(dirs, entries, j), dirs[j].push('/'))
}

/// Whether no path of a payload is that of a file and of a directory.
pub open spec fn files_apart(ps: Paths) -> bool {
    forall|i: int| 0 <= i < ps.files.len() ==> !is_dir_in(ps, #[trigger] ps.files[i])
}

proof fn last_slash_facts(path: Seq<char>)
    ensures
        -1 <= last_slash(path) < path.len(),
        last_slash(path) >= 0 ==> path[last_slash(path)] == '/',
        forall|i: int| last_slash(path) < i < path.len() ==> path[i] != '/',
    decreases path.len(),
{
    if path.len() > 0 && path.last() != '/' {
        last_slash_facts(path.drop_last());
        assert forall|i: int| last_slash(path) < i < path.len() implies path[i] != '/' by {
            if i < path.len() - 1 {
                assert(path[i] == path.drop_last()[i]);
            }
        }
    }
}

// ---------------------------------------------------------------------------
// filling the volume
// ---------------------------------------------------------------------------

/// The cause of an error where an entry would be taken for another one.
pub open spec fn taken_cause() -> Seq<char> {
    "another entry is found under this name (FAT ignores case and makes short names; rename one)"@
}

/// Whether an error says that the directory of `path` that ends at position `k`
/// cannot be made in a volume of `size` bytes that holds `start` and the
/// directories of `path` before it. `shown` is the path that the error names.
pub open spec fn dir_missing(
    e: EspError,
    image: Seq<u8>,
    k: int,
    size: int,
    start: FatTree,
    path: Seq<char>,
    shown: Seq<char>,
) -> bool {
    &&& image.len() == size
    &&& fat_tree(image) == Some(with_dirs(start, path, k))
    &&& 0 <= k < path.len()
    &&& path[k] == '/'
    &&& !has_dir_at(with_dirs(start, path, k), path.take(k))
    &&& e matches EspError::CreateDir { component, path: p, .. } && p@ == shown && component@
        == leaf_of(path.take(k))
}

/// A directory of `path` is not made, because a look for it finds another
/// entry. The path is not new.
pub open spec fn dir_taken(
    e: EspError,
    size: int,
    start: FatTree,
    path: Seq<char>,
    shown: Seq<char>,
) -> bool {
    exists|image: Seq<u8>, k: int|
        {
            &&& #[trigger] dir_missing(e, image, k, size, start, path, shown)
            &&& fat_finds(image, path.take(k))
            &&& !fresh_path(with_dirs(start, path, k), path.take(k))
            &&& e->CreateDir_cause@ == taken_cause()
        }
}

/// A directory of `path` is not made, because the volume refuses it.
pub open spec fn dir_failed(
    e: EspError,
    size: int,
    start: FatTree,
    path: Seq<char>,
    shown: Seq<char>,
) -> bool {
    exists|image: Seq<u8>, k: int|
        {
            &&& #[trigger] dir_missing(e, image, k, size, start, path, shown)
            &&& !fat_makes_dir(image, path.take(k))
        }
}

/// A volume of `size` bytes holds `start` and the directories of a path.
pub open spec fn dirs_made(image: Seq<u8>, size: int, start: FatTree, path: Seq<char>) -> bool {
    image.len() == size && fat_tree(image) == Some(with_dirs(start, path, path.len() as int))
}

/// A file is not added, because a look for it finds another entry. The path is
/// not new.
pub open spec fn file_taken(e: EspError, size: int, start: FatTree, path: Seq<char>) -> bool {
    exists|image: Seq<u8>|
        {
            &&& #[trigger] dirs_made(image, size, start, path)
            &&& fat_finds(image, path)
            &&& !fresh_path(with_dirs(start, path, path.len() as int), path)
            &&& e matches EspError::CreateFile { path: p, cause } && p@ == path && cause@
                == taken_cause()
        }
}

/// A file is not added, because the volume refuses it.
pub open spec fn file_failed(
    e: EspError,
    size: int,
    start: FatTree,
    path: Seq<char>,
    content: Seq<u8>,
) -> bool {
    exists|image: Seq<u8>|
        {
            &&& #[trigger] dirs_made(image, size, start, path)
            &&& !fat_puts_file(image, path, content)
            &&& match e {
                EspError::CreateFile { path: p, .. } => p@ == path,
                EspError::Write { path: p, .. } => p@ == path,
                EspError::Flush { path: p, .. } => p@ == path,
                _ => false,
            }
        }
}

/// Whether a text is in a list.
fn holds(list: &Vec<String>, text: &str) -> (r: bool)
    ensures
        r == texts(list@).contains(text@),
{
    let n: usize = list.len();
    let mut i: usize = 0;
    while i < n
        invariant
            n == list@.len(),
            i <= n,
            forall|j: int| 0 <= j < i ==> (#[trigger] texts(list@)[j]) != text@,
        decreases n - i,
    {
        assert(texts(list@)[i as int] == list@[i as int]@);
        if str_eq(list[i].as_str(), text) {
            return true;
        }
        i += 1;
    }
    false
}

/// The list holds the directories of a tree.
spec fn lists_dirs(list: Seq<String>, t: FatTree) -> bool {
    forall|p: Seq<char>| #[trigger]
        texts(list).contains(p) <==> t.dom().contains(p) && t[p] is None
}

/// Whether the names of the directories of a path are plain.
spec fn plain_dirs(path: Seq<char>) -> bool {
    &&& path.len() > 0
    &&& path[0] != '/'
    &&& forall|k: int|
        0 <= k < path.len() && #[trigger] path[k] == '/' ==> plain_name(leaf_of(path.take(k)))
}

proof fn texts_push(list: Seq<String>, x: String)
    ensures
        forall|p: Seq<char>| #[trigger]
            texts(list.push(x)).contains(p) <==> texts(list).contains(p) || p == x@,
{
    let more = list.push(x);
    assert forall|p: Seq<char>| #[trigger] texts(more).contains(p) <==> texts(list).contains(p) || p
        == x@ by {
        if texts(list).contains(p) {
            let i = choose|i: int| 0 <= i < texts(list).len() && texts(list)[i] == p;
            assert(texts(more)[i] == p);
        }
        if texts(more).contains(p) {
            let i = choose|i: int| 0 <= i < texts(more).len() && texts(more)[i] == p;
            if i < list.len() {
                assert(texts(list)[i] == p);
            }
        }
        assert(texts(more)[list.len() as int] == x@);
    }
}

/// Makes sure that the directories of a path are there. `made` lists the
/// directories of the volume. A directory that is not among them must not be
/// found in the volume: it would be taken for another entry.
fn add_dirs(image: &mut Vec<u8>, made: &mut Vec<String>, path: &str, shown: &str) -> (r: Result<
    (),
    EspError,
>)
    requires
        fat_tree(old(image)@) is Some,
        plain_tree(fat_tree(old(image)@)->0),
        lists_dirs(old(made)@, fat_tree(old(image)@)->0),
        plain_dirs(path@),
    ensures
        final(image)@.len() == old(image)@.len(),
        match r {
            Ok(_) => {
                let t = with_dirs(fat_tree(old(image)@)->0, path@, path@.len() as int);
                &&& fat_tree(final(image)@) == Some(t)
                &&& plain_tree(t)
                &&& lists_dirs(final(made)@, t)
                &&& dirs_clear(fat_tree(old(image)@)->0, path@)
                &&& has_dir_at(t, parent_of(path@))
            },
            Err(e) => {
                let size = old(image)@.len() as int;
                let start = fat_tree(old(image)@)->0;
                ||| dir_taken(e, size, start, path@, shown@)
                ||| dir_failed(e, size, start, path@, shown@)
            },
        },
{
    let ghost start = fat_tree(image@)->0;
    let ghost size = image@.len() as int;
    let mut prefix: String = String::new();
    let mut component: String = String::new();
    proof {
        assert(path@.take(0) =~= Seq::<char>::empty());
        assert(leaf_of(path@.take(0)) =~= Seq::<char>::empty());
    }
    for c in iter: path.chars()
        invariant
            iter.seq() == path@,
            plain_dirs(path@),
            image@.len() == size,
            size == old(image)@.len(),
            start == fat_tree(old(image)@)->0,
            fat_tree(image@) == Some(with_dirs(start, path@, iter.index() as int)),
            plain_tree(fat_tree(image@)->0),
            lists_dirs(made@, fat_tree(image@)->0),
            forall|j: int|
                0 <= j < iter.index() && #[trigger] path@[j] == '/' ==> clear_dir(
                    with_dirs(start, path@, j),
                    path@.take(j),
                ) && has_dir_at(fat_tree(image@)->0, path@.take(j)),
            prefix@ == path@.take(iter.index() as int),
            component@ == leaf_of(path@.take(iter.index() as int)),
    {
        let ghost k = iter.index() as int;
        let ghost here = path@.take(k);
        let ghost longer = path@.take(k + 1);
        let ghost t = fat_tree(image@)->0;
        proof {
            assert(path@[k] == c);
            assert(longer.drop_last() =~= here);
            assert(longer.last() == c);
            components_split(here);
            if c == '/' {
                assert(leaf_of(longer) =~= Seq::<char>::empty());
            } else {
                assert(leaf_of(longer) =~= leaf_of(here).push(c));
            }
        }
        if c == '/' {
            proof {
                assert(here.len() > 0);
                assert(here[0] == path@[0]);
                assert(plain_name(leaf_of(here)));
                parent_is_before(path@, k);
                assert(has_place(t, here));
            }
            if !holds(made, prefix.as_str()) {
                assert(!has_dir_at(t, here));
                let ghost before = image@;
                let found: bool = has_dir(image, prefix.as_str()) || has_file(
                    image,
                    prefix.as_str(),
                );
                if found {
                    let e = EspError::CreateDir {
                        component,
                        path: shown.to_string(),
                        cause: taken_text(),
                    };
                    assert(dir_missing(e, before, k, size, start, path@, shown@));
                    return Err(e);
                }
                assert(!t.dom().contains(here));
                if let Err(cause) = make_dir(image, prefix.as_str()) {
                    let e = EspError::CreateDir { component, path: shown.to_string(), cause };
                    assert(dir_missing(e, before, k, size, start, path@, shown@));
                    return Err(e);
                }
                let name: String = prefix.clone();
                proof {
                    assert(name@ == here);
                    texts_push(made@, name);
                }
                made.push(name);
            } else {
                assert(t.insert(here, None) =~= t);
            }
            component = String::new();
        } else {
            component.push(c);
        }
        prefix.push(c);
        proof {
            assert(prefix@ =~= longer);
        }
    }
    proof {
        parent_is_before(path@, path@.len() as int);
        assert(path@.take(path@.len() as int) =~= path@);
    }
    Ok(())
}

/// The directory that a part of a path lies in ends with one of the path's '/'
/// characters, or is the root.
proof fn parent_is_before(path: Seq<char>, k: int)
    requires
        0 <= k <= path.len(),
    ensures
        ({
            let here = path.take(k);
            let m = last_slash(here);
            if m < 0 {
                parent_of(here).len() == 0
            } else {
                m < k && path[m] == '/' && parent_of(here) == path.take(m)
            }
        }),
{
    let here = path.take(k);
    last_slash_facts(here);
    if last_slash(here) >= 0 {
        assert(parent_of(here) =~= path.take(last_slash(here)));
    }
}

/// The cause of an error where an entry would be taken for another one.
fn taken_text() -> (r: String)
    ensures
        r@ == taken_cause(),
{
    "another entry is found under this name (FAT ignores case and makes short names; rename one)".to_string()
}

/// Adds a file and the directories that it lies in. The file must not be found
/// in the volume before.
fn add_entry(image: &mut Vec<u8>, made: &mut Vec<String>, path: &str, content: &Vec<u8>) -> (r:
    Result<(), EspError>)
    requires
        fat_tree(old(image)@) is Some,
        plain_tree(fat_tree(old(image)@)->0),
        lists_dirs(old(made)@, fat_tree(old(image)@)->0),
        plain_dirs(path@),
        plain_name(leaf_of(path@)),
    ensures
        final(image)@.len() == old(image)@.len(),
        match r {
            Ok(_) => {
                let mid = with_dirs(fat_tree(old(image)@)->0, path@, path@.len() as int);
                let t = mid.insert(path@, Some(content@));
                &&& fat_tree(final(image)@) == Some(t)
                &&& plain_tree(t)
                &&& lists_dirs(final(made)@, t)
                &&& dirs_clear(fat_tree(old(image)@)->0, path@)
                &&& !mid.dom().contains(path@)
            },
            Err(e) => {
                let size = old(image)@.len() as int;
                let start = fat_tree(old(image)@)->0;
                ||| dir_taken(e, size, start, path@, path@)
                ||| dir_failed(e, size, start, path@, path@)
                ||| file_taken(e, size, start, path@)
                ||| file_failed(e, size, start, path@, content@)
            },
        },
{
    let ghost start = fat_tree(image@)->0;
    let ghost size = image@.len() as int;
    if let Err(e) = add_dirs(image, made, path, path) {
        return Err(e);
    }
    let ghost before = image@;
    let ghost mid = fat_tree(image@)->0;
    assert(dirs_made(before, size, start, path@));
    assert(has_place(mid, path@));
    let found: bool = has_dir(image, path) || has_file(image, path);
    if found {
        return Err(EspError::CreateFile { path: path.to_string(), cause: taken_text() });
    }
    assert(!mid.dom().contains(path@));
    match put_file(image, path, content.as_slice()) {
        Ok(_) => {
            proof {
                let t = mid.insert(path@, Some(content@));
                assert forall|p: Seq<char>| #[trigger] texts(made@).contains(p) <==> t.dom().contains(
                    p,
                ) && t[p] is None by {
                    assert(texts(made@).contains(p) <==> mid.dom().contains(p) && mid[p] is None);
                }
            }
            Ok(())
        },
        Err(PutFault::Create(cause)) => Err(
            EspError::CreateFile { path: path.to_string(), cause },
        ),
        Err(PutFault::Write(cause)) => Err(EspError::Write { path: path.to_string(), cause }),
        Err(PutFault::Flush(cause)) => Err(EspError::Flush { path: path.to_string(), cause }),
    }
}

/// The bytes of all files.
fn total_of(entries: &Vec<(String, Vec<u8>)>) -> (total: u128)
    ensures
        total == content_total(entries@),
{
    let n: usize = entries.len();
    let mut total: u128 = 0;
    let mut i: usize = 0;
    assert(entries@.take(0) =~= Seq::<(String, Vec<u8>)>::empty());
    while i < n
        invariant
            n == entries@.len(),
            i <= n,
            total == content_total(entries@.take(i as int)),
            total <= i * 0xffff_ffff_ffff_ffff,
        decreases n - i,
    {
        assert(entries@.take(i + 1).drop_last() =~= entries@.take(i as int));
        assert(entries@.take(i + 1).last() == entries@[i as int]);
        total += entries[i].1.len() as u128;
        i += 1;
    }
    assert(entries@.take(n as int) =~= entries@);
    total
}

/// The directories that a path lies in, added to a list.
fn note_dirs(above: &mut Vec<String>, path: &str)
    ensures
        forall|p: Seq<char>| #[trigger]
            texts(final(above)@).contains(p) <==> texts(old(above)@).contains(p) || is_dir_of(
                p,
                path@,
            ),
{
    let mut prefix: String = String::new();
    assert(path@.take(0) =~= Seq::<char>::empty());
    for c in iter: path.chars()
        invariant
            iter.seq() == path@,
            prefix@ == path@.take(iter.index() as int),
            forall|p: Seq<char>| #[trigger]
                texts(above@).contains(p) <==> texts(old(above)@).contains(p) || (is_dir_of(p, path@)
                    && p.len() < iter.index()),
    {
        let ghost k = iter.index() as int;
        let ghost had = above@;
        assert(path@[k] == c);
        if c == '/' && !holds(above, prefix.as_str()) {
            let name: String = prefix.clone();
            proof {
                texts_push(above@, name);
            }
            above.push(name);
        }
        proof {
            assert forall|p: Seq<char>| #[trigger]
                texts(above@).contains(p) <==> texts(old(above)@).contains(p) || (is_dir_of(p, path@)
                && p.len() < k + 1) by {
                assert(texts(had).contains(p) <==> texts(old(above)@).contains(p) || (is_dir_of(
                    p,
                    path@,
                ) && p.len() < k));
                if p.len() == k && is_dir_of(p, path@) {
                    assert(p =~= path@.take(k));
                }
                if c == '/' {
                    assert(is_dir_of(path@.take(k), path@));
                }
            }
        }
        prefix.push(c);
        assert(prefix@ =~= path@.take(k + 1));
    }
}

/// The number of directories that no file lies in.
fn count_bare(dirs: &Vec<String>, entries: &Vec<(String, Vec<u8>)>) -> (count: usize)
    ensures
        count == bare_dirs(texts(dirs@), paths_of(entries@), dirs@.len() as int),
        count <= dirs@.len(),
{
    let ghost paths = paths_of(entries@);
    let ghost own = texts(dirs@);
    let mut above: Vec<String> = Vec::new();
    let n: usize = entries.len();
    let mut i: usize = 0;
    while i < n
        invariant
            n == entries@.len(),
            i <= n,
            paths == paths_of(entries@),
            forall|p: Seq<char>| #[trigger]
                texts(above@).contains(p) <==> has_file_below(paths.take(i as int), p),
        decreases n - i,
    {
        let ghost had = above@;
        note_dirs(&mut above, entries[i].0.as_str());
        proof {
            let less = paths.take(i as int);
            let more = paths.take(i + 1);
            assert(paths[i as int] == entries@[i as int].0@);
            assert forall|p: Seq<char>| #[trigger] texts(above@).contains(p) <==> has_file_below(
                more,
                p,
            ) by {
                assert(texts(had).contains(p) <==> has_file_below(less, p));
                if has_file_below(less, p) {
                    let j = choose|j: int| 0 <= j < less.len() && #[trigger] is_dir_of(p, less[j]);
                    assert(is_dir_of(p, more[j]));
                }
                if has_file_below(more, p) {
                    let j = choose|j: int| 0 <= j < more.len() && #[trigger] is_dir_of(p, more[j]);
                    if j < i {
                        assert(is_dir_of(p, less[j]));
                    }
                }
                if is_dir_of(p, paths[i as int]) {
                    assert(is_dir_of(p, more[i as int]));
                }
            }
        }
        i += 1;
    }
    assert(paths.take(n as int) =~= paths);
    let m: usize = dirs.len();
    let mut count: usize = 0;
    let mut j: usize = 0;
    while j < m
        invariant
            m == dirs@.len(),
            j <= m,
            own == texts(dirs@),
            count == bare_dirs(own, paths, j as int),
            count <= j,
            forall|p: Seq<char>| #[trigger]
                texts(above@).contains(p) <==> has_file_below(paths, p),
        decreases m - j,
    {
        assert(own[j as int] == dirs@[j as int]@);
        if !holds(&above, dirs[j].as_str()) {
            count += 1;
        }
        j += 1;
    }
    count
}

/// Checks that the payload fits in the free clusters of the empty volume.
pub fn check_space(clusters: u32, cluster_size: u32, total: u128) -> (r: Result<(), EspError>)
    ensures
        match r {
            Ok(_) => clusters * cluster_size >= total,
            Err(e) => clusters * cluster_size < total && (e matches EspError::Sizing {
                free,
                payload,
            } && free == clusters * cluster_size && payload == total),
        },
{
    assert(clusters as int * cluster_size as int <= 0xffff_ffff * 0xffff_ffff) by (nonlinear_arith)
        requires
            0 <= clusters <= 0xffff_ffff,
            0 <= cluster_size <= 0xffff_ffff,
    ;
    assert(0 <= clusters as int * cluster_size as int) by (nonlinear_arith)
        requires
            0 <= clusters,
            0 <= cluster_size,
    ;
    let free: u64 = clusters as u64 * cluster_size as u64;
    if (free as u128) < total {
        Err(EspError::Sizing { free, payload: total })
    } else {
        Ok(())
    }
}

/// A file or directory of the payload, with all that comes before it in place,
/// is not added because a look for it finds another entry.
pub open spec fn taken(
    e: EspError,
    dirs: Seq<Seq<char>>,
    entries: Seq<(String, Vec<u8>)>,
    size: int,
) -> bool {
    ||| exists|i: int| 0 <= i < entries.len() && #[trigger] entry_taken(e, entries, i, size)
    ||| exists|j: int| 0 <= j < dirs.len() && #[trigger] own_dir_taken(e, dirs, entries, j, size)
}

/// A file or directory of the payload, with all that comes before it in place,
/// is not added because the volume refuses it.
pub open spec fn failed(
    e: EspError,
    dirs: Seq<Seq<char>>,
    entries: Seq<(String, Vec<u8>)>,
    size: int,
) -> bool {
    ||| exists|i: int| 0 <= i < entries.len() && #[trigger] entry_failed(e, entries, i, size)
    ||| exists|j: int| 0 <= j < dirs.len() && #[trigger] own_dir_failed(e, dirs, entries, j, size)
}

/// File `i` or one of its directories is taken, behind the files before it.
pub open spec fn entry_taken(
    e: EspError,
    entries: Seq<(String, Vec<u8>)>,
    i: int,
    size: int,
) -> bool {
    let start = payload_tree(entries, i);
    let path = entries[i].0@;
    dir_taken(e, size, start, path, path) || file_taken(e, size, start, path)
}

/// The volume refuses file `i` or one of its directories, behind the files
/// before it.
pub open spec fn entry_failed(
    e: EspError,
    entries: Seq<(String, Vec<u8>)>,
    i: int,
    size: int,
) -> bool {
    let start = payload_tree(entries, i);
    let path = entries[i].0@;
    dir_failed(e, size, start, path, path) || file_failed(e, size, start, path, entries[i].1@)
}

/// Directory `j` or one that it lies in is taken, behind all files and the
/// directories before it.
pub open spec fn own_dir_taken(
    e: EspError,
    dirs: Seq<Seq<char>>,
    entries: Seq<(String, Vec<u8>)>,
    j: int,
    size: int,
) -> bool {
    dir_taken(e, size, whole_tree(dirs, entries, j), dirs[j].push('/'), dirs[j])
}

/// The volume refuses directory `j` or one that it lies in, behind all files
/// and the directories before it.
pub open spec fn own_dir_failed(
    e: EspError,
    dirs: Seq<Seq<char>>,
    entries: Seq<(String, Vec<u8>)>,
    j: int,
    size: int,
) -> bool {
    dir_failed(e, size, whole_tree(dirs, entries, j), dirs[j].push('/'), dirs[j])
}

/// What a payload without faults gives: the errors of formatting and of too
/// little space, a file or directory that is taken or refused, or an image that
/// holds the payload. A payload with a path that is both a file and a directory
/// gives an error.
pub open spec fn packed(
    dirs: Seq<Seq<char>>,
    entries: Seq<(String, Vec<u8>)>,
    r: Result<Vec<u8>, EspError>,
) -> bool {
    let total = content_total(entries);
    let size = container_size(needed_bytes(dirs, entries));
    match empty_volume(size) {
        None => r matches Err(EspError::Format { .. }),
        Some(volume) => if free_bytes(volume) < total {
            r matches Err(EspError::Sizing { free, payload }) && free == free_bytes(volume)
                && payload == total
        } else {
            match r {
                Err(e) => taken(e, dirs, entries, size) || failed(e, dirs, entries, size),
                Ok(image) => {
                    &&& image@.len() == size
                    &&& fat_tree(image@) == Some(whole_tree(dirs, entries, dirs.len() as int))
                    &&& files_apart(payload_paths(dirs, entries))
                },
            }
        },
    }
}

/// The result of building a container, for every payload.
pub open spec fn container_made(
    dirs: Seq<Seq<char>>,
    entries: Seq<(String, Vec<u8>)>,
    r: Result<Vec<u8>, EspError>,
) -> bool {
    let total = content_total(entries);
    if total == 0 {
        r matches Err(EspError::Empty)
    } else {
        match first_fault(paths_of(entries), entries.len() as int) {
            Some(f) => r matches Err(e) && e.tells(f),
            None => match first_dir_fault(dirs, dirs.len() as int) {
                Some(f) => r matches Err(e) && e.tells(f),
                None => if !size_allowed(container_size(needed_bytes(dirs, entries))) {
                    r matches Err(EspError::TooLarge { payload }) && payload == total
                } else {
                    packed(dirs, entries, r)
                },
            },
        }
    }
}

/// Formats a FAT volume and writes every `(path, content)` entry into it,
/// with the directories that it lies in. Gives the bytes of the volume.
pub fn build_esp(entries: &Vec<(String, Vec<u8>)>) -> (r: Result<Vec<u8>, EspError>)
    ensures
        container_made(Seq::empty(), entries@, r),
{
    let dirs: Vec<String> = Vec::new();
    assert(texts(dirs@) =~= Seq::<Seq<char>>::empty());
    build_esp_with_dirs(&dirs, entries)
}

/// Formats a FAT volume and writes every `(path, content)` entry into it, with
/// the directories that it lies in, and the given directories. Gives the bytes
/// of the volume.
pub fn build_esp_with_dirs(dirs: &Vec<String>, entries: &Vec<(String, Vec<u8>)>) -> (r: Result<
    Vec<u8>,
    EspError,
>)
    ensures
        container_made(texts(dirs@), entries@, r),
{
    let total: u128 = total_of(entries);
    if total == 0 {
        return Err(EspError::Empty);
    }
    if let Err(e) = validate_entries(entries) {
        return Err(e);
    }
    if let Err(e) = validate_dirs(dirs) {
        return Err(e);
    }
    let bare: usize = count_bare(dirs, entries);
    if total > MAXIMUM_IMAGE_BYTES as u128 {
        return Err(EspError::TooLarge { payload: total });
    }
    let need: u128 = total + bare as u128 * DIRECTORY_BYTES as u128;
    if need > MAXIMUM_IMAGE_BYTES as u128 {
        return Err(EspError::TooLarge { payload: total });
    }
    let mut size: u64 = (need as u64 + FORMATTING_SLACK_BYTES + 511) / 512 * 512;
    if size < MINIMUM_IMAGE_BYTES {
        size = MINIMUM_IMAGE_BYTES;
    }
    assert(size == container_size(need as int));
    if size > MAXIMUM_IMAGE_BYTES || size > usize::MAX as u64 {
        return Err(EspError::TooLarge { payload: total });
    }
    let mut image: Vec<u8> = zeroed(size as usize);
    // "FS2ISO_EFI!"
    let label: [u8; 11] = [70, 83, 50, 73, 83, 79, 95, 69, 70, 73, 33];
    assert(label@ =~= volume_label());
    if let Err(cause) = format_image(&mut image, size > FAT32_THRESHOLD_BYTES, label) {
        return Err(EspError::Format { cause });
    }
    if let Err(cause) = open_image(&mut image) {
        return Err(EspError::Open { cause });
    }
    let (clusters, cluster_size): (u32, u32) = match free_space(&mut image) {
        Ok(x) => x,
        Err(cause) => {
            return Err(EspError::Stats { cause });
        },
    };
    if let Err(e) = check_space(clusters, cluster_size, total) {
        return Err(e);
    }
    match fill(&mut image, dirs, entries) {
        Ok(_) => Ok(image),
        Err(e) => Err(e),
    }
}

/// Puts a payload without faults on an empty volume.
fn fill(image: &mut Vec<u8>, dirs: &Vec<String>, entries: &Vec<(String, Vec<u8>)>) -> (r: Result<
    (),
    EspError,
>)
    requires
        fat_tree(old(image)@) == Some(FatTree::empty()),
        first_fault(paths_of(entries@), entries@.len() as int) is None,
        first_dir_fault(texts(dirs@), dirs@.len() as int) is None,
    ensures
        final(image)@.len() == old(image)@.len(),
        match r {
            Ok(_) => {
                &&& fat_tree(final(image)@) == Some(
                    whole_tree(texts(dirs@), entries@, dirs@.len() as int),
                )
                &&& files_apart(payload_paths(texts(dirs@), entries@))
            },
            Err(e) => {
                let size = old(image)@.len() as int;
                taken(e, texts(dirs@), entries@, size) || failed(e, texts(dirs@), entries@, size)
            },
        },
{
    let ghost paths = paths_of(entries@);
    let ghost own = texts(dirs@);
    let ghost size = image@.len() as int;
    let mut made: Vec<String> = Vec::new();
    let n: usize = entries.len();
    let mut i: usize = 0;
    proof {
        assert(payload_tree(entries@, 0) =~= FatTree::empty());
        assert(texts(made@) =~= Seq::<Seq<char>>::empty());
    }
    while i < n
        invariant
            n == entries@.len(),
            i <= n,
            paths == paths_of(entries@),
            own == texts(dirs@),
            first_fault(paths, n as int) is None,
            image@.len() == size,
            size == old(image)@.len(),
            fat_tree(image@) == Some(payload_tree(entries@, i as int)),
            plain_tree(fat_tree(image@)->0),
            lists_dirs(made@, fat_tree(image@)->0),
            forall|k: int| 0 <= k < i ==> #[trigger] entry_clear(entries@, k),
        decreases n - i,
    {
        let path: &str = entries[i].0.as_str();
        proof {
            assert(paths[i as int] == path@);
            fault_stays(paths, i + 1, n as int);
            valid_names(path@);
        }
        if let Err(e) = add_entry(image, &mut made, path, &entries[i].1) {
            proof {
                if dir_taken(e, size, payload_tree(entries@, i as int), path@, path@) || file_taken(
                    e,
                    size,
                    payload_tree(entries@, i as int),
                    path@,
                ) {
                    assert(entry_taken(e, entries@, i as int, size));
                } else {
                    assert(entry_failed(e, entries@, i as int, size));
                }
            }
            return Err(e);
        }
        assert(entry_clear(entries@, i as int));
        i += 1;
    }
    let m: usize = dirs.len();
    let mut j: usize = 0;
    while j < m
        invariant
            m == dirs@.len(),
            j <= m,
            own == texts(dirs@),
            first_dir_fault(own, m as int) is None,
            image@.len() == size,
            size == old(image)@.len(),
            fat_tree(image@) == Some(whole_tree(own, entries@, j as int)),
            plain_tree(fat_tree(image@)->0),
            lists_dirs(made@, fat_tree(image@)->0),
            forall|k: int| 0 <= k < j ==> #[trigger] own_dir_clear(own, entries@, k),
        decreases m - j,
    {
        let mut walk: String = dirs[j].clone();
        walk.push('/');
        let ghost d = own[j as int];
        proof {
            assert(d == dirs@[j as int]@);
            dir_fault_stays(own, j + 1, m as int);
            valid_names(d);
            plain_with_slash(d);
        }
        if let Err(e) = add_dirs(image, &mut made, walk.as_str(), dirs[j].as_str()) {
            proof {
                if dir_taken(e, size, whole_tree(own, entries@, j as int), d.push('/'), d) {
                    assert(own_dir_taken(e, own, entries@, j as int, size));
                } else {
                    assert(own_dir_failed(e, own, entries@, j as int, size));
                }
            }
            return Err(e);
        }
        assert(own_dir_clear(own, entries@, j as int));
        j += 1;
    }
    proof {
        clear_is_apart(own, entries@);
    }
    Ok(())
}

/// A path without a fault in its names is not empty, does not start with '/',
/// and has plain names only.
proof fn valid_names(path: Seq<char>)
    requires
        name_fault(path) is None,
    ensures
        plain_dirs(path),
        plain_name(leaf_of(path)),
{
    let list = components(path);
    components_split(path);
    if path.len() == 0 {
        assert(leaf_of(path) =~= Seq::<char>::empty());
    } else if path[0] == '/' {
        leading_slash(path);
        assert(components(path)[0].len() == 0);
    }
    plain_component(path, list, list.len() - 1);
    assert forall|k: int| 0 <= k < path.len() && #[trigger] path[k] == '/' implies plain_name(
        leaf_of(path.take(k)),
    ) by {
        let m = components_before(path, k);
        components_split(path.take(k));
        assert(list.take(m).last() == list[m - 1]);
        assert(list[m - 1].len() > 0);
        plain_component(path, list, m - 1);
    }
}

/// A component without a fault is a plain name.
proof fn plain_component(path: Seq<char>, list: Seq<Seq<char>>, i: int)
    requires
        first_component_fault(path, list) is None,
        0 <= i < list.len(),
        list[i].len() > 0,
    ensures
        plain_name(list[i]),
    decreases list.len(),
{
    if i < list.len() - 1 {
        plain_component(path, list.drop_last(), i);
    }
}

/// The components of a directory of a path are the first ones of the path.
proof fn components_before(path: Seq<char>, k: int) -> (m: int)
    requires
        0 <= k < path.len(),
        path[k] == '/',
    ensures
        0 < m < components(path).len(),
        components(path.take(k)) == components(path).take(m),
    decreases path.len(),
{
    let init = path.drop_last();
    let list = components(path);
    components_split(init);
    if k == path.len() - 1 {
        assert(path.take(k) =~= init);
        assert(list.take(components(init).len() as int) =~= components(init));
        components(init).len() as int
    } else {
        let m = components_before(init, k);
        assert(init.take(k) =~= path.take(k));
        assert(list.take(m) =~= components(init).take(m));
        m
    }
}

/// With a '/' behind it, a directory with plain names is one of its own
/// directories.
proof fn plain_with_slash(d: Seq<char>)
    requires
        plain_dirs(d),
        plain_name(leaf_of(d)),
    ensures
        plain_dirs(d.push('/')),
{
    let path = d.push('/');
    assert forall|k: int| 0 <= k < path.len() && #[trigger] path[k] == '/' implies plain_name(
        leaf_of(path.take(k)),
    ) by {
        if k < d.len() {
            assert(d[k] == '/');
            assert(path.take(k) =~= d.take(k));
        } else {
            assert(path.take(k) =~= d);
        }
    }
}

proof fn leading_slash(path: Seq<char>)
    requires
        path.len() > 0,
        path[0] == '/',
    ensures
        components(path).len() >= 2,
        components(path)[0].len() == 0,
    decreases path.len(),
{
    components_split(path.drop_last());
    if path.len() == 1 {
        assert(path.drop_last() =~= Seq::<char>::empty());
        assert(components(path.drop_last()) == seq![Seq::<char>::empty()]);
    } else {
        leading_slash(path.drop_last());
    }
}

proof fn no_twin(paths: Seq<Seq<char>>, n: int, path: Seq<char>)
    requires
        earlier_twin(paths, n, path) is None,
    ensures
        forall|j: int| 0 <= j < n ==> #[trigger] paths[j] != path,
    decreases n,
{
    if n > 0 {
        no_twin(paths, n - 1, path);
    }
}

/// Where the directories of a path are: those of the tree, and those of the
/// path.
proof fn with_dirs_dom(t: FatTree, path: Seq<char>, k: int)
    requires
        0 <= k <= path.len(),
    ensures
        forall|p: Seq<char>| #[trigger]
            with_dirs(t, path, k).dom().contains(p) <==> t.dom().contains(p) || (is_dir_of(p, path)
                && p.len() < k),
    decreases k,
{
    if k > 0 {
        with_dirs_dom(t, path, k - 1);
        let less = with_dirs(t, path, k - 1);
        let more = with_dirs(t, path, k);
        assert forall|p: Seq<char>| #[trigger] more.dom().contains(p) <==> t.dom().contains(p) || (
        is_dir_of(p, path) && p.len() < k) by {
            assert(less.dom().contains(p) <==> t.dom().contains(p) || (is_dir_of(p, path)
                && p.len() < k - 1));
            if is_dir_of(p, path) && p.len() == k - 1 {
                assert(p =~= path.take(k - 1));
            }
        }
    }
}

/// Making clear directories keeps what is there, and makes directories.
proof fn with_dirs_keeps(t: FatTree, path: Seq<char>, k: int)
    requires
        0 <= k <= path.len(),
        dirs_clear(t, path),
        path.len() > 0,
        path[0] != '/',
    ensures
        forall|p: Seq<char>| #[trigger]
            t.dom().contains(p) ==> with_dirs(t, path, k).dom().contains(p) && with_dirs(
                t,
                path,
                k,
            )[p] == t[p],
        forall|p: Seq<char>| #[trigger]
            is_dir_of(p, path) && p.len() < k ==> with_dirs(t, path, k).dom().contains(p)
                && with_dirs(t, path, k)[p] is None,
    decreases k,
{
    if k > 0 {
        with_dirs_keeps(t, path, k - 1);
        let less = with_dirs(t, path, k - 1);
        let d = path.take(k - 1);
        if path[k - 1] == '/' {
            assert(clear_dir(less, d));
            assert(d.len() > 0);
        }
        assert forall|p: Seq<char>| #[trigger] is_dir_of(p, path) && p.len() < k implies with_dirs(
            t,
            path,
            k,
        ).dom().contains(p) && with_dirs(t, path, k)[p] is None by {
            if p.len() == k - 1 {
                assert(p =~= d);
            }
        }
    }
}

/// The tree of clear files holds those files and their directories.
proof fn payload_tree_holds(entries: Seq<(String, Vec<u8>)>, n: int)
    requires
        0 <= n <= entries.len(),
        forall|i: int| 0 <= i < n ==> #[trigger] entry_clear(entries, i),
    ensures
        forall|p: Seq<char>| #[trigger]
            payload_tree(entries, n).dom().contains(p) ==> exists|j: int|
                0 <= j < n && (#[trigger] paths_of(entries)[j] == p || is_dir_of(
                    p,
                    paths_of(entries)[j],
                )),
        forall|j: int|
            0 <= j < n ==> payload_tree(entries, n).dom().contains(
                #[trigger] paths_of(entries)[j],
            ) && payload_tree(entries, n)[paths_of(entries)[j]] == Some(entries[j].1@),
        forall|j: int, p: Seq<char>|
            0 <= j < n && #[trigger] is_dir_of(p, paths_of(entries)[j]) ==> payload_tree(
                entries,
                n,
            ).dom().contains(p) && payload_tree(entries, n)[p] is None,
    decreases n,
{
    let paths = paths_of(entries);
    if n > 0 {
        payload_tree_holds(entries, n - 1);
        let less = payload_tree(entries, n - 1);
        let path = paths[n - 1];
        let len = path.len() as int;
        assert(entry_clear(entries, n - 1));
        assert(path == entries[n - 1].0@);
        with_dirs_dom(less, path, len);
        with_dirs_keeps(less, path, len);
        let mid = with_dirs(less, path, len);
        let all = payload_tree(entries, n);
        assert(all == mid.insert(path, Some(entries[n - 1].1@)));
        assert(!mid.dom().contains(path));
        assert forall|p: Seq<char>| #[trigger] all.dom().contains(p) implies exists|j: int|
            0 <= j < n && (#[trigger] paths[j] == p || is_dir_of(p, paths[j])) by {
            if p == path {
                assert(paths[n - 1] == p);
            } else if less.dom().contains(p) {
                let j = choose|j: int|
                    0 <= j < n - 1 && (#[trigger] paths[j] == p || is_dir_of(p, paths[j]));
                assert(paths[j] == p || is_dir_of(p, paths[j]));
            } else {
                assert(mid.dom().contains(p));
                assert(paths[n - 1] == path);
            }
        }
        assert forall|j: int| 0 <= j < n implies all.dom().contains(#[trigger] paths[j])
            && all[paths[j]] == Some(entries[j].1@) by {
            if j < n - 1 {
                assert(less.dom().contains(paths[j]));
                assert(mid.dom().contains(paths[j]));
            }
        }
        assert forall|j: int, p: Seq<char>|
            0 <= j < n && #[trigger] is_dir_of(p, paths[j]) implies all.dom().contains(p)
            && all[p] is None by {
            if j < n - 1 {
                assert(less.dom().contains(p));
            }
            assert(mid.dom().contains(p));
        }
    }
}

/// The tree of a clear payload holds its files and its directories.
proof fn whole_tree_holds(dirs: Seq<Seq<char>>, entries: Seq<(String, Vec<u8>)>, m: int)
    requires
        0 <= m <= dirs.len(),
        forall|i: int| 0 <= i < entries.len() ==> #[trigger] entry_clear(entries, i),
        forall|j: int| 0 <= j < m ==> #[trigger] own_dir_clear(dirs, entries, j),
    ensures
        forall|p: Seq<char>| #[trigger]
            whole_tree(dirs, entries, m).dom().contains(p) ==> payload_tree(
                entries,
                entries.len() as int,
            ).dom().contains(p) || exists|j: int| 0 <= j < m && #[trigger] is_dir_at(p, dirs[j]),
        forall|p: Seq<char>| #[trigger]
            payload_tree(entries, entries.len() as int).dom().contains(p) ==> whole_tree(
                dirs,
                entries,
                m,
            ).dom().contains(p) && whole_tree(dirs, entries, m)[p] == payload_tree(
                entries,
                entries.len() as int,
            )[p],
        forall|j: int, p: Seq<char>|
            0 <= j < m && #[trigger] is_dir_at(p, dirs[j]) ==> whole_tree(
                dirs,
                entries,
                m,
            ).dom().contains(p) && whole_tree(dirs, entries, m)[p] is None,
    decreases m,
{
    if m > 0 {
        whole_tree_holds(dirs, entries, m - 1);
        let files = payload_tree(entries, entries.len() as int);
        let less = whole_tree(dirs, entries, m - 1);
        let all = whole_tree(dirs, entries, m);
        let d = dirs[m - 1];
        let path = d.push('/');
        assert(own_dir_clear(dirs, entries, m - 1));
        with_dirs_dom(less, path, d.len() as int + 1);
        with_dirs_keeps(less, path, d.len() as int + 1);
        assert forall|p: Seq<char>| #[trigger] is_dir_of(p, path) <==> is_dir_at(p, d) by {
            trailing_slash(d, p);
        }
        assert forall|p: Seq<char>| #[trigger] all.dom().contains(p) implies files.dom().contains(
            p,
        ) || exists|j: int| 0 <= j < m && #[trigger] is_dir_at(p, dirs[j]) by {
            if less.dom().contains(p) {
                if !files.dom().contains(p) {
                    let j = choose|j: int| 0 <= j < m - 1 && #[trigger] is_dir_at(p, dirs[j]);
                    assert(is_dir_at(p, dirs[j]));
                }
            } else {
                assert(is_dir_of(p, path));
                assert(is_dir_at(p, dirs[m - 1]));
            }
        }
        assert forall|p: Seq<char>| #[trigger] files.dom().contains(p) implies all.dom().contains(p)
            && all[p] == files[p] by {
            assert(less.dom().contains(p));
        }
        assert forall|j: int, p: Seq<char>|
            0 <= j < m && #[trigger] is_dir_at(p, dirs[j]) implies all.dom().contains(p)
            && all[p] is None by {
            if j < m - 1 {
                assert(less.dom().contains(p));
            } else {
                assert(is_dir_of(p, path));
            }
        }
    }
}

/// A directory and those that it lies in are the directories of its path with
/// a '/' behind it.
proof fn trailing_slash(d: Seq<char>, p: Seq<char>)
    ensures
        is_dir_of(p, d.push('/')) <==> is_dir_at(p, d),
{
    let path = d.push('/');
    if p.len() <= d.len() {
        assert(path.take(p.len() as int) =~= d.take(p.len() as int));
        if p.len() == d.len() {
            assert(d.take(p.len() as int) =~= d);
        }
    }
}

/// What is clear at every step has no path that is both a file and a
/// directory.
proof fn clear_is_apart(dirs: Seq<Seq<char>>, entries: Seq<(String, Vec<u8>)>)
    requires
        forall|i: int| 0 <= i < entries.len() ==> #[trigger] entry_clear(entries, i),
        forall|j: int| 0 <= j < dirs.len() ==> #[trigger] own_dir_clear(dirs, entries, j),
    ensures
        files_apart(payload_paths(dirs, entries)),
{
    let ps = payload_paths(dirs, entries);
    tree_holds_payload(dirs, entries);
    let t = whole_tree(dirs, entries, dirs.len() as int);
    assert forall|i: int| 0 <= i < ps.files.len() implies !is_dir_in(ps, #[trigger] ps.files[i]) by {
        assert(entries[i].0@ == ps.files[i]);
        assert(t[entries[i].0@] is Some);
    }
}

/// The container holds every file of the payload with its contents and every
/// directory of it, and nothing else. No path is both a file and a directory.
pub proof fn container_holds_payload(
    dirs: Seq<Seq<char>>,
    entries: Seq<(String, Vec<u8>)>,
    r: Result<Vec<u8>, EspError>,
)
    requires
        container_made(dirs, entries, r),
        r is Ok,
    ensures
        files_apart(payload_paths(dirs, entries)),
        fat_tree(r->Ok_0@) matches Some(t) && {
            &&& forall|j: int|
                0 <= j < entries.len() ==> t.dom().contains((#[trigger] entries[j]).0@)
                    && t[entries[j].0@] == Some(entries[j].1@)
            &&& forall|p: Seq<char>| #[trigger]
                t.dom().contains(p) <==> in_payload(payload_paths(dirs, entries), p)
            &&& forall|p: Seq<char>| #[trigger]
                is_dir_in(payload_paths(dirs, entries), p) ==> t.dom().contains(p) && t[p] is None
        },
{
    apart_files_are_clear(dirs, entries, entries.len() as int);
    apart_own_dirs_are_clear(dirs, entries, dirs.len() as int);
    tree_holds_payload(dirs, entries);
}

/// The tree of a payload that is clear at every step.
proof fn tree_holds_payload(dirs: Seq<Seq<char>>, entries: Seq<(String, Vec<u8>)>)
    requires
        forall|i: int| 0 <= i < entries.len() ==> #[trigger] entry_clear(entries, i),
        forall|j: int| 0 <= j < dirs.len() ==> #[trigger] own_dir_clear(dirs, entries, j),
    ensures
        ({
            let t = whole_tree(dirs, entries, dirs.len() as int);
            &&& forall|j: int|
                0 <= j < entries.len() ==> t.dom().contains((#[trigger] entries[j]).0@)
                    && t[entries[j].0@] == Some(entries[j].1@)
            &&& forall|p: Seq<char>| #[trigger]
                t.dom().contains(p) <==> in_payload(payload_paths(dirs, entries), p)
            &&& forall|p: Seq<char>| #[trigger]
                is_dir_in(payload_paths(dirs, entries), p) ==> t.dom().contains(p) && t[p] is None
        }),
{
    let ps = payload_paths(dirs, entries);
    let n = entries.len() as int;
    let files = payload_tree(entries, n);
    let t = whole_tree(dirs, entries, dirs.len() as int);
    payload_tree_holds(entries, n);
    whole_tree_holds(dirs, entries, dirs.len() as int);
    assert forall|j: int| 0 <= j < entries.len() implies t.dom().contains((#[trigger] entries[j]).0@)
        && t[entries[j].0@] == Some(entries[j].1@) by {
        assert(ps.files[j] == entries[j].0@);
        assert(files.dom().contains(ps.files[j]));
    }
    assert forall|p: Seq<char>| #[trigger] is_dir_in(ps, p) implies t.dom().contains(p)
        && t[p] is None by {
        if exists|i: int| 0 <= i < ps.files.len() && #[trigger] is_dir_of(p, ps.files[i]) {
            let i = choose|i: int| 0 <= i < ps.files.len() && #[trigger] is_dir_of(p, ps.files[i]);
            assert(is_dir_of(p, paths_of(entries)[i]));
            assert(files.dom().contains(p));
        } else {
            let j = choose|j: int| 0 <= j < dirs.len() && #[trigger] is_dir_at(p, ps.dirs[j]);
            assert(is_dir_at(p, dirs[j]));
        }
    }
    assert forall|p: Seq<char>| #[trigger] t.dom().contains(p) <==> in_payload(ps, p) by {
        if t.dom().contains(p) {
            if files.dom().contains(p) {
                let j = choose|j: int|
                    0 <= j < n && (#[trigger] paths_of(entries)[j] == p || is_dir_of(
                        p,
                        paths_of(entries)[j],
                    ));
                if paths_of(entries)[j] == p {
                    assert(ps.files.contains(p));
                } else {
                    assert(is_dir_of(p, ps.files[j]));
                }
            } else {
                let j = choose|j: int| 0 <= j < dirs.len() && #[trigger] is_dir_at(p, dirs[j]);
                assert(is_dir_at(p, ps.dirs[j]));
            }
        }
        if in_payload(ps, p) && !is_dir_in(ps, p) {
            let j = choose|j: int| 0 <= j < ps.files.len() && ps.files[j] == p;
            assert(entries[j].0@ == p);
        }
    }
}

/// Whether no two paths of a payload can be taken for one another: all told
/// apart, and none both a file and a directory.
pub open spec fn names_apart(ps: Paths) -> bool {
    &&& forall|p: Seq<char>, q: Seq<char>| #[trigger]
        in_payload(ps, p) && #[trigger] in_payload(ps, q) ==> told_apart(p, q)
    &&& files_apart(ps)
}

/// A tree holds paths of the payload only, and directories where the payload
/// has them.
spec fn fits(t: FatTree, ps: Paths) -> bool {
    &&& forall|p: Seq<char>| #[trigger] t.dom().contains(p) ==> in_payload(ps, p)
    &&& forall|p: Seq<char>| #[trigger] t.dom().contains(p) && is_dir_in(ps, p) ==> t[p] is None
}

/// A path all whose directories are directories of the payload.
spec fn dirs_known(ps: Paths, path: Seq<char>) -> bool {
    &&& path.len() > 0
    &&& path[0] != '/'
    &&& forall|p: Seq<char>| #[trigger] is_dir_of(p, path) ==> is_dir_in(ps, p)
}

proof fn file_dirs_known(ps: Paths, i: int)
    requires
        0 <= i < ps.files.len(),
        name_fault(ps.files[i]) is None,
    ensures
        dirs_known(ps, ps.files[i]),
        in_payload(ps, ps.files[i]),
{
    valid_names(ps.files[i]);
    assert(ps.files.contains(ps.files[i]));
}

proof fn own_dirs_known(ps: Paths, j: int)
    requires
        0 <= j < ps.dirs.len(),
        name_fault(ps.dirs[j]) is None,
    ensures
        dirs_known(ps, ps.dirs[j].push('/')),
{
    let d = ps.dirs[j];
    valid_names(d);
    assert forall|p: Seq<char>| #[trigger] is_dir_of(p, d.push('/')) implies is_dir_in(ps, p) by {
        trailing_slash(d, p);
        assert(is_dir_at(p, ps.dirs[j]));
    }
}

proof fn with_dirs_fits(t: FatTree, ps: Paths, path: Seq<char>, k: int)
    requires
        fits(t, ps),
        dirs_known(ps, path),
        0 <= k <= path.len(),
    ensures
        fits(with_dirs(t, path, k), ps),
    decreases k,
{
    if k > 0 {
        with_dirs_fits(t, ps, path, k - 1);
        if path[k - 1] == '/' {
            assert(is_dir_of(path.take(k - 1), path));
        }
    }
}

proof fn known_dirs_are_clear(t: FatTree, ps: Paths, path: Seq<char>)
    requires
        fits(t, ps),
        dirs_known(ps, path),
    ensures
        dirs_clear(t, path),
{
    assert forall|k: int| 0 <= k < path.len() && #[trigger] path[k] == '/' implies clear_dir(
        with_dirs(t, path, k),
        path.take(k),
    ) by {
        with_dirs_fits(t, ps, path, k);
        assert(is_dir_of(path.take(k), path));
    }
}

proof fn apart_files_are_clear(dirs: Seq<Seq<char>>, entries: Seq<(String, Vec<u8>)>, n: int)
    requires
        0 <= n <= entries.len(),
        first_fault(paths_of(entries), entries.len() as int) is None,
        files_apart(payload_paths(dirs, entries)),
    ensures
        forall|i: int| 0 <= i < n ==> #[trigger] entry_clear(entries, i),
        fits(payload_tree(entries, n), payload_paths(dirs, entries)),
    decreases n,
{
    let ps = payload_paths(dirs, entries);
    let paths = paths_of(entries);
    if n > 0 {
        apart_files_are_clear(dirs, entries, n - 1);
        payload_tree_holds(entries, n - 1);
        let t = payload_tree(entries, n - 1);
        let path = paths[n - 1];
        let len = path.len() as int;
        assert(path == entries[n - 1].0@);
        assert(path == ps.files[n - 1]);
        fault_stays(paths, n, entries.len() as int);
        file_dirs_known(ps, n - 1);
        no_twin(paths, n - 1, path);
        assert(!is_dir_in(ps, ps.files[n - 1]));
        known_dirs_are_clear(t, ps, path);
        with_dirs_fits(t, ps, path, len);
        with_dirs_dom(t, path, len);
        if with_dirs(t, path, len).dom().contains(path) {
            assert(t.dom().contains(path));
            let j = choose|j: int|
                0 <= j < n - 1 && (#[trigger] paths[j] == path || is_dir_of(path, paths[j]));
            assert(is_dir_of(path, ps.files[j]));
        }
        assert(entry_clear(entries, n - 1));
        assert forall|i: int| 0 <= i < n implies #[trigger] entry_clear(entries, i) by {
            if i < n - 1 {
                assert(entry_clear(entries, i));
            }
        }
    }
}

proof fn apart_own_dirs_are_clear(dirs: Seq<Seq<char>>, entries: Seq<(String, Vec<u8>)>, m: int)
    requires
        0 <= m <= dirs.len(),
        first_fault(paths_of(entries), entries.len() as int) is None,
        first_dir_fault(dirs, dirs.len() as int) is None,
        files_apart(payload_paths(dirs, entries)),
    ensures
        forall|j: int| 0 <= j < m ==> #[trigger] own_dir_clear(dirs, entries, j),
        fits(whole_tree(dirs, entries, m), payload_paths(dirs, entries)),
    decreases m,
{
    let ps = payload_paths(dirs, entries);
    if m <= 0 {
        apart_files_are_clear(dirs, entries, entries.len() as int);
    } else {
        apart_own_dirs_are_clear(dirs, entries, m - 1);
        let t = whole_tree(dirs, entries, m - 1);
        let d = dirs[m - 1];
        dir_fault_stays(dirs, m, dirs.len() as int);
        valid_names(d);
        own_dirs_known(ps, m - 1);
        known_dirs_are_clear(t, ps, d.push('/'));
        with_dirs_fits(t, ps, d.push('/'), d.len() as int + 1);
        assert(own_dir_clear(dirs, entries, m - 1));
        assert forall|j: int| 0 <= j < m implies #[trigger] own_dir_clear(dirs, entries, j) by {
            if j < m - 1 {
                assert(own_dir_clear(dirs, entries, j));
            }
        }
    }
}

/// All paths of a payload without faults have plain names.
proof fn payload_is_plain(dirs: Seq<Seq<char>>, entries: Seq<(String, Vec<u8>)>, p: Seq<char>)
    requires
        first_fault(paths_of(entries), entries.len() as int) is None,
        first_dir_fault(dirs, dirs.len() as int) is None,
        in_payload(payload_paths(dirs, entries), p),
    ensures
        plain_name(leaf_of(p)),
{
    let ps = payload_paths(dirs, entries);
    if ps.files.contains(p) {
        let i = choose|i: int| 0 <= i < ps.files.len() && ps.files[i] == p;
        fault_stays(ps.files, i + 1, entries.len() as int);
        valid_names(p);
    } else if exists|i: int| 0 <= i < ps.files.len() && #[trigger] is_dir_of(p, ps.files[i]) {
        let i = choose|i: int| 0 <= i < ps.files.len() && #[trigger] is_dir_of(p, ps.files[i]);
        fault_stays(ps.files, i + 1, entries.len() as int);
        valid_names(ps.files[i]);
        assert(ps.files[i][p.len() as int] == '/');
    } else {
        let j = choose|j: int| 0 <= j < ps.dirs.len() && #[trigger] is_dir_at(p, ps.dirs[j]);
        dir_fault_stays(dirs, j + 1, dirs.len() as int);
        valid_names(ps.dirs[j]);
        if p != ps.dirs[j] {
            assert(ps.dirs[j][p.len() as int] == '/');
        }
    }
}

/// In a payload of names apart, a path that is not there yet is new.
proof fn apart_is_fresh(
    dirs: Seq<Seq<char>>,
    entries: Seq<(String, Vec<u8>)>,
    t: FatTree,
    path: Seq<char>,
    k: int,
)
    requires
        first_fault(paths_of(entries), entries.len() as int) is None,
        first_dir_fault(dirs, dirs.len() as int) is None,
        names_apart(payload_paths(dirs, entries)),
        fits(t, payload_paths(dirs, entries)),
        dirs_known(payload_paths(dirs, entries), path),
        0 < k <= path.len(),
        in_payload(payload_paths(dirs, entries), path.take(k)),
        !with_dirs(t, path, k).dom().contains(path.take(k)),
    ensures
        fresh_path(with_dirs(t, path, k), path.take(k)),
{
    let ps = payload_paths(dirs, entries);
    let here = path.take(k);
    let tk = with_dirs(t, path, k);
    with_dirs_fits(t, ps, path, k);
    with_dirs_dom(t, path, k);
    parent_is_before(path, k);
    payload_is_plain(dirs, entries, here);
    assert(here[0] == path[0]);
    assert(plain_tree(tk)) by {
        assert forall|p: Seq<char>| #[trigger] tk.dom().contains(p) implies plain_name(
            leaf_of(p),
        ) by {
            payload_is_plain(dirs, entries, p);
        }
    }
    if last_slash(here) >= 0 {
        let up = parent_of(here);
        assert(is_dir_of(up, path));
        assert(tk.dom().contains(up));
    }
    assert forall|q: Seq<char>| #[trigger]
        tk.dom().contains(q) && parent_of(q) == parent_of(here) implies !mistaken(
        leaf_of(here),
        leaf_of(q),
    ) by {
        assert(in_payload(ps, q));
        assert(told_apart(here, q));
    }
}

proof fn apart_dir_not_taken(
    dirs: Seq<Seq<char>>,
    entries: Seq<(String, Vec<u8>)>,
    e: EspError,
    size: int,
    t: FatTree,
    path: Seq<char>,
    shown: Seq<char>,
)
    requires
        first_fault(paths_of(entries), entries.len() as int) is None,
        first_dir_fault(dirs, dirs.len() as int) is None,
        names_apart(payload_paths(dirs, entries)),
        fits(t, payload_paths(dirs, entries)),
        dirs_known(payload_paths(dirs, entries), path),
    ensures
        !dir_taken(e, size, t, path, shown),
{
    let ps = payload_paths(dirs, entries);
    assert forall|image: Seq<u8>, k: int| #[trigger]
        dir_missing(e, image, k, size, t, path, shown) implies fresh_path(
        with_dirs(t, path, k),
        path.take(k),
    ) by {
        assert(is_dir_of(path.take(k), path));
        with_dirs_fits(t, ps, path, k);
        assert(k > 0);
        apart_is_fresh(dirs, entries, t, path, k);
    }
}

/// In a payload without faults whose names are all apart, nothing is taken for
/// another entry, in whatever order it comes.
pub proof fn names_apart_are_not_taken(
    dirs: Seq<Seq<char>>,
    entries: Seq<(String, Vec<u8>)>,
    e: EspError,
    size: int,
)
    requires
        first_fault(paths_of(entries), entries.len() as int) is None,
        first_dir_fault(dirs, dirs.len() as int) is None,
        names_apart(payload_paths(dirs, entries)),
    ensures
        !taken(e, dirs, entries, size),
{
    let ps = payload_paths(dirs, entries);
    assert forall|i: int| 0 <= i < entries.len() implies !#[trigger] entry_taken(
        e,
        entries,
        i,
        size,
    ) by {
        let t = payload_tree(entries, i);
        let path = ps.files[i];
        let len = path.len() as int;
        assert(path == entries[i].0@);
        fault_stays(ps.files, i + 1, entries.len() as int);
        apart_files_are_clear(dirs, entries, i + 1);
        apart_files_are_clear(dirs, entries, i);
        assert(entry_clear(entries, i));
        file_dirs_known(ps, i);
        apart_dir_not_taken(dirs, entries, e, size, t, path, path);
        assert(path.take(len) =~= path);
        apart_is_fresh(dirs, entries, t, path, len);
    }
    assert forall|j: int| 0 <= j < dirs.len() implies !#[trigger] own_dir_taken(
        e,
        dirs,
        entries,
        j,
        size,
    ) by {
        apart_own_dirs_are_clear(dirs, entries, j);
        dir_fault_stays(dirs, j + 1, dirs.len() as int);
        own_dirs_known(ps, j);
        apart_dir_not_taken(
            dirs,
            entries,
            e,
            size,
            whole_tree(dirs, entries, j),
            dirs[j].push('/'),
            dirs[j],
        );
    }
}

// ---------------------------------------------------------------------------
// which names FAT holds
// ---------------------------------------------------------------------------

/// Whether a name is not empty and FAT holds it: printable characters, none of
/// `" * / : < > ? \ |`, no space at either end, no dot and no U+FFFF at the end.
spec fn held_name(c: Seq<char>) -> bool {
    &&& c.len() > 0
    &&& forall|i: int| 0 <= i < c.len() ==> #[trigger] c[i] != '/' && held_char(c[i])
    &&& c[0] != ' '
    &&& c.last() != ' ' && c.last() != '.' && c.last() != '\u{FFFF}'
}

/// A printable character other than `" * : < > ? \ |`.
spec fn held_char(c: char) -> bool {
    &&& c as u32 >= 32
    &&& c as u32 != 127
    &&& c != '"' && c != '*' && c != ':' && c != '<' && c != '>' && c != '?' && c != '\\' && c
        != '|'
}

/// Whether position `i` of a path is the last one of a component.
spec fn ends_part(path: Seq<char>, i: int) -> bool {
    i == path.len() - 1 || path[i + 1] == '/'
}

/// Whether position `i` of a path is the first one of a component.
spec fn starts_part(path: Seq<char>, i: int) -> bool {
    i == 0 || path[i - 1] == '/'
}

/// What holds of the character at position `i` of a path that FAT holds.
spec fn held_at(path: Seq<char>, i: int) -> bool {
    let c = path[i];
    if c == '/' {
        !starts_part(path, i) && i < path.len() - 1
    } else {
        &&& held_char(c)
        &&& c == ' ' ==> !starts_part(path, i)
        &&& c == ' ' || c == '.' || c == '\u{FFFF}' ==> !ends_part(path, i)
    }
}

spec fn held_path(path: Seq<char>) -> bool {
    path.len() > 0 && forall|i: int| 0 <= i < path.len() ==> #[trigger] held_at(path, i)
}

/// The first character that FAT does not hold.
proof fn first_forbidden_is_first(name: Seq<char>)
    ensures
        match first_forbidden(name) {
            None => forall|i: int|
                0 <= i < name.len() ==> #[trigger] name[i] != '/' && held_char(name[i]),
            Some(b) => exists|k: int|
                {
                    &&& 0 <= k < name.len()
                    &&& #[trigger] name[k] == b
                    &&& b == '/' || !held_char(b)
                    &&& forall|i: int|
                        0 <= i < k ==> #[trigger] name[i] != '/' && held_char(name[i])
                },
        },
    decreases name.len(),
{
    if name.len() > 0 {
        let init = name.drop_last();
        first_forbidden_is_first(init);
        match first_forbidden(init) {
            None => {
                assert forall|i: int| 0 <= i < name.len() - 1 implies #[trigger] name[i] != '/'
                    && held_char(name[i]) by {
                    assert(init[i] == name[i]);
                }
                let last = name[name.len() - 1];
                assert(forbidden(last) <==> last == '/' || !held_char(last));
            },
            Some(b) => {
                let k = choose|k: int|
                    {
                        &&& 0 <= k < init.len()
                        &&& #[trigger] init[k] == b
                        &&& b == '/' || !held_char(b)
                        &&& forall|i: int|
                            0 <= i < k ==> #[trigger] init[i] != '/' && held_char(init[i])
                    };
                assert(name[k] == b);
                assert forall|i: int| 0 <= i < k implies #[trigger] name[i] != '/' && held_char(
                    name[i],
                ) by {
                    assert(init[i] == name[i]);
                }
            },
        }
    }
}

proof fn component_is_held(path: Seq<char>, c: Seq<char>)
    requires
        c.len() > 0,
    ensures
        component_fault(path, c) is None <==> held_name(c),
{
    first_forbidden_is_first(c);
    if let Some(b) = first_forbidden(c) {
        let k = choose|k: int|
            0 <= k < c.len() && #[trigger] c[k] == b && (b == '/' || !held_char(b));
        assert(!held_name(c));
    }
}

/// No component has a fault where each is held, and the other way round.
proof fn list_is_held(path: Seq<char>, list: Seq<Seq<char>>)
    requires
        forall|j: int| 0 <= j < list.len() ==> (#[trigger] list[j]).len() > 0,
    ensures
        first_component_fault(path, list) is None <==> forall|j: int|
            0 <= j < list.len() ==> held_name(#[trigger] list[j]),
    decreases list.len(),
{
    if list.len() > 0 {
        let init = list.drop_last();
        assert forall|j: int| 0 <= j < init.len() implies (#[trigger] init[j]).len() > 0 by {
            assert(init[j] == list[j]);
        }
        list_is_held(path, init);
        component_is_held(path, list[list.len() - 1]);
        if first_component_fault(path, list) is None {
            assert forall|j: int| 0 <= j < list.len() implies held_name(#[trigger] list[j]) by {
                if j < init.len() {
                    assert(held_name(init[j]));
                }
            }
        } else if forall|j: int| 0 <= j < list.len() ==> held_name(#[trigger] list[j]) {
            assert forall|j: int| 0 <= j < init.len() implies held_name(#[trigger] init[j]) by {
                assert(held_name(list[j]));
            }
            assert(held_name(list[list.len() - 1]));
        }
    }
}

/// A path is held where all its components are.
proof fn parts_are_held(path: Seq<char>)
    ensures
        held_path(path) <==> forall|j: int|
            0 <= j < components(path).len() ==> held_name(#[trigger] components(path)[j]),
    decreases path.len(),
{
    let list = components(path);
    components_split(path);
    last_slash_facts(path);
    let m = last_slash(path);
    let leaf = leaf_of(path);
    let n = path.len() as int;
    assert forall|k: int| 0 <= k < leaf.len() implies #[trigger] leaf[k] == path[k + m + 1] by {}
    assert(list[list.len() - 1] == leaf);
    if m < 0 {
        assert(leaf =~= path);
        one_part_is_held(path);
    } else {
        let up = parent_of(path);
        let init = list.drop_last();
        parts_are_held(up);
        if held_path(path) {
            two_parts_apart(path, m);
            assert forall|j: int| 0 <= j < list.len() implies held_name(#[trigger] list[j]) by {
                if j < init.len() {
                    assert(init[j] == list[j]);
                }
            }
        }
        if forall|j: int| 0 <= j < list.len() ==> held_name(#[trigger] list[j]) {
            assert forall|j: int| 0 <= j < init.len() implies held_name(#[trigger] init[j]) by {
                assert(held_name(list[j]));
            }
            assert(held_name(list[list.len() - 1]));
            two_parts_joined(path, m);
        }
    }
}

proof fn one_part_is_held(path: Seq<char>)
    requires
        forall|i: int| 0 <= i < path.len() ==> path[i] != '/',
    ensures
        held_path(path) <==> held_name(path),
{
    if held_path(path) {
        assert(held_at(path, 0));
        assert(held_at(path, path.len() - 1));
        assert forall|i: int| 0 <= i < path.len() implies #[trigger] path[i] != '/' && held_char(
            path[i],
        ) by {
            assert(held_at(path, i));
        }
    }
    if held_name(path) {
        assert forall|i: int| 0 <= i < path.len() implies #[trigger] held_at(path, i) by {
            assert(path[i] != '/' && held_char(path[i]));
        }
    }
}

proof fn two_parts_apart(path: Seq<char>, m: int)
    requires
        held_path(path),
        0 <= m < path.len(),
        path[m] == '/',
        forall|i: int| m < i < path.len() ==> path[i] != '/',
    ensures
        held_path(path.take(m)),
        held_name(path.skip(m + 1)),
{
    let up = path.take(m);
    let leaf = path.skip(m + 1);
    assert(held_at(path, m));
    assert forall|i: int| 0 <= i < up.len() implies #[trigger] held_at(up, i) by {
        assert(held_at(path, i));
        assert(up[i] == path[i]);
        if i > 0 {
            assert(up[i - 1] == path[i - 1]);
        }
        if i < m - 1 {
            assert(up[i + 1] == path[i + 1]);
        }
    }
    assert forall|i: int| 0 <= i < leaf.len() implies #[trigger] leaf[i] != '/' && held_char(
        leaf[i],
    ) by {
        assert(held_at(path, i + m + 1));
    }
    assert(held_at(path, m + 1));
    assert(held_at(path, path.len() - 1));
}

proof fn two_parts_joined(path: Seq<char>, m: int)
    requires
        0 <= m < path.len(),
        path[m] == '/',
        held_path(path.take(m)),
        held_name(path.skip(m + 1)),
    ensures
        held_path(path),
{
    let up = path.take(m);
    let leaf = path.skip(m + 1);
    assert forall|i: int| 0 <= i < path.len() implies #[trigger] held_at(path, i) by {
        if i < m {
            assert(held_at(up, i));
            assert(up[i] == path[i]);
            if i > 0 {
                assert(up[i - 1] == path[i - 1]);
            }
            if i < m - 1 {
                assert(up[i + 1] == path[i + 1]);
            }
        } else if i == m {
            assert(held_at(up, m - 1));
            assert(up[m - 1] == path[m - 1]);
            if m - 1 > 0 {
                assert(up[m - 2] == path[m - 2]);
            }
        } else {
            let k = i - m - 1;
            assert(leaf[k] == path[i]);
            assert(leaf[k] != '/' && held_char(leaf[k]));
            if k > 0 {
                assert(leaf[k - 1] == path[i - 1]);
                assert(leaf[k - 1] != '/');
            }
            if k < leaf.len() - 1 {
                assert(leaf[k + 1] == path[i + 1]);
                assert(leaf[k + 1] != '/');
            }
        }
    }
}

/// Which paths FAT holds, character by character. A path has no fault in its
/// names where it is not empty and has no '/' at either end and no two in a
/// row, all its other characters are printable and none of
/// `" * : < > ? \ |`, and none of its components starts with a space, or ends
/// with a space, a dot or U+FFFF. Any other path has a fault.
pub proof fn held_paths_have_no_fault(path: Seq<char>)
    ensures
        name_fault(path) is None <==> {
            &&& path.len() > 0
            &&& path[0] != '/'
            &&& path.last() != '/'
            &&& forall|i: int|
                0 <= i < path.len() ==> {
                    let c = #[trigger] path[i];
                    let first = i == 0 || path[i - 1] == '/';
                    let last = i == path.len() - 1 || path[i + 1] == '/';
                    &&& c == '/' ==> !first
                    &&& c as u32 >= 0x20
                    &&& c as u32 != 0x7F
                    &&& c != '"' && c != '*' && c != ':' && c != '<' && c != '>' && c != '?' && c
                        != '\\' && c != '|'
                    &&& c == ' ' ==> !first && !last
                    &&& c == '.' || c == '\u{FFFF}' ==> !last
                }
        },
{
    let list = components(path);
    components_split(path);
    parts_are_held(path);
    let filled = forall|j: int| 0 <= j < list.len() ==> (#[trigger] list[j]).len() > 0;
    if filled {
        list_is_held(path, list);
        assert(list[list.len() - 1].len() > 0);
    } else {
        let j = choose|j: int| 0 <= j < list.len() && (#[trigger] list[j]).len() == 0;
        assert(!held_name(list[j]));
    }
    assert(name_fault(path) is None <==> held_path(path));
    if held_path(path) {
        assert(held_at(path, 0));
        assert(held_at(path, path.len() - 1));
        assert forall|i: int| 0 <= i < path.len() implies {
            let c = #[trigger] path[i];
            let first = i == 0 || path[i - 1] == '/';
            let last = i == path.len() - 1 || path[i + 1] == '/';
            &&& c == '/' ==> !first
            &&& c as u32 >= 0x20
            &&& c as u32 != 0x7F
            &&& c != '"' && c != '*' && c != ':' && c != '<' && c != '>' && c != '?' && c != '\\'
                && c != '|'
            &&& c == ' ' ==> !first && !last
            &&& c == '.' || c == '\u{FFFF}' ==> !last
        } by {
            assert(held_at(path, i));
        }
    }
    if !held_path(path) && path.len() > 0 {
        let i = choose|i: int| 0 <= i < path.len() && !#[trigger] held_at(path, i);
        let c = path[i];
    }
}

/// A name with a control character, or with one of `" * : < > ? \ |`, has a
/// fault that names the first such character, wherever else it may be wrong.
pub proof fn bad_characters_are_named(name: Seq<char>, k: int)
    requires
        0 <= k < name.len(),
        forall|i: int| 0 <= i < name.len() ==> #[trigger] name[i] != '/',
        ({
            let c = name[k];
            (c as u32) < 0x20 || c as u32 == 0x7F || c == '"' || c == '*' || c == ':' || c == '<'
                || c == '>' || c == '?' || c == '\\' || c == '|'
        }),
        forall|i: int|
            0 <= i < k ==> {
                let c = #[trigger] name[i];
                &&& c as u32 >= 0x20
                &&& c as u32 != 0x7F
                &&& c != '"' && c != '*' && c != ':' && c != '<' && c != '>' && c != '?' && c
                    != '\\' && c != '|'
            },
    ensures
        name_fault(name) == Some(
            Fault::BadCharacter { path: name, bad: name[k], component: name },
        ),
{
    components_split(name);
    last_slash_facts(name);
    assert(leaf_of(name) =~= name);
    let list = components(name);
    assert(list =~= seq![name]);
    assert forall|i: int| 0 <= i < k implies #[trigger] held_char(name[i]) by {}
    assert(!held_char(name[k]));
    first_of_many(name, k);
    assert(list.drop_last() =~= Seq::<Seq<char>>::empty());
    assert(first_component_fault(name, list.drop_last()) is None);
    assert(list.last() == name);
    assert(component_fault(name, name) == Some(
        Fault::BadCharacter { path: name, bad: name[k], component: name },
    ));
}

proof fn first_of_many(name: Seq<char>, k: int)
    requires
        0 <= k < name.len(),
        forall|i: int| 0 <= i < name.len() ==> name[i] != '/',
        !held_char(name[k]),
        forall|i: int| 0 <= i < k ==> held_char(#[trigger] name[i]),
    ensures
        first_forbidden(name) == Some(name[k]),
{
    first_forbidden_is_first(name);
    match first_forbidden(name) {
        None => {
            assert(name[k] != '/' && held_char(name[k]));
        },
        Some(b) => {
            let j = choose|j: int|
                {
                    &&& 0 <= j < name.len()
                    &&& #[trigger] name[j] == b
                    &&& b == '/' || !held_char(b)
                    &&& forall|i: int|
                        0 <= i < j ==> #[trigger] name[i] != '/' && held_char(name[i])
                };
            if j < k {
                assert(held_char(name[j]));
            } else if k < j {
                assert(held_char(name[k]));
            }
        },
    }
}

// ---------------------------------------------------------------------------
// what is refused, and how large a container is
// ---------------------------------------------------------------------------

/// Texts with '/' between them.
pub open spec fn slashed(list: Seq<Seq<char>>) -> Seq<char>
    decreases list.len(),
{
    if list.len() == 0 {
        Seq::empty()
    } else if list.len() == 1 {
        list[0]
    } else {
        slashed(list.drop_last()).push('/') + list.last()
    }
}

/// The components of a path hold no '/', and with '/' between them they are the
/// path.
pub proof fn components_are_the_path(path: Seq<char>)
    ensures
        components(path).len() > 0,
        slashed(components(path)) == path,
        forall|j: int, i: int|
            0 <= j < components(path).len() && 0 <= i < components(path)[j].len()
                ==> #[trigger] components(path)[j][i] != '/',
    decreases path.len(),
{
    let list = components(path);
    if path.len() == 0 {
        assert(slashed(list) =~= path);
    } else {
        let init = path.drop_last();
        let less = components(init);
        let c = path.last();
        components_are_the_path(init);
        assert(path =~= init.push(c));
        if c == '/' {
            assert(list.drop_last() =~= less);
            assert(slashed(list) =~= init.push('/') + Seq::<char>::empty());
        } else {
            let n = less.len() - 1;
            assert(list.drop_last() =~= less.drop_last());
            assert(list.last() == less.last().push(c));
            if n == 0 {
                assert(list[0] == less[0].push(c));
            } else {
                assert(slashed(list) =~= slashed(less).push(c));
            }
            assert forall|j: int, i: int|
                0 <= j < list.len() && 0 <= i < list[j].len() implies #[trigger] list[j][i] != '/' by {
                if j < n {
                    assert(list[j] == less[j]);
                    assert(less[j][i] != '/');
                } else if i < less[n].len() {
                    assert(less[n][i] != '/');
                }
            }
        }
    }
}

/// A path that is empty or ends with '/' is refused for that, and no other is.
pub proof fn empty_leaves_are_refused(path: Seq<char>)
    ensures
        name_fault(path) == Some(Fault::EmptyLeaf { path }) <==> path.len() == 0 || path.last()
            == '/',
{
    components_split(path);
    let list = components(path);
    if path.len() > 0 && path.last() != '/' {
        let init = components(path.drop_last());
        assert(list.last() == init.last().push(path.last()));
        no_empty_leaf(path, list);
    }
}

proof fn no_empty_leaf(path: Seq<char>, list: Seq<Seq<char>>)
    ensures
        first_component_fault(path, list) != Some(Fault::EmptyLeaf { path }),
    decreases list.len(),
{
    if list.len() > 0 {
        no_empty_leaf(path, list.drop_last());
    }
}

/// A name of characters that FAT holds, which does not end with U+FFFF, is
/// refused where it starts or ends with a space or ends with a dot, and for
/// nothing else.
pub proof fn bad_edges_are_refused(name: Seq<char>)
    requires
        name.len() > 0,
        forall|i: int|
            0 <= i < name.len() ==> #[trigger] name[i] != '"' && 32 <= name[i] as u32 && name[i]
                as u32 != 127 && name[i] != '*' && name[i] != '/' && name[i] != ':' && name[i]
                != '<' && name[i] != '>' && name[i] != '?' && name[i] != '\\' && name[i] != '|',
        name.last() != '\u{FFFF}',
    ensures
        name_fault(name) == if name[0] == ' ' || name.last() == ' ' || name.last() == '.' {
            Some(Fault::BadEdge { path: name, component: name })
        } else {
            None
        },
{
    components_split(name);
    last_slash_facts(name);
    let list = components(name);
    assert(last_slash(name) < 0) by {
        if last_slash(name) >= 0 {
            assert(name[last_slash(name)] == '/');
        }
    }
    assert(leaf_of(name) =~= name);
    assert(list =~= seq![name]);
    none_is_forbidden(name);
    one_component(name, list);
}

/// A list of one component has the fault of that component.
proof fn one_component(name: Seq<char>, list: Seq<Seq<char>>)
    requires
        list == seq![name],
        components(name) == list,
        name.len() > 0,
    ensures
        name_fault(name) == component_fault(name, name),
{
    assert(list.drop_last() =~= Seq::<Seq<char>>::empty());
    assert(first_component_fault(name, list.drop_last()) is None);
    assert(list.last() == name);
    assert(first_component_fault(name, list) == component_fault(name, name));
}

proof fn none_is_forbidden(name: Seq<char>)
    requires
        forall|i: int| 0 <= i < name.len() ==> !forbidden(#[trigger] name[i]),
    ensures
        first_forbidden(name) is None,
    decreases name.len(),
{
    if name.len() > 0 {
        let less = name.drop_last();
        assert forall|i: int| 0 <= i < less.len() implies !forbidden(#[trigger] less[i]) by {
            assert(less[i] == name[i]);
        }
        none_is_forbidden(less);
        assert(!forbidden(name[name.len() - 1]));
    }
}

/// The first path with a fault is the one that is told of.
pub proof fn first_fault_is_first(paths: Seq<Seq<char>>, n: int)
    requires
        0 <= n <= paths.len(),
    ensures
        match first_fault(paths, n) {
            None => forall|i: int| 0 <= i < n ==> (#[trigger] path_fault(paths, i)) is None,
            Some(f) => exists|i: int|
                0 <= i < n && #[trigger] path_fault(paths, i) == Some(f) && first_fault(paths, i)
                    is None,
        },
    decreases n,
{
    if n > 0 {
        first_fault_is_first(paths, n - 1);
        if first_fault(paths, n - 1) is None {
            assert(path_fault(paths, n - 1) == path_fault(paths, n - 1));
        }
    }
}

/// Paths without faults in their names are refused where two of them are the
/// same but for the case of ASCII letters, and not otherwise.
pub proof fn twins_are_refused(paths: Seq<Seq<char>>)
    requires
        forall|i: int| 0 <= i < paths.len() ==> name_fault(#[trigger] paths[i]) is None,
    ensures
        first_fault(paths, paths.len() as int) is Some <==> exists|i: int, j: int|
            0 <= i < j < paths.len() && same_but_case(#[trigger] paths[i], #[trigger] paths[j]),
{
    let n = paths.len() as int;
    first_fault_is_first(paths, n);
    if let Some(f) = first_fault(paths, n) {
        let j = choose|j: int|
            0 <= j < n && #[trigger] path_fault(paths, j) == Some(f) && first_fault(paths, j)
                is None;
        assert(name_fault(paths[j]) is None);
        twin_is_earlier(paths, j, paths[j]);
        let i = choose|i: int|
            0 <= i < j && (#[trigger] paths[i]) == earlier_twin(paths, j, paths[j])->0 && twins(
                paths[i],
                paths[j],
            );
        assert(name_fault(paths[i]) is None);
        twins_are_same(paths[i], paths[j]);
        assert(same_but_case(paths[i], paths[j]));
    }
    if exists|i: int, j: int|
        0 <= i < j < n && same_but_case(#[trigger] paths[i], #[trigger] paths[j]) {
        let (i, j) = choose|i: int, j: int|
            0 <= i < j < n && same_but_case(#[trigger] paths[i], #[trigger] paths[j]);
        assert(name_fault(paths[i]) is None);
        assert(name_fault(paths[j]) is None);
        twins_are_same(paths[i], paths[j]);
        twin_is_earlier(paths, j, paths[j]);
        assert(twins(paths[i], paths[j]));
        assert(path_fault(paths, j) is Some);
    }
}

/// Whether two paths lie in the same place where ASCII case does not count.
spec fn twins(q: Seq<char>, path: Seq<char>) -> bool {
    fold(parent_of(q)) == fold(parent_of(path)) && fold(leaf_of(q)) == fold(leaf_of(path))
}

proof fn twin_is_earlier(paths: Seq<Seq<char>>, n: int, path: Seq<char>)
    ensures
        match earlier_twin(paths, n, path) {
            Some(q) => exists|i: int| 0 <= i < n && #[trigger] paths[i] == q && twins(paths[i], path),
            None => forall|i: int| 0 <= i < n ==> !twins(#[trigger] paths[i], path),
        },
    decreases n,
{
    if n > 0 {
        twin_is_earlier(paths, n - 1, path);
        if earlier_twin(paths, n - 1, path) is None {
            assert(paths[n - 1] == paths[n - 1]);
        }
    }
}

proof fn twins_are_same(p: Seq<char>, q: Seq<char>)
    requires
        name_fault(p) is None,
        name_fault(q) is None,
    ensures
        twins(p, q) <==> same_but_case(p, q),
{
    folding_ignores_case_only(p, q);
    split_folds(p);
    split_folds(q);
    if twins(p, q) {
        let a = last_slash(p);
        let b = last_slash(q);
        assert(fold(parent_of(p)).len() == parent_of(p).len());
        assert(fold(parent_of(q)).len() == parent_of(q).len());
    }
    if fold(p) == fold(q) {
        same_last_slash(p, q);
        let a = last_slash(p);
        if a >= 0 {
            assert(fold(p).take(a) =~= fold(parent_of(p)));
            assert(fold(q).take(a) =~= fold(parent_of(q)));
        }
        assert(fold(p).skip(a + 1) =~= fold(leaf_of(p)));
        assert(fold(q).skip(a + 1) =~= fold(leaf_of(q)));
    }
}

/// A path without faults is its directory, '/' and its leaf, or its leaf alone.
proof fn split_folds(p: Seq<char>)
    requires
        name_fault(p) is None,
    ensures
        -1 <= last_slash(p) < p.len(),
        last_slash(p) != 0,
        last_slash(p) > 0 ==> fold(p) == fold(parent_of(p)).push('/') + fold(leaf_of(p))
            && parent_of(p).len() == last_slash(p),
        last_slash(p) < 0 ==> fold(p) == fold(leaf_of(p)) && parent_of(p).len() == 0,
        fold(p).len() == p.len(),
{
    components_split(p);
    last_slash_facts(p);
    let a = last_slash(p);
    if a == 0 {
        let list = components(p);
        assert(parent_of(p) =~= Seq::<char>::empty());
        assert(components(parent_of(p)) =~= seq![Seq::<char>::empty()]);
        assert(list.drop_last().len() == 1);
        assert(list.drop_last()[0] == list[0]);
        assert(list[0].len() == 0);
    }
    if a > 0 {
        assert(fold(p) =~= fold(parent_of(p)).push('/') + fold(leaf_of(p)));
    } else {
        assert(leaf_of(p) =~= p);
    }
}

proof fn same_last_slash(p: Seq<char>, q: Seq<char>)
    requires
        fold(p) == fold(q),
    ensures
        last_slash(p) == last_slash(q),
{
    last_slash_facts(p);
    last_slash_facts(q);
    assert(fold(p).len() == p.len());
    assert(fold(q).len() == q.len());
    assert forall|i: int| 0 <= i < p.len() implies (p[i] == '/') == (#[trigger] q[i] == '/') by {
        assert(fold(p)[i] == ascii_upper_char(p[i]));
        assert(fold(q)[i] == ascii_upper_char(q[i]));
    }
    let a = last_slash(p);
    let b = last_slash(q);
    if a < b {
        assert(q[b] == '/');
        assert(p[b] == '/');
    } else if b < a {
        assert(p[a] == '/');
        assert(q[a] == '/');
    }
}

/// The size of a container is a multiple of 512 bytes, of 1 MiB at least, and
/// leaves 512 KiB beside what it is to hold; it is the least of these.
pub proof fn containers_are_just_large_enough(total: int, size: int)
    requires
        0 <= total,
        size % 512 == 0,
        0x10_0000 <= size,
        total + 0x8_0000 <= size,
    ensures
        container_size(total) % 512 == 0,
        container_size(total) >= 0x10_0000,
        container_size(total) >= total + 0x8_0000,
        container_size(total) <= size,
{
    quotients_are_rounded_up(total + 0x8_0000, 512);
}

/// A container is refused as too large where it would have more than 4 GiB, and
/// for no other size on a machine that can hold it.
pub proof fn large_containers_are_refused(size: int)
    ensures
        size_allowed(size) <==> size <= 4 * 1024 * 1024 * 1024 && size <= usize::MAX,
{
}

/// The bytes of files add up, and a payload has none where every file is
/// empty.
pub proof fn contents_add_up(
    a: Seq<(String, Vec<u8>)>,
    b: Seq<(String, Vec<u8>)>,
    e: (String, Vec<u8>),
)
    ensures
        content_total(a + b) == content_total(a) + content_total(b),
        content_total(seq![e]) == e.1@.len(),
        content_total(a) == 0 <==> forall|i: int| 0 <= i < a.len() ==> (#[trigger] a[i]).1@.len()
            == 0,
        content_total(a) >= 0,
    decreases b.len(), a.len(),
{
    if b.len() > 0 {
        contents_add_up(a, b.drop_last(), e);
        assert((a + b).drop_last() =~= a + b.drop_last());
        assert((a + b).last() == b.last());
    } else {
        assert(a + b =~= a);
        if a.len() > 0 {
            contents_add_up(a.drop_last(), b, e);
            let less = a.drop_last();
            if content_total(a) == 0 {
                assert forall|i: int| 0 <= i < a.len() implies (#[trigger] a[i]).1@.len() == 0 by {
                    if i < less.len() {
                        assert(less[i] == a[i]);
                    }
                }
            }
            if forall|i: int| 0 <= i < a.len() ==> (#[trigger] a[i]).1@.len() == 0 {
                assert forall|i: int| 0 <= i < less.len() implies (#[trigger] less[i]).1@.len()
                    == 0 by {
                    assert(less[i] == a[i]);
                }
                assert(a[a.len() - 1].1@.len() == 0);
            }
        }
    }
    reveal_with_fuel(content_total, 2);
    assert(seq![e].drop_last() =~= Seq::<(String, Vec<u8>)>::empty());
}

/// A directory that a path lies in is what stands before one of its '/'.
pub proof fn directories_of_paths(p: Seq<char>, path: Seq<char>)
    ensures
        is_dir_of(p, path) <==> exists|rest: Seq<char>| path == #[trigger] (p.push('/') + rest),
{
    if is_dir_of(p, path) {
        let rest = path.skip(p.len() as int + 1);
        assert(path =~= p.push('/') + rest);
    }
    if exists|rest: Seq<char>| path == #[trigger] (p.push('/') + rest) {
        let rest = choose|rest: Seq<char>| path == #[trigger] (p.push('/') + rest);
        assert(p =~= path.take(p.len() as int));
    }
}

/// The directories that a container needs room for beside its files are those
/// that no file lies in.
pub proof fn bare_directories_are_counted(
    dirs: Seq<Seq<char>>,
    entries: Seq<(String, Vec<u8>)>,
)
    ensures
        needed_bytes(dirs, entries) == content_total(entries) + 33792 * dirs.filter(
            |d: Seq<char>| !has_file_below(paths_of(entries), d),
        ).len(),
{
    let n = dirs.len() as int;
    bare_dirs_are_filtered(dirs, paths_of(entries), n);
    assert(dirs.take(n) =~= dirs);
}

proof fn bare_dirs_are_filtered(dirs: Seq<Seq<char>>, paths: Seq<Seq<char>>, n: int)
    requires
        0 <= n <= dirs.len(),
    ensures
        bare_dirs(dirs, paths, n) == dirs.take(n).filter(
            |d: Seq<char>| !has_file_below(paths, d),
        ).len(),
    decreases n,
{
    reveal(Seq::filter);
    if n > 0 {
        bare_dirs_are_filtered(dirs, paths, n - 1);
        assert(dirs.take(n).drop_last() =~= dirs.take(n - 1));
        assert(dirs.take(n).last() == dirs[n - 1]);
    }
}

/// A container starts from an empty FAT volume labelled "FS2ISO_EFI!" in as
/// many zero bytes: FAT32 above 2 GiB, and FAT16 up to there.
pub proof fn containers_start_empty(size: int)
    requires
        0 <= size,
    ensures
        empty_volume(size) == fat_format(
            Seq::new(size as nat, |i: int| 0u8),
            size > 2 * 1024 * 1024 * 1024,
            seq![70u8, 83, 50, 73, 83, 79, 95, 69, 70, 73, 33],
        ),
{
    assert(zeros(size as nat) =~= Seq::new(size as nat, |i: int| 0u8));
}

/// A payload without a byte is refused as empty, and no other is. A payload with
/// a fault in a path of a file, or else of a directory, is refused for the first
/// one. What is too large is refused with its bytes. A container has room for
/// its payload: a multiple of 512 bytes from 1 MiB to 4 GiB.
pub proof fn refusals_come_in_turn(
    dirs: Seq<Seq<char>>,
    entries: Seq<(String, Vec<u8>)>,
    r: Result<Vec<u8>, EspError>,
)
    requires
        container_made(dirs, entries, r),
    ensures
        ({
            let empty = forall|i: int| 0 <= i < entries.len() ==> (#[trigger] entries[i]).1@.len() == 0;
            let fault = first_fault(paths_of(entries), entries.len() as int);
            let dir_fault = first_dir_fault(dirs, dirs.len() as int);
            &&& (r is Err && r->Err_0 is Empty) <==> empty
            &&& !empty && fault is Some ==> r is Err && r->Err_0.tells(fault->0)
            &&& !empty && fault is None && dir_fault is Some ==> r is Err && r->Err_0.tells(
                dir_fault->0,
            )
            &&& r matches Err(EspError::TooLarge { payload }) ==> payload == content_total(entries)
                && !size_allowed(container_size(needed_bytes(dirs, entries)))
            &&& r matches Err(EspError::Sizing { free, payload }) ==> free < payload && payload
                == content_total(entries)
            &&& r matches Ok(image) ==> {
                &&& !empty && fault is None && dir_fault is None
                &&& image@.len() % 512 == 0
                &&& 0x10_0000 <= image@.len() <= 4 * 1024 * 1024 * 1024
                &&& content_total(entries) + 0x8_0000 <= image@.len()
            }
        }),
{
    let total = content_total(entries);
    contents_add_up(entries, Seq::empty(), (arbitrary(), arbitrary()));
    bare_directories_are_counted(dirs, entries);
    let needed = needed_bytes(dirs, entries);
    let size = container_size(needed);
    large_containers_are_refused(size);
    quotients_are_rounded_up(needed + 0x8_0000, 512);
    if let Err(e) = r {
        if taken(e, dirs, entries, size) || failed(e, dirs, entries, size) {
            assert(e is CreateDir || e is CreateFile || e is Write || e is Flush);
        }
    }
}

} // verus!
