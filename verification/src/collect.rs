//! Collecting the payload: which files go where in the image.
//!
//!  * A file input goes to the image root.
//!  * A directory input keeps its name at the root (whole subtree); with
//!    `flat`, and where it has no name of its own (".", "..", a file-system
//!    root), its contents are merged into the root.
//!  * Names that fold to the same name in one directory of the image, link
//!    cycles and runaway nesting are errors.
//!
//! The file system is read by the caller: a [`Collector`] says what it needs
//! to know next and takes the answer.
use vstd::prelude::*;
use std::path::PathBuf;
use vstd::utf8::encode_utf8;
use crate::order::{bytes_eq, bytes_le, lex_le, place_item_at, sort_items};
use crate::text::{ascii_upper_char, str_eq};

verus! {

// ---------------------------------------------------------------------------
// names
// ---------------------------------------------------------------------------

/// A name with its ASCII letters in upper case.
pub open spec fn fold(name: Seq<char>) -> Seq<char> {
    name.map_values(|c: char| ascii_upper_char(c))
}

/// A name with its ASCII letters in upper case, for finding names that collide
/// where case does not count.
pub fn ascii_upper(name: &str) -> (r: String)
    ensures
        r@ == fold(name@),
{
    let mut r: String = String::new();
    for c in iter: name.chars()
        invariant
            iter.seq() == name@,
            r@ == fold(name@.take(iter.index() as int)),
    {
        proof {
            let i = iter.index() as int;
            assert(fold(name@.take(i + 1)) =~= fold(name@.take(i)).push(ascii_upper_char(c)));
        }
        if 'a' <= c && c <= 'z' {
            r.push(((c as u32 - 32) as u8) as char);
        } else {
            r.push(c);
        }
    }
    assert(name@.take(name@.len() as int) =~= name@);
    r
}

/// The image path of an entry of directory `dir`; the root has the path "".
pub open spec fn image_path(dir: Seq<char>, name: Seq<char>) -> Seq<char> {
    if dir.len() == 0 {
        name
    } else {
        dir + seq!['/'] + name
    }
}

/// The image path of an entry of a directory.
pub fn join_image_path(dir: &str, name: &str) -> (r: String)
    ensures
        r@ == image_path(dir@, name@),
{
    if str_eq(dir, "") {
        proof {
            reveal_strlit("");
        }
        name.to_string()
    } else {
        proof {
            reveal_strlit("");
            if dir@.len() == 0 {
                assert(dir@ =~= ""@);
            }
        }
        let mut r: String = dir.to_string();
        r.push('/');
        r.append(name);
        assert(r@ =~= image_path(dir@, name@));
        r
    }
}

/// Why the payload could not be collected. Paths stand here as messages show
/// them.
#[derive(Debug)]
pub enum CollectError {
    /// Two entries of the image root fold to the same name.
    DuplicateRoot { name: String, previous: String, source: String },
    /// Two entries of another directory of the image fold to the same name.
    DuplicateName { name: String, dir: String, previous_name: String, previous: String },
    /// Directories nest too deep.
    TooDeep { dir: String },
    /// A directory lies below itself.
    Cycle { dir: String },
    /// A file input without a name.
    BadInput { input: String },
    /// There is no file in the inputs.
    NoFiles,
}

/// A [`CollectError`] as a value.
pub enum Failure {
    DuplicateRoot { name: Seq<char>, previous: Seq<char>, source: Seq<char> },
    DuplicateName {
        name: Seq<char>,
        dir: Seq<char>,
        previous_name: Seq<char>,
        previous: Seq<char>,
    },
    TooDeep { dir: Seq<char> },
    Cycle { dir: Seq<char> },
    BadInput { input: Seq<char> },
    NoFiles,
}

impl View for CollectError {
    type V = Failure;

    open spec fn view(&self) -> Failure {
        match self {
            CollectError::DuplicateRoot { name, previous, source } => Failure::DuplicateRoot {
                name: name@,
                previous: previous@,
                source: source@,
            },
            CollectError::DuplicateName { name, dir, previous_name, previous } =>
                Failure::DuplicateName {
                name: name@,
                dir: dir@,
                previous_name: previous_name@,
                previous: previous@,
            },
            CollectError::TooDeep { dir } => Failure::TooDeep { dir: dir@ },
            CollectError::Cycle { dir } => Failure::Cycle { dir: dir@ },
            CollectError::BadInput { input } => Failure::BadInput { input: input@ },
            CollectError::NoFiles => Failure::NoFiles,
        }
    }
}

/// The text of a failure.
pub open spec fn failure_text(f: Failure) -> Seq<char> {
    match f {
        Failure::DuplicateRoot { name, previous, source } => "duplicate root name '"@ + name
            + "' from "@ + previous + " and "@ + source,
        Failure::DuplicateName { name, dir, previous_name, previous } => "duplicate image name '"@
            + name + "' in directory '"@ + dir + "': collides with '"@ + previous_name + "' from "@
            + previous + " (ISO9660/FAT names are case-insensitive)"@,
        Failure::TooDeep { dir } => "directory nesting too deep under "@ + dir
            + " (possible link cycle?)"@,
        Failure::Cycle { dir } => "directory cycle detected at "@ + dir
            + " (re-entered a junction/link)"@,
        Failure::BadInput { input } => "bad input path "@ + input,
        Failure::NoFiles => "no files found in the inputs"@,
    }
}

impl CollectError {
    /// The message for a user.
    pub fn message(&self) -> (m: String)
        ensures
            m@ == failure_text(self@),
    {
        match self {
            CollectError::DuplicateRoot { name, previous, source } => {
                let mut m: String = "duplicate root name '".to_string();
                m.append(name.as_str());
                m.append("' from ");
                m.append(previous.as_str());
                m.append(" and ");
                m.append(source.as_str());
                m
            },
            CollectError::DuplicateName { name, dir, previous_name, previous } => {
                let mut m: String = "duplicate image name '".to_string();
                m.append(name.as_str());
                m.append("' in directory '");
                m.append(dir.as_str());
                m.append("': collides with '");
                m.append(previous_name.as_str());
                m.append("' from ");
                m.append(previous.as_str());
                m.append(" (ISO9660/FAT names are case-insensitive)");
                m
            },
            CollectError::TooDeep { dir } => {
                let mut m: String = "directory nesting too deep under ".to_string();
                m.append(dir.as_str());
                m.append(" (possible link cycle?)");
                m
            },
            CollectError::Cycle { dir } => {
                let mut m: String = "directory cycle detected at ".to_string();
                m.append(dir.as_str());
                m.append(" (re-entered a junction/link)");
                m
            },
            CollectError::BadInput { input } => {
                let mut m: String = "bad input path ".to_string();
                m.append(input.as_str());
                m
            },
            CollectError::NoFiles => "no files found in the inputs".to_string(),
        }
    }
}

// ---------------------------------------------------------------------------
// the registry of names
// ---------------------------------------------------------------------------

/// A reserved name: the directory and the folded name, then the name and its
/// source.
struct Taken {
    dir: String,
    folded: String,
    name: String,
    source: String,
}

/// The names taken in the directories of the image, without regard to case.
/// Catches two source entries that fold to the same name before they reach
/// case-insensitive writers, which would drop or overwrite one of them.
pub struct NameRegistry {
    taken: Vec<Taken>,
}

/// Directory and folded name.
pub type NameKey = (Seq<char>, Seq<char>);

/// The name as it was reserved, and its source.
pub type NameOwner = (Seq<char>, Seq<char>);

impl View for NameRegistry {
    type V = Map<NameKey, NameOwner>;

    closed spec fn view(&self) -> Map<NameKey, NameOwner> {
        Map::new(
            |k: NameKey| exists|i: int| 0 <= i < self.taken@.len() && #[trigger] self.key(i) == k,
            |k: NameKey|
                {
                    let i = choose|i: int|
                        0 <= i < self.taken@.len() && #[trigger] self.key(i) == k;
                    (self.taken@[i].name@, self.taken@[i].source@)
                },
        )
    }
}

/// Reserving a name: the registry with it, or the entry that holds it already.
pub open spec fn reserving(
    names: Map<NameKey, NameOwner>,
    dir: Seq<char>,
    name: Seq<char>,
    source: Seq<char>,
) -> Result<Map<NameKey, NameOwner>, Failure> {
    let key = (dir, fold(name));
    if names.dom().contains(key) {
        let owner = names[key];
        if dir.len() == 0 {
            Err(Failure::DuplicateRoot { name, previous: owner.1, source })
        } else {
            Err(Failure::DuplicateName { name, dir, previous_name: owner.0, previous: owner.1 })
        }
    } else {
        Ok(names.insert(key, (name, source)))
    }
}

impl NameRegistry {
    spec fn key(&self, i: int) -> NameKey {
        (self.taken@[i].dir@, self.taken@[i].folded@)
    }

    /// No key is held twice.
    pub closed spec fn wf(&self) -> bool {
        forall|i: int, j: int|
            0 <= i < self.taken@.len() && 0 <= j < self.taken@.len() && #[trigger] self.key(i)
                == #[trigger] self.key(j) ==> i == j
    }

    /// The registry without names.
    pub fn new() -> (r: NameRegistry)
        ensures
            r.wf(),
            r@ == Map::<NameKey, NameOwner>::empty(),
    {
        let r = NameRegistry { taken: Vec::new() };
        assert(r@ =~= Map::<NameKey, NameOwner>::empty());
        r
    }

    /// Reserves `name` in the image directory `image_dir` ("" is the root) for
    /// the entry that messages show as `source`. An error where another entry
    /// folds to the same name there.
    pub fn reserve(&mut self, image_dir: &str, name: &str, source: &str) -> (r: Result<
        (),
        CollectError,
    >)
        requires
            old(self).wf(),
        ensures
            final(self).wf(),
            match (r, reserving(old(self)@, image_dir@, name@, source@)) {
                (Ok(_), Ok(names)) => final(self)@ == names,
                (Err(e), Err(f)) => e@ == f && *final(self) == *old(self),
                _ => false,
            },
    {
        let folded: String = ascii_upper(name);
        let ghost key = (image_dir@, folded@);
        let n: usize = self.taken.len();
        let mut i: usize = 0;
        while i < n
            invariant
                n == self.taken@.len(),
                i <= n,
                *self == *old(self),
                self.wf(),
                key == (image_dir@, fold(name@)),
                folded@ == fold(name@),
                forall|j: int| 0 <= j < i ==> #[trigger] self.key(j) != key,
            decreases n - i,
        {
            let t: &Taken = &self.taken[i];
            if str_eq(t.dir.as_str(), image_dir) && str_eq(t.folded.as_str(), folded.as_str()) {
                proof {
                    assert(self.key(i as int) == key);
                    let j = choose|j: int|
                        0 <= j < self.taken@.len() && #[trigger] self.key(j) == key;
                    assert(j == i);
                    reveal_strlit("");
                    if image_dir@.len() == 0 {
                        assert(image_dir@ =~= ""@);
                    }
                }
                if str_eq(image_dir, "") {
                    return Err(
                        CollectError::DuplicateRoot {
                            name: name.to_string(),
                            previous: t.source.clone(),
                            source: source.to_string(),
                        },
                    );
                }
                return Err(
                    CollectError::DuplicateName {
                        name: name.to_string(),
                        dir: image_dir.to_string(),
                        previous_name: t.name.clone(),
                        previous: t.source.clone(),
                    },
                );
            }
            assert(self.key(i as int) != key);
            i += 1;
        }
        let ghost before = *self;
        let entry = Taken {
            dir: image_dir.to_string(),
            folded,
            name: name.to_string(),
            source: source.to_string(),
        };
        self.taken.push(entry);
        proof {
            assert(self.key(n as int) == key);
            assert forall|j: int| 0 <= j < n implies #[trigger] self.key(j) == before.key(j) by {}
            assert forall|a: int, b: int|
                0 <= a < self.taken@.len() && 0 <= b < self.taken@.len() && #[trigger] self.key(a)
                    == #[trigger] self.key(b) implies a == b by {
                if a < n && b < n {
                    assert(before.key(a) == before.key(b));
                }
            }
            let want = before@.insert(key, (name@, source@));
            assert forall|k: NameKey| self@.dom().contains(k) <==> want.dom().contains(k) by {
                if before@.dom().contains(k) {
                    let j = choose|j: int|
                        0 <= j < before.taken@.len() && #[trigger] before.key(j) == k;
                    assert(self.key(j) == k);
                }
                if self@.dom().contains(k) && k != key {
                    let j = choose|j: int|
                        0 <= j < self.taken@.len() && #[trigger] self.key(j) == k;
                    assert(before.key(j) == k);
                }
            }
            assert forall|k: NameKey| self@.dom().contains(k) implies self@[k] == want[k] by {
                let j = choose|j: int| 0 <= j < self.taken@.len() && #[trigger] self.key(j) == k;
                if k == key {
                    assert(j == n);
                } else {
                    assert(before.key(j) == k);
                    let m = choose|m: int|
                        0 <= m < before.taken@.len() && #[trigger] before.key(m) == k;
                    assert(m == j);
                }
            }
            assert(self@ =~= want);
            assert(!before@.dom().contains(key));
        }
        Ok(())
    }
}

impl Default for NameRegistry {
    fn default() -> (r: NameRegistry)
        ensures
            r.wf(),
            r@ == Map::<NameKey, NameOwner>::empty(),
    {
        NameRegistry::new()
    }
}

// ---------------------------------------------------------------------------
// the payload
// ---------------------------------------------------------------------------

/// One payload file: where it goes in the image and where it lies.
pub struct FileRecord {
    /// Path in the image, with forward slashes.
    pub relative_path: String,
    pub source_path: PathBuf,
}

/// What an entry of an image directory is: the file of a record, or another
/// directory.
#[derive(Clone, Copy, PartialEq, Eq, Debug, Structural)]
pub enum ImageNode {
    File(usize),
    Dir(usize),
}

/// An entry of an image directory.
pub struct ImageEntry {
    pub name: String,
    pub node: ImageNode,
}

/// A directory of the image. The first one is the root.
pub struct ImageDir {
    /// Path in the image, "" for the root.
    pub path: String,
    pub entries: Vec<ImageEntry>,
}

/// The collected payload: the directory tree of the image and the files in it.
pub struct CollectedPayload {
    pub dirs: Vec<ImageDir>,
    pub records: Vec<FileRecord>,
    pub directory_count: u64,
    pub payload_bytes: u64,
}

/// A [`FileRecord`] as a value.
#[verifier::ext_equal]
pub struct RecordView {
    pub relative_path: Seq<char>,
    pub source_path: PathBuf,
}

/// An [`ImageEntry`] as a value.
#[verifier::ext_equal]
pub struct ImageEntryView {
    pub name: Seq<char>,
    pub node: ImageNode,
}

/// An [`ImageDir`] as a value.
#[verifier::ext_equal]
pub struct ImageDirView {
    pub path: Seq<char>,
    pub entries: Seq<ImageEntryView>,
}

/// A [`CollectedPayload`] as a value.
#[verifier::ext_equal]
pub struct PayloadView {
    pub dirs: Seq<ImageDirView>,
    pub records: Seq<RecordView>,
    pub directory_count: int,
    pub payload_bytes: int,
}

impl View for FileRecord {
    type V = RecordView;

    open spec fn view(&self) -> RecordView {
        RecordView { relative_path: self.relative_path@, source_path: self.source_path }
    }
}

impl View for ImageEntry {
    type V = ImageEntryView;

    open spec fn view(&self) -> ImageEntryView {
        ImageEntryView { name: self.name@, node: self.node }
    }
}

impl View for ImageDir {
    type V = ImageDirView;

    open spec fn view(&self) -> ImageDirView {
        ImageDirView {
            path: self.path@,
            entries: self.entries@.map_values(|e: ImageEntry| e@),
        }
    }
}

impl View for CollectedPayload {
    type V = PayloadView;

    open spec fn view(&self) -> PayloadView {
        PayloadView {
            dirs: self.dirs@.map_values(|d: ImageDir| d@),
            records: self.records@.map_values(|r: FileRecord| r@),
            directory_count: self.directory_count as int,
            payload_bytes: self.payload_bytes as int,
        }
    }
}

impl ImageDirView {
    /// The directory with one more entry.
    pub open spec fn with(self, name: Seq<char>, node: ImageNode) -> ImageDirView {
        ImageDirView { entries: self.entries.push(ImageEntryView { name, node }), ..self }
    }

    /// No two entries fold to the same name.
    pub open spec fn tidy(self) -> bool {
        forall|i: int, j: int|
            0 <= i < j < self.entries.len() ==> fold(#[trigger] self.entries[i].name) != fold(
                #[trigger] self.entries[j].name,
            )
    }
}

impl PayloadView {
    /// An image with nothing but an empty root.
    pub open spec fn start() -> PayloadView {
        PayloadView {
            dirs: seq![ImageDirView { path: Seq::empty(), entries: Seq::empty() }],
            records: Seq::empty(),
            directory_count: 0,
            payload_bytes: 0,
        }
    }

    /// The payload with one more file of `len` bytes in directory `dir`.
    pub open spec fn with_file(
        self,
        dir: int,
        name: Seq<char>,
        source: PathBuf,
        len: int,
    ) -> PayloadView {
        let d = self.dirs[dir];
        PayloadView {
            dirs: self.dirs.update(dir, d.with(name, ImageNode::File(self.records.len() as usize))),
            records: self.records.push(
                RecordView { relative_path: image_path(d.path, name), source_path: source },
            ),
            payload_bytes: self.payload_bytes + len,
            ..self
        }
    }

    /// The payload with one more directory in directory `dir`.
    pub open spec fn with_dir(self, dir: int, name: Seq<char>) -> PayloadView {
        let d = self.dirs[dir];
        PayloadView {
            dirs: self.dirs.update(
                dir,
                d.with(name, ImageNode::Dir(self.dirs.len() as usize)),
            ).push(ImageDirView { path: image_path(d.path, name), entries: Seq::empty() }),
            directory_count: self.directory_count + 1,
            ..self
        }
    }

    /// What entry `i` of directory `d` stands for has the path of the entry.
    pub open spec fn entry_linked(self, d: int, i: int) -> bool {
        let e = self.dirs[d].entries[i];
        let path = image_path(self.dirs[d].path, e.name);
        match e.node {
            ImageNode::File(r) => r < self.records.len() && self.records[r as int].relative_path
                == path,
            ImageNode::Dir(c) => d < c < self.dirs.len() && self.dirs[c as int].path == path,
        }
    }

    /// The directories form a tree below the root, without names that fold to
    /// the same name in one of them; files and directories all have an entry,
    /// and the paths that their entries give them.
    pub open spec fn wf(self) -> bool {
        &&& self.dirs.len() > 0
        &&& self.dirs[0].path == Seq::<char>::empty()
        &&& self.directory_count == self.dirs.len() - 1
        &&& forall|d: int| 0 <= d < self.dirs.len() ==> (#[trigger] self.dirs[d]).tidy()
        &&& forall|d: int, i: int|
            0 <= d < self.dirs.len() && 0 <= i < self.dirs[d].entries.len()
                ==> #[trigger] self.entry_linked(d, i)
        &&& forall|r: usize|
            r < self.records.len() ==> #[trigger] self.listed(ImageNode::File(r))
        &&& forall|c: usize|
            0 < c < self.dirs.len() ==> #[trigger] self.listed(ImageNode::Dir(c))
    }

    /// Entry `i` of directory `d` stands for `node`.
    pub open spec fn lists(self, d: int, i: int, node: ImageNode) -> bool {
        &&& 0 <= d < self.dirs.len()
        &&& 0 <= i < self.dirs[d].entries.len()
        &&& self.dirs[d].entries[i].node == node
    }

    /// Some entry stands for `node`.
    pub open spec fn listed(self, node: ImageNode) -> bool {
        exists|d: int, i: int| self.lists(d, i, node)
    }

    /// Every entry has its name reserved.
    pub open spec fn registered(self, names: Map<NameKey, NameOwner>) -> bool {
        forall|d: int, i: int|
            0 <= d < self.dirs.len() && 0 <= i < self.dirs[d].entries.len() ==> names.dom().contains(
                #[trigger] self.entry_key(d, i),
            )
    }

    /// The registry key of entry `i` of directory `d`.
    pub open spec fn entry_key(self, d: int, i: int) -> NameKey {
        (self.dirs[d].path, fold(self.dirs[d].entries[i].name))
    }

    /// No entry has this registry key.
    pub open spec fn unused(self, key: NameKey) -> bool {
        forall|d: int, i: int|
            0 <= d < self.dirs.len() && 0 <= i < self.dirs[d].entries.len() ==> #[trigger] self.entry_key(
                d,
                i,
            ) != key
    }
}

/// Where entries are only added, what had an entry keeps it.
proof fn keeps_listing(p: PayloadView, q: PayloadView)
    requires
        p.dirs.len() <= q.dirs.len(),
        forall|d: int|
            0 <= d < p.dirs.len() ==> p.dirs[d].entries.is_prefix_of(
                (#[trigger] q.dirs[d]).entries,
            ),
    ensures
        forall|node: ImageNode| p.listed(node) ==> #[trigger] q.listed(node),
{
    assert forall|node: ImageNode| p.listed(node) implies #[trigger] q.listed(node) by {
        let (d, i) = choose|d: int, i: int| p.lists(d, i, node);
        assert(p.dirs[d].entries.is_prefix_of(q.dirs[d].entries));
        assert(p.dirs[d].entries[i] == q.dirs[d].entries[i]);
        assert(q.lists(d, i, node));
    }
}

/// A file keeps the payload well-formed where its name is unused.
proof fn with_file_wf(p: PayloadView, dir: int, name: Seq<char>, source: PathBuf, len: int)
    requires
        p.wf(),
        0 <= dir < p.dirs.len(),
        p.unused((p.dirs[dir].path, fold(name))),
        p.records.len() < usize::MAX,
    ensures
        p.with_file(dir, name, source, len).wf(),
        forall|names: Map<NameKey, NameOwner>|
            p.registered(names) && names.dom().contains((p.dirs[dir].path, fold(name)))
                ==> #[trigger] p.with_file(dir, name, source, len).registered(names),
{
    let q = p.with_file(dir, name, source, len);
    with_entry_tidy(p, dir, name, ImageNode::File(p.records.len() as usize));
    assert forall|d: int| 0 <= d < q.dirs.len() implies (#[trigger] q.dirs[d]).tidy() by {
        assert(p.dirs[d].tidy());
    }
    assert forall|d: int, i: int|
        0 <= d < q.dirs.len() && 0 <= i < q.dirs[d].entries.len() implies #[trigger] q.entry_linked(
        d,
        i,
    ) by {
        if i < p.dirs[d].entries.len() {
            assert(p.entry_linked(d, i));
        }
    }
    assert(q.lists(dir, p.dirs[dir].entries.len() as int, ImageNode::File(p.records.len() as usize)));
    keeps_listing(p, q);
    assert forall|names: Map<NameKey, NameOwner>|
        p.registered(names) && names.dom().contains(
            (p.dirs[dir].path, fold(name)),
        ) implies #[trigger] q.registered(names) by {
        assert forall|d: int, i: int|
            0 <= d < q.dirs.len() && 0 <= i < q.dirs[d].entries.len() implies names.dom().contains(
            #[trigger] q.entry_key(d, i),
        ) by {
            if i < p.dirs[d].entries.len() {
                assert(names.dom().contains(p.entry_key(d, i)));
            }
        }
    }
}

/// A directory keeps the payload well-formed where its name is unused.
proof fn with_dir_wf(p: PayloadView, dir: int, name: Seq<char>)
    requires
        p.wf(),
        0 <= dir < p.dirs.len(),
        p.unused((p.dirs[dir].path, fold(name))),
        p.dirs.len() < usize::MAX,
    ensures
        p.with_dir(dir, name).wf(),
        forall|names: Map<NameKey, NameOwner>|
            p.registered(names) && names.dom().contains((p.dirs[dir].path, fold(name)))
                ==> #[trigger] p.with_dir(dir, name).registered(names),
{
    let q = p.with_dir(dir, name);
    with_entry_tidy(p, dir, name, ImageNode::Dir(p.dirs.len() as usize));
    assert forall|d: int| 0 <= d < q.dirs.len() implies (#[trigger] q.dirs[d]).tidy() by {
        if d < p.dirs.len() {
            assert(p.dirs[d].tidy());
        }
    }
    assert forall|d: int, i: int|
        0 <= d < q.dirs.len() && 0 <= i < q.dirs[d].entries.len() implies #[trigger] q.entry_linked(
        d,
        i,
    ) by {
        if d < p.dirs.len() && i < p.dirs[d].entries.len() {
            assert(p.entry_linked(d, i));
        }
    }
    assert(q.lists(dir, p.dirs[dir].entries.len() as int, ImageNode::Dir(p.dirs.len() as usize)));
    keeps_listing(p, q);
    assert forall|names: Map<NameKey, NameOwner>|
        p.registered(names) && names.dom().contains(
            (p.dirs[dir].path, fold(name)),
        ) implies #[trigger] q.registered(names) by {
        assert forall|d: int, i: int|
            0 <= d < q.dirs.len() && 0 <= i < q.dirs[d].entries.len() implies names.dom().contains(
            #[trigger] q.entry_key(d, i),
        ) by {
            if d < p.dirs.len() && i < p.dirs[d].entries.len() {
                assert(names.dom().contains(p.entry_key(d, i)));
            }
        }
    }
}

proof fn with_entry_tidy(p: PayloadView, dir: int, name: Seq<char>, node: ImageNode)
    requires
        p.wf(),
        0 <= dir < p.dirs.len(),
        p.unused((p.dirs[dir].path, fold(name))),
    ensures
        p.dirs[dir].with(name, node).tidy(),
{
    let d = p.dirs[dir];
    let e = d.with(name, node);
    assert(d.tidy());
    assert forall|i: int, j: int| 0 <= i < j < e.entries.len() implies fold(
        #[trigger] e.entries[i].name,
    ) != fold(#[trigger] e.entries[j].name) by {
        if j == d.entries.len() {
            assert(p.entry_key(dir, i) != (d.path, fold(name)));
        } else {
            assert(fold(d.entries[i].name) != fold(d.entries[j].name));
        }
    }
}

/// Every entry has a name that is not empty and holds no '/'.
pub open spec fn plain_names(p: PayloadView) -> bool {
    forall|d: int, i: int|
        0 <= d < p.dirs.len() && 0 <= i < p.dirs[d].entries.len() ==> plain(
            #[trigger] p.dirs[d].entries[i].name,
        )
}

/// A name that is not empty and holds no '/'.
pub open spec fn plain(name: Seq<char>) -> bool {
    name.len() > 0 && !name.contains('/')
}

/// Paths made of plain names tell directory and name apart, whatever the case.
proof fn image_path_parts(dir: Seq<char>, name: Seq<char>, dir2: Seq<char>, name2: Seq<char>)
    requires
        plain(name),
        plain(name2),
        fold(image_path(dir, name)) == fold(image_path(dir2, name2)),
    ensures
        fold(dir) == fold(dir2),
        fold(name) == fold(name2),
{
    let a = image_path(dir, name);
    let b = image_path(dir2, name2);
    let n = a.len() as int;
    assert(fold(a).len() == fold(b).len());
    assert forall|i: int| 0 <= i < n implies (#[trigger] a[i] == '/') == (b[i] == '/') by {
        assert(fold(a)[i] == fold(b)[i]);
    }
    if dir.len() > 0 {
        assert(a[dir.len() as int] == '/');
    }
    if dir2.len() > 0 {
        assert(b[dir2.len() as int] == '/');
    }
    assert(name.len() == name2.len()) by {
        if name.len() > name2.len() {
            let i = n - name2.len() - 1;
            assert(b[i] == '/');
            assert(a[i] == name[i - (n - name.len())]);
            assert(name.contains(a[i]));
        }
        if name2.len() > name.len() {
            let i = n - name.len() - 1;
            assert(a[i] == '/');
            assert(b[i] == name2[i - (n - name2.len())]);
            assert(name2.contains(b[i]));
        }
    }
    assert forall|i: int| 0 <= i < name.len() implies fold(name)[i] == fold(name2)[i] by {
        let j = n - name.len() + i;
        assert(a[j] == name[i]);
        assert(b[j] == name2[i]);
        assert(fold(a)[j] == fold(b)[j]);
    }
    assert(fold(name) =~= fold(name2));
    assert(dir.len() == dir2.len());
    assert forall|i: int| 0 <= i < dir.len() implies fold(dir)[i] == fold(dir2)[i] by {
        assert(a[i] == dir[i]);
        assert(b[i] == dir2[i]);
        assert(fold(a)[i] == fold(b)[i]);
    }
    assert(fold(dir) =~= fold(dir2));
}

/// No two directories of an image have paths that fold to the same path.
pub proof fn directories_have_distinct_paths(p: PayloadView, b: usize, c: usize)
    requires
        p.wf(),
        plain_names(p),
        b < c < p.dirs.len(),
    ensures
        fold(p.dirs[b as int].path) != fold(p.dirs[c as int].path),
    decreases c, 1int,
{
    assert(p.listed(ImageNode::Dir(c)));
    let (d, i) = choose|d: int, i: int| p.lists(d, i, ImageNode::Dir(c));
    assert(p.entry_linked(d, i));
    let name = p.dirs[d].entries[i].name;
    assert(plain(name));
    if fold(p.dirs[b as int].path) == fold(p.dirs[c as int].path) {
        if b == 0 {
            assert(fold(p.dirs[0].path).len() == 0);
            assert(fold(p.dirs[c as int].path).len() > 0);
        } else {
            assert(p.listed(ImageNode::Dir(b)));
            let (e, j) = choose|e: int, j: int| p.lists(e, j, ImageNode::Dir(b));
            assert(p.entry_linked(e, j));
            assert(plain(p.dirs[e].entries[j].name));
            entries_stand_apart(p, e, j, d, i, c);
        }
    }
}

/// No two files of an image have paths that fold to the same path.
pub proof fn files_have_distinct_paths(p: PayloadView, r: usize, s: usize)
    requires
        p.wf(),
        plain_names(p),
        r < s < p.records.len(),
        p.dirs.len() <= usize::MAX,
    ensures
        fold(p.records[r as int].relative_path) != fold(p.records[s as int].relative_path),
{
    assert(p.listed(ImageNode::File(r)));
    assert(p.listed(ImageNode::File(s)));
    let (d, i) = choose|d: int, i: int| p.lists(d, i, ImageNode::File(r));
    let (e, j) = choose|e: int, j: int| p.lists(e, j, ImageNode::File(s));
    assert(p.entry_linked(d, i));
    assert(p.entry_linked(e, j));
    assert(plain(p.dirs[d].entries[i].name));
    assert(plain(p.dirs[e].entries[j].name));
    if fold(p.records[r as int].relative_path) == fold(p.records[s as int].relative_path) {
        entries_stand_apart(p, d, i, e, j, p.dirs.len() as usize);
    }
}

/// Two entries whose paths fold to the same path are one entry, where both
/// stand in one of the first `n` directories.
proof fn entries_stand_apart(p: PayloadView, d: int, i: int, e: int, j: int, n: usize)
    requires
        p.wf(),
        plain_names(p),
        0 <= d < n,
        0 <= e < n,
        n <= p.dirs.len(),
        0 <= i < p.dirs[d].entries.len(),
        0 <= j < p.dirs[e].entries.len(),
        fold(image_path(p.dirs[d].path, p.dirs[d].entries[i].name)) == fold(
            image_path(p.dirs[e].path, p.dirs[e].entries[j].name),
        ),
    ensures
        d == e,
        i == j,
    decreases n, 0int,
{
    let a = p.dirs[d].entries[i].name;
    let b = p.dirs[e].entries[j].name;
    assert(plain(a));
    assert(plain(b));
    image_path_parts(p.dirs[d].path, a, p.dirs[e].path, b);
    if d < e {
        directories_have_distinct_paths(p, d as usize, e as usize);
    }
    if e < d {
        directories_have_distinct_paths(p, e as usize, d as usize);
    }
    assert(p.dirs[d].tidy());
    if i < j {
        assert(fold(p.dirs[d].entries[i].name) != fold(p.dirs[d].entries[j].name));
    }
    if j < i {
        assert(fold(p.dirs[d].entries[j].name) != fold(p.dirs[d].entries[i].name));
    }
}

impl CollectedPayload {
    /// An image with nothing but an empty root.
    fn start() -> (p: CollectedPayload)
        ensures
            p@ == PayloadView::start(),
            p@.wf(),
    {
        let root = ImageDir { path: String::new(), entries: Vec::new() };
        let mut dirs: Vec<ImageDir> = Vec::new();
        dirs.push(root);
        let p = CollectedPayload {
            dirs,
            records: Vec::new(),
            directory_count: 0,
            payload_bytes: 0,
        };
        assert(root@.entries =~= Seq::<ImageEntryView>::empty());
        assert(p@ =~= PayloadView::start());
        p
    }

    /// Adds an entry to directory `dir`.
    fn add_entry(&mut self, dir: usize, name: String, node: ImageNode)
        requires
            dir < old(self).dirs@.len(),
        ensures
            final(self)@ == (PayloadView {
                dirs: old(self)@.dirs.update(
                    dir as int,
                    old(self)@.dirs[dir as int].with(name@, node),
                ),
                ..old(self)@
            }),
    {
        let ghost before = *self;
        let e = ImageEntry { name, node };
        self.dirs[dir].entries.push(e);
        proof {
            let now = self.dirs@[dir as int]@;
            let had = before.dirs@[dir as int]@;
            assert(now.entries =~= had.entries.push(e@));
            assert(self@.dirs =~= before@.dirs.update(dir as int, had.with(name@, node)));
        }
    }

    /// Adds a file of `len` bytes to directory `dir`.
    fn add_file(&mut self, dir: usize, name: String, source: PathBuf, len: u64)
        requires
            dir < old(self).dirs@.len(),
            old(self).payload_bytes + len <= u64::MAX,
        ensures
            final(self)@ == old(self)@.with_file(dir as int, name@, source, len as int),
            old(self)@.records.len() < usize::MAX,
    {
        let ghost before = self@;
        let ghost file = name@;
        let relative_path: String = join_image_path(self.dirs[dir].path.as_str(), name.as_str());
        let record = FileRecord { relative_path, source_path: source };
        let index: usize = self.records.len();
        self.add_entry(dir, name, ImageNode::File(index));
        let ghost mid = *self;
        self.records.push(record);
        self.payload_bytes = self.payload_bytes + len;
        assert(self.records.len() <= usize::MAX);
        proof {
            assert(self@.dirs == mid@.dirs);
            assert(self@.records =~= before.records.push(record@));
            assert(self@ =~= before.with_file(dir as int, file, source, len as int));
        }
    }

    /// Adds a directory to directory `dir`; gives its index.
    fn add_dir(&mut self, dir: usize, name: String) -> (index: usize)
        requires
            dir < old(self).dirs@.len(),
            old(self)@.wf(),
        ensures
            final(self)@ == old(self)@.with_dir(dir as int, name@),
            index == old(self).dirs@.len(),
            old(self)@.dirs.len() < usize::MAX,
    {
        let ghost before = self@;
        let ghost sub = name@;
        let path: String = join_image_path(self.dirs[dir].path.as_str(), name.as_str());
        let index: usize = self.dirs.len();
        self.add_entry(dir, name, ImageNode::Dir(index));
        let ghost mid = self@;
        let d = ImageDir { path, entries: Vec::new() };
        self.dirs.push(d);
        assert(self.dirs.len() <= usize::MAX);
        self.directory_count = self.directory_count + 1;
        proof {
            assert(d@.entries =~= Seq::<ImageEntryView>::empty());
            assert(self@.dirs =~= mid.dirs.push(d@));
            assert(self@ =~= before.with_dir(dir as int, sub));
        }
        index
    }
}

// ---------------------------------------------------------------------------
// the walk
// ---------------------------------------------------------------------------

/// An entry of a source directory.
pub struct Entry {
    pub name: String,
    /// The path of the entry.
    pub path: PathBuf,
    /// The path as messages show it.
    pub shown: String,
}

/// An [`Entry`] as a value.
#[verifier::ext_equal]
pub struct EntryView {
    pub name: Seq<char>,
    pub path: PathBuf,
    pub shown: Seq<char>,
}

impl View for Entry {
    type V = EntryView;

    open spec fn view(&self) -> EntryView {
        EntryView { name: self.name@, path: self.path, shown: self.shown@ }
    }
}

/// The names of entries in UTF-8, as a function.
pub open spec fn entry_names() -> spec_fn(EntryView) -> Seq<u8> {
    |e: EntryView| encode_utf8(e.name)
}

/// Entries in ascending order of their names.
pub open spec fn sort_entries(s: Seq<EntryView>) -> Seq<EntryView> {
    sort_items(s, entry_names())
}

/// Entries as values.
pub open spec fn entry_views(s: Seq<Entry>) -> Seq<EntryView> {
    s.map_values(|e: Entry| e@)
}

/// The list with its order turned round.
pub(crate) fn reversed(list: Vec<Entry>) -> (out: Vec<Entry>)
    ensures
        entry_views(out@) == entry_views(list@).reverse(),
{
    let mut list = list;
    let ghost all = list@;
    let mut out: Vec<Entry> = Vec::new();
    while list.len() > 0
        invariant
            list@ == all.take(list@.len() as int),
            list@.len() <= all.len(),
            out@ == all.skip(list@.len() as int).reverse(),
        decreases list@.len(),
    {
        let ghost n = list@.len();
        let e: Entry = list.pop().unwrap();
        assert(e == all[n - 1]);
        out.push(e);
        assert(all.skip(n - 1).reverse() =~= all.skip(n as int).reverse().push(all[n - 1]));
    }
    assert(all.skip(0) =~= all);
    assert(entry_views(all.reverse()) =~= entry_views(all).reverse());
    out
}

/// Sorts entries by name, stably.
pub(crate) fn sorted_entries(list: Vec<Entry>) -> (out: Vec<Entry>)
    ensures
        entry_views(out@) == sort_entries(entry_views(list@)),
{
    let ghost all = entry_views(list@);
    let mut todo: Vec<Entry> = reversed(list);
    let mut out: Vec<Entry> = Vec::new();
    let ghost mut done: int = 0;
    proof {
        assert(all.skip(0) =~= all);
        assert(all.take(0) =~= Seq::<EntryView>::empty());
        assert(entry_views(out@) =~= Seq::<EntryView>::empty());
    }
    while todo.len() > 0
        invariant
            0 <= done <= all.len(),
            entry_views(todo@) == all.skip(done).reverse(),
            entry_views(out@) == sort_entries(all.take(done)),
        decreases todo@.len(),
    {
        let ghost before_todo = todo@;
        let e: Entry = todo.pop().unwrap();
        let ghost x = e@;
        proof {
            assert(entry_views(before_todo).last() == x);
            assert(all.skip(done).reverse().last() == all[done]);
            assert(entry_views(todo@) =~= entry_views(before_todo).drop_last());
            assert(all.skip(done + 1).reverse() =~= all.skip(done).reverse().drop_last());
            assert(all.take(done + 1).drop_last() =~= all.take(done));
            assert(all.take(done + 1).last() == x);
        }
        let mut p: usize = out.len();
        let n: usize = p;
        let ghost sorted = entry_views(out@);
        while p > 0 && !bytes_le(out[p - 1].name.as_str().as_bytes(), e.name.as_str().as_bytes())
            invariant
                p <= n,
                n == out@.len(),
                sorted == entry_views(out@),
                x == e@,
                forall|j: int|
                    p <= j < n ==> !lex_le(entry_names()(#[trigger] sorted[j]), entry_names()(x)),
            ensures
                p <= n,
                p == 0 || lex_le(entry_names()(sorted[p - 1]), entry_names()(x)),
                forall|j: int|
                    p <= j < n ==> !lex_le(entry_names()(#[trigger] sorted[j]), entry_names()(x)),
            decreases p,
        {
            p -= 1;
        }
        out.insert(p, e);
        proof {
            place_item_at(sorted, x, entry_names(), p as int);
            assert(entry_views(out@) =~= sorted.insert(p as int, x));
            done = done + 1;
        }
    }
    proof {
        assert(entry_views(todo@).len() == 0);
        assert(done == all.len());
        assert(all.take(done) =~= all);
    }
    out
}

/// What a [`Collector`] needs to know next.
#[derive(Clone, Copy, PartialEq, Eq, Debug, Structural)]
pub enum Step {
    /// The next input, or that there is none.
    Input,
    /// What the current directory resolves to.
    Resolve,
    /// The entries of the current directory.
    List,
    /// What the current entry is.
    Stat,
}

/// The deepest level of source directories below an input.
pub const NESTING_MAX: usize = 64;

struct Frame {
    dir: usize,
    canonical: Vec<u8>,
    // last entry first
    rest: Vec<Entry>,
}

struct Pending {
    dir: usize,
    path: PathBuf,
    shown: String,
    canonical: Option<Vec<u8>>,
}

/// A source directory whose entries are being added: its place in the image,
/// what it resolves to, and the entries that are left.
#[verifier::ext_equal]
pub struct FrameView {
    pub dir: usize,
    pub canonical: Seq<u8>,
    pub rest: Seq<EntryView>,
}

/// A source directory that is about to be read.
#[verifier::ext_equal]
pub struct PendingView {
    pub dir: usize,
    pub path: PathBuf,
    pub shown: Seq<char>,
    pub canonical: Option<Seq<u8>>,
}

impl View for Frame {
    type V = FrameView;

    closed spec fn view(&self) -> FrameView {
        FrameView {
            dir: self.dir,
            canonical: self.canonical@,
            rest: entry_views(self.rest@).reverse(),
        }
    }
}

impl View for Pending {
    type V = PendingView;

    closed spec fn view(&self) -> PendingView {
        PendingView {
            dir: self.dir,
            path: self.path,
            shown: self.shown@,
            canonical: match self.canonical {
                Some(c) => Some(c@),
                None => None,
            },
        }
    }
}

/// The state of a [`Collector`]: the names taken, the payload so far, the
/// source directories from the input down to the current one, and the
/// directory or entry that something has to be known of.
#[verifier::ext_equal]
pub struct WalkView {
    pub flat: bool,
    pub names: Map<NameKey, NameOwner>,
    pub payload: PayloadView,
    pub stack: Seq<FrameView>,
    pub pending: Option<PendingView>,
    pub current: Option<EntryView>,
}

impl WalkView {
    /// The state before the first input.
    pub open spec fn start(flat: bool) -> WalkView {
        WalkView {
            flat,
            names: Map::empty(),
            payload: PayloadView::start(),
            stack: Seq::empty(),
            pending: None,
            current: None,
        }
    }

    /// What has to be known next.
    pub open spec fn step(self) -> Step {
        if self.current is Some {
            Step::Stat
        } else {
            match self.pending {
                Some(p) => if p.canonical is Some {
                    Step::List
                } else {
                    Step::Resolve
                },
                None => Step::Input,
            }
        }
    }

    /// Reserves a name in directory `dir`.
    pub open spec fn reserve(self, dir: usize, name: Seq<char>, shown: Seq<char>) -> Result<
        WalkView,
        Failure,
    > {
        match reserving(self.names, self.payload.dirs[dir as int].path, name, shown) {
            Ok(names) => Ok(WalkView { names, ..self }),
            Err(f) => Err(f),
        }
    }

    /// Goes into a source directory, unless it nests too deep.
    pub open spec fn enter(self, dir: usize, path: PathBuf, shown: Seq<char>) -> Result<
        WalkView,
        Failure,
    > {
        if self.stack.len() > NESTING_MAX {
            Err(Failure::TooDeep { dir: shown })
        } else {
            Ok(
                WalkView {
                    pending: Some(PendingView { dir, path, shown, canonical: None }),
                    ..self
                },
            )
        }
    }

    /// Goes on to the next entry: leaves directories without entries left, and
    /// reserves the name of the entry. At the end of the outermost directory
    /// the next input is due.
    pub open spec fn advance(self) -> Result<WalkView, Failure>
        decreases self.stack.len(),
    {
        if self.stack.len() == 0 {
            Ok(self)
        } else {
            let top = self.stack.last();
            if top.rest.len() == 0 {
                WalkView { stack: self.stack.drop_last(), ..self }.advance()
            } else {
                let e = top.rest[0];
                let shorter = FrameView { rest: top.rest.drop_first(), ..top };
                WalkView {
                    stack: self.stack.drop_last().push(shorter),
                    current: Some(e),
                    ..self
                }.reserve(top.dir, e.name, e.shown)
            }
        }
    }

    /// Takes the next input. `name` is the last component of its path, where
    /// it has one.
    pub open spec fn input(
        self,
        path: PathBuf,
        shown: Seq<char>,
        name: Option<Seq<char>>,
        is_dir: bool,
        len: int,
    ) -> Result<WalkView, Failure> {
        if !is_dir {
            match name {
                None => Err(Failure::BadInput { input: shown }),
                Some(n) => match self.reserve(0, n, shown) {
                    Err(f) => Err(f),
                    Ok(w) => Ok(
                        WalkView { payload: w.payload.with_file(0, n, path, len), ..w },
                    ),
                },
            }
        } else if self.flat || name is None || name == Some("."@) || name == Some(".."@) {
            self.enter(0, path, shown)
        } else {
            let n = name->0;
            match self.reserve(0, n, shown) {
                Err(f) => Err(f),
                Ok(w) => WalkView { payload: w.payload.with_dir(0, n), ..w }.enter(
                    w.payload.dirs.len() as usize,
                    path,
                    shown,
                ),
            }
        }
    }

    /// Takes what the directory about to be read resolves to. A directory that
    /// is being read already closes a cycle.
    pub open spec fn resolved(self, canonical: Seq<u8>) -> Result<WalkView, Failure> {
        let p = self.pending->0;
        if exists|i: int| 0 <= i < self.stack.len() && self.stack[i].canonical == canonical {
            Err(Failure::Cycle { dir: p.shown })
        } else {
            Ok(
                WalkView {
                    pending: Some(PendingView { canonical: Some(canonical), ..p }),
                    ..self
                },
            )
        }
    }

    /// Takes the entries of the directory about to be read.
    pub open spec fn listed(self, entries: Seq<EntryView>) -> Result<WalkView, Failure> {
        let p = self.pending->0;
        WalkView {
            stack: self.stack.push(
                FrameView {
                    dir: p.dir,
                    canonical: p.canonical->0,
                    rest: sort_entries(entries),
                },
            ),
            pending: None,
            ..self
        }.advance()
    }

    /// Takes what the current entry is: goes into a directory, records
    /// anything else as a file.
    pub open spec fn stated(self, is_dir: bool, len: int) -> Result<WalkView, Failure> {
        let e = self.current->0;
        let dir = self.stack.last().dir;
        let w = WalkView { current: None, ..self };
        if is_dir {
            WalkView { payload: w.payload.with_dir(dir as int, e.name), ..w }.enter(
                w.payload.dirs.len() as usize,
                e.path,
                e.shown,
            )
        } else {
            WalkView { payload: w.payload.with_file(dir as int, e.name, e.path, len), ..w }.advance()
        }
    }

    /// The payload is well-formed and all its names are reserved, the
    /// directories in progress are directories of the image, and the name of
    /// the current entry is reserved but not yet used.
    pub open spec fn wf(self) -> bool {
        &&& self.payload.wf()
        &&& self.payload.registered(self.names)
        &&& forall|i: int|
            0 <= i < self.stack.len() ==> (#[trigger] self.stack[i]).dir < self.payload.dirs.len()
        &&& self.pending matches Some(p) ==> p.dir < self.payload.dirs.len()
        &&& self.current matches Some(e) ==> {
            let key = (self.payload.dirs[self.stack.last().dir as int].path, fold(e.name));
            &&& self.pending is None
            &&& self.stack.len() > 0
            &&& self.names.dom().contains(key)
            &&& self.payload.unused(key)
        }
        &&& self.pending is None && self.current is None ==> self.stack.len() == 0
    }
}

/// Collects a payload. It says what it needs to know next ([`Step`]); the
/// answers are given with `input`, `resolved`, `listed` and `stated`. An error
/// ends the collection.
pub struct Collector {
    flat: bool,
    registry: NameRegistry,
    payload: CollectedPayload,
    stack: Vec<Frame>,
    pending: Option<Pending>,
    current: Option<Entry>,
}

impl View for Collector {
    type V = WalkView;

    closed spec fn view(&self) -> WalkView {
        WalkView {
            flat: self.flat,
            names: self.registry@,
            payload: self.payload@,
            stack: self.stack@.map_values(|f: Frame| f@),
            pending: match self.pending {
                Some(p) => Some(p@),
                None => None,
            },
            current: match self.current {
                Some(e) => Some(e@),
                None => None,
            },
        }
    }
}

/// An answer leads to the state given, or to the failure given.
pub open spec fn leads_to(
    r: Result<(Collector, Step), CollectError>,
    want: Result<WalkView, Failure>,
) -> bool {
    match (r, want) {
        (Ok((c, step)), Ok(w)) => c.wf() && c@ == w && step == w.step(),
        (Err(e), Err(f)) => e@ == f,
        _ => false,
    }
}

impl Collector {
    /// The invariant of a collector.
    pub closed spec fn wf(&self) -> bool {
        self.registry.wf() && self@.wf()
    }

    /// A collector before its first input.
    pub fn new(flat: bool) -> (c: Collector)
        ensures
            c.wf(),
            c@ == WalkView::start(flat),
            c@.step() == Step::Input,
    {
        let c = Collector {
            flat,
            registry: NameRegistry::new(),
            payload: CollectedPayload::start(),
            stack: Vec::new(),
            pending: None,
            current: None,
        };
        assert(c@ =~= WalkView::start(flat));
        c
    }

    /// The bytes of the files so far.
    pub fn payload_bytes(&self) -> (n: u64)
        ensures
            n == self@.payload.payload_bytes,
    {
        self.payload.payload_bytes
    }

    /// The path of the directory or entry that something has to be known of.
    pub fn path(&self) -> (p: &PathBuf)
        requires
            self@.step() != Step::Input,
        ensures
            *p == match self@.current {
                Some(e) => e.path,
                None => self@.pending->0.path,
            },
    {
        match &self.current {
            Some(e) => &e.path,
            None => &self.pending.as_ref().unwrap().path,
        }
    }

    /// Reserves a name in directory `dir`.
    fn reserve(&mut self, dir: usize, name: &str, shown: &str) -> (r: Result<(), CollectError>)
        requires
            old(self).registry.wf(),
            dir < old(self)@.payload.dirs.len(),
        ensures
            match (r, old(self)@.reserve(dir, name@, shown@)) {
                (Ok(_), Ok(w)) => final(self).registry.wf() && final(self)@ == w,
                (Err(e), Err(f)) => e@ == f,
                _ => false,
            },
    {
        let ghost before = self@;
        assert(self.payload.dirs@[dir as int]@ == before.payload.dirs[dir as int]);
        let r = self.registry.reserve(self.payload.dirs[dir].path.as_str(), name, shown);
        assert(self@.stack =~= before.stack);
        r
    }

    /// Goes into a source directory, unless it nests too deep.
    fn enter(self, dir: usize, path: PathBuf, shown: String) -> (r: Result<
        (Collector, Step),
        CollectError,
    >)
        requires
            self.registry.wf(),
            self@.payload.wf(),
            self@.payload.registered(self@.names),
            forall|i: int|
                0 <= i < self@.stack.len() ==> (#[trigger] self@.stack[i]).dir
                    < self@.payload.dirs.len(),
            self@.current is None,
            dir < self@.payload.dirs.len(),
        ensures
            leads_to(r, self@.enter(dir, path, shown@)),
    {
        let mut c = self;
        let ghost before = c@;
        if c.stack.len() > NESTING_MAX {
            return Err(CollectError::TooDeep { dir: shown });
        }
        c.pending = Some(Pending { dir, path, shown, canonical: None });
        assert(c@ =~= before.enter(dir, path, shown@)->Ok_0);
        Ok((c, Step::Resolve))
    }

    /// Goes on to the next entry.
    fn advance(self) -> (r: Result<(Collector, Step), CollectError>)
        requires
            self.registry.wf(),
            self@.payload.wf(),
            self@.payload.registered(self@.names),
            forall|i: int|
                0 <= i < self@.stack.len() ==> (#[trigger] self@.stack[i]).dir
                    < self@.payload.dirs.len(),
            self@.current is None,
            self@.pending is None,
        ensures
            leads_to(r, self@.advance()),
    {
        let mut c = self;
        let ghost start = c@;
        while c.stack.len() > 0
            invariant
                c.registry.wf(),
                c@.payload.wf(),
                c@.payload.registered(c@.names),
                forall|i: int|
                    0 <= i < c@.stack.len() ==> (#[trigger] c@.stack[i]).dir
                        < c@.payload.dirs.len(),
                c@.current is None,
                c@.pending is None,
                start == self@,
                start.advance() == c@.advance(),
            decreases c.stack@.len(),
        {
            let ghost before = c@;
            let mut top: Frame = c.stack.pop().unwrap();
            let ghost shorter = c@;
            proof {
                assert(before.stack.last() == top@);
                assert(shorter.stack =~= before.stack.drop_last());
                assert(before.stack[before.stack.len() - 1].dir < before.payload.dirs.len());
                assert forall|i: int| 0 <= i < shorter.stack.len() implies (
                #[trigger] shorter.stack[i]).dir < shorter.payload.dirs.len() by {
                    assert(shorter.stack[i] == before.stack[i]);
                }
            }
            let ghost entries = top.rest@;
            match top.rest.pop() {
                Some(e) => {
                    proof {
                        assert(entry_views(entries).reverse()[0] == e@);
                        assert(entry_views(top.rest@).reverse() =~= entry_views(
                            entries,
                        ).reverse().drop_first());
                    }
                    let dir: usize = top.dir;
                    c.stack.push(top);
                    let name: String = e.name.clone();
                    let shown: String = e.shown.clone();
                    c.current = Some(e);
                    let ghost placed = c@;
                    proof {
                        assert(placed.stack =~= before.stack.drop_last().push(top@));
                        assert(placed =~= WalkView {
                            stack: before.stack.drop_last().push(
                                FrameView {
                                    rest: before.stack.last().rest.drop_first(),
                                    ..before.stack.last()
                                },
                            ),
                            current: Some(e@),
                            ..before
                        });
                    }
                    match c.reserve(dir, name.as_str(), shown.as_str()) {
                        Ok(_) => {
                            proof {
                                reserved_wf(placed, dir, e@);
                            }
                            return Ok((c, Step::Stat));
                        },
                        Err(x) => {
                            return Err(x);
                        },
                    }
                },
                None => {
                    assert(before.stack.last().rest.len() == 0);
                },
            }
        }
        assert(c@.stack.len() == 0);
        Ok((c, Step::Input))
    }
}

impl Collector {
    /// Takes the next input. `name` is the last component of its path, where
    /// it has one; `len` counts for a file.
    pub fn input(
        self,
        path: PathBuf,
        shown: String,
        name: Option<String>,
        is_dir: bool,
        len: u64,
    ) -> (r: Result<(Collector, Step), CollectError>)
        requires
            self.wf(),
            self@.step() == Step::Input,
            !is_dir ==> self@.payload.payload_bytes + len <= u64::MAX,
        ensures
            leads_to(
                r,
                self@.input(
                    path,
                    shown@,
                    match name {
                        Some(n) => Some(n@),
                        None => None,
                    },
                    is_dir,
                    len as int,
                ),
            ),
    {
        let mut c = self;
        let ghost start = c@;
        let keep_parent: bool = !c.flat && match &name {
            Some(n) => !str_eq(n.as_str(), ".") && !str_eq(n.as_str(), ".."),
            None => false,
        };
        if is_dir && !keep_parent {
            return c.enter(0, path, shown);
        }
        let name: String = match name {
            Some(n) => n,
            None => {
                return Err(CollectError::BadInput { input: shown });
            },
        };
        if let Err(x) = c.reserve(0, name.as_str(), shown.as_str()) {
            return Err(x);
        }
        let ghost reserved = c@;
        proof {
            let key = (start.payload.dirs[0].path, fold(name@));
            unused_when_free(start.payload, start.names, key);
            registered_more(start.payload, start.names, reserved.names);
        }
        if is_dir {
            let ghost sub = name@;
            let dir: usize = c.payload.add_dir(0, name);
            proof {
                with_dir_wf(reserved.payload, 0, sub);
                assert(c@ =~= WalkView { payload: reserved.payload.with_dir(0, sub), ..reserved });
            }
            c.enter(dir, path, shown)
        } else {
            let ghost file = name@;
            c.payload.add_file(0, name, path, len);
            proof {
                with_file_wf(reserved.payload, 0, file, path, len as int);
                assert(c@ =~= WalkView {
                    payload: reserved.payload.with_file(0, file, path, len as int),
                    ..reserved
                });
            }
            Ok((c, Step::Input))
        }
    }

    /// Takes what the directory about to be read resolves to.
    pub fn resolved(self, canonical: Vec<u8>) -> (r: Result<(Collector, Step), CollectError>)
        requires
            self.wf(),
            self@.step() == Step::Resolve,
        ensures
            leads_to(r, self@.resolved(canonical@)),
    {
        let mut c = self;
        let ghost start = c@;
        let mut pending: Pending = c.pending.take().unwrap();
        let n: usize = c.stack.len();
        let mut i: usize = 0;
        while i < n
            invariant
                n == c.stack@.len(),
                i <= n,
                start == self@,
                start.stack == c.stack@.map_values(|f: Frame| f@),
                start.pending == Some(pending@),
                forall|j: int| 0 <= j < i ==> start.stack[j].canonical != canonical@,
            decreases n - i,
        {
            assert(start.stack[i as int] == c.stack@[i as int]@);
            if bytes_eq(c.stack[i].canonical.as_slice(), canonical.as_slice()) {
                return Err(CollectError::Cycle { dir: pending.shown });
            }
            i += 1;
        }
        pending.canonical = Some(canonical);
        c.pending = Some(pending);
        assert(c@ =~= start.resolved(canonical@)->Ok_0);
        Ok((c, Step::List))
    }

    /// Takes the entries of the directory about to be read.
    pub fn listed(self, entries: Vec<Entry>) -> (r: Result<(Collector, Step), CollectError>)
        requires
            self.wf(),
            self@.step() == Step::List,
        ensures
            leads_to(r, self@.listed(entry_views(entries@))),
    {
        let mut c = self;
        let ghost start = c@;
        let pending: Pending = c.pending.take().unwrap();
        let sorted: Vec<Entry> = sorted_entries(entries);
        let rest: Vec<Entry> = reversed(sorted);
        let frame = Frame { dir: pending.dir, canonical: pending.canonical.unwrap(), rest };
        c.stack.push(frame);
        proof {
            let all = sort_entries(entry_views(entries@));
            assert(entry_views(rest@).reverse() =~= all);
            assert(c@.stack =~= start.stack.push(frame@));
            assert forall|i: int| 0 <= i < c@.stack.len() implies (#[trigger] c@.stack[i]).dir
                < c@.payload.dirs.len() by {
                if i < start.stack.len() {
                    assert(c@.stack[i] == start.stack[i]);
                }
            }
        }
        c.advance()
    }

    /// Takes what the current entry is.
    pub fn stated(self, is_dir: bool, len: u64) -> (r: Result<(Collector, Step), CollectError>)
        requires
            self.wf(),
            self@.step() == Step::Stat,
            !is_dir ==> self@.payload.payload_bytes + len <= u64::MAX,
        ensures
            leads_to(r, self@.stated(is_dir, len as int)),
    {
        let mut c = self;
        let ghost start = c@;
        let e: Entry = c.current.take().unwrap();
        let ghost w = c@;
        let n: usize = c.stack.len();
        let dir: usize = c.stack[n - 1].dir;
        proof {
            assert(start.stack[n - 1] == c.stack@[n - 1]@);
            assert(w =~= WalkView { current: None, ..start });
        }
        if is_dir {
            let sub: usize = c.payload.add_dir(dir, e.name);
            proof {
                with_dir_wf(w.payload, dir as int, e.name@);
                assert(c@ =~= WalkView {
                    payload: w.payload.with_dir(dir as int, e.name@),
                    ..w
                });
            }
            c.enter(sub, e.path, e.shown)
        } else {
            c.payload.add_file(dir, e.name, e.path, len);
            proof {
                with_file_wf(w.payload, dir as int, e.name@, e.path, len as int);
                assert(c@ =~= WalkView {
                    payload: w.payload.with_file(dir as int, e.name@, e.path, len as int),
                    ..w
                });
            }
            c.advance()
        }
    }

    /// The payload, when all inputs have been taken; an error where it has no
    /// file.
    pub fn finish(self) -> (r: Result<CollectedPayload, CollectError>)
        requires
            self.wf(),
            self@.step() == Step::Input,
        ensures
            match r {
                Ok(p) => p@ == self@.payload && p@.wf() && p@.records.len() > 0,
                Err(e) => e@ == Failure::NoFiles && self@.payload.records.len() == 0,
            },
    {
        if self.payload.records.len() == 0 {
            Err(CollectError::NoFiles)
        } else {
            Ok(self.payload)
        }
    }
}

/// Once the name of the current entry is reserved, the state is well-formed.
proof fn reserved_wf(w: WalkView, dir: usize, e: EntryView)
    requires
        w.payload.wf(),
        w.payload.registered(w.names),
        forall|i: int|
            0 <= i < w.stack.len() ==> (#[trigger] w.stack[i]).dir < w.payload.dirs.len(),
        w.stack.len() > 0,
        w.stack.last().dir == dir,
        w.current == Some(e),
        w.pending is None,
    ensures
        w.reserve(dir, e.name, e.shown) matches Ok(x) ==> x.wf(),
{
    if let Ok(x) = w.reserve(dir, e.name, e.shown) {
        let key = (w.payload.dirs[dir as int].path, fold(e.name));
        unused_when_free(w.payload, w.names, key);
        registered_more(w.payload, w.names, x.names);
    }
}

proof fn unused_when_free(p: PayloadView, names: Map<NameKey, NameOwner>, key: NameKey)
    requires
        p.registered(names),
        !names.dom().contains(key),
    ensures
        p.unused(key),
{
}

proof fn registered_more(
    p: PayloadView,
    names: Map<NameKey, NameOwner>,
    more: Map<NameKey, NameOwner>,
)
    requires
        p.registered(names),
        forall|k: NameKey| #[trigger] names.dom().contains(k) ==> more.dom().contains(k),
    ensures
        p.registered(more),
{
    assert forall|d: int, i: int|
        0 <= d < p.dirs.len() && 0 <= i < p.dirs[d].entries.len() implies more.dom().contains(
        #[trigger] p.entry_key(d, i),
    ) by {
        assert(names.dom().contains(p.entry_key(d, i)));
    }
}

} // verus!
