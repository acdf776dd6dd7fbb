//! FAT volumes in memory, made and filled by the `fatfs` crate.
//!
//! A volume is a byte string. Every call mounts it, does one thing and
//! unmounts it again.
use vstd::prelude::*;
use std::io::Cursor;
use std::io::Write;
use crate::paths::{last_dot_of, leaf_of, parent_of};
use crate::text::{ascii_upper_char, upper};

verus! {

/// What a volume holds: for every path (components joined by '/') the
/// contents of the file there, or `None` for a directory.
pub type FatTree = Map<Seq<char>, Option<Seq<u8>>>;

/// What a volume holds that `fatfs` has made of zeros and filled itself: all
/// directories below the root and all files with their contents, under the
/// names that were stored. `None` for all other bytes.
pub uninterp spec fn fat_tree(image: Seq<u8>) -> Option<FatTree>;

/// What `fatfs::format_volume` makes of a byte string, with the wish for a
/// FAT32 or a FAT16 layout and a label; `None` where it fails.
pub uninterp spec fn fat_format(image: Seq<u8>, fat32: bool, label: Seq<u8>) -> Option<Seq<u8>>;

/// The number of free clusters and the size of a cluster that
/// `FileSystem::stats` gives for a volume.
pub uninterp spec fn fat_space(image: Seq<u8>) -> (u32, u32);

/// Whether `Dir::open_dir` finds a directory in a volume.
pub uninterp spec fn fat_finds_dir(image: Seq<u8>, path: Seq<char>) -> bool;

/// Whether `Dir::open_file` finds a file in a volume.
pub uninterp spec fn fat_finds_file(image: Seq<u8>, path: Seq<char>) -> bool;

/// Whether `Dir::create_dir` adds a directory to a volume, or finds it there.
pub uninterp spec fn fat_makes_dir(image: Seq<u8>, path: Seq<char>) -> bool;

/// Whether `Dir::create_file` and writing to the file put contents on a volume.
pub uninterp spec fn fat_puts_file(image: Seq<u8>, path: Seq<char>, content: Seq<u8>) -> bool;

/// Whether a name is read as it was written: it does not end with a dot, which
/// short names drop, nor with the noncharacter that pads long names.
pub open spec fn plain_name(name: Seq<char>) -> bool {
    &&& name.len() > 0
    &&& name.last() != '.'
    &&& name.last() != '\u{FFFF}'
}

/// Whether a character can stand in a short name.
pub open spec fn short_char(c: char) -> bool {
    ||| 'A' <= c <= 'Z'
    ||| 'a' <= c <= 'z'
    ||| '0' <= c <= '9'
    ||| "!#$%&'()-@^_`{}~"@.contains(c)
}

/// The part of a name before its last dot.
pub open spec fn stem_part(name: Seq<char>) -> Seq<char> {
    if last_dot_of(name) < 0 {
        name
    } else {
        name.take(last_dot_of(name))
    }
}

/// The part of a name behind its last dot.
pub open spec fn extension_part(name: Seq<char>) -> Seq<char> {
    if last_dot_of(name) < 0 {
        Seq::empty()
    } else {
        name.skip(last_dot_of(name) + 1)
    }
}

/// Whether a name is its own short name but for case: up to eight characters
/// and, behind a dot, up to three more.
pub open spec fn short_form(name: Seq<char>) -> bool {
    let stem = stem_part(name);
    let extension = extension_part(name);
    &&& stem.len() <= 8
    &&& forall|i: int| 0 <= i < stem.len() ==> short_char(#[trigger] stem[i])
    &&& extension.len() <= 3
    &&& forall|i: int| 0 <= i < extension.len() ==> short_char(#[trigger] extension[i])
}

/// What short names keep of a part of a name: its first `n` characters besides
/// blanks and dots, in upper case, with '_' for those that short names do not
/// hold.
pub open spec fn mangled(part: Seq<char>, n: int) -> Seq<char>
    decreases part.len(),
{
    if part.len() == 0 {
        Seq::empty()
    } else {
        let less = mangled(part.drop_last(), n);
        let c = part.last();
        if c == ' ' || c == '.' || less.len() >= n {
            less
        } else if short_char(c) {
            less.push(ascii_upper_char(c))
        } else {
            less.push('_')
        }
    }
}

/// The first `n` characters of a text, or all of them.
pub open spec fn at_most(s: Seq<char>, n: int) -> Seq<char> {
    if s.len() <= n {
        s
    } else {
        s.take(n)
    }
}

/// A numbered short name.
pub open spec fn numbered_name(prefix: Seq<char>, digit: char, extension: Seq<char>) -> Seq<char> {
    let base = prefix.push('~').push(digit);
    if extension.len() == 0 {
        base
    } else {
        base.push('.') + extension
    }
}

/// Whether a text is four hexadecimal digits.
pub open spec fn four_hex_digits(h: Seq<char>) -> bool {
    h.len() == 4 && forall|i: int|
        0 <= i < 4 ==> '0' <= #[trigger] h[i] <= '9' || 'A' <= h[i] <= 'F'
}

/// Whether a text can be the short name that is generated for a name: up to
/// six characters of the stem and a number up to 4, or up to two characters, a
/// checksum and a number, with up to three characters of the extension. A name
/// that is its own short name gets no other.
pub open spec fn may_be_alias(text: Seq<char>, name: Seq<char>) -> bool {
    let stem = mangled(stem_part(name), 8);
    let extension = mangled(extension_part(name), 3);
    &&& !short_form(name)
    &&& {
        ||| exists|d: char|
            '1' <= d <= '4' && text == #[trigger] numbered_name(at_most(stem, 6), d, extension)
        ||| exists|h: Seq<char>, d: char|
            four_hex_digits(h) && '1' <= d <= '9' && text == #[trigger] numbered_name(
                at_most(stem, 2) + h,
                d,
                extension,
            )
    }
}

/// Whether a look for `name` can find an entry named `entry`: they differ in
/// case at most, or the first can be the generated short name of the second.
pub open spec fn mistaken(name: Seq<char>, entry: Seq<char>) -> bool {
    upper(name) == upper(entry) || may_be_alias(upper(name), entry)
}

/// Whether neither of two paths is found in place of the other: they are one
/// path, or lie in different directories, or neither name can be mistaken for
/// the other.
pub open spec fn told_apart(p: Seq<char>, q: Seq<char>) -> bool {
    ||| p == q
    ||| parent_of(p) != parent_of(q)
    ||| !mistaken(leaf_of(p), leaf_of(q)) && !mistaken(leaf_of(q), leaf_of(p))
}

/// Whether a directory of this path is there; the root always is.
pub open spec fn has_dir_at(t: FatTree, path: Seq<char>) -> bool {
    path.len() == 0 || (t.dom().contains(path) && t[path] is None)
}

/// Whether all names of a tree are read as they were written.
pub open spec fn plain_tree(t: FatTree) -> bool {
    forall|p: Seq<char>| #[trigger] t.dom().contains(p) ==> plain_name(leaf_of(p))
}

/// Whether an entry of this path has a place in a tree of plain names: it has a
/// plain name, and lies in a directory of the tree.
pub open spec fn has_place(t: FatTree, path: Seq<char>) -> bool {
    &&& plain_tree(t)
    &&& path.len() > 0
    &&& path[0] != '/'
    &&& plain_name(leaf_of(path))
    &&& has_dir_at(t, parent_of(path))
}

/// Whether a path is new in a tree: it has a place there, and can be mistaken
/// for no entry beside it.
pub open spec fn fresh_path(t: FatTree, path: Seq<char>) -> bool {
    &&& has_place(t, path)
    &&& !t.dom().contains(path)
    &&& forall|q: Seq<char>| #[trigger]
        t.dom().contains(q) && parent_of(q) == parent_of(path) ==> !mistaken(
            leaf_of(path),
            leaf_of(q),
        )
}

/// Whether a look for a path finds a file or a directory.
pub open spec fn fat_finds(image: Seq<u8>, path: Seq<char>) -> bool {
    fat_finds_dir(image, path) || fat_finds_file(image, path)
}

/// `fatfs::format_volume`: makes an empty FAT volume of zeros. The
/// result depends on the bytes, the layout asked for and the label; where it
/// succeeds, the volume holds nothing.
#[verifier::external_body]
pub(crate) fn format_image(image: &mut Vec<u8>, fat32: bool, label: [u8; 11]) -> (r: Result<
    (),
    String,
>)
    requires
        0x10_0000 <= old(image)@.len() <= 0x1_0000_0000,
        old(image)@.len() % 512 == 0,
        forall|i: int| 0 <= i < old(image)@.len() ==> #[trigger] old(image)@[i] == 0,
    ensures
        final(image)@.len() == old(image)@.len(),
        r is Ok ==> fat_format(old(image)@, fat32, label@) == Some(final(image)@) && fat_tree(
            final(image)@,
        ) == Some(FatTree::empty()),
        r is Err ==> fat_format(old(image)@, fat32, label@) is None,
{
    let kind = if fat32 { fatfs::FatType::Fat32 } else { fatfs::FatType::Fat16 };
    let options = fatfs::FormatVolumeOptions::new().fat_type(kind).volume_label(label);
    fatfs::format_volume(Cursor::new(&mut image[..]), options).map_err(|e| e.to_string())
}

/// `FileSystem::new`: mounts a volume. A volume of `fatfs` can be mounted, and
/// mounting and unmounting leave it as it is.
#[verifier::external_body]
pub(crate) fn open_image(image: &mut Vec<u8>) -> (r: Result<(), String>)
    requires
        fat_tree(old(image)@) is Some,
    ensures
        final(image)@ == old(image)@,
        r is Ok,
{
    fatfs::FileSystem::new(Cursor::new(&mut image[..]), fatfs::FsOptions::new())
        .map(|_| ())
        .map_err(|e| e.to_string())
}

/// `FileSystem::stats`: counts the free clusters of a volume. What the volume
/// holds stays as it is; its record of the free clusters may be filled in.
#[verifier::external_body]
pub(crate) fn free_space(image: &mut Vec<u8>) -> (r: Result<(u32, u32), String>)
    requires
        fat_tree(old(image)@) is Some,
    ensures
        final(image)@.len() == old(image)@.len(),
        fat_tree(final(image)@) == fat_tree(old(image)@),
        r is Ok && r->Ok_0 == fat_space(old(image)@),
{
    let fs = fatfs::FileSystem::new(Cursor::new(&mut image[..]), fatfs::FsOptions::new());
    let stats = fs.and_then(|fs| fs.stats()).map_err(|e| e.to_string())?;
    Ok((stats.free_clusters(), stats.cluster_size()))
}

/// `Dir::open_dir` from the root: whether a look for this path finds a
/// directory. The volume stays as it is. Entries are found without regard to
/// case and by their generated short names too, so a new path finds nothing.
/// Where all names are plain, a path of the volume leads to its own entry:
/// `fatfs` adds no entry for a name that it finds already, and finds older
/// entries first.
#[verifier::external_body]
pub(crate) fn has_dir(image: &mut Vec<u8>, path: &str) -> (r: bool)
    requires
        fat_tree(old(image)@) is Some,
    ensures
        final(image)@ == old(image)@,
        r == fat_finds_dir(old(image)@, path@),
        plain_tree(fat_tree(old(image)@)->0) && fat_tree(old(image)@)->0.dom().contains(path@)
            ==> r == (fat_tree(old(image)@)->0[path@] is None),
        fresh_path(fat_tree(old(image)@)->0, path@) ==> !r,
{
    let fs = fatfs::FileSystem::new(Cursor::new(&mut image[..]), fatfs::FsOptions::new());
    match fs {
        Ok(fs) => fs.root_dir().open_dir(path).is_ok(),
        Err(_) => false,
    }
}

/// `Dir::open_file` from the root: whether a look for this path finds a file.
/// What is found is as with `has_dir`. The volume stays as it is.
#[verifier::external_body]
pub(crate) fn has_file(image: &mut Vec<u8>, path: &str) -> (r: bool)
    requires
        fat_tree(old(image)@) is Some,
    ensures
        final(image)@ == old(image)@,
        r == fat_finds_file(old(image)@, path@),
        plain_tree(fat_tree(old(image)@)->0) && fat_tree(old(image)@)->0.dom().contains(path@)
            ==> r == (fat_tree(old(image)@)->0[path@] is Some),
        fresh_path(fat_tree(old(image)@)->0, path@) ==> !r,
{
    let fs = fatfs::FileSystem::new(Cursor::new(&mut image[..]), fatfs::FsOptions::new());
    match fs {
        Ok(fs) => fs.root_dir().open_file(path).is_ok(),
        Err(_) => false,
    }
}

/// `Dir::create_dir` from the root: adds an empty directory. Whether it can
/// depends on the volume and the path; it cannot where there is a file of that
/// path. The volume stays one of `fatfs` and keeps its size. Where a look for
/// the path finds nothing and the path has a place, the directory is new and
/// all else stays. The time stamps that `fatfs` takes from the clock are no
/// part of the tree.
#[verifier::external_body]
pub(crate) fn make_dir(image: &mut Vec<u8>, path: &str) -> (r: Result<(), String>)
    requires
        fat_tree(old(image)@) is Some,
    ensures
        final(image)@.len() == old(image)@.len(),
        (r is Ok) == fat_makes_dir(old(image)@, path@),
        r is Ok ==> fat_tree(final(image)@) is Some,
        r is Ok && has_place(fat_tree(old(image)@)->0, path@) && !fat_finds(
            old(image)@,
            path@,
        ) ==> fat_tree(final(image)@)->0 == fat_tree(old(image)@)->0.insert(path@, None),
        plain_tree(fat_tree(old(image)@)->0) && fat_tree(old(image)@)->0.dom().contains(path@)
            && fat_tree(old(image)@)->0[path@] is Some ==> r is Err,
{
    let fs = fatfs::FileSystem::new(Cursor::new(&mut image[..]), fatfs::FsOptions::new())
        .map_err(|e| e.to_string())?;
    let made = fs.root_dir().create_dir(path).map(|_| ()).map_err(|e| e.to_string());
    made
}

/// Which part of adding a file failed.
#[derive(Debug)]
pub enum PutFault {
    Create(String),
    Write(String),
    Flush(String),
}

/// `Dir::create_file` from the root, then `File::write_all` and `File::flush`:
/// adds a file with the given contents. Whether it can depends on the volume,
/// the path and the contents; it cannot where there is a directory of that
/// path. The volume stays one of `fatfs` and keeps its size. Where a look for
/// the path finds nothing and the path has a place, the file is new and all
/// else stays. The time stamps that `fatfs` takes from the clock are no part of
/// the tree.
#[verifier::external_body]
pub(crate) fn put_file(image: &mut Vec<u8>, path: &str, content: &[u8]) -> (r: Result<
    (),
    PutFault,
>)
    requires
        fat_tree(old(image)@) is Some,
    ensures
        final(image)@.len() == old(image)@.len(),
        (r is Ok) == fat_puts_file(old(image)@, path@, content@),
        r is Ok ==> fat_tree(final(image)@) is Some,
        r is Ok && has_place(fat_tree(old(image)@)->0, path@) && !fat_finds(
            old(image)@,
            path@,
        ) ==> fat_tree(final(image)@)->0 == fat_tree(old(image)@)->0.insert(
            path@,
            Some(content@),
        ),
        plain_tree(fat_tree(old(image)@)->0) && fat_tree(old(image)@)->0.dom().contains(path@)
            && fat_tree(old(image)@)->0[path@] is None ==> r is Err,
{
    let fs = fatfs::FileSystem::new(Cursor::new(&mut image[..]), fatfs::FsOptions::new())
        .map_err(|e| PutFault::Create(e.to_string()))?;
    let created = fs.root_dir().create_file(path);
    let mut file = created.map_err(|e| PutFault::Create(e.to_string()))?;
    file.write_all(content).map_err(|e| PutFault::Write(e.to_string()))?;
    file.flush().map_err(|e| PutFault::Flush(e.to_string()))
}

} // verus!
