//! Paths: those of the host, carried through as opaque values, and paths as
//! text with '/' between the components.
use vstd::prelude::*;

verus! {

/// `std::path::PathBuf`. The library stores host paths and hands them back;
/// it never looks inside one.
#[verifier::external_type_specification]
#[verifier::external_body]
pub struct ExPathBuf(std::path::PathBuf);

/// The position of the last '/' of a path, or -1.
pub open spec fn last_slash(path: Seq<char>) -> int
    decreases path.len(),
{
    if path.len() == 0 {
        -1
    } else if path.last() == '/' {
        path.len() - 1
    } else {
        last_slash(path.drop_last())
    }
}

/// The directory that a path lies in; "" is the root.
pub open spec fn parent_of(path: Seq<char>) -> Seq<char> {
    if last_slash(path) < 0 {
        Seq::empty()
    } else {
        path.take(last_slash(path))
    }
}

/// The last component of a path.
pub open spec fn leaf_of(path: Seq<char>) -> Seq<char> {
    path.skip(last_slash(path) + 1)
}

/// The position of the last '.' of a name, or -1.
pub open spec fn last_dot_of(name: Seq<char>) -> int
    decreases name.len(),
{
    if name.len() == 0 {
        -1
    } else if name.last() == '.' {
        name.len() - 1
    } else {
        last_dot_of(name.drop_last())
    }
}

/// A file name without its extension: what stands before the last dot, unless
/// that is the first character or there is none.
pub open spec fn name_stem(name: Seq<char>) -> Seq<char> {
    if last_dot_of(name) <= 0 {
        name
    } else {
        name.take(last_dot_of(name))
    }
}

/// Whether a path reads the same on every host: '/' is its only separator, and
/// it has no drive or share in front.
pub open spec fn portable_path(path: Seq<char>) -> bool {
    &&& forall|i: int| 0 <= i < path.len() ==> #[trigger] path[i] != '\\' && path[i] != ':'
    &&& !(path.len() >= 2 && path[0] == '/' && path[1] == '/')
}

/// A path without "/" and "/." at its end.
pub open spec fn trimmed(path: Seq<char>) -> Seq<char>
    decreases path.len(),
{
    let n = path.len();
    if n > 0 && path[n - 1] == '/' {
        trimmed(path.drop_last())
    } else if n > 1 && path[n - 1] == '.' && path[n - 2] == '/' {
        trimmed(path.take(n - 2))
    } else {
        path
    }
}

/// The name that a path ends with: its last component, unless there is none or
/// it is "." or "..".
pub open spec fn path_name(path: Seq<char>) -> Option<Seq<char>> {
    let last = leaf_of(trimmed(path));
    if last.len() == 0 || last == seq!['.'] || last == seq!['.', '.'] {
        None
    } else {
        Some(last)
    }
}

/// The name that a path ends with, without its extension.
pub open spec fn path_stem(path: Seq<char>) -> Option<Seq<char>> {
    match path_name(path) {
        Some(name) => Some(name_stem(name)),
        None => None,
    }
}

/// `Path::file_name`: the last component of a path, if it is a name. Separators
/// and "." components at the end are passed over. What separates components,
/// besides '/', depends on the host: stated for portable paths.
#[verifier::external_body]
fn path_file_name(path: &str) -> (r: Option<String>)
    ensures
        portable_path(path@) ==> (r is Some) == (path_name(path@) is Some),
        portable_path(path@) && r is Some ==> r->0@ == path_name(path@)->0,
{
    std::path::Path::new(path).file_name().map(|name| name.to_string_lossy().into_owned())
}

/// `Path::file_stem`: the last component of a path without its extension, if it
/// is a name. Stated for portable paths.
#[verifier::external_body]
fn path_file_stem(path: &str) -> (r: Option<String>)
    ensures
        portable_path(path@) ==> (r is Some) == (path_stem(path@) is Some),
        portable_path(path@) && r is Some ==> r->0@ == path_stem(path@)->0,
{
    std::path::Path::new(path).file_stem().map(|stem| stem.to_string_lossy().into_owned())
}

/// The name of an input: the last component of its path, if that is a name.
pub fn input_name(path: &str) -> (r: Option<String>)
    ensures
        portable_path(path@) ==> match (r, path_name(path@)) {
            (Some(n), Some(name)) => n@ == name,
            (None, None) => true,
            _ => false,
        },
{
    path_file_name(path)
}

/// The stem of an output: the last component of its path without extension, if
/// that is a name.
pub fn output_stem(path: &str) -> (r: Option<String>)
    ensures
        portable_path(path@) ==> match (r, path_stem(path@)) {
            (Some(n), Some(stem)) => n@ == stem,
            (None, None) => true,
            _ => false,
        },
{
    path_file_stem(path)
}

/// The name found, or the whole path where there is none.
pub fn name_or_path(name: Option<String>, path: &str) -> (r: String)
    ensures
        r@ == match name {
            Some(n) => n@,
            None => path@,
        },
{
    match name {
        Some(n) => n,
        None => path.to_string(),
    }
}

/// The last component of a path, or the whole path where that is no name.
pub fn file_name_of(path: &str) -> (r: String)
    ensures
        portable_path(path@) ==> r@ == match path_name(path@) {
            Some(name) => name,
            None => path@,
        },
{
    name_or_path(path_file_name(path), path)
}

// ---------------------------------------------------------------------------
// what a path says
// ---------------------------------------------------------------------------

/// Whether a text has no '/' in it.
pub open spec fn no_slash(s: Seq<char>) -> bool {
    forall|i: int| 0 <= i < s.len() ==> #[trigger] s[i] != '/'
}

/// A component behind a directory is the last component of its path, and the
/// directory is what it lies in.
pub proof fn components_are_split(dir: Seq<char>, name: Seq<char>)
    requires
        no_slash(name),
    ensures
        parent_of(dir.push('/') + name) == dir,
        leaf_of(dir.push('/') + name) == name,
        parent_of(name) == Seq::<char>::empty(),
        leaf_of(name) == name,
{
    let p = dir.push('/') + name;
    slash_before(dir, name);
    no_last_slash(name);
    assert(p.take(dir.len() as int) =~= dir);
    assert(p.skip(dir.len() as int + 1) =~= name);
    assert(name.skip(0) =~= name);
}

proof fn slash_before(dir: Seq<char>, name: Seq<char>)
    requires
        no_slash(name),
    ensures
        last_slash(dir.push('/') + name) == dir.len(),
    decreases name.len(),
{
    let p = dir.push('/') + name;
    if name.len() == 0 {
        assert(p =~= dir.push('/'));
    } else {
        let less = name.drop_last();
        assert forall|i: int| 0 <= i < less.len() implies #[trigger] less[i] != '/' by {
            assert(less[i] == name[i]);
        }
        assert(p.last() == name[name.len() - 1]);
        assert(p.drop_last() =~= dir.push('/') + less);
        slash_before(dir, less);
    }
}

proof fn no_last_slash(name: Seq<char>)
    requires
        no_slash(name),
    ensures
        last_slash(name) == -1,
    decreases name.len(),
{
    if name.len() > 0 {
        let less = name.drop_last();
        assert forall|i: int| 0 <= i < less.len() implies #[trigger] less[i] != '/' by {
            assert(less[i] == name[i]);
        }
        assert(name.last() == name[name.len() - 1]);
        no_last_slash(less);
    }
}

/// A path ends with the name behind its last '/', where that is a name and not
/// "." or ".."; "/" and "/." at the end do not count.
pub proof fn paths_end_with_names(dir: Seq<char>, name: Seq<char>, path: Seq<char>)
    requires
        no_slash(name),
        name.len() > 0,
        name != seq!['.'],
        name != seq!['.', '.'],
    ensures
        path_name(name) == Some(name),
        path_name(dir.push('/') + name) == Some(name),
        path_name(dir.push('/') + seq!['.', '.']) is None,
        path_name(seq!['.', '.']) is None,
        path_name(path.push('/')) == path_name(path),
        path_name(path.push('/').push('.')) == path_name(path),
        path_name(Seq::empty()) is None,
        path_name(seq!['.']) is None,
{
    let p = dir.push('/') + name;
    components_are_split(dir, name);
    let n = p.len();
    assert(name[name.len() - 1] != '/');
    assert(p[n - 1] == name[name.len() - 1]);
    if name.len() == 1 {
        assert(name =~= seq![name[0]]);
    } else {
        assert(p[n - 2] == name[name.len() - 2]);
        assert(name[name.len() - 2] != '/');
    }
    assert(trimmed(p) == p);
    assert(trimmed(name) == name);
    let up = seq!['.', '.'];
    let q = dir.push('/') + up;
    components_are_split(dir, up);
    assert(q[q.len() - 1] == '.');
    assert(q[q.len() - 2] == '.');
    assert(trimmed(q) == q);
    assert(trimmed(up) == up);
    components_are_split(path, seq!['.']);
    assert(path.push('/').drop_last() =~= path);
    let dotted = path.push('/').push('.');
    assert(dotted.take(dotted.len() - 2) =~= path);
    assert(dotted[dotted.len() - 2] == '/');
    assert(trimmed(seq!['.']) == seq!['.']);
    assert(trimmed(Seq::<char>::empty()) == Seq::<char>::empty());
    assert(leaf_of(Seq::<char>::empty()).len() == 0);
}

/// The stem of a file name is what stands before its last dot, unless that is
/// in front; a name without a dot is its own stem.
pub proof fn stems_are_split(stem: Seq<char>, ext: Seq<char>)
    requires
        forall|i: int| 0 <= i < ext.len() ==> #[trigger] ext[i] != '.',
    ensures
        stem.len() > 0 ==> name_stem(stem.push('.') + ext) == stem,
        name_stem(seq!['.'] + ext) == seq!['.'] + ext,
        name_stem(ext) == ext,
{
    dot_before(stem, ext);
    dot_before(Seq::empty(), ext);
    assert(Seq::<char>::empty().push('.') + ext =~= seq!['.'] + ext);
    assert((stem.push('.') + ext).take(stem.len() as int) =~= stem);
}

proof fn dot_before(stem: Seq<char>, ext: Seq<char>)
    requires
        forall|i: int| 0 <= i < ext.len() ==> #[trigger] ext[i] != '.',
    ensures
        last_dot_of(stem.push('.') + ext) == stem.len(),
        last_dot_of(ext) == -1,
    decreases ext.len(),
{
    let p = stem.push('.') + ext;
    if ext.len() == 0 {
        assert(p =~= stem.push('.'));
    } else {
        let less = ext.drop_last();
        assert forall|i: int| 0 <= i < less.len() implies #[trigger] less[i] != '.' by {
            assert(less[i] == ext[i]);
        }
        assert(p.last() == ext[ext.len() - 1]);
        assert(p.drop_last() =~= stem.push('.') + less);
        dot_before(stem, less);
    }
}

} // verus!
