//! The relative paths of recipe references, handled by the `relative-path`
//! crate.

use relative_path::RelativePath;
use vstd::prelude::*;

verus! {

/// What `relative_path::RelativePath::normalize` gives for a path: `.`
/// components removed and `..` components resolved where they can be
pub uninterp spec fn relative_normalize(path: Seq<char>) -> Seq<char>;

/// What `relative_path::RelativePath::starts_with` answers: whether the
/// components of `base` are a prefix of those of `path`
pub uninterp spec fn relative_starts_with(path: Seq<char>, base: Seq<char>) -> bool;

/// What `relative_path::RelativePath::file_name` gives for a path: its last
/// component that is not `.`, if that is a normal name
pub uninterp spec fn relative_file_name(path: Seq<char>) -> Option<Seq<char>>;

/// What `relative_path::RelativePath::parent` gives for a non-empty path:
/// the path without its last component
pub uninterp spec fn relative_parent(path: Seq<char>) -> Seq<char>;

/// What `==` on `relative_path::RelativePath` answers: whether both paths
/// have the same components
pub uninterp spec fn relative_path_eq(a: Seq<char>, b: Seq<char>) -> bool;

/// `path` appended to `base`, as `relative_path::RelativePath::join` does:
/// a separator between them unless `base` is empty or ends with one, and a
/// leading separator of `path` dropped
pub open spec fn join_spec(base: Seq<char>, path: Seq<char>) -> Seq<char> {
    let sep = if base.len() > 0 && base.last() != '/' {
        seq!['/']
    } else {
        Seq::empty()
    };
    let rest = if path.len() > 0 && path[0] == '/' {
        path.drop_first()
    } else {
        path
    };
    base + sep + rest
}

/// Calls `RelativePath::normalize`; the result is named by
/// [`relative_normalize`]. As its source shows, the last component that is
/// not `.` is kept when it is a normal name, since only a later `..` could
/// remove it, so such a path keeps its file name.
#[verifier::external_body]
pub(crate) fn normalize(path: &str) -> (r: String)
    ensures
        r@ == relative_normalize(path@),
        relative_file_name(path@) is Some ==> relative_file_name(r@) == relative_file_name(path@),
{
    RelativePath::new(path).normalize().into_string()
}

/// Calls `RelativePath::starts_with`; the answer is named by
/// [`relative_starts_with`].
#[verifier::external_body]
pub(crate) fn starts_with(path: &str, base: &str) -> (r: bool)
    ensures
        r == relative_starts_with(path@, base@),
{
    RelativePath::new(path).starts_with(base)
}

/// Calls `RelativePath::file_name`; the answer is named by
/// [`relative_file_name`].
#[verifier::external_body]
pub(crate) fn file_name(path: &str) -> (r: Option<&str>)
    ensures
        r is Some == relative_file_name(path@) is Some,
        r matches Some(name) ==> name@ == relative_file_name(path@)->0,
{
    RelativePath::new(path).file_name()
}

/// Calls `RelativePath::parent`: it is `None` exactly for the empty path, as
/// its source shows, and otherwise named by [`relative_parent`].
#[verifier::external_body]
pub(crate) fn parent(path: &str) -> (r: Option<&str>)
    ensures
        r is None == (path@.len() == 0),
        r matches Some(p) ==> p@ == relative_parent(path@),
{
    RelativePath::new(path).parent().map(RelativePath::as_str)
}

/// Calls `RelativePath::join`, which appends as [`join_spec`] states. The
/// components of `path` end the joined path, so a `path` with a file name
/// gives the joined path that file name.
#[verifier::external_body]
pub(crate) fn join(base: &str, path: &str) -> (r: String)
    ensures
        r@ == join_spec(base@, path@),
        relative_file_name(path@) is Some ==> relative_file_name(r@) == relative_file_name(path@),
{
    RelativePath::new(base).join(path).into_string()
}

/// Calls `==` on `RelativePath`; the answer is named by
/// [`relative_path_eq`].
#[verifier::external_body]
pub(crate) fn path_eq(a: &str, b: &str) -> (r: bool)
    ensures
        r == relative_path_eq(a@, b@),
{
    RelativePath::new(a) == RelativePath::new(b)
}

/// `stem` is an answer [`file_stem`] can give for `path`
pub closed spec fn path_stem(path: String, stem: Option<&str>) -> bool {
    call_ensures(file_stem, (&path,), stem)
}

/// Calls `std::path::Path::file_stem` on `path` and gives the stem as text.
/// Which characters separate the components of a path depends on the
/// platform, so nothing is claimed of the answer.
#[verifier::external_body]
pub(crate) fn file_stem(path: &String) -> Option<&str> {
    std::path::Path::new(path).file_stem().and_then(|stem| stem.to_str())
}

/// The stem of the file name of `path`, as [`file_stem`] gives it
pub(crate) fn stem_of(path: &String) -> (r: Option<&str>)
    ensures
        path_stem(*path, r),
{
    file_stem(path)
}

} // verus!
