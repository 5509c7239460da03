//! The operations of `std::path` that the library's logic relies on. Their
//! results follow the platform's path rules; each is named by a function of
//! its arguments.
use vstd::prelude::*;

verus! {

/// The kind of a failure to read from or write to the file system, as far as
/// the library tells kinds apart.
#[derive(PartialEq, Eq, Structural, Clone, Copy, Debug)]
pub enum IoErrorKind {
    NotFound,
    Other,
}

/// A failure to read from or write to the file system: its kind and message.
#[derive(Debug, PartialEq)]
pub struct IoFailure {
    pub kind: IoErrorKind,
    pub message: String,
}

/// What `Path::parent` gives for a path.
pub uninterp spec fn path_parent(p: Seq<char>) -> Option<Seq<char>>;

/// What `Path::join` gives for a base path and a path.
pub uninterp spec fn path_join(base: Seq<char>, p: Seq<char>) -> Seq<char>;

/// The path that `Path::components` gives back when its components are
/// collected into a `PathBuf`: the path without `.` components past the
/// first, repeated separators or a trailing separator.
pub uninterp spec fn path_normalized(p: Seq<char>) -> Seq<char>;

/// What `Path::starts_with` says of a path and a base.
pub uninterp spec fn path_has_prefix(p: Seq<char>, base: Seq<char>) -> bool;

/// What `Path::strip_prefix` gives for a path and a base.
pub uninterp spec fn path_without_prefix(p: Seq<char>, base: Seq<char>) -> Option<Seq<char>>;

/// The texts of the components that `Path::components` gives for a path.
pub uninterp spec fn path_components(p: Seq<char>) -> Seq<Seq<char>>;

/// The path that collecting components into a `PathBuf` gives.
pub uninterp spec fn path_from_parts(parts: Seq<Seq<char>>) -> Seq<char>;

/// What `Path::is_absolute` says of a path.
pub uninterp spec fn path_is_absolute(p: Seq<char>) -> bool;

/// `Path::components`: the text of each component, in order, as
/// `path_components` names them.
#[verifier::external_body]
pub(crate) fn component_texts(p: &str) -> (r: Vec<String>)
    ensures
        r@.map_values(|c: String| c@) == path_components(p@),
{
    std::path::Path::new(p).components().map(|c| c.as_os_str().to_string_lossy().into_owned()).collect()
}

/// `PathBuf::from_iter`: the path made of `parts`, each pushed in turn, as
/// `path_from_parts` names it.
#[verifier::external_body]
pub(crate) fn collect_path(parts: &Vec<String>) -> (r: String)
    ensures
        r@ == path_from_parts(parts@.map_values(|c: String| c@)),
{
    parts.iter().collect::<std::path::PathBuf>().to_string_lossy().into_owned()
}

/// `Path::is_absolute`, as `path_is_absolute` names it.
#[verifier::external_body]
pub(crate) fn is_absolute_path(p: &str) -> (b: bool)
    ensures
        b == path_is_absolute(p@),
{
    std::path::Path::new(p).is_absolute()
}

/// `Path::parent`: the path without its last component, as `path_parent`
/// names it; none for a root or an empty path. The parent is a part of the
/// path, so it is shorter.
#[verifier::external_body]
pub(crate) fn parent_of(p: &str) -> (r: Option<String>)
    ensures
        match r {
            Some(x) => path_parent(p@) == Some(x@) && x@.len() < p@.len(),
            None => path_parent(p@) is None,
        },
{
    std::path::Path::new(p).parent().map(|q| q.to_string_lossy().into_owned())
}

/// `Path::join`: `p` after `base`, as `path_join` names it.
#[verifier::external_body]
pub(crate) fn join_path(base: &str, p: &str) -> (r: String)
    ensures
        r@ == path_join(base@, p@),
{
    std::path::Path::new(base).join(p).to_string_lossy().into_owned()
}

/// `Path::components`, collected back into a path, as `path_normalized`
/// names it.
#[verifier::external_body]
pub(crate) fn normalized_path(p: &str) -> (r: String)
    ensures
        r@ == path_normalized(p@),
{
    std::path::Path::new(p).components().collect::<std::path::PathBuf>().to_string_lossy().into_owned()
}

/// `Path::starts_with`: whether the components of `base` begin those of `p`,
/// as `path_has_prefix` names it.
#[verifier::external_body]
pub(crate) fn path_starts_with(p: &str, base: &str) -> (b: bool)
    ensures
        b == path_has_prefix(p@, base@),
{
    std::path::Path::new(p).starts_with(base)
}

/// `Path::strip_prefix`: the rest of `p` after the components of `base`, as
/// `path_without_prefix` names it; none exactly when `p` does not start
/// with `base`.
#[verifier::external_body]
pub(crate) fn strip_path_prefix(p: &str, base: &str) -> (r: Option<String>)
    ensures
        match r {
            Some(x) => path_without_prefix(p@, base@) == Some(x@),
            None => path_without_prefix(p@, base@) is None,
        },
        (r is Some) == path_has_prefix(p@, base@),
{
    std::path::Path::new(p).strip_prefix(base).ok().map(|q| q.to_string_lossy().into_owned())
}

} // verus!
