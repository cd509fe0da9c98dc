//! Path operations of `std::path`, by the text of the paths.
use vstd::prelude::*;

verus! {

/// What `Path::join` gives for the base path `base` and the path `rel`.
pub uninterp spec fn joined_path(base: Seq<char>, rel: Seq<char>) -> Seq<char>;

/// Whether `Path` equality (component by component) holds between `a` and `b`.
pub uninterp spec fn same_path(a: Seq<char>, b: Seq<char>) -> bool;

/// Whether `Path::ends_with` holds: the components of `suffix` end `p`.
pub uninterp spec fn path_has_suffix(p: Seq<char>, suffix: Seq<char>) -> bool;

/// Calls `Path::join`. The contract names the result `joined_path` of the
/// two texts; the result depends on them alone.
#[verifier::external_body]
pub(crate) fn join_path(base: &str, rel: &str) -> (r: String)
    ensures
        r@ == joined_path(base@, rel@),
{
    std::path::Path::new(base).join(rel).to_string_lossy().into_owned()
}

/// Calls `Path`'s `==`, which compares paths component by component. The
/// contract names the result `same_path` of the two texts.
#[verifier::external_body]
pub(crate) fn paths_equal(a: &str, b: &str) -> (r: bool)
    ensures
        r == same_path(a@, b@),
{
    std::path::Path::new(a) == std::path::Path::new(b)
}

/// Calls `Path::ends_with`. The contract names the result `path_has_suffix`
/// of the two texts.
#[verifier::external_body]
pub(crate) fn path_ends_with(p: &str, suffix: &str) -> (r: bool)
    ensures
        r == path_has_suffix(p@, suffix@),
{
    std::path::Path::new(p).ends_with(suffix)
}

} // verus!
