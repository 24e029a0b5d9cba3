//! File paths, held as strings. What a path's parts are is decided by
//! `std::path`, by the rules of the platform the program is built for.

use vstd::prelude::*;

verus! {

/// The file name of a path without its extension, as `Path::file_stem` gives it.
pub uninterp spec fn path_stem(p: Seq<char>) -> Option<Seq<char>>;

/// The extension of a path, as `Path::extension` gives it.
pub uninterp spec fn path_extension(p: Seq<char>) -> Option<Seq<char>>;

/// The last component of a path, as `Path::file_name` gives it.
pub uninterp spec fn path_file_name(p: Seq<char>) -> Option<Seq<char>>;

/// The path without its last component, as `Path::parent` gives it.
pub uninterp spec fn path_parent(p: Seq<char>) -> Option<Seq<char>>;

/// A path with its file name replaced, as `Path::with_file_name` builds it.
pub uninterp spec fn path_with_file_name(p: Seq<char>, name: Seq<char>) -> Seq<char>;

/// A path with another one appended, as `Path::join` builds it.
pub uninterp spec fn path_join(p: Seq<char>, tail: Seq<char>) -> Seq<char>;

/// Whether two paths are equal component by component, as `Path`'s `==` decides.
pub uninterp spec fn paths_equal(a: Seq<char>, b: Seq<char>) -> bool;

/// Whether `a` sorts before `b`, as `Path`'s `<` decides (component by component).
pub uninterp spec fn path_less(a: Seq<char>, b: Seq<char>) -> bool;

pub open spec fn opt_chars(r: Option<String>) -> Option<Seq<char>> {
    match r {
        Some(s) => Some(s@),
        None => None,
    }
}

/// Calls `Path::file_stem`; its result is named by `path_stem`.
#[verifier::external_body]
pub(crate) fn file_stem(path: &str) -> (r: Option<String>)
    ensures
        opt_chars(r) == path_stem(path@),
{
    std::path::Path::new(path).file_stem().map(|s| s.to_string_lossy().into_owned())
}

/// Calls `Path::extension`; its result is named by `path_extension`.
#[verifier::external_body]
pub(crate) fn extension(path: &str) -> (r: Option<String>)
    ensures
        opt_chars(r) == path_extension(path@),
{
    std::path::Path::new(path).extension().map(|s| s.to_string_lossy().into_owned())
}

/// Calls `Path::file_name`; its result is named by `path_file_name`.
#[verifier::external_body]
pub(crate) fn file_name(path: &str) -> (r: Option<String>)
    ensures
        opt_chars(r) == path_file_name(path@),
{
    std::path::Path::new(path).file_name().map(|s| s.to_string_lossy().into_owned())
}

/// Calls `Path::parent`; its result is named by `path_parent`.
#[verifier::external_body]
pub(crate) fn parent(path: &str) -> (r: Option<String>)
    ensures
        opt_chars(r) == path_parent(path@),
{
    std::path::Path::new(path).parent().map(|s| s.to_string_lossy().into_owned())
}

/// Calls `Path::with_file_name`; its result is named by `path_with_file_name`.
#[verifier::external_body]
pub(crate) fn with_file_name(path: &str, name: &str) -> (r: String)
    ensures
        r@ == path_with_file_name(path@, name@),
{
    std::path::Path::new(path).with_file_name(name).to_string_lossy().into_owned()
}

/// Calls `Path::join`; its result is named by `path_join`.
#[verifier::external_body]
pub(crate) fn join(path: &str, tail: &str) -> (r: String)
    ensures
        r@ == path_join(path@, tail@),
{
    std::path::Path::new(path).join(tail).to_string_lossy().into_owned()
}

/// Calls `==` on two `Path`s; its answer is named by `paths_equal`. `Path`
/// is `Ord`, a total order that agrees with its `==`: equality is reflexive;
/// equal paths sort neither way; of two paths that differ one sorts before
/// the other, and when `a` does not sort before `b`, whatever sorts before
/// `b` sorts before `a` too.
#[verifier::external_body]
pub(crate) fn equal(a: &str, b: &str) -> (r: bool)
    ensures
        r == paths_equal(a@, b@),
        a@ == b@ ==> r,
        r ==> !path_less(a@, b@) && !path_less(b@, a@),
        !r ==> path_less(a@, b@) || path_less(b@, a@),
        !r && !path_less(a@, b@) ==> forall|c: Seq<char>| #[trigger] path_less(c, b@) ==> path_less(c, a@),
{
    std::path::Path::new(a) == std::path::Path::new(b)
}

/// Calls `<` on two `Path`s; its answer is named by `path_less`. `Path` is
/// `Ord`, a total order that agrees with its `==`: no path sorts before
/// itself; when `a` sorts before `b`, `b` does not sort before `a`, they are
/// not equal, and the order passes along through either of them; when it
/// does not, `b` sorts before `a` or the two are equal.
#[verifier::external_body]
pub(crate) fn less(a: &str, b: &str) -> (r: bool)
    ensures
        r == path_less(a@, b@),
        a@ == b@ ==> !r,
        r ==> !path_less(b@, a@) && !paths_equal(a@, b@),
        r ==> forall|c: Seq<char>| #[trigger] path_less(c, a@) ==> path_less(c, b@),
        r ==> forall|c: Seq<char>| #[trigger] path_less(b@, c) ==> path_less(a@, c),
        !r ==> path_less(b@, a@) || paths_equal(a@, b@),
{
    std::path::Path::new(a) < std::path::Path::new(b)
}

} // verus!
